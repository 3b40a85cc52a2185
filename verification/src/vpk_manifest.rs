//! The manifest of a profile: which mods it holds, and where their files are.
use crate::text;
use crate::path::{path_join, PathView, TreePath};
use crate::shard::{shard_dir_of, BaseView, ProfileBase, ShardIndex};
use crate::table::{Model, Table};
use crate::text::texts;
use vstd::prelude::*;
use vstd::string::*;

verus! {

pub const MANIFEST_FILENAME: &'static str = ".dmm.json";

pub const MANIFEST_TEMP_FILENAME: &'static str = ".dmm.json.tmp";

pub const CURRENT_MANIFEST_VERSION: u32 = 2;

/// What a manifest records of one mod.
#[derive(Debug, Clone, PartialEq, Eq)]
pub struct ProfileVpkManifestEntry {
    pub enabled: bool,
    pub order: Option<u32>,
    /// The shard of the enabled VPKs; a mod is never split over shards.
    pub shard: ShardIndex,
    pub current_vpks: Vec<String>,
    pub disabled_vpks: Vec<String>,
    pub original_vpk_names: Vec<String>,
}

pub struct EntryView {
    pub enabled: bool,
    pub order: Option<u32>,
    pub shard: nat,
    pub current: Seq<Seq<char>>,
    pub disabled: Seq<Seq<char>>,
    pub original: Seq<Seq<char>>,
}

impl View for ProfileVpkManifestEntry {
    type V = EntryView;

    open spec fn view(&self) -> EntryView {
        EntryView {
            enabled: self.enabled,
            order: self.order,
            shard: self.shard.number(),
            current: texts(self.current_vpks@),
            disabled: texts(self.disabled_vpks@),
            original: texts(self.original_vpk_names@),
        }
    }
}

impl Model for ProfileVpkManifestEntry {
    fn copy_value(&self) -> (r: Self) {
        ProfileVpkManifestEntry {
            enabled: self.enabled,
            order: self.order,
            shard: self.shard,
            current_vpks: text::copy_texts(&self.current_vpks),
            disabled_vpks: text::copy_texts(&self.disabled_vpks),
            original_vpk_names: text::copy_texts(&self.original_vpk_names),
        }
    }
}

/// The entry of a mod of which nothing is known.
pub open spec fn blank_entry() -> EntryView {
    EntryView {
        enabled: false,
        order: None,
        shard: 1,
        current: Seq::empty(),
        disabled: Seq::empty(),
        original: Seq::empty(),
    }
}

/// An enabled mod that has files.
pub open spec fn is_active(e: EntryView) -> bool {
    e.enabled && e.current.len() > 0
}

/// Where the files of an entry stand: the enabled ones in its shard, the
/// disabled ones in the base.
pub open spec fn entry_paths(e: EntryView, b: BaseView) -> Seq<PathView> {
    if e.enabled {
        e.current.map_values(|vpk: Seq<char>| path_join(shard_dir_of(b, e.shard), vpk))
    } else {
        e.disabled.map_values(|vpk: Seq<char>| path_join(b.path, vpk))
    }
}

/// The paths of a list.
pub open spec fn path_views(v: Seq<TreePath>) -> Seq<PathView> {
    v.map_values(|p: TreePath| p@)
}

/// The path of each name of a list in one directory.
fn joined_paths(dir: &TreePath, names: &Vec<String>) -> (r: Vec<TreePath>)
    ensures
        path_views(r@) == texts(names@).map_values(|vpk: Seq<char>| path_join(dir@, vpk)),
{
    let mut r: Vec<TreePath> = Vec::new();
    let mut i: usize = 0;
    while i < names.len()
        invariant
            i <= names@.len(),
            r@.len() == i,
            forall|j: int|
                0 <= j < i ==> (#[trigger] r@[j])@ == path_join(dir@, names@[j]@),
        decreases names@.len() - i,
    {
        r.push(dir.join(names[i].as_str()));
        i = i + 1;
    }
    assert(path_views(r@) =~= texts(names@).map_values(
        |vpk: Seq<char>| path_join(dir@, vpk),
    ));
    r
}

impl ProfileVpkManifestEntry {
    pub fn blank() -> (r: ProfileVpkManifestEntry)
        ensures
            r@ == blank_entry(),
    {
        let r = ProfileVpkManifestEntry {
            enabled: false,
            order: None,
            shard: ShardIndex::first(),
            current_vpks: Vec::new(),
            disabled_vpks: Vec::new(),
            original_vpk_names: Vec::new(),
        };
        assert(texts(r.current_vpks@) =~= Seq::empty());
        assert(texts(r.disabled_vpks@) =~= Seq::empty());
        assert(texts(r.original_vpk_names@) =~= Seq::empty());
        r
    }

    /// Where the files of this entry stand.
    pub fn file_paths(&self, base: &ProfileBase) -> (r: Vec<TreePath>)
        ensures
            path_views(r@) == entry_paths(self@, base@),
    {
        if self.enabled {
            let enabled_dir = base.shard_dir(self.shard);
            joined_paths(&enabled_dir, &self.current_vpks)
        } else {
            joined_paths(base.path(), &self.disabled_vpks)
        }
    }
}

impl Default for ProfileVpkManifestEntry {
    fn default() -> (r: Self)
        ensures
            r@ == blank_entry(),
    {
        ProfileVpkManifestEntry::blank()
    }
}

/// The mods of a profile, by their ids in order.
#[derive(Debug, PartialEq, Eq)]
pub struct ProfileVpkManifest {
    pub version: u32,
    pub mods: Table<String, ProfileVpkManifestEntry>,
}

pub struct ManifestView {
    pub version: u32,
    pub mods: Map<Seq<char>, EntryView>,
}

impl View for ProfileVpkManifest {
    type V = ManifestView;

    open spec fn view(&self) -> ManifestView {
        ManifestView { version: self.version, mods: self.mods@ }
    }
}

pub open spec fn empty_manifest() -> ManifestView {
    ManifestView { version: CURRENT_MANIFEST_VERSION, mods: Map::empty() }
}

/// The entry of a mod, or the blank one.
pub open spec fn entry_or_blank(m: ManifestView, id: Seq<char>) -> EntryView {
    if m.mods.contains_key(id) {
        m.mods[id]
    } else {
        blank_entry()
    }
}

/// The shard of a mod's enabled VPKs; shard 1 for a mod that is not recorded.
pub open spec fn shard_of_mod(m: ManifestView, id: Seq<char>) -> nat {
    entry_or_blank(m, id).shard
}

pub open spec fn with_entry(m: ManifestView, id: Seq<char>, e: EntryView) -> ManifestView {
    ManifestView { version: m.version, mods: m.mods.insert(id, e) }
}

/// Recording that a mod is enabled. Original names and an order that are already
/// known stay unless new ones are given.
pub open spec fn marked_enabled(
    m: ManifestView,
    id: Seq<char>,
    current: Seq<Seq<char>>,
    original: Seq<Seq<char>>,
    order: Option<u32>,
    shard: nat,
) -> ManifestView {
    let e = entry_or_blank(m, id);
    with_entry(
        m,
        id,
        EntryView {
            enabled: true,
            order: if order is Some {
                order
            } else {
                e.order
            },
            shard,
            current,
            disabled: Seq::empty(),
            original: if original.len() > 0 {
                original
            } else {
                e.original
            },
        },
    )
}

/// Recording that a mod is disabled: its files are back in shard 1.
pub open spec fn marked_disabled(
    m: ManifestView,
    id: Seq<char>,
    disabled: Seq<Seq<char>>,
    original: Seq<Seq<char>>,
) -> ManifestView {
    let e = entry_or_blank(m, id);
    with_entry(
        m,
        id,
        EntryView {
            enabled: false,
            order: e.order,
            shard: 1,
            current: Seq::empty(),
            disabled,
            original: if original.len() > 0 {
                original
            } else {
                e.original
            },
        },
    )
}

pub open spec fn without_mod(m: ManifestView, id: Seq<char>) -> ManifestView {
    ManifestView { version: m.version, mods: m.mods.remove(id) }
}

impl ProfileVpkManifest {
    pub fn empty() -> (r: ProfileVpkManifest)
        ensures
            r@ == empty_manifest(),
    {
        ProfileVpkManifest { version: CURRENT_MANIFEST_VERSION, mods: Table::new() }
    }

    pub fn shard_of(&self, mod_id: &str) -> (r: ShardIndex)
        ensures
            r.number() == shard_of_mod(self@, mod_id@),
    {
        match self.mods.get(&mod_id.to_owned()) {
            Some(entry) => entry.shard,
            None => ShardIndex::first(),
        }
    }

    /// The entry of a mod.
    pub fn entry(&self, mod_id: &str) -> (r: Option<ProfileVpkManifestEntry>)
        ensures
            match r {
                Some(e) => self@.mods.contains_key(mod_id@) && e@ == self@.mods[mod_id@],
                None => !self@.mods.contains_key(mod_id@),
            },
    {
        match self.mods.get(&mod_id.to_owned()) {
            Some(e) => Some(e.copy_value()),
            None => None,
        }
    }

    fn entry_or_default(&self, mod_id: &str) -> (r: ProfileVpkManifestEntry)
        ensures
            r@ == entry_or_blank(self@, mod_id@),
    {
        match self.entry(mod_id) {
            Some(e) => e,
            None => ProfileVpkManifestEntry::blank(),
        }
    }

    /// Writes the entry of a mod.
    pub fn set_entry(&mut self, mod_id: &str, entry: ProfileVpkManifestEntry)
        ensures
            final(self)@ == with_entry(old(self)@, mod_id@, entry@),
    {
        self.mods.insert(mod_id.to_owned(), entry);
    }

    pub fn mark_enabled(
        &mut self,
        mod_id: &str,
        current_vpks: Vec<String>,
        original_vpk_names: Vec<String>,
        order: Option<u32>,
        shard: ShardIndex,
    )
        ensures
            final(self)@ == marked_enabled(
                old(self)@,
                mod_id@,
                texts(current_vpks@),
                texts(original_vpk_names@),
                order,
                shard.number(),
            ),
    {
        let mut entry = self.entry_or_default(mod_id);
        entry.enabled = true;
        entry.shard = shard;
        entry.current_vpks = current_vpks;
        entry.disabled_vpks = Vec::new();
        if original_vpk_names.len() > 0 {
            entry.original_vpk_names = original_vpk_names;
        }
        if order.is_some() {
            entry.order = order;
        }
        assert(texts(entry.disabled_vpks@) =~= Seq::empty());
        self.set_entry(mod_id, entry);
    }

    pub fn mark_disabled(
        &mut self,
        mod_id: &str,
        disabled_vpks: Vec<String>,
        original_vpk_names: Vec<String>,
    )
        ensures
            final(self)@ == marked_disabled(
                old(self)@,
                mod_id@,
                texts(disabled_vpks@),
                texts(original_vpk_names@),
            ),
    {
        let mut entry = self.entry_or_default(mod_id);
        entry.enabled = false;
        entry.shard = ShardIndex::first();
        entry.current_vpks = Vec::new();
        entry.disabled_vpks = disabled_vpks;
        if original_vpk_names.len() > 0 {
            entry.original_vpk_names = original_vpk_names;
        }
        assert(texts(entry.current_vpks@) =~= Seq::empty());
        self.set_entry(mod_id, entry);
    }

    pub fn remove_mod(&mut self, mod_id: &str)
        ensures
            final(self)@ == without_mod(old(self)@, mod_id@),
    {
        self.mods.remove(&mod_id.to_owned());
    }

    pub fn duplicate(&self) -> (r: ProfileVpkManifest)
        ensures
            r@ == self@,
    {
        ProfileVpkManifest { version: self.version, mods: self.mods.duplicate() }
    }
}

impl Default for ProfileVpkManifest {
    fn default() -> (r: Self)
        ensures
            r@ == empty_manifest(),
    {
        ProfileVpkManifest::empty()
    }
}

/// A mod that is marked as enabled is on record with its files and its shard, and without
/// disabled files; its order and its original names are the new ones, or the ones it had where
/// none are given. What is on record of other mods stays.
pub proof fn law_enabled_mods_are_marked(
    m: ManifestView,
    id: Seq<char>,
    current: Seq<Seq<char>>,
    original: Seq<Seq<char>>,
    order: Option<u32>,
    shard: nat,
    other: Seq<char>,
)
    ensures
        ({
            let after = marked_enabled(m, id, current, original, order, shard);
            let e = after.mods[id];
            let known = m.mods.contains_key(id);
            &&& after.version == m.version
            &&& after.mods.contains_key(id)
            &&& e.enabled
            &&& e.current == current
            &&& e.shard == shard
            &&& e.disabled.len() == 0
            &&& order is Some ==> e.order == order
            &&& order is None && known ==> e.order == m.mods[id].order
            &&& order is None && !known ==> e.order is None
            &&& original.len() > 0 ==> e.original == original
            &&& original.len() == 0 && known ==> e.original == m.mods[id].original
            &&& original.len() == 0 && !known ==> e.original.len() == 0
            &&& other != id ==> (after.mods.contains_key(other) <==> m.mods.contains_key(other))
                && after.mods[other] == m.mods[other]
        }),
{
}

/// A mod that is marked as disabled is on record with its disabled files, in the first shard
/// and without enabled ones; its order stays, and so do its original names where no others are
/// given. What is on record of other mods stays.
pub proof fn law_disabled_mods_are_marked(
    m: ManifestView,
    id: Seq<char>,
    disabled: Seq<Seq<char>>,
    original: Seq<Seq<char>>,
    other: Seq<char>,
)
    ensures
        ({
            let after = marked_disabled(m, id, disabled, original);
            let e = after.mods[id];
            let known = m.mods.contains_key(id);
            &&& after.version == m.version
            &&& after.mods.contains_key(id)
            &&& !e.enabled
            &&& e.disabled == disabled
            &&& e.shard == 1
            &&& e.current.len() == 0
            &&& known ==> e.order == m.mods[id].order
            &&& !known ==> e.order is None
            &&& original.len() > 0 ==> e.original == original
            &&& original.len() == 0 && known ==> e.original == m.mods[id].original
            &&& original.len() == 0 && !known ==> e.original.len() == 0
            &&& other != id ==> (after.mods.contains_key(other) <==> m.mods.contains_key(other))
                && after.mods[other] == m.mods[other]
        }),
{
}

/// A mod that is removed is no longer on record; the other mods stay.
pub proof fn law_removed_mods_are_forgotten(m: ManifestView, id: Seq<char>, other: Seq<char>)
    ensures
        !without_mod(m, id).mods.contains_key(id),
        other != id ==> (without_mod(m, id).mods.contains_key(other) <==> m.mods.contains_key(
            other,
        )),
        other != id && m.mods.contains_key(other) ==> without_mod(m, id).mods[other]
            == m.mods[other],
        without_mod(m, id).version == m.version,
{
}

/// Enabling a mod without naming its original files keeps the names on record.
pub proof fn law_enabling_keeps_known_original_names(
    m: ManifestView,
    id: Seq<char>,
    current: Seq<Seq<char>>,
    order: Option<u32>,
    shard: nat,
)
    ensures
        marked_enabled(m, id, current, Seq::empty(), order, shard).mods[id].original
            == entry_or_blank(m, id).original,
{
}

/// Disabling a mod and enabling it again, with no new names and no new order,
/// keeps its order and its original names.
pub proof fn law_disabling_keeps_order_and_names(
    m: ManifestView,
    id: Seq<char>,
    disabled: Seq<Seq<char>>,
    current: Seq<Seq<char>>,
    shard: nat,
)
    ensures
        ({
            let off = marked_disabled(m, id, disabled, Seq::empty());
            let on = marked_enabled(off, id, current, Seq::empty(), None, shard);
            on.mods[id].order == entry_or_blank(m, id).order && on.mods[id].original
                == entry_or_blank(m, id).original
        }),
{
}

} // verus!
