//! The search paths that a profile's shards need.
use super::{profile_base, ModManager};
use crate::disk::{is_file_at, Disk, DiskView};
use crate::error::{texts_result, Error, ErrorView};
use crate::journal::{group_journal, ordered};
use crate::manifest_store::loaded;
use crate::path::PathView;
use crate::shard::{
    root_of, search_path_of, shard_dir_of, valid_shard, BaseView, ProfileBase, MAX_SHARDS,
    SHARD_CAPACITY,
};
use crate::table::lists_keys;
use crate::text::{dec, opt_text, texts};
use crate::vpk_manager::VpkManager;
use crate::vpk_manager::naming::{
    enabled_count, enabled_names, has_out_of_range, law_every_enabled_vpk_is_listed, pak_number,
};
use crate::vpk_manifest::{is_active, EntryView, ManifestView, ProfileVpkManifest};
use vstd::prelude::*;
use vstd::string::*;

verus! {

broadcast use group_journal;

/// The manifest places an active mod in shard `n`.
pub open spec fn mod_in_shard(m: ManifestView, n: nat) -> bool {
    exists|id: Seq<char>|
        #[trigger] m.mods.contains_key(id) && is_active(m.mods[id]) && m.mods[id].shard == n
}

/// Shard `n` holds enabled VPKs, on the disk or according to the manifest. Shard
/// 1 counts in any case, so only the manifest is asked about it.
pub open spec fn shard_needed(d: DiskView, b: BaseView, m: ManifestView, n: nat) -> bool {
    mod_in_shard(m, n) || (n >= 2 && enabled_count(d, shard_dir_of(b, n)) > 0)
}

/// The highest of shards 1 to `n` that is needed.
pub open spec fn top_shard(d: DiskView, b: BaseView, m: ManifestView, n: nat) -> nat
    decreases n,
{
    if n <= 1 {
        1
    } else if shard_needed(d, b, m, n) {
        n
    } else {
        top_shard(d, b, m, (n - 1) as nat)
    }
}

/// The search paths of a profile: one for each shard up to the highest needed.
pub open spec fn search_paths(
    d: DiskView,
    b: BaseView,
    m: ManifestView,
    folder: Option<Seq<char>>,
) -> Seq<Seq<char>> {
    Seq::new(
        top_shard(d, b, m, MAX_SHARDS as nat),
        |i: int| search_path_of((i + 1) as nat, folder),
    )
}

/// Shard `n` holds more than the engine loads, or numbers it does not load.
pub open spec fn shard_overfull(d: DiskView, b: BaseView, n: nat) -> bool {
    enabled_count(d, shard_dir_of(b, n)) > SHARD_CAPACITY || has_out_of_range(
        d,
        shard_dir_of(b, n),
    )
}

/// A profile still laid out as before sharding.
pub open spec fn migration_needed(d: DiskView, b: BaseView) -> bool {
    exists|n: nat| valid_shard(n) && #[trigger] shard_overfull(d, b, n)
}

proof fn lemma_top_shard(d: DiskView, b: BaseView, m: ManifestView, n: nat)
    requires
        1 <= n,
    ensures
        1 <= top_shard(d, b, m, n) <= n,
        forall|k: nat|
            top_shard(d, b, m, n) < k <= n ==> !#[trigger] shard_needed(d, b, m, k),
        top_shard(d, b, m, n) > 1 ==> shard_needed(d, b, m, top_shard(d, b, m, n)),
    decreases n,
{
    if n > 1 && !shard_needed(d, b, m, n) {
        lemma_top_shard(d, b, m, (n - 1) as nat);
    }
}

/// Every shard that holds enabled VPKs has its search path, whether they are on
/// the disk or only in the manifest yet.
pub proof fn law_search_paths_cover_needed_shards(
    d: DiskView,
    b: BaseView,
    m: ManifestView,
    folder: Option<Seq<char>>,
    n: nat,
)
    requires
        valid_shard(n),
        n == 1 || shard_needed(d, b, m, n),
    ensures
        search_paths(d, b, m, folder).contains(search_path_of(n, folder)),
{
    lemma_top_shard(d, b, m, MAX_SHARDS as nat);
    let paths = search_paths(d, b, m, folder);
    let top = top_shard(d, b, m, MAX_SHARDS as nat);
    if n > top {
        assert(!shard_needed(d, b, m, n));
    }
    assert(paths[n - 1] == search_path_of(n, folder));
}

/// The last search path is that of a shard that is needed: no shard beyond the
/// last one with enabled VPKs is listed.
pub proof fn law_search_paths_end_at_a_needed_shard(
    d: DiskView,
    b: BaseView,
    m: ManifestView,
    folder: Option<Seq<char>>,
)
    ensures
        ({
            let paths = search_paths(d, b, m, folder);
            &&& 1 <= paths.len() <= MAX_SHARDS
            &&& paths.len() > 1 ==> shard_needed(d, b, m, paths.len())
        }),
{
    lemma_top_shard(d, b, m, MAX_SHARDS as nat);
}

/// The search paths of a profile are those of its shards in their order, beginning with the
/// first: `citadel/addons`, `citadel/addons2` and so on, with the folder of the profile behind.
pub proof fn law_search_paths_are_in_order(
    d: DiskView,
    b: BaseView,
    m: ManifestView,
    folder: Option<Seq<char>>,
    i: int,
)
    requires
        0 <= i < search_paths(d, b, m, folder).len(),
    ensures
        ({
            let root = if i == 0 {
                "citadel/addons"@
            } else {
                "citadel/addons"@ + dec((i + 1) as nat)
            };
            search_paths(d, b, m, folder)[i] == if folder is Some {
                root + "/"@ + folder->0
            } else {
                root
            }
        }),
{
    reveal_strlit("citadel/addons");
    reveal_strlit("citadel/");
    reveal_strlit("addons");
    assert("citadel/"@ + "addons"@ =~= "citadel/addons"@);
    let n = (i + 1) as nat;
    let path = search_paths(d, b, m, folder)[i];
    let root = if i == 0 {
        "citadel/addons"@
    } else {
        "citadel/addons"@ + dec(n)
    };
    assert("citadel/"@ + root_of(n) =~= root);
}

/// A shard has its search path as soon as an enabled VPK stands in it, or an enabled mod with
/// files is on record for it.
pub proof fn law_shards_in_use_are_searched(
    d: DiskView,
    b: BaseView,
    m: ManifestView,
    folder: Option<Seq<char>>,
    n: nat,
)
    requires
        d.dom().finite(),
        valid_shard(n),
        (exists|name: Seq<char>|
            is_file_at(d, #[trigger] shard_dir_of(b, n).push(name)) && pak_number(name) is Some)
            || (exists|id: Seq<char>| #[trigger]
            m.mods.contains_key(id) && m.mods[id].enabled && m.mods[id].current.len() > 0
                && m.mods[id].shard == n),
    ensures
        search_paths(d, b, m, folder).len() >= n,
        search_paths(d, b, m, folder)[n - 1] == search_path_of(n, folder),
{
    let dir = shard_dir_of(b, n);
    law_every_enabled_vpk_is_listed(d, dir);
    if exists|name: Seq<char>|
        is_file_at(d, #[trigger] dir.push(name)) && pak_number(name) is Some {
        let name = choose|name: Seq<char>|
            is_file_at(d, #[trigger] dir.push(name)) && pak_number(name) is Some;
        assert(enabled_names(d, dir).contains(name));
        assert(enabled_count(d, dir) > 0);
    } else {
        let id = choose|id: Seq<char>| #[trigger]
            m.mods.contains_key(id) && m.mods[id].enabled && m.mods[id].current.len() > 0
                && m.mods[id].shard == n;
        assert(is_active(m.mods[id]));
        assert(mod_in_shard(m, n));
    }
    lemma_top_shard(d, b, m, MAX_SHARDS as nat);
    let top = top_shard(d, b, m, MAX_SHARDS as nat);
    if n > top {
        assert(!shard_needed(d, b, m, n));
    }
}

/// The search paths of a server folder stand before those of the profile, and both are all
/// there is. Without a server folder they are just those of the profile.
pub proof fn law_servers_come_first(
    d: DiskView,
    game: PathView,
    server: Seq<char>,
    folder: Option<Seq<char>>,
)
    ensures
        ({
            let (d1, first) = paths_read(d, Some(game), Some(server));
            let (d2, second) = paths_read(d1, Some(game), folder);
            let (e, r) = layered_paths_read(d, Some(game), Some(server), folder);
            &&& r is Ok <==> first is Ok && second is Ok
            &&& r is Ok ==> {
                &&& e == d2
                &&& r->Ok_0.len() == first->Ok_0.len() + second->Ok_0.len()
                &&& forall|i: int|
                    0 <= i < first->Ok_0.len() ==> r->Ok_0[i] == #[trigger] first->Ok_0[i]
                &&& forall|i: int|
                    0 <= i < second->Ok_0.len() ==> r->Ok_0[first->Ok_0.len() + i]
                        == #[trigger] second->Ok_0[i]
            }
        }),
        layered_paths_read(d, Some(game), None, folder) == paths_read(d, Some(game), folder),
{
    let (e, r) = paths_read(d, Some(game), folder);
    if r is Ok {
        assert(Seq::<Seq<char>>::empty() + r->Ok_0 =~= r->Ok_0);
    }
}

fn manifest_uses_shard(manifest: &ProfileVpkManifest, shard: u32) -> (r: bool)
    ensures
        r == mod_in_shard(manifest@, shard as nat),
{
    let n: usize = manifest.mods.len();
    let ghost keys = manifest.mods.keys();
    let mut i: usize = 0;
    while i < n
        invariant
            i <= n == keys.len(),
            keys == manifest.mods.keys(),
            lists_keys::<String, EntryView>(keys, manifest@.mods),
            forall|j: int|
                0 <= j < i ==> !(is_active(manifest@.mods[#[trigger] keys[j]])
                    && manifest@.mods[keys[j]].shard == shard),
        decreases n - i,
    {
        let e = manifest.mods.value_at(i);
        if e.enabled && e.current_vpks.len() > 0 && e.shard.get() == shard {
            assert(manifest@.mods.contains_key(keys[i as int]));
            return true;
        }
        i = i + 1;
    }
    proof {
        if mod_in_shard(manifest@, shard as nat) {
            let id = choose|id: Seq<char>|
                #[trigger] manifest@.mods.contains_key(id) && is_active(manifest@.mods[id])
                    && manifest@.mods[id].shard == shard;
            assert(keys.contains(id));
        }
    }
    false
}

/// The search paths of a profile, in order.
pub fn search_paths_for(
    disk: &Disk,
    base: &ProfileBase,
    manifest: &ProfileVpkManifest,
    profile_folder: &Option<String>,
) -> (r: Vec<String>)
    ensures
        texts(r@) == search_paths(disk@, base@, manifest@, opt_text(*profile_folder)),
{
    let shards = base.shards();
    let mut top: usize = shards.len();
    let ghost goal = top_shard(disk@, base@, manifest@, MAX_SHARDS as nat);
    while top > 1 && !(manifest_uses_shard(manifest, top as u32) || VpkManager::count_enabled_vpks(
        disk,
        &shards[top - 1].1,
    ) > 0)
        invariant
            1 <= top <= MAX_SHARDS == shards@.len(),
            forall|j: int|
                0 <= j < MAX_SHARDS ==> (#[trigger] shards@[j]).1@ == shard_dir_of(
                    base@,
                    (j + 1) as nat,
                ),
            goal == top_shard(disk@, base@, manifest@, top as nat),
        decreases top,
    {
        top = top - 1;
    }
    assert(goal == top);
    let mut r: Vec<String> = Vec::new();
    let mut i: usize = 0;
    while i < top
        invariant
            i <= top <= MAX_SHARDS == shards@.len(),
            forall|j: int| 0 <= j < MAX_SHARDS ==> (#[trigger] shards@[j]).0.number() == j + 1,
            r@.len() == i,
            forall|j: int|
                0 <= j < i ==> (#[trigger] r@[j])@ == search_path_of(
                    (j + 1) as nat,
                    opt_text(*profile_folder),
                ),
        decreases top - i,
    {
        r.push(shards[i].0.search_path(profile_folder));
        i = i + 1;
    }
    assert(texts(r@) =~= search_paths(disk@, base@, manifest@, opt_text(*profile_folder)));
    r
}

/// Whether a profile is still laid out as before sharding.
pub fn needs_shard_migration(disk: &Disk, base: &ProfileBase) -> (r: bool)
    ensures
        r == migration_needed(disk@, base@),
{
    let shards = base.shards();
    let mut i: usize = 0;
    while i < shards.len()
        invariant
            i <= shards@.len() == MAX_SHARDS,
            forall|j: int|
                0 <= j < MAX_SHARDS ==> (#[trigger] shards@[j]).1@ == shard_dir_of(
                    base@,
                    (j + 1) as nat,
                ),
            forall|n: nat| 1 <= n <= i ==> !#[trigger] shard_overfull(disk@, base@, n),
        decreases shards@.len() - i,
    {
        let dir = &shards[i].1;
        assert(dir@ == shard_dir_of(base@, (i + 1) as nat));
        if VpkManager::count_enabled_vpks(disk, dir) > 99
            || VpkManager::has_out_of_range_enabled_vpks(disk, dir) {
            assert(shard_overfull(disk@, base@, (i + 1) as nat));
            return true;
        }
        i = i + 1;
    }
    false
}

/// Reading the search paths of a profile off its manifest and the disk.
pub open spec fn paths_read(d: DiskView, game: Option<PathView>, folder: Option<Seq<char>>) -> (
    DiskView,
    Result<Seq<Seq<char>>, ErrorView>,
) {
    match profile_base(game, folder) {
        Err(e) => (d, Err(e)),
        Ok(b) => {
            let (d1, r) = loaded(d, b.path);
            match r {
                Err(e) => (d1, Err(e)),
                Ok(m) => (d1, Ok(search_paths(d1, b, m, folder))),
            }
        },
    }
}

/// The search paths of a server folder, then those of a profile.
pub open spec fn layered_paths_read(
    d: DiskView,
    game: Option<PathView>,
    server: Option<Seq<char>>,
    folder: Option<Seq<char>>,
) -> (DiskView, Result<Seq<Seq<char>>, ErrorView>) {
    if game is None {
        (d, Err(ErrorView::GamePathNotSet))
    } else {
        let (d1, r1) = if server is Some {
            paths_read(d, game, server)
        } else {
            (d, Ok(Seq::empty()))
        };
        match r1 {
            Err(e) => (d1, Err(e)),
            Ok(first) => {
                let (d2, r2) = paths_read(d1, game, folder);
                match r2 {
                    Err(e) => (d2, Err(e)),
                    Ok(second) => (d2, Ok(first + second)),
                }
            },
        }
    }
}

impl ModManager {
    /// The search paths that a profile needs, in order; always that of shard 1.
    pub fn profile_gameinfo_paths(&self, disk: &mut Disk, profile_folder: &Option<String>) -> (r:
        Result<Vec<String>, Error>)
        ensures
            ordered(*old(disk), *final(disk)),
            (final(disk)@, texts_result(r)) == paths_read(
                old(disk)@,
                self@.game_path,
                opt_text(*profile_folder),
            ),
    {
        let base = self.get_addons_path(profile_folder)?;
        let manifest = ProfileVpkManifest::load(disk, base.path())?;
        Ok(search_paths_for(disk, &base, &manifest, profile_folder))
    }

    /// Whether migrating a profile would do anything.
    pub fn profile_needs_shard_migration(&self, disk: &Disk, profile_folder: &Option<String>) -> (r:
        Result<bool, Error>)
        ensures
            match r {
                Ok(x) => profile_base(self@.game_path, opt_text(*profile_folder)) is Ok && x
                    == migration_needed(
                    disk@,
                    profile_base(self@.game_path, opt_text(*profile_folder))->Ok_0,
                ),
                Err(e) => profile_base(self@.game_path, opt_text(*profile_folder)) == Err::<
                    BaseView,
                    ErrorView,
                >(e@),
            },
    {
        let base = self.get_addons_path(profile_folder)?;
        Ok(needs_shard_migration(disk, &base))
    }

    /// The search paths to write for a profile, one for each shard.
    pub fn apply_profile_gameinfo(&mut self, disk: &mut Disk, profile_folder: &Option<String>) -> (r:
        Result<Vec<String>, Error>)
        ensures
            final(self)@ == old(self)@,
            ordered(*old(disk), *final(disk)),
            (final(disk)@, texts_result(r)) == paths_read(
                old(disk)@,
                old(self)@.game_path,
                opt_text(*profile_folder),
            ),
    {
        self.profile_gameinfo_paths(disk, profile_folder)
    }

    /// The search paths to write for a server folder over a profile: those of the
    /// server first, so that they take precedence.
    pub fn apply_layered_gameinfo(
        &mut self,
        disk: &mut Disk,
        server_folder: &Option<String>,
        profile_folder: &Option<String>,
    ) -> (r: Result<Vec<String>, Error>)
        ensures
            final(self)@ == old(self)@,
            ordered(*old(disk), *final(disk)),
            (final(disk)@, texts_result(r)) == layered_paths_read(
                old(disk)@,
                old(self)@.game_path,
                opt_text(*server_folder),
                opt_text(*profile_folder),
            ),
    {
        if self.game_path.is_none() {
            return Err(Error::GamePathNotSet);
        }
        let mut paths: Vec<String> = Vec::new();
        assert(texts(paths@) =~= Seq::<Seq<char>>::empty());
        if server_folder.is_some() {
            paths = self.profile_gameinfo_paths(disk, server_folder)?;
        }
        let ghost first = texts(paths@);
        let mut rest = self.profile_gameinfo_paths(disk, profile_folder)?;
        let ghost second = texts(rest@);
        paths.append(&mut rest);
        assert(texts(paths@) =~= first + second);
        Ok(paths)
    }
}

} // verus!
