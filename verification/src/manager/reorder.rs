//! The order of a profile's mods, and the shard a mod goes to.
use super::{gameinfo, profile_base, with_repo, ManagerView, ModManager, ModView, RepoView};
use super::gameinfo::migration_needed;
use crate::{order, path, text};
use crate::disk::{exists_at, is_dir_at, without_tree, Disk, DiskView};
use crate::error::{unit_result, Error, ErrorView};
use crate::journal::{group_journal, ordered, went};
use crate::manifest_store::{loaded, saved};
use crate::order::{sorted_by, sorted_places, SortKey};
use crate::path::{base_name, path_join, PathView, TreePath};
use crate::shard::{
    shard_dir_of, valid_shard, BaseView, ProfileBase, ShardIndex, MAX_SHARDS,
    REORDER_STAGING_DIR, SHARD_CAPACITY,
};
use crate::table::{keys_of, lists_keys, Model};
use crate::text::{dec, opt_text, texts};
use crate::vpk_manager::{operations, GroupView, ShardAssignment, ShardPlacement, VpkManager};
use crate::vpk_manager::naming::{enabled_count, pak_number};
use crate::vpk_manager::operations::file_names;
use crate::vpk_manager::reorder::{assignment_views, placement_views, reorder_done, reorder_staged};
use crate::vpk_manifest::{
    is_active, with_entry, EntryView, ManifestView, ProfileVpkManifest, ProfileVpkManifestEntry,
};
use vstd::prelude::*;
use vstd::string::*;

verus! {

broadcast use group_journal;

// ---------------------------------------------------------------------------
// The shard for a mod
// ---------------------------------------------------------------------------

/// How many more files a directory with `used` enabled ones takes.
pub open spec fn room_left(used: nat) -> nat {
    if used > SHARD_CAPACITY {
        0
    } else {
        (SHARD_CAPACITY - used) as nat
    }
}

/// The last of shards 2 to `n` that holds enabled VPKs, or shard 1.
pub open spec fn last_active(d: DiskView, b: BaseView, n: nat) -> nat
    decreases n,
{
    if n <= 1 {
        1
    } else if enabled_count(d, shard_dir_of(b, n)) > 0 {
        n
    } else {
        last_active(d, b, (n - 1) as nat)
    }
}

/// How many enabled files a shard holds besides `count` of them.
pub open spec fn used_besides(d: DiskView, b: BaseView, shard: nat, count: nat) -> nat {
    let used = enabled_count(d, shard_dir_of(b, shard));
    if used > count {
        (used - count) as nat
    } else {
        0
    }
}

/// The shard that a mod is in, or shard 1.
pub open spec fn current_shard(current: Option<(nat, nat)>) -> nat {
    match current {
        Some((shard, count)) => shard,
        None => 1,
    }
}

/// A mod is in a shard, and `needed` files fit there without its current ones.
pub open spec fn stays_in_shard(
    d: DiskView,
    b: BaseView,
    current: Option<(nat, nat)>,
    needed: nat,
) -> bool {
    match current {
        Some((shard, count)) => room_left(used_besides(d, b, shard, count)) >= needed,
        None => false,
    }
}

/// The shard for a mod with `needed` files: the one it is in, if there is room
/// without its current files; else the last active one, or the next.
pub open spec fn chosen_shard(
    d: DiskView,
    b: BaseView,
    current: Option<(nat, nat)>,
    needed: nat,
) -> Result<nat, ErrorView> {
    let last = last_active(d, b, MAX_SHARDS as nat);
    if needed > SHARD_CAPACITY {
        Err(
            ErrorView::ModInvalid(
                "This mod has "@ + dec(needed)
                    + " VPK files, more than the 99 the engine allows per addon folder."@,
            ),
        )
    } else if stays_in_shard(d, b, current, needed) {
        Ok(current_shard(current))
    } else if room_left(enabled_count(d, shard_dir_of(b, last))) >= needed {
        Ok(last)
    } else if last < MAX_SHARDS {
        Ok(last + 1)
    } else {
        Err(
            ErrorView::ModInvalid(
                "Cannot enable this mod: all 10 addon shard folders are full (99 files each). Disable some mods first."@,
            ),
        )
    }
}

pub proof fn lemma_last_active(d: DiskView, b: BaseView, n: nat)
    requires
        1 <= n,
    ensures
        1 <= last_active(d, b, n) <= n,
        forall|k: nat|
            last_active(d, b, n) < k <= n ==> enabled_count(d, #[trigger] shard_dir_of(b, k)) == 0,
    decreases n,
{
    if n > 1 && enabled_count(d, shard_dir_of(b, n)) == 0 {
        lemma_last_active(d, b, (n - 1) as nat);
    }
}

/// A newly enabled mod goes behind every mod already enabled: never into a shard
/// before an active one.
pub proof fn law_new_mods_go_last(d: DiskView, b: BaseView, needed: nat, n: nat)
    requires
        valid_shard(n),
        enabled_count(d, shard_dir_of(b, n)) > 0,
        chosen_shard(d, b, None, needed) is Ok,
    ensures
        chosen_shard(d, b, None, needed)->Ok_0 >= n,
{
    lemma_last_active(d, b, MAX_SHARDS as nat);
    if n > last_active(d, b, MAX_SHARDS as nat) {
        assert(enabled_count(d, shard_dir_of(b, n)) == 0);
    }
}

/// The shard for a new mod has room for all of its files.
pub proof fn law_chosen_shard_has_room(d: DiskView, b: BaseView, needed: nat)
    requires
        chosen_shard(d, b, None, needed) is Ok,
    ensures
        valid_shard(chosen_shard(d, b, None, needed)->Ok_0),
        enabled_count(d, shard_dir_of(b, chosen_shard(d, b, None, needed)->Ok_0)) + needed
            <= SHARD_CAPACITY || needed == 0,
{
    lemma_last_active(d, b, MAX_SHARDS as nat);
    let last = last_active(d, b, MAX_SHARDS as nat);
    if room_left(enabled_count(d, shard_dir_of(b, last))) < needed {
        assert(enabled_count(d, shard_dir_of(b, last + 1)) == 0);
    }
}

fn room_in(used: usize) -> (r: usize)
    ensures
        r == room_left(used as nat),
{
    if used > 99 {
        0
    } else {
        99 - used
    }
}

impl ModManager {
    /// The shard for a mod: the one it is in if its new files fit there, else the
    /// last active one if there is room, else the next. Holes in earlier shards
    /// are not filled: that would put a new mod before those in later shards.
    pub fn choose_shard_for(
        disk: &Disk,
        base: &ProfileBase,
        current_mod: Option<(ShardIndex, usize)>,
        needed: usize,
    ) -> (r: Result<ShardIndex, Error>)
        ensures
            ({
                let current = match current_mod {
                    Some((s, n)) => Some((s.number(), n as nat)),
                    None => None,
                };
                match r {
                    Ok(s) => chosen_shard(disk@, base@, current, needed as nat) == Ok::<
                        nat,
                        ErrorView,
                    >(s.number()),
                    Err(e) => chosen_shard(disk@, base@, current, needed as nat) == Err::<
                        nat,
                        ErrorView,
                    >(e@),
                }
            }),
    {
        if needed > 99 {
            let mut m: String = "This mod has ".to_owned();
            m.append(text::decimal(needed as u64).as_str());
            m.append(" VPK files, more than the 99 the engine allows per addon folder.");
            return Err(Error::ModInvalid(m));
        }
        match current_mod {
            Some((shard, count)) => {
                let used: usize = VpkManager::count_enabled_vpks(disk, &base.shard_dir(shard));
                let besides: usize = if used > count {
                    used - count
                } else {
                    0
                };
                if room_in(besides) >= needed {
                    return Ok(shard);
                }
            },
            None => {},
        }
        let shards = base.shards();
        let mut last: usize = shards.len();
        let ghost goal = last_active(disk@, base@, MAX_SHARDS as nat);
        while last > 1 && VpkManager::count_enabled_vpks(disk, &shards[last - 1].1) == 0
            invariant
                1 <= last <= MAX_SHARDS == shards@.len(),
                forall|j: int|
                    0 <= j < MAX_SHARDS ==> (#[trigger] shards@[j]).1@ == shard_dir_of(
                        base@,
                        (j + 1) as nat,
                    ),
                goal == last_active(disk@, base@, last as nat),
            decreases last,
        {
            last = last - 1;
        }
        assert(goal == last);
        let used: usize = VpkManager::count_enabled_vpks(disk, &shards[last - 1].1);
        if room_in(used) >= needed {
            return Ok(shards[last - 1].0);
        }
        if last < shards.len() {
            return Ok(shards[last].0);
        }
        Err(
            Error::ModInvalid(
                "Cannot enable this mod: all 10 addon shard folders are full (99 files each). Disable some mods first.".to_owned(),
            ),
        )
    }
}

// ---------------------------------------------------------------------------
// Which files a mod has
// ---------------------------------------------------------------------------

/// The file names of a list that are in a directory.
pub open spec fn existing_names(d: DiskView, dir: PathView, vpks: Seq<Seq<char>>) -> Seq<
    Seq<char>,
> {
    file_names(vpks).filter(|n: Seq<char>| exists_at(d, path_join(dir, n)))
}

/// The files of a mod: what the manifest records if all of it is there, else the
/// fallback if all of that is there, else what is there of the one or the other.
pub open spec fn resolved_vpks(
    d: DiskView,
    dir: PathView,
    recorded: Seq<Seq<char>>,
    fallback: Seq<Seq<char>>,
) -> Seq<Seq<char>> {
    let names = file_names(recorded);
    let there = existing_names(d, dir, names);
    let other = file_names(fallback);
    let other_there = existing_names(d, dir, other);
    if names.len() > 0 && there.len() == names.len() {
        names
    } else if other_there.len() > 0 && other_there.len() == other.len() {
        other
    } else if there.len() > 0 {
        there
    } else {
        other_there
    }
}

/// The entry of a mod brought in line with the disk.
pub open spec fn reconciled(d: DiskView, b: BaseView, e: EntryView, fallback: Seq<Seq<char>>) -> EntryView {
    let vpks = resolved_vpks(d, shard_dir_of(b, e.shard), e.current, fallback);
    if vpks.len() == 0 {
        EntryView { current: vpks, enabled: false, ..e }
    } else if e.enabled || fallback.len() > 0 {
        EntryView { current: vpks, enabled: true, disabled: Seq::empty(), ..e }
    } else {
        EntryView { current: vpks, ..e }
    }
}

fn existing_vpk_filenames(disk: &Disk, dir: &TreePath, vpks: &Vec<String>) -> (r: Vec<String>)
    ensures
        texts(r@) == existing_names(disk@, dir@, texts(vpks@)),
        r@.len() == existing_names(disk@, dir@, texts(vpks@)).len(),
{
    let names = operations::vpk_filenames(vpks);
    let ghost all = file_names(texts(vpks@));
    let ghost pred = |n: Seq<char>| exists_at(disk@, path_join(dir@, n));
    let mut r: Vec<String> = Vec::new();
    let mut i: usize = 0;
    proof {
        reveal(Seq::filter);
        assert(all.take(0).filter(pred) =~= Seq::<Seq<char>>::empty());
        assert(texts(r@) =~= Seq::<Seq<char>>::empty());
    }
    while i < names.len()
        invariant
            i <= names@.len(),
            texts(names@) == all,
            pred == (|n: Seq<char>| exists_at(disk@, path_join(dir@, n))),
            texts(r@) == all.take(i as int).filter(pred),
        decreases names@.len() - i,
    {
        proof {
            assert(all[i as int] == names@[i as int]@);
            assert(all.take(i + 1) =~= all.take(i as int).push(all[i as int]));
            crate::disk::lemma_filter_push(all.take(i as int), all[i as int], pred);
        }
        if disk.has(&dir.join(names[i].as_str())) {
            let s = names[i].clone();
            proof {
                text::lemma_texts_push(r@, s);
            }
            r.push(s);
        }
        i = i + 1;
    }
    proof {
        assert(all.take(all.len() as int) =~= all);
        assert(texts(r@).len() == r@.len());
    }
    r
}

fn same_entry(a: &ProfileVpkManifestEntry, b: &ProfileVpkManifestEntry) -> (r: bool)
    ensures
        r == (a@ == b@),
{
    let same_order: bool = match (a.order, b.order) {
        (Some(x), Some(y)) => x == y,
        (None, None) => true,
        _ => false,
    };
    a.enabled == b.enabled && same_order && a.shard.is(b.shard) && text::same_texts(
        &a.current_vpks,
        &b.current_vpks,
    ) && text::same_texts(&a.disabled_vpks, &b.disabled_vpks) && text::same_texts(
        &a.original_vpk_names,
        &b.original_vpk_names,
    )
}

impl ModManager {
    /// The files of a mod: what is recorded, or else the fallback, as far as it
    /// is there.
    pub fn resolve_reorder_vpks(
        disk: &Disk,
        addons_path: &TreePath,
        manifest_vpks: &Vec<String>,
        fallback_vpks: &Vec<String>,
    ) -> (r: Vec<String>)
        ensures
            texts(r@) == resolved_vpks(
                disk@,
                addons_path@,
                texts(manifest_vpks@),
                texts(fallback_vpks@),
            ),
    {
        let names = operations::vpk_filenames(manifest_vpks);
        let there = existing_vpk_filenames(disk, addons_path, &names);
        assert(texts(names@).len() == names@.len());
        if names.len() > 0 && there.len() == names.len() {
            return names;
        }
        let other = operations::vpk_filenames(fallback_vpks);
        let other_there = existing_vpk_filenames(disk, addons_path, &other);
        assert(texts(other@).len() == other@.len());
        if other_there.len() > 0 && other_there.len() == other.len() {
            return other;
        }
        if there.len() > 0 {
            return there;
        }
        other_there
    }

    /// Brings the entry of a mod in line with the disk. Returns whether it
    /// changed.
    pub fn reconcile_manifest_entry_for_reorder(
        disk: &Disk,
        base: &ProfileBase,
        entry: &mut ProfileVpkManifestEntry,
        fallback_vpks: &Vec<String>,
    ) -> (r: bool)
        ensures
            final(entry)@ == reconciled(disk@, base@, old(entry)@, texts(fallback_vpks@)),
            r == (final(entry)@ != old(entry)@),
    {
        let before = entry.copy_value();
        let dir = base.shard_dir(entry.shard);
        let resolved = ModManager::resolve_reorder_vpks(
            disk,
            &dir,
            &entry.current_vpks,
            fallback_vpks,
        );
        assert(texts(resolved@).len() == resolved@.len());
        assert(texts(fallback_vpks@).len() == fallback_vpks@.len());
        let empty: bool = resolved.len() == 0;
        entry.current_vpks = resolved;
        if empty {
            entry.enabled = false;
        } else if entry.enabled || fallback_vpks.len() > 0 {
            entry.enabled = true;
            entry.disabled_vpks = Vec::new();
            assert(texts(entry.disabled_vpks@) =~= Seq::<Seq<char>>::empty());
        }
        !same_entry(&before, entry)
    }
}

// ---------------------------------------------------------------------------
// The order of the mods
// ---------------------------------------------------------------------------

/// The least number among the first `k` of a mod's files; the greatest possible
/// where none has a number.
pub open spec fn first_number(vpks: Seq<Seq<char>>, k: int) -> nat
    decreases k,
{
    if k <= 0 {
        u32::MAX as nat
    } else {
        let least = first_number(vpks, k - 1);
        match pak_number(base_name(vpks[k - 1])) {
            Some(n) => if n < least {
                n
            } else {
                least
            },
            None => least,
        }
    }
}

/// What mods are sorted by: those with an order first, by it; then the others by
/// the place they have.
pub open spec fn mod_key(e: EntryView) -> SortKey {
    let first = first_number(e.current, e.current.len() as int) as u64;
    match e.order {
        Some(order) => (0u64, order as u64, first),
        None => (1u64, e.shard as u64, first),
    }
}

/// The ids of the active mods, in order of id.
pub open spec fn active_ids(m: ManifestView) -> Seq<Seq<char>> {
    keys_of::<String, EntryView>(m.mods).filter(|id: Seq<char>| is_active(m.mods[id]))
}

pub open spec fn entry_group(id: Seq<char>, e: EntryView) -> GroupView {
    GroupView { mod_id: id, shard: e.shard, vpks: e.current }
}

/// The active mods in the order the engine has to load them.
pub open spec fn ordered_groups(m: ManifestView) -> Seq<GroupView> {
    sorted_by(
        active_ids(m).map_values(|id: Seq<char>| entry_group(id, m.mods[id])),
        active_ids(m).map_values(|id: Seq<char>| mod_key(m.mods[id])),
    )
}

fn least_number(vpks: &Vec<String>) -> (r: u32)
    ensures
        r == first_number(texts(vpks@), vpks@.len() as int),
{
    let ghost tv = texts(vpks@);
    let mut least: u32 = u32::MAX;
    let mut i: usize = 0;
    while i < vpks.len()
        invariant
            i <= vpks@.len(),
            tv == texts(vpks@),
            least == first_number(tv, i as int),
        decreases vpks@.len() - i,
    {
        assert(tv[i as int] == vpks@[i as int]@);
        match VpkManager::enabled_vpk_number(path::base_name_of(vpks[i].as_str()).as_str()) {
            Some(n) => {
                if n < least {
                    least = n;
                }
            },
            None => {},
        }
        i = i + 1;
    }
    least
}

fn sort_key_of(e: &ProfileVpkManifestEntry) -> (r: SortKey)
    ensures
        r == mod_key(e@),
{
    assert(e@.current.len() == e.current_vpks@.len());
    let first: u64 = least_number(&e.current_vpks) as u64;
    match e.order {
        Some(order) => (0, order as u64, first),
        None => (1, e.shard.get() as u64, first),
    }
}

/// The assignments at the given places.
fn arrange(groups: &Vec<ShardAssignment>, keys: &Vec<SortKey>) -> (r: Vec<ShardAssignment>)
    requires
        groups@.len() == keys@.len(),
    ensures
        assignment_views(r@) == sorted_by(assignment_views(groups@), keys@),
{
    let places = order::stable_order(keys);
    let ghost gv = assignment_views(groups@);
    let mut r: Vec<ShardAssignment> = Vec::new();
    let mut i: usize = 0;
    while i < places.len()
        invariant
            i <= places@.len(),
            places@.len() == groups@.len(),
            gv == assignment_views(groups@),
            forall|j: int| 0 <= j < places@.len() ==> 0 <= #[trigger] places@[j] < groups@.len(),
            r@.len() == i,
            forall|j: int| 0 <= j < i ==> (#[trigger] r@[j])@ == gv[places@[j] as int],
        decreases places@.len() - i,
    {
        let at: usize = places[i];
        assert(gv[at as int] == groups@[at as int]@);
        r.push(
            ShardAssignment {
                mod_id: groups[at].mod_id.clone(),
                shard: groups[at].shard,
                vpks: text::copy_texts(&groups[at].vpks),
            },
        );
        i = i + 1;
    }
    proof {
        let want = sorted_by(gv, keys@);
        assert(order::place_views(places@) == sorted_places(keys@));
        assert forall|j: int| 0 <= j < want.len() implies assignment_views(r@)[j] == want[j] by {
            assert(order::place_views(places@)[j] == places@[j]);
            assert(r@[j]@ == gv[places@[j] as int]);
        }
        assert(assignment_views(r@) =~= want);
    }
    r
}

impl ModManager {
    /// The active mods in the order the engine has to load them: those with an
    /// explicit order first, then the others where they are, so that a profile
    /// with few orders is not shuffled.
    pub fn ordered_assignments(manifest: &ProfileVpkManifest) -> (r: Vec<ShardAssignment>)
        ensures
            assignment_views(r@) == ordered_groups(manifest@),
    {
        let n: usize = manifest.mods.len();
        let ghost m = manifest@;
        let ghost keys = keys_of::<String, EntryView>(m.mods);
        let ghost pred = |id: Seq<char>| is_active(m.mods[id]);
        let ghost show = |id: Seq<char>| entry_group(id, m.mods[id]);
        let ghost rank = |id: Seq<char>| mod_key(m.mods[id]);
        let mut groups: Vec<ShardAssignment> = Vec::new();
        let mut ranks: Vec<SortKey> = Vec::new();
        let mut i: usize = 0;
        proof {
            reveal(Seq::filter);
            assert(keys.take(0).filter(pred) =~= Seq::<Seq<char>>::empty());
            assert(assignment_views(groups@) =~= keys.take(0).filter(pred).map_values(show));
            assert(ranks@ =~= keys.take(0).filter(pred).map_values(rank));
        }
        while i < n
            invariant
                i <= n == keys.len(),
                m == manifest@,
                keys == manifest.mods.keys(),
                pred == (|id: Seq<char>| is_active(m.mods[id])),
                show == (|id: Seq<char>| entry_group(id, m.mods[id])),
                rank == (|id: Seq<char>| mod_key(m.mods[id])),
                assignment_views(groups@) == keys.take(i as int).filter(pred).map_values(show),
                ranks@ == keys.take(i as int).filter(pred).map_values(rank),
            decreases n - i,
        {
            let id = manifest.mods.key_at(i);
            let e = manifest.mods.value_at(i);
            let ghost so_far = keys.take(i as int).filter(pred);
            let ghost key = keys[i as int];
            proof {
                assert(keys.take(i + 1) =~= keys.take(i as int).push(key));
                crate::disk::lemma_filter_push(keys.take(i as int), key, pred);
                assert(so_far.push(key).map_values(show) =~= so_far.map_values(show).push(
                    show(key),
                ));
                assert(so_far.push(key).map_values(rank) =~= so_far.map_values(rank).push(
                    rank(key),
                ));
            }
            if e.enabled && e.current_vpks.len() > 0 {
                let g = ShardAssignment {
                    mod_id: id.clone(),
                    shard: e.shard,
                    vpks: text::copy_texts(&e.current_vpks),
                };
                assert(assignment_views(groups@.push(g)) =~= assignment_views(groups@).push(g@));
                assert(g@ == show(key));
                groups.push(g);
                ranks.push(sort_key_of(e));
            }
            i = i + 1;
        }
        assert(keys.take(n as int) =~= keys);
        assert(groups@.len() == assignment_views(groups@).len());
        arrange(&groups, &ranks)
    }
}

// ---------------------------------------------------------------------------
// Recording a reordering
// ---------------------------------------------------------------------------

/// An entry whose files have been placed.
pub open spec fn placed_entry(e: EntryView, g: GroupView) -> EntryView {
    EntryView { enabled: true, shard: g.shard, current: g.vpks, disabled: Seq::empty(), ..e }
}

/// A manifest that records the first `k` placements.
pub open spec fn placements_recorded(m: ManifestView, groups: Seq<GroupView>, k: int) -> ManifestView
    decreases k,
{
    if k <= 0 {
        m
    } else {
        let m1 = placements_recorded(m, groups, k - 1);
        let g = groups[k - 1];
        if m1.mods.contains_key(g.mod_id) {
            with_entry(m1, g.mod_id, placed_entry(m1.mods[g.mod_id], g))
        } else {
            m1
        }
    }
}

/// The known mods after the first `k` placements.
pub open spec fn repo_placed(repo: RepoView, groups: Seq<GroupView>, k: int) -> RepoView
    decreases k,
{
    if k <= 0 {
        repo
    } else {
        let r1 = repo_placed(repo, groups, k - 1);
        let g = groups[k - 1];
        if r1.contains_key(g.mod_id) {
            r1.remove(g.mod_id).insert(
                r1[g.mod_id].id,
                ModView { installed: g.vpks, ..r1[g.mod_id] },
            )
        } else {
            r1
        }
    }
}

/// Reordering the files and recording where they went. Until the manifest is
/// written, every file is where it was.
pub open spec fn reorder_committed(
    d: DiskView,
    p: PathView,
    repo: RepoView,
    m: ManifestView,
    groups: Seq<GroupView>,
) -> (DiskView, RepoView, Result<Seq<GroupView>, ErrorView>) {
    let (d1, r) = reorder_staged(d, p, groups);
    match r {
        Err(e) => (d1, repo, Err(e)),
        Ok((work, placements)) => {
            let m1 = placements_recorded(m, placements, placements.len() as int);
            let (d2, s) = saved(work, p, m1);
            match s {
                Err(e) => (d1, repo, Err(e)),
                Ok(_) => {
                    let stage = p.push(REORDER_STAGING_DIR@);
                    (
                        if is_dir_at(d2, stage) {
                            without_tree(d2, stage)
                        } else {
                            d2
                        },
                        repo_placed(repo, placements, placements.len() as int),
                        Ok(placements),
                    )
                },
            }
        },
    }
}

impl ModManager {
    fn apply_placements_to_manifest(
        manifest: &mut ProfileVpkManifest,
        placements: &Vec<ShardPlacement>,
    )
        ensures
            final(manifest)@ == placements_recorded(
                old(manifest)@,
                placement_views(placements@),
                placements@.len() as int,
            ),
    {
        let ghost m = manifest@;
        let ghost pv = placement_views(placements@);
        let mut i: usize = 0;
        while i < placements.len()
            invariant
                i <= placements@.len(),
                m == old(manifest)@,
                pv == placement_views(placements@),
                manifest@ == placements_recorded(m, pv, i as int),
            decreases placements@.len() - i,
        {
            let p = &placements[i];
            assert(pv[i as int] == p@);
            match manifest.entry(p.mod_id.as_str()) {
                Some(e) => {
                    let mut entry = e;
                    entry.enabled = true;
                    entry.shard = p.shard;
                    entry.current_vpks = text::copy_texts(&p.vpks);
                    entry.disabled_vpks = Vec::new();
                    assert(texts(entry.disabled_vpks@) =~= Seq::<Seq<char>>::empty());
                    manifest.set_entry(p.mod_id.as_str(), entry);
                },
                None => {},
            }
            i = i + 1;
        }
    }

    fn record_placements(&mut self, placements: &Vec<ShardPlacement>)
        ensures
            final(self)@ == with_repo(
                old(self)@,
                repo_placed(
                    old(self)@.repo,
                    placement_views(placements@),
                    placements@.len() as int,
                ),
            ),
    {
        let ghost before = self@;
        let ghost pv = placement_views(placements@);
        let mut i: usize = 0;
        while i < placements.len()
            invariant
                i <= placements@.len(),
                before == old(self)@,
                pv == placement_views(placements@),
                self@ == with_repo(before, repo_placed(before.repo, pv, i as int)),
            decreases placements@.len() - i,
        {
            let p = &placements[i];
            assert(pv[i as int] == p@);
            match self.get_mod(p.mod_id.as_str()) {
                Some(m) => {
                    let mut known = m;
                    self.forget_mod(p.mod_id.as_str());
                    known.installed_vpks = text::copy_texts(&p.vpks);
                    self.add_mod(known);
                },
                None => {},
            }
            i = i + 1;
        }
    }

    /// Reorders the files, then records where they went. The writing of the
    /// manifest is what makes it final.
    pub(crate) fn commit_reorder(
        &mut self,
        disk: &mut Disk,
        base: &TreePath,
        manifest: ProfileVpkManifest,
        assignments: &Vec<ShardAssignment>,
    ) -> (r: Result<Vec<ShardPlacement>, Error>)
        ensures
            ordered(*old(disk), *final(disk)),
            ({
                let (d, repo, out) = reorder_committed(
                    old(disk)@,
                    base@,
                    old(self)@.repo,
                    manifest@,
                    assignment_views(assignments@),
                );
                &&& final(disk)@ == d
                &&& final(self)@ == with_repo(old(self)@, repo)
                &&& match r {
                    Ok(v) => out == Ok::<Seq<GroupView>, ErrorView>(placement_views(v@)) && went(
                        *old(disk),
                        reorder_staged(old(disk)@, base@, assignment_views(assignments@)).0,
                        d,
                        *final(disk),
                    ),
                    Err(e) => out == Err::<Seq<GroupView>, ErrorView>(e@),
                }
            }),
    {
        let manager = VpkManager::new();
        assert(with_repo(self@, self@.repo) == self@);
        let mut pending = manager.stage_reorder_vpks_sharded(disk, assignments, base)?;
        let mut manifest = manifest;
        ModManager::apply_placements_to_manifest(&mut manifest, &pending.value);
        assert(placement_views(pending.value@).len() == pending.value@.len());
        manifest.save(&mut pending.work, base)?;
        let placements = pending.commit(disk);
        self.record_placements(&placements);
        Ok(placements)
    }
}

// ---------------------------------------------------------------------------
// Reordering a whole profile
// ---------------------------------------------------------------------------

/// The manifest with every entry brought in line with the disk.
pub open spec fn all_reconciled(d: DiskView, b: BaseView, m: ManifestView) -> ManifestView {
    ManifestView {
        version: m.version,
        mods: Map::new(
            |id: Seq<char>| m.mods.contains_key(id),
            |id: Seq<char>| reconciled(d, b, m.mods[id], Seq::empty()),
        ),
    }
}

/// Some shard holds enabled VPKs.
pub open spec fn any_enabled(d: DiskView, b: BaseView) -> bool {
    exists|n: nat| valid_shard(n) && enabled_count(d, #[trigger] shard_dir_of(b, n)) > 0
}

/// Reordering a profile of which the manifest has been read.
pub open spec fn profile_reordered_from(
    d: DiskView,
    b: BaseView,
    repo: RepoView,
    m: ManifestView,
) -> (DiskView, RepoView, Result<(), ErrorView>) {
    let m1 = all_reconciled(d, b, m);
    let groups = ordered_groups(m1);
    if groups.len() == 0 {
        let (d1, s) = if m1 != m {
            saved(d, b.path, m1)
        } else {
            (d, Ok(()))
        };
        match s {
            Err(e) => (d1, repo, Err(e)),
            Ok(_) => if any_enabled(d1, b) {
                let (d2, r) = reorder_done(d1, b.path, Seq::empty());
                match r {
                    Err(e) => (d2, repo, Err(e)),
                    Ok(_) => (d2, repo, Ok(())),
                }
            } else {
                (d1, repo, Ok(()))
            },
        }
    } else {
        let (d1, repo1, r) = reorder_committed(d, b.path, repo, m1, groups);
        match r {
            Err(e) => (d1, repo1, Err(e)),
            Ok(_) => (d1, repo1, Ok(())),
        }
    }
}

/// The tree once the manifest of a profile is read.
pub open spec fn read_profile(d: DiskView, m: ManagerView, folder: Option<Seq<char>>) -> DiskView {
    loaded(d, profile_base(m.game_path, folder)->Ok_0.path).0
}

/// Once the manifest of a profile is read, its files are moved to where `groups` asks
/// for them, and that is recorded, as a whole or not at all.
pub open spec fn reordered_as_whole(
    a: Disk,
    m: ManagerView,
    folder: Option<Seq<char>>,
    groups: Seq<GroupView>,
    b: Disk,
) -> bool {
    went(
        a,
        reorder_staged(
            read_profile(a@, m, folder),
            profile_base(m.game_path, folder)->Ok_0.path,
            groups,
        ).0,
        b@,
        b,
    )
}

/// The groups that a profile is reordered by.
pub open spec fn profile_groups(d: DiskView, m: ManagerView, folder: Option<Seq<char>>) -> Seq<
    GroupView,
> {
    let b = profile_base(m.game_path, folder)->Ok_0;
    let (d1, r) = loaded(d, b.path);
    ordered_groups(all_reconciled(d1, b, r->Ok_0))
}

/// Reordering a profile.
pub open spec fn profile_reordered(d: DiskView, m: ManagerView, folder: Option<Seq<char>>) -> (
    DiskView,
    RepoView,
    Result<(), ErrorView>,
) {
    match profile_base(m.game_path, folder) {
        Err(e) => (d, m.repo, Err(e)),
        Ok(b) => {
            let (d1, r) = loaded(d, b.path);
            match r {
                Err(e) => (d1, m.repo, Err(e)),
                Ok(manifest) => profile_reordered_from(d1, b, m.repo, manifest),
            }
        },
    }
}

/// Migrating a profile: a reordering, where one is needed.
pub open spec fn profile_migrated(d: DiskView, m: ManagerView, folder: Option<Seq<char>>) -> (
    DiskView,
    RepoView,
    Result<(), ErrorView>,
) {
    match profile_base(m.game_path, folder) {
        Err(e) => (d, m.repo, Err(e)),
        Ok(b) => if migration_needed(d, b) {
            profile_reordered(d, m, folder)
        } else {
            (d, m.repo, Ok(()))
        },
    }
}

fn any_shard_enabled(disk: &Disk, base: &ProfileBase) -> (r: bool)
    ensures
        r == any_enabled(disk@, base@),
{
    let shards = base.shards();
    let mut i: usize = 0;
    while i < shards.len()
        invariant
            i <= shards@.len() == MAX_SHARDS,
            forall|j: int|
                0 <= j < MAX_SHARDS ==> (#[trigger] shards@[j]).1@ == shard_dir_of(
                    base@,
                    (j + 1) as nat,
                ),
            forall|n: nat|
                1 <= n <= i ==> enabled_count(disk@, #[trigger] shard_dir_of(base@, n)) == 0,
        decreases shards@.len() - i,
    {
        assert(shards@[i as int].1@ == shard_dir_of(base@, (i + 1) as nat));
        if VpkManager::count_enabled_vpks(disk, &shards[i].1) > 0 {
            return true;
        }
        i = i + 1;
    }
    false
}

impl ModManager {
    /// Brings every entry in line with the disk. Returns whether any changed.
    fn reconcile_all(disk: &Disk, base: &ProfileBase, manifest: &mut ProfileVpkManifest) -> (r: bool)
        ensures
            final(manifest)@ == all_reconciled(disk@, base@, old(manifest)@),
            r == (final(manifest)@ != old(manifest)@),
    {
        let ghost m = manifest@;
        let n: usize = manifest.mods.len();
        let ghost keys = manifest.mods.keys();
        let none: Vec<String> = Vec::new();
        assert(texts(none@) =~= Seq::<Seq<char>>::empty());
        let source = manifest.duplicate();
        let mut changed: bool = false;
        let mut i: usize = 0;
        while i < n
            invariant
                i <= n == keys.len(),
                m == old(manifest)@,
                source@ == m,
                keys == keys_of::<String, EntryView>(m.mods),
                lists_keys::<String, EntryView>(keys, m.mods),
                texts(none@) == Seq::<Seq<char>>::empty(),
                manifest@.version == m.version,
                forall|id: Seq<char>| #[trigger]
                    manifest@.mods.contains_key(id) <==> m.mods.contains_key(id),
                forall|j: int|
                    0 <= j < i ==> manifest@.mods[#[trigger] keys[j]] == reconciled(
                        disk@,
                        base@,
                        m.mods[keys[j]],
                        Seq::empty(),
                    ),
                forall|j: int|
                    i <= j < n ==> manifest@.mods[#[trigger] keys[j]] == m.mods[keys[j]],
                changed <==> (exists|j: int|
                    0 <= j < i && reconciled(
                        disk@,
                        base@,
                        m.mods[#[trigger] keys[j]],
                        Seq::empty(),
                    ) != m.mods[keys[j]]),
            decreases n - i,
        {
            assert(keys == source.mods.keys());
            let id = source.mods.key_at(i).clone();
            let mut entry = source.mods.value_at(i).copy_value();
            let ghost before = manifest@;
            let step: bool = ModManager::reconcile_manifest_entry_for_reorder(
                disk,
                base,
                &mut entry,
                &none,
            );
            if step {
                changed = true;
            }
            manifest.set_entry(id.as_str(), entry);
            proof {
                assert(id@ == keys[i as int]);
                assert(m.mods.contains_key(id@));
                assert forall|j: int| 0 <= j < n && j != i implies #[trigger] keys[j] != id@ by {
                    text::lemma_text_before_total(keys[j], keys[i as int]);
                    if j < i {
                        assert(<String as crate::table::Key>::before(keys[j], keys[i as int]));
                    } else {
                        assert(<String as crate::table::Key>::before(keys[i as int], keys[j]));
                    }
                }
                assert forall|x: Seq<char>| #[trigger] manifest@.mods.contains_key(x)
                    <==> m.mods.contains_key(x) by {
                    assert(before.mods.contains_key(x) <==> m.mods.contains_key(x));
                }
                if changed {
                    if step {
                        assert(reconciled(disk@, base@, m.mods[keys[i as int]], Seq::empty())
                            != m.mods[keys[i as int]]);
                    } else {
                        let j = choose|j: int|
                            0 <= j < i && reconciled(
                                disk@,
                                base@,
                                m.mods[#[trigger] keys[j]],
                                Seq::empty(),
                            ) != m.mods[keys[j]];
                        assert(reconciled(disk@, base@, m.mods[keys[j]], Seq::empty())
                            != m.mods[keys[j]]);
                    }
                }
            }
            i = i + 1;
        }
        proof {
            let want = all_reconciled(disk@, base@, m);
            assert forall|id: Seq<char>| #[trigger] manifest@.mods.contains_key(id) implies manifest@.mods[id]
                == want.mods[id] by {
                assert(keys.contains(id));
            }
            assert(manifest@.mods =~= want.mods);
            if changed {
                let j = choose|j: int|
                    0 <= j < n && reconciled(disk@, base@, m.mods[#[trigger] keys[j]], Seq::empty())
                        != m.mods[keys[j]];
                assert(manifest@.mods[keys[j]] != m.mods[keys[j]]);
            } else {
                assert forall|id: Seq<char>| #[trigger] m.mods.contains_key(id) implies m.mods[id]
                    == want.mods[id] by {
                    assert(keys.contains(id));
                    let j = choose|j: int| 0 <= j < keys.len() && keys[j] == id;
                    assert(reconciled(disk@, base@, m.mods[keys[j]], Seq::empty())
                        == m.mods[keys[j]]);
                }
                assert(m.mods =~= want.mods);
            }
        }
        changed
    }

    /// Reorders all mods of a profile by their install order.
    pub fn reorder_all_mods_for_profile(&mut self, disk: &mut Disk, profile_folder: &Option<
        String,
    >) -> (r: Result<(), Error>)
        ensures
            ordered(*old(disk), *final(disk)),
            ({
                let (d, repo, out) = profile_reordered(
                    old(disk)@,
                    old(self)@,
                    opt_text(*profile_folder),
                );
                final(disk)@ == d && final(self)@ == with_repo(old(self)@, repo) && unit_result(r)
                    == out
            }),
            r is Ok && profile_groups(old(disk)@, old(self)@, opt_text(*profile_folder)).len() > 0
                ==> reordered_as_whole(
                *old(disk),
                old(self)@,
                opt_text(*profile_folder),
                profile_groups(old(disk)@, old(self)@, opt_text(*profile_folder)),
                *final(disk),
            ),
    {
        assert(with_repo(self@, self@.repo) == self@);
        let base = self.get_addons_path(profile_folder)?;
        let mut manifest = ProfileVpkManifest::load(disk, base.path())?;
        let changed: bool = ModManager::reconcile_all(disk, &base, &mut manifest);
        let assignments = ModManager::ordered_assignments(&manifest);
        assert(assignment_views(assignments@).len() == assignments@.len());
        if assignments.len() == 0 {
            if changed {
                manifest.save_whole(disk, base.path())?;
            }
            if any_shard_enabled(disk, &base) {
                let none: Vec<ShardAssignment> = Vec::new();
                assert(assignment_views(none@) =~= Seq::<GroupView>::empty());
                let placed = VpkManager::new().reorder_vpks_sharded(disk, &none, base.path())?;
            }
            return Ok(());
        }
        let placed = self.commit_reorder(disk, base.path(), manifest, &assignments)?;
        Ok(())
    }

    /// Moves a profile that is laid out as before sharding into shards.
    pub fn migrate_profile_to_shards(&mut self, disk: &mut Disk, profile_folder: &Option<String>) -> (r:
        Result<(), Error>)
        ensures
            ordered(*old(disk), *final(disk)),
            ({
                let (d, repo, out) = profile_migrated(
                    old(disk)@,
                    old(self)@,
                    opt_text(*profile_folder),
                );
                final(disk)@ == d && final(self)@ == with_repo(old(self)@, repo) && unit_result(r)
                    == out
            }),
    {
        assert(with_repo(self@, self@.repo) == self@);
        let base = self.get_addons_path(profile_folder)?;
        if gameinfo::needs_shard_migration(disk, &base) {
            self.reorder_all_mods_for_profile(disk, profile_folder)?;
        }
        Ok(())
    }
}

} // verus!
