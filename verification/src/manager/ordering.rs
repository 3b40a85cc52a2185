//! Reordering mods on request, and changing the variant of a mod.
use super::{profile_base, with_repo, ManagerView, Mod, ModManager, ModView, RepoView};
use super::reorder::{
    chosen_shard, entry_group, profile_reordered, read_profile, reconciled, reorder_committed,
    reordered_as_whole,
};
use crate::{order, text};
use crate::disk::{Disk, DiskView};
use crate::error::{Error, ErrorView};
use crate::file_tree::{tree_of, FileTreeView, ModFileTree};
use crate::journal::{group_journal, ordered, went};
use crate::manifest_store::{loaded, saved};
use crate::order::{key_values, sorted_by, sorted_places, sorted_set, SortKey};
use crate::shard::{BaseView, ProfileBase};
use crate::text::{opt_text, strip_prefix_spec, texts};
use crate::vpk_manager::{
    operations, GroupView, ShardAssignment, ShardPlacement, SwapRequest, SwapView, VpkManager,
};
use crate::vpk_manager::operations::{file_names, prefixed_found};
use crate::vpk_manager::reorder::{assignment_views, placement_views};
use crate::vpk_manager::swap::swapped;
use crate::vpk_manifest::{
    entry_or_blank, is_active, marked_enabled, shard_of_mod, with_entry, EntryView,
    ManifestView, ProfileVpkManifest, ProfileVpkManifestEntry,
};
use vstd::prelude::*;
use vstd::string::*;

verus! {

broadcast use group_journal;

// ---------------------------------------------------------------------------
// By remote id, with the files that the caller knows
// ---------------------------------------------------------------------------

/// A mod, the files it is said to have, and its order.
pub type RemoteView = (Seq<char>, Seq<Seq<char>>, u32);

pub open spec fn remote_views(v: Seq<(String, Vec<String>, u32)>) -> Seq<RemoteView> {
    v.map_values(|x: (String, Vec<String>, u32)| (x.0@, texts(x.1@), x.2))
}

pub open spec fn remote_keys(v: Seq<RemoteView>) -> Seq<SortKey> {
    v.map_values(|x: RemoteView| (x.2 as u64, 0u64, 0u64))
}

/// The manifest, the active mods so far, and whether the manifest has changed.
pub struct OrderState {
    pub manifest: ManifestView,
    pub groups: Seq<GroupView>,
    pub changed: bool,
}

/// Recording the order of one entry and bringing it in line with the disk.
pub open spec fn entry_ordered(
    s: OrderState,
    d: DiskView,
    b: BaseView,
    id: Seq<char>,
    fallback: Seq<Seq<char>>,
    order: u32,
) -> OrderState {
    let e = entry_or_blank(s.manifest, id);
    let e1 = EntryView { order: Some(order), ..e };
    let e2 = reconciled(d, b, e1, fallback);
    OrderState {
        manifest: with_entry(s.manifest, id, e2),
        groups: if is_active(e2) {
            s.groups.push(entry_group(id, e2))
        } else {
            s.groups
        },
        changed: s.changed || e.order != Some(order) || e2 != e1,
    }
}

pub open spec fn remote_ordered(
    d: DiskView,
    b: BaseView,
    m: ManifestView,
    list: Seq<RemoteView>,
    k: int,
) -> OrderState
    decreases k,
{
    if k <= 0 {
        OrderState { manifest: m, groups: Seq::empty(), changed: false }
    } else {
        let x = list[k - 1];
        entry_ordered(remote_ordered(d, b, m, list, k - 1), d, b, x.0, file_names(x.1), x.2)
    }
}

/// Where a mod's files ended up.
pub type NamedFiles = (Seq<char>, Seq<Seq<char>>);

pub open spec fn named_files(groups: Seq<GroupView>) -> Seq<NamedFiles> {
    groups.map_values(|g: GroupView| (g.mod_id, g.vpks))
}

/// Once the manifest of a profile is read, its files are moved and that is recorded as a
/// whole or not at all; or where there is none to move, the manifest is written so, or
/// nothing is changed.
pub open spec fn moved_or_recorded(
    a: Disk,
    m: ManagerView,
    folder: Option<Seq<char>>,
    groups: Seq<GroupView>,
    b: Disk,
) -> bool {
    let d = read_profile(a@, m, folder);
    if groups.len() > 0 {
        reordered_as_whole(a, m, folder, groups, b)
    } else {
        b@ == d || went(a, d, b@, b)
    }
}

/// The groups that the mods are reordered by.
pub open spec fn remote_groups(
    d: DiskView,
    m: ManagerView,
    list: Seq<RemoteView>,
    folder: Option<Seq<char>>,
) -> Seq<GroupView> {
    let b = profile_base(m.game_path, folder)->Ok_0;
    let (d1, r) = loaded(d, b.path);
    let sorted = sorted_by(list, remote_keys(list));
    remote_ordered(d1, b, r->Ok_0, sorted, sorted.len() as int).groups
}

/// Reordering by remote id.
pub open spec fn remote_reordered(
    d: DiskView,
    m: ManagerView,
    list: Seq<RemoteView>,
    folder: Option<Seq<char>>,
) -> (DiskView, RepoView, Result<Seq<NamedFiles>, ErrorView>) {
    match profile_base(m.game_path, folder) {
        Err(e) => (d, m.repo, Err(e)),
        Ok(b) => {
            let (d1, r) = loaded(d, b.path);
            match r {
                Err(e) => (d1, m.repo, Err(e)),
                Ok(manifest) => {
                    let sorted = sorted_by(list, remote_keys(list));
                    let s = remote_ordered(d1, b, manifest, sorted, sorted.len() as int);
                    if s.groups.len() == 0 {
                        let (d2, w) = if s.changed {
                            saved(d1, b.path, s.manifest)
                        } else {
                            (d1, Ok(()))
                        };
                        match w {
                            Err(e) => (d2, m.repo, Err(e)),
                            Ok(_) => (d2, m.repo, Ok(Seq::empty())),
                        }
                    } else {
                        let (d2, repo, out) = reorder_committed(
                            d1,
                            b.path,
                            m.repo,
                            s.manifest,
                            s.groups,
                        );
                        match out {
                            Err(e) => (d2, repo, Err(e)),
                            Ok(placements) => (d2, repo, Ok(named_files(placements))),
                        }
                    }
                },
            }
        },
    }
}

pub open spec fn named_views(v: Seq<(String, Vec<String>)>) -> Seq<NamedFiles> {
    v.map_values(|x: (String, Vec<String>)| (x.0@, texts(x.1@)))
}

pub open spec fn named_result(r: Result<Vec<(String, Vec<String>)>, Error>) -> Result<
    Seq<NamedFiles>,
    ErrorView,
> {
    match r {
        Ok(v) => Ok(named_views(v@)),
        Err(e) => Err(e@),
    }
}

fn group_of(id: &str, e: &ProfileVpkManifestEntry) -> (r: ShardAssignment)
    ensures
        r@ == entry_group(id@, e@),
{
    ShardAssignment {
        mod_id: id.to_owned(),
        shard: e.shard,
        vpks: text::copy_texts(&e.current_vpks),
    }
}

/// Records the order of one entry and brings it in line with the disk.
fn order_entry(
    disk: &Disk,
    base: &ProfileBase,
    manifest: &mut ProfileVpkManifest,
    groups: &mut Vec<ShardAssignment>,
    id: &str,
    fallback: &Vec<String>,
    order: u32,
) -> (r: bool)
    ensures
        forall|changed: bool|
            (OrderState {
                manifest: final(manifest)@,
                groups: assignment_views(final(groups)@),
                changed: changed || r,
            }) == #[trigger] entry_ordered(
                OrderState {
                    manifest: old(manifest)@,
                    groups: assignment_views(old(groups)@),
                    changed,
                },
                disk@,
                base@,
                id@,
                texts(fallback@),
                order,
            ),
{
    let mut entry = match manifest.entry(id) {
        Some(e) => e,
        None => ProfileVpkManifestEntry::blank(),
    };
    let mut changed: bool = match entry.order {
        Some(n) => n != order,
        None => true,
    };
    entry.order = Some(order);
    if ModManager::reconcile_manifest_entry_for_reorder(disk, base, &mut entry, fallback) {
        changed = true;
    }
    assert(entry@.current.len() == entry.current_vpks@.len());
    if entry.enabled && entry.current_vpks.len() > 0 {
        let g = group_of(id, &entry);
        assert(assignment_views(groups@.push(g)) =~= assignment_views(groups@).push(g@));
        groups.push(g);
    }
    manifest.set_entry(id, entry);
    changed
}

impl ModManager {
    /// Reorders mods by their ids, with the files that the caller takes them to
    /// have, and returns where the files of each went.
    pub fn reorder_mods_by_remote_id(
        &mut self,
        disk: &mut Disk,
        mod_order_data: &Vec<(String, Vec<String>, u32)>,
        profile_folder: &Option<String>,
    ) -> (r: Result<Vec<(String, Vec<String>)>, Error>)
        ensures
            ordered(*old(disk), *final(disk)),
            ({
                let (d, repo, out) = remote_reordered(
                    old(disk)@,
                    old(self)@,
                    remote_views(mod_order_data@),
                    opt_text(*profile_folder),
                );
                final(disk)@ == d && final(self)@ == with_repo(old(self)@, repo) && named_result(r)
                    == out
            }),
            r is Ok ==> moved_or_recorded(
                *old(disk),
                old(self)@,
                opt_text(*profile_folder),
                remote_groups(old(disk)@, old(self)@, remote_views(mod_order_data@), opt_text(*profile_folder)),
                *final(disk),
            ),
    {
        assert(with_repo(self@, self@.repo) == self@);
        let base = self.get_addons_path(profile_folder)?;
        let ghost list = remote_views(mod_order_data@);
        let mut keys: Vec<SortKey> = Vec::new();
        let mut k: usize = 0;
        while k < mod_order_data.len()
            invariant
                k <= mod_order_data@.len(),
                list == remote_views(mod_order_data@),
                keys@.len() == k,
                forall|j: int| 0 <= j < k ==> #[trigger] keys@[j] == remote_keys(list)[j],
            decreases mod_order_data@.len() - k,
        {
            assert(list[k as int].2 == mod_order_data@[k as int].2);
            keys.push((mod_order_data[k].2 as u64, 0, 0));
            k = k + 1;
        }
        assert(keys@ =~= remote_keys(list));
        let places = order::stable_order(&keys);
        let ghost sorted = sorted_by(list, remote_keys(list));
        let mut manifest = ProfileVpkManifest::load(disk, base.path())?;
        let ghost d1 = disk@;
        let ghost m = manifest@;
        let mut groups: Vec<ShardAssignment> = Vec::new();
        let mut changed: bool = false;
        let mut i: usize = 0;
        proof {
            assert(assignment_views(groups@) =~= Seq::<GroupView>::empty());
            assert(order::place_views(places@) == sorted_places(remote_keys(list)));
        }
        while i < places.len()
            invariant
                i <= places@.len(),
                places@.len() == mod_order_data@.len(),
                list == remote_views(mod_order_data@),
                sorted == sorted_by(list, remote_keys(list)),
                order::place_views(places@) == sorted_places(remote_keys(list)),
                forall|j: int|
                    0 <= j < places@.len() ==> 0 <= #[trigger] places@[j] < mod_order_data@.len(),
                disk@ == d1,
                remote_ordered(d1, base@, m, sorted, i as int) == (OrderState {
                    manifest: manifest@,
                    groups: assignment_views(groups@),
                    changed,
                }),
            decreases places@.len() - i,
        {
            let at: usize = places[i];
            let x = &mod_order_data[at];
            proof {
                assert(order::place_views(places@)[i as int] == at);
                assert(sorted[i as int] == list[at as int]);
                assert(list[at as int] == (x.0@, texts(x.1@), x.2));
            }
            let names = operations::vpk_filenames(&x.1);
            let ghost was = OrderState {
                manifest: manifest@,
                groups: assignment_views(groups@),
                changed,
            };
            let ghost next = entry_ordered(was, d1, base@, x.0@, texts(names@), x.2);
            assert(remote_ordered(d1, base@, m, sorted, i + 1) == next);
            if order_entry(disk, &base, &mut manifest, &mut groups, x.0.as_str(), &names, x.2) {
                changed = true;
            }
            i = i + 1;
        }
        assert(sorted.len() == places@.len()) by {
            assert(order::place_views(places@).len() == places@.len());
        }
        assert(assignment_views(groups@).len() == groups@.len());
        if groups.len() == 0 {
            if changed {
                manifest.save_whole(disk, base.path())?;
            }
            let none: Vec<(String, Vec<String>)> = Vec::new();
            assert(named_views(none@) =~= Seq::<NamedFiles>::empty());
            return Ok(none);
        }
        let placements = self.commit_reorder(disk, base.path(), manifest, &groups)?;
        let ghost pv = placement_views(placements@);
        let mut out: Vec<(String, Vec<String>)> = Vec::new();
        let mut j: usize = 0;
        while j < placements.len()
            invariant
                j <= placements@.len(),
                pv == placement_views(placements@),
                out@.len() == j,
                forall|x: int|
                    0 <= x < j ==> (#[trigger] out@[x]).0@ == pv[x].mod_id && texts(out@[x].1@)
                        == pv[x].vpks,
            decreases placements@.len() - j,
        {
            assert(pv[j as int] == placements@[j as int]@);
            out.push((placements[j].mod_id.clone(), text::copy_texts(&placements[j].vpks)));
            j = j + 1;
        }
        assert(named_views(out@) =~= named_files(pv));
        Ok(out)
    }
}

// ---------------------------------------------------------------------------
// By id, among the recorded mods
// ---------------------------------------------------------------------------

pub type OrderView = (Seq<char>, u32);

pub open spec fn order_views(v: Seq<(String, u32)>) -> Seq<OrderView> {
    v.map_values(|x: (String, u32)| (x.0@, x.1))
}

pub open spec fn order_keys(v: Seq<OrderView>) -> Seq<SortKey> {
    v.map_values(|x: OrderView| (x.1 as u64, 0u64, 0u64))
}

/// Recording the order of one mod, in the manifest if it is there.
pub open spec fn mods_ordered(
    d: DiskView,
    b: BaseView,
    m: ManifestView,
    list: Seq<OrderView>,
    k: int,
) -> OrderState
    decreases k,
{
    if k <= 0 {
        OrderState { manifest: m, groups: Seq::empty(), changed: false }
    } else {
        let s = mods_ordered(d, b, m, list, k - 1);
        let x = list[k - 1];
        if s.manifest.mods.contains_key(x.0) {
            entry_ordered(s, d, b, x.0, Seq::empty(), x.1)
        } else {
            s
        }
    }
}

/// The known mods with the orders of the first `k`.
pub open spec fn repo_ordered(repo: RepoView, list: Seq<OrderView>, k: int) -> RepoView
    decreases k,
{
    if k <= 0 {
        repo
    } else {
        let r = repo_ordered(repo, list, k - 1);
        let x = list[k - 1];
        if r.contains_key(x.0) {
            r.insert(r[x.0].id, ModView { install_order: Some(x.1), ..r[x.0] })
        } else {
            r
        }
    }
}

/// The known mods among those placed.
pub open spec fn placed_mods(repo: RepoView, groups: Seq<GroupView>) -> Seq<ModView> {
    groups.filter(|g: GroupView| repo.contains_key(g.mod_id)).map_values(
        |g: GroupView| repo[g.mod_id],
    )
}

/// The groups that the mods are reordered by.
pub open spec fn order_groups(
    d: DiskView,
    m: ManagerView,
    list: Seq<OrderView>,
    folder: Option<Seq<char>>,
) -> Seq<GroupView> {
    let b = profile_base(m.game_path, folder)->Ok_0;
    let (d1, r) = loaded(d, b.path);
    let sorted = sorted_by(list, order_keys(list));
    mods_ordered(d1, b, r->Ok_0, sorted, sorted.len() as int).groups
}

/// Reordering by id.
pub open spec fn mods_reordered(
    d: DiskView,
    m: ManagerView,
    list: Seq<OrderView>,
    folder: Option<Seq<char>>,
) -> (DiskView, RepoView, Result<Seq<ModView>, ErrorView>) {
    match profile_base(m.game_path, folder) {
        Err(e) => (d, m.repo, Err(e)),
        Ok(b) => {
            let (d1, r) = loaded(d, b.path);
            match r {
                Err(e) => (d1, m.repo, Err(e)),
                Ok(manifest) => {
                    let sorted = sorted_by(list, order_keys(list));
                    let s = mods_ordered(d1, b, manifest, sorted, sorted.len() as int);
                    let repo = repo_ordered(m.repo, sorted, sorted.len() as int);
                    if s.groups.len() == 0 {
                        let (d2, w) = if s.changed {
                            saved(d1, b.path, s.manifest)
                        } else {
                            (d1, Ok(()))
                        };
                        match w {
                            Err(e) => (d2, repo, Err(e)),
                            Ok(_) => (d2, repo, Ok(Seq::empty())),
                        }
                    } else {
                        let (d2, repo2, out) = reorder_committed(
                            d1,
                            b.path,
                            repo,
                            s.manifest,
                            s.groups,
                        );
                        match out {
                            Err(e) => (d2, repo2, Err(e)),
                            Ok(placements) => (d2, repo2, Ok(placed_mods(repo2, placements))),
                        }
                    }
                },
            }
        },
    }
}

pub open spec fn mod_views(v: Seq<Mod>) -> Seq<ModView> {
    v.map_values(|m: Mod| m@)
}

pub open spec fn mods_result(r: Result<Vec<Mod>, Error>) -> Result<Seq<ModView>, ErrorView> {
    match r {
        Ok(v) => Ok(mod_views(v@)),
        Err(e) => Err(e@),
    }
}

impl ModManager {
    fn list_placed_mods(&self, placements: &Vec<ShardPlacement>) -> (r: Vec<Mod>)
        ensures
            mod_views(r@) == placed_mods(self@.repo, placement_views(placements@)),
    {
        let ghost all = placement_views(placements@);
        let ghost repo = self@.repo;
        let ghost pred = |g: GroupView| repo.contains_key(g.mod_id);
        let ghost show = |g: GroupView| repo[g.mod_id];
        let mut r: Vec<Mod> = Vec::new();
        let mut i: usize = 0;
        proof {
            reveal(Seq::filter);
            assert(all.take(0).filter(pred) =~= Seq::<GroupView>::empty());
            assert(mod_views(r@) =~= all.take(0).filter(pred).map_values(show));
        }
        while i < placements.len()
            invariant
                i <= placements@.len(),
                all == placement_views(placements@),
                repo == self@.repo,
                pred == (|g: GroupView| repo.contains_key(g.mod_id)),
                show == (|g: GroupView| repo[g.mod_id]),
                mod_views(r@) == all.take(i as int).filter(pred).map_values(show),
            decreases placements@.len() - i,
        {
            let ghost g = all[i as int];
            let ghost so_far = all.take(i as int).filter(pred);
            proof {
                assert(g == placements@[i as int]@);
                assert(all.take(i + 1) =~= all.take(i as int).push(g));
                crate::disk::lemma_filter_push(all.take(i as int), g, pred);
                assert(so_far.push(g).map_values(show) =~= so_far.map_values(show).push(show(g)));
            }
            match self.get_mod(placements[i].mod_id.as_str()) {
                Some(m) => {
                    assert(mod_views(r@.push(m)) =~= mod_views(r@).push(m@));
                    r.push(m);
                },
                None => {},
            }
            i = i + 1;
        }
        assert(all.take(all.len() as int) =~= all);
        r
    }

    /// Gives mods a new order, moves their files accordingly, and returns the
    /// known ones as they are now.
    pub fn reorder_mods(
        &mut self,
        disk: &mut Disk,
        mod_order_data: &Vec<(String, u32)>,
        profile_folder: &Option<String>,
    ) -> (r: Result<Vec<Mod>, Error>)
        ensures
            ordered(*old(disk), *final(disk)),
            ({
                let (d, repo, out) = mods_reordered(
                    old(disk)@,
                    old(self)@,
                    order_views(mod_order_data@),
                    opt_text(*profile_folder),
                );
                final(disk)@ == d && final(self)@ == with_repo(old(self)@, repo) && mods_result(r)
                    == out
            }),
            r is Ok ==> moved_or_recorded(
                *old(disk),
                old(self)@,
                opt_text(*profile_folder),
                order_groups(old(disk)@, old(self)@, order_views(mod_order_data@), opt_text(*profile_folder)),
                *final(disk),
            ),
    {
        assert(with_repo(self@, self@.repo) == self@);
        let base = self.get_addons_path(profile_folder)?;
        let ghost list = order_views(mod_order_data@);
        let mut keys: Vec<SortKey> = Vec::new();
        let mut k: usize = 0;
        while k < mod_order_data.len()
            invariant
                k <= mod_order_data@.len(),
                list == order_views(mod_order_data@),
                keys@.len() == k,
                forall|j: int| 0 <= j < k ==> #[trigger] keys@[j] == order_keys(list)[j],
            decreases mod_order_data@.len() - k,
        {
            assert(list[k as int].1 == mod_order_data@[k as int].1);
            keys.push((mod_order_data[k].1 as u64, 0, 0));
            k = k + 1;
        }
        assert(keys@ =~= order_keys(list));
        let places = order::stable_order(&keys);
        let ghost sorted = sorted_by(list, order_keys(list));
        let mut manifest = ProfileVpkManifest::load(disk, base.path())?;
        let ghost d1 = disk@;
        let ghost m = manifest@;
        let ghost before = self@;
        let none: Vec<String> = Vec::new();
        let mut groups: Vec<ShardAssignment> = Vec::new();
        let mut changed: bool = false;
        let mut i: usize = 0;
        proof {
            assert(texts(none@) =~= Seq::<Seq<char>>::empty());
            assert(assignment_views(groups@) =~= Seq::<GroupView>::empty());
            assert(order::place_views(places@) == sorted_places(order_keys(list)));
        }
        while i < places.len()
            invariant
                i <= places@.len(),
                places@.len() == mod_order_data@.len(),
                list == order_views(mod_order_data@),
                sorted == sorted_by(list, order_keys(list)),
                order::place_views(places@) == sorted_places(order_keys(list)),
                forall|j: int|
                    0 <= j < places@.len() ==> 0 <= #[trigger] places@[j] < mod_order_data@.len(),
                disk@ == d1,
                texts(none@) == Seq::<Seq<char>>::empty(),
                before == old(self)@,
                self@ == with_repo(before, repo_ordered(before.repo, sorted, i as int)),
                mods_ordered(d1, base@, m, sorted, i as int) == (OrderState {
                    manifest: manifest@,
                    groups: assignment_views(groups@),
                    changed,
                }),
            decreases places@.len() - i,
        {
            let at: usize = places[i];
            let x = &mod_order_data[at];
            proof {
                assert(order::place_views(places@)[i as int] == at);
                assert(sorted[i as int] == list[at as int]);
                assert(list[at as int] == (x.0@, x.1));
            }
            let ghost was = OrderState {
                manifest: manifest@,
                groups: assignment_views(groups@),
                changed,
            };
            if manifest.mods.contains(&x.0) {
                let ghost next = entry_ordered(was, d1, base@, x.0@, Seq::empty(), x.1);
                assert(mods_ordered(d1, base@, m, sorted, i + 1) == next);
                if order_entry(disk, &base, &mut manifest, &mut groups, x.0.as_str(), &none, x.1) {
                    changed = true;
                }
            } else {
                assert(mods_ordered(d1, base@, m, sorted, i + 1) == was);
            }
            match self.get_mod(x.0.as_str()) {
                Some(known) => {
                    let mut known = known;
                    known.install_order = Some(x.1);
                    self.add_mod(known);
                },
                None => {},
            }
            i = i + 1;
        }
        assert(sorted.len() == places@.len()) by {
            assert(order::place_views(places@).len() == places@.len());
        }
        assert(assignment_views(groups@).len() == groups@.len());
        if groups.len() == 0 {
            if changed {
                manifest.save_whole(disk, base.path())?;
            }
            let out: Vec<Mod> = Vec::new();
            assert(mod_views(out@) =~= Seq::<ModView>::empty());
            return Ok(out);
        }
        let placements = self.commit_reorder(disk, base.path(), manifest, &groups)?;
        Ok(self.list_placed_mods(&placements))
    }
}

// ---------------------------------------------------------------------------
// Variants
// ---------------------------------------------------------------------------

/// What a mod has after its variant was changed.
#[derive(Debug)]
pub struct VariantChangeResult {
    pub installed_vpks: Vec<String>,
    pub original_vpk_names: Vec<String>,
    pub file_tree: ModFileTree,
}

pub struct VariantView {
    pub installed: Seq<Seq<char>>,
    pub original: Seq<Seq<char>>,
    pub file_tree: FileTreeView,
}

impl View for VariantChangeResult {
    type V = VariantView;

    open spec fn view(&self) -> VariantView {
        VariantView {
            installed: texts(self.installed_vpks@),
            original: texts(self.original_vpk_names@),
            file_tree: self.file_tree@,
        }
    }
}

pub open spec fn variant_result(r: Result<VariantChangeResult, Error>) -> Result<
    VariantView,
    ErrorView,
> {
    match r {
        Ok(v) => Ok(v@),
        Err(e) => Err(e@),
    }
}

/// The names of a mod's disabled files without the mod's prefix.
pub open spec fn without_prefixes(id: Seq<char>, names: Seq<Seq<char>>) -> Seq<Seq<char>> {
    names.map_values(
        |n: Seq<char>|
            match strip_prefix_spec(n, id + "_"@) {
                Some(s) => s,
                None => n,
            },
    )
}

/// The variants on offer: the selected files and the disabled ones, by name.
pub open spec fn variants_available(
    id: Seq<char>,
    selected: Seq<Seq<char>>,
    found: Seq<Seq<char>>,
) -> Seq<Seq<char>> {
    sorted_set::<String>(selected + without_prefixes(id, found))
}

/// The files of an enabled mod, or the complaint that it is gone.
pub open spec fn enabled_files(m: ManifestView, id: Seq<char>) -> Result<Seq<Seq<char>>, ErrorView> {
    if m.mods.contains_key(id) && m.mods[id].enabled {
        Ok(m.mods[id].current)
    } else {
        Err(
            ErrorView::ModInvalid(
                "Mod "@ + id + " is missing from the manifest after reordering"@,
            ),
        )
    }
}

/// The swap that changes a mod's variant.
pub open spec fn variant_swap(
    b: BaseView,
    m: ManifestView,
    id: Seq<char>,
    installed: Seq<Seq<char>>,
    original: Seq<Seq<char>>,
    selected: Seq<Seq<char>>,
    target: nat,
) -> SwapView {
    SwapView {
        base: b,
        current_shard: shard_of_mod(m, id),
        target_shard: target,
        mod_id: id,
        installed,
        original,
        selected,
    }
}

/// Enabling another variant of a mod, up to the manifest that records it.
pub open spec fn variant_enabled(
    d: DiskView,
    b: BaseView,
    m: ManifestView,
    id: Seq<char>,
    installed: Seq<Seq<char>>,
    original: Seq<Seq<char>>,
    selected: Seq<Seq<char>>,
) -> Result<DiskView, ErrorView> {
    match chosen_shard(d, b, Some((shard_of_mod(m, id), installed.len())), selected.len()) {
        Err(e) => Err(e),
        Ok(target) => match swapped(
            d,
            variant_swap(b, m, id, installed, original, selected, target),
        ) {
            Err(e) => Err(e),
            Ok((work, names)) => {
                let (d1, s) = saved(
                    work,
                    b.path,
                    marked_enabled(m, id, names, selected, None, target),
                );
                match s {
                    Err(e) => Err(e),
                    Ok(_) => Ok(d1),
                }
            },
        },
    }
}

/// The known mods once a mod's variant was changed.
pub open spec fn repo_with_variant(repo: RepoView, id: Seq<char>, v: VariantView) -> RepoView {
    if repo.contains_key(id) {
        repo.insert(
            repo[id].id,
            ModView {
                installed: v.installed,
                original: v.original,
                file_tree: Some(v.file_tree),
                ..repo[id]
            },
        )
    } else {
        repo
    }
}

/// Once the manifest of a profile is read, the variant of a mod is changed and that is
/// recorded as a whole or not at all.
pub open spec fn variant_as_whole(
    a: Disk,
    m: ManagerView,
    id: Seq<char>,
    folder: Option<Seq<char>>,
    installed: Seq<Seq<char>>,
    original: Seq<Seq<char>>,
    selected: Seq<Seq<char>>,
    b: Disk,
) -> bool {
    let base = profile_base(m.game_path, folder)->Ok_0;
    let (d, r) = loaded(a@, base.path);
    went(a, d, variant_enabled(d, base, r->Ok_0, id, installed, original, selected)->Ok_0, b)
}

/// Changing the variant of a mod and reordering its profile.
pub open spec fn variant_applied(
    d: DiskView,
    m: ManagerView,
    id: Seq<char>,
    folder: Option<Seq<char>>,
    installed: Seq<Seq<char>>,
    original: Seq<Seq<char>>,
    selected: Seq<Seq<char>>,
) -> (DiskView, RepoView, Result<VariantView, ErrorView>) {
    match profile_base(m.game_path, folder) {
        Err(e) => (d, m.repo, Err(e)),
        Ok(b) => {
            let (d1, r) = loaded(d, b.path);
            match r {
                Err(e) => (d1, m.repo, Err(e)),
                Ok(manifest) => match variant_enabled(
                    d1,
                    b,
                    manifest,
                    id,
                    installed,
                    original,
                    selected,
                ) {
                    Err(e) => (d1, m.repo, Err(e)),
                    Ok(d2) => match prefixed_found(d2, b.path, id) {
                        Err(e) => (d2, m.repo, Err(e)),
                        Ok(found) => {
                            let (d3, repo, o) = profile_reordered(d2, m, folder);
                            match o {
                                Err(e) => (d3, repo, Err(e)),
                                Ok(_) => {
                                    let (d4, l) = loaded(d3, b.path);
                                    match l {
                                        Err(e) => (d4, repo, Err(e)),
                                        Ok(after) => match enabled_files(after, id) {
                                            Err(e) => (d4, repo, Err(e)),
                                            Ok(files) => {
                                                let v = VariantView {
                                                    installed: files,
                                                    original: selected,
                                                    file_tree: tree_of(
                                                        variants_available(id, selected, found),
                                                        selected,
                                                    ),
                                                };
                                                (d4, repo_with_variant(repo, id, v), Ok(v))
                                            },
                                        },
                                    }
                                },
                            }
                        },
                    },
                },
            }
        },
    }
}

fn list_variants(mod_id: &str, selected: &Vec<String>, found: &Vec<String>) -> (r: Vec<String>)
    ensures
        texts(r@) == variants_available(mod_id@, texts(selected@), texts(found@)),
{
    let prefix = operations::prefixed_name(mod_id, "");
    proof {
        reveal_strlit("");
        assert(prefix@ =~= mod_id@ + "_"@);
    }
    let ghost stripped = without_prefixes(mod_id@, texts(found@));
    let ghost sv = texts(selected@);
    let mut all = text::copy_texts(selected);
    let mut i: usize = 0;
    assert(texts(all@) =~= sv + stripped.take(0));
    while i < found.len()
        invariant
            i <= found@.len(),
            prefix@ == mod_id@ + "_"@,
            stripped == without_prefixes(mod_id@, texts(found@)),
            texts(all@) == sv + stripped.take(i as int),
        decreases found@.len() - i,
    {
        let s = match text::without_prefix(found[i].as_str(), prefix.as_str()) {
            Some(s) => s,
            None => found[i].clone(),
        };
        proof {
            assert(texts(found@)[i as int] == found@[i as int]@);
            assert(stripped[i as int] == s@);
            text::lemma_texts_push(all@, s);
            assert(sv + stripped.take(i + 1) =~= (sv + stripped.take(i as int)).push(s@));
        }
        all.push(s);
        i = i + 1;
    }
    assert(stripped.take(stripped.len() as int) =~= stripped);
    assert(key_values(all@) =~= texts(all@));
    let r = order::sort_unique(&all);
    assert(key_values(r@) =~= texts(r@));
    r
}

impl ModManager {
    /// Enables another variant of a mod and writes the manifest that records it.
    fn enable_variant(
        disk: &mut Disk,
        base: &ProfileBase,
        manifest: ProfileVpkManifest,
        mod_id: &str,
        current_installed_vpks: &Vec<String>,
        current_original_names: &Vec<String>,
        selected: &Vec<String>,
    ) -> (r: Result<(), Error>)
        ensures
            ordered(*old(disk), *final(disk)),
            ({
                let out = variant_enabled(
                    old(disk)@,
                    base@,
                    manifest@,
                    mod_id@,
                    texts(current_installed_vpks@),
                    texts(current_original_names@),
                    texts(selected@),
                );
                match r {
                    Ok(_) => out == Ok::<DiskView, ErrorView>(final(disk)@) && went(
                        *old(disk),
                        old(disk)@,
                        final(disk)@,
                        *final(disk),
                    ),
                    Err(e) => out == Err::<DiskView, ErrorView>(e@) && final(disk)@ == old(disk)@,
                }
            }),
    {
        disk.settle();
        let mut manifest = manifest;
        assert(texts(current_installed_vpks@).len() == current_installed_vpks@.len());
        assert(texts(selected@).len() == selected@.len());
        let current_shard = manifest.shard_of(mod_id);
        let target_shard = ModManager::choose_shard_for(
            disk,
            base,
            Some((current_shard, current_installed_vpks.len())),
            selected.len(),
        )?;
        let request = SwapRequest {
            base,
            current_shard,
            target_shard,
            mod_id,
            current_installed_vpks,
            current_original_names,
            selected_original_names: selected,
        };
        assert(request@ == variant_swap(
            base@,
            manifest@,
            mod_id@,
            texts(current_installed_vpks@),
            texts(current_original_names@),
            texts(selected@),
            target_shard.number(),
        ));
        let mut pending = VpkManager::new().stage_enabled_vpk_swap(disk, &request)?;
        manifest.mark_enabled(
            mod_id,
            text::copy_texts(&pending.value),
            text::copy_texts(selected),
            None,
            target_shard,
        );
        manifest.save(&mut pending.work, base.path())?;
        pending.commit(disk);
        Ok(())
    }

    /// Changes the variant of a mod, and reorders its profile.
    pub fn apply_variant_selection(
        &mut self,
        disk: &mut Disk,
        mod_id: &str,
        profile_folder: &Option<String>,
        current_installed_vpks: &Vec<String>,
        current_original_names: &Vec<String>,
        selected_original_names: Vec<String>,
    ) -> (r: Result<VariantChangeResult, Error>)
        ensures
            ordered(*old(disk), *final(disk)),
            ({
                let (d, repo, out) = variant_applied(
                    old(disk)@,
                    old(self)@,
                    mod_id@,
                    opt_text(*profile_folder),
                    texts(current_installed_vpks@),
                    texts(current_original_names@),
                    texts(selected_original_names@),
                );
                final(disk)@ == d && final(self)@ == with_repo(old(self)@, repo) && variant_result(
                    r,
                ) == out
            }),
            r is Ok ==> variant_as_whole(
                *old(disk),
                old(self)@,
                mod_id@,
                opt_text(*profile_folder),
                texts(current_installed_vpks@),
                texts(current_original_names@),
                texts(selected_original_names@),
                *final(disk),
            ),
    {
        assert(with_repo(self@, self@.repo) == self@);
        let base = self.get_addons_path(profile_folder)?;
        let manifest = ProfileVpkManifest::load(disk, base.path())?;
        ModManager::enable_variant(
            disk,
            &base,
            manifest,
            mod_id,
            current_installed_vpks,
            current_original_names,
            &selected_original_names,
        )?;
        let found = VpkManager::new().find_prefixed_vpks(disk, base.path(), mod_id)?;
        let available = list_variants(mod_id, &selected_original_names, &found);
        let file_tree = ModFileTree::from_options(&available, &selected_original_names);
        self.reorder_all_mods_for_profile(disk, profile_folder)?;
        let after = ProfileVpkManifest::load(disk, base.path())?;
        let installed_vpks = match after.entry(mod_id) {
            Some(e) => if e.enabled {
                Some(e.current_vpks)
            } else {
                None
            },
            None => None,
        };
        match installed_vpks {
            Some(files) => {
                match self.get_mod(mod_id) {
                    Some(known) => {
                        let mut known = known;
                        known.installed_vpks = text::copy_texts(&files);
                        known.original_vpk_names = text::copy_texts(&selected_original_names);
                        known.file_tree = Some(file_tree.duplicate());
                        self.add_mod(known);
                    },
                    None => {},
                }
                Ok(
                    VariantChangeResult {
                        installed_vpks: files,
                        original_vpk_names: selected_original_names,
                        file_tree,
                    },
                )
            },
            None => {
                let mut m: String = "Mod ".to_owned();
                m.append(mod_id);
                m.append(" is missing from the manifest after reordering");
                Err(Error::ModInvalid(m))
            },
        }
    }
}

} // verus!
