//! Mods that are installed at a place in the order: what the manifest records of them,
//! and what uninstalling them brings back.
use super::{profile_base, with_repo, ManagerView, ModView, RepoView};
use super::hydration::lemma_same_mods;
use super::layout::{law_mods_load_in_their_order, law_the_manifest_describes_the_disk};
use super::lifecycle::{files_installed, mod_installed, mod_uninstalled};
use super::ordering::without_prefixes;
use super::recording::{
    installable, lemma_base_of_profile, lemma_disabled_files, lemma_files_recorded,
    lemma_not_the_manifest, lemma_save_keeps, lemma_uninstalled,
};
use super::reorder::{
    all_reconciled, chosen_shard, entry_group, existing_names, ordered_groups, placed_entry,
    placements_recorded, profile_reordered, reorder_committed, resolved_vpks,
};
use crate::disk::{
    exists_at, fresh_manifest, is_dir_at, is_file_at, law_changes_keep_the_tree_rooted,
    lemma_below_exists, lemma_filter_members, lemma_names_in, lemma_rooted_at, names_in, rooted,
    same_at, without_tree, DiskView, NodeView, OpView,
};
use crate::error::ErrorView;
use crate::manifest_store::{
    lemma_no_updates, lemma_saved, loaded, manifest_path, manifest_temp_path, nothing_staged,
    saved,
};
use crate::path::{
    base_name, lemma_join_plain, lemma_own_name, path_join, path_parent, plain_name, vpk_name,
    PathView, TreePath,
};
use crate::shard::{
    base_of, base_ok, shard_dir_of, valid_shard, BaseView, MAX_SHARDS, REORDER_STAGING_DIR,
};
use crate::table::lemma_finite_has_order;
use crate::vpk_manager::GroupView;
use crate::vpk_manager::moves::{places, shiftable};
use crate::vpk_manager::naming::{law_enabled_names_round_trip, lemma_pak_plain, pak_number};
use crate::vpk_manager::operations::{file_names, prefixed_names};
use crate::vpk_manager::reorder::{
    all_claims, claim_path, claims_of, group_claims, orphans_to, reorder_sources,
    reorder_staged, reordered, ClaimView,
};
use crate::vpk_manager::reordering::{
    claims_stand, law_reordering_moves_each_file, lemma_placement_name, lemma_placements_differ,
    lemma_places_are_enabled, lemma_reordered_keeps, new_places,
};
use crate::vpk_manager::setting_aside::{lemma_shard_dir, plain_tree};
use crate::vpk_manager::unclaimed::lemma_unclaimed;
use crate::vpk_manifest::{
    is_active, marked_enabled, ManifestView, CURRENT_MANIFEST_VERSION, MANIFEST_FILENAME,
};
use vstd::prelude::*;

verus! {

/// What the manifest records as enabled are names of one component, and no directory
/// bears one of them.
pub open spec fn records_files(d: DiskView, b: BaseView, m: ManifestView) -> bool {
    &&& forall|id: Seq<char>| #[trigger] m.mods.contains_key(id) ==> valid_shard(m.mods[id].shard)
    &&& forall|id: Seq<char>, i: int|
        m.mods.contains_key(id) && 0 <= i < m.mods[id].current.len() ==> plain_name(
            base_name(#[trigger] m.mods[id].current[i]),
        ) && !is_dir_at(
            d,
            shard_dir_of(b, m.mods[id].shard).push(base_name(m.mods[id].current[i])),
        )
}

/// Some mod is recorded with an enabled file of this name.
pub open spec fn recorded_name(m: ManifestView, name: Seq<char>) -> bool {
    exists|id: Seq<char>, i: int|
        m.mods.contains_key(id) && 0 <= i < m.mods[id].current.len() && base_name(
            #[trigger] m.mods[id].current[i],
        ) == name
}

pub proof fn lemma_plain_base(t: Seq<char>)
    requires
        plain_name(t),
    ensures
        base_name(t) == t,
{
    lemma_own_name(t);
}

proof fn lemma_all_pass<A>(s: Seq<A>, pred: spec_fn(A) -> bool)
    requires
        s.filter(pred).len() == s.len(),
    ensures
        forall|i: int| 0 <= i < s.len() ==> pred(#[trigger] s[i]),
    decreases s.len(),
{
    reveal(Seq::filter);
    if s.len() > 0 {
        let t = s.drop_last();
        t.lemma_filter_len(pred);
        lemma_all_pass(t, pred);
        assert forall|i: int| 0 <= i < s.len() implies pred(#[trigger] s[i]) by {
            if i < t.len() {
                assert(s[i] == t[i]);
            }
        }
    }
}

/// A name that a mod keeps is a recorded one that is there.
proof fn lemma_resolved(d: DiskView, dir: PathView, current: Seq<Seq<char>>, j: int)
    requires
        forall|i: int| 0 <= i < current.len() ==> plain_name(base_name(#[trigger] current[i])),
        0 <= j < resolved_vpks(d, dir, current, Seq::empty()).len(),
    ensures
        ({
            let v = resolved_vpks(d, dir, current, Seq::empty())[j];
            plain_name(v) && exists_at(d, dir.push(v)) && exists|i: int|
                0 <= i < current.len() && base_name(#[trigger] current[i]) == v
        }),
{
    let names = file_names(current);
    let pred = |n: Seq<char>| exists_at(d, path_join(dir, n));
    let twice = file_names(names);
    assert forall|i: int| 0 <= i < names.len() implies twice[i] == #[trigger] names[i]
        && plain_name(names[i]) by {
        assert(names[i] == base_name(current[i]));
        lemma_plain_base(names[i]);
    }
    assert(twice =~= names);
    let there = existing_names(d, dir, names);
    assert(there == names.filter(pred));
    lemma_filter_members(names, pred);
    assert(file_names(Seq::<Seq<char>>::empty()) =~= Seq::<Seq<char>>::empty());
    let none = Seq::<Seq<char>>::empty();
    assert(file_names(none) =~= none);
    assert(existing_names(d, dir, none).len() == 0) by {
        reveal(Seq::filter);
    }
    let all = resolved_vpks(d, dir, current, none);
    let v = all[j];
    if names.len() > 0 && there.len() == names.len() {
        lemma_all_pass(names, pred);
        assert(v == names[j]);
    } else {
        assert(all == there || all.len() == 0);
        assert(there.contains(v));
    }
    assert(names.contains(v) && pred(v));
    let i = choose|i: int| 0 <= i < names.len() && names[i] == v;
    assert(base_name(current[i]) == v);
    lemma_join_plain(dir, v);
}

/// A claim stands, and is recorded.
spec fn good_claim(d: DiskView, b: BaseView, m: ManifestView, c: ClaimView) -> bool {
    valid_shard(c.shard) && plain_name(c.name) && is_file_at(
        d,
        shard_dir_of(b, c.shard).push(c.name),
    ) && recorded_name(m, c.name)
}

proof fn lemma_good_claims(
    d: DiskView,
    b: BaseView,
    m: ManifestView,
    groups: Seq<GroupView>,
    k: int,
)
    requires
        0 <= k <= groups.len(),
        forall|i: int, j: int|
            0 <= i < groups.len() && 0 <= j < groups[i].vpks.len() ==> good_claim(
                d,
                b,
                m,
                #[trigger] group_claims(groups[i])[j],
            ),
    ensures
        forall|i: int|
            0 <= i < claims_of(groups, k).len() ==> good_claim(
                d,
                b,
                m,
                #[trigger] claims_of(groups, k)[i],
            ),
    decreases k,
{
    if k > 0 {
        lemma_good_claims(d, b, m, groups, k - 1);
        let was = claims_of(groups, k - 1);
        let own = group_claims(groups[k - 1]);
        assert forall|i: int| 0 <= i < claims_of(groups, k).len() implies good_claim(
            d,
            b,
            m,
            #[trigger] claims_of(groups, k)[i],
        ) by {
            if i < was.len() {
                assert(claims_of(groups, k)[i] == was[i]);
            } else {
                assert(claims_of(groups, k)[i] == own[i - was.len()]);
            }
        }
    }
}

/// What the mods claim in a reordering.
proof fn lemma_claims(d: DiskView, b: BaseView, m: ManifestView)
    requires
        m.mods.dom().finite(),
        records_files(d, b, m),
    ensures
        ({
            let groups = ordered_groups(all_reconciled(d, b, m));
            &&& forall|i: int|
                0 <= i < all_claims(groups).len() ==> good_claim(
                    d,
                    b,
                    m,
                    #[trigger] all_claims(groups)[i],
                )
            &&& forall|i: int, j: int|
                0 <= i < j < groups.len() ==> (#[trigger] groups[i]).mod_id != (
                #[trigger] groups[j]).mod_id
            &&& forall|i: int|
                0 <= i < groups.len() ==> m.mods.contains_key((#[trigger] groups[i]).mod_id)
        }),
{
    let m1 = all_reconciled(d, b, m);
    let groups = ordered_groups(m1);
    assert(m1.mods.dom() =~= m.mods.dom());
    assert forall|id: Seq<char>| #[trigger] m1.mods.contains_key(id) implies valid_shard(
        m1.mods[id].shard,
    ) by {
        assert(m.mods.contains_key(id));
    }
    law_mods_load_in_their_order(m1);
    assert forall|i: int, j: int| 0 <= i < groups.len() && 0 <= j < groups[i].vpks.len() implies
        good_claim(d, b, m, #[trigger] group_claims(groups[i])[j]) by {
        let id = groups[i].mod_id;
        assert(m1.mods.contains_key(id));
        assert(m.mods.contains_key(id));
        let entry = m.mods[id];
        let dir = shard_dir_of(b, entry.shard);
        let none = Seq::<Seq<char>>::empty();
        let kept = resolved_vpks(d, dir, entry.current, none);
        assert(groups[i] == entry_group(id, m1.mods[id]));
        assert(m1.mods[id].current == kept);
        assert forall|k: int| 0 <= k < entry.current.len() implies plain_name(
            base_name(#[trigger] entry.current[k]),
        ) by {
            assert(plain_name(base_name(m.mods[id].current[k])));
        }
        lemma_resolved(d, dir, entry.current, j);
        let v = kept[j];
        lemma_plain_base(v);
        let c = group_claims(groups[i])[j];
        assert(c.name == v);
        let k = choose|k: int|
            0 <= k < entry.current.len() && base_name(#[trigger] entry.current[k]) == v;
        assert(base_name(m.mods[id].current[k]) == v);
        assert(!is_dir_at(d, dir.push(v)));
        assert(recorded_name(m, v));
    }
    lemma_good_claims(d, b, m, groups, groups.len() as int);
}

/// The mod that has just been enabled keeps its files.
proof fn lemma_own_entry(d: DiskView, b: BaseView, m: ManifestView, id: Seq<char>)
    requires
        m.mods.contains_key(id),
        m.mods[id].enabled,
        m.mods[id].disabled == Seq::<Seq<char>>::empty(),
        m.mods[id].current.len() > 0,
        forall|i: int|
            0 <= i < m.mods[id].current.len() ==> plain_name(#[trigger] m.mods[id].current[i])
                && exists_at(d, shard_dir_of(b, m.mods[id].shard).push(m.mods[id].current[i])),
    ensures
        all_reconciled(d, b, m).mods[id] == m.mods[id],
        is_active(m.mods[id]),
{
    let entry = m.mods[id];
    let dir = shard_dir_of(b, entry.shard);
    let names = file_names(entry.current);
    let pred = |n: Seq<char>| exists_at(d, path_join(dir, n));
    assert forall|i: int| 0 <= i < names.len() implies #[trigger] names[i] == entry.current[i]
        && pred(names[i]) && base_name(names[i]) == names[i] by {
        lemma_plain_base(entry.current[i]);
        lemma_join_plain(dir, entry.current[i]);
    }
    assert(names =~= entry.current);
    assert(file_names(names) =~= names);
    lemma_filter_all_pass(names, pred);
}

pub proof fn lemma_filter_all_pass<A>(s: Seq<A>, pred: spec_fn(A) -> bool)
    requires
        forall|i: int| 0 <= i < s.len() ==> pred(#[trigger] s[i]),
    ensures
        s.filter(pred) == s,
    decreases s.len(),
{
    reveal(Seq::filter);
    if s.len() > 0 {
        let t = s.drop_last();
        assert forall|i: int| 0 <= i < t.len() implies pred(#[trigger] t[i]) by {
            assert(t[i] == s[i]);
        }
        lemma_filter_all_pass(t, pred);
        assert(pred(s[s.len() - 1]));
        assert(s =~= t.push(s.last()));
    }
}

/// A mod is recorded as enabled, under the names that its files have; they are there,
/// with the contents that they had when they were disabled, and no longer where they were
/// disabled.
pub open spec fn stands_installed(
    d: DiskView,
    e: DiskView,
    b: BaseView,
    x: ModView,
    y: ModView,
) -> bool {
    let names = prefixed_names(d, b.path, x.id);
    let after = loaded(e, b.path).1->Ok_0;
    let entry = after.mods[x.id];
    &&& loaded(e, b.path) == (e, Ok::<ManifestView, ErrorView>(after))
    &&& after.mods.contains_key(x.id)
    &&& entry.enabled
    &&& entry.order == x.install_order
    &&& valid_shard(entry.shard)
    &&& entry.original == without_prefixes(x.id, names)
    &&& entry.current.len() == names.len()
    &&& y.id == x.id
    &&& y.installed == entry.current
    &&& y.original == entry.original
    &&& forall|i: int|
        0 <= i < names.len() ==> {
            let place = shard_dir_of(b, entry.shard).push(#[trigger] entry.current[i]);
            &&& e.contains_key(place)
            &&& e[place] == d[b.path.push(names[i])]
            &&& !exists_at(e, b.path.push(names[i]))
        }
}

/// A file that is neither enabled, nor recorded as such, nor one of the mod, nor the
/// manifest.
pub open spec fn bystander(d: DiskView, b: BaseView, id: Seq<char>, q: PathView) -> bool {
    &&& is_file_at(d, q)
    &&& pak_number(q.last()) is None
    &&& !recorded_name(loaded(d, b.path).1->Ok_0, q.last())
    &&& !places(b.path, prefixed_names(d, b.path, id)).contains(q)
    &&& q != manifest_path(b.path)
    &&& q != manifest_temp_path(b.path)
}

/// Everything that uninstalling the mod needs of the tree.
spec fn can_be_uninstalled(d: DiskView, e: DiskView, b: BaseView, id: Seq<char>) -> bool {
    let names = prefixed_names(d, b.path, id);
    let entry = loaded(e, b.path).1->Ok_0.mods[id];
    let dir = shard_dir_of(b, entry.shard);
    &&& rooted(e)
    &&& e.dom().finite()
    &&& is_dir_at(e, b.path)
    &&& is_file_at(e, manifest_path(b.path))
    &&& !exists_at(e, manifest_temp_path(b.path))
    &&& shiftable(e, places(dir, entry.current), places(b.path, names))
    &&& forall|i: int|
        0 <= i < names.len() ==> plain_name(#[trigger] entry.current[i]) && pak_number(
            entry.current[i],
        ) is Some && is_file_at(e, dir.push(entry.current[i]))
}

/// What holds once the files of the mod are enabled and recorded.
proof fn lemma_enabled_mod(d: DiskView, b: BaseView, x: ModView, y: ModView)
    requires
        base_ok(b),
        base_of(b.path, false) is Some,
        is_dir_at(d, b.path),
        installable(d, b, x.id),
        x.install_order is Some,
        records_files(d, b, loaded(d, b.path).1->Ok_0),
        files_installed(d, b, x, prefixed_names(d, b.path, x.id)).1 == Ok::<ModView, ErrorView>(y),
    ensures
        ({
            let e = files_installed(d, b, x, prefixed_names(d, b.path, x.id)).0;
            let now = loaded(e, b.path).1->Ok_0;
            &&& stands_installed(d, e, b, x, y)
            &&& can_be_uninstalled(d, e, b, x.id)
            &&& records_files(e, b, now)
            &&& plain_tree(e)
            &&& nothing_staged(e, b.path)
            &&& now.version == CURRENT_MANIFEST_VERSION
            &&& now.mods[x.id].disabled == Seq::<Seq<char>>::empty()
            &&& now.mods.dom() == loaded(d, b.path).1->Ok_0.mods.dom().insert(x.id)
            &&& forall|q: PathView| bystander(d, b, x.id, q) ==> #[trigger] same_at(d, e, q)
            &&& forall|name: Seq<char>|
                #[trigger] recorded_name(now, name) ==> pak_number(name) is Some || recorded_name(
                    loaded(d, b.path).1->Ok_0,
                    name,
                )
        }),
{
    lemma_files_recorded(d, b, x, y);
    let p = b.path;
    let names = prefixed_names(d, p, x.id);
    let original = without_prefixes(x.id, names);
    let n = names.len() as int;
    let target = chosen_shard(d, b, None, names.len())->Ok_0;
    let before = loaded(d, p).1->Ok_0;
    let now = marked_enabled(before, x.id, y.installed, original, x.install_order, target);
    let e = files_installed(d, b, x, names).0;
    let dir = shard_dir_of(b, target);
    let from = places(p, names);
    let to = places(dir, y.installed);
    let entry = now.mods[x.id];
    assert(entry.current == y.installed);
    assert(original.len() == names.len());
    assert(entry.original == original);
    assert forall|i: int| 0 <= i < n implies to[i] == dir.push(#[trigger] entry.current[i])
        && from[i] == p.push(names[i]) by {}
    assert(stands_installed(d, e, b, x, y)) by {
        assert forall|i: int| 0 <= i < n implies {
            let place = dir.push(#[trigger] entry.current[i]);
            &&& e.contains_key(place)
            &&& e[place] == d[p.push(names[i])]
            &&& !exists_at(e, p.push(names[i]))
        } by {
            assert(plain_name(y.installed[i]));
            assert(to[i] == dir.push(entry.current[i]));
            assert(!e.contains_key(from[i]));
        }
    }
    assert(can_be_uninstalled(d, e, b, x.id)) by {
        assert forall|i: int| 0 <= i < n implies plain_name(#[trigger] entry.current[i])
            && pak_number(entry.current[i]) is Some && is_file_at(e, dir.push(entry.current[i])) by {
            assert(plain_name(y.installed[i]));
            assert(to[i] == dir.push(entry.current[i]));
        }
    }
    assert(now.mods.dom() =~= before.mods.dom().insert(x.id));
    assert(records_files(e, b, now)) by {
        assert forall|id: Seq<char>| #[trigger] now.mods.contains_key(id) implies valid_shard(
            now.mods[id].shard,
        ) by {
            if id != x.id {
                assert(before.mods.contains_key(id));
            }
        }
        assert forall|id: Seq<char>, i: int|
            now.mods.contains_key(id) && 0 <= i < now.mods[id].current.len() implies plain_name(
            base_name(#[trigger] now.mods[id].current[i]),
        ) && !is_dir_at(
            e,
            shard_dir_of(b, now.mods[id].shard).push(base_name(now.mods[id].current[i])),
        ) by {
            let v = now.mods[id].current[i];
            if id == x.id {
                assert(v == y.installed[i]);
                lemma_plain_base(v);
                assert(to[i] == dir.push(v));
            } else {
                assert(before.mods.contains_key(id));
                assert(v == before.mods[id].current[i]);
                assert(valid_shard(before.mods[id].shard));
                lemma_shard_dir(b, before.mods[id].shard);
                let q = shard_dir_of(b, before.mods[id].shard).push(base_name(v));
                if is_dir_at(e, q) {
                    assert(e.contains_key(q) && q.len() > p.len());
                    if to.contains(q) {
                        let j = choose|j: int| 0 <= j < to.len() && to[j] == q;
                        assert(plain_name(y.installed[j]));
                        assert(is_file_at(e, to[j]));
                    }
                }
            }
        }
    }
    assert forall|q: PathView| bystander(d, b, x.id, q) implies #[trigger] same_at(d, e, q) by {}
    assert forall|name: Seq<char>| #[trigger] recorded_name(now, name) implies pak_number(name)
        is Some || recorded_name(before, name) by {
        let (id, i) = choose|id: Seq<char>, i: int|
            now.mods.contains_key(id) && 0 <= i < now.mods[id].current.len() && base_name(
                #[trigger] now.mods[id].current[i],
            ) == name;
        if id == x.id {
            assert(plain_name(y.installed[i]));
            lemma_plain_base(y.installed[i]);
        } else {
            assert(base_name(before.mods[id].current[i]) == name);
        }
    }
}

/// Reading a tree in which nothing is left over.
pub proof fn lemma_clean_read(e: DiskView, p: PathView, m: ManifestView)
    requires
        base_of(p, false) is Some,
        exists_at(e, manifest_path(p)),
        e[manifest_path(p)] == fresh_manifest(m),
        !exists_at(e, manifest_temp_path(p)),
        nothing_staged(e, p),
        m.version == CURRENT_MANIFEST_VERSION,
    ensures
        loaded(e, p) == (e, Ok::<ManifestView, ErrorView>(m)),
{
    if is_dir_at(e, p) {
        let names = names_in(e, p);
        lemma_no_updates(e, base_of(p, false)->0, p, m, names, names.len() as int);
    }
}

/// What a reordering leaves of a tree once it is recorded, the directory of the
/// reordering removed.
proof fn lemma_settled(
    work: DiskView,
    b: BaseView,
    m: ManifestView,
    e: DiskView,
)
    requires
        rooted(work),
        work.dom().finite(),
        base_ok(b),
        saved(work, b.path, m).1 is Ok,
        ({
            let d2 = saved(work, b.path, m).0;
            let stage = b.path.push(REORDER_STAGING_DIR@);
            e == (if is_dir_at(d2, stage) {
                without_tree(d2, stage)
            } else {
                d2
            })
        }),
    ensures
        ({
            let p = b.path;
            let stage = p.push(REORDER_STAGING_DIR@);
            &&& rooted(e)
            &&& e.dom().finite()
            &&& is_dir_at(e, p)
            &&& is_file_at(e, manifest_path(p))
            &&& e[manifest_path(p)] == fresh_manifest(m)
            &&& !exists_at(e, manifest_temp_path(p))
            &&& !is_dir_at(e, stage)
            &&& forall|q: PathView|
                q.len() > p.len() && !stage.is_prefix_of(q) && q != manifest_path(p)
                    && q != manifest_temp_path(p) ==> #[trigger] same_at(work, e, q)
            &&& forall|q: PathView| #[trigger]
                e.contains_key(q) && q.len() > p.len() && q != manifest_path(p) ==> same_at(
                    work,
                    e,
                    q,
                )
        }),
{
    let p = b.path;
    let main = manifest_path(p);
    let temp = manifest_temp_path(p);
    let stage = p.push(REORDER_STAGING_DIR@);
    let d2 = saved(work, p, m).0;
    lemma_saved(work, p, m);
    lemma_save_keeps(work, p, m);
    lemma_shard_dir(b, 1);
    assert(is_dir_at(d2, p)) by {
        lemma_rooted_at(d2, main);
        assert(main.drop_last() =~= p);
    }
    assert(!stage.is_prefix_of(main)) by {
        if stage.is_prefix_of(main) {
            assert(stage =~= main);
            reveal_strlit(".dmm.json");
            reveal_strlit(".dmm-reorder");
            assert(main.last() == MANIFEST_FILENAME@);
            assert(stage.last() == REORDER_STAGING_DIR@);
            assert(MANIFEST_FILENAME@.len() == 9);
            assert(REORDER_STAGING_DIR@.len() == 12);
        }
    }
    if is_dir_at(d2, stage) {
        law_changes_keep_the_tree_rooted(d2, OpView::RemoveTree { path: stage, lenient: true });
        assert(stage.is_prefix_of(stage)) by {
            assert(stage =~= stage.take(stage.len() as int));
        }
    }
    assert forall|q: PathView| q.len() > p.len() && q != main && q != temp implies
        #[trigger] same_at(work, d2, q) by {
        assert(!q.is_prefix_of(p));
    }
    assert forall|q: PathView|
        q.len() > p.len() && !stage.is_prefix_of(q) && q != main && q != temp implies
        #[trigger] same_at(work, e, q) by {
        assert(same_at(work, d2, q));
    }
    assert forall|q: PathView| #[trigger] e.contains_key(q) && q.len() > p.len() && q
        != main implies same_at(work, e, q) by {
        assert(same_at(work, d2, q));
    }
}

/// The place of a mod among those that are reordered.
pub proof fn lemma_own_group(e: DiskView, b: BaseView, m: ManifestView, id: Seq<char>) -> (g: int)
    requires
        m.mods.dom().finite(),
        records_files(e, b, m),
        m.mods.contains_key(id),
        m.mods[id].enabled,
        m.mods[id].disabled == Seq::<Seq<char>>::empty(),
        m.mods[id].current.len() > 0,
        forall|i: int|
            0 <= i < m.mods[id].current.len() ==> plain_name(#[trigger] m.mods[id].current[i])
                && exists_at(e, shard_dir_of(b, m.mods[id].shard).push(m.mods[id].current[i])),
    ensures
        ({
            let m1 = all_reconciled(e, b, m);
            let groups = ordered_groups(m1);
            &&& 0 <= g < groups.len()
            &&& groups[g] == entry_group(id, m.mods[id])
            &&& m1.mods[id] == m.mods[id]
            &&& m1.mods.dom() == m.mods.dom()
            &&& claims_stand(e, b, all_claims(groups))
            &&& forall|i: int, j: int|
                0 <= i < j < groups.len() ==> (#[trigger] groups[i]).mod_id != (
                #[trigger] groups[j]).mod_id
            &&& forall|i: int|
                0 <= i < groups.len() ==> m1.mods.contains_key((#[trigger] groups[i]).mod_id)
        }),
{
    let m1 = all_reconciled(e, b, m);
    let groups = ordered_groups(m1);
    assert(m1.mods.dom() =~= m.mods.dom());
    lemma_claims(e, b, m);
    lemma_own_entry(e, b, m, id);
    assert forall|x: Seq<char>| #[trigger] m1.mods.contains_key(x) implies valid_shard(
        m1.mods[x].shard,
    ) by {
        assert(m.mods.contains_key(x));
    }
    law_mods_load_in_their_order(m1);
    assert(m1.mods.contains_key(id));
    assert(groups.contains(entry_group(id, m.mods[id])));
    let g = choose|g: int| 0 <= g < groups.len() && groups[g] == entry_group(id, m.mods[id]);
    let claims = all_claims(groups);
    assert forall|i: int| 0 <= i < claims.len() implies valid_shard((#[trigger] claims[i]).shard)
        && plain_name(claims[i].name) && is_file_at(
        e,
        shard_dir_of(b, claims[i].shard).push(claims[i].name),
    ) by {
        assert(good_claim(e, b, m, claims[i]));
    }
    g
}

/// A tree in which a mod has just been enabled and recorded, and the placements of the
/// reordering that follows.
pub open spec fn reordering(
    e: DiskView,
    b: BaseView,
    m: ManifestView,
    id: Seq<char>,
    repo: RepoView,
    placements: Seq<GroupView>,
) -> bool {
    let m1 = all_reconciled(e, b, m);
    &&& rooted(e)
    &&& e.dom().finite()
    &&& plain_tree(e)
    &&& base_ok(b)
    &&& base_of(b.path, true) == Some(b)
    &&& base_of(b.path, false) is Some
    &&& nothing_staged(e, b.path)
    &&& !exists_at(e, b.path.push(REORDER_STAGING_DIR@))
    &&& m.version == CURRENT_MANIFEST_VERSION
    &&& m.mods.dom().finite()
    &&& records_files(e, b, m)
    &&& m.mods.contains_key(id)
    &&& m.mods[id].enabled
    &&& m.mods[id].disabled == Seq::<Seq<char>>::empty()
    &&& m.mods[id].current.len() > 0
    &&& forall|i: int|
        0 <= i < m.mods[id].current.len() ==> plain_name(#[trigger] m.mods[id].current[i])
            && exists_at(e, shard_dir_of(b, m.mods[id].shard).push(m.mods[id].current[i]))
    &&& reorder_committed(e, b.path, repo, m1, ordered_groups(m1)).2 == Ok::<
        Seq<GroupView>,
        ErrorView,
    >(placements)
}

/// The tree that a reordering leaves.
pub open spec fn left_by(e: DiskView, b: BaseView, m: ManifestView, repo: RepoView) -> DiskView {
    let m1 = all_reconciled(e, b, m);
    reorder_committed(e, b.path, repo, m1, ordered_groups(m1)).0
}

/// What is recorded after a reordering is read again.
pub proof fn lemma_recorded_after(
    e: DiskView,
    b: BaseView,
    m: ManifestView,
    id: Seq<char>,
    repo: RepoView,
    placements: Seq<GroupView>,
)
    requires
        reordering(e, b, m, id, repo, placements),
    ensures
        ({
            let f = left_by(e, b, m, repo);
            let after = loaded(f, b.path).1->Ok_0;
            let entry = after.mods[id];
            &&& loaded(f, b.path) == (f, Ok::<ManifestView, ErrorView>(after))
            &&& after == placements_recorded(
                all_reconciled(e, b, m),
                placements,
                placements.len() as int,
            )
            &&& rooted(f)
            &&& f.dom().finite()
            &&& is_dir_at(f, b.path)
            &&& is_file_at(f, manifest_path(b.path))
            &&& !exists_at(f, manifest_temp_path(b.path))
            &&& after.mods.contains_key(id)
            &&& entry.enabled
            &&& entry.order == m.mods[id].order
            &&& entry.original == m.mods[id].original
            &&& entry.current.len() == m.mods[id].current.len()
            &&& valid_shard(entry.shard)
            &&& forall|i: int|
                0 <= i < entry.current.len() ==> {
                    let q = shard_dir_of(b, entry.shard).push(#[trigger] entry.current[i]);
                    &&& plain_name(entry.current[i])
                    &&& pak_number(entry.current[i]) is Some
                    &&& f.contains_key(q)
                    &&& f[q] == e[shard_dir_of(b, m.mods[id].shard).push(m.mods[id].current[i])]
                }
            &&& forall|i: int, j: int|
                0 <= i < j < entry.current.len() ==> #[trigger] entry.current[i]
                    != #[trigger] entry.current[j]
        }),
{
    let p = b.path;
    let g = lemma_own_group(e, b, m, id);
    let m1 = all_reconciled(e, b, m);
    let groups = ordered_groups(m1);
    let f = left_by(e, b, m, repo);
    law_the_manifest_describes_the_disk(e, p, repo, m1, groups, f, placements);
    let m2 = placements_recorded(m1, placements, placements.len() as int);
    lemma_same_mods(m1, placements, placements.len() as int);
    let work = reorder_staged(e, p, groups).1->Ok_0.0;
    assert(reordered(e, b, groups) == Ok::<(DiskView, Seq<GroupView>), ErrorView>(
        (work, placements),
    ));
    law_reordering_moves_each_file(e, b, groups, work, placements);
    lemma_reordered_keeps(e, b, groups);
    lemma_settled(work, b, m2, f);
    assert(nothing_staged(f, p)) by {
        lemma_finite_has_order::<TreePath, NodeView>(e);
        lemma_names_in(e, p);
        assert forall|name: Seq<char>| #[trigger] is_dir_at(f, p.push(name)) implies is_dir_at(
            e,
            p.push(name),
        ) && names_in(e, p).contains(name) by {
            let q = p.push(name);
            assert(f.contains_key(q) && q.len() > p.len());
            assert(same_at(work, f, q));
            assert(is_dir_at(work, q));
            assert(e.contains_key(q));
        }
    }
    lemma_clean_read(f, p, m2);
    let place = placements[g];
    let entry = m2.mods[id];
    assert(groups[g].mod_id == id);
    assert(entry == placed_entry(m1.mods[id], place));
    assert(m2.mods.contains_key(id)) by {
        assert(m2.mods.dom().contains(id));
    }
    let dir = shard_dir_of(b, m.mods[id].shard);
    let into = shard_dir_of(b, place.shard);
    assert forall|i: int| 0 <= i < entry.current.len() implies {
        let q = into.push(#[trigger] entry.current[i]);
        &&& plain_name(entry.current[i])
        &&& pak_number(entry.current[i]) is Some
        &&& f.contains_key(q)
        &&& f[q] == e[dir.push(m.mods[id].current[i])]
    } by {
        assert(entry.current[i] == place.vpks[i]);
        let k = lemma_placement_name(e, b, groups, work, placements, g, i);
        lemma_pak_plain(k);
        law_enabled_names_round_trip(k);
        let c = group_claims(groups[g])[i];
        lemma_plain_base(m.mods[id].current[i]);
        assert(c.name == m.mods[id].current[i]);
        lemma_join_plain(dir, c.name);
        assert(claim_path(b, c) == dir.push(m.mods[id].current[i]));
    }
    assert forall|i: int, j: int| 0 <= i < j < entry.current.len() implies
        #[trigger] entry.current[i] != #[trigger] entry.current[j] by {
        lemma_placements_differ(e, b, groups, work, placements, g, i, j);
    }
}

/// Nothing but enabled files stands where nothing stood.
pub proof fn lemma_still_free(
    e: DiskView,
    b: BaseView,
    m: ManifestView,
    id: Seq<char>,
    repo: RepoView,
    placements: Seq<GroupView>,
    name: Seq<char>,
)
    requires
        reordering(e, b, m, id, repo, placements),
        vpk_name(name),
        pak_number(name) is None,
        !e.contains_key(b.path.push(name)),
    ensures
        !left_by(e, b, m, repo).contains_key(b.path.push(name)),
{
    let p = b.path;
    lemma_own_group(e, b, m, id);
    let m1 = all_reconciled(e, b, m);
    let groups = ordered_groups(m1);
    let f = left_by(e, b, m, repo);
    let m2 = placements_recorded(m1, placements, placements.len() as int);
    let work = reorder_staged(e, p, groups).1->Ok_0.0;
    assert(reordered(e, b, groups) == Ok::<(DiskView, Seq<GroupView>), ErrorView>(
        (work, placements),
    ));
    law_reordering_moves_each_file(e, b, groups, work, placements);
    lemma_reordered_keeps(e, b, groups);
    lemma_settled(work, b, m2, f);
    let orphans = orphans_to(e, b, all_claims(groups), MAX_SHARDS as nat)->Ok_0;
    let spots = new_places(b, groups, orphans.len());
    let q = p.push(name);
    lemma_not_the_manifest(name);
    assert(q.last() == name);
    assert(manifest_path(p).last() == MANIFEST_FILENAME@);
    if f.contains_key(q) {
        assert(same_at(work, f, q));
        if is_file_at(work, q) {
            assert(spots.contains(q));
            let k = choose|k: int| 0 <= k < spots.len() && spots[k] == q;
            lemma_places_are_enabled(e, b, groups, k);
        } else {
            assert(is_dir_at(work, q));
            assert(is_dir_at(f, p.push(REORDER_STAGING_DIR@)));
        }
    }
}

/// A file that is neither enabled nor recorded as such stays.
pub proof fn lemma_stays(
    e: DiskView,
    b: BaseView,
    m: ManifestView,
    id: Seq<char>,
    repo: RepoView,
    placements: Seq<GroupView>,
    q: PathView,
)
    requires
        reordering(e, b, m, id, repo, placements),
        is_file_at(e, q),
        pak_number(q.last()) is None,
        !recorded_name(m, q.last()),
        q != manifest_path(b.path),
        q != manifest_temp_path(b.path),
    ensures
        same_at(e, left_by(e, b, m, repo), q),
{
    let p = b.path;
    lemma_own_group(e, b, m, id);
    let m1 = all_reconciled(e, b, m);
    let groups = ordered_groups(m1);
    let f = left_by(e, b, m, repo);
    let m2 = placements_recorded(m1, placements, placements.len() as int);
    let work = reorder_staged(e, p, groups).1->Ok_0.0;
    assert(reordered(e, b, groups) == Ok::<(DiskView, Seq<GroupView>), ErrorView>(
        (work, placements),
    ));
    law_reordering_moves_each_file(e, b, groups, work, placements);
    let claims = all_claims(groups);
    let orphans = orphans_to(e, b, claims, MAX_SHARDS as nat)->Ok_0;
    let sources = reorder_sources(b, claims, orphans);
    lemma_unclaimed(e, b, claims, MAX_SHARDS as nat);
    lemma_claims(e, b, m);
    assert(!sources.contains(q)) by {
        if sources.contains(q) {
            let i = choose|i: int| 0 <= i < sources.len() && sources[i] == q;
            if i < claims.len() {
                let c = claims[i];
                assert(good_claim(e, b, m, c));
                assert(sources[i] == claim_path(b, c));
                lemma_join_plain(shard_dir_of(b, c.shard), c.name);
                assert(q.last() == c.name);
            } else {
                assert(sources[i] == orphans[i - claims.len()]);
            }
        }
    }
    assert(same_at(e, work, q));
    lemma_bystander_kept(e, work, b, m2, f, q);
}

/// What holds once the profile is reordered.
proof fn lemma_reordered_mod(
    d: DiskView,
    b: BaseView,
    x: ModView,
    y: ModView,
    repo: RepoView,
    placements: Seq<GroupView>,
)
    requires
        base_ok(b),
        base_of(b.path, true) == Some(b),
        base_of(b.path, false) is Some,
        is_dir_at(d, b.path),
        installable(d, b, x.id),
        x.install_order is Some,
        records_files(d, b, loaded(d, b.path).1->Ok_0),
        loaded(d, b.path).1->Ok_0.mods.dom().finite(),
        files_installed(d, b, x, prefixed_names(d, b.path, x.id)).1 == Ok::<ModView, ErrorView>(y),
        ({
            let e = files_installed(d, b, x, prefixed_names(d, b.path, x.id)).0;
            reordering(e, b, loaded(e, b.path).1->Ok_0, x.id, repo, placements)
        }),
    ensures
        ({
            let e = files_installed(d, b, x, prefixed_names(d, b.path, x.id)).0;
            let f = left_by(e, b, loaded(e, b.path).1->Ok_0, repo);
            let after = loaded(f, b.path).1->Ok_0;
            &&& stands_installed(
                d,
                f,
                b,
                x,
                (ModView { installed: after.mods[x.id].current, ..y }),
            )
            &&& can_be_uninstalled(d, f, b, x.id)
            &&& forall|q: PathView| bystander(d, b, x.id, q) ==> #[trigger] same_at(d, f, q)
        }),
{
    lemma_enabled_mod(d, b, x, y);
    lemma_disabled_files(d, b, x.id);
    let p = b.path;
    let names = prefixed_names(d, p, x.id);
    let n = names.len() as int;
    let e = files_installed(d, b, x, names).0;
    let now = loaded(e, p).1->Ok_0;
    let old_entry = now.mods[x.id];
    let dir = shard_dir_of(b, old_entry.shard);
    lemma_recorded_after(e, b, now, x.id, repo, placements);
    let f = left_by(e, b, now, repo);
    let entry = loaded(f, p).1->Ok_0.mods[x.id];
    let into = shard_dir_of(b, entry.shard);
    let from = places(p, names);
    let to = places(into, entry.current);
    assert forall|i: int| 0 <= i < n implies !f.contains_key(p.push(#[trigger] names[i])) by {
        assert(e.contains_key(dir.push(old_entry.current[i])));
        assert(!exists_at(e, p.push(names[i])));
        lemma_still_free(e, b, now, x.id, repo, placements, names[i]);
    }
    assert forall|i: int| 0 <= i < n implies {
        let q = into.push(#[trigger] entry.current[i]);
        &&& f.contains_key(q)
        &&& f[q] == d[p.push(names[i])]
        &&& is_file_at(d, p.push(names[i]))
        &&& !exists_at(f, p.push(names[i]))
    } by {
        assert(e[dir.push(old_entry.current[i])] == d[p.push(names[i])]);
        assert(!f.contains_key(p.push(names[i])));
        assert(is_file_at(d, p.push(names[i])));
    }
    assert(shiftable(f, to, from)) by {
        assert forall|i: int| 0 <= i < to.len() implies f.contains_key(#[trigger] to[i]) by {
            assert(to[i] == into.push(entry.current[i]));
        }
        assert forall|i: int| 0 <= i < from.len() implies !f.contains_key(#[trigger] from[i]) by {
            assert(from[i] == p.push(names[i]));
        }
        assert forall|i: int, j: int| 0 <= i < j < to.len() implies #[trigger] to[i]
            != #[trigger] to[j] by {
            assert(entry.current[i] != entry.current[j]);
            assert(to[i].last() == entry.current[i]);
            assert(to[j].last() == entry.current[j]);
        }
        assert(shiftable(e, places(dir, old_entry.current), from));
    }
    assert forall|q: PathView| bystander(d, b, x.id, q) implies #[trigger] same_at(d, f, q) by {
        assert(same_at(d, e, q));
        lemma_stays(e, b, now, x.id, repo, placements, q);
    }
}

/// Recording a reordering leaves the files that stood before it.
proof fn lemma_bystander_kept(
    e: DiskView,
    work: DiskView,
    b: BaseView,
    m: ManifestView,
    f: DiskView,
    q: PathView,
)
    requires
        rooted(e),
        base_ok(b),
        !exists_at(e, b.path.push(REORDER_STAGING_DIR@)),
        is_file_at(e, q),
        same_at(e, work, q),
        q != manifest_path(b.path),
        q != manifest_temp_path(b.path),
        saved(work, b.path, m).1 is Ok,
        ({
            let d2 = saved(work, b.path, m).0;
            let stage = b.path.push(REORDER_STAGING_DIR@);
            f == (if is_dir_at(d2, stage) {
                without_tree(d2, stage)
            } else {
                d2
            })
        }),
    ensures
        same_at(e, f, q),
{
    let stage = b.path.push(REORDER_STAGING_DIR@);
    lemma_saved(work, b.path, m);
    lemma_shard_dir(b, 1);
    assert(path_parent(stage) is Some) by {
        assert(stage.len() > 1);
    }
    if stage.is_prefix_of(q) {
        if stage == q {
        } else {
            lemma_below_exists(e, stage, q);
        }
    }
}

/// What holds of a mod installed at a place in the order, whether or not the profile
/// could be reordered.
proof fn lemma_installed_in_order(
    d: DiskView,
    m: ManagerView,
    b: BaseView,
    x: ModView,
    folder: Option<Seq<char>>,
    y: ModView,
)
    requires
        profile_base(m.game_path, folder) == Ok::<BaseView, ErrorView>(b),
        is_dir_at(d, b.path),
        installable(d, b, x.id),
        x.install_order is Some,
        records_files(d, b, loaded(d, b.path).1->Ok_0),
        loaded(d, b.path).1->Ok_0.mods.dom().finite(),
        mod_installed(d, m, x, folder).2 == Ok::<ModView, ErrorView>(y),
    ensures
        ({
            let e = mod_installed(d, m, x, folder).0;
            &&& stands_installed(d, e, b, x, y)
            &&& can_be_uninstalled(d, e, b, x.id)
            &&& mod_installed(d, m, x, folder).1.contains_key(x.id)
            &&& mod_installed(d, m, x, folder).1[x.id] == y
            &&& y.name == x.name
            &&& y.is_map == x.is_map
            &&& y.install_order == x.install_order
            &&& x.file_tree is Some ==> y.file_tree == x.file_tree
            &&& forall|q: PathView| bystander(d, b, x.id, q) ==> #[trigger] same_at(d, e, q)
        }),
{
    lemma_base_of_profile(m, folder, b);
    let p = b.path;
    let names = prefixed_names(d, p, x.id);
    let (e, r) = files_installed(d, b, x, names);
    let z = r->Ok_0;
    lemma_enabled_mod(d, b, x, z);
    let now = loaded(e, p).1->Ok_0;
    let entry = now.mods[x.id];
    let known = with_repo(m, m.repo.insert(z.id, z));
    let m1 = all_reconciled(e, b, now);
    let groups = ordered_groups(m1);
    assert forall|i: int| 0 <= i < entry.current.len() implies plain_name(
        #[trigger] entry.current[i],
    ) && exists_at(e, shard_dir_of(b, entry.shard).push(entry.current[i])) by {}
    let g = lemma_own_group(e, b, now, x.id);
    assert(groups.len() > g);
    let (f, repo, done) = reorder_committed(e, p, known.repo, m1, groups);
    if done is Ok {
        let placements = done->Ok_0;
        assert(!exists_at(e, p.push(REORDER_STAGING_DIR@)));
        assert(reordering(e, b, now, x.id, known.repo, placements));
        lemma_reordered_mod(d, b, x, z, known.repo, placements);
    } else {
        assert(f == e);
    }
}

/// A mod installed at a place in the order is recorded as enabled, under the names its
/// files have now, and they are there, with the contents they had; so it is whether or
/// not the profile could be reordered. The mod is known so, and otherwise as it was given.
/// Files that are not enabled and not recorded as such are as they were, but for those of
/// the mod and the manifest.
pub proof fn law_ordered_mods_are_recorded(
    d: DiskView,
    m: ManagerView,
    b: BaseView,
    x: ModView,
    folder: Option<Seq<char>>,
    y: ModView,
)
    requires
        profile_base(m.game_path, folder) == Ok::<BaseView, ErrorView>(b),
        is_dir_at(d, b.path),
        installable(d, b, x.id),
        x.install_order is Some,
        records_files(d, b, loaded(d, b.path).1->Ok_0),
        loaded(d, b.path).1->Ok_0.mods.dom().finite(),
        mod_installed(d, m, x, folder).2 == Ok::<ModView, ErrorView>(y),
    ensures
        stands_installed(d, mod_installed(d, m, x, folder).0, b, x, y),
        mod_installed(d, m, x, folder).1.contains_key(x.id),
        mod_installed(d, m, x, folder).1[x.id] == y,
        y.name == x.name,
        y.is_map == x.is_map,
        y.install_order == x.install_order,
        x.file_tree is Some ==> y.file_tree == x.file_tree,
        forall|q: PathView|
            bystander(d, b, x.id, q) ==> #[trigger] same_at(
                d,
                mod_installed(d, m, x, folder).0,
                q,
            ),
{
    lemma_installed_in_order(d, m, b, x, folder, y);
}

/// Installing a mod at a place in the order puts the whole profile in order: what is left is
/// what reordering the profile leaves, once the files of the mod are enabled and the mod is
/// known.
pub proof fn law_installing_in_order_reorders_the_profile(
    d: DiskView,
    m: ManagerView,
    b: BaseView,
    x: ModView,
    folder: Option<Seq<char>>,
    y: ModView,
)
    requires
        profile_base(m.game_path, folder) == Ok::<BaseView, ErrorView>(b),
        is_dir_at(d, b.path),
        installable(d, b, x.id),
        x.install_order is Some,
        mod_installed(d, m, x, folder).2 == Ok::<ModView, ErrorView>(y),
    ensures
        ({
            let e = mod_installed(d, m, x, folder).0;
            let (d1, r) = files_installed(d, b, x, prefixed_names(d, b.path, x.id));
            let known = with_repo(m, m.repo.insert(r->Ok_0.id, r->Ok_0));
            let (d2, repo, done) = profile_reordered(d1, known, folder);
            &&& r is Ok
            &&& done is Err ==> e == d2
            &&& done is Ok ==> e == loaded(d2, b.path).0
        }),
{
    lemma_base_of_profile(m, folder, b);
}

/// Uninstalling undoes installing a mod at a place in the order: it succeeds, the files
/// of the mod are back under the names they had and with the contents they had, and no
/// longer enabled. Files that are not enabled and not recorded as such are as they were,
/// but for the manifest.
pub proof fn law_uninstalling_undoes_installing_in_order(
    d: DiskView,
    m: ManagerView,
    b: BaseView,
    x: ModView,
    folder: Option<Seq<char>>,
    y: ModView,
    later: ManagerView,
    vpks: Seq<Seq<char>>,
)
    requires
        profile_base(m.game_path, folder) == Ok::<BaseView, ErrorView>(b),
        is_dir_at(d, b.path),
        installable(d, b, x.id),
        x.install_order is Some,
        records_files(d, b, loaded(d, b.path).1->Ok_0),
        loaded(d, b.path).1->Ok_0.mods.dom().finite(),
        mod_installed(d, m, x, folder).2 == Ok::<ModView, ErrorView>(y),
        later.game_path == m.game_path,
    ensures
        ({
            let e = mod_installed(d, m, x, folder).0;
            let names = prefixed_names(d, b.path, x.id);
            let dir = shard_dir_of(b, loaded(e, b.path).1->Ok_0.mods[x.id].shard);
            let (f, repo, r) = mod_uninstalled(e, later, x.id, vpks, folder);
            &&& r == Ok::<(), ErrorView>(())
            &&& forall|i: int|
                0 <= i < names.len() ==> !exists_at(f, dir.push(#[trigger] y.installed[i]))
            &&& forall|i: int|
                0 <= i < names.len() ==> same_at(d, f, b.path.push(#[trigger] names[i]))
            &&& forall|q: PathView| bystander(d, b, x.id, q) ==> #[trigger] same_at(d, f, q)
        }),
{
    lemma_installed_in_order(d, m, b, x, folder, y);
    lemma_disabled_files(d, b, x.id);
    let p = b.path;
    let names = prefixed_names(d, p, x.id);
    let n = names.len() as int;
    let e = mod_installed(d, m, x, folder).0;
    let after = loaded(e, p).1->Ok_0;
    let entry = after.mods[x.id];
    let dir = shard_dir_of(b, entry.shard);
    assert(without_prefixes(x.id, names).len() == names.len());
    assert forall|i: int| 0 <= i < n implies plain_name(#[trigger] names[i]) by {
        assert(plain_name(p.push(names[i]).last()));
    }
    lemma_uninstalled(e, b, later, folder, x.id, vpks, after, names);
    let f = mod_uninstalled(e, later, x.id, vpks, folder).0;
    let to = places(dir, entry.current);
    let from = places(p, names);
    assert forall|i: int| 0 <= i < n implies !exists_at(f, dir.push(#[trigger] y.installed[i])) by {
        assert(to[i] == dir.push(y.installed[i]));
    }
    assert forall|i: int| 0 <= i < n implies same_at(d, f, p.push(#[trigger] names[i])) by {
        assert(from[i] == p.push(names[i]));
        assert(to[i] == dir.push(entry.current[i]));
        assert(is_file_at(d, p.push(names[i])));
    }
    assert forall|q: PathView| bystander(d, b, x.id, q) implies #[trigger] same_at(d, f, q) by {
        assert(same_at(d, e, q));
        assert(!to.contains(q)) by {
            if to.contains(q) {
                let i = choose|i: int| 0 <= i < to.len() && to[i] == q;
                assert(to[i] == dir.push(entry.current[i]));
                assert(pak_number(entry.current[i]) is Some);
            }
        }
        assert(same_at(e, f, q));
    }
}

} // verus!
