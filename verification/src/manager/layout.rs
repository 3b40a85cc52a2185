//! The order in which mods load, and what the manifest says of the disk.
use super::RepoView;
use super::reorder::{
    active_ids, entry_group, first_number, mod_key, ordered_groups, placed_entry,
    placements_recorded, reorder_committed,
};
use crate::disk::{
    exists_at, lemma_filter_distinct, lemma_filter_members, rooted, same_at, DiskView,
};
use crate::error::ErrorView;
use crate::manifest_store::{lemma_saved, manifest_path, manifest_temp_path, saved};
use crate::order::{law_every_list_can_be_sorted, place_before, sorted_places};
use crate::path::PathView;
use crate::shard::{base_of, lemma_base_ok, shard_dir_of, valid_shard, REORDER_STAGING_DIR};
use crate::table::{keys_of, lemma_finite_has_order};
use crate::vpk_manager::GroupView;
use crate::vpk_manager::naming::pak_name;
use crate::vpk_manager::reorder::{all_claims, claim_path, group_claims, reorder_staged, reordered};
use crate::vpk_manager::reordering::{claims_stand, law_reordering_moves_each_file};
use crate::vpk_manager::setting_aside::{lemma_shard_dir, plain_tree};
use crate::vpk_manifest::{
    is_active, EntryView, ManifestView, MANIFEST_FILENAME, MANIFEST_TEMP_FILENAME,
};
use vstd::prelude::*;

verus! {

/// The mod with entry `a` loads before the one with entry `b`, or nothing decides
/// between them: mods with an order come first and by their order, the others stay
/// in the places they have.
pub open spec fn may_load_before(a: EntryView, b: EntryView) -> bool {
    match (a.order, b.order) {
        (Some(x), Some(y)) => x <= y,
        (Some(_), None) => true,
        (None, Some(_)) => false,
        (None, None) => a.shard < b.shard || (a.shard == b.shard && first_number(
            a.current,
            a.current.len() as int,
        ) <= first_number(b.current, b.current.len() as int)),
    }
}

/// Every active mod is loaded, once. Mods with an install order come first, in
/// that order; the others follow in the places they already have.
pub proof fn law_mods_load_in_their_order(m: ManifestView)
    requires
        m.mods.dom().finite(),
        forall|id: Seq<char>| #[trigger] m.mods.contains_key(id) ==> valid_shard(m.mods[id].shard),
    ensures
        forall|i: int|
            0 <= i < ordered_groups(m).len() ==> {
                let id = (#[trigger] ordered_groups(m)[i]).mod_id;
                &&& m.mods.contains_key(id)
                &&& is_active(m.mods[id])
                &&& ordered_groups(m)[i] == entry_group(id, m.mods[id])
            },
        forall|i: int, j: int|
            0 <= i < j < ordered_groups(m).len() ==> (#[trigger] ordered_groups(m)[i]).mod_id != (
            #[trigger] ordered_groups(m)[j]).mod_id && may_load_before(
                m.mods[ordered_groups(m)[i].mod_id],
                m.mods[ordered_groups(m)[j].mod_id],
            ),
        forall|id: Seq<char>|
            #[trigger] m.mods.contains_key(id) && is_active(m.mods[id]) ==> ordered_groups(
                m,
            ).contains(entry_group(id, m.mods[id])),
{
    let keys = keys_of::<String, EntryView>(m.mods);
    let pred = |id: Seq<char>| is_active(m.mods[id]);
    let ids = active_ids(m);
    lemma_finite_has_order::<String, EntryView>(m.mods);
    lemma_filter_members(keys, pred);
    lemma_filter_distinct(keys, pred);
    let ranks = ids.map_values(|id: Seq<char>| mod_key(m.mods[id]));
    let groups = ordered_groups(m);
    let places = sorted_places(ranks);
    law_every_list_can_be_sorted(ranks);
    assert forall|i: int| 0 <= i < groups.len() implies 0 <= #[trigger] places[i] < ids.len()
        && groups[i] == entry_group(ids[places[i]], m.mods[ids[places[i]]]) && m.mods.contains_key(
        ids[places[i]],
    ) && is_active(m.mods[ids[places[i]]]) by {
        assert(places.contains(places[i]));
        assert(ids.contains(ids[places[i]]));
        assert(keys.contains(ids[places[i]]));
    }
    assert forall|i: int| 0 <= i < groups.len() implies {
        let id = (#[trigger] groups[i]).mod_id;
        &&& m.mods.contains_key(id)
        &&& is_active(m.mods[id])
        &&& groups[i] == entry_group(id, m.mods[id])
    } by {
        assert(places[i] == places[i]);
    }
    assert forall|i: int, j: int| 0 <= i < j < groups.len() implies (#[trigger] groups[i]).mod_id
        != (#[trigger] groups[j]).mod_id && may_load_before(
        m.mods[groups[i].mod_id],
        m.mods[groups[j].mod_id],
    ) by {
        let a = places[i];
        let b = places[j];
        assert(place_before(ranks, a, b));
        assert(a != b);
        assert(ids[a] != ids[b]);
        assert(ranks[a] == mod_key(m.mods[ids[a]]));
        assert(ranks[b] == mod_key(m.mods[ids[b]]));
        lemma_first_number(m.mods[ids[a]].current, m.mods[ids[a]].current.len() as int);
        lemma_first_number(m.mods[ids[b]].current, m.mods[ids[b]].current.len() as int);
    }
    assert forall|id: Seq<char>| #[trigger] m.mods.contains_key(id) && is_active(m.mods[id]) implies
        groups.contains(entry_group(id, m.mods[id])) by {
        assert(keys.contains(id));
        assert(ids.contains(id));
        let a = choose|a: int| 0 <= a < ids.len() && ids[a] == id;
        assert(places.contains(a));
        let i = choose|i: int| 0 <= i < places.len() && places[i] == a;
        assert(groups[i] == entry_group(id, m.mods[id]));
    }
}

proof fn lemma_first_number(vpks: Seq<Seq<char>>, k: int)
    ensures
        first_number(vpks, k) <= u32::MAX,
    decreases k,
{
    if k > 0 {
        lemma_first_number(vpks, k - 1);
    }
}

pub proof fn lemma_recorded(m: ManifestView, groups: Seq<GroupView>, k: int, i: int)
    requires
        0 <= i < k <= groups.len(),
        forall|i: int, j: int|
            0 <= i < j < groups.len() ==> (#[trigger] groups[i]).mod_id != (
            #[trigger] groups[j]).mod_id,
        m.mods.contains_key(groups[i].mod_id),
    ensures
        placements_recorded(m, groups, k).mods.contains_key(groups[i].mod_id),
        placements_recorded(m, groups, k).mods[groups[i].mod_id] == placed_entry(
            m.mods[groups[i].mod_id],
            groups[i],
        ),
    decreases k,
{
    if i < k - 1 {
        lemma_recorded(m, groups, k - 1, i);
        assert(groups[i].mod_id != groups[k - 1].mod_id);
    } else {
        lemma_not_recorded(m, groups, k - 1, i);
    }
}

proof fn lemma_not_recorded(m: ManifestView, groups: Seq<GroupView>, k: int, i: int)
    requires
        0 <= k <= i < groups.len(),
        forall|i: int, j: int|
            0 <= i < j < groups.len() ==> (#[trigger] groups[i]).mod_id != (
            #[trigger] groups[j]).mod_id,
        m.mods.contains_key(groups[i].mod_id),
    ensures
        placements_recorded(m, groups, k).mods.contains_key(groups[i].mod_id),
        placements_recorded(m, groups, k).mods[groups[i].mod_id] == m.mods[groups[i].mod_id],
    decreases k,
{
    if k > 0 {
        lemma_not_recorded(m, groups, k - 1, i);
        assert(groups[k - 1].mod_id != groups[i].mod_id);
    }
}

/// After a reordering, the manifest on the disk says where each mod's files are,
/// and they are there, with the contents they had.
pub proof fn law_the_manifest_describes_the_disk(
    d: DiskView,
    p: PathView,
    repo: RepoView,
    m: ManifestView,
    groups: Seq<GroupView>,
    e: DiskView,
    placements: Seq<GroupView>,
)
    requires
        rooted(d),
        d.dom().finite(),
        plain_tree(d),
        base_of(p, true) is Some,
        !exists_at(d, p.push(REORDER_STAGING_DIR@)),
        claims_stand(d, base_of(p, true)->0, all_claims(groups)),
        forall|i: int, j: int|
            0 <= i < j < groups.len() ==> (#[trigger] groups[i]).mod_id != (
            #[trigger] groups[j]).mod_id,
        forall|i: int|
            0 <= i < groups.len() ==> m.mods.contains_key((#[trigger] groups[i]).mod_id),
        reorder_committed(d, p, repo, m, groups).0 == e,
        reorder_committed(d, p, repo, m, groups).2 == Ok::<Seq<GroupView>, ErrorView>(placements),
    ensures
        exists_at(e, manifest_path(p)),
        e[manifest_path(p)] == crate::disk::fresh_manifest(
            placements_recorded(m, placements, placements.len() as int),
        ),
        forall|i: int|
            0 <= i < groups.len() ==> placements_recorded(
                m,
                placements,
                placements.len() as int,
            ).mods[(#[trigger] groups[i]).mod_id] == placed_entry(
                m.mods[groups[i].mod_id],
                placements[i],
            ),
        forall|i: int, j: int|
            0 <= i < groups.len() && 0 <= j < groups[i].vpks.len() ==> ({
                let place = shard_dir_of(base_of(p, true)->0, placements[i].shard).push(
                    #[trigger] placements[i].vpks[j],
                );
                &&& e.contains_key(place)
                &&& e[place] == d[claim_path(
                    base_of(p, true)->0,
                    group_claims(groups[i])[j],
                )]
            }),
{
    let b = base_of(p, true)->0;
    let stage = p.push(REORDER_STAGING_DIR@);
    lemma_base_ok(p, true);
    let work = reorder_staged(d, p, groups).1->Ok_0.0;
    assert(reordered(d, b, groups) == Ok::<(DiskView, Seq<GroupView>), ErrorView>(
        (work, placements),
    ));
    law_reordering_moves_each_file(d, b, groups, work, placements);
    let m1 = placements_recorded(m, placements, placements.len() as int);
    lemma_saved(work, p, m1);
    let d2 = saved(work, p, m1).0;
    lemma_own_names(p);
    assert forall|q: PathView| q.len() == p.len() + 1 && d2.contains_key(q) && q != stage implies
        #[trigger] same_at(d2, e, q) by {
        if stage.is_prefix_of(q) {
            assert(stage =~= q);
        }
    }
    assert(same_at(d2, e, manifest_path(p)));
    assert forall|i: int| 0 <= i < groups.len() implies m1.mods[(#[trigger] groups[i]).mod_id]
        == placed_entry(m.mods[groups[i].mod_id], placements[i]) by {
        assert(placements[i].mod_id == groups[i].mod_id);
        assert forall|u: int, v: int| 0 <= u < v < placements.len() implies (
        #[trigger] placements[u]).mod_id != (#[trigger] placements[v]).mod_id by {
            assert(placements[u].mod_id == groups[u].mod_id);
            assert(placements[v].mod_id == groups[v].mod_id);
        }
        lemma_recorded(m, placements, placements.len() as int, i);
    }
    assert forall|i: int, j: int| 0 <= i < groups.len() && 0 <= j < groups[i].vpks.len() implies ({
        let place = shard_dir_of(b, placements[i].shard).push(#[trigger] placements[i].vpks[j]);
        &&& e.contains_key(place)
        &&& e[place] == d[claim_path(b, group_claims(groups[i])[j])]
    }) by {
        let place = shard_dir_of(b, placements[i].shard).push(placements[i].vpks[j]);
        assert(placements[i].mod_id == groups[i].mod_id);
        lemma_shard_dir(b, placements[i].shard);
        let n = crate::vpk_manager::reordering::lemma_placement_name(
            d,
            b,
            groups,
            work,
            placements,
            i,
            j,
        );
        lemma_pak_is_own(n);
        assert(place.last() == pak_name(n));
        assert(place != manifest_path(p) && place != manifest_temp_path(p) && place != stage) by {
            assert(manifest_path(p).last() == MANIFEST_FILENAME@);
            assert(manifest_temp_path(p).last() == MANIFEST_TEMP_FILENAME@);
            assert(stage.last() == REORDER_STAGING_DIR@);
        }
        assert(d2.contains_key(place) && d2[place] == work[place]);
        assert(same_at(d2, e, place));
    }
}

/// The manifest is not the staging directory.
proof fn lemma_own_names(p: PathView)
    ensures
        manifest_path(p) != p.push(REORDER_STAGING_DIR@),
{
    reveal_strlit(".dmm.json");
    reveal_strlit(".dmm-reorder");
    assert(MANIFEST_FILENAME@.len() == 9);
    assert(REORDER_STAGING_DIR@.len() == 12);
    assert(manifest_path(p).last() == MANIFEST_FILENAME@);
    assert(p.push(REORDER_STAGING_DIR@).last() == REORDER_STAGING_DIR@);
}

/// An enabled file is named like nothing of the manager's own.
pub proof fn lemma_pak_is_own(n: nat)
    ensures
        pak_name(n) != MANIFEST_FILENAME@,
        pak_name(n) != MANIFEST_TEMP_FILENAME@,
        pak_name(n) != REORDER_STAGING_DIR@,
{
    reveal_strlit(".dmm.json");
    reveal_strlit(".dmm.json.tmp");
    reveal_strlit(".dmm-reorder");
    reveal_strlit("pak");
    reveal_strlit("pak0");
    assert(MANIFEST_FILENAME@[0] == '.');
    assert(MANIFEST_TEMP_FILENAME@[0] == '.');
    assert(REORDER_STAGING_DIR@[0] == '.');
    assert(pak_name(n)[0] == 'p');
}

} // verus!
