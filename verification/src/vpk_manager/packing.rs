//! How the mods are packed into the shards.
use super::GroupView;
use super::naming::{law_enabled_names_round_trip, pak_number};
use super::reorder::{
    all_claims, all_sizes, fill_first, filled, group_sizes, lemma_not_oversized,
    lemma_placed_len, more_shards, next_names, opened, orphans_to, oversized, place_first,
    reorder_sources, reordered, room_for, step_targets, total_size, Fill,
};
use super::staging::staging_plan;
use crate::disk::DiskView;
use crate::error::ErrorView;
use crate::path::PathView;
use crate::shard::{BaseView, MAX_SHARDS, REORDER_STAGING_DIR, SHARD_CAPACITY};
use vstd::prelude::*;

verus! {

/// A place for an enabled file: a shard and a number in it.
pub type Spot = (nat, nat);

/// The places that a group gets.
pub open spec fn group_spots(f: Fill, count: nat) -> Seq<Spot> {
    let o = opened(f, count);
    Seq::new(count, |i: int| (o.shard, (o.used + i + 1) as nat))
}

/// The places that the first `k` groups get, in order.
pub open spec fn spots(sizes: Seq<nat>, k: int) -> Seq<Spot>
    decreases k,
{
    if k <= 0 {
        Seq::empty()
    } else {
        spots(sizes, k - 1) + group_spots(fill_first(sizes, k - 1), sizes[k - 1])
    }
}

/// The files at `a` are loaded before those at `b`.
pub open spec fn loads_before(a: Spot, b: Spot) -> bool {
    a.0 < b.0 || (a.0 == b.0 && a.1 < b.1)
}

pub open spec fn sizes_fit(sizes: Seq<nat>) -> bool {
    forall|i: int| 0 <= i < sizes.len() ==> #[trigger] sizes[i] <= SHARD_CAPACITY
}

/// Groups that each fit a directory are packed in order: each file gets a place
/// after those before it, numbers stay within what the engine loads, and a group
/// is never split between shards.
pub proof fn law_groups_are_packed_in_order(sizes: Seq<nat>, k: int)
    requires
        0 <= k <= sizes.len(),
        sizes_fit(sizes),
    ensures
        spots(sizes, k).len() == total_size(sizes, k),
        fill_first(sizes, k).shard >= 1,
        fill_first(sizes, k).used <= SHARD_CAPACITY,
        forall|i: int|
            0 <= i < spots(sizes, k).len() ==> 1 <= (#[trigger] spots(sizes, k)[i]).0
                <= fill_first(sizes, k).shard && 1 <= spots(sizes, k)[i].1 <= SHARD_CAPACITY && (
            spots(sizes, k)[i].0 < fill_first(sizes, k).shard || spots(sizes, k)[i].1
                <= fill_first(sizes, k).used),
        forall|i: int, j: int|
            0 <= i < j < spots(sizes, k).len() ==> loads_before(
                #[trigger] spots(sizes, k)[i],
                #[trigger] spots(sizes, k)[j],
            ),
    decreases k,
{
    if k > 0 {
        law_groups_are_packed_in_order(sizes, k - 1);
        let f = fill_first(sizes, k - 1);
        let g = fill_first(sizes, k);
        let was = spots(sizes, k - 1);
        let own = group_spots(f, sizes[k - 1]);
        let now = spots(sizes, k);
        assert(sizes[k - 1] <= SHARD_CAPACITY);
        assert forall|i: int| 0 <= i < now.len() implies 1 <= (#[trigger] now[i]).0 <= g.shard && 1
            <= now[i].1 <= SHARD_CAPACITY && (now[i].0 < g.shard || now[i].1 <= g.used) by {
            if i < was.len() {
                assert(now[i] == was[i]);
            } else {
                assert(now[i] == own[i - was.len()]);
            }
        }
        assert forall|i: int, j: int| 0 <= i < j < now.len() implies loads_before(
            #[trigger] now[i],
            #[trigger] now[j],
        ) by {
            if j < was.len() {
                assert(now[i] == was[i]);
                assert(now[j] == was[j]);
            } else if i < was.len() {
                assert(now[i] == was[i]);
                assert(now[j] == own[j - was.len()]);
            } else {
                assert(now[i] == own[i - was.len()]);
                assert(now[j] == own[j - was.len()]);
            }
        }
    }
}

/// The places of a group among all places.
pub proof fn lemma_spots_of_group(sizes: Seq<nat>, k: int, i: int, j: int)
    requires
        0 <= i < k <= sizes.len(),
        0 <= j < sizes[i],
        sizes_fit(sizes),
    ensures
        0 <= total_size(sizes, i) + j < total_size(sizes, k),
        spots(sizes, k)[total_size(sizes, i) + j] == group_spots(fill_first(sizes, i), sizes[i])[j],
    decreases k,
{
    law_groups_are_packed_in_order(sizes, k - 1);
    if i < k - 1 {
        lemma_spots_of_group(sizes, k - 1, i, j);
    }
}

/// Filling never goes back to an earlier shard.
proof fn lemma_fill_grows(sizes: Seq<nat>, k: int, n: int)
    requires
        0 <= k <= n <= sizes.len(),
    ensures
        fill_first(sizes, k).shard <= fill_first(sizes, n).shard,
    decreases n - k,
{
    if k < n {
        lemma_fill_grows(sizes, k, n - 1);
    }
}

proof fn lemma_same_fill(s: Seq<nat>, t: Seq<nat>, k: int)
    requires
        0 <= k <= s.len(),
        k <= t.len(),
        forall|i: int| 0 <= i < k ==> #[trigger] s[i] == t[i],
    ensures
        fill_first(s, k) == fill_first(t, k),
    decreases k,
{
    if k > 0 {
        lemma_same_fill(s, t, k - 1);
        assert(s[k - 1] == t[k - 1]);
    }
}

/// Single files fill one shard after another.
proof fn lemma_fill_singles(sizes: Seq<nat>, g: int, j: nat)
    requires
        0 <= g,
        g + j <= sizes.len(),
        forall|i: int| g <= i < g + j ==> #[trigger] sizes[i] == 1,
        fill_first(sizes, g).used <= SHARD_CAPACITY,
    ensures
        fill_first(sizes, g + j).shard == fill_first(sizes, g).shard + more_shards(
            fill_first(sizes, g),
            j,
        ),
        fill_first(sizes, g + j).used <= SHARD_CAPACITY,
        fill_first(sizes, g + j).used + SHARD_CAPACITY * more_shards(fill_first(sizes, g), j)
            == fill_first(sizes, g).used + j,
    decreases j,
{
    if j > 0 {
        lemma_fill_singles(sizes, g, (j - 1) as nat);
        assert(sizes[g + j - 1] == 1);
        let was = fill_first(sizes, g + j - 1);
        assert(fill_first(sizes, g + j) == filled(was, 1));
    }
}

proof fn lemma_sizes_fit(groups: Seq<GroupView>, orphans: nat)
    requires
        oversized(groups, groups.len() as int) is None,
    ensures
        sizes_fit(all_sizes(groups, orphans)),
{
    let sizes = all_sizes(groups, orphans);
    assert forall|i: int| 0 <= i < sizes.len() implies #[trigger] sizes[i] <= SHARD_CAPACITY by {
        if i < groups.len() {
            lemma_not_oversized(groups, groups.len() as int, i);
        }
    }
}

/// Once it is checked that all files find room, placing them does not fail.
pub proof fn law_room_that_was_checked_suffices(
    b: BaseView,
    staged: Seq<PathView>,
    groups: Seq<GroupView>,
    orphans: nat,
)
    requires
        room_for(groups, orphans) is Ok,
    ensures
        sizes_fit(all_sizes(groups, orphans)),
        fill_first(all_sizes(groups, orphans), all_sizes(groups, orphans).len() as int).shard
            <= MAX_SHARDS,
        place_first(
            b,
            staged,
            all_sizes(groups, orphans),
            all_sizes(groups, orphans).len() as int,
        ) is Ok,
{
    let sizes = all_sizes(groups, orphans);
    let g = groups.len() as int;
    lemma_sizes_fit(groups, orphans);
    lemma_same_fill(sizes, group_sizes(groups), g);
    law_groups_are_packed_in_order(sizes, g);
    lemma_fill_singles(sizes, g, orphans);
    lemma_placing_goes_on(b, staged, sizes, sizes.len() as int);
}

proof fn lemma_placing_goes_on(b: BaseView, staged: Seq<PathView>, sizes: Seq<nat>, k: int)
    requires
        0 <= k <= sizes.len(),
        fill_first(sizes, sizes.len() as int).shard <= MAX_SHARDS,
    ensures
        place_first(b, staged, sizes, k) is Ok,
    decreases k,
{
    if k > 0 {
        lemma_placing_goes_on(b, staged, sizes, k - 1);
        lemma_placed_len(b, staged, sizes, k - 1);
        lemma_fill_grows(sizes, k, sizes.len() as int);
    }
}

/// Where each group went is where its places are.
pub proof fn lemma_placed_spots(b: BaseView, staged: Seq<PathView>, sizes: Seq<nat>, k: int, i: int)
    requires
        0 <= i < k <= sizes.len(),
        place_first(b, staged, sizes, k) is Ok,
    ensures
        ({
            let p = place_first(b, staged, sizes, k)->Ok_0;
            let o = opened(fill_first(sizes, i), sizes[i]);
            p.placed[i] == (o.shard, next_names(o.used, sizes[i])) && o.shard <= MAX_SHARDS
        }),
    decreases k,
{
    lemma_placed_len(b, staged, sizes, k - 1);
    if i < k - 1 {
        lemma_placed_spots(b, staged, sizes, k - 1, i);
    }
}

/// An earlier group is placed before a later one, in the order of the shards and of the
/// numbers that the engine loads.
pub proof fn lemma_placed_in_order(
    d: DiskView,
    b: BaseView,
    groups: Seq<GroupView>,
    e: DiskView,
    placements: Seq<GroupView>,
)
    requires
        reordered(d, b, groups) == Ok::<(DiskView, Seq<GroupView>), ErrorView>((e, placements)),
    ensures
        placements.len() == groups.len(),
        forall|i: int|
            0 <= i < groups.len() ==> (#[trigger] placements[i]).mod_id == groups[i].mod_id
                && placements[i].vpks.len() == groups[i].vpks.len(),
        forall|i: int, u: int|
            0 <= i < groups.len() && 0 <= u < placements[i].vpks.len() ==> pak_number(
                #[trigger] placements[i].vpks[u],
            ) is Some && 1 <= pak_number(placements[i].vpks[u])->0 <= SHARD_CAPACITY,
        forall|i: int, u: int, j: int, v: int|
            0 <= i <= j < groups.len() && 0 <= u < placements[i].vpks.len() && 0 <= v
                < placements[j].vpks.len() && (i < j || u < v) ==> loads_before(
                (placements[i].shard, pak_number(#[trigger] placements[i].vpks[u])->0),
                (placements[j].shard, pak_number(#[trigger] placements[j].vpks[v])->0),
            ),
{
    let claims = all_claims(groups);
    let stage = b.path.push(REORDER_STAGING_DIR@);
    let orphans = orphans_to(d, b, claims, MAX_SHARDS as nat)->Ok_0;
    let sources = reorder_sources(b, claims, orphans);
    let aside = staging_plan(b, stage, sources, sources.len() as int)->Ok_0;
    let sizes = all_sizes(groups, orphans.len());
    let n = sizes.len() as int;
    let to = step_targets(aside);
    law_room_that_was_checked_suffices(b, to, groups, orphans.len());
    law_groups_are_packed_in_order(sizes, n);
    lemma_placed_len(b, to, sizes, n);
    let all = spots(sizes, n);
    assert forall|i: int| 0 <= i < groups.len() implies (#[trigger] placements[i]).vpks.len()
        == groups[i].vpks.len() by {
        lemma_placed_spots(b, to, sizes, n, i);
        assert(sizes[i] == groups[i].vpks.len());
    }
    assert forall|i: int, u: int|
        0 <= i < groups.len() && 0 <= u < placements[i].vpks.len() implies pak_number(
        #[trigger] placements[i].vpks[u],
    ) == Some(all[total_size(sizes, i) + u].1) && placements[i].shard == all[total_size(sizes, i)
        + u].0 && 0 <= total_size(sizes, i) + u < all.len() by {
        lemma_placed_spots(b, to, sizes, n, i);
        assert(sizes[i] == groups[i].vpks.len());
        lemma_spots_of_group(sizes, n, i, u);
        let o = opened(fill_first(sizes, i), sizes[i]);
        assert(1 <= all[total_size(sizes, i) + u].1 <= SHARD_CAPACITY);
        law_enabled_names_round_trip((o.used + u + 1) as nat);
    }
    assert forall|i: int, u: int, j: int, v: int|
        0 <= i <= j < groups.len() && 0 <= u < placements[i].vpks.len() && 0 <= v
            < placements[j].vpks.len() && (i < j || u < v) implies loads_before(
        (placements[i].shard, pak_number(#[trigger] placements[i].vpks[u])->0),
        (placements[j].shard, pak_number(#[trigger] placements[j].vpks[v])->0),
    ) by {
        let a = total_size(sizes, i) + u;
        let c = total_size(sizes, j) + v;
        if i < j {
            assert(sizes[i] == groups[i].vpks.len());
            lemma_spots_of_group(sizes, j, i, u);
        }
        assert(loads_before(all[a], all[c]));
    }
}

} // verus!
