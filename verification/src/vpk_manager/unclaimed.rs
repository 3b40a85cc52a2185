//! What reordering files that no mod claims leaves alone.
use super::GroupView;
use super::naming::{enabled_in, enabled_names, pak_name, pak_number};
use super::reorder::{
    all_claims, all_sizes, is_claimed, lemma_all_sizes_total, lemma_placed_len, number_keys,
    opened, orphan_names, orphans_to, place_first, place_steps, reorder_plan, reorder_sources,
    reordered, shard_orphans, step_targets, total_size, ClaimView,
};
use super::setting_aside::lemma_pruned_files;
use super::staging::{claimed, run_first, run_plan, staging_plan, StepView};
use crate::disk::{lemma_filter_members, names_in, same_at, DiskView};
use crate::error::ErrorView;
use crate::order::{law_every_list_can_be_sorted, sorted_places};
use crate::path::PathView;
use crate::shard::{base_ok, shard_dir_of, BaseView, MAX_SHARDS, REORDER_STAGING_DIR};
use crate::text::starts_with;
use vstd::prelude::*;

verus! {

/// A step does not touch what stands at `q`.
spec fn avoids(s: StepView, q: PathView) -> bool {
    match s {
        StepView::MakeDirs(_) => true,
        StepView::Rename(a, b) => !a.is_prefix_of(q) && !b.is_prefix_of(q),
        StepView::Copy(a, b) => b != q,
    }
}

proof fn lemma_avoided(d: DiskView, steps: Seq<StepView>, q: PathView, k: int)
    requires
        d.contains_key(q),
        0 <= k <= steps.len(),
        forall|i: int| 0 <= i < steps.len() ==> avoids(#[trigger] steps[i], q),
        run_first(d, steps, k) is Ok,
    ensures
        same_at(d, run_first(d, steps, k)->Ok_0, q),
    decreases k,
{
    if k > 0 {
        lemma_avoided(d, steps, q, k - 1);
        let s = steps[k - 1];
        assert(avoids(s, q));
        if let StepView::Rename(a, b) = s {
            assert(q != a && q != b) by {
                assert(q =~= q.take(q.len() as int));
            }
        }
    }
}

/// Where the enabled files stand that no mod claims.
pub proof fn lemma_unclaimed(d: DiskView, b: BaseView, claims: Seq<ClaimView>, n: nat)
    requires
        base_ok(b),
        orphans_to(d, b, claims, n) is Ok,
    ensures
        forall|i: int|
            0 <= i < orphans_to(d, b, claims, n)->Ok_0.len() ==> (#[trigger] orphans_to(
                d,
                b,
                claims,
                n,
            )->Ok_0[i]).len() == b.path.len() + 1 && pak_number(
                orphans_to(d, b, claims, n)->Ok_0[i].last(),
            ) is Some,
    decreases n,
{
    if n > 0 {
        lemma_unclaimed(d, b, claims, (n - 1) as nat);
        let dir = shard_dir_of(b, n);
        let names = orphan_names(d, b, claims, n);
        let order = sorted_places(number_keys(names));
        law_every_list_can_be_sorted(number_keys(names));
        lemma_filter_members(
            enabled_names(d, dir),
            |name: Seq<char>| !is_claimed(claims, n, name),
        );
        lemma_filter_members(names_in(d, dir), |x: Seq<char>| enabled_in(d, dir, x));
        let more = shard_orphans(d, b, claims, n);
        assert forall|i: int| 0 <= i < more.len() implies (#[trigger] more[i]).len()
            == b.path.len() + 1 && pak_number(more[i].last()) is Some by {
            assert(order.contains(order[i]));
            assert(names.contains(names[order[i]]));
            assert(more[i] == dir.push(names[order[i]]));
            assert(more[i].last() == names[order[i]]);
        }
    }
}

proof fn lemma_begins_as_enabled(n: nat)
    ensures
        starts_with(pak_name(n), "pak"@),
{
    reveal_strlit("pak");
    reveal_strlit("pak0");
    assert(pak_name(n).take(3) =~= "pak"@);
}

proof fn lemma_set_aside(b: BaseView, stage: PathView, sources: Seq<PathView>, k: int)
    requires
        0 <= k <= sources.len(),
        staging_plan(b, stage, sources, k) is Ok,
    ensures
        ({
            let steps = staging_plan(b, stage, sources, k)->Ok_0;
            &&& steps.len() == k
            &&& forall|i: int|
                0 <= i < k ==> (#[trigger] steps[i]) is Rename && steps[i]->Rename_0 == sources[i]
                    && steps[i]->Rename_1.len() == stage.len() + 1
        }),
    decreases k,
{
    if k > 0 {
        lemma_set_aside(b, stage, sources, k - 1);
    }
}

proof fn lemma_placing(
    b: BaseView,
    staged: Seq<PathView>,
    sizes: Seq<nat>,
    k: int,
    q: PathView,
)
    requires
        base_ok(b),
        0 <= k <= sizes.len(),
        total_size(sizes, k) <= staged.len(),
        forall|i: int|
            0 <= i < staged.len() ==> (#[trigger] staged[i]).len() == b.path.len() + 2,
        q.len() == b.path.len() + 1,
        !starts_with(q.last(), "pak"@),
        place_first(b, staged, sizes, k) is Ok,
    ensures
        forall|i: int|
            0 <= i < place_first(b, staged, sizes, k)->Ok_0.steps.len() ==> avoids(
                #[trigger] place_first(b, staged, sizes, k)->Ok_0.steps[i],
                q,
            ),
    decreases k,
{
    if k > 0 {
        lemma_placing(b, staged, sizes, k - 1, q);
        lemma_placed_len(b, staged, sizes, k - 1);
        let p = place_first(b, staged, sizes, k - 1)->Ok_0;
        let o = opened(p.fill, sizes[k - 1]);
        let dir = shard_dir_of(b, o.shard);
        let steps = place_steps(dir, staged, p.at, o.used, sizes[k - 1]);
        assert forall|i: int| 0 <= i < steps.len() implies avoids(#[trigger] steps[i], q) by {
            if i > 0 {
                let n = (o.used + (i - 1) + 1) as nat;
                let y = dir.push(pak_name(n));
                assert(steps[i] == StepView::Rename(staged[p.at + (i - 1)], y));
                assert(y.last() == pak_name(n));
                if y.is_prefix_of(q) {
                    assert(y =~= q);
                    lemma_begins_as_enabled(n);
                }
            }
        }
        let all = place_first(b, staged, sizes, k)->Ok_0.steps;
        assert(all == p.steps + steps);
        assert forall|i: int| 0 <= i < all.len() implies avoids(#[trigger] all[i], q) by {
            if i < p.steps.len() {
                assert(all[i] == p.steps[i]);
            } else {
                assert(all[i] == steps[i - p.steps.len()]);
            }
        }
    }
}

/// Where no mod claims a file, a reordering moves the enabled files of the profile and
/// leaves whatever else is not named like one alone.
pub proof fn law_unclaimed_files_move_alone(
    d: DiskView,
    b: BaseView,
    e: DiskView,
    placements: Seq<GroupView>,
)
    requires
        base_ok(b),
        reordered(d, b, Seq::empty()) == Ok::<(DiskView, Seq<GroupView>), ErrorView>(
            (e, placements),
        ),
    ensures
        forall|q: PathView|
            d.contains_key(q) && q.len() == b.path.len() + 1 && !starts_with(q.last(), "pak"@)
                ==> #[trigger] same_at(d, e, q),
{
    let none = Seq::<GroupView>::empty();
    let claims = all_claims(none);
    let stage = b.path.push(REORDER_STAGING_DIR@);
    let orphans = orphans_to(d, b, claims, MAX_SHARDS as nat)->Ok_0;
    lemma_unclaimed(d, b, claims, MAX_SHARDS as nat);
    let sources = reorder_sources(b, claims, orphans);
    assert(sources =~= orphans);
    let n = sources.len() as int;
    let aside = staging_plan(b, stage, sources, n)->Ok_0;
    lemma_set_aside(b, stage, sources, n);
    let staged = step_targets(aside);
    let sizes = all_sizes(none, orphans.len());
    lemma_all_sizes_total(none, orphans.len(), sizes.len() as int);
    let p = place_first(b, staged, sizes, sizes.len() as int)->Ok_0;
    let steps = reorder_plan(b, stage, none, orphans)->Ok_0.0;
    let d1 = claimed(d, stage)->Ok_0;
    let d2 = run_plan(d1, steps)->Ok_0;
    lemma_pruned_files(d2, b, MAX_SHARDS as nat);
    assert forall|q: PathView|
        d.contains_key(q) && q.len() == b.path.len() + 1 && !starts_with(
            q.last(),
            "pak"@,
        ) implies #[trigger] same_at(d, e, q) by {
        lemma_placing(b, staged, sizes, sizes.len() as int, q);
        assert forall|i: int| 0 <= i < steps.len() implies avoids(#[trigger] steps[i], q) by {
            if i < aside.len() {
                assert(steps[i] == aside[i]);
                if sources[i].is_prefix_of(q) {
                    assert(sources[i] =~= q);
                    assert(pak_number(q.last()) is Some);
                }
            } else {
                assert(steps[i] == p.steps[i - aside.len()]);
            }
        }
        assert(same_at(d, d1, q));
        lemma_avoided(d1, steps, q, steps.len() as int);
        assert forall|m: nat| crate::shard::valid_shard(m) implies #[trigger] shard_dir_of(b, m)
            != q by {
            assert(shard_dir_of(b, m).len() == b.path.len());
        }
        assert(same_at(d2, e, q));
    }
}

} // verus!
