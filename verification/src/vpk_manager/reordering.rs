//! A reordering moves every enabled file whole, and loses none.
use super::GroupView;
use super::moves::{lemma_no_longer, lemma_shifted, shifted};
use super::naming::{
    enabled_in, enabled_names, law_enabled_names_round_trip, lemma_pak_plain, pak_name,
    pak_number,
};
use super::packing::{
    law_groups_are_packed_in_order, law_room_that_was_checked_suffices, lemma_placed_spots,
    lemma_spots_of_group, loads_before, sizes_fit, spots, Spot,
};
use super::reorder::{
    all_claims, all_sizes, claim_path, claims_of, duplicate_texts, fill_first, group_claims,
    group_sizes, is_claimed, law_unreported_claims_are_single, lemma_all_sizes_total,
    lemma_claims_len, lemma_placed_len, number_keys, opened, orphan_names, orphans_to,
    place_first, place_steps, pruned_shards, reorder_plan, reorder_sources, reordered,
    shard_orphans, step_targets, total_size, ClaimView,
};
use super::setting_aside::{
    aside_ready, asides, lemma_aside_runs, lemma_asides, lemma_claimed, lemma_locator,
    lemma_pruned_files, lemma_pruned_keeps, lemma_run_both, lemma_run_keeps, lemma_shard_dir,
    locator_of, plain_tree, shard_file,
};
use super::staging::{claimed, run_first, run_plan, staging_plan, StepView};
use crate::disk::{
    can_rename, folder, is_below, is_dir_at, is_file_at, lemma_filter_distinct,
    lemma_filter_members, lemma_names_in, lemma_rooted_at, lemma_with_dirs, names_in, rename_op,
    renamed, rooted, same_at, with_dirs, DiskView, NodeView, OpView,
};
use crate::error::ErrorView;
use crate::manager::gameinfo::{migration_needed, shard_overfull};
use crate::order::{law_every_list_can_be_sorted, place_before, sorted_places};
use crate::path::{lemma_join_plain, plain_name, PathView, TreePath};
use crate::shard::{
    base_ok, law_shard_dirs_differ, law_shard_of_dir_inverts_shard_dir, shard_dir_of,
    valid_shard, BaseView, MAX_SHARDS, REORDER_STAGING_DIR, SHARD_CAPACITY,
};
use crate::table::lemma_finite_has_order;
use vstd::prelude::*;

verus! {

/// The path of a place.
pub open spec fn spot_path(b: BaseView, s: Spot) -> PathView {
    shard_dir_of(b, s.0).push(pak_name(s.1))
}

pub open spec fn spot_paths(b: BaseView, list: Seq<Spot>) -> Seq<PathView> {
    list.map_values(|s: Spot| spot_path(b, s))
}

proof fn lemma_spots_differ(b: BaseView, s: Spot, t: Spot)
    requires
        base_ok(b),
        valid_shard(s.0),
        valid_shard(t.0),
        s.1 <= SHARD_CAPACITY,
        t.1 <= SHARD_CAPACITY,
        spot_path(b, s) == spot_path(b, t),
    ensures
        s == t,
{
    let x = spot_path(b, s);
    let y = spot_path(b, t);
    assert(x.drop_last() =~= shard_dir_of(b, s.0));
    assert(y.drop_last() =~= shard_dir_of(b, t.0));
    law_shard_dirs_differ(b, s.0, t.0);
    assert(x.last() == pak_name(s.1));
    assert(y.last() == pak_name(t.1));
    law_enabled_names_round_trip(s.1);
    law_enabled_names_round_trip(t.1);
}

// ---------------------------------------------------------------------------
// Giving the files their places
// ---------------------------------------------------------------------------

/// What has become of a tree once the first `c` of `staged` stand at their places. What
/// was added besides are directories of at most `depth` components.
spec fn placed_so_far(
    d: DiskView,
    e: DiskView,
    staged: Seq<PathView>,
    places: Seq<PathView>,
    c: int,
    depth: nat,
) -> bool {
    &&& forall|i: int|
        0 <= i < c ==> e.contains_key(#[trigger] places[i]) && e[places[i]] == d[staged[i]]
    &&& forall|i: int| 0 <= i < c ==> !e.contains_key(#[trigger] staged[i])
    &&& forall|q: PathView|
        d.contains_key(q) && (forall|i: int| 0 <= i < c ==> #[trigger] staged[i] != q) && (forall|
            i: int,
        |
            0 <= i < c ==> #[trigger] places[i] != q) ==> #[trigger] same_at(d, e, q)
    &&& forall|q: PathView|
        !d.contains_key(q) && (forall|i: int| 0 <= i < c ==> #[trigger] places[i] != q)
            ==> #[trigger] e.contains_key(q) ==> e[q] == folder() && q.len() <= depth
}

/// The files to place are there, and each has a place of its own at which no file
/// stands.
spec fn placeable(
    d: DiskView,
    b: BaseView,
    staged: Seq<PathView>,
    places: Seq<PathView>,
) -> bool {
    &&& base_ok(b)
    &&& staged.len() == places.len()
    &&& forall|i: int| 0 <= i < staged.len() ==> is_file_at(d, #[trigger] staged[i])
    &&& forall|i: int| 0 <= i < places.len() ==> !is_file_at(d, #[trigger] places[i])
    &&& forall|i: int, j: int|
        0 <= i < j < staged.len() ==> #[trigger] staged[i] != #[trigger] staged[j]
    &&& forall|i: int, j: int|
        0 <= i < j < places.len() ==> #[trigger] places[i] != #[trigger] places[j]
    &&& forall|i: int| 0 <= i < places.len() ==> (#[trigger] places[i]).len() == b.path.len() + 1
    &&& forall|i: int| 0 <= i < staged.len() ==> (#[trigger] staged[i]).len() == b.path.len() + 2
}

proof fn lemma_make_dirs(
    d: DiskView,
    e: DiskView,
    b: BaseView,
    staged: Seq<PathView>,
    places: Seq<PathView>,
    c: int,
    dir: PathView,
)
    requires
        placeable(d, b, staged, places),
        placed_so_far(d, e, staged, places, c, b.path.len()),
        0 <= c <= staged.len(),
        dir.len() == b.path.len(),
    ensures
        placed_so_far(d, with_dirs(e, dir), staged, places, c, b.path.len()),
{
    let f = with_dirs(e, dir);
    assert forall|i: int| 0 <= i < c implies !f.contains_key(#[trigger] staged[i]) by {
        assert(staged[i].len() > dir.len());
    }
    assert forall|q: PathView|
        d.contains_key(q) && (forall|i: int| 0 <= i < c ==> #[trigger] staged[i] != q) && (forall|
            i: int,
        |
            0 <= i < c ==> #[trigger] places[i] != q) implies #[trigger] same_at(d, f, q) by {
        assert(same_at(d, e, q));
    }
}

proof fn lemma_place_one(
    d: DiskView,
    e: DiskView,
    b: BaseView,
    staged: Seq<PathView>,
    places: Seq<PathView>,
    c: int,
)
    requires
        placeable(d, b, staged, places),
        placed_so_far(d, e, staged, places, c, b.path.len()),
        0 <= c < staged.len(),
        can_rename(e, staged[c], places[c]),
    ensures
        placed_so_far(d, renamed(e, staged[c], places[c]), staged, places, c + 1, b.path.len()),
{
    let x = staged[c];
    let y = places[c];
    let f = renamed(e, x, y);
    assert(is_file_at(d, x));
    assert forall|i: int| 0 <= i < staged.len() implies #[trigger] places[i] != x by {
        assert(places[i].len() != x.len());
    }
    assert(same_at(d, e, x));
    assert(rename_op(e, x, y) == OpView::Move(x, y));
    assert(f == e.remove(x).insert(y, e[x]));
    assert forall|i: int| 0 <= i < c + 1 implies f.contains_key(#[trigger] places[i])
        && f[places[i]] == d[staged[i]] by {
        if i < c {
            assert(places[i] != places[c]);
            assert(places[i] != x);
        }
    }
    assert forall|i: int| 0 <= i < c + 1 implies !f.contains_key(#[trigger] staged[i]) by {
        assert(staged[i].len() != y.len());
    }
    assert forall|q: PathView|
        d.contains_key(q) && (forall|i: int| 0 <= i < c + 1 ==> #[trigger] staged[i] != q) && (
        forall|i: int| 0 <= i < c + 1 ==> #[trigger] places[i] != q) implies #[trigger] same_at(
        d,
        f,
        q,
    ) by {
        assert(staged[c] != q && places[c] != q);
        assert(same_at(d, e, q));
    }
    assert forall|q: PathView|
        !d.contains_key(q) && (forall|i: int| 0 <= i < c + 1 ==> #[trigger] places[i] != q)
            && #[trigger] f.contains_key(q) implies f[q] == folder() && q.len() <= b.path.len() by {
        assert(places[c] != q);
        assert(e.contains_key(q) ==> e[q] == folder() && q.len() <= b.path.len());
    }
}

/// One group.
proof fn lemma_place_group(
    d: DiskView,
    e: DiskView,
    b: BaseView,
    staged: Seq<PathView>,
    places: Seq<PathView>,
    at: nat,
    shard: nat,
    used: nat,
    count: nat,
    k: int,
)
    requires
        placeable(d, b, staged, places),
        placed_so_far(d, e, staged, places, at as int, b.path.len()),
        valid_shard(shard),
        at + count <= staged.len(),
        forall|i: int|
            0 <= i < count ==> #[trigger] places[at + i] == spot_path(
                b,
                (shard, (used + i + 1) as nat),
            ),
        0 <= k <= count,
        run_first(e, place_steps(shard_dir_of(b, shard), staged, at, used, count), k + 1) is Ok,
    ensures
        placed_so_far(
            d,
            run_first(
                e,
                place_steps(shard_dir_of(b, shard), staged, at, used, count),
                k + 1,
            )->Ok_0,
            staged,
            places,
            at + k,
            b.path.len(),
        ),
    decreases k,
{
    let dir = shard_dir_of(b, shard);
    let steps = place_steps(dir, staged, at, used, count);
    lemma_shard_dir(b, shard);
    if k == 0 {
        assert(steps[0] == StepView::MakeDirs(dir));
        assert(run_first(e, steps, 0) == Ok::<DiskView, ErrorView>(e));
        lemma_make_dirs(d, e, b, staged, places, at as int, dir);
    } else {
        lemma_place_group(d, e, b, staged, places, at, shard, used, count, k - 1);
        let m = run_first(e, steps, k)->Ok_0;
        let c = at + k - 1;
        assert(steps[k] == StepView::Rename(
            staged[at + (k - 1)],
            dir.push(pak_name((used + (k - 1) + 1) as nat)),
        ));
        assert(places[at + (k - 1)] == spot_path(b, (shard, (used + (k - 1) + 1) as nat)));
        lemma_place_one(d, m, b, staged, places, c);
    }
}

/// All groups.
proof fn lemma_place_groups(
    d: DiskView,
    b: BaseView,
    staged: Seq<PathView>,
    sizes: Seq<nat>,
    k: int,
)
    requires
        sizes_fit(sizes),
        0 <= k <= sizes.len(),
        staged.len() == total_size(sizes, sizes.len() as int),
        placeable(d, b, staged, spot_paths(b, spots(sizes, sizes.len() as int))),
        place_first(b, staged, sizes, k) is Ok,
        run_plan(d, place_first(b, staged, sizes, k)->Ok_0.steps) is Ok,
    ensures
        placed_so_far(
            d,
            run_plan(d, place_first(b, staged, sizes, k)->Ok_0.steps)->Ok_0,
            staged,
            spot_paths(b, spots(sizes, sizes.len() as int)),
            total_size(sizes, k) as int,
            b.path.len(),
        ),
    decreases k,
{
    let n = sizes.len() as int;
    let places = spot_paths(b, spots(sizes, n));
    let p = place_first(b, staged, sizes, k)->Ok_0;
    if k == 0 {
        assert(run_plan(d, p.steps) == Ok::<DiskView, ErrorView>(d));
    } else {
        let p1 = place_first(b, staged, sizes, k - 1)->Ok_0;
        let count = sizes[k - 1];
        let f = fill_first(sizes, k - 1);
        let o = opened(f, count);
        lemma_placed_len(b, staged, sizes, k - 1);
        law_groups_are_packed_in_order(sizes, k - 1);
        law_groups_are_packed_in_order(sizes, n);
        let at = total_size(sizes, k - 1);
        let steps = place_steps(shard_dir_of(b, o.shard), staged, at, o.used, count);
        assert(p.steps == p1.steps + steps);
        lemma_run_both(d, p1.steps, steps, steps.len() as int);
        let m = run_plan(d, p1.steps)->Ok_0;
        lemma_place_groups(d, b, staged, sizes, k - 1);
        lemma_total_within(sizes, k, n);
        assert forall|i: int| 0 <= i < count implies #[trigger] places[at + i] == spot_path(
            b,
            (o.shard, (o.used + i + 1) as nat),
        ) by {
            lemma_spots_of_group(sizes, n, k - 1, i);
        }
        assert(steps.len() == count + 1);
        lemma_place_group(d, m, b, staged, places, at, o.shard, o.used, count, count as int);
    }
}

proof fn lemma_total_within(sizes: Seq<nat>, k: int, n: int)
    requires
        0 <= k <= n <= sizes.len(),
    ensures
        total_size(sizes, k) <= total_size(sizes, n),
    decreases n - k,
{
    if k < n {
        lemma_total_within(sizes, k, n - 1);
    }
}

// ---------------------------------------------------------------------------
// The files that are reordered
// ---------------------------------------------------------------------------

/// Every mod claims files of the profile that are there.
pub open spec fn claims_stand(d: DiskView, b: BaseView, claims: Seq<ClaimView>) -> bool {
    forall|i: int|
        0 <= i < claims.len() ==> valid_shard((#[trigger] claims[i]).shard) && plain_name(
            claims[i].name,
        ) && is_file_at(d, shard_dir_of(b, claims[i].shard).push(claims[i].name))
}

proof fn lemma_claim(d: DiskView, b: BaseView, c: ClaimView)
    requires
        base_ok(b),
        valid_shard(c.shard),
        plain_name(c.name),
        is_file_at(d, shard_dir_of(b, c.shard).push(c.name)),
    ensures
        claim_path(b, c) == shard_dir_of(b, c.shard).push(c.name),
        shard_file(d, b, claim_path(b, c)),
        locator_of(b, claim_path(b, c)).shard == c.shard,
        claim_path(b, c).last() == c.name,
{
    lemma_join_plain(shard_dir_of(b, c.shard), c.name);
    law_shard_of_dir_inverts_shard_dir(b, c.shard);
    assert(claim_path(b, c).drop_last() =~= shard_dir_of(b, c.shard));
}

/// A file that is enabled and that no mod claims.
pub open spec fn is_orphan(d: DiskView, b: BaseView, claims: Seq<ClaimView>, s: PathView) -> bool {
    shard_file(d, b, s) && pak_number(s.last()) is Some && !is_claimed(
        claims,
        locator_of(b, s).shard,
        s.last(),
    )
}

proof fn lemma_orphans(d: DiskView, b: BaseView, claims: Seq<ClaimView>, n: nat)
    requires
        rooted(d),
        d.dom().finite(),
        plain_tree(d),
        base_ok(b),
        n <= MAX_SHARDS,
        orphans_to(d, b, claims, n) is Ok,
    ensures
        orphans_to(d, b, claims, n)->Ok_0.no_duplicates(),
        forall|s: PathView| #[trigger]
            orphans_to(d, b, claims, n)->Ok_0.contains(s) <==> is_orphan(d, b, claims, s)
                && locator_of(b, s).shard <= n,
    decreases n,
{
    let all = orphans_to(d, b, claims, n)->Ok_0;
    if n == 0 {
        assert forall|s: PathView| #[trigger] all.contains(s) <==> is_orphan(d, b, claims, s)
            && locator_of(b, s).shard <= n by {
            if shard_file(d, b, s) {
                lemma_locator(d, b, s);
            }
        }
    } else {
        let k = (n - 1) as nat;
        lemma_orphans(d, b, claims, k);
        let old_ones = orphans_to(d, b, claims, k)->Ok_0;
        let dir = shard_dir_of(b, n);
        lemma_shard_dir(b, n);
        law_shard_of_dir_inverts_shard_dir(b, n);
        let names = orphan_names(d, b, claims, n);
        let keys = number_keys(names);
        let order = sorted_places(keys);
        law_every_list_can_be_sorted(keys);
        let new_ones = shard_orphans(d, b, claims, n);
        lemma_orphan_names(d, b, claims, n);
        assert(new_ones.len() == order.len());
        assert forall|j: int| 0 <= j < new_ones.len() implies 0 <= #[trigger] order[j] < names.len()
            && new_ones[j] == dir.push(names[order[j]]) by {
            assert(order.contains(order[j]));
        }
        assert forall|s: PathView| #[trigger] all.contains(s) <==> is_orphan(d, b, claims, s)
            && locator_of(b, s).shard <= n by {
            assert(old_ones.contains(s) <==> is_orphan(d, b, claims, s) && locator_of(b, s).shard
                <= k);
            if all.contains(s) && !old_ones.contains(s) {
                let i = choose|i: int| 0 <= i < all.len() && all[i] == s;
                if i < old_ones.len() {
                    assert(old_ones[i] == s);
                }
                let j = i - old_ones.len();
                assert(s == new_ones[j]);
                assert(order[j] == order[j]);
                let x = names[order[j]];
                assert(names.contains(x));
                assert(s.drop_last() =~= dir);
                assert(s.last() == x);
            }
            if is_orphan(d, b, claims, s) && locator_of(b, s).shard <= n {
                lemma_locator(d, b, s);
                if old_ones.contains(s) {
                    let i = choose|i: int| 0 <= i < old_ones.len() && old_ones[i] == s;
                    assert(all[i] == s);
                } else {
                    assert(locator_of(b, s).shard == n);
                    assert(s == dir.push(s.last()));
                    lemma_rooted_at(d, s);
                    assert(s.drop_last() =~= dir);
                    assert(is_dir_at(d, dir));
                    assert(names.contains(s.last()));
                    let a = choose|a: int| 0 <= a < names.len() && names[a] == s.last();
                    assert(order.contains(a));
                    let j = choose|j: int| 0 <= j < order.len() && order[j] == a;
                    assert(new_ones[j] == s);
                    assert(all[old_ones.len() + j] == s);
                }
            }
        }
        assert forall|i: int, j: int| 0 <= i < all.len() && 0 <= j < all.len() && i != j implies
            all[i] != all[j] by {
            let m = old_ones.len() as int;
            if i < m && j < m {
                assert(old_ones[i] != old_ones[j]);
            } else if i >= m && j >= m {
                let u = order[i - m];
                let v = order[j - m];
                if i < j {
                    assert(place_before(keys, u, v));
                } else {
                    assert(place_before(keys, v, u));
                }
                assert(u != v);
                assert(names[u] != names[v]);
                assert(all[i].last() == names[u]);
                assert(all[j].last() == names[v]);
            } else {
                let o = if i < m {
                    i
                } else {
                    j
                };
                let w = if i < m {
                    j
                } else {
                    i
                };
                assert(old_ones.contains(old_ones[o]));
                assert(order[w - m] == order[w - m]);
                assert(all[w].drop_last() =~= dir);
                assert(all[o] == old_ones[o]);
            }
        }
    }
}

proof fn lemma_orphan_names(d: DiskView, b: BaseView, claims: Seq<ClaimView>, n: nat)
    requires
        d.dom().finite(),
    ensures
        forall|x: Seq<char>| #[trigger]
            orphan_names(d, b, claims, n).contains(x) <==> is_file_at(
                d,
                shard_dir_of(b, n).push(x),
            ) && pak_number(x) is Some && !is_claimed(claims, n, x),
        forall|i: int, j: int|
            0 <= i < orphan_names(d, b, claims, n).len() && 0 <= j < orphan_names(
                d,
                b,
                claims,
                n,
            ).len() && i != j ==> #[trigger] orphan_names(d, b, claims, n)[i]
                != #[trigger] orphan_names(d, b, claims, n)[j],
{
    let dir = shard_dir_of(b, n);
    let all = names_in(d, dir);
    let on = enabled_names(d, dir);
    let pred1 = |x: Seq<char>| enabled_in(d, dir, x);
    let pred2 = |x: Seq<char>| !is_claimed(claims, n, x);
    lemma_finite_has_order::<TreePath, NodeView>(d);
    lemma_names_in(d, dir);
    lemma_filter_members(all, pred1);
    lemma_filter_members(on, pred2);
    lemma_filter_distinct(all, pred1);
    lemma_distinct_part(on, pred2);
    assert forall|x: Seq<char>| #[trigger] orphan_names(d, b, claims, n).contains(x) <==> is_file_at(
        d,
        dir.push(x),
    ) && pak_number(x) is Some && !is_claimed(claims, n, x) by {
        assert(on.contains(x) <==> all.contains(x) && pred1(x));
        assert(all.contains(x) <==> d.contains_key(dir.push(x)));
    }
}

proof fn lemma_distinct_part<A>(s: Seq<A>, pred: spec_fn(A) -> bool)
    requires
        forall|i: int, j: int|
            0 <= i < s.len() && 0 <= j < s.len() && i != j ==> #[trigger] s[i] != #[trigger] s[j],
    ensures
        forall|i: int, j: int|
            0 <= i < s.filter(pred).len() && 0 <= j < s.filter(pred).len() && i != j
                ==> #[trigger] s.filter(pred)[i] != #[trigger] s.filter(pred)[j],
    decreases s.len(),
{
    reveal(Seq::filter);
    if s.len() > 0 {
        let t = s.drop_last();
        assert forall|i: int, j: int|
            0 <= i < t.len() && 0 <= j < t.len() && i != j implies #[trigger] t[i]
            != #[trigger] t[j] by {
            assert(s[i] != s[j]);
        }
        lemma_distinct_part(t, pred);
        lemma_filter_members(t, pred);
        let f = t.filter(pred);
        if pred(s.last()) {
            assert forall|i: int| 0 <= i < f.len() implies #[trigger] f[i] != s.last() by {
                assert(f.contains(f[i]));
                let a = choose|a: int| 0 <= a < t.len() && t[a] == f[i];
                assert(s[a] != s[s.len() - 1]);
            }
        }
    }
}

/// The files that are reordered: each is there, once, and every enabled file of
/// the profile is among them.
proof fn lemma_reorder_sources(
    d: DiskView,
    b: BaseView,
    claims: Seq<ClaimView>,
    orphans: Seq<PathView>,
)
    requires
        rooted(d),
        d.dom().finite(),
        plain_tree(d),
        base_ok(b),
        claims_stand(d, b, claims),
        duplicate_texts(claims).len() == 0,
        orphans_to(d, b, claims, MAX_SHARDS as nat) == Ok::<Seq<PathView>, ErrorView>(orphans),
    ensures
        reorder_sources(b, claims, orphans).no_duplicates(),
        forall|i: int|
            0 <= i < reorder_sources(b, claims, orphans).len() ==> shard_file(
                d,
                b,
                #[trigger] reorder_sources(b, claims, orphans)[i],
            ),
        forall|s: PathView|
            shard_file(d, b, s) && pak_number(s.last()) is Some ==> #[trigger] reorder_sources(
                b,
                claims,
                orphans,
            ).contains(s),
{
    let all = reorder_sources(b, claims, orphans);
    let m = claims.len() as int;
    lemma_orphans(d, b, claims, MAX_SHARDS as nat);
    assert forall|i: int| 0 <= i < all.len() implies shard_file(d, b, #[trigger] all[i]) by {
        if i < m {
            assert(valid_shard(claims[i].shard));
            lemma_claim(d, b, claims[i]);
            assert(all[i] == claim_path(b, claims[i]));
        } else {
            assert(all[i] == orphans[i - m]);
            assert(orphans.contains(orphans[i - m]));
        }
    }
    assert forall|i: int, j: int| 0 <= i < j < all.len() implies #[trigger] all[i]
        != #[trigger] all[j] by {
        if j < m {
            assert(valid_shard(claims[i].shard) && valid_shard(claims[j].shard));
            lemma_claim(d, b, claims[i]);
            lemma_claim(d, b, claims[j]);
            law_unreported_claims_are_single(claims, i, j);
        } else if i < m {
            assert(valid_shard(claims[i].shard));
            lemma_claim(d, b, claims[i]);
            assert(orphans.contains(orphans[j - m]));
            assert(is_claimed(claims, claims[i].shard, claims[i].name));
        } else {
            assert(orphans[i - m] != orphans[j - m]);
        }
    }
    assert(all.no_duplicates()) by {
        assert forall|i: int, j: int| 0 <= i < all.len() && 0 <= j < all.len() && i != j implies
            all[i] != all[j] by {
            if i < j {
                assert(all[i] != all[j]);
            } else {
                assert(all[j] != all[i]);
            }
        }
    }
    assert forall|s: PathView| shard_file(d, b, s) && pak_number(s.last()) is Some implies
        #[trigger] all.contains(s) by {
        lemma_locator(d, b, s);
        let n = locator_of(b, s).shard;
        if is_claimed(claims, n, s.last()) {
            let i = choose|i: int|
                0 <= i < claims.len() && (#[trigger] claims[i]).shard == n && claims[i].name
                    == s.last();
            lemma_claim(d, b, claims[i]);
            assert(all[i] == s);
        } else {
            assert(orphans.contains(s));
            let j = choose|j: int| 0 <= j < orphans.len() && orphans[j] == s;
            assert(all[m + j] == s);
        }
    }
}

/// The claims of a mod among all claims.
proof fn lemma_claim_at(groups: Seq<GroupView>, k: int, i: int, j: int)
    requires
        0 <= i < k <= groups.len(),
        0 <= j < groups[i].vpks.len(),
    ensures
        0 <= total_size(group_sizes(groups), i) + j < claims_of(groups, k).len(),
        claims_of(groups, k)[total_size(group_sizes(groups), i) + j] == group_claims(groups[i])[j],
    decreases k,
{
    lemma_claims_len(groups, k - 1);
    if i < k - 1 {
        lemma_claim_at(groups, k - 1, i, j);
    }
}

/// Where the files that are reordered go.
pub open spec fn new_places(b: BaseView, groups: Seq<GroupView>, orphans: nat) -> Seq<PathView> {
    let sizes = all_sizes(groups, orphans);
    spot_paths(b, spots(sizes, sizes.len() as int))
}

/// A reordering gives every enabled file of a profile, whether a mod claims it or
/// not, a place of its own, and moves it there whole. The files of a mod go into
/// one shard, in order. No other file is touched.
pub proof fn law_reordering_moves_each_file(
    d: DiskView,
    b: BaseView,
    groups: Seq<GroupView>,
    e: DiskView,
    placements: Seq<GroupView>,
)
    requires
        rooted(d),
        d.dom().finite(),
        plain_tree(d),
        base_ok(b),
        claims_stand(d, b, all_claims(groups)),
        reordered(d, b, groups) == Ok::<(DiskView, Seq<GroupView>), ErrorView>((e, placements)),
    ensures
        ({
            let orphans = orphans_to(d, b, all_claims(groups), MAX_SHARDS as nat)->Ok_0;
            let sources = reorder_sources(b, all_claims(groups), orphans);
            let places = new_places(b, groups, orphans.len());
            &&& sources.len() == places.len()
            &&& places.no_duplicates()
            &&& forall|s: PathView|
                shard_file(d, b, s) && pak_number(s.last()) is Some
                    ==> #[trigger] sources.contains(s)
            &&& forall|i: int|
                0 <= i < places.len() ==> e.contains_key(#[trigger] places[i]) && e[places[i]]
                    == d[sources[i]]
            &&& forall|q: PathView|
                is_file_at(d, q) && !sources.contains(q) ==> #[trigger] same_at(d, e, q)
            &&& forall|q: PathView|
                #[trigger] is_file_at(e, q) ==> places.contains(q) || (is_file_at(d, q)
                    && !sources.contains(q))
            &&& forall|q: PathView|
                #[trigger] is_dir_at(e, q) && q.len() > b.path.len() ==> is_dir_at(d, q) || q
                    == b.path.push(REORDER_STAGING_DIR@)
        }),
        placements.len() == groups.len(),
        forall|i: int|
            0 <= i < groups.len() ==> (#[trigger] placements[i]).mod_id == groups[i].mod_id
                && placements[i].vpks.len() == groups[i].vpks.len() && valid_shard(
                placements[i].shard,
            ),
        forall|i: int, j: int|
            0 <= i < groups.len() && 0 <= j < groups[i].vpks.len() ==> ({
                let place = shard_dir_of(b, placements[i].shard).push(
                    #[trigger] placements[i].vpks[j],
                );
                &&& e.contains_key(place)
                &&& e[place] == d[claim_path(b, group_claims(groups[i])[j])]
            }),
{
    let claims = all_claims(groups);
    let stage = b.path.push(REORDER_STAGING_DIR@);
    let orphans = orphans_to(d, b, claims, MAX_SHARDS as nat)->Ok_0;
    let sources = reorder_sources(b, claims, orphans);
    let n = sources.len() as int;
    let d1 = claimed(d, stage)->Ok_0;
    let aside = staging_plan(b, stage, sources, n)->Ok_0;
    let sizes = all_sizes(groups, orphans.len());
    let g = sizes.len() as int;
    let to = asides(b, stage, sources);
    lemma_reorder_sources(d, b, claims, orphans);
    lemma_claimed(d, b, stage, sources);
    lemma_aside_runs(d1, b, stage, sources, aside, n);
    lemma_asides(d1, b, stage, sources);
    lemma_shifted(d1, sources, to, n);
    let d2 = shifted(d1, sources, to, n);
    // Every file has a place.
    law_room_that_was_checked_suffices(b, to, groups, orphans.len());
    law_groups_are_packed_in_order(sizes, g);
    let p = place_first(b, to, sizes, g)->Ok_0;
    lemma_claims_len(groups, groups.len() as int);
    lemma_all_sizes_total(groups, orphans.len(), g);
    let all = spots(sizes, g);
    let places = new_places(b, groups, orphans.len());
    assert(places.len() == n);
    assert forall|i: int, j: int| 0 <= i < j < places.len() implies #[trigger] places[i]
        != #[trigger] places[j] by {
        assert(loads_before(all[i], all[j]));
        if places[i] == places[j] {
            lemma_spots_differ(b, all[i], all[j]);
        }
    }
    assert(places.no_duplicates()) by {
        assert forall|i: int, j: int|
            0 <= i < places.len() && 0 <= j < places.len() && i != j implies places[i]
            != places[j] by {
            if i < j {
                assert(places[i] != places[j]);
            } else {
                assert(places[j] != places[i]);
            }
        }
    }
    assert(placeable(d2, b, to, places)) by {
        assert forall|i: int| 0 <= i < places.len() implies !is_file_at(d2, #[trigger] places[i])
            && places[i].len() == b.path.len() + 1 by {
            lemma_place_is_free(d, d1, b, stage, sources, all[i]);
        }
        assert forall|i: int| 0 <= i < to.len() implies is_file_at(d2, #[trigger] to[i])
            && to[i].len() == b.path.len() + 2 by {
            assert(d2[to[i]] == d1[sources[i]]);
            assert(shard_file(d1, b, sources[i]));
        }
    }
    let steps = aside + p.steps;
    lemma_run_both(d1, aside, p.steps, p.steps.len() as int);
    assert(aside.len() + p.steps.len() == steps.len());
    let d3 = run_plan(d2, p.steps)->Ok_0;
    assert(e == pruned_shards(d3, b));
    lemma_place_groups(d2, b, to, sizes, g);
    lemma_pruned_files(d3, b, MAX_SHARDS as nat);
    assert forall|i: int| 0 <= i < places.len() implies e.contains_key(#[trigger] places[i])
        && e[places[i]] == d[sources[i]] by {
        assert(d3[places[i]] == d2[to[i]]);
        assert(d2[to[i]] == d1[sources[i]]);
        assert(shard_file(d, b, sources[i]));
        assert(same_at(d, d1, sources[i]));
        assert(is_file_at(d3, places[i]));
        assert(same_at(d3, e, places[i]));
    }
    assert forall|q: PathView| is_file_at(d, q) && !sources.contains(q) implies #[trigger] same_at(
        d,
        e,
        q,
    ) by {
        assert(same_at(d, d1, q));
        assert forall|i: int| 0 <= i < n implies #[trigger] sources[i] != q by {
            assert(sources.contains(sources[i]));
        }
        assert forall|i: int| 0 <= i < n implies #[trigger] to[i] != q by {
            assert(!d1.contains_key(to[i]));
        }
        assert(same_at(d1, d2, q));
        assert forall|i: int| 0 <= i < n implies #[trigger] places[i] != q by {
            assert(!is_file_at(d2, places[i]));
        }
        assert(same_at(d2, d3, q));
        assert(same_at(d3, e, q));
    }
    assert forall|q: PathView| #[trigger] is_file_at(e, q) implies places.contains(q) || (is_file_at(
        d,
        q,
    ) && !sources.contains(q)) by {
        assert(same_at(d3, e, q));
        if !places.contains(q) {
            assert forall|i: int| 0 <= i < n implies #[trigger] places[i] != q by {
                assert(places.contains(places[i]));
            }
            assert(d2.contains_key(q)) by {
                if !d2.contains_key(q) {
                    assert(d3[q] == folder());
                }
            }
            assert forall|i: int| 0 <= i < n implies #[trigger] to[i] != q by {
                assert(!d3.contains_key(to[i]));
            }
            assert(same_at(d2, d3, q));
            assert forall|i: int| 0 <= i < n implies #[trigger] sources[i] != q by {
                assert(!d2.contains_key(sources[i]));
            }
            assert(same_at(d1, d2, q));
            assert(same_at(d, d1, q));
            if sources.contains(q) {
                let i = choose|i: int| 0 <= i < n && sources[i] == q;
                assert(sources[i] != q);
            }
        }
    }
    assert forall|q: PathView| #[trigger] is_dir_at(e, q) && q.len() > b.path.len() implies is_dir_at(
        d,
        q,
    ) || q == stage by {
        assert(same_at(d3, e, q));
        assert forall|i: int| 0 <= i < n implies #[trigger] places[i] != q by {
            assert(d3[places[i]] == d2[to[i]]);
            assert(is_file_at(d2, to[i]));
        }
        assert(d2.contains_key(q));
        assert forall|i: int| 0 <= i < n implies #[trigger] to[i] != q by {
            assert(!d3.contains_key(to[i]));
        }
        assert(same_at(d2, d3, q));
        assert forall|i: int| 0 <= i < n implies #[trigger] sources[i] != q by {
            assert(!d2.contains_key(sources[i]));
        }
        assert(same_at(d1, d2, q));
        if !d.contains_key(q) {
            assert(q.is_prefix_of(stage));
            assert(q =~= stage);
        }
    }
    lemma_placed_len(b, to, sizes, g);
    assert forall|i: int| 0 <= i < groups.len() implies (#[trigger] placements[i]).mod_id
        == groups[i].mod_id && placements[i].vpks.len() == groups[i].vpks.len() && valid_shard(
        placements[i].shard,
    ) by {
        lemma_placed_spots(b, to, sizes, g, i);
        law_groups_are_packed_in_order(sizes, i);
        assert(sizes[i] == groups[i].vpks.len());
    }
    assert forall|i: int, j: int| 0 <= i < groups.len() && 0 <= j < groups[i].vpks.len() implies ({
        let place = shard_dir_of(b, placements[i].shard).push(#[trigger] placements[i].vpks[j]);
        &&& e.contains_key(place)
        &&& e[place] == d[claim_path(b, group_claims(groups[i])[j])]
    }) by {
        assert(sizes[i] == groups[i].vpks.len());
        lemma_placed_spots(b, to, sizes, g, i);
        lemma_spots_of_group(sizes, g, i, j);
        lemma_claim_at(groups, groups.len() as int, i, j);
        lemma_all_sizes_total(groups, orphans.len(), i);
        let at = total_size(sizes, i) + j;
        assert(places[at] == spot_path(b, all[at]));
        assert(sources[at] == claim_path(b, claims[at]));
    }
}

/// No file stands at a place once the enabled files are set aside.
proof fn lemma_place_is_free(
    d: DiskView,
    d1: DiskView,
    b: BaseView,
    stage: PathView,
    sources: Seq<PathView>,
    s: Spot,
)
    requires
        plain_tree(d),
        aside_ready(d1, b, stage, sources),
        stage.len() == b.path.len() + 1,
        valid_shard(s.0),
        1 <= s.1 <= SHARD_CAPACITY,
        forall|q: PathView|
            is_file_at(d, q) || is_file_at(d1, q) ==> #[trigger] same_at(d, d1, q),
        forall|q: PathView|
            shard_file(d, b, q) && pak_number(q.last()) is Some ==> #[trigger] sources.contains(q),
    ensures
        !is_file_at(
            shifted(d1, sources, asides(b, stage, sources), sources.len() as int),
            spot_path(b, s),
        ),
        spot_path(b, s).len() == b.path.len() + 1,
{
    let n = sources.len() as int;
    let to = asides(b, stage, sources);
    let d2 = shifted(d1, sources, to, n);
    let q = spot_path(b, s);
    lemma_asides(d1, b, stage, sources);
    lemma_shifted(d1, sources, to, n);
    lemma_shard_dir(b, s.0);
    if is_file_at(d2, q) {
        assert forall|i: int| 0 <= i < n implies #[trigger] to[i] != q by {
            assert(is_below(stage, to[i]));
        }
        assert forall|i: int| 0 <= i < n implies #[trigger] sources[i] != q by {
            assert(!d2.contains_key(sources[i]));
        }
        assert(same_at(d1, d2, q));
        assert(same_at(d, d1, q));
        law_shard_of_dir_inverts_shard_dir(b, s.0);
        law_enabled_names_round_trip(s.1);
        assert(q.drop_last() =~= shard_dir_of(b, s.0));
        assert(q.last() == pak_name(s.1));
        lemma_pak_plain(s.1);
        assert(shard_file(d, b, q));
        assert(sources.contains(q));
        let i = choose|i: int| 0 <= i < n && sources[i] == q;
        assert(sources[i] != q);
    }
}

/// The tree of a reordering keeps everything in a directory.
pub proof fn lemma_reordered_keeps(d: DiskView, b: BaseView, groups: Seq<GroupView>)
    requires
        rooted(d),
        d.dom().finite(),
        reordered(d, b, groups) is Ok,
    ensures
        rooted(reordered(d, b, groups)->Ok_0.0),
        reordered(d, b, groups)->Ok_0.0.dom().finite(),
{
    let claims = all_claims(groups);
    let stage = b.path.push(REORDER_STAGING_DIR@);
    let orphans = orphans_to(d, b, claims, MAX_SHARDS as nat)->Ok_0;
    let d1 = claimed(d, stage)->Ok_0;
    lemma_with_dirs(d, stage);
    let steps = reorder_plan(b, stage, groups, orphans)->Ok_0.0;
    lemma_run_keeps(d1, steps, steps.len() as int);
    lemma_pruned_keeps(run_plan(d1, steps)->Ok_0, b, MAX_SHARDS as nat);
}

/// A reordered profile is laid out as the engine needs it: no shard holds more
/// enabled files than the engine loads, or a number that it does not load.
pub proof fn law_reordered_profiles_need_no_migration(
    d: DiskView,
    b: BaseView,
    groups: Seq<GroupView>,
    e: DiskView,
    placements: Seq<GroupView>,
)
    requires
        rooted(d),
        d.dom().finite(),
        plain_tree(d),
        base_ok(b),
        claims_stand(d, b, all_claims(groups)),
        reordered(d, b, groups) == Ok::<(DiskView, Seq<GroupView>), ErrorView>((e, placements)),
    ensures
        !migration_needed(e, b),
{
    law_reordering_moves_each_file(d, b, groups, e, placements);
    lemma_reordered_keeps(d, b, groups);
    let orphans = orphans_to(d, b, all_claims(groups), MAX_SHARDS as nat)->Ok_0;
    let sources = reorder_sources(b, all_claims(groups), orphans);
    let places = new_places(b, groups, orphans.len());
    let sizes = all_sizes(groups, orphans.len());
    law_room_that_was_checked_suffices(b, sources, groups, orphans.len());
    law_groups_are_packed_in_order(sizes, sizes.len() as int);
    let all = spots(sizes, sizes.len() as int);
    let numbered = Seq::new(SHARD_CAPACITY as nat, |i: int| pak_name((i + 1) as nat));
    assert forall|n: nat| valid_shard(n) implies !#[trigger] shard_overfull(e, b, n) by {
        let dir = shard_dir_of(b, n);
        let names = enabled_names(e, dir);
        let pred = |x: Seq<char>| enabled_in(e, dir, x);
        lemma_finite_has_order::<TreePath, NodeView>(e);
        lemma_names_in(e, dir);
        lemma_filter_members(names_in(e, dir), pred);
        lemma_filter_distinct(names_in(e, dir), pred);
        assert forall|x: Seq<char>| #[trigger] names.contains(x) implies numbered.contains(x)
            && pak_number(x)->0 <= SHARD_CAPACITY by {
            let q = dir.push(x);
            assert(is_file_at(e, q));
            assert(q.drop_last() =~= dir);
            assert(q.last() == x);
            law_shard_of_dir_inverts_shard_dir(b, n);
            if !places.contains(q) {
                assert(shard_file(d, b, q));
                assert(sources.contains(q));
            }
            let i = choose|i: int| 0 <= i < places.len() && places[i] == q;
            let m = all[i].1;
            assert(places[i] == spot_path(b, all[i]));
            assert(places[i].last() == pak_name(m));
            assert(numbered[m - 1] == x);
            law_enabled_names_round_trip(m);
        }
        lemma_no_longer(names, numbered);
    }
}

/// The name that a file of a mod gets.
pub proof fn lemma_placement_name(
    d: DiskView,
    b: BaseView,
    groups: Seq<GroupView>,
    e: DiskView,
    placements: Seq<GroupView>,
    i: int,
    j: int,
) -> (n: nat)
    requires
        0 <= i < groups.len(),
        0 <= j < groups[i].vpks.len(),
        reordered(d, b, groups) == Ok::<(DiskView, Seq<GroupView>), ErrorView>((e, placements)),
    ensures
        1 <= n <= SHARD_CAPACITY,
        placements[i].vpks[j] == pak_name(n),
{
    let claims = all_claims(groups);
    let stage = b.path.push(REORDER_STAGING_DIR@);
    let orphans = orphans_to(d, b, claims, MAX_SHARDS as nat)->Ok_0;
    let sources = reorder_sources(b, claims, orphans);
    let aside = staging_plan(b, stage, sources, sources.len() as int)->Ok_0;
    let sizes = all_sizes(groups, orphans.len());
    let to = step_targets(aside);
    law_room_that_was_checked_suffices(b, to, groups, orphans.len());
    lemma_placed_spots(b, to, sizes, sizes.len() as int, i);
    law_groups_are_packed_in_order(sizes, i);
    assert(sizes[i] == groups[i].vpks.len());
    let o = opened(fill_first(sizes, i), sizes[i]);
    (o.used + j + 1) as nat
}

/// A mod gets no name twice.
pub proof fn lemma_placements_differ(
    d: DiskView,
    b: BaseView,
    groups: Seq<GroupView>,
    e: DiskView,
    placements: Seq<GroupView>,
    i: int,
    j: int,
    k: int,
)
    requires
        0 <= i < groups.len(),
        0 <= j < k < groups[i].vpks.len(),
        reordered(d, b, groups) == Ok::<(DiskView, Seq<GroupView>), ErrorView>((e, placements)),
    ensures
        placements[i].vpks[j] != placements[i].vpks[k],
{
    let claims = all_claims(groups);
    let stage = b.path.push(REORDER_STAGING_DIR@);
    let orphans = orphans_to(d, b, claims, MAX_SHARDS as nat)->Ok_0;
    let sources = reorder_sources(b, claims, orphans);
    let aside = staging_plan(b, stage, sources, sources.len() as int)->Ok_0;
    let sizes = all_sizes(groups, orphans.len());
    let to = step_targets(aside);
    law_room_that_was_checked_suffices(b, to, groups, orphans.len());
    lemma_placed_spots(b, to, sizes, sizes.len() as int, i);
    law_groups_are_packed_in_order(sizes, i);
    assert(sizes[i] == groups[i].vpks.len());
    let o = opened(fill_first(sizes, i), sizes[i]);
    law_enabled_names_round_trip((o.used + j + 1) as nat);
    law_enabled_names_round_trip((o.used + k + 1) as nat);
}

/// The places that a reordering gives are those of enabled files.
pub proof fn lemma_places_are_enabled(d: DiskView, b: BaseView, groups: Seq<GroupView>, k: int)
    requires
        reordered(d, b, groups) is Ok,
        ({
            let orphans = orphans_to(d, b, all_claims(groups), MAX_SHARDS as nat)->Ok_0;
            0 <= k < new_places(b, groups, orphans.len()).len()
        }),
    ensures
        ({
            let orphans = orphans_to(d, b, all_claims(groups), MAX_SHARDS as nat)->Ok_0;
            pak_number(new_places(b, groups, orphans.len())[k].last()) is Some
        }),
{
    let orphans = orphans_to(d, b, all_claims(groups), MAX_SHARDS as nat)->Ok_0;
    let sizes = all_sizes(groups, orphans.len());
    law_room_that_was_checked_suffices(b, Seq::empty(), groups, orphans.len());
    law_groups_are_packed_in_order(sizes, sizes.len() as int);
    let s = spots(sizes, sizes.len() as int)[k];
    law_enabled_names_round_trip(s.1);
    assert(spot_path(b, s).last() == pak_name(s.1));
}

} // verus!
