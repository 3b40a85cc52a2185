//! Setting files aside keeps them whole, and what was set aside can be put back.
use super::moves::{lemma_shifted, shiftable, shifted};
use super::reorder::{lemma_staging_plan_shape, pruned_to, step_targets};
use super::staging::{
    claimed, recover_first, recover_one, recovered, recovered_name, run_first, run_plan,
    stage_target_of, staging_plan, RecoveryMode, StepView,
};
use super::swap::{cleared, vpk_names_in, vpks_to};
use crate::disk::{
    can_rename, dirs_possible, folder, is_below, is_dir_at, is_file_at,
    law_changes_keep_the_tree_rooted, lemma_below_exists, lemma_dirs_there,
    lemma_filter_members, lemma_names_in, lemma_push_prefix, lemma_rooted_at, names_in,
    parent_ready, rename_op, renamed, rooted, same_at, with_dirs, without_tree, DiskView,
    NodeView, OpView,
};
use crate::error::ErrorView;
use crate::path::{path_name, path_parent, plain_name, vpk_name, PathView, TreePath};
use crate::shard::{
    base_of, base_ok, is_shard_at, law_shard_of_dir_inverts_shard_dir,
    law_staged_names_round_trip, lemma_base_ok, shard_at, shard_dir_of, staged_of, staged_text,
    valid_shard, BaseView, LocatorView, CLEAR_STAGING_DIR, MAX_SHARDS,
};
use crate::table::lemma_finite_has_order;
use vstd::prelude::*;

verus! {

/// A file of one of the shards of a profile.
pub open spec fn shard_file(d: DiskView, b: BaseView, s: PathView) -> bool {
    s.len() > 0 && is_file_at(d, s) && plain_name(s.last()) && shard_at(b, s.drop_last()) is Some
}

/// Where a file of a profile is, as a shard and a name.
pub open spec fn locator_of(b: BaseView, s: PathView) -> LocatorView {
    LocatorView { shard: shard_at(b, s.drop_last())->0, filename: s.last() }
}

/// Where a file of a profile is set aside.
pub open spec fn aside_of(b: BaseView, stage: PathView, s: PathView) -> PathView {
    stage.push(staged_text(locator_of(b, s)))
}

pub open spec fn asides(b: BaseView, stage: PathView, sources: Seq<PathView>) -> Seq<PathView> {
    sources.map_values(|s: PathView| aside_of(b, stage, s))
}

/// Files of a profile, each once, in a tree with an empty staging directory.
pub open spec fn aside_ready(
    d: DiskView,
    b: BaseView,
    stage: PathView,
    sources: Seq<PathView>,
) -> bool {
    &&& rooted(d)
    &&& d.dom().finite()
    &&& base_ok(b)
    &&& path_parent(stage) is Some
    &&& is_dir_at(d, stage)
    &&& forall|q: PathView| is_below(stage, q) ==> !#[trigger] d.contains_key(q)
    &&& sources.no_duplicates()
    &&& forall|i: int| 0 <= i < sources.len() ==> shard_file(d, b, #[trigger] sources[i])
}

/// A file is found again by its shard and its name.
pub proof fn lemma_locator(d: DiskView, b: BaseView, s: PathView)
    requires
        base_ok(b),
        shard_file(d, b, s),
    ensures
        valid_shard(locator_of(b, s).shard),
        plain_name(locator_of(b, s).filename),
        shard_dir_of(b, locator_of(b, s).shard).push(locator_of(b, s).filename) == s,
        staged_of(staged_text(locator_of(b, s))) == Ok::<LocatorView, ErrorView>(locator_of(b, s)),
        path_parent(s) == Some(s.drop_last()),
        path_name(s) == Some(s.last()),
{
    let n = locator_of(b, s).shard;
    assert(is_shard_at(b, s.drop_last(), n));
    assert(s =~= s.drop_last().push(s.last()));
    law_staged_names_round_trip(locator_of(b, s));
}

pub proof fn lemma_asides(d: DiskView, b: BaseView, stage: PathView, sources: Seq<PathView>)
    requires
        aside_ready(d, b, stage, sources),
    ensures
        shiftable(d, sources, asides(b, stage, sources)),
        forall|i: int|
            0 <= i < sources.len() ==> stage_target_of(b, stage, #[trigger] sources[i]) == Ok::<
                PathView,
                ErrorView,
            >(aside_of(b, stage, sources[i])),
        forall|i: int|
            0 <= i < sources.len() ==> is_below(
                stage,
                #[trigger] asides(b, stage, sources)[i],
            ) && asides(b, stage, sources)[i].drop_last() == stage && path_parent(
                asides(b, stage, sources)[i],
            ) == Some(stage),
{
    let to = asides(b, stage, sources);
    assert forall|i: int| 0 <= i < sources.len() implies stage_target_of(
        b,
        stage,
        #[trigger] sources[i],
    ) == Ok::<PathView, ErrorView>(aside_of(b, stage, sources[i])) by {
        lemma_locator(d, b, sources[i]);
    }
    assert forall|i: int| 0 <= i < sources.len() implies is_below(stage, #[trigger] to[i])
        && to[i].drop_last() == stage && path_parent(to[i]) == Some(stage) by {
        lemma_push_prefix(stage, staged_text(locator_of(b, sources[i])));
        assert(to[i].drop_last() =~= stage);
        assert(stage.len() > 0);
    }
    assert forall|i: int| 0 <= i < sources.len() implies d.contains_key(#[trigger] sources[i]) by {
        assert(shard_file(d, b, sources[i]));
    }
    assert forall|i: int| 0 <= i < to.len() implies !d.contains_key(#[trigger] to[i]) by {
        assert(is_below(stage, to[i]));
    }
    assert forall|i: int, j: int| 0 <= i < j < to.len() implies #[trigger] to[i]
        != #[trigger] to[j] by {
        if to[i] == to[j] {
            lemma_locator(d, b, sources[i]);
            lemma_locator(d, b, sources[j]);
            assert(to[i].last() == staged_text(locator_of(b, sources[i])));
            assert(to[j].last() == staged_text(locator_of(b, sources[j])));
            assert(sources[i] == sources[j]);
        }
    }
}

/// The plan that sets the files aside succeeds, and moves each of them whole.
pub proof fn lemma_aside_runs(
    d: DiskView,
    b: BaseView,
    stage: PathView,
    sources: Seq<PathView>,
    steps: Seq<StepView>,
    k: int,
)
    requires
        aside_ready(d, b, stage, sources),
        staging_plan(b, stage, sources, sources.len() as int) == Ok::<Seq<StepView>, ErrorView>(
            steps,
        ),
        0 <= k <= sources.len(),
    ensures
        steps.len() == sources.len(),
        run_first(d, steps, k) == Ok::<DiskView, ErrorView>(
            shifted(d, sources, asides(b, stage, sources), k),
        ),
        rooted(shifted(d, sources, asides(b, stage, sources), k)),
        shifted(d, sources, asides(b, stage, sources), k).dom().finite(),
        step_targets(steps) == asides(b, stage, sources),
    decreases k,
{
    let to = asides(b, stage, sources);
    lemma_staging_plan_shape(b, stage, sources, sources.len() as int);
    lemma_asides(d, b, stage, sources);
    assert(step_targets(steps) =~= to) by {
        assert forall|i: int| 0 <= i < to.len() implies step_targets(steps)[i] == to[i] by {
            assert(steps[i] is Rename);
            assert(stage_target_of(b, stage, sources[i]) == Ok::<PathView, ErrorView>(
                aside_of(b, stage, sources[i]),
            ));
        }
    }
    if k > 0 {
        lemma_aside_runs(d, b, stage, sources, steps, k - 1);
        lemma_shifted(d, sources, to, k - 1);
        let was = shifted(d, sources, to, k - 1);
        let x = sources[k - 1];
        let y = to[k - 1];
        assert(steps[k - 1] is Rename);
        assert(step_targets(steps)[k - 1] == y);
        assert(steps[k - 1] == StepView::Rename(x, y));
        assert(shard_file(d, b, x));
        assert(!d.contains_key(y));
        assert(same_at(d, was, x));
        assert(same_at(d, was, y));
        assert forall|i: int| 0 <= i < k - 1 implies #[trigger] sources[i] != stage by {
            assert(shard_file(d, b, sources[i]));
        }
        assert(same_at(d, was, stage));
        assert(parent_ready(was, y));
        assert(can_rename(was, x, y));
        law_changes_keep_the_tree_rooted(was, OpView::Move(x, y));
    }
}

/// Running one plan after another.
pub proof fn lemma_run_both(d: DiskView, first: Seq<StepView>, second: Seq<StepView>, k: int)
    requires
        0 <= k <= second.len(),
    ensures
        run_first(d, first + second, first.len() + k) == (match run_plan(d, first) {
            Err(e) => Err(e),
            Ok(m) => run_first(m, second, k),
        }),
    decreases k,
{
    let all = first + second;
    if k == 0 {
        lemma_run_same(d, all, first, first.len() as int);
    } else {
        lemma_run_both(d, first, second, k - 1);
        assert(all[first.len() + k - 1] == second[k - 1]);
    }
}

proof fn lemma_run_same(d: DiskView, s: Seq<StepView>, t: Seq<StepView>, k: int)
    requires
        0 <= k <= s.len(),
        k <= t.len(),
        forall|i: int| 0 <= i < k ==> #[trigger] s[i] == t[i],
    ensures
        run_first(d, s, k) == run_first(d, t, k),
    decreases k,
{
    if k > 0 {
        lemma_run_same(d, s, t, k - 1);
        assert(s[k - 1] == t[k - 1]);
    }
}

// ---------------------------------------------------------------------------
// Putting back
// ---------------------------------------------------------------------------

/// Recovery undoes setting aside: whichever files of a profile an operation had
/// set aside when it was cut short, recovering its staging directory succeeds and
/// leaves the tree as it was before, without that directory.
pub proof fn law_recovery_puts_everything_back(
    d: DiskView,
    b: BaseView,
    stage: PathView,
    sources: Seq<PathView>,
    mode: RecoveryMode,
)
    requires
        aside_ready(d, b, stage, sources),
    ensures
        recovered(shifted(d, sources, asides(b, stage, sources), sources.len() as int), b, stage, mode)
            == (d.remove(stage), Ok::<(), ErrorView>(())),
{
    let n = sources.len() as int;
    let to = asides(b, stage, sources);
    let e = shifted(d, sources, to, n);
    lemma_asides(d, b, stage, sources);
    lemma_shifted(d, sources, to, n);
    lemma_aside_tree(d, b, stage, sources, n);
    assert forall|i: int| 0 <= i < n implies #[trigger] sources[i] != stage by {
        assert(shard_file(d, b, sources[i]));
    }
    assert(same_at(d, e, stage));
    let names = names_in(e, stage);
    lemma_finite_has_order::<TreePath, NodeView>(e);
    lemma_names_in(e, stage);
    // Each name is that of a file set aside, and each file set aside has one.
    let from = names.map_values(|x: Seq<char>| stage.push(x));
    let back = names.map_values(|x: Seq<char>| home_of(b, x));
    assert forall|i: int| 0 <= i < names.len() implies exists|j: int|
        0 <= j < n && from[i] == #[trigger] to[j] && back[i] == sources[j] && #[trigger] names[i]
            == staged_text(locator_of(b, sources[j])) by {
        assert(names.contains(names[i]));
        lemma_name_of_aside(d, b, stage, sources, names[i]);
        let j = choose|j: int| 0 <= j < n && stage.push(names[i]) == #[trigger] to[j];
        lemma_locator(d, b, sources[j]);
        assert(to[j].last() == staged_text(locator_of(b, sources[j])));
        assert(stage.push(names[i]).last() == names[i]);
        assert(from[i] == to[j] && back[i] == sources[j]);
    }
    assert forall|j: int| 0 <= j < n implies exists|i: int|
        0 <= i < names.len() && from[i] == to[j] && #[trigger] back[i] == #[trigger] sources[j] by {
        lemma_locator(d, b, sources[j]);
        let x = staged_text(locator_of(b, sources[j]));
        assert(to[j] == stage.push(x));
        assert(e.contains_key(to[j]));
        assert(names.contains(x));
        let i = choose|i: int| 0 <= i < names.len() && names[i] == x;
        assert(back[i] == sources[j]);
    }
    lemma_names_distinct(e, stage);
    assert(shiftable(e, from, back)) by {
        assert forall|i: int| 0 <= i < from.len() implies e.contains_key(#[trigger] from[i]) by {
            assert(names[i] == names[i]);
        }
        assert forall|i: int| 0 <= i < back.len() implies !e.contains_key(#[trigger] back[i]) by {
            assert(names[i] == names[i]);
        }
        assert forall|i: int, j: int| 0 <= i < j < from.len() implies #[trigger] from[i]
            != #[trigger] from[j] by {
            assert(names[i] != names[j]);
            assert(from[i].last() == names[i]);
            assert(from[j].last() == names[j]);
        }
        assert forall|i: int, j: int| 0 <= i < j < back.len() implies #[trigger] back[i]
            != #[trigger] back[j] by {
            assert(names[i] != names[j]);
            if back[i] == back[j] {
                let u = choose|u: int|
                    0 <= u < n && from[i] == #[trigger] to[u] && back[i] == sources[u] && names[i]
                        == staged_text(locator_of(b, sources[u]));
                let v = choose|v: int|
                    0 <= v < n && from[j] == #[trigger] to[v] && back[j] == sources[v] && names[j]
                        == staged_text(locator_of(b, sources[v]));
                assert(sources[u] == sources[v]);
            }
        }
    }
    lemma_recovering(d, e, b, stage, sources, names, from, back, mode, names.len() as int);
    lemma_shifted(e, from, back, names.len() as int);
    let f = shifted(e, from, back, names.len() as int);
    assert forall|q: PathView| same_at(d, f, q) by {
        if exists|j: int| 0 <= j < n && #[trigger] sources[j] == q {
            let j = choose|j: int| 0 <= j < n && #[trigger] sources[j] == q;
            let i = choose|i: int|
                0 <= i < names.len() && from[i] == to[j] && #[trigger] back[i] == sources[j];
            assert(f[back[i]] == e[from[i]]);
            assert(e[to[j]] == d[sources[j]]);
            assert(shard_file(d, b, sources[j]));
        } else if exists|j: int| 0 <= j < n && #[trigger] to[j] == q {
            let j = choose|j: int| 0 <= j < n && #[trigger] to[j] == q;
            assert(sources[j] == sources[j]);
            let i = choose|i: int|
                0 <= i < names.len() && from[i] == to[j] && #[trigger] back[i] == sources[j];
            assert(!f.contains_key(from[i]));
            assert(!d.contains_key(to[j]));
        } else {
            assert(same_at(d, e, q));
            assert forall|i: int| 0 <= i < names.len() implies #[trigger] from[i] != q by {
                assert(names[i] == names[i]);
            }
            assert forall|i: int| 0 <= i < names.len() implies #[trigger] back[i] != q by {
                assert(names[i] == names[i]);
            }
            assert(same_at(e, f, q));
        }
    }
    assert(f =~= d) by {
        assert forall|q: PathView| #[trigger] f.contains_key(q) == d.contains_key(q) && (
        d.contains_key(q) ==> f[q] == d[q]) by {
            assert(same_at(d, f, q));
        }
    }
    assert(without_tree(d, stage) =~= d.remove(stage)) by {
        assert(stage =~= stage.take(stage.len() as int));
        assert forall|q: PathView| #[trigger] d.contains_key(q) && q != stage implies
            !stage.is_prefix_of(q) by {
            if stage.is_prefix_of(q) {
                if q.len() == stage.len() {
                    assert(q =~= stage);
                }
                assert(is_below(stage, q));
            }
        }
    }
}

/// Where a staged file came from.
spec fn home_of(b: BaseView, name: Seq<char>) -> PathView {
    let l = staged_of(name)->Ok_0;
    shard_dir_of(b, l.shard).push(l.filename)
}

proof fn lemma_aside_tree(d: DiskView, b: BaseView, stage: PathView, sources: Seq<PathView>, k: int)
    requires
        aside_ready(d, b, stage, sources),
        0 <= k <= sources.len(),
    ensures
        rooted(shifted(d, sources, asides(b, stage, sources), k)),
        shifted(d, sources, asides(b, stage, sources), k).dom().finite(),
    decreases k,
{
    lemma_asides(d, b, stage, sources);
    lemma_plan_exists(d, b, stage, sources, sources.len() as int);
    let steps = staging_plan(b, stage, sources, sources.len() as int)->Ok_0;
    lemma_aside_runs(d, b, stage, sources, steps, k);
}

pub proof fn lemma_plan_exists(
    d: DiskView,
    b: BaseView,
    stage: PathView,
    sources: Seq<PathView>,
    k: int,
)
    requires
        aside_ready(d, b, stage, sources),
        0 <= k <= sources.len(),
    ensures
        staging_plan(b, stage, sources, k) is Ok,
    decreases k,
{
    if k > 0 {
        lemma_plan_exists(d, b, stage, sources, k - 1);
        lemma_asides(d, b, stage, sources);
        assert(stage_target_of(b, stage, sources[k - 1]) == Ok::<PathView, ErrorView>(
            aside_of(b, stage, sources[k - 1]),
        ));
    }
}

proof fn lemma_names_distinct(d: DiskView, dir: PathView)
    requires
        d.dom().finite(),
    ensures
        forall|i: int, j: int|
            0 <= i < j < names_in(d, dir).len() ==> #[trigger] names_in(d, dir)[i]
                != #[trigger] names_in(d, dir)[j],
{
    let names = names_in(d, dir);
    lemma_finite_has_order::<TreePath, NodeView>(d);
    lemma_names_in(d, dir);
    let any = |x: Seq<char>| true;
    crate::disk::lemma_filter_distinct(names, any);
    crate::disk::lemma_filter_all(names, any);
}

/// What stands in the staging directory was set aside.
proof fn lemma_name_of_aside(
    d: DiskView,
    b: BaseView,
    stage: PathView,
    sources: Seq<PathView>,
    name: Seq<char>,
)
    requires
        aside_ready(d, b, stage, sources),
        shifted(d, sources, asides(b, stage, sources), sources.len() as int).contains_key(
            stage.push(name),
        ),
    ensures
        exists|j: int|
            0 <= j < sources.len() && stage.push(name) == #[trigger] asides(b, stage, sources)[j],
{
    let to = asides(b, stage, sources);
    let n = sources.len() as int;
    let q = stage.push(name);
    lemma_asides(d, b, stage, sources);
    lemma_shifted(d, sources, to, n);
    lemma_push_prefix(stage, name);
    assert(is_below(stage, q));
    assert(!d.contains_key(q));
    if forall|j: int| 0 <= j < n ==> q != #[trigger] to[j] {
        assert forall|i: int| 0 <= i < n implies #[trigger] sources[i] != q by {
            assert(shard_file(d, b, sources[i]));
        }
        assert(same_at(d, shifted(d, sources, to, n), q));
    }
}

proof fn lemma_recovering(
    d: DiskView,
    e: DiskView,
    b: BaseView,
    stage: PathView,
    sources: Seq<PathView>,
    names: Seq<Seq<char>>,
    from: Seq<PathView>,
    back: Seq<PathView>,
    mode: RecoveryMode,
    k: int,
)
    requires
        aside_ready(d, b, stage, sources),
        e == shifted(d, sources, asides(b, stage, sources), sources.len() as int),
        rooted(e),
        e.dom().finite(),
        from == names.map_values(|x: Seq<char>| stage.push(x)),
        back == names.map_values(|x: Seq<char>| home_of(b, x)),
        shiftable(e, from, back),
        0 <= k <= names.len(),
        forall|i: int|
            0 <= i < names.len() ==> exists|j: int|
                0 <= j < sources.len() && from[i] == #[trigger] asides(b, stage, sources)[j]
                    && back[i] == sources[j] && #[trigger] names[i] == staged_text(
                    locator_of(b, sources[j]),
                ),
    ensures
        recover_first(e, b, stage, names, mode, k) == (
            shifted(e, from, back, k),
            Ok::<(), ErrorView>(()),
        ),
        rooted(shifted(e, from, back, k)),
        shifted(e, from, back, k).dom().finite(),
    decreases k,
{
    if k > 0 {
        lemma_recovering(d, e, b, stage, sources, names, from, back, mode, k - 1);
        let n = sources.len() as int;
        let to = asides(b, stage, sources);
        lemma_asides(d, b, stage, sources);
        lemma_shifted(d, sources, to, n);
        lemma_shifted(e, from, back, k - 1);
        let was = shifted(e, from, back, k - 1);
        let name = names[k - 1];
        let j = choose|j: int|
            0 <= j < sources.len() && from[k - 1] == #[trigger] to[j] && back[k - 1] == sources[j]
                && name == staged_text(locator_of(b, sources[j]));
        let s = sources[j];
        let x = from[k - 1];
        lemma_locator(d, b, s);
        assert(shard_file(d, b, s));
        let l = locator_of(b, s);
        let dir = shard_dir_of(b, l.shard);
        assert(dir == s.drop_last()) by {
            assert(dir.push(l.filename).drop_last() =~= dir);
        }
        // The directory is there.
        lemma_rooted_at(d, s);
        assert(path_parent(dir) is None || is_dir_at(d, dir));
        if path_parent(dir) is Some {
            assert forall|i: int| 0 <= i < n implies #[trigger] sources[i] != dir by {
                assert(shard_file(d, b, sources[i]));
            }
            assert forall|i: int| 0 <= i < n implies #[trigger] to[i] != dir by {
                assert(!d.contains_key(to[i]));
            }
            assert(same_at(d, e, dir));
            assert forall|i: int| 0 <= i < k - 1 implies #[trigger] from[i] != dir by {
                let u = choose|u: int|
                    0 <= u < n && from[i] == #[trigger] to[u] && back[i] == sources[u] && names[i]
                        == staged_text(locator_of(b, sources[u]));
                assert(names[i] == names[i]);
                assert(!d.contains_key(to[u]));
            }
            assert forall|i: int| 0 <= i < k - 1 implies #[trigger] back[i] != dir by {
                assert(!e.contains_key(back[i]));
            }
            assert(same_at(e, was, dir));
        }
        lemma_dirs_there(was, dir);
        assert(!e.contains_key(back[k - 1]));
        assert(e.contains_key(from[k - 1]));
        assert(same_at(e, was, s));
        assert(same_at(e, was, x));
        assert(recovered_name(was, dir, name, l.filename, mode) == Ok::<Seq<char>, ErrorView>(
            l.filename,
        ));
        assert(e[to[j]] == d[sources[j]]);
        assert(is_file_at(was, x));
        assert(parent_ready(was, s));
        assert(rename_op(was, x, s) == OpView::Move(x, s));
        assert(can_rename(was, x, s));
        law_changes_keep_the_tree_rooted(was, OpView::Move(x, s));
        assert(x == stage.push(name));
    }
}

/// Whatever a staging directory holds, putting it back overwrites nothing: all
/// that stands outside of it stays as it is.
pub proof fn law_recovery_overwrites_nothing(
    d: DiskView,
    b: BaseView,
    stage: PathView,
    mode: RecoveryMode,
)
    requires
        rooted(d),
        d.dom().finite(),
    ensures
        forall|q: PathView|
            d.contains_key(q) && !stage.is_prefix_of(q) ==> #[trigger] same_at(
                d,
                recovered(d, b, stage, mode).0,
                q,
            ),
{
    let names = names_in(d, stage);
    lemma_recovery_keeps(d, b, stage, names, mode, names.len() as int);
    let d1 = recover_first(d, b, stage, names, mode, names.len() as int).0;
    assert forall|q: PathView| d.contains_key(q) && !stage.is_prefix_of(q) implies
        #[trigger] same_at(d, recovered(d, b, stage, mode).0, q) by {
        assert(same_at(d, d1, q));
    }
}

pub proof fn lemma_recovery_keeps(
    d: DiskView,
    b: BaseView,
    stage: PathView,
    names: Seq<Seq<char>>,
    mode: RecoveryMode,
    k: int,
)
    requires
        rooted(d),
        d.dom().finite(),
    ensures
        rooted(recover_first(d, b, stage, names, mode, k).0),
        recover_first(d, b, stage, names, mode, k).0.dom().finite(),
        forall|q: PathView|
            d.contains_key(q) && !stage.is_prefix_of(q) ==> #[trigger] same_at(
                d,
                recover_first(d, b, stage, names, mode, k).0,
                q,
            ),
    decreases k,
{
    if k > 0 {
        lemma_recovery_keeps(d, b, stage, names, mode, k - 1);
        let (d1, r) = recover_first(d, b, stage, names, mode, k - 1);
        if r is Ok {
            let d2 = recover_first(d, b, stage, names, mode, k).0;
            lemma_recover_one_keeps(d1, b, stage, names[k - 1], mode);
            assert forall|q: PathView| d.contains_key(q) && !stage.is_prefix_of(q) implies
                #[trigger] same_at(d, d2, q) by {
                assert(same_at(d, d1, q));
                assert(same_at(d1, d2, q));
            }
        }
    }
}

proof fn lemma_recover_one_keeps(
    d: DiskView,
    b: BaseView,
    stage: PathView,
    name: Seq<char>,
    mode: RecoveryMode,
)
    requires
        rooted(d),
        d.dom().finite(),
    ensures
        rooted(recover_one(d, b, stage, name, mode).0),
        recover_one(d, b, stage, name, mode).0.dom().finite(),
        forall|q: PathView|
            d.contains_key(q) && !stage.is_prefix_of(q) ==> #[trigger] same_at(
                d,
                recover_one(d, b, stage, name, mode).0,
                q,
            ),
{
    if staged_of(name) is Ok {
        let l = staged_of(name)->Ok_0;
        let dir = shard_dir_of(b, l.shard);
        if dirs_possible(d, dir) {
            crate::disk::lemma_with_dirs(d, dir);
            let d1 = with_dirs(d, dir);
            super::naming::lemma_free_from(d1, dir, 1);
            if recovered_name(d1, dir, name, l.filename, mode) is Ok {
                let x = stage.push(name);
                let y = dir.push(recovered_name(d1, dir, name, l.filename, mode)->Ok_0);
                assert(!d1.contains_key(y));
                if can_rename(d1, x, y) {
                    let e = renamed(d1, x, y);
                    law_changes_keep_the_tree_rooted(d1, rename_op(d1, x, y));
                    lemma_push_prefix(stage, name);
                    assert forall|q: PathView| d.contains_key(q) && !stage.is_prefix_of(q) implies
                        #[trigger] same_at(d, e, q) by {
                        if x.is_prefix_of(q) {
                            crate::disk::lemma_prefix_trans(stage, x, q);
                        }
                        assert(d1.contains_key(q));
                        if y.is_prefix_of(q) {
                            lemma_below_exists(d1, y, q);
                        }
                        assert(x =~= x.take(x.len() as int));
                        assert(q != x);
                    }
                }
            }
        }
    }
}

// ---------------------------------------------------------------------------
// Clearing
// ---------------------------------------------------------------------------

/// Every name in the tree is one component.
pub open spec fn plain_tree(d: DiskView) -> bool {
    forall|q: PathView| #[trigger] d.contains_key(q) ==> plain_name(q.last())
}

/// The shard directories of a profile are equally deep, and none is a root.
pub proof fn lemma_shard_dir(b: BaseView, n: nat)
    requires
        base_ok(b),
        valid_shard(n),
    ensures
        shard_dir_of(b, n).len() == b.path.len(),
        path_parent(shard_dir_of(b, n)) is Some,
        path_parent(b.path) is Some,
{
    reveal_strlit("addons");
    assert("addons"@.len() == 6);
    assert(b.path[b.citadel.len() as int] == "addons"@);
    assert(shard_dir_of(b, n)[b.citadel.len() as int].len() > 0);
}

/// The tree once a staging directory is there.
pub proof fn lemma_claimed(d: DiskView, b: BaseView, stage: PathView, sources: Seq<PathView>)
    requires
        rooted(d),
        d.dom().finite(),
        base_ok(b),
        stage.len() == b.path.len() + 1,
        claimed(d, stage) is Ok,
        sources.no_duplicates(),
        forall|i: int| 0 <= i < sources.len() ==> shard_file(d, b, #[trigger] sources[i]),
    ensures
        aside_ready(claimed(d, stage)->Ok_0, b, stage, sources),
        forall|q: PathView|
            is_file_at(d, q) || is_file_at(claimed(d, stage)->Ok_0, q) ==> #[trigger] same_at(
                d,
                claimed(d, stage)->Ok_0,
                q,
            ),
{
    let e = claimed(d, stage)->Ok_0;
    crate::disk::lemma_with_dirs(d, stage);
    assert(stage =~= stage.take(stage.len() as int));
    assert(stage.is_prefix_of(stage));
    lemma_shard_dir(b, 1);
    assert(path_parent(stage) is Some) by {
        assert(stage.len() > 1);
    }
    assert forall|q: PathView| is_below(stage, q) implies !#[trigger] e.contains_key(q) by {
        if d.contains_key(q) {
            lemma_below_exists(d, stage, q);
        }
    }
    assert forall|i: int| 0 <= i < sources.len() implies shard_file(e, b, #[trigger] sources[i]) by {
        assert(shard_file(d, b, sources[i]));
    }
}

/// Dropping empty shards touches no file, and nothing but shard directories.
pub proof fn lemma_pruned_files(d: DiskView, b: BaseView, n: nat)
    requires
        n <= MAX_SHARDS,
    ensures
        forall|q: PathView|
            pruned_to(d, b, n).contains_key(q) || is_file_at(d, q) ==> #[trigger] same_at(
                d,
                pruned_to(d, b, n),
                q,
            ),
        forall|q: PathView|
            (forall|m: nat| valid_shard(m) ==> #[trigger] shard_dir_of(b, m) != q)
                ==> #[trigger] same_at(d, pruned_to(d, b, n), q),
    decreases n,
{
    if n > 1 {
        lemma_pruned_files(d, b, (n - 1) as nat);
        let was = pruned_to(d, b, (n - 1) as nat);
        let now = pruned_to(d, b, n);
        assert forall|q: PathView| now.contains_key(q) || is_file_at(d, q) implies
            #[trigger] same_at(d, now, q) by {
            assert(same_at(d, was, q));
        }
        assert forall|q: PathView|
            (forall|m: nat| valid_shard(m) ==> #[trigger] shard_dir_of(b, m) != q) implies
            #[trigger] same_at(d, now, q) by {
            assert(same_at(d, was, q));
            assert(valid_shard(n));
            assert(shard_dir_of(b, n) != q);
        }
    }
}

/// The files that clearing sets aside are the VPK files of the shards, each once.
proof fn lemma_vpks(d: DiskView, b: BaseView, n: nat)
    requires
        rooted(d),
        d.dom().finite(),
        plain_tree(d),
        base_ok(b),
        n <= MAX_SHARDS,
        vpks_to(d, b, n) is Ok,
    ensures
        vpks_to(d, b, n)->Ok_0.no_duplicates(),
        forall|s: PathView| #[trigger]
            vpks_to(d, b, n)->Ok_0.contains(s) ==> shard_file(d, b, s) && vpk_name(s.last())
                && locator_of(b, s).shard <= n,
        forall|s: PathView|
            #![trigger vpks_to(d, b, n)->Ok_0.contains(s)]
            shard_file(d, b, s) && vpk_name(s.last()) && locator_of(b, s).shard <= n ==> vpks_to(
                d,
                b,
                n,
            )->Ok_0.contains(s),
    decreases n,
{
    let all = vpks_to(d, b, n)->Ok_0;
    if n == 0 {
        assert forall|s: PathView| #[trigger] all.contains(s) <==> shard_file(d, b, s) && vpk_name(
            s.last(),
        ) && locator_of(b, s).shard <= n by {
            if shard_file(d, b, s) {
                lemma_locator(d, b, s);
            }
        }
    } else {
        let k = (n - 1) as nat;
        lemma_vpks(d, b, k);
        let old_ones = vpks_to(d, b, k)->Ok_0;
        let dir = shard_dir_of(b, n);
        lemma_shard_dir(b, n);
        law_shard_of_dir_inverts_shard_dir(b, n);
        let names = vpk_names_in(d, dir);
        let pred = |x: Seq<char>| is_file_at(d, dir.push(x)) && vpk_name(x);
        lemma_finite_has_order::<TreePath, NodeView>(d);
        lemma_names_in(d, dir);
        lemma_filter_members(names_in(d, dir), pred);
        crate::disk::lemma_filter_distinct(names_in(d, dir), pred);
        assert forall|s: PathView| #[trigger] all.contains(s) <==> shard_file(d, b, s) && vpk_name(
            s.last(),
        ) && locator_of(b, s).shard <= n by {
            assert(old_ones.contains(s) <==> shard_file(d, b, s) && vpk_name(s.last())
                && locator_of(b, s).shard <= k);
            if all.contains(s) && !old_ones.contains(s) {
                let i = choose|i: int| 0 <= i < all.len() && all[i] == s;
                if i < old_ones.len() {
                    assert(old_ones[i] == s);
                }
                let j = i - old_ones.len();
                assert(s == dir.push(names[j]));
                assert(names.contains(names[j]));
                assert(s.drop_last() =~= dir);
                assert(s.last() == names[j]);
            }
            if shard_file(d, b, s) && vpk_name(s.last()) && locator_of(b, s).shard <= n {
                lemma_locator(d, b, s);
                if old_ones.contains(s) {
                    let i = choose|i: int| 0 <= i < old_ones.len() && old_ones[i] == s;
                    assert(all[i] == s);
                } else {
                    assert(locator_of(b, s).shard == n);
                    assert(s == dir.push(s.last()));
                    lemma_rooted_at(d, s);
                    assert(s.drop_last() =~= dir);
                    assert(is_dir_at(d, dir));
                    assert(names_in(d, dir).contains(s.last()));
                    assert(names.contains(s.last()));
                    let j = choose|j: int| 0 <= j < names.len() && names[j] == s.last();
                    assert(all[old_ones.len() + j] == s);
                }
            }
        }
        assert forall|i: int, j: int| 0 <= i < all.len() && 0 <= j < all.len() && i != j implies
            all[i] != all[j] by {
            let m = old_ones.len() as int;
            if i < m && j < m {
                assert(old_ones[i] != old_ones[j]);
            } else if i >= m && j >= m {
                assert(names[i - m] != names[j - m]);
                assert(all[i].last() == names[i - m]);
                assert(all[j].last() == names[j - m]);
            } else {
                let o = if i < m {
                    i
                } else {
                    j
                };
                let w = if i < m {
                    j
                } else {
                    i
                };
                assert(old_ones.contains(old_ones[o]));
                assert(all[w].drop_last() =~= dir);
                assert(all[o] == old_ones[o]);
            }
        }
    }
}

/// Clearing a profile sets every VPK file of its shards aside, enabled or not, and
/// leaves every other file as it was.
pub proof fn law_clearing_leaves_no_vpk(d: DiskView, p: PathView, e: DiskView)
    requires
        rooted(d),
        d.dom().finite(),
        plain_tree(d),
        cleared(d, p) == Ok::<DiskView, ErrorView>(e),
    ensures
        forall|n: nat, name: Seq<char>|
            valid_shard(n) && vpk_name(name) ==> !is_file_at(
                e,
                #[trigger] shard_dir_of(base_of(p, true)->0, n).push(name),
            ),
        forall|q: PathView|
            is_file_at(d, q) && !(shard_file(d, base_of(p, true)->0, q) && vpk_name(q.last()))
                ==> #[trigger] same_at(d, e, q),
        forall|q: PathView|
            is_file_at(e, q) && !is_below(p.push(CLEAR_STAGING_DIR@), q) ==> #[trigger] same_at(
                d,
                e,
                q,
            ),
{
    let b = base_of(p, true)->0;
    let stage = p.push(CLEAR_STAGING_DIR@);
    let sources = vpks_to(d, b, MAX_SHARDS as nat)->Ok_0;
    let d1 = claimed(d, stage)->Ok_0;
    let steps = staging_plan(b, stage, sources, sources.len() as int)->Ok_0;
    let n = sources.len() as int;
    lemma_base_ok(p, true);
    lemma_vpks(d, b, MAX_SHARDS as nat);
    assert forall|i: int| 0 <= i < n implies shard_file(d, b, #[trigger] sources[i]) by {
        assert(sources.contains(sources[i]));
    }
    lemma_claimed(d, b, stage, sources);
    lemma_aside_runs(d1, b, stage, sources, steps, n);
    lemma_asides(d1, b, stage, sources);
    let to = asides(b, stage, sources);
    lemma_shifted(d1, sources, to, n);
    let d2 = shifted(d1, sources, to, n);
    lemma_pruned_files(d2, b, MAX_SHARDS as nat);
    assert forall|q: PathView| is_file_at(e, q) && !is_below(stage, q) implies #[trigger] same_at(
        d,
        e,
        q,
    ) by {
        assert(same_at(d2, e, q));
        assert forall|i: int| 0 <= i < n implies #[trigger] to[i] != q by {
            assert(is_below(stage, to[i]));
        }
        assert forall|i: int| 0 <= i < n implies #[trigger] sources[i] != q by {
            assert(!d2.contains_key(sources[i]));
        }
        assert(same_at(d1, d2, q));
        assert(same_at(d, d1, q));
    }
    assert forall|m: nat, name: Seq<char>| valid_shard(m) && vpk_name(name) implies !is_file_at(
        e,
        #[trigger] shard_dir_of(b, m).push(name),
    ) by {
        let dir = shard_dir_of(b, m);
        let q = dir.push(name);
        if is_file_at(e, q) {
            lemma_shard_dir(b, m);
            if is_below(stage, q) {
                assert(q.len() == stage.len());
            }
            assert(same_at(d, e, q));
            law_shard_of_dir_inverts_shard_dir(b, m);
            assert(q.drop_last() =~= dir);
            assert(shard_file(d, b, q));
            assert(sources.contains(q));
            let i = choose|i: int| 0 <= i < n && sources[i] == q;
            assert(!d2.contains_key(sources[i]));
            assert(same_at(d2, e, q));
        }
    }
    assert forall|q: PathView| is_file_at(d, q) && !(shard_file(d, b, q) && vpk_name(
        q.last(),
    )) implies #[trigger] same_at(d, e, q) by {
        assert(same_at(d, d1, q));
        assert forall|i: int| 0 <= i < n implies #[trigger] sources[i] != q by {
            assert(sources.contains(sources[i]));
        }
        assert forall|i: int| 0 <= i < n implies #[trigger] to[i] != q by {
            assert(!d1.contains_key(to[i]));
        }
        assert(same_at(d1, d2, q));
        assert(same_at(d2, e, q));
    }
}

/// Carrying out a plan keeps everything in a directory.
pub proof fn lemma_run_keeps(d: DiskView, steps: Seq<StepView>, k: int)
    requires
        rooted(d),
        d.dom().finite(),
        0 <= k <= steps.len(),
        run_first(d, steps, k) is Ok,
    ensures
        rooted(run_first(d, steps, k)->Ok_0),
        run_first(d, steps, k)->Ok_0.dom().finite(),
    decreases k,
{
    if k > 0 {
        lemma_run_keeps(d, steps, k - 1);
        let m = run_first(d, steps, k - 1)->Ok_0;
        match steps[k - 1] {
            StepView::MakeDirs(p) => {
                crate::disk::lemma_with_dirs(m, p);
            },
            StepView::Rename(a, b) => {
                law_changes_keep_the_tree_rooted(m, rename_op(m, a, b));
            },
            StepView::Copy(a, b) => {
                law_changes_keep_the_tree_rooted(m, OpView::Copy(a, b));
            },
        }
    }
}

/// Dropping empty shards keeps everything in a directory.
pub proof fn lemma_pruned_keeps(d: DiskView, b: BaseView, n: nat)
    requires
        rooted(d),
        d.dom().finite(),
    ensures
        rooted(pruned_to(d, b, n)),
        pruned_to(d, b, n).dom().finite(),
    decreases n,
{
    if n > 1 {
        lemma_pruned_keeps(d, b, (n - 1) as nat);
        let m = pruned_to(d, b, (n - 1) as nat);
        let dir = shard_dir_of(b, n);
        if m.contains_key(dir) && m[dir] == folder() && names_in(m, dir).len() == 0 {
            law_changes_keep_the_tree_rooted(m, OpView::RemoveDir(dir));
        }
    }
}

} // verus!
