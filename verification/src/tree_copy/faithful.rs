//! A copied tree holds what is shown of the tree that it is a copy of.
use super::{
    copy_plan, copy_step, copy_target, hidden_above, hidden_part, shown, shown_below,
    tree_copied,
};
use crate::disk::{
    all_paths, copied_node, dirs_possible, exists_at, folder, is_below, is_dir_at, is_file_at,
    law_changes_keep_the_tree_rooted, lemma_below_exists, lemma_filter_ascending,
    lemma_filter_members, lemma_rooted_at, lemma_with_dirs, paths_below, rooted, with_dirs,
    DiskView, NodeView, OpView,
};
use crate::error::ErrorView;
use crate::manifest_store::tidy;
use crate::path::{lemma_path_before_total, lemma_prefix_before, path_parent, PathView, TreePath};
use crate::shard::{
    internal_artifact, CLEAR_STAGING_DIR, DELETE_STAGING_PREFIX, REORDER_STAGING_DIR,
    UPDATE_STAGING_PREFIX,
};
use crate::table::{ascending, lemma_finite_has_order, Key};
use crate::vpk_manager::staging::{run_first, run_step, StepView};
use crate::vpk_manifest::{MANIFEST_FILENAME, MANIFEST_TEMP_FILENAME};
use vstd::prelude::*;

verus! {

/// What stands below `root`, by the way down to it.
pub open spec fn tree_at(d: DiskView, root: PathView) -> DiskView {
    Map::new(|r: PathView| r.len() > 0 && d.contains_key(root + r), |r: PathView| d[root + r])
}

/// What stands at `r` in a copy of the tree at `root` is a copy of this.
pub open spec fn source_of(d: DiskView, root: PathView, r: PathView) -> PathView {
    if r.last() == MANIFEST_FILENAME@ && !exists_at(d, root + r) {
        root + r.drop_last().push(MANIFEST_TEMP_FILENAME@)
    } else {
        root + r
    }
}

/// A copy of the tree at `root` holds something at `r`.
pub open spec fn in_copy(d: DiskView, root: PathView, r: PathView) -> bool {
    &&& r.len() > 0
    &&& r.last() != MANIFEST_TEMP_FILENAME@
    &&& exists_at(d, source_of(d, root, r))
    &&& shown(d, root, source_of(d, root, r))
}

/// What a copy of the tree at `root` holds, by the way down to it.
pub open spec fn tree_shown(d: DiskView, root: PathView) -> DiskView {
    Map::new(
        |r: PathView| in_copy(d, root, r),
        |r: PathView| copied_node(d[source_of(d, root, r)]),
    )
}

/// Neither path leads to the other.
pub open spec fn apart(a: PathView, b: PathView) -> bool {
    !a.is_prefix_of(b) && !b.is_prefix_of(a)
}

/// No directory below `root` is a link.
pub open spec fn dirs_unlinked(d: DiskView, root: PathView) -> bool {
    forall|q: PathView| is_below(root, q) && #[trigger] is_dir_at(d, q) ==> !d[q].linked
}

proof fn lemma_names_differ()
    ensures
        MANIFEST_FILENAME@ != MANIFEST_TEMP_FILENAME@,
        internal_artifact(MANIFEST_TEMP_FILENAME@),
{
    reveal_strlit(".dmm.json");
    reveal_strlit(".dmm.json.tmp");
    assert(MANIFEST_FILENAME@.len() == 9);
    assert(MANIFEST_TEMP_FILENAME@.len() == 13);
}

/// Where the copy of `p` stands below the copy of the tree.
spec fn way_to(src: PathView, p: PathView) -> PathView {
    let rest = p.skip(src.len() as int);
    if p.last() == MANIFEST_TEMP_FILENAME@ {
        rest.drop_last().push(MANIFEST_FILENAME@)
    } else {
        rest
    }
}

pub proof fn lemma_below_parts(root: PathView, r: PathView)
    ensures
        root.is_prefix_of(root + r),
        (root + r).skip(root.len() as int) == r,
        r.len() > 0 ==> is_below(root, root + r) && (root + r).last() == r.last()
            && (root + r).drop_last() == root + r.drop_last(),
{
    assert(root =~= (root + r).take(root.len() as int));
    assert((root + r).skip(root.len() as int) =~= r);
    if r.len() > 0 {
        assert((root + r).drop_last() =~= root + r.drop_last());
    }
}

pub proof fn lemma_below_split(root: PathView, p: PathView)
    requires
        root.is_prefix_of(p),
    ensures
        p == root + p.skip(root.len() as int),
{
    assert(root == p.take(root.len() as int));
    assert(p =~= root + p.skip(root.len() as int));
}

/// What is shown stands in the copy, and is what the copy is made from.
proof fn lemma_way_to(d: DiskView, src: PathView, dst: PathView, p: PathView)
    requires
        is_below(src, p),
        d.contains_key(p),
        shown(d, src, p),
    ensures
        in_copy(d, src, way_to(src, p)),
        source_of(d, src, way_to(src, p)) == p,
        copy_target(src, dst, p) == dst + way_to(src, p),
{
    lemma_names_differ();
    let rest = p.skip(src.len() as int);
    let r = way_to(src, p);
    lemma_below_split(src, p);
    assert(rest.last() == p.last());
    if p.last() == MANIFEST_TEMP_FILENAME@ {
        assert(src + r =~= p.drop_last().push(MANIFEST_FILENAME@));
        assert(src + r.drop_last().push(MANIFEST_TEMP_FILENAME@) =~= p);
    }
}

/// What stands in the copy is made from something shown.
proof fn lemma_way_from(d: DiskView, src: PathView, r: PathView)
    requires
        in_copy(d, src, r),
    ensures
        is_below(src, source_of(d, src, r)),
        way_to(src, source_of(d, src, r)) == r,
{
    lemma_names_differ();
    lemma_below_parts(src, r);
    if r.last() == MANIFEST_FILENAME@ && !exists_at(d, src + r) {
        let t = r.drop_last().push(MANIFEST_TEMP_FILENAME@);
        lemma_below_parts(src, t);
        assert(t.drop_last().push(MANIFEST_FILENAME@) =~= r);
    }
}

/// The paths that are copied, in order.
proof fn lemma_shown_list(d: DiskView, src: PathView)
    requires
        d.dom().finite(),
    ensures
        ascending::<TreePath>(shown_below(d, src)),
        forall|p: PathView| #[trigger]
            shown_below(d, src).contains(p) <==> d.contains_key(p) && is_below(src, p) && shown(
                d,
                src,
                p,
            ),
{
    let all = all_paths(d);
    let below = paths_below(d, src);
    let pred1 = |p: PathView| is_below(src, p);
    let pred2 = |p: PathView| shown(d, src, p);
    lemma_finite_has_order::<TreePath, NodeView>(d);
    lemma_filter_ascending(all, pred1);
    lemma_filter_ascending(below, pred2);
    lemma_filter_members(all, pred1);
    lemma_filter_members(below, pred2);
    assert forall|p: PathView| #[trigger] shown_below(d, src).contains(p) <==> d.contains_key(p)
        && is_below(src, p) && shown(d, src, p) by {
        assert(all.contains(p) <==> d.contains_key(p));
        assert(below.contains(p) <==> all.contains(p) && pred1(p));
    }
}

spec fn lands(src: PathView, dst: PathView, list: Seq<PathView>, i: int) -> PathView {
    copy_target(src, dst, list[i])
}

/// `base` once the first `k` of a list are copied.
spec fn laid(
    d: DiskView,
    base: DiskView,
    src: PathView,
    dst: PathView,
    list: Seq<PathView>,
    k: int,
) -> DiskView
    decreases k,
{
    if k <= 0 {
        base
    } else {
        laid(d, base, src, dst, list, k - 1).insert(
            lands(src, dst, list, k - 1),
            copied_node(d[list[k - 1]]),
        )
    }
}

/// No two paths of the list are copied to one place.
proof fn lemma_lands_differ(d: DiskView, src: PathView, dst: PathView, i: int, j: int)
    requires
        d.dom().finite(),
        0 <= i < shown_below(d, src).len(),
        0 <= j < shown_below(d, src).len(),
        lands(src, dst, shown_below(d, src), i) == lands(src, dst, shown_below(d, src), j),
    ensures
        i == j,
{
    let list = shown_below(d, src);
    lemma_shown_list(d, src);
    assert(list.contains(list[i]));
    assert(list.contains(list[j]));
    lemma_way_to(d, src, dst, list[i]);
    lemma_way_to(d, src, dst, list[j]);
    lemma_below_parts(dst, way_to(src, list[i]));
    lemma_below_parts(dst, way_to(src, list[j]));
    assert(list[i] == list[j]);
    lemma_path_before_total(list[i], list[j]);
    if i < j {
        assert(TreePath::before(list[i], list[j]));
    } else if j < i {
        assert(TreePath::before(list[j], list[i]));
    }
}

proof fn lemma_laid(
    d: DiskView,
    base: DiskView,
    src: PathView,
    dst: PathView,
    list: Seq<PathView>,
    k: int,
)
    requires
        d.dom().finite(),
        list == shown_below(d, src),
        0 <= k <= list.len(),
    ensures
        forall|i: int|
            0 <= i < k ==> laid(d, base, src, dst, list, k).contains_key(
                #[trigger] lands(src, dst, list, i),
            ) && laid(d, base, src, dst, list, k)[lands(src, dst, list, i)] == copied_node(
                d[list[i]],
            ),
        forall|q: PathView|
            (forall|i: int| 0 <= i < k ==> #[trigger] lands(src, dst, list, i) != q) ==> (
            #[trigger] laid(d, base, src, dst, list, k).contains_key(q) <==> base.contains_key(q))
                && (base.contains_key(q) ==> laid(d, base, src, dst, list, k)[q] == base[q]),
    decreases k,
{
    if k > 0 {
        lemma_laid(d, base, src, dst, list, k - 1);
        let was = laid(d, base, src, dst, list, k - 1);
        let now = laid(d, base, src, dst, list, k);
        let at = lands(src, dst, list, k - 1);
        assert forall|i: int| 0 <= i < k implies now.contains_key(
            #[trigger] lands(src, dst, list, i),
        ) && now[lands(src, dst, list, i)] == copied_node(d[list[i]]) by {
            if lands(src, dst, list, i) == at {
                lemma_lands_differ(d, src, dst, i, k - 1);
            }
        }
        assert forall|q: PathView|
            (forall|i: int| 0 <= i < k ==> #[trigger] lands(src, dst, list, i) != q) implies (
        #[trigger] now.contains_key(q) <==> base.contains_key(q)) && (base.contains_key(q)
            ==> now[q] == base[q]) by {
            assert(at != q);
            assert(was.contains_key(q) <==> base.contains_key(q));
        }
    }
}

/// The directory of something shown is shown, and is copied before it.
proof fn lemma_dir_first(d: DiskView, src: PathView, dst: PathView, k: int) -> (j: int)
    requires
        rooted(d),
        d.dom().finite(),
        is_dir_at(d, src),
        0 <= k < shown_below(d, src).len(),
        way_to(src, shown_below(d, src)[k]).len() > 1,
    ensures
        0 <= j < k,
        is_dir_at(d, shown_below(d, src)[j]),
        lands(src, dst, shown_below(d, src), j) == lands(
            src,
            dst,
            shown_below(d, src),
            k,
        ).drop_last(),
{
    let list = shown_below(d, src);
    let p = list[k];
    lemma_shown_list(d, src);
    lemma_names_differ();
    assert(list.contains(p));
    let q = p.drop_last();
    lemma_below_split(src, p);
    lemma_rooted_at(d, src);
    lemma_rooted_at(d, p);
    assert(p.skip(src.len() as int).len() > 1);
    assert(q.len() > src.len());
    assert(src =~= q.take(src.len() as int)) by {
        assert(src == p.take(src.len() as int));
    }
    assert(path_parent(p) == Some(q));
    assert(is_dir_at(d, q));
    let n = q.len() as int;
    assert(!hidden_part(d, p, n));
    assert(p.take(n) =~= q);
    assert(q.last() == p[n - 1]);
    assert(!hidden_above(d, src, q)) by {
        if hidden_above(d, src, q) {
            let m = choose|m: int| src.len() < m < q.len() && #[trigger] hidden_part(d, q, m);
            assert(q.take(m) =~= p.take(m));
            assert(hidden_part(d, p, m));
        }
    }
    assert(shown(d, src, q));
    assert(list.contains(q));
    let j = choose|j: int| 0 <= j < list.len() && list[j] == q;
    assert(q.is_prefix_of(p));
    lemma_prefix_before(q, p);
    lemma_path_before_total(q, p);
    if j > k {
        assert(TreePath::before(list[k], list[j]));
    }
    lemma_way_to(d, src, dst, p);
    lemma_way_to(d, src, dst, q);
    let rp = way_to(src, p);
    let rq = way_to(src, q);
    lemma_below_parts(dst, rp);
    assert(rq =~= rp.drop_last());
    j
}

/// Each step of the plan does what the copy needs.
proof fn lemma_plan_runs(d: DiskView, src: PathView, dst: PathView, k: int)
    requires
        rooted(d),
        d.dom().finite(),
        is_dir_at(d, src),
        path_parent(dst) is Some,
        apart(src, dst),
        dirs_unlinked(d, dst),
        0 <= k <= shown_below(d, src).len(),
        run_first(d, copy_plan(d, src, dst), k + 1) is Ok,
    ensures
        run_first(d, copy_plan(d, src, dst), k + 1) == Ok::<DiskView, ErrorView>(
            laid(d, with_dirs(d, dst), src, dst, shown_below(d, src), k),
        ),
        rooted(laid(d, with_dirs(d, dst), src, dst, shown_below(d, src), k)),
        laid(d, with_dirs(d, dst), src, dst, shown_below(d, src), k).dom().finite(),
    decreases k,
{
    let plan = copy_plan(d, src, dst);
    let list = shown_below(d, src);
    let base = with_dirs(d, dst);
    if k == 0 {
        assert(plan[0] == StepView::MakeDirs(dst));
        assert(run_first(d, plan, 0) == Ok::<DiskView, ErrorView>(d));
        lemma_with_dirs(d, dst);
    } else {
        lemma_plan_runs(d, src, dst, k - 1);
        let was = laid(d, base, src, dst, list, k - 1);
        let p = list[k - 1];
        let t = copy_target(src, dst, p);
        let r = way_to(src, p);
        assert(plan[k] == copy_step(d, src, dst, p));
        lemma_shown_list(d, src);
        assert(list.contains(p));
        lemma_way_to(d, src, dst, p);
        lemma_below_parts(dst, r);
        lemma_laid(d, base, src, dst, list, k - 1);
        // The source is as it was.
        assert(!dst.is_prefix_of(p)) by {
            if dst.is_prefix_of(p) {
                lemma_prefixes_meet(src, dst, p);
            }
        }
        assert forall|i: int| 0 <= i < k - 1 implies #[trigger] lands(src, dst, list, i) != p by {
            assert(list.contains(list[i]));
            lemma_way_to(d, src, dst, list[i]);
            lemma_below_parts(dst, way_to(src, list[i]));
        }
        assert(was.contains_key(p) <==> base.contains_key(p));
        assert(base[p] == d[p]);
        assert(was[p] == d[p]);
        assert forall|i: int| 0 <= i < k - 1 implies #[trigger] lands(src, dst, list, i) != t by {
            if lands(src, dst, list, i) == t {
                assert(lands(src, dst, list, k - 1) == t);
                lemma_lands_differ(d, src, dst, i, k - 1);
            }
        }
        assert(t.len() > dst.len());
        assert(!t.is_prefix_of(dst));
        assert(was.contains_key(t) <==> d.contains_key(t));
        // The directory that it goes to is there.
        let up = t.drop_last();
        assert(path_parent(t) == Some(up)) by {
            assert(dst.len() > 0);
        }
        assert(is_dir_at(was, up)) by {
            if r.len() > 1 {
                let j = lemma_dir_first(d, src, dst, k - 1);
                assert(lands(src, dst, list, j) == up);
            } else {
                assert(r.drop_last() =~= Seq::<Seq<char>>::empty());
                assert(up =~= dst);
                assert forall|i: int| 0 <= i < k - 1 implies #[trigger] lands(src, dst, list, i)
                    != dst by {
                    assert(list.contains(list[i]));
                    lemma_way_to(d, src, dst, list[i]);
                }
                assert(dst.is_prefix_of(dst)) by {
                    assert(dst =~= dst.take(dst.len() as int));
                }
                assert(plan[0] == StepView::MakeDirs(dst));
                lemma_first_made(d, plan, k);
                assert(dst.take(dst.len() as int) =~= dst);
                assert(!is_file_at(d, dst.take(dst.len() as int)));
            }
        }
        if is_dir_at(d, p) && p.last() != MANIFEST_TEMP_FILENAME@ {
            lemma_one_dir(was, t);
            assert(t.take(t.len() as int) =~= t);
            assert(!is_file_at(was, t.take(t.len() as int)));
            if was.contains_key(t) {
                assert(is_below(dst, t));
                assert(is_dir_at(d, t));
                assert(was =~= was.insert(t, folder()));
            } else {
                law_changes_keep_the_tree_rooted(was, OpView::MakeDir(t));
            }
            assert(copied_node(d[p]) == folder());
        } else {
            law_changes_keep_the_tree_rooted(was, OpView::Copy(p, t));
        }
    }
}

proof fn lemma_first_made(d: DiskView, plan: Seq<StepView>, k: int)
    requires
        k >= 1,
        run_first(d, plan, k) is Ok,
    ensures
        run_step(d, plan[0]) is Ok,
    decreases k,
{
    if k > 1 {
        lemma_first_made(d, plan, k - 1);
    } else {
        assert(run_first(d, plan, 0) == Ok::<DiskView, ErrorView>(d));
    }
}

/// Two paths that lead to a third lead one to the other.
pub proof fn lemma_prefixes_meet(a: PathView, b: PathView, p: PathView)
    requires
        a.is_prefix_of(p),
        b.is_prefix_of(p),
    ensures
        a.is_prefix_of(b) || b.is_prefix_of(a),
{
    assert(a == p.take(a.len() as int));
    assert(b == p.take(b.len() as int));
    if a.len() <= b.len() {
        assert(a =~= b.take(a.len() as int));
    } else {
        assert(b =~= a.take(b.len() as int));
    }
}

/// Where the directory above is there, one directory is made.
pub proof fn lemma_one_dir(d: DiskView, t: PathView)
    requires
        rooted(d),
        path_parent(t) is Some,
        is_dir_at(d, t.drop_last()),
    ensures
        with_dirs(d, t) == (if d.contains_key(t) {
            d
        } else {
            d.insert(t, folder())
        }),
{
    let e = with_dirs(d, t);
    let up = t.drop_last();
    assert(up =~= t.take(up.len() as int));
    assert(t.is_prefix_of(t)) by {
        assert(t =~= t.take(t.len() as int));
    }
    assert forall|q: PathView| #[trigger] e.contains_key(q) implies d.contains_key(q) || q == t by {
        if !d.contains_key(q) && q.len() < t.len() {
            assert(q == t.take(q.len() as int));
            assert(q =~= up.take(q.len() as int));
            lemma_below_exists(d, q, up);
        } else if !d.contains_key(q) {
            assert(q =~= t);
        }
    }
    if d.contains_key(t) {
        assert(e =~= d);
    } else {
        assert(e =~= d.insert(t, folder()));
    }
}

/// A copied tree holds what is shown of the tree that was copied, laid over what
/// stood there before. Nothing else is touched.
pub proof fn law_copies_hold_what_is_shown(d: DiskView, src: PathView, dst: PathView, e: DiskView)
    requires
        rooted(d),
        d.dom().finite(),
        path_parent(dst) is Some,
        apart(src, dst),
        dirs_unlinked(d, dst),
        tree_copied(d, src, dst) == Ok::<DiskView, ErrorView>(e),
    ensures
        rooted(e),
        e.dom().finite(),
        is_dir_at(e, dst),
        tree_at(e, dst) == tree_at(d, dst).union_prefer_right(tree_shown(d, src)),
        forall|q: PathView|
            !is_below(dst, q) ==> (#[trigger] e.contains_key(q) <==> with_dirs(
                d,
                dst,
            ).contains_key(q)) && (e.contains_key(q) ==> e[q] == with_dirs(d, dst)[q]),
{
    let plan = copy_plan(d, src, dst);
    let list = shown_below(d, src);
    let base = with_dirs(d, dst);
    let n = list.len() as int;
    assert(plan.len() == n + 1);
    lemma_plan_runs(d, src, dst, n);
    lemma_laid(d, base, src, dst, list, n);
    lemma_shown_list(d, src);
    lemma_first_made(d, plan, n + 1);
    assert(plan[0] == StepView::MakeDirs(dst));
    assert(dirs_possible(d, dst));
    assert(e == laid(d, base, src, dst, list, n));
    assert forall|i: int| 0 <= i < n implies is_below(dst, #[trigger] lands(src, dst, list, i)) by {
        assert(list.contains(list[i]));
        lemma_way_to(d, src, dst, list[i]);
        lemma_below_parts(dst, way_to(src, list[i]));
    }
    assert forall|q: PathView| !is_below(dst, q) implies (#[trigger] e.contains_key(q)
        <==> base.contains_key(q)) && (e.contains_key(q) ==> e[q] == base[q]) by {
        assert forall|i: int| 0 <= i < n implies #[trigger] lands(src, dst, list, i) != q by {}
    }
    assert(is_dir_at(e, dst)) by {
        assert(dst.take(dst.len() as int) =~= dst);
        assert(dst.is_prefix_of(dst));
        assert(!is_file_at(d, dst.take(dst.len() as int)));
        assert(base.contains_key(dst));
        assert(e.contains_key(dst) <==> base.contains_key(dst));
    }
    let got = tree_at(e, dst);
    let want = tree_at(d, dst).union_prefer_right(tree_shown(d, src));
    assert forall|r: PathView|
        (#[trigger] got.contains_key(r) <==> want.contains_key(r)) && (got.contains_key(r)
            ==> got[r] == want[r]) by {
        let q = dst + r;
        if r.len() > 0 {
            lemma_below_parts(dst, r);
            assert(!q.is_prefix_of(dst));
            if in_copy(d, src, r) {
                let p = source_of(d, src, r);
                lemma_way_from(d, src, r);
                lemma_way_to(d, src, dst, p);
                assert(list.contains(p));
                let i = choose|i: int| 0 <= i < n && list[i] == p;
                assert(lands(src, dst, list, i) == q);
            } else {
                assert forall|i: int| 0 <= i < n implies #[trigger] lands(src, dst, list, i) != q by {
                    if lands(src, dst, list, i) == q {
                        assert(list.contains(list[i]));
                        lemma_way_to(d, src, dst, list[i]);
                        lemma_below_parts(dst, way_to(src, list[i]));
                    }
                }
                assert(e.contains_key(q) <==> base.contains_key(q));
                assert(base.contains_key(q) <==> d.contains_key(q));
            }
        }
    }
    assert(got =~= want);
}

/// What is shown of a tree depends on what stands below its root, and not on where
/// the root is.
pub proof fn lemma_shown_by_tree(d: DiskView, root: PathView, e: DiskView, other: PathView)
    requires
        tree_at(d, root) == tree_at(e, other),
    ensures
        tree_shown(d, root) == tree_shown(e, other),
{
    let a = tree_shown(d, root);
    let b = tree_shown(e, other);
    assert forall|r: PathView| #[trigger] a.contains_key(r) implies b.contains_key(r) && b[r]
        == a[r] by {
        lemma_shown_there(d, root, e, other, r);
    }
    assert forall|r: PathView| #[trigger] b.contains_key(r) implies a.contains_key(r) by {
        lemma_shown_there(e, other, d, root, r);
    }
    assert(a =~= b);
}

/// What stands at a place below a root stands there below the other.
proof fn lemma_same_node(d: DiskView, root: PathView, e: DiskView, other: PathView, r: PathView)
    requires
        tree_at(d, root) == tree_at(e, other),
        r.len() > 0,
    ensures
        d.contains_key(root + r) == e.contains_key(other + r),
        d.contains_key(root + r) ==> d[root + r] == e[other + r],
{
    let a = tree_at(d, root);
    let b = tree_at(e, other);
    assert(a.contains_key(r) == d.contains_key(root + r));
    assert(b.contains_key(r) == e.contains_key(other + r));
    assert(a.contains_key(r) ==> a[r] == d[root + r]);
    assert(b.contains_key(r) ==> b[r] == e[other + r]);
}

proof fn lemma_hidden_there(d: DiskView, root: PathView, e: DiskView, other: PathView, r: PathView)
    requires
        tree_at(d, root) == tree_at(e, other),
        hidden_above(d, root, root + r),
    ensures
        hidden_above(e, other, other + r),
{
    let p = root + r;
    let q = other + r;
    let k = choose|k: int| root.len() < k < p.len() && #[trigger] hidden_part(d, p, k);
    let m = k - root.len();
    let n = other.len() + m;
    lemma_same_node(d, root, e, other, r.take(m));
    assert(p.take(k) =~= root + r.take(m));
    assert(q.take(n) =~= other + r.take(m));
    assert(p[k - 1] == q[n - 1]);
    assert(hidden_part(e, q, n));
}

proof fn lemma_shown_there(d: DiskView, root: PathView, e: DiskView, other: PathView, r: PathView)
    requires
        tree_at(d, root) == tree_at(e, other),
        in_copy(d, root, r),
    ensures
        in_copy(e, other, r),
        d[source_of(d, root, r)] == e[source_of(e, other, r)],
{
    lemma_same_node(d, root, e, other, r);
    let s = if r.last() == MANIFEST_FILENAME@ && !exists_at(d, root + r) {
        r.drop_last().push(MANIFEST_TEMP_FILENAME@)
    } else {
        r
    };
    lemma_same_node(d, root, e, other, s);
    lemma_below_parts(root, s);
    lemma_below_parts(other, s);
    let p = root + s;
    let q = other + s;
    if hidden_above(e, other, q) {
        lemma_hidden_there(e, other, d, root, s);
    }
    let m = s.drop_last().push(MANIFEST_FILENAME@);
    lemma_same_node(d, root, e, other, m);
    assert(p.drop_last().push(MANIFEST_FILENAME@) =~= root + m);
    assert(q.drop_last().push(MANIFEST_FILENAME@) =~= other + m);
}

/// What a copy holds belongs to no operation under way, and is no link.
pub proof fn lemma_copy_is_plain(d: DiskView, src: PathView, r: PathView)
    requires
        tree_shown(d, src).contains_key(r),
    ensures
        !internal_artifact(r.last()),
        !tree_shown(d, src)[r].linked,
{
    lemma_below_parts(src, r);
    lemma_plain_manifest_name();
}

/// A copied tree holds nothing that belongs to an operation under way, and no
/// links.
pub proof fn lemma_copy_is_tidy(d: DiskView, src: PathView, e: DiskView, dst: PathView)
    requires
        tree_at(e, dst) == tree_shown(d, src),
    ensures
        tidy(e, dst),
        forall|q: PathView| is_below(dst, q) && #[trigger] e.contains_key(q) ==> !e[q].linked,
{
    assert forall|q: PathView| is_below(dst, q) && #[trigger] e.contains_key(
        q,
    ) implies !internal_artifact(q.last()) && !e[q].linked by {
        lemma_below_split(dst, q);
        let r = q.skip(dst.len() as int);
        assert(r.len() > 0);
        assert(tree_at(e, dst).contains_key(r));
        assert(e[q] == tree_at(e, dst)[r]);
        assert(r.last() == q.last());
        lemma_copy_is_plain(d, src, r);
    }
}

proof fn lemma_plain_manifest_name()
    ensures
        !internal_artifact(MANIFEST_FILENAME@),
{
    lemma_names_differ();
    let name = MANIFEST_FILENAME@;
    reveal_strlit(".dmm.json");
    reveal_strlit(".dmm.json.tmp");
    reveal_strlit(".dmm-clear");
    reveal_strlit(".dmm-reorder");
    reveal_strlit(".dmm-update-");
    reveal_strlit(".dmm-deleting-");
    assert(name.len() == 9);
    assert(".dmm.json.tmp"@.len() == 13);
    assert(CLEAR_STAGING_DIR@.len() == 10);
    assert(REORDER_STAGING_DIR@.len() == 12);
    assert(UPDATE_STAGING_PREFIX@.len() == 12);
    assert(DELETE_STAGING_PREFIX@.len() == 14);
}

/// All of a tidy tree without links is shown.
pub proof fn law_tidy_trees_are_copied_whole(d: DiskView, root: PathView)
    requires
        tidy(d, root),
        forall|q: PathView| is_below(root, q) && #[trigger] d.contains_key(q) ==> !d[q].linked,
        rooted(d),
        path_parent(root) is Some,
    ensures
        tree_shown(d, root) == tree_at(d, root),
{
    let a = tree_shown(d, root);
    let b = tree_at(d, root);
    lemma_names_differ();
    assert forall|r: PathView| #[trigger] b.contains_key(r) implies a.contains_key(r) && a[r]
        == b[r] by {
        let p = root + r;
        lemma_below_parts(root, r);
        if hidden_above(d, root, p) {
            let k = choose|k: int| root.len() < k < p.len() && #[trigger] hidden_part(d, p, k);
            let q = p.take(k);
            assert(q =~= root + r.take(k - root.len()));
            lemma_below_parts(root, r.take(k - root.len()));
            assert(q =~= p.take(q.len() as int));
            assert(q.last() == p[k - 1]);
            lemma_below_exists(d, q, p);
        }
    }
    assert forall|r: PathView| #[trigger] a.contains_key(r) implies b.contains_key(r) by {
        let s = r.drop_last().push(MANIFEST_TEMP_FILENAME@);
        lemma_below_parts(root, s);
        lemma_below_parts(root, r);
    }
    assert(a =~= b);
}

} // verus!
