//! A refused removal.
use super::{
    all_made, answered, change_tried, lemma_answered_append, lemma_made, lemma_none_kept,
    next_task, refused_at, started, RunnerView, TaskView,
};
use crate::disk::{
    exists_at, is_dir_at, legal, legal_list, moved_tree, parent_ready, replay, rooted,
    without_tree, Disk, DiskView, OpView,
};
use crate::journal::{
    added, grew, is_commit, lemma_append, lemma_move_tree_back, moves_of, removals_of, removes,
    side_by_side,
};
use crate::path::{path_parent, PathView};
use vstd::prelude::*;

verus! {

spec fn below_some(to: Seq<PathView>, j: int, p: PathView) -> bool {
    exists|l: int| 0 <= l < j && (#[trigger] to[l]).is_prefix_of(p)
}

/// A tree without the first `j` of a list of directories.
spec fn cleared(d: DiskView, to: Seq<PathView>, j: int) -> DiskView {
    d.restrict(Set::new(|p: PathView| !below_some(to, j, p)))
}

/// What takes the first `i` of a list of moves back.
spec fn ways_back(from: Seq<PathView>, to: Seq<PathView>, i: int) -> Seq<OpView> {
    Seq::new(i as nat, |l: int| OpView::MoveTree(to[l], from[l]))
}

spec fn moved_first(d: DiskView, from: Seq<PathView>, to: Seq<PathView>, i: int) -> DiskView {
    replay(d, moves_of(from, to).take(i))
}

proof fn lemma_one_prefix(s: PathView, t: PathView, p: PathView)
    requires
        s.len() == t.len(),
        s.is_prefix_of(p),
        t.is_prefix_of(p),
    ensures
        s == t,
{
    assert(s =~= p.take(s.len() as int));
    assert(t =~= p.take(t.len() as int));
}

/// Moving a directory back does not meddle with those that are gone.
proof fn lemma_back_beside(
    d: DiskView,
    from: Seq<PathView>,
    to: Seq<PathView>,
    i: int,
    j: int,
)
    requires
        side_by_side(from, to),
        0 <= j <= i < to.len(),
        legal(d, OpView::MoveTree(to[i], from[i])),
    ensures
        legal(cleared(d, to, j), OpView::MoveTree(to[i], from[i])),
        moved_tree(cleared(d, to, j), to[i], from[i]) == cleared(
            moved_tree(d, to[i], from[i]),
            to,
            j,
        ),
{
    let a = to[i];
    let b = from[i];
    let c = cleared(d, to, j);
    assert forall|p: PathView| a.is_prefix_of(p) || b.is_prefix_of(p) implies !#[trigger] below_some(
        to,
        j,
        p,
    ) by {
        if below_some(to, j, p) {
            let l = choose|l: int| 0 <= l < j && (#[trigger] to[l]).is_prefix_of(p);
            assert(to[l] != to[i]);
            assert(from[i] != to[l]);
            assert(from[i].len() == to[l].len());
            assert(from[i].len() == to[i].len());
            if a.is_prefix_of(p) {
                lemma_one_prefix(to[l], a, p);
            } else {
                lemma_one_prefix(to[l], b, p);
            }
        }
    }
    assert(a.is_prefix_of(a)) by {
        assert(a =~= a.take(a.len() as int));
    }
    assert(is_dir_at(c, a));
    assert(!exists_at(c, b));
    assert(parent_ready(c, b)) by {
        let q = b.drop_last();
        if path_parent(q) is Some {
            if below_some(to, j, q) {
                let l = choose|l: int| 0 <= l < j && (#[trigger] to[l]).is_prefix_of(q);
                assert(from[i].len() == to[l].len());
            }
        }
    }
    let e = moved_tree(c, a, b);
    let f = cleared(moved_tree(d, a, b), to, j);
    assert forall|p: PathView| #[trigger] e.contains_key(p) <==> f.contains_key(p) by {
        if b.is_prefix_of(p) {
            let q = a + p.skip(b.len() as int);
            assert(a =~= q.take(a.len() as int));
            assert(!below_some(to, j, q));
        }
    }
    assert forall|p: PathView| #[trigger] e.contains_key(p) implies e[p] == f[p] by {
        if b.is_prefix_of(p) {
            let q = a + p.skip(b.len() as int);
            assert(a =~= q.take(a.len() as int));
            assert(!below_some(to, j, q));
        }
    }
    assert(e =~= f);
}

proof fn lemma_cleared_step(d: DiskView, to: Seq<PathView>, j: int)
    requires
        0 <= j < to.len(),
    ensures
        without_tree(cleared(d, to, j), to[j]) == cleared(d, to, j + 1),
{
    assert forall|p: PathView| #[trigger] below_some(to, j + 1, p) <==> below_some(to, j, p)
        || to[j].is_prefix_of(p) by {
        if below_some(to, j + 1, p) {
            let l = choose|l: int| 0 <= l < j + 1 && (#[trigger] to[l]).is_prefix_of(p);
            if l < j {
                assert(below_some(to, j, p));
            }
        }
        if below_some(to, j, p) {
            let l = choose|l: int| 0 <= l < j && (#[trigger] to[l]).is_prefix_of(p);
            assert(to[l].is_prefix_of(p));
        }
    }
    assert(without_tree(cleared(d, to, j), to[j]) =~= cleared(d, to, j + 1));
}

proof fn lemma_cleared_replay(d: DiskView, to: Seq<PathView>, j: int)
    requires
        0 <= j <= to.len(),
    ensures
        replay(d, removals_of(to.take(j))) == cleared(d, to, j),
    decreases j,
{
    let x = removals_of(to.take(j));
    if j == 0 {
        assert(x =~= Seq::<OpView>::empty());
        assert(cleared(d, to, 0) =~= d);
    } else {
        lemma_cleared_replay(d, to, j - 1);
        assert(x.drop_last() =~= removals_of(to.take(j - 1)));
        lemma_cleared_step(d, to, j - 1);
    }
}

/// The runner once the first `k` changes are made.
#[verifier::rlimit(30)]
proof fn lemma_so_far(
    d: DiskView,
    x: Seq<OpView>,
    from: Seq<PathView>,
    to: Seq<PathView>,
    m: int,
    k: int,
)
    requires
        rooted(d),
        d.dom().finite(),
        legal_list(d, x),
        removes(d, x, from, to, m),
        0 <= k <= from.len() + m,
    ensures
        ({
            let n = from.len() as int;
            let r = answered(started(d, x), all_made(k as nat));
            &&& r.undo == ways_back(from, to, if k < n { k } else { n })
            &&& r.whole == (k <= n)
        }),
    decreases k,
{
    let n = from.len() as int;
    let all = all_made(k as nat);
    if k == 0 {
        assert(ways_back(from, to, 0) =~= Seq::<OpView>::empty());
    } else {
        lemma_so_far(d, x, from, to, m, k - 1);
        lemma_made(d, x, k - 1);
        assert(all.drop_last() =~= all_made((k - 1) as nat));
        let r = answered(started(d, x), all.drop_last());
        let op = x[k - 1];
        assert(x =~= x.take(k) + x.skip(k));
        lemma_append(d, x.take(k), x.skip(k));
        assert(x.take(k).drop_last() =~= x.take(k - 1));
        assert(legal(r.tree, op));
        if k <= n {
            assert(op == OpView::MoveTree(from[k - 1], to[k - 1]));
            assert(ways_back(from, to, k) =~= ways_back(from, to, k - 1).push(
                OpView::MoveTree(to[k - 1], from[k - 1]),
            ));
        } else {
            assert(op is RemoveTree);
        }
    }
}

/// A runner that has taken all but the first `i` moves back.
spec fn back_to(
    d: DiskView,
    r: RunnerView,
    from: Seq<PathView>,
    to: Seq<PathView>,
    j: int,
    i: int,
) -> RunnerView {
    RunnerView {
        tree: cleared(
            moved_first(
                d,
                from,
                to,
                if i < j {
                    j
                } else {
                    i
                },
            ),
            to,
            j,
        ),
        undo: ways_back(from, to, i),
        ..r
    }
}

proof fn lemma_one_back(
    d: DiskView,
    r: RunnerView,
    from: Seq<PathView>,
    to: Seq<PathView>,
    j: int,
    i: int,
)
    requires
        rooted(d),
        d.dom().finite(),
        side_by_side(from, to),
        legal_list(d, moves_of(from, to)),
        0 <= j <= to.len(),
        0 < i <= to.len(),
        r.failed,
        r.whole == (j == 0),
    ensures
        change_tried(back_to(d, r, from, to, j, i), true) == back_to(d, r, from, to, j, i - 1),
{
    let x = moves_of(from, to);
    let now = back_to(d, r, from, to, j, i);
    let back = OpView::MoveTree(to[i - 1], from[i - 1]);
    assert(now.undo.last() == back);
    assert(now.undo.drop_last() =~= ways_back(from, to, i - 1));
    if i > j {
        lemma_made(d, x, i - 1);
        let e = moved_first(d, from, to, i - 1);
        assert(x =~= x.take(i) + x.skip(i));
        lemma_append(d, x.take(i), x.skip(i));
        assert(x.take(i).drop_last() =~= x.take(i - 1));
        assert(x[i - 1] == OpView::MoveTree(from[i - 1], to[i - 1]));
        lemma_move_tree_back(e, from[i - 1], to[i - 1]);
        assert(moved_first(d, from, to, i) == moved_tree(e, from[i - 1], to[i - 1]));
        lemma_back_beside(moved_first(d, from, to, i), from, to, i - 1, j);
    } else {
        assert(to[i - 1].is_prefix_of(to[i - 1])) by {
            assert(to[i - 1] =~= to[i - 1].take(to[i - 1].len() as int));
        }
        assert(below_some(to, j, to[i - 1]));
        assert(!legal(now.tree, back));
    }
}

proof fn lemma_all_back(
    d: DiskView,
    r: RunnerView,
    from: Seq<PathView>,
    to: Seq<PathView>,
    j: int,
    c: nat,
)
    requires
        rooted(d),
        d.dom().finite(),
        side_by_side(from, to),
        legal_list(d, moves_of(from, to)),
        0 <= j <= to.len(),
        r == back_to(d, r, from, to, j, to.len() as int),
        r.failed,
        r.whole == (j == 0),
    ensures
        answered(r, all_made(c)) == back_to(
            d,
            r,
            from,
            to,
            j,
            if c < to.len() {
                to.len() - c
            } else {
                0
            },
        ),
    decreases c,
{
    if c > 0 {
        lemma_all_back(d, r, from, to, j, (c - 1) as nat);
        assert(all_made(c).drop_last() =~= all_made((c - 1) as nat));
        if c <= to.len() {
            lemma_one_back(d, r, from, to, j, to.len() - (c - 1));
        }
    }
}

/// Where a directory of a profile that is moved aside cannot be removed, it is put back,
/// and so are those that would have come after it: the tree is as if only those removed
/// before had ever been moved.
pub proof fn law_a_refused_removal_keeps_the_rest(
    a: Disk,
    b: Disk,
    from: Seq<PathView>,
    to: Seq<PathView>,
    m: int,
    j: int,
)
    requires
        rooted(a@),
        a@.dom().finite(),
        grew(a, b),
        removes(a@, added(a, b), from, to, m),
        0 <= j < m,
    ensures
        ({
            let r = refused_at(a@, added(a, b), from.len() + j);
            &&& r.tree == replay(
                a@,
                moves_of(from.take(j), to.take(j)) + removals_of(to.take(j)),
            )
            &&& next_task(r) == (TaskView::RolledBack { whole: j == 0, committed: false })
        }),
{
    let d = a@;
    let x = added(a, b);
    let n = from.len() as int;
    let k = n + j;
    let moves = moves_of(from, to);
    lemma_append(d, moves, removals_of(to.take(m)));
    lemma_made(d, x, k);
    lemma_so_far(d, x, from, to, m, k);
    let r = answered(started(d, x), all_made(k as nat));
    let refused = all_made(k as nat).push(false);
    assert(refused.drop_last() =~= all_made(k as nat));
    let s = answered(started(d, x), refused);
    assert(s == change_tried(r, false));
    assert forall|i: int| 0 <= i < k implies !is_commit(#[trigger] x[i]) by {
        if i < n {
            assert(x[i] is MoveTree);
        } else {
            assert(x[i] is RemoveTree);
        }
    }
    lemma_none_kept(x, 0, k);
    assert(x[k] == (OpView::RemoveTree { path: to[j], lenient: false }));
    assert(x.take(k) =~= moves + removals_of(to.take(j)));
    lemma_append(d, moves, removals_of(to.take(j)));
    lemma_cleared_replay(replay(d, moves), to, j);
    assert(moves.take(n) =~= moves);
    assert(s == back_to(d, s, from, to, j, n));
    lemma_all_back(d, s, from, to, j, k as nat);
    lemma_answered_append(started(d, x), refused, all_made(k as nat));
    let few = moves_of(from.take(j), to.take(j));
    assert(few =~= moves.take(j));
    lemma_append(d, few, removals_of(to.take(j)));
    lemma_cleared_replay(replay(d, few), to, j);
    assert(ways_back(from, to, 0) =~= Seq::<OpView>::empty());
}

} // verus!
