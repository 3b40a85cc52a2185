//! The order in which changes are noted, and what a failure on the file system
//! therefore leads back to.
use crate::disk::{
    apply, exists_at, folder, is_dir_at, law_changes_keep_the_tree_rooted, legal, legal_list,
    lemma_below_exists, lemma_names_in, lemma_rooted_at, moved_tree, names_in, replay, rooted,
    Disk, DiskView, NodeView, OpView,
};
use crate::path::{path_parent, PathView, TreePath};
use crate::table::lemma_finite_has_order;
use vstd::prelude::*;

verus! {

// ---------------------------------------------------------------------------
// Taking changes back
// ---------------------------------------------------------------------------

/// The change that takes a change of the tree `d` back. Where a file is replaced or
/// a directory is removed with what it holds there is none.
pub open spec fn inverse(d: DiskView, op: OpView) -> Option<OpView> {
    match op {
        OpView::MakeDir(p) => Some(OpView::RemoveDir(p)),
        OpView::Move(a, b) => if exists_at(d, b) {
            None
        } else {
            Some(OpView::Move(b, a))
        },
        OpView::MoveTree(a, b) => Some(OpView::MoveTree(b, a)),
        OpView::Copy(a, b) => if exists_at(d, b) {
            None
        } else {
            Some(OpView::Delete(b))
        },
        OpView::Write(p, m) => if exists_at(d, p) {
            None
        } else {
            Some(OpView::Delete(p))
        },
        OpView::Delete(p) => if exists_at(d, p) {
            Some(OpView::Restore(p, d[p]))
        } else {
            None
        },
        OpView::RemoveDir(p) => Some(OpView::MakeDir(p)),
        OpView::Restore(p, node) => Some(OpView::Delete(p)),
        _ => None,
    }
}

/// A change on which nothing depends.
pub open spec fn is_lenient(op: OpView) -> bool {
    match op {
        OpView::RemoveTree { path, lenient } => lenient,
        OpView::RemoveDir(p) => true,
        _ => false,
    }
}

/// What takes a list of changes back, last change first; `None` if one of them
/// cannot be taken back.
pub open spec fn undo_list(d: DiskView, ops: Seq<OpView>) -> Option<Seq<OpView>>
    decreases ops.len(),
{
    if ops.len() == 0 {
        Some(Seq::empty())
    } else {
        match (
            undo_list(d, ops.drop_last()),
            inverse(replay(d, ops.drop_last()), ops.last()),
        ) {
            (Some(u), Some(i)) => Some(seq![i] + u),
            _ => None,
        }
    }
}

pub proof fn lemma_move_tree_back(d: DiskView, a: PathView, b: PathView)
    requires
        rooted(d),
        legal(d, OpView::MoveTree(a, b)),
    ensures
        moved_tree(moved_tree(d, a, b), b, a) == d,
        legal(moved_tree(d, a, b), OpView::MoveTree(b, a)),
{
    let e = moved_tree(d, a, b);
    let f = moved_tree(e, b, a);
    lemma_rooted_at(d, a);
    assert(!b.is_prefix_of(a)) by {
        if b.is_prefix_of(a) {
            assert(path_parent(b) is Some);
            lemma_below_exists(d, b, a);
        }
    }
    assert forall|p: PathView| #[trigger] f.contains_key(p) <==> d.contains_key(p) by {
        if a.is_prefix_of(p) {
            let q = b + p.skip(a.len() as int);
            assert(b =~= q.take(b.len() as int));
            assert(a + q.skip(b.len() as int) =~= p);
        } else if b.is_prefix_of(p) {
            if d.contains_key(p) {
                lemma_below_exists(d, b, p);
            }
        }
    }
    assert forall|p: PathView| #[trigger] f.contains_key(p) implies f[p] == d[p] by {
        if a.is_prefix_of(p) {
            let q = b + p.skip(a.len() as int);
            assert(b =~= q.take(b.len() as int));
            assert(a + q.skip(b.len() as int) =~= p);
        }
    }
    assert(f =~= d);
    assert(b =~= b.take(b.len() as int));
    assert(a + b.skip(b.len() as int) =~= a);
    assert(is_dir_at(e, b));
    assert(a =~= a.take(a.len() as int));
    assert(!exists_at(e, a));
    let up = a.drop_last();
    if path_parent(up) is Some {
        assert(is_dir_at(d, up));
        assert(!b.is_prefix_of(up)) by {
            if b.is_prefix_of(up) {
                lemma_below_exists(d, b, up);
            }
        }
        assert(!a.is_prefix_of(up));
        assert(is_dir_at(e, up));
    }
}

pub proof fn lemma_taken_back(d: DiskView, op: OpView)
    requires
        rooted(d),
        d.dom().finite(),
        legal(d, op),
        inverse(d, op) is Some,
    ensures
        legal(apply(d, op), inverse(d, op)->0),
        apply(apply(d, op), inverse(d, op)->0) == d,
{
    let e = apply(d, op);
    match op {
        OpView::MakeDir(p) => {
            assert(e.remove(p) =~= d);
            law_changes_keep_the_tree_rooted(d, op);
            lemma_finite_has_order::<TreePath, NodeView>(e);
            lemma_names_in(e, p);
            if names_in(e, p).len() > 0 {
                let n = names_in(e, p)[0];
                assert(names_in(e, p).contains(n));
                let q = p.push(n);
                assert(e.contains_key(q));
                assert(q != p);
                assert(d.contains_key(q));
                lemma_rooted_at(d, q);
                assert(q.drop_last() =~= p);
                assert(path_parent(p) is Some);
            }
        },
        OpView::Move(a, b) => {
            assert(a != b);
            assert(e.remove(b).insert(a, d[a]) =~= d);
            lemma_rooted_at(d, a);
            let up = a.drop_last();
            if path_parent(up) is Some {
                assert(up.len() < a.len());
                assert(is_dir_at(e, up));
            }
        },
        OpView::MoveTree(a, b) => {
            lemma_move_tree_back(d, a, b);
        },
        OpView::Copy(a, b) => {
            assert(e.remove(b) =~= d);
        },
        OpView::Write(p, m) => {
            assert(e.remove(p) =~= d);
        },
        OpView::Delete(p) => {
            assert(e.insert(p, d[p]) =~= d);
            lemma_rooted_at(d, p);
            assert(p.drop_last().len() < p.len());
        },
        OpView::RemoveDir(p) => {
            assert(e.insert(p, folder()) =~= d);
            lemma_rooted_at(d, p);
            assert(p.drop_last().len() < p.len());
        },
        OpView::Restore(p, node) => {
            assert(e.remove(p) =~= d);
        },
        _ => {},
    }
}

pub proof fn lemma_replay_split(d: DiskView, a: OpView, rest: Seq<OpView>)
    ensures
        replay(d, seq![a] + rest) == replay(apply(d, a), rest),
        legal_list(d, seq![a] + rest) <==> legal(d, a) && legal_list(apply(d, a), rest),
    decreases rest.len(),
{
    let all = seq![a] + rest;
    if rest.len() == 0 {
        assert(all.drop_last() =~= Seq::<OpView>::empty());
        assert(all.last() == a);
        assert(replay(d, all.drop_last()) == d);
        assert(legal_list(d, all.drop_last()));
    } else {
        lemma_replay_split(d, a, rest.drop_last());
        assert(all.drop_last() =~= seq![a] + rest.drop_last());
        assert(all.last() == rest.last());
    }
}

pub proof fn lemma_replay_rooted(d: DiskView, ops: Seq<OpView>)
    requires
        rooted(d),
        d.dom().finite(),
        legal_list(d, ops),
    ensures
        rooted(replay(d, ops)),
        replay(d, ops).dom().finite(),
    decreases ops.len(),
{
    if ops.len() > 0 {
        lemma_replay_rooted(d, ops.drop_last());
        law_changes_keep_the_tree_rooted(replay(d, ops.drop_last()), ops.last());
    }
}

/// Taking back a list of changes, the last one first, gives the tree that they
/// were made to. Every step of it can be made.
pub proof fn law_undoing_restores_the_tree(d: DiskView, ops: Seq<OpView>)
    requires
        rooted(d),
        d.dom().finite(),
        legal_list(d, ops),
        undo_list(d, ops) is Some,
    ensures
        replay(replay(d, ops), undo_list(d, ops)->0) == d,
        legal_list(replay(d, ops), undo_list(d, ops)->0),
    decreases ops.len(),
{
    if ops.len() > 0 {
        let before = ops.drop_last();
        let e = replay(d, before);
        law_undoing_restores_the_tree(d, before);
        lemma_replay_rooted(d, before);
        lemma_taken_back(e, ops.last());
        let u = undo_list(d, before)->0;
        let i = inverse(e, ops.last())->0;
        lemma_replay_split(apply(e, ops.last()), i, u);
    }
}


/// A point up to which changes stay.
pub open spec fn is_commit(op: OpView) -> bool {
    op == OpView::Settle || op == OpView::Commit
}

/// A change whose failure ends everything.
pub open spec fn is_hard(op: OpView) -> bool {
    !is_lenient(op) && !is_commit(op)
}

// ---------------------------------------------------------------------------
// Lists of changes
// ---------------------------------------------------------------------------

pub proof fn lemma_append(d: DiskView, a: Seq<OpView>, b: Seq<OpView>)
    ensures
        replay(d, a + b) == replay(replay(d, a), b),
        legal_list(d, a + b) <==> legal_list(d, a) && legal_list(replay(d, a), b),
        undo_list(d, a + b) is Some <==> undo_list(d, a) is Some && undo_list(replay(d, a), b)
            is Some,
    decreases b.len(),
{
    if b.len() == 0 {
        assert(a + b =~= a);
    } else {
        lemma_append(d, a, b.drop_last());
        assert((a + b).drop_last() =~= a + b.drop_last());
        assert((a + b).last() == b.last());
    }
}

/// How many of the first `k` changes stay, whatever fails after them.
pub open spec fn kept_by(x: Seq<OpView>, k: int) -> int
    decreases k,
{
    if k <= 0 {
        0
    } else if is_commit(x[k - 1]) {
        k
    } else {
        kept_by(x, k - 1)
    }
}

/// Of the first `k` changes of the tree `d`, all that do not stay can be taken back.
pub open spec fn can_go_back(d: DiskView, x: Seq<OpView>, k: int) -> bool {
    undo_list(replay(d, x.take(kept_by(x, k))), x.subrange(kept_by(x, k), k)) is Some
}

/// Whenever a change of a list can fail for good, all that do not stay can be taken
/// back; and so they can at its end.
pub open spec fn orderly(d: DiskView, x: Seq<OpView>) -> bool {
    forall|k: int|
        0 <= k <= x.len() && (k == x.len() || is_hard(x[k])) ==> #[trigger] can_go_back(d, x, k)
}

/// A list of changes that is made as a whole or not at all: nothing of it stays
/// before the commit at `n`, and what follows it is done besides.
pub open spec fn commits_at(x: Seq<OpView>, n: int) -> bool {
    &&& 0 <= n < x.len()
    &&& x[n] == OpView::Commit
    &&& forall|i: int| 0 <= i < n ==> !is_commit(#[trigger] x[i])
    &&& forall|i: int| n < i < x.len() ==> !is_hard(#[trigger] x[i])
    &&& is_commit(x.last())
}

/// A list of changes of the tree `d` that is made as a whole or not at all.
pub open spec fn one_transaction(d: DiskView, x: Seq<OpView>) -> bool {
    orderly(d, x) && exists|n: int| #[trigger] commits_at(x, n)
}

proof fn lemma_kept_by(x: Seq<OpView>, k: int)
    requires
        0 <= k <= x.len(),
    ensures
        0 <= kept_by(x, k) <= k,
        kept_by(x, k) > 0 ==> is_commit(x[kept_by(x, k) - 1]),
        forall|i: int| kept_by(x, k) <= i < k ==> !is_commit(#[trigger] x[i]),
    decreases k,
{
    if k > 0 && !is_commit(x[k - 1]) {
        lemma_kept_by(x, k - 1);
    }
}

proof fn lemma_kept_by_append(x: Seq<OpView>, y: Seq<OpView>, k: int)
    requires
        0 <= k <= x.len() + y.len(),
    ensures
        k <= x.len() ==> kept_by(x + y, k) == kept_by(x, k),
        k > x.len() ==> kept_by(x + y, k) == (if kept_by(y, k - x.len()) > 0 {
            x.len() + kept_by(y, k - x.len())
        } else {
            kept_by(x, x.len() as int)
        }),
    decreases k,
{
    if k > 0 {
        lemma_kept_by_append(x, y, k - 1);
        if k <= x.len() {
            assert((x + y)[k - 1] == x[k - 1]);
        } else {
            assert((x + y)[k - 1] == y[k - 1 - x.len()]);
            lemma_kept_by(y, k - 1 - x.len());
        }
    }
}

/// One orderly list after another is orderly.
pub proof fn lemma_orderly_append(d: DiskView, x: Seq<OpView>, y: Seq<OpView>)
    requires
        orderly(d, x),
        orderly(replay(d, x), y),
    ensures
        orderly(d, x + y),
{
    let all = x + y;
    let e = replay(d, x);
    let n = x.len() as int;
    assert forall|k: int|
        0 <= k <= all.len() && (k == all.len() || is_hard(all[k])) implies #[trigger] can_go_back(
        d,
        all,
        k,
    ) by {
        lemma_kept_by_append(x, y, k);
        if k < n {
            assert(all[k] == x[k]);
            assert(can_go_back(d, x, k));
            lemma_kept_by(x, k);
            let c = kept_by(x, k);
            assert(all.take(c) =~= x.take(c));
            assert(all.subrange(c, k) =~= x.subrange(c, k));
        } else {
            let j = k - n;
            assert(j < y.len() ==> all[k] == y[j]);
            assert(can_go_back(e, y, j));
            assert(can_go_back(d, x, n));
            lemma_kept_by(y, j);
            lemma_kept_by(x, n);
            let c = kept_by(y, j);
            if j > 0 && c > 0 {
                assert(all.take(n + c) =~= x + y.take(c));
                lemma_append(d, x, y.take(c));
                assert(all.subrange(n + c, k) =~= y.subrange(c, j));
            } else {
                let b = kept_by(x, n);
                assert(c == 0);
                assert(all.take(b) =~= x.take(b));
                assert(all.subrange(b, k) =~= x.subrange(b, n) + y.subrange(0, j));
                assert(x =~= x.take(b) + x.subrange(b, n));
                lemma_append(d, x.take(b), x.subrange(b, n));
                lemma_append(replay(d, x.take(b)), x.subrange(b, n), y.subrange(0, j));
                assert(y.take(0) =~= Seq::<OpView>::empty());
            }
        }
    }
}

/// Changes that can all be taken back, and then one that perhaps cannot and a
/// commit, are orderly.
proof fn lemma_orderly_settled(d: DiskView, x: Seq<OpView>, op: OpView)
    requires
        undo_list(d, x) is Some || (x.len() > 0 && undo_list(d, x.drop_last()) is Some),
        is_commit(op),
    ensures
        orderly(d, x.push(op)),
{
    let all = x.push(op);
    lemma_no_commit(d, if undo_list(d, x) is Some { x } else { x.drop_last() });
    assert forall|k: int|
        0 <= k <= all.len() && (k == all.len() || is_hard(all[k])) implies #[trigger] can_go_back(
        d,
        all,
        k,
    ) by {
        lemma_kept_by(all, k);
        let c = kept_by(all, k);
        if k == all.len() {
            assert(c == k);
            assert(all.subrange(c, k) =~= Seq::<OpView>::empty());
        } else {
            assert(k < x.len());
            if c > 0 {
                assert(all[c - 1] == x[c - 1]);
                if undo_list(d, x) is None {
                    assert(x.drop_last()[c - 1] == x[c - 1]);
                }
            }
            assert(c == 0);
            assert(all.take(0) =~= Seq::<OpView>::empty());
            assert(all.subrange(0, k) =~= x.take(k));
            if undo_list(d, x) is Some {
                assert(x =~= x.take(k) + x.skip(k));
                lemma_append(d, x.take(k), x.skip(k));
            } else {
                let y = x.drop_last();
                assert(y =~= x.take(k) + y.skip(k));
                lemma_append(d, x.take(k), y.skip(k));
            }
        }
    }
}

/// What can be taken back holds no commit.
proof fn lemma_no_commit(d: DiskView, x: Seq<OpView>)
    requires
        undo_list(d, x) is Some,
    ensures
        forall|i: int| 0 <= i < x.len() ==> !is_commit(#[trigger] x[i]),
    decreases x.len(),
{
    if x.len() > 0 {
        lemma_no_commit(d, x.drop_last());
        assert forall|i: int| 0 <= i < x.len() implies !is_commit(#[trigger] x[i]) by {
            if i < x.len() - 1 {
                assert(x.drop_last()[i] == x[i]);
            }
        }
    }
}

proof fn lemma_undo_orderly(d: DiskView, x: Seq<OpView>)
    requires
        undo_list(d, x) is Some,
    ensures
        orderly(d, x),
{
    lemma_no_commit(d, x);
    assert forall|k: int|
        0 <= k <= x.len() && (k == x.len() || is_hard(x[k])) implies #[trigger] can_go_back(
        d,
        x,
        k,
    ) by {
        lemma_kept_by(x, k);
        if kept_by(x, k) > 0 {
            assert(is_commit(x[kept_by(x, k) - 1]));
        }
        assert(x.take(0) =~= Seq::<OpView>::empty());
        assert(x.subrange(0, k) =~= x.take(k));
        assert(x =~= x.take(k) + x.skip(k));
        lemma_append(d, x.take(k), x.skip(k));
    }
}

/// Changes of which none can fail for good, up to a commit, are orderly.
proof fn lemma_orderly_mild(d: DiskView, x: Seq<OpView>, op: OpView)
    requires
        forall|i: int| 0 <= i < x.len() ==> !is_hard(#[trigger] x[i]),
        is_commit(op),
    ensures
        orderly(d, x.push(op)),
{
    let all = x.push(op);
    assert forall|k: int|
        0 <= k <= all.len() && (k == all.len() || is_hard(all[k])) implies #[trigger] can_go_back(
        d,
        all,
        k,
    ) by {
        if k < x.len() {
            assert(!is_hard(x[k]));
        }
        assert(k == all.len());
        assert(all.subrange(k, k) =~= Seq::<OpView>::empty());
    }
}

// ---------------------------------------------------------------------------
// What is noted between two states of a tree
// ---------------------------------------------------------------------------

/// What was noted since.
pub open spec fn added(a: Disk, b: Disk) -> Seq<OpView> {
    b.notes().skip(a.notes().len() as int)
}

/// The notes have only grown, and tell how the tree came about.
pub open spec fn grew(a: Disk, b: Disk) -> bool {
    &&& b.origin() == a.origin()
    &&& b.notes() == a.notes() + added(a, b)
    &&& legal_list(a@, added(a, b))
    &&& b@ == replay(a@, added(a, b))
}

/// One change was made and noted.
pub open spec fn noted(a: Disk, b: Disk, op: OpView) -> bool {
    &&& b.origin() == a.origin()
    &&& b.notes() == a.notes().push(op)
    &&& legal(a@, op)
    &&& b@ == apply(a@, op)
}

/// Everything that was done can be taken back.
#[verifier::opaque]
pub open spec fn undoable(a: Disk, b: Disk) -> bool {
    grew(a, b) && undo_list(a@, added(a, b)) is Some
}

/// Everything that was done can be taken back, but for the last change.
#[verifier::opaque]
pub open spec fn decided(a: Disk, b: Disk) -> bool {
    let x = added(a, b);
    grew(a, b) && (undo_list(a@, x) is Some || (x.len() > 0 && !is_commit(x.last()) && undo_list(
        a@,
        x.drop_last(),
    ) is Some))
}

/// Nothing that was done can fail for good.
#[verifier::opaque]
pub open spec fn mild(a: Disk, b: Disk) -> bool {
    grew(a, b) && forall|i: int| 0 <= i < added(a, b).len() ==> !is_hard(#[trigger] added(a, b)[i])
}

/// Whenever a change can fail for good, all since the last commit can be taken back.
#[verifier::opaque]
pub open spec fn ordered(a: Disk, b: Disk) -> bool {
    grew(a, b) && orderly(a@, added(a, b))
}

/// All is in order, and stays whatever fails from here on.
#[verifier::opaque]
pub open spec fn rested(a: Disk, b: Disk) -> bool {
    grew(a, b) && orderly(a@, added(a, b)) && added(a, b).len() > 0 && is_commit(added(a, b).last())
}

/// What was done is done as a whole or not at all.
#[verifier::opaque]
pub open spec fn transacted(a: Disk, b: Disk) -> bool {
    grew(a, b) && one_transaction(a@, added(a, b))
}

/// Among what was done, the tree `from` became the tree `to` as a whole or not at
/// all. What came before stays, and all is in order.
#[verifier::opaque]
pub open spec fn went(a: Disk, from: DiskView, to: DiskView, b: Disk) -> bool {
    let x = added(a, b);
    grew(a, b) && orderly(a@, x) && exists|i: int, j: int| #[trigger] passes(a@, x, from, to, i, j)
}

/// Of a list of changes of the tree `d`, those from `i` to `j` lead from one tree to
/// another as a whole or not at all, and those before them stay.
pub open spec fn passes(
    d: DiskView,
    x: Seq<OpView>,
    from: DiskView,
    to: DiskView,
    i: int,
    j: int,
) -> bool {
    &&& 0 < i <= j <= x.len()
    &&& is_commit(x[i - 1])
    &&& replay(d, x.take(i)) == from
    &&& one_transaction(from, x.subrange(i, j))
    &&& replay(from, x.subrange(i, j)) == to
}

/// The directories `from` are moved to `to`, one by one.
pub open spec fn moves_of(from: Seq<PathView>, to: Seq<PathView>) -> Seq<OpView> {
    Seq::new(from.len(), |i: int| OpView::MoveTree(from[i], to[i]))
}

/// Directories are removed, one by one, and not as mere leftovers.
pub open spec fn removals_of(dirs: Seq<PathView>) -> Seq<OpView> {
    Seq::new(dirs.len(), |i: int| OpView::RemoveTree { path: dirs[i], lenient: false })
}

/// Places of one depth, no two of which are the same.
pub open spec fn side_by_side(from: Seq<PathView>, to: Seq<PathView>) -> bool {
    &&& from.len() == to.len()
    &&& forall|i: int, j: int|
        0 <= i < from.len() && 0 <= j < to.len() ==> (#[trigger] from[i]).len() == (
        #[trigger] to[j]).len() && from[i] != to[j]
    &&& forall|i: int, j: int| 0 <= i < j < from.len() ==> #[trigger] from[i] != #[trigger] from[j]
    &&& forall|i: int, j: int| 0 <= i < j < to.len() ==> #[trigger] to[i] != #[trigger] to[j]
}

/// Directories are moved aside first, and only when all are aside are they removed.
#[verifier::opaque]
pub open spec fn moved_then_removed(a: Disk, b: Disk) -> bool {
    grew(a, b) && exists|from: Seq<PathView>, to: Seq<PathView>, m: int| #[trigger]
        removes(a@, added(a, b), from, to, m)
}

/// A list of changes of the tree `d` moves the directories `from` to `to`, all of which
/// can be taken back, and then removes the first `m` of them.
pub open spec fn removes(
    d: DiskView,
    x: Seq<OpView>,
    from: Seq<PathView>,
    to: Seq<PathView>,
    m: int,
) -> bool {
    &&& 0 <= m <= to.len()
    &&& side_by_side(from, to)
    &&& undo_list(d, moves_of(from, to)) is Some
    &&& x == moves_of(from, to) + removals_of(to.take(m))
}

/// The directories `from` were moved to `to`, and nothing else was done.
#[verifier::opaque]
pub open spec fn only_moved(a: Disk, b: Disk, from: Seq<PathView>, to: Seq<PathView>) -> bool {
    &&& grew(a, b)
    &&& from.len() == to.len()
    &&& added(a, b) == moves_of(from, to)
    &&& undo_list(a@, added(a, b)) is Some
}

/// The directories `from` were moved to `to`, and the first `m` of them removed.
#[verifier::opaque]
pub open spec fn partly_removed(
    a: Disk,
    b: Disk,
    from: Seq<PathView>,
    to: Seq<PathView>,
    m: int,
) -> bool {
    grew(a, b) && removes(a@, added(a, b), from, to, m)
}

pub proof fn lemma_only_moved_same(a: Disk, b: Disk)
    requires
        a@ == b@,
        a.notes() == b.notes(),
        a.origin() == b.origin(),
    ensures
        only_moved(a, b, Seq::empty(), Seq::empty()),
{
    reveal(only_moved);
    lemma_grew_same(a, b);
    assert(moves_of(Seq::empty(), Seq::empty()) =~= Seq::<OpView>::empty());
}

pub proof fn lemma_only_moved(
    a: Disk,
    b: Disk,
    c: Disk,
    from: Seq<PathView>,
    to: Seq<PathView>,
    p: PathView,
    q: PathView,
)
    requires
        only_moved(a, b, from, to),
        noted(b, c, OpView::MoveTree(p, q)),
    ensures
        only_moved(a, c, from.push(p), to.push(q)),
{
    let op = OpView::MoveTree(p, q);
    reveal(only_moved);
    reveal(undoable);
    lemma_noted(b, c, op);
    lemma_grew_one(b, c, op);
    lemma_grew_trans(a, b, c);
    lemma_append(a@, added(a, b), added(b, c));
    assert(added(a, c) =~= added(a, b).push(op));
    assert(moves_of(from.push(p), to.push(q)) =~= moves_of(from, to).push(op));
}

pub proof fn lemma_moves_done(a: Disk, b: Disk, from: Seq<PathView>, to: Seq<PathView>)
    requires
        only_moved(a, b, from, to),
        side_by_side(from, to),
    ensures
        partly_removed(a, b, from, to, 0),
{
    reveal(only_moved);
    reveal(partly_removed);
    assert(moves_of(from, to) + removals_of(to.take(0)) =~= moves_of(from, to));
}

pub proof fn lemma_removed(
    a: Disk,
    b: Disk,
    c: Disk,
    from: Seq<PathView>,
    to: Seq<PathView>,
    m: int,
)
    requires
        partly_removed(a, b, from, to, m),
        0 <= m < to.len(),
        noted(b, c, (OpView::RemoveTree { path: to[m], lenient: false })),
    ensures
        partly_removed(a, c, from, to, m + 1),
{
    let op = OpView::RemoveTree { path: to[m], lenient: false };
    reveal(partly_removed);
    lemma_grew_one(b, c, op);
    lemma_grew_trans(a, b, c);
    let moves = moves_of(from, to);
    assert(added(a, c) =~= added(a, b).push(op));
    assert(moves + removals_of(to.take(m + 1)) =~= (moves + removals_of(to.take(m))).push(op));
}

pub proof fn lemma_removals_done(
    a: Disk,
    b: Disk,
    from: Seq<PathView>,
    to: Seq<PathView>,
    m: int,
)
    requires
        partly_removed(a, b, from, to, m),
    ensures
        moved_then_removed(a, b),
{
    reveal(partly_removed);
    reveal(moved_then_removed);
    assert(removes(a@, added(a, b), from, to, m));
}

pub broadcast proof fn lemma_unchanged_removed(a: Disk, b: Disk)
    requires
        a == b,
    ensures
        #[trigger] moved_then_removed(a, b),
{
    lemma_only_moved_same(a, b);
    lemma_moves_done(a, b, Seq::empty(), Seq::empty());
    lemma_removals_done(a, b, Seq::empty(), Seq::empty(), 0);
}

proof fn lemma_grew_same(a: Disk, b: Disk)
    requires
        a@ == b@,
        a.notes() == b.notes(),
        a.origin() == b.origin(),
    ensures
        grew(a, b),
        added(a, b) == Seq::<OpView>::empty(),
{
    assert(added(a, b) =~= Seq::<OpView>::empty());
    assert(a.notes() + added(a, b) =~= b.notes());
}

proof fn lemma_grew_one(a: Disk, b: Disk, op: OpView)
    requires
        noted(a, b, op),
    ensures
        grew(a, b),
        added(a, b) == seq![op],
{
    let x = added(a, b);
    assert(x =~= seq![op]);
    assert(x.drop_last() =~= Seq::<OpView>::empty());
    assert(a.notes() + x =~= b.notes());
    assert(replay(a@, x.drop_last()) == a@);
    assert(legal_list(a@, x.drop_last()));
}

proof fn lemma_grew_trans(a: Disk, b: Disk, c: Disk)
    requires
        grew(a, b),
        grew(b, c),
    ensures
        grew(a, c),
        added(a, c) == added(a, b) + added(b, c),
{
    assert(added(a, c) =~= added(a, b) + added(b, c));
    assert(c.notes() =~= a.notes() + added(a, c));
    lemma_append(a@, added(a, b), added(b, c));
}

pub proof fn lemma_undoable_same(a: Disk, b: Disk)
    requires
        a@ == b@,
        a.notes() == b.notes(),
        a.origin() == b.origin(),
    ensures
        undoable(a, b),
{
    reveal(undoable);
    lemma_grew_same(a, b);
}

pub proof fn lemma_noted(a: Disk, b: Disk, op: OpView)
    requires
        noted(a, b, op),
        inverse(a@, op) is Some,
    ensures
        undoable(a, b),
{
    reveal(undoable);
    lemma_grew_one(a, b, op);
    let x = added(a, b);
    assert(x.drop_last() =~= Seq::<OpView>::empty());
    assert(undo_list(a@, x.drop_last()) is Some);
    assert(replay(a@, x.drop_last()) == a@);
}

pub proof fn lemma_undecided(a: Disk, b: Disk)
    requires
        a@ == b@,
        a.notes() == b.notes(),
        a.origin() == b.origin(),
    ensures
        decided(a, b),
{
    reveal(decided);
    lemma_grew_same(a, b);
}

/// After what can be taken back, one change that perhaps cannot.
pub proof fn lemma_decided(a: Disk, b: Disk, c: Disk, op: OpView)
    requires
        undoable(a, b),
        noted(b, c, op),
        !is_commit(op),
    ensures
        decided(a, c),
{
    reveal(undoable);
    reveal(decided);
    lemma_grew_one(b, c, op);
    lemma_grew_trans(a, b, c);
    assert(added(a, c).drop_last() =~= added(a, b));
}

pub proof fn lemma_mild_same(a: Disk, b: Disk)
    requires
        a@ == b@,
        a.notes() == b.notes(),
        a.origin() == b.origin(),
    ensures
        mild(a, b),
{
    reveal(mild);
    lemma_grew_same(a, b);
}

pub proof fn lemma_mild(a: Disk, b: Disk, op: OpView)
    requires
        noted(a, b, op),
        !is_hard(op),
    ensures
        mild(a, b),
{
    reveal(mild);
    lemma_grew_one(a, b, op);
}

/// After what was decided, a commit.
pub broadcast proof fn lemma_settled(a: Disk, b: Disk, c: Disk, op: OpView)
    requires
        #[trigger] decided(a, b),
        #[trigger] noted(b, c, op),
        is_commit(op),
    ensures
        ordered(a, c),
        rested(a, c),
{
    reveal(decided);
    reveal(ordered);
    reveal(rested);
    lemma_grew_one(b, c, op);
    lemma_grew_trans(a, b, c);
    assert(added(a, c) =~= added(a, b).push(op));
    lemma_orderly_settled(a@, added(a, b), op);
}

pub broadcast proof fn lemma_undoable_is_ordered(a: Disk, b: Disk)
    requires
        #[trigger] undoable(a, b),
    ensures
        ordered(a, b),
        decided(a, b),
{
    reveal(undoable);
    reveal(ordered);
    reveal(decided);
    lemma_undo_orderly(a@, added(a, b));
}

pub broadcast proof fn lemma_unchanged(a: Disk, b: Disk)
    requires
        a == b,
    ensures
        #[trigger] undoable(a, b),
{
    lemma_undoable_same(a, b);
}

pub broadcast proof fn lemma_unchanged_ordered(a: Disk, b: Disk)
    requires
        a == b,
    ensures
        #[trigger] ordered(a, b),
{
    lemma_undoable_same(a, b);
    lemma_undoable_is_ordered(a, b);
}

pub broadcast proof fn lemma_unchanged_mild(a: Disk, b: Disk)
    requires
        a == b,
    ensures
        #[trigger] mild(a, b),
{
    lemma_mild_same(a, b);
}

pub broadcast proof fn lemma_undoable_trans(a: Disk, b: Disk, c: Disk)
    requires
        #[trigger] undoable(a, b),
        #[trigger] undoable(b, c),
    ensures
        undoable(a, c),
{
    reveal(undoable);
    lemma_grew_trans(a, b, c);
    lemma_append(a@, added(a, b), added(b, c));
}

pub broadcast proof fn lemma_decided_trans(a: Disk, b: Disk, c: Disk)
    requires
        #[trigger] undoable(a, b),
        #[trigger] decided(b, c),
    ensures
        decided(a, c),
{
    reveal(undoable);
    reveal(decided);
    lemma_grew_trans(a, b, c);
    let x = added(a, b);
    let y = added(b, c);
    lemma_append(a@, x, y);
    if y.len() > 0 {
        lemma_append(a@, x, y.drop_last());
        assert((x + y).drop_last() =~= x + y.drop_last());
    }
}

pub broadcast proof fn lemma_mild_trans(a: Disk, b: Disk, c: Disk)
    requires
        #[trigger] mild(a, b),
        #[trigger] mild(b, c),
    ensures
        mild(a, c),
{
    reveal(mild);
    lemma_grew_trans(a, b, c);
    let x = added(a, b);
    let y = added(b, c);
    assert forall|i: int| 0 <= i < added(a, c).len() implies !is_hard(#[trigger] added(a, c)[i]) by {
        if i < x.len() {
            assert(added(a, c)[i] == x[i]);
        } else {
            assert(added(a, c)[i] == y[i - x.len()]);
        }
    }
}

pub broadcast proof fn lemma_ordered_trans(a: Disk, b: Disk, c: Disk)
    requires
        #[trigger] ordered(a, b),
        #[trigger] ordered(b, c),
    ensures
        ordered(a, c),
{
    reveal(ordered);
    lemma_grew_trans(a, b, c);
    lemma_orderly_append(a@, added(a, b), added(b, c));
}

/// After what cannot fail for good, a commit.
pub broadcast proof fn lemma_mild_settled(a: Disk, b: Disk, c: Disk, op: OpView)
    requires
        #[trigger] mild(a, b),
        #[trigger] noted(b, c, op),
        is_commit(op),
    ensures
        ordered(a, c),
        rested(a, c),
{
    reveal(mild);
    reveal(ordered);
    reveal(rested);
    lemma_grew_one(b, c, op);
    lemma_grew_trans(a, b, c);
    assert(added(a, c) =~= added(a, b).push(op));
    lemma_orderly_mild(a@, added(a, b), op);
}

/// A commit is in order wherever all before it is.
pub broadcast proof fn lemma_noted_is_ordered(a: Disk, b: Disk, op: OpView)
    requires
        #[trigger] noted(a, b, op),
        is_commit(op),
    ensures
        ordered(a, b),
        rested(a, b),
{
    lemma_undecided(a, a);
    lemma_settled(a, a, b, op);
}

pub broadcast proof fn lemma_transacted_is_ordered(a: Disk, b: Disk)
    requires
        #[trigger] transacted(a, b),
    ensures
        ordered(a, b),
{
    reveal(transacted);
    reveal(ordered);
}

pub broadcast proof fn lemma_went_is_ordered(a: Disk, from: DiskView, to: DiskView, b: Disk)
    requires
        #[trigger] went(a, from, to, b),
    ensures
        ordered(a, b),
{
    reveal(went);
    reveal(ordered);
}

/// What was decided, its commit, and what is done besides make up a transaction.
pub proof fn lemma_transaction(a: Disk, b: Disk, c: Disk, e: Disk, f: Disk)
    requires
        decided(a, b),
        noted(b, c, OpView::Commit),
        mild(c, e),
        noted(e, f, OpView::Settle),
    ensures
        transacted(a, f),
{
    reveal(decided);
    reveal(mild);
    reveal(transacted);
    reveal(ordered);
    lemma_settled(a, b, c, OpView::Commit);
    lemma_grew_one(b, c, OpView::Commit);
    lemma_grew_one(e, f, OpView::Settle);
    lemma_grew_trans(a, b, c);
    lemma_grew_trans(c, e, f);
    lemma_grew_trans(a, c, f);
    let x = added(a, b);
    let y = added(c, e);
    let all = added(a, f);
    assert(added(c, f) =~= y.push(OpView::Settle));
    lemma_orderly_mild(c@, y, OpView::Settle);
    lemma_orderly_append(a@, added(a, c), added(c, f));
    let n = x.len() as int;
    assert(all =~= x.push(OpView::Commit) + y.push(OpView::Settle));
    lemma_no_commit(a@, if undo_list(a@, x) is Some { x } else { x.drop_last() });
    assert forall|i: int| 0 <= i < n implies !is_commit(#[trigger] all[i]) by {
        assert(all[i] == x[i]);
        if undo_list(a@, x) is None && i < n - 1 {
            assert(x.drop_last()[i] == x[i]);
        }
    }
    assert forall|i: int| n < i < all.len() implies !is_hard(#[trigger] all[i]) by {
        if i - n - 1 < y.len() {
            assert(all[i] == y[i - n - 1]);
        }
    }
    assert(commits_at(all, n));
}

pub broadcast proof fn lemma_rested(a: Disk, b: Disk, c: Disk, op: OpView)
    requires
        #[trigger] ordered(a, b),
        #[trigger] noted(b, c, op),
        is_commit(op),
    ensures
        rested(a, c),
{
    reveal(ordered);
    reveal(rested);
    lemma_grew_one(b, c, op);
    lemma_grew_trans(a, b, c);
    lemma_noted_is_ordered(b, c, op);
    lemma_orderly_append(a@, added(a, b), added(b, c));
}

pub broadcast proof fn lemma_rested_is_ordered(a: Disk, b: Disk)
    requires
        #[trigger] rested(a, b),
    ensures
        ordered(a, b),
{
    reveal(ordered);
    reveal(rested);
}

/// A transaction after everything before it was made to stay.
pub broadcast proof fn lemma_went(a: Disk, b: Disk, c: Disk)
    requires
        #[trigger] rested(a, b),
        #[trigger] transacted(b, c),
    ensures
        went(a, b@, c@, c),
{
    reveal(transacted);
    reveal(rested);
    reveal(went);
    lemma_grew_trans(a, b, c);
    let x = added(a, b);
    let y = added(b, c);
    let n = x.len() as int;
    lemma_orderly_append(a@, x, y);
    assert((x + y).take(n) =~= x);
    assert((x + y).subrange(n, n + y.len()) =~= y);
    assert(passes(a@, added(a, c), b@, c@, n, n + y.len()));
}

pub broadcast proof fn lemma_went_after(
    a: Disk,
    b: Disk,
    from: DiskView,
    to: DiskView,
    c: Disk,
)
    requires
        #[trigger] ordered(a, b),
        #[trigger] went(b, from, to, c),
    ensures
        went(a, from, to, c),
{
    reveal(ordered);
    reveal(went);
    lemma_grew_trans(a, b, c);
    let x = added(a, b);
    let y = added(b, c);
    lemma_orderly_append(a@, x, y);
    let (i, j) = choose|i: int, j: int| #[trigger] passes(b@, y, from, to, i, j);
    let n = x.len() as int;
    assert((x + y).take(n + i) =~= x + y.take(i));
    lemma_append(a@, x, y.take(i));
    assert((x + y).subrange(n + i, n + j) =~= y.subrange(i, j));
    assert(passes(a@, added(a, c), from, to, n + i, n + j));
}

pub broadcast proof fn lemma_went_before(
    a: Disk,
    from: DiskView,
    to: DiskView,
    b: Disk,
    c: Disk,
)
    requires
        #[trigger] went(a, from, to, b),
        #[trigger] ordered(b, c),
    ensures
        went(a, from, to, c),
{
    reveal(ordered);
    reveal(went);
    lemma_grew_trans(a, b, c);
    let x = added(a, b);
    let y = added(b, c);
    lemma_orderly_append(a@, x, y);
    let (i, j) = choose|i: int, j: int| #[trigger] passes(a@, x, from, to, i, j);
    assert((x + y).take(i) =~= x.take(i));
    assert((x + y).subrange(i, j) =~= x.subrange(i, j));
    assert(passes(a@, added(a, c), from, to, i, j));
}

pub broadcast group group_journal {
    lemma_undoable_is_ordered,
    lemma_unchanged,
    lemma_unchanged_ordered,
    lemma_unchanged_mild,
    lemma_unchanged_removed,
    lemma_undoable_trans,
    lemma_decided_trans,
    lemma_mild_trans,
    lemma_ordered_trans,
    lemma_settled,
    lemma_mild_settled,
    lemma_noted_is_ordered,
    lemma_transacted_is_ordered,
    lemma_went_is_ordered,
    lemma_went,
    lemma_went_after,
    lemma_went_before,
    lemma_rested,
    lemma_rested_is_ordered,
}

} // verus!

