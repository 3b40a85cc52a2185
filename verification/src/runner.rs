//! Carries out the changes of a tree on the file system, and takes them back when
//! one of them fails.
use crate::disk::{
    apply, law_changes_keep_the_tree_rooted, legal, legal_list, op_views, replay, rooted, Disk,
    DiskView, Op, OpView,
};
use crate::journal::{
    added, can_go_back, commits_at, inverse, is_commit, is_hard, is_lenient, kept_by,
    lemma_append, lemma_replay_split, lemma_taken_back, moved_then_removed, moves_of,
    one_transaction, ordered, orderly, passes, removes, went,
};
use crate::path::PathView;
use vstd::prelude::*;

pub mod removals;

verus! {

// ---------------------------------------------------------------------------
// Carrying changes out
// ---------------------------------------------------------------------------

/// What to do next.
#[derive(Debug)]
pub enum Task {
    /// Make this change, and report whether it could be made.
    Perform(Op),
    /// All changes are made, but for `missed` on which nothing depends.
    Done { missed: usize },
    /// A change could not be made, and those that did not stay were taken back.
    /// `whole` says whether all of them could be, and `committed` whether what was
    /// asked for had been done before.
    RolledBack { whole: bool, committed: bool },
}

pub enum TaskView {
    Perform(OpView),
    Done { missed: int },
    RolledBack { whole: bool, committed: bool },
}

impl View for Task {
    type V = TaskView;

    open spec fn view(&self) -> TaskView {
        match self {
            Task::Perform(op) => TaskView::Perform(op@),
            Task::Done { missed } => TaskView::Done { missed: *missed as int },
            Task::RolledBack { whole, committed } => TaskView::RolledBack {
                whole: *whole,
                committed: *committed,
            },
        }
    }
}

/// Carries out a list of changes one by one. `tree` follows what is on the file
/// system.
pub struct Runner {
    tree: Disk,
    todo: Vec<Op>,
    at: usize,
    undo: Vec<Op>,
    whole: bool,
    failed: bool,
    committed: bool,
    missed: usize,
}

/// How far a list of changes is.
pub struct RunnerView {
    /// What is on the file system.
    pub tree: DiskView,
    pub todo: Seq<OpView>,
    /// How many changes are made or passed over.
    pub at: int,
    /// What takes the changes that do not stay back, the last change last.
    pub undo: Seq<OpView>,
    /// Whether they can all be taken back.
    pub whole: bool,
    /// Whether a change could not be made.
    pub failed: bool,
    /// Whether what was asked for is done.
    pub committed: bool,
    /// How many changes on which nothing depends could not be made.
    pub missed: int,
}

impl View for Runner {
    type V = RunnerView;

    closed spec fn view(&self) -> RunnerView {
        RunnerView {
            tree: self.tree@,
            todo: op_views(self.todo@),
            at: self.at as int,
            undo: op_views(self.undo@),
            whole: self.whole,
            failed: self.failed,
            committed: self.committed,
            missed: self.missed as int,
        }
    }
}

pub open spec fn started(tree: DiskView, todo: Seq<OpView>) -> RunnerView {
    RunnerView {
        tree,
        todo,
        at: 0,
        undo: Seq::empty(),
        whole: true,
        failed: false,
        committed: false,
        missed: 0,
    }
}

/// What to do next.
pub open spec fn next_task(r: RunnerView) -> TaskView {
    if r.failed {
        if r.undo.len() > 0 {
            TaskView::Perform(r.undo.last())
        } else {
            TaskView::RolledBack { whole: r.whole, committed: r.committed }
        }
    } else if r.at < r.todo.len() {
        TaskView::Perform(r.todo[r.at])
    } else {
        TaskView::Done { missed: r.missed }
    }
}

/// A change was made.
pub open spec fn change_made(r: RunnerView, op: OpView) -> RunnerView {
    let i = inverse(r.tree, op);
    RunnerView {
        tree: apply(r.tree, op),
        at: r.at + 1,
        undo: if is_commit(op) {
            Seq::empty()
        } else if i is Some {
            r.undo.push(i->0)
        } else {
            r.undo
        },
        whole: is_commit(op) || (r.whole && i is Some),
        committed: r.committed || op == OpView::Commit,
        ..r
    }
}

/// A change was tried; `ok` says whether it could be made. One that the tree does
/// not admit counts as one that could not.
pub open spec fn change_tried(r: RunnerView, ok: bool) -> RunnerView {
    if r.failed {
        if r.undo.len() == 0 {
            r
        } else if ok && legal(r.tree, r.undo.last()) {
            RunnerView {
                tree: apply(r.tree, r.undo.last()),
                undo: r.undo.drop_last(),
                ..r
            }
        } else {
            RunnerView { undo: r.undo.drop_last(), whole: false, ..r }
        }
    } else if r.at >= r.todo.len() {
        r
    } else {
        let op = r.todo[r.at];
        if ok && legal(r.tree, op) {
            change_made(r, op)
        } else if is_lenient(op) {
            RunnerView { at: r.at + 1, missed: r.missed + 1, ..r }
        } else {
            RunnerView { failed: true, ..r }
        }
    }
}

/// Taking the changes since the last commit back gives the tree `base`, and every
/// step of it can be made.
pub open spec fn leads_back(r: RunnerView, base: DiskView) -> bool {
    legal_list(r.tree, r.undo.reverse()) && replay(r.tree, r.undo.reverse()) == base
}

/// As long as the file system does what it is asked, a failure leads back to the
/// tree of the last commit: each change that is made can be taken back, each step
/// of taking back comes closer, and when none is left the tree is that of the
/// commit.
pub proof fn law_rollback_leads_to_the_last_commit(r: RunnerView, base: DiskView)
    requires
        rooted(r.tree),
        r.tree.dom().finite(),
        0 <= r.at <= r.todo.len(),
        leads_back(r, base),
    ensures
        r.undo.len() == 0 ==> r.tree == base,
        r.failed && r.undo.len() > 0 ==> leads_back(change_tried(r, true), base) && change_tried(
            r,
            true,
        ).undo.len() == r.undo.len() - 1 && change_tried(r, true).whole == r.whole,
        !r.failed && r.at < r.todo.len() && legal(r.tree, r.todo[r.at]) && change_tried(
            r,
            true,
        ).whole ==> leads_back(
            change_tried(r, true),
            if is_commit(r.todo[r.at]) {
                r.tree
            } else {
                base
            },
        ),
{
    let after = change_tried(r, true);
    if r.undo.len() == 0 {
        assert(r.undo.reverse() =~= Seq::<OpView>::empty());
    } else {
        let rest = r.undo.drop_last();
        assert(r.undo.reverse() =~= seq![r.undo.last()] + rest.reverse());
        lemma_replay_split(r.tree, r.undo.last(), rest.reverse());
    }
    if !r.failed && r.at < r.todo.len() && legal(r.tree, r.todo[r.at]) && after.whole {
        let op = r.todo[r.at];
        if is_commit(op) {
            assert(after.undo.reverse() =~= Seq::<OpView>::empty());
        } else {
            let i = inverse(r.tree, op)->0;
            lemma_taken_back(r.tree, op);
            assert(r.undo.push(i).reverse() =~= seq![i] + r.undo.reverse());
            lemma_replay_split(after.tree, i, r.undo.reverse());
        }
    }
}

// ---------------------------------------------------------------------------
// What a failure leaves
// ---------------------------------------------------------------------------

/// A runner once `answers` were reported to it.
pub open spec fn answered(r: RunnerView, answers: Seq<bool>) -> RunnerView
    decreases answers.len(),
{
    if answers.len() == 0 {
        r
    } else {
        change_tried(answered(r, answers.drop_last()), answers.last())
    }
}

/// `n` times the report that a change was made.
pub open spec fn all_made(n: nat) -> Seq<bool> {
    Seq::new(n, |i: int| true)
}

/// The runner of the changes `x` of the tree `d` once change `k` was refused, and
/// everything that did not stay was taken back.
pub open spec fn refused_at(d: DiskView, x: Seq<OpView>, k: int) -> RunnerView {
    answered(
        started(d, x),
        all_made(k as nat).push(false) + all_made((k - kept_by(x, k)) as nat),
    )
}

/// Whether what was asked for was done before change `k`.
pub open spec fn done_before(x: Seq<OpView>, k: int) -> bool {
    exists|i: int| 0 <= i < k && #[trigger] x[i] == OpView::Commit
}

/// Change `k` was refused, and everything since the tree `e` is taken back.
pub open spec fn leads_to(d: DiskView, x: Seq<OpView>, k: int, e: DiskView) -> bool {
    let r = refused_at(d, x, k);
    r.tree == e && next_task(r) == (TaskView::RolledBack {
        whole: true,
        committed: done_before(x, k),
    })
}

pub(crate) proof fn lemma_made(d: DiskView, x: Seq<OpView>, k: int)
    requires
        rooted(d),
        d.dom().finite(),
        legal_list(d, x),
        0 <= k <= x.len(),
    ensures
        ({
            let r = answered(started(d, x), all_made(k as nat));
            let c = kept_by(x, k);
            &&& r.tree == replay(d, x.take(k))
            &&& rooted(r.tree)
            &&& r.tree.dom().finite()
            &&& r.todo == x
            &&& r.at == k
            &&& !r.failed
            &&& r.missed == 0
            &&& r.committed == done_before(x, k)
            &&& 0 <= c <= k
            &&& can_go_back(d, x, k) ==> r.whole && r.undo.len() == k - c && leads_back(
                r,
                replay(d, x.take(c)),
            )
        }),
    decreases k,
{
    let all = all_made(k as nat);
    if k == 0 {
        assert(x.take(0) =~= Seq::<OpView>::empty());
        assert(x.subrange(0, 0) =~= Seq::<OpView>::empty());
        let r = started(d, x);
        assert(r.undo.reverse() =~= Seq::<OpView>::empty());
    } else {
        lemma_made(d, x, k - 1);
        assert(all.drop_last() =~= all_made((k - 1) as nat));
        let r = answered(started(d, x), all.drop_last());
        let after = answered(started(d, x), all);
        let op = x[k - 1];
        assert(x =~= x.take(k) + x.skip(k));
        lemma_append(d, x.take(k), x.skip(k));
        assert(x.take(k).drop_last() =~= x.take(k - 1));
        assert(legal(r.tree, op));
        law_changes_keep_the_tree_rooted(r.tree, op);
        if op == OpView::Commit {
            assert(x[k - 1] == OpView::Commit);
        }
        let c = kept_by(x, k);
        if is_commit(op) {
            assert(after.undo.reverse() =~= Seq::<OpView>::empty());
        } else if can_go_back(d, x, k) {
            let e = replay(d, x.take(c));
            let y = x.subrange(c, k);
            assert(y.drop_last() =~= x.subrange(c, k - 1));
            assert(can_go_back(d, x, k - 1));
            assert(x.take(k - 1) =~= x.take(c) + y.drop_last());
            lemma_append(d, x.take(c), y.drop_last());
            assert(inverse(r.tree, op) is Some);
            law_rollback_leads_to_the_last_commit(r, e);
        }
    }
}

proof fn lemma_taking_back(r: RunnerView, base: DiskView, n: nat)
    requires
        rooted(r.tree),
        r.tree.dom().finite(),
        0 <= r.at <= r.todo.len(),
        r.failed,
        r.undo.len() == n,
        leads_back(r, base),
    ensures
        ({
            let after = answered(r, all_made(n));
            &&& after.tree == base
            &&& after.undo.len() == 0
            &&& after.failed
            &&& after.whole == r.whole
            &&& after.committed == r.committed
        }),
    decreases n,
{
    law_rollback_leads_to_the_last_commit(r, base);
    if n > 0 {
        let next = change_tried(r, true);
        let rest = r.undo.drop_last();
        assert(r.undo.reverse() =~= seq![r.undo.last()] + rest.reverse());
        lemma_replay_split(r.tree, r.undo.last(), rest.reverse());
        law_changes_keep_the_tree_rooted(r.tree, r.undo.last());
        lemma_taking_back(next, base, (n - 1) as nat);
        lemma_answered_first(r, true, all_made((n - 1) as nat));
        assert(seq![true] + all_made((n - 1) as nat) =~= all_made(n));
    }
}

proof fn lemma_answered_first(r: RunnerView, a: bool, rest: Seq<bool>)
    ensures
        answered(r, seq![a] + rest) == answered(change_tried(r, a), rest),
    decreases rest.len(),
{
    let all = seq![a] + rest;
    if rest.len() == 0 {
        assert(all.drop_last() =~= Seq::<bool>::empty());
        assert(answered(r, all.drop_last()) == r);
    } else {
        lemma_answered_first(r, a, rest.drop_last());
        assert(all.drop_last() =~= seq![a] + rest.drop_last());
    }
}

pub(crate) proof fn lemma_answered_append(r: RunnerView, a: Seq<bool>, b: Seq<bool>)
    ensures
        answered(r, a + b) == answered(answered(r, a), b),
    decreases b.len(),
{
    if b.len() == 0 {
        assert(a + b =~= a);
    } else {
        lemma_answered_append(r, a, b.drop_last());
        assert((a + b).drop_last() =~= a + b.drop_last());
    }
}

/// Where the file system refuses a change, and all that do not stay can be taken back,
/// they are taken back whole: the tree is as it was at the last commit.
pub proof fn law_refused_changes_lead_back(d: DiskView, x: Seq<OpView>, k: int)
    requires
        rooted(d),
        d.dom().finite(),
        legal_list(d, x),
        0 <= k < x.len(),
        is_hard(x[k]),
        can_go_back(d, x, k),
    ensures
        0 <= kept_by(x, k) <= k,
        leads_to(d, x, k, replay(d, x.take(kept_by(x, k)))),
{
    let c = kept_by(x, k);
    lemma_made(d, x, k);
    let r = answered(started(d, x), all_made(k as nat));
    let refused = all_made(k as nat).push(false);
    assert(refused.drop_last() =~= all_made(k as nat));
    let s = answered(started(d, x), refused);
    assert(s == change_tried(r, false));
    lemma_taking_back(s, replay(d, x.take(c)), (k - c) as nat);
    lemma_answered_append(started(d, x), refused, all_made((k - c) as nat));
}

/// A transaction is made as a whole or not at all: whichever of its changes the file
/// system refuses, the tree is as it was before, and nothing was committed.
pub proof fn law_transactions_are_whole(d: DiskView, x: Seq<OpView>, k: int)
    requires
        rooted(d),
        d.dom().finite(),
        legal_list(d, x),
        one_transaction(d, x),
        0 <= k < x.len(),
        is_hard(x[k]),
    ensures
        leads_to(d, x, k, d),
        !done_before(x, k),
{
    let n = choose|n: int| #[trigger] commits_at(x, n);
    assert(k < n) by {
        if k > n {
            assert(!is_hard(x[k]));
        }
    }
    assert(can_go_back(d, x, k));
    law_refused_changes_lead_back(d, x, k);
    lemma_none_kept(x, 0, k);
    assert(x.take(0) =~= Seq::<OpView>::empty());
    assert forall|i: int| 0 <= i < k implies #[trigger] x[i] != OpView::Commit by {
        assert(!is_commit(x[i]));
    }
}

pub(crate) proof fn lemma_none_kept(x: Seq<OpView>, i: int, k: int)
    requires
        0 <= i <= k <= x.len(),
        i > 0 ==> is_commit(x[i - 1]),
        forall|j: int| i <= j < k ==> !is_commit(#[trigger] x[j]),
    ensures
        kept_by(x, k) == i,
    decreases k,
{
    if k > i {
        lemma_none_kept(x, i, k - 1);
        assert(!is_commit(x[k - 1]));
    }
}

/// What an operation that is in order hands to the file system can be refused at any
/// point: the tree is then as it was at the last commit, or where there was none as it
/// was before.
pub proof fn law_ordered_operations_lead_back(a: Disk, b: Disk, k: int)
    requires
        rooted(a@),
        a@.dom().finite(),
        ordered(a, b),
        0 <= k < added(a, b).len(),
        is_hard(added(a, b)[k]),
    ensures
        leads_to(
            a@,
            added(a, b),
            k,
            replay(a@, added(a, b).take(kept_by(added(a, b), k))),
        ),
{
    reveal(ordered);
    let x = added(a, b);
    assert(can_go_back(a@, x, k));
    law_refused_changes_lead_back(a@, x, k);
}

/// An operation that takes one tree to another as a whole does: whichever change of
/// that passage the file system refuses, the tree is as it was before the passage.
pub proof fn law_passages_are_whole(
    a: Disk,
    from: DiskView,
    to: DiskView,
    b: Disk,
    i: int,
    j: int,
    k: int,
)
    requires
        rooted(a@),
        a@.dom().finite(),
        went(a, from, to, b),
        passes(a@, added(a, b), from, to, i, j),
        i <= k < j,
        is_hard(added(a, b)[k]),
    ensures
        leads_to(a@, added(a, b), k, from),
{
    let x = added(a, b);
    assert(legal_list(a@, x) && orderly(a@, x)) by {
        reveal(went);
    }
    lemma_passage(a@, x, from, to, i, j, k);
}

proof fn lemma_passage(
    d: DiskView,
    x: Seq<OpView>,
    from: DiskView,
    to: DiskView,
    i: int,
    j: int,
    k: int,
)
    requires
        rooted(d),
        d.dom().finite(),
        legal_list(d, x),
        orderly(d, x),
        passes(d, x, from, to, i, j),
        i <= k < j,
        is_hard(x[k]),
    ensures
        leads_to(d, x, k, from),
{
    let y = x.subrange(i, j);
    let n = choose|n: int| #[trigger] commits_at(y, n);
    assert(y[k - i] == x[k]);
    assert(k - i < n) by {
        if k - i > n {
            assert(!is_hard(y[k - i]));
        }
    }
    assert forall|l: int| i <= l < k implies !is_commit(#[trigger] x[l]) by {
        assert(y[l - i] == x[l]);
    }
    lemma_none_kept(x, i, k);
    assert(can_go_back(d, x, k));
    law_refused_changes_lead_back(d, x, k);
}

/// Where the directories of a profile are moved aside to be removed, and the file
/// system refuses one of the moves or the first removal, all of them are back.
pub proof fn law_refused_removals_lead_back(a: Disk, b: Disk, k: int)
    requires
        rooted(a@),
        a@.dom().finite(),
        moved_then_removed(a, b),
        0 <= k < added(a, b).len(),
        is_hard(added(a, b)[k]),
        forall|i: int| 0 <= i < k ==> (#[trigger] added(a, b)[i]) is MoveTree,
    ensures
        leads_to(a@, added(a, b), k, a@),
{
    let x = added(a, b);
    assert(exists|from: Seq<PathView>, to: Seq<PathView>, m: int| #[trigger]
        removes(a@, x, from, to, m) && legal_list(a@, x)) by {
        reveal(moved_then_removed);
    }
    let (from, to, m) = choose|from: Seq<PathView>, to: Seq<PathView>, m: int| #[trigger]
        removes(a@, x, from, to, m) && legal_list(a@, x);
    let moves = moves_of(from, to);
    let n = moves.len() as int;
    assert(k <= n) by {
        if n < k {
            assert(x[n] is RemoveTree);
        }
    }
    assert(x.take(n) =~= moves);
    lemma_none_kept(x, 0, k);
    assert(moves =~= x.take(k) + x.subrange(k, n));
    lemma_append(a@, x.take(k), x.subrange(k, n));
    assert(x.subrange(0, k) =~= x.take(k));
    assert(x.take(0) =~= Seq::<OpView>::empty());
    assert(can_go_back(a@, x, k));
    law_refused_changes_lead_back(a@, x, k);
}

/// Changes on which nothing depends are passed over where the file system refuses
/// them: a list of them is always carried out to its end.
pub proof fn law_refused_leftovers_stop_nothing(r: RunnerView, answers: Seq<bool>)
    requires
        !r.failed,
        0 <= r.at,
        answers.len() == r.todo.len() - r.at,
        forall|i: int| r.at <= i < r.todo.len() ==> is_lenient(#[trigger] r.todo[i]),
    ensures
        next_task(answered(r, answers)) is Done,
        r.missed <= answered(r, answers).missed <= r.missed + answers.len(),
{
    lemma_passes_over(r, answers, answers.len());
}

proof fn lemma_passes_over(r: RunnerView, answers: Seq<bool>, n: nat)
    requires
        !r.failed,
        0 <= r.at,
        answers.len() == n <= r.todo.len() - r.at,
        forall|i: int| r.at <= i < r.todo.len() ==> is_lenient(#[trigger] r.todo[i]),
    ensures
        ({
            let after = answered(r, answers);
            &&& !after.failed
            &&& after.todo == r.todo
            &&& after.at == r.at + n
            &&& r.missed <= after.missed <= r.missed + n
        }),
    decreases n,
{
    if n > 0 {
        lemma_passes_over(r, answers.drop_last(), (n - 1) as nat);
        assert(is_lenient(r.todo[r.at + n - 1]));
    }
}

fn takes_back(tree: &Disk, op: &Op) -> (r: Option<Op>)
    ensures
        match r {
            Some(i) => inverse(tree@, op@) == Some(i@),
            None => inverse(tree@, op@) is None,
        },
{
    match op {
        Op::MakeDir(p) => Some(Op::RemoveDir(p.duplicate())),
        Op::Move(a, b) => {
            if tree.has(b) {
                None
            } else {
                Some(Op::Move(b.duplicate(), a.duplicate()))
            }
        },
        Op::MoveTree(a, b) => Some(Op::MoveTree(b.duplicate(), a.duplicate())),
        Op::Copy(_, b) => {
            if tree.has(b) {
                None
            } else {
                Some(Op::Delete(b.duplicate()))
            }
        },
        Op::Write(p, _) => {
            if tree.has(p) {
                None
            } else {
                Some(Op::Delete(p.duplicate()))
            }
        },
        Op::Delete(p) => match tree.node(p) {
            Some(node) => Some(Op::Restore(p.duplicate(), node)),
            None => None,
        },
        Op::RemoveDir(p) => Some(Op::MakeDir(p.duplicate())),
        Op::Restore(p, _) => Some(Op::Delete(p.duplicate())),
        _ => None,
    }
}

fn lenient(op: &Op) -> (r: bool)
    ensures
        r == is_lenient(op@),
{
    match op {
        Op::RemoveTree { path, lenient } => *lenient,
        Op::RemoveDir(_) => true,
        _ => false,
    }
}

impl Runner {
    #[verifier::type_invariant]
    spec fn in_bounds(self) -> bool {
        self.missed <= self.at <= self.todo@.len()
    }

    /// Starts carrying out `notes` on the tree as it was read.
    pub fn new(tree: Disk, notes: Vec<Op>) -> (r: Runner)
        ensures
            r@ == started(tree@, op_views(notes@)),
    {
        let undo: Vec<Op> = Vec::new();
        assert(op_views(undo@) =~= Seq::<OpView>::empty());
        Runner {
            tree,
            todo: notes,
            at: 0,
            undo,
            whole: true,
            failed: false,
            committed: false,
            missed: 0,
        }
    }

    /// What to do next.
    pub fn next_task(&self) -> (r: Task)
        ensures
            r@ == next_task(self@),
    {
        proof {
            use_type_invariant(self);
            assert(op_views(self.undo@).len() == self.undo@.len());
            assert(op_views(self.todo@).len() == self.todo@.len());
        }
        if self.failed {
            let n: usize = self.undo.len();
            if n > 0 {
                assert(op_views(self.undo@).last() == self.undo@[n - 1]@);
                Task::Perform(self.undo[n - 1].duplicate())
            } else {
                Task::RolledBack { whole: self.whole, committed: self.committed }
            }
        } else if self.at < self.todo.len() {
            assert(op_views(self.todo@)[self.at as int] == self.todo@[self.at as int]@);
            Task::Perform(self.todo[self.at].duplicate())
        } else {
            Task::Done { missed: self.missed }
        }
    }

    /// Reports whether the change that was to be made could be made.
    pub fn report(self, ok: bool) -> (r: Runner)
        ensures
            r@ == change_tried(self@, ok),
    {
        proof {
            use_type_invariant(&self);
        }
        let Runner { tree, todo, at, undo, whole, failed, committed, missed } = self;
        let mut tree = tree;
        let mut undo = undo;
        let ghost before = op_views(undo@);
        proof {
            assert(op_views(undo@).len() == undo@.len());
            assert(op_views(todo@).len() == todo@.len());
        }
        if failed {
            let n: usize = undo.len();
            if n == 0 {
                return Runner { tree, todo, at, undo, whole, failed, committed, missed };
            }
            assert(before.last() == undo@[n - 1]@);
            let op = undo[n - 1].duplicate();
            undo.pop();
            assert(op_views(undo@) =~= before.drop_last());
            if ok && tree.can(&op) {
                tree.perform(op);
                return Runner { tree, todo, at, undo, whole, failed, committed, missed };
            }
            return Runner { tree, todo, at, undo, whole: false, failed, committed, missed };
        }
        if at >= todo.len() {
            return Runner { tree, todo, at, undo, whole, failed, committed, missed };
        }
        let op = todo[at].duplicate();
        assert(op_views(todo@)[at as int] == op@);
        if ok && tree.can(&op) {
            let back = takes_back(&tree, &op);
            let mut still = whole;
            let mut done = committed;
            match &op {
                Op::Commit => {
                    undo = Vec::new();
                    still = true;
                    done = true;
                    assert(op_views(undo@) =~= Seq::<OpView>::empty());
                },
                Op::Settle => {
                    undo = Vec::new();
                    still = true;
                    assert(op_views(undo@) =~= Seq::<OpView>::empty());
                },
                _ => {
                    match back {
                        Some(i) => {
                            assert(op_views(undo@.push(i)) =~= before.push(i@));
                            undo.push(i);
                        },
                        None => {
                            still = false;
                        },
                    }
                },
            }
            tree.perform(op);
            return Runner {
                tree,
                todo,
                at: at + 1,
                undo,
                whole: still,
                failed,
                committed: done,
                missed,
            };
        }
        if lenient(&op) {
            return Runner {
                tree,
                todo,
                at: at + 1,
                undo,
                whole,
                failed,
                committed,
                missed: missed + 1,
            };
        }
        Runner { tree, todo, at, undo, whole, failed: true, committed, missed }
    }
}

} // verus!
