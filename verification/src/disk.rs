//! The addon tree as a value, and the list of changes made to it.
//!
//! A `Disk` is read from the file system once. Operations work on it alone and
//! note every change; the notes are then carried out on the file system in the
//! order they were made.
use crate::text;
use crate::error::{Error, ErrorView};
use crate::journal::{
    decided, lemma_decided, lemma_mild, lemma_mild_same, lemma_noted, lemma_settled,
    lemma_undecided, lemma_undoable_is_ordered, lemma_undoable_same, lemma_undoable_trans, mild,
    noted, ordered, undoable,
};
use crate::path::{lemma_path_before_total, path_before, path_parent, path_text, PathView, TreePath};
use crate::table::{ascending, entry_map, keys_of, lists_keys, Key, Model, Table};
use crate::text::{text_before, texts};
use crate::vpk_manifest::{ManifestView, ProfileVpkManifest};
use vstd::prelude::*;
use vstd::string::*;

verus! {

// ---------------------------------------------------------------------------
// What stands at a path
// ---------------------------------------------------------------------------

/// What stands at a path. `id` tells the contents of one file from those of
/// another; `size` counts bytes, and is 0 for a manifest that has not been
/// written out yet.
#[derive(Debug, PartialEq, Eq)]
pub enum Body {
    Folder,
    Blob { id: u64, size: u64 },
    Manifest { manifest: ProfileVpkManifest, size: u64 },
}

/// `linked` marks what was reached through a symbolic link.
#[derive(Debug, PartialEq, Eq)]
pub struct Node {
    pub linked: bool,
    pub body: Body,
}

pub enum BodyView {
    Folder,
    Blob { id: u64, size: u64 },
    Manifest { manifest: ManifestView, size: u64 },
}

pub struct NodeView {
    pub linked: bool,
    pub body: BodyView,
}

impl View for Node {
    type V = NodeView;

    open spec fn view(&self) -> NodeView {
        NodeView {
            linked: self.linked,
            body: match self.body {
                Body::Folder => BodyView::Folder,
                Body::Blob { id, size } => BodyView::Blob { id, size },
                Body::Manifest { manifest, size } => BodyView::Manifest {
                    manifest: manifest@,
                    size,
                },
            },
        }
    }
}

impl Model for Node {
    fn copy_value(&self) -> (r: Self) {
        Node {
            linked: self.linked,
            body: match &self.body {
                Body::Folder => Body::Folder,
                Body::Blob { id, size } => Body::Blob { id: *id, size: *size },
                Body::Manifest { manifest, size } => Body::Manifest {
                    manifest: manifest.duplicate(),
                    size: *size,
                },
            },
        }
    }
}

/// A directory of its own.
pub open spec fn folder() -> NodeView {
    NodeView { linked: false, body: BodyView::Folder }
}

/// A manifest just written.
pub open spec fn fresh_manifest(m: ManifestView) -> NodeView {
    NodeView { linked: false, body: BodyView::Manifest { manifest: m, size: 0 } }
}

/// A copy of a file is a file of its own.
pub open spec fn copied_node(n: NodeView) -> NodeView {
    NodeView { linked: false, body: n.body }
}

pub open spec fn node_size(n: NodeView) -> u64 {
    match n.body {
        BodyView::Folder => 0,
        BodyView::Blob { id, size } => size,
        BodyView::Manifest { manifest, size } => size,
    }
}

// ---------------------------------------------------------------------------
// Trees
// ---------------------------------------------------------------------------

/// What stands at each path.
pub type DiskView = Map<PathView, NodeView>;

pub open spec fn exists_at(d: DiskView, p: PathView) -> bool {
    d.contains_key(p)
}

pub open spec fn is_dir_at(d: DiskView, p: PathView) -> bool {
    d.contains_key(p) && d[p].body is Folder
}

pub open spec fn is_file_at(d: DiskView, p: PathView) -> bool {
    d.contains_key(p) && !(d[p].body is Folder)
}

/// The directory that would hold `p` is there. The root always is.
pub open spec fn parent_ready(d: DiskView, p: PathView) -> bool {
    match path_parent(p) {
        Some(q) => path_parent(q) is None || is_dir_at(d, q),
        None => false,
    }
}

/// The same thing stands at `q` in both trees, or nothing in either.
pub open spec fn same_at(d: DiskView, e: DiskView, q: PathView) -> bool {
    d.contains_key(q) == e.contains_key(q) && (d.contains_key(q) ==> d[q] == e[q])
}

/// Everything stands in a directory.
#[verifier::opaque]
pub open spec fn rooted(d: DiskView) -> bool {
    forall|p: PathView| #[trigger] d.contains_key(p) ==> parent_ready(d, p)
}

pub open spec fn is_child(dir: PathView, p: PathView) -> bool {
    p.len() == dir.len() + 1 && dir.is_prefix_of(p)
}

pub open spec fn is_below(dir: PathView, p: PathView) -> bool {
    p.len() > dir.len() && dir.is_prefix_of(p)
}

/// Every path of the tree in order.
pub open spec fn all_paths(d: DiskView) -> Seq<PathView> {
    keys_of::<TreePath, NodeView>(d)
}

/// The paths below a directory, in order.
pub open spec fn paths_below(d: DiskView, dir: PathView) -> Seq<PathView> {
    all_paths(d).filter(|p: PathView| is_below(dir, p))
}

/// The names in a directory, in order.
pub open spec fn names_in(d: DiskView, dir: PathView) -> Seq<Seq<char>> {
    all_paths(d).filter(|p: PathView| is_child(dir, p)).map_values(|p: PathView| p.last())
}

// ---------------------------------------------------------------------------
// Changes
// ---------------------------------------------------------------------------

/// One change to the tree.
#[derive(Debug, PartialEq, Eq)]
pub enum Op {
    MakeDir(TreePath),
    Move(TreePath, TreePath),
    MoveTree(TreePath, TreePath),
    Copy(TreePath, TreePath),
    Delete(TreePath),
    Write(TreePath, ProfileVpkManifest),
    /// Removes a directory with everything below it. A lenient removal clears
    /// away leftovers, and nothing depends on it.
    RemoveTree { path: TreePath, lenient: bool },
    /// Removes an empty directory; nothing depends on it.
    RemoveDir(TreePath),
    /// Puts a file back that was deleted.
    Restore(TreePath, Node),
    /// What was done before this point stays.
    Settle,
    /// What was asked for is done; it stays, and what follows is done besides.
    Commit,
}

pub enum OpView {
    MakeDir(PathView),
    Move(PathView, PathView),
    MoveTree(PathView, PathView),
    Copy(PathView, PathView),
    Delete(PathView),
    Write(PathView, ManifestView),
    RemoveTree { path: PathView, lenient: bool },
    RemoveDir(PathView),
    Restore(PathView, NodeView),
    Settle,
    Commit,
}

impl View for Op {
    type V = OpView;

    open spec fn view(&self) -> OpView {
        match self {
            Op::MakeDir(p) => OpView::MakeDir(p@),
            Op::Move(a, b) => OpView::Move(a@, b@),
            Op::MoveTree(a, b) => OpView::MoveTree(a@, b@),
            Op::Copy(a, b) => OpView::Copy(a@, b@),
            Op::Delete(p) => OpView::Delete(p@),
            Op::Write(p, m) => OpView::Write(p@, m@),
            Op::RemoveTree { path, lenient } => OpView::RemoveTree {
                path: path@,
                lenient: *lenient,
            },
            Op::RemoveDir(p) => OpView::RemoveDir(p@),
            Op::Restore(p, node) => OpView::Restore(p@, node@),
            Op::Settle => OpView::Settle,
            Op::Commit => OpView::Commit,
        }
    }
}

/// The tree with everything at or below `a` standing at or below `b` instead.
pub open spec fn moved_tree(d: DiskView, a: PathView, b: PathView) -> DiskView {
    Map::new(
        |p: PathView|
            if b.is_prefix_of(p) {
                d.contains_key(a + p.skip(b.len() as int))
            } else {
                d.contains_key(p) && !a.is_prefix_of(p)
            },
        |p: PathView|
            if b.is_prefix_of(p) {
                d[a + p.skip(b.len() as int)]
            } else {
                d[p]
            },
    )
}

/// The tree without everything at or below `p`.
pub open spec fn without_tree(d: DiskView, p: PathView) -> DiskView {
    d.restrict(Set::new(|q: PathView| !p.is_prefix_of(q)))
}

/// The tree after a change.
pub open spec fn apply(d: DiskView, op: OpView) -> DiskView {
    match op {
        OpView::MakeDir(p) => d.insert(p, folder()),
        OpView::Move(a, b) => d.remove(a).insert(b, d[a]),
        OpView::MoveTree(a, b) => moved_tree(d, a, b),
        OpView::Copy(a, b) => d.insert(b, copied_node(d[a])),
        OpView::Delete(p) => d.remove(p),
        OpView::Write(p, m) => d.insert(p, fresh_manifest(m)),
        OpView::RemoveTree { path, lenient } => without_tree(d, path),
        OpView::RemoveDir(p) => d.remove(p),
        OpView::Restore(p, node) => d.insert(p, node),
        OpView::Settle => d,
        OpView::Commit => d,
    }
}

/// Whether a change can be made.
pub open spec fn legal(d: DiskView, op: OpView) -> bool {
    match op {
        OpView::MakeDir(p) => !exists_at(d, p) && parent_ready(d, p),
        OpView::Move(a, b) => is_file_at(d, a) && !is_dir_at(d, b) && parent_ready(d, b),
        OpView::MoveTree(a, b) => is_dir_at(d, a) && !exists_at(d, b) && parent_ready(d, b)
            && !a.is_prefix_of(b),
        OpView::Copy(a, b) => is_file_at(d, a) && !is_dir_at(d, b) && parent_ready(d, b),
        OpView::Delete(p) => is_file_at(d, p),
        OpView::Write(p, m) => !is_dir_at(d, p) && parent_ready(d, p),
        OpView::RemoveTree { path, lenient } => is_dir_at(d, path),
        OpView::RemoveDir(p) => exists_at(d, p) && d[p] == folder() && names_in(d, p).len() == 0,
        OpView::Restore(p, node) => !exists_at(d, p) && !(node.body is Folder) && parent_ready(d, p),
        OpView::Settle => true,
        OpView::Commit => true,
    }
}

/// The tree after a list of changes.
pub open spec fn replay(d: DiskView, ops: Seq<OpView>) -> DiskView
    decreases ops.len(),
{
    if ops.len() == 0 {
        d
    } else {
        apply(replay(d, ops.drop_last()), ops.last())
    }
}

/// Each change of a list can be made where it stands.
pub open spec fn legal_list(d: DiskView, ops: Seq<OpView>) -> bool
    decreases ops.len(),
{
    ops.len() == 0 || (legal_list(d, ops.drop_last()) && legal(
        replay(d, ops.drop_last()),
        ops.last(),
    ))
}

pub open spec fn op_views(v: Seq<Op>) -> Seq<OpView> {
    v.map_values(|op: Op| op@)
}

// ---------------------------------------------------------------------------
// Facts about trees
// ---------------------------------------------------------------------------

pub proof fn lemma_rooted_at(d: DiskView, p: PathView)
    requires
        rooted(d),
        d.contains_key(p),
    ensures
        parent_ready(d, p),
{
    reveal(rooted);
}

proof fn lemma_rooted_by(d: DiskView)
    requires
        forall|p: PathView| #[trigger] d.contains_key(p) ==> parent_ready(d, p),
    ensures
        rooted(d),
{
    reveal(rooted);
}

pub proof fn lemma_prefix_trans(a: PathView, b: PathView, c: PathView)
    requires
        a.is_prefix_of(b),
        b.is_prefix_of(c),
    ensures
        a.is_prefix_of(c),
{
    assert(a =~= c.take(a.len() as int)) by {
        assert forall|i: int| 0 <= i < a.len() implies a[i] == c[i] by {
            assert(a[i] == b.take(a.len() as int)[i]);
            assert(b[i] == c.take(b.len() as int)[i]);
        }
    }
}

proof fn lemma_prefix_step(x: PathView, p: PathView, k: int)
    requires
        0 <= k < p.len(),
    ensures
        x.is_prefix_of(p.take(k + 1)) <==> x.is_prefix_of(p.take(k)) || x == p.take(k + 1),
{
    let a = p.take(k);
    let b = p.take(k + 1);
    assert(a =~= b.take(k));
    if x.is_prefix_of(a) {
        lemma_prefix_trans(x, a, b);
    }
    if x.is_prefix_of(b) {
        if x.len() == b.len() {
            assert(x =~= b);
        } else {
            assert(x =~= a.take(x.len() as int)) by {
                assert(x == b.take(x.len() as int));
            }
        }
    }
    assert(b =~= b.take(b.len() as int));
}

pub proof fn lemma_push_prefix(a: PathView, n: Seq<char>)
    ensures
        a.is_prefix_of(a.push(n)),
        a.is_prefix_of(a),
        is_child(a, a.push(n)),
{
    assert(a =~= a.push(n).take(a.len() as int));
    assert(a =~= a.take(a.len() as int));
}

pub proof fn lemma_child(dir: PathView, p: PathView)
    requires
        is_child(dir, p),
    ensures
        p == dir.push(p.last()),
{
    assert(dir == p.take(dir.len() as int));
    assert(p =~= dir.push(p.last()));
}

/// What stands below a path stands below something.
pub proof fn lemma_below_exists(d: DiskView, b: PathView, p: PathView)
    requires
        rooted(d),
        d.contains_key(p),
        b.is_prefix_of(p),
        path_parent(b) is Some,
    ensures
        d.contains_key(b),
        b.len() < p.len() ==> is_dir_at(d, b),
    decreases p.len(),
{
    if p.len() == b.len() {
        assert(b =~= p);
    } else {
        let q = p.drop_last();
        lemma_rooted_at(d, p);
        assert(path_parent(p) == Some(q));
        assert(b =~= q.take(b.len() as int)) by {
            assert(b == p.take(b.len() as int));
        }
        if path_parent(q) is None {
            assert(q.len() <= 1);
            assert(b.len() <= q.len());
            if b.len() == q.len() {
                assert(b =~= q);
            }
            assert(false);
        }
        lemma_below_exists(d, b, q);
        if b.len() == q.len() {
            assert(b =~= q);
        }
    }
}

/// A change that can be made keeps everything in a directory.
pub proof fn law_changes_keep_the_tree_rooted(d: DiskView, op: OpView)
    requires
        rooted(d),
        legal(d, op),
        d.dom().finite(),
    ensures
        rooted(apply(d, op)),
        apply(d, op).dom().finite(),
{
    let e = apply(d, op);
    match op {
        OpView::MakeDir(p) => {
            lemma_insert_finite(d, p, folder());
            assert forall|q: PathView| #[trigger] e.contains_key(q) implies parent_ready(e, q) by {
                assert(q == p || d.contains_key(q));
                if d.contains_key(q) {
                    lemma_rooted_at(d, q);
                }
            }
        },
        OpView::Move(a, b) => {
            assert(d.remove(a).dom().finite());
            lemma_insert_finite(d.remove(a), b, d[a]);
            assert forall|q: PathView| #[trigger] e.contains_key(q) implies parent_ready(e, q) by {
                assert(q == b || d.contains_key(q));
                if d.contains_key(q) {
                    lemma_rooted_at(d, q);
                }
            }
        },
        OpView::MoveTree(a, b) => {
            lemma_moved_tree_rooted(d, a, b);
        },
        OpView::Copy(a, b) => {
            lemma_insert_finite(d, b, copied_node(d[a]));
            assert forall|q: PathView| #[trigger] e.contains_key(q) implies parent_ready(e, q) by {
                assert(q == b || d.contains_key(q));
                if d.contains_key(q) {
                    lemma_rooted_at(d, q);
                }
            }
        },
        OpView::Delete(p) => {
            assert forall|q: PathView| #[trigger] e.contains_key(q) implies parent_ready(e, q) by {
                assert(d.contains_key(q));
                if d.contains_key(q) {
                    lemma_rooted_at(d, q);
                }
            }
        },
        OpView::Write(p, m) => {
            lemma_insert_finite(d, p, fresh_manifest(m));
            assert forall|q: PathView| #[trigger] e.contains_key(q) implies parent_ready(e, q) by {
                assert(q == p || d.contains_key(q));
                if d.contains_key(q) {
                    lemma_rooted_at(d, q);
                }
            }
        },
        OpView::RemoveTree { path, lenient } => {
            assert(e.dom().subset_of(d.dom()));
            vstd::set_lib::lemma_len_subset(e.dom(), d.dom());
            assert forall|q: PathView| #[trigger] e.contains_key(q) implies parent_ready(e, q) by {
                assert(d.contains_key(q));
                if d.contains_key(q) {
                    lemma_rooted_at(d, q);
                }
                let r = path_parent(q)->0;
                assert(r == q.drop_last());
                assert(r =~= q.take(r.len() as int));
                if path.is_prefix_of(r) {
                    lemma_prefix_trans(path, r, q);
                }
            }
        },
        OpView::RemoveDir(p) => {
            assert forall|q: PathView| #[trigger] e.contains_key(q) implies parent_ready(e, q) by {
                assert(d.contains_key(q));
                if d.contains_key(q) {
                    lemma_rooted_at(d, q);
                }
                if path_parent(q) == Some(p) {
                    assert(p =~= q.take(p.len() as int));
                    lemma_child(p, q);
                    crate::table::lemma_finite_has_order::<TreePath, NodeView>(d);
                    lemma_names_in(d, p);
                    assert(names_in(d, p).contains(q.last()));
                }
            }
        },
        OpView::Restore(p, node) => {
            lemma_insert_finite(d, p, node);
            assert forall|q: PathView| #[trigger] e.contains_key(q) implies parent_ready(e, q) by {
                assert(q == p || d.contains_key(q));
                if d.contains_key(q) {
                    lemma_rooted_at(d, q);
                }
            }
        },
        OpView::Settle => {},
        OpView::Commit => {},
    }
    if !(op is MoveTree) && !(op is Settle) && !(op is Commit) {
        lemma_rooted_by(e);
    }
}

proof fn lemma_insert_finite(d: DiskView, p: PathView, n: NodeView)
    requires
        d.dom().finite(),
    ensures
        d.insert(p, n).dom().finite(),
{
    assert(d.insert(p, n).dom() =~= d.dom().insert(p));
}

proof fn lemma_moved_tree_rooted(d: DiskView, a: PathView, b: PathView)
    requires
        rooted(d),
        d.dom().finite(),
        legal(d, OpView::MoveTree(a, b)),
    ensures
        rooted(moved_tree(d, a, b)),
        moved_tree(d, a, b).dom().finite(),
{
    let e = moved_tree(d, a, b);
    let rebase = |p: PathView|
        if a.is_prefix_of(p) {
            b + p.skip(a.len() as int)
        } else {
            p
        };
    let image = d.dom().map(rebase);
    d.dom().lemma_map_finite(rebase);
    assert(e.dom().subset_of(image)) by {
        assert forall|q: PathView| e.dom().contains(q) implies image.contains(q) by {
            if b.is_prefix_of(q) {
                let s = a + q.skip(b.len() as int);
                assert(a =~= s.take(a.len() as int));
                assert(s.skip(a.len() as int) =~= q.skip(b.len() as int));
                assert(q =~= b + q.skip(b.len() as int)) by {
                    assert(b == q.take(b.len() as int));
                }
                assert(rebase(s) == q);
                assert(d.dom().contains(s));
            } else {
                assert(rebase(q) == q);
                assert(d.dom().contains(q));
            }
        }
    }
    vstd::set_lib::lemma_len_subset(e.dom(), image);
    assert forall|q: PathView| #[trigger] e.contains_key(q) implies parent_ready(e, q) by {
        if b.is_prefix_of(q) {
            let s = a + q.skip(b.len() as int);
            assert(d.contains_key(s));
            lemma_rooted_at(d, s);
            if q.len() == b.len() {
                assert(q =~= b);
                let r = path_parent(b)->0;
                assert(r == b.drop_last());
                assert(r =~= b.take(r.len() as int));
                if path_parent(r) is Some {
                    if a.is_prefix_of(r) {
                        lemma_prefix_trans(a, r, b);
                    }
                    if b.is_prefix_of(r) {
                        assert(b.len() <= r.len());
                    }
                    assert(is_dir_at(d, r));
                    assert(is_dir_at(e, r));
                }
            } else {
                let r = q.drop_last();
                assert(path_parent(q) == Some(r));
                assert(b =~= r.take(b.len() as int)) by {
                    assert(b == q.take(b.len() as int));
                }
                let t = a + r.skip(b.len() as int);
                assert(t =~= s.drop_last());
                assert(path_parent(s) == Some(t));
                if path_parent(r) is Some {
                    if path_parent(t) is None {
                        // `t` is `a`, and `a` is a directory of the tree
                        assert(a =~= t.take(a.len() as int));
                        lemma_rooted_at(d, a);
                        assert(a.len() > 0);
                        assert(a =~= t);
                    }
                    assert(is_dir_at(d, t));
                    assert(is_dir_at(e, r));
                }
            }
        } else {
            assert(d.contains_key(q));
            lemma_rooted_at(d, q);
            let r = q.drop_last();
            assert(path_parent(q) == Some(r));
            assert(r =~= q.take(r.len() as int));
            if path_parent(r) is Some {
                if a.is_prefix_of(r) {
                    lemma_prefix_trans(a, r, q);
                }
                if b.is_prefix_of(r) {
                    lemma_prefix_trans(b, r, q);
                }
                assert(is_dir_at(e, r));
            }
        }
    }
    lemma_rooted_by(e);
}

/// The names in a directory are those that stand in it.
pub proof fn lemma_names_in(d: DiskView, dir: PathView)
    requires
        lists_keys::<TreePath, NodeView>(all_paths(d), d),
    ensures
        forall|n: Seq<char>|
            #[trigger] names_in(d, dir).contains(n) <==> d.contains_key(dir.push(n)),
        ascending::<String>(names_in(d, dir)),
{
    let keys = all_paths(d);
    let pred = |p: PathView| is_child(dir, p);
    let kids = keys.filter(pred);
    lemma_filter_members(keys, pred);
    let names = names_in(d, dir);
    assert forall|n: Seq<char>| #[trigger] names.contains(n) <==> d.contains_key(dir.push(n)) by {
        let p = dir.push(n);
        assert(keys.contains(p) <==> d.contains_key(p));
        if names.contains(n) {
            let i = choose|i: int| 0 <= i < names.len() && names[i] == n;
            assert(kids.contains(kids[i]));
            lemma_child(dir, kids[i]);
            assert(keys.contains(kids[i]));
        }
        if d.contains_key(p) {
            lemma_push_prefix(dir, n);
            let j = choose|j: int| 0 <= j < keys.len() && keys[j] == p;
            assert(pred(keys[j]));
            assert(kids.contains(p));
            let i = choose|i: int| 0 <= i < kids.len() && kids[i] == p;
            assert(names[i] == n);
        }
    }
    lemma_filter_ascending(keys, pred);
    assert forall|i: int, j: int| 0 <= i < j < names.len() implies text_before(
        #[trigger] names[i],
        #[trigger] names[j],
    ) by {
        assert(path_before(kids[i], kids[j]));
        lemma_child(dir, kids[i]);
        lemma_child(dir, kids[j]);
        lemma_sibling_order(dir, names[i], names[j]);
    }
}

pub proof fn lemma_sibling_order(dir: PathView, a: Seq<char>, b: Seq<char>)
    ensures
        path_before(dir.push(a), dir.push(b)) == text_before(a, b),
    decreases dir.len(),
{
    text::lemma_text_before_total(a, b);
    if dir.len() > 0 {
        assert(dir.push(a).drop_first() =~= dir.drop_first().push(a));
        assert(dir.push(b).drop_first() =~= dir.drop_first().push(b));
        lemma_sibling_order(dir.drop_first(), a, b);
    } else {
        assert(dir.push(a).drop_first() =~= Seq::<Seq<char>>::empty());
        assert(dir.push(b).drop_first() =~= Seq::<Seq<char>>::empty());
        assert(!path_before(Seq::<Seq<char>>::empty(), Seq::<Seq<char>>::empty()));
    }
}

/// A part of an ordered list is ordered.
pub proof fn lemma_filter_ascending(s: Seq<PathView>, pred: spec_fn(PathView) -> bool)
    requires
        ascending::<TreePath>(s),
    ensures
        ascending::<TreePath>(s.filter(pred)),
    decreases s.len(),
{
    reveal(Seq::filter);
    if s.len() > 0 {
        let t = s.drop_last();
        lemma_filter_ascending(t, pred);
        lemma_filter_members(t, pred);
        if pred(s.last()) {
            let f = t.filter(pred);
            assert(s.filter(pred) == f.push(s.last()));
            assert forall|i: int, j: int| 0 <= i < j < f.push(s.last()).len() implies path_before(
                #[trigger] f.push(s.last())[i],
                #[trigger] f.push(s.last())[j],
            ) by {
                if j == f.len() {
                    assert(f.contains(f[i]));
                    assert(t.contains(f[i]));
                    let a = choose|a: int| 0 <= a < t.len() && t[a] == f[i];
                    assert(s[a] == f[i]);
                    assert(TreePath::before(s[a], s[s.len() - 1]));
                }
            }
        }
    }
}

/// A part of a list of names in order holds each once.
pub proof fn lemma_filter_distinct(s: Seq<Seq<char>>, pred: spec_fn(Seq<char>) -> bool)
    requires
        ascending::<String>(s),
    ensures
        forall|i: int, j: int|
            0 <= i < s.filter(pred).len() && 0 <= j < s.filter(pred).len() && i != j ==> (
            #[trigger] s.filter(pred)[i]) != (#[trigger] s.filter(pred)[j]),
    decreases s.len(),
{
    reveal(Seq::filter);
    if s.len() > 0 {
        let t = s.drop_last();
        lemma_filter_distinct(t, pred);
        lemma_filter_members(t, pred);
        let f = t.filter(pred);
        if pred(s.last()) {
            assert(s.filter(pred) == f.push(s.last()));
            assert forall|i: int| 0 <= i < f.len() implies #[trigger] f[i] != s.last() by {
                assert(f.contains(f[i]));
                let a = choose|a: int| 0 <= a < t.len() && t[a] == f[i];
                assert(String::before(s[a], s[s.len() - 1]));
                text::lemma_text_before_total(s[a], s.last());
            }
        }
    }
}

/// What a filter keeps.
pub proof fn lemma_filter_members<A>(s: Seq<A>, pred: spec_fn(A) -> bool)
    ensures
        forall|x: A| #[trigger] s.filter(pred).contains(x) <==> s.contains(x) && pred(x),
    decreases s.len(),
{
    assert forall|x: A| #[trigger] s.filter(pred).contains(x) <==> s.contains(x) && pred(x) by {
        if s.filter(pred).contains(x) {
            s.lemma_filter_contains_rev(pred, x);
            let i = choose|i: int| 0 <= i < s.filter(pred).len() && s.filter(pred)[i] == x;
            s.lemma_filter_pred(pred, i);
        }
        if s.contains(x) && pred(x) {
            let i = choose|i: int| 0 <= i < s.len() && s[i] == x;
            s.lemma_filter_contains(pred, i);
        }
    }
}

/// A filter that everything passes.
pub proof fn lemma_filter_all<A>(s: Seq<A>, pred: spec_fn(A) -> bool)
    requires
        forall|i: int| 0 <= i < s.len() ==> pred(#[trigger] s[i]),
    ensures
        s.filter(pred) == s,
    decreases s.len(),
{
    reveal(Seq::filter);
    if s.len() > 0 {
        let t = s.drop_last();
        assert forall|i: int| 0 <= i < t.len() implies pred(#[trigger] t[i]) by {
            assert(t[i] == s[i]);
        }
        lemma_filter_all(t, pred);
        assert(s =~= t.push(s.last()));
    } else {
        assert(s.filter(pred) =~= s);
    }
}

/// Filtering one more element.
pub proof fn lemma_filter_push<A>(s: Seq<A>, x: A, pred: spec_fn(A) -> bool)
    ensures
        s.push(x).filter(pred) == (if pred(x) {
            s.filter(pred).push(x)
        } else {
            s.filter(pred)
        }),
{
    reveal(Seq::filter);
    assert(s.push(x).drop_last() =~= s);
}

// ---------------------------------------------------------------------------
// The tree and its notes
// ---------------------------------------------------------------------------

struct State {
    table: Table<TreePath, Node>,
    journal: Vec<Op>,
    origin: Ghost<DiskView>,
}

impl State {
    spec fn ok(self) -> bool {
        &&& self.table@ == replay(self.origin@, op_views(self.journal@))
        &&& legal_list(self.origin@, op_views(self.journal@))
        &&& rooted(self.table@)
        &&& self.table@.dom().finite()
    }
}

/// A tree, with the changes that led to it from the tree that was read.
pub struct Disk {
    state: State,
}

impl View for Disk {
    type V = DiskView;

    closed spec fn view(&self) -> DiskView {
        self.state.table@
    }
}

/// Nothing on the way to `p` is a file, so the directories up to it can be made.
pub open spec fn dirs_possible(d: DiskView, p: PathView) -> bool {
    forall|k: int| 0 <= k <= p.len() ==> !is_file_at(d, #[trigger] p.take(k))
}

/// The tree with `p` and the directories on the way to it.
pub open spec fn with_dirs(d: DiskView, p: PathView) -> DiskView {
    Map::new(
        |q: PathView| d.contains_key(q) || (q.is_prefix_of(p) && path_parent(q) is Some),
        |q: PathView|
            if d.contains_key(q) {
                d[q]
            } else {
                folder()
            },
    )
}

/// Making directories keeps everything in a directory.
pub proof fn lemma_with_dirs(d: DiskView, p: PathView)
    requires
        rooted(d),
        d.dom().finite(),
        dirs_possible(d, p),
    ensures
        rooted(with_dirs(d, p)),
        with_dirs(d, p).dom().finite(),
{
    let e = with_dirs(d, p);
    assert forall|q: PathView| #[trigger] e.contains_key(q) implies parent_ready(e, q) by {
        if d.contains_key(q) {
            lemma_rooted_at(d, q);
        } else {
            let r = q.drop_last();
            assert(q == p.take(q.len() as int));
            assert(r =~= p.take(r.len() as int));
            assert(!is_file_at(d, p.take(r.len() as int)));
        }
    }
    lemma_rooted_by(e);
    lemma_prefixes_finite(p);
    let all = d.dom().union(Set::new(|q: PathView| q.is_prefix_of(p)));
    assert(e.dom().subset_of(all));
    vstd::set_lib::lemma_len_subset(e.dom(), all);
}

/// Where a directory is there already, making it changes nothing.
pub proof fn lemma_dirs_there(d: DiskView, p: PathView)
    requires
        rooted(d),
        path_parent(p) is None || is_dir_at(d, p),
    ensures
        dirs_possible(d, p),
        with_dirs(d, p) == d,
{
    let e = with_dirs(d, p);
    assert forall|q: PathView| q.is_prefix_of(p) && path_parent(q) is Some implies is_dir_at(
        d,
        q,
    ) by {
        if path_parent(p) is None {
            assert(q == p.take(q.len() as int));
            assert(q =~= p);
        } else {
            lemma_below_exists(d, q, p);
            if q.len() == p.len() {
                assert(q =~= p);
            }
        }
    }
    assert forall|k: int| 0 <= k <= p.len() implies !is_file_at(d, #[trigger] p.take(k)) by {
        let q = p.take(k);
        assert(q =~= p.take(q.len() as int));
        assert(q.is_prefix_of(p));
        if d.contains_key(q) {
            lemma_rooted_at(d, q);
        }
    }
    assert(e =~= d);
}

proof fn lemma_prefixes_finite(p: PathView)
    ensures
        Set::new(|q: PathView| q.is_prefix_of(p)).finite(),
    decreases p.len(),
{
    let all = Set::new(|q: PathView| q.is_prefix_of(p));
    if p.len() == 0 {
        assert forall|q: PathView| all.contains(q) implies q == p by {
            assert(q =~= p);
        }
        assert(all.subset_of(set![p]));
        vstd::set_lib::lemma_len_subset(all, set![p]);
    } else {
        lemma_prefixes_finite(p.drop_last());
        let rest = Set::new(|q: PathView| q.is_prefix_of(p.drop_last())).insert(p);
        assert forall|q: PathView| all.contains(q) implies rest.contains(q) by {
            lemma_prefix_step(q, p, p.len() - 1);
            assert(p.take(p.len() as int) =~= p);
            assert(p.take(p.len() - 1) =~= p.drop_last());
        }
        assert(all.subset_of(rest));
        vstd::set_lib::lemma_len_subset(all, rest);
    }
}

/// The change that renames `a` to `b`.
pub open spec fn rename_op(d: DiskView, a: PathView, b: PathView) -> OpView {
    if is_dir_at(d, a) {
        OpView::MoveTree(a, b)
    } else {
        OpView::Move(a, b)
    }
}

pub open spec fn can_rename(d: DiskView, a: PathView, b: PathView) -> bool {
    legal(d, rename_op(d, a, b))
}

pub open spec fn renamed(d: DiskView, a: PathView, b: PathView) -> DiskView {
    apply(d, rename_op(d, a, b))
}

pub open spec fn cannot_text(what: Seq<char>, p: PathView) -> Seq<char> {
    "Cannot "@ + what + " "@ + path_text(p)
}

/// Without the file at a path, its directory is still there.
proof fn lemma_deleted_ready(d: DiskView, p: PathView)
    ensures
        parent_ready(d, p) ==> parent_ready(if is_file_at(d, p) { d.remove(p) } else { d }, p),
{
    if path_parent(p) is Some {
        assert(p.drop_last().len() < p.len());
    }
}

/// The failure to do `what` at a path.
fn cannot(what: &str, p: &TreePath) -> (r: Error)
    ensures
        r@ == ErrorView::Io(cannot_text(what@, p@)),
{
    let mut m: String = "Cannot ".to_owned();
    m.append(what);
    m.append(" ");
    m.append(p.to_text().as_str());
    Error::Io(m)
}

impl Disk {
    #[verifier::type_invariant]
    spec fn consistent(self) -> bool {
        self.state.ok()
    }

    /// The tree that was read.
    pub closed spec fn origin(self) -> DiskView {
        self.state.origin@
    }

    /// The changes made since.
    pub closed spec fn notes(self) -> Seq<OpView> {
        op_views(self.state.journal@)
    }

    /// A tree as it was read; `None` if something in it stands in no directory.
    /// Where a path occurs twice, the later entry counts.
    pub fn read(entries: Vec<(TreePath, Node)>) -> (r: Option<Disk>)
        ensures
            match r {
                Some(d) => d@ == entry_map(entries@) && rooted(d@) && d.origin() == d@
                    && d.notes() == Seq::<OpView>::empty(),
                None => !rooted(entry_map(entries@)),
            },
    {
        let ghost all = entries@;
        let mut table: Table<TreePath, Node> = Table::new();
        let mut i: usize = 0;
        assert(all.take(0) =~= Seq::empty());
        while i < entries.len()
            invariant
                i <= entries@.len(),
                entries@ == all,
                table@ == entry_map(all.take(i as int)),
            decreases entries@.len() - i,
        {
            table.insert(entries[i].0.duplicate(), entries[i].1.copy_value());
            proof {
                assert(all.take(i + 1).drop_last() =~= all.take(i as int));
            }
            i = i + 1;
        }
        assert(all.take(all.len() as int) =~= all);
        let n: usize = table.len();
        let mut k: usize = 0;
        while k < n
            invariant
                k <= n == table.keys().len(),
                table@ == entry_map(entries@),
                lists_keys::<TreePath, NodeView>(table.keys(), table@),
                forall|j: int| 0 <= j < k ==> parent_ready(table@, #[trigger] table.keys()[j]),
            decreases n - k,
        {
            if !Disk::table_parent_ready(&table, table.key_at(k)) {
                proof {
                    reveal(rooted);
                }
                return None;
            }
            k = k + 1;
        }
        proof {
            assert forall|p: PathView| #[trigger] table@.contains_key(p) implies parent_ready(
                table@,
                p,
            ) by {
                assert(table.keys().contains(p));
            }
            lemma_rooted_by(table@);
        }
        let journal: Vec<Op> = Vec::new();
        assert(op_views(journal@) =~= Seq::<OpView>::empty());
        let origin: Ghost<DiskView> = Ghost(table@);
        Some(Disk { state: State { table, journal, origin } })
    }

    fn table_is_dir(table: &Table<TreePath, Node>, p: &TreePath) -> (r: bool)
        ensures
            r == is_dir_at(table@, p@),
    {
        match table.get(p) {
            Some(node) => match node.body {
                Body::Folder => true,
                _ => false,
            },
            None => false,
        }
    }

    fn table_parent_ready(table: &Table<TreePath, Node>, p: &TreePath) -> (r: bool)
        ensures
            r == parent_ready(table@, p@),
    {
        match p.parent() {
            Some(q) => match q.parent() {
                Some(_) => Disk::table_is_dir(table, &q),
                None => true,
            },
            None => false,
        }
    }

    pub fn has(&self, p: &TreePath) -> (r: bool)
        ensures
            r == exists_at(self@, p@),
    {
        self.state.table.contains(p)
    }

    pub fn is_dir(&self, p: &TreePath) -> (r: bool)
        ensures
            r == is_dir_at(self@, p@),
    {
        Disk::table_is_dir(&self.state.table, p)
    }

    /// Whether a directory stands at a path that is no link to one.
    pub fn is_own_dir(&self, p: &TreePath) -> (r: bool)
        ensures
            r == (exists_at(self@, p@) && self@[p@] == folder()),
    {
        match self.state.table.get(p) {
            Some(node) => match node.body {
                Body::Folder => !node.linked,
                _ => false,
            },
            None => false,
        }
    }

    pub fn is_file(&self, p: &TreePath) -> (r: bool)
        ensures
            r == is_file_at(self@, p@),
    {
        self.has(p) && !self.is_dir(p)
    }

    /// What stands at a path.
    pub fn node(&self, p: &TreePath) -> (r: Option<Node>)
        ensures
            match r {
                Some(n) => exists_at(self@, p@) && n@ == self@[p@],
                None => !exists_at(self@, p@),
            },
    {
        match self.state.table.get(p) {
            Some(n) => Some(n.copy_value()),
            None => None,
        }
    }

    /// How many paths the tree has.
    pub fn count(&self) -> (r: usize)
        ensures
            r == self@.dom().len(),
            r == all_paths(self@).len(),
            self@.dom().finite(),
    {
        let n: usize = self.state.table.len();
        proof {
            let keys = all_paths(self@);
            assert(keys.no_duplicates()) by {
                assert forall|i: int, j: int|
                    0 <= i < keys.len() && 0 <= j < keys.len() && i != j implies keys[i]
                    != keys[j] by {
                    lemma_path_before_total(keys[i], keys[j]);
                    if i < j {
                        assert(TreePath::before(keys[i], keys[j]));
                    } else {
                        assert(TreePath::before(keys[j], keys[i]));
                    }
                }
            }
            keys.unique_seq_to_set();
            assert(keys.to_set() =~= self@.dom()) by {
                assert forall|p: PathView| keys.to_set().contains(p) <==> self@.dom().contains(
                    p,
                ) by {
                    assert(keys.contains(p) <==> self@.contains_key(p));
                }
            }
        }
        n
    }

    /// The paths below a directory, in order.
    pub fn below(&self, dir: &TreePath) -> (r: Vec<TreePath>)
        ensures
            crate::vpk_manifest::path_views(r@) == paths_below(self@, dir@),
            lists_keys::<TreePath, NodeView>(all_paths(self@), self@),
            rooted(self@),
    {
        proof {
            use_type_invariant(self);
        }
        let n: usize = self.state.table.len();
        let ghost keys = all_paths(self@);
        let ghost pred = |p: PathView| is_below(dir@, p);
        let mut r: Vec<TreePath> = Vec::new();
        let mut i: usize = 0;
        proof {
            reveal(Seq::filter);
            assert(keys.take(0).filter(pred) =~= Seq::<PathView>::empty());
            assert(crate::vpk_manifest::path_views(r@) =~= Seq::<PathView>::empty());
        }
        while i < n
            invariant
                i <= n == keys.len(),
                keys == self.state.table.keys(),
                pred == (|p: PathView| is_below(dir@, p)),
                crate::vpk_manifest::path_views(r@) == keys.take(i as int).filter(pred),
            decreases n - i,
        {
            let p = self.state.table.key_at(i);
            proof {
                assert(keys.take(i + 1) =~= keys.take(i as int).push(keys[i as int]));
                lemma_filter_push(keys.take(i as int), keys[i as int], pred);
            }
            if p.len() > dir.len() && p.starts_with(dir) {
                let q = p.duplicate();
                assert(crate::vpk_manifest::path_views(r@.push(q))
                    =~= crate::vpk_manifest::path_views(r@).push(q@));
                r.push(q);
            }
            i = i + 1;
        }
        assert(keys.take(n as int) =~= keys);
        r
    }

    /// The names in a directory, in order.
    pub fn names(&self, dir: &TreePath) -> (r: Vec<String>)
        ensures
            texts(r@) == names_in(self@, dir@),
            forall|x: Seq<char>|
                #[trigger] names_in(self@, dir@).contains(x) <==> self@.contains_key(dir@.push(x)),
            ascending::<String>(names_in(self@, dir@)),
            rooted(self@),
    {
        proof {
            use_type_invariant(self);
        }
        let n: usize = self.state.table.len();
        let ghost keys = all_paths(self@);
        let ghost pred = |p: PathView| is_child(dir@, p);
        let ghost last = |p: PathView| p.last();
        let mut r: Vec<String> = Vec::new();
        let mut i: usize = 0;
        proof {
            lemma_names_in(self@, dir@);
            reveal(Seq::filter);
            assert(keys.take(0).filter(pred) =~= Seq::<PathView>::empty());
            assert(texts(r@) =~= Seq::<Seq<char>>::empty());
            assert(texts(r@) =~= keys.take(0).filter(pred).map_values(last));
        }
        while i < n
            invariant
                i <= n == keys.len(),
                keys == self.state.table.keys(),
                pred == (|p: PathView| is_child(dir@, p)),
                last == (|p: PathView| p.last()),
                texts(r@) == keys.take(i as int).filter(pred).map_values(last),
            decreases n - i,
        {
            let p = self.state.table.key_at(i);
            let ghost so_far = keys.take(i as int).filter(pred);
            proof {
                assert(keys.take(i + 1) =~= keys.take(i as int).push(keys[i as int]));
                lemma_filter_push(keys.take(i as int), keys[i as int], pred);
            }
            if p.len() > dir.len() && p.len() - 1 == dir.len() && p.starts_with(dir) {
                let s = p.part(p.len() - 1).to_owned();
                proof {
                    text::lemma_texts_push(r@, s);
                    assert(so_far.push(p@).map_values(last) =~= so_far.map_values(last).push(
                        p@.last(),
                    ));
                }
                r.push(s);
            }
            i = i + 1;
        }
        assert(keys.take(n as int) =~= keys);
        r
    }

    pub fn parent_is_ready(&self, p: &TreePath) -> (r: bool)
        ensures
            r == parent_ready(self@, p@),
    {
        Disk::table_parent_ready(&self.state.table, p)
    }

    /// Whether a change can be made.
    pub fn can(&self, op: &Op) -> (r: bool)
        ensures
            r == legal(self@, op@),
    {
        match op {
            Op::MakeDir(p) => !self.has(p) && self.parent_is_ready(p),
            Op::Move(a, b) => self.is_file(a) && !self.is_dir(b) && self.parent_is_ready(b),
            Op::MoveTree(a, b) => self.is_dir(a) && !self.has(b) && self.parent_is_ready(b)
                && !b.starts_with(a),
            Op::Copy(a, b) => self.is_file(a) && !self.is_dir(b) && self.parent_is_ready(b),
            Op::Delete(p) => self.is_file(p),
            Op::Write(p, _) => !self.is_dir(p) && self.parent_is_ready(p),
            Op::RemoveTree { path, lenient: _ } => self.is_dir(path),
            Op::RemoveDir(p) => {
                let names = self.names(p);
                assert(names@.len() == names_in(self@, p@).len());
                self.is_own_dir(p) && names.len() == 0
            },
            Op::Restore(p, node) => {
                let dir = match node.body {
                    Body::Folder => true,
                    _ => false,
                };
                !self.has(p) && !dir && self.parent_is_ready(p)
            },
            Op::Settle => true,
            Op::Commit => true,
        }
    }

    /// Makes a change and notes it.
    pub fn perform(&mut self, op: Op)
        requires
            legal(old(self)@, op@),
        ensures
            final(self)@ == apply(old(self)@, op@),
            final(self).origin() == old(self).origin(),
            final(self).notes() == old(self).notes().push(op@),
            rooted(final(self)@),
    {
        proof {
            use_type_invariant(&*self);
            law_changes_keep_the_tree_rooted(self@, op@);
        }
        let ghost before = self.state.table@;
        let ghost notes = op_views(self.state.journal@);
        let mut state = State {
            table: Table::new(),
            journal: Vec::new(),
            origin: Ghost(Map::<PathView, NodeView>::empty()),
        };
        proof {
            assert(op_views(state.journal@) =~= Seq::<OpView>::empty());
            reveal(rooted);
            assert(state.ok());
        }
        std::mem::swap(&mut state, &mut self.state);
        match &op {
            Op::MakeDir(p) => {
                state.table.insert(p.duplicate(), Node { linked: false, body: Body::Folder });
            },
            Op::Move(a, b) => {
                match state.table.get(a) {
                    Some(n) => {
                        let node = n.copy_value();
                        state.table.remove(a);
                        state.table.insert(b.duplicate(), node);
                    },
                    None => {},
                }
            },
            Op::MoveTree(a, b) => {
                state.table = Disk::rebased(&state.table, a, b);
            },
            Op::Copy(a, b) => {
                match state.table.get(a) {
                    Some(n) => {
                        let node = Node { linked: false, body: n.copy_value().body };
                        state.table.insert(b.duplicate(), node);
                    },
                    None => {},
                }
            },
            Op::Delete(p) => {
                state.table.remove(p);
            },
            Op::Write(p, m) => {
                state.table.insert(
                    p.duplicate(),
                    Node {
                        linked: false,
                        body: Body::Manifest { manifest: m.duplicate(), size: 0 },
                    },
                );
            },
            Op::RemoveTree { path, lenient: _ } => {
                state.table = Disk::pruned(&state.table, path);
            },
            Op::RemoveDir(p) => {
                state.table.remove(p);
            },
            Op::Restore(p, node) => {
                state.table.insert(p.duplicate(), node.copy_value());
            },
            Op::Settle => {},
            Op::Commit => {},
        }
        let ghost opv = op@;
        state.journal.push(op);
        proof {
            assert(op_views(state.journal@) =~= notes.push(opv));
            assert(notes.push(opv).drop_last() =~= notes);
            assert(state.table@ == apply(before, opv));
        }
        self.state = state;
    }

    /// The table with everything at or below `a` standing at or below `b`.
    fn rebased(table: &Table<TreePath, Node>, a: &TreePath, b: &TreePath) -> (r: Table<
        TreePath,
        Node,
    >)
        requires
            rooted(table@),
            legal(table@, OpView::MoveTree(a@, b@)),
        ensures
            r@ == moved_tree(table@, a@, b@),
    {
        let n: usize = table.len();
        let ghost d = table@;
        let ghost keys = table.keys();
        let mut r: Table<TreePath, Node> = Table::new();
        let mut i: usize = 0;
        while i < n
            invariant
                i <= n == keys.len(),
                keys == table.keys(),
                d == table@,
                rooted(d),
                legal(d, OpView::MoveTree(a@, b@)),
                lists_keys::<TreePath, NodeView>(keys, d),
                forall|q: PathView|
                    #[trigger] r@.contains_key(q) <==> exists|j: int|
                        0 <= j < i && rebase(a@, b@, #[trigger] keys[j]) == q,
                forall|j: int|
                    0 <= j < i ==> r@.contains_key(rebase(a@, b@, #[trigger] keys[j]))
                        && r@[rebase(a@, b@, keys[j])] == d[keys[j]],
            decreases n - i,
        {
            let p = table.key_at(i);
            let node = table.value_at(i).copy_value();
            let q = if p.starts_with(a) {
                b.followed_by(&p.rest(a.len()))
            } else {
                p.duplicate()
            };
            let ghost before = r@;
            let ghost qv = q@;
            assert(qv == rebase(a@, b@, keys[i as int]));
            proof {
                assert forall|j: int| 0 <= j < i implies rebase(a@, b@, #[trigger] keys[j]) != qv by {
                    assert(d.contains_key(keys[j])) by {
                        assert(keys.contains(keys[j]));
                    }
                    assert(d.contains_key(keys[i as int])) by {
                        assert(keys.contains(keys[i as int]));
                    }
                    if rebase(a@, b@, keys[j]) == qv {
                        lemma_rebase_injective(d, a@, b@, keys[j], keys[i as int]);
                    }
                    lemma_path_before_total(keys[j], keys[i as int]);
                    assert(TreePath::before(keys[j], keys[i as int]));
                }
            }
            r.insert(q, node);
            proof {
                assert forall|x: PathView| #[trigger] r@.contains_key(x) <==> exists|j: int|
                    0 <= j < i + 1 && rebase(a@, b@, #[trigger] keys[j]) == x by {
                    if r@.contains_key(x) {
                        if x == qv {
                            assert(rebase(a@, b@, keys[i as int]) == x);
                        } else {
                            assert(before.contains_key(x));
                        }
                    }
                    if exists|j: int| 0 <= j < i + 1 && rebase(a@, b@, #[trigger] keys[j]) == x {
                        let j = choose|j: int|
                            0 <= j < i + 1 && rebase(a@, b@, #[trigger] keys[j]) == x;
                        if j < i {
                            assert(before.contains_key(x));
                        }
                    }
                }
            }
            i = i + 1;
        }
        proof {
            let e = moved_tree(d, a@, b@);
            assert forall|q: PathView| r@.contains_key(q) <==> #[trigger] e.contains_key(q) by {
                if r@.contains_key(q) {
                    let j = choose|j: int| 0 <= j < n && rebase(a@, b@, #[trigger] keys[j]) == q;
                    assert(keys.contains(keys[j]));
                    lemma_rebase_target(d, a@, b@, keys[j]);
                }
                if e.contains_key(q) {
                    let s = unrebase(a@, b@, q);
                    assert(d.contains_key(s));
                    assert(keys.contains(s));
                    let j = choose|j: int| 0 <= j < keys.len() && keys[j] == s;
                    lemma_unrebase(d, a@, b@, q);
                    assert(rebase(a@, b@, keys[j]) == q);
                }
            }
            assert forall|q: PathView| #[trigger] r@.contains_key(q) implies r@[q] == e[q] by {
                let j = choose|j: int| 0 <= j < n && rebase(a@, b@, #[trigger] keys[j]) == q;
                assert(keys.contains(keys[j]));
                lemma_rebase_target(d, a@, b@, keys[j]);
            }
            assert(r@ =~= e);
        }
        r
    }

    /// The table without everything at or below `p`.
    fn pruned(table: &Table<TreePath, Node>, p: &TreePath) -> (r: Table<TreePath, Node>)
        ensures
            r@ == without_tree(table@, p@),
    {
        let n: usize = table.len();
        let ghost d = table@;
        let ghost keys = table.keys();
        let mut r: Table<TreePath, Node> = Table::new();
        let mut i: usize = 0;
        while i < n
            invariant
                i <= n == keys.len(),
                keys == table.keys(),
                d == table@,
                lists_keys::<TreePath, NodeView>(keys, d),
                forall|q: PathView|
                    #[trigger] r@.contains_key(q) <==> !p@.is_prefix_of(q) && keys.take(
                        i as int,
                    ).contains(q),
                forall|q: PathView| #[trigger] r@.contains_key(q) ==> r@[q] == d[q],
            decreases n - i,
        {
            let q = table.key_at(i);
            proof {
                let t = keys.take(i as int);
                let t1 = keys.take(i + 1);
                assert(t1 =~= t.push(keys[i as int]));
                assert forall|x: PathView| t1.contains(x) <==> (t.contains(x) || x
                    == keys[i as int]) by {
                    if t.contains(x) {
                        let a = choose|a: int| 0 <= a < t.len() && t[a] == x;
                        assert(t1[a] == x);
                    }
                    if x == keys[i as int] {
                        assert(t1[i as int] == x);
                    }
                }
            }
            if !q.starts_with(p) {
                r.insert(q.duplicate(), table.value_at(i).copy_value());
            }
            i = i + 1;
        }
        proof {
            assert(keys.take(n as int) =~= keys);
            let e = without_tree(d, p@);
            assert forall|q: PathView| r@.contains_key(q) <==> #[trigger] e.contains_key(q) by {
                assert(keys.contains(q) <==> d.contains_key(q));
            }
            assert(r@ =~= e);
        }
        r
    }

    /// Makes a change if it can be made.
    fn attempt(&mut self, op: Op, what: &str, at: &TreePath) -> (r: Result<(), Error>)
        ensures
            match r {
                Ok(_) => noted(*old(self), *final(self), op@),
                Err(e) => !legal(old(self)@, op@) && *final(self) == *old(self) && e@
                    == ErrorView::Io(cannot_text(what@, at@)),
            },
    {
        if self.can(&op) {
            self.perform(op);
            Ok(())
        } else {
            Err(cannot(what, at))
        }
    }

    /// Makes a directory and those on the way to it.
    pub fn create_dir_all(&mut self, p: &TreePath) -> (r: Result<(), Error>)
        ensures
            undoable(*old(self), *final(self)),
            match r {
                Ok(_) => dirs_possible(old(self)@, p@) && final(self)@ == with_dirs(old(self)@, p@),
                Err(e) => !dirs_possible(old(self)@, p@) && final(self)@ == old(self)@ && e@
                    == ErrorView::Io(cannot_text("create directory"@, p@)),
            },
    {
        let ghost before = self@;
        let ghost pv = p@;
        let n: usize = p.len();
        let mut i: usize = 0;
        while i < n
            invariant
                i <= n,
                n == pv.len(),
                pv == p@,
                self@ == before,
                *self == *old(self),
                before == old(self)@,
                forall|k: int| 0 <= k < i ==> !is_file_at(before, #[trigger] pv.take(k)),
            decreases n - i,
        {
            if self.is_file(&p.first(i)) {
                proof {
                    lemma_undoable_same(*old(self), *self);
                }
                return Err(cannot("create directory", p));
            }
            i = i + 1;
        }
        assert(pv.take(n as int) =~= pv);
        if self.is_file(p) {
            proof {
                lemma_undoable_same(*old(self), *self);
            }
            return Err(cannot("create directory", p));
        }
        proof {
            assert(dirs_possible(before, pv));
            let e = with_dirs(before, pv.take(0));
            assert forall|q: PathView| e.contains_key(q) implies before.contains_key(q) by {
                if q.is_prefix_of(pv.take(0)) {
                    assert(q.len() == 0);
                }
            }
            assert(e =~= before);
        }
        proof {
            lemma_undoable_same(*old(self), *self);
        }
        let mut k: usize = 0;
        while k < n
            invariant
                k <= n,
                n == pv.len(),
                pv == p@,
                undoable(*old(self), *self),
                dirs_possible(before, pv),
                self@ == with_dirs(before, pv.take(k as int)),
            decreases n - k,
        {
            let q = p.first(k + 1);
            let ghost now = self@;
            let ghost goal = with_dirs(before, pv.take(k + 1));
            proof {
                assert(!is_file_at(before, pv.take(k + 1)));
                assert forall|x: PathView| #[trigger] goal.contains_key(x) <==> (
                now.contains_key(x) || (x == q@ && path_parent(x) is Some)) by {
                    lemma_prefix_step(x, pv, k as int);
                }
            }
            if q.parent().is_some() && !self.has(&q) {
                proof {
                    let r = q@.drop_last();
                    assert(r =~= pv.take(k as int));
                    if path_parent(r) is Some {
                        assert(!is_file_at(before, pv.take(k as int)));
                        assert(r.is_prefix_of(r)) by {
                            assert(r =~= r.take(r.len() as int));
                        }
                        assert(is_dir_at(now, r));
                    }
                    assert(parent_ready(now, q@));
                }
                let ghost was = *self;
                self.perform(Op::MakeDir(q));
                proof {
                    lemma_noted(was, *self, OpView::MakeDir(pv.take(k + 1)));
                    lemma_undoable_trans(*old(self), was, *self);
                }
                assert(self@ =~= goal);
            } else {
                assert(now =~= goal);
            }
            k = k + 1;
        }
        assert(pv.take(n as int) =~= pv);
        Ok(())
    }

    /// Makes a directory where nothing stands.
    pub fn make_dir(&mut self, p: &TreePath)
        requires
            legal(old(self)@, OpView::MakeDir(p@)),
        ensures
            undoable(*old(self), *final(self)),
            final(self)@ == old(self)@.insert(p@, folder()),
    {
        let ghost before = *self;
        self.perform(Op::MakeDir(p.duplicate()));
        proof {
            lemma_noted(before, *self, OpView::MakeDir(p@));
        }
    }

    /// Renames a file or a directory. A file that stands at `b` already is deleted.
    pub fn rename(&mut self, a: &TreePath, b: &TreePath) -> (r: Result<(), Error>)
        ensures
            undoable(*old(self), *final(self)),
            match r {
                Ok(_) => can_rename(old(self)@, a@, b@) && final(self)@ == renamed(
                    old(self)@,
                    a@,
                    b@,
                ),
                Err(e) => !can_rename(old(self)@, a@, b@) && final(self)@ == old(self)@ && e@
                    == ErrorView::Io(cannot_text("rename"@, a@)),
            },
    {
        let op = if self.is_dir(a) {
            Op::MoveTree(a.duplicate(), b.duplicate())
        } else {
            Op::Move(a.duplicate(), b.duplicate())
        };
        proof {
            use_type_invariant(&*self);
            lemma_undoable_same(*self, *self);
        }
        if !self.can(&op) {
            return Err(cannot("rename", a));
        }
        if a.equals(b) {
            assert(renamed(self@, a@, b@) =~= self@);
            return Ok(());
        }
        let ghost before = *self;
        self.delete_at(b);
        let ghost middle = *self;
        proof {
            lemma_rooted_at(before@, a@);
            lemma_deleted_ready(before@, b@);
            assert(apply(middle@, op@) =~= apply(before@, op@));
        }
        let ghost opv = op@;
        self.perform(op);
        proof {
            lemma_noted(middle, *self, opv);
            lemma_undoable_trans(before, middle, *self);
        }
        Ok(())
    }

    /// Deletes the file at a path, if there is one.
    fn delete_at(&mut self, p: &TreePath)
        ensures
            undoable(*old(self), *final(self)),
            final(self)@ == if is_file_at(old(self)@, p@) {
                old(self)@.remove(p@)
            } else {
                old(self)@
            },
    {
        proof {
            lemma_undoable_same(*self, *self);
        }
        if self.is_file(p) {
            let ghost before = *self;
            self.perform(Op::Delete(p.duplicate()));
            proof {
                lemma_noted(before, *self, OpView::Delete(p@));
            }
        }
    }

    /// Renames a file, over the one that stands at `b`, at one stroke.
    pub fn replace(&mut self, a: &TreePath, b: &TreePath) -> (r: Result<(), Error>)
        ensures
            decided(*old(self), *final(self)),
            match r {
                Ok(_) => can_rename(old(self)@, a@, b@) && final(self)@ == renamed(
                    old(self)@,
                    a@,
                    b@,
                ),
                Err(e) => !can_rename(old(self)@, a@, b@) && *final(self) == *old(self) && e@
                    == ErrorView::Io(cannot_text("rename"@, a@)),
            },
    {
        let op = if self.is_dir(a) {
            Op::MoveTree(a.duplicate(), b.duplicate())
        } else {
            Op::Move(a.duplicate(), b.duplicate())
        };
        let ghost opv = op@;
        let r = self.attempt(op, "rename", a);
        proof {
            lemma_undoable_same(*old(self), *old(self));
            if r is Ok {
                lemma_decided(*old(self), *old(self), *self, opv);
            } else {
                lemma_undecided(*old(self), *self);
            }
        }
        r
    }

    /// Copies a file. The one that stands at `b` is deleted.
    pub fn copy_file(&mut self, a: &TreePath, b: &TreePath) -> (r: Result<(), Error>)
        ensures
            undoable(*old(self), *final(self)),
            match r {
                Ok(_) => legal(old(self)@, OpView::Copy(a@, b@)) && final(self)@ == apply(
                    old(self)@,
                    OpView::Copy(a@, b@),
                ),
                Err(e) => !legal(old(self)@, OpView::Copy(a@, b@)) && final(self)@ == old(self)@
                    && e@ == ErrorView::Io(cannot_text("copy"@, a@)),
            },
    {
        let op = Op::Copy(a.duplicate(), b.duplicate());
        proof {
            use_type_invariant(&*self);
            lemma_undoable_same(*self, *self);
        }
        if !self.can(&op) {
            return Err(cannot("copy", a));
        }
        if a.equals(b) {
            return self.copy_in_place(a);
        }
        let ghost before = *self;
        self.delete_at(b);
        let ghost middle = *self;
        proof {
            lemma_deleted_ready(before@, b@);
            assert(apply(middle@, op@) =~= apply(before@, op@));
        }
        let ghost opv = op@;
        self.perform(op);
        proof {
            lemma_noted(middle, *self, opv);
            lemma_undoable_trans(before, middle, *self);
        }
        Ok(())
    }

    /// Copies a file to where it stands.
    fn copy_in_place(&mut self, p: &TreePath) -> (r: Result<(), Error>)
        requires
            legal(old(self)@, OpView::Copy(p@, p@)),
        ensures
            undoable(*old(self), *final(self)),
            r is Ok,
            final(self)@ == apply(old(self)@, OpView::Copy(p@, p@)),
    {
        let ghost before = *self;
        match self.node(p) {
            Some(node) => {
                let copy = Node { linked: false, body: node.body };
                let ghost cv = copy@;
                self.delete_at(p);
                let ghost middle = *self;
                proof {
                    lemma_deleted_ready(before@, p@);
                }
                self.perform(Op::Restore(p.duplicate(), copy));
                proof {
                    lemma_noted(middle, *self, OpView::Restore(p@, cv));
                    lemma_undoable_trans(before, middle, *self);
                    assert(self@ =~= apply(before@, OpView::Copy(p@, p@)));
                }
            },
            None => {},
        }
        Ok(())
    }

    pub fn remove_file(&mut self, p: &TreePath) -> (r: Result<(), Error>)
        ensures
            undoable(*old(self), *final(self)),
            match r {
                Ok(_) => is_file_at(old(self)@, p@) && final(self)@ == old(self)@.remove(p@),
                Err(e) => !is_file_at(old(self)@, p@) && final(self)@ == old(self)@ && e@
                    == ErrorView::Io(cannot_text("remove"@, p@)),
            },
    {
        let r = self.attempt(Op::Delete(p.duplicate()), "remove", p);
        proof {
            lemma_undoable_same(*old(self), *old(self));
            if r is Ok {
                lemma_noted(*old(self), *self, OpView::Delete(p@));
            }
        }
        r
    }

    /// Removes a directory with everything below it, for good.
    pub fn remove_dir_all(&mut self, p: &TreePath) -> (r: Result<(), Error>)
        ensures
            ordered(*old(self), *final(self)),
            match r {
                Ok(_) => is_dir_at(old(self)@, p@) && final(self)@ == without_tree(
                    old(self)@,
                    p@,
                ) && final(self).notes() == old(self).notes().push(
                    OpView::RemoveTree { path: p@, lenient: false },
                ).push(OpView::Settle),
                Err(e) => !is_dir_at(old(self)@, p@) && *final(self) == *old(self) && e@
                    == ErrorView::Io(cannot_text("remove"@, p@)),
            },
    {
        let ghost before = *self;
        let r = self.attempt(
            Op::RemoveTree { path: p.duplicate(), lenient: false },
            "remove",
            p,
        );
        proof {
            lemma_undoable_same(before, before);
        }
        if r.is_ok() {
            let ghost middle = *self;
            self.perform(Op::Settle);
            proof {
                lemma_decided(
                    before,
                    before,
                    middle,
                    OpView::RemoveTree { path: p@, lenient: false },
                );
                lemma_settled(before, middle, *self, OpView::Settle);
            }
        } else {
            proof {
                lemma_undoable_is_ordered(before, *self);
            }
        }
        r
    }

    /// Removes the leftovers at `p`, if it is a directory.
    pub fn clear_away(&mut self, p: &TreePath)
        ensures
            mild(*old(self), *final(self)),
            final(self)@ == (if is_dir_at(old(self)@, p@) {
                without_tree(old(self)@, p@)
            } else {
                old(self)@
            }),
            final(self).notes() == (if is_dir_at(old(self)@, p@) {
                old(self).notes().push(OpView::RemoveTree { path: p@, lenient: true })
            } else {
                old(self).notes()
            }),
    {
        proof {
            lemma_mild_same(*self, *self);
        }
        if self.is_dir(p) {
            let ghost before = *self;
            self.perform(Op::RemoveTree { path: p.duplicate(), lenient: true });
            proof {
                lemma_mild(before, *self, OpView::RemoveTree { path: p@, lenient: true });
            }
        }
    }

    /// Removes a directory that is empty, if it can be removed.
    pub fn drop_empty_dir(&mut self, p: &TreePath)
        ensures
            mild(*old(self), *final(self)),
            undoable(*old(self), *final(self)),
            final(self)@ == (if legal(old(self)@, OpView::RemoveDir(p@)) {
                old(self)@.remove(p@)
            } else {
                old(self)@
            }),
    {
        let op = Op::RemoveDir(p.duplicate());
        proof {
            lemma_mild_same(*self, *self);
            lemma_undoable_same(*self, *self);
        }
        if self.can(&op) {
            let ghost before = *self;
            self.perform(op);
            proof {
                lemma_mild(before, *self, OpView::RemoveDir(p@));
                lemma_noted(before, *self, OpView::RemoveDir(p@));
            }
        }
    }

    /// Writes a manifest. The file that stands there is deleted.
    pub fn write_manifest(&mut self, p: &TreePath, m: &ProfileVpkManifest) -> (r: Result<
        (),
        Error,
    >)
        ensures
            undoable(*old(self), *final(self)),
            match r {
                Ok(_) => legal(old(self)@, OpView::Write(p@, m@)) && final(self)@
                    == old(self)@.insert(p@, fresh_manifest(m@)),
                Err(e) => !legal(old(self)@, OpView::Write(p@, m@)) && final(self)@ == old(self)@
                    && e@ == ErrorView::Io(cannot_text("write"@, p@)),
            },
    {
        let op = Op::Write(p.duplicate(), m.duplicate());
        proof {
            use_type_invariant(&*self);
            lemma_undoable_same(*self, *self);
        }
        if !self.can(&op) {
            return Err(cannot("write", p));
        }
        let ghost before = *self;
        self.delete_at(p);
        let ghost middle = *self;
        proof {
            lemma_deleted_ready(before@, p@);
            assert(apply(middle@, op@) =~= before@.insert(p@, fresh_manifest(m@)));
        }
        let ghost opv = op@;
        self.perform(op);
        proof {
            lemma_noted(middle, *self, opv);
            lemma_undoable_trans(before, middle, *self);
        }
        Ok(())
    }

    /// Notes that what was done so far stays.
    pub fn settle(&mut self)
        ensures
            noted(*old(self), *final(self), OpView::Settle),
            final(self)@ == old(self)@,
    {
        self.perform(Op::Settle);
    }

    /// Notes that what was asked for is done.
    pub fn commit(&mut self)
        ensures
            noted(*old(self), *final(self), OpView::Commit),
            final(self)@ == old(self)@,
    {
        self.perform(Op::Commit);
    }

    pub fn duplicate(&self) -> (r: Disk)
        ensures
            r@ == self@,
            r.notes() == self.notes(),
            r.origin() == self.origin(),
            undoable(*self, r),
            rooted(r@),
    {
        proof {
            use_type_invariant(self);
        }
        let mut journal: Vec<Op> = Vec::new();
        let mut i: usize = 0;
        while i < self.state.journal.len()
            invariant
                i <= self.state.journal@.len(),
                op_views(journal@) =~= op_views(self.state.journal@).take(i as int),
            decreases self.state.journal@.len() - i,
        {
            let op = self.state.journal[i].duplicate();
            assert(op_views(journal@.push(op)) =~= op_views(journal@).push(op@));
            journal.push(op);
            i = i + 1;
        }
        assert(op_views(journal@) =~= op_views(self.state.journal@));
        let origin: Ghost<DiskView> = Ghost(self.state.origin@);
        let r = Disk { state: State { table: self.state.table.duplicate(), journal, origin } };
        proof {
            lemma_undoable_same(*self, r);
        }
        r
    }

    /// The changes to carry out, and that they lead from the tree that was read
    /// to this one.
    pub fn into_notes(self) -> (r: Vec<Op>)
        ensures
            op_views(r@) == self.notes(),
            legal_list(self.origin(), op_views(r@)),
            replay(self.origin(), op_views(r@)) == self@,
            rooted(self@),
    {
        proof {
            use_type_invariant(&self);
        }
        let mut state = self.state;
        let mut r: Vec<Op> = Vec::new();
        std::mem::swap(&mut r, &mut state.journal);
        r
    }
}

/// Where a path goes when `a` becomes `b`.
pub open spec fn rebase(a: PathView, b: PathView, p: PathView) -> PathView {
    if a.is_prefix_of(p) {
        b + p.skip(a.len() as int)
    } else {
        p
    }
}

/// Where a path came from when `a` became `b`.
pub open spec fn unrebase(a: PathView, b: PathView, q: PathView) -> PathView {
    if b.is_prefix_of(q) {
        a + q.skip(b.len() as int)
    } else {
        q
    }
}

proof fn lemma_rebase_target(d: DiskView, a: PathView, b: PathView, p: PathView)
    requires
        rooted(d),
        legal(d, OpView::MoveTree(a, b)),
        d.contains_key(p),
    ensures
        moved_tree(d, a, b).contains_key(rebase(a, b, p)),
        moved_tree(d, a, b)[rebase(a, b, p)] == d[p],
        unrebase(a, b, rebase(a, b, p)) == p,
{
    let q = rebase(a, b, p);
    if a.is_prefix_of(p) {
        assert(b =~= q.take(b.len() as int));
        assert(q.skip(b.len() as int) =~= p.skip(a.len() as int));
        assert(a + p.skip(a.len() as int) =~= p) by {
            assert(a == p.take(a.len() as int));
        }
    } else {
        if b.is_prefix_of(p) {
            lemma_below_exists(d, b, p);
        }
    }
}

proof fn lemma_unrebase(d: DiskView, a: PathView, b: PathView, q: PathView)
    requires
        moved_tree(d, a, b).contains_key(q),
    ensures
        d.contains_key(unrebase(a, b, q)),
        rebase(a, b, unrebase(a, b, q)) == q,
{
    if b.is_prefix_of(q) {
        let s = a + q.skip(b.len() as int);
        assert(a =~= s.take(a.len() as int));
        assert(s.skip(a.len() as int) =~= q.skip(b.len() as int));
        assert(b + q.skip(b.len() as int) =~= q) by {
            assert(b == q.take(b.len() as int));
        }
    }
}

proof fn lemma_rebase_injective(d: DiskView, a: PathView, b: PathView, p: PathView, q: PathView)
    requires
        rooted(d),
        legal(d, OpView::MoveTree(a, b)),
        d.contains_key(p),
        d.contains_key(q),
        rebase(a, b, p) == rebase(a, b, q),
    ensures
        p == q,
{
    lemma_rebase_target(d, a, b, p);
    lemma_rebase_target(d, a, b, q);
}

impl Op {
    pub fn duplicate(&self) -> (r: Op)
        ensures
            r@ == self@,
    {
        match self {
            Op::MakeDir(p) => Op::MakeDir(p.duplicate()),
            Op::Move(a, b) => Op::Move(a.duplicate(), b.duplicate()),
            Op::MoveTree(a, b) => Op::MoveTree(a.duplicate(), b.duplicate()),
            Op::Copy(a, b) => Op::Copy(a.duplicate(), b.duplicate()),
            Op::Delete(p) => Op::Delete(p.duplicate()),
            Op::Write(p, m) => Op::Write(p.duplicate(), m.duplicate()),
            Op::RemoveTree { path, lenient } => Op::RemoveTree {
                path: path.duplicate(),
                lenient: *lenient,
            },
            Op::RemoveDir(p) => Op::RemoveDir(p.duplicate()),
            Op::Restore(p, node) => Op::Restore(p.duplicate(), node.copy_value()),
            Op::Settle => Op::Settle,
            Op::Commit => Op::Commit,
        }
    }
}

} // verus!
