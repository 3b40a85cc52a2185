//! What the totals of a tree count.
use super::{counted, linked_at, sizes_sum, tree_stats, vpk_extension};
use crate::disk::{
    all_paths, is_below, is_file_at, lemma_filter_ascending, lemma_filter_members, node_size,
    paths_below, DiskView, NodeView,
};
use crate::path::{PathView, TreePath};
use crate::table::{ascending, lemma_ascending_unique, lemma_finite_has_order, Key};
use vstd::prelude::*;

verus! {

/// A file below `root` that is neither a link nor reached through one.
pub open spec fn own_file(d: DiskView, root: PathView, p: PathView) -> bool {
    &&& p.len() > root.len()
    &&& root.is_prefix_of(p)
    &&& is_file_at(d, p)
    &&& forall|k: int| root.len() < k <= p.len() ==> !#[trigger] linked_at(d, p.take(k))
}

spec fn own_files(d: DiskView, root: PathView) -> Seq<PathView> {
    paths_below(d, root).filter(|p: PathView| counted(d, root, p))
}

proof fn lemma_distinct(s: Seq<PathView>)
    requires
        ascending::<TreePath>(s),
    ensures
        s.no_duplicates(),
{
    assert forall|i: int, j: int| 0 <= i < s.len() && 0 <= j < s.len() && i != j implies s[i]
        != s[j] by {
        if s[i] == s[j] {
            TreePath::before_total(s[i], s[j]);
            if i < j {
                assert(TreePath::before(s[i], s[j]));
            } else {
                assert(TreePath::before(s[j], s[i]));
            }
        }
    }
}

proof fn lemma_own_files(d: DiskView, root: PathView)
    requires
        d.dom().finite(),
    ensures
        ascending::<TreePath>(own_files(d, root)),
        own_files(d, root).no_duplicates(),
        forall|p: PathView| #[trigger] own_files(d, root).contains(p) <==> own_file(d, root, p),
{
    lemma_finite_has_order::<TreePath, NodeView>(d);
    let below = |p: PathView| is_below(root, p);
    let own = |p: PathView| counted(d, root, p);
    lemma_filter_ascending(all_paths(d), below);
    lemma_filter_ascending(paths_below(d, root), own);
    lemma_filter_members(all_paths(d), below);
    lemma_filter_members(paths_below(d, root), own);
    lemma_distinct(own_files(d, root));
    assert forall|p: PathView| #[trigger] own_files(d, root).contains(p) <==> own_file(
        d,
        root,
        p,
    ) by {
        assert(all_paths(d).contains(p) <==> d.contains_key(p));
    }
}

/// The files of a tree that are counted are all below its root, but for links and what is
/// reached through one; the VPKs are those of them with that extension.
pub proof fn law_every_file_is_counted(d: DiskView, root: PathView)
    requires
        d.dom().finite(),
    ensures
        tree_stats(d, root).files == Set::new(|p: PathView| own_file(d, root, p)).len(),
        tree_stats(d, root).vpks == Set::new(
            |p: PathView| own_file(d, root, p) && vpk_extension(p.last()),
        ).len(),
{
    let files = own_files(d, root);
    lemma_own_files(d, root);
    let pred = |p: PathView| vpk_extension(p.last());
    let vpks = files.filter(pred);
    lemma_filter_ascending(files, pred);
    lemma_filter_members(files, pred);
    lemma_distinct(vpks);
    files.unique_seq_to_set();
    vpks.unique_seq_to_set();
    assert(files.to_set() =~= Set::new(|p: PathView| own_file(d, root, p))) by {
        assert forall|p: PathView| files.to_set().contains(p) <==> own_file(d, root, p) by {
            assert(files.contains(p) <==> own_file(d, root, p));
        }
    }
    assert(vpks.to_set() =~= Set::new(
        |p: PathView| own_file(d, root, p) && vpk_extension(p.last()),
    )) by {
        assert forall|p: PathView| vpks.to_set().contains(p) <==> own_file(d, root, p)
            && vpk_extension(p.last()) by {
            assert(vpks.contains(p) <==> files.contains(p) && pred(p));
            assert(files.contains(p) <==> own_file(d, root, p));
        }
    }
}

proof fn lemma_sum_without(d: DiskView, s: Seq<PathView>, i: int)
    requires
        0 <= i < s.len(),
    ensures
        sizes_sum(d, s) == sizes_sum(d, s.remove(i)) + node_size(d[s[i]]) as nat,
    decreases s.len(),
{
    let t = s.remove(i);
    if i == s.len() - 1 {
        assert(t =~= s.drop_last());
    } else {
        lemma_sum_without(d, s.drop_last(), i);
        assert(t.drop_last() =~= s.drop_last().remove(i));
        assert(t.last() == s.last());
    }
}

proof fn lemma_sum_same(d: DiskView, e: DiskView, s: Seq<PathView>)
    requires
        forall|i: int| 0 <= i < s.len() ==> d[#[trigger] s[i]] == e[s[i]],
    ensures
        sizes_sum(d, s) == sizes_sum(e, s),
    decreases s.len(),
{
    if s.len() > 0 {
        let t = s.drop_last();
        assert forall|i: int| 0 <= i < t.len() implies d[#[trigger] t[i]] == e[t[i]] by {
            assert(t[i] == s[i]);
        }
        lemma_sum_same(d, e, t);
        assert(s.last() == s[s.len() - 1]);
    }
}

/// The size of a tree is that of its files together: without one of them it is less by just the
/// size of that file, and a tree without files has none.
pub proof fn law_sizes_add_up(d: DiskView, root: PathView, p: PathView)
    requires
        d.dom().finite(),
        own_file(d, root, p),
        forall|q: PathView| #[trigger] d.contains_key(q) && p.is_prefix_of(q) ==> q == p,
    ensures
        tree_stats(d, root).bytes == tree_stats(d.remove(p), root).bytes + node_size(d[p]) as nat,
        (forall|q: PathView| !own_file(d.remove(p), root, q)) ==> tree_stats(d.remove(p), root).bytes
            == 0,
{
    let e = d.remove(p);
    lemma_own_files(d, root);
    lemma_own_files(e, root);
    let s = own_files(d, root);
    let t = own_files(e, root);
    assert(s.contains(p));
    let i = choose|i: int| 0 <= i < s.len() && s[i] == p;
    let u = s.remove(i);
    assert(ascending::<TreePath>(u)) by {
        assert forall|a: int, b: int| 0 <= a < b < u.len() implies TreePath::before(
            #[trigger] u[a],
            #[trigger] u[b],
        ) by {
            let x = if a < i {
                a
            } else {
                a + 1
            };
            let y = if b < i {
                b
            } else {
                b + 1
            };
            assert(u[a] == s[x] && u[b] == s[y]);
        }
    }
    assert forall|q: PathView| u.contains(q) <==> t.contains(q) by {
        assert(s.contains(q) <==> own_file(d, root, q));
        assert(t.contains(q) <==> own_file(e, root, q));
        if u.contains(q) {
            let a = choose|a: int| 0 <= a < u.len() && u[a] == q;
            let x = if a < i {
                a
            } else {
                a + 1
            };
            assert(s[x] == q);
            assert(s.contains(q));
            assert(q != p);
            assert forall|k: int| root.len() < k <= q.len() implies !#[trigger] linked_at(
                e,
                q.take(k),
            ) by {
                assert(!linked_at(d, q.take(k)));
            }
            assert(own_file(e, root, q));
        }
        if t.contains(q) {
            assert(q != p);
            assert forall|k: int| root.len() < k <= q.len() implies !#[trigger] linked_at(
                d,
                q.take(k),
            ) by {
                assert(!linked_at(e, q.take(k)));
                if q.take(k) == p {
                    assert(p.is_prefix_of(q));
                    assert(d.contains_key(q));
                }
            }
            assert(own_file(d, root, q));
            let x = choose|x: int| 0 <= x < s.len() && s[x] == q;
            let a = if x < i {
                x
            } else {
                x - 1
            };
            assert(u[a] == q);
        }
    }
    lemma_ascending_unique::<TreePath>(u, t);
    lemma_sum_without(d, s, i);
    assert forall|a: int| 0 <= a < u.len() implies d[#[trigger] u[a]] == e[u[a]] by {
        assert(t.contains(u[a]));
        assert(own_file(e, root, u[a]));
    }
    lemma_sum_same(d, e, u);
    if forall|q: PathView| !own_file(e, root, q) {
        if t.len() > 0 {
            assert(t.contains(t[0]));
            assert(own_file(e, root, t[0]));
        }
    }
}

} // verus!
