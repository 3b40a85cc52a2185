//! Enabling and disabling move each file of a mod whole, and disabling undoes
//! enabling.
use super::MissingVpkPolicy;
use super::naming::{
    enabled_count, enabled_in, enabled_names, free_from, law_enabled_names_round_trip,
    lemma_free_from, lemma_pak_plain, pak_name, pak_number,
};
use super::operations::{
    disable_first, disable_pairs, disabled, enable_first, enabled, file_names, missing_in,
    prefixed, Pair,
};
use crate::disk::{
    can_rename, exists_at, is_dir_at, is_file_at, law_changes_keep_the_tree_rooted,
    lemma_dirs_there, lemma_filter_all, lemma_filter_distinct, lemma_filter_members,
    lemma_names_in, lemma_rooted_at, lemma_with_dirs, names_in, parent_ready, rename_op, rooted,
    same_at, with_dirs, DiskView, NodeView, OpView,
};
use crate::error::ErrorView;
use crate::path::{
    base_name, lemma_join_plain, lemma_own_name, path_join, path_parent, plain_name, PathView,
    TreePath,
};
use crate::shard::SHARD_CAPACITY;
use crate::table::{lemma_finite_has_order, Key};
use vstd::prelude::*;

verus! {

// ---------------------------------------------------------------------------
// Moving a list of files
// ---------------------------------------------------------------------------

/// The tree once the first `k` files of `a` stand at the places of `b`.
pub open spec fn shifted(d: DiskView, a: Seq<PathView>, b: Seq<PathView>, k: int) -> DiskView
    decreases k,
{
    if k <= 0 {
        d
    } else {
        shifted(d, a, b, k - 1).remove(a[k - 1]).insert(b[k - 1], d[a[k - 1]])
    }
}

/// The files of `a` are there, the places of `b` are free, and none occurs twice.
pub open spec fn shiftable(d: DiskView, a: Seq<PathView>, b: Seq<PathView>) -> bool {
    &&& a.len() == b.len()
    &&& forall|i: int| 0 <= i < a.len() ==> d.contains_key(#[trigger] a[i])
    &&& forall|i: int| 0 <= i < b.len() ==> !d.contains_key(#[trigger] b[i])
    &&& forall|i: int, j: int| 0 <= i < j < a.len() ==> #[trigger] a[i] != #[trigger] a[j]
    &&& forall|i: int, j: int| 0 <= i < j < b.len() ==> #[trigger] b[i] != #[trigger] b[j]
}

pub proof fn lemma_shifted(d: DiskView, a: Seq<PathView>, b: Seq<PathView>, k: int)
    requires
        shiftable(d, a, b),
        0 <= k <= a.len(),
    ensures
        forall|i: int| 0 <= i < k ==> !shifted(d, a, b, k).contains_key(#[trigger] a[i]),
        forall|i: int|
            0 <= i < k ==> shifted(d, a, b, k).contains_key(#[trigger] b[i]) && shifted(
                d,
                a,
                b,
                k,
            )[b[i]] == d[a[i]],
        forall|q: PathView|
            (forall|i: int| 0 <= i < k ==> #[trigger] a[i] != q) && (forall|i: int|
                0 <= i < k ==> #[trigger] b[i] != q) ==> #[trigger] same_at(
                d,
                shifted(d, a, b, k),
                q,
            ),
    decreases k,
{
    if k > 0 {
        lemma_shifted(d, a, b, k - 1);
        let was = shifted(d, a, b, k - 1);
        let now = shifted(d, a, b, k);
        let x = a[k - 1];
        let y = b[k - 1];
        assert(d.contains_key(x) && !d.contains_key(y));
        assert forall|i: int| 0 <= i < k implies !now.contains_key(#[trigger] a[i]) by {
            assert(d.contains_key(a[i]));
        }
        assert forall|i: int| 0 <= i < k implies now.contains_key(#[trigger] b[i]) && now[b[i]]
            == d[a[i]] by {
            assert(!d.contains_key(b[i]));
        }
        assert forall|q: PathView|
            (forall|i: int| 0 <= i < k ==> #[trigger] a[i] != q) && (forall|i: int|
                0 <= i < k ==> #[trigger] b[i] != q) implies #[trigger] same_at(d, now, q) by {
            assert(a[k - 1] != q && b[k - 1] != q);
            assert(same_at(d, was, q));
        }
    }
}

/// Moving the files there and back leaves everything as it was.
pub proof fn lemma_there_and_back(d: DiskView, a: Seq<PathView>, b: Seq<PathView>)
    requires
        shiftable(d, a, b),
    ensures
        shiftable(shifted(d, a, b, a.len() as int), b, a),
        shifted(shifted(d, a, b, a.len() as int), b, a, a.len() as int) == d,
{
    let n = a.len() as int;
    let e = shifted(d, a, b, n);
    lemma_shifted(d, a, b, n);
    assert(shiftable(e, b, a));
    lemma_shifted(e, b, a, n);
    let f = shifted(e, b, a, n);
    assert forall|q: PathView| same_at(d, f, q) by {
        if exists|i: int| 0 <= i < n && #[trigger] a[i] == q {
            let i = choose|i: int| 0 <= i < n && #[trigger] a[i] == q;
            assert(f[a[i]] == e[b[i]]);
            assert(e[b[i]] == d[a[i]]);
        } else if exists|i: int| 0 <= i < n && #[trigger] b[i] == q {
            let i = choose|i: int| 0 <= i < n && #[trigger] b[i] == q;
            assert(!f.contains_key(b[i]));
        } else {
            assert(same_at(d, e, q));
            assert(same_at(e, f, q));
        }
    }
    assert(f =~= d) by {
        assert forall|q: PathView| #[trigger] f.contains_key(q) == d.contains_key(q) && (
        d.contains_key(q) ==> f[q] == d[q]) by {
            assert(same_at(d, f, q));
        }
    }
}

/// The places of a list of names in a directory.
pub open spec fn places(dir: PathView, names: Seq<Seq<char>>) -> Seq<PathView> {
    names.map_values(|n: Seq<char>| dir.push(n))
}

// ---------------------------------------------------------------------------
// Enabling
// ---------------------------------------------------------------------------

/// The files of a mod that can be enabled: each is there, once, under a name that
/// is not that of an enabled file.
pub open spec fn can_be_enabled(d: DiskView, dir: PathView, names: Seq<Seq<char>>) -> bool {
    &&& names.no_duplicates()
    &&& forall|i: int|
        0 <= i < names.len() ==> plain_name(#[trigger] names[i]) && pak_number(names[i]) is None
            && is_file_at(d, dir.push(names[i]))
}

/// The tree in which the files of a mod are given numbers.
pub open spec fn ready(d: DiskView, from: PathView, to: PathView) -> DiskView {
    if to != from {
        with_dirs(d, to)
    } else {
        d
    }
}

proof fn lemma_enabling(
    d: DiskView,
    from: PathView,
    to: PathView,
    names: Seq<Seq<char>>,
    k: int,
)
    requires
        rooted(d),
        d.dom().finite(),
        can_be_enabled(d, from, names),
        0 <= k <= names.len(),
        enable_first(d, from, to, names, k) is Ok,
    ensures
        ({
            let (e, out) = enable_first(d, from, to, names, k)->Ok_0;
            &&& out.len() == k
            &&& rooted(e)
            &&& e.dom().finite()
            &&& shiftable(d, places(from, names.take(k)), places(to, out))
            &&& e == shifted(d, places(from, names.take(k)), places(to, out), k)
            &&& forall|i: int|
                0 <= i < k ==> exists|n: nat|
                    1 <= n <= SHARD_CAPACITY && #[trigger] out[i] == #[trigger] pak_name(n)
        }),
    decreases k,
{
    let (e, out) = enable_first(d, from, to, names, k)->Ok_0;
    let a = places(from, names.take(k));
    let b = places(to, out);
    if k > 0 {
        let (d1, out1) = enable_first(d, from, to, names, k - 1)->Ok_0;
        lemma_enabling(d, from, to, names, k - 1);
        let a1 = places(from, names.take(k - 1));
        let b1 = places(to, out1);
        lemma_shifted(d, a1, b1, k - 1);
        lemma_free_from(d1, to, 1);
        let n = free_from(d1, to, 1)->0;
        let name = names[k - 1];
        let x = from.push(name);
        let y = to.push(pak_name(n));
        lemma_join_plain(from, name);
        law_enabled_names_round_trip(n);
        assert(out == out1.push(pak_name(n)));
        assert forall|i: int| 0 <= i < k - 1 implies #[trigger] a1[i] == a[i] && a1[i] != x && a1[i]
            != y by {
            assert(a1[i] == from.push(names[i]));
            assert(names[i] != names[k - 1]);
            assert(a1[i].last() == names[i]);
            assert(x.last() == name);
            assert(y.last() == pak_name(n));
        }
        assert(x != y) by {
            assert(x.last() == name);
            assert(y.last() == pak_name(n));
        }
        assert forall|i: int| 0 <= i < k - 1 implies #[trigger] b1[i] == b[i] && b1[i] != x && b1[i]
            != y by {
            assert(d1.contains_key(b1[i]));
            assert(!d.contains_key(b1[i]));
        }
        assert(a[k - 1] == x);
        assert(b[k - 1] == y);
        assert(same_at(d, d1, x));
        assert(same_at(d, d1, y));
        assert forall|i: int| 0 <= i < k implies d.contains_key(#[trigger] a[i]) by {
            assert(a[i] == from.push(names[i]));
        }
        assert forall|i: int| 0 <= i < k implies !d.contains_key(#[trigger] b[i]) by {
            if i < k - 1 {
                assert(b1[i] == b[i]);
            }
        }
        assert forall|i: int, j: int| 0 <= i < j < k implies #[trigger] a[i] != #[trigger] a[j] by {
            assert(a[i].last() == names[i]);
            assert(a[j].last() == names[j]);
        }
        assert forall|i: int, j: int| 0 <= i < j < k implies #[trigger] b[i] != #[trigger] b[j] by {
            assert(b1[i] == b[i]);
            if j < k - 1 {
                assert(b1[j] == b[j]);
            }
        }
        assert(rename_op(d1, x, y) == OpView::Move(x, y));
        law_changes_keep_the_tree_rooted(d1, OpView::Move(x, y));
        lemma_shifted_both(d, a1, a, b1, b, k - 1);
        assert forall|i: int| 0 <= i < k implies exists|n: nat|
            1 <= n <= SHARD_CAPACITY && #[trigger] out[i] == #[trigger] pak_name(n) by {
            if i < k - 1 {
                assert(out1[i] == out[i]);
            } else {
                assert(out[i] == pak_name(n));
            }
        }
    }
}

/// Only the first `k` files and places matter.
proof fn lemma_shifted_both(
    d: DiskView,
    a: Seq<PathView>,
    a1: Seq<PathView>,
    b: Seq<PathView>,
    b1: Seq<PathView>,
    k: int,
)
    requires
        forall|i: int| 0 <= i < k ==> #[trigger] a[i] == a1[i],
        forall|i: int| 0 <= i < k ==> #[trigger] b[i] == b1[i],
    ensures
        shifted(d, a, b, k) == shifted(d, a1, b1, k),
    decreases k,
{
    if k > 0 {
        lemma_shifted_both(d, a, a1, b, b1, k - 1);
        assert(a[k - 1] == a1[k - 1]);
        assert(b[k - 1] == b1[k - 1]);
    }
}

/// A list without repetition is no longer than one that holds all of it.
pub proof fn lemma_no_longer<A>(s: Seq<A>, t: Seq<A>)
    requires
        s.no_duplicates(),
        forall|x: A| #[trigger] s.contains(x) ==> t.contains(x),
    ensures
        s.len() <= t.len(),
{
    s.unique_seq_to_set();
    t.lemma_cardinality_of_set();
    assert(s.to_set().subset_of(t.to_set()));
    vstd::set_lib::lemma_len_subset(s.to_set(), t.to_set());
}

/// Enabling gives every file of a mod a number of its own that was free, moves it
/// there whole, and touches nothing else. No more files are enabled in a directory
/// than the engine loads.
pub proof fn law_enabling_moves_each_file(
    d: DiskView,
    from: PathView,
    to: PathView,
    id: Seq<char>,
    names: Seq<Seq<char>>,
)
    requires
        rooted(d),
        d.dom().finite(),
        names.len() > 0,
        can_be_enabled(d, from, names),
        enabled(d, from, to, id, names).1 is Ok,
    ensures
        ({
            let (e, r) = enabled(d, from, to, id, names);
            let out = r->Ok_0;
            &&& rooted(e)
            &&& e.dom().finite()
            &&& out.len() == names.len()
            &&& out.no_duplicates()
            &&& forall|i: int|
                0 <= i < out.len() ==> exists|n: nat|
                    1 <= n <= SHARD_CAPACITY && #[trigger] out[i] == #[trigger] pak_name(n)
            &&& forall|i: int|
                0 <= i < out.len() ==> !exists_at(d, to.push(#[trigger] out[i])) && exists_at(
                    e,
                    to.push(out[i]),
                ) && e[to.push(out[i])] == d[from.push(names[i])]
            &&& forall|i: int| 0 <= i < names.len() ==> !exists_at(e, from.push(#[trigger] names[i]))
            &&& forall|q: PathView|
                !places(from, names).contains(q) && !places(to, out).contains(q)
                    ==> #[trigger] same_at(ready(d, from, to), e, q)
            &&& enabled_count(e, to) <= SHARD_CAPACITY
        }),
{
    let (e, r) = enabled(d, from, to, id, names);
    let out = r->Ok_0;
    let n = names.len() as int;
    let base = ready(d, from, to);
    if to != from {
        lemma_with_dirs(d, to);
    }
    assert(can_be_enabled(base, from, names));
    assert(names.take(n) =~= names);
    let a = places(from, names);
    let b = places(to, out);
    lemma_enabling(base, from, to, names, n);
    lemma_shifted(base, a, b, n);
    assert forall|i: int, j: int| 0 <= i < out.len() && 0 <= j < out.len() && i != j implies out[i]
        != out[j] by {
        assert(b[i] == to.push(out[i]));
        assert(b[j] == to.push(out[j]));
        if i < j {
            assert(b[i] != b[j]);
        } else {
            assert(b[j] != b[i]);
        }
    }
    assert forall|i: int| 0 <= i < out.len() implies !exists_at(d, to.push(#[trigger] out[i]))
        && exists_at(e, to.push(out[i])) && e[to.push(out[i])] == d[from.push(names[i])] by {
        assert(b[i] == to.push(out[i]));
        assert(a[i] == from.push(names[i]));
        assert(is_file_at(d, from.push(names[i])));
    }
    assert forall|i: int| 0 <= i < names.len() implies !exists_at(
        e,
        from.push(#[trigger] names[i]),
    ) by {
        assert(a[i] == from.push(names[i]));
    }
    assert forall|q: PathView| !a.contains(q) && !b.contains(q) implies #[trigger] same_at(
        base,
        e,
        q,
    ) by {
        assert forall|i: int| 0 <= i < n implies #[trigger] a[i] != q by {
            assert(a.contains(a[i]));
        }
        assert forall|i: int| 0 <= i < n implies #[trigger] b[i] != q by {
            assert(b.contains(b[i]));
        }
    }
    let mine = enabled_names(e, to);
    let theirs = enabled_names(base, to);
    let pred1 = |x: Seq<char>| enabled_in(e, to, x);
    let pred2 = |x: Seq<char>| enabled_in(base, to, x);
    lemma_finite_has_order::<TreePath, NodeView>(e);
    lemma_finite_has_order::<TreePath, NodeView>(base);
    lemma_names_in(e, to);
    lemma_names_in(base, to);
    lemma_filter_members(names_in(e, to), pred1);
    lemma_filter_members(names_in(base, to), pred2);
    lemma_filter_distinct(names_in(e, to), pred1);
    let all = theirs + out;
    assert forall|x: Seq<char>| #[trigger] mine.contains(x) implies all.contains(x) by {
        let q = to.push(x);
        if b.contains(q) {
            let i = choose|i: int| 0 <= i < b.len() && b[i] == q;
            assert(b[i].last() == out[i]);
            assert(q.last() == x);
            assert(all[theirs.len() + i] == x);
        } else {
            if a.contains(q) {
                let i = choose|i: int| 0 <= i < a.len() && a[i] == q;
                assert(!e.contains_key(a[i]));
            }
            assert(same_at(base, e, q));
            assert(theirs.contains(x));
            let i = choose|i: int| 0 <= i < theirs.len() && theirs[i] == x;
            assert(all[i] == x);
        }
    }
    lemma_no_longer(mine, all);
}

// ---------------------------------------------------------------------------
// Disabling
// ---------------------------------------------------------------------------

proof fn lemma_disabling(
    d: DiskView,
    from: PathView,
    to: PathView,
    id: Seq<char>,
    pairs: Seq<Pair>,
    a: Seq<PathView>,
    b: Seq<PathView>,
    k: int,
)
    requires
        rooted(d),
        d.dom().finite(),
        0 <= k <= pairs.len() == a.len(),
        shiftable(d, a, b),
        path_parent(to) is None || is_dir_at(d, to),
        forall|i: int|
            0 <= i < pairs.len() ==> #[trigger] a[i] == path_join(from, pairs[i].0) && b[i]
                == path_join(to, prefixed(id, pairs[i].1)) && b[i] == to.push(
                prefixed(id, pairs[i].1),
            ) && is_file_at(d, a[i]) && plain_name(prefixed(id, pairs[i].1)),
    ensures
        ({
            let s = disable_first(d, from, to, id, pairs, k);
            &&& rooted(s.work)
            &&& s.work.dom().finite()
            &&& s.work == shifted(d, a, b, k)
            &&& s.out == Ok::<Seq<Seq<char>>, ErrorView>(
                pairs.take(k).map_values(|p: Pair| prefixed(id, p.1)),
            )
        }),
    decreases k,
{
    let show = |p: Pair| prefixed(id, p.1);
    if k == 0 {
        assert(pairs.take(0).map_values(show) =~= Seq::<Seq<char>>::empty());
    } else {
        lemma_disabling(d, from, to, id, pairs, a, b, k - 1);
        lemma_shifted(d, a, b, k - 1);
        let s = disable_first(d, from, to, id, pairs, k - 1);
        let x = a[k - 1];
        let y = b[k - 1];
        assert(is_file_at(d, x));
        assert(!d.contains_key(y));
        assert(same_at(d, s.work, x));
        assert(same_at(d, s.work, y));
        assert(y.drop_last() =~= to);
        assert(path_parent(y) == Some(to)) by {
            assert(y.last().len() > 0);
        }
        if path_parent(to) is Some {
            assert forall|i: int| 0 <= i < k - 1 implies #[trigger] a[i] != to by {
                assert(is_file_at(d, a[i]));
            }
            assert(same_at(d, s.work, to));
        }
        assert(parent_ready(s.work, y));
        assert(can_rename(s.work, x, y));
        law_changes_keep_the_tree_rooted(s.work, OpView::Move(x, y));
        assert(pairs.take(k) =~= pairs.take(k - 1).push(pairs[k - 1]));
        assert(pairs.take(k).map_values(show) =~= pairs.take(k - 1).map_values(show).push(
            show(pairs[k - 1]),
        ));
    }
}

/// Disabling files that are all there succeeds, and moves each of them whole.
pub proof fn lemma_disabled_whole(
    e: DiskView,
    from: PathView,
    to: PathView,
    id: Seq<char>,
    out: Seq<Seq<char>>,
    original: Seq<Seq<char>>,
    names: Seq<Seq<char>>,
    policy: MissingVpkPolicy,
)
    requires
        rooted(e),
        e.dom().finite(),
        names.len() > 0,
        out.len() == names.len(),
        original.len() == names.len(),
        shiftable(e, places(from, out), places(to, names)),
        path_parent(to) is None || is_dir_at(e, to),
        forall|i: int|
            0 <= i < out.len() ==> plain_name(#[trigger] out[i]) && is_file_at(
                e,
                from.push(out[i]),
            ),
        forall|i: int|
            0 <= i < names.len() ==> #[trigger] names[i] == prefixed(id, original[i])
                && plain_name(names[i]),
    ensures
        disabled(e, from, to, id, out, original, policy) == (
            shifted(e, places(from, out), places(to, names), names.len() as int),
            Ok::<Seq<Seq<char>>, ErrorView>(names),
        ),
        rooted(shifted(e, places(from, out), places(to, names), names.len() as int)),
        shifted(e, places(from, out), places(to, names), names.len() as int).dom().finite(),
{
    let n = names.len() as int;
    let a = places(from, out);
    let b = places(to, names);
    let installed = file_names(out);
    assert forall|i: int| 0 <= i < n implies #[trigger] installed[i] == out[i] && path_join(
        from,
        out[i],
    ) == a[i] && is_file_at(e, a[i]) by {
        assert(plain_name(out[i]));
        lemma_own_name(out[i]);
        lemma_join_plain(from, out[i]);
    }
    let gone = |x: Seq<char>| !exists_at(e, path_join(from, x));
    assert(missing_in(e, from, installed).len() == 0) by {
        lemma_filter_members(installed, gone);
        let missing = missing_in(e, from, installed);
        if missing.len() > 0 {
            assert(missing.contains(missing[0]));
            let i = choose|i: int| 0 <= i < installed.len() && installed[i] == missing[0];
            assert(is_file_at(e, a[i]));
        }
    }
    let all = Seq::new(out.len(), |i: int| (base_name(out[i]), original[i]));
    let kept = |p: Pair|
        policy == MissingVpkPolicy::Strict || exists_at(e, path_join(from, p.0));
    assert forall|i: int| 0 <= i < all.len() implies kept(#[trigger] all[i]) by {
        assert(installed[i] == out[i]);
    }
    lemma_filter_all(all, kept);
    let pairs = disable_pairs(e, from, out, original, policy);
    assert(pairs == all);
    lemma_dirs_there(e, to);
    assert forall|i: int| 0 <= i < pairs.len() implies #[trigger] a[i] == path_join(
        from,
        pairs[i].0,
    ) && b[i] == path_join(to, prefixed(id, pairs[i].1)) && b[i] == to.push(
        prefixed(id, pairs[i].1),
    ) && is_file_at(e, a[i]) && plain_name(prefixed(id, pairs[i].1)) by {
        assert(installed[i] == out[i]);
        assert(names[i] == prefixed(id, original[i]));
        lemma_join_plain(to, names[i]);
    }
    lemma_disabling(e, from, to, id, pairs, a, b, n);
    assert(pairs.take(n) =~= pairs);
    assert(pairs.map_values(|p: Pair| prefixed(id, p.1)) =~= names);
}

/// Disabling undoes enabling: it succeeds, every file of the mod is back under the
/// name it had, and the tree is as it was but for the directories that enabling
/// made.
pub proof fn law_disabling_undoes_enabling(
    d: DiskView,
    from: PathView,
    to: PathView,
    id: Seq<char>,
    names: Seq<Seq<char>>,
    original: Seq<Seq<char>>,
    policy: MissingVpkPolicy,
)
    requires
        rooted(d),
        d.dom().finite(),
        names.len() > 0,
        can_be_enabled(d, from, names),
        original.len() == names.len(),
        forall|i: int| 0 <= i < names.len() ==> #[trigger] names[i] == prefixed(id, original[i]),
        enabled(d, from, to, id, names).1 is Ok,
    ensures
        ({
            let (e, r) = enabled(d, from, to, id, names);
            disabled(e, to, from, id, r->Ok_0, original, policy) == (
                ready(d, from, to),
                Ok::<Seq<Seq<char>>, ErrorView>(names),
            )
        }),
{
    let (e, r) = enabled(d, from, to, id, names);
    let out = r->Ok_0;
    lemma_enabled_whole(d, from, to, id, names);
    lemma_there_and_back(ready(d, from, to), places(from, names), places(to, out));
    lemma_disabled_whole(e, to, from, id, out, original, names, policy);
}

/// What enabling leaves.
pub proof fn lemma_enabled_whole(
    d: DiskView,
    from: PathView,
    to: PathView,
    id: Seq<char>,
    names: Seq<Seq<char>>,
)
    requires
        rooted(d),
        d.dom().finite(),
        names.len() > 0,
        can_be_enabled(d, from, names),
        enabled(d, from, to, id, names).1 is Ok,
    ensures
        ({
            let (e, r) = enabled(d, from, to, id, names);
            let out = r->Ok_0;
            let base = ready(d, from, to);
            &&& rooted(e)
            &&& e.dom().finite()
            &&& out.len() == names.len()
            &&& shiftable(base, places(from, names), places(to, out))
            &&& e == shifted(base, places(from, names), places(to, out), names.len() as int)
            &&& path_parent(from) is None || is_dir_at(e, from)
            &&& forall|i: int|
                0 <= i < out.len() ==> plain_name(#[trigger] out[i]) && pak_number(out[i]) is Some
                    && is_file_at(e, to.push(out[i]))
        }),
{
    let (e, r) = enabled(d, from, to, id, names);
    let out = r->Ok_0;
    let n = names.len() as int;
    let base = ready(d, from, to);
    if to != from {
        lemma_with_dirs(d, to);
    }
    assert(can_be_enabled(base, from, names));
    assert(names.take(n) =~= names);
    let a = places(from, names);
    let b = places(to, out);
    lemma_enabling(base, from, to, names, n);
    lemma_shifted(base, a, b, n);
    assert forall|i: int| 0 <= i < out.len() implies plain_name(#[trigger] out[i]) && pak_number(
        out[i],
    ) is Some && is_file_at(e, to.push(out[i])) by {
        let m = choose|m: nat| 1 <= m <= SHARD_CAPACITY && out[i] == #[trigger] pak_name(m);
        lemma_pak_plain(m);
        law_enabled_names_round_trip(m);
        assert(b[i] == to.push(out[i]));
        assert(a[i] == from.push(names[i]));
        assert(is_file_at(base, from.push(names[i])));
        assert(e[b[i]] == base[a[i]]);
    }
    assert(is_file_at(base, from.push(names[0])));
    assert(plain_name(names[0]));
    lemma_rooted_at(base, from.push(names[0]));
    assert(from.push(names[0]).drop_last() =~= from);
    if path_parent(from) is Some {
        assert forall|i: int| 0 <= i < n implies #[trigger] a[i] != from by {
            assert(a[i] == from.push(names[i]));
        }
        assert(same_at(base, e, from));
    }
}

} // verus!
