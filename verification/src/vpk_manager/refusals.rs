//! What a refused or failed operation leaves alone.
use super::{GroupView, MissingVpkPolicy};
use super::operations::{
    disable_first, disable_pairs, disabled, enabled, missing_in, prefixed, Pair,
};
use super::reorder::reorder_done;
use crate::disk::{
    exists_at, folder, is_dir_at, law_changes_keep_the_tree_rooted, lemma_below_exists,
    lemma_filter_members, lemma_with_dirs, rename_op, rooted, same_at, with_dirs, DiskView,
    OpView,
};
use crate::path::{base_name, lemma_join_plain, path_join, plain_name, PathView};
use crate::shard::REORDER_STAGING_DIR;
use vstd::prelude::*;

verus! {

/// A mod of which a file is missing is not enabled, and nothing is changed: no mod
/// is ever enabled in part.
pub proof fn law_missing_files_are_refused(
    d: DiskView,
    from: PathView,
    to: PathView,
    id: Seq<char>,
    names: Seq<Seq<char>>,
    i: int,
)
    requires
        0 <= i < names.len(),
        !exists_at(d, path_join(from, names[i])),
    ensures
        enabled(d, from, to, id, names).0 == d,
        enabled(d, from, to, id, names).1 is Err,
        enabled(d, from, to, id, names).1->Err_0 is ModInvalid,
{
    let gone = |n: Seq<char>| !exists_at(d, path_join(from, n));
    lemma_filter_members(names, gone);
    assert(names.contains(names[i]));
    assert(missing_in(d, from, names).contains(names[i]));
}

/// Enabling that fails leaves every file where it was; at most it has made the
/// directory that the files were to go to.
pub proof fn law_failed_enabling_moves_nothing(
    d: DiskView,
    from: PathView,
    to: PathView,
    id: Seq<char>,
    names: Seq<Seq<char>>,
)
    requires
        enabled(d, from, to, id, names).1 is Err,
    ensures
        ({
            let e = enabled(d, from, to, id, names).0;
            &&& forall|q: PathView| #[trigger] d.contains_key(q) ==> same_at(d, e, q)
            &&& forall|q: PathView| #[trigger]
                e.contains_key(q) && !d.contains_key(q) ==> e[q] == folder() && q.is_prefix_of(to)
        }),
{
    let e = enabled(d, from, to, id, names).0;
    assert(e == d || e == with_dirs(d, to));
}

// ---------------------------------------------------------------------------
// Disabling
// ---------------------------------------------------------------------------

/// Where the enabled files of a mod are.
pub open spec fn enabled_places(from: PathView, installed: Seq<Seq<char>>) -> Seq<PathView> {
    installed.map_values(|v: Seq<char>| path_join(from, base_name(v)))
}

/// `q` is none of the paths, and stands below none of them.
pub open spec fn clear_of(paths: Seq<PathView>, q: PathView) -> bool {
    forall|i: int| 0 <= i < paths.len() ==> !(#[trigger] paths[i]).is_prefix_of(q)
}

/// What was clear of some paths is as it was.
pub open spec fn spared(d: DiskView, e: DiskView, paths: Seq<PathView>) -> bool {
    forall|q: PathView| #[trigger] d.contains_key(q) && clear_of(paths, q) ==> same_at(d, e, q)
}

proof fn lemma_disabling_spares(
    d: DiskView,
    from: PathView,
    to: PathView,
    id: Seq<char>,
    pairs: Seq<Pair>,
    paths: Seq<PathView>,
    k: int,
)
    requires
        rooted(d),
        d.dom().finite(),
        0 <= k <= pairs.len(),
        forall|i: int|
            0 <= i < pairs.len() ==> paths.contains(path_join(from, (#[trigger] pairs[i]).0)),
    ensures
        ({
            let s = disable_first(d, from, to, id, pairs, k);
            &&& rooted(s.work)
            &&& s.work.dom().finite()
            &&& spared(d, s.work, paths)
            &&& spared(d, s.kept, paths)
        }),
    decreases k,
{
    if k > 0 {
        lemma_disabling_spares(d, from, to, id, pairs, paths, k - 1);
        let s = disable_first(d, from, to, id, pairs, k - 1);
        let t = disable_first(d, from, to, id, pairs, k);
        let source = path_join(from, pairs[k - 1].0);
        let target = path_join(to, prefixed(id, pairs[k - 1].1));
        let j = choose|j: int| 0 <= j < paths.len() && paths[j] == source;
        if s.out is Ok && t.out is Ok {
            if exists_at(s.work, target) {
                law_changes_keep_the_tree_rooted(s.work, OpView::Delete(source));
                assert forall|q: PathView| #[trigger]
                    d.contains_key(q) && clear_of(paths, q) implies same_at(d, t.work, q)
                    && same_at(d, t.kept, q) by {
                    assert(!paths[j].is_prefix_of(q));
                    assert(same_at(d, s.work, q));
                    assert(same_at(d, s.kept, q));
                }
            } else {
                let op = rename_op(s.work, source, target);
                law_changes_keep_the_tree_rooted(s.work, op);
                assert forall|q: PathView| #[trigger]
                    d.contains_key(q) && clear_of(paths, q) implies same_at(d, t.work, q) by {
                    assert(!paths[j].is_prefix_of(q));
                    assert(same_at(d, s.work, q));
                    if is_dir_at(s.work, source) && target.is_prefix_of(q) {
                        lemma_below_exists(s.work, target, q);
                    }
                }
            }
        }
    }
}

/// Disabling touches nothing but the mod's enabled files. Where the disabled name
/// of one of them is taken, by a variant already there, that variant stays as it
/// is, whether disabling succeeds or not.
pub proof fn law_disabling_overwrites_nothing(
    d: DiskView,
    from: PathView,
    to: PathView,
    id: Seq<char>,
    installed: Seq<Seq<char>>,
    original: Seq<Seq<char>>,
    policy: MissingVpkPolicy,
)
    requires
        rooted(d),
        d.dom().finite(),
    ensures
        spared(
            d,
            disabled(d, from, to, id, installed, original, policy).0,
            enabled_places(from, installed),
        ),
{
    let paths = enabled_places(from, installed);
    let e = disabled(d, from, to, id, installed, original, policy).0;
    let pairs = disable_pairs(d, from, installed, original, policy);
    let all = Seq::new(installed.len(), |i: int| (base_name(installed[i]), original[i]));
    let kept = |p: Pair|
        policy == MissingVpkPolicy::Strict || exists_at(d, path_join(from, p.0));
    lemma_filter_members(all, kept);
    assert forall|i: int| 0 <= i < pairs.len() implies paths.contains(
        path_join(from, (#[trigger] pairs[i]).0),
    ) by {
        assert(pairs.contains(pairs[i]));
        let a = choose|a: int| 0 <= a < all.len() && all[a] == pairs[i];
        assert(paths[a] == path_join(from, pairs[i].0));
    }
    if e != d {
        let d1 = if from != to {
            with_dirs(d, to)
        } else {
            d
        };
        if from != to {
            lemma_with_dirs(d, to);
        }
        lemma_disabling_spares(d1, from, to, id, pairs, paths, pairs.len() as int);
        assert forall|q: PathView| #[trigger]
            d.contains_key(q) && clear_of(paths, q) implies same_at(d, e, q) by {
            assert(d1.contains_key(q));
            assert(same_at(d1, e, q));
        }
    }
}

proof fn lemma_filter_no_duplicates<A>(s: Seq<A>, pred: spec_fn(A) -> bool)
    requires
        s.no_duplicates(),
    ensures
        s.filter(pred).no_duplicates(),
    decreases s.len(),
{
    reveal(Seq::filter);
    if s.len() > 0 {
        lemma_filter_no_duplicates(s.drop_last(), pred);
        lemma_filter_members(s.drop_last(), pred);
        let most = s.drop_last().filter(pred);
        if most.contains(s.last()) {
            let i = choose|i: int| 0 <= i < s.len() - 1 && s.drop_last()[i] == s.last();
            assert(s[i] == s[s.len() - 1]);
        }
        assert forall|i: int, j: int|
            0 <= i < s.filter(pred).len() && 0 <= j < s.filter(pred).len() && i
                != j implies s.filter(pred)[i] != s.filter(pred)[j] by {
            if i < most.len() {
                assert(most.contains(most[i]));
            }
            if j < most.len() {
                assert(most.contains(most[j]));
            }
        }
    }
}

/// Where the disabled names of files are free and differ, failing takes back
/// everything.
proof fn lemma_disabling_keeps(
    d: DiskView,
    from: PathView,
    to: PathView,
    id: Seq<char>,
    pairs: Seq<Pair>,
    k: int,
)
    requires
        0 <= k <= pairs.len(),
        forall|i: int|
            0 <= i < pairs.len() ==> plain_name(prefixed(id, (#[trigger] pairs[i]).1))
                && !d.contains_key(to.push(prefixed(id, pairs[i].1))),
        forall|i: int, j: int|
            0 <= i < j < pairs.len() ==> prefixed(id, (#[trigger] pairs[i]).1) != prefixed(
                id,
                (#[trigger] pairs[j]).1,
            ),
    ensures
        ({
            let s = disable_first(d, from, to, id, pairs, k);
            &&& s.kept == d
            &&& s.out is Ok ==> forall|i: int|
                k <= i < pairs.len() ==> !s.work.contains_key(
                    to.push(prefixed(id, (#[trigger] pairs[i]).1)),
                )
        }),
    decreases k,
{
    if k > 0 {
        lemma_disabling_keeps(d, from, to, id, pairs, k - 1);
        let s = disable_first(d, from, to, id, pairs, k - 1);
        let t = disable_first(d, from, to, id, pairs, k);
        let name = prefixed(id, pairs[k - 1].1);
        let target = to.push(name);
        lemma_join_plain(to, name);
        if s.out is Ok && t.out is Ok {
            assert forall|i: int| k <= i < pairs.len() implies !t.work.contains_key(
                to.push(prefixed(id, (#[trigger] pairs[i]).1)),
            ) by {
                let other = prefixed(id, pairs[i].1);
                let q = to.push(other);
                assert(prefixed(id, pairs[k - 1].1) != other);
                assert(target.last() == name && q.last() == other);
                assert(!s.work.contains_key(q));
                if target.is_prefix_of(q) {
                    assert(q.take(target.len() as int) =~= q);
                }
            }
        }
    }
}

/// Disabling that fails leaves every file where it was, if none of the disabled
/// names was taken; at most it has made the directory that the files were to go to.
pub proof fn law_failed_disabling_puts_files_back(
    d: DiskView,
    from: PathView,
    to: PathView,
    id: Seq<char>,
    installed: Seq<Seq<char>>,
    original: Seq<Seq<char>>,
    policy: MissingVpkPolicy,
)
    requires
        original.no_duplicates(),
        forall|i: int|
            0 <= i < original.len() ==> plain_name(prefixed(id, #[trigger] original[i]))
                && !exists_at(d, to.push(prefixed(id, original[i]))),
        disabled(d, from, to, id, installed, original, policy).1 is Err,
    ensures
        ({
            let e = disabled(d, from, to, id, installed, original, policy).0;
            &&& forall|q: PathView| #[trigger] d.contains_key(q) ==> same_at(d, e, q)
            &&& forall|q: PathView| #[trigger]
                e.contains_key(q) && !d.contains_key(q) ==> e[q] == folder() && q.is_prefix_of(to)
        }),
{
    let e = disabled(d, from, to, id, installed, original, policy).0;
    if e != d {
        let pairs = disable_pairs(d, from, installed, original, policy);
        let all = Seq::new(installed.len(), |i: int| (base_name(installed[i]), original[i]));
        let kept = |p: Pair|
            policy == MissingVpkPolicy::Strict || exists_at(d, path_join(from, p.0));
        let d1 = if from != to {
            with_dirs(d, to)
        } else {
            d
        };
        lemma_filter_members(all, kept);
        assert forall|i: int, j: int|
            0 <= i < all.len() && 0 <= j < all.len() && i != j implies all[i] != all[j] by {
            assert(original[i] != original[j]);
        }
        lemma_filter_no_duplicates(all, kept);
        assert forall|i: int| 0 <= i < pairs.len() implies plain_name(
            prefixed(id, (#[trigger] pairs[i]).1),
        ) && !d1.contains_key(to.push(prefixed(id, pairs[i].1))) by {
            assert(pairs.contains(pairs[i]));
            let a = choose|a: int| 0 <= a < all.len() && all[a] == pairs[i];
            assert(original[a] == pairs[i].1);
        }
        assert forall|i: int, j: int| 0 <= i < j < pairs.len() implies prefixed(
            id,
            (#[trigger] pairs[i]).1,
        ) != prefixed(id, (#[trigger] pairs[j]).1) by {
            assert(pairs.contains(pairs[i]) && pairs.contains(pairs[j]));
            let a = choose|a: int| 0 <= a < all.len() && all[a] == pairs[i];
            let b = choose|b: int| 0 <= b < all.len() && all[b] == pairs[j];
            assert(pairs[i] != pairs[j]);
            assert(original[a] != original[b]);
            let x = prefixed(id, pairs[i].1);
            let y = prefixed(id, pairs[j].1);
            let n = id.len() as int + "_"@.len() as int;
            assert(x.skip(n) =~= pairs[i].1);
            assert(y.skip(n) =~= pairs[j].1);
        }
        lemma_disabling_keeps(d1, from, to, id, pairs, pairs.len() as int);
    }
}

// ---------------------------------------------------------------------------
// Reordering
// ---------------------------------------------------------------------------

/// A reordering that is refused or fails leaves every file where it was, unless an
/// interrupted one had to be cleared up first.
pub proof fn law_failed_reordering_moves_nothing(
    d: DiskView,
    p: PathView,
    groups: Seq<GroupView>,
)
    requires
        !exists_at(d, p.push(REORDER_STAGING_DIR@)),
        reorder_done(d, p, groups).1 is Err,
    ensures
        reorder_done(d, p, groups).0 == d,
{
}

} // verus!
