//! Which files are set aside when a mod is disabled, and how staged ones return.
use super::MissingVpkPolicy;
use super::naming::{free_from, law_the_least_free_number_comes_next, pak_name, pak_number};
use super::operations::{
    disable_first, disable_pairs, disabled, file_names, missing_in, prefixed, Pair,
};
use super::staging::{recover_one, RecoveryMode};
use crate::disk::{
    exists_at, is_dir_at, is_file_at, lemma_dirs_there, lemma_filter_members, renamed, rooted,
    same_at, with_dirs, DiskView,
};
use crate::path::{base_name, lemma_join_plain, lemma_own_name, path_join, plain_name, PathView};
use crate::shard::{
    law_staged_names_round_trip, shard_dir_of, staged_text, valid_shard, BaseView, LocatorView,
};
use vstd::prelude::*;

verus! {

/// Different files, each with a disabled name of its own; none of them is a directory, stands
/// where another one goes, or on the way to where they go.
pub open spec fn can_be_disabled(
    d: DiskView,
    from: PathView,
    to: PathView,
    installed: Seq<Seq<char>>,
    names: Seq<Seq<char>>,
) -> bool {
    &&& installed.len() == names.len()
    &&& installed.no_duplicates()
    &&& names.no_duplicates()
    &&& forall|i: int| 0 <= i < names.len() ==> plain_name(#[trigger] names[i])
    &&& forall|i: int|
        0 <= i < installed.len() ==> plain_name(#[trigger] installed[i]) && !is_dir_at(
            d,
            from.push(installed[i]),
        ) && !from.push(installed[i]).is_prefix_of(to)
    &&& forall|i: int, j: int|
        0 <= i < installed.len() && 0 <= j < names.len() ==> from.push(#[trigger] installed[i])
            != to.push(#[trigger] names[j])
}

spec fn apart(pairs: Seq<Pair>) -> bool {
    forall|a: int, b: int|
        0 <= a < b < pairs.len() ==> (#[trigger] pairs[a]).0 != (#[trigger] pairs[b]).0
            && pairs[a].1 != pairs[b].1
}

proof fn lemma_still_apart(pairs: Seq<Pair>, pred: spec_fn(Pair) -> bool)
    requires
        apart(pairs),
    ensures
        apart(pairs.filter(pred)),
    decreases pairs.len(),
{
    reveal(Seq::filter);
    if pairs.len() > 0 {
        let t = pairs.drop_last();
        assert(apart(t)) by {
            assert forall|a: int, b: int| 0 <= a < b < t.len() implies (#[trigger] t[a]).0 != (
            #[trigger] t[b]).0 && t[a].1 != t[b].1 by {
                assert(t[a] == pairs[a] && t[b] == pairs[b]);
            }
        }
        lemma_still_apart(t, pred);
        lemma_filter_members(t, pred);
        let kept = t.filter(pred);
        let out = pairs.filter(pred);
        assert forall|a: int, b: int| 0 <= a < b < out.len() implies (#[trigger] out[a]).0 != (
        #[trigger] out[b]).0 && out[a].1 != out[b].1 by {
            assert(out[a] == kept[a]);
            if b < kept.len() {
                assert(out[b] == kept[b]);
            } else {
                assert(kept.contains(kept[a]));
                let i = choose|i: int| 0 <= i < t.len() && t[i] == kept[a];
                assert(pairs[i] == t[i]);
                assert(out[b] == pairs[pairs.len() - 1]);
            }
        }
    }
}

spec fn source(from: PathView, p: Pair) -> PathView {
    from.push(p.0)
}

spec fn target(to: PathView, id: Seq<char>, p: Pair) -> PathView {
    to.push(prefixed(id, p.1))
}

spec fn sound(d: DiskView, from: PathView, to: PathView, id: Seq<char>, pairs: Seq<Pair>) -> bool {
    &&& apart(pairs)
    &&& forall|i: int|
        0 <= i < pairs.len() ==> plain_name((#[trigger] pairs[i]).0) && plain_name(
            prefixed(id, pairs[i].1),
        ) && !is_dir_at(d, source(from, pairs[i]))
    &&& forall|i: int, j: int|
        0 <= i < pairs.len() && 0 <= j < pairs.len() ==> source(from, #[trigger] pairs[i]) != target(
            to,
            id,
            #[trigger] pairs[j],
        )
}

proof fn lemma_places_differ(
    d: DiskView,
    from: PathView,
    to: PathView,
    id: Seq<char>,
    pairs: Seq<Pair>,
    i: int,
    j: int,
)
    requires
        sound(d, from, to, id, pairs),
        0 <= i < pairs.len(),
        0 <= j < pairs.len(),
        i != j,
    ensures
        source(from, pairs[i]) != source(from, pairs[j]),
        target(to, id, pairs[i]) != target(to, id, pairs[j]),
{
    assert(pairs[i].0 != pairs[j].0 && pairs[i].1 != pairs[j].1) by {
        if i < j {
            assert(pairs[i].0 != pairs[j].0);
        } else {
            assert(pairs[j].0 != pairs[i].0);
        }
    }
    assert(source(from, pairs[i]).last() == pairs[i].0);
    assert(source(from, pairs[j]).last() == pairs[j].0);
    let a = prefixed(id, pairs[i].1);
    let b = prefixed(id, pairs[j].1);
    if a == b {
        let n = (id + "_"@).len() as int;
        assert(a.skip(n) =~= pairs[i].1);
        assert(b.skip(n) =~= pairs[j].1);
    }
    assert(target(to, id, pairs[i]).last() == a);
    assert(target(to, id, pairs[j]).last() == b);
}

/// What disabling the first `k` files makes of the tree.
spec fn set_aside(
    d: DiskView,
    e: DiskView,
    from: PathView,
    to: PathView,
    id: Seq<char>,
    pairs: Seq<Pair>,
    k: int,
) -> bool {
    &&& forall|j: int| 0 <= j < k ==> !e.contains_key(source(from, #[trigger] pairs[j]))
    &&& forall|j: int|
        0 <= j < k ==> {
            let t = target(to, id, #[trigger] pairs[j]);
            if d.contains_key(t) {
                same_at(d, e, t)
            } else {
                e.contains_key(t) && d.contains_key(source(from, pairs[j])) && e[t] == d[source(
                    from,
                    pairs[j],
                )]
            }
        }
    &&& forall|q: PathView|
        (forall|j: int|
            0 <= j < k ==> q != source(from, #[trigger] pairs[j]) && q != target(to, id, pairs[j]))
            ==> #[trigger] same_at(d, e, q)
}

proof fn lemma_set_aside(
    d: DiskView,
    from: PathView,
    to: PathView,
    id: Seq<char>,
    pairs: Seq<Pair>,
    k: int,
)
    requires
        sound(d, from, to, id, pairs),
        0 <= k <= pairs.len(),
        disable_first(d, from, to, id, pairs, k).out is Ok,
    ensures
        set_aside(d, disable_first(d, from, to, id, pairs, k).work, from, to, id, pairs, k),
        disable_first(d, from, to, id, pairs, k).out->Ok_0.len() == k,
        forall|j: int|
            0 <= j < k ==> #[trigger] disable_first(d, from, to, id, pairs, k).out->Ok_0[j]
                == prefixed(id, pairs[j].1),
    decreases k,
{
    if k > 0 {
        let s = disable_first(d, from, to, id, pairs, k - 1);
        lemma_set_aside(d, from, to, id, pairs, k - 1);
        let p = pairs[k - 1];
        let a = source(from, p);
        let b = target(to, id, p);
        let e = s.work;
        let f = disable_first(d, from, to, id, pairs, k).work;
        assert(plain_name(p.0) && plain_name(prefixed(id, p.1)));
        lemma_join_plain(from, p.0);
        lemma_join_plain(to, prefixed(id, p.1));
        assert(source(from, pairs[k - 1]) != target(to, id, pairs[k - 1]));
        assert forall|j: int| 0 <= j < k - 1 implies a != source(from, #[trigger] pairs[j]) && b
            != target(to, id, pairs[j]) && a != target(to, id, pairs[j]) && b != source(
            from,
            pairs[j],
        ) by {
            lemma_places_differ(d, from, to, id, pairs, k - 1, j);
            assert(source(from, pairs[k - 1]) != target(to, id, pairs[j]));
            assert(source(from, pairs[j]) != target(to, id, pairs[k - 1]));
        }
        assert(same_at(d, e, a));
        assert(same_at(d, e, b));
        if exists_at(e, b) {
            assert(f == e.remove(a));
        } else {
            assert(!is_dir_at(d, source(from, pairs[k - 1])));
            assert(f == renamed(e, a, b));
            assert(f =~= e.remove(a).insert(b, e[a]));
        }
        assert(forall|q: PathView| q != a && q != b ==> #[trigger] same_at(e, f, q));
        assert(!f.contains_key(a));
        assert forall|j: int| 0 <= j < k implies !f.contains_key(
            source(from, #[trigger] pairs[j]),
        ) by {
            if j < k - 1 {
                assert(same_at(e, f, source(from, pairs[j])));
            }
        }
        assert forall|j: int| 0 <= j < k implies {
            let t = target(to, id, #[trigger] pairs[j]);
            if d.contains_key(t) {
                same_at(d, f, t)
            } else {
                f.contains_key(t) && d.contains_key(source(from, pairs[j])) && f[t] == d[source(
                    from,
                    pairs[j],
                )]
            }
        } by {
            if j < k - 1 {
                assert(same_at(e, f, target(to, id, pairs[j])));
            }
        }
        assert forall|q: PathView|
            (forall|j: int|
                0 <= j < k ==> q != source(from, #[trigger] pairs[j]) && q != target(
                    to,
                    id,
                    pairs[j],
                )) implies #[trigger] same_at(d, f, q) by {
            assert(q != source(from, pairs[k - 1]) && q != target(to, id, pairs[k - 1]));
            assert(same_at(d, e, q));
            assert(same_at(e, f, q));
        }
    }
}

/// Disabling files takes each of them that is there from its place. Where its disabled name is
/// free it stands under that name, with what it held; where a file has that name already, that
/// file stays. The names told are those of the files that were there, and of no others. Every
/// other file stays as it was.
pub proof fn law_disabled_files_are_set_aside(
    d: DiskView,
    from: PathView,
    to: PathView,
    id: Seq<char>,
    installed: Seq<Seq<char>>,
    original: Seq<Seq<char>>,
    names: Seq<Seq<char>>,
    policy: MissingVpkPolicy,
)
    requires
        original.len() == names.len(),
        forall|i: int| 0 <= i < names.len() ==> #[trigger] names[i] == id + "_"@ + original[i],
        can_be_disabled(d, from, to, installed, names),
        disabled(d, from, to, id, installed, original, policy).1 is Ok,
    ensures
        ({
            let (e, r) = disabled(d, from, to, id, installed, original, policy);
            &&& forall|i: int|
                0 <= i < installed.len() ==> !exists_at(e, from.push(#[trigger] installed[i]))
            &&& forall|i: int|
                0 <= i < names.len() && exists_at(d, from.push(installed[i])) && !exists_at(
                    d,
                    to.push(#[trigger] names[i]),
                ) ==> e.contains_key(to.push(names[i])) && e[to.push(names[i])] == d[from.push(
                    installed[i],
                )]
            &&& forall|i: int|
                0 <= i < names.len() && (exists_at(d, to.push(#[trigger] names[i])) || !exists_at(
                    d,
                    from.push(installed[i]),
                )) ==> same_at(d, e, to.push(names[i]))
            &&& forall|i: int|
                0 <= i < names.len() ==> (r->Ok_0.contains(#[trigger] names[i]) <==> exists_at(
                    d,
                    from.push(installed[i]),
                ))
            &&& forall|q: PathView|
                is_file_at(d, q) && (forall|i: int|
                    0 <= i < installed.len() ==> q != from.push(#[trigger] installed[i]))
                    ==> #[trigger] same_at(d, e, q)
            &&& policy == MissingVpkPolicy::Strict ==> forall|i: int|
                0 <= i < installed.len() ==> exists_at(d, from.push(#[trigger] installed[i]))
        }),
{
    let n = installed.len() as int;
    let (e, r) = disabled(d, from, to, id, installed, original, policy);
    let all = Seq::new(installed.len(), |i: int| (base_name(installed[i]), original[i]));
    let there = |p: Pair| policy == MissingVpkPolicy::Strict || exists_at(d, path_join(from, p.0));
    assert forall|i: int| 0 <= i < n implies (#[trigger] all[i]).0 == installed[i] && all[i].1
        == original[i] && path_join(from, installed[i]) == from.push(installed[i]) by {
        assert(plain_name(installed[i]));
        lemma_own_name(installed[i]);
        lemma_join_plain(from, installed[i]);
    }
    assert(file_names(installed) =~= installed) by {
        assert forall|i: int| 0 <= i < n implies file_names(installed)[i] == installed[i] by {
            assert(all[i].0 == installed[i]);
        }
    }
    assert(apart(all)) by {
        assert forall|a: int, b: int| 0 <= a < b < all.len() implies (#[trigger] all[a]).0 != (
        #[trigger] all[b]).0 && all[a].1 != all[b].1 by {
            assert(installed[a] != installed[b]);
            assert(names[a] != names[b]);
        }
    }
    if n > 0 {
        let pairs = disable_pairs(d, from, installed, original, policy);
        assert(pairs == all.filter(there));
        lemma_still_apart(all, there);
        lemma_filter_members(all, there);
        if policy == MissingVpkPolicy::Strict {
            let lost = |x: Seq<char>| !exists_at(d, path_join(from, x));
            lemma_filter_members(installed, lost);
            assert forall|i: int| 0 <= i < n implies exists_at(d, from.push(#[trigger] installed[i])) by {
                assert(all[i].0 == installed[i]);
                if !exists_at(d, from.push(installed[i])) {
                    assert(installed.contains(installed[i]));
                    assert(lost(installed[i]));
                    assert(missing_in(d, from, installed).contains(installed[i]));
                }
            }
        }
        assert forall|i: int| 0 <= i < n implies (pairs.contains(#[trigger] all[i]) <==> exists_at(
            d,
            from.push(installed[i]),
        )) by {
            assert(all.contains(all[i]));
            assert(pairs.contains(all[i]) <==> there(all[i]));
            assert(all[i].0 == installed[i]);
            if policy == MissingVpkPolicy::Strict {
                assert(exists_at(d, from.push(installed[i])));
            }
        }
        let d1 = if from != to {
            with_dirs(d, to)
        } else {
            d
        };
        assert forall|i: int| 0 <= i < n implies same_at(d, d1, from.push(#[trigger] installed[i]))
            && same_at(d, d1, to.push(names[i])) by {
            assert(plain_name(installed[i]));
            assert(plain_name(names[i]));
            assert(to.push(names[i]).len() > to.len());
        }
        assert forall|q: PathView| is_file_at(d, q) implies #[trigger] same_at(d, d1, q) by {}
        assert forall|k: int| 0 <= k < pairs.len() implies all.contains(#[trigger] pairs[k]) by {
            assert(pairs.contains(pairs[k]));
        }
        assert(sound(d1, from, to, id, pairs)) by {
            assert forall|k: int| 0 <= k < pairs.len() implies plain_name((#[trigger] pairs[k]).0)
                && plain_name(prefixed(id, pairs[k].1)) && !is_dir_at(d1, source(from, pairs[k])) by {
                let i = choose|i: int| 0 <= i < all.len() && all[i] == pairs[k];
                assert(names[i] == prefixed(id, original[i]));
                assert(plain_name(installed[i]) && plain_name(names[i]));
                assert(same_at(d, d1, from.push(installed[i])));
            }
            assert forall|k: int, l: int|
                0 <= k < pairs.len() && 0 <= l < pairs.len() implies source(
                from,
                #[trigger] pairs[k],
            ) != target(to, id, #[trigger] pairs[l]) by {
                let i = choose|i: int| 0 <= i < all.len() && all[i] == pairs[k];
                let j = choose|j: int| 0 <= j < all.len() && all[j] == pairs[l];
                assert(names[j] == prefixed(id, original[j]));
                assert(from.push(installed[i]) != to.push(names[j]));
            }
        }
        let k = pairs.len() as int;
        if k == 0 {
            assert(e == d);
            assert forall|i: int| 0 <= i < n implies !exists_at(
                d,
                from.push(#[trigger] installed[i]),
            ) by {
                assert(!pairs.contains(all[i]));
            }
        } else {
            lemma_set_aside(d1, from, to, id, pairs, k);
            let out = r->Ok_0;
            assert(set_aside(d1, e, from, to, id, pairs, k));
            assert forall|i: int| 0 <= i < n implies {
                let a = from.push(#[trigger] installed[i]);
                let b = to.push(names[i]);
                &&& !exists_at(e, a)
                &&& exists_at(d, a) && !exists_at(d, b) ==> e.contains_key(b) && e[b] == d[a]
                &&& exists_at(d, b) || !exists_at(d, a) ==> same_at(d, e, b)
                &&& out.contains(names[i]) <==> exists_at(d, a)
            } by {
                let a = from.push(installed[i]);
                let b = to.push(names[i]);
                assert(all[i].0 == installed[i] && all[i].1 == original[i]);
                assert(names[i] == prefixed(id, original[i]));
                assert(same_at(d, d1, a) && same_at(d, d1, b));
                if exists_at(d, a) {
                    assert(pairs.contains(all[i]));
                    let j = choose|j: int| 0 <= j < pairs.len() && pairs[j] == all[i];
                    assert(source(from, pairs[j]) == a);
                    assert(target(to, id, pairs[j]) == b);
                    assert(out[j] == names[i]);
                } else {
                    assert(!pairs.contains(all[i]));
                    assert forall|j: int| 0 <= j < k implies a != source(from, #[trigger] pairs[j])
                        && a != target(to, id, pairs[j]) && b != source(from, pairs[j]) && b
                        != target(to, id, pairs[j]) && out[j] != names[i] by {
                        let l = choose|l: int| 0 <= l < all.len() && all[l] == pairs[j];
                        assert(all[l].0 == installed[l] && all[l].1 == original[l]);
                        assert(l != i);
                        assert(installed[l] != installed[i] && names[l] != names[i]);
                        assert(names[l] == prefixed(id, original[l]));
                        assert(a.last() == installed[i]);
                        assert(source(from, pairs[j]).last() == installed[l]);
                        assert(b.last() == names[i]);
                        assert(target(to, id, pairs[j]).last() == names[l]);
                        assert(from.push(installed[i]) != to.push(names[l]));
                        assert(from.push(installed[l]) != to.push(names[i]));
                        assert(out[j] == prefixed(id, pairs[j].1));
                    }
                    assert(same_at(d1, e, a));
                    assert(same_at(d1, e, b));
                }
            }
            assert forall|q: PathView|
                is_file_at(d, q) && (forall|i: int|
                    0 <= i < installed.len() ==> q != from.push(#[trigger] installed[i])) implies
                #[trigger] same_at(d, e, q) by {
                assert(same_at(d, d1, q));
                if exists|j: int| 0 <= j < k && q == target(to, id, #[trigger] pairs[j]) {
                    let j = choose|j: int| 0 <= j < k && q == target(to, id, #[trigger] pairs[j]);
                    assert(d1.contains_key(q));
                } else {
                    assert forall|j: int| 0 <= j < k implies q != source(from, #[trigger] pairs[j])
                        && q != target(to, id, pairs[j]) by {
                        let l = choose|l: int| 0 <= l < all.len() && all[l] == pairs[j];
                        assert(all[l].0 == installed[l]);
                        assert(q != from.push(installed[l]));
                    }
                    assert(same_at(d1, e, q));
                }
            }
        }
        assert forall|i: int|
            0 <= i < names.len() && exists_at(d, from.push(installed[i])) && !exists_at(
                d,
                to.push(#[trigger] names[i]),
            ) implies e.contains_key(to.push(names[i])) && e[to.push(names[i])] == d[from.push(
            installed[i],
        )] by {
            assert(!exists_at(e, from.push(installed[i])));
        }
        assert forall|i: int|
            0 <= i < names.len() && (exists_at(d, to.push(#[trigger] names[i])) || !exists_at(
                d,
                from.push(installed[i]),
            )) implies same_at(d, e, to.push(names[i])) by {
            assert(!exists_at(e, from.push(installed[i])));
        }
        assert forall|i: int| 0 <= i < names.len() implies (r->Ok_0.contains(#[trigger] names[i])
            <==> exists_at(d, from.push(installed[i]))) by {
            assert(!exists_at(e, from.push(installed[i])));
        }
    }
}

/// A file that was set aside returns to its shard under its own name if that is free. If it is
/// taken, an enabled file gets the least free number where that is asked for, and the one that
/// stands there stays; otherwise nothing returns and nothing is lost.
pub proof fn law_staged_files_return(
    d: DiskView,
    b: BaseView,
    stage: PathView,
    l: LocatorView,
    mode: RecoveryMode,
)
    requires
        valid_shard(l.shard),
        plain_name(l.filename),
        is_file_at(d, stage.push(staged_text(l))),
        is_dir_at(d, shard_dir_of(b, l.shard)),
        shard_dir_of(b, l.shard) != stage,
        rooted(d),
    ensures
        ({
            let dir = shard_dir_of(b, l.shard);
            let from = stage.push(staged_text(l));
            let own = dir.push(l.filename);
            let (e, r) = recover_one(d, b, stage, staged_text(l), mode);
            &&& r is Ok && !exists_at(d, own) ==> e == d.remove(from).insert(own, d[from])
            &&& r is Ok && exists_at(d, own) ==> {
                &&& mode == RecoveryMode::AvoidEnabledCollisions
                &&& pak_number(l.filename) is Some
                &&& same_at(d, e, own)
                &&& exists|n: nat|
                    1 <= n <= 99 && !exists_at(d, dir.push(#[trigger] pak_name(n))) && e
                        == d.remove(from).insert(dir.push(pak_name(n)), d[from]) && (forall|k: nat|
                        1 <= k < n ==> exists_at(d, dir.push(#[trigger] pak_name(k))))
            }
            &&& r is Err ==> e == d
            &&& exists_at(d, own) && (mode == RecoveryMode::Strict || pak_number(l.filename)
                is None) ==> r is Err && r->Err_0 is ModInvalid
        }),
{
    let dir = shard_dir_of(b, l.shard);
    let from = stage.push(staged_text(l));
    let own = dir.push(l.filename);
    let (e, r) = recover_one(d, b, stage, staged_text(l), mode);
    lemma_dirs_there(d, dir);
    law_staged_names_round_trip(l);
    law_the_least_free_number_comes_next(d, dir);
    if r is Ok && !exists_at(d, own) {
        assert(e =~= d.remove(from).insert(own, d[from]));
    }
    if r is Ok && exists_at(d, own) {
        let n = free_from(d, dir, 1)->0;
        let place = dir.push(pak_name(n));
        assert(e =~= d.remove(from).insert(place, d[from]));
        assert(own != from) by {
            assert(own.drop_last() =~= dir);
            assert(from.drop_last() =~= stage);
        }
        assert(!exists_at(d, dir.push(pak_name(n))));
    }
}

} // verus!
