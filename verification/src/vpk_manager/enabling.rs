//! Which numbers files take when a mod is enabled.
use super::moves::{can_be_enabled, ready};
use super::naming::{
    free_from, law_enabled_names_round_trip, law_the_least_free_number_comes_next, pak_name,
    pak_number,
};
use super::operations::{enable_first, enabled};
use crate::disk::{exists_at, is_file_at, renamed, same_at, DiskView};
use crate::path::{lemma_join_plain, plain_name, PathView};
use vstd::prelude::*;

verus! {

/// File `i` has the least number that neither something in the directory nor a file before it
/// has.
pub open spec fn has_least_number(
    d: DiskView,
    to: PathView,
    out: Seq<Seq<char>>,
    i: int,
    n: nat,
) -> bool {
    &&& 1 <= n <= 99
    &&& out[i] == pak_name(n)
    &&& !exists_at(d, to.push(pak_name(n)))
    &&& forall|k: nat|
        1 <= k < n ==> exists_at(d, to.push(#[trigger] pak_name(k))) || out.take(i).contains(
            pak_name(k),
        )
}

/// File `i` has the least number that is left for it.
pub open spec fn is_numbered(d: DiskView, to: PathView, out: Seq<Seq<char>>, i: int) -> bool {
    exists|n: nat| #[trigger] has_least_number(d, to, out, i, n)
}

proof fn lemma_numbered(
    d: DiskView,
    from: PathView,
    to: PathView,
    names: Seq<Seq<char>>,
    k: int,
)
    requires
        can_be_enabled(d, from, names),
        0 <= k <= names.len(),
        enable_first(d, from, to, names, k) is Ok,
    ensures
        ({
            let (e, out) = enable_first(d, from, to, names, k)->Ok_0;
            &&& out.len() == k
            &&& forall|i: int| 0 <= i < k ==> #[trigger] is_numbered(d, to, out, i)
            &&& forall|m: nat|
                exists_at(e, to.push(#[trigger] pak_name(m))) && m <= 99 ==> exists_at(
                    d,
                    to.push(pak_name(m)),
                ) || out.contains(pak_name(m))
            &&& forall|m: nat|
                exists_at(d, to.push(#[trigger] pak_name(m))) && m <= 99 ==> exists_at(
                    e,
                    to.push(pak_name(m)),
                )
            &&& forall|j: int|
                k <= j < names.len() ==> same_at(d, e, from.push(#[trigger] names[j]))
        }),
    decreases k,
{
    if k > 0 {
        lemma_numbered(d, from, to, names, k - 1);
        let (e, out) = enable_first(d, from, to, names, k - 1)->Ok_0;
        let (f, all) = enable_first(d, from, to, names, k)->Ok_0;
        law_the_least_free_number_comes_next(e, to);
        let n = free_from(e, to, 1)->0;
        let name = names[k - 1];
        assert(plain_name(name) && pak_number(name) is None && is_file_at(d, from.push(name)));
        lemma_join_plain(from, name);
        let a = from.push(name);
        let b = to.push(pak_name(n));
        assert(same_at(d, e, a));
        assert(all == out.push(pak_name(n)));
        assert(f == renamed(e, a, b));
        assert(a != b) by {
            law_enabled_names_round_trip(n);
            assert(a.last() == name);
            assert(b.last() == pak_name(n));
        }
        assert(f =~= e.remove(a).insert(b, e[a]));
        assert forall|m: nat| m <= 99 implies #[trigger] to.push(pak_name(m)) != a by {
            law_enabled_names_round_trip(m);
            assert(to.push(pak_name(m)).last() == pak_name(m));
            assert(a.last() == name);
        }
        assert forall|i: int| 0 <= i < k implies #[trigger] is_numbered(d, to, all, i) by {
            if i < k - 1 {
                assert(is_numbered(d, to, out, i));
                let x = choose|x: nat| #[trigger] has_least_number(d, to, out, i, x);
                assert(all.take(i) =~= out.take(i));
                assert(has_least_number(d, to, all, i, x));
            } else {
                assert(all.take(i) =~= out);
                assert(!exists_at(d, to.push(pak_name(n)))) by {
                    if exists_at(d, to.push(pak_name(n))) {
                        assert(exists_at(e, to.push(pak_name(n))));
                    }
                }
                assert forall|x: nat| 1 <= x < n implies exists_at(
                    d,
                    to.push(#[trigger] pak_name(x)),
                ) || all.take(i).contains(pak_name(x)) by {
                    assert(exists_at(e, to.push(pak_name(x))));
                }
                assert(has_least_number(d, to, all, i, n));
            }
        }
        assert forall|m: nat|
            exists_at(f, to.push(#[trigger] pak_name(m))) && m <= 99 implies exists_at(
            d,
            to.push(pak_name(m)),
        ) || all.contains(pak_name(m)) by {
            let q = to.push(pak_name(m));
            if q == b {
                assert(q.last() == pak_name(m));
                assert(b.last() == pak_name(n));
                assert(all[k - 1] == pak_name(m));
            } else {
                assert(exists_at(e, to.push(pak_name(m))));
                if out.contains(pak_name(m)) {
                    let i = choose|i: int| 0 <= i < out.len() && out[i] == pak_name(m);
                    assert(all[i] == pak_name(m));
                }
            }
        }
        assert forall|m: nat|
            exists_at(d, to.push(#[trigger] pak_name(m))) && m <= 99 implies exists_at(
            f,
            to.push(pak_name(m)),
        ) by {
            assert(exists_at(e, to.push(pak_name(m))));
            assert(to.push(pak_name(m)) != a);
        }
        assert forall|j: int| k <= j < names.len() implies same_at(
            d,
            f,
            from.push(#[trigger] names[j]),
        ) by {
            let q = from.push(names[j]);
            assert(names[j] != names[k - 1]);
            assert(q.last() == names[j]);
            assert(a.last() == name);
            law_enabled_names_round_trip(n);
            assert(pak_number(names[j]) is None);
            assert(b.last() == pak_name(n));
            assert(same_at(d, e, q));
        }
    }
}

/// Enabled files take the least free numbers of their directory, in their order: a number is
/// only passed over where something stands under it, or a file before has it.
pub proof fn law_enabled_files_take_the_least_numbers(
    d: DiskView,
    from: PathView,
    to: PathView,
    id: Seq<char>,
    names: Seq<Seq<char>>,
    i: int,
)
    requires
        can_be_enabled(d, from, names),
        enabled(d, from, to, id, names).1 is Ok,
        0 <= i < names.len(),
    ensures
        enabled(d, from, to, id, names).1->Ok_0.len() == names.len(),
        is_numbered(ready(d, from, to), to, enabled(d, from, to, id, names).1->Ok_0, i),
{
    let base = ready(d, from, to);
    assert(can_be_enabled(base, from, names)) by {
        assert forall|j: int| 0 <= j < names.len() implies plain_name(#[trigger] names[j])
            && pak_number(names[j]) is None && is_file_at(base, from.push(names[j])) by {
            assert(is_file_at(d, from.push(names[j])));
        }
    }
    lemma_numbered(base, from, to, names, names.len() as int);
}

} // verus!
