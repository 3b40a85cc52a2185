//! Sorting that keeps equals in their order.
use crate::table::{
    ascending, keys_of, lemma_ascending_unique, lemma_finite_has_order, lemma_keys_of,
    lists_keys, Key, Model, Table,
};
use vstd::prelude::*;

verus! {

/// What a list is sorted by, most significant first.
pub type SortKey = (u64, u64, u64);

pub open spec fn key_before(a: SortKey, b: SortKey) -> bool {
    a.0 < b.0 || (a.0 == b.0 && (a.1 < b.1 || (a.1 == b.1 && a.2 < b.2)))
}

/// Position `i` comes before position `j`: by key, then by place.
pub open spec fn place_before(keys: Seq<SortKey>, i: int, j: int) -> bool {
    key_before(keys[i], keys[j]) || (keys[i] == keys[j] && i < j)
}

/// `s` holds every position once, in sorted order.
pub open spec fn sorts(s: Seq<int>, keys: Seq<SortKey>) -> bool {
    &&& forall|k: int| #[trigger] s.contains(k) <==> 0 <= k < keys.len()
    &&& forall|i: int, j: int|
        0 <= i < j < s.len() ==> place_before(keys, #[trigger] s[i], #[trigger] s[j])
}

/// The positions of a list in sorted order, equals in the order they stand in.
pub open spec fn sorted_places(keys: Seq<SortKey>) -> Seq<int> {
    choose|s: Seq<int>| sorts(s, keys)
}

/// The elements of `list` in the order of their keys.
pub open spec fn sorted_by<A>(list: Seq<A>, keys: Seq<SortKey>) -> Seq<A> {
    sorted_places(keys).map_values(|i: int| list[i])
}

struct Rank {
    key: SortKey,
    place: usize,
}

pub type RankView = (SortKey, int);

impl Key for Rank {
    type Value = RankView;

    closed spec fn key(&self) -> RankView {
        (self.key, self.place as int)
    }

    open spec fn before(a: RankView, b: RankView) -> bool {
        key_before(a.0, b.0) || (a.0 == b.0 && a.1 < b.1)
    }

    proof fn before_total(a: RankView, b: RankView) {
    }

    proof fn before_transitive(a: RankView, b: RankView, c: RankView) {
    }

    fn precedes(&self, other: &Self) -> (r: bool) {
        let a = self.key;
        let b = other.key;
        a.0 < b.0 || (a.0 == b.0 && (a.1 < b.1 || (a.1 == b.1 && (a.2 < b.2 || (a.2 == b.2
            && self.place < other.place)))))
    }

    fn same(&self, other: &Self) -> (r: bool) {
        self.key.0 == other.key.0 && self.key.1 == other.key.1 && self.key.2 == other.key.2
            && self.place == other.place
    }

    fn copy_key(&self) -> (r: Self) {
        Rank { key: self.key, place: self.place }
    }
}

struct Mark {}

impl View for Mark {
    type V = ();

    closed spec fn view(&self) -> () {
        ()
    }
}

impl Model for Mark {
    fn copy_value(&self) -> (r: Self) {
        Mark {  }
    }
}

pub open spec fn place_views(v: Seq<usize>) -> Seq<int> {
    v.map_values(|i: usize| i as int)
}

/// There is only one sorted order.
pub proof fn lemma_sorted_places(s: Seq<int>, keys: Seq<SortKey>)
    requires
        sorts(s, keys),
    ensures
        sorted_places(keys) == s,
{
    let t = sorted_places(keys);
    assert(sorts(t, keys));
    let f = |i: int| (keys[i], i);
    let s1 = s.map_values(f);
    let t1 = t.map_values(f);
    assert forall|r: RankView| s1.contains(r) <==> t1.contains(r) by {
        if s1.contains(r) {
            let a = choose|a: int| 0 <= a < s1.len() && s1[a] == r;
            assert(s.contains(s[a]));
            assert(t.contains(s[a]));
            let b = choose|b: int| 0 <= b < t.len() && t[b] == s[a];
            assert(t1[b] == r);
        }
        if t1.contains(r) {
            let a = choose|a: int| 0 <= a < t1.len() && t1[a] == r;
            assert(t.contains(t[a]));
            assert(s.contains(t[a]));
            let b = choose|b: int| 0 <= b < s.len() && s[b] == t[a];
            assert(s1[b] == r);
        }
    }
    lemma_ascending_unique::<Rank>(s1, t1);
    assert(s.len() == s1.len() == t1.len() == t.len());
    assert forall|i: int| 0 <= i < s.len() implies s[i] == t[i] by {
        assert(s1[i] == t1[i]);
    }
    assert(s =~= t);
}

/// The positions of a list in the order of their keys.
pub fn stable_order(keys: &Vec<SortKey>) -> (r: Vec<usize>)
    ensures
        place_views(r@) == sorted_places(keys@),
        sorts(sorted_places(keys@), keys@),
        r@.len() == keys@.len(),
        forall|i: int| 0 <= i < r@.len() ==> 0 <= #[trigger] r@[i] < keys@.len(),
{
    let n: usize = keys.len();
    let mut table: Table<Rank, Mark> = Table::new();
    let mut i: usize = 0;
    while i < n
        invariant
            i <= n == keys@.len(),
            forall|r: RankView|
                #[trigger] table@.contains_key(r) <==> 0 <= r.1 < i && r.0 == keys@[r.1],
        decreases n - i,
    {
        table.insert(Rank { key: keys[i], place: i }, Mark {  });
        i = i + 1;
    }
    let m: usize = table.len();
    let ghost ks = table.keys();
    let mut r: Vec<usize> = Vec::new();
    let mut j: usize = 0;
    while j < m
        invariant
            j <= m == ks.len(),
            ks == table.keys(),
            n == keys@.len(),
            lists_keys::<Rank, ()>(ks, table@),
            forall|r: RankView|
                #[trigger] table@.contains_key(r) <==> 0 <= r.1 < n && r.0 == keys@[r.1],
            r@.len() == j,
            forall|k: int| 0 <= k < j ==> #[trigger] r@[k] == ks[k].1,
            forall|k: int| 0 <= k < j ==> 0 <= #[trigger] r@[k] < n,
        decreases m - j,
    {
        let k = table.key_at(j);
        r.push(k.place);
        j = j + 1;
    }
    proof {
        let s = place_views(r@);
        assert forall|k: int| #[trigger] s.contains(k) <==> 0 <= k < n by {
            if s.contains(k) {
                let a = choose|a: int| 0 <= a < s.len() && s[a] == k;
                assert(r@[a] == k);
            }
            if 0 <= k < n {
                let rank = (keys@[k], k);
                assert(table@.contains_key(rank));
                assert(ks.contains(rank));
                let a = choose|a: int| 0 <= a < ks.len() && ks[a] == rank;
                assert(r@[a] == ks[a].1);
                assert(s[a] == k);
            }
        }
        assert forall|i: int, j: int| 0 <= i < j < s.len() implies place_before(
            keys@,
            #[trigger] s[i],
            #[trigger] s[j],
        ) by {
            assert(ks.contains(ks[i]));
            assert(ks.contains(ks[j]));
            assert(table@.contains_key(ks[i]));
            assert(table@.contains_key(ks[j]));
            assert(r@[i] == ks[i].1);
            assert(r@[j] == ks[j].1);
            assert(Rank::before(ks[i], ks[j]));
        }
        assert(sorts(s, keys@));
        lemma_sorted_places(s, keys@);
        lemma_sorts_len(s, keys@);
    }
    r
}

// ---------------------------------------------------------------------------
// Sorting without repetition
// ---------------------------------------------------------------------------

/// The values of a list as the keys of a map.
pub open spec fn value_map<K: Key>(list: Seq<K::Value>) -> Map<K::Value, ()> {
    Map::new(|v: K::Value| list.contains(v), |v: K::Value| ())
}

/// The values of a list in order, each once.
pub open spec fn sorted_set<K: Key>(list: Seq<K::Value>) -> Seq<K::Value> {
    keys_of::<K, ()>(value_map::<K>(list))
}

pub open spec fn key_values<K: Key>(v: Seq<K>) -> Seq<K::Value> {
    v.map_values(|k: K| k.key())
}

/// The values of a list in order, each once.
pub fn sort_unique<K: Key>(list: &Vec<K>) -> (r: Vec<K>)
    ensures
        key_values(r@) == sorted_set::<K>(key_values(list@)),
        lists_keys::<K, ()>(key_values(r@), value_map::<K>(key_values(list@))),
{
    let ghost all = key_values(list@);
    let mut table: Table<K, Mark> = Table::new();
    let mut i: usize = 0;
    while i < list.len()
        invariant
            i <= list@.len(),
            all == key_values(list@),
            forall|v: K::Value|
                #[trigger] table@.contains_key(v) <==> all.take(i as int).contains(v),
        decreases list@.len() - i,
    {
        let ghost before = table@;
        table.insert(list[i].copy_key(), Mark {  });
        proof {
            let a = all.take(i as int);
            let b = all.take(i + 1);
            assert(all[i as int] == list@[i as int].key());
            assert(b =~= a.push(all[i as int]));
            assert forall|v: K::Value| #[trigger] table@.contains_key(v) <==> b.contains(v) by {
                if a.contains(v) {
                    let x = choose|x: int| 0 <= x < a.len() && a[x] == v;
                    assert(b[x] == v);
                }
                if b.contains(v) && v != all[i as int] {
                    let x = choose|x: int| 0 <= x < b.len() && b[x] == v;
                    assert(a[x] == v);
                }
                if v == all[i as int] {
                    assert(b[i as int] == v);
                }
                assert(before.contains_key(v) <==> a.contains(v));
            }
        }
        i = i + 1;
    }
    let n: usize = table.len();
    let ghost keys = table.keys();
    let mut r: Vec<K> = Vec::new();
    let mut j: usize = 0;
    while j < n
        invariant
            j <= n == keys.len(),
            keys == table.keys(),
            r@.len() == j,
            forall|k: int| 0 <= k < j ==> (#[trigger] r@[k]).key() == keys[k],
        decreases n - j,
    {
        r.push(table.key_at(j).copy_key());
        j = j + 1;
    }
    proof {
        assert(all.take(all.len() as int) =~= all);
        let rv = key_values(r@);
        assert(rv =~= keys);
        assert forall|v: K::Value| rv.contains(v) <==> #[trigger] value_map::<K>(all).contains_key(
            v,
        ) by {
            assert(keys.contains(v) <==> table@.contains_key(v));
        }
        lemma_keys_of::<K, ()>(rv, value_map::<K>(all));
    }
    r
}

/// Sorting without repetition keeps every value of the list, and adds none.
pub proof fn law_sorting_keeps_every_value<K: Key>(list: Seq<K::Value>)
    ensures
        forall|v: K::Value| #[trigger] sorted_set::<K>(list).contains(v) <==> list.contains(v),
        sorted_set::<K>(list).no_duplicates(),
        ascending::<K>(sorted_set::<K>(list)),
{
    let m = value_map::<K>(list);
    let s = sorted_set::<K>(list);
    assert(m.dom() =~= list.to_set());
    vstd::seq_lib::seq_to_set_is_finite(list);
    lemma_finite_has_order::<K, ()>(m);
    assert forall|v: K::Value| #[trigger] s.contains(v) <==> list.contains(v) by {
        assert(s.contains(v) <==> m.contains_key(v));
    }
    assert forall|i: int, j: int| 0 <= i < s.len() && 0 <= j < s.len() && i != j implies s[i]
        != s[j] by {
        K::before_total(s[i], s[j]);
        if i < j {
            assert(K::before(s[i], s[j]));
        } else {
            assert(K::before(s[j], s[i]));
        }
    }
}

/// A sorted order is as long as the list.
pub proof fn lemma_sorts_len(s: Seq<int>, keys: Seq<SortKey>)
    requires
        sorts(s, keys),
    ensures
        s.len() == keys.len(),
{
    assert(s.no_duplicates()) by {
        assert forall|i: int, j: int| 0 <= i < s.len() && 0 <= j < s.len() && i != j implies s[i]
            != s[j] by {
            if i < j {
                assert(place_before(keys, s[i], s[j]));
            } else {
                assert(place_before(keys, s[j], s[i]));
            }
        }
    }
    s.unique_seq_to_set();
    let all = vstd::set_lib::set_int_range(0, keys.len() as int);
    vstd::set_lib::lemma_int_range(0, keys.len() as int);
    assert(s.to_set() =~= all) by {
        assert forall|k: int| s.to_set().contains(k) <==> all.contains(k) by {
            assert(s.contains(k) <==> 0 <= k < keys.len());
        }
    }
}

/// Every list has a sorted order.
pub proof fn law_every_list_can_be_sorted(keys: Seq<SortKey>)
    ensures
        sorts(sorted_places(keys), keys),
        sorted_places(keys).len() == keys.len(),
{
    let n = keys.len() as int;
    let ranks = Set::new(|r: RankView| 0 <= r.1 < n && r.0 == keys[r.1]);
    lemma_ranks_finite(keys, n);
    let m = Map::new(|r: RankView| ranks.contains(r), |r: RankView| ());
    assert(m.dom() =~= ranks);
    crate::table::lemma_finite_has_order::<Rank, ()>(m);
    let ks = keys_of::<Rank, ()>(m);
    let s = ks.map_values(|r: RankView| r.1);
    assert forall|k: int| #[trigger] s.contains(k) <==> 0 <= k < n by {
        if s.contains(k) {
            let a = choose|a: int| 0 <= a < s.len() && s[a] == k;
            assert(ks.contains(ks[a]));
            assert(m.contains_key(ks[a]));
        }
        if 0 <= k < n {
            let rank = (keys[k], k);
            assert(m.contains_key(rank));
            let a = choose|a: int| 0 <= a < ks.len() && ks[a] == rank;
            assert(s[a] == k);
        }
    }
    assert forall|i: int, j: int| 0 <= i < j < s.len() implies place_before(
        keys,
        #[trigger] s[i],
        #[trigger] s[j],
    ) by {
        assert(ks.contains(ks[i]));
        assert(ks.contains(ks[j]));
        assert(m.contains_key(ks[i]));
        assert(m.contains_key(ks[j]));
        assert(Rank::before(ks[i], ks[j]));
    }
    assert(sorts(s, keys));
    lemma_sorts_len(sorted_places(keys), keys);
}

proof fn lemma_ranks_finite(keys: Seq<SortKey>, n: int)
    requires
        0 <= n <= keys.len(),
    ensures
        Set::new(|r: RankView| 0 <= r.1 < n && r.0 == keys[r.1]).finite(),
    decreases n,
{
    let ranks = Set::new(|r: RankView| 0 <= r.1 < n && r.0 == keys[r.1]);
    if n == 0 {
        assert(ranks =~= Set::empty());
    } else {
        lemma_ranks_finite(keys, n - 1);
        let fewer = Set::new(|r: RankView| 0 <= r.1 < n - 1 && r.0 == keys[r.1]);
        assert(ranks =~= fewer.insert((keys[n - 1], n - 1)));
    }
}

} // verus!
