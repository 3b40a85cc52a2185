//! A table kept in the order of its keys.
use vstd::prelude::*;

verus! {

/// A key: it stands for a mathematical value, and the values are totally ordered.
pub trait Key: Sized {
    type Value;

    spec fn key(&self) -> Self::Value;

    /// `a` comes strictly before `b`.
    spec fn before(a: Self::Value, b: Self::Value) -> bool;

    proof fn before_total(a: Self::Value, b: Self::Value)
        ensures
            a != b ==> Self::before(a, b) || Self::before(b, a),
            !(Self::before(a, b) && Self::before(b, a)),
            !Self::before(a, a),
    ;

    proof fn before_transitive(a: Self::Value, b: Self::Value, c: Self::Value)
        requires
            Self::before(a, b),
            Self::before(b, c),
        ensures
            Self::before(a, c),
    ;

    fn precedes(&self, other: &Self) -> (r: bool)
        ensures
            r == Self::before(self.key(), other.key()),
    ;

    fn same(&self, other: &Self) -> (r: bool)
        ensures
            r == (self.key() == other.key()),
    ;

    fn copy_key(&self) -> (r: Self)
        ensures
            r.key() == self.key(),
    ;
}

/// A value that can be copied without changing what it stands for.
pub trait Model: View + Sized {
    fn copy_value(&self) -> (r: Self)
        ensures
            r@ == self@,
    ;
}

/// Strictly ascending.
pub open spec fn ascending<K: Key>(s: Seq<K::Value>) -> bool {
    forall|i: int, j: int| 0 <= i < j < s.len() ==> K::before(#[trigger] s[i], #[trigger] s[j])
}

/// `s` lists the keys of `m` in order.
pub open spec fn lists_keys<K: Key, X>(s: Seq<K::Value>, m: Map<K::Value, X>) -> bool {
    &&& ascending::<K>(s)
    &&& forall|k: K::Value| s.contains(k) <==> #[trigger] m.contains_key(k)
}

/// The keys of `m` in order.
pub open spec fn keys_of<K: Key, X>(m: Map<K::Value, X>) -> Seq<K::Value> {
    choose|s: Seq<K::Value>| lists_keys::<K, X>(s, m)
}

/// There is only one way to list a set of keys in order.
/// Leaving values out keeps the order of the others.
pub proof fn lemma_filter_in_order<K: Key>(s: Seq<K::Value>, pred: spec_fn(K::Value) -> bool)
    requires
        ascending::<K>(s),
    ensures
        ascending::<K>(s.filter(pred)),
    decreases s.len(),
{
    reveal(Seq::filter);
    if s.len() > 0 {
        let t = s.drop_last();
        assert(ascending::<K>(t)) by {
            assert forall|i: int, j: int| 0 <= i < j < t.len() implies K::before(
                #[trigger] t[i],
                #[trigger] t[j],
            ) by {
                assert(t[i] == s[i] && t[j] == s[j]);
            }
        }
        lemma_filter_in_order::<K>(t, pred);
        let kept = t.filter(pred);
        let out = s.filter(pred);
        assert forall|i: int, j: int| 0 <= i < j < out.len() implies K::before(
            #[trigger] out[i],
            #[trigger] out[j],
        ) by {
            assert(out[i] == kept[i]);
            if j < kept.len() {
                assert(out[j] == kept[j]);
            } else {
                t.lemma_filter_contains_rev(pred, kept[i]);
                let a = choose|a: int| 0 <= a < t.len() && t[a] == kept[i];
                assert(s[a] == t[a]);
                assert(out[j] == s[s.len() - 1]);
            }
        }
    }
}

pub proof fn lemma_ascending_unique<K: Key>(s: Seq<K::Value>, t: Seq<K::Value>)
    requires
        ascending::<K>(s),
        ascending::<K>(t),
        forall|k: K::Value| s.contains(k) <==> t.contains(k),
    ensures
        s == t,
    decreases s.len(),
{
    if s.len() == 0 {
        if t.len() > 0 {
            assert(t.contains(t[0]));
        }
        assert(s =~= t);
    } else {
        assert(s.contains(s.last()));
        assert(t.len() > 0);
        assert(t.contains(t.last()));
        let j = choose|j: int| 0 <= j < t.len() && t[j] == s.last();
        let i = choose|i: int| 0 <= i < s.len() && s[i] == t.last();
        K::before_total(s.last(), t.last());
        assert(s.last() == t.last());
        let s1 = s.drop_last();
        let t1 = t.drop_last();
        assert forall|k: K::Value| s1.contains(k) <==> t1.contains(k) by {
            if s1.contains(k) {
                let a = choose|a: int| 0 <= a < s1.len() && s1[a] == k;
                assert(s[a] == k);
                assert(s.contains(k));
                K::before_total(k, s.last());
                let b = choose|b: int| 0 <= b < t.len() && t[b] == k;
                assert(t1[b] == k);
            }
            if t1.contains(k) {
                let a = choose|a: int| 0 <= a < t1.len() && t1[a] == k;
                assert(t[a] == k);
                assert(t.contains(k));
                K::before_total(k, t.last());
                let b = choose|b: int| 0 <= b < s.len() && s[b] == k;
                assert(s1[b] == k);
            }
        }
        lemma_ascending_unique::<K>(s1, t1);
        assert(s =~= s1.push(s.last()));
        assert(t =~= t1.push(t.last()));
    }
}

/// An ordered listing of the keys is the ordered listing.
pub proof fn lemma_keys_of<K: Key, X>(s: Seq<K::Value>, m: Map<K::Value, X>)
    requires
        lists_keys::<K, X>(s, m),
    ensures
        keys_of::<K, X>(m) == s,
{
    let t = keys_of::<K, X>(m);
    assert(lists_keys::<K, X>(t, m));
    assert forall|k: K::Value| s.contains(k) <==> t.contains(k) by {
        assert(s.contains(k) <==> m.contains_key(k));
        assert(t.contains(k) <==> m.contains_key(k));
    }
    lemma_ascending_unique::<K>(s, t);
}

/// A finite map has an ordered listing of its keys.
pub proof fn lemma_finite_has_order<K: Key, X>(m: Map<K::Value, X>)
    requires
        m.dom().finite(),
    ensures
        lists_keys::<K, X>(keys_of::<K, X>(m), m),
    decreases m.dom().len(),
{
    if m.dom().len() == 0 {
        let s = Seq::<K::Value>::empty();
        assert(m.dom() =~= Set::empty());
        assert forall|k: K::Value| s.contains(k) <==> #[trigger] m.contains_key(k) by {
            assert(!m.dom().contains(k));
        }
        assert(lists_keys::<K, X>(s, m));
    } else {
        let x = m.dom().choose();
        let m1 = m.remove(x);
        assert(m1.dom() =~= m.dom().remove(x));
        lemma_finite_has_order::<K, X>(m1);
        let s1 = keys_of::<K, X>(m1);
        let s = lemma_insert_sorted::<K>(s1, x);
        assert forall|k: K::Value| s.contains(k) <==> #[trigger] m.contains_key(k) by {
            assert(s1.contains(k) <==> m1.contains_key(k));
        }
        assert(lists_keys::<K, X>(s, m));
    }
}

proof fn lemma_insert_sorted<K: Key>(s: Seq<K::Value>, x: K::Value) -> (t: Seq<K::Value>)
    requires
        ascending::<K>(s),
        !s.contains(x),
    ensures
        ascending::<K>(t),
        forall|k: K::Value| #[trigger] t.contains(k) <==> (s.contains(k) || k == x),
    decreases s.len(),
{
    if s.len() == 0 {
        let t = seq![x];
        assert forall|k: K::Value| #[trigger] t.contains(k) <==> (s.contains(k) || k == x) by {
            if k == x {
                assert(t[0] == x);
            }
        }
        assert(ascending::<K>(t));
        t
    } else {
        K::before_total(s.last(), x);
        assert(s.contains(s.last()));
        if K::before(s.last(), x) {
            let t = s.push(x);
            assert forall|i: int, j: int| 0 <= i < j < t.len() implies K::before(
                #[trigger] t[i],
                #[trigger] t[j],
            ) by {
                if j == s.len() && i < s.len() - 1 {
                    K::before_transitive(s[i], s.last(), x);
                }
            }
            assert forall|k: K::Value| #[trigger] t.contains(k) <==> (s.contains(k) || k == x) by {
                if s.contains(k) {
                    let a = choose|a: int| 0 <= a < s.len() && s[a] == k;
                    assert(t[a] == k);
                }
                if k == x {
                    assert(t[s.len() as int] == k);
                }
            }
            t
        } else {
            let s1 = s.drop_last();
            assert forall|k: K::Value| s1.contains(k) implies s.contains(k) by {
                let a = choose|a: int| 0 <= a < s1.len() && s1[a] == k;
                assert(s[a] == k);
            }
            let t1 = lemma_insert_sorted::<K>(s1, x);
            let t = t1.push(s.last());
            assert forall|i: int, j: int| 0 <= i < j < t.len() implies K::before(
                #[trigger] t[i],
                #[trigger] t[j],
            ) by {
                if j == t1.len() {
                    assert(t1.contains(t1[i]));
                    if t1[i] != x {
                        let a = choose|a: int| 0 <= a < s1.len() && s1[a] == t1[i];
                        assert(s[a] == t1[i]);
                    }
                }
            }
            assert forall|k: K::Value| #[trigger] t.contains(k) <==> (s.contains(k) || k == x) by {
                if s.contains(k) && k != s.last() {
                    let a = choose|a: int| 0 <= a < s.len() && s[a] == k;
                    assert(s1[a] == k);
                }
                if t1.contains(k) {
                    let a = choose|a: int| 0 <= a < t1.len() && t1[a] == k;
                    assert(t[a] == k);
                }
                if k == s.last() {
                    assert(t[t1.len() as int] == k);
                }
                if t.contains(k) {
                    let a = choose|a: int| 0 <= a < t.len() && t[a] == k;
                    if a < t1.len() {
                        assert(t1[a] == k);
                        assert(t1.contains(k));
                    }
                }
            }
            t
        }
    }
}

/// The keys of a list of entries.
pub open spec fn entry_keys<K: Key, X>(s: Seq<(K, X)>) -> Seq<K::Value> {
    s.map_values(|e: (K, X)| e.0.key())
}

/// The table that a list of entries writes, later entries over earlier ones.
pub open spec fn entry_map<K: Key, X: View>(s: Seq<(K, X)>) -> Map<K::Value, X::V>
    decreases s.len(),
{
    if s.len() == 0 {
        Map::empty()
    } else {
        entry_map(s.drop_last()).insert(s.last().0.key(), s.last().1@)
    }
}

proof fn lemma_entry_map<K: Key, X: View>(s: Seq<(K, X)>)
    requires
        ascending::<K>(entry_keys(s)),
    ensures
        lists_keys::<K, X::V>(entry_keys(s), entry_map(s)),
        entry_map(s).dom().finite(),
        forall|i: int| 0 <= i < s.len() ==> entry_map(s)[#[trigger] s[i].0.key()] == s[i].1@,
    decreases s.len(),
{
    let keys = entry_keys(s);
    if s.len() > 0 {
        let s1 = s.drop_last();
        let keys1 = entry_keys(s1);
        assert(keys1 =~= keys.drop_last());
        lemma_entry_map(s1);
        assert forall|k: K::Value| keys.contains(k) <==> #[trigger] entry_map(s).contains_key(k) by {
            assert(keys1.contains(k) <==> entry_map(s1).contains_key(k));
            if keys1.contains(k) {
                let a = choose|a: int| 0 <= a < keys1.len() && keys1[a] == k;
                assert(keys[a] == k);
            }
            if keys.contains(k) && k != s.last().0.key() {
                let a = choose|a: int| 0 <= a < keys.len() && keys[a] == k;
                assert(keys1[a] == k);
            }
            assert(keys.last() == s.last().0.key());
        }
        assert forall|i: int| 0 <= i < s.len() implies entry_map(s)[#[trigger] s[i].0.key()]
            == s[i].1@ by {
            if i < s.len() - 1 {
                assert(s1[i].0.key() == s[i].0.key());
                assert(keys[i] == s[i].0.key());
                assert(keys[s.len() - 1] == s.last().0.key());
                K::before_total(keys[i], keys[s.len() - 1]);
            }
        }
    }
}

/// Entries in strictly ascending order of their keys. Its view is the map from
/// keys to values.
#[derive(Debug, PartialEq, Eq)]
pub struct Table<K: Key, X: View> {
    entries: Vec<(K, X)>,
}

impl<K: Key, X: View> View for Table<K, X> {
    type V = Map<K::Value, X::V>;

    closed spec fn view(&self) -> Map<K::Value, X::V> {
        entry_map(self.entries@)
    }
}

impl<K: Key, X: View> Table<K, X> {
    #[verifier::type_invariant]
    spec fn in_order(self) -> bool {
        ascending::<K>(entry_keys(self.entries@))
    }

    /// The keys in order.
    pub open spec fn keys(self) -> Seq<K::Value> {
        keys_of::<K, X::V>(self@)
    }
}

impl<K: Key, X: Model> Table<K, X> {
    pub fn new() -> (r: Self)
        ensures
            r@ == Map::<K::Value, X::V>::empty(),
            r@.dom().finite(),
            r.keys() == Seq::<K::Value>::empty(),
    {
        let r = Table { entries: Vec::new() };
        proof {
            lemma_entry_map(r.entries@);
            lemma_keys_of::<K, X::V>(entry_keys(r.entries@), r@);
            assert(entry_keys(r.entries@) =~= Seq::empty());
        }
        r
    }

    pub fn len(&self) -> (r: usize)
        ensures
            r == self.keys().len(),
            self@.dom().finite(),
            lists_keys::<K, X::V>(self.keys(), self@),
    {
        proof {
            use_type_invariant(self);
            lemma_entry_map(self.entries@);
            lemma_keys_of::<K, X::V>(entry_keys(self.entries@), self@);
        }
        self.entries.len()
    }

    /// The key at position `i`.
    pub fn key_at(&self, i: usize) -> (r: &K)
        requires
            i < self.keys().len(),
        ensures
            r.key() == self.keys()[i as int],
            self@.contains_key(r.key()),
    {
        proof {
            use_type_invariant(self);
            lemma_entry_map(self.entries@);
            lemma_keys_of::<K, X::V>(entry_keys(self.entries@), self@);
            assert(entry_keys(self.entries@)[i as int] == self.entries@[i as int].0.key());
            assert(entry_keys(self.entries@).contains(self.entries@[i as int].0.key()));
        }
        &self.entries[i].0
    }

    /// The value at position `i`.
    pub fn value_at(&self, i: usize) -> (r: &X)
        requires
            i < self.keys().len(),
        ensures
            r@ == self@[self.keys()[i as int]],
            self@.contains_key(self.keys()[i as int]),
    {
        proof {
            use_type_invariant(self);
            lemma_entry_map(self.entries@);
            lemma_keys_of::<K, X::V>(entry_keys(self.entries@), self@);
            assert(entry_keys(self.entries@)[i as int] == self.entries@[i as int].0.key());
            assert(entry_keys(self.entries@).contains(self.entries@[i as int].0.key()));
        }
        &self.entries[i].1
    }

    /// The position of `k`, or the position where it belongs.
    fn find(&self, k: &K) -> (r: (usize, bool))
        ensures
            r.0 <= self.entries@.len(),
            r.1 ==> r.0 < self.entries@.len() && self.entries@[r.0 as int].0.key() == k.key(),
            r.1 == self@.contains_key(k.key()),
            !r.1 ==> (forall|j: int|
                0 <= j < r.0 ==> K::before(#[trigger] self.entries@[j].0.key(), k.key())) && (forall|
                j: int,
            |
                r.0 <= j < self.entries@.len() ==> K::before(
                    k.key(),
                    #[trigger] self.entries@[j].0.key(),
                )),
    {
        let ghost keys = entry_keys(self.entries@);
        proof {
            use_type_invariant(self);
            lemma_entry_map(self.entries@);
        }
        let mut i: usize = 0;
        while i < self.entries.len() && self.entries[i].0.precedes(k)
            invariant
                i <= self.entries@.len(),
                forall|j: int|
                    0 <= j < i ==> K::before(#[trigger] self.entries@[j].0.key(), k.key()),
            decreases self.entries@.len() - i,
        {
            i = i + 1;
        }
        if i < self.entries.len() && self.entries[i].0.same(k) {
            assert(keys[i as int] == k.key());
            assert(keys.contains(k.key()));
            return (i, true);
        }
        proof {
            assert forall|j: int| i <= j < self.entries@.len() implies K::before(
                k.key(),
                #[trigger] self.entries@[j].0.key(),
            ) by {
                K::before_total(k.key(), self.entries@[i as int].0.key());
                if j > i {
                    assert(K::before(keys[i as int], keys[j]));
                    K::before_transitive(
                        k.key(),
                        self.entries@[i as int].0.key(),
                        self.entries@[j].0.key(),
                    );
                }
            }
            if keys.contains(k.key()) {
                let a = choose|a: int| 0 <= a < keys.len() && keys[a] == k.key();
                K::before_total(k.key(), k.key());
                assert(self.entries@[a].0.key() == k.key());
            }
        }
        (i, false)
    }

    pub fn contains(&self, k: &K) -> (r: bool)
        ensures
            r == self@.contains_key(k.key()),
    {
        self.find(k).1
    }

    pub fn get(&self, k: &K) -> (r: Option<&X>)
        ensures
            match r {
                Some(x) => self@.contains_key(k.key()) && x@ == self@[k.key()],
                None => !self@.contains_key(k.key()),
            },
    {
        let (i, found) = self.find(k);
        if found {
            proof {
                use_type_invariant(self);
                lemma_entry_map(self.entries@);
            }
            Some(&self.entries[i].1)
        } else {
            None
        }
    }

    /// Writes `x` at `k`, over what stands there.
    pub fn insert(&mut self, k: K, x: X)
        ensures
            final(self)@ == old(self)@.insert(k.key(), x@),
    {
        let (i, found) = self.find(&k);
        let ghost before = self.entries@;
        let ghost kv = k.key();
        let ghost xv = x@;
        proof {
            use_type_invariant(&*self);
        }
        let mut v: Vec<(K, X)> = Vec::new();
        std::mem::swap(&mut v, &mut self.entries);
        if found {
            v.set(i, (k, x));
            proof {
                assert(entry_keys(v@) =~= entry_keys(before));
            }
        } else {
            v.insert(i, (k, x));
            proof {
                assert forall|a: int, b: int| 0 <= a < b < v@.len() implies K::before(
                    #[trigger] entry_keys(v@)[a],
                    #[trigger] entry_keys(v@)[b],
                ) by {
                    let a0 = if a < i { a } else { a - 1 };
                    let b0 = if b < i { b } else { b - 1 };
                    if a != i && b != i {
                        assert(entry_keys(before)[a0] == entry_keys(v@)[a]);
                        assert(entry_keys(before)[b0] == entry_keys(v@)[b]);
                        assert(K::before(entry_keys(before)[a0], entry_keys(before)[b0]));
                    } else if a == i {
                        assert(before[b0].0.key() == entry_keys(v@)[b]);
                    } else {
                        assert(before[a0].0.key() == entry_keys(v@)[a]);
                    }
                }
            }
        }
        proof {
            lemma_entry_map(before);
            lemma_entry_map(v@);
            let m = entry_map(v@);
            let want = entry_map(before).insert(kv, xv);
            assert(v@[i as int].0.key() == kv);
            assert forall|q: K::Value| m.contains_key(q) <==> #[trigger] want.contains_key(q) by {
                assert(entry_keys(v@).contains(q) <==> m.contains_key(q));
                assert(entry_keys(before).contains(q) <==> entry_map(before).contains_key(q));
                if entry_keys(before).contains(q) {
                    let a = choose|a: int| 0 <= a < before.len() && entry_keys(before)[a] == q;
                    if found || a < i {
                        assert(entry_keys(v@)[a] == q);
                    } else {
                        assert(entry_keys(v@)[a + 1] == q);
                    }
                }
                if entry_keys(v@).contains(q) && q != kv {
                    let a = choose|a: int| 0 <= a < v@.len() && entry_keys(v@)[a] == q;
                    if found || a < i {
                        assert(entry_keys(before)[a] == q);
                    } else {
                        assert(entry_keys(before)[a - 1] == q);
                    }
                }
                if q == kv {
                    assert(entry_keys(v@)[i as int] == q);
                }
            }
            assert forall|q: K::Value| #[trigger] m.contains_key(q) implies m[q] == want[q] by {
                let a = choose|a: int| 0 <= a < v@.len() && entry_keys(v@)[a] == q;
                assert(v@[a].0.key() == q);
                if q != kv {
                    if found || a < i {
                        assert(before[a].0.key() == q);
                    } else {
                        assert(before[a - 1].0.key() == q);
                    }
                }
            }
            assert(m =~= want);
        }
        self.entries = v;
    }

    /// Removes the entry at `k`, if there is one.
    pub fn remove(&mut self, k: &K)
        ensures
            final(self)@ == old(self)@.remove(k.key()),
    {
        let (i, found) = self.find(k);
        let ghost before = self.entries@;
        proof {
            use_type_invariant(&*self);
        }
        if !found {
            assert(self@.remove(k.key()) =~= self@);
            return;
        }
        let mut v: Vec<(K, X)> = Vec::new();
        std::mem::swap(&mut v, &mut self.entries);
        v.remove(i);
        proof {
            let kv = k.key();
            assert forall|a: int, b: int| 0 <= a < b < v@.len() implies K::before(
                #[trigger] entry_keys(v@)[a],
                #[trigger] entry_keys(v@)[b],
            ) by {
                let a0 = if a < i { a } else { a + 1 };
                let b0 = if b < i { b } else { b + 1 };
                assert(entry_keys(before)[a0] == entry_keys(v@)[a]);
                assert(entry_keys(before)[b0] == entry_keys(v@)[b]);
            }
            lemma_entry_map(before);
            lemma_entry_map(v@);
            let m = entry_map(v@);
            let want = entry_map(before).remove(kv);
            assert(entry_keys(before)[i as int] == kv);
            assert forall|q: K::Value| m.contains_key(q) <==> #[trigger] want.contains_key(q) by {
                assert(entry_keys(v@).contains(q) <==> m.contains_key(q));
                assert(entry_keys(before).contains(q) <==> entry_map(before).contains_key(q));
                if entry_keys(before).contains(q) && q != kv {
                    let a = choose|a: int| 0 <= a < before.len() && entry_keys(before)[a] == q;
                    if a < i {
                        assert(entry_keys(v@)[a] == q);
                    } else {
                        assert(entry_keys(v@)[a - 1] == q);
                    }
                }
                if entry_keys(v@).contains(q) {
                    let a = choose|a: int| 0 <= a < v@.len() && entry_keys(v@)[a] == q;
                    let a0 = if a < i { a } else { a + 1 };
                    assert(entry_keys(before)[a0] == q);
                    K::before_total(q, kv);
                    assert(q != kv);
                }
            }
            assert forall|q: K::Value| #[trigger] m.contains_key(q) implies m[q] == want[q] by {
                assert(entry_keys(v@).contains(q));
                assert(want.contains_key(q));
                let a = choose|a: int| 0 <= a < v@.len() && entry_keys(v@)[a] == q;
                assert(v@[a].0.key() == q);
                let a0 = if a < i { a } else { a + 1 };
                assert(before[a0].0.key() == q);
            }
            assert(m =~= want);
        }
        self.entries = v;
    }

    pub fn duplicate(&self) -> (r: Self)
        ensures
            r@ == self@,
    {
        proof {
            use_type_invariant(self);
        }
        let mut v: Vec<(K, X)> = Vec::new();
        let mut i: usize = 0;
        while i < self.entries.len()
            invariant
                i <= self.entries@.len(),
                v@.len() == i,
                forall|j: int|
                    0 <= j < i ==> (#[trigger] v@[j]).0.key() == self.entries@[j].0.key(),
                forall|j: int| 0 <= j < i ==> (#[trigger] v@[j]).1@ == self.entries@[j].1@,
            decreases self.entries@.len() - i,
        {
            v.push((self.entries[i].0.copy_key(), self.entries[i].1.copy_value()));
            i = i + 1;
        }
        proof {
            assert(entry_keys(v@) =~= entry_keys(self.entries@));
            lemma_same_map(v@, self.entries@);
        }
        Table { entries: v }
    }
}

proof fn lemma_same_map<K: Key, X: View>(a: Seq<(K, X)>, b: Seq<(K, X)>)
    requires
        a.len() == b.len(),
        forall|j: int| 0 <= j < a.len() ==> (#[trigger] a[j]).0.key() == b[j].0.key(),
        forall|j: int| 0 <= j < a.len() ==> (#[trigger] a[j]).1@ == b[j].1@,
    ensures
        entry_map(a) == entry_map(b),
    decreases a.len(),
{
    if a.len() > 0 {
        lemma_same_map(a.drop_last(), b.drop_last());
    }
}

} // verus!
