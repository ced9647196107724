//! Maps and sets that keep their keys in order.

use vstd::prelude::*;

verus! {

/// How one key stands to another.
#[derive(Clone, Copy, PartialEq, Eq, Debug, Structural)]
pub enum Rank {
    /// The key comes first.
    Before,
    /// The keys are the same.
    Same,
    /// The key comes second.
    After,
}

/// A key with a strict total order on what it stands for.
pub trait SortKey: View + Sized {
    /// Whether `a` comes before `b`.
    spec fn lt(a: Self::V, b: Self::V) -> bool;

    proof fn lt_irreflexive(a: Self::V)
        ensures
            !Self::lt(a, a),
    ;

    proof fn lt_transitive(a: Self::V, b: Self::V, c: Self::V)
        requires
            Self::lt(a, b),
            Self::lt(b, c),
        ensures
            Self::lt(a, c),
    ;

    proof fn lt_total(a: Self::V, b: Self::V)
        ensures
            Self::lt(a, b) || a == b || Self::lt(b, a),
    ;

    /// How `self` stands to `other`.
    fn rank(&self, other: &Self) -> (r: Rank)
        ensures
            match r {
                Rank::Before => Self::lt(self@, other@),
                Rank::Same => self@ == other@,
                Rank::After => Self::lt(other@, self@),
            },
    ;
}

/// The keys of `s` are strictly increasing.
pub open spec fn increasing<K: SortKey, V>(s: Seq<(K, V)>) -> bool {
    forall|i: int, j: int| 0 <= i < j < s.len() ==> K::lt(#[trigger] s[i].0@, #[trigger] s[j].0@)
}

/// Whether `k` is a key of `s`.
pub open spec fn has_key<K: SortKey, V>(s: Seq<(K, V)>, k: K::V) -> bool {
    exists|i: int| 0 <= i < s.len() && #[trigger] s[i].0@ == k
}

/// The value that stands beside `k` in `s`.
pub open spec fn value_at<K: SortKey, V>(s: Seq<(K, V)>, k: K::V) -> V {
    s[choose|i: int| 0 <= i < s.len() && #[trigger] s[i].0@ == k].1
}

/// The map from keys to values that `s` lists.
pub open spec fn map_of<K: SortKey, V>(s: Seq<(K, V)>) -> Map<K::V, V> {
    Map::new(|k: K::V| has_key(s, k), |k: K::V| value_at(s, k))
}

/// The members of `s` are strictly increasing.
pub open spec fn ascending<K: SortKey>(s: Seq<K::V>) -> bool {
    forall|i: int, j: int| 0 <= i < j < s.len() ==> K::lt(#[trigger] s[i], #[trigger] s[j])
}

/// The members of `set`, each once, in increasing order.
pub open spec fn in_order<K: SortKey>(set: Set<K::V>) -> Seq<K::V> {
    choose|s: Seq<K::V>|
        ascending::<K>(s) && forall|k: K::V| #[trigger] s.contains(k) <==> set.contains(k)
}

/// A map that is listed has finitely many keys.
pub proof fn lemma_finite_keys<K: SortKey, V>(s: Seq<(K, V)>)
    ensures
        map_of(s).dom().finite(),
{
    let keys = s.map_values(|e: (K, V)| e.0@);
    assert forall|k: K::V| #[trigger] map_of(s).dom().contains(k) <==> keys.to_set().contains(
        k,
    ) by {
        if has_key(s, k) {
            let i = choose|i: int| 0 <= i < s.len() && #[trigger] s[i].0@ == k;
            assert(keys[i] == k);
        }
        if keys.contains(k) {
            let i = choose|i: int| 0 <= i < keys.len() && keys[i] == k;
            assert(s[i].0@ == k);
        }
    }
    assert(map_of(s).dom() =~= keys.to_set());
    vstd::seq_lib::seq_to_set_is_finite(keys);
}

/// Two increasing sequences with the same members are the same.
pub proof fn lemma_ascending_unique<K: SortKey>(a: Seq<K::V>, b: Seq<K::V>)
    requires
        ascending::<K>(a),
        ascending::<K>(b),
        forall|k: K::V| #[trigger] a.contains(k) <==> b.contains(k),
    ensures
        a == b,
    decreases a.len(),
{
    if a.len() == 0 || b.len() == 0 {
        if a.len() > 0 {
            assert(a.contains(a[0]));
            assert(b.contains(a[0]));
        }
        if b.len() > 0 {
            assert(b.contains(b[0]));
            assert(a.contains(b[0]));
        }
        assert(a =~= b);
    } else {
        let x = a.last();
        let y = b.last();
        assert(a.contains(x) && b.contains(x));
        assert(b.contains(y) && a.contains(y));
        let i = choose|i: int| 0 <= i < a.len() && a[i] == y;
        let j = choose|j: int| 0 <= j < b.len() && b[j] == x;
        if i < a.len() - 1 && j < b.len() - 1 {
            assert(K::lt(a[i], a[a.len() - 1]));
            assert(K::lt(b[j], b[b.len() - 1]));
            K::lt_transitive(x, y, x);
            K::lt_irreflexive(x);
        }
        assert(x == y);
        let p = a.drop_last();
        let q = b.drop_last();
        assert forall|k: K::V| #[trigger] p.contains(k) <==> q.contains(k) by {
            K::lt_irreflexive(x);
            if p.contains(k) {
                let n = choose|n: int| 0 <= n < p.len() && p[n] == k;
                assert(a[n] == p[n]);
                assert(K::lt(a[n], a[a.len() - 1]));
                assert(a.contains(k));
                assert(b.contains(k));
                let m = choose|m: int| 0 <= m < b.len() && b[m] == k;
                assert(q[m] == k);
            }
            if q.contains(k) {
                let n = choose|n: int| 0 <= n < q.len() && q[n] == k;
                assert(b[n] == q[n]);
                assert(K::lt(b[n], b[b.len() - 1]));
                assert(b.contains(k));
                assert(a.contains(k));
                let m = choose|m: int| 0 <= m < a.len() && a[m] == k;
                assert(p[m] == k);
            }
        }
        lemma_ascending_unique::<K>(p, q);
        assert(a =~= p.push(x));
        assert(b =~= q.push(y));
    }
}

/// An increasing sequence is the members of the set that it lists, in order.
pub proof fn lemma_in_order<K: SortKey>(s: Seq<K::V>, set: Set<K::V>)
    requires
        ascending::<K>(s),
        forall|k: K::V| #[trigger] s.contains(k) <==> set.contains(k),
    ensures
        in_order::<K>(set) == s,
{
    lemma_ascending_unique::<K>(in_order::<K>(set), s);
}

/// A new member has its place in an increasing sequence.
proof fn lemma_place<K: SortKey>(s: Seq<K::V>, x: K::V) -> (t: Seq<K::V>)
    requires
        ascending::<K>(s),
        !s.contains(x),
    ensures
        ascending::<K>(t),
        forall|k: K::V| #[trigger] t.contains(k) <==> s.contains(k) || k == x,
    decreases s.len(),
{
    if s.len() == 0 || K::lt(s.last(), x) {
        let t = s.push(x);
        assert forall|i: int, j: int| 0 <= i < j < t.len() implies K::lt(
            #[trigger] t[i],
            #[trigger] t[j],
        ) by {
            if j == s.len() && i < s.len() - 1 {
                assert(K::lt(s[i], s[s.len() - 1]));
                K::lt_transitive(s[i], s.last(), x);
            }
        }
        assert forall|k: K::V| #[trigger] t.contains(k) <==> s.contains(k) || k == x by {
            if s.contains(k) {
                let i = choose|i: int| 0 <= i < s.len() && s[i] == k;
                assert(t[i] == k);
            }
            assert(t[s.len() as int] == x);
        }
        t
    } else {
        let p = s.drop_last();
        let y = s.last();
        assert(s[s.len() - 1] == y);
        K::lt_total(x, y);
        assert(s.contains(y));
        assert(K::lt(x, y));
        assert forall|k: K::V| #[trigger] s.contains(k) <==> p.contains(k) || k == y by {
            if s.contains(k) && k != y {
                let i = choose|i: int| 0 <= i < s.len() && s[i] == k;
                assert(p[i] == k);
            }
            if p.contains(k) {
                let i = choose|i: int| 0 <= i < p.len() && p[i] == k;
                assert(s[i] == k);
            }
        }
        assert(!p.contains(x)) by {
            assert(!s.contains(x));
        }
        let q = lemma_place::<K>(p, x);
        let t = q.push(y);
        assert forall|i: int, j: int| 0 <= i < j < t.len() implies K::lt(
            #[trigger] t[i],
            #[trigger] t[j],
        ) by {
            if j == q.len() {
                assert(q.contains(q[i]));
                if q[i] != x {
                    let n = choose|n: int| 0 <= n < p.len() && p[n] == q[i];
                    assert(K::lt(s[n], s[s.len() - 1]));
                }
            }
        }
        assert forall|k: K::V| #[trigger] t.contains(k) <==> s.contains(k) || k == x by {
            if q.contains(k) {
                let i = choose|i: int| 0 <= i < q.len() && q[i] == k;
                assert(t[i] == k);
            }
            assert(t[q.len() as int] == y);
            if t.contains(k) && k != y {
                let i = choose|i: int| 0 <= i < t.len() && t[i] == k;
                assert(q[i] == k);
                assert(q.contains(k));
            }
            assert(s.contains(k) <==> p.contains(k) || k == y);
        }
        t
    }
}

/// The members of a finite set can be put in order.
pub proof fn lemma_finite_in_order<K: SortKey>(set: Set<K::V>)
    requires
        set.finite(),
    ensures
        ascending::<K>(in_order::<K>(set)),
        forall|k: K::V| #[trigger] in_order::<K>(set).contains(k) <==> set.contains(k),
    decreases set.len(),
{
    if set.len() == 0 {
        let s = Seq::<K::V>::empty();
        assert forall|k: K::V| #[trigger] s.contains(k) <==> set.contains(k) by {
            if set.contains(k) {
                assert(set.remove(k).len() < set.len());
            }
        }
        lemma_in_order::<K>(s, set);
    } else {
        let x = set.choose();
        lemma_finite_in_order::<K>(set.remove(x));
        let s = in_order::<K>(set.remove(x));
        assert(!s.contains(x));
        let t = lemma_place::<K>(s, x);
        assert forall|k: K::V| #[trigger] t.contains(k) <==> set.contains(k) by {
            assert(s.contains(k) <==> set.remove(x).contains(k));
        }
        lemma_in_order::<K>(t, set);
    }
}

/// The keys of an increasing sequence of entries are the keys of its map, in order.
pub proof fn lemma_keys_in_order<K: SortKey, V>(s: Seq<(K, V)>)
    requires
        increasing(s),
    ensures
        in_order::<K>(map_of(s).dom()) == s.map_values(|e: (K, V)| e.0@),
        ascending::<K>(in_order::<K>(map_of(s).dom())),
        forall|k: K::V| #[trigger]
            in_order::<K>(map_of(s).dom()).contains(k) <==> map_of(s).dom().contains(k),
        forall|i: int|
            0 <= i < s.len() ==> map_of(s).contains_key(#[trigger] s[i].0@) && map_of(s)[s[i].0@]
                == s[i].1,
{
    let keys = s.map_values(|e: (K, V)| e.0@);
    assert forall|k: K::V| #[trigger] keys.contains(k) <==> map_of(s).dom().contains(k) by {
        if keys.contains(k) {
            let i = choose|i: int| 0 <= i < keys.len() && keys[i] == k;
            assert(s[i].0@ == k);
        }
        if has_key(s, k) {
            let i = choose|i: int| 0 <= i < s.len() && #[trigger] s[i].0@ == k;
            assert(keys[i] == k);
        }
    }
    lemma_in_order::<K>(keys, map_of(s).dom());
    assert forall|i: int| 0 <= i < s.len() implies map_of(s).contains_key(#[trigger] s[i].0@)
        && map_of(s)[s[i].0@] == s[i].1 by {
        lemma_entry(s, i);
    }
}

/// A map whose entries stand in the order of their keys.
pub struct SortedMap<K: SortKey, V> {
    entries: Vec<(K, V)>,
}

/// In an increasing sequence a key occurs once, so the entry at `i` is what the
/// map holds for its key.
proof fn lemma_entry<K: SortKey, V>(s: Seq<(K, V)>, i: int)
    requires
        increasing(s),
        0 <= i < s.len(),
    ensures
        has_key(s, s[i].0@),
        value_at(s, s[i].0@) == s[i].1,
{
    let k = s[i].0@;
    let c = choose|j: int| 0 <= j < s.len() && #[trigger] s[j].0@ == k;
    assert(s[i].0@ == k);
    K::lt_irreflexive(k);
}

/// Replacing the value of an entry changes the map at that key alone.
proof fn lemma_update<K: SortKey, V>(s: Seq<(K, V)>, i: int, e: (K, V))
    requires
        increasing(s),
        0 <= i < s.len(),
        e.0@ == s[i].0@,
    ensures
        increasing(s.update(i, e)),
        map_of(s.update(i, e)) == map_of(s).insert(e.0@, e.1),
{
    let t = s.update(i, e);
    assert(forall|j: int| 0 <= j < s.len() ==> #[trigger] t[j].0@ == s[j].0@);
    assert(increasing(t));
    assert forall|k: K::V| has_key(t, k) == (has_key(s, k) || k == e.0@) by {
        if has_key(s, k) {
            let j = choose|j: int| 0 <= j < s.len() && #[trigger] s[j].0@ == k;
            assert(t[j].0@ == k);
        }
        if has_key(t, k) {
            let j = choose|j: int| 0 <= j < t.len() && #[trigger] t[j].0@ == k;
            assert(s[j].0@ == k);
        }
        assert(t[i].0@ == e.0@);
    }
    assert forall|k: K::V| has_key(t, k) implies value_at(t, k) == (if k == e.0@ {
        e.1
    } else {
        value_at(s, k)
    }) by {
        let j = choose|j: int| 0 <= j < t.len() && #[trigger] t[j].0@ == k;
        lemma_entry(t, j);
        lemma_entry(s, j);
        lemma_entry(t, i);
        if j != i {
            K::lt_irreflexive(k);
        }
    }
    assert(map_of(t) =~= map_of(s).insert(e.0@, e.1));
}

/// Inserting an entry between smaller and larger keys adds it to the map.
proof fn lemma_insert<K: SortKey, V>(s: Seq<(K, V)>, i: int, e: (K, V))
    requires
        increasing(s),
        0 <= i <= s.len(),
        forall|j: int| 0 <= j < i ==> K::lt(#[trigger] s[j].0@, e.0@),
        forall|j: int| i <= j < s.len() ==> K::lt(e.0@, #[trigger] s[j].0@),
    ensures
        increasing(s.insert(i, e)),
        map_of(s.insert(i, e)) == map_of(s).insert(e.0@, e.1),
{
    let t = s.insert(i, e);
    assert(forall|j: int| 0 <= j < i ==> #[trigger] t[j] == s[j]);
    assert(t[i] == e);
    assert(forall|j: int| i < j < t.len() ==> #[trigger] t[j] == s[j - 1]);
    assert forall|a: int, b: int| 0 <= a < b < t.len() implies K::lt(
        #[trigger] t[a].0@,
        #[trigger] t[b].0@,
    ) by {
        if a < i && b > i {
            assert(K::lt(s[a].0@, s[b - 1].0@));
        }
    }
    assert forall|k: K::V| has_key(t, k) == (has_key(s, k) || k == e.0@) by {
        if has_key(s, k) {
            let j = choose|j: int| 0 <= j < s.len() && #[trigger] s[j].0@ == k;
            if j < i {
                assert(t[j].0@ == k);
            } else {
                assert(t[j + 1].0@ == k);
            }
        }
        if has_key(t, k) && k != e.0@ {
            let j = choose|j: int| 0 <= j < t.len() && #[trigger] t[j].0@ == k;
            if j < i {
                assert(s[j].0@ == k);
            } else {
                assert(s[j - 1].0@ == k);
            }
        }
    }
    assert forall|k: K::V| has_key(t, k) implies value_at(t, k) == (if k == e.0@ {
        e.1
    } else {
        value_at(s, k)
    }) by {
        let j = choose|j: int| 0 <= j < t.len() && #[trigger] t[j].0@ == k;
        lemma_entry(t, j);
        lemma_entry(t, i);
        if j < i {
            lemma_entry(s, j);
            K::lt_irreflexive(k);
        } else if j > i {
            lemma_entry(s, j - 1);
            K::lt_irreflexive(k);
        }
    }
    assert(map_of(t) =~= map_of(s).insert(e.0@, e.1));
}

/// Taking an entry out removes its key from the map.
proof fn lemma_remove<K: SortKey, V>(s: Seq<(K, V)>, i: int)
    requires
        increasing(s),
        0 <= i < s.len(),
    ensures
        increasing(s.remove(i)),
        map_of(s.remove(i)) == map_of(s).remove(s[i].0@),
{
    let t = s.remove(i);
    let k0 = s[i].0@;
    assert(forall|j: int| 0 <= j < i ==> #[trigger] t[j] == s[j]);
    assert(forall|j: int| i <= j < t.len() ==> #[trigger] t[j] == s[j + 1]);
    assert forall|a: int, b: int| 0 <= a < b < t.len() implies K::lt(
        #[trigger] t[a].0@,
        #[trigger] t[b].0@,
    ) by {
        let x = if a < i {
            a
        } else {
            a + 1
        };
        let y = if b < i {
            b
        } else {
            b + 1
        };
        assert(K::lt(s[x].0@, s[y].0@));
    }
    assert forall|k: K::V| has_key(t, k) == (has_key(s, k) && k != k0) by {
        K::lt_irreflexive(k0);
        if has_key(s, k) && k != k0 {
            let j = choose|j: int| 0 <= j < s.len() && #[trigger] s[j].0@ == k;
            if j < i {
                assert(t[j].0@ == k);
            } else {
                assert(t[j - 1].0@ == k);
            }
        }
        if has_key(t, k) {
            let j = choose|j: int| 0 <= j < t.len() && #[trigger] t[j].0@ == k;
            if j < i {
                assert(s[j].0@ == k);
            } else {
                assert(s[j + 1].0@ == k);
            }
        }
    }
    assert forall|k: K::V| has_key(t, k) implies value_at(t, k) == value_at(s, k) by {
        let j = choose|j: int| 0 <= j < t.len() && #[trigger] t[j].0@ == k;
        lemma_entry(t, j);
        lemma_entry(
            s,
            if j < i {
                j
            } else {
                j + 1
            },
        );
    }
    assert(map_of(t) =~= map_of(s).remove(k0));
}

impl<K: SortKey, V> SortedMap<K, V> {
    /// The entries, in the order of their keys.
    pub closed spec fn seq(self) -> Seq<(K, V)> {
        self.entries@
    }

    /// The keys rise.
    #[verifier::type_invariant]
    pub open spec fn in_order(self) -> bool {
        increasing(self.seq())
    }

    /// What the map holds for each key.
    pub open spec fn view(self) -> Map<K::V, V> {
        map_of(self.seq())
    }

    /// The empty map.
    pub fn new() -> (r: Self)
        ensures
            r.seq() == Seq::<(K, V)>::empty(),
            r@ == Map::<K::V, V>::empty(),
    {
        let r = SortedMap { entries: Vec::new() };
        assert(r@ =~= Map::<K::V, V>::empty());
        r
    }

    /// The number of entries.
    pub fn len(&self) -> (r: usize)
        ensures
            r == self.seq().len(),
    {
        self.entries.len()
    }

    /// Whether there is no entry.
    pub fn is_empty(&self) -> (r: bool)
        ensures
            r == (self@ == Map::<K::V, V>::empty()),
            r == (self.seq().len() == 0),
    {
        let r = self.entries.len() == 0;
        proof {
            let s = self.seq();
            if r {
                assert(self@ =~= Map::<K::V, V>::empty());
            } else {
                assert(has_key(s, s[0].0@));
                assert(self@.contains_key(s[0].0@));
            }
        }
        r
    }

    /// The key of the entry at `i`.
    pub fn key_at(&self, i: usize) -> (r: &K)
        requires
            i < self.seq().len(),
        ensures
            *r == self.seq()[i as int].0,
    {
        &self.entries[i].0
    }

    /// The value of the entry at `i`.
    pub fn value_of(&self, i: usize) -> (r: &V)
        requires
            i < self.seq().len(),
        ensures
            *r == self.seq()[i as int].1,
    {
        &self.entries[i].1
    }

    /// Where `k` is, or where it belongs.
    fn locate(&self, k: &K) -> (r: (bool, usize))
        ensures
            r.0 == self@.contains_key(k@),
            r.0 ==> r.1 < self.seq().len() && self.seq()[r.1 as int].0@ == k@
                && self@[k@] == self.seq()[r.1 as int].1,
            !r.0 ==> r.1 <= self.seq().len() && (forall|j: int|
                0 <= j < r.1 ==> K::lt(#[trigger] self.seq()[j].0@, k@)) && (forall|j: int|
                r.1 <= j < self.seq().len() ==> K::lt(k@, #[trigger] self.seq()[j].0@)),
    {
        proof {
            use_type_invariant(self);
        }
        let mut i: usize = 0;
        while i < self.entries.len()
            invariant
                i <= self.entries.len(),
                increasing(self.seq()),
                forall|j: int| 0 <= j < i ==> K::lt(#[trigger] self.seq()[j].0@, k@),
            decreases self.entries.len() - i,
        {
            match k.rank(&self.entries[i].0) {
                Rank::After => {
                    i += 1;
                },
                Rank::Same => {
                    proof {
                        lemma_entry(self.seq(), i as int);
                    }
                    return (true, i);
                },
                Rank::Before => {
                    proof {
                        let s = self.seq();
                        assert forall|j: int| i <= j < s.len() implies K::lt(
                            k@,
                            #[trigger] s[j].0@,
                        ) by {
                            if j > i {
                                K::lt_transitive(k@, s[i as int].0@, s[j].0@);
                            }
                        }
                        lemma_apart(s, i as int, k@);
                    }
                    return (false, i);
                },
            }
        }
        proof {
            lemma_apart(self.seq(), i as int, k@);
        }
        (false, i)
    }

    /// The value held for `k`.
    pub fn get(&self, k: &K) -> (r: Option<&V>)
        ensures
            match r {
                Some(v) => self@.contains_key(k@) && *v == self@[k@],
                None => !self@.contains_key(k@),
            },
    {
        let (found, i) = self.locate(k);
        if found {
            Some(&self.entries[i].1)
        } else {
            None
        }
    }

    /// Whether `k` is a key.
    pub fn contains_key(&self, k: &K) -> (r: bool)
        ensures
            r == self@.contains_key(k@),
    {
        self.locate(k).0
    }

    /// Holds `v` for `k` from now on.
    pub fn insert(&mut self, k: K, v: V)
        ensures
            final(self)@ == old(self)@.insert(k@, v),
    {
        proof {
            use_type_invariant(&*self);
        }
        let (found, i) = self.locate(&k);
        let ghost before = self.seq();
        let mut entries: Vec<(K, V)> = Vec::new();
        std::mem::swap(&mut entries, &mut self.entries);
        if found {
            proof {
                lemma_update(before, i as int, (k, v));
            }
            entries.set(i, (k, v));
        } else {
            proof {
                lemma_insert(before, i as int, (k, v));
            }
            entries.insert(i, (k, v));
        }
        self.entries = entries;
    }

    /// Takes out what is held for `k`, if anything.
    pub fn remove(&mut self, k: &K) -> (r: Option<V>)
        ensures
            final(self)@ == old(self)@.remove(k@),
            match r {
                Some(v) => old(self)@.contains_key(k@) && v == old(self)@[k@],
                None => !old(self)@.contains_key(k@),
            },
    {
        proof {
            use_type_invariant(&*self);
        }
        let (found, i) = self.locate(k);
        let ghost before = self.seq();
        if !found {
            assert(self@ =~= self@.remove(k@));
            return None;
        }
        let mut entries: Vec<(K, V)> = Vec::new();
        std::mem::swap(&mut entries, &mut self.entries);
        proof {
            lemma_remove(before, i as int);
        }
        let (_, v) = entries.remove(i);
        self.entries = entries;
        Some(v)
    }
}

/// A key that lies between two neighbours is not in the sequence.
proof fn lemma_apart<K: SortKey, V>(s: Seq<(K, V)>, i: int, k: K::V)
    requires
        forall|j: int| 0 <= j < i ==> K::lt(#[trigger] s[j].0@, k),
        forall|j: int| i <= j < s.len() ==> K::lt(k, #[trigger] s[j].0@),
    ensures
        !has_key(s, k),
{
    K::lt_irreflexive(k);
}

/// A set whose members stand in order.
pub struct SortedSet<K: SortKey> {
    map: SortedMap<K, ()>,
}

impl<K: SortKey> SortedSet<K> {
    /// The members, in order.
    pub closed spec fn seq(self) -> Seq<K> {
        self.map.seq().map_values(|e: (K, ())| e.0)
    }

    /// The members.
    pub closed spec fn view(self) -> Set<K::V> {
        self.map@.dom()
    }

    /// There are finitely many members.
    pub proof fn lemma_finite(self)
        ensures
            self@.finite(),
    {
        lemma_finite_keys(self.map.seq());
    }

    /// The members stand in order.
    pub fn members(&self) -> (r: Vec<&K>)
        ensures
            r@.map_values(|k: &K| k@) == in_order::<K>(self@),
            r@.len() == self.seq().len(),
            forall|i: int| 0 <= i < r@.len() ==> *(#[trigger] r@[i]) == self.seq()[i],
            ascending::<K>(in_order::<K>(self@)),
            forall|k: K::V| #[trigger]
                in_order::<K>(self@).contains(k) <==> self@.contains(k),
    {
        let mut r: Vec<&K> = Vec::new();
        let mut i: usize = 0;
        while i < self.map.len()
            invariant
                i <= self.map.seq().len(),
                r@.len() == i,
                forall|j: int| 0 <= j < i ==> *(#[trigger] r@[j]) == self.map.seq()[j].0,
            decreases self.map.seq().len() - i,
        {
            r.push(self.map.key_at(i));
            i += 1;
        }
        proof {
            use_type_invariant(&self.map);
            lemma_keys_in_order(self.map.seq());
            assert(r@.map_values(|k: &K| k@) =~= self.map.seq().map_values(|e: (K, ())| e.0@));
        }
        r
    }

    /// The empty set.
    pub fn new() -> (r: Self)
        ensures
            r.seq() == Seq::<K>::empty(),
            r@ == Set::<K::V>::empty(),
    {
        let r = SortedSet { map: SortedMap::new() };
        assert(r.seq() =~= Seq::<K>::empty());
        assert(r@ =~= Set::<K::V>::empty());
        r
    }

    /// The number of members.
    pub fn len(&self) -> (r: usize)
        ensures
            r == self.seq().len(),
    {
        self.map.len()
    }

    /// Whether there is no member.
    pub fn is_empty(&self) -> (r: bool)
        ensures
            r == (self@ == Set::<K::V>::empty()),
            r == (self.seq().len() == 0),
    {
        let r = self.map.len() == 0;
        proof {
            let s = self.map.seq();
            if r {
                assert(self@ =~= Set::<K::V>::empty());
            } else {
                assert(has_key(s, s[0].0@));
                assert(self@.contains(s[0].0@));
            }
        }
        r
    }

    /// The member at place `i`.
    pub fn at(&self, i: usize) -> (r: &K)
        requires
            i < self.seq().len(),
        ensures
            *r == self.seq()[i as int],
    {
        self.map.key_at(i)
    }

    /// Whether `k` is a member.
    pub fn contains(&self, k: &K) -> (r: bool)
        ensures
            r == self@.contains(k@),
    {
        self.map.contains_key(k)
    }

    /// Makes `k` a member.
    pub fn insert(&mut self, k: K)
        ensures
            final(self)@ == old(self)@.insert(k@),
    {
        self.map.insert(k, ());
        assert(self@ =~= old(self)@.insert(k@));
    }

    /// Makes `k` no longer a member.
    pub fn remove(&mut self, k: &K)
        ensures
            final(self)@ == old(self)@.remove(k@),
    {
        self.map.remove(k);
        assert(self@ =~= old(self)@.remove(k@));
    }
}

} // verus!
