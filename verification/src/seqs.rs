//! Facts about sequences.

use vstd::prelude::*;

verus! {

/// Filtering one element more keeps it or drops it.
pub proof fn lemma_filter_step<A>(s: Seq<A>, i: int, keep: spec_fn(A) -> bool)
    requires
        0 <= i < s.len(),
    ensures
        s.take(i + 1).filter(keep) == (if keep(s[i]) {
            s.take(i).filter(keep).push(s[i])
        } else {
            s.take(i).filter(keep)
        }),
{
    reveal(Seq::filter);
    assert(s.take(i + 1).drop_last() =~= s.take(i));
}

/// Filtering nothing gives nothing.
pub proof fn lemma_filter_empty<A>(s: Seq<A>, keep: spec_fn(A) -> bool)
    ensures
        s.take(0).filter(keep) == Seq::<A>::empty(),
{
    reveal(Seq::filter);
}

/// Filtering keeps what is to be kept, and nothing else.
pub proof fn lemma_filter_has<A>(s: Seq<A>, keep: spec_fn(A) -> bool, x: A)
    ensures
        s.filter(keep).contains(x) <==> s.contains(x) && keep(x),
    decreases s.len(),
{
    reveal(Seq::filter);
    if s.len() == 0 {
        assert(s.filter(keep) =~= Seq::empty());
    } else {
        let rest = s.drop_last();
        let last = s[s.len() - 1];
        lemma_filter_has(rest, keep, x);
        lemma_push_has(rest, last, x);
        assert(rest.push(last) =~= s);
        if keep(last) {
            lemma_push_has(rest.filter(keep), last, x);
            assert(s.filter(keep) =~= rest.filter(keep).push(last));
        } else {
            assert(s.filter(keep) =~= rest.filter(keep));
        }
    }
}

/// What one element more adds.
pub proof fn lemma_push_has<A>(s: Seq<A>, last: A, x: A)
    ensures
        s.push(last).contains(x) <==> s.contains(x) || x == last,
{
    let t = s.push(last);
    if s.contains(x) {
        let i = choose|i: int| 0 <= i < s.len() && s[i] == x;
        assert(t[i] == x);
    }
    if x == last {
        assert(t[s.len() as int] == x);
    }
    if t.contains(x) {
        let i = choose|i: int| 0 <= i < t.len() && t[i] == x;
        if i < s.len() {
            assert(s[i] == x);
        }
    }
}

/// What two lists have, one behind the other.
pub proof fn lemma_add_has<A>(a: Seq<A>, b: Seq<A>, x: A)
    ensures
        (a + b).contains(x) <==> a.contains(x) || b.contains(x),
{
    let t = a + b;
    if a.contains(x) {
        let i = choose|i: int| 0 <= i < a.len() && a[i] == x;
        assert(t[i] == x);
    }
    if b.contains(x) {
        let i = choose|i: int| 0 <= i < b.len() && b[i] == x;
        assert(t[a.len() + i] == x);
    }
    if t.contains(x) {
        let i = choose|i: int| 0 <= i < t.len() && t[i] == x;
        if i < a.len() {
            assert(a[i] == x);
        } else {
            assert(b[i - a.len()] == x);
        }
    }
}

/// What a list has once every element is turned into another.
pub proof fn lemma_map_has<A, B>(s: Seq<A>, f: spec_fn(A) -> B, y: B)
    ensures
        s.map_values(f).contains(y) <==> exists|i: int|
            0 <= i < s.len() && f(#[trigger] s[i]) == y,
{
    let t = s.map_values(f);
    if t.contains(y) {
        let i = choose|i: int| 0 <= i < t.len() && t[i] == y;
        assert(f(s[i]) == y);
    }
    if exists|i: int| 0 <= i < s.len() && f(#[trigger] s[i]) == y {
        let i = choose|i: int| 0 <= i < s.len() && f(#[trigger] s[i]) == y;
        assert(t[i] == y);
    }
}

/// What a list has is its last element or one before.
pub proof fn lemma_last_splits<A>(s: Seq<A>)
    requires
        s.len() > 0,
    ensures
        forall|x: A| #[trigger] s.contains(x) <==> s.drop_last().contains(x) || x == s.last(),
        forall|x: A| #[trigger] s.drop_last().contains(x) ==> s.contains(x),
        s.contains(s.last()),
{
    let rest = s.drop_last();
    assert(rest.push(s.last()) =~= s);
    assert forall|x: A| #[trigger] s.contains(x) <==> rest.contains(x) || x == s.last() by {
        lemma_push_has(rest, s.last(), x);
    }
    assert(s[s.len() - 1] == s.last());
    assert(s.contains(s.last()));
}

/// What a list has once every element is turned into another comes from what it had.
pub proof fn lemma_map_contains<A, B>(s: Seq<A>, f: spec_fn(A) -> B)
    ensures
        forall|y: B| #[trigger]
            s.map_values(f).contains(y) ==> exists|x: A| #[trigger] s.contains(x) && f(x) == y,
        forall|x: A| #[trigger] s.contains(x) ==> s.map_values(f).contains(f(x)),
{
    let t = s.map_values(f);
    assert forall|y: B| #[trigger] t.contains(y) implies exists|x: A| #[trigger]
        s.contains(x) && f(x) == y by {
        let i = choose|i: int| 0 <= i < t.len() && t[i] == y;
        assert(s.contains(s[i]) && f(s[i]) == y);
    }
    assert forall|x: A| #[trigger] s.contains(x) implies t.contains(f(x)) by {
        let i = choose|i: int| 0 <= i < s.len() && s[i] == x;
        assert(t[i] == f(x));
    }
}

/// Filtering keeps what is to be kept, and nothing else.
pub proof fn lemma_filter_contains<A>(s: Seq<A>, keep: spec_fn(A) -> bool)
    ensures
        forall|x: A| #[trigger] s.filter(keep).contains(x) <==> s.contains(x) && keep(x),
{
    assert forall|x: A| #[trigger] s.filter(keep).contains(x) <==> s.contains(x) && keep(x) by {
        lemma_filter_has(s, keep, x);
    }
}

/// Filtering makes no list longer.
pub proof fn lemma_filter_len<A>(s: Seq<A>, keep: spec_fn(A) -> bool)
    ensures
        s.filter(keep).len() <= s.len(),
    decreases s.len(),
{
    reveal(Seq::filter);
    if s.len() > 0 {
        lemma_filter_len(s.drop_last(), keep);
    }
}

} // verus!
