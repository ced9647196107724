//! Sets of content identifiers.

use crate::ids::Cid;
use vstd::prelude::*;

verus! {

/// A set of content identifiers. The members stand in the order in which they came.
pub struct CidSet {
    items: Vec<Cid>,
}

impl CidSet {
    /// The members, in the order in which they came.
    pub closed spec fn seq(self) -> Seq<Cid> {
        self.items@
    }

    /// The members.
    pub open spec fn view(self) -> Set<Cid> {
        Set::new(|cid: Cid| self.seq().contains(cid))
    }

    /// No member occurs twice.
    #[verifier::type_invariant]
    closed spec fn distinct(self) -> bool {
        self.items@.no_duplicates()
    }

    /// The empty set.
    pub fn new() -> (r: CidSet)
        ensures
            r.seq() == Seq::<Cid>::empty(),
            r@ == Set::<Cid>::empty(),
    {
        let r = CidSet { items: Vec::new() };
        assert(r@ =~= Set::<Cid>::empty());
        r
    }

    /// The set of the identifiers in a list.
    pub fn from_list(list: &Vec<Cid>) -> (r: CidSet)
        ensures
            r@ == Set::new(|cid: Cid| list@.contains(cid)),
            r.seq().no_duplicates(),
    {
        let mut r = CidSet::new();
        let mut i: usize = 0;
        while i < list.len()
            invariant
                i <= list@.len(),
                r@ == Set::new(|cid: Cid| list@.take(i as int).contains(cid)),
            decreases list@.len() - i,
        {
            let ghost before = r@;
            r.insert(list[i]);
            proof {
                let next = list@.take(i + 1);
                let here = list@.take(i as int);
                assert(next =~= here.push(list@[i as int]));
                assert forall|cid: Cid| #[trigger] r@.contains(cid) <==> next.contains(cid) by {
                    if here.contains(cid) {
                        let k = choose|k: int| 0 <= k < here.len() && here[k] == cid;
                        assert(next[k] == cid);
                    }
                    assert(next[i as int] == list@[i as int]);
                    if next.contains(cid) {
                        let k = choose|k: int| 0 <= k < next.len() && next[k] == cid;
                        if k < i {
                            assert(here[k] == cid);
                        }
                    }
                }
                assert(r@ =~= Set::new(|cid: Cid| next.contains(cid)));
            }
            i += 1;
        }
        proof {
            assert(list@.take(i as int) =~= list@);
            use_type_invariant(&r);
        }
        r
    }

    /// The number of members.
    pub fn len(&self) -> (r: usize)
        ensures
            r == self.seq().len(),
            self.seq().no_duplicates(),
    {
        proof {
            use_type_invariant(self);
        }
        self.items.len()
    }

    /// Whether there is no member.
    pub fn is_empty(&self) -> (r: bool)
        ensures
            r == (self.seq().len() == 0),
    {
        self.items.len() == 0
    }

    /// The member in place `i`.
    pub fn at(&self, i: usize) -> (r: Cid)
        requires
            i < self.seq().len(),
        ensures
            r == self.seq()[i as int],
    {
        self.items[i]
    }

    /// Whether an identifier is a member.
    pub fn contains(&self, cid: &Cid) -> (r: bool)
        ensures
            r == self@.contains(*cid),
    {
        let mut i: usize = 0;
        while i < self.items.len()
            invariant
                i <= self.items@.len(),
                forall|j: int| 0 <= j < i ==> self.items@[j] != *cid,
            decreases self.items@.len() - i,
        {
            if self.items[i] == *cid {
                assert(self.seq()[i as int] == *cid);
                return true;
            }
            i += 1;
        }
        false
    }

    /// Makes an identifier a member. Gives whether it was none.
    pub fn insert(&mut self, cid: Cid) -> (r: bool)
        ensures
            r == !old(self)@.contains(cid),
            final(self)@ == old(self)@.insert(cid),
            final(self).seq() == (if r {
                old(self).seq().push(cid)
            } else {
                old(self).seq()
            }),
    {
        proof {
            use_type_invariant(&*self);
        }
        if self.contains(&cid) {
            assert(self@ =~= old(self)@.insert(cid));
            return false;
        }
        let mut items: Vec<Cid> = Vec::new();
        std::mem::swap(&mut items, &mut self.items);
        let ghost before = items@;
        items.push(cid);
        proof {
            assert forall|i: int, j: int| 0 <= i < items@.len() && 0 <= j < items@.len() && i
                != j implies items@[i] != items@[j] by {
                if i == before.len() || j == before.len() {
                    let other = if i == before.len() { j } else { i };
                    assert(before.contains(before[other]));
                }
            }
        }
        self.items = items;
        proof {
            assert forall|c: Cid| self@.contains(c) <==> old(self)@.insert(cid).contains(c) by {
                if before.contains(c) {
                    let k = choose|k: int| 0 <= k < before.len() && before[k] == c;
                    assert(self.seq()[k] == c);
                }
                assert(self.seq()[before.len() as int] == cid);
                if self.seq().contains(c) {
                    let k = choose|k: int| 0 <= k < self.seq().len() && self.seq()[k] == c;
                    if k < before.len() {
                        assert(before[k] == c);
                    }
                }
            }
            assert(self@ =~= old(self)@.insert(cid));
        }
        true
    }
}

} // verus!
