//! Orders of things: the newest first, and by label.

use crate::sorted::{in_order, Rank, SortKey, SortedSet};
use crate::text::{
    text_lt, text_lt_irreflexive, text_lt_total, text_lt_transitive, text_rank, texts,
};
use vstd::prelude::*;

verus! {

/// A place in a list, beside the time of what stands there.
#[derive(Clone, Copy, PartialEq, Eq, Debug, Structural)]
pub struct Stamped {
    pub timestamp: u64,
    pub index: usize,
}

impl View for Stamped {
    type V = Stamped;

    open spec fn view(&self) -> Stamped {
        *self
    }
}

/// The later time comes first, and of two equal times the earlier place.
impl SortKey for Stamped {
    open spec fn lt(a: Stamped, b: Stamped) -> bool {
        a.timestamp > b.timestamp || (a.timestamp == b.timestamp && a.index < b.index)
    }

    proof fn lt_irreflexive(a: Stamped) {
    }

    proof fn lt_transitive(a: Stamped, b: Stamped, c: Stamped) {
    }

    proof fn lt_total(a: Stamped, b: Stamped) {
    }

    fn rank(&self, other: &Self) -> (r: Rank) {
        if self.timestamp > other.timestamp {
            Rank::Before
        } else if self.timestamp < other.timestamp {
            Rank::After
        } else if self.index < other.index {
            Rank::Before
        } else if self.index > other.index {
            Rank::After
        } else {
            Rank::Same
        }
    }
}

/// The places of a list of times.
pub open spec fn stamps(times: Seq<u64>) -> Set<Stamped> {
    Set::new(|s: Stamped| 0 <= s.index < times.len() && s.timestamp == times[s.index as int])
}

/// The places of a list of times, the latest time first, and equal times in the
/// order of the list.
pub open spec fn newest_first(times: Seq<u64>) -> Seq<Stamped> {
    in_order::<Stamped>(stamps(times))
}

/// The places of a list of times, the latest time first, and equal times in the
/// order of the list.
pub fn sort_newest_first(times: &Vec<u64>) -> (r: Vec<Stamped>)
    ensures
        r@ == newest_first(times@),
        forall|i: int|
            0 <= i < r@.len() ==> (#[trigger] r@[i]).index < times@.len() && r@[i].timestamp
                == times@[r@[i].index as int],
{
    let mut set: SortedSet<Stamped> = SortedSet::new();
    let mut i: usize = 0;
    while i < times.len()
        invariant
            i <= times@.len(),
            set@ == stamps(times@.take(i as int)),
        decreases times@.len() - i,
    {
        set.insert(Stamped { timestamp: times[i], index: i });
        i += 1;
        assert(set@ =~= stamps(times@.take(i as int)));
    }
    assert(times@.take(i as int) =~= times@);
    let members = set.members();
    let mut out: Vec<Stamped> = Vec::new();
    let mut j: usize = 0;
    while j < members.len()
        invariant
            j <= members@.len(),
            out@.len() == j,
            forall|k: int| 0 <= k < j ==> #[trigger] out@[k] == *members@[k],
        decreases members@.len() - j,
    {
        out.push(*members[j]);
        j += 1;
    }
    assert(out@ =~= members@.map_values(|k: &Stamped| k@));
    assert forall|k: int| 0 <= k < out@.len() implies (#[trigger] out@[k]).index < times@.len()
        && out@[k].timestamp == times@[out@[k].index as int] by {
        assert(newest_first(times@).contains(out@[k]));
    }
    out
}

/// Whether place `i` of a list of times has the latest, and no later place has it too.
pub open spec fn is_latest(times: Seq<u64>, i: int) -> bool {
    &&& 0 <= i < times.len()
    &&& forall|j: int| 0 <= j < times.len() ==> #[trigger] times[j] <= times[i]
    &&& forall|j: int| i < j < times.len() ==> #[trigger] times[j] < times[i]
}

/// The last place of a list of times that has the latest.
pub fn latest(times: &Vec<u64>) -> (r: Option<usize>)
    ensures
        match r {
            Some(i) => is_latest(times@, i as int),
            None => times@.len() == 0,
        },
{
    if times.len() == 0 {
        return None;
    }
    let mut best: usize = 0;
    let mut i: usize = 1;
    while i < times.len()
        invariant
            best < i <= times@.len(),
            forall|j: int| 0 <= j < i ==> #[trigger] times@[j] <= times@[best as int],
            forall|j: int| best < j < i ==> #[trigger] times@[j] < times@[best as int],
        decreases times@.len() - i,
    {
        if times[i] >= times[best] {
            best = i;
        }
        i += 1;
    }
    Some(best)
}

/// A list of times has finitely many places.
proof fn lemma_stamps_finite(times: Seq<u64>)
    requires
        times.len() <= usize::MAX,
    ensures
        stamps(times).finite(),
    decreases times.len(),
{
    if times.len() == 0 {
        assert(stamps(times) =~= Set::empty());
    } else {
        let before = times.drop_last();
        lemma_stamps_finite(before);
        assert(stamps(times) =~= stamps(before).insert(
            Stamped { timestamp: times.last(), index: (times.len() - 1) as usize },
        ));
    }
}

/// Putting times in order loses none and makes none up: every place of the list occurs
/// once, with its time, and no time is later than one before it. Equal times stay in the
/// order of the list.
pub proof fn law_newest_first_is_a_sorting(times: Seq<u64>)
    requires
        times.len() <= usize::MAX,
    ensures
        ({
            let r = newest_first(times);
            &&& forall|s: Stamped| #[trigger]
                r.contains(s) <==> s.index < times.len() && s.timestamp == times[s.index as int]
            &&& forall|i: int, j: int|
                0 <= i < j < r.len() ==> (#[trigger] r[i]).index != (#[trigger] r[j]).index
                    && r[i].timestamp >= r[j].timestamp && (r[i].timestamp == r[j].timestamp
                    ==> r[i].index < r[j].index)
        }),
{
    lemma_stamps_finite(times);
    crate::sorted::lemma_finite_in_order::<Stamped>(stamps(times));
    let r = newest_first(times);
    assert forall|i: int, j: int| 0 <= i < j < r.len() implies (#[trigger] r[i]).index != (
    #[trigger] r[j]).index && r[i].timestamp >= r[j].timestamp && (r[i].timestamp
        == r[j].timestamp ==> r[i].index < r[j].index) by {
        assert(Stamped::lt(r[i], r[j]));
        assert(r.contains(r[i]) && r.contains(r[j]));
    }
}

/// A label, beside the place of what it stands for in a list.
pub struct Labelled {
    pub label: String,
    pub index: usize,
}

impl View for Labelled {
    type V = (Seq<char>, usize);

    open spec fn view(&self) -> (Seq<char>, usize) {
        (self.label@, self.index)
    }
}

/// In the order of the labels, and for the same label the earlier place first.
impl SortKey for Labelled {
    open spec fn lt(a: (Seq<char>, usize), b: (Seq<char>, usize)) -> bool {
        text_lt(a.0, b.0) || (a.0 == b.0 && a.1 < b.1)
    }

    proof fn lt_irreflexive(a: (Seq<char>, usize)) {
        text_lt_irreflexive(a.0);
    }

    proof fn lt_transitive(a: (Seq<char>, usize), b: (Seq<char>, usize), c: (Seq<char>, usize)) {
        if text_lt(a.0, b.0) && text_lt(b.0, c.0) {
            text_lt_transitive(a.0, b.0, c.0);
        }
    }

    proof fn lt_total(a: (Seq<char>, usize), b: (Seq<char>, usize)) {
        text_lt_total(a.0, b.0);
    }

    fn rank(&self, other: &Self) -> (r: Rank) {
        match text_rank(self.label.as_str(), other.label.as_str()) {
            Rank::Same => if self.index < other.index {
                Rank::Before
            } else if self.index > other.index {
                Rank::After
            } else {
                Rank::Same
            },
            rank => rank,
        }
    }
}

/// The places of a list of labels.
pub open spec fn labelled(labels: Seq<Seq<char>>) -> Set<(Seq<char>, usize)> {
    Set::new(|k: (Seq<char>, usize)| 0 <= k.1 < labels.len() && k.0 == labels[k.1 as int])
}

/// The places of a list of labels, in the order of the labels, and the same labels in
/// the order of the list.
pub open spec fn by_label(labels: Seq<Seq<char>>) -> Seq<(Seq<char>, usize)> {
    in_order::<Labelled>(labelled(labels))
}

/// The places of a list of labels, in the order of the labels, and the same labels in
/// the order of the list.
pub fn sort_by_label(labels: &Vec<String>) -> (r: Vec<usize>)
    ensures
        r@ == by_label(texts(labels@)).map_values(|k: (Seq<char>, usize)| k.1),
        forall|i: int| 0 <= i < r@.len() ==> (#[trigger] r@[i]) < labels@.len(),
{
    let ghost all = texts(labels@);
    let mut set: SortedSet<Labelled> = SortedSet::new();
    let mut i: usize = 0;
    while i < labels.len()
        invariant
            i <= labels@.len(),
            all == texts(labels@),
            set@ == labelled(all.take(i as int)),
        decreases labels@.len() - i,
    {
        set.insert(Labelled { label: labels[i].clone(), index: i });
        i += 1;
        assert(set@ =~= labelled(all.take(i as int)));
    }
    assert(all.take(i as int) =~= all);
    let members = set.members();
    let mut out: Vec<usize> = Vec::new();
    let mut j: usize = 0;
    while j < members.len()
        invariant
            j <= members@.len(),
            out@.len() == j,
            forall|k: int| 0 <= k < j ==> #[trigger] out@[k] == members@[k].index,
        decreases members@.len() - j,
    {
        out.push(members[j].index);
        j += 1;
    }
    proof {
        let order = by_label(all);
        assert(members@.map_values(|k: &Labelled| k@) == order);
        assert forall|k: int| 0 <= k < out@.len() implies (#[trigger] out@[k]) < labels@.len()
            && out@[k] == order[k].1 by {
            assert(members@.map_values(|k: &Labelled| k@)[k] == members@[k]@);
            assert(order.contains(order[k]));
        }
        assert(out@ =~= order.map_values(|k: (Seq<char>, usize)| k.1));
    }
    out
}

proof fn lemma_labelled_finite(labels: Seq<Seq<char>>)
    requires
        labels.len() <= usize::MAX,
    ensures
        labelled(labels).finite(),
    decreases labels.len(),
{
    if labels.len() == 0 {
        assert(labelled(labels) =~= Set::empty());
    } else {
        let rest = labels.drop_last();
        let n = (labels.len() - 1) as usize;
        lemma_labelled_finite(rest);
        assert(labelled(labels) =~= labelled(rest).insert((labels.last(), n)));
    }
}

/// Putting labels in order loses none and makes none up: every place of the list occurs
/// once, with its label, and no label stands behind a greater one. The same labels stay in
/// the order of the list.
pub proof fn law_by_label_is_a_sorting(labels: Seq<Seq<char>>)
    requires
        labels.len() <= usize::MAX,
    ensures
        ({
            let r = by_label(labels);
            &&& forall|k: (Seq<char>, usize)| #[trigger]
                r.contains(k) <==> k.1 < labels.len() && k.0 == labels[k.1 as int]
            &&& forall|i: int, j: int|
                0 <= i < j < r.len() ==> text_lt((#[trigger] r[i]).0, (#[trigger] r[j]).0) || (
                r[i].0 == r[j].0 && r[i].1 < r[j].1)
        }),
{
    lemma_labelled_finite(labels);
    crate::sorted::lemma_finite_in_order::<Labelled>(labelled(labels));
    let r = by_label(labels);
    assert forall|i: int, j: int| 0 <= i < j < r.len() implies text_lt(
        (#[trigger] r[i]).0,
        (#[trigger] r[j]).0,
    ) || (r[i].0 == r[j].0 && r[i].1 < r[j].1) by {
        assert(Labelled::lt(r[i], r[j]));
    }
}

/// There is one latest place of a list that is not empty: none has a later time, and of
/// those of that time it is the last.
pub proof fn law_the_latest_is_one(times: Seq<u64>, i: int)
    ensures
        is_latest(times, i) <==> 0 <= i < times.len() && forall|j: int|
            0 <= j < times.len() && j != i ==> (#[trigger] times[j] < times[i] || (times[j]
                == times[i] && j < i)),
        times.len() > 0 ==> exists|k: int| #[trigger] is_latest(times, k),
        forall|k: int| is_latest(times, i) && #[trigger] is_latest(times, k) ==> k == i,
    decreases times.len(),
{
    if times.len() > 0 {
        let rest = times.drop_last();
        let n = times.len() - 1;
        law_the_latest_is_one(rest, i);
        if rest.len() == 0 {
            assert(is_latest(times, 0));
        } else {
            let k = choose|k: int| #[trigger] is_latest(rest, k);
            assert forall|j: int| 0 <= j < n implies #[trigger] times[j] == rest[j] by {}
            if times[k] <= times[n] {
                assert(is_latest(times, n)) by {
                    assert forall|j: int| 0 <= j < times.len() implies #[trigger] times[j]
                        <= times[n] by {
                        if j < n {
                            assert(rest[j] <= rest[k]);
                        }
                    }
                }
            } else {
                assert(is_latest(times, k)) by {
                    assert forall|j: int| 0 <= j < times.len() implies #[trigger] times[j]
                        <= times[k] by {
                        if j < n {
                            assert(rest[j] <= rest[k]);
                        }
                    }
                    assert forall|j: int| k < j < times.len() implies #[trigger] times[j]
                        < times[k] by {
                        if j < n {
                            assert(rest[j] < rest[k]);
                        }
                    }
                }
            }
        }
    }
}

/// Putting labels in order keeps their number.
pub proof fn law_by_label_has_every_label(labels: Seq<Seq<char>>)
    requires
        labels.len() <= usize::MAX,
    ensures
        by_label(labels).len() == labels.len(),
{
    let r = by_label(labels);
    let places = r.map_values(|k: (Seq<char>, usize)| k.1 as int);
    let all = Seq::new(labels.len(), |i: int| i);
    law_by_label_is_a_sorting(labels);
    assert forall|i: int, j: int| 0 <= i < j < r.len() implies places[i] != places[j] by {
        assert(r.contains(r[i]) && r.contains(r[j]));
        if places[i] == places[j] {
            assert(r[i].0 == r[j].0);
            text_lt_irreflexive(r[i].0);
        }
    }
    assert(places.no_duplicates());
    assert(all.no_duplicates());
    places.unique_seq_to_set();
    all.unique_seq_to_set();
    assert(places.to_set() =~= all.to_set()) by {
        assert forall|x: int| places.to_set().contains(x) <==> all.to_set().contains(x) by {
            if places.contains(x) {
                let i = choose|i: int| 0 <= i < places.len() && places[i] == x;
                assert(r.contains(r[i]));
                assert(all[x] == x);
            }
            if all.contains(x) {
                let k = (labels[x], x as usize);
                assert(r.contains(k));
                let i = choose|i: int| 0 <= i < r.len() && r[i] == k;
                assert(places[i] == x);
            }
        }
    }
}

} // verus!
