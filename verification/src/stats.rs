//! Figures on the releases of a repository.

use crate::ids::{Cid, Did, ReleaseId};
use crate::release::{ArtifactView, Release, ReleaseView};
use crate::resolve::listed;
use crate::seqs::{lemma_filter_empty, lemma_filter_step};
use crate::sorted::SortedSet;
use crate::text::{cat5, decimal, decimal_text, texts};
use crate::trust::{counted, counted_redactions, redactions_view};
use vstd::prelude::*;

verus! {

/// How many releases there are, by whether a delegate created them and whether they
/// still have an artifact to show.
#[derive(Clone, Copy, PartialEq, Eq, Debug, Structural)]
pub struct Counts {
    pub delegate_visible: usize,
    pub delegate_hidden: usize,
    pub other_visible: usize,
    pub other_hidden: usize,
}

/// Whether no trusted party has redacted an artifact of a release.
pub open spec fn stands(r: ReleaseView, i: int, delegates: Set<Did>) -> bool {
    let artifact = r.artifacts[i].1;
    counted(artifact.redactions, artifact.author, delegates) == Map::<Did, Seq<char>>::empty()
}

/// Whether a release has nothing to show: it has no artifact, or a trusted party has
/// redacted each.
pub open spec fn is_hidden(r: ReleaseView, delegates: Set<Did>) -> bool {
    forall|i: int| 0 <= i < r.artifacts.len() ==> !#[trigger] stands(r, i, delegates)
}

/// Whether a release is one that a delegate created, or did not, and that is hidden, or
/// is not.
pub open spec fn falls_under(
    delegates: Set<Did>,
    by_delegate: bool,
    hidden: bool,
) -> spec_fn((ReleaseId, ReleaseView)) -> bool {
    |e: (ReleaseId, ReleaseView)|
        delegates.contains(e.1.creator) == by_delegate && is_hidden(e.1, delegates) == hidden
}

/// How many releases a delegate created, or did not, that are hidden, or are not.
pub open spec fn tally(
    rs: Seq<(ReleaseId, ReleaseView)>,
    delegates: Set<Did>,
    by_delegate: bool,
    hidden: bool,
) -> nat {
    rs.filter(falls_under(delegates, by_delegate, hidden)).len()
}

/// The figures on releases.
pub open spec fn counts_of(
    rs: Seq<(ReleaseId, ReleaseView)>,
    delegates: Set<Did>,
    c: Counts,
) -> bool {
    &&& c.delegate_visible == tally(rs, delegates, true, false)
    &&& c.delegate_hidden == tally(rs, delegates, true, true)
    &&& c.other_visible == tally(rs, delegates, false, false)
    &&& c.other_hidden == tally(rs, delegates, false, true)
}

/// How two figures are shown, under a heading.
pub open spec fn figures_text(heading: Seq<char>, visible: usize, hidden: usize) -> Seq<char> {
    heading + decimal_text(visible as nat) + " visible · "@ + decimal_text(hidden as nat)
        + " hidden"@
}

fn figures(heading: &str, visible: usize, hidden: usize) -> (r: String)
    ensures
        r@ == figures_text(heading@, visible, hidden),
{
    let shown = decimal(visible as u64);
    let not_shown = decimal(hidden as u64);
    cat5(heading, shown.as_str(), " visible · ", not_shown.as_str(), " hidden")
}

impl Counts {
    /// The figures, as they are shown.
    pub fn lines(&self) -> (r: Vec<String>)
        ensures
            texts(r@) == seq![
                figures_text("by delegates  "@, self.delegate_visible, self.delegate_hidden),
                figures_text("by others     "@, self.other_visible, self.other_hidden),
            ],
    {
        let r = vec![
            figures("by delegates  ", self.delegate_visible, self.delegate_hidden),
            figures("by others     ", self.other_visible, self.other_hidden),
        ];
        assert(texts(r@) =~= seq![
            figures_text("by delegates  "@, self.delegate_visible, self.delegate_hidden),
            figures_text("by others     "@, self.other_visible, self.other_hidden),
        ]);
        r
    }
}

/// Every release is counted once.
pub proof fn law_every_release_is_counted_once(
    rs: Seq<(ReleaseId, ReleaseView)>,
    delegates: Set<Did>,
)
    ensures
        tally(rs, delegates, true, false) + tally(rs, delegates, true, true) + tally(
            rs,
            delegates,
            false,
            false,
        ) + tally(rs, delegates, false, true) == rs.len(),
    decreases rs.len(),
{
    if rs.len() == 0 {
        lemma_filter_empty(rs, falls_under(delegates, true, false));
        lemma_filter_empty(rs, falls_under(delegates, true, true));
        lemma_filter_empty(rs, falls_under(delegates, false, false));
        lemma_filter_empty(rs, falls_under(delegates, false, true));
        assert(rs.take(0) =~= rs);
    } else {
        let n = rs.len() - 1;
        law_every_release_is_counted_once(rs.take(n), delegates);
        lemma_filter_step(rs, n, falls_under(delegates, true, false));
        lemma_filter_step(rs, n, falls_under(delegates, true, true));
        lemma_filter_step(rs, n, falls_under(delegates, false, false));
        lemma_filter_step(rs, n, falls_under(delegates, false, true));
        assert(rs.take(n + 1) =~= rs);
    }
}

fn hidden(release: &Release, delegates: &SortedSet<Did>) -> (r: bool)
    ensures
        r == is_hidden(release@, delegates@),
{
    let mut i: usize = 0;
    while i < release.len()
        invariant
            i <= release@.artifacts.len(),
            forall|j: int| 0 <= j < i ==> !#[trigger] stands(release@, j, delegates@),
        decreases release@.artifacts.len() - i,
    {
        let (_, artifact) = release.at(i);
        let found = counted_redactions(artifact.redactions(), artifact.author(), delegates);
        let standing = found.is_empty();
        proof {
            assert(release@.artifacts[i as int].1 == artifact@);
            assert(redactions_view(found).dom() =~= found@.dom());
            if standing {
                assert(redactions_view(found) =~= Map::<Did, Seq<char>>::empty());
            } else if redactions_view(found) == Map::<Did, Seq<char>>::empty() {
                assert(found@ =~= Map::<Did, String>::empty());
            }
        }
        if standing {
            assert(stands(release@, i as int, delegates@));
            return false;
        }
        i += 1;
    }
    true
}

/// The figures on releases.
pub fn counts(releases: &Vec<(ReleaseId, &Release)>, delegates: &SortedSet<Did>) -> (r: Counts)
    ensures
        counts_of(listed(releases@), delegates@, r),
{
    let ghost rs = listed(releases@);
    let mut c = Counts {
        delegate_visible: 0,
        delegate_hidden: 0,
        other_visible: 0,
        other_hidden: 0,
    };
    proof {
        lemma_filter_empty(rs, falls_under(delegates@, true, false));
        lemma_filter_empty(rs, falls_under(delegates@, true, true));
        lemma_filter_empty(rs, falls_under(delegates@, false, false));
        lemma_filter_empty(rs, falls_under(delegates@, false, true));
    }
    let mut i: usize = 0;
    while i < releases.len()
        invariant
            i <= releases@.len(),
            rs == listed(releases@),
            counts_of(rs.take(i as int), delegates@, c),
        decreases releases@.len() - i,
    {
        let release = releases[i].1;
        let by_delegate = delegates.contains(release.creator());
        let none = hidden(release, delegates);
        proof {
            law_every_release_is_counted_once(rs.take(i as int), delegates@);
            lemma_filter_step(rs, i as int, falls_under(delegates@, true, false));
            lemma_filter_step(rs, i as int, falls_under(delegates@, true, true));
            lemma_filter_step(rs, i as int, falls_under(delegates@, false, false));
            lemma_filter_step(rs, i as int, falls_under(delegates@, false, true));
            assert(rs[i as int] == (releases@[i as int].0, release@));
        }
        if by_delegate {
            if none {
                c.delegate_hidden = c.delegate_hidden + 1;
            } else {
                c.delegate_visible = c.delegate_visible + 1;
            }
        } else if none {
            c.other_hidden = c.other_hidden + 1;
        } else {
            c.other_visible = c.other_visible + 1;
        }
        i += 1;
    }
    assert(rs.take(i as int) =~= rs);
    c
}

/// A release has nothing to show exactly where each of its artifacts was redacted by its
/// author or by a delegate.
pub proof fn law_hidden_is_redacted_throughout(r: ReleaseView, delegates: Set<Did>)
    ensures
        is_hidden(r, delegates) <==> forall|cid: Cid, a: ArtifactView| #[trigger]
            r.artifacts.contains((cid, a)) ==> exists|d: Did| #[trigger]
                a.redactions.contains_key(d) && (d == a.author || delegates.contains(d)),
{
    assert forall|i: int| 0 <= i < r.artifacts.len() implies (#[trigger] stands(r, i, delegates)
        <==> !exists|d: Did| #[trigger]
        r.artifacts[i].1.redactions.contains_key(d) && (d == r.artifacts[i].1.author
            || delegates.contains(d))) by {
        let a = r.artifacts[i].1;
        let c = counted(a.redactions, a.author, delegates);
        if exists|d: Did| #[trigger]
            a.redactions.contains_key(d) && (d == a.author || delegates.contains(d)) {
            let d = choose|d: Did| #[trigger]
                a.redactions.contains_key(d) && (d == a.author || delegates.contains(d));
            assert(c.contains_key(d));
        } else {
            assert(c =~= Map::<Did, Seq<char>>::empty());
        }
    }
    if is_hidden(r, delegates) {
        assert forall|cid: Cid, a: ArtifactView| #[trigger]
            r.artifacts.contains((cid, a)) implies exists|d: Did| #[trigger]
            a.redactions.contains_key(d) && (d == a.author || delegates.contains(d)) by {
            let i = choose|i: int| 0 <= i < r.artifacts.len() && r.artifacts[i] == (cid, a);
            assert(!stands(r, i, delegates));
        }
    } else {
        let i = choose|i: int|
            0 <= i < r.artifacts.len() && #[trigger] stands(r, i, delegates);
        let (cid, a) = r.artifacts[i];
        assert(r.artifacts.contains((cid, a)));
    }
}

/// One release more counts once, and where it belongs: by whether a delegate created it,
/// and by whether its author or a delegate has redacted every artifact of it.
pub proof fn law_a_release_counts_where_it_belongs(
    rs: Seq<(ReleaseId, ReleaseView)>,
    e: (ReleaseId, ReleaseView),
    delegates: Set<Did>,
    by_delegate: bool,
    hidden: bool,
)
    ensures
        tally(Seq::empty(), delegates, by_delegate, hidden) == 0,
        tally(rs.push(e), delegates, by_delegate, hidden) == tally(
            rs,
            delegates,
            by_delegate,
            hidden,
        ) + (if delegates.contains(e.1.creator) == by_delegate && hidden == (forall|
            cid: Cid,
            a: ArtifactView,
        | #[trigger]
            e.1.artifacts.contains((cid, a)) ==> exists|d: Did| #[trigger]
                a.redactions.contains_key(d) && (d == a.author || delegates.contains(d))) {
            1nat
        } else {
            0nat
        }),
{
    reveal(Seq::filter);
    law_hidden_is_redacted_throughout(e.1, delegates);
    assert(rs.push(e).drop_last() =~= rs);
}

/// The figures on releases add up to their number.
pub proof fn law_the_figures_add_up(
    rs: Seq<(ReleaseId, ReleaseView)>,
    delegates: Set<Did>,
    c: Counts,
)
    requires
        counts_of(rs, delegates, c),
    ensures
        c.delegate_visible + c.delegate_hidden + c.other_visible + c.other_hidden == rs.len(),
        c.delegate_visible == tally(rs, delegates, true, false),
        c.delegate_hidden == tally(rs, delegates, true, true),
        c.other_visible == tally(rs, delegates, false, false),
{
    law_every_release_is_counted_once(rs, delegates);
}

/// `counts` counts every release once.
pub proof fn law_counts_miss_no_release(
    releases: Vec<(ReleaseId, &Release)>,
    delegates: SortedSet<Did>,
    r: Counts,
)
    requires
        call_ensures(counts, (&releases, &delegates), r),
    ensures
        r.delegate_visible + r.delegate_hidden + r.other_visible + r.other_hidden
            == releases@.len(),
{
    law_the_figures_add_up(listed(releases@), delegates@, r);
}

/// `Counts::lines` shows the figures on the releases of delegates and then those on the
/// others, each with how many are visible and how many are hidden.
pub proof fn law_figures_are_shown_by_creator(c: Counts, r: Vec<String>)
    requires
        call_ensures(Counts::lines, (&c,), r),
    ensures
        r@.len() == 2,
        r@[0]@ == "by delegates  "@ + decimal_text(c.delegate_visible as nat) + " visible · "@
            + decimal_text(c.delegate_hidden as nat) + " hidden"@,
        r@[1]@ == "by others     "@ + decimal_text(c.other_visible as nat) + " visible · "@
            + decimal_text(c.other_hidden as nat) + " hidden"@,
{
    let t = texts(r@);
    assert(t.len() == r@.len());
    assert(t[0] == r@[0]@ && t[1] == r@[1]@);
}

} // verus!
