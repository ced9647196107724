//! Whether an artifact may be trusted, and why not where it may not.
//!
//! Trust is anchored in the delegates of the repository: releases and artifacts of
//! a delegate or of the local user count, and a redaction by the author of an
//! artifact or by a delegate withdraws it.

use crate::ids::Did;
use crate::release::{Artifact, ArtifactView, Release};
use crate::sorted::{has_key, lemma_keys_in_order, SortedMap, SortedSet};
use vstd::prelude::*;

verus! {

/// Why a release that has an artifact does not vouch for it.
pub enum Untrusted {
    /// The artifact is redacted by its author or by delegates, for these reasons.
    Redacted(SortedMap<Did, String>),
    /// This user is neither a delegate nor the local user.
    Author(Did),
}

/// What is to be known of a release and an artifact to judge them.
pub struct Candidate<'a> {
    /// Who created the release.
    pub release_creator: Did,
    /// Who registered the artifact.
    pub artifact_author: Did,
    /// Who redacted the artifact, and why.
    pub redactions: &'a SortedMap<Did, String>,
}

/// The redactions of a candidate, as text.
pub open spec fn redactions_view(m: SortedMap<Did, String>) -> Map<Did, Seq<char>> {
    m@.map_values(|s: String| s@)
}

/// The judgement on a candidate.
#[verifier::ext_equal]
pub enum Verdict {
    Trusted,
    Redacted(Map<Did, Seq<char>>),
    Author(Did),
}

/// What a result of `classify` stands for.
pub open spec fn verdict_view(r: Result<(), Untrusted>) -> Verdict {
    match r {
        Ok(()) => Verdict::Trusted,
        Err(Untrusted::Redacted(m)) => Verdict::Redacted(redactions_view(m)),
        Err(Untrusted::Author(did)) => Verdict::Author(did),
    }
}

/// Whether what `did` publishes counts.
pub open spec fn trusted(did: Did, delegates: Set<Did>, local: Did, all_authors: bool) -> bool {
    all_authors || delegates.contains(did) || did == local
}

/// The redactions that count: those by the author of the artifact and by delegates.
pub open spec fn counted(
    redactions: Map<Did, Seq<char>>,
    author: Did,
    delegates: Set<Did>,
) -> Map<Did, Seq<char>> {
    Map::new(
        |did: Did| redactions.contains_key(did) && (did == author || delegates.contains(did)),
        |did: Did| redactions[did],
    )
}

/// The judgement on an artifact of `author` in a release of `creator`. Who may
/// redact does not depend on `all_authors`.
pub open spec fn verdict(
    creator: Did,
    author: Did,
    redactions: Map<Did, Seq<char>>,
    delegates: Set<Did>,
    local: Did,
    all_authors: bool,
) -> Verdict {
    if !trusted(creator, delegates, local, all_authors) {
        Verdict::Author(creator)
    } else if counted(redactions, author, delegates) != Map::<Did, Seq<char>>::empty() {
        Verdict::Redacted(counted(redactions, author, delegates))
    } else if !trusted(author, delegates, local, all_authors) {
        Verdict::Author(author)
    } else {
        Verdict::Trusted
    }
}

impl<'a> Candidate<'a> {
    /// What is to be known of an artifact in a release.
    pub fn new(release: &Release, artifact: &'a Artifact) -> (r: Candidate<'a>)
        ensures
            r.release_creator == release@.creator,
            r.artifact_author == artifact@.author,
            redactions_view(*r.redactions) == artifact@.redactions,
    {
        Candidate {
            release_creator: *release.creator(),
            artifact_author: *artifact.author(),
            redactions: artifact.redactions(),
        }
    }
}

/// Judges a candidate. Both the release and the artifact must be of a delegate or
/// of the local user, unless `all_authors` is given, and neither the author of the
/// artifact nor a delegate may have redacted it.
pub fn classify(
    candidate: &Candidate<'_>,
    delegates: &SortedSet<Did>,
    local: &Did,
    all_authors: bool,
) -> (r: Result<(), Untrusted>)
    ensures
        verdict_view(r) == verdict(
            candidate.release_creator,
            candidate.artifact_author,
            redactions_view(*candidate.redactions),
            delegates@,
            *local,
            all_authors,
        ),
{
    if !(all_authors || delegates.contains(&candidate.release_creator)
        || candidate.release_creator == *local) {
        return Err(Untrusted::Author(candidate.release_creator));
    }
    let redactions = counted_redactions(
        candidate.redactions,
        &candidate.artifact_author,
        delegates,
    );
    if !redactions.is_empty() {
        proof {
            let k = choose|k: Did| redactions@.contains_key(k);
            if forall|k: Did| !redactions@.contains_key(k) {
                assert(redactions@ =~= Map::<Did, String>::empty());
            }
            assert(redactions_view(redactions).contains_key(k));
        }
        return Err(Untrusted::Redacted(redactions));
    }
    assert(redactions_view(redactions) =~= Map::<Did, Seq<char>>::empty());
    if !(all_authors || delegates.contains(&candidate.artifact_author)
        || candidate.artifact_author == *local) {
        return Err(Untrusted::Author(candidate.artifact_author));
    }
    Ok(())
}

/// The redactions that count.
pub fn counted_redactions(
    redactions: &SortedMap<Did, String>,
    author: &Did,
    delegates: &SortedSet<Did>,
) -> (r: SortedMap<Did, String>)
    ensures
        redactions_view(r) == counted(redactions_view(*redactions), *author, delegates@),
{
    let mut out: SortedMap<Did, String> = SortedMap::new();
    let ghost s = redactions.seq();
    proof {
        use_type_invariant(redactions);
        lemma_keys_in_order(s);
    }
    let mut i: usize = 0;
    while i < redactions.len()
        invariant
            i <= s.len(),
            s == redactions.seq(),
            forall|j: int|
                0 <= j < s.len() ==> redactions@.contains_key(#[trigger] s[j].0@)
                    && redactions@[s[j].0@] == s[j].1,
            forall|d: Did| #[trigger]
                out@.contains_key(d) <==> has_key(s.take(i as int), d) && (d == *author
                    || delegates@.contains(d)),
            forall|d: Did| #[trigger] out@.contains_key(d) ==> out@[d]@ == redactions@[d]@,
        decreases s.len() - i,
    {
        let did = *redactions.key_at(i);
        let ghost before = out@;
        proof {
            let t = s.take(i as int);
            let u = s.take(i + 1);
            assert forall|d: Did| has_key(u, d) <==> has_key(t, d) || d == did by {
                if has_key(t, d) {
                    let j = choose|j: int| 0 <= j < t.len() && #[trigger] t[j].0@ == d;
                    assert(u[j].0@ == d);
                }
                if has_key(u, d) && d != did {
                    let j = choose|j: int| 0 <= j < u.len() && #[trigger] u[j].0@ == d;
                    assert(t[j].0@ == d);
                }
                assert(u[i as int].0@ == did);
            }
            assert(s[i as int].0@ == did);
        }
        if did == *author || delegates.contains(&did) {
            out.insert(did, redactions.value_of(i).clone());
        }
        i += 1;
    }
    assert(s.take(i as int) =~= s);
    assert(redactions_view(out) =~= counted(redactions_view(*redactions), *author, delegates@));
    out
}

/// Judges an artifact of a release.
pub fn classify_artifact(
    release: &Release,
    artifact: &Artifact,
    delegates: &SortedSet<Did>,
    local: &Did,
    all_authors: bool,
) -> (r: Result<(), Untrusted>)
    ensures
        verdict_view(r) == artifact_verdict(
            release@.creator,
            artifact@,
            delegates@,
            *local,
            all_authors,
        ),
{
    classify(&Candidate::new(release, artifact), delegates, local, all_authors)
}

/// The judgement on an artifact in a release of `creator`.
pub open spec fn artifact_verdict(
    creator: Did,
    a: ArtifactView,
    delegates: Set<Did>,
    local: Did,
    all_authors: bool,
) -> Verdict {
    verdict(creator, a.author, a.redactions, delegates, local, all_authors)
}

/// A redaction by a user who is neither the author nor a delegate does not change
/// the judgement.
pub proof fn law_stranger_cannot_redact(
    creator: Did,
    author: Did,
    redactions: Map<Did, Seq<char>>,
    stranger: Did,
    reason: Seq<char>,
    delegates: Set<Did>,
    local: Did,
    all_authors: bool,
)
    requires
        stranger != author,
        !delegates.contains(stranger),
    ensures
        verdict(creator, author, redactions.insert(stranger, reason), delegates, local, all_authors)
            == verdict(creator, author, redactions, delegates, local, all_authors),
{
    assert(counted(redactions.insert(stranger, reason), author, delegates) =~= counted(
        redactions,
        author,
        delegates,
    ));
}

/// A redaction by the author or by a delegate withdraws the artifact, whoever else
/// is trusted.
pub proof fn law_trusted_redaction_withdraws(
    creator: Did,
    author: Did,
    redactions: Map<Did, Seq<char>>,
    did: Did,
    delegates: Set<Did>,
    local: Did,
    all_authors: bool,
)
    requires
        redactions.contains_key(did),
        did == author || delegates.contains(did),
    ensures
        verdict(creator, author, redactions, delegates, local, all_authors) != Verdict::Trusted,
{
    assert(counted(redactions, author, delegates).contains_key(did));
}

/// Trusting all authors opens up who may publish, and not who may redact: what was
/// trusted stays trusted, and what was withdrawn stays withdrawn.
pub proof fn law_all_authors_only_admits(
    creator: Did,
    author: Did,
    redactions: Map<Did, Seq<char>>,
    delegates: Set<Did>,
    local: Did,
)
    ensures
        verdict(creator, author, redactions, delegates, local, false) == Verdict::Trusted
            ==> verdict(creator, author, redactions, delegates, local, true) == Verdict::Trusted,
        verdict(creator, author, redactions, delegates, local, false) is Redacted ==> verdict(
            creator,
            author,
            redactions,
            delegates,
            local,
            true,
        ) == verdict(creator, author, redactions, delegates, local, false),
        !(verdict(creator, author, redactions, delegates, local, true) is Author),
{
}

/// What a delegate or the local user publishes is trusted where nobody who counts
/// has redacted it.
pub proof fn law_own_and_delegate_artifacts_are_trusted(
    creator: Did,
    author: Did,
    delegates: Set<Did>,
    local: Did,
    all_authors: bool,
)
    requires
        delegates.contains(creator) || creator == local,
        delegates.contains(author) || author == local,
    ensures
        verdict(creator, author, Map::empty(), delegates, local, all_authors) == Verdict::Trusted,
{
    assert(counted(Map::empty(), author, delegates) =~= Map::<Did, Seq<char>>::empty());
}

/// An artifact is trusted exactly where both its author and the creator of the release
/// count and nobody who may has redacted it; where it is not, the reason says why.
pub proof fn law_trust_is_anchored_in_delegates(
    creator: Did,
    author: Did,
    redactions: Map<Did, Seq<char>>,
    delegates: Set<Did>,
    local: Did,
    all_authors: bool,
)
    ensures
        ({
            let creator_counts = all_authors || delegates.contains(creator) || creator == local;
            let author_counts = all_authors || delegates.contains(author) || author == local;
            let withdrawn = exists|d: Did| #[trigger]
                redactions.contains_key(d) && (d == author || delegates.contains(d));
            match verdict(creator, author, redactions, delegates, local, all_authors) {
                Verdict::Trusted => creator_counts && author_counts && !withdrawn,
                Verdict::Redacted(m) => {
                    &&& creator_counts && withdrawn
                    &&& forall|d: Did| #[trigger]
                        m.contains_key(d) <==> redactions.contains_key(d) && (d == author
                            || delegates.contains(d))
                    &&& forall|d: Did| m.contains_key(d) ==> #[trigger] m[d] == redactions[d]
                },
                Verdict::Author(d) => if creator_counts {
                    d == author && !author_counts && !withdrawn
                } else {
                    d == creator
                },
            }
        }),
{
    let c = counted(redactions, author, delegates);
    if exists|d: Did| #[trigger]
        redactions.contains_key(d) && (d == author || delegates.contains(d)) {
        let d = choose|d: Did| #[trigger]
            redactions.contains_key(d) && (d == author || delegates.contains(d));
        assert(c.contains_key(d));
    } else {
        assert(c =~= Map::<Did, Seq<char>>::empty());
    }
    if c != Map::<Did, Seq<char>>::empty() {
        if forall|d: Did| !c.contains_key(d) {
            assert(c =~= Map::<Did, Seq<char>>::empty());
        }
        let d = choose|d: Did| c.contains_key(d);
        assert(redactions.contains_key(d));
    }
}

/// `classify_artifact` accepts an artifact exactly where the creator of the release and the
/// author of the artifact are delegates or the local user, or all authors count, and neither
/// the author nor a delegate has redacted it. Where it refuses, the redactions that it gives
/// are those that count, with their reasons, and the author that it gives is one who does not.
pub proof fn law_classify_accepts_what_is_trusted(
    release: Release,
    artifact: Artifact,
    delegates: SortedSet<Did>,
    local: Did,
    all_authors: bool,
    r: Result<(), Untrusted>,
)
    requires
        call_ensures(
            classify_artifact,
            (&release, &artifact, &delegates, &local, all_authors),
            r,
        ),
    ensures
        ({
            let creator = release@.creator;
            let author = artifact@.author;
            let creator_counts = all_authors || delegates@.contains(creator) || creator == local;
            let author_counts = all_authors || delegates@.contains(author) || author == local;
            let withdrawn = exists|d: Did| #[trigger]
                artifact@.redactions.contains_key(d) && (d == author || delegates@.contains(d));
            &&& r is Ok <==> creator_counts && author_counts && !withdrawn
            &&& r matches Err(Untrusted::Redacted(m)) ==> creator_counts && withdrawn && forall|
                d: Did,
            | #[trigger]
                m@.contains_key(d) <==> artifact@.redactions.contains_key(d) && (d == author
                    || delegates@.contains(d))
            &&& r matches Err(Untrusted::Author(d)) ==> d == (if creator_counts {
                author
            } else {
                creator
            })
        }),
{
    law_trust_is_anchored_in_delegates(
        release@.creator,
        artifact@.author,
        artifact@.redactions,
        delegates@,
        local,
        all_authors,
    );
    if let Err(Untrusted::Redacted(m)) = r {
        assert forall|d: Did| #[trigger] m@.contains_key(d) <==> redactions_view(m).contains_key(
            d,
        ) by {}
    }
}

} // verus!
