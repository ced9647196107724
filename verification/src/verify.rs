//! Verifying content: whether a release that can be trusted has it.

use crate::display::{alias_of, aliases_view, opt_text};
use crate::ids::{Cid, Did, ReleaseId, RepoId};
use crate::receipt::{VerifyFailure, VerifyMatch};
use crate::release::{ArtifactView, Release, ReleaseView};
use crate::seqs::{lemma_last_splits, lemma_push_has};
use crate::sorted::{
    in_order, lemma_finite_in_order, lemma_keys_in_order, map_of, SortedMap, SortedSet,
};
use crate::store::{
    all_read, carrying, first_fault, law_all_read_has_no_fault, law_search_finds_every_carrier,
    law_the_first_fault_is_reported, Loaded, Releases,
};
use crate::text::{cat, cat4, join, joined, texts};
use crate::trust::{
    artifact_verdict, classify, law_trust_is_anchored_in_delegates, redactions_view, verdict,
    verdict_view, Candidate, Untrusted, Verdict,
};
use vstd::prelude::*;

verus! {

/// Why content could not be verified.
pub enum Verify {
    /// Its identifier could not be computed.
    ComputeCid(String),
    /// The releases could not be read.
    Lookup {
        cid: String,
        err: String,
    },
    /// No release has it.
    NoMatch {
        cid: String,
        rid: RepoId,
    },
    /// It was withdrawn by someone who may.
    Redacted {
        cid: String,
        redactions: SortedMap<Did, String>,
    },
    /// Only someone who is not trusted registered it.
    UntrustedAuthor {
        cid: String,
        author: Did,
    },
    /// The outcome could not be written out.
    Json(String),
}

/// Redactions, a line for each, by user.
pub open spec fn redaction_lines(m: Map<Did, Seq<char>>) -> Seq<Seq<char>> {
    in_order::<Did>(m.dom()).map_values(|did: Did| "  "@ + did.text() + ": "@ + m[did])
}

/// Redactions, a line for each, by user.
pub fn display_redactions(redactions: &SortedMap<Did, String>) -> (r: String)
    ensures
        r@ == joined(redaction_lines(redactions_view(*redactions)), "\n"@),
{
    let ghost m = redactions_view(*redactions);
    let ghost s = redactions.seq();
    let ghost all = in_order::<Did>(m.dom());
    proof {
        use_type_invariant(redactions);
        lemma_keys_in_order(s);
        assert(m.dom() =~= map_of(s).dom());
    }
    let mut lines: Vec<String> = Vec::new();
    let mut i: usize = 0;
    while i < redactions.len()
        invariant
            i <= s.len(),
            s == redactions.seq(),
            all == s.map_values(|e: (Did, String)| e.0@),
            m == redactions@.map_values(|s: String| s@),
            forall|j: int|
                0 <= j < s.len() ==> redactions@.contains_key(#[trigger] s[j].0@)
                    && redactions@[s[j].0@] == s[j].1,
            lines@.len() == i,
            forall|k: int|
                0 <= k < i ==> (#[trigger] lines@[k])@ == "  "@ + all[k].text() + ": "@ + m[all[k]],
        decreases s.len() - i,
    {
        let did = *redactions.key_at(i);
        let shown = did.encode();
        assert(s[i as int].0@ == did);
        assert(all[i as int] == did);
        lines.push(cat4("  ", shown.as_str(), ": ", redactions.value_of(i).as_str()));
        i += 1;
    }
    assert(texts(lines@) =~= redaction_lines(m));
    join(&lines, "\n")
}

impl Verify {
    /// The error as text.
    pub open spec fn text(self) -> Seq<char> {
        match self {
            Verify::ComputeCid(e) => e@,
            Verify::Lookup { cid, .. } => "failed to look up CID "@ + cid@,
            Verify::NoMatch { cid, rid } => "no artifact with CID "@ + cid@
                + " is registered in any release of "@ + rid.text(),
            Verify::Redacted { cid, redactions } => "artifact "@ + cid@
                + " has been redacted by a trusted party:\n"@ + joined(
                redaction_lines(redactions_view(redactions)),
                "\n"@,
            ),
            Verify::UntrustedAuthor { cid, author } => "artifact "@ + cid@
                + " is only registered by "@ + author.text()
                + ", who is not a repository delegate\n  hint: pass --all-authors to accept it anyway"@,
            Verify::Json(_) => "failed to serialize verify output to JSON"@,
        }
    }

    /// The error as text.
    pub fn message(&self) -> (r: String)
        ensures
            r@ == self.text(),
    {
        match self {
            Verify::ComputeCid(e) => e.as_str().to_owned(),
            Verify::Lookup { cid, .. } => cat("failed to look up CID ", cid.as_str()),
            Verify::NoMatch { cid, rid } => {
                let shown = rid.to_text();
                cat4(
                    "no artifact with CID ",
                    cid.as_str(),
                    " is registered in any release of ",
                    shown.as_str(),
                )
            },
            Verify::Redacted { cid, redactions } => {
                let lines = display_redactions(redactions);
                cat4(
                    "artifact ",
                    cid.as_str(),
                    " has been redacted by a trusted party:\n",
                    lines.as_str(),
                )
            },
            Verify::UntrustedAuthor { cid, author } => {
                let shown = author.encode();
                let head = cat4(
                    "artifact ",
                    cid.as_str(),
                    " is only registered by ",
                    shown.as_str(),
                );
                cat(
                    head.as_str(),
                    ", who is not a repository delegate\n  hint: pass --all-authors to accept it anyway",
                )
            },
            Verify::Json(_) => "failed to serialize verify output to JSON".to_owned(),
        }
    }

    /// Whether the question was answered, and the answer is no.
    pub open spec fn is_verdict(self) -> bool {
        self is NoMatch || self is Redacted || self is UntrustedAuthor
    }

    /// The exit code: who acts on the outcome has to tell "not to be trusted" from "could
    /// not be told".
    pub fn exit_code(&self) -> (r: i32)
        ensures
            r == (if self.is_verdict() {
                2i32
            } else {
                1i32
            }),
    {
        match self {
            Verify::NoMatch { .. } => 2,
            Verify::Redacted { .. } => 2,
            Verify::UntrustedAuthor { .. } => 2,
            Verify::ComputeCid(_) => 1,
            Verify::Lookup { .. } => 1,
            Verify::Json(_) => 1,
        }
    }
}

/// Whether the reason in place `i` is the first redaction.
pub open spec fn first_redaction(s: Seq<Untrusted>, i: int) -> bool {
    &&& 0 <= i < s.len()
    &&& s[i] is Redacted
    &&& forall|j: int| 0 <= j < i ==> (#[trigger] s[j]) is Author
}

/// A copy of redactions.
fn copy_redactions(m: &SortedMap<Did, String>) -> (r: SortedMap<Did, String>)
    ensures
        redactions_view(r) == redactions_view(*m),
{
    let mut out: SortedMap<Did, String> = SortedMap::new();
    let ghost s = m.seq();
    proof {
        use_type_invariant(m);
        lemma_keys_in_order(s);
    }
    let mut i: usize = 0;
    while i < m.len()
        invariant
            i <= s.len(),
            s == m.seq(),
            forall|j: int|
                0 <= j < s.len() ==> m@.contains_key(#[trigger] s[j].0@) && m@[s[j].0@] == s[j].1,
            forall|d: Did|
                #![auto]
                out@.contains_key(d) <==> exists|j: int|
                    #![trigger s[j]]
                    0 <= j < i && s[j].0@ == d,
            forall|d: Did| #[trigger]
                out@.contains_key(d) ==> m@.contains_key(d) && out@[d]@ == m@[d]@,
        decreases s.len() - i,
    {
        let did = *m.key_at(i);
        let ghost before = out@;
        assert(s[i as int].0@ == did);
        out.insert(did, m.value_of(i).as_str().to_owned());
        proof {
            assert forall|d: Did|
                #![auto]
                out@.contains_key(d) <==> exists|j: int|
                    #![trigger s[j]]
                    0 <= j < i + 1 && s[j].0@ == d by {
                if out@.contains_key(d) {
                    if d == did {
                        assert(s[i as int].0@ == d);
                    } else {
                        assert(before.contains_key(d));
                    }
                }
            }
        }
        i += 1;
    }
    proof {
        assert forall|d: Did| m@.contains_key(d) implies #[trigger] out@.contains_key(d) by {
            assert(map_of(s).contains_key(d));
            let j = choose|j: int| 0 <= j < s.len() && #[trigger] s[j].0@ == d;
            assert(s[j].0@ == d);
        }
        assert(redactions_view(out) =~= redactions_view(*m));
    }
    out
}

/// Which failure to report where no candidate can be trusted: a redaction comes before an
/// author who is not trusted, and that before no candidate at all.
pub fn rejection(untrusted: &Vec<Untrusted>, cid: &Cid, rid: RepoId) -> (r: Verify)
    ensures
        r.is_verdict(),
        match r {
            Verify::Redacted { cid: c, redactions } => c@ == cid.text() && exists|i: int|
                #[trigger] first_redaction(untrusted@, i) && redactions_view(redactions)
                    == redactions_view(untrusted@[i]->Redacted_0),
            Verify::UntrustedAuthor { cid: c, author } => {
                &&& c@ == cid.text()
                &&& untrusted@.len() > 0
                &&& forall|i: int| 0 <= i < untrusted@.len() ==> (#[trigger] untrusted@[i]) is Author
                &&& untrusted@[0]->Author_0 == author
            },
            Verify::NoMatch { cid: c, rid: repo } => c@ == cid.text() && repo == rid
                && untrusted@.len() == 0,
            _ => false,
        },
{
    let mut i: usize = 0;
    while i < untrusted.len()
        invariant
            i <= untrusted@.len(),
            forall|j: int| 0 <= j < i ==> (#[trigger] untrusted@[j]) is Author,
        decreases untrusted@.len() - i,
    {
        match &untrusted[i] {
            Untrusted::Redacted(redactions) => {
                assert(first_redaction(untrusted@, i as int));
                return Verify::Redacted {
                    cid: cid.to_text(),
                    redactions: copy_redactions(redactions),
                };
            },
            Untrusted::Author(_) => {},
        }
        i += 1;
    }
    if untrusted.len() > 0 {
        match &untrusted[0] {
            Untrusted::Author(author) => {
                return Verify::UntrustedAuthor { cid: cid.to_text(), author: *author };
            },
            Untrusted::Redacted(_) => {
                assert(false);
            },
        }
    }
    Verify::NoMatch { cid: cid.to_text(), rid }
}

/// What a failure is called.
pub open spec fn reason_of(e: Verify) -> Seq<char> {
    match e {
        Verify::NoMatch { .. } => "noMatch"@,
        Verify::Redacted { .. } => "redacted"@,
        _ => "untrustedAuthor"@,
    }
}

/// A failure as data: there is some where the question was answered, and none where it
/// could not be.
pub fn verify_failure(cid: Cid, err: &Verify) -> (r: Option<VerifyFailure>)
    ensures
        match r {
            Some(f) => {
                &&& err.is_verdict()
                &&& f.cid == cid
                &&& !f.verified
                &&& f.reason@ == reason_of(*err)
                &&& f.message@ == err.text()
                &&& redactions_view(f.redactions) == (match *err {
                    Verify::Redacted { redactions, .. } => redactions_view(redactions),
                    _ => Map::empty(),
                })
            },
            None => !err.is_verdict(),
        },
{
    let mut redactions: SortedMap<Did, String> = SortedMap::new();
    assert(redactions_view(redactions) =~= Map::<Did, Seq<char>>::empty());
    let reason = match err {
        Verify::NoMatch { .. } => "noMatch".to_owned(),
        Verify::Redacted { redactions: m, .. } => {
            redactions = copy_redactions(m);
            "redacted".to_owned()
        },
        Verify::UntrustedAuthor { .. } => "untrustedAuthor".to_owned(),
        _ => {
            return None;
        },
    };
    Some(VerifyFailure::new(cid, reason, err.message(), redactions))
}

/// The judgement on the artifact `cid` of a release.
pub open spec fn judged(
    r: ReleaseView,
    cid: Cid,
    delegates: Set<Did>,
    local: Did,
    all_authors: bool,
) -> Verdict {
    artifact_verdict(r.creator, r.get(cid), delegates, local, all_authors)
}

/// The releases that vouch for the artifact `cid`.
pub open spec fn vouching(
    s: Seq<(ReleaseId, Release)>,
    cid: Cid,
    delegates: Set<Did>,
    local: Did,
    all_authors: bool,
) -> Seq<(ReleaseId, Release)>
    decreases s.len(),
{
    if s.len() == 0 {
        Seq::empty()
    } else {
        let rest = vouching(s.drop_last(), cid, delegates, local, all_authors);
        if judged(s.last().1@, cid, delegates, local, all_authors) == Verdict::Trusted {
            rest.push(s.last())
        } else {
            rest
        }
    }
}

/// The judgements on the releases that do not vouch for the artifact `cid`.
pub open spec fn doubts(
    s: Seq<(ReleaseId, Release)>,
    cid: Cid,
    delegates: Set<Did>,
    local: Did,
    all_authors: bool,
) -> Seq<Verdict>
    decreases s.len(),
{
    if s.len() == 0 {
        Seq::empty()
    } else {
        let rest = doubts(s.drop_last(), cid, delegates, local, all_authors);
        let verdict = judged(s.last().1@, cid, delegates, local, all_authors);
        if verdict == Verdict::Trusted {
            rest
        } else {
            rest.push(verdict)
        }
    }
}

/// What is known of content: the releases that vouch for it, and the reasons of those
/// that do not.
pub struct Findings<'a> {
    pub trusted: Vec<(ReleaseId, &'a Release)>,
    pub untrusted: Vec<Untrusted>,
}

/// What a list of reasons stands for.
pub open spec fn reasons(s: Seq<Untrusted>) -> Seq<Verdict> {
    s.map_values(|u: Untrusted| verdict_view(Err(u)))
}

/// Judges every release that has the artifact `cid`: content is often in more than one.
pub fn judge<'a>(
    releases: &'a Releases,
    cid: &Cid,
    delegates: &SortedSet<Did>,
    local: &Did,
    all_authors: bool,
) -> (r: Result<Findings<'a>, Verify>)
    ensures
        ({
            let found = carrying(releases.items@, *cid);
            match r {
                Ok(f) => {
                    &&& all_read(releases.items@)
                    &&& f.trusted@.map_values(|e: (ReleaseId, &'a Release)| (e.0, *e.1))
                        == vouching(found, *cid, delegates@, *local, all_authors)
                    &&& reasons(f.untrusted@) == doubts(
                        found,
                        *cid,
                        delegates@,
                        *local,
                        all_authors,
                    )
                },
                Err(Verify::Lookup { cid: c, err }) => c@ == cid.text() && first_fault(
                    releases.items@,
                    err,
                ),
                Err(_) => false,
            }
        }),
{
    let found = match releases.find_by_cid(cid) {
        Ok(found) => found,
        Err(e) => {
            return Err(Verify::Lookup { cid: cid.to_text(), err: e.clone() });
        },
    };
    let ghost all = carrying(releases.items@, *cid);
    let mut trusted: Vec<(ReleaseId, &'a Release)> = Vec::new();
    let mut untrusted: Vec<Untrusted> = Vec::new();
    assert(trusted@.map_values(|e: (ReleaseId, &'a Release)| (e.0, *e.1)) =~= Seq::<
        (ReleaseId, Release),
    >::empty());
    assert(reasons(untrusted@) =~= Seq::<Verdict>::empty());
    let mut i: usize = 0;
    while i < found.len()
        invariant
            i <= found@.len(),
            all_read(releases.items@),
            all == carrying(releases.items@, *cid),
            found@.map_values(|e: (ReleaseId, &'a Release)| (e.0, *e.1)) == all,
            trusted@.map_values(|e: (ReleaseId, &'a Release)| (e.0, *e.1)) == vouching(
                all.take(i as int),
                *cid,
                delegates@,
                *local,
                all_authors,
            ),
            reasons(untrusted@) == doubts(
                all.take(i as int),
                *cid,
                delegates@,
                *local,
                all_authors,
            ),
        decreases found@.len() - i,
    {
        let (id, release) = found[i];
        proof {
            assert(found@.map_values(|e: (ReleaseId, &'a Release)| (e.0, *e.1))[i as int]
                == all[i as int]);
            assert(all.take(i + 1).drop_last() =~= all.take(i as int));
            lemma_carrying(releases.items@, *cid, i as int);
        }
        match release.artifact(cid) {
            None => {
                assert(false);
            },
            Some(artifact) => {
                let ghost before = trusted@;
                let ghost doubted = untrusted@;
                match classify(&Candidate::new(release, artifact), delegates, local, all_authors) {
                    Ok(()) => {
                        trusted.push((id, release));
                        assert(trusted@.map_values(|e: (ReleaseId, &'a Release)| (e.0, *e.1))
                            =~= before.map_values(
                            |e: (ReleaseId, &'a Release)| (e.0, *e.1),
                        ).push((id, *release)));
                    },
                    Err(reason) => {
                        untrusted.push(reason);
                        assert(reasons(untrusted@) =~= reasons(doubted).push(
                            verdict_view(Err(reason)),
                        ));
                    },
                }
            },
        }
        i += 1;
    }
    proof {
        assert(found@.map_values(|e: (ReleaseId, &'a Release)| (e.0, *e.1)).len() == found@.len());
        assert(all.take(i as int) =~= all);
    }
    Ok(Findings { trusted, untrusted })
}

/// What was found to have an artifact has it.
proof fn lemma_carrying(items: Seq<crate::store::Loaded>, cid: Cid, i: int)
    requires
        0 <= i < carrying(items, cid).len(),
    ensures
        carrying(items, cid)[i].1@.has(cid),
    decreases items.len(),
{
    let rest = carrying(items.drop_last(), cid);
    if i < rest.len() {
        lemma_carrying(items.drop_last(), cid, i);
    }
}

/// Content is verified where a release vouches for it, and only there.
pub proof fn law_verified_content_is_trusted(
    s: Seq<(ReleaseId, Release)>,
    cid: Cid,
    delegates: Set<Did>,
    local: Did,
    all_authors: bool,
)
    ensures
        vouching(s, cid, delegates, local, all_authors).len() > 0 <==> exists|i: int|
            0 <= i < s.len() && judged((#[trigger] s[i]).1@, cid, delegates, local, all_authors)
                == Verdict::Trusted,
    decreases s.len(),
{
    if s.len() > 0 {
        let rest = s.drop_last();
        law_verified_content_is_trusted(rest, cid, delegates, local, all_authors);
        if judged(s.last().1@, cid, delegates, local, all_authors) == Verdict::Trusted {
            assert(s[s.len() - 1] == s.last());
        } else if vouching(s, cid, delegates, local, all_authors).len() > 0 {
            let i = choose|i: int|
                0 <= i < rest.len() && judged(
                    (#[trigger] rest[i]).1@,
                    cid,
                    delegates,
                    local,
                    all_authors,
                ) == Verdict::Trusted;
            assert(s[i] == rest[i]);
        }
        if exists|i: int|
            0 <= i < s.len() && judged((#[trigger] s[i]).1@, cid, delegates, local, all_authors)
                == Verdict::Trusted {
            let i = choose|i: int|
                0 <= i < s.len() && judged(
                    (#[trigger] s[i]).1@,
                    cid,
                    delegates,
                    local,
                    all_authors,
                ) == Verdict::Trusted;
            if i < rest.len() {
                assert(rest[i] == s[i]);
            }
        }
    }
}

/// Whether a match is that of a release.
pub open spec fn match_of(
    m: VerifyMatch,
    id: ReleaseId,
    r: ReleaseView,
    cid: Cid,
    aliases: Map<Did, Seq<char>>,
    tag_name: Option<String>,
    delegates: Set<Did>,
) -> bool {
    let a = r.get(cid);
    &&& m.release_id == id
    &&& m.oid == r.oid
    &&& m.tag_name == (if r.tag is Some {
        tag_name
    } else {
        None
    })
    &&& m.name@ == a.name
    &&& m.author == a.author
    &&& opt_text(m.author_alias) == alias_of(a.author, aliases)
    &&& m.delegate == delegates.contains(a.author)
    &&& m.attestations@ == in_order::<Did>(a.attestations)
}

/// The match of a release that vouches for the artifact `cid`. `tag_name` is the name of
/// its tag, where the repository has it.
pub fn verified_match(
    id: ReleaseId,
    release: &Release,
    cid: &Cid,
    aliases: &SortedMap<Did, String>,
    tag_name: Option<String>,
    delegates: &SortedSet<Did>,
) -> (r: Option<VerifyMatch>)
    ensures
        match r {
            Some(m) => release@.has(*cid) && match_of(
                m,
                id,
                release@,
                *cid,
                aliases_view(*aliases),
                tag_name,
                delegates@,
            ),
            None => !release@.has(*cid),
        },
{
    match release.artifact(cid) {
        Some(artifact) => {
            let delegate = delegates.contains(artifact.author());
            Some(VerifyMatch::new(id, release, artifact, aliases, tag_name, delegate))
        },
        None => None,
    }
}

/// A release vouches for content exactly where it has the artifact, its creator and the
/// author of the artifact are delegates or the local user, or all authors count, and
/// neither the author nor a delegate has redacted the artifact there. Every release that
/// does is found.
pub proof fn law_every_trusted_release_vouches(
    items: Seq<Loaded>,
    cid: Cid,
    delegates: Set<Did>,
    local: Did,
    all_authors: bool,
    id: ReleaseId,
    release: Release,
)
    requires
        release@.distinct(),
    ensures
        vouching(carrying(items, cid), cid, delegates, local, all_authors).contains((id, release))
            <==> items.contains(Ok((id, release))) && exists|a: ArtifactView|
            {
                let creator = release@.creator;
                &&& #[trigger] release@.artifacts.contains((cid, a))
                &&& all_authors || delegates.contains(creator) || creator == local
                &&& all_authors || delegates.contains(a.author) || a.author == local
                &&& forall|d: Did| #[trigger]
                    a.redactions.contains_key(d) ==> d != a.author && !delegates.contains(d)
            },
{
    let found = carrying(items, cid);
    law_search_finds_every_carrier(items, cid);
    lemma_vouching(found, cid, delegates, local, all_authors, (id, release));
    release@.lemma_holds(cid);
    let a = release@.get(cid);
    law_trust_is_anchored_in_delegates(
        release@.creator,
        a.author,
        a.redactions,
        delegates,
        local,
        all_authors,
    );
    let l = Ok::<(ReleaseId, Release), String>((id, release));
    if items.contains(l) {
        assert(found.contains((id, release)) <==> release@.has(cid));
    } else {
        assert(!found.contains((id, release)));
    }
}

proof fn lemma_vouching(
    s: Seq<(ReleaseId, Release)>,
    cid: Cid,
    delegates: Set<Did>,
    local: Did,
    all_authors: bool,
    e: (ReleaseId, Release),
)
    ensures
        vouching(s, cid, delegates, local, all_authors).contains(e) <==> s.contains(e) && judged(
            e.1@,
            cid,
            delegates,
            local,
            all_authors,
        ) == Verdict::Trusted,
    decreases s.len(),
{
    if s.len() > 0 {
        let rest = vouching(s.drop_last(), cid, delegates, local, all_authors);
        lemma_vouching(s.drop_last(), cid, delegates, local, all_authors, e);
        lemma_last_splits(s);
        lemma_push_has(rest, s.last(), e);
    }
}

/// Every release that has the artifact either vouches for it or is among the doubts, and a
/// doubt is the judgement on some release that has the artifact and is not trusted.
pub proof fn law_every_release_vouches_or_doubts(
    s: Seq<(ReleaseId, Release)>,
    cid: Cid,
    delegates: Set<Did>,
    local: Did,
    all_authors: bool,
    v: Verdict,
)
    ensures
        vouching(s, cid, delegates, local, all_authors).len() + doubts(
            s,
            cid,
            delegates,
            local,
            all_authors,
        ).len() == s.len(),
        doubts(s, cid, delegates, local, all_authors).contains(v) <==> v != Verdict::Trusted
            && exists|id: ReleaseId, release: Release| #[trigger]
            s.contains((id, release)) && v == verdict(
                release@.creator,
                release@.get(cid).author,
                release@.get(cid).redactions,
                delegates,
                local,
                all_authors,
            ),
    decreases s.len(),
{
    if s.len() > 0 {
        law_every_release_vouches_or_doubts(
            s.drop_last(),
            cid,
            delegates,
            local,
            all_authors,
            v,
        );
        lemma_last_splits(s);
        let (id, release) = s.last();
        assert(s.contains((id, release)));
        lemma_push_has(
            doubts(s.drop_last(), cid, delegates, local, all_authors),
            judged(release@, cid, delegates, local, all_authors),
            v,
        );
    }
}

/// An answer that content is not to be trusted has an exit code and a reason of its own:
/// exactly the three answers count as one, and no two have the same reason.
pub proof fn law_every_answer_has_its_reason(e: Verify)
    ensures
        match e {
            Verify::NoMatch { .. } => e.is_verdict() && reason_of(e) == "noMatch"@,
            Verify::Redacted { .. } => e.is_verdict() && reason_of(e) == "redacted"@,
            Verify::UntrustedAuthor { .. } => e.is_verdict() && reason_of(e)
                == "untrustedAuthor"@,
            Verify::ComputeCid(_) | Verify::Lookup { .. } | Verify::Json(_) => !e.is_verdict(),
        },
{
}

/// A match states what the release has: its commit and the name of its tag, and of the
/// artifact its name, its author, whether that is a delegate, and everyone who attests to
/// it.
pub proof fn law_a_match_states_what_the_release_has(
    m: VerifyMatch,
    id: ReleaseId,
    r: ReleaseView,
    cid: Cid,
    aliases: Map<Did, Seq<char>>,
    tag_name: Option<String>,
    delegates: Set<Did>,
    did: Did,
)
    requires
        match_of(m, id, r, cid, aliases, tag_name, delegates),
        r.get(cid).attestations.finite(),
    ensures
        m.release_id == id && m.oid == r.oid,
        m.name@ == r.get(cid).name && m.author == r.get(cid).author,
        m.delegate <==> delegates.contains(r.get(cid).author),
        m.attestations@.contains(did) <==> r.get(cid).attestations.contains(did),
        r.tag is None ==> m.tag_name is None,
        r.tag is Some ==> m.tag_name == tag_name,
        m.author_alias is Some <==> aliases.contains_key(m.author),
{
    lemma_finite_in_order::<Did>(r.get(cid).attestations);
    assert(in_order::<Did>(r.get(cid).attestations).contains(did) <==> r.get(
        cid,
    ).attestations.contains(did));
}

/// The releases that vouch among two lists, one behind the other, are those of the first and
/// then those of the second.
pub proof fn law_releases_are_judged_one_by_one(
    first: Seq<(ReleaseId, Release)>,
    second: Seq<(ReleaseId, Release)>,
    cid: Cid,
    delegates: Set<Did>,
    local: Did,
    all_authors: bool,
)
    ensures
        vouching(first + second, cid, delegates, local, all_authors)
            == vouching(first, cid, delegates, local, all_authors)
            + vouching(second, cid, delegates, local, all_authors),
    decreases second.len(),
{
    let one = vouching(first, cid, delegates, local, all_authors);
    let two = vouching(second, cid, delegates, local, all_authors);
    if second.len() == 0 {
        assert(first + second =~= first);
        assert(one + two =~= one);
    } else {
        law_releases_are_judged_one_by_one(
            first,
            second.drop_last(),
            cid,
            delegates,
            local,
            all_authors,
        );
        assert((first + second).drop_last() =~= first + second.drop_last());
        assert((first + second).last() == second.last());
        assert(vouching(first + second, cid, delegates, local, all_authors) =~= one + two);
    }
}

/// The doubts about two lists of releases, one behind the other, are those about the first
/// and then those about the second.
pub proof fn law_doubts_come_release_by_release(
    first: Seq<(ReleaseId, Release)>,
    second: Seq<(ReleaseId, Release)>,
    cid: Cid,
    delegates: Set<Did>,
    local: Did,
    all_authors: bool,
)
    ensures
        doubts(first + second, cid, delegates, local, all_authors)
            == doubts(first, cid, delegates, local, all_authors)
            + doubts(second, cid, delegates, local, all_authors),
    decreases second.len(),
{
    let one = doubts(first, cid, delegates, local, all_authors);
    let two = doubts(second, cid, delegates, local, all_authors);
    if second.len() == 0 {
        assert(first + second =~= first);
        assert(one + two =~= one);
    } else {
        law_doubts_come_release_by_release(
            first,
            second.drop_last(),
            cid,
            delegates,
            local,
            all_authors,
        );
        assert((first + second).drop_last() =~= first + second.drop_last());
        assert((first + second).last() == second.last());
        assert(doubts(first + second, cid, delegates, local, all_authors) =~= one + two);
    }
}

/// `judge` finds every release that vouches for content and no other: those that have the
/// artifact, where the creator of the release and the author of the artifact are delegates
/// or the local user, or all authors count, and neither the author nor a delegate has
/// redacted it there. It fails exactly where a release could not be read.
pub proof fn law_judge_finds_every_trusted_release(
    releases: Releases,
    cid: Cid,
    delegates: SortedSet<Did>,
    local: Did,
    all_authors: bool,
    r: Result<Findings<'_>, Verify>,
    id: ReleaseId,
    release: Release,
)
    requires
        call_ensures(judge, (&releases, &cid, &delegates, &local, all_authors), r),
        release@.distinct(),
    ensures
        r is Ok <==> forall|e: String| !#[trigger] releases.items@.contains(Err(e)),
        r matches Ok(f) ==> ((exists|k: int|
            0 <= k < f.trusted@.len() && (#[trigger] f.trusted@[k]).0 == id && *f.trusted@[k].1
                == release) <==> releases.items@.contains(Ok((id, release))) && exists|
            a: ArtifactView,
        |
            {
                let creator = release@.creator;
                &&& #[trigger] release@.artifacts.contains((cid, a))
                &&& all_authors || delegates@.contains(creator) || creator == local
                &&& all_authors || delegates@.contains(a.author) || a.author == local
                &&& forall|d: Did| #[trigger]
                    a.redactions.contains_key(d) ==> d != a.author && !delegates@.contains(d)
            }),
{
    let items = releases.items@;
    match r {
        Ok(f) => {
            law_all_read_has_no_fault(items);
            law_every_trusted_release_vouches(
                items,
                cid,
                delegates@,
                local,
                all_authors,
                id,
                release,
            );
            let t = f.trusted@.map_values(|e: (ReleaseId, &Release)| (e.0, *e.1));
            if t.contains((id, release)) {
                let k = choose|k: int| 0 <= k < t.len() && t[k] == (id, release);
                assert(f.trusted@[k].0 == id);
            }
            if exists|k: int|
                0 <= k < f.trusted@.len() && (#[trigger] f.trusted@[k]).0 == id && *f.trusted@[k].1
                    == release {
                let k = choose|k: int|
                    0 <= k < f.trusted@.len() && (#[trigger] f.trusted@[k]).0 == id
                        && *f.trusted@[k].1 == release;
                assert(t[k] == (id, release));
            }
        },
        Err(e) => {
            let err = e->err;
            law_the_first_fault_is_reported(items, err);
            let i = choose|i: int|
                {
                    &&& 0 <= i < items.len()
                    &&& #[trigger] items[i] == Err::<(ReleaseId, Release), String>(err)
                    &&& forall|j: int| 0 <= j < i ==> (#[trigger] items[j]) is Ok
                };
            assert(items.contains(Err(err)));
        },
    }
}

/// `rejection` reports a redaction before an author who is not trusted, and that before
/// finding nothing at all.
pub proof fn law_a_redaction_is_reported_first(
    untrusted: Vec<Untrusted>,
    cid: Cid,
    rid: RepoId,
    r: Verify,
)
    requires
        call_ensures(rejection, (&untrusted, &cid, rid), r),
    ensures
        r is Redacted <==> exists|i: int|
            0 <= i < untrusted@.len() && (#[trigger] untrusted@[i]) is Redacted,
        r is NoMatch <==> untrusted@.len() == 0,
        r is Redacted || r is NoMatch || r is UntrustedAuthor,
{
    match r {
        Verify::Redacted { cid: c, redactions } => {
            let i = choose|i: int|
                #[trigger] first_redaction(untrusted@, i) && redactions_view(redactions)
                    == redactions_view(untrusted@[i]->Redacted_0);
            assert(untrusted@[i] is Redacted);
        },
        Verify::UntrustedAuthor { .. } => {
            assert(untrusted@[0] is Author);
        },
        _ => {},
    }
}

} // verus!
