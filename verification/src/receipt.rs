//! What commands report when they are done.

use crate::display::{alias_of, aliases_view, opt_text, resolve, Style};
use crate::ids::{Cid, Did, Oid, ReleaseId};
use crate::json::Json;
use crate::pretty::{label, label_text};
use crate::release::{Artifact, Release};
use crate::seqs::lemma_add_has;
use crate::sorted::{in_order, SortedMap};
use crate::text::{cat3, cat4, decimal, decimal_text, lines_to_text, texts, unlines};
use crate::watch::METADATA_KEY_SIZE_BYTES;
use vstd::prelude::*;

verus! {

/// The release that was created, or found to exist.
pub struct CreateReceipt {
    pub release_id: ReleaseId,
    pub oid: Oid,
}

impl CreateReceipt {
    /// The receipt for a release.
    pub fn new(release_id: ReleaseId, oid: Oid) -> (r: CreateReceipt)
        ensures
            r == (CreateReceipt { release_id, oid }),
    {
        CreateReceipt { release_id, oid }
    }
}

/// The artifact that was registered.
pub struct RegisterReceipt {
    pub cid: Cid,
    pub name: String,
    pub release_id: ReleaseId,
    pub oid: Oid,
    /// What was recorded with the artifact: its size, if that was known.
    pub metadata: SortedMap<String, Json>,
}

impl RegisterReceipt {
    /// The receipt for an artifact whose size is recorded where it is known.
    pub fn new(
        cid: Cid,
        name: String,
        release_id: ReleaseId,
        oid: Oid,
        size: Option<u64>,
    ) -> (r: RegisterReceipt)
        ensures
            r.cid == cid,
            r.name == name,
            r.release_id == release_id,
            r.oid == oid,
            r.metadata@.map_values(|v: Json| v@) == (match size {
                Some(n) => Map::<Seq<char>, Seq<char>>::empty().insert(
                    METADATA_KEY_SIZE_BYTES@,
                    decimal_text(n as nat),
                ),
                None => Map::<Seq<char>, Seq<char>>::empty(),
            }),
    {
        let mut metadata: SortedMap<String, Json> = SortedMap::new();
        match size {
            Some(n) => {
                metadata.insert(METADATA_KEY_SIZE_BYTES.to_owned(), Json::number(n));
                assert(metadata@.map_values(|v: Json| v@) =~= Map::<
                    Seq<char>,
                    Seq<char>,
                >::empty().insert(METADATA_KEY_SIZE_BYTES@, decimal_text(n as nat)));
            },
            None => {
                assert(metadata@.map_values(|v: Json| v@) =~= Map::<
                    Seq<char>,
                    Seq<char>,
                >::empty());
            },
        }
        RegisterReceipt { cid, name, release_id, oid, metadata }
    }
}

/// A release that has the content that was verified.
pub struct VerifyMatch {
    pub release_id: ReleaseId,
    pub oid: Oid,
    /// The name of the tag, where the release has one and the repository has it.
    pub tag_name: Option<String>,
    pub name: String,
    pub author: Did,
    pub author_alias: Option<String>,
    /// Whether the author is a delegate.
    pub delegate: bool,
    /// Who attests to the artifact.
    pub attestations: Vec<Did>,
}

impl VerifyMatch {
    /// The match of an artifact in a release. `tag_name` is the name of the tag of the
    /// release, where the repository has it.
    pub fn new(
        release_id: ReleaseId,
        release: &Release,
        artifact: &Artifact,
        aliases: &SortedMap<Did, String>,
        tag_name: Option<String>,
        delegate: bool,
    ) -> (r: VerifyMatch)
        ensures
            r.release_id == release_id,
            r.oid == release@.oid,
            r.tag_name == (if release@.tag is Some {
                tag_name
            } else {
                None
            }),
            r.name@ == artifact@.name,
            r.author == artifact@.author,
            opt_text(r.author_alias) == alias_of(artifact@.author, aliases_view(*aliases)),
            r.delegate == delegate,
            r.attestations@ == in_order::<Did>(artifact@.attestations),
    {
        let members = artifact.attestations().members();
        let ghost all = in_order::<Did>(artifact@.attestations);
        let mut attestations: Vec<Did> = Vec::new();
        let mut i: usize = 0;
        while i < members.len()
            invariant
                i <= members@.len(),
                members@.map_values(|k: &Did| k@) == all,
                attestations@ == all.take(i as int),
            decreases members@.len() - i,
        {
            assert(members@.map_values(|k: &Did| k@)[i as int] == *members@[i as int]);
            attestations.push(*members[i]);
            i += 1;
            assert(attestations@ =~= all.take(i as int));
        }
        assert(all.take(i as int) =~= all);
        VerifyMatch {
            release_id,
            oid: *release.oid(),
            tag_name: if release.tag().is_some() {
                tag_name
            } else {
                None
            },
            name: artifact.name().to_owned(),
            author: *artifact.author(),
            author_alias: resolve(artifact.author(), aliases),
            delegate,
            attestations,
        }
    }
}

/// The content that was verified, and every release that has it.
pub struct VerifyReceipt {
    pub cid: Cid,
    /// Always true.
    pub verified: bool,
    pub matches: Vec<VerifyMatch>,
}

/// The lines of a match.
pub open spec fn match_lines(m: VerifyMatch, style: Style) -> Seq<Seq<char>> {
    let release = match m.tag_name {
        Some(tag) => m.release_id.text() + "  ("@ + tag@ + ")"@,
        None => m.release_id.text(),
    };
    let author = match m.author_alias {
        Some(alias) => m.author.text() + " ("@ + alias@ + ")"@,
        None => m.author.text(),
    };
    let delegate = if m.delegate {
        " "@ + style.spec_dim("delegate"@)
    } else {
        Seq::empty()
    };
    seq![
        Seq::empty(),
        "  "@ + label_text("release"@, 12, style) + release,
        "  "@ + label_text("artifact"@, 12, style) + m.name@,
        "  "@ + label_text("author"@, 12, style) + (author + delegate),
        "  "@ + label_text("attested"@, 12, style) + decimal_text(m.attestations@.len()),
    ]
}

/// The lines of matches.
pub open spec fn matches_lines(matches: Seq<VerifyMatch>, style: Style) -> Seq<Seq<char>>
    decreases matches.len(),
{
    if matches.len() == 0 {
        Seq::empty()
    } else {
        matches_lines(matches.drop_last(), style) + match_lines(matches.last(), style)
    }
}

impl VerifyReceipt {
    /// The receipt for an artifact that was found in good order.
    pub fn new(cid: Cid, matches: Vec<VerifyMatch>) -> (r: VerifyReceipt)
        ensures
            r == (VerifyReceipt { cid, verified: true, matches }),
    {
        VerifyReceipt { cid, verified: true, matches }
    }

    /// What registers the content, as text.
    pub fn pretty(&self, style: Style) -> (r: String)
        ensures
            r@ == unlines(
                seq![style.spec_green("✓ Verified"@) + " "@ + self.cid.text()] + matches_lines(
                    self.matches@,
                    style,
                ),
            ),
    {
        let cid = self.cid.to_text();
        let mut out = vec![cat3(style.green("✓ Verified").as_str(), " ", cid.as_str())];
        let ghost head = texts(out@);
        let ghost all = self.matches@;
        assert(head + matches_lines(all.take(0), style) =~= head);
        let mut i: usize = 0;
        while i < self.matches.len()
            invariant
                i <= self.matches@.len(),
                all == self.matches@,
                texts(out@) == head + matches_lines(all.take(i as int), style),
            decreases self.matches@.len() - i,
        {
            let m = &self.matches[i];
            let ghost before = texts(out@);
            assert(all.take(i + 1).drop_last() =~= all.take(i as int));
            let id = m.release_id.to_text();
            let release = match &m.tag_name {
                Some(tag) => cat4(id.as_str(), "  (", tag.as_str(), ")"),
                None => id,
            };
            let did = m.author.encode();
            let mut author = match &m.author_alias {
                Some(alias) => cat4(did.as_str(), " (", alias.as_str(), ")"),
                None => did,
            };
            if m.delegate {
                author.append(" ");
                author.append(style.dim("delegate").as_str());
            }
            let count = decimal(m.attestations.len() as u64);
            let mut more = vec![
                String::new(),
                cat3("  ", label("release", 12, style).as_str(), release.as_str()),
                cat3("  ", label("artifact", 12, style).as_str(), m.name.as_str()),
                cat3("  ", label("author", 12, style).as_str(), author.as_str()),
                cat3("  ", label("attested", 12, style).as_str(), count.as_str()),
            ];
            let ghost here = texts(more@);
            proof {
                let want = match_lines(*m, style);
                assert(here[0] =~= want[0]);
                assert(here[1] =~= want[1]);
                assert(here[3] =~= want[3]);
                assert(here =~= want);
            }
            out.append(&mut more);
            assert(texts(out@) =~= before + here);
            i += 1;
            assert(texts(out@) =~= head + matches_lines(all.take(i as int), style));
        }
        assert(all.take(i as int) =~= all);
        assert(head =~= seq![style.spec_green("✓ Verified"@) + " "@ + self.cid.text()]);
        lines_to_text(&out)
    }
}

/// Why content cannot be trusted.
pub struct VerifyFailure {
    pub cid: Cid,
    /// Always false.
    pub verified: bool,
    /// One of `noMatch`, `redacted` and `untrustedAuthor`.
    pub reason: String,
    /// The same in words.
    pub message: String,
    /// Who withdrew the artifact, and why.
    pub redactions: SortedMap<Did, String>,
}

impl VerifyFailure {
    /// The receipt for an artifact that was rejected.
    pub fn new(
        cid: Cid,
        reason: String,
        message: String,
        redactions: SortedMap<Did, String>,
    ) -> (r: VerifyFailure)
        ensures
            r == (VerifyFailure { cid, verified: false, reason, message, redactions }),
    {
        VerifyFailure { cid, verified: false, reason, message, redactions }
    }
}

/// Every line of every match is among the lines of the matches.
pub proof fn law_every_match_is_shown(
    matches: Seq<VerifyMatch>,
    style: Style,
    i: int,
    line: Seq<char>,
)
    requires
        0 <= i < matches.len(),
        match_lines(matches[i], style).contains(line),
    ensures
        matches_lines(matches, style).contains(line),
    decreases matches.len(),
{
    let rest = matches.drop_last();
    lemma_add_has(matches_lines(rest, style), match_lines(matches.last(), style), line);
    if i < rest.len() {
        law_every_match_is_shown(rest, style, i, line);
    }
}

} // verus!
