//! Releases as text for a terminal.

use crate::display::{
    bytes_shown, did_shown, format_did, human_bytes, pad_right, padded, row_texts, table,
    table_lines, Style,
};
use crate::ids::{Did, Oid};
use crate::json::{json_str, json_u64, Json};
use crate::location::{
    base32_text, curve_point, law_own_urls_are_recognized, scheme_of, url_host, EndpointId,
};
use crate::seqs::{
    lemma_add_has, lemma_filter_empty, lemma_filter_has, lemma_filter_step, lemma_map_contains,
};
use crate::shown::{Artifact, ArtifactShown, Location, Release, ReleaseShown, Releases};
use crate::sorted::{in_order, lemma_keys_in_order, map_of, SortedMap};
use crate::text::{
    cat, cat3, cat4, decimal, decimal_text, join, joined, lines_to_text, text_between, texts,
    unlines,
};
use crate::watch::METADATA_KEY_SIZE_BYTES;
use vstd::prelude::*;

verus! {

/// The identifier in full, or its first seven characters.
pub open spec fn short(s: Seq<char>, verbose: bool) -> Seq<char> {
    if verbose {
        s
    } else {
        s.take(7)
    }
}

/// An object id in full, or its first seven characters.
fn short_oid(oid: &Oid, verbose: bool) -> (r: String)
    ensures
        r@ == short(oid.text(), verbose),
{
    let text = oid.to_text();
    if verbose {
        text
    } else {
        let chars = crate::text::chars_of(text.as_str());
        assert(chars@.subrange(0, 7) =~= oid.text().take(7));
        text_between(chars.as_slice(), 0, 7)
    }
}

/// What a release is for: a commit, and the tag that leads to it.
pub open spec fn ref_label(r: ReleaseShown, style: Style) -> Seq<char> {
    let commit = style.spec_dim("commit"@) + " "@ + style.spec_yellow(
        short(r.oid.text(), style.verbose),
    );
    match (r.tag_name, r.tag) {
        (Some(name), _) => style.spec_dim("tag"@) + " "@ + style.spec_bold(name) + " "@
            + style.spec_dim("→"@) + " "@ + commit,
        (None, Some(tag)) => style.spec_dim("tag"@) + " "@ + style.spec_yellow(
            short(tag.text(), style.verbose),
        ) + " "@ + style.spec_dim("→"@) + " "@ + commit,
        (None, None) => commit,
    }
}

/// The first line of a release: its id, what it is for, who created it and its title.
pub open spec fn header_text(r: ReleaseShown, style: Style) -> Seq<char> {
    let title = match r.title {
        Some(t) => if t.len() > 0 {
            "  "@ + t
        } else {
            Seq::empty()
        },
        None => Seq::empty(),
    };
    style.spec_cyan("●"@) + " "@ + style.spec_bold(short(r.release_id.text(), style.verbose))
        + "  "@ + ref_label(r, style) + "  "@ + style.spec_dim("by"@) + " "@ + style.spec_dim(
        did_shown(r.creator, r.creator_alias, style.verbose),
    ) + title
}

/// Whether the local user offers the artifact: under the user's own name it has a
/// location that leads to the user's endpoint.
pub open spec fn seeded_locally(local: Option<Did>, a: ArtifactShown) -> bool {
    match local {
        Some(did) => match EndpointId::spec_of_did(did) {
            Some(me) => exists|i: int|
                0 <= i < a.locations.len() && (#[trigger] a.locations[i]).1 == did && me.matches(
                    a.locations[i].2,
                ),
            None => false,
        },
        None => false,
    }
}

impl Release {
    /// Whether the local user offers the artifact.
    pub fn seeding(&self, artifact: &Artifact) -> (r: bool)
        ensures
            r == seeded_locally(self.local, artifact@),
    {
        let local = match self.local {
            Some(did) => did,
            None => {
                return false;
            },
        };
        let me = match EndpointId::of_did(&local) {
            Some(me) => me,
            None => {
                return false;
            },
        };
        let ghost all = artifact@.locations;
        let mut i: usize = 0;
        while i < artifact.locations.len()
            invariant
                i <= artifact.locations@.len(),
                all == artifact@.locations,
                self.local == Some(local),
                EndpointId::spec_of_did(local) == Some(me),
                forall|j: int|
                    0 <= j < i ==> !((#[trigger] all[j]).1 == local && me.matches(all[j].2)),
            decreases artifact.locations@.len() - i,
        {
            let l = &artifact.locations[i];
            assert(all[i as int] == l@);
            if l.did == local && me.matches_url(&l.url) {
                return true;
            }
            i += 1;
        }
        false
    }

    fn ref_label(&self, style: Style) -> (r: String)
        ensures
            r@ == ref_label(self@, style),
    {
        let oid = short_oid(&self.oid, style.verbose);
        let commit = cat3(
            style.dim("commit").as_str(),
            " ",
            style.yellow(oid.as_str()).as_str(),
        );
        let name = match (&self.tag_name, &self.tag) {
            (Some(name), _) => style.bold(name.as_str()),
            (None, Some(tag)) => {
                let tag = short_oid(tag, style.verbose);
                style.yellow(tag.as_str())
            },
            (None, None) => {
                return commit;
            },
        };
        let mut s = style.dim("tag");
        s.append(" ");
        s.append(name.as_str());
        s.append(" ");
        s.append(style.dim("→").as_str());
        s.append(" ");
        s.append(commit.as_str());
        s
    }

    /// The first line of the release.
    pub fn header(&self, style: Style) -> (r: String)
        ensures
            r@ == header_text(self@, style),
    {
        let id = short_oid(&self.release_id.id, style.verbose);
        let creator = format_did(&self.creator, &self.creator_alias, style.verbose);
        let mut s = style.cyan("●");
        s.append(" ");
        s.append(style.bold(id.as_str()).as_str());
        s.append("  ");
        s.append(self.ref_label(style).as_str());
        s.append("  ");
        s.append(style.dim("by").as_str());
        s.append(" ");
        s.append(style.dim(creator.as_str()).as_str());
        match &self.title {
            Some(t) => {
                if !t.as_str().is_empty() {
                    s.append("  ");
                    s.append(t.as_str());
                }
            },
            None => {},
        }
        assert(s@ =~= header_text(self@, style));
        s
    }
}

/// The number of locations with the scheme `scheme`.
pub open spec fn scheme_count(
    locations: Seq<(Option<Seq<char>>, Did, Seq<char>)>,
    scheme: Seq<char>,
) -> nat {
    locations.filter(
        |l: (Option<Seq<char>>, Did, Seq<char>)| scheme_of(l.2) == scheme,
    ).len()
}

/// The schemes of locations.
pub open spec fn schemes(locations: Seq<(Option<Seq<char>>, Did, Seq<char>)>) -> Set<Seq<char>> {
    Set::new(
        |s: Seq<char>|
            exists|i: int| 0 <= i < locations.len() && s == scheme_of(#[trigger] locations[i].2),
    )
}

/// How many locations there are of each scheme, in the order of the schemes.
pub open spec fn scheme_summary(
    locations: Seq<(Option<Seq<char>>, Did, Seq<char>)>,
) -> Seq<char> {
    joined(
        in_order::<String>(schemes(locations)).map_values(
            |s: Seq<char>| s + ": "@ + decimal_text(scheme_count(locations, s)),
        ),
        ", "@,
    )
}

/// The locations of an artifact in a list: how many there are, or how many of each
/// scheme.
pub open spec fn locations_cell(a: ArtifactShown, verbose: bool) -> Seq<char> {
    if verbose {
        scheme_summary(a.locations)
    } else {
        "("@ + decimal_text(a.locations.len()) + " 📍)"@
    }
}

/// The attestations and redactions of an artifact in a list.
pub open spec fn badges_cell(a: ArtifactShown, style: Style) -> Seq<char> {
    let attested = style.spec_green("✓"@ + decimal_text(a.attestations.len()));
    let redacted = style.spec_red("⊘"@ + decimal_text(a.redactions.len()));
    if a.attestations.len() > 0 && a.redactions.len() > 0 {
        attested + " "@ + redacted
    } else if a.attestations.len() > 0 {
        attested
    } else if a.redactions.len() > 0 {
        redacted
    } else {
        Seq::empty()
    }
}

/// An artifact as a row of a list.
pub open spec fn artifact_row(a: ArtifactShown, local: Option<Did>, style: Style) -> Seq<
    Seq<char>,
> {
    seq![
        style.spec_magenta(a.cid),
        style.spec_bold(a.name),
        style.spec_dim(did_shown(a.author, a.author_alias, style.verbose)),
        if seeded_locally(local, a) {
            "🌱"@
        } else {
            Seq::empty()
        },
        locations_cell(a, style.verbose),
        badges_cell(a, style),
    ]
}

/// The lines of a release in a list: the header, and a row for each artifact.
pub open spec fn compact_lines(r: ReleaseShown, style: Style) -> Seq<Seq<char>> {
    if r.artifacts.len() == 0 {
        seq![header_text(r, style), "  "@ + style.spec_dim("(no artifacts)"@)]
    } else {
        seq![header_text(r, style)] + table_lines(
            r.artifacts.map_values(|a: ArtifactShown| artifact_row(a, r.local, style)),
            2,
        )
    }
}

/// Counting one location more.
proof fn lemma_scheme_count_step(
    locations: Seq<(Option<Seq<char>>, Did, Seq<char>)>,
    i: int,
    scheme: Seq<char>,
)
    requires
        0 <= i < locations.len(),
    ensures
        scheme_count(locations.take(i + 1), scheme) == scheme_count(locations.take(i), scheme) + (
        if scheme_of(locations[i].2) == scheme {
            1nat
        } else {
            0nat
        }),
{
    lemma_filter_step(
        locations,
        i,
        |l: (Option<Seq<char>>, Did, Seq<char>)| scheme_of(l.2) == scheme,
    );
}

/// A scheme that does not occur is counted zero times.
proof fn lemma_scheme_count_none(
    locations: Seq<(Option<Seq<char>>, Did, Seq<char>)>,
    n: int,
    scheme: Seq<char>,
)
    requires
        0 <= n <= locations.len(),
        forall|i: int| 0 <= i < n ==> scheme_of(#[trigger] locations[i].2) != scheme,
    ensures
        scheme_count(locations.take(n), scheme) == 0,
    decreases n,
{
    if n == 0 {
        lemma_filter_empty(
            locations,
            |l: (Option<Seq<char>>, Did, Seq<char>)| scheme_of(l.2) == scheme,
        );
    } else {
        lemma_scheme_count_none(locations, n - 1, scheme);
        lemma_scheme_count_step(locations, n - 1, scheme);
        assert(scheme_of(locations[n - 1].2) != scheme);
    }
}

/// How many locations there are of each scheme.
fn summarize_schemes(artifact: &Artifact) -> (r: String)
    ensures
        r@ == scheme_summary(artifact@.locations),
{
    let ghost all = artifact@.locations;
    let mut counts: SortedMap<String, usize> = SortedMap::new();
    let mut i: usize = 0;
    while i < artifact.locations.len()
        invariant
            i <= artifact.locations@.len(),
            all == artifact@.locations,
            forall|s: Seq<char>| #[trigger]
                counts@.contains_key(s) <==> (exists|j: int|
                    0 <= j < i && s == scheme_of(#[trigger] all[j].2)),
            forall|s: Seq<char>| #[trigger]
                counts@.contains_key(s) ==> counts@[s] == scheme_count(all.take(i as int), s),
            forall|s: Seq<char>| #[trigger] counts@.contains_key(s) ==> counts@[s] <= i,
        decreases artifact.locations@.len() - i,
    {
        let scheme = artifact.locations[i].url.scheme();
        let ghost before = counts@;
        assert(all[i as int] == artifact.locations@[i as int]@);
        let n: usize = match counts.get(&scheme) {
            Some(n) => *n,
            None => 0,
        };
        proof {
            if !before.contains_key(scheme@) {
                assert forall|j: int| 0 <= j < i implies scheme_of(#[trigger] all[j].2)
                    != scheme@ by {}
                lemma_scheme_count_none(all, i as int, scheme@);
            }
            assert forall|s: Seq<char>| scheme_count(all.take(i + 1), s) == scheme_count(
                all.take(i as int),
                s,
            ) + (if s == scheme@ {
                1nat
            } else {
                0nat
            }) by {
                lemma_scheme_count_step(all, i as int, s);
            }
        }
        let ghost key = scheme@;
        counts.insert(scheme, n + 1);
        proof {
            assert forall|s: Seq<char>| #[trigger]
                counts@.contains_key(s) <==> (exists|j: int|
                    0 <= j < i + 1 && s == scheme_of(#[trigger] all[j].2)) by {
                if s == key {
                    assert(s == scheme_of(all[i as int].2));
                }
                if exists|j: int| 0 <= j < i + 1 && s == scheme_of(#[trigger] all[j].2) {
                    let j = choose|j: int| 0 <= j < i + 1 && s == scheme_of(#[trigger] all[j].2);
                    if j < i {
                        assert(before.contains_key(s));
                    }
                }
            }
        }
        i += 1;
    }
    let ghost s = counts.seq();
    let ghost keys = in_order::<String>(schemes(all));
    let ghost entry = |s: Seq<char>| s + ": "@ + decimal_text(scheme_count(all, s));
    proof {
        assert(all.take(i as int) =~= all);
        use_type_invariant(&counts);
        lemma_keys_in_order(s);
        assert forall|t: Seq<char>| map_of(s).dom().contains(t) <==> schemes(all).contains(t) by {
            assert(counts@.contains_key(t) <==> map_of(s).dom().contains(t));
        }
        assert(map_of(s).dom() =~= schemes(all));
    }
    let mut parts: Vec<String> = Vec::new();
    let mut k: usize = 0;
    while k < counts.len()
        invariant
            k <= s.len(),
            s == counts.seq(),
            keys == s.map_values(|e: (String, usize)| e.0@),
            forall|j: int|
                0 <= j < s.len() ==> counts@.contains_key(#[trigger] s[j].0@) && counts@[s[j].0@]
                    == s[j].1,
            forall|t: Seq<char>| #[trigger]
                counts@.contains_key(t) ==> counts@[t] == scheme_count(all, t),
            entry == (|s: Seq<char>| s + ": "@ + decimal_text(scheme_count(all, s))),
            texts(parts@) == keys.map_values(entry).take(k as int),
        decreases s.len() - k,
    {
        let ghost before = texts(parts@);
        assert(s[k as int].0@ == keys[k as int]);
        let count = decimal(*counts.value_of(k) as u64);
        parts.push(cat3(counts.key_at(k).as_str(), ": ", count.as_str()));
        assert(texts(parts@) =~= before.push(entry(keys[k as int])));
        k += 1;
        assert(texts(parts@) =~= keys.map_values(entry).take(k as int));
    }
    assert(texts(parts@) =~= keys.map_values(entry));
    join(&parts, ", ")
}

/// An artifact as a row of a list.
fn row_of(artifact: &Artifact, seeding: bool, style: Style) -> (r: Vec<String>)
    ensures
        forall|local: Option<Did>|
            seeding == #[trigger] seeded_locally(local, artifact@) ==> texts(r@) == artifact_row(
                artifact@,
                local,
                style,
            ),
{
    let author = format_did(&artifact.author, &artifact.author_alias, style.verbose);
    let locations = if style.verbose {
        summarize_schemes(artifact)
    } else {
        let n = decimal(artifact.locations.len() as u64);
        cat3("(", n.as_str(), " 📍)")
    };
    let seed = if seeding {
        "🌱".to_owned()
    } else {
        String::new()
    };
    let mut badges = String::new();
    if artifact.attestations.len() > 0 {
        let n = decimal(artifact.attestations.len() as u64);
        badges = style.green(cat("✓", n.as_str()).as_str());
    }
    if artifact.redactions.len() > 0 {
        let n = decimal(artifact.redactions.len() as u64);
        if artifact.attestations.len() > 0 {
            badges.append(" ");
        }
        badges.append(style.red(cat("⊘", n.as_str()).as_str()).as_str());
    }
    assert(badges@ =~= badges_cell(artifact@, style));
    let r = vec![
        style.magenta(artifact.cid.as_str()),
        style.bold(artifact.name.as_str()),
        style.dim(author.as_str()),
        seed,
        locations,
        badges,
    ];
    proof {
        assert forall|local: Option<Did>|
            seeding == #[trigger] seeded_locally(local, artifact@) implies texts(r@)
            == artifact_row(artifact@, local, style) by {
            assert(texts(r@) =~= artifact_row(artifact@, local, style));
        }
    }
    r
}

impl Release {
    /// The lines of the release in a list.
    pub fn compact(&self, style: Style) -> (r: Vec<String>)
        ensures
            texts(r@) == compact_lines(self@, style),
    {
        let header = self.header(style);
        if self.artifacts.len() == 0 {
            let none = cat("  ", style.dim("(no artifacts)").as_str());
            let r = vec![header, none];
            assert(texts(r@) =~= compact_lines(self@, style));
            return r;
        }
        let ghost shown = self@.artifacts;
        let ghost line = |a: ArtifactShown| artifact_row(a, self.local, style);
        let mut rows: Vec<Vec<String>> = Vec::new();
        let mut i: usize = 0;
        while i < self.artifacts.len()
            invariant
                i <= self.artifacts@.len(),
                shown == self@.artifacts,
                line == (|a: ArtifactShown| artifact_row(a, self.local, style)),
                row_texts(rows@) == shown.map_values(line).take(i as int),
            decreases self.artifacts@.len() - i,
        {
            let artifact = &self.artifacts[i];
            let ghost before = row_texts(rows@);
            assert(shown[i as int] == artifact@);
            let row = row_of(artifact, self.seeding(artifact), style);
            rows.push(row);
            assert(row_texts(rows@) =~= before.push(line(shown[i as int])));
            i += 1;
            assert(row_texts(rows@) =~= shown.map_values(line).take(i as int));
        }
        assert(shown.map_values(line).take(i as int) =~= shown.map_values(line));
        let mut lines = vec![header];
        let mut rest = table(&rows, 2);
        let ghost tail = texts(rest@);
        lines.append(&mut rest);
        assert(texts(lines@) =~= seq![header_text(self@, style)] + tail);
        lines
    }

    /// The release in a list.
    pub fn pretty_compact(&self, style: Style) -> (r: String)
        ensures
            r@ == unlines(compact_lines(self@, style)),
    {
        let lines = self.compact(style);
        lines_to_text(&lines)
    }
}

/// A label in front of a value, dimmed and padded.
pub open spec fn label_text(k: Seq<char>, columns: nat, style: Style) -> Seq<char> {
    padded(style.spec_dim(k), columns)
}

/// A label in front of a value, dimmed and padded.
pub fn label(k: &str, columns: usize, style: Style) -> (r: String)
    ensures
        r@ == label_text(k@, columns as nat, style),
{
    pad_right(style.dim(k).as_str(), columns)
}

/// The heading of an artifact: its name, and what users state of it.
pub open spec fn artifact_heading(a: ArtifactShown, local: Option<Did>, style: Style) -> Seq<
    char,
> {
    let seed = if seeded_locally(local, a) {
        " 🌱"@
    } else {
        Seq::empty()
    };
    let attested = if a.attestations.len() > 0 {
        style.spec_green(" ✓"@ + decimal_text(a.attestations.len()))
    } else {
        Seq::empty()
    };
    let redacted = if a.redactions.len() > 0 {
        style.spec_red(" ⊘"@ + decimal_text(a.redactions.len()))
    } else {
        Seq::empty()
    };
    "  "@ + style.spec_cyan("▸"@) + " "@ + style.spec_bold(a.name) + seed + attested + redacted
}

/// The lines of one contributor: who it is, and every URL of that contributor. There are
/// none at `i` where the contributor occurs before.
pub open spec fn provider_lines(
    locations: Seq<(Option<Seq<char>>, Did, Seq<char>)>,
    i: int,
    style: Style,
) -> Seq<Seq<char>> {
    let did = locations[i].1;
    if exists|j: int| 0 <= j < i && (#[trigger] locations[j]).1 == did {
        Seq::empty()
    } else {
        seq!["      "@ + style.spec_dim(did_shown(did, locations[i].0, style.verbose))]
            + locations.filter(
            |l: (Option<Seq<char>>, Did, Seq<char>)| l.1 == did,
        ).map_values(|l: (Option<Seq<char>>, Did, Seq<char>)| "        "@ + l.2)
    }
}

/// The lines of the contributors of the first `n` locations, each once.
pub open spec fn providers_lines(
    locations: Seq<(Option<Seq<char>>, Did, Seq<char>)>,
    n: int,
    style: Style,
) -> Seq<Seq<char>>
    decreases n,
{
    if n <= 0 {
        Seq::empty()
    } else {
        providers_lines(locations, n - 1, style) + provider_lines(locations, n - 1, style)
    }
}

/// The lines of the locations of an artifact.
pub open spec fn location_lines(a: ArtifactShown, style: Style) -> Seq<Seq<char>> {
    if a.locations.len() == 0 {
        seq!["    "@ + label_text("locations"@, 14, style) + style.spec_dim("(none)"@)]
    } else {
        seq!["    "@ + style.spec_dim("locations"@)] + providers_lines(
            a.locations,
            a.locations.len() as int,
            style,
        )
    }
}

/// The lines of the attestations of an artifact.
pub open spec fn attestation_lines(a: ArtifactShown, style: Style) -> Seq<Seq<char>> {
    if a.attestations.len() == 0 {
        Seq::empty()
    } else {
        seq!["    "@ + style.spec_dim("attestations"@)] + a.attestations.map_values(
            |x: (Option<Seq<char>>, Did)|
                "      "@ + style.spec_green("✓"@) + " "@ + did_shown(x.1, x.0, style.verbose),
        )
    }
}

/// The line of a redaction, with the reason if there is one.
pub open spec fn redaction_line(x: (Option<Seq<char>>, Did, Seq<char>), style: Style) -> Seq<char> {
    let reason = if x.2.len() == 0 {
        Seq::empty()
    } else {
        "  "@ + style.spec_dim(x.2)
    };
    "      "@ + style.spec_red("⊘"@) + " "@ + did_shown(x.1, x.0, style.verbose) + reason
}

/// The lines of the redactions of an artifact.
pub open spec fn redaction_lines(a: ArtifactShown, style: Style) -> Seq<Seq<char>> {
    if a.redactions.len() == 0 {
        Seq::empty()
    } else {
        seq!["    "@ + style.spec_dim("redactions"@)] + a.redactions.map_values(
            |x: (Option<Seq<char>>, Did, Seq<char>)| redaction_line(x, style),
        )
    }
}

/// A metadata value as shown: a size as a number of bytes, a string without quotes, and
/// anything else as JSON.
pub open spec fn value_shown(key: Seq<char>, value: Seq<char>) -> Seq<char> {
    if key == METADATA_KEY_SIZE_BYTES@ && json_u64(value) is Some {
        bytes_shown(json_u64(value)->0 as nat)
    } else {
        match json_str(value) {
            Some(s) => s,
            None => value,
        }
    }
}

/// The lines of the metadata of an artifact.
pub open spec fn metadata_lines(a: ArtifactShown, style: Style) -> Seq<Seq<char>> {
    if a.metadata.len() == 0 {
        Seq::empty()
    } else {
        seq!["    "@ + style.spec_dim("metadata"@)] + a.metadata.map_values(
            |e: (Seq<char>, Seq<char>)|
                "      "@ + style.spec_cyan(e.0) + " = "@ + value_shown(e.0, e.1),
        )
    }
}

/// The lines of an artifact.
pub open spec fn artifact_lines(a: ArtifactShown, local: Option<Did>, style: Style) -> Seq<
    Seq<char>,
> {
    seq![
        Seq::empty(),
        artifact_heading(a, local, style),
        "    "@ + label_text("cid"@, 14, style) + style.spec_magenta(a.cid),
        "    "@ + label_text("author"@, 14, style) + did_shown(
            a.author,
            a.author_alias,
            style.verbose,
        ),
    ] + location_lines(a, style) + attestation_lines(a, style) + redaction_lines(a, style)
        + metadata_lines(a, style)
}

/// The lines of the artifacts.
pub open spec fn artifacts_lines(
    artifacts: Seq<ArtifactShown>,
    local: Option<Did>,
    style: Style,
) -> Seq<Seq<char>>
    decreases artifacts.len(),
{
    if artifacts.len() == 0 {
        Seq::empty()
    } else {
        artifacts_lines(artifacts.drop_last(), local, style) + artifact_lines(
            artifacts.last(),
            local,
            style,
        )
    }
}

/// The identifiers of a release in full, where that is asked for.
pub open spec fn id_lines(r: ReleaseShown, style: Style) -> Seq<Seq<char>> {
    if !style.verbose {
        Seq::empty()
    } else {
        let ids = seq![
            "  "@ + label_text("release"@, 14, style) + r.release_id.text(),
            "  "@ + label_text("commit"@, 14, style) + r.oid.text(),
        ];
        match r.tag {
            Some(tag) => ids.push("  "@ + label_text("tag"@, 14, style) + tag.text()),
            None => ids,
        }
    }
}

/// The lines of a release in detail.
pub open spec fn detailed_lines(r: ReleaseShown, style: Style) -> Seq<Seq<char>> {
    let top = seq![header_text(r, style)] + id_lines(r, style);
    if r.artifacts.len() == 0 {
        top + seq![Seq::empty(), "  "@ + style.spec_dim("(no artifacts)"@)]
    } else {
        let items = if r.artifacts.len() == 1 {
            "item"@
        } else {
            "items"@
        };
        let heading = "Artifacts ("@ + decimal_text(r.artifacts.len()) + " "@ + items + ")"@;
        top + seq![Seq::empty(), "  "@ + style.spec_bold(heading)] + artifacts_lines(
            r.artifacts,
            r.local,
            style,
        )
    }
}

fn heading_of(artifact: &Artifact, seeding: bool, style: Style) -> (r: String)
    ensures
        forall|local: Option<Did>|
            seeding == #[trigger] seeded_locally(local, artifact@) ==> r@ == artifact_heading(
                artifact@,
                local,
                style,
            ),
{
    let mut s = cat4(
        "  ",
        style.cyan("▸").as_str(),
        " ",
        style.bold(artifact.name.as_str()).as_str(),
    );
    if seeding {
        s.append(" 🌱");
    }
    if artifact.attestations.len() > 0 {
        let n = decimal(artifact.attestations.len() as u64);
        s.append(style.green(cat(" ✓", n.as_str()).as_str()).as_str());
    }
    if artifact.redactions.len() > 0 {
        let n = decimal(artifact.redactions.len() as u64);
        s.append(style.red(cat(" ⊘", n.as_str()).as_str()).as_str());
    }
    proof {
        assert forall|local: Option<Did>|
            seeding == #[trigger] seeded_locally(local, artifact@) implies s@ == artifact_heading(
            artifact@,
            local,
            style,
        ) by {
            assert(s@ =~= artifact_heading(artifact@, local, style));
        }
    }
    s
}

/// The lines of the contributor at place `i`.
fn lines_of_provider(locations: &Vec<Location>, i: usize, style: Style) -> (r: Vec<String>)
    requires
        i < locations@.len(),
    ensures
        texts(r@) == provider_lines(
            locations@.map_values(|l: Location| l@),
            i as int,
            style,
        ),
{
    let ghost all = locations@.map_values(|l: Location| l@);
    let did = locations[i].did;
    let mut out: Vec<String> = Vec::new();
    let mut j: usize = 0;
    while j < i
        invariant
            j <= i < locations@.len(),
            all == locations@.map_values(|l: Location| l@),
            did == all[i as int].1,
            out@.len() == 0,
            forall|k: int| 0 <= k < j ==> (#[trigger] all[k]).1 != did,
        decreases i - j,
    {
        assert(all[j as int] == locations@[j as int]@);
        if locations[j].did == did {
            assert(texts(out@) =~= Seq::empty());
            return out;
        }
        j += 1;
    }
    let provider = format_did(&did, &locations[i].alias, style.verbose);
    out.push(cat("      ", style.dim(provider.as_str()).as_str()));
    let ghost head = texts(out@);
    let ghost same = |l: (Option<Seq<char>>, Did, Seq<char>)| l.1 == did;
    let ghost url_line = |l: (Option<Seq<char>>, Did, Seq<char>)| "        "@ + l.2;
    proof {
        lemma_filter_empty(all, same);
        assert(head + Seq::<(Option<Seq<char>>, Did, Seq<char>)>::empty().map_values(url_line)
            =~= head);
    }
    let mut k: usize = 0;
    while k < locations.len()
        invariant
            k <= locations@.len(),
            all == locations@.map_values(|l: Location| l@),
            same == (|l: (Option<Seq<char>>, Did, Seq<char>)| l.1 == did),
            url_line == (|l: (Option<Seq<char>>, Did, Seq<char>)| "        "@ + l.2),
            texts(out@) == head + all.take(k as int).filter(same).map_values(url_line),
        decreases locations@.len() - k,
    {
        proof {
            lemma_filter_step(all, k as int, same);
        }
        assert(all[k as int] == locations@[k as int]@);
        let ghost before = texts(out@);
        let ghost urls = all.take(k as int).filter(same);
        if locations[k].did == did {
            out.push(cat("        ", locations[k].url.as_str()));
            assert(texts(out@) =~= before.push(url_line(all[k as int])));
            assert(urls.push(all[k as int]).map_values(url_line) =~= urls.map_values(
                url_line,
            ).push(url_line(all[k as int])));
        }
        k += 1;
    }
    assert(all.take(k as int) =~= all);
    assert(head =~= seq![
        "      "@ + style.spec_dim(did_shown(did, all[i as int].0, style.verbose)),
    ]);
    out
}

fn lines_of_locations(artifact: &Artifact, style: Style) -> (r: Vec<String>)
    ensures
        texts(r@) == location_lines(artifact@, style),
{
    let ghost all = artifact@.locations;
    if artifact.locations.len() == 0 {
        let label = label("locations", 14, style);
        let r = vec![cat3("    ", label.as_str(), style.dim("(none)").as_str())];
        assert(texts(r@) =~= location_lines(artifact@, style));
        return r;
    }
    let mut out = vec![cat("    ", style.dim("locations").as_str())];
    let ghost head = texts(out@);
    let mut i: usize = 0;
    assert(head + providers_lines(all, 0, style) =~= head);
    while i < artifact.locations.len()
        invariant
            i <= artifact.locations@.len(),
            all == artifact@.locations,
            texts(out@) == head + providers_lines(all, i as int, style),
        decreases artifact.locations@.len() - i,
    {
        let ghost before = texts(out@);
        let mut more = lines_of_provider(&artifact.locations, i, style);
        let ghost here = texts(more@);
        out.append(&mut more);
        assert(texts(out@) =~= before + here);
        i += 1;
        assert(texts(out@) =~= head + providers_lines(all, i as int, style));
    }
    assert(head =~= seq!["    "@ + style.spec_dim("locations"@)]);
    out
}

fn lines_of_attestations(artifact: &Artifact, style: Style) -> (r: Vec<String>)
    ensures
        texts(r@) == attestation_lines(artifact@, style),
{
    let mut out: Vec<String> = Vec::new();
    let ghost all = artifact@.attestations;
    if artifact.attestations.len() == 0 {
        assert(texts(out@) =~= attestation_lines(artifact@, style));
        return out;
    }
    out.push(cat("    ", style.dim("attestations").as_str()));
    let ghost head = texts(out@);
    let ghost line = |x: (Option<Seq<char>>, Did)|
        "      "@ + style.spec_green("✓"@) + " "@ + did_shown(x.1, x.0, style.verbose);
    let mut i: usize = 0;
    assert(texts(out@) =~= head + all.map_values(line).take(0));
    while i < artifact.attestations.len()
        invariant
            i <= artifact.attestations@.len(),
            all == artifact@.attestations,
            line == (|x: (Option<Seq<char>>, Did)|
                "      "@ + style.spec_green("✓"@) + " "@ + did_shown(x.1, x.0, style.verbose)),
            texts(out@) == head + all.map_values(line).take(i as int),
        decreases artifact.attestations@.len() - i,
    {
        let a = &artifact.attestations[i];
        let ghost before = texts(out@);
        assert(all[i as int] == a@);
        let did = format_did(&a.did, &a.alias, style.verbose);
        out.push(cat4("      ", style.green("✓").as_str(), " ", did.as_str()));
        assert(texts(out@) =~= before.push(line(all[i as int])));
        i += 1;
        assert(texts(out@) =~= head + all.map_values(line).take(i as int));
    }
    assert(all.map_values(line).take(i as int) =~= all.map_values(line));
    assert(head =~= seq!["    "@ + style.spec_dim("attestations"@)]);
    out
}

fn lines_of_redactions(artifact: &Artifact, style: Style) -> (r: Vec<String>)
    ensures
        texts(r@) == redaction_lines(artifact@, style),
{
    let mut out: Vec<String> = Vec::new();
    let ghost all = artifact@.redactions;
    if artifact.redactions.len() == 0 {
        assert(texts(out@) =~= redaction_lines(artifact@, style));
        return out;
    }
    out.push(cat("    ", style.dim("redactions").as_str()));
    let ghost head = texts(out@);
    let ghost line = |x: (Option<Seq<char>>, Did, Seq<char>)| redaction_line(x, style);
    let mut i: usize = 0;
    assert(texts(out@) =~= head + all.map_values(line).take(0));
    while i < artifact.redactions.len()
        invariant
            i <= artifact.redactions@.len(),
            all == artifact@.redactions,
            line == (|x: (Option<Seq<char>>, Did, Seq<char>)| redaction_line(x, style)),
            texts(out@) == head + all.map_values(line).take(i as int),
        decreases artifact.redactions@.len() - i,
    {
        let x = &artifact.redactions[i];
        let ghost before = texts(out@);
        assert(all[i as int] == x@);
        let did = format_did(&x.did, &x.alias, style.verbose);
        let mut s = cat4("      ", style.red("⊘").as_str(), " ", did.as_str());
        if !x.reason.as_str().is_empty() {
            s.append("  ");
            s.append(style.dim(x.reason.as_str()).as_str());
        }
        assert(s@ =~= redaction_line(all[i as int], style));
        out.push(s);
        assert(texts(out@) =~= before.push(line(all[i as int])));
        i += 1;
        assert(texts(out@) =~= head + all.map_values(line).take(i as int));
    }
    assert(all.map_values(line).take(i as int) =~= all.map_values(line));
    assert(head =~= seq!["    "@ + style.spec_dim("redactions"@)]);
    out
}

/// A metadata value as shown.
fn show_value(key: &String, value: &Json) -> (r: String)
    ensures
        r@ == value_shown(key@, value@),
{
    if *key == METADATA_KEY_SIZE_BYTES.to_owned() {
        match value.as_u64() {
            Some(n) => {
                return human_bytes(n);
            },
            None => {},
        }
    }
    match value.as_string() {
        Some(s) => s,
        None => value.as_text().to_owned(),
    }
}

fn lines_of_metadata(artifact: &Artifact, style: Style) -> (r: Vec<String>)
    ensures
        texts(r@) == metadata_lines(artifact@, style),
{
    let mut out: Vec<String> = Vec::new();
    let ghost all = artifact@.metadata;
    if artifact.metadata.len() == 0 {
        assert(texts(out@) =~= metadata_lines(artifact@, style));
        return out;
    }
    out.push(cat("    ", style.dim("metadata").as_str()));
    let ghost head = texts(out@);
    let ghost line = |e: (Seq<char>, Seq<char>)|
        "      "@ + style.spec_cyan(e.0) + " = "@ + value_shown(e.0, e.1);
    let mut i: usize = 0;
    assert(texts(out@) =~= head + all.map_values(line).take(0));
    while i < artifact.metadata.len()
        invariant
            i <= artifact.metadata@.len(),
            all == artifact@.metadata,
            line == (|e: (Seq<char>, Seq<char>)|
                "      "@ + style.spec_cyan(e.0) + " = "@ + value_shown(e.0, e.1)),
            texts(out@) == head + all.map_values(line).take(i as int),
        decreases artifact.metadata@.len() - i,
    {
        let (key, value) = &artifact.metadata[i];
        let ghost before = texts(out@);
        assert(all[i as int] == (key@, value@));
        let shown = show_value(key, value);
        out.push(cat4("      ", style.cyan(key.as_str()).as_str(), " = ", shown.as_str()));
        assert(texts(out@) =~= before.push(line(all[i as int])));
        i += 1;
        assert(texts(out@) =~= head + all.map_values(line).take(i as int));
    }
    assert(all.map_values(line).take(i as int) =~= all.map_values(line));
    assert(head =~= seq!["    "@ + style.spec_dim("metadata"@)]);
    out
}

/// The lines of an artifact.
fn lines_of_artifact(artifact: &Artifact, seeding: bool, style: Style) -> (r: Vec<String>)
    ensures
        forall|local: Option<Did>|
            seeding == #[trigger] seeded_locally(local, artifact@) ==> texts(r@)
                == artifact_lines(artifact@, local, style),
{
    let cid = label("cid", 14, style);
    let by = label("author", 14, style);
    let author = format_did(&artifact.author, &artifact.author_alias, style.verbose);
    let mut out = vec![
        String::new(),
        heading_of(artifact, seeding, style),
        cat3("    ", cid.as_str(), style.magenta(artifact.cid.as_str()).as_str()),
        cat3("    ", by.as_str(), author.as_str()),
    ];
    let ghost head = texts(out@);
    let mut locations = lines_of_locations(artifact, style);
    let mut attestations = lines_of_attestations(artifact, style);
    let mut redactions = lines_of_redactions(artifact, style);
    let mut metadata = lines_of_metadata(artifact, style);
    out.append(&mut locations);
    out.append(&mut attestations);
    out.append(&mut redactions);
    out.append(&mut metadata);
    let ghost tail = location_lines(artifact@, style) + attestation_lines(artifact@, style)
        + redaction_lines(artifact@, style) + metadata_lines(artifact@, style);
    assert(texts(out@) =~= head + tail);
    proof {
        assert forall|local: Option<Did>|
            seeding == #[trigger] seeded_locally(local, artifact@) implies texts(out@)
            == artifact_lines(artifact@, local, style) by {
            assert(texts(out@) =~= artifact_lines(artifact@, local, style));
        }
    }
    out
}

impl Release {
    /// The identifiers of the release in full, where that is asked for.
    fn lines_of_ids(&self, style: Style) -> (r: Vec<String>)
        ensures
            texts(r@) == id_lines(self@, style),
    {
        let mut out: Vec<String> = Vec::new();
        if style.verbose {
            let id = self.release_id.to_text();
            let oid = self.oid.to_text();
            out.push(cat3("  ", label("release", 14, style).as_str(), id.as_str()));
            out.push(cat3("  ", label("commit", 14, style).as_str(), oid.as_str()));
            match &self.tag {
                Some(tag) => {
                    let tag = tag.to_text();
                    out.push(cat3("  ", label("tag", 14, style).as_str(), tag.as_str()));
                },
                None => {},
            }
        }
        assert(texts(out@) =~= id_lines(self@, style));
        out
    }

    /// The lines of the release in detail.
    pub fn detailed(&self, style: Style) -> (r: Vec<String>)
        ensures
            texts(r@) == detailed_lines(self@, style),
    {
        let mut out = vec![self.header(style)];
        let mut ids = self.lines_of_ids(style);
        out.append(&mut ids);
        let ghost top = seq![header_text(self@, style)] + id_lines(self@, style);
        assert(texts(out@) =~= top);
        out.push(String::new());
        if self.artifacts.len() == 0 {
            out.push(cat("  ", style.dim("(no artifacts)").as_str()));
            assert(texts(out@) =~= detailed_lines(self@, style));
            return out;
        }
        let ghost shown = self@.artifacts;
        let count = decimal(self.artifacts.len() as u64);
        let items = if self.artifacts.len() == 1 {
            "item"
        } else {
            "items"
        };
        let heading = crate::text::cat5("Artifacts (", count.as_str(), " ", items, ")");
        out.push(cat("  ", style.bold(heading.as_str()).as_str()));
        let ghost head = texts(out@);
        let mut i: usize = 0;
        assert(head + artifacts_lines(shown.take(0), self.local, style) =~= head);
        while i < self.artifacts.len()
            invariant
                i <= self.artifacts@.len(),
                shown == self@.artifacts,
                texts(out@) == head + artifacts_lines(shown.take(i as int), self.local, style),
            decreases self.artifacts@.len() - i,
        {
            let artifact = &self.artifacts[i];
            let ghost before = texts(out@);
            assert(shown[i as int] == artifact@);
            let mut more = lines_of_artifact(artifact, self.seeding(artifact), style);
            let ghost here = texts(more@);
            out.append(&mut more);
            assert(texts(out@) =~= before + here);
            assert(shown.take(i + 1).drop_last() =~= shown.take(i as int));
            i += 1;
            assert(texts(out@) =~= head + artifacts_lines(
                shown.take(i as int),
                self.local,
                style,
            ));
        }
        assert(shown.take(i as int) =~= shown);
        assert(texts(out@) =~= detailed_lines(self@, style));
        out
    }

    /// The release in detail.
    pub fn pretty(&self, style: Style) -> (r: String)
        ensures
            r@ == unlines(detailed_lines(self@, style)),
    {
        let lines = self.detailed(style);
        lines_to_text(&lines)
    }
}

/// The line between two releases.
pub open spec fn rule_line(style: Style) -> Seq<char> {
    style.spec_dim("─────"@)
}

/// The lines of releases in a list, with a rule between each and the next.
pub open spec fn list_lines(releases: Seq<ReleaseShown>, style: Style) -> Seq<Seq<char>>
    decreases releases.len(),
{
    if releases.len() == 0 {
        Seq::empty()
    } else if releases.len() == 1 {
        compact_lines(releases[0], style)
    } else {
        list_lines(releases.drop_last(), style) + seq![rule_line(style)] + compact_lines(
            releases.last(),
            style,
        )
    }
}

/// The lines of releases in detail, with a rule between each and the next.
pub open spec fn detail_lines(releases: Seq<ReleaseShown>, style: Style) -> Seq<Seq<char>>
    decreases releases.len(),
{
    if releases.len() == 0 {
        Seq::empty()
    } else if releases.len() == 1 {
        detailed_lines(releases[0], style)
    } else {
        detail_lines(releases.drop_last(), style) + seq![rule_line(style)] + detailed_lines(
            releases.last(),
            style,
        )
    }
}

/// The number of artifacts of releases.
pub open spec fn artifact_count(releases: Seq<ReleaseShown>) -> nat
    decreases releases.len(),
{
    if releases.len() == 0 {
        0
    } else {
        artifact_count(releases.drop_last()) + releases.last().artifacts.len()
    }
}

/// How many releases and artifacts there are.
pub open spec fn summary_text(releases: Seq<ReleaseShown>) -> Seq<char> {
    let total = artifact_count(releases);
    decimal_text(releases.len()) + " "@ + (if releases.len() == 1 {
        "release"@
    } else {
        "releases"@
    }) + ", "@ + decimal_text(total) + " "@ + (if total == 1 {
        "artifact"@
    } else {
        "artifacts"@
    })
}

/// The lines of a list of releases: the releases, and at the end how many there are.
pub open spec fn overview_lines(releases: Seq<ReleaseShown>, style: Style) -> Seq<Seq<char>> {
    let summary = style.spec_dim(summary_text(releases));
    if releases.len() == 0 {
        seq![summary]
    } else {
        list_lines(releases, style) + seq![Seq::empty(), summary]
    }
}

impl Releases {
    /// The number of artifacts.
    fn total_artifacts(&self) -> (r: u128)
        ensures
            r == artifact_count(self@),
    {
        let ghost all = self@;
        let mut total: u128 = 0;
        let mut i: usize = 0;
        while i < self.releases.len()
            invariant
                i <= self.releases@.len(),
                all == self@,
                total == artifact_count(all.take(i as int)),
                total <= i * 0xffff_ffff_ffff_ffff,
            decreases self.releases@.len() - i,
        {
            assert(all.take(i + 1).drop_last() =~= all.take(i as int));
            assert(all[i as int] == self.releases@[i as int]@);
            assert(i * 0xffff_ffff_ffff_ffff + 0xffff_ffff_ffff_ffff <= u128::MAX);
            total = total + self.releases[i].artifacts.len() as u128;
            i += 1;
        }
        assert(all.take(i as int) =~= all);
        total
    }

    /// The releases as a list, with a summary.
    pub fn pretty(&self, style: Style) -> (r: String)
        ensures
            r@ == unlines(overview_lines(self@, style)),
    {
        let ghost all = self@;
        let mut out: Vec<String> = Vec::new();
        assert(texts(out@) =~= list_lines(all.take(0), style));
        let mut i: usize = 0;
        while i < self.releases.len()
            invariant
                i <= self.releases@.len(),
                all == self@,
                texts(out@) == list_lines(all.take(i as int), style),
            decreases self.releases@.len() - i,
        {
            let ghost before = texts(out@);
            assert(all.take(i + 1).drop_last() =~= all.take(i as int));
            assert(all[i as int] == self.releases@[i as int]@);
            if i > 0 {
                out.push(style.dim("─────"));
            }
            let mut more = self.releases[i].compact(style);
            let ghost here = texts(more@);
            out.append(&mut more);
            assert(i == 0 ==> texts(out@) =~= here);
            assert(i > 0 ==> texts(out@) =~= before + seq![rule_line(style)] + here);
            i += 1;
        }
        assert(all.take(i as int) =~= all);
        if self.releases.len() > 0 {
            out.push(String::new());
        }
        let total: u128 = self.total_artifacts();
        let releases = decimal(self.releases.len() as u64);
        let artifacts = crate::text::decimal_wide(total);
        let mut summary = cat3(
            releases.as_str(),
            " ",
            if self.releases.len() == 1 {
                "release"
            } else {
                "releases"
            },
        );
        summary.append(", ");
        summary.append(artifacts.as_str());
        summary.append(" ");
        summary.append(
            if total == 1 {
                "artifact"
            } else {
                "artifacts"
            },
        );
        assert(summary@ =~= summary_text(all));
        out.push(style.dim(summary.as_str()));
        assert(texts(out@) =~= overview_lines(all, style));
        lines_to_text(&out)
    }

    /// The releases in detail.
    pub fn pretty_detailed(&self, style: Style) -> (r: String)
        ensures
            r@ == unlines(detail_lines(self@, style)),
    {
        let ghost all = self@;
        let mut out: Vec<String> = Vec::new();
        assert(texts(out@) =~= detail_lines(all.take(0), style));
        let mut i: usize = 0;
        while i < self.releases.len()
            invariant
                i <= self.releases@.len(),
                all == self@,
                texts(out@) == detail_lines(all.take(i as int), style),
            decreases self.releases@.len() - i,
        {
            let ghost before = texts(out@);
            assert(all.take(i + 1).drop_last() =~= all.take(i as int));
            assert(all[i as int] == self.releases@[i as int]@);
            if i > 0 {
                out.push(style.dim("─────"));
            }
            let mut more = self.releases[i].detailed(style);
            let ghost here = texts(more@);
            out.append(&mut more);
            assert(i == 0 ==> texts(out@) =~= here);
            assert(i > 0 ==> texts(out@) =~= before + seq![rule_line(style)] + here);
            i += 1;
        }
        assert(all.take(i as int) =~= all);
        lines_to_text(&out)
    }
}

/// An artifact is marked as offered by the local user exactly where that user contributed,
/// under their own name, a URL of an endpoint that has no host or spells their own key, and
/// the key is one of an endpoint.
pub proof fn law_only_own_locations_mark_an_artifact(local: Option<Did>, a: ArtifactShown)
    ensures
        seeded_locally(local, a) <==> exists|i: int|
            {
                let (_, did, url) = #[trigger] a.locations[i];
                &&& 0 <= i < a.locations.len()
                &&& local == Some(did)
                &&& curve_point(did.key.hi, did.key.lo)
                &&& scheme_of(url) == "radiroh"@
                &&& url_host(url) is None || url_host(url) == Some(base32_text(did.key))
            },
{
    if let Some(did) = local {
        let me = EndpointId { key: did.key };
        assert forall|i: int| 0 <= i < a.locations.len() implies (me.matches(
            (#[trigger] a.locations[i]).2,
        ) <==> scheme_of(a.locations[i].2) == "radiroh"@ && match url_host(a.locations[i].2) {
            None => true,
            Some(host) => host == base32_text(did.key) && curve_point(did.key.hi, did.key.lo),
        }) by {
            law_own_urls_are_recognized(me, a.locations[i].2);
        }
        if seeded_locally(local, a) {
            let i = choose|i: int|
                0 <= i < a.locations.len() && (#[trigger] a.locations[i]).1 == did && me.matches(
                    a.locations[i].2,
                );
            assert(a.locations[i].1 == did);
        }
    }
}

/// One location more counts under its own scheme and under no other.
pub proof fn law_a_location_counts_under_its_scheme(
    locations: Seq<(Option<Seq<char>>, Did, Seq<char>)>,
    l: (Option<Seq<char>>, Did, Seq<char>),
    scheme: Seq<char>,
)
    ensures
        scheme_count(Seq::empty(), scheme) == 0,
        scheme_count(locations.push(l), scheme) == scheme_count(locations, scheme) + (if scheme_of(
            l.2,
        ) == scheme {
            1nat
        } else {
            0nat
        }),
{
    reveal(Seq::filter);
    assert(locations.push(l).drop_last() =~= locations);
}

/// The artifacts of releases are counted one by one.
pub proof fn law_artifacts_are_counted(releases: Seq<ReleaseShown>, last: ReleaseShown)
    ensures
        artifact_count(Seq::empty()) == 0,
        artifact_count(releases.push(last)) == artifact_count(releases) + last.artifacts.len(),
{
    assert(releases.push(last).drop_last() =~= releases);
}

/// The lines of one contributor are among those of all, wherever the contributor stands.
proof fn lemma_providers(
    locations: Seq<(Option<Seq<char>>, Did, Seq<char>)>,
    n: int,
    i: int,
    style: Style,
    line: Seq<char>,
)
    requires
        0 <= i < n <= locations.len(),
        provider_lines(locations, i, style).contains(line),
    ensures
        providers_lines(locations, n, style).contains(line),
    decreases n,
{
    lemma_add_has(
        providers_lines(locations, n - 1, style),
        provider_lines(locations, n - 1, style),
        line,
    );
    if i < n - 1 {
        lemma_providers(locations, n - 1, i, style, line);
    }
}

/// The first place of a contributor among locations.
proof fn lemma_first_of_contributor(
    locations: Seq<(Option<Seq<char>>, Did, Seq<char>)>,
    k: int,
) -> (i: int)
    requires
        0 <= k < locations.len(),
    ensures
        0 <= i <= k,
        locations[i].1 == locations[k].1,
        forall|j: int| 0 <= j < i ==> (#[trigger] locations[j]).1 != locations[k].1,
    decreases k,
{
    if exists|j: int| 0 <= j < k && (#[trigger] locations[j]).1 == locations[k].1 {
        let j = choose|j: int| 0 <= j < k && (#[trigger] locations[j]).1 == locations[k].1;
        lemma_first_of_contributor(locations, j)
    } else {
        k
    }
}

/// Every location of an artifact is shown in detail, whoever contributed it.
pub proof fn law_every_location_is_shown(a: ArtifactShown, style: Style, k: int)
    requires
        0 <= k < a.locations.len(),
    ensures
        location_lines(a, style).contains("        "@ + a.locations[k].2),
{
    let all = a.locations;
    let did = all[k].1;
    let i = lemma_first_of_contributor(all, k);
    let own = all.filter(|l: (Option<Seq<char>>, Did, Seq<char>)| l.1 == did);
    let f = |l: (Option<Seq<char>>, Did, Seq<char>)| "        "@ + l.2;
    lemma_filter_has(all, |l: (Option<Seq<char>>, Did, Seq<char>)| l.1 == did, all[k]);
    assert(all.contains(all[k]));
    lemma_map_contains(own, f);
    let line = f(all[k]);
    assert(own.map_values(f).contains(line));
    let head = seq!["      "@ + style.spec_dim(did_shown(did, all[i].0, style.verbose))];
    lemma_add_has(head, own.map_values(f), line);
    assert(provider_lines(all, i, style) == head + own.map_values(f));
    lemma_providers(all, all.len() as int, i, style, line);
    lemma_add_has(
        seq!["    "@ + style.spec_dim("locations"@)],
        providers_lines(all, all.len() as int, style),
        line,
    );
}

proof fn lemma_artifacts_lines(
    artifacts: Seq<ArtifactShown>,
    local: Option<Did>,
    style: Style,
    i: int,
    line: Seq<char>,
)
    requires
        0 <= i < artifacts.len(),
        artifact_lines(artifacts[i], local, style).contains(line),
    ensures
        artifacts_lines(artifacts, local, style).contains(line),
    decreases artifacts.len(),
{
    let rest = artifacts.drop_last();
    lemma_add_has(
        artifacts_lines(rest, local, style),
        artifact_lines(artifacts.last(), local, style),
        line,
    );
    if i < rest.len() {
        lemma_artifacts_lines(rest, local, style, i, line);
    }
}

/// A release in detail shows every line of every artifact of it, and an artifact shows
/// every line on its locations, its attestations, its redactions and its metadata.
pub proof fn law_a_release_is_shown_with_every_artifact(
    r: ReleaseShown,
    style: Style,
    i: int,
    line: Seq<char>,
)
    requires
        0 <= i < r.artifacts.len(),
        location_lines(r.artifacts[i], style).contains(line) || attestation_lines(
            r.artifacts[i],
            style,
        ).contains(line) || redaction_lines(r.artifacts[i], style).contains(line)
            || metadata_lines(r.artifacts[i], style).contains(line),
    ensures
        artifact_lines(r.artifacts[i], r.local, style).contains(line),
        detailed_lines(r, style).contains(line),
{
    let a = r.artifacts[i];
    let top = seq![
        Seq::empty(),
        artifact_heading(a, r.local, style),
        "    "@ + label_text("cid"@, 14, style) + style.spec_magenta(a.cid),
        "    "@ + label_text("author"@, 14, style) + did_shown(
            a.author,
            a.author_alias,
            style.verbose,
        ),
    ];
    let (l, t, x, m) = (
        location_lines(a, style),
        attestation_lines(a, style),
        redaction_lines(a, style),
        metadata_lines(a, style),
    );
    lemma_add_has(top, l, line);
    lemma_add_has(top + l, t, line);
    lemma_add_has(top + l + t, x, line);
    lemma_add_has(top + l + t + x, m, line);
    lemma_artifacts_lines(r.artifacts, r.local, style, i, line);
    let items = if r.artifacts.len() == 1 {
        "item"@
    } else {
        "items"@
    };
    let heading = "Artifacts ("@ + decimal_text(r.artifacts.len()) + " "@ + items + ")"@;
    lemma_add_has(
        seq![header_text(r, style)] + id_lines(r, style) + seq![
            Seq::empty(),
            "  "@ + style.spec_bold(heading),
        ],
        artifacts_lines(r.artifacts, r.local, style),
        line,
    );
}

/// Every attestation, every redaction and every metadata entry of an artifact has a line.
pub proof fn law_every_statement_has_a_line(a: ArtifactShown, style: Style)
    ensures
        a.attestations.len() > 0 ==> attestation_lines(a, style).len() == a.attestations.len() + 1,
        a.redactions.len() > 0 ==> redaction_lines(a, style).len() == a.redactions.len() + 1,
        a.metadata.len() > 0 ==> metadata_lines(a, style).len() == a.metadata.len() + 1,
        forall|i: int|
            0 <= i < a.redactions.len() ==> redaction_lines(a, style)[i + 1] == redaction_line(
                #[trigger] a.redactions[i],
                style,
            ),
        forall|i: int|
            0 <= i < a.metadata.len() ==> metadata_lines(a, style)[i + 1] == "      "@
                + style.spec_cyan((#[trigger] a.metadata[i]).0) + " = "@ + value_shown(
                a.metadata[i].0,
                a.metadata[i].1,
            ),
{
}

/// A list of releases shows every line of every release, in a list and in detail.
pub proof fn law_a_list_shows_every_release(
    releases: Seq<ReleaseShown>,
    style: Style,
    i: int,
    line: Seq<char>,
)
    requires
        0 <= i < releases.len(),
    ensures
        compact_lines(releases[i], style).contains(line) ==> list_lines(releases, style).contains(
            line,
        ) && overview_lines(releases, style).contains(line),
        detailed_lines(releases[i], style).contains(line) ==> detail_lines(
            releases,
            style,
        ).contains(line),
    decreases releases.len(),
{
    if releases.len() > 1 {
        let rest = releases.drop_last();
        let last = releases.last();
        if i < rest.len() {
            law_a_list_shows_every_release(rest, style, i, line);
        }
        let rule = seq![rule_line(style)];
        lemma_add_has(list_lines(rest, style), rule, line);
        lemma_add_has(list_lines(rest, style) + rule, compact_lines(last, style), line);
        lemma_add_has(detail_lines(rest, style), rule, line);
        lemma_add_has(detail_lines(rest, style) + rule, detailed_lines(last, style), line);
    }
    let summary = style.spec_dim(summary_text(releases));
    lemma_add_has(list_lines(releases, style), seq![Seq::empty(), summary], line);
}

} // verus!
