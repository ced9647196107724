//! Releases in the form in which they are shown.

use crate::display::{alias_of, aliases_view, opt_text, resolve};
use crate::ids::{Cid, Did, Oid, ReleaseId};
use crate::json::Json;
use crate::location::Url;
use crate::order::{
    by_label, law_by_label_is_a_sorting, law_newest_first_is_a_sorting, newest_first,
    sort_by_label, sort_newest_first, Stamped,
};
use crate::release::{finite_locations, list_view, listing, ArtifactView, ReleaseView};
use crate::retrieval::lemma_listing;
use crate::seqs::{
    lemma_filter_contains, lemma_filter_empty, lemma_filter_len, lemma_filter_step,
    lemma_map_contains,
};
use crate::sorted::{
    in_order, lemma_finite_in_order, lemma_keys_in_order, map_of, SortedMap, SortedSet,
};
use crate::text::{lines_of, split_lines, text_lt, texts, trim, without_outer_space};
use crate::trust::{counted, counted_redactions};
use vstd::prelude::*;

verus! {

/// Which artifacts are shown.
pub struct Filters<'a> {
    /// The delegates of the repository.
    pub delegates: &'a SortedSet<Did>,
    /// Whether artifacts are shown that their author or a delegate has redacted.
    pub redacted: bool,
    /// Whether artifacts of authors are shown who are not delegates.
    pub all_authors: bool,
    /// The local user, whose artifacts are always shown.
    pub local: Option<Did>,
}

/// Whether an artifact is shown.
pub open spec fn visible(
    a: ArtifactView,
    delegates: Set<Did>,
    redacted: bool,
    all_authors: bool,
    local: Option<Did>,
) -> bool {
    &&& redacted || counted(a.redactions, a.author, delegates) == Map::<Did, Seq<char>>::empty()
    &&& all_authors || delegates.contains(a.author) || local == Some(a.author)
}

/// A location as shown.
pub struct Location {
    pub alias: Option<String>,
    pub did: Did,
    pub url: Url,
}

/// An attestation as shown.
pub struct Attestation {
    pub alias: Option<String>,
    pub did: Did,
}

/// A redaction as shown.
pub struct Redaction {
    pub alias: Option<String>,
    pub did: Did,
    pub reason: String,
}

/// An artifact as shown.
pub struct Artifact {
    pub cid: String,
    pub author_alias: Option<String>,
    pub author: Did,
    pub name: String,
    pub locations: Vec<Location>,
    pub attestations: Vec<Attestation>,
    pub redactions: Vec<Redaction>,
    pub metadata: Vec<(String, Json)>,
}

/// What is shown of an artifact.
#[verifier::ext_equal]
pub struct ArtifactShown {
    pub cid: Seq<char>,
    pub author_alias: Option<Seq<char>>,
    pub author: Did,
    pub name: Seq<char>,
    pub locations: Seq<(Option<Seq<char>>, Did, Seq<char>)>,
    pub attestations: Seq<(Option<Seq<char>>, Did)>,
    pub redactions: Seq<(Option<Seq<char>>, Did, Seq<char>)>,
    pub metadata: Seq<(Seq<char>, Seq<char>)>,
}

impl View for Location {
    type V = (Option<Seq<char>>, Did, Seq<char>);

    open spec fn view(&self) -> (Option<Seq<char>>, Did, Seq<char>) {
        (opt_text(self.alias), self.did, self.url@)
    }
}

impl View for Attestation {
    type V = (Option<Seq<char>>, Did);

    open spec fn view(&self) -> (Option<Seq<char>>, Did) {
        (opt_text(self.alias), self.did)
    }
}

impl View for Redaction {
    type V = (Option<Seq<char>>, Did, Seq<char>);

    open spec fn view(&self) -> (Option<Seq<char>>, Did, Seq<char>) {
        (opt_text(self.alias), self.did, self.reason@)
    }
}

impl View for Artifact {
    type V = ArtifactShown;

    open spec fn view(&self) -> ArtifactShown {
        ArtifactShown {
            cid: self.cid@,
            author_alias: opt_text(self.author_alias),
            author: self.author,
            name: self.name@,
            locations: self.locations@.map_values(|l: Location| l@),
            attestations: self.attestations@.map_values(|a: Attestation| a@),
            redactions: self.redactions@.map_values(|r: Redaction| r@),
            metadata: self.metadata@.map_values(|e: (String, Json)| (e.0@, e.1@)),
        }
    }
}

/// What is shown of an artifact: its locations by contributor and URL, and the rest by
/// user or by key.
pub open spec fn artifact_shown(
    cid: Cid,
    a: ArtifactView,
    aliases: Map<Did, Seq<char>>,
) -> ArtifactShown {
    ArtifactShown {
        cid: cid.text(),
        author_alias: alias_of(a.author, aliases),
        author: a.author,
        name: a.name,
        locations: listing(a.locations).map_values(
            |e: (Did, Seq<char>)| (alias_of(e.0, aliases), e.0, e.1),
        ),
        attestations: in_order::<Did>(a.attestations).map_values(
            |d: Did| (alias_of(d, aliases), d),
        ),
        redactions: in_order::<Did>(a.redactions.dom()).map_values(
            |d: Did| (alias_of(d, aliases), d, a.redactions[d]),
        ),
        metadata: in_order::<String>(a.metadata.dom()).map_values(
            |k: Seq<char>| (k, a.metadata[k]),
        ),
    }
}

fn show_locations(a: &crate::release::Artifact, aliases: &SortedMap<Did, String>) -> (r: Vec<
    Location,
>)
    ensures
        r@.map_values(|l: Location| l@) == listing(a@.locations).map_values(
            |e: (Did, Seq<char>)| (alias_of(e.0, aliases_view(*aliases)), e.0, e.1),
        ),
{
    let located = a.located();
    let ghost all = listing(a@.locations);
    let ghost names = aliases_view(*aliases);
    let mut out: Vec<Location> = Vec::new();
    let mut i: usize = 0;
    while i < located.len()
        invariant
            i <= located@.len(),
            list_view(located@) == all,
            names == aliases_view(*aliases),
            out@.len() == i,
            forall|k: int|
                0 <= k < i ==> (#[trigger] out@[k])@ == (
                    alias_of(all[k].0, names),
                    all[k].0,
                    all[k].1,
                ),
        decreases located@.len() - i,
    {
        let (did, url) = located[i];
        assert(list_view(located@)[i as int] == (did, url@));
        out.push(Location { alias: resolve(&did, aliases), did, url: url.clone() });
        i += 1;
    }
    assert(out@.map_values(|l: Location| l@) =~= all.map_values(
        |e: (Did, Seq<char>)| (alias_of(e.0, names), e.0, e.1),
    ));
    out
}

fn show_attestations(a: &crate::release::Artifact, aliases: &SortedMap<Did, String>) -> (r: Vec<
    Attestation,
>)
    ensures
        r@.map_values(|x: Attestation| x@) == in_order::<Did>(a@.attestations).map_values(
            |d: Did| (alias_of(d, aliases_view(*aliases)), d),
        ),
{
    let members = a.attestations().members();
    let ghost all = in_order::<Did>(a@.attestations);
    let ghost names = aliases_view(*aliases);
    let mut out: Vec<Attestation> = Vec::new();
    let mut i: usize = 0;
    while i < members.len()
        invariant
            i <= members@.len(),
            members@.map_values(|k: &Did| k@) == all,
            names == aliases_view(*aliases),
            out@.len() == i,
            forall|k: int|
                0 <= k < i ==> (#[trigger] out@[k])@ == (alias_of(all[k], names), all[k]),
        decreases members@.len() - i,
    {
        let did = *members[i];
        assert(members@.map_values(|k: &Did| k@)[i as int] == did);
        out.push(Attestation { alias: resolve(&did, aliases), did });
        i += 1;
    }
    assert(out@.map_values(|x: Attestation| x@) =~= all.map_values(
        |d: Did| (alias_of(d, names), d),
    ));
    out
}

fn show_redactions(a: &crate::release::Artifact, aliases: &SortedMap<Did, String>) -> (r: Vec<
    Redaction,
>)
    ensures
        r@.map_values(|x: Redaction| x@) == in_order::<Did>(a@.redactions.dom()).map_values(
            |d: Did| (alias_of(d, aliases_view(*aliases)), d, a@.redactions[d]),
        ),
{
    let map = a.redactions();
    let ghost s = map.seq();
    let ghost all = in_order::<Did>(a@.redactions.dom());
    let ghost names = aliases_view(*aliases);
    proof {
        use_type_invariant(map);
        lemma_keys_in_order(s);
        assert(a@.redactions.dom() =~= map_of(s).dom());
    }
    let mut out: Vec<Redaction> = Vec::new();
    let mut i: usize = 0;
    while i < map.len()
        invariant
            i <= s.len(),
            s == map.seq(),
            all == s.map_values(|e: (Did, String)| e.0@),
            a@.redactions == map@.map_values(|s: String| s@),
            forall|j: int|
                0 <= j < s.len() ==> map@.contains_key(#[trigger] s[j].0@) && map@[s[j].0@]
                    == s[j].1,
            names == aliases_view(*aliases),
            out@.len() == i,
            forall|k: int|
                0 <= k < i ==> (#[trigger] out@[k])@ == (
                    alias_of(all[k], names),
                    all[k],
                    a@.redactions[all[k]],
                ),
        decreases s.len() - i,
    {
        let did = *map.key_at(i);
        assert(s[i as int].0@ == did);
        assert(all[i as int] == did);
        out.push(
            Redaction { alias: resolve(&did, aliases), did, reason: map.value_of(i).clone() },
        );
        i += 1;
    }
    assert(out@.map_values(|x: Redaction| x@) =~= all.map_values(
        |d: Did| (alias_of(d, names), d, a@.redactions[d]),
    ));
    out
}

fn show_metadata(a: &crate::release::Artifact) -> (r: Vec<(String, Json)>)
    ensures
        r@.map_values(|e: (String, Json)| (e.0@, e.1@)) == in_order::<String>(
            a@.metadata.dom(),
        ).map_values(|k: Seq<char>| (k, a@.metadata[k])),
{
    let map = a.metadata();
    let ghost s = map.seq();
    let ghost all = in_order::<String>(a@.metadata.dom());
    proof {
        use_type_invariant(map);
        lemma_keys_in_order(s);
        assert(a@.metadata.dom() =~= map_of(s).dom());
    }
    let mut out: Vec<(String, Json)> = Vec::new();
    let mut i: usize = 0;
    while i < map.len()
        invariant
            i <= s.len(),
            s == map.seq(),
            all == s.map_values(|e: (String, Json)| e.0@),
            a@.metadata == map@.map_values(|v: Json| v@),
            forall|j: int|
                0 <= j < s.len() ==> map@.contains_key(#[trigger] s[j].0@) && map@[s[j].0@]
                    == s[j].1,
            out@.len() == i,
            forall|k: int|
                0 <= k < i ==> ((#[trigger] out@[k]).0@, out@[k].1@) == (
                    all[k],
                    a@.metadata[all[k]],
                ),
        decreases s.len() - i,
    {
        assert(all[i as int] == s[i as int].0@);
        out.push((map.key_at(i).clone(), map.value_of(i).clone()));
        i += 1;
    }
    assert(out@.map_values(|e: (String, Json)| (e.0@, e.1@)) =~= all.map_values(
        |k: Seq<char>| (k, a@.metadata[k]),
    ));
    out
}

/// An artifact in the form in which it is shown.
fn show_artifact(
    cid: &Cid,
    a: &crate::release::Artifact,
    aliases: &SortedMap<Did, String>,
) -> (r: Artifact)
    ensures
        r@ == artifact_shown(*cid, a@, aliases_view(*aliases)),
{
    let r = Artifact {
        cid: cid.to_text(),
        author_alias: resolve(a.author(), aliases),
        author: *a.author(),
        name: a.name().to_owned(),
        locations: show_locations(a, aliases),
        attestations: show_attestations(a, aliases),
        redactions: show_redactions(a, aliases),
        metadata: show_metadata(a),
    };
    assert(r@ =~= artifact_shown(*cid, a@, aliases_view(*aliases)));
    r
}

/// A release as shown.
pub struct Release {
    pub release_id: ReleaseId,
    pub created_at: u64,
    pub oid: Oid,
    pub tag: Option<Oid>,
    /// The name of the tag, such as `v1.0`.
    pub tag_name: Option<String>,
    /// The first line of the message of the tag or the commit.
    pub title: Option<String>,
    pub creator: Did,
    pub creator_alias: Option<String>,
    pub artifacts: Vec<Artifact>,
    /// The local user.
    pub local: Option<Did>,
}

/// What is shown of a release.
#[verifier::ext_equal]
pub struct ReleaseShown {
    pub release_id: ReleaseId,
    pub created_at: u64,
    pub oid: Oid,
    pub tag: Option<Oid>,
    pub tag_name: Option<Seq<char>>,
    pub title: Option<Seq<char>>,
    pub creator: Did,
    pub creator_alias: Option<Seq<char>>,
    pub artifacts: Seq<ArtifactShown>,
    pub local: Option<Did>,
}

impl View for Release {
    type V = ReleaseShown;

    open spec fn view(&self) -> ReleaseShown {
        ReleaseShown {
            release_id: self.release_id,
            created_at: self.created_at,
            oid: self.oid,
            tag: self.tag,
            tag_name: opt_text(self.tag_name),
            title: opt_text(self.title),
            creator: self.creator,
            creator_alias: opt_text(self.creator_alias),
            artifacts: self.artifacts@.map_values(|a: Artifact| a@),
            local: self.local,
        }
    }
}

/// The artifacts that are shown, in the order of registration.
pub open spec fn visible_artifacts(
    r: ReleaseView,
    delegates: Set<Did>,
    redacted: bool,
    all_authors: bool,
    local: Option<Did>,
) -> Seq<(Cid, ArtifactView)> {
    r.artifacts.filter(
        |e: (Cid, ArtifactView)| visible(e.1, delegates, redacted, all_authors, local),
    )
}

/// The artifacts in the order of their identifiers as text.
pub open spec fn by_cid(
    artifacts: Seq<(Cid, ArtifactView)>,
    aliases: Map<Did, Seq<char>>,
) -> Seq<ArtifactShown> {
    by_label(artifacts.map_values(|e: (Cid, ArtifactView)| e.0.text())).map_values(
        |k: (Seq<char>, usize)|
            artifact_shown(artifacts[k.1 as int].0, artifacts[k.1 as int].1, aliases),
    )
}

/// What is shown of a release: the artifacts that the filters let through, in the order
/// of their identifiers.
pub open spec fn release_shown(
    id: ReleaseId,
    r: ReleaseView,
    aliases: Map<Did, Seq<char>>,
    delegates: Set<Did>,
    redacted: bool,
    all_authors: bool,
    local: Option<Did>,
    title: Option<Seq<char>>,
    tag_name: Option<Seq<char>>,
) -> ReleaseShown {
    ReleaseShown {
        release_id: id,
        created_at: r.timestamp,
        oid: r.oid,
        tag: r.tag,
        tag_name,
        title,
        creator: r.creator,
        creator_alias: alias_of(r.creator, aliases),
        artifacts: by_cid(
            visible_artifacts(r, delegates, redacted, all_authors, local),
            aliases,
        ),
        local,
    }
}

impl<'a> Filters<'a> {
    /// Whether an artifact is shown.
    pub fn shows(&self, artifact: &crate::release::Artifact) -> (r: bool)
        ensures
            r == visible(
                artifact@,
                self.delegates@,
                self.redacted,
                self.all_authors,
                self.local,
            ),
    {
        if !self.redacted {
            let kept = counted_redactions(
                artifact.redactions(),
                artifact.author(),
                self.delegates,
            );
            let none = kept.is_empty();
            proof {
                let m = kept@.map_values(|s: String| s@);
                if none {
                    assert(m =~= Map::<Did, Seq<char>>::empty());
                } else if m == Map::<Did, Seq<char>>::empty() {
                    assert forall|k: Did| !#[trigger] kept@.contains_key(k) by {
                        assert(!m.contains_key(k));
                    }
                    assert(kept@ =~= Map::empty());
                }
            }
            if !none {
                return false;
            }
        }
        self.all_authors || self.delegates.contains(artifact.author()) || self.local == Some(
            *artifact.author(),
        )
    }
}

impl Release {
    /// A release in the form in which it is shown. `aliases` are what users are called,
    /// `title` is the first line of the message of the tag or the commit, and
    /// `tag_name` is the name of the tag.
    pub fn new(
        release_id: ReleaseId,
        release: &crate::release::Release,
        aliases: &SortedMap<Did, String>,
        filters: &Filters<'_>,
        title: Option<String>,
        tag_name: Option<String>,
    ) -> (r: Release)
        ensures
            r@ == release_shown(
                release_id,
                release@,
                aliases_view(*aliases),
                filters.delegates@,
                filters.redacted,
                filters.all_authors,
                filters.local,
                opt_text(title),
                opt_text(tag_name),
            ),
    {
        let ghost keep = |e: (Cid, ArtifactView)|
            visible(
                e.1,
                filters.delegates@,
                filters.redacted,
                filters.all_authors,
                filters.local,
            );
        let ghost plain = |e: (Cid, &crate::release::Artifact)| (e.0, e.1@);
        let ghost names = aliases_view(*aliases);
        let ghost all = release@.artifacts;
        let mut kept: Vec<(Cid, &crate::release::Artifact)> = Vec::new();
        let mut labels: Vec<String> = Vec::new();
        proof {
            lemma_filter_empty(all, keep);
            assert(kept@.map_values(plain) =~= Seq::empty());
        }
        let mut i: usize = 0;
        while i < release.len()
            invariant
                i <= all.len(),
                all == release@.artifacts,
                keep == (|e: (Cid, ArtifactView)|
                    visible(
                        e.1,
                        filters.delegates@,
                        filters.redacted,
                        filters.all_authors,
                        filters.local,
                    )),
                plain == (|e: (Cid, &crate::release::Artifact)| (e.0, e.1@)),
                kept@.map_values(plain) == all.take(i as int).filter(keep),
                texts(labels@) == kept@.map_values(plain).map_values(
                    |e: (Cid, ArtifactView)| e.0.text(),
                ),
            decreases all.len() - i,
        {
            let (cid, artifact) = release.at(i);
            let ghost before = kept@;
            let ghost labels_before = texts(labels@);
            proof {
                lemma_filter_step(all, i as int, keep);
            }
            if filters.shows(artifact) {
                kept.push((cid, artifact));
                labels.push(cid.to_text());
                assert(kept@.map_values(plain) =~= before.map_values(plain).push(
                    (cid, artifact@),
                ));
                assert(texts(labels@) =~= labels_before.push(cid.text()));
            }
            i += 1;
            assert(texts(labels@) =~= kept@.map_values(plain).map_values(
                |e: (Cid, ArtifactView)| e.0.text(),
            ));
        }
        assert(all.take(i as int) =~= all);
        let ghost seen = kept@.map_values(plain);
        let order = sort_by_label(&labels);
        let ghost places = by_label(seen.map_values(|e: (Cid, ArtifactView)| e.0.text()));
        let mut artifacts: Vec<Artifact> = Vec::new();
        let mut j: usize = 0;
        while j < order.len()
            invariant
                j <= order@.len(),
                plain == (|e: (Cid, &crate::release::Artifact)| (e.0, e.1@)),
                seen == kept@.map_values(plain),
                names == aliases_view(*aliases),
                order@ == places.map_values(|k: (Seq<char>, usize)| k.1),
                forall|k: int| 0 <= k < order@.len() ==> (#[trigger] order@[k]) < kept@.len(),
                artifacts@.len() == j,
                forall|k: int|
                    0 <= k < j ==> (#[trigger] artifacts@[k])@ == artifact_shown(
                        seen[places[k].1 as int].0,
                        seen[places[k].1 as int].1,
                        names,
                    ),
            decreases order@.len() - j,
        {
            let (cid, artifact) = kept[order[j]];
            assert(seen[places[j as int].1 as int] == (cid, artifact@));
            artifacts.push(show_artifact(&cid, artifact, aliases));
            j += 1;
        }
        assert(artifacts@.map_values(|a: Artifact| a@) =~= by_cid(seen, names));
        let creator = *release.creator();
        Release {
            release_id,
            created_at: release.timestamp(),
            oid: *release.oid(),
            tag: release.tag(),
            tag_name,
            title,
            creator,
            creator_alias: resolve(&creator, aliases),
            artifacts,
            local: filters.local,
        }
    }
}

/// The first of some lines that is not blank, without the space around it.
pub open spec fn first_filled(lines: Seq<Seq<char>>) -> Option<Seq<char>>
    decreases lines.len(),
{
    if lines.len() == 0 {
        None
    } else if trim(lines[0]).len() > 0 {
        Some(trim(lines[0]))
    } else {
        first_filled(lines.drop_first())
    }
}

/// The title that the message of an annotated tag gives: its first line that is not
/// blank, or the summary of the commit that the tag leads to where there is no such line.
pub open spec fn tag_title_spec(
    message: Option<Seq<char>>,
    summary: Option<Seq<char>>,
) -> Option<Seq<char>> {
    match message {
        Some(m) => match first_filled(lines_of(m)) {
            Some(line) => Some(line),
            None => summary,
        },
        None => summary,
    }
}

/// The title of an annotated tag. `message` is its message, and `summary` is the summary
/// of the commit that it leads to.
pub fn tag_title(message: Option<&str>, summary: Option<String>) -> (r: Option<String>)
    ensures
        opt_text(r) == tag_title_spec(
            match message {
                Some(m) => Some(m@),
                None => None,
            },
            opt_text(summary),
        ),
{
    let Some(m) = message else {
        return summary;
    };
    let lines = split_lines(m);
    let ghost all = lines_of(m@);
    let mut i: usize = 0;
    assert(all.skip(0) =~= all);
    while i < lines.len()
        invariant
            i <= lines@.len(),
            message == Some(m),
            all == lines_of(m@),
            texts(lines@) == all,
            first_filled(all) == first_filled(all.skip(i as int)),
        decreases lines@.len() - i,
    {
        let title = without_outer_space(lines[i].as_str());
        proof {
            assert(all[i as int] == lines@[i as int]@);
            assert(all.skip(i as int)[0] == all[i as int]);
            assert(all.skip(i as int).drop_first() =~= all.skip(i + 1));
        }
        if !title.as_str().is_empty() {
            return Some(title);
        }
        i += 1;
    }
    assert(all.skip(i as int).len() == 0);
    summary
}

/// A release to be shown, with what the repository says of its commit and its tag.
pub struct ReleaseItem<'a> {
    pub id: ReleaseId,
    pub release: &'a crate::release::Release,
    /// The title of the tag, where the release has one and the repository has it.
    pub tag_title: Option<String>,
    /// The title of the commit, where the repository has it.
    pub commit_title: Option<String>,
    /// The name of the tag, where the repository has it.
    pub tag_name: Option<String>,
}

/// What is shown of an item. The title of the tag comes before that of the commit.
pub open spec fn item_shown(
    item: ReleaseItem<'_>,
    aliases: Map<Did, Seq<char>>,
    delegates: Set<Did>,
    redacted: bool,
    all_authors: bool,
    local: Option<Did>,
) -> ReleaseShown {
    let r = item.release@;
    release_shown(
        item.id,
        r,
        aliases,
        delegates,
        redacted,
        all_authors,
        local,
        if r.tag is Some && item.tag_title is Some {
            opt_text(item.tag_title)
        } else {
            opt_text(item.commit_title)
        },
        if r.tag is Some {
            opt_text(item.tag_name)
        } else {
            None
        },
    )
}

/// The places of the items that are shown: all, or those with an artifact that is shown.
pub open spec fn kept_items(
    items: Seq<ReleaseItem<'_>>,
    delegates: Set<Did>,
    redacted: bool,
    all_authors: bool,
    local: Option<Did>,
    show_empty: bool,
) -> Seq<int> {
    Seq::new(items.len(), |i: int| i).filter(
        |i: int|
            show_empty || visible_artifacts(
                items[i].release@,
                delegates,
                redacted,
                all_authors,
                local,
            ).len() > 0,
    )
}

/// What is shown of items: those that are kept, the newest first.
pub open spec fn items_shown(
    items: Seq<ReleaseItem<'_>>,
    kept: Seq<int>,
    aliases: Map<Did, Seq<char>>,
    delegates: Set<Did>,
    redacted: bool,
    all_authors: bool,
    local: Option<Did>,
) -> Seq<ReleaseShown> {
    newest_first(kept.map_values(|i: int| items[i].release@.timestamp)).map_values(
        |k: Stamped|
            item_shown(
                items[kept[k.index as int]],
                aliases,
                delegates,
                redacted,
                all_authors,
                local,
            ),
    )
}

/// Releases as shown, the newest first.
pub struct Releases {
    pub releases: Vec<Release>,
}

impl View for Releases {
    type V = Seq<ReleaseShown>;

    open spec fn view(&self) -> Seq<ReleaseShown> {
        self.releases@.map_values(|r: Release| r@)
    }
}

impl<'a> Filters<'a> {
    /// Whether any artifact of a release is shown.
    pub fn shows_any(&self, release: &crate::release::Release) -> (r: bool)
        ensures
            r == (visible_artifacts(
                release@,
                self.delegates@,
                self.redacted,
                self.all_authors,
                self.local,
            ).len() > 0),
    {
        let ghost keep = |e: (Cid, ArtifactView)|
            visible(e.1, self.delegates@, self.redacted, self.all_authors, self.local);
        let ghost all = release@.artifacts;
        proof {
            lemma_filter_empty(all, keep);
        }
        let mut any = false;
        let mut i: usize = 0;
        while i < release.len()
            invariant
                i <= all.len(),
                all == release@.artifacts,
                keep == (|e: (Cid, ArtifactView)|
                    visible(e.1, self.delegates@, self.redacted, self.all_authors, self.local)),
                any == (all.take(i as int).filter(keep).len() > 0),
            decreases all.len() - i,
        {
            proof {
                lemma_filter_step(all, i as int, keep);
            }
            let (_, artifact) = release.at(i);
            if self.shows(artifact) {
                any = true;
            }
            i += 1;
        }
        assert(all.take(i as int) =~= all);
        any
    }
}

/// A copy of an optional string.
fn copy_opt(s: &Option<String>) -> (r: Option<String>)
    ensures
        r == *s,
{
    match s {
        Some(s) => Some(s.clone()),
        None => None,
    }
}

impl Releases {
    /// Releases in the form in which they are shown, the newest first. Unless
    /// `show_empty` is given, a release without an artifact that is shown is left out.
    pub fn new(
        items: &Vec<ReleaseItem<'_>>,
        aliases: &SortedMap<Did, String>,
        filters: &Filters<'_>,
        show_empty: bool,
    ) -> (r: Releases)
        ensures
            r@ == items_shown(
                items@,
                kept_items(
                    items@,
                    filters.delegates@,
                    filters.redacted,
                    filters.all_authors,
                    filters.local,
                    show_empty,
                ),
                aliases_view(*aliases),
                filters.delegates@,
                filters.redacted,
                filters.all_authors,
                filters.local,
            ),
    {
        let ghost places = Seq::new(items@.len(), |i: int| i);
        let ghost keep = |i: int|
            show_empty || visible_artifacts(
                items@[i].release@,
                filters.delegates@,
                filters.redacted,
                filters.all_authors,
                filters.local,
            ).len() > 0;
        let ghost time = |i: int| items@[i].release@.timestamp;
        let ghost whole = |i: usize| i as int;
        let mut kept: Vec<usize> = Vec::new();
        let mut times: Vec<u64> = Vec::new();
        proof {
            lemma_filter_empty(places, keep);
            assert(kept@.map_values(whole) =~= Seq::empty());
            assert(times@ =~= kept@.map_values(whole).map_values(time));
        }
        let mut i: usize = 0;
        while i < items.len()
            invariant
                i <= items@.len(),
                places == Seq::new(items@.len(), |i: int| i),
                keep == (|i: int|
                    show_empty || visible_artifacts(
                        items@[i].release@,
                        filters.delegates@,
                        filters.redacted,
                        filters.all_authors,
                        filters.local,
                    ).len() > 0),
                time == (|i: int| items@[i].release@.timestamp),
                whole == (|i: usize| i as int),
                kept@.map_values(whole) == places.take(i as int).filter(keep),
                times@ == kept@.map_values(whole).map_values(time),
                forall|k: int| 0 <= k < kept@.len() ==> (#[trigger] kept@[k]) < items@.len(),
            decreases items@.len() - i,
        {
            let ghost before = kept@;
            proof {
                lemma_filter_step(places, i as int, keep);
            }
            if show_empty || filters.shows_any(items[i].release) {
                kept.push(i);
                times.push(items[i].release.timestamp());
                assert(kept@.map_values(whole) =~= before.map_values(whole).push(i as int));
                assert(times@ =~= kept@.map_values(whole).map_values(time));
            }
            i += 1;
        }
        assert(places.take(i as int) =~= places);
        let ghost seen = kept@.map_values(whole);
        let order = sort_newest_first(&times);
        let ghost names = aliases_view(*aliases);
        let mut releases: Vec<Release> = Vec::new();
        let mut j: usize = 0;
        while j < order.len()
            invariant
                j <= order@.len(),
                whole == (|i: usize| i as int),
                seen == kept@.map_values(whole),
                names == aliases_view(*aliases),
                forall|k: int| 0 <= k < kept@.len() ==> (#[trigger] kept@[k]) < items@.len(),
                forall|k: int|
                    0 <= k < order@.len() ==> (#[trigger] order@[k]).index < kept@.len(),
                releases@.len() == j,
                forall|k: int|
                    0 <= k < j ==> (#[trigger] releases@[k])@ == item_shown(
                        items@[seen[order@[k].index as int]],
                        names,
                        filters.delegates@,
                        filters.redacted,
                        filters.all_authors,
                        filters.local,
                    ),
            decreases order@.len() - j,
        {
            let item = &items[kept[order[j].index]];
            assert(seen[order@[j as int].index as int] == kept@[order@[j as int].index as int]);
            let tagged = item.release.tag().is_some();
            let title = if tagged && item.tag_title.is_some() {
                copy_opt(&item.tag_title)
            } else {
                copy_opt(&item.commit_title)
            };
            let tag_name = if tagged {
                copy_opt(&item.tag_name)
            } else {
                None
            };
            releases.push(
                Release::new(item.id, item.release, aliases, filters, title, tag_name),
            );
            j += 1;
        }
        let r = Releases { releases };
        assert(r@ =~= items_shown(
            items@,
            seen,
            names,
            filters.delegates@,
            filters.redacted,
            filters.all_authors,
            filters.local,
        ));
        r
    }

    /// The releases.
    pub fn into_inner(self) -> (r: Vec<Release>)
        ensures
            r == self.releases,
    {
        self.releases
    }
}

/// An artifact is shown exactly where neither its author nor a delegate has redacted it,
/// or redacted ones are wanted, and its author is a delegate or the local user, or all
/// authors are wanted.
pub proof fn law_filters_show_what_counts(
    a: ArtifactView,
    delegates: Set<Did>,
    redacted: bool,
    all_authors: bool,
    local: Option<Did>,
)
    ensures
        visible(a, delegates, redacted, all_authors, local) <==> (redacted || forall|d: Did|
            #[trigger]
            a.redactions.contains_key(d) ==> d != a.author && !delegates.contains(d)) && (
        all_authors || delegates.contains(a.author) || local == Some(a.author)),
{
    let c = counted(a.redactions, a.author, delegates);
    if forall|d: Did| #[trigger]
        a.redactions.contains_key(d) ==> d != a.author && !delegates.contains(d) {
        assert(c =~= Map::<Did, Seq<char>>::empty());
    } else {
        let d = choose|d: Did| #[trigger]
            a.redactions.contains_key(d) && !(d != a.author && !delegates.contains(d));
        assert(c.contains_key(d));
    }
}

/// What the local user has registered is shown to them whatever authors are wanted and
/// whoever the delegates are, unless someone who may has redacted it.
pub proof fn law_own_artifacts_are_shown(
    a: ArtifactView,
    delegates: Set<Did>,
    redacted: bool,
    all_authors: bool,
)
    requires
        forall|d: Did| #[trigger]
            a.redactions.contains_key(d) ==> d != a.author && !delegates.contains(d),
    ensures
        visible(a, delegates, redacted, all_authors, Some(a.author)),
{
    law_filters_show_what_counts(a, delegates, redacted, all_authors, Some(a.author));
}

/// Wanting more shows more: whoever asks for redacted artifacts or for all authors sees
/// at least what they saw before, and who asks for both sees everything.
pub proof fn law_wanting_more_shows_more(
    a: ArtifactView,
    delegates: Set<Did>,
    redacted: bool,
    all_authors: bool,
    local: Option<Did>,
)
    ensures
        visible(a, delegates, redacted, all_authors, local) ==> visible(
            a,
            delegates,
            true,
            all_authors,
            local,
        ) && visible(a, delegates, redacted, true, local),
        visible(a, delegates, true, true, local),
{
}

/// Whether a list that something was kept of is not empty.
proof fn lemma_some_visible(
    r: ReleaseView,
    delegates: Set<Did>,
    redacted: bool,
    all_authors: bool,
    local: Option<Did>,
)
    ensures
        forall|e: (Cid, ArtifactView)| #[trigger]
            visible_artifacts(r, delegates, redacted, all_authors, local).contains(e)
                <==> r.artifacts.contains(e) && visible(
                e.1,
                delegates,
                redacted,
                all_authors,
                local,
            ),
        visible_artifacts(r, delegates, redacted, all_authors, local).len() > 0 <==> exists|
            cid: Cid,
            a: ArtifactView,
        | #[trigger]
            r.artifacts.contains((cid, a)) && visible(a, delegates, redacted, all_authors, local),
{
    let keep = |e: (Cid, ArtifactView)| visible(e.1, delegates, redacted, all_authors, local);
    let kept = visible_artifacts(r, delegates, redacted, all_authors, local);
    lemma_filter_contains(r.artifacts, keep);
    if kept.len() > 0 {
        let (cid, a) = kept[0];
        assert(kept.contains(kept[0]));
        assert(r.artifacts.contains((cid, a)));
    }
    if exists|cid: Cid, a: ArtifactView| #[trigger]
        r.artifacts.contains((cid, a)) && visible(a, delegates, redacted, all_authors, local) {
        let (cid, a) = choose|cid: Cid, a: ArtifactView| #[trigger]
            r.artifacts.contains((cid, a)) && visible(a, delegates, redacted, all_authors, local);
        assert(kept.contains((cid, a)));
    }
}

/// A release is shown with exactly those of its artifacts that the filters let through:
/// those that neither their author nor a delegate has redacted, unless redacted ones are
/// wanted, and whose author is a delegate or the local user, unless all authors are
/// wanted. They stand in the order of their identifiers, and what else is shown of the
/// release is as the release has it.
pub proof fn law_release_shows_what_counts(
    id: ReleaseId,
    r: ReleaseView,
    aliases: Map<Did, Seq<char>>,
    delegates: Set<Did>,
    redacted: bool,
    all_authors: bool,
    local: Option<Did>,
    title: Option<Seq<char>>,
    tag_name: Option<Seq<char>>,
    x: ArtifactShown,
)
    requires
        r.artifacts.len() <= usize::MAX,
    ensures
        ({
            let s = release_shown(
                id,
                r,
                aliases,
                delegates,
                redacted,
                all_authors,
                local,
                title,
                tag_name,
            );
            &&& s.artifacts.contains(x) <==> exists|cid: Cid, a: ArtifactView|
                {
                    &&& #[trigger] r.artifacts.contains((cid, a))
                    &&& redacted || forall|d: Did| #[trigger]
                        a.redactions.contains_key(d) ==> d != a.author && !delegates.contains(d)
                    &&& all_authors || delegates.contains(a.author) || local == Some(a.author)
                    &&& x == artifact_shown(cid, a, aliases)
                }
            &&& forall|i: int, j: int|
                0 <= i < j < s.artifacts.len() ==> text_lt(
                    (#[trigger] s.artifacts[i]).cid,
                    (#[trigger] s.artifacts[j]).cid,
                ) || s.artifacts[i].cid == s.artifacts[j].cid
            &&& s.release_id == id && s.oid == r.oid && s.tag == r.tag && s.creator == r.creator
            &&& s.created_at == r.timestamp && s.local == local
            &&& s.title == title && s.tag_name == tag_name
            &&& s.creator_alias == (if aliases.contains_key(r.creator) {
                Some(aliases[r.creator])
            } else {
                None
            })
        }),
{
    let kept = visible_artifacts(r, delegates, redacted, all_authors, local);
    let keep = |e: (Cid, ArtifactView)| visible(e.1, delegates, redacted, all_authors, local);
    lemma_filter_len(r.artifacts, keep);
    lemma_some_visible(r, delegates, redacted, all_authors, local);
    assert forall|a: ArtifactView| #[trigger]
        visible(a, delegates, redacted, all_authors, local) <==> (redacted || forall|d: Did|
            #[trigger]
            a.redactions.contains_key(d) ==> d != a.author && !delegates.contains(d)) && (
        all_authors || delegates.contains(a.author) || local == Some(a.author)) by {
        law_filters_show_what_counts(a, delegates, redacted, all_authors, local);
    }
    let labels = kept.map_values(|e: (Cid, ArtifactView)| e.0.text());
    let order = by_label(labels);
    law_by_label_is_a_sorting(labels);
    let f = |k: (Seq<char>, usize)|
        artifact_shown(kept[k.1 as int].0, kept[k.1 as int].1, aliases);
    let out = by_cid(kept, aliases);
    lemma_map_contains(order, f);
    assert(out == order.map_values(f));
    if out.contains(x) {
        let k = choose|k: (Seq<char>, usize)| #[trigger] order.contains(k) && f(k) == x;
        let e = kept[k.1 as int];
        assert(kept.contains(e));
        assert(r.artifacts.contains((e.0, e.1)));
    }
    assert forall|cid: Cid, a: ArtifactView| #[trigger]
        r.artifacts.contains((cid, a)) && visible(a, delegates, redacted, all_authors, local)
            && x == artifact_shown(cid, a, aliases) implies out.contains(x) by {
        assert(kept.contains((cid, a)));
        let i = choose|i: int| 0 <= i < kept.len() && kept[i] == (cid, a);
        let k = (labels[i], i as usize);
        assert(order.contains(k));
        assert(f(k) == x);
    }
    assert forall|i: int, j: int| 0 <= i < j < out.len() implies text_lt(
        (#[trigger] out[i]).cid,
        (#[trigger] out[j]).cid,
    ) || out[i].cid == out[j].cid by {
        assert(order.contains(order[i]) && order.contains(order[j]));
        assert(out[i].cid == order[i].0 && out[j].cid == order[j].0);
    }
}

/// A list of releases shows exactly those that have an artifact to be shown, or all where
/// empty ones are wanted too, and it shows the newest first.
pub proof fn law_list_shows_what_counts(
    items: Seq<ReleaseItem<'_>>,
    aliases: Map<Did, Seq<char>>,
    delegates: Set<Did>,
    redacted: bool,
    all_authors: bool,
    local: Option<Did>,
    show_empty: bool,
    x: ReleaseShown,
)
    requires
        items.len() <= usize::MAX,
    ensures
        ({
            let kept = kept_items(items, delegates, redacted, all_authors, local, show_empty);
            let s = items_shown(items, kept, aliases, delegates, redacted, all_authors, local);
            &&& s.contains(x) <==> exists|i: int|
                {
                    &&& 0 <= i < items.len()
                    &&& x == item_shown(
                        #[trigger] items[i],
                        aliases,
                        delegates,
                        redacted,
                        all_authors,
                        local,
                    )
                    &&& show_empty || exists|cid: Cid, a: ArtifactView|
                        {
                            &&& #[trigger] items[i].release@.artifacts.contains((cid, a))
                            &&& redacted || forall|d: Did| #[trigger]
                                a.redactions.contains_key(d) ==> d != a.author
                                    && !delegates.contains(d)
                            &&& all_authors || delegates.contains(a.author) || local == Some(
                                a.author,
                            )
                        }
                }
            &&& forall|i: int, j: int|
                0 <= i < j < s.len() ==> (#[trigger] s[i]).created_at >= (
                #[trigger] s[j]).created_at
        }),
{
    let places = Seq::new(items.len(), |i: int| i);
    let keep = |i: int|
        show_empty || visible_artifacts(
            items[i].release@,
            delegates,
            redacted,
            all_authors,
            local,
        ).len() > 0;
    let kept = kept_items(items, delegates, redacted, all_authors, local, show_empty);
    lemma_filter_contains(places, keep);
    lemma_filter_len(places, keep);
    assert(kept == places.filter(keep));
    assert forall|a: ArtifactView| #[trigger]
        visible(a, delegates, redacted, all_authors, local) <==> (redacted || forall|d: Did|
            #[trigger]
            a.redactions.contains_key(d) ==> d != a.author && !delegates.contains(d)) && (
        all_authors || delegates.contains(a.author) || local == Some(a.author)) by {
        law_filters_show_what_counts(a, delegates, redacted, all_authors, local);
    }
    assert forall|i: int| 0 <= i < items.len() implies (visible_artifacts(
        (#[trigger] items[i]).release@,
        delegates,
        redacted,
        all_authors,
        local,
    ).len() > 0 <==> exists|cid: Cid, a: ArtifactView|
        {
            &&& #[trigger] items[i].release@.artifacts.contains((cid, a))
            &&& redacted || forall|d: Did| #[trigger]
                a.redactions.contains_key(d) ==> d != a.author && !delegates.contains(d)
            &&& all_authors || delegates.contains(a.author) || local == Some(a.author)
        }) by {
        lemma_some_visible(items[i].release@, delegates, redacted, all_authors, local);
    }
    let times = kept.map_values(|i: int| items[i].release@.timestamp);
    let order = newest_first(times);
    law_newest_first_is_a_sorting(times);
    let f = |k: Stamped|
        item_shown(
            items[kept[k.index as int]],
            aliases,
            delegates,
            redacted,
            all_authors,
            local,
        );
    let s = items_shown(items, kept, aliases, delegates, redacted, all_authors, local);
    lemma_map_contains(order, f);
    assert(s == order.map_values(f));
    if s.contains(x) {
        let k = choose|k: Stamped| #[trigger] order.contains(k) && f(k) == x;
        let i = kept[k.index as int];
        assert(kept.contains(i));
        assert(places.contains(i));
        assert(x == item_shown(items[i], aliases, delegates, redacted, all_authors, local));
    }
    assert forall|i: int|
        0 <= i < items.len() && x == item_shown(
            #[trigger] items[i],
            aliases,
            delegates,
            redacted,
            all_authors,
            local,
        ) && keep(i) implies s.contains(x) by {
        assert(places[i] == i);
        assert(places.contains(i));
        assert(kept.contains(i));
        let n = choose|n: int| 0 <= n < kept.len() && kept[n] == i;
        let k = Stamped { timestamp: times[n], index: n as usize };
        assert(order.contains(k));
        assert(f(k) == x);
    }
    assert forall|i: int, j: int| 0 <= i < j < s.len() implies (#[trigger] s[i]).created_at >= (
    #[trigger] s[j]).created_at by {
        assert(order.contains(order[i]) && order.contains(order[j]));
        assert(s[i].created_at == order[i].timestamp && s[j].created_at == order[j].timestamp);
    }
}

/// What a listed release is shown with: the title of its tag where it has one, else that
/// of its commit, and the name of its tag. A release without a tag shows nothing of one.
pub proof fn law_title_of_the_tag_comes_first(
    item: ReleaseItem<'_>,
    aliases: Map<Did, Seq<char>>,
    delegates: Set<Did>,
    redacted: bool,
    all_authors: bool,
    local: Option<Did>,
)
    ensures
        ({
            let s = item_shown(item, aliases, delegates, redacted, all_authors, local);
            &&& s.release_id == item.id && s.oid == item.release@.oid
            &&& item.release@.tag is None ==> s.tag_name is None && s.title == opt_text(
                item.commit_title,
            )
            &&& item.release@.tag is Some ==> s.tag_name == opt_text(item.tag_name) && (
            item.tag_title matches Some(t) ==> s.title == Some(t@)) && (item.tag_title is None
                ==> s.title == opt_text(item.commit_title))
        }),
{
}

/// An artifact is shown with everything that was stated of it and nothing else: every
/// location under who contributed it, every attestation and every redaction under who made
/// it, and every metadata entry.
pub proof fn law_artifact_is_shown_whole(
    cid: Cid,
    a: ArtifactView,
    aliases: Map<Did, Seq<char>>,
    did: Did,
    alias: Option<Seq<char>>,
    text: Seq<char>,
    key: Seq<char>,
)
    requires
        finite_locations(a),
        a.attestations.finite(),
        a.redactions.dom().finite(),
        a.metadata.dom().finite(),
    ensures
        ({
            let s = artifact_shown(cid, a, aliases);
            let named = alias == (if aliases.contains_key(did) {
                Some(aliases[did])
            } else {
                None
            });
            &&& s.cid == cid.text() && s.author == a.author && s.name == a.name
            &&& s.author_alias == (if aliases.contains_key(a.author) {
                Some(aliases[a.author])
            } else {
                None
            })
            &&& s.locations.contains((alias, did, text)) <==> named && a.locations.contains_key(did)
                && a.locations[did].contains(text)
            &&& s.attestations.contains((alias, did)) <==> named && a.attestations.contains(did)
            &&& s.redactions.contains((alias, did, text)) <==> named && a.redactions.contains_key(
                did,
            ) && a.redactions[did] == text
            &&& s.metadata.contains((key, text)) <==> a.metadata.contains_key(key)
                && a.metadata[key] == text
        }),
{
    let s = artifact_shown(cid, a, aliases);
    lemma_listing(a, (did, text));
    lemma_finite_in_order::<Did>(a.attestations);
    lemma_finite_in_order::<Did>(a.redactions.dom());
    lemma_finite_in_order::<String>(a.metadata.dom());
    let locate = |e: (Did, Seq<char>)| (alias_of(e.0, aliases), e.0, e.1);
    lemma_map_contains(listing(a.locations), locate);
    assert(locate((did, text)) == (alias_of(did, aliases), did, text));
    let attest = |d: Did| (alias_of(d, aliases), d);
    lemma_map_contains(in_order::<Did>(a.attestations), attest);
    assert(attest(did) == (alias_of(did, aliases), did));
    let redact = |d: Did| (alias_of(d, aliases), d, a.redactions[d]);
    lemma_map_contains(in_order::<Did>(a.redactions.dom()), redact);
    assert(redact(did) == (alias_of(did, aliases), did, a.redactions[did]));
    let entry = |k: Seq<char>| (k, a.metadata[k]);
    lemma_map_contains(in_order::<String>(a.metadata.dom()), entry);
    assert(entry(key) == (key, a.metadata[key]));
    if s.locations.contains((alias, did, text)) {
        let e = choose|e: (Did, Seq<char>)| #[trigger]
            listing(a.locations).contains(e) && locate(e) == (alias, did, text);
        assert(e == (did, text));
    }
    if s.attestations.contains((alias, did)) {
        let d = choose|d: Did| #[trigger]
            in_order::<Did>(a.attestations).contains(d) && attest(d) == (alias, did);
        assert(d == did);
    }
    if s.redactions.contains((alias, did, text)) {
        let d = choose|d: Did| #[trigger]
            in_order::<Did>(a.redactions.dom()).contains(d) && redact(d) == (alias, did, text);
        assert(d == did);
    }
    if s.metadata.contains((key, text)) {
        let k = choose|k: Seq<char>| #[trigger]
            in_order::<String>(a.metadata.dom()).contains(k) && entry(k) == (key, text);
        assert(k == key);
    }
    assert(in_order::<Did>(a.attestations).contains(did) <==> a.attestations.contains(did));
    assert(in_order::<Did>(a.redactions.dom()).contains(did) <==> a.redactions.contains_key(did));
    assert(in_order::<String>(a.metadata.dom()).contains(key) <==> a.metadata.contains_key(key));
}

/// The title that a message gives is its first line that is not blank, without the space
/// around it, and there is none where every line is blank.
pub proof fn law_title_is_the_first_filled_line(lines: Seq<Seq<char>>)
    ensures
        match first_filled(lines) {
            Some(t) => exists|i: int|
                {
                    &&& 0 <= i < lines.len()
                    &&& t == trim(#[trigger] lines[i])
                    &&& t.len() > 0
                    &&& forall|j: int| 0 <= j < i ==> trim(#[trigger] lines[j]).len() == 0
                },
            None => forall|j: int|
                0 <= j < lines.len() ==> trim(#[trigger] lines[j]).len() == 0,
        },
    decreases lines.len(),
{
    if lines.len() > 0 && trim(lines[0]).len() == 0 {
        let rest = lines.drop_first();
        law_title_is_the_first_filled_line(rest);
        match first_filled(rest) {
            Some(t) => {
                let i = choose|i: int|
                    {
                        &&& 0 <= i < rest.len()
                        &&& t == trim(#[trigger] rest[i])
                        &&& t.len() > 0
                        &&& forall|j: int| 0 <= j < i ==> trim(#[trigger] rest[j]).len() == 0
                    };
                assert(t == trim(lines[i + 1]));
                assert forall|j: int| 0 <= j < i + 1 implies trim(
                    #[trigger] lines[j],
                ).len() == 0 by {
                    if j > 0 {
                        assert(rest[j - 1] == lines[j]);
                    }
                }
            },
            None => {
                assert forall|j: int| 0 <= j < lines.len() implies trim(
                    #[trigger] lines[j],
                ).len() == 0 by {
                    if j > 0 {
                        assert(rest[j - 1] == lines[j]);
                    }
                }
            },
        }
    }
}

/// The title of an annotated tag is the first line of its message that is not blank; the
/// summary of the commit stands in where there is no message, or none of its lines has
/// anything in it.
pub proof fn law_the_summary_stands_in_for_a_blank_message(
    message: Option<Seq<char>>,
    summary: Option<Seq<char>>,
)
    ensures
        message is None ==> tag_title_spec(message, summary) == summary,
        message matches Some(m) ==> if forall|i: int|
            0 <= i < lines_of(m).len() ==> trim(#[trigger] lines_of(m)[i]).len() == 0 {
            tag_title_spec(message, summary) == summary
        } else {
            exists|i: int|
                {
                    &&& 0 <= i < lines_of(m).len()
                    &&& tag_title_spec(message, summary) == Some(trim(#[trigger] lines_of(m)[i]))
                    &&& trim(lines_of(m)[i]).len() > 0
                    &&& forall|j: int| 0 <= j < i ==> trim(#[trigger] lines_of(m)[j]).len() == 0
                }
        },
{
    if let Some(m) = message {
        law_title_is_the_first_filled_line(lines_of(m));
    }
}

/// `Filters::shows` lets an artifact through exactly where neither its author nor a delegate
/// has redacted it, or redacted ones are wanted, and its author is a delegate or the local
/// user, or all authors are wanted. So whoever the delegates are, the local user is shown
/// what they have registered and nobody who may has redacted.
pub proof fn law_shows_lets_through_what_counts(
    f: Filters<'_>,
    artifact: crate::release::Artifact,
    r: bool,
)
    requires
        call_ensures(Filters::shows, (&f, &artifact), r),
    ensures
        r <==> (f.redacted || forall|d: Did| #[trigger]
            artifact@.redactions.contains_key(d) ==> d != artifact@.author
                && !f.delegates@.contains(d)) && (f.all_authors || f.delegates@.contains(
            artifact@.author,
        ) || f.local == Some(artifact@.author)),
{
    law_filters_show_what_counts(artifact@, f.delegates@, f.redacted, f.all_authors, f.local);
}

/// `Release::new` shows exactly those artifacts of a release that the filters let through,
/// each with everything that was stated of it, and what else it shows of the release is as
/// the release has it.
pub proof fn law_new_shows_the_artifacts_that_count(
    id: ReleaseId,
    release: crate::release::Release,
    aliases: SortedMap<Did, String>,
    filters: Filters<'_>,
    title: Option<String>,
    tag_name: Option<String>,
    r: Release,
    x: ArtifactShown,
)
    requires
        call_ensures(Release::new, (id, &release, &aliases, &filters, title, tag_name), r),
        release@.artifacts.len() <= usize::MAX,
    ensures
        (exists|k: int| 0 <= k < r.artifacts@.len() && (#[trigger] r.artifacts@[k])@ == x)
            <==> exists|cid: Cid, a: ArtifactView|
            {
                &&& #[trigger] release@.artifacts.contains((cid, a))
                &&& filters.redacted || forall|d: Did| #[trigger]
                    a.redactions.contains_key(d) ==> d != a.author && !filters.delegates@.contains(d)
                &&& filters.all_authors || filters.delegates@.contains(a.author) || filters.local
                    == Some(a.author)
                &&& x == artifact_shown(cid, a, aliases_view(aliases))
            },
        r.release_id == id && r.oid == release@.oid && r.tag == release@.tag && r.creator
            == release@.creator && r.created_at == release@.timestamp && r.local == filters.local,
{
    law_release_shows_what_counts(
        id,
        release@,
        aliases_view(aliases),
        filters.delegates@,
        filters.redacted,
        filters.all_authors,
        filters.local,
        opt_text(title),
        opt_text(tag_name),
        x,
    );
    let s = r@;
    let t = r.artifacts@.map_values(|a: Artifact| a@);
    assert(s.artifacts == t);
    if t.contains(x) {
        let k = choose|k: int| 0 <= k < t.len() && t[k] == x;
        assert(r.artifacts@[k]@ == x);
    }
    if exists|k: int| 0 <= k < r.artifacts@.len() && (#[trigger] r.artifacts@[k])@ == x {
        let k = choose|k: int| 0 <= k < r.artifacts@.len() && (#[trigger] r.artifacts@[k])@ == x;
        assert(t[k] == x);
    }
}

/// `Releases::new` shows every release that has an artifact to be shown, or all where empty
/// ones are wanted too, and no other, the newest first.
pub proof fn law_new_lists_the_releases_that_count(
    items: Vec<ReleaseItem<'_>>,
    aliases: SortedMap<Did, String>,
    filters: Filters<'_>,
    show_empty: bool,
    r: Releases,
    i: int,
)
    requires
        call_ensures(Releases::new, (&items, &aliases, &filters, show_empty), r),
        0 <= i < items@.len() <= usize::MAX,
    ensures
        show_empty || (exists|cid: Cid, a: ArtifactView|
            {
                &&& #[trigger] items@[i].release@.artifacts.contains((cid, a))
                &&& filters.redacted || forall|d: Did| #[trigger]
                    a.redactions.contains_key(d) ==> d != a.author && !filters.delegates@.contains(d)
                &&& filters.all_authors || filters.delegates@.contains(a.author) || filters.local
                    == Some(a.author)
            }) ==> exists|k: int|
            0 <= k < r.releases@.len() && (#[trigger] r.releases@[k]).release_id == items@[i].id
                && r.releases@[k].oid == items@[i].release@.oid,
        forall|k: int|
            0 <= k < r.releases@.len() ==> exists|j: int|
                0 <= j < items@.len() && (#[trigger] items@[j]).id == (
                #[trigger] r.releases@[k]).release_id,
        forall|k: int, l: int|
            0 <= k < l < r.releases@.len() ==> (#[trigger] r.releases@[k]).created_at >= (
            #[trigger] r.releases@[l]).created_at,
{
    let x = item_shown(
        items@[i],
        aliases_view(aliases),
        filters.delegates@,
        filters.redacted,
        filters.all_authors,
        filters.local,
    );
    law_list_shows_what_counts(
        items@,
        aliases_view(aliases),
        filters.delegates@,
        filters.redacted,
        filters.all_authors,
        filters.local,
        show_empty,
        x,
    );
    let s = r@;
    if s.contains(x) {
        let k = choose|k: int| 0 <= k < s.len() && s[k] == x;
        assert(r.releases@[k]@ == x);
        assert(r.releases@[k].release_id == items@[i].id);
    }
    assert forall|k: int| 0 <= k < r.releases@.len() implies exists|j: int|
        0 <= j < items@.len() && (#[trigger] items@[j]).id == (
        #[trigger] r.releases@[k]).release_id by {
        let y = s[k];
        assert(r.releases@[k]@ == y);
        assert(s.contains(y));
        law_list_shows_what_counts(
            items@,
            aliases_view(aliases),
            filters.delegates@,
            filters.redacted,
            filters.all_authors,
            filters.local,
            show_empty,
            y,
        );
        let j = choose|j: int|
            {
                &&& 0 <= j < items@.len()
                &&& y == item_shown(
                    #[trigger] items@[j],
                    aliases_view(aliases),
                    filters.delegates@,
                    filters.redacted,
                    filters.all_authors,
                    filters.local,
                )
            };
        assert(items@[j].id == y.release_id);
    }
    assert forall|k: int, l: int| 0 <= k < l < r.releases@.len() implies (
    #[trigger] r.releases@[k]).created_at >= (#[trigger] r.releases@[l]).created_at by {
        assert(s[k].created_at >= s[l].created_at);
        assert(r.releases@[k]@ == s[k] && r.releases@[l]@ == s[l]);
    }
}

} // verus!
