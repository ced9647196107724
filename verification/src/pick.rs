//! Finding what to fetch: a release, an artifact of it, and where it can be had.

use crate::ids::{Cid, Did, Oid, ReleaseId};
use crate::location::{curve_point, scheme_of, EndpointId};
use crate::release::{list_view, listing, Artifact, Release};
use crate::retrieval::lemma_listing;
use crate::share::Location;
use crate::seqs::{lemma_add_has, lemma_last_splits, lemma_map_contains, lemma_push_has};
use crate::sorted::{in_order, lemma_finite_in_order, lemma_keys_in_order, map_of, SortedMap};
use crate::store::{
    all_read, distinct_ids, first_at, law_search_by_commit_is_complete, of_commit, Loaded,
    Releases,
};
use crate::text::{
    cat, cat3, cat4, decimal, decimal_text, is_space, law_decimals_are_read_back,
    law_trimming_takes_outer_space_off, number_in, parse_number, texts, trim, unsigned,
    without_outer_space,
};
use crate::trust::redactions_view;
use vstd::prelude::*;

verus! {

/// Why no release of a commit was found.
pub enum FindError {
    /// There is none.
    NoRelease(Oid),
    /// There is more than one.
    Ambiguous(Oid),
    /// A release could not be read.
    Lookup {
        oid: Oid,
        err: String,
    },
}

impl FindError {
    /// The error as text.
    pub open spec fn text(self) -> Seq<char> {
        match self {
            FindError::NoRelease(oid) => "no release found for commit "@ + oid.text(),
            FindError::Ambiguous(oid) => "multiple releases found for commit "@ + oid.text()
                + ", use a release ID to disambiguate"@,
            FindError::Lookup { oid, .. } => "failed to find release for commit "@ + oid.text(),
        }
    }

    /// The error as text.
    pub fn message(&self) -> (r: String)
        ensures
            r@ == self.text(),
    {
        match self {
            FindError::NoRelease(oid) => {
                let shown = oid.to_text();
                cat("no release found for commit ", shown.as_str())
            },
            FindError::Ambiguous(oid) => {
                let shown = oid.to_text();
                cat3(
                    "multiple releases found for commit ",
                    shown.as_str(),
                    ", use a release ID to disambiguate",
                )
            },
            FindError::Lookup { oid, .. } => {
                let shown = oid.to_text();
                cat("failed to find release for commit ", shown.as_str())
            },
        }
    }
}

/// The only release of the commit `oid`.
pub fn find_unique_by_oid(oid: Oid, releases: &Releases) -> (r: Result<ReleaseId, FindError>)
    ensures
        ({
            let found = of_commit(releases.items@, oid);
            match r {
                Ok(id) => found.len() == 1 && found[0] is Ok && found[0]->Ok_0.0 == id,
                Err(FindError::NoRelease(o)) => o == oid && found.len() == 0,
                Err(FindError::Lookup { oid: o, err }) => o == oid && found.len() > 0 && found[0]
                    is Err && found[0]->Err_0@ == err@,
                Err(FindError::Ambiguous(o)) => o == oid && found.len() > 1 && found[0] is Ok,
            }
        }),
{
    let found = releases.find_by_commit(oid);
    let ghost all = of_commit(releases.items@, oid);
    assert(found@.map_values(|e: &Loaded| *e) == all);
    if found.len() == 0 {
        return Err(FindError::NoRelease(oid));
    }
    assert(*found@[0] == all[0]);
    match found[0] {
        Err(err) => Err(FindError::Lookup { oid, err: err.as_str().to_owned() }),
        Ok((id, _)) => {
            if found.len() > 1 {
                Err(FindError::Ambiguous(oid))
            } else {
                Ok(*id)
            }
        },
    }
}

/// What the arguments ask for: an artifact of a release, or to choose one.
pub fn fetch_target(oid: Option<Oid>, cid: Option<Cid>) -> (r: Result<
    Option<(Oid, Cid)>,
    String,
>)
    ensures
        match (oid, cid) {
            (Some(o), Some(c)) => r == Ok::<Option<(Oid, Cid)>, String>(Some((o, c))),
            (None, None) => r == Ok::<Option<(Oid, Cid)>, String>(None),
            _ => r is Err && r->Err_0@
                == "provide both <oid> and <cid>, or neither for interactive mode"@,
        },
{
    match (oid, cid) {
        (Some(o), Some(c)) => Ok(Some((o, c))),
        (None, None) => Ok(None),
        _ => Err("provide both <oid> and <cid>, or neither for interactive mode".to_owned()),
    }
}

/// The releases that could be read.
pub open spec fn readable(items: Seq<Loaded>) -> Seq<(ReleaseId, Release)>
    decreases items.len(),
{
    if items.len() == 0 {
        Seq::empty()
    } else {
        match items.last() {
            Ok(entry) => readable(items.drop_last()).push(entry),
            Err(_) => readable(items.drop_last()),
        }
    }
}

/// The releases to choose from, or what is to be said where there are none.
pub fn release_candidates(releases: &Releases) -> (r: Result<Vec<&(ReleaseId, Release)>, String>)
    ensures
        match r {
            Ok(all) => all@.len() > 0 && all@.map_values(|e: &(ReleaseId, Release)| *e) == readable(
                releases.items@,
            ),
            Err(e) => readable(releases.items@).len() == 0 && e@
                == "no releases found in this repository"@,
        },
{
    let mut out: Vec<&(ReleaseId, Release)> = Vec::new();
    let mut i: usize = 0;
    while i < releases.items.len()
        invariant
            i <= releases.items@.len(),
            out@.map_values(|e: &(ReleaseId, Release)| *e) == readable(
                releases.items@.take(i as int),
            ),
        decreases releases.items@.len() - i,
    {
        let ghost before = out@;
        assert(releases.items@.take(i + 1).drop_last() =~= releases.items@.take(i as int));
        match &releases.items[i] {
            Ok(entry) => {
                out.push(entry);
                assert(out@.map_values(|e: &(ReleaseId, Release)| *e) =~= before.map_values(
                    |e: &(ReleaseId, Release)| *e,
                ).push(*entry));
            },
            Err(_) => {},
        }
        i += 1;
    }
    assert(releases.items@.take(i as int) =~= releases.items@);
    assert(out@.len() == readable(releases.items@).len()) by {
        assert(out@.map_values(|e: &(ReleaseId, Release)| *e).len() == out@.len());
    }
    if out.len() == 0 {
        Err("no releases found in this repository".to_owned())
    } else {
        Ok(out)
    }
}

/// How a release is offered, in place `i`.
pub open spec fn release_choice_text(i: nat, oid: Oid, count: nat) -> Seq<char> {
    "  ["@ + decimal_text(i + 1) + "] "@ + oid.text() + " ("@ + decimal_text(count) + " artifact"@
        + (if count == 1 {
        ""@
    } else {
        "s"@
    }) + ")"@
}

/// How a release is offered, in place `i`.
pub fn release_choice(i: usize, release: &Release) -> (r: String)
    requires
        i < usize::MAX,
    ensures
        r@ == release_choice_text(i as nat, release@.oid, release@.artifacts.len()),
{
    let place = decimal((i + 1) as u64);
    let oid = release.oid().to_text();
    let n: usize = release.len();
    let count = decimal(n as u64);
    let mut s = cat4("  [", place.as_str(), "] ", oid.as_str());
    s.append(" (");
    s.append(count.as_str());
    s.append(" artifact");
    s.append(if n == 1 { "" } else { "s" });
    s.append(")");
    s
}

/// How an artifact is offered, in place `i`.
pub open spec fn artifact_choice_text(
    i: nat,
    cid: Cid,
    name: Seq<char>,
    redacted: bool,
) -> Seq<char> {
    "  ["@ + decimal_text(i + 1) + "] "@ + name + " (CID: "@ + cid.text() + ")"@ + (if redacted {
        " [REDACTED]"@
    } else {
        ""@
    })
}

/// How an artifact is offered, in place `i`.
pub fn artifact_choice(i: usize, cid: &Cid, artifact: &Artifact) -> (r: String)
    requires
        i < usize::MAX,
    ensures
        r@ == artifact_choice_text(
            i as nat,
            *cid,
            artifact@.name,
            artifact@.redactions != Map::<Did, Seq<char>>::empty(),
        ),
{
    let place = decimal((i + 1) as u64);
    let shown = cid.to_text();
    let mut s = cat4("  [", place.as_str(), "] ", artifact.name());
    s.append(" (CID: ");
    s.append(shown.as_str());
    s.append(")");
    s.append(if artifact.is_redacted() { " [REDACTED]" } else { "" });
    s
}

/// The artifacts to choose from, as they are offered, or what is to be said where there
/// are none.
pub fn artifact_choices(release: &Release) -> (r: Result<Vec<String>, String>)
    ensures
        match r {
            Ok(lines) => release@.artifacts.len() > 0 && lines@.len() == release@.artifacts.len()
                && forall|i: int|
                0 <= i < lines@.len() ==> (#[trigger] lines@[i])@ == artifact_choice_text(
                    i as nat,
                    release@.artifacts[i].0,
                    release@.artifacts[i].1.name,
                    release@.artifacts[i].1.redactions != Map::<Did, Seq<char>>::empty(),
                ),
            Err(e) => release@.artifacts.len() == 0 && e@ == "selected release has no artifacts"@,
        },
{
    let n: usize = release.len();
    if n == 0 {
        return Err("selected release has no artifacts".to_owned());
    }
    let mut lines: Vec<String> = Vec::new();
    let mut i: usize = 0;
    while i < n
        invariant
            i <= n,
            n == release@.artifacts.len(),
            lines@.len() == i,
            forall|k: int|
                0 <= k < lines@.len() ==> (#[trigger] lines@[k])@ == artifact_choice_text(
                    k as nat,
                    release@.artifacts[k].0,
                    release@.artifacts[k].1.name,
                    release@.artifacts[k].1.redactions != Map::<Did, Seq<char>>::empty(),
                ),
        decreases n - i,
    {
        let (cid, artifact) = release.at(i);
        lines.push(artifact_choice(i, &cid, artifact));
        i += 1;
    }
    Ok(lines)
}

/// The place that an answer chooses, out of `max`: answers count from one, places from
/// zero.
pub open spec fn choice_in(line: Seq<char>, max: nat) -> Option<nat> {
    match number_in(trim(line)) {
        Some(n) => if 1 <= n <= max {
            Some((n - 1) as nat)
        } else {
            None
        },
        None => None,
    }
}

/// The place that an answer chooses, out of `max`.
pub fn parse_choice(line: &str, max: usize) -> (r: Option<usize>)
    ensures
        match choice_in(line@, max as nat) {
            Some(n) => r is Some && r->0 == n && n < max,
            None => r is None,
        },
{
    let bare = without_outer_space(line);
    match parse_number(bare.as_str()) {
        Some(n) => {
            if n >= 1 && n <= max as u64 {
                Some((n - 1) as usize)
            } else {
                None
            }
        },
        None => None,
    }
}

/// The question for a choice.
pub fn choice_prompt(label: &str, max: usize) -> (r: String)
    ensures
        r@ == label@ + " [1-"@ + decimal_text(max as nat) + "]: "@,
{
    let shown = decimal(max as u64);
    cat4(label, " [1-", shown.as_str(), "]: ")
}

/// What a fetch location stands for.
pub open spec fn location_view(l: Location<'_>) -> Result<Seq<char>, EndpointId> {
    match l {
        Location::Url(url) => Ok(url@),
        Location::Iroh(id) => Err(id),
    }
}

/// Whether a location leads to the endpoint of its contributor, where there is none.
pub open spec fn unusable(e: (Did, Seq<char>), scheme: Seq<char>) -> bool {
    scheme_of(e.1) == scheme && EndpointId::spec_of_did(e.0) is None
}

/// Where to fetch from, for a location: URLs with the given scheme lead to the endpoint
/// of their contributor.
pub open spec fn fetch_location(e: (Did, Seq<char>), scheme: Seq<char>) -> Result<
    Seq<char>,
    EndpointId,
> {
    if scheme_of(e.1) == scheme {
        Err(EndpointId { key: e.0.key })
    } else {
        Ok(e.1)
    }
}

/// Where an artifact can be fetched from: URLs with the scheme `scheme` lead to the
/// endpoint of the user who contributed them. Where such a user has no endpoint, their
/// DID instead.
pub fn artifact_locations<'a>(artifact: &'a Artifact, scheme: &str) -> (r: Result<
    Vec<Location<'a>>,
    Did,
>)
    ensures
        ({
            let all = listing(artifact@.locations);
            match r {
                Ok(locations) => {
                    &&& locations@.map_values(|l: Location<'a>| location_view(l))
                        == all.map_values(|e: (Did, Seq<char>)| fetch_location(e, scheme@))
                    &&& forall|i: int|
                        0 <= i < all.len() ==> !unusable(#[trigger] all[i], scheme@)
                },
                Err(did) => exists|i: int|
                    {
                        &&& 0 <= i < all.len()
                        &&& unusable(#[trigger] all[i], scheme@)
                        &&& all[i].0 == did
                        &&& forall|j: int|
                            0 <= j < i ==> !unusable(#[trigger] all[j], scheme@)
                    },
            }
        }),
{
    let located = artifact.located();
    let ghost all = listing(artifact@.locations);
    let wanted = scheme.to_owned();
    let mut out: Vec<Location<'a>> = Vec::new();
    let mut i: usize = 0;
    while i < located.len()
        invariant
            i <= located@.len(),
            wanted@ == scheme@,
            all == listing(artifact@.locations),
            list_view(located@) == all,
            forall|j: int| 0 <= j < i ==> !unusable(#[trigger] all[j], scheme@),
            out@.map_values(|l: Location<'a>| location_view(l)) == all.take(i as int).map_values(
                |e: (Did, Seq<char>)| fetch_location(e, scheme@),
            ),
        decreases located@.len() - i,
    {
        let (did, url) = located[i];
        let ghost before = out@;
        assert(list_view(located@)[i as int] == all[i as int]);
        if url.scheme() == wanted {
            match EndpointId::of_did(&did) {
                Some(id) => {
                    out.push(Location::Iroh(id));
                },
                None => {
                    assert(unusable(all[i as int], scheme@));
                    return Err(did);
                },
            }
        } else {
            out.push(Location::Url(url));
        }
        assert(out@.map_values(|l: Location<'a>| location_view(l)) =~= before.map_values(
            |l: Location<'a>| location_view(l),
        ).push(fetch_location(all[i as int], scheme@)));
        assert(all.take(i + 1).map_values(|e: (Did, Seq<char>)| fetch_location(e, scheme@))
            =~= all.take(i as int).map_values(
            |e: (Did, Seq<char>)| fetch_location(e, scheme@),
        ).push(fetch_location(all[i as int], scheme@)));
        i += 1;
    }
    assert(list_view(located@).len() == located@.len());
    assert(all.take(i as int) =~= all);
    Ok(out)
}

/// The warning for an artifact: none unless it has been redacted.
pub open spec fn redaction_warning(redactions: Map<Did, Seq<char>>) -> Seq<Seq<char>> {
    if redactions == Map::<Did, Seq<char>>::empty() {
        Seq::empty()
    } else {
        seq!["WARNING: this artifact has been redacted"@] + in_order::<Did>(
            redactions.dom(),
        ).map_values(|did: Did| "  "@ + did.text() + ": "@ + redactions[did])
    }
}

/// The warning for an artifact: none unless it has been redacted.
pub fn redaction_notes(map: &SortedMap<Did, String>) -> (r: Vec<String>)
    ensures
        texts(r@) == redaction_warning(redactions_view(*map)),
{
    let ghost redactions = redactions_view(*map);
    let ghost s = map.seq();
    let ghost all = in_order::<Did>(redactions.dom());
    let mut out: Vec<String> = Vec::new();
    if map.is_empty() {
        assert(redactions =~= Map::<Did, Seq<char>>::empty());
        assert(texts(out@) =~= Seq::<Seq<char>>::empty());
        return out;
    }
    proof {
        if redactions == Map::<Did, Seq<char>>::empty() {
            assert(map@ =~= Map::<Did, String>::empty()) by {
                assert forall|d: Did| !map@.contains_key(d) by {
                    assert(!redactions.contains_key(d));
                }
            }
        }
    }
    proof {
        use_type_invariant(map);
        lemma_keys_in_order(s);
        assert(redactions.dom() =~= map_of(s).dom());
    }
    out.push("WARNING: this artifact has been redacted".to_owned());
    let mut i: usize = 0;
    while i < map.len()
        invariant
            i <= s.len(),
            s == map.seq(),
            all == s.map_values(|e: (Did, String)| e.0@),
            redactions == map@.map_values(|s: String| s@),
            forall|j: int|
                0 <= j < s.len() ==> map@.contains_key(#[trigger] s[j].0@) && map@[s[j].0@]
                    == s[j].1,
            out@.len() == i + 1,
            out@[0]@ == "WARNING: this artifact has been redacted"@,
            forall|k: int|
                0 < k < out@.len() ==> (#[trigger] out@[k])@ == "  "@ + all[k - 1].text() + ": "@
                    + redactions[all[k - 1]],
        decreases s.len() - i,
    {
        let did = *map.key_at(i);
        let shown = did.encode();
        assert(s[i as int].0@ == did);
        assert(all[i as int] == did);
        out.push(cat4("  ", shown.as_str(), ": ", map.value_of(i).as_str()));
        i += 1;
    }
    assert(texts(out@) =~= redaction_warning(redactions));
    out
}

/// Why an artifact cannot be fetched.
pub enum TargetError {
    /// Its release was not found.
    Find(FindError),
    /// The release does not have it.
    ArtifactNotFound(Cid),
}

/// Whether `r` is the only release of the commit.
pub open spec fn only_release(items: Seq<Loaded>, oid: Oid, id: ReleaseId) -> bool {
    let found = of_commit(items, oid);
    found.len() == 1 && found[0] is Ok && found[0]->Ok_0.0 == id
}

/// The artifact `cid` of the only release of the commit `oid`.
pub fn find_artifact<'a>(oid: Oid, cid: Cid, releases: &'a Releases) -> (r: Result<
    &'a Artifact,
    TargetError,
>)
    ensures
        match r {
            Ok(artifact) => exists|id: ReleaseId, i: int|
                #![trigger only_release(releases.items@, oid, id), first_at(releases.items@, id, i)]
                {
                    &&& only_release(releases.items@, oid, id)
                    &&& first_at(releases.items@, id, i)
                    &&& releases.items@[i]->Ok_0.1@.has(cid)
                    &&& releases.items@[i]->Ok_0.1@.get(cid) == artifact@
                },
            Err(TargetError::ArtifactNotFound(c)) => c == cid && exists|id: ReleaseId, i: int|
                #![trigger only_release(releases.items@, oid, id), first_at(releases.items@, id, i)]
                {
                    &&& only_release(releases.items@, oid, id)
                    &&& first_at(releases.items@, id, i)
                    &&& !releases.items@[i]->Ok_0.1@.has(cid)
                },
            Err(TargetError::Find(e)) => {
                let found = of_commit(releases.items@, oid);
                match e {
                    FindError::NoRelease(o) => o == oid && found.len() == 0,
                    FindError::Lookup { oid: o, err } => o == oid && found.len() > 0 && found[0]
                        is Err && found[0]->Err_0@ == err@,
                    FindError::Ambiguous(o) => o == oid && found.len() > 1 && found[0] is Ok,
                }
            },
        },
{
    match find_unique_by_oid(oid, releases) {
        Err(e) => Err(TargetError::Find(e)),
        Ok(id) => {
            proof {
                lemma_of_commit(releases.items@, oid, 0);
            }
            assert(only_release(releases.items@, oid, id));
            match releases.get(&id) {
                None => {
                    assert(false);
                    Err(TargetError::Find(FindError::NoRelease(oid)))
                },
                Some(release) => {
                    proof {
                        let i = choose|i: int|
                            0 <= i < releases.items@.len() && (#[trigger] releases.items@[i])
                                == Ok::<(ReleaseId, Release), String>((id, *release)) && forall|
                                j: int,
                            |
                                0 <= j < i ==> ((#[trigger] releases.items@[j]) matches Ok(
                                    (other, _),
                                ) ==> other != id);
                        assert(first_at(releases.items@, id, i));
                    }
                    match release.artifact(&cid) {
                        Some(artifact) => Ok(artifact),
                        None => Err(TargetError::ArtifactNotFound(cid)),
                    }
                },
            }
        },
    }
}

/// What was found for a commit stands among the releases.
proof fn lemma_of_commit(items: Seq<Loaded>, oid: Oid, k: int)
    requires
        0 <= k < of_commit(items, oid).len(),
    ensures
        items.contains(of_commit(items, oid)[k]),
    decreases items.len(),
{
    let rest = of_commit(items.drop_last(), oid);
    if k < rest.len() {
        lemma_of_commit(items.drop_last(), oid, k);
        let j = choose|j: int|
            0 <= j < items.drop_last().len() && items.drop_last()[j] == rest[k];
        assert(items[j] == rest[k]);
    } else {
        assert(items[items.len() - 1] == items.last());
    }
}

/// The name of the file that an artifact is written to, where it may stand beside others.
pub fn distinct_output(name: &str, cid: &Cid) -> (r: String)
    ensures
        r@ == name@ + "_"@ + cid.text(),
{
    let shown = cid.to_text();
    cat3(name, "_", shown.as_str())
}

/// The releases that could be read are all those that were, and nothing is made up.
pub proof fn law_every_release_that_was_read_is_there(items: Seq<Loaded>)
    ensures
        forall|e: (ReleaseId, Release)| #[trigger]
            readable(items).contains(e) <==> items.contains(
                Ok::<(ReleaseId, Release), String>(e),
            ),
        readable(items).len() <= items.len(),
        all_read(items) ==> readable(items).len() == items.len(),
    decreases items.len(),
{
    if items.len() > 0 {
        let rest = items.drop_last();
        law_every_release_that_was_read_is_there(rest);
        lemma_last_splits(items);
        assert forall|e: (ReleaseId, Release)| #[trigger]
            readable(items).contains(e) <==> items.contains(
            Ok::<(ReleaseId, Release), String>(e),
        ) by {
            assert(rest.contains(Ok::<(ReleaseId, Release), String>(e)) <==> readable(
                rest,
            ).contains(e));
            if let Ok(entry) = items.last() {
                lemma_push_has(readable(rest), entry, e);
            }
        }
        if all_read(items) {
            assert(items[items.len() - 1] is Ok);
            assert forall|i: int| 0 <= i < rest.len() implies (#[trigger] rest[i]) is Ok by {
                assert(items[i] is Ok);
            }
        }
    }
}

/// An answer counts from one: the number of an offer chooses that offer, and any other
/// number chooses none.
pub proof fn law_answers_count_from_one(k: nat, max: nat, line: Seq<char>)
    requires
        max <= u64::MAX,
    ensures
        choice_in(decimal_text(k), max) == (if 1 <= k <= max {
            Some((k - 1) as nat)
        } else {
            None
        }),
        choice_in(line, max) matches Some(n) ==> n < max,
{
    let t = decimal_text(k);
    law_decimals_are_read_back(k);
    law_trimming_takes_outer_space_off(t);
    let i = choose|i: int|
        {
            &&& 0 <= i <= i + trim(t).len() <= t.len()
            &&& trim(t) == #[trigger] t.subrange(i, i + trim(t).len())
            &&& forall|k: int| 0 <= k < i ==> is_space(#[trigger] t[k])
            &&& forall|k: int| i + trim(t).len() <= k < t.len() ==> is_space(#[trigger] t[k])
        };
    assert(i == 0) by {
        if i > 0 {
            assert(is_space(t[0]));
        }
    }
    assert(trim(t).len() == t.len()) by {
        if trim(t).len() < t.len() {
            assert(is_space(t[t.len() - 1]));
        }
    }
    assert(trim(t) =~= t);
    assert(unsigned(t) == t) by {
        assert('0' <= t[0] <= '9');
    }
}

/// A location of a scheme leads to the endpoint of the user who contributed it, and every
/// other to its own URL; it cannot be used where that user has no endpoint.
pub proof fn law_the_scheme_leads_to_the_contributor(
    did: Did,
    url: Seq<char>,
    scheme: Seq<char>,
)
    ensures
        scheme_of(url) != scheme ==> fetch_location((did, url), scheme) == Ok::<
            Seq<char>,
            EndpointId,
        >(url) && !unusable((did, url), scheme),
        scheme_of(url) == scheme ==> (fetch_location((did, url), scheme) matches Err(id) && id.key
            == did.key),
        scheme_of(url) == scheme ==> (unusable((did, url), scheme) <==> !curve_point(
            did.key.hi,
            did.key.lo,
        )),
{
}

/// A warning is given exactly where somebody has redacted the artifact, and it names
/// everyone who has, with the reason.
pub proof fn law_every_redaction_is_in_the_warning(redactions: Map<Did, Seq<char>>, did: Did)
    requires
        redactions.dom().finite(),
    ensures
        redaction_warning(redactions).len() == 0 <==> forall|d: Did|
            !#[trigger] redactions.contains_key(d),
        redactions.contains_key(did) ==> redaction_warning(redactions).contains(
            "  "@ + did.text() + ": "@ + redactions[did],
        ),
{
    if forall|d: Did| !#[trigger] redactions.contains_key(d) {
        assert(redactions =~= Map::<Did, Seq<char>>::empty());
    }
    if redactions.contains_key(did) {
        let f = |did: Did| "  "@ + did.text() + ": "@ + redactions[did];
        lemma_finite_in_order::<Did>(redactions.dom());
        let users = in_order::<Did>(redactions.dom());
        assert(users.contains(did));
        lemma_map_contains(users, f);
        assert(users.map_values(f).contains(f(did)));
        lemma_add_has(
            seq!["WARNING: this artifact has been redacted"@],
            users.map_values(f),
            f(did),
        );
    }
}

/// A release is the only one of a commit exactly where it is of that commit, every other
/// release of the commit has its id, and every release could be read.
pub proof fn law_the_only_release_of_a_commit(items: Seq<Loaded>, oid: Oid, id: ReleaseId)
    requires
        only_release(items, oid, id),
    ensures
        exists|r: Release| #[trigger] items.contains(Ok((id, r))) && r@.oid == oid,
        forall|other: ReleaseId, r: Release| #[trigger]
            items.contains(Ok((other, r))) && r@.oid == oid ==> other == id,
        forall|e: String| !#[trigger] items.contains(Err(e)),
{
    let found = of_commit(items, oid);
    let l = found[0];
    assert(found.contains(l));
    law_search_by_commit_is_complete(items, oid, l);
    assert(l == Ok::<(ReleaseId, Release), String>((id, l->Ok_0.1)));
    assert(items.contains(Ok((id, l->Ok_0.1))));
    assert forall|other: ReleaseId, r: Release| #[trigger]
        items.contains(Ok((other, r))) && r@.oid == oid implies other == id by {
        let m = Ok::<(ReleaseId, Release), String>((other, r));
        law_search_by_commit_is_complete(items, oid, m);
        let k = choose|k: int| 0 <= k < found.len() && found[k] == m;
        assert(found[k] == l);
    }
    assert forall|e: String| !#[trigger] items.contains(Err(e)) by {
        let m = Err::<(ReleaseId, Release), String>(e);
        law_search_by_commit_is_complete(items, oid, m);
        if items.contains(m) {
            let k = choose|k: int| 0 <= k < found.len() && found[k] == m;
            assert(found[k] == l);
        }
    }
}

/// What could be read of two lists of releases, one behind the other, is what could be read
/// of the first and then of the second.
pub proof fn law_reading_goes_release_by_release(first: Seq<Loaded>, second: Seq<Loaded>)
    ensures
        readable(first + second) == readable(first) + readable(second),
    decreases second.len(),
{
    if second.len() == 0 {
        assert(first + second =~= first);
        assert(readable(first) + readable(second) =~= readable(first));
    } else {
        law_reading_goes_release_by_release(first, second.drop_last());
        assert((first + second).drop_last() =~= first + second.drop_last());
        assert((first + second).last() == second.last());
        assert(readable(first + second) =~= readable(first) + readable(second));
    }
}

/// `find_unique_by_oid` finds a release exactly where it is the only one of the commit and
/// everything could be read.
pub proof fn law_a_unique_release_is_found(
    oid: Oid,
    releases: Releases,
    r: Result<ReleaseId, FindError>,
)
    requires
        call_ensures(find_unique_by_oid, (oid, &releases), r),
    ensures
        r matches Ok(id) ==> (exists|release: Release| #[trigger]
            releases.items@.contains(Ok((id, release))) && release@.oid == oid) && forall|
            other: ReleaseId,
            release: Release,
        | #[trigger]
            releases.items@.contains(Ok((other, release))) && release@.oid == oid ==> other == id,
        r matches Err(FindError::NoRelease(_)) ==> forall|id: ReleaseId, release: Release|
            #[trigger]
            releases.items@.contains(Ok((id, release))) ==> release@.oid != oid,
{
    let items = releases.items@;
    match r {
        Ok(id) => {
            law_the_only_release_of_a_commit(items, oid, id);
        },
        Err(FindError::NoRelease(_)) => {
            assert forall|id: ReleaseId, release: Release| #[trigger]
                items.contains(Ok((id, release))) implies release@.oid != oid by {
                let l = Ok::<(ReleaseId, Release), String>((id, release));
                law_search_by_commit_is_complete(items, oid, l);
                if release@.oid == oid {
                    assert(of_commit(items, oid).contains(l));
                }
            }
        },
        _ => {},
    }
}

/// `find_artifact` gives an artifact of the only release of the commit, and says that the
/// release does not have it exactly where it does not.
pub proof fn law_an_artifact_is_of_the_only_release(
    oid: Oid,
    cid: Cid,
    releases: Releases,
    r: Result<&Artifact, TargetError>,
    other: ReleaseId,
    release: Release,
)
    requires
        call_ensures(find_artifact, (oid, cid, &releases), r),
        distinct_ids(releases.items@),
        releases.items@.contains(Ok((other, release))),
        release@.oid == oid,
    ensures
        r matches Ok(artifact) ==> release@.has(cid) && artifact@ == release@.get(cid),
        r matches Err(TargetError::ArtifactNotFound(c)) ==> c == cid && !release@.has(cid),
{
    let items = releases.items@;
    let k = choose|k: int|
        0 <= k < items.len() && items[k] == Ok::<(ReleaseId, Release), String>((other, release));
    match r {
        Ok(artifact) => {
            let (id, i) = choose|id: ReleaseId, i: int|
                #![trigger only_release(items, oid, id), first_at(items, id, i)]
                {
                    &&& only_release(items, oid, id)
                    &&& first_at(items, id, i)
                    &&& items[i]->Ok_0.1@.has(cid)
                    &&& items[i]->Ok_0.1@.get(cid) == artifact@
                };
            law_the_only_release_of_a_commit(items, oid, id);
            lemma_same_place(items, i, k);
        },
        Err(TargetError::ArtifactNotFound(_)) => {
            let (id, i) = choose|id: ReleaseId, i: int|
                #![trigger only_release(items, oid, id), first_at(items, id, i)]
                {
                    &&& only_release(items, oid, id)
                    &&& first_at(items, id, i)
                    &&& !items[i]->Ok_0.1@.has(cid)
                };
            law_the_only_release_of_a_commit(items, oid, id);
            lemma_same_place(items, i, k);
        },
        _ => {},
    }
}

proof fn lemma_same_place(items: Seq<Loaded>, i: int, k: int)
    requires
        distinct_ids(items),
        0 <= i < items.len(),
        0 <= k < items.len(),
        items[i] is Ok,
        items[k] is Ok,
        items[i]->Ok_0.0 == items[k]->Ok_0.0,
    ensures
        i == k,
{
}

/// `artifact_locations` gives a place for every location of an artifact, unless a location
/// of the scheme is one of a user who has no endpoint, and then that user.
pub proof fn law_every_location_of_an_artifact_leads_somewhere(
    artifact: Artifact,
    scheme: &str,
    r: Result<Vec<Location<'_>>, Did>,
    did: Did,
    url: Seq<char>,
)
    requires
        call_ensures(artifact_locations, (&artifact, scheme), r),
        artifact@.locations.contains_key(did),
        artifact@.locations[did].contains(url),
    ensures
        r matches Ok(locations) ==> exists|k: int|
            0 <= k < locations@.len() && (match #[trigger] locations@[k] {
                Location::Url(u) => scheme_of(url) != scheme@ && u@ == url,
                Location::Iroh(id) => scheme_of(url) == scheme@ && id.key == did.key,
            }),
        r matches Err(user) ==> !curve_point(user.key.hi, user.key.lo),
{
    artifact.lemma_finite_locations();
    lemma_listing(artifact@, (did, url));
    let all = listing(artifact@.locations);
    match r {
        Ok(locations) => {
            let k = choose|k: int| 0 <= k < all.len() && all[k] == (did, url);
            let seen = locations@.map_values(|l: Location<'_>| location_view(l));
            let told = all.map_values(|e: (Did, Seq<char>)| fetch_location(e, scheme@));
            assert(seen == told);
            assert(seen[k] == location_view(locations@[k]));
            assert(told[k] == fetch_location((did, url), scheme@));
            law_the_scheme_leads_to_the_contributor(did, url, scheme@);
            assert(match locations@[k] {
                Location::Url(u) => scheme_of(url) != scheme@ && u@ == url,
                Location::Iroh(id) => scheme_of(url) == scheme@ && id.key == did.key,
            });
        },
        Err(user) => {
            let i = choose|i: int|
                {
                    &&& 0 <= i < all.len()
                    &&& unusable(#[trigger] all[i], scheme@)
                    &&& all[i].0 == user
                    &&& forall|j: int| 0 <= j < i ==> !unusable(#[trigger] all[j], scheme@)
                };
            let (owner, u) = all[i];
            law_the_scheme_leads_to_the_contributor(owner, u, scheme@);
        },
    }
}

} // verus!
