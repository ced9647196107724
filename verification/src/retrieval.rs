//! Getting an artifact: from which release it is taken, and where it can be had.

use crate::ids::{Cid, Did, Key, Oid, ReleaseId};
use crate::location::{
    base32_text, base32_text_injective, curve_point, endpoint_of_url, scheme_of, url_host,
    EndpointError, EndpointId, Url, URL_SCHEME,
};
use crate::order::{is_latest, latest, law_the_latest_is_one};
use crate::pick::{redaction_notes, redaction_warning};
use crate::release::{
    finite_locations, list_one, list_users, list_view, listing, Artifact, ArtifactView, Release,
};
use crate::seqs::{lemma_add_has, lemma_last_splits};
use crate::sorted::{in_order, lemma_finite_in_order, SortKey, SortedMap};
use crate::store::{
    all_read, carrying, first_fault, law_search_finds_every_carrier,
    law_the_first_fault_is_reported, Loaded, Releases,
};
use crate::text::{
    cat3, cat4, cat5, chars_of, decimal, decimal_text, text_lt, text_lt_irreflexive, texts,
};
use crate::trust::redactions_view;
use vstd::prelude::*;

verus! {

/// Where an artifact can be fetched from.
pub enum FetchLocation {
    /// A URL.
    Url(Url),
    /// A peer.
    Iroh(EndpointId),
}

/// What a fetch location stands for.
#[verifier::ext_equal]
pub enum Place {
    Url(Seq<char>),
    Peer(EndpointId),
}

impl View for FetchLocation {
    type V = Place;

    open spec fn view(&self) -> Place {
        match *self {
            FetchLocation::Url(url) => Place::Url(url@),
            FetchLocation::Iroh(id) => Place::Peer(id),
        }
    }
}

/// What fetch locations stand for.
pub open spec fn places(s: Seq<FetchLocation>) -> Seq<Place> {
    s.map_values(|l: FetchLocation| l@)
}

/// What a location of a user leads to.
pub enum Lead {
    /// There.
    To(Place),
    /// Nowhere: the URL names no endpoint.
    Nowhere(EndpointError),
    /// To the endpoint of the user, who has none.
    NoEndpoint(Did),
}

/// What a location of a user leads to. A URL of an endpoint leads to the endpoint, and
/// one that names none to that of the user.
pub open spec fn lead_of(e: (Did, Seq<char>)) -> Lead {
    if scheme_of(e.1) == URL_SCHEME@ {
        match endpoint_of_url(e.1) {
            Ok(Some(id)) => Lead::To(Place::Peer(id)),
            Ok(None) => match EndpointId::spec_of_did(e.0) {
                Some(id) => Lead::To(Place::Peer(id)),
                None => Lead::NoEndpoint(e.0),
            },
            Err(err) => Lead::Nowhere(err),
        }
    } else {
        Lead::To(Place::Url(e.1))
    }
}

/// The places that locations lead to, each once, in the order in which they first occur.
pub open spec fn distinct_places(all: Seq<(Did, Seq<char>)>) -> Seq<Place>
    decreases all.len(),
{
    if all.len() == 0 {
        Seq::empty()
    } else {
        let before = distinct_places(all.drop_last());
        match lead_of(all.last()) {
            Lead::To(place) => if before.contains(place) {
                before
            } else {
                before.push(place)
            },
            _ => before,
        }
    }
}

/// What is said of the locations that lead nowhere.
pub open spec fn skipped(all: Seq<(Did, Seq<char>)>) -> Seq<Seq<char>>
    decreases all.len(),
{
    if all.len() == 0 {
        Seq::empty()
    } else {
        match lead_of(all.last()) {
            Lead::Nowhere(e) => skipped(all.drop_last()).push(
                "Warning: skipping location "@ + all.last().1 + ": "@ + e.text(),
            ),
            _ => skipped(all.drop_last()),
        }
    }
}

/// Whether no location leads to the endpoint of a user who has none.
pub open spec fn all_lead(all: Seq<(Did, Seq<char>)>) -> bool {
    forall|i: int| 0 <= i < all.len() ==> !(lead_of(#[trigger] all[i]) is NoEndpoint)
}

/// The locations of artifacts, one artifact after the other.
pub open spec fn listings(artifacts: Seq<&Artifact>) -> Seq<(Did, Seq<char>)>
    decreases artifacts.len(),
{
    if artifacts.len() == 0 {
        Seq::empty()
    } else {
        listings(artifacts.drop_last()) + listing(artifacts.last()@.locations)
    }
}

/// Where artifacts can be fetched from, and what is said on the way.
pub struct Leads {
    pub locations: Vec<FetchLocation>,
    pub warnings: Vec<String>,
    /// The user whose endpoint a location leads to, and who has none. The locations
    /// behind it were not looked at.
    pub failure: Option<Did>,
}

/// Whether `leads` is what comes of the locations.
pub open spec fn leads_of(leads: Leads, all: Seq<(Did, Seq<char>)>) -> bool {
    match leads.failure {
        None => all_lead(all) && places(leads.locations@) == distinct_places(all) && texts(
            leads.warnings@,
        ) == skipped(all),
        Some(did) => exists|i: int|
            {
                &&& 0 <= i < all.len()
                &&& all_lead(all.take(i))
                &&& lead_of(#[trigger] all[i]) == Lead::NoEndpoint(did)
                &&& texts(leads.warnings@) == skipped(all.take(i))
            },
    }
}

/// Whether a location of an artifact leads to a place.
pub open spec fn located_at(a: ArtifactView, did: Did, url: Seq<char>, place: Place) -> bool {
    a.locations.contains_key(did) && a.locations[did].contains(url) && lead_of((did, url))
        == Lead::To(place)
}

/// What one user contributed is listed, and nothing else.
proof fn lemma_list_users(m: Map<Did, Set<Seq<char>>>, dids: Seq<Did>, e: (Did, Seq<char>))
    requires
        forall|i: int| 0 <= i < dids.len() ==> m[#[trigger] dids[i]].finite(),
    ensures
        list_users(m, dids).contains(e) <==> dids.contains(e.0) && m[e.0].contains(e.1),
    decreases dids.len(),
{
    if dids.len() > 0 {
        let rest = dids.drop_last();
        let did = dids.last();
        let before = list_users(m, rest);
        let own = list_one(did, m[did]);
        assert(m[dids[dids.len() - 1]].finite());
        assert forall|i: int| 0 <= i < rest.len() implies m[#[trigger] rest[i]].finite() by {
            assert(m[dids[i]].finite());
        }
        lemma_list_users(m, rest, e);
        lemma_finite_in_order::<Url>(m[did]);
        let urls = in_order::<Url>(m[did]);
        assert(own.contains(e) <==> did == e.0 && m[did].contains(e.1)) by {
            if own.contains(e) {
                let i = choose|i: int| 0 <= i < own.len() && own[i] == e;
                assert(urls[i] == e.1);
                assert(urls.contains(e.1));
            }
            if did == e.0 && m[did].contains(e.1) {
                assert(urls.contains(e.1));
                let i = choose|i: int| 0 <= i < urls.len() && urls[i] == e.1;
                assert(own[i] == e);
            }
        }
        assert(list_users(m, dids).contains(e) <==> before.contains(e) || own.contains(e)) by {
            let all = before + own;
            if all.contains(e) {
                let i = choose|i: int| 0 <= i < all.len() && all[i] == e;
                if i < before.len() {
                    assert(before[i] == e);
                } else {
                    assert(own[i - before.len()] == e);
                }
            }
            if before.contains(e) {
                let i = choose|i: int| 0 <= i < before.len() && before[i] == e;
                assert(all[i] == e);
            }
            if own.contains(e) {
                let i = choose|i: int| 0 <= i < own.len() && own[i] == e;
                assert(all[before.len() + i] == e);
            }
        }
        assert(dids.contains(e.0) <==> rest.contains(e.0) || did == e.0) by {
            if dids.contains(e.0) {
                let i = choose|i: int| 0 <= i < dids.len() && dids[i] == e.0;
                if i < rest.len() {
                    assert(rest[i] == e.0);
                }
            }
            if rest.contains(e.0) {
                let i = choose|i: int| 0 <= i < rest.len() && rest[i] == e.0;
                assert(dids[i] == e.0);
            }
            if did == e.0 {
                assert(dids[dids.len() - 1] == e.0);
            }
        }
    }
}

/// What users contributed to an artifact is listed, and nothing else.
pub proof fn lemma_listing(a: ArtifactView, e: (Did, Seq<char>))
    requires
        finite_locations(a),
    ensures
        listing(a.locations).contains(e) <==> a.locations.contains_key(e.0)
            && a.locations[e.0].contains(e.1),
{
    let m = a.locations;
    lemma_finite_in_order::<Did>(m.dom());
    let dids = in_order::<Did>(m.dom());
    assert forall|i: int| 0 <= i < dids.len() implies m[#[trigger] dids[i]].finite() by {
        assert(dids.contains(dids[i]));
        assert(m.contains_key(dids[i]));
    }
    lemma_list_users(m, dids, e);
    assert(dids.contains(e.0) <==> m.contains_key(e.0));
}

/// The places that locations lead to are listed once each, and no others.
proof fn lemma_distinct_places(all: Seq<(Did, Seq<char>)>, place: Place)
    ensures
        distinct_places(all).no_duplicates(),
        distinct_places(all).contains(place) <==> exists|i: int|
            0 <= i < all.len() && lead_of(#[trigger] all[i]) == Lead::To(place),
    decreases all.len(),
{
    if all.len() > 0 {
        let rest = all.drop_last();
        let before = distinct_places(rest);
        let last = all[all.len() - 1];
        lemma_distinct_places(rest, place);
        if before.contains(place) {
            let i = choose|i: int|
                0 <= i < rest.len() && lead_of(#[trigger] rest[i]) == Lead::To(place);
            assert(lead_of(all[i]) == Lead::To(place));
        }
        if let Lead::To(there) = lead_of(last) {
            lemma_distinct_places(rest, there);
            let now = distinct_places(all);
            if !before.contains(there) {
                assert(now == before.push(there));
                assert(now[before.len() as int] == there);
                if before.contains(place) {
                    let i = choose|i: int| 0 <= i < before.len() && before[i] == place;
                    assert(now[i] == place);
                }
                if now.contains(place) && place != there {
                    let i = choose|i: int| 0 <= i < now.len() && now[i] == place;
                    assert(before[i] == place);
                }
            }
            assert(lead_of(all[all.len() - 1]) == Lead::To(there));
        }
        if exists|i: int| 0 <= i < all.len() && lead_of(#[trigger] all[i]) == Lead::To(place) {
            let i = choose|i: int|
                0 <= i < all.len() && lead_of(#[trigger] all[i]) == Lead::To(place);
            if i < rest.len() {
                assert(lead_of(rest[i]) == Lead::To(place));
            }
        }
    }
}

proof fn lemma_listings(artifacts: Seq<&Artifact>, e: (Did, Seq<char>))
    ensures
        listings(artifacts).contains(e) <==> exists|i: int|
            0 <= i < artifacts.len() && (#[trigger] listing(artifacts[i]@.locations)).contains(e),
    decreases artifacts.len(),
{
    if artifacts.len() > 0 {
        let rest = artifacts.drop_last();
        let before = listings(rest);
        let own = listing(artifacts.last()@.locations);
        let all = listings(artifacts);
        lemma_listings(rest, e);
        assert(all == before + own);
        if all.contains(e) {
            let i = choose|i: int| 0 <= i < all.len() && all[i] == e;
            if i < before.len() {
                assert(before[i] == e);
                let j = choose|j: int|
                    0 <= j < rest.len() && (#[trigger] listing(rest[j]@.locations)).contains(e);
                assert(listing(artifacts[j]@.locations).contains(e));
            } else {
                assert(own[i - before.len()] == e);
                assert(listing(artifacts[artifacts.len() - 1]@.locations).contains(e));
            }
        }
        if exists|i: int|
            0 <= i < artifacts.len() && (#[trigger] listing(artifacts[i]@.locations)).contains(e) {
            let i = choose|i: int|
                0 <= i < artifacts.len() && (#[trigger] listing(
                    artifacts[i]@.locations,
                )).contains(e);
            if i < rest.len() {
                assert(listing(rest[i]@.locations).contains(e));
                let j = choose|j: int| 0 <= j < before.len() && before[j] == e;
                assert(all[j] == e);
            } else {
                let j = choose|j: int| 0 <= j < own.len() && own[j] == e;
                assert(all[before.len() + j] == e);
            }
        }
    }
}

/// An artifact is sought wherever any of its releases says that it is: a place is among
/// those that are tried if and only if some location leads to it, and it is tried once.
pub proof fn law_every_place_is_tried_once(artifacts: Seq<&Artifact>, place: Place)
    ensures
        distinct_places(listings(artifacts)).no_duplicates(),
        distinct_places(listings(artifacts)).contains(place) <==> exists|
            i: int,
            did: Did,
            url: Seq<char>,
        |
            0 <= i < artifacts.len() && #[trigger] located_at(artifacts[i]@, did, url, place),
{
    let all = listings(artifacts);
    lemma_distinct_places(all, place);
    if distinct_places(all).contains(place) {
        let k = choose|k: int|
            0 <= k < all.len() && lead_of(#[trigger] all[k]) == Lead::To(place);
        let e = all[k];
        assert(all.contains(e));
        lemma_listings(artifacts, e);
        let i = choose|i: int|
            0 <= i < artifacts.len() && (#[trigger] listing(artifacts[i]@.locations)).contains(e);
        artifacts[i].lemma_finite_locations();
        lemma_listing(artifacts[i]@, e);
        assert(located_at(artifacts[i]@, e.0, e.1, place));
    }
    if exists|i: int, did: Did, url: Seq<char>|
        0 <= i < artifacts.len() && #[trigger] located_at(artifacts[i]@, did, url, place) {
        let (i, did, url) = choose|i: int, did: Did, url: Seq<char>|
            0 <= i < artifacts.len() && #[trigger] located_at(artifacts[i]@, did, url, place);
        let e = (did, url);
        artifacts[i].lemma_finite_locations();
        lemma_listing(artifacts[i]@, e);
        assert(listing(artifacts[i]@.locations).contains(e));
        lemma_listings(artifacts, e);
        let k = choose|k: int| 0 <= k < all.len() && all[k] == e;
        assert(lead_of(all[k]) == Lead::To(place));
    }
}

fn has_place(locations: &Vec<FetchLocation>, l: &FetchLocation) -> (r: bool)
    ensures
        r == places(locations@).contains(l@),
{
    let ghost all = places(locations@);
    let mut i: usize = 0;
    while i < locations.len()
        invariant
            i <= locations@.len(),
            all == places(locations@),
            forall|j: int| 0 <= j < i ==> all[j] != l@,
        decreases locations@.len() - i,
    {
        let same = match (&locations[i], l) {
            (FetchLocation::Url(a), FetchLocation::Url(b)) => a.same(b),
            (FetchLocation::Iroh(a), FetchLocation::Iroh(b)) => *a == *b,
            _ => false,
        };
        if same {
            assert(all[i as int] == l@);
            return true;
        }
        assert(all[i as int] != l@);
        i += 1;
    }
    false
}

/// Takes a location of the user `did`. Gives whether it leads somewhere, or nowhere, or
/// to the endpoint of a user who has none.
fn follow(leads: &mut Leads, did: &Did, url: &Url) -> (r: bool)
    requires
        old(leads).failure is None,
    ensures
        r == !(lead_of((*did, url@)) is NoEndpoint),
        final(leads).failure == (if r {
            None
        } else {
            Some(*did)
        }),
        places(final(leads).locations@) == (match lead_of((*did, url@)) {
            Lead::To(place) => if places(old(leads).locations@).contains(place) {
                places(old(leads).locations@)
            } else {
                places(old(leads).locations@).push(place)
            },
            _ => places(old(leads).locations@),
        }),
        texts(final(leads).warnings@) == (match lead_of((*did, url@)) {
            Lead::Nowhere(e) => texts(old(leads).warnings@).push(
                "Warning: skipping location "@ + url@ + ": "@ + e.text(),
            ),
            _ => texts(old(leads).warnings@),
        }),
{
    let ghost before = leads.locations@;
    let ghost warned = leads.warnings@;
    let place = if EndpointId::is_endpoint_url(url) {
        match EndpointId::from_url(url) {
            Ok(Some(id)) => FetchLocation::Iroh(id),
            Ok(None) => match EndpointId::of_did(did) {
                Some(id) => FetchLocation::Iroh(id),
                None => {
                    leads.failure = Some(*did);
                    return false;
                },
            },
            Err(e) => {
                let said = e.message();
                leads.warnings.push(
                    cat4("Warning: skipping location ", url.as_str(), ": ", said.as_str()),
                );
                assert(texts(leads.warnings@) =~= texts(warned).push(
                    "Warning: skipping location "@ + url@ + ": "@ + e.text(),
                ));
                return true;
            },
        }
    } else {
        FetchLocation::Url(url.clone())
    };
    if !has_place(&leads.locations, &place) {
        leads.locations.push(place);
        assert(places(leads.locations@) =~= places(before).push(place@));
    }
    true
}

/// Where artifacts can be fetched from: the places that their locations lead to, each
/// once. A URL that names no endpoint is passed over, so that one bad entry does not keep
/// an artifact from being fetched.
pub fn artifact_locations(artifacts: &Vec<&Artifact>) -> (r: Leads)
    ensures
        leads_of(r, listings(artifacts@)),
{
    let ghost all = listings(artifacts@);
    let mut leads = Leads { locations: Vec::new(), warnings: Vec::new(), failure: None };
    let ghost mut done: Seq<(Did, Seq<char>)> = Seq::empty();
    assert(places(leads.locations@) =~= Seq::<Place>::empty());
    assert(texts(leads.warnings@) =~= Seq::<Seq<char>>::empty());
    let mut i: usize = 0;
    while i < artifacts.len()
        invariant
            i <= artifacts@.len(),
            all == listings(artifacts@),
            done == listings(artifacts@.take(i as int)),
            leads.failure is None,
            all_lead(done),
            places(leads.locations@) == distinct_places(done),
            texts(leads.warnings@) == skipped(done),
        decreases artifacts@.len() - i,
    {
        let located = artifacts[i].located();
        let ghost own = listing(artifacts@[i as int]@.locations);
        let ghost start = done;
        proof {
            assert(artifacts@.take(i + 1).drop_last() =~= artifacts@.take(i as int));
            lemma_listings_prefix(artifacts@, i + 1);
            assert(own.take(0) =~= Seq::<(Did, Seq<char>)>::empty());
            assert(start + own.take(0) =~= start);
        }
        let mut j: usize = 0;
        while j < located.len()
            invariant
                i < artifacts@.len(),
                j <= located@.len(),
                all == listings(artifacts@),
                list_view(located@) == own,
                (start + own).is_prefix_of(all),
                done == start + own.take(j as int),
                leads.failure is None,
                all_lead(done),
                places(leads.locations@) == distinct_places(done),
                texts(leads.warnings@) == skipped(done),
            decreases located@.len() - j,
        {
            let (did, url) = located[j];
            let ghost e = own[j as int];
            proof {
                assert(list_view(located@)[j as int] == e);
                assert(own.take(j + 1) =~= own.take(j as int).push(e));
                assert((start + own)[start.len() + j] == e);
                assert(all[start.len() + j] == e);
                assert(all.take((start.len() + j) as int) =~= done) by {
                    assert forall|k: int| 0 <= k < done.len() implies all[k] == done[k] by {
                        assert((start + own)[k] == all[k]);
                    }
                }
            }
            let ok = follow(&mut leads, &did, url);
            if !ok {
                assert(lead_of(all[(start.len() + j) as int]) == Lead::NoEndpoint(did));
                return leads;
            }
            proof {
                let next = start + own.take(j + 1);
                assert(next =~= done.push(e));
                assert(next.drop_last() =~= done);
                assert(next.last() == e);
                assert(all_lead(next)) by {
                    assert forall|k: int| 0 <= k < next.len() implies !(lead_of(
                        #[trigger] next[k],
                    ) is NoEndpoint) by {
                        if k < done.len() {
                            assert(next[k] == done[k]);
                        }
                    }
                }
                done = next;
            }
            j += 1;
        }
        proof {
            assert(list_view(located@).len() == located@.len());
            assert(own.take(j as int) =~= own);
        }
        i += 1;
    }
    assert(artifacts@.take(i as int) =~= artifacts@);
    leads
}

proof fn lemma_listings_prefix(artifacts: Seq<&Artifact>, n: int)
    requires
        0 <= n <= artifacts.len(),
    ensures
        listings(artifacts.take(n)).is_prefix_of(listings(artifacts)),
    decreases artifacts.len() - n,
{
    if n == artifacts.len() {
        assert(artifacts.take(n) =~= artifacts);
    } else {
        lemma_listings_prefix(artifacts, n + 1);
        assert(artifacts.take(n + 1).drop_last() =~= artifacts.take(n));
        let a = listings(artifacts.take(n));
        let b = listings(artifacts.take(n + 1));
        let c = listings(artifacts);
        assert(a =~= c.subrange(0, a.len() as int)) by {
            assert forall|k: int| 0 <= k < a.len() implies a[k] == c[k] by {
                assert(b[k] == a[k]);
                assert(c.subrange(0, b.len() as int)[k] == c[k]);
            }
        }
    }
}

/// No place is tried twice, however many users and releases lead to it.
pub proof fn law_no_place_is_tried_twice(all: Seq<(Did, Seq<char>)>)
    ensures
        distinct_places(all).no_duplicates(),
    decreases all.len(),
{
    if all.len() > 0 {
        law_no_place_is_tried_twice(all.drop_last());
    }
}

/// Every place that a location leads to is tried.
pub proof fn law_every_place_is_tried(all: Seq<(Did, Seq<char>)>, i: int)
    requires
        0 <= i < all.len(),
        lead_of(all[i]) is To,
    ensures
        distinct_places(all).contains(lead_of(all[i])->To_0),
    decreases all.len(),
{
    let before = distinct_places(all.drop_last());
    if i < all.len() - 1 {
        law_every_place_is_tried(all.drop_last(), i);
        let place = lead_of(all[i])->To_0;
        let k = choose|k: int| 0 <= k < before.len() && before[k] == place;
        assert(distinct_places(all)[k] == place);
    } else {
        let place = lead_of(all[i])->To_0;
        if !before.contains(place) {
            assert(distinct_places(all)[before.len() as int] == place);
        }
    }
}

/// Why an artifact cannot be got.
pub enum ShareError {
    /// The command cannot be done, for this reason.
    Usage(String),
    /// No release has the artifact.
    ArtifactNotFound(Cid),
    /// There is nowhere to get it from.
    NoLocationsForCid {
        cid: Cid,
    },
    /// A location leads to the endpoint of a user who has none.
    NoEndpoint(Did),
}

impl ShareError {
    /// The error as text.
    pub open spec fn text(self) -> Seq<char> {
        match self {
            ShareError::Usage(s) => s@,
            ShareError::ArtifactNotFound(cid) => "artifact with CID "@ + cid.text()
                + " not found"@,
            ShareError::NoLocationsForCid { cid } => "no download locations known for artifact "@
                + cid.text()
                + "\n  hint: pass --url <URL> to fetch directly, or ask a seeder to run `rad-artifact seed`"@,
            ShareError::NoEndpoint(did) => "the key of "@ + did.text() + " names no endpoint"@,
        }
    }

    /// The error as text.
    pub fn message(&self) -> (r: String)
        ensures
            r@ == self.text(),
    {
        match self {
            ShareError::Usage(s) => s.as_str().to_owned(),
            ShareError::ArtifactNotFound(cid) => {
                let shown = cid.to_text();
                cat3("artifact with CID ", shown.as_str(), " not found")
            },
            ShareError::NoLocationsForCid { cid } => {
                let shown = cid.to_text();
                cat3(
                    "no download locations known for artifact ",
                    shown.as_str(),
                    "\n  hint: pass --url <URL> to fetch directly, or ask a seeder to run `rad-artifact seed`",
                )
            },
            ShareError::NoEndpoint(did) => {
                let shown = did.encode();
                cat3("the key of ", shown.as_str(), " names no endpoint")
            },
        }
    }
}

/// What is to be got.
pub struct Retrieval {
    pub cid: Cid,
    pub locations: Vec<FetchLocation>,
    /// The release that a location of the user goes to.
    pub primary_id: ReleaseId,
    /// The name of the artifact there.
    pub name: String,
}

/// The times of releases.
pub open spec fn release_times(s: Seq<(ReleaseId, Release)>) -> Seq<u64> {
    s.map_values(|e: (ReleaseId, Release)| e.1@.timestamp)
}

/// Whether the release in place `i` is the one to take: the first of the commit, or the
/// latest where no commit was named.
pub open spec fn is_primary(s: Seq<(ReleaseId, Release)>, oid: Option<Oid>, i: int) -> bool {
    match oid {
        Some(oid) => {
            &&& 0 <= i < s.len()
            &&& s[i].1@.oid == oid
            &&& forall|j: int| 0 <= j < i ==> (#[trigger] s[j]).1@.oid != oid
        },
        None => is_latest(release_times(s), i),
    }
}

/// Whether a release of the commit is among them.
pub open spec fn has_commit(s: Seq<(ReleaseId, Release)>, oid: Oid) -> bool {
    exists|i: int| 0 <= i < s.len() && (#[trigger] s[i]).1@.oid == oid
}

/// The redactions of an artifact in all releases that have it. Of two by one user the
/// first counts.
pub open spec fn all_redactions(s: Seq<(ReleaseId, Release)>, cid: Cid) -> Map<Did, Seq<char>>
    decreases s.len(),
{
    if s.len() == 0 {
        Map::empty()
    } else {
        s.last().1@.get(cid).redactions.union_prefer_right(all_redactions(s.drop_last(), cid))
    }
}

/// The locations of an artifact in all releases that have it.
pub open spec fn artifact_listings(s: Seq<(ReleaseId, Release)>, cid: Cid) -> Seq<
    (Did, Seq<char>),
>
    decreases s.len(),
{
    if s.len() == 0 {
        Seq::empty()
    } else {
        artifact_listings(s.drop_last(), cid) + listing(s.last().1@.get(cid).locations)
    }
}

/// What is said before an artifact is got: that it is redacted, if it is, and its name.
pub open spec fn opening_notes(
    redactions: Map<Did, Seq<char>>,
    name: Seq<char>,
    cid: Cid,
) -> Seq<Seq<char>> {
    redaction_warning(redactions).push("Artifact: "@ + name + " (CID: "@ + cid.text() + ")"@)
}

fn take_redactions(acc: &mut SortedMap<Did, String>, artifact: &Artifact)
    ensures
        redactions_view(*final(acc)) == artifact@.redactions.union_prefer_right(
            redactions_view(*old(acc)),
        ),
{
    let map = artifact.redactions();
    let ghost s = map.seq();
    let ghost own = redactions_view(*acc);
    let ghost theirs = artifact@.redactions;
    proof {
        use_type_invariant(map);
        crate::sorted::lemma_keys_in_order(s);
    }
    let mut i: usize = 0;
    while i < map.len()
        invariant
            i <= s.len(),
            s == map.seq(),
            theirs == map@.map_values(|s: String| s@),
            forall|j: int|
                0 <= j < s.len() ==> map@.contains_key(#[trigger] s[j].0@) && map@[s[j].0@]
                    == s[j].1,
            forall|d: Did|
                #[trigger] acc@.contains_key(d) <==> own.contains_key(d) || exists|j: int|
                    #![trigger s[j]]
                    0 <= j < i && s[j].0@ == d,
            forall|d: Did| #[trigger]
                acc@.contains_key(d) ==> acc@[d]@ == (if own.contains_key(d) {
                    own[d]
                } else {
                    theirs[d]
                }),
        decreases s.len() - i,
    {
        let did = *map.key_at(i);
        assert(s[i as int].0@ == did);
        let ghost before = acc@;
        if !acc.contains_key(&did) {
            acc.insert(did, map.value_of(i).as_str().to_owned());
        }
        proof {
            assert forall|d: Did| #[trigger] acc@.contains_key(d) <==> own.contains_key(d)
                || exists|j: int|
                #![trigger s[j]]
                0 <= j < i + 1 && s[j].0@ == d by {
                if acc@.contains_key(d) && !before.contains_key(d) {
                    assert(d == did);
                    assert(s[i as int].0@ == d);
                }
                if exists|j: int| #![trigger s[j]] 0 <= j < i + 1 && s[j].0@ == d {
                    let j = choose|j: int| #![trigger s[j]] 0 <= j < i + 1 && s[j].0@ == d;
                    if j < i {
                        assert(before.contains_key(d));
                    }
                }
            }
        }
        i += 1;
    }
    proof {
        assert forall|d: Did| theirs.contains_key(d) implies acc@.contains_key(d) by {
            assert(map@.contains_key(d));
            assert(crate::sorted::map_of(s).contains_key(d));
            let j = choose|j: int| 0 <= j < s.len() && #[trigger] s[j].0@ == d;
            assert(s[j].0@ == d);
        }
        assert(redactions_view(*acc) =~= theirs.union_prefer_right(own));
    }
}

/// Whether a retrieval is the right one.
pub open spec fn retrieves(
    r: Retrieval,
    found: Seq<(ReleaseId, Release)>,
    oid: Option<Oid>,
    cid: Cid,
) -> bool {
    &&& r.cid == cid
    &&& exists|i: int|
        #[trigger] is_primary(found, oid, i) && r.primary_id == found[i].0 && r.name@
            == found[i].1@.get(cid).name
}

/// Finds an artifact and where it can be had. The same artifact may be in more than one
/// release: the locations in all of them count, and so do the redactions. `url` is where
/// the user wants it from. Beside the outcome stands what is said on the way.
pub fn resolve_retrieval(
    oid: Option<Oid>,
    cid: Cid,
    url: Option<&Url>,
    require_locations: bool,
    releases: &Releases,
) -> (r: (Vec<String>, Result<Retrieval, ShareError>))
    ensures
        ({
            let found = carrying(releases.items@, cid);
            let all = artifact_listings(found, cid);
            let (notes, outcome) = r;
            if !all_read(releases.items@) {
                notes@.len() == 0 && (outcome matches Err(ShareError::Usage(e)) && first_fault(
                    releases.items@,
                    e,
                ))
            } else if found.len() == 0 {
                notes@.len() == 0 && outcome == Err::<Retrieval, ShareError>(
                    ShareError::ArtifactNotFound(cid),
                )
            } else if oid is Some && !has_commit(found, oid->0) {
                notes@.len() == 0 && (outcome matches Err(ShareError::Usage(e)) && e@
                    == "artifact "@ + cid.text() + " is not associated with commit "@
                    + oid->0.text())
            } else {
                exists|i: int|
                    {
                        let head = opening_notes(
                            all_redactions(found, cid),
                            found[i].1@.get(cid).name,
                            cid,
                        );
                        &&& #[trigger] is_primary(found, oid, i)
                        &&& match outcome {
                            Ok(got) => {
                                &&& retrieves(got, found, oid, cid)
                                &&& require_locations ==> got.locations@.len() > 0
                                &&& match url {
                                    Some(url) => places(got.locations@) == seq![Place::Url(url@)]
                                        && texts(notes@) == head,
                                    None => all_lead(all) && places(got.locations@)
                                        == distinct_places(all) && texts(notes@) == head
                                        + skipped(all),
                                }
                            },
                            Err(ShareError::NoLocationsForCid { cid: c }) => {
                                &&& c == cid
                                &&& url is None
                                &&& require_locations
                                &&& all_lead(all)
                                &&& distinct_places(all).len() == 0
                                &&& texts(notes@) == head + skipped(all)
                            },
                            Err(ShareError::NoEndpoint(did)) => {
                                &&& url is None
                                &&& exists|k: int|
                                    {
                                        &&& 0 <= k < all.len()
                                        &&& all_lead(all.take(k))
                                        &&& lead_of(#[trigger] all[k]) == Lead::NoEndpoint(did)
                                        &&& texts(notes@) == head + skipped(all.take(k))
                                    }
                            },
                            Err(_) => false,
                        }
                    }
            }
        }),
{
    let ghost found_spec = carrying(releases.items@, cid);
    let ghost all = artifact_listings(found_spec, cid);
    let found = match releases.find_by_cid(&cid) {
        Ok(found) => found,
        Err(e) => {
            proof {
                lemma_fault(releases.items@, *e);
            }
            return (Vec::new(), Err(ShareError::Usage(e.clone())));
        },
    };
    assert(found@.map_values(|e: (ReleaseId, &Release)| (e.0, *e.1)) == found_spec);
    assert(found@.len() == found_spec.len()) by {
        assert(found@.map_values(|e: (ReleaseId, &Release)| (e.0, *e.1)).len() == found@.len());
    }
    assert forall|k: int| 0 <= k < found@.len() implies (#[trigger] found@[k]).0 == found_spec[k].0
        && *found@[k].1 == found_spec[k].1 by {
        assert(found@.map_values(|e: (ReleaseId, &Release)| (e.0, *e.1))[k] == found_spec[k]);
    }
    if found.len() == 0 {
        return (Vec::new(), Err(ShareError::ArtifactNotFound(cid)));
    }
    let primary: usize = match primary_of(&found, oid, Ghost(found_spec)) {
        Some(i) => i,
        None => {
            let shown = cid.to_text();
            let commit = match oid {
                Some(oid) => oid.to_text(),
                None => {
                    assert(false);
                    String::new()
                },
            };
            return (
                Vec::new(),
                Err(
                    ShareError::Usage(
                        cat4(
                            "artifact ",
                            shown.as_str(),
                            " is not associated with commit ",
                            commit.as_str(),
                        ),
                    ),
                ),
            );
        },
    };
    proof {
        if oid is Some {
            assert(found_spec[primary as int].1@.oid == oid->0);
        }
    }
    let mut redactions: SortedMap<Did, String> = SortedMap::new();
    let mut artifacts: Vec<&Artifact> = Vec::new();
    proof {
        assert(redactions_view(redactions) =~= Map::<Did, Seq<char>>::empty());
    }
    let mut i: usize = 0;
    while i < found.len()
        invariant
            i <= found@.len(),
            found@.len() == found_spec.len(),
            found_spec == carrying(releases.items@, cid),
            forall|k: int|
                0 <= k < found@.len() ==> (#[trigger] found@[k]).0 == found_spec[k].0
                    && *found@[k].1 == found_spec[k].1,
            redactions_view(redactions) == all_redactions(found_spec.take(i as int), cid),
            listings(artifacts@) == artifact_listings(found_spec.take(i as int), cid),
            artifacts@.len() == i,
            forall|k: int|
                0 <= k < i ==> (#[trigger] artifacts@[k])@ == found_spec[k].1@.get(cid),
        decreases found@.len() - i,
    {
        proof {
            lemma_carries(releases.items@, cid, i as int);
            assert(found_spec.take(i + 1).drop_last() =~= found_spec.take(i as int));
            assert(*found@[i as int].1 == found_spec[i as int].1);
        }
        match found[i].1.artifact(&cid) {
            Some(artifact) => {
                take_redactions(&mut redactions, artifact);
                let ghost before = artifacts@;
                artifacts.push(artifact);
                assert(artifacts@.drop_last() =~= before);
            },
            None => {
                assert(false);
            },
        }
        i += 1;
    }
    assert(found_spec.take(i as int) =~= found_spec);
    let name = artifacts[primary].name().to_owned();
    let mut notes = redaction_notes(&redactions);
    let shown = cid.to_text();
    let ghost before = notes@;
    notes.push(cat5("Artifact: ", name.as_str(), " (CID: ", shown.as_str(), ")"));
    let ghost head = opening_notes(all_redactions(found_spec, cid), name@, cid);
    assert(texts(notes@) =~= head);
    let primary_id = found[primary].0;
    let locations = match url {
        Some(url) => {
            let mut one: Vec<FetchLocation> = Vec::new();
            one.push(FetchLocation::Url(url.clone()));
            assert(places(one@) =~= seq![Place::Url(url@)]);
            one
        },
        None => {
            let leads = artifact_locations(&artifacts);
            let mut warnings = leads.warnings;
            let ghost said = texts(warnings@);
            let ghost start = texts(notes@);
            let mut j: usize = 0;
            assert(start + said.take(0) =~= start);
            while j < warnings.len()
                invariant
                    j <= warnings@.len(),
                    said == texts(warnings@),
                    texts(notes@) == start + said.take(j as int),
                decreases warnings@.len() - j,
            {
                let ghost pushed = notes@;
                notes.push(warnings[j].as_str().to_owned());
                proof {
                    assert(texts(notes@) =~= texts(pushed).push(said[j as int]));
                    assert(start + said.take(j + 1) =~= (start + said.take(j as int)).push(
                        said[j as int],
                    ));
                }
                j += 1;
            }
            assert(said.take(j as int) =~= said);
            match leads.failure {
                Some(did) => {
                    return (notes, Err(ShareError::NoEndpoint(did)));
                },
                None => {},
            }
            if leads.locations.len() == 0 && require_locations {
                assert(places(leads.locations@).len() == 0);
                return (notes, Err(ShareError::NoLocationsForCid { cid }));
            }
            leads.locations
        },
    };
    (notes, Ok(Retrieval { cid, locations, primary_id, name }))
}

proof fn lemma_fault(items: Seq<crate::store::Loaded>, e: String)
    requires
        first_fault(items, e),
    ensures
        !all_read(items),
{
}

proof fn lemma_carries(items: Seq<crate::store::Loaded>, cid: Cid, i: int)
    requires
        0 <= i < carrying(items, cid).len(),
    ensures
        carrying(items, cid)[i].1@.has(cid),
    decreases items.len(),
{
    let rest = carrying(items.drop_last(), cid);
    if i < rest.len() {
        lemma_carries(items.drop_last(), cid, i);
    }
}

/// The place of the release to take.
fn primary_of(
    found: &Vec<(ReleaseId, &Release)>,
    oid: Option<Oid>,
    Ghost(spec): Ghost<Seq<(ReleaseId, Release)>>,
) -> (r: Option<usize>)
    requires
        found@.len() > 0,
        found@.len() == spec.len(),
        forall|k: int|
            0 <= k < found@.len() ==> (#[trigger] found@[k]).0 == spec[k].0 && *found@[k].1
                == spec[k].1,
    ensures
        match r {
            Some(i) => is_primary(spec, oid, i as int) && i < found@.len(),
            None => oid is Some && !has_commit(spec, oid->0),
        },
{
    match oid {
        Some(commit) => {
            let mut i: usize = 0;
            while i < found.len()
                invariant
                    i <= found@.len(),
                    found@.len() == spec.len(),
                    oid == Some(commit),
                    forall|k: int|
                        0 <= k < found@.len() ==> (#[trigger] found@[k]).0 == spec[k].0
                            && *found@[k].1 == spec[k].1,
                    forall|j: int| 0 <= j < i ==> (#[trigger] spec[j]).1@.oid != commit,
                decreases found@.len() - i,
            {
                assert(*found@[i as int].1 == spec[i as int].1);
                if *found[i].1.oid() == commit {
                    return Some(i);
                }
                i += 1;
            }
            None
        },
        None => {
            let mut times: Vec<u64> = Vec::new();
            let mut i: usize = 0;
            while i < found.len()
                invariant
                    i <= found@.len(),
                    found@.len() == spec.len(),
                    forall|k: int|
                        0 <= k < found@.len() ==> (#[trigger] found@[k]).0 == spec[k].0
                            && *found@[k].1 == spec[k].1,
                    times@ == release_times(spec).take(i as int),
                decreases found@.len() - i,
            {
                assert(*found@[i as int].1 == spec[i as int].1);
                times.push(found[i].1.timestamp());
                i += 1;
                assert(times@ =~= release_times(spec).take(i as int));
            }
            assert(times@ =~= release_times(spec));
            latest(&times)
        },
    }
}

/// The number of URLs among the locations.
pub open spec fn url_count(s: Seq<FetchLocation>) -> nat
    decreases s.len(),
{
    if s.len() == 0 {
        0
    } else if s.last() is Url {
        url_count(s.drop_last()) + 1
    } else {
        url_count(s.drop_last())
    }
}

/// What is said before an artifact is fetched: that the store has it already, or what is
/// tried.
pub fn retrieval_plan(already_local: bool, locations: &Vec<FetchLocation>) -> (r: String)
    ensures
        r@ == (if already_local {
            "Already in local store"@
        } else {
            "Trying "@ + decimal_text(locations@.len()) + " location"@ + (if locations@.len()
                == 1 {
                ""@
            } else {
                "s"@
            }) + " ("@ + decimal_text(url_count(locations@)) + " url, "@ + decimal_text(
                (locations@.len() - url_count(locations@)) as nat,
            ) + " iroh)..."@
        }),
{
    if already_local {
        return "Already in local store".to_owned();
    }
    let mut urls: usize = 0;
    let mut i: usize = 0;
    while i < locations.len()
        invariant
            i <= locations@.len(),
            urls == url_count(locations@.take(i as int)),
            urls <= i,
        decreases locations@.len() - i,
    {
        assert(locations@.take(i + 1).drop_last() =~= locations@.take(i as int));
        match &locations[i] {
            FetchLocation::Url(_) => {
                urls += 1;
            },
            FetchLocation::Iroh(_) => {},
        }
        i += 1;
    }
    assert(locations@.take(i as int) =~= locations@);
    let n: usize = locations.len();
    let count = decimal(n as u64);
    let url_text = decimal(urls as u64);
    let peer_text = decimal((n - urls) as u64);
    let mut s = cat3("Trying ", count.as_str(), " location");
    s.append(if n == 1 { "" } else { "s" });
    s.append(" (");
    s.append(url_text.as_str());
    s.append(" url, ");
    s.append(peer_text.as_str());
    s.append(" iroh)...");
    s
}

/// The name of the file that an artifact is written to where the user gave none: its own,
/// without spaces.
pub open spec fn unspaced(s: Seq<char>) -> Seq<char> {
    s.map_values(|c: char| if c == ' ' { '_' } else { c })
}

/// The name of the file that an artifact is written to where the user gave none.
pub fn default_output(name: &str) -> (r: String)
    ensures
        r@ == unspaced(name@),
{
    let chars = chars_of(name);
    let mut s = String::new();
    let mut i: usize = 0;
    while i < chars.len()
        invariant
            i <= chars@.len(),
            chars@ == name@,
            s@ == unspaced(name@).take(i as int),
        decreases chars@.len() - i,
    {
        s.push(if chars[i] == ' ' { '_' } else { chars[i] });
        i += 1;
        assert(s@ =~= unspaced(name@).take(i as int));
    }
    assert(s@ =~= unspaced(name@));
    s
}

/// The release under which an artifact is seeded, if it is: the one that the location
/// goes to.
pub fn seed_under(seed: bool, primary: &ReleaseId) -> (r: Option<Oid>)
    ensures
        r == (if seed {
            Some(primary.id)
        } else {
            None
        }),
{
    if seed {
        Some(primary.oid())
    } else {
        None
    }
}

/// What is said once an artifact is seeded.
pub fn seeding_note(cid: &Cid, primary: &ReleaseId) -> (r: String)
    ensures
        r@ == "Now seeding "@ + cid.text() + "; added location to release "@ + primary.id.short(),
{
    let shown = cid.to_text();
    let short = primary.oid().to_short();
    cat4("Now seeding ", shown.as_str(), "; added location to release ", short.as_str())
}

/// What is said once an artifact is fetched: nothing where the store had it.
pub fn fetched_note(cid: &Cid, from_cache: bool) -> (r: Option<String>)
    ensures
        match r {
            Some(s) => !from_cache && s@ == "Fetched "@ + cid.text() + " into the store"@,
            None => from_cache,
        },
{
    if from_cache {
        None
    } else {
        let shown = cid.to_text();
        Some(cat3("Fetched ", shown.as_str(), " into the store"))
    }
}

proof fn lemma_artifact_listings(s: Seq<(ReleaseId, Release)>, cid: Cid, e: (Did, Seq<char>))
    ensures
        artifact_listings(s, cid).contains(e) <==> exists|id: ReleaseId, r: Release| #[trigger]
            s.contains((id, r)) && listing(r@.get(cid).locations).contains(e),
    decreases s.len(),
{
    if s.len() > 0 {
        lemma_artifact_listings(s.drop_last(), cid, e);
        lemma_add_has(
            artifact_listings(s.drop_last(), cid),
            listing(s.last().1@.get(cid).locations),
            e,
        );
        lemma_last_splits(s);
        let (id, r) = s.last();
        assert(s.contains((id, r)));
    }
}

/// What the releases that have an artifact list as its locations is what users
/// contributed to it there.
proof fn lemma_contributed(items: Seq<Loaded>, cid: Cid, e: (Did, Seq<char>))
    requires
        forall|i: int|
            0 <= i < items.len() && (#[trigger] items[i]) is Ok ==> items[i]->Ok_0.1@.distinct(),
    ensures
        artifact_listings(carrying(items, cid), cid).contains(e) <==> exists|
            id: ReleaseId,
            r: Release,
            a: ArtifactView,
        |
            #![trigger items.contains(Ok((id, r))), r@.artifacts.contains((cid, a))]
            items.contains(Ok((id, r))) && r@.artifacts.contains((cid, a))
                && a.locations.contains_key(e.0) && a.locations[e.0].contains(e.1),
{
    let found = carrying(items, cid);
    lemma_artifact_listings(found, cid, e);
    law_search_finds_every_carrier(items, cid);
    assert forall|id: ReleaseId, r: Release| #[trigger] items.contains(Ok((id, r))) && r@.has(
        cid,
    ) implies finite_locations(r@.get(cid)) && (listing(r@.get(cid).locations).contains(e)
        <==> r@.get(cid).locations.contains_key(e.0) && r@.get(cid).locations[e.0].contains(
        e.1,
    )) by {
        r.lemma_finite_locations();
        r@.lemma_holds(cid);
        let k = choose|k: int|
            0 <= k < r@.artifacts.len() && r@.artifacts[k] == (cid, r@.get(cid));
        assert(finite_locations(r@.artifacts[k].1));
        lemma_listing(r@.get(cid), e);
    }
    assert forall|id: ReleaseId, r: Release, a: ArtifactView|
        #![trigger items.contains(Ok((id, r))), r@.artifacts.contains((cid, a))]
        items.contains(Ok((id, r))) && r@.artifacts.contains((cid, a)) implies r@.has(cid)
        && r@.get(cid) == a && found.contains((id, r)) by {
        let i = choose|i: int|
            0 <= i < items.len() && items[i] == Ok::<(ReleaseId, Release), String>((id, r));
        assert(items[i] is Ok);
        r@.lemma_holds(cid);
    }
    if artifact_listings(found, cid).contains(e) {
        let (id, r) = choose|id: ReleaseId, r: Release| #[trigger]
            found.contains((id, r)) && listing(r@.get(cid).locations).contains(e);
        assert(items.contains(Ok((id, r))));
        r@.lemma_holds(cid);
        assert(r@.artifacts.contains((cid, r@.get(cid))));
    }
}

/// An artifact is sought wherever a release says that it is. A place is among those that
/// are tried if and only if some release that could be read has, in its artifact of that
/// CID, some user's URL that leads there; and it is tried once.
pub proof fn law_every_release_names_places(items: Seq<Loaded>, cid: Cid, place: Place)
    requires
        forall|i: int|
            0 <= i < items.len() && (#[trigger] items[i]) is Ok ==> items[i]->Ok_0.1@.distinct(),
    ensures
        distinct_places(artifact_listings(carrying(items, cid), cid)).no_duplicates(),
        distinct_places(artifact_listings(carrying(items, cid), cid)).contains(place) <==> exists|
            id: ReleaseId,
            r: Release,
            a: ArtifactView,
            did: Did,
            url: Seq<char>,
        |
            #![trigger items.contains(Ok((id, r))), r@.artifacts.contains((cid, a)), a.locations[did].contains(url)]
            items.contains(Ok((id, r))) && r@.artifacts.contains((cid, a))
                && a.locations.contains_key(did) && a.locations[did].contains(url) && lead_of(
                (did, url),
            ) == Lead::To(place),
{
    let all = artifact_listings(carrying(items, cid), cid);
    lemma_distinct_places(all, place);
    if distinct_places(all).contains(place) {
        let k = choose|k: int|
            0 <= k < all.len() && lead_of(#[trigger] all[k]) == Lead::To(place);
        assert(all.contains(all[k]));
        lemma_contributed(items, cid, all[k]);
        let (did, url) = all[k];
        let (id, r, a) = choose|id: ReleaseId, r: Release, a: ArtifactView|
            #![trigger items.contains(Ok((id, r))), r@.artifacts.contains((cid, a))]
            items.contains(Ok((id, r))) && r@.artifacts.contains((cid, a))
                && a.locations.contains_key(did) && a.locations[did].contains(url);
        assert(a.locations[did].contains(url));
    }
    assert forall|id: ReleaseId, r: Release, a: ArtifactView, did: Did, url: Seq<char>|
        #![trigger items.contains(Ok((id, r))), r@.artifacts.contains((cid, a)), a.locations[did].contains(url)]
        items.contains(Ok((id, r))) && r@.artifacts.contains((cid, a))
            && a.locations.contains_key(did) && a.locations[did].contains(url) && lead_of(
            (did, url),
        ) == Lead::To(place) implies distinct_places(all).contains(place) by {
        lemma_contributed(items, cid, (did, url));
        let k = choose|k: int| 0 <= k < all.len() && all[k] == (did, url);
        assert(lead_of(all[k]) == Lead::To(place));
    }
}

/// Where a location of a user leads, told from the URL alone. A URL of another scheme
/// leads to itself. A URL of an endpoint leads to the endpoint whose key its host spells,
/// and to the endpoint of the user where it has no host.
pub proof fn law_urls_lead_where_they_say(did: Did, url: Seq<char>, id: EndpointId, u: Seq<char>)
    ensures
        lead_of((did, url)) == Lead::To(Place::Url(u)) <==> scheme_of(url) != "radiroh"@ && u == url,
        lead_of((did, url)) == Lead::To(Place::Peer(id)) <==> scheme_of(url) == "radiroh"@
            && curve_point(id.key.hi, id.key.lo) && match url_host(url) {
            Some(host) => host == base32_text(id.key),
            None => did.key == id.key,
        },
        lead_of((did, url)) == Lead::NoEndpoint(did) <==> scheme_of(url) == "radiroh"@ && url_host(
            url,
        ) is None && !curve_point(did.key.hi, did.key.lo),
{
    if let Some(host) = url_host(url) {
        if exists|k: Key| host == base32_text(k) {
            let key = choose|k: Key| host == base32_text(k);
            if host == base32_text(id.key) {
                base32_text_injective(key, id.key);
            }
        } else if host == base32_text(id.key) {
            assert(false);
        }
    }
    if did.key == id.key {
        assert(EndpointId { key: did.key } == id);
    }
}

/// The redactions of an artifact are those in all releases that have it, and of two by one
/// user the one in the first release counts.
pub proof fn law_redactions_of_all_releases_count(s: Seq<(ReleaseId, Release)>, cid: Cid, d: Did)
    ensures
        all_redactions(s, cid).contains_key(d) <==> exists|i: int|
            0 <= i < s.len() && (#[trigger] s[i]).1@.get(cid).redactions.contains_key(d),
        all_redactions(s, cid).contains_key(d) ==> exists|i: int|
            {
                &&& 0 <= i < s.len()
                &&& (#[trigger] s[i]).1@.get(cid).redactions.contains_key(d)
                &&& all_redactions(s, cid)[d] == s[i].1@.get(cid).redactions[d]
                &&& forall|j: int|
                    0 <= j < i ==> !(#[trigger] s[j]).1@.get(cid).redactions.contains_key(d)
            },
    decreases s.len(),
{
    if s.len() > 0 {
        let rest = s.drop_last();
        let n = s.len() - 1;
        law_redactions_of_all_releases_count(rest, cid, d);
        assert forall|i: int| 0 <= i < n implies #[trigger] rest[i] == s[i] by {}
        if all_redactions(rest, cid).contains_key(d) {
            let i = choose|i: int|
                {
                    &&& 0 <= i < rest.len()
                    &&& (#[trigger] rest[i]).1@.get(cid).redactions.contains_key(d)
                    &&& all_redactions(rest, cid)[d] == rest[i].1@.get(cid).redactions[d]
                    &&& forall|j: int|
                        0 <= j < i ==> !(#[trigger] rest[j]).1@.get(cid).redactions.contains_key(d)
                };
            assert(s[i].1@.get(cid).redactions.contains_key(d));
            assert forall|j: int| 0 <= j < i implies !(
            #[trigger] s[j]).1@.get(cid).redactions.contains_key(d) by {
                assert(rest[j] == s[j]);
            }
        } else {
            assert forall|j: int| 0 <= j < n implies !(
            #[trigger] s[j]).1@.get(cid).redactions.contains_key(d) by {
                assert(rest[j] == s[j]);
            }
            if s[n].1@.get(cid).redactions.contains_key(d) {
                assert(all_redactions(s, cid)[d] == s[n].1@.get(cid).redactions[d]);
            }
        }
    }
}

/// The release to take is one and the same: where a commit was named, it is of that commit
/// and none before it is; else none is later, and none behind it of the same time. There
/// is one where a release of that commit is among them, or any where no commit was named.
pub proof fn law_the_release_to_take_is_one(s: Seq<(ReleaseId, Release)>, oid: Option<Oid>, i: int)
    ensures
        is_primary(s, oid, i) ==> 0 <= i < s.len() && match oid {
            Some(o) => s[i].1@.oid == o && forall|j: int|
                0 <= j < s.len() && (#[trigger] s[j]).1@.oid == o ==> i <= j,
            None => forall|j: int|
                0 <= j < s.len() && j != i ==> (#[trigger] s[j]).1@.timestamp < s[i].1@.timestamp
                    || (s[j].1@.timestamp == s[i].1@.timestamp && j < i),
        },
        forall|k: int| is_primary(s, oid, i) && #[trigger] is_primary(s, oid, k) ==> k == i,
        (match oid {
            Some(o) => exists|j: int| 0 <= j < s.len() && (#[trigger] s[j]).1@.oid == o,
            None => s.len() > 0,
        }) <==> exists|k: int| #[trigger] is_primary(s, oid, k),
{
    let times = release_times(s);
    assert(times.len() == s.len());
    law_the_latest_is_one(times, i);
    match oid {
        None => {
            if is_primary(s, oid, i) {
                assert forall|j: int| 0 <= j < s.len() && j != i implies (
                #[trigger] s[j]).1@.timestamp < s[i].1@.timestamp || (s[j].1@.timestamp
                    == s[i].1@.timestamp && j < i) by {
                    assert(times[j] == s[j].1@.timestamp && times[i] == s[i].1@.timestamp);
                }
            }
            assert forall|k: int| is_primary(s, oid, i) && #[trigger] is_primary(
                s,
                oid,
                k,
            ) implies k == i by {
                assert(is_latest(times, k));
            }
            if s.len() > 0 {
                let k = choose|k: int| #[trigger] is_latest(times, k);
                assert(is_primary(s, oid, k));
            }
            if exists|k: int| #[trigger] is_primary(s, oid, k) {
                let k = choose|k: int| #[trigger] is_primary(s, oid, k);
                assert(is_latest(times, k));
            }
        },
        Some(o) => {
            if exists|j: int| 0 <= j < s.len() && (#[trigger] s[j]).1@.oid == o {
                let j = choose|j: int| 0 <= j < s.len() && (#[trigger] s[j]).1@.oid == o;
                lemma_first_of_commit(s, o, j);
            }
            assert forall|k: int| is_primary(s, oid, i) && #[trigger] is_primary(
                s,
                oid,
                k,
            ) implies k == i by {
                if k < i {
                    assert(s[k].1@.oid != o);
                }
                if i < k {
                    assert(s[i].1@.oid != o);
                }
            }
        },
    }
}

proof fn lemma_first_of_commit(s: Seq<(ReleaseId, Release)>, oid: Oid, j: int)
    requires
        0 <= j < s.len(),
        s[j].1@.oid == oid,
    ensures
        exists|k: int| #[trigger] is_primary(s, Some(oid), k),
    decreases j,
{
    if exists|i: int| 0 <= i < j && (#[trigger] s[i]).1@.oid == oid {
        let i = choose|i: int| 0 <= i < j && (#[trigger] s[i]).1@.oid == oid;
        lemma_first_of_commit(s, oid, i);
    } else {
        assert(is_primary(s, Some(oid), j));
    }
}

/// The name of a file is that of the artifact with every space turned into an underscore,
/// and no other character changed.
pub proof fn law_default_output_has_no_space(s: Seq<char>)
    ensures
        unspaced(s).len() == s.len(),
        !unspaced(s).contains(' '),
        forall|i: int|
            0 <= i < s.len() ==> #[trigger] unspaced(s)[i] == s[i] || (s[i] == ' ' && unspaced(s)[i]
                == '_'),
        !s.contains(' ') ==> unspaced(s) == s,
{
    if unspaced(s).contains(' ') {
        let i = choose|i: int| 0 <= i < s.len() && unspaced(s)[i] == ' ';
        assert(s[i] == ' ' || s[i] != ' ');
    }
    if !s.contains(' ') {
        assert forall|i: int| 0 <= i < s.len() implies #[trigger] unspaced(s)[i] == s[i] by {
            assert(s.contains(s[i]));
        }
        assert(unspaced(s) =~= s);
    }
}

/// One location more is counted as a URL where it is one.
pub proof fn law_urls_are_counted(s: Seq<FetchLocation>, l: FetchLocation)
    ensures
        url_count(Seq::empty()) == 0,
        url_count(s.push(l)) == url_count(s) + (if l is Url {
            1nat
        } else {
            0nat
        }),
{
    assert(s.push(l).drop_last() =~= s);
}

/// Something is said of a location exactly where its URL is of an endpoint and has a host
/// that names none.
pub proof fn law_every_bad_location_is_reported(all: Seq<(Did, Seq<char>)>, e: (Did, Seq<char>))
    ensures
        skipped(Seq::empty()).len() == 0,
        match lead_of(e) {
            Lead::Nowhere(err) => skipped(all.push(e)) == skipped(all).push(
                "Warning: skipping location "@ + e.1 + ": "@ + err.text(),
            ),
            _ => skipped(all.push(e)) == skipped(all),
        },
        lead_of(e) is Nowhere ==> scheme_of(e.1) == "radiroh"@ && url_host(e.1) is Some,
{
    assert(all.push(e).drop_last() =~= all);
}

/// Where locations lead, in full: unless one leads to the endpoint of a user who has none,
/// the places are those that some location leads to, each once; and otherwise the user is
/// one who has no endpoint, and contributed a URL of an endpoint without a host.
pub proof fn law_leads_are_places_or_a_failure(
    leads: Leads,
    all: Seq<(Did, Seq<char>)>,
    place: Place,
)
    requires
        leads_of(leads, all),
    ensures
        match leads.failure {
            None => {
                &&& places(leads.locations@).no_duplicates()
                &&& places(leads.locations@).contains(place) <==> exists|i: int|
                    0 <= i < all.len() && lead_of(#[trigger] all[i]) == Lead::To(place)
                &&& forall|i: int|
                    0 <= i < all.len() ==> !(lead_of(#[trigger] all[i]) is NoEndpoint)
            },
            Some(did) => exists|i: int|
                {
                    &&& 0 <= i < all.len()
                    &&& (#[trigger] all[i]).0 == did
                    &&& !curve_point(did.key.hi, did.key.lo)
                    &&& scheme_of(all[i].1) == "radiroh"@ && url_host(all[i].1) is None
                },
        },
{
    match leads.failure {
        None => {
            lemma_distinct_places(all, place);
        },
        Some(did) => {
            let i = choose|i: int|
                {
                    &&& 0 <= i < all.len()
                    &&& all_lead(all.take(i))
                    &&& lead_of(#[trigger] all[i]) == Lead::NoEndpoint(did)
                    &&& texts(leads.warnings@) == skipped(all.take(i))
                };
            let (own, url) = all[i];
            assert(lead_of((own, url)) == Lead::NoEndpoint(did));
            assert(own == did);
            law_urls_lead_where_they_say(did, url, EndpointId { key: did.key }, url);
            assert(all[i].0 == did);
        },
    }
}

/// What is to be got is the artifact that was asked for, under a release that has it, with
/// the name that it has there. Where a commit was named, the release is of that commit;
/// else no release that has the artifact is newer.
pub proof fn law_what_was_asked_for_is_got(
    r: Retrieval,
    items: Seq<Loaded>,
    oid: Option<Oid>,
    cid: Cid,
)
    requires
        retrieves(r, carrying(items, cid), oid, cid),
    ensures
        r.cid == cid,
        exists|release: Release|
            {
                &&& #[trigger] items.contains(Ok((r.primary_id, release)))
                &&& release@.artifacts.contains((cid, release@.get(cid)))
                &&& release@.get(cid).name == r.name@
                &&& match oid {
                    Some(o) => release@.oid == o,
                    None => forall|id: ReleaseId, other: Release| #[trigger]
                        items.contains(Ok((id, other))) && other@.has(cid) ==> other@.timestamp
                            <= release@.timestamp,
                }
            },
{
    let found = carrying(items, cid);
    let i = choose|i: int|
        #[trigger] is_primary(found, oid, i) && r.primary_id == found[i].0 && r.name@
            == found[i].1@.get(cid).name;
    law_the_release_to_take_is_one(found, oid, i);
    law_search_finds_every_carrier(items, cid);
    let (id, release) = found[i];
    assert(found.contains((id, release)));
    if !items.contains(Ok((id, release))) {
        assert(false);
    }
    release@.lemma_holds(cid);
    if oid is None {
        assert forall|id: ReleaseId, other: Release| #[trigger]
            items.contains(Ok((id, other))) && other@.has(cid) implies other@.timestamp
            <= release@.timestamp by {
            assert(found.contains((id, other)));
            let j = choose|j: int| 0 <= j < found.len() && found[j] == (id, other);
            assert(found[j].1@.timestamp == other@.timestamp);
        }
    }
}

/// A search that is told a commit has a release of it among those that have the artifact
/// exactly where some release there is of that commit.
pub proof fn law_a_commit_is_found_among_carriers(items: Seq<Loaded>, cid: Cid, oid: Oid)
    ensures
        has_commit(carrying(items, cid), oid) <==> exists|id: ReleaseId, r: Release| #[trigger]
            items.contains(Ok((id, r))) && r@.has(cid) && r@.oid == oid,
{
    let found = carrying(items, cid);
    law_search_finds_every_carrier(items, cid);
    if has_commit(found, oid) {
        let i = choose|i: int| 0 <= i < found.len() && (#[trigger] found[i]).1@.oid == oid;
        let (id, r) = found[i];
        assert(found.contains((id, r)));
        if !items.contains(Ok((id, r))) {
            assert(false);
        }
    }
    assert forall|id: ReleaseId, r: Release| #[trigger]
        items.contains(Ok((id, r))) && r@.has(cid) && r@.oid == oid implies has_commit(
        found,
        oid,
    ) by {
        assert(found.contains((id, r)));
        let j = choose|j: int| 0 <= j < found.len() && found[j] == (id, r);
        assert(found[j].1@.oid == oid);
    }
}

proof fn lemma_list_in_order(m: Map<Did, Set<Seq<char>>>, dids: Seq<Did>)
    requires
        forall|i: int| 0 <= i < dids.len() ==> m[#[trigger] dids[i]].finite(),
        forall|i: int, j: int|
            0 <= i < j < dids.len() ==> Did::lt(#[trigger] dids[i], #[trigger] dids[j]),
    ensures
        forall|i: int|
            0 <= i < list_users(m, dids).len() ==> dids.contains(
                (#[trigger] list_users(m, dids)[i]).0,
            ),
        forall|i: int, j: int|
            0 <= i < j < list_users(m, dids).len() ==> Did::lt(
                (#[trigger] list_users(m, dids)[i]).0,
                (#[trigger] list_users(m, dids)[j]).0,
            ) || (list_users(m, dids)[i].0 == list_users(m, dids)[j].0 && text_lt(
                list_users(m, dids)[i].1,
                list_users(m, dids)[j].1,
            )),
    decreases dids.len(),
{
    if dids.len() > 0 {
        let rest = dids.drop_last();
        let did = dids.last();
        let before = list_users(m, rest);
        let own = list_one(did, m[did]);
        let all = list_users(m, dids);
        assert forall|i: int| 0 <= i < rest.len() implies m[#[trigger] rest[i]].finite() by {
            assert(m[dids[i]].finite());
        }
        assert forall|i: int, j: int| 0 <= i < j < rest.len() implies Did::lt(
            #[trigger] rest[i],
            #[trigger] rest[j],
        ) by {
            assert(Did::lt(dids[i], dids[j]));
        }
        lemma_list_in_order(m, rest);
        assert(m[dids[dids.len() - 1]].finite());
        lemma_finite_in_order::<Url>(m[did]);
        lemma_last_splits(dids);
        let urls = in_order::<Url>(m[did]);
        assert forall|i: int| 0 <= i < all.len() implies dids.contains((#[trigger] all[i]).0) by {
            if i < before.len() {
                assert(all[i] == before[i]);
                assert(rest.contains(before[i].0));
            } else {
                assert(all[i] == own[i - before.len()]);
            }
        }
        assert forall|i: int, j: int| 0 <= i < j < all.len() implies Did::lt(
            (#[trigger] all[i]).0,
            (#[trigger] all[j]).0,
        ) || (all[i].0 == all[j].0 && text_lt(all[i].1, all[j].1)) by {
            let n = before.len();
            if j < n {
                assert(all[i] == before[i] && all[j] == before[j]);
            } else if i < n {
                assert(all[i] == before[i] && all[j] == own[j - n]);
                assert(rest.contains(before[i].0));
                let k = choose|k: int| 0 <= k < rest.len() && rest[k] == before[i].0;
                assert(Did::lt(dids[k], dids[dids.len() - 1]));
            } else {
                assert(all[i] == own[i - n] && all[j] == own[j - n]);
                assert(Url::lt(urls[i - n], urls[j - n]));
            }
        }
    }
}

/// The locations of an artifact are listed by contributor and then by URL, each once.
pub proof fn law_locations_are_listed_in_order(a: ArtifactView, i: int, j: int)
    requires
        finite_locations(a),
        0 <= i < j < listing(a.locations).len(),
    ensures
        ({
            let (x, y) = (listing(a.locations)[i], listing(a.locations)[j]);
            &&& x != y
            &&& x.0 == y.0 ==> text_lt(x.1, y.1)
            &&& x.0 != y.0 ==> x.0.key.hi < y.0.key.hi || (x.0.key.hi == y.0.key.hi && x.0.key.lo
                < y.0.key.lo)
        }),
{
    let m = a.locations;
    lemma_finite_in_order::<Did>(m.dom());
    let dids = in_order::<Did>(m.dom());
    assert forall|i: int| 0 <= i < dids.len() implies m[#[trigger] dids[i]].finite() by {
        assert(dids.contains(dids[i]));
        assert(m.contains_key(dids[i]));
    }
    lemma_list_in_order(m, dids);
    let (x, y) = (listing(m)[i], listing(m)[j]);
    assert(Did::lt(x.0, y.0) || (x.0 == y.0 && text_lt(x.1, y.1)));
    Did::lt_irreflexive(x.0);
    text_lt_irreflexive(x.1);
}

/// The locations of an artifact in two lists of releases, one behind the other, are those in
/// the first and then those in the second.
pub proof fn law_places_are_named_release_by_release(
    first: Seq<(ReleaseId, Release)>,
    second: Seq<(ReleaseId, Release)>,
    cid: Cid,
)
    ensures
        artifact_listings(first + second, cid) == artifact_listings(first, cid) + artifact_listings(second, cid),
    decreases second.len(),
{
    if second.len() == 0 {
        assert(first + second =~= first);
        assert(artifact_listings(first, cid) + artifact_listings(second, cid) =~= artifact_listings(first, cid));
    } else {
        law_places_are_named_release_by_release(first, second.drop_last(), cid);
        assert((first + second).drop_last() =~= first + second.drop_last());
        assert((first + second).last() == second.last());
        assert(artifact_listings(first + second, cid) =~= artifact_listings(first, cid) + artifact_listings(second, cid));
    }
}

/// Places are tried in the order in which locations first lead to them: more locations
/// behind add places behind, and change nothing before.
pub proof fn law_places_keep_their_order(first: Seq<(Did, Seq<char>)>, second: Seq<(Did, Seq<char>)>)
    ensures
        distinct_places(first).is_prefix_of(distinct_places(first + second)),
    decreases second.len(),
{
    if second.len() == 0 {
        assert(first + second =~= first);
    } else {
        law_places_keep_their_order(first, second.drop_last());
        assert((first + second).drop_last() =~= first + second.drop_last());
    }
}

/// What `resolve_retrieval` gives. Without a URL of the user's own, the places are those to
/// which some user's URL leads, in the artifact of that CID in some release, each once; with
/// one, it is that URL alone. It is the artifact that was asked for, under a release that
/// has it. No release having the artifact is told from one that could not be read.
pub proof fn law_retrieval_tries_every_place(
    oid: Option<Oid>,
    cid: Cid,
    url: Option<&Url>,
    require_locations: bool,
    releases: Releases,
    r: (Vec<String>, Result<Retrieval, ShareError>),
    place: Place,
)
    requires
        call_ensures(resolve_retrieval, (oid, cid, url, require_locations, &releases), r),
        forall|i: int|
            0 <= i < releases.items@.len() && (#[trigger] releases.items@[i]) is Ok
                ==> releases.items@[i]->Ok_0.1@.distinct(),
    ensures
        ({
            let items = releases.items@;
            &&& r.1 matches Ok(got) ==> {
                &&& got.cid == cid
                &&& forall|i: int, j: int|
                    0 <= i < j < got.locations@.len() ==> (#[trigger] got.locations@[i])@ != (
                    #[trigger] got.locations@[j])@
                &&& url matches Some(u) ==> got.locations@.len() == 1 && got.locations@[0]@
                    == Place::Url(u@)
                &&& url is None ==> ((exists|k: int|
                    0 <= k < got.locations@.len() && (#[trigger] got.locations@[k])@ == place)
                    <==> exists|
                    id: ReleaseId,
                    release: Release,
                    a: ArtifactView,
                    did: Did,
                    u: Seq<char>,
                |
                    #![trigger items.contains(Ok((id, release))), release@.artifacts.contains((cid, a)), a.locations[did].contains(u)]
                    items.contains(Ok((id, release))) && release@.artifacts.contains((cid, a))
                        && a.locations.contains_key(did) && a.locations[did].contains(u)
                        && lead_of((did, u)) == Lead::To(place))
                &&& exists|release: Release| #[trigger]
                    items.contains(Ok((got.primary_id, release))) && release@.has(cid)
                        && release@.get(cid).name == got.name@ && (oid is Some ==> release@.oid
                        == oid->0)
                &&& require_locations ==> got.locations@.len() > 0
            }
            &&& r.1 is Ok ==> forall|e: String| !#[trigger] items.contains(Err(e))
            &&& r.1 matches Err(ShareError::ArtifactNotFound(c)) ==> c == cid && forall|
                id: ReleaseId,
                release: Release,
            | #[trigger]
                items.contains(Ok((id, release))) ==> !release@.has(cid)
        }),
{
    let items = releases.items@;
    let found = carrying(items, cid);
    let all = artifact_listings(found, cid);
    law_search_finds_every_carrier(items, cid);
    if let Err(ShareError::ArtifactNotFound(c)) = r.1 {
        assert forall|id: ReleaseId, release: Release| #[trigger]
            items.contains(Ok((id, release))) implies !release@.has(cid) by {
            if release@.has(cid) {
                assert(found.contains((id, release)));
            }
        }
    }
    if let Ok(got) = r.1 {
        law_the_first_fault_is_reported(items, got.name);
        law_what_was_asked_for_is_got(got, items, oid, cid);
        let release = choose|release: Release|
            {
                &&& #[trigger] items.contains(Ok((got.primary_id, release)))
                &&& release@.artifacts.contains((cid, release@.get(cid)))
                &&& release@.get(cid).name == got.name@
                &&& match oid {
                    Some(o) => release@.oid == o,
                    None => forall|id: ReleaseId, other: Release| #[trigger]
                        items.contains(Ok((id, other))) && other@.has(cid) ==> other@.timestamp
                            <= release@.timestamp,
                }
            };
        release@.lemma_holds(cid);
        assert(items.contains(Ok((got.primary_id, release))));
        let there = places(got.locations@);
        law_every_release_names_places(items, cid, place);
        if there.contains(place) {
            let k = choose|k: int| 0 <= k < there.len() && there[k] == place;
            assert(got.locations@[k]@ == place);
        }
        if exists|k: int| 0 <= k < got.locations@.len() && (#[trigger] got.locations@[k])@ == place {
            let k = choose|k: int|
                0 <= k < got.locations@.len() && (#[trigger] got.locations@[k])@ == place;
            assert(there[k] == place);
        }
        assert(there.no_duplicates());
        assert forall|i: int, j: int| 0 <= i < j < got.locations@.len() implies (
        #[trigger] got.locations@[i])@ != (#[trigger] got.locations@[j])@ by {
            assert(there[i] != there[j]);
        }
        if let Some(u) = url {
            assert(there[0] == Place::Url(u@));
            assert(there.len() == 1);
        }
    }
}

/// `artifact_locations` gives every place to which a location of one of the artifacts leads,
/// each once, unless one leads to the endpoint of a user who has none.
pub proof fn law_artifact_locations_are_all_places(
    artifacts: Vec<&Artifact>,
    r: Leads,
    place: Place,
)
    requires
        call_ensures(artifact_locations, (&artifacts,), r),
        r.failure is None,
    ensures
        places(r.locations@).no_duplicates(),
        places(r.locations@).contains(place) <==> exists|i: int, did: Did, url: Seq<char>|
            #![trigger artifacts@[i]@.locations[did].contains(url)]
            0 <= i < artifacts@.len() && artifacts@[i]@.locations.contains_key(did)
                && artifacts@[i]@.locations[did].contains(url) && lead_of((did, url)) == Lead::To(
                place,
            ),
{
    law_every_place_is_tried_once(artifacts@, place);
    if places(r.locations@).contains(place) {
        let (i, did, url) = choose|i: int, did: Did, url: Seq<char>|
            0 <= i < artifacts@.len() && #[trigger] located_at(artifacts@[i]@, did, url, place);
        assert(artifacts@[i]@.locations[did].contains(url));
    }
    assert forall|i: int, did: Did, url: Seq<char>|
        #![trigger artifacts@[i]@.locations[did].contains(url)]
        0 <= i < artifacts@.len() && artifacts@[i]@.locations.contains_key(did)
            && artifacts@[i]@.locations[did].contains(url) && lead_of((did, url)) == Lead::To(
            place,
        ) implies places(r.locations@).contains(place) by {
        assert(located_at(artifacts@[i]@, did, url, place));
    }
}

} // verus!
