//! Reconciling the locations that a user has published with what their node seeds.

use crate::cids::CidSet;
use crate::ids::{Cid, Did, ReleaseId};
use crate::location::{
    base32_text, curve_point, law_own_urls_are_recognized, scheme_of, url_host, EndpointId, Url,
    LEGACY_SCHEME, URL_SCHEME,
};
use crate::pick::{law_every_release_that_was_read_is_there, readable};
use crate::release::{finite_locations, urls_of, Artifact, ArtifactView, Release, ReleaseView};
use crate::seqs::{
    lemma_add_has, lemma_filter_empty, lemma_filter_has, lemma_filter_step, lemma_last_splits,
    lemma_map_has,
};
use crate::sorted::{in_order, lemma_finite_in_order, SortedSet};
use crate::store::{Loaded, Releases};
use vstd::prelude::*;

verus! {

/// An endpoint URL of the user, beside the release and the artifact that it stands at.
pub struct OurLocation {
    pub release_id: ReleaseId,
    pub cid: Cid,
    pub url: Url,
}

/// What a location of the user is.
pub type Ours = (ReleaseId, Cid, Seq<char>);

impl View for OurLocation {
    type V = Ours;

    open spec fn view(&self) -> Ours {
        (self.release_id, self.cid, self.url@)
    }
}

/// What locations of the user are.
pub open spec fn ours(s: Seq<OurLocation>) -> Seq<Ours> {
    s.map_values(|l: OurLocation| l@)
}

/// An artifact of a release, beside the time of the release.
pub struct ReleaseArtifact {
    pub release_id: ReleaseId,
    pub timestamp: u64,
    pub cid: Cid,
}

/// Whether a URL leads, or once led, to an endpoint.
pub open spec fn is_endpoint(u: Seq<char>) -> bool {
    scheme_of(u) == URL_SCHEME@ || scheme_of(u) == LEGACY_SCHEME@
}

/// The endpoint URLs that the user has contributed to an artifact.
pub open spec fn artifact_locations(id: ReleaseId, cid: Cid, a: ArtifactView, user: Did) -> Seq<
    Ours,
> {
    in_order::<Url>(urls_of(a, user)).filter(|u: Seq<char>| is_endpoint(u)).map_values(
        |u: Seq<char>| (id, cid, u),
    )
}

/// The endpoint URLs that the user has contributed to artifacts of a release.
pub open spec fn release_locations(
    id: ReleaseId,
    artifacts: Seq<(Cid, ArtifactView)>,
    user: Did,
) -> Seq<Ours>
    decreases artifacts.len(),
{
    if artifacts.len() == 0 {
        Seq::empty()
    } else {
        release_locations(id, artifacts.drop_last(), user) + artifact_locations(
            id,
            artifacts.last().0,
            artifacts.last().1,
            user,
        )
    }
}

/// The endpoint URLs that the user has contributed.
pub open spec fn all_locations(rs: Seq<(ReleaseId, Release)>, user: Did) -> Seq<Ours>
    decreases rs.len(),
{
    if rs.len() == 0 {
        Seq::empty()
    } else {
        all_locations(rs.drop_last(), user) + release_locations(
            rs.last().0,
            rs.last().1@.artifacts,
            user,
        )
    }
}

/// The artifacts of a release, each beside the release.
pub open spec fn release_artifacts(id: ReleaseId, r: ReleaseView) -> Seq<ReleaseArtifact> {
    r.artifacts.map_values(
        |e: (Cid, ArtifactView)|
            ReleaseArtifact { release_id: id, timestamp: r.timestamp, cid: e.0 },
    )
}

/// The artifacts of all releases, each beside its release.
pub open spec fn all_artifacts(rs: Seq<(ReleaseId, Release)>) -> Seq<ReleaseArtifact>
    decreases rs.len(),
{
    if rs.len() == 0 {
        Seq::empty()
    } else {
        all_artifacts(rs.drop_last()) + release_artifacts(rs.last().0, rs.last().1@)
    }
}

fn take_artifact(
    out: &mut Vec<OurLocation>,
    id: ReleaseId,
    cid: Cid,
    artifact: &Artifact,
    user: &Did,
)
    ensures
        ours(final(out)@) == ours(old(out)@) + artifact_locations(id, cid, artifact@, *user),
{
    let ghost start = ours(out@);
    let ghost keep = |u: Seq<char>| is_endpoint(u);
    let ghost row = |u: Seq<char>| (id, cid, u);
    let empty: SortedSet<Url> = SortedSet::new();
    let set = match artifact.locations_of(user) {
        Some(set) => set,
        None => &empty,
    };
    assert(set@ == urls_of(artifact@, *user));
    let members = set.members();
    let ghost all = in_order::<Url>(set@);
    proof {
        lemma_filter_empty(all, keep);
        assert(start + all.take(0).filter(keep).map_values(row) =~= start);
    }
    let mut i: usize = 0;
    while i < members.len()
        invariant
            i <= members@.len(),
            members@.map_values(|u: &Url| u@) == all,
            keep == (|u: Seq<char>| is_endpoint(u)),
            row == (|u: Seq<char>| (id, cid, u)),
            ours(out@) == start + all.take(i as int).filter(keep).map_values(row),
        decreases members@.len() - i,
    {
        let ghost before = ours(out@);
        let ghost kept = all.take(i as int).filter(keep);
        proof {
            lemma_filter_step(all, i as int, keep);
            assert(members@.map_values(|u: &Url| u@)[i as int] == all[i as int]);
        }
        let url = members[i];
        if EndpointId::is_endpoint_url(url) || EndpointId::is_legacy_endpoint_url(url) {
            out.push(OurLocation { release_id: id, cid, url: url.clone() });
            proof {
                assert(ours(out@) =~= before.push((id, cid, url@)));
                assert(kept.push(url@).map_values(row) =~= kept.map_values(row).push(
                    (id, cid, url@),
                ));
                assert(start + kept.map_values(row).push((id, cid, url@)) =~= (start
                    + kept.map_values(row)).push((id, cid, url@)));
            }
        }
        i += 1;
    }
    proof {
        assert(members@.map_values(|u: &Url| u@).len() == members@.len());
        assert(all.take(i as int) =~= all);
    }
}

fn take_release(
    locations: &mut Vec<OurLocation>,
    artifacts: &mut Vec<ReleaseArtifact>,
    id: ReleaseId,
    release: &Release,
    user: &Did,
)
    ensures
        ours(final(locations)@) == ours(old(locations)@) + release_locations(
            id,
            release@.artifacts,
            *user,
        ),
        final(artifacts)@ == old(artifacts)@ + release_artifacts(id, release@),
{
    let ghost start = ours(locations@);
    let ghost first = artifacts@;
    let ghost all = release@.artifacts;
    let ghost rows = release_artifacts(id, release@);
    proof {
        assert(all.take(0) =~= Seq::empty());
        assert(start + release_locations(id, all.take(0), *user) =~= start);
        assert(first + rows.take(0) =~= first);
    }
    let mut i: usize = 0;
    while i < release.len()
        invariant
            i <= all.len(),
            all == release@.artifacts,
            rows == release_artifacts(id, release@),
            ours(locations@) == start + release_locations(id, all.take(i as int), *user),
            artifacts@ == first + rows.take(i as int),
        decreases all.len() - i,
    {
        let (cid, artifact) = release.at(i);
        proof {
            assert(all.take(i + 1).drop_last() =~= all.take(i as int));
            assert(rows.take(i + 1) =~= rows.take(i as int).push(rows[i as int]));
        }
        artifacts.push(ReleaseArtifact { release_id: id, timestamp: release.timestamp(), cid });
        assert(artifacts@ =~= first + rows.take(i + 1));
        take_artifact(locations, id, cid, artifact, user);
        assert(ours(locations@) =~= start + release_locations(id, all.take(i + 1), *user));
        i += 1;
    }
    assert(all.take(i as int) =~= all);
    assert(rows.take(i as int) =~= rows);
}

/// What there is to reconcile: the endpoint URLs that the user has contributed, those of
/// the scheme before among them, and the artifacts of all releases that can be read.
pub fn snapshot(releases: &Releases, user: &Did) -> (r: (Vec<OurLocation>, Vec<ReleaseArtifact>))
    ensures
        ours(r.0@) == all_locations(readable(releases.items@), *user),
        r.1@ == all_artifacts(readable(releases.items@)),
{
    let ghost items = releases.items@;
    let mut locations: Vec<OurLocation> = Vec::new();
    let mut artifacts: Vec<ReleaseArtifact> = Vec::new();
    assert(ours(locations@) =~= Seq::<Ours>::empty());
    let mut i: usize = 0;
    while i < releases.items.len()
        invariant
            i <= items.len(),
            items == releases.items@,
            ours(locations@) == all_locations(readable(items.take(i as int)), *user),
            artifacts@ == all_artifacts(readable(items.take(i as int))),
        decreases items.len() - i,
    {
        proof {
            assert(items.take(i + 1).drop_last() =~= items.take(i as int));
        }
        match &releases.items[i] {
            Ok((id, release)) => {
                take_release(&mut locations, &mut artifacts, *id, release, user);
                proof {
                    let before = readable(items.take(i as int));
                    let next = readable(items.take(i + 1));
                    assert(next == before.push((*id, *release)));
                    assert(next.drop_last() =~= before);
                }
            },
            Err(_) => {},
        }
        i += 1;
    }
    assert(items.take(i as int) =~= items);
    (locations, artifacts)
}

/// The locations of the user, by what is to be thought of them.
pub struct Classified {
    /// The artifacts that have a location at the endpoint of the user.
    pub current_endpoint_have: CidSet,
    /// Locations at the endpoint of the user, of artifacts that the node does not seed.
    pub orphaned_self: Vec<OurLocation>,
    /// Locations at another endpoint, or at none.
    pub stale_endpoint: Vec<OurLocation>,
}

/// The artifacts that have a location at the endpoint.
pub open spec fn advertised(ep: EndpointId, locations: Seq<Ours>) -> Set<Cid> {
    Set::new(
        |cid: Cid|
            exists|i: int|
                0 <= i < locations.len() && (#[trigger] locations[i]).1 == cid && ep.matches(
                    locations[i].2,
                ),
    )
}

/// The locations at the endpoint, of artifacts that are not seeded.
pub open spec fn orphaned(ep: EndpointId, seeded: Set<Cid>, locations: Seq<Ours>) -> Seq<Ours> {
    locations.filter(|l: Ours| ep.matches(l.2) && !seeded.contains(l.1))
}

/// The locations at another endpoint, or at none.
pub open spec fn stale(ep: EndpointId, locations: Seq<Ours>) -> Seq<Ours> {
    locations.filter(|l: Ours| !ep.matches(l.2))
}

/// Sorts the locations of the user. One that names no endpoint stands for that of the
/// user; one whose host is no endpoint, or whose scheme is the one before, leads to
/// another.
pub fn classify_locations(
    endpoint_id: EndpointId,
    seeded: &CidSet,
    locations: &Vec<OurLocation>,
) -> (r: Classified)
    ensures
        r.current_endpoint_have@ == advertised(endpoint_id, ours(locations@)),
        ours(r.orphaned_self@) == orphaned(endpoint_id, seeded@, ours(locations@)),
        ours(r.stale_endpoint@) == stale(endpoint_id, ours(locations@)),
{
    let ghost all = ours(locations@);
    let ghost is_orphan = |l: Ours| endpoint_id.matches(l.2) && !seeded@.contains(l.1);
    let ghost is_stale = |l: Ours| !endpoint_id.matches(l.2);
    let mut have = CidSet::new();
    let mut orphans: Vec<OurLocation> = Vec::new();
    let mut stales: Vec<OurLocation> = Vec::new();
    proof {
        lemma_filter_empty(all, is_orphan);
        lemma_filter_empty(all, is_stale);
        assert(ours(orphans@) =~= Seq::<Ours>::empty());
        assert(ours(stales@) =~= Seq::<Ours>::empty());
        assert(have@ =~= advertised(endpoint_id, all.take(0)));
    }
    let mut i: usize = 0;
    while i < locations.len()
        invariant
            i <= locations@.len(),
            all == ours(locations@),
            is_orphan == (|l: Ours| endpoint_id.matches(l.2) && !seeded@.contains(l.1)),
            is_stale == (|l: Ours| !endpoint_id.matches(l.2)),
            have@ == advertised(endpoint_id, all.take(i as int)),
            ours(orphans@) == all.take(i as int).filter(is_orphan),
            ours(stales@) == all.take(i as int).filter(is_stale),
        decreases locations@.len() - i,
    {
        let l = &locations[i];
        let ghost here = all.take(i as int);
        let ghost next = all.take(i + 1);
        proof {
            lemma_filter_step(all, i as int, is_orphan);
            lemma_filter_step(all, i as int, is_stale);
            assert(all[i as int] == l@);
            assert(next =~= here.push(l@));
        }
        let ghost orphaned_before = ours(orphans@);
        let ghost stale_before = ours(stales@);
        let ghost had = have@;
        let matches = endpoint_id.matches_url(&l.url);
        if matches {
            have.insert(l.cid);
            if !seeded.contains(&l.cid) {
                orphans.push(
                    OurLocation { release_id: l.release_id, cid: l.cid, url: l.url.clone() },
                );
                assert(ours(orphans@) =~= orphaned_before.push(l@));
            }
        } else {
            stales.push(
                OurLocation { release_id: l.release_id, cid: l.cid, url: l.url.clone() },
            );
            assert(ours(stales@) =~= stale_before.push(l@));
        }
        proof {
            assert forall|cid: Cid| #[trigger] have@.contains(cid) <==> advertised(
                endpoint_id,
                next,
            ).contains(cid) by {
                if had.contains(cid) {
                    let k = choose|k: int|
                        0 <= k < here.len() && (#[trigger] here[k]).1 == cid
                            && endpoint_id.matches(here[k].2);
                    assert(next[k] == here[k]);
                }
                assert(next[i as int] == l@);
                if advertised(endpoint_id, next).contains(cid) {
                    let k = choose|k: int|
                        0 <= k < next.len() && (#[trigger] next[k]).1 == cid
                            && endpoint_id.matches(next[k].2);
                    if k < i {
                        assert(here[k] == next[k]);
                    }
                }
            }
            assert(have@ =~= advertised(endpoint_id, next));
        }
        i += 1;
    }
    assert(all.take(i as int) =~= all);
    Classified {
        current_endpoint_have: have,
        orphaned_self: orphans,
        stale_endpoint: stales,
    }
}

/// A location of the user is current, orphaned or stale, and only one of them.
pub proof fn law_locations_fall_into_one_class(
    ep: EndpointId,
    seeded: Set<Cid>,
    locations: Seq<Ours>,
    i: int,
)
    requires
        0 <= i < locations.len(),
    ensures
        ({
            let l = locations[i];
            let o = orphaned(ep, seeded, locations).contains(l);
            let s = stale(ep, locations).contains(l);
            &&& !(o && s)
            &&& o <==> ep.matches(l.2) && !seeded.contains(l.1)
            &&& s <==> !ep.matches(l.2)
            &&& !o && !s <==> ep.matches(l.2) && seeded.contains(l.1)
            &&& ep.matches(l.2) ==> advertised(ep, locations).contains(l.1)
        }),
{
    broadcast use vstd::seq_lib::group_filter_ensures;

    let l = locations[i];
    let is_orphan = |l: Ours| ep.matches(l.2) && !seeded.contains(l.1);
    let is_stale = |l: Ours| !ep.matches(l.2);
    let o = orphaned(ep, seeded, locations);
    let s = stale(ep, locations);
    assert(o == locations.filter(is_orphan));
    assert(s == locations.filter(is_stale));
    if is_orphan(l) {
        assert(locations.filter(is_orphan).contains(locations[i]));
    }
    if is_stale(l) {
        assert(locations.filter(is_stale).contains(locations[i]));
    }
    if o.contains(l) {
        let k = choose|k: int| 0 <= k < o.len() && o[k] == l;
        assert(is_orphan(locations.filter(is_orphan)[k]));
    }
    if s.contains(l) {
        let k = choose|k: int| 0 <= k < s.len() && s[k] == l;
        assert(is_stale(locations.filter(is_stale)[k]));
    }
}

/// The artifacts that the node seeds and the user does not advertise.
pub struct MissingScan {
    /// Those that a release has, beside the latest of those.
    pub missing: Vec<(ReleaseId, Cid)>,
    /// Those that no release has.
    pub dangling: Vec<Cid>,
}

/// Whether a release has the artifact.
pub open spec fn anchored(artifacts: Seq<ReleaseArtifact>, cid: Cid) -> bool {
    exists|i: int| 0 <= i < artifacts.len() && (#[trigger] artifacts[i]).cid == cid
}

/// Whether the latest release that has the artifact stands in place `i`: of two of one
/// time it is the later place.
pub open spec fn anchor_at(artifacts: Seq<ReleaseArtifact>, cid: Cid, i: int) -> bool {
    &&& 0 <= i < artifacts.len()
    &&& artifacts[i].cid == cid
    &&& forall|j: int|
        0 <= j < artifacts.len() && (#[trigger] artifacts[j]).cid == cid ==> artifacts[j].timestamp
            <= artifacts[i].timestamp && (j > i ==> artifacts[j].timestamp < artifacts[i].timestamp)
}

/// Whether the release is the latest that has the artifact.
pub open spec fn anchors(artifacts: Seq<ReleaseArtifact>, e: (ReleaseId, Cid)) -> bool {
    exists|i: int| #[trigger] anchor_at(artifacts, e.1, i) && artifacts[i].release_id == e.0
}

/// The artifacts that are seeded and not advertised.
pub open spec fn unadvertised(seeded: Seq<Cid>, have: Set<Cid>) -> Seq<Cid> {
    seeded.filter(|cid: Cid| !have.contains(cid))
}

/// The latest release that has an artifact.
fn find_anchor(artifacts: &Vec<ReleaseArtifact>, cid: &Cid) -> (r: Option<ReleaseId>)
    ensures
        match r {
            Some(id) => anchored(artifacts@, *cid) && anchors(artifacts@, (id, *cid)),
            None => !anchored(artifacts@, *cid),
        },
{
    let mut best: Option<usize> = None;
    let mut i: usize = 0;
    while i < artifacts.len()
        invariant
            i <= artifacts@.len(),
            match best {
                Some(b) => {
                    &&& b < i
                    &&& artifacts@[b as int].cid == *cid
                    &&& forall|j: int|
                        0 <= j < i && (#[trigger] artifacts@[j]).cid == *cid
                            ==> artifacts@[j].timestamp <= artifacts@[b as int].timestamp && (j > b
                            ==> artifacts@[j].timestamp < artifacts@[b as int].timestamp)
                },
                None => forall|j: int| 0 <= j < i ==> (#[trigger] artifacts@[j]).cid != *cid,
            },
        decreases artifacts@.len() - i,
    {
        if artifacts[i].cid == *cid {
            let newer = match best {
                Some(b) => artifacts[i].timestamp >= artifacts[b].timestamp,
                None => true,
            };
            if newer {
                best = Some(i);
            }
        }
        i += 1;
    }
    match best {
        Some(b) => {
            proof {
                let e = (artifacts@[b as int].release_id, *cid);
                assert(anchor_at(artifacts@, e.1, b as int));
                assert(anchors(artifacts@, e));
            }
            Some(artifacts[b].release_id)
        },
        None => None,
    }
}

/// For every artifact that the node seeds and the user does not advertise, the latest
/// release that has it, to advertise it there. What no release has cannot be advertised.
pub fn find_missing(
    seeded: &CidSet,
    current_have: &CidSet,
    artifacts: &Vec<ReleaseArtifact>,
) -> (r: MissingScan)
    ensures
        ({
            let all = unadvertised(seeded.seq(), current_have@);
            &&& r.missing@.map_values(|e: (ReleaseId, Cid)| e.1) == all.filter(
                |cid: Cid| anchored(artifacts@, cid),
            )
            &&& r.dangling@ == all.filter(|cid: Cid| !anchored(artifacts@, cid))
            &&& forall|k: int|
                0 <= k < r.missing@.len() ==> #[trigger] anchors(artifacts@, r.missing@[k])
        }),
{
    let ghost cids = seeded.seq();
    let ghost keep = |cid: Cid| !current_have@.contains(cid);
    let ghost has = |cid: Cid| anchored(artifacts@, cid);
    let ghost hasnt = |cid: Cid| !anchored(artifacts@, cid);
    let mut missing: Vec<(ReleaseId, Cid)> = Vec::new();
    let mut dangling: Vec<Cid> = Vec::new();
    proof {
        lemma_filter_empty(cids, keep);
        let none = cids.take(0).filter(keep);
        reveal_with_fuel(Seq::filter, 1);
        assert(none.filter(has) =~= Seq::<Cid>::empty());
        assert(none.filter(hasnt) =~= Seq::<Cid>::empty());
        assert(missing@.map_values(|e: (ReleaseId, Cid)| e.1) =~= Seq::<Cid>::empty());
    }
    let mut i: usize = 0;
    while i < seeded.len()
        invariant
            i <= cids.len(),
            cids == seeded.seq(),
            keep == (|cid: Cid| !current_have@.contains(cid)),
            has == (|cid: Cid| anchored(artifacts@, cid)),
            hasnt == (|cid: Cid| !anchored(artifacts@, cid)),
            missing@.map_values(|e: (ReleaseId, Cid)| e.1) == cids.take(i as int).filter(
                keep,
            ).filter(has),
            dangling@ == cids.take(i as int).filter(keep).filter(hasnt),
            forall|k: int| 0 <= k < missing@.len() ==> #[trigger] anchors(artifacts@, missing@[k]),
        decreases cids.len() - i,
    {
        let cid = seeded.at(i);
        let ghost kept = cids.take(i as int).filter(keep);
        proof {
            lemma_filter_step(cids, i as int, keep);
        }
        if !current_have.contains(&cid) {
            proof {
                lemma_filter_push(kept, cid, has);
                lemma_filter_push(kept, cid, hasnt);
            }
            let ghost before = missing@;
            match find_anchor(artifacts, &cid) {
                Some(id) => {
                    missing.push((id, cid));
                    proof {
                        assert(missing@.map_values(|e: (ReleaseId, Cid)| e.1)
                            =~= before.map_values(|e: (ReleaseId, Cid)| e.1).push(cid));
                        assert forall|k: int| 0 <= k < missing@.len() implies #[trigger] anchors(
                            artifacts@,
                            missing@[k],
                        ) by {
                            if k < before.len() {
                                assert(anchors(artifacts@, before[k]));
                            }
                        }
                    }
                },
                None => {
                    dangling.push(cid);
                },
            }
        }
        i += 1;
    }
    assert(cids.take(i as int) =~= cids);
    MissingScan { missing, dangling }
}

proof fn lemma_filter_push(s: Seq<Cid>, cid: Cid, keep: spec_fn(Cid) -> bool)
    ensures
        s.push(cid).filter(keep) == (if keep(cid) {
            s.filter(keep).push(cid)
        } else {
            s.filter(keep)
        }),
{
    reveal_with_fuel(Seq::filter, 2);
    assert(s.push(cid).drop_last() =~= s);
}

/// What is done about the locations of the user.
pub struct ReconcilePlan {
    /// Locations to add: the endpoint, for these artifacts in these releases.
    pub add: Vec<(ReleaseId, Cid)>,
    /// Orphaned locations to remove.
    pub remove_orphaned: Vec<OurLocation>,
    /// Stale locations to remove.
    pub remove_stale: Vec<OurLocation>,
    /// Orphaned locations that stay.
    pub orphaned_left: Vec<OurLocation>,
    /// Stale locations that stay.
    pub stale_left: Vec<OurLocation>,
    /// Artifacts that are seeded and that no release has.
    pub dangling: Vec<Cid>,
}

/// Decides what is done about the locations of the user. Missing ones are added; orphaned
/// ones are removed where the user named the artifact or wants all removed, and stale ones
/// only where they want all removed.
pub fn reconcile_plan(
    endpoint_id: EndpointId,
    seeded: &CidSet,
    locations: &Vec<OurLocation>,
    artifacts: &Vec<ReleaseArtifact>,
    remove_orphaned: &CidSet,
    remove_all: bool,
) -> (r: ReconcilePlan)
    ensures
        ({
            let all = ours(locations@);
            let orphans = orphaned(endpoint_id, seeded@, all);
            let stales = stale(endpoint_id, all);
            let without = unadvertised(seeded.seq(), advertised(endpoint_id, all));
            &&& r.add@.map_values(|e: (ReleaseId, Cid)| e.1) == without.filter(
                |cid: Cid| anchored(artifacts@, cid),
            )
            &&& forall|k: int|
                0 <= k < r.add@.len() ==> #[trigger] anchors(artifacts@, r.add@[k])
            &&& r.dangling@ == without.filter(|cid: Cid| !anchored(artifacts@, cid))
            &&& ours(r.remove_orphaned@) == orphans.filter(
                |l: Ours| remove_all || remove_orphaned@.contains(l.1),
            )
            &&& ours(r.orphaned_left@) == orphans.filter(
                |l: Ours| !(remove_all || remove_orphaned@.contains(l.1)),
            )
            &&& ours(r.remove_stale@) == (if remove_all {
                stales
            } else {
                Seq::empty()
            })
            &&& ours(r.stale_left@) == (if remove_all {
                Seq::empty()
            } else {
                stales
            })
        }),
{
    let classified = classify_locations(endpoint_id, seeded, locations);
    let scan = find_missing(seeded, &classified.current_endpoint_have, artifacts);
    let ghost orphans = ours(classified.orphaned_self@);
    let ghost goes = |l: Ours| remove_all || remove_orphaned@.contains(l.1);
    let ghost stays = |l: Ours| !(remove_all || remove_orphaned@.contains(l.1));
    let mut gone: Vec<OurLocation> = Vec::new();
    let mut left: Vec<OurLocation> = Vec::new();
    proof {
        lemma_filter_empty(orphans, goes);
        lemma_filter_empty(orphans, stays);
        assert(ours(gone@) =~= Seq::<Ours>::empty());
        assert(ours(left@) =~= Seq::<Ours>::empty());
    }
    let mut i: usize = 0;
    while i < classified.orphaned_self.len()
        invariant
            i <= classified.orphaned_self@.len(),
            orphans == ours(classified.orphaned_self@),
            goes == (|l: Ours| remove_all || remove_orphaned@.contains(l.1)),
            stays == (|l: Ours| !(remove_all || remove_orphaned@.contains(l.1))),
            ours(gone@) == orphans.take(i as int).filter(goes),
            ours(left@) == orphans.take(i as int).filter(stays),
        decreases classified.orphaned_self@.len() - i,
    {
        let l = &classified.orphaned_self[i];
        proof {
            lemma_filter_step(orphans, i as int, goes);
            lemma_filter_step(orphans, i as int, stays);
            assert(orphans[i as int] == l@);
        }
        let ghost gone_before = ours(gone@);
        let ghost left_before = ours(left@);
        let copy = OurLocation { release_id: l.release_id, cid: l.cid, url: l.url.clone() };
        if remove_all || remove_orphaned.contains(&l.cid) {
            gone.push(copy);
            assert(ours(gone@) =~= gone_before.push(l@));
        } else {
            left.push(copy);
            assert(ours(left@) =~= left_before.push(l@));
        }
        i += 1;
    }
    assert(orphans.take(i as int) =~= orphans);
    let none: Vec<OurLocation> = Vec::new();
    assert(ours(none@) =~= Seq::<Ours>::empty());
    let (remove_stale, stale_left) = if remove_all {
        (classified.stale_endpoint, none)
    } else {
        (none, classified.stale_endpoint)
    };
    ReconcilePlan {
        add: scan.missing,
        remove_orphaned: gone,
        remove_stale,
        orphaned_left: left,
        stale_left,
        dangling: scan.dangling,
    }
}

/// Whether a location is there after the missing ones were added and all orphaned and
/// stale ones removed.
pub open spec fn kept_or_added(
    ep: EndpointId,
    seeded: Seq<Cid>,
    locations: Seq<Ours>,
    artifacts: Seq<ReleaseArtifact>,
    l: Ours,
) -> bool {
    let members = Set::new(|cid: Cid| seeded.contains(cid));
    ||| (locations.contains(l) && !orphaned(ep, members, locations).contains(l) && !stale(
        ep,
        locations,
    ).contains(l))
    ||| (l.2 == ep.url_text() && unadvertised(seeded, advertised(ep, locations)).contains(l.1)
        && anchors(artifacts, (l.0, l.1)))
}

/// Reconciling settles the matter: once the missing locations are added and the others
/// removed, nothing is orphaned or stale, and every artifact that is seeded and that a
/// release has is advertised.
pub proof fn law_reconciling_settles(
    ep: EndpointId,
    seeded: Seq<Cid>,
    locations: Seq<Ours>,
    artifacts: Seq<ReleaseArtifact>,
    after: Seq<Ours>,
)
    requires
        ep.matches(ep.url_text()),
        forall|l: Ours| #[trigger]
            after.contains(l) <==> kept_or_added(ep, seeded, locations, artifacts, l),
    ensures
        orphaned(ep, Set::new(|cid: Cid| seeded.contains(cid)), after).len() == 0,
        stale(ep, after).len() == 0,
        forall|cid: Cid|
            seeded.contains(cid) && anchored(artifacts, cid) ==> #[trigger] advertised(
                ep,
                after,
            ).contains(cid),
{
    broadcast use vstd::seq_lib::group_filter_ensures;

    let members = Set::new(|cid: Cid| seeded.contains(cid));
    let have = advertised(ep, locations);
    let without = unadvertised(seeded, have);
    let keep = |cid: Cid| !have.contains(cid);
    assert(without == seeded.filter(keep));
    assert forall|l: Ours| after.contains(l) implies ep.matches(l.2) && members.contains(l.1) by {
        assert(kept_or_added(ep, seeded, locations, artifacts, l));
        if locations.contains(l) && !orphaned(ep, members, locations).contains(l) && !stale(
            ep,
            locations,
        ).contains(l) {
            let i = choose|i: int| 0 <= i < locations.len() && locations[i] == l;
            law_locations_fall_into_one_class(ep, members, locations, i);
        } else {
            seeded.lemma_filter_contains_rev(keep, l.1);
        }
    }
    let is_orphan = |l: Ours| ep.matches(l.2) && !members.contains(l.1);
    let is_stale = |l: Ours| !ep.matches(l.2);
    let o = orphaned(ep, members, after);
    let s = stale(ep, after);
    assert(o == after.filter(is_orphan));
    assert(s == after.filter(is_stale));
    if o.len() > 0 {
        assert(is_orphan(after.filter(is_orphan)[0]));
        assert(o.contains(o[0]));
        after.lemma_filter_contains_rev(is_orphan, o[0]);
    }
    if s.len() > 0 {
        assert(is_stale(after.filter(is_stale)[0]));
        assert(s.contains(s[0]));
        after.lemma_filter_contains_rev(is_stale, s[0]);
    }
    assert forall|cid: Cid|
        seeded.contains(cid) && anchored(artifacts, cid) implies #[trigger] advertised(
            ep,
            after,
        ).contains(cid) by {
        if have.contains(cid) {
            let i = choose|i: int|
                0 <= i < locations.len() && (#[trigger] locations[i]).1 == cid && ep.matches(
                    locations[i].2,
                );
            law_locations_fall_into_one_class(ep, members, locations, i);
            assert(locations.contains(locations[i]));
            assert(kept_or_added(ep, seeded, locations, artifacts, locations[i]));
            assert(after.contains(locations[i]));
            let k = choose|k: int| 0 <= k < after.len() && after[k] == locations[i];
            assert(after[k].1 == cid);
        } else {
            let k = choose|k: int| 0 <= k < seeded.len() && seeded[k] == cid;
            assert(keep(seeded[k]));
            assert(seeded.filter(keep).contains(seeded[k]));
            let i = lemma_anchor_exists(artifacts, cid);
            let l: Ours = (artifacts[i].release_id, cid, ep.url_text());
            let e = (l.0, l.1);
            assert(anchor_at(artifacts, e.1, i));
            assert(anchors(artifacts, e));
            assert(kept_or_added(ep, seeded, locations, artifacts, l));
            assert(after.contains(l));
            let n = choose|n: int| 0 <= n < after.len() && after[n] == l;
            assert(after[n].1 == cid);
        }
    }
}

/// What a release has, a latest release has.
proof fn lemma_anchor_exists(artifacts: Seq<ReleaseArtifact>, cid: Cid) -> (i: int)
    requires
        anchored(artifacts, cid),
    ensures
        anchor_at(artifacts, cid, i),
    decreases artifacts.len(),
{
    let rest = artifacts.drop_last();
    let n = artifacts.len() - 1;
    if anchored(rest, cid) {
        let i = lemma_anchor_exists(rest, cid);
        assert(rest[i] == artifacts[i]);
        if artifacts[n].cid == cid && artifacts[n].timestamp >= artifacts[i].timestamp {
            assert forall|j: int|
                0 <= j < artifacts.len() && (#[trigger] artifacts[j]).cid == cid implies artifacts[j].timestamp
                <= artifacts[n].timestamp && (j > n ==> artifacts[j].timestamp
                < artifacts[n].timestamp) by {
                if j < n {
                    assert(rest[j] == artifacts[j]);
                }
            }
            n
        } else {
            assert forall|j: int|
                0 <= j < artifacts.len() && (#[trigger] artifacts[j]).cid == cid implies artifacts[j].timestamp
                <= artifacts[i].timestamp && (j > i ==> artifacts[j].timestamp
                < artifacts[i].timestamp) by {
                if j < n {
                    assert(rest[j] == artifacts[j]);
                }
            }
            i
        }
    } else {
        let k = choose|k: int| 0 <= k < artifacts.len() && (#[trigger] artifacts[k]).cid == cid;
        if k < n {
            assert(rest[k].cid == cid);
        }
        assert forall|j: int|
            0 <= j < artifacts.len() && (#[trigger] artifacts[j]).cid == cid implies artifacts[j].timestamp
            <= artifacts[n].timestamp && (j > n ==> artifacts[j].timestamp
            < artifacts[n].timestamp) by {
            if j < n {
                assert(rest[j].cid == cid);
            }
        }
        n
    }
}

proof fn lemma_artifact_locations(id: ReleaseId, cid: Cid, a: ArtifactView, user: Did, l: Ours)
    requires
        finite_locations(a),
    ensures
        artifact_locations(id, cid, a, user).contains(l) <==> l.0 == id && l.1 == cid
            && a.locations.contains_key(user) && a.locations[user].contains(l.2) && (scheme_of(l.2)
            == "radiroh"@ || scheme_of(l.2) == "iroh"@),
{
    let urls = urls_of(a, user);
    lemma_finite_in_order::<Url>(urls);
    let keep = |u: Seq<char>| is_endpoint(u);
    let place = |u: Seq<char>| (id, cid, u);
    let kept = in_order::<Url>(urls).filter(keep);
    lemma_filter_has(in_order::<Url>(urls), keep, l.2);
    lemma_map_has(kept, place, l);
    if kept.contains(l.2) && l.0 == id && l.1 == cid {
        let i = choose|i: int| 0 <= i < kept.len() && kept[i] == l.2;
        assert(place(kept[i]) == l);
    }
    if artifact_locations(id, cid, a, user).contains(l) {
        let i = choose|i: int| 0 <= i < kept.len() && place(#[trigger] kept[i]) == l;
        assert(kept.contains(kept[i]));
    }
}

proof fn lemma_release_locations(
    id: ReleaseId,
    artifacts: Seq<(Cid, ArtifactView)>,
    user: Did,
    l: Ours,
)
    requires
        forall|i: int|
            0 <= i < artifacts.len() ==> finite_locations((#[trigger] artifacts[i]).1),
    ensures
        release_locations(id, artifacts, user).contains(l) <==> l.0 == id && exists|
            a: ArtifactView,
        | #[trigger]
            artifacts.contains((l.1, a)) && a.locations.contains_key(user)
                && a.locations[user].contains(l.2) && (scheme_of(l.2) == "radiroh"@ || scheme_of(
                l.2,
            ) == "iroh"@),
    decreases artifacts.len(),
{
    if artifacts.len() > 0 {
        let rest = artifacts.drop_last();
        let last = artifacts.last();
        assert forall|i: int| 0 <= i < rest.len() implies finite_locations(
            (#[trigger] rest[i]).1,
        ) by {
            assert(finite_locations(artifacts[i].1));
        }
        assert(finite_locations(artifacts[artifacts.len() - 1].1));
        lemma_release_locations(id, rest, user, l);
        lemma_artifact_locations(id, last.0, last.1, user, l);
        lemma_add_has(
            release_locations(id, rest, user),
            artifact_locations(id, last.0, last.1, user),
            l,
        );
        lemma_last_splits(artifacts);
    }
}

proof fn lemma_all_locations(rs: Seq<(ReleaseId, Release)>, user: Did, l: Ours)
    ensures
        all_locations(rs, user).contains(l) <==> exists|r: Release, a: ArtifactView|
            #![trigger rs.contains((l.0, r)), r@.artifacts.contains((l.1, a))]
            rs.contains((l.0, r)) && r@.artifacts.contains((l.1, a)) && a.locations.contains_key(
                user,
            ) && a.locations[user].contains(l.2) && (scheme_of(l.2) == "radiroh"@ || scheme_of(l.2)
                == "iroh"@),
    decreases rs.len(),
{
    if rs.len() > 0 {
        let rest = rs.drop_last();
        let last = rs.last();
        lemma_all_locations(rest, user, l);
        last.1.lemma_finite_locations();
        lemma_release_locations(last.0, last.1@.artifacts, user, l);
        lemma_add_has(
            all_locations(rest, user),
            release_locations(last.0, last.1@.artifacts, user),
            l,
        );
        lemma_last_splits(rs);
    }
}

/// What there is to reconcile leaves out no release and no artifact: a URL is among the
/// locations of the user if and only if they contributed it to that artifact of that
/// release, the release could be read, and the URL is of an endpoint, by the scheme of
/// today or the one before.
pub proof fn law_every_endpoint_location_is_reconciled(items: Seq<Loaded>, user: Did, l: Ours)
    ensures
        all_locations(readable(items), user).contains(l) <==> exists|r: Release, a: ArtifactView|
            #![trigger items.contains(Ok((l.0, r))), r@.artifacts.contains((l.1, a))]
            items.contains(Ok((l.0, r))) && r@.artifacts.contains((l.1, a))
                && a.locations.contains_key(user) && a.locations[user].contains(l.2) && (scheme_of(
                l.2,
            ) == "radiroh"@ || scheme_of(l.2) == "iroh"@),
{
    lemma_all_locations(readable(items), user, l);
    law_every_release_that_was_read_is_there(items);
    assert forall|r: Release| #[trigger] items.contains(Ok((l.0, r))) implies readable(
        items,
    ).contains((l.0, r)) by {}
}

proof fn lemma_all_artifacts(rs: Seq<(ReleaseId, Release)>, e: ReleaseArtifact)
    ensures
        all_artifacts(rs).contains(e) <==> exists|r: Release, a: ArtifactView|
            #![trigger rs.contains((e.release_id, r)), r@.artifacts.contains((e.cid, a))]
            rs.contains((e.release_id, r)) && r@.artifacts.contains((e.cid, a)) && r@.timestamp
                == e.timestamp,
    decreases rs.len(),
{
    if rs.len() > 0 {
        let rest = rs.drop_last();
        let (id, last) = rs.last();
        let f = |x: (Cid, ArtifactView)|
            ReleaseArtifact { release_id: id, timestamp: last@.timestamp, cid: x.0 };
        lemma_all_artifacts(rest, e);
        lemma_add_has(all_artifacts(rest), release_artifacts(id, last@), e);
        lemma_map_has(last@.artifacts, f, e);
        lemma_last_splits(rs);
        if release_artifacts(id, last@).contains(e) {
            let i = choose|i: int|
                0 <= i < last@.artifacts.len() && f(#[trigger] last@.artifacts[i]) == e;
            assert(last@.artifacts.contains((e.cid, last@.artifacts[i].1)));
        }
        assert forall|a: ArtifactView| #[trigger]
            last@.artifacts.contains((e.cid, a)) && e.release_id == id && e.timestamp
                == last@.timestamp implies release_artifacts(id, last@).contains(e) by {
            let i = choose|i: int|
                0 <= i < last@.artifacts.len() && last@.artifacts[i] == (e.cid, a);
            assert(f(last@.artifacts[i]) == e);
        }
    }
}

/// Every artifact of every release that could be read can be advertised there, and no
/// other.
pub proof fn law_every_artifact_can_be_advertised(items: Seq<Loaded>, e: ReleaseArtifact)
    ensures
        all_artifacts(readable(items)).contains(e) <==> exists|r: Release, a: ArtifactView|
            #![trigger items.contains(Ok((e.release_id, r))), r@.artifacts.contains((e.cid, a))]
            items.contains(Ok((e.release_id, r))) && r@.artifacts.contains((e.cid, a))
                && r@.timestamp == e.timestamp,
{
    lemma_all_artifacts(readable(items), e);
    law_every_release_that_was_read_is_there(items);
    assert forall|r: Release| #[trigger] items.contains(Ok((e.release_id, r))) implies readable(
        items,
    ).contains((e.release_id, r)) by {}
}

/// What there is to reconcile in two lists of releases, one behind the other, is what there
/// is in the first and then in the second.
pub proof fn law_locations_are_taken_release_by_release(
    first: Seq<(ReleaseId, Release)>,
    second: Seq<(ReleaseId, Release)>,
    user: Did,
)
    ensures
        all_locations(first + second, user) == all_locations(first, user) + all_locations(second, user),
    decreases second.len(),
{
    if second.len() == 0 {
        assert(first + second =~= first);
        assert(all_locations(first, user) + all_locations(second, user) =~= all_locations(first, user));
    } else {
        law_locations_are_taken_release_by_release(first, second.drop_last(), user);
        assert((first + second).drop_last() =~= first + second.drop_last());
        assert((first + second).last() == second.last());
        assert(all_locations(first + second, user) =~= all_locations(first, user) + all_locations(second, user));
    }
}

/// The artifacts of two lists of releases, one behind the other, are those of the first and
/// then those of the second.
pub proof fn law_artifacts_are_taken_release_by_release(
    first: Seq<(ReleaseId, Release)>,
    second: Seq<(ReleaseId, Release)>,
)
    ensures
        all_artifacts(first + second) == all_artifacts(first) + all_artifacts(second),
    decreases second.len(),
{
    if second.len() == 0 {
        assert(first + second =~= first);
        assert(all_artifacts(first) + all_artifacts(second) =~= all_artifacts(first));
    } else {
        law_artifacts_are_taken_release_by_release(first, second.drop_last());
        assert((first + second).drop_last() =~= first + second.drop_last());
        assert((first + second).last() == second.last());
        assert(all_artifacts(first + second) =~= all_artifacts(first) + all_artifacts(second));
    }
}

/// A missing location goes to a release that has the artifact, and to the latest of them:
/// of releases of one time, to the one that stands last.
pub proof fn law_missing_locations_go_to_the_latest_release(
    artifacts: Seq<ReleaseArtifact>,
    id: ReleaseId,
    cid: Cid,
)
    requires
        anchors(artifacts, (id, cid)),
    ensures
        exists|i: int|
            {
                &&& 0 <= i < artifacts.len()
                &&& (#[trigger] artifacts[i]).release_id == id
                &&& artifacts[i].cid == cid
                &&& forall|j: int|
                    0 <= j < artifacts.len() && j != i && (#[trigger] artifacts[j]).cid == cid
                        ==> artifacts[j].timestamp < artifacts[i].timestamp || (
                    artifacts[j].timestamp == artifacts[i].timestamp && j < i)
            },
        anchored(artifacts, cid),
{
    let i = choose|i: int| #[trigger] anchor_at(artifacts, cid, i) && artifacts[i].release_id == id;
    assert(artifacts[i].cid == cid);
}

/// What is missing is what is seeded and has no location of the user that leads to their
/// endpoint; and what no release has is dangling.
pub proof fn law_what_is_seeded_and_not_advertised_is_missing(
    ep: EndpointId,
    seeded: Seq<Cid>,
    locations: Seq<Ours>,
    artifacts: Seq<ReleaseArtifact>,
    cid: Cid,
)
    ensures
        unadvertised(seeded, advertised(ep, locations)).contains(cid) <==> seeded.contains(cid)
            && forall|l: Ours| #[trigger]
            locations.contains(l) && l.1 == cid ==> !ep.matches(l.2),
        anchored(artifacts, cid) <==> exists|id: ReleaseId, timestamp: u64| #[trigger]
            artifacts.contains(ReleaseArtifact { release_id: id, timestamp, cid }),
{
    let have = advertised(ep, locations);
    lemma_filter_has(seeded, |cid: Cid| !have.contains(cid), cid);
    if have.contains(cid) {
        let i = choose|i: int|
            0 <= i < locations.len() && (#[trigger] locations[i]).1 == cid && ep.matches(
                locations[i].2,
            );
        assert(locations.contains(locations[i]));
    }
    if exists|l: Ours| #[trigger] locations.contains(l) && l.1 == cid && ep.matches(l.2) {
        let l = choose|l: Ours| #[trigger]
            locations.contains(l) && l.1 == cid && ep.matches(l.2);
        let i = choose|i: int| 0 <= i < locations.len() && locations[i] == l;
        assert(locations[i].1 == cid);
        assert(have.contains(cid));
    }
    if anchored(artifacts, cid) {
        let i = choose|i: int| 0 <= i < artifacts.len() && (#[trigger] artifacts[i]).cid == cid;
        let a = artifacts[i];
        assert(artifacts.contains(
            ReleaseArtifact { release_id: a.release_id, timestamp: a.timestamp, cid },
        ));
    }
    assert forall|id: ReleaseId, timestamp: u64| #[trigger]
        artifacts.contains(ReleaseArtifact { release_id: id, timestamp, cid }) implies anchored(
        artifacts,
        cid,
    ) by {
        let i = choose|i: int|
            0 <= i < artifacts.len() && artifacts[i] == (ReleaseArtifact {
                release_id: id,
                timestamp,
                cid,
            });
        assert(artifacts[i].cid == cid);
    }
}

/// Whether a location of the user is left, and why: one of today's scheme that has no host
/// or spells their key is orphaned where the artifact is not seeded, and any other is stale.
pub proof fn law_stale_and_orphaned_locations(
    ep: EndpointId,
    seeded: Set<Cid>,
    locations: Seq<Ours>,
    l: Ours,
)
    ensures
        ({
            let own = scheme_of(l.2) == "radiroh"@ && match url_host(l.2) {
                None => true,
                Some(host) => host == base32_text(ep.key) && curve_point(ep.key.hi, ep.key.lo),
            };
            &&& orphaned(ep, seeded, locations).contains(l) <==> locations.contains(l) && own
                && !seeded.contains(l.1)
            &&& stale(ep, locations).contains(l) <==> locations.contains(l) && !own
        }),
{
    law_own_urls_are_recognized(ep, l.2);
    lemma_filter_has(locations, |l: Ours| ep.matches(l.2) && !seeded.contains(l.1), l);
    lemma_filter_has(locations, |l: Ours| !ep.matches(l.2), l);
}

/// What `snapshot` gives leaves out no release and no artifact.
pub proof fn law_snapshot_takes_every_endpoint_location(
    releases: Releases,
    user: Did,
    r: (Vec<OurLocation>, Vec<ReleaseArtifact>),
    l: Ours,
    e: ReleaseArtifact,
)
    requires
        call_ensures(snapshot, (&releases, &user), r),
    ensures
        (exists|i: int| 0 <= i < r.0@.len() && (#[trigger] r.0@[i])@ == l) <==> exists|
            release: Release,
            a: ArtifactView,
        |
            #![trigger releases.items@.contains(Ok((l.0, release))), release@.artifacts.contains((l.1, a))]
            releases.items@.contains(Ok((l.0, release))) && release@.artifacts.contains((l.1, a))
                && a.locations.contains_key(user) && a.locations[user].contains(l.2) && (scheme_of(
                l.2,
            ) == "radiroh"@ || scheme_of(l.2) == "iroh"@),
        r.1@.contains(e) <==> exists|release: Release, a: ArtifactView|
            #![trigger releases.items@.contains(Ok((e.release_id, release))), release@.artifacts.contains((e.cid, a))]
            releases.items@.contains(Ok((e.release_id, release))) && release@.artifacts.contains(
                (e.cid, a),
            ) && release@.timestamp == e.timestamp,
{
    law_every_endpoint_location_is_reconciled(releases.items@, user, l);
    law_every_artifact_can_be_advertised(releases.items@, e);
    let all = ours(r.0@);
    if all.contains(l) {
        let i = choose|i: int| 0 <= i < all.len() && all[i] == l;
        assert(r.0@[i]@ == l);
    }
    if exists|i: int| 0 <= i < r.0@.len() && (#[trigger] r.0@[i])@ == l {
        let i = choose|i: int| 0 <= i < r.0@.len() && (#[trigger] r.0@[i])@ == l;
        assert(all[i] == l);
    }
}

/// What `reconcile_plan` decides. What is added is every artifact that is seeded, that a
/// release has, and that no location of the user at their own endpoint advertises yet, each
/// once, in the latest release that has it; what no release has is dangling. A location is
/// removed only where it is stale and all are to go, or leads to the user's endpoint for an
/// artifact that is not seeded and is named or all are to go; and every location is left,
/// removed, or current.
pub proof fn law_reconcile_plan_adds_and_removes_what_it_should(
    ep: EndpointId,
    seeded: CidSet,
    locations: Vec<OurLocation>,
    artifacts: Vec<ReleaseArtifact>,
    named: CidSet,
    remove_all: bool,
    r: ReconcilePlan,
    cid: Cid,
    l: Ours,
)
    requires
        call_ensures(
            reconcile_plan,
            (ep, &seeded, &locations, &artifacts, &named, remove_all),
            r,
        ),
    ensures
        ({
            let all = ours(locations@);
            let missing = seeded@.contains(cid) && forall|x: Ours| #[trigger]
                all.contains(x) && x.1 == cid ==> !ep.matches(x.2);
            let held = exists|i: int|
                0 <= i < artifacts@.len() && (#[trigger] artifacts@[i]).cid == cid;
            &&& (exists|k: int| 0 <= k < r.add@.len() && (#[trigger] r.add@[k]).1 == cid)
                <==> missing && held
            &&& r.dangling@.contains(cid) <==> missing && !held
            &&& forall|k: int|
                0 <= k < r.add@.len() ==> exists|i: int|
                    {
                        &&& 0 <= i < artifacts@.len()
                        &&& (#[trigger] artifacts@[i]).release_id == (#[trigger] r.add@[k]).0
                        &&& artifacts@[i].cid == r.add@[k].1
                        &&& forall|j: int|
                            0 <= j < artifacts@.len() && (#[trigger] artifacts@[j]).cid
                                == r.add@[k].1 ==> artifacts@[j].timestamp
                                <= artifacts@[i].timestamp
                    }
            &&& ours(r.remove_orphaned@).contains(l) <==> all.contains(l) && ep.matches(l.2)
                && !seeded@.contains(l.1) && (remove_all || named@.contains(l.1))
            &&& ours(r.orphaned_left@).contains(l) <==> all.contains(l) && ep.matches(l.2)
                && !seeded@.contains(l.1) && !remove_all && !named@.contains(l.1)
            &&& ours(r.remove_stale@).contains(l) <==> all.contains(l) && !ep.matches(l.2)
                && remove_all
            &&& ours(r.stale_left@).contains(l) <==> all.contains(l) && !ep.matches(l.2)
                && !remove_all
        }),
{
    let all = ours(locations@);
    let orphans = orphaned(ep, seeded@, all);
    let have = advertised(ep, all);
    let without = unadvertised(seeded.seq(), have);
    let pick = |cid: Cid| anchored(artifacts@, cid);
    let second = |e: (ReleaseId, Cid)| e.1;
    law_what_is_seeded_and_not_advertised_is_missing(ep, seeded.seq(), all, artifacts@, cid);
    lemma_filter_has(without, pick, cid);
    lemma_filter_has(without, |cid: Cid| !anchored(artifacts@, cid), cid);
    lemma_map_has(r.add@, second, cid);
    let added = r.add@.map_values(second);
    if exists|k: int| 0 <= k < r.add@.len() && (#[trigger] r.add@[k]).1 == cid {
        let k = choose|k: int| 0 <= k < r.add@.len() && (#[trigger] r.add@[k]).1 == cid;
        assert(second(r.add@[k]) == cid);
    }
    if added.contains(cid) {
        let k = choose|k: int| 0 <= k < r.add@.len() && second(#[trigger] r.add@[k]) == cid;
        assert(r.add@[k].1 == cid);
    }
    assert forall|k: int| 0 <= k < r.add@.len() implies exists|i: int|
        {
            &&& 0 <= i < artifacts@.len()
            &&& (#[trigger] artifacts@[i]).release_id == (#[trigger] r.add@[k]).0
            &&& artifacts@[i].cid == r.add@[k].1
            &&& forall|j: int|
                0 <= j < artifacts@.len() && (#[trigger] artifacts@[j]).cid == r.add@[k].1
                    ==> artifacts@[j].timestamp <= artifacts@[i].timestamp
        } by {
        assert(anchors(artifacts@, r.add@[k]));
        let i = choose|i: int|
            #[trigger] anchor_at(artifacts@, r.add@[k].1, i) && artifacts@[i].release_id
                == r.add@[k].0;
        assert(artifacts@[i].release_id == r.add@[k].0);
    }
    lemma_filter_has(all, |l: Ours| ep.matches(l.2) && !seeded@.contains(l.1), l);
    lemma_filter_has(all, |l: Ours| !ep.matches(l.2), l);
    lemma_filter_has(orphans, |l: Ours| remove_all || named@.contains(l.1), l);
    lemma_filter_has(orphans, |l: Ours| !(remove_all || named@.contains(l.1)), l);
}

/// `classify_locations` leaves no location of the user out: each is current, orphaned or
/// stale, by where it leads and whether its artifact is seeded.
pub proof fn law_classifying_leaves_no_location_out(
    ep: EndpointId,
    seeded: CidSet,
    locations: Vec<OurLocation>,
    r: Classified,
    i: int,
)
    requires
        call_ensures(classify_locations, (ep, &seeded, &locations), r),
        0 <= i < locations@.len(),
    ensures
        ({
            let l = locations@[i]@;
            &&& ep.matches(l.2) ==> r.current_endpoint_have@.contains(l.1)
            &&& ours(r.orphaned_self@).contains(l) <==> ep.matches(l.2) && !seeded@.contains(l.1)
            &&& ours(r.stale_endpoint@).contains(l) <==> !ep.matches(l.2)
        }),
{
    assert(ours(locations@)[i] == locations@[i]@);
    law_locations_fall_into_one_class(ep, seeded@, ours(locations@), i);
}

} // verus!
