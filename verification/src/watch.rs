//! What a watching node should seed, and whether it has room for it.

use crate::ids::{Cid, Did, ReleaseId};
use crate::json::json_u64;
use crate::order::{law_newest_first_is_a_sorting, newest_first, sort_newest_first, Stamped};
use crate::release::{Artifact, ArtifactView, Release};
use crate::seqs::lemma_push_has;
use crate::sorted::SortedSet;
use crate::trust::{
    artifact_verdict, classify_artifact, law_trust_is_anchored_in_delegates, Verdict,
};
use vstd::prelude::*;

verus! {

/// The metadata key that holds the size of an artifact in bytes.
pub const METADATA_KEY_SIZE_BYTES: &'static str = "sizeBytes";

/// An artifact that a watching node would seed.
pub struct Wanted {
    /// The release to seed it under.
    pub release_id: ReleaseId,
    /// The artifact.
    pub cid: Cid,
    /// Its name.
    pub name: String,
    /// Its size, where the author recorded one.
    pub size_hint: Option<u64>,
}

/// What `Wanted` stands for.
#[verifier::ext_equal]
pub struct WantedView {
    pub release_id: ReleaseId,
    pub cid: Cid,
    pub name: Seq<char>,
    pub size_hint: Option<u64>,
}

impl View for Wanted {
    type V = WantedView;

    open spec fn view(&self) -> WantedView {
        WantedView {
            release_id: self.release_id,
            cid: self.cid,
            name: self.name@,
            size_hint: self.size_hint,
        }
    }
}

/// An artifact in one of the releases of a repository.
#[verifier::ext_equal]
pub struct Carried {
    pub release_id: ReleaseId,
    pub creator: Did,
    pub cid: Cid,
    pub artifact: ArtifactView,
}

/// The artifacts of a release, in the order of registration.
pub open spec fn carried_by(r: (ReleaseId, Release)) -> Seq<Carried> {
    Seq::new(
        r.1@.artifacts.len(),
        |j: int|
            Carried {
                release_id: r.0,
                creator: r.1@.creator,
                cid: r.1@.artifacts[j].0,
                artifact: r.1@.artifacts[j].1,
            },
    )
}

/// The artifacts of the releases at the places `order`.
pub open spec fn carried(rs: Seq<(ReleaseId, Release)>, order: Seq<Stamped>) -> Seq<Carried>
    decreases order.len(),
{
    if order.len() == 0 {
        Seq::empty()
    } else {
        carried(rs, order.drop_last()) + carried_by(rs[order.last().index as int])
    }
}

/// The times of releases.
pub open spec fn times_of(rs: Seq<(ReleaseId, Release)>) -> Seq<u64> {
    rs.map_values(|r: (ReleaseId, Release)| r.1@.timestamp)
}

/// Whether the artifact `cid` occurs in `all`.
pub open spec fn occurs(all: Seq<Carried>, cid: Cid) -> bool {
    exists|i: int| 0 <= i < all.len() && (#[trigger] all[i]).cid == cid
}

/// The size that the metadata of an artifact records.
pub open spec fn hint_of(a: ArtifactView) -> Option<u64> {
    if a.metadata.contains_key(METADATA_KEY_SIZE_BYTES@) {
        json_u64(a.metadata[METADATA_KEY_SIZE_BYTES@])
    } else {
        None
    }
}

/// The entries of `all` that are the first for their artifact, are trusted, and
/// are not seeded.
pub open spec fn pick(
    all: Seq<Carried>,
    delegates: Set<Did>,
    local: Did,
    seeded: spec_fn(Cid) -> bool,
) -> Seq<WantedView>
    decreases all.len(),
{
    if all.len() == 0 {
        Seq::empty()
    } else {
        let before = all.drop_last();
        let e = all.last();
        let picked = pick(before, delegates, local, seeded);
        if !occurs(before, e.cid) && artifact_verdict(
            e.creator,
            e.artifact,
            delegates,
            local,
            false,
        ) == Verdict::Trusted && !seeded(e.cid) {
            picked.push(
                WantedView {
                    release_id: e.release_id,
                    cid: e.cid,
                    name: e.artifact.name,
                    size_hint: hint_of(e.artifact),
                },
            )
        } else {
            picked
        }
    }
}

/// The trusted artifacts that are not seeded, the newest release first. The newest
/// release that has an artifact decides on it.
pub open spec fn wanted_spec(
    rs: Seq<(ReleaseId, Release)>,
    delegates: Set<Did>,
    local: Did,
    seeded: spec_fn(Cid) -> bool,
) -> Seq<WantedView> {
    pick(carried(rs, newest_first(times_of(rs))), delegates, local, seeded)
}

/// Whether entry `k` of `all` is the first for its artifact, is trusted, and is not
/// seeded.
pub open spec fn chosen(
    all: Seq<Carried>,
    delegates: Set<Did>,
    local: Did,
    seeded: spec_fn(Cid) -> bool,
    k: int,
) -> bool {
    let e = all[k];
    &&& 0 <= k < all.len()
    &&& !occurs(all.take(k), e.cid)
    &&& artifact_verdict(e.creator, e.artifact, delegates, local, false) == Verdict::Trusted
    &&& !seeded(e.cid)
}

/// What is wanted of an entry.
pub open spec fn want(e: Carried) -> WantedView {
    WantedView {
        release_id: e.release_id,
        cid: e.cid,
        name: e.artifact.name,
        size_hint: hint_of(e.artifact),
    }
}

/// Whether `w` is wanted for one of the entries of `all`.
pub open spec fn wanted_for(
    w: WantedView,
    all: Seq<Carried>,
    delegates: Set<Did>,
    local: Did,
    seeded: spec_fn(Cid) -> bool,
) -> bool {
    exists|k: int| #[trigger] chosen(all, delegates, local, seeded, k) && w == want(all[k])
}

proof fn lemma_pick(
    all: Seq<Carried>,
    picked: Seq<WantedView>,
    delegates: Set<Did>,
    local: Did,
    seeded: spec_fn(Cid) -> bool,
)
    requires
        picked == pick(all, delegates, local, seeded),
    ensures
        forall|w: WantedView| #[trigger]
            picked.contains(w) <==> wanted_for(w, all, delegates, local, seeded),
        forall|i: int, j: int|
            0 <= i < j < picked.len() ==> (#[trigger] picked[i]).cid != (#[trigger] picked[j]).cid,
    decreases all.len(),
{
    if all.len() > 0 {
        let n = all.len() - 1;
        let before = all.drop_last();
        let had = pick(before, delegates, local, seeded);
        lemma_pick(before, had, delegates, local, seeded);
        assert(all.take(n) =~= before);
        let last = chosen(all, delegates, local, seeded, n);
        assert(picked == if last {
            had.push(want(all[n]))
        } else {
            had
        });
        assert forall|k: int| 0 <= k < n implies #[trigger] chosen(
            all,
            delegates,
            local,
            seeded,
            k,
        ) == chosen(before, delegates, local, seeded, k) by {
            assert(all.take(k) =~= before.take(k));
        }
        assert forall|w: WantedView| #[trigger]
            picked.contains(w) <==> wanted_for(w, all, delegates, local, seeded) by {
            if picked.contains(w) {
                let i = choose|i: int| 0 <= i < picked.len() && picked[i] == w;
                if i < had.len() {
                    assert(had[i] == w);
                    assert(had.contains(w));
                    let k = choose|k: int| #[trigger]
                        chosen(before, delegates, local, seeded, k) && w == want(before[k]);
                    assert(chosen(all, delegates, local, seeded, k));
                } else {
                    assert(chosen(all, delegates, local, seeded, n));
                }
            }
            if wanted_for(w, all, delegates, local, seeded) {
                let k = choose|k: int| #[trigger]
                    chosen(all, delegates, local, seeded, k) && w == want(all[k]);
                if k < n {
                    assert(chosen(before, delegates, local, seeded, k));
                    assert(w == want(before[k]));
                    assert(had.contains(w));
                    let i = choose|i: int| 0 <= i < had.len() && had[i] == w;
                    assert(picked[i] == w);
                } else {
                    assert(picked[had.len() as int] == w);
                }
            }
        }
        assert forall|i: int, j: int| 0 <= i < j < picked.len() implies (#[trigger] picked[i]).cid
            != (#[trigger] picked[j]).cid by {
            if j == had.len() {
                assert(had.contains(had[i]));
                let k = choose|k: int| #[trigger]
                    chosen(before, delegates, local, seeded, k) && had[i] == want(before[k]);
                assert(before[k].cid == had[i].cid);
            }
        }
    } else {
        assert forall|w: WantedView| #[trigger]
            picked.contains(w) <==> wanted_for(w, all, delegates, local, seeded) by {
        }
    }
}

/// An artifact is wanted once, and exactly where the newest release that has it is
/// trusted with it and it is not seeded: a stranger's artifact, one that was withdrawn and
/// one that is seeded are never wanted, and nothing else is left out.
pub proof fn law_each_trusted_artifact_is_wanted_once(
    rs: Seq<(ReleaseId, Release)>,
    delegates: Set<Did>,
    local: Did,
    seeded: spec_fn(Cid) -> bool,
)
    ensures
        forall|w: WantedView| #[trigger]
            wanted_spec(rs, delegates, local, seeded).contains(w) <==> wanted_for(
                w,
                carried(rs, newest_first(times_of(rs))),
                delegates,
                local,
                seeded,
            ),
        forall|i: int, j: int|
            0 <= i < j < wanted_spec(rs, delegates, local, seeded).len() ==> (
            #[trigger] wanted_spec(rs, delegates, local, seeded)[i]).cid != (
            #[trigger] wanted_spec(rs, delegates, local, seeded)[j]).cid,
{
    lemma_pick(
        carried(rs, newest_first(times_of(rs))),
        wanted_spec(rs, delegates, local, seeded),
        delegates,
        local,
        seeded,
    );
}

/// The size that the metadata of an artifact records, where that is a plain number.
pub fn size_hint(artifact: &Artifact) -> (r: Option<u64>)
    ensures
        r == hint_of(artifact@),
{
    match artifact.metadata().get(&METADATA_KEY_SIZE_BYTES.to_owned()) {
        Some(value) => {
            assert(artifact@.metadata.contains_key(METADATA_KEY_SIZE_BYTES@));
            value.as_u64()
        },
        None => {
            assert(!artifact@.metadata.contains_key(METADATA_KEY_SIZE_BYTES@));
            None
        },
    }
}

/// Whether `cid` is in the list.
pub fn has_cid(list: &Vec<Cid>, cid: &Cid) -> (r: bool)
    ensures
        r == list@.contains(*cid),
{
    let mut i: usize = 0;
    while i < list.len()
        invariant
            i <= list@.len(),
            forall|j: int| 0 <= j < i ==> list@[j] != *cid,
        decreases list@.len() - i,
    {
        if list[i] == *cid {
            assert(list@[i as int] == *cid);
            return true;
        }
        i += 1;
    }
    false
}

/// The times of releases.
pub fn timestamps(releases: &Vec<(ReleaseId, Release)>) -> (r: Vec<u64>)
    ensures
        r@ == times_of(releases@),
{
    let mut out: Vec<u64> = Vec::new();
    let mut i: usize = 0;
    while i < releases.len()
        invariant
            i <= releases@.len(),
            out@ == times_of(releases@).take(i as int),
        decreases releases@.len() - i,
    {
        out.push(releases[i].1.timestamp());
        i += 1;
        assert(out@ =~= times_of(releases@).take(i as int));
    }
    assert(out@ =~= times_of(releases@));
    out
}

/// The trusted artifacts of a repository that a node does not seed yet, the newest
/// release first.
///
/// `is_seeded` answers for an artifact and always answers the same. An artifact
/// that several releases have is wanted at most once, under the newest of them.
pub fn wanted<F: Fn(&Cid) -> bool>(
    releases: &Vec<(ReleaseId, Release)>,
    delegates: &SortedSet<Did>,
    local: &Did,
    is_seeded: F,
) -> (r: Vec<Wanted>)
    requires
        forall|c: Cid| #[trigger] is_seeded.requires((&c,)),
        forall|c: Cid, x: bool, y: bool|
            is_seeded.ensures((&c,), x) && is_seeded.ensures((&c,), y) ==> x == y,
    ensures
        r@.map_values(|w: Wanted| w@) == wanted_spec(
            releases@,
            delegates@,
            *local,
            |c: Cid| is_seeded.ensures((&c,), true),
        ),
{
    let order = sort_newest_first(&timestamps(releases));
    let ghost rs = releases@;
    let ghost seeded = |c: Cid| is_seeded.ensures((&c,), true);
    let mut seen: Vec<Cid> = Vec::new();
    let mut out: Vec<Wanted> = Vec::new();
    let mut i: usize = 0;
    while i < order.len()
        invariant
            i <= order@.len(),
            rs == releases@,
            seeded == (|c: Cid| is_seeded.ensures((&c,), true)),
            forall|c: Cid| #[trigger] is_seeded.requires((&c,)),
            forall|c: Cid, x: bool, y: bool|
                is_seeded.ensures((&c,), x) && is_seeded.ensures((&c,), y) ==> x == y,
            forall|k: int| 0 <= k < order@.len() ==> (#[trigger] order@[k]).index < rs.len(),
            seen@ == carried(rs, order@.take(i as int)).map_values(|e: Carried| e.cid),
            out@.map_values(|w: Wanted| w@) == pick(
                carried(rs, order@.take(i as int)),
                delegates@,
                *local,
                seeded,
            ),
        decreases order@.len() - i,
    {
        let (release_id, release) = &releases[order[i].index];
        let ghost before = carried(rs, order@.take(i as int));
        let ghost here = carried_by(rs[order@[i as int].index as int]);
        let mut j: usize = 0;
        assert(before + here.take(0) =~= before);
        while j < release.len()
            invariant
                j <= release@.artifacts.len(),
                here == carried_by((*release_id, *release)),
                seeded == (|c: Cid| is_seeded.ensures((&c,), true)),
                forall|c: Cid| #[trigger] is_seeded.requires((&c,)),
                forall|c: Cid, x: bool, y: bool|
                    is_seeded.ensures((&c,), x) && is_seeded.ensures((&c,), y) ==> x == y,
                seen@ == (before + here.take(j as int)).map_values(|e: Carried| e.cid),
                out@.map_values(|w: Wanted| w@) == pick(
                    before + here.take(j as int),
                    delegates@,
                    *local,
                    seeded,
                ),
            decreases release@.artifacts.len() - j,
        {
            let (cid, artifact) = release.at(j);
            let ghost all = before + here.take(j as int);
            let ghost next = before + here.take(j + 1);
            let ghost e = here[j as int];
            let ghost had = out@;
            proof {
                assert(next.drop_last() =~= all);
                assert(next.last() == e);
                assert(e.cid == cid);
                assert(e.artifact == artifact@);
                let cids = all.map_values(|e: Carried| e.cid);
                if cids.contains(cid) {
                    let k = choose|k: int| 0 <= k < cids.len() && cids[k] == cid;
                    assert(all[k].cid == cid);
                }
                if occurs(all, cid) {
                    let k = choose|k: int| 0 <= k < all.len() && (#[trigger] all[k]).cid == cid;
                    assert(cids[k] == cid);
                }
            }
            let is_new = !has_cid(&seen, &cid);
            let ghost seen_before = seen@;
            seen.push(cid);
            assert(seen@ =~= next.map_values(|e: Carried| e.cid));
            if is_new {
                let judged = classify_artifact(release, artifact, delegates, local, false);
                let skip = match judged {
                    Ok(()) => is_seeded(&cid),
                    Err(_) => true,
                };
                if !skip {
                    out.push(
                        Wanted {
                            release_id: *release_id,
                            cid,
                            name: artifact.name().to_owned(),
                            size_hint: size_hint(artifact),
                        },
                    );
                    assert(out@.map_values(|w: Wanted| w@) =~= had.map_values(
                        |w: Wanted| w@,
                    ).push(out@.last()@));
                }
            }
            j += 1;
        }
        assert(here.take(j as int) =~= here);
        assert(order@.take(i + 1).drop_last() =~= order@.take(i as int));
        i += 1;
    }
    assert(order@.take(i as int) =~= order@);
    out
}

/// Whether seeding an artifact keeps the store within `limit` bytes in all.
///
/// Without a limit everything fits. An artifact without a size fits as long as the
/// store is under the limit.
pub fn fits(limit: Option<u64>, seeded_bytes: u64, size_hint: Option<u64>) -> (r: bool)
    ensures
        r == (match (limit, size_hint) {
            (None, _) => true,
            (Some(limit), Some(size)) => limit == u64::MAX || seeded_bytes + size <= limit,
            (Some(limit), None) => seeded_bytes < limit,
        }),
{
    match limit {
        None => true,
        Some(limit) => match size_hint {
            Some(size) => seeded_bytes.saturating_add(size) <= limit,
            None => seeded_bytes < limit,
        },
    }
}

/// Whether an entry is trusted and not seeded.
spec fn welcome(
    e: Carried,
    delegates: Set<Did>,
    local: Did,
    seeded: spec_fn(Cid) -> bool,
) -> bool {
    artifact_verdict(e.creator, e.artifact, delegates, local, false) == Verdict::Trusted
        && !seeded(e.cid)
}

/// Which artifacts occur in the releases at the places `order`.
proof fn lemma_occurs(rs: Seq<(ReleaseId, Release)>, order: Seq<Stamped>, cid: Cid)
    ensures
        occurs(carried(rs, order), cid) <==> exists|p: int|
            0 <= p < order.len() && rs[(#[trigger] order[p]).index as int].1@.has(cid),
    decreases order.len(),
{
    let all = carried(rs, order);
    if order.len() > 0 {
        let rest = order.drop_last();
        let before = carried(rs, rest);
        let last = rs[order.last().index as int];
        let by = carried_by(last);
        lemma_occurs(rs, rest, cid);
        assert(all == before + by);
        if occurs(before, cid) {
            let i = choose|i: int| 0 <= i < before.len() && (#[trigger] before[i]).cid == cid;
            assert(all[i].cid == cid);
            let p = choose|p: int|
                0 <= p < rest.len() && rs[(#[trigger] rest[p]).index as int].1@.has(cid);
            assert(order[p] == rest[p]);
        }
        if last.1@.has(cid) {
            let j = choose|j: int|
                0 <= j < last.1@.artifacts.len() && #[trigger] last.1@.artifacts[j].0 == cid;
            assert(by[j].cid == cid);
            assert(all[before.len() + j].cid == cid);
            assert(order[order.len() - 1] == order.last());
        }
        if occurs(all, cid) && !occurs(before, cid) {
            let i = choose|i: int| 0 <= i < all.len() && (#[trigger] all[i]).cid == cid;
            if i < before.len() {
                assert(before[i].cid == cid);
            }
            let j = i - before.len();
            assert(last.1@.artifacts[j].0 == cid);
        }
        if exists|p: int|
            0 <= p < order.len() && rs[(#[trigger] order[p]).index as int].1@.has(cid) {
            let p = choose|p: int|
                0 <= p < order.len() && rs[(#[trigger] order[p]).index as int].1@.has(cid);
            if p < rest.len() {
                assert(rest[p] == order[p]);
            }
        }
    }
}

/// What the first artifacts of one more release add to what is wanted.
proof fn lemma_pick_release(
    all: Seq<Carried>,
    r: (ReleaseId, Release),
    n: int,
    delegates: Set<Did>,
    local: Did,
    seeded: spec_fn(Cid) -> bool,
    w: WantedView,
)
    requires
        r.1@.distinct(),
        0 <= n <= r.1@.artifacts.len(),
    ensures
        pick(all + carried_by(r).take(n), delegates, local, seeded).contains(w) <==> pick(
            all,
            delegates,
            local,
            seeded,
        ).contains(w) || exists|j: int|
            0 <= j < n && w == want(#[trigger] carried_by(r)[j]) && !occurs(all, w.cid) && welcome(
                carried_by(r)[j],
                delegates,
                local,
                seeded,
            ),
    decreases n,
{
    let by = carried_by(r);
    if n == 0 {
        assert(all + by.take(n) =~= all);
    } else {
        let before = all + by.take(n - 1);
        let now = all + by.take(n);
        let e = by[n - 1];
        lemma_pick_release(all, r, n - 1, delegates, local, seeded, w);
        assert(now.drop_last() =~= before);
        assert(now.last() == e);
        assert(occurs(before, e.cid) <==> occurs(all, e.cid)) by {
            if occurs(all, e.cid) {
                let i = choose|i: int| 0 <= i < all.len() && (#[trigger] all[i]).cid == e.cid;
                assert(before[i].cid == e.cid);
            }
            if occurs(before, e.cid) {
                let i = choose|i: int|
                    0 <= i < before.len() && (#[trigger] before[i]).cid == e.cid;
                if i < all.len() {
                    assert(all[i].cid == e.cid);
                } else {
                    let j = i - all.len();
                    assert(r.1@.artifacts[j].0 != r.1@.artifacts[n - 1].0);
                }
            }
        }
        lemma_push_has(pick(before, delegates, local, seeded), want(e), w);
    }
}

/// What is wanted of the releases at the places `order`: an artifact of a release counts
/// where no release before has it.
proof fn lemma_pick_order(
    rs: Seq<(ReleaseId, Release)>,
    order: Seq<Stamped>,
    delegates: Set<Did>,
    local: Did,
    seeded: spec_fn(Cid) -> bool,
    w: WantedView,
)
    requires
        forall|p: int|
            0 <= p < order.len() ==> rs[(#[trigger] order[p]).index as int].1@.distinct(),
    ensures
        pick(carried(rs, order), delegates, local, seeded).contains(w) <==> exists|p: int, j: int|
            #![trigger order[p], carried_by(rs[order[p].index as int])[j]]
            0 <= p < order.len() && 0 <= j < rs[order[p].index as int].1@.artifacts.len() && w
                == want(carried_by(rs[order[p].index as int])[j]) && welcome(
                carried_by(rs[order[p].index as int])[j],
                delegates,
                local,
                seeded,
            ) && !occurs(carried(rs, order.take(p)), w.cid),
    decreases order.len(),
{
    if order.len() > 0 {
        let rest = order.drop_last();
        let n = order.len() - 1;
        let last = rs[order[n].index as int];
        assert forall|p: int| 0 <= p < rest.len() implies rs[(
        #[trigger] rest[p]).index as int].1@.distinct() by {
            assert(rest[p] == order[p]);
        }
        lemma_pick_order(rs, rest, delegates, local, seeded, w);
        let before = carried(rs, rest);
        let by = carried_by(last);
        assert(by.take(by.len() as int) =~= by);
        lemma_pick_release(before, last, by.len() as int, delegates, local, seeded, w);
        assert(order.take(n) =~= rest);
        assert forall|p: int| 0 <= p < rest.len() implies #[trigger] rest.take(p) == order.take(
            p,
        ) by {
            assert(rest.take(p) =~= order.take(p));
        }
        if pick(before, delegates, local, seeded).contains(w) {
            let (p, j) = choose|p: int, j: int|
                #![trigger rest[p], carried_by(rs[rest[p].index as int])[j]]
                0 <= p < rest.len() && 0 <= j < rs[rest[p].index as int].1@.artifacts.len() && w
                    == want(carried_by(rs[rest[p].index as int])[j]) && welcome(
                    carried_by(rs[rest[p].index as int])[j],
                    delegates,
                    local,
                    seeded,
                ) && !occurs(carried(rs, rest.take(p)), w.cid);
            assert(order[p] == rest[p]);
            assert(rest.take(p) == order.take(p));
            assert(carried_by(rs[order[p].index as int])[j] == carried_by(
                rs[rest[p].index as int],
            )[j]);
        }
        if exists|j: int|
            0 <= j < by.len() && w == want(#[trigger] by[j]) && !occurs(before, w.cid) && welcome(
                by[j],
                delegates,
                local,
                seeded,
            ) {
            let j = choose|j: int|
                0 <= j < by.len() && w == want(#[trigger] by[j]) && !occurs(before, w.cid)
                    && welcome(by[j], delegates, local, seeded);
            assert(carried_by(rs[order[n].index as int])[j] == by[j]);
        }
        assert forall|p: int, j: int|
            #![trigger order[p], carried_by(rs[order[p].index as int])[j]]
            0 <= p < order.len() && 0 <= j < rs[order[p].index as int].1@.artifacts.len() && w
                == want(carried_by(rs[order[p].index as int])[j]) && welcome(
                carried_by(rs[order[p].index as int])[j],
                delegates,
                local,
                seeded,
            ) && !occurs(carried(rs, order.take(p)), w.cid) implies pick(
            carried(rs, order),
            delegates,
            local,
            seeded,
        ).contains(w) by {
            if p < n {
                assert(rest[p] == order[p]);
                assert(rest.take(p) == order.take(p));
                assert(carried_by(rs[rest[p].index as int])[j] == carried_by(
                    rs[order[p].index as int],
                )[j]);
            } else {
                assert(by[j] == carried_by(rs[order[p].index as int])[j]);
            }
        }
    }
}

/// A node wants an artifact of a release exactly where no newer release has it, the
/// creator of the release and the author of the artifact are delegates or the node's own
/// user, neither the author nor a delegate has redacted it, and it is not seeded. Of
/// releases of one time the earlier in the list counts as the newer. What is wanted
/// stands under that release, with the name and the size of the artifact there.
pub proof fn law_the_newest_release_decides(
    rs: Seq<(ReleaseId, Release)>,
    delegates: Set<Did>,
    local: Did,
    seeded: spec_fn(Cid) -> bool,
    w: WantedView,
)
    requires
        rs.len() <= usize::MAX,
        forall|i: int| 0 <= i < rs.len() ==> (#[trigger] rs[i]).1@.distinct(),
    ensures
        wanted_spec(rs, delegates, local, seeded).contains(w) <==> exists|i: int, j: int|
            #![trigger rs[i].1@.artifacts[j]]
            {
                let r = rs[i].1@;
                let a = r.artifacts[j].1;
                &&& 0 <= i < rs.len()
                &&& 0 <= j < r.artifacts.len()
                &&& rs[i].0 == w.release_id
                &&& r.artifacts[j].0 == w.cid
                &&& a.name == w.name
                &&& w.size_hint == (if a.metadata.contains_key("sizeBytes"@) {
                    json_u64(a.metadata["sizeBytes"@])
                } else {
                    None
                })
                &&& forall|k: int|
                    0 <= k < rs.len() && k != i && (#[trigger] rs[k]).1@.has(w.cid)
                        ==> rs[k].1@.timestamp < r.timestamp || (rs[k].1@.timestamp == r.timestamp
                        && i < k)
                &&& delegates.contains(r.creator) || r.creator == local
                &&& delegates.contains(a.author) || a.author == local
                &&& forall|d: Did| #[trigger]
                    a.redactions.contains_key(d) ==> d != a.author && !delegates.contains(d)
                &&& !seeded(w.cid)
            },
{
    let times = times_of(rs);
    let order = newest_first(times);
    law_newest_first_is_a_sorting(times);
    assert forall|p: int| 0 <= p < order.len() implies (#[trigger] order[p]).index < rs.len()
        && order[p].timestamp == rs[order[p].index as int].1@.timestamp by {
        assert(order.contains(order[p]));
    }
    lemma_pick_order(rs, order, delegates, local, seeded, w);
    assert forall|p: int| 0 <= p < order.len() implies (#[trigger] occurs(
        carried(rs, order.take(p)),
        w.cid,
    ) <==> exists|k: int|
        0 <= k < rs.len() && (#[trigger] rs[k]).1@.has(w.cid) && (rs[k].1@.timestamp
            > order[p].timestamp || (rs[k].1@.timestamp == order[p].timestamp && k
            < order[p].index))) by {
        lemma_occurs(rs, order.take(p), w.cid);
        let before = order.take(p);
        if occurs(carried(rs, before), w.cid) {
            let q = choose|q: int|
                0 <= q < before.len() && rs[(#[trigger] before[q]).index as int].1@.has(w.cid);
            assert(before[q] == order[q]);
            assert(rs[order[q].index as int].1@.has(w.cid));
        }
        if exists|k: int|
            0 <= k < rs.len() && (#[trigger] rs[k]).1@.has(w.cid) && (rs[k].1@.timestamp
                > order[p].timestamp || (rs[k].1@.timestamp == order[p].timestamp && k
                < order[p].index)) {
            let k = choose|k: int|
                0 <= k < rs.len() && (#[trigger] rs[k]).1@.has(w.cid) && (rs[k].1@.timestamp
                    > order[p].timestamp || (rs[k].1@.timestamp == order[p].timestamp && k
                    < order[p].index));
            let s = Stamped { timestamp: times[k], index: k as usize };
            assert(order.contains(s));
            let q = choose|q: int| 0 <= q < order.len() && order[q] == s;
            if p <= q {
                assert(p == q || order[p].timestamp >= order[q].timestamp);
            }
            assert(q < p);
            assert(before[q] == order[q]);
        }
    }
    if wanted_spec(rs, delegates, local, seeded).contains(w) {
        let (p, j) = choose|p: int, j: int|
            #![trigger order[p], carried_by(rs[order[p].index as int])[j]]
            0 <= p < order.len() && 0 <= j < rs[order[p].index as int].1@.artifacts.len() && w
                == want(carried_by(rs[order[p].index as int])[j]) && welcome(
                carried_by(rs[order[p].index as int])[j],
                delegates,
                local,
                seeded,
            ) && !occurs(carried(rs, order.take(p)), w.cid);
        let i = order[p].index as int;
        let r = rs[i].1@;
        let a = r.artifacts[j].1;
        law_trust_is_anchored_in_delegates(
            r.creator,
            a.author,
            a.redactions,
            delegates,
            local,
            false,
        );
        assert(r.artifacts[j].0 == w.cid);
        assert(rs[i].1@.artifacts[j].1 == a);
        assert forall|k: int|
            0 <= k < rs.len() && k != i && (#[trigger] rs[k]).1@.has(
                w.cid,
            ) implies rs[k].1@.timestamp < r.timestamp || (rs[k].1@.timestamp == r.timestamp && i
            < k) by {}
    }
    assert forall|i: int, j: int| #![trigger rs[i].1@.artifacts[j]]
        {
            let r = rs[i].1@;
            let a = r.artifacts[j].1;
            &&& 0 <= i < rs.len()
            &&& 0 <= j < r.artifacts.len()
            &&& rs[i].0 == w.release_id
            &&& r.artifacts[j].0 == w.cid
            &&& a.name == w.name
            &&& w.size_hint == hint_of(a)
            &&& forall|k: int|
                0 <= k < rs.len() && k != i && (#[trigger] rs[k]).1@.has(w.cid)
                    ==> rs[k].1@.timestamp < r.timestamp || (rs[k].1@.timestamp == r.timestamp && i
                    < k)
            &&& delegates.contains(r.creator) || r.creator == local
            &&& delegates.contains(a.author) || a.author == local
            &&& forall|d: Did| #[trigger]
                a.redactions.contains_key(d) ==> d != a.author && !delegates.contains(d)
            &&& !seeded(w.cid)
        } implies wanted_spec(rs, delegates, local, seeded).contains(w) by {
        let r = rs[i].1@;
        let a = r.artifacts[j].1;
        law_trust_is_anchored_in_delegates(
            r.creator,
            a.author,
            a.redactions,
            delegates,
            local,
            false,
        );
        let s = Stamped { timestamp: times[i], index: i as usize };
        assert(order.contains(s));
        let p = choose|p: int| 0 <= p < order.len() && order[p] == s;
        let e = carried_by(rs[order[p].index as int])[j];
        assert(e.artifact == a);
        assert(welcome(e, delegates, local, seeded));
        assert(want(e) == w);
        assert(!occurs(carried(rs, order.take(p)), w.cid));
    }
}

/// What the releases at the places `order` add stands in that order.
proof fn lemma_pick_sorted(
    rs: Seq<(ReleaseId, Release)>,
    order: Seq<Stamped>,
    delegates: Set<Did>,
    local: Did,
    seeded: spec_fn(Cid) -> bool,
)
    ensures
        ({
            let out = pick(carried(rs, order), delegates, local, seeded);
            &&& forall|i: int|
                0 <= i < out.len() ==> exists|p: int|
                    0 <= p < order.len() && rs[(#[trigger] order[p]).index as int].0 == (
                    #[trigger] out[i]).release_id && rs[order[p].index as int].1@.has(out[i].cid)
            &&& forall|i: int, j: int|
                0 <= i < j < out.len() ==> exists|p: int, q: int|
                    0 <= p <= q < order.len() && rs[(#[trigger] order[p]).index as int].0 == (
                    #[trigger] out[i]).release_id && rs[order[p].index as int].1@.has(out[i].cid)
                        && rs[(#[trigger] order[q]).index as int].0 == (
                    #[trigger] out[j]).release_id && rs[order[q].index as int].1@.has(out[j].cid)
        }),
    decreases order.len(),
{
    if order.len() > 0 {
        let rest = order.drop_last();
        let n = order.len() - 1;
        let last = rs[order[n].index as int];
        let all = carried(rs, rest);
        let by = carried_by(last);
        let head = pick(all, delegates, local, seeded);
        let out = pick(carried(rs, order), delegates, local, seeded);
        lemma_pick_sorted(rs, rest, delegates, local, seeded);
        lemma_pick_tail(all, last, by.len() as int, delegates, local, seeded);
        assert(by.take(by.len() as int) =~= by);
        assert(carried(rs, order) == all + by);
        assert forall|i: int| 0 <= i < out.len() implies exists|p: int|
            0 <= p < order.len() && rs[(#[trigger] order[p]).index as int].0 == (
            #[trigger] out[i]).release_id && rs[order[p].index as int].1@.has(out[i].cid) by {
            if i < head.len() {
                assert(out[i] == head[i]);
                let p = choose|p: int|
                    0 <= p < rest.len() && rs[(#[trigger] rest[p]).index as int].0
                        == head[i].release_id && rs[rest[p].index as int].1@.has(head[i].cid);
                assert(order[p] == rest[p]);
            } else {
                assert(rs[order[n].index as int].0 == out[i].release_id);
            }
        }
        assert forall|i: int, j: int| 0 <= i < j < out.len() implies exists|p: int, q: int|
            0 <= p <= q < order.len() && rs[(#[trigger] order[p]).index as int].0 == (
            #[trigger] out[i]).release_id && rs[order[p].index as int].1@.has(out[i].cid) && rs[(
            #[trigger] order[q]).index as int].0 == (#[trigger] out[j]).release_id
                && rs[order[q].index as int].1@.has(out[j].cid) by {
            if j < head.len() {
                assert(out[i] == head[i] && out[j] == head[j]);
                let (p, q) = choose|p: int, q: int|
                    0 <= p <= q < rest.len() && rs[(#[trigger] rest[p]).index as int].0
                        == head[i].release_id && rs[rest[p].index as int].1@.has(head[i].cid)
                        && rs[(#[trigger] rest[q]).index as int].0 == head[j].release_id
                        && rs[rest[q].index as int].1@.has(head[j].cid);
                assert(order[p] == rest[p] && order[q] == rest[q]);
            } else {
                assert(rs[order[n].index as int].0 == out[j].release_id);
                assert(rs[order[n].index as int].1@.has(out[j].cid));
                let p = choose|p: int|
                    0 <= p < order.len() && rs[(#[trigger] order[p]).index as int].0
                        == out[i].release_id && rs[order[p].index as int].1@.has(out[i].cid);
                assert(p <= n);
            }
        }
    }
}

/// What is wanted of one more release stands behind what is wanted of those before.
proof fn lemma_pick_tail(
    all: Seq<Carried>,
    r: (ReleaseId, Release),
    n: int,
    delegates: Set<Did>,
    local: Did,
    seeded: spec_fn(Cid) -> bool,
)
    requires
        0 <= n <= r.1@.artifacts.len(),
    ensures
        ({
            let head = pick(all, delegates, local, seeded);
            let out = pick(all + carried_by(r).take(n), delegates, local, seeded);
            &&& head.len() <= out.len()
            &&& forall|i: int| 0 <= i < head.len() ==> #[trigger] out[i] == head[i]
            &&& forall|i: int|
                head.len() <= i < out.len() ==> (#[trigger] out[i]).release_id == r.0 && r.1@.has(
                    out[i].cid,
                )
        }),
    decreases n,
{
    let by = carried_by(r);
    if n == 0 {
        assert(all + by.take(n) =~= all);
    } else {
        let before = all + by.take(n - 1);
        let now = all + by.take(n);
        lemma_pick_tail(all, r, n - 1, delegates, local, seeded);
        assert(now.drop_last() =~= before);
        assert(now.last() == by[n - 1]);
        assert(r.1@.artifacts[n - 1].0 == by[n - 1].cid);
    }
}

/// What is wanted comes newest first: of two artifacts that are wanted, the one that comes
/// first stands under a release that has it and is no older than one that has the other.
pub proof fn law_the_newest_comes_first(
    rs: Seq<(ReleaseId, Release)>,
    delegates: Set<Did>,
    local: Did,
    seeded: spec_fn(Cid) -> bool,
    i: int,
    j: int,
)
    requires
        rs.len() <= usize::MAX,
        0 <= i < j < wanted_spec(rs, delegates, local, seeded).len(),
    ensures
        ({
            let first = wanted_spec(rs, delegates, local, seeded)[i];
            let second = wanted_spec(rs, delegates, local, seeded)[j];
            &&& first.cid != second.cid
            &&& exists|x: int, y: int|
                {
                    &&& 0 <= x < rs.len() && 0 <= y < rs.len()
                    &&& (#[trigger] rs[x]).0 == first.release_id && rs[x].1@.has(first.cid)
                    &&& (#[trigger] rs[y]).0 == second.release_id && rs[y].1@.has(second.cid)
                    &&& rs[x].1@.timestamp >= rs[y].1@.timestamp
                }
        }),
{
    let times = times_of(rs);
    let order = newest_first(times);
    let out = wanted_spec(rs, delegates, local, seeded);
    law_newest_first_is_a_sorting(times);
    law_each_trusted_artifact_is_wanted_once(rs, delegates, local, seeded);
    lemma_pick_sorted(rs, order, delegates, local, seeded);
    let (p, q) = choose|p: int, q: int|
        0 <= p <= q < order.len() && rs[(#[trigger] order[p]).index as int].0 == out[i].release_id
            && rs[order[p].index as int].1@.has(out[i].cid) && rs[(
        #[trigger] order[q]).index as int].0 == out[j].release_id
            && rs[order[q].index as int].1@.has(out[j].cid);
    assert(order.contains(order[p]) && order.contains(order[q]));
    assert(p == q || order[p].timestamp >= order[q].timestamp);
    let (x, y) = (order[p].index as int, order[q].index as int);
    assert(rs[x].0 == out[i].release_id && rs[y].0 == out[j].release_id);
}

/// What `wanted` gives. For every release and every artifact of it: where no newer release
/// has the artifact, the creator of the release and the author of the artifact are delegates
/// or the node's own user, neither the author nor a delegate has redacted it, and it is not
/// seeded, it is wanted, under that release. Nothing else is wanted, and nothing twice.
pub proof fn law_wanted_leaves_nothing_out<F: Fn(&Cid) -> bool>(
    releases: Vec<(ReleaseId, Release)>,
    delegates: SortedSet<Did>,
    local: Did,
    is_seeded: F,
    r: Vec<Wanted>,
    i: int,
    j: int,
)
    requires
        call_ensures(wanted::<F>, (&releases, &delegates, &local, is_seeded), r),
        forall|k: int| 0 <= k < releases@.len() ==> (#[trigger] releases@[k]).1@.distinct(),
        releases@.len() <= usize::MAX,
        0 <= i < releases@.len(),
        0 <= j < releases@[i].1@.artifacts.len(),
    ensures
        ({
            let release = releases@[i].1@;
            let (cid, a) = release.artifacts[j];
            let chosen = {
                &&& forall|k: int|
                    0 <= k < releases@.len() && k != i && (#[trigger] releases@[k]).1@.has(cid)
                        ==> releases@[k].1@.timestamp < release.timestamp || (
                    releases@[k].1@.timestamp == release.timestamp && i < k)
                &&& delegates@.contains(release.creator) || release.creator == local
                &&& delegates@.contains(a.author) || a.author == local
                &&& forall|d: Did| #[trigger]
                    a.redactions.contains_key(d) ==> d != a.author && !delegates@.contains(d)
                &&& !is_seeded.ensures((&cid,), true)
            };
            &&& chosen ==> exists|k: int|
                0 <= k < r@.len() && (#[trigger] r@[k]).cid == cid && r@[k].release_id
                    == releases@[i].0 && r@[k].name@ == a.name
            &&& forall|k: int|
                0 <= k < r@.len() ==> !is_seeded.ensures((&(#[trigger] r@[k]).cid,), true)
            &&& forall|k: int, l: int|
                0 <= k < l < r@.len() ==> (#[trigger] r@[k]).cid != (#[trigger] r@[l]).cid
        }),
{
    let rs = releases@;
    let seeded = |c: Cid| is_seeded.ensures((&c,), true);
    let out = wanted_spec(rs, delegates@, local, seeded);
    let release = rs[i].1@;
    let (cid, a) = release.artifacts[j];
    let w = WantedView {
        release_id: rs[i].0,
        cid,
        name: a.name,
        size_hint: if a.metadata.contains_key("sizeBytes"@) {
            json_u64(a.metadata["sizeBytes"@])
        } else {
            None
        },
    };
    assert(r@.map_values(|w: Wanted| w@) == out);
    law_the_newest_release_decides(rs, delegates@, local, seeded, w);
    assert(rs[i].1@.artifacts[j] == (cid, a));
    if out.contains(w) {
        let k = choose|k: int| 0 <= k < out.len() && out[k] == w;
        assert(r@[k]@ == w);
        assert(r@[k].cid == cid);
    }
    law_each_trusted_artifact_is_wanted_once(rs, delegates@, local, seeded);
    assert forall|k: int| 0 <= k < r@.len() implies !is_seeded.ensures(
        (&(#[trigger] r@[k]).cid,),
        true,
    ) by {
        let x = out[k];
        assert(r@[k]@ == x);
        assert(out.contains(x));
        law_the_newest_release_decides(rs, delegates@, local, seeded, x);
        assert(!seeded(x.cid));
    }
    assert forall|k: int, l: int| 0 <= k < l < r@.len() implies (#[trigger] r@[k]).cid != (
    #[trigger] r@[l]).cid by {
        assert(out[k].cid != out[l].cid);
        assert(r@[k]@ == out[k] && r@[l]@ == out[l]);
    }
}

/// Whether an artifact fits goes by the limit alone: without one everything fits; within
/// one an artifact fits exactly where the store stays within the limit with it, or, where
/// its size is not known, has not reached the limit; and what fits into a fuller store fits
/// into a less full one.
pub proof fn law_what_fits_stays_within_the_limit(
    limit: Option<u64>,
    less: u64,
    more: u64,
    size_hint: Option<u64>,
    fits_less: bool,
    fits_more: bool,
)
    requires
        call_ensures(fits, (limit, less, size_hint), fits_less),
        call_ensures(fits, (limit, more, size_hint), fits_more),
        less <= more,
    ensures
        fits_more ==> fits_less,
        limit is None ==> fits_less,
        limit is Some && size_hint is Some && limit->0 < u64::MAX ==> (fits_less <==> less
            + size_hint->0 <= limit->0),
        limit is Some && size_hint is None ==> (fits_less <==> less < limit->0),
{
}

} // verus!
