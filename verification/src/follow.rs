//! Following repositories: seeding trusted artifacts as they are published.

use crate::display::{bytes_shown, human_bytes};
use crate::ids::{Cid, Did, ReleaseId, RepoId};
use crate::location::EndpointId;
use crate::release::{Artifact, ArtifactView, Release};
use crate::retrieval::{
    artifact_listings, artifact_locations, distinct_places, law_every_release_names_places,
    lead_of, leads_of, listings, places, FetchLocation, Lead, Leads, Place,
};
use crate::seqs::{lemma_filter_contains, lemma_filter_empty, lemma_filter_step, lemma_map_contains};
use crate::sorted::{in_order, lemma_finite_in_order, SortedSet};
use crate::store::carrying;
use crate::text::{
    cat, cat3, cat4, cat5, chars_of, contains_text, decimal, decimal_text, has_text, is_space,
    law_a_part_stands_between_two_others, law_decimals_are_read_back, number_in, parse_number,
    text_between, trim, without_outer_space,
};
use crate::watch::{fits, Wanted};
use vstd::prelude::*;

verus! {

/// The type name of the objects that releases are.
pub const TYPENAME: &'static str = "org.radworks.artifact";

/// How many seconds to wait before a lost connection is tried again.
pub const RECONNECT_DELAY_SECS: u64 = 10;

/// What a suffix of a size multiplies by.
pub open spec fn multiplier(c: char) -> Option<u64> {
    if c == 'K' || c == 'k' {
        Some(0x400)
    } else if c == 'M' || c == 'm' {
        Some(0x10_0000)
    } else if c == 'G' || c == 'g' {
        Some(0x4000_0000)
    } else if c == 'T' || c == 't' {
        Some(0x100_0000_0000)
    } else {
        None
    }
}

/// Whether a character is a letter of ASCII.
pub open spec fn is_letter(c: char) -> bool {
    ('a' <= c && c <= 'z') || ('A' <= c && c <= 'Z')
}

/// The number of bytes that a text stands for, or what is said where it stands for none.
pub open spec fn size_in(s: Seq<char>) -> Result<u64, Seq<char>> {
    let t = trim(s);
    let has_suffix = t.len() > 0 && is_letter(t.last());
    if has_suffix && multiplier(t.last()) is None {
        Err("unknown size suffix '"@ + seq![t.last()] + "', expected K, M, G or T"@)
    } else {
        let digits = if has_suffix {
            t.drop_last()
        } else {
            t
        };
        let factor = if has_suffix {
            multiplier(t.last())->0
        } else {
            1
        };
        match number_in(trim(digits)) {
            None => Err("'"@ + t + "' is not a byte size, e.g. 50G"@),
            Some(n) => if n * factor <= u64::MAX {
                Ok((n * factor) as u64)
            } else {
                Err("'"@ + t + "' is too large"@)
            },
        }
    }
}

/// The number of bytes that a text stands for: a count, or one with a suffix `K`, `M`,
/// `G` or `T` for a power of 1024.
pub fn parse_size(s: &str) -> (r: Result<u64, String>)
    ensures
        match r {
            Ok(n) => size_in(s@) == Ok::<u64, Seq<char>>(n),
            Err(e) => size_in(s@) == Err::<u64, Seq<char>>(e@),
        },
{
    let t = without_outer_space(s);
    let chars = chars_of(t.as_str());
    let n: usize = chars.len();
    let mut factor: u64 = 1;
    let mut end: usize = n;
    if n > 0 {
        let c = chars[n - 1];
        let letter = ('a' <= c && c <= 'z') || ('A' <= c && c <= 'Z');
        if letter {
            factor = if c == 'K' || c == 'k' {
                0x400
            } else if c == 'M' || c == 'm' {
                0x10_0000
            } else if c == 'G' || c == 'g' {
                0x4000_0000
            } else if c == 'T' || c == 't' {
                0x100_0000_0000
            } else {
                let mut suffix = String::new();
                suffix.push(c);
                assert(suffix@ =~= seq![c]);
                return Err(
                    cat3(
                        "unknown size suffix '",
                        suffix.as_str(),
                        "', expected K, M, G or T",
                    ),
                );
            };
            end = n - 1;
        }
    }
    let digits = text_between(&chars, 0, end);
    proof {
        assert(chars@.subrange(0, n as int) =~= chars@);
        if end < n {
            assert(digits@ =~= t@.drop_last());
        } else {
            assert(digits@ =~= t@);
        }
    }
    let bare = without_outer_space(digits.as_str());
    match parse_number(bare.as_str()) {
        None => Err(cat3("'", t.as_str(), "' is not a byte size, e.g. 50G")),
        Some(count) => match count.checked_mul(factor) {
            Some(size) => Ok(size),
            None => Err(cat3("'", t.as_str(), "' is too large")),
        },
    }
}

/// Whether a reference belongs to a release.
pub open spec fn is_release_ref(name: Seq<char>) -> bool {
    has_text(name, "/cobs/"@ + TYPENAME@ + "/"@)
}

/// Whether one of the references that changed belongs to a release.
pub fn touches_artifacts(names: &Vec<String>) -> (r: bool)
    ensures
        r == exists|i: int| 0 <= i < names@.len() && is_release_ref((#[trigger] names@[i])@),
{
    let needle = cat3("/cobs/", TYPENAME, "/");
    let mut i: usize = 0;
    while i < names.len()
        invariant
            i <= names@.len(),
            needle@ == "/cobs/"@ + TYPENAME@ + "/"@,
            forall|j: int| 0 <= j < i ==> !is_release_ref((#[trigger] names@[j])@),
        decreases names@.len() - i,
    {
        if contains_text(names[i].as_str(), needle.as_str()) {
            assert(is_release_ref(names@[i as int]@));
            return true;
        }
        i += 1;
    }
    false
}

/// What comes from the node.
pub enum NodeEvent {
    /// References of a repository have changed.
    RefsFetched {
        rid: RepoId,
        names: Vec<String>,
    },
    /// Something else.
    Other,
    /// Nothing came in time.
    TimedOut,
    /// The connection is lost.
    Lost(String),
}

/// What is done about what comes from the node.
pub enum DrainStep {
    /// The next sweep is due.
    Elapsed,
    /// This repository is looked at, if it is seeded.
    Check(RepoId),
    /// Nothing.
    Next,
    /// The connection is made again; this is what is said.
    Lost(String),
}

/// Whether a repository is followed: every one is, unless some were named.
pub open spec fn is_followed(only: Set<RepoId>, rid: RepoId) -> bool {
    only == Set::<RepoId>::empty() || only.contains(rid)
}

/// What is done about what comes from the node. Where the next sweep is due it comes
/// first, so that a busy node cannot keep it from coming.
pub fn drain_step(event: NodeEvent, due: bool, only: &SortedSet<RepoId>) -> (r: DrainStep)
    ensures
        match r {
            DrainStep::Elapsed => due || event is TimedOut,
            DrainStep::Check(rid) => !due && (event matches NodeEvent::RefsFetched {
                rid: of,
                names,
            } && of == rid && is_followed(only@, rid) && exists|i: int|
                0 <= i < names@.len() && is_release_ref((#[trigger] names@[i])@)),
            DrainStep::Next => !due && match event {
                NodeEvent::RefsFetched { rid, names } => !is_followed(only@, rid) || forall|i: int|
                    0 <= i < names@.len() ==> !is_release_ref((#[trigger] names@[i])@),
                NodeEvent::Other => true,
                _ => false,
            },
            DrainStep::Lost(said) => !due && (event matches NodeEvent::Lost(e) && said@
                == "warning: lost the radicle node's event stream: "@ + e@),
        },
{
    if due {
        return DrainStep::Elapsed;
    }
    match event {
        NodeEvent::RefsFetched { rid, names } => {
            if !touches_artifacts(&names) {
                return DrainStep::Next;
            }
            if !only.is_empty() && !only.contains(&rid) {
                return DrainStep::Next;
            }
            DrainStep::Check(rid)
        },
        NodeEvent::Other => DrainStep::Next,
        NodeEvent::TimedOut => DrainStep::Elapsed,
        NodeEvent::Lost(e) => DrainStep::Lost(
            cat("warning: lost the radicle node's event stream: ", e.as_str()),
        ),
    }
}

/// The repositories that a sweep looks at: those that were named, or every one that is
/// seeded. `stored` are the repositories there are, each beside whether it is seeded.
pub fn targets(only: &SortedSet<RepoId>, stored: &Vec<(RepoId, bool)>) -> (r: Vec<RepoId>)
    ensures
        r@ == (if only@ == Set::<RepoId>::empty() {
            stored@.filter(|e: (RepoId, bool)| e.1).map_values(|e: (RepoId, bool)| e.0)
        } else {
            in_order::<RepoId>(only@)
        }),
{
    let mut out: Vec<RepoId> = Vec::new();
    if !only.is_empty() {
        let members = only.members();
        let ghost all = in_order::<RepoId>(only@);
        let mut i: usize = 0;
        while i < members.len()
            invariant
                i <= members@.len(),
                members@.map_values(|k: &RepoId| k@) == all,
                out@ == all.take(i as int),
            decreases members@.len() - i,
        {
            assert(members@.map_values(|k: &RepoId| k@)[i as int] == *members@[i as int]);
            out.push(*members[i]);
            i += 1;
            assert(out@ =~= all.take(i as int));
        }
        assert(members@.map_values(|k: &RepoId| k@).len() == members@.len());
        assert(out@ =~= all);
        return out;
    }
    let ghost keep = |e: (RepoId, bool)| e.1;
    let ghost name = |e: (RepoId, bool)| e.0;
    proof {
        lemma_filter_empty(stored@, keep);
        assert(stored@.take(0).filter(keep).map_values(name) =~= Seq::<RepoId>::empty());
    }
    let mut i: usize = 0;
    while i < stored.len()
        invariant
            i <= stored@.len(),
            keep == (|e: (RepoId, bool)| e.1),
            name == (|e: (RepoId, bool)| e.0),
            out@ == stored@.take(i as int).filter(keep).map_values(name),
        decreases stored@.len() - i,
    {
        let ghost kept = stored@.take(i as int).filter(keep);
        proof {
            lemma_filter_step(stored@, i as int, keep);
        }
        if stored[i].1 {
            let ghost before = out@;
            out.push(stored[i].0);
            assert(kept.push(stored@[i as int]).map_values(name) =~= kept.map_values(name).push(
                stored@[i as int].0,
            ));
        }
        i += 1;
    }
    assert(stored@.take(i as int) =~= stored@);
    out
}

/// What is said where a repository was named that the node does not seed: its objects
/// would never arrive.
pub fn not_seeded(rid: &RepoId) -> (r: String)
    ensures
        r@ == rid.text() + " is not seeded by your radicle node\n  hint: seed it first with `rad seed "@
            + rid.text() + "`"@,
{
    let shown = rid.to_text();
    cat4(
        shown.as_str(),
        " is not seeded by your radicle node\n  hint: seed it first with `rad seed ",
        shown.as_str(),
        "`",
    )
}

/// What is said at the start.
pub fn opening(budget: Option<u64>) -> (r: String)
    ensures
        r@ == (match budget {
            Some(limit) => "Watching for trusted artifacts (budget "@ + bytes_shown(limit as nat)
                + ")"@,
            None => "Watching for trusted artifacts"@,
        }),
{
    match budget {
        Some(limit) => {
            let shown = human_bytes(limit);
            cat3("Watching for trusted artifacts (budget ", shown.as_str(), ")")
        },
        None => "Watching for trusted artifacts".to_owned(),
    }
}

/// How many seconds lie between sweeps: at least one.
pub fn sweep_interval(secs: u64) -> (r: u64)
    ensures
        r == (if secs == 0 {
            1
        } else {
            secs
        }),
{
    if secs == 0 {
        1
    } else {
        secs
    }
}

/// How many milliseconds to wait for the node before the next sweep: at least a second.
pub fn until_sweep(now_ms: u64, next_ms: u64) -> (r: u64)
    ensures
        r == (if next_ms > now_ms + 1000 {
            (next_ms - now_ms) as u64
        } else {
            1000
        }),
{
    let left: u64 = if next_ms > now_ms { next_ms - now_ms } else { 0 };
    if left > 1000 {
        left
    } else {
        1000
    }
}

/// What has happened to one that watches.
#[derive(Clone, Copy, PartialEq, Eq, Debug, Structural)]
pub enum WatchEvent {
    /// It began.
    Started,
    /// It has swept.
    Swept,
    /// It has listened to the node for a while; `lost` where the node is not there any more.
    Heard {
        lost: bool,
    },
    /// It has waited for the node to come back.
    Rested,
}

/// What one that watches does next.
#[derive(Clone, Copy, PartialEq, Eq, Debug, Structural)]
pub enum WatchStep {
    /// It looks at every repository.
    Sweep,
    /// It listens to the node for so many milliseconds.
    Listen(u64),
    /// It waits for so many seconds before it tries the node again.
    Rest(u64),
}

/// When the next sweep is due, after an event.
pub open spec fn next_due(event: WatchEvent, now_ms: u64, due_ms: u64, every_secs: u64) -> u64 {
    if event == WatchEvent::Swept {
        let next = now_ms + 1000 * every_secs;
        if next > u64::MAX {
            u64::MAX
        } else {
            next as u64
        }
    } else {
        due_ms
    }
}

/// What one that watches does after an event, and when the next sweep is due. Only a sweep
/// puts the next one off, so a node that is away does not bring more of them; after a sweep
/// the node is listened to first.
pub fn watch_step(event: WatchEvent, now_ms: u64, due_ms: u64, every_secs: u64) -> (r: (
    u64,
    WatchStep,
))
    ensures
        r.0 == next_due(event, now_ms, due_ms, every_secs),
        match r.1 {
            WatchStep::Rest(secs) => event == (WatchEvent::Heard { lost: true }) && secs
                == RECONNECT_DELAY_SECS,
            WatchStep::Sweep => event != (WatchEvent::Heard { lost: true }) && event
                != WatchEvent::Swept && now_ms >= due_ms,
            WatchStep::Listen(ms) => {
                &&& event == WatchEvent::Swept || (event != (WatchEvent::Heard { lost: true })
                    && now_ms < due_ms)
                &&& ms == (if r.0 > now_ms + 1000 {
                    (r.0 - now_ms) as u64
                } else {
                    1000
                })
            },
        },
{
    match event {
        WatchEvent::Heard { lost: true } => (due_ms, WatchStep::Rest(RECONNECT_DELAY_SECS)),
        WatchEvent::Swept => {
            let every: u64 = match every_secs.checked_mul(1000) {
                Some(ms) => ms,
                None => u64::MAX,
            };
            let due: u64 = now_ms.saturating_add(every);
            (due, WatchStep::Listen(until_sweep(now_ms, due)))
        },
        _ => {
            if now_ms >= due_ms {
                (due_ms, WatchStep::Sweep)
            } else {
                (due_ms, WatchStep::Listen(until_sweep(now_ms, due_ms)))
            }
        },
    }
}

/// What is said where the store is full: nothing where it is not, or has no limit.
pub fn hold_back(rid: &RepoId, wanted: usize, budget: Option<u64>, seeded_bytes: u64) -> (r: Option<
    String,
>)
    ensures
        match r {
            Some(said) => budget is Some && seeded_bytes >= budget->0 && said@ == rid.text()
                + ": holding back "@ + decimal_text(wanted as nat) + " artifact(s), "@
                + bytes_shown(seeded_bytes as nat) + " already seeded"@,
            None => budget is None || seeded_bytes < budget->0,
        },
{
    match budget {
        Some(limit) => {
            if seeded_bytes >= limit {
                let shown = rid.to_text();
                let n = decimal(wanted as u64);
                let bytes = human_bytes(seeded_bytes);
                let head = cat4(shown.as_str(), ": holding back ", n.as_str(), " artifact(s), ");
                Some(cat3(head.as_str(), bytes.as_str(), " already seeded"))
            } else {
                None
            }
        },
        None => None,
    }
}

/// What is done about an artifact that is wanted.
pub enum SeedStep {
    /// Nothing; this is what is said.
    Skip(String),
    /// It is fetched from one of these.
    Fetch(Vec<FetchLocation>),
    /// Nothing: a location leads to the endpoint of this user, who has none.
    NoEndpoint(Did),
}

/// How an artifact is named.
pub open spec fn artifact_text(name: Seq<char>, cid: Cid) -> Seq<char> {
    name + " ("@ + cid.text() + ")"@
}

/// The locations, without one's own endpoint: nothing can be fetched from there.
pub open spec fn elsewhere(all: Seq<Place>, own: EndpointId) -> Seq<Place> {
    all.filter(|p: Place| p != Place::Peer(own))
}

fn others(all: Vec<FetchLocation>, own: &EndpointId) -> (r: Vec<FetchLocation>)
    ensures
        places(r@) == elsewhere(places(all@), *own),
{
    let ghost views = places(all@);
    let ghost keep = |p: Place| p != Place::Peer(*own);
    let mut out: Vec<FetchLocation> = Vec::new();
    proof {
        lemma_filter_empty(views, keep);
        assert(places(out@) =~= Seq::<Place>::empty());
    }
    let mut i: usize = 0;
    while i < all.len()
        invariant
            i <= all@.len(),
            views == places(all@),
            keep == (|p: Place| p != Place::Peer(*own)),
            places(out@) == views.take(i as int).filter(keep),
        decreases all@.len() - i,
    {
        let ghost before = places(out@);
        proof {
            lemma_filter_step(views, i as int, keep);
            assert(views[i as int] == all@[i as int]@);
        }
        match &all[i] {
            FetchLocation::Url(url) => {
                out.push(FetchLocation::Url(url.clone()));
                assert(places(out@) =~= before.push(views[i as int]));
            },
            FetchLocation::Iroh(id) => {
                if *id != *own {
                    out.push(FetchLocation::Iroh(*id));
                    assert(places(out@) =~= before.push(views[i as int]));
                }
            },
        }
        i += 1;
    }
    assert(views.take(i as int) =~= views);
    out
}

/// The artifacts `cid` of releases.
pub open spec fn artifacts_of(rs: Seq<(ReleaseId, Release)>, cid: Cid) -> Seq<(ReleaseId, Release)> {
    rs.filter(|e: (ReleaseId, Release)| e.1@.has(cid))
}

/// Where the artifact `cid` can be had, in all releases that have it.
pub fn places_of(releases: &Vec<(ReleaseId, Release)>, cid: &Cid) -> (r: Leads)
    ensures
        leads_of(r, artifact_listings(artifacts_of(releases@, *cid), *cid)),
{
    let ghost keep = |e: (ReleaseId, Release)| e.1@.has(*cid);
    let mut artifacts: Vec<&Artifact> = Vec::new();
    proof {
        lemma_filter_empty(releases@, keep);
        assert(listings(artifacts@) =~= Seq::empty());
    }
    let mut i: usize = 0;
    while i < releases.len()
        invariant
            i <= releases@.len(),
            keep == (|e: (ReleaseId, Release)| e.1@.has(*cid)),
            listings(artifacts@) == artifact_listings(
                releases@.take(i as int).filter(keep),
                *cid,
            ),
        decreases releases@.len() - i,
    {
        proof {
            lemma_filter_step(releases@, i as int, keep);
        }
        let ghost kept = releases@.take(i as int).filter(keep);
        match releases[i].1.artifact(cid) {
            Some(artifact) => {
                let ghost before = artifacts@;
                artifacts.push(artifact);
                assert(artifacts@.drop_last() =~= before);
                assert(kept.push(releases@[i as int]).drop_last() =~= kept);
            },
            None => {},
        }
        i += 1;
    }
    assert(releases@.take(i as int) =~= releases@);
    artifact_locations(&artifacts)
}

/// Decides what is done about an artifact that is wanted. `seeded_bytes` is what the store
/// holds, and `leads` is where the artifact can be had.
pub fn seed_step(
    want: &Wanted,
    leads: Leads,
    own: &EndpointId,
    budget: Option<u64>,
    seeded_bytes: u64,
    dry_run: bool,
) -> (r: SeedStep)
    ensures
        ({
            let over = match (budget, want.size_hint) {
                (None, _) => false,
                (Some(limit), Some(size)) => limit != u64::MAX && seeded_bytes + size > limit,
                (Some(limit), None) => seeded_bytes >= limit,
            };
            let left = elsewhere(places(leads.locations@), *own);
            let named = artifact_text(want.name@, want.cid);
            match r {
                SeedStep::Skip(said) => {
                    if over {
                        said@ == "skipped "@ + named + ": over the budget, "@ + bytes_shown(
                            seeded_bytes as nat,
                        ) + " already seeded"@
                    } else {
                        &&& leads.failure is None
                        &&& if left.len() == 0 {
                            said@ == "skipped "@ + named + ": no locations to fetch from"@
                        } else {
                            dry_run && said@ == "would seed "@ + named + " from "@ + decimal_text(
                                left.len(),
                            ) + " location(s)"@
                        }
                    }
                },
                SeedStep::Fetch(locations) => {
                    &&& !over
                    &&& leads.failure is None
                    &&& !dry_run
                    &&& left.len() > 0
                    &&& places(locations@) == left
                },
                SeedStep::NoEndpoint(did) => !over && leads.failure == Some(did),
            }
        }),
{
    let cid = want.cid.to_text();
    let named = cat4(want.name.as_str(), " (", cid.as_str(), ")");
    assert(named@ =~= artifact_text(want.name@, want.cid));
    if budget.is_some() && !fits(budget, seeded_bytes, want.size_hint) {
        let bytes = human_bytes(seeded_bytes);
        return SeedStep::Skip(
            cat5(
                "skipped ",
                named.as_str(),
                ": over the budget, ",
                bytes.as_str(),
                " already seeded",
            ),
        );
    }
    match leads.failure {
        Some(did) => {
            return SeedStep::NoEndpoint(did);
        },
        None => {},
    }
    let left = others(leads.locations, own);
    assert(places(left@).len() == left@.len());
    if left.len() == 0 {
        return SeedStep::Skip(cat3("skipped ", named.as_str(), ": no locations to fetch from"));
    }
    if dry_run {
        let n = decimal(left.len() as u64);
        return SeedStep::Skip(
            cat5("would seed ", named.as_str(), " from ", n.as_str(), " location(s)"),
        );
    }
    SeedStep::Fetch(left)
}

/// What was said already. What stays the same from sweep to sweep is said once.
pub struct Said {
    messages: SortedSet<String>,
}

impl Said {
    /// The messages.
    pub closed spec fn view(self) -> Set<Seq<char>> {
        self.messages@
    }

    /// Nothing was said.
    pub fn new() -> (r: Said)
        ensures
            r@ == Set::<Seq<char>>::empty(),
    {
        Said { messages: SortedSet::new() }
    }

    /// Whether a message is to be said: where it was not said before.
    pub fn say_once(&mut self, message: &str) -> (r: bool)
        ensures
            r == !old(self)@.contains(message@),
            final(self)@ == old(self)@.insert(message@),
    {
        let owned = message.to_owned();
        if self.messages.contains(&owned) {
            assert(self@ =~= old(self)@.insert(message@));
            false
        } else {
            self.messages.insert(owned);
            true
        }
    }
}

/// The repositories whose changes are not announced yet. An artifact that is seeded is not
/// looked at again, so a repository stays here until it is announced.
pub struct Announcements {
    pending: SortedSet<RepoId>,
}

impl Announcements {
    /// The repositories.
    pub closed spec fn view(self) -> Set<RepoId> {
        self.pending@
    }

    /// None.
    pub fn new() -> (r: Announcements)
        ensures
            r@ == Set::<RepoId>::empty(),
    {
        Announcements { pending: SortedSet::new() }
    }

    /// Notes that a repository was looked at: where something was written, it is to be
    /// announced, unless the user does not want that.
    pub fn note(&mut self, rid: RepoId, wrote: bool, no_announce: bool)
        ensures
            final(self)@ == (if wrote && !no_announce {
                old(self)@.insert(rid)
            } else {
                old(self)@
            }),
    {
        if wrote && !no_announce {
            self.pending.insert(rid);
        }
    }

    /// The repositories to announce, in order.
    pub fn due(&self) -> (r: Vec<RepoId>)
        ensures
            r@ == in_order::<RepoId>(self@),
    {
        let members = self.pending.members();
        let ghost all = in_order::<RepoId>(self@);
        let mut out: Vec<RepoId> = Vec::new();
        let mut i: usize = 0;
        while i < members.len()
            invariant
                i <= members@.len(),
                members@.map_values(|k: &RepoId| k@) == all,
                out@ == all.take(i as int),
            decreases members@.len() - i,
        {
            assert(members@.map_values(|k: &RepoId| k@)[i as int] == *members@[i as int]);
            out.push(*members[i]);
            i += 1;
            assert(out@ =~= all.take(i as int));
        }
        assert(members@.map_values(|k: &RepoId| k@).len() == members@.len());
        assert(out@ =~= all);
        out
    }

    /// Takes what came of an announcement. Where it failed, the repository stays, and
    /// this is what is said.
    pub fn settle(&mut self, rid: RepoId, outcome: Result<(), String>) -> (r: Option<String>)
        ensures
            match outcome {
                Ok(()) => r is None && final(self)@ == old(self)@.remove(rid),
                Err(e) => r is Some && r->0@ == "warning: "@ + rid.text()
                    + ": cannot announce yet, will retry: "@ + e@ && final(self)@ == old(self)@,
            },
    {
        match outcome {
            Ok(()) => {
                self.pending.remove(&rid);
                None
            },
            Err(e) => {
                let shown = rid.to_text();
                Some(
                    cat4(
                        "warning: ",
                        shown.as_str(),
                        ": cannot announce yet, will retry: ",
                        e.as_str(),
                    ),
                )
            },
        }
    }
}

/// An artifact is fetched from every place but one's own endpoint.
pub proof fn law_only_the_own_endpoint_is_left_out(all: Seq<Place>, own: EndpointId, p: Place)
    ensures
        elsewhere(all, own).contains(p) <==> all.contains(p) && p != Place::Peer(own),
{
    lemma_filter_contains(all, |p: Place| p != Place::Peer(own));
}

/// A repository is followed where it was named, and every one is where none was.
pub proof fn law_every_repository_is_followed_unless_some_are_named(only: Set<RepoId>, rid: RepoId)
    ensures
        is_followed(only, rid) <==> only.contains(rid) || forall|other: RepoId|
            !#[trigger] only.contains(other),
{
    if forall|other: RepoId| !#[trigger] only.contains(other) {
        assert(only =~= Set::<RepoId>::empty());
    }
}

/// Only a sweep puts off the next one, by the interval: whatever else happens, and however
/// often, the next sweep stays due when it was.
pub proof fn law_only_a_sweep_puts_off_the_next(
    event: WatchEvent,
    now_ms: u64,
    due_ms: u64,
    every_secs: u64,
)
    ensures
        event != WatchEvent::Swept ==> next_due(event, now_ms, due_ms, every_secs) == due_ms,
        event == WatchEvent::Swept && now_ms + 1000 * every_secs <= u64::MAX ==> next_due(
            event,
            now_ms,
            due_ms,
            every_secs,
        ) - now_ms == 1000 * every_secs,
        event == WatchEvent::Swept ==> next_due(event, now_ms, due_ms, every_secs) >= now_ms,
{
}

/// A watching node looks for an artifact wherever a release says that it is: a place is
/// among those that it finds if and only if some release of the list has, in its artifact
/// of that CID, some user's URL that leads there; and it finds it once.
pub proof fn law_every_release_of_the_list_names_places(
    rs: Seq<(ReleaseId, Release)>,
    cid: Cid,
    place: Place,
)
    requires
        forall|i: int| 0 <= i < rs.len() ==> (#[trigger] rs[i]).1@.distinct(),
    ensures
        distinct_places(artifact_listings(artifacts_of(rs, cid), cid)).no_duplicates(),
        distinct_places(artifact_listings(artifacts_of(rs, cid), cid)).contains(place) <==> exists|
            id: ReleaseId,
            r: Release,
            a: ArtifactView,
            did: Did,
            url: Seq<char>,
        |
            #![trigger rs.contains((id, r)), r@.artifacts.contains((cid, a)), a.locations[did].contains(url)]
            rs.contains((id, r)) && r@.artifacts.contains((cid, a)) && a.locations.contains_key(did)
                && a.locations[did].contains(url) && lead_of((did, url)) == Lead::To(place),
{
    let items = rs.map_values(|e: (ReleaseId, Release)| Ok::<(ReleaseId, Release), String>(e));
    lemma_as_loaded(rs, cid);
    assert forall|i: int| 0 <= i < items.len() && (
    #[trigger] items[i]) is Ok implies items[i]->Ok_0.1@.distinct() by {
        assert(rs[i].1@.distinct());
    }
    law_every_release_names_places(items, cid, place);
    assert forall|id: ReleaseId, r: Release| #[trigger] rs.contains((id, r)) implies items.contains(
        Ok((id, r)),
    ) by {
        let i = choose|i: int| 0 <= i < rs.len() && rs[i] == (id, r);
        assert(items[i] == Ok::<(ReleaseId, Release), String>((id, r)));
    }
    assert forall|id: ReleaseId, r: Release| #[trigger]
        items.contains(Ok((id, r))) implies rs.contains((id, r)) by {
        let i = choose|i: int|
            0 <= i < items.len() && items[i] == Ok::<(ReleaseId, Release), String>((id, r));
        assert(rs[i] == (id, r));
    }
}

/// Releases at hand are searched as a repository is that could be read throughout.
proof fn lemma_as_loaded(rs: Seq<(ReleaseId, Release)>, cid: Cid)
    ensures
        artifacts_of(rs, cid) == carrying(
            rs.map_values(|e: (ReleaseId, Release)| Ok::<(ReleaseId, Release), String>(e)),
            cid,
        ),
    decreases rs.len(),
{
    reveal(Seq::filter);
    let f = |e: (ReleaseId, Release)| Ok::<(ReleaseId, Release), String>(e);
    if rs.len() > 0 {
        lemma_as_loaded(rs.drop_last(), cid);
        assert(rs.map_values(f).drop_last() =~= rs.drop_last().map_values(f));
    }
}

/// A text without space at its ends is its own trimmed form.
proof fn lemma_trim_plain(t: Seq<char>)
    requires
        t.len() > 0,
        !is_space(t[0]),
        !is_space(t.last()),
    ensures
        trim(t) == t,
{
}

/// A size is a number of bytes, or of units of 1024 to some power, by the letter behind it;
/// small and capital letters mean the same. A size that does not fit into 64 bits is
/// refused, and so is any other letter.
pub proof fn law_a_suffix_multiplies(n: nat, c: char)
    requires
        n <= u64::MAX,
    ensures
        size_in(decimal_text(n)) == Ok::<u64, Seq<char>>(n as u64),
        (c == 'K' || c == 'k') && n * 1024 <= u64::MAX ==> size_in(decimal_text(n).push(c))
            == Ok::<u64, Seq<char>>((n * 1024) as u64),
        (c == 'M' || c == 'm') && n * 1048576 <= u64::MAX ==> size_in(decimal_text(n).push(c))
            == Ok::<u64, Seq<char>>((n * 1048576) as u64),
        (c == 'G' || c == 'g') && n * 1073741824 <= u64::MAX ==> size_in(decimal_text(n).push(c))
            == Ok::<u64, Seq<char>>((n * 1073741824) as u64),
        (c == 'T' || c == 't') && n * 1099511627776 <= u64::MAX ==> size_in(
            decimal_text(n).push(c),
        ) == Ok::<u64, Seq<char>>((n * 1099511627776) as u64),
        c == 'T' && n * 1099511627776 > u64::MAX ==> size_in(decimal_text(n).push(c)) is Err,
        is_letter(c) && c != 'K' && c != 'k' && c != 'M' && c != 'm' && c != 'G' && c != 'g' && c
            != 'T' && c != 't' ==> size_in(decimal_text(n).push(c)) is Err,
{
    let d = decimal_text(n);
    law_decimals_are_read_back(n);
    assert('0' <= d[0] <= '9');
    assert('0' <= d[d.len() - 1] <= '9');
    lemma_trim_plain(d);
    if is_letter(c) {
        let t = d.push(c);
        assert(t[0] == d[0]);
        assert(!is_space(c));
        lemma_trim_plain(t);
        assert(t.last() == c);
        assert(t.drop_last() =~= d);
    }
}

/// A reference belongs to a release exactly where its name has the path of the type of
/// releases in it.
pub proof fn law_references_of_releases_are_recognized(name: Seq<char>)
    ensures
        is_release_ref(name) <==> exists|a: Seq<char>, b: Seq<char>| #[trigger]
            (a + "/cobs/org.radworks.artifact/"@ + b) == name,
{
    reveal_strlit("/cobs/");
    reveal_strlit("org.radworks.artifact");
    reveal_strlit("/");
    reveal_strlit("/cobs/org.radworks.artifact/");
    assert("/cobs/"@ + "org.radworks.artifact"@ + "/"@ =~= "/cobs/org.radworks.artifact/"@);
    law_a_part_stands_between_two_others(name, "/cobs/org.radworks.artifact/"@);
}

/// `places_of` finds every place to which some user's URL leads in the artifact of that CID
/// of some release of the list, each once, unless a URL leads to the endpoint of a user who
/// has none.
pub proof fn law_places_of_searches_every_release(
    releases: Vec<(ReleaseId, Release)>,
    cid: Cid,
    r: Leads,
    place: Place,
)
    requires
        call_ensures(places_of, (&releases, &cid), r),
        forall|i: int| 0 <= i < releases@.len() ==> (#[trigger] releases@[i]).1@.distinct(),
        r.failure is None,
    ensures
        places(r.locations@).no_duplicates(),
        places(r.locations@).contains(place) <==> exists|
            id: ReleaseId,
            release: Release,
            a: ArtifactView,
            did: Did,
            url: Seq<char>,
        |
            #![trigger releases@.contains((id, release)), release@.artifacts.contains((cid, a)), a.locations[did].contains(url)]
            releases@.contains((id, release)) && release@.artifacts.contains((cid, a))
                && a.locations.contains_key(did) && a.locations[did].contains(url) && lead_of(
                (did, url),
            ) == Lead::To(place),
{
    law_every_release_of_the_list_names_places(releases@, cid, place);
}

/// `targets` looks at the repositories that were named, or at every one that is seeded where
/// none was.
pub proof fn law_a_sweep_looks_at_every_seeded_repository(
    only: SortedSet<RepoId>,
    stored: Vec<(RepoId, bool)>,
    r: Vec<RepoId>,
    rid: RepoId,
)
    requires
        call_ensures(targets, (&only, &stored), r),
        only@.finite(),
    ensures
        (forall|x: RepoId| !#[trigger] only@.contains(x)) ==> (r@.contains(rid)
            <==> stored@.contains((rid, true))),
        (exists|x: RepoId| #[trigger] only@.contains(x)) ==> (r@.contains(rid) <==> only@.contains(
            rid,
        )),
{
    if forall|x: RepoId| !#[trigger] only@.contains(x) {
        assert(only@ =~= Set::<RepoId>::empty());
        let kept = stored@.filter(|e: (RepoId, bool)| e.1);
        let f = |e: (RepoId, bool)| e.0;
        lemma_filter_contains(stored@, |e: (RepoId, bool)| e.1);
        lemma_map_contains(kept, f);
        if r@.contains(rid) {
            let e = choose|e: (RepoId, bool)| #[trigger] kept.contains(e) && f(e) == rid;
            assert(e == (rid, true));
        }
        if stored@.contains((rid, true)) {
            assert(kept.contains((rid, true)));
            assert(f((rid, true)) == rid);
        }
    } else {
        let x = choose|x: RepoId| #[trigger] only@.contains(x);
        assert(only@ != Set::<RepoId>::empty());
        lemma_finite_in_order::<RepoId>(only@);
    }
}

/// `drain_step` lets a sweep that is due come first, whatever the node says; and a repository
/// is looked at exactly where no sweep is due, it is followed, and a reference of a release
/// of it has changed.
pub proof fn law_a_due_sweep_comes_first(
    event: NodeEvent,
    due: bool,
    only: SortedSet<RepoId>,
    r: DrainStep,
    rid: RepoId,
)
    requires
        call_ensures(drain_step, (event, due, &only), r),
    ensures
        due ==> r == DrainStep::Elapsed,
        r == DrainStep::Check(rid) <==> !due && (event matches NodeEvent::RefsFetched {
            rid: of,
            names,
        } && of == rid && (only@.contains(rid) || forall|x: RepoId| !#[trigger] only@.contains(x))
            && exists|i: int|
            0 <= i < names@.len() && is_release_ref((#[trigger] names@[i])@)),
        r is Lost <==> !due && event is Lost,
{
    if let NodeEvent::RefsFetched { rid: of, names } = event {
        law_every_repository_is_followed_unless_some_are_named(only@, of);
    }
}

/// `watch_step` never sweeps right after a sweep, never while the node is away, and always
/// once the next sweep is due otherwise; and it never listens for less than a second.
pub proof fn law_watching_sweeps_when_due(
    event: WatchEvent,
    now_ms: u64,
    due_ms: u64,
    every_secs: u64,
    r: (u64, WatchStep),
)
    requires
        call_ensures(watch_step, (event, now_ms, due_ms, every_secs), r),
    ensures
        r.1 is Sweep <==> event != WatchEvent::Swept && event != (WatchEvent::Heard { lost: true })
            && now_ms >= due_ms,
        r.1 is Rest <==> event == (WatchEvent::Heard { lost: true }),
        r.1 matches WatchStep::Listen(ms) ==> ms >= 1000,
        event != WatchEvent::Swept ==> r.0 == due_ms,
        event == WatchEvent::Swept ==> r.0 >= now_ms,
{
    law_only_a_sweep_puts_off_the_next(event, now_ms, due_ms, every_secs);
}

/// `seed_step` fetches an artifact only within the budget, never where nothing but one's own
/// endpoint has it, and never in a dry run; and it leaves no place out but that one.
pub proof fn law_seeding_stays_within_the_budget(
    want: Wanted,
    leads: Leads,
    own: EndpointId,
    budget: Option<u64>,
    seeded_bytes: u64,
    dry_run: bool,
    r: SeedStep,
    p: Place,
)
    requires
        call_ensures(seed_step, (&want, leads, &own, budget, seeded_bytes, dry_run), r),
    ensures
        r matches SeedStep::Fetch(locations) ==> {
            &&& !dry_run
            &&& leads.failure is None
            &&& budget is Some && want.size_hint is Some && budget->0 < u64::MAX ==> seeded_bytes
                + want.size_hint->0 <= budget->0
            &&& budget is Some && want.size_hint is None ==> seeded_bytes < budget->0
            &&& places(locations@).contains(p) <==> places(leads.locations@).contains(p) && p
                != Place::Peer(own)
        },
        budget is None && leads.failure is None && !dry_run && places(leads.locations@).contains(p)
            && p != Place::Peer(own) ==> r is Fetch,
{
    law_only_the_own_endpoint_is_left_out(places(leads.locations@), own, p);
}

/// An artifact is held back exactly where there is a limit and the store has reached it; the
/// wait for the node is at least a second and ends with the next sweep otherwise; and sweeps
/// are at least a second apart.
pub proof fn law_waits_and_limits(
    rid: RepoId,
    count: usize,
    budget: Option<u64>,
    seeded_bytes: u64,
    held: Option<String>,
    now_ms: u64,
    next_ms: u64,
    wait: u64,
    secs: u64,
    interval: u64,
)
    requires
        call_ensures(hold_back, (&rid, count, budget, seeded_bytes), held),
        call_ensures(until_sweep, (now_ms, next_ms), wait),
        call_ensures(sweep_interval, (secs,), interval),
    ensures
        held is Some <==> budget is Some && seeded_bytes >= budget->0,
        wait >= 1000,
        next_ms > now_ms + 1000 ==> now_ms + wait == next_ms,
        interval >= 1,
        secs >= 1 ==> interval == secs,
{
}

/// `parse_size` reads what a number of bytes is written as, and multiplies by the letter
/// behind it.
pub proof fn law_sizes_are_read(s: &str, n: nat, r: Result<u64, String>)
    requires
        call_ensures(parse_size, (s,), r),
        n <= u64::MAX,
    ensures
        s@ == decimal_text(n) ==> r == Ok::<u64, String>(n as u64),
        s@ == decimal_text(n).push('K') && n * 1024 <= u64::MAX ==> r == Ok::<u64, String>(
            (n * 1024) as u64,
        ),
        s@ == decimal_text(n).push('G') && n * 1073741824 <= u64::MAX ==> r == Ok::<u64, String>(
            (n * 1073741824) as u64,
        ),
        s@ == decimal_text(n).push('T') && n * 1099511627776 > u64::MAX ==> r is Err,
{
    law_a_suffix_multiplies(n, 'K');
    law_a_suffix_multiplies(n, 'G');
    law_a_suffix_multiplies(n, 'T');
}

} // verus!
