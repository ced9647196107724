//! Controlling the node that seeds artifacts.

use crate::display::{bytes_shown, human_bytes};
use crate::ids::{Cid, Did, ReleaseId, RepoId};
use crate::laws::law_removing_removes;
use crate::location::{scheme_of, EndpointId, Url, URL_SCHEME};
use crate::order::{is_latest, latest, law_the_latest_is_one};
use crate::register::operations;
use crate::release::{finite_locations, steps, urls_of, Action, ArtifactView, Release, ReleaseView};
use crate::retrieval::release_times;
use crate::seqs::{lemma_filter_contains, lemma_filter_empty, lemma_filter_step, lemma_map_contains};
use crate::sorted::{in_order, lemma_finite_in_order, SortedSet};
use crate::store::{
    all_read, carrying, first_fault, law_search_finds_every_carrier, Loaded, ReleaseMut, Releases,
};
use crate::text::{
    cat, cat3, cat4, cat5, decimal, decimal_text, lines_of, split_lines, texts,
};
use vstd::prelude::*;

verus! {

/// What the node is asked to do.
pub enum Subcommand {
    /// To start, detached unless asked otherwise.
    Start(Start),
    /// To shut down.
    Stop,
    /// To report its state.
    Status(StatusArgs),
    /// To list what it seeds for the repository.
    List(ListArgs),
    /// To seed an artifact that is registered.
    Seed(Seed),
    /// To stop seeding an artifact.
    Unseed(Unseed),
    /// To show its log.
    Logs(Logs),
}

/// How the node is started.
pub struct Start {
    /// Attached to the terminal.
    pub foreground: bool,
    /// Taking over a control socket that nobody answers.
    pub force: bool,
}

/// How the state is reported.
pub struct StatusArgs {
    /// As JSON.
    pub json: bool,
}

/// How the list is shown.
pub struct ListArgs {
    /// As JSON.
    pub json: bool,
}

/// What is seeded.
pub struct Seed {
    /// The path of the content.
    pub path: String,
    /// The release that the location goes to; the latest that has the artifact where
    /// none is named.
    pub release: Option<String>,
    /// Whether the content stays where it is.
    pub reference: bool,
    /// Whether no location is added.
    pub no_location: bool,
}

/// What is no longer seeded.
pub struct Unseed {
    pub cid: Cid,
    /// The release that it is about.
    pub release: Option<String>,
}

/// What is shown of the log.
pub struct Logs {
    /// Whether new lines follow.
    pub follow: bool,
    /// How many lines are shown.
    pub lines: usize,
}

/// What kept a call to the node from succeeding.
pub enum CallFailure {
    /// Nobody answers the control socket.
    Refused,
    /// There is no control socket.
    NoSocket,
    /// Something else.
    Other(String),
}

/// Why a command to the node failed.
pub enum NodeError {
    /// The command cannot be done, for this reason.
    Usage(String),
    /// No node is running.
    NotRunning,
    /// The node did not answer in time.
    StartupTimeout {
        waited: String,
        log: String,
    },
    /// A call failed.
    Client(String),
    /// Reading or writing failed.
    Io(String),
    /// No release has the artifact.
    ArtifactNotFound(Cid),
    /// The location could not be written.
    Store {
        id: ReleaseId,
        err: String,
    },
    /// The releases could not be read.
    Find(String),
    /// The outcome could not be written out.
    Json(String),
}

impl NodeError {
    /// The error as text.
    pub open spec fn text(self) -> Seq<char> {
        match self {
            NodeError::Usage(s) => s@,
            NodeError::NotRunning =>
                "no rad-artifact node is running on this host\n  hint: start one with `rad-artifact node start`"@,
            NodeError::StartupTimeout { waited, log } => "node did not come online within "@
                + waited@ + "; check the log file at "@ + log@,
            NodeError::Client(s) => "node call failed: "@ + s@,
            NodeError::Io(_) => "I/O error"@,
            NodeError::ArtifactNotFound(cid) => "artifact with CID "@ + cid.text()
                + " not found in any release"@,
            NodeError::Store { id, .. } => "failed to write COB location for release "@
                + id.text(),
            NodeError::Find(_) => "failed to load the release store"@,
            NodeError::Json(_) => "JSON encode failed"@,
        }
    }

    /// The error as text.
    pub fn message(&self) -> (r: String)
        ensures
            r@ == self.text(),
    {
        match self {
            NodeError::Usage(s) => s.as_str().to_owned(),
            NodeError::NotRunning =>
                "no rad-artifact node is running on this host\n  hint: start one with `rad-artifact node start`".to_owned(),
            NodeError::StartupTimeout { waited, log } => cat4(
                "node did not come online within ",
                waited.as_str(),
                "; check the log file at ",
                log.as_str(),
            ),
            NodeError::Client(s) => cat("node call failed: ", s.as_str()),
            NodeError::Io(_) => "I/O error".to_owned(),
            NodeError::ArtifactNotFound(cid) => {
                let shown = cid.to_text();
                cat3("artifact with CID ", shown.as_str(), " not found in any release")
            },
            NodeError::Store { id, .. } => {
                let shown = id.to_text();
                cat("failed to write COB location for release ", shown.as_str())
            },
            NodeError::Find(_) => "failed to load the release store".to_owned(),
            NodeError::Json(_) => "JSON encode failed".to_owned(),
        }
    }
}

/// What a failed call means: where nobody answers, no node is running.
pub fn client_err(e: CallFailure) -> (r: NodeError)
    ensures
        r == (match e {
            CallFailure::Refused => NodeError::NotRunning,
            CallFailure::NoSocket => NodeError::NotRunning,
            CallFailure::Other(s) => NodeError::Client(s),
        }),
{
    match e {
        CallFailure::Refused => NodeError::NotRunning,
        CallFailure::NoSocket => NodeError::NotRunning,
        CallFailure::Other(s) => NodeError::Client(s),
    }
}

/// What starting the node takes.
#[derive(Clone, Copy, PartialEq, Eq, Debug, Structural)]
pub enum StartStep {
    /// To run it attached to the terminal.
    Foreground,
    /// Nothing: it is running.
    Running,
    /// To remove the control socket and then start it.
    Reclaim,
    /// To start it.
    Spawn,
}

/// What starting the node takes. A control socket that nobody answers is only taken over
/// where the user wants that.
pub fn start_step(args: &Start, running: bool, socket_exists: bool, socket: &str) -> (r: Result<
    StartStep,
    NodeError,
>)
    ensures
        match r {
            Ok(step) => step == (if args.foreground {
                StartStep::Foreground
            } else if running {
                StartStep::Running
            } else if socket_exists {
                StartStep::Reclaim
            } else {
                StartStep::Spawn
            }) && (step == StartStep::Reclaim ==> args.force),
            Err(e) => !args.foreground && !running && socket_exists && !args.force && e is Usage
                && e->Usage_0@ == "stale control socket at "@ + socket@
                + "; pass --force to reclaim it"@,
        },
{
    if args.foreground {
        return Ok(StartStep::Foreground);
    }
    if running {
        return Ok(StartStep::Running);
    }
    if socket_exists {
        if args.force {
            return Ok(StartStep::Reclaim);
        }
        return Err(
            NodeError::Usage(
                cat3("stale control socket at ", socket, "; pass --force to reclaim it"),
            ),
        );
    }
    Ok(StartStep::Spawn)
}

/// An artifact that the node seeds.
pub struct SeededEntry {
    pub cid: Cid,
    /// How many of its bytes the store has.
    pub bytes: u64,
    /// Whether that is all of them, as far as it is known.
    pub complete: Option<bool>,
}

/// The row of an artifact that the node seeds.
pub open spec fn seeded_text(e: SeededEntry) -> Seq<char> {
    match e.complete {
        Some(true) => e.cid.text() + " ("@ + bytes_shown(e.bytes as nat) + ")"@,
        Some(false) => e.cid.text() + " ⚠ incomplete — only "@ + bytes_shown(e.bytes as nat)
            + " in the store"@,
        None => e.cid.text() + " ("@ + bytes_shown(e.bytes as nat) + ") ⚠ completeness unknown"@,
    }
}

/// The row of an artifact that the node seeds. That it is to be seeded does not mean that
/// its bytes are there: where they are not, or it is not known, the row says so.
pub fn seeded_line(entry: &SeededEntry) -> (r: String)
    ensures
        r@ == seeded_text(*entry),
{
    let cid = entry.cid.to_text();
    let bytes = human_bytes(entry.bytes);
    match entry.complete {
        Some(complete) => {
            if complete {
                cat4(cid.as_str(), " (", bytes.as_str(), ")")
            } else {
                cat4(cid.as_str(), " ⚠ incomplete — only ", bytes.as_str(), " in the store")
            }
        },
        None => cat4(cid.as_str(), " (", bytes.as_str(), ") ⚠ completeness unknown"),
    }
}

/// The list of what the node seeds.
pub open spec fn list_lines(entries: Seq<SeededEntry>, rid: RepoId) -> Seq<Seq<char>> {
    if entries.len() == 0 {
        seq!["🌾 Nothing seeded for "@ + rid.text() + " yet."@]
    } else {
        seq![
            "🌱 Seeding "@ + decimal_text(entries.len()) + " artifact(s) for "@ + rid.text()
                + ":"@,
        ] + entries.map_values(|e: SeededEntry| "  "@ + seeded_text(e))
    }
}

/// The list of what the node seeds.
pub fn seeded_list(entries: &Vec<SeededEntry>, rid: &RepoId) -> (r: Vec<String>)
    ensures
        texts(r@) == list_lines(entries@, *rid),
{
    let shown = rid.to_text();
    let mut out: Vec<String> = Vec::new();
    if entries.len() == 0 {
        out.push(cat3("🌾 Nothing seeded for ", shown.as_str(), " yet."));
        assert(texts(out@) =~= list_lines(entries@, *rid));
        return out;
    }
    let count = decimal(entries.len() as u64);
    out.push(cat5("🌱 Seeding ", count.as_str(), " artifact(s) for ", shown.as_str(), ":"));
    let mut i: usize = 0;
    while i < entries.len()
        invariant
            i <= entries@.len(),
            entries@.len() > 0,
            out@.len() == i + 1,
            out@[0]@ == list_lines(entries@, *rid)[0],
            forall|k: int| 0 < k < out@.len() ==> (#[trigger] out@[k])@ == "  "@ + seeded_text(
                entries@[k - 1],
            ),
        decreases entries@.len() - i,
    {
        let line = seeded_line(&entries[i]);
        out.push(cat("  ", line.as_str()));
        i += 1;
    }
    assert(texts(out@) =~= list_lines(entries@, *rid));
    out
}

/// The release that an artifact is seeded under: the latest that has it.
pub fn seed_target(releases: &Releases, cid: &Cid) -> (r: Result<ReleaseId, NodeError>)
    ensures
        ({
            let found = carrying(releases.items@, *cid);
            match r {
                Ok(id) => all_read(releases.items@) && exists|i: int|
                    #[trigger] is_latest(release_times(found), i) && found[i].0 == id,
                Err(NodeError::ArtifactNotFound(c)) => all_read(releases.items@) && c == *cid
                    && found.len() == 0,
                Err(NodeError::Find(e)) => first_fault(releases.items@, e),
                Err(_) => false,
            }
        }),
{
    let found = match releases.find_by_cid(cid) {
        Ok(found) => found,
        Err(e) => {
            return Err(NodeError::Find(e.clone()));
        },
    };
    let ghost all = carrying(releases.items@, *cid);
    assert(found@.map_values(|e: (ReleaseId, &Release)| (e.0, *e.1)) == all);
    let mut times: Vec<u64> = Vec::new();
    let mut i: usize = 0;
    while i < found.len()
        invariant
            i <= found@.len(),
            found@.map_values(|e: (ReleaseId, &Release)| (e.0, *e.1)) == all,
            times@ == release_times(all).take(i as int),
        decreases found@.len() - i,
    {
        assert(found@.map_values(|e: (ReleaseId, &Release)| (e.0, *e.1))[i as int]
            == all[i as int]);
        times.push(found[i].1.timestamp());
        i += 1;
        assert(times@ =~= release_times(all).take(i as int));
    }
    assert(found@.map_values(|e: (ReleaseId, &Release)| (e.0, *e.1)).len() == found@.len());
    assert(times@ =~= release_times(all));
    match latest(&times) {
        Some(i) => {
            assert(found@.map_values(|e: (ReleaseId, &Release)| (e.0, *e.1))[i as int]
                == all[i as int]);
            Ok(found[i].0)
        },
        None => Err(NodeError::ArtifactNotFound(*cid)),
    }
}

/// What is said once an artifact is seeded.
pub fn seeded_note(cid: &Cid, bytes: u64, was_new: bool) -> (r: String)
    ensures
        r@ == "🌱 Seeded "@ + cid.text() + " ("@ + bytes_shown(bytes as nat) + ", "@ + (
        if was_new {
            "new"@
        } else {
            "already"@
        }) + " tagged)"@,
{
    let shown = cid.to_text();
    let size = human_bytes(bytes);
    let head = cat5("🌱 Seeded ", shown.as_str(), " (", size.as_str(), ", ");
    cat3(head.as_str(), if was_new { "new" } else { "already" }, " tagged)")
}

/// Whether a change is made known: something was written, and the user did not rule it
/// out.
pub fn announces(wrote: bool, no_announce: bool) -> (r: bool)
    ensures
        r == (wrote && !no_announce),
{
    wrote && !no_announce
}

/// What no longer seeding an artifact is about.
pub enum Scope<'a> {
    /// This release.
    One(ReleaseId),
    /// Every release that has the artifact.
    All,
    /// The user has to choose.
    Choose(Vec<(ReleaseId, &'a Release)>),
}

/// What no longer seeding an artifact is about, where no release was named: the user is
/// asked where there is more than one release, and they can be.
pub fn unseed_scope<'a>(
    named: Option<ReleaseId>,
    releases: &'a Releases,
    cid: &Cid,
    no_input: bool,
    terminal: bool,
) -> (r: Result<Scope<'a>, NodeError>)
    ensures
        match named {
            Some(id) => r == Ok::<Scope<'a>, NodeError>(Scope::One(id)),
            None => {
                let found = carrying(releases.items@, *cid);
                let asks = found.len() > 1 && !no_input && terminal;
                match r {
                    Ok(Scope::Choose(v)) => all_read(releases.items@) && asks && v@.map_values(
                        |e: (ReleaseId, &'a Release)| (e.0, *e.1),
                    ) == found,
                    Ok(Scope::All) => all_read(releases.items@) && !asks,
                    Ok(Scope::One(_)) => false,
                    Err(NodeError::Find(e)) => first_fault(releases.items@, e),
                    Err(_) => false,
                }
            },
        },
{
    match named {
        Some(id) => Ok(Scope::One(id)),
        None => match releases.find_by_cid(cid) {
            Err(e) => Err(NodeError::Find(e.clone())),
            Ok(found) => {
                assert(found@.map_values(|e: (ReleaseId, &'a Release)| (e.0, *e.1)).len()
                    == found@.len());
                if found.len() > 1 && !no_input && terminal {
                    Ok(Scope::Choose(found))
                } else {
                    Ok(Scope::All)
                }
            },
        },
    }
}

/// The releases whose locations are taken back: the one that was chosen, or every one
/// that has the artifact.
pub fn unseed_targets(filter: Option<ReleaseId>, releases: &Releases, cid: &Cid) -> (r: Result<
    Vec<ReleaseId>,
    NodeError,
>)
    ensures
        match filter {
            Some(id) => r is Ok && r->Ok_0@ == seq![id],
            None => match r {
                Ok(ids) => all_read(releases.items@) && ids@ == carrying(
                    releases.items@,
                    *cid,
                ).map_values(|e: (ReleaseId, Release)| e.0),
                Err(NodeError::Find(e)) => first_fault(releases.items@, e),
                Err(_) => false,
            },
        },
{
    match filter {
        Some(id) => {
            let mut one: Vec<ReleaseId> = Vec::new();
            one.push(id);
            assert(one@ =~= seq![id]);
            Ok(one)
        },
        None => match releases.find_by_cid(cid) {
            Err(e) => Err(NodeError::Find(e.clone())),
            Ok(found) => {
                let ghost all = carrying(releases.items@, *cid);
                let mut ids: Vec<ReleaseId> = Vec::new();
                let mut i: usize = 0;
                while i < found.len()
                    invariant
                        i <= found@.len(),
                        found@.map_values(|e: (ReleaseId, &Release)| (e.0, *e.1)) == all,
                        ids@ == all.map_values(|e: (ReleaseId, Release)| e.0).take(i as int),
                    decreases found@.len() - i,
                {
                    assert(found@.map_values(|e: (ReleaseId, &Release)| (e.0, *e.1))[i as int]
                        == all[i as int]);
                    ids.push(found[i].0);
                    i += 1;
                    assert(ids@ =~= all.map_values(|e: (ReleaseId, Release)| e.0).take(i as int));
                }
                assert(found@.map_values(|e: (ReleaseId, &Release)| (e.0, *e.1)).len()
                    == found@.len());
                assert(ids@ =~= all.map_values(|e: (ReleaseId, Release)| e.0));
                Ok(ids)
            },
        },
    }
}

/// The endpoint URLs that the user has contributed to an artifact.
pub open spec fn endpoint_urls(r: ReleaseView, cid: Cid, user: Did) -> Seq<Seq<char>> {
    if r.has(cid) {
        in_order::<Url>(urls_of(r.get(cid), user)).filter(
            |u: Seq<char>| scheme_of(u) == URL_SCHEME@,
        )
    } else {
        Seq::empty()
    }
}

/// Whether an operation removes a location.
pub open spec fn removes(op: Seq<Action>, cid: Cid, url: Seq<char>) -> bool {
    op.len() == 1 && (op[0] matches Action::RemoveLocation { cid: c, location } && c == cid
        && location@ == url)
}

fn own_endpoint_urls(release: &Release, cid: &Cid, user: &Did) -> (r: Vec<Url>)
    ensures
        r@.map_values(|u: Url| u@) == endpoint_urls(release@, *cid, *user),
        release@.distinct(),
        forall|i: int|
            0 <= i < r@.len() ==> release@.has(*cid) && urls_of(
                release@.get(*cid),
                *user,
            ).contains((#[trigger] r@[i])@) && scheme_of(r@[i]@) == URL_SCHEME@,
        release@.has(*cid) ==> forall|u: Seq<char>|
            #[trigger] urls_of(release@.get(*cid), *user).contains(u) && scheme_of(u)
                == URL_SCHEME@ ==> r@.map_values(|u: Url| u@).contains(u),
{
    let mut out: Vec<Url> = Vec::new();
    let ghost keep = |u: Seq<char>| scheme_of(u) == URL_SCHEME@;
    match release.artifact(cid) {
        None => {
            assert(out@.map_values(|u: Url| u@) =~= Seq::<Seq<char>>::empty());
            out
        },
        Some(artifact) => {
            let empty: SortedSet<Url> = SortedSet::new();
            let set = match artifact.locations_of(user) {
                Some(set) => set,
                None => &empty,
            };
            assert(set@ == urls_of(release@.get(*cid), *user));
            let members = set.members();
            let ghost all = in_order::<Url>(set@);
            proof {
                lemma_filter_empty(all, keep);
                assert(out@.map_values(|u: Url| u@) =~= Seq::<Seq<char>>::empty());
            }
            let mut i: usize = 0;
            while i < members.len()
                invariant
                    i <= members@.len(),
                    members@.map_values(|u: &Url| u@) == all,
                    forall|k: Seq<char>| #[trigger] all.contains(k) <==> set@.contains(k),
                    keep == (|u: Seq<char>| scheme_of(u) == URL_SCHEME@),
                    out@.map_values(|u: Url| u@) == all.take(i as int).filter(keep),
                    forall|k: int|
                        0 <= k < out@.len() ==> set@.contains((#[trigger] out@[k])@) && scheme_of(
                            out@[k]@,
                        ) == URL_SCHEME@,
                    forall|k: int|
                        0 <= k < i && scheme_of(#[trigger] all[k]) == URL_SCHEME@
                            ==> out@.map_values(|u: Url| u@).contains(all[k]),
                decreases members@.len() - i,
            {
                let ghost before = out@;
                let ghost listed = before.map_values(|u: Url| u@);
                proof {
                    lemma_filter_step(all, i as int, keep);
                    assert(members@.map_values(|u: &Url| u@)[i as int] == all[i as int]);
                    assert(all.contains(all[i as int]));
                }
                if EndpointId::is_endpoint_url(members[i]) {
                    out.push(members[i].clone());
                    proof {
                        let next = out@.map_values(|u: Url| u@);
                        assert(next =~= listed.push(all[i as int]));
                        assert(next[before.len() as int] == all[i as int]);
                        assert forall|k: int|
                            0 <= k < i + 1 && scheme_of(#[trigger] all[k])
                                == URL_SCHEME@ implies next.contains(all[k]) by {
                            if k < i {
                                let n = choose|n: int|
                                    0 <= n < listed.len() && listed[n] == all[k];
                                assert(next[n] == all[k]);
                            }
                        }
                    }
                }
                i += 1;
            }
            proof {
                assert(members@.map_values(|u: &Url| u@).len() == members@.len());
                assert(all.take(i as int) =~= all);
                assert forall|u: Seq<char>|
                    #[trigger] urls_of(release@.get(*cid), *user).contains(u) && scheme_of(u)
                        == URL_SCHEME@ implies out@.map_values(|u: Url| u@).contains(u) by {
                    assert(all.contains(u));
                    let k = choose|k: int| 0 <= k < all.len() && all[k] == u;
                    assert(scheme_of(all[k]) == URL_SCHEME@);
                }
            }
            out
        },
    }
}

/// Takes back every endpoint URL that the user has contributed to an artifact, each with
/// an operation of its own. The other locations stay.
pub fn retract(release: &mut ReleaseMut, cid: Cid, author: Did) -> (r: Vec<Vec<Action>>)
    ensures
        final(release).id == old(release).id,
        r@.len() == endpoint_urls(old(release).release@, cid, author).len(),
        forall|i: int|
            0 <= i < r@.len() ==> removes(
                (#[trigger] r@[i])@,
                cid,
                endpoint_urls(old(release).release@, cid, author)[i],
            ),
        final(release).release@ == operations(old(release).release@, author, r@),
        old(release).release@.has(cid) ==> final(release).release@.has(cid) && urls_of(
            final(release).release@.get(cid),
            author,
        ) == urls_of(old(release).release@.get(cid), author).filter(
            |u: Seq<char>| scheme_of(u) != URL_SCHEME@,
        ),
{
    let ghost start = release.release@;
    let ghost id = release.id;
    let urls = own_endpoint_urls(&release.release, &cid, &author);
    let ghost listed = urls@.map_values(|u: Url| u@);
    let ghost own = urls_of(start.get(cid), author);
    proof {
        if urls@.len() > 0 {
            assert(scheme_of(urls@[0]@) == URL_SCHEME@);
        }
    }
    let mut out: Vec<Vec<Action>> = Vec::new();
    let mut i: usize = 0;
    while i < urls.len()
        invariant
            i <= urls@.len(),
            release.id == id,
            start.distinct(),
            listed == urls@.map_values(|u: Url| u@),
            listed == endpoint_urls(start, cid, author),
            own == urls_of(start.get(cid), author),
            urls@.len() > 0 ==> start.has(cid),
            out@.len() == i,
            release.release@ == operations(start, author, out@),
            release.release@.distinct(),
            start.has(cid) ==> release.release@.has(cid) && (forall|u: Seq<char>| #[trigger]
                urls_of(release.release@.get(cid), author).contains(u) <==> own.contains(u)
                    && !listed.take(i as int).contains(u)),
            forall|k: int| 0 <= k < i ==> removes((#[trigger] out@[k])@, cid, listed[k]),
        decreases urls@.len() - i,
    {
        let ghost before = out@;
        let ghost here = release.release@;
        let url = urls[i].clone();
        assert(listed[i as int] == url@);
        proof {
            law_removing_removes(here, author, cid, url);
        }
        let actions = release.remove_location(cid, url, author);
        proof {
            assert(actions@.drop_last() =~= Seq::<Action>::empty());
            reveal_with_fuel(steps, 2);
            assert(release.release@ == crate::release::step(
                here,
                author,
                Action::RemoveLocation { cid, location: url },
            ));
            assert forall|u: Seq<char>| #[trigger]
                urls_of(release.release@.get(cid), author).contains(u) <==> own.contains(u)
                    && !listed.take(i + 1).contains(u) by {
                assert(urls_of(here.get(cid), author).contains(u) <==> own.contains(u)
                    && !listed.take(i as int).contains(u));
                assert(listed.take(i + 1) =~= listed.take(i as int).push(url@));
                if listed.take(i as int).contains(u) {
                    let k = choose|k: int|
                        0 <= k < listed.take(i as int).len() && listed.take(i as int)[k] == u;
                    assert(listed.take(i + 1)[k] == u);
                }
                if u == url@ {
                    assert(listed.take(i + 1)[i as int] == u);
                }
            }
        }
        out.push(actions);
        assert(out@.drop_last() =~= before);
        i += 1;
    }
    proof {
        assert(listed.take(i as int) =~= listed);
        if start.has(cid) {
            let kept = own.filter(|u: Seq<char>| scheme_of(u) != URL_SCHEME@);
            assert forall|u: Seq<char>| #[trigger]
                urls_of(release.release@.get(cid), author).contains(u) <==> kept.contains(u) by {
                if listed.contains(u) {
                    let k = choose|k: int| 0 <= k < listed.len() && listed[k] == u;
                    assert(urls@[k]@ == u);
                }
            }
            assert(urls_of(release.release@.get(cid), author) =~= kept);
        }
    }
    out
}

/// What is said once an artifact is no longer seeded.
pub fn unseeded_note(cid: &Cid, was_removed: bool) -> (r: String)
    ensures
        r@ == (if was_removed {
            "🍂 Unseeded "@ + cid.text() + " — no longer holding its bytes"@
        } else {
            "🤷 Nothing to do — "@ + cid.text() + " wasn't being seeded"@
        }),
{
    let shown = cid.to_text();
    if was_removed {
        cat3("🍂 Unseeded ", shown.as_str(), " — no longer holding its bytes")
    } else {
        cat3("🤷 Nothing to do — ", shown.as_str(), " wasn't being seeded")
    }
}

/// What is said of locations that were taken back: nothing where there were none.
pub fn swept_note(removed: u64) -> (r: Option<String>)
    ensures
        match r {
            Some(s) => removed > 0 && s@ == "🧹 Swept "@ + decimal_text(removed as nat)
                + " iroh location(s) from the COB"@,
            None => removed == 0,
        },
{
    if removed > 0 {
        let n = decimal(removed);
        Some(cat3("🧹 Swept ", n.as_str(), " iroh location(s) from the COB"))
    } else {
        None
    }
}

/// The last lines of a text, as many as are wanted.
pub fn last_lines(s: &str, wanted: usize) -> (r: Vec<String>)
    ensures
        ({
            let all = lines_of(s@);
            texts(r@) == (if all.len() > wanted {
                all.skip(all.len() - wanted)
            } else {
                all
            })
        }),
{
    let all = split_lines(s);
    let ghost lines = texts(all@);
    let n: usize = all.len();
    let from: usize = if n > wanted { n - wanted } else { 0 };
    let mut out: Vec<String> = Vec::new();
    let mut i: usize = from;
    while i < n
        invariant
            from <= i <= n,
            n == all@.len(),
            lines == texts(all@),
            texts(out@) == lines.subrange(from as int, i as int),
        decreases n - i,
    {
        let ghost before = out@;
        out.push(all[i].as_str().to_owned());
        proof {
            assert(texts(out@) =~= texts(before).push(lines[i as int]));
            assert(lines.subrange(from as int, i + 1) =~= lines.subrange(
                from as int,
                i as int,
            ).push(lines[i as int]));
        }
        i += 1;
    }
    assert(lines.subrange(from as int, n as int) =~= lines.skip(from as int));
    assert(lines.skip(0) =~= lines);
    out
}

/// A relay, as the node sees it.
pub struct RelayState {
    pub url: String,
    pub connected: bool,
    pub latency_ms: Option<u64>,
    pub last_error: Option<String>,
}

/// The relays of the node, and whether it can be reached without them.
pub struct RelayStats {
    pub relays: Vec<RelayState>,
    pub udp_v4: bool,
    pub udp_v6: bool,
}

/// The state of the node.
pub struct Status {
    pub endpoint_id: EndpointId,
    /// When it started, in seconds since 1970.
    pub started_at_unix: i64,
    pub seeded_count: u64,
    pub seeded_bytes: u64,
    pub active: u64,
    pub opened_total: u64,
    pub closed_total: u64,
    pub direct_total: u64,
    pub holepunch_attempts: u64,
    pub paths_direct: u64,
    pub paths_relayed: u64,
    pub out_bytes: u64,
    pub in_bytes: u64,
    pub relay: RelayStats,
}

/// How long ago something was.
pub open spec fn uptime_text(now: int, started: int) -> Seq<char> {
    let secs: nat = if now > started {
        (now - started) as nat
    } else {
        0
    };
    if secs < 60 {
        decimal_text(secs) + "s ago"@
    } else if secs < 3600 {
        decimal_text(secs / 60) + "m ago"@
    } else if secs < 86400 {
        decimal_text(secs / 3600) + "h "@ + decimal_text((secs % 3600) / 60) + "m ago"@
    } else {
        decimal_text(secs / 86400) + "d ago"@
    }
}

/// How long ago something was, at the time `now`.
pub fn humanize_uptime(now: i64, started_at_unix: i64) -> (r: String)
    ensures
        r@ == uptime_text(now as int, started_at_unix as int),
{
    let secs: u64 = if now > started_at_unix {
        ((now as i128) - (started_at_unix as i128)) as u64
    } else {
        0
    };
    if secs < 60 {
        let n = decimal(secs);
        cat(n.as_str(), "s ago")
    } else if secs < 3600 {
        let n = decimal(secs / 60);
        cat(n.as_str(), "m ago")
    } else if secs < 86400 {
        let h = decimal(secs / 3600);
        let m = decimal((secs % 3600) / 60);
        cat4(h.as_str(), "h ", m.as_str(), "m ago")
    } else {
        let n = decimal(secs / 86400);
        cat(n.as_str(), "d ago")
    }
}

/// The line of a relay. The last error is shown where it says more: where there is no
/// connection.
pub open spec fn relay_text(r: RelayState) -> Seq<char> {
    "Relay         "@ + (if r.connected {
        "connected"@
    } else {
        "DISCONNECTED"@
    }) + " · "@ + r.url@ + (match r.latency_ms {
        Some(ms) => " · "@ + decimal_text(ms as nat) + "ms"@,
        None => Seq::empty(),
    }) + (if !r.connected && r.last_error is Some {
        " · "@ + r.last_error->0@
    } else {
        Seq::empty()
    })
}

fn relay_line(relay: &RelayState) -> (r: String)
    ensures
        r@ == relay_text(*relay),
{
    let mut s = cat4(
        "Relay         ",
        if relay.connected { "connected" } else { "DISCONNECTED" },
        " · ",
        relay.url.as_str(),
    );
    let ghost start = s@;
    match relay.latency_ms {
        Some(ms) => {
            let n = decimal(ms);
            s.append(" · ");
            s.append(n.as_str());
            s.append("ms");
        },
        None => {},
    }
    match &relay.last_error {
        Some(e) => {
            if !relay.connected {
                s.append(" · ");
                s.append(e.as_str());
            }
        },
        None => {},
    }
    assert(s@ =~= relay_text(*relay));
    s
}

/// The lines on the relays.
pub open spec fn relay_lines(r: RelayStats) -> Seq<Seq<char>> {
    if r.relays@.len() == 0 {
        seq!["Relay         none assigned — node may be unreachable"@]
    } else {
        r.relays@.map_values(|s: RelayState| relay_text(s)).push(
            "Reachability  UDP "@ + (if r.udp_v4 {
                "v4"@
            } else {
                "no-v4"@
            }) + " · "@ + (if r.udp_v6 {
                "v6"@
            } else {
                "no-v6"@
            }),
        )
    }
}

/// The lines on the relays.
pub fn relay_report(stats: &RelayStats) -> (r: Vec<String>)
    ensures
        texts(r@) == relay_lines(*stats),
{
    let mut out: Vec<String> = Vec::new();
    if stats.relays.len() == 0 {
        out.push("Relay         none assigned — node may be unreachable".to_owned());
        assert(texts(out@) =~= relay_lines(*stats));
        return out;
    }
    let ghost all = stats.relays@.map_values(|s: RelayState| relay_text(s));
    let mut i: usize = 0;
    while i < stats.relays.len()
        invariant
            i <= stats.relays@.len(),
            all == stats.relays@.map_values(|s: RelayState| relay_text(s)),
            texts(out@) == all.take(i as int),
        decreases stats.relays@.len() - i,
    {
        let ghost before = out@;
        out.push(relay_line(&stats.relays[i]));
        assert(texts(out@) =~= texts(before).push(all[i as int]));
        assert(all.take(i + 1) =~= all.take(i as int).push(all[i as int]));
        i += 1;
    }
    assert(all.take(i as int) =~= all);
    let ghost before = out@;
    out.push(
        cat4(
            "Reachability  UDP ",
            if stats.udp_v4 { "v4" } else { "no-v4" },
            " · ",
            if stats.udp_v6 { "v6" } else { "no-v6" },
        ),
    );
    assert(texts(out@) =~= relay_lines(*stats));
    out
}

/// The state of the node, line by line.
pub open spec fn status_lines(s: Status, now: int) -> Seq<Seq<char>> {
    seq![
        "Node          "@ + s.endpoint_id.url_text() + " (started "@ + uptime_text(
            now,
            s.started_at_unix as int,
        ) + ")"@,
        "Seeded        "@ + decimal_text(s.seeded_count as nat) + " artifacts · "@ + bytes_shown(
            s.seeded_bytes as nat,
        ),
        "Connections   "@ + decimal_text(s.active as nat) + " active · "@ + decimal_text(
            s.opened_total as nat,
        ) + " opened · "@ + decimal_text(s.closed_total as nat) + " closed · "@ + decimal_text(
            s.direct_total as nat,
        ) + " direct · "@ + decimal_text(s.holepunch_attempts as nat) + " holepunches"@,
        "Paths         "@ + decimal_text(s.paths_direct as nat) + " direct · "@ + decimal_text(
            s.paths_relayed as nat,
        ) + " relayed"@,
        "Traffic       "@ + bytes_shown(s.out_bytes as nat) + " out · "@ + bytes_shown(
            s.in_bytes as nat,
        ) + " in"@,
    ] + relay_lines(s.relay)
}

/// The state of the node, line by line, at the time `now`.
pub fn status_report(s: &Status, now: i64) -> (r: Vec<String>)
    ensures
        texts(r@) == status_lines(*s, now as int),
{
    let mut out: Vec<String> = Vec::new();
    let url = s.endpoint_id.to_url();
    let uptime = humanize_uptime(now, s.started_at_unix);
    out.push(cat5("Node          ", url.as_str(), " (started ", uptime.as_str(), ")"));
    let count = decimal(s.seeded_count);
    let bytes = human_bytes(s.seeded_bytes);
    out.push(cat4("Seeded        ", count.as_str(), " artifacts · ", bytes.as_str()));
    let active = decimal(s.active);
    let opened = decimal(s.opened_total);
    let closed = decimal(s.closed_total);
    let direct = decimal(s.direct_total);
    let punches = decimal(s.holepunch_attempts);
    let mut conn = cat4("Connections   ", active.as_str(), " active · ", opened.as_str());
    conn.append(" opened · ");
    conn.append(closed.as_str());
    conn.append(" closed · ");
    conn.append(direct.as_str());
    conn.append(" direct · ");
    conn.append(punches.as_str());
    conn.append(" holepunches");
    out.push(conn);
    let paths = decimal(s.paths_direct);
    let relayed = decimal(s.paths_relayed);
    out.push(cat5("Paths         ", paths.as_str(), " direct · ", relayed.as_str(), " relayed"));
    let sent = human_bytes(s.out_bytes);
    let received = human_bytes(s.in_bytes);
    out.push(cat5("Traffic       ", sent.as_str(), " out · ", received.as_str(), " in"));
    let ghost head = out@;
    let lines = relay_report(&s.relay);
    let ghost tail = texts(lines@);
    let mut i: usize = 0;
    assert(texts(head) + tail.take(0) =~= texts(head));
    while i < lines.len()
        invariant
            i <= lines@.len(),
            tail == texts(lines@),
            texts(out@) == texts(head) + tail.take(i as int),
        decreases lines@.len() - i,
    {
        let ghost before = out@;
        out.push(lines[i].as_str().to_owned());
        proof {
            assert(texts(out@) =~= texts(before).push(tail[i as int]));
            assert(texts(head) + tail.take(i + 1) =~= (texts(head) + tail.take(i as int)).push(
                tail[i as int],
            ));
        }
        i += 1;
    }
    assert(tail.take(i as int) =~= tail);
    assert(texts(out@) =~= status_lines(*s, now as int));
    out
}

/// What is taken back of an artifact is every URL of today's endpoint scheme that the user
/// contributed to it, and nothing else.
pub proof fn law_every_endpoint_url_is_taken_back(
    release: Release,
    cid: Cid,
    user: Did,
    u: Seq<char>,
)
    requires
        release@.distinct(),
    ensures
        endpoint_urls(release@, cid, user).contains(u) <==> scheme_of(u) == "radiroh"@ && exists|
            a: ArtifactView,
        | #[trigger]
            release@.artifacts.contains((cid, a)) && a.locations.contains_key(user)
                && a.locations[user].contains(u),
{
    let r = release@;
    r.lemma_holds(cid);
    release.lemma_finite_locations();
    if r.has(cid) {
        let a = r.get(cid);
        let i = choose|i: int| 0 <= i < r.artifacts.len() && r.artifacts[i] == (cid, a);
        assert(finite_locations(r.artifacts[i].1));
        let urls = urls_of(a, user);
        lemma_finite_in_order::<Url>(urls);
        lemma_filter_contains(
            in_order::<Url>(urls),
            |u: Seq<char>| scheme_of(u) == URL_SCHEME@,
        );
        assert(in_order::<Url>(urls).contains(u) <==> urls.contains(u));
    }
}

/// The release that an artifact is seeded under is the latest of all that have it.
pub proof fn law_seeding_goes_to_the_latest(items: Seq<Loaded>, cid: Cid, i: int)
    requires
        is_latest(release_times(carrying(items, cid)), i),
    ensures
        carrying(items, cid)[i].1@.has(cid),
        items.contains(Ok(carrying(items, cid)[i])),
        forall|id: ReleaseId, r: Release| #[trigger]
            items.contains(Ok((id, r))) && r@.has(cid) ==> r@.timestamp
                <= carrying(items, cid)[i].1@.timestamp,
{
    let found = carrying(items, cid);
    law_search_finds_every_carrier(items, cid);
    let (id, r) = found[i];
    assert(found.contains((id, r)));
    if !items.contains(Ok((id, r))) {
        assert(false);
    }
    assert forall|id: ReleaseId, r: Release| #[trigger]
        items.contains(Ok((id, r))) && r@.has(cid) implies r@.timestamp
        <= found[i].1@.timestamp by {
        assert(found.contains((id, r)));
        let j = choose|j: int| 0 <= j < found.len() && found[j] == (id, r);
        law_the_latest_is_one(release_times(found), i);
        assert(release_times(found)[j] == r@.timestamp);
        assert(release_times(found)[i] == found[i].1@.timestamp);
    }
}

/// How long ago something was, in the greatest unit that it reaches: seconds, minutes,
/// hours and minutes, or days. Only the time between counts, and what is yet to come was
/// no time ago.
pub proof fn law_uptime_is_in_the_greatest_unit(t: int, d: nat, h: nat, m: nat, s: nat)
    requires
        h < 24,
        m < 60,
        s < 60,
    ensures
        uptime_text(t + s, t) == decimal_text(s) + "s ago"@,
        m > 0 ==> uptime_text(t + 60 * m + s, t) == decimal_text(m) + "m ago"@,
        h > 0 ==> uptime_text(t + 3600 * h + 60 * m + s, t) == decimal_text(h) + "h "@
            + decimal_text(m) + "m ago"@,
        d > 0 ==> uptime_text(t + 86400 * d + 3600 * h + 60 * m + s, t) == decimal_text(d)
            + "d ago"@,
        uptime_text(t - s, t) == "0"@ + "s ago"@,
{
    reveal_strlit("0");
    assert(decimal_text(0) =~= "0"@);
    if h > 0 {
        let all = 3600 * h + 60 * m + s;
        assert(all / 3600 == h && all % 3600 == 60 * m + s);
        assert((60 * m + s) / 60 == m);
    }
    if d > 0 {
        let all = 86400 * d + 3600 * h + 60 * m + s;
        assert(all / 86400 == d);
    }
}

/// The list of what is seeded has a line for every artifact, with its identifier in it.
pub proof fn law_every_seeded_artifact_is_listed(
    entries: Seq<SeededEntry>,
    rid: RepoId,
    i: int,
)
    requires
        0 <= i < entries.len(),
    ensures
        list_lines(entries, rid).len() == entries.len() + 1,
        list_lines(entries, rid)[i + 1] == "  "@ + seeded_text(entries[i]),
        entries[i].cid.text().is_prefix_of(seeded_text(entries[i])),
{
}

/// `seed_target` gives the latest of all releases that have the artifact, and says that none
/// has it exactly where none does.
pub proof fn law_seed_target_is_the_latest(
    releases: Releases,
    cid: Cid,
    r: Result<ReleaseId, NodeError>,
)
    requires
        call_ensures(seed_target, (&releases, &cid), r),
    ensures
        r matches Ok(id) ==> exists|release: Release|
            {
                &&& #[trigger] releases.items@.contains(Ok((id, release)))
                &&& release@.has(cid)
                &&& forall|other: ReleaseId, old: Release| #[trigger]
                    releases.items@.contains(Ok((other, old))) && old@.has(cid) ==> old@.timestamp
                        <= release@.timestamp
            },
        r matches Err(NodeError::ArtifactNotFound(c)) ==> c == cid && forall|
            id: ReleaseId,
            release: Release,
        | #[trigger]
            releases.items@.contains(Ok((id, release))) ==> !release@.has(cid),
{
    let items = releases.items@;
    let found = carrying(items, cid);
    law_search_finds_every_carrier(items, cid);
    match r {
        Ok(id) => {
            let i = choose|i: int| #[trigger] is_latest(release_times(found), i) && found[i].0 == id;
            law_seeding_goes_to_the_latest(items, cid, i);
            let release = found[i].1;
            assert(found[i] == (id, release));
            assert(items.contains(Ok((id, release))));
        },
        Err(NodeError::ArtifactNotFound(_)) => {
            assert forall|id: ReleaseId, release: Release| #[trigger]
                items.contains(Ok((id, release))) implies !release@.has(cid) by {
                if release@.has(cid) {
                    assert(found.contains((id, release)));
                }
            }
        },
        _ => {},
    }
}

/// `unseed_targets` gives the release that was chosen alone, or every release that has the
/// artifact.
pub proof fn law_unseeding_covers_every_carrier(
    filter: Option<ReleaseId>,
    releases: Releases,
    cid: Cid,
    r: Result<Vec<ReleaseId>, NodeError>,
    id: ReleaseId,
)
    requires
        call_ensures(unseed_targets, (filter, &releases, &cid), r),
    ensures
        filter matches Some(only) ==> (r matches Ok(ids) && (ids@.contains(id) <==> id == only)),
        filter is None ==> (r matches Ok(ids) ==> (ids@.contains(id) <==> exists|release: Release|
            #[trigger]
            releases.items@.contains(Ok((id, release))) && release@.has(cid))),
{
    let items = releases.items@;
    let found = carrying(items, cid);
    law_search_finds_every_carrier(items, cid);
    if let Some(only) = filter {
        let ids = r->Ok_0@;
        assert(ids == seq![only]);
        assert(ids[0] == only);
    } else if let Ok(ids) = r {
        let f = |e: (ReleaseId, Release)| e.0;
        lemma_map_contains(found, f);
        if ids@.contains(id) {
            let e = choose|e: (ReleaseId, Release)| #[trigger] found.contains(e) && f(e) == id;
            let (x, release) = e;
            assert(found.contains((x, release)));
            if !items.contains(Ok((x, release))) {
                assert(false);
            }
        }
        assert forall|release: Release| #[trigger]
            items.contains(Ok((id, release))) && release@.has(cid) implies ids@.contains(id) by {
            assert(found.contains((id, release)));
            assert(f((id, release)) == id);
        }
    }
}

/// `start_step` takes over a control socket that nobody answers only where the user wants
/// that, and never starts a second node.
pub proof fn law_a_socket_is_taken_over_only_on_demand(
    args: Start,
    running: bool,
    socket_exists: bool,
    socket: &str,
    r: Result<StartStep, NodeError>,
)
    requires
        call_ensures(start_step, (&args, running, socket_exists, socket), r),
    ensures
        r == Ok::<StartStep, NodeError>(StartStep::Reclaim) ==> args.force && socket_exists
            && !running,
        r == Ok::<StartStep, NodeError>(StartStep::Spawn) ==> !running && !socket_exists,
        !args.foreground && running ==> r == Ok::<StartStep, NodeError>(StartStep::Running),
        args.foreground ==> r == Ok::<StartStep, NodeError>(StartStep::Foreground),
        r is Err <==> !args.foreground && !running && socket_exists && !args.force,
{
}

/// `unseed_scope` asks the user only where they can be asked and more than one release has
/// the artifact, and then offers every one that does.
pub proof fn law_unseeding_asks_where_there_is_a_choice(
    named: Option<ReleaseId>,
    releases: Releases,
    cid: Cid,
    no_input: bool,
    terminal: bool,
    r: Result<Scope<'_>, NodeError>,
    id: ReleaseId,
    release: Release,
)
    requires
        call_ensures(unseed_scope, (named, &releases, &cid, no_input, terminal), r),
        all_read(releases.items@),
    ensures
        named matches Some(only) ==> r == Ok::<Scope<'_>, NodeError>(Scope::One(only)),
        r matches Ok(Scope::Choose(v)) ==> named is None && !no_input && terminal && v@.len() > 1
            && (releases.items@.contains(Ok((id, release))) && release@.has(cid) ==> exists|k: int|
            0 <= k < v@.len() && (#[trigger] v@[k]).0 == id && *v@[k].1 == release),
        named is None && (no_input || !terminal) && r is Ok ==> r == Ok::<Scope<'_>, NodeError>(
            Scope::All,
        ),
{
    let items = releases.items@;
    let found = carrying(items, cid);
    law_search_finds_every_carrier(items, cid);
    if let Ok(Scope::Choose(v)) = r {
        let t = v@.map_values(|e: (ReleaseId, &Release)| (e.0, *e.1));
        assert(t == found);
        if items.contains(Ok((id, release))) && release@.has(cid) {
            assert(found.contains((id, release)));
            let k = choose|k: int| 0 <= k < t.len() && t[k] == (id, release);
            assert(v@[k].0 == id);
        }
    }
}

} // verus!
