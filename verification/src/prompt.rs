//! What a user is asked, and what the answers mean.

use crate::ids::{Cid, Did, Oid, ReleaseId};
use crate::location::Url;
use crate::order::{law_newest_first_is_a_sorting, newest_first, sort_newest_first, Stamped};
use crate::release::{Artifact, ArtifactView, Release, ReleaseView};
use crate::resolve::ResolvedRef;
use crate::seqs::{lemma_last_splits, lemma_map_contains, lemma_push_has};
use crate::sorted::{in_order, lemma_finite_in_order, SortKey, SortedSet};
use crate::text::{cat, cat3, cat5, decimal, decimal_text, texts};
use vstd::prelude::*;

verus! {

/// How many commits are offered.
pub const PICKER_COMMIT_LIMIT: usize = 30;

/// What can be asked for.
#[derive(Clone, Copy, PartialEq, Eq, Debug, Structural)]
pub enum Question {
    /// A commit and an artifact of it.
    Artifact,
    /// A location.
    Location,
    /// A reason for a redaction.
    Reason,
    /// A name for an artifact.
    Name,
    /// A commit or a tag.
    Commit,
}

/// What is said where a question cannot be asked.
pub open spec fn refusal(q: Question) -> Seq<char> {
    match q {
        Question::Artifact =>
            "interactive mode requires a terminal; pass <commit> and --cid, or use --no-input to disable"@,
        Question::Location =>
            "interactive mode requires a terminal; pass <URL>, or use --no-input to disable"@,
        Question::Reason =>
            "interactive mode requires a terminal; pass -m/--reason, or use --no-input to disable"@,
        Question::Name => "pass -n/--name for non-interactive use"@,
        Question::Commit => "pass --commit <REF> for non-interactive use"@,
    }
}

/// Whether a question can be asked: there has to be a terminal, and the user must not
/// have ruled questions out.
pub fn may_ask(q: Question, no_input: bool, terminal: bool) -> (r: Result<(), String>)
    ensures
        match r {
            Ok(()) => !no_input && terminal,
            Err(e) => (no_input || !terminal) && e@ == refusal(q),
        },
{
    if !no_input && terminal {
        return Ok(());
    }
    Err(
        match q {
            Question::Artifact =>
                "interactive mode requires a terminal; pass <commit> and --cid, or use --no-input to disable".to_owned(),
            Question::Location =>
                "interactive mode requires a terminal; pass <URL>, or use --no-input to disable".to_owned(),
            Question::Reason =>
                "interactive mode requires a terminal; pass -m/--reason, or use --no-input to disable".to_owned(),
            Question::Name => "pass -n/--name for non-interactive use".to_owned(),
            Question::Commit => "pass --commit <REF> for non-interactive use".to_owned(),
        },
    )
}

/// Whether a release can be asked for.
pub fn may_select_release(terminal: bool) -> (r: Result<(), String>)
    ensures
        match r {
            Ok(()) => terminal,
            Err(e) => !terminal && e@
                == "multiple releases exist for this commit; pass --release <id> to disambiguate"@,
        },
{
    if terminal {
        Ok(())
    } else {
        Err(
            "multiple releases exist for this commit; pass --release <id> to disambiguate".to_owned(),
        )
    }
}

/// What is said where the user made no choice, for the reason `cause`.
pub fn cancelled(cause: &str) -> (r: String)
    ensures
        r@ == "selection cancelled: "@ + cause@,
{
    cat("selection cancelled: ", cause)
}

/// The releases of one commit, taken together.
pub struct CommitGroup<'a> {
    pub oid: Oid,
    /// When the first of them was created.
    pub timestamp: u64,
    /// Their artifacts, each once.
    pub artifacts: Vec<(Cid, &'a Artifact)>,
}

/// What a group of releases stands for.
#[verifier::ext_equal]
pub struct GroupView {
    pub oid: Oid,
    pub timestamp: u64,
    pub artifacts: Seq<(Cid, ArtifactView)>,
}

/// What a list of artifacts stands for.
pub open spec fn artifact_list(s: Seq<(Cid, &Artifact)>) -> Seq<(Cid, ArtifactView)> {
    s.map_values(|e: (Cid, &Artifact)| (e.0, e.1@))
}

impl<'a> View for CommitGroup<'a> {
    type V = GroupView;

    open spec fn view(&self) -> GroupView {
        GroupView {
            oid: self.oid,
            timestamp: self.timestamp,
            artifacts: artifact_list(self.artifacts@),
        }
    }
}

/// Whether a list of artifacts has the artifact `cid`.
pub open spec fn lists(s: Seq<(Cid, ArtifactView)>, cid: Cid) -> bool {
    exists|i: int| 0 <= i < s.len() && #[trigger] s[i].0 == cid
}

/// `own`, with those of `more` behind it that it does not have yet.
pub open spec fn with_new(
    own: Seq<(Cid, ArtifactView)>,
    more: Seq<(Cid, ArtifactView)>,
) -> Seq<(Cid, ArtifactView)>
    decreases more.len(),
{
    if more.len() == 0 {
        own
    } else {
        let before = with_new(own, more.drop_last());
        if lists(before, more.last().0) {
            before
        } else {
            before.push(more.last())
        }
    }
}

/// The artifacts of the releases of a commit, each once, as it was first found.
pub open spec fn merged(rs: Seq<ReleaseView>, oid: Oid) -> Seq<(Cid, ArtifactView)>
    decreases rs.len(),
{
    if rs.len() == 0 {
        Seq::empty()
    } else {
        let before = merged(rs.drop_last(), oid);
        if rs.last().oid == oid {
            with_new(before, rs.last().artifacts)
        } else {
            before
        }
    }
}

/// When the first release of a commit was created.
pub open spec fn earliest(rs: Seq<ReleaseView>, oid: Oid) -> u64
    decreases rs.len(),
{
    if rs.len() == 0 {
        u64::MAX
    } else {
        let before = earliest(rs.drop_last(), oid);
        if rs.last().oid == oid && rs.last().timestamp < before {
            rs.last().timestamp
        } else {
            before
        }
    }
}

/// The commits that have releases.
pub open spec fn commits(rs: Seq<ReleaseView>) -> Set<Oid> {
    Set::new(|oid: Oid| exists|i: int| 0 <= i < rs.len() && #[trigger] rs[i].oid == oid)
}

/// The releases of a commit, taken together.
pub open spec fn group_of(rs: Seq<ReleaseView>, oid: Oid) -> GroupView {
    GroupView { oid, timestamp: earliest(rs, oid), artifacts: merged(rs, oid) }
}

/// The releases by commit, the latest commit first, and commits of one time by their ids.
pub open spec fn groups_of(rs: Seq<ReleaseView>) -> Seq<GroupView> {
    let oids = in_order::<Oid>(commits(rs));
    newest_first(oids.map_values(|oid: Oid| earliest(rs, oid))).map_values(
        |s: Stamped| group_of(rs, oids[s.index as int]),
    )
}

/// What releases stand for.
pub open spec fn release_views(all: Seq<&(ReleaseId, Release)>) -> Seq<ReleaseView> {
    all.map_values(|e: &(ReleaseId, Release)| e.1@)
}

fn merge<'a>(own: &mut Vec<(Cid, &'a Artifact)>, release: &'a Release)
    ensures
        artifact_list(final(own)@) == with_new(artifact_list(old(own)@), release@.artifacts),
{
    let ghost start = artifact_list(own@);
    let ghost more = release@.artifacts;
    let mut i: usize = 0;
    proof {
        assert(more.take(0) =~= Seq::empty());
    }
    while i < release.len()
        invariant
            i <= more.len(),
            more == release@.artifacts,
            artifact_list(own@) == with_new(start, more.take(i as int)),
        decreases more.len() - i,
    {
        let (cid, artifact) = release.at(i);
        let ghost here = artifact_list(own@);
        let mut known = false;
        let mut j: usize = 0;
        while j < own.len() && !known
            invariant
                j <= own@.len(),
                here == artifact_list(own@),
                known ==> lists(here, cid),
                !known ==> forall|k: int| 0 <= k < j ==> (#[trigger] own@[k]).0 != cid,
            decreases own@.len() - j,
        {
            if own[j].0 == cid {
                assert(here[j as int].0 == cid);
                known = true;
            }
            j += 1;
        }
        proof {
            assert(more.take(i + 1).drop_last() =~= more.take(i as int));
            if !known {
                assert forall|k: int| 0 <= k < here.len() implies #[trigger] here[k].0 != cid by {
                    assert(own@[k].0 != cid);
                }
            }
        }
        if !known {
            let ghost before = own@;
            own.push((cid, artifact));
            assert(artifact_list(own@) =~= artifact_list(before).push((cid, artifact@)));
        }
        i += 1;
    }
    assert(more.take(i as int) =~= more);
}

fn group<'a>(all: &Vec<&'a (ReleaseId, Release)>, oid: Oid) -> (r: CommitGroup<'a>)
    ensures
        r@ == group_of(release_views(all@), oid),
{
    let ghost rs = release_views(all@);
    let mut timestamp: u64 = u64::MAX;
    let mut artifacts: Vec<(Cid, &'a Artifact)> = Vec::new();
    assert(artifact_list(artifacts@) =~= Seq::<(Cid, ArtifactView)>::empty());
    let mut i: usize = 0;
    while i < all.len()
        invariant
            i <= all@.len(),
            rs == release_views(all@),
            timestamp == earliest(rs.take(i as int), oid),
            artifact_list(artifacts@) == merged(rs.take(i as int), oid),
        decreases all@.len() - i,
    {
        let release = &all[i].1;
        assert(rs.take(i + 1).drop_last() =~= rs.take(i as int));
        assert(rs[i as int] == release@);
        if *release.oid() == oid {
            if release.timestamp() < timestamp {
                timestamp = release.timestamp();
            }
            merge(&mut artifacts, release);
        }
        i += 1;
    }
    assert(rs.take(i as int) =~= rs);
    CommitGroup { oid, timestamp, artifacts }
}

/// The releases by commit, the latest commit first: the user chooses a commit, however
/// many releases it has.
pub fn commit_groups<'a>(all: &Vec<&'a (ReleaseId, Release)>) -> (r: Vec<CommitGroup<'a>>)
    ensures
        r@.map_values(|g: CommitGroup<'a>| g@) == groups_of(release_views(all@)),
{
    let ghost rs = release_views(all@);
    let mut set: SortedSet<Oid> = SortedSet::new();
    let mut i: usize = 0;
    while i < all.len()
        invariant
            i <= all@.len(),
            rs == release_views(all@),
            set@ == commits(rs.take(i as int)),
        decreases all@.len() - i,
    {
        let oid = *all[i].1.oid();
        set.insert(oid);
        proof {
            let before = rs.take(i as int);
            let next = rs.take(i + 1);
            assert(next[i as int].oid == oid);
            assert forall|o: Oid| commits(next).contains(o) <==> commits(before).insert(
                oid,
            ).contains(o) by {
                if commits(next).contains(o) {
                    let k = choose|k: int| 0 <= k < next.len() && #[trigger] next[k].oid == o;
                    if k < i {
                        assert(before[k].oid == o);
                    }
                }
                if commits(before).contains(o) {
                    let k = choose|k: int| 0 <= k < before.len() && #[trigger] before[k].oid == o;
                    assert(next[k].oid == o);
                }
            }
            assert(commits(next) =~= commits(before).insert(oid));
        }
        i += 1;
    }
    assert(rs.take(i as int) =~= rs);
    let oids = set.members();
    let ghost keys = in_order::<Oid>(commits(rs));
    let ghost times_spec = keys.map_values(|oid: Oid| earliest(rs, oid));
    assert(oids@.map_values(|k: &Oid| k@) == keys);
    let mut times: Vec<u64> = Vec::new();
    let mut j: usize = 0;
    while j < oids.len()
        invariant
            j <= oids@.len(),
            rs == release_views(all@),
            oids@.map_values(|k: &Oid| k@) == keys,
            times_spec == keys.map_values(|oid: Oid| earliest(rs, oid)),
            times@ == times_spec.take(j as int),
        decreases oids@.len() - j,
    {
        let g = group(all, *oids[j]);
        assert(oids@.map_values(|k: &Oid| k@)[j as int] == *oids@[j as int]);
        times.push(g.timestamp);
        j += 1;
        assert(times@ =~= times_spec.take(j as int));
    }
    assert(oids@.map_values(|k: &Oid| k@).len() == oids@.len());
    assert(times@ =~= times_spec);
    let order = sort_newest_first(&times);
    let mut out: Vec<CommitGroup<'a>> = Vec::new();
    let mut n: usize = 0;
    while n < order.len()
        invariant
            n <= order@.len(),
            rs == release_views(all@),
            oids@.map_values(|k: &Oid| k@) == keys,
            oids@.len() == times@.len(),
            forall|k: int| 0 <= k < order@.len() ==> (#[trigger] order@[k]).index < times@.len(),
            out@.len() == n,
            forall|k: int|
                0 <= k < n ==> (#[trigger] out@[k])@ == group_of(
                    rs,
                    keys[order@[k].index as int],
                ),
        decreases order@.len() - n,
    {
        let at: usize = order[n].index;
        assert(oids@.map_values(|k: &Oid| k@)[at as int] == *oids@[at as int]);
        out.push(group(all, *oids[at]));
        n += 1;
    }
    assert(out@.map_values(|g: CommitGroup<'a>| g@) =~= groups_of(rs));
    out
}

/// A commit to choose, as it is shown.
pub open spec fn group_label_text(g: GroupView, title: Seq<char>) -> Seq<char> {
    g.oid.short() + " "@ + title + " ("@ + decimal_text(g.artifacts.len()) + " artifact"@ + (
    if g.artifacts.len() == 1 {
        ""@
    } else {
        "s"@
    }) + ")"@
}

/// A commit to choose, as it is shown. `title` is its title, empty where there is none.
pub fn group_label(g: &CommitGroup<'_>, title: &str) -> (r: String)
    ensures
        r@ == group_label_text(g@, title@),
{
    let short = g.oid.to_short();
    let n: usize = g.artifacts.len();
    let count = decimal(n as u64);
    let mut s = cat5(short.as_str(), " ", title, " (", count.as_str());
    s.append(" artifact");
    s.append(if n == 1 { "" } else { "s" });
    s.append(")");
    s
}

/// An artifact to choose, as it is shown.
pub open spec fn artifact_label_text(cid: Cid, a: ArtifactView) -> Seq<char> {
    a.name + " (CID: "@ + cid.text() + ")"@ + (if a.redactions != Map::<Did, Seq<char>>::empty() {
        " [REDACTED]"@
    } else {
        ""@
    })
}

/// The artifacts of a commit to choose, as they are shown, or what is said where there
/// are none.
pub fn artifact_labels(g: &CommitGroup<'_>) -> (r: Result<Vec<String>, String>)
    ensures
        match r {
            Ok(labels) => g@.artifacts.len() > 0 && texts(labels@) == g@.artifacts.map_values(
                |e: (Cid, ArtifactView)| artifact_label_text(e.0, e.1),
            ),
            Err(e) => g@.artifacts.len() == 0 && e@ == "selected release has no artifacts"@,
        },
{
    if g.artifacts.len() == 0 {
        return Err("selected release has no artifacts".to_owned());
    }
    let ghost all = g@.artifacts.map_values(
        |e: (Cid, ArtifactView)| artifact_label_text(e.0, e.1),
    );
    let mut out: Vec<String> = Vec::new();
    let mut i: usize = 0;
    while i < g.artifacts.len()
        invariant
            i <= g.artifacts@.len(),
            all == g@.artifacts.map_values(
                |e: (Cid, ArtifactView)| artifact_label_text(e.0, e.1),
            ),
            texts(out@) == all.take(i as int),
        decreases g.artifacts@.len() - i,
    {
        let (cid, artifact) = g.artifacts[i];
        let ghost before = out@;
        let shown = cid.to_text();
        let redacted = if artifact.is_redacted() { " [REDACTED]" } else { "" };
        out.push(cat5(artifact.name(), " (CID: ", shown.as_str(), ")", redacted));
        assert(texts(out@) =~= texts(before).push(all[i as int]));
        assert(all.take(i + 1) =~= all.take(i as int).push(all[i as int]));
        i += 1;
    }
    assert(all.take(i as int) =~= all);
    Ok(out)
}

/// A tag or a commit to choose.
pub enum Entry {
    /// An annotated tag.
    Tag {
        name: String,
        tag_oid: Oid,
        commit_oid: Oid,
    },
    /// A commit.
    Commit {
        oid: Oid,
    },
}

impl Entry {
    /// The commit that was chosen, and the tag where a tag was.
    pub open spec fn spec_resolved(self) -> ResolvedRef {
        match self {
            Entry::Tag { tag_oid, commit_oid, .. } => ResolvedRef {
                commit: commit_oid,
                tag: Some(tag_oid),
            },
            Entry::Commit { oid } => ResolvedRef { commit: oid, tag: None },
        }
    }

    /// The commit that was chosen, and the tag where a tag was.
    pub fn resolved(&self) -> (r: ResolvedRef)
        ensures
            r == self.spec_resolved(),
    {
        match self {
            Entry::Tag { tag_oid, commit_oid, .. } => ResolvedRef {
                commit: *commit_oid,
                tag: Some(*tag_oid),
            },
            Entry::Commit { oid } => ResolvedRef { commit: *oid, tag: None },
        }
    }

    /// The entry as it is shown.
    pub open spec fn label_text(self, title: Seq<char>) -> Seq<char> {
        match self {
            Entry::Tag { name, commit_oid, .. } => name@ + " -> "@ + commit_oid.short() + "  "@
                + title,
            Entry::Commit { oid } => oid.short() + "  "@ + title,
        }
    }

    /// The entry as it is shown. `title` is the title of the commit, empty where there is
    /// none.
    pub fn label(&self, title: &str) -> (r: String)
        ensures
            r@ == self.label_text(title@),
    {
        match self {
            Entry::Tag { name, commit_oid, .. } => {
                let short = commit_oid.to_short();
                cat5(name.as_str(), " -> ", short.as_str(), "  ", title)
            },
            Entry::Commit { oid } => {
                let short = oid.to_short();
                cat3(short.as_str(), "  ", title)
            },
        }
    }
}

/// An annotated tag of a repository.
pub struct TagInfo {
    /// When its commit was committed, in seconds.
    pub time: i64,
    pub name: String,
    pub tag_oid: Oid,
    pub commit_oid: Oid,
}

/// A time as a number that is not negative, in the same order.
pub open spec fn ranked_time(t: i64) -> u64 {
    (t + 0x8000_0000_0000_0000) as u64
}

fn rank_time(t: i64) -> (r: u64)
    ensures
        r == ranked_time(t),
{
    ((t as i128) + 0x8000_0000_0000_0000i128) as u64
}

/// Whether an entry stands for a tag.
pub open spec fn is_tag(e: Entry, t: TagInfo) -> bool {
    e matches Entry::Tag { name, tag_oid, commit_oid } && name@ == t.name@ && tag_oid == t.tag_oid
        && commit_oid == t.commit_oid
}

/// The places of tags, the latest first.
pub open spec fn tag_order(tags: Seq<TagInfo>) -> Seq<Stamped> {
    newest_first(tags.map_values(|t: TagInfo| ranked_time(t.time)))
}

/// The tags and commits to choose: annotated tags first, the latest first, and then
/// commits in the order of `history`, as many as are offered. What a tag leads to is
/// offered beside it as a commit, so that the user can leave the tag out.
pub fn picker_entries(tags: &Vec<TagInfo>, history: &Vec<Oid>) -> (r: Result<Vec<Entry>, String>)
    ensures
        ({
            let order = tag_order(tags@);
            let shown = if history@.len() < PICKER_COMMIT_LIMIT {
                history@.len()
            } else {
                PICKER_COMMIT_LIMIT as nat
            };
            match r {
                Ok(entries) => {
                    &&& entries@.len() == order.len() + shown
                    &&& entries@.len() > 0
                    &&& forall|i: int|
                        0 <= i < order.len() ==> is_tag(
                            #[trigger] entries@[i],
                            tags@[order[i].index as int],
                        )
                    &&& forall|i: int|
                        order.len() <= i < entries@.len() ==> #[trigger] entries@[i]
                            == (Entry::Commit { oid: history@[i - order.len()] })
                },
                Err(e) => order.len() + shown == 0 && e@
                    == "no commits or annotated tags found in this repository"@,
            }
        }),
{
    let ghost order_spec = tag_order(tags@);
    let mut times: Vec<u64> = Vec::new();
    let mut i: usize = 0;
    while i < tags.len()
        invariant
            i <= tags@.len(),
            times@ == tags@.map_values(|t: TagInfo| ranked_time(t.time)).take(i as int),
        decreases tags@.len() - i,
    {
        times.push(rank_time(tags[i].time));
        i += 1;
        assert(times@ =~= tags@.map_values(|t: TagInfo| ranked_time(t.time)).take(i as int));
    }
    assert(times@ =~= tags@.map_values(|t: TagInfo| ranked_time(t.time)));
    let order = sort_newest_first(&times);
    let mut entries: Vec<Entry> = Vec::new();
    let mut j: usize = 0;
    while j < order.len()
        invariant
            j <= order@.len(),
            order@ == order_spec,
            times@.len() == tags@.len(),
            forall|k: int| 0 <= k < order@.len() ==> (#[trigger] order@[k]).index < times@.len(),
            entries@.len() == j,
            forall|k: int|
                0 <= k < j ==> is_tag(#[trigger] entries@[k], tags@[order_spec[k].index as int]),
        decreases order@.len() - j,
    {
        let tag = &tags[order[j].index];
        entries.push(
            Entry::Tag {
                name: tag.name.as_str().to_owned(),
                tag_oid: tag.tag_oid,
                commit_oid: tag.commit_oid,
            },
        );
        j += 1;
    }
    let mut n: usize = 0;
    while n < history.len() && n < PICKER_COMMIT_LIMIT
        invariant
            n <= history@.len(),
            n <= PICKER_COMMIT_LIMIT,
            entries@.len() == order_spec.len() + n,
            forall|k: int|
                0 <= k < order_spec.len() ==> is_tag(
                    #[trigger] entries@[k],
                    tags@[order_spec[k].index as int],
                ),
            forall|k: int|
                order_spec.len() <= k < entries@.len() ==> #[trigger] entries@[k]
                    == (Entry::Commit { oid: history@[k - order_spec.len()] }),
        decreases history@.len() - n,
    {
        entries.push(Entry::Commit { oid: history[n] });
        n += 1;
    }
    if entries.len() == 0 {
        Err("no commits or annotated tags found in this repository".to_owned())
    } else {
        Ok(entries)
    }
}

/// What is offered beside the releases where a new one can be created for a tag.
pub fn create_label(tag: &Oid) -> (r: String)
    ensures
        r@ == "Create new release (tag "@ + tag.short() + ")"@,
{
    let short = tag.to_short();
    cat3("Create new release (tag ", short.as_str(), ")")
}

/// The question how to register a directory.
pub fn dir_question(dir: &str) -> (r: String)
    ensures
        r@ == "Register "@ + dir@ + " as:"@,
{
    cat3("Register ", dir, " as:")
}

/// The locations to choose, as they are shown, or what is said where there are none.
pub fn location_labels(urls: &Vec<&Url>) -> (r: Result<Vec<String>, String>)
    ensures
        match r {
            Ok(labels) => urls@.len() > 0 && texts(labels@) == urls@.map_values(|u: &Url| u@),
            Err(e) => urls@.len() == 0 && e@ == "no locations added by you for this artifact"@,
        },
{
    if urls.len() == 0 {
        return Err("no locations added by you for this artifact".to_owned());
    }
    let mut out: Vec<String> = Vec::new();
    let mut i: usize = 0;
    while i < urls.len()
        invariant
            i <= urls@.len(),
            texts(out@) == urls@.map_values(|u: &Url| u@).take(i as int),
        decreases urls@.len() - i,
    {
        let ghost before = out@;
        out.push(urls[i].as_str().to_owned());
        assert(texts(out@) =~= texts(before).push(urls@[i as int]@));
        i += 1;
    }
    assert(texts(out@) =~= urls@.map_values(|u: &Url| u@));
    Ok(out)
}

/// What one release more adds to the artifacts of a commit.
proof fn lemma_with_new(own: Seq<(Cid, ArtifactView)>, more: Seq<(Cid, ArtifactView)>)
    requires
        forall|i: int, j: int| 0 <= i < j < own.len() ==> #[trigger] own[i].0 != #[trigger] own[j].0,
    ensures
        ({
            let all = with_new(own, more);
            &&& forall|i: int, j: int|
                0 <= i < j < all.len() ==> #[trigger] all[i].0 != #[trigger] all[j].0
            &&& forall|cid: Cid| #[trigger]
                lists(all, cid) <==> lists(own, cid) || lists(more, cid)
            &&& forall|e: (Cid, ArtifactView)| #[trigger] own.contains(e) ==> all.contains(e)
            &&& forall|e: (Cid, ArtifactView)| #[trigger]
                all.contains(e) ==> own.contains(e) || (more.contains(e) && !lists(own, e.0))
        }),
    decreases more.len(),
{
    if more.len() > 0 {
        let rest = more.drop_last();
        let last = more.last();
        lemma_with_new(own, rest);
        let before = with_new(own, rest);
        let all = with_new(own, more);
        lemma_last_splits(more);
        assert forall|cid: Cid| #[trigger]
            lists(more, cid) <==> lists(rest, cid) || last.0 == cid by {
            if lists(rest, cid) {
                let i = choose|i: int| 0 <= i < rest.len() && #[trigger] rest[i].0 == cid;
                assert(more[i].0 == cid);
            }
            if last.0 == cid {
                assert(more[more.len() - 1].0 == cid);
            }
            if lists(more, cid) {
                let i = choose|i: int| 0 <= i < more.len() && #[trigger] more[i].0 == cid;
                if i < rest.len() {
                    assert(rest[i].0 == cid);
                }
            }
        }
        if !lists(before, last.0) {
            assert(all == before.push(last));
            assert forall|e: (Cid, ArtifactView)| #[trigger]
                all.contains(e) <==> before.contains(e) || e == last by {
                lemma_push_has(before, last, e);
            }
            assert forall|cid: Cid| #[trigger]
                lists(all, cid) <==> lists(before, cid) || last.0 == cid by {
                if lists(before, cid) {
                    let i = choose|i: int| 0 <= i < before.len() && #[trigger] before[i].0 == cid;
                    assert(all[i].0 == cid);
                }
                if last.0 == cid {
                    assert(all[before.len() as int].0 == cid);
                }
                if lists(all, cid) {
                    let i = choose|i: int| 0 <= i < all.len() && #[trigger] all[i].0 == cid;
                    if i < before.len() {
                        assert(before[i].0 == cid);
                    }
                }
            }
            assert(!lists(own, last.0)) by {
                if lists(own, last.0) {
                    assert(lists(before, last.0));
                }
            }
            assert forall|i: int, j: int| 0 <= i < j < all.len() implies #[trigger] all[i].0
                != #[trigger] all[j].0 by {
                assert(before[i] == all[i]);
                if j == before.len() && all[i].0 == last.0 {
                    assert(before[i].0 == last.0);
                }
            }
        }
        assert forall|e: (Cid, ArtifactView)| #[trigger] own.contains(e) implies all.contains(
            e,
        ) by {
            assert(before.contains(e));
        }
    }
}

/// A commit is offered with every artifact of every release of it, each once; where more
/// than one release has an artifact it is as the first of them has it.
pub proof fn law_a_commit_has_the_artifacts_of_its_releases(
    rs: Seq<ReleaseView>,
    oid: Oid,
    cid: Cid,
)
    ensures
        forall|i: int, j: int|
            0 <= i < j < merged(rs, oid).len() ==> #[trigger] merged(rs, oid)[i].0
                != #[trigger] merged(rs, oid)[j].0,
        (exists|k: int| 0 <= k < merged(rs, oid).len() && #[trigger] merged(rs, oid)[k].0 == cid)
            <==> exists|i: int|
            0 <= i < rs.len() && (#[trigger] rs[i]).oid == oid && rs[i].has(cid),
        forall|a: ArtifactView| #[trigger]
            merged(rs, oid).contains((cid, a)) ==> exists|i: int|
                {
                    &&& 0 <= i < rs.len()
                    &&& (#[trigger] rs[i]).oid == oid
                    &&& rs[i].artifacts.contains((cid, a))
                    &&& forall|j: int|
                        0 <= j < i && (#[trigger] rs[j]).oid == oid ==> !rs[j].has(cid)
                },
    decreases rs.len(),
{
    if rs.len() > 0 {
        let rest = rs.drop_last();
        let n = rs.len() - 1;
        let last = rs[n];
        law_a_commit_has_the_artifacts_of_its_releases(rest, oid, cid);
        let before = merged(rest, oid);
        let all = merged(rs, oid);
        assert forall|i: int| 0 <= i < n implies #[trigger] rest[i] == rs[i] by {}
        if last.oid == oid {
            lemma_with_new(before, last.artifacts);
            assert(lists(last.artifacts, cid) <==> last.has(cid));
            assert(lists(all, cid) <==> lists(before, cid) || last.has(cid));
        }
        if exists|i: int| 0 <= i < rs.len() && (#[trigger] rs[i]).oid == oid && rs[i].has(cid) {
            let i = choose|i: int|
                0 <= i < rs.len() && (#[trigger] rs[i]).oid == oid && rs[i].has(cid);
            if i < n {
                assert(rest[i].oid == oid && rest[i].has(cid));
                assert(lists(before, cid));
            }
            assert(lists(all, cid));
        }
        if lists(before, cid) {
            let i = choose|i: int|
                0 <= i < rest.len() && (#[trigger] rest[i]).oid == oid && rest[i].has(cid);
            assert(rs[i].oid == oid && rs[i].has(cid));
        }
        assert forall|a: ArtifactView| #[trigger] all.contains((cid, a)) implies exists|i: int|
            {
                &&& 0 <= i < rs.len()
                &&& (#[trigger] rs[i]).oid == oid
                &&& rs[i].artifacts.contains((cid, a))
                &&& forall|j: int|
                    0 <= j < i && (#[trigger] rs[j]).oid == oid ==> !rs[j].has(cid)
            } by {
            if before.contains((cid, a)) {
                let i = choose|i: int|
                    {
                        &&& 0 <= i < rest.len()
                        &&& (#[trigger] rest[i]).oid == oid
                        &&& rest[i].artifacts.contains((cid, a))
                        &&& forall|j: int|
                            0 <= j < i && (#[trigger] rest[j]).oid == oid ==> !rest[j].has(cid)
                    };
                assert(rs[i].oid == oid);
                assert forall|j: int| 0 <= j < i && (#[trigger] rs[j]).oid == oid implies !rs[j].has(
                    cid,
                ) by {
                    assert(rest[j].oid == oid);
                }
            } else {
                assert(last.artifacts.contains((cid, a)) && !lists(before, cid));
                assert forall|j: int| 0 <= j < n && (#[trigger] rs[j]).oid == oid implies !rs[j].has(
                    cid,
                ) by {
                    if rs[j].has(cid) {
                        assert(rest[j].oid == oid && rest[j].has(cid));
                        assert(lists(before, cid));
                    }
                }
                assert(rs[n].oid == oid);
            }
        }
    }
}

/// A commit is as old as the first release of it.
pub proof fn law_a_commit_is_as_old_as_its_first_release(rs: Seq<ReleaseView>, oid: Oid)
    ensures
        forall|i: int|
            0 <= i < rs.len() && (#[trigger] rs[i]).oid == oid ==> earliest(rs, oid)
                <= rs[i].timestamp,
        (exists|i: int| 0 <= i < rs.len() && (#[trigger] rs[i]).oid == oid) ==> exists|i: int|
            0 <= i < rs.len() && (#[trigger] rs[i]).oid == oid && rs[i].timestamp == earliest(
                rs,
                oid,
            ),
    decreases rs.len(),
{
    if rs.len() > 0 {
        let rest = rs.drop_last();
        let n = rs.len() - 1;
        law_a_commit_is_as_old_as_its_first_release(rest, oid);
        assert forall|i: int| 0 <= i < n implies #[trigger] rest[i] == rs[i] by {}
        assert forall|i: int| 0 <= i < rs.len() && (#[trigger] rs[i]).oid == oid implies earliest(
            rs,
            oid,
        ) <= rs[i].timestamp by {
            if i < n {
                assert(rest[i].oid == oid);
            }
        }
        if exists|i: int| 0 <= i < rest.len() && (#[trigger] rest[i]).oid == oid {
            let i = choose|i: int|
                0 <= i < rest.len() && (#[trigger] rest[i]).oid == oid && rest[i].timestamp
                    == earliest(rest, oid);
            assert(rs[i].oid == oid && rs[i].timestamp == earliest(rest, oid));
            if rs[n].oid == oid && rs[n].timestamp < earliest(rest, oid) {
                assert(rs[n].timestamp == earliest(rs, oid));
            }
        } else if rs[n].oid == oid {
            lemma_earliest_of_none(rest, oid);
            assert(rs[n].timestamp == earliest(rs, oid));
        } else if exists|i: int| 0 <= i < rs.len() && (#[trigger] rs[i]).oid == oid {
            let i = choose|i: int| 0 <= i < rs.len() && (#[trigger] rs[i]).oid == oid;
            assert(rest[i].oid == oid);
        }
    }
}

proof fn lemma_earliest_of_none(rs: Seq<ReleaseView>, oid: Oid)
    requires
        forall|i: int| 0 <= i < rs.len() ==> (#[trigger] rs[i]).oid != oid,
    ensures
        earliest(rs, oid) == u64::MAX,
    decreases rs.len(),
{
    if rs.len() > 0 {
        assert forall|i: int| 0 <= i < rs.len() - 1 implies (
        #[trigger] rs.drop_last()[i]).oid != oid by {
            assert(rs[i].oid != oid);
        }
        lemma_earliest_of_none(rs.drop_last(), oid);
        assert(rs[rs.len() - 1].oid != oid);
    }
}

proof fn lemma_commits(rs: Seq<ReleaseView>)
    ensures
        commits(rs).finite(),
        commits(rs).len() <= rs.len(),
    decreases rs.len(),
{
    if rs.len() == 0 {
        assert(commits(rs) =~= Set::empty());
    } else {
        let rest = rs.drop_last();
        lemma_commits(rest);
        assert(commits(rs) =~= commits(rest).insert(rs.last().oid)) by {
            assert forall|oid: Oid| commits(rs).contains(oid) <==> commits(rest).insert(
                rs.last().oid,
            ).contains(oid) by {
                if commits(rest).contains(oid) {
                    let i = choose|i: int| 0 <= i < rest.len() && #[trigger] rest[i].oid == oid;
                    assert(rs[i].oid == oid);
                }
                if oid == rs.last().oid {
                    assert(rs[rs.len() - 1].oid == oid);
                }
                if commits(rs).contains(oid) {
                    let i = choose|i: int| 0 <= i < rs.len() && #[trigger] rs[i].oid == oid;
                    if i < rest.len() {
                        assert(rest[i].oid == oid);
                    }
                }
            }
        }
    }
}

/// Every commit that has a release is offered once, and no other; the latest comes first,
/// by the time of its first release.
pub proof fn law_every_commit_is_offered_once(rs: Seq<ReleaseView>, g: GroupView)
    requires
        rs.len() <= usize::MAX,
    ensures
        ({
            let all = groups_of(rs);
            &&& all.contains(g) <==> g == group_of(rs, g.oid) && exists|i: int|
                0 <= i < rs.len() && (#[trigger] rs[i]).oid == g.oid
            &&& forall|i: int, j: int|
                0 <= i < j < all.len() ==> (#[trigger] all[i]).oid != (#[trigger] all[j]).oid
                    && all[i].timestamp >= all[j].timestamp
        }),
{
    let oids = in_order::<Oid>(commits(rs));
    let times = oids.map_values(|oid: Oid| earliest(rs, oid));
    let order = newest_first(times);
    let f = |s: Stamped| group_of(rs, oids[s.index as int]);
    let all = groups_of(rs);
    lemma_commits(rs);
    lemma_finite_in_order::<Oid>(commits(rs));
    assert forall|i: int, j: int| 0 <= i < j < oids.len() implies #[trigger] oids[i]
        != #[trigger] oids[j] by {
        assert(Oid::lt(oids[i], oids[j]));
        Oid::lt_irreflexive(oids[i]);
    }
    assert(oids.no_duplicates());
    oids.unique_seq_to_set();
    assert(oids.to_set() =~= commits(rs));
    law_newest_first_is_a_sorting(times);
    lemma_map_contains(order, f);
    assert(all == order.map_values(f));
    if all.contains(g) {
        let s = choose|s: Stamped| #[trigger] order.contains(s) && f(s) == g;
        assert(oids.contains(oids[s.index as int]));
        assert(commits(rs).contains(g.oid));
    }
    if g == group_of(rs, g.oid) && exists|i: int|
        0 <= i < rs.len() && (#[trigger] rs[i]).oid == g.oid {
        assert(commits(rs).contains(g.oid));
        assert(oids.contains(g.oid));
        let n = choose|n: int| 0 <= n < oids.len() && oids[n] == g.oid;
        let s = Stamped { timestamp: times[n], index: n as usize };
        assert(order.contains(s));
        assert(f(s) == g);
    }
    assert forall|i: int, j: int| 0 <= i < j < all.len() implies (#[trigger] all[i]).oid != (
    #[trigger] all[j]).oid && all[i].timestamp >= all[j].timestamp by {
        assert(order.contains(order[i]) && order.contains(order[j]));
        assert(order[i].index != order[j].index);
        let (x, y) = (order[i].index as int, order[j].index as int);
        if x < y {
            assert(oids[x] != oids[y]);
        } else {
            assert(oids[y] != oids[x]);
        }
    }
}

/// The tags that are offered are all tags, each once, and no tag stands behind an older one.
pub proof fn law_every_tag_is_offered_once(tags: Seq<TagInfo>, k: int)
    requires
        0 <= k < tags.len() <= usize::MAX,
    ensures
        exists|i: int| 0 <= i < tag_order(tags).len() && (#[trigger] tag_order(tags)[i]).index == k,
        forall|i: int|
            0 <= i < tag_order(tags).len() ==> (#[trigger] tag_order(tags)[i]).index < tags.len(),
        forall|i: int, j: int|
            0 <= i < j < tag_order(tags).len() ==> (#[trigger] tag_order(tags)[i]).index != (
            #[trigger] tag_order(tags)[j]).index && tags[tag_order(tags)[i].index as int].time
                >= tags[tag_order(tags)[j].index as int].time,
{
    let times = tags.map_values(|t: TagInfo| ranked_time(t.time));
    let order = tag_order(tags);
    law_newest_first_is_a_sorting(times);
    let s = Stamped { timestamp: times[k], index: k as usize };
    assert(order.contains(s));
    let i = choose|i: int| 0 <= i < order.len() && order[i] == s;
    assert(order[i].index == k);
    assert forall|i: int| 0 <= i < order.len() implies (#[trigger] order[i]).index
        < tags.len() by {
        assert(order.contains(order[i]));
    }
    assert forall|i: int, j: int| 0 <= i < j < order.len() implies (#[trigger] order[i]).index != (
    #[trigger] order[j]).index && tags[order[i].index as int].time
        >= tags[order[j].index as int].time by {
        assert(order.contains(order[i]) && order.contains(order[j]));
        let (a, b) = (tags[order[i].index as int].time, tags[order[j].index as int].time);
        assert(order[i].timestamp == ranked_time(a) && order[j].timestamp == ranked_time(b));
        assert(ranked_time(a) == a + 0x8000_0000_0000_0000);
        assert(ranked_time(b) == b + 0x8000_0000_0000_0000);
    }
}

/// `commit_groups` offers every commit that has a release once, the latest first, with every
/// artifact of every release of it.
pub proof fn law_commit_groups_offer_everything(
    all: Vec<&(ReleaseId, Release)>,
    r: Vec<CommitGroup<'_>>,
    i: int,
    cid: Cid,
)
    requires
        call_ensures(commit_groups, (&all,), r),
        0 <= i < all@.len() <= usize::MAX,
    ensures
        exists|k: int|
            {
                &&& 0 <= k < r@.len()
                &&& (#[trigger] r@[k]).oid == all@[i].1@.oid
                &&& r@[k].timestamp <= all@[i].1@.timestamp
                &&& all@[i].1@.has(cid) ==> exists|n: int|
                    0 <= n < r@[k].artifacts@.len() && (#[trigger] r@[k].artifacts@[n]).0 == cid
            },
        forall|k: int, l: int|
            0 <= k < l < r@.len() ==> (#[trigger] r@[k]).oid != (#[trigger] r@[l]).oid
                && r@[k].timestamp >= r@[l].timestamp,
{
    let rs = release_views(all@);
    let oid = all@[i].1@.oid;
    let g = group_of(rs, oid);
    let out = groups_of(rs);
    assert(rs[i] == all@[i].1@);
    assert(rs[i].oid == oid);
    law_every_commit_is_offered_once(rs, g);
    law_a_commit_is_as_old_as_its_first_release(rs, oid);
    law_a_commit_has_the_artifacts_of_its_releases(rs, oid, cid);
    let k = choose|k: int| 0 <= k < out.len() && out[k] == g;
    let t = r@.map_values(|g: CommitGroup<'_>| g@);
    assert(t[k] == g);
    assert(r@[k]@ == g);
    assert(r@[k].oid == oid);
    if all@[i].1@.has(cid) {
        let n = choose|n: int|
            0 <= n < merged(rs, oid).len() && #[trigger] merged(rs, oid)[n].0 == cid;
        let own = artifact_list(r@[k].artifacts@);
        assert(own == merged(rs, oid));
        assert(own[n].0 == cid);
        assert(r@[k].artifacts@[n].0 == cid);
    }
    assert forall|k: int, l: int| 0 <= k < l < r@.len() implies (#[trigger] r@[k]).oid != (
    #[trigger] r@[l]).oid && r@[k].timestamp >= r@[l].timestamp by {
        assert(out[k].oid != out[l].oid && out[k].timestamp >= out[l].timestamp);
        assert(t[k] == out[k] && t[l] == out[l]);
        assert(r@[k]@ == out[k] && r@[l]@ == out[l]);
    }
}

/// `may_ask` asks exactly where there is a terminal and the user did not rule questions out.
pub proof fn law_questions_need_a_terminal(
    q: Question,
    no_input: bool,
    terminal: bool,
    r: Result<(), String>,
)
    requires
        call_ensures(may_ask, (q, no_input, terminal), r),
    ensures
        r is Ok <==> terminal && !no_input,
        r matches Err(e) ==> e@ == refusal(q),
{
}

/// `picker_entries` offers every tag once, the latest first, and behind them the commits of
/// the history in their order, as many as thirty.
pub proof fn law_tags_are_offered_before_commits(
    tags: Vec<TagInfo>,
    history: Vec<Oid>,
    r: Result<Vec<Entry>, String>,
    k: int,
)
    requires
        call_ensures(picker_entries, (&tags, &history), r),
        tags@.len() <= usize::MAX,
    ensures
        r is Err <==> tag_order(tags@).len() == 0 && history@.len() == 0,
        r matches Ok(entries) ==> {
            let n = tag_order(tags@).len();
            &&& 0 <= k < history@.len() && k < 30 ==> n + k < entries@.len() && entries@[n + k]
                == (Entry::Commit { oid: history@[k] })
            &&& entries@.len() <= n + 30
            &&& 0 <= k < tags@.len() ==> exists|i: int|
                0 <= i < n && (#[trigger] entries@[i] matches Entry::Tag { name, tag_oid, commit_oid }
                    && name@ == tags@[k].name@ && tag_oid == tags@[k].tag_oid && commit_oid
                    == tags@[k].commit_oid)
        },
{
    if let Ok(entries) = r {
        let order = tag_order(tags@);
        if 0 <= k < tags@.len() {
            law_every_tag_is_offered_once(tags@, k);
            let i = choose|i: int|
                0 <= i < tag_order(tags@).len() && (#[trigger] tag_order(tags@)[i]).index == k;
            assert(is_tag(entries@[i], tags@[order[i].index as int]));
        }
    }
}

/// What was chosen is the commit that the entry shows, with the tag where the entry is one.
pub proof fn law_a_chosen_tag_is_kept(e: Entry, r: ResolvedRef)
    requires
        call_ensures(Entry::resolved, (&e,), r),
    ensures
        e matches Entry::Tag { tag_oid, commit_oid, .. } ==> r.commit == commit_oid && r.tag == Some(
            tag_oid,
        ),
        e matches Entry::Commit { oid } ==> r.commit == oid && r.tag is None,
{
}

} // verus!
