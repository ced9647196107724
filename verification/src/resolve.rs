//! Finding the release that a command is about.

use crate::display::{alias_of, aliases_view, did_shown, format_did, resolve};
use crate::ids::{Cid, Did, Oid, ReleaseId};
use crate::release::{Release, ReleaseView};
use crate::seqs::{lemma_filter_contains, lemma_filter_empty, lemma_filter_step, lemma_map_contains};
use crate::sorted::{SortedMap, SortedSet};
use crate::store::{all_read, law_search_by_commit_is_complete, of_commit, Loaded, Releases};
use crate::text::{cat, cat3, cat5, join, joined, texts};
use crate::trust::trusted;
use vstd::prelude::*;

verus! {

/// Why no release was found.
pub enum Find {
    /// The commit has none.
    NoRelease(Oid),
    /// The commit has more than one; this lists them.
    Ambiguous {
        oid: Oid,
        candidates: String,
    },
    /// The releases of the commit could not be read.
    Lookup {
        oid: Oid,
        err: String,
    },
    /// There is no release with the id.
    NoReleaseId(ReleaseId),
    /// The release with the id could not be read.
    LookupId {
        release_id: ReleaseId,
        err: String,
    },
    /// The user made no choice.
    Picker(String),
}

impl Find {
    /// The error as text.
    pub open spec fn text(self) -> Seq<char> {
        match self {
            Find::NoRelease(oid) => "no release was found for the commit "@ + oid.text(),
            Find::Ambiguous { oid, candidates } => "multiple releases found for the commit "@
                + oid.text() + ", pass --release <id>"@ + candidates@,
            Find::Lookup { oid, .. } => "failed to find a release for the commit "@ + oid.text(),
            Find::NoReleaseId(id) => "no release found with id "@ + id.text(),
            Find::LookupId { release_id, .. } => "failed to look up release "@ + release_id.text(),
            Find::Picker(s) => s@,
        }
    }

    /// The error as text.
    pub fn message(&self) -> (r: String)
        ensures
            r@ == self.text(),
    {
        match self {
            Find::NoRelease(oid) => {
                let shown = oid.to_text();
                cat("no release was found for the commit ", shown.as_str())
            },
            Find::Ambiguous { oid, candidates } => {
                let shown = oid.to_text();
                let head = cat("multiple releases found for the commit ", shown.as_str());
                cat3(head.as_str(), ", pass --release <id>", candidates.as_str())
            },
            Find::Lookup { oid, .. } => {
                let shown = oid.to_text();
                cat("failed to find a release for the commit ", shown.as_str())
            },
            Find::NoReleaseId(id) => {
                let shown = id.to_text();
                cat("no release found with id ", shown.as_str())
            },
            Find::LookupId { release_id, .. } => {
                let shown = release_id.to_text();
                cat("failed to look up release ", shown.as_str())
            },
            Find::Picker(s) => s.as_str().to_owned(),
        }
    }
}

/// A commit, and the annotated tag by which the user named it, if they did.
#[derive(Clone, Copy, PartialEq, Eq, Debug, Structural)]
pub struct ResolvedRef {
    pub commit: Oid,
    pub tag: Option<Oid>,
}

/// Whether a release is shown: it was created by a delegate or by the local user, or
/// `all_authors` is given.
pub fn release_visible(
    release: &Release,
    delegates: &SortedSet<Did>,
    local: &Did,
    all_authors: bool,
) -> (r: bool)
    ensures
        r == trusted(release@.creator, delegates@, *local, all_authors),
{
    all_authors || delegates.contains(release.creator()) || *release.creator() == *local
}

/// What a list of releases stands for.
pub open spec fn listed(s: Seq<(ReleaseId, &Release)>) -> Seq<(ReleaseId, ReleaseView)> {
    s.map_values(|e: (ReleaseId, &Release)| (e.0, e.1@))
}

/// What releases that were read stand for.
pub open spec fn read_releases(s: Seq<Loaded>) -> Seq<(ReleaseId, ReleaseView)> {
    s.map_values(|l: Loaded| (l->Ok_0.0, l->Ok_0.1@))
}

/// Whether `e` is what kept the first unreadable one of `s` from being read.
pub open spec fn first_error(s: Seq<Loaded>, e: Seq<char>) -> bool {
    exists|i: int|
        0 <= i < s.len() && (#[trigger] s[i]) is Err && s[i]->Err_0@ == e && all_read(s.take(i))
}

/// The releases of the commit `oid`.
pub fn collect_candidates<'a>(releases: &'a Releases, oid: Oid) -> (r: Result<
    Vec<(ReleaseId, &'a Release)>,
    Find,
>)
    ensures
        ({
            let found = of_commit(releases.items@, oid);
            match r {
                Ok(v) => all_read(found) && listed(v@) == read_releases(found),
                Err(Find::Lookup { oid: o, err }) => o == oid && first_error(found, err@),
                Err(_) => false,
            }
        }),
{
    let found = releases.find_by_commit(oid);
    let ghost all = of_commit(releases.items@, oid);
    let mut out: Vec<(ReleaseId, &'a Release)> = Vec::new();
    let mut i: usize = 0;
    while i < found.len()
        invariant
            i <= found@.len(),
            found@.map_values(|e: &Loaded| *e) == all,
            all == of_commit(releases.items@, oid),
            all_read(all.take(i as int)),
            listed(out@) == read_releases(all.take(i as int)),
        decreases found@.len() - i,
    {
        assert(*found@[i as int] == all[i as int]);
        match found[i] {
            Err(err) => {
                assert(all[i as int] is Err);
                return Err(Find::Lookup { oid, err: err.as_str().to_owned() });
            },
            Ok((id, release)) => {
                let ghost before = out@;
                out.push((*id, release));
                proof {
                    let next = all.take(i + 1);
                    assert forall|j: int| 0 <= j < next.len() implies (#[trigger] next[j]) is Ok by {
                        if j < i {
                            assert(all.take(i as int)[j] is Ok);
                        }
                    }
                    assert(listed(out@) =~= listed(before).push((*id, release@)));
                    assert(read_releases(next) =~= read_releases(all.take(i as int)).push(
                        (*id, release@),
                    ));
                }
            },
        }
        i += 1;
    }
    proof {
        assert(found@.map_values(|e: &Loaded| *e).len() == found@.len());
        assert(all.take(i as int) =~= all);
    }
    Ok(out)
}

/// The releases of a list that are shown.
pub open spec fn visible_ones(
    s: Seq<(ReleaseId, ReleaseView)>,
    delegates: Set<Did>,
    local: Did,
    all_authors: bool,
) -> Seq<(ReleaseId, ReleaseView)> {
    s.filter(|e: (ReleaseId, ReleaseView)| trusted(e.1.creator, delegates, local, all_authors))
}

/// The releases of a list that are shown.
pub fn keep_visible<'a>(
    all: &Vec<(ReleaseId, &'a Release)>,
    delegates: &SortedSet<Did>,
    local: &Did,
    all_authors: bool,
) -> (r: Vec<(ReleaseId, &'a Release)>)
    ensures
        listed(r@) == visible_ones(listed(all@), delegates@, *local, all_authors),
{
    let ghost views = listed(all@);
    let ghost keep = |e: (ReleaseId, ReleaseView)|
        trusted(e.1.creator, delegates@, *local, all_authors);
    let mut out: Vec<(ReleaseId, &'a Release)> = Vec::new();
    proof {
        lemma_filter_empty(views, keep);
    }
    let mut i: usize = 0;
    while i < all.len()
        invariant
            i <= all@.len(),
            views == listed(all@),
            keep == (|e: (ReleaseId, ReleaseView)|
                trusted(e.1.creator, delegates@, *local, all_authors)),
            listed(out@) == views.take(i as int).filter(keep),
        decreases all@.len() - i,
    {
        let (id, release) = all[i];
        proof {
            lemma_filter_step(views, i as int, keep);
        }
        let ghost before = out@;
        if release_visible(release, delegates, local, all_authors) {
            out.push((id, release));
            assert(listed(out@) =~= listed(before).push((id, release@)));
        }
        i += 1;
    }
    assert(views.take(i as int) =~= views);
    out
}

/// The releases of a list that have the artifact `cid`.
pub fn keep_carrying<'a>(all: &Vec<(ReleaseId, &'a Release)>, cid: &Cid) -> (r: Vec<
    (ReleaseId, &'a Release),
>)
    ensures
        listed(r@) == listed(all@).filter(|e: (ReleaseId, ReleaseView)| e.1.has(*cid)),
{
    let ghost views = listed(all@);
    let ghost keep = |e: (ReleaseId, ReleaseView)| e.1.has(*cid);
    let mut out: Vec<(ReleaseId, &'a Release)> = Vec::new();
    proof {
        lemma_filter_empty(views, keep);
    }
    let mut i: usize = 0;
    while i < all.len()
        invariant
            i <= all@.len(),
            views == listed(all@),
            keep == (|e: (ReleaseId, ReleaseView)| e.1.has(*cid)),
            listed(out@) == views.take(i as int).filter(keep),
        decreases all@.len() - i,
    {
        let (id, release) = all[i];
        proof {
            lemma_filter_step(views, i as int, keep);
        }
        let ghost before = out@;
        if release.artifact(cid).is_some() {
            out.push((id, release));
            assert(listed(out@) =~= listed(before).push((id, release@)));
        }
        i += 1;
    }
    assert(views.take(i as int) =~= views);
    out
}

/// What is to be done to get to one release.
pub enum Resolution<'a> {
    /// It is this one.
    Found(ReleaseId),
    /// The user has to choose.
    Choose(Vec<(ReleaseId, &'a Release)>),
    /// There is more than one, and the user cannot be asked.
    Undecided(Vec<(ReleaseId, &'a Release)>),
}

/// A release that the user named by its id, and whether there is one; or why that could
/// not be told.
pub struct Named {
    pub id: ReleaseId,
    pub lookup: Result<bool, String>,
}

/// The release that the user named.
pub fn named_release(named: Named) -> (r: Result<ReleaseId, Find>)
    ensures
        match named.lookup {
            Ok(true) => r == Ok::<ReleaseId, Find>(named.id),
            Ok(false) => r == Err::<ReleaseId, Find>(Find::NoReleaseId(named.id)),
            Err(err) => r == Err::<ReleaseId, Find>(
                Find::LookupId { release_id: named.id, err },
            ),
        },
{
    match named.lookup {
        Ok(there) => {
            if there {
                Ok(named.id)
            } else {
                Err(Find::NoReleaseId(named.id))
            }
        },
        Err(err) => Err(Find::LookupId { release_id: named.id, err }),
    }
}

/// The releases of the commit that a command may be about.
pub open spec fn eligible(
    items: Seq<Loaded>,
    oid: Oid,
    delegates: Set<Did>,
    local: Did,
    all_authors: bool,
) -> Seq<(ReleaseId, ReleaseView)> {
    visible_ones(read_releases(of_commit(items, oid)), delegates, local, all_authors)
}

/// Whether an outcome is the right one for the candidates: the only one, or a choice.
pub open spec fn settles(
    r: Result<Resolution<'_>, Find>,
    oid: Oid,
    candidates: Seq<(ReleaseId, ReleaseView)>,
    no_input: bool,
) -> bool {
    match r {
        Ok(Resolution::Found(id)) => candidates.len() == 1 && candidates[0].0 == id,
        Ok(Resolution::Choose(v)) => candidates.len() > 1 && !no_input && listed(v@) == candidates,
        Ok(Resolution::Undecided(v)) => candidates.len() > 1 && no_input && listed(v@)
            == candidates,
        Err(e) => candidates.len() == 0 && e == Find::NoRelease(oid),
    }
}

fn settle(oid: Oid, candidates: Vec<(ReleaseId, &Release)>, no_input: bool) -> (r: Result<
    Resolution<'_>,
    Find,
>)
    ensures
        settles(r, oid, listed(candidates@), no_input),
{
    if candidates.len() == 0 {
        Err(Find::NoRelease(oid))
    } else if candidates.len() == 1 {
        assert(listed(candidates@)[0] == (candidates@[0].0, candidates@[0].1@));
        Ok(Resolution::Found(candidates[0].0))
    } else if no_input {
        Ok(Resolution::Undecided(candidates))
    } else {
        Ok(Resolution::Choose(candidates))
    }
}

/// The release that a command is about: the one that was named, whoever created it, or
/// the one of the commit that is shown.
pub fn resolve_target_release<'a>(
    named: Option<Named>,
    commit: Oid,
    releases: &'a Releases,
    delegates: &SortedSet<Did>,
    local: &Did,
    all_authors: bool,
    no_input: bool,
) -> (r: Result<Resolution<'a>, Find>)
    ensures
        match named {
            Some(n) => match n.lookup {
                Ok(true) => r == Ok::<Resolution<'a>, Find>(Resolution::Found(n.id)),
                Ok(false) => r == Err::<Resolution<'a>, Find>(Find::NoReleaseId(n.id)),
                Err(err) => r == Err::<Resolution<'a>, Find>(
                    Find::LookupId { release_id: n.id, err },
                ),
            },
            None => {
                let found = of_commit(releases.items@, commit);
                if all_read(found) {
                    settles(
                        r,
                        commit,
                        eligible(releases.items@, commit, delegates@, *local, all_authors),
                        no_input,
                    )
                } else {
                    r matches Err(Find::Lookup { oid, err }) && oid == commit && first_error(
                        found,
                        err@,
                    )
                }
            },
        },
{
    match named {
        Some(n) => match named_release(n) {
            Ok(id) => Ok(Resolution::Found(id)),
            Err(e) => Err(e),
        },
        None => match collect_candidates(releases, commit) {
            Err(e) => {
                proof {
                    lemma_first_error(of_commit(releases.items@, commit), e->Lookup_err@);
                }
                Err(e)
            },
            Ok(all) => {
                let candidates = keep_visible(&all, delegates, local, all_authors);
                settle(commit, candidates, no_input)
            },
        },
    }
}

/// The release that an artifact of a commit was chosen from: one that is shown and has
/// the artifact.
pub fn resolve_release_after_pick<'a>(
    oid: Oid,
    cid: &Cid,
    releases: &'a Releases,
    delegates: &SortedSet<Did>,
    local: &Did,
    all_authors: bool,
) -> (r: Result<Resolution<'a>, Find>)
    ensures
        ({
            let found = of_commit(releases.items@, oid);
            if all_read(found) {
                settles(
                    r,
                    oid,
                    eligible(releases.items@, oid, delegates@, *local, all_authors).filter(
                        |e: (ReleaseId, ReleaseView)| e.1.has(*cid),
                    ),
                    false,
                )
            } else {
                r matches Err(Find::Lookup { oid: o, err }) && o == oid && first_error(found, err@)
            }
        }),
{
    match collect_candidates(releases, oid) {
        Err(e) => {
            proof {
                lemma_first_error(of_commit(releases.items@, oid), e->Lookup_err@);
            }
            Err(e)
        },
        Ok(all) => {
            let shown = keep_visible(&all, delegates, local, all_authors);
            let candidates = keep_carrying(&shown, cid);
            settle(oid, candidates, false)
        },
    }
}

proof fn lemma_first_error(s: Seq<Loaded>, e: Seq<char>)
    requires
        first_error(s, e),
    ensures
        !all_read(s),
{
}

/// The releases that `show` is to show: the one that was named, or those of the commit
/// that are shown.
pub fn shown_releases<'a>(
    commit: Oid,
    releases: &'a Releases,
    delegates: &SortedSet<Did>,
    local: &Did,
    all_authors: bool,
) -> (r: Result<Vec<(ReleaseId, &'a Release)>, Find>)
    ensures
        ({
            let found = of_commit(releases.items@, commit);
            let hits = eligible(releases.items@, commit, delegates@, *local, all_authors);
            match r {
                Ok(v) => all_read(found) && hits.len() > 0 && listed(v@) == hits,
                Err(Find::NoRelease(oid)) => oid == commit && all_read(found) && hits.len() == 0,
                Err(Find::Lookup { oid, err }) => oid == commit && first_error(found, err@),
                Err(_) => false,
            }
        }),
{
    match collect_candidates(releases, commit) {
        Err(e) => Err(e),
        Ok(all) => {
            let hits = keep_visible(&all, delegates, local, all_authors);
            assert(listed(hits@).len() == hits@.len());
            if hits.len() == 0 {
                Err(Find::NoRelease(commit))
            } else {
                Ok(hits)
            }
        },
    }
}

/// The releases that could be read.
pub open spec fn readable_ones(items: Seq<Loaded>) -> Seq<(ReleaseId, ReleaseView)> {
    read_releases(items.filter(|l: Loaded| l is Ok))
}

/// What is said of the releases that could not be read.
pub open spec fn failures(items: Seq<Loaded>) -> Seq<Seq<char>> {
    items.filter(|l: Loaded| l is Err).map_values(
        |l: Loaded| "Failed to retrieve release: "@ + l->Err_0@,
    )
}

/// The releases that `list` is to list: all that could be read and are shown. Of the
/// others something is said where `verbose` is given.
pub fn list_releases<'a>(
    releases: &'a Releases,
    delegates: &SortedSet<Did>,
    local: &Did,
    all_authors: bool,
    verbose: bool,
) -> (r: (Vec<(ReleaseId, &'a Release)>, Vec<String>))
    ensures
        listed(r.0@) == visible_ones(
            readable_ones(releases.items@),
            delegates@,
            *local,
            all_authors,
        ),
        texts(r.1@) == (if verbose {
            failures(releases.items@)
        } else {
            Seq::empty()
        }),
{
    let ghost items = releases.items@;
    let ghost good = |l: Loaded| l is Ok;
    let ghost bad = |l: Loaded| l is Err;
    let mut read: Vec<(ReleaseId, &'a Release)> = Vec::new();
    let mut notes: Vec<String> = Vec::new();
    proof {
        lemma_filter_empty(items, good);
        lemma_filter_empty(items, bad);
        assert(listed(read@) =~= readable_ones(items.take(0)));
        assert(texts(notes@) =~= failures(items.take(0)));
    }
    let mut i: usize = 0;
    while i < releases.items.len()
        invariant
            i <= items.len(),
            items == releases.items@,
            good == (|l: Loaded| l is Ok),
            bad == (|l: Loaded| l is Err),
            listed(read@) == readable_ones(items.take(i as int)),
            texts(notes@) == (if verbose {
                failures(items.take(i as int))
            } else {
                Seq::empty()
            }),
        decreases items.len() - i,
    {
        let ghost read_before = read@;
        let ghost notes_before = notes@;
        proof {
            lemma_filter_step(items, i as int, good);
            lemma_filter_step(items, i as int, bad);
        }
        match &releases.items[i] {
            Ok((id, release)) => {
                read.push((*id, release));
                proof {
                    let had = items.take(i as int).filter(good);
                    let x = items[i as int];
                    assert(listed(read@) =~= listed(read_before).push((*id, release@)));
                    assert(read_releases(had.push(x)) =~= read_releases(had).push(
                        (*id, release@),
                    ));
                }
            },
            Err(err) => {
                if verbose {
                    notes.push(cat("Failed to retrieve release: ", err.as_str()));
                    proof {
                        let had = items.take(i as int).filter(bad);
                        let say = |l: Loaded| "Failed to retrieve release: "@ + l->Err_0@;
                        let x = items[i as int];
                        assert(texts(notes@) =~= texts(notes_before).push(say(x)));
                        assert(had.push(x).map_values(say) =~= had.map_values(say).push(say(x)));
                    }
                }
            },
        }
        i += 1;
    }
    assert(items.take(i as int) =~= items);
    (keep_visible(&read, delegates, local, all_authors), notes)
}

/// A release to choose, as it is shown: its id, its tag, its creator and the title of its
/// commit.
pub open spec fn candidate_text(
    id: ReleaseId,
    r: ReleaseView,
    alias: Option<Seq<char>>,
    title: Seq<char>,
) -> Seq<char> {
    id.id.short() + "  "@ + (match r.tag {
        Some(tag) => "tag "@ + tag.short(),
        None => "no tag"@,
    }) + "  by "@ + did_shown(r.creator, alias, false) + "  "@ + title
}

/// A release to choose, as it is shown. `title` is the title of its commit, empty where
/// there is none.
pub fn format_candidate(
    id: &ReleaseId,
    release: &Release,
    aliases: &SortedMap<Did, String>,
    title: &str,
) -> (r: String)
    ensures
        r@ == candidate_text(
            *id,
            release@,
            alias_of(release@.creator, aliases_view(*aliases)),
            title@,
        ),
{
    let short = id.oid().to_short();
    let tag = match release.tag() {
        Some(tag) => {
            let shown = tag.to_short();
            cat("tag ", shown.as_str())
        },
        None => "no tag".to_owned(),
    };
    let alias = resolve(release.creator(), aliases);
    let creator = format_did(release.creator(), &alias, false);
    let head = cat5(short.as_str(), "  ", tag.as_str(), "  by ", creator.as_str());
    cat3(head.as_str(), "  ", title)
}

/// The releases to choose, as they are shown.
pub open spec fn candidate_texts(
    s: Seq<(ReleaseId, ReleaseView)>,
    aliases: Map<Did, Seq<char>>,
    titles: Seq<Seq<char>>,
) -> Seq<Seq<char>> {
    Seq::new(
        s.len(),
        |i: int| candidate_text(s[i].0, s[i].1, alias_of(s[i].1.creator, aliases), titles[i]),
    )
}

/// The releases to choose, as they are shown. `titles` are the titles of their commits,
/// and `extra` is one more choice.
pub fn candidate_labels(
    candidates: &Vec<(ReleaseId, &Release)>,
    aliases: &SortedMap<Did, String>,
    titles: &Vec<String>,
    extra: Option<String>,
) -> (r: Vec<String>)
    requires
        titles@.len() == candidates@.len(),
    ensures
        texts(r@) == candidate_texts(listed(candidates@), aliases_view(*aliases), texts(titles@))
            + (match extra {
            Some(e) => seq![e@],
            None => Seq::empty(),
        }),
{
    let ghost all = candidate_texts(
        listed(candidates@),
        aliases_view(*aliases),
        texts(titles@),
    );
    let mut out: Vec<String> = Vec::new();
    let mut i: usize = 0;
    while i < candidates.len()
        invariant
            i <= candidates@.len(),
            titles@.len() == candidates@.len(),
            all == candidate_texts(
                listed(candidates@),
                aliases_view(*aliases),
                texts(titles@),
            ),
            texts(out@) == all.take(i as int),
        decreases candidates@.len() - i,
    {
        let (id, release) = candidates[i];
        let ghost before = out@;
        out.push(format_candidate(&id, release, aliases, titles[i].as_str()));
        proof {
            assert(listed(candidates@)[i as int] == (id, release@));
            assert(texts(out@) =~= texts(before).push(all[i as int]));
            assert(all.take(i + 1) =~= all.take(i as int).push(all[i as int]));
        }
        i += 1;
    }
    assert(all.take(i as int) =~= all);
    match extra {
        Some(e) => {
            let ghost before = out@;
            out.push(e);
            assert(texts(out@) =~= texts(before) + seq![e@]);
        },
        None => {
            assert(texts(out@) =~= all + Seq::<Seq<char>>::empty());
        },
    }
    out
}

/// The releases to choose, as a list behind a sentence.
pub open spec fn candidate_list_text(rows: Seq<Seq<char>>) -> Seq<char>
    decreases rows.len(),
{
    if rows.len() == 0 {
        ":"@
    } else {
        candidate_list_text(rows.drop_last()) + "\n  "@ + rows.last()
    }
}

/// The releases to choose, as a list behind a sentence.
pub fn format_candidate_list(
    candidates: &Vec<(ReleaseId, &Release)>,
    aliases: &SortedMap<Did, String>,
    titles: &Vec<String>,
) -> (r: String)
    requires
        titles@.len() == candidates@.len(),
    ensures
        r@ == candidate_list_text(
            candidate_texts(listed(candidates@), aliases_view(*aliases), texts(titles@)),
        ),
{
    let rows = candidate_labels(candidates, aliases, titles, None);
    let ghost all = texts(rows@);
    let mut out = ":".to_owned();
    let mut i: usize = 0;
    while i < rows.len()
        invariant
            i <= rows@.len(),
            all == texts(rows@),
            out@ == candidate_list_text(all.take(i as int)),
        decreases rows@.len() - i,
    {
        out.append("\n  ");
        out.append(rows[i].as_str());
        assert(all.take(i + 1).drop_last() =~= all.take(i as int));
        i += 1;
    }
    proof {
        assert(all.take(i as int) =~= all);
        assert(all =~= candidate_texts(
            listed(candidates@),
            aliases_view(*aliases),
            texts(titles@),
        ));
    }
    out
}

/// What is said where the user cannot be asked to choose.
pub fn ambiguous(
    oid: Oid,
    candidates: &Vec<(ReleaseId, &Release)>,
    aliases: &SortedMap<Did, String>,
    titles: &Vec<String>,
) -> (r: Find)
    requires
        titles@.len() == candidates@.len(),
    ensures
        r matches Find::Ambiguous { oid: o, candidates: list } && o == oid && list@
            == candidate_list_text(
            candidate_texts(listed(candidates@), aliases_view(*aliases), texts(titles@)),
        ),
{
    Find::Ambiguous { oid, candidates: format_candidate_list(candidates, aliases, titles) }
}

/// The release in the place that was chosen: none where the choice was not a release.
pub fn chosen_release(candidates: &Vec<(ReleaseId, &Release)>, index: usize) -> (r: Option<
    ReleaseId,
>)
    ensures
        r == (if index < candidates@.len() {
            Some(candidates@[index as int].0)
        } else {
            None
        }),
{
    if index < candidates.len() {
        Some(candidates[index].0)
    } else {
        None
    }
}

/// The ids of releases, as text.
pub open spec fn id_texts(ids: Seq<ReleaseId>) -> Seq<Seq<char>> {
    ids.map_values(|id: ReleaseId| id.text())
}

/// The ids of releases, as a list.
pub fn display_ids(ids: &Vec<ReleaseId>) -> (r: String)
    ensures
        r@ == joined(id_texts(ids@), ", "@),
{
    let mut shown: Vec<String> = Vec::new();
    let mut i: usize = 0;
    while i < ids.len()
        invariant
            i <= ids@.len(),
            texts(shown@) == id_texts(ids@).take(i as int),
        decreases ids@.len() - i,
    {
        let ghost before = shown@;
        shown.push(ids[i].to_text());
        assert(texts(shown@) =~= texts(before).push(ids@[i as int].text()));
        i += 1;
    }
    assert(texts(shown@) =~= id_texts(ids@));
    join(&shown, ", ")
}

/// The ids of candidates.
pub fn ids_of(candidates: &Vec<(ReleaseId, &Release)>) -> (r: Vec<ReleaseId>)
    ensures
        r@ == listed(candidates@).map_values(|e: (ReleaseId, ReleaseView)| e.0),
{
    let mut out: Vec<ReleaseId> = Vec::new();
    let mut i: usize = 0;
    while i < candidates.len()
        invariant
            i <= candidates@.len(),
            out@.len() == i,
            forall|k: int| 0 <= k < i ==> #[trigger] out@[k] == candidates@[k].0,
        decreases candidates@.len() - i,
    {
        out.push(candidates[i].0);
        i += 1;
    }
    assert(out@ =~= listed(candidates@).map_values(|e: (ReleaseId, ReleaseView)| e.0));
    out
}

/// A release of a commit is one that a command may be about exactly where it was created
/// by a delegate or the local user, or all authors count.
pub proof fn law_every_release_of_the_commit_is_eligible(
    items: Seq<Loaded>,
    oid: Oid,
    delegates: Set<Did>,
    local: Did,
    all_authors: bool,
    id: ReleaseId,
    r: ReleaseView,
)
    requires
        all_read(items),
    ensures
        eligible(items, oid, delegates, local, all_authors).contains((id, r)) <==> exists|
            release: Release,
        | #[trigger]
            items.contains(Ok((id, release))) && release@ == r && r.oid == oid && (all_authors
                || delegates.contains(r.creator) || r.creator == local),
{
    let found = of_commit(items, oid);
    let read = read_releases(found);
    lemma_filter_contains(
        read,
        |e: (ReleaseId, ReleaseView)| trusted(e.1.creator, delegates, local, all_authors),
    );
    lemma_map_contains(found, |l: Loaded| (l->Ok_0.0, l->Ok_0.1@));
    if read.contains((id, r)) {
        let l = choose|l: Loaded| #[trigger]
            found.contains(l) && (l->Ok_0.0, l->Ok_0.1@) == (id, r);
        law_search_by_commit_is_complete(items, oid, l);
        let i = choose|i: int| 0 <= i < items.len() && items[i] == l;
        assert(items[i] is Ok);
        assert(l == Ok::<(ReleaseId, Release), String>((id, l->Ok_0.1)));
        assert(items.contains(Ok((id, l->Ok_0.1))));
    }
    assert forall|release: Release| #[trigger]
        items.contains(Ok((id, release))) && release@ == r && r.oid == oid implies read.contains(
        (id, r),
    ) by {
        let l = Ok::<(ReleaseId, Release), String>((id, release));
        law_search_by_commit_is_complete(items, oid, l);
        assert(found.contains(l));
    }
}

/// A list of releases lists every release that could be read and that a delegate or the
/// local user created, or all that could be read where all authors count; and something is
/// said of every one that could not be read.
pub proof fn law_every_release_is_listed_or_reported(
    items: Seq<Loaded>,
    delegates: Set<Did>,
    local: Did,
    all_authors: bool,
    id: ReleaseId,
    r: ReleaseView,
    line: Seq<char>,
)
    ensures
        visible_ones(readable_ones(items), delegates, local, all_authors).contains((id, r))
            <==> exists|release: Release| #[trigger]
            items.contains(Ok((id, release))) && release@ == r && (all_authors
                || delegates.contains(r.creator) || r.creator == local),
        failures(items).contains(line) <==> exists|e: String| #[trigger]
            items.contains(Err(e)) && line == "Failed to retrieve release: "@ + e@,
{
    let read = items.filter(|l: Loaded| l is Ok);
    lemma_filter_contains(items, |l: Loaded| l is Ok);
    lemma_map_contains(read, |l: Loaded| (l->Ok_0.0, l->Ok_0.1@));
    lemma_filter_contains(
        readable_ones(items),
        |e: (ReleaseId, ReleaseView)| trusted(e.1.creator, delegates, local, all_authors),
    );
    if readable_ones(items).contains((id, r)) {
        let l = choose|l: Loaded| #[trigger]
            read.contains(l) && (l->Ok_0.0, l->Ok_0.1@) == (id, r);
        assert(l == Ok::<(ReleaseId, Release), String>((id, l->Ok_0.1)));
        assert(items.contains(Ok((id, l->Ok_0.1))));
    }
    assert forall|release: Release| #[trigger]
        items.contains(Ok((id, release))) && release@ == r implies readable_ones(items).contains(
        (id, r),
    ) by {
        assert(read.contains(Ok((id, release))));
    }
    let failed = items.filter(|l: Loaded| l is Err);
    lemma_filter_contains(items, |l: Loaded| l is Err);
    lemma_map_contains(failed, |l: Loaded| "Failed to retrieve release: "@ + l->Err_0@);
    if failures(items).contains(line) {
        let l = choose|l: Loaded| #[trigger]
            failed.contains(l) && "Failed to retrieve release: "@ + l->Err_0@ == line;
        assert(l == Err::<(ReleaseId, Release), String>(l->Err_0));
        assert(items.contains(Err(l->Err_0)));
    }
    assert forall|e: String| #[trigger] items.contains(Err(e)) && line
        == "Failed to retrieve release: "@ + e@ implies failures(items).contains(line) by {
        assert(failed.contains(Err(e)));
    }
}

/// What looking for the release of a commit comes to, in terms of the releases there are:
/// those of that commit that a delegate or the local user created, or all of that commit
/// where all authors count. One is found only where it is the only one; none is found only
/// where there is none; and where there are more, all of them are offered, or listed where
/// the user cannot be asked.
pub proof fn law_the_only_release_is_found(
    items: Seq<Loaded>,
    oid: Oid,
    delegates: Set<Did>,
    local: Did,
    all_authors: bool,
    no_input: bool,
    r: Result<Resolution<'_>, Find>,
    id: ReleaseId,
    release: Release,
)
    requires
        all_read(items),
        settles(r, oid, eligible(items, oid, delegates, local, all_authors), no_input),
    ensures
        ({
            let counts = items.contains(Ok((id, release))) && release@.oid == oid && (all_authors
                || delegates.contains(release@.creator) || release@.creator == local);
            match r {
                Ok(Resolution::Found(found)) => counts ==> id == found,
                Ok(Resolution::Choose(v)) => !no_input && v@.len() > 1 && (counts ==> listed(
                    v@,
                ).contains((id, release@))),
                Ok(Resolution::Undecided(v)) => no_input && v@.len() > 1 && (counts ==> listed(
                    v@,
                ).contains((id, release@))),
                Err(e) => e == Find::NoRelease(oid) && !counts,
            }
        }),
        r matches Ok(Resolution::Found(found)) ==> exists|other: Release| #[trigger]
            items.contains(Ok((found, other))) && other@.oid == oid && (all_authors
                || delegates.contains(other@.creator) || other@.creator == local),
{
    let all = eligible(items, oid, delegates, local, all_authors);
    law_every_release_of_the_commit_is_eligible(
        items,
        oid,
        delegates,
        local,
        all_authors,
        id,
        release@,
    );
    if all.contains((id, release@)) {
        let k = choose|k: int| 0 <= k < all.len() && all[k] == (id, release@);
        assert(all[k].0 == id);
    }
    if let Ok(Resolution::Found(found)) = r {
        assert(all.contains(all[0]));
        assert(all[0] == (found, all[0].1));
        law_every_release_of_the_commit_is_eligible(
            items,
            oid,
            delegates,
            local,
            all_authors,
            found,
            all[0].1,
        );
    }
}

/// What is reported of releases that could not be read is the first of them: it is among
/// them, and everything before it was read.
pub proof fn law_the_first_error_is_reported(s: Seq<Loaded>, e: Seq<char>)
    ensures
        first_error(s, e) ==> exists|i: int|
            {
                &&& 0 <= i < s.len()
                &&& (#[trigger] s[i]) matches Err(err) && err@ == e
                &&& forall|j: int| 0 <= j < i ==> (#[trigger] s[j]) is Ok
            },
        first_error(s, e) ==> !all_read(s),
{
    if first_error(s, e) {
        let i = choose|i: int|
            0 <= i < s.len() && (#[trigger] s[i]) is Err && s[i]->Err_0@ == e && all_read(
                s.take(i),
            );
        assert forall|j: int| 0 <= j < i implies (#[trigger] s[j]) is Ok by {
            assert(s.take(i)[j] is Ok);
        }
        assert(s[i] is Err);
    }
}

/// `list_releases` lists every release that could be read and that a delegate or the local
/// user created, or all that could be read where all authors count, and no other.
pub proof fn law_list_releases_leaves_nothing_out(
    releases: Releases,
    delegates: SortedSet<Did>,
    local: Did,
    all_authors: bool,
    verbose: bool,
    r: (Vec<(ReleaseId, &Release)>, Vec<String>),
    id: ReleaseId,
    view: ReleaseView,
    e: String,
)
    requires
        call_ensures(list_releases, (&releases, &delegates, &local, all_authors, verbose), r),
    ensures
        (exists|k: int| 0 <= k < r.0@.len() && (#[trigger] r.0@[k]).0 == id && r.0@[k].1@ == view)
            <==> exists|release: Release| #[trigger]
            releases.items@.contains(Ok((id, release))) && release@ == view && (all_authors
                || delegates@.contains(view.creator) || view.creator == local),
        verbose && releases.items@.contains(Err(e)) ==> exists|k: int|
            0 <= k < r.1@.len() && (#[trigger] r.1@[k])@ == "Failed to retrieve release: "@ + e@,
        !verbose ==> r.1@.len() == 0,
{
    law_every_release_is_listed_or_reported(
        releases.items@,
        delegates@,
        local,
        all_authors,
        id,
        view,
        "Failed to retrieve release: "@ + e@,
    );
    let t = listed(r.0@);
    if t.contains((id, view)) {
        let k = choose|k: int| 0 <= k < t.len() && t[k] == (id, view);
        assert(r.0@[k].0 == id);
    }
    if exists|k: int| 0 <= k < r.0@.len() && (#[trigger] r.0@[k]).0 == id && r.0@[k].1@ == view {
        let k = choose|k: int|
            0 <= k < r.0@.len() && (#[trigger] r.0@[k]).0 == id && r.0@[k].1@ == view;
        assert(t[k] == (id, view));
    }
    if verbose && releases.items@.contains(Err(e)) {
        let line = "Failed to retrieve release: "@ + e@;
        let said = texts(r.1@);
        let k = choose|k: int| 0 <= k < said.len() && said[k] == line;
        assert(r.1@[k]@ == line);
    }
    assert(texts(r.1@).len() == r.1@.len());
}

/// `resolve_target_release` takes a release that was named by its id whoever created it, and
/// else the only release of the commit that a delegate or the local user created, or the
/// only one of the commit where all authors count.
pub proof fn law_the_named_release_is_the_target(
    named: Option<Named>,
    commit: Oid,
    releases: Releases,
    delegates: SortedSet<Did>,
    local: Did,
    all_authors: bool,
    no_input: bool,
    r: Result<Resolution<'_>, Find>,
    id: ReleaseId,
    release: Release,
)
    requires
        call_ensures(
            resolve_target_release,
            (named, commit, &releases, &delegates, &local, all_authors, no_input),
            r,
        ),
        all_read(releases.items@),
    ensures
        named matches Some(n) ==> (r matches Ok(Resolution::Found(found)) ==> found == n.id
            && n.lookup == Ok::<bool, String>(true)),
        named matches Some(n) ==> (n.lookup == Ok::<bool, String>(true) ==> r is Ok),
        named is None && releases.items@.contains(Ok((id, release))) && release@.oid == commit && (
        all_authors || delegates@.contains(release@.creator) || release@.creator == local) ==> (
        match r {
            Ok(Resolution::Found(found)) => found == id,
            Ok(Resolution::Choose(v)) => !no_input && listed(v@).contains((id, release@)),
            Ok(Resolution::Undecided(v)) => no_input && listed(v@).contains((id, release@)),
            Err(_) => false,
        }),
{
    let items = releases.items@;
    if named is None {
        let found = of_commit(items, commit);
        assert(all_read(found)) by {
            assert forall|i: int| 0 <= i < found.len() implies (#[trigger] found[i]) is Ok by {
                assert(found.contains(found[i]));
                law_search_by_commit_is_complete(items, commit, found[i]);
                let k = choose|k: int| 0 <= k < items.len() && items[k] == found[i];
                assert(items[k] is Ok);
            }
        }
        law_the_only_release_is_found(
            items,
            commit,
            delegates@,
            local,
            all_authors,
            no_input,
            r,
            id,
            release,
        );
    }
}

/// `shown_releases` shows every release of the commit that a delegate or the local user
/// created, or every one of the commit where all authors count, and says that there is none
/// exactly where there is none.
pub proof fn law_shown_releases_are_all_of_the_commit(
    commit: Oid,
    releases: Releases,
    delegates: SortedSet<Did>,
    local: Did,
    all_authors: bool,
    r: Result<Vec<(ReleaseId, &Release)>, Find>,
    id: ReleaseId,
    view: ReleaseView,
)
    requires
        call_ensures(shown_releases, (commit, &releases, &delegates, &local, all_authors), r),
        all_read(releases.items@),
    ensures
        ({
            let there = exists|release: Release| #[trigger]
                releases.items@.contains(Ok((id, release))) && release@ == view && view.oid
                    == commit && (all_authors || delegates@.contains(view.creator) || view.creator
                    == local);
            &&& r matches Ok(v) ==> (listed(v@).contains((id, view)) <==> there)
            &&& r is Err ==> r == Err::<Vec<(ReleaseId, &Release)>, Find>(Find::NoRelease(commit))
                && !there
        }),
{
    let items = releases.items@;
    let found = of_commit(items, commit);
    lemma_commit_read(items, commit);
    law_every_release_of_the_commit_is_eligible(
        items,
        commit,
        delegates@,
        local,
        all_authors,
        id,
        view,
    );
    match r {
        Err(Find::Lookup { oid, err }) => {
            law_the_first_error_is_reported(found, err@);
        },
        _ => {},
    }
}

proof fn lemma_commit_read(items: Seq<Loaded>, oid: Oid)
    requires
        all_read(items),
    ensures
        all_read(of_commit(items, oid)),
{
    let found = of_commit(items, oid);
    assert forall|i: int| 0 <= i < found.len() implies (#[trigger] found[i]) is Ok by {
        assert(found.contains(found[i]));
        law_search_by_commit_is_complete(items, oid, found[i]);
        let k = choose|k: int| 0 <= k < items.len() && items[k] == found[i];
        assert(items[k] is Ok);
    }
}

/// `resolve_release_after_pick` finds only a release that has the artifact that was chosen,
/// and every release of the commit that counts and has it is found or offered.
pub proof fn law_a_pick_leads_to_a_release_that_has_it(
    oid: Oid,
    cid: Cid,
    releases: Releases,
    delegates: SortedSet<Did>,
    local: Did,
    all_authors: bool,
    r: Result<Resolution<'_>, Find>,
    id: ReleaseId,
    release: Release,
)
    requires
        call_ensures(
            resolve_release_after_pick,
            (oid, &cid, &releases, &delegates, &local, all_authors),
            r,
        ),
        all_read(releases.items@),
    ensures
        releases.items@.contains(Ok((id, release))) && release@.oid == oid && release@.has(cid) && (
        all_authors || delegates@.contains(release@.creator) || release@.creator == local) ==> (
        match r {
            Ok(Resolution::Found(found)) => found == id,
            Ok(Resolution::Choose(v)) => listed(v@).contains((id, release@)),
            _ => false,
        }),
        r matches Ok(Resolution::Found(found)) ==> exists|other: Release| #[trigger]
            releases.items@.contains(Ok((found, other))) && other@.oid == oid && other@.has(cid),
{
    let items = releases.items@;
    let all = eligible(items, oid, delegates@, local, all_authors);
    let kept = all.filter(|e: (ReleaseId, ReleaseView)| e.1.has(cid));
    lemma_commit_read(items, oid);
    lemma_filter_contains(all, |e: (ReleaseId, ReleaseView)| e.1.has(cid));
    law_every_release_of_the_commit_is_eligible(
        items,
        oid,
        delegates@,
        local,
        all_authors,
        id,
        release@,
    );
    if kept.contains((id, release@)) {
        let k = choose|k: int| 0 <= k < kept.len() && kept[k] == (id, release@);
        assert(kept[k].0 == id);
    }
    if let Ok(Resolution::Found(found)) = r {
        assert(kept.contains(kept[0]));
        assert(kept[0] == (found, kept[0].1));
        law_every_release_of_the_commit_is_eligible(
            items,
            oid,
            delegates@,
            local,
            all_authors,
            found,
            kept[0].1,
        );
    }
}

} // verus!
