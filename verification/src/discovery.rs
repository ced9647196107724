//! Where an artifact is to be found, over all repositories.

use crate::ids::{Cid, Did, ReleaseId, RepoId};
use crate::location::Url;
use crate::release::{ArtifactView, Release};
use crate::seqs::{lemma_add_has, lemma_map_contains};
use crate::store::{
    all_locations, all_read, carrying, law_every_location_is_found, law_search_finds_every_carrier,
    Releases,
};
use vstd::prelude::*;

verus! {

/// A discovery location, with the repository and the release that it comes from.
pub struct Location<'a> {
    /// The repository.
    pub repo: RepoId,
    /// The release.
    pub release_id: ReleaseId,
    /// Who contributed it.
    pub did: Did,
    /// The URL.
    pub url: &'a Url,
}

/// What a location stands for.
#[verifier::ext_equal]
pub struct LocationView {
    pub repo: RepoId,
    pub release_id: ReleaseId,
    pub did: Did,
    pub url: Seq<char>,
}

impl<'a> View for Location<'a> {
    type V = LocationView;

    open spec fn view(&self) -> LocationView {
        LocationView {
            repo: self.repo,
            release_id: self.release_id,
            did: self.did,
            url: self.url@,
        }
    }
}

/// A release that has an artifact, with its repository.
pub struct ReleaseMatch<'a> {
    /// The repository.
    pub repo: RepoId,
    /// The identifier of the release.
    pub release_id: ReleaseId,
    /// The release.
    pub release: &'a Release,
}

/// The releases of a repository, or what kept the repository from being opened.
pub struct Repo {
    pub rid: RepoId,
    pub releases: Result<Releases, String>,
}

/// The releases of all repositories of a node.
pub struct Index {
    pub repos: Vec<Repo>,
    /// Whether the releases come out of a cache.
    pub cached: bool,
}

/// Whether a repository and all of its releases could be read. Otherwise a search
/// passes over the repository.
pub open spec fn readable(repo: Repo) -> bool {
    repo.releases matches Ok(releases) && all_read(releases.items@)
}

/// The locations of the artifact `cid` in one repository.
pub open spec fn repo_locations_spec(repo: Repo, cid: Cid) -> Seq<LocationView> {
    if readable(repo) {
        all_locations(repo.releases->Ok_0.items@, cid).map_values(
            |e: (ReleaseId, Did, Seq<char>)|
                LocationView { repo: repo.rid, release_id: e.0, did: e.1, url: e.2 },
        )
    } else {
        Seq::empty()
    }
}

/// The locations of the artifact `cid` in all repositories.
pub open spec fn locations_in(repos: Seq<Repo>, cid: Cid) -> Seq<LocationView>
    decreases repos.len(),
{
    if repos.len() == 0 {
        Seq::empty()
    } else {
        locations_in(repos.drop_last(), cid) + repo_locations_spec(repos.last(), cid)
    }
}

/// The releases of one repository that have the artifact `cid`.
pub open spec fn repo_releases_spec(repo: Repo, cid: Cid) -> Seq<(RepoId, ReleaseId, Release)> {
    if readable(repo) {
        carrying(repo.releases->Ok_0.items@, cid).map_values(
            |e: (ReleaseId, Release)| (repo.rid, e.0, e.1),
        )
    } else {
        Seq::empty()
    }
}

/// The releases of all repositories that have the artifact `cid`.
pub open spec fn releases_in(repos: Seq<Repo>, cid: Cid) -> Seq<(RepoId, ReleaseId, Release)>
    decreases repos.len(),
{
    if repos.len() == 0 {
        Seq::empty()
    } else {
        releases_in(repos.drop_last(), cid) + repo_releases_spec(repos.last(), cid)
    }
}

/// An unreadable release makes its repository unreadable.
proof fn lemma_fault(items: Seq<crate::store::Loaded>, e: String)
    requires
        crate::store::first_fault(items, e),
    ensures
        !all_read(items),
{
    let i = choose|i: int|
        0 <= i < items.len() && #[trigger] items[i] == Err::<(ReleaseId, Release), String>(e)
            && all_read(items.take(i));
    assert(!(items[i] is Ok));
}

impl Index {
    /// An index of the repositories, read without a cache.
    pub fn open(repos: Vec<Repo>) -> (r: Index)
        ensures
            r.repos == repos,
            !r.cached,
    {
        Index { repos, cached: false }
    }

    /// An index of the repositories, read through a cache. Where the cache could not
    /// be opened, the releases are read without it.
    pub fn open_cached(repos: Vec<Repo>, cache_opened: bool) -> (r: Index)
        ensures
            r.repos == repos,
            r.cached == cache_opened,
    {
        Index { repos, cached: cache_opened }
    }

    /// Every discovery location of the artifact `cid`. A repository that cannot be
    /// read is passed over.
    pub fn locations_by_cid(&self, cid: &Cid) -> (r: Vec<Location<'_>>)
        ensures
            r@.map_values(|l: Location<'_>| l@) == locations_in(self.repos@, *cid),
    {
        let ghost seen = |l: Location<'_>| l@;
        let mut out: Vec<Location<'_>> = Vec::new();
        let mut i: usize = 0;
        while i < self.repos.len()
            invariant
                i <= self.repos@.len(),
                seen == (|l: Location<'_>| l@),
                out@.map_values(seen) == locations_in(self.repos@.take(i as int), *cid),
            decreases self.repos@.len() - i,
        {
            let repo = &self.repos[i];
            let ghost before = out@;
            let ghost here = repo_locations_spec(*repo, *cid);
            assert(self.repos@.take(i + 1).drop_last() =~= self.repos@.take(i as int));
            let found = repo_locations(repo, cid);
            let mut j: usize = 0;
            assert(before.map_values(seen) + here.take(0) =~= before.map_values(seen));
            while j < found.len()
                invariant
                    j <= found@.len(),
                    seen == (|l: Location<'_>| l@),
                    found@.map_values(seen) == here,
                    out@.map_values(seen) == before.map_values(seen) + here.take(j as int),
                decreases found@.len() - j,
            {
                let ghost had = out@;
                assert(found@.map_values(seen)[j as int] == found@[j as int]@);
                out.push(
                    Location {
                        repo: found[j].repo,
                        release_id: found[j].release_id,
                        did: found[j].did,
                        url: found[j].url,
                    },
                );
                assert(out@.map_values(seen) =~= had.map_values(seen).push(here[j as int]));
                assert(here.take(j + 1) =~= here.take(j as int).push(here[j as int]));
                j += 1;
            }
            assert(here.take(j as int) =~= here);
            i += 1;
        }
        assert(self.repos@.take(i as int) =~= self.repos@);
        out
    }

    /// Every release that has the artifact `cid`. A repository that cannot be read is
    /// passed over.
    pub fn releases_by_cid(&self, cid: &Cid) -> (r: Vec<ReleaseMatch<'_>>)
        ensures
            r@.map_values(|m: ReleaseMatch<'_>| (m.repo, m.release_id, *m.release)) == releases_in(
                self.repos@,
                *cid,
            ),
    {
        let ghost seen = |m: ReleaseMatch<'_>| (m.repo, m.release_id, *m.release);
        let mut out: Vec<ReleaseMatch<'_>> = Vec::new();
        let mut i: usize = 0;
        while i < self.repos.len()
            invariant
                i <= self.repos@.len(),
                seen == (|m: ReleaseMatch<'_>| (m.repo, m.release_id, *m.release)),
                out@.map_values(seen) == releases_in(self.repos@.take(i as int), *cid),
            decreases self.repos@.len() - i,
        {
            let repo = &self.repos[i];
            let ghost before = out@;
            let ghost here = repo_releases_spec(*repo, *cid);
            assert(self.repos@.take(i + 1).drop_last() =~= self.repos@.take(i as int));
            let found = repo_releases(repo, cid);
            let mut j: usize = 0;
            assert(before.map_values(seen) + here.take(0) =~= before.map_values(seen));
            while j < found.len()
                invariant
                    j <= found@.len(),
                    seen == (|m: ReleaseMatch<'_>| (m.repo, m.release_id, *m.release)),
                    found@.map_values(seen) == here,
                    out@.map_values(seen) == before.map_values(seen) + here.take(j as int),
                decreases found@.len() - j,
            {
                let ghost had = out@;
                let m = &found[j];
                assert(found@.map_values(seen)[j as int] == seen(found@[j as int]));
                out.push(
                    ReleaseMatch { repo: m.repo, release_id: m.release_id, release: m.release },
                );
                assert(out@.map_values(seen) =~= had.map_values(seen).push(here[j as int]));
                assert(here.take(j + 1) =~= here.take(j as int).push(here[j as int]));
                j += 1;
            }
            assert(here.take(j as int) =~= here);
            i += 1;
        }
        assert(self.repos@.take(i as int) =~= self.repos@);
        out
    }
}

/// The locations of the artifact `cid` in one repository; none where the repository
/// cannot be read.
pub fn repo_locations<'a>(repo: &'a Repo, cid: &Cid) -> (r: Vec<Location<'a>>)
    ensures
        r@.map_values(|l: Location<'a>| l@) == repo_locations_spec(*repo, *cid),
{
    let ghost seen = |l: Location<'a>| l@;
    let mut out: Vec<Location<'a>> = Vec::new();
    let ghost wanted = repo_locations_spec(*repo, *cid);
    match &repo.releases {
        Err(_) => {
            assert(out@.map_values(seen) =~= wanted);
        },
        Ok(releases) => {
            match releases.locations_for(cid) {
                Err(e) => {
                    proof {
                        lemma_fault(releases.items@, *e);
                    }
                    assert(out@.map_values(seen) =~= wanted);
                },
                Ok(found) => {
                    let ghost plain = |e: (ReleaseId, Did, &Url)| (e.0, e.1, e.2@);
                    let mut i: usize = 0;
                    while i < found.len()
                        invariant
                            i <= found@.len(),
                            seen == (|l: Location<'a>| l@),
                            wanted.len() == found@.len(),
                            forall|k: int|
                                0 <= k < found@.len() ==> #[trigger] wanted[k] == (LocationView {
                                    repo: repo.rid,
                                    release_id: found@[k].0,
                                    did: found@[k].1,
                                    url: found@[k].2@,
                                }),
                            out@.map_values(seen) == wanted.take(i as int),
                        decreases found@.len() - i,
                    {
                        let ghost had = out@;
                        let (release_id, did, url) = found[i];
                        out.push(Location { repo: repo.rid, release_id, did, url });
                        assert(out@.map_values(seen) =~= had.map_values(seen).push(
                            wanted[i as int],
                        ));
                        i += 1;
                        assert(wanted.take(i as int) =~= wanted.take(i - 1).push(wanted[i - 1]));
                    }
                    assert(wanted.take(i as int) =~= wanted);
                },
            }
        },
    }
    out
}

/// The releases of one repository that have the artifact `cid`; none where the
/// repository cannot be read.
pub fn repo_releases<'a>(repo: &'a Repo, cid: &Cid) -> (r: Vec<ReleaseMatch<'a>>)
    ensures
        r@.map_values(|m: ReleaseMatch<'a>| (m.repo, m.release_id, *m.release))
            == repo_releases_spec(*repo, *cid),
{
    let ghost seen = |m: ReleaseMatch<'a>| (m.repo, m.release_id, *m.release);
    let mut out: Vec<ReleaseMatch<'a>> = Vec::new();
    let ghost wanted = repo_releases_spec(*repo, *cid);
    match &repo.releases {
        Err(_) => {
            assert(out@.map_values(seen) =~= wanted);
        },
        Ok(releases) => {
            match releases.find_by_cid(cid) {
                Err(e) => {
                    proof {
                        lemma_fault(releases.items@, *e);
                    }
                    assert(out@.map_values(seen) =~= wanted);
                },
                Ok(found) => {
                    let mut i: usize = 0;
                    while i < found.len()
                        invariant
                            i <= found@.len(),
                            seen == (|m: ReleaseMatch<'a>| (m.repo, m.release_id, *m.release)),
                            wanted.len() == found@.len(),
                            forall|k: int|
                                0 <= k < found@.len() ==> #[trigger] wanted[k] == (
                                    repo.rid,
                                    found@[k].0,
                                    *found@[k].1,
                                ),
                            out@.map_values(seen) == wanted.take(i as int),
                        decreases found@.len() - i,
                    {
                        let ghost had = out@;
                        let (release_id, release) = found[i];
                        out.push(ReleaseMatch { repo: repo.rid, release_id, release });
                        assert(out@.map_values(seen) =~= had.map_values(seen).push(
                            wanted[i as int],
                        ));
                        i += 1;
                        assert(wanted.take(i as int) =~= wanted.take(i - 1).push(wanted[i - 1]));
                    }
                    assert(wanted.take(i as int) =~= wanted);
                },
            }
        },
    }
    out
}

/// What a search over all repositories finds of an artifact is what users contributed to
/// it: a URL is found if and only if some repository that could be read has, in a release
/// with that artifact, that URL of that user.
pub proof fn law_every_repository_is_searched(repos: Seq<Repo>, cid: Cid, l: LocationView)
    requires
        forall|i: int, k: int|
            #![trigger repos[i].releases->Ok_0.items@[k]]
            0 <= i < repos.len() && repos[i].releases is Ok && 0 <= k
                < repos[i].releases->Ok_0.items@.len() && repos[i].releases->Ok_0.items@[k] is Ok
                ==> repos[i].releases->Ok_0.items@[k]->Ok_0.1@.distinct(),
    ensures
        locations_in(repos, cid).contains(l) <==> exists|i: int, r: Release, a: ArtifactView|
            #![trigger repos[i].releases->Ok_0.items@.contains(Ok((l.release_id, r))), r@.artifacts.contains((cid, a))]
            {
                let items = repos[i].releases->Ok_0.items@;
                &&& 0 <= i < repos.len()
                &&& repos[i].rid == l.repo
                &&& repos[i].releases is Ok
                &&& forall|k: int| 0 <= k < items.len() ==> (#[trigger] items[k]) is Ok
                &&& items.contains(Ok((l.release_id, r)))
                &&& r@.artifacts.contains((cid, a))
                &&& a.locations.contains_key(l.did) && a.locations[l.did].contains(l.url)
            },
    decreases repos.len(),
{
    if repos.len() > 0 {
        let rest = repos.drop_last();
        let n = repos.len() - 1;
        let last = repos[n];
        let items = last.releases->Ok_0.items@;
        assert forall|i: int, k: int|
            #![trigger rest[i].releases->Ok_0.items@[k]]
            0 <= i < rest.len() && rest[i].releases is Ok && 0 <= k
                < rest[i].releases->Ok_0.items@.len() && rest[i].releases->Ok_0.items@[k] is Ok implies rest[i].releases->Ok_0.items@[k]->Ok_0.1@.distinct() by {
            assert(rest[i] == repos[i]);
            assert(repos[i].releases->Ok_0.items@[k] is Ok);
        }
        law_every_repository_is_searched(rest, cid, l);
        lemma_add_has(locations_in(rest, cid), repo_locations_spec(last, cid), l);
        if readable(last) {
            assert forall|k: int| 0 <= k < items.len() && (
            #[trigger] items[k]) is Ok implies items[k]->Ok_0.1@.distinct() by {
                assert(repos[n].releases->Ok_0.items@[k] is Ok);
            }
            let e = (l.release_id, l.did, l.url);
            let f = |e: (ReleaseId, Did, Seq<char>)|
                LocationView { repo: last.rid, release_id: e.0, did: e.1, url: e.2 };
            law_every_location_is_found(items, cid, e);
            lemma_map_contains(all_locations(items, cid), f);
            assert(f(e).release_id == l.release_id);
            if repo_locations_spec(last, cid).contains(l) {
                let x = choose|x: (ReleaseId, Did, Seq<char>)| #[trigger]
                    all_locations(items, cid).contains(x) && f(x) == l;
                assert(x == e);
                let (r, a) = choose|r: Release, a: ArtifactView|
                    #![trigger items.contains(Ok((e.0, r))), r@.artifacts.contains((cid, a))]
                    items.contains(Ok((e.0, r))) && r@.artifacts.contains((cid, a))
                        && a.locations.contains_key(e.1) && a.locations[e.1].contains(e.2);
                assert(repos[n].releases->Ok_0.items@.contains(Ok((l.release_id, r))));
                assert(r@.artifacts.contains((cid, a)));
            }
            if all_locations(items, cid).contains(e) && l.repo == last.rid {
                assert(f(e) == l);
            }
        }
        if locations_in(rest, cid).contains(l) {
            let (i, r, a) = choose|i: int, r: Release, a: ArtifactView|
                #![trigger rest[i].releases->Ok_0.items@.contains(Ok((l.release_id, r))), r@.artifacts.contains((cid, a))]
                {
                    let items = rest[i].releases->Ok_0.items@;
                    &&& 0 <= i < rest.len()
                    &&& rest[i].rid == l.repo
                    &&& rest[i].releases is Ok
                    &&& forall|k: int| 0 <= k < items.len() ==> (#[trigger] items[k]) is Ok
                    &&& items.contains(Ok((l.release_id, r)))
                    &&& r@.artifacts.contains((cid, a))
                    &&& a.locations.contains_key(l.did) && a.locations[l.did].contains(l.url)
                };
            assert(rest[i] == repos[i]);
            assert(repos[i].releases->Ok_0.items@.contains(Ok((l.release_id, r))));
            assert(r@.artifacts.contains((cid, a)));
        }
        assert forall|i: int, r: Release, a: ArtifactView|
            #![trigger repos[i].releases->Ok_0.items@.contains(Ok((l.release_id, r))), r@.artifacts.contains((cid, a))]
            {
                let items = repos[i].releases->Ok_0.items@;
                &&& 0 <= i < repos.len()
                &&& repos[i].rid == l.repo
                &&& repos[i].releases is Ok
                &&& forall|k: int| 0 <= k < items.len() ==> (#[trigger] items[k]) is Ok
                &&& items.contains(Ok((l.release_id, r)))
                &&& r@.artifacts.contains((cid, a))
                &&& a.locations.contains_key(l.did) && a.locations[l.did].contains(l.url)
            } implies locations_in(repos, cid).contains(l) by {
            if i < n {
                assert(rest[i] == repos[i]);
                assert(rest[i].releases->Ok_0.items@.contains(Ok((l.release_id, r))));
            } else {
                assert(items.contains(Ok((l.release_id, r))));
                assert(readable(last));
            }
        }
    }
}

/// Every release that has an artifact is found in every repository that could be read,
/// and no other.
pub proof fn law_every_carrier_is_found(
    repos: Seq<Repo>,
    cid: Cid,
    m: (RepoId, ReleaseId, Release),
)
    ensures
        releases_in(repos, cid).contains(m) <==> m.2@.has(cid) && exists|i: int|
            {
                let items = (#[trigger] repos[i]).releases->Ok_0.items@;
                &&& 0 <= i < repos.len()
                &&& repos[i].rid == m.0
                &&& repos[i].releases is Ok
                &&& forall|k: int| 0 <= k < items.len() ==> (#[trigger] items[k]) is Ok
                &&& items.contains(Ok((m.1, m.2)))
            },
    decreases repos.len(),
{
    if repos.len() > 0 {
        let rest = repos.drop_last();
        let n = repos.len() - 1;
        let last = repos[n];
        let items = last.releases->Ok_0.items@;
        let f = |e: (ReleaseId, Release)| (last.rid, e.0, e.1);
        law_every_carrier_is_found(rest, cid, m);
        lemma_add_has(releases_in(rest, cid), repo_releases_spec(last, cid), m);
        law_search_finds_every_carrier(items, cid);
        lemma_map_contains(carrying(items, cid), f);
        let l = Ok::<(ReleaseId, Release), String>((m.1, m.2));
        let e = (m.1, m.2);
        if readable(last) {
            if items.contains(l) {
                assert(carrying(items, cid).contains(e) <==> m.2@.has(cid));
                assert(f(e) == (last.rid, m.1, m.2));
            } else {
                assert(!carrying(items, cid).contains(e));
            }
            if repo_releases_spec(last, cid).contains(m) {
                let x = choose|x: (ReleaseId, Release)| #[trigger]
                    carrying(items, cid).contains(x) && f(x) == m;
                assert(x == e);
                assert(repos[n].rid == m.0);
            }
        }
        assert forall|i: int| 0 <= i < n implies #[trigger] rest[i] == repos[i] by {}
        if releases_in(rest, cid).contains(m) {
            let i = choose|i: int|
                {
                    let items = (#[trigger] rest[i]).releases->Ok_0.items@;
                    &&& 0 <= i < rest.len()
                    &&& rest[i].rid == m.0
                    &&& rest[i].releases is Ok
                    &&& forall|k: int| 0 <= k < items.len() ==> (#[trigger] items[k]) is Ok
                    &&& items.contains(Ok((m.1, m.2)))
                };
            assert(repos[i].rid == m.0);
        }
        assert forall|i: int|
            {
                let items = (#[trigger] repos[i]).releases->Ok_0.items@;
                &&& 0 <= i < repos.len()
                &&& repos[i].rid == m.0
                &&& repos[i].releases is Ok
                &&& forall|k: int| 0 <= k < items.len() ==> (#[trigger] items[k]) is Ok
                &&& items.contains(Ok((m.1, m.2)))
                &&& m.2@.has(cid)
            } implies releases_in(repos, cid).contains(m) by {
            if i < n {
                assert(rest[i] == repos[i]);
            } else {
                assert(readable(last));
            }
        }
    }
}

/// The locations of an artifact in two lists of repositories, one behind the other, are those
/// in the first and then those in the second.
pub proof fn law_repositories_are_searched_one_by_one(first: Seq<Repo>, second: Seq<Repo>, cid: Cid)
    ensures
        locations_in(first + second, cid) == locations_in(first, cid) + locations_in(second, cid),
    decreases second.len(),
{
    if second.len() == 0 {
        assert(first + second =~= first);
        assert(locations_in(first, cid) + locations_in(second, cid) =~= locations_in(first, cid));
    } else {
        law_repositories_are_searched_one_by_one(first, second.drop_last(), cid);
        assert((first + second).drop_last() =~= first + second.drop_last());
        assert((first + second).last() == second.last());
        assert(locations_in(first + second, cid) =~= locations_in(first, cid) + locations_in(second, cid));
    }
}

/// The releases that have an artifact in two lists of repositories, one behind the other, are
/// those in the first and then those in the second.
pub proof fn law_carriers_are_found_one_by_one(first: Seq<Repo>, second: Seq<Repo>, cid: Cid)
    ensures
        releases_in(first + second, cid) == releases_in(first, cid) + releases_in(second, cid),
    decreases second.len(),
{
    if second.len() == 0 {
        assert(first + second =~= first);
        assert(releases_in(first, cid) + releases_in(second, cid) =~= releases_in(first, cid));
    } else {
        law_carriers_are_found_one_by_one(first, second.drop_last(), cid);
        assert((first + second).drop_last() =~= first + second.drop_last());
        assert((first + second).last() == second.last());
        assert(releases_in(first + second, cid) =~= releases_in(first, cid) + releases_in(second, cid));
    }
}

/// `Index::locations_by_cid` finds every location of an artifact in every repository that
/// could be read, and no other.
pub proof fn law_locations_by_cid_searches_every_repository(
    index: Index,
    cid: Cid,
    r: Vec<Location<'_>>,
    l: LocationView,
)
    requires
        call_ensures(Index::locations_by_cid, (&index, &cid), r),
        forall|i: int, k: int|
            #![trigger index.repos@[i].releases->Ok_0.items@[k]]
            0 <= i < index.repos@.len() && index.repos@[i].releases is Ok && 0 <= k
                < index.repos@[i].releases->Ok_0.items@.len()
                && index.repos@[i].releases->Ok_0.items@[k] is Ok
                ==> index.repos@[i].releases->Ok_0.items@[k]->Ok_0.1@.distinct(),
    ensures
        (exists|k: int| 0 <= k < r@.len() && (#[trigger] r@[k])@ == l) <==> exists|
            i: int,
            release: Release,
            a: ArtifactView,
        |
            #![trigger index.repos@[i].releases->Ok_0.items@.contains(Ok((l.release_id, release))), release@.artifacts.contains((cid, a))]
            {
                let items = index.repos@[i].releases->Ok_0.items@;
                &&& 0 <= i < index.repos@.len()
                &&& index.repos@[i].rid == l.repo
                &&& index.repos@[i].releases is Ok
                &&& forall|k: int| 0 <= k < items.len() ==> (#[trigger] items[k]) is Ok
                &&& items.contains(Ok((l.release_id, release)))
                &&& release@.artifacts.contains((cid, a))
                &&& a.locations.contains_key(l.did) && a.locations[l.did].contains(l.url)
            },
{
    law_every_repository_is_searched(index.repos@, cid, l);
    let t = r@.map_values(|l: Location<'_>| l@);
    if t.contains(l) {
        let k = choose|k: int| 0 <= k < t.len() && t[k] == l;
        assert(r@[k]@ == l);
    }
    if exists|k: int| 0 <= k < r@.len() && (#[trigger] r@[k])@ == l {
        let k = choose|k: int| 0 <= k < r@.len() && (#[trigger] r@[k])@ == l;
        assert(t[k] == l);
    }
}

/// `Index::releases_by_cid` finds every release that has an artifact in every repository
/// that could be read, and no other.
pub proof fn law_releases_by_cid_searches_every_repository(
    index: Index,
    cid: Cid,
    r: Vec<ReleaseMatch<'_>>,
    rid: RepoId,
    id: ReleaseId,
    release: Release,
)
    requires
        call_ensures(Index::releases_by_cid, (&index, &cid), r),
    ensures
        (exists|k: int|
            0 <= k < r@.len() && (#[trigger] r@[k]).repo == rid && r@[k].release_id == id
                && *r@[k].release == release) <==> release@.has(cid) && exists|i: int|
            {
                let items = (#[trigger] index.repos@[i]).releases->Ok_0.items@;
                &&& 0 <= i < index.repos@.len()
                &&& index.repos@[i].rid == rid
                &&& index.repos@[i].releases is Ok
                &&& forall|k: int| 0 <= k < items.len() ==> (#[trigger] items[k]) is Ok
                &&& items.contains(Ok((id, release)))
            },
{
    let m = (rid, id, release);
    law_every_carrier_is_found(index.repos@, cid, m);
    let t = r@.map_values(|m: ReleaseMatch<'_>| (m.repo, m.release_id, *m.release));
    if t.contains(m) {
        let k = choose|k: int| 0 <= k < t.len() && t[k] == m;
        assert(r@[k].repo == rid);
    }
    if exists|k: int|
        0 <= k < r@.len() && (#[trigger] r@[k]).repo == rid && r@[k].release_id == id
            && *r@[k].release == release {
        let k = choose|k: int|
            0 <= k < r@.len() && (#[trigger] r@[k]).repo == rid && r@[k].release_id == id
                && *r@[k].release == release;
        assert(t[k] == m);
    }
}

} // verus!
