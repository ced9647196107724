use radicle_artifact::cache::{
    db_path, head_token, join_path, location_rows, lookup, refresh_plan, settle, CacheWrite, Fold,
    Head, Lookup,
};
use radicle_artifact::discovery::{Index, Repo};
use radicle_artifact::ids::{Cid, Did, Oid, ReleaseId, RepoId};
use radicle_artifact::location::Url;
use radicle_artifact::store::{ReleaseMut, Releases};

fn did(n: u8) -> Did {
    Did::from_key_bytes(&[n; 32])
}

fn oid(n: u8) -> Oid {
    Oid { hi: 0, lo: n as u128 }
}

fn id(n: u8) -> ReleaseId {
    ReleaseId { id: oid(n) }
}

fn rid(n: u8) -> RepoId {
    RepoId { id: oid(n) }
}

fn test_cid(n: u8) -> Cid {
    let mut digest = [0u8; 32];
    digest[0] = n;
    Cid::new_v1(0x55, 0x12, &digest).unwrap()
}

fn url(s: &str) -> Url {
    Url::parse(s).ok().unwrap()
}

fn release(n: u8, urls: &[&str]) -> ReleaseMut {
    let mut r = Releases::create(id(n), oid(n), true, None, did(1), 7).unwrap();
    r.register_artifact(test_cid(1), "linux binary".to_owned(), did(1));
    for u in urls {
        r.add_location(test_cid(1), url(u), did(1));
    }
    r
}

fn stored(items: Vec<ReleaseMut>) -> Releases {
    let mut releases = Releases { items: Vec::new() };
    for r in items {
        releases.put(r);
    }
    releases
}

fn head(n: u8, tips: &[u8]) -> Head {
    Head { id: id(n), token: head_token(&tips.iter().map(|t| oid(*t)).collect()) }
}

#[test]
fn cache_populated_on_read() {
    let tips = vec![oid(40), oid(41)];
    let token = match lookup(&tips, None) {
        Lookup::Stale(token) => token,
        _ => panic!("expected a read"),
    };
    assert!(matches!(lookup(&tips, Some(&token)), Lookup::Hit));

    let r = release(1, &["https://alice.example.com/bin.tar.gz"]);
    assert_eq!(settle(&Fold::Found(release(1, &[]).release)), CacheWrite::Update);
    let rows = location_rows(&r.release);
    assert_eq!(rows.len(), 1);
    assert!(rows[0].cid == test_cid(1));
    let (who, at) = rows[0].at.unwrap();
    assert_eq!(who, did(1));
    assert!(at.same(&url("https://alice.example.com/bin.tar.gz")));

    let releases = stored(vec![r]);
    assert_eq!(releases.count(), 1);
    assert_eq!(releases.find_by_cid(&test_cid(1)).ok().unwrap().len(), 1);
    assert_eq!(releases.locations_for(&test_cid(1)).ok().unwrap().len(), 1);
}

#[test]
fn cache_reflects_external_change() {
    let cached = vec![head(1, &[40])];
    let plan = refresh_plan(&vec![head(1, &[40])], &cached);
    assert!(plan.stale.is_empty());
    let plan = refresh_plan(&vec![head(1, &[41])], &cached);
    assert_eq!(plan.stale, vec![0]);
    assert!(plan.pruned.is_empty());
    let old = head_token(&vec![oid(40)]);
    assert!(matches!(lookup(&vec![oid(41)], Some(&old)), Lookup::Stale(_)));
}

#[test]
fn cache_locations_index_tracks_removals() {
    let mut r = release(1, &["https://a.example.com/x", "https://b.example.com/x"]);
    assert_eq!(location_rows(&r.release).len(), 2);
    r.remove_location(test_cid(1), url("https://a.example.com/x"), did(1));
    let rows = location_rows(&r.release);
    assert_eq!(rows.len(), 1);
    assert!(rows[0].at.unwrap().1.same(&url("https://b.example.com/x")));
}

fn two_repos() -> Vec<Repo> {
    vec![
        Repo { rid: rid(1), releases: Ok(stored(vec![release(1, &["https://one.example.com/x"])])) },
        Repo { rid: rid(2), releases: Ok(stored(vec![release(2, &["https://two.example.com/x"])])) },
    ]
}

#[test]
fn index_aggregates_across_repos() {
    let index = Index::open_cached(two_repos(), true);
    let locations = index.locations_by_cid(&test_cid(1));
    assert_eq!(locations.len(), 2);
    let repos: Vec<RepoId> = locations.iter().map(|l| l.repo).collect();
    assert!(repos.contains(&rid(1)) && repos.contains(&rid(2)));
    let urls: Vec<&str> = locations.iter().map(|l| l.url.as_str()).collect();
    assert_eq!(urls, vec!["https://one.example.com/x", "https://two.example.com/x"]);
    let matches = index.releases_by_cid(&test_cid(1));
    assert_eq!(matches.len(), 2);
    assert!(matches.iter().all(|m| m.release.artifact(&test_cid(1)).is_some()));
}

#[test]
fn index_reflects_fresh_writes() {
    let mut r = release(1, &["https://a.example.com/x"]);
    r.add_location(test_cid(1), url("https://b.example.com/x"), did(1));
    let index = Index::open(vec![Repo { rid: rid(1), releases: Ok(stored(vec![r])) }]);
    assert_eq!(index.locations_by_cid(&test_cid(1)).len(), 2);
}

#[test]
fn open_cached_degrades_to_git_when_cache_unavailable() {
    let index = Index::open_cached(two_repos(), false);
    assert!(!index.cached);
    assert_eq!(index.releases_by_cid(&test_cid(1)).len(), 2);
    assert_eq!(index.locations_by_cid(&test_cid(1)).len(), 2);
}

#[test]
fn index_aggregates_without_cache() {
    let index = Index::open(two_repos());
    assert_eq!(index.locations_by_cid(&test_cid(1)).len(), 2);
}

#[test]
fn an_unreadable_repository_is_passed_over() {
    let mut repos = two_repos();
    repos.push(Repo { rid: rid(3), releases: Err("locked".to_owned()) });
    let mut broken = stored(vec![release(4, &["https://four.example.com/x"])]);
    broken.items.push(Err("corrupt".to_owned()));
    repos.push(Repo { rid: rid(4), releases: Ok(broken) });
    let index = Index::open(repos);
    assert_eq!(index.locations_by_cid(&test_cid(1)).len(), 2);
    assert_eq!(index.releases_by_cid(&test_cid(1)).len(), 2);
}

#[test]
fn cache_prunes_releases_absent_from_git() {
    let current = vec![head(1, &[40])];
    let cached = vec![head(1, &[40]), head(9, &[50])];
    let plan = refresh_plan(&current, &cached);
    assert!(plan.stale.is_empty());
    assert!(plan.pruned == vec![id(9)]);
    assert!(matches!(lookup(&Vec::new(), Some("stale-head")), Lookup::Gone));
    assert_eq!(settle(&Fold::Gone), CacheWrite::Remove);
    assert_eq!(settle(&Fold::Broken), CacheWrite::Nothing);
}

#[test]
fn cache_finds_artifact_without_location() {
    let r = release(1, &[]);
    let rows = location_rows(&r.release);
    assert_eq!(rows.len(), 1);
    assert!(rows[0].cid == test_cid(1));
    assert!(rows[0].at.is_none());
    let releases = stored(vec![r]);
    assert_eq!(releases.find_by_cid(&test_cid(1)).ok().unwrap().len(), 1);
    assert!(releases.locations_for(&test_cid(1)).ok().unwrap().is_empty());
}

#[test]
fn a_token_ignores_the_order_of_tips() {
    assert_eq!(head_token(&vec![oid(1), oid(2)]), head_token(&vec![oid(2), oid(1)]));
    assert!(head_token(&vec![oid(1)]) != head_token(&vec![oid(2)]));
    assert_eq!(head_token(&vec![oid(1)]), oid(1).to_text());
}

#[test]
fn the_cache_is_a_file_beside_the_objects() {
    assert_eq!(db_path("/home/u/.radicle/cobs"), "/home/u/.radicle/cobs/artifacts.db");
    assert_eq!(join_path("dir/", "x"), "dir/x");
    assert_eq!(join_path("", "x"), "x");
}

#[test]
fn a_cached_search_finds_the_same() {
    let mut other = Releases::create(id(3), oid(3), true, None, did(1), 7).unwrap();
    other.register_artifact(test_cid(2), "manual".to_owned(), did(1));
    let releases = stored(vec![release(1, &["https://a.example/"]), release(2, &[]), other]);
    for cid in [test_cid(1), test_cid(2), test_cid(3)] {
        let found: Vec<ReleaseId> =
            releases.find_by_cid(&cid).ok().unwrap().iter().map(|(id, _)| *id).collect();
        let indexed: Vec<ReleaseId> = releases
            .items
            .iter()
            .flatten()
            .filter(|(_, r)| location_rows(r).iter().any(|row| row.cid == cid))
            .map(|(id, _)| *id)
            .collect();
        assert_eq!(found, indexed);
    }
    assert_eq!(releases.find_by_cid(&test_cid(1)).ok().unwrap().len(), 2);
    assert_eq!(settle(&Fold::Broken), CacheWrite::Nothing);
}
