use radicle_artifact::cids::CidSet;
use radicle_artifact::ids::{Cid, Did, Key, Oid, ReleaseId, RepoId};
use radicle_artifact::location::{EndpointId, Url, URL_SCHEME};
use radicle_artifact::reconcile::{
    classify_locations, find_missing, reconcile_plan, snapshot, OurLocation, ReleaseArtifact,
};
use radicle_artifact::report::{change_line, Change, DanglingRow, LocationRow, RepoReport};
use radicle_artifact::share::compute_cid;
use radicle_artifact::store::Releases;

fn test_cid(n: u8) -> Cid {
    compute_cid(&[n])
}

fn test_release(n: u8) -> ReleaseId {
    ReleaseId::parse(&format!("{n:040x}")).unwrap()
}

fn key_of(byte: u8) -> Key {
    Key::from_bytes(iroh_base::SecretKey::from_bytes(&[byte; 32]).public().as_bytes())
}

fn test_endpoint(byte: u8) -> EndpointId {
    EndpointId::from_key(key_of(byte)).unwrap()
}

fn url(s: &str) -> Url {
    Url::parse(s).ok().unwrap()
}

fn bare_iroh_url() -> Url {
    url(&format!("{}://", URL_SCHEME))
}

fn undecodable_iroh_url() -> Url {
    url(&format!("{}://abc123", URL_SCHEME))
}

fn legacy_iroh_url(ep: EndpointId) -> Url {
    let host = ep.to_url().host().unwrap();
    url(&format!("iroh://{host}"))
}

fn set(cids: &[Cid]) -> CidSet {
    CidSet::from_list(&cids.to_vec())
}

fn ours(url: Url) -> OurLocation {
    OurLocation { release_id: test_release(1), cid: test_cid(1), url }
}

#[test]
fn bare_iroh_is_current_endpoint() {
    let cid = test_cid(1);
    let out = classify_locations(test_endpoint(1), &set(&[cid]), &vec![ours(bare_iroh_url())]);
    assert!(out.current_endpoint_have.contains(&cid));
    assert!(out.orphaned_self.is_empty());
    assert!(out.stale_endpoint.is_empty());
}

#[test]
fn explicit_current_endpoint_is_current() {
    let our_ep = test_endpoint(1);
    let cid = test_cid(1);
    let out = classify_locations(our_ep, &set(&[cid]), &vec![ours(our_ep.to_url())]);
    assert!(out.current_endpoint_have.contains(&cid));
    assert!(out.orphaned_self.is_empty());
    assert!(out.stale_endpoint.is_empty());
}

#[test]
fn other_endpoint_is_stale() {
    let cid = test_cid(1);
    let out = classify_locations(
        test_endpoint(1),
        &set(&[cid]),
        &vec![ours(test_endpoint(2).to_url())],
    );
    assert!(!out.current_endpoint_have.contains(&cid));
    assert!(out.orphaned_self.is_empty());
    assert_eq!(out.stale_endpoint.len(), 1);
}

#[test]
fn undecodable_host_is_stale() {
    let cid = test_cid(1);
    let out =
        classify_locations(test_endpoint(1), &set(&[cid]), &vec![ours(undecodable_iroh_url())]);
    assert!(!out.current_endpoint_have.contains(&cid));
    assert!(out.orphaned_self.is_empty());
    assert_eq!(out.stale_endpoint.len(), 1);
}

#[test]
fn current_endpoint_not_seeded_is_orphaned_self() {
    let our_ep = test_endpoint(1);
    let out = classify_locations(our_ep, &CidSet::new(), &vec![ours(our_ep.to_url())]);
    assert!(out.current_endpoint_have.contains(&test_cid(1)));
    assert_eq!(out.orphaned_self.len(), 1);
    assert!(out.stale_endpoint.is_empty());
}

#[test]
fn mixed_urls_on_same_cid_split_into_buckets() {
    let our_ep = test_endpoint(1);
    let cid = test_cid(1);
    let out = classify_locations(
        our_ep,
        &set(&[cid]),
        &vec![ours(our_ep.to_url()), ours(test_endpoint(2).to_url())],
    );
    assert!(out.current_endpoint_have.contains(&cid));
    assert!(out.orphaned_self.is_empty());
    assert_eq!(out.stale_endpoint.len(), 1);
}

#[test]
fn legacy_iroh_scheme_is_stale() {
    let our_ep = test_endpoint(1);
    let cid = test_cid(1);
    let out = classify_locations(our_ep, &set(&[cid]), &vec![ours(legacy_iroh_url(our_ep))]);
    assert!(!out.current_endpoint_have.contains(&cid));
    assert!(out.orphaned_self.is_empty());
    assert_eq!(out.stale_endpoint.len(), 1);
}

fn artifact(release: ReleaseId, timestamp: u64, cid: Cid) -> ReleaseArtifact {
    ReleaseArtifact { release_id: release, timestamp, cid }
}

#[test]
fn legacy_only_cid_is_reported_missing() {
    let our_ep = test_endpoint(1);
    let cid = test_cid(1);
    let release = test_release(1);
    let seeded = set(&[cid]);
    let classified = classify_locations(our_ep, &seeded, &vec![ours(legacy_iroh_url(our_ep))]);
    let artifacts = vec![artifact(release, 100, cid)];
    let scan = find_missing(&seeded, &classified.current_endpoint_have, &artifacts);
    assert!(scan.missing == vec![(release, cid)]);
}

#[test]
fn missing_picks_release_with_latest_timestamp() {
    let cid = test_cid(1);
    let (older, newer) = (test_release(1), test_release(2));
    let artifacts = vec![artifact(older, 100, cid), artifact(newer, 200, cid)];
    let scan = find_missing(&set(&[cid]), &CidSet::new(), &artifacts);
    assert!(scan.missing == vec![(newer, cid)]);
    assert!(scan.dangling.is_empty());
}

#[test]
fn seeded_with_current_location_is_not_missing() {
    let cid = test_cid(1);
    let artifacts = vec![artifact(test_release(1), 100, cid)];
    let scan = find_missing(&set(&[cid]), &set(&[cid]), &artifacts);
    assert!(scan.missing.is_empty());
    assert!(scan.dangling.is_empty());
}

#[test]
fn seeded_cid_with_no_matching_release_is_dangling() {
    let (seeded_cid, other_cid) = (test_cid(1), test_cid(2));
    let artifacts = vec![artifact(test_release(1), 100, other_cid)];
    let scan = find_missing(&set(&[seeded_cid]), &CidSet::new(), &artifacts);
    assert!(scan.missing.is_empty());
    assert!(scan.dangling == vec![seeded_cid]);
}

#[test]
fn missing_and_dangling_split_correctly() {
    let (anchored, orphan) = (test_cid(1), test_cid(2));
    let release = test_release(1);
    let artifacts = vec![artifact(release, 100, anchored)];
    let scan = find_missing(&set(&[anchored, orphan]), &CidSet::new(), &artifacts);
    assert!(scan.missing == vec![(release, anchored)]);
    assert!(scan.dangling == vec![orphan]);
}

#[test]
fn only_what_the_user_wants_is_removed() {
    let our_ep = test_endpoint(1);
    let locations = vec![
        OurLocation { release_id: test_release(1), cid: test_cid(1), url: our_ep.to_url() },
        OurLocation { release_id: test_release(1), cid: test_cid(2), url: our_ep.to_url() },
        OurLocation {
            release_id: test_release(1),
            cid: test_cid(3),
            url: test_endpoint(2).to_url(),
        },
    ];
    let artifacts = vec![artifact(test_release(1), 1, test_cid(4))];
    let seeded = set(&[test_cid(4), test_cid(5)]);
    let plan =
        reconcile_plan(our_ep, &seeded, &locations, &artifacts, &set(&[test_cid(2)]), false);
    assert!(plan.add == vec![(test_release(1), test_cid(4))]);
    assert!(plan.dangling == vec![test_cid(5)]);
    assert_eq!(plan.remove_orphaned.len(), 1);
    assert!(plan.remove_orphaned[0].cid == test_cid(2));
    assert_eq!(plan.orphaned_left.len(), 1);
    assert!(plan.remove_stale.is_empty());
    assert_eq!(plan.stale_left.len(), 1);
    let all = reconcile_plan(our_ep, &seeded, &locations, &artifacts, &CidSet::new(), true);
    assert_eq!(all.remove_orphaned.len(), 2);
    assert!(all.orphaned_left.is_empty());
    assert_eq!(all.remove_stale.len(), 1);
    assert!(all.stale_left.is_empty());
}

#[test]
fn reconciling_settles() {
    let user = Did { key: key_of(1) };
    let our_ep = test_endpoint(1);
    let oid = Oid { hi: 0, lo: 1 };
    let id = test_release(1);
    let mut r = Releases::create(id, oid, true, None, user, 1).unwrap();
    let (seeded_one, gone) = (test_cid(1), test_cid(2));
    r.register_artifact(seeded_one, "a".to_owned(), user);
    r.register_artifact(gone, "b".to_owned(), user);
    r.add_location(gone, our_ep.to_url(), user);
    r.add_location(gone, legacy_iroh_url(our_ep), user);
    r.add_location(gone, url("https://a.example/"), user);
    let mut releases = Releases { items: Vec::new() };
    releases.put(r);
    let seeded = set(&[seeded_one]);

    let (locations, artifacts) = snapshot(&releases, &user);
    assert_eq!(locations.len(), 2);
    assert_eq!(artifacts.len(), 2);
    let plan = reconcile_plan(our_ep, &seeded, &locations, &artifacts, &CidSet::new(), true);
    let mut r = releases.get_mut(&id).ok().unwrap();
    for (_, cid) in &plan.add {
        r.add_location(*cid, our_ep.to_url(), user);
    }
    for l in plan.remove_orphaned.iter().chain(plan.remove_stale.iter()) {
        r.remove_location(l.cid, l.url.clone(), user);
    }
    releases.put(r);

    let (locations, artifacts) = snapshot(&releases, &user);
    let again = reconcile_plan(our_ep, &seeded, &locations, &artifacts, &CidSet::new(), true);
    assert!(again.add.is_empty());
    assert!(again.remove_orphaned.is_empty());
    assert!(again.remove_stale.is_empty());
    assert!(again.dangling.is_empty());
    assert_eq!(releases.locations_for(&gone).ok().unwrap().len(), 1);
}

#[test]
fn a_set_has_no_duplicates() {
    let mut s = set(&[test_cid(1), test_cid(1), test_cid(2)]);
    assert_eq!(s.len(), 2);
    assert!(!s.is_empty());
    assert!(s.at(1) == test_cid(2));
    assert!(!s.insert(test_cid(2)));
    assert!(s.insert(test_cid(3)));
    assert!(s.contains(&test_cid(3)));
}

fn rid() -> RepoId {
    RepoId { id: Oid { hi: 0, lo: 9 } }
}

#[test]
fn a_report_counts_and_lists() {
    let mut all = RepoReport::new();
    assert_eq!(all.summary(), vec!["Reconcile: no drift.".to_owned()]);
    let mut one = RepoReport::new();
    one.added = 2;
    one.removed = 1;
    one.dangling.push(DanglingRow { rid: rid(), cid: test_cid(1) });
    all.merge(one);
    assert_eq!(
        all.summary(),
        vec![
            "Reconcile: added 2 missing location(s)".to_owned(),
            "Reconcile: removed 1 stale location(s)".to_owned(),
            String::new(),
            "Reconcile: 1 dangling tag(s) — seeded but no release references them; run `rad-artifact unseed --cid <cid>` to reclaim:".to_owned(),
            format!("  {}", rid().to_text()),
            format!("    cid: {}", test_cid(1).to_text()),
        ]
    );
    let row = LocationRow {
        rid: rid(),
        release_id: test_release(1),
        cid: test_cid(1),
        url: url("https://a.example/"),
    };
    assert_eq!(
        change_line(Change::Added, &row),
        format!(
            "added: rid={} release={} cid={} url=https://a.example/",
            rid().to_text(),
            test_release(1).to_text(),
            test_cid(1).to_text()
        )
    );
    assert!(change_line(Change::RemovedStale, &row).starts_with("removed stale-endpoint: rid="));
    assert!(rid().to_text().starts_with("rad:z"));
}
