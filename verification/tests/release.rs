use radicle_artifact::error::{Build, Create, Metadata, Redact};
use radicle_artifact::ids::{Cid, Did, Oid, ReleaseId};
use radicle_artifact::json::Json;
use radicle_artifact::location::Url;
use radicle_artifact::release::{Action, Artifact, Op, Release};
use radicle_artifact::store::{
    validate_metadata_key, validate_metadata_value_size, ReleaseMut, Releases, TagTarget,
    MAX_METADATA_KEY_LEN, MAX_METADATA_VALUE_LEN, MAX_REDACT_REASON_LEN,
};
use radicle_artifact::watch::METADATA_KEY_SIZE_BYTES;

fn did(n: u8) -> Did {
    Did::from_key_bytes(&[n; 32])
}

fn alice() -> Did {
    did(1)
}

fn bob() -> Did {
    did(2)
}

fn carol() -> Did {
    did(3)
}

fn oid(n: u8) -> Oid {
    Oid { hi: 0xabcdef01, lo: n as u128 }
}

fn id(n: u8) -> ReleaseId {
    ReleaseId { id: Oid { hi: 7, lo: n as u128 } }
}

/// An identifier of version one: raw codec, SHA2-256.
fn test_cid(n: u8) -> Cid {
    let mut digest = [0u8; 32];
    digest[0] = n;
    Cid::new_v1(0x55, 0x12, &digest).unwrap()
}

fn url(s: &str) -> Url {
    Url::parse(s).ok().unwrap()
}

fn create(n: u8, author: Did) -> ReleaseMut {
    Releases::create(id(n), oid(n), true, None, author, 1000).unwrap()
}

/// A release of the first user with one artifact.
fn with_artifact(name: &str) -> (ReleaseMut, Cid) {
    let mut release = create(1, alice());
    let cid = test_cid(1);
    release.register_artifact(cid, name.to_owned(), alice());
    (release, cid)
}

/// A release that is rebuilt from what its users have signed.
fn replay(creator: Did, ops: Vec<(Did, Vec<Action>)>) -> Release {
    let root = Op {
        author: creator,
        timestamp: 1000,
        actions: vec![Action::Create { oid: oid(1), tag: None }],
    };
    let mut release = Release::from_root(root, true).ok().unwrap();
    for (author, actions) in ops {
        release.op(Op { author, timestamp: 2000, actions });
    }
    release
}

fn has_url(artifact: &Artifact, user: &Did, wanted: &Url) -> bool {
    artifact.locations_of(user).is_some_and(|urls| urls.contains(wanted))
}

#[test]
fn e2e() {
    let mut release = create(1, alice());
    let cid = test_cid(1);
    release.register_artifact(cid, "linux-amd64 binary".to_owned(), alice());

    let alice_url = url("https://alice.example.com/artifacts/linux-amd64.tar.gz");
    release.add_location(cid, alice_url.clone(), alice());
    let bob_url = url("https://bob.example.com/mirror/linux-amd64.tar.gz");
    release.add_location(cid, bob_url.clone(), bob());

    let artifact = release.artifact(&cid).unwrap();
    assert_eq!(artifact.name(), "linux-amd64 binary");
    assert!(has_url(artifact, &alice(), &alice_url));
    assert!(has_url(artifact, &bob(), &bob_url));

    release.remove_location(cid, alice_url, alice());
    let artifact = release.artifact(&cid).unwrap();
    assert!(artifact.locations_of(&alice()).is_none());
    assert!(artifact.locations_of(&bob()).is_some());
}

#[test]
fn missing_commit() {
    let release = Releases::create(id(1), oid(9), false, None, alice(), 1);
    assert!(release.is_err());
    assert_eq!(release.err(), Some(Create::Build(Build::MissingCommit { oid: oid(9) })));
}

#[test]
fn a_history_must_start_with_a_creation() {
    let op = Op { author: alice(), timestamp: 1, actions: vec![Action::Attest { cid: test_cid(1) }] };
    assert_eq!(Release::from_root(op, true).err(), Some(Build::Initial));
    let op = Op { author: alice(), timestamp: 1, actions: Vec::new() };
    assert_eq!(Release::from_root(op, true).err(), Some(Build::Initial));
}

#[test]
fn idempotent_register_artifact() {
    let (mut release, cid) = with_artifact("first name");
    release.register_artifact(cid, "second name".to_owned(), alice());
    assert_eq!(release.artifact(&cid).unwrap().name(), "second name");
    assert_eq!(release.release.artifacts().len(), 1);
}

#[test]
fn register_artifact_records_author() {
    let (release, cid) = with_artifact("linux-amd64 binary");
    assert_eq!(release.artifact(&cid).unwrap().author(), &alice());
}

#[test]
fn register_artifact_with_size_records_hint() {
    let mut release = create(1, alice());
    let cid = test_cid(1);
    let actions = release.register_artifact_with_size(cid, "binary".to_owned(), 4096, alice());
    assert_eq!(actions.len(), 2);
    let artifact = release.artifact(&cid).unwrap();
    assert_eq!(artifact.name(), "binary");
    let hint = artifact.metadata().get(&METADATA_KEY_SIZE_BYTES.to_owned()).unwrap();
    assert_eq!(hint.as_text(), "4096");
    assert_eq!(hint.as_u64(), Some(4096));
}

#[test]
fn non_author_cannot_rename_artifact() {
    let (mut release, cid) = with_artifact("original name");
    release.register_artifact(cid, "bobs name".to_owned(), bob());
    let artifact = release.artifact(&cid).unwrap();
    assert_eq!(artifact.name(), "original name");
    assert_eq!(artifact.author(), &alice());
}

#[test]
fn add_location_for_missing_cid_is_noop() {
    let mut release = create(1, alice());
    let cid = test_cid(99);
    release.add_location(cid, url("https://example.com/file.tar.gz"), alice());
    assert!(release.artifact(&cid).is_none());
}

fn stored(items: Vec<ReleaseMut>) -> Releases {
    let mut releases = Releases { items: Vec::new() };
    for r in items {
        releases.put(r);
    }
    releases
}

#[test]
fn find_by_commit_returns_matching_releases() {
    let releases = stored(vec![create(1, alice()), create(2, alice())]);
    let results = releases.find_by_commit(oid(1));
    assert_eq!(results.len(), 1);
    match results[0] {
        Ok((found, release)) => {
            assert!(*found == id(1));
            assert_eq!(release.oid(), &oid(1));
        }
        Err(_) => panic!("unreadable"),
    }
}

#[test]
fn find_by_commit_returns_empty_for_no_match() {
    let releases = stored(vec![create(1, alice())]);
    assert!(releases.find_by_commit(oid(2)).is_empty());
}

#[test]
fn multiple_locations_per_node() {
    let (mut release, cid) = with_artifact("linux-amd64 binary");
    let url1 = url("https://alice.example.com/primary/linux-amd64.tar.gz");
    let url2 = url("https://alice.example.com/mirror/linux-amd64.tar.gz");
    release.add_location(cid, url1.clone(), alice());
    release.add_location(cid, url2.clone(), alice());

    let urls = release.artifact(&cid).unwrap().locations_of(&alice()).unwrap();
    assert_eq!(urls.len(), 2);
    assert!(urls.contains(&url1));
    assert!(urls.contains(&url2));

    release.add_location(cid, url1.clone(), alice());
    assert_eq!(release.artifact(&cid).unwrap().locations_of(&alice()).unwrap().len(), 2);

    release.remove_location(cid, url1, alice());
    let urls = release.artifact(&cid).unwrap().locations_of(&alice()).unwrap();
    assert_eq!(urls.len(), 1);
    assert!(urls.contains(&url2));

    release.remove_location(cid, url2, alice());
    assert!(release.artifact(&cid).unwrap().locations_of(&alice()).is_none());
}

#[test]
fn remove_location_for_node_that_never_added_is_noop() {
    let (mut release, cid) = with_artifact("test artifact");
    release.remove_location(cid, url("https://example.com/file.tar.gz"), bob());
    assert!(release.artifact(&cid).unwrap().locations().is_empty());
}

#[test]
fn reload_refreshes_from_store() {
    let mut release = create(1, alice());
    let cid = test_cid(1);
    let signed = release.register_artifact(cid, "test artifact".to_owned(), alice());
    let kept = replay(alice(), vec![(alice(), signed)]);
    release.reload(Some(kept)).ok().unwrap();
    assert!(release.artifact(&cid).is_some());
    assert_eq!(release.artifact(&cid).unwrap().name(), "test artifact");
    assert_eq!(release.reload(None).err().map(|r| r == id(1)), Some(true));
}

#[test]
fn multi_delegate_attestation() {
    let (mut release, cid) = with_artifact("linux-amd64 binary");
    release.attest(cid, alice());
    release.attest(cid, bob());
    release.attest(cid, carol());
    let artifact = release.artifact(&cid).unwrap();
    assert_eq!(artifact.attestations().len(), 2);
    assert!(!artifact.is_attested_by(&alice()));
    assert!(artifact.is_attested_by(&bob()));
    assert!(artifact.is_attested_by(&carol()));
}

#[test]
fn author_self_attestation_is_noop() {
    let (mut release, cid) = with_artifact("test artifact");
    release.attest(cid, alice());
    let artifact = release.artifact(&cid).unwrap();
    assert!(!artifact.is_attested_by(&alice()));
    assert_eq!(artifact.attestations().len(), 0);
}

#[test]
fn idempotent_attestation() {
    let (mut release, cid) = with_artifact("test artifact");
    release.attest(cid, bob());
    release.attest(cid, bob());
    assert_eq!(release.artifact(&cid).unwrap().attestations().len(), 1);
}

#[test]
fn attest_missing_cid_is_noop() {
    let mut release = create(1, alice());
    let cid = test_cid(99);
    release.attest(cid, alice());
    assert!(release.artifact(&cid).is_none());
}

#[test]
fn attestation_persists_through_reload() {
    let mut release = create(1, alice());
    let cid = test_cid(1);
    let ops = vec![
        (alice(), release.register_artifact(cid, "test artifact".to_owned(), alice())),
        (bob(), release.attest(cid, bob())),
    ];
    release.reload(Some(replay(alice(), ops))).ok().unwrap();
    let artifact = release.artifact(&cid).unwrap();
    assert!(artifact.is_attested_by(&bob()));
    assert_eq!(artifact.attestations().len(), 1);
}

#[test]
fn redact_artifact() {
    let (mut release, cid) = with_artifact("linux-amd64 binary");
    release.redact(cid, "compromised build".to_owned(), alice()).ok().unwrap();
    let artifact = release.artifact(&cid).unwrap();
    assert!(artifact.is_redacted());
    assert!(artifact.is_redacted_by(&alice()));
    assert_eq!(artifact.redaction_by(&alice()), Some("compromised build"));
    assert_eq!(artifact.redactions().len(), 1);
}

#[test]
fn multi_user_redaction() {
    let (mut release, cid) = with_artifact("linux-amd64 binary");
    release.redact(cid, "supply chain attack".to_owned(), alice()).ok().unwrap();
    release.redact(cid, "failed reproducibility check".to_owned(), bob()).ok().unwrap();
    let artifact = release.artifact(&cid).unwrap();
    assert_eq!(artifact.redactions().len(), 2);
    assert_eq!(artifact.redaction_by(&alice()), Some("supply chain attack"));
    assert_eq!(artifact.redaction_by(&bob()), Some("failed reproducibility check"));
}

#[test]
fn multi_user_same_reason() {
    let (mut release, cid) = with_artifact("linux-amd64 binary");
    release.redact(cid, "malware detected".to_owned(), alice()).ok().unwrap();
    release.redact(cid, "malware detected".to_owned(), bob()).ok().unwrap();
    let artifact = release.artifact(&cid).unwrap();
    assert_eq!(artifact.redactions().len(), 2);
    assert!(artifact.is_redacted_by(&alice()));
    assert!(artifact.is_redacted_by(&bob()));
}

#[test]
fn redact_updates_reason() {
    let (mut release, cid) = with_artifact("linux-amd64 binary");
    release.redact(cid, "initial reason".to_owned(), alice()).ok().unwrap();
    release.redact(cid, "updated reason".to_owned(), alice()).ok().unwrap();
    let artifact = release.artifact(&cid).unwrap();
    assert_eq!(artifact.redactions().len(), 1);
    assert_eq!(artifact.redaction_by(&alice()), Some("updated reason"));
}

#[test]
fn redaction_persists_through_reload() {
    let mut release = create(1, alice());
    let cid = test_cid(1);
    let ops = vec![
        (alice(), release.register_artifact(cid, "test artifact".to_owned(), alice())),
        (alice(), release.redact(cid, "compromised".to_owned(), alice()).ok().unwrap()),
    ];
    release.reload(Some(replay(alice(), ops))).ok().unwrap();
    let artifact = release.artifact(&cid).unwrap();
    assert!(artifact.is_redacted_by(&alice()));
    assert_eq!(artifact.redaction_by(&alice()), Some("compromised"));
}

#[test]
fn redact_removes_attestation() {
    let (mut release, cid) = with_artifact("linux-amd64 binary");
    release.attest(cid, bob());
    release.redact(cid, "source was compromised".to_owned(), bob()).ok().unwrap();
    let artifact = release.artifact(&cid).unwrap();
    assert!(!artifact.is_attested_by(&bob()));
    assert!(artifact.is_redacted_by(&bob()));
}

#[test]
fn redact_then_attest_is_blocked() {
    let (mut release, cid) = with_artifact("linux-amd64 binary");
    release.redact(cid, "suspected issue".to_owned(), bob()).ok().unwrap();
    release.attest(cid, bob());
    let artifact = release.artifact(&cid).unwrap();
    assert!(!artifact.is_attested_by(&bob()));
    assert!(artifact.is_redacted_by(&bob()));
}

#[test]
fn redact_only_removes_own_attestation() {
    let (mut release, cid) = with_artifact("linux-amd64 binary");
    release.attest(cid, bob());
    release.redact(cid, "compromised".to_owned(), alice()).ok().unwrap();
    let artifact = release.artifact(&cid).unwrap();
    assert!(artifact.is_redacted_by(&alice()));
    assert!(artifact.is_attested_by(&bob()));
}

#[test]
fn redact_empty_reason() {
    let (mut release, cid) = with_artifact("linux-amd64 binary");
    release.redact(cid, "".to_owned(), alice()).ok().unwrap();
    let artifact = release.artifact(&cid).unwrap();
    assert!(artifact.is_redacted_by(&alice()));
    assert_eq!(artifact.redaction_by(&alice()), Some(""));
}

#[test]
fn redact_reason_too_long() {
    let (mut release, cid) = with_artifact("linux-amd64 binary");
    let long_reason = "x".repeat(MAX_REDACT_REASON_LEN + 1);
    let result = release.redact(cid, long_reason, alice());
    assert!(result.is_err());
    assert_eq!(
        result.err().unwrap().message(),
        "redaction reason exceeds maximum length of 2048 bytes (got 2049)"
    );
    assert!(!release.artifact(&cid).unwrap().is_redacted());
    let longest = "x".repeat(MAX_REDACT_REASON_LEN);
    assert!(release.redact(cid, longest, alice()).is_ok());
}

#[test]
fn redact_nonexistent_cid_errors() {
    let mut release = create(1, alice());
    let cid = test_cid(99);
    let result = release.redact(cid, "does not matter".to_owned(), alice());
    assert!(result.is_err());
    assert!(matches!(result.err(), Some(Redact::NotFound { cid: c }) if c == cid));
    assert_eq!(
        Redact::NotFound { cid }.message(),
        format!("artifact {} not found in release", cid.to_text())
    );
}

#[test]
fn idempotent_create() {
    let mut releases = Releases { items: Vec::new() };
    let r1 = create(1, alice());
    let r1_id = *r1.id();
    releases.put(r1);
    let r2 = create(1, alice());
    let r2_id = *r2.id();
    assert_eq!(r1_id, r2_id);
    releases.put(r2);
    assert_eq!(releases.count(), 1);
    assert_eq!(releases.find_by_commit(oid(1)).len(), 1);
    let (a, b) = (releases.get(&r1_id).unwrap(), releases.get(&r2_id).unwrap());
    assert_eq!((a.oid(), a.tag(), a.creator()), (b.oid(), b.tag(), b.creator()));
    assert_eq!((a.timestamp(), a.len()), (b.timestamp(), b.len()));
}

#[test]
fn storing_again_replaces() {
    let mut releases = stored(vec![carrying(1, alice(), &[1]), create(2, alice())]);
    releases.put(carrying(1, alice(), &[1, 2]));
    assert_eq!(releases.count(), 2);
    assert_eq!(releases.get(&id(1)).unwrap().len(), 2);
    assert_eq!(releases.find_by_cid(&test_cid(1)).ok().unwrap().len(), 1);
}

#[test]
fn get_mut_not_found() {
    let mut releases = Releases { items: Vec::new() };
    assert!(releases.get_mut(&id(5)).is_err());
    let mut releases = stored(vec![create(1, alice()), create(2, alice())]);
    assert!(releases.get_mut(&id(5)).is_err());
    let taken = releases.get_mut(&id(2)).ok().unwrap();
    assert!(*taken.id() == id(2));
    assert_eq!(releases.count(), 1);
    releases.put(taken);
    assert_eq!(releases.count(), 2);
}

#[test]
fn locations_by_scheme_filters_correctly() {
    let (mut release, cid) = with_artifact("test artifact");
    let https_url = url("https://example.com/file.tar.gz");
    let iroh_url = url("radiroh://abc123");
    let http_url = url("http://mirror.example.com/file.tar.gz");
    release.add_location(cid, https_url.clone(), alice());
    release.add_location(cid, iroh_url.clone(), alice());
    release.add_location(cid, http_url.clone(), bob());
    let artifact = release.artifact(&cid).unwrap();

    let iroh_locations = artifact.locations_by_scheme("radiroh");
    assert_eq!(iroh_locations.len(), 1);
    assert!(iroh_locations[0].0.same(&iroh_url));
    assert_eq!(iroh_locations[0].1, alice());

    let https_locations = artifact.locations_by_scheme("https");
    assert_eq!(https_locations.len(), 1);
    assert!(https_locations[0].0.same(&https_url));

    let http_locations = artifact.locations_by_scheme("http");
    assert_eq!(http_locations.len(), 1);
    assert!(http_locations[0].0.same(&http_url));
    assert_eq!(http_locations[0].1, bob());

    assert!(artifact.locations_by_scheme("ftp").is_empty());
    assert_eq!(artifact.all_locations().len(), 3);
}

#[test]
fn locations_by_scheme_duplicate_url_from_two_dids() {
    let (mut release, cid) = with_artifact("test artifact");
    let iroh_url = url("radiroh://");
    release.add_location(cid, iroh_url.clone(), alice());
    release.add_location(cid, iroh_url.clone(), bob());
    let artifact = release.artifact(&cid).unwrap();
    let iroh_locations = artifact.locations_by_scheme("radiroh");
    assert_eq!(iroh_locations.len(), 2);
    let dids: Vec<Did> = iroh_locations.iter().map(|(_, did)| *did).collect();
    assert!(dids.contains(&alice()));
    assert!(dids.contains(&bob()));
    assert!(iroh_locations.iter().all(|(url, _)| url.same(&iroh_url)));
}

fn carrying(n: u8, author: Did, cids: &[u8]) -> ReleaseMut {
    let mut r = create(n, author);
    for c in cids {
        r.register_artifact(test_cid(*c), format!("artifact-{c}"), author);
    }
    r
}

#[test]
fn find_by_cid_finds_across_releases() {
    let releases = stored(vec![carrying(1, alice(), &[1]), carrying(2, alice(), &[2])]);
    let found = releases.find_by_cid(&test_cid(1)).ok().unwrap();
    assert_eq!(found.len(), 1);
    assert_eq!(found[0].1.oid(), &oid(1));
    assert!(found[0].1.artifact(&test_cid(1)).is_some());

    let found = releases.find_by_cid(&test_cid(2)).ok().unwrap();
    assert_eq!(found.len(), 1);
    assert_eq!(found[0].1.oid(), &oid(2));
    assert!(found[0].1.artifact(&test_cid(2)).is_some());

    assert!(releases.find_by_cid(&test_cid(99)).ok().unwrap().is_empty());
}

#[test]
fn find_by_cid_aggregates_duplicate_oid_releases() {
    let mut one = Releases::create(id(1), oid(1), true, None, alice(), 1).unwrap();
    one.register_artifact(test_cid(1), "alice-built".to_owned(), alice());
    let mut two = Releases::create(id(2), oid(1), true, None, bob(), 2).unwrap();
    two.register_artifact(test_cid(1), "bob-built".to_owned(), bob());
    let releases = stored(vec![one, two]);
    let found = releases.find_by_cid(&test_cid(1)).ok().unwrap();
    assert_eq!(found.len(), 2);
    assert!(found.iter().all(|(_, r)| r.oid() == &oid(1)));
}

#[test]
fn find_by_cid_aggregates_across_different_oids() {
    let releases = stored(vec![carrying(1, alice(), &[1]), carrying(2, alice(), &[1])]);
    let found = releases.find_by_cid(&test_cid(1)).ok().unwrap();
    assert_eq!(found.len(), 2);
    let oids: Vec<Oid> = found.iter().map(|(_, r)| *r.oid()).collect();
    assert!(oids.contains(&oid(1)));
    assert!(oids.contains(&oid(2)));
}

#[test]
fn an_unreadable_release_stops_a_search() {
    let mut releases = stored(vec![carrying(1, alice(), &[1])]);
    releases.items.push(Err("broken".to_owned()));
    assert_eq!(releases.find_by_cid(&test_cid(1)).err(), Some(&"broken".to_owned()));
    assert_eq!(releases.locations_for(&test_cid(1)).err(), Some(&"broken".to_owned()));
    assert_eq!(releases.find_by_commit(oid(9)).len(), 1);
}

#[test]
fn create_records_tag_oid() {
    let tag = oid(77);
    let made = Releases::create(
        id(1),
        oid(1),
        true,
        Some((tag, TagTarget::Commit(oid(1)))),
        alice(),
        5,
    )
    .unwrap();
    let releases = stored(vec![made]);
    let release = releases.get(&id(1)).unwrap();
    assert_eq!(release.tag(), Some(tag));
    assert_eq!(release.oid(), &oid(1));
    assert_eq!(release.timestamp(), 5);
}

#[test]
fn create_rejects_tag_pointing_at_other_commit() {
    let (tag_oid, other) = (oid(77), oid(2));
    let tag = Some((tag_oid, TagTarget::Commit(other)));
    match Releases::create(id(1), oid(1), true, tag, alice(), 5) {
        Err(Create::TagMismatch { tag, expected, actual }) => {
            assert_eq!(tag, tag_oid);
            assert_eq!(expected, oid(1));
            assert_eq!(actual, other);
        }
        Err(other) => panic!("expected TagMismatch, got {other:?}"),
        Ok(_) => panic!("expected TagMismatch, got Ok"),
    }
}

#[test]
fn create_rejects_unknown_tag_oid() {
    let bogus = oid(66);
    match Releases::create(id(1), oid(1), true, Some((bogus, TagTarget::Missing)), alice(), 5) {
        Err(Create::MissingTag { tag, .. }) => assert_eq!(tag, bogus),
        Err(other) => panic!("expected MissingTag, got {other:?}"),
        Ok(_) => panic!("expected MissingTag, got Ok"),
    }
}

#[test]
fn create_rejects_commit_oid_as_tag() {
    match Releases::create(id(1), oid(1), true, Some((oid(1), TagTarget::Missing)), alice(), 5) {
        Err(Create::MissingTag { tag, .. }) => assert_eq!(tag, oid(1)),
        Err(other) => panic!("expected MissingTag, got {other:?}"),
        Ok(_) => panic!("expected MissingTag, got Ok"),
    }
}

#[test]
fn create_rejects_a_tag_that_leads_nowhere() {
    let made = Releases::create(id(1), oid(1), true, Some((oid(7), TagTarget::Unpeelable)), alice(), 5);
    assert_eq!(made.err(), Some(Create::PeelFailed { tag: oid(7) }));
}

#[test]
fn create_without_tag_leaves_none() {
    let releases = stored(vec![create(1, alice())]);
    assert_eq!(releases.get(&id(1)).unwrap().tag(), None);
}

#[test]
fn tag_persists_through_reload() {
    let root = Op {
        author: alice(),
        timestamp: 9,
        actions: vec![Action::Create { oid: oid(1), tag: Some(oid(77)) }],
    };
    let release = Release::from_root(root, true).ok().unwrap();
    assert_eq!(release.tag(), Some(oid(77)));
}

#[test]
fn creator_persists_through_reload() {
    let release = replay(alice(), Vec::new());
    assert_eq!(release.creator(), &alice());
}

#[test]
fn a_later_creation_changes_nothing() {
    let release =
        replay(alice(), vec![(bob(), vec![Action::Create { oid: oid(9), tag: Some(oid(8)) }])]);
    assert_eq!(release.oid(), &oid(1));
    assert_eq!(release.tag(), None);
    assert_eq!(release.creator(), &alice());
}

#[test]
fn set_metadata_basic() {
    let (mut release, cid) = with_artifact("binary");
    release
        .set_metadata(cid, "build-env".to_owned(), Json::string("nix --pure"), alice())
        .ok()
        .unwrap();
    let artifact = release.artifact(&cid).unwrap();
    let value = artifact.metadata().get(&"build-env".to_owned()).unwrap();
    assert_eq!(value.as_text(), "\"nix --pure\"");
    assert_eq!(value.as_string(), Some("nix --pure".to_owned()));
}

#[test]
fn set_metadata_accepts_json_object() {
    let (mut release, cid) = with_artifact("binary");
    let value =
        Json::parse("{ \"url\": \"https://example.com/sbom.json\", \"format\": \"cyclonedx\" }")
            .ok()
            .unwrap();
    release.set_metadata(cid, "sbom".to_owned(), value.clone(), alice()).ok().unwrap();
    let got = release.artifact(&cid).unwrap().metadata().get(&"sbom".to_owned()).unwrap();
    assert!(got.same(&value));
}

#[test]
fn set_metadata_last_writer_wins() {
    let (mut release, cid) = with_artifact("binary");
    release.set_metadata(cid, "key".to_owned(), Json::string("first"), alice()).ok().unwrap();
    release.set_metadata(cid, "key".to_owned(), Json::string("second"), bob()).ok().unwrap();
    let got = release.artifact(&cid).unwrap().metadata().get(&"key".to_owned()).unwrap();
    assert_eq!(got.as_string(), Some("second".to_owned()));
}

#[test]
fn remove_metadata_drops_key() {
    let (mut release, cid) = with_artifact("binary");
    release.set_metadata(cid, "a".to_owned(), Json::string("1"), alice()).ok().unwrap();
    release.set_metadata(cid, "b".to_owned(), Json::string("2"), alice()).ok().unwrap();
    release.remove_metadata(cid, "a".to_owned(), alice());
    let metadata = release.artifact(&cid).unwrap().metadata();
    assert!(metadata.get(&"a".to_owned()).is_none());
    assert_eq!(metadata.get(&"b".to_owned()).unwrap().as_string(), Some("2".to_owned()));
}

#[test]
fn set_metadata_rejects_invalid_keys() {
    let (mut release, cid) = with_artifact("binary");
    assert!(matches!(
        release.set_metadata(cid, "".to_owned(), Json::string("v"), alice()),
        Err(Metadata::EmptyKey),
    ));
    let too_long = "x".repeat(MAX_METADATA_KEY_LEN + 1);
    assert!(matches!(
        release.set_metadata(cid, too_long, Json::string("v"), alice()),
        Err(Metadata::KeyTooLong { .. }),
    ));
    assert!(matches!(
        release.set_metadata(cid, "bad\nkey".to_owned(), Json::string("v"), alice()),
        Err(Metadata::KeyControlChar { ch: '\n' }),
    ));
    assert!(release.artifact(&cid).unwrap().metadata().is_empty());
}

#[test]
fn a_key_is_measured_in_bytes() {
    let wide = "ä".repeat(MAX_METADATA_KEY_LEN / 2);
    assert!(validate_metadata_key(&wide).is_ok());
    let wider = "ä".repeat(MAX_METADATA_KEY_LEN / 2 + 1);
    assert_eq!(
        validate_metadata_key(&wider),
        Err(Metadata::KeyTooLong { actual: 258, max: 256 })
    );
    assert_eq!(
        validate_metadata_key("a\u{7f}\n"),
        Err(Metadata::KeyControlChar { ch: '\u{7f}' })
    );
    assert_eq!(
        Metadata::KeyControlChar { ch: '\n' }.message(),
        "metadata key contains control character '\\n'"
    );
    assert_eq!(Metadata::EmptyKey.message(), "metadata key must not be empty");
}

#[test]
fn set_metadata_rejects_oversized_value() {
    let (mut release, cid) = with_artifact("binary");
    let big = Json::string(&"x".repeat(MAX_METADATA_VALUE_LEN + 1));
    assert!(matches!(
        release.set_metadata(cid, "k".to_owned(), big, alice()),
        Err(Metadata::ValueTooLarge { .. }),
    ));
    assert!(release.artifact(&cid).unwrap().metadata().is_empty());
    let fitting = Json::string(&"x".repeat(MAX_METADATA_VALUE_LEN - 2));
    assert!(validate_metadata_value_size(&fitting).is_ok());
    let over = Json::string(&"x".repeat(MAX_METADATA_VALUE_LEN - 1));
    assert_eq!(
        validate_metadata_value_size(&over).err().unwrap().message(),
        "metadata value exceeds maximum length of 8192 bytes (got 8193)"
    );
}

#[test]
fn set_metadata_for_missing_cid_is_noop() {
    let mut release = create(1, alice());
    let cid = test_cid(99);
    release.set_metadata(cid, "k".to_owned(), Json::string("v"), alice()).ok().unwrap();
    assert!(release.artifact(&cid).is_none());
}

#[test]
fn remove_metadata_for_missing_key_is_noop() {
    let (mut release, cid) = with_artifact("binary");
    release.remove_metadata(cid, "missing".to_owned(), alice());
    assert!(release.artifact(&cid).unwrap().metadata().is_empty());
}

#[test]
fn metadata_persists_through_reload() {
    let mut release = create(1, alice());
    let cid = test_cid(1);
    let ops = vec![
        (alice(), release.register_artifact(cid, "binary".to_owned(), alice())),
        (
            alice(),
            release
                .set_metadata(cid, "build".to_owned(), Json::string("ok"), alice())
                .ok()
                .unwrap(),
        ),
    ];
    let rebuilt = replay(alice(), ops);
    let value = rebuilt.artifact(&cid).unwrap().metadata().get(&"build".to_owned()).unwrap();
    assert_eq!(value.as_string(), Some("ok".to_owned()));
}

#[test]
fn count_counts_release_cobs_without_folding() {
    let mut releases = stored(vec![
        carrying(1, alice(), &[1]),
        carrying(2, alice(), &[1]),
        carrying(3, alice(), &[1]),
    ]);
    assert_eq!(releases.count(), 3);
    let mut first = releases.get_mut(&id(1)).ok().unwrap();
    first.redact(test_cid(1), "oops".to_owned(), alice()).ok().unwrap();
    releases.put(first);
    assert_eq!(releases.count(), 3);
    releases.items.push(Err("broken".to_owned()));
    assert_eq!(releases.count(), 4);
}

#[test]
fn removing_undoes_adding() {
    let (mut release, cid) = with_artifact("a");
    let (a, b) = (url("https://a.example/"), url("https://b.example/"));
    release.add_location(cid, a.clone(), alice());
    release.add_location(cid, b.clone(), bob());
    release.remove_location(cid, b, bob());
    let artifact = release.artifact(&cid).unwrap();
    assert!(has_url(artifact, &alice(), &a));
    assert!(artifact.locations_of(&bob()).is_none());
    assert_eq!(artifact.locations().len(), 1);
}

#[test]
fn artifacts_keep_the_order_of_registration() {
    let release = carrying(1, alice(), &[9, 3, 7]);
    let order: Vec<Cid> = release.release.artifacts().iter().map(|(c, _)| *c).collect();
    assert!(order == vec![test_cid(9), test_cid(3), test_cid(7)]);
}

#[test]
fn the_creating_action_refers_to_its_commit() {
    assert_eq!(Action::Create { oid: oid(1), tag: Some(oid(2)) }.parents(), vec![oid(1)]);
    assert!(Action::Attest { cid: test_cid(1) }.parents().is_empty());
}

#[test]
fn creation_errors_say_what_is_wrong() {
    let (a, b) = (oid(1).to_text(), oid(2).to_text());
    assert_eq!(
        Create::MissingTag { tag: oid(1) }.message(""),
        format!("annotated tag {a} not found in repository")
    );
    assert_eq!(
        Create::PeelFailed { tag: oid(1) }.message(""),
        format!("annotated tag {a} could not be resolved to a commit")
    );
    assert_eq!(
        Create::TagMismatch { tag: oid(1), expected: oid(2), actual: oid(1) }.message(""),
        format!("annotated tag {a} peels to commit {a}, expected {b}")
    );
    assert_eq!(
        Build::MissingCommit { oid: oid(2) }.message("no such object"),
        format!("missing commit for release {b}: no such object")
    );
    assert_eq!(
        Build::Initial.message(""),
        "initial action of release must create with an OID"
    );
    assert_eq!(
        Create::Build(Build::Initial).message(""),
        "initial action of release must create with an OID"
    );
}
