use radicle_artifact::ids::{Cid, Did, Oid, ReleaseId};
use radicle_artifact::json::Json;
use radicle_artifact::share::compute_cid;
use radicle_artifact::sorted::{SortedMap, SortedSet};
use radicle_artifact::store::Releases;
use radicle_artifact::release::Release;
use radicle_artifact::trust::{classify, Candidate, Untrusted};
use radicle_artifact::watch::{fits, wanted, METADATA_KEY_SIZE_BYTES};

fn did(n: u8) -> Did {
    Did::from_key_bytes(&[n; 32])
}

const DELEGATE: u8 = 1;
const OTHER_DELEGATE: u8 = 2;
const LOCAL: u8 = 3;
const STRANGER: u8 = 4;

fn delegates() -> SortedSet<Did> {
    let mut set = SortedSet::new();
    set.insert(did(DELEGATE));
    set.insert(did(OTHER_DELEGATE));
    set
}

fn redactions(list: &[(u8, &str)]) -> SortedMap<Did, String> {
    let mut map = SortedMap::new();
    for (n, reason) in list {
        map.insert(did(*n), reason.to_string());
    }
    map
}

fn check(
    creator: u8,
    author: u8,
    redacted: &[(u8, &str)],
    all_authors: bool,
) -> Result<(), Untrusted> {
    let redactions = redactions(redacted);
    let candidate = Candidate {
        release_creator: did(creator),
        artifact_author: did(author),
        redactions: &redactions,
    };
    classify(&candidate, &delegates(), &did(LOCAL), all_authors)
}

fn is_author(r: Result<(), Untrusted>, n: u8) -> bool {
    matches!(r, Err(Untrusted::Author(d)) if d == did(n))
}

#[test]
fn delegate_registered_artifact_verifies() {
    assert!(check(DELEGATE, DELEGATE, &[], false).is_ok());
}

#[test]
fn stranger_authored_artifact_is_rejected() {
    assert!(is_author(check(DELEGATE, STRANGER, &[], false), STRANGER));
    assert!(check(DELEGATE, STRANGER, &[], true).is_ok());
}

#[test]
fn stranger_created_release_is_rejected() {
    assert!(is_author(check(STRANGER, DELEGATE, &[], false), STRANGER));
    assert!(check(STRANGER, DELEGATE, &[], true).is_ok());
}

#[test]
fn own_artifact_verifies_without_all_authors() {
    assert!(check(LOCAL, LOCAL, &[], false).is_ok());
}

#[test]
fn delegate_redaction_is_rejected() {
    let list = [(OTHER_DELEGATE, "compromised")];
    match check(DELEGATE, DELEGATE, &list, false) {
        Err(Untrusted::Redacted(map)) => {
            assert_eq!(map.len(), 1);
            assert_eq!(map.get(&did(OTHER_DELEGATE)), Some(&"compromised".to_owned()));
        }
        _ => panic!("expected a redaction"),
    }
    assert!(check(DELEGATE, DELEGATE, &list, true).is_err());
}

#[test]
fn self_redaction_is_rejected() {
    assert!(matches!(
        check(DELEGATE, DELEGATE, &[(DELEGATE, "bad build")], false),
        Err(Untrusted::Redacted(_))
    ));
    assert!(matches!(
        check(DELEGATE, STRANGER, &[(STRANGER, "bad build")], true),
        Err(Untrusted::Redacted(_))
    ));
}

#[test]
fn stranger_redaction_does_not_block() {
    assert!(check(DELEGATE, DELEGATE, &[(STRANGER, "trust me")], false).is_ok());
    assert!(check(DELEGATE, DELEGATE, &[(STRANGER, "trust me")], true).is_ok());
}

#[test]
fn only_trusted_redactions_are_reported() {
    let list = [(STRANGER, "noise"), (OTHER_DELEGATE, "real reason")];
    let Err(Untrusted::Redacted(reported)) = check(DELEGATE, DELEGATE, &list, false) else {
        panic!("expected a redaction");
    };
    assert_eq!(reported.len(), 1);
    assert_eq!(reported.get(&did(OTHER_DELEGATE)), Some(&"real reason".to_owned()));
}

fn cid(seed: &[u8]) -> Cid {
    compute_cid(seed)
}

/// A release with one artifact. A higher `n` is the newer release.
fn release(
    n: u8,
    creator: u8,
    author: u8,
    cid: Cid,
    redacted: &[(u8, &str)],
    size: Option<u64>,
) -> (ReleaseId, Release) {
    let oid = Oid { hi: 0, lo: n as u128 };
    let id = ReleaseId { id: oid };
    let mut r = Releases::create(id, oid, true, None, did(creator), n as u64).unwrap();
    match size {
        Some(size) => {
            r.register_artifact_with_size(cid, "artifact".to_owned(), size, did(author));
        }
        None => {
            r.register_artifact(cid, "artifact".to_owned(), did(author));
        }
    }
    for (who, reason) in redacted {
        r.redact(cid, reason.to_string(), did(*who)).ok().unwrap();
    }
    (id, r.release)
}

fn only_delegate() -> SortedSet<Did> {
    let mut set = SortedSet::new();
    set.insert(did(DELEGATE));
    set
}

fn seeds_nothing(_: &Cid) -> bool {
    false
}

#[test]
fn delegate_artifact_is_wanted() {
    let r = release(1, DELEGATE, DELEGATE, cid(b"a"), &[], Some(10));
    let got = wanted(&vec![r], &only_delegate(), &did(LOCAL), seeds_nothing);
    assert_eq!(got.len(), 1);
    assert!(got[0].cid == cid(b"a"));
    assert_eq!(got[0].size_hint, Some(10));
    assert_eq!(got[0].name, "artifact");
}

#[test]
fn stranger_artifact_is_not_wanted() {
    let r = release(1, STRANGER, STRANGER, cid(b"a"), &[], None);
    assert!(wanted(&vec![r], &only_delegate(), &did(LOCAL), seeds_nothing).is_empty());
}

#[test]
fn delegate_redaction_withdraws_the_artifact() {
    let r = release(1, DELEGATE, DELEGATE, cid(b"a"), &[(DELEGATE, "compromised")], None);
    assert!(wanted(&vec![r], &only_delegate(), &did(LOCAL), seeds_nothing).is_empty());
}

#[test]
fn already_seeded_is_skipped() {
    let r = release(1, DELEGATE, DELEGATE, cid(b"a"), &[], None);
    assert!(wanted(&vec![r], &only_delegate(), &did(LOCAL), |_: &Cid| true).is_empty());
}

#[test]
fn a_cid_in_two_releases_is_wanted_once_under_the_newest() {
    let old = release(1, DELEGATE, DELEGATE, cid(b"a"), &[], None);
    let new = release(2, DELEGATE, DELEGATE, cid(b"a"), &[], None);
    let new_id = new.0;
    let got = wanted(&vec![old, new], &only_delegate(), &did(LOCAL), seeds_nothing);
    assert_eq!(got.len(), 1);
    assert!(got[0].release_id == new_id);
}

#[test]
fn the_newest_release_decides() {
    let old = release(1, DELEGATE, DELEGATE, cid(b"a"), &[], None);
    let new = release(2, STRANGER, STRANGER, cid(b"a"), &[], None);
    assert!(wanted(&vec![old, new], &only_delegate(), &did(LOCAL), seeds_nothing).is_empty());
}

#[test]
fn what_is_wanted_comes_newest_first() {
    let rs = vec![
        release(1, DELEGATE, DELEGATE, cid(b"a"), &[], None),
        release(3, DELEGATE, DELEGATE, cid(b"c"), &[], None),
        release(2, LOCAL, LOCAL, cid(b"b"), &[], None),
    ];
    let got = wanted(&rs, &only_delegate(), &did(LOCAL), seeds_nothing);
    let cids: Vec<Cid> = got.iter().map(|w| w.cid).collect();
    assert!(cids == vec![cid(b"c"), cid(b"b"), cid(b"a")]);
}

#[test]
fn a_size_that_is_no_number_is_no_hint() {
    let oid = Oid { hi: 0, lo: 1 };
    let mut r =
        Releases::create(ReleaseId { id: oid }, oid, true, None, did(DELEGATE), 1).unwrap();
    r.register_artifact(cid(b"a"), "a".to_owned(), did(DELEGATE));
    r.set_metadata(
        cid(b"a"),
        METADATA_KEY_SIZE_BYTES.to_owned(),
        Json::string("many"),
        did(DELEGATE),
    )
    .ok()
    .unwrap();
    let got = wanted(
        &vec![(ReleaseId { id: oid }, r.release)],
        &only_delegate(),
        &did(LOCAL),
        seeds_nothing,
    );
    assert_eq!(got[0].size_hint, None);
}

#[test]
fn no_limit_always_fits() {
    assert!(fits(None, u64::MAX, Some(u64::MAX)));
}

#[test]
fn a_hint_over_the_limit_does_not_fit() {
    assert!(fits(Some(100), 40, Some(60)));
    assert!(!fits(Some(100), 41, Some(60)));
}

#[test]
fn a_missing_hint_fits_while_under_the_limit() {
    assert!(fits(Some(100), 99, None));
    assert!(!fits(Some(100), 100, None));
}

#[test]
fn sizes_do_not_wrap_around() {
    assert!(!fits(Some(100), u64::MAX, Some(2)));
    assert!(fits(Some(u64::MAX), u64::MAX, Some(2)));
}
