use radicle_artifact::command::{
    error_line, exit_code, is_announced, needs_signer, pretty_style, route, use_color, use_pretty,
    Command, ComputeCid, Create, Delete, List, Route, Unseed,
};
use radicle_artifact::display::Style;
use radicle_artifact::ids::{Cid, Did, Oid, ReleaseId, RepoId};
use radicle_artifact::receipt::{CreateReceipt, RegisterReceipt, VerifyReceipt};
use radicle_artifact::share::compute_cid;
use radicle_artifact::sorted::{SortedMap, SortedSet};
use radicle_artifact::store::{ReleaseMut, Releases, TagTarget};
use radicle_artifact::trust::Untrusted;
use radicle_artifact::verify::{
    display_redactions, judge, rejection, verified_match, verify_failure, Verify,
};

fn did(n: u8) -> Did {
    Did::from_key_bytes(&[n; 32])
}

fn cid() -> Cid {
    compute_cid(b"artifact")
}

const DELEGATE: u8 = 1;
const LOCAL: u8 = 3;
const STRANGER: u8 = 4;

/// The repository `rad:z4VYyJ9KuwMNkXGQnmKuGPGKw3inv`.
fn rid() -> RepoId {
    let rid = radicle::prelude::RepoId::from_urn("rad:z4VYyJ9KuwMNkXGQnmKuGPGKw3inv").unwrap();
    let oid: &radicle::git::Oid = &rid;
    RepoId { id: Oid::parse(&oid.to_string()).unwrap() }
}

fn redacted() -> Untrusted {
    let mut map = SortedMap::new();
    map.insert(did(DELEGATE), "compromised".to_owned());
    Untrusted::Redacted(map)
}

#[test]
fn redaction_outranks_untrusted_author() {
    let reasons = vec![Untrusted::Author(did(STRANGER)), redacted()];
    assert_eq!(rejection(&reasons, &cid(), rid()).exit_code(), 2);
    assert!(matches!(rejection(&reasons, &cid(), rid()), Verify::Redacted { .. }));
}

#[test]
fn no_candidates_reports_no_match() {
    let none = rejection(&Vec::new(), &cid(), rid());
    assert!(matches!(none, Verify::NoMatch { .. }));
    assert!(none.message().contains("rad:z4VYyJ9KuwMNkXGQnmKuGPGKw3inv"));
}

#[test]
fn negative_answers_exit_2_and_failures_exit_1() {
    assert_eq!(rejection(&Vec::new(), &cid(), rid()).exit_code(), 2);
    assert_eq!(
        rejection(&vec![Untrusted::Author(did(STRANGER))], &cid(), rid()).exit_code(),
        2
    );
    assert_eq!(Verify::ComputeCid("unreadable".to_owned()).exit_code(), 1);
    assert_eq!(exit_code(Some(&rejection(&Vec::new(), &cid(), rid()))), 2);
    assert_eq!(exit_code(Some(&Verify::ComputeCid("unreadable".to_owned()))), 1);
    assert_eq!(exit_code(None), 1);
}

#[test]
fn a_verdict_gets_a_json_payload_and_a_failure_does_not() {
    let verdict = verify_failure(cid(), &rejection(&Vec::new(), &cid(), rid())).unwrap();
    assert!(!verdict.verified);
    assert_eq!(verdict.reason, "noMatch");

    let withdrawn = rejection(&vec![redacted()], &cid(), rid());
    let failure = verify_failure(cid(), &withdrawn).unwrap();
    assert_eq!(failure.reason, "redacted");
    assert_eq!(failure.redactions.get(&did(DELEGATE)), Some(&"compromised".to_owned()));
    assert_eq!(failure.message, withdrawn.message());

    let stranger = rejection(&vec![Untrusted::Author(did(STRANGER))], &cid(), rid());
    assert_eq!(verify_failure(cid(), &stranger).unwrap().reason, "untrustedAuthor");

    assert!(verify_failure(cid(), &Verify::ComputeCid("unreadable".to_owned())).is_none());
}

fn delegates() -> SortedSet<Did> {
    let mut set = SortedSet::new();
    set.insert(did(DELEGATE));
    set
}

fn release(n: u8, author: u8) -> ReleaseMut {
    let oid = Oid { hi: 0, lo: n as u128 };
    let mut r =
        Releases::create(ReleaseId { id: oid }, oid, true, None, did(author), n as u64).unwrap();
    r.register_artifact(cid(), "app.bin".to_owned(), did(author));
    r
}

#[test]
fn one_trusted_release_is_enough() {
    let mut releases = Releases { items: Vec::new() };
    releases.put(release(1, STRANGER));
    releases.put(release(2, DELEGATE));
    let findings = judge(&releases, &cid(), &delegates(), &did(LOCAL), false).ok().unwrap();
    assert_eq!(findings.trusted.len(), 1);
    assert!(findings.trusted[0].0 == ReleaseId { id: Oid { hi: 0, lo: 2 } });
    assert_eq!(findings.untrusted.len(), 1);
    let all = judge(&releases, &cid(), &delegates(), &did(LOCAL), true).ok().unwrap();
    assert_eq!(all.trusted.len(), 2);
    let none =
        judge(&releases, &compute_cid(b"other"), &delegates(), &did(LOCAL), true).ok().unwrap();
    assert!(none.trusted.is_empty() && none.untrusted.is_empty());
    releases.items.push(Err("broken".to_owned()));
    assert!(matches!(
        judge(&releases, &cid(), &delegates(), &did(LOCAL), false),
        Err(Verify::Lookup { .. })
    ));
}

#[test]
fn a_receipt_names_who_vouches() {
    let (oid, tag) = (Oid { hi: 0, lo: 2 }, Oid { hi: 0, lo: 9 });
    let tagged = Some((tag, TagTarget::Commit(oid)));
    let id = ReleaseId { id: oid };
    let mut r = Releases::create(id, oid, true, tagged, did(DELEGATE), 2).unwrap();
    r.register_artifact(cid(), "app.bin".to_owned(), did(DELEGATE));
    r.attest(cid(), did(LOCAL));
    let mut aliases = SortedMap::new();
    aliases.insert(did(DELEGATE), "alice".to_owned());
    let m = verified_match(
        r.id,
        &r.release,
        &cid(),
        &aliases,
        Some("v1.0".to_owned()),
        &delegates(),
    )
    .unwrap();
    assert!(m.delegate);
    assert_eq!(m.author_alias, Some("alice".to_owned()));
    assert_eq!(m.attestations, vec![did(LOCAL)]);
    let shown = VerifyReceipt::new(cid(), vec![m]).pretty(Style::plain(false));
    assert_eq!(
        shown,
        format!(
            "✓ Verified {}\n\n  release     {}  (v1.0)\n  artifact    app.bin\n  author      {} (alice) delegate\n  attested    1\n",
            cid().to_text(),
            id.to_text(),
            did(DELEGATE).encode()
        )
    );
    assert!(verified_match(
        r.id,
        &r.release,
        &compute_cid(b"other"),
        &aliases,
        None,
        &delegates()
    )
    .is_none());
}

#[test]
fn register_receipt_nests_size_under_metadata() {
    let oid = Oid::parse("0123456789abcdef0123456789abcdef01234567").unwrap();
    let release_id = ReleaseId::from(oid);
    let out = RegisterReceipt::new(cid(), "my-binary".to_owned(), release_id, oid, Some(1048576));
    assert!(out.cid == cid());
    assert_eq!(out.name, "my-binary");
    assert!(out.release_id == release_id);
    assert_eq!(out.oid, oid);
    assert_eq!(out.metadata.len(), 1);
    assert_eq!(out.metadata.get(&"sizeBytes".to_owned()).unwrap().as_u64(), Some(1048576));
    assert_eq!(out.oid.to_text(), "0123456789abcdef0123456789abcdef01234567");
}

#[test]
fn register_receipt_emits_empty_metadata_when_no_size() {
    let oid = Oid::parse("0123456789abcdef0123456789abcdef01234567").unwrap();
    let release_id = ReleaseId::from(oid);
    let out = RegisterReceipt::new(cid(), "my-binary".to_owned(), release_id, oid, None);
    assert!(out.metadata.is_empty());
}

#[test]
fn a_create_receipt_names_the_release_and_the_commit() {
    let oid = Oid::parse("0123456789abcdef0123456789abcdef01234567").unwrap();
    let out = CreateReceipt::new(ReleaseId::from(oid), oid);
    assert_eq!(out.release_id.to_text(), oid.to_text());
    assert_eq!(out.oid, oid);
}

#[test]
fn redactions_are_listed_one_to_a_line() {
    let mut map = SortedMap::new();
    map.insert(did(DELEGATE), "compromised".to_owned());
    map.insert(did(STRANGER), "bad".to_owned());
    let shown = display_redactions(&map);
    assert_eq!(shown.lines().count(), 2);
    assert!(shown.contains("compromised"));
    assert!(shown.contains(&did(STRANGER).encode()));
}

#[test]
fn commands_go_where_they_belong() {
    let compute = Command::ComputeCid(ComputeCid { path: "x".to_owned() });
    assert_eq!(route(&compute), Route::Files);
    let unseed = Command::Unseed(Unseed { cid: cid(), release: None });
    assert_eq!(route(&unseed), Route::Profile);
    let create = Command::Create(Create { revision: None, json: false });
    assert_eq!(route(&create), Route::Repository);
    assert!(needs_signer(&create));
    assert!(!needs_signer(&compute));
    assert!(is_announced(&create, false, false));
    assert!(!is_announced(&create, true, false));
    assert!(!is_announced(&create, false, true));
    let delete = Command::Delete(Delete { release: "x".to_owned() });
    assert!(is_announced(&delete, false, false));
    let list = Command::List(List {
        pretty: false,
        json: false,
        verbose: false,
        all_authors: false,
        redacted: false,
        empty: false,
    });
    assert!(!needs_signer(&list));
    assert!(!is_announced(&list, false, false));
}

#[test]
fn output_is_for_people_in_a_terminal() {
    assert!(use_pretty(false, false, true));
    assert!(!use_pretty(false, false, false));
    assert!(use_pretty(true, false, false));
    assert!(!use_pretty(true, true, true));
    assert!(use_color(true, None));
    assert!(use_color(true, Some("")));
    assert!(!use_color(true, Some("1")));
    assert!(!use_color(false, None));
    let style = pretty_style(true, true, None);
    assert!(style.verbose && style.color);
    assert_eq!(error_line("no", false), "ERROR: no");
    assert_eq!(error_line("no", true), "\x1b[1;31mERROR\x1b[0m: no");
}
