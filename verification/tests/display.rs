use radicle_artifact::display::{
    describe_progress, format_did, format_table, human_bytes, pad_right, visible_width,
    FetchProgress, ProgressUpdate, Style,
};
use radicle_artifact::ids::{Cid, Did, Key, Oid, ReleaseId};
use radicle_artifact::json::Json;
use radicle_artifact::location::{EndpointId, Url};
use radicle_artifact::shown::{tag_title, Filters, Release, ReleaseItem, Releases as Shown};
use radicle_artifact::sorted::{SortedMap, SortedSet};
use radicle_artifact::store::{ReleaseMut, Releases, TagTarget};

fn did(n: u8) -> Did {
    Did::from_key_bytes(&[n; 32])
}

fn key(byte: u8) -> Key {
    Key::from_bytes(iroh_base::SecretKey::from_bytes(&[byte; 32]).public().as_bytes())
}

fn oid(n: u8) -> Oid {
    Oid { hi: 0xa1b2c3d4, lo: n as u128 }
}

fn test_cid(n: u8) -> Cid {
    let mut digest = [0u8; 32];
    digest[0] = n;
    Cid::new_v1(0x55, 0x12, &digest).unwrap()
}

fn url(s: &str) -> Url {
    Url::parse(s).ok().unwrap()
}

fn create(n: u8, author: Did) -> ReleaseMut {
    let id = ReleaseId { id: oid(n) };
    Releases::create(id, oid(n), true, None, author, 1_700_000_000 + n as u64).unwrap()
}

fn no_aliases() -> SortedMap<Did, String> {
    SortedMap::new()
}

#[test]
fn describe_progress_maps_every_frame() {
    let endpoint_id = EndpointId::from_key(key(1)).unwrap();
    assert!(matches!(
        describe_progress(&FetchProgress::Connecting),
        Some(ProgressUpdate::Message(s)) if s == "connecting"
    ));
    assert!(matches!(
        describe_progress(&FetchProgress::TryingLocation { endpoint_id }),
        Some(ProgressUpdate::Message(s))
            if s == format!("trying {}", endpoint_id.to_url().as_str())
    ));
    assert!(describe_progress(&FetchProgress::LocationFailed { endpoint_id }).is_none());
    assert!(matches!(
        describe_progress(&FetchProgress::Downloading { offset: 4096, total: Some(8192) }),
        Some(ProgressUpdate::Position(4096))
    ));
    assert!(matches!(
        describe_progress(&FetchProgress::Exporting { offset: 1, total: None, entry: None }),
        Some(ProgressUpdate::Message(s)) if s == "exporting"
    ));
}

#[test]
fn human_bytes_picks_unit_by_threshold() {
    assert_eq!(human_bytes(0), "0 B");
    assert_eq!(human_bytes(512), "512 B");
    assert_eq!(human_bytes(1024), "1.0 KiB");
    assert_eq!(human_bytes(1024 * 1024), "1.0 MiB");
    assert_eq!(human_bytes(1024 * 1024 * 1024 * 3 / 2), "1.50 GiB");
}

/// What formatting the quotient as a floating-point number gives.
fn by_float(n: u64) -> String {
    const KIB: f64 = 1024.0;
    let f = n as f64;
    if n >= 1024 * 1024 * 1024 {
        format!("{:.2} GiB", f / (KIB * KIB * KIB))
    } else if n >= 1024 * 1024 {
        format!("{:.1} MiB", f / (KIB * KIB))
    } else if n >= 1024 {
        format!("{:.1} KiB", f / KIB)
    } else {
        format!("{n} B")
    }
}

#[test]
fn human_bytes_rounds_as_floating_point_does() {
    let mut n: u64 = 0;
    while n < 4096 {
        assert_eq!(human_bytes(n), by_float(n));
        n += 1;
    }
    let mut x: u64 = 0x9e37_79b9_7f4a_7c15;
    let mut i = 0;
    while i < 4000 {
        x ^= x << 13;
        x ^= x >> 7;
        x ^= x << 17;
        let n = x >> (x % 60);
        assert_eq!(human_bytes(n), by_float(n), "{}", n);
        i += 1;
    }
    for n in [
        u64::MAX,
        u64::MAX - 1,
        1 << 53,
        (1 << 53) + 1,
        (1 << 54) + 2,
        (1 << 54) + 3,
        1023,
        1024 * 1024 - 1,
        1024 * 1024 * 1024 - 1,
        1024 + 51,
        1024 + 52,
    ] {
        assert_eq!(human_bytes(n), by_float(n), "{}", n);
    }
}

#[test]
fn escapes_take_no_room() {
    assert_eq!(visible_width("abc"), 3);
    assert_eq!(visible_width("\x1b[1mabc\x1b[0m"), 3);
    assert_eq!(visible_width("\x1bx"), 2);
    assert_eq!(visible_width("ä✓"), 2);
    assert_eq!(visible_width("a\x1b[31"), 1);
    assert_eq!(pad_right("ab", 4), "ab  ");
    assert_eq!(pad_right("abcde", 4), "abcde");
    let style = Style::colored(false);
    assert_eq!(visible_width(&style.red("abc")), 3);
    assert_eq!(pad_right(&style.bold("ab"), 4), format!("{}  ", style.bold("ab")));
}

#[test]
fn columns_are_aligned() {
    let style = Style::colored(false);
    let rows = vec![
        vec![style.bold("a"), "bbb".to_owned(), "c".to_owned()],
        vec!["aaaa".to_owned(), "b".to_owned(), "".to_owned()],
        vec!["x".to_owned()],
    ];
    let plain = format_table(&rows, 2);
    assert_eq!(
        plain,
        format!("  {}     bbb  c\n  aaaa  b\n  x\n", style.bold("a"))
    );
}

#[test]
fn colours_are_switched_off() {
    assert_eq!(Style::plain(false).green("x"), "x");
    assert_eq!(Style::colored(true).dim("x"), "\x1b[2mx\x1b[0m");
    assert_eq!(Style::colored(false).cyan(""), "");
    assert!(Style::colored(true).verbose);
    assert!(!Style::plain(false).color);
    assert!(!Style::default().verbose && !Style::default().color);
}

#[test]
fn users_are_named_briefly() {
    let key = "z6MkeXBLjYiSvqnhFb6D7sHm8yKm4jV45wwBFRaatf1cfZ76";
    let alice = Some("alice".to_owned());
    assert_eq!(did(1).encode(), format!("did:key:{key}"));
    assert_eq!(format_did(&did(1), &None, true), key);
    assert_eq!(format_did(&did(1), &alice, true), format!("alice@{key}"));
    assert_eq!(format_did(&did(1), &None, false), "z6MkeXB…f1cfZ76");
    assert_eq!(format_did(&did(1), &alice, false), "alice@z6MkeXB…f1cfZ76");
}

#[test]
fn pretty_renders_compact_and_detailed() {
    let (alice, bob) = (did(1), did(2));
    let mut release = create(1, alice);
    let cid = test_cid(1);
    release.register_artifact(cid, "linux-amd64.tar.gz".to_owned(), alice);
    release.add_location(cid, url("https://alice.example.com/linux-amd64.tar.gz"), alice);
    release.attest(cid, bob);
    let mut delegates = SortedSet::new();
    delegates.insert(alice);
    let filters =
        Filters { delegates: &delegates, redacted: false, all_authors: false, local: None };
    let shown = Release::new(
        release.id,
        &release.release,
        &no_aliases(),
        &filters,
        Some("Initial commit".to_owned()),
        None,
    );
    let plain = Style::plain(false);
    let compact = shown.pretty_compact(plain);
    let detailed = shown.pretty(plain);

    assert!(compact.contains('●'));
    assert!(compact.contains("linux-amd64.tar.gz"));
    assert!(compact.contains("✓1"));
    assert!(compact.contains("Initial commit"));

    assert!(detailed.contains("Artifacts (1 item)"));
    assert!(detailed.contains("cid"));
    assert!(detailed.contains("author"));
    assert!(detailed.contains("locations"));
    assert!(detailed.contains("attestations"));
    assert!(detailed.contains("alice.example.com/linux-amd64.tar.gz"));
}

#[test]
fn display_renders_metadata() {
    let alice = did(1);
    let mut release = create(1, alice);
    let cid = test_cid(1);
    release.register_artifact(cid, "binary".to_owned(), alice);
    release.set_metadata(cid, "build".to_owned(), Json::string("ok"), alice).ok().unwrap();
    release.set_metadata(cid, "sizeBytes".to_owned(), Json::number(2048), alice).ok().unwrap();
    let delegates = SortedSet::new();
    let filters =
        Filters { delegates: &delegates, redacted: false, all_authors: true, local: None };
    let shown =
        Release::new(release.id, &release.release, &no_aliases(), &filters, None, None);
    let detailed = shown.pretty(Style::plain(false));
    assert!(detailed.contains("build"));
    assert!(detailed.contains("ok"));
    assert!(detailed.contains("2.0 KiB"));
}

#[test]
fn display_marks_seeding_for_local_endpoint_location() {
    let alice = Did { key: key(1) };
    let endpoint_url = EndpointId::of_did(&alice).unwrap().to_url();
    let mut release = create(1, alice);
    let (seeded, unseeded) = (test_cid(1), test_cid(2));
    release.register_artifact(seeded, "seeded".to_owned(), alice);
    release.register_artifact(unseeded, "unseeded".to_owned(), alice);
    release.add_location(seeded, endpoint_url, alice);
    let delegates = SortedSet::new();
    let filters =
        Filters { delegates: &delegates, redacted: false, all_authors: true, local: Some(alice) };
    let shown =
        Release::new(release.id, &release.release, &no_aliases(), &filters, None, None);
    let out = shown.pretty(Style::plain(false));
    assert_eq!(out.matches('🌱').count(), 1);

    let anon = Filters { delegates: &delegates, redacted: false, all_authors: true, local: None };
    let anon_out = Release::new(release.id, &release.release, &no_aliases(), &anon, None, None)
        .pretty(Style::plain(false));
    assert!(!anon_out.contains('🌱'));
}

#[test]
fn strangers_and_withdrawn_artifacts_are_hidden() {
    let (alice, stranger) = (did(1), did(9));
    let mut release = create(1, alice);
    release.register_artifact(test_cid(1), "good".to_owned(), alice);
    release.register_artifact(test_cid(2), "strange".to_owned(), stranger);
    release.register_artifact(test_cid(3), "withdrawn".to_owned(), alice);
    release.redact(test_cid(3), "bad".to_owned(), alice).ok().unwrap();
    release.redact(test_cid(1), "noise".to_owned(), stranger).ok().unwrap();
    let mut delegates = SortedSet::new();
    delegates.insert(alice);
    let names = |redacted: bool, all_authors: bool| -> Vec<String> {
        let filters = Filters { delegates: &delegates, redacted, all_authors, local: None };
        let shown =
            Release::new(release.id, &release.release, &no_aliases(), &filters, None, None);
        shown.artifacts.iter().map(|a| a.name.clone()).collect()
    };
    assert_eq!(names(false, false), vec!["good".to_owned()]);
    assert_eq!(names(false, true).len(), 2);
    assert_eq!(names(true, false).len(), 2);
    assert_eq!(names(true, true).len(), 3);
}

#[test]
fn releases_are_shown_newest_first() {
    let alice = did(1);
    let mut old = create(1, alice);
    old.register_artifact(test_cid(1), "a".to_owned(), alice);
    let tagged = Some((oid(50), TagTarget::Commit(oid(2))));
    let mut new = Releases::create(
        ReleaseId { id: oid(2) },
        oid(2),
        true,
        tagged,
        alice,
        1_800_000_000,
    )
    .unwrap();
    new.register_artifact(test_cid(2), "b".to_owned(), alice);
    let empty = create(3, alice);
    let item = |r: &ReleaseMut| -> ReleaseId { r.id };
    let items = vec![
        ReleaseItem {
            id: item(&old),
            release: &old.release,
            tag_title: None,
            commit_title: Some("Old".to_owned()),
            tag_name: Some("ignored".to_owned()),
        },
        ReleaseItem {
            id: item(&new),
            release: &new.release,
            tag_title: Some("Tagged".to_owned()),
            commit_title: Some("New".to_owned()),
            tag_name: Some("v2".to_owned()),
        },
        ReleaseItem {
            id: item(&empty),
            release: &empty.release,
            tag_title: None,
            commit_title: None,
            tag_name: None,
        },
    ];
    let delegates = SortedSet::new();
    let filters =
        Filters { delegates: &delegates, redacted: false, all_authors: true, local: None };
    let shown = Shown::new(&items, &no_aliases(), &filters, false);
    assert_eq!(shown.releases.len(), 2);
    assert_eq!(shown.releases[0].title, Some("Tagged".to_owned()));
    assert_eq!(shown.releases[0].tag_name, Some("v2".to_owned()));
    assert_eq!(shown.releases[1].title, Some("Old".to_owned()));
    assert_eq!(shown.releases[1].tag_name, None);
    let text = shown.pretty(Style::plain(false));
    assert!(text.find("Tagged").unwrap() < text.find("Old").unwrap());
    assert!(shown.pretty_detailed(Style::plain(false)).contains("Old"));
    assert_eq!(Shown::new(&items, &no_aliases(), &filters, true).into_inner().len(), 3);
}

#[test]
fn a_tag_gives_its_first_line_as_title() {
    let summary = Some("Fix it".to_owned());
    assert_eq!(tag_title(Some("  Release 1 \n\nbody"), None), Some("Release 1".to_owned()));
    assert_eq!(
        tag_title(Some("\n \r\nRelease 1\n"), summary.clone()),
        Some("Release 1".to_owned())
    );
    assert_eq!(tag_title(Some(" \n"), summary.clone()), summary);
    assert_eq!(tag_title(None, summary.clone()), summary);
}

#[test]
fn identifiers_are_spelt_canonically() {
    let text = "bafybeigdyrzt5sfp7udm7hu76uh7y26nf3efuylqabf3oclgtqy55fbzdi";
    let cid = Cid::parse(text).unwrap();
    assert_eq!(cid.to_text(), text);
    assert!(Cid::parse("nonsense").is_none());
    let v0 = "QmYwAPJzv5CZsnA625s3Xf2nemtYgPpHdWEz79ojWKPvSA";
    let old = Cid::parse(v0).unwrap();
    assert_eq!(old.to_text(), v0);
    assert_eq!(old.digest_len(), 32);
    let hex = "0123456789abcdef0123456789abcdef01234567";
    let parsed = Oid::parse(hex).unwrap();
    assert_eq!(parsed.to_text(), hex);
    assert_eq!(parsed.to_short(), "0123456");
    assert_eq!(Oid::parse(&hex.to_uppercase()), Some(parsed));
    let signed = "+1".repeat(20);
    assert_eq!(Oid::parse(&signed).unwrap().to_text(), "01".repeat(20));
    assert!(Oid::parse("0123").is_none());
    assert!(Oid::parse(&"g".repeat(40)).is_none());
    assert!(Oid::parse(&"1+".repeat(20)).is_none());
    assert!(Oid::parse("ä").is_none());
    assert_eq!(ReleaseId::parse(hex).unwrap().to_text(), hex);
    let known = radicle::identity::Did::from(radicle::crypto::PublicKey::from([1u8; 32]));
    assert_eq!(did(1).encode(), known.encode());
}

#[test]
fn endpoints_are_named_by_urls() {
    let id = EndpointId::from_key(key(1)).unwrap();
    let own = id.to_url();
    assert!(own.as_str().starts_with("radiroh://"));
    assert_eq!(own.scheme(), "radiroh");
    assert!(EndpointId::from_url(&own) == Ok(Some(id)));
    assert!(EndpointId::from_url(&url("radiroh://")) == Ok(None));
    assert!(EndpointId::from_url(&url("radiroh://abc123")).is_err());
    assert!(EndpointId::from_url(&url("https://a.example/")).is_err());
    assert!(id.matches_url(&own));
    assert!(id.matches_url(&url("radiroh://")));
    assert!(!id.matches_url(&EndpointId::from_key(key(2)).unwrap().to_url()));
    assert!(EndpointId::is_legacy_endpoint_url(&url("iroh://abc")));
    assert!(EndpointId::from_key(Key { hi: u128::MAX, lo: u128::MAX - 1 }).is_none()
        || EndpointId::from_key(Key { hi: 2 << 120, lo: 0 }).is_none());
    assert_eq!(Url::parse("https://A.example").ok().unwrap().as_str(), "https://a.example/");
    assert_eq!(url("https://a.example/").host(), Some("a.example".to_owned()));
    assert!(Url::parse("no url").is_err());
}

#[test]
fn json_values_are_kept_compact() {
    let v = Json::parse(" { \"b\" : [1, 2] } ").ok().unwrap();
    assert_eq!(v.as_text(), "{\"b\":[1,2]}");
    assert!(Json::parse("{").is_err());
    assert_eq!(Json::string("a\"b").as_text(), "\"a\\\"b\"");
    assert_eq!(Json::string("7").as_u64(), None);
    assert_eq!(Json::parse("7").ok().unwrap().as_u64(), Some(7));
    assert_eq!(Json::parse("-7").ok().unwrap().as_u64(), None);
    assert_eq!(Json::number(7).as_string(), None);
}
