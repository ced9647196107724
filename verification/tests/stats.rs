use radicle_artifact::ids::{Did, Oid, ReleaseId};
use radicle_artifact::share::compute_cid;
use radicle_artifact::sorted::SortedSet;
use radicle_artifact::stats::{counts, Counts};
use radicle_artifact::store::{ReleaseMut, Releases};

fn did(n: u8) -> Did {
    Did::from_key_bytes(&[n; 32])
}

fn release(n: u8, creator: u8, artifacts: &[&[u8]]) -> ReleaseMut {
    let oid = Oid { hi: 0, lo: n as u128 };
    let mut r = Releases::create(ReleaseId { id: oid }, oid, true, None, did(creator), 1).unwrap();
    for data in artifacts {
        r.register_artifact(compute_cid(data), "a".to_owned(), did(creator));
    }
    r
}

#[test]
fn releases_are_counted_by_creator_and_by_what_they_show() {
    let mut delegates = SortedSet::new();
    delegates.insert(did(1));
    let shown = release(1, 1, &[b"a", b"b"]);
    let mut partly = release(2, 1, &[b"a", b"b"]);
    partly.redact(compute_cid(b"a"), "bad".to_owned(), did(1)).ok().unwrap();
    let empty = release(3, 1, &[]);
    let mut withdrawn = release(4, 9, &[b"a"]);
    withdrawn.redact(compute_cid(b"a"), "bad".to_owned(), did(9)).ok().unwrap();
    let mut slandered = release(5, 9, &[b"a"]);
    slandered.redact(compute_cid(b"a"), "bad".to_owned(), did(8)).ok().unwrap();
    let all = [&shown, &partly, &empty, &withdrawn, &slandered];
    let list: Vec<_> = all.iter().map(|r| (r.id, &r.release)).collect();
    assert_eq!(
        counts(&list, &delegates),
        Counts { delegate_visible: 2, delegate_hidden: 1, other_visible: 1, other_hidden: 1 }
    );
    let none = Counts { delegate_visible: 0, delegate_hidden: 0, other_visible: 0, other_hidden: 0 };
    assert_eq!(counts(&Vec::new(), &delegates), none);
}

#[test]
fn figures_are_shown_by_creator() {
    let c = Counts { delegate_visible: 2, delegate_hidden: 1, other_visible: 10, other_hidden: 0 };
    assert_eq!(
        c.lines(),
        vec!["by delegates  2 visible · 1 hidden", "by others     10 visible · 0 hidden"]
    );
}
