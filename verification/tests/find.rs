use radicle_artifact::create::{create_plan, created_hint, created_note, CreatePlan};
use radicle_artifact::ids::{Cid, Did, Key, Oid, ReleaseId};
use radicle_artifact::location::{EndpointId, Url};
use radicle_artifact::modify::{
    check_location, check_removal, location_add, location_remove, metadata_set, metadata_unset,
    metadata_value, own_locations, target_of, Done, MetadataError, Target,
};
use radicle_artifact::pick::{
    artifact_choices, choice_prompt, distinct_output, fetch_target, find_artifact,
    find_unique_by_oid, parse_choice, redaction_notes, release_candidates, release_choice,
    FindError, TargetError,
};
use radicle_artifact::prompt::{
    artifact_labels, cancelled, commit_groups, create_label, dir_question, group_label,
    location_labels, may_ask, may_select_release, picker_entries, Entry, Question, TagInfo,
    PICKER_COMMIT_LIMIT,
};
use radicle_artifact::register::{register_all, resolve_register_target, Pending, RegisterTarget};
use radicle_artifact::resolve::{
    ambiguous, chosen_release, collect_candidates, display_ids, format_candidate, list_releases,
    resolve_release_after_pick, resolve_target_release, shown_releases, Find, Named, Resolution,
};
use radicle_artifact::retrieval::{
    default_output, fetched_note, resolve_retrieval, retrieval_plan, seed_under, seeding_note,
    FetchLocation, ShareError,
};
use radicle_artifact::share::compute_cid;
use radicle_artifact::sorted::{SortedMap, SortedSet};
use radicle_artifact::store::{ReleaseMut, Releases, TagTarget};
use radicle_artifact::transfer::{
    export_error, export_members, partial_sibling, safe_join, DownloadEvent, Export, ExportEvent,
    Member, Transfer,
};
use radicle_artifact::display::FetchProgress;
use radicle_artifact::share::Error;

fn did(n: u8) -> Did {
    Did { key: key(n) }
}

fn key(byte: u8) -> Key {
    Key::from_bytes(iroh_base::SecretKey::from_bytes(&[byte; 32]).public().as_bytes())
}

fn endpoint(n: u8) -> EndpointId {
    EndpointId::from_key(key(n)).unwrap()
}

fn oid(n: u8) -> Oid {
    Oid { hi: 0x0a0b0c0d, lo: n as u128 }
}

fn id(n: u8) -> ReleaseId {
    ReleaseId { id: Oid { hi: 0x01020304, lo: n as u128 } }
}

fn cid() -> Cid {
    compute_cid(b"artifact")
}

fn url(s: &str) -> Url {
    Url::parse(s).ok().unwrap()
}

fn make(n: u8, commit: u8, author: u8, tag: Option<u8>, time: u64) -> ReleaseMut {
    let tag = tag.map(|t| (oid(t), TagTarget::Commit(oid(commit))));
    Releases::create(id(n), oid(commit), true, tag, did(author), time).unwrap()
}

fn with_artifact(n: u8, commit: u8, author: u8, time: u64) -> ReleaseMut {
    let mut r = make(n, commit, author, None, time);
    r.register_artifact(cid(), "my app".to_owned(), did(author));
    r
}

fn stored(items: Vec<ReleaseMut>) -> Releases {
    let mut releases = Releases { items: Vec::new() };
    for r in items {
        releases.put(r);
    }
    releases
}

fn delegates() -> SortedSet<Did> {
    let mut set = SortedSet::new();
    set.insert(did(1));
    set
}

const DELEGATE: u8 = 1;
const LOCAL: u8 = 3;
const STRANGER: u8 = 4;

#[test]
fn a_named_release_is_taken_whoever_created_it() {
    let releases = stored(vec![make(1, 1, STRANGER, None, 1)]);
    let named = |lookup| Some(Named { id: id(1), lookup });
    let go = |n| resolve_target_release(n, oid(1), &releases, &delegates(), &did(LOCAL), false, true);
    assert!(matches!(go(named(Ok(true))), Ok(Resolution::Found(i)) if i == id(1)));
    assert!(matches!(go(named(Ok(false))), Err(Find::NoReleaseId(i)) if i == id(1)));
    assert!(matches!(go(named(Err("bad".to_owned()))), Err(Find::LookupId { .. })));
    assert!(matches!(go(None), Err(Find::NoRelease(o)) if o == oid(1)));
}

#[test]
fn one_visible_release_is_found_and_several_are_chosen_from() {
    let releases = stored(vec![
        make(1, 1, DELEGATE, None, 1),
        make(2, 1, STRANGER, None, 2),
        make(3, 2, LOCAL, None, 3),
        make(4, 2, DELEGATE, None, 4),
    ]);
    let go = |commit, all, no_input| {
        resolve_target_release(None, oid(commit), &releases, &delegates(), &did(LOCAL), all, no_input)
    };
    assert!(matches!(go(1, false, true), Ok(Resolution::Found(i)) if i == id(1)));
    assert!(matches!(go(1, true, false), Ok(Resolution::Choose(v)) if v.len() == 2));
    assert!(matches!(go(2, false, true), Ok(Resolution::Undecided(v)) if v.len() == 2));
    assert!(matches!(go(9, true, true), Err(Find::NoRelease(_))));
    assert_eq!(shown_releases(oid(1), &releases, &delegates(), &did(LOCAL), false).ok().unwrap().len(), 1);
    assert!(shown_releases(oid(9), &releases, &delegates(), &did(LOCAL), true).is_err());
}

#[test]
fn an_unreadable_release_is_reported_or_passed_over() {
    let mut releases = stored(vec![make(1, 1, DELEGATE, None, 1), make(2, 1, STRANGER, None, 2)]);
    releases.items.push(Err("corrupt".to_owned()));
    match collect_candidates(&releases, oid(1)) {
        Err(Find::Lookup { oid: o, err }) => {
            assert_eq!(o, oid(1));
            assert_eq!(err, "corrupt");
        }
        _ => panic!("expected an error"),
    }
    let (listed, notes) = list_releases(&releases, &delegates(), &did(LOCAL), false, true);
    assert_eq!(listed.len(), 1);
    assert_eq!(notes, vec!["Failed to retrieve release: corrupt".to_owned()]);
    let (listed, notes) = list_releases(&releases, &delegates(), &did(LOCAL), true, false);
    assert_eq!(listed.len(), 2);
    assert!(notes.is_empty());
}

#[test]
fn after_a_pick_only_releases_with_the_artifact_count() {
    let releases = stored(vec![with_artifact(1, 1, DELEGATE, 1), make(2, 1, DELEGATE, None, 2)]);
    assert!(matches!(
        resolve_release_after_pick(oid(1), &cid(), &releases, &delegates(), &did(LOCAL), false),
        Ok(Resolution::Found(i)) if i == id(1)
    ));
    assert!(matches!(
        resolve_release_after_pick(oid(1), &compute_cid(b"x"), &releases, &delegates(), &did(LOCAL), false),
        Err(Find::NoRelease(_))
    ));
}

#[test]
fn candidates_are_listed_for_the_user() {
    let r = make(1, 1, DELEGATE, Some(7), 1);
    let mut aliases = SortedMap::new();
    aliases.insert(did(DELEGATE), "alice".to_owned());
    let shown = format_candidate(&id(1), &r.release, &aliases, "Fix it");
    assert!(shown.starts_with("0102030  tag 0a0b0c0  by alice"));
    assert!(shown.ends_with("  Fix it"));
    let candidates = vec![(id(1), &r.release)];
    let found = ambiguous(oid(1), &candidates, &aliases, &vec!["Fix it".to_owned()]);
    assert!(found.message().starts_with(&format!(
        "multiple releases found for the commit {}, pass --release <id>",
        oid(1).to_text()
    )));
    assert!(found.message().contains(&shown));
    assert!(chosen_release(&candidates, 0) == Some(id(1)));
    assert!(chosen_release(&candidates, 1).is_none());
    assert_eq!(
        display_ids(&vec![id(1), id(2)]),
        format!("{}, {}", id(1).to_text(), id(2).to_text())
    );
}

#[test]
fn find_errors_say_what_was_sought() {
    let o = oid(1).to_text();
    let i = id(1).to_text();
    assert_eq!(
        Find::NoRelease(oid(1)).message(),
        format!("no release was found for the commit {o}")
    );
    assert_eq!(
        Find::Lookup { oid: oid(1), err: "x".to_owned() }.message(),
        format!("failed to find a release for the commit {o}")
    );
    assert_eq!(Find::NoReleaseId(id(1)).message(), format!("no release found with id {i}"));
    assert_eq!(
        Find::LookupId { release_id: id(1), err: "x".to_owned() }.message(),
        format!("failed to look up release {i}")
    );
    assert_eq!(Find::Picker("no".to_owned()).message(), "no");
}

#[test]
fn creating_uses_what_the_user_has_created() {
    let releases = stored(vec![
        make(1, 1, DELEGATE, None, 1),
        make(2, 1, LOCAL, Some(7), 2),
        make(3, 2, LOCAL, None, 3),
        make(4, 2, LOCAL, Some(8), 4),
    ]);
    let go = |commit, tag: Option<u8>, ask| {
        create_plan(oid(commit), tag.map(oid), &releases, &did(LOCAL), ask).ok().unwrap()
    };
    assert!(matches!(go(9, None, true), CreatePlan::Mint));
    assert!(matches!(go(1, None, true), CreatePlan::Reuse(i) if i == id(2)));
    assert!(matches!(go(1, Some(7), true), CreatePlan::Reuse(i) if i == id(2)));
    assert!(matches!(go(1, Some(9), true), CreatePlan::Mint));
    assert!(matches!(go(2, None, true), CreatePlan::Choose(v) if v.len() == 2));
    assert!(matches!(go(2, Some(8), false), CreatePlan::Reuse(i) if i == id(4)));
    match go(2, None, false) {
        CreatePlan::Ambiguous(text) => assert_eq!(
            text,
            format!(
                "commit {} has 2 release(s) you authored; re-run in a terminal to pick one, or name its tag (e.g. `create <tag>`) if it has one (candidates: {}, {})",
                oid(2).to_text(),
                id(3).to_text(),
                id(4).to_text()
            )
        ),
        _ => panic!("expected a refusal"),
    }
    assert_eq!(created_note(&id(1), &oid(1), false), "Created release 0102030 (commit 0a0b0c0)");
    assert_eq!(created_note(&id(1), &oid(1), true), "Reusing release 0102030 (commit 0a0b0c0)");
    assert_eq!(
        created_hint(&id(1)),
        "Hint: register artifacts with `rad-artifact register <path> --release 0102030`"
    );
}

#[test]
fn creating_twice_gives_one_release() {
    let mut releases = Releases { items: Vec::new() };
    assert!(matches!(
        create_plan(oid(1), None, &releases, &did(LOCAL), false),
        Ok(CreatePlan::Mint)
    ));
    releases.put(make(1, 1, LOCAL, None, 1));
    assert!(matches!(
        create_plan(oid(1), None, &releases, &did(LOCAL), false),
        Ok(CreatePlan::Reuse(i)) if i == id(1)
    ));
}

#[test]
fn artifacts_go_into_the_release_of_the_commit() {
    let releases = stored(vec![
        make(1, 1, DELEGATE, Some(7), 1),
        make(2, 2, DELEGATE, None, 2),
        make(3, 2, LOCAL, None, 3),
        make(4, 3, STRANGER, None, 4),
    ]);
    let go = |commit, tag: Option<u8>, no_input| {
        resolve_register_target(
            oid(commit),
            tag.map(oid),
            &releases,
            &delegates(),
            &did(LOCAL),
            false,
            no_input,
        )
        .ok()
        .unwrap()
    };
    assert!(matches!(go(3, None, true), RegisterTarget::Create));
    assert!(matches!(go(1, None, true), RegisterTarget::Existing(i) if i == id(1)));
    assert!(matches!(go(1, Some(7), true), RegisterTarget::Existing(i) if i == id(1)));
    assert!(matches!(go(1, Some(8), false), RegisterTarget::Choose(v) if v.len() == 1));
    assert!(matches!(go(2, None, false), RegisterTarget::Choose(v) if v.len() == 2));
    assert!(matches!(go(2, None, true), RegisterTarget::Undecided(s) if s.contains("2 existing release(s)")));
}

#[test]
fn registering_records_each_artifact() {
    let mut r = make(1, 1, LOCAL, None, 1);
    let list = vec![
        Pending { cid: cid(), name: "a".to_owned(), size: Some(5), path: None },
        Pending { cid: compute_cid(b"b"), name: "b".to_owned(), size: None, path: None },
    ];
    let ops = register_all(&mut r, &list, did(LOCAL));
    assert_eq!(ops.len(), 2);
    assert_eq!(ops[0].len(), 2);
    assert_eq!(ops[1].len(), 1);
    assert_eq!(r.release.artifacts().len(), 2);
    let size = r.artifact(&cid()).unwrap().metadata().get(&"sizeBytes".to_owned()).unwrap();
    assert_eq!(size.as_u64(), Some(5));
}

#[test]
fn a_location_is_checked_before_it_is_added() {
    assert!(check_location(&url("https://a.example/")).is_ok());
    assert!(check_location(&url("radiroh://")).is_ok());
    assert!(check_location(&endpoint(1).to_url()).is_ok());
    assert_eq!(
        check_location(&url("iroh://abc")),
        Err("the `iroh://` scheme was renamed to `radiroh://`; re-add this location with the new scheme".to_owned())
    );
    assert!(check_location(&url("radiroh://abc123")).is_err());
    let mut r = with_artifact(1, 1, LOCAL, 1);
    assert!(location_add(&mut r, cid(), url("iroh://abc"), did(LOCAL)).is_err());
    assert!(r.artifact(&cid()).unwrap().locations().is_empty());
    assert!(location_add(&mut r, cid(), url("https://a.example/"), did(LOCAL)).is_ok());
    assert_eq!(r.artifact(&cid()).unwrap().locations().len(), 1);
}

#[test]
fn only_own_locations_are_removed() {
    let mut r = with_artifact(1, 1, LOCAL, 1);
    let (mine, theirs) = (url("https://mine.example/"), url("https://theirs.example/"));
    r.add_location(cid(), mine.clone(), did(LOCAL));
    r.add_location(cid(), theirs.clone(), did(STRANGER));
    let own = own_locations(Some(&r.release), &id(1), &cid(), &did(LOCAL)).ok().unwrap();
    assert_eq!(own.len(), 1);
    assert!(check_removal(&mine, &own, &cid()).is_ok());
    assert_eq!(
        check_removal(&theirs, &own, &cid()),
        Err(format!(
            "you have not added location https://theirs.example/ for artifact {}",
            cid().to_text()
        ))
    );
    assert!(own_locations(Some(&r.release), &id(1), &cid(), &did(9)).ok().unwrap().is_empty());
    assert_eq!(
        own_locations(None, &id(1), &cid(), &did(LOCAL)).err(),
        Some(format!("release {} not found", id(1).to_text()))
    );
    assert!(own_locations(Some(&r.release), &id(1), &compute_cid(b"x"), &did(LOCAL)).is_err());
    assert!(location_remove(&mut r, cid(), theirs, did(LOCAL)).is_err());
    assert!(location_remove(&mut r, cid(), mine, did(LOCAL)).is_ok());
    assert_eq!(r.artifact(&cid()).unwrap().locations().len(), 1);
    assert!(matches!(target_of(true, false, Some(cid())), Target::Given(c) if c == cid()));
    assert!(matches!(target_of(false, false, None), Target::Pick));
}

#[test]
fn metadata_is_for_authors_and_delegates() {
    let mut r = with_artifact(1, 1, LOCAL, 1);
    let set = |r: &mut ReleaseMut, who: u8, value: &str, json: bool| {
        metadata_set(r, cid(), "k".to_owned(), value, json, &delegates(), did(who))
    };
    assert!(set(&mut r, LOCAL, "v", false).is_ok());
    assert!(set(&mut r, DELEGATE, "{\"a\": 1}", true).is_ok());
    let got = r.artifact(&cid()).unwrap().metadata().get(&"k".to_owned()).unwrap();
    assert_eq!(got.as_text(), "{\"a\":1}");
    match set(&mut r, STRANGER, "v", false) {
        Err(e) => assert_eq!(
            e.message(),
            format!(
                "not authorized to manage metadata on artifact {}: only the artifact author ({}) or a repository delegate may. local DID is {}",
                cid().to_text(),
                did(LOCAL).encode(),
                did(STRANGER).encode()
            )
        ),
        Ok(_) => panic!("expected a refusal"),
    }
    assert!(matches!(
        set(&mut r, LOCAL, "{", true),
        Err(MetadataError::InvalidJson { .. })
    ));
    assert!(matches!(
        metadata_set(&mut r, cid(), "".to_owned(), "v", false, &delegates(), did(LOCAL)),
        Err(MetadataError::InvalidKey(_))
    ));
    assert!(matches!(
        metadata_set(&mut r, compute_cid(b"x"), "k".to_owned(), "v", false, &delegates(), did(LOCAL)),
        Err(MetadataError::UnknownCid { .. })
    ));
    assert!(metadata_unset(&mut r, cid(), "k".to_owned(), &delegates(), did(STRANGER)).is_err());
    assert!(metadata_unset(&mut r, cid(), "k".to_owned(), &delegates(), did(LOCAL)).is_ok());
    assert!(r.artifact(&cid()).unwrap().metadata().is_empty());
    assert_eq!(metadata_value("7", false).ok().unwrap().as_text(), "\"7\"");
    assert_eq!(metadata_value("7", true).ok().unwrap().as_text(), "7");
}

#[test]
fn changes_are_reported() {
    let c = cid().to_text();
    let u = url("https://a.example/");
    assert_eq!(
        Done::LocationAdded { url: &u, cid: cid() }.message(),
        format!("Added location https://a.example/ for artifact {c}")
    );
    assert_eq!(
        Done::LocationRemoved { url: &u, cid: cid() }.message(),
        format!("Removed location https://a.example/ for artifact {c}")
    );
    assert_eq!(Done::Attested(cid()).message(), format!("Attested artifact {c}"));
    assert_eq!(Done::Redacted(cid()).message(), format!("Redacted artifact {c}"));
    assert_eq!(Done::Deleted(id(1)).message(), format!("Deleted release {}", id(1).to_text()));
}

#[test]
fn questions_need_a_terminal() {
    assert!(may_ask(Question::Name, false, true).is_ok());
    assert_eq!(
        may_ask(Question::Name, true, true),
        Err("pass -n/--name for non-interactive use".to_owned())
    );
    assert!(may_ask(Question::Location, false, false).is_err());
    assert!(may_select_release(true).is_ok());
    assert!(may_select_release(false).is_err());
    assert_eq!(cancelled("escape"), "selection cancelled: escape");
    assert_eq!(create_label(&oid(1)), "Create new release (tag 0a0b0c0)");
    assert_eq!(dir_question("dist"), "Register dist as:");
}

#[test]
fn releases_of_a_commit_are_offered_together() {
    let one = with_artifact(1, 1, DELEGATE, 10);
    let mut two = with_artifact(2, 1, STRANGER, 30);
    two.register_artifact(compute_cid(b"b"), "b".to_owned(), did(STRANGER));
    two.redact(compute_cid(b"b"), "bad".to_owned(), did(STRANGER)).ok().unwrap();
    let three = make(3, 2, DELEGATE, None, 20);
    let all = vec![(one.id, one.release), (two.id, two.release), (three.id, three.release)];
    let refs: Vec<&(ReleaseId, radicle_artifact::release::Release)> = all.iter().collect();
    let groups = commit_groups(&refs);
    assert_eq!(groups.len(), 2);
    assert_eq!(groups[1].oid, oid(1));
    assert_eq!(groups[1].artifacts.len(), 2);
    assert_eq!(group_label(&groups[1], "Fix"), "0a0b0c0 Fix (2 artifacts)");
    assert_eq!(group_label(&groups[0], "Other"), "0a0b0c0 Other (0 artifacts)");
    let labels = artifact_labels(&groups[1]).ok().unwrap();
    assert_eq!(labels[0], format!("my app (CID: {})", cid().to_text()));
    assert_eq!(labels[1], format!("b (CID: {}) [REDACTED]", compute_cid(b"b").to_text()));
    assert_eq!(
        artifact_labels(&groups[0]).err(),
        Some("selected release has no artifacts".to_owned())
    );
}

#[test]
fn tags_come_before_commits() {
    let tag = |time, name: &str, n| TagInfo {
        time,
        name: name.to_owned(),
        tag_oid: oid(n),
        commit_oid: oid(n + 1),
    };
    let tags = vec![tag(-5, "v1", 10), tag(100, "v2", 20)];
    let history: Vec<Oid> = (0..40u8).map(oid).collect();
    let entries = picker_entries(&tags, &history).ok().unwrap();
    assert_eq!(entries.len(), 2 + PICKER_COMMIT_LIMIT);
    assert!(matches!(&entries[0], Entry::Tag { name, .. } if name == "v2"));
    assert!(matches!(&entries[1], Entry::Tag { name, .. } if name == "v1"));
    assert!(matches!(&entries[2], Entry::Commit { oid: o } if *o == oid(0)));
    let r = entries[0].resolved();
    assert_eq!(r.commit, oid(21));
    assert_eq!(r.tag, Some(oid(20)));
    assert_eq!(entries[0].label("Title"), "v2 -> 0a0b0c0  Title");
    assert_eq!(entries[2].label("Title"), "0a0b0c0  Title");
    assert!(picker_entries(&Vec::new(), &Vec::new()).is_err());
    let u = url("https://a.example/");
    assert_eq!(location_labels(&vec![&u]).ok(), Some(vec!["https://a.example/".to_owned()]));
    assert!(location_labels(&Vec::new()).is_err());
}

#[test]
fn the_tools_find_one_release() {
    let releases = stored(vec![with_artifact(1, 1, DELEGATE, 1), make(2, 2, DELEGATE, None, 2), make(3, 2, LOCAL, None, 3)]);
    assert!(find_unique_by_oid(oid(1), &releases).ok() == Some(id(1)));
    assert!(matches!(find_unique_by_oid(oid(2), &releases), Err(FindError::Ambiguous(_))));
    assert!(matches!(find_unique_by_oid(oid(9), &releases), Err(FindError::NoRelease(_))));
    assert_eq!(find_artifact(oid(1), cid(), &releases).ok().unwrap().name(), "my app");
    assert!(matches!(
        find_artifact(oid(1), compute_cid(b"x"), &releases),
        Err(TargetError::ArtifactNotFound(_))
    ));
    assert!(matches!(fetch_target(None, None), Ok(None)));
    assert!(matches!(fetch_target(Some(oid(1)), Some(cid())), Ok(Some((o, c))) if o == oid(1) && c == cid()));
    assert!(fetch_target(Some(oid(1)), None).is_err());
    assert_eq!(
        FindError::Ambiguous(oid(1)).message(),
        format!(
            "multiple releases found for commit {}, use a release ID to disambiguate",
            oid(1).to_text()
        )
    );
}

#[test]
fn the_tools_offer_numbered_choices() {
    let mut releases = stored(vec![with_artifact(1, 1, DELEGATE, 1)]);
    releases.items.push(Err("corrupt".to_owned()));
    let found = release_candidates(&releases).ok().unwrap();
    assert_eq!(found.len(), 1);
    assert_eq!(
        release_choice(0, &found[0].1),
        format!("  [1] {} (1 artifact)", oid(1).to_text())
    );
    assert_eq!(
        artifact_choices(&found[0].1).ok().unwrap(),
        vec![format!("  [1] my app (CID: {})", cid().to_text())]
    );
    assert!(release_candidates(&Releases { items: Vec::new() }).is_err());
    assert_eq!(choice_prompt("Select", 3), "Select [1-3]: ");
    assert_eq!(parse_choice(" 2\n", 3), Some(1));
    assert_eq!(parse_choice("0", 3), None);
    assert_eq!(parse_choice("4", 3), None);
    assert_eq!(parse_choice("x", 3), None);
    assert_eq!(distinct_output("app", &cid()), format!("app_{}", cid().to_text()));
    let mut map = SortedMap::new();
    assert!(redaction_notes(&map).is_empty());
    map.insert(did(1), "bad".to_owned());
    assert_eq!(
        redaction_notes(&map),
        vec![
            "WARNING: this artifact has been redacted".to_owned(),
            format!("  {}: bad", did(1).encode())
        ]
    );
}

#[test]
fn every_release_contributes_places() {
    let mut one = with_artifact(1, 1, DELEGATE, 10);
    one.add_location(cid(), url("https://a.example/"), did(1));
    one.add_location(cid(), url("radiroh://"), did(2));
    let mut two = with_artifact(2, 2, STRANGER, 20);
    two.add_location(cid(), url("https://a.example/"), did(3));
    two.add_location(cid(), endpoint(2).to_url(), did(3));
    two.add_location(cid(), url("radiroh://abc123"), did(3));
    let releases = stored(vec![one, two]);
    let (notes, got) = resolve_retrieval(None, cid(), None, true, &releases);
    let got = got.ok().unwrap();
    assert_eq!(got.locations.len(), 2);
    assert!(got.locations.iter().any(|l| matches!(l, FetchLocation::Iroh(e) if *e == endpoint(2))));
    assert!(got.primary_id == id(2));
    assert_eq!(got.name, "my app");
    assert_eq!(notes.len(), 2);
    assert!(notes[0].starts_with("Artifact: my app (CID: "));
    assert!(notes[1].starts_with("Warning: skipping location radiroh://abc123"));
    let (_, first) = resolve_retrieval(Some(oid(1)), cid(), None, true, &releases);
    assert!(first.ok().unwrap().primary_id == id(1));
    let (_, wrong) = resolve_retrieval(Some(oid(9)), cid(), None, true, &releases);
    assert!(matches!(wrong, Err(ShareError::Usage(_))));
    let (_, none) = resolve_retrieval(None, compute_cid(b"x"), None, true, &releases);
    assert!(matches!(none, Err(ShareError::ArtifactNotFound(_))));
    let only = url("https://only.example/");
    let (_, direct) = resolve_retrieval(None, cid(), Some(&only), true, &releases);
    assert_eq!(direct.ok().unwrap().locations.len(), 1);
    let bare = stored(vec![with_artifact(3, 3, DELEGATE, 1)]);
    let (_, nowhere) = resolve_retrieval(None, cid(), None, true, &bare);
    assert!(matches!(nowhere, Err(ShareError::NoLocationsForCid { .. })));
    let (_, offline) = resolve_retrieval(None, cid(), None, false, &bare);
    assert!(offline.ok().unwrap().locations.is_empty());
}

#[test]
fn retrieval_notes() {
    assert_eq!(retrieval_plan(true, &Vec::new()), "Already in local store");
    let places =
        vec![FetchLocation::Url(url("https://a.example/")), FetchLocation::Iroh(endpoint(1))];
    assert_eq!(retrieval_plan(false, &places), "Trying 2 locations (1 url, 1 iroh)...");
    assert_eq!(default_output("my app 1"), "my_app_1");
    assert_eq!(seed_under(true, &id(1)), Some(id(1).id));
    assert_eq!(seed_under(false, &id(1)), None);
    assert_eq!(
        seeding_note(&cid(), &id(1)),
        format!("Now seeding {}; added location to release 0102030", cid().to_text())
    );
    assert_eq!(fetched_note(&cid(), true), None);
    assert_eq!(
        fetched_note(&cid(), false),
        Some(format!("Fetched {} into the store", cid().to_text()))
    );
}

#[test]
fn safe_join_allows_nested_paths() {
    assert_eq!(safe_join("/dest", "a/b/c.txt"), Some("/dest/a/b/c.txt".to_owned()));
    assert!(safe_join("/dest", "file.bin").is_some());
    assert!(safe_join("/dest", "./file.bin").is_some());
}

#[test]
fn safe_join_rejects_traversal_and_absolute() {
    assert!(safe_join("/dest", "../escape").is_none());
    assert!(safe_join("/dest", "a/../../escape").is_none());
    assert!(safe_join("/dest", "..").is_none());
    assert!(safe_join("/dest", "/etc/passwd").is_none());
    assert!(safe_join("/dest", "a/..").is_none());
    assert!(safe_join("/dest", "..a/b..").is_some());
}

/// What `std::path` makes of a staging path.
fn sibling(dest: &str) -> String {
    let dest = std::path::Path::new(dest);
    let stem = dest.file_name().map_or("artifact", |n| n.to_str().unwrap());
    let name = format!(".{stem}.rad-partial");
    match dest.parent() {
        Some(parent) if !parent.as_os_str().is_empty() => {
            parent.join(name).to_str().unwrap().to_owned()
        }
        _ => name,
    }
}

#[test]
fn content_is_staged_beside_its_destination() {
    for dest in ["/a/b.bin", "b.bin", "a/b", "/a/b/", "/", ".", "..", "a/..", "a/./b/.", "//x"] {
        assert_eq!(partial_sibling(dest), sibling(dest), "{}", dest);
    }
}

#[test]
fn collections_are_written_member_by_member() {
    let members = vec![("a".to_owned(), key(1)), ("d/b".to_owned(), key(2))];
    let write = |m: &Member<'_>| {
        if m.path.starts_with("/out/") {
            Ok(m.name.len() as u64)
        } else {
            Err(Error::Io("outside".to_owned()))
        }
    };
    assert_eq!(export_members(&members, "/out", write).ok(), Some(4));
    let unsafe_members = vec![("a".to_owned(), key(1)), ("../b".to_owned(), key(2))];
    assert_eq!(
        export_members(&unsafe_members, "/out", write).err().unwrap().message(),
        "iroh fetch failed: unsafe collection member name: \"../b\""
    );
    let failing = |_: &Member<'_>| Err(Error::Io("full".to_owned()));
    assert_eq!(
        export_members(&members, "/out", failing).err().unwrap().message(),
        "I/O error: full"
    );
    let refusing = |_: &Member<'_>| Err(Error::Iroh("export: gone".to_owned()));
    assert_eq!(
        export_members(&members, "/out", refusing).err().unwrap().message(),
        "iroh fetch failed: export 'a': iroh fetch failed: export: gone"
    );
    let huge = |_: &Member<'_>| Ok(u64::MAX);
    assert_eq!(export_members(&members, "/out", huge).ok(), Some(u64::MAX));
    assert_eq!(
        export_error("/out", &Error::Io("full".to_owned())).message(),
        "iroh fetch failed: failed to export from the iroh store to '/out': I/O error: full"
    );
}

/// A disk held in memory: what was written, by path.
struct Disk {
    files: std::cell::RefCell<Vec<(String, Vec<u8>)>>,
}

impl Disk {
    fn new() -> Disk {
        Disk { files: std::cell::RefCell::new(Vec::new()) }
    }

    fn read(&self, path: &str) -> Option<Vec<u8>> {
        self.files.borrow().iter().find(|f| f.0 == path).map(|f| f.1.clone())
    }
}

/// Writes the members of a collection to `disk`, under `dir`.
fn export(members: &[(&str, &[u8])], dir: &str, disk: &Disk) -> Result<u64, Error> {
    let mut list = Vec::new();
    for (name, data) in members {
        list.push((name.to_string(), Key::from_bytes(blake3::hash(data).as_bytes())));
    }
    export_members(&list, dir, |m: &Member<'_>| {
        let found = members
            .iter()
            .find(|(_, data)| Key::from_bytes(blake3::hash(data).as_bytes()) == m.hash);
        let data = found.unwrap().1.to_vec();
        let size = data.len() as u64;
        disk.files.borrow_mut().push((m.path.to_owned(), data));
        Ok(size)
    })
}

#[test]
fn export_collection_writes_members() {
    let disk = Disk::new();
    let members: [(&str, &[u8]); 2] = [("a.txt", b"alpha"), ("sub/b.txt", b"beta")];
    let total = export(&members, "/tmp/out", &disk).ok().unwrap();
    assert_eq!(total, (b"alpha".len() + b"beta".len()) as u64);
    assert_eq!(disk.read("/tmp/out/a.txt"), Some(b"alpha".to_vec()));
    assert_eq!(disk.read("/tmp/out/sub/b.txt"), Some(b"beta".to_vec()));
    assert_eq!(disk.files.borrow().len(), 2);
}

#[test]
fn export_collection_rejects_unsafe_member() {
    let disk = Disk::new();
    let members: [(&str, &[u8]); 1] = [("../escape", b"evil")];
    let err = export(&members, "/tmp/out", &disk).err().unwrap();
    assert!(
        matches!(&err, Error::Iroh(m) if m.contains("unsafe collection member name")),
        "got {}",
        err.message()
    );
    assert!(disk.files.borrow().is_empty());
}

#[test]
fn the_store_decides_whether_a_download_succeeded() {
    let mut t = Transfer::new();
    let step = t.step(DownloadEvent::TryProvider(endpoint(1)));
    assert!(!step.reset && !step.stop);
    let step = t.step(DownloadEvent::ProviderFailed(endpoint(1)));
    assert!(!step.reset && !step.stop);
    assert!(matches!(step.frame, Some(FetchProgress::LocationFailed { .. })));
    let step = t.step(DownloadEvent::Progress(7));
    assert!(step.reset);
    assert!(matches!(step.frame, Some(FetchProgress::Downloading { offset: 7, total: None })));
    assert!(t.step(DownloadEvent::PartComplete).reset);
    assert!(t.step(DownloadEvent::Idle).stop);
    assert_eq!(
        t.finish(Err("locked".to_owned())).err().unwrap(),
        vec![
            format!("location {}: download failed", endpoint(1).to_url().as_str()),
            "store completeness check: locked".to_owned(),
            "no progress for 60s".to_owned(),
        ]
    );
    let mut ok = Transfer::new();
    ok.step(DownloadEvent::Error("oops".to_owned()));
    assert!(ok.finish(Ok(true)).is_ok());
    let mut end = Transfer::new();
    assert!(end.step(DownloadEvent::End).stop);
    assert!(end.finish(Ok(false)).err().unwrap().is_empty());
    let mut err = Transfer::new();
    assert!(err.step(DownloadEvent::DownloadError).stop);
    assert_eq!(err.finish(Ok(false)).err().unwrap(), vec!["download error".to_owned()]);
}

#[test]
fn an_export_reports_its_progress() {
    let mut e = Export { size: None, entry: Some("a") };
    assert!(matches!(e.step(ExportEvent::Size(10)), Ok(None)));
    assert!(matches!(
        e.step(ExportEvent::CopyProgress(4)),
        Ok(Some(FetchProgress::Exporting { offset: 4, total: Some(10), entry: Some(n) })) if n == "a"
    ));
    assert!(matches!(e.step(ExportEvent::Done), Ok(None)));
    assert_eq!(e.finish(99).0, 10);
    assert_eq!(
        e.step(ExportEvent::Error("x".to_owned())).err().unwrap().message(),
        "iroh fetch failed: export: x"
    );
    assert_eq!(Export { size: None, entry: None }.finish(99).0, 99);
}
