use radicle_artifact::follow::{
    drain_step, hold_back, not_seeded, opening, parse_size, places_of, seed_step, sweep_interval,
    targets, touches_artifacts, until_sweep, Announcements, DrainStep, NodeEvent, Said, SeedStep,
    watch_step, WatchEvent, WatchStep,
};
use radicle_artifact::ids::{Cid, Did, Key, Oid, ReleaseId, RepoId};
use radicle_artifact::location::{EndpointId, Url};
use radicle_artifact::node::{
    announces, client_err, humanize_uptime, last_lines, relay_report, retract, seed_target,
    seeded_line, seeded_list, seeded_note, start_step, status_report, swept_note,
    unseed_scope, unseed_targets, unseeded_note, CallFailure, NodeError, RelayState, RelayStats,
    Scope, SeededEntry, Start, StartStep, Status,
};
use radicle_artifact::retrieval::FetchLocation;
use radicle_artifact::share::compute_cid;
use radicle_artifact::sorted::SortedSet;
use radicle_artifact::store::{ReleaseMut, Releases};
use radicle_artifact::text::split_lines;
use radicle_artifact::watch::Wanted;

fn cid() -> Cid {
    compute_cid(b"seeded-line-sample")
}

fn oid(n: u8) -> Oid {
    Oid { hi: 0, lo: n as u128 }
}

fn rid(n: u8) -> RepoId {
    RepoId { id: oid(n) }
}

fn key(byte: u8) -> Key {
    Key::from_bytes(iroh_base::SecretKey::from_bytes(&[byte; 32]).public().as_bytes())
}

fn user(n: u8) -> Did {
    Did { key: key(n) }
}

fn endpoint(n: u8) -> EndpointId {
    EndpointId::from_key(key(n)).unwrap()
}

fn url(s: &str) -> Url {
    Url::parse(s).ok().unwrap()
}

fn release(n: u8, time: u64) -> ReleaseMut {
    let id = ReleaseId { id: oid(n) };
    let mut r = Releases::create(id, oid(n), true, None, user(1), time).unwrap();
    r.register_artifact(cid(), "app".to_owned(), user(1));
    r
}

fn stored(items: Vec<ReleaseMut>) -> Releases {
    let mut releases = Releases { items: Vec::new() };
    for r in items {
        releases.put(r);
    }
    releases
}

#[test]
fn complete_row_is_unadorned() {
    let entry = SeededEntry { cid: cid(), bytes: 2048, complete: Some(true) };
    assert_eq!(seeded_line(&entry), format!("{} (2.0 KiB)", cid().to_text()));
}

#[test]
fn incomplete_row_reports_what_is_there() {
    let entry = SeededEntry { cid: cid(), bytes: 1024, complete: Some(false) };
    assert_eq!(
        seeded_line(&entry),
        format!("{} ⚠ incomplete — only 1.0 KiB in the store", cid().to_text())
    );
}

#[test]
fn unknown_row_says_unknown() {
    let entry = SeededEntry { cid: cid(), bytes: 1024, complete: None };
    assert_eq!(
        seeded_line(&entry),
        format!("{} (1.0 KiB) ⚠ completeness unknown", cid().to_text())
    );
}

#[test]
fn a_list_has_a_heading() {
    assert_eq!(
        seeded_list(&Vec::new(), &rid(1)),
        vec![format!("🌾 Nothing seeded for {} yet.", rid(1).to_text())]
    );
    let one = vec![SeededEntry { cid: cid(), bytes: 1, complete: Some(true) }];
    let lines = seeded_list(&one, &rid(1));
    assert_eq!(lines[0], format!("🌱 Seeding 1 artifact(s) for {}:", rid(1).to_text()));
    assert_eq!(lines[1], format!("  {} (1 B)", cid().to_text()));
}

#[test]
fn starting_respects_what_is_there() {
    let plain = Start { foreground: false, force: false };
    let force = Start { foreground: false, force: true };
    let front = Start { foreground: true, force: false };
    assert_eq!(start_step(&front, false, true, "s").ok(), Some(StartStep::Foreground));
    assert_eq!(start_step(&plain, true, true, "s").ok(), Some(StartStep::Running));
    assert_eq!(start_step(&force, false, true, "s").ok(), Some(StartStep::Reclaim));
    assert_eq!(start_step(&plain, false, false, "s").ok(), Some(StartStep::Spawn));
    assert_eq!(
        start_step(&plain, false, true, "/run/s").err().unwrap().message(),
        "stale control socket at /run/s; pass --force to reclaim it"
    );
}

#[test]
fn nobody_answering_means_no_node() {
    assert!(matches!(client_err(CallFailure::Refused), NodeError::NotRunning));
    assert!(matches!(client_err(CallFailure::NoSocket), NodeError::NotRunning));
    assert_eq!(
        client_err(CallFailure::Other("bad frame".to_owned())).message(),
        "node call failed: bad frame"
    );
    assert_eq!(
        NodeError::NotRunning.message(),
        "no rad-artifact node is running on this host\n  hint: start one with `rad-artifact node start`"
    );
    assert_eq!(
        NodeError::ArtifactNotFound(cid()).message(),
        format!("artifact with CID {} not found in any release", cid().to_text())
    );
    let timeout =
        NodeError::StartupTimeout { waited: "10s".to_owned(), log: "/tmp/l".to_owned() };
    assert_eq!(
        timeout.message(),
        "node did not come online within 10s; check the log file at /tmp/l"
    );
}

#[test]
fn an_artifact_is_seeded_under_the_latest_release() {
    let releases = stored(vec![release(1, 100), release(2, 300), release(3, 200)]);
    assert!(seed_target(&releases, &cid()).ok() == Some(ReleaseId { id: oid(2) }));
    assert!(matches!(
        seed_target(&releases, &compute_cid(b"other")),
        Err(NodeError::ArtifactNotFound(_))
    ));
    let mut broken = stored(vec![release(1, 100)]);
    broken.items.push(Err("bad".to_owned()));
    assert!(matches!(seed_target(&broken, &cid()), Err(NodeError::Find(e)) if e == "bad"));
    assert_eq!(
        seeded_note(&cid(), 1024, true),
        format!("🌱 Seeded {} (1.0 KiB, new tagged)", cid().to_text())
    );
    assert!(seeded_note(&cid(), 1024, false).ends_with(", already tagged)"));
    assert!(announces(true, false));
    assert!(!announces(true, true));
    assert!(!announces(false, false));
}

#[test]
fn unseeding_asks_only_where_there_is_a_choice() {
    let one = stored(vec![release(1, 100)]);
    let two = stored(vec![release(1, 100), release(2, 200)]);
    let id = ReleaseId { id: oid(1) };
    assert!(matches!(
        unseed_scope(Some(id), &two, &cid(), false, true),
        Ok(Scope::One(got)) if got == id
    ));
    assert!(matches!(unseed_scope(None, &one, &cid(), false, true), Ok(Scope::All)));
    assert!(matches!(unseed_scope(None, &two, &cid(), true, true), Ok(Scope::All)));
    assert!(matches!(unseed_scope(None, &two, &cid(), false, false), Ok(Scope::All)));
    assert!(matches!(
        unseed_scope(None, &two, &cid(), false, true),
        Ok(Scope::Choose(v)) if v.len() == 2
    ));
    assert!(unseed_targets(Some(id), &two, &cid()).ok().unwrap() == vec![id]);
    assert_eq!(unseed_targets(None, &two, &cid()).ok().unwrap().len(), 2);
}

#[test]
fn retracting_takes_back_endpoint_urls_only() {
    let mut r = release(1, 100);
    r.add_location(cid(), endpoint(1).to_url(), user(1));
    r.add_location(cid(), url("radiroh://"), user(1));
    r.add_location(cid(), url("https://a.example/"), user(1));
    r.add_location(cid(), endpoint(2).to_url(), user(2));
    let ops = retract(&mut r, cid(), user(1));
    assert_eq!(ops.len(), 2);
    let artifact = r.artifact(&cid()).unwrap();
    let own = artifact.locations_of(&user(1)).unwrap();
    assert_eq!(own.len(), 1);
    assert!(own.contains(&url("https://a.example/")));
    assert_eq!(artifact.locations_of(&user(2)).unwrap().len(), 1);
    assert!(retract(&mut r, compute_cid(b"other"), user(1)).is_empty());
}

#[test]
fn notes_on_unseeding() {
    let c = cid().to_text();
    assert_eq!(
        unseeded_note(&cid(), true),
        format!("🍂 Unseeded {c} — no longer holding its bytes")
    );
    assert_eq!(
        unseeded_note(&cid(), false),
        format!("🤷 Nothing to do — {c} wasn't being seeded")
    );
    assert_eq!(swept_note(0), None);
    assert_eq!(swept_note(2), Some("🧹 Swept 2 iroh location(s) from the COB".to_owned()));
}

#[test]
fn a_log_is_cut_to_its_last_lines() {
    let text = "a\r\nb\n\nc";
    let want: Vec<String> = text.lines().map(|l| l.to_owned()).collect();
    assert_eq!(split_lines(text), want);
    assert_eq!(split_lines("x\n"), vec!["x".to_owned()]);
    assert!(split_lines("").is_empty());
    assert_eq!(last_lines(text, 2), vec!["".to_owned(), "c".to_owned()]);
    assert_eq!(last_lines(text, 9).len(), 4);
    assert!(last_lines(text, 0).is_empty());
}

#[test]
fn uptime_is_shown_in_the_largest_unit() {
    assert_eq!(humanize_uptime(100, 100), "0s ago");
    assert_eq!(humanize_uptime(100, 200), "0s ago");
    assert_eq!(humanize_uptime(59, 0), "59s ago");
    assert_eq!(humanize_uptime(60, 0), "1m ago");
    assert_eq!(humanize_uptime(3599, 0), "59m ago");
    assert_eq!(humanize_uptime(3600 + 120, 0), "1h 2m ago");
    assert_eq!(humanize_uptime(86400 * 3 + 5, 0), "3d ago");
    assert_eq!(humanize_uptime(i64::MAX, i64::MIN), "213503982334601d ago");
}

fn relay() -> RelayStats {
    RelayStats {
        relays: vec![
            RelayState {
                url: "https://r.example/".to_owned(),
                connected: true,
                latency_ms: Some(12),
                last_error: Some("old".to_owned()),
            },
            RelayState {
                url: "https://s.example/".to_owned(),
                connected: false,
                latency_ms: None,
                last_error: Some("refused".to_owned()),
            },
        ],
        udp_v4: true,
        udp_v6: false,
    }
}

#[test]
fn a_status_has_a_line_for_each_thing() {
    assert_eq!(
        relay_report(&RelayStats { relays: Vec::new(), udp_v4: true, udp_v6: true }),
        vec!["Relay         none assigned — node may be unreachable".to_owned()]
    );
    let status = Status {
        endpoint_id: endpoint(1),
        started_at_unix: 0,
        seeded_count: 2,
        seeded_bytes: 2048,
        active: 1,
        opened_total: 5,
        closed_total: 4,
        direct_total: 3,
        holepunch_attempts: 6,
        paths_direct: 7,
        paths_relayed: 8,
        out_bytes: 1024,
        in_bytes: 0,
        relay: relay(),
    };
    assert_eq!(
        status_report(&status, 61),
        vec![
            format!("Node          {} (started 1m ago)", endpoint(1).to_url().as_str()),
            "Seeded        2 artifacts · 2.0 KiB".to_owned(),
            "Connections   1 active · 5 opened · 4 closed · 3 direct · 6 holepunches".to_owned(),
            "Paths         7 direct · 8 relayed".to_owned(),
            "Traffic       1.0 KiB out · 0 B in".to_owned(),
            "Relay         connected · https://r.example/ · 12ms".to_owned(),
            "Relay         DISCONNECTED · https://s.example/ · refused".to_owned(),
            "Reachability  UDP v4 · no-v6".to_owned(),
        ]
    );
}

#[test]
fn plain_counts_and_suffixes_parse() {
    assert_eq!(parse_size("1024"), Ok(1024));
    assert_eq!(parse_size("1K"), Ok(1024));
    assert_eq!(parse_size("2g"), Ok(2 * 1024 * 1024 * 1024));
    assert_eq!(parse_size(" 3 M "), Ok(3 * 1024 * 1024));
    assert_eq!(parse_size("1t"), Ok(1 << 40));
    assert_eq!(parse_size("+5"), Ok(5));
}

#[test]
fn unknown_suffixes_and_junk_are_rejected() {
    assert!(parse_size("5X").is_err());
    assert!(parse_size("").is_err());
    assert!(parse_size("20000000T").is_err());
    assert_eq!(
        parse_size("5X"),
        Err("unknown size suffix 'X', expected K, M, G or T".to_owned())
    );
    assert_eq!(parse_size(""), Err("'' is not a byte size, e.g. 50G".to_owned()));
    assert_eq!(parse_size("20000000T"), Err("'20000000T' is too large".to_owned()));
    assert_eq!(parse_size("-1K"), Err("'-1K' is not a byte size, e.g. 50G".to_owned()));
}

fn only(list: &[RepoId]) -> SortedSet<RepoId> {
    let mut set = SortedSet::new();
    for r in list {
        set.insert(*r);
    }
    set
}

#[test]
fn only_changes_of_releases_count() {
    let release_ref = "refs/namespaces/z6Mk/refs/cobs/org.radworks.artifact/abc".to_owned();
    let other = "refs/namespaces/z6Mk/refs/heads/main".to_owned();
    assert!(touches_artifacts(&vec![other.clone(), release_ref.clone()]));
    assert!(!touches_artifacts(&vec![other.clone()]));
    let fetched = |names: &[&String]| NodeEvent::RefsFetched {
        rid: rid(1),
        names: names.iter().map(|n| (*n).clone()).collect(),
    };
    assert!(matches!(
        drain_step(fetched(&[&release_ref]), false, &only(&[])),
        DrainStep::Check(r) if r == rid(1)
    ));
    assert!(matches!(
        drain_step(fetched(&[&release_ref]), false, &only(&[rid(2)])),
        DrainStep::Next
    ));
    assert!(matches!(drain_step(fetched(&[&other]), false, &only(&[])), DrainStep::Next));
    assert!(matches!(drain_step(fetched(&[&release_ref]), true, &only(&[])), DrainStep::Elapsed));
    assert!(matches!(drain_step(NodeEvent::TimedOut, false, &only(&[])), DrainStep::Elapsed));
    assert!(matches!(drain_step(NodeEvent::Other, false, &only(&[])), DrainStep::Next));
    assert!(matches!(
        drain_step(NodeEvent::Lost("eof".to_owned()), false, &only(&[])),
        DrainStep::Lost(s) if s == "warning: lost the radicle node's event stream: eof"
    ));
}

#[test]
fn a_sweep_looks_at_what_is_seeded() {
    let stored = vec![(rid(1), true), (rid(2), false), (rid(3), true)];
    assert!(targets(&only(&[]), &stored) == vec![rid(1), rid(3)]);
    assert!(targets(&only(&[rid(2)]), &stored) == vec![rid(2)]);
    assert_eq!(sweep_interval(0), 1);
    assert_eq!(sweep_interval(900), 900);
    assert_eq!(until_sweep(0, 5000), 5000);
    assert_eq!(until_sweep(5000, 5001), 1000);
    assert_eq!(until_sweep(9000, 5000), 1000);
    let lost = WatchEvent::Heard { lost: true };
    assert_eq!(watch_step(WatchEvent::Started, 0, 0, 900), (0, WatchStep::Sweep));
    assert_eq!(
        watch_step(WatchEvent::Swept, 2000, 0, 900),
        (902_000, WatchStep::Listen(900_000))
    );
    assert_eq!(watch_step(lost, 3000, 902_000, 900), (902_000, WatchStep::Rest(10)));
    assert_eq!(watch_step(lost, 950_000, 902_000, 900), (902_000, WatchStep::Rest(10)));
    assert_eq!(
        watch_step(WatchEvent::Rested, 13_000, 902_000, 900),
        (902_000, WatchStep::Listen(889_000))
    );
    assert_eq!(watch_step(WatchEvent::Rested, 902_000, 902_000, 900), (902_000, WatchStep::Sweep));
    assert_eq!(
        watch_step(WatchEvent::Heard { lost: false }, 902_001, 902_000, 900),
        (902_000, WatchStep::Sweep)
    );
    assert_eq!(watch_step(WatchEvent::Swept, 1, 0, u64::MAX).0, u64::MAX);
    let r = rid(1).to_text();
    assert_eq!(
        not_seeded(&rid(1)),
        format!("{r} is not seeded by your radicle node\n  hint: seed it first with `rad seed {r}`")
    );
    assert_eq!(opening(None), "Watching for trusted artifacts");
    assert_eq!(opening(Some(1024)), "Watching for trusted artifacts (budget 1.0 KiB)");
    assert_eq!(hold_back(&rid(1), 3, None, u64::MAX), None);
    assert_eq!(hold_back(&rid(1), 3, Some(100), 99), None);
    assert_eq!(
        hold_back(&rid(1), 3, Some(100), 100),
        Some(format!("{r}: holding back 3 artifact(s), 100 B already seeded"))
    );
}

fn want(size: Option<u64>) -> Wanted {
    Wanted {
        release_id: ReleaseId { id: oid(1) },
        cid: cid(),
        name: "app".to_owned(),
        size_hint: size,
    }
}

#[test]
fn nothing_is_fetched_from_oneself_or_over_the_budget() {
    let mut r = release(1, 100);
    r.add_location(cid(), endpoint(1).to_url(), user(1));
    r.add_location(cid(), url("radiroh://"), user(2));
    r.add_location(cid(), url("https://a.example/"), user(2));
    let releases = vec![(r.id, r.release)];
    match seed_step(&want(None), places_of(&releases, &cid()), &endpoint(1), None, 0, false) {
        SeedStep::Fetch(places) => {
            assert_eq!(places.len(), 2);
            assert!(places.iter().all(
                |p| !matches!(p, FetchLocation::Iroh(id) if *id == endpoint(1))
            ));
        }
        _ => panic!("expected a fetch"),
    }
    let named = format!("app ({})", cid().to_text());
    assert!(matches!(
        seed_step(&want(Some(60)), places_of(&releases, &cid()), &endpoint(1), Some(100), 41, false),
        SeedStep::Skip(s) if s == format!("skipped {named}: over the budget, 41 B already seeded")
    ));
    assert!(matches!(
        seed_step(&want(Some(60)), places_of(&releases, &cid()), &endpoint(1), Some(100), 40, true),
        SeedStep::Skip(s) if s == format!("would seed {named} from 2 location(s)")
    ));
    let bare = release(2, 100);
    let nowhere = vec![(bare.id, bare.release)];
    assert!(matches!(
        seed_step(&want(None), places_of(&nowhere, &cid()), &endpoint(1), None, 0, false),
        SeedStep::Skip(s) if s == format!("skipped {named}: no locations to fetch from")
    ));
}

#[test]
fn a_message_is_said_once() {
    let mut said = Said::new();
    assert!(said.say_once("a"));
    assert!(!said.say_once("a"));
    assert!(said.say_once("b"));
}

#[test]
fn announcements_wait_until_they_succeed() {
    let mut todo = Announcements::new();
    todo.note(rid(2), true, false);
    todo.note(rid(1), true, false);
    todo.note(rid(3), false, false);
    todo.note(rid(4), true, true);
    assert!(todo.due() == vec![rid(1), rid(2)]);
    let said = todo.settle(rid(1), Err("offline".to_owned()));
    assert_eq!(
        said,
        Some(format!(
            "warning: {}: cannot announce yet, will retry: offline",
            rid(1).to_text()
        ))
    );
    assert_eq!(todo.settle(rid(2), Ok(())), None);
    assert!(todo.due() == vec![rid(1)]);
}
