use radicle_artifact::ids::{Cid, Did, Key, Oid, ReleaseId};
use radicle_artifact::register::{
    chosen_mode, dir_mode_labels, directory_step, each_pending, each_rows, hints, plural,
    registration_plan, registration_source, single_pending, summary, top_level_members, DirMode,
    DirStep, EntryKind, Member, Pending, Plan, Skipped, Source,
};
use radicle_artifact::share::compute_cid;

fn cid() -> Cid {
    compute_cid(b"artifact")
}

/// The plan where the user can be asked.
fn plan(is_dir: bool, collection: bool, each: bool, named: bool) -> Result<Plan, String> {
    registration_plan(is_dir, collection, each, named, true)
}

#[test]
fn file_registers_as_one_blob() {
    assert_eq!(plan(false, false, false, false), Ok(Plan::Blob));
}

#[test]
fn directory_prompts_in_a_terminal() {
    assert_eq!(plan(true, false, false, false), Ok(Plan::Ask));
}

#[test]
fn no_input_directory_stays_a_collection() {
    assert_eq!(registration_plan(true, false, false, false, false), Ok(Plan::Collection));
}

#[test]
fn named_directory_skips_the_question() {
    assert_eq!(plan(true, false, false, true), Ok(Plan::Collection));
}

#[test]
fn flags_override_the_question() {
    assert_eq!(plan(true, false, true, false), Ok(Plan::Each));
    assert_eq!(plan(true, true, false, false), Ok(Plan::Collection));
}

#[test]
fn directory_flags_are_rejected_for_a_file() {
    assert!(plan(false, true, false, false).is_err());
    assert!(plan(false, false, true, false).is_err());
    assert_eq!(
        plan(false, true, false, false),
        Err("--collection and --each apply to a directory; <PATH> is a file".to_owned())
    );
}

#[test]
fn dir_mode_labels_use_the_singular_for_one_file() {
    let [collection, each] = dir_mode_labels(1, 1024, 1);
    assert_eq!(collection, "one collection artifact (1 file, 1.0 KiB)");
    assert_eq!(each, "1 separate artifact (top-level files only)");
}

#[test]
fn dir_mode_labels_count_the_tree_and_the_top_level_apart() {
    let [collection, each] = dir_mode_labels(5, 1024, 3);
    assert_eq!(collection, "one collection artifact (5 files, 1.0 KiB)");
    assert_eq!(each, "3 separate artifacts (top-level files only)");
}

fn pending(name: &str, size: Option<u64>) -> Pending {
    Pending { cid: cid(), name: name.to_string(), size, path: None }
}

#[test]
fn each_rows_align_cids() {
    let rows = each_rows(&vec![
        pending("a.bin", Some(1024)),
        pending("longer.bin", Some(2048)),
    ]);
    let full = cid().to_text();
    assert_eq!(rows[0], format!("  a.bin       {full}  1.0 KiB"));
    assert_eq!(rows[1], format!("  longer.bin  {full}  2.0 KiB"));
}

#[test]
fn each_rows_omit_missing_sizes() {
    let rows = each_rows(&vec![pending("a.bin", None)]);
    assert_eq!(rows[0], format!("  a.bin  {}", cid().to_text()));
}

fn file(name: &str) -> EntryKind {
    EntryKind::File { name: Some(name.to_owned()), bytes: 4 }
}

#[test]
fn top_level_members_skip_subdirectories() {
    let (members, skipped) =
        top_level_members(&vec![file("a.bin"), EntryKind::Dir, EntryKind::Dir]);
    assert_eq!(members.len(), 1);
    assert_eq!(members[0].name, "a.bin");
    assert_eq!(members[0].bytes, 4);
    assert_eq!(skipped.dirs, 2);
    assert_eq!(skipped.other, 0);
}

#[test]
fn top_level_members_are_sorted_by_name() {
    let (members, _) = top_level_members(&vec![file("c.bin"), file("a.bin"), file("b.bin")]);
    let names: Vec<&str> = members.iter().map(|m| m.name.as_str()).collect();
    assert_eq!(names, vec!["a.bin", "b.bin", "c.bin"]);
    let places: Vec<usize> = members.iter().map(|m| m.place).collect();
    assert_eq!(places, vec![1, 2, 0]);
}

#[test]
fn top_level_members_is_empty_for_a_nested_only_directory() {
    let (members, skipped) = top_level_members(&vec![EntryKind::Dir]);
    assert!(members.is_empty());
    assert_eq!(skipped.dirs, 1);
}

#[test]
fn top_level_members_count_what_they_cannot_register() {
    let (members, skipped) = top_level_members(&vec![file("a.bin"), EntryKind::Other]);
    assert_eq!(members.len(), 1);
    assert_eq!(skipped.other, 1);
}

#[test]
fn a_name_that_is_not_text_is_passed_over() {
    let (members, skipped) =
        top_level_members(&vec![EntryKind::File { name: None, bytes: 9 }, file("a")]);
    assert_eq!(members.len(), 1);
    assert_eq!(skipped, Skipped { dirs: 0, other: 1 });
}

#[test]
fn skipped_notes_one_per_reason() {
    assert!(Skipped::default().notes().is_empty());

    let notes = Skipped { dirs: 1, other: 2 }.notes();
    assert_eq!(notes.len(), 2);
    assert!(notes[0].contains("1 subdirectory"), "{}", notes[0]);
    assert!(notes[1].contains("2 entries"), "{}", notes[1]);
    assert_eq!(notes[0], "Note: skipped 1 subdirectory; --each does not recurse");
    assert_eq!(
        notes[1],
        "Note: skipped 2 entries: not a regular file, or the name is not UTF-8"
    );
}

#[test]
fn a_plural_has_an_s() {
    assert_eq!(plural(0), "s");
    assert_eq!(plural(1), "");
    assert_eq!(plural(2), "s");
}

#[test]
fn a_registration_has_one_source() {
    assert!(matches!(registration_source(Some("x"), None), Ok(Source::Path("x"))));
    assert!(matches!(registration_source(None, Some(cid())), Ok(Source::Cid(c)) if c == cid()));
    assert!(registration_source(Some("x"), Some(cid())).is_err());
    assert!(registration_source(None, None).is_err());
}

#[test]
fn a_directory_without_files_is_a_collection() {
    assert_eq!(directory_step(Plan::Ask, 0), DirStep::Take(DirMode::Collection));
    assert_eq!(directory_step(Plan::Ask, 2), DirStep::Ask);
    assert_eq!(directory_step(Plan::Each, 0), DirStep::Take(DirMode::Each));
    assert_eq!(chosen_mode(0), DirMode::Collection);
    assert_eq!(chosen_mode(1), DirMode::Each);
}

fn oid(n: u8) -> Oid {
    Oid { hi: 0, lo: n as u128 }
}

fn release_id(n: u8) -> ReleaseId {
    ReleaseId { id: oid(n) }
}

#[test]
fn a_size_is_recorded_where_there_is_content_to_measure() {
    let p = single_pending(cid(), "a".to_owned(), Some("/x/a".to_owned()), Some(7), false);
    assert_eq!(p.size, Some(7));
    let p = single_pending(cid(), "a".to_owned(), Some("/x/a".to_owned()), Some(7), true);
    assert_eq!(p.size, None);
    let p = single_pending(cid(), "a".to_owned(), None, Some(7), false);
    assert_eq!(p.size, None);
}

#[test]
fn each_file_becomes_an_artifact_of_its_name() {
    let members = vec![
        Member { name: "a".to_owned(), place: 1, bytes: 3 },
        Member { name: "b".to_owned(), place: 0, bytes: 5 },
    ];
    let cids = vec![compute_cid(b"aaa"), compute_cid(b"bbbbb")];
    let paths = vec!["d/a".to_owned(), "d/b".to_owned()];
    let got = each_pending("d", &members, &cids, &paths, false).ok().unwrap();
    assert_eq!(got.len(), 2);
    assert_eq!(got[1].name, "b");
    assert_eq!(got[1].size, Some(5));
    assert_eq!(got[1].path, Some("d/b".to_owned()));
    assert!(got[1].cid == compute_cid(b"bbbbb"));
    let err = each_pending("d", &Vec::new(), &Vec::new(), &Vec::new(), false).err().unwrap();
    assert_eq!(err, "no files directly inside d; register the whole tree with --collection");
}

#[test]
fn a_summary_names_the_release_and_the_commit() {
    let one = vec![pending("a.bin", Some(1536))];
    assert_eq!(
        summary(&one, &release_id(1), &oid(2)),
        vec!["Registered artifact 'a.bin' (1.5 KiB) in release 0000000 (commit 0000000)".to_owned()]
    );
    let two = vec![pending("a", Some(1024)), pending("b", Some(1024))];
    let lines = summary(&two, &release_id(1), &oid(2));
    assert_eq!(lines.len(), 3);
    assert_eq!(
        lines[2],
        "Registered 2 artifacts (2.0 KiB) in release 0000000 (commit 0000000)"
    );
    let unsized_one = vec![pending("a", Some(1024)), pending("b", None)];
    assert_eq!(
        summary(&unsized_one, &release_id(1), &oid(2))[2],
        "Registered 2 artifacts in release 0000000 (commit 0000000)"
    );
}

#[test]
fn hints_are_for_readers_who_do_not_seed() {
    let one = vec![pending("a", None)];
    assert!(hints(&one, &release_id(1), true, true).is_empty());
    assert!(hints(&one, &release_id(1), false, false).is_empty());
    let got = hints(&one, &release_id(1), false, true);
    assert_eq!(got.len(), 1);
    assert_eq!(
        got[0],
        format!(
            "Hint: use `rad-artifact location add --release 0000000 --cid {} <url>` to add a download location",
            cid().to_text()
        )
    );
}

#[test]
fn an_identity_is_its_key() {
    let did = Did { key: Key { hi: 1, lo: 2 } };
    assert!(did.encode().starts_with("did:key:z6Mk"));
}
