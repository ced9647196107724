//! Registering artifacts: what a path stands for, which release takes it, and what is
//! said of it.

use crate::display::{bytes_shown, human_bytes};
use crate::ids::{Cid, Did, Oid, ReleaseId};
use crate::laws::lemma_step_effect;
use crate::order::{
    by_label, law_by_label_has_every_label, law_by_label_is_a_sorting, sort_by_label,
};
use crate::release::{step, steps, Action, Release, ReleaseView};
use crate::resolve::{
    collect_candidates, display_ids, eligible, first_error, id_texts, ids_of, keep_visible,
    law_every_release_of_the_commit_is_eligible, listed, Find,
};
use crate::seqs::{lemma_map_contains, lemma_push_has};
use crate::sorted::SortedSet;
use crate::store::{all_read, of_commit, ReleaseMut, Releases};
use crate::text::{
    cat3, cat4, cat5, chars_of, decimal, decimal_text, joined, push_repeated, repeated, text_lt,
    texts,
};
use crate::watch::METADATA_KEY_SIZE_BYTES;
use vstd::prelude::*;

verus! {

/// What a path is registered as.
#[derive(Clone, Copy, PartialEq, Eq, Debug, Structural)]
pub enum Plan {
    /// A file: one blob.
    Blob,
    /// A directory: one collection of the whole tree.
    Collection,
    /// A directory: one blob for each file directly in it.
    Each,
    /// A directory, and the user has to choose.
    Ask,
}

/// What the user chose for a directory.
#[derive(Clone, Copy, PartialEq, Eq, Debug, Structural)]
pub enum DirMode {
    Collection,
    Each,
}

/// What a path is registered as. `interactive` says whether the user can be asked: where
/// they cannot, or gave a name, a directory is one collection.
pub fn registration_plan(
    is_dir: bool,
    collection: bool,
    each: bool,
    named: bool,
    interactive: bool,
) -> (r: Result<Plan, String>)
    ensures
        match r {
            Ok(plan) => {
                &&& is_dir || (!collection && !each)
                &&& plan == (if !is_dir {
                    Plan::Blob
                } else if each {
                    Plan::Each
                } else if collection || named || !interactive {
                    Plan::Collection
                } else {
                    Plan::Ask
                })
            },
            Err(e) => !is_dir && (collection || each) && e@
                == "--collection and --each apply to a directory; <PATH> is a file"@,
        },
{
    if !is_dir {
        if collection || each {
            Err("--collection and --each apply to a directory; <PATH> is a file".to_owned())
        } else {
            Ok(Plan::Blob)
        }
    } else if each {
        Ok(Plan::Each)
    } else if collection {
        Ok(Plan::Collection)
    } else if interactive && !named {
        Ok(Plan::Ask)
    } else {
        Ok(Plan::Collection)
    }
}

/// Where a registration has its identifier from.
pub enum Source<'a> {
    /// The content at a path.
    Path(&'a str),
    /// The identifier itself.
    Cid(Cid),
}

/// Where a registration has its identifier from: a path or an identifier, and not both.
pub fn registration_source<'a>(path: Option<&'a str>, cid: Option<Cid>) -> (r: Result<
    Source<'a>,
    String,
>)
    ensures
        match (path, cid) {
            (Some(p), None) => r == Ok::<Source<'a>, String>(Source::Path(p)),
            (None, Some(c)) => r == Ok::<Source<'a>, String>(Source::Cid(c)),
            (Some(_), Some(_)) => r is Err && r->Err_0@
                == "cannot pass --cid together with a path; the CID is computed from the contents"@,
            (None, None) => r is Err && r->Err_0@
                == "missing artifact source; pass a <PATH> or --cid <CID>"@,
        },
{
    match (path, cid) {
        (Some(p), None) => Ok(Source::Path(p)),
        (None, Some(c)) => Ok(Source::Cid(c)),
        (Some(_), Some(_)) => Err(
            "cannot pass --cid together with a path; the CID is computed from the contents".to_owned(),
        ),
        (None, None) => Err("missing artifact source; pass a <PATH> or --cid <CID>".to_owned()),
    }
}

/// What an entry of a directory is.
pub enum EntryKind {
    /// A directory.
    Dir,
    /// A file, with its name where that is text, and its length.
    File {
        name: Option<String>,
        bytes: u64,
    },
    /// Something else, such as a link.
    Other,
}

/// A file directly in a directory.
pub struct Member {
    pub name: String,
    /// Its place among the entries of the directory.
    pub place: usize,
    pub bytes: u64,
}

/// What a member is.
pub open spec fn member_view(m: Member) -> (Seq<char>, usize, u64) {
    (m.name@, m.place, m.bytes)
}

/// What was passed over in a directory.
#[derive(Clone, Copy, PartialEq, Eq, Debug, Default, Structural)]
pub struct Skipped {
    /// Directories.
    pub dirs: usize,
    /// What is no file, or has a name that is not text.
    pub other: usize,
}

/// The files with a name among the first `n` entries of a directory.
pub open spec fn files_of(entries: Seq<EntryKind>, n: int) -> Seq<(Seq<char>, usize, u64)>
    decreases n,
{
    if n <= 0 {
        Seq::empty()
    } else {
        match entries[n - 1] {
            EntryKind::File { name: Some(name), bytes } => files_of(entries, n - 1).push(
                (name@, (n - 1) as usize, bytes),
            ),
            _ => files_of(entries, n - 1),
        }
    }
}

/// The number of directories among the first `n` entries.
pub open spec fn dirs_of(entries: Seq<EntryKind>, n: int) -> nat
    decreases n,
{
    if n <= 0 {
        0
    } else if entries[n - 1] is Dir {
        dirs_of(entries, n - 1) + 1
    } else {
        dirs_of(entries, n - 1)
    }
}

/// The members of a directory, by name.
pub open spec fn members_of(entries: Seq<EntryKind>) -> Seq<(Seq<char>, usize, u64)> {
    let files = files_of(entries, entries.len() as int);
    by_label(files.map_values(|f: (Seq<char>, usize, u64)| f.0)).map_values(
        |p: (Seq<char>, usize)| files[p.1 as int],
    )
}

/// The files directly in a directory, by name, and what was passed over: every entry is
/// one or the other.
pub fn top_level_members(entries: &Vec<EntryKind>) -> (r: (Vec<Member>, Skipped))
    ensures
        r.0@.map_values(|m: Member| member_view(m)) == members_of(entries@),
        r.1.dirs == dirs_of(entries@, entries@.len() as int),
        r.1.dirs + r.1.other + files_of(entries@, entries@.len() as int).len() == entries@.len(),
{
    let mut files: Vec<Member> = Vec::new();
    let mut names: Vec<String> = Vec::new();
    let mut skipped = Skipped { dirs: 0, other: 0 };
    let mut i: usize = 0;
    while i < entries.len()
        invariant
            i <= entries@.len(),
            files@.map_values(|m: Member| member_view(m)) == files_of(entries@, i as int),
            texts(names@) == files_of(entries@, i as int).map_values(
                |f: (Seq<char>, usize, u64)| f.0,
            ),
            skipped.dirs == dirs_of(entries@, i as int),
            skipped.dirs + skipped.other + files@.len() == i,
        decreases entries@.len() - i,
    {
        let ghost before = files@;
        let ghost named = names@;
        match &entries[i] {
            EntryKind::Dir => {
                skipped = Skipped { dirs: skipped.dirs + 1, other: skipped.other };
            },
            EntryKind::File { name: Some(name), bytes } => {
                names.push(name.as_str().to_owned());
                files.push(Member { name: name.as_str().to_owned(), place: i, bytes: *bytes });
                assert(files@.map_values(|m: Member| member_view(m)) =~= before.map_values(
                    |m: Member| member_view(m),
                ).push((name@, i, *bytes)));
                assert(texts(names@) =~= texts(named).push(name@));
                assert(files_of(entries@, i + 1).map_values(|f: (Seq<char>, usize, u64)| f.0)
                    =~= files_of(entries@, i as int).map_values(
                    |f: (Seq<char>, usize, u64)| f.0,
                ).push(name@));
            },
            EntryKind::File { name: None, .. } => {
                skipped = Skipped { dirs: skipped.dirs, other: skipped.other + 1 };
            },
            EntryKind::Other => {
                skipped = Skipped { dirs: skipped.dirs, other: skipped.other + 1 };
            },
        }
        i += 1;
    }
    let ghost all = files_of(entries@, entries@.len() as int);
    let order = sort_by_label(&names);
    let ghost places = by_label(all.map_values(|f: (Seq<char>, usize, u64)| f.0));
    proof {
        assert(files@.map_values(|m: Member| member_view(m)).len() == files@.len());
        assert(texts(names@).len() == names@.len());
    }
    let mut out: Vec<Member> = Vec::new();
    let mut j: usize = 0;
    while j < order.len()
        invariant
            j <= order@.len(),
            order@ == places.map_values(|p: (Seq<char>, usize)| p.1),
            forall|k: int| 0 <= k < order@.len() ==> (#[trigger] order@[k]) < files@.len(),
            files@.map_values(|m: Member| member_view(m)) == all,
            out@.len() == j,
            forall|k: int|
                0 <= k < j ==> member_view(#[trigger] out@[k]) == all[places[k].1 as int],
        decreases order@.len() - j,
    {
        let at: usize = order[j];
        let m = &files[at];
        assert(files@.map_values(|m: Member| member_view(m))[at as int] == all[at as int]);
        out.push(Member { name: m.name.as_str().to_owned(), place: m.place, bytes: m.bytes });
        j += 1;
    }
    assert(out@.map_values(|m: Member| member_view(m)) =~= members_of(entries@));
    (out, skipped)
}

impl Skipped {
    /// What is said of what was passed over: one note for each kind that occurred.
    pub open spec fn spec_notes(self) -> Seq<Seq<char>> {
        let dirs = seq![
            "Note: skipped "@ + decimal_text(self.dirs as nat) + " subdirector"@
                + ending(self.dirs) + "; --each does not recurse"@,
        ];
        let other = seq![
            "Note: skipped "@ + decimal_text(self.other as nat) + " entr"@ + ending(self.other)
                + ": not a regular file, or the name is not UTF-8"@,
        ];
        (if self.dirs > 0 {
            dirs
        } else {
            Seq::empty()
        }) + (if self.other > 0 {
            other
        } else {
            Seq::empty()
        })
    }

    /// What is said of what was passed over.
    pub fn notes(&self) -> (r: Vec<String>)
        ensures
            texts(r@) == self.spec_notes(),
    {
        let mut notes: Vec<String> = Vec::new();
        if self.dirs > 0 {
            let n = decimal(self.dirs as u64);
            let suffix = if self.dirs == 1 { "y" } else { "ies" };
            notes.push(
                cat5(
                    "Note: skipped ",
                    n.as_str(),
                    " subdirector",
                    suffix,
                    "; --each does not recurse",
                ),
            );
        }
        if self.other > 0 {
            let n = decimal(self.other as u64);
            let suffix = if self.other == 1 { "y" } else { "ies" };
            notes.push(
                cat5(
                    "Note: skipped ",
                    n.as_str(),
                    " entr",
                    suffix,
                    ": not a regular file, or the name is not UTF-8",
                ),
            );
        }
        assert(texts(notes@) =~= self.spec_notes());
        notes
    }
}

/// The ending of a word in `y`, for a count.
pub open spec fn ending(n: usize) -> Seq<char> {
    if n == 1 {
        "y"@
    } else {
        "ies"@
    }
}

/// The ending of a plural, for a count.
pub open spec fn plural_ending(n: nat) -> Seq<char> {
    if n == 1 {
        ""@
    } else {
        "s"@
    }
}

/// The ending of a plural, for a count.
pub fn plural(n: usize) -> (r: &'static str)
    ensures
        r@ == plural_ending(n as nat),
{
    if n == 1 {
        ""
    } else {
        "s"
    }
}

/// The two ways to register a directory, as they are offered: a collection has the whole
/// tree, single artifacts are the files directly in it.
pub fn dir_mode_labels(tree_files: usize, tree_bytes: u64, top_level: usize) -> (r: [String; 2])
    ensures
        r@[0]@ == "one collection artifact ("@ + decimal_text(tree_files as nat) + " file"@
            + plural_ending(tree_files as nat) + ", "@ + bytes_shown(tree_bytes as nat) + ")"@,
        r@[1]@ == decimal_text(top_level as nat) + " separate artifact"@ + plural_ending(
            top_level as nat,
        ) + " (top-level files only)"@,
{
    let files = decimal(tree_files as u64);
    let bytes = human_bytes(tree_bytes);
    let mut whole = cat4("one collection artifact (", files.as_str(), " file", plural(tree_files));
    whole.append(", ");
    whole.append(bytes.as_str());
    whole.append(")");
    let count = decimal(top_level as u64);
    let single = cat4(
        count.as_str(),
        " separate artifact",
        plural(top_level),
        " (top-level files only)",
    );
    [whole, single]
}

/// How to go on with a directory, once its members are known.
#[derive(Clone, Copy, PartialEq, Eq, Debug, Structural)]
pub enum DirStep {
    /// It is settled.
    Take(DirMode),
    /// The user has to choose.
    Ask,
}

/// How to go on with a directory that has `members` files directly in it. Where there
/// are none, there is nothing to choose between.
pub fn directory_step(plan: Plan, members: usize) -> (r: DirStep)
    ensures
        r == (if plan == Plan::Each {
            DirStep::Take(DirMode::Each)
        } else if members == 0 || plan != Plan::Ask {
            DirStep::Take(DirMode::Collection)
        } else {
            DirStep::Ask
        }),
{
    match plan {
        Plan::Each => DirStep::Take(DirMode::Each),
        Plan::Ask => {
            if members == 0 {
                DirStep::Take(DirMode::Collection)
            } else {
                DirStep::Ask
            }
        },
        _ => DirStep::Take(DirMode::Collection),
    }
}

/// What the place of an answer stands for.
pub fn chosen_mode(index: usize) -> (r: DirMode)
    ensures
        r == (if index == 0 {
            DirMode::Collection
        } else {
            DirMode::Each
        }),
{
    if index == 0 {
        DirMode::Collection
    } else {
        DirMode::Each
    }
}

/// An artifact that is to be registered.
pub struct Pending {
    pub cid: Cid,
    pub name: String,
    /// The size to record.
    pub size: Option<u64>,
    /// The path of the content, where there is one.
    pub path: Option<String>,
}

/// The artifact of a single registration. `measured` is the size of the content at
/// `path`, which is recorded unless the user does not want it; without a path there is
/// nothing to measure.
pub fn single_pending(
    cid: Cid,
    name: String,
    path: Option<String>,
    measured: Option<u64>,
    no_size: bool,
) -> (r: Pending)
    ensures
        r.cid == cid,
        r.name == name,
        r.path == path,
        r.size == (if no_size || path is None {
            None
        } else {
            measured
        }),
{
    let size = if no_size || path.is_none() { None } else { measured };
    Pending { cid, name, size, path }
}

/// The artifacts for the files directly in a directory: each takes its name from its
/// file. `cids` and `paths` are the identifiers and the paths of the members.
pub fn each_pending(
    dir: &str,
    members: &Vec<Member>,
    cids: &Vec<Cid>,
    paths: &Vec<String>,
    no_size: bool,
) -> (r: Result<Vec<Pending>, String>)
    requires
        cids@.len() == members@.len(),
        paths@.len() == members@.len(),
    ensures
        match r {
            Ok(v) => {
                &&& members@.len() > 0
                &&& v@.len() == members@.len()
                &&& forall|i: int|
                    0 <= i < v@.len() ==> {
                        &&& (#[trigger] v@[i]).cid == cids@[i]
                        &&& v@[i].name@ == members@[i].name@
                        &&& v@[i].path is Some && v@[i].path->0@ == paths@[i]@
                        &&& v@[i].size == (if no_size {
                            None
                        } else {
                            Some(members@[i].bytes)
                        })
                    }
            },
            Err(e) => members@.len() == 0 && e@ == "no files directly inside "@ + dir@
                + "; register the whole tree with --collection"@,
        },
{
    if members.len() == 0 {
        return Err(
            cat3(
                "no files directly inside ",
                dir,
                "; register the whole tree with --collection",
            ),
        );
    }
    let mut out: Vec<Pending> = Vec::new();
    let mut i: usize = 0;
    while i < members.len()
        invariant
            i <= members@.len(),
            cids@.len() == members@.len(),
            paths@.len() == members@.len(),
            out@.len() == i,
            forall|k: int|
                0 <= k < i ==> {
                    &&& (#[trigger] out@[k]).cid == cids@[k]
                    &&& out@[k].name@ == members@[k].name@
                    &&& out@[k].path is Some && out@[k].path->0@ == paths@[k]@
                    &&& out@[k].size == (if no_size {
                        None
                    } else {
                        Some(members@[k].bytes)
                    })
                },
        decreases members@.len() - i,
    {
        let m = &members[i];
        out.push(
            Pending {
                cid: cids[i],
                name: m.name.as_str().to_owned(),
                size: if no_size { None } else { Some(m.bytes) },
                path: Some(paths[i].as_str().to_owned()),
            },
        );
        i += 1;
    }
    Ok(out)
}

/// The length of the longest name.
pub open spec fn name_width(s: Seq<Pending>) -> nat
    decreases s.len(),
{
    if s.len() == 0 {
        0
    } else {
        let before = name_width(s.drop_last());
        if s.last().name@.len() > before {
            s.last().name@.len()
        } else {
            before
        }
    }
}

/// The row of an artifact: its name, padded, its identifier, and its size if it is
/// recorded.
pub open spec fn row_text(p: Pending, width: nat) -> Seq<char> {
    let pad = if p.name@.len() < width {
        repeated(' ', (width - p.name@.len()) as nat)
    } else {
        Seq::empty()
    };
    "  "@ + (p.name@ + pad) + "  "@ + p.cid.text() + (match p.size {
        Some(bytes) => "  "@ + bytes_shown(bytes as nat),
        None => Seq::empty(),
    })
}

/// One row for each artifact: its name, its identifier, and its size if it is recorded.
/// The names are padded so that the identifiers stand in a column.
pub fn each_rows(artifacts: &Vec<Pending>) -> (r: Vec<String>)
    ensures
        texts(r@) == artifacts@.map_values(|p: Pending| row_text(p, name_width(artifacts@))),
{
    let mut width: usize = 0;
    let mut i: usize = 0;
    while i < artifacts.len()
        invariant
            i <= artifacts@.len(),
            width == name_width(artifacts@.take(i as int)),
        decreases artifacts@.len() - i,
    {
        let n: usize = chars_of(artifacts[i].name.as_str()).len();
        if n > width {
            width = n;
        }
        assert(artifacts@.take(i + 1).drop_last() =~= artifacts@.take(i as int));
        i += 1;
    }
    assert(artifacts@.take(i as int) =~= artifacts@);
    let ghost all = artifacts@.map_values(|p: Pending| row_text(p, name_width(artifacts@)));
    let mut rows: Vec<String> = Vec::new();
    let mut j: usize = 0;
    while j < artifacts.len()
        invariant
            j <= artifacts@.len(),
            width == name_width(artifacts@),
            all == artifacts@.map_values(|p: Pending| row_text(p, name_width(artifacts@))),
            texts(rows@) == all.take(j as int),
        decreases artifacts@.len() - j,
    {
        let a = &artifacts[j];
        let n: usize = chars_of(a.name.as_str()).len();
        let mut name = a.name.as_str().to_owned();
        if n < width {
            push_repeated(&mut name, ' ', width - n);
        } else {
            assert(name@ =~= a.name@ + Seq::<char>::empty());
        }
        let cid = a.cid.to_text();
        let mut row = cat4("  ", name.as_str(), "  ", cid.as_str());
        match a.size {
            Some(bytes) => {
                let shown = human_bytes(bytes);
                row.append("  ");
                row.append(shown.as_str());
            },
            None => {},
        }
        assert(row@ =~= row_text(*a, width as nat));
        let ghost before = rows@;
        rows.push(row);
        assert(texts(rows@) =~= texts(before).push(all[j as int]));
        assert(all.take(j + 1) =~= all.take(j as int).push(all[j as int]));
        j += 1;
    }
    assert(all.take(j as int) =~= all);
    rows
}

/// The sum of the recorded sizes: none where one is missing.
pub open spec fn total_size(s: Seq<Pending>) -> Option<nat>
    decreases s.len(),
{
    if s.len() == 0 {
        Some(0)
    } else {
        match (total_size(s.drop_last()), s.last().size) {
            (Some(sum), Some(bytes)) => Some(sum + bytes as nat),
            _ => None,
        }
    }
}

proof fn lemma_total_grows(s: Seq<Pending>, n: int)
    requires
        0 <= n <= s.len(),
    ensures
        total_size(s) is Some ==> total_size(s.take(n)) is Some && total_size(s.take(n))->0
            <= total_size(s)->0,
    decreases s.len() - n,
{
    if n == s.len() {
        assert(s.take(n) =~= s);
    } else {
        lemma_total_grows(s, n + 1);
        assert(s.take(n + 1).drop_last() =~= s.take(n));
    }
}

/// The sum of the recorded sizes: none where one is missing.
fn size_of_all(artifacts: &Vec<Pending>) -> (r: Option<u64>)
    requires
        total_size(artifacts@) is Some ==> total_size(artifacts@)->0 <= u64::MAX,
    ensures
        match r {
            Some(n) => total_size(artifacts@) == Some(n as nat),
            None => total_size(artifacts@) is None,
        },
{
    let mut known = true;
    let mut i: usize = 0;
    while i < artifacts.len()
        invariant
            i <= artifacts@.len(),
            known == (forall|k: int| 0 <= k < i ==> (#[trigger] artifacts@[k]).size is Some),
            known == (total_size(artifacts@.take(i as int)) is Some),
        decreases artifacts@.len() - i,
    {
        assert(artifacts@.take(i + 1).drop_last() =~= artifacts@.take(i as int));
        if artifacts[i].size.is_none() {
            known = false;
            assert(artifacts@[i as int].size is None);
        }
        i += 1;
    }
    assert(artifacts@.take(i as int) =~= artifacts@);
    if !known {
        return None;
    }
    let mut sum: u64 = 0;
    let mut j: usize = 0;
    while j < artifacts.len()
        invariant
            j <= artifacts@.len(),
            total_size(artifacts@) is Some,
            total_size(artifacts@)->0 <= u64::MAX,
            forall|k: int| 0 <= k < artifacts@.len() ==> (#[trigger] artifacts@[k]).size is Some,
            total_size(artifacts@.take(j as int)) == Some(sum as nat),
        decreases artifacts@.len() - j,
    {
        proof {
            lemma_total_grows(artifacts@, j + 1);
            assert(artifacts@.take(j + 1).drop_last() =~= artifacts@.take(j as int));
        }
        match artifacts[j].size {
            Some(bytes) => {
                sum += bytes;
            },
            None => {
                assert(false);
            },
        }
        j += 1;
    }
    assert(artifacts@.take(j as int) =~= artifacts@);
    Some(sum)
}

/// The end of a summary: the release and the commit.
pub open spec fn landed(id: ReleaseId, oid: Oid) -> Seq<char> {
    " in release "@ + id.id.short() + " (commit "@ + oid.short() + ")"@
}

/// What is said of what was registered.
pub open spec fn summary_lines(s: Seq<Pending>, id: ReleaseId, oid: Oid) -> Seq<Seq<char>> {
    if s.len() == 1 {
        seq![
            "Registered artifact '"@ + s[0].name@ + "'"@ + (match s[0].size {
                Some(bytes) => " ("@ + bytes_shown(bytes as nat) + ")"@,
                None => Seq::empty(),
            }) + landed(id, oid),
        ]
    } else {
        s.map_values(|p: Pending| row_text(p, name_width(s))).push(
            "Registered "@ + decimal_text(s.len()) + " artifacts"@ + (match total_size(s) {
                Some(bytes) => " ("@ + bytes_shown(bytes) + ")"@,
                None => Seq::empty(),
            }) + landed(id, oid),
        )
    }
}

/// What is said of what was registered. The sizes together must be a number of 64 bits.
pub fn summary(artifacts: &Vec<Pending>, id: &ReleaseId, oid: &Oid) -> (r: Vec<String>)
    requires
        total_size(artifacts@) is Some ==> total_size(artifacts@)->0 <= u64::MAX,
    ensures
        texts(r@) == summary_lines(artifacts@, *id, *oid),
{
    let short_id = id.oid().to_short();
    let short_oid = oid.to_short();
    let mut tail = cat4(" in release ", short_id.as_str(), " (commit ", short_oid.as_str());
    tail.append(")");
    assert(tail@ =~= landed(*id, *oid));
    if artifacts.len() == 1 {
        let only = &artifacts[0];
        let mut line = cat3("Registered artifact '", only.name.as_str(), "'");
        match only.size {
            Some(bytes) => {
                let shown = human_bytes(bytes);
                line.append(" (");
                line.append(shown.as_str());
                line.append(")");
            },
            None => {},
        }
        line.append(tail.as_str());
        let mut out: Vec<String> = Vec::new();
        assert(line@ =~= summary_lines(artifacts@, *id, *oid)[0]);
        out.push(line);
        assert(texts(out@) =~= summary_lines(artifacts@, *id, *oid));
        return out;
    }
    let mut out = each_rows(artifacts);
    let count = decimal(artifacts.len() as u64);
    let mut line = cat3("Registered ", count.as_str(), " artifacts");
    match size_of_all(artifacts) {
        Some(bytes) => {
            let shown = human_bytes(bytes);
            line.append(" (");
            line.append(shown.as_str());
            line.append(")");
        },
        None => {},
    }
    line.append(tail.as_str());
    let ghost before = out@;
    assert(line@ =~= summary_lines(artifacts@, *id, *oid).last());
    out.push(line);
    assert(texts(out@) =~= texts(before).push(line@));
    out
}

/// What is suggested after a registration.
pub open spec fn hint_lines(s: Seq<Pending>, id: ReleaseId) -> Seq<Seq<char>> {
    if s.len() == 1 {
        seq![
            "Hint: use `rad-artifact location add --release "@ + id.id.short() + " --cid "@
                + s[0].cid.text() + " <url>` to add a download location"@,
        ] + (match s[0].path {
            Some(p) => seq![
                "      or `rad-artifact seed "@ + p@
                    + "` to seed it yourself via the local node"@,
            ],
            None => Seq::empty(),
        })
    } else {
        seq![
            "Hint: re-run with --seed to serve these artifacts from your local node, or add a location per CID with `rad-artifact location add`"@,
        ]
    }
}

/// What is suggested after a registration: nothing where the artifacts are about to be
/// seeded, or nobody reads it.
pub fn hints(artifacts: &Vec<Pending>, id: &ReleaseId, seed: bool, terminal: bool) -> (r: Vec<
    String,
>)
    ensures
        texts(r@) == (if seed || !terminal {
            Seq::empty()
        } else {
            hint_lines(artifacts@, *id)
        }),
{
    let mut out: Vec<String> = Vec::new();
    if seed || !terminal {
        assert(texts(out@) =~= Seq::<Seq<char>>::empty());
        return out;
    }
    if artifacts.len() == 1 {
        let only = &artifacts[0];
        let short_id = id.oid().to_short();
        let cid = only.cid.to_text();
        out.push(
            cat5(
                "Hint: use `rad-artifact location add --release ",
                short_id.as_str(),
                " --cid ",
                cid.as_str(),
                " <url>` to add a download location",
            ),
        );
        match &only.path {
            Some(p) => {
                out.push(
                    cat3(
                        "      or `rad-artifact seed ",
                        p.as_str(),
                        "` to seed it yourself via the local node",
                    ),
                );
            },
            None => {},
        }
    } else {
        out.push(
            "Hint: re-run with --seed to serve these artifacts from your local node, or add a location per CID with `rad-artifact location add`".to_owned(),
        );
    }
    assert(texts(out@) =~= hint_lines(artifacts@, *id));
    out
}

/// The release that artifacts go into.
pub enum RegisterTarget<'a> {
    /// A new one.
    Create,
    /// One that exists.
    Existing(ReleaseId),
    /// The user has to choose among those that exist and a new one.
    Choose(Vec<(ReleaseId, &'a Release)>),
    /// The user would have to choose, and cannot be asked; this is what is said.
    Undecided(String),
}

/// Whether a single release has another tag than the one that the user named. Where they
/// named none, there is nothing to contradict.
pub open spec fn contradicts(r: ReleaseView, tag: Option<Oid>) -> bool {
    tag is Some && r.tag != tag
}

/// What is said where the user would have to choose and cannot be asked.
pub open spec fn undecided_text(oid: Oid, ids: Seq<ReleaseId>) -> Seq<char> {
    "commit "@ + oid.text() + " has "@ + decimal_text(ids.len())
        + " existing release(s) that need disambiguation; pass --release <id> to pick one (candidates: "@
        + joined(id_texts(ids), ", "@) + ")"@
}

/// The release of the commit `oid` that artifacts go into, among those that are shown.
/// `tag` is the tag that the user named.
pub fn resolve_register_target<'a>(
    oid: Oid,
    tag: Option<Oid>,
    releases: &'a Releases,
    delegates: &SortedSet<Did>,
    local: &Did,
    all_authors: bool,
    no_input: bool,
) -> (r: Result<RegisterTarget<'a>, Find>)
    ensures
        ({
            let found = of_commit(releases.items@, oid);
            let candidates = eligible(releases.items@, oid, delegates@, *local, all_authors);
            let unclear = candidates.len() > 1 || (candidates.len() == 1 && contradicts(
                candidates[0].1,
                tag,
            ));
            match r {
                Err(Find::Lookup { oid: o, err }) => o == oid && first_error(found, err@),
                Err(_) => false,
                Ok(RegisterTarget::Create) => all_read(found) && candidates.len() == 0,
                Ok(RegisterTarget::Existing(id)) => all_read(found) && candidates.len() == 1
                    && !unclear && id == candidates[0].0,
                Ok(RegisterTarget::Choose(v)) => all_read(found) && unclear && !no_input && listed(
                    v@,
                ) == candidates,
                Ok(RegisterTarget::Undecided(text)) => all_read(found) && unclear && no_input
                    && text@ == undecided_text(
                    oid,
                    candidates.map_values(|e: (ReleaseId, ReleaseView)| e.0),
                ),
            }
        }),
{
    let all = match collect_candidates(releases, oid) {
        Ok(all) => all,
        Err(e) => {
            return Err(e);
        },
    };
    let candidates = keep_visible(&all, delegates, local, all_authors);
    let ghost views = listed(candidates@);
    assert(views.len() == candidates@.len());
    if candidates.len() == 0 {
        return Ok(RegisterTarget::Create);
    }
    assert(views[0] == (candidates@[0].0, candidates@[0].1@));
    if candidates.len() == 1 {
        let contradicted = match tag {
            Some(t) => match candidates[0].1.tag() {
                Some(own) => own != t,
                None => true,
            },
            None => false,
        };
        if !contradicted {
            return Ok(RegisterTarget::Existing(candidates[0].0));
        }
    }
    if no_input {
        let ids = ids_of(&candidates);
        let n = decimal(ids.len() as u64);
        let shown = oid.to_text();
        let list = display_ids(&ids);
        let mut text = cat4("commit ", shown.as_str(), " has ", n.as_str());
        text.append(
            " existing release(s) that need disambiguation; pass --release <id> to pick one (candidates: ",
        );
        text.append(list.as_str());
        text.append(")");
        Ok(RegisterTarget::Undecided(text))
    } else {
        Ok(RegisterTarget::Choose(candidates))
    }
}

/// Whether actions register an artifact: with its size where that is recorded.
pub open spec fn records(actions: Seq<Action>, p: Pending) -> bool {
    &&& actions.len() == (if p.size is Some {
        2nat
    } else {
        1nat
    })
    &&& actions[0] matches Action::RegisterArtifact { cid, name } && cid == p.cid && name@
        == p.name@
    &&& p.size matches Some(bytes) ==> (actions[1] matches Action::SetMetadata {
        cid,
        key,
        value,
    } && cid == p.cid && key@ == METADATA_KEY_SIZE_BYTES@ && value@ == decimal_text(bytes as nat))
}

/// What operations of `user`, one after the other, make of a release.
pub open spec fn operations(r: ReleaseView, user: Did, ops: Seq<Vec<Action>>) -> ReleaseView
    decreases ops.len(),
{
    if ops.len() == 0 {
        r
    } else {
        steps(operations(r, user, ops.drop_last()), user, ops.last()@)
    }
}

/// Registers artifacts in a release, each with an operation of its own, and gives the
/// operations.
pub fn register_all(release: &mut ReleaseMut, artifacts: &Vec<Pending>, author: Did) -> (r: Vec<
    Vec<Action>,
>)
    ensures
        r@.len() == artifacts@.len(),
        forall|i: int| 0 <= i < r@.len() ==> records((#[trigger] r@[i])@, artifacts@[i]),
        final(release).id == old(release).id,
        final(release).release@ == operations(old(release).release@, author, r@),
        forall|i: int|
            0 <= i < artifacts@.len() ==> final(release).release@.has((#[trigger] artifacts@[i]).cid),
{
    let ghost start = release.release@;
    let ghost id = release.id;
    let mut out: Vec<Vec<Action>> = Vec::new();
    let mut i: usize = 0;
    while i < artifacts.len()
        invariant
            i <= artifacts@.len(),
            out@.len() == i,
            release.id == id,
            release.release@ == operations(start, author, out@),
            i > 0 ==> start.distinct(),
            forall|k: int| 0 <= k < i ==> records((#[trigger] out@[k])@, artifacts@[k]),
        decreases artifacts@.len() - i,
    {
        let p = &artifacts[i];
        let ghost before = out@;
        let name = p.name.as_str().to_owned();
        let actions = match p.size {
            Some(bytes) => release.register_artifact_with_size(p.cid, name, bytes, author),
            None => release.register_artifact(p.cid, name, author),
        };
        assert(records(actions@, *p));
        out.push(actions);
        assert(out@.drop_last() =~= before);
        i += 1;
    }
    proof {
        if artifacts@.len() > 0 {
            law_everything_registered_is_there(start, author, out@, artifacts@);
        }
    }
    out
}

/// What the first entries of a directory hold as files.
proof fn lemma_files(entries: Seq<EntryKind>, n: int)
    requires
        0 <= n <= entries.len() <= usize::MAX,
    ensures
        files_of(entries, n).len() <= n,
        forall|f: (Seq<char>, usize, u64)| #[trigger]
            files_of(entries, n).contains(f) <==> f.1 < n && (entries[f.1 as int] matches EntryKind::File {
                name: Some(name),
                bytes,
            } && name@ == f.0 && bytes == f.2),
    decreases n,
{
    if n > 0 {
        lemma_files(entries, n - 1);
        let before = files_of(entries, n - 1);
        assert forall|f: (Seq<char>, usize, u64)| #[trigger]
            files_of(entries, n).contains(f) <==> f.1 < n && (entries[f.1 as int] matches EntryKind::File {
                name: Some(name),
                bytes,
            } && name@ == f.0 && bytes == f.2) by {
            assert(before.contains(f) <==> f.1 < n - 1 && (entries[f.1 as int] matches EntryKind::File {
                name: Some(name),
                bytes,
            } && name@ == f.0 && bytes == f.2));
            if let EntryKind::File { name: Some(name), bytes } = entries[n - 1] {
                lemma_push_has(before, (name@, (n - 1) as usize, bytes), f);
            }
        }
    }
}

/// Every file directly in a directory is a member of it, under its own name and with its
/// own length, if that name is text; nothing else is one. The members stand in the order of
/// their names.
pub proof fn law_every_file_is_a_member(
    entries: Seq<EntryKind>,
    name: Seq<char>,
    place: usize,
    bytes: u64,
)
    requires
        entries.len() <= usize::MAX,
    ensures
        members_of(entries).contains((name, place, bytes)) <==> place < entries.len() && (
        entries[place as int] matches EntryKind::File { name: Some(own), bytes: len } && own@
            == name && len == bytes),
        forall|i: int, j: int|
            0 <= i < j < members_of(entries).len() ==> text_lt(
                (#[trigger] members_of(entries)[i]).0,
                (#[trigger] members_of(entries)[j]).0,
            ) || members_of(entries)[i].0 == members_of(entries)[j].0,
{
    let n = entries.len() as int;
    let files = files_of(entries, n);
    let labels = files.map_values(|f: (Seq<char>, usize, u64)| f.0);
    let order = by_label(labels);
    let f = |p: (Seq<char>, usize)| files[p.1 as int];
    let out = members_of(entries);
    lemma_files(entries, n);
    law_by_label_is_a_sorting(labels);
    lemma_map_contains(order, f);
    let m = (name, place, bytes);
    if out.contains(m) {
        let k = choose|k: (Seq<char>, usize)| #[trigger] order.contains(k) && f(k) == m;
        assert(files.contains(files[k.1 as int]));
    }
    if files.contains(m) {
        let i = choose|i: int| 0 <= i < files.len() && files[i] == m;
        let k = (labels[i], i as usize);
        assert(order.contains(k));
        assert(f(k) == m);
    }
    assert forall|i: int, j: int| 0 <= i < j < out.len() implies text_lt(
        (#[trigger] out[i]).0,
        (#[trigger] out[j]).0,
    ) || out[i].0 == out[j].0 by {
        assert(order.contains(order[i]) && order.contains(order[j]));
        assert(out[i].0 == order[i].0 && out[j].0 == order[j].0);
    }
}

/// One entry more counts as a directory where it is one.
pub proof fn law_directories_are_counted(entries: Seq<EntryKind>, e: EntryKind)
    ensures
        dirs_of(Seq::empty(), 0) == 0,
        dirs_of(entries.push(e), entries.len() + 1int) == dirs_of(entries, entries.len() as int) + (
        if e is Dir {
            1nat
        } else {
            0nat
        }),
{
    lemma_dirs_prefix(entries, e, entries.len() as int);
}

proof fn lemma_dirs_prefix(entries: Seq<EntryKind>, e: EntryKind, n: int)
    requires
        0 <= n <= entries.len(),
    ensures
        dirs_of(entries.push(e), n) == dirs_of(entries, n),
    decreases n,
{
    if n > 0 {
        lemma_dirs_prefix(entries, e, n - 1);
    }
}

/// The size of all is the sum of the sizes, and it is known exactly where each is known.
pub proof fn law_sizes_add_up(s: Seq<Pending>, p: Pending)
    ensures
        total_size(Seq::empty()) == Some(0nat),
        match (total_size(s), p.size) {
            (Some(sum), Some(bytes)) => total_size(s.push(p)) == Some(sum + bytes as nat),
            _ => total_size(s.push(p)) is None,
        },
        total_size(s) is Some <==> forall|i: int| 0 <= i < s.len() ==> (#[trigger] s[i]).size is Some,
    decreases s.len(),
{
    assert(s.push(p).drop_last() =~= s);
    if s.len() > 0 {
        let rest = s.drop_last();
        law_sizes_add_up(rest, p);
        assert forall|i: int| 0 <= i < rest.len() implies #[trigger] rest[i] == s[i] by {}
        if total_size(s) is Some {
            assert forall|i: int| 0 <= i < s.len() implies (#[trigger] s[i]).size is Some by {
                if i < rest.len() {
                    assert(rest[i].size is Some);
                }
            }
        }
        if forall|i: int| 0 <= i < s.len() ==> (#[trigger] s[i]).size is Some {
            assert forall|i: int| 0 <= i < rest.len() implies (#[trigger] rest[i]).size is Some by {
                assert(s[i].size is Some);
            }
            assert(s[s.len() - 1].size is Some);
        }
    }
}

/// The column of names is as wide as the longest name, so that every name fits.
pub proof fn law_every_name_fits_its_column(s: Seq<Pending>)
    ensures
        forall|i: int| 0 <= i < s.len() ==> (#[trigger] s[i]).name@.len() <= name_width(s),
        s.len() > 0 ==> exists|i: int|
            0 <= i < s.len() && (#[trigger] s[i]).name@.len() == name_width(s),
    decreases s.len(),
{
    if s.len() > 0 {
        let rest = s.drop_last();
        law_every_name_fits_its_column(rest);
        assert forall|i: int| 0 <= i < s.len() implies (#[trigger] s[i]).name@.len()
            <= name_width(s) by {
            if i < rest.len() {
                assert(rest[i].name@.len() <= name_width(rest));
            }
        }
        if s.last().name@.len() > name_width(rest) || rest.len() == 0 {
            assert(s[s.len() - 1].name@.len() == name_width(s));
        } else {
            let i = choose|i: int|
                0 <= i < rest.len() && (#[trigger] rest[i]).name@.len() == name_width(rest);
            assert(s[i].name@.len() == name_width(s));
        }
    }
}

/// A release contradicts what the user named where they named a tag and the release does
/// not have that one.
pub proof fn law_only_another_tag_contradicts(r: ReleaseView, tag: Option<Oid>)
    ensures
        tag is None ==> !contradicts(r, tag),
        forall|t: Oid| #[trigger] contradicts(r, Some(t)) <==> r.tag is None || r.tag->0 != t,
{
}

/// What one operation that records an artifact makes of a release.
proof fn lemma_recorded(r: ReleaseView, user: Did, actions: Seq<Action>, p: Pending)
    requires
        r.distinct(),
        records(actions, p),
    ensures
        ({
            let s = steps(r, user, actions);
            &&& s.distinct()
            &&& s.has(p.cid)
            &&& forall|cid: Cid| #[trigger] r.has(cid) ==> s.has(cid)
            &&& forall|cid: Cid|
                cid != p.cid ==> (#[trigger] s.has(cid) <==> r.has(cid)) && (r.has(cid) ==> s.get(
                    cid,
                ) == r.get(cid))
            &&& s.get(p.cid).author == (if r.has(p.cid) {
                r.get(p.cid).author
            } else {
                user
            })
            &&& !r.has(p.cid) || r.get(p.cid).author == user ==> s.get(p.cid).name == p.name@
            &&& p.size matches Some(bytes) ==> s.get(p.cid).metadata.contains_key("sizeBytes"@)
                && s.get(p.cid).metadata["sizeBytes"@] == decimal_text(bytes as nat)
        }),
{
    reveal_with_fuel(steps, 3);
    if p.size is Some {
        assert(actions.drop_last().drop_last() =~= Seq::<Action>::empty());
        assert(actions =~= seq![actions[0], actions[1]]);
        lemma_step_effect(r, user, actions[0]);
        let mid = step(r, user, actions[0]);
        lemma_step_effect(mid, user, actions[1]);
        assert(steps(r, user, actions) == step(mid, user, actions[1]));
    } else {
        assert(actions.drop_last() =~= Seq::<Action>::empty());
        lemma_step_effect(r, user, actions[0]);
        assert(steps(r, user, actions) == step(r, user, actions[0]));
    }
}

/// Registering artifacts registers all of them. Each is in the release afterwards, by the
/// one who registered it if it was not there before; where it is theirs it has the name that
/// it was last registered under, and the size that was last recorded with that. Every
/// other artifact is as it was.
pub proof fn law_everything_registered_is_there(
    r: ReleaseView,
    user: Did,
    ops: Seq<Vec<Action>>,
    ps: Seq<Pending>,
)
    requires
        r.distinct(),
        ops.len() == ps.len(),
        forall|i: int| 0 <= i < ops.len() ==> records((#[trigger] ops[i])@, ps[i]),
    ensures
        ({
            let s = operations(r, user, ops);
            &&& s.distinct()
            &&& forall|i: int| 0 <= i < ps.len() ==> s.has((#[trigger] ps[i]).cid)
            &&& forall|i: int|
                0 <= i < ps.len() && !r.has((#[trigger] ps[i]).cid) ==> s.get(ps[i].cid).author
                    == user
            &&& forall|i: int|
                0 <= i < ps.len() && (!r.has((#[trigger] ps[i]).cid) || r.get(ps[i].cid).author
                    == user) && (forall|j: int|
                    i < j < ps.len() ==> (#[trigger] ps[j]).cid != ps[i].cid) ==> s.get(
                    ps[i].cid,
                ).name == ps[i].name@ && (ps[i].size matches Some(bytes) ==> s.get(
                    ps[i].cid,
                ).metadata.contains_key("sizeBytes"@) && s.get(ps[i].cid).metadata["sizeBytes"@]
                    == decimal_text(bytes as nat))
            &&& forall|cid: Cid|
                (forall|i: int| 0 <= i < ps.len() ==> (#[trigger] ps[i]).cid != cid) ==> (
                #[trigger] s.has(cid) <==> r.has(cid)) && (r.has(cid) ==> s.get(cid) == r.get(
                    cid,
                ))
            &&& forall|cid: Cid| #[trigger]
                r.has(cid) ==> s.has(cid) && s.get(cid).author == r.get(cid).author
        }),
    decreases ops.len(),
{
    if ops.len() > 0 {
        let n = ops.len() - 1;
        let before = ops.drop_last();
        let first = ps.drop_last();
        let p = ps[n];
        assert forall|i: int| 0 <= i < before.len() implies records(
            (#[trigger] before[i])@,
            first[i],
        ) by {
            assert(records(ops[i]@, ps[i]));
        }
        law_everything_registered_is_there(r, user, before, first);
        let mid = operations(r, user, before);
        let s = operations(r, user, ops);
        assert(records(ops[n]@, p));
        lemma_recorded(mid, user, ops[n]@, p);
        assert(s == steps(mid, user, ops[n]@));
        assert forall|i: int| 0 <= i < n implies #[trigger] first[i] == ps[i] by {}
        assert forall|i: int| 0 <= i < ps.len() implies s.has((#[trigger] ps[i]).cid) by {
            if i < n {
                assert(mid.has(first[i].cid));
            }
        }
        // Whether the last artifact was there already, and whose it was then.
        assert(mid.has(p.cid) && !r.has(p.cid) ==> mid.get(p.cid).author == user) by {
            if mid.has(p.cid) && !r.has(p.cid) {
                if forall|i: int| 0 <= i < first.len() ==> (#[trigger] first[i]).cid != p.cid {
                    assert(mid.has(p.cid) <==> r.has(p.cid));
                } else {
                    let i = choose|i: int| 0 <= i < first.len() && (#[trigger] first[i]).cid == p.cid;
                    assert(mid.get(first[i].cid).author == user);
                }
            }
        }
        assert forall|i: int| 0 <= i < ps.len() && !r.has((#[trigger] ps[i]).cid) implies s.get(
            ps[i].cid,
        ).author == user by {
            if i < n {
                assert(mid.get(first[i].cid).author == user);
                assert(mid.has(first[i].cid));
            }
        }
        assert forall|i: int|
            0 <= i < ps.len() && (!r.has((#[trigger] ps[i]).cid) || r.get(ps[i].cid).author == user)
                && (forall|j: int|
                i < j < ps.len() ==> (#[trigger] ps[j]).cid != ps[i].cid) implies s.get(
            ps[i].cid,
        ).name == ps[i].name@ && (ps[i].size matches Some(bytes) ==> s.get(
            ps[i].cid,
        ).metadata.contains_key("sizeBytes"@) && s.get(ps[i].cid).metadata["sizeBytes"@]
            == decimal_text(bytes as nat)) by {
            if i < n {
                assert(ps[n].cid != ps[i].cid);
                assert(mid.has(first[i].cid));
                assert forall|j: int| i < j < first.len() implies (#[trigger] first[j]).cid
                    != first[i].cid by {
                    assert(ps[j].cid != ps[i].cid);
                }
                assert(mid.get(first[i].cid).name == first[i].name@);
            } else if mid.has(p.cid) && r.has(p.cid) {
                assert(mid.get(p.cid).author == r.get(p.cid).author);
            }
        }
        assert forall|cid: Cid|
            (forall|i: int| 0 <= i < ps.len() ==> (#[trigger] ps[i]).cid != cid) implies (
        #[trigger] s.has(cid) <==> r.has(cid)) && (r.has(cid) ==> s.get(cid) == r.get(cid)) by {
            assert(ps[n].cid != cid);
            assert forall|i: int| 0 <= i < first.len() implies (#[trigger] first[i]).cid != cid by {
                assert(ps[i].cid != cid);
            }
            assert(mid.has(cid) <==> r.has(cid));
            assert(s.has(cid) <==> mid.has(cid));
        }
        assert forall|cid: Cid| #[trigger] r.has(cid) implies s.has(cid) && s.get(cid).author
            == r.get(cid).author by {
            assert(mid.has(cid));
            if cid != p.cid {
                assert(s.has(cid) <==> mid.has(cid));
            }
        }
    }
}

/// `top_level_members` gives every file directly in a directory that has a name, by name, and
/// counts everything else: each entry is a member, a directory that was passed over, or
/// something else that was.
pub proof fn law_top_level_members_are_the_files(
    entries: Vec<EntryKind>,
    r: (Vec<Member>, Skipped),
    place: usize,
)
    requires
        call_ensures(top_level_members, (&entries,), r),
        place < entries@.len() <= usize::MAX,
    ensures
        (exists|k: int| 0 <= k < r.0@.len() && (#[trigger] r.0@[k]).place == place)
            <==> entries@[place as int] is File && entries@[place as int]->name is Some,
        forall|k: int|
            0 <= k < r.0@.len() ==> (#[trigger] r.0@[k]).place < entries@.len() && (
            entries@[r.0@[k].place as int] matches EntryKind::File { name: Some(name), bytes }
                && name@ == r.0@[k].name@ && bytes == r.0@[k].bytes),
        r.0@.len() + r.1.dirs + r.1.other == entries@.len(),
{
    let all = entries@;
    let files = files_of(all, all.len() as int);
    let t = r.0@.map_values(|m: Member| member_view(m));
    assert forall|k: int| 0 <= k < r.0@.len() implies (#[trigger] r.0@[k]).place < all.len() && (
    all[r.0@[k].place as int] matches EntryKind::File { name: Some(name), bytes } && name@
        == r.0@[k].name@ && bytes == r.0@[k].bytes) by {
        let m = r.0@[k];
        assert(t[k] == member_view(m));
        assert(t.contains(t[k]));
        law_every_file_is_a_member(all, m.name@, m.place, m.bytes);
    }
    if let EntryKind::File { name: Some(name), bytes } = all[place as int] {
        law_every_file_is_a_member(all, name@, place, bytes);
        let k = choose|k: int| 0 <= k < t.len() && t[k] == (name@, place, bytes);
        assert(r.0@[k].place == place);
    }
    lemma_member_count(all);
}

proof fn lemma_member_count(entries: Seq<EntryKind>)
    requires
        entries.len() <= usize::MAX,
    ensures
        members_of(entries).len() == files_of(entries, entries.len() as int).len(),
{
    let files = files_of(entries, entries.len() as int);
    let labels = files.map_values(|f: (Seq<char>, usize, u64)| f.0);
    lemma_files(entries, entries.len() as int);
    law_by_label_has_every_label(labels);
}

/// `resolve_register_target` creates a release only where the commit has none that counts,
/// and takes one that exists only where it is the only one that counts and does not have
/// another tag than the one that was named.
pub proof fn law_registering_creates_only_where_there_is_none(
    oid: Oid,
    tag: Option<Oid>,
    releases: Releases,
    delegates: SortedSet<Did>,
    local: Did,
    all_authors: bool,
    no_input: bool,
    r: Result<RegisterTarget<'_>, Find>,
    id: ReleaseId,
    release: Release,
)
    requires
        call_ensures(
            resolve_register_target,
            (oid, tag, &releases, &delegates, &local, all_authors, no_input),
            r,
        ),
        all_read(releases.items@),
        releases.items@.contains(Ok((id, release))),
        release@.oid == oid,
        all_authors || delegates@.contains(release@.creator) || release@.creator == local,
    ensures
        !(r matches Ok(RegisterTarget::Create)),
        r matches Ok(RegisterTarget::Existing(found)) ==> found == id && (tag is Some ==> release@.tag
            == tag),
        r matches Ok(RegisterTarget::Choose(v)) ==> !no_input && listed(v@).contains(
            (id, release@),
        ),
        r matches Ok(RegisterTarget::Undecided(_)) ==> no_input,
{
    let items = releases.items@;
    let all = eligible(items, oid, delegates@, local, all_authors);
    law_every_release_of_the_commit_is_eligible(
        items,
        oid,
        delegates@,
        local,
        all_authors,
        id,
        release@,
    );
    let k = choose|k: int| 0 <= k < all.len() && all[k] == (id, release@);
    assert(all[k].0 == id);
    law_only_another_tag_contradicts(all[0].1, tag);
}

/// `registration_plan` refuses the modes of a directory for a file, registers a file as one
/// blob, never asks where it cannot, and takes what the user asked for.
pub proof fn law_the_user_decides_what_a_directory_is(
    is_dir: bool,
    collection: bool,
    each: bool,
    named: bool,
    interactive: bool,
    r: Result<Plan, String>,
)
    requires
        call_ensures(registration_plan, (is_dir, collection, each, named, interactive), r),
    ensures
        r is Err <==> !is_dir && (collection || each),
        r matches Ok(plan) ==> (plan == Plan::Blob <==> !is_dir),
        r matches Ok(plan) ==> (is_dir && each ==> plan == Plan::Each),
        r matches Ok(plan) ==> (is_dir && collection && !each ==> plan == Plan::Collection),
        r matches Ok(plan) ==> (plan == Plan::Ask ==> interactive && !named && !each
            && !collection),
        r matches Ok(plan) ==> (is_dir && interactive && !named && !each && !collection ==> plan
            == Plan::Ask),
{
}

} // verus!
