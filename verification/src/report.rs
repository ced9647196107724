//! What reconciling did, and what it left.

use crate::ids::{Cid, ReleaseId, RepoId};
use crate::location::Url;
use crate::seqs::{lemma_add_has, lemma_last_splits, lemma_push_has};
use crate::sorted::{in_order, lemma_finite_in_order, SortedSet};
use crate::text::{cat, cat3, decimal, decimal_text, texts};
use vstd::prelude::*;

verus! {

/// A location that was left.
pub struct LocationRow {
    pub rid: RepoId,
    pub release_id: ReleaseId,
    pub cid: Cid,
    pub url: Url,
}

/// An artifact that is seeded and that no release has.
pub struct DanglingRow {
    pub rid: RepoId,
    pub cid: Cid,
}

/// What reconciling did in a repository, and what it left.
pub struct RepoReport {
    /// How many locations were added.
    pub added: u32,
    /// How many locations were removed.
    pub removed: u32,
    pub orphaned_self_skipped: Vec<LocationRow>,
    pub stale_endpoint_skipped: Vec<LocationRow>,
    pub dangling: Vec<DanglingRow>,
}

/// Lines under a heading.
pub type Block = (Seq<char>, Seq<Seq<char>>);

/// What blocks stand for.
pub open spec fn blocks_view(s: Seq<(String, Vec<String>)>) -> Seq<Block> {
    s.map_values(|b: (String, Vec<String>)| (b.0@, texts(b.1@)))
}

/// The headings of blocks.
pub open spec fn headings(s: Seq<Block>) -> Set<Seq<char>> {
    Set::new(|k: Seq<char>| exists|i: int| 0 <= i < s.len() && (#[trigger] s[i]).0 == k)
}

/// The lines under a heading, in the order of the blocks.
pub open spec fn lines_under(s: Seq<Block>, heading: Seq<char>) -> Seq<Seq<char>>
    decreases s.len(),
{
    if s.len() == 0 {
        Seq::empty()
    } else if s.last().0 == heading {
        lines_under(s.drop_last(), heading) + s.last().1
    } else {
        lines_under(s.drop_last(), heading)
    }
}

/// Headings, each with its lines under it.
pub open spec fn sections(s: Seq<Block>, keys: Seq<Seq<char>>) -> Seq<Seq<char>>
    decreases keys.len(),
{
    if keys.len() == 0 {
        Seq::empty()
    } else {
        sections(s, keys.drop_last()).push("  "@ + keys.last()) + lines_under(s, keys.last())
    }
}

/// Blocks by heading, the headings in order.
pub open spec fn grouped(s: Seq<Block>) -> Seq<Seq<char>> {
    sections(s, in_order::<String>(headings(s)))
}

fn append_all(out: &mut Vec<String>, more: &Vec<String>)
    ensures
        texts(final(out)@) == texts(old(out)@) + texts(more@),
{
    let ghost start = texts(out@);
    let ghost all = texts(more@);
    let mut i: usize = 0;
    assert(start + all.take(0) =~= start);
    while i < more.len()
        invariant
            i <= more@.len(),
            all == texts(more@),
            texts(out@) == start + all.take(i as int),
        decreases more@.len() - i,
    {
        let ghost before = texts(out@);
        out.push(more[i].as_str().to_owned());
        proof {
            assert(texts(out@) =~= before.push(all[i as int]));
            assert(start + all.take(i + 1) =~= (start + all.take(i as int)).push(all[i as int]));
        }
        i += 1;
    }
    assert(all.take(i as int) =~= all);
}

/// Blocks by heading, the headings in order.
pub fn group_lines(blocks: &Vec<(String, Vec<String>)>) -> (r: Vec<String>)
    ensures
        texts(r@) == grouped(blocks_view(blocks@)),
{
    let ghost all = blocks_view(blocks@);
    let mut set: SortedSet<String> = SortedSet::new();
    let mut i: usize = 0;
    assert(set@ =~= headings(all.take(0)));
    while i < blocks.len()
        invariant
            i <= blocks@.len(),
            all == blocks_view(blocks@),
            set@ == headings(all.take(i as int)),
        decreases blocks@.len() - i,
    {
        set.insert(blocks[i].0.as_str().to_owned());
        proof {
            let here = all.take(i as int);
            let next = all.take(i + 1);
            let key = all[i as int].0;
            assert(next[i as int].0 == key);
            assert forall|k: Seq<char>| headings(next).contains(k) <==> headings(here).insert(
                key,
            ).contains(k) by {
                if headings(next).contains(k) {
                    let j = choose|j: int| 0 <= j < next.len() && (#[trigger] next[j]).0 == k;
                    if j < i {
                        assert(here[j].0 == k);
                    }
                }
                if headings(here).contains(k) {
                    let j = choose|j: int| 0 <= j < here.len() && (#[trigger] here[j]).0 == k;
                    assert(next[j].0 == k);
                }
            }
            assert(headings(next) =~= headings(here).insert(key));
        }
        i += 1;
    }
    assert(all.take(i as int) =~= all);
    let keys = set.members();
    let ghost order = in_order::<String>(headings(all));
    let mut out: Vec<String> = Vec::new();
    assert(texts(out@) =~= Seq::<Seq<char>>::empty());
    let mut k: usize = 0;
    while k < keys.len()
        invariant
            k <= keys@.len(),
            all == blocks_view(blocks@),
            keys@.map_values(|s: &String| s@) == order,
            texts(out@) == sections(all, order.take(k as int)),
        decreases keys@.len() - k,
    {
        let key = keys[k];
        proof {
            assert(keys@.map_values(|s: &String| s@)[k as int] == order[k as int]);
            assert(order.take(k + 1).drop_last() =~= order.take(k as int));
        }
        let ghost before = texts(out@);
        out.push(cat("  ", key.as_str()));
        let ghost start = texts(out@);
        assert(start =~= before.push("  "@ + key@));
        let mut j: usize = 0;
        assert(start + lines_under(all.take(0), key@) =~= start);
        while j < blocks.len()
            invariant
                j <= blocks@.len(),
                all == blocks_view(blocks@),
                texts(out@) == start + lines_under(all.take(j as int), key@),
            decreases blocks@.len() - j,
        {
            proof {
                assert(all.take(j + 1).drop_last() =~= all.take(j as int));
                assert(all[j as int] == (blocks@[j as int].0@, texts(blocks@[j as int].1@)));
            }
            if blocks[j].0 == *key {
                let ghost said = texts(out@);
                append_all(&mut out, &blocks[j].1);
                assert(said + texts(blocks@[j as int].1@) =~= start + (lines_under(
                    all.take(j as int),
                    key@,
                ) + texts(blocks@[j as int].1@)));
            }
            j += 1;
        }
        assert(all.take(j as int) =~= all);
        k += 1;
    }
    proof {
        assert(keys@.map_values(|s: &String| s@).len() == keys@.len());
        assert(order.take(k as int) =~= order);
    }
    out
}

/// The block of a location that was left.
pub open spec fn location_block(r: LocationRow) -> Block {
    (
        r.rid.text(),
        seq![
            "    release "@ + r.release_id.text(),
            "      cid: "@ + r.cid.text(),
            "      url: "@ + r.url@,
        ],
    )
}

/// The block of an artifact that no release has.
pub open spec fn dangling_block(r: DanglingRow) -> Block {
    (r.rid.text(), seq!["    cid: "@ + r.cid.text()])
}

/// Locations that were left, by repository.
pub fn location_lines(rows: &Vec<LocationRow>) -> (r: Vec<String>)
    ensures
        texts(r@) == grouped(rows@.map_values(|r: LocationRow| location_block(r))),
{
    let ghost all = rows@.map_values(|r: LocationRow| location_block(r));
    let mut blocks: Vec<(String, Vec<String>)> = Vec::new();
    let mut i: usize = 0;
    while i < rows.len()
        invariant
            i <= rows@.len(),
            all == rows@.map_values(|r: LocationRow| location_block(r)),
            blocks_view(blocks@) == all.take(i as int),
        decreases rows@.len() - i,
    {
        let row = &rows[i];
        let release = row.release_id.to_text();
        let cid = row.cid.to_text();
        let mut lines: Vec<String> = Vec::new();
        lines.push(cat("    release ", release.as_str()));
        lines.push(cat("      cid: ", cid.as_str()));
        lines.push(cat("      url: ", row.url.as_str()));
        assert(texts(lines@) =~= location_block(*row).1);
        let ghost before = blocks@;
        blocks.push((row.rid.to_text(), lines));
        assert(blocks_view(blocks@) =~= blocks_view(before).push(all[i as int]));
        assert(all.take(i + 1) =~= all.take(i as int).push(all[i as int]));
        i += 1;
    }
    assert(all.take(i as int) =~= all);
    group_lines(&blocks)
}

/// Artifacts that no release has, by repository.
pub fn dangling_lines(rows: &Vec<DanglingRow>) -> (r: Vec<String>)
    ensures
        texts(r@) == grouped(rows@.map_values(|r: DanglingRow| dangling_block(r))),
{
    let ghost all = rows@.map_values(|r: DanglingRow| dangling_block(r));
    let mut blocks: Vec<(String, Vec<String>)> = Vec::new();
    let mut i: usize = 0;
    while i < rows.len()
        invariant
            i <= rows@.len(),
            all == rows@.map_values(|r: DanglingRow| dangling_block(r)),
            blocks_view(blocks@) == all.take(i as int),
        decreases rows@.len() - i,
    {
        let row = &rows[i];
        let cid = row.cid.to_text();
        let mut lines: Vec<String> = Vec::new();
        lines.push(cat("    cid: ", cid.as_str()));
        assert(texts(lines@) =~= dangling_block(*row).1);
        let ghost before = blocks@;
        blocks.push((row.rid.to_text(), lines));
        assert(blocks_view(blocks@) =~= blocks_view(before).push(all[i as int]));
        assert(all.take(i + 1) =~= all.take(i as int).push(all[i as int]));
        i += 1;
    }
    assert(all.take(i as int) =~= all);
    group_lines(&blocks)
}

/// A line for a count: none where it is zero.
pub open spec fn counted(n: u32, head: Seq<char>, tail: Seq<char>) -> Seq<Seq<char>> {
    if n > 0 {
        seq![head + decimal_text(n as nat) + tail]
    } else {
        Seq::empty()
    }
}

/// An empty line, a line for a count, and what is counted: nothing where there is
/// nothing.
pub open spec fn listed_under(n: nat, tail: Seq<char>, lines: Seq<Seq<char>>) -> Seq<Seq<char>> {
    if n > 0 {
        seq![""@, "Reconcile: "@ + decimal_text(n) + tail] + lines
    } else {
        Seq::empty()
    }
}

/// What is said at the end.
pub open spec fn summary_lines(r: RepoReport) -> Seq<Seq<char>> {
    if r.added == 0 && r.removed == 0 && r.orphaned_self_skipped@.len() == 0
        && r.stale_endpoint_skipped@.len() == 0 && r.dangling@.len() == 0 {
        seq!["Reconcile: no drift."@]
    } else {
        counted(r.added, "Reconcile: added "@, " missing location(s)"@) + counted(
            r.removed,
            "Reconcile: removed "@,
            " stale location(s)"@,
        ) + listed_under(
            r.orphaned_self_skipped@.len(),
            " orphaned-self location(s) left in place — pass --remove-orphaned <CID> (or --remove-orphaned-self for all) to remove:"@,
            grouped(r.orphaned_self_skipped@.map_values(|r: LocationRow| location_block(r))),
        ) + listed_under(
            r.stale_endpoint_skipped@.len(),
            " stale-endpoint location(s) left in place — pass --remove-orphaned-self to remove (also covers orphaned-self):"@,
            grouped(r.stale_endpoint_skipped@.map_values(|r: LocationRow| location_block(r))),
        ) + listed_under(
            r.dangling@.len(),
            " dangling tag(s) — seeded but no release references them; run `rad-artifact unseed --cid <cid>` to reclaim:"@,
            grouped(r.dangling@.map_values(|r: DanglingRow| dangling_block(r))),
        )
    }
}

fn push_count(out: &mut Vec<String>, n: u32, head: &str, tail: &str)
    ensures
        texts(final(out)@) == texts(old(out)@) + counted(n, head@, tail@),
{
    let ghost before = texts(out@);
    if n > 0 {
        let shown = decimal(n as u64);
        out.push(cat3(head, shown.as_str(), tail));
    }
    assert(texts(out@) =~= before + counted(n, head@, tail@));
}

fn push_list(out: &mut Vec<String>, n: usize, tail: &str, lines: &Vec<String>)
    ensures
        texts(final(out)@) == texts(old(out)@) + listed_under(n as nat, tail@, texts(lines@)),
{
    let ghost before = texts(out@);
    if n > 0 {
        let shown = decimal(n as u64);
        out.push("".to_owned());
        out.push(cat3("Reconcile: ", shown.as_str(), tail));
        append_all(out, lines);
    }
    assert(texts(out@) =~= before + listed_under(n as nat, tail@, texts(lines@)));
}

impl RepoReport {
    /// A report on nothing.
    pub fn new() -> (r: RepoReport)
        ensures
            r.added == 0,
            r.removed == 0,
            r.orphaned_self_skipped@.len() == 0,
            r.stale_endpoint_skipped@.len() == 0,
            r.dangling@.len() == 0,
    {
        RepoReport {
            added: 0,
            removed: 0,
            orphaned_self_skipped: Vec::new(),
            stale_endpoint_skipped: Vec::new(),
            dangling: Vec::new(),
        }
    }

    /// Takes in the report on another repository.
    pub fn merge(&mut self, other: RepoReport)
        requires
            old(self).added + other.added <= u32::MAX,
            old(self).removed + other.removed <= u32::MAX,
        ensures
            final(self).added == old(self).added + other.added,
            final(self).removed == old(self).removed + other.removed,
            final(self).orphaned_self_skipped@ == old(self).orphaned_self_skipped@
                + other.orphaned_self_skipped@,
            final(self).stale_endpoint_skipped@ == old(self).stale_endpoint_skipped@
                + other.stale_endpoint_skipped@,
            final(self).dangling@ == old(self).dangling@ + other.dangling@,
    {
        let mut other = other;
        self.added = self.added + other.added;
        self.removed = self.removed + other.removed;
        self.orphaned_self_skipped.append(&mut other.orphaned_self_skipped);
        self.stale_endpoint_skipped.append(&mut other.stale_endpoint_skipped);
        self.dangling.append(&mut other.dangling);
    }

    /// What is said at the end.
    pub fn summary(&self) -> (r: Vec<String>)
        ensures
            texts(r@) == summary_lines(*self),
    {
        let mut out: Vec<String> = Vec::new();
        if self.added == 0 && self.removed == 0 && self.orphaned_self_skipped.len() == 0
            && self.stale_endpoint_skipped.len() == 0 && self.dangling.len() == 0 {
            out.push("Reconcile: no drift.".to_owned());
            assert(texts(out@) =~= summary_lines(*self));
            return out;
        }
        assert(texts(out@) =~= Seq::<Seq<char>>::empty());
        push_count(&mut out, self.added, "Reconcile: added ", " missing location(s)");
        push_count(&mut out, self.removed, "Reconcile: removed ", " stale location(s)");
        let orphaned = location_lines(&self.orphaned_self_skipped);
        push_list(
            &mut out,
            self.orphaned_self_skipped.len(),
            " orphaned-self location(s) left in place — pass --remove-orphaned <CID> (or --remove-orphaned-self for all) to remove:",
            &orphaned,
        );
        let stale = location_lines(&self.stale_endpoint_skipped);
        push_list(
            &mut out,
            self.stale_endpoint_skipped.len(),
            " stale-endpoint location(s) left in place — pass --remove-orphaned-self to remove (also covers orphaned-self):",
            &stale,
        );
        let dangling = dangling_lines(&self.dangling);
        push_list(
            &mut out,
            self.dangling.len(),
            " dangling tag(s) — seeded but no release references them; run `rad-artifact unseed --cid <cid>` to reclaim:",
            &dangling,
        );
        assert(texts(out@) =~= summary_lines(*self));
        out
    }
}

/// What is said of a location that was added or removed, or could not be.
pub enum Change {
    Added,
    RemovedOrphaned,
    RemovedStale,
    NotAdded,
    NotRemoved,
}

/// How a line on a change starts.
pub open spec fn change_head(c: Change) -> Seq<char> {
    match c {
        Change::Added => "added: "@,
        Change::RemovedOrphaned => "removed orphaned-self: "@,
        Change::RemovedStale => "removed stale-endpoint: "@,
        Change::NotAdded => "warning: failed to add "@,
        Change::NotRemoved => "warning: failed to remove "@,
    }
}

/// The line on a change.
pub fn change_line(c: Change, row: &LocationRow) -> (r: String)
    ensures
        r@ == change_head(c) + "rid="@ + row.rid.text() + " release="@ + row.release_id.text()
            + " cid="@ + row.cid.text() + " url="@ + row.url@,
{
    let head = match c {
        Change::Added => "added: ",
        Change::RemovedOrphaned => "removed orphaned-self: ",
        Change::RemovedStale => "removed stale-endpoint: ",
        Change::NotAdded => "warning: failed to add ",
        Change::NotRemoved => "warning: failed to remove ",
    };
    let rid = row.rid.to_text();
    let release = row.release_id.to_text();
    let cid = row.cid.to_text();
    let mut s = cat3(head, "rid=", rid.as_str());
    s.append(" release=");
    s.append(release.as_str());
    s.append(" cid=");
    s.append(cid.as_str());
    s.append(" url=");
    s.append(row.url.as_str());
    s
}

proof fn lemma_headings_finite(s: Seq<Block>)
    ensures
        headings(s).finite(),
    decreases s.len(),
{
    if s.len() == 0 {
        assert(headings(s) =~= Set::empty());
    } else {
        let rest = s.drop_last();
        lemma_headings_finite(rest);
        assert(headings(s) =~= headings(rest).insert(s.last().0)) by {
            assert forall|k: Seq<char>| headings(s).contains(k) <==> headings(rest).insert(
                s.last().0,
            ).contains(k) by {
                if headings(rest).contains(k) {
                    let i = choose|i: int| 0 <= i < rest.len() && (#[trigger] rest[i]).0 == k;
                    assert(s[i].0 == k);
                }
                if k == s.last().0 {
                    assert(s[s.len() - 1].0 == k);
                }
                if headings(s).contains(k) {
                    let i = choose|i: int| 0 <= i < s.len() && (#[trigger] s[i]).0 == k;
                    if i < rest.len() {
                        assert(rest[i].0 == k);
                    }
                }
            }
        }
    }
}

proof fn lemma_lines_under(s: Seq<Block>, heading: Seq<char>, line: Seq<char>)
    ensures
        lines_under(s, heading).contains(line) <==> exists|lines: Seq<Seq<char>>| #[trigger]
            s.contains((heading, lines)) && lines.contains(line),
    decreases s.len(),
{
    if s.len() > 0 {
        lemma_lines_under(s.drop_last(), heading, line);
        lemma_add_has(lines_under(s.drop_last(), heading), s.last().1, line);
        lemma_last_splits(s);
        let (own, lines) = s.last();
        assert(s.contains((own, lines)));
    }
}

proof fn lemma_sections(s: Seq<Block>, keys: Seq<Seq<char>>, line: Seq<char>)
    ensures
        sections(s, keys).contains(line) <==> exists|k: Seq<char>| #[trigger]
            keys.contains(k) && (line == "  "@ + k || lines_under(s, k).contains(line)),
    decreases keys.len(),
{
    if keys.len() > 0 {
        let rest = keys.drop_last();
        let k = keys.last();
        lemma_sections(s, rest, line);
        lemma_push_has(sections(s, rest), "  "@ + k, line);
        lemma_add_has(sections(s, rest).push("  "@ + k), lines_under(s, k), line);
        lemma_last_splits(keys);
    }
}

/// Blocks that are put together by heading lose no heading and no line, and make none up.
pub proof fn law_grouping_keeps_every_line(s: Seq<Block>, line: Seq<char>)
    ensures
        grouped(s).contains(line) <==> exists|heading: Seq<char>, lines: Seq<Seq<char>>| #[trigger]
            s.contains((heading, lines)) && (line == "  "@ + heading || lines.contains(line)),
{
    let keys = in_order::<String>(headings(s));
    lemma_headings_finite(s);
    lemma_finite_in_order::<String>(headings(s));
    lemma_sections(s, keys, line);
    if grouped(s).contains(line) {
        let k = choose|k: Seq<char>| #[trigger]
            keys.contains(k) && (line == "  "@ + k || lines_under(s, k).contains(line));
        lemma_lines_under(s, k, line);
        assert(headings(s).contains(k));
        let i = choose|i: int| 0 <= i < s.len() && (#[trigger] s[i]).0 == k;
        assert(s.contains((k, s[i].1)));
    }
    assert forall|heading: Seq<char>, lines: Seq<Seq<char>>| #[trigger]
        s.contains((heading, lines)) && (line == "  "@ + heading || lines.contains(
            line,
        )) implies grouped(s).contains(line) by {
        let i = choose|i: int| 0 <= i < s.len() && s[i] == (heading, lines);
        assert(s[i].0 == heading);
        assert(headings(s).contains(heading));
        assert(keys.contains(heading));
        lemma_lines_under(s, heading, line);
    }
}

/// No drift is reported exactly where nothing was done and nothing was left.
pub proof fn law_no_drift_is_nothing_to_report(r: RepoReport)
    ensures
        r.added == 0 && r.removed == 0 && r.orphaned_self_skipped@.len() == 0
            && r.stale_endpoint_skipped@.len() == 0 && r.dangling@.len() == 0 ==> summary_lines(r)
            == seq!["Reconcile: no drift."@],
        r.added > 0 ==> summary_lines(r).contains(
            "Reconcile: added "@ + decimal_text(r.added as nat) + " missing location(s)"@,
        ),
        r.removed > 0 ==> summary_lines(r).contains(
            "Reconcile: removed "@ + decimal_text(r.removed as nat) + " stale location(s)"@,
        ),
{
    let s = summary_lines(r);
    if r.added > 0 {
        assert(s[0] == "Reconcile: added "@ + decimal_text(r.added as nat)
            + " missing location(s)"@);
    }
    if r.removed > 0 {
        let k: int = if r.added > 0 {
            1
        } else {
            0
        };
        assert(s[k] == "Reconcile: removed "@ + decimal_text(r.removed as nat)
            + " stale location(s)"@);
    }
}

} // verus!
