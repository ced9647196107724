//! The cache of releases: what it holds, when an entry is out of date, and what is
//! then to be done.

use crate::ids::{law_ids_are_told_apart_by_their_texts, Cid, Did, Oid, ReleaseId};
use crate::laws::{sound, sound_artifact};
use crate::location::Url;
use crate::release::{finite_locations, listing, ArtifactView, Release, ReleaseView};
use crate::seqs::{lemma_filter_contains, lemma_filter_empty, lemma_filter_step};
use crate::sorted::{in_order, lemma_finite_in_order};
use crate::store::{
    all_locations, all_read, carrying, distinct_ids, finds, law_search_finds_every_carrier,
    release_locations, Loaded,
};
use crate::text::{
    cat, cat3, chars_of, join, joined, law_sorted_texts_are_in_order, sort_strings, sorted_texts,
    texts,
};
use vstd::prelude::*;

verus! {

/// The name of the database file.
pub const DB_FILE: &'static str = "artifacts.db";

/// The path of `name` in the directory `dir`: a separator stands between them
/// unless `dir` is empty or ends in one.
pub open spec fn path_in(dir: Seq<char>, name: Seq<char>) -> Seq<char> {
    if dir.len() == 0 || dir.last() == '/' {
        dir + name
    } else {
        dir + "/"@ + name
    }
}

/// The path of a relative `name` in the directory `dir`.
pub fn join_path(dir: &str, name: &str) -> (r: String)
    ensures
        r@ == path_in(dir@, name@),
{
    let chars = chars_of(dir);
    if chars.len() == 0 || chars[chars.len() - 1] == '/' {
        cat(dir, name)
    } else {
        cat3(dir, "/", name)
    }
}

/// The path of the database in the directory `cobs_dir`.
pub fn db_path(cobs_dir: &str) -> (r: String)
    ensures
        r@ == path_in(cobs_dir@, DB_FILE@),
{
    join_path(cobs_dir, DB_FILE)
}

/// The ids of tips, as text.
pub open spec fn tip_texts(tips: Seq<Oid>) -> Seq<Seq<char>> {
    tips.map_values(|o: Oid| o.text())
}

/// The token that stands for a set of tips.
pub open spec fn token_of(tips: Seq<Oid>) -> Seq<char> {
    joined(sorted_texts(tip_texts(tips)), ","@)
}

/// A token for the tips of an object. While the tips stay the same, so does the
/// token.
pub fn head_token(tips: &Vec<Oid>) -> (r: String)
    ensures
        r@ == token_of(tips@),
{
    let mut strings: Vec<String> = Vec::new();
    let mut i: usize = 0;
    while i < tips.len()
        invariant
            i <= tips@.len(),
            texts(strings@) == tip_texts(tips@).take(i as int),
        decreases tips@.len() - i,
    {
        let ghost before = strings@;
        strings.push(tips[i].to_text());
        assert(texts(strings@) =~= texts(before).push(tips@[i as int].text()));
        i += 1;
        assert(texts(strings@) =~= tip_texts(tips@).take(i as int));
    }
    assert(tip_texts(tips@).take(i as int) =~= tip_texts(tips@));
    let sorted = sort_strings(strings);
    join(&sorted, ",")
}

/// The token does not depend on the order in which the tips are listed.
pub proof fn law_token_ignores_order(a: Seq<Oid>, b: Seq<Oid>)
    requires
        a.to_multiset() == b.to_multiset(),
    ensures
        token_of(a) == token_of(b),
{
    lemma_texts_multiset(a, b);
    let le = |x: Seq<char>, y: Seq<char>| crate::text::text_le(x, y);
    crate::text::lemma_text_le_total_ordering();
    tip_texts(b).lemma_sort_by_ensures(le);
    crate::text::lemma_sorted_texts(tip_texts(a), sorted_texts(tip_texts(b)));
}

/// The same members have the same texts.
proof fn lemma_texts_multiset(a: Seq<Oid>, b: Seq<Oid>)
    requires
        a.to_multiset() == b.to_multiset(),
    ensures
        tip_texts(a).to_multiset() == tip_texts(b).to_multiset(),
    decreases a.len(),
{
    broadcast use vstd::multiset::group_multiset_axioms;
    broadcast use vstd::seq_lib::group_to_multiset_ensures;

    if a.len() == 0 {
        assert(b.len() == b.to_multiset().len());
        assert(a.len() == a.to_multiset().len());
        assert(tip_texts(a) =~= tip_texts(b));
    } else {
        let x = a.last();
        assert(a.to_multiset().count(x) > 0) by {
            assert(a[a.len() - 1] == x);
            assert(a.contains(x));
        }
        assert(b.contains(x));
        let j = choose|j: int| 0 <= j < b.len() && b[j] == x;
        assert(a.remove(a.len() - 1) =~= a.drop_last());
        lemma_texts_multiset(a.drop_last(), b.remove(j));
        assert(tip_texts(a) =~= tip_texts(a.drop_last()).push(x.text()));
        assert(tip_texts(b) =~= tip_texts(b.remove(j)).insert(j, x.text()));
    }
}

/// A row of the index of locations. A row without a location stands for an artifact
/// that has none.
pub struct Row<'a> {
    pub cid: Cid,
    pub at: Option<(Did, &'a Url)>,
}

/// What a row stands for.
pub open spec fn row_view(r: Row<'_>) -> (Cid, Option<(Did, Seq<char>)>) {
    (
        r.cid,
        match r.at {
            Some((did, url)) => Some((did, url@)),
            None => None,
        },
    )
}

/// The rows of an artifact: one for each location, or one without a location.
pub open spec fn artifact_rows(cid: Cid, a: ArtifactView) -> Seq<
    (Cid, Option<(Did, Seq<char>)>),
> {
    if a.locations == Map::<Did, Set<Seq<char>>>::empty() {
        seq![(cid, None)]
    } else {
        listing(a.locations).map_values(|e: (Did, Seq<char>)| (cid, Some(e)))
    }
}

/// The rows of the artifacts of a release.
pub open spec fn rows_of(artifacts: Seq<(Cid, ArtifactView)>) -> Seq<
    (Cid, Option<(Did, Seq<char>)>),
>
    decreases artifacts.len(),
{
    if artifacts.len() == 0 {
        Seq::empty()
    } else {
        rows_of(artifacts.drop_last()) + artifact_rows(artifacts.last().0, artifacts.last().1)
    }
}

/// The rows of a release in the index of locations.
pub fn location_rows(release: &Release) -> (r: Vec<Row<'_>>)
    ensures
        r@.map_values(|e: Row<'_>| row_view(e)) == rows_of(release@.artifacts),
{
    let mut out: Vec<Row<'_>> = Vec::new();
    let ghost seen = |e: Row<'_>| row_view(e);
    let mut i: usize = 0;
    while i < release.len()
        invariant
            i <= release@.artifacts.len(),
            seen == (|e: Row<'_>| row_view(e)),
            out@.map_values(seen) == rows_of(release@.artifacts.take(i as int)),
        decreases release@.artifacts.len() - i,
    {
        let ghost before = out@;
        let (cid, artifact) = release.at(i);
        assert(release@.artifacts.take(i + 1).drop_last() =~= release@.artifacts.take(i as int));
        let locations = artifact.locations();
        let none = locations.is_empty();
        proof {
            if none {
                assert(artifact@.locations =~= Map::<Did, Set<Seq<char>>>::empty());
            } else if artifact@.locations == Map::<Did, Set<Seq<char>>>::empty() {
                assert forall|k: Did| !#[trigger] locations@.contains_key(k) by {
                    assert(!artifact@.locations.contains_key(k));
                }
                assert(locations@ =~= Map::empty());
            }
        }
        if none {
            out.push(Row { cid, at: None });
            assert(out@.map_values(seen) =~= before.map_values(seen) + seq![
                (cid, None::<(Did, Seq<char>)>),
            ]);
        } else {
            let located = artifact.located();
            let ghost here = artifact_rows(cid, artifact@);
            let mut j: usize = 0;
            assert(out@.map_values(seen) =~= before.map_values(seen) + here.take(0));
            while j < located.len()
                invariant
                    j <= located@.len(),
                    seen == (|e: Row<'_>| row_view(e)),
                    here.len() == located@.len(),
                    forall|k: int|
                        0 <= k < here.len() ==> #[trigger] here[k] == (
                            cid,
                            Some((located@[k].0, located@[k].1@)),
                        ),
                    out@.map_values(seen) == before.map_values(seen) + here.take(j as int),
                decreases located@.len() - j,
            {
                let ghost had = out@;
                let (did, url) = located[j];
                out.push(Row { cid, at: Some((did, url)) });
                assert(out@.map_values(seen) =~= had.map_values(seen).push(here[j as int]));
                assert(here.take(j + 1) =~= here.take(j as int).push(here[j as int]));
                j += 1;
            }
            assert(here.take(j as int) =~= here);
        }
        i += 1;
    }
    assert(release@.artifacts.take(i as int) =~= release@.artifacts);
    out
}

/// The rows of the artifact `cid` that have a location.
pub open spec fn located_rows(
    rows: Seq<(Cid, Option<(Did, Seq<char>)>)>,
    cid: Cid,
) -> Seq<(Did, Seq<char>)>
    decreases rows.len(),
{
    if rows.len() == 0 {
        Seq::empty()
    } else {
        let rest = located_rows(rows.drop_last(), cid);
        match rows.last().1 {
            Some(at) => if rows.last().0 == cid {
                rest.push(at)
            } else {
                rest
            },
            None => rest,
        }
    }
}

proof fn lemma_located_rows_add(
    a: Seq<(Cid, Option<(Did, Seq<char>)>)>,
    b: Seq<(Cid, Option<(Did, Seq<char>)>)>,
    cid: Cid,
)
    ensures
        located_rows(a + b, cid) == located_rows(a, cid) + located_rows(b, cid),
    decreases b.len(),
{
    if b.len() == 0 {
        assert(a + b =~= a);
        assert(located_rows(a, cid) + located_rows(b, cid) =~= located_rows(a, cid));
    } else {
        assert((a + b).drop_last() =~= a + b.drop_last());
        lemma_located_rows_add(a, b.drop_last(), cid);
        assert(located_rows(a + b, cid) =~= located_rows(a, cid) + located_rows(b, cid));
    }
}

/// Every location of `s`, as a row of `cid`.
proof fn lemma_located_rows_one(s: Seq<(Did, Seq<char>)>, cid: Cid, wanted: Cid)
    ensures
        located_rows(s.map_values(|e: (Did, Seq<char>)| (cid, Some(e))), wanted) == (if cid
            == wanted {
            s
        } else {
            Seq::empty()
        }),
    decreases s.len(),
{
    let rows = s.map_values(|e: (Did, Seq<char>)| (cid, Some(e)));
    if s.len() > 0 {
        lemma_located_rows_one(s.drop_last(), cid, wanted);
        assert(rows.drop_last() =~= s.drop_last().map_values(
            |e: (Did, Seq<char>)| (cid, Some(e)),
        ));
        assert(s =~= s.drop_last().push(s.last()));
    } else {
        assert(s =~= Seq::empty());
    }
}

/// Whether a row is about the artifact `cid`.
pub open spec fn row_about(rows: Seq<(Cid, Option<(Did, Seq<char>)>)>, cid: Cid) -> bool {
    exists|i: int| 0 <= i < rows.len() && (#[trigger] rows[i]).0 == cid
}

proof fn lemma_artifact_rows(cid: Cid, a: ArtifactView, wanted: Cid)
    requires
        a.locations == Map::<Did, Set<Seq<char>>>::empty() || listing(a.locations).len() > 0,
    ensures
        located_rows(artifact_rows(cid, a), wanted) == (if cid == wanted {
            listing(a.locations)
        } else {
            Seq::empty()
        }),
        row_about(artifact_rows(cid, a), wanted) == (cid == wanted),
{
    let rows = artifact_rows(cid, a);
    if a.locations == Map::<Did, Set<Seq<char>>>::empty() {
        lemma_listing_of_nothing(a.locations);
        reveal_with_fuel(located_rows, 2);
        assert(located_rows(rows, wanted) =~= Seq::empty());
        assert(rows[0].0 == cid);
    } else {
        lemma_located_rows_one(listing(a.locations), cid, wanted);
        assert(rows[0].0 == cid);
    }
}

/// Without contributors there are no locations.
proof fn lemma_listing_of_nothing(m: Map<Did, Set<Seq<char>>>)
    requires
        m == Map::<Did, Set<Seq<char>>>::empty(),
    ensures
        listing(m) == Seq::<(Did, Seq<char>)>::empty(),
{
    crate::sorted::lemma_in_order::<Did>(Seq::empty(), m.dom());
}

/// A user with locations has some, and so they are listed.
proof fn lemma_listing_of_some(a: ArtifactView)
    requires
        sound_artifact(a),
        finite_locations(a),
        a.locations != Map::<Did, Set<Seq<char>>>::empty(),
    ensures
        listing(a.locations).len() > 0,
{
    let m = a.locations;
    let keys = in_order::<Did>(m.dom());
    lemma_finite_in_order::<Did>(m.dom());
    if forall|u: Did| !m.contains_key(u) {
        assert(m =~= Map::empty());
    }
    let u = choose|u: Did| m.contains_key(u);
    assert(keys.contains(u));
    let last = keys.last();
    assert(keys.contains(last)) by {
        assert(keys[keys.len() - 1] == last);
    }
    assert(m.contains_key(last));
    lemma_finite_in_order::<Url>(m[last]);
    if forall|t: Seq<char>| !m[last].contains(t) {
        assert(m[last] =~= Set::empty());
    }
    let t = choose|t: Seq<char>| m[last].contains(t);
    assert(in_order::<Url>(m[last]).contains(t));
}

/// The index has everything that a search of the releases finds: an artifact has a
/// row if and only if the release has the artifact, and the rows with a location are
/// its locations, in the same order.
pub proof fn law_rows_mirror_the_release(id: ReleaseId, r: ReleaseView, cid: Cid)
    requires
        sound(r),
        forall|i: int|
            0 <= i < r.artifacts.len() ==> finite_locations((#[trigger] r.artifacts[i]).1),
    ensures
        row_about(rows_of(r.artifacts), cid) == r.has(cid),
        located_rows(rows_of(r.artifacts), cid).map_values(
            |e: (Did, Seq<char>)| (id, e.0, e.1),
        ) == release_locations(id, r, cid),
{
    let n = r.artifacts.len() as int;
    assert(r.artifacts.take(n) =~= r.artifacts);
    lemma_rows_about(r, cid, n);
    if r.has(cid) {
        let i = choose|i: int| 0 <= i < r.artifacts.len() && #[trigger] r.artifacts[i].0 == cid;
        lemma_rows_present(r, cid, i, n);
    } else {
        lemma_rows_absent(r, cid, n);
        assert(located_rows(rows_of(r.artifacts), cid).map_values(
            |e: (Did, Seq<char>)| (id, e.0, e.1),
        ) =~= Seq::empty());
    }
}

/// The rows of one artifact more.
proof fn lemma_rows_step(r: ReleaseView, cid: Cid, n: int)
    requires
        sound(r),
        0 < n <= r.artifacts.len(),
        forall|i: int|
            0 <= i < r.artifacts.len() ==> finite_locations((#[trigger] r.artifacts[i]).1),
    ensures
        rows_of(r.artifacts.take(n)) == rows_of(r.artifacts.take(n - 1)) + artifact_rows(
            r.artifacts[n - 1].0,
            r.artifacts[n - 1].1,
        ),
        located_rows(rows_of(r.artifacts.take(n)), cid) == located_rows(
            rows_of(r.artifacts.take(n - 1)),
            cid,
        ) + (if r.artifacts[n - 1].0 == cid {
            listing(r.artifacts[n - 1].1.locations)
        } else {
            Seq::empty()
        }),
        row_about(artifact_rows(r.artifacts[n - 1].0, r.artifacts[n - 1].1), cid) == (
        r.artifacts[n - 1].0 == cid),
{
    let (last, a) = r.artifacts[n - 1];
    assert(sound_artifact(r.artifacts[n - 1].1));
    assert(finite_locations(r.artifacts[n - 1].1));
    if a.locations != Map::<Did, Set<Seq<char>>>::empty() {
        lemma_listing_of_some(a);
    }
    assert(r.artifacts.take(n).drop_last() =~= r.artifacts.take(n - 1));
    lemma_artifact_rows(last, a, cid);
    lemma_located_rows_add(rows_of(r.artifacts.take(n - 1)), artifact_rows(last, a), cid);
}

proof fn lemma_rows_about(r: ReleaseView, cid: Cid, n: int)
    requires
        sound(r),
        0 <= n <= r.artifacts.len(),
        forall|i: int|
            0 <= i < r.artifacts.len() ==> finite_locations((#[trigger] r.artifacts[i]).1),
    ensures
        row_about(rows_of(r.artifacts.take(n)), cid) == (exists|i: int|
            0 <= i < n && #[trigger] r.artifacts[i].0 == cid),
    decreases n,
{
    if n > 0 {
        lemma_rows_about(r, cid, n - 1);
        lemma_rows_step(r, cid, n);
        let before = rows_of(r.artifacts.take(n - 1));
        let here = artifact_rows(r.artifacts[n - 1].0, r.artifacts[n - 1].1);
        let all = before + here;
        if row_about(before, cid) {
            let i = choose|i: int| 0 <= i < before.len() && (#[trigger] before[i]).0 == cid;
            assert(all[i].0 == cid);
        }
        if row_about(here, cid) {
            let i = choose|i: int| 0 <= i < here.len() && (#[trigger] here[i]).0 == cid;
            assert(all[before.len() + i].0 == cid);
        }
        if row_about(all, cid) {
            let i = choose|i: int| 0 <= i < all.len() && (#[trigger] all[i]).0 == cid;
            if i < before.len() {
                assert(before[i].0 == cid);
            } else {
                assert(here[i - before.len()].0 == cid);
            }
        }
    }
}

proof fn lemma_rows_absent(r: ReleaseView, cid: Cid, n: int)
    requires
        sound(r),
        0 <= n <= r.artifacts.len(),
        forall|i: int|
            0 <= i < r.artifacts.len() ==> finite_locations((#[trigger] r.artifacts[i]).1),
        forall|i: int| 0 <= i < n ==> (#[trigger] r.artifacts[i]).0 != cid,
    ensures
        located_rows(rows_of(r.artifacts.take(n)), cid) == Seq::<(Did, Seq<char>)>::empty(),
    decreases n,
{
    if n > 0 {
        assert(r.artifacts[n - 1].0 != cid);
        lemma_rows_absent(r, cid, n - 1);
        lemma_rows_step(r, cid, n);
    }
}

proof fn lemma_rows_present(r: ReleaseView, cid: Cid, i: int, n: int)
    requires
        sound(r),
        0 <= i < n <= r.artifacts.len(),
        forall|i: int|
            0 <= i < r.artifacts.len() ==> finite_locations((#[trigger] r.artifacts[i]).1),
        r.artifacts[i].0 == cid,
    ensures
        located_rows(rows_of(r.artifacts.take(n)), cid) == listing(r.artifacts[i].1.locations),
    decreases n,
{
    lemma_rows_step(r, cid, n);
    if n == i + 1 {
        assert forall|j: int| 0 <= j < i implies (#[trigger] r.artifacts[j]).0 != cid by {}
        lemma_rows_absent(r, cid, n - 1);
        assert(Seq::<(Did, Seq<char>)>::empty() + listing(r.artifacts[i].1.locations) =~= listing(
            r.artifacts[i].1.locations,
        ));
    } else {
        lemma_rows_present(r, cid, i, n - 1);
        assert(r.artifacts[n - 1].0 != cid);
        assert(listing(r.artifacts[i].1.locations) + Seq::<(Did, Seq<char>)>::empty() =~= listing(
            r.artifacts[i].1.locations,
        ));
    }
}

/// An object of the repository or of the cache, with the token of its tips.
pub struct Head {
    pub id: ReleaseId,
    pub token: String,
}

/// The token under which the cache holds the release `id`.
pub open spec fn cached_token(cached: Seq<Head>, id: ReleaseId) -> Option<Seq<char>>
    decreases cached.len(),
{
    if cached.len() == 0 {
        None
    } else if cached[0].id == id {
        Some(cached[0].token@)
    } else {
        cached_token(cached.drop_first(), id)
    }
}

/// Whether `heads` has the release `id`.
pub open spec fn has_head(heads: Seq<Head>, id: ReleaseId) -> bool {
    exists|i: int| 0 <= i < heads.len() && (#[trigger] heads[i]).id == id
}

proof fn lemma_cached_token(cached: Seq<Head>, id: ReleaseId, n: int)
    requires
        0 <= n <= cached.len(),
        forall|i: int| 0 <= i < n ==> (#[trigger] cached[i]).id != id,
        n == cached.len() || cached[n].id == id,
    ensures
        cached_token(cached, id) == (if n == cached.len() {
            None
        } else {
            Some(cached[n].token@)
        }),
    decreases n,
{
    if n > 0 {
        assert(cached[0].id != id);
        assert forall|i: int| 0 <= i < n - 1 implies (#[trigger] cached.drop_first()[i]).id != id by {
            assert(cached[i + 1].id != id);
        }
        lemma_cached_token(cached.drop_first(), id, n - 1);
    }
}

/// The token under which the cache holds the release `id`.
fn find_token(cached: &Vec<Head>, id: &ReleaseId) -> (r: Option<String>)
    ensures
        match r {
            Some(token) => cached_token(cached@, *id) == Some(token@),
            None => cached_token(cached@, *id) is None,
        },
        r is Some <==> has_head(cached@, *id),
{
    let mut i: usize = 0;
    while i < cached.len()
        invariant
            i <= cached@.len(),
            forall|j: int| 0 <= j < i ==> (#[trigger] cached@[j]).id != *id,
        decreases cached@.len() - i,
    {
        if cached[i].id == *id {
            proof {
                lemma_cached_token(cached@, *id, i as int);
            }
            return Some(cached[i].token.clone());
        }
        i += 1;
    }
    proof {
        lemma_cached_token(cached@, *id, i as int);
    }
    None
}

/// What is to be done to bring the cache up to date.
pub struct RefreshPlan {
    /// The places of the objects to be read anew.
    pub stale: Vec<usize>,
    /// The releases to be dropped.
    pub pruned: Vec<ReleaseId>,
}

/// Whether the cache does not hold an object as it is now.
pub open spec fn is_stale(head: Head, cached: Seq<Head>) -> bool {
    cached_token(cached, head.id) != Some(head.token@)
}

/// The places of the objects that the cache does not hold as they are now.
pub open spec fn stale_places(current: Seq<Head>, cached: Seq<Head>) -> Seq<int> {
    Seq::new(current.len(), |i: int| i).filter(|i: int| is_stale(current[i], cached))
}

/// The releases that the cache holds and the repository does not have.
pub open spec fn gone(current: Seq<Head>, cached: Seq<Head>) -> Seq<ReleaseId> {
    cached.map_values(|h: Head| h.id).filter(|id: ReleaseId| !has_head(current, id))
}

/// Compares the objects of a repository with what the cache holds. An object is read
/// anew where the cache does not have it or has it under another token, and what the
/// repository does not have any more is dropped.
pub fn refresh_plan(current: &Vec<Head>, cached: &Vec<Head>) -> (r: RefreshPlan)
    ensures
        r.stale@.map_values(|i: usize| i as int) == stale_places(current@, cached@),
        forall|k: int| 0 <= k < r.stale@.len() ==> (#[trigger] r.stale@[k]) < current@.len(),
        r.pruned@ == gone(current@, cached@),
{
    let ghost places = Seq::new(current@.len(), |i: int| i);
    let ghost stale_at = |i: int| is_stale(current@[i], cached@);
    let mut stale: Vec<usize> = Vec::new();
    proof {
        lemma_filter_empty(places, stale_at);
        assert(stale@.map_values(|i: usize| i as int) =~= Seq::empty());
    }
    let mut i: usize = 0;
    while i < current.len()
        invariant
            i <= current@.len(),
            places == Seq::new(current@.len(), |i: int| i),
            stale_at == (|i: int| is_stale(current@[i], cached@)),
            stale@.map_values(|i: usize| i as int) == places.take(i as int).filter(stale_at),
            forall|k: int| 0 <= k < stale@.len() ==> (#[trigger] stale@[k]) < current@.len(),
        decreases current@.len() - i,
    {
        let ghost before = stale@;
        proof {
            lemma_filter_step(places, i as int, stale_at);
        }
        let fresh = match find_token(cached, &current[i].id) {
            Some(token) => token == current[i].token,
            None => false,
        };
        if !fresh {
            stale.push(i);
            assert(stale@.map_values(|i: usize| i as int) =~= before.map_values(
                |i: usize| i as int,
            ).push(i as int));
        }
        i += 1;
    }
    assert(places.take(i as int) =~= places);
    let ghost ids = cached@.map_values(|h: Head| h.id);
    let ghost absent = |id: ReleaseId| !has_head(current@, id);
    let mut pruned: Vec<ReleaseId> = Vec::new();
    proof {
        lemma_filter_empty(ids, absent);
    }
    let mut j: usize = 0;
    while j < cached.len()
        invariant
            j <= cached@.len(),
            ids == cached@.map_values(|h: Head| h.id),
            absent == (|id: ReleaseId| !has_head(current@, id)),
            pruned@ == ids.take(j as int).filter(absent),
        decreases cached@.len() - j,
    {
        proof {
            lemma_filter_step(ids, j as int, absent);
        }
        if find_token(current, &cached[j].id).is_none() {
            pruned.push(cached[j].id);
        }
        j += 1;
    }
    assert(ids.take(j as int) =~= ids);
    RefreshPlan { stale, pruned }
}

/// What reading an object anew gave.
pub enum Fold {
    /// The release.
    Found(Release),
    /// Nothing: the object leads to no release any more.
    Gone,
    /// An error.
    Broken,
}

/// What an object gives when it is read.
#[verifier::ext_equal]
pub enum Reading {
    /// A release.
    Found(ReleaseView),
    /// Nothing.
    Gone,
    /// An error.
    Broken,
}

impl View for Fold {
    type V = Reading;

    open spec fn view(&self) -> Reading {
        match *self {
            Fold::Found(release) => Reading::Found(release@),
            Fold::Gone => Reading::Gone,
            Fold::Broken => Reading::Broken,
        }
    }
}

/// What to write to the cache.
#[derive(Clone, Copy, PartialEq, Eq, Debug, Structural)]
pub enum CacheWrite {
    /// The release that was read.
    Update,
    /// That there is no release any more.
    Remove,
    /// Nothing: an object that cannot be read is left as it is.
    Nothing,
}

/// What to write to the cache after an object was read.
pub open spec fn write_of(reading: Reading) -> CacheWrite {
    match reading {
        Reading::Found(_) => CacheWrite::Update,
        Reading::Gone => CacheWrite::Remove,
        Reading::Broken => CacheWrite::Nothing,
    }
}

/// What to write to the cache after an object was read anew.
pub fn settle(fold: &Fold) -> (r: CacheWrite)
    ensures
        r == write_of(fold@),
{
    match fold {
        Fold::Found(_) => CacheWrite::Update,
        Fold::Gone => CacheWrite::Remove,
        Fold::Broken => CacheWrite::Nothing,
    }
}

/// How a single release can be had.
pub enum Lookup {
    /// The repository does not have the object any more: drop it from the cache.
    Gone,
    /// The cache holds the release as it is now.
    Hit,
    /// The release is to be read anew, and is to be cached under this token.
    Stale(String),
}

/// Decides how a release can be had. `tips` are the tips of its object, and `head` is
/// the token under which the cache holds it.
pub fn lookup(tips: &Vec<Oid>, head: Option<&str>) -> (r: Lookup)
    ensures
        match r {
            Lookup::Gone => tips@.len() == 0,
            Lookup::Hit => tips@.len() > 0 && head is Some && head->0@ == token_of(tips@),
            Lookup::Stale(token) => tips@.len() > 0 && token@ == token_of(tips@) && (head is None
                || head->0@ != token_of(tips@)),
        },
{
    if tips.len() == 0 {
        return Lookup::Gone;
    }
    let token = head_token(tips);
    match head {
        Some(head) => {
            if head.to_owned() == token {
                Lookup::Hit
            } else {
                Lookup::Stale(token)
            }
        },
        None => Lookup::Stale(token),
    }
}

/// What a repository has under an id: the token of the tips, and what they lead to.
#[verifier::ext_equal]
pub struct Stored {
    pub token: Seq<char>,
    pub reading: Reading,
}

/// Whether `heads` lists the objects of the repository, each with the token of its tips.
pub open spec fn lists_objects(heads: Seq<Head>, repo: Map<ReleaseId, Stored>) -> bool {
    &&& forall|id: ReleaseId| #[trigger] has_head(heads, id) <==> repo.contains_key(id)
    &&& forall|i: int|
        0 <= i < heads.len() ==> (#[trigger] heads[i]).token@ == repo[heads[i].id].token
}

/// Whether `heads` lists what the cache holds, each release with its token.
pub open spec fn lists_cache(
    heads: Seq<Head>,
    cache: Map<ReleaseId, (Seq<char>, ReleaseView)>,
) -> bool {
    forall|id: ReleaseId|
        #![trigger cached_token(heads, id)]
        #![trigger has_head(heads, id)]
        #![trigger cache.contains_key(id)]
        (has_head(heads, id) <==> cache.contains_key(id)) && cached_token(heads, id) == (
        if cache.contains_key(id) {
            Some(cache[id].0)
        } else {
            None
        })
}

/// Whether the release `id` is to be read anew.
pub open spec fn reads_anew(current: Seq<Head>, cached: Seq<Head>, id: ReleaseId) -> bool {
    exists|i: int| #[trigger] stale_places(current, cached).contains(i) && current[i].id == id
}

/// What is written to the cache about the release `id` while a plan is carried out.
pub open spec fn refresh_write(
    repo: Map<ReleaseId, Stored>,
    current: Seq<Head>,
    cached: Seq<Head>,
    id: ReleaseId,
) -> CacheWrite {
    if reads_anew(current, cached, id) {
        write_of(repo[id].reading)
    } else if gone(current, cached).contains(id) {
        CacheWrite::Remove
    } else {
        CacheWrite::Nothing
    }
}

/// What the cache holds once a plan is carried out: what was read anew, and what was
/// there and was neither written over nor dropped. So an object that cannot be read keeps
/// what the cache held.
pub open spec fn refreshed(
    cache: Map<ReleaseId, (Seq<char>, ReleaseView)>,
    repo: Map<ReleaseId, Stored>,
    current: Seq<Head>,
    cached: Seq<Head>,
) -> Map<ReleaseId, (Seq<char>, ReleaseView)> {
    Map::new(
        |id: ReleaseId|
            match refresh_write(repo, current, cached, id) {
                CacheWrite::Update => true,
                CacheWrite::Remove => false,
                CacheWrite::Nothing => cache.contains_key(id),
            },
        |id: ReleaseId|
            if refresh_write(repo, current, cached, id) == CacheWrite::Update {
                (repo[id].token, repo[id].reading->Found_0)
            } else {
                cache[id]
            },
    )
}

/// Whether what the cache holds under a token is what the repository has under that
/// token, as far as it can be read.
pub open spec fn agrees_with(
    cache: Map<ReleaseId, (Seq<char>, ReleaseView)>,
    repo: Map<ReleaseId, Stored>,
) -> bool {
    forall|id: ReleaseId| #[trigger]
        cache.contains_key(id) && repo.contains_key(id) && cache[id].0 == repo[id].token
            ==> repo[id].reading is Broken || repo[id].reading == Reading::Found(cache[id].1)
}

/// Whether the repository has an object under `id` that cannot be read.
pub open spec fn is_broken(repo: Map<ReleaseId, Stored>, id: ReleaseId) -> bool {
    repo.contains_key(id) && repo[id].reading is Broken
}

/// Once a plan is carried out, the cache holds exactly the releases of the repository,
/// provided that what it held under a token is what the repository has under that token.
/// Of an object that cannot be read it keeps what it held.
pub proof fn law_refresh_mirrors_the_repository(
    cache: Map<ReleaseId, (Seq<char>, ReleaseView)>,
    repo: Map<ReleaseId, Stored>,
    current: Seq<Head>,
    cached: Seq<Head>,
)
    requires
        lists_objects(current, repo),
        lists_cache(cached, cache),
        agrees_with(cache, repo),
    ensures
        forall|id: ReleaseId|
            !is_broken(repo, id) ==> (#[trigger] refreshed(
                cache,
                repo,
                current,
                cached,
            ).contains_key(id) <==> repo.contains_key(id) && repo[id].reading is Found),
        forall|id: ReleaseId|
            !is_broken(repo, id) && #[trigger] refreshed(
                cache,
                repo,
                current,
                cached,
            ).contains_key(id) ==> refreshed(cache, repo, current, cached)[id] == (
                repo[id].token,
                repo[id].reading->Found_0,
            ),
        forall|id: ReleaseId|
            is_broken(repo, id) ==> (#[trigger] refreshed(
                cache,
                repo,
                current,
                cached,
            ).contains_key(id) <==> cache.contains_key(id)),
        forall|id: ReleaseId|
            is_broken(repo, id) && cache.contains_key(id) ==> #[trigger] refreshed(
                cache,
                repo,
                current,
                cached,
            )[id] == cache[id],
{
    let places = Seq::new(current.len(), |i: int| i);
    let stale_at = |i: int| is_stale(current[i], cached);
    let ids = cached.map_values(|h: Head| h.id);
    let absent = |id: ReleaseId| !has_head(current, id);
    assert forall|id: ReleaseId| #[trigger] reads_anew(current, cached, id) <==> repo.contains_key(
        id,
    ) && !(cache.contains_key(id) && cache[id].0 == repo[id].token) by {
        if reads_anew(current, cached, id) {
            let i = choose|i: int| #[trigger]
                stale_places(current, cached).contains(i) && current[i].id == id;
            let kept = places.filter(stale_at);
            assert(kept.contains(i));
            let k = choose|k: int| 0 <= k < kept.len() && kept[k] == i;
            places.lemma_filter_pred(stale_at, k);
            places.lemma_filter_contains_rev(stale_at, i);
            assert(has_head(current, id));
        }
        if repo.contains_key(id) && !(cache.contains_key(id) && cache[id].0 == repo[id].token) {
            assert(has_head(current, id));
            let i = choose|i: int| 0 <= i < current.len() && (#[trigger] current[i]).id == id;
            assert(places[i] == i);
            assert(places.contains(i));
            assert(stale_at(i));
            places.lemma_filter_contains(stale_at, i);
            assert(stale_places(current, cached).contains(i));
        }
    }
    assert forall|id: ReleaseId| cache.contains_key(id) implies (#[trigger] gone(
        current,
        cached,
    ).contains(id) <==> !repo.contains_key(id)) by {
        assert(has_head(cached, id));
        let i = choose|i: int| 0 <= i < cached.len() && (#[trigger] cached[i]).id == id;
        assert(ids[i] == id);
        assert(ids.contains(id));
        if !repo.contains_key(id) {
            assert(!has_head(current, id));
            ids.lemma_filter_contains(absent, i);
        } else if gone(current, cached).contains(id) {
            let kept = ids.filter(absent);
            let k = choose|k: int| 0 <= k < kept.len() && kept[k] == id;
            ids.lemma_filter_pred(absent, k);
        }
    }
    let after = refreshed(cache, repo, current, cached);
    assert forall|id: ReleaseId| !is_broken(repo, id) implies (#[trigger] after.contains_key(id)
        <==> repo.contains_key(id) && repo[id].reading is Found) by {
        assert(reads_anew(current, cached, id) || !reads_anew(current, cached, id));
        assert(gone(current, cached).contains(id) || !gone(current, cached).contains(id));
        if gone(current, cached).contains(id) {
            lemma_gone(current, cached, id);
        }
    }
    assert forall|id: ReleaseId| is_broken(repo, id) implies (#[trigger] after.contains_key(id)
        <==> cache.contains_key(id)) by {
        if gone(current, cached).contains(id) {
            lemma_gone(current, cached, id);
        }
    }
}

/// What is dropped is not in the repository.
proof fn lemma_gone(current: Seq<Head>, cached: Seq<Head>, id: ReleaseId)
    requires
        gone(current, cached).contains(id),
    ensures
        !has_head(current, id),
{
    let ids = cached.map_values(|h: Head| h.id);
    let absent = |id: ReleaseId| !has_head(current, id);
    let kept = ids.filter(absent);
    let k = choose|k: int| 0 <= k < kept.len() && kept[k] == id;
    ids.lemma_filter_pred(absent, k);
}

/// The releases that the index of the cache has for the artifact `cid`: those with a row
/// about it.
pub open spec fn indexed(
    cache: Map<ReleaseId, (Seq<char>, ReleaseView)>,
    cid: Cid,
    id: ReleaseId,
) -> bool {
    cache.contains_key(id) && row_about(rows_of(cache[id].1.artifacts), cid)
}

/// Whether the release `id` is among those that were read.
pub open spec fn has_release(items: Seq<Loaded>, id: ReleaseId) -> bool {
    exists|i: int| 0 <= i < items.len() && (#[trigger] items[i]) is Ok && items[i]->Ok_0.0 == id
}

/// Whether `items` are the releases of a repository, each read once and none in error.
pub open spec fn reads_repository(items: Seq<Loaded>, repo: Map<ReleaseId, Stored>) -> bool {
    &&& all_read(items)
    &&& distinct_ids(items)
    &&& forall|id: ReleaseId| #[trigger] has_release(items, id) <==> repo.contains_key(id)
        && repo[id].reading is Found
    &&& forall|i: int|
        0 <= i < items.len() ==> repo[(#[trigger] items[i])->Ok_0.0].reading == Reading::Found(
            items[i]->Ok_0.1@,
        )
    &&& forall|id: ReleaseId| !#[trigger] is_broken(repo, id)
}

/// Whether every release of a repository is one that actions can lead to.
pub open spec fn holds_sound_releases(repo: Map<ReleaseId, Stored>) -> bool {
    forall|id: ReleaseId| #[trigger]
        repo.contains_key(id) ==> (repo[id].reading matches Reading::Found(r) ==> sound(r)
            && forall|i: int|
            0 <= i < r.artifacts.len() ==> finite_locations((#[trigger] r.artifacts[i]).1))
}

/// A search for an artifact finds the same releases with the cache as without: once the
/// cache is refreshed, the releases with a row about the artifact are those that a search
/// of the repository finds, with the same state. It does not matter what was written to
/// the repository meanwhile.
pub proof fn law_cached_search_finds_the_same(
    cache: Map<ReleaseId, (Seq<char>, ReleaseView)>,
    repo: Map<ReleaseId, Stored>,
    current: Seq<Head>,
    cached: Seq<Head>,
    items: Seq<Loaded>,
    cid: Cid,
)
    requires
        lists_objects(current, repo),
        lists_cache(cached, cache),
        agrees_with(cache, repo),
        reads_repository(items, repo),
        holds_sound_releases(repo),
    ensures
        forall|id: ReleaseId, r: ReleaseView| #[trigger]
            finds(items, cid, id, r) <==> indexed(
                refreshed(cache, repo, current, cached),
                cid,
                id,
            ) && refreshed(cache, repo, current, cached)[id].1 == r,
        forall|j: int, k: int|
            0 <= j < k < carrying(items, cid).len() ==> (#[trigger] carrying(items, cid)[j]).0 != (
            #[trigger] carrying(items, cid)[k]).0,
{
    let after = refreshed(cache, repo, current, cached);
    let found = carrying(items, cid);
    law_refresh_mirrors_the_repository(cache, repo, current, cached);
    law_search_finds_every_carrier(items, cid);
    assert forall|id: ReleaseId, r: ReleaseView| #[trigger]
        finds(items, cid, id, r) <==> indexed(after, cid, id) && after[id].1 == r by {
        assert(!is_broken(repo, id));
        if finds(items, cid, id, r) {
            let k = choose|k: int|
                0 <= k < found.len() && (#[trigger] found[k]).0 == id && found[k].1@ == r;
            assert(found.contains((found[k].0, found[k].1)));
            assert(items.contains(Ok((found[k].0, found[k].1))));
            let i = choose|i: int|
                0 <= i < items.len() && items[i] == Ok::<(ReleaseId, Release), String>(found[k]);
            assert(items[i]->Ok_0.0 == id);
            assert(has_release(items, id));
            assert(after.contains_key(id));
            law_rows_mirror_the_release(id, r, cid);
        }
        if indexed(after, cid, id) {
            assert(after.contains_key(id));
            assert(has_release(items, id));
            let i = choose|i: int|
                0 <= i < items.len() && (#[trigger] items[i]) is Ok && items[i]->Ok_0.0 == id;
            let release = items[i]->Ok_0.1;
            law_rows_mirror_the_release(id, release@, cid);
            assert(items[i] == Ok::<(ReleaseId, Release), String>((id, release)));
            assert(items.contains(Ok((id, release))));
            assert(found.contains((id, release)));
            let k = choose|k: int| 0 <= k < found.len() && found[k] == (id, release);
            assert(found[k].0 == id);
        }
    }
}

/// A location of the artifact `cid` that the index of the cache has.
pub open spec fn indexed_location(
    cache: Map<ReleaseId, (Seq<char>, ReleaseView)>,
    cid: Cid,
    l: (ReleaseId, Did, Seq<char>),
) -> bool {
    cache.contains_key(l.0) && located_rows(rows_of(cache[l.0].1.artifacts), cid).contains(
        (l.1, l.2),
    )
}

/// The locations of an artifact are the same with the cache as without.
pub proof fn law_cached_locations_are_the_same(
    cache: Map<ReleaseId, (Seq<char>, ReleaseView)>,
    repo: Map<ReleaseId, Stored>,
    current: Seq<Head>,
    cached: Seq<Head>,
    items: Seq<Loaded>,
    cid: Cid,
)
    requires
        lists_objects(current, repo),
        lists_cache(cached, cache),
        agrees_with(cache, repo),
        reads_repository(items, repo),
        holds_sound_releases(repo),
    ensures
        forall|l: (ReleaseId, Did, Seq<char>)| #[trigger]
            all_locations(items, cid).contains(l) <==> indexed_location(
                refreshed(cache, repo, current, cached),
                cid,
                l,
            ),
{
    let after = refreshed(cache, repo, current, cached);
    law_refresh_mirrors_the_repository(cache, repo, current, cached);
    assert forall|l: (ReleaseId, Did, Seq<char>)| #[trigger]
        all_locations(items, cid).contains(l) <==> indexed_location(after, cid, l) by {
        assert(!is_broken(repo, l.0));
        lemma_all_locations(items, cid, l);
        if all_locations(items, cid).contains(l) {
            let i = choose|i: int| #[trigger] located_in(items, cid, l, i);
            assert(items[i]->Ok_0.0 == l.0);
            assert(has_release(items, l.0));
            assert(after.contains_key(l.0));
            lemma_rows_locate(l.0, items[i]->Ok_0.1@, cid, l);
        }
        if indexed_location(after, cid, l) {
            assert(after.contains_key(l.0));
            assert(has_release(items, l.0));
            let i = choose|i: int|
                0 <= i < items.len() && (#[trigger] items[i]) is Ok && items[i]->Ok_0.0 == l.0;
            lemma_rows_locate(l.0, items[i]->Ok_0.1@, cid, l);
            assert(located_in(items, cid, l, i));
        }
    }
}

/// Whether the release in place `i` has a location.
spec fn located_in(
    items: Seq<Loaded>,
    cid: Cid,
    l: (ReleaseId, Did, Seq<char>),
    i: int,
) -> bool {
    &&& 0 <= i < items.len()
    &&& items[i] is Ok
    &&& items[i]->Ok_0.0 == l.0
    &&& release_locations(l.0, items[i]->Ok_0.1@, cid).contains(l)
}

proof fn lemma_all_locations(items: Seq<Loaded>, cid: Cid, l: (ReleaseId, Did, Seq<char>))
    ensures
        all_locations(items, cid).contains(l) <==> exists|i: int| #[trigger]
            located_in(items, cid, l, i),
    decreases items.len(),
{
    if items.len() > 0 {
        let rest = items.drop_last();
        let n = items.len() - 1;
        lemma_all_locations(rest, cid, l);
        let before = all_locations(rest, cid);
        let here = if items[n] is Ok {
            release_locations(items[n]->Ok_0.0, items[n]->Ok_0.1@, cid)
        } else {
            Seq::empty()
        };
        let all = all_locations(items, cid);
        assert(all =~= before + here);
        if all.contains(l) {
            let k = choose|k: int| 0 <= k < all.len() && all[k] == l;
            if k < before.len() {
                assert(before[k] == l);
                let i = choose|i: int| #[trigger] located_in(rest, cid, l, i);
                assert(rest[i] == items[i]);
                assert(located_in(items, cid, l, i));
            } else {
                assert(here[k - before.len()] == l);
                assert(located_in(items, cid, l, n));
            }
        }
        if exists|i: int| #[trigger] located_in(items, cid, l, i) {
            let i = choose|i: int| #[trigger] located_in(items, cid, l, i);
            if i < n {
                assert(rest[i] == items[i]);
                assert(located_in(rest, cid, l, i));
                let k = choose|k: int| 0 <= k < before.len() && before[k] == l;
                assert(all[k] == l);
            } else {
                let k = choose|k: int| 0 <= k < here.len() && here[k] == l;
                assert(all[before.len() + k] == l);
            }
        }
    }
}

/// The rows of a release have its locations.
proof fn lemma_rows_locate(
    id: ReleaseId,
    r: ReleaseView,
    cid: Cid,
    l: (ReleaseId, Did, Seq<char>),
)
    requires
        sound(r),
        forall|i: int|
            0 <= i < r.artifacts.len() ==> finite_locations((#[trigger] r.artifacts[i]).1),
        l.0 == id,
    ensures
        release_locations(id, r, cid).contains(l) <==> located_rows(
            rows_of(r.artifacts),
            cid,
        ).contains((l.1, l.2)),
{
    law_rows_mirror_the_release(id, r, cid);
    let rows = located_rows(rows_of(r.artifacts), cid);
    let listed = release_locations(id, r, cid);
    assert(listed.len() == rows.len());
    assert forall|k: int| 0 <= k < rows.len() implies listed[k] == (
        id,
        (#[trigger] rows[k]).0,
        rows[k].1,
    ) by {}
    if listed.contains(l) {
        let k = choose|k: int| 0 <= k < listed.len() && listed[k] == l;
        assert(rows[k] == (l.1, l.2));
    }
    if rows.contains((l.1, l.2)) {
        let k = choose|k: int| 0 <= k < rows.len() && rows[k] == (l.1, l.2);
        assert(listed[k] == l);
    }
}

/// Texts of one length, joined by a separator of one character, can be taken apart again.
proof fn lemma_joined_injective(a: Seq<Seq<char>>, b: Seq<Seq<char>>, sep: Seq<char>)
    requires
        sep.len() == 1,
        forall|i: int| 0 <= i < a.len() ==> (#[trigger] a[i]).len() == 40,
        forall|i: int| 0 <= i < b.len() ==> (#[trigger] b[i]).len() == 40,
        joined(a, sep) == joined(b, sep),
    ensures
        a == b,
    decreases a.len(),
{
    lemma_joined_len(a, sep);
    lemma_joined_len(b, sep);
    assert(a.len() == b.len());
    if a.len() == 1 {
        assert(a[0].len() == 40);
        assert(a =~= b);
    } else if a.len() > 1 {
        let (x, y) = (a.drop_last(), b.drop_last());
        assert forall|i: int| 0 <= i < x.len() implies (#[trigger] x[i]).len() == 40 by {
            assert(a[i].len() == 40);
        }
        assert forall|i: int| 0 <= i < y.len() implies (#[trigger] y[i]).len() == 40 by {
            assert(b[i].len() == 40);
        }
        lemma_joined_len(x, sep);
        lemma_joined_len(y, sep);
        assert(a[a.len() - 1].len() == 40 && b[b.len() - 1].len() == 40);
        let s = joined(a, sep);
        let n = joined(x, sep).len() as int;
        assert(s.take(n) =~= joined(x, sep));
        assert(s.take(n) =~= joined(y, sep));
        assert(s.skip(n + 1) =~= a.last());
        assert(s.skip(n + 1) =~= b.last());
        lemma_joined_injective(x, y, sep);
        assert(a =~= x.push(a.last()));
        assert(b =~= y.push(b.last()));
    } else {
        assert(a =~= b);
    }
}

proof fn lemma_joined_len(a: Seq<Seq<char>>, sep: Seq<char>)
    requires
        sep.len() == 1,
        forall|i: int| 0 <= i < a.len() ==> (#[trigger] a[i]).len() == 40,
    ensures
        joined(a, sep).len() == (if a.len() == 0 {
            0
        } else {
            41 * a.len() - 1
        }),
    decreases a.len(),
{
    if a.len() == 1 {
        assert(a[0].len() == 40);
    } else if a.len() > 1 {
        let x = a.drop_last();
        assert forall|i: int| 0 <= i < x.len() implies (#[trigger] x[i]).len() == 40 by {
            assert(a[i].len() == 40);
        }
        lemma_joined_len(x, sep);
        assert(a[a.len() - 1].len() == 40);
    }
}

proof fn lemma_text_count(tips: Seq<Oid>, o: Oid)
    ensures
        tips.to_multiset().count(o) == tip_texts(tips).to_multiset().count(o.text()),
    decreases tips.len(),
{
    tips.to_multiset_ensures();
    tip_texts(tips).to_multiset_ensures();
    if tips.len() == 0 {
        assert(tip_texts(tips) =~= Seq::empty());
    } else {
        let rest = tips.drop_last();
        let last = tips.last();
        lemma_text_count(rest, o);
        law_ids_are_told_apart_by_their_texts(last, o);
        assert(tips =~= rest.push(last));
        assert(tip_texts(tips) =~= tip_texts(rest).push(last.text()));
        rest.to_multiset_ensures();
        tip_texts(rest).to_multiset_ensures();
        assert(tips.to_multiset() =~= rest.to_multiset().insert(last));
        assert(tip_texts(tips).to_multiset() =~= tip_texts(rest).to_multiset().insert(
            last.text(),
        ));
    }
}

/// A token tells tips apart: where two lists of tips have the same token, they are the same
/// tips. So what the cache holds under the token of an object was read from those tips.
pub proof fn law_token_tells_tips_apart(a: Seq<Oid>, b: Seq<Oid>)
    requires
        token_of(a) == token_of(b),
    ensures
        a.to_multiset() == b.to_multiset(),
{
    let (x, y) = (sorted_texts(tip_texts(a)), sorted_texts(tip_texts(b)));
    reveal_strlit(",");
    lemma_sorted_tips(a);
    lemma_sorted_tips(b);
    lemma_joined_injective(x, y, ","@);
    law_sorted_texts_are_in_order(tip_texts(a), 0, 0);
    law_sorted_texts_are_in_order(tip_texts(b), 0, 0);
    assert forall|o: Oid| a.to_multiset().count(o) == b.to_multiset().count(o) by {
        lemma_text_count(a, o);
        lemma_text_count(b, o);
    }
    assert(a.to_multiset() =~= b.to_multiset());
}

proof fn lemma_sorted_tips(tips: Seq<Oid>)
    ensures
        forall|i: int|
            0 <= i < sorted_texts(tip_texts(tips)).len() ==> (
            #[trigger] sorted_texts(tip_texts(tips))[i]).len() == 40,
{
    let t = tip_texts(tips);
    let s = sorted_texts(t);
    law_sorted_texts_are_in_order(t, 0, 0);
    s.to_multiset_ensures();
    t.to_multiset_ensures();
    assert forall|i: int| 0 <= i < s.len() implies (#[trigger] s[i]).len() == 40 by {
        assert(s.contains(s[i]));
        assert(s.to_multiset().count(s[i]) > 0);
        assert(t.contains(s[i]));
        let k = choose|k: int| 0 <= k < t.len() && t[k] == s[i];
        law_ids_are_told_apart_by_their_texts(tips[k], tips[k]);
    }
}

/// An object is read anew exactly where the cache does not have it, or first has it under
/// another token; and what the cache has and the repository has not is dropped.
pub proof fn law_what_changed_is_read_anew(
    current: Seq<Head>,
    cached: Seq<Head>,
    i: int,
    id: ReleaseId,
)
    ensures
        stale_places(current, cached).contains(i) <==> 0 <= i < current.len() && !exists|k: int|
            {
                &&& 0 <= k < cached.len()
                &&& (#[trigger] cached[k]).id == current[i].id
                &&& cached[k].token@ == current[i].token@
                &&& forall|j: int| 0 <= j < k ==> (#[trigger] cached[j]).id != current[i].id
            },
        gone(current, cached).contains(id) <==> (exists|k: int|
            0 <= k < cached.len() && (#[trigger] cached[k]).id == id) && forall|k: int|
            0 <= k < current.len() ==> (#[trigger] current[k]).id != id,
{
    let places = Seq::new(current.len(), |i: int| i);
    let keep = |i: int| is_stale(current[i], cached);
    lemma_filter_contains(places, keep);
    if 0 <= i < current.len() {
        assert(places[i] == i);
        assert(places.contains(i));
        lemma_cached_token_is_the_first(cached, current[i].id);
    }
    let ids = cached.map_values(|h: Head| h.id);
    lemma_filter_contains(ids, |id: ReleaseId| !has_head(current, id));
    if ids.contains(id) {
        let k = choose|k: int| 0 <= k < ids.len() && ids[k] == id;
        assert(cached[k].id == id);
    }
    if exists|k: int| 0 <= k < cached.len() && (#[trigger] cached[k]).id == id {
        let k = choose|k: int| 0 <= k < cached.len() && (#[trigger] cached[k]).id == id;
        assert(ids[k] == id);
    }
}

proof fn lemma_cached_token_is_the_first(cached: Seq<Head>, id: ReleaseId)
    ensures
        match cached_token(cached, id) {
            Some(token) => exists|k: int|
                {
                    &&& 0 <= k < cached.len()
                    &&& (#[trigger] cached[k]).id == id
                    &&& cached[k].token@ == token
                    &&& forall|j: int| 0 <= j < k ==> (#[trigger] cached[j]).id != id
                },
            None => forall|j: int| 0 <= j < cached.len() ==> (#[trigger] cached[j]).id != id,
        },
    decreases cached.len(),
{
    if cached.len() > 0 {
        if cached[0].id != id {
            let rest = cached.drop_first();
            lemma_cached_token_is_the_first(rest, id);
            match cached_token(rest, id) {
                Some(token) => {
                    let k = choose|k: int|
                        {
                            &&& 0 <= k < rest.len()
                            &&& (#[trigger] rest[k]).id == id
                            &&& rest[k].token@ == token
                            &&& forall|j: int| 0 <= j < k ==> (#[trigger] rest[j]).id != id
                        };
                    assert(cached[k + 1].id == id);
                    assert forall|j: int| 0 <= j < k + 1 implies (#[trigger] cached[j]).id != id by {
                        if j > 0 {
                            assert(rest[j - 1].id != id);
                        }
                    }
                },
                None => {
                    assert forall|j: int| 0 <= j < cached.len() implies (
                    #[trigger] cached[j]).id != id by {
                        if j > 0 {
                            assert(rest[j - 1].id != id);
                        }
                    }
                },
            }
        }
    }
}

/// The path of a name in a directory is the directory, a separator if it does not end in
/// one, and the name.
pub proof fn law_paths_have_one_separator(dir: Seq<char>, name: Seq<char>)
    ensures
        dir.is_prefix_of(path_in(dir, name)),
        path_in(dir, name).skip(path_in(dir, name).len() - name.len()) == name,
        dir.len() == 0 ==> path_in(dir, name) == name,
        dir.len() > 0 ==> path_in(dir, name)[path_in(dir, name).len() - name.len() - 1] == '/',
        path_in(dir, name).len() == dir.len() + name.len() + (if dir.len() > 0 && dir.last()
            != '/' {
            1nat
        } else {
            0nat
        }),
{
    reveal_strlit("/");
    let p = path_in(dir, name);
    assert(p.skip(p.len() - name.len()) =~= name);
    if dir.len() == 0 {
        assert(p =~= name);
    }
}

/// `refresh_plan` reads an object anew exactly where the cache does not have it, or first has
/// it under another token, and drops exactly what the repository does not have any more.
pub proof fn law_refresh_plan_reads_what_changed(
    current: Vec<Head>,
    cached: Vec<Head>,
    r: RefreshPlan,
    i: usize,
    id: ReleaseId,
)
    requires
        call_ensures(refresh_plan, (&current, &cached), r),
    ensures
        r.stale@.contains(i) <==> i < current@.len() && !exists|k: int|
            {
                &&& 0 <= k < cached@.len()
                &&& (#[trigger] cached@[k]).id == current@[i as int].id
                &&& cached@[k].token@ == current@[i as int].token@
                &&& forall|j: int|
                    0 <= j < k ==> (#[trigger] cached@[j]).id != current@[i as int].id
            },
        r.pruned@.contains(id) <==> (exists|k: int|
            0 <= k < cached@.len() && (#[trigger] cached@[k]).id == id) && forall|k: int|
            0 <= k < current@.len() ==> (#[trigger] current@[k]).id != id,
{
    law_what_changed_is_read_anew(current@, cached@, i as int, id);
    let t = r.stale@.map_values(|i: usize| i as int);
    if r.stale@.contains(i) {
        let k = choose|k: int| 0 <= k < r.stale@.len() && r.stale@[k] == i;
        assert(t[k] == i as int);
    }
    if t.contains(i as int) {
        let k = choose|k: int| 0 <= k < t.len() && t[k] == i as int;
        assert(r.stale@[k] == i);
    }
}

/// `lookup` takes a release out of the cache exactly where the cache holds it under the token
/// of the tips that it has now.
pub proof fn law_only_the_same_tips_are_a_hit(tips: Vec<Oid>, head: Option<&str>, r: Lookup)
    requires
        call_ensures(lookup, (&tips, head), r),
    ensures
        r is Gone <==> tips@.len() == 0,
        r is Hit <==> tips@.len() > 0 && head is Some && head->0@ == token_of(tips@),
        r matches Lookup::Stale(token) ==> token@ == token_of(tips@),
        forall|before: Seq<Oid>|
            r is Hit && head->0@ == #[trigger] token_of(before) ==> before.to_multiset()
                == tips@.to_multiset(),
{
    assert forall|before: Seq<Oid>| r is Hit && head->0@ == #[trigger] token_of(
        before,
    ) implies before.to_multiset() == tips@.to_multiset() by {
        law_token_tells_tips_apart(before, tips@);
    }
}

} // verus!
