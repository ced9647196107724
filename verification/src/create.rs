//! Creating a release, or using one that the user has created before.

use crate::ids::{Did, Oid, ReleaseId};
use crate::release::{Release, ReleaseView};
use crate::resolve::{
    collect_candidates, display_ids, first_error, id_texts, ids_of, listed, read_releases, Find,
};
use crate::seqs::{lemma_filter_contains, lemma_filter_empty, lemma_filter_step, lemma_map_contains};
use crate::store::{all_read, law_search_by_commit_is_complete, of_commit, Loaded, Releases};
use crate::text::{cat3, cat4, cat5, decimal, decimal_text, joined};
use vstd::prelude::*;

verus! {

/// The release to use.
pub enum CreatePlan<'a> {
    /// A new one.
    Mint,
    /// One that the user has created.
    Reuse(ReleaseId),
    /// The user has to choose among those that they have created.
    Choose(Vec<(ReleaseId, &'a Release)>),
    /// The user would have to choose, and cannot be asked; this is what is said.
    Ambiguous(String),
}

/// The releases of the commit that the user has created.
pub open spec fn own_releases(all: Seq<(ReleaseId, ReleaseView)>, local: Did) -> Seq<
    (ReleaseId, ReleaseView),
> {
    all.filter(|e: (ReleaseId, ReleaseView)| e.1.creator == local)
}

/// Whether the release in place `i` is the first with the tag.
pub open spec fn first_with_tag(s: Seq<(ReleaseId, ReleaseView)>, tag: Oid, i: int) -> bool {
    &&& 0 <= i < s.len()
    &&& s[i].1.tag == Some(tag)
    &&& forall|j: int| 0 <= j < i ==> (#[trigger] s[j]).1.tag != Some(tag)
}

/// Whether no release has the tag.
pub open spec fn none_with_tag(s: Seq<(ReleaseId, ReleaseView)>, tag: Oid) -> bool {
    forall|j: int| 0 <= j < s.len() ==> (#[trigger] s[j]).1.tag != Some(tag)
}

/// What is said where the user would have to choose and cannot be asked.
pub open spec fn ambiguous_text(oid: Oid, ids: Seq<ReleaseId>) -> Seq<char> {
    "commit "@ + oid.text() + " has "@ + decimal_text(ids.len())
        + " release(s) you authored; re-run in a terminal to pick one, or name its tag (e.g. `create <tag>`) if it has one (candidates: "@
        + joined(id_texts(ids), ", "@) + ")"@
}

/// Whether a plan is the right one, for the releases that the user has created. A tag
/// settles it: a release with that tag is used, or a new one is created. Without a tag, a
/// single release is used.
pub open spec fn plans(
    plan: CreatePlan<'_>,
    oid: Oid,
    tag: Option<Oid>,
    mine: Seq<(ReleaseId, ReleaseView)>,
    ask: bool,
) -> bool {
    match plan {
        CreatePlan::Mint => match tag {
            Some(t) => none_with_tag(mine, t),
            None => mine.len() == 0,
        },
        CreatePlan::Reuse(id) => match tag {
            Some(t) => exists|i: int| #[trigger] first_with_tag(mine, t, i) && mine[i].0 == id,
            None => mine.len() == 1 && mine[0].0 == id,
        },
        CreatePlan::Choose(v) => tag is None && mine.len() > 1 && ask && listed(v@) == mine,
        CreatePlan::Ambiguous(text) => tag is None && mine.len() > 1 && !ask && text@
            == ambiguous_text(oid, mine.map_values(|e: (ReleaseId, ReleaseView)| e.0)),
    }
}

fn keep_own<'a>(all: &Vec<(ReleaseId, &'a Release)>, local: &Did) -> (r: Vec<
    (ReleaseId, &'a Release),
>)
    ensures
        listed(r@) == own_releases(listed(all@), *local),
{
    let ghost views = listed(all@);
    let ghost keep = |e: (ReleaseId, ReleaseView)| e.1.creator == *local;
    let mut out: Vec<(ReleaseId, &'a Release)> = Vec::new();
    proof {
        lemma_filter_empty(views, keep);
    }
    let mut i: usize = 0;
    while i < all.len()
        invariant
            i <= all@.len(),
            views == listed(all@),
            keep == (|e: (ReleaseId, ReleaseView)| e.1.creator == *local),
            listed(out@) == views.take(i as int).filter(keep),
        decreases all@.len() - i,
    {
        let (id, release) = all[i];
        proof {
            lemma_filter_step(views, i as int, keep);
        }
        let ghost before = out@;
        if *release.creator() == *local {
            out.push((id, release));
            assert(listed(out@) =~= listed(before).push((id, release@)));
        }
        i += 1;
    }
    assert(views.take(i as int) =~= views);
    out
}

/// Decides whether a release of the commit `oid` is created or one of the user's own is
/// used. `tag` is the tag that the user named, and `ask` says whether they can be asked.
pub fn create_plan<'a>(
    oid: Oid,
    tag: Option<Oid>,
    releases: &'a Releases,
    local: &Did,
    ask: bool,
) -> (r: Result<CreatePlan<'a>, Find>)
    ensures
        ({
            let found = of_commit(releases.items@, oid);
            match r {
                Ok(plan) => all_read(found) && plans(
                    plan,
                    oid,
                    tag,
                    own_releases(read_releases(found), *local),
                    ask,
                ),
                Err(Find::Lookup { oid: o, err }) => o == oid && first_error(found, err@),
                Err(_) => false,
            }
        }),
{
    let all = match collect_candidates(releases, oid) {
        Ok(all) => all,
        Err(e) => {
            return Err(e);
        },
    };
    let mine = keep_own(&all, local);
    let ghost views = listed(mine@);
    assert(views.len() == mine@.len());
    match tag {
        Some(t) => {
            let mut i: usize = 0;
            while i < mine.len()
                invariant
                    i <= mine@.len(),
                    tag == Some(t),
                    views == listed(mine@),
                    all_read(of_commit(releases.items@, oid)),
                    views == own_releases(read_releases(of_commit(releases.items@, oid)), *local),
                    forall|j: int| 0 <= j < i ==> (#[trigger] views[j]).1.tag != Some(t),
                decreases mine@.len() - i,
            {
                assert(views[i as int] == (mine@[i as int].0, mine@[i as int].1@));
                let same = match mine[i].1.tag() {
                    Some(own) => own == t,
                    None => false,
                };
                if same {
                    assert(first_with_tag(views, t, i as int));
                    return Ok(CreatePlan::Reuse(mine[i].0));
                }
                i += 1;
            }
            Ok(CreatePlan::Mint)
        },
        None => {
            if mine.len() == 0 {
                Ok(CreatePlan::Mint)
            } else if mine.len() == 1 {
                assert(views[0] == (mine@[0].0, mine@[0].1@));
                Ok(CreatePlan::Reuse(mine[0].0))
            } else if ask {
                Ok(CreatePlan::Choose(mine))
            } else {
                let ids = ids_of(&mine);
                let n = decimal(ids.len() as u64);
                let shown = oid.to_text();
                let list = display_ids(&ids);
                let mut text = cat4("commit ", shown.as_str(), " has ", n.as_str());
                text.append(
                    " release(s) you authored; re-run in a terminal to pick one, or name its tag (e.g. `create <tag>`) if it has one (candidates: ",
                );
                text.append(list.as_str());
                text.append(")");
                Ok(CreatePlan::Ambiguous(text))
            }
        },
    }
}

/// Creating is idempotent: once the user has created a release of a commit, asking for
/// that commit again, with the tag of the release or with none, creates no other.
pub proof fn law_create_is_idempotent(
    mine: Seq<(ReleaseId, ReleaseView)>,
    created: (ReleaseId, ReleaseView),
    tag: Option<Oid>,
    oid: Oid,
    plan: CreatePlan<'_>,
    ask: bool,
)
    requires
        mine.contains(created),
        tag is None || created.1.tag == tag,
        plans(plan, oid, tag, mine, ask),
    ensures
        !(plan is Mint),
        tag is Some ==> plan is Reuse,
{
    let i = choose|i: int| 0 <= i < mine.len() && mine[i] == created;
    assert(mine[i].1.tag == created.1.tag);
}

/// Only releases that the user has created are used.
pub proof fn law_only_own_releases_are_used(
    all: Seq<(ReleaseId, ReleaseView)>,
    local: Did,
    oid: Oid,
    tag: Option<Oid>,
    ask: bool,
    id: ReleaseId,
)
    requires
        plans(CreatePlan::Reuse(id), oid, tag, own_releases(all, local), ask),
    ensures
        exists|i: int|
            0 <= i < all.len() && (#[trigger] all[i]).0 == id && all[i].1.creator == local,
{
    let keep = |e: (ReleaseId, ReleaseView)| e.1.creator == local;
    let mine = own_releases(all, local);
    let k = match tag {
        Some(t) => choose|i: int| #[trigger] first_with_tag(mine, t, i) && mine[i].0 == id,
        None => 0,
    };
    broadcast use vstd::seq_lib::group_filter_ensures;

    assert(mine == all.filter(keep));
    assert(mine.contains(mine[k]));
    assert(keep(mine[k]));
    all.lemma_filter_contains_rev(keep, mine[k]);
    let i = choose|i: int| 0 <= i < all.len() && all[i] == mine[k];
    assert(all[i].0 == id);
}

/// What is said once the release is there.
pub fn created_note(id: &ReleaseId, oid: &Oid, reused: bool) -> (r: String)
    ensures
        r@ == (if reused {
            "Reusing release "@
        } else {
            "Created release "@
        }) + id.id.short() + " (commit "@ + oid.short() + ")"@,
{
    let short_id = id.oid().to_short();
    let short_oid = oid.to_short();
    let head = if reused { "Reusing release " } else { "Created release " };
    cat5(head, short_id.as_str(), " (commit ", short_oid.as_str(), ")")
}

/// What is suggested once the release is there.
pub fn created_hint(id: &ReleaseId) -> (r: String)
    ensures
        r@ == "Hint: register artifacts with `rad-artifact register <path> --release "@
            + id.id.short() + "`"@,
{
    let short_id = id.oid().to_short();
    cat3(
        "Hint: register artifacts with `rad-artifact register <path> --release ",
        short_id.as_str(),
        "`",
    )
}

/// The releases of a commit that the user has created are those among all releases with
/// that commit and that creator.
proof fn lemma_own(items: Seq<Loaded>, oid: Oid, local: Did, id: ReleaseId, r: ReleaseView)
    requires
        all_read(items),
    ensures
        own_releases(read_releases(of_commit(items, oid)), local).contains((id, r)) <==> exists|
            release: Release,
        | #[trigger]
            items.contains(Ok((id, release))) && release@ == r && r.oid == oid && r.creator
                == local,
{
    let found = of_commit(items, oid);
    let read = read_releases(found);
    lemma_filter_contains(read, |e: (ReleaseId, ReleaseView)| e.1.creator == local);
    lemma_map_contains(found, |l: Loaded| (l->Ok_0.0, l->Ok_0.1@));
    if read.contains((id, r)) {
        let l = choose|l: Loaded| #[trigger]
            found.contains(l) && (l->Ok_0.0, l->Ok_0.1@) == (id, r);
        law_search_by_commit_is_complete(items, oid, l);
        let i = choose|i: int| 0 <= i < items.len() && items[i] == l;
        assert(items[i] is Ok);
        assert(l == Ok::<(ReleaseId, Release), String>((id, l->Ok_0.1)));
        assert(items.contains(Ok((id, l->Ok_0.1))));
    }
    assert forall|release: Release| #[trigger]
        items.contains(Ok((id, release))) && release@ == r && r.oid == oid implies read.contains(
        (id, r),
    ) by {
        let l = Ok::<(ReleaseId, Release), String>((id, release));
        law_search_by_commit_is_complete(items, oid, l);
        assert(found.contains(l));
    }
}

/// What asking for a release of a commit comes to, in terms of the releases there are. A
/// new one is created only where the user has created none of that commit, or none with
/// the tag that they named; one is used again only where the user has created it, of that
/// commit and with that tag; and the user is to choose only among all of theirs.
pub proof fn law_create_goes_by_the_users_releases(
    items: Seq<Loaded>,
    oid: Oid,
    tag: Option<Oid>,
    local: Did,
    ask: bool,
    plan: CreatePlan<'_>,
)
    requires
        all_read(items),
        plans(plan, oid, tag, own_releases(read_releases(of_commit(items, oid)), local), ask),
    ensures
        match plan {
            CreatePlan::Mint => forall|id: ReleaseId, release: Release| #[trigger]
                items.contains(Ok((id, release))) && release@.oid == oid ==> release@.creator
                    != local || (tag is Some && release@.tag != tag),
            CreatePlan::Reuse(id) => exists|release: Release| #[trigger]
                items.contains(Ok((id, release))) && release@.oid == oid && release@.creator
                    == local && (tag is Some ==> release@.tag == tag),
            CreatePlan::Choose(v) => tag is None && ask && forall|id: ReleaseId, release: Release|
                #[trigger]
                items.contains(Ok((id, release))) && release@.oid == oid && release@.creator
                    == local ==> listed(v@).contains((id, release@)),
            CreatePlan::Ambiguous(_) => tag is None && !ask,
        },
{
    let mine = own_releases(read_releases(of_commit(items, oid)), local);
    match plan {
        CreatePlan::Mint => {
            assert forall|id: ReleaseId, release: Release| #[trigger]
                items.contains(Ok((id, release))) && release@.oid
                    == oid implies release@.creator != local || (tag is Some && release@.tag
                != tag) by {
                lemma_own(items, oid, local, id, release@);
                if release@.creator == local {
                    assert(mine.contains((id, release@)));
                    let j = choose|j: int| 0 <= j < mine.len() && mine[j] == (id, release@);
                    assert(mine[j].1.tag == release@.tag);
                }
            }
        },
        CreatePlan::Reuse(id) => {
            let i = if tag is Some {
                choose|i: int| #[trigger] first_with_tag(mine, tag->0, i) && mine[i].0 == id
            } else {
                0
            };
            assert(mine.contains(mine[i]));
            assert(mine[i] == (id, mine[i].1));
            lemma_own(items, oid, local, id, mine[i].1);
        },
        CreatePlan::Choose(v) => {
            assert forall|id: ReleaseId, release: Release| #[trigger]
                items.contains(Ok((id, release))) && release@.oid == oid && release@.creator
                    == local implies listed(v@).contains((id, release@)) by {
                lemma_own(items, oid, local, id, release@);
            }
        },
        CreatePlan::Ambiguous(_) => {},
    }
}

/// What `create_plan` decides, in terms of the releases there are: a new one is created only
/// where the user has created none of that commit, or none with the tag that they named; one
/// is used again only where the user has created it, of that commit and with that tag.
pub proof fn law_create_plan_goes_by_the_users_releases(
    oid: Oid,
    tag: Option<Oid>,
    releases: Releases,
    local: Did,
    ask: bool,
    r: Result<CreatePlan<'_>, Find>,
)
    requires
        call_ensures(create_plan, (oid, tag, &releases, &local, ask), r),
        all_read(releases.items@),
    ensures
        r matches Ok(CreatePlan::Mint) ==> forall|id: ReleaseId, release: Release| #[trigger]
            releases.items@.contains(Ok((id, release))) && release@.oid == oid ==> release@.creator
                != local || (tag is Some && release@.tag != tag),
        r matches Ok(CreatePlan::Reuse(id)) ==> exists|release: Release| #[trigger]
            releases.items@.contains(Ok((id, release))) && release@.oid == oid && release@.creator
                == local && (tag is Some ==> release@.tag == tag),
        r matches Ok(CreatePlan::Choose(_)) ==> tag is None && ask,
        r matches Ok(CreatePlan::Ambiguous(_)) ==> tag is None && !ask,
{
    if let Ok(plan) = r {
        law_create_goes_by_the_users_releases(releases.items@, oid, tag, local, ask, plan);
    }
}

/// `create_plan` creates a release exactly where the user has created none of that commit, or
/// none with the tag that they named; and where they named a tag that one of theirs has, it
/// is used again.
pub proof fn law_a_release_is_created_where_none_fits(
    oid: Oid,
    tag: Option<Oid>,
    releases: Releases,
    local: Did,
    ask: bool,
    plan: CreatePlan<'_>,
)
    requires
        call_ensures(
            create_plan,
            (oid, tag, &releases, &local, ask),
            Ok::<CreatePlan<'_>, Find>(plan),
        ),
        all_read(releases.items@),
    ensures
        plan is Mint <==> forall|id: ReleaseId, release: Release| #[trigger]
            releases.items@.contains(Ok((id, release))) && release@.oid == oid ==> release@.creator
                != local || (tag is Some && release@.tag != tag),
        tag is Some && !(plan is Mint) ==> plan is Reuse,
{
    let items = releases.items@;
    let mine = own_releases(read_releases(of_commit(items, oid)), local);
    law_create_goes_by_the_users_releases(items, oid, tag, local, ask, plan);
    if forall|id: ReleaseId, release: Release| #[trigger]
        items.contains(Ok((id, release))) && release@.oid == oid ==> release@.creator != local || (
        tag is Some && release@.tag != tag) {
        assert forall|i: int| 0 <= i < mine.len() implies tag is Some && (
        #[trigger] mine[i]).1.tag != tag by {
            let (id, r) = mine[i];
            assert(mine.contains((id, r)));
            lemma_own(items, oid, local, id, r);
            let release = choose|release: Release| #[trigger]
                items.contains(Ok((id, release))) && release@ == r && r.oid == oid && r.creator
                    == local;
            assert(items.contains(Ok((id, release))));
        }
        if tag is None && mine.len() > 0 {
            assert(mine[0].1.tag != tag);
        }
        if let CreatePlan::Reuse(id) = plan {
            if let Some(t) = tag {
                let i = choose|i: int| #[trigger] first_with_tag(mine, t, i) && mine[i].0 == id;
                assert(mine[i].1.tag != tag);
            }
        }
    }
}

} // verus!
