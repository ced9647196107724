//! What holds of releases, whatever users do.

use crate::ids::{Cid, Did, Oid};
use crate::release::{
    artifact_step, new_artifact, new_release, step, steps, subject, urls_of, Action, ArtifactView,
    ReleaseView,
};
use vstd::prelude::*;

verus! {

/// An artifact that users can have made: its author does not attest to it, nobody
/// both attests to it and redacts it, and a user with locations has at least one.
pub open spec fn sound_artifact(a: ArtifactView) -> bool {
    &&& !a.attestations.contains(a.author)
    &&& forall|u: Did| #[trigger] a.attestations.contains(u) ==> !a.redactions.contains_key(u)
    &&& forall|u: Did| #[trigger]
        a.locations.contains_key(u) ==> a.locations[u] != Set::<Seq<char>>::empty()
}

/// A release that users can have made: every artifact is sound and none occurs
/// twice.
pub open spec fn sound(r: ReleaseView) -> bool {
    &&& r.distinct()
    &&& forall|i: int|
        0 <= i < r.artifacts.len() ==> sound_artifact((#[trigger] r.artifacts[i]).1)
}

/// What the actions of `h`, each beside its user, make of a release.
pub open spec fn history(r: ReleaseView, h: Seq<(Did, Action)>) -> ReleaseView
    decreases h.len(),
{
    if h.len() == 0 {
        r
    } else {
        step(history(r, h.drop_last()), h.last().0, h.last().1)
    }
}

/// Where `cid` stands in a release.
proof fn lemma_get(r: ReleaseView, cid: Cid, i: int)
    requires
        r.distinct(),
        0 <= i < r.artifacts.len(),
        r.artifacts[i].0 == cid,
    ensures
        r.has(cid),
        r.get(cid) == r.artifacts[i].1,
{
    let c = choose|c: int| 0 <= c < r.artifacts.len() && #[trigger] r.artifacts[c].0 == cid;
    assert(r.artifacts[i].0 == cid);
}

/// A release without artifacts is sound.
pub proof fn law_new_release_is_sound(oid: Oid, tag: Option<Oid>, creator: Did, timestamp: u64)
    ensures
        sound(new_release(oid, tag, creator, timestamp)),
{
}

proof fn lemma_artifact_step_sound(a: ArtifactView, user: Did, action: Action)
    requires
        sound_artifact(a),
    ensures
        sound_artifact(artifact_step(a, user, action)),
{
    let b = artifact_step(a, user, action);
    match action {
        Action::AddLocation { location, .. } => {
            assert(urls_of(a, user).insert(location@).contains(location@));
        },
        _ => {},
    }
    assert forall|u: Did| #[trigger] b.attestations.contains(u) implies !b.redactions.contains_key(
        u,
    ) by {
        if a.attestations.contains(u) {
        }
    }
    assert forall|u: Did| #[trigger] b.locations.contains_key(u) implies b.locations[u] != Set::<
        Seq<char>,
    >::empty() by {
        if u != user {
            assert(a.locations.contains_key(u));
        } else if a.locations.contains_key(u) {
        }
    }
}

/// No action makes a sound release unsound: the author never attests, nobody both
/// attests and redacts, no user is left without locations, and no artifact occurs
/// twice.
pub proof fn law_step_keeps_sound(r: ReleaseView, user: Did, action: Action)
    requires
        sound(r),
    ensures
        sound(step(r, user, action)),
{
    let s = step(r, user, action);
    assert forall|i: int| 0 <= i < s.artifacts.len() implies sound_artifact(
        (#[trigger] s.artifacts[i]).1,
    ) by {
        if i < r.artifacts.len() {
            assert(sound_artifact(r.artifacts[i].1));
            lemma_artifact_step_sound(r.artifacts[i].1, user, action);
        }
    }
    assert forall|i: int, j: int| 0 <= i < j < s.artifacts.len() implies #[trigger] s.artifacts[i].0
        != #[trigger] s.artifacts[j].0 by {
        if j < r.artifacts.len() {
            assert(r.artifacts[i].0 != r.artifacts[j].0);
        } else {
            assert(r.artifacts[i].0 == s.artifacts[i].0);
        }
    }
}

/// Every history of a sound release leads to a sound release.
pub proof fn law_history_keeps_sound(r: ReleaseView, h: Seq<(Did, Action)>)
    requires
        sound(r),
    ensures
        sound(history(r, h)),
    decreases h.len(),
{
    if h.len() > 0 {
        law_history_keeps_sound(r, h.drop_last());
        law_step_keeps_sound(history(r, h.drop_last()), h.last().0, h.last().1);
    }
}

/// The actions of one user are a history.
pub proof fn law_steps_are_history(r: ReleaseView, user: Did, actions: Seq<Action>)
    ensures
        steps(r, user, actions) == history(r, actions.map_values(|a: Action| (user, a))),
    decreases actions.len(),
{
    let h = actions.map_values(|a: Action| (user, a));
    if actions.len() > 0 {
        law_steps_are_history(r, user, actions.drop_last());
        assert(h.drop_last() =~= actions.drop_last().map_values(|a: Action| (user, a)));
    }
}

/// What an action does to the artifact `cid`, and to the release as a whole: the
/// commit, the tag, the creator and the time stay, artifacts keep their places and
/// their authors, and redactions stay.
proof fn lemma_step_at(r: ReleaseView, user: Did, action: Action, i: int)
    requires
        r.distinct(),
        0 <= i < r.artifacts.len(),
    ensures
        i < step(r, user, action).artifacts.len(),
        step(r, user, action).artifacts[i].0 == r.artifacts[i].0,
        step(r, user, action).artifacts[i].1 == (if subject(action) == Some(r.artifacts[i].0) {
            artifact_step(r.artifacts[i].1, user, action)
        } else {
            r.artifacts[i].1
        }),
{
    let cid = r.artifacts[i].0;
    if subject(action) == Some(cid) {
        assert(r.has(cid));
    }
}

/// The commit, the tag, the creator and the time of a release never change.
pub proof fn law_header_is_fixed(r: ReleaseView, h: Seq<(Did, Action)>)
    ensures
        history(r, h).oid == r.oid,
        history(r, h).tag == r.tag,
        history(r, h).creator == r.creator,
        history(r, h).timestamp == r.timestamp,
    decreases h.len(),
{
    if h.len() > 0 {
        law_header_is_fixed(r, h.drop_last());
    }
}

/// An artifact stays where it is and keeps its author for ever, and a redaction of
/// it stays too.
pub proof fn law_artifacts_and_redactions_are_permanent(
    r: ReleaseView,
    h: Seq<(Did, Action)>,
    i: int,
)
    requires
        sound(r),
        0 <= i < r.artifacts.len(),
    ensures
        i < history(r, h).artifacts.len(),
        history(r, h).artifacts[i].0 == r.artifacts[i].0,
        history(r, h).artifacts[i].1.author == r.artifacts[i].1.author,
        forall|u: Did| #[trigger]
            r.artifacts[i].1.redactions.contains_key(u) ==> history(
                r,
                h,
            ).artifacts[i].1.redactions.contains_key(u),
    decreases h.len(),
{
    if h.len() > 0 {
        law_artifacts_and_redactions_are_permanent(r, h.drop_last(), i);
        law_history_keeps_sound(r, h.drop_last());
        lemma_step_at(history(r, h.drop_last()), h.last().0, h.last().1, i);
    }
}

/// A redaction withdraws the user's attestation and keeps every later attestation
/// of that user from taking effect, whatever happens afterwards.
pub proof fn law_redaction_supersedes_attestation(
    r: ReleaseView,
    user: Did,
    cid: Cid,
    reason: String,
    h: Seq<(Did, Action)>,
)
    requires
        sound(r),
        r.has(cid),
    ensures
        ({
            let s = history(step(r, user, Action::Redact { cid, reason }), h);
            &&& s.has(cid)
            &&& s.get(cid).redactions.contains_key(user)
            &&& !s.get(cid).attestations.contains(user)
        }),
{
    let act = Action::Redact { cid, reason };
    let i = choose|i: int| 0 <= i < r.artifacts.len() && #[trigger] r.artifacts[i].0 == cid;
    let q = step(r, user, act);
    law_step_keeps_sound(r, user, act);
    lemma_step_at(r, user, act, i);
    law_artifacts_and_redactions_are_permanent(q, h, i);
    law_history_keeps_sound(q, h);
    let s = history(q, h);
    lemma_get(s, cid, i);
    assert(q.artifacts[i].1.redactions.contains_key(user));
    assert(sound_artifact(s.artifacts[i].1));
}

/// Redacting again changes the reason and nothing else.
pub proof fn law_redaction_reason_can_be_amended(
    r: ReleaseView,
    user: Did,
    cid: Cid,
    first: String,
    second: String,
)
    ensures
        step(step(r, user, Action::Redact { cid, reason: first }), user, Action::Redact {
            cid,
            reason: second,
        }) == step(r, user, Action::Redact { cid, reason: second }),
{
    let p = step(r, user, Action::Redact { cid, reason: first });
    lemma_has_after(r, user, Action::Redact { cid, reason: first }, cid);
    let one = step(p, user, Action::Redact { cid, reason: second });
    let two = step(r, user, Action::Redact { cid, reason: second });
    assert forall|i: int| 0 <= i < r.artifacts.len() implies one.artifacts[i] == two.artifacts[i] by {
        assert(one.artifacts[i].1 =~= two.artifacts[i].1);
    }
    assert(one =~= two);
}

/// An action that registers nothing leaves the set of artifacts as it is.
proof fn lemma_has_after(r: ReleaseView, user: Did, action: Action, cid: Cid)
    requires
        !(action is RegisterArtifact),
    ensures
        step(r, user, action).has(cid) == r.has(cid),
        step(r, user, action).artifacts.len() == r.artifacts.len(),
{
    let s = step(r, user, action);
    if r.has(cid) {
        let i = choose|i: int| 0 <= i < r.artifacts.len() && #[trigger] r.artifacts[i].0 == cid;
        assert(s.artifacts[i].0 == cid);
    }
    if s.has(cid) {
        let i = choose|i: int| 0 <= i < s.artifacts.len() && #[trigger] s.artifacts[i].0 == cid;
        assert(r.artifacts[i].0 == cid);
    }
}

/// Nobody but the author renames an artifact: an action of another user leaves the
/// name as it is.
pub proof fn law_only_the_author_renames(r: ReleaseView, user: Did, action: Action, i: int)
    requires
        r.distinct(),
        0 <= i < r.artifacts.len(),
        r.artifacts[i].1.author != user,
    ensures
        step(r, user, action).artifacts[i].1.name == r.artifacts[i].1.name,
{
    lemma_step_at(r, user, action, i);
}

/// Registering an artifact again gives it the new name, where the author does so.
pub proof fn law_registering_again_renames(r: ReleaseView, cid: Cid, name: String, i: int)
    requires
        r.distinct(),
        0 <= i < r.artifacts.len(),
        r.artifacts[i].0 == cid,
    ensures
        ({
            let a = r.artifacts[i].1;
            let s = step(r, a.author, Action::RegisterArtifact { cid, name });
            &&& s.artifacts.len() == r.artifacts.len()
            &&& s.artifacts[i].1 == (ArtifactView { name: name@, ..a })
        }),
{
    lemma_step_at(r, r.artifacts[i].1.author, Action::RegisterArtifact { cid, name }, i);
}

/// A later action that creates the release does nothing.
pub proof fn law_later_create_is_ignored(r: ReleaseView, user: Did, oid: Oid, tag: Option<Oid>)
    ensures
        step(r, user, Action::Create { oid, tag }) == r,
{
}

/// An action on an artifact that the release does not have does nothing, but for a
/// registration.
pub proof fn law_unknown_artifact_is_ignored(r: ReleaseView, user: Did, action: Action)
    requires
        subject(action) is Some,
        !r.has(subject(action)->0),
        !(action is RegisterArtifact),
    ensures
        step(r, user, action) == r,
{
}

/// An action leaves every artifact alone that it is not about.
pub proof fn law_other_artifacts_are_untouched(r: ReleaseView, user: Did, action: Action, i: int)
    requires
        r.distinct(),
        0 <= i < r.artifacts.len(),
        subject(action) != Some(r.artifacts[i].0),
    ensures
        step(r, user, action).artifacts[i] == r.artifacts[i],
{
    lemma_step_at(r, user, action, i);
}

/// An action leaves alone what other users have contributed: their locations,
/// attestations and redactions.
pub proof fn law_other_users_are_untouched(
    r: ReleaseView,
    user: Did,
    action: Action,
    i: int,
    other: Did,
)
    requires
        r.distinct(),
        0 <= i < r.artifacts.len(),
        other != user,
    ensures
        ({
            let a = r.artifacts[i].1;
            let b = step(r, user, action).artifacts[i].1;
            &&& urls_of(b, other) == urls_of(a, other)
            &&& b.attestations.contains(other) == a.attestations.contains(other)
            &&& b.redactions.contains_key(other) == a.redactions.contains_key(other)
            &&& a.redactions.contains_key(other) ==> b.redactions[other] == a.redactions[other]
        }),
{
    lemma_step_at(r, user, action, i);
}

/// Doing the same thing twice is doing it once.
pub proof fn law_actions_are_idempotent(r: ReleaseView, user: Did, action: Action)
    requires
        r.distinct(),
    ensures
        step(step(r, user, action), user, action) == step(r, user, action),
{
    let p = step(r, user, action);
    let q = step(p, user, action);
    match subject(action) {
        None => {},
        Some(cid) => {
            if r.has(cid) {
                let i = choose|i: int|
                    0 <= i < r.artifacts.len() && #[trigger] r.artifacts[i].0 == cid;
                assert(p.artifacts[i].0 == cid);
                assert forall|j: int| 0 <= j < p.artifacts.len() implies q.artifacts[j]
                    == p.artifacts[j] by {
                    if r.artifacts[j].0 == cid {
                        lemma_artifact_step_twice(r.artifacts[j].1, user, action);
                    }
                }
                assert(q =~= p);
            } else if action is RegisterArtifact {
                let n = r.artifacts.len() as int;
                assert(p.artifacts[n].0 == cid);
                assert forall|j: int| 0 <= j < p.artifacts.len() implies q.artifacts[j]
                    == p.artifacts[j] by {
                    if j < n {
                        assert(r.artifacts[j].0 != cid);
                    } else {
                        assert(q.artifacts[j].1 =~= p.artifacts[j].1);
                    }
                }
                assert(q =~= p);
            }
        },
    }
}

proof fn lemma_artifact_step_twice(a: ArtifactView, user: Did, action: Action)
    ensures
        artifact_step(artifact_step(a, user, action), user, action) == artifact_step(
            a,
            user,
            action,
        ),
{
    let b = artifact_step(a, user, action);
    let c = artifact_step(b, user, action);
    match action {
        Action::RemoveLocation { location, .. } => {
            let rest = urls_of(a, user).remove(location@);
            if rest =~= Set::<Seq<char>>::empty() {
                assert(urls_of(b, user).remove(location@) =~= Set::<Seq<char>>::empty());
            } else {
                assert(urls_of(b, user).remove(location@) =~= rest);
            }
        },
        Action::AddLocation { location, .. } => {
            assert(urls_of(b, user).insert(location@) =~= urls_of(b, user));
        },
        _ => {},
    }
    assert(c =~= b);
}

/// Adding a location adds it to what the user has contributed, and nothing else.
pub proof fn law_adding_adds(r: ReleaseView, user: Did, cid: Cid, location: crate::location::Url)
    requires
        r.distinct(),
        r.has(cid),
    ensures
        ({
            let s = step(r, user, Action::AddLocation { cid, location });
            &&& s.distinct()
            &&& s.has(cid)
            &&& urls_of(s.get(cid), user) == urls_of(r.get(cid), user).insert(location@)
        }),
{
    let act = Action::AddLocation { cid, location };
    let i = choose|i: int| 0 <= i < r.artifacts.len() && #[trigger] r.artifacts[i].0 == cid;
    lemma_distinct_after(r, user, act);
    lemma_step_at(r, user, act, i);
    lemma_get(r, cid, i);
    lemma_get(step(r, user, act), cid, i);
}

/// Removing a location takes it from what the user has contributed, and nothing else.
pub proof fn law_removing_removes(
    r: ReleaseView,
    user: Did,
    cid: Cid,
    location: crate::location::Url,
)
    requires
        r.distinct(),
        r.has(cid),
    ensures
        ({
            let s = step(r, user, Action::RemoveLocation { cid, location });
            &&& s.distinct()
            &&& s.has(cid)
            &&& urls_of(s.get(cid), user) == urls_of(r.get(cid), user).remove(location@)
        }),
{
    let act = Action::RemoveLocation { cid, location };
    let i = choose|i: int| 0 <= i < r.artifacts.len() && #[trigger] r.artifacts[i].0 == cid;
    lemma_distinct_after(r, user, act);
    lemma_step_at(r, user, act, i);
    lemma_get(r, cid, i);
    lemma_get(step(r, user, act), cid, i);
    let rest = urls_of(r.get(cid), user).remove(location@);
    if rest =~= Set::<Seq<char>>::empty() {
        assert(urls_of(step(r, user, act).get(cid), user) =~= rest);
    } else {
        assert(urls_of(step(r, user, act).get(cid), user) =~= rest);
    }
}

/// An action that registers nothing keeps the artifacts apart.
proof fn lemma_distinct_after(r: ReleaseView, user: Did, action: Action)
    requires
        r.distinct(),
        !(action is RegisterArtifact),
    ensures
        step(r, user, action).distinct(),
{
    let s = step(r, user, action);
    assert forall|i: int, j: int| 0 <= i < j < s.artifacts.len() implies #[trigger] s.artifacts[i].0
        != #[trigger] s.artifacts[j].0 by {
        assert(r.artifacts[i].0 != r.artifacts[j].0);
    }
}

/// Removing a location that was just added restores the release.
pub proof fn law_removing_undoes_adding(
    r: ReleaseView,
    user: Did,
    cid: Cid,
    added: crate::location::Url,
    removed: crate::location::Url,
)
    requires
        sound(r),
        added@ == removed@,
        r.has(cid) ==> !urls_of(r.get(cid), user).contains(added@),
    ensures
        step(step(r, user, Action::AddLocation { cid, location: added }), user,
            Action::RemoveLocation { cid, location: removed }) == r,
{
    let add = Action::AddLocation { cid, location: added };
    let remove = Action::RemoveLocation { cid, location: removed };
    let p = step(r, user, add);
    let q = step(p, user, remove);
    lemma_has_after(r, user, add, cid);
    if r.has(cid) {
        assert forall|i: int| 0 <= i < r.artifacts.len() implies q.artifacts[i] == r.artifacts[i] by {
            if r.artifacts[i].0 == cid {
                lemma_get(r, cid, i);
                let a = r.artifacts[i].1;
                let b = p.artifacts[i].1;
                assert(sound_artifact(a));
                assert(urls_of(b, user).remove(removed@) =~= urls_of(a, user));
                if !a.locations.contains_key(user) {
                    assert(q.artifacts[i].1.locations =~= a.locations);
                } else {
                    assert(a.locations[user] != Set::<Seq<char>>::empty());
                    assert(q.artifacts[i].1.locations =~= a.locations);
                }
            }
        }
        assert(q =~= r);
    }
}

/// Of two values set for a metadata key the later one counts, whoever set them.
pub proof fn law_last_metadata_wins(
    r: ReleaseView,
    first: Did,
    second: Did,
    cid: Cid,
    key: String,
    old_value: crate::json::Json,
    new_value: crate::json::Json,
)
    ensures
        step(step(r, first, Action::SetMetadata { cid, key, value: old_value }), second,
            Action::SetMetadata { cid, key, value: new_value }) == step(
            r,
            second,
            Action::SetMetadata { cid, key, value: new_value },
        ),
{
    let a1 = Action::SetMetadata { cid, key, value: old_value };
    let a2 = Action::SetMetadata { cid, key, value: new_value };
    let p = step(r, first, a1);
    lemma_has_after(r, first, a1, cid);
    let one = step(p, second, a2);
    let two = step(r, second, a2);
    assert forall|i: int| 0 <= i < r.artifacts.len() implies one.artifacts[i] == two.artifacts[i] by {
        assert(one.artifacts[i].1 =~= two.artifacts[i].1);
    }
    assert(one =~= two);
}

/// An author's attestation of the author's own artifact does nothing.
pub proof fn law_self_attestation_is_ignored(r: ReleaseView, cid: Cid)
    requires
        r.distinct(),
        r.has(cid),
    ensures
        step(r, r.get(cid).author, Action::Attest { cid }) == r,
{
    let s = step(r, r.get(cid).author, Action::Attest { cid });
    assert forall|i: int| 0 <= i < r.artifacts.len() implies s.artifacts[i] == r.artifacts[i] by {
        if r.artifacts[i].0 == cid {
            lemma_get(r, cid, i);
        }
    }
    assert(s =~= r);
}

/// Users may act on different artifacts in either order.
pub proof fn law_different_artifacts_commute(
    r: ReleaseView,
    u: Did,
    a: Action,
    v: Did,
    b: Action,
)
    requires
        subject(a) != subject(b),
        subject(a) is Some ==> r.has(subject(a)->0),
        subject(b) is Some ==> r.has(subject(b)->0),
    ensures
        step(step(r, u, a), v, b) == step(step(r, v, b), u, a),
{
    let p = step(r, u, a);
    let q = step(r, v, b);
    if subject(a) is Some && subject(b) is Some {
        let x = subject(a)->0;
        let y = subject(b)->0;
        let i = choose|i: int| 0 <= i < r.artifacts.len() && #[trigger] r.artifacts[i].0 == x;
        let j = choose|j: int| 0 <= j < r.artifacts.len() && #[trigger] r.artifacts[j].0 == y;
        assert(q.artifacts[i].0 == x);
        assert(p.artifacts[j].0 == y);
        assert(step(p, v, b).artifacts =~= step(q, u, a).artifacts);
    }
    assert(step(p, v, b) =~= step(q, u, a));
}

/// Registering an artifact that the release does not have puts it last, without anything
/// stated of it yet.
pub proof fn law_registration_comes_last(r: ReleaseView, user: Did, cid: Cid, name: String)
    requires
        r.distinct(),
        !r.has(cid),
    ensures
        ({
            let s = step(r, user, Action::RegisterArtifact { cid, name });
            &&& s.artifacts == r.artifacts.push((cid, new_artifact(user, name@)))
            &&& s.has(cid)
            &&& s.get(cid) == new_artifact(user, name@)
        }),
{
    let s = step(r, user, Action::RegisterArtifact { cid, name });
    let n = r.artifacts.len() as int;
    assert forall|i: int, j: int| 0 <= i < j < s.artifacts.len() implies #[trigger] s.artifacts[i].0
        != #[trigger] s.artifacts[j].0 by {
        assert(r.artifacts[i].0 == s.artifacts[i].0);
        if j < n {
            assert(r.artifacts[i].0 != r.artifacts[j].0);
        }
    }
    lemma_get(s, cid, n);
}

/// What an action on an artifact makes of it.
proof fn lemma_step_get(r: ReleaseView, user: Did, action: Action, cid: Cid)
    requires
        r.distinct(),
        r.has(cid),
        subject(action) == Some(cid),
    ensures
        step(r, user, action).distinct(),
        step(r, user, action).has(cid),
        step(r, user, action).get(cid) == artifact_step(r.get(cid), user, action),
{
    let s = step(r, user, action);
    let i = choose|i: int| 0 <= i < r.artifacts.len() && #[trigger] r.artifacts[i].0 == cid;
    lemma_step_at(r, user, action, i);
    assert forall|i: int, j: int| 0 <= i < j < s.artifacts.len() implies #[trigger] s.artifacts[i].0
        != #[trigger] s.artifacts[j].0 by {
        assert(r.artifacts[i].0 != r.artifacts[j].0);
    }
    lemma_get(r, cid, i);
    lemma_get(s, cid, i);
}

/// Whoever is not the author of an artifact and has not redacted it can attest to it,
/// whatever others have redacted; nothing else changes.
pub proof fn law_attestation_is_recorded(r: ReleaseView, user: Did, cid: Cid)
    requires
        r.distinct(),
        r.has(cid),
        user != r.get(cid).author,
        !r.get(cid).redactions.contains_key(user),
    ensures
        ({
            let a = r.get(cid);
            let s = step(r, user, Action::Attest { cid });
            let b = s.get(cid);
            &&& s.has(cid)
            &&& b.attestations.contains(user)
            &&& forall|u: Did|
                u != user ==> (#[trigger] b.attestations.contains(u) <==> a.attestations.contains(
                    u,
                ))
            &&& b.author == a.author && b.name == a.name && b.locations == a.locations
            &&& b.redactions == a.redactions && b.metadata == a.metadata
        }),
{
    lemma_step_get(r, user, Action::Attest { cid }, cid);
}

/// Whoever is the author of an artifact, or has redacted it, cannot attest to it.
pub proof fn law_attestation_is_refused(r: ReleaseView, user: Did, cid: Cid)
    requires
        r.distinct(),
        r.has(cid),
        user == r.get(cid).author || r.get(cid).redactions.contains_key(user),
    ensures
        step(r, user, Action::Attest { cid }).get(cid) == r.get(cid),
{
    lemma_step_get(r, user, Action::Attest { cid }, cid);
}

/// Anyone can redact an artifact. The reason is recorded and the user's own attestation
/// goes; what others attest and redact stays, and nothing else changes.
pub proof fn law_redaction_is_recorded(r: ReleaseView, user: Did, cid: Cid, reason: String)
    requires
        r.distinct(),
        r.has(cid),
    ensures
        ({
            let a = r.get(cid);
            let s = step(r, user, Action::Redact { cid, reason });
            let b = s.get(cid);
            &&& s.has(cid)
            &&& b.redactions.contains_key(user) && b.redactions[user] == reason@
            &&& !b.attestations.contains(user)
            &&& forall|u: Did|
                u != user ==> (#[trigger] b.attestations.contains(u) <==> a.attestations.contains(
                    u,
                ))
            &&& forall|u: Did|
                u != user ==> (#[trigger] b.redactions.contains_key(u)
                    <==> a.redactions.contains_key(u))
            &&& forall|u: Did|
                u != user && a.redactions.contains_key(u) ==> #[trigger] b.redactions[u]
                    == a.redactions[u]
            &&& b.author == a.author && b.name == a.name && b.locations == a.locations
            &&& b.metadata == a.metadata
        }),
{
    lemma_step_get(r, user, Action::Redact { cid, reason }, cid);
}

/// Anyone can add a location to an artifact: afterwards the artifact has the locations
/// that it had, and that one of that user.
pub proof fn law_location_is_recorded(
    r: ReleaseView,
    user: Did,
    cid: Cid,
    location: crate::location::Url,
)
    requires
        r.distinct(),
        r.has(cid),
    ensures
        ({
            let a = r.get(cid);
            let s = step(r, user, Action::AddLocation { cid, location });
            let b = s.get(cid);
            &&& s.has(cid)
            &&& forall|u: Did, x: Seq<char>|
                #![trigger b.locations[u].contains(x)]
                #![trigger a.locations[u].contains(x)]
                (b.locations.contains_key(u) && b.locations[u].contains(x)) <==> (
                a.locations.contains_key(u) && a.locations[u].contains(x)) || (u == user && x
                    == location@)
            &&& b.author == a.author && b.name == a.name && b.attestations == a.attestations
            &&& b.redactions == a.redactions && b.metadata == a.metadata
        }),
{
    lemma_step_get(r, user, Action::AddLocation { cid, location }, cid);
}

/// A user can remove a location of their own: afterwards the artifact has the locations
/// that it had, without that one of that user. The same URL of another user stays.
pub proof fn law_location_is_withdrawn(
    r: ReleaseView,
    user: Did,
    cid: Cid,
    location: crate::location::Url,
)
    requires
        r.distinct(),
        r.has(cid),
    ensures
        ({
            let a = r.get(cid);
            let s = step(r, user, Action::RemoveLocation { cid, location });
            let b = s.get(cid);
            &&& s.has(cid)
            &&& forall|u: Did, x: Seq<char>|
                #![trigger b.locations[u].contains(x)]
                #![trigger a.locations[u].contains(x)]
                (b.locations.contains_key(u) && b.locations[u].contains(x)) <==> (
                a.locations.contains_key(u) && a.locations[u].contains(x)) && !(u == user && x
                    == location@)
            &&& b.author == a.author && b.name == a.name && b.attestations == a.attestations
            &&& b.redactions == a.redactions && b.metadata == a.metadata
        }),
{
    lemma_step_get(r, user, Action::RemoveLocation { cid, location }, cid);
    let a = r.get(cid);
    let b = step(r, user, Action::RemoveLocation { cid, location }).get(cid);
    let rest = urls_of(a, user).remove(location@);
    assert forall|u: Did, x: Seq<char>|
        #![trigger b.locations[u].contains(x)]
        #![trigger a.locations[u].contains(x)]
        (b.locations.contains_key(u) && b.locations[u].contains(x)) <==> (
        a.locations.contains_key(u) && a.locations[u].contains(x)) && !(u == user && x
            == location@) by {
        if u == user && a.locations.contains_key(u) && a.locations[u].contains(x) && x
            != location@ {
            assert(rest.contains(x));
        }
    }
}

/// A metadata entry that is set is there, and every other entry is as it was.
pub proof fn law_metadata_is_recorded(
    r: ReleaseView,
    user: Did,
    cid: Cid,
    key: String,
    value: crate::json::Json,
)
    requires
        r.distinct(),
        r.has(cid),
    ensures
        ({
            let a = r.get(cid);
            let s = step(r, user, Action::SetMetadata { cid, key, value });
            let b = s.get(cid);
            &&& s.has(cid)
            &&& b.metadata.contains_key(key@) && b.metadata[key@] == value@
            &&& forall|k: Seq<char>|
                k != key@ ==> (#[trigger] b.metadata.contains_key(k) <==> a.metadata.contains_key(
                    k,
                ))
            &&& forall|k: Seq<char>|
                k != key@ && a.metadata.contains_key(k) ==> #[trigger] b.metadata[k]
                    == a.metadata[k]
            &&& b.author == a.author && b.name == a.name && b.locations == a.locations
            &&& b.attestations == a.attestations && b.redactions == a.redactions
        }),
{
    lemma_step_get(r, user, Action::SetMetadata { cid, key, value }, cid);
}

/// A metadata entry that is removed is gone, and every other entry is as it was.
pub proof fn law_metadata_is_removed(r: ReleaseView, user: Did, cid: Cid, key: String)
    requires
        r.distinct(),
        r.has(cid),
    ensures
        ({
            let a = r.get(cid);
            let s = step(r, user, Action::RemoveMetadata { cid, key });
            let b = s.get(cid);
            &&& s.has(cid)
            &&& !b.metadata.contains_key(key@)
            &&& forall|k: Seq<char>|
                k != key@ ==> (#[trigger] b.metadata.contains_key(k) <==> a.metadata.contains_key(
                    k,
                ))
            &&& forall|k: Seq<char>|
                k != key@ && a.metadata.contains_key(k) ==> #[trigger] b.metadata[k]
                    == a.metadata[k]
            &&& b.author == a.author && b.name == a.name && b.locations == a.locations
            &&& b.attestations == a.attestations && b.redactions == a.redactions
        }),
{
    lemma_step_get(r, user, Action::RemoveMetadata { cid, key }, cid);
}

/// Nobody but the author changes an artifact by registering it again.
pub proof fn law_registering_anothers_artifact_is_ignored(
    r: ReleaseView,
    user: Did,
    cid: Cid,
    name: String,
)
    requires
        r.distinct(),
        r.has(cid),
        user != r.get(cid).author,
    ensures
        step(r, user, Action::RegisterArtifact { cid, name }).get(cid) == r.get(cid),
        step(r, user, Action::RegisterArtifact { cid, name }).artifacts.len() == r.artifacts.len(),
{
    lemma_step_get(r, user, Action::RegisterArtifact { cid, name }, cid);
}

/// Whoever registers an artifact that the release does not have is its author; the
/// artifact has the name that was given, and nobody has stated anything of it.
pub proof fn law_registering_makes_an_author(r: ReleaseView, user: Did, cid: Cid, name: String)
    requires
        r.distinct(),
        !r.has(cid),
    ensures
        ({
            let s = step(r, user, Action::RegisterArtifact { cid, name });
            let b = s.get(cid);
            &&& s.has(cid)
            &&& b.author == user && b.name == name@
            &&& forall|u: Did| !#[trigger] b.locations.contains_key(u)
            &&& forall|u: Did| !#[trigger] b.attestations.contains(u)
            &&& forall|u: Did| !#[trigger] b.redactions.contains_key(u)
            &&& forall|k: Seq<char>| !#[trigger] b.metadata.contains_key(k)
            &&& s.artifacts.len() == r.artifacts.len() + 1
            &&& forall|i: int|
                0 <= i < r.artifacts.len() ==> #[trigger] s.artifacts[i] == r.artifacts[i]
        }),
{
    law_registration_comes_last(r, user, cid, name);
}

/// The actions of a user take effect one after the other, each on what the ones before
/// it made of the release.
pub proof fn law_actions_follow_one_another(
    r: ReleaseView,
    user: Did,
    first: Seq<Action>,
    second: Seq<Action>,
)
    ensures
        steps(r, user, Seq::empty()) == r,
        steps(r, user, first + second) == steps(steps(r, user, first), user, second),
        forall|a: Action| #[trigger] steps(r, user, seq![a]) == step(r, user, a),
    decreases second.len(),
{
    if second.len() == 0 {
        assert(first + second =~= first);
    } else {
        law_actions_follow_one_another(r, user, first, second.drop_last());
        assert((first + second).drop_last() =~= first + second.drop_last());
    }
    assert forall|a: Action| #[trigger] steps(r, user, seq![a]) == step(r, user, a) by {
        assert(seq![a].drop_last() =~= Seq::<Action>::empty());
        reveal_with_fuel(steps, 2);
    }
}

/// A history takes effect one action after the other, whoever acts.
pub proof fn law_history_follows_its_order(
    r: ReleaseView,
    first: Seq<(Did, Action)>,
    second: Seq<(Did, Action)>,
)
    ensures
        history(r, first + second) == history(history(r, first), second),
        forall|u: Did, a: Action| #[trigger] history(r, seq![(u, a)]) == step(r, u, a),
    decreases second.len(),
{
    if second.len() == 0 {
        assert(first + second =~= first);
    } else {
        law_history_follows_its_order(r, first, second.drop_last());
        assert((first + second).drop_last() =~= first + second.drop_last());
    }
    assert forall|u: Did, a: Action| #[trigger] history(r, seq![(u, a)]) == step(r, u, a) by {
        assert(seq![(u, a)].drop_last() =~= Seq::<(Did, Action)>::empty());
        reveal_with_fuel(history, 2);
    }
}

/// What an action on an artifact does to a release that no artifact occurs twice in: it
/// changes that artifact alone, or adds it.
pub proof fn lemma_step_effect(r: ReleaseView, user: Did, action: Action)
    requires
        r.distinct(),
        subject(action) is Some,
    ensures
        ({
            let s = step(r, user, action);
            let on = subject(action)->0;
            &&& s.distinct()
            &&& forall|cid: Cid|
                cid != on ==> (#[trigger] s.has(cid) <==> r.has(cid)) && (r.has(cid) ==> s.get(cid)
                    == r.get(cid))
            &&& r.has(on) ==> s.has(on) && s.get(on) == artifact_step(r.get(on), user, action)
            &&& !r.has(on) ==> match action {
                Action::RegisterArtifact { name, .. } => s.has(on) && s.get(on) == new_artifact(
                    user,
                    name@,
                ),
                _ => s == r,
            }
        }),
{
    let s = step(r, user, action);
    let on = subject(action)->0;
    if r.has(on) {
        lemma_step_get(r, user, action, on);
    } else if let Action::RegisterArtifact { cid, name } = action {
        let n = r.artifacts.len() as int;
        assert(s.artifacts[n] == (on, new_artifact(user, name@)));
        assert forall|i: int, j: int| 0 <= i < j < s.artifacts.len() implies #[trigger] s.artifacts[i].0
            != #[trigger] s.artifacts[j].0 by {
            assert(r.artifacts[i].0 == s.artifacts[i].0);
            if j < n {
                assert(r.artifacts[i].0 != r.artifacts[j].0);
            }
        }
        lemma_get(s, on, n);
    }
    assert forall|cid: Cid| cid != on implies (#[trigger] s.has(cid) <==> r.has(cid)) && (r.has(
        cid,
    ) ==> s.get(cid) == r.get(cid)) by {
        if r.has(cid) {
            let i = choose|i: int| 0 <= i < r.artifacts.len() && #[trigger] r.artifacts[i].0 == cid;
            lemma_step_at(r, user, action, i);
            lemma_get(r, cid, i);
            lemma_get(s, cid, i);
        }
        if s.has(cid) {
            let i = choose|i: int| 0 <= i < s.artifacts.len() && #[trigger] s.artifacts[i].0 == cid;
            if i < r.artifacts.len() {
                lemma_step_at(r, user, action, i);
                assert(r.artifacts[i].0 == cid);
            }
        }
    }
}

/// What a user attests of an artifact counts unless they are its author or have redacted it
/// themselves: however many others have redacted it, the user is among those who attest to
/// it afterwards, and so is everyone who was.
pub proof fn law_others_cannot_keep_one_from_attesting(a: ArtifactView, user: Did, cid: Cid)
    requires
        user != a.author,
        !a.redactions.contains_key(user),
    ensures
        artifact_step(a, user, Action::Attest { cid }).attestations.contains(user),
        forall|d: Did| #[trigger]
            a.attestations.contains(d) ==> artifact_step(
                a,
                user,
                Action::Attest { cid },
            ).attestations.contains(d),
        artifact_step(a, user, Action::Attest { cid }).redactions == a.redactions,
{
}

/// A release that was created is of its commit and has its tag, its creator and its time,
/// and nothing is registered in it.
pub proof fn law_a_new_release_has_no_artifacts(
    oid: Oid,
    tag: Option<Oid>,
    creator: Did,
    timestamp: u64,
    cid: Cid,
)
    ensures
        ({
            let r = new_release(oid, tag, creator, timestamp);
            &&& r.oid == oid && r.tag == tag && r.creator == creator && r.timestamp == timestamp
            &&& !r.has(cid)
            &&& r.distinct()
        }),
{
}

} // verus!
