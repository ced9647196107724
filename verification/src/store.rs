//! The releases of a repository, and how they are changed.

use crate::error::{Build, Create, Metadata, Redact};
use crate::ids::{Cid, Did, Oid, ReleaseId};
use crate::json::Json;
use crate::laws::{
    law_actions_follow_one_another, law_attestation_is_recorded, law_location_is_recorded,
    law_metadata_is_recorded, law_redaction_is_recorded,
};
use crate::location::Url;
use crate::release::{
    finite_locations, listing, new_release, step, steps, Action, Artifact, ArtifactView, Op,
    Release, ReleaseView,
};
use crate::retrieval::lemma_listing;
use crate::seqs::{lemma_add_has, lemma_last_splits, lemma_map_has, lemma_push_has};
use crate::text::{chars_of, decimal_text};
use crate::watch::METADATA_KEY_SIZE_BYTES;
use vstd::prelude::*;

verus! {

/// The greatest length of a redaction reason in bytes.
pub const MAX_REDACT_REASON_LEN: usize = 2048;

/// The greatest length of a metadata key in bytes.
pub const MAX_METADATA_KEY_LEN: usize = 256;

/// The greatest length of a serialized metadata value in bytes.
pub const MAX_METADATA_VALUE_LEN: usize = 8192;

/// Whether a character is a control character: of Unicode's general category `Cc`.
pub open spec fn is_control(c: char) -> bool {
    c <= '\u{1f}' || '\u{7f}' <= c <= '\u{9f}'
}

/// The place of the first control character of `s`, or its length.
pub open spec fn first_control(s: Seq<char>) -> int
    decreases s.len(),
{
    if s.len() == 0 || is_control(s[0]) {
        0
    } else {
        1 + first_control(s.drop_first())
    }
}

proof fn lemma_first_control(s: Seq<char>, n: int)
    requires
        0 <= n <= s.len(),
        forall|i: int| 0 <= i < n ==> !is_control(s[i]),
        n == s.len() || is_control(s[n]),
    ensures
        first_control(s) == n,
    decreases n,
{
    if n > 0 {
        lemma_first_control(s.drop_first(), n - 1);
    }
}

/// The length of a text in bytes.
pub open spec fn byte_len(s: Seq<char>) -> nat {
    vstd::utf8::encode_utf8(s).len()
}

/// What is wrong with a metadata key.
pub open spec fn key_fault(key: Seq<char>) -> Option<Metadata> {
    if key.len() == 0 {
        Some(Metadata::EmptyKey)
    } else if byte_len(key) > MAX_METADATA_KEY_LEN {
        Some(Metadata::KeyTooLong { actual: byte_len(key) as usize, max: MAX_METADATA_KEY_LEN })
    } else if first_control(key) < key.len() {
        Some(Metadata::KeyControlChar { ch: key[first_control(key)] })
    } else {
        None
    }
}

/// What is wrong with a metadata value.
pub open spec fn value_fault(value: Seq<char>) -> Option<Metadata> {
    if byte_len(value) > MAX_METADATA_VALUE_LEN {
        Some(
            Metadata::ValueTooLarge {
                actual: byte_len(value) as usize,
                max: MAX_METADATA_VALUE_LEN,
            },
        )
    } else {
        None
    }
}

/// Refuses a metadata key that is empty, is too long or has a control character.
pub fn validate_metadata_key(key: &str) -> (r: Result<(), Metadata>)
    ensures
        match r {
            Ok(()) => key_fault(key@) is None,
            Err(e) => key_fault(key@) == Some(e),
        },
{
    if key.is_empty() {
        return Err(Metadata::EmptyKey);
    }
    let bytes: usize = key.as_bytes().len();
    if bytes > MAX_METADATA_KEY_LEN {
        return Err(Metadata::KeyTooLong { actual: bytes, max: MAX_METADATA_KEY_LEN });
    }
    let chars = chars_of(key);
    let mut i: usize = 0;
    while i < chars.len()
        invariant
            i <= chars@.len(),
            chars@ == key@,
            key@.len() > 0,
            byte_len(key@) <= MAX_METADATA_KEY_LEN,
            forall|j: int| 0 <= j < i ==> !is_control(chars@[j]),
        decreases chars@.len() - i,
    {
        let c = chars[i];
        if c <= '\u{1f}' || ('\u{7f}' <= c && c <= '\u{9f}') {
            proof {
                lemma_first_control(key@, i as int);
            }
            return Err(Metadata::KeyControlChar { ch: c });
        }
        i += 1;
    }
    proof {
        lemma_first_control(key@, i as int);
    }
    Ok(())
}

/// Refuses a metadata value whose serialization is too long.
pub fn validate_metadata_value_size(value: &Json) -> (r: Result<(), Metadata>)
    ensures
        match r {
            Ok(()) => value_fault(value@) is None,
            Err(e) => value_fault(value@) == Some(e),
        },
{
    let actual: usize = value.as_text().as_bytes().len();
    if actual > MAX_METADATA_VALUE_LEN {
        return Err(Metadata::ValueTooLarge { actual, max: MAX_METADATA_VALUE_LEN });
    }
    Ok(())
}

/// What the repository has under the id of a tag.
#[derive(Clone, Copy, PartialEq, Eq, Debug, Structural)]
pub enum TagTarget {
    /// No annotated tag.
    Missing,
    /// An annotated tag that leads to no commit.
    Unpeelable,
    /// An annotated tag that leads to this commit.
    Commit(Oid),
}

/// The action that creates a release of the commit `oid`. `tag` is an annotated tag
/// to record, beside what the repository has under its id: it must lead to the
/// commit.
pub fn create_action(oid: Oid, tag: Option<(Oid, TagTarget)>) -> (r: Result<Action, Create>)
    ensures
        r == (match tag {
            None => Ok::<Action, Create>(Action::Create { oid, tag: None }),
            Some((tag, TagTarget::Missing)) => Err(Create::MissingTag { tag }),
            Some((tag, TagTarget::Unpeelable)) => Err(Create::PeelFailed { tag }),
            Some((tag, TagTarget::Commit(actual))) => if actual == oid {
                Ok(Action::Create { oid, tag: Some(tag) })
            } else {
                Err(Create::TagMismatch { tag, expected: oid, actual })
            },
        }),
{
    match tag {
        None => Ok(Action::Create { oid, tag: None }),
        Some((tag, TagTarget::Missing)) => Err(Create::MissingTag { tag }),
        Some((tag, TagTarget::Unpeelable)) => Err(Create::PeelFailed { tag }),
        Some((tag, TagTarget::Commit(actual))) => if actual == oid {
            Ok(Action::Create { oid, tag: Some(tag) })
        } else {
            Err(Create::TagMismatch { tag, expected: oid, actual })
        },
    }
}

/// A release that is being changed. Every change gives back the actions to be
/// signed, and applies them.
pub struct ReleaseMut {
    /// The identifier of the release.
    pub id: ReleaseId,
    /// The release as changed so far.
    pub release: Release,
}

impl ReleaseMut {
    /// The identifier of the release.
    pub fn id(&self) -> (r: &ReleaseId)
        ensures
            *r == self.id,
    {
        &self.id
    }

    /// The artifact `cid`.
    pub fn artifact(&self, cid: &Cid) -> (r: Option<&Artifact>)
        ensures
            match r {
                Some(a) => self.release@.has(*cid) && a@ == self.release@.get(*cid),
                None => !self.release@.has(*cid),
            },
    {
        self.release.artifact(cid)
    }

    /// Takes over the release as it is stored now. Where it is not stored any more,
    /// nothing changes.
    pub fn reload(&mut self, stored: Option<Release>) -> (r: Result<(), ReleaseId>)
        ensures
            final(self).id == old(self).id,
            match stored {
                Some(release) => r is Ok && final(self).release == release,
                None => r == Err::<(), ReleaseId>(old(self).id) && *final(self) == *old(self),
            },
    {
        match stored {
            Some(release) => {
                self.release = release;
                Ok(())
            },
            None => Err(self.id),
        }
    }

    /// Applies actions of `author` and gives them back.
    fn transaction(&mut self, author: Did, actions: Vec<Action>) -> (r: Vec<Action>)
        ensures
            r@ == actions@,
            final(self).id == old(self).id,
            final(self).release@ == steps(old(self).release@, author, actions@),
            old(self).release@.distinct(),
    {
        let mut copy: Vec<Action> = Vec::new();
        let mut i: usize = 0;
        while i < actions.len()
            invariant
                i <= actions@.len(),
                copy@ == actions@.take(i as int),
            decreases actions@.len() - i,
        {
            copy.push(actions[i].clone());
            i += 1;
            assert(copy@ =~= actions@.take(i as int));
        }
        assert(copy@ =~= actions@);
        self.release.op(Op { author, timestamp: 0, actions });
        copy
    }

    /// Registers an artifact.
    pub fn register_artifact(&mut self, cid: Cid, name: String, author: Did) -> (r: Vec<Action>)
        ensures
            r@ == seq![Action::RegisterArtifact { cid, name }],
            final(self).id == old(self).id,
            final(self).release@ == steps(old(self).release@, author, r@),
            old(self).release@.distinct(),
    {
        self.transaction(author, vec![Action::RegisterArtifact { cid, name }])
    }

    /// Registers an artifact and records its size, in one operation.
    pub fn register_artifact_with_size(
        &mut self,
        cid: Cid,
        name: String,
        size_bytes: u64,
        author: Did,
    ) -> (r: Vec<Action>)
        ensures
            r@.len() == 2,
            r@[0] == (Action::RegisterArtifact { cid, name }),
            r@[1] matches Action::SetMetadata { cid: on, key, value } && on == cid && key@
                == METADATA_KEY_SIZE_BYTES@ && value@ == decimal_text(size_bytes as nat),
            final(self).id == old(self).id,
            final(self).release@ == steps(old(self).release@, author, r@),
            old(self).release@.distinct(),
    {
        self.transaction(
            author,
            vec![
                Action::RegisterArtifact { cid, name },
                Action::SetMetadata {
                    cid,
                    key: METADATA_KEY_SIZE_BYTES.to_owned(),
                    value: Json::number(size_bytes),
                },
            ],
        )
    }

    /// Adds a discovery location.
    pub fn add_location(&mut self, cid: Cid, location: Url, author: Did) -> (r: Vec<Action>)
        ensures
            r@ == seq![Action::AddLocation { cid, location }],
            final(self).id == old(self).id,
            final(self).release@ == steps(old(self).release@, author, r@),
            old(self).release@.has(cid) ==> final(self).release@.has(cid) && final(self)
                .release@.get(cid).locations.contains_key(author) && final(self).release@.get(cid)
                .locations[author].contains(location@),
    {
        let ghost r = self.release@;
        let done = self.transaction(author, vec![Action::AddLocation { cid, location }]);
        proof {
            assert(done@ =~= seq![Action::AddLocation { cid, location }]);
            law_actions_follow_one_another(r, author, Seq::empty(), Seq::empty());
            assert(steps(r, author, done@) == step(r, author, Action::AddLocation { cid, location }));
            if r.has(cid) {
                law_location_is_recorded(r, author, cid, location);
                let b = step(r, author, Action::AddLocation { cid, location }).get(cid);
                assert(b.locations.contains_key(author) && b.locations[author].contains(location@));
            }
        }
        done
    }

    /// Removes a discovery location.
    pub fn remove_location(&mut self, cid: Cid, location: Url, author: Did) -> (r: Vec<Action>)
        ensures
            r@ == seq![Action::RemoveLocation { cid, location }],
            final(self).id == old(self).id,
            final(self).release@ == steps(old(self).release@, author, r@),
    {
        self.transaction(author, vec![Action::RemoveLocation { cid, location }])
    }

    /// Attests to an artifact.
    pub fn attest(&mut self, cid: Cid, author: Did) -> (r: Vec<Action>)
        ensures
            r@ == seq![Action::Attest { cid }],
            final(self).id == old(self).id,
            final(self).release@ == steps(old(self).release@, author, r@),
            old(self).release@.has(cid) && author != old(self).release@.get(cid).author
                && !(old(self).release@.get(cid).redactions.contains_key(author)) ==> final(self)
                .release@.has(cid) && final(self).release@.get(cid).attestations.contains(author),
    {
        let ghost r = self.release@;
        let done = self.transaction(author, vec![Action::Attest { cid }]);
        proof {
            assert(done@ =~= seq![Action::Attest { cid }]);
            law_actions_follow_one_another(r, author, Seq::empty(), Seq::empty());
            assert(steps(r, author, done@) == step(r, author, Action::Attest { cid }));
            if r.has(cid) && author != r.get(cid).author && !r.get(cid).redactions.contains_key(
                author,
            ) {
                law_attestation_is_recorded(r, author, cid);
            }
        }
        done
    }

    /// Sets a metadata entry. The key and the value are checked first, in this order,
    /// and where one is refused nothing changes. Who may set metadata is for the
    /// caller to decide.
    pub fn set_metadata(&mut self, cid: Cid, key: String, value: Json, author: Did) -> (r: Result<
        Vec<Action>,
        Metadata,
    >)
        ensures
            match r {
                Ok(actions) => {
                    &&& key_fault(key@) is None
                    &&& value_fault(value@) is None
                    &&& actions@ == seq![Action::SetMetadata { cid, key, value }]
                    &&& final(self).id == old(self).id
                    &&& final(self).release@ == steps(old(self).release@, author, actions@)
                    &&& old(self).release@.has(cid) ==> final(self).release@.has(cid) && final(self)
                        .release@.get(cid).metadata.contains_key(key@) && final(self).release@.get(
                        cid,
                    ).metadata[key@] == value@
                },
                Err(e) => {
                    &&& *final(self) == *old(self)
                    &&& key_fault(key@) == Some(e) || (key_fault(key@) is None && value_fault(value@)
                        == Some(e))
                },
            },
    {
        match validate_metadata_key(key.as_str()) {
            Ok(()) => {},
            Err(e) => {
                return Err(e);
            },
        }
        match validate_metadata_value_size(&value) {
            Ok(()) => {},
            Err(e) => {
                return Err(e);
            },
        }
        let ghost r = self.release@;
        let done = self.transaction(author, vec![Action::SetMetadata { cid, key, value }]);
        proof {
            assert(done@ =~= seq![Action::SetMetadata { cid, key, value }]);
            law_actions_follow_one_another(r, author, Seq::empty(), Seq::empty());
            assert(steps(r, author, done@) == step(
                r,
                author,
                Action::SetMetadata { cid, key, value },
            ));
            if r.has(cid) {
                law_metadata_is_recorded(r, author, cid, key, value);
            }
        }
        Ok(done)
    }

    /// Removes a metadata entry. Who may do so is for the caller to decide.
    pub fn remove_metadata(&mut self, cid: Cid, key: String, author: Did) -> (r: Vec<Action>)
        ensures
            r@ == seq![Action::RemoveMetadata { cid, key }],
            final(self).id == old(self).id,
            final(self).release@ == steps(old(self).release@, author, r@),
    {
        self.transaction(author, vec![Action::RemoveMetadata { cid, key }])
    }

    /// Redacts an artifact. The release must have it, and the reason must not be too
    /// long; otherwise nothing changes.
    pub fn redact(&mut self, cid: Cid, reason: String, author: Did) -> (r: Result<
        Vec<Action>,
        Redact,
    >)
        ensures
            match r {
                Ok(actions) => {
                    &&& old(self).release@.has(cid)
                    &&& byte_len(reason@) <= MAX_REDACT_REASON_LEN
                    &&& actions@ == seq![Action::Redact { cid, reason }]
                    &&& final(self).id == old(self).id
                    &&& final(self).release@ == steps(old(self).release@, author, actions@)
                    &&& final(self).release@.has(cid)
                    &&& final(self).release@.get(cid).redactions.contains_key(author)
                    &&& final(self).release@.get(cid).redactions[author] == reason@
                },
                Err(Redact::NotFound { cid: missing }) => {
                    &&& *final(self) == *old(self)
                    &&& missing == cid
                    &&& !old(self).release@.has(cid)
                },
                Err(Redact::ReasonTooLong { actual, max }) => {
                    &&& *final(self) == *old(self)
                    &&& old(self).release@.has(cid)
                    &&& actual == byte_len(reason@)
                    &&& actual > max
                    &&& max == MAX_REDACT_REASON_LEN
                },
            },
    {
        if self.artifact(&cid).is_none() {
            return Err(Redact::NotFound { cid });
        }
        let actual: usize = reason.as_str().as_bytes().len();
        if actual > MAX_REDACT_REASON_LEN {
            return Err(Redact::ReasonTooLong { actual, max: MAX_REDACT_REASON_LEN });
        }
        let ghost r = self.release@;
        let done = self.transaction(author, vec![Action::Redact { cid, reason }]);
        proof {
            assert(done@ =~= seq![Action::Redact { cid, reason }]);
            law_actions_follow_one_another(r, author, Seq::empty(), Seq::empty());
            assert(steps(r, author, done@) == step(r, author, Action::Redact { cid, reason }));
            law_redaction_is_recorded(r, author, cid, reason);
        }
        Ok(done)
    }
}

/// A release read from a repository, or what kept it from being read.
pub type Loaded = Result<(ReleaseId, Release), String>;

/// The releases of a repository, in the order in which they were read.
pub struct Releases {
    pub items: Vec<Loaded>,
}

/// Whether every release could be read.
pub open spec fn all_read(items: Seq<Loaded>) -> bool {
    forall|i: int| 0 <= i < items.len() ==> (#[trigger] items[i]) is Ok
}

/// Whether `e` is what kept the first unreadable release from being read.
pub open spec fn first_fault(items: Seq<Loaded>, e: String) -> bool {
    exists|i: int|
        0 <= i < items.len() && #[trigger] items[i] == Err::<(ReleaseId, Release), String>(e)
            && all_read(items.take(i))
}

/// The releases that have the artifact `cid`.
pub open spec fn carrying(items: Seq<Loaded>, cid: Cid) -> Seq<(ReleaseId, Release)>
    decreases items.len(),
{
    if items.len() == 0 {
        Seq::empty()
    } else {
        let rest = carrying(items.drop_last(), cid);
        match items.last() {
            Ok((id, release)) => if release@.has(cid) {
                rest.push((id, release))
            } else {
                rest
            },
            Err(_) => rest,
        }
    }
}

/// The locations of the artifact `cid` in a release, each beside the release.
pub open spec fn release_locations(id: ReleaseId, r: ReleaseView, cid: Cid) -> Seq<
    (ReleaseId, Did, Seq<char>),
> {
    if r.has(cid) {
        listing(r.get(cid).locations).map_values(|e: (Did, Seq<char>)| (id, e.0, e.1))
    } else {
        Seq::empty()
    }
}

/// The locations of the artifact `cid` in all releases.
pub open spec fn all_locations(items: Seq<Loaded>, cid: Cid) -> Seq<(ReleaseId, Did, Seq<char>)>
    decreases items.len(),
{
    if items.len() == 0 {
        Seq::empty()
    } else {
        let rest = all_locations(items.drop_last(), cid);
        match items.last() {
            Ok((id, release)) => rest + release_locations(id, release@, cid),
            Err(_) => rest,
        }
    }
}

/// The releases of the commit `oid`, and every release that could not be read.
pub open spec fn of_commit(items: Seq<Loaded>, oid: Oid) -> Seq<Loaded>
    decreases items.len(),
{
    if items.len() == 0 {
        Seq::empty()
    } else {
        let rest = of_commit(items.drop_last(), oid);
        match items.last() {
            Ok((_, release)) => if release@.oid == oid {
                rest.push(items.last())
            } else {
                rest
            },
            Err(_) => rest.push(items.last()),
        }
    }
}

/// Whether the release `id` stands at place `i` and not before.
pub open spec fn first_at(items: Seq<Loaded>, id: ReleaseId, i: int) -> bool {
    &&& 0 <= i < items.len()
    &&& items[i] is Ok
    &&& items[i]->Ok_0.0 == id
    &&& forall|j: int| 0 <= j < i ==> ((#[trigger] items[j]) matches Ok((other, _)) ==> other != id)
}

/// No release occurs twice.
pub open spec fn distinct_ids(items: Seq<Loaded>) -> bool {
    forall|i: int, j: int|
        0 <= i < j < items.len() && (#[trigger] items[i]) is Ok && (#[trigger] items[j]) is Ok
            ==> items[i]->Ok_0.0 != items[j]->Ok_0.0
}

/// The releases with `release` in the place of the one with its id, or at the end where
/// there is none.
pub open spec fn put_into(items: Seq<Loaded>, id: ReleaseId, release: Release) -> Seq<Loaded> {
    if exists|i: int| #[trigger] first_at(items, id, i) {
        items.update(choose|i: int| #[trigger] first_at(items, id, i), Ok((id, release)))
    } else {
        items.push(Ok((id, release)))
    }
}

/// There is one first place.
proof fn lemma_put_over(items: Seq<Loaded>, id: ReleaseId, release: Release, i: int)
    requires
        first_at(items, id, i),
    ensures
        put_into(items, id, release) == items.update(i, Ok((id, release))),
{
    let at = choose|at: int| #[trigger] first_at(items, id, at);
    if at < i {
        assert(items[at] is Ok);
    } else if i < at {
        assert(items[i] is Ok);
    }
}

/// Storing a release under an id that is taken leaves no trace of the one before: to store
/// twice is to store once.
pub proof fn law_storing_again_replaces(
    items: Seq<Loaded>,
    id: ReleaseId,
    before: Release,
    after: Release,
)
    ensures
        put_into(put_into(items, id, before), id, after) == put_into(items, id, after),
{
    let once = put_into(items, id, before);
    if exists|i: int| #[trigger] first_at(items, id, i) {
        let i = choose|i: int| #[trigger] first_at(items, id, i);
        lemma_put_over(items, id, before, i);
        lemma_put_over(items, id, after, i);
        assert forall|j: int| 0 <= j < i implies ((#[trigger] once[j]) matches Ok((other, _))
            ==> other != id) by {
            assert(once[j] == items[j]);
        }
        assert(first_at(once, id, i));
        lemma_put_over(once, id, after, i);
        assert(once.update(i, Ok((id, after))) =~= items.update(i, Ok((id, after))));
    } else {
        let i = items.len() as int;
        assert forall|j: int| 0 <= j < i implies ((#[trigger] once[j]) matches Ok((other, _))
            ==> other != id) by {
            assert(once[j] == items[j]);
            if items[j] is Ok && items[j]->Ok_0.0 == id {
                lemma_stored_has_a_place(items, id, j);
            }
        }
        assert(first_at(once, id, i));
        lemma_put_over(once, id, after, i);
        assert(once.update(i, Ok((id, after))) =~= items.push(Ok((id, after))));
    }
}

/// A release that is stored has a first place.
proof fn lemma_stored_has_a_place(items: Seq<Loaded>, id: ReleaseId, j: int)
    requires
        0 <= j < items.len(),
        items[j] is Ok,
        items[j]->Ok_0.0 == id,
    ensures
        exists|i: int| #[trigger] first_at(items, id, i),
    decreases j,
{
    if forall|k: int|
        0 <= k < j ==> ((#[trigger] items[k]) matches Ok((other, _)) ==> other != id) {
        assert(first_at(items, id, j));
    } else {
        let k = choose|k: int|
            0 <= k < j && !((#[trigger] items[k]) matches Ok((other, _)) ==> other != id);
        lemma_stored_has_a_place(items, id, k);
    }
}

/// What a search for the artifact `cid` finds: the release `id`, with this state.
pub open spec fn finds(items: Seq<Loaded>, cid: Cid, id: ReleaseId, r: ReleaseView) -> bool {
    exists|k: int|
        {
            &&& 0 <= k < carrying(items, cid).len()
            &&& (#[trigger] carrying(items, cid)[k]).0 == id
            &&& carrying(items, cid)[k].1@ == r
        }
}

/// Where a release stands among those that carry an artifact.
proof fn lemma_carrying(items: Seq<Loaded>, cid: Cid)
    ensures
        forall|k: int|
            0 <= k < carrying(items, cid).len() ==> exists|i: int|
                {
                    &&& 0 <= i < items.len()
                    &&& #[trigger] items[i] == Ok::<(ReleaseId, Release), String>(
                        #[trigger] carrying(items, cid)[k],
                    )
                    &&& items[i]->Ok_0.1@.has(cid)
                },
        forall|i: int|
            0 <= i < items.len() && (#[trigger] items[i]) is Ok && items[i]->Ok_0.1@.has(cid)
                ==> carrying(items, cid).contains(items[i]->Ok_0),
    decreases items.len(),
{
    if items.len() > 0 {
        let rest = items.drop_last();
        let before = carrying(rest, cid);
        let all = carrying(items, cid);
        lemma_carrying(rest, cid);
        assert forall|k: int| 0 <= k < all.len() implies exists|i: int|
            {
                &&& 0 <= i < items.len()
                &&& #[trigger] items[i] == Ok::<(ReleaseId, Release), String>(#[trigger] all[k])
                &&& items[i]->Ok_0.1@.has(cid)
            } by {
            if k < before.len() {
                assert(before[k] == all[k]);
                let i = choose|i: int|
                    {
                        &&& 0 <= i < rest.len()
                        &&& #[trigger] rest[i] == Ok::<(ReleaseId, Release), String>(before[k])
                        &&& rest[i]->Ok_0.1@.has(cid)
                    };
                assert(items[i] == rest[i]);
            } else {
                assert(items[items.len() - 1] == Ok::<(ReleaseId, Release), String>(all[k]));
            }
        }
        assert forall|i: int|
            0 <= i < items.len() && (#[trigger] items[i]) is Ok && items[i]->Ok_0.1@.has(
                cid,
            ) implies all.contains(items[i]->Ok_0) by {
            if i < rest.len() {
                assert(rest[i] == items[i]);
                let k = choose|k: int| 0 <= k < before.len() && before[k] == items[i]->Ok_0;
                assert(all[k] == items[i]->Ok_0);
            } else {
                assert(all[all.len() - 1] == items[i]->Ok_0);
            }
        }
    }
}

/// A search for an artifact finds each release that has it, and no other; where no
/// release occurs twice, it finds each once.
pub proof fn law_search_finds_every_carrier(items: Seq<Loaded>, cid: Cid)
    ensures
        forall|id: ReleaseId, r: Release|
            carrying(items, cid).contains((id, r)) <==> r@.has(cid) && #[trigger] items.contains(
                Ok((id, r)),
            ),
        distinct_ids(items) ==> forall|j: int, k: int|
            0 <= j < k < carrying(items, cid).len() ==> (#[trigger] carrying(items, cid)[j]).0 != (
            #[trigger] carrying(items, cid)[k]).0,
    decreases items.len(),
{
    let all = carrying(items, cid);
    lemma_carrying(items, cid);
    assert forall|id: ReleaseId, r: Release| all.contains((id, r)) <==> r@.has(cid)
        && #[trigger] items.contains(Ok((id, r))) by {
        if all.contains((id, r)) {
            let k = choose|k: int| 0 <= k < all.len() && all[k] == (id, r);
            let i = choose|i: int|
                {
                    &&& 0 <= i < items.len()
                    &&& #[trigger] items[i] == Ok::<(ReleaseId, Release), String>(all[k])
                    &&& items[i]->Ok_0.1@.has(cid)
                };
            assert(items[i] == Ok::<(ReleaseId, Release), String>((id, r)));
        }
        if r@.has(cid) && items.contains(Ok((id, r))) {
            let i = choose|i: int|
                0 <= i < items.len() && items[i] == Ok::<(ReleaseId, Release), String>((id, r));
            assert(items[i] is Ok);
        }
    }
    if distinct_ids(items) && items.len() > 0 {
        let rest = items.drop_last();
        let before = carrying(rest, cid);
        assert forall|i: int, j: int|
            0 <= i < j < rest.len() && (#[trigger] rest[i]) is Ok && (
            #[trigger] rest[j]) is Ok implies rest[i]->Ok_0.0 != rest[j]->Ok_0.0 by {
            assert(rest[i] == items[i] && rest[j] == items[j]);
        }
        law_search_finds_every_carrier(rest, cid);
        lemma_carrying(rest, cid);
        assert forall|j: int, k: int| 0 <= j < k < all.len() implies (#[trigger] all[j]).0 != (
        #[trigger] all[k]).0 by {
            assert(all[j] == before[j]);
            if k < before.len() {
                assert(all[k] == before[k]);
            } else {
                let i = choose|i: int|
                    {
                        &&& 0 <= i < rest.len()
                        &&& #[trigger] rest[i] == Ok::<(ReleaseId, Release), String>(before[j])
                        &&& rest[i]->Ok_0.1@.has(cid)
                    };
                assert(items[i] == rest[i]);
                assert(items[i] is Ok && items[items.len() - 1] is Ok);
            }
        }
    }
}

impl Releases {
    /// The number of releases, those that could not be read among them.
    pub fn count(&self) -> (r: usize)
        ensures
            r == self.items@.len(),
    {
        self.items.len()
    }

    /// A new release of the commit `oid` that `author` has created. `tag` is an
    /// annotated tag to record, beside what the repository has under its id: it must
    /// lead to the commit. `has_commit` says whether the repository has the commit.
    pub fn create(
        id: ReleaseId,
        oid: Oid,
        has_commit: bool,
        tag: Option<(Oid, TagTarget)>,
        author: Did,
        timestamp: u64,
    ) -> (r: Result<ReleaseMut, Create>)
        ensures
            match r {
                Ok(created) => {
                    &&& created.id == id
                    &&& has_commit
                    &&& match tag {
                        None => created.release@ == new_release(oid, None, author, timestamp),
                        Some((tag, target)) => target == TagTarget::Commit(oid) && created.release@
                            == new_release(oid, Some(tag), author, timestamp),
                    }
                },
                Err(Create::Build(e)) => {
                    &&& !has_commit
                    &&& e == (Build::MissingCommit { oid })
                    &&& tag matches Some((_, target)) ==> target == TagTarget::Commit(oid)
                },
                Err(e) => match tag {
                    None => false,
                    Some((tag, TagTarget::Missing)) => e == (Create::MissingTag { tag }),
                    Some((tag, TagTarget::Unpeelable)) => e == (Create::PeelFailed { tag }),
                    Some((tag, TagTarget::Commit(actual))) => actual != oid && e == (
                    Create::TagMismatch { tag, expected: oid, actual }),
                },
            },
    {
        let action = match create_action(oid, tag) {
            Ok(action) => action,
            Err(e) => {
                return Err(e);
            },
        };
        let op = Op { author, timestamp, actions: vec![action] };
        assert(op.actions@.skip(1) =~= Seq::empty());
        match Release::from_root(op, has_commit) {
            Ok(release) => Ok(ReleaseMut { id, release }),
            Err(e) => Err(Create::Build(e)),
        }
    }

    /// Takes the release `id` out, to be changed. Where it was not read, nothing
    /// changes and its id comes back.
    pub fn get_mut(&mut self, id: &ReleaseId) -> (r: Result<ReleaseMut, ReleaseId>)
        ensures
            match r {
                Ok(taken) => exists|i: int|
                    {
                        &&& #[trigger] first_at(old(self).items@, *id, i)
                        &&& taken.id == *id
                        &&& taken.release == old(self).items@[i]->Ok_0.1
                        &&& final(self).items@ == old(self).items@.remove(i)
                        &&& distinct_ids(old(self).items@) ==> distinct_ids(final(self).items@)
                    },
                Err(missing) => {
                    &&& missing == *id
                    &&& *final(self) == *old(self)
                    &&& forall|i: int| !#[trigger] first_at(old(self).items@, *id, i)
                },
            },
    {
        let ghost items = self.items@;
        let mut i: usize = 0;
        while i < self.items.len()
            invariant
                i <= self.items@.len(),
                self.items@ == items,
                *self == *old(self),
                forall|j: int|
                    0 <= j < i ==> ((#[trigger] items[j]) matches Ok((other, _)) ==> other != *id),
            decreases self.items@.len() - i,
        {
            let here = match &self.items[i] {
                Ok((other, _)) => *other == *id,
                Err(_) => false,
            };
            if here {
                assert(first_at(items, *id, i as int));
                let taken = self.items.remove(i);
                proof {
                    let now = self.items@;
                    if distinct_ids(items) {
                        assert forall|j: int, k: int|
                            0 <= j < k < now.len() && (#[trigger] now[j]) is Ok && (
                            #[trigger] now[k]) is Ok implies now[j]->Ok_0.0 != now[k]->Ok_0.0 by {
                            let a = if j < i { j } else { j + 1 };
                            let b = if k < i { k } else { k + 1 };
                            assert(now[j] == items[a] && now[k] == items[b]);
                        }
                    }
                }
                match taken {
                    Ok((id, release)) => {
                        return Ok(ReleaseMut { id, release });
                    },
                    Err(_) => {
                        assert(false);
                    },
                }
            }
            i += 1;
        }
        assert forall|i: int| !#[trigger] first_at(items, *id, i) by {
            if 0 <= i < items.len() {
                assert(items[i] matches Ok((other, _)) ==> other != *id);
            }
        }
        Err(*id)
    }

    /// Puts a release into the place of the one with its id, or adds it where there is
    /// none. So no release comes to occur twice.
    pub fn put(&mut self, changed: ReleaseMut)
        ensures
            final(self).items@ == put_into(old(self).items@, changed.id, changed.release),
            distinct_ids(old(self).items@) ==> distinct_ids(final(self).items@),
    {
        let ghost items = self.items@;
        let mut i: usize = 0;
        while i < self.items.len()
            invariant
                i <= self.items@.len(),
                self.items@ == items,
                items == old(self).items@,
                forall|j: int|
                    0 <= j < i ==> ((#[trigger] items[j]) matches Ok((other, _)) ==> other
                        != changed.id),
            decreases self.items@.len() - i,
        {
            let here = match &self.items[i] {
                Ok((other, _)) => *other == changed.id,
                Err(_) => false,
            };
            if here {
                proof {
                    assert(first_at(items, changed.id, i as int));
                    lemma_put_over(items, changed.id, changed.release, i as int);
                }
                self.items.set(i, Ok((changed.id, changed.release)));
                proof {
                    if distinct_ids(items) {
                        let now = self.items@;
                        assert forall|j: int, k: int|
                            0 <= j < k < now.len() && (#[trigger] now[j]) is Ok && (
                            #[trigger] now[k]) is Ok implies now[j]->Ok_0.0 != now[k]->Ok_0.0 by {
                            assert(items[j] is Ok && items[k] is Ok);
                        }
                    }
                }
                return;
            }
            i += 1;
        }
        proof {
            assert forall|i: int| !#[trigger] first_at(items, changed.id, i) by {
                if 0 <= i < items.len() {
                    assert(items[i] matches Ok((other, _)) ==> other != changed.id);
                }
            }
        }
        self.items.push(Ok((changed.id, changed.release)));
        proof {
            if distinct_ids(items) {
                let now = self.items@;
                assert forall|j: int, k: int|
                    0 <= j < k < now.len() && (#[trigger] now[j]) is Ok && (
                    #[trigger] now[k]) is Ok implies now[j]->Ok_0.0 != now[k]->Ok_0.0 by {
                    assert(items[j] == now[j]);
                    if k < items.len() {
                        assert(items[k] == now[k]);
                    }
                }
            }
        }
    }

    /// The release `id`, where it was read.
    pub fn get(&self, id: &ReleaseId) -> (r: Option<&Release>)
        ensures
            match r {
                Some(release) => exists|i: int|
                    0 <= i < self.items@.len() && (#[trigger] self.items@[i]) == Ok::<
                        (ReleaseId, Release),
                        String,
                    >((*id, *release)) && forall|j: int|
                        0 <= j < i ==> ((#[trigger] self.items@[j]) matches Ok((other, _))
                            ==> other != *id),
                None => forall|i: int|
                    0 <= i < self.items@.len() ==> ((#[trigger] self.items@[i]) matches Ok(
                        (other, _),
                    ) ==> other != *id),
            },
    {
        let mut i: usize = 0;
        while i < self.items.len()
            invariant
                i <= self.items@.len(),
                forall|j: int|
                    0 <= j < i ==> ((#[trigger] self.items@[j]) matches Ok((other, _)) ==> other
                        != *id),
            decreases self.items@.len() - i,
        {
            match &self.items[i] {
                Ok((other, release)) => {
                    if *other == *id {
                        assert(self.items@[i as int] == Ok::<(ReleaseId, Release), String>(
                            (*id, *release),
                        ));
                        return Some(release);
                    }
                },
                Err(_) => {},
            }
            i += 1;
        }
        None
    }

    /// The places of the releases of the commit `wanted`, and of every release that
    /// could not be read.
    pub fn find_by_commit(&self, wanted: Oid) -> (r: Vec<&Loaded>)
        ensures
            r@.map_values(|e: &Loaded| *e) == of_commit(self.items@, wanted),
    {
        let mut out: Vec<&Loaded> = Vec::new();
        let mut i: usize = 0;
        while i < self.items.len()
            invariant
                i <= self.items@.len(),
                out@.map_values(|e: &Loaded| *e) == of_commit(self.items@.take(i as int), wanted),
            decreases self.items@.len() - i,
        {
            let ghost before = out@;
            let keep = match &self.items[i] {
                Ok((_, release)) => *release.oid() == wanted,
                Err(_) => true,
            };
            assert(self.items@.take(i + 1).drop_last() =~= self.items@.take(i as int));
            if keep {
                out.push(&self.items[i]);
                assert(out@.map_values(|e: &Loaded| *e) =~= before.map_values(
                    |e: &Loaded| *e,
                ).push(self.items@[i as int]));
            }
            i += 1;
        }
        assert(self.items@.take(i as int) =~= self.items@);
        out
    }

    /// The releases that have the artifact `cid`. Where a release cannot be read, its
    /// error instead.
    pub fn find_by_cid(&self, cid: &Cid) -> (r: Result<Vec<(ReleaseId, &Release)>, &String>)
        ensures
            match r {
                Ok(found) => {
                    &&& all_read(self.items@)
                    &&& found@.map_values(|e: (ReleaseId, &Release)| (e.0, *e.1)) == carrying(
                        self.items@,
                        *cid,
                    )
                },
                Err(e) => first_fault(self.items@, *e),
            },
    {
        let mut out: Vec<(ReleaseId, &Release)> = Vec::new();
        let mut i: usize = 0;
        while i < self.items.len()
            invariant
                i <= self.items@.len(),
                all_read(self.items@.take(i as int)),
                out@.map_values(|e: (ReleaseId, &Release)| (e.0, *e.1)) == carrying(
                    self.items@.take(i as int),
                    *cid,
                ),
            decreases self.items@.len() - i,
        {
            let ghost before = out@;
            assert(self.items@.take(i + 1).drop_last() =~= self.items@.take(i as int));
            match &self.items[i] {
                Ok((id, release)) => {
                    if release.artifact(cid).is_some() {
                        out.push((*id, release));
                        assert(out@.map_values(|e: (ReleaseId, &Release)| (e.0, *e.1))
                            =~= before.map_values(
                            |e: (ReleaseId, &Release)| (e.0, *e.1),
                        ).push((*id, *release)));
                    }
                },
                Err(e) => {
                    assert(self.items@[i as int] == Err::<(ReleaseId, Release), String>(*e));
                    return Err(e);
                },
            }
            assert forall|j: int| 0 <= j < i + 1 implies (#[trigger] self.items@.take(
                i + 1,
            )[j]) is Ok by {
                if j < i {
                    assert(self.items@.take(i as int)[j] is Ok);
                }
            }
            i += 1;
        }
        assert(self.items@.take(i as int) =~= self.items@);
        Ok(out)
    }

    /// Every discovery location of the artifact `cid`, beside the release and the
    /// contributor. Where a release cannot be read, its error instead.
    pub fn locations_for(&self, cid: &Cid) -> (r: Result<Vec<(ReleaseId, Did, &Url)>, &String>)
        ensures
            match r {
                Ok(found) => {
                    &&& all_read(self.items@)
                    &&& found@.map_values(|e: (ReleaseId, Did, &Url)| (e.0, e.1, e.2@))
                        == all_locations(self.items@, *cid)
                },
                Err(e) => first_fault(self.items@, *e),
            },
    {
        let mut out: Vec<(ReleaseId, Did, &Url)> = Vec::new();
        let ghost plain = |e: (ReleaseId, Did, &Url)| (e.0, e.1, e.2@);
        let mut i: usize = 0;
        while i < self.items.len()
            invariant
                i <= self.items@.len(),
                plain == (|e: (ReleaseId, Did, &Url)| (e.0, e.1, e.2@)),
                all_read(self.items@.take(i as int)),
                out@.map_values(plain) == all_locations(self.items@.take(i as int), *cid),
            decreases self.items@.len() - i,
        {
            let ghost before = out@;
            assert(self.items@.take(i + 1).drop_last() =~= self.items@.take(i as int));
            match &self.items[i] {
                Ok((id, release)) => {
                    let ghost here = release_locations(*id, release@, *cid);
                    match release.artifact(cid) {
                        Some(artifact) => {
                            let located = artifact.located();
                            let mut j: usize = 0;
                            assert(out@.map_values(plain) =~= before.map_values(plain) + here.take(
                                0,
                            ));
                            while j < located.len()
                                invariant
                                    j <= located@.len(),
                                    plain == (|e: (ReleaseId, Did, &Url)| (e.0, e.1, e.2@)),
                                    here.len() == located@.len(),
                                    forall|k: int|
                                        0 <= k < here.len() ==> #[trigger] here[k] == (
                                            *id,
                                            located@[k].0,
                                            located@[k].1@,
                                        ),
                                    out@.map_values(plain) == before.map_values(plain) + here.take(
                                        j as int,
                                    ),
                                decreases located@.len() - j,
                            {
                                let ghost had = out@;
                                let (did, url) = located[j];
                                out.push((*id, did, url));
                                assert(out@.map_values(plain) =~= had.map_values(plain).push(
                                    here[j as int],
                                ));
                                assert(here.take(j + 1) =~= here.take(j as int).push(
                                    here[j as int],
                                ));
                                j += 1;
                            }
                            assert(here.take(j as int) =~= here);
                        },
                        None => {
                            assert(before.map_values(plain) + here =~= before.map_values(plain));
                        },
                    }
                },
                Err(e) => {
                    assert(self.items@[i as int] == Err::<(ReleaseId, Release), String>(*e));
                    return Err(e);
                },
            }
            assert forall|j: int| 0 <= j < i + 1 implies (#[trigger] self.items@.take(
                i + 1,
            )[j]) is Ok by {
                if j < i {
                    assert(self.items@.take(i as int)[j] is Ok);
                }
            }
            i += 1;
        }
        assert(self.items@.take(i as int) =~= self.items@);
        Ok(out)
    }
}

/// The releases of a commit that a search gives are those of the commit, and every one
/// that could not be read is handed on.
pub proof fn law_search_by_commit_is_complete(items: Seq<Loaded>, oid: Oid, e: Loaded)
    ensures
        of_commit(items, oid).contains(e) <==> items.contains(e) && (e is Ok ==> e->Ok_0.1@.oid
            == oid),
    decreases items.len(),
{
    if items.len() > 0 {
        law_search_by_commit_is_complete(items.drop_last(), oid, e);
        lemma_last_splits(items);
        lemma_push_has(of_commit(items.drop_last(), oid), items.last(), e);
    }
}

/// Where a search for the locations of an artifact finds a URL, a user contributed it to
/// that artifact of that release, and every such URL is found.
pub proof fn law_every_location_is_found(
    items: Seq<Loaded>,
    cid: Cid,
    l: (ReleaseId, Did, Seq<char>),
)
    requires
        forall|i: int|
            0 <= i < items.len() && (#[trigger] items[i]) is Ok ==> items[i]->Ok_0.1@.distinct(),
    ensures
        all_locations(items, cid).contains(l) <==> exists|r: Release, a: ArtifactView|
            #![trigger items.contains(Ok((l.0, r))), r@.artifacts.contains((cid, a))]
            items.contains(Ok((l.0, r))) && r@.artifacts.contains((cid, a))
                && a.locations.contains_key(l.1) && a.locations[l.1].contains(l.2),
    decreases items.len(),
{
    if items.len() > 0 {
        let rest = items.drop_last();
        assert forall|i: int| 0 <= i < rest.len() && (#[trigger] rest[i]) is Ok implies rest[i]->Ok_0.1@.distinct() by {
            assert(items[i] is Ok);
        }
        law_every_location_is_found(rest, cid, l);
        lemma_last_splits(items);
        if let Ok((id, release)) = items.last() {
            let r = release@;
            let a = r.get(cid);
            let f = |e: (Did, Seq<char>)| (id, e.0, e.1);
            assert(items[items.len() - 1] is Ok);
            release.lemma_finite_locations();
            r.lemma_holds(cid);
            lemma_add_has(all_locations(rest, cid), release_locations(id, r, cid), l);
            if r.has(cid) {
                let k = choose|k: int| 0 <= k < r.artifacts.len() && r.artifacts[k] == (cid, a);
                assert(finite_locations(r.artifacts[k].1));
                let all = listing(a.locations);
                lemma_listing(a, (l.1, l.2));
                lemma_map_has(all, f, l);
                if all.contains((l.1, l.2)) && l.0 == id {
                    let i = choose|i: int| 0 <= i < all.len() && all[i] == (l.1, l.2);
                    assert(f(all[i]) == l);
                }
                if all.map_values(f).contains(l) {
                    let i = choose|i: int| 0 <= i < all.len() && f(#[trigger] all[i]) == l;
                    assert(all.contains(all[i]));
                }
            }
        }
    }
}

/// A metadata key is accepted exactly where it is not empty, is at most 256 bytes long and
/// has no control character; a value where its serialization is at most 8192 bytes long.
pub proof fn law_metadata_limits(key: Seq<char>, value: Seq<char>)
    ensures
        key_fault(key) is None <==> {
            &&& key.len() > 0
            &&& vstd::utf8::encode_utf8(key).len() <= 256
            &&& forall|i: int|
                0 <= i < key.len() ==> !((#[trigger] key[i]) <= '\u{1f}' || '\u{7f}' <= key[i]
                    <= '\u{9f}')
        },
        value_fault(value) is None <==> vstd::utf8::encode_utf8(value).len() <= 8192,
        match key_fault(key) {
            Some(Metadata::EmptyKey) => key.len() == 0,
            Some(Metadata::KeyTooLong { max, .. }) => max == 256 && vstd::utf8::encode_utf8(
                key,
            ).len() > 256,
            Some(Metadata::KeyControlChar { ch }) => key.contains(ch) && (ch <= '\u{1f}'
                || '\u{7f}' <= ch <= '\u{9f}'),
            Some(_) => false,
            None => true,
        },
{
    lemma_first_control_stops(key);
}

proof fn lemma_first_control_stops(s: Seq<char>)
    ensures
        0 <= first_control(s) <= s.len(),
        forall|i: int| 0 <= i < first_control(s) ==> !is_control(#[trigger] s[i]),
        first_control(s) < s.len() ==> is_control(s[first_control(s)]),
    decreases s.len(),
{
    if s.len() > 0 && !is_control(s[0]) {
        let rest = s.drop_first();
        lemma_first_control_stops(rest);
        assert forall|i: int| 0 <= i < first_control(s) implies !is_control(#[trigger] s[i]) by {
            if i > 0 {
                assert(s[i] == rest[i - 1]);
            }
        }
    }
}

/// A release that is stored is there with the state that it was stored with, and it is the
/// only one with its id where none occurred twice. Every other release, and what kept
/// others from being read, is as it was.
pub proof fn law_storing_changes_one_release(
    items: Seq<Loaded>,
    id: ReleaseId,
    release: Release,
    other: Loaded,
)
    ensures
        put_into(items, id, release).contains(Ok((id, release))),
        !(other is Ok && other->Ok_0.0 == id) ==> (put_into(items, id, release).contains(other)
            <==> items.contains(other)),
        distinct_ids(items) ==> distinct_ids(put_into(items, id, release)),
        distinct_ids(items) && other is Ok && other->Ok_0.0 == id && put_into(
            items,
            id,
            release,
        ).contains(other) ==> other->Ok_0.1 == release,
{
    let after = put_into(items, id, release);
    let stored = Ok::<(ReleaseId, Release), String>((id, release));
    if exists|i: int| #[trigger] first_at(items, id, i) {
        let i = choose|i: int| #[trigger] first_at(items, id, i);
        lemma_put_over(items, id, release, i);
        assert(after[i] == stored);
        if !(other is Ok && other->Ok_0.0 == id) {
            if items.contains(other) {
                let k = choose|k: int| 0 <= k < items.len() && items[k] == other;
                assert(after[k] == other);
            }
            if after.contains(other) {
                let k = choose|k: int| 0 <= k < after.len() && after[k] == other;
                assert(items[k] == other);
            }
        }
        if distinct_ids(items) {
            assert forall|a: int, b: int|
                0 <= a < b < after.len() && (#[trigger] after[a]) is Ok && (
                #[trigger] after[b]) is Ok implies after[a]->Ok_0.0 != after[b]->Ok_0.0 by {
                assert(items[a] is Ok && items[b] is Ok);
            }
            if other is Ok && other->Ok_0.0 == id && after.contains(other) {
                let k = choose|k: int| 0 <= k < after.len() && after[k] == other;
                if k != i {
                    assert(items[k] is Ok && items[i] is Ok);
                }
            }
        }
    } else {
        assert(after[items.len() as int] == stored);
        lemma_push_has(items, stored, other);
        assert forall|k: int|
            0 <= k < items.len() && (#[trigger] items[k]) is Ok implies items[k]->Ok_0.0 != id by {
            if items[k]->Ok_0.0 == id {
                lemma_stored_has_a_place(items, id, k);
            }
        }
        if distinct_ids(items) {
            assert forall|a: int, b: int|
                0 <= a < b < after.len() && (#[trigger] after[a]) is Ok && (
                #[trigger] after[b]) is Ok implies after[a]->Ok_0.0 != after[b]->Ok_0.0 by {
                assert(items[a] is Ok);
                if b < items.len() {
                    assert(items[b] is Ok);
                }
            }
        }
        if other is Ok && other->Ok_0.0 == id && after.contains(other) && other != stored {
            let k = choose|k: int| 0 <= k < items.len() && items[k] == other;
            assert(items[k] is Ok);
        }
    }
}

/// What is reported of a repository that could not be read is the first release that could
/// not: it is among them, and every release before it was read.
pub proof fn law_the_first_fault_is_reported(items: Seq<Loaded>, e: String)
    ensures
        first_fault(items, e) <==> exists|i: int|
            {
                &&& 0 <= i < items.len()
                &&& #[trigger] items[i] == Err::<(ReleaseId, Release), String>(e)
                &&& forall|j: int| 0 <= j < i ==> (#[trigger] items[j]) is Ok
            },
        all_read(items) <==> forall|f: String| !#[trigger] items.contains(Err(f)),
{
    if first_fault(items, e) {
        let i = choose|i: int|
            0 <= i < items.len() && #[trigger] items[i] == Err::<(ReleaseId, Release), String>(e)
                && all_read(items.take(i));
        assert forall|j: int| 0 <= j < i implies (#[trigger] items[j]) is Ok by {
            assert(items.take(i)[j] is Ok);
        }
    }
    if exists|i: int|
        {
            &&& 0 <= i < items.len()
            &&& #[trigger] items[i] == Err::<(ReleaseId, Release), String>(e)
            &&& forall|j: int| 0 <= j < i ==> (#[trigger] items[j]) is Ok
        } {
        let i = choose|i: int|
            {
                &&& 0 <= i < items.len()
                &&& #[trigger] items[i] == Err::<(ReleaseId, Release), String>(e)
                &&& forall|j: int| 0 <= j < i ==> (#[trigger] items[j]) is Ok
            };
        assert(all_read(items.take(i)));
    }
    if all_read(items) {
        assert forall|f: String| !#[trigger] items.contains(Err(f)) by {
            if items.contains(Err(f)) {
                let k = choose|k: int|
                    0 <= k < items.len() && items[k] == Err::<(ReleaseId, Release), String>(f);
                assert(items[k] is Ok);
            }
        }
    } else {
        let k = choose|k: int| 0 <= k < items.len() && !((#[trigger] items[k]) is Ok);
        let f = items[k]->Err_0;
        assert(items[k] == Err::<(ReleaseId, Release), String>(f));
        assert(items.contains(Err(f)));
    }
}

/// What a search for an artifact finds in two lists of releases, one behind the other, is
/// what it finds in the first and then in the second.
pub proof fn law_searching_goes_release_by_release(first: Seq<Loaded>, second: Seq<Loaded>, cid: Cid)
    ensures
        carrying(first + second, cid) == carrying(first, cid) + carrying(second, cid),
    decreases second.len(),
{
    if second.len() == 0 {
        assert(first + second =~= first);
        assert(carrying(first, cid) + carrying(second, cid) =~= carrying(first, cid));
    } else {
        law_searching_goes_release_by_release(first, second.drop_last(), cid);
        assert((first + second).drop_last() =~= first + second.drop_last());
        assert((first + second).last() == second.last());
        assert(carrying(first + second, cid) =~= carrying(first, cid) + carrying(second, cid));
    }
}

/// What a search for a commit finds in two lists of releases, one behind the other, is what
/// it finds in the first and then in the second.
pub proof fn law_commits_are_sought_release_by_release(first: Seq<Loaded>, second: Seq<Loaded>, oid: Oid)
    ensures
        of_commit(first + second, oid) == of_commit(first, oid) + of_commit(second, oid),
    decreases second.len(),
{
    if second.len() == 0 {
        assert(first + second =~= first);
        assert(of_commit(first, oid) + of_commit(second, oid) =~= of_commit(first, oid));
    } else {
        law_commits_are_sought_release_by_release(first, second.drop_last(), oid);
        assert((first + second).drop_last() =~= first + second.drop_last());
        assert((first + second).last() == second.last());
        assert(of_commit(first + second, oid) =~= of_commit(first, oid) + of_commit(second, oid));
    }
}

/// The locations of an artifact in two lists of releases, one behind the other, are those in
/// the first and then those in the second.
pub proof fn law_locations_are_sought_release_by_release(first: Seq<Loaded>, second: Seq<Loaded>, cid: Cid)
    ensures
        all_locations(first + second, cid) == all_locations(first, cid) + all_locations(second, cid),
    decreases second.len(),
{
    if second.len() == 0 {
        assert(first + second =~= first);
        assert(all_locations(first, cid) + all_locations(second, cid) =~= all_locations(first, cid));
    } else {
        law_locations_are_sought_release_by_release(first, second.drop_last(), cid);
        assert((first + second).drop_last() =~= first + second.drop_last());
        assert((first + second).last() == second.last());
        assert(all_locations(first + second, cid) =~= all_locations(first, cid) + all_locations(second, cid));
    }
}

/// Everything was read exactly where nothing kept a release from being read.
pub proof fn law_all_read_has_no_fault(items: Seq<Loaded>)
    ensures
        all_read(items) <==> forall|f: String| !#[trigger] items.contains(Err(f)),
{
    let e = arbitrary::<String>();
    law_the_first_fault_is_reported(items, e);
}

/// `find_by_cid` finds every release that has the artifact and no other, and it fails
/// exactly where a release could not be read.
pub proof fn law_find_by_cid_finds_every_carrier(
    releases: Releases,
    cid: Cid,
    r: Result<Vec<(ReleaseId, &Release)>, &String>,
    id: ReleaseId,
    release: Release,
)
    requires
        call_ensures(Releases::find_by_cid, (&releases, &cid), r),
    ensures
        r is Ok <==> forall|e: String| !#[trigger] releases.items@.contains(Err(e)),
        r matches Ok(found) ==> ((exists|k: int|
            0 <= k < found@.len() && (#[trigger] found@[k]).0 == id && *found@[k].1 == release)
            <==> releases.items@.contains(Ok((id, release))) && exists|a: ArtifactView| #[trigger]
            release@.artifacts.contains((cid, a))),
{
    let items = releases.items@;
    law_search_finds_every_carrier(items, cid);
    release@.lemma_holds(cid);
    match r {
        Ok(found) => {
            law_all_read_has_no_fault(items);
            let t = found@.map_values(|e: (ReleaseId, &Release)| (e.0, *e.1));
            assert(t == carrying(items, cid));
            if items.contains(Ok((id, release))) {
                assert(t.contains((id, release)) <==> release@.has(cid));
            } else {
                assert(!t.contains((id, release)));
            }
            if t.contains((id, release)) {
                let k = choose|k: int| 0 <= k < t.len() && t[k] == (id, release);
                assert(found@[k].0 == id);
            }
            if exists|k: int|
                0 <= k < found@.len() && (#[trigger] found@[k]).0 == id && *found@[k].1
                    == release {
                let k = choose|k: int|
                    0 <= k < found@.len() && (#[trigger] found@[k]).0 == id && *found@[k].1
                        == release;
                assert(t[k] == (id, release));
            }
        },
        Err(e) => {
            law_the_first_fault_is_reported(items, *e);
            let i = choose|i: int|
                {
                    &&& 0 <= i < items.len()
                    &&& #[trigger] items[i] == Err::<(ReleaseId, Release), String>(*e)
                    &&& forall|j: int| 0 <= j < i ==> (#[trigger] items[j]) is Ok
                };
            assert(items.contains(Err(*e)));
        },
    }
}

/// `find_by_commit` finds every release of the commit, and everything that could not be
/// read.
pub proof fn law_find_by_commit_finds_every_release(
    releases: Releases,
    oid: Oid,
    r: Vec<&Loaded>,
    l: Loaded,
)
    requires
        call_ensures(Releases::find_by_commit, (&releases, oid), r),
    ensures
        (exists|k: int| 0 <= k < r@.len() && *(#[trigger] r@[k]) == l)
            <==> releases.items@.contains(l) && (l is Ok ==> l->Ok_0.1@.oid == oid),
{
    law_search_by_commit_is_complete(releases.items@, oid, l);
    let t = r@.map_values(|e: &Loaded| *e);
    if t.contains(l) {
        let k = choose|k: int| 0 <= k < t.len() && t[k] == l;
        assert(*r@[k] == l);
    }
    if exists|k: int| 0 <= k < r@.len() && *(#[trigger] r@[k]) == l {
        let k = choose|k: int| 0 <= k < r@.len() && *(#[trigger] r@[k]) == l;
        assert(t[k] == l);
    }
}

/// A release is created only of a commit that the repository has, and with a tag only where
/// the tag leads to that commit.
pub proof fn law_a_tag_leads_to_the_commit(
    id: ReleaseId,
    oid: Oid,
    has_commit: bool,
    tag: Option<(Oid, TagTarget)>,
    author: Did,
    timestamp: u64,
    r: Result<ReleaseMut, Create>,
)
    requires
        call_ensures(Releases::create, (id, oid, has_commit, tag, author, timestamp), r),
    ensures
        r is Ok <==> has_commit && (tag is Some ==> (tag->0).1 == TagTarget::Commit(oid)),
        r matches Ok(made) ==> made.id == id && made.release@.oid == oid && made.release@.creator
            == author && made.release@.timestamp == timestamp && made.release@.artifacts.len() == 0
            && (tag is None ==> made.release@.tag is None) && (tag is Some ==> made.release@.tag
            == Some((tag->0).0)),
{
}

/// `get` gives the release with the id where one was read, and none where none was.
pub proof fn law_a_release_is_got_by_its_id(
    releases: Releases,
    id: ReleaseId,
    r: Option<&Release>,
    release: Release,
)
    requires
        call_ensures(Releases::get, (&releases, &id), r),
        distinct_ids(releases.items@),
    ensures
        releases.items@.contains(Ok((id, release))) ==> r == Some(&release),
        r matches Some(got) ==> releases.items@.contains(Ok((id, *got))),
{
    let items = releases.items@;
    if let Some(got) = r {
        let i = choose|i: int|
            0 <= i < items.len() && (#[trigger] items[i]) == Ok::<(ReleaseId, Release), String>(
                (id, *got),
            ) && forall|j: int|
                0 <= j < i ==> ((#[trigger] items[j]) matches Ok((other, _)) ==> other != id);
        assert(items.contains(Ok((id, *got))));
        if items.contains(Ok((id, release))) {
            let k = choose|k: int|
                0 <= k < items.len() && items[k] == Ok::<(ReleaseId, Release), String>(
                    (id, release),
                );
            if k < i {
                assert(items[k] is Ok && items[i] is Ok);
            } else if i < k {
                assert(items[i] is Ok && items[k] is Ok);
            }
        }
    } else if items.contains(Ok((id, release))) {
        let k = choose|k: int|
            0 <= k < items.len() && items[k] == Ok::<(ReleaseId, Release), String>((id, release));
        assert(items[k] is Ok);
    }
}

/// `locations_for` gives every location of an artifact in every release, with the release
/// and the contributor, and no other.
pub proof fn law_locations_for_finds_every_location(
    releases: Releases,
    cid: Cid,
    r: Result<Vec<(ReleaseId, Did, &Url)>, &String>,
    l: (ReleaseId, Did, Seq<char>),
)
    requires
        call_ensures(Releases::locations_for, (&releases, &cid), r),
        forall|i: int|
            0 <= i < releases.items@.len() && (#[trigger] releases.items@[i]) is Ok
                ==> releases.items@[i]->Ok_0.1@.distinct(),
    ensures
        r matches Ok(found) ==> ((exists|k: int|
            0 <= k < found@.len() && (#[trigger] found@[k]).0 == l.0 && found@[k].1 == l.1
                && found@[k].2@ == l.2) <==> exists|release: Release, a: ArtifactView|
            #![trigger releases.items@.contains(Ok((l.0, release))), release@.artifacts.contains((cid, a))]
            releases.items@.contains(Ok((l.0, release))) && release@.artifacts.contains((cid, a))
                && a.locations.contains_key(l.1) && a.locations[l.1].contains(l.2)),
{
    law_every_location_is_found(releases.items@, cid, l);
    if let Ok(found) = r {
        let t = found@.map_values(|e: (ReleaseId, Did, &Url)| (e.0, e.1, e.2@));
        assert(t == all_locations(releases.items@, cid));
        if t.contains(l) {
            let k = choose|k: int| 0 <= k < t.len() && t[k] == l;
            assert(found@[k].0 == l.0);
        }
        if exists|k: int|
            0 <= k < found@.len() && (#[trigger] found@[k]).0 == l.0 && found@[k].1 == l.1
                && found@[k].2@ == l.2 {
            let k = choose|k: int|
                0 <= k < found@.len() && (#[trigger] found@[k]).0 == l.0 && found@[k].1 == l.1
                    && found@[k].2@ == l.2;
            assert(t[k] == l);
        }
    }
}

} // verus!
