//! Releases: the artifacts recorded for a commit, and what users state of them.

use crate::ids::{Cid, CidParts, Did, Oid, valid_parts};
use crate::json::Json;
use crate::location::{scheme_of, Url};
use crate::error::Build;
use crate::seqs::{lemma_filter_empty, lemma_filter_step};
use crate::sorted::{in_order, lemma_finite_keys, lemma_keys_in_order, map_of, SortedMap, SortedSet};
use indexmap::IndexMap;
use vstd::prelude::*;

verus! {

broadcast use {Cid::parts_inverse, Cid::of_parts_inverse};

/// What an artifact is.
#[verifier::ext_equal]
pub struct ArtifactView {
    pub author: Did,
    pub name: Seq<char>,
    pub locations: Map<Did, Set<Seq<char>>>,
    pub attestations: Set<Did>,
    pub redactions: Map<Did, Seq<char>>,
    pub metadata: Map<Seq<char>, Seq<char>>,
}

/// What a release is. The artifacts stand in the order in which they were
/// registered.
#[verifier::ext_equal]
pub struct ReleaseView {
    pub oid: Oid,
    pub tag: Option<Oid>,
    pub creator: Did,
    pub timestamp: u64,
    pub artifacts: Seq<(Cid, ArtifactView)>,
}

/// A single artifact.
///
/// It has a human-readable name, and discovery locations that users, named by
/// their DIDs, have contributed.
pub struct Artifact {
    author: Did,
    name: String,
    locations: SortedMap<Did, SortedSet<Url>>,
    attestations: SortedSet<Did>,
    redactions: SortedMap<Did, String>,
    metadata: SortedMap<String, Json>,
}

impl View for Artifact {
    type V = ArtifactView;

    closed spec fn view(&self) -> ArtifactView {
        ArtifactView {
            author: self.author,
            name: self.name@,
            locations: self.locations@.map_values(|s: SortedSet<Url>| s@),
            attestations: self.attestations@,
            redactions: self.redactions@.map_values(|s: String| s@),
            metadata: self.metadata@.map_values(|v: Json| v@),
        }
    }
}

/// What a user can do to a release.
pub enum Action {
    /// Creates the release of a commit. It is the first action; a later one is
    /// ignored.
    Create {
        /// The commit.
        oid: Oid,
        /// An annotated tag that peels to the commit.
        tag: Option<Oid>,
    },
    /// Registers an artifact, or renames one that the user has registered.
    RegisterArtifact {
        cid: Cid,
        name: String,
    },
    /// Adds a discovery location of the user.
    AddLocation {
        cid: Cid,
        location: Url,
    },
    /// Removes a discovery location that the user has added.
    RemoveLocation {
        cid: Cid,
        location: Url,
    },
    /// Attests that the user has verified the artifact. Has no effect where the
    /// user is the author or has redacted the artifact.
    Attest {
        cid: Cid,
    },
    /// Redacts the artifact, which also withdraws the user's attestation. The
    /// reason can be amended; the redaction cannot be taken back.
    Redact {
        cid: Cid,
        reason: String,
    },
    /// Sets a metadata entry.
    SetMetadata {
        cid: Cid,
        key: String,
        value: Json,
    },
    /// Removes a metadata entry.
    RemoveMetadata {
        cid: Cid,
        key: String,
    },
}

/// The artifact that an action is about.
pub open spec fn subject(action: Action) -> Option<Cid> {
    match action {
        Action::Create { .. } => None,
        Action::RegisterArtifact { cid, .. } => Some(cid),
        Action::AddLocation { cid, .. } => Some(cid),
        Action::RemoveLocation { cid, .. } => Some(cid),
        Action::Attest { cid } => Some(cid),
        Action::Redact { cid, .. } => Some(cid),
        Action::SetMetadata { cid, .. } => Some(cid),
        Action::RemoveMetadata { cid, .. } => Some(cid),
    }
}

/// The URLs that `user` has contributed to `a`.
pub open spec fn urls_of(a: ArtifactView, user: Did) -> Set<Seq<char>> {
    if a.locations.contains_key(user) {
        a.locations[user]
    } else {
        Set::empty()
    }
}

/// A newly registered artifact.
pub open spec fn new_artifact(author: Did, name: Seq<char>) -> ArtifactView {
    ArtifactView {
        author,
        name,
        locations: Map::empty(),
        attestations: Set::empty(),
        redactions: Map::empty(),
        metadata: Map::empty(),
    }
}

/// What an action of `user` makes of the artifact that it is about.
pub open spec fn artifact_step(a: ArtifactView, user: Did, action: Action) -> ArtifactView {
    match action {
        Action::Create { .. } => a,
        Action::RegisterArtifact { name, .. } => if a.author == user {
            ArtifactView { name: name@, ..a }
        } else {
            a
        },
        Action::AddLocation { location, .. } => ArtifactView {
            locations: a.locations.insert(user, urls_of(a, user).insert(location@)),
            ..a
        },
        Action::RemoveLocation { location, .. } => {
            let rest = urls_of(a, user).remove(location@);
            if rest == Set::<Seq<char>>::empty() {
                ArtifactView { locations: a.locations.remove(user), ..a }
            } else {
                ArtifactView { locations: a.locations.insert(user, rest), ..a }
            }
        },
        Action::Attest { .. } => if user != a.author && !a.redactions.contains_key(user) {
            ArtifactView { attestations: a.attestations.insert(user), ..a }
        } else {
            a
        },
        Action::Redact { reason, .. } => ArtifactView {
            redactions: a.redactions.insert(user, reason@),
            attestations: a.attestations.remove(user),
            ..a
        },
        Action::SetMetadata { key, value, .. } => ArtifactView {
            metadata: a.metadata.insert(key@, value@),
            ..a
        },
        Action::RemoveMetadata { key, .. } => ArtifactView {
            metadata: a.metadata.remove(key@),
            ..a
        },
    }
}

impl ReleaseView {
    /// Whether the release has an artifact `cid`.
    pub open spec fn has(self, cid: Cid) -> bool {
        exists|i: int| 0 <= i < self.artifacts.len() && #[trigger] self.artifacts[i].0 == cid
    }

    /// The artifact `cid` of the release.
    pub open spec fn get(self, cid: Cid) -> ArtifactView {
        self.artifacts[choose|i: int|
            0 <= i < self.artifacts.len() && #[trigger] self.artifacts[i].0 == cid].1
    }

    /// No artifact occurs twice.
    pub open spec fn distinct(self) -> bool {
        forall|i: int, j: int|
            0 <= i < j < self.artifacts.len() ==> #[trigger] self.artifacts[i].0
                != #[trigger] self.artifacts[j].0
    }

    /// A release has an artifact under a CID where it lists one, and that is the one.
    pub proof fn lemma_holds(self, cid: Cid)
        ensures
            self.has(cid) ==> self.artifacts.contains((cid, self.get(cid))),
            forall|a: ArtifactView| #[trigger]
                self.artifacts.contains((cid, a)) ==> self.has(cid) && (self.distinct()
                    ==> self.get(cid) == a),
    {
        if self.has(cid) {
            assert(exists|i: int|
                0 <= i < self.artifacts.len() && #[trigger] self.artifacts[i] == (
                    cid,
                    self.get(cid),
                ));
        }
        assert forall|a: ArtifactView| #[trigger] self.artifacts.contains((cid, a)) implies self.has(
            cid,
        ) && (self.distinct() ==> self.get(cid) == a) by {
            let i = choose|i: int|
                0 <= i < self.artifacts.len() && self.artifacts[i] == (cid, a);
            assert(self.artifacts[i].0 == cid);
            let k = choose|k: int|
                0 <= k < self.artifacts.len() && self.artifacts[k] == (cid, self.get(cid));
            assert(self.artifacts[k].0 == cid);
            if k < i {
                assert(self.distinct() ==> self.artifacts[k].0 != self.artifacts[i].0);
            } else if i < k {
                assert(self.distinct() ==> self.artifacts[i].0 != self.artifacts[k].0);
            }
        }
    }
}

/// What an action of `user` makes of a release. An action on an artifact that the
/// release does not have does nothing, but for a registration.
pub open spec fn step(r: ReleaseView, user: Did, action: Action) -> ReleaseView {
    match subject(action) {
        None => r,
        Some(cid) => if r.has(cid) {
            ReleaseView {
                artifacts: Seq::new(
                    r.artifacts.len(),
                    |i: int|
                        if r.artifacts[i].0 == cid {
                            (cid, artifact_step(r.artifacts[i].1, user, action))
                        } else {
                            r.artifacts[i]
                        },
                ),
                ..r
            }
        } else {
            match action {
                Action::RegisterArtifact { name, .. } => ReleaseView {
                    artifacts: r.artifacts.push((cid, new_artifact(user, name@))),
                    ..r
                },
                _ => r,
            }
        },
    }
}

/// What the actions of `user`, one after the other, make of a release.
pub open spec fn steps(r: ReleaseView, user: Did, actions: Seq<Action>) -> ReleaseView
    decreases actions.len(),
{
    if actions.len() == 0 {
        r
    } else {
        step(steps(r, user, actions.drop_last()), user, actions.last())
    }
}

/// A release without artifacts.
pub open spec fn new_release(
    oid: Oid,
    tag: Option<Oid>,
    creator: Did,
    timestamp: u64,
) -> ReleaseView {
    ReleaseView { oid, tag, creator, timestamp, artifacts: Seq::empty() }
}

/// The URLs of one user, each beside the user, in order.
pub open spec fn list_one(did: Did, urls: Set<Seq<char>>) -> Seq<(Did, Seq<char>)> {
    in_order::<Url>(urls).map_values(|u: Seq<char>| (did, u))
}

/// The URLs of the users `dids`, each beside its user.
pub open spec fn list_users(m: Map<Did, Set<Seq<char>>>, dids: Seq<Did>) -> Seq<(Did, Seq<char>)>
    decreases dids.len(),
{
    if dids.len() == 0 {
        Seq::empty()
    } else {
        list_users(m, dids.drop_last()) + list_one(dids.last(), m[dids.last()])
    }
}

/// Every location beside its contributor, ordered by contributor and then by URL.
pub open spec fn listing(m: Map<Did, Set<Seq<char>>>) -> Seq<(Did, Seq<char>)> {
    list_users(m, in_order::<Did>(m.dom()))
}

/// The locations of an artifact are finitely many.
pub open spec fn finite_locations(a: ArtifactView) -> bool {
    a.locations.dom().finite() && forall|u: Did| #[trigger]
        a.locations.contains_key(u) ==> a.locations[u].finite()
}

/// What a list of locations stands for.
pub open spec fn list_view(s: Seq<(Did, &Url)>) -> Seq<(Did, Seq<char>)> {
    s.map_values(|e: (Did, &Url)| (e.0, e.1@))
}

impl Artifact {
    /// An artifact has finitely many locations.
    pub proof fn lemma_finite_locations(self)
        ensures
            finite_locations(self@),
    {
        let m = self.locations;
        lemma_finite_keys(m.seq());
        assert(self@.locations.dom() =~= m@.dom());
        assert forall|u: Did| #[trigger] self@.locations.contains_key(u) implies self@.locations[u].finite() by {
            m@[u].lemma_finite();
        }
    }

    /// The user who registered the artifact.
    pub fn author(&self) -> (r: &Did)
        ensures
            *r == self@.author,
    {
        &self.author
    }

    /// The human-readable name.
    pub fn name(&self) -> (r: &str)
        ensures
            r@ == self@.name,
    {
        self.name.as_str()
    }

    /// The discovery locations, by the user who contributed them.
    pub fn locations(&self) -> (r: &SortedMap<Did, SortedSet<Url>>)
        ensures
            r@.map_values(|s: SortedSet<Url>| s@) == self@.locations,
    {
        &self.locations
    }

    /// Every location beside its contributor, ordered by contributor and then by
    /// URL.
    pub fn located(&self) -> (r: Vec<(Did, &Url)>)
        ensures
            list_view(r@) == listing(self@.locations),
    {
        let mut out: Vec<(Did, &Url)> = Vec::new();
        let ghost m = self@.locations;
        let ghost keys = in_order::<Did>(m.dom());
        proof {
            use_type_invariant(&self.locations);
            lemma_keys_in_order(self.locations.seq());
            assert(m.dom() =~= map_of(self.locations.seq()).dom());
        }
        let mut i: usize = 0;
        while i < self.locations.len()
            invariant
                i <= self.locations.seq().len(),
                m == self@.locations,
                keys == self.locations.seq().map_values(|e: (Did, SortedSet<Url>)| e.0@),
                forall|j: int|
                    0 <= j < self.locations.seq().len() ==> self.locations@.contains_key(
                        #[trigger] self.locations.seq()[j].0@,
                    ) && self.locations@[self.locations.seq()[j].0@]
                        == self.locations.seq()[j].1,
                list_view(out@) == list_users(m, keys.take(i as int)),
            decreases self.locations.seq().len() - i,
        {
            let did = *self.locations.key_at(i);
            let urls = self.locations.value_of(i).members();
            let ghost before = out@;
            let ghost here = in_order::<Url>(m[did]);
            assert(self.locations.seq()[i as int].0@ == did);
            assert(m[did] == self.locations.seq()[i as int].1@);
            let mut j: usize = 0;
            while j < urls.len()
                invariant
                    j <= urls@.len(),
                    urls@.map_values(|u: &Url| u@) == here,
                    list_view(out@) == list_view(before) + here.take(j as int).map_values(
                        |u: Seq<char>| (did, u),
                    ),
                decreases urls@.len() - j,
            {
                let ghost prev = out@;
                out.push((did, urls[j]));
                proof {
                    let beside = |u: Seq<char>| (did, u);
                    assert(urls@.map_values(|u: &Url| u@)[j as int] == urls@[j as int]@);
                    assert(list_view(out@) =~= list_view(prev).push((did, here[j as int])));
                    assert(here.take(j + 1).map_values(beside) =~= here.take(
                        j as int,
                    ).map_values(beside).push((did, here[j as int])));
                }
                j += 1;
            }
            assert(here.take(j as int) =~= here);
            i += 1;
            assert(keys.take(i as int).drop_last() =~= keys.take(i as int - 1));
            assert(list_view(out@) =~= list_users(m, keys.take(i as int)));
        }
        assert(keys.take(i as int) =~= keys);
        out
    }

    /// Every discovery URL. The same URL occurs more than once where several users
    /// contributed it.
    pub fn all_locations(&self) -> (r: Vec<&Url>)
        ensures
            r@.map_values(|u: &Url| u@) == listing(self@.locations).map_values(
                |e: (Did, Seq<char>)| e.1,
            ),
    {
        let located = self.located();
        let ghost all = listing(self@.locations);
        let mut out: Vec<&Url> = Vec::new();
        let mut i: usize = 0;
        while i < located.len()
            invariant
                i <= located@.len(),
                list_view(located@) == all,
                out@.len() == i,
                forall|j: int| 0 <= j < i ==> (#[trigger] out@[j])@ == all[j].1,
            decreases located@.len() - i,
        {
            out.push(located[i].1);
            assert(list_view(located@)[i as int] == all[i as int]);
            i += 1;
        }
        assert(out@.map_values(|u: &Url| u@) =~= all.map_values(|e: (Did, Seq<char>)| e.1));
        out
    }

    /// The discovery URLs that `user` contributed.
    pub fn locations_of(&self, user: &Did) -> (r: Option<&SortedSet<Url>>)
        ensures
            match r {
                Some(urls) => self@.locations.contains_key(*user) && urls@
                    == self@.locations[*user],
                None => !self@.locations.contains_key(*user),
            },
    {
        self.locations.get(user)
    }

    /// The users who attest to the artifact.
    pub fn attestations(&self) -> (r: &SortedSet<Did>)
        ensures
            r@ == self@.attestations,
    {
        &self.attestations
    }

    /// Whether `user` attests to the artifact.
    pub fn is_attested_by(&self, user: &Did) -> (r: bool)
        ensures
            r == self@.attestations.contains(*user),
    {
        self.attestations.contains(user)
    }

    /// The redactions, by the user who issued them.
    pub fn redactions(&self) -> (r: &SortedMap<Did, String>)
        ensures
            r@.map_values(|s: String| s@) == self@.redactions,
    {
        &self.redactions
    }

    /// Whether `user` has redacted the artifact.
    pub fn is_redacted_by(&self, user: &Did) -> (r: bool)
        ensures
            r == self@.redactions.contains_key(*user),
    {
        self.redactions.contains_key(user)
    }

    /// The reason that `user` gave for redacting the artifact.
    pub fn redaction_by(&self, user: &Did) -> (r: Option<&str>)
        ensures
            match r {
                Some(reason) => self@.redactions.contains_key(*user) && reason@
                    == self@.redactions[*user],
                None => !self@.redactions.contains_key(*user),
            },
    {
        match self.redactions.get(user) {
            Some(reason) => Some(reason.as_str()),
            None => None,
        }
    }

    /// Whether any user has redacted the artifact.
    pub fn is_redacted(&self) -> (r: bool)
        ensures
            r == (self@.redactions != Map::<Did, Seq<char>>::empty()),
    {
        let r = !self.redactions.is_empty();
        proof {
            if r {
                let k = choose|k: Did| self.redactions@.contains_key(k);
                if forall|k: Did| !self.redactions@.contains_key(k) {
                    assert(self.redactions@ =~= Map::<Did, String>::empty());
                }
                assert(self@.redactions.contains_key(k));
            } else {
                assert(self@.redactions =~= Map::<Did, Seq<char>>::empty());
            }
        }
        r
    }

    /// The metadata entries.
    pub fn metadata(&self) -> (r: &SortedMap<String, Json>)
        ensures
            r@.map_values(|v: Json| v@) == self@.metadata,
    {
        &self.metadata
    }

    /// The locations whose URL has the given scheme, each beside its contributor,
    /// ordered by contributor and then by URL.
    pub fn locations_by_scheme(&self, scheme: &str) -> (r: Vec<(&Url, Did)>)
        ensures
            r@.map_values(|e: (&Url, Did)| (e.1, e.0@)) == listing(self@.locations).filter(
                |e: (Did, Seq<char>)| scheme_of(e.1) == scheme@,
            ),
    {
        let located = self.located();
        let ghost all = listing(self@.locations);
        let ghost keep = |e: (Did, Seq<char>)| scheme_of(e.1) == scheme@;
        let wanted = scheme.to_owned();
        let ghost plain = |e: (&Url, Did)| (e.1, e.0@);
        let mut out: Vec<(&Url, Did)> = Vec::new();
        proof {
            lemma_filter_empty(all, keep);
        }
        let mut i: usize = 0;
        while i < located.len()
            invariant
                i <= located@.len(),
                wanted@ == scheme@,
                list_view(located@) == all,
                keep == (|e: (Did, Seq<char>)| scheme_of(e.1) == scheme@),
                plain == (|e: (&Url, Did)| (e.1, e.0@)),
                out@.map_values(plain) == all.take(i as int).filter(keep),
            decreases located@.len() - i,
        {
            let (did, url) = located[i];
            proof {
                lemma_filter_step(all, i as int, keep);
                assert(list_view(located@)[i as int] == all[i as int]);
            }
            let ghost before = out@;
            if url.scheme() == wanted {
                out.push((url, did));
                assert(out@.map_values(plain) =~= before.map_values(plain).push((did, url@)));
            }
            i += 1;
        }
        assert(all.take(i as int) =~= all);
        out
    }

    /// An artifact that `author` has just registered.
    fn new(author: Did, name: String) -> (r: Artifact)
        ensures
            r@ == new_artifact(author, name@),
    {
        let r = Artifact {
            author,
            name,
            locations: SortedMap::new(),
            attestations: SortedSet::new(),
            redactions: SortedMap::new(),
            metadata: SortedMap::new(),
        };
        assert(r@ =~= new_artifact(author, name@));
        r
    }

    /// Applies an action of `user` that is about this artifact.
    fn apply(&mut self, user: Did, action: Action)
        ensures
            final(self)@ == artifact_step(old(self)@, user, action),
            final(self)@.author == old(self)@.author,
            action is Attest && user != old(self)@.author && !old(self)@.redactions.contains_key(
                user,
            ) ==> final(self)@.attestations.contains(user),
            action matches Action::Redact { reason, .. } ==> final(self)@.redactions.contains_key(
                user,
            ) && final(self)@.redactions[user] == reason@ && !final(self)@.attestations.contains(
                user,
            ),
            action matches Action::AddLocation { location, .. } ==> final(self)@.locations
                .contains_key(user) && final(self)@.locations[user].contains(location@),
    {
        let ghost before = *self;
        let ghost what = action;
        match action {
            Action::Create { .. } => {},
            Action::RegisterArtifact { name, .. } => {
                if self.author == user {
                    self.name = name;
                }
            },
            Action::AddLocation { location, .. } => {
                let mut urls = match self.locations.remove(&user) {
                    Some(urls) => urls,
                    None => SortedSet::new(),
                };
                urls.insert(location);
                self.locations.insert(user, urls);
            },
            Action::RemoveLocation { location, .. } => {
                match self.locations.remove(&user) {
                    Some(mut urls) => {
                        urls.remove(&location);
                        if !urls.is_empty() {
                            self.locations.insert(user, urls);
                        }
                    },
                    None => {
                        assert(urls_of(before@, user).remove(location@) =~= Set::empty());
                    },
                }
            },
            Action::Attest { .. } => {
                if user != self.author && !self.redactions.contains_key(&user) {
                    self.attestations.insert(user);
                }
            },
            Action::Redact { reason, .. } => {
                self.redactions.insert(user, reason);
                self.attestations.remove(&user);
            },
            Action::SetMetadata { key, value, .. } => {
                self.metadata.insert(key, value);
            },
            Action::RemoveMetadata { key, .. } => {
                self.metadata.remove(&key);
            },
        }
        assert(self@ =~= artifact_step(before@, user, what));
    }
}

/// An `indexmap::IndexMap`: a map that hands out its entries in the order in which
/// their keys were first inserted.
#[verifier::external_type_specification]
#[verifier::external_body]
#[verifier::reject_recursive_types(K)]
#[verifier::reject_recursive_types(V)]
#[verifier::reject_recursive_types(S)]
pub struct ExIndexMap<K, V, S>(IndexMap<K, V, S>);

/// The entries of the map, in the order of their indices.
pub uninterp spec fn entries(m: IndexMap<CidParts, Artifact>) -> Seq<(CidParts, Artifact)>;

/// `IndexMap::new`: a map without entries.
#[verifier::external_body]
fn map_new() -> (m: IndexMap<CidParts, Artifact>)
    ensures
        entries(m) == Seq::<(CidParts, Artifact)>::empty(),
{
    IndexMap::new()
}

/// `IndexMap::len`: the number of entries.
#[verifier::external_body]
fn map_len(m: &IndexMap<CidParts, Artifact>) -> (r: usize)
    ensures
        r == entries(*m).len(),
{
    m.len()
}

/// `IndexMap::get_index_of`: the index of the entry with the key, if there is one.
#[verifier::external_body]
fn map_index_of(m: &IndexMap<CidParts, Artifact>, key: &CidParts) -> (r: Option<usize>)
    ensures
        match r {
            Some(i) => i < entries(*m).len() && entries(*m)[i as int].0 == *key,
            None => forall|i: int| 0 <= i < entries(*m).len() ==> #[trigger] entries(*m)[i].0 != *key,
        },
{
    m.get_index_of(key)
}

/// `IndexMap::get_index`: the entry with an index.
#[verifier::external_body]
fn map_at(m: &IndexMap<CidParts, Artifact>, i: usize) -> (r: (&CidParts, &Artifact))
    requires
        i < entries(*m).len(),
    ensures
        *r.0 == entries(*m)[i as int].0,
        *r.1 == entries(*m)[i as int].1,
{
    m.get_index(i).unwrap()
}

/// `IndexMap::get_index_mut`: the value with an index, to be changed in place.
#[verifier::external_body]
fn map_at_mut(m: &mut IndexMap<CidParts, Artifact>, i: usize) -> (r: &mut Artifact)
    requires
        i < entries(*old(m)).len(),
    ensures
        *r == entries(*old(m))[i as int].1,
        entries(*final(m)) == entries(*old(m)).update(
            i as int,
            (entries(*old(m))[i as int].0, *final(r)),
        ),
{
    m.get_index_mut(i).unwrap().1
}

/// `IndexMap::insert` of a key that the map does not have: the entry comes last.
#[verifier::external_body]
fn map_push(m: &mut IndexMap<CidParts, Artifact>, key: CidParts, value: Artifact)
    requires
        forall|i: int| 0 <= i < entries(*old(m)).len() ==> #[trigger] entries(*old(m))[i].0 != key,
    ensures
        entries(*final(m)) == entries(*old(m)).push((key, value)),
{
    m.insert(key, value);
}

/// The artifacts recorded for one commit.
pub struct Release {
    oid: Oid,
    tag: Option<Oid>,
    creator: Did,
    artifacts: IndexMap<CidParts, Artifact>,
    timestamp: u64,
}

/// The artifacts that entries stand for.
spec fn artifacts_of(s: Seq<(CidParts, Artifact)>) -> Seq<(Cid, ArtifactView)> {
    s.map_values(|e: (CidParts, Artifact)| (Cid::of_parts(e.0), e.1@))
}

impl View for Release {
    type V = ReleaseView;

    closed spec fn view(&self) -> ReleaseView {
        ReleaseView {
            oid: self.oid,
            tag: self.tag,
            creator: self.creator,
            timestamp: self.timestamp,
            artifacts: artifacts_of(entries(self.artifacts)),
        }
    }
}

impl Release {
    #[verifier::type_invariant]
    closed spec fn valid(self) -> bool {
        let s = entries(self.artifacts);
        &&& forall|i: int| 0 <= i < s.len() ==> valid_parts(#[trigger] s[i].0)
        &&& forall|i: int, j: int| 0 <= i < j < s.len() ==> #[trigger] s[i].0 != #[trigger] s[j].0
    }

    /// The artifacts of a release have finitely many locations.
    pub proof fn lemma_finite_locations(self)
        ensures
            forall|i: int|
                0 <= i < self@.artifacts.len() ==> finite_locations(
                    (#[trigger] self@.artifacts[i]).1,
                ),
    {
        let s = entries(self.artifacts);
        assert forall|i: int| 0 <= i < self@.artifacts.len() implies finite_locations(
            (#[trigger] self@.artifacts[i]).1,
        ) by {
            s[i].1.lemma_finite_locations();
        }
    }

    /// A release without artifacts.
    fn new(oid: Oid, tag: Option<Oid>, creator: Did, timestamp: u64) -> (r: Release)
        ensures
            r@ == new_release(oid, tag, creator, timestamp),
    {
        let r = Release { oid, tag, creator, artifacts: map_new(), timestamp };
        assert(r@ =~= new_release(oid, tag, creator, timestamp));
        r
    }

    /// The commit of the release.
    pub fn oid(&self) -> (r: &Oid)
        ensures
            *r == self@.oid,
    {
        &self.oid
    }

    /// The annotated tag recorded with the release.
    pub fn tag(&self) -> (r: Option<Oid>)
        ensures
            r == self@.tag,
    {
        self.tag
    }

    /// The user who created the release.
    pub fn creator(&self) -> (r: &Did)
        ensures
            *r == self@.creator,
    {
        &self.creator
    }

    /// When the release was created.
    pub fn timestamp(&self) -> (r: u64)
        ensures
            r == self@.timestamp,
    {
        self.timestamp
    }

    /// The number of artifacts.
    pub fn len(&self) -> (r: usize)
        ensures
            r == self@.artifacts.len(),
    {
        map_len(&self.artifacts)
    }

    /// The artifact at place `i`, in the order of registration.
    pub fn at(&self, i: usize) -> (r: (Cid, &Artifact))
        requires
            i < self@.artifacts.len(),
        ensures
            (r.0, r.1@) == self@.artifacts[i as int],
    {
        proof {
            use_type_invariant(self);
        }
        let (key, artifact) = map_at(&self.artifacts, i);
        (Cid::from_parts(*key), artifact)
    }

    /// The artifacts, in the order of registration. None occurs twice.
    pub fn artifacts(&self) -> (r: Vec<(Cid, &Artifact)>)
        ensures
            r@.map_values(|e: (Cid, &Artifact)| (e.0, e.1@)) == self@.artifacts,
            self@.distinct(),
    {
        proof {
            use_type_invariant(self);
        }
        let mut out: Vec<(Cid, &Artifact)> = Vec::new();
        let mut i: usize = 0;
        while i < self.len()
            invariant
                i <= self@.artifacts.len(),
                out@.len() == i,
                forall|j: int|
                    0 <= j < i ==> ((#[trigger] out@[j]).0, out@[j].1@) == self@.artifacts[j],
            decreases self@.artifacts.len() - i,
        {
            out.push(self.at(i));
            i += 1;
        }
        assert(out@.map_values(|e: (Cid, &Artifact)| (e.0, e.1@)) =~= self@.artifacts);
        proof {
            let s = entries(self.artifacts);
            assert forall|i: int, j: int| 0 <= i < j < self@.artifacts.len() implies #[trigger] self@.artifacts[i].0
                != #[trigger] self@.artifacts[j].0 by {
                assert(s[i].0 != s[j].0);
            }
        }
        out
    }

    /// The artifact `cid`. None occurs twice.
    pub fn artifact(&self, cid: &Cid) -> (r: Option<&Artifact>)
        ensures
            match r {
                Some(a) => self@.has(*cid) && a@ == self@.get(*cid),
                None => !self@.has(*cid),
            },
            self@.distinct(),
    {
        let key = cid.to_parts();
        let ghost s = entries(self.artifacts);
        proof {
            use_type_invariant(self);
            assert forall|i: int, j: int| 0 <= i < j < self@.artifacts.len() implies #[trigger] self@.artifacts[i].0
                != #[trigger] self@.artifacts[j].0 by {
                assert(s[i].0 != s[j].0);
            }
        }
        match map_index_of(&self.artifacts, &key) {
            Some(i) => {
                proof {
                    assert(self@.artifacts[i as int].0 == *cid);
                    let c = choose|c: int|
                        0 <= c < self@.artifacts.len() && #[trigger] self@.artifacts[c].0 == *cid;
                    assert(s[c].0 == key);
                }
                Some(map_at(&self.artifacts, i).1)
            },
            None => {
                proof {
                    assert forall|i: int| 0 <= i < self@.artifacts.len() implies #[trigger] self@.artifacts[i].0
                        != *cid by {
                        assert(s[i].0 != key);
                    }
                }
                None
            },
        }
    }

    /// Applies an action of `user`.
    pub fn action(&mut self, user: Did, action: Action)
        ensures
            final(self)@ == step(old(self)@, user, action),
            old(self)@.distinct(),
            final(self)@.distinct(),
    {
        proof {
            use_type_invariant(&*self);
            let s = entries(self.artifacts);
            assert forall|i: int, j: int| 0 <= i < j < self@.artifacts.len() implies #[trigger] self@.artifacts[i].0
                != #[trigger] self@.artifacts[j].0 by {
                assert(s[i].0 != s[j].0);
            }
        }
        let ghost before = self@;
        let ghost what = action;
        let cid = match &action {
            Action::Create { .. } => {
                return;
            },
            Action::RegisterArtifact { cid, .. } => *cid,
            Action::AddLocation { cid, .. } => *cid,
            Action::RemoveLocation { cid, .. } => *cid,
            Action::Attest { cid } => *cid,
            Action::Redact { cid, .. } => *cid,
            Action::SetMetadata { cid, .. } => *cid,
            Action::RemoveMetadata { cid, .. } => *cid,
        };
        let key = cid.to_parts();
        let ghost s = entries(self.artifacts);
        assert forall|i: int| 0 <= i < s.len() implies before.artifacts[i].0 == cid <==> (
        #[trigger] s[i]).0 == key by {}
        let mut artifacts = map_new();
        std::mem::swap(&mut artifacts, &mut self.artifacts);
        match map_index_of(&artifacts, &key) {
            Some(i) => {
                assert(before.artifacts[i as int].0 == cid);
                assert(before.has(cid));
                let artifact = map_at_mut(&mut artifacts, i);
                artifact.apply(user, action);
            },
            None => {
                assert(!before.has(cid));
                match action {
                    Action::RegisterArtifact { name, .. } => {
                        map_push(&mut artifacts, key, Artifact::new(user, name));
                    },
                    _ => {},
                }
            },
        }
        self.artifacts = artifacts;
        assert(self@ =~= step(before, user, what));
        proof {
            use_type_invariant(&*self);
            let s = entries(self.artifacts);
            assert forall|i: int, j: int| 0 <= i < j < self@.artifacts.len() implies #[trigger] self@.artifacts[i].0
                != #[trigger] self@.artifacts[j].0 by {
                assert(s[i].0 != s[j].0);
            }
        }
    }

    /// Applies actions of `user`, one after the other.
    fn apply_all(&mut self, user: Did, actions: Vec<Action>)
        ensures
            final(self)@ == steps(old(self)@, user, actions@),
            old(self)@.distinct(),
    {
        proof {
            use_type_invariant(&*self);
            let s = entries(self.artifacts);
            assert forall|i: int, j: int| 0 <= i < j < self@.artifacts.len() implies #[trigger] self@.artifacts[i].0
                != #[trigger] self@.artifacts[j].0 by {
                assert(s[i].0 != s[j].0);
            }
        }
        let ghost before = self@;
        for action in it: actions
            invariant
                it.seq() == actions@,
                self@ == steps(before, user, actions@.take(it.index())),
        {
            proof {
                let i = it.index();
                assert(actions@.take(i + 1).drop_last() =~= actions@.take(i));
            }
            self.action(user, action);
        }
        assert(actions@.take(actions@.len() as int) =~= actions@);
    }

    /// The release that a root operation creates. `has_commit` says whether the
    /// repository has the commit that the operation names.
    pub fn from_root(op: Op, has_commit: bool) -> (r: Result<Release, Build>)
        ensures
            match r {
                Ok(release) => {
                    &&& op.actions@.len() > 0
                    &&& op.actions@[0] matches Action::Create { oid, tag }
                    &&& has_commit
                    &&& release@ == steps(
                        new_release(oid, tag, op.author, op.timestamp),
                        op.author,
                        op.actions@.skip(1),
                    )
                },
                Err(Build::Initial) => op.actions@.len() == 0 || !(op.actions@[0] is Create),
                Err(Build::MissingCommit { oid }) => {
                    &&& op.actions@.len() > 0
                    &&& op.actions@[0] matches Action::Create { oid: wanted, .. }
                    &&& wanted == oid
                    &&& !has_commit
                },
            },
    {
        let mut actions = op.actions;
        if actions.len() == 0 {
            return Err(Build::Initial);
        }
        let ghost all = actions@;
        let first = actions.remove(0);
        assert(actions@ =~= all.skip(1));
        match first {
            Action::Create { oid, tag } => {
                if !has_commit {
                    return Err(Build::MissingCommit { oid });
                }
                let mut release = Release::new(oid, tag, op.author, op.timestamp);
                release.apply_all(op.author, actions);
                Ok(release)
            },
            _ => Err(Build::Initial),
        }
    }

    /// Applies a later operation.
    pub fn op(&mut self, op: Op)
        ensures
            final(self)@ == steps(old(self)@, op.author, op.actions@),
            old(self)@.distinct(),
    {
        self.apply_all(op.author, op.actions);
    }
}

/// One signed operation on a release.
pub struct Op {
    /// Who signed it.
    pub author: Did,
    /// When it was signed.
    pub timestamp: u64,
    /// What it does, in order.
    pub actions: Vec<Action>,
}

impl Clone for Action {
    fn clone(&self) -> (r: Action)
        ensures
            r == *self,
    {
        match self {
            Action::Create { oid, tag } => Action::Create { oid: *oid, tag: *tag },
            Action::RegisterArtifact { cid, name } => Action::RegisterArtifact {
                cid: *cid,
                name: name.clone(),
            },
            Action::AddLocation { cid, location } => Action::AddLocation {
                cid: *cid,
                location: location.clone(),
            },
            Action::RemoveLocation { cid, location } => Action::RemoveLocation {
                cid: *cid,
                location: location.clone(),
            },
            Action::Attest { cid } => Action::Attest { cid: *cid },
            Action::Redact { cid, reason } => Action::Redact {
                cid: *cid,
                reason: reason.clone(),
            },
            Action::SetMetadata { cid, key, value } => Action::SetMetadata {
                cid: *cid,
                key: key.clone(),
                value: value.clone(),
            },
            Action::RemoveMetadata { cid, key } => Action::RemoveMetadata {
                cid: *cid,
                key: key.clone(),
            },
        }
    }
}

impl Action {
    /// The git objects that an action refers to: the commit of the release, for the
    /// action that creates it.
    pub fn parents(&self) -> (r: Vec<Oid>)
        ensures
            r@ == (match *self {
                Action::Create { oid, .. } => seq![oid],
                _ => Seq::<Oid>::empty(),
            }),
    {
        match self {
            Action::Create { oid, .. } => vec![*oid],
            _ => Vec::new(),
        }
    }
}

} // verus!
