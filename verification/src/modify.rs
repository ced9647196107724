//! Changing artifacts that are registered: locations and metadata.

use crate::error::Metadata;
use crate::ids::{Cid, Did, ReleaseId};
use crate::json::{json_compact, json_quoted, Json};
use crate::location::{endpoint_of_url, scheme_of, EndpointId, Url, LEGACY_SCHEME, URL_SCHEME};
use crate::release::{steps, urls_of, Action, Release};
use crate::resolve::Find;
use crate::sorted::{in_order, lemma_finite_in_order, SortedSet};
use crate::store::{key_fault, value_fault, ReleaseMut};
use crate::text::{cat, cat3, cat4};
use vstd::prelude::*;

verus! {

/// What the arguments of a command say of its target.
pub enum Target {
    /// This artifact of a release that was named, by its id or by a revision.
    Given(Cid),
    /// The user has to choose.
    Pick,
}

/// What the arguments of a command say of its target: an artifact and a release go
/// together.
pub fn target_of(release: bool, revision: bool, cid: Option<Cid>) -> (r: Target)
    requires
        cid is Some == (release || revision),
    ensures
        r == (match cid {
            Some(cid) => Target::Given(cid),
            None => Target::Pick,
        }),
{
    match cid {
        Some(cid) => Target::Given(cid),
        None => Target::Pick,
    }
}

/// Why a URL cannot be added as a location, if it cannot.
pub open spec fn location_fault(url: Seq<char>) -> Option<Seq<char>> {
    if scheme_of(url) == LEGACY_SCHEME@ {
        Some(
            "the `iroh://` scheme was renamed to `radiroh://`; re-add this location with the new scheme"@,
        )
    } else if scheme_of(url) == URL_SCHEME@ {
        match endpoint_of_url(url) {
            Ok(_) => None,
            Err(e) => Some(e.text()),
        }
    } else {
        None
    }
}

/// Checks a URL before it is added: the scheme that endpoint URLs had before is refused,
/// and so is an endpoint URL that names no endpoint. One without a host stands for the
/// user's own endpoint.
pub fn check_location(url: &Url) -> (r: Result<(), String>)
    ensures
        match r {
            Ok(()) => location_fault(url@) is None,
            Err(e) => location_fault(url@) == Some(e@),
        },
{
    if EndpointId::is_legacy_endpoint_url(url) {
        return Err(
            "the `iroh://` scheme was renamed to `radiroh://`; re-add this location with the new scheme".to_owned(),
        );
    }
    if EndpointId::is_endpoint_url(url) {
        match EndpointId::from_url(url) {
            Ok(_) => {},
            Err(e) => {
                return Err(e.message());
            },
        }
    }
    Ok(())
}

/// Adds a location of `author`, once it is checked.
pub fn location_add(release: &mut ReleaseMut, cid: Cid, url: Url, author: Did) -> (r: Result<
    Vec<Action>,
    String,
>)
    ensures
        final(release).id == old(release).id,
        match r {
            Ok(actions) => {
                &&& location_fault(url@) is None
                &&& actions@ == seq![Action::AddLocation { cid, location: url }]
                &&& final(release).release@ == steps(old(release).release@, author, actions@)
            },
            Err(e) => location_fault(url@) == Some(e@) && *final(release) == *old(release),
        },
{
    match check_location(&url) {
        Ok(()) => Ok(release.add_location(cid, url, author)),
        Err(e) => Err(e),
    }
}

/// The locations that the user has added to an artifact.
pub fn own_locations<'a>(
    release: Option<&'a Release>,
    id: &ReleaseId,
    cid: &Cid,
    local: &Did,
) -> (r: Result<Vec<&'a Url>, String>)
    ensures
        match release {
            None => r is Err && r->Err_0@ == "release "@ + id.text() + " not found"@,
            Some(release) => if release@.has(*cid) {
                r is Ok && r->Ok_0@.map_values(|u: &Url| u@) == in_order::<Url>(
                    urls_of(release@.get(*cid), *local),
                )
            } else {
                r is Err && r->Err_0@ == "no artifact "@ + cid.text() + " in release "@ + id.text()
            },
        },
{
    match release {
        None => {
            let shown = id.to_text();
            Err(cat3("release ", shown.as_str(), " not found"))
        },
        Some(release) => match release.artifact(cid) {
            None => {
                let shown = cid.to_text();
                let named = id.to_text();
                Err(cat4("no artifact ", shown.as_str(), " in release ", named.as_str()))
            },
            Some(artifact) => match artifact.locations_of(local) {
                Some(set) => Ok(set.members()),
                None => {
                    let none: SortedSet<Url> = SortedSet::new();
                    let ghost members = in_order::<Url>(Set::<Seq<char>>::empty());
                    let empty = none.members();
                    proof {
                        assert(empty@.map_values(|u: &Url| u@) == members);
                        assert(members.len() == 0) by {
                            assert(empty@.map_values(|u: &Url| u@).len() == empty@.len());
                            assert(none.seq().len() == 0);
                        }
                    }
                    let out: Vec<&'a Url> = Vec::new();
                    assert(out@.map_values(|u: &Url| u@) =~= members);
                    Ok(out)
                },
            },
        },
    }
}

/// Checks that a location that is to be removed is one that the user has added: removing
/// any other would do nothing.
pub fn check_removal(url: &Url, own: &Vec<&Url>, cid: &Cid) -> (r: Result<(), String>)
    ensures
        match r {
            Ok(()) => own@.map_values(|u: &Url| u@).contains(url@),
            Err(e) => !own@.map_values(|u: &Url| u@).contains(url@) && e@
                == "you have not added location "@ + url@ + " for artifact "@ + cid.text(),
        },
{
    let ghost all = own@.map_values(|u: &Url| u@);
    let mut i: usize = 0;
    while i < own.len()
        invariant
            i <= own@.len(),
            all == own@.map_values(|u: &Url| u@),
            forall|j: int| 0 <= j < i ==> all[j] != url@,
        decreases own@.len() - i,
    {
        if own[i].same(url) {
            assert(all[i as int] == url@);
            return Ok(());
        }
        i += 1;
    }
    let shown = cid.to_text();
    Err(cat4("you have not added location ", url.as_str(), " for artifact ", shown.as_str()))
}

/// Removes a location of `author`, who must have added it.
pub fn location_remove(release: &mut ReleaseMut, cid: Cid, url: Url, author: Did) -> (r: Result<
    Vec<Action>,
    String,
>)
    ensures
        final(release).id == old(release).id,
        ({
            let before = old(release).release@;
            match r {
                Ok(actions) => {
                    &&& before.has(cid)
                    &&& urls_of(before.get(cid), author).contains(url@)
                    &&& actions@ == seq![Action::RemoveLocation { cid, location: url }]
                    &&& final(release).release@ == steps(before, author, actions@)
                },
                Err(e) => {
                    &&& final(release).release@ == before
                    &&& if before.has(cid) {
                        !urls_of(before.get(cid), author).contains(url@) && e@
                            == "you have not added location "@ + url@ + " for artifact "@
                            + cid.text()
                    } else {
                        e@ == "no artifact "@ + cid.text() + " in release "@
                            + old(release).id.text()
                    }
                },
            }
        }),
{
    let added = match release.artifact(&cid) {
        None => {
            let shown = cid.to_text();
            let named = release.id.to_text();
            return Err(cat4("no artifact ", shown.as_str(), " in release ", named.as_str()));
        },
        Some(artifact) => match artifact.locations_of(&author) {
            Some(set) => set.contains(&url),
            None => false,
        },
    };
    if added {
        Ok(release.remove_location(cid, url, author))
    } else {
        let shown = cid.to_text();
        Err(cat4("you have not added location ", url.as_str(), " for artifact ", shown.as_str()))
    }
}

/// Why metadata cannot be changed.
pub enum MetadataError {
    /// The release was not found.
    Find(Find),
    /// The release does not have the artifact.
    UnknownCid {
        id: ReleaseId,
        cid: Cid,
    },
    /// The user is neither the author of the artifact nor a delegate.
    NotAuthorized {
        local: Did,
        artifact_author: Did,
        cid: Cid,
    },
    /// The value was to be JSON and is not.
    InvalidJson {
        err: String,
    },
    /// The key or the value is refused.
    InvalidKey(Metadata),
}

impl MetadataError {
    /// The error as text.
    pub open spec fn text(self) -> Seq<char> {
        match self {
            MetadataError::Find(e) => e.text(),
            MetadataError::UnknownCid { id, cid } => "artifact "@ + cid.text()
                + " not found in release "@ + id.text(),
            MetadataError::NotAuthorized { local, artifact_author, cid } =>
                "not authorized to manage metadata on artifact "@ + cid.text()
                + ": only the artifact author ("@ + artifact_author.text()
                + ") or a repository delegate may. local DID is "@ + local.text(),
            MetadataError::InvalidJson { err } =>
                "--json was set but value is not valid JSON: "@ + err@,
            MetadataError::InvalidKey(e) => e.text(),
        }
    }

    /// The error as text.
    pub fn message(&self) -> (r: String)
        ensures
            r@ == self.text(),
    {
        match self {
            MetadataError::Find(e) => e.message(),
            MetadataError::UnknownCid { id, cid } => {
                let shown = cid.to_text();
                let named = id.to_text();
                cat4("artifact ", shown.as_str(), " not found in release ", named.as_str())
            },
            MetadataError::NotAuthorized { local, artifact_author, cid } => {
                let shown = cid.to_text();
                let author = artifact_author.encode();
                let user = local.encode();
                let head = cat4(
                    "not authorized to manage metadata on artifact ",
                    shown.as_str(),
                    ": only the artifact author (",
                    author.as_str(),
                );
                cat3(
                    head.as_str(),
                    ") or a repository delegate may. local DID is ",
                    user.as_str(),
                )
            },
            MetadataError::InvalidJson { err } => cat(
                "--json was set but value is not valid JSON: ",
                err.as_str(),
            ),
            MetadataError::InvalidKey(e) => e.message(),
        }
    }
}

/// Whether the user may change the metadata of an artifact: its author may, and so may a
/// delegate.
pub open spec fn may_edit(local: Did, author: Did, delegates: Set<Did>) -> bool {
    local == author || delegates.contains(local)
}

/// Checks that the user may change the metadata of the artifact `cid` of the release
/// `id`.
pub fn metadata_target(
    release: Option<&Release>,
    id: ReleaseId,
    cid: Cid,
    delegates: &SortedSet<Did>,
    local: &Did,
) -> (r: Result<(), MetadataError>)
    ensures
        match release {
            None => r == Err::<(), MetadataError>(MetadataError::Find(Find::NoReleaseId(id))),
            Some(release) => if !release@.has(cid) {
                r == Err::<(), MetadataError>(MetadataError::UnknownCid { id, cid })
            } else if may_edit(*local, release@.get(cid).author, delegates@) {
                r is Ok
            } else {
                r == Err::<(), MetadataError>(
                    MetadataError::NotAuthorized {
                        local: *local,
                        artifact_author: release@.get(cid).author,
                        cid,
                    },
                )
            },
        },
{
    match release {
        None => Err(MetadataError::Find(Find::NoReleaseId(id))),
        Some(release) => match release.artifact(&cid) {
            None => Err(MetadataError::UnknownCid { id, cid }),
            Some(artifact) => {
                let author = *artifact.author();
                if *local == author || delegates.contains(local) {
                    Ok(())
                } else {
                    Err(
                        MetadataError::NotAuthorized {
                            local: *local,
                            artifact_author: author,
                            cid,
                        },
                    )
                }
            },
        },
    }
}

/// The value to store: a string, unless it is to be read as JSON.
pub fn metadata_value(value: &str, json: bool) -> (r: Result<Json, MetadataError>)
    ensures
        if json {
            match json_compact(value@) {
                Ok(text) => r is Ok && r->Ok_0@ == text,
                Err(e) => r matches Err(MetadataError::InvalidJson { err }) && err@ == e,
            }
        } else {
            r is Ok && r->Ok_0@ == json_quoted(value@)
        },
{
    if json {
        match Json::parse(value) {
            Ok(v) => Ok(v),
            Err(err) => Err(MetadataError::InvalidJson { err }),
        }
    } else {
        Ok(Json::string(value))
    }
}

/// Sets a metadata entry of an artifact, once the user may and the value is there.
pub fn metadata_set(
    release: &mut ReleaseMut,
    cid: Cid,
    key: String,
    value: &str,
    json: bool,
    delegates: &SortedSet<Did>,
    local: Did,
) -> (r: Result<Vec<Action>, MetadataError>)
    ensures
        final(release).id == old(release).id,
        ({
            let before = old(release).release@;
            let stored = if json {
                json_compact(value@)
            } else {
                Ok(json_quoted(value@))
            };
            let known = before.has(cid);
            let allowed = known && may_edit(local, before.get(cid).author, delegates@);
            match r {
                Ok(actions) => {
                    &&& allowed
                    &&& stored is Ok
                    &&& key_fault(key@) is None
                    &&& value_fault(stored->Ok_0) is None
                    &&& actions@.len() == 1
                    &&& actions@[0] matches Action::SetMetadata { cid: on, key: k, value: v } && on
                        == cid && k == key && v@ == stored->Ok_0
                    &&& final(release).release@ == steps(before, local, actions@)
                },
                Err(e) => {
                    &&& final(release).release@ == before
                    &&& match e {
                        MetadataError::UnknownCid { id, cid: c } => !known && id
                            == old(release).id && c == cid,
                        MetadataError::NotAuthorized { local: l, artifact_author, cid: c } => known
                            && !allowed && l == local && artifact_author == before.get(cid).author
                            && c == cid,
                        MetadataError::InvalidJson { err } => allowed && stored
                            == Err::<Seq<char>, Seq<char>>(err@),
                        MetadataError::InvalidKey(fault) => allowed && stored is Ok && (key_fault(
                            key@,
                        ) == Some(fault) || (key_fault(key@) is None && value_fault(stored->Ok_0)
                            == Some(fault))),
                        MetadataError::Find(_) => false,
                    }
                },
            }
        }),
{
    match metadata_target(Some(&release.release), release.id, cid, delegates, &local) {
        Ok(()) => {},
        Err(e) => {
            return Err(e);
        },
    }
    let stored = match metadata_value(value, json) {
        Ok(v) => v,
        Err(e) => {
            return Err(e);
        },
    };
    match release.set_metadata(cid, key, stored, local) {
        Ok(actions) => Ok(actions),
        Err(e) => Err(MetadataError::InvalidKey(e)),
    }
}

/// Removes a metadata entry of an artifact, once the user may.
pub fn metadata_unset(
    release: &mut ReleaseMut,
    cid: Cid,
    key: String,
    delegates: &SortedSet<Did>,
    local: Did,
) -> (r: Result<Vec<Action>, MetadataError>)
    ensures
        final(release).id == old(release).id,
        ({
            let before = old(release).release@;
            let known = before.has(cid);
            let allowed = known && may_edit(local, before.get(cid).author, delegates@);
            match r {
                Ok(actions) => {
                    &&& allowed
                    &&& actions@ == seq![Action::RemoveMetadata { cid, key }]
                    &&& final(release).release@ == steps(before, local, actions@)
                },
                Err(e) => {
                    &&& final(release).release@ == before
                    &&& match e {
                        MetadataError::UnknownCid { id, cid: c } => !known && id
                            == old(release).id && c == cid,
                        MetadataError::NotAuthorized { local: l, artifact_author, cid: c } => known
                            && !allowed && l == local && artifact_author == before.get(cid).author
                            && c == cid,
                        _ => false,
                    }
                },
            }
        }),
{
    match metadata_target(Some(&release.release), release.id, cid, delegates, &local) {
        Ok(()) => Ok(release.remove_metadata(cid, key, local)),
        Err(e) => Err(e),
    }
}

/// What is said of a change that was made.
pub enum Done<'a> {
    LocationAdded {
        url: &'a Url,
        cid: Cid,
    },
    LocationRemoved {
        url: &'a Url,
        cid: Cid,
    },
    Attested(Cid),
    Redacted(Cid),
    MetadataSet {
        key: &'a str,
        cid: Cid,
    },
    MetadataRemoved {
        key: &'a str,
        cid: Cid,
    },
    Deleted(ReleaseId),
}

impl<'a> Done<'a> {
    /// What is said of the change.
    pub open spec fn text(self) -> Seq<char> {
        match self {
            Done::LocationAdded { url, cid } => "Added location "@ + url@ + " for artifact "@
                + cid.text(),
            Done::LocationRemoved { url, cid } => "Removed location "@ + url@ + " for artifact "@
                + cid.text(),
            Done::Attested(cid) => "Attested artifact "@ + cid.text(),
            Done::Redacted(cid) => "Redacted artifact "@ + cid.text(),
            Done::MetadataSet { key, cid } => "Set metadata "@ + key@ + " on artifact "@
                + cid.text(),
            Done::MetadataRemoved { key, cid } => "Removed metadata "@ + key@ + " from artifact "@
                + cid.text(),
            Done::Deleted(id) => "Deleted release "@ + id.text(),
        }
    }

    /// What is said of the change.
    pub fn message(&self) -> (r: String)
        ensures
            r@ == self.text(),
    {
        match self {
            Done::LocationAdded { url, cid } => {
                let shown = cid.to_text();
                cat4("Added location ", url.as_str(), " for artifact ", shown.as_str())
            },
            Done::LocationRemoved { url, cid } => {
                let shown = cid.to_text();
                cat4("Removed location ", url.as_str(), " for artifact ", shown.as_str())
            },
            Done::Attested(cid) => {
                let shown = cid.to_text();
                cat("Attested artifact ", shown.as_str())
            },
            Done::Redacted(cid) => {
                let shown = cid.to_text();
                cat("Redacted artifact ", shown.as_str())
            },
            Done::MetadataSet { key, cid } => {
                let shown = cid.to_text();
                cat4("Set metadata ", key, " on artifact ", shown.as_str())
            },
            Done::MetadataRemoved { key, cid } => {
                let shown = cid.to_text();
                cat4("Removed metadata ", key, " from artifact ", shown.as_str())
            },
            Done::Deleted(id) => {
                let shown = id.to_text();
                cat("Deleted release ", shown.as_str())
            },
        }
    }
}

/// The metadata of an artifact can be changed by its author and by every delegate, and by
/// nobody else.
pub proof fn law_author_and_delegates_edit(local: Did, author: Did, delegates: Set<Did>)
    ensures
        may_edit(author, author, delegates),
        delegates.contains(local) ==> may_edit(local, author, delegates),
        may_edit(local, author, delegates) && local != author ==> delegates.contains(local),
{
}

/// A URL can be added as a location unless it is of the scheme that endpoint URLs had
/// before, or of the scheme of today and names no endpoint.
pub proof fn law_only_bad_endpoint_urls_are_refused(url: Seq<char>)
    ensures
        location_fault(url) is Some <==> scheme_of(url) == "iroh"@ || (scheme_of(url)
            == "radiroh"@ && endpoint_of_url(url) is Err),
{
    reveal_strlit("iroh");
    reveal_strlit("radiroh");
    assert("iroh"@.len() != "radiroh"@.len());
}

/// `metadata_target` lets the author of an artifact and every delegate through, and nobody
/// else.
pub proof fn law_metadata_target_lets_author_and_delegates_through(
    release: Release,
    id: ReleaseId,
    cid: Cid,
    delegates: SortedSet<Did>,
    local: Did,
    r: Result<(), MetadataError>,
)
    requires
        call_ensures(metadata_target, (Some(&release), id, cid, &delegates, &local), r),
    ensures
        r is Ok <==> release@.has(cid) && (local == release@.get(cid).author
            || delegates@.contains(local)),
        r matches Err(MetadataError::UnknownCid { .. }) ==> !release@.has(cid),
        r matches Err(MetadataError::NotAuthorized { .. }) ==> release@.has(cid),
{
}

/// `check_location` refuses a URL exactly where it is of the scheme that endpoint URLs had
/// before, or of the scheme of today and names no endpoint.
pub proof fn law_check_location_refuses_bad_endpoint_urls(url: Url, r: Result<(), String>)
    requires
        call_ensures(check_location, (&url,), r),
    ensures
        r is Err <==> scheme_of(url@) == "iroh"@ || (scheme_of(url@) == "radiroh"@
            && endpoint_of_url(url@) is Err),
{
    law_only_bad_endpoint_urls_are_refused(url@);
}

/// `own_locations` gives every location that the user has added to the artifact, and none
/// of anyone else.
pub proof fn law_own_locations_are_those_of_the_user(
    release: Release,
    id: ReleaseId,
    cid: Cid,
    local: Did,
    r: Result<Vec<&Url>, String>,
    url: Seq<char>,
)
    requires
        call_ensures(own_locations, (Some(&release), &id, &cid, &local), r),
        urls_of(release@.get(cid), local).finite(),
    ensures
        r is Ok <==> release@.has(cid),
        r is Ok ==> (r->Ok_0@.map_values(|u: &Url| u@).contains(url) <==> release@.get(
            cid,
        ).locations.contains_key(local) && release@.get(cid).locations[local].contains(url)),
{
    lemma_finite_in_order::<Url>(urls_of(release@.get(cid), local));
}

/// A value that is not to be read as JSON is stored as a string, whatever it looks like.
pub proof fn law_a_plain_value_is_never_refused(
    value: &str,
    json: bool,
    r: Result<Json, MetadataError>,
)
    requires
        call_ensures(metadata_value, (value, json), r),
    ensures
        !json ==> r is Ok && r->Ok_0@ == json_quoted(value@),
        json ==> (r is Ok <==> json_compact(value@) is Ok),
        r is Err ==> r->Err_0 is InvalidJson,
{
}

} // verus!
