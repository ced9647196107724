//! Sharing content: what an identifier stands for, whether content matches it, and how
//! an artifact is got from one of its locations.

use crate::ids::{Cid, Key};
use crate::location::{scheme_of, EndpointId, Url};
use crate::order::{by_label, sort_by_label};
use crate::seqs::{lemma_last_splits, lemma_push_has};
use crate::text::{cat, cat3, cat4, decimal, decimal_text, hex_text, hexadecimal, texts};
use vstd::prelude::*;

verus! {

/// The code of the BLAKE3 hash function.
pub const HASH_CODE_BLAKE3: u64 = 0x1e;

/// The codec of a collection: a sequence of BLAKE3 hashes.
pub const BLAKE3_HASHSEQ_CODEC: u64 = 0x80;

/// The codec of a single blob.
pub const RAW_CODEC: u64 = 0x55;

/// What can go wrong when content is shared.
pub enum Error {
    /// Nothing can fetch from URLs with this scheme.
    UnsupportedScheme(String),
    /// Fetching over HTTP failed.
    Http(String),
    /// Fetching from a peer failed.
    Iroh(String),
    /// Serving failed.
    Serve(String),
    /// Reading or writing failed.
    Io(String),
    /// The content is not what its identifier says.
    CidMismatch {
        expected: String,
        actual: String,
    },
    /// The identifier cannot be used.
    Cid(String),
    /// There is nowhere to fetch from.
    NoLocations,
    /// Every attempt failed.
    AllFailed(Vec<Error>),
}

impl Error {
    /// The error as text.
    pub open spec fn text(self) -> Seq<char> {
        match self {
            Error::UnsupportedScheme(s) => "unsupported URL scheme: "@ + s@,
            Error::Http(s) => "HTTP fetch failed: "@ + s@,
            Error::Iroh(s) => "iroh fetch failed: "@ + s@,
            Error::Serve(s) => "serve error: "@ + s@,
            Error::Io(s) => "I/O error: "@ + s@,
            Error::CidMismatch { expected, actual } => "CID mismatch: expected "@ + expected@
                + ", got "@ + actual@,
            Error::Cid(s) => "CID error: "@ + s@,
            Error::NoLocations => "no locations registered for this artifact"@,
            Error::AllFailed(_) => "all fetch attempts failed"@,
        }
    }

    /// The error as text.
    pub fn message(&self) -> (r: String)
        ensures
            r@ == self.text(),
    {
        match self {
            Error::UnsupportedScheme(s) => cat("unsupported URL scheme: ", s.as_str()),
            Error::Http(s) => cat("HTTP fetch failed: ", s.as_str()),
            Error::Iroh(s) => cat("iroh fetch failed: ", s.as_str()),
            Error::Serve(s) => cat("serve error: ", s.as_str()),
            Error::Io(s) => cat("I/O error: ", s.as_str()),
            Error::CidMismatch { expected, actual } => cat4(
                "CID mismatch: expected ",
                expected.as_str(),
                ", got ",
                actual.as_str(),
            ),
            Error::Cid(s) => cat("CID error: ", s.as_str()),
            Error::NoLocations => "no locations registered for this artifact".to_owned(),
            Error::AllFailed(_) => "all fetch attempts failed".to_owned(),
        }
    }
}

/// What can go wrong when content is fetched.
pub type FetchError = Error;

/// What an identifier stands for.
#[derive(Clone, Copy, PartialEq, Eq, Debug, Structural)]
pub enum ArtifactKind {
    /// A single blob.
    Blob,
    /// A collection of named blobs.
    Collection,
}

impl ArtifactKind {
    /// The codec of identifiers of this kind.
    pub open spec fn spec_codec(self) -> u64 {
        match self {
            ArtifactKind::Blob => RAW_CODEC,
            ArtifactKind::Collection => BLAKE3_HASHSEQ_CODEC,
        }
    }
}

/// What an identifier stands for, by its codec.
pub open spec fn kind_of(cid: Cid) -> Option<ArtifactKind> {
    if cid.parts().1 == RAW_CODEC {
        Some(ArtifactKind::Blob)
    } else if cid.parts().1 == BLAKE3_HASHSEQ_CODEC {
        Some(ArtifactKind::Collection)
    } else {
        None
    }
}

/// What an identifier stands for.
pub fn artifact_kind(cid: &Cid) -> (r: Result<ArtifactKind, Error>)
    ensures
        match r {
            Ok(kind) => kind_of(*cid) == Some(kind),
            Err(e) => kind_of(*cid) is None && e is Cid && e->Cid_0@
                == "unsupported CID codec: 0x"@ + hex_text(cid.parts().1 as nat),
        },
{
    let codec: u64 = cid.codec();
    if codec == RAW_CODEC {
        Ok(ArtifactKind::Blob)
    } else if codec == BLAKE3_HASHSEQ_CODEC {
        Ok(ArtifactKind::Collection)
    } else {
        let shown = hexadecimal(codec);
        Err(Error::Cid(cat("unsupported CID codec: 0x", shown.as_str())))
    }
}

/// The identifier of content with a BLAKE3 hash.
pub open spec fn cid_of_hash(hash: Key, kind: ArtifactKind) -> Cid {
    Cid::of_parts(
        (true, kind.spec_codec(), HASH_CODE_BLAKE3, 32, hash.hi, hash.lo, 0, 0),
    )
}

/// The identifier of content with a BLAKE3 hash.
pub fn blake3_hash_to_cid(hash: Key, kind: ArtifactKind) -> (r: Cid)
    ensures
        r == cid_of_hash(hash, kind),
        kind_of(r) == Some(kind),
        hash_in(r) == Some(hash),
{
    let codec: u64 = match kind {
        ArtifactKind::Blob => RAW_CODEC,
        ArtifactKind::Collection => BLAKE3_HASHSEQ_CODEC,
    };
    Cid::from_parts((true, codec, HASH_CODE_BLAKE3, 32, hash.hi, hash.lo, 0, 0))
}

/// The BLAKE3 hash in an identifier, if it has one.
pub open spec fn hash_in(cid: Cid) -> Option<Key> {
    if cid.parts().2 == HASH_CODE_BLAKE3 && cid.parts().3 == 32 {
        Some(Key { hi: cid.parts().4, lo: cid.parts().5 })
    } else {
        None
    }
}

/// What is said of an identifier without a BLAKE3 hash.
pub open spec fn no_hash_text(cid: Cid) -> Seq<char> {
    if cid.parts().2 != HASH_CODE_BLAKE3 {
        "expected BLAKE3 multihash (0x1e), got 0x"@ + hex_text(cid.parts().2 as nat)
    } else {
        "expected 32-byte BLAKE3 digest, got "@ + decimal_text(cid.parts().3 as nat) + " bytes"@
    }
}

/// The BLAKE3 hash in an identifier.
pub fn cid_to_blake3_hash(cid: &Cid) -> (r: Result<Key, Error>)
    ensures
        match r {
            Ok(hash) => hash_in(*cid) == Some(hash),
            Err(e) => {
                &&& hash_in(*cid) is None
                &&& e is Cid
                &&& e->Cid_0@ == no_hash_text(*cid)
            },
        },
{
    let code: u64 = cid.hash_code();
    if code != HASH_CODE_BLAKE3 {
        let shown = hexadecimal(code);
        return Err(
            Error::Cid(cat("expected BLAKE3 multihash (0x1e), got 0x", shown.as_str())),
        );
    }
    let len: u8 = cid.digest_len();
    if len != 32 {
        let shown = decimal(len as u64);
        return Err(
            Error::Cid(cat3("expected 32-byte BLAKE3 digest, got ", shown.as_str(), " bytes")),
        );
    }
    Ok(cid.digest_key())
}

/// Reading the hash out of an identifier that was made of it gives the hash again, and
/// the kind too.
pub proof fn law_hash_and_cid_are_inverse(hash: Key, kind: ArtifactKind)
    ensures
        hash_in(cid_of_hash(hash, kind)) == Some(hash),
        kind_of(cid_of_hash(hash, kind)) == Some(kind),
{
    broadcast use Cid::of_parts_inverse;

}

/// The BLAKE3 hash of content, as the two halves of the digest.
pub uninterp spec fn blake3_of(data: Seq<u8>) -> (u128, u128);

/// `blake3::hash`.
#[verifier::external_body]
fn blake3_hash(data: &[u8]) -> (r: (u128, u128))
    ensures
        r == blake3_of(data@),
{
    let hash = blake3::hash(data);
    let (hi, lo) = hash.as_bytes().split_at(16);
    (u128::from_be_bytes(hi.try_into().unwrap()), u128::from_be_bytes(lo.try_into().unwrap()))
}

/// The identifier of a single blob.
pub open spec fn blob_cid(data: Seq<u8>) -> Cid {
    cid_of_hash(Key { hi: blake3_of(data).0, lo: blake3_of(data).1 }, ArtifactKind::Blob)
}

/// The identifier of a single blob.
pub fn compute_cid(data: &[u8]) -> (r: Cid)
    ensures
        r == blob_cid(data@),
{
    let (hi, lo) = blake3_hash(data);
    blake3_hash_to_cid(Key { hi, lo }, ArtifactKind::Blob)
}

/// Compares the identifier of content with the one that was expected.
pub fn check_cid(actual: &Cid, expected: &Cid) -> (r: Result<(), Error>)
    ensures
        match r {
            Ok(()) => *actual == *expected,
            Err(e) => *actual != *expected && e is CidMismatch && e->expected@ == expected.text()
                && e->actual@ == actual.text(),
        },
{
    if *actual == *expected {
        Ok(())
    } else {
        Err(Error::CidMismatch { expected: expected.to_text(), actual: actual.to_text() })
    }
}

/// Checks that a blob is the one with the identifier `expected`.
pub fn verify_cid(data: &[u8], expected: &Cid) -> (r: Result<(), Error>)
    ensures
        match r {
            Ok(()) => blob_cid(data@) == *expected,
            Err(e) => blob_cid(data@) != *expected && e is CidMismatch && e->expected@
                == expected.text() && e->actual@ == blob_cid(data@).text(),
        },
{
    let actual = compute_cid(data);
    check_cid(&actual, expected)
}

/// Checks that what was added to a store is what its identifier says.
pub fn check_added(hash: Key, kind: ArtifactKind, expected: &Cid) -> (r: Result<(), Error>)
    ensures
        match r {
            Ok(()) => cid_of_hash(hash, kind) == *expected,
            Err(e) => cid_of_hash(hash, kind) != *expected && e is CidMismatch && e->expected@
                == expected.text() && e->actual@ == cid_of_hash(hash, kind).text(),
        },
{
    let actual = blake3_hash_to_cid(hash, kind);
    check_cid(&actual, expected)
}

/// Checks that what was fetched over HTTP has the hash in the identifier `expected`.
pub fn check_http_blob(hash: Key, expected: &Cid) -> (r: Result<(), Error>)
    ensures
        match r {
            Ok(()) => hash_in(*expected) == Some(hash),
            Err(e) => match hash_in(*expected) {
                None => e is Cid && e->Cid_0@ == no_hash_text(*expected),
                Some(wanted) => wanted != hash && e is CidMismatch && e->expected@
                    == expected.text() && e->actual@ == cid_of_hash(
                    hash,
                    ArtifactKind::Blob,
                ).text(),
            },
        },
{
    match cid_to_blake3_hash(expected) {
        Err(e) => Err(e),
        Ok(wanted) => {
            if wanted == hash {
                Ok(())
            } else {
                let actual = blake3_hash_to_cid(hash, ArtifactKind::Blob);
                Err(
                    Error::CidMismatch {
                        expected: expected.to_text(),
                        actual: actual.to_text(),
                    },
                )
            }
        },
    }
}

/// Where an artifact can be fetched from.
pub enum Location<'a> {
    /// A URL.
    Url(&'a Url),
    /// A peer.
    Iroh(EndpointId),
}

/// The schemes of URLs that can be fetched over HTTP.
pub open spec fn http_schemes() -> Seq<Seq<char>> {
    seq!["https"@, "http"@]
}

/// A fetcher for URLs over HTTP.
pub struct HttpFetcher;

impl HttpFetcher {
    /// The schemes that the fetcher handles.
    pub fn schemes(&self) -> (r: Vec<String>)
        ensures
            texts(r@) == http_schemes(),
    {
        let r = vec!["https".to_owned(), "http".to_owned()];
        assert(texts(r@) =~= http_schemes());
        r
    }
}

/// The schemes that each of the default fetchers handles.
pub fn default_fetchers() -> (r: Vec<Vec<String>>)
    ensures
        r@.len() == 1,
        texts(r@[0]@) == http_schemes(),
{
    vec![HttpFetcher.schemes()]
}

/// What is to be asked for an artifact.
pub enum Source<'a> {
    /// The fetcher in place `fetcher`, for what is at the URL.
    Url {
        fetcher: usize,
        url: &'a Url,
    },
    /// A peer.
    Peer(EndpointId),
}

/// Whether the fetcher in place `i` handles the scheme.
pub open spec fn handles(fetchers: Seq<Vec<String>>, i: int, scheme: Seq<char>) -> bool {
    texts(fetchers[i]@).contains(scheme)
}

/// Whether `source` is what is to be asked for the location: a URL goes to the first
/// fetcher that handles its scheme.
pub open spec fn asks(fetchers: Seq<Vec<String>>, l: Location<'_>, source: Source<'_>) -> bool {
    match (l, source) {
        (Location::Iroh(a), Source::Peer(b)) => a == b,
        (Location::Url(a), Source::Url { fetcher, url }) => {
            &&& a == url
            &&& fetcher < fetchers.len()
            &&& handles(fetchers, fetcher as int, scheme_of(a@))
            &&& forall|j: int|
                0 <= j < fetcher ==> !#[trigger] handles(fetchers, j, scheme_of(a@))
        },
        _ => false,
    }
}

/// Whether no fetcher handles the scheme.
pub open spec fn unhandled(fetchers: Seq<Vec<String>>, scheme: Seq<char>) -> bool {
    forall|j: int| 0 <= j < fetchers.len() ==> !#[trigger] handles(fetchers, j, scheme)
}

/// Whether a list of schemes holds one.
fn has_scheme(schemes: &Vec<String>, scheme: &String) -> (r: bool)
    ensures
        r == texts(schemes@).contains(scheme@),
{
    let mut i: usize = 0;
    while i < schemes.len()
        invariant
            i <= schemes@.len(),
            forall|j: int| 0 <= j < i ==> schemes@[j]@ != scheme@,
        decreases schemes@.len() - i,
    {
        if schemes[i] == *scheme {
            assert(texts(schemes@)[i as int] == scheme@);
            return true;
        }
        i += 1;
    }
    false
}

/// What is to be asked for a location: nothing where no fetcher handles it.
fn source_of<'a>(fetchers: &Vec<Vec<String>>, l: &Location<'a>) -> (r: Result<Source<'a>, String>)
    ensures
        match r {
            Ok(source) => asks(fetchers@, *l, source),
            Err(scheme) => l matches Location::Url(url) && scheme@ == scheme_of(url@) && unhandled(
                fetchers@,
                scheme@,
            ),
        },
{
    match l {
        Location::Iroh(id) => Ok(Source::Peer(*id)),
        Location::Url(url) => {
            let scheme = url.scheme();
            let mut i: usize = 0;
            while i < fetchers.len()
                invariant
                    i <= fetchers@.len(),
                    scheme@ == scheme_of(url@),
                    *l == Location::Url(*url),
                    forall|j: int| 0 <= j < i ==> !#[trigger] handles(fetchers@, j, scheme@),
                decreases fetchers@.len() - i,
            {
                if has_scheme(&fetchers[i], &scheme) {
                    assert(handles(fetchers@, i as int, scheme@));
                    return Ok(Source::Url { fetcher: i, url: *url });
                }
                i += 1;
            }
            Err(scheme)
        },
    }
}

/// Whether `e` says that the content is not what its identifier says.
pub open spec fn mismatch(e: Error, expected: Cid, actual: Cid) -> bool {
    e is CidMismatch && e->expected@ == expected.text() && e->actual@ == actual.text()
}

/// Whether `e` is a way in which an attempt to get a blob from the location fails.
pub open spec fn failed<F: Fn(&Source<'_>) -> Result<Vec<u8>, Error>>(
    fetchers: Seq<Vec<String>>,
    fetch: F,
    expected: Cid,
    l: Location<'_>,
    e: Error,
) -> bool {
    ||| l matches Location::Url(url) && unhandled(fetchers, scheme_of(url@))
        && e is UnsupportedScheme && e->UnsupportedScheme_0@ == scheme_of(url@)
    ||| exists|source: Source<'_>|
        #[trigger] asks(fetchers, l, source) && fetch.ensures((&source,), Err(e))
    ||| exists|source: Source<'_>, data: Vec<u8>|
        #[trigger] asks(fetchers, l, source) && #[trigger] fetch.ensures((&source,), Ok(data))
            && blob_cid(data@) != expected && mismatch(e, expected, blob_cid(data@))
}

/// Whether an attempt to get a blob from the location can fail.
pub open spec fn missed<F: Fn(&Source<'_>) -> Result<Vec<u8>, Error>>(
    fetchers: Seq<Vec<String>>,
    fetch: F,
    expected: Cid,
    l: Location<'_>,
) -> bool {
    exists|e: Error| failed(fetchers, fetch, expected, l, e)
}

/// Whether an attempt to get a blob from the location can give `data`.
pub open spec fn got<F: Fn(&Source<'_>) -> Result<Vec<u8>, Error>>(
    fetchers: Seq<Vec<String>>,
    fetch: F,
    l: Location<'_>,
    data: Vec<u8>,
) -> bool {
    exists|source: Source<'_>|
        #[trigger] asks(fetchers, l, source) && fetch.ensures((&source,), Ok(data))
}

/// Gets a single blob: the locations are tried in order until one gives content with
/// the identifier `expected`. `fetchers` are the schemes that each fetcher handles, and
/// `fetch` asks a source.
pub fn download<F: Fn(&Source<'_>) -> Result<Vec<u8>, Error>>(
    locations: &Vec<Location<'_>>,
    expected: &Cid,
    fetchers: &Vec<Vec<String>>,
    fetch: F,
) -> (r: Result<Vec<u8>, Error>)
    requires
        forall|s: &Source<'_>| #[trigger] fetch.requires((s,)),
    ensures
        match r {
            Ok(data) => {
                &&& blob_cid(data@) == *expected
                &&& exists|i: int|
                    {
                        &&& 0 <= i < locations@.len()
                        &&& #[trigger] got(fetchers@, fetch, locations@[i], data)
                        &&& forall|j: int|
                            0 <= j < i ==> #[trigger] missed(
                                fetchers@,
                                fetch,
                                *expected,
                                locations@[j],
                            )
                    }
            },
            Err(Error::NoLocations) => locations@.len() == 0,
            Err(Error::AllFailed(errors)) => {
                &&& locations@.len() > 0
                &&& errors@.len() == locations@.len()
                &&& forall|j: int|
                    0 <= j < errors@.len() ==> failed(
                        fetchers@,
                        fetch,
                        *expected,
                        locations@[j],
                        #[trigger] errors@[j],
                    )
            },
            Err(_) => false,
        },
{
    if locations.len() == 0 {
        return Err(Error::NoLocations);
    }
    let mut errors: Vec<Error> = Vec::new();
    let mut i: usize = 0;
    while i < locations.len()
        invariant
            i <= locations@.len(),
            errors@.len() == i,
            forall|s: &Source<'_>| #[trigger] fetch.requires((s,)),
            forall|j: int|
                0 <= j < errors@.len() ==> failed(
                    fetchers@,
                    fetch,
                    *expected,
                    locations@[j],
                    #[trigger] errors@[j],
                ),
        decreases locations@.len() - i,
    {
        let ghost before = errors@;
        match source_of(fetchers, &locations[i]) {
            Err(scheme) => {
                errors.push(Error::UnsupportedScheme(scheme));
            },
            Ok(source) => match fetch(&source) {
                Err(e) => {
                    errors.push(e);
                },
                Ok(data) => match verify_cid(data.as_slice(), expected) {
                    Ok(()) => {
                        assert(got(fetchers@, fetch, locations@[i as int], data));
                        assert forall|j: int| 0 <= j < i implies #[trigger] missed(
                            fetchers@,
                            fetch,
                            *expected,
                            locations@[j],
                        ) by {
                            assert(failed(fetchers@, fetch, *expected, locations@[j], errors@[j]));
                        }
                        return Ok(data);
                    },
                    Err(e) => {
                        errors.push(e);
                    },
                },
            },
        }
        assert(failed(fetchers@, fetch, *expected, locations@[i as int], errors@[i as int]));
        assert(forall|j: int| 0 <= j < i ==> #[trigger] errors@[j] == before[j]);
        i += 1;
    }
    Err(Error::AllFailed(errors))
}

/// The peers among the locations: only they can give a collection.
pub open spec fn peers(locations: Seq<Location<'_>>) -> Seq<EndpointId>
    decreases locations.len(),
{
    if locations.len() == 0 {
        Seq::empty()
    } else {
        match locations.last() {
            Location::Iroh(id) => peers(locations.drop_last()).push(id),
            Location::Url(_) => peers(locations.drop_last()),
        }
    }
}

/// Whether an attempt to get a collection from the peer can give `outcome`.
pub open spec fn answers<F: Fn(&EndpointId) -> Result<(), Error>>(
    fetch: F,
    id: EndpointId,
    outcome: Result<(), Error>,
) -> bool {
    fetch.ensures((&id,), outcome)
}

/// Whether an attempt to get a collection from the peer can fail.
pub open spec fn refuses<F: Fn(&EndpointId) -> Result<(), Error>>(
    fetch: F,
    id: EndpointId,
) -> bool {
    exists|e: Error| answers(fetch, id, Err(e))
}

/// Gets a collection: the peers among the locations are tried in order until one gives
/// it. `fetch` asks a peer.
pub fn download_collection<F: Fn(&EndpointId) -> Result<(), Error>>(
    locations: &Vec<Location<'_>>,
    fetch: F,
) -> (r: Result<(), Error>)
    requires
        forall|id: &EndpointId| #[trigger] fetch.requires((id,)),
    ensures
        match r {
            Ok(()) => exists|i: int|
                {
                    &&& 0 <= i < peers(locations@).len()
                    &&& #[trigger] answers(fetch, peers(locations@)[i], Ok(()))
                    &&& forall|j: int|
                        0 <= j < i ==> #[trigger] refuses(fetch, peers(locations@)[j])
                },
            Err(Error::NoLocations) => peers(locations@).len() == 0,
            Err(Error::AllFailed(errors)) => {
                &&& peers(locations@).len() > 0
                &&& errors@.len() == peers(locations@).len()
                &&& forall|j: int|
                    0 <= j < errors@.len() ==> #[trigger] answers(
                        fetch,
                        peers(locations@)[j],
                        Err(errors@[j]),
                    )
            },
            Err(_) => false,
        },
{
    let mut errors: Vec<Error> = Vec::new();
    let mut i: usize = 0;
    let ghost all = peers(locations@);
    proof {
        assert(locations@.take(0) =~= Seq::empty());
    }
    while i < locations.len()
        invariant
            i <= locations@.len(),
            all == peers(locations@),
            errors@.len() == peers(locations@.take(i as int)).len(),
            forall|id: &EndpointId| #[trigger] fetch.requires((id,)),
            forall|j: int|
                0 <= j < errors@.len() ==> #[trigger] answers(
                    fetch,
                    peers(locations@.take(i as int))[j],
                    Err(errors@[j]),
                ),
        decreases locations@.len() - i,
    {
        let ghost before = errors@;
        let ghost here = peers(locations@.take(i as int));
        proof {
            assert(locations@.take(i + 1).drop_last() =~= locations@.take(i as int));
            lemma_peers_prefix(locations@, i + 1);
        }
        match &locations[i] {
            Location::Url(_) => {},
            Location::Iroh(id) => match fetch(id) {
                Ok(done) => {
                    proof {
                        assert(answers(fetch, *id, Ok(done)));
                        assert(done == ());
                        let next = peers(locations@.take(i + 1));
                        assert(next == here.push(*id));
                        assert(all[here.len() as int] == next[here.len() as int]);
                        assert(answers(fetch, all[here.len() as int], Ok(())));
                        assert forall|j: int| 0 <= j < here.len() implies #[trigger] refuses(
                            fetch,
                            all[j],
                        ) by {
                            assert(all[j] == next[j]);
                            assert(answers(fetch, here[j], Err(errors@[j])));
                        }
                    }
                    return Ok(());
                },
                Err(e) => {
                    errors.push(e);
                    assert(forall|j: int|
                        0 <= j < before.len() ==> #[trigger] errors@[j] == before[j]);
                },
            },
        }
        i += 1;
    }
    proof {
        assert(locations@.take(i as int) =~= locations@);
    }
    if errors.len() == 0 {
        Err(Error::NoLocations)
    } else {
        Err(Error::AllFailed(errors))
    }
}

/// The peers among the first locations are the first peers.
proof fn lemma_peers_prefix(locations: Seq<Location<'_>>, n: int)
    requires
        0 <= n <= locations.len(),
    ensures
        peers(locations.take(n)).len() <= peers(locations).len(),
        forall|k: int|
            0 <= k < peers(locations.take(n)).len() ==> #[trigger] peers(locations)[k] == peers(
                locations.take(n),
            )[k],
    decreases locations.len() - n,
{
    if n == locations.len() {
        assert(locations.take(n) =~= locations);
    } else {
        lemma_peers_prefix(locations, n + 1);
        assert(locations.take(n + 1).drop_last() =~= locations.take(n));
        assert forall|k: int| 0 <= k < peers(locations.take(n)).len() implies #[trigger] peers(
            locations,
        )[k] == peers(locations.take(n))[k] by {
            assert(peers(locations)[k] == peers(locations.take(n + 1))[k]);
        }
    }
}

/// The members of a collection in the order in which they are stored: by name.
pub fn sort_entries(entries: &Vec<(String, Key)>) -> (r: Vec<usize>)
    ensures
        r@ == by_label(entries@.map_values(|e: (String, Key)| e.0@)).map_values(
            |p: (Seq<char>, usize)| p.1,
        ),
{
    let mut names: Vec<String> = Vec::new();
    let mut i: usize = 0;
    while i < entries.len()
        invariant
            i <= entries@.len(),
            texts(names@) == entries@.map_values(|e: (String, Key)| e.0@).take(i as int),
        decreases entries@.len() - i,
    {
        let ghost before = names@;
        names.push(entries[i].0.as_str().to_owned());
        proof {
            assert(texts(names@) =~= texts(before).push(entries@[i as int].0@));
        }
        i += 1;
    }
    proof {
        assert(texts(names@) =~= entries@.map_values(|e: (String, Key)| e.0@));
    }
    sort_by_label(&names)
}

/// The content of the member `name` of a collection, where it arrived.
pub fn member_data<'a>(data: Option<&'a Vec<u8>>, name: &str) -> (r: Result<&'a Vec<u8>, Error>)
    ensures
        match data {
            Some(bytes) => r == Ok::<&'a Vec<u8>, Error>(bytes),
            None => r matches Err(Error::Iroh(s)) && s@ == "missing data for collection entry '"@
                + name@ + "'"@,
        },
{
    match data {
        Some(bytes) => Ok(bytes),
        None => Err(Error::Iroh(cat3("missing data for collection entry '", name, "'"))),
    }
}

/// The peers that are asked for a collection are all peers among the locations, in their
/// order, and no URL.
pub proof fn law_every_peer_is_asked(locations: Seq<Location<'_>>, l: Location<'_>, id: EndpointId)
    ensures
        peers(locations).contains(id) <==> locations.contains(Location::Iroh(id)),
        peers(Seq::empty()).len() == 0,
        match l {
            Location::Iroh(p) => peers(locations.push(l)) == peers(locations).push(p),
            Location::Url(_) => peers(locations.push(l)) == peers(locations),
        },
    decreases locations.len(),
{
    assert(locations.push(l).drop_last() =~= locations);
    if locations.len() > 0 {
        law_every_peer_is_asked(locations.drop_last(), l, id);
        lemma_last_splits(locations);
        if let Location::Iroh(p) = locations.last() {
            lemma_push_has(peers(locations.drop_last()), p, id);
        }
    }
}

/// A URL is asked for of the first fetcher that handles its scheme, and a peer is asked
/// itself; nothing else is asked for a location.
pub proof fn law_the_first_fetcher_is_asked(
    fetchers: Seq<Vec<String>>,
    l: Location<'_>,
    source: Source<'_>,
)
    requires
        asks(fetchers, l, source),
    ensures
        match source {
            Source::Peer(id) => l == Location::<'_>::Iroh(id),
            Source::Url { fetcher, url } => {
                &&& l == Location::<'_>::Url(url)
                &&& fetcher < fetchers.len()
                &&& exists|k: int|
                    0 <= k < fetchers[fetcher as int]@.len() && (
                    #[trigger] fetchers[fetcher as int]@[k])@ == scheme_of(url@)
                &&& forall|j: int, k: int|
                    0 <= j < fetcher && 0 <= k < fetchers[j]@.len() ==> (
                    #[trigger] fetchers[j]@[k])@ != scheme_of(url@)
            },
        },
{
    if let Source::Url { fetcher, url } = source {
        let own = fetchers[fetcher as int]@;
        let t = texts(own);
        let k = choose|k: int| 0 <= k < t.len() && t[k] == scheme_of(url@);
        assert(own[k]@ == scheme_of(url@));
        assert forall|j: int, k: int| 0 <= j < fetcher && 0 <= k < fetchers[j]@.len() implies (
        #[trigger] fetchers[j]@[k])@ != scheme_of(url@) by {
            assert(!handles(fetchers, j, scheme_of(url@)));
            assert(texts(fetchers[j]@)[k] == fetchers[j]@[k]@);
        }
    }
}

/// What an identifier stands for goes by its codec alone, and the hash in it is that of
/// BLAKE3 in full or none.
pub proof fn law_codec_tells_the_kind(cid: Cid)
    ensures
        kind_of(cid) == Some(ArtifactKind::Blob) <==> cid.parts().1 == 0x55,
        kind_of(cid) == Some(ArtifactKind::Collection) <==> cid.parts().1 == 0x80,
        hash_in(cid) is Some <==> cid.parts().2 == 0x1e && cid.parts().3 == 32,
        hash_in(cid) matches Some(k) ==> k.hi == cid.parts().4 && k.lo == cid.parts().5,
{
}

/// Nothing is taken for a blob that is not the one that was asked for: what `download` gives
/// has the identifier that was expected. It fails only where there is nowhere to get it from,
/// or every location failed.
pub proof fn law_nothing_else_is_taken_for_a_blob<
    F: Fn(&Source<'_>) -> Result<Vec<u8>, Error>,
>(
    locations: Vec<Location<'_>>,
    expected: Cid,
    fetchers: Vec<Vec<String>>,
    fetch: F,
    got: Result<Vec<u8>, Error>,
)
    requires
        call_ensures(download::<F>, (&locations, &expected, &fetchers, fetch), got),
    ensures
        got matches Ok(data) ==> blob_cid(data@) == expected && locations@.len() > 0,
        got matches Err(Error::NoLocations) ==> locations@.len() == 0,
        got matches Err(Error::AllFailed(errors)) ==> errors@.len() == locations@.len()
            && locations@.len() > 0,
{
}

/// `check_cid` accepts exactly the identifier that was expected.
pub proof fn law_only_the_expected_identifier_is_accepted(
    actual: Cid,
    expected: Cid,
    r: Result<(), Error>,
)
    requires
        call_ensures(check_cid, (&actual, &expected), r),
    ensures
        r is Ok <==> actual == expected,
{
}

/// `check_http_blob` accepts exactly the hash in the identifier that was expected.
pub proof fn law_only_the_expected_hash_is_accepted(hash: Key, expected: Cid, r: Result<(), Error>)
    requires
        call_ensures(check_http_blob, (hash, &expected), r),
    ensures
        r is Ok <==> expected.parts().2 == 0x1e && expected.parts().3 == 32 && expected.parts().4
            == hash.hi && expected.parts().5 == hash.lo,
{
}

/// `download_collection` asks peers alone: it fails for want of a location exactly where no
/// location is a peer, and succeeds only where a peer among the locations gave it.
pub proof fn law_a_collection_comes_from_a_peer<F: Fn(&EndpointId) -> Result<(), Error>>(
    locations: Vec<Location<'_>>,
    fetch: F,
    r: Result<(), Error>,
)
    requires
        call_ensures(download_collection::<F>, (&locations, fetch), r),
    ensures
        r is Ok ==> exists|id: EndpointId| #[trigger]
            locations@.contains(Location::Iroh(id)) && fetch.ensures((&id,), Ok(())),
        r matches Err(Error::NoLocations) ==> forall|id: EndpointId|
            !#[trigger] locations@.contains(Location::Iroh(id)),
{
    let all = peers(locations@);
    if r is Ok {
        let i = choose|i: int|
            {
                &&& 0 <= i < all.len()
                &&& #[trigger] answers(fetch, all[i], Ok(()))
                &&& forall|j: int| 0 <= j < i ==> #[trigger] refuses(fetch, all[j])
            };
        assert(all.contains(all[i]));
        law_every_peer_is_asked(locations@, Location::Iroh(all[i]), all[i]);
        assert(locations@.contains(Location::Iroh(all[i])));
    }
    if let Err(Error::NoLocations) = r {
        assert forall|id: EndpointId| !#[trigger] locations@.contains(Location::Iroh(id)) by {
            law_every_peer_is_asked(locations@, Location::Iroh(id), id);
        }
    }
}

/// The default fetchers handle URLs over HTTP and no others.
pub proof fn law_the_default_fetchers_handle_http(r: Vec<Vec<String>>, scheme: Seq<char>)
    requires
        call_ensures(default_fetchers, (), r),
    ensures
        unhandled(r@, scheme) <==> scheme != "http"@ && scheme != "https"@,
{
    let all = texts(r@[0]@);
    assert(all[0] == "https"@ && all[1] == "http"@ && all.len() == 2);
    assert(handles(r@, 0, scheme) <==> scheme == "http"@ || scheme == "https"@);
}

/// `verify_cid` accepts a blob exactly where the identifier that was expected is one of a
/// single blob, of the first version, with the hash of the content.
pub proof fn law_a_blob_is_accepted_by_its_hash(data: &[u8], expected: Cid, r: Result<(), Error>)
    requires
        call_ensures(verify_cid, (data, &expected), r),
    ensures
        r is Ok <==> expected.parts() == (
            true,
            0x55u64,
            0x1eu64,
            32u8,
            blake3_of(data@).0,
            blake3_of(data@).1,
            0u128,
            0u128,
        ),
{
    broadcast use {Cid::of_parts_inverse, Cid::parts_inverse};

    assert(Cid::of_parts(expected.parts()) == expected);
}

} // verus!
