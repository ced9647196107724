//! Discovery locations: URLs, and the URLs that name an endpoint of the
//! peer-to-peer network.

use crate::ids::{Did, Key};
use crate::sorted::{Rank, SortKey};
use crate::text::{chars_of, text_between, text_lt, text_lt_irreflexive, text_lt_total, text_lt_transitive, text_rank};
use vstd::prelude::*;

verus! {

/// The scheme of a URL that names an endpoint.
pub const URL_SCHEME: &'static str = "radiroh";

/// What a URL that names an endpoint starts with.
pub const URL_PREFIX: &'static str = "radiroh://";

/// The scheme that such URLs had before.
pub const LEGACY_SCHEME: &'static str = "iroh";

/// A URL, held as its serialization.
pub struct Url {
    text: String,
}

/// The serialization that `url::Url::parse` gives a text, or its error as text.
pub uninterp spec fn url_parse(s: Seq<char>) -> Result<Seq<char>, Seq<char>>;

/// The host of the URL with the serialization `s`, as `url::Url::host_str` has it.
pub uninterp spec fn url_host(s: Seq<char>) -> Option<Seq<char>>;

/// Up to 64 lower-case letters and digits: nothing that the URL syntax gives a
/// meaning to.
pub open spec fn plain_host(h: Seq<char>) -> bool {
    h.len() <= 64 && forall|i: int|
        0 <= i < h.len() ==> ('a' <= #[trigger] h[i] <= 'z' || '0' <= h[i] <= '9')
}

/// `url::Url::parse`. A text of the endpoint scheme with a plain host, or none,
/// is its own serialization, with that host: the scheme is not special, so
/// nothing is added or escaped, and an empty host counts as none.
#[verifier::external_body]
fn parse_url(s: &str) -> (r: Result<String, String>)
    ensures
        match r {
            Ok(t) => url_parse(s@) == Ok::<Seq<char>, Seq<char>>(t@),
            Err(e) => url_parse(s@) == Err::<Seq<char>, Seq<char>>(e@),
        },
        forall|h: Seq<char>|
            plain_host(h) && s@ == #[trigger] (URL_PREFIX@ + h) ==> r is Ok && r->Ok_0@ == s@
                && url_host(r->Ok_0@) == (if h.len() == 0 {
                None
            } else {
                Some(h)
            }),
{
    url::Url::parse(s).map(String::from).map_err(|e| e.to_string())
}

/// `url::Url::host_str` of the URL that `s` is the serialization of.
#[verifier::external_body]
fn host_str(s: &str) -> (r: Option<String>)
    ensures
        match url_host(s@) {
            Some(h) => r is Some && r->0@ == h,
            None => r is None,
        },
{
    url::Url::parse(s).ok()?.host_str().map(String::from)
}

/// The place of the first colon of `s`, or its length.
pub open spec fn colon_at(s: Seq<char>) -> int
    decreases s.len(),
{
    if s.len() == 0 || s[0] == ':' {
        0
    } else {
        1 + colon_at(s.drop_first())
    }
}

/// The scheme of a serialized URL: what stands before the first colon.
pub open spec fn scheme_of(s: Seq<char>) -> Seq<char> {
    s.take(colon_at(s))
}

proof fn lemma_colon_at(s: Seq<char>, n: int)
    requires
        0 <= n <= s.len(),
        forall|i: int| 0 <= i < n ==> s[i] != ':',
        n == s.len() || s[n] == ':',
    ensures
        colon_at(s) == n,
    decreases n,
{
    if n > 0 {
        lemma_colon_at(s.drop_first(), n - 1);
    }
}

impl View for Url {
    type V = Seq<char>;

    closed spec fn view(&self) -> Seq<char> {
        self.text@
    }
}

impl Clone for Url {
    fn clone(&self) -> (r: Url)
        ensures
            r == *self,
    {
        Url { text: self.text.clone() }
    }
}

impl SortKey for Url {
    open spec fn lt(a: Seq<char>, b: Seq<char>) -> bool {
        text_lt(a, b)
    }

    proof fn lt_irreflexive(a: Seq<char>) {
        text_lt_irreflexive(a);
    }

    proof fn lt_transitive(a: Seq<char>, b: Seq<char>, c: Seq<char>) {
        text_lt_transitive(a, b, c);
    }

    proof fn lt_total(a: Seq<char>, b: Seq<char>) {
        text_lt_total(a, b);
    }

    fn rank(&self, other: &Self) -> (r: Rank) {
        text_rank(self.text.as_str(), other.text.as_str())
    }
}

impl Url {
    /// The URL that `s` spells, or what is wrong with it.
    pub fn parse(s: &str) -> (r: Result<Url, String>)
        ensures
            match r {
                Ok(url) => url_parse(s@) == Ok::<Seq<char>, Seq<char>>(url@),
                Err(e) => url_parse(s@) == Err::<Seq<char>, Seq<char>>(e@),
            },
            forall|h: Seq<char>|
                plain_host(h) && s@ == #[trigger] (URL_PREFIX@ + h) ==> r is Ok && r->Ok_0@ == s@
                    && url_host(r->Ok_0@) == (if h.len() == 0 {
                    None
                } else {
                    Some(h)
                }),
    {
        match parse_url(s) {
            Ok(text) => Ok(Url { text }),
            Err(e) => Err(e),
        }
    }

    /// The serialization.
    pub fn as_str(&self) -> (r: &str)
        ensures
            r@ == self@,
    {
        self.text.as_str()
    }

    /// Whether `self` and `other` are the same URL.
    pub fn same(&self, other: &Url) -> (r: bool)
        ensures
            r == (self@ == other@),
    {
        self.text == other.text
    }

    /// The scheme.
    pub fn scheme(&self) -> (r: String)
        ensures
            r@ == scheme_of(self@),
    {
        let chars = chars_of(self.text.as_str());
        let mut n: usize = 0;
        while n < chars.len() && chars[n] != ':'
            invariant
                n <= chars.len(),
                forall|i: int| 0 <= i < n ==> chars@[i] != ':',
            decreases chars.len() - n,
        {
            n += 1;
        }
        proof {
            lemma_colon_at(self@, n as int);
            assert(self@.subrange(0, n as int) =~= self@.take(n as int));
        }
        text_between(chars.as_slice(), 0, n)
    }

    /// The host, if there is one.
    pub fn host(&self) -> (r: Option<String>)
        ensures
            match url_host(self@) {
                Some(h) => r is Some && r->0@ == h,
                None => r is None,
            },
    {
        host_str(self.text.as_str())
    }
}

/// An endpoint of the peer-to-peer network, named by an Ed25519 public key.
#[derive(Clone, Copy, PartialEq, Eq, Debug, Hash, Structural)]
pub struct EndpointId {
    pub key: Key,
}

/// Why a URL names no endpoint.
#[derive(Clone, Copy, PartialEq, Eq, Debug, Structural)]
pub enum EndpointError {
    /// The URL has another scheme.
    Scheme,
    /// The host is not the base32 text of a public key.
    Host,
    /// The key is not a point of the curve.
    Key,
}

impl EndpointError {
    /// The error as text.
    pub open spec fn text(self) -> Seq<char> {
        match self {
            EndpointError::Scheme => "not a radiroh:// URL"@,
            EndpointError::Host => "the host is not an endpoint id"@,
            EndpointError::Key => "the endpoint id is not a public key"@,
        }
    }

    /// The error as text.
    pub fn message(&self) -> (r: String)
        ensures
            r@ == self.text(),
    {
        match self {
            EndpointError::Scheme => "not a radiroh:// URL".to_owned(),
            EndpointError::Host => "the host is not an endpoint id".to_owned(),
            EndpointError::Key => "the endpoint id is not a public key".to_owned(),
        }
    }
}

/// Whether the bytes are a point of the Ed25519 curve, as
/// `iroh_base::PublicKey::from_bytes` has it.
pub uninterp spec fn curve_point(hi: u128, lo: u128) -> bool;

/// `iroh_base::PublicKey::from_bytes` accepts the bytes.
#[verifier::external_body]
fn is_curve_point(hi: u128, lo: u128) -> (r: bool)
    ensures
        r == curve_point(hi, lo),
{
    let mut bytes = [0u8; 32];
    bytes[..16].copy_from_slice(&hi.to_be_bytes());
    bytes[16..].copy_from_slice(&lo.to_be_bytes());
    iroh_base::PublicKey::from_bytes(&bytes).is_ok()
}

/// The base32 letter of `v`: `a` to `z`, then `2` to `7`.
pub open spec fn base32_letter(v: u128) -> char {
    if v < 26 {
        (97 + v) as char
    } else {
        (24 + v) as char
    }
}

/// The `i`-th group of five bits of a key, counted from the most significant
/// one. The last of the 52 groups is filled up with zeros.
pub open spec fn base32_group(k: Key, i: int) -> u128 {
    if i < 25 {
        (k.hi >> ((123 - 5 * i) as u128)) & 31
    } else if i == 25 {
        ((k.hi & 7) << 2) | (k.lo >> 126)
    } else if i < 51 {
        (k.lo >> ((251 - 5 * i) as u128)) & 31
    } else {
        (k.lo & 1) << 4
    }
}

/// The base32 text of a key: lower case, without padding.
pub open spec fn base32_text(k: Key) -> Seq<char> {
    Seq::new(52, |i: int| base32_letter(base32_group(k, i)))
}

fn base32_group_at(k: Key, i: usize) -> (r: u128)
    requires
        i < 52,
    ensures
        r == base32_group(k, i as int),
        r < 32,
{
    proof {
        lemma_group_bound(k, i as int);
    }
    if i < 25 {
        (k.hi >> (123 - 5 * i as u128)) & 31
    } else if i == 25 {
        ((k.hi & 7) << 2) | (k.lo >> 126)
    } else if i < 51 {
        (k.lo >> (251 - 5 * i as u128)) & 31
    } else {
        (k.lo & 1) << 4
    }
}

/// The base32 text of a key.
pub fn base32_encode(k: Key) -> (r: String)
    ensures
        r@ == base32_text(k),
{
    let mut s = String::new();
    let mut i: usize = 0;
    while i < 52
        invariant
            i <= 52,
            s@ == base32_text(k).take(i as int),
        decreases 52 - i,
    {
        let v: u128 = base32_group_at(k, i);
        let c = if v < 26 {
            (97 + v as u8) as char
        } else {
            (24 + v as u8) as char
        };
        s.push(c);
        i += 1;
        assert(s@ =~= base32_text(k).take(i as int));
    }
    assert(s@ =~= base32_text(k));
    s
}

/// The five bits that a base32 letter stands for.
fn base32_value(c: char) -> (r: Option<u128>)
    ensures
        forall|v: u128| v < 32 && c == #[trigger] base32_letter(v) ==> r == Some(v),
        r is Some ==> r->0 < 32,
{
    if 'a' <= c && c <= 'z' {
        Some((c as u32 - 97) as u128)
    } else if '2' <= c && c <= '7' {
        Some((c as u32 - 24) as u128)
    } else {
        None
    }
}

/// The key that the 52 letters of `chars` spell, where they are the text of one.
fn base32_gather(chars: &Vec<char>) -> (r: Option<Key>)
    requires
        chars@.len() == 52,
    ensures
        forall|k: Key| chars@ == #[trigger] base32_text(k) ==> r == Some(k),
{
    let mut hi: u128 = 0;
    let mut lo: u128 = 0;
    let mut i: usize = 0;
    while i < 52
        invariant
            i <= 52,
            chars@.len() == 52,
            forall|k: Key|
                chars@ == #[trigger] base32_text(k) ==> {
                    &&& i == 0 ==> hi == 0
                    &&& 0 < i <= 25 ==> hi == k.hi >> ((128 - 5 * i) as u128)
                    &&& i > 25 ==> hi == k.hi
                    &&& i <= 25 ==> lo == 0
                    &&& 25 < i < 52 ==> lo == k.lo >> ((256 - 5 * i) as u128)
                    &&& i == 52 ==> lo == k.lo
                },
        decreases 52 - i,
    {
        let v: u128 = match base32_value(chars[i]) {
            Some(v) => v,
            None => {
                proof {
                    assert forall|k: Key| chars@ == #[trigger] base32_text(k) implies false by {
                        lemma_group_bound(k, i as int);
                        assert(chars@[i as int] == base32_letter(base32_group(k, i as int)));
                    }
                }
                return None;
            },
        };
        let ghost hi0 = hi;
        let ghost lo0 = lo;
        if i < 25 {
            hi = (hi << 5) | v;
        } else if i == 25 {
            hi = (hi << 3) | (v >> 2);
            lo = v & 3;
        } else if i < 51 {
            lo = (lo << 5) | v;
        } else {
            lo = (lo << 1) | (v >> 4);
        }
        proof {
            assert forall|k: Key| chars@ == #[trigger] base32_text(k) implies {
                &&& 0 < i + 1 <= 25 ==> hi == k.hi >> ((128 - 5 * (i + 1)) as u128)
                &&& i + 1 > 25 ==> hi == k.hi
                &&& i + 1 <= 25 ==> lo == 0
                &&& 25 < i + 1 < 52 ==> lo == k.lo >> ((256 - 5 * (i + 1)) as u128)
                &&& i + 1 == 52 ==> lo == k.lo
            } by {
                lemma_group_bound(k, i as int);
                assert(chars@[i as int] == base32_letter(base32_group(k, i as int)));
                let x = k.hi;
                let y = k.lo;
                if i == 0 {
                    assert(((0u128 << 5) | ((x >> 123) & 31)) == x >> 123) by (bit_vector);
                } else if i < 25 {
                    let s = (123 - 5 * i) as u128;
                    assert(s <= 118 ==> (((x >> ((s + 5) as u128)) << 5) | ((x >> s) & 31)) == x
                        >> s) by (bit_vector);
                } else if i == 25 {
                    let w = ((x & 7) << 2) | (y >> 126);
                    assert((((x >> 3) << 3) | (((((x & 7) << 2) | (y >> 126))) >> 2)) == x)
                        by (bit_vector);
                    assert(((((x & 7) << 2) | (y >> 126)) & 3) == y >> 126) by (bit_vector);
                } else if i < 51 {
                    let s = (251 - 5 * i) as u128;
                    assert(s <= 121 ==> (((y >> ((s + 5) as u128)) << 5) | ((y >> s) & 31)) == y
                        >> s) by (bit_vector);
                } else {
                    assert((((y >> 1) << 1) | (((y & 1) << 4) >> 4)) == y) by (bit_vector);
                }
            }
        }
        i += 1;
    }
    Some(Key { hi, lo })
}

proof fn lemma_group_bound(k: Key, i: int)
    requires
        0 <= i < 52,
    ensures
        base32_group(k, i) < 32,
{
    let hi = k.hi;
    let lo = k.lo;
    if i < 25 {
        let s = (123 - 5 * i) as u128;
        assert((hi >> s) & 31 < 32) by (bit_vector);
    } else if i == 25 {
        assert(((hi & 7) << 2) | (lo >> 126) < 32) by (bit_vector);
    } else if i < 51 {
        let s = (251 - 5 * i) as u128;
        assert((lo >> s) & 31 < 32) by (bit_vector);
    } else {
        assert((lo & 1) << 4 < 32) by (bit_vector);
    }
}

/// The key whose base32 text is `s`, if there is one.
pub fn base32_decode(s: &str) -> (r: Option<Key>)
    ensures
        forall|k: Key| r == Some(k) <==> s@ == #[trigger] base32_text(k),
{
    let chars = chars_of(s);
    if chars.len() != 52 {
        return None;
    }
    match base32_gather(&chars) {
        Some(k) => {
            let back = base32_encode(k);
            if back == s.to_owned() {
                Some(k)
            } else {
                None
            }
        },
        None => None,
    }
}

/// The endpoint whose URL `from_url` reads out of `text`: none where the URL has
/// no host.
pub open spec fn endpoint_of_url(text: Seq<char>) -> Result<Option<EndpointId>, EndpointError> {
    if scheme_of(text) != URL_SCHEME@ {
        Err(EndpointError::Scheme)
    } else {
        match url_host(text) {
            None => Ok(None),
            Some(host) => if exists|k: Key| host == base32_text(k) {
                let key = choose|k: Key| host == base32_text(k);
                if curve_point(key.hi, key.lo) {
                    Ok(Some(EndpointId { key }))
                } else {
                    Err(EndpointError::Key)
                }
            } else {
                Err(EndpointError::Host)
            },
        }
    }
}

impl EndpointId {
    /// The endpoint with a public key, which must be a point of the curve.
    pub fn from_key(key: Key) -> (r: Option<EndpointId>)
        ensures
            r == (if curve_point(key.hi, key.lo) {
                Some(EndpointId { key })
            } else {
                None
            }),
    {
        if is_curve_point(key.hi, key.lo) {
            Some(EndpointId { key })
        } else {
            None
        }
    }

    /// The endpoint of the user `did`: both are named by the same key.
    pub open spec fn spec_of_did(did: Did) -> Option<EndpointId> {
        if curve_point(did.key.hi, did.key.lo) {
            Some(EndpointId { key: did.key })
        } else {
            None
        }
    }

    /// The endpoint of the user `did`: both are named by the same key.
    pub fn of_did(did: &Did) -> (r: Option<EndpointId>)
        ensures
            r == EndpointId::spec_of_did(*did),
    {
        EndpointId::from_key(did.key)
    }

    /// The URL of the endpoint, as text.
    pub open spec fn url_text(self) -> Seq<char> {
        URL_PREFIX@ + base32_text(self.key)
    }

    /// The URL of the endpoint. Where the key is a point of the curve, `from_url`
    /// reads the endpoint out of it again.
    pub fn to_url(&self) -> (r: Url)
        ensures
            r@ == self.url_text(),
            curve_point(self.key.hi, self.key.lo) ==> endpoint_of_url(r@) == Ok::<
                Option<EndpointId>,
                EndpointError,
            >(Some(*self)) && self.matches(r@),
    {
        let host = base32_encode(self.key);
        let mut text = URL_PREFIX.to_owned();
        text.append(host.as_str());
        proof {
            lemma_base32_plain(self.key);
            assert(text@ == URL_PREFIX@ + base32_text(self.key));
            lemma_prefix_scheme(base32_text(self.key));
            let own = base32_text(self.key);
            let read = choose|k: Key| own == base32_text(k);
            base32_text_injective(self.key, read);
        }
        match Url::parse(text.as_str()) {
            Ok(url) => url,
            Err(_) => {
                assert(false);
                Url { text }
            },
        }
    }

    /// Whether the URL has the scheme of endpoint URLs.
    pub fn is_endpoint_url(url: &Url) -> (r: bool)
        ensures
            r == (scheme_of(url@) == URL_SCHEME@),
    {
        url.scheme() == URL_SCHEME.to_owned()
    }

    /// Whether the URL has the scheme that endpoint URLs had before.
    pub fn is_legacy_endpoint_url(url: &Url) -> (r: bool)
        ensures
            r == (scheme_of(url@) == LEGACY_SCHEME@),
    {
        url.scheme() == LEGACY_SCHEME.to_owned()
    }

    /// The endpoint that the URL names: none where the URL has no host.
    pub fn from_url(url: &Url) -> (r: Result<Option<EndpointId>, EndpointError>)
        ensures
            r == endpoint_of_url(url@),
    {
        if !EndpointId::is_endpoint_url(url) {
            return Err(EndpointError::Scheme);
        }
        match url.host() {
            None => Ok(None),
            Some(host) => match base32_decode(host.as_str()) {
                None => {
                    assert(!exists|k: Key| host@ == base32_text(k));
                    Err(EndpointError::Host)
                },
                Some(key) => {
                    assert(host@ == base32_text(key));
                    match EndpointId::from_key(key) {
                        Some(id) => Ok(Some(id)),
                        None => Err(EndpointError::Key),
                    }
                },
            },
        }
    }

    /// Whether the URL `text`, given by the user of this endpoint, leads to it: it
    /// names the endpoint, or names none, which stands for the user's own.
    pub open spec fn matches(self, text: Seq<char>) -> bool {
        endpoint_of_url(text) == Ok::<Option<EndpointId>, EndpointError>(None) || endpoint_of_url(
            text,
        ) == Ok::<Option<EndpointId>, EndpointError>(Some(self))
    }

    /// Whether the URL, given by the user of this endpoint, leads to it.
    pub fn matches_url(&self, url: &Url) -> (r: bool)
        ensures
            r == self.matches(url@),
    {
        match EndpointId::from_url(url) {
            Ok(None) => true,
            Ok(Some(id)) => id == *self,
            Err(_) => false,
        }
    }
}

/// A text that starts as an endpoint URL has the scheme of one.
pub proof fn lemma_prefix_scheme(rest: Seq<char>)
    ensures
        scheme_of(URL_PREFIX@ + rest) == URL_SCHEME@,
{
    reveal_strlit("radiroh://");
    reveal_strlit("radiroh");
    lemma_colon_at(URL_PREFIX@ + rest, 7);
    assert((URL_PREFIX@ + rest).take(7) =~= URL_SCHEME@);
}

/// No two keys have the same base32 text.
pub proof fn base32_text_injective(a: Key, b: Key)
    requires
        base32_text(a) == base32_text(b),
    ensures
        a == b,
{
    assert forall|i: int| 0 <= i < 52 implies base32_group(a, i) == base32_group(b, i) by {
        assert(base32_text(a)[i] == base32_letter(base32_group(a, i)));
        assert(base32_text(b)[i] == base32_letter(base32_group(b, i)));
        lemma_group_bound(a, i);
        lemma_group_bound(b, i);
    }
    lemma_high_of_groups(a, b, 25);
    lemma_low_of_groups(a, b, 51);
    let x = a.hi;
    let y = b.hi;
    let u = a.lo;
    let v = b.lo;
    assert(base32_group(a, 25) == base32_group(b, 25));
    assert(x >> 3 == y >> 3 && (((x & 7) << 2) | (u >> 126)) == (((y & 7) << 2) | (v >> 126)) ==> x
        == y) by (bit_vector);
    assert(base32_group(a, 51) == base32_group(b, 51));
    assert(u >> 1 == v >> 1 && (u & 1) << 4 == (v & 1) << 4 ==> u == v) by (bit_vector);
}

/// The leading bits of the first half are those of the first groups.
proof fn lemma_high_of_groups(a: Key, b: Key, n: int)
    requires
        1 <= n <= 25,
        forall|i: int| 0 <= i < 52 ==> #[trigger] base32_group(a, i) == base32_group(b, i),
    ensures
        a.hi >> ((128 - 5 * n) as u128) == b.hi >> ((128 - 5 * n) as u128),
    decreases n,
{
    let x = a.hi;
    let y = b.hi;
    assert(base32_group(a, n - 1) == base32_group(b, n - 1));
    if n == 1 {
        assert((x >> 123) & 31 == (y >> 123) & 31 ==> x >> 123 == y >> 123) by (bit_vector);
    } else {
        lemma_high_of_groups(a, b, n - 1);
        let s = (128 - 5 * n) as u128;
        assert(s <= 118 && x >> ((s + 5) as u128) == y >> ((s + 5) as u128) && (x >> s) & 31 == (y
            >> s) & 31 ==> x >> s == y >> s) by (bit_vector);
    }
}

/// The leading bits of the second half are those of the groups in the middle.
proof fn lemma_low_of_groups(a: Key, b: Key, n: int)
    requires
        26 <= n <= 51,
        forall|i: int| 0 <= i < 52 ==> #[trigger] base32_group(a, i) == base32_group(b, i),
    ensures
        a.lo >> ((256 - 5 * n) as u128) == b.lo >> ((256 - 5 * n) as u128),
    decreases n,
{
    let x = a.hi;
    let y = b.hi;
    let u = a.lo;
    let v = b.lo;
    assert(base32_group(a, n - 1) == base32_group(b, n - 1));
    if n == 26 {
        assert((((x & 7) << 2) | (u >> 126)) == (((y & 7) << 2) | (v >> 126)) ==> u >> 126 == v
            >> 126) by (bit_vector);
    } else {
        lemma_low_of_groups(a, b, n - 1);
        let s = (256 - 5 * n) as u128;
        assert(s <= 121 && u >> ((s + 5) as u128) == v >> ((s + 5) as u128) && (u >> s) & 31 == (v
            >> s) & 31 ==> u >> s == v >> s) by (bit_vector);
    }
}

/// The base32 text of a key is a plain host.
proof fn lemma_base32_plain(k: Key)
    ensures
        plain_host(base32_text(k)),
{
    assert forall|i: int| 0 <= i < 52 implies ('a' <= #[trigger] base32_text(k)[i] <= 'z' || '0'
        <= base32_text(k)[i] <= '9') by {
        lemma_group_bound(k, i);
    }
}

/// The scheme of a URL is what stands before its first colon.
pub proof fn law_scheme_ends_at_the_first_colon(s: Seq<char>)
    ensures
        !scheme_of(s).contains(':'),
        scheme_of(s).is_prefix_of(s),
        scheme_of(s).len() < s.len() ==> s[scheme_of(s).len() as int] == ':',
        !s.contains(':') ==> scheme_of(s) == s,
    decreases s.len(),
{
    lemma_colon_bounds(s);
    let n = colon_at(s);
    if scheme_of(s).contains(':') {
        let i = choose|i: int| 0 <= i < n && scheme_of(s)[i] == ':';
        assert(s[i] == ':');
    }
    if !s.contains(':') && n < s.len() {
        assert(s.contains(s[n]));
    }
    if n == s.len() {
        assert(scheme_of(s) =~= s);
    }
}

proof fn lemma_colon_bounds(s: Seq<char>)
    ensures
        0 <= colon_at(s) <= s.len(),
        forall|i: int| 0 <= i < colon_at(s) ==> s[i] != ':',
        colon_at(s) < s.len() ==> s[colon_at(s)] == ':',
    decreases s.len(),
{
    if s.len() > 0 && s[0] != ':' {
        let rest = s.drop_first();
        lemma_colon_bounds(rest);
        assert forall|i: int| 0 <= i < colon_at(s) implies s[i] != ':' by {
            if i > 0 {
                assert(rest[i - 1] == s[i]);
            }
        }
        if colon_at(s) < s.len() {
            assert(rest[colon_at(rest)] == s[colon_at(s)]);
        }
    }
}

/// A URL leads to the endpoint of a user, who gave it, exactly where it is of an endpoint
/// and has no host, or its host spells the key of that endpoint.
pub proof fn law_own_urls_are_recognized(ep: EndpointId, url: Seq<char>)
    ensures
        ep.matches(url) <==> scheme_of(url) == "radiroh"@ && match url_host(url) {
            None => true,
            Some(host) => host == base32_text(ep.key) && curve_point(ep.key.hi, ep.key.lo),
        },
{
    if let Some(host) = url_host(url) {
        if exists|k: Key| host == base32_text(k) {
            let key = choose|k: Key| host == base32_text(k);
            if host == base32_text(ep.key) {
                base32_text_injective(key, ep.key);
            }
        } else if host == base32_text(ep.key) {
            assert(false);
        }
    }
}

} // verus!
