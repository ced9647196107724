//! The identifiers of the system: users, git objects, repositories, releases
//! and content.

use crate::sorted::{Rank, SortKey};
use crate::text::{chars_of, text_between};
use vstd::prelude::*;

verus! {

/// Thirty-two bytes, as the big-endian numbers of their two halves. An Ed25519
/// public key or a BLAKE3 digest.
#[derive(Clone, Copy, PartialEq, Eq, Debug, Hash, Structural)]
pub struct Key {
    pub hi: u128,
    pub lo: u128,
}

/// The number that `s` spells in base 256, most significant byte first.
pub open spec fn be_value(s: Seq<u8>) -> nat
    decreases s.len(),
{
    if s.len() == 0 {
        0
    } else {
        be_value(s.drop_last()) * 256 + s.last() as nat
    }
}

/// 256 to the power of `n`.
pub open spec fn power256(n: nat) -> nat
    decreases n,
{
    if n == 0 {
        1
    } else {
        256 * power256((n - 1) as nat)
    }
}

proof fn lemma_be_value_bound(s: Seq<u8>)
    ensures
        be_value(s) < power256(s.len()),
    decreases s.len(),
{
    if s.len() > 0 {
        lemma_be_value_bound(s.drop_last());
    }
}

proof fn lemma_power256_increases(a: nat, b: nat)
    requires
        a <= b,
    ensures
        power256(a) <= power256(b),
    decreases b,
{
    if a < b {
        lemma_power256_increases(a, (b - 1) as nat);
    }
}

/// The number that the sixteen bytes of `bytes` from `at` spell.
fn word_at(bytes: &[u8], at: usize) -> (r: u128)
    requires
        at + 16 <= bytes@.len(),
    ensures
        r == be_value(bytes@.subrange(at as int, at + 16)),
{
    let n: usize = bytes.len();
    let mut acc: u128 = 0;
    let mut i: usize = 0;
    while i < 16
        invariant
            i <= 16,
            at + 16 <= n == bytes@.len(),
            acc == be_value(bytes@.subrange(at as int, at + i)),
        decreases 16 - i,
    {
        let ghost next = bytes@.subrange(at as int, at + i + 1);
        proof {
            assert(next.drop_last() =~= bytes@.subrange(at as int, at + i));
            lemma_be_value_bound(next);
            lemma_power256_increases(next.len(), 16);
            assert(power256(16) == 0x1_0000_0000_0000_0000_0000_0000_0000_0000) by {
                reveal_with_fuel(power256, 17);
            }
        }
        acc = acc * 256 + bytes[at + i] as u128;
        i += 1;
    }
    acc
}

impl Key {
    /// The key that `bytes` spells.
    pub open spec fn spec_from_bytes(bytes: Seq<u8>) -> Key {
        Key {
            hi: be_value(bytes.subrange(0, 16)) as u128,
            lo: be_value(bytes.subrange(16, 32)) as u128,
        }
    }

    /// The key that `bytes` spells.
    pub fn from_bytes(bytes: &[u8; 32]) -> (r: Key)
        ensures
            r == Key::spec_from_bytes(bytes@),
    {
        let slice: &[u8] = bytes.as_slice();
        Key { hi: word_at(slice, 0), lo: word_at(slice, 16) }
    }

    /// The order of the bytes.
    pub open spec fn spec_lt(self, other: Key) -> bool {
        self.hi < other.hi || (self.hi == other.hi && self.lo < other.lo)
    }

    /// How `self` stands to `other` in the order of the bytes.
    pub fn rank_to(&self, other: &Key) -> (r: Rank)
        ensures
            match r {
                Rank::Before => self.spec_lt(*other),
                Rank::Same => *self == *other,
                Rank::After => other.spec_lt(*self),
            },
    {
        if self.hi < other.hi {
            Rank::Before
        } else if self.hi > other.hi {
            Rank::After
        } else if self.lo < other.lo {
            Rank::Before
        } else if self.lo > other.lo {
            Rank::After
        } else {
            Rank::Same
        }
    }
}

/// A user, named by an Ed25519 public key.
#[derive(Clone, Copy, PartialEq, Eq, Debug, Hash, Structural)]
pub struct Did {
    pub key: Key,
}

/// The multibase text of a public key, as `radicle::crypto::PublicKey` spells it.
pub uninterp spec fn public_key_text(hi: u128, lo: u128) -> Seq<char>;

/// What every decentralised identifier of a key starts with.
pub open spec fn did_prefix() -> Seq<char> {
    "did:key:"@
}

/// `radicle::identity::Did::encode`: the text `did:key:` followed by the
/// multibase text of the public key, which spells 34 bytes in base 58 and so is
/// longer than seven characters.
#[verifier::external_body]
fn did_encode(hi: u128, lo: u128) -> (r: String)
    ensures
        r@ == did_prefix() + public_key_text(hi, lo),
        r@.len() >= did_prefix().len() + 7,
{
    let mut bytes = [0u8; 32];
    bytes[..16].copy_from_slice(&hi.to_be_bytes());
    bytes[16..].copy_from_slice(&lo.to_be_bytes());
    radicle::identity::Did::from(radicle::crypto::PublicKey::from(bytes)).encode()
}

impl View for Did {
    type V = Did;

    open spec fn view(&self) -> Did {
        *self
    }
}

impl Did {
    /// The user with the public key `bytes`.
    pub fn from_key_bytes(bytes: &[u8; 32]) -> (r: Did)
        ensures
            r == (Did { key: Key::spec_from_bytes(bytes@) }),
    {
        Did { key: Key::from_bytes(bytes) }
    }

    /// The identifier as text.
    pub open spec fn text(self) -> Seq<char> {
        did_prefix() + public_key_text(self.key.hi, self.key.lo)
    }

    /// The identifier as text: `did:key:` and the multibase text of the key.
    pub fn encode(&self) -> (r: String)
        ensures
            r@ == self.text(),
            r@.len() >= did_prefix().len() + 7,
    {
        did_encode(self.key.hi, self.key.lo)
    }
}

impl SortKey for Did {
    open spec fn lt(a: Did, b: Did) -> bool {
        a.key.spec_lt(b.key)
    }

    proof fn lt_irreflexive(a: Did) {
    }

    proof fn lt_transitive(a: Did, b: Did, c: Did) {
    }

    proof fn lt_total(a: Did, b: Did) {
    }

    fn rank(&self, other: &Self) -> (r: Rank) {
        self.key.rank_to(&other.key)
    }
}

/// A git object id: the twenty bytes of a SHA-1 digest, the first four and the
/// last sixteen of them as big-endian numbers.
#[derive(Clone, Copy, PartialEq, Eq, Debug, Hash, Structural)]
pub struct Oid {
    pub hi: u32,
    pub lo: u128,
}

/// The lower-case hexadecimal digit of `n`.
pub open spec fn hex_digit(n: int) -> char {
    if n < 10 {
        (48 + n) as char
    } else {
        (87 + n) as char
    }
}

/// The forty hexadecimal digits of a SHA-1 digest, most significant first.
pub open spec fn oid_text(hi: u32, lo: u128) -> Seq<char> {
    Seq::new(
        40,
        |i: int|
            if i < 8 {
                hex_digit(((hi >> ((28 - 4 * i) as u32)) & 0xf) as int)
            } else {
                hex_digit(((lo >> ((156 - 4 * i) as u128)) & 0xf) as int)
            },
    )
}

/// A text that spells a digest is ASCII.
proof fn lemma_spelt_is_ascii(s: Seq<char>)
    requires
        spells_oid(s),
    ensures
        vstd::utf8::is_ascii_chars(s),
{
    assert forall|i: int| 0 <= i < s.len() implies '\0' <= #[trigger] s[i] <= '\u{7f}' by {
        assert(byte_value(s[2 * (i / 2)], s[2 * (i / 2) + 1]) is Some);
    }
}

/// `Display` of `radicle::git::Oid`: the digest in lower-case hexadecimal.
#[verifier::external_body]
fn oid_display(hi: u32, lo: u128) -> (r: String)
    ensures
        r@ == oid_text(hi, lo),
{
    let mut bytes = [0u8; 20];
    bytes[..4].copy_from_slice(&hi.to_be_bytes());
    bytes[4..].copy_from_slice(&lo.to_be_bytes());
    radicle::git::Oid::from_sha1(bytes).to_string()
}

/// The value of a hexadecimal digit, of either case.
pub open spec fn hex_value(c: char) -> Option<int> {
    if '0' <= c <= '9' {
        Some(c as int - '0' as int)
    } else if 'a' <= c <= 'f' {
        Some(c as int - 'a' as int + 10)
    } else if 'A' <= c <= 'F' {
        Some(c as int - 'A' as int + 10)
    } else {
        None
    }
}

/// The byte that two characters spell: two hexadecimal digits, or one behind a plus
/// sign.
pub open spec fn byte_value(a: char, b: char) -> Option<int> {
    match (hex_value(a), hex_value(b)) {
        (Some(x), Some(y)) => Some(16 * x + y),
        (None, Some(y)) if a == '+' => Some(y),
        _ => None,
    }
}

/// Whether a text spells the twenty bytes of a SHA-1 digest.
pub open spec fn spells_oid(s: Seq<char>) -> bool {
    s.len() == 40 && forall|i: int|
        0 <= i < 20 ==> (#[trigger] byte_value(s[2 * i], s[2 * i + 1])) is Some
}

/// The `i`-th byte of a SHA-1 digest.
pub open spec fn oid_byte(hi: u32, lo: u128, i: int) -> int {
    if i < 4 {
        ((hi >> ((24 - 8 * i) as u32)) & 0xff) as int
    } else {
        ((lo >> ((152 - 8 * i) as u128)) & 0xff) as int
    }
}

/// Whether a text spells the bytes of a SHA-1 digest.
pub open spec fn spells(s: Seq<char>, hi: u32, lo: u128) -> bool {
    s.len() == 40 && forall|i: int|
        0 <= i < 20 ==> #[trigger] byte_value(s[2 * i], s[2 * i + 1]) == Some(oid_byte(hi, lo, i))
}

/// A text spells one digest only.
proof fn lemma_spells_one(s: Seq<char>, hi: u32, lo: u128, hi2: u32, lo2: u128)
    requires
        spells(s, hi, lo),
        spells(s, hi2, lo2),
    ensures
        hi == hi2,
        lo == lo2,
{
    assert forall|i: int| 0 <= i < 20 implies #[trigger] oid_byte(hi, lo, i) == oid_byte(
        hi2,
        lo2,
        i,
    ) by {
        assert(byte_value(s[2 * i], s[2 * i + 1]) == Some(oid_byte(hi, lo, i)));
    }
    assert(oid_byte(hi, lo, 0) == oid_byte(hi2, lo2, 0));
    assert(oid_byte(hi, lo, 1) == oid_byte(hi2, lo2, 1));
    assert(oid_byte(hi, lo, 2) == oid_byte(hi2, lo2, 2));
    assert(oid_byte(hi, lo, 3) == oid_byte(hi2, lo2, 3));
    assert(hi == hi2) by (bit_vector)
        requires
            (hi >> 24u32) & 0xff == (hi2 >> 24u32) & 0xff,
            (hi >> 16u32) & 0xff == (hi2 >> 16u32) & 0xff,
            (hi >> 8u32) & 0xff == (hi2 >> 8u32) & 0xff,
            (hi >> 0u32) & 0xff == (hi2 >> 0u32) & 0xff,
    ;
    assert(oid_byte(hi, lo, 4) == oid_byte(hi2, lo2, 4));
    assert(oid_byte(hi, lo, 5) == oid_byte(hi2, lo2, 5));
    assert(oid_byte(hi, lo, 6) == oid_byte(hi2, lo2, 6));
    assert(oid_byte(hi, lo, 7) == oid_byte(hi2, lo2, 7));
    assert(oid_byte(hi, lo, 8) == oid_byte(hi2, lo2, 8));
    assert(oid_byte(hi, lo, 9) == oid_byte(hi2, lo2, 9));
    assert(oid_byte(hi, lo, 10) == oid_byte(hi2, lo2, 10));
    assert(oid_byte(hi, lo, 11) == oid_byte(hi2, lo2, 11));
    assert(oid_byte(hi, lo, 12) == oid_byte(hi2, lo2, 12));
    assert(oid_byte(hi, lo, 13) == oid_byte(hi2, lo2, 13));
    assert(oid_byte(hi, lo, 14) == oid_byte(hi2, lo2, 14));
    assert(oid_byte(hi, lo, 15) == oid_byte(hi2, lo2, 15));
    assert(oid_byte(hi, lo, 16) == oid_byte(hi2, lo2, 16));
    assert(oid_byte(hi, lo, 17) == oid_byte(hi2, lo2, 17));
    assert(oid_byte(hi, lo, 18) == oid_byte(hi2, lo2, 18));
    assert(oid_byte(hi, lo, 19) == oid_byte(hi2, lo2, 19));
    assert(lo == lo2) by (bit_vector)
        requires
            (lo >> 120u128) & 0xff == (lo2 >> 120u128) & 0xff,
            (lo >> 112u128) & 0xff == (lo2 >> 112u128) & 0xff,
            (lo >> 104u128) & 0xff == (lo2 >> 104u128) & 0xff,
            (lo >> 96u128) & 0xff == (lo2 >> 96u128) & 0xff,
            (lo >> 88u128) & 0xff == (lo2 >> 88u128) & 0xff,
            (lo >> 80u128) & 0xff == (lo2 >> 80u128) & 0xff,
            (lo >> 72u128) & 0xff == (lo2 >> 72u128) & 0xff,
            (lo >> 64u128) & 0xff == (lo2 >> 64u128) & 0xff,
            (lo >> 56u128) & 0xff == (lo2 >> 56u128) & 0xff,
            (lo >> 48u128) & 0xff == (lo2 >> 48u128) & 0xff,
            (lo >> 40u128) & 0xff == (lo2 >> 40u128) & 0xff,
            (lo >> 32u128) & 0xff == (lo2 >> 32u128) & 0xff,
            (lo >> 24u128) & 0xff == (lo2 >> 24u128) & 0xff,
            (lo >> 16u128) & 0xff == (lo2 >> 16u128) & 0xff,
            (lo >> 8u128) & 0xff == (lo2 >> 8u128) & 0xff,
            (lo >> 0u128) & 0xff == (lo2 >> 0u128) & 0xff,
    ;
}

/// What is written of a digest spells it.
proof fn lemma_text_spells(hi: u32, lo: u128)
    ensures
        spells(oid_text(hi, lo), hi, lo),
{
    let s = oid_text(hi, lo);
    assert forall|i: int| 0 <= i < 20 implies #[trigger] byte_value(s[2 * i], s[2 * i + 1])
        == Some(oid_byte(hi, lo, i)) by {
        if i < 4 {
            let n = (24 - 8 * i) as u32;
            let m = (28 - 8 * i) as u32;
            assert((hi >> m) & 0xf <= 0xf && (hi >> n) & 0xf <= 0xf && (hi >> n) & 0xff == 16 * ((
            hi >> m) & 0xf) + ((hi >> n) & 0xf)) by (bit_vector)
                requires
                    m == n + 4,
                    n <= 24,
            ;
        } else {
            let n = (152 - 8 * i) as u128;
            let m = (156 - 8 * i) as u128;
            assert((lo >> m) & 0xf <= 0xf && (lo >> n) & 0xf <= 0xf && (lo >> n) & 0xff == 16 * ((
            lo >> m) & 0xf) + ((lo >> n) & 0xf)) by (bit_vector)
                requires
                    m == n + 4,
                    n <= 120,
            ;
        }
    }
}

/// `FromStr` of `radicle::git::Oid`: the digest whose bytes the text spells, each with
/// two characters that `u8::from_str_radix` takes in base 16. The outside function takes
/// the text apart two bytes at a time, which only ASCII text is sure to allow.
#[verifier::external_body]
fn oid_from_str(s: &str) -> (r: Option<(u32, u128)>)
    requires
        s.is_ascii(),
    ensures
        match r {
            Some((hi, lo)) => spells(s@, hi, lo),
            None => !spells_oid(s@),
        },
{
    let oid: radicle::git::Oid = s.parse().ok()?;
    let bytes = oid.into_sha1()?;
    let hi = u32::from_be_bytes(bytes[..4].try_into().ok()?);
    let lo = u128::from_be_bytes(bytes[4..].try_into().ok()?);
    Some((hi, lo))
}

impl View for Oid {
    type V = Oid;

    open spec fn view(&self) -> Oid {
        *self
    }
}

impl SortKey for Oid {
    open spec fn lt(a: Oid, b: Oid) -> bool {
        a.hi < b.hi || (a.hi == b.hi && a.lo < b.lo)
    }

    proof fn lt_irreflexive(a: Oid) {
    }

    proof fn lt_transitive(a: Oid, b: Oid, c: Oid) {
    }

    proof fn lt_total(a: Oid, b: Oid) {
    }

    fn rank(&self, other: &Self) -> (r: Rank) {
        if self.hi < other.hi {
            Rank::Before
        } else if self.hi > other.hi {
            Rank::After
        } else if self.lo < other.lo {
            Rank::Before
        } else if self.lo > other.lo {
            Rank::After
        } else {
            Rank::Same
        }
    }
}

impl Oid {
    /// The id in hexadecimal.
    pub open spec fn text(self) -> Seq<char> {
        oid_text(self.hi, self.lo)
    }

    /// The id in hexadecimal.
    pub fn to_text(&self) -> (r: String)
        ensures
            r@ == self.text(),
    {
        oid_display(self.hi, self.lo)
    }

    /// The first digits of the id, as it is named to a user.
    pub open spec fn short(self) -> Seq<char> {
        self.text().take(7)
    }

    /// The first digits of the id, as it is named to a user.
    pub fn to_short(&self) -> (r: String)
        ensures
            r@ == self.short(),
    {
        let full = self.to_text();
        let chars = chars_of(full.as_str());
        let r = text_between(&chars, 0, 7);
        assert(r@ =~= self.text().take(7));
        r
    }

    /// The id that `s` spells in hexadecimal. What `to_text` writes reads back.
    pub fn parse(s: &str) -> (r: Option<Oid>)
        ensures
            match r {
                Some(oid) => spells(s@, oid.hi, oid.lo),
                None => !spells_oid(s@),
            },
            forall|oid: Oid| #[trigger] spells(s@, oid.hi, oid.lo) ==> r == Some(oid),
            forall|oid: Oid| s@ == #[trigger] oid.text() ==> r == Some(oid),
    {
        proof {
            if spells_oid(s@) {
                lemma_spelt_is_ascii(s@);
            }
            assert forall|oid: Oid| #[trigger] spells(s@, oid.hi, oid.lo) implies spells_oid(
                s@,
            ) by {
                assert forall|i: int| 0 <= i < 20 implies (#[trigger] byte_value(
                    s@[2 * i],
                    s@[2 * i + 1],
                )) is Some by {}
            }
            assert forall|oid: Oid| s@ == #[trigger] oid.text() implies spells(
                s@,
                oid.hi,
                oid.lo,
            ) by {
                lemma_text_spells(oid.hi, oid.lo);
            }
        }
        if !s.is_ascii() {
            return None;
        }
        let r = match oid_from_str(s) {
            Some((hi, lo)) => Some(Oid { hi, lo }),
            None => None,
        };
        proof {
            assert forall|oid: Oid| #[trigger] spells(s@, oid.hi, oid.lo) implies r == Some(
                oid,
            ) by {
                lemma_spells_one(s@, oid.hi, oid.lo, r->0.hi, r->0.lo);
            }
        }
        r
    }
}

/// The identifier of a release: the object id of its root entry.
#[derive(Clone, Copy, PartialEq, Eq, Debug, Hash, Structural)]
pub struct ReleaseId {
    pub id: Oid,
}

impl ReleaseId {
    /// The git object id under the identifier.
    pub fn oid(&self) -> (r: Oid)
        ensures
            r == self.id,
    {
        self.id
    }

    /// The identifier as text.
    pub open spec fn text(self) -> Seq<char> {
        self.id.text()
    }

    /// The identifier as text.
    pub fn to_text(&self) -> (r: String)
        ensures
            r@ == self.text(),
    {
        self.id.to_text()
    }

    /// The release identifier that `s` spells.
    pub fn parse(s: &str) -> (r: Option<ReleaseId>)
        ensures
            match r {
                Some(id) => spells(s@, id.id.hi, id.id.lo),
                None => !spells_oid(s@),
            },
            forall|id: ReleaseId| #[trigger] spells(s@, id.id.hi, id.id.lo) ==> r == Some(id),
    {
        match Oid::parse(s) {
            Some(id) => Some(ReleaseId { id }),
            None => None,
        }
    }
}

impl From<Oid> for ReleaseId {
    fn from(oid: Oid) -> (r: ReleaseId) {
        ReleaseId { id: oid }
    }
}

impl vstd::std_specs::convert::FromSpecImpl<Oid> for ReleaseId {
    open spec fn obeys_from_spec() -> bool {
        true
    }

    open spec fn from_spec(oid: Oid) -> ReleaseId {
        ReleaseId { id: oid }
    }
}

/// A repository, named by the object id of its identity document.
#[derive(Clone, Copy, PartialEq, Eq, Debug, Hash, Structural)]
pub struct RepoId {
    pub id: Oid,
}

impl View for RepoId {
    type V = RepoId;

    open spec fn view(&self) -> RepoId {
        *self
    }
}

impl SortKey for RepoId {
    open spec fn lt(a: RepoId, b: RepoId) -> bool {
        <Oid as SortKey>::lt(a.id, b.id)
    }

    proof fn lt_irreflexive(a: RepoId) {
    }

    proof fn lt_transitive(a: RepoId, b: RepoId, c: RepoId) {
    }

    proof fn lt_total(a: RepoId, b: RepoId) {
    }

    fn rank(&self, other: &Self) -> (r: Rank) {
        self.id.rank(&other.id)
    }
}

/// The URN of a repository, as `radicle::identity::RepoId` spells it.
pub uninterp spec fn repo_urn(hi: u32, lo: u128) -> Seq<char>;

/// `radicle::identity::RepoId::urn`: `rad:` and the multibase text of the id.
#[verifier::external_body]
fn repo_id_urn(hi: u32, lo: u128) -> (r: String)
    ensures
        r@ == repo_urn(hi, lo),
{
    let mut bytes = [0u8; 20];
    bytes[..4].copy_from_slice(&hi.to_be_bytes());
    bytes[4..].copy_from_slice(&lo.to_be_bytes());
    radicle::identity::RepoId::from(radicle::git::Oid::from_sha1(bytes)).urn()
}

impl RepoId {
    /// The identifier as text.
    pub open spec fn text(self) -> Seq<char> {
        repo_urn(self.id.hi, self.id.lo)
    }

    /// The identifier as text.
    pub fn to_text(&self) -> (r: String)
        ensures
            r@ == self.text(),
    {
        repo_id_urn(self.id.hi, self.id.lo)
    }
}

/// What a content identifier is made of: whether it is of version one, the
/// codec, the hash function, the length of the digest, and the digest as four
/// big-endian words, filled up with zeros.
pub type CidParts = (bool, u64, u64, u8, u128, u128, u128, u128);

/// Whether all bytes of a big-endian word behind the first `used` are zero.
pub open spec fn zero_behind(word: u128, used: int) -> bool {
    if used <= 0 {
        word == 0
    } else if used < 16 {
        word as nat % power256((16 - used) as nat) == 0
    } else {
        true
    }
}

/// The parts that a content identifier can have: a digest of at most 64 bytes with zeros
/// behind it, and for version zero nothing but a SHA2-256 digest of a `dag-pb` block.
pub open spec fn valid_parts(p: CidParts) -> bool {
    &&& p.3 <= 64
    &&& p.0 || (p.1 == 0x70 && p.2 == 0x12 && p.3 == 32)
    &&& zero_behind(p.4, p.3 as int)
    &&& zero_behind(p.5, p.3 - 16)
    &&& zero_behind(p.6, p.3 - 32)
    &&& zero_behind(p.7, p.3 - 48)
}

/// A content identifier.
#[derive(Clone, Copy, PartialEq, Eq, Debug, Hash, Structural)]
pub struct Cid {
    v1: bool,
    codec: u64,
    hash_code: u64,
    len: u8,
    d0: u128,
    d1: u128,
    d2: u128,
    d3: u128,
}

/// The text of a content identifier, as the `cid` crate spells it.
pub uninterp spec fn cid_text(p: CidParts) -> Seq<char>;

/// `Display` of `cid::Cid`: the canonical multibase text.
#[verifier::external_body]
fn cid_display(p: CidParts) -> (r: String)
    requires
        valid_parts(p),
    ensures
        r@ == cid_text(p),
{
    let words = [p.4, p.5, p.6, p.7].map(|w| w.to_be_bytes());
    let d = words.concat();
    let hash = cid::multihash::Multihash::<64>::wrap(p.2, &d[..p.3 as usize]).unwrap();
    let version = if p.0 { cid::Version::V1 } else { cid::Version::V0 };
    cid::Cid::new(version, p.1, hash).unwrap().to_string()
}

/// What `FromStr` of `cid::Cid` makes of a text.
pub uninterp spec fn cid_parse(s: Seq<char>) -> Option<CidParts>;

/// `FromStr` of `cid::Cid`. What it gives back has at most 64 bytes of digest, filled up
/// with zeros, and is a SHA2-256 `dag-pb` identifier where the version is zero.
#[verifier::external_body]
fn cid_from_str(s: &str) -> (r: Option<CidParts>)
    ensures
        r == cid_parse(s@),
        r is Some ==> valid_parts(r->0),
{
    let cid: cid::Cid = s.parse().ok()?;
    let mut d = [0u8; 64];
    d[..cid.hash().digest().len()].copy_from_slice(cid.hash().digest());
    let word = |at: usize| u128::from_be_bytes(d[at..at + 16].try_into().unwrap());
    let v1 = cid.version() == cid::Version::V1;
    Some((v1, cid.codec(), cid.hash().code(), cid.hash().size(), word(0), word(16), word(32), word(48)))
}

/// The bytes of `digest`, filled up with zeros to 64.
pub open spec fn padded(digest: Seq<u8>) -> Seq<u8> {
    Seq::new(
        64,
        |i: int|
            if i < digest.len() {
                digest[i]
            } else {
                0
            },
    )
}

/// Zeros at the end of a number in base 256.
proof fn lemma_trailing_zeros(s: Seq<u8>, n: nat)
    requires
        n <= s.len(),
        forall|i: int| s.len() - n <= i < s.len() ==> #[trigger] s[i] == 0,
    ensures
        be_value(s) == be_value(s.take(s.len() - n)) * power256(n),
    decreases n,
{
    if n == 0 {
        assert(s.take(s.len() - n) =~= s);
        assert(be_value(s) * 1 == be_value(s));
    } else {
        let t = s.drop_last();
        assert forall|i: int| t.len() - (n - 1) <= i < t.len() implies #[trigger] t[i] == 0 by {
            assert(s[i] == 0);
        }
        lemma_trailing_zeros(t, (n - 1) as nat);
        assert(t.take(t.len() - (n - 1)) =~= s.take(s.len() - n));
        assert(s.last() == s[s.len() - 1]);
        let v = be_value(s.take(s.len() - n));
        let p = power256((n - 1) as nat);
        assert(be_value(t) == v * p);
        assert(be_value(s) == be_value(t) * 256);
        assert(power256(n) == 256 * p);
        assert((v * p) * 256 == v * (256 * p)) by (nonlinear_arith);
    }
}

/// 256 to any power is positive.
proof fn lemma_power256_positive(n: nat)
    ensures
        power256(n) > 0,
    decreases n,
{
    if n > 0 {
        lemma_power256_positive((n - 1) as nat);
    }
}

/// The sixteen bytes of a digest from `at`, filled up with zeros, as a number.
proof fn lemma_padding(digest: Seq<u8>, at: int, word: u128)
    requires
        0 <= at <= 48,
        word == be_value(padded(digest).subrange(at, at + 16)),
    ensures
        zero_behind(word, digest.len() - at),
{
    let s = padded(digest).subrange(at, at + 16);
    let used = digest.len() - at;
    if used < 16 {
        let kept: int = if used <= 0 {
            0
        } else {
            used
        };
        let n = (16 - kept) as nat;
        assert forall|i: int| s.len() - n <= i < s.len() implies #[trigger] s[i] == 0 by {}
        lemma_trailing_zeros(s, n);
        if used <= 0 {
            assert(s.take(s.len() - n) =~= Seq::empty());
            assert(be_value(s) == 0 * power256(n));
            assert(0 * power256(n) == 0) by (nonlinear_arith);
        } else {
            assert(s.len() - n == kept);
            lemma_power256_positive(n);
            vstd::arithmetic::div_mod::lemma_mod_multiples_basic(
                be_value(s.take(kept)) as int,
                power256(n) as int,
            );
        }
    }
}

impl Cid {
    #[verifier::type_invariant]
    closed spec fn valid(self) -> bool {
        valid_parts(self.parts())
    }

    /// What the identifier is made of. Identifiers with the same parts are the
    /// same.
    pub closed spec fn parts(self) -> CidParts {
        (self.v1, self.codec, self.hash_code, self.len, self.d0, self.d1, self.d2, self.d3)
    }

    /// The identifier with the given parts.
    pub closed spec fn of_parts(p: CidParts) -> Cid {
        Cid {
            v1: p.0,
            codec: p.1,
            hash_code: p.2,
            len: p.3,
            d0: p.4,
            d1: p.5,
            d2: p.6,
            d3: p.7,
        }
    }

    /// An identifier is the one with its parts, and the parts of the identifier
    /// with given parts are those.
    pub broadcast proof fn parts_inverse(self)
        ensures
            Cid::of_parts(#[trigger] self.parts()) == self,
    {
    }

    pub broadcast proof fn of_parts_inverse(p: CidParts)
        ensures
            (#[trigger] Cid::of_parts(p)).parts() == p,
    {
    }

    /// What the identifier is made of.
    pub fn to_parts(&self) -> (r: CidParts)
        ensures
            r == self.parts(),
            valid_parts(r),
    {
        proof {
            use_type_invariant(self);
        }
        (self.v1, self.codec, self.hash_code, self.len, self.d0, self.d1, self.d2, self.d3)
    }

    /// The identifier with the given parts.
    pub fn from_parts(p: CidParts) -> (r: Cid)
        requires
            valid_parts(p),
        ensures
            r == Cid::of_parts(p),
            r.parts() == p,
    {
        Cid {
            v1: p.0,
            codec: p.1,
            hash_code: p.2,
            len: p.3,
            d0: p.4,
            d1: p.5,
            d2: p.6,
            d3: p.7,
        }
    }

    /// The codec of the content.
    pub fn codec(&self) -> (r: u64)
        ensures
            r == self.parts().1,
    {
        self.codec
    }

    /// The code of the hash function.
    pub fn hash_code(&self) -> (r: u64)
        ensures
            r == self.parts().2,
    {
        self.hash_code
    }

    /// The length of the digest.
    pub fn digest_len(&self) -> (r: u8)
        ensures
            r == self.parts().3,
    {
        self.len
    }

    /// The first thirty-two bytes of the digest.
    pub fn digest_key(&self) -> (r: Key)
        ensures
            r == (Key { hi: self.parts().4, lo: self.parts().5 }),
    {
        Key { hi: self.d0, lo: self.d1 }
    }

    /// The identifier of version one with a codec, a hash function and a digest.
    /// A digest of more than 64 bytes is refused.
    pub fn new_v1(codec: u64, hash_code: u64, digest: &[u8]) -> (r: Option<Cid>)
        ensures
            r is Some <==> digest@.len() <= 64,
            r is Some ==> r->0.parts() == (
                true,
                codec,
                hash_code,
                digest@.len() as u8,
                be_value(padded(digest@).subrange(0, 16)) as u128,
                be_value(padded(digest@).subrange(16, 32)) as u128,
                be_value(padded(digest@).subrange(32, 48)) as u128,
                be_value(padded(digest@).subrange(48, 64)) as u128,
            ),
    {
        if digest.len() > 64 {
            return None;
        }
        let mut bytes: Vec<u8> = Vec::new();
        let mut i: usize = 0;
        while i < 64
            invariant
                i <= 64,
                digest@.len() <= 64,
                bytes@ == padded(digest@).take(i as int),
            decreases 64 - i,
        {
            bytes.push(
                if i < digest.len() {
                    digest[i]
                } else {
                    0
                },
            );
            i += 1;
            assert(bytes@ =~= padded(digest@).take(i as int));
        }
        assert(bytes@ =~= padded(digest@));
        let d0: u128 = word_at(bytes.as_slice(), 0);
        let d1: u128 = word_at(bytes.as_slice(), 16);
        let d2: u128 = word_at(bytes.as_slice(), 32);
        let d3: u128 = word_at(bytes.as_slice(), 48);
        proof {
            lemma_padding(digest@, 0, d0);
            lemma_padding(digest@, 16, d1);
            lemma_padding(digest@, 32, d2);
            lemma_padding(digest@, 48, d3);
        }
        Some(Cid { v1: true, codec, hash_code, len: digest.len() as u8, d0, d1, d2, d3 })
    }

    /// The identifier as text.
    pub open spec fn text(self) -> Seq<char> {
        cid_text(self.parts())
    }

    /// The identifier as its canonical multibase text.
    pub fn to_text(&self) -> (r: String)
        ensures
            r@ == self.text(),
    {
        cid_display(self.to_parts())
    }

    /// The identifier that `s` spells.
    pub fn parse(s: &str) -> (r: Option<Cid>)
        ensures
            match r {
                Some(cid) => cid_parse(s@) == Some(cid.parts()),
                None => cid_parse(s@) is None,
            },
    {
        match cid_from_str(s) {
            Some(p) => Some(Cid::from_parts(p)),
            None => None,
        }
    }
}

/// No two ids have the same text, and every text is forty characters, none of which is a
/// comma or white space.
pub proof fn law_ids_are_told_apart_by_their_texts(a: Oid, b: Oid)
    ensures
        a.text() == b.text() ==> a == b,
        a.text().len() == 40,
        forall|i: int|
            0 <= i < 40 ==> ('0' <= #[trigger] a.text()[i] <= '9' || 'a' <= a.text()[i] <= 'f'),
{
    lemma_text_spells(a.hi, a.lo);
    lemma_text_spells(b.hi, b.lo);
    if a.text() == b.text() {
        lemma_spells_one(a.text(), a.hi, a.lo, b.hi, b.lo);
    }
    assert forall|i: int| 0 <= i < 40 implies ('0' <= #[trigger] a.text()[i] <= '9' || 'a'
        <= a.text()[i] <= 'f') by {
        let (hi, lo) = (a.hi, a.lo);
        if i < 8 {
            let x = hi >> ((28 - 4 * i) as u32);
            assert(x & 0xf < 16) by (bit_vector);
        } else {
            let x = lo >> ((156 - 4 * i) as u128);
            assert(x & 0xf < 16) by (bit_vector);
        }
    }
}

/// No two texts of bytes of one length spell the same number, so no two arrays of bytes
/// spell the same key.
pub proof fn law_bytes_are_told_apart_by_their_number(a: Seq<u8>, b: Seq<u8>)
    requires
        a.len() == b.len(),
        be_value(a) == be_value(b),
    ensures
        a == b,
    decreases a.len(),
{
    if a.len() > 0 {
        let (x, y) = (be_value(a.drop_last()), be_value(b.drop_last()));
        assert(x * 256 + a.last() as nat == y * 256 + b.last() as nat);
        assert(a.last() == b.last() && x == y);
        law_bytes_are_told_apart_by_their_number(a.drop_last(), b.drop_last());
        assert(a =~= a.drop_last().push(a.last()));
        assert(b =~= b.drop_last().push(b.last()));
    } else {
        assert(a =~= b);
    }
}

/// A hexadecimal digit is read by its value, whatever its case, and nothing else is one.
pub proof fn law_hexadecimal_digits_are_read_back(v: int, c: char)
    requires
        0 <= v < 16,
    ensures
        hex_value(hex_digit(v)) == Some(v),
        v >= 10 ==> hex_value((55 + v) as char) == Some(v),
        hex_value(c) matches Some(x) ==> 0 <= x < 16 && (c == hex_digit(x) || (x >= 10 && c as int
            == 55 + x)),
{
    if let Some(x) = hex_value(c) {
        assert(hex_digit(x) as int == c as int || c as int == 55 + x);
    }
}

} // verus!
