//! What can go wrong with a release.

use crate::ids::{Cid, Oid};
use crate::text::{cat, cat3, cat5, decimal, decimal_text};
use vstd::prelude::*;

verus! {

/// Why a metadata entry cannot be set.
#[derive(Clone, Copy, PartialEq, Eq, Debug, Structural)]
pub enum Metadata {
    /// The key is empty.
    EmptyKey,
    /// The key is too long.
    KeyTooLong {
        /// Its length in bytes.
        actual: usize,
        /// The greatest length allowed.
        max: usize,
    },
    /// The key has a control character.
    KeyControlChar {
        /// The first of them.
        ch: char,
    },
    /// The value is too large.
    ValueTooLarge {
        /// The length of its serialization in bytes.
        actual: usize,
        /// The greatest length allowed.
        max: usize,
    },
}

/// `Debug` of a character: the character in quotes, escaped where it cannot be
/// shown.
pub uninterp spec fn char_debug(c: char) -> Seq<char>;

/// `Debug` of `char`, through `format!`.
#[verifier::external_body]
fn quote_char(c: char) -> (r: String)
    ensures
        r@ == char_debug(c),
{
    format!("{c:?}")
}

/// `Debug` of a text: the text in quotes, escaped where it cannot be shown.
pub uninterp spec fn str_debug(s: Seq<char>) -> Seq<char>;

/// `Debug` of `str`, through `format!`.
#[verifier::external_body]
pub(crate) fn quote(s: &str) -> (r: String)
    ensures
        r@ == str_debug(s@),
{
    format!("{s:?}")
}

/// The text of a length that goes beyond what is allowed.
pub open spec fn too_long_text(what: Seq<char>, actual: usize, max: usize) -> Seq<char> {
    what + " exceeds maximum length of "@ + decimal_text(max as nat) + " bytes (got "@
        + decimal_text(actual as nat) + ")"@
}

fn too_long(what: &str, actual: usize, max: usize) -> (r: String)
    ensures
        r@ == too_long_text(what@, actual, max),
{
    let head = cat(what, " exceeds maximum length of ");
    let most = decimal(max as u64);
    let got = decimal(actual as u64);
    cat5(head.as_str(), most.as_str(), " bytes (got ", got.as_str(), ")")
}

impl Metadata {
    /// The error as text.
    pub open spec fn text(self) -> Seq<char> {
        match self {
            Metadata::EmptyKey => "metadata key must not be empty"@,
            Metadata::KeyTooLong { actual, max } => too_long_text("metadata key"@, actual, max),
            Metadata::KeyControlChar { ch } => "metadata key contains control character "@
                + char_debug(ch),
            Metadata::ValueTooLarge { actual, max } => too_long_text(
                "metadata value"@,
                actual,
                max,
            ),
        }
    }

    /// The error as text.
    pub fn message(&self) -> (r: String)
        ensures
            r@ == self.text(),
    {
        match *self {
            Metadata::EmptyKey => "metadata key must not be empty".to_owned(),
            Metadata::KeyTooLong { actual, max } => too_long("metadata key", actual, max),
            Metadata::KeyControlChar { ch } => {
                let shown = quote_char(ch);
                cat("metadata key contains control character ", shown.as_str())
            },
            Metadata::ValueTooLarge { actual, max } => too_long("metadata value", actual, max),
        }
    }
}

/// Why an artifact cannot be redacted.
#[derive(Clone, Copy, PartialEq, Eq, Debug, Structural)]
pub enum Redact {
    /// The release does not have the artifact.
    NotFound {
        cid: Cid,
    },
    /// The reason is too long.
    ReasonTooLong {
        /// Its length in bytes.
        actual: usize,
        /// The greatest length allowed.
        max: usize,
    },
}

impl Redact {
    /// The error as text.
    pub open spec fn text(self) -> Seq<char> {
        match self {
            Redact::NotFound { cid } => "artifact "@ + cid.text() + " not found in release"@,
            Redact::ReasonTooLong { actual, max } => too_long_text("redaction reason"@, actual, max),
        }
    }

    /// The error as text.
    pub fn message(&self) -> (r: String)
        ensures
            r@ == self.text(),
    {
        match *self {
            Redact::NotFound { cid } => {
                let cid = cid.to_text();
                cat3("artifact ", cid.as_str(), " not found in release")
            },
            Redact::ReasonTooLong { actual, max } => too_long("redaction reason", actual, max),
        }
    }
}

/// Why a release cannot be created.
#[derive(Clone, Copy, PartialEq, Eq, Debug, Structural)]
pub enum Create {
    /// The repository has no annotated tag with the id.
    MissingTag {
        tag: Oid,
    },
    /// The tag does not lead to a commit.
    PeelFailed {
        tag: Oid,
    },
    /// The tag leads to another commit than the one of the release.
    TagMismatch {
        tag: Oid,
        /// The commit of the release.
        expected: Oid,
        /// The commit that the tag leads to.
        actual: Oid,
    },
    /// The release cannot be built.
    Build(Build),
}

impl Create {
    /// The error as text. `cause` is what git said of a missing commit.
    pub open spec fn text(self, cause: Seq<char>) -> Seq<char> {
        match self {
            Create::MissingTag { tag } => "annotated tag "@ + tag.text()
                + " not found in repository"@,
            Create::PeelFailed { tag } => "annotated tag "@ + tag.text()
                + " could not be resolved to a commit"@,
            Create::TagMismatch { tag, expected, actual } => "annotated tag "@ + tag.text()
                + " peels to commit "@ + actual.text() + ", expected "@ + expected.text(),
            Create::Build(e) => e.text(cause),
        }
    }

    /// The error as text. `cause` is what git said of a missing commit.
    pub fn message(&self, cause: &str) -> (r: String)
        ensures
            r@ == self.text(cause@),
    {
        match *self {
            Create::MissingTag { tag } => {
                let tag = tag.to_text();
                cat3("annotated tag ", tag.as_str(), " not found in repository")
            },
            Create::PeelFailed { tag } => {
                let tag = tag.to_text();
                cat3("annotated tag ", tag.as_str(), " could not be resolved to a commit")
            },
            Create::TagMismatch { tag, expected, actual } => {
                let tag = tag.to_text();
                let expected = expected.to_text();
                let actual = actual.to_text();
                let head = cat3("annotated tag ", tag.as_str(), " peels to commit ");
                let tail = cat3(actual.as_str(), ", expected ", expected.as_str());
                let r = cat(head.as_str(), tail.as_str());
                assert(r@ =~= self.text(cause@));
                r
            },
            Create::Build(e) => e.message(cause),
        }
    }
}

/// Why a release cannot be built from its history.
#[derive(Clone, Copy, PartialEq, Eq, Debug, Structural)]
pub enum Build {
    /// The first action of the history does not create the release.
    Initial,
    /// The repository does not have the commit that the release is for.
    MissingCommit {
        oid: Oid,
    },
}

impl Build {
    /// The error as text. `cause` is what git said of the missing commit.
    pub open spec fn text(self, cause: Seq<char>) -> Seq<char> {
        match self {
            Build::Initial => "initial action of release must create with an OID"@,
            Build::MissingCommit { oid } => "missing commit for release "@ + oid.text() + ": "@
                + cause,
        }
    }

    /// The error as text. `cause` is what git said of the missing commit.
    pub fn message(&self, cause: &str) -> (r: String)
        ensures
            r@ == self.text(cause@),
    {
        match *self {
            Build::Initial => "initial action of release must create with an OID".to_owned(),
            Build::MissingCommit { oid } => {
                let oid = oid.to_text();
                let head = cat3("missing commit for release ", oid.as_str(), ": ");
                cat(head.as_str(), cause)
            },
        }
    }
}

} // verus!
