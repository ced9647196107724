//! JSON values, held as their compact text.

use crate::text::{decimal, decimal_text};
use vstd::prelude::*;

verus! {

/// A JSON value.
pub struct Json {
    text: String,
}

/// The compact text that `serde_json` gives to the value that `s` spells, or what
/// it says where `s` is not JSON.
pub uninterp spec fn json_compact(s: Seq<char>) -> Result<Seq<char>, Seq<char>>;

/// The compact text of the JSON string with the content `s`.
pub uninterp spec fn json_quoted(s: Seq<char>) -> Seq<char>;

/// What `serde_json::Value::as_u64` reads out of the value with the compact text
/// `s`.
pub uninterp spec fn json_u64(s: Seq<char>) -> Option<u64>;

/// What `serde_json::Value::as_str` reads out of the value with the compact text
/// `s`.
pub uninterp spec fn json_str(s: Seq<char>) -> Option<Seq<char>>;

/// `serde_json::from_str` into a `serde_json::Value`, written out again in the
/// compact form that `serde_json::to_vec` writes too; or `Display` of its error.
#[verifier::external_body]
fn compact(s: &str) -> (r: Result<String, String>)
    ensures
        match json_compact(s@) {
            Ok(t) => r is Ok && r->Ok_0@ == t,
            Err(e) => r is Err && r->Err_0@ == e,
        },
{
    let value: serde_json::Value = serde_json::from_str(s).map_err(|e| e.to_string())?;
    Ok(value.to_string())
}

/// `Display` of `serde_json::Value::String`: the content in quotes, escaped. It
/// reads back as the same content, and as no number.
#[verifier::external_body]
fn quoted(s: &str) -> (r: String)
    ensures
        r@ == json_quoted(s@),
        json_str(r@) == Some(s@),
        json_u64(r@) is None,
{
    serde_json::Value::String(s.to_string()).to_string()
}

/// `serde_json::Value::as_u64` of the value with the compact text `s`. A decimal
/// number that fits reads as itself.
#[verifier::external_body]
fn as_u64(s: &str) -> (r: Option<u64>)
    ensures
        r == json_u64(s@),
        forall|n: u64| s@ == #[trigger] decimal_text(n as nat) ==> r == Some(n),
{
    let value: serde_json::Value = serde_json::from_str(s).ok()?;
    value.as_u64()
}

/// `serde_json::Value::as_str` of the value with the compact text `s`.
#[verifier::external_body]
fn as_str(s: &str) -> (r: Option<String>)
    ensures
        match json_str(s@) {
            Some(t) => r is Some && r->0@ == t,
            None => r is None,
        },
{
    let value: serde_json::Value = serde_json::from_str(s).ok()?;
    value.as_str().map(String::from)
}

impl View for Json {
    type V = Seq<char>;

    closed spec fn view(&self) -> Seq<char> {
        self.text@
    }
}

impl Clone for Json {
    fn clone(&self) -> (r: Json)
        ensures
            r == *self,
    {
        Json { text: self.text.clone() }
    }
}

impl Json {
    /// The value that `s` spells, or why it spells none.
    pub fn parse(s: &str) -> (r: Result<Json, String>)
        ensures
            match json_compact(s@) {
                Ok(t) => r is Ok && r->Ok_0@ == t,
                Err(e) => r is Err && r->Err_0@ == e,
            },
    {
        match compact(s) {
            Ok(text) => Ok(Json { text }),
            Err(e) => Err(e),
        }
    }

    /// The string with the content `s`.
    pub fn string(s: &str) -> (r: Json)
        ensures
            r@ == json_quoted(s@),
            json_str(r@) == Some(s@),
            json_u64(r@) is None,
    {
        Json { text: quoted(s) }
    }

    /// The number `n`.
    pub fn number(n: u64) -> (r: Json)
        ensures
            r@ == decimal_text(n as nat),
    {
        Json { text: decimal(n) }
    }

    /// The compact text.
    pub fn as_text(&self) -> (r: &str)
        ensures
            r@ == self@,
    {
        self.text.as_str()
    }

    /// The value as a number that fits into 64 bits without a sign.
    pub fn as_u64(&self) -> (r: Option<u64>)
        ensures
            r == json_u64(self@),
            forall|n: u64| self@ == #[trigger] decimal_text(n as nat) ==> r == Some(n),
    {
        as_u64(self.text.as_str())
    }

    /// The content, where the value is a string.
    pub fn as_string(&self) -> (r: Option<String>)
        ensures
            match json_str(self@) {
                Some(t) => r is Some && r->0@ == t,
                None => r is None,
            },
    {
        as_str(self.text.as_str())
    }

    /// Whether `self` and `other` are the same value.
    pub fn same(&self, other: &Json) -> (r: bool)
        ensures
            r == (self@ == other@),
    {
        self.text == other.text
    }
}

} // verus!
