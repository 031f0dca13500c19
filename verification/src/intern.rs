//! Interned venue and instrument identifiers.
//!
//! Identical strings share one allocation in a process-wide cache, so copying a book
//! does not copy its identifiers.

use vstd::prelude::*;

verus! {

/// Look `s` up in the process-wide string cache of `ustr`, adding it if absent, and
/// return the cached copy.
///
/// Trusted: `ustr::ustr` stores the bytes of `s` (or finds an equal entry) and
/// `Ustr::as_str` hands back exactly those bytes, so the result reads as `s`. That
/// equal contents share one address is true of the cache but not stated here.
#[verifier::external_body]
fn intern_in_cache(s: &str) -> (r: &'static str)
    ensures
        r@ == s@,
{
    ustr::ustr(s).as_str()
}

/// Number of distinct strings in the `ustr` cache.
///
/// Trusted: returns `ustr::num_entries()`. Nothing is stated of the number, which
/// depends on every string any thread of the process has interned.
#[verifier::external_body]
fn cached_string_count() -> usize {
    ustr::num_entries()
}

/// An interned string: equal contents share one cached allocation.
#[derive(Clone, Copy, Debug, PartialEq, Eq, Hash)]
pub struct InternedString {
    inner: &'static str,
}

impl View for InternedString {
    type V = Seq<char>;

    closed spec fn view(&self) -> Seq<char> {
        self.inner@
    }
}

impl InternedString {
    /// Intern `s`, reusing the cached allocation when the string was seen before.
    pub fn new(s: &str) -> (r: InternedString)
        ensures
            r@ == s@,
    {
        InternedString { inner: intern_in_cache(s) }
    }

    /// The string content.
    pub fn as_str(&self) -> (r: &str)
        ensures
            r@ == self@,
    {
        self.inner
    }

    /// Length in bytes.
    pub fn len(&self) -> (r: usize)
        ensures
            r == vstd::utf8::encode_utf8(self@).len() as usize,
    {
        self.inner.len()
    }

    /// Whether the string is empty.
    pub fn is_empty(&self) -> (r: bool)
        ensures
            r == (self@.len() == 0),
    {
        self.inner.is_empty()
    }

    /// Number of distinct strings currently in the interning cache.
    pub fn cache_size() -> usize {
        cached_string_count()
    }
}

} // verus!
