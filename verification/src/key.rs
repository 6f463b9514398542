//! What a table asks of its keys: a hash that depends on the key's value alone,
//! and an equality test that agrees with equality of values.

use std::collections::hash_map::DefaultHasher;
use std::hash::Hasher;
use vstd::bytes::{spec_u64_to_le_bytes, u64_to_le_bytes};
use vstd::prelude::*;
use vstd::std_specs::hash::DefaultHasherAdditionalSpecFns;
use vstd::utf8::{encode_utf8, encode_utf8_decode_utf8};

verus! {

/// A type whose values can key a table.
///
/// A key is identified by its view: two keys with the same view are the same
/// key, and hash alike.
pub trait Key: View + Sized {
    /// The hash of the key whose view is `v`.
    spec fn spec_digest(v: Self::V) -> u64;

    /// Computes the hash of this key.
    fn digest(&self) -> (h: u64)
        ensures
            h == Self::spec_digest(self@),
    ;

    /// Tells whether `self` and `other` are the same key.
    fn same(&self, other: &Self) -> (b: bool)
        ensures
            b == (self@ == other@),
    ;
}

/// The hash of a text: what a fresh default hasher returns after it was fed
/// the UTF-8 encoding of the text and then the single byte `0xFF`.
pub open spec fn text_digest(chars: Seq<char>) -> u64 {
    DefaultHasher::spec_finish(seq![encode_utf8(chars), seq![0xFFu8]])
}

/// The hash of an integer: what a fresh default hasher returns after it was
/// fed the eight bytes of the integer, least significant first.
pub open spec fn integer_digest(x: u64) -> u64 {
    DefaultHasher::spec_finish(seq![spec_u64_to_le_bytes(x)])
}

fn digest_text(text: &str) -> (h: u64)
    ensures
        h == text_digest(text@),
{
    let mut hasher = DefaultHasher::new();
    hasher.write(text.as_bytes());
    let end: [u8; 1] = [0xFFu8];
    let tail = end.as_slice();
    assert(tail@ =~= seq![0xFFu8]);
    hasher.write(tail);
    assert(hasher@ =~= seq![encode_utf8(text@), seq![0xFFu8]]);
    hasher.finish()
}

fn same_text(a: &str, b: &str) -> (same: bool)
    ensures
        same == (a@ == b@),
{
    let x = a.as_bytes();
    let y = b.as_bytes();
    proof {
        // Two texts with the same encoding decode to the same characters.
        encode_utf8_decode_utf8(a@);
        encode_utf8_decode_utf8(b@);
    }
    if x.len() != y.len() {
        return false;
    }
    let mut i: usize = 0;
    while i < x.len()
        invariant
            x@.len() == y@.len(),
            i <= x@.len(),
            forall|j: int| 0 <= j < i ==> x@[j] == y@[j],
            x@ != y@ ==> a@ != b@,
        decreases x@.len() - i,
    {
        if x[i] != y[i] {
            return false;
        }
        i += 1;
    }
    assert(x@ =~= y@);
    true
}

impl<'a> Key for &'a str {
    open spec fn spec_digest(v: Seq<char>) -> u64 {
        text_digest(v)
    }

    fn digest(&self) -> (h: u64) {
        digest_text(*self)
    }

    fn same(&self, other: &Self) -> (b: bool) {
        same_text(*self, *other)
    }
}

impl Key for String {
    open spec fn spec_digest(v: Seq<char>) -> u64 {
        text_digest(v)
    }

    fn digest(&self) -> (h: u64) {
        digest_text(self.as_str())
    }

    fn same(&self, other: &Self) -> (b: bool) {
        same_text(self.as_str(), other.as_str())
    }
}

impl Key for u64 {
    open spec fn spec_digest(v: u64) -> u64 {
        integer_digest(v)
    }

    fn digest(&self) -> (h: u64) {
        let mut hasher = DefaultHasher::new();
        let bytes = u64_to_le_bytes(*self);
        hasher.write(bytes.as_slice());
        hasher.finish()
    }

    fn same(&self, other: &Self) -> (b: bool) {
        *self == *other
    }
}

} // verus!
