//! The pieces of `std`'s `DefaultHasher` that fingerprints are built from.
//!
//! vstd models a `DefaultHasher` by the sequence of byte strings written to
//! it, and `finish` by the name `DefaultHasher::spec_finish` over that
//! sequence.  The items here add what the typed writes of `std::hash` hand to
//! the hasher, each under a name of its own.
use std::collections::hash_map::DefaultHasher;
use std::hash::{Hash, Hasher};
use vstd::prelude::*;
use vstd::std_specs::hash::DefaultHasherAdditionalSpecFns;

verus! {

/// What `Hash for str` writes into a hasher for a string with these characters.
pub uninterp spec fn str_writes(s: Seq<char>) -> Seq<Seq<u8>>;

/// What `Hasher::write_u64` writes into a hasher for the value `v`.
pub uninterp spec fn u64_writes(v: u64) -> Seq<Seq<u8>>;

/// The digest of a fresh `DefaultHasher` after the given writes.
pub open spec fn digest(writes: Seq<Seq<u8>>) -> u64 {
    DefaultHasher::spec_finish(writes)
}

/// Calls `<str as Hash>::hash` on `s` with the hasher `h`.
/// Claimed: the writes appended to `h` are a function of the characters of
/// `s` alone (`str_writes`); nothing is said of which bytes they are.
#[verifier::external_body]
pub(crate) fn hash_str(h: &mut DefaultHasher, s: &str)
    ensures
        final(h)@ == old(h)@ + str_writes(s@),
{
    s.hash(h);
}

/// Calls `Hasher::write_u64(h, v)`.
/// Claimed: the writes appended to `h` are a function of `v` alone
/// (`u64_writes`); nothing is said of which bytes they are.
#[verifier::external_body]
pub(crate) fn write_u64(h: &mut DefaultHasher, v: u64)
    ensures
        final(h)@ == old(h)@ + u64_writes(v),
{
    h.write_u64(v);
}

} // verus!
