//! Keys that a table can hold: a per-level hash and an equality, both
//! functions of the key's view.

use std::collections::hash_map::DefaultHasher;
use std::hash::{Hash, Hasher};
use vstd::prelude::*;

verus! {

/// What `DefaultHasher::new()` yields for the integer key `key` followed by `level`.
pub uninterp spec fn sip_of_integer(key: u64, level: u64) -> u64;

/// What `DefaultHasher::new()` yields for the text key `key` followed by `level`.
pub uninterp spec fn sip_of_text(key: Seq<char>, level: u64) -> u64;

/// Relies on `std::collections::hash_map::DefaultHasher`: every hasher made
/// by `DefaultHasher::new` starts from the same state (it is not seeded per
/// process), so for a given standard library and target the digest of `key`
/// then `level` depends on those two values alone.
#[verifier::external_body]
fn hash_integer_at_level(key: u64, level: u64) -> (r: u64)
    ensures
        r == sip_of_integer(key, level),
{
    let mut hasher = DefaultHasher::new();
    key.hash(&mut hasher);
    level.hash(&mut hasher);
    hasher.finish()
}

/// Relies on `std::collections::hash_map::DefaultHasher`, as the integer
/// variant does, fed with the characters of `key` then `level`.
#[verifier::external_body]
fn hash_text_at_level(key: &str, level: u64) -> (r: u64)
    ensures
        r == sip_of_text(key@, level),
{
    let mut hasher = DefaultHasher::new();
    key.hash(&mut hasher);
    level.hash(&mut hasher);
    hasher.finish()
}

/// A key type: hashed per level and compared through its view.
pub trait TableKey: Sized + View {
    /// The hash of a key (by its view) at a level.
    spec fn level_hash(key: Self::V, level: u64) -> u64;

    fn hash_at(&self, level: u64) -> (r: u64)
        ensures
            r == Self::level_hash(self@, level),
    ;

    fn same_key(&self, other: &Self) -> (r: bool)
        ensures
            r == (self@ == other@),
    ;
}

impl TableKey for usize {
    open spec fn level_hash(key: usize, level: u64) -> u64 {
        sip_of_integer(key as u64, level)
    }

    fn hash_at(&self, level: u64) -> (r: u64) {
        hash_integer_at_level(*self as u64, level)
    }

    fn same_key(&self, other: &usize) -> (r: bool) {
        *self == *other
    }
}

impl TableKey for u64 {
    open spec fn level_hash(key: u64, level: u64) -> u64 {
        sip_of_integer(key, level)
    }

    fn hash_at(&self, level: u64) -> (r: u64) {
        hash_integer_at_level(*self, level)
    }

    fn same_key(&self, other: &u64) -> (r: bool) {
        *self == *other
    }
}

impl TableKey for String {
    open spec fn level_hash(key: Seq<char>, level: u64) -> u64 {
        sip_of_text(key, level)
    }

    fn hash_at(&self, level: u64) -> (r: u64) {
        hash_text_at_level(self.as_str(), level)
    }

    fn same_key(&self, other: &String) -> (r: bool) {
        *self == *other
    }
}

} // verus!
