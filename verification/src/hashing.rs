//! The base hash of a key, from the standard library's default hasher.

use std::collections::hash_map::DefaultHasher;
use std::hash::Hasher;
use vstd::prelude::*;
use vstd::std_specs::hash::DefaultHasherAdditionalSpecFns;
use vstd::utf8::encode_utf8;

verus! {

/// The base 64-bit hash of a key: what `DefaultHasher` returns after the
/// key's UTF-8 bytes are written to a fresh hasher. An uninterpreted but
/// deterministic function of the key.
pub open spec fn hash_of(k: Seq<char>) -> u64 {
    DefaultHasher::spec_finish(seq![encode_utf8(k)])
}

/// Computes [`hash_of`] for a key.
pub fn hash_key(key: &str) -> (h: u64)
    ensures
        h == hash_of(key@),
{
    let mut hasher = DefaultHasher::new();
    hasher.write(key.as_bytes());
    proof {
        assert(hasher@ =~= seq![encode_utf8(key@)]);
    }
    hasher.finish()
}

} // verus!
