//! The injected hashing capability.
//!
//! The tree never chooses a hash algorithm: the caller supplies one at
//! construction.  A hasher is modelled by a spec-level function from
//! character sequences to character sequences, and its executable method is
//! required to compute exactly that function, which makes every hasher pure
//! and deterministic by contract.

use vstd::prelude::*;
use vstd::string::StringExecFns;

verus! {

/// A hash value: an opaque string produced by the injected hash function.
pub type Hash = String;

/// The hashing capability injected into a tree at construction.
///
/// `hash_spec` is the mathematical function the hasher computes; `hash` is
/// its executable form and must return exactly `hash_spec` of its input.
pub trait HashFunction: Sized {
    /// The mathematical function this hasher computes.
    spec fn hash_spec(&self, input: Seq<char>) -> Seq<char>;

    /// Hash `input`.
    fn hash(&self, input: &str) -> (r: Hash)
        ensures
            r@ == self.hash_spec(input@),
    ;
}

/// A demonstration hasher mapping an input `x` to the string `H(x)`.
///
/// It is no cryptographic hash; it exists so that small trees can be built
/// and inspected with readable hash strings.
pub struct BasicHasher;

impl HashFunction for BasicHasher {
    open spec fn hash_spec(&self, input: Seq<char>) -> Seq<char> {
        "H("@ + input + ")"@
    }

    fn hash(&self, input: &str) -> (r: Hash) {
        let mut r = String::from_str("H(");
        r.append(input);
        r.append(")");
        r
    }
}

} // verus!
