//! The hashing capability that the map is built over: how a key is turned into
//! 64-bit digests. The map never fixes a hash function; it asks a hash builder
//! for a hasher, feeds it the key, and draws digests from it.
//!
//! All three traits describe deterministic behaviour: what a hasher returns
//! depends on nothing but the bytes written to it since it was built. An impl
//! says in the trait's spec functions what it computes, and is held to that.
//! Where it says nothing, a spec function stands for some value of which
//! nothing else is known.

use vstd::prelude::*;

verus! {

/// A running hash computation: bytes go in, a 64-bit digest comes out.
pub trait KeyHasher {
    /// The digest that `finish` returns once the bytes of `suffix` have been
    /// written to this hasher, one after the other.
    open spec fn digest_after(&self, suffix: Seq<u8>) -> u64 {
        arbitrary()
    }

    /// Writes one byte into the hasher.
    fn write_u8(&mut self, byte: u8)
        ensures
            forall|s: Seq<u8>| #[trigger]
                final(self).digest_after(s) == old(self).digest_after(seq![byte] + s),
    ;

    /// The digest of the bytes written so far. The hasher stays usable.
    fn finish(&self) -> (digest: u64)
        ensures
            digest == self.digest_after(Seq::empty()),
    ;
}

/// A factory of hashers that all start from the same state.
pub trait BuildKeyHasher {
    type Hasher: KeyHasher;

    /// The digest of a hasher built here after the bytes of `written` went in.
    open spec fn fresh_digest(&self, written: Seq<u8>) -> u64 {
        arbitrary()
    }

    /// A new hasher in the initial state.
    fn build_hasher(&self) -> (hasher: Self::Hasher)
        ensures
            forall|s: Seq<u8>| #[trigger] hasher.digest_after(s) == self.fresh_digest(s),
    ;
}

/// A key that can be fed to a hasher, and compared with `==`.
pub trait HashKey: Eq + Sized {
    /// The bytes that stand for the key in a hash computation.
    open spec fn encoding(&self) -> Seq<u8> {
        arbitrary()
    }

    /// Writes the key's encoding into `state`.
    fn hash<H: KeyHasher>(&self, state: &mut H)
        ensures
            forall|s: Seq<u8>| #[trigger]
                final(state).digest_after(s) == old(state).digest_after(self.encoding() + s),
    ;

    /// `==` on keys holds of equal keys and of no others.
    proof fn lemma_eq_is_identity()
        ensures
            vstd::laws_eq::obeys_concrete_eq::<Self>(),
    ;
}

} // verus!
