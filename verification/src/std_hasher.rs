//! The default hashing capability: std's `DefaultHasher`, started afresh for
//! every key, so that equal keys get equal digests wherever they are hashed.

use crate::hasher::{BuildKeyHasher, KeyHasher};
use std::collections::hash_map::DefaultHasher;
use std::hash::Hasher;
use vstd::prelude::*;
use vstd::std_specs::hash::DefaultHasherAdditionalSpecFns;

verus! {

/// The writes that hand over the bytes of `bytes` one at a time.
pub open spec fn single_writes(bytes: Seq<u8>) -> Seq<Seq<u8>> {
    Seq::new(bytes.len(), |i: int| seq![bytes[i]])
}

/// A `DefaultHasher` of std, written to byte by byte.
pub struct DefaultKeyHasher {
    inner: DefaultHasher,
}

impl DefaultKeyHasher {
    /// The writes that the hasher has received, each with its bytes.
    pub closed spec fn written(&self) -> Seq<Seq<u8>> {
        self.inner@
    }
}

impl KeyHasher for DefaultKeyHasher {
    open spec fn digest_after(&self, suffix: Seq<u8>) -> u64 {
        DefaultHasher::spec_finish(self.written() + single_writes(suffix))
    }

    fn write_u8(&mut self, byte: u8) {
        let buffer = [byte];
        self.inner.write(buffer.as_slice());
        proof {
            assert(buffer@ =~= seq![byte]);
            assert forall|s: Seq<u8>| #[trigger]
                final(self).digest_after(s) == old(self).digest_after(seq![byte] + s) by {
                assert(final(self).written() + single_writes(s) =~= old(self).written()
                    + single_writes(seq![byte] + s));
            }
        }
    }

    fn finish(&self) -> (digest: u64) {
        proof {
            assert(self.written() + single_writes(Seq::<u8>::empty()) =~= self.written());
        }
        self.inner.finish()
    }
}

/// Builds hashers that all start as `DefaultHasher::new()` does.
#[derive(Clone, Copy, Debug)]
pub struct DefaultState;

impl BuildKeyHasher for DefaultState {
    type Hasher = DefaultKeyHasher;

    open spec fn fresh_digest(&self, written: Seq<u8>) -> u64 {
        DefaultHasher::spec_finish(single_writes(written))
    }

    fn build_hasher(&self) -> (hasher: DefaultKeyHasher) {
        let hasher = DefaultKeyHasher { inner: DefaultHasher::new() };
        proof {
            assert forall|s: Seq<u8>| #[trigger] hasher.digest_after(s) == self.fresh_digest(s) by {
                assert(hasher.written() + single_writes(s) =~= single_writes(s));
            }
        }
        hasher
    }
}

impl Default for DefaultState {
    fn default() -> (state: Self)
        ensures
            state == DefaultState,
    {
        DefaultState
    }
}

} // verus!
