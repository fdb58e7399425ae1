//! The integers and `bool` as keys: each is hashed by its bytes, lowest byte
//! first.

use crate::hasher::{HashKey, KeyHasher};
use vstd::prelude::*;

verus! {

/// Byte number `i` of `value`, counted from the lowest.
pub open spec fn byte_of(value: u64, i: nat) -> u8 {
    ((value >> ((8 * i) as u64)) & 0xff) as u8
}

/// The `len` lowest bytes of `value`, the lowest first.
pub open spec fn low_bytes(value: u64, len: nat) -> Seq<u8> {
    Seq::new(len, |i: int| byte_of(value, i as nat))
}

/// Writes the `len` lowest bytes of `value` into `state`, the lowest first.
pub fn write_low_bytes<H: KeyHasher>(state: &mut H, value: u64, len: usize)
    requires
        len <= 8,
    ensures
        forall|s: Seq<u8>| #[trigger]
            final(state).digest_after(s) == old(state).digest_after(low_bytes(value, len as nat) + s),
{
    let mut i: usize = 0;
    proof {
        assert forall|s: Seq<u8>| #[trigger]
            state.digest_after(s) == old(state).digest_after(low_bytes(value, 0) + s) by {
            assert(low_bytes(value, 0) + s =~= s);
        }
    }
    while i < len
        invariant
            i <= len <= 8,
            forall|s: Seq<u8>| #[trigger]
                state.digest_after(s) == old(state).digest_after(low_bytes(value, i as nat) + s),
        decreases len - i,
    {
        let ghost before = *state;
        let shift: u64 = 8 * (i as u64);
        let byte = ((value >> shift) & 0xff) as u8;
        state.write_u8(byte);
        proof {
            assert(byte == byte_of(value, i as nat));
            assert forall|s: Seq<u8>| #[trigger]
                state.digest_after(s) == old(state).digest_after(
                    low_bytes(value, (i + 1) as nat) + s,
                ) by {
                assert(state.digest_after(s) == before.digest_after(seq![byte] + s));
                assert(low_bytes(value, i as nat) + (seq![byte] + s) =~= low_bytes(
                    value,
                    (i + 1) as nat,
                ) + s);
            }
        }
        i += 1;
    }
}

impl HashKey for u8 {
    open spec fn encoding(&self) -> Seq<u8> {
        low_bytes(*self as u64, 1)
    }

    fn hash<H: KeyHasher>(&self, state: &mut H) {
        write_low_bytes(state, *self as u64, 1);
    }

    proof fn lemma_eq_is_identity() {
        reveal(vstd::laws_eq::obeys_concrete_eq);
    }
}

impl HashKey for u16 {
    open spec fn encoding(&self) -> Seq<u8> {
        low_bytes(*self as u64, 2)
    }

    fn hash<H: KeyHasher>(&self, state: &mut H) {
        write_low_bytes(state, *self as u64, 2);
    }

    proof fn lemma_eq_is_identity() {
        reveal(vstd::laws_eq::obeys_concrete_eq);
    }
}

impl HashKey for u32 {
    open spec fn encoding(&self) -> Seq<u8> {
        low_bytes(*self as u64, 4)
    }

    fn hash<H: KeyHasher>(&self, state: &mut H) {
        write_low_bytes(state, *self as u64, 4);
    }

    proof fn lemma_eq_is_identity() {
        reveal(vstd::laws_eq::obeys_concrete_eq);
    }
}

impl HashKey for u64 {
    open spec fn encoding(&self) -> Seq<u8> {
        low_bytes(*self, 8)
    }

    fn hash<H: KeyHasher>(&self, state: &mut H) {
        write_low_bytes(state, *self, 8);
    }

    proof fn lemma_eq_is_identity() {
        reveal(vstd::laws_eq::obeys_concrete_eq);
    }
}

impl HashKey for usize {
    open spec fn encoding(&self) -> Seq<u8> {
        low_bytes(*self as u64, 8)
    }

    fn hash<H: KeyHasher>(&self, state: &mut H) {
        write_low_bytes(state, *self as u64, 8);
    }

    proof fn lemma_eq_is_identity() {
        reveal(vstd::laws_eq::obeys_concrete_eq);
    }
}

impl HashKey for i8 {
    open spec fn encoding(&self) -> Seq<u8> {
        low_bytes(*self as u64, 1)
    }

    fn hash<H: KeyHasher>(&self, state: &mut H) {
        write_low_bytes(state, *self as u64, 1);
    }

    proof fn lemma_eq_is_identity() {
        reveal(vstd::laws_eq::obeys_concrete_eq);
    }
}

impl HashKey for i16 {
    open spec fn encoding(&self) -> Seq<u8> {
        low_bytes(*self as u64, 2)
    }

    fn hash<H: KeyHasher>(&self, state: &mut H) {
        write_low_bytes(state, *self as u64, 2);
    }

    proof fn lemma_eq_is_identity() {
        reveal(vstd::laws_eq::obeys_concrete_eq);
    }
}

impl HashKey for i32 {
    open spec fn encoding(&self) -> Seq<u8> {
        low_bytes(*self as u64, 4)
    }

    fn hash<H: KeyHasher>(&self, state: &mut H) {
        write_low_bytes(state, *self as u64, 4);
    }

    proof fn lemma_eq_is_identity() {
        reveal(vstd::laws_eq::obeys_concrete_eq);
    }
}

impl HashKey for i64 {
    open spec fn encoding(&self) -> Seq<u8> {
        low_bytes(*self as u64, 8)
    }

    fn hash<H: KeyHasher>(&self, state: &mut H) {
        write_low_bytes(state, *self as u64, 8);
    }

    proof fn lemma_eq_is_identity() {
        reveal(vstd::laws_eq::obeys_concrete_eq);
    }
}

impl HashKey for isize {
    open spec fn encoding(&self) -> Seq<u8> {
        low_bytes(*self as u64, 8)
    }

    fn hash<H: KeyHasher>(&self, state: &mut H) {
        write_low_bytes(state, *self as u64, 8);
    }

    proof fn lemma_eq_is_identity() {
        reveal(vstd::laws_eq::obeys_concrete_eq);
    }
}

impl HashKey for u128 {
    open spec fn encoding(&self) -> Seq<u8> {
        low_bytes(*self as u64, 8) + low_bytes((*self >> 64) as u64, 8)
    }

    fn hash<H: KeyHasher>(&self, state: &mut H) {
        let ghost low = low_bytes(*self as u64, 8);
        let ghost high = low_bytes((*self >> 64) as u64, 8);
        write_low_bytes(state, *self as u64, 8);
        write_low_bytes(state, (*self >> 64) as u64, 8);
        proof {
            assert forall|s: Seq<u8>| #[trigger]
                final(state).digest_after(s) == old(state).digest_after(self.encoding() + s) by {
                assert(low + (high + s) =~= self.encoding() + s);
            }
        }
    }

    proof fn lemma_eq_is_identity() {
        reveal(vstd::laws_eq::obeys_concrete_eq);
    }
}

impl HashKey for i128 {
    open spec fn encoding(&self) -> Seq<u8> {
        low_bytes(*self as u64, 8) + low_bytes((*self >> 64) as u64, 8)
    }

    fn hash<H: KeyHasher>(&self, state: &mut H) {
        let ghost low = low_bytes(*self as u64, 8);
        let ghost high = low_bytes((*self >> 64) as u64, 8);
        write_low_bytes(state, *self as u64, 8);
        write_low_bytes(state, (*self >> 64) as u64, 8);
        proof {
            assert forall|s: Seq<u8>| #[trigger]
                final(state).digest_after(s) == old(state).digest_after(self.encoding() + s) by {
                assert(low + (high + s) =~= self.encoding() + s);
            }
        }
    }

    proof fn lemma_eq_is_identity() {
        reveal(vstd::laws_eq::obeys_concrete_eq);
    }
}

impl HashKey for bool {
    open spec fn encoding(&self) -> Seq<u8> {
        low_bytes(if *self { 1 } else { 0 }, 1)
    }

    fn hash<H: KeyHasher>(&self, state: &mut H) {
        write_low_bytes(state, if *self { 1 } else { 0 }, 1);
    }

    proof fn lemma_eq_is_identity() {
        reveal(vstd::laws_eq::obeys_concrete_eq);
    }
}

} // verus!
