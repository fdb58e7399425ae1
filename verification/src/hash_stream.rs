//! Turns the digests of a hasher into an endless sequence of slot indices.

use crate::hasher::KeyHasher;
use vstd::prelude::*;

verus! {

/// The number of bits of a machine word: the number of slots of a branch.
pub const BITS_IN_POINTER: usize = usize::BITS as usize;

/// The number of bits in a digest.
pub const BITS_IN_DIGEST: u8 = 64;

/// The byte that is written to the hasher before another digest is drawn.
pub const MARKER: u8 = 1;

/// The number of bits of an index: the logarithm of the number of slots.
pub open spec fn group_bits() -> nat {
    if usize::BITS == 64 {
        6
    } else {
        5
    }
}

/// The number of bits that select one of the slots of a branch.
pub fn bits_to_represent_pointer() -> (bits: usize)
    ensures
        bits == group_bits(),
{
    let width: u32 = usize::BITS;
    let zeros: u32 = width.trailing_zeros();
    proof {
        vstd::std_specs::bits::axiom_u32_trailing_zeros(width);
        assert(width == 64 ==> zeros == 6) by (bit_vector)
            requires
                zeros < 32,
                (width >> zeros) & 1 == 1,
        ;
        assert(width == 32 ==> zeros == 5) by (bit_vector)
            requires
                zeros < 32,
                (width >> zeros) & 1 == 1,
        ;
    }
    zeros as usize
}

/// `round` marker bytes.
pub open spec fn markers(round: nat) -> Seq<u8> {
    Seq::new(round, |i: int| MARKER)
}

/// What is left of a digest once its `eaten` lowest bits are gone.
pub open spec fn drained(digest: u64, eaten: nat) -> u64 {
    if eaten >= 64 {
        0
    } else {
        digest >> (eaten as u64)
    }
}

/// Bit `p` of the bit stream made by the digests of all rounds, one after the
/// other, each from its lowest bit up.
pub open spec fn bit_at(digests: spec_fn(nat) -> u64, p: nat) -> nat {
    (drained(digests(p / 64), p % 64) & 1) as nat
}

/// The number whose binary digits are the `width` bits of the stream from
/// position `start` on, the first of them the lowest.
pub open spec fn group_at(digests: spec_fn(nat) -> u64, start: nat, width: nat) -> nat
    decreases width,
{
    if width == 0 {
        0
    } else {
        bit_at(digests, start) + 2 * group_at(digests, start + 1, (width - 1) as nat)
    }
}

/// Index number `n` of the stream that has consumed `eaten` bits of `digests`.
pub open spec fn index_at(digests: spec_fn(nat) -> u64, eaten: nat, n: nat) -> nat {
    group_at(digests, eaten + n * group_bits(), group_bits())
}

/// A group of `width` bits is a number below two to the power `width`.
pub proof fn lemma_group_bound(digests: spec_fn(nat) -> u64, start: nat, width: nat)
    ensures
        group_at(digests, start, width) < vstd::arithmetic::power2::pow2(width),
    decreases width,
{
    vstd::arithmetic::power2::lemma2_to64();
    if width > 0 {
        lemma_group_bound(digests, start + 1, (width - 1) as nat);
        vstd::arithmetic::power2::lemma_pow2_unfold(width);
        let b = drained(digests(start / 64), start % 64);
        assert(b & 1 <= 1) by (bit_vector);
    }
}

/// Every index is the number of a slot.
pub proof fn lemma_index_bound(digests: spec_fn(nat) -> u64, eaten: nat, n: nat)
    ensures
        index_at(digests, eaten, n) < usize::BITS,
{
    lemma_group_bound(digests, eaten + n * group_bits(), group_bits());
    vstd::arithmetic::power2::lemma2_to64();
}

/// The low `width` bits of what is left of one digest are the group that starts
/// where the digest has been consumed to, as long as the group ends within it.
proof fn lemma_group_within(digests: spec_fn(nat) -> u64, round: nat, eaten: nat, width: nat)
    requires
        eaten + width <= 64,
        width <= 8,
    ensures
        group_at(digests, 64 * round + eaten, width) == drained(digests(round), eaten) & low_mask(
            width,
        ),
    decreases width,
{
    let d = digests(round);
    let x = drained(d, eaten);
    let w = width as u64;
    if width == 0 {
        assert(x & (((1u64 << w) - 1) as u64) == 0) by (bit_vector)
            requires
                w == 0,
        ;
    } else {
        lemma_group_within(digests, round, eaten + 1, (width - 1) as nat);
        let start = 64 * round + eaten;
        assert(start / 64 == round && start % 64 == eaten);
        assert(64 * round + (eaten + 1) == start + 1);
        let y = drained(d, eaten + 1);
        let e = eaten as u64;
        assert(y == x >> 1) by (bit_vector)
            requires
                e < 64,
                x == d >> e,
                y == (if e + 1 >= 64 {
                    0
                } else {
                    d >> ((e + 1) as u64)
                }),
        ;
        let v = (w - 1) as u64;
        assert(x & (((1u64 << w) - 1) as u64) == (x & 1) + 2 * ((x >> 1) & (((1u64 << v) - 1) as u64)))
            by (bit_vector)
            requires
                1 <= w <= 8,
                v == w - 1,
        ;
    }
}

/// A group that starts in one digest and ends in the next is made of what is
/// left of the first, below, and of the lowest bits of the second, above.
proof fn lemma_group_across(digests: spec_fn(nat) -> u64, round: nat, eaten: nat, width: nat)
    requires
        eaten <= 64,
        eaten + width > 64,
        width <= 8,
    ensures
        group_at(digests, 64 * round + eaten, width) == drained(digests(round), eaten) | ((digests(
            round + 1,
        ) & low_mask((eaten + width - 64) as nat)) << ((64 - eaten) as u64)),
    decreases 64 - eaten,
{
    let d0 = digests(round);
    let d1 = digests(round + 1);
    let x = drained(d0, eaten);
    let need = (eaten + width - 64) as u64;
    let left = (64 - eaten) as u64;
    let t = d1 & low_mask(need as nat);
    if eaten == 64 {
        lemma_group_within(digests, round + 1, 0, width);
        assert(64 * round + eaten == 64 * (round + 1) + 0);
        assert(drained(d1, 0) == d1) by (bit_vector)
            requires
                drained(d1, 0) == d1 >> 0u64,
        ;
        assert(x | (t << left) == t) by (bit_vector)
            requires
                x == 0,
                left == 0,
        ;
    } else {
        lemma_group_across(digests, round, eaten + 1, (width - 1) as nat);
        let start = 64 * round + eaten;
        assert(start / 64 == round && start % 64 == eaten);
        assert(64 * round + (eaten + 1) == start + 1);
        let y = drained(d0, eaten + 1);
        let e = eaten as u64;
        assert(y == x >> 1) by (bit_vector)
            requires
                e < 64,
                x == d0 >> e,
                y == (if e + 1 >= 64 {
                    0
                } else {
                    d0 >> ((e + 1) as u64)
                }),
        ;
        let m = (left - 1) as u64;
        assert(x | (t << left) == (x & 1) + 2 * ((x >> 1) | (t << m))) by (bit_vector)
            requires
                1 <= left <= 7,
                m == left - 1,
                x == d0 >> ((64 - left) as u64),
                need <= 8,
                t == d1 & (((1u64 << need) - 1) as u64),
        ;
    }
}

/// The word whose `width` lowest bits are set.
pub open spec fn low_mask(width: nat) -> u64 {
    ((1u64 << (width as u64)) - 1) as u64
}

/// Where the digests of one hasher are those of another, one round later, its
/// groups are the other's, one digest further on.
proof fn lemma_group_next_round(
    before: spec_fn(nat) -> u64,
    after: spec_fn(nat) -> u64,
    start: nat,
    width: nat,
)
    requires
        forall|round: nat| #[trigger] after(round) == before(round + 1),
    ensures
        group_at(after, start, width) == group_at(before, 64 + start, width),
    decreases width,
{
    if width > 0 {
        lemma_group_next_round(before, after, start + 1, (width - 1) as nat);
        assert((64 + start) / 64 == start / 64 + 1 && (64 + start) % 64 == start % 64);
        assert(after(start / 64) == before(start / 64 + 1));
    }
}

/// An endless sequence of slot indices, drawn from the digests of a hasher.
///
/// The digests are consumed lowest bits first, one group of bits for each index.
/// When a digest is used up, a marker byte is written to the hasher and the next
/// digest drawn; a group that is cut by the end of a digest goes on with the
/// lowest bits of the next one.
pub struct HashStream<H: KeyHasher> {
    hasher: H,
    reservoir: u64,
    eaten: u8,
}

impl<H: KeyHasher> HashStream<H> {
    /// The hasher that the digests come from.
    pub closed spec fn hasher(&self) -> H {
        self.hasher
    }

    /// The number of bits of the current digest that have been consumed.
    pub closed spec fn eaten(&self) -> nat {
        self.eaten as nat
    }

    /// The digest of round `round`, counted from the current digest on.
    pub open spec fn digest(&self, round: nat) -> u64 {
        self.hasher().digest_after(markers(round))
    }

    /// The digests of all rounds, from the current one on.
    pub open spec fn digests(&self) -> spec_fn(nat) -> u64 {
        |round: nat| self.digest(round)
    }

    /// The index that the call number `n` of `next` from now on returns.
    pub open spec fn index(&self, n: nat) -> nat {
        index_at(self.digests(), self.eaten(), n)
    }

    /// The reservoir holds what is left of the current digest.
    pub closed spec fn wf(&self) -> bool {
        &&& self.eaten <= 64
        &&& self.reservoir == drained(self.digest(0), self.eaten as nat)
    }

    /// The stream of the digests of `hasher`, with nothing consumed yet.
    pub fn new(hasher: H) -> (stream: Self)
        ensures
            stream.wf(),
            stream.hasher() == hasher,
            stream.eaten() == 0,
    {
        let reservoir = hasher.finish();
        proof {
            assert(markers(0) =~= Seq::<u8>::empty());
            assert(reservoir >> 0u64 == reservoir) by (bit_vector);
        }
        HashStream { reservoir, hasher, eaten: 0 }
    }

    /// The next index of the stream. There always is one.
    pub fn next(&mut self) -> (index: Option<u8>)
        requires
            old(self).wf(),
        ensures
            final(self).wf(),
            index == Some(old(self).index(0) as u8),
            old(self).index(0) < usize::BITS,
            forall|n: nat| #[trigger] final(self).index(n) == old(self).index(n + 1),
            old(self).eaten() + group_bits() <= 64 ==> {
                &&& final(self).hasher() == old(self).hasher()
                &&& final(self).eaten() == old(self).eaten() + group_bits()
            },
            old(self).eaten() + group_bits() > 64 ==> {
                &&& forall|round: nat| #[trigger] final(self).digest(round) == old(self).digest(round + 1)
                &&& final(self).eaten() == old(self).eaten() + group_bits() - 64
            },
    {
        let bits = bits_to_represent_pointer() as u8;
        let limit = BITS_IN_DIGEST - bits;
        let ghost before = old(self).digests();
        let ghost eaten = old(self).eaten();
        let ghost width = group_bits();
        proof {
            lemma_index_bound(before, eaten, 0);
            assert(eaten + 0 * width == eaten);
            assert(64 * 0 + eaten == eaten);
        }
        if self.eaten > limit {
            let need = self.eaten - limit;
            let left = bits - need;
            let leftovers = self.reservoir;

            self.hasher.write_u8(MARKER);
            self.reservoir = self.hasher.finish();

            proof {
                assert((1u64 << need) >= 1) by (bit_vector)
                    requires
                        need < 64,
                ;
            }
            let mask = (1u64 << need) - 1;
            let needed = self.reservoir & mask;
            let fresh = self.reservoir;
            self.reservoir = self.reservoir >> need;
            self.eaten = need;
            let result = needed << left | leftovers;
            proof {
                let after = final(self).digests();
                assert forall|round: nat| #[trigger]
                    final(self).digest(round) == old(self).digest(round + 1) by {
                    assert(seq![MARKER] + markers(round) =~= markers(round + 1));
                }
                assert forall|round: nat| #[trigger] after(round) == before(round + 1) by {
                    assert(final(self).digest(round) == old(self).digest(round + 1));
                }
                assert(fresh == after(0)) by {
                    assert(markers(0) =~= Seq::<u8>::empty());
                }
                lemma_group_across(before, 0, eaten, width);
                assert(result == leftovers | (needed << left)) by (bit_vector)
                    requires
                        result == needed << left | leftovers,
                ;
                assert forall|n: nat| #[trigger] final(self).index(n) == old(self).index(n + 1) by {
                    lemma_group_next_round(before, after, need as nat + n * width, width);
                    assert(64 + (need as nat + n * width) == eaten + (n + 1) * width)
                        by (nonlinear_arith)
                        requires
                            64 + need == eaten + width,
                    ;
                }
            }
            Some(result as u8)
        } else {
            proof {
                assert((1u64 << bits) >= 1) by (bit_vector)
                    requires
                        bits < 64,
                ;
            }
            let mask = (1u64 << bits) - 1;
            let result = self.reservoir & mask;
            let ghost whole = self.reservoir;
            self.reservoir = self.reservoir >> bits;
            self.eaten += bits;
            proof {
                lemma_group_within(before, 0, eaten, width);
                let d = before(0);
                let e = eaten as u64;
                let w = width as u64;
                let rest = final(self).reservoir;
                let sum = (e + w) as u64;
                assert(rest == (if sum >= 64 {
                    0
                } else {
                    d >> sum
                })) by (bit_vector)
                    requires
                        e <= 64,
                        1 <= w <= 8,
                        sum == e + w,
                        sum <= 64,
                        whole == d >> e,
                        rest == whole >> w,
                ;
                assert(final(self).digests() =~= before);
                assert forall|n: nat| #[trigger] final(self).index(n) == old(self).index(n + 1) by {
                    assert(eaten + width + n * width == eaten + (n + 1) * width)
                        by (nonlinear_arith);
                }
            }
            Some(result as u8)
        }
    }

    /// The stream without its next `n` indices.
    pub fn skip(self, n: usize) -> (rest: Self)
        requires
            self.wf(),
        ensures
            rest.wf(),
            forall|j: nat| #[trigger] rest.index(j) == self.index((n + j) as nat),
    {
        let mut rest = self;
        let mut done: usize = 0;
        while done < n
            invariant
                done <= n,
                rest.wf(),
                forall|j: nat| #[trigger] rest.index(j) == self.index((done + j) as nat),
            decreases n - done,
        {
            let ghost before = rest;
            let _ = rest.next();
            done += 1;
            proof {
                assert forall|j: nat| #[trigger] rest.index(j) == self.index((done + j) as nat) by {
                    assert(rest.index(j) == before.index(j + 1));
                    assert(before.index(j + 1) == self.index(((done - 1) + (j + 1)) as nat));
                }
            }
        }
        rest
    }

    /// The next `n` indices of the stream, in the order in which they come.
    pub fn take(&mut self, n: usize) -> (taken: Vec<u8>)
        requires
            old(self).wf(),
        ensures
            final(self).wf(),
            taken.len() == n,
            forall|i: int| 0 <= i < n ==> #[trigger] taken[i] == old(self).index(i as nat),
            forall|j: nat| #[trigger] final(self).index(j) == old(self).index((n + j) as nat),
    {
        let mut taken: Vec<u8> = Vec::new();
        while taken.len() < n
            invariant
                taken.len() <= n,
                self.wf(),
                forall|i: int| 0 <= i < taken.len() ==> #[trigger] taken[i] == old(self).index(i as nat),
                forall|j: nat| #[trigger] self.index(j) == old(self).index((taken.len() + j) as nat),
            decreases n - taken.len(),
        {
            let ghost before = *self;
            let ghost count = taken.len();
            let index = self.next();
            match index {
                Some(i) => {
                    taken.push(i);
                },
                None => {},
            }
            proof {
                assert(before.index(0) == old(self).index((count + 0) as nat));
                assert forall|j: nat| #[trigger] self.index(j) == old(self).index((taken.len() + j) as nat) by {
                    assert(self.index(j) == before.index(j + 1));
                    assert(before.index(j + 1) == old(self).index((count + (j + 1)) as nat));
                }
            }
        }
        taken
    }
}

} // verus!
