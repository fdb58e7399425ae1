//! The presence bitmap of a branch: one machine word, one bit per child slot.

use vstd::prelude::*;

verus! {

/// Whether bit `i` of `word` is one. There are no bits at or above the word's width.
pub open spec fn bit_of(word: usize, i: nat) -> bool {
    i < usize::BITS && (word >> (i as usize)) & 1 == 1
}

/// The number of one bits of `word` strictly below position `i`.
pub open spec fn ones_below(word: usize, i: nat) -> nat
    decreases i,
{
    if i == 0 {
        0
    } else {
        ones_below(word, (i - 1) as nat) + if bit_of(word, (i - 1) as nat) {
            1nat
        } else {
            0nat
        }
    }
}

/// `usize::count_ones` of std: the number of ones in the binary representation
/// of the word, that is, of its bit positions below the word's width.
pub assume_specification[ usize::count_ones ](word: usize) -> (n: u32)
    ensures
        n == ones_below(word, usize::BITS as nat),
;

/// No more than `i` bits are set below position `i`.
pub proof fn lemma_ones_below_bound(word: usize, i: nat)
    ensures
        ones_below(word, i) <= i,
    decreases i,
{
    if i > 0 {
        lemma_ones_below_bound(word, (i - 1) as nat);
    }
}

/// The count grows with the position, by at most one per position.
pub proof fn lemma_ones_below_monotonic(word: usize, i: nat, j: nat)
    requires
        i <= j,
    ensures
        ones_below(word, i) <= ones_below(word, j),
        ones_below(word, j) - ones_below(word, i) <= j - i,
    decreases j,
{
    if i < j {
        lemma_ones_below_monotonic(word, i, (j - 1) as nat);
    }
}

/// A set bit is counted by every position above it.
pub proof fn lemma_ones_below_counts(word: usize, i: nat, j: nat)
    requires
        i < j,
        bit_of(word, i),
    ensures
        ones_below(word, i) < ones_below(word, j),
    decreases j,
{
    if i + 1 < j {
        lemma_ones_below_counts(word, i, (j - 1) as nat);
    }
}

/// A word without a bit below `i` counts nothing below `i`.
pub proof fn lemma_ones_below_none(word: usize, i: nat)
    requires
        forall|j: nat| j < i ==> !bit_of(word, j),
    ensures
        ones_below(word, i) == 0,
    decreases i,
{
    if i > 0 {
        lemma_ones_below_none(word, (i - 1) as nat);
    }
}

/// Setting bit `i` of a word adds one to the count at every position above `i`,
/// if the bit was clear, and changes no other count.
pub proof fn lemma_ones_below_after_set(word: usize, i: nat, j: nat)
    requires
        i < usize::BITS,
    ensures
        ones_below(with_bit(word, i), j) == ones_below(word, j) + if i < j && !bit_of(word, i) {
            1nat
        } else {
            0nat
        },
    decreases j,
{
    if j > 0 {
        lemma_ones_below_after_set(word, i, (j - 1) as nat);
        lemma_bit_after_set(word, i, (j - 1) as nat);
    }
}

/// The word with bit `i` set.
pub open spec fn with_bit(word: usize, i: nat) -> usize {
    word | (1usize << (i as usize))
}

/// Setting bit `i` sets that bit and leaves every other bit as it was.
pub proof fn lemma_bit_after_set(word: usize, i: nat, j: nat)
    requires
        i < usize::BITS,
    ensures
        bit_of(with_bit(word, i), j) == (j == i || bit_of(word, j)),
{
    if j < usize::BITS {
        let iu = i as usize;
        let ju = j as usize;
        assert(((word | (1usize << iu)) >> ju) & 1 == 1 <==> (ju == iu || (word >> ju) & 1 == 1))
            by (bit_vector)
            requires
                iu < usize::BITS,
                ju < usize::BITS,
        ;
    }
}

/// The word that keeps the bits below `i` and clears the others.
pub open spec fn low_bits(word: usize, i: nat) -> usize {
    word & (((1usize << (i as usize)) - 1) as usize)
}

/// Masking keeps exactly the bits below `i`.
pub proof fn lemma_bit_of_low_bits(word: usize, i: nat, j: nat)
    requires
        i < usize::BITS,
    ensures
        bit_of(low_bits(word, i), j) == (j < i && bit_of(word, j)),
{
    if j < usize::BITS {
        let iu = i as usize;
        let ju = j as usize;
        assert(((word & (((1usize << iu) - 1) as usize)) >> ju) & 1 == 1 <==> (ju < iu && (word >> ju)
            & 1 == 1)) by (bit_vector)
            requires
                iu < usize::BITS,
                ju < usize::BITS,
        ;
    }
}

/// The count of all bits of the masked word is the count below `i` of the word.
pub proof fn lemma_ones_of_low_bits(word: usize, i: nat)
    requires
        i < usize::BITS,
    ensures
        ones_below(low_bits(word, i), usize::BITS as nat) == ones_below(word, i),
{
    lemma_ones_of_low_bits_upto(word, i, usize::BITS as nat);
}

proof fn lemma_ones_of_low_bits_upto(word: usize, i: nat, j: nat)
    requires
        i < usize::BITS,
    ensures
        ones_below(low_bits(word, i), j) == ones_below(word, if j < i { j } else { i }),
    decreases j,
{
    if j > 0 {
        lemma_ones_of_low_bits_upto(word, i, (j - 1) as nat);
        lemma_bit_of_low_bits(word, i, (j - 1) as nat);
    }
}

/// A word is zero exactly when none of its bits is set.
pub proof fn lemma_zero_word(word: usize)
    ensures
        word == 0 <==> forall|j: nat| !bit_of(word, j),
{
    if word == 0 {
        assert forall|j: nat| !bit_of(word, j) by {
            if j < usize::BITS {
                let ju = j as usize;
                assert((0usize >> ju) & 1 == 0) by (bit_vector);
            }
        }
    } else if forall|j: nat| !bit_of(word, j) {
        let top = (usize::BITS - 1) as nat;
        lemma_low_bits_clear(word, top);
        assert(!bit_of(word, top));
        let t = top as usize;
        assert(word == 0) by (bit_vector)
            requires
                t == usize::BITS - 1,
                word & (((1usize << t) - 1) as usize) == 0,
                (word >> t) & 1 != 1,
        ;
    }
}

proof fn lemma_low_bits_clear(word: usize, i: nat)
    requires
        i < usize::BITS,
        forall|j: nat| j < i ==> !bit_of(word, j),
    ensures
        low_bits(word, i) == 0,
    decreases i,
{
    let iu = i as usize;
    if i == 0 {
        assert(word & (((1usize << iu) - 1) as usize) == 0) by (bit_vector)
            requires
                iu == 0,
        ;
    } else {
        lemma_low_bits_clear(word, (i - 1) as nat);
        assert(!bit_of(word, (i - 1) as nat));
        let p = (i - 1) as usize;
        assert(word & (((1usize << iu) - 1) as usize) == 0) by (bit_vector)
            requires
                iu < usize::BITS,
                iu >= 1,
                p == iu - 1,
                word & (((1usize << p) - 1) as usize) == 0,
                (word >> p) & 1 != 1,
        ;
    }
}

/// The presence bitmap of a branch. Bit `i` is set exactly when the branch has a
/// child in slot `i`; the children are kept in ascending slot order, so the
/// number of set bits below `i` is the place of slot `i` among them.
#[derive(Clone, Copy, Debug)]
pub struct BitMap(usize);

impl View for BitMap {
    type V = Set<nat>;

    /// The occupied slots.
    open spec fn view(&self) -> Set<nat> {
        Set::new(|i: nat| self.spec_is_set(i))
    }
}

impl BitMap {
    /// The machine word that holds the bits.
    pub closed spec fn word(self) -> usize {
        self.0
    }

    /// Whether slot `i` is occupied.
    pub open spec fn spec_is_set(self, i: nat) -> bool {
        bit_of(self.word(), i)
    }

    /// The number of occupied slots strictly below `i`.
    pub open spec fn rank(self, i: nat) -> nat {
        ones_below(self.word(), i)
    }

    /// The number of occupied slots.
    pub open spec fn count(self) -> nat {
        ones_below(self.word(), usize::BITS as nat)
    }

    /// The bitmap without an occupied slot.
    pub fn empty() -> (m: Self)
        ensures
            m.word() == 0,
            m@ == Set::<nat>::empty(),
            m.count() == 0,
    {
        let m = BitMap(0);
        proof {
            lemma_zero_word(0);
            lemma_ones_below_none(0, usize::BITS as nat);
            assert(m@ =~= Set::<nat>::empty());
        }
        m
    }

    /// Whether no slot is occupied.
    pub fn is_empty(&self) -> (b: bool)
        ensures
            b == (self.word() == 0),
            b == (self@ == Set::<nat>::empty()),
            b == (self.count() == 0),
    {
        proof {
            lemma_zero_word(self.0);
            if self.0 == 0 {
                lemma_ones_below_none(self.0, usize::BITS as nat);
                assert(self@ =~= Set::<nat>::empty());
            } else {
                let j = choose|j: nat| bit_of(self.0, j);
                assert(self@.contains(j));
                lemma_ones_below_counts(self.0, j, usize::BITS as nat);
            }
        }
        self.0 == 0
    }

    /// Whether slot `i` is occupied.
    pub fn is_set(&self, i: usize) -> (b: bool)
        requires
            i < usize::BITS,
        ensures
            b == self.spec_is_set(i as nat),
            b == self@.contains(i as nat),
    {
        (self.0 >> i) & 1 == 1
    }

    /// The number of occupied slots.
    pub fn set_bits(&self) -> (n: usize)
        ensures
            n == self.count(),
            n <= usize::BITS,
    {
        proof {
            lemma_ones_below_bound(self.0, usize::BITS as nat);
        }
        self.0.count_ones() as usize
    }

    /// The number of occupied slots strictly below `i`: the place of slot `i`
    /// in the branch's child array.
    pub fn set_bits_under(&self, i: usize) -> (n: usize)
        requires
            i < usize::BITS,
        ensures
            n == self.rank(i as nat),
            n <= i,
            n <= self.count(),
            self.spec_is_set(i as nat) ==> n < self.count(),
    {
        proof {
            lemma_ones_of_low_bits(self.0, i as nat);
            lemma_ones_below_bound(self.0, i as nat);
            lemma_ones_below_monotonic(self.0, i as nat, usize::BITS as nat);
            if self.spec_is_set(i as nat) {
                lemma_ones_below_counts(self.0, i as nat, usize::BITS as nat);
            }
            assert((1usize << i) >= 1) by (bit_vector)
                requires
                    i < usize::BITS,
            ;
        }
        let mask = (1usize << i) - 1;
        (self.0 & mask).count_ones() as usize
    }

    /// Marks slot `i` as occupied. Nothing changes if it was occupied before.
    pub fn set(&mut self, i: usize)
        requires
            i < usize::BITS,
        ensures
            final(self).word() == with_bit(old(self).word(), i as nat),
            final(self)@ == old(self)@.insert(i as nat),
    {
        self.0 = self.0 | (1usize << i);
        proof {
            assert forall|j: nat| final(self).spec_is_set(j) == (j == i || old(self).spec_is_set(j)) by {
                lemma_bit_after_set(old(self).0, i as nat, j);
            }
            assert(final(self)@ =~= old(self)@.insert(i as nat));
        }
    }

    /// The machine word that holds the bits.
    pub fn get(&self) -> (word: usize)
        ensures
            word == self.word(),
    {
        self.0
    }

    /// The rank of a slot is the number of elements of the set of occupied
    /// slots below it, and the count that of all occupied slots.
    pub proof fn lemma_rank_is_cardinality(self, i: nat)
        ensures
            self@.filter(|j: nat| j < i).finite(),
            self@.filter(|j: nat| j < i).len() == self.rank(i),
            self@.finite(),
            self@.len() == self.count(),
    {
        lemma_occupied_below(self.word(), i);
        assert(self@.filter(|j: nat| j < i) =~= occupied_below(self.word(), i));
        lemma_occupied_below(self.word(), usize::BITS as nat);
        assert(self@ =~= occupied_below(self.word(), usize::BITS as nat));
    }
}

/// The set bits of `word` below position `i`, as a set.
pub open spec fn occupied_below(word: usize, i: nat) -> Set<nat> {
    Set::new(|j: nat| j < i && bit_of(word, j))
}

proof fn lemma_occupied_below(word: usize, i: nat)
    ensures
        occupied_below(word, i).finite(),
        occupied_below(word, i).len() == ones_below(word, i),
    decreases i,
{
    if i == 0 {
        assert(occupied_below(word, i) =~= Set::<nat>::empty());
    } else {
        let p = (i - 1) as nat;
        lemma_occupied_below(word, p);
        if bit_of(word, p) {
            assert(occupied_below(word, i) =~= occupied_below(word, p).insert(p));
        } else {
            assert(occupied_below(word, i) =~= occupied_below(word, p));
        }
    }
}

} // verus!
