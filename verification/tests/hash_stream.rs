use hamt::hash_stream::{bits_to_represent_pointer, HashStream, BITS_IN_POINTER};
use hamt::hasher::KeyHasher;

/// A hasher that hands out the digests of a list, one for each round.
struct MockHasher(usize, &'static [u64]);

impl KeyHasher for MockHasher {
    fn write_u8(&mut self, _: u8) {
        self.0 += 1;
    }

    fn finish(&self) -> u64 {
        self.1[self.0]
    }
}

/// A hasher whose digests go on for ever: each is made from the one before.
struct Endless(u64);

impl KeyHasher for Endless {
    fn write_u8(&mut self, byte: u8) {
        self.0 = self
            .0
            .wrapping_mul(6364136223846793005)
            .wrapping_add(1442695040888963407 + byte as u64);
    }

    fn finish(&self) -> u64 {
        self.0
    }
}

const DIGESTS: [u64; 4] = [
    0b1011_001010_001001_001000_000111_000110_000101_000100_000011_000010_000001,
    0b10_010101_010100_010011_010010_010001_010000_001111_001110_001101_001100_00,
    0b100000_011111_011110_011101_011100_011011_011010_011001_011000_010111_0101,
    0b0000_101010_101001_101000_100111_100110_100101_100100_100011_100010_100001,
];

#[test]
fn hash_stream() {
    let hasher = MockHasher(0, &[
        0b1011_001010_001001_001000_000111_000110_000101_000100_000011_000010_000001,
        0b10_010101_010100_010011_010010_010001_010000_001111_001110_001101_001100_00,
        0b100000_011111_011110_011101_011100_011011_011010_011001_011000_010111_0101,
        0b0000_101010_101001_101000_100111_100110_100101_100100_100011_100010_100001,
    ]);

    assert_eq!(
        (1..=42).collect::<Vec<_>>(),
        HashStream::new(hasher).take(42)
    );
}

#[test]
fn width_is_a_power_of_two() {
    assert_eq!(BITS_IN_POINTER, usize::BITS as usize);
    assert_eq!(1usize << bits_to_represent_pointer(), BITS_IN_POINTER);
}

#[test]
fn next_always_gives_an_index() {
    let mut stream = HashStream::new(MockHasher(0, &DIGESTS));
    assert_eq!(stream.next(), Some(1));
    assert_eq!(stream.next(), Some(2));
    assert_eq!(stream.next(), Some(3));
}

#[test]
fn a_group_cut_by_the_end_of_a_digest_goes_on_in_the_next() {
    let mut stream = HashStream::new(MockHasher(0, &DIGESTS));
    let first = stream.take(10);
    assert_eq!(first, vec![1, 2, 3, 4, 5, 6, 7, 8, 9, 10]);
    // four bits are left of the first digest, 1011; two come from the next, 00
    assert_eq!(stream.next(), Some(0b00_1011));
    assert_eq!(stream.next(), Some(12));
}

#[test]
fn a_digest_that_ends_with_a_group_is_followed_by_a_whole_one() {
    // after 32 indices three digests are used up, to the last bit
    let mut stream = HashStream::new(MockHasher(0, &DIGESTS));
    let taken = stream.take(32);
    assert_eq!(taken[31], 32);
    assert_eq!(stream.next(), Some(33));
}

#[test]
fn skip_leaves_what_take_would_have_left() {
    let skipped = HashStream::new(MockHasher(0, &DIGESTS)).skip(17).take(20);
    let mut whole = HashStream::new(MockHasher(0, &DIGESTS));
    let all = whole.take(37);
    assert_eq!(skipped, all[17..].to_vec());
    assert_eq!(skipped[0], 18);
}

#[test]
fn skip_of_nothing_changes_nothing() {
    let mut stream = HashStream::new(MockHasher(0, &DIGESTS)).skip(0);
    assert_eq!(stream.next(), Some(1));
}

#[test]
fn take_of_nothing_is_empty() {
    let mut stream = HashStream::new(MockHasher(0, &DIGESTS));
    assert_eq!(stream.take(0), Vec::<u8>::new());
    assert_eq!(stream.next(), Some(1));
}

#[test]
fn the_stream_does_not_end_and_comes_out_the_same_again() {
    let first = HashStream::new(Endless(42)).take(5000);
    let second = HashStream::new(Endless(42)).take(5000);
    assert_eq!(first.len(), 5000);
    assert_eq!(first, second);
    assert!(first.iter().all(|i| (*i as usize) < BITS_IN_POINTER));
    let other = HashStream::new(Endless(43)).take(5000);
    assert_ne!(first, other);
}

#[test]
fn the_first_index_is_the_lowest_group_of_the_first_digest() {
    let mut stream = HashStream::new(Endless(0b111111_101010));
    assert_eq!(stream.next(), Some(0b101010));
    assert_eq!(stream.next(), Some(0b111111));
    assert_eq!(stream.next(), Some(0));
}
