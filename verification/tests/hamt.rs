use hamt::hasher::{BuildKeyHasher, KeyHasher};
use hamt::node::{Either, Node};
use hamt::Hamt;

/// A hasher whose first digest is the key itself, for keys of eight bytes.
struct Plain {
    word: u64,
    bytes: u32,
}

impl KeyHasher for Plain {
    fn write_u8(&mut self, byte: u8) {
        if self.bytes < 8 {
            self.word |= (byte as u64) << (8 * self.bytes);
        } else {
            self.word = self.word.wrapping_mul(6364136223846793005).wrapping_add(byte as u64);
        }
        self.bytes += 1;
    }

    fn finish(&self) -> u64 {
        self.word
    }
}

struct PlainState;

impl BuildKeyHasher for PlainState {
    type Hasher = Plain;

    fn build_hasher(&self) -> Plain {
        Plain { word: 0, bytes: 0 }
    }
}

/// A hasher whose first digest is zero and whose second is the key.
struct Late {
    word: u64,
    bytes: u32,
}

impl KeyHasher for Late {
    fn write_u8(&mut self, byte: u8) {
        if self.bytes < 8 {
            self.word |= (byte as u64) << (8 * self.bytes);
        } else if self.bytes > 8 {
            self.word = self.word.wrapping_mul(6364136223846793005).wrapping_add(byte as u64);
        }
        self.bytes += 1;
    }

    fn finish(&self) -> u64 {
        if self.bytes <= 8 {
            0
        } else {
            self.word
        }
    }
}

struct LateState;

impl BuildKeyHasher for LateState {
    type Hasher = Late;

    fn build_hasher(&self) -> Late {
        Late { word: 0, bytes: 0 }
    }
}

/// A hasher that gives every key the same digests.
struct Same;

impl KeyHasher for Same {
    fn write_u8(&mut self, _: u8) {}

    fn finish(&self) -> u64 {
        0x0123_4567_89ab_cdef
    }
}

struct SameState;

impl BuildKeyHasher for SameState {
    type Hasher = Same;

    fn build_hasher(&self) -> Same {
        Same
    }
}

/// The key whose first four indices are the given ones, under `PlainState`.
fn key_of(groups: [u64; 4]) -> u64 {
    let bits = usize::BITS.trailing_zeros();
    groups[0] | groups[1] << bits | groups[2] << (2 * bits) | groups[3] << (3 * bits)
}

/// The one child of a branch with one child, and the slot that it stands in.
fn only_child<K, V>(node: &Node<K, V>) -> (usize, &Node<K, V>) {
    match node.inner() {
        Either::Right((map, base)) => {
            assert_eq!(map.set_bits(), 1);
            assert_eq!(base.len(), 1);
            (map.get().trailing_zeros() as usize, &base[0])
        }
        Either::Left(_) => panic!("a leaf where a branch should be"),
    }
}

#[test]
fn an_empty_map_holds_nothing() {
    let hamt: Hamt<u64, u64> = Hamt::new();
    for key in [0, 1, 2, 77, u64::MAX] {
        assert_eq!(hamt.get(&key), None);
    }
    assert!(matches!(hamt.root().inner(), Either::Right((map, base)) if map.is_empty() && base.is_empty()));
}

#[test]
fn insert_of_a_new_key_returns_nothing() {
    let mut hamt = Hamt::new();
    assert_eq!(hamt.insert(1u32, "one"), None);
    assert_eq!(hamt.insert(2u32, "two"), None);
    assert_eq!(hamt.get(&1), Some(&"one"));
    assert_eq!(hamt.get(&2), Some(&"two"));
    assert_eq!(hamt.get(&3), None);
}

#[test]
fn insert_of_a_key_that_is_there_returns_its_value() {
    let mut hamt = Hamt::new();
    assert_eq!(hamt.insert(1i64, String::from("one")), None);
    assert_eq!(hamt.insert(1i64, String::from("uno")), Some(String::from("one")));
    assert_eq!(hamt.insert(1i64, String::from("eins")), Some(String::from("uno")));
    assert_eq!(hamt.get(&1), Some(&String::from("eins")));
}

#[test]
fn the_first_entry_is_a_leaf_at_the_root() {
    let mut hamt = Hamt::new();
    hamt.insert(5u8, 50);
    assert!(matches!(hamt.root().inner(), Either::Left((&5, &50))));
    hamt.insert(5u8, 51);
    assert!(matches!(hamt.root().inner(), Either::Left((&5, &51))));
}

#[test]
fn every_key_keeps_its_latest_value() {
    let mut hamt = Hamt::new();
    for round in 0..3u64 {
        for key in 0..2000u64 {
            let previous = hamt.insert(key, key * 10 + round);
            if round == 0 {
                assert_eq!(previous, None);
            } else {
                assert_eq!(previous, Some(key * 10 + round - 1));
            }
        }
        for key in 0..2000u64 {
            assert_eq!(hamt.get(&key), Some(&(key * 10 + round)));
        }
        assert_eq!(hamt.get(&2000), None);
    }
}

#[test]
fn keys_of_every_integer_type_work() {
    let mut a = Hamt::new();
    let mut b = Hamt::new();
    let mut c = Hamt::new();
    let mut d = Hamt::new();
    let mut e = Hamt::new();
    let mut f = Hamt::new();
    let mut g = Hamt::new();
    let mut h = Hamt::new();
    let mut i = Hamt::new();
    for n in -100i8..100 {
        a.insert(n, n);
        b.insert(n as i16 * 300, n);
        c.insert(n as i32 * 70000, n);
        d.insert(n as i64 * 5_000_000_000, n);
        e.insert(n as isize * 3, n);
        f.insert(n as u8, n);
        g.insert(n as u16, n);
        h.insert(n as u32, n);
        i.insert(n as usize, n);
    }
    for n in -100i8..100 {
        assert_eq!(a.get(&n), Some(&n));
        assert_eq!(b.get(&(n as i16 * 300)), Some(&n));
        assert_eq!(c.get(&(n as i32 * 70000)), Some(&n));
        assert_eq!(d.get(&(n as i64 * 5_000_000_000)), Some(&n));
        assert_eq!(e.get(&(n as isize * 3)), Some(&n));
        assert_eq!(f.get(&(n as u8)), Some(&n));
        assert_eq!(g.get(&(n as u16)), Some(&n));
        assert_eq!(h.get(&(n as u32)), Some(&n));
        assert_eq!(i.get(&(n as usize)), Some(&n));
    }
    assert_eq!(a.get(&100), None);
    assert_eq!(f.get(&100), None);
}

#[test]
fn wide_keys_and_bools_work() {
    let mut wide = Hamt::new();
    let mut signed = Hamt::new();
    for n in 0..300u128 {
        wide.insert(n << 60, n);
        signed.insert(-(n as i128) << 60, n);
    }
    for n in 0..300u128 {
        assert_eq!(wide.get(&(n << 60)), Some(&n));
        assert_eq!(signed.get(&(-(n as i128) << 60)), Some(&n));
    }
    assert_eq!(wide.get(&1), None);
    let mut flags = Hamt::new();
    assert_eq!(flags.insert(true, 1), None);
    assert_eq!(flags.insert(false, 0), None);
    assert_eq!(flags.insert(true, 2), Some(1));
    assert_eq!(flags.get(&false), Some(&0));
    assert_eq!(flags.get(&true), Some(&2));
}

#[test]
fn two_keys_that_part_at_once_share_the_root() {
    let mut hamt = Hamt::with_hasher(PlainState);
    let a = key_of([7, 0, 0, 0]);
    let b = key_of([3, 0, 0, 0]);
    assert_eq!(hamt.insert(a, 'a'), None);
    assert_eq!(hamt.insert(b, 'b'), None);
    match hamt.root().inner() {
        Either::Right((map, base)) => {
            assert_eq!(map.get(), 1 << 7 | 1 << 3);
            assert_eq!(base.len(), 2);
            // the leaf in the lower slot comes first
            assert!(matches!(base[0].inner(), Either::Left((k, &'b')) if *k == b));
            assert!(matches!(base[1].inner(), Either::Left((k, &'a')) if *k == a));
        }
        Either::Left(_) => panic!("a leaf at the root"),
    }
    assert_eq!(hamt.get(&a), Some(&'a'));
    assert_eq!(hamt.get(&b), Some(&'b'));
}

#[test]
fn two_keys_with_a_common_start_hang_below_a_chain() {
    for links in 0..4usize {
        let mut groups_a = [1, 2, 3, 4];
        let mut groups_b = [1, 2, 3, 4];
        groups_a[links] = 20;
        groups_b[links] = 10;
        let a = key_of(groups_a);
        let b = key_of(groups_b);
        let mut hamt = Hamt::with_hasher(PlainState);
        assert_eq!(hamt.insert(a, "a"), None);
        assert_eq!(hamt.insert(b, "b"), None);

        let mut node = hamt.root();
        for level in 0..links {
            let (slot, child) = only_child(node);
            assert_eq!(slot as u64, groups_a[level]);
            node = child;
        }
        match node.inner() {
            Either::Right((map, base)) => {
                assert_eq!(map.get(), 1 << 20 | 1 << 10);
                assert_eq!(base.len(), 2);
                assert!(matches!(base[0].inner(), Either::Left((k, &"b")) if *k == b));
                assert!(matches!(base[1].inner(), Either::Left((k, &"a")) if *k == a));
            }
            Either::Left(_) => panic!("a leaf where the two keys part"),
        }
        assert_eq!(hamt.get(&a), Some(&"a"));
        assert_eq!(hamt.get(&b), Some(&"b"));
        assert_eq!(hamt.get(&key_of([1, 2, 3, 5])), None);
    }
}

#[test]
fn a_chain_goes_on_into_the_next_digest() {
    // the first digest is zero for both keys; the second is the key
    let mut hamt = Hamt::with_hasher(LateState);
    let bits = usize::BITS.trailing_zeros() as usize;
    let whole = 64 / bits;
    let left = 64 - whole * bits;
    assert_eq!(hamt.insert(1u64, 'a'), None);
    assert_eq!(hamt.insert(2u64, 'b'), None);

    let mut node = hamt.root();
    for _ in 0..whole {
        let (slot, child) = only_child(node);
        assert_eq!(slot, 0);
        node = child;
    }
    match node.inner() {
        Either::Right((map, base)) => {
            assert_eq!(map.get(), 1 << (1 << left) | 1 << (2 << left));
            assert!(matches!(base[0].inner(), Either::Left((&1, &'a'))));
            assert!(matches!(base[1].inner(), Either::Left((&2, &'b'))));
        }
        Either::Left(_) => panic!("a leaf where the two keys part"),
    }
    assert_eq!(hamt.get(&1), Some(&'a'));
    assert_eq!(hamt.get(&2), Some(&'b'));
    assert_eq!(hamt.get(&3), None);
    assert_eq!(hamt.insert(3u64, 'c'), None);
    assert_eq!(hamt.get(&3), Some(&'c'));
    assert_eq!(hamt.insert(1u64, 'd'), Some('a'));
}

#[test]
fn children_stand_in_the_order_of_their_slots() {
    let mut hamt = Hamt::with_hasher(PlainState);
    let slots = [9u64, 2, 30, 0, 17, 5, 31, 1];
    for slot in slots {
        assert_eq!(hamt.insert(key_of([slot, 0, 0, 0]), slot), None);
    }
    match hamt.root().inner() {
        Either::Right((map, base)) => {
            assert_eq!(map.set_bits(), slots.len());
            let keys: Vec<u64> = base
                .iter()
                .map(|child| match child.inner() {
                    Either::Left((key, _)) => *key,
                    Either::Right(_) => panic!("a branch"),
                })
                .collect();
            assert_eq!(keys, vec![0, 1, 2, 5, 9, 17, 30, 31]);
        }
        Either::Left(_) => panic!("a leaf at the root"),
    }
    for slot in slots {
        assert_eq!(hamt.get(&key_of([slot, 0, 0, 0])), Some(&slot));
    }
}

#[test]
fn a_third_key_joins_a_chain() {
    let mut hamt = Hamt::with_hasher(PlainState);
    let a = key_of([1, 2, 3, 4]);
    let b = key_of([1, 2, 3, 5]);
    let c = key_of([1, 2, 9, 9]);
    let d = key_of([1, 2, 3, 4]) | 1 << 40;
    hamt.insert(a, 1);
    hamt.insert(b, 2);
    hamt.insert(c, 3);
    hamt.insert(d, 4);
    assert_eq!(hamt.get(&a), Some(&1));
    assert_eq!(hamt.get(&b), Some(&2));
    assert_eq!(hamt.get(&c), Some(&3));
    assert_eq!(hamt.get(&d), Some(&4));
    assert_eq!(hamt.get(&key_of([1, 2, 9, 8])), None);
    assert_eq!(hamt.get(&key_of([1, 2, 4, 4])), None);
}

#[test]
fn try_insert_puts_in_what_insert_does() {
    let mut hamt = Hamt::new();
    for key in 0..500u32 {
        assert_eq!(hamt.try_insert(key, key, 64), Ok(None));
    }
    for key in 0..500u32 {
        assert_eq!(hamt.try_insert(key, key + 1, 64), Ok(Some(key)));
        assert_eq!(hamt.get(&key), Some(&(key + 1)));
    }
}

#[test]
fn try_insert_hands_back_an_entry_that_never_parts() {
    let mut hamt = Hamt::with_hasher(SameState);
    assert_eq!(hamt.try_insert(1u32, 'a', 100), Ok(None));
    assert_eq!(hamt.try_insert(2u32, 'b', 100), Err((2, 'b')));
    assert_eq!(hamt.try_insert(2u32, 'b', 0), Err((2, 'b')));
    assert_eq!(hamt.get(&1), Some(&'a'));
    assert_eq!(hamt.get(&2), None);
    assert!(matches!(hamt.root().inner(), Either::Left((&1, &'a'))));
    // the key that is there can still get a new value
    assert_eq!(hamt.try_insert(1u32, 'c', 0), Ok(Some('a')));
    assert_eq!(hamt.get(&1), Some(&'c'));
}

#[test]
fn try_insert_counts_the_levels_from_the_leaf() {
    let a = key_of([1, 2, 3, 4]);
    let b = key_of([1, 2, 3, 5]);
    let mut hamt = Hamt::with_hasher(PlainState);
    hamt.insert(a, 'a');
    assert!(hamt.admits_within(&a, 0));
    assert!(!hamt.admits_within(&b, 0));
    assert!(!hamt.admits_within(&b, 3));
    assert!(hamt.admits_within(&b, 4));
    assert_eq!(hamt.try_insert(b, 'b', 3), Err((b, 'b')));
    assert_eq!(hamt.get(&b), None);
    assert_eq!(hamt.try_insert(b, 'b', 4), Ok(None));
    assert_eq!(hamt.get(&a), Some(&'a'));
    assert_eq!(hamt.get(&b), Some(&'b'));
    // a key that meets a free slot needs no new branch
    assert!(hamt.admits_within(&key_of([2, 0, 0, 0]), 0));
}

#[test]
fn a_branch_that_grows_leaves_its_array_to_the_pool() {
    let mut hamt = Hamt::with_hasher(PlainState);
    let pool = |hamt: &Hamt<u64, u8, PlainState>| -> Vec<usize> {
        (1..=5).map(|len| hamt.pooled(len)).collect()
    };
    assert_eq!(pool(&hamt), vec![0, 0, 0, 0, 0]);
    // a leaf at the root, then a branch with two leaves: nothing is given up
    hamt.insert(key_of([1, 0, 0, 0]), 1);
    hamt.insert(key_of([2, 0, 0, 0]), 2);
    assert_eq!(pool(&hamt), vec![0, 0, 0, 0, 0]);
    // the root grows to three children, then to four
    hamt.insert(key_of([3, 0, 0, 0]), 3);
    assert_eq!(pool(&hamt), vec![0, 1, 0, 0, 0]);
    hamt.insert(key_of([4, 0, 0, 0]), 4);
    assert_eq!(pool(&hamt), vec![0, 1, 1, 0, 0]);
    // two keys part one level down: a branch with two leaves takes the array of two
    hamt.insert(key_of([4, 1, 0, 0]), 5);
    assert_eq!(pool(&hamt), vec![0, 0, 1, 0, 0]);
    // that branch grows to three children: it takes the array of three and leaves its own
    hamt.insert(key_of([4, 2, 0, 0]), 6);
    assert_eq!(pool(&hamt), vec![0, 1, 0, 0, 0]);
    // another value for a key that is there changes nothing
    hamt.insert(key_of([4, 2, 0, 0]), 7);
    assert_eq!(pool(&hamt), vec![0, 1, 0, 0, 0]);
    // two keys part one level down again
    hamt.insert(key_of([1, 5, 6, 7]), 8);
    assert_eq!(pool(&hamt), vec![0, 0, 0, 0, 0]);
    // two branches with one child each and a branch with two leaves, all new
    hamt.insert(key_of([7, 1, 1, 1]), 9);
    assert_eq!(pool(&hamt), vec![0, 0, 0, 1, 0]);
    hamt.insert(key_of([7, 1, 1, 2]), 10);
    assert_eq!(pool(&hamt), vec![0, 0, 0, 1, 0]);
    // the upper of the two grows to two children and leaves its array of one
    hamt.insert(key_of([7, 2, 0, 0]), 11);
    assert_eq!(pool(&hamt), vec![1, 0, 0, 1, 0]);
    // the next chain takes that array for the first of its two branches
    hamt.insert(key_of([2, 0, 0, 5]), 12);
    assert_eq!(pool(&hamt), vec![0, 0, 0, 1, 0]);
    for (key, value) in [
        (key_of([7, 1, 1, 1]), 9),
        (key_of([7, 1, 1, 2]), 10),
        (key_of([7, 2, 0, 0]), 11),
        (key_of([2, 0, 0, 5]), 12),
        (key_of([1, 0, 0, 0]), 1),
        (key_of([2, 0, 0, 0]), 2),
        (key_of([3, 0, 0, 0]), 3),
        (key_of([4, 0, 0, 0]), 4),
        (key_of([4, 1, 0, 0]), 5),
        (key_of([4, 2, 0, 0]), 7),
        (key_of([1, 5, 6, 7]), 8),
    ] {
        assert_eq!(hamt.get(&key), Some(&value));
    }
}
