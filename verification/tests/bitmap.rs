use hamt::map::BitMap;

#[test]
fn the_empty_bitmap_has_no_bit() {
    let map = BitMap::empty();
    assert!(map.is_empty());
    assert_eq!(map.get(), 0);
    assert_eq!(map.set_bits(), 0);
    for i in 0..usize::BITS as usize {
        assert!(!map.is_set(i));
        assert_eq!(map.set_bits_under(i), 0);
    }
}

#[test]
fn set_sets_one_bit() {
    let mut map = BitMap::empty();
    map.set(5);
    assert!(!map.is_empty());
    assert!(map.is_set(5));
    assert!(!map.is_set(4));
    assert!(!map.is_set(6));
    assert_eq!(map.get(), 0b100000);
    assert_eq!(map.set_bits(), 1);
}

#[test]
fn set_twice_is_set_once() {
    let mut map = BitMap::empty();
    map.set(9);
    let once = map.get();
    map.set(9);
    assert_eq!(map.get(), once);
    assert_eq!(map.set_bits(), 1);
}

#[test]
fn set_bits_counts_the_bits() {
    let mut map = BitMap::empty();
    map.set(0);
    map.set(3);
    map.set(17);
    map.set(usize::BITS as usize - 1);
    assert_eq!(map.set_bits(), 4);
    assert_eq!(map.get(), 1 | 1 << 3 | 1 << 17 | 1 << (usize::BITS - 1));
}

#[test]
fn set_bits_under_is_the_rank() {
    let mut map = BitMap::empty();
    map.set(1);
    map.set(3);
    map.set(4);
    map.set(10);
    assert_eq!(map.set_bits_under(0), 0);
    assert_eq!(map.set_bits_under(1), 0);
    assert_eq!(map.set_bits_under(2), 1);
    assert_eq!(map.set_bits_under(3), 1);
    assert_eq!(map.set_bits_under(4), 2);
    assert_eq!(map.set_bits_under(5), 3);
    assert_eq!(map.set_bits_under(10), 3);
    assert_eq!(map.set_bits_under(11), 4);
    assert_eq!(map.set_bits_under(usize::BITS as usize - 1), 4);
}

#[test]
fn rank_counts_the_bits_below_for_every_word_and_index() {
    let words: [usize; 6] = [0, 1, 0b1011, usize::MAX, usize::MAX >> 1, 0xdead_beef];
    for word in words {
        let mut map = BitMap::empty();
        for i in 0..usize::BITS as usize {
            if (word >> i) & 1 == 1 {
                map.set(i);
            }
        }
        assert_eq!(map.get(), word);
        let mut below = 0;
        for i in 0..usize::BITS as usize {
            assert_eq!(map.set_bits_under(i), below);
            assert_eq!(map.is_set(i), (word >> i) & 1 == 1);
            if map.is_set(i) {
                below += 1;
            }
        }
        assert_eq!(map.set_bits(), below);
    }
}

#[test]
fn the_full_bitmap_has_every_bit() {
    let mut map = BitMap::empty();
    for i in 0..usize::BITS as usize {
        map.set(i);
    }
    assert_eq!(map.get(), usize::MAX);
    assert_eq!(map.set_bits(), usize::BITS as usize);
    assert_eq!(map.set_bits_under(usize::BITS as usize - 1), usize::BITS as usize - 1);
}

#[test]
fn a_bitmap_is_copied_by_value() {
    let mut map = BitMap::empty();
    map.set(2);
    let copy = map;
    map.set(3);
    assert_eq!(copy.get(), 0b100);
    assert_eq!(map.get(), 0b1100);
    assert_eq!(format!("{:?}", copy), "BitMap(4)");
}
