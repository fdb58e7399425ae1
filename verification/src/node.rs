//! The cell of the tree: a leaf with its entry, or a branch with its bitmap and
//! its children.

use crate::map::{
    bit_of, lemma_bit_after_set, lemma_ones_below_after_set, lemma_ones_below_counts,
    lemma_ones_below_monotonic, lemma_ones_below_none, lemma_zero_word, with_bit, BitMap,
};
use crate::trie::{no_slots, occupied, Trie};
use vstd::prelude::*;

verus! {

/// One of two things.
pub enum Either<L, R> {
    Left(L),
    Right(R),
}

/// The first word of a node: the bitmap of a branch, or the key of a leaf.
pub enum MapKey<K> {
    Bits(BitMap),
    Key(K),
}

/// The second word of a node: the child array of a branch, or the value of a
/// leaf. Which of the two it is tells a branch from a leaf.
pub enum BaseValue<K, V> {
    Base(Vec<Node<K, V>>),
    Value(V),
}

impl<K, V> BaseValue<K, V> {
    /// Whether this is the value of a leaf.
    pub fn is_value(&self) -> (b: bool)
        ensures
            b == (self is Value),
    {
        match self {
            BaseValue::Value(_) => true,
            BaseValue::Base(_) => false,
        }
    }

    /// The word of a branch with the child array `base`.
    pub fn new_base(base: Vec<Node<K, V>>) -> (word: Self)
        ensures
            word == BaseValue::<K, V>::Base(base),
    {
        BaseValue::Base(base)
    }

    /// The word of a leaf with the value `value`.
    pub fn new_value(value: V) -> (word: Self)
        ensures
            word == BaseValue::<K, V>::Value(value),
    {
        BaseValue::Value(value)
    }

    /// The value, if this is the word of a leaf.
    pub fn get_value(&self) -> (value: Option<&V>)
        ensures
            match value {
                Some(v) => *self == BaseValue::<K, V>::Value(*v),
                None => self is Base,
            },
    {
        match self {
            BaseValue::Value(v) => Some(v),
            BaseValue::Base(_) => None,
        }
    }

    /// The child array, if this is the word of a branch.
    pub fn get_base(&self) -> (base: Option<&Vec<Node<K, V>>>)
        ensures
            match base {
                Some(b) => *self == BaseValue::<K, V>::Base(*b),
                None => self is Value,
            },
    {
        match self {
            BaseValue::Value(_) => None,
            BaseValue::Base(b) => Some(b),
        }
    }
}

/// A node of the tree, in two words.
pub struct Node<K, V> {
    map_key: MapKey<K>,
    base_value: BaseValue<K, V>,
}

/// The slots of the branch with the bitmap `map` and the child array
/// `children`: the child of an occupied slot stands in the array at the slot's
/// rank.
pub open spec fn slots_of<K, V>(map: BitMap, children: Seq<Node<K, V>>) -> Seq<
    Option<Trie<K, V>>,
> {
    Seq::new(
        usize::BITS as nat,
        |i: int|
            if map.spec_is_set(i as nat) && map.rank(i as nat) < children.len() {
                Some(children[map.rank(i as nat) as int]@)
            } else {
                None
            },
    )
}

/// A branch without a bit in its bitmap has no child in any slot.
pub proof fn lemma_slots_of_none<K, V>(map: BitMap, children: Seq<Node<K, V>>)
    requires
        map.word() == 0,
    ensures
        slots_of(map, children) == no_slots::<K, V>(),
{
    lemma_zero_word(map.word());
    assert(slots_of(map, children) =~= no_slots::<K, V>());
}

/// A branch with a bit in its bitmap, and with as many children as bits, has
/// a child in some slot.
pub proof fn lemma_slots_of_some<K, V>(map: BitMap, children: Seq<Node<K, V>>)
    requires
        map.word() != 0,
        children.len() == map.count(),
    ensures
        !(Trie::Branch { slots: slots_of(map, children) }).is_empty(),
        1 <= children.len(),
{
    lemma_zero_word(map.word());
    let s = choose|s: nat| bit_of(map.word(), s);
    lemma_ones_below_counts(map.word(), s, usize::BITS as nat);
    assert(slots_of(map, children)[s as int] is Some);
}

/// The slots of a branch with one bit and one child.
pub proof fn lemma_slots_of_one<K, V>(map: BitMap, children: Seq<Node<K, V>>, i: nat)
    requires
        i < usize::BITS,
        map.word() == with_bit(0, i),
        children.len() == 1,
    ensures
        map.count() == 1,
        slots_of(map, children) == no_slots::<K, V>().update(i as int, Some(children[0]@)),
{
    lemma_zero_word(0);
    lemma_ones_below_none(0, usize::BITS as nat);
    lemma_ones_below_none(0, i);
    lemma_ones_below_after_set(0, i, usize::BITS as nat);
    lemma_ones_below_after_set(0, i, i);
    assert forall|s: int| 0 <= s < usize::BITS implies #[trigger] slots_of(map, children)[s]
        == no_slots::<K, V>().update(i as int, Some(children[0]@))[s] by {
        lemma_bit_after_set(0, i, s as nat);
    }
    assert(slots_of(map, children) =~= no_slots::<K, V>().update(i as int, Some(children[0]@)));
}

/// The slots of a branch with two bits and two children: the first child
/// stands in the lower of the two slots.
pub proof fn lemma_slots_of_two<K, V>(map: BitMap, children: Seq<Node<K, V>>, i: nat, j: nat)
    requires
        i < j < usize::BITS,
        map.word() == with_bit(with_bit(0, i), j) || map.word() == with_bit(with_bit(0, j), i),
        children.len() == 2,
    ensures
        map.count() == 2,
        slots_of(map, children) == no_slots::<K, V>().update(i as int, Some(children[0]@)).update(
            j as int,
            Some(children[1]@),
        ),
{
    let first = if map.word() == with_bit(with_bit(0, i), j) {
        i
    } else {
        j
    };
    let second = if first == i {
        j
    } else {
        i
    };
    let half = with_bit(0, first);
    lemma_zero_word(0);
    lemma_ones_below_none(0, usize::BITS as nat);
    lemma_ones_below_none(0, i);
    lemma_ones_below_none(0, j);
    lemma_ones_below_after_set(0, first, usize::BITS as nat);
    lemma_ones_below_after_set(0, first, i);
    lemma_ones_below_after_set(0, first, j);
    lemma_bit_after_set(0, first, second);
    lemma_ones_below_after_set(half, second, usize::BITS as nat);
    lemma_ones_below_after_set(half, second, i);
    lemma_ones_below_after_set(half, second, j);
    let expected = no_slots::<K, V>().update(i as int, Some(children[0]@)).update(
        j as int,
        Some(children[1]@),
    );
    assert forall|s: int| 0 <= s < usize::BITS implies #[trigger] slots_of(map, children)[s]
        == expected[s] by {
        lemma_bit_after_set(0, first, s as nat);
        lemma_bit_after_set(half, second, s as nat);
    }
    assert(slots_of(map, children) =~= expected);
}

/// Where the child of an occupied slot is replaced, the slot gets the tree of
/// the new child, and the other slots keep theirs.
pub proof fn lemma_slots_of_replaced<K, V>(
    map: BitMap,
    children: Seq<Node<K, V>>,
    i: nat,
    child: Node<K, V>,
)
    requires
        map.spec_is_set(i),
        children.len() == map.count(),
    ensures
        map.rank(i) < children.len(),
        slots_of(map, children)[i as int] == Some(children[map.rank(i) as int]@),
        slots_of(map, children.update(map.rank(i) as int, child)) == slots_of(
            map,
            children,
        ).update(i as int, Some(child@)),
{
    lemma_ones_below_counts(map.word(), i, usize::BITS as nat);
    let after = children.update(map.rank(i) as int, child);
    assert forall|s: int| 0 <= s < usize::BITS implies #[trigger] slots_of(map, after)[s]
        == slots_of(map, children).update(i as int, Some(child@))[s] by {
        if map.spec_is_set(s as nat) && s != i {
            if s < i {
                lemma_ones_below_counts(map.word(), s as nat, i);
            } else {
                lemma_ones_below_counts(map.word(), i, s as nat);
            }
        }
    }
    assert(slots_of(map, after) =~= slots_of(map, children).update(i as int, Some(child@)));
}

/// Where a branch gets a bit for a free slot and a child at the slot's rank,
/// the slot gets the tree of the new child, and the other slots keep theirs.
pub proof fn lemma_slots_of_grown<K, V>(
    map: BitMap,
    grown: BitMap,
    children: Seq<Node<K, V>>,
    i: nat,
    child: Node<K, V>,
)
    requires
        i < usize::BITS,
        !map.spec_is_set(i),
        grown.word() == with_bit(map.word(), i),
        children.len() == map.count(),
    ensures
        map.rank(i) <= children.len(),
        children.len() < usize::BITS,
        grown.count() == map.count() + 1,
        slots_of(map, children)[i as int] is None,
        slots_of(grown, children.insert(map.rank(i) as int, child)) == slots_of(
            map,
            children,
        ).update(i as int, Some(child@)),
{
    let place = map.rank(i) as int;
    let after = children.insert(place, child);
    lemma_ones_below_monotonic(map.word(), i, usize::BITS as nat);
    lemma_ones_below_after_set(map.word(), i, usize::BITS as nat);
    crate::map::lemma_ones_below_bound(grown.word(), usize::BITS as nat);
    assert forall|s: int| 0 <= s < usize::BITS implies #[trigger] slots_of(grown, after)[s]
        == slots_of(map, children).update(i as int, Some(child@))[s] by {
        lemma_bit_after_set(map.word(), i, s as nat);
        lemma_ones_below_after_set(map.word(), i, s as nat);
        if map.spec_is_set(s as nat) {
            lemma_ones_below_counts(map.word(), s as nat, usize::BITS as nat);
            if s < i {
                lemma_ones_below_counts(map.word(), s as nat, i);
            } else {
                lemma_ones_below_monotonic(map.word(), i, s as nat);
            }
        }
    }
    assert(slots_of(grown, after) =~= slots_of(map, children).update(i as int, Some(child@)));
}

/// A branch with as many children as bits has a child in as many slots.
pub proof fn lemma_slots_of_occupied<K, V>(map: BitMap, children: Seq<Node<K, V>>)
    requires
        children.len() == map.count(),
    ensures
        occupied(slots_of(map, children), usize::BITS as nat) == children.len(),
{
    lemma_occupied_upto(map, children, usize::BITS as nat);
}

proof fn lemma_occupied_upto<K, V>(map: BitMap, children: Seq<Node<K, V>>, n: nat)
    requires
        children.len() == map.count(),
        n <= usize::BITS,
    ensures
        occupied(slots_of(map, children), n) == map.rank(n),
    decreases n,
{
    if n > 0 {
        let s = (n - 1) as nat;
        lemma_occupied_upto(map, children, s);
        if map.spec_is_set(s) {
            lemma_ones_below_counts(map.word(), s, usize::BITS as nat);
        }
    }
}

impl<K, V> View for Node<K, V> {
    type V = Trie<K, V>;

    /// The tree that the node stands for.
    closed spec fn view(&self) -> Trie<K, V> {
        self.tree()
    }
}

impl<K, V> Node<K, V> {
    /// Whether the node is a leaf.
    pub closed spec fn is_leaf(self) -> bool {
        self.base_value is Value
    }

    /// The key of a leaf.
    pub closed spec fn key(self) -> K {
        self.map_key->Key_0
    }

    /// The value of a leaf.
    pub closed spec fn value(self) -> V {
        self.base_value->Value_0
    }

    /// The bitmap of a branch.
    pub closed spec fn map(self) -> BitMap {
        self.map_key->Bits_0
    }

    /// The child array of a branch.
    pub closed spec fn children(self) -> Seq<Node<K, V>> {
        self.base_value->Base_0@
    }

    /// In the node and in every node below it the two words go together: a key
    /// with a value, a bitmap with a child array.
    pub closed spec fn wf(self) -> bool
        decreases self,
    {
        &&& self.map_key is Key <==> self.base_value is Value
        &&& match self.base_value {
            BaseValue::Value(_) => true,
            BaseValue::Base(base) => forall|i: int| 0 <= i < base.len() ==> (#[trigger] base[i]).wf(),
        }
    }

    /// The tree that the node stands for.
    spec fn tree(self) -> Trie<K, V>
        decreases self,
    {
        match self.base_value {
            BaseValue::Value(value) => Trie::Leaf { key: self.key(), value },
            BaseValue::Base(base) => Trie::Branch {
                slots: Seq::new(
                    usize::BITS as nat,
                    |i: int|
                        if self.map().spec_is_set(i as nat) && self.map().rank(i as nat)
                            < base.len() {
                            Some(base[self.map().rank(i as nat) as int].tree())
                        } else {
                            None
                        },
                ),
            },
        }
    }

    /// What the node stands for, from its parts.
    pub proof fn lemma_view(self)
        ensures
            self@ == if self.is_leaf() {
                Trie::Leaf { key: self.key(), value: self.value() }
            } else {
                Trie::Branch { slots: slots_of(self.map(), self.children()) }
            },
    {
        if !self.is_leaf() {
            assert(self@->slots =~= slots_of(self.map(), self.children()));
        }
    }

    /// The shape of a tree whose root is `depth` levels below the root of the
    /// map: in every node the two words go together, every branch has as many
    /// children as its bitmap has bits, and no branch lies deeper than a `usize`
    /// can count.
    pub closed spec fn shaped(self, depth: nat) -> bool
        decreases self,
    {
        &&& self.wf()
        &&& match self.base_value {
            BaseValue::Value(_) => true,
            BaseValue::Base(base) => {
                &&& base.len() == self.map().count()
                &&& depth < usize::MAX
                &&& forall|i: int| 0 <= i < base.len() ==> (#[trigger] base[i]).shaped(depth + 1)
            },
        }
    }

    /// The shape of a tree, from the parts of its root.
    pub proof fn lemma_shaped(self, depth: nat)
        ensures
            self.shaped(depth) == {
                &&& self.wf()
                &&& !self.is_leaf() ==> {
                    &&& self.children().len() == self.map().count()
                    &&& depth < usize::MAX
                    &&& forall|i: int|
                        0 <= i < self.children().len() ==> (#[trigger] self.children()[i]).shaped(
                            depth + 1,
                        )
                }
            },
    {
    }

    /// The tree of a node has a slot for each index in every branch.
    pub proof fn lemma_view_regular(self)
        ensures
            self@.regular(),
        decreases self,
    {
        self.lemma_view();
        if !self.is_leaf() {
            let slots = self@->slots;
            assert forall|i: int| 0 <= i < slots.len() implies match #[trigger] slots[i] {
                Some(child) => child.regular(),
                None => true,
            } by {
                let r = self.map().rank(i as nat) as int;
                if self.map().spec_is_set(i as nat) && r < self.children().len() {
                    self.children()[r].lemma_view_regular();
                }
            }
        }
    }
}

impl<K, V> Node<K, V> {
    /// The branch without a child.
    pub fn empty() -> (node: Self)
        ensures
            node.wf(),
            !node.is_leaf(),
            node.map().word() == 0,
            node.map().count() == 0,
            node.children() == Seq::<Node<K, V>>::empty(),
            node@ == Trie::<K, V>::empty(),
    {
        let node = Node {
            map_key: MapKey::Bits(BitMap::empty()),
            base_value: BaseValue::new_base(Vec::new()),
        };
        proof {
            node.lemma_view();
            assert(node@->slots =~= no_slots::<K, V>());
        }
        node
    }

    /// The leaf with the entry of `key` and `value`.
    pub fn key_value(key: K, value: V) -> (node: Self)
        ensures
            node.wf(),
            node.is_leaf(),
            node.key() == key,
            node.value() == value,
            node@ == (Trie::Leaf { key, value }),
    {
        let node = Node { map_key: MapKey::Key(key), base_value: BaseValue::new_value(value) };
        proof {
            node.lemma_view();
        }
        node
    }

    /// What the node holds: the key and the value of a leaf, to the left, or
    /// the bitmap and the child array of a branch, to the right.
    pub fn inner(&self) -> (parts: Either<(&K, &V), (BitMap, &Vec<Node<K, V>>)>)
        requires
            self.wf(),
        ensures
            match parts {
                Either::Left((key, value)) => {
                    &&& self.is_leaf()
                    &&& *key == self.key()
                    &&& *value == self.value()
                },
                Either::Right((map, base)) => {
                    &&& !self.is_leaf()
                    &&& map == self.map()
                    &&& base@ == self.children()
                    &&& forall|i: int| 0 <= i < base.len() ==> (#[trigger] base[i]).wf()
                },
            },
    {
        match &self.base_value {
            BaseValue::Value(value) => match &self.map_key {
                MapKey::Key(key) => Either::Left((key, value)),
                MapKey::Bits(_) => vstd::pervasive::unreached(),
            },
            BaseValue::Base(base) => match &self.map_key {
                MapKey::Bits(map) => Either::Right((*map, base)),
                MapKey::Key(_) => vstd::pervasive::unreached(),
            },
        }
    }

    /// Takes the node apart: into the key and the value of a leaf, to the left,
    /// or into the bitmap and the child array of a branch, to the right.
    pub fn into_inner(self) -> (parts: Either<(K, V), (BitMap, Vec<Node<K, V>>)>)
        requires
            self.wf(),
        ensures
            match parts {
                Either::Left((key, value)) => {
                    &&& self.is_leaf()
                    &&& key == self.key()
                    &&& value == self.value()
                },
                Either::Right((map, base)) => {
                    &&& !self.is_leaf()
                    &&& map == self.map()
                    &&& base@ == self.children()
                    &&& forall|i: int| 0 <= i < base.len() ==> (#[trigger] base[i]).wf()
                },
            },
    {
        match self.base_value {
            BaseValue::Value(value) => match self.map_key {
                MapKey::Key(key) => Either::Left((key, value)),
                MapKey::Bits(_) => vstd::pervasive::unreached(),
            },
            BaseValue::Base(base) => match self.map_key {
                MapKey::Bits(map) => Either::Right((map, base)),
                MapKey::Key(_) => vstd::pervasive::unreached(),
            },
        }
    }

    /// Gives a branch the child array `base` and returns the array that it had.
    /// A leaf has no child array: it stays as it is, and nothing is returned.
    pub fn set_base(&mut self, base: Vec<Node<K, V>>) -> (previous: Option<Vec<Node<K, V>>>)
        requires
            old(self).wf(),
            forall|i: int| 0 <= i < base.len() ==> (#[trigger] base[i]).wf(),
        ensures
            final(self).wf(),
            match previous {
                Some(array) => {
                    &&& !old(self).is_leaf()
                    &&& array@ == old(self).children()
                    &&& forall|i: int| 0 <= i < array.len() ==> (#[trigger] array[i]).wf()
                    &&& !final(self).is_leaf()
                    &&& final(self).map() == old(self).map()
                    &&& final(self).children() == base@
                },
                None => old(self).is_leaf() && *final(self) == *old(self),
            },
    {
        match &mut self.base_value {
            BaseValue::Base(array) => {
                let mut base = base;
                std::mem::swap(array, &mut base);
                Some(base)
            },
            BaseValue::Value(_) => None,
        }
    }

    /// The bitmap of a branch, to be changed in place. A leaf has none.
    pub fn get_map(&mut self) -> (map: Option<&mut BitMap>)
        requires
            old(self).wf(),
        ensures
            match map {
                Some(m) => {
                    &&& !old(self).is_leaf()
                    &&& *m == old(self).map()
                    &&& final(self).wf()
                    &&& !final(self).is_leaf()
                    &&& final(self).map() == *final(m)
                    &&& final(self).children() == old(self).children()
                },
                None => old(self).is_leaf() && *final(self) == *old(self),
            },
    {
        if self.base_value.is_value() {
            None
        } else {
            match &mut self.map_key {
                MapKey::Bits(map) => Some(map),
                MapKey::Key(_) => vstd::pervasive::unreached(),
            }
        }
    }

    /// Gives a leaf the value `value` and returns the value that it had. A
    /// branch has no value: it stays as it is, and nothing is returned.
    pub fn set_value(&mut self, value: V) -> (previous: Option<V>)
        requires
            old(self).wf(),
        ensures
            final(self).wf(),
            match previous {
                Some(v) => {
                    &&& old(self).is_leaf()
                    &&& v == old(self).value()
                    &&& final(self).is_leaf()
                    &&& final(self).key() == old(self).key()
                    &&& final(self).value() == value
                },
                None => !old(self).is_leaf() && *final(self) == *old(self),
            },
    {
        match &mut self.base_value {
            BaseValue::Value(slot) => {
                let mut value = value;
                std::mem::swap(slot, &mut value);
                Some(value)
            },
            BaseValue::Base(_) => None,
        }
    }

    /// The child at place `n` of the child array of a branch, to be changed in
    /// place.
    pub fn child_mut(&mut self, n: usize) -> (child: &mut Node<K, V>)
        requires
            old(self).wf(),
            !old(self).is_leaf(),
            n < old(self).children().len(),
        ensures
            *child == old(self).children()[n as int],
            child.wf(),
            final(child).wf() ==> final(self).wf(),
            !final(self).is_leaf(),
            final(self).map() == old(self).map(),
            final(self).children() == old(self).children().update(n as int, *final(child)),
    {
        match &mut self.base_value {
            BaseValue::Base(base) => &mut base[n],
            BaseValue::Value(_) => vstd::pervasive::unreached(),
        }
    }
}

} // verus!
