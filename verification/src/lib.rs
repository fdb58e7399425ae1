//! A hash array mapped trie: an associative map whose nodes branch on
//! successive groups of bits drawn from a key's hash digest.

pub mod free_list;
pub mod hash_stream;
pub mod hasher;
pub mod key;
pub mod map;
pub mod node;
pub mod std_hasher;
pub mod trie;

use crate::free_list::FreeList;
use crate::hash_stream::{index_at, lemma_index_bound, markers, HashStream};
use crate::hasher::{BuildKeyHasher, HashKey, KeyHasher};
use crate::node::{
    lemma_slots_of_grown, lemma_slots_of_none, lemma_slots_of_occupied, lemma_slots_of_one,
    lemma_slots_of_replaced, lemma_slots_of_some, lemma_slots_of_two, Either, Node,
};
use crate::std_hasher::DefaultState;
use crate::trie::{
    bounded, chain, common_levels, diverge, lemma_common_levels_step, lemma_diverge_by_witness,
    no_slots, Growth, Trie,
};
use vstd::prelude::*;

verus! {

/// The digests of `key` under the hash builder `state`: that of a fresh hasher
/// after the key's bytes, and after one marker byte more for each further round.
pub open spec fn key_digests<K: HashKey, S: BuildKeyHasher>(state: S, key: K) -> spec_fn(nat) -> u64 {
    |round: nat| state.fresh_digest(key.encoding() + markers(round))
}

/// The slot that `key` selects at level `depth` of a map with the hash builder
/// `state`.
pub open spec fn key_index<K: HashKey, S: BuildKeyHasher>(state: S, key: K, depth: nat) -> nat {
    index_at(key_digests(state, key), 0, depth)
}

/// The slot that each key selects at each level of a map with the hash builder
/// `state`.
pub open spec fn key_indices<K: HashKey, S: BuildKeyHasher>(state: S) -> spec_fn(K, nat) -> nat {
    |key: K, depth: nat| key_index(state, key, depth)
}

/// Every slot that a key selects is a slot of a branch.
pub proof fn lemma_key_indices_bounded<K: HashKey, S: BuildKeyHasher>(state: S)
    ensures
        bounded(key_indices::<K, S>(state)),
{
    assert forall|key: K, depth: nat| #[trigger]
        key_indices::<K, S>(state)(key, depth) < usize::BITS by {
        lemma_index_bound(key_digests(state, key), 0, depth);
    }
}

/// The number of buffers that a pool holds for each length, once an entry was
/// put into the tree in the way that `growth` says, when `pool` gives the
/// numbers before. A child array that is made takes a buffer of its length
/// from the pool, if there is one, and an array that is given up leaves its
/// buffer there.
pub open spec fn pool_after(pool: spec_fn(nat) -> nat, growth: Growth) -> spec_fn(nat) -> nat {
    |len: nat|
        match growth {
            Growth::Nothing => pool(len),
            Growth::Wider { children } => if len == children + 1 && pool(len) > 0 {
                (pool(len) - 1) as nat
            } else if len == children {
                pool(len) + 1
            } else {
                pool(len)
            },
            Growth::Deeper { links } => if len == 1 {
                if pool(len) >= links {
                    (pool(len) - links) as nat
                } else {
                    0
                }
            } else if len == 2 && pool(len) > 0 {
                (pool(len) - 1) as nat
            } else {
                pool(len)
            },
        }
}

/// That `stream` gives the slots that `key` selects from level `depth` on.
pub open spec fn follows<K, H: KeyHasher>(
    stream: HashStream<H>,
    idx: spec_fn(K, nat) -> nat,
    key: K,
    depth: nat,
) -> bool {
    &&& stream.wf()
    &&& forall|n: nat| #[trigger] stream.index(n) == idx(key, depth + n)
}

/// Draws from `stream` the slot that `key` selects at level `depth`.
fn next_index<K, H: KeyHasher>(
    stream: &mut HashStream<H>,
    Ghost(idx): Ghost<spec_fn(K, nat) -> nat>,
    Ghost(key): Ghost<K>,
    Ghost(depth): Ghost<nat>,
) -> (i: usize)
    requires
        follows(*old(stream), idx, key, depth),
    ensures
        follows(*final(stream), idx, key, depth + 1),
        i == idx(key, depth),
        i < usize::BITS,
{
    let i = stream.next().unwrap() as usize;
    proof {
        assert(old(stream).index(0) == idx(key, depth + 0));
        assert forall|n: nat| #[trigger] final(stream).index(n) == idx(key, depth + 1 + n) by {
            assert(final(stream).index(n) == old(stream).index(n + 1));
            assert(depth + (n + 1) == depth + 1 + n);
        }
    }
    i
}

/// `<[T]>::swap` of std: the elements at the places `a` and `b` change places,
/// the others stay. It panics where a place is not in the slice.
pub assume_specification<E>[ <[E]>::swap ](slice: &mut [E], a: usize, b: usize)
    requires
        a < old(slice)@.len(),
        b < old(slice)@.len(),
    ensures
        final(slice)@ == old(slice)@.update(a as int, old(slice)@[b as int]).update(
            b as int,
            old(slice)@[a as int],
        ),
;

/// Moves the last element of `array` to the place `pos`; the elements from
/// there on move up by one.
fn shift_into_place<T>(array: &mut Vec<T>, pos: usize)
    requires
        pos < old(array).len(),
    ensures
        final(array)@ == old(array)@.drop_last().insert(pos as int, old(array)@.last()),
{
    let mut j = array.len() - 1;
    proof {
        assert(array@ =~= old(array)@.drop_last().insert(j as int, old(array)@.last()));
    }
    while j > pos
        invariant
            pos <= j < array.len(),
            array.len() == old(array).len(),
            array@ == old(array)@.drop_last().insert(j as int, old(array)@.last()),
        decreases j,
    {
        array.swap(j - 1, j);
        j -= 1;
        proof {
            assert(array@ =~= old(array)@.drop_last().insert(j as int, old(array)@.last()));
        }
    }
}

/// A map from keys to values, kept as a trie over the keys' hash digests.
pub struct Hamt<K, V, S = DefaultState> {
    state: S,
    root: Node<K, V>,
    free_list: FreeList<Node<K, V>>,
}

impl<K: HashKey, V> Hamt<K, V, DefaultState> {
    /// The empty map, with the default hash builder.
    pub fn new() -> (hamt: Self)
        ensures
            hamt.wf(),
            hamt.state() == DefaultState,
            hamt.tree() == Trie::<K, V>::empty(),
            hamt@ == Map::<K, V>::empty(),
            forall|len: nat| #[trigger] hamt.pool()(len) == 0,
    {
        Self::with_hasher(DefaultState)
    }
}

impl<K: HashKey, V, S: BuildKeyHasher> View for Hamt<K, V, S> {
    type V = Map<K, V>;

    /// The entries of the map: each key that a lookup finds, with the value
    /// that it finds.
    open spec fn view(&self) -> Map<K, V> {
        Map::new(|key: K| self.spec_get(key) is Some, |key: K| self.spec_get(key)->Some_0)
    }
}

impl<K: HashKey, V, S: BuildKeyHasher> Hamt<K, V, S> {
    /// The hash builder of the map.
    pub closed spec fn state(&self) -> S {
        self.state
    }

    /// The tree of the map.
    pub closed spec fn tree(&self) -> Trie<K, V> {
        self.root@
    }

    /// The number of buffers that the map's pool of child arrays holds, for
    /// each length of an array.
    pub closed spec fn pool(&self) -> spec_fn(nat) -> nat {
        self.free_list.counts()
    }

    /// The slot that each key selects at each level of this map.
    pub open spec fn indices(&self) -> spec_fn(K, nat) -> nat {
        key_indices(self.state())
    }

    /// The value that a lookup of `key` finds.
    pub open spec fn spec_get(&self, key: K) -> Option<V> {
        self.tree().get(self.indices(), key, 0)
    }

    /// Whether the entry of `key` can be put into the map: where the key meets
    /// a leaf with another key on its way down the tree, the two select
    /// different slots at some level that a `usize` can count.
    pub open spec fn admits(&self, key: K) -> bool {
        self.tree().admits(self.indices(), key, 0, usize::MAX as nat)
    }

    /// Whether the entry of `key` can be put into the map with no more than
    /// `levels` new branches: where the key meets a leaf with another key on its
    /// way down the tree, the two select different slots at one of the `levels`
    /// levels from the leaf's own on, one that a `usize` can count.
    pub open spec fn parts_within(&self, key: K, levels: nat) -> bool {
        self.tree().parts_within(self.indices(), key, 0, levels, usize::MAX as nat)
    }

    /// The tree and the pool are in order.
    pub closed spec fn wf(&self) -> bool {
        &&& self.root.shaped(0)
        &&& self.free_list.wf()
    }

    /// The map admits an entry for a key that it holds, and the empty map admits
    /// every entry.
    pub proof fn lemma_admits(&self, key: K)
        requires
            self@.contains_key(key) || self.tree() == Trie::<K, V>::empty(),
        ensures
            self.admits(key),
    {
        if self@.contains_key(key) {
            self.tree().lemma_present_admits(self.indices(), key, 0, usize::MAX as nat);
        } else {
            Trie::<K, V>::lemma_empty_get(self.indices(), key, 0);
        }
    }

    /// The tree of a map in order has a slot for each index in every branch.
    pub proof fn lemma_tree_regular(&self)
        requires
            self.wf(),
        ensures
            self.tree().regular(),
    {
        self.root.lemma_view_regular();
    }

    /// The empty map, with the hash builder `state`.
    pub fn with_hasher(state: S) -> (hamt: Self)
        ensures
            hamt.wf(),
            hamt.state() == state,
            hamt.tree() == Trie::<K, V>::empty(),
            hamt@ == Map::<K, V>::empty(),
            forall|len: nat| #[trigger] hamt.pool()(len) == 0,
    {
        let hamt = Hamt { state, root: Node::empty(), free_list: FreeList::new() };
        proof {
            hamt.root.lemma_shaped(0);
            assert(hamt@ =~= Map::<K, V>::empty());
        }
        hamt
    }

    /// The root of the map's tree.
    pub fn root(&self) -> (root: &Node<K, V>)
        ensures
            root@ == self.tree(),
            self.wf() ==> root.shaped(0),
    {
        &self.root
    }

    /// The number of buffers that the map's pool holds for child arrays of
    /// length `len`.
    pub fn pooled(&self, len: usize) -> (n: usize)
        requires
            self.wf(),
        ensures
            n == self.pool()(len as nat),
    {
        self.free_list.available(len)
    }

    /// The stream of the slots that `key` selects, level by level.
    fn key_hash(state: &S, key: &K) -> (stream: HashStream<S::Hasher>)
        ensures
            follows(stream, key_indices::<K, S>(*state), *key, 0),
    {
        let mut hasher = state.build_hasher();
        key.hash(&mut hasher);
        let stream = HashStream::new(hasher);
        proof {
            assert(stream.digests() =~= key_digests(*state, *key));
        }
        stream
    }

    /// The value that the map holds for `key`, if it holds one.
    pub fn get(&self, key: &K) -> (found: Option<&V>)
        requires
            self.wf(),
        ensures
            match found {
                Some(value) => self.spec_get(*key) == Some(*value),
                None => self.spec_get(*key) is None,
            },
            found is Some <==> self@.contains_key(*key),
            found matches Some(value) ==> self@[*key] == *value,
    {
        let mut stream = Self::key_hash(&self.state, key);
        let mut cur = &self.root;
        let ghost idx = self.indices();
        let ghost mut depth: nat = 0;
        proof {
            lemma_key_indices_bounded::<K, S>(self.state);
        }
        loop
            invariant
                idx == self.indices(),
                bounded(idx),
                follows(stream, idx, *key, depth),
                cur.shaped(depth),
                self.spec_get(*key) == cur@.get(idx, *key, depth),
            decreases usize::MAX - depth,
        {
            proof {
                cur.lemma_view();
                cur.lemma_shaped(depth);
            }
            match cur.inner() {
                Either::Left((k, v)) => {
                    proof {
                        K::lemma_eq_is_identity();
                        reveal(vstd::laws_eq::obeys_concrete_eq);
                    }
                    return if *k == *key {
                        Some(v)
                    } else {
                        None
                    };
                },
                Either::Right((map, base)) => {
                    if map.is_empty() {
                        proof {
                            lemma_slots_of_none(map, base@);
                        }
                        return None;
                    }
                    let i = next_index(&mut stream, Ghost(idx), Ghost(*key), Ghost(depth));
                    if map.is_set(i) {
                        let n = map.set_bits_under(i);
                        cur = &base[n];
                        proof {
                            depth = depth + 1;
                        }
                    } else {
                        return None;
                    }
                },
            }
        }
    }

    /// Puts the entry of `key` and `value` into the map, and returns the value
    /// that the map held for the key before, if it held one.
    pub fn insert(&mut self, key: K, value: V) -> (previous: Option<V>)
        requires
            old(self).wf(),
            old(self).admits(key),
        ensures
            final(self).wf(),
            final(self).state() == old(self).state(),
            final(self).tree() == old(self).tree().insert(old(self).indices(), key, value, 0),
            previous == old(self).spec_get(key),
            final(self)@ == old(self)@.insert(key, value),
            final(self).pool() == pool_after(
                old(self).pool(),
                old(self).tree().growth(old(self).indices(), key, 0),
            ),
    {
        let stream = Self::key_hash(&self.state, &key);
        let previous = Self::insert_at(
            &self.state,
            &mut self.free_list,
            &mut self.root,
            key,
            value,
            stream,
            0,
        );
        proof {
            old(self).lemma_insert_get(*final(self), key, value);
            assert(final(self)@ =~= old(self)@.insert(key, value));
        }
        previous
    }

    /// After an entry was put into a map, a lookup of its key finds its value,
    /// and a lookup of any other key finds what it found before.
    pub proof fn lemma_insert_get(&self, after: Self, key: K, value: V)
        requires
            self.wf(),
            self.admits(key),
            after.state() == self.state(),
            after.tree() == self.tree().insert(self.indices(), key, value, 0),
        ensures
            after.spec_get(key) == Some(value),
            forall|other: K| other != key ==> #[trigger] after.spec_get(other) == self.spec_get(other),
    {
        let idx = self.indices();
        lemma_key_indices_bounded::<K, S>(self.state());
        self.lemma_tree_regular();
        assert forall|other: K| #[trigger]
            after.spec_get(other) == if other == key {
                Some(value)
            } else {
                self.spec_get(other)
            } by {
            self.tree().lemma_insert_get(idx, key, value, 0, usize::MAX as nat, other);
        }
    }

    /// Puts the entry of `key` and `value` into the tree below `node`, which is
    /// at level `depth`, and returns the value that the key had there.
    fn insert_at(
        state: &S,
        free_list: &mut FreeList<Node<K, V>>,
        node: &mut Node<K, V>,
        key: K,
        value: V,
        stream: HashStream<S::Hasher>,
        depth: usize,
    ) -> (previous: Option<V>)
        requires
            old(free_list).wf(),
            old(node).shaped(depth as nat),
            follows(stream, key_indices::<K, S>(*state), key, depth as nat),
            old(node)@.admits(key_indices::<K, S>(*state), key, depth as nat, usize::MAX as nat),
        ensures
            final(free_list).wf(),
            final(node).shaped(depth as nat),
            final(node)@ == old(node)@.insert(key_indices::<K, S>(*state), key, value, depth as nat),
            previous == old(node)@.get(key_indices::<K, S>(*state), key, depth as nat),
            final(free_list).counts() == pool_after(
                old(free_list).counts(),
                old(node)@.growth(key_indices::<K, S>(*state), key, depth as nat),
            ),
        decreases usize::MAX - depth,
    {
        let ghost idx = key_indices::<K, S>(*state);
        let ghost level = depth as nat;
        let ghost pool = free_list.counts();
        let mut stream = stream;
        proof {
            node.lemma_view();
            node.lemma_shaped(level);
        }
        match node.inner() {
            Either::Left((k, _)) => {
                proof {
                    K::lemma_eq_is_identity();
                    reveal(vstd::laws_eq::obeys_concrete_eq);
                }
                if *k == key {
                    let previous = node.set_value(value);
                    proof {
                        node.lemma_view();
                        node.lemma_shaped(level);
                        assert(free_list.counts() =~= pool_after(pool, Growth::Nothing));
                    }
                    previous
                } else {
                    let mut leaf = Node::empty();
                    std::mem::swap(node, &mut leaf);
                    match leaf.into_inner() {
                        Either::Left((key_other, value_other)) => {
                            let stream_other = Self::key_hash(state, &key_other).skip(depth);
                            proof {
                                let d = choose|d: nat|
                                    level <= d < usize::MAX && #[trigger] idx(key, d) != idx(
                                        key_other,
                                        d,
                                    );
                                lemma_diverge_by_witness(idx, key, key_other, level, d);
                            }
                            Self::split(
                                free_list,
                                node,
                                key,
                                value,
                                stream,
                                key_other,
                                value_other,
                                stream_other,
                                Ghost(idx),
                                Ghost(level),
                            );
                            None
                        },
                        Either::Right(_) => vstd::pervasive::unreached(),
                    }
                }
            },
            Either::Right((map, base)) => {
                let ghost children = base@;
                let i = next_index(&mut stream, Ghost(idx), Ghost(key), Ghost(level));
                if map.is_empty() {
                    proof {
                        lemma_slots_of_none(map, children);
                    }
                    *node = Node::key_value(key, value);
                    proof {
                        node.lemma_shaped(level);
                        assert(free_list.counts() =~= pool_after(pool, Growth::Nothing));
                    }
                    None
                } else if map.is_set(i) {
                    let n = map.set_bits_under(i);
                    let child = node.child_mut(n);
                    let previous = Self::insert_at(
                        state,
                        free_list,
                        child,
                        key,
                        value,
                        stream,
                        depth + 1,
                    );
                    proof {
                        lemma_slots_of_some(map, children);
                        lemma_slots_of_replaced(map, children, i as nat, node.children()[n as int]);
                        node.children()[n as int].lemma_shaped(level + 1);
                        node.lemma_view();
                        node.lemma_shaped(level);
                    }
                    previous
                } else {
                    let pos = map.set_bits_under(i);
                    match node.get_map() {
                        Some(map) => {
                            map.set(i);
                        },
                        None => {},
                    }
                    let slice = node.set_base(Vec::new()).unwrap();
                    let leaf = Node::key_value(key, value);
                    proof {
                        lemma_slots_of_some(map, children);
                        lemma_slots_of_grown(map, node.map(), children, i as nat, leaf);
                        lemma_slots_of_occupied(map, children);
                    }
                    let mut slice = free_list.push(slice, leaf);
                    shift_into_place(&mut slice, pos);
                    node.set_base(slice);
                    proof {
                        assert(children.push(leaf).drop_last() =~= children);
                        leaf.lemma_shaped(level + 1);
                        node.lemma_view();
                        node.lemma_shaped(level);
                        assert(free_list.counts() =~= pool_after(
                            pool,
                            Growth::Wider { children: children.len() },
                        ));
                    }
                    None
                }
            },
        }
    }

    /// Puts two entries whose keys differ below the empty branch `node` at level
    /// `depth`: as long as the two keys select the same slot, a branch gets one
    /// child, the next branch, in that slot; where they part, the branch gets the
    /// two leaves, the one in the lower slot first.
    fn split(
        free_list: &mut FreeList<Node<K, V>>,
        node: &mut Node<K, V>,
        key: K,
        value: V,
        stream: HashStream<S::Hasher>,
        key_other: K,
        value_other: V,
        stream_other: HashStream<S::Hasher>,
        Ghost(idx): Ghost<spec_fn(K, nat) -> nat>,
        Ghost(depth): Ghost<nat>,
    )
        requires
            old(free_list).wf(),
            old(node).wf(),
            !old(node).is_leaf(),
            old(node).map().word() == 0,
            old(node).children().len() == 0,
            follows(stream, idx, key, depth),
            follows(stream_other, idx, key_other, depth),
            diverge(idx, key, key_other, depth),
            depth + common_levels(idx, key, key_other, depth) < usize::MAX,
        ensures
            final(free_list).wf(),
            final(node).shaped(depth),
            final(node)@ == chain(
                idx,
                key,
                value,
                key_other,
                value_other,
                depth,
                common_levels(idx, key, key_other, depth),
            ),
            final(free_list).counts() == pool_after(
                old(free_list).counts(),
                Growth::Deeper { links: common_levels(idx, key, key_other, depth) },
            ),
        decreases common_levels(idx, key, key_other, depth),
    {
        let mut stream = stream;
        let mut stream_other = stream_other;
        let i = next_index(&mut stream, Ghost(idx), Ghost(key), Ghost(depth));
        let j = next_index(&mut stream_other, Ghost(idx), Ghost(key_other), Ghost(depth));
        proof {
            lemma_common_levels_step(idx, key, key_other, depth);
        }
        if i == j {
            match node.get_map() {
                Some(map) => {
                    map.set(i);
                },
                None => {},
            }
            let singleton = free_list.singleton(Node::empty());
            node.set_base(singleton);
            let child = node.child_mut(0);
            Self::split(
                free_list,
                child,
                key,
                value,
                stream,
                key_other,
                value_other,
                stream_other,
                Ghost(idx),
                Ghost(depth + 1),
            );
            proof {
                lemma_slots_of_one(node.map(), node.children(), i as nat);
                node.children()[0].lemma_shaped(depth + 1);
                node.lemma_view();
                node.lemma_shaped(depth);
            }
        } else {
            match node.get_map() {
                Some(map) => {
                    map.set(i);
                    map.set(j);
                },
                None => {},
            }
            let leaf = Node::key_value(key, value);
            let leaf_other = Node::key_value(key_other, value_other);
            let pair = if j < i {
                free_list.pair(leaf_other, leaf)
            } else {
                free_list.pair(leaf, leaf_other)
            };
            node.set_base(pair);
            proof {
                node.lemma_view();
                node.lemma_shaped(depth);
                leaf.lemma_shaped(depth + 1);
                leaf_other.lemma_shaped(depth + 1);
                if j < i {
                    lemma_slots_of_two(node.map(), node.children(), j as nat, i as nat);
                } else {
                    lemma_slots_of_two(node.map(), node.children(), i as nat, j as nat);
                }
                // the two slots differ, so it does not matter which is filled first
                assert(node@->slots =~= no_slots::<K, V>().update(i as int, Some(leaf@)).update(
                    j as int,
                    Some(leaf_other@),
                ));
            }
        }
    }

    /// Whether two keys select different slots at one of the `levels` levels
    /// from `depth` on, one that a `usize` can count. The streams are those of
    /// the two keys, each without its first `depth` indices.
    fn part_within(
        stream: HashStream<S::Hasher>,
        other: HashStream<S::Hasher>,
        depth: usize,
        levels: usize,
        Ghost(idx): Ghost<spec_fn(K, nat) -> nat>,
        Ghost(key): Ghost<K>,
        Ghost(key_other): Ghost<K>,
    ) -> (found: bool)
        requires
            follows(stream, idx, key, depth as nat),
            follows(other, idx, key_other, depth as nat),
        ensures
            found == exists|d: nat|
                depth <= d < depth + levels && d < usize::MAX && #[trigger] idx(key, d) != idx(
                    key_other,
                    d,
                ),
    {
        let mut stream = stream;
        let mut other = other;
        let mut level: usize = depth;
        let mut tried: usize = 0;
        while tried < levels && level < usize::MAX
            invariant
                level == depth + tried,
                tried <= levels,
                follows(stream, idx, key, level as nat),
                follows(other, idx, key_other, level as nat),
                forall|d: nat| depth <= d < level ==> #[trigger] idx(key, d) == idx(key_other, d),
            decreases levels - tried,
        {
            let i = next_index(&mut stream, Ghost(idx), Ghost(key), Ghost(level as nat));
            let j = next_index(&mut other, Ghost(idx), Ghost(key_other), Ghost(level as nat));
            if i != j {
                return true;
            }
            tried += 1;
            level += 1;
        }
        false
    }

    /// Whether the entry of `key` can be put into the map with no more than
    /// `levels` new branches.
    pub fn admits_within(&self, key: &K, levels: usize) -> (fits: bool)
        requires
            self.wf(),
        ensures
            fits == self.parts_within(*key, levels as nat),
            fits ==> self.admits(*key),
    {
        let mut stream = Self::key_hash(&self.state, key);
        let mut cur = &self.root;
        let mut depth: usize = 0;
        let ghost idx = self.indices();
        let ghost limit = usize::MAX as nat;
        proof {
            lemma_key_indices_bounded::<K, S>(self.state);
            if self.parts_within(*key, levels as nat) {
                self.tree().lemma_parts_within_admits(idx, *key, 0, levels as nat, limit);
            }
        }
        loop
            invariant
                idx == self.indices(),
                bounded(idx),
                limit == usize::MAX,
                follows(stream, idx, *key, depth as nat),
                cur.shaped(depth as nat),
                self.parts_within(*key, levels as nat) ==> self.admits(*key),
                self.parts_within(*key, levels as nat) == cur@.parts_within(
                    idx,
                    *key,
                    depth as nat,
                    levels as nat,
                    limit,
                ),
            decreases usize::MAX - depth,
        {
            proof {
                cur.lemma_view();
                cur.lemma_shaped(depth as nat);
            }
            match cur.inner() {
                Either::Left((k, _)) => {
                    proof {
                        K::lemma_eq_is_identity();
                        reveal(vstd::laws_eq::obeys_concrete_eq);
                    }
                    if *k == *key {
                        return true;
                    }
                    let other = Self::key_hash(&self.state, k).skip(depth);
                    return Self::part_within(
                        stream,
                        other,
                        depth,
                        levels,
                        Ghost(idx),
                        Ghost(*key),
                        Ghost(*k),
                    );
                },
                Either::Right((map, base)) => {
                    if map.is_empty() {
                        proof {
                            lemma_slots_of_none(map, base@);
                        }
                        return true;
                    }
                    let i = next_index(&mut stream, Ghost(idx), Ghost(*key), Ghost(depth as nat));
                    if map.is_set(i) {
                        let n = map.set_bits_under(i);
                        cur = &base[n];
                        depth = depth + 1;
                    } else {
                        return true;
                    }
                },
            }
        }
    }

    /// Puts the entry of `key` and `value` into the map if that takes no more
    /// than `levels` new branches, and returns the value that the map held for
    /// the key before, if it held one. Otherwise the map stays as it is, and the
    /// entry comes back.
    pub fn try_insert(&mut self, key: K, value: V, levels: usize) -> (outcome: Result<
        Option<V>,
        (K, V),
    >)
        requires
            old(self).wf(),
        ensures
            final(self).wf(),
            final(self).state() == old(self).state(),
            match outcome {
                Ok(previous) => {
                    &&& old(self).parts_within(key, levels as nat)
                    &&& final(self).tree() == old(self).tree().insert(
                        old(self).indices(),
                        key,
                        value,
                        0,
                    )
                    &&& previous == old(self).spec_get(key)
                    &&& final(self)@ == old(self)@.insert(key, value)
                    &&& final(self).pool() == pool_after(
                        old(self).pool(),
                        old(self).tree().growth(old(self).indices(), key, 0),
                    )
                },
                Err(entry) => {
                    &&& !old(self).parts_within(key, levels as nat)
                    &&& entry == (key, value)
                    &&& final(self).tree() == old(self).tree()
                    &&& final(self)@ == old(self)@
                    &&& final(self).pool() == old(self).pool()
                },
            },
    {
        if self.admits_within(&key, levels) {
            Ok(self.insert(key, value))
        } else {
            Err((key, value))
        }
    }
}

} // verus!
