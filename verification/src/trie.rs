//! The mathematical model of the map's tree: what a node stands for, and what
//! lookup and insertion are on it.

use vstd::prelude::*;

verus! {

/// A tree of the map. A leaf holds one entry. A branch has a slot for each
/// index, and in each slot a subtree or nothing.
pub enum Trie<K, V> {
    Leaf { key: K, value: V },
    Branch { slots: Seq<Option<Trie<K, V>>> },
}

/// The slots of a branch without a child.
pub open spec fn no_slots<K, V>() -> Seq<Option<Trie<K, V>>> {
    Seq::new(usize::BITS as nat, |i: int| None)
}

impl<K, V> Trie<K, V> {
    /// The branch without a child: the tree of the empty map.
    pub open spec fn empty() -> Self {
        Trie::Branch { slots: no_slots() }
    }

    /// Whether this is a branch without a child.
    pub open spec fn is_empty(self) -> bool {
        &&& self is Branch
        &&& forall|i: int| 0 <= i < self->slots.len() ==> (#[trigger] self->slots[i]) is None
    }

    /// The value that a lookup of `key` finds in the tree. `idx` gives the slot
    /// that a key selects at a level, and the tree's root is at level `depth`.
    pub open spec fn get(self, idx: spec_fn(K, nat) -> nat, key: K, depth: nat) -> Option<V>
        decreases self,
    {
        match self {
            Trie::Leaf { key: k, value } => if k == key {
                Some(value)
            } else {
                None
            },
            Trie::Branch { slots } => {
                let i = idx(key, depth) as int;
                if i < slots.len() {
                    match slots[i] {
                        Some(child) => child.get(idx, key, depth + 1),
                        None => None,
                    }
                } else {
                    None
                }
            },
        }
    }
}

/// That the keys `a` and `b` select the same slot at each of `n` levels from
/// `from` on, and different slots at the level after them.
pub open spec fn agree_until<K>(idx: spec_fn(K, nat) -> nat, a: K, b: K, from: nat, n: nat) -> bool {
    &&& forall|d: nat| from <= d < from + n ==> #[trigger] idx(a, d) == idx(b, d)
    &&& idx(a, from + n) != idx(b, from + n)
}

/// Whether the keys `a` and `b` select different slots at some level from
/// `from` on.
pub open spec fn diverge<K>(idx: spec_fn(K, nat) -> nat, a: K, b: K, from: nat) -> bool {
    exists|n: nat| agree_until(idx, a, b, from, n)
}

/// The number of levels from `from` on at which the keys `a` and `b` select the
/// same slot, before the first at which they do not.
pub open spec fn common_levels<K>(idx: spec_fn(K, nat) -> nat, a: K, b: K, from: nat) -> nat {
    choose|n: nat| agree_until(idx, a, b, from, n)
}

/// There is one first level at which two keys part.
pub proof fn lemma_agree_until_unique<K>(
    idx: spec_fn(K, nat) -> nat,
    a: K,
    b: K,
    from: nat,
    n: nat,
    m: nat,
)
    requires
        agree_until(idx, a, b, from, n),
        agree_until(idx, a, b, from, m),
    ensures
        n == m,
{
    if n < m {
        assert(idx(a, from + n) == idx(b, from + n));
    } else if m < n {
        assert(idx(a, from + m) == idx(b, from + m));
    }
}

/// Two keys that select different slots at level `d` part at `d` or above it.
pub proof fn lemma_diverge_by_witness<K>(idx: spec_fn(K, nat) -> nat, a: K, b: K, from: nat, d: nat)
    requires
        from <= d,
        idx(a, d) != idx(b, d),
    ensures
        diverge(idx, a, b, from),
        from + common_levels(idx, a, b, from) <= d,
    decreases d - from,
{
    if idx(a, from) != idx(b, from) {
        assert(agree_until(idx, a, b, from, 0));
        lemma_agree_until_unique(idx, a, b, from, 0, common_levels(idx, a, b, from));
    } else {
        lemma_diverge_by_witness(idx, a, b, from + 1, d);
        let n = common_levels(idx, a, b, from + 1);
        assert(agree_until(idx, a, b, from + 1, n));
        assert(agree_until(idx, a, b, from, n + 1)) by {
            assert(from + 1 + n == from + (n + 1));
        }
        lemma_agree_until_unique(idx, a, b, from, n + 1, common_levels(idx, a, b, from));
    }
}

/// Where two keys part: at once, if they select different slots at level
/// `from`, and else one level later than they do from the next level on.
pub proof fn lemma_common_levels_step<K>(idx: spec_fn(K, nat) -> nat, a: K, b: K, from: nat)
    requires
        diverge(idx, a, b, from),
    ensures
        idx(a, from) != idx(b, from) ==> common_levels(idx, a, b, from) == 0,
        idx(a, from) == idx(b, from) ==> {
            &&& diverge(idx, a, b, from + 1)
            &&& common_levels(idx, a, b, from) == common_levels(idx, a, b, from + 1) + 1
        },
{
    let n = common_levels(idx, a, b, from);
    assert(agree_until(idx, a, b, from, n));
    if idx(a, from) != idx(b, from) {
        assert(agree_until(idx, a, b, from, 0));
        lemma_agree_until_unique(idx, a, b, from, 0, n);
    } else {
        assert(n > 0) by {
            if n == 0 {
                assert(from + 0 == from);
            }
        }
        let m = (n - 1) as nat;
        assert(agree_until(idx, a, b, from + 1, m)) by {
            assert(from + 1 + m == from + n);
        }
        lemma_agree_until_unique(idx, a, b, from + 1, m, common_levels(idx, a, b, from + 1));
    }
}

/// The branch whose one child `child` stands in slot `i`.
pub open spec fn one_child<K, V>(i: nat, child: Trie<K, V>) -> Trie<K, V> {
    Trie::Branch { slots: no_slots().update(i as int, Some(child)) }
}

/// The branch whose two children `a` and `b` stand in the slots `i` and `j`.
pub open spec fn two_children<K, V>(i: nat, a: Trie<K, V>, j: nat, b: Trie<K, V>) -> Trie<K, V> {
    Trie::Branch { slots: no_slots().update(i as int, Some(a)).update(j as int, Some(b)) }
}

/// The tree that holds two entries below `links` branches with one child each:
/// the last branch has the two leaves, each in the slot that its key selects at
/// that level, and each branch above it has the next one in the slot that the
/// first key selects at its level. The first branch is at level `depth`.
pub open spec fn chain<K, V>(
    idx: spec_fn(K, nat) -> nat,
    a: K,
    a_value: V,
    b: K,
    b_value: V,
    depth: nat,
    links: nat,
) -> Trie<K, V>
    decreases links,
{
    if links == 0 {
        two_children(
            idx(a, depth),
            Trie::Leaf { key: a, value: a_value },
            idx(b, depth),
            Trie::Leaf { key: b, value: b_value },
        )
    } else {
        one_child(idx(a, depth), chain(idx, a, a_value, b, b_value, depth + 1, (links - 1) as nat))
    }
}

/// The tree that takes the place of a leaf at level `depth` when an entry with
/// another key arrives there: the chain that is as long as the two keys select
/// the same slots.
pub open spec fn fork<K, V>(
    idx: spec_fn(K, nat) -> nat,
    a: K,
    a_value: V,
    b: K,
    b_value: V,
    depth: nat,
) -> Trie<K, V> {
    chain(idx, a, a_value, b, b_value, depth, common_levels(idx, a, b, depth))
}

impl<K, V> Trie<K, V> {
    /// The tree after the entry of `key` and `value` was put into it. `idx` gives
    /// the slot that a key selects at a level, and the tree's root is at level
    /// `depth`.
    pub open spec fn insert(self, idx: spec_fn(K, nat) -> nat, key: K, value: V, depth: nat) -> Self
        decreases self,
    {
        match self {
            Trie::Leaf { key: k, value: v } => if k == key {
                Trie::Leaf { key: k, value }
            } else {
                fork(idx, key, value, k, v, depth)
            },
            Trie::Branch { slots } => {
                let i = idx(key, depth) as int;
                if self.is_empty() {
                    Trie::Leaf { key, value }
                } else if i < slots.len() {
                    match slots[i] {
                        Some(child) => Trie::Branch {
                            slots: slots.update(i, Some(child.insert(idx, key, value, depth + 1))),
                        },
                        None => Trie::Branch {
                            slots: slots.update(i, Some(Trie::Leaf { key, value })),
                        },
                    }
                } else {
                    self
                }
            },
        }
    }

    /// Whether the entry of `key` can be put into the tree without a branch at
    /// level `limit` or deeper: where the key meets a leaf with another key on
    /// its way down, the two part below that level.
    pub open spec fn admits(self, idx: spec_fn(K, nat) -> nat, key: K, depth: nat, limit: nat) -> bool
        decreases self,
    {
        match self {
            Trie::Leaf { key: k, value: _ } => k == key || exists|d: nat|
                depth <= d < limit && #[trigger] idx(key, d) != idx(k, d),
            Trie::Branch { slots } => {
                let i = idx(key, depth) as int;
                i < slots.len() ==> match slots[i] {
                    Some(child) => child.admits(idx, key, depth + 1, limit),
                    None => true,
                }
            },
        }
    }
}

impl<K, V> Trie<K, V> {
    /// Whether the entry of `key` can be put into the tree with no more than
    /// `levels` new branches, none of them at level `limit` or deeper: where the
    /// key meets a leaf with another key on its way down, the two part within
    /// `levels` levels from the leaf's own, and below level `limit`.
    pub open spec fn parts_within(
        self,
        idx: spec_fn(K, nat) -> nat,
        key: K,
        depth: nat,
        levels: nat,
        limit: nat,
    ) -> bool
        decreases self,
    {
        match self {
            Trie::Leaf { key: k, value: _ } => k == key || exists|d: nat|
                depth <= d < depth + levels && d < limit && #[trigger] idx(key, d) != idx(k, d),
            Trie::Branch { slots } => {
                let i = idx(key, depth) as int;
                i < slots.len() ==> match slots[i] {
                    Some(child) => child.parts_within(idx, key, depth + 1, levels, limit),
                    None => true,
                }
            },
        }
    }

    /// An entry whose key is in the tree can be put into it: it takes the place
    /// of the entry that is there.
    pub proof fn lemma_present_admits(self, idx: spec_fn(K, nat) -> nat, key: K, depth: nat, limit: nat)
        requires
            self.get(idx, key, depth) is Some,
        ensures
            self.admits(idx, key, depth, limit),
        decreases self,
    {
        match self {
            Trie::Leaf { .. } => {},
            Trie::Branch { slots } => {
                let i = idx(key, depth) as int;
                if i < slots.len() {
                    match slots[i] {
                        Some(child) => {
                            child.lemma_present_admits(idx, key, depth + 1, limit);
                        },
                        None => {},
                    }
                }
            },
        }
    }

    /// An entry that can be put into the tree with a bounded number of new
    /// branches can be put into it.
    pub proof fn lemma_parts_within_admits(
        self,
        idx: spec_fn(K, nat) -> nat,
        key: K,
        depth: nat,
        levels: nat,
        limit: nat,
    )
        requires
            self.parts_within(idx, key, depth, levels, limit),
        ensures
            self.admits(idx, key, depth, limit),
        decreases self,
    {
        match self {
            Trie::Leaf { key: k, value: _ } => {
                if k != key {
                    let d = choose|d: nat|
                        depth <= d < depth + levels && d < limit && #[trigger] idx(key, d) != idx(
                            k,
                            d,
                        );
                    assert(depth <= d < limit && idx(key, d) != idx(k, d));
                }
            },
            Trie::Branch { slots } => {
                let i = idx(key, depth) as int;
                if i < slots.len() {
                    match slots[i] {
                        Some(child) => {
                            child.lemma_parts_within_admits(idx, key, depth + 1, levels, limit);
                        },
                        None => {},
                    }
                }
            },
        }
    }
}

/// The number of the first `n` slots of `slots` that hold a child.
pub open spec fn occupied<K, V>(slots: Seq<Option<Trie<K, V>>>, n: nat) -> nat
    decreases n,
{
    if n == 0 {
        0
    } else {
        occupied(slots, (n - 1) as nat) + if n - 1 < slots.len() && slots[n - 1] is Some {
            1nat
        } else {
            0nat
        }
    }
}

/// What it takes to put an entry into a tree.
pub enum Growth {
    /// No child array is made: a leaf gets another value, or the empty tree
    /// becomes a leaf.
    Nothing,
    /// A branch with `children` children gets one more.
    Wider { children: nat },
    /// A leaf gives way to `links` branches with one child each, and to one
    /// with two.
    Deeper { links: nat },
}

impl<K, V> Trie<K, V> {
    /// What it takes to put an entry with the key `key` into the tree.
    pub open spec fn growth(self, idx: spec_fn(K, nat) -> nat, key: K, depth: nat) -> Growth
        decreases self,
    {
        match self {
            Trie::Leaf { key: k, value: _ } => if k == key {
                Growth::Nothing
            } else {
                Growth::Deeper { links: common_levels(idx, key, k, depth) }
            },
            Trie::Branch { slots } => {
                let i = idx(key, depth) as int;
                if self.is_empty() || i >= slots.len() {
                    Growth::Nothing
                } else {
                    match slots[i] {
                        Some(child) => child.growth(idx, key, depth + 1),
                        None => Growth::Wider { children: occupied(slots, slots.len()) },
                    }
                }
            },
        }
    }
}

/// Whether every index that `idx` gives is the number of a slot.
pub open spec fn bounded<K>(idx: spec_fn(K, nat) -> nat) -> bool {
    forall|key: K, depth: nat| #[trigger] idx(key, depth) < usize::BITS
}

impl<K, V> Trie<K, V> {
    /// Whether every branch of the tree has a slot for each index.
    pub open spec fn regular(self) -> bool
        decreases self,
    {
        match self {
            Trie::Leaf { .. } => true,
            Trie::Branch { slots } => {
                &&& slots.len() == usize::BITS
                &&& forall|i: int|
                    0 <= i < slots.len() ==> match #[trigger] slots[i] {
                        Some(child) => child.regular(),
                        None => true,
                    }
            },
        }
    }

    /// A lookup in the empty tree finds nothing.
    pub proof fn lemma_empty_get(idx: spec_fn(K, nat) -> nat, key: K, depth: nat)
        ensures
            Self::empty().get(idx, key, depth) is None,
            Self::empty().is_empty(),
            Self::empty().regular(),
            Self::empty().admits(idx, key, depth, usize::MAX as nat),
    {
    }

    /// A lookup in a chain finds the two entries of the chain, and no other.
    pub proof fn lemma_chain_get(
        idx: spec_fn(K, nat) -> nat,
        a: K,
        a_value: V,
        b: K,
        b_value: V,
        depth: nat,
        links: nat,
        key: K,
    )
        requires
            bounded(idx),
            a != b,
            agree_until(idx, a, b, depth, links),
        ensures
            chain(idx, a, a_value, b, b_value, depth, links).regular(),
            !chain(idx, a, a_value, b, b_value, depth, links).is_empty(),
            chain(idx, a, a_value, b, b_value, depth, links).get(idx, key, depth) == if key == a {
                Some(a_value)
            } else if key == b {
                Some(b_value)
            } else {
                None
            },
        decreases links,
    {
        let i = idx(a, depth);
        let j = idx(b, depth);
        let s = idx(key, depth);
        assert(i < usize::BITS && j < usize::BITS && s < usize::BITS);
        let whole = chain(idx, a, a_value, b, b_value, depth, links);
        if links == 0 {
            assert(depth + 0 == depth);
            let leaf_a = Trie::Leaf { key: a, value: a_value };
            let leaf_b = Trie::Leaf { key: b, value: b_value };
            assert(leaf_a.regular() && leaf_b.regular());
            assert(whole->slots[i as int] == Some(leaf_a));
            assert(whole->slots[j as int] == Some(leaf_b));
            assert forall|n: int| 0 <= n < whole->slots.len() implies match #[trigger] whole->slots[n] {
                Some(child) => child.regular(),
                None => true,
            } by {
                if n != i && n != j {
                    assert(whole->slots[n] is None);
                }
            }
            assert(leaf_a.get(idx, key, depth + 1) == if key == a {
                Some(a_value)
            } else {
                None
            });
            assert(leaf_b.get(idx, key, depth + 1) == if key == b {
                Some(b_value)
            } else {
                None
            });
            if s != i && s != j {
                assert(whole->slots[s as int] is None);
            }
        } else {
            let rest = chain(idx, a, a_value, b, b_value, depth + 1, (links - 1) as nat);
            assert(agree_until(idx, a, b, depth + 1, (links - 1) as nat)) by {
                assert(depth + 1 + (links - 1) == depth + links);
            }
            Self::lemma_chain_get(idx, a, a_value, b, b_value, depth + 1, (links - 1) as nat, key);
            assert(idx(a, depth) == idx(b, depth));
            assert(whole->slots[i as int] == Some(rest));
            assert forall|n: int| 0 <= n < whole->slots.len() implies match #[trigger] whole->slots[n] {
                Some(child) => child.regular(),
                None => true,
            } by {
                if n != i {
                    assert(whole->slots[n] is None);
                }
            }
            if s != i {
                assert(whole->slots[s as int] is None);
                assert(key != a && key != b);
            }
        }
    }

    /// After an entry was put into a tree, a lookup of its key finds its value,
    /// and a lookup of any other key finds what it found before. The tree keeps
    /// its form.
    pub proof fn lemma_insert_get(
        self,
        idx: spec_fn(K, nat) -> nat,
        key: K,
        value: V,
        depth: nat,
        limit: nat,
        other: K,
    )
        requires
            bounded(idx),
            self.regular(),
            self.admits(idx, key, depth, limit),
        ensures
            self.insert(idx, key, value, depth).regular(),
            self.insert(idx, key, value, depth).get(idx, other, depth) == if other == key {
                Some(value)
            } else {
                self.get(idx, other, depth)
            },
        decreases self,
    {
        match self {
            Trie::Leaf { key: k, value: v } => {
                if k != key {
                    let d = choose|d: nat| depth <= d < limit && #[trigger] idx(key, d) != idx(k, d);
                    lemma_diverge_by_witness(idx, key, k, depth, d);
                    let links = common_levels(idx, key, k, depth);
                    assert(agree_until(idx, key, k, depth, links));
                    Self::lemma_chain_get(idx, key, value, k, v, depth, links, other);
                }
            },
            Trie::Branch { slots } => {
                let i = idx(key, depth) as int;
                let s = idx(other, depth) as int;
                assert(i < usize::BITS && s < usize::BITS);
                if !self.is_empty() {
                    match slots[i] {
                        Some(child) => {
                            child.lemma_insert_get(idx, key, value, depth + 1, limit, other);
                            let after = self.insert(idx, key, value, depth);
                            assert(after->slots[i] == Some(child.insert(idx, key, value, depth + 1)));
                            if s != i {
                                assert(after->slots[s] == slots[s]);
                            }
                            assert forall|n: int| 0 <= n < after->slots.len() implies match #[trigger] after->slots[n] {
                                Some(c) => c.regular(),
                                None => true,
                            } by {
                                if n != i {
                                    assert(after->slots[n] == slots[n]);
                                }
                            }
                        },
                        None => {
                            let after = self.insert(idx, key, value, depth);
                            let leaf = Trie::Leaf { key, value };
                            assert(leaf.regular());
                            assert(after->slots[i] == Some(leaf));
                            assert(leaf.get(idx, other, depth + 1) == if other == key {
                                Some(value)
                            } else {
                                None
                            });
                            assert forall|n: int| 0 <= n < after->slots.len() implies match #[trigger] after->slots[n] {
                                Some(c) => c.regular(),
                                None => true,
                            } by {
                                if n != i {
                                    assert(after->slots[n] == slots[n]);
                                }
                            }
                            if s != i {
                                assert(after->slots[s] == slots[s]);
                            }
                        },
                    }
                } else {
                    assert(slots[s] is None);
                    let leaf = Trie::Leaf { key, value };
                    assert(self.insert(idx, key, value, depth) == leaf);
                    assert(leaf.get(idx, other, depth) == if other == key {
                        Some(value)
                    } else {
                        None
                    });
                }
            },
        }
    }

    /// Two entries whose keys select the same slots at the first `links` levels,
    /// and different slots at the next, put into the empty tree one after the
    /// other, stand below a chain of exactly `links` branches with one child
    /// each, and a lookup finds each of them.
    pub proof fn lemma_collision_chain(
        idx: spec_fn(K, nat) -> nat,
        a: K,
        a_value: V,
        b: K,
        b_value: V,
        links: nat,
    )
        requires
            bounded(idx),
            agree_until(idx, b, a, 0, links),
        ensures
            Self::empty().insert(idx, a, a_value, 0).insert(idx, b, b_value, 0) == chain(
                idx,
                b,
                b_value,
                a,
                a_value,
                0,
                links,
            ),
            chain(idx, b, b_value, a, a_value, 0, links).get(idx, a, 0) == Some(a_value),
            chain(idx, b, b_value, a, a_value, 0, links).get(idx, b, 0) == Some(b_value),
    {
        assert(a != b) by {
            if a == b {
                assert(idx(b, 0 + links) == idx(a, 0 + links));
            }
        }
        assert(Self::empty().insert(idx, a, a_value, 0) == (Trie::Leaf { key: a, value: a_value }));
        lemma_agree_until_unique(idx, b, a, 0, links, common_levels(idx, b, a, 0));
        Self::lemma_chain_get(idx, b, b_value, a, a_value, 0, links, a);
        Self::lemma_chain_get(idx, b, b_value, a, a_value, 0, links, b);
    }
}

/// The value of the last entry of `entries` that has the key `key`.
pub open spec fn latest<K, V>(entries: Seq<(K, V)>, key: K) -> Option<V>
    decreases entries.len(),
{
    if entries.len() == 0 {
        None
    } else if entries.last().0 == key {
        Some(entries.last().1)
    } else {
        latest(entries.drop_last(), key)
    }
}

impl<K, V> Trie<K, V> {
    /// The tree after the entries of `entries` were put into it, one after the
    /// other, from the root.
    pub open spec fn insert_all(self, idx: spec_fn(K, nat) -> nat, entries: Seq<(K, V)>) -> Self
        decreases entries.len(),
    {
        if entries.len() == 0 {
            self
        } else {
            self.insert_all(idx, entries.drop_last()).insert(
                idx,
                entries.last().0,
                entries.last().1,
                0,
            )
        }
    }

    /// Whether each entry of `entries` can be put into the tree that the entries
    /// before it have made.
    pub open spec fn admits_all(
        self,
        idx: spec_fn(K, nat) -> nat,
        entries: Seq<(K, V)>,
        limit: nat,
    ) -> bool
        decreases entries.len(),
    {
        entries.len() == 0 || {
            &&& self.admits_all(idx, entries.drop_last(), limit)
            &&& self.insert_all(idx, entries.drop_last()).admits(idx, entries.last().0, 0, limit)
        }
    }

    /// After any number of entries were put into a tree, a lookup of a key finds
    /// the value of the last of them that has the key, and what it found before
    /// if none has it.
    pub proof fn lemma_round_trip(
        self,
        idx: spec_fn(K, nat) -> nat,
        entries: Seq<(K, V)>,
        limit: nat,
        key: K,
    )
        requires
            bounded(idx),
            self.regular(),
            self.admits_all(idx, entries, limit),
        ensures
            self.insert_all(idx, entries).regular(),
            self.insert_all(idx, entries).get(idx, key, 0) == match latest(entries, key) {
                Some(value) => Some(value),
                None => self.get(idx, key, 0),
            },
        decreases entries.len(),
    {
        if entries.len() > 0 {
            let before = entries.drop_last();
            self.lemma_round_trip(idx, before, limit, key);
            self.insert_all(idx, before).lemma_insert_get(
                idx,
                entries.last().0,
                entries.last().1,
                0,
                limit,
                key,
            );
        }
    }
}

} // verus!
