//! The Merkle tree itself: storage layout, insertion and invalidation,
//! lazy recomputation, and the root, leaf and opening queries.
//!
//! Nodes live in one flat vector under 1-based breadth-first addressing:
//! slot 0 is unused and always `None`, slot 1 is the root, and the node at
//! index `i` has its children at `2i` and `2i + 1`.  For a tree of height
//! `h` the first leaf sits at index `2^h` and the vector has `2^(h + 1)`
//! slots.  A slot is `None` when it is unset (a leaf never inserted, or an
//! internal node whose subtree changed since it was last computed) and
//! `Some(hash)` once a hash is committed to it.

use vstd::prelude::*;
use vstd::arithmetic::power2::{
    lemma2_to64, lemma_pow2_adds, lemma_pow2_pos, lemma_pow2_strictly_increases, pow2,
};
use vstd::string::StringExecFns;

use crate::addressing::{
    is_strict_ancestor, lemma_ancestor_depth, lemma_ancestor_is_internal, lemma_ancestor_unfold,
    lemma_halving_step, lemma_parent_is_ancestor, partner_index,
};
use crate::hash::HashFunction;
use vstd::arithmetic::div_mod::{lemma_div_multiples_vanish, lemma_fundamental_div_mod_converse};

verus! {

/// The ways a tree operation can fail.  Every variant reports a misuse by
/// the caller, never an internal fault.
#[derive(Clone, Copy, Debug, PartialEq, Eq, Structural)]
pub enum MerkleTreeError {
    /// Construction was asked for a height outside `[1, 10]`.
    InvalidHeight,
    /// An insertion was attempted with no leaf capacity left.
    TreeFull,
    /// A query addressed a slot at or beyond the slot vector.
    OutOfBounds,
    /// A query read an internal node that is unset, i.e. recomputation has
    /// not run since the last invalidating insertion.
    UncomputedInternalNode,
}

/// A Merkle proof fragment for one leaf: the effective hash of the leaf's
/// sibling and the effective hash of the leaf's ancestor that is a direct
/// child of the root.
///
/// This single-level opening fully authenticates a leaf against the root
/// only for trees of height at most 2; for taller trees it is a known
/// limitation of the opening primitive, kept as designed.
pub struct Opening {
    /// The effective hash of the leaf's sibling.
    pub partner_hash: crate::hash::Hash,
    /// The effective hash of the leaf's ancestor just below the root.
    pub root_child_hash: crate::hash::Hash,
}

/// A fixed-height Merkle tree over an injected hash function `H`.
pub struct MerkleTree<H: HashFunction> {
    /// The injected hashing capability.
    hash_function: H,
    /// The fixed height, between 1 and 10.
    height: usize,
    /// How many values have been inserted; also the offset of the next free
    /// leaf slot from `first_leaf_node_index`.
    length: usize,
    /// The index of the first leaf slot, `2^height`.
    first_leaf_node_index: usize,
    /// The node slots, in breadth-first order; `nodes[0]` is never used.
    nodes: Vec<Option<crate::hash::Hash>>,
}

impl<H: HashFunction> MerkleTree<H> {
    /// The slot vector as a mathematical sequence of optional hash strings.
    pub closed spec fn slots(&self) -> Seq<Option<Seq<char>>> {
        self.nodes.deep_view()
    }

    /// The slot vector as held, before taking views of the hash strings.
    spec fn slots_repr(&self) -> Seq<Option<crate::hash::Hash>> {
        self.nodes@
    }

    /// The tree's fixed height.
    pub closed spec fn spec_height(&self) -> nat {
        self.height as nat
    }

    /// The number of values inserted so far.
    pub closed spec fn spec_length(&self) -> nat {
        self.length as nat
    }

    /// The index of the first leaf slot.
    pub closed spec fn spec_first_leaf(&self) -> nat {
        self.first_leaf_node_index as nat
    }

    /// The injected hasher.
    pub closed spec fn hasher(&self) -> H {
        self.hash_function
    }

    /// How many leaves the tree can hold: `2^height`.
    pub open spec fn capacity(&self) -> nat {
        pow2(self.spec_height())
    }

    /// The hash standing in for a leaf that was never inserted.
    pub open spec fn empty_leaf_hash(&self) -> Seq<char> {
        self.hasher().hash_spec("empty node"@)
    }

    /// The effective hash of the node at `i`: its committed hash if the slot
    /// is set, else the canonical empty-leaf hash.  Meaningful for leaf
    /// slots and for set internal slots; an unset internal slot has no
    /// effective hash and reading one is an error.
    pub open spec fn effective(&self, i: int) -> Seq<char>
        recommends
            0 <= i < self.slots().len(),
    {
        match self.slots()[i] {
            Some(h) => h,
            None => self.empty_leaf_hash(),
        }
    }

    /// The hash an internal node at `i` must commit to: the hash of its
    /// children's effective hashes joined by the fixed separator.
    pub open spec fn combined_hash(&self, i: int) -> Seq<char> {
        self.hasher().hash_spec(self.effective(2 * i) + " | "@ + self.effective(2 * i + 1))
    }

    /// The internal node at `i` is set, and set consistently with its
    /// children's current effective hashes.
    pub open spec fn node_computed(&self, i: int) -> bool {
        self.slots()[i] == Some(self.combined_hash(i))
    }

    /// The internal node at `i` is set and consistent, and none of its
    /// children is an unset internal node.
    pub open spec fn subtree_consistent(&self, i: int) -> bool {
        &&& self.node_computed(i)
        &&& 2 * i < self.spec_first_leaf() ==> self.slots()[2 * i] is Some
        &&& 2 * i + 1 < self.spec_first_leaf() ==> self.slots()[2 * i + 1] is Some
    }

    /// The tree's structural invariant.  Every tree reachable through this
    /// interface satisfies it: the sizes follow from the height, leaves are
    /// filled left to right, slot 0 is never set, and every set internal
    /// node agrees with its children (an insertion unsets every ancestor of
    /// the new leaf, so a node it did not unset still agrees).
    pub open spec fn wf(&self) -> bool {
        &&& 1 <= self.spec_height() <= 10
        &&& self.spec_first_leaf() == pow2(self.spec_height())
        &&& self.slots().len() == pow2(self.spec_height() + 1)
        &&& self.spec_length() <= self.capacity()
        &&& self.slots()[0] is None
        &&& forall|j: int|
            self.spec_first_leaf() + self.spec_length() <= j < self.slots().len()
                ==> #[trigger] self.slots()[j] is None
        &&& forall|i: int|
            1 <= i < self.spec_first_leaf() && #[trigger] self.slots()[i] is Some
                ==> self.subtree_consistent(i)
    }

    /// Computes `1 + 2 + ... + 2^n`, which is `2^(n + 1) - 1`.
    fn sum_of_powers_of_two(n: usize) -> (r: usize)
        requires
            n <= 10,
        ensures
            r == pow2(n as nat + 1) - 1,
    {
        let mut p: usize = 1;
        let mut i: usize = 0;
        proof {
            lemma2_to64();
        }
        while i < n + 1
            invariant
                n <= 10,
                i <= n + 1,
                p == pow2(i as nat),
            decreases n + 1 - i,
        {
            proof {
                lemma2_to64();
                lemma_pow2_adds(i as nat, 1);
                lemma_pow2_strictly_increases(i as nat, 11);
            }
            p = p * 2;
            i = i + 1;
        }
        proof {
            lemma_pow2_pos((n + 1) as nat);
        }
        p - 1
    }

    /// Create an empty tree of the given height with the given hasher.
    ///
    /// Heights outside `[1, 10]` are rejected with `InvalidHeight`; the
    /// upper bound guards this array-backed layout against pathological
    /// memory use.  A fresh tree holds no value and every slot is unset.
    pub fn from_height(hash_function: H, height: usize) -> (r: Result<Self, MerkleTreeError>)
        ensures
            match r {
                Ok(t) => {
                    &&& 1 <= height <= 10
                    &&& t.wf()
                    &&& t.spec_height() == height
                    &&& t.spec_length() == 0
                    &&& t.spec_first_leaf() == pow2(height as nat)
                    &&& t.slots().len() == pow2(height as nat + 1)
                    &&& forall|j: int|
                        0 <= j < t.slots().len() ==> #[trigger] t.slots()[j] is None
                    &&& t.hasher() == hash_function
                },
                Err(e) => {
                    &&& e == MerkleTreeError::InvalidHeight
                    &&& (height == 0 || height > 10)
                },
            },
    {
        if height == 0 || height > 10 {
            return Err(MerkleTreeError::InvalidHeight);
        }

        proof {
            lemma2_to64();
            lemma_pow2_adds((height - 1) as nat, 1);
            lemma_pow2_strictly_increases(height as nat, 11);
            lemma_pow2_strictly_increases(height as nat + 1, 12);
            lemma_pow2_pos(height as nat);
        }

        // internal nodes occupy indices 1 ..= 2^height - 1, so the first
        // leaf sits at (1 + 2 + ... + 2^(height - 1)) + 1 == 2^height
        let first_leaf_node_index = Self::sum_of_powers_of_two(height - 1) + 1;
        // one unused slot at index 0 plus 1 + 2 + ... + 2^height usable ones
        let num_slots = Self::sum_of_powers_of_two(height) + 1;

        let mut nodes: Vec<Option<crate::hash::Hash>> = Vec::new();
        let mut i: usize = 0;
        while i < num_slots
            invariant
                i <= num_slots,
                nodes@.len() == i,
                forall|j: int| 0 <= j < i ==> nodes@[j] is None,
            decreases num_slots - i,
        {
            nodes.push(None);
            i = i + 1;
        }

        Ok(MerkleTree { hash_function, height, length: 0, first_leaf_node_index, nodes })
    }

    /// Concrete consequences of the invariant that the executable code
    /// needs again and again: the array sizes are small and the leaf region
    /// is the upper half of the slot vector.
    pub(crate) proof fn lemma_wf_bounds(&self)
        requires
            self.wf(),
        ensures
            2 <= self.spec_first_leaf() <= 1024,
            self.slots().len() == 2 * self.spec_first_leaf(),
            4 <= self.slots().len() <= 2048,
            self.capacity() == self.spec_first_leaf(),
    {
        lemma2_to64();
        lemma_pow2_adds(self.spec_height(), 1);
        if self.spec_height() > 1 {
            lemma_pow2_strictly_increases(1, self.spec_height());
        }
        if self.spec_height() < 10 {
            lemma_pow2_strictly_increases(self.spec_height(), 10);
        }
    }

    /// How `insert` changes the tree when it succeeds: the next free leaf
    /// slot receives the hash of the value, every strict ancestor of that
    /// leaf — the root included — is set back to `None`, every other slot
    /// keeps its value, and the counter grows by one.
    pub open spec fn inserted_state(pre: Self, post: Self, value: Seq<char>) -> bool {
        let leaf = pre.spec_first_leaf() + pre.spec_length();
        &&& post.spec_height() == pre.spec_height()
        &&& post.spec_first_leaf() == pre.spec_first_leaf()
        &&& post.hasher() == pre.hasher()
        &&& post.spec_length() == pre.spec_length() + 1
        &&& post.slots().len() == pre.slots().len()
        &&& post.slots()[leaf as int] == Some(pre.hasher().hash_spec(value))
        &&& forall|j: int|
            #![trigger post.slots()[j]]
            0 <= j < post.slots().len() && is_strict_ancestor(j, leaf as int, pre.spec_height())
                ==> post.slots()[j] is None
        &&& forall|j: int|
            #![trigger post.slots()[j]]
            0 <= j < post.slots().len() && j != leaf && !is_strict_ancestor(
                j,
                leaf as int,
                pre.spec_height(),
            ) ==> post.slots()[j] == pre.slots()[j]
        &&& post.slots()[1] is None
    }

    /// Append a value: commit its hash to the next free leaf slot and
    /// invalidate every strict ancestor of that leaf up to and including
    /// the root, so that the next recomputation rebuilds exactly the
    /// subtrees that changed.
    ///
    /// A full tree rejects the insertion with `TreeFull` and is left
    /// untouched.
    pub fn insert(&mut self, value: String) -> (r: Result<(), MerkleTreeError>)
        requires
            old(self).wf(),
        ensures
            final(self).wf(),
            match r {
                Ok(()) => {
                    &&& old(self).spec_length() < old(self).capacity()
                    &&& Self::inserted_state(*old(self), *final(self), value@)
                },
                Err(e) => {
                    &&& e == MerkleTreeError::TreeFull
                    &&& old(self).spec_length() == old(self).capacity()
                    &&& *final(self) == *old(self)
                },
            },
    {
        proof {
            self.lemma_wf_bounds();
        }
        let next_leaf_node_index = self.first_leaf_node_index + self.length;

        if next_leaf_node_index >= self.nodes.len() {
            return Err(MerkleTreeError::TreeFull);
        }

        let ghost pre = *self;
        let ghost h = pre.spec_height();
        let ghost leaf = next_leaf_node_index as int;

        let hash = self.hash_function.hash(value.as_str());
        let ghost inserted: Option<crate::hash::Hash> = Some(hash);
        self.nodes[next_leaf_node_index] = Some(hash);
        self.length = self.length + 1;
        let ghost base = self.nodes@;

        proof {
            lemma2_to64();
            vstd::arithmetic::div_mod::lemma_div_basics(leaf);
        }

        // walk to the root: `height` integer halvings of the leaf index,
        // unsetting each ancestor on the way
        let mut i: usize = next_leaf_node_index;
        let mut step: usize = 0;
        while step < self.height
            invariant
                pre.wf(),
                self.hash_function == pre.hash_function,
                self.height == pre.height,
                self.first_leaf_node_index == pre.first_leaf_node_index,
                self.length == pre.length + 1,
                self.nodes@.len() == base.len(),
                base.len() == pre.nodes@.len(),
                step <= h,
                h == pre.spec_height(),
                leaf == pre.spec_first_leaf() + pre.spec_length(),
                pre.spec_length() < pre.capacity(),
                pow2(h) <= leaf < pow2(h + 1),
                leaf < base.len(),
                base == pre.nodes@.update(leaf, inserted),
                inserted is Some,
                inserted.deep_view() == Some(pre.hasher().hash_spec(value@)),
                i == leaf / (pow2(step as nat) as int),
                i <= leaf,
                forall|j: int|
                    #![trigger self.nodes@[j]]
                    0 <= j < base.len() ==> self.nodes@[j] == (if is_strict_ancestor(
                        j,
                        leaf,
                        step as nat,
                    ) {
                        None
                    } else {
                        base[j]
                    }),
            decreases self.height - step,
        {
            proof {
                lemma_halving_step(leaf, step as nat);
                lemma_ancestor_depth(leaf, h, step as nat + 1);
            }
            i = i / 2;
            self.nodes[i] = None;
            proof {
                assert(1 <= step as nat + 1 <= step as nat + 1 && i as int == leaf / (pow2(
                    step as nat + 1,
                ) as int));
                assert(is_strict_ancestor(i as int, leaf, step as nat + 1));
                assert forall|j: int|
                    #![trigger self.nodes@[j]]
                    0 <= j < base.len() implies self.nodes@[j] == (if is_strict_ancestor(
                    j,
                    leaf,
                    step as nat + 1,
                ) {
                    None
                } else {
                    base[j]
                }) by {
                    lemma_ancestor_unfold(j, leaf, step as nat);
                };
            }
            step = step + 1;
        }

        proof {
            Self::lemma_insert_final(pre, *self, base, inserted, value@);
        }
        Ok(())
    }

    /// The closing argument of `insert`: from the pointwise description of
    /// the slot vector after the invalidation walk, both `inserted_state`
    /// and the invariant of the new tree follow.
    proof fn lemma_insert_final(
        pre: Self,
        post: Self,
        base: Seq<Option<crate::hash::Hash>>,
        inserted: Option<crate::hash::Hash>,
        value: Seq<char>,
    )
        requires
            pre.wf(),
            pre.spec_length() < pre.capacity(),
            post.hasher() == pre.hasher(),
            post.spec_height() == pre.spec_height(),
            post.spec_first_leaf() == pre.spec_first_leaf(),
            post.spec_length() == pre.spec_length() + 1,
            base.len() == pre.slots_repr().len(),
            base == pre.slots_repr().update(
                (pre.spec_first_leaf() + pre.spec_length()) as int,
                inserted,
            ),
            post.slots_repr().len() == base.len(),
            inserted is Some,
            inserted.deep_view() == Some(pre.hasher().hash_spec(value)),
            forall|j: int|
                #![trigger post.slots_repr()[j]]
                0 <= j < base.len() ==> post.slots_repr()[j] == (if is_strict_ancestor(
                    j,
                    (pre.spec_first_leaf() + pre.spec_length()) as int,
                    pre.spec_height(),
                ) {
                    None
                } else {
                    base[j]
                }),
        ensures
            post.wf(),
            Self::inserted_state(pre, post, value),
    {
        let h = pre.spec_height();
        let fl = pre.spec_first_leaf() as int;
        let leaf = fl + pre.spec_length();
        pre.lemma_wf_bounds();

        // the leaf and the slots around it are not strict ancestors
        assert forall|j: int| 0 <= j < base.len() && is_strict_ancestor(j, leaf, h) implies 1 <= j
            < fl by {
            lemma_ancestor_is_internal(j, leaf, h);
        };

        // the root is cleared: the last halving lands exactly on index 1
        lemma_ancestor_depth(leaf, h, h);
        assert(1 <= h <= h && 1int == leaf / (pow2(h) as int));
        assert(is_strict_ancestor(1int, leaf, h));

        assert(post.slots()[leaf] == Some(pre.hasher().hash_spec(value)));
        assert(Self::inserted_state(pre, post, value));

        // well-formedness: only the consistency of untouched internal
        // nodes needs an argument
        assert forall|idx: int|
            1 <= idx < post.spec_first_leaf() && #[trigger] post.slots()[idx] is Some implies post
            .subtree_consistent(idx) by {
            assert(post.slots()[idx] == pre.slots()[idx]);
            assert(pre.subtree_consistent(idx));
            let c1 = 2 * idx;
            let c2 = 2 * idx + 1;
            lemma_div_multiples_vanish(idx, 2);
            lemma_fundamental_div_mod_converse(2 * idx + 1, 2, idx, 1);
            assert(c1 / 2 == idx && c2 / 2 == idx);
            if c1 == leaf || is_strict_ancestor(c1, leaf, h) {
                lemma_parent_is_ancestor(c1, leaf, h);
                assert(false);
            }
            if c2 == leaf || is_strict_ancestor(c2, leaf, h) {
                lemma_parent_is_ancestor(c2, leaf, h);
                assert(false);
            }
            assert(post.slots()[c1] == pre.slots()[c1]);
            assert(post.slots()[c2] == pre.slots()[c2]);
            assert(post.combined_hash(idx) == pre.combined_hash(idx));
        };
        assert(post.wf());
    }

    /// How `update_internal_nodes` changes the tree: leaves and slot 0
    /// keep their values, an internal node that was already set keeps its
    /// hash, and afterwards every internal node is set and agrees with its
    /// children's effective hashes.
    pub open spec fn updated_state(pre: Self, post: Self) -> bool {
        &&& post.spec_height() == pre.spec_height()
        &&& post.spec_first_leaf() == pre.spec_first_leaf()
        &&& post.spec_length() == pre.spec_length()
        &&& post.hasher() == pre.hasher()
        &&& post.slots().len() == pre.slots().len()
        &&& post.slots()[0] == pre.slots()[0]
        &&& forall|j: int|
            #![trigger post.slots()[j]]
            pre.spec_first_leaf() <= j < post.slots().len() ==> post.slots()[j] == pre.slots()[j]
        &&& forall|i: int|
            #![trigger post.slots()[i]]
            1 <= i < pre.spec_first_leaf() && pre.slots()[i] is Some ==> post.slots()[i]
                == pre.slots()[i]
        &&& forall|i: int|
            #![trigger post.slots()[i]]
            1 <= i < pre.spec_first_leaf() ==> post.slots()[i] is Some && post.node_computed(i)
    }

    /// Recompute the unset internal nodes, from the deepest internal index
    /// down to the root.
    ///
    /// Each unset internal node receives the hash of its children's
    /// effective hashes joined by the fixed `" | "` separator; internal
    /// nodes that are still set are left untouched, so only the subtrees
    /// invalidated since the last recomputation are re-hashed.  After the
    /// call every internal node, the root included, is set and consistent.
    pub fn update_internal_nodes(&mut self)
        requires
            old(self).wf(),
        ensures
            final(self).wf(),
            Self::updated_state(*old(self), *final(self)),
    {
        proof {
            self.lemma_wf_bounds();
        }
        let ghost pre = *self;
        let mut i: usize = self.first_leaf_node_index - 1;
        while i >= 1
            invariant
                pre.wf(),
                self.wf(),
                i < pre.spec_first_leaf(),
                self.hash_function == pre.hash_function,
                self.height == pre.height,
                self.length == pre.length,
                self.first_leaf_node_index == pre.first_leaf_node_index,
                self.slots().len() == pre.slots().len(),
                self.slots()[0] == pre.slots()[0],
                forall|j: int|
                    #![trigger self.slots()[j]]
                    pre.spec_first_leaf() <= j < pre.slots().len() ==> self.slots()[j]
                        == pre.slots()[j],
                forall|j: int|
                    #![trigger self.slots()[j]]
                    1 <= j < pre.spec_first_leaf() && pre.slots()[j] is Some ==> self.slots()[j]
                        == pre.slots()[j],
                forall|j: int|
                    #![trigger self.slots()[j]]
                    i < j < pre.spec_first_leaf() ==> self.slots()[j] is Some
                        && self.node_computed(j),
                forall|j: int|
                    #![trigger self.slots()[j]]
                    1 <= j <= i ==> self.slots()[j] == pre.slots()[j],
            decreases i,
        {
            proof {
                self.lemma_wf_bounds();
            }
            let ghost mid = *self;
            if self.nodes[i].is_none() {
                let left_child_index = 2 * i;

                let left = match self.get_node_hash(left_child_index) {
                    Ok(node_hash) => node_hash,
                    Err(_) => unreached(),
                };
                let right = match self.get_node_hash(left_child_index + 1) {
                    Ok(node_hash) => node_hash,
                    Err(_) => unreached(),
                };

                // the hash of a node is the hash of its children's hashes
                // joined by the fixed separator
                let mut combined = left;
                combined.append(" | ");
                combined.append(right.as_str());
                let new_hash = self.hash_function.hash(combined.as_str());

                self.nodes[i] = Some(new_hash);

                proof {
                    assert(self.slots().len() == mid.slots().len());
                    assert forall|j: int|
                        #![trigger self.slots()[j]]
                        0 <= j < mid.slots().len() && j != i implies self.slots()[j]
                        == mid.slots()[j] by {
                        assert(self.nodes@[j] == mid.nodes@[j]);
                    };
                    assert(mid.slots()[i as int] is None);
                    assert(self.slots()[i as int] == Some(
                        mid.hasher().hash_spec(
                            mid.effective(2 * i) + " | "@ + mid.effective(2 * i + 1),
                        ),
                    ));
                    assert(self.effective(2 * i) == mid.effective(2 * i));
                    assert(self.effective(2 * i + 1) == mid.effective(2 * i + 1));
                    assert(self.node_computed(i as int));
                    assert forall|j: int|
                        1 <= j < pre.spec_first_leaf() && #[trigger] self.slots()[j]
                            is Some implies self.subtree_consistent(j) by {
                        if j != i {
                            assert(mid.subtree_consistent(j));
                            // `i` cannot be a child of a node that was
                            // already set: its slot was still unset
                            assert(2 * j != i && 2 * j + 1 != i);
                        }
                    };
                    assert(self.wf());
                }
            }
            i = i - 1;
        }
    }

    /// Read the hash of the node at a raw slot index.
    ///
    /// An index at or beyond the slot vector is rejected with
    /// `OutOfBounds`.  An unset leaf reads as the canonical empty-leaf
    /// hash; an unset internal node is rejected with
    /// `UncomputedInternalNode`, since its hash is only defined after
    /// recomputation.
    pub fn get_node_hash(&self, index: usize) -> (r: Result<crate::hash::Hash, MerkleTreeError>)
        requires
            self.wf(),
        ensures
            r is Ok <==> index < self.slots().len() && (self.slots()[index as int] is Some
                || index >= self.spec_first_leaf()),
            match r {
                Ok(h) => h@ == self.effective(index as int),
                Err(e) => {
                    &&& (e == MerkleTreeError::OutOfBounds <==> index >= self.slots().len())
                    &&& (e == MerkleTreeError::UncomputedInternalNode <==> index
                        < self.spec_first_leaf() && self.slots()[index as int] is None)
                },
            },
    {
        proof {
            self.lemma_wf_bounds();
        }
        if index >= self.nodes.len() {
            return Err(MerkleTreeError::OutOfBounds);
        }

        match &self.nodes[index] {
            Some(node_hash) => Ok(node_hash.clone()),
            None => {
                if index >= self.first_leaf_node_index {
                    // a leaf that was never inserted reads as the hash of
                    // the fixed empty-leaf marker
                    Ok(self.hash_function.hash("empty node"))
                } else {
                    Err(MerkleTreeError::UncomputedInternalNode)
                }
            },
        }
    }

    /// Read the root hash, the effective hash at slot 1.
    ///
    /// Fails with `UncomputedInternalNode` while the root slot is unset:
    /// before the first recomputation, or after an insertion invalidated
    /// it.
    pub fn get_root(&self) -> (r: Result<crate::hash::Hash, MerkleTreeError>)
        requires
            self.wf(),
        ensures
            r is Ok <==> self.slots()[1] is Some,
            match r {
                Ok(h) => h@ == self.effective(1),
                Err(e) => e == MerkleTreeError::UncomputedInternalNode,
            },
    {
        proof {
            self.lemma_wf_bounds();
        }
        self.get_node_hash(1)
    }

    /// Read the committed hash of the `value_index`-th leaf slot
    /// (0-based among leaf positions, not a raw slot index).
    ///
    /// A position at or beyond the leaf region is rejected with
    /// `OutOfBounds`.  An in-range position that was never inserted reads
    /// as the canonical empty-leaf hash rather than failing.
    pub fn get_value(&self, value_index: usize) -> (r: Result<crate::hash::Hash, MerkleTreeError>)
        requires
            self.wf(),
        ensures
            r is Ok <==> value_index < self.capacity(),
            match r {
                Ok(h) => h@ == self.effective(self.spec_first_leaf() + value_index),
                Err(e) => e == MerkleTreeError::OutOfBounds,
            },
    {
        proof {
            self.lemma_wf_bounds();
        }
        if value_index >= self.nodes.len() - self.first_leaf_node_index {
            return Err(MerkleTreeError::OutOfBounds);
        }
        self.get_node_hash(self.first_leaf_node_index + value_index)
    }

    /// The tree's fixed height.
    pub fn height(&self) -> (r: usize)
        ensures
            r == self.spec_height(),
    {
        self.height
    }

    /// How many values have been inserted so far.
    pub fn length(&self) -> (r: usize)
        ensures
            r == self.spec_length(),
    {
        self.length
    }

    /// The slot index of the first leaf.
    pub fn first_leaf_node_index(&self) -> (r: usize)
        ensures
            r == self.spec_first_leaf(),
    {
        self.first_leaf_node_index
    }

    /// A copy of the slot vector, for inspection.
    pub fn nodes(&self) -> (r: Vec<Option<crate::hash::Hash>>)
        ensures
            r.deep_view() == self.slots(),
    {
        let mut r: Vec<Option<crate::hash::Hash>> = Vec::new();
        let mut i: usize = 0;
        while i < self.nodes.len()
            invariant
                i <= self.nodes@.len(),
                r@.len() == i,
                forall|j: int|
                    #![trigger r.deep_view()[j]]
                    0 <= j < i ==> r.deep_view()[j] == self.slots()[j],
            decreases self.nodes@.len() - i,
        {
            let entry = match &self.nodes[i] {
                Some(node_hash) => Some(node_hash.clone()),
                None => None,
            };
            let ghost rv0 = r;
            let ghost entry0 = entry;
            r.push(entry);
            proof {
                assert forall|j: int|
                    #![trigger r.deep_view()[j]]
                    0 <= j < i + 1 implies r.deep_view()[j] == self.slots()[j] by {
                    assert(r.deep_view()[j] == r@[j].deep_view());
                    if j < i {
                        assert(rv0.deep_view()[j] == rv0@[j].deep_view());
                        assert(rv0.deep_view()[j] == self.slots()[j]);
                        assert(r@[j] == rv0@[j]);
                    } else {
                        assert(r@[j] == entry0);
                        assert(self.slots()[j] == self.nodes@[j].deep_view());
                        assert(entry0 == self.nodes@[i as int]);
                    }
                };
            }
            i = i + 1;
        }
        proof {
            assert(r.deep_view() =~= self.slots());
        }
        r
    }

    /// The slot index of the ancestor of `leaf` that is a direct child of
    /// the root: `height - 1` halvings of the leaf index.  For a tree of
    /// height 1 that is the leaf itself.
    pub open spec fn root_child_index(&self, leaf: int) -> int {
        leaf / (pow2((self.spec_height() - 1) as nat) as int)
    }

    /// Produce the Merkle proof fragment for the leaf at `leaf_position`
    /// (0-based among leaf positions): the effective hashes of the leaf's
    /// sibling and of its ancestor directly below the root.
    ///
    /// A position at or beyond the leaf region is rejected with
    /// `OutOfBounds`.  If the ancestor below the root is an internal node
    /// that is unset — recomputation has not run since the last insertion
    /// under it — the query fails with `UncomputedInternalNode`.
    pub fn get_opening(&self, leaf_position: usize) -> (r: Result<Opening, MerkleTreeError>)
        requires
            self.wf(),
        ensures
            match r {
                Ok(o) => {
                    let leaf = self.spec_first_leaf() + leaf_position;
                    &&& leaf_position < self.capacity()
                    &&& o.partner_hash@ == self.effective(partner_index(leaf as int))
                    &&& o.root_child_hash@ == self.effective(self.root_child_index(leaf as int))
                },
                Err(e) => {
                    let leaf = self.spec_first_leaf() + leaf_position;
                    &&& (e == MerkleTreeError::OutOfBounds || e
                        == MerkleTreeError::UncomputedInternalNode)
                    &&& (e == MerkleTreeError::OutOfBounds <==> leaf_position >= self.capacity())
                    &&& (e == MerkleTreeError::UncomputedInternalNode <==> leaf_position
                        < self.capacity() && self.root_child_index(leaf as int)
                        < self.spec_first_leaf() && self.slots()[self.root_child_index(
                        leaf as int,
                    )] is None)
                },
            },
    {
        proof {
            self.lemma_wf_bounds();
            lemma_pow2_adds((self.spec_height() - 1) as nat, 1);
            lemma2_to64();
        }
        if leaf_position >= self.nodes.len() - self.first_leaf_node_index {
            return Err(MerkleTreeError::OutOfBounds);
        }
        let idx = self.first_leaf_node_index + leaf_position;

        // the sibling is a leaf as well, so reading it cannot fail
        let partner_idx = if idx % 2 == 0 {
            idx + 1
        } else {
            idx - 1
        };
        let partner_hash = match self.get_node_hash(partner_idx) {
            Ok(node_hash) => node_hash,
            Err(_) => unreached(),
        };

        // walk up to the child of the root: height - 1 halvings
        let mut root_child_idx = idx;
        let mut step: usize = 0;
        proof {
            vstd::arithmetic::div_mod::lemma_div_basics(idx as int);
        }
        while step < self.height - 1
            invariant
                self.wf(),
                step <= self.spec_height() - 1,
                pow2(self.spec_height()) <= idx < pow2(self.spec_height() + 1),
                root_child_idx == idx as int / (pow2(step as nat) as int),
                root_child_idx <= idx,
            decreases self.height - 1 - step,
        {
            proof {
                lemma_halving_step(idx as int, step as nat);
                lemma_ancestor_depth(idx as int, self.spec_height(), step as nat + 1);
            }
            root_child_idx = root_child_idx / 2;
            step = step + 1;
        }

        proof {
            if self.spec_height() > 1 {
                lemma_ancestor_depth(idx as int, self.spec_height(), (self.spec_height() - 1) as nat);
                if self.spec_height() < 10 {
                    lemma_pow2_strictly_increases(2, self.spec_height() + 1);
                }
            }
        }
        let root_child_hash = match self.get_node_hash(root_child_idx) {
            Ok(node_hash) => node_hash,
            Err(e) => {
                return Err(e);
            },
        };

        Ok(Opening { partner_hash, root_child_hash })
    }
}

} // verus!
