//! Laws relating several operations of the tree.
//!
//! The contracts of `insert` and `update_internal_nodes` describe one call
//! each, through the predicates `inserted_state` and `updated_state`.  The
//! proof functions here chain those predicates and state what holds across
//! calls: recomputing twice changes nothing, and inserted values read back
//! as exactly the hashes the injected hash function produced for them.

use vstd::prelude::*;

use crate::addressing::{is_strict_ancestor, lemma_ancestor_is_internal};
use crate::hash::HashFunction;
use crate::tree::MerkleTree;

verus! {

/// Recomputation is idempotent: if `b` is the result of recomputing `a`,
/// and `c` the result of recomputing `b` with no insertion in between, the
/// slot sequences of `b` and `c` are identical.
pub proof fn lemma_update_internal_nodes_idempotent<H: HashFunction>(
    a: MerkleTree<H>,
    b: MerkleTree<H>,
    c: MerkleTree<H>,
)
    requires
        a.wf(),
        MerkleTree::updated_state(a, b),
        MerkleTree::updated_state(b, c),
    ensures
        c.slots() == b.slots(),
{
    assert forall|j: int| 0 <= j < c.slots().len() implies c.slots()[j] == b.slots()[j] by {
        if 1 <= j < b.spec_first_leaf() {
            // the first recomputation set every internal node, and the
            // second leaves set internal nodes untouched
            assert(b.slots()[j] is Some);
            assert(c.slots()[j] == b.slots()[j]);
        }
    };
    assert(c.slots() =~= b.slots());
}

/// Inserting a value then reading it back: after a successful insertion
/// the new leaf's effective hash is exactly the hash of the inserted
/// value, and every leaf inserted earlier keeps its slot unchanged.  No
/// recomputation is needed to read leaves back.
pub proof fn lemma_insert_round_trip<H: HashFunction>(
    pre: MerkleTree<H>,
    post: MerkleTree<H>,
    value: Seq<char>,
)
    requires
        pre.wf(),
        pre.spec_length() < pre.capacity(),
        MerkleTree::inserted_state(pre, post, value),
    ensures
        post.spec_length() == pre.spec_length() + 1,
        post.effective((pre.spec_first_leaf() + pre.spec_length()) as int) == pre.hasher()
            .hash_spec(value),
        forall|idx: int|
            #![trigger post.slots()[idx]]
            pre.spec_first_leaf() <= idx < pre.spec_first_leaf() + pre.spec_length()
                ==> post.slots()[idx] == pre.slots()[idx],
{
    pre.lemma_wf_bounds();
    let h = pre.spec_height();
    let fl = pre.spec_first_leaf() as int;
    let leaf = fl + pre.spec_length();
    assert forall|idx: int|
        #![trigger post.slots()[idx]]
        fl <= idx < fl + pre.spec_length() implies post.slots()[idx] == pre.slots()[idx] by {
        if is_strict_ancestor(idx, leaf, h) {
            lemma_ancestor_is_internal(idx, leaf, h);
        }
    };
}

/// Inserting a run of values in order commits their hashes to
/// consecutive leaf slots.  `states` is the chain of trees the insertions
/// pass through: each step is one successful insertion of the matching
/// value.  At the end the counter has grown by the number of values, and
/// the leaf slot for each value holds exactly the hash the injected hash
/// function produced for it — reading a leaf back needs no recomputation.
pub proof fn lemma_insert_sequence_round_trip<H: HashFunction>(
    states: Seq<MerkleTree<H>>,
    values: Seq<Seq<char>>,
)
    requires
        states.len() == values.len() + 1,
        states[0].wf(),
        states[0].spec_length() + values.len() <= states[0].capacity(),
        forall|i: int|
            #![trigger values[i]]
            0 <= i < values.len() ==> MerkleTree::inserted_state(
                states[i],
                states[i + 1],
                values[i],
            ),
    ensures
        states.last().spec_height() == states[0].spec_height(),
        states.last().spec_first_leaf() == states[0].spec_first_leaf(),
        states.last().hasher() == states[0].hasher(),
        states.last().spec_length() == states[0].spec_length() + values.len(),
        states.last().slots().len() == states[0].slots().len(),
        forall|j: int|
            #![trigger values[j]]
            0 <= j < values.len() ==> states.last().slots()[states[0].spec_first_leaf()
                + states[0].spec_length() + j] == Some(states[0].hasher().hash_spec(values[j])),
    decreases values.len(),
{
    let start = states[0];
    start.lemma_wf_bounds();
    if values.len() > 0 {
        let h = start.spec_height();
        let fl = start.spec_first_leaf() as int;
        let prefix_states = states.drop_last();
        let prefix_values = values.drop_last();
        let mid = states[states.len() - 2];
        let end_state = states.last();

        assert forall|i: int|
            #![trigger prefix_values[i]]
            0 <= i < prefix_values.len() implies MerkleTree::inserted_state(
            prefix_states[i],
            prefix_states[i + 1],
            prefix_values[i],
        ) by {
            assert(prefix_values[i] == values[i]);
            assert(prefix_states[i] == states[i]);
            assert(prefix_states[i + 1] == states[i + 1]);
        };
        assert(prefix_states[0] == start);
        lemma_insert_sequence_round_trip(prefix_states, prefix_values);
        assert(prefix_states.last() == mid);

        // the last insertion lands on the leaf just after the prefix
        let last_value = values[values.len() - 1];
        assert(MerkleTree::inserted_state(mid, end_state, last_value));
        let leaf = fl + mid.spec_length();

        assert forall|j: int|
            #![trigger values[j]]
            0 <= j < values.len() implies end_state.slots()[fl + start.spec_length() + j] == Some(
            start.hasher().hash_spec(values[j]),
        ) by {
            if j < values.len() - 1 {
                assert(prefix_values[j] == values[j]);
                assert(mid.slots()[fl + start.spec_length() + j] == Some(
                    start.hasher().hash_spec(values[j]),
                ));
                if is_strict_ancestor(fl + start.spec_length() + j, leaf, h) {
                    lemma_ancestor_is_internal(fl + start.spec_length() + j, leaf, h);
                }
                assert(end_state.slots()[fl + start.spec_length() + j] == mid.slots()[fl
                    + start.spec_length() + j]);
            } else {
                assert(end_state.slots()[leaf] == Some(mid.hasher().hash_spec(last_value)));
            }
        };
    }
}

} // verus!
