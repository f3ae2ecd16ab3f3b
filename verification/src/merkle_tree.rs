//! The authoritative accumulator: root hash, leaf count and frontier vector,
//! updated in place by `insert` without ever storing the tree, plus the
//! stateless proof verifier.

use vstd::prelude::*;
use vstd::pervasive::VecAdditionalExecFns;
use crate::bits::{bit_at, count_bit_set_from_right};
use crate::bytes::{clone_bytes, clone_slots, clone_vecs, bytes_eq};
use crate::hashing::{hash_of, hash_value, hash_pair};
use crate::model::{AccView, acc_wf, empty_acc, spec_insert, chain_carry, next_root,
    frontier_write, slots_view, opt_view, lemma_next_frontier_matches, lemma_spec_insert_wf,
    verify_chain, proof_accepted};

verus! {

/// The accumulator state machine.  Mutated only by `insert`; the getters
/// mirror the stored values.  The emitted insertion events (one leaf hash
/// per insertion, in order) are kept so that a replica can rebuild the tree.
pub struct MerkleTree {
    root_hash: Option<Vec<u8>>,
    n_nodes: u128,
    edge_nodes: Vec<Option<Vec<u8>>>,
    events: Vec<Vec<u8>>,
}

impl View for MerkleTree {
    type V = AccView;

    closed spec fn view(&self) -> AccView {
        AccView {
            root_hash: opt_view(self.root_hash),
            n_nodes: self.n_nodes as nat,
            edge_nodes: slots_view(self.edge_nodes@),
            events: self.events.deep_view(),
        }
    }
}

impl MerkleTree {
    /// An accumulator with nothing inserted: no root, count zero, empty
    /// frontier.
    pub fn new() -> (t: MerkleTree)
        ensures
            t@ == empty_acc(),
            acc_wf(t@),
    {
        let t = MerkleTree {
            root_hash: None,
            n_nodes: 0,
            edge_nodes: Vec::new(),
            events: Vec::new(),
        };
        proof {
            assert(t@ =~~= empty_acc());
        }
        t
    }

    /// The current root hash, `None` before the first insertion.
    pub fn root_hash(&self) -> (r: Option<Vec<u8>>)
        ensures
            opt_view(r) == self@.root_hash,
    {
        match &self.root_hash {
            Some(h) => Some(clone_bytes(h)),
            None => None,
        }
    }

    /// The number of leaves inserted so far.
    pub fn n_nodes(&self) -> (r: u128)
        ensures
            r as nat == self@.n_nodes,
    {
        self.n_nodes
    }

    /// The frontier: the pending subtree hash per level, where present.
    pub fn edge_nodes(&self) -> (r: Vec<Option<Vec<u8>>>)
        ensures
            slots_view(r@) == self@.edge_nodes,
    {
        clone_slots(&self.edge_nodes)
    }

    /// The insertion events emitted so far: the leaf hash of every
    /// insertion, in insertion order.  A replica replays exactly this
    /// stream.
    pub fn events(&self) -> (r: Vec<Vec<u8>>)
        ensures
            r.deep_view() == self@.events,
    {
        clone_vecs(&self.events)
    }

    /// Inserts a value: hashes it, folds the hash through the frontier to
    /// obtain the new root, re-anchors the carry at the promotion level and
    /// clears the consumed slots, and emits the leaf hash as an event.
    /// Returns the new root.  The whole transition is a pure function of the
    /// prior state and the value.
    pub fn insert(&mut self, value: &Vec<u8>) -> (new_root: Vec<u8>)
        requires
            acc_wf(old(self)@),
            old(self)@.n_nodes < u128::MAX,
        ensures
            final(self)@ == spec_insert(old(self)@, hash_of(value@)),
            acc_wf(final(self)@),
            new_root@ == next_root(old(self)@.edge_nodes, hash_of(value@)),
            final(self)@.root_hash == Some(new_root@),
    {
        let ghost leaf = hash_of(value@);
        let ghost f0 = slots_view(self.edge_nodes@);
        proof {
            lemma_next_frontier_matches(f0, self.n_nodes as nat, leaf);
            lemma_spec_insert_wf(old(self)@, leaf);
        }
        let value_hash = hash_value(value);
        let mut pair_hash = clone_bytes(&value_hash);
        let mut new_edge = clone_bytes(&value_hash);
        let next_edge_addition_level = count_bit_set_from_right(self.n_nodes);

        let mut i: usize = 0;
        while i < self.edge_nodes.len()
            invariant
                i <= self.edge_nodes.len(),
                slots_view(self.edge_nodes@) == f0,
                pair_hash@ == chain_carry(f0, leaf, i as int),
                new_edge@ == if next_edge_addition_level <= i {
                    chain_carry(f0, leaf, next_edge_addition_level as int)
                } else {
                    leaf
                },
                self.edge_nodes == old(self).edge_nodes,
                self.n_nodes == old(self).n_nodes,
                self.root_hash == old(self).root_hash,
                self.events == old(self).events,
                value_hash@ == leaf,
            decreases self.edge_nodes.len() - i,
        {
            proof {
                assert(f0[i as int] == opt_view(self.edge_nodes@[i as int]));
            }
            let next = match &self.edge_nodes[i] {
                Some(h) => hash_pair(h, &pair_hash),
                None => hash_value(&pair_hash),
            };
            pair_hash = next;
            if i + 1 == next_edge_addition_level {
                new_edge = clone_bytes(&pair_hash);
            }
            i = i + 1;
        }

        self.root_hash = Some(clone_bytes(&pair_hash));
        self.events.push(clone_bytes(&value_hash));
        self.n_nodes = self.n_nodes + 1;
        self.update_edges(new_edge, next_edge_addition_level);
        proof {
            assert(self.events.deep_view() =~~= old(self)@.events.push(leaf));
            assert(self@ =~~= spec_insert(old(self)@, leaf));
        }
        pair_hash
    }

    /// Writes the new frontier anchor at the promotion level (appending when
    /// the frontier grows) and clears every slot below it.
    fn update_edges(&mut self, new_edge_value: Vec<u8>, addition_at_level: usize)
        requires
            addition_at_level <= old(self).edge_nodes.len(),
        ensures
            slots_view(final(self).edge_nodes@) == frontier_write(
                slots_view(old(self).edge_nodes@),
                new_edge_value@,
                addition_at_level as nat,
            ),
            final(self).root_hash == old(self).root_hash,
            final(self).n_nodes == old(self).n_nodes,
            final(self).events == old(self).events,
    {
        let ghost f0 = slots_view(old(self).edge_nodes@);
        if addition_at_level >= self.edge_nodes.len() {
            self.edge_nodes.push(Some(new_edge_value));
            proof {
                assert(slots_view(self.edge_nodes@) =~= f0.push(Some(new_edge_value@)));
            }
        } else {
            self.edge_nodes.set(addition_at_level, Some(new_edge_value));
            proof {
                assert(slots_view(self.edge_nodes@) =~= f0.update(
                    addition_at_level as int,
                    Some(new_edge_value@),
                ));
            }
        }
        let ghost base = slots_view(self.edge_nodes@);
        let mut i: usize = 0;
        while i < addition_at_level
            invariant
                i <= addition_at_level,
                addition_at_level <= self.edge_nodes.len(),
                self.edge_nodes@.len() == base.len(),
                forall|j: int|
                    0 <= j < i ==> opt_view(#[trigger] self.edge_nodes@[j]) is None,
                forall|j: int|
                    i <= j < base.len() ==> opt_view(#[trigger] self.edge_nodes@[j]) == base[j],
                self.root_hash == old(self).root_hash,
                self.n_nodes == old(self).n_nodes,
                self.events == old(self).events,
            decreases addition_at_level - i,
        {
            self.edge_nodes.set(i, None);
            i = i + 1;
        }
        proof {
            assert(slots_view(self.edge_nodes@) =~= frontier_write(
                f0,
                new_edge_value@,
                addition_at_level as nat,
            ));
        }
    }

    /// Recomputes the hash chain from a value, its proof and its leaf
    /// position, and accepts exactly when the chain ends at the claimed
    /// root.  A pure function of its arguments: later insertions into any
    /// accumulator cannot change its outcome.  A proof longer than the
    /// position's bit range is structurally malformed — no tree over u128
    /// positions has more than 128 levels — and is refused outright rather
    /// than folded silently.
    pub fn verify_proof(
        proof: &Vec<Option<Vec<u8>>>,
        value: &Vec<u8>,
        node_index: u128,
        root_hash: &Vec<u8>,
    ) -> (r: bool)
        requires
            proof@.len() <= 128,
        ensures
            r == proof_accepted(
                slots_view(proof@),
                hash_of(value@),
                node_index as nat,
                root_hash@,
            ),
    {
        let ghost pv = slots_view(proof@);
        let ghost leaf = hash_of(value@);
        let mut value_hash = hash_value(value);
        let mut position = node_index;
        let mut i: usize = 0;
        while i < proof.len()
            invariant
                i <= proof.len(),
                pv == slots_view(proof@),
                leaf == hash_of(value@),
                value_hash@ == verify_chain(pv, leaf, node_index as nat, i as int),
                forall|j: nat| bit_at(position as nat, j) == bit_at(node_index as nat, (j + i) as nat),
            decreases proof.len() - i,
        {
            proof {
                assert(pv[i as int] == opt_view(proof@[i as int]));
                assert(bit_at(position as nat, 0) == bit_at(node_index as nat, (0 + i as int) as nat));
            }
            let next = match &proof[i] {
                Some(h) => {
                    let is_right = position % 2 == 1;
                    if is_right {
                        hash_pair(h, &value_hash)
                    } else {
                        hash_pair(&value_hash, h)
                    }
                },
                None => hash_value(&value_hash),
            };
            value_hash = next;
            let ghost oldpos = position as nat;
            position = position / 2;
            proof {
                assert forall|j: nat| bit_at(position as nat, j) == bit_at(
                    node_index as nat,
                    (j + (i + 1)) as nat,
                ) by {
                    assert(bit_at(oldpos, (j + 1) as nat) == bit_at(
                        node_index as nat,
                        ((j + 1) + i) as nat,
                    ));
                    assert(bit_at(oldpos, (j + 1) as nat) == bit_at(oldpos / 2, j));
                    assert(position as nat == oldpos / 2);
                }
            }
            i = i + 1;
        }
        bytes_eq(&value_hash, root_hash)
    }
}

} // verus!
