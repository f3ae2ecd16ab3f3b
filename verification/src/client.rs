//! The off-line replica: it replays the accumulator's event stream, records
//! every node's parent and optional sibling in a mutable graph, snapshots
//! the graph at each root, and produces inclusion proofs against any
//! historical root from the matching snapshot.

use vstd::prelude::*;
use vstd::pervasive::VecAdditionalExecFns;
use crate::bits::count_bit_set_from_right;
use crate::bytemap::{ByteKeyMap, ViewClone, as_map, distinct_keys, lemma_as_map_index,
    lemma_as_map_absent, lemma_as_map_update};
use crate::bytes::{bytes_eq, clone_bytes};
use crate::hashing::{hash_of, hash_value, hash_pair};
use crate::model::{ClientView, NodeView, TreeView, TreeError, empty_client, spec_replay,
    spec_replay_all, chain_carry, frontier_write, slots_view, opt_view, frontier_matches,
    lemma_next_frontier_matches, tree_after, walk, proof_outcome};

verus! {

/// A node of the replica graph, keyed by its own hash: the hash it helped
/// produce, and the partner it was paired with (`None` when it was promoted
/// a level by self-hashing).  Entries are mutable: a hash re-read out of the
/// frontier by a later insertion is rewritten with its new parent.
pub struct Node {
    pub parent: Vec<u8>,
    pub sibling: Option<Vec<u8>>,
}

impl View for Node {
    type V = NodeView;

    open spec fn view(&self) -> NodeView {
        NodeView { parent: self.parent@, sibling: opt_view(self.sibling) }
    }
}

impl ViewClone for Node {
    fn view_clone(&self) -> (r: Self) {
        Node {
            parent: clone_bytes(&self.parent),
            sibling: match &self.sibling {
                Some(s) => Some(clone_bytes(s)),
                None => None,
            },
        }
    }
}

/// The per-root snapshot store: one immutable copy of the node graph per
/// historical root, written once when that root is produced and never
/// modified afterward.
pub struct SnapshotStore {
    entries: Vec<(Vec<u8>, ByteKeyMap<Node>)>,
}

impl View for SnapshotStore {
    type V = Map<Seq<u8>, TreeView>;

    closed spec fn view(&self) -> Map<Seq<u8>, TreeView> {
        as_map(self.entries@)
    }
}

impl SnapshotStore {
    /// Roots are never repeated, and every stored graph is a faithful map.
    pub closed spec fn wf(&self) -> bool {
        &&& distinct_keys(self.entries@)
        &&& forall|i: int| 0 <= i < self.entries@.len() ==> (#[trigger] self.entries@[i]).1.wf()
    }

    /// An empty store.
    pub fn new() -> (s: Self)
        ensures
            s@ == Map::<Seq<u8>, TreeView>::empty(),
            s.wf(),
    {
        SnapshotStore { entries: Vec::new() }
    }

    /// Persists `tree` under `root_hash`.
    pub fn save(&mut self, root_hash: Vec<u8>, tree: ByteKeyMap<Node>)
        requires
            old(self).wf(),
            tree.wf(),
        ensures
            final(self).wf(),
            final(self)@ == old(self)@.insert(root_hash@, tree@),
    {
        let ghost s0 = self.entries@;
        let mut i: usize = 0;
        while i < self.entries.len()
            invariant
                i <= self.entries@.len(),
                self.entries@ == s0,
                s0 == old(self).entries@,
                tree.wf(),
                distinct_keys(s0),
                forall|k: int| 0 <= k < s0.len() ==> (#[trigger] s0[k]).1.wf(),
                forall|j: int| 0 <= j < i ==> (#[trigger] s0[j]).0@ != root_hash@,
            decreases self.entries@.len() - i,
        {
            if bytes_eq(&self.entries[i].0, &root_hash) {
                proof {
                    lemma_as_map_update(s0, i as int, (root_hash, tree));
                }
                self.entries.set(i, (root_hash, tree));
                proof {
                    assert forall|p: int, q: int|
                        0 <= p < q < self.entries@.len() implies (#[trigger] self.entries@[p]).0@
                        != (#[trigger] self.entries@[q]).0@ by {
                        assert(s0[p].0@ != s0[q].0@);
                    }
                    assert forall|k: int|
                        0 <= k < self.entries@.len() implies (#[trigger] self.entries@[k]).1.wf()
                    by {
                        if k != i {
                            assert(s0[k].1.wf());
                        }
                    }
                }
                return ;
            }
            i = i + 1;
        }
        self.entries.push((root_hash, tree));
        proof {
            assert(self.entries@.drop_last() =~= s0);
            assert forall|p: int, q: int|
                0 <= p < q < self.entries@.len() implies (#[trigger] self.entries@[p]).0@
                != (#[trigger] self.entries@[q]).0@ by {
                if q < self.entries@.len() - 1 {
                    assert(s0[p].0@ != s0[q].0@);
                }
            }
            assert forall|k: int|
                0 <= k < self.entries@.len() implies (#[trigger] self.entries@[k]).1.wf() by {
                if k < self.entries@.len() - 1 {
                    assert(s0[k].1.wf());
                }
            }
        }
    }

    /// The snapshot saved under `root_hash`, if one was.
    pub fn load(&self, root_hash: &Vec<u8>) -> (r: Option<&ByteKeyMap<Node>>)
        requires
            self.wf(),
        ensures
            match r {
                Some(t) => self@.contains_key(root_hash@) && t@ == self@[root_hash@] && t.wf(),
                None => !self@.contains_key(root_hash@),
            },
    {
        let mut i: usize = 0;
        while i < self.entries.len()
            invariant
                i <= self.entries@.len(),
                self.wf(),
                forall|j: int| 0 <= j < i ==> (#[trigger] self.entries@[j]).0@ != root_hash@,
            decreases self.entries@.len() - i,
        {
            if bytes_eq(&self.entries[i].0, root_hash) {
                proof {
                    lemma_as_map_index(self.entries@, i as int);
                }
                return Some(&self.entries[i].1);
            }
            i = i + 1;
        }
        proof {
            lemma_as_map_absent(self.entries@, root_hash@);
        }
        None
    }
}

/// The replica of the accumulator: the same root, count and frontier,
/// rebuilt by replaying insertion events, plus the leaf index, the live
/// node graph and the snapshot store that the accumulator itself never
/// keeps.
pub struct MerkleTreeClient {
    /// Current root hash of the tree.
    pub root_hash: Option<Vec<u8>>,
    /// Number of leaf nodes.
    pub n_nodes: u128,
    /// Zero-based insertion position of each leaf hash (the most recent
    /// position, when the same value was inserted twice).
    pub node_indices: ByteKeyMap<u128>,
    /// Edge nodes necessary for the next insert.
    pub edge_nodes: Vec<Option<Vec<u8>>>,
    /// Every node in the tree and its connections.
    pub tree: ByteKeyMap<Node>,
    /// One frozen copy of the tree per root produced.
    pub snapshots: SnapshotStore,
}

impl View for MerkleTreeClient {
    type V = ClientView;

    open spec fn view(&self) -> ClientView {
        ClientView {
            root_hash: opt_view(self.root_hash),
            n_nodes: self.n_nodes as nat,
            node_indices: self.node_indices@,
            edge_nodes: slots_view(self.edge_nodes@),
            tree: self.tree@,
            snapshots: self.snapshots@,
        }
    }
}

impl MerkleTreeClient {
    /// The replica's well-formedness: the frontier mirrors the count's
    /// carry structure, a root is present exactly when something was
    /// replayed, and the three stores are faithful maps.
    pub open spec fn wf(&self) -> bool {
        &&& frontier_matches(self.n_nodes as nat, slots_view(self.edge_nodes@))
        &&& (self.root_hash is Some <==> self.n_nodes > 0)
        &&& self.node_indices.wf()
        &&& self.tree.wf()
        &&& self.snapshots.wf()
    }

    /// A replica that has replayed nothing.
    pub fn new() -> (c: MerkleTreeClient)
        ensures
            c@ == empty_client(),
            c.wf(),
    {
        let c = MerkleTreeClient {
            root_hash: None,
            n_nodes: 0,
            node_indices: ByteKeyMap::new(),
            edge_nodes: Vec::new(),
            tree: ByteKeyMap::new(),
            snapshots: SnapshotStore::new(),
        };
        proof {
            assert(c@ =~~= empty_client());
        }
        c
    }

    /// Replays a whole event stream (the leaf hashes the accumulator
    /// emitted, in insertion order).
    pub fn build_tree_from_events(&mut self, events: Vec<Vec<u8>>)
        requires
            old(self).wf(),
            old(self)@.n_nodes + events@.len() <= u128::MAX,
        ensures
            final(self).wf(),
            final(self)@ == spec_replay_all(old(self)@, events.deep_view()),
    {
        let ghost all = events.deep_view();
        let mut i: usize = 0;
        while i < events.len()
            invariant
                i <= events@.len(),
                all == events.deep_view(),
                self.wf(),
                self@ == spec_replay_all(old(self)@, all.take(i as int)),
                self@.n_nodes == old(self)@.n_nodes + i,
                old(self)@.n_nodes + events@.len() <= u128::MAX,
            decreases events@.len() - i,
        {
            self.insert(clone_bytes(&events[i]));
            proof {
                assert(all[i as int] =~= events@[i as int]@);
                assert(all.take(i + 1).drop_last() =~= all.take(i as int));
                assert(all.take(i + 1).last() == all[i as int]);
            }
            i = i + 1;
        }
        proof {
            assert(all.take(events@.len() as int) =~= all);
        }
    }

    /// Replays one insertion event: runs the accumulator's carry chain on
    /// the frontier while writing the graph edges it implies, records the
    /// leaf's position (before the count is incremented), and freezes a
    /// snapshot of the graph under the new root — exactly one snapshot per
    /// insertion.
    pub fn insert(&mut self, value_hash: Vec<u8>)
        requires
            old(self).wf(),
            old(self)@.n_nodes < u128::MAX,
        ensures
            final(self).wf(),
            final(self)@ == spec_replay(old(self)@, value_hash@),
    {
        let ghost leaf = value_hash@;
        let ghost f0 = slots_view(self.edge_nodes@);
        let ghost t0 = self.tree@;
        proof {
            lemma_next_frontier_matches(f0, self.n_nodes as nat, leaf);
        }
        let mut pair_hash = clone_bytes(&value_hash);
        let mut new_edge = clone_bytes(&value_hash);
        let next_edge_addition_level = count_bit_set_from_right(self.n_nodes);

        let mut i: usize = 0;
        while i < self.edge_nodes.len()
            invariant
                i <= self.edge_nodes.len(),
                slots_view(self.edge_nodes@) == f0,
                pair_hash@ == chain_carry(f0, leaf, i as int),
                new_edge@ == if next_edge_addition_level <= i {
                    chain_carry(f0, leaf, next_edge_addition_level as int)
                } else {
                    leaf
                },
                self.tree.wf(),
                self.tree@ == tree_after(t0, f0, leaf, i as int),
                self.edge_nodes == old(self).edge_nodes,
                self.n_nodes == old(self).n_nodes,
                self.root_hash == old(self).root_hash,
                self.node_indices == old(self).node_indices,
                self.snapshots == old(self).snapshots,
            decreases self.edge_nodes.len() - i,
        {
            proof {
                assert(f0[i as int] == opt_view(self.edge_nodes@[i as int]));
            }
            let next = match &self.edge_nodes[i] {
                Some(hash) => {
                    let new_hash = hash_pair(hash, &pair_hash);
                    // The edge node now has a sibling and a parent.
                    self.tree.insert(
                        clone_bytes(hash),
                        Node { parent: clone_bytes(&new_hash), sibling: Some(clone_bytes(&pair_hash)) },
                    );
                    // The carry now has the edge node as sibling and the same parent.
                    self.tree.insert(
                        clone_bytes(&pair_hash),
                        Node { parent: clone_bytes(&new_hash), sibling: Some(clone_bytes(hash)) },
                    );
                    new_hash
                },
                None => {
                    let new_hash = hash_value(&pair_hash);
                    // No partner at this level: the carry is promoted alone.
                    self.tree.insert(
                        clone_bytes(&pair_hash),
                        Node { parent: clone_bytes(&new_hash), sibling: None },
                    );
                    new_hash
                },
            };
            pair_hash = next;
            if i + 1 == next_edge_addition_level {
                new_edge = clone_bytes(&pair_hash);
            }
            i = i + 1;
        }

        self.root_hash = Some(clone_bytes(&pair_hash));
        // The leaf's position is assigned before the count is incremented:
        // the first leaf sits at position zero.
        self.node_indices.insert(clone_bytes(&value_hash), self.n_nodes);
        self.n_nodes = self.n_nodes + 1;
        self.update_edges(new_edge, next_edge_addition_level);

        let snapshot = self.tree.duplicate();
        self.save_snapshot(&pair_hash, snapshot);
        proof {
            assert(self@ =~~= spec_replay(old(self)@, leaf));
        }
    }

    /// Writes the new frontier anchor at the promotion level (appending
    /// when the frontier grows) and clears every slot below it.
    fn update_edges(&mut self, new_edge_value: Vec<u8>, addition_at_level: usize)
        requires
            addition_at_level <= old(self).edge_nodes.len(),
        ensures
            slots_view(final(self).edge_nodes@) == frontier_write(
                slots_view(old(self).edge_nodes@),
                new_edge_value@,
                addition_at_level as nat,
            ),
            final(self).root_hash == old(self).root_hash,
            final(self).n_nodes == old(self).n_nodes,
            final(self).node_indices == old(self).node_indices,
            final(self).tree == old(self).tree,
            final(self).snapshots == old(self).snapshots,
    {
        let ghost f0 = slots_view(old(self).edge_nodes@);
        if addition_at_level >= self.edge_nodes.len() {
            self.edge_nodes.push(Some(new_edge_value));
            proof {
                assert(slots_view(self.edge_nodes@) =~= f0.push(Some(new_edge_value@)));
            }
        } else {
            self.edge_nodes.set(addition_at_level, Some(new_edge_value));
            proof {
                assert(slots_view(self.edge_nodes@) =~= f0.update(
                    addition_at_level as int,
                    Some(new_edge_value@),
                ));
            }
        }
        let ghost base = slots_view(self.edge_nodes@);
        let mut i: usize = 0;
        while i < addition_at_level
            invariant
                i <= addition_at_level,
                addition_at_level <= self.edge_nodes.len(),
                self.edge_nodes@.len() == base.len(),
                forall|j: int| 0 <= j < i ==> opt_view(#[trigger] self.edge_nodes@[j]) is None,
                forall|j: int|
                    i <= j < base.len() ==> opt_view(#[trigger] self.edge_nodes@[j]) == base[j],
                self.root_hash == old(self).root_hash,
                self.n_nodes == old(self).n_nodes,
                self.node_indices == old(self).node_indices,
                self.tree == old(self).tree,
                self.snapshots == old(self).snapshots,
            decreases addition_at_level - i,
        {
            self.edge_nodes.set(i, None);
            i = i + 1;
        }
        proof {
            assert(slots_view(self.edge_nodes@) =~= frontier_write(
                f0,
                new_edge_value@,
                addition_at_level as nat,
            ));
        }
    }

    /// Freezes `tree` under `new_root_hash`: the only way linkage that was
    /// true at a historical root survives later overwrites.
    fn save_snapshot(&mut self, new_root_hash: &Vec<u8>, tree: ByteKeyMap<Node>)
        requires
            old(self).snapshots.wf(),
            tree.wf(),
        ensures
            final(self).snapshots.wf(),
            final(self).snapshots@ == old(self).snapshots@.insert(new_root_hash@, tree@),
            final(self).root_hash == old(self).root_hash,
            final(self).n_nodes == old(self).n_nodes,
            final(self).node_indices == old(self).node_indices,
            final(self).edge_nodes == old(self).edge_nodes,
            final(self).tree == old(self).tree,
    {
        self.snapshots.save(clone_bytes(new_root_hash), tree);
    }

    /// The snapshot frozen at `root_hash`, or `SnapshotNotFound` when no
    /// insertion ever produced that root.
    fn load_snapshot(&self, root_hash: &Vec<u8>) -> (r: Result<&ByteKeyMap<Node>, TreeError>)
        requires
            self.snapshots.wf(),
        ensures
            match r {
                Ok(t) => self.snapshots@.contains_key(root_hash@) && t@
                    == self.snapshots@[root_hash@] && t.wf(),
                Err(e) => e == TreeError::SnapshotNotFound && !self.snapshots@.contains_key(
                    root_hash@,
                ),
            },
    {
        match self.snapshots.load(root_hash) {
            Some(t) => Ok(t),
            None => Err(TreeError::SnapshotNotFound),
        }
    }

    /// The upward walk from `hash` toward `root_hash` in a snapshot graph:
    /// the proof entries it collects (the sibling at a pairing, a self-hash
    /// marker at a promotion), or `None` when the walk leaves the graph or
    /// fails to reach the root.
    fn find_node(
        &self,
        tree: &ByteKeyMap<Node>,
        hash: Vec<u8>,
        node_hash: &Vec<u8>,
    ) -> (r: Option<Vec<Option<Vec<u8>>>>)
        requires
            tree.wf(),
        ensures
            match r {
                Some(p) => walk(tree@, hash@, node_hash@, tree@.dom().len()) == Some(
                    slots_view(p@),
                ),
                None => walk(tree@, hash@, node_hash@, tree@.dom().len()) is None,
            },
    {
        let ghost target = walk(tree@, hash@, node_hash@, tree@.dom().len());
        let mut fuel = tree.len();
        let mut cursor = hash;
        let mut proof_entries: Vec<Option<Vec<u8>>> = Vec::new();
        proof {
            assert(slots_view(proof_entries@) =~= Seq::<Option<Seq<u8>>>::empty());
            match walk(tree@, cursor@, node_hash@, fuel as nat) {
                Some(rest) => {
                    assert(slots_view(proof_entries@) + rest =~= rest);
                },
                None => {},
            }
        }
        while fuel > 0
            invariant
                target == walk(tree@, hash@, node_hash@, tree@.dom().len()),
                tree.wf(),
                match walk(tree@, cursor@, node_hash@, fuel as nat) {
                    Some(rest) => target == Some(slots_view(proof_entries@) + rest),
                    None => target is None,
                },
            decreases fuel,
        {
            let node = match tree.get(&cursor) {
                Some(node) => node,
                None => {
                    return None;
                },
            };
            let ghost prefix = slots_view(proof_entries@);
            let ghost inner = walk(tree@, node@.parent, node_hash@, (fuel - 1) as nat);
            match &node.sibling {
                Some(sibling) => {
                    // The node was paired: its partner joins the proof.
                    proof_entries.push(Some(clone_bytes(sibling)));
                    proof {
                        assert(slots_view(proof_entries@) =~= prefix + seq![Some(sibling@)]);
                    }
                    if bytes_eq(&node.parent, node_hash) {
                        // The proof is complete.
                        return Some(proof_entries);
                    }
                    // Going up the tree one level.
                    cursor = clone_bytes(&node.parent);
                    proof {
                        match inner {
                            Some(rest) => {
                                assert((prefix + seq![Some(sibling@)]) + rest =~= prefix + (seq![
                                    Some(sibling@),
                                ] + rest));
                            },
                            None => {},
                        }
                    }
                },
                None => {
                    // The node was promoted alone: a self-hash marker joins
                    // the proof, and the walk still advances one level.
                    proof_entries.push(None);
                    proof {
                        assert(slots_view(proof_entries@) =~= prefix + seq![
                            Option::<Seq<u8>>::None,
                        ]);
                    }
                    cursor = clone_bytes(&node.parent);
                    proof {
                        match inner {
                            Some(rest) => {
                                assert((prefix + seq![Option::<Seq<u8>>::None]) + rest =~= prefix
                                    + (seq![Option::<Seq<u8>>::None] + rest));
                            },
                            None => {},
                        }
                    }
                },
            }
            fuel = fuel - 1;
        }
        None
    }

    /// An inclusion proof that `value` is inside the tree state whose root
    /// is `root_hash`: empty when the value's hash is itself that root,
    /// `SnapshotNotFound` when the root was never produced, and
    /// `ProofNotFound` when the leaf does not reach the root within that
    /// snapshot (the value was not inserted before the root existed).
    pub fn get_proof_for(&self, value: &Vec<u8>, root_hash: &Vec<u8>) -> (r: Result<
        Vec<Option<Vec<u8>>>,
        TreeError,
    >)
        requires
            self.wf(),
        ensures
            match r {
                Ok(p) => proof_outcome(self@.snapshots, hash_of(value@), root_hash@) == Ok::<
                    Seq<Option<Seq<u8>>>,
                    TreeError,
                >(slots_view(p@)),
                Err(e) => proof_outcome(self@.snapshots, hash_of(value@), root_hash@)
                    == Err::<Seq<Option<Seq<u8>>>, TreeError>(e),
            },
    {
        let value_hash = hash_value(value);
        // A tree of exactly one node: the leaf is the root, the proof is empty.
        if bytes_eq(&value_hash, root_hash) {
            let empty: Vec<Option<Vec<u8>>> = Vec::new();
            proof {
                assert(slots_view(empty@) =~= Seq::<Option<Seq<u8>>>::empty());
            }
            return Ok(empty);
        }
        let tree = match self.load_snapshot(root_hash) {
            Ok(t) => t,
            Err(e) => {
                return Err(e);
            },
        };
        match self.find_node(tree, value_hash, root_hash) {
            Some(p) => Ok(p),
            None => Err(TreeError::ProofNotFound),
        }
    }

    /// The zero-based insertion position of `value` (its most recent one,
    /// when it was inserted twice), or `LeafUnknown` when the replica never
    /// saw it.
    pub fn get_node_index(&self, value: &Vec<u8>) -> (r: Result<u128, TreeError>)
        requires
            self.wf(),
        ensures
            match r {
                Ok(i) => self@.node_indices.contains_key(hash_of(value@)) && i
                    == self@.node_indices[hash_of(value@)],
                Err(e) => e == TreeError::LeafUnknown && !self@.node_indices.contains_key(
                    hash_of(value@),
                ),
            },
    {
        let value_hash = hash_value(value);
        match self.node_indices.get(&value_hash) {
            Some(i) => Ok(*i),
            None => Err(TreeError::LeafUnknown),
        }
    }
}

} // verus!
