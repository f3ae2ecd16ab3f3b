//! The mathematical model of the accumulator: the carry chain an insertion
//! computes, the frontier it leaves behind, the node graph the replica
//! records, the upward walk that collects a proof, and the hash chain a
//! verifier recomputes.

use vstd::prelude::*;
use crate::bits::{bit_at, bit_len, trailing_ones, lemma_trailing_ones_le_bit_len,
    lemma_increment_bit, lemma_increment_bit_len};
use crate::hashing::{hash_of, hash_pair_of};

verus! {

/// A caller-visible, recoverable failure of proof generation or index lookup.
#[derive(Clone, Copy, PartialEq, Eq, Structural, Debug)]
pub enum TreeError {
    /// The requested historical root was never produced.
    SnapshotNotFound,
    /// The leaf hash does not reach the target root within the snapshot.
    ProofNotFound,
    /// The value was never seen by the replica's leaf index.
    LeafUnknown,
}

/// View of one optional hash slot.
pub open spec fn opt_view(o: Option<Vec<u8>>) -> Option<Seq<u8>> {
    match o {
        Some(h) => Some(h@),
        None => None,
    }
}

/// View of a frontier vector or of a proof: one optional hash per level.
pub open spec fn slots_view(v: Seq<Option<Vec<u8>>>) -> Seq<Option<Seq<u8>>> {
    Seq::new(v.len(), |i: int| opt_view(v[i]))
}

/// The running carry after an insertion of `leaf` has folded in the first
/// `i` frontier slots: an occupied slot pairs (slot on the left, carry on
/// the right), an empty slot promotes the carry by self-hashing.
pub open spec fn chain_carry(frontier: Seq<Option<Seq<u8>>>, leaf: Seq<u8>, i: int) -> Seq<u8>
    decreases i,
{
    if i <= 0 {
        leaf
    } else {
        let prev = chain_carry(frontier, leaf, i - 1);
        match frontier[i - 1] {
            Some(h) => hash_pair_of(h, prev),
            None => hash_of(prev),
        }
    }
}

/// The root produced by inserting `leaf` into a state with this frontier.
pub open spec fn next_root(frontier: Seq<Option<Seq<u8>>>, leaf: Seq<u8>) -> Seq<u8> {
    chain_carry(frontier, leaf, frontier.len() as int)
}

/// The frontier once `anchor` is written at `level` (appended when the
/// vector is too short) and every slot below `level` is cleared.
pub open spec fn frontier_write(
    frontier: Seq<Option<Seq<u8>>>,
    anchor: Seq<u8>,
    level: nat,
) -> Seq<Option<Seq<u8>>> {
    let base = if level >= frontier.len() {
        frontier.push(Some(anchor))
    } else {
        frontier.update(level as int, Some(anchor))
    };
    Seq::new(base.len(), |i: int| if i < level { None } else { base[i] })
}

/// The subtree hash re-anchored in the frontier by an insertion when the
/// leaf count was `count`: the carry as it stood at the promotion level.
pub open spec fn next_anchor(frontier: Seq<Option<Seq<u8>>>, leaf: Seq<u8>, count: nat) -> Seq<u8> {
    chain_carry(frontier, leaf, trailing_ones(count) as int)
}

/// The frontier after inserting `leaf` when the leaf count was `count`.
pub open spec fn next_frontier(
    frontier: Seq<Option<Seq<u8>>>,
    leaf: Seq<u8>,
    count: nat,
) -> Seq<Option<Seq<u8>>> {
    frontier_write(frontier, next_anchor(frontier, leaf, count), trailing_ones(count))
}

/// The frontier mirrors the binary carry structure of the count: one slot
/// per binary digit, occupied exactly where the digit is one.
pub open spec fn frontier_matches(count: nat, frontier: Seq<Option<Seq<u8>>>) -> bool {
    &&& frontier.len() == bit_len(count)
    &&& forall|i: int|
        0 <= i < frontier.len() ==> (#[trigger] frontier[i]) is Some == bit_at(count, i as nat)
}

/// The accumulator's mathematical state.
#[verifier::ext_equal]
pub ghost struct AccView {
    pub root_hash: Option<Seq<u8>>,
    pub n_nodes: nat,
    pub edge_nodes: Seq<Option<Seq<u8>>>,
    pub events: Seq<Seq<u8>>,
}

/// The state before anything was inserted.
pub open spec fn empty_acc() -> AccView {
    AccView { root_hash: None, n_nodes: 0, edge_nodes: Seq::empty(), events: Seq::empty() }
}

/// One insertion of a leaf hash, as a pure state transition.
pub open spec fn spec_insert(s: AccView, leaf: Seq<u8>) -> AccView {
    AccView {
        root_hash: Some(next_root(s.edge_nodes, leaf)),
        n_nodes: s.n_nodes + 1,
        edge_nodes: next_frontier(s.edge_nodes, leaf, s.n_nodes),
        events: s.events.push(leaf),
    }
}

/// A well-formed accumulator state: the frontier encodes the count's carry
/// structure, and a root is present exactly when something was inserted.
pub open spec fn acc_wf(s: AccView) -> bool {
    &&& frontier_matches(s.n_nodes, s.edge_nodes)
    &&& (s.root_hash is Some <==> s.n_nodes > 0)
}

/// An insertion consumes no more slots than the frontier has, and leaves a
/// frontier that again mirrors the incremented count.
pub proof fn lemma_next_frontier_matches(frontier: Seq<Option<Seq<u8>>>, count: nat, leaf: Seq<u8>)
    requires
        frontier_matches(count, frontier),
    ensures
        trailing_ones(count) <= frontier.len(),
        frontier_matches(count + 1, next_frontier(frontier, leaf, count)),
{
    let pl = trailing_ones(count);
    lemma_trailing_ones_le_bit_len(count);
    lemma_increment_bit_len(count);
    let nf = next_frontier(frontier, leaf, count);
    if pl == frontier.len() {
        assert(nf.len() == bit_len(count + 1));
    } else {
        assert(nf.len() == bit_len(count + 1));
    }
    assert forall|i: int| 0 <= i < nf.len() implies (#[trigger] nf[i]) is Some == bit_at(
        count + 1,
        i as nat,
    ) by {
        lemma_increment_bit(count, i as nat);
    }
}

/// The accumulator state after every insertion stays well formed.
pub proof fn lemma_spec_insert_wf(s: AccView, leaf: Seq<u8>)
    requires
        acc_wf(s),
    ensures
        acc_wf(spec_insert(s, leaf)),
{
    lemma_next_frontier_matches(s.edge_nodes, s.n_nodes, leaf);
}

/// A node's place in the replica graph: the hash it contributed to, and the
/// partner it was paired with (`None` for a self-hash promotion).
#[verifier::ext_equal]
pub ghost struct NodeView {
    pub parent: Seq<u8>,
    pub sibling: Option<Seq<u8>>,
}

/// The replica's node graph: every known hash and its current linkage.
pub type TreeView = Map<Seq<u8>, NodeView>;

/// The node graph after an insertion of `leaf` has processed its first `i`
/// frontier slots: pairings write both partners, self-hash promotions write
/// the promoted node alone.
pub open spec fn tree_after(
    tree: TreeView,
    frontier: Seq<Option<Seq<u8>>>,
    leaf: Seq<u8>,
    i: int,
) -> TreeView
    decreases i,
{
    if i <= 0 {
        tree
    } else {
        let prev_tree = tree_after(tree, frontier, leaf, i - 1);
        let prev = chain_carry(frontier, leaf, i - 1);
        match frontier[i - 1] {
            Some(h) => {
                let combined = hash_pair_of(h, prev);
                prev_tree.insert(h, NodeView { parent: combined, sibling: Some(prev) }).insert(
                    prev,
                    NodeView { parent: combined, sibling: Some(h) },
                )
            },
            None => {
                let promoted = hash_of(prev);
                prev_tree.insert(prev, NodeView { parent: promoted, sibling: None })
            },
        }
    }
}

/// The upward walk from `cursor` toward `root` in a snapshot graph, doing at
/// most `fuel` lookups: the proof entries it collects, or `None` when it
/// steps out of the graph or runs out of lookups.
pub open spec fn walk(tree: TreeView, cursor: Seq<u8>, root: Seq<u8>, fuel: nat) -> Option<
    Seq<Option<Seq<u8>>>,
>
    decreases fuel,
{
    if fuel == 0 {
        None
    } else if !tree.contains_key(cursor) {
        None
    } else {
        let node = tree[cursor];
        match node.sibling {
            Some(s) => if node.parent == root {
                Some(seq![Some(s)])
            } else {
                match walk(tree, node.parent, root, (fuel - 1) as nat) {
                    Some(rest) => Some(seq![Some(s)] + rest),
                    None => None,
                }
            },
            None => match walk(tree, node.parent, root, (fuel - 1) as nat) {
                Some(rest) => Some(seq![Option::<Seq<u8>>::None] + rest),
                None => None,
            },
        }
    }
}

/// What proof generation returns, as a function of the saved snapshots, the
/// leaf hash and the target root: the empty proof when the leaf is itself
/// the root, an error when the root was never snapshotted, and otherwise the
/// walk through that root's snapshot.
pub open spec fn proof_outcome(
    snapshots: Map<Seq<u8>, TreeView>,
    leaf: Seq<u8>,
    root: Seq<u8>,
) -> Result<Seq<Option<Seq<u8>>>, TreeError> {
    if leaf == root {
        Ok(Seq::empty())
    } else if !snapshots.contains_key(root) {
        Err(TreeError::SnapshotNotFound)
    } else {
        match walk(snapshots[root], leaf, root, snapshots[root].dom().len()) {
            Some(p) => Ok(p),
            None => Err(TreeError::ProofNotFound),
        }
    }
}

/// The replica's mathematical state: the accumulator fields it mirrors,
/// the leaf index, the live node graph, and the per-root snapshots.
#[verifier::ext_equal]
pub ghost struct ClientView {
    pub root_hash: Option<Seq<u8>>,
    pub n_nodes: nat,
    pub node_indices: Map<Seq<u8>, u128>,
    pub edge_nodes: Seq<Option<Seq<u8>>>,
    pub tree: TreeView,
    pub snapshots: Map<Seq<u8>, TreeView>,
}

/// The replica before any event was replayed.
pub open spec fn empty_client() -> ClientView {
    ClientView {
        root_hash: None,
        n_nodes: 0,
        node_indices: Map::empty(),
        edge_nodes: Seq::empty(),
        tree: Map::empty(),
        snapshots: Map::empty(),
    }
}

/// Replaying one insertion event (a leaf hash): the same carry chain as the
/// accumulator, plus the graph edges it writes, the leaf's position
/// (assigned before the count is incremented), and a snapshot of the grown
/// graph under the new root — one snapshot per insertion, always, so that
/// every root ever produced can answer proof requests (for a single-node
/// tree the snapshot is the still-empty graph: its leaf is itself the
/// root).
pub open spec fn spec_replay(c: ClientView, leaf: Seq<u8>) -> ClientView {
    let new_root = next_root(c.edge_nodes, leaf);
    let new_tree = tree_after(c.tree, c.edge_nodes, leaf, c.edge_nodes.len() as int);
    ClientView {
        root_hash: Some(new_root),
        n_nodes: c.n_nodes + 1,
        node_indices: c.node_indices.insert(leaf, c.n_nodes as u128),
        edge_nodes: next_frontier(c.edge_nodes, leaf, c.n_nodes),
        tree: new_tree,
        snapshots: c.snapshots.insert(new_root, new_tree),
    }
}

/// Replaying a whole event stream, in order.
pub open spec fn spec_replay_all(c: ClientView, events: Seq<Seq<u8>>) -> ClientView
    decreases events.len(),
{
    if events.len() == 0 {
        c
    } else {
        spec_replay(spec_replay_all(c, events.drop_last()), events.last())
    }
}

/// The hash a verifier has recomputed after consuming the first `i` proof
/// entries for a leaf that sat at `position`: a `Some` entry pairs with the
/// carry, on the side named by bit `i - 1` of the position (bit set: the
/// proof hash is the left operand); a `None` entry self-hashes the carry.
pub open spec fn verify_chain(
    proof: Seq<Option<Seq<u8>>>,
    leaf: Seq<u8>,
    position: nat,
    i: int,
) -> Seq<u8>
    decreases i,
{
    if i <= 0 {
        leaf
    } else {
        let prev = verify_chain(proof, leaf, position, i - 1);
        match proof[i - 1] {
            Some(h) => if bit_at(position, (i - 1) as nat) {
                hash_pair_of(h, prev)
            } else {
                hash_pair_of(prev, h)
            },
            None => hash_of(prev),
        }
    }
}

/// Whether a proof convinces the verifier: the recomputed chain over all
/// entries ends at the claimed root.
pub open spec fn proof_accepted(
    proof: Seq<Option<Seq<u8>>>,
    leaf: Seq<u8>,
    position: nat,
    root: Seq<u8>,
) -> bool {
    verify_chain(proof, leaf, position, proof.len() as int) == root
}

} // verus!
