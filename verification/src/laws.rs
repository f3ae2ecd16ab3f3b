//! The properties that tie the components together: the verifier inverts
//! the insertion chain, snapshots keep old proofs stable, absent leaves are
//! refused, and the replica tracks the accumulator.

use vstd::prelude::*;
use vstd::set_lib::lemma_len_subset;
use crate::bits::lemma_top_bit_set;
use crate::hashing::hash_of;
use crate::model::{AccView, ClientView, NodeView, TreeView, TreeError, acc_wf, empty_acc,
    empty_client, spec_insert, spec_replay, spec_replay_all, chain_carry, next_root, verify_chain,
    proof_accepted, proof_outcome, frontier_matches, tree_after, walk};

verus! {

/// The value sequence folded through the accumulator from its initial
/// state: what any run of `MerkleTree::insert` over those values produces.
pub open spec fn accumulate_values(values: Seq<Seq<u8>>) -> AccView
    decreases values.len(),
{
    if values.len() == 0 {
        empty_acc()
    } else {
        spec_insert(accumulate_values(values.drop_last()), hash_of(values.last()))
    }
}

/// Level by level, the verifier's chain over the frontier-as-proof, at the
/// position `count`, recomputes exactly the insertion's carry chain: the
/// occupied slots sit precisely where `count` has a one bit, so the pairing
/// sides agree.
proof fn lemma_chains_agree(
    frontier: Seq<Option<Seq<u8>>>,
    leaf: Seq<u8>,
    count: nat,
    i: int,
)
    requires
        frontier_matches(count, frontier),
        0 <= i <= frontier.len(),
    ensures
        verify_chain(frontier, leaf, count, i) == chain_carry(frontier, leaf, i),
    decreases i,
{
    if i > 0 {
        lemma_chains_agree(frontier, leaf, count, i - 1);
    }
}

/// Round trip for the newest leaf: inserting `leaf` into a well-formed
/// state turns the consumed frontier into an inclusion proof — one entry
/// per level, the occupied slots as siblings, the empty ones as self-hash
/// markers — that verifies the leaf at position `count` (its assigned
/// index) against the new root.
pub proof fn lemma_latest_leaf_proof_verifies(s: AccView, leaf: Seq<u8>)
    requires
        acc_wf(s),
    ensures
        spec_insert(s, leaf).root_hash == Some(next_root(s.edge_nodes, leaf)),
        proof_accepted(s.edge_nodes, leaf, s.n_nodes, next_root(s.edge_nodes, leaf)),
{
    lemma_chains_agree(s.edge_nodes, leaf, s.n_nodes, s.edge_nodes.len() as int);
}

/// Historical stability of the store: saving a snapshot under a different
/// root changes nothing about proof generation against an existing root.
/// Verification itself is a pure function of the proof, the value, the
/// position and the root, so a proof generated against a root keeps its
/// verdict whatever is inserted later.
pub proof fn lemma_historical_stability(
    snapshots: Map<Seq<u8>, TreeView>,
    r1: Seq<u8>,
    r2: Seq<u8>,
    t2: TreeView,
    leaf: Seq<u8>,
)
    requires
        r1 != r2,
    ensures
        proof_outcome(snapshots.insert(r2, t2), leaf, r1) == proof_outcome(snapshots, leaf, r1),
{
}

/// Historical stability of the replica: replaying one more event leaves
/// proof generation against any earlier, different root untouched.
pub proof fn lemma_replay_preserves_old_proofs(
    c: ClientView,
    event: Seq<u8>,
    r1: Seq<u8>,
    leaf: Seq<u8>,
)
    requires
        next_root(c.edge_nodes, event) != r1,
    ensures
        proof_outcome(spec_replay(c, event).snapshots, leaf, r1) == proof_outcome(
            c.snapshots,
            leaf,
            r1,
        ),
{
    lemma_historical_stability(
        c.snapshots,
        r1,
        next_root(c.edge_nodes, event),
        spec_replay(c, event).tree,
        leaf,
    );
}

/// Non-membership: a leaf hash absent from the snapshot frozen at `root` —
/// a value never inserted before that root was produced — is answered with
/// `ProofNotFound`.
pub proof fn lemma_non_membership(
    snapshots: Map<Seq<u8>, TreeView>,
    leaf: Seq<u8>,
    root: Seq<u8>,
)
    requires
        leaf != root,
        snapshots.contains_key(root),
        !snapshots[root].contains_key(leaf),
    ensures
        proof_outcome(snapshots, leaf, root) == Err::<Seq<Option<Seq<u8>>>, TreeError>(
            TreeError::ProofNotFound,
        ),
{
    assert(walk(snapshots[root], leaf, root, snapshots[root].dom().len()) is None);
}

/// No hash coincidences among the writes of one insertion: the carries of
/// its chain are pairwise distinct, and no occupied frontier slot equals a
/// carry.  With a collision-resistant hash this fails only with negligible
/// probability; an uninterpreted hash cannot exclude it, so the round-trip
/// statement below assumes it explicitly.
pub open spec fn insertion_collision_free(frontier: Seq<Option<Seq<u8>>>, leaf: Seq<u8>) -> bool {
    &&& forall|i: int, j: int|
        0 <= i < j <= frontier.len() ==> #[trigger] chain_carry(frontier, leaf, i)
            != #[trigger] chain_carry(frontier, leaf, j)
    &&& forall|i: int, j: int|
        0 <= i < frontier.len() && 0 <= j <= frontier.len() && (#[trigger] frontier[i]) is Some
            ==> frontier[i]->0 != #[trigger] chain_carry(frontier, leaf, j)
}

/// The node written for the carry at level `i` survives every later write
/// of the same insertion: nothing else of this insertion touches its key.
proof fn lemma_path_node_survives(
    t0: TreeView,
    frontier: Seq<Option<Seq<u8>>>,
    leaf: Seq<u8>,
    i: int,
    k: int,
)
    requires
        insertion_collision_free(frontier, leaf),
        0 <= i < k <= frontier.len(),
    ensures
        tree_after(t0, frontier, leaf, k).contains_key(chain_carry(frontier, leaf, i)),
        tree_after(t0, frontier, leaf, k)[chain_carry(frontier, leaf, i)] == (NodeView {
            parent: chain_carry(frontier, leaf, i + 1),
            sibling: frontier[i],
        }),
    decreases k,
{
    if k == i + 1 {
    } else {
        lemma_path_node_survives(t0, frontier, leaf, i, k - 1);
    }
}

/// Growing a graph by one insertion keeps its key set finite.
proof fn lemma_tree_after_finite(t0: TreeView, frontier: Seq<Option<Seq<u8>>>, leaf: Seq<u8>, i: int)
    requires
        t0.dom().finite(),
    ensures
        tree_after(t0, frontier, leaf, i).dom().finite(),
    decreases i,
{
    if i > 0 {
        lemma_tree_after_finite(t0, frontier, leaf, i - 1);
    }
}

/// From the carry at level `i`, the walk through the fully written graph
/// climbs the insertion's own path and collects exactly the frontier slots
/// at and above `i`.
proof fn lemma_walk_collects_frontier(
    t0: TreeView,
    frontier: Seq<Option<Seq<u8>>>,
    leaf: Seq<u8>,
    count: nat,
    i: int,
    fuel: nat,
)
    requires
        insertion_collision_free(frontier, leaf),
        frontier_matches(count, frontier),
        0 <= i < frontier.len(),
        fuel >= frontier.len() - i,
    ensures
        walk(
            tree_after(t0, frontier, leaf, frontier.len() as int),
            chain_carry(frontier, leaf, i),
            chain_carry(frontier, leaf, frontier.len() as int),
            fuel,
        ) == Some(frontier.skip(i)),
    decreases frontier.len() - i,
{
    let n = frontier.len() as int;
    lemma_path_node_survives(t0, frontier, leaf, i, n);
    match frontier[i] {
        Some(h) => {
            if i + 1 == n {
                assert(seq![Some(h)] =~= frontier.skip(i));
            } else {
                lemma_walk_collects_frontier(t0, frontier, leaf, count, i + 1, (fuel - 1) as nat);
                assert(seq![Some(h)] + frontier.skip(i + 1) =~= frontier.skip(i));
            }
        },
        None => {
            // An empty slot is never the last: the top slot mirrors the
            // count's highest digit, which is a one.
            lemma_top_bit_set(count);
            assert(i + 1 < n);
            lemma_walk_collects_frontier(t0, frontier, leaf, count, i + 1, (fuel - 1) as nat);
            assert(seq![Option::<Seq<u8>>::None] + frontier.skip(i + 1) =~= frontier.skip(i));
        },
    }
}

/// Round trip for the newest leaf, end to end: replaying `leaf` onto a
/// replica that already holds something, and whose insertion makes no hash
/// coincidences, proof generation against the new root returns exactly the
/// consumed frontier as the proof, and that proof verifies the leaf at its
/// assigned position against the new root.
pub proof fn lemma_latest_leaf_round_trip(c: ClientView, leaf: Seq<u8>)
    requires
        frontier_matches(c.n_nodes, c.edge_nodes),
        c.n_nodes > 0,
        c.tree.dom().finite(),
        insertion_collision_free(c.edge_nodes, leaf),
    ensures
        proof_outcome(spec_replay(c, leaf).snapshots, leaf, next_root(c.edge_nodes, leaf))
            == Ok::<Seq<Option<Seq<u8>>>, TreeError>(c.edge_nodes),
        proof_accepted(c.edge_nodes, leaf, c.n_nodes, next_root(c.edge_nodes, leaf)),
{
    let f = c.edge_nodes;
    let n = f.len() as int;
    let root = next_root(f, leaf);
    let t = tree_after(c.tree, f, leaf, n);
    let c2 = spec_replay(c, leaf);
    assert(n >= 1);
    assert(leaf == chain_carry(f, leaf, 0));
    assert(leaf != root);
    assert(c2.snapshots[root] == t);

    // The path's carries are distinct keys of the snapshot, so the walk's
    // lookup budget (the snapshot's key count) covers the path.
    let carries = Seq::new(n as nat, |i: int| chain_carry(f, leaf, i));
    assert(carries.no_duplicates());
    carries.unique_seq_to_set();
    assert forall|x: Seq<u8>| carries.to_set().contains(x) implies t.dom().contains(x) by {
        let i = choose|i: int| 0 <= i < carries.len() && carries[i] == x;
        lemma_path_node_survives(c.tree, f, leaf, i, n);
    }
    lemma_tree_after_finite(c.tree, f, leaf, n);
    lemma_len_subset(carries.to_set(), t.dom());
    assert(t.dom().len() >= n);

    lemma_walk_collects_frontier(c.tree, f, leaf, c.n_nodes, 0, t.dom().len());
    assert(f.skip(0) =~= f);
    lemma_chains_agree(f, leaf, c.n_nodes, n);
}

/// Whether a run of replayed events never re-produces the root `r`: at
/// each step, the root that event yields differs from `r`.  A later
/// insertion could only re-produce an existing root through a hash
/// collision.
pub open spec fn replay_avoids_root(c: ClientView, events: Seq<Seq<u8>>, r: Seq<u8>) -> bool
    decreases events.len(),
{
    events.len() == 0 || {
        let prev = spec_replay_all(c, events.drop_last());
        &&& next_root(prev.edge_nodes, events.last()) != r
        &&& replay_avoids_root(c, events.drop_last(), r)
    }
}

/// Historical stability over a whole run: replaying any number of further
/// events, none of which re-produces the root `r`, leaves proof generation
/// against `r` exactly as it was.
pub proof fn lemma_stability_over_replay(
    c: ClientView,
    events: Seq<Seq<u8>>,
    leaf: Seq<u8>,
    r: Seq<u8>,
)
    requires
        replay_avoids_root(c, events, r),
    ensures
        proof_outcome(spec_replay_all(c, events).snapshots, leaf, r) == proof_outcome(
            c.snapshots,
            leaf,
            r,
        ),
    decreases events.len(),
{
    if events.len() > 0 {
        lemma_stability_over_replay(c, events.drop_last(), leaf, r);
        let prev = spec_replay_all(c, events.drop_last());
        lemma_replay_preserves_old_proofs(prev, events.last(), r, leaf);
    }
}

/// The newest-leaf round trip survives later history: after the insertion
/// of `leaf` and any further run of events that never re-produces its
/// root, proof generation against that root still returns the consumed
/// frontier, and that proof still verifies the leaf at its assigned
/// position.
pub proof fn lemma_round_trip_survives_later_events(
    c: ClientView,
    leaf: Seq<u8>,
    events: Seq<Seq<u8>>,
)
    requires
        frontier_matches(c.n_nodes, c.edge_nodes),
        c.n_nodes > 0,
        c.tree.dom().finite(),
        insertion_collision_free(c.edge_nodes, leaf),
        replay_avoids_root(spec_replay(c, leaf), events, next_root(c.edge_nodes, leaf)),
    ensures
        proof_outcome(
            spec_replay_all(spec_replay(c, leaf), events).snapshots,
            leaf,
            next_root(c.edge_nodes, leaf),
        ) == Ok::<Seq<Option<Seq<u8>>>, TreeError>(c.edge_nodes),
        proof_accepted(c.edge_nodes, leaf, c.n_nodes, next_root(c.edge_nodes, leaf)),
{
    lemma_latest_leaf_round_trip(c, leaf);
    lemma_stability_over_replay(
        spec_replay(c, leaf),
        events,
        leaf,
        next_root(c.edge_nodes, leaf),
    );
}

/// One replayed event keeps the replica's accumulator fields in lock step
/// with the accumulator's own transition on the same leaf hash.
pub proof fn lemma_replica_tracks_accumulator(c: ClientView, s: AccView, leaf: Seq<u8>)
    requires
        c.root_hash == s.root_hash,
        c.n_nodes == s.n_nodes,
        c.edge_nodes == s.edge_nodes,
    ensures
        spec_replay(c, leaf).root_hash == spec_insert(s, leaf).root_hash,
        spec_replay(c, leaf).n_nodes == spec_insert(s, leaf).n_nodes,
        spec_replay(c, leaf).edge_nodes == spec_insert(s, leaf).edge_nodes,
{
}

/// Determinism and synchronisation: whatever value sequence the accumulator
/// consumed, a replica that replays the emitted event stream from scratch
/// reproduces the accumulator's root, count and frontier exactly.
pub proof fn lemma_sync_with_accumulator(values: Seq<Seq<u8>>)
    ensures
        ({
            let s = accumulate_values(values);
            let c = spec_replay_all(empty_client(), s.events);
            c.root_hash == s.root_hash && c.n_nodes == s.n_nodes && c.edge_nodes == s.edge_nodes
        }),
    decreases values.len(),
{
    if values.len() > 0 {
        let s_prev = accumulate_values(values.drop_last());
        let s = accumulate_values(values);
        lemma_sync_with_accumulator(values.drop_last());
        assert(s.events.drop_last() =~= s_prev.events);
        assert(s.events.last() == hash_of(values.last()));
        let c_prev = spec_replay_all(empty_client(), s_prev.events);
        lemma_replica_tracks_accumulator(c_prev, s_prev, hash_of(values.last()));
    }
}

} // verus!
