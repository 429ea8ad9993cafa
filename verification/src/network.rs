//! The road network: which nodes built roads reach from the settlements,
//! and what the search of the network has established at each step.

use vstd::prelude::*;
use crate::mcts::{Board, Move, StateView};
use crate::rules::{adjacent, road_between, spot_free};

verus! {

/// The nodes whose bit is set in a `u64` node set.
pub open spec fn node_set(b: u64) -> Set<int> {
    Set::new(|x: int| 0 <= x < 64 && (b >> (x as u64)) & 1u64 == 1u64)
}

proof fn lemma_test_node_bit(b: u64, x: u64)
    by (bit_vector)
    requires
        x < 64,
    ensures
        (b & (1u64 << x) != 0) == ((b >> x) & 1u64 == 1u64),
{
}

proof fn lemma_set_node_bit(b: u64, x: u64, i: u64)
    by (bit_vector)
    requires
        x < 64,
        i < 64,
    ensures
        ((b | (1u64 << x)) >> i) & 1u64 == if i == x { 1u64 } else { (b >> i) & 1u64 },
{
}

proof fn lemma_empty_node_bits(i: u64)
    by (bit_vector)
    requires
        i < 64,
    ensures
        (0u64 >> i) & 1u64 == 0u64,
{
}

pub(crate) proof fn lemma_empty_node_set()
    ensures
        node_set(0) == Set::<int>::empty(),
{
    assert forall|x: int| #[trigger] node_set(0).contains(x) == Set::<int>::empty().contains(x) by {
        if 0 <= x < 64 {
            lemma_empty_node_bits(x as u64);
        }
    }
    assert(node_set(0) =~= Set::<int>::empty());
}

pub(crate) fn add_node(nodes: &mut u64, node: u8)
    requires
        node < 64,
    ensures
        node_set(*final(nodes)) == node_set(*old(nodes)).insert(node as int),
{
    proof {
        let b = *nodes;
        assert forall|i: int| #[trigger] node_set(b | (1u64 << node)).contains(i) == node_set(b).insert(
            node as int,
        ).contains(i) by {
            if 0 <= i < 64 {
                lemma_set_node_bit(b, node as u64, i as u64);
            }
        }
        assert(node_set(b | (1u64 << node)) =~= node_set(b).insert(node as int));
    }
    *nodes = *nodes | (1u64 << node);
}

pub(crate) fn used_node(nodes: u64, node: u8) -> (used: bool)
    requires
        node < 64,
    ensures
        used == node_set(nodes).contains(node as int),
{
    proof {
        lemma_test_node_bit(nodes, node as u64);
    }
    nodes & (1u64 << node) != 0
}

/// A settlement stands on node `t`.
pub open spec fn settled(s: StateView, t: int) -> bool {
    0 <= t < 54 && s.settlements[t] > 0
}

/// One step along a built road, from `u` to its neighbour `v`.
pub open spec fn road_step(s: StateView, board: &Board, u: int, v: int) -> bool {
    0 <= u < 54 && adjacent(board, u, v) && road_between(s, board, u, v)
}

/// `p` starts on a settlement and follows built roads.
pub open spec fn road_path(s: StateView, board: &Board, p: Seq<int>) -> bool {
    &&& p.len() >= 1
    &&& settled(s, p[0])
    &&& forall|i: int, j: int|
        #![trigger p[i], p[j]]
        0 <= i && j == i + 1 && j < p.len() ==> road_step(s, board, p[i], p[j])
}

/// Node `x` can be reached from a settlement along built roads.
pub open spec fn reached(s: StateView, board: &Board, x: int) -> bool {
    exists|p: Seq<int>| #[trigger] road_path(s, board, p) && p.last() == x
}

pub(crate) proof fn lemma_settled_reached(s: StateView, board: &Board, t: int)
    requires
        settled(s, t),
    ensures
        reached(s, board, t),
{
    let p = seq![t];
    assert(road_path(s, board, p));
}

pub(crate) proof fn lemma_reach_step(s: StateView, board: &Board, u: int, v: int)
    requires
        reached(s, board, u),
        road_step(s, board, u, v),
    ensures
        reached(s, board, v),
{
    let p = choose|p: Seq<int>| #[trigger] road_path(s, board, p) && p.last() == u;
    let q = p.push(v);
    assert forall|i: int, j: int| 0 <= i && j == i + 1 && j < q.len() implies road_step(s, board, q[i], q[j]) by {
        if j < p.len() {
            assert(q[i] == p[i] && q[j] == p[j]);
        }
    }
    assert(road_path(s, board, q));
}

/// Every road step from a node of `done` ends in `used`.
pub open spec fn closed_under_roads(s: StateView, board: &Board, done: Set<int>, used: Set<int>) -> bool {
    forall|u: int, v: int| done.contains(u) && #[trigger] road_step(s, board, u, v) ==> used.contains(v)
}

pub(crate) proof fn lemma_closed_holds_reached(s: StateView, board: &Board, used: Set<int>, x: int)
    requires
        closed_under_roads(s, board, used, used),
        forall|t: int| settled(s, t) ==> used.contains(t),
        reached(s, board, x),
    ensures
        used.contains(x),
{
    let p = choose|p: Seq<int>| #[trigger] road_path(s, board, p) && p.last() == x;
    lemma_closed_path_prefix(s, board, used, p, p.len() - 1);
}

proof fn lemma_closed_path_prefix(s: StateView, board: &Board, used: Set<int>, p: Seq<int>, k: int)
    requires
        closed_under_roads(s, board, used, used),
        forall|t: int| settled(s, t) ==> used.contains(t),
        road_path(s, board, p),
        0 <= k < p.len(),
    ensures
        used.contains(p[k]),
    decreases k,
{
    if k > 0 {
        lemma_closed_path_prefix(s, board, used, p, k - 1);
        assert(road_step(s, board, p[k - 1], p[k]));
    }
}

/// The four resources that a settlement costs are all at hand.
pub open spec fn settlement_affordable(s: StateView) -> bool {
    s.resources[0] >= 1 && s.resources[1] >= 1 && s.resources[2] >= 1 && s.resources[3] >= 1
}

/// A road leads from a settlement straight to `x`.
pub open spec fn road_from_settlement(s: StateView, board: &Board, x: int) -> bool {
    exists|t: int| settled(s, t) && #[trigger] road_step(s, board, t, x)
}

/// A building move that the road network allows: a settlement on a free spot
/// that the roads reach (and that the resources pay for, unless a road leads
/// to it straight from a settlement), or a road from a reached node to a
/// neighbour it is not yet joined to.
pub open spec fn network_move(s: StateView, board: &Board, m: Move) -> bool {
    match m {
        Move::BuildSettlement(x) => {
            &&& x < 54
            &&& reached(s, board, x as int)
            &&& spot_free(s, board, x as int)
            &&& settlement_affordable(s) || road_from_settlement(s, board, x as int)
        },
        Move::BuildRoad(u, v) => {
            &&& u < 54
            &&& reached(s, board, u as int)
            &&& adjacent(board, u as int, v as int)
            &&& !road_between(s, board, u as int, v as int)
        },
        _ => false,
    }
}

/// Whenever `v` is a neighbour of `u`, `u` is a neighbour of `v`.
pub open spec fn adjacency_symmetric(board: &Board) -> bool {
    forall|u: int, v: u16|
        0 <= u < 54 && #[trigger] board.graph.adj@[u].neighbours@.contains(v) ==> board.graph.adj@[v as int].neighbours@.contains(
            u as u16,
        )
}

/// No settlement move occurs twice.
pub open spec fn settlements_distinct(m: Seq<Move>) -> bool {
    forall|i: int, j: int|
        0 <= i < j < m.len() && (#[trigger] m[i]) is BuildSettlement ==> m[i] != #[trigger] m[j]
}

/// Every edge between neighbours has an id that `has_road` can test.
pub open spec fn edges_testable(board: &Board) -> bool {
    forall|u: int, v: u16|
        0 <= u < 54 && #[trigger] board.graph.adj@[u].neighbours@.contains(v) ==> board.edge_id[u][v as int]
            < 128 || board.edge_id[u][v as int] == 254
}

/// What a search of the road network reads exists: each node that the roads
/// reach has an entry in the adjacency, its neighbours are nodes of the board,
/// and each edge to them has an id that `has_road` can test.
pub open spec fn network_readable(s: StateView, board: &Board) -> bool {
    forall|u: int|
        #[trigger] reached(s, board, u) ==> {
            &&& u < board.graph.adj@.len()
            &&& forall|v: u16|
                #[trigger] board.graph.adj@[u].neighbours@.contains(v) ==> v < 54 && (board.edge_id[u][v as int]
                    < 128 || board.edge_id[u][v as int] == 254)
        }
}

pub(crate) proof fn lemma_prefix_push(a: Seq<Move>, b: Seq<Move>, m: Move)
    requires
        a.is_prefix_of(b),
    ensures
        a.is_prefix_of(b.push(m)),
{
    assert(b.push(m).subrange(0, a.len() as int) =~= b.subrange(0, a.len() as int));
}

/// Appending a move keeps every move listed before.
pub(crate) proof fn lemma_push_contains(m: Seq<Move>, x: Move)
    ensures
        forall|mv: Move| #[trigger] m.contains(mv) ==> m.push(x).contains(mv),
{
    assert forall|mv: Move| #[trigger] m.contains(mv) implies m.push(x).contains(mv) by {
        let w = choose|w: int| 0 <= w < m.len() && m[w] == mv;
        assert(m.push(x)[w] == mv);
    }
}

/// A reached node is a node of the board.
pub proof fn lemma_reached_in_range(s: StateView, board: &Board, x: int)
    requires
        reached(s, board, x),
    ensures
        0 <= x < 54,
{
    let p = choose|p: Seq<int>| #[trigger] road_path(s, board, p) && p.last() == x;
    if p.len() > 1 {
        assert(road_step(s, board, p[p.len() - 2], p[p.len() - 1]));
    }
}

/// `p` follows built roads from its first node.
pub open spec fn road_walk(s: StateView, board: &Board, p: Seq<int>) -> bool {
    &&& p.len() >= 1
    &&& forall|i: int, j: int|
        #![trigger p[i], p[j]]
        0 <= i && j == i + 1 && j < p.len() ==> road_step(s, board, p[i], p[j])
}

/// Built roads join node `a` to node `x`.
pub open spec fn joined(s: StateView, board: &Board, a: int, x: int) -> bool {
    exists|p: Seq<int>| #[trigger] road_walk(s, board, p) && p[0] == a && p.last() == x
}

pub(crate) proof fn lemma_joined_self(s: StateView, board: &Board, a: int)
    ensures
        joined(s, board, a, a),
{
    let p = seq![a];
    assert(road_walk(s, board, p));
}

pub(crate) proof fn lemma_joined_step(s: StateView, board: &Board, a: int, u: int, v: int)
    requires
        joined(s, board, a, u),
        road_step(s, board, u, v),
    ensures
        joined(s, board, a, v),
{
    let p = choose|p: Seq<int>| #[trigger] road_walk(s, board, p) && p[0] == a && p.last() == u;
    let q = p.push(v);
    assert forall|i: int, j: int| 0 <= i && j == i + 1 && j < q.len() implies road_step(s, board, q[i], q[j]) by {
        if j < p.len() {
            assert(q[i] == p[i] && q[j] == p[j]);
        }
    }
    assert(road_walk(s, board, q));
}

proof fn lemma_closed_walk_prefix(s: StateView, board: &Board, used: Set<int>, p: Seq<int>, k: int)
    requires
        closed_under_roads(s, board, used, used),
        road_walk(s, board, p),
        used.contains(p[0]),
        0 <= k < p.len(),
    ensures
        used.contains(p[k]),
    decreases k,
{
    if k > 0 {
        lemma_closed_walk_prefix(s, board, used, p, k - 1);
        assert(road_step(s, board, p[k - 1], p[k]));
    }
}

/// A node set closed under built roads holds every node joined to one of its nodes.
pub(crate) proof fn lemma_closed_holds_joined(s: StateView, board: &Board, used: Set<int>, a: int, x: int)
    requires
        closed_under_roads(s, board, used, used),
        used.contains(a),
        joined(s, board, a, x),
    ensures
        used.contains(x),
{
    let p = choose|p: Seq<int>| #[trigger] road_walk(s, board, p) && p[0] == a && p.last() == x;
    lemma_closed_walk_prefix(s, board, used, p, p.len() - 1);
}

/// Edge ids are the same in both directions between neighbours.
pub open spec fn edge_ids_symmetric(board: &Board) -> bool {
    forall|u: int, v: u16|
        0 <= u < 54 && #[trigger] board.graph.adj@[u].neighbours@.contains(v) ==> board.edge_id[u][v as int]
            == board.edge_id[v as int][u]
}

/// The adjacency and the edge ids are the same in both directions.
pub open spec fn board_symmetric(board: &Board) -> bool {
    adjacency_symmetric(board) && edge_ids_symmetric(board)
}

/// What a search reads at node `u` exists: `u` is a node of the board with an
/// entry in the adjacency, its neighbours are nodes of the board, and each
/// edge to them has an id that `has_road` can test.
pub open spec fn node_readable(board: &Board, u: int) -> bool {
    &&& 0 <= u < 54
    &&& u < board.graph.adj@.len()
    &&& forall|v: u16|
        #[trigger] board.graph.adj@[u].neighbours@.contains(v) ==> v < 54 && (board.edge_id[u][v as int] < 128
            || board.edge_id[u][v as int] == 254)
}

/// What a search from `root` reads exists: every node that built roads join
/// to `root` can be read.
pub open spec fn joined_readable(s: StateView, board: &Board, root: int) -> bool {
    forall|u: int| #[trigger] joined(s, board, root, u) ==> node_readable(board, u)
}

/// Built roads from a settlement lead to every node they join to it.
pub(crate) proof fn lemma_joined_from_settlement(s: StateView, board: &Board, t: int, x: int)
    requires
        settled(s, t),
        joined(s, board, t, x),
    ensures
        reached(s, board, x),
{
    let p = choose|p: Seq<int>| #[trigger] road_walk(s, board, p) && p[0] == t && p.last() == x;
    assert(road_path(s, board, p));
}

/// Where the network is readable, so is the part joined to a settlement.
pub(crate) proof fn lemma_settlement_readable(s: StateView, board: &Board, t: int)
    requires
        network_readable(s, board),
        settled(s, t),
    ensures
        joined_readable(s, board, t),
{
    assert forall|u: int| #[trigger] joined(s, board, t, u) implies node_readable(board, u) by {
        lemma_joined_from_settlement(s, board, t, u);
        lemma_reached_in_range(s, board, u);
    }
}

/// No road move occurs twice, in either direction.
pub open spec fn roads_distinct(m: Seq<Move>) -> bool {
    forall|i: int, j: int|
        0 <= i < j < m.len() ==> ((#[trigger] m[i]) matches Move::BuildRoad(a, b) ==> #[trigger] m[j]
            != Move::BuildRoad(a, b) && m[j] != Move::BuildRoad(b, a))
}

/// Every road move leads out of a node of `from`, and none occurs twice.
pub open spec fn roads_tracked(m: Seq<Move>, from: Set<int>) -> bool {
    &&& forall|k: int|
        0 <= k < m.len() ==> ((#[trigger] m[k]) matches Move::BuildRoad(a, b) ==> from.contains(a as int))
    &&& roads_distinct(m)
}

/// What holds of the building moves found so far, of the marked nodes `used`
/// and of the nodes `done` whose neighbours have all been looked at.
pub open spec fn search_inv(
    s: StateView,
    board: &Board,
    m: Seq<Move>,
    used: Set<int>,
    done: Set<int>,
) -> bool {
    &&& forall|k: int| 0 <= k < m.len() ==> network_move(s, board, #[trigger] m[k])
    &&& forall|k: int|
        0 <= k < m.len() ==> ((#[trigger] m[k]) matches Move::BuildSettlement(x) ==> used.contains(
            x as int,
        ))
    &&& forall|x: u8|
        x < 54 && #[trigger] used.contains(x as int) && spot_free(s, board, x as int) && settlement_affordable(s)
            ==> m.contains(Move::BuildSettlement(x))
    &&& board_symmetric(board) ==> forall|u: u8, v: u8|
        #![trigger done.contains(u as int), adjacent(board, u as int, v as int)]
        done.contains(u as int) && adjacent(board, u as int, v as int) && !road_between(
            s,
            board,
            u as int,
            v as int,
        ) ==> m.contains(Move::BuildRoad(u, v)) || m.contains(Move::BuildRoad(v, u))
    &&& forall|x: int| #[trigger] used.contains(x) ==> 0 <= x < 54 && reached(s, board, x)
    &&& adjacency_symmetric(board) ==> settlements_distinct(m)
}

/// Every queued node is a marked node of the board.
pub open spec fn queue_marked(q: Seq<u8>, used: Set<int>) -> bool {
    forall|j: int| 0 <= j < q.len() ==> #[trigger] q[j] < 54 && used.contains(q[j] as int)
}

/// Every queued node is joined to `root` by built roads.
pub open spec fn queue_joined(s: StateView, board: &Board, root: int, q: Seq<u8>) -> bool {
    forall|j: int| 0 <= j < q.len() ==> joined(s, board, root, #[trigger] q[j] as int)
}

/// Every marked node is done or waits in the queue (or is `top`).
pub open spec fn marked_covered(used: Set<int>, done: Set<int>, q: Seq<u8>, top: int) -> bool {
    forall|x: int| #[trigger] used.contains(x) ==> done.contains(x) || x == top || q.contains(x as u8)
}

/// What the visit of `top` has established after its first `k` neighbours in
/// `nb`: the search invariant, the road moves tracked with `top` counted among
/// the done nodes, road moves out of `top` only toward the neighbours looked
/// at, and on a symmetric board a road move each way between `top` and each
/// of those neighbours that no road joins to it.
pub open spec fn visit_progress(
    s: StateView,
    board: &Board,
    m: Seq<Move>,
    used: Set<int>,
    done: Set<int>,
    top: int,
    nb: Seq<u16>,
    k: int,
) -> bool {
    &&& search_inv(s, board, m, used, done)
    &&& roads_tracked(m, done.insert(top))
    &&& forall|kk: int|
        0 <= kk < m.len() ==> ((#[trigger] m[kk]) matches Move::BuildRoad(a, b) ==> a as int == top ==> nb.take(
            k,
        ).contains(b as u16))
    &&& board_symmetric(board) ==> forall|j: int|
        0 <= j < k ==> (adjacent(board, top, #[trigger] nb[j] as int) && !road_between(s, board, top, nb[j] as int)
            ==> m.contains(Move::BuildRoad(top as u8, nb[j] as u8)) || m.contains(
            Move::BuildRoad(nb[j] as u8, top as u8),
        ))
    &&& reached(s, board, top)
    &&& !done.contains(top)
}

/// A node set is finite, with at most 64 nodes.
pub(crate) proof fn lemma_node_set_finite(b: u64)
    ensures
        node_set(b).finite(),
        node_set(b).len() <= 64,
{
    vstd::set_lib::lemma_int_range(0, 64);
    assert(node_set(b).subset_of(vstd::set_lib::set_int_range(0, 64)));
    vstd::set_lib::lemma_len_subset(node_set(b), vstd::set_lib::set_int_range(0, 64));
}

pub(crate) proof fn lemma_seen_all(
    s: StateView,
    board: &Board,
    m: Seq<Move>,
    used: Set<int>,
    done: Set<int>,
    top: int,
    nb: Seq<u16>,
)
    requires
        0 <= top < 54,
        nb.to_set() == board.graph.adj@[top].neighbours@,
        visit_progress(s, board, m, used, done, top, nb, nb.len() as int),
    ensures
        search_inv(s, board, m, used, done.insert(top)),
        roads_tracked(m, done.insert(top)),
{
    let d2 = done.insert(top);
    if board_symmetric(board) {
        assert forall|u: u8, v: u8|
            #![trigger d2.contains(u as int), adjacent(board, u as int, v as int)]
            d2.contains(u as int) && adjacent(board, u as int, v as int) && !road_between(
                s,
                board,
                u as int,
                v as int,
            ) implies m.contains(Move::BuildRoad(u, v)) || m.contains(Move::BuildRoad(v, u)) by {
            if u as int == top && !done.contains(u as int) {
                assert(nb.to_set().contains(v as u16));
                let j = choose|j: int| 0 <= j < nb.len() && nb[j] == v as u16;
                assert(adjacent(board, top, nb[j] as int));
            }
        }
    }
}

} // verus!
