//! The game: the board, the moves, the changing state with move application
//! and move generation, random playouts, and the search tree.

use vstd::prelude::*;
use crate::fifo::{queue_add, queue_contents, queue_new, queue_peek, queue_remove, queue_size};
use crate::network::{
    add_node, adjacency_symmetric, edges_testable, lemma_closed_holds_reached, network_readable,
    lemma_empty_node_set, lemma_node_set_finite, lemma_reach_step, lemma_seen_all,
    lemma_settled_reached, marked_covered, node_set, queue_marked, reached, node_readable,
    joined_readable, queue_joined, visit_progress, roads_tracked, board_symmetric, lemma_settlement_readable,
    road_from_settlement, road_step, search_inv, settled, settlement_affordable, used_node,
    lemma_prefix_push, lemma_push_contains, joined, lemma_joined_self, lemma_joined_step, lemma_closed_holds_joined,
    closed_under_roads, lemma_reached_in_range, network_move,
};
use crate::reader::{Convertor, Graph};
use crate::rng::random_below;
use crate::rules::{
    adjacent, after_move, bank_moves, can_apply, city_moves, edge_between, game_over,
    generation_defined, harvest, initial_state, legal_moves, lemma_harvest_prefix,
    lemma_road_insert, lemma_test_bit, lemma_zero_bits, levels_checkable, nodes_in_range, spot_readable,
    normal_tail, port_moves, ports_ok, road_between, road_set, settlement_paid, setup_road_moves,
    spot_free, trades_from, upgrade_moves, zone_of_turn, zone_ok,
};
use queues::Queue;

verus! {

/// The index of each resource among the five resource counts.
pub const ENERGY: usize = 0;
pub const WATER: usize = 1;
pub const DATA: usize = 2;
pub const RAM: usize = 3;
pub const GPU: usize = 4;

/// A move of the game.
#[derive(Clone, Copy, PartialEq, Eq, Structural, Debug)]
pub enum Move {
    BuildSettlement(u8),
    UpgradeSettlement(u8),
    BuildRoad(u8, u8),
    EndTurn,
    /// Give `.0` cards of resource `.1` for one card of resource `.2`.
    Trade(u8, u8, u8),
}

/// The weight of a move when a playout picks one at random.
pub open spec fn move_weight(m: Move) -> nat {
    match m {
        Move::UpgradeSettlement(_) => 100,
        Move::BuildSettlement(_) => 95,
        Move::BuildRoad(_, _) => 30,
        Move::EndTurn => 10,
        Move::Trade(_, _, _) => 0,
    }
}

/// The total weight of `moves`, or `None` where it does not fit in a `u32`.
pub fn total_weight(moves: &Vec<Move>) -> (total: Option<u32>)
    ensures
        total matches Some(t) ==> t == weight_sum(moves@),
        total is None <==> weight_sum(moves@) > u32::MAX,
{
    let mut total: u32 = 0;
    let mut k: usize = 0;
    while k < moves.len()
        invariant
            0 <= k <= moves@.len(),
            total == weight_sum(moves@.take(k as int)),
        decreases moves.len() - k,
    {
        proof {
            lemma_weight_sum_take(moves@, k as int);
        }
        let w = moves[k].weight();
        if total > u32::MAX - w {
            proof {
                lemma_prefix_weight_bound(moves@, k + 1);
            }
            return None;
        }
        total = total + w;
        k += 1;
    }
    assert(moves@.take(k as int) =~= moves@);
    Some(total)
}

proof fn lemma_prefix_weight_bound(ms: Seq<Move>, k: int)
    requires
        0 <= k <= ms.len(),
    ensures
        weight_sum(ms.take(k)) <= weight_sum(ms),
    decreases ms.len(),
{
    if k == ms.len() {
        assert(ms.take(k) =~= ms);
    } else {
        assert(ms.drop_last().take(k) =~= ms.take(k));
        lemma_prefix_weight_bound(ms.drop_last(), k);
    }
}

/// Selects a move by weight with the random number `rand_val` (see
/// `weighted_pick`); the first move is the fallback.
pub fn pick_move(moves: &Vec<Move>, rand_val: u32) -> (chosen: Move)
    requires
        moves@.len() > 0,
    ensures
        chosen == weighted_pick(moves@, rand_val as int, moves@[0]),
{
    let mut rest = rand_val;
    let mut chosen_move = moves[0];
    let ghost r0 = rand_val as int;
    let mut k: usize = 0;
    assert(moves@.skip(0) =~= moves@);
    while k < moves.len()
        invariant
            0 <= k <= moves@.len(),
            moves@.len() > 0,
            chosen_move == moves@[0],
            r0 == rand_val as int,
            weighted_pick(moves@, r0, moves@[0]) == weighted_pick(moves@.skip(k as int), rest as int, moves@[0]),
        decreases moves.len() - k,
    {
        let current_move = moves[k];
        let move_weight = current_move.weight();
        assert(moves@.skip(k as int)[0] == current_move);
        if rest < move_weight {
            assert(weighted_pick(moves@.skip(k as int), rest as int, moves@[0]) == current_move);
            chosen_move = current_move;
            return chosen_move;
        }
        assert(moves@.skip(k as int).drop_first() =~= moves@.skip(k + 1));
        rest -= move_weight;
        k += 1;
    }
    assert(moves@.skip(k as int).len() == 0);
    chosen_move
}

impl Move {
    pub fn weight(&self) -> (w: u32)
        ensures
            w == move_weight(*self),
    {
        match self {
            Move::UpgradeSettlement(_) => 100,
            Move::BuildSettlement(_) => 95,
            Move::BuildRoad(_, _) => 30,
            Move::EndTurn => 10,
            Move::Trade(_, _, _) => 0,
        }
    }
}

/// The sum of the weights of `ms`.
pub open spec fn weight_sum(ms: Seq<Move>) -> nat
    decreases ms.len(),
{
    if ms.len() == 0 {
        0
    } else {
        weight_sum(ms.drop_last()) + move_weight(ms.last())
    }
}

/// The move that a random number `r` below the total weight selects: walking
/// the moves in order, the first one whose weight exceeds what is left of `r`;
/// `fallback` if `r` outlasts them all.
pub open spec fn weighted_pick(ms: Seq<Move>, r: int, fallback: Move) -> Move
    decreases ms.len(),
{
    if ms.len() == 0 {
        fallback
    } else if r < move_weight(ms[0]) {
        ms[0]
    } else {
        weighted_pick(ms.drop_first(), r - move_weight(ms[0]), fallback)
    }
}

proof fn lemma_weight_sum_front(ms: Seq<Move>)
    requires
        ms.len() > 0,
    ensures
        weight_sum(ms) == move_weight(ms[0]) + weight_sum(ms.drop_first()),
    decreases ms.len(),
{
    if ms.len() > 1 {
        lemma_weight_sum_front(ms.drop_last());
        assert(ms.drop_last().drop_first() =~= ms.drop_first().drop_last());
        assert(ms.drop_first().last() == ms.last());
        assert(weight_sum(ms.drop_first()) == weight_sum(ms.drop_first().drop_last()) + move_weight(
            ms.drop_first().last(),
        ));
    } else {
        assert(ms.drop_first().len() == 0);
        assert(ms.drop_last().len() == 0);
        assert(weight_sum(ms.drop_last()) == 0);
        assert(weight_sum(ms.drop_first()) == 0);
    }
}

proof fn lemma_weight_sum_take(ms: Seq<Move>, k: int)
    requires
        0 <= k < ms.len(),
    ensures
        weight_sum(ms.take(k + 1)) == weight_sum(ms.take(k)) + move_weight(ms[k]),
{
    assert(ms.take(k + 1).drop_last() =~= ms.take(k));
}

proof fn lemma_weight_sum_bound(ms: Seq<Move>, k: int)
    requires
        0 <= k < ms.len(),
    ensures
        move_weight(ms[k]) <= weight_sum(ms),
    decreases ms.len(),
{
    if k < ms.len() - 1 {
        lemma_weight_sum_bound(ms.drop_last(), k);
    }
}

/// A number below the total weight selects one of the moves, and one of
/// positive weight.
pub proof fn lemma_pick_positive(ms: Seq<Move>, r: int, fallback: Move)
    requires
        0 <= r < weight_sum(ms),
    ensures
        ms.contains(weighted_pick(ms, r, fallback)),
        move_weight(weighted_pick(ms, r, fallback)) > 0,
    decreases ms.len(),
{
    lemma_weight_sum_front(ms);
    if r < move_weight(ms[0]) {
        assert(ms[0] == weighted_pick(ms, r, fallback));
    } else {
        lemma_pick_positive(ms.drop_first(), r - move_weight(ms[0]), fallback);
        let m = weighted_pick(ms.drop_first(), r - move_weight(ms[0]), fallback);
        let j = choose|j: int| 0 <= j < ms.drop_first().len() && ms.drop_first()[j] == m;
        assert(ms[j + 1] == m);
    }
}

/// The static part of a game: the board graph, the ports, the id of the edge
/// between two nodes and the dice roll of each turn. `number_edges` leaves 255
/// between nodes that are not joined; `has_road` reads 254 as "no edge".
pub struct Board {
    pub graph: Graph,
    pub convertors: Vec<Convertor>,
    pub edge_id: [[u8; 54]; 54],
    pub turns: Vec<u8>,
}

#[derive(Clone, Copy, PartialEq, Eq, Structural, Debug)]
pub enum GamePhase {
    SetupCity1,
    SetupRoad1(u8),
    SetupCity2,
    SetupRoad2(u8),
    NormalState,
}

/// The changing part of a game.
#[derive(Clone, Copy)]
pub struct DynamicState {
    turn_number: u8,
    points: u16,
    resources: [u8; 5],
    settlements: [u8; 54],
    pub phase: GamePhase,
    built_roads: u128,
}

/// What a `DynamicState` holds: the turn, the score, the five resource
/// counts, the level of the settlement on each node (0: none), the phase,
/// and the set of edge ids that carry a road.
#[verifier::ext_equal]
pub struct StateView {
    pub turn_number: u8,
    pub points: u16,
    pub resources: Seq<u8>,
    pub settlements: Seq<u8>,
    pub phase: GamePhase,
    pub roads: Set<int>,
}

/// The board has what move generation and playouts look at: 54 nodes with
/// neighbours among them, an id for each edge between neighbours, and ports
/// that name resources.
pub open spec fn board_ready(board: &Board) -> bool {
    &&& nodes_in_range(board)
    &&& edges_testable(board)
    &&& ports_ok(board)
}

/// What a playout from `s` reads exists, unless the game is over and it
/// reads nothing.
pub open spec fn playout_ready(s: StateView, board: &Board) -> bool {
    !game_over(s, board) ==> board_ready(board) && phase_in_range(s)
}

/// A setup road phase names a node of the board.
pub open spec fn phase_in_range(s: StateView) -> bool {
    match s.phase {
        GamePhase::SetupRoad1(x) | GamePhase::SetupRoad2(x) => x < 54,
        _ => true,
    }
}

/// How far a phase is from the normal turns.
pub open spec fn phase_rank(p: GamePhase) -> int {
    match p {
        GamePhase::SetupCity1 => 4,
        GamePhase::SetupRoad1(_) => 3,
        GamePhase::SetupCity2 => 2,
        GamePhase::SetupRoad2(_) => 1,
        GamePhase::NormalState => 0,
    }
}

/// The number of resource cards held.
pub open spec fn resource_sum(r: Seq<u8>) -> int {
    r[0] + r[1] + r[2] + r[3] + r[4]
}

proof fn lemma_city_moves_shape(s: StateView, board: &Board, n: int)
    ensures
        forall|k: int| 0 <= k < city_moves(s, board, n).len() ==> (#[trigger] city_moves(s, board, n)[k]) is BuildSettlement,
    decreases n,
{
    if n > 0 {
        lemma_city_moves_shape(s, board, n - 1);
    }
}

impl View for DynamicState {
    type V = StateView;

    closed spec fn view(&self) -> StateView {
        StateView {
            turn_number: self.turn_number,
            points: self.points,
            resources: self.resources@,
            settlements: self.settlements@,
            phase: self.phase,
            roads: road_set(self.built_roads),
        }
    }
}

/// The shape of every state: five resource counts, 54 nodes, edge ids below 128.
pub open spec fn state_shape(s: StateView) -> bool {
    &&& s.resources.len() == 5
    &&& s.settlements.len() == 54
    &&& forall|e: int| #[trigger] s.roads.contains(e) ==> 0 <= e < 128
}

impl DynamicState {
    /// Every state has the shape that `state_shape` describes.
    pub proof fn lemma_shape(&self)
        ensures
            state_shape(self@),
    {
    }

    pub fn new() -> (s: Self)
        ensures
            s@ == initial_state(),
    {
        let s = Self {
            turn_number: 0,
            points: 0,
            resources: [0; 5],
            settlements: [0; 54],
            phase: GamePhase::SetupCity1,
            built_roads: 0,
        };
        proof {
            assert forall|e: int| #[trigger] road_set(0).contains(e) == Set::<int>::empty().contains(e) by {
                if 0 <= e < 128 {
                    lemma_zero_bits(e as u128);
                }
            }
            assert(road_set(0) =~= Set::<int>::empty());
            assert(s@.resources =~= initial_state().resources);
            assert(s@.settlements =~= initial_state().settlements);
        }
        s
    }

    pub fn get_points(&self) -> (p: u16)
        ensures
            p == self@.points,
    {
        self.points
    }

    pub fn is_game_over(&self, board: &Board) -> (over: bool)
        ensures
            over == game_over(self@, board),
    {
        (self.turn_number as usize) >= board.turns.len()
    }

    pub fn valid_settlement_spot(&self, board: &Board, start: u8) -> (ok: bool)
        requires
            spot_readable(self@, board, start as int),
        ensures
            ok == spot_free(self@, board, start as int),
    {
        if self.settlements[start as usize] > 0 {
            return false;
        }
        let neighbours = board.graph.adj[start as usize].neighbour_list();
        let mut k: usize = 0;
        while k < neighbours.len()
            invariant
                0 <= k <= neighbours@.len(),
                spot_readable(self@, board, start as int),
                self@.settlements[start as int] == 0,
                neighbours@.to_set() == board.graph.adj@[start as int].neighbours@,
                forall|j: int| 0 <= j < k ==> self@.settlements[neighbours@[j] as int] == 0,
            decreases neighbours.len() - k,
        {
            let neigh = neighbours[k];
            assert(neighbours@.to_set().contains(neigh));
            if self.settlements[neigh as usize] > 0 {
                return false;
            }
            k += 1;
        }
        proof {
            assert forall|n: u16| #[trigger] board.graph.adj@[start as int].neighbours@.contains(n) implies self@.settlements[n as int] == 0 by {
                assert(neighbours@.to_set().contains(n));
                let j = choose|j: int| 0 <= j < neighbours@.len() && neighbours@[j] == n;
            }
        }
        true
    }

    fn push_city_moves(&self, board: &Board, moves: &mut Vec<Move>)
        requires
            forall|i: int| 0 <= i < 54 ==> #[trigger] spot_readable(self@, board, i),
        ensures
            final(moves)@ == old(moves)@ + city_moves(self@, board, 54),
    {
        let ghost pre = moves@;
        for i in 0..54usize
            invariant
                forall|i: int| 0 <= i < 54 ==> #[trigger] spot_readable(self@, board, i),
                moves@ == pre + city_moves(self@, board, i as int),
        {
            if self.settlements[i] == 0 {
                assert(spot_readable(self@, board, i as int));
                if self.valid_settlement_spot(board, i as u8) {
                    moves.push(Move::BuildSettlement(i as u8));
                }
            }
            assert(moves@ =~= pre + city_moves(self@, board, i + 1));
        }
    }

    fn push_upgrade_moves(&self, moves: &mut Vec<Move>)
        requires
            levels_checkable(self@),
        ensures
            final(moves)@ == old(moves)@ + upgrade_moves(self@, 54),
    {
        let ghost pre = moves@;
        for i in 0..54usize
            invariant
                levels_checkable(self@),
                moves@ == pre + upgrade_moves(self@, i as int),
        {
            let lvl = self.settlements[i];
            assert(self@.settlements[i as int] == lvl);
            if lvl >= 1 {
                if self.resources[RAM] >= lvl + 1 && self.resources[GPU] >= lvl + 2 {
                    moves.push(Move::UpgradeSettlement(i as u8));
                }
            }
            assert(moves@ =~= pre + upgrade_moves(self@, i + 1));
        }
    }

    fn push_trades(x: u8, y: u8, moves: &mut Vec<Move>)
        ensures
            final(moves)@ == old(moves)@ + trades_from(x, y, 5),
    {
        let ghost pre = moves@;
        for j in 0..5u8
            invariant
                moves@ == pre + trades_from(x, y, j as int),
        {
            if j != y {
                moves.push(Move::Trade(x, y, j));
            }
            assert(moves@ =~= pre + trades_from(x, y, j + 1));
        }
    }

    fn push_trade_moves(&self, board: &Board, moves: &mut Vec<Move>)
        requires
            ports_ok(board),
        ensures
            final(moves)@ == old(moves)@ + port_moves(self@, board.convertors@, board.convertors@.len() as int)
                + bank_moves(self@, 5),
    {
        let ghost pre = moves@;
        let mut k: usize = 0;
        while k < board.convertors.len()
            invariant
                0 <= k <= board.convertors@.len(),
                ports_ok(board),
                moves@ == pre + port_moves(self@, board.convertors@, k as int),
            decreases board.convertors.len() - k,
        {
            let c = &board.convertors[k];
            assert(c.resource < 5);
            let needed_resource: u8 = if c.conv_type { 3 } else { 2 };
            if self.resources[c.resource as usize] >= needed_resource {
                Self::push_trades(needed_resource, c.resource, moves);
            }
            assert(moves@ =~= pre + port_moves(self@, board.convertors@, k + 1));
            k += 1;
        }
        let ghost mid = moves@;
        for i in 0..5usize
            invariant
                moves@ == mid + bank_moves(self@, i as int),
        {
            if self.resources[i] >= 4 {
                Self::push_trades(4, i as u8, moves);
            }
            assert(moves@ =~= mid + bank_moves(self@, i + 1));
        }
        assert(moves@ =~= pre + port_moves(self@, board.convertors@, board.convertors@.len() as int)
            + bank_moves(self@, 5));
    }

    /// Looks at every neighbour `i` of `top`, a node that built roads join to
    /// `root`. Across a road to an unmarked `i` (to any `i` when `top` is the
    /// search root, `at_root`), marks and queues `i` and lists a settlement on
    /// it where the spot is free (away from the root, only where the resources
    /// pay for it). Without a road, lists a road to `i` unless `i` is done
    /// (`done_nodes`): the road from a done node was listed when it was visited.
    fn visit_neighbours(
        &self,
        board: &Board,
        top: u8,
        at_root: bool,
        q: &mut Queue<u8>,
        used_nodes: &mut u64,
        done_nodes: u64,
        moves: &mut Vec<Move>,
        Ghost(root): Ghost<int>,
    )
        requires
            joined_readable(self@, board, root),
            joined(self@, board, root, top as int),
            node_set(*old(used_nodes)).contains(top as int),
            queue_marked(queue_contents(*old(q)), node_set(*old(used_nodes))),
            queue_joined(self@, board, root, queue_contents(*old(q))),
            marked_covered(node_set(*old(used_nodes)), node_set(done_nodes), queue_contents(*old(q)), top as int),
            closed_under_roads(self@, board, node_set(done_nodes), node_set(*old(used_nodes))),
            node_set(done_nodes).subset_of(node_set(*old(used_nodes))),
        ensures
            queue_marked(queue_contents(*final(q)), node_set(*final(used_nodes))),
            queue_joined(self@, board, root, queue_contents(*final(q))),
            marked_covered(
                node_set(*final(used_nodes)),
                node_set(done_nodes).insert(top as int),
                queue_contents(*final(q)),
                top as int,
            ),
            closed_under_roads(self@, board, node_set(done_nodes).insert(top as int), node_set(*final(used_nodes))),
            node_set(*old(used_nodes)).subset_of(node_set(*final(used_nodes))),
            forall|x: int|
                #[trigger] node_set(*final(used_nodes)).contains(x) && !node_set(*old(used_nodes)).contains(x)
                    ==> road_step(self@, board, top as int, x),
            !at_root ==> queue_contents(*final(q)).len() - queue_contents(*old(q)).len() == node_set(
                *final(used_nodes),
            ).len() - node_set(*old(used_nodes)).len(),
            old(moves)@.is_prefix_of(final(moves)@),
            search_inv(self@, board, old(moves)@, node_set(*old(used_nodes)), node_set(done_nodes)) && roads_tracked(
                old(moves)@,
                node_set(done_nodes),
            ) && !node_set(done_nodes).contains(top as int) && (at_root ==> settled(self@, top as int)) ==> {
                &&& search_inv(
                    self@,
                    board,
                    final(moves)@,
                    node_set(*final(used_nodes)),
                    node_set(done_nodes).insert(top as int),
                )
                &&& roads_tracked(final(moves)@, node_set(done_nodes).insert(top as int))
            },
    {
        let ghost used0 = node_set(*used_nodes);
        let ghost q0 = queue_contents(*q);
        let ghost m_in = moves@;
        let ghost done = node_set(done_nodes);
        let ghost inv = search_inv(self@, board, m_in, used0, done) && roads_tracked(m_in, done) && !done.contains(
            top as int,
        ) && (at_root ==> settled(self@, top as int));
        proof {
            lemma_node_set_finite(*used_nodes);
            assert(node_readable(board, top as int));
        }
        let neighbours = board.graph.adj[top as usize].neighbour_list();
        proof {
            if inv {
                assert(reached(self@, board, top as int));
                assert forall|kk: int|
                    0 <= kk < m_in.len() implies ((#[trigger] m_in[kk]) matches Move::BuildRoad(a, b) ==> a as int
                        == top as int ==> neighbours@.take(0).contains(b as u16)) by {
                    if let Move::BuildRoad(a, b) = m_in[kk] {
                        assert(done.contains(a as int));
                    }
                }
            }
        }
        let mut k: usize = 0;
        while k < neighbours.len()
            invariant
                0 <= k <= neighbours@.len(),
                neighbours@.to_set() == board.graph.adj@[top as int].neighbours@,
                neighbours@.no_duplicates(),
                joined_readable(self@, board, root),
                joined(self@, board, root, top as int),
                node_readable(board, top as int),
                done == node_set(done_nodes),
                node_set(*used_nodes).contains(top as int),
                queue_marked(queue_contents(*q), node_set(*used_nodes)),
                queue_joined(self@, board, root, queue_contents(*q)),
                marked_covered(node_set(*used_nodes), done, queue_contents(*q), top as int),
                closed_under_roads(self@, board, done, node_set(*used_nodes)),
                done.subset_of(node_set(*used_nodes)),
                used0.subset_of(node_set(*used_nodes)),
                used0.finite(),
                forall|x: int|
                    #[trigger] node_set(*used_nodes).contains(x) && !used0.contains(x) ==> road_step(
                        self@,
                        board,
                        top as int,
                        x,
                    ),
                !at_root ==> queue_contents(*q).len() - q0.len() == node_set(*used_nodes).len() - used0.len(),
                m_in.is_prefix_of(moves@),
                forall|j: int|
                    0 <= j < k ==> road_step(self@, board, top as int, #[trigger] neighbours@[j] as int)
                        ==> node_set(*used_nodes).contains(neighbours@[j] as int),
                inv ==> visit_progress(self@, board, moves@, node_set(*used_nodes), done, top as int, neighbours@, k as int),
                inv ==> (at_root ==> settled(self@, top as int)),
            decreases neighbours.len() - k,
        {
            let i = neighbours[k];
            assert(neighbours@.to_set().contains(i));
            assert(board.graph.adj@[top as int].neighbours@.contains(i));
            assert(adjacent(board, top as int, i as int));
            let ghost m0 = moves@;
            let ghost u0 = node_set(*used_nodes);
            let ghost qk = queue_contents(*q);
            proof {
                lemma_node_set_finite(*used_nodes);
                assert(neighbours@.take(k + 1) =~= neighbours@.take(k as int).push(i));
            }
            let road = self.has_road(top, i as u8, board);
            if road && (at_root || !used_node(*used_nodes, i as u8)) {
                queue_add(q, i as u8).unwrap();
                add_node(used_nodes, i as u8);
                proof {
                    assert(road_step(self@, board, top as int, i as int));
                    lemma_joined_step(self@, board, root, top as int, i as int);
                    assert(node_readable(board, i as int));
                    assert(spot_readable(self@, board, i as int));
                    if inv {
                        lemma_reach_step(self@, board, top as int, i as int);
                    }
                }
                if self.valid_settlement_spot(board, i as u8) && (at_root || (self.resources[DATA] >= 1
                    && self.resources[RAM] >= 1 && self.resources[ENERGY] >= 1 && self.resources[WATER] >= 1)) {
                    moves.push(Move::BuildSettlement(i as u8));
                    proof {
                        lemma_prefix_push(m_in, m0, Move::BuildSettlement(i as u8));
                        lemma_push_contains(m0, Move::BuildSettlement(i as u8));
                    }
                }
                proof {
                    let u1 = node_set(*used_nodes);
                    let m1 = moves@;
                    let q1 = queue_contents(*q);
                    assert(u1 == u0.insert(i as int));
                    assert(q1 == qk.push(i as u8));
                    assert forall|kk: int| 0 <= kk < m0.len() implies m1[kk] == m0[kk] by {}
                    assert forall|x: int| #[trigger] u1.contains(x) implies done.contains(x) || x == top as int
                        || q1.contains(x as u8) by {
                        if x == i as int {
                            assert(q1[qk.len() as int] == i as u8);
                        } else if !done.contains(x) && x != top as int {
                            assert(qk.contains(x as u8));
                            let w = choose|w: int| 0 <= w < qk.len() && qk[w] == x as u8;
                            assert(q1[w] == x as u8);
                        }
                    }
                    assert forall|j: int| 0 <= j < q1.len() implies #[trigger] q1[j] < 54 && u1.contains(
                        q1[j] as int,
                    ) by {
                        if j < qk.len() {
                            assert(q1[j] == qk[j]);
                        }
                    }
                    assert forall|j: int| 0 <= j < q1.len() implies joined(self@, board, root, #[trigger] q1[j] as int) by {
                        if j < qk.len() {
                            assert(q1[j] == qk[j]);
                        }
                    }
                    if !at_root {
                        assert(!u0.contains(i as int));
                    }
                    if inv {
                        assert forall|x: int| #[trigger] u1.contains(x) implies 0 <= x < 54 && reached(self@, board, x) by {
                            if x != i as int {
                                assert(u0.contains(x));
                            }
                        }
                        assert forall|x: u8|
                            x < 54 && #[trigger] u1.contains(x as int) && spot_free(self@, board, x as int)
                                && settlement_affordable(self@) implies m1.contains(Move::BuildSettlement(x)) by {
                            if x as int != i as int || (u0.contains(x as int) && !at_root) {
                                assert(m0.contains(Move::BuildSettlement(x)));
                            } else {
                                assert(m1[m1.len() - 1] == Move::BuildSettlement(x));
                            }
                        }
                        if m1.len() > m0.len() {
                            assert(m1[m0.len() as int] == Move::BuildSettlement(i as u8));
                            if at_root {
                                assert(road_from_settlement(self@, board, i as int));
                            }
                            assert(network_move(self@, board, m1[m0.len() as int]));
                        }
                        assert forall|kk: int| 0 <= kk < m1.len() implies network_move(self@, board, #[trigger] m1[kk]) by {
                            if kk < m0.len() {
                                assert(m0[kk] == m1[kk]);
                            }
                        }
                        if adjacency_symmetric(board) {
                            if at_root && m1.len() > m0.len() {
                                assert(board.graph.adj@[i as int].neighbours@.contains(top as u16));
                                assert(false);
                            }
                            assert forall|a: int, b: int|
                                0 <= a < b < m1.len() && (#[trigger] m1[a]) is BuildSettlement implies m1[a]
                                    != #[trigger] m1[b] by {
                                if b == m0.len() {
                                    assert(m0[a] matches Move::BuildSettlement(x) ==> u0.contains(x as int));
                                }
                            }
                        }
                        assert forall|a: int, b: int|
                            0 <= a < b < m1.len() implies ((#[trigger] m1[a]) matches Move::BuildRoad(x, y)
                                ==> #[trigger] m1[b] != Move::BuildRoad(x, y) && m1[b] != Move::BuildRoad(y, x)) by {
                            if b < m0.len() {
                                assert(m0[a] == m1[a] && m0[b] == m1[b]);
                            }
                        }
                        assert forall|kk: int|
                            0 <= kk < m1.len() implies ((#[trigger] m1[kk]) matches Move::BuildRoad(a, b) ==> a as int
                                == top as int ==> neighbours@.take(k + 1).contains(b as u16)) by {
                            if kk < m0.len() {
                                assert(m0[kk] == m1[kk]);
                                if let Move::BuildRoad(a, b) = m1[kk] {
                                    if a as int == top as int {
                                        assert(neighbours@.take(k as int).contains(b as u16));
                                        let w = choose|w: int|
                                            0 <= w < k && neighbours@.take(k as int)[w] == b as u16;
                                        assert(neighbours@.take(k + 1)[w] == b as u16);
                                    }
                                }
                            }
                        }
                    }
                }
            } else if !road && !used_node(done_nodes, i as u8) {
                moves.push(Move::BuildRoad(top, i as u8));
                proof {
                    lemma_prefix_push(m_in, m0, Move::BuildRoad(top, i as u8));
                    lemma_push_contains(m0, Move::BuildRoad(top, i as u8));
                    let m1 = moves@;
                    assert forall|kk: int| 0 <= kk < m0.len() implies m1[kk] == m0[kk] by {}
                    assert(m1[m1.len() - 1] == Move::BuildRoad(top, i as u8));
                    if inv {
                        assert(network_move(self@, board, Move::BuildRoad(top, i as u8)));
                        assert forall|a: int, b: int|
                            0 <= a < b < m1.len() implies ((#[trigger] m1[a]) matches Move::BuildRoad(x, y)
                                ==> #[trigger] m1[b] != Move::BuildRoad(x, y) && m1[b] != Move::BuildRoad(y, x)) by {
                            if b < m0.len() {
                                assert(m0[a] == m1[a] && m0[b] == m1[b]);
                            } else if let Move::BuildRoad(x, y) = m1[a] {
                                assert(m0[a] == m1[a]);
                                if x as int == top as int && y as int == i as int {
                                    assert(neighbours@.take(k as int).contains(y as u16));
                                    let w = choose|w: int|
                                        0 <= w < k && neighbours@.take(k as int)[w] == y as u16;
                                    assert(neighbours@[w] == neighbours@[k as int]);
                                }
                                if y as int == top as int && x as int == i as int {
                                    assert(done.insert(top as int).contains(x as int));
                                    if x as int != top as int {
                                        assert(done.contains(i as int));
                                    } else {
                                        assert(neighbours@.take(k as int).contains(y as u16));
                                        let w = choose|w: int|
                                            0 <= w < k && neighbours@.take(k as int)[w] == y as u16;
                                        assert(neighbours@[w] == neighbours@[k as int]);
                                    }
                                }
                            }
                        }
                        assert forall|kk: int|
                            0 <= kk < m1.len() implies ((#[trigger] m1[kk]) matches Move::BuildRoad(a, b) ==> a as int
                                == top as int ==> neighbours@.take(k + 1).contains(b as u16)) by {
                            if kk < m0.len() {
                                assert(m0[kk] == m1[kk]);
                                if let Move::BuildRoad(a, b) = m1[kk] {
                                    if a as int == top as int {
                                        assert(neighbours@.take(k as int).contains(b as u16));
                                        let w = choose|w: int|
                                            0 <= w < k && neighbours@.take(k as int)[w] == b as u16;
                                        assert(neighbours@.take(k + 1)[w] == b as u16);
                                    }
                                }
                            } else {
                                assert(neighbours@.take(k + 1)[k as int] == i);
                            }
                        }
                        assert forall|kk: int|
                            0 <= kk < m1.len() implies ((#[trigger] m1[kk]) matches Move::BuildRoad(a, b)
                                ==> done.insert(top as int).contains(a as int)) by {
                            if kk < m0.len() {
                                assert(m0[kk] == m1[kk]);
                            }
                        }
                    }
                }
            } else {
                proof {
                    if inv {
                        assert forall|kk: int|
                            0 <= kk < moves@.len() implies ((#[trigger] moves@[kk]) matches Move::BuildRoad(a, b)
                                ==> a as int == top as int ==> neighbours@.take(k + 1).contains(b as u16)) by {
                            if let Move::BuildRoad(a, b) = moves@[kk] {
                                if a as int == top as int {
                                    assert(neighbours@.take(k as int).contains(b as u16));
                                    let w = choose|w: int|
                                        0 <= w < k && neighbours@.take(k as int)[w] == b as u16;
                                    assert(neighbours@.take(k + 1)[w] == b as u16);
                                }
                            }
                        }
                    }
                }
            }
            proof {
                let m1 = moves@;
                let u1 = node_set(*used_nodes);
                assert forall|j: int|
                    0 <= j < k + 1 implies road_step(self@, board, top as int, #[trigger] neighbours@[j] as int)
                        ==> u1.contains(neighbours@[j] as int) by {
                    if j < k {
                        assert(road_step(self@, board, top as int, neighbours@[j] as int) ==> u0.contains(
                            neighbours@[j] as int,
                        ));
                    }
                }
                if inv && board_symmetric(board) {
                    assert forall|j: int|
                        0 <= j < k + 1 implies (adjacent(board, top as int, #[trigger] neighbours@[j] as int)
                            && !road_between(self@, board, top as int, neighbours@[j] as int) ==> m1.contains(
                            Move::BuildRoad(top as u8, neighbours@[j] as u8),
                        ) || m1.contains(Move::BuildRoad(neighbours@[j] as u8, top as u8))) by {
                        let v = neighbours@[j];
                        if adjacent(board, top as int, v as int) && !road_between(self@, board, top as int, v as int) {
                            if j < k {
                                assert(m0.contains(Move::BuildRoad(top as u8, v as u8)) || m0.contains(
                                    Move::BuildRoad(v as u8, top as u8),
                                ));
                            } else if done.contains(i as int) {
                                assert(board.graph.adj@[i as int].neighbours@.contains(top as u16));
                                assert(adjacent(board, (i as u8) as int, (top as u8) as int));
                                assert(board.edge_id[top as int][i as int] == board.edge_id[i as int][top as int]);
                                assert(!road_between(self@, board, (i as u8) as int, (top as u8) as int));
                                assert(m0.contains(Move::BuildRoad(i as u8, top as u8)) || m0.contains(
                                    Move::BuildRoad(top as u8, i as u8),
                                ));
                            }
                        }
                    }
                }
            }
            k += 1;
        }
        proof {
            assert(neighbours@.take(k as int) =~= neighbours@);
            assert forall|u: int, v: int|
                done.insert(top as int).contains(u) && #[trigger] road_step(self@, board, u, v) implies node_set(
                    *used_nodes,
                ).contains(v) by {
                if u == top as int && !done.contains(u) {
                    assert(neighbours@.to_set().contains(v as u16));
                    let j = choose|j: int| 0 <= j < neighbours@.len() && neighbours@[j] == v as u16;
                    assert(road_step(self@, board, top as int, neighbours@[j] as int));
                }
            }
            if inv {
                lemma_seen_all(self@, board, moves@, node_set(*used_nodes), done, top as int, neighbours@);
            }
        }
    }

    /// Searches the road network around node `start` with the marked nodes
    /// `used_nodes`, closed under built roads: marks exactly the nodes that
    /// built roads join to `start`, and appends to `moves` the settlements and
    /// roads that the network allows. Each node is visited once; a start that
    /// is marked already has nothing left to find.
    fn find_settlement_nodes(&self, board: &Board, start: u8, used_nodes: &mut u64, moves: &mut Vec<Move>)
        requires
            joined_readable(self@, board, start as int),
            closed_under_roads(self@, board, node_set(*old(used_nodes)), node_set(*old(used_nodes))),
        ensures
            node_set(*final(used_nodes)) == node_set(*old(used_nodes)).union(
                Set::new(|x: int| joined(self@, board, start as int, x)),
            ),
            closed_under_roads(self@, board, node_set(*final(used_nodes)), node_set(*final(used_nodes))),
            final(moves)@.len() >= old(moves)@.len(),
            final(moves)@.subrange(0, old(moves)@.len() as int) == old(moves)@,
            settled(self@, start as int) && search_inv(
                self@,
                board,
                old(moves)@,
                node_set(*old(used_nodes)),
                node_set(*old(used_nodes)),
            ) && roads_tracked(old(moves)@, node_set(*old(used_nodes))) ==> {
                &&& search_inv(
                    self@,
                    board,
                    final(moves)@,
                    node_set(*final(used_nodes)),
                    node_set(*final(used_nodes)),
                )
                &&& roads_tracked(final(moves)@, node_set(*final(used_nodes)))
            },
    {
        let ghost used0 = node_set(*used_nodes);
        let ghost m_in = moves@;
        let ghost jset = Set::new(|x: int| joined(self@, board, start as int, x));
        proof {
            lemma_joined_self(self@, board, start as int);
            assert(node_readable(board, start as int));
            assert(m_in.subrange(0, m_in.len() as int) =~= m_in);
        }
        if used_node(*used_nodes, start) {
            proof {
                assert forall|x: int| #[trigger] used0.contains(x) == used0.union(jset).contains(x) by {
                    if jset.contains(x) {
                        lemma_closed_holds_joined(self@, board, used0, start as int, x);
                    }
                }
                assert(used0 =~= used0.union(jset));
            }
            return;
        }
        let ghost inv0 = settled(self@, start as int) && search_inv(self@, board, m_in, used0, used0)
            && roads_tracked(m_in, used0);
        let mut done_nodes: u64 = *used_nodes;
        let mut q: Queue<u8> = queue_new();
        add_node(used_nodes, start);
        proof {
            let u1 = node_set(*used_nodes);
            assert(u1 == used0.insert(start as int));
            if inv0 {
                lemma_settled_reached(self@, board, start as int);
                assert forall|x: u8|
                    x < 54 && #[trigger] u1.contains(x as int) && spot_free(self@, board, x as int)
                        && settlement_affordable(self@) implies moves@.contains(Move::BuildSettlement(x)) by {
                    if x as int == start as int {
                        assert(!spot_free(self@, board, x as int));
                    }
                }
                assert forall|x: int| #[trigger] u1.contains(x) implies 0 <= x < 54 && reached(self@, board, x) by {
                    if x != start as int {
                        assert(used0.contains(x));
                    }
                }
            }
        }
        let ghost u_start = node_set(*used_nodes);
        self.visit_neighbours(board, start, true, &mut q, used_nodes, done_nodes, moves, Ghost(start as int));
        add_node(&mut done_nodes, start);
        proof {
            assert forall|x: int| #[trigger] node_set(*used_nodes).contains(x) implies used0.contains(x)
                || joined(self@, board, start as int, x) by {
                if !u_start.contains(x) {
                    lemma_joined_step(self@, board, start as int, start as int, x);
                }
            }
        }
        while queue_size(&q) > 0
            invariant
                joined_readable(self@, board, start as int),
                queue_marked(queue_contents(q), node_set(*used_nodes)),
                queue_joined(self@, board, start as int, queue_contents(q)),
                marked_covered(node_set(*used_nodes), node_set(done_nodes), queue_contents(q), start as int),
                closed_under_roads(self@, board, node_set(done_nodes), node_set(*used_nodes)),
                node_set(done_nodes).subset_of(node_set(*used_nodes)),
                node_set(done_nodes).contains(start as int),
                used0.subset_of(node_set(*used_nodes)),
                forall|x: int| #[trigger] node_set(*used_nodes).contains(x) ==> used0.contains(x)
                    || joined(self@, board, start as int, x),
                m_in.is_prefix_of(moves@),
                inv0 ==> search_inv(self@, board, moves@, node_set(*used_nodes), node_set(done_nodes))
                    && roads_tracked(moves@, node_set(done_nodes)),
            decreases 2 * (64 - node_set(*used_nodes).len()) + queue_contents(q).len(),
        {
            let ghost q0 = queue_contents(q);
            let ghost u_before = node_set(*used_nodes);
            proof {
                lemma_node_set_finite(*used_nodes);
            }
            let top: u8 = queue_peek(&q).unwrap();
            queue_remove(&mut q).unwrap();
            proof {
                let q1 = queue_contents(q);
                assert(q1 == q0.drop_first());
                assert(q0[0] == top);
                assert forall|j: int| 0 <= j < q1.len() implies #[trigger] q1[j] < 54 && node_set(*used_nodes).contains(
                    q1[j] as int,
                ) by {
                    assert(q1[j] == q0[j + 1]);
                }
                assert forall|j: int| 0 <= j < q1.len() implies joined(self@, board, start as int, #[trigger] q1[j] as int) by {
                    assert(q1[j] == q0[j + 1]);
                }
                assert forall|x: int| #[trigger] node_set(*used_nodes).contains(x) implies node_set(done_nodes).contains(x)
                    || x == top as int || q1.contains(x as u8) by {
                    if !node_set(done_nodes).contains(x) && x != start as int {
                        let w = choose|w: int| 0 <= w < q0.len() && q0[w] == x as u8;
                        if w > 0 {
                            assert(q1[w - 1] == x as u8);
                        }
                    }
                }
                assert(joined(self@, board, start as int, top as int));
            }
            if !used_node(done_nodes, top) {
                self.visit_neighbours(board, top, false, &mut q, used_nodes, done_nodes, moves, Ghost(start as int));
                proof {
                    assert forall|x: int| #[trigger] node_set(*used_nodes).contains(x) implies used0.contains(x)
                        || joined(self@, board, start as int, x) by {
                        if !u_before.contains(x) {
                            lemma_joined_step(self@, board, start as int, top as int, x);
                        }
                    }
                }
                add_node(&mut done_nodes, top);
                proof {
                    lemma_node_set_finite(*used_nodes);
                    vstd::set_lib::lemma_len_subset(u_before, node_set(*used_nodes));
                }
            } else {
                proof {
                    let q1 = queue_contents(q);
                    assert forall|x: int| #[trigger] node_set(*used_nodes).contains(x) implies node_set(
                        done_nodes,
                    ).contains(x) || x == start as int || q1.contains(x as u8) by {}
                }
            }
        }
        proof {
            let u = node_set(*used_nodes);
            let d = node_set(done_nodes);
            assert forall|x: int| #[trigger] u.contains(x) implies d.contains(x) by {
                assert(!queue_contents(q).contains(x as u8));
            }
            assert(d =~= u);
            assert forall|x: int| #[trigger] u.contains(x) == used0.union(jset).contains(x) by {
                if jset.contains(x) {
                    lemma_closed_holds_joined(self@, board, u, start as int, x);
                }
            }
            assert(u =~= used0.union(jset));
        }
    }

    /// Lists the moves of the current phase: the free spots in a setup
    /// settlement phase, the roads from the new settlement in a setup road
    /// phase, and in a normal turn the building moves of the road network,
    /// the upgrades and trades that the resources pay for, and ending the turn.
    pub fn generate_legal_moves(&self, board: &Board) -> (moves: Vec<Move>)
        requires
            generation_defined(self@, board),
        ensures
            legal_moves(self@, board, moves@),
    {
        let mut moves: Vec<Move> = Vec::new();
        match self.phase {
            GamePhase::SetupCity1 | GamePhase::SetupCity2 => {
                self.push_city_moves(board, &mut moves);
                assert(moves@ =~= city_moves(self@, board, 54));
            },
            GamePhase::SetupRoad1(start_idx) | GamePhase::SetupRoad2(start_idx) => {
                let neighbours = board.graph.adj[start_idx as usize].neighbour_list();
                let mut k: usize = 0;
                while k < neighbours.len()
                    invariant
                        0 <= k <= neighbours@.len(),
                        moves@ == setup_road_moves(start_idx, neighbours@.take(k as int)),
                    decreases neighbours.len() - k,
                {
                    moves.push(Move::BuildRoad(start_idx, neighbours[k] as u8));
                    assert(moves@ =~= setup_road_moves(start_idx, neighbours@.take(k + 1)));
                    k += 1;
                }
                assert(neighbours@.take(k as int) =~= neighbours@);
            },
            GamePhase::NormalState => {
                if self.resources[ENERGY] >= 1 && self.resources[WATER] >= 1 || (self.resources[DATA]
                    >= 1 && self.resources[RAM] >= 1 && self.resources[ENERGY] >= 1
                    && self.resources[WATER] >= 1) {
                    let mut used_nodes: u64 = 0;
                    proof {
                        lemma_empty_node_set();
                    }
                    for i in 0..54usize
                        invariant
                            network_readable(self@, board),
                            search_inv(self@, board, moves@, node_set(used_nodes), node_set(used_nodes)),
                            roads_tracked(moves@, node_set(used_nodes)),
                            closed_under_roads(self@, board, node_set(used_nodes), node_set(used_nodes)),
                            forall|t: int| 0 <= t < i && settled(self@, t) ==> node_set(used_nodes).contains(t),
                    {
                        let ghost u0 = node_set(used_nodes);
                        if self.settlements[i] > 0 && !used_node(used_nodes, i as u8) {
                            proof {
                                lemma_settlement_readable(self@, board, i as int);
                            }
                            self.find_settlement_nodes(board, i as u8, &mut used_nodes, &mut moves);
                        }
                        assert forall|t: int| 0 <= t < i + 1 && settled(self@, t) implies node_set(used_nodes).contains(t) by {
                            if t < i {
                                assert(u0.contains(t));
                            } else {
                                lemma_joined_self(self@, board, t);
                            }
                        }
                    }
                    proof {
                        let u = node_set(used_nodes);
                        let m = moves@;
                        assert forall|x: int| reached(self@, board, x) implies #[trigger] u.contains(x) by {
                            lemma_closed_holds_reached(self@, board, u, x);
                        }
                        assert forall|x: u8|
                            x < 54 && #[trigger] reached(self@, board, x as int) && spot_free(self@, board, x as int)
                                && settlement_affordable(self@) implies m.contains(Move::BuildSettlement(x)) by {
                            assert(u.contains(x as int));
                        }
                        assert forall|a: u8, b: u8|
                            #![trigger reached(self@, board, a as int), adjacent(board, a as int, b as int)]
                            reached(self@, board, a as int) && adjacent(board, a as int, b as int) && !road_between(
                                self@,
                                board,
                                a as int,
                                b as int,
                            ) && board_symmetric(board) implies m.contains(Move::BuildRoad(a, b)) || m.contains(
                                Move::BuildRoad(b, a),
                            ) by {
                            assert(u.contains(a as int));
                        }
                    }
                }
                let ghost net = moves@;
                self.push_upgrade_moves(&mut moves);
                self.push_trade_moves(board, &mut moves);
                moves.push(Move::EndTurn);
                proof {
                    let tail = normal_tail(self@, board);
                    assert(moves@ =~= net + tail);
                    assert(moves@.take(moves@.len() - tail.len()) =~= net);
                    assert(moves@.skip(moves@.len() - tail.len()) =~= tail);
                }
            },
        }
        moves
    }

    /// The settlement levels are low enough for move generation to check the
    /// cost of each upgrade (see `levels_checkable`).
    pub fn levels_checkable_now(&self) -> (ok: bool)
        ensures
            ok == levels_checkable(self@),
    {
        for i in 0..54usize
            invariant
                forall|j: int| 0 <= j < i ==> #[trigger] self@.settlements[j] <= 253 || (self@.settlements[j] == 254
                    && self@.resources[3] < 255),
        {
            if self.settlements[i] > 254 || (self.settlements[i] == 254 && self.resources[RAM] >= 255) {
                assert(!(self@.settlements[i as int] <= 253 || (self@.settlements[i as int] == 254
                    && self@.resources[3] < 255)));
                return false;
            }
        }
        true
    }

    /// `action` can be played now without leaving the range of a counter or
    /// an index (see `can_apply`).
    pub fn is_applicable(&self, action: Move, board: &Board, start_turn: bool) -> (ok: bool)
        ensures
            ok == can_apply(self@, action, board, start_turn),
    {
        let r = &self.resources;
        match action {
            Move::BuildRoad(u, v) => {
                u < 54 && v < 54 && board.edge_id[u as usize][v as usize] < 128 && (start_turn || (r[ENERGY]
                    >= 1 && r[WATER] >= 1))
            },
            Move::BuildSettlement(x) => {
                if !(x < 54 && self.points < 65535) {
                    return false;
                }
                if !start_turn && !(r[ENERGY] >= 1 && r[WATER] >= 1 && r[DATA] >= 1 && r[RAM] >= 1) {
                    return false;
                }
                let ghost paid = settlement_paid(self@.resources, start_turn);
                match self.phase {
                    GamePhase::SetupCity2 => {
                        let cost: u8 = if start_turn { 0 } else { 1 };
                        let ok = r[ENERGY] - cost <= 253 && r[WATER] - cost <= 253 && r[DATA] - cost <= 253 && r[RAM]
                            - cost <= 253;
                        proof {
                            if ok {
                                assert forall|i: int| 0 <= i < 4 implies #[trigger] paid[i] + 2 <= 255 by {}
                            } else {
                                assert(!(paid[0] + 2 <= 255 && paid[1] + 2 <= 255 && paid[2] + 2 <= 255 && paid[3] + 2 <= 255));
                            }
                        }
                        ok
                    },
                    _ => true,
                }
            },
            Move::UpgradeSettlement(x) => {
                if !(x < 54 && self.points < 65535) {
                    return false;
                }
                let level = self.settlements[x as usize];
                level <= 253 && r[RAM] >= level + 1 && r[GPU] >= level + 2
            },
            Move::Trade(x, y, z) => {
                if !(y < 5 && z < 5 && r[y as usize] >= x) {
                    return false;
                }
                let left: u8 = if y == z { r[y as usize] - x } else { r[z as usize] };
                left < 255
            },
            Move::EndTurn => self.end_turn_applicable(board),
        }
    }

    fn end_turn_applicable(&self, board: &Board) -> (ok: bool)
        ensures
            ok == can_apply(self@, Move::EndTurn, board, false),
    {
        let r = &self.resources;
        if self.turn_number >= 255 {
            return false;
        }
        let t: usize = self.turn_number as usize + 1;
        if t >= board.turns.len() {
            return true;
        }
        let roll = board.turns[t];
        if roll as usize >= board.graph.zones.len() {
            return false;
        }
        let zone = &board.graph.zones[roll as usize];
        let ghost levels = self@.settlements;
        let mut totals: [u16; 5] = [r[0] as u16, r[1] as u16, r[2] as u16, r[3] as u16, r[4] as u16];
        let mut k: usize = 0;
        while k < zone.len()
            invariant
                0 <= k <= zone@.len(),
                zone@ == zone_of_turn(board, t as int),
                levels == self@.settlements,
                self@.turn_number < 255,
                t == self@.turn_number + 1,
                t < board.turns@.len(),
                (board.turns@[t as int] as int) < board.graph.zones@.len(),
                zone_ok(zone@.take(k as int), levels),
                forall|i: int| 0 <= i < 5 ==> #[trigger] totals@[i] == self@.resources[i] + harvest(
                    zone@.take(k as int),
                    levels,
                    i,
                ) && totals@[i] <= 255,
            decreases zone.len() - k,
        {
            let (node_id, resource) = zone[k];
            proof {
                assert(zone@.take(k + 1).drop_last() =~= zone@.take(k as int));
                assert(zone@.take(k + 1).last() == zone@[k as int]);
            }
            if node_id >= 54 {
                proof {
                    assert(!zone_ok(zone@, levels));
                }
                return false;
            }
            if self.settlements[node_id as usize] > 0 && resource >= 5 {
                proof {
                    assert(!zone_ok(zone@, levels));
                }
                return false;
            }
            let add = self.settlements[node_id as usize] as u16;
            if add > 0 {
                totals[resource as usize] = totals[resource as usize] + add;
                if totals[resource as usize] > 255 {
                    proof {
                        lemma_harvest_prefix(zone@, levels, resource as int, k + 1);
                        assert(harvest(zone@.take(k + 1), levels, resource as int) == harvest(
                            zone@.take(k as int),
                            levels,
                            resource as int,
                        ) + add);
                    }
                    return false;
                }
            }
            proof {
                assert(zone_ok(zone@.take(k + 1), levels));
                assert forall|i: int| 0 <= i < 5 implies #[trigger] totals@[i] == self@.resources[i]
                    + harvest(zone@.take(k + 1), levels, i) && totals@[i] <= 255 by {
                    assert(zone@.take(k + 1).drop_last() =~= zone@.take(k as int));
                }
            }
            k += 1;
        }
        assert(zone@.take(k as int) =~= zone@);
        assert forall|i: int| 0 <= i < 5 implies self@.resources[i] + #[trigger] harvest(
            zone_of_turn(board, self@.turn_number + 1),
            self@.settlements,
            i,
        ) <= 255 by {
            assert(totals@[i] <= 255);
        }
        true
    }

    pub fn has_road(&self, u: u8, v: u8, board: &Board) -> (r: bool)
        requires
            u < 54,
            v < 54,
            edge_between(board, u as int, v as int) < 128 || edge_between(board, u as int, v as int) == 254,
        ensures
            r == road_between(self@, board, u as int, v as int),
    {
        let edge_id = board.edge_id[u as usize][v as usize];
        if edge_id == 254 {
            false
        } else {
            proof {
                lemma_test_bit(self.built_roads, edge_id as u128);
            }
            self.built_roads & (1u128 << edge_id) != 0
        }
    }


    /// Plays `action`: builds, upgrades, trades or ends the turn, paying for it
    /// unless `start_turn` (a setup move), and advances the setup phase.
    pub fn apply_move(&mut self, action: Move, board: &Board, start_turn: bool)
        requires
            can_apply(old(self)@, action, board, start_turn),
        ensures
            final(self)@ == after_move(old(self)@, action, board, start_turn),
    {
        match action {
            Move::BuildSettlement(x) => {
                self.settlements[x as usize] = 1;
                if !start_turn {
                    self.resources[ENERGY] -= 1;
                    self.resources[WATER] -= 1;
                    self.resources[DATA] -= 1;
                    self.resources[RAM] -= 1;
                }
                assert(self.resources@ =~= settlement_paid(old(self)@.resources, start_turn));
                self.points += 1;
                match self.phase {
                    GamePhase::SetupCity1 => self.phase = GamePhase::SetupRoad1(x),
                    GamePhase::SetupCity2 => {
                        self.phase = GamePhase::SetupRoad2(x);
                        assert(settlement_paid(old(self)@.resources, start_turn)[0] + 2 <= 255);
                        assert(settlement_paid(old(self)@.resources, start_turn)[1] + 2 <= 255);
                        assert(settlement_paid(old(self)@.resources, start_turn)[2] + 2 <= 255);
                        assert(settlement_paid(old(self)@.resources, start_turn)[3] + 2 <= 255);
                        self.resources[ENERGY] += 2;
                        self.resources[WATER] += 2;
                        self.resources[DATA] += 2;
                        self.resources[RAM] += 2;
                    },
                    _ => {},
                }
                assert(self@.resources =~= after_move(old(self)@, action, board, start_turn).resources);
                assert(self@.settlements =~= after_move(old(self)@, action, board, start_turn).settlements);
            },
            Move::UpgradeSettlement(x) => {
                let level = self.settlements[x as usize];
                self.settlements[x as usize] += 1;
                self.resources[RAM] -= level + 1;
                self.resources[GPU] -= level + 2;
                self.points += 1;
                assert(self@.resources =~= after_move(old(self)@, action, board, start_turn).resources);
                assert(self@.settlements =~= after_move(old(self)@, action, board, start_turn).settlements);
            },
            Move::Trade(x, y, z) => {
                self.resources[y as usize] -= x;
                self.resources[z as usize] += 1;
                assert(self@.resources =~= after_move(old(self)@, action, board, start_turn).resources);
            },
            Move::BuildRoad(u, v) => {
                let edge_id = board.edge_id[u as usize][v as usize];
                proof {
                    lemma_road_insert(self.built_roads, edge_id as u128);
                }
                self.built_roads = self.built_roads | (1u128 << edge_id);
                if !start_turn {
                    self.resources[ENERGY] -= 1;
                    self.resources[WATER] -= 1;
                }
                self.phase = match self.phase {
                    GamePhase::SetupRoad1(_) => GamePhase::SetupCity2,
                    GamePhase::SetupRoad2(_) => GamePhase::NormalState,
                    p => p,
                };
                assert(self@.resources =~= after_move(old(self)@, action, board, start_turn).resources);
            },
            Move::EndTurn => {
                self.turn_number += 1;
                if (self.turn_number as usize) < board.turns.len() {
                    let next_roll = board.turns[self.turn_number as usize];
                    let zone = &board.graph.zones[next_roll as usize];
                    let ghost levels = self.settlements@;
                    let ghost start = self.resources@;
                    let ghost entry = *self;
                    let mut k: usize = 0;
                    while k < zone.len()
                        invariant
                            0 <= k <= zone@.len(),
                            zone@ == zone_of_turn(board, self.turn_number as int),
                            zone_ok(zone@, levels),
                            levels == self.settlements@,
                            self.turn_number == entry.turn_number,
                            self.points == entry.points,
                            self.phase == entry.phase,
                            self.built_roads == entry.built_roads,
                            forall|i: int| 0 <= i < 5 ==> start[i] + #[trigger] harvest(zone@, levels, i) <= 255,
                            self.resources@ =~= Seq::new(
                                5,
                                |i: int| (start[i] + harvest(zone@.take(k as int), levels, i)) as u8,
                            ),
                        decreases zone.len() - k,
                    {
                        let (node_id, resource) = zone[k];
                        proof {
                            assert(zone@.take(k + 1).drop_last() =~= zone@.take(k as int));
                            assert(zone@.take(k + 1).last() == zone@[k as int]);
                            lemma_harvest_prefix(zone@, levels, resource as int, k + 1);
                            lemma_harvest_prefix(zone@, levels, resource as int, k as int);
                        }
                        let lvl = self.settlements[node_id as usize];
                        if lvl > 0 {
                            self.resources[resource as usize] += lvl;
                        }
                        proof {
                            assert forall|i: int| 0 <= i < 5 implies harvest(zone@.take(k + 1), levels, i)
                                == harvest(zone@.take(k as int), levels, i) + if zone@[k as int].1 as int == i {
                                    levels[zone@[k as int].0 as int] as int
                                } else {
                                    0
                                } by {
                                assert(zone@.take(k + 1).drop_last() =~= zone@.take(k as int));
                            }
                        }
                        k += 1;
                    }
                    assert(zone@.take(zone@.len() as int) =~= zone@);
                    assert(self@.resources =~= after_move(old(self)@, action, board, start_turn).resources);
                }
            },
        }
    }
}

/// A playout stops before listing moves in `s`: the game is over, or in a
/// normal turn a settlement level is too high for move generation.
pub open spec fn playout_halts(s: StateView, board: &Board) -> bool {
    game_over(s, board) || (s.phase is NormalState && !levels_checkable(s))
}

/// The end of a playout that stops in `s` with the numbers `draws` left over:
/// `s` where none is left, and no end otherwise.
pub open spec fn stop_result(s: StateView, draws: Seq<u32>) -> Option<StateView> {
    if draws.len() == 0 {
        Some(s)
    } else {
        None
    }
}

/// A playout from `s` that uses the random numbers `draws`, one per step in
/// order, ends in `end`: `Some(e)` where the numbers carry it exactly to its
/// stop in `e`, `None` where they do not fit it (too few, too many, or one not
/// below the total weight of its step). Each step lists the legal moves of
/// its state (any list that `legal_moves` admits), stops if there are none
/// or their total weight exceeds a `u32`, picks the move that `weighted_pick`
/// selects with the step's number, and plays it as a setup move outside the
/// normal turns; a picked move that `can_apply` refuses stops the playout.
pub open spec fn playout(s: StateView, board: &Board, draws: Seq<u32>, end: Option<StateView>) -> bool
    decreases draws.len(),
{
    if playout_halts(s, board) {
        end == stop_result(s, draws)
    } else {
        exists|moves: Seq<Move>|
            #[trigger] legal_moves(s, board, moves) && if moves.len() == 0 || weight_sum(moves) > u32::MAX {
                end == stop_result(s, draws)
            } else if draws.len() == 0 || draws[0] >= weight_sum(moves) {
                end is None
            } else {
                let m = weighted_pick(moves, draws[0] as int, moves[0]);
                let setup = !(s.phase is NormalState);
                if can_apply(s, m, board, setup) {
                    playout(after_move(s, m, board, setup), board, draws.drop_first(), end)
                } else {
                    end == stop_result(s, draws.drop_first())
                }
            }
    }
}

proof fn lemma_playout_step(
    s: StateView,
    board: &Board,
    moves: Seq<Move>,
    d: u32,
    rest: Seq<u32>,
    end: Option<StateView>,
)
    requires
        !playout_halts(s, board),
        legal_moves(s, board, moves),
        moves.len() > 0,
        weight_sum(moves) <= u32::MAX,
        d < weight_sum(moves),
        can_apply(s, weighted_pick(moves, d as int, moves[0]), board, !(s.phase is NormalState)),
        playout(
            after_move(s, weighted_pick(moves, d as int, moves[0]), board, !(s.phase is NormalState)),
            board,
            rest,
            end,
        ),
    ensures
        playout(s, board, seq![d] + rest, end),
{
    let ds = seq![d] + rest;
    assert(ds.drop_first() =~= rest);
    assert(ds[0] == d);
}

proof fn lemma_playout_refused(s: StateView, board: &Board, moves: Seq<Move>, d: u32, rest: Seq<u32>)
    requires
        !playout_halts(s, board),
        legal_moves(s, board, moves),
        moves.len() > 0,
        weight_sum(moves) <= u32::MAX,
        d < weight_sum(moves),
        !can_apply(s, weighted_pick(moves, d as int, moves[0]), board, !(s.phase is NormalState)),
    ensures
        playout(s, board, seq![d] + rest, stop_result(s, rest)),
{
    let ds = seq![d] + rest;
    assert(ds.drop_first() =~= rest);
    assert(ds[0] == d);
}

proof fn lemma_ready_defined(s: StateView, board: &Board)
    requires
        board_ready(board),
        phase_in_range(s),
        s.phase is NormalState ==> levels_checkable(s),
    ensures
        generation_defined(s, board),
{
    match s.phase {
        GamePhase::NormalState => {
            assert forall|u: int| #[trigger] reached(s, board, u) implies u < board.graph.adj@.len() && forall|v: u16|
                #[trigger] board.graph.adj@[u].neighbours@.contains(v) ==> v < 54 && (board.edge_id[u][v as int]
                    < 128 || board.edge_id[u][v as int] == 254) by {
                lemma_reached_in_range(s, board, u);
            }
        },
        _ => {},
    }
}

/// The moves that a playout picks from in `state`, with their total weight,
/// or `None` where the playout stops in `state`.
fn playout_moves(state: &DynamicState, board: &Board) -> (r: Option<(Vec<Move>, u32)>)
    requires
        playout_ready(state@, board),
    ensures
        r is None ==> forall|draws: Seq<u32>| #[trigger] playout(state@, board, draws, stop_result(state@, draws)),
        r matches Some(p) ==> {
            &&& !playout_halts(state@, board)
            &&& legal_moves(state@, board, p.0@)
            &&& p.0@.len() > 0
            &&& p.1 == weight_sum(p.0@)
            &&& p.1 > 0
        },
{
    proof {
        state.lemma_shape();
    }
    if state.is_game_over(board) {
        return None;
    }
    let normal = match state.phase {
        GamePhase::NormalState => true,
        _ => false,
    };
    if normal && !state.levels_checkable_now() {
        return None;
    }
    proof {
        lemma_ready_defined(state@, board);
    }
    let options = state.generate_legal_moves(board);
    let total = if options.len() == 0 {
        None
    } else {
        total_weight(&options)
    };
    match total {
        None => {
            proof {
                assert forall|draws: Seq<u32>| #[trigger] playout(state@, board, draws, stop_result(state@, draws)) by {
                    assert(legal_moves(state@, board, options@));
                }
            }
            None
        },
        Some(total) => {
            proof {
                match state@.phase {
                    GamePhase::SetupCity1 | GamePhase::SetupCity2 => {
                        lemma_city_moves_shape(state@, board, 54);
                        lemma_weight_sum_bound(options@, 0);
                    },
                    GamePhase::SetupRoad1(_) | GamePhase::SetupRoad2(_) => {
                        lemma_weight_sum_bound(options@, 0);
                    },
                    GamePhase::NormalState => {
                        let tail = normal_tail(state@, board);
                        assert(options@.skip(options@.len() - tail.len())[tail.len() - 1] == Move::EndTurn);
                        lemma_weight_sum_bound(options@, options@.len() - 1);
                    },
                }
            }
            Some((options, total))
        },
    }
}

/// The view of a playout's final state, if there is one.
pub open spec fn end_view(r: Option<DynamicState>) -> Option<StateView> {
    match r {
        Some(e) => Some(e@),
        None => None,
    }
}

/// Plays from `state` with the given random numbers, one per step (see
/// `playout`): the final state where the numbers carry the playout exactly
/// to its stop, `None` where they do not fit it.
pub fn play_with_draws(start: DynamicState, board: &Board, draws: &Vec<u32>) -> (r: Option<DynamicState>)
    requires
        playout_ready(start@, board),
    ensures
        playout(start@, board, draws@, end_view(r)),
{
    let mut state = start;
    let ghost s0 = start@;
    let mut i: usize = 0;
    assert(draws@.skip(0) =~= draws@);
    while i <= draws.len()
        invariant
            playout_ready(state@, board),
            i <= draws@.len(),
            s0 == start@,
            forall|end: Option<StateView>| #[trigger] playout(state@, board, draws@.skip(i as int), end)
                ==> playout(s0, board, draws@, end),
        decreases draws@.len() - i,
    {
        let ghost rest = draws@.skip(i as int);
        let (options, total) = match playout_moves(&state, board) {
            Some(p) => p,
            None => {
                let r = if i == draws.len() {
                    Some(state)
                } else {
                    None
                };
                proof {
                    assert(playout(state@, board, rest, stop_result(state@, rest)));
                    assert(playout(s0, board, draws@, stop_result(state@, rest)));
                    assert(end_view(r) == stop_result(state@, rest));
                }
                return r;
            },
        };
        if i == draws.len() || draws[i] >= total {
            proof {
                assert(legal_moves(state@, board, options@));
                assert(playout(state@, board, rest, None));
                assert(playout(s0, board, draws@, None));
                assert(end_view(None) == None::<StateView>);
            }
            return None;
        }
        let d = draws[i];
        let chosen_move = pick_move(&options, d);
        let setup = match state.phase {
            GamePhase::NormalState => false,
            _ => true,
        };
        proof {
            assert(rest =~= seq![d] + draws@.skip(i + 1));
        }
        if !state.is_applicable(chosen_move, board, setup) {
            let r = if i + 1 == draws.len() {
                Some(state)
            } else {
                None
            };
            proof {
                lemma_playout_refused(state@, board, options@, d, draws@.skip(i + 1));
                assert(playout(state@, board, rest, stop_result(state@, draws@.skip(i + 1))));
                assert(playout(s0, board, draws@, stop_result(state@, draws@.skip(i + 1))));
                assert(end_view(r) == stop_result(state@, draws@.skip(i + 1)));
            }
            return r;
        }
        let ghost before = state@;
        state.apply_move(chosen_move, board, setup);
        proof {
            lemma_pick_positive(options@, d as int, options@[0]);
            lemma_apply_keeps_phase_in_range(before, options@, chosen_move, board, setup);
            assert forall|end: Option<StateView>| #[trigger] playout(state@, board, draws@.skip(i + 1), end)
                implies playout(s0, board, draws@, end) by {
                lemma_playout_step(before, board, options@, d, draws@.skip(i + 1), end);
            }
        }
        i += 1;
    }
    None
}

/// A state reached by a legal move from a state in range is in range.
proof fn lemma_apply_keeps_phase_in_range(
    s: StateView,
    moves: Seq<Move>,
    m: Move,
    board: &Board,
    setup: bool,
)
    requires
        phase_in_range(s),
        legal_moves(s, board, moves),
        moves.contains(m),
        can_apply(s, m, board, setup),
    ensures
        phase_in_range(after_move(s, m, board, setup)),
{
    let j = choose|j: int| 0 <= j < moves.len() && moves[j] == m;
    match s.phase {
        GamePhase::SetupCity1 | GamePhase::SetupCity2 => {
            lemma_city_moves_shape(s, board, 54);
            assert(moves[j] is BuildSettlement);
        },
        GamePhase::SetupRoad1(x) | GamePhase::SetupRoad2(x) => {
            assert(moves[j] is BuildRoad);
        },
        GamePhase::NormalState => {},
    }
}

/// Plays random moves from `state` until the game is over: each step lists
/// the legal moves and picks one with a chance proportional to its weight.
/// The playout also stops when no move is listed, and before a step whose
/// counters would leave their range (a settlement level too high for move
/// generation, a total weight beyond `u32`, a chosen move that `can_apply`
/// refuses). Returns the points of the state where it stops: some numbers
/// below each step's total weight carry `playout` there; on a finished game
/// that is the starting state.
pub fn simulate_random_game(state: DynamicState, board: &Board) -> (points: u16)
    requires
        playout_ready(state@, board),
    ensures
        points >= state@.points,
        game_over(state@, board) ==> points == state@.points,
        exists|draws: Seq<u32>, end: StateView| #[trigger] playout(state@, board, draws, Some(end)) && end.points
            == points,
{
    let mut state = state;
    let ghost s0 = state@;
    let ghost mut ds: Seq<u32> = Seq::empty();
    let ghost mut stopped = false;
    let ghost mut fin: Seq<u32> = Seq::empty();
    proof {
        assert forall|rest: Seq<u32>, end: Option<StateView>| #[trigger] playout(state@, board, rest, end)
            implies playout(s0, board, ds + rest, end) by {
            assert(ds + rest =~= rest);
        }
    }
    while !state.is_game_over(board)
        invariant_except_break
            !stopped,
        invariant
            playout_ready(state@, board),
            state@.points >= s0.points,
            game_over(s0, board) ==> state@ == s0,
            forall|rest: Seq<u32>, end: Option<StateView>| #[trigger] playout(state@, board, rest, end)
                ==> playout(s0, board, ds + rest, end),
            stopped ==> playout(s0, board, fin, Some(state@)),
        ensures
            stopped || game_over(state@, board),
        decreases board.turns@.len() - state@.turn_number, phase_rank(state@.phase), resource_sum(
            state@.resources,
        ),
    {
        proof {
            state.lemma_shape();
        }
        let (options, total_weight) = match playout_moves(&state, board) {
            Some(p) => p,
            None => {
                proof {
                    assert(playout(state@, board, Seq::<u32>::empty(), stop_result(state@, Seq::<u32>::empty())));
                    assert(ds + Seq::<u32>::empty() =~= ds);
                    fin = ds;
                    stopped = true;
                }
                break;
            },
        };
        let rand_val = random_below(total_weight);
        let chosen_move = pick_move(&options, rand_val);
        proof {
            lemma_pick_positive(options@, rand_val as int, options@[0]);
            lemma_city_moves_shape(state@, board, 54);
        }
        let start_turn = match state.phase {
            GamePhase::NormalState => false,
            _ => true,
        };
        if !state.is_applicable(chosen_move, board, start_turn) {
            proof {
                let one = seq![rand_val];
                lemma_playout_refused(state@, board, options@, rand_val, Seq::<u32>::empty());
                assert(one + Seq::<u32>::empty() =~= one);
                assert(stop_result(state@, Seq::<u32>::empty()) == Some(state@));
                assert(playout(state@, board, one, Some(state@)));
                assert(playout(s0, board, ds + one, Some(state@)));
                fin = ds + one;
                stopped = true;
            }
            break;
        }
        let ghost before = state@;
        let ghost ds_before = ds;
        state.apply_move(chosen_move, board, start_turn);
        proof {
            let j = choose|j: int| 0 <= j < options@.len() && options@[j] == chosen_move;
            match before.phase {
                GamePhase::SetupCity1 | GamePhase::SetupCity2 => {
                    assert(options@[j] is BuildSettlement);
                },
                GamePhase::SetupRoad1(x) | GamePhase::SetupRoad2(x) => {
                    assert(options@[j] is BuildRoad);
                },
                GamePhase::NormalState => {},
            }
            ds = ds.push(rand_val);
            assert forall|rest: Seq<u32>, end: Option<StateView>| #[trigger] playout(state@, board, rest, end)
                implies playout(s0, board, ds + rest, end) by {
                lemma_playout_step(before, board, options@, rand_val, rest, end);
                assert(ds_before + (seq![rand_val] + rest) =~= ds + rest);
            }
        }
    }
    proof {
        if !stopped {
            assert(playout(state@, board, Seq::<u32>::empty(), Some(state@)));
            assert(ds + Seq::<u32>::empty() =~= ds);
            fin = ds;
        }
        assert(playout(s0, board, fin, Some(state@)));
    }
    state.get_points()
}

/// A node of the search tree: how often it was visited, its accumulated
/// score, the moves not tried from it yet, and its place in the tree.
pub struct Node {
    pub visits: u32,
    /// The accumulated score as the bit pattern of an `f64` (`f64::to_bits`);
    /// 0 stands for 0.0. Arithmetic on it happens outside the library.
    pub current_score_bits: u64,
    pub untried_actions: Vec<Move>,
    pub parent: Option<usize>,
    pub children: Vec<usize>,
}

impl Node {
    /// A fresh node for `state`: no visits, a zero score, every legal move
    /// untried, no parent and no children.
    pub fn new(state: DynamicState, board: &Board) -> (n: Self)
        requires
            generation_defined(state@, board),
        ensures
            n.visits == 0,
            n.current_score_bits == 0,
            legal_moves(state@, board, n.untried_actions@),
            n.parent is None,
            n.children@ == Seq::<usize>::empty(),
    {
        Self {
            visits: 0,
            current_score_bits: 0,
            parent: None,
            untried_actions: state.generate_legal_moves(board),
            children: Vec::new(),
        }
    }
}

/// A search tree, its nodes stored by index; the root is node 0.
pub struct MCTSearch {
    nodes: Vec<Node>,
}

impl View for MCTSearch {
    type V = Seq<Node>;

    closed spec fn view(&self) -> Seq<Node> {
        self.nodes@
    }
}

/// The nodes form a tree rooted at node 0: the root has no parent, every
/// other node's parent comes before it and lists it among its children, and
/// every listed child comes later and names its parent.
pub open spec fn tree_wf(nodes: Seq<Node>) -> bool {
    &&& nodes.len() >= 1
    &&& nodes[0].parent is None
    &&& forall|i: int|
        1 <= i < nodes.len() ==> ((#[trigger] nodes[i]).parent matches Some(p) && p < i
            && nodes[p as int].children@.contains(i as usize))
    &&& forall|p: int, k: int|
        0 <= p < nodes.len() && 0 <= k < nodes[p].children@.len() ==> p < #[trigger] nodes[p].children@[k]
            < nodes.len() && nodes[nodes[p].children@[k] as int].parent == Some(p as usize)
}

/// `after` is `before` with `child` appended as a new node under `parent_idx`,
/// which lists the new node as its last child; nothing else changes.
pub open spec fn child_added(before: Seq<Node>, after: Seq<Node>, parent_idx: usize, child: Node) -> bool {
    &&& after.len() == before.len() + 1
    &&& before.len() <= usize::MAX
    &&& after.last() == (Node { parent: Some(parent_idx), ..child })
    &&& after[parent_idx as int].children@ == before[parent_idx as int].children@.push(before.len() as usize)
    &&& after[parent_idx as int].visits == before[parent_idx as int].visits
    &&& after[parent_idx as int].current_score_bits == before[parent_idx as int].current_score_bits
    &&& after[parent_idx as int].untried_actions == before[parent_idx as int].untried_actions
    &&& after[parent_idx as int].parent == before[parent_idx as int].parent
    &&& forall|i: int| 0 <= i < before.len() && i != parent_idx ==> #[trigger] after[i] == before[i]
}

/// Adding a child without children of its own to a tree keeps it a tree.
pub proof fn lemma_add_child_keeps_tree(before: Seq<Node>, after: Seq<Node>, parent_idx: usize, child: Node)
    requires
        tree_wf(before),
        parent_idx < before.len(),
        child.children@.len() == 0,
        child_added(before, after, parent_idx, child),
    ensures
        tree_wf(after),
{
    let n = before.len();
    assert forall|i: int| 1 <= i < after.len() implies ((#[trigger] after[i]).parent matches Some(p) && p < i
        && after[p as int].children@.contains(i as usize)) by {
        if i == n {
            assert(after[parent_idx as int].children@[before[parent_idx as int].children@.len() as int] == n as usize);
        } else {
            let p = before[i].parent->0;
            if i != parent_idx {
                assert(after[i] == before[i]);
            }
            assert(before[p as int].children@.contains(i as usize));
            if p == parent_idx {
                let k = choose|k: int| 0 <= k < before[p as int].children@.len() && before[p as int].children@[k] == i as usize;
                assert(after[p as int].children@[k] == i as usize);
            } else {
                assert(after[p as int] == before[p as int]);
            }
        }
    }
    assert forall|p: int, k: int| 0 <= p < after.len() && 0 <= k < after[p].children@.len() implies p
        < #[trigger] after[p].children@[k] < after.len() && after[after[p].children@[k] as int].parent == Some(
        p as usize,
    ) by {
        if p == n {
            assert(after[p] == after.last());
            assert(after.last().children == child.children);
            assert(after[p].children@.len() == 0);
        } else {
            let kids = before[p].children@;
            if p == parent_idx && k == kids.len() {
                assert(after[p].children@[k] == n as usize);
                assert(after[n as int] == after.last());
                assert(after[n as int].parent == Some(parent_idx));
                assert(p < after[p].children@[k] < after.len());
            } else {
                if p != parent_idx {
                    assert(after[p] == before[p]);
                }
                let c = kids[k];
                assert(after[p].children@[k] == c);
                assert(p < c < n);
                if c as int == parent_idx as int {
                    assert(after[c as int].parent == before[c as int].parent);
                } else {
                    assert(after[c as int] == before[c as int]);
                }
                assert(before[c as int].parent == Some(p as usize));
                assert(after[after[p].children@[k] as int].parent == Some(p as usize));
            }
        }
    }
}

/// A tree made of one node without parent or children is a tree.
pub proof fn lemma_single_node_tree(root: Node)
    requires
        root.parent is None,
        root.children@.len() == 0,
    ensures
        tree_wf(seq![root]),
{
}

impl MCTSearch {
    /// A tree made of `root_node` alone.
    pub fn new(root_node: Node) -> (t: Self)
        ensures
            t@ == seq![root_node],
    {
        let mut nodes: Vec<Node> = Vec::new();
        nodes.push(root_node);
        Self { nodes }
    }

    /// Appends `child` as a new node whose parent is `parent_idx`, and lists
    /// it among the parent's children.
    pub fn add_child(&mut self, parent_idx: usize, child: Node)
        requires
            parent_idx < old(self)@.len(),
        ensures
            child_added(old(self)@, final(self)@, parent_idx, child),
    {
        let child_idx = self.nodes.len();
        let mut child = child;
        child.parent = Some(parent_idx);
        self.nodes.push(child);
        self.nodes[parent_idx].children.push(child_idx);
    }
}

} // verus!
