//! The rules as specifications: what a move needs and what it changes, the
//! moves listed in each phase, and the laws that tie them together.

use vstd::prelude::*;
use crate::mcts::{Board, GamePhase, Move, StateView, state_shape};
use crate::network::{
    board_symmetric, roads_distinct, adjacency_symmetric, edges_testable, network_move, network_readable, reached, road_step, settled,
    settlement_affordable, settlements_distinct,
};
use crate::reader::Convertor;

verus! {

/// Bit `e` of `b` is set.
pub open spec fn bit_at(b: u128, e: int) -> bool {
    (b >> (e as u128)) & 1u128 == 1u128
}

/// The edge ids whose bit is set in a road bitset.
pub open spec fn road_set(b: u128) -> Set<int> {
    Set::new(|e: int| 0 <= e < 128 && bit_at(b, e))
}

pub(crate) proof fn lemma_test_bit(b: u128, e: u128)
    by (bit_vector)
    requires
        e < 128,
    ensures
        (b & (1u128 << e) != 0) == ((b >> e) & 1u128 == 1u128),
{
}

proof fn lemma_set_bit(b: u128, e: u128, i: u128)
    by (bit_vector)
    requires
        e < 128,
        i < 128,
    ensures
        ((b | (1u128 << e)) >> i) & 1u128 == if i == e { 1u128 } else { (b >> i) & 1u128 },
{
}

pub(crate) proof fn lemma_road_insert(b: u128, e: u128)
    requires
        e < 128,
    ensures
        road_set(b | (1u128 << e)) == road_set(b).insert(e as int),
{
    assert forall|i: int| #[trigger] road_set(b | (1u128 << e)).contains(i) == road_set(b).insert(
        e as int,
    ).contains(i) by {
        if 0 <= i < 128 {
            lemma_set_bit(b, e, i as u128);
        }
    }
    assert(road_set(b | (1u128 << e)) =~= road_set(b).insert(e as int));
}

pub(crate) proof fn lemma_zero_bits(i: u128)
    by (bit_vector)
    requires
        i < 128,
    ensures
        (0u128 >> i) & 1u128 == 0u128,
{
}

/// The id of the edge between nodes `u` and `v`.
pub open spec fn edge_between(board: &Board, u: int, v: int) -> int {
    board.edge_id[u][v] as int
}

/// A road is built on the edge between `u` and `v`.
pub open spec fn road_between(s: StateView, board: &Board, u: int, v: int) -> bool {
    s.roads.contains(edge_between(board, u, v))
}

/// What a dice roll gives of resource `r`: the sum of the settlement levels on
/// the entries of `zone` that yield `r`.
pub open spec fn harvest(zone: Seq<(u8, u8)>, levels: Seq<u8>, r: int) -> int
    decreases zone.len(),
{
    if zone.len() == 0 {
        0
    } else {
        let last = zone.last();
        harvest(zone.drop_last(), levels, r) + if last.1 as int == r {
            levels[last.0 as int] as int
        } else {
            0
        }
    }
}

pub(crate) proof fn lemma_harvest_prefix(zone: Seq<(u8, u8)>, levels: Seq<u8>, r: int, k: int)
    requires
        0 <= k <= zone.len(),
    ensures
        harvest(zone.take(k), levels, r) <= harvest(zone, levels, r),
        harvest(zone.take(k), levels, r) >= 0,
    decreases zone.len(),
{
    if k == zone.len() {
        assert(zone.take(k) =~= zone);
        if k > 0 {
            lemma_harvest_prefix(zone.drop_last(), levels, r, k - 1);
        }
    } else {
        assert(zone.drop_last().take(k) =~= zone.take(k));
        lemma_harvest_prefix(zone.drop_last(), levels, r, k);
    }
}

/// Every entry of a zone names a node of the board, and an entry whose node
/// carries a settlement names one of the five resources.
pub open spec fn zone_ok(zone: Seq<(u8, u8)>, levels: Seq<u8>) -> bool {
    forall|k: int|
        0 <= k < zone.len() ==> (#[trigger] zone[k]).0 < 54 && (levels[zone[k].0 as int] > 0 ==> zone[k].1 < 5)
}

/// The zone that the roll of turn `t` activates.
pub open spec fn zone_of_turn(board: &Board, t: int) -> Seq<(u8, u8)> {
    board.graph.zones@[board.turns@[t] as int]@
}

/// The roll of turn `t` names a zone, and that zone is well formed for the
/// settlement levels `levels`.
pub open spec fn roll_ok(board: &Board, t: int, levels: Seq<u8>) -> bool {
    &&& (board.turns@[t] as int) < board.graph.zones@.len()
    &&& zone_ok(zone_of_turn(board, t), levels)
}

/// The resources after paying for a road.
pub open spec fn pay_road(r: Seq<u8>) -> Seq<u8> {
    r.update(0, (r[0] - 1) as u8).update(1, (r[1] - 1) as u8)
}

/// The resources after paying for a settlement.
pub open spec fn pay_settlement(r: Seq<u8>) -> Seq<u8> {
    r.update(0, (r[0] - 1) as u8).update(1, (r[1] - 1) as u8).update(2, (r[2] - 1) as u8).update(
        3,
        (r[3] - 1) as u8,
    )
}

/// The resources after the bonus of the second setup settlement.
pub open spec fn setup_bonus(r: Seq<u8>) -> Seq<u8> {
    r.update(0, (r[0] + 2) as u8).update(1, (r[1] + 2) as u8).update(2, (r[2] + 2) as u8).update(
        3,
        (r[3] + 2) as u8,
    )
}

/// The resources spent on a settlement move: paid unless in a setup turn.
pub open spec fn settlement_paid(r: Seq<u8>, start_turn: bool) -> Seq<u8> {
    if start_turn {
        r
    } else {
        pay_settlement(r)
    }
}

/// The resources after a trade of `x` cards of `y` for one card of `z`.
pub open spec fn traded(r: Seq<u8>, x: u8, y: u8, z: u8) -> Seq<u8> {
    let r1 = r.update(y as int, (r[y as int] - x) as u8);
    r1.update(z as int, (r1[z as int] + 1) as u8)
}

/// The resources after the harvest of `zone`.
pub open spec fn harvested(r: Seq<u8>, zone: Seq<(u8, u8)>, levels: Seq<u8>) -> Seq<u8> {
    Seq::new(5, |i: int| (r[i] + harvest(zone, levels, i)) as u8)
}

/// `action` can be applied to `s` without leaving the range of a counter or
/// an index.
pub open spec fn can_apply(s: StateView, action: Move, board: &Board, start_turn: bool) -> bool {
    let r = s.resources;
    match action {
        Move::BuildRoad(u, v) => {
            &&& u < 54
            &&& v < 54
            &&& edge_between(board, u as int, v as int) < 128
            &&& !start_turn ==> r[0] >= 1 && r[1] >= 1
        },
        Move::BuildSettlement(x) => {
            &&& x < 54
            &&& s.points < 65535
            &&& !start_turn ==> r[0] >= 1 && r[1] >= 1 && r[2] >= 1 && r[3] >= 1
            &&& s.phase is SetupCity2 ==> forall|i: int|
                0 <= i < 4 ==> #[trigger] settlement_paid(r, start_turn)[i] + 2 <= 255
        },
        Move::UpgradeSettlement(x) => {
            &&& x < 54
            &&& s.points < 65535
            &&& s.settlements[x as int] <= 253
            &&& r[3] >= s.settlements[x as int] + 1
            &&& r[4] >= s.settlements[x as int] + 2
        },
        Move::Trade(x, y, z) => {
            &&& y < 5
            &&& z < 5
            &&& r[y as int] >= x
            &&& r.update(y as int, (r[y as int] - x) as u8)[z as int] + 1 <= 255
        },
        Move::EndTurn => {
            &&& s.turn_number < 255
            &&& s.turn_number + 1 < board.turns@.len() ==> {
                &&& roll_ok(board, s.turn_number + 1, s.settlements)
                &&& forall|i: int|
                    0 <= i < 5 ==> r[i] + #[trigger] harvest(
                        zone_of_turn(board, s.turn_number + 1),
                        s.settlements,
                        i,
                    ) <= 255
            }
        },
    }
}

/// The state after `action`.
pub open spec fn after_move(s: StateView, action: Move, board: &Board, start_turn: bool) -> StateView {
    let r = s.resources;
    match action {
        Move::BuildRoad(u, v) => StateView {
            roads: s.roads.insert(edge_between(board, u as int, v as int)),
            resources: if start_turn {
                r
            } else {
                pay_road(r)
            },
            phase: match s.phase {
                GamePhase::SetupRoad1(_) => GamePhase::SetupCity2,
                GamePhase::SetupRoad2(_) => GamePhase::NormalState,
                p => p,
            },
            ..s
        },
        Move::BuildSettlement(x) => StateView {
            settlements: s.settlements.update(x as int, 1),
            resources: if s.phase is SetupCity2 {
                setup_bonus(settlement_paid(r, start_turn))
            } else {
                settlement_paid(r, start_turn)
            },
            points: (s.points + 1) as u16,
            phase: match s.phase {
                GamePhase::SetupCity1 => GamePhase::SetupRoad1(x),
                GamePhase::SetupCity2 => GamePhase::SetupRoad2(x),
                p => p,
            },
            ..s
        },
        Move::UpgradeSettlement(x) => {
            let level = s.settlements[x as int];
            StateView {
                settlements: s.settlements.update(x as int, (level + 1) as u8),
                resources: r.update(3, (r[3] - (level + 1)) as u8).update(
                    4,
                    (r[4] - (level + 2)) as u8,
                ),
                points: (s.points + 1) as u16,
                ..s
            }
        },
        Move::Trade(x, y, z) => StateView { resources: traded(r, x, y, z), ..s },
        Move::EndTurn => {
            let t = s.turn_number + 1;
            StateView {
                turn_number: t as u8,
                resources: if t < board.turns@.len() {
                    harvested(r, zone_of_turn(board, t), s.settlements)
                } else {
                    r
                },
                ..s
            }
        },
    }
}

/// The nodes 0..54 exist and each of them has its neighbours among them.
pub open spec fn nodes_in_range(board: &Board) -> bool {
    &&& board.graph.adj@.len() >= 54
    &&& forall|u: int, n: u16|
        0 <= u < 54 && #[trigger] board.graph.adj@[u].neighbours@.contains(n) ==> n < 54
}

/// `v` is a neighbour of `u`.
pub open spec fn adjacent(board: &Board, u: int, v: int) -> bool {
    0 <= v < 54 && board.graph.adj@[u].neighbours@.contains(v as u16)
}

/// No settlement stands on `x` or on a neighbour of `x`.
pub open spec fn spot_free(s: StateView, board: &Board, x: int) -> bool {
    &&& s.settlements[x] == 0
    &&& forall|n: u16| #[trigger] board.graph.adj@[x].neighbours@.contains(n) ==> s.settlements[n as int] == 0
}

/// Testing whether `x` is a free spot reads only nodes of the board: `x` is
/// one, and unless a settlement stands on it, it has an entry in the
/// adjacency and its neighbours are nodes of the board.
pub open spec fn spot_readable(s: StateView, board: &Board, x: int) -> bool {
    &&& 0 <= x < 54
    &&& s.settlements[x] > 0 || {
        &&& x < board.graph.adj@.len()
        &&& forall|n: u16| #[trigger] board.graph.adj@[x].neighbours@.contains(n) ==> n < 54
    }
}

/// The initial state: turn 0, no points, no resources, an empty board, the
/// first setup phase.
pub open spec fn initial_state() -> StateView {
    StateView {
        turn_number: 0,
        points: 0,
        resources: Seq::new(5, |i: int| 0u8),
        settlements: Seq::new(54, |i: int| 0u8),
        phase: GamePhase::SetupCity1,
        roads: Set::empty(),
    }
}

/// The game is over once the turn counter reaches the number of rolls.
pub open spec fn game_over(s: StateView, board: &Board) -> bool {
    s.turn_number >= board.turns@.len()
}

/// The settlement moves of a setup phase among nodes `0..n`: each node where
/// no settlement stands on it or next to it, in increasing order.
pub open spec fn city_moves(s: StateView, board: &Board, n: int) -> Seq<Move>
    decreases n,
{
    if n <= 0 {
        Seq::empty()
    } else {
        city_moves(s, board, n - 1) + if s.settlements[n - 1] == 0 && spot_free(s, board, n - 1) {
            seq![Move::BuildSettlement((n - 1) as u8)]
        } else {
            Seq::empty()
        }
    }
}

/// The road moves of a setup phase: a road from `x` to each of its neighbours.
pub open spec fn setup_road_moves(x: u8, order: Seq<u16>) -> Seq<Move> {
    order.map_values(|n: u16| Move::BuildRoad(x, n as u8))
}

/// The upgrades that the resources pay for, among the settlements on nodes `0..n`.
pub open spec fn upgrade_moves(s: StateView, n: int) -> Seq<Move>
    decreases n,
{
    if n <= 0 {
        Seq::empty()
    } else {
        let lvl = s.settlements[n - 1];
        upgrade_moves(s, n - 1) + if lvl >= 1 && s.resources[3] >= lvl + 1 && s.resources[4] >= lvl + 2 {
            seq![Move::UpgradeSettlement((n - 1) as u8)]
        } else {
            Seq::empty()
        }
    }
}

/// The trades of `x` cards of `y` for each other resource among `0..m`.
pub open spec fn trades_from(x: u8, y: u8, m: int) -> Seq<Move>
    decreases m,
{
    if m <= 0 {
        Seq::empty()
    } else {
        trades_from(x, y, m - 1) + if (m - 1) != y as int {
            seq![Move::Trade(x, y, (m - 1) as u8)]
        } else {
            Seq::empty()
        }
    }
}

/// How many cards a port asks for one card: 3 where `conv_type` is set, else 2.
pub open spec fn port_rate(c: Convertor) -> u8 {
    if c.conv_type {
        3
    } else {
        2
    }
}

/// The trades that the first `n` ports allow.
pub open spec fn port_moves(s: StateView, ports: Seq<Convertor>, n: int) -> Seq<Move>
    decreases n,
{
    if n <= 0 {
        Seq::empty()
    } else {
        let c = ports[n - 1];
        port_moves(s, ports, n - 1) + if s.resources[c.resource as int] >= port_rate(c) {
            trades_from(port_rate(c), c.resource, 5)
        } else {
            Seq::empty()
        }
    }
}

/// The 4:1 trades with the bank for the resources `0..n`.
pub open spec fn bank_moves(s: StateView, n: int) -> Seq<Move>
    decreases n,
{
    if n <= 0 {
        Seq::empty()
    } else {
        bank_moves(s, n - 1) + if s.resources[n - 1] >= 4 {
            trades_from(4, (n - 1) as u8, 5)
        } else {
            Seq::empty()
        }
    }
}

/// The moves of a normal turn that follow the building moves: upgrades, port
/// trades, bank trades, and ending the turn.
pub open spec fn normal_tail(s: StateView, board: &Board) -> Seq<Move> {
    upgrade_moves(s, 54) + port_moves(s, board.convertors@, board.convertors@.len() as int)
        + bank_moves(s, 5) + seq![Move::EndTurn]
}

/// Each port names one of the five resources.
pub open spec fn ports_ok(board: &Board) -> bool {
    forall|k: int| 0 <= k < board.convertors@.len() ==> (#[trigger] board.convertors@[k]).resource < 5
}

/// The upgrade checks of move generation stay in the range of a `u8`.
pub open spec fn levels_checkable(s: StateView) -> bool {
    forall|i: int|
        0 <= i < 54 ==> #[trigger] s.settlements[i] <= 253 || (s.settlements[i] == 254
            && s.resources[3] < 255)
}

/// The building moves of a normal turn, taken from the road network. With
/// energy or water missing there are none. Otherwise each is a move that the
/// network allows; each free spot that the roads reach and the resources pay
/// for gets its settlement move; no road move occurs twice, in either
/// direction; where the adjacency and the edge ids are symmetric, each edge
/// not yet built at a reached node is listed one way or the other; and,
/// where the adjacency is symmetric,
/// no settlement move occurs twice.
pub open spec fn network_moves(s: StateView, board: &Board, net: Seq<Move>) -> bool {
    if s.resources[0] >= 1 && s.resources[1] >= 1 {
        &&& forall|k: int| 0 <= k < net.len() ==> network_move(s, board, #[trigger] net[k])
        &&& forall|x: u8|
            x < 54 && #[trigger] reached(s, board, x as int) && spot_free(s, board, x as int)
                && settlement_affordable(s) ==> net.contains(Move::BuildSettlement(x))
        &&& board_symmetric(board) ==> forall|u: u8, v: u8|
            #![trigger reached(s, board, u as int), adjacent(board, u as int, v as int)]
            reached(s, board, u as int) && adjacent(board, u as int, v as int) && !road_between(
                s,
                board,
                u as int,
                v as int,
            ) ==> net.contains(Move::BuildRoad(u, v)) || net.contains(Move::BuildRoad(v, u))
        &&& adjacency_symmetric(board) ==> settlements_distinct(net)
        &&& roads_distinct(net)
    } else {
        net.len() == 0
    }
}

/// The moves that `generate_legal_moves` lists in each phase.
pub open spec fn legal_moves(s: StateView, board: &Board, moves: Seq<Move>) -> bool {
    match s.phase {
        GamePhase::SetupCity1 | GamePhase::SetupCity2 => moves == city_moves(s, board, 54),
        GamePhase::SetupRoad1(x) | GamePhase::SetupRoad2(x) => {
            &&& moves == setup_road_moves(x, board.graph.adj@[x as int].order())
            &&& board.graph.adj@[x as int].order().to_set() == board.graph.adj@[x as int].neighbours@
        },
        GamePhase::NormalState => {
            let tail = normal_tail(s, board);
            &&& moves.len() >= tail.len()
            &&& moves.skip(moves.len() - tail.len()) == tail
            &&& network_moves(s, board, moves.take(moves.len() - tail.len()))
        },
    }
}

/// The inputs on which move generation stays inside the board and the
/// counters: the nodes it looks at exist, the edges it tests have ids, the
/// ports name resources, and the upgrade costs fit in a `u8`. Only what is
/// read counts: in a setup settlement phase the spots tested, and in a normal
/// turn the part of the network that the roads reach, which is searched only
/// when energy and water are at hand.
pub open spec fn generation_defined(s: StateView, board: &Board) -> bool {
    match s.phase {
        GamePhase::SetupCity1 | GamePhase::SetupCity2 => forall|i: int|
            0 <= i < 54 ==> #[trigger] spot_readable(s, board, i),
        GamePhase::SetupRoad1(x) | GamePhase::SetupRoad2(x) => x < board.graph.adj@.len(),
        GamePhase::NormalState => {
            &&& s.resources[0] >= 1 && s.resources[1] >= 1 ==> network_readable(s, board)
            &&& ports_ok(board)
            &&& levels_checkable(s)
        },
    }
}

/// The sum of the settlement levels.
pub open spec fn level_sum(levels: Seq<u8>) -> int
    decreases levels.len(),
{
    if levels.len() == 0 {
        0
    } else {
        level_sum(levels.drop_last()) + levels.last()
    }
}

proof fn lemma_level_sum_update(levels: Seq<u8>, x: int, v: u8)
    requires
        0 <= x < levels.len(),
    ensures
        level_sum(levels.update(x, v)) == level_sum(levels) - levels[x] + v,
    decreases levels.len(),
{
    if x < levels.len() - 1 {
        assert(levels.update(x, v).drop_last() =~= levels.drop_last().update(x, v));
        lemma_level_sum_update(levels.drop_last(), x, v);
    } else {
        assert(levels.update(x, v).drop_last() =~= levels.drop_last());
    }
}

/// After a road is built between `u` and `v`, `has_road` finds it there.
pub proof fn lemma_road_built(s: StateView, board: &Board, u: u8, v: u8, start_turn: bool)
    requires
        can_apply(s, Move::BuildRoad(u, v), board, start_turn),
    ensures
        road_between(after_move(s, Move::BuildRoad(u, v), board, start_turn), board, u as int, v as int),
{
}

/// No move takes a road away, lowers the score or turns the turn counter back;
/// ending the turn advances the counter by exactly one and no other move
/// touches it; building and upgrading add exactly one point and no other
/// move changes the score.
pub proof fn lemma_move_monotone(s: StateView, action: Move, board: &Board, start_turn: bool)
    requires
        can_apply(s, action, board, start_turn),
    ensures
        s.roads.subset_of(after_move(s, action, board, start_turn).roads),
        after_move(s, action, board, start_turn).points == s.points + if action is BuildSettlement
            || action is UpgradeSettlement {
            1int
        } else {
            0
        },
        after_move(s, action, board, start_turn).turn_number == s.turn_number + if action is EndTurn {
            1int
        } else {
            0
        },
{
}

proof fn lemma_city_moves_free(s: StateView, board: &Board, n: int, k: int)
    requires
        n <= 54,
        0 <= k < city_moves(s, board, n).len(),
    ensures
        city_moves(s, board, n)[k] matches Move::BuildSettlement(x) && x < n && s.settlements[x as int] == 0
            && spot_free(s, board, x as int),
    decreases n,
{
    if n > 0 {
        if k < city_moves(s, board, n - 1).len() {
            lemma_city_moves_free(s, board, n - 1, k);
        }
    }
}

proof fn lemma_trades_shape(x: u8, y: u8, m: int, k: int)
    requires
        m <= 255,
        0 <= k < trades_from(x, y, m).len(),
    ensures
        trades_from(x, y, m)[k] matches Move::Trade(a, b, z) && a == x && b == y && z < m && z != y,
    decreases m,
{
    if m > 0 {
        if k < trades_from(x, y, m - 1).len() {
            lemma_trades_shape(x, y, m - 1, k);
        } else {
            assert(trades_from(x, y, m)[k] == Move::Trade(x, y, (m - 1) as u8));
        }
    }
}

pub(crate) proof fn lemma_upgrade_moves_shape(s: StateView, n: int, k: int)
    requires
        n <= 54,
        0 <= k < upgrade_moves(s, n).len(),
    ensures
        upgrade_moves(s, n)[k] matches Move::UpgradeSettlement(i) && i < n && s.settlements[i as int] >= 1
            && s.resources[3] >= s.settlements[i as int] + 1 && s.resources[4] >= s.settlements[i as int] + 2,
    decreases n,
{
    if n > 0 {
        if k < upgrade_moves(s, n - 1).len() {
            lemma_upgrade_moves_shape(s, n - 1, k);
        } else {
            assert(upgrade_moves(s, n)[k] == Move::UpgradeSettlement((n - 1) as u8));
        }
    }
}

pub(crate) proof fn lemma_port_moves_shape(s: StateView, ports: Seq<Convertor>, n: int, k: int)
    requires
        0 <= k < port_moves(s, ports, n).len(),
    ensures
        port_moves(s, ports, n)[k] matches Move::Trade(a, b, z) && exists|j: int|
            0 <= j < n && a == port_rate(#[trigger] ports[j]) && b == ports[j].resource && s.resources[b as int]
                >= a && z < 5 && z != b,
    decreases n,
{
    if n > 0 {
        let prev = port_moves(s, ports, n - 1);
        if k < prev.len() {
            lemma_port_moves_shape(s, ports, n - 1, k);
        } else {
            let c = ports[n - 1];
            lemma_trades_shape(port_rate(c), c.resource, 5, k - prev.len());
            assert(port_rate(ports[n - 1]) == port_rate(c));
        }
    }
}

pub(crate) proof fn lemma_bank_moves_shape(s: StateView, n: int, k: int)
    requires
        n <= 5,
        0 <= k < bank_moves(s, n).len(),
    ensures
        bank_moves(s, n)[k] matches Move::Trade(a, b, z) && a == 4 && b < n && s.resources[b as int] >= 4 && z < 5
            && z != b,
    decreases n,
{
    if n > 0 {
        let prev = bank_moves(s, n - 1);
        if k < prev.len() {
            lemma_bank_moves_shape(s, n - 1, k);
        } else {
            lemma_trades_shape(4, (n - 1) as u8, 5, k - prev.len());
            assert(bank_moves(s, n)[k] == trades_from(4, (n - 1) as u8, 5)[k - prev.len()]);
        }
    }
}

proof fn lemma_tail_has_no_settlement(s: StateView, board: &Board, k: int)
    requires
        0 <= k < normal_tail(s, board).len(),
    ensures
        !(normal_tail(s, board)[k] is BuildSettlement),
{
    let u = upgrade_moves(s, 54);
    let p = port_moves(s, board.convertors@, board.convertors@.len() as int);
    let b = bank_moves(s, 5);
    assert(normal_tail(s, board) == u + p + b + seq![Move::EndTurn]);
    if k < u.len() {
        lemma_upgrade_moves_shape(s, 54, k);
    } else if k < u.len() + p.len() {
        lemma_port_moves_shape(s, board.convertors@, board.convertors@.len() as int, k - u.len());
    } else if k < u.len() + p.len() + b.len() {
        lemma_bank_moves_shape(s, 5, k - u.len() - p.len());
    }
}

/// Every settlement move that `generate_legal_moves` lists goes on a node with
/// no settlement on it or next to it.
pub proof fn lemma_settlement_moves_free(s: StateView, board: &Board, moves: Seq<Move>, k: int)
    requires
        legal_moves(s, board, moves),
        0 <= k < moves.len(),
    ensures
        moves[k] matches Move::BuildSettlement(x) ==> x < 54 && s.settlements[x as int] == 0 && spot_free(
            s,
            board,
            x as int,
        ),
{
    match s.phase {
        GamePhase::SetupCity1 | GamePhase::SetupCity2 => {
            lemma_city_moves_free(s, board, 54, k);
        },
        GamePhase::SetupRoad1(_) | GamePhase::SetupRoad2(_) => {},
        GamePhase::NormalState => {
            let tail = normal_tail(s, board);
            let split = moves.len() - tail.len();
            if k < split {
                let net = moves.take(split);
                assert(net[k] == moves[k]);
                if !(s.resources[0] >= 1 && s.resources[1] >= 1) {
                    assert(net.len() == 0);
                }
            } else {
                assert(moves.skip(split)[k - split] == moves[k]);
                lemma_tail_has_no_settlement(s, board, k - split);
            }
        },
    }
}

/// The score counts the settlement levels: where the points equal the sum of
/// the levels, playing any listed move that can be applied keeps them equal.
pub proof fn lemma_points_track_levels(
    s: StateView,
    board: &Board,
    moves: Seq<Move>,
    k: int,
    start_turn: bool,
)
    requires
        state_shape(s),
        legal_moves(s, board, moves),
        0 <= k < moves.len(),
        can_apply(s, moves[k], board, start_turn),
        s.points == level_sum(s.settlements),
    ensures
        after_move(s, moves[k], board, start_turn).points == level_sum(
            after_move(s, moves[k], board, start_turn).settlements,
        ),
{
    lemma_settlement_moves_free(s, board, moves, k);
    match moves[k] {
        Move::BuildSettlement(x) => {
            lemma_level_sum_update(s.settlements, x as int, 1);
        },
        Move::UpgradeSettlement(x) => {
            lemma_level_sum_update(s.settlements, x as int, (s.settlements[x as int] + 1) as u8);
        },
        _ => {},
    }
}

/// On a board whose adjacency is symmetric, no free spot lies straight across
/// a road from a settlement, so every settlement move of a normal turn is
/// paid for.
pub proof fn lemma_symmetric_settlements_affordable(s: StateView, board: &Board, net: Seq<Move>, k: int)
    requires
        adjacency_symmetric(board),
        nodes_in_range(board),
        network_moves(s, board, net),
        0 <= k < net.len(),
    ensures
        net[k] is BuildSettlement ==> settlement_affordable(s),
{
    if net[k] is BuildSettlement && !settlement_affordable(s) {
        let x = net[k]->BuildSettlement_0;
        assert(network_move(s, board, net[k]));
        let t = choose|t: int| settled(s, t) && #[trigger] road_step(s, board, t, x as int);
        assert(board.graph.adj@[t].neighbours@.contains(x as u16));
        assert(board.graph.adj@[x as int].neighbours@.contains(t as u16));
        assert(false);
    }
}

/// No counter passes its maximum when `m` is played on `s`: the points of a
/// settlement or an upgrade, the setup bonus of a second settlement, the card
/// a trade gives, and the turn counter and the harvest of ending a turn.
pub open spec fn counters_fit(s: StateView, m: Move, board: &Board, start_turn: bool) -> bool {
    let r = s.resources;
    match m {
        Move::BuildSettlement(_) => {
            &&& s.points < 65535
            &&& s.phase is SetupCity2 ==> forall|i: int|
                0 <= i < 4 ==> #[trigger] settlement_paid(r, start_turn)[i] + 2 <= 255
        },
        Move::UpgradeSettlement(_) => s.points < 65535,
        Move::Trade(x, y, z) => r.update(y as int, (r[y as int] - x) as u8)[z as int] + 1 <= 255,
        Move::EndTurn => {
            &&& s.turn_number < 255
            &&& s.turn_number + 1 < board.turns@.len() ==> forall|i: int|
                0 <= i < 5 ==> r[i] + #[trigger] harvest(zone_of_turn(board, s.turn_number + 1), s.settlements, i)
                    <= 255
        },
        Move::BuildRoad(_, _) => true,
    }
}

/// Every move that `generate_legal_moves` lists can be played wherever no
/// counter passes its maximum (`counters_fit`), the adjacency among the nodes
/// is symmetric with an id below 128 for each edge, the ports name resources,
/// each roll names a zone whose entries name nodes and resources, and a setup
/// road phase names a node of the board.
pub proof fn lemma_listed_moves_apply(s: StateView, board: &Board, moves: Seq<Move>, k: int)
    requires
        state_shape(s),
        legal_moves(s, board, moves),
        0 <= k < moves.len(),
        counters_fit(s, moves[k], board, !(s.phase is NormalState)),
        nodes_in_range(board),
        adjacency_symmetric(board),
        forall|u: int, v: u16|
            0 <= u < 54 && #[trigger] board.graph.adj@[u].neighbours@.contains(v) ==> board.edge_id[u][v as int]
                < 128,
        ports_ok(board),
        forall|t: int| 0 <= t < board.turns@.len() ==> #[trigger] roll_ok(board, t, s.settlements),
        match s.phase {
            GamePhase::SetupRoad1(x) | GamePhase::SetupRoad2(x) => x < 54,
            _ => true,
        },
    ensures
        can_apply(s, moves[k], board, !(s.phase is NormalState)),
{
    match s.phase {
        GamePhase::SetupCity1 | GamePhase::SetupCity2 => {
            lemma_city_moves_free(s, board, 54, k);
        },
        GamePhase::SetupRoad1(x) | GamePhase::SetupRoad2(x) => {
            let order = board.graph.adj@[x as int].order();
            assert(moves[k] == Move::BuildRoad(x, order[k] as u8));
            assert(order.to_set().contains(order[k]));
            assert(board.graph.adj@[x as int].neighbours@.contains(order[k]));
        },
        GamePhase::NormalState => {
            let tail = normal_tail(s, board);
            let split = moves.len() - tail.len();
            if k < split {
                let net = moves.take(split);
                assert(net[k] == moves[k]);
                if !(s.resources[0] >= 1 && s.resources[1] >= 1) {
                    assert(net.len() == 0);
                }
                assert(network_move(s, board, net[k]));
                lemma_symmetric_settlements_affordable(s, board, net, k);
                match net[k] {
                    Move::BuildRoad(u, v) => {
                        assert(board.graph.adj@[u as int].neighbours@.contains(v as u16));
                    },
                    _ => {},
                }
            } else {
                let j = k - split;
                assert(moves.skip(split)[j] == moves[k]);
                let u = upgrade_moves(s, 54);
                let p = port_moves(s, board.convertors@, board.convertors@.len() as int);
                let b = bank_moves(s, 5);
                assert(tail == u + p + b + seq![Move::EndTurn]);
                if j < u.len() {
                    lemma_upgrade_moves_shape(s, 54, j);
                } else if j < u.len() + p.len() {
                    lemma_port_moves_shape(s, board.convertors@, board.convertors@.len() as int, j - u.len());
                    assert(tail[j] == p[j - u.len()]);
                } else if j < u.len() + p.len() + b.len() {
                    lemma_bank_moves_shape(s, 5, j - u.len() - p.len());
                    assert(tail[j] == b[j - u.len() - p.len()]);
                }
            }
        },
    }
}

} // verus!
