//! Laws of the game stated by what the moves do to the counters and by what
//! the move list of each phase holds, each over all inputs.

use vstd::prelude::*;
use crate::mcts::{Board, GamePhase, Move, StateView, move_weight, state_shape, weight_sum, weighted_pick};
use crate::network::{board_symmetric, reached};
use crate::text::{first_digit_value, is_ws, parse_unsigned, trim, trim_end, trim_start};
use crate::rules::{
    lemma_upgrade_moves_shape, lemma_port_moves_shape, lemma_bank_moves_shape, ports_ok, initial_state, lemma_settlement_moves_free, after_move, bank_moves, can_apply, city_moves, game_over, harvest, legal_moves, normal_tail,
    port_moves, trades_from, upgrade_moves,
};

verus! {

proof fn lemma_tail_listed(s: StateView, board: &Board, moves: Seq<Move>, w: int)
    requires
        legal_moves(s, board, moves),
        s.phase is NormalState,
        0 <= w < normal_tail(s, board).len(),
    ensures
        moves.contains(normal_tail(s, board)[w]),
{
    let tail = normal_tail(s, board);
    let split = moves.len() - tail.len();
    assert(moves.skip(split)[w] == moves[split + w]);
}

proof fn lemma_upgrade_listed_upto(s: StateView, n: int, i: int)
    requires
        0 <= i < n <= 54,
        s.settlements[i] >= 1,
        s.resources[3] >= s.settlements[i] + 1,
        s.resources[4] >= s.settlements[i] + 2,
    ensures
        upgrade_moves(s, n).contains(Move::UpgradeSettlement(i as u8)),
    decreases n,
{
    let prev = upgrade_moves(s, n - 1);
    if i < n - 1 {
        lemma_upgrade_listed_upto(s, n - 1, i);
        let w = choose|w: int| 0 <= w < prev.len() && prev[w] == Move::UpgradeSettlement(i as u8);
        assert(upgrade_moves(s, n)[w] == prev[w]);
    } else {
        assert(upgrade_moves(s, n)[prev.len() as int] == Move::UpgradeSettlement(i as u8));
    }
}

proof fn lemma_trade_listed_upto(x: u8, y: u8, m: int, j: int)
    requires
        0 <= j < m <= 5,
        j != y,
    ensures
        trades_from(x, y, m).contains(Move::Trade(x, y, j as u8)),
    decreases m,
{
    let prev = trades_from(x, y, m - 1);
    if j < m - 1 {
        lemma_trade_listed_upto(x, y, m - 1, j);
        let w = choose|w: int| 0 <= w < prev.len() && prev[w] == Move::Trade(x, y, j as u8);
        assert(trades_from(x, y, m)[w] == prev[w]);
    } else {
        assert(trades_from(x, y, m)[prev.len() as int] == Move::Trade(x, y, j as u8));
    }
}

proof fn lemma_bank_listed_upto(s: StateView, n: int, i: int, j: int)
    requires
        0 <= i < n <= 5,
        0 <= j < 5,
        j != i,
        s.resources[i] >= 4,
    ensures
        bank_moves(s, n).contains(Move::Trade(4, i as u8, j as u8)),
    decreases n,
{
    let prev = bank_moves(s, n - 1);
    if i < n - 1 {
        lemma_bank_listed_upto(s, n - 1, i, j);
        let w = choose|w: int| 0 <= w < prev.len() && prev[w] == Move::Trade(4, i as u8, j as u8);
        assert(bank_moves(s, n)[w] == prev[w]);
    } else {
        let t = trades_from(4, i as u8, 5);
        lemma_trade_listed_upto(4, i as u8, 5, j);
        let w = choose|w: int| 0 <= w < t.len() && t[w] == Move::Trade(4, i as u8, j as u8);
        assert(bank_moves(s, n) == prev + t);
        assert(bank_moves(s, n)[prev.len() + w] == t[w]);
    }
}

proof fn lemma_port_listed_upto(s: StateView, board: &Board, n: int, p: int, j: int)
    requires
        0 <= p < n <= board.convertors@.len(),
        board.convertors@[p].resource < 5,
        s.resources[board.convertors@[p].resource as int] >= (if board.convertors@[p].conv_type {
            3u8
        } else {
            2u8
        }),
        0 <= j < 5,
        j != board.convertors@[p].resource,
    ensures
        port_moves(s, board.convertors@, n).contains(
            Move::Trade(
                if board.convertors@[p].conv_type {
                    3u8
                } else {
                    2u8
                },
                board.convertors@[p].resource,
                j as u8,
            ),
        ),
    decreases n,
{
    let ports = board.convertors@;
    let c = ports[p];
    let rate: u8 = if c.conv_type {
        3
    } else {
        2
    };
    let prev = port_moves(s, ports, n - 1);
    if p < n - 1 {
        lemma_port_listed_upto(s, board, n - 1, p, j);
        let w = choose|w: int| 0 <= w < prev.len() && prev[w] == Move::Trade(rate, c.resource, j as u8);
        assert(port_moves(s, ports, n)[w] == prev[w]);
    } else {
        let t = trades_from(rate, c.resource, 5);
        lemma_trade_listed_upto(rate, c.resource, 5, j);
        let w = choose|w: int| 0 <= w < t.len() && t[w] == Move::Trade(rate, c.resource, j as u8);
        assert(port_moves(s, ports, n) == prev + t);
        assert(port_moves(s, ports, n)[prev.len() + w] == t[w]);
    }
}

/// In a normal turn every settlement that the resources can upgrade is
/// offered its upgrade: a settlement of level `l >= 1` when at least `l + 1`
/// RAM and `l + 2` GPU cards are at hand.
pub proof fn law_upgrades_listed(s: StateView, board: &Board, moves: Seq<Move>, i: u8)
    requires
        legal_moves(s, board, moves),
        s.phase is NormalState,
        i < 54,
        s.settlements[i as int] >= 1,
        s.resources[3] >= s.settlements[i as int] + 1,
        s.resources[4] >= s.settlements[i as int] + 2,
    ensures
        moves.contains(Move::UpgradeSettlement(i)),
{
    let u = upgrade_moves(s, 54);
    let p = port_moves(s, board.convertors@, board.convertors@.len() as int);
    let b = bank_moves(s, 5);
    lemma_upgrade_listed_upto(s, 54, i as int);
    let w = choose|w: int| 0 <= w < u.len() && u[w] == Move::UpgradeSettlement(i);
    assert(normal_tail(s, board) == u + p + b + seq![Move::EndTurn]);
    assert(normal_tail(s, board)[w] == u[w]);
    lemma_tail_listed(s, board, moves, w);
}

/// In a normal turn every trade with the bank is offered: four cards of any
/// resource held at least four times for one card of any other resource.
pub proof fn law_bank_trades_listed(s: StateView, board: &Board, moves: Seq<Move>, i: u8, j: u8)
    requires
        legal_moves(s, board, moves),
        s.phase is NormalState,
        i < 5,
        j < 5,
        i != j,
        s.resources[i as int] >= 4,
    ensures
        moves.contains(Move::Trade(4, i, j)),
{
    let u = upgrade_moves(s, 54);
    let p = port_moves(s, board.convertors@, board.convertors@.len() as int);
    let b = bank_moves(s, 5);
    lemma_bank_listed_upto(s, 5, i as int, j as int);
    let w = choose|w: int| 0 <= w < b.len() && b[w] == Move::Trade(4, i, j);
    assert(normal_tail(s, board) == u + p + b + seq![Move::EndTurn]);
    assert(normal_tail(s, board)[u.len() + p.len() + w] == b[w]);
    lemma_tail_listed(s, board, moves, u.len() + p.len() + w);
}

/// In a normal turn every port offers its trade wherever its resource is
/// held often enough: three cards for one where the port is of the 3:1 kind
/// (`conv_type` set), two cards for one otherwise, for each other resource.
pub proof fn law_port_trades_listed(s: StateView, board: &Board, moves: Seq<Move>, p: int, j: u8)
    requires
        legal_moves(s, board, moves),
        s.phase is NormalState,
        0 <= p < board.convertors@.len(),
        board.convertors@[p].resource < 5,
        s.resources[board.convertors@[p].resource as int] >= (if board.convertors@[p].conv_type {
            3u8
        } else {
            2u8
        }),
        j < 5,
        j != board.convertors@[p].resource,
    ensures
        moves.contains(
            Move::Trade(
                if board.convertors@[p].conv_type {
                    3u8
                } else {
                    2u8
                },
                board.convertors@[p].resource,
                j,
            ),
        ),
{
    let u = upgrade_moves(s, 54);
    let pm = port_moves(s, board.convertors@, board.convertors@.len() as int);
    let b = bank_moves(s, 5);
    let rate: u8 = if board.convertors@[p].conv_type {
        3
    } else {
        2
    };
    let m = Move::Trade(rate, board.convertors@[p].resource, j);
    lemma_port_listed_upto(s, board, board.convertors@.len() as int, p, j as int);
    let w = choose|w: int| 0 <= w < pm.len() && pm[w] == m;
    assert(normal_tail(s, board) == u + pm + b + seq![Move::EndTurn]);
    assert(normal_tail(s, board)[u.len() + w] == pm[w]);
    lemma_tail_listed(s, board, moves, u.len() + w);
}

/// A normal turn always offers to end the turn, as its last move.
pub proof fn law_end_turn_listed_last(s: StateView, board: &Board, moves: Seq<Move>)
    requires
        legal_moves(s, board, moves),
        s.phase is NormalState,
    ensures
        moves.len() >= 1,
        moves[moves.len() - 1] == Move::EndTurn,
{
    let tail = normal_tail(s, board);
    let split = moves.len() - tail.len();
    assert(moves.skip(split)[tail.len() - 1] == moves[moves.len() - 1]);
}

proof fn lemma_city_listed_upto(s: StateView, board: &Board, n: int, x: int)
    requires
        0 <= x < n <= 54,
        s.settlements[x] == 0,
        forall|v: u16| #[trigger] board.graph.adj@[x].neighbours@.contains(v) ==> s.settlements[v as int] == 0,
    ensures
        city_moves(s, board, n).contains(Move::BuildSettlement(x as u8)),
    decreases n,
{
    let prev = city_moves(s, board, n - 1);
    if x < n - 1 {
        lemma_city_listed_upto(s, board, n - 1, x);
        let w = choose|w: int| 0 <= w < prev.len() && prev[w] == Move::BuildSettlement(x as u8);
        assert(city_moves(s, board, n)[w] == prev[w]);
    } else {
        assert(city_moves(s, board, n)[prev.len() as int] == Move::BuildSettlement(x as u8));
    }
}

/// In a setup settlement phase every node with no settlement on it or next to
/// it is offered a settlement.
pub proof fn law_free_spots_listed(s: StateView, board: &Board, moves: Seq<Move>, x: u8)
    requires
        legal_moves(s, board, moves),
        s.phase is SetupCity1 || s.phase is SetupCity2,
        x < 54,
        s.settlements[x as int] == 0,
        forall|v: u16| #[trigger] board.graph.adj@[x as int].neighbours@.contains(v) ==> s.settlements[v as int] == 0,
    ensures
        moves.contains(Move::BuildSettlement(x)),
{
    lemma_city_listed_upto(s, board, 54, x as int);
}

/// The sum of the five resource counts.
pub open spec fn card_total(r: Seq<u8>) -> int {
    r[0] + r[1] + r[2] + r[3] + r[4]
}

/// Upgrading a settlement of level `l` raises it to `l + 1` and one point,
/// costs exactly `l + 1` RAM and `l + 2` GPU cards, and changes nothing else.
pub proof fn law_upgrade_pays(s: StateView, board: &Board, x: u8, start_turn: bool)
    requires
        state_shape(s),
        can_apply(s, Move::UpgradeSettlement(x), board, start_turn),
    ensures
        ({
            let a = after_move(s, Move::UpgradeSettlement(x), board, start_turn);
            let l = s.settlements[x as int];
            &&& a.settlements[x as int] == l + 1
            &&& forall|y: int| 0 <= y < 54 && y != x ==> a.settlements[y] == s.settlements[y]
            &&& a.resources[3] == s.resources[3] - (l + 1)
            &&& a.resources[4] == s.resources[4] - (l + 2)
            &&& forall|i: int| 0 <= i < 3 ==> a.resources[i] == s.resources[i]
            &&& a.resources.len() == 5
            &&& a.points == s.points + 1
            &&& card_total(a.resources) == card_total(s.resources) - (2 * l + 3)
        }),
{
}

/// Building a road costs one energy and one water card outside the setup
/// turns and nothing in them; nothing else changes hands.
pub proof fn law_road_pays(s: StateView, board: &Board, u: u8, v: u8, start_turn: bool)
    requires
        state_shape(s),
        can_apply(s, Move::BuildRoad(u, v), board, start_turn),
    ensures
        ({
            let a = after_move(s, Move::BuildRoad(u, v), board, start_turn);
            let cost: int = if start_turn {
                0
            } else {
                1
            };
            &&& a.resources[0] == s.resources[0] - cost
            &&& a.resources[1] == s.resources[1] - cost
            &&& forall|i: int| 2 <= i < 5 ==> a.resources[i] == s.resources[i]
            &&& a.points == s.points
            &&& a.settlements == s.settlements
            &&& card_total(a.resources) == card_total(s.resources) - 2 * cost
        }),
{
}

/// Building a settlement costs one card each of energy, water, data and RAM
/// outside the setup turns and nothing in them; the second setup settlement
/// brings two cards of each of these four. The node gets a level-1
/// settlement and the score one point.
pub proof fn law_settlement_pays(s: StateView, board: &Board, x: u8, start_turn: bool)
    requires
        state_shape(s),
        can_apply(s, Move::BuildSettlement(x), board, start_turn),
    ensures
        ({
            let a = after_move(s, Move::BuildSettlement(x), board, start_turn);
            let cost: int = if start_turn {
                0
            } else {
                1
            };
            let bonus: int = if s.phase is SetupCity2 {
                2
            } else {
                0
            };
            &&& forall|i: int| 0 <= i < 4 ==> a.resources[i] == s.resources[i] - cost + bonus
            &&& a.resources[4] == s.resources[4]
            &&& a.settlements[x as int] == 1
            &&& forall|y: int| 0 <= y < 54 && y != x ==> a.settlements[y] == s.settlements[y]
            &&& a.points == s.points + 1
            &&& card_total(a.resources) == card_total(s.resources) - 4 * cost + 4 * bonus
        }),
{
}

/// A trade gives `x` cards of resource `y` for one card of resource `z`: the
/// card total drops by `x - 1`, and with `y != z` exactly `y` and `z` change.
pub proof fn law_trade_pays(s: StateView, board: &Board, x: u8, y: u8, z: u8, start_turn: bool)
    requires
        state_shape(s),
        can_apply(s, Move::Trade(x, y, z), board, start_turn),
    ensures
        ({
            let a = after_move(s, Move::Trade(x, y, z), board, start_turn);
            &&& card_total(a.resources) == card_total(s.resources) - x + 1
            &&& y != z ==> a.resources[y as int] == s.resources[y as int] - x && a.resources[z as int]
                == s.resources[z as int] + 1
            &&& forall|i: int| 0 <= i < 5 && i != y && i != z ==> a.resources[i] == s.resources[i]
            &&& a.points == s.points
            &&& a.settlements == s.settlements
        }),
{
    let r = s.resources;
    let a = after_move(s, Move::Trade(x, y, z), board, start_turn);
    assert(a.resources.len() == 5);
    if y == z {
        assert(a.resources[y as int] == r[y as int] - x + 1);
    }
}

/// Adds to a running sum the settlement level of a zone entry's node where
/// the entry yields resource `i`.
pub open spec fn add_yield(levels: Seq<u8>, i: int) -> spec_fn(int, (u8, u8)) -> int {
    |acc: int, e: (u8, u8)|
        acc + if e.1 as int == i {
            levels[e.0 as int] as int
        } else {
            0int
        }
}

proof fn lemma_harvest_fold(zone: Seq<(u8, u8)>, levels: Seq<u8>, i: int)
    ensures
        harvest(zone, levels, i) == zone.fold_left(0int, add_yield(levels, i)),
    decreases zone.len(),
{
    if zone.len() > 0 {
        lemma_harvest_fold(zone.drop_last(), levels, i);
    }
}

/// Ending a turn moves the turn counter on by one; while rolls are left, each
/// resource `i` grows by the sum of the settlement levels over the entries of
/// the next roll's zone that yield `i` (a level-2 settlement on such an entry
/// adds two cards); after the last roll the resources stay. Nothing else
/// changes.
pub proof fn law_end_turn_harvest(s: StateView, board: &Board, start_turn: bool)
    requires
        state_shape(s),
        can_apply(s, Move::EndTurn, board, start_turn),
    ensures
        ({
            let a = after_move(s, Move::EndTurn, board, start_turn);
            let t = s.turn_number + 1;
            &&& a.turn_number == t
            &&& t < board.turns@.len() ==> forall|i: int|
                0 <= i < 5 ==> a.resources[i] == s.resources[i] + board.graph.zones@[board.turns@[t] as int]@.fold_left(0int, add_yield(s.settlements, i))
            &&& t >= board.turns@.len() ==> a.resources == s.resources
            &&& a.settlements == s.settlements
            &&& a.points == s.points
            &&& a.phase == s.phase
            &&& a.roads == s.roads
        }),
{
    let t = s.turn_number + 1;
    if t < board.turns@.len() {
        let zone = board.graph.zones@[board.turns@[t] as int]@;
        assert forall|i: int| 0 <= i < 5 implies after_move(s, Move::EndTurn, board, start_turn).resources[i]
            == s.resources[i] + zone.fold_left(0int, add_yield(s.settlements, i)) by {
            lemma_harvest_fold(zone, s.settlements, i);
            assert(s.resources[i] + harvest(zone, s.settlements, i) <= 255);
            assert(harvest(zone, s.settlements, i) >= 0) by {
                crate::rules::lemma_harvest_prefix(zone, s.settlements, i, 0);
            }
        }
    }
}

/// A game is over exactly once the turn counter has reached the number of
/// rolls: before the last roll it goes on, and ending the last turn ends it.
pub proof fn law_game_over_by_rolls(s: StateView, board: &Board, start_turn: bool)
    requires
        state_shape(s),
    ensures
        s.turn_number < board.turns@.len() ==> !game_over(s, board),
        s.turn_number >= board.turns@.len() ==> game_over(s, board),
        can_apply(s, Move::EndTurn, board, start_turn) && s.turn_number + 1 == board.turns@.len() ==> game_over(
            after_move(s, Move::EndTurn, board, start_turn),
            board,
        ),
        can_apply(s, Move::EndTurn, board, start_turn) && s.turn_number + 1 < board.turns@.len() ==> !game_over(
            after_move(s, Move::EndTurn, board, start_turn),
            board,
        ),
{
}

/// The weights by which a playout picks moves: an upgrade 100, a settlement
/// 95, a road 30, ending the turn 10, and a trade nothing.
pub proof fn law_move_weights(m: Move)
    ensures
        move_weight(m) == match m {
            Move::UpgradeSettlement(_) => 100nat,
            Move::BuildSettlement(_) => 95nat,
            Move::BuildRoad(_, _) => 30nat,
            Move::EndTurn => 10nat,
            Move::Trade(_, _, _) => 0nat,
        },
{
}

/// Adds a move's weight to a running sum.
pub open spec fn add_weight() -> spec_fn(int, Move) -> int {
    |acc: int, m: Move| acc + move_weight(m)
}

/// The total weight of the first `i` moves of `ms`.
pub open spec fn prefix_weight(ms: Seq<Move>, i: int) -> int {
    ms.take(i).fold_left(0int, add_weight())
}

proof fn lemma_prefix_weight_step(ms: Seq<Move>, i: int)
    requires
        0 <= i < ms.len(),
    ensures
        prefix_weight(ms, i + 1) == prefix_weight(ms, i) + move_weight(ms[i]),
{
    assert(ms.take(i + 1).drop_last() =~= ms.take(i));
}

proof fn lemma_prefix_weight_front(ms: Seq<Move>, i: int)
    requires
        0 <= i < ms.len(),
    ensures
        prefix_weight(ms, i + 1) == move_weight(ms[0]) + prefix_weight(ms.drop_first(), i),
    decreases i,
{
    lemma_prefix_weight_step(ms, i);
    if i == 0 {
        assert(ms.take(0) =~= Seq::<Move>::empty());
        assert(ms.drop_first().take(0) =~= Seq::<Move>::empty());
    } else {
        lemma_prefix_weight_front(ms, i - 1);
        lemma_prefix_weight_step(ms.drop_first(), i - 1);
    }
}

/// The total weight is the sum of the moves' weights.
pub proof fn law_total_weight_sums(ms: Seq<Move>)
    ensures
        weight_sum(ms) == prefix_weight(ms, ms.len() as int),
    decreases ms.len(),
{
    assert(ms.take(ms.len() as int) =~= ms);
    if ms.len() > 0 {
        law_total_weight_sums(ms.drop_last());
        assert(ms.drop_last().take(ms.drop_last().len() as int) =~= ms.drop_last());
    }
}

/// A number `r` below the total weight picks the move whose stretch of
/// weight holds `r`: the moves before it weigh at most `r` together, and with
/// it more than `r`.
pub proof fn law_pick_by_weight(ms: Seq<Move>, r: int, fallback: Move)
    requires
        0 <= r < prefix_weight(ms, ms.len() as int),
    ensures
        exists|i: int|
            0 <= i < ms.len() && weighted_pick(ms, r, fallback) == ms[i] && prefix_weight(ms, i) <= r
                < prefix_weight(ms, i) + move_weight(ms[i]),
    decreases ms.len(),
{
    if ms.len() == 0 {
        assert(ms.take(0) =~= Seq::<Move>::empty());
    } else {
        assert(ms.take(0) =~= Seq::<Move>::empty());
        if r < move_weight(ms[0]) {
            assert(prefix_weight(ms, 0) == 0);
        } else {
            let d = ms.drop_first();
            lemma_prefix_weight_front(ms, ms.len() - 1);
            assert(ms.take(ms.len() as int) =~= ms);
            law_pick_by_weight(d, r - move_weight(ms[0]), fallback);
            let j = choose|j: int|
                0 <= j < d.len() && weighted_pick(d, r - move_weight(ms[0]), fallback) == d[j] && prefix_weight(d, j)
                    <= r - move_weight(ms[0]) < prefix_weight(d, j) + move_weight(d[j]);
            lemma_prefix_weight_front(ms, j);
            assert(ms[j + 1] == d[j]);
        }
    }
}

/// How a move moves the phase on: the first setup settlement leads to its
/// road, that road to the second settlement, which leads to its road, and
/// that road to the normal turns; every other move keeps the phase.
pub proof fn law_phase_steps(s: StateView, m: Move, board: &Board, start_turn: bool)
    ensures
        after_move(s, m, board, start_turn).phase == match (s.phase, m) {
            (GamePhase::SetupCity1, Move::BuildSettlement(x)) => GamePhase::SetupRoad1(x),
            (GamePhase::SetupRoad1(_), Move::BuildRoad(_, _)) => GamePhase::SetupCity2,
            (GamePhase::SetupCity2, Move::BuildSettlement(x)) => GamePhase::SetupRoad2(x),
            (GamePhase::SetupRoad2(_), Move::BuildRoad(_, _)) => GamePhase::NormalState,
            (p, _) => p,
        },
{
}

/// In a normal turn with energy and water at hand, every free spot that the
/// roads reach is offered a settlement when the four cards it costs are at
/// hand.
pub proof fn law_network_settlements_listed(s: StateView, board: &Board, moves: Seq<Move>, x: u8)
    requires
        legal_moves(s, board, moves),
        s.phase is NormalState,
        x < 54,
        reached(s, board, x as int),
        s.settlements[x as int] == 0,
        forall|v: u16| #[trigger] board.graph.adj@[x as int].neighbours@.contains(v) ==> s.settlements[v as int] == 0,
        s.resources[0] >= 1 && s.resources[1] >= 1 && s.resources[2] >= 1 && s.resources[3] >= 1,
    ensures
        moves.contains(Move::BuildSettlement(x)),
{
    let tail = normal_tail(s, board);
    let net = moves.take(moves.len() - tail.len());
    assert(net.contains(Move::BuildSettlement(x)));
    let w = choose|w: int| 0 <= w < net.len() && net[w] == Move::BuildSettlement(x);
    assert(moves[w] == net[w]);
}

/// In a normal turn with energy and water at hand, on a board whose adjacency
/// and edge ids are the same both ways, every edge without a road at a node
/// that the roads reach is offered as a road, one way or the other.
pub proof fn law_network_roads_listed(s: StateView, board: &Board, moves: Seq<Move>, u: u8, v: u8)
    requires
        legal_moves(s, board, moves),
        s.phase is NormalState,
        board_symmetric(board),
        s.resources[0] >= 1 && s.resources[1] >= 1,
        reached(s, board, u as int),
        v < 54,
        board.graph.adj@[u as int].neighbours@.contains(v as u16),
        !s.roads.contains(board.edge_id[u as int][v as int] as int),
    ensures
        moves.contains(Move::BuildRoad(u, v)) || moves.contains(Move::BuildRoad(v, u)),
{
    let tail = normal_tail(s, board);
    let net = moves.take(moves.len() - tail.len());
    assert(crate::rules::adjacent(board, u as int, v as int));
    assert(net.contains(Move::BuildRoad(u, v)) || net.contains(Move::BuildRoad(v, u)));
    if net.contains(Move::BuildRoad(u, v)) {
        let w = choose|w: int| 0 <= w < net.len() && net[w] == Move::BuildRoad(u, v);
        assert(moves[w] == net[w]);
    } else {
        let w = choose|w: int| 0 <= w < net.len() && net[w] == Move::BuildRoad(v, u);
        assert(moves[w] == net[w]);
    }
}

/// Every move listed in a normal turn is one the rules allow: an upgrade of
/// a settlement whose cost is at hand, a trade of a held resource for another
/// one, four for one with the bank or at a port's rate (three for one where
/// `conv_type` is set, else two), a road out of a node that the roads reach
/// along an edge without a road while energy and water are at hand, a
/// settlement on a free spot that the roads reach, or, as the last move only,
/// ending the turn.
pub proof fn law_listed_moves_sound(s: StateView, board: &Board, moves: Seq<Move>, k: int)
    requires
        legal_moves(s, board, moves),
        s.phase is NormalState,
        ports_ok(board),
        0 <= k < moves.len(),
    ensures
        moves[k] matches Move::UpgradeSettlement(i) ==> i < 54 && s.settlements[i as int] >= 1 && s.resources[3]
            >= s.settlements[i as int] + 1 && s.resources[4] >= s.settlements[i as int] + 2,
        moves[k] matches Move::Trade(a, b, z) ==> b < 5 && z < 5 && b != z && s.resources[b as int] >= a && (a == 4
            || exists|p: int|
            0 <= p < board.convertors@.len() && #[trigger] board.convertors@[p].resource == b && a == (if board.convertors@[p].conv_type {
                3u8
            } else {
                2u8
            })),
        moves[k] matches Move::BuildRoad(u, v) ==> u < 54 && v < 54 && reached(s, board, u as int)
            && board.graph.adj@[u as int].neighbours@.contains(v as u16) && !s.roads.contains(
            board.edge_id[u as int][v as int] as int,
        ) && s.resources[0] >= 1 && s.resources[1] >= 1,
        moves[k] matches Move::BuildSettlement(x) ==> x < 54 && reached(s, board, x as int) && s.settlements[x as int]
            == 0 && forall|v: u16| #[trigger] board.graph.adj@[x as int].neighbours@.contains(v) ==> s.settlements[v as int] == 0,
        moves[k] == Move::EndTurn ==> k == moves.len() - 1,
{
    let tail = normal_tail(s, board);
    let split = moves.len() - tail.len();
    let u = upgrade_moves(s, 54);
    let p = port_moves(s, board.convertors@, board.convertors@.len() as int);
    let b = bank_moves(s, 5);
    assert(tail == u + p + b + seq![Move::EndTurn]);
    if k < split {
        let net = moves.take(split);
        assert(net[k] == moves[k]);
        if !(s.resources[0] >= 1 && s.resources[1] >= 1) {
            assert(net.len() == 0);
        }
        assert(crate::network::network_move(s, board, net[k]));
        if let Move::BuildRoad(x, y) = moves[k] {
            assert(board.graph.adj@[x as int].neighbours@.contains(y as u16));
        }
    } else {
        let j = k - split;
        assert(moves.skip(split)[j] == moves[k]);
        if j < u.len() {
            lemma_upgrade_moves_shape(s, 54, j);
        } else if j < u.len() + p.len() {
            lemma_port_moves_shape(s, board.convertors@, board.convertors@.len() as int, j - u.len());
            assert(tail[j] == p[j - u.len()]);
            if let Move::Trade(a, bb, z) = moves[k] {
                let q = choose|q: int|
                    0 <= q < board.convertors@.len() && a == crate::rules::port_rate(
                        #[trigger] board.convertors@[q],
                    ) && bb == board.convertors@[q].resource && s.resources[bb as int] >= a && z < 5 && z != bb;
                assert(board.convertors@[q].resource < 5);
            }
        } else if j < u.len() + p.len() + b.len() {
            lemma_bank_moves_shape(s, 5, j - u.len() - p.len());
            assert(tail[j] == b[j - u.len() - p.len()]);
        }
    }
}

/// A new game starts at turn 0 with no points, no cards, no settlements and
/// no roads, in the first setup settlement phase.
pub proof fn law_initial_state()
    ensures
        initial_state().turn_number == 0,
        initial_state().points == 0,
        initial_state().resources.len() == 5,
        forall|i: int| 0 <= i < 5 ==> #[trigger] initial_state().resources[i] == 0,
        initial_state().settlements.len() == 54,
        forall|x: int| 0 <= x < 54 ==> #[trigger] initial_state().settlements[x] == 0,
        initial_state().phase == GamePhase::SetupCity1,
        forall|e: int| !#[trigger] initial_state().roads.contains(e),
{
}

/// Every settlement listed in any phase goes on a node of the board with no
/// settlement on it or on any of its neighbours.
pub proof fn law_listed_settlements_free(s: StateView, board: &Board, moves: Seq<Move>, k: int, x: u8)
    requires
        legal_moves(s, board, moves),
        0 <= k < moves.len(),
        moves[k] == Move::BuildSettlement(x),
    ensures
        x < 54,
        s.settlements[x as int] == 0,
        forall|v: u16| #[trigger] board.graph.adj@[x as int].neighbours@.contains(v) ==> s.settlements[v as int] == 0,
{
    lemma_settlement_moves_free(s, board, moves, k);
}

/// In a setup road phase after a settlement on `x`, the listed moves are
/// exactly a road from `x` to each of its neighbours.
pub proof fn law_setup_roads_listed(s: StateView, board: &Board, moves: Seq<Move>, x: u8, v: u16)
    requires
        legal_moves(s, board, moves),
        s.phase == GamePhase::SetupRoad1(x) || s.phase == GamePhase::SetupRoad2(x),
    ensures
        board.graph.adj@[x as int].neighbours@.contains(v) ==> moves.contains(Move::BuildRoad(x, v as u8)),
        forall|k: int|
            0 <= k < moves.len() ==> exists|n: u16|
                #[trigger] board.graph.adj@[x as int].neighbours@.contains(n) && #[trigger] moves[k]
                    == Move::BuildRoad(x, n as u8),
{
    let order = board.graph.adj@[x as int].order();
    assert(moves == crate::rules::setup_road_moves(x, order));
    assert(moves.len() == order.len());
    if board.graph.adj@[x as int].neighbours@.contains(v) {
        assert(order.to_set().contains(v));
        let w = choose|w: int| 0 <= w < order.len() && order[w] == v;
        assert(moves[w] == Move::BuildRoad(x, v as u8));
    }
    assert forall|k: int| 0 <= k < moves.len() implies exists|n: u16|
        #[trigger] board.graph.adj@[x as int].neighbours@.contains(n) && #[trigger] moves[k] == Move::BuildRoad(
            x,
            n as u8,
        ) by {
        assert(moves[k] == Move::BuildRoad(x, order[k] as u8));
        assert(order.to_set().contains(order[k]));
        assert(board.graph.adj@[x as int].neighbours@.contains(order[k]));
    }
}

/// Parsing a single decimal digit gives its value.
pub proof fn law_parse_one_digit(c: char, max: int)
    requires
        '0' <= c <= '9',
        c as int - '0' as int <= max,
    ensures
        parse_unsigned(seq![c], max) == Some(c as int - '0' as int),
{
    let t = seq![c];
    assert(t.drop_last() =~= Seq::<char>::empty());
    assert(t[0] != '+');
    assert(crate::text::unsigned_digits(t) == t);
    assert(t.last() == c);
    assert(crate::text::digits_value(Seq::<char>::empty()) == 0);
    assert(crate::text::digits_value(t) == c as int - '0' as int);
    assert(crate::text::all_digits(t));
}

/// Appending a decimal digit `c` to a number that parses to `v` gives
/// `10 * v` plus the digit's value, as long as that stays within `max`.
pub proof fn law_parse_append_digit(t: Seq<char>, c: char, v: int, max: int)
    requires
        t.len() > 0,
        t[0] != '+',
        parse_unsigned(t, max) == Some(v),
        '0' <= c <= '9',
        10 * v + (c as int - '0' as int) <= max,
    ensures
        parse_unsigned(t.push(c), max) == Some(10 * v + (c as int - '0' as int)),
{
    assert(t.push(c).drop_last() =~= t);
}

/// A text with a character that is not a decimal digit (other than one
/// leading `+`) does not parse.
pub proof fn law_parse_rejects_non_digit(t: Seq<char>, max: int, i: int)
    requires
        0 <= i < t.len(),
        !('0' <= t[i] <= '9'),
        !(i == 0 && t[0] == '+'),
    ensures
        parse_unsigned(t, max) is None,
{
    if t.len() > 0 && t[0] == '+' {
        assert(t.drop_first()[i - 1] == t[i]);
    }
}

proof fn lemma_trim_start_shape(s: Seq<char>)
    ensures
        exists|i: int|
            0 <= i <= s.len() && trim_start(s) == s.subrange(i, s.len() as int) && (forall|k: int|
                0 <= k < i ==> is_ws(#[trigger] s[k])),
        trim_start(s).len() > 0 ==> !is_ws(trim_start(s)[0]),
    decreases s.len(),
{
    if s.len() > 0 && is_ws(s[0]) {
        lemma_trim_start_shape(s.drop_first());
        let d = s.drop_first();
        let i = choose|i: int|
            0 <= i <= d.len() && trim_start(d) == d.subrange(i, d.len() as int) && (forall|k: int|
                0 <= k < i ==> is_ws(#[trigger] d[k]));
        assert(d.subrange(i, d.len() as int) =~= s.subrange(i + 1, s.len() as int));
        assert forall|k: int| 0 <= k < i + 1 implies is_ws(#[trigger] s[k]) by {
            if k > 0 {
                assert(s[k] == d[k - 1]);
            }
        }
    } else {
        assert(s.subrange(0, s.len() as int) =~= s);
    }
}

proof fn lemma_trim_end_shape(s: Seq<char>)
    ensures
        exists|j: int|
            0 <= j <= s.len() && trim_end(s) == s.subrange(0, j) && (forall|k: int|
                j <= k < s.len() ==> is_ws(#[trigger] s[k])),
        trim_end(s).len() > 0 ==> !is_ws(trim_end(s).last()),
    decreases s.len(),
{
    if s.len() > 0 && is_ws(s.last()) {
        lemma_trim_end_shape(s.drop_last());
        let d = s.drop_last();
        let j = choose|j: int|
            0 <= j <= d.len() && trim_end(d) == d.subrange(0, j) && (forall|k: int|
                j <= k < d.len() ==> is_ws(#[trigger] d[k]));
        assert(d.subrange(0, j) =~= s.subrange(0, j));
        assert forall|k: int| j <= k < s.len() implies is_ws(#[trigger] s[k]) by {
            if k < s.len() - 1 {
                assert(s[k] == d[k]);
            }
        }
    } else {
        assert(s.subrange(0, s.len() as int) =~= s);
    }
}

/// Trimming keeps a contiguous piece of the text, drops only whitespace
/// before and after it, and leaves no whitespace at either end.
pub proof fn law_trim_strips(s: Seq<char>)
    ensures
        exists|i: int, j: int|
            0 <= i <= j <= s.len() && trim(s) == s.subrange(i, j) && (forall|k: int|
                0 <= k < i ==> is_ws(#[trigger] s[k])) && (forall|k: int| j <= k < s.len() ==> is_ws(#[trigger] s[k])),
        trim(s).len() > 0 ==> !is_ws(trim(s)[0]) && !is_ws(trim(s).last()),
{
    lemma_trim_start_shape(s);
    let a = trim_start(s);
    let i = choose|i: int|
        0 <= i <= s.len() && trim_start(s) == s.subrange(i, s.len() as int) && (forall|k: int|
            0 <= k < i ==> is_ws(#[trigger] s[k]));
    lemma_trim_end_shape(a);
    let j = choose|j: int|
        0 <= j <= a.len() && trim_end(a) == a.subrange(0, j) && (forall|k: int|
            j <= k < a.len() ==> is_ws(#[trigger] a[k]));
    assert(a.subrange(0, j) =~= s.subrange(i, i + j));
    assert forall|k: int| i + j <= k < s.len() implies is_ws(#[trigger] s[k]) by {
        assert(s[k] == a[k - i]);
    }
    if trim(s).len() > 0 {
        assert(trim(s)[0] == a[0]);
    }
}

/// The first digit of a text is the value of its first character that is a
/// decimal digit; there is none exactly when no character is one.
pub proof fn law_first_digit(s: Seq<char>)
    ensures
        first_digit_value(s) is None <==> forall|k: int| 0 <= k < s.len() ==> !('0' <= #[trigger] s[k] <= '9'),
        forall|i: int|
            0 <= i < s.len() && '0' <= #[trigger] s[i] <= '9' && (forall|k: int|
                0 <= k < i ==> !('0' <= #[trigger] s[k] <= '9')) ==> first_digit_value(s) == Some(
                s[i] as int - '0' as int,
            ),
    decreases s.len(),
{
    if s.len() > 0 {
        let d = s.drop_first();
        law_first_digit(d);
        if !('0' <= s[0] <= '9') {
            assert forall|k: int| 0 <= k < s.len() && k > 0 implies s[k] == d[k - 1] by {}
            assert forall|i: int|
                0 <= i < s.len() && '0' <= #[trigger] s[i] <= '9' && (forall|k: int|
                    0 <= k < i ==> !('0' <= #[trigger] s[k] <= '9')) implies first_digit_value(s) == Some(
                s[i] as int - '0' as int,
            ) by {
                assert(s[i] == d[i - 1]);
                assert forall|k: int| 0 <= k < i - 1 implies !('0' <= #[trigger] d[k] <= '9') by {
                    assert(d[k] == s[k + 1]);
                }
            }
            if first_digit_value(s) is None {
                assert forall|k: int| 0 <= k < s.len() implies !('0' <= #[trigger] s[k] <= '9') by {
                    if k > 0 {
                        assert(s[k] == d[k - 1]);
                    }
                }
            } else {
                let k0 = choose|k: int| 0 <= k < d.len() && '0' <= #[trigger] d[k] <= '9';
                assert(s[k0 + 1] == d[k0]);
            }
        } else {
            assert forall|i: int|
                0 <= i < s.len() && '0' <= #[trigger] s[i] <= '9' && (forall|k: int|
                    0 <= k < i ==> !('0' <= #[trigger] s[k] <= '9')) implies first_digit_value(s) == Some(
                s[i] as int - '0' as int,
            ) by {
                if i > 0 {
                    assert(!('0' <= s[0] <= '9'));
                }
            }
        }
    }
}

} // verus!
