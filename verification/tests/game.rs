use settlers_mcts::edges::number_edges;
use settlers_mcts::mcts::{
    pick_move, play_with_draws, simulate_random_game, total_weight, Board, DynamicState, GamePhase, MCTSearch,
    Move, Node,
};
use settlers_mcts::reader::{read_graph, Graph};

const HEX_LINES: [&str; 19] = [
    "0 10 4 8 12 7 3 0",
    "1 2 5 9 13 8 4 1",
    "2 9 6 10 14 9 5 2",
    "3 12 12 17 22 16 11 7",
    "4 6 13 18 23 17 12 8",
    "0 4 14 19 24 18 13 9",
    "1 10 15 20 25 19 14 10",
    "2 9 22 28 33 27 21 16",
    "3 11 23 29 34 28 22 17",
    "5 0 24 30 35 29 23 18",
    "4 3 25 31 36 30 24 19",
    "0 8 26 32 37 31 25 20",
    "1 8 34 39 43 38 33 28",
    "2 3 35 40 44 39 34 29",
    "3 4 36 41 45 40 35 30",
    "4 5 37 42 46 41 36 31",
    "0 5 44 48 51 47 43 39",
    "1 6 45 49 52 48 44 40",
    "2 11 46 50 53 49 45 41",
];

const PORT_LINES: [&str; 6] = ["21 a 0 3", "3:1 b 1 5", "4x c", "x0y d 10 14", "A1 e 26", "B2 f 46 50"];

fn sample_board() -> Board {
    let mut lines = vec!["4\n".to_string(), "20\n".to_string()];
    for l in HEX_LINES.iter() {
        lines.push(format!("{}\n", l));
    }
    for l in PORT_LINES.iter() {
        lines.push(format!("{}\n", l));
    }
    lines.push("6 8 5 9 4 10 3 11 2 12 6 8\n".to_string());
    let (graph, _, _, convertors, turns) = read_graph(&lines).unwrap();
    let edge_id = number_edges(&graph);
    Board { graph, convertors, edge_id, turns }
}

/// The state after both setup rounds: settlements on 0 and 20, roads 0-4 and 20-25.
fn after_setup(board: &Board) -> DynamicState {
    let mut s = DynamicState::new();
    s.apply_move(Move::BuildSettlement(0), board, true);
    s.apply_move(Move::BuildRoad(0, 4), board, true);
    s.apply_move(Move::BuildSettlement(20), board, true);
    s.apply_move(Move::BuildRoad(20, 25), board, true);
    s
}

fn same_moves(a: &[Move], b: &[Move]) -> bool {
    a.len() == b.len() && a.iter().all(|m| b.contains(m)) && b.iter().all(|m| a.contains(m))
}

#[test]
fn weights_of_moves() {
    assert_eq!(Move::UpgradeSettlement(3).weight(), 100);
    assert_eq!(Move::BuildSettlement(3).weight(), 95);
    assert_eq!(Move::BuildRoad(1, 2).weight(), 30);
    assert_eq!(Move::EndTurn.weight(), 10);
    assert_eq!(Move::Trade(4, 0, 1).weight(), 0);
}

#[test]
fn total_weight_and_pick() {
    let moves = vec![Move::EndTurn, Move::BuildRoad(0, 3), Move::Trade(4, 0, 1), Move::BuildSettlement(7)];
    assert_eq!(total_weight(&moves), Some(135));
    assert_eq!(pick_move(&moves, 0), Move::EndTurn);
    assert_eq!(pick_move(&moves, 9), Move::EndTurn);
    assert_eq!(pick_move(&moves, 10), Move::BuildRoad(0, 3));
    assert_eq!(pick_move(&moves, 39), Move::BuildRoad(0, 3));
    assert_eq!(pick_move(&moves, 40), Move::BuildSettlement(7));
    assert_eq!(pick_move(&moves, 134), Move::BuildSettlement(7));
    assert_eq!(pick_move(&moves, 135), Move::EndTurn);
    let trades = vec![Move::Trade(4, 0, 1), Move::Trade(4, 0, 2)];
    assert_eq!(total_weight(&trades), Some(0));
    assert_eq!(pick_move(&trades, 0), Move::Trade(4, 0, 1));
    assert_eq!(total_weight(&vec![]), Some(0));
}

#[test]
fn edge_ids_number_each_edge_once() {
    let board = sample_board();
    let ids = board.edge_id;
    let mut seen = std::collections::HashSet::new();
    for u in 0..54usize {
        for v in 0..54usize {
            let linked = board.graph.adj[u].neighbours.contains(&(v as u16));
            assert_eq!(ids[u][v] != 255, linked);
            if linked {
                assert_eq!(ids[u][v], ids[v][u]);
                assert!(ids[u][v] < 72);
                seen.insert(ids[u][v]);
            }
        }
    }
    assert_eq!(seen.len(), 72);
    let mut first = vec![ids[0][3], ids[0][4]];
    first.sort();
    assert_eq!(first, vec![0, 1]);
    assert_eq!(ids[0][5], 255);
}

#[test]
fn new_state() {
    let board = sample_board();
    let s = DynamicState::new();
    assert_eq!(s.get_points(), 0);
    assert!(matches!(s.phase, GamePhase::SetupCity1));
    assert!(!s.is_game_over(&board));
    assert!(!s.has_road(0, 4, &board));
    assert!(s.valid_settlement_spot(&board, 0));
    assert!(s.levels_checkable_now());
}

#[test]
fn first_setup_lists_every_node() {
    let board = sample_board();
    let s = DynamicState::new();
    let moves = s.generate_legal_moves(&board);
    let expected: Vec<Move> = (0..54u8).map(Move::BuildSettlement).collect();
    assert_eq!(moves, expected);
}

#[test]
fn setup_rounds() {
    let board = sample_board();
    let mut s = DynamicState::new();
    s.apply_move(Move::BuildSettlement(0), &board, true);
    assert_eq!(s.get_points(), 1);
    assert_eq!(s.phase, GamePhase::SetupRoad1(0));
    let moves = s.generate_legal_moves(&board);
    assert!(same_moves(&moves, &[Move::BuildRoad(0, 3), Move::BuildRoad(0, 4)]));
    s.apply_move(Move::BuildRoad(0, 4), &board, true);
    assert_eq!(s.phase, GamePhase::SetupCity2);
    assert!(s.has_road(0, 4, &board));
    assert!(s.has_road(4, 0, &board));
    assert!(!s.has_road(0, 3, &board));
    assert!(!s.valid_settlement_spot(&board, 0));
    assert!(!s.valid_settlement_spot(&board, 3));
    assert!(!s.valid_settlement_spot(&board, 4));
    assert!(s.valid_settlement_spot(&board, 8));
    let moves = s.generate_legal_moves(&board);
    assert_eq!(moves.len(), 51);
    assert!(!moves.contains(&Move::BuildSettlement(3)));
    s.apply_move(Move::BuildSettlement(20), &board, true);
    assert_eq!(s.get_points(), 2);
    assert_eq!(s.phase, GamePhase::SetupRoad2(20));
    let moves = s.generate_legal_moves(&board);
    assert!(same_moves(&moves, &[Move::BuildRoad(20, 15), Move::BuildRoad(20, 25), Move::BuildRoad(20, 26)]));
    s.apply_move(Move::BuildRoad(20, 25), &board, true);
    assert_eq!(s.phase, GamePhase::NormalState);
}

#[test]
fn normal_turn_moves() {
    let board = sample_board();
    let s = after_setup(&board);
    let moves = s.generate_legal_moves(&board);
    assert_eq!(moves.len(), 20);
    let network = &moves[..7];
    let expected_network = [
        Move::BuildRoad(0, 3),
        Move::BuildRoad(4, 8),
        Move::BuildRoad(4, 1),
        Move::BuildRoad(20, 15),
        Move::BuildRoad(20, 26),
        Move::BuildRoad(25, 19),
        Move::BuildRoad(25, 31),
    ];
    assert!(same_moves(network, &expected_network));
    assert_eq!(
        &moves[7..],
        &[
            Move::Trade(2, 2, 0),
            Move::Trade(2, 2, 1),
            Move::Trade(2, 2, 3),
            Move::Trade(2, 2, 4),
            Move::Trade(2, 1, 0),
            Move::Trade(2, 1, 2),
            Move::Trade(2, 1, 3),
            Move::Trade(2, 1, 4),
            Move::Trade(2, 2, 0),
            Move::Trade(2, 2, 1),
            Move::Trade(2, 2, 3),
            Move::Trade(2, 2, 4),
            Move::EndTurn,
        ]
    );
}

#[test]
fn rolls_harvest_resources() {
    let board = sample_board();
    let mut s = after_setup(&board);
    for _ in 0..5 {
        assert!(s.is_applicable(Move::EndTurn, &board, false));
        s.apply_move(Move::EndTurn, &board, false);
    }
    let moves = s.generate_legal_moves(&board);
    for j in 1..5u8 {
        assert!(moves.contains(&Move::Trade(4, 0, j)));
    }
    assert!(!moves.contains(&Move::Trade(4, 1, 0)));
    assert!(!s.is_game_over(&board));
    for _ in 0..7 {
        s.apply_move(Move::EndTurn, &board, false);
    }
    assert!(s.is_game_over(&board));
    assert_eq!(s.get_points(), 2);
}

#[test]
fn building_and_trading_in_a_normal_turn() {
    let board = sample_board();
    let mut s = after_setup(&board);
    assert!(s.is_applicable(Move::BuildRoad(0, 3), &board, false));
    s.apply_move(Move::BuildRoad(0, 3), &board, false);
    assert!(s.has_road(0, 3, &board));
    assert!(s.has_road(3, 0, &board));
    assert!(!s.is_applicable(Move::BuildRoad(0, 5), &board, false));
    assert!(!s.is_applicable(Move::Trade(5, 0, 1), &board, false));
    assert!(s.is_applicable(Move::Trade(2, 2, 4), &board, false));
    s.apply_move(Move::Trade(2, 2, 4), &board, false);
    let moves = s.generate_legal_moves(&board);
    assert!(!moves.contains(&Move::Trade(2, 2, 0)));
    assert!(!s.is_applicable(Move::UpgradeSettlement(0), &board, false));
    assert!(!s.is_applicable(Move::BuildSettlement(8), &board, false));
    assert_eq!(s.get_points(), 2);
}

#[test]
fn playout_keeps_the_points() {
    let board = sample_board();
    let start = DynamicState::new();
    let points = simulate_random_game(start, &board);
    assert!(points >= 2);
    let s = after_setup(&board);
    assert!(simulate_random_game(s, &board) >= 2);
}

#[test]
fn playout_of_a_finished_game() {
    let board = sample_board();
    let mut s = after_setup(&board);
    for _ in 0..12 {
        s.apply_move(Move::EndTurn, &board, false);
    }
    assert_eq!(simulate_random_game(s, &board), 2);
}

#[test]
fn search_tree_nodes() {
    let board = sample_board();
    let s = DynamicState::new();
    let root = Node::new(s, &board);
    assert_eq!(root.visits, 0);
    assert_eq!(root.current_score_bits, 0);
    assert_eq!(root.untried_actions.len(), 54);
    assert!(root.parent.is_none());
    assert!(root.children.is_empty());
    let child = Node::new(after_setup(&board), &board);
    let mut tree = MCTSearch::new(root);
    tree.add_child(0, child);
    let grandchild = Node::new(after_setup(&board), &board);
    tree.add_child(1, grandchild);
}

#[test]
fn port_rates_follow_the_port_kind() {
    let board = sample_board();
    let mut s = after_setup(&board);
    let moves = s.generate_legal_moves(&board);
    // ports of the plain kind trade 2:1, the others 3:1
    assert!(moves.contains(&Move::Trade(2, 2, 0)));
    assert!(moves.contains(&Move::Trade(2, 1, 0)));
    assert!(!moves.contains(&Move::Trade(2, 3, 0)));
    assert!(!moves.contains(&Move::Trade(2, 0, 1)));
    assert!(!moves.iter().any(|m| matches!(m, Move::Trade(3, _, _))));
    s.apply_move(Move::Trade(2, 2, 3), &board, false);
    let moves = s.generate_legal_moves(&board);
    for j in [0u8, 1, 2, 4] {
        assert!(moves.contains(&Move::Trade(3, 3, j)));
    }
    assert!(!moves.contains(&Move::Trade(2, 3, 0)));
}

#[test]
fn every_unbuilt_road_of_the_network_is_offered() {
    let board = sample_board();
    let mut s = DynamicState::new();
    s.apply_move(Move::BuildSettlement(8), &board, true);
    s.apply_move(Move::BuildRoad(8, 12), &board, true);
    s.apply_move(Move::BuildSettlement(37), &board, true);
    s.apply_move(Move::BuildRoad(37, 32), &board, true);
    for (u, v) in [(12u8, 7u8), (7, 3), (3, 0), (8, 4)] {
        s.apply_move(Move::BuildRoad(u, v), &board, true);
    }
    let moves = s.generate_legal_moves(&board);
    let reached = [8u8, 12, 7, 3, 0, 4, 37, 32];
    for &u in reached.iter() {
        for &v in board.graph.adj[u as usize].neighbours.iter() {
            let v = v as u8;
            if !s.has_road(u, v, &board) {
                assert!(moves.contains(&Move::BuildRoad(u, v)) || moves.contains(&Move::BuildRoad(v, u)));
            }
        }
    }
    assert!(moves.contains(&Move::BuildRoad(0, 4)) || moves.contains(&Move::BuildRoad(4, 0)));
    for (a, m) in moves.iter().enumerate() {
        if let Move::BuildRoad(u, v) = m {
            assert!(reached.contains(u));
            assert!(!s.has_road(*u, *v, &board));
            for n in moves[a + 1..].iter() {
                assert_ne!(*n, Move::BuildRoad(*u, *v));
                assert_ne!(*n, Move::BuildRoad(*v, *u));
            }
        }
    }
}

#[test]
fn end_turn_reads_resources_of_settled_entries_only() {
    let mut board = sample_board();
    let s = after_setup(&board);
    let next_roll = board.turns[1] as usize;
    board.graph.zones[next_roll].push((53, 9));
    assert!(s.is_applicable(Move::EndTurn, &board, false));
    let mut t = s;
    t.apply_move(Move::EndTurn, &board, false);
    assert!(!t.is_game_over(&board));
    board.graph.zones[next_roll].push((0, 9));
    assert!(!s.is_applicable(Move::EndTurn, &board, false));
}

/// The numbers that play every setup move with 0 and then always pick the
/// last move of a normal turn (ending it), with the state they lead to.
fn end_turn_draws(board: &Board, start: DynamicState) -> (Vec<u32>, DynamicState) {
    let mut s = start;
    let mut draws = vec![];
    while !s.is_game_over(board) {
        let moves = s.generate_legal_moves(board);
        let total = total_weight(&moves).unwrap();
        let normal = matches!(s.phase, GamePhase::NormalState);
        let d = if normal { total - 1 } else { 0 };
        let m = pick_move(&moves, d);
        if normal {
            assert_eq!(m, Move::EndTurn);
        }
        s.apply_move(m, board, !normal);
        draws.push(d);
    }
    (draws, s)
}

#[test]
fn play_with_draws_follows_the_numbers() {
    let board = sample_board();
    let (draws, end) = end_turn_draws(&board, DynamicState::new());
    let r = play_with_draws(DynamicState::new(), &board, &draws).unwrap();
    assert!(r.is_game_over(&board));
    assert_eq!(r.get_points(), 2);
    assert_eq!(r.get_points(), end.get_points());
    // too few numbers, too many, or one beyond the total weight
    assert!(play_with_draws(DynamicState::new(), &board, &draws[..draws.len() - 1].to_vec()).is_none());
    let mut more = draws.clone();
    more.push(0);
    assert!(play_with_draws(DynamicState::new(), &board, &more).is_none());
    assert!(play_with_draws(DynamicState::new(), &board, &vec![54 * 95]).is_none());
    assert!(play_with_draws(DynamicState::new(), &board, &vec![]).is_none());
}

#[test]
fn finished_game_keeps_its_points() {
    let board = sample_board();
    let (_, end) = end_turn_draws(&board, after_setup(&board));
    assert!(end.is_game_over(&board));
    assert_eq!(simulate_random_game(end, &board), end.get_points());
    let r = play_with_draws(end, &board, &vec![]).unwrap();
    assert_eq!(r.get_points(), end.get_points());
    assert!(play_with_draws(end, &board, &vec![0]).is_none());
}

#[test]
fn listed_moves_can_be_played() {
    let board = sample_board();
    let mut states = vec![DynamicState::new(), after_setup(&board)];
    let mut s = DynamicState::new();
    s.apply_move(Move::BuildSettlement(0), &board, true);
    states.push(s);
    for s in states.iter() {
        let setup = !matches!(s.phase, GamePhase::NormalState);
        for m in s.generate_legal_moves(&board) {
            assert!(s.is_applicable(m, &board, setup));
        }
    }
}

#[test]
fn edge_ids_follow_the_walk_over_nodes_and_neighbours() {
    let board = sample_board();
    let mut order: Vec<(usize, usize)> = vec![];
    for u in 0..54usize {
        for &v in board.graph.adj[u].neighbours.iter() {
            let v = v as usize;
            let pair = if u <= v { (u, v) } else { (v, u) };
            if !order.contains(&pair) {
                order.push(pair);
            }
        }
    }
    assert_eq!(order.len(), 72);
    for (idx, &(a, b)) in order.iter().enumerate() {
        assert_eq!(board.edge_id[a][b] as usize, idx);
        assert_eq!(board.edge_id[b][a] as usize, idx);
    }
}

#[test]
fn finished_game_needs_no_board() {
    let board = Board {
        graph: Graph { adj: vec![], zones: vec![] },
        convertors: vec![],
        edge_id: [[255u8; 54]; 54],
        turns: vec![],
    };
    let s = DynamicState::new();
    assert!(s.is_game_over(&board));
    assert_eq!(simulate_random_game(s, &board), 0);
    assert_eq!(play_with_draws(s, &board, &vec![]).unwrap().get_points(), 0);
}
