//! Numbering the edges of the board graph, and what a board built from hex
//! lines offers to move generation.

use vstd::prelude::*;
use crate::mcts::Board;
use crate::network::{adjacency_symmetric, edges_testable};
use crate::reader::{Graph, graph_from_rows, hex_row_ok, lemma_graph_symmetric, ring_links};
use crate::rules::nodes_in_range;

verus! {

/// Nodes `a` and `b` of the graph are joined, in one direction or the other.
pub open spec fn linked(graph: &Graph, a: int, b: int) -> bool {
    &&& 0 <= a < 54
    &&& 0 <= b < 54
    &&& graph.adj@[a].neighbours@.contains(b as u16) || graph.adj@[b].neighbours@.contains(a as u16)
}

/// One number for the unordered pair of nodes `a`, `b`.
pub open spec fn pair_code(a: int, b: int) -> int {
    if a <= b {
        a * 54 + b
    } else {
        b * 54 + a
    }
}

/// The unordered pairs of joined nodes, by their numbers.
pub open spec fn linked_pairs(graph: &Graph) -> Set<int> {
    Set::new(|c: int| exists|a: int, b: int| #[trigger] linked(graph, a, b) && c == pair_code(a, b))
}

/// The graph has 54 nodes, each with its neighbours among them.
pub open spec fn graph_nodes_in_range(graph: &Graph) -> bool {
    &&& graph.adj@.len() >= 54
    &&& forall|u: int, n: u16| 0 <= u < 54 && #[trigger] graph.adj@[u].neighbours@.contains(n) ==> n < 54
}

proof fn lemma_linked_pairs_finite(graph: &Graph)
    ensures
        linked_pairs(graph).finite(),
        linked_pairs(graph).subset_of(vstd::set_lib::set_int_range(0, 2916)),
{
    vstd::set_lib::lemma_int_range(0, 2916);
    assert(linked_pairs(graph).subset_of(vstd::set_lib::set_int_range(0, 2916)));
    vstd::set_lib::lemma_len_subset(linked_pairs(graph), vstd::set_lib::set_int_range(0, 2916));
}

/// What `number_edges` has done so far: exactly the pairs in `done` are
/// numbered, each with the same id both ways, below `next`, and no two of
/// them share an id.
pub open spec fn numbering_inv(ids: [[u8; 54]; 54], done: Set<int>, next: int) -> bool {
    &&& forall|a: int, b: int|
        0 <= a < 54 && 0 <= b < 54 ==> (#[trigger] ids[a][b] != 255 <==> done.contains(pair_code(a, b)))
    &&& forall|a: int, b: int|
        0 <= a < 54 && 0 <= b < 54 && done.contains(pair_code(a, b)) ==> #[trigger] ids[a][b] == ids[b][a]
            && ids[a][b] < next
    &&& forall|a: int, b: int, c: int, d: int|
        0 <= a < 54 && 0 <= b < 54 && 0 <= c < 54 && 0 <= d < 54 && done.contains(pair_code(a, b))
            && done.contains(pair_code(c, d)) && #[trigger] ids[a][b] == #[trigger] ids[c][d] ==> pair_code(a, b)
            == pair_code(c, d)
    &&& done.finite()
    &&& done.len() == next
}

/// Every pair of joined nodes has its own id below the number of such
/// pairs, the same in both directions; every other pair of nodes has 255.
pub open spec fn edges_numbered(graph: &Graph, ids: [[u8; 54]; 54]) -> bool {
    &&& forall|a: int, b: int|
        0 <= a < 54 && 0 <= b < 54 ==> (#[trigger] ids[a][b] != 255 <==> linked(graph, a, b))
    &&& forall|a: int, b: int|
        #![trigger ids[a][b]]
        linked(graph, a, b) ==> ids[a][b] == ids[b][a] && ids[a][b] < linked_pairs(graph).len()
    &&& forall|a: int, b: int, c: int, d: int|
        linked(graph, a, b) && linked(graph, c, d) && #[trigger] ids[a][b] == #[trigger] ids[c][d]
            ==> pair_code(a, b) == pair_code(c, d)
}

/// The pairs met walking the nodes `0..i` with all their neighbours and then
/// the first `k` neighbours of node `i`, each neighbour list in the order in
/// which its set hands it out; a pair counts once, where it is first met.
pub open spec fn pairs_met(graph: &Graph, i: nat, k: nat) -> Seq<int>
    decreases i, k,
{
    if k == 0 {
        if i == 0 {
            Seq::empty()
        } else {
            pairs_met(graph, (i - 1) as nat, graph.adj@[i - 1].order().len())
        }
    } else {
        let prev = pairs_met(graph, i, (k - 1) as nat);
        let c = pair_code(i as int, graph.adj@[i as int].order()[k - 1] as int);
        if prev.contains(c) {
            prev
        } else {
            prev.push(c)
        }
    }
}

/// The order in which `number_edges` numbers the pairs of joined nodes.
pub open spec fn edge_order(graph: &Graph) -> Seq<int> {
    pairs_met(graph, 54, 0)
}

/// The ids handed out so far follow `met`: each numbered pair has the place
/// of its number in `met` as its id.
pub open spec fn ids_follow(ids: [[u8; 54]; 54], done: Set<int>, met: Seq<int>) -> bool {
    &&& met.to_set() == done
    &&& met.len() == done.len()
    &&& met.no_duplicates()
    &&& forall|a: int, b: int|
        0 <= a < 54 && 0 <= b < 54 && done.contains(pair_code(a, b)) ==> met[#[trigger] ids[a][b] as int]
            == pair_code(a, b)
}

/// Gives every pair of joined nodes its own edge id, the same in both
/// directions, numbering them in the order in which the nodes 0..54 and
/// their neighbours come up (`edge_order`); pairs of nodes not joined keep 255.
pub fn number_edges(graph: &Graph) -> (ids: [[u8; 54]; 54])
    requires
        graph_nodes_in_range(graph),
        linked_pairs(graph).len() <= 255,
    ensures
        edges_numbered(graph, ids),
        edge_order(graph).no_duplicates(),
        forall|a: int, b: int| #[trigger] linked(graph, a, b) ==> edge_order(graph)[ids[a][b] as int] == pair_code(a, b),
{
    let mut edge_ids = [[255u8; 54]; 54];
    let mut current_idx: u8 = 0;
    let ghost mut done: Set<int> = Set::empty();
    proof {
        lemma_linked_pairs_finite(graph);
        assert forall|a: int, b: int| 0 <= a < 54 && 0 <= b < 54 implies #[trigger] edge_ids[a][b] == 255 by {
        }
    }
    proof {
        assert(pairs_met(graph, 0, 0) == Seq::<int>::empty());
        assert(Seq::<int>::empty().to_set() =~= done);
    }
    for i in 0..54usize
        invariant
            graph_nodes_in_range(graph),
            linked_pairs(graph).len() <= 255,
            linked_pairs(graph).finite(),
            numbering_inv(edge_ids, done, current_idx as int),
            done.subset_of(linked_pairs(graph)),
            forall|a: int, b: int| 0 <= a < i && #[trigger] linked(graph, a, b) && graph.adj@[a].neighbours@.contains(
                b as u16,
            ) ==> done.contains(pair_code(a, b)),
            ids_follow(edge_ids, done, pairs_met(graph, i as nat, 0)),
    {
        let neighbours = graph.adj[i].neighbour_list();
        for k in 0..neighbours.len()
            invariant
                graph_nodes_in_range(graph),
                linked_pairs(graph).len() <= 255,
                linked_pairs(graph).finite(),
                0 <= i < 54,
                neighbours@.to_set() == graph.adj@[i as int].neighbours@,
                numbering_inv(edge_ids, done, current_idx as int),
                done.subset_of(linked_pairs(graph)),
                forall|a: int, b: int| 0 <= a < i && #[trigger] linked(graph, a, b) && graph.adj@[a].neighbours@.contains(
                    b as u16,
                ) ==> done.contains(pair_code(a, b)),
                forall|kk: int| 0 <= kk < k ==> done.contains(pair_code(i as int, #[trigger] neighbours@[kk] as int)),
                neighbours@ == graph.adj@[i as int].order(),
                ids_follow(edge_ids, done, pairs_met(graph, i as nat, k as nat)),
        {
            let ghost met0 = pairs_met(graph, i as nat, k as nat);
            let j = neighbours[k];
            assert(neighbours@.to_set().contains(j));
            assert(j < 54);
            assert(linked(graph, i as int, j as int));
            let ghost code = pair_code(i as int, j as int);
            proof {
                assert(pairs_met(graph, i as nat, (k + 1) as nat) == if met0.contains(code) {
                    met0
                } else {
                    met0.push(code)
                });
                assert(met0.to_set().contains(code) == met0.contains(code));
            }
            if edge_ids[i][j as usize] == 255 {
                proof {
                    assert(linked_pairs(graph).contains(code));
                    assert(!done.contains(code));
                    vstd::set_lib::lemma_len_subset(done.insert(code), linked_pairs(graph));
                }
                let ghost before = edge_ids;
                edge_ids[i][j as usize] = current_idx;
                edge_ids[j as usize][i] = current_idx;
                proof {
                    let done0 = done;
                    done = done.insert(code);
                    assert forall|a: int, b: int| 0 <= a < 54 && 0 <= b < 54 implies #[trigger] edge_ids[a][b]
                        == if pair_code(a, b) == code { current_idx } else { before[a][b] } by {
                        if pair_code(a, b) == code {
                            assert((a == i && b == j) || (a == j && b == i));
                        }
                    }
                    let met1 = met0.push(code);
                    assert(ids_follow(before, done0, met0));
                    assert forall|x: int| #[trigger] met1.to_set().contains(x) == done.contains(x) by {
                        assert(met0.to_set().contains(x) == met0.contains(x));
                        if met0.contains(x) {
                            let w = choose|w: int| 0 <= w < met0.len() && met0[w] == x;
                            assert(met1[w] == x);
                        }
                        if x == code {
                            assert(met1[met0.len() as int] == code);
                        }
                    }
                    assert(met1.to_set() =~= done);
                    assert forall|a: int, b: int|
                        0 <= a < 54 && 0 <= b < 54 && done.contains(pair_code(a, b)) implies met1[#[trigger] edge_ids[a][b] as int]
                            == pair_code(a, b) by {
                        if pair_code(a, b) != code {
                            assert(done0.contains(pair_code(a, b)));
                            assert(edge_ids[a][b] == before[a][b]);
                            assert(met0[before[a][b] as int] == pair_code(a, b));
                            assert(before[a][b] < met0.len()) by {
                                assert(before[a][b] < current_idx);
                            }
                        }
                    }
                }
                current_idx += 1;
            }
            proof {
                assert forall|kk: int| 0 <= kk < k + 1 implies done.contains(pair_code(i as int, #[trigger] neighbours@[kk] as int)) by {}
            }
        }
        proof {
            assert forall|a: int, b: int| 0 <= a < i + 1 && #[trigger] linked(graph, a, b) && graph.adj@[a].neighbours@.contains(
                b as u16,
            ) implies done.contains(pair_code(a, b)) by {
                if a == i {
                    assert(neighbours@.to_set().contains(b as u16));
                    let kk = choose|kk: int| 0 <= kk < neighbours@.len() && neighbours@[kk] == b as u16;
                    assert(done.contains(pair_code(i as int, neighbours@[kk] as int)));
                }
            }
        }
    }
    proof {
        assert(pairs_met(graph, 54, 0) == edge_order(graph));
        assert forall|a: int, b: int| #[trigger] linked(graph, a, b) implies done.contains(pair_code(a, b)) by {
            if !graph.adj@[a].neighbours@.contains(b as u16) {
                assert(linked(graph, b, a));
                assert(pair_code(b, a) == pair_code(a, b));
            }
        }
        assert forall|c: int| linked_pairs(graph).contains(c) implies done.contains(c) by {
            let (a, b) = choose|a: int, b: int| #[trigger] linked(graph, a, b) && c == pair_code(a, b);
        }
        assert(done =~= linked_pairs(graph));
    }
    edge_ids
}

/// The numbers of the six sides of the hex that row `v` describes.
pub open spec fn row_edge_codes(v: Seq<u16>) -> Seq<int> {
    seq![
        pair_code(v[2] as int, v[3] as int),
        pair_code(v[2] as int, v[7] as int),
        pair_code(v[7] as int, v[6] as int),
        pair_code(v[3] as int, v[4] as int),
        pair_code(v[4] as int, v[5] as int),
        pair_code(v[5] as int, v[6] as int),
    ]
}

/// The numbers of the sides of all the hexes, row by row.
pub open spec fn all_edge_codes(rows: Seq<Seq<u16>>) -> Seq<int>
    decreases rows.len(),
{
    if rows.len() == 0 {
        Seq::empty()
    } else {
        all_edge_codes(rows.drop_last()) + row_edge_codes(rows.last())
    }
}

proof fn lemma_all_edge_codes(rows: Seq<Seq<u16>>, j: int, k: int)
    requires
        0 <= j < rows.len(),
        0 <= k < 6,
    ensures
        all_edge_codes(rows).len() == 6 * rows.len(),
        all_edge_codes(rows).contains(row_edge_codes(rows[j])[k]),
    decreases rows.len(),
{
    lemma_all_edge_codes_len(rows);
    let prev = all_edge_codes(rows.drop_last());
    lemma_all_edge_codes_len(rows.drop_last());
    if j < rows.len() - 1 {
        lemma_all_edge_codes(rows.drop_last(), j, k);
        let w = choose|w: int| 0 <= w < prev.len() && prev[w] == row_edge_codes(rows[j])[k];
        assert(all_edge_codes(rows)[w] == prev[w]);
    } else {
        assert(all_edge_codes(rows)[prev.len() + k] == row_edge_codes(rows[j])[k]);
    }
}

proof fn lemma_all_edge_codes_len(rows: Seq<Seq<u16>>)
    ensures
        all_edge_codes(rows).len() == 6 * rows.len(),
    decreases rows.len(),
{
    if rows.len() > 0 {
        lemma_all_edge_codes_len(rows.drop_last());
    }
}

/// A graph described by hex rows joins at most six pairs of nodes per row.
pub proof fn lemma_rows_pairs_bound(g: &Graph, rows: Seq<Seq<u16>>)
    requires
        forall|j: int| 0 <= j < rows.len() ==> hex_row_ok(#[trigger] rows[j]),
        graph_from_rows(g, rows),
    ensures
        linked_pairs(g).len() <= 6 * rows.len(),
{
    let codes = all_edge_codes(rows);
    lemma_all_edge_codes_len(rows);
    lemma_linked_pairs_finite(g);
    assert forall|c: int| linked_pairs(g).contains(c) implies codes.to_set().contains(c) by {
        let (a, b) = choose|a: int, b: int| #[trigger] linked(g, a, b) && c == pair_code(a, b);
        let (x, y) = if g.adj@[a].neighbours@.contains(b as u16) {
            (a, b)
        } else {
            (b, a)
        };
        assert(g.adj@[x].neighbours@.contains(y as u16));
        let (j, k) = choose|j: int, k: int| 0 <= j < rows.len() && 0 <= k < 12 && #[trigger] ring_links(rows[j])[k] == (
        x as u16, y as u16);
        let v = rows[j];
        assert(hex_row_ok(v));
        assert(v[2] < 54 && v[3] < 54 && v[4] < 54 && v[5] < 54 && v[6] < 54 && v[7] < 54);
        let k6 = if k == 0 || k == 5 { 0int } else if k == 1 || k == 2 { 1 } else if k == 3 || k == 10 { 2 } else if k
            == 4 || k == 7 { 3 } else if k == 6 || k == 9 { 4 } else { 5 };
        assert(row_edge_codes(v)[k6] == pair_code(x, y));
        assert(pair_code(x, y) == pair_code(a, b));
        lemma_all_edge_codes(rows, j, k6);
    }
    codes.lemma_cardinality_of_set();
    vstd::set_lib::lemma_len_subset(linked_pairs(g), codes.to_set());
}

/// A board whose graph at most 21 hex rows describe and whose edge ids
/// `number_edges` gave has symmetric adjacency, its neighbours among its 54
/// nodes, and an id that `has_road` can test on every edge.
pub proof fn lemma_board_from_rows(board: &Board, rows: Seq<Seq<u16>>)
    requires
        forall|j: int| 0 <= j < rows.len() ==> hex_row_ok(#[trigger] rows[j]),
        rows.len() <= 21,
        graph_from_rows(&board.graph, rows),
        edges_numbered(&board.graph, board.edge_id),
    ensures
        nodes_in_range(board),
        adjacency_symmetric(board),
        edges_testable(board),
{
    lemma_graph_symmetric(&board.graph, rows);
    lemma_rows_pairs_bound(&board.graph, rows);
    assert forall|u: int, v: u16|
        0 <= u < 54 && #[trigger] board.graph.adj@[u].neighbours@.contains(v) implies board.edge_id[u][v as int]
        < 128 || board.edge_id[u][v as int] == 254 by {
        assert(linked(&board.graph, u, v as int));
    }
}

} // verus!
