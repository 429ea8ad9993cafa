use vstd::prelude::*;
use crate::reader::{line_at, line_chars, line_numbers, line_values, ring_links, rows_view, strings_view, ReadError};
use crate::text::{all_parse, parse_unsigned, parse_unsigned_chars, tokens, trim, trim_chars};

verus! {

/// A hex of the blueprint: its kind, its dice roll and its six corner nodes.
pub struct Zone {
    pub component: u16,
    pub light: u16,
    pub nodes: Vec<u16>,
}

/// A node of the blueprint: the hexes it belongs to and its neighbours, each
/// listed as often as the hex lines name it.
pub struct Node {
    pub zones: Vec<u16>,
    pub neighbours: Vec<u16>,
}

/// The blueprint: its 54 nodes and its 19 hexes.
pub struct Graph {
    pub adj: Vec<Node>,
    pub zones: Vec<Zone>,
}

/// A row of a blueprint: at least eight numbers whose corners `v[2]..v[7]`
/// are nodes.
pub open spec fn blueprint_row_ok(v: Seq<u16>) -> bool {
    &&& v.len() >= 8
    &&& forall|i: int| 2 <= i < 8 ==> #[trigger] v[i] < 54
}

/// The targets of the links in `ls` that start at `n`, in order.
pub open spec fn links_from(ls: Seq<(u16, u16)>, n: int) -> Seq<u16>
    decreases ls.len(),
{
    if ls.len() == 0 {
        Seq::empty()
    } else {
        links_from(ls.drop_last(), n) + if ls.last().0 as int == n {
            seq![ls.last().1]
        } else {
            Seq::empty()
        }
    }
}

/// The neighbours that the rows give node `n`, in the order in which they
/// are added.
pub open spec fn neighbours_of(rows: Seq<Seq<u16>>, n: int) -> Seq<u16>
    decreases rows.len(),
{
    if rows.len() == 0 {
        Seq::empty()
    } else {
        neighbours_of(rows.drop_last(), n) + links_from(ring_links(rows.last()), n)
    }
}

/// Hex `j` (the row `v`) once for each of its first `m` corners that is `n`.
pub open spec fn corner_marks(v: Seq<u16>, j: int, n: int, m: int) -> Seq<u16>
    decreases m,
{
    if m <= 0 {
        Seq::empty()
    } else {
        corner_marks(v, j, n, m - 1) + if v[m + 1] as int == n {
            seq![j as u16]
        } else {
            Seq::empty()
        }
    }
}

/// The hexes that node `n` belongs to, once per corner, in row order.
pub open spec fn zones_of(rows: Seq<Seq<u16>>, n: int) -> Seq<u16>
    decreases rows.len(),
{
    if rows.len() == 0 {
        Seq::empty()
    } else {
        zones_of(rows.drop_last(), n) + corner_marks(rows.last(), rows.len() - 1, n, 6)
    }
}

/// `g` is the blueprint that the rows describe.
pub open spec fn blueprint_from_rows(g: &Graph, rows: Seq<Seq<u16>>) -> bool {
    &&& g.adj@.len() == 54
    &&& g.zones@.len() == rows.len()
    &&& forall|n: int| 0 <= n < 54 ==> (#[trigger] g.adj@[n]).neighbours@ == neighbours_of(rows, n)
    &&& forall|n: int| 0 <= n < 54 ==> (#[trigger] g.adj@[n]).zones@ == zones_of(rows, n)
    &&& forall|j: int|
        0 <= j < rows.len() ==> {
            &&& (#[trigger] g.zones@[j]).component == rows[j][0]
            &&& g.zones@[j].light == rows[j][1]
            &&& g.zones@[j].nodes@ == rows[j].subrange(2, 8)
        }
}

fn push_neighbour(grid: &mut Vec<Node>, a: u16, b: u16)
    requires
        a < old(grid)@.len(),
    ensures
        final(grid)@.len() == old(grid)@.len(),
        final(grid)@[a as int].neighbours@ == old(grid)@[a as int].neighbours@.push(b),
        final(grid)@[a as int].zones == old(grid)@[a as int].zones,
        forall|u: int| 0 <= u < old(grid)@.len() && u != a ==> #[trigger] final(grid)@[u] == old(grid)@[u],
{
    grid[a as usize].neighbours.push(b);
}

fn push_zone_mark(grid: &mut Vec<Node>, a: u16, j: u16)
    requires
        a < old(grid)@.len(),
    ensures
        final(grid)@.len() == old(grid)@.len(),
        final(grid)@[a as int].zones@ == old(grid)@[a as int].zones@.push(j),
        final(grid)@[a as int].neighbours == old(grid)@[a as int].neighbours,
        forall|u: int| 0 <= u < old(grid)@.len() && u != a ==> #[trigger] final(grid)@[u] == old(grid)@[u],
{
    grid[a as usize].zones.push(j);
}

proof fn lemma_links_from_step(ls: Seq<(u16, u16)>, n: int, c: int)
    requires
        0 <= c < ls.len(),
    ensures
        links_from(ls.take(c + 1), n) == links_from(ls.take(c), n) + if ls[c].0 as int == n {
            seq![ls[c].1]
        } else {
            Seq::empty()
        },
{
    assert(ls.take(c + 1).drop_last() =~= ls.take(c));
}

impl Graph {
    /// Builds the blueprint from its 19 hex rows: each row is hex `j`, whose
    /// corners it joins in a ring (listing every link as it comes) and to
    /// whose nodes it adds the hex.
    pub fn new(rows: &Vec<Vec<u16>>) -> (g: Graph)
        requires
            rows@.len() == 19,
            forall|j: int| 0 <= j < rows@.len() ==> blueprint_row_ok(#[trigger] rows@[j]@),
        ensures
            blueprint_from_rows(&g, rows_view(rows@)),
    {
        let mut grid: Vec<Node> = Vec::new();
        let mut zones: Vec<Zone> = Vec::new();
        for _i in 0..54usize
            invariant
                grid@.len() == _i,
                forall|u: int| 0 <= u < grid@.len() ==> (#[trigger] grid@[u]).neighbours@ == Seq::<u16>::empty()
                    && grid@[u].zones@ == Seq::<u16>::empty(),
        {
            grid.push(Node { zones: Vec::new(), neighbours: Vec::new() });
        }
        let ghost all = rows_view(rows@);
        for j in 0..19usize
            invariant
                all == rows_view(rows@),
                rows@.len() == 19,
                forall|jj: int| 0 <= jj < rows@.len() ==> blueprint_row_ok(#[trigger] rows@[jj]@),
                grid@.len() == 54,
                zones@.len() == j,
                forall|n: int| 0 <= n < 54 ==> (#[trigger] grid@[n]).neighbours@ == neighbours_of(all.take(j as int), n),
                forall|n: int| 0 <= n < 54 ==> (#[trigger] grid@[n]).zones@ == zones_of(all.take(j as int), n),
                forall|jj: int|
                    0 <= jj < j ==> {
                        &&& (#[trigger] zones@[jj]).component == all[jj][0]
                        &&& zones@[jj].light == all[jj][1]
                        &&& zones@[jj].nodes@ == all[jj].subrange(2, 8)
                    },
        {
            let line_values = &rows[j];
            let ghost v = line_values@;
            let ghost links = ring_links(v);
            assert(all[j as int] == v);
            assert(all.take(j + 1).drop_last() =~= all.take(j as int));
            let ghost grid0 = grid@;
            assert(v[2] < 54 && v[3] < 54 && v[4] < 54 && v[5] < 54 && v[6] < 54 && v[7] < 54);
            let mut zone = Zone { component: 0, light: 0, nodes: Vec::new() };
            push_neighbour(&mut grid, line_values[2], line_values[3]);
            push_neighbour(&mut grid, line_values[2], line_values[7]);
            push_neighbour(&mut grid, line_values[7], line_values[2]);
            push_neighbour(&mut grid, line_values[7], line_values[6]);
            proof {
                assert forall|n: int| 0 <= n < 54 implies (#[trigger] grid@[n]).neighbours@ == grid0[n].neighbours@
                    + links_from(links.take(4), n) && grid@[n].zones == grid0[n].zones by {
                    assert(links.take(0) =~= Seq::<(u16, u16)>::empty());
                    lemma_links_from_step(links, n, 0);
                    lemma_links_from_step(links, n, 1);
                    lemma_links_from_step(links, n, 2);
                    lemma_links_from_step(links, n, 3);
                }
            }
            for i in 2..8usize
                invariant
                    2 <= i <= 8,
                    v == line_values@,
                    links == ring_links(v),
                    blueprint_row_ok(v),
                    j < 19,
                    grid@.len() == 54,
                    forall|n: int| 0 <= n < 54 ==> (#[trigger] grid@[n]).neighbours@ == grid0[n].neighbours@
                        + links_from(links.take(if i <= 3 { 4 } else if i <= 7 { 4 + 2 * (i - 3) } else { 12 }), n),
                    forall|n: int| 0 <= n < 54 ==> (#[trigger] grid@[n]).zones@ == grid0[n].zones@ + corner_marks(
                        v,
                        j as int,
                        n,
                        i - 2,
                    ),
                    zone.nodes@ == v.subrange(2, i as int),
            {
                if i >= 3 && i <= 6 {
                    push_neighbour(&mut grid, line_values[i], line_values[i + 1]);
                    push_neighbour(&mut grid, line_values[i], line_values[i - 1]);
                    proof {
                        assert forall|n: int| 0 <= n < 54 implies (#[trigger] grid@[n]).neighbours@ == grid0[n].neighbours@
                            + links_from(links.take(4 + 2 * (i - 2)), n) by {
                            lemma_links_from_step(links, n, 4 + 2 * (i - 3));
                            lemma_links_from_step(links, n, 4 + 2 * (i - 3) + 1);
                        }
                    }
                }
                zone.nodes.push(line_values[i]);
                push_zone_mark(&mut grid, line_values[i], j as u16);
                proof {
                    assert(zone.nodes@ =~= v.subrange(2, i + 1));
                }
            }
            zone.component = line_values[0];
            zone.light = line_values[1];
            zones.push(zone);
            proof {
                assert forall|n: int| 0 <= n < 54 implies (#[trigger] grid@[n]).neighbours@ == neighbours_of(
                    all.take(j + 1),
                    n,
                ) by {
                    assert(links.take(12) =~= links);
                    assert(all.take(j + 1).last() == v);
                }
                assert forall|n: int| 0 <= n < 54 implies (#[trigger] grid@[n]).zones@ == zones_of(all.take(j + 1), n) by {
                    assert(all.take(j + 1).last() == v);
                }
            }
        }
        assert(all.take(19) =~= all);
        Graph { adj: grid, zones }
    }
}

/// A line of the blueprint: numbers up to 65535 that form a blueprint row.
pub open spec fn blueprint_line_ok(line: Seq<char>) -> bool {
    all_parse(tokens(line), 65535) && blueprint_row_ok(line_values(line))
}

/// The first bad hex line from `j` on among the 19.
pub open spec fn first_bad_line(lines: Seq<Seq<char>>, j: int) -> Option<int>
    decreases 19 - j,
{
    if j >= 19 {
        None
    } else if !blueprint_line_ok(line_at(lines, 2 + j)) {
        Some(j)
    } else {
        first_bad_line(lines, j + 1)
    }
}

/// The first thing wrong with a blueprint, in reading order, if any.
pub open spec fn blueprint_error(lines: Seq<Seq<char>>) -> Option<ReadError> {
    if parse_unsigned(trim(line_at(lines, 0)), 255) is None {
        Some(ReadError::Plays)
    } else if parse_unsigned(trim(line_at(lines, 1)), 65535) is None {
        Some(ReadError::Days)
    } else if first_bad_line(lines, 0) is Some {
        Some(ReadError::HexLine(first_bad_line(lines, 0)->0 as usize))
    } else {
        None
    }
}

/// The rows of a blueprint whose 19 hex lines are good.
pub open spec fn blueprint_rows(lines: Seq<Seq<char>>) -> Seq<Seq<u16>> {
    Seq::new(19, |j: int| line_values(line_at(lines, 2 + j)))
}

/// Reads a blueprint: the number of plays, the number of days, and the 19
/// hex lines. Lines past the end of `lines` read as empty.
pub fn read_blueprint(lines: &Vec<String>) -> (r: Result<(u8, u16, Graph), ReadError>)
    ensures
        r is Err <==> blueprint_error(strings_view(lines@)) is Some,
        r matches Err(e) ==> blueprint_error(strings_view(lines@)) == Some(e),
        r matches Ok(input) ==> {
            let v = strings_view(lines@);
            let (plays, days, graph) = input;
            &&& parse_unsigned(trim(line_at(v, 0)), 255) == Some(plays as int)
            &&& parse_unsigned(trim(line_at(v, 1)), 65535) == Some(days as int)
            &&& blueprint_from_rows(&graph, blueprint_rows(v))
        },
{
    let ghost v = strings_view(lines@);
    let line = line_chars(lines, 0);
    let plays: u8 = match parse_unsigned_chars(&trim_chars(&line), 255) {
        Some(p) => p as u8,
        None => return Err(ReadError::Plays),
    };
    let line = line_chars(lines, 1);
    let days: u16 = match parse_unsigned_chars(&trim_chars(&line), 65535) {
        Some(d) => d as u16,
        None => return Err(ReadError::Days),
    };
    let mut rows: Vec<Vec<u16>> = Vec::new();
    let mut j: usize = 0;
    while j < 19
        invariant
            0 <= j <= 19,
            v == strings_view(lines@),
            parse_unsigned(trim(line_at(v, 0)), 255) == Some(plays as int),
            parse_unsigned(trim(line_at(v, 1)), 65535) == Some(days as int),
            first_bad_line(v, 0) == first_bad_line(v, j as int),
            rows@.len() == j,
            forall|jj: int| 0 <= jj < j ==> #[trigger] rows@[jj]@ == line_values(line_at(v, 2 + jj))
                && blueprint_line_ok(line_at(v, 2 + jj)),
        decreases 19 - j,
    {
        let line = line_chars(lines, 2 + j);
        let ghost rows0 = rows@;
        let values = match line_numbers(&line) {
            Some(values) => values,
            None => return Err(ReadError::HexLine(j)),
        };
        if values.len() < 8 {
            return Err(ReadError::HexLine(j));
        }
        if values[2] >= 54 || values[3] >= 54 || values[4] >= 54 || values[5] >= 54 || values[6] >= 54
            || values[7] >= 54 {
            return Err(ReadError::HexLine(j));
        }
        assert(line@ == line_at(v, 2 + j));
        assert(blueprint_line_ok(line_at(v, 2 + j)));
        rows.push(values);
        proof {
            assert(rows@[j as int]@ == line_values(line_at(v, 2 + j)));
            assert forall|jj: int| 0 <= jj < j + 1 implies #[trigger] rows@[jj]@ == line_values(
                line_at(v, 2 + jj),
            ) && blueprint_line_ok(line_at(v, 2 + jj)) by {
                if jj < j {
                    assert(rows@[jj] == rows0[jj]);
                }
            }
        }
        j += 1;
    }
    assert(rows_view(rows@) =~= blueprint_rows(v));
    let graph = Graph::new(&rows);
    Ok((plays, days, graph))
}

} // verus!
