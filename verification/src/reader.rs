use vstd::prelude::*;
use std::collections::HashSet;
use vstd::std_specs::iter::IteratorSpec;
use crate::edges::{lemma_rows_pairs_bound, linked_pairs};
use crate::text::{
    all_parse, chars_of, first_digit, first_digit_value, parse_unsigned, parse_unsigned_chars, parse_words,
    parsed_value, split_words, tokens, trim, trim_chars, two_bytes_long, utf8_len, words_view,
};

verus! {

/// A node of the board: the set of nodes it is joined to by an edge.
pub struct Node {
    pub neighbours: HashSet<u16>,
}

impl Node {
    /// The neighbours in the order in which the set hands them out.
    pub open spec fn order(&self) -> Seq<u16> {
        vstd::std_specs::hash::into_iter_hash_keys(
            vstd::std_specs::hash::spec_hash_keys_iter(&self.neighbours),
        )
    }

    /// The neighbours, in the order in which the set hands them out.
    pub fn neighbour_list(&self) -> (v: Vec<u16>)
        ensures
            v@ == self.order(),
            v@.to_set() == self.neighbours@,
            v@.no_duplicates(),
    {
        let mut v: Vec<u16> = Vec::new();
        let ghost order = self.order();
        for x in it: self.neighbours.iter()
            invariant
                it.seq().map_values(|r: &u16| *r) == order,
                v@ == order.take(it.index()),
        {
            v.push(*x);
            proof {
                assert(order.take(it.index() + 1) =~= v@);
            }
        }
        assert(v@ =~= order);
        v
    }
}

/// The board graph: adjacency of its nodes, and for each dice roll the
/// (node, resource) pairs that the roll activates.
pub struct Graph {
    pub adj: Vec<Node>,
    pub zones: Vec<Vec<(u8, u8)>>,
}

/// A port: trades `resource` at 3:1 (`conv_type` set) or 2:1, from the listed nodes.
#[derive(Clone, Default)]
pub struct Convertor {
    pub conv_type: bool,
    pub resource: u8,
    pub nodes: Vec<u16>,
}

/// The twelve directed links that one hex line adds: its six corner nodes
/// `v[2]..v[7]` joined in a ring, each link in both directions, in the order
/// in which the line adds them.
pub open spec fn ring_links(v: Seq<u16>) -> Seq<(u16, u16)> {
    seq![
        (v[2], v[3]),
        (v[2], v[7]),
        (v[7], v[2]),
        (v[7], v[6]),
        (v[3], v[4]),
        (v[3], v[2]),
        (v[4], v[5]),
        (v[4], v[3]),
        (v[5], v[6]),
        (v[5], v[4]),
        (v[6], v[7]),
        (v[6], v[5]),
    ]
}

/// A hex line: its kind, its dice roll (at most 12) and its six corner nodes.
pub open spec fn hex_row_ok(v: Seq<u16>) -> bool {
    &&& v.len() >= 8
    &&& v[1] <= 12
    &&& forall|i: int| 2 <= i < 8 ==> #[trigger] v[i] < 54
}

/// Some line links `u` to `w`.
pub open spec fn rows_link(rows: Seq<Seq<u16>>, u: int, w: u16) -> bool {
    exists|j: int, k: int| 0 <= j < rows.len() && 0 <= k < 12 && #[trigger] ring_links(rows[j])[k] == (
    u as u16, w)
}

/// The zone entries of one line: each corner with the line's kind.
pub open spec fn row_zone_entries(v: Seq<u16>) -> Seq<(u8, u8)> {
    Seq::new(6, |k: int| (v[k + 2] as u8, v[0] as u8))
}

/// The zone entries that the lines give the roll `z`, in line order.
pub open spec fn zone_entries(rows: Seq<Seq<u16>>, z: int) -> Seq<(u8, u8)>
    decreases rows.len(),
{
    if rows.len() == 0 {
        Seq::empty()
    } else {
        zone_entries(rows.drop_last(), z) + if rows.last()[1] as int == z {
            row_zone_entries(rows.last())
        } else {
            Seq::empty()
        }
    }
}

/// The values of a list of lines.
pub open spec fn rows_view(rows: Seq<Vec<u16>>) -> Seq<Seq<u16>> {
    rows.map_values(|r: Vec<u16>| r@)
}

/// `g` is the graph that the lines describe: 54 nodes, each joined to the
/// nodes that some line links it to, and 13 zones (one per roll) holding
/// the entries of the lines with that roll.
pub open spec fn graph_from_rows(g: &Graph, rows: Seq<Seq<u16>>) -> bool {
    &&& g.adj@.len() == 54
    &&& forall|u: int, w: u16|
        0 <= u < 54 ==> (#[trigger] g.adj@[u].neighbours@.contains(w) <==> rows_link(rows, u, w))
    &&& g.zones@.len() == 13
    &&& forall|z: int| 0 <= z < 13 ==> #[trigger] g.zones@[z]@ == zone_entries(rows, z)
}

fn link(grid: &mut Vec<Node>, a: u16, b: u16)
    requires
        a < old(grid)@.len(),
    ensures
        final(grid)@.len() == old(grid)@.len(),
        final(grid)@[a as int].neighbours@ == old(grid)@[a as int].neighbours@.insert(b),
        forall|u: int| 0 <= u < old(grid)@.len() && u != a ==> #[trigger] final(grid)@[u] == old(grid)@[u],
{
    grid[a as usize].neighbours.insert(b);
}

fn add_zone_entry(zones: &mut Vec<Vec<(u8, u8)>>, z: u16, entry: (u8, u8))
    requires
        z < old(zones)@.len(),
    ensures
        final(zones)@.len() == old(zones)@.len(),
        final(zones)@[z as int]@ == old(zones)@[z as int]@.push(entry),
        forall|y: int| 0 <= y < old(zones)@.len() && y != z ==> #[trigger] final(zones)@[y] == old(zones)@[y],
{
    zones[z as usize].push(entry);
}

impl Graph {
    /// Builds the board graph from the hex lines: each line joins its six
    /// corners in a ring and adds them, with the line's kind, to the zone of
    /// its roll.
    pub fn new(rows: &Vec<Vec<u16>>) -> (g: Graph)
        requires
            forall|j: int| 0 <= j < rows@.len() ==> hex_row_ok(#[trigger] rows@[j]@),
        ensures
            graph_from_rows(&g, rows_view(rows@)),
    {
        let mut grid: Vec<Node> = Vec::new();
        let mut zones: Vec<Vec<(u8, u8)>> = Vec::new();
        for _i in 0..54usize
            invariant
                grid@.len() == _i,
                forall|u: int| 0 <= u < grid@.len() ==> (#[trigger] grid@[u]).neighbours@ == Set::<u16>::empty(),
        {
            grid.push(Node { neighbours: HashSet::new() });
        }
        for _i in 0..13usize
            invariant
                zones@.len() == _i,
                forall|z: int| 0 <= z < zones@.len() ==> (#[trigger] zones@[z])@ == Seq::<(u8, u8)>::empty(),
        {
            zones.push(Vec::new());
        }
        let ghost all = rows_view(rows@);
        for j in 0..rows.len()
            invariant
                all == rows_view(rows@),
                forall|jj: int| 0 <= jj < rows@.len() ==> hex_row_ok(#[trigger] rows@[jj]@),
                grid@.len() == 54,
                zones@.len() == 13,
                forall|u: int, w: u16|
                    0 <= u < 54 ==> (#[trigger] grid@[u].neighbours@.contains(w) <==> rows_link(all.take(j as int), u, w)),
                forall|z: int| 0 <= z < 13 ==> #[trigger] zones@[z]@ == zone_entries(all.take(j as int), z),
        {
            let line_values = &rows[j];
            let ghost v = line_values@;
            let ghost links = ring_links(v);
            assert(all[j as int] == v);
            assert(all.take(j + 1).drop_last() =~= all.take(j as int));
            let ghost grid0 = grid@;
            let ghost zones0 = zones@;
            assert(v[2] < 54 && v[3] < 54 && v[4] < 54 && v[5] < 54 && v[6] < 54 && v[7] < 54);
            link(&mut grid, line_values[2], line_values[3]);
            link(&mut grid, line_values[2], line_values[7]);
            link(&mut grid, line_values[7], line_values[2]);
            link(&mut grid, line_values[7], line_values[6]);
            for i in 2..8usize
                invariant
                    2 <= i <= 8,
                    v == line_values@,
                    links == ring_links(v),
                    hex_row_ok(v),
                    grid@.len() == 54,
                    zones@.len() == 13,
                    forall|u: int, w: u16|
                        0 <= u < 54 ==> (#[trigger] grid@[u].neighbours@.contains(w) <==> (grid0[u].neighbours@.contains(w)
                            || exists|k: int| 0 <= k < (if i <= 3 { 4 } else if i <= 7 { 4 + 2 * (i - 3) } else { 12 })
                            && #[trigger] links[k] == (u as u16, w))),
                    forall|z: int| 0 <= z < 13 ==> #[trigger] zones@[z]@ == zones0[z]@ + if v[1] as int == z {
                        row_zone_entries(v).take(i - 2)
                    } else {
                        Seq::empty()
                    },
            {
                if i >= 3 && i <= 6 {
                    link(&mut grid, line_values[i], line_values[i + 1]);
                    link(&mut grid, line_values[i], line_values[i - 1]);
                }
                add_zone_entry(&mut zones, line_values[1], (line_values[i] as u8, line_values[0] as u8));
                proof {
                    assert(row_zone_entries(v).take(i - 1) =~= row_zone_entries(v).take(i - 2).push(
                        (v[i as int] as u8, v[0] as u8),
                    ));
                }
            }
            proof {
                assert forall|u: int, w: u16|
                    0 <= u < 54 implies (#[trigger] grid@[u].neighbours@.contains(w) <==> rows_link(all.take(j + 1), u, w)) by {
                    if grid@[u].neighbours@.contains(w) {
                        if grid0[u].neighbours@.contains(w) {
                            let (jj, k) = choose|jj: int, k: int| 0 <= jj < all.take(j as int).len() && 0 <= k < 12
                                && #[trigger] ring_links(all.take(j as int)[jj])[k] == (u as u16, w);
                            assert(ring_links(all.take(j + 1)[jj])[k] == (u as u16, w));
                        } else {
                            let k = choose|k: int| 0 <= k < 12 && #[trigger] links[k] == (u as u16, w);
                            assert(ring_links(all.take(j + 1)[j as int])[k] == (u as u16, w));
                        }
                    }
                    if rows_link(all.take(j + 1), u, w) {
                        let (jj, k) = choose|jj: int, k: int| 0 <= jj < all.take(j + 1).len() && 0 <= k < 12
                            && #[trigger] ring_links(all.take(j + 1)[jj])[k] == (u as u16, w);
                        if jj < j {
                            assert(ring_links(all.take(j as int)[jj])[k] == (u as u16, w));
                        } else {
                            assert(links[k] == (u as u16, w));
                        }
                    }
                }
                assert forall|z: int| 0 <= z < 13 implies #[trigger] zones@[z]@ == zone_entries(all.take(j + 1), z) by {
                    assert(row_zone_entries(v).take(6) =~= row_zone_entries(v));
                }
            }
        }
        assert(all.take(rows@.len() as int) =~= all);
        Graph { adj: grid, zones: zones }
    }
}

/// Why the board description could not be read.
#[derive(PartialEq, Eq, Structural, Debug)]
pub enum ReadError {
    /// The first line is not a number of plays (up to 255).
    Plays,
    /// The second line is not a number of days (up to 65535).
    Days,
    /// Hex line `k` (counting from 0) is not made of numbers up to 65535, or
    /// has fewer than eight, or names a node from 54 on or a roll above 12.
    HexLine(usize),
    /// Port line `k` (counting from 0) has fewer than two words, no digit in
    /// its first word, or a word from the third on that is not a number up to
    /// 65535.
    PortLine(usize),
    /// The roll line holds a word that is not a number up to 255.
    Rolls,
}

/// Line `k` of the input, or an empty line past its end (what reading past
/// the end of the input gives).
pub open spec fn line_at(lines: Seq<Seq<char>>, k: int) -> Seq<char> {
    if 0 <= k < lines.len() {
        lines[k]
    } else {
        Seq::empty()
    }
}

/// The characters of each line.
pub open spec fn strings_view(lines: Seq<String>) -> Seq<Seq<char>> {
    lines.map_values(|l: String| l@)
}

/// The numbers of a line whose words all parse as `u16`.
pub open spec fn line_values(line: Seq<char>) -> Seq<u16> {
    Seq::new(tokens(line).len(), |k: int| parsed_value(tokens(line)[k], 65535) as u16)
}

/// A hex line: numbers up to 65535 that form a hex row.
pub open spec fn hex_line_ok(line: Seq<char>) -> bool {
    all_parse(tokens(line), 65535) && hex_row_ok(line_values(line))
}

/// A port line: at least two words, a digit in the first, and numbers up to
/// 65535 from the third word on.
pub open spec fn port_line_ok(line: Seq<char>) -> bool {
    let t = tokens(line);
    &&& t.len() >= 2
    &&& first_digit_value(t[0]) is Some
    &&& all_parse(t.skip(2), 65535)
}

/// `c` is the port that line `line` describes: 3:1 unless the first word is
/// two bytes long, the resource its first digit, the nodes the numbers from
/// the third word on.
pub open spec fn port_from_line(c: Convertor, line: Seq<char>) -> bool {
    let t = tokens(line);
    &&& c.conv_type == (utf8_len(t[0]) != 2)
    &&& first_digit_value(t[0]) == Some(c.resource as int)
    &&& c.nodes@ == Seq::new((t.len() - 2) as nat, |k: int| parsed_value(t[k + 2], 65535) as u16)
}

/// The first bad hex line from `j` on among the 19.
pub open spec fn first_bad_hex(lines: Seq<Seq<char>>, j: int) -> Option<int>
    decreases 19 - j,
{
    if j >= 19 {
        None
    } else if !hex_line_ok(line_at(lines, 2 + j)) {
        Some(j)
    } else {
        first_bad_hex(lines, j + 1)
    }
}

/// The first bad port line from `k` on among the 6.
pub open spec fn first_bad_port(lines: Seq<Seq<char>>, k: int) -> Option<int>
    decreases 6 - k,
{
    if k >= 6 {
        None
    } else if !port_line_ok(line_at(lines, 21 + k)) {
        Some(k)
    } else {
        first_bad_port(lines, k + 1)
    }
}

/// The first thing wrong with the input, in reading order, if any.
pub open spec fn read_error(lines: Seq<Seq<char>>) -> Option<ReadError> {
    if parse_unsigned(trim(line_at(lines, 0)), 255) is None {
        Some(ReadError::Plays)
    } else if parse_unsigned(trim(line_at(lines, 1)), 65535) is None {
        Some(ReadError::Days)
    } else if first_bad_hex(lines, 0) is Some {
        Some(ReadError::HexLine(first_bad_hex(lines, 0)->0 as usize))
    } else if first_bad_port(lines, 0) is Some {
        Some(ReadError::PortLine(first_bad_port(lines, 0)->0 as usize))
    } else if !all_parse(tokens(line_at(lines, 27)), 255) {
        Some(ReadError::Rolls)
    } else {
        None
    }
}

/// The hex rows of an input whose 19 hex lines are good.
pub open spec fn hex_rows(lines: Seq<Seq<char>>) -> Seq<Seq<u16>> {
    Seq::new(19, |j: int| line_values(line_at(lines, 2 + j)))
}

pub(crate) fn line_chars(lines: &Vec<String>, k: usize) -> (cs: Vec<char>)
    ensures
        cs@ == line_at(strings_view(lines@), k as int),
{
    if k < lines.len() {
        chars_of(lines[k].as_str())
    } else {
        Vec::new()
    }
}

fn narrow_u16(values: &Vec<u32>) -> (v: Vec<u16>)
    requires
        forall|k: int| 0 <= k < values@.len() ==> #[trigger] values@[k] <= 65535,
    ensures
        v@.len() == values@.len(),
        forall|k: int| 0 <= k < v@.len() ==> #[trigger] v@[k] == values@[k],
{
    let mut v: Vec<u16> = Vec::new();
    for k in 0..values.len()
        invariant
            v@.len() == k,
            forall|j: int| 0 <= j < values@.len() ==> #[trigger] values@[j] <= 65535,
            forall|j: int| 0 <= j < k ==> #[trigger] v@[j] == values@[j],
    {
        v.push(values[k] as u16);
    }
    v
}

fn narrow_u8(values: &Vec<u32>) -> (v: Vec<u8>)
    requires
        forall|k: int| 0 <= k < values@.len() ==> #[trigger] values@[k] <= 255,
    ensures
        v@.len() == values@.len(),
        forall|k: int| 0 <= k < v@.len() ==> #[trigger] v@[k] == values@[k],
{
    let mut v: Vec<u8> = Vec::new();
    for k in 0..values.len()
        invariant
            v@.len() == k,
            forall|j: int| 0 <= j < values@.len() ==> #[trigger] values@[j] <= 255,
            forall|j: int| 0 <= j < k ==> #[trigger] v@[j] == values@[j],
    {
        v.push(values[k] as u8);
    }
    v
}

proof fn lemma_parsed_bound(w: Seq<char>, max: int)
    requires
        parse_unsigned(w, max) is Some,
    ensures
        0 <= parsed_value(w, max) <= max,
{
    crate::text::lemma_unsigned_nonneg(w, max);
}

/// The numbers of a line, if all its words parse as numbers up to 65535.
pub(crate) fn line_numbers(line: &Vec<char>) -> (r: Option<Vec<u16>>)
    ensures
        r is Some <==> all_parse(tokens(line@), 65535),
        r matches Some(v) ==> v@ == line_values(line@),
{
    let words = split_words(line);
    let values = match parse_words(&words, 0, 65535) {
        Some(v) => v,
        None => {
            assert(words_view(words@).skip(0) =~= tokens(line@));
            return None;
        },
    };
    assert(words_view(words@).skip(0) =~= tokens(line@));
    proof {
        assert forall|k: int| 0 <= k < values@.len() implies #[trigger] values@[k] <= 65535 by {
            lemma_parsed_bound(tokens(line@)[k], 65535);
        }
    }
    let v = narrow_u16(&values);
    assert(v@ =~= line_values(line@));
    Some(v)
}

/// Parses a hex line: its numbers, if it is a good hex line.
fn hex_line(line: &Vec<char>) -> (r: Option<Vec<u16>>)
    ensures
        r is Some <==> hex_line_ok(line@),
        r matches Some(v) ==> v@ == line_values(line@),
{
    let v = match line_numbers(line) {
        Some(v) => v,
        None => return None,
    };
    if v.len() < 8 || v[1] > 12 {
        return None;
    }
    for i in 2..8usize
        invariant
            v@.len() >= 8,
            v@ == line_values(line@),
            all_parse(tokens(line@), 65535),
            v@[1] <= 12,
            forall|j: int| 2 <= j < i ==> #[trigger] v@[j] < 54,
    {
        if v[i] >= 54 {
            return None;
        }
    }
    Some(v)
}

/// The value of the first decimal digit of `str`.
pub fn parse_int(str: &String) -> (d: u32)
    requires
        first_digit_value(str@) is Some,
    ensures
        first_digit_value(str@) == Some(d as int),
{
    let cs = chars_of(str.as_str());
    let mut temp: u32 = match first_digit(&cs) {
        Some(d) => d,
        None => 0,
    };
    if temp > 10 {
        temp /= 10;
    }
    temp
}

/// Reads the board description: the number of plays, the number of days,
/// the 19 hex lines of the graph, the 6 port lines and the line of dice
/// rolls. Lines past the end of `lines` read as empty.
pub fn read_graph(lines: &Vec<String>) -> (r: Result<(Graph, u8, u16, Vec<Convertor>, Vec<u8>), ReadError>)
    ensures
        r is Err <==> read_error(strings_view(lines@)) is Some,
        r matches Err(e) ==> read_error(strings_view(lines@)) == Some(e),
        r matches Ok(input) ==> {
            let v = strings_view(lines@);
            let (graph, plays, days, convertors, rolls) = input;
            &&& parse_unsigned(trim(line_at(v, 0)), 255) == Some(plays as int)
            &&& parse_unsigned(trim(line_at(v, 1)), 65535) == Some(days as int)
            &&& graph_from_rows(&graph, hex_rows(v))
            &&& forall|j: int| 0 <= j < 19 ==> hex_row_ok(#[trigger] hex_rows(v)[j])
            &&& linked_pairs(&graph).len() <= 114
            &&& convertors@.len() == 6
            &&& forall|k: int| 0 <= k < 6 ==> port_from_line(#[trigger] convertors@[k], line_at(v, 21 + k))
            &&& rolls@ == Seq::new(
                tokens(line_at(v, 27)).len(),
                |k: int| parsed_value(tokens(line_at(v, 27))[k], 255) as u8,
            )
        },
{
    let ghost v = strings_view(lines@);
    let line = line_chars(lines, 0);
    let plays: u8 = match parse_unsigned_chars(&trim_chars(&line), 255) {
        Some(p) => p as u8,
        None => return Err(ReadError::Plays),
    };
    let line = line_chars(lines, 1);
    let days: u16 = match parse_unsigned_chars(&trim_chars(&line), 65535) {
        Some(d) => d as u16,
        None => return Err(ReadError::Days),
    };
    let mut rows: Vec<Vec<u16>> = Vec::new();
    let mut j: usize = 0;
    while j < 19
        invariant
            0 <= j <= 19,
            v == strings_view(lines@),
            parse_unsigned(trim(line_at(v, 0)), 255) == Some(plays as int),
            parse_unsigned(trim(line_at(v, 1)), 65535) == Some(days as int),
            first_bad_hex(v, 0) == first_bad_hex(v, j as int),
            rows@.len() == j,
            forall|jj: int| 0 <= jj < j ==> #[trigger] rows@[jj]@ == line_values(line_at(v, 2 + jj)) && hex_line_ok(
                line_at(v, 2 + jj),
            ),
        decreases 19 - j,
    {
        let line = line_chars(lines, 2 + j);
        let ghost rows0 = rows@;
        let values = match hex_line(&line) {
            Some(values) => values,
            None => return Err(ReadError::HexLine(j)),
        };
        assert(line@ == line_at(v, 2 + j));
        assert(values@ == line_values(line_at(v, 2 + j)));
        assert(hex_line_ok(line_at(v, 2 + j)));
        rows.push(values);
        proof {
            assert(rows@[j as int]@ == line_values(line_at(v, 2 + j)));
            assert forall|jj: int| 0 <= jj < j + 1 implies #[trigger] rows@[jj]@ == line_values(
                line_at(v, 2 + jj),
            ) && hex_line_ok(line_at(v, 2 + jj)) by {
                if jj < j {
                    assert(rows@[jj] == rows0[jj]);
                }
            }
        }
        j += 1;
    }
    assert(rows_view(rows@) =~= hex_rows(v));
    let graph = Graph::new(&rows);
    proof {
        assert forall|jj: int| 0 <= jj < 19 implies hex_row_ok(#[trigger] hex_rows(v)[jj]) by {
            assert(rows@[jj]@ == line_values(line_at(v, 2 + jj)));
            assert(hex_line_ok(line_at(v, 2 + jj)));
        }
        lemma_rows_pairs_bound(&graph, hex_rows(v));
    }
    let mut convertors: Vec<Convertor> = Vec::new();
    for i in 0..6usize
        invariant
            v == strings_view(lines@),
            first_bad_hex(v, 0) is None,
            parse_unsigned(trim(line_at(v, 0)), 255) == Some(plays as int),
            parse_unsigned(trim(line_at(v, 1)), 65535) == Some(days as int),
            first_bad_port(v, 0) == first_bad_port(v, i as int),
            convertors@.len() == i,
            forall|k: int| 0 <= k < i ==> port_from_line(#[trigger] convertors@[k], line_at(v, 21 + k)),
    {
        let line = line_chars(lines, 21 + i);
        let words = split_words(&line);
        if words.len() < 2 {
            return Err(ReadError::PortLine(i));
        }
        let conv_type = !two_bytes_long(&words[0]);
        let resource = match first_digit(&words[0]) {
            Some(d) => d as u8,
            None => return Err(ReadError::PortLine(i)),
        };
        let values = match parse_words(&words, 2, 65535) {
            Some(vals) => vals,
            None => return Err(ReadError::PortLine(i)),
        };
        proof {
            assert forall|k: int| 0 <= k < values@.len() implies #[trigger] values@[k] <= 65535 by {
                lemma_parsed_bound(words_view(words@).skip(2)[k], 65535);
            }
        }
        let nodes = narrow_u16(&values);
        let c = Convertor { conv_type, resource, nodes };
        proof {
            let t = tokens(line_at(v, 21 + i));
            assert(t[0] == words@[0]@);
            assert(c.nodes@ =~= Seq::new((t.len() - 2) as nat, |k: int| parsed_value(t[k + 2], 65535) as u16));
        }
        convertors.push(c);
    }
    let line = line_chars(lines, 27);
    let words = split_words(&line);
    let values = match parse_words(&words, 0, 255) {
        Some(vals) => vals,
        None => {
            assert(words_view(words@).skip(0) =~= tokens(line_at(v, 27)));
            return Err(ReadError::Rolls);
        },
    };
    assert(words_view(words@).skip(0) =~= tokens(line_at(v, 27)));
    proof {
        assert forall|k: int| 0 <= k < values@.len() implies #[trigger] values@[k] <= 255 by {
            lemma_parsed_bound(tokens(line_at(v, 27))[k], 255);
        }
    }
    let rolls = narrow_u8(&values);
    assert(rolls@ =~= Seq::new(
        tokens(line_at(v, 27)).len(),
        |k: int| parsed_value(tokens(line_at(v, 27))[k], 255) as u8,
    ));
    Ok((graph, plays, days, convertors, rolls))
}

proof fn lemma_ring_links_reverse(v: Seq<u16>, k: int)
    requires
        0 <= k < 12,
    ensures
        exists|k2: int| 0 <= k2 < 12 && #[trigger] ring_links(v)[k2] == (ring_links(v)[k].1, ring_links(v)[k].0),
{
    let l = ring_links(v);
    let k2 = if k == 0 { 5 } else if k == 1 { 2 } else if k == 2 { 1 } else if k == 3 { 10 } else if k == 4 { 7 } else if k
        == 5 { 0 } else if k == 6 { 9 } else if k == 7 { 4 } else if k == 8 { 11 } else if k == 9 { 6 } else if k == 10 {
        3
    } else {
        8
    };
    assert(l[k2] == (l[k].1, l[k].0));
}

/// The graph that hex rows describe is undirected: its nodes have their
/// neighbours among the 54 nodes, and each node is a neighbour of its
/// neighbours.
pub proof fn lemma_graph_symmetric(g: &Graph, rows: Seq<Seq<u16>>)
    requires
        forall|j: int| 0 <= j < rows.len() ==> hex_row_ok(#[trigger] rows[j]),
        graph_from_rows(g, rows),
    ensures
        forall|u: int, w: u16|
            0 <= u < 54 && #[trigger] g.adj@[u].neighbours@.contains(w) ==> w < 54 && g.adj@[w as int].neighbours@.contains(
                u as u16,
            ),
{
    assert forall|u: int, w: u16|
        0 <= u < 54 && #[trigger] g.adj@[u].neighbours@.contains(w) implies w < 54 && g.adj@[w as int].neighbours@.contains(
        u as u16,
    ) by {
        let (j, k) = choose|j: int, k: int| 0 <= j < rows.len() && 0 <= k < 12 && #[trigger] ring_links(rows[j])[k] == (
        u as u16, w);
        let v = rows[j];
        assert(hex_row_ok(v));
        assert(v[2] < 54 && v[3] < 54 && v[4] < 54 && v[5] < 54 && v[6] < 54 && v[7] < 54);
        lemma_ring_links_reverse(v, k);
        let k2 = choose|k2: int| 0 <= k2 < 12 && #[trigger] ring_links(v)[k2] == (ring_links(v)[k].1, ring_links(v)[k].0);
        assert(ring_links(rows[j])[k2] == (w, u as u16));
        assert(rows_link(rows, w as int, u as u16));
    }
}

} // verus!
