use settlers_mcts::blueprint::read_blueprint;
use settlers_mcts::reader::{parse_int, read_graph, ReadError};
use settlers_mcts::text::{chars_of, parse_unsigned_chars, split_words, trim_chars};
use std::collections::HashSet;

const HEX_LINES: [&str; 19] = [
    "0 10 4 8 12 7 3 0",
    "1 2 5 9 13 8 4 1",
    "2 9 6 10 14 9 5 2",
    "3 12 12 17 22 16 11 7",
    "4 6 13 18 23 17 12 8",
    "0 4 14 19 24 18 13 9",
    "1 10 15 20 25 19 14 10",
    "2 9 22 28 33 27 21 16",
    "3 11 23 29 34 28 22 17",
    "5 0 24 30 35 29 23 18",
    "4 3 25 31 36 30 24 19",
    "0 8 26 32 37 31 25 20",
    "1 8 34 39 43 38 33 28",
    "2 3 35 40 44 39 34 29",
    "3 4 36 41 45 40 35 30",
    "4 5 37 42 46 41 36 31",
    "0 5 44 48 51 47 43 39",
    "1 6 45 49 52 48 44 40",
    "2 11 46 50 53 49 45 41",
];

const PORT_LINES: [&str; 6] = ["21 a 0 3", "3:1 b 1 5", "4x c", "x0y d 10 14", "A1 e 26", "B2 f 46 50"];

fn sample_lines() -> Vec<String> {
    let mut lines = vec!["4\n".to_string(), "20\n".to_string()];
    for l in HEX_LINES.iter() {
        lines.push(format!("{}\n", l));
    }
    for l in PORT_LINES.iter() {
        lines.push(format!("{}\n", l));
    }
    lines.push("6 8 5 9 4 10 3 11 2 12 6 8\n".to_string());
    lines
}

fn set_of(v: &[u16]) -> HashSet<u16> {
    v.iter().cloned().collect()
}

#[test]
fn read_graph_reads_the_sample() {
    let (graph, plays, days, convertors, rolls) = read_graph(&sample_lines()).unwrap();
    assert_eq!(plays, 4);
    assert_eq!(days, 20);
    assert_eq!(rolls, vec![6, 8, 5, 9, 4, 10, 3, 11, 2, 12, 6, 8]);
    assert_eq!(graph.adj.len(), 54);
    assert_eq!(graph.zones.len(), 13);
    assert_eq!(graph.adj[0].neighbours, set_of(&[3, 4]));
    assert_eq!(graph.adj[12].neighbours, set_of(&[7, 8, 17]));
    assert_eq!(
        graph.zones[10],
        vec![(4, 0), (8, 0), (12, 0), (7, 0), (3, 0), (0, 0), (15, 1), (20, 1), (25, 1), (19, 1), (14, 1), (10, 1)]
    );
    assert_eq!(graph.zones[0], vec![(24, 5), (30, 5), (35, 5), (29, 5), (23, 5), (18, 5)]);
    assert_eq!(graph.zones[7].len(), 0);
    assert_eq!(convertors.len(), 6);
    assert_eq!((convertors[0].conv_type, convertors[0].resource, convertors[0].nodes.clone()), (false, 2, vec![0, 3]));
    assert_eq!((convertors[1].conv_type, convertors[1].resource, convertors[1].nodes.clone()), (true, 3, vec![1, 5]));
    assert_eq!((convertors[2].conv_type, convertors[2].resource, convertors[2].nodes.clone()), (false, 4, vec![]));
    assert_eq!((convertors[3].conv_type, convertors[3].resource, convertors[3].nodes.clone()), (true, 0, vec![10, 14]));
    assert_eq!((convertors[4].conv_type, convertors[4].resource, convertors[4].nodes.clone()), (false, 1, vec![26]));
    assert_eq!((convertors[5].conv_type, convertors[5].resource, convertors[5].nodes.clone()), (false, 2, vec![46, 50]));
}

#[test]
fn read_graph_graph_is_undirected() {
    let (graph, _, _, _, _) = read_graph(&sample_lines()).unwrap();
    let mut pairs = 0;
    for u in 0..54usize {
        for &w in graph.adj[u].neighbours.iter() {
            assert!(graph.adj[w as usize].neighbours.contains(&(u as u16)));
            pairs += 1;
        }
    }
    assert_eq!(pairs, 144);
}

#[test]
fn read_graph_bad_plays() {
    let mut lines = sample_lines();
    lines[0] = "x\n".to_string();
    assert_eq!(read_graph(&lines).err(), Some(ReadError::Plays));
    lines[0] = "256\n".to_string();
    assert_eq!(read_graph(&lines).err(), Some(ReadError::Plays));
    lines[0] = "  +7 \r\n".to_string();
    assert_eq!(read_graph(&lines).unwrap().1, 7);
}

#[test]
fn read_graph_bad_days() {
    let mut lines = sample_lines();
    lines[1] = "70000\n".to_string();
    assert_eq!(read_graph(&lines).err(), Some(ReadError::Days));
    lines[1] = "1 2\n".to_string();
    assert_eq!(read_graph(&lines).err(), Some(ReadError::Days));
    lines[1] = "65535\n".to_string();
    assert_eq!(read_graph(&lines).unwrap().2, 65535);
}

#[test]
fn read_graph_bad_hex_lines() {
    let mut lines = sample_lines();
    lines[5] = "3 12 12 17 22 16 11 60\n".to_string();
    assert_eq!(read_graph(&lines).err(), Some(ReadError::HexLine(3)));
    let mut lines = sample_lines();
    lines[2] = "0 10 4 8 a 7 3 0\n".to_string();
    assert_eq!(read_graph(&lines).err(), Some(ReadError::HexLine(0)));
    let mut lines = sample_lines();
    lines[20] = "2 13 46 50 53 49 45 41\n".to_string();
    assert_eq!(read_graph(&lines).err(), Some(ReadError::HexLine(18)));
    let mut lines = sample_lines();
    lines[10] = "2 9 22 28 33\n".to_string();
    assert_eq!(read_graph(&lines).err(), Some(ReadError::HexLine(8)));
}

#[test]
fn read_graph_bad_port_lines() {
    let mut lines = sample_lines();
    lines[23] = "4x\n".to_string();
    assert_eq!(read_graph(&lines).err(), Some(ReadError::PortLine(2)));
    let mut lines = sample_lines();
    lines[21] = "ab c 1\n".to_string();
    assert_eq!(read_graph(&lines).err(), Some(ReadError::PortLine(0)));
    let mut lines = sample_lines();
    lines[26] = "B2 f 46 x\n".to_string();
    assert_eq!(read_graph(&lines).err(), Some(ReadError::PortLine(5)));
}

#[test]
fn read_graph_bad_rolls() {
    let mut lines = sample_lines();
    lines[27] = "6 300\n".to_string();
    assert_eq!(read_graph(&lines).err(), Some(ReadError::Rolls));
    lines[27] = "\n".to_string();
    assert_eq!(read_graph(&lines).unwrap().4, Vec::<u8>::new());
}

#[test]
fn read_graph_short_input() {
    let lines = vec!["4\n".to_string(), "20\n".to_string()];
    assert_eq!(read_graph(&lines).err(), Some(ReadError::HexLine(0)));
    let lines: Vec<String> = vec![];
    assert_eq!(read_graph(&lines).err(), Some(ReadError::Plays));
    let mut lines = sample_lines();
    lines.truncate(27);
    assert_eq!(read_graph(&lines).unwrap().4, Vec::<u8>::new());
}

#[test]
fn parse_int_takes_the_first_digit() {
    assert_eq!(parse_int(&"R2".to_string()), 2);
    assert_eq!(parse_int(&"ab7c9".to_string()), 7);
    assert_eq!(parse_int(&"9".to_string()), 9);
    assert_eq!(parse_int(&"3:1".to_string()), 3);
}

#[test]
fn numbers_parse_as_str_parse_does() {
    let p = |s: &str, max: u32| parse_unsigned_chars(&chars_of(s), max);
    assert_eq!(p("42", 255), Some(42));
    assert_eq!(p("+42", 255), Some(42));
    assert_eq!(p("-1", 255), None);
    assert_eq!(p("+", 255), None);
    assert_eq!(p("", 255), None);
    assert_eq!(p("255", 255), Some(255));
    assert_eq!(p("256", 255), None);
    assert_eq!(p("65535", 65535), Some(65535));
    assert_eq!(p("65536", 65535), None);
    assert_eq!(p("0012", 65535), Some(12));
    assert_eq!(p("1a", 65535), None);
    for s in ["0", "7", "+13", "250", "31x", "-0", "٣"] {
        assert_eq!(p(s, 255), s.parse::<u8>().ok().map(|v| v as u32));
    }
}

#[test]
fn words_split_as_split_whitespace_does() {
    let text = "  a bc\u{a0}d\t\u{3000}e  ";
    let words: Vec<String> = split_words(&chars_of(text)).iter().map(|w| w.iter().collect()).collect();
    let expected: Vec<String> = text.split_whitespace().map(|w| w.to_string()).collect();
    assert_eq!(words, expected);
    assert_eq!(words, vec!["a", "bc", "d", "e"]);
    assert_eq!(split_words(&chars_of("   ")).len(), 0);
}

#[test]
fn trim_removes_outer_whitespace() {
    let text = " \t 5 6\u{2028}\n";
    let t: String = trim_chars(&chars_of(text)).iter().collect();
    assert_eq!(t, text.trim());
    assert_eq!(t, "5 6");
}

#[test]
fn read_blueprint_reads_the_sample() {
    let (plays, days, graph) = read_blueprint(&sample_lines()).unwrap();
    assert_eq!((plays, days), (4, 20));
    assert_eq!(graph.adj.len(), 54);
    assert_eq!(graph.zones.len(), 19);
    assert_eq!((graph.zones[0].component, graph.zones[0].light), (0, 10));
    assert_eq!(graph.zones[0].nodes, vec![4, 8, 12, 7, 3, 0]);
    assert_eq!(graph.adj[0].neighbours, vec![4, 3]);
    assert_eq!(graph.adj[0].zones, vec![0]);
    assert_eq!(graph.adj[4].neighbours, vec![8, 0, 1, 8]);
    assert_eq!(graph.adj[4].zones, vec![0, 1]);
    assert_eq!(graph.adj[12].zones, vec![0, 3, 4]);
}

#[test]
fn read_blueprint_errors() {
    let mut lines = sample_lines();
    lines[0] = "x\n".to_string();
    assert_eq!(read_blueprint(&lines).err(), Some(ReadError::Plays));
    let mut lines = sample_lines();
    lines[1] = "\n".to_string();
    assert_eq!(read_blueprint(&lines).err(), Some(ReadError::Days));
    let mut lines = sample_lines();
    lines[4] = "2 9 6 10 14 9 5 54\n".to_string();
    assert_eq!(read_blueprint(&lines).err(), Some(ReadError::HexLine(2)));
    let mut lines = sample_lines();
    lines[20] = "2 13 46 50 53 49 45 41\n".to_string();
    assert!(read_blueprint(&lines).is_ok());
}
