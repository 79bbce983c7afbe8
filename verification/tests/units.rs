use maze::builder::build_maze;
use maze::coord::{manhattan_dist, Coordinate};
use maze::graph::Maze;
use maze::search::reconstruct_path;
use maze::table::Table;

fn grid(rows: &[&str]) -> Vec<Vec<char>> {
    rows.iter().map(|r| r.chars().collect()).collect()
}

#[test]
fn coordinate_new_sets_fields() {
    let c = Coordinate::new(3, 7);
    assert_eq!(c.row, 3);
    assert_eq!(c.col, 7);
    assert_eq!(c, Coordinate::new(3, 7));
}

#[test]
fn manhattan_dist_values() {
    let a = Coordinate::new(1, 2);
    let b = Coordinate::new(4, 0);
    assert_eq!(manhattan_dist(a, b), 5);
    assert_eq!(manhattan_dist(b, a), 5);
    assert_eq!(manhattan_dist(a, a), 0);
}

#[test]
fn table_last_insert_wins() {
    let mut t: Table<usize> = Table::new();
    let k = Coordinate::new(0, 0);
    assert_eq!(t.get(k), None);
    t.insert(k, 4);
    assert_eq!(t.get(k), Some(4));
    t.insert(k, 9);
    assert_eq!(t.get(k), Some(9));
    assert!(t.contains_key(k));
    assert!(!t.contains_key(Coordinate::new(0, 1)));
}

#[test]
fn reconstruct_path_follows_links() {
    let a = Coordinate::new(0, 0);
    let b = Coordinate::new(0, 1);
    let c = Coordinate::new(0, 2);
    let mut parents: Table<Coordinate> = Table::new();
    parents.insert(b, a);
    parents.insert(c, b);
    assert_eq!(reconstruct_path(&parents, c), vec![a, b, c]);
    assert_eq!(reconstruct_path(&parents, a), vec![a]);
}

#[test]
fn hand_built_maze_solves() {
    let a = Coordinate::new(0, 0);
    let b = Coordinate::new(0, 1);
    let c = Coordinate::new(0, 2);
    let mut m = Maze::new();
    m.set_start(a);
    m.set_end(c);
    m.add_connection(a, b);
    m.add_connection(b, c);
    assert_eq!(m.solve(), Some(vec![a, b, c]));
}

#[test]
fn hand_built_maze_without_start() {
    let mut m = Maze::new();
    m.set_end(Coordinate::new(0, 1));
    m.add_connection(Coordinate::new(0, 0), Coordinate::new(0, 1));
    assert_eq!(m.solve(), None);
}

#[test]
fn neighbors_of_lists_targets() {
    let rows = grid(&["###", "#S#", "# #", "###"]);
    let m = build_maze(&rows);
    // the open cell (2, 1) scans and takes an edge from the start above it
    let s = Coordinate::new(1, 1);
    let open = Coordinate::new(2, 1);
    assert_eq!(m.neighbors_of(s), vec![open]);
    assert_eq!(m.neighbors_of(Coordinate::new(9, 9)), vec![]);
}

#[test]
fn last_endpoint_occurrence_wins() {
    let rows = grid(&["S S", "E E"]);
    let m = build_maze(&rows);
    assert_eq!(m.start, Some(Coordinate::new(0, 2)));
    assert_eq!(m.end, Some(Coordinate::new(1, 2)));
}

#[test]
fn adjacency_matches_the_scan_rule() {
    let rows = grid(&["####", "#S E", "####"]);
    let m = build_maze(&rows);
    let s = Coordinate::new(1, 1);
    let mid = Coordinate::new(1, 2);
    let e = Coordinate::new(1, 3);
    // the open cell and the end scan outward; edges point into them
    assert!(m.edges.contains(&(s, mid)));
    assert!(m.edges.contains(&(e, mid)));
    assert!(m.edges.contains(&(mid, e)));
    // the start never scans, so nothing points into it
    assert!(!m.edges.iter().any(|&(_, to)| to == s));
    // no edge joins the non-adjacent pair
    assert!(!m.edges.contains(&(s, e)));
    assert!(!m.edges.contains(&(e, s)));
    // walls take part in no edge
    let wall = Coordinate::new(0, 0);
    assert!(!m.edges.iter().any(|&(a, b)| a == wall || b == wall));
}
