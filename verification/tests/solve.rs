use maze::builder::build_maze;
use maze::coord::Coordinate;
use maze::graph::Maze;

fn grid(rows: &[&str]) -> Vec<Vec<char>> {
    rows.iter().map(|r| r.chars().collect()).collect()
}

fn assert_is_path(m: &Maze, path: &[Coordinate]) {
    for w in path.windows(2) {
        assert!(
            m.edges.contains(&(w[0], w[1])),
            "missing edge {:?} -> {:?}",
            w[0],
            w[1]
        );
    }
}

#[test]
fn straight_corridor() {
    let rows = grid(&["#####", "#S E#", "#####"]);
    let m = build_maze(&rows);
    assert_eq!(m.start, Some(Coordinate::new(1, 1)));
    assert_eq!(m.end, Some(Coordinate::new(1, 3)));
    let path = m.solve().expect("a path exists");
    assert_eq!(
        path,
        vec![
            Coordinate::new(1, 1),
            Coordinate::new(1, 2),
            Coordinate::new(1, 3),
        ]
    );
}

#[test]
fn disconnected_rooms() {
    let rows = grid(&["#####", "#S#E#", "#####"]);
    let m = build_maze(&rows);
    assert!(m.start.is_some());
    assert!(m.end.is_some());
    assert!(m.solve().is_none());
}

#[test]
fn detour_around_wall() {
    let rows = grid(&["#####", "#S#E#", "#   #", "#####"]);
    let m = build_maze(&rows);
    let path = m.solve().expect("a path exists");
    assert_eq!(path.len(), 5);
    assert_eq!(path[0], Coordinate::new(1, 1));
    assert_eq!(path[4], Coordinate::new(1, 3));
    assert_is_path(&m, &path);
}

#[test]
fn optimal_among_choices() {
    // two routes around the block; the shorter one must win
    let rows = grid(&["######", "#S  E#", "#  ###", "#    #", "######"]);
    let m = build_maze(&rows);
    let path = m.solve().expect("a path exists");
    assert_eq!(path.len(), 4);
    assert_eq!(path[0], Coordinate::new(1, 1));
    assert_eq!(path[3], Coordinate::new(1, 4));
    assert_is_path(&m, &path);
}

#[test]
fn missing_start() {
    let rows = grid(&["####", "# E#", "####"]);
    let m = build_maze(&rows);
    assert!(m.start.is_none());
    assert!(m.solve().is_none());
}

#[test]
fn missing_end() {
    let rows = grid(&["####", "#S #", "####"]);
    let m = build_maze(&rows);
    assert!(m.end.is_none());
    assert!(m.solve().is_none());
}

#[test]
fn empty_grid() {
    let rows: Vec<Vec<char>> = Vec::new();
    let m = build_maze(&rows);
    assert!(m.start.is_none());
    assert!(m.end.is_none());
    assert!(m.solve().is_none());
}

#[test]
fn start_equals_end_is_trivial() {
    let mut m = Maze::new();
    let c = Coordinate::new(2, 2);
    m.set_start(c);
    m.set_end(c);
    let path = m.solve().expect("start and end coincide");
    assert_eq!(path, vec![c]);
}

#[test]
fn solving_twice_gives_equal_lengths() {
    let rows = grid(&["#####", "#S  #", "# #E#", "#####"]);
    let m = build_maze(&rows);
    let first = m.solve().expect("a path exists");
    let second = m.solve().expect("a path exists");
    assert_eq!(first.len(), second.len());
}

#[test]
fn irregular_rows_are_guarded() {
    // rows of differing length must not fault during scanning
    let rows = grid(&["###", "#S E", "##", "#  #"]);
    let m = build_maze(&rows);
    assert_eq!(m.start, Some(Coordinate::new(1, 1)));
    assert_eq!(m.end, Some(Coordinate::new(1, 3)));
    let path = m.solve().expect("the corridor is open");
    assert_eq!(path.len(), 3);
}
