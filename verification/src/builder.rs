use vstd::prelude::*;

use crate::coord::{manhattan, Coordinate};
use crate::graph::Maze;

verus! {

/// A cell a step may land on: open floor, the start, or the end. Every
/// other character is a wall, and cells outside the grid count as walls.
pub open spec fn walkable(ch: char) -> bool {
    ch == ' ' || ch == 'S' || ch == 'E'
}

/// A cell that scans its own neighborhood: open floor or the end. The
/// start cell does not scan; it only receives edges from the cells around
/// it that do.
pub open spec fn scans(ch: char) -> bool {
    ch == ' ' || ch == 'E'
}

/// Whether `c` names a cell of the grid. Rows may differ in length; each
/// is measured on its own.
pub open spec fn in_grid(g: Seq<Seq<char>>, c: Coordinate) -> bool {
    c.row < g.len() && c.col < g[c.row as int].len()
}

/// The character at cell `c`.
pub open spec fn cell_at(g: Seq<Seq<char>>, c: Coordinate) -> char {
    g[c.row as int][c.col as int]
}

/// The edges the builder derives from a grid: a scanning cell `c` takes an
/// edge from each walkable axis-neighbor `n` into itself.
pub open spec fn grid_edge(g: Seq<Seq<char>>, n: Coordinate, c: Coordinate) -> bool {
    &&& in_grid(g, c) && scans(cell_at(g, c))
    &&& in_grid(g, n) && walkable(cell_at(g, n))
    &&& manhattan(n, c) == 1
}

/// Whether some cell of the grid holds `ch`.
pub open spec fn grid_has(g: Seq<Seq<char>>, ch: char) -> bool {
    exists|c: Coordinate| in_grid(g, c) && #[trigger] cell_at(g, c) == ch
}

/// Whether `c` lies before the scan position `(y, x)` in row-major order.
pub open spec fn lex_before(c: Coordinate, y: int, x: int) -> bool {
    c.row < y || (c.row == y && c.col < x)
}

/// `c` is the cell holding `ch` that the row-major scan meets last: every
/// other occurrence of `ch` lies strictly before it.
pub open spec fn grid_last(g: Seq<Seq<char>>, ch: char, c: Coordinate) -> bool {
    &&& in_grid(g, c)
    &&& cell_at(g, c) == ch
    &&& forall|d: Coordinate|
        in_grid(g, d) && #[trigger] cell_at(g, d) == ch ==> (d == c || lex_before(
            d,
            c.row as int,
            c.col as int,
        ))
}

/// `c` is the row-major-last cell holding `ch` among those before the
/// scan position `(y, x)`.
spec fn last_upto(g: Seq<Seq<char>>, ch: char, c: Coordinate, y: int, x: int) -> bool {
    &&& lex_before(c, y, x)
    &&& in_grid(g, c)
    &&& cell_at(g, c) == ch
    &&& forall|d: Coordinate|
        lex_before(d, y, x) && in_grid(g, d) && #[trigger] cell_at(g, d) == ch ==> (d == c
            || lex_before(d, c.row as int, c.col as int))
}

/// Moving the scan position over a cell that does not hold `ch` keeps the
/// last occurrence of `ch` the last.
proof fn lemma_last_step(g: Seq<Seq<char>>, ch: char, y: int, x: int, cur: Coordinate, c: Coordinate)
    requires
        cur.row == y,
        cur.col == x,
        in_grid(g, cur),
        cell_at(g, cur) != ch,
        last_upto(g, ch, c, y, x),
    ensures
        last_upto(g, ch, c, y, x + 1),
{
    assert forall|d: Coordinate|
        lex_before(d, y, x + 1) && in_grid(g, d) && #[trigger] cell_at(g, d) == ch implies (d == c
        || lex_before(d, c.row as int, c.col as int)) by {
        if !lex_before(d, y, x) {
            assert(d.row == y && d.col == x);
            assert(d == cur);
            assert(false);
        }
    }
}

/// At the end of a row the last occurrence carries to the next row head.
proof fn lemma_last_row_step(g: Seq<Seq<char>>, ch: char, y: int, c: Coordinate)
    requires
        0 <= y < g.len(),
        last_upto(g, ch, c, y, g[y].len() as int),
    ensures
        last_upto(g, ch, c, y + 1, 0),
{
    assert forall|d: Coordinate|
        lex_before(d, y + 1, 0) && in_grid(g, d) && #[trigger] cell_at(g, d) == ch implies (d == c
        || lex_before(d, c.row as int, c.col as int)) by {
        assert(lex_before(d, y, g[y].len() as int));
    }
}

/// Past the last row, the last occurrence seen is the grid's.
proof fn lemma_last_full(g: Seq<Seq<char>>, ch: char, c: Coordinate)
    requires
        last_upto(g, ch, c, g.len() as int, 0),
    ensures
        grid_last(g, ch, c),
{
    assert forall|d: Coordinate|
        in_grid(g, d) && #[trigger] cell_at(g, d) == ch implies (d == c || lex_before(
            d,
            c.row as int,
            c.col as int,
        )) by {
        assert(lex_before(d, g.len() as int, 0));
    }
}

/// Whether some cell before the scan position `(y, x)` holds `ch`.
spec fn found_upto(g: Seq<Seq<char>>, ch: char, y: int, x: int) -> bool {
    exists|c: Coordinate| lex_before(c, y, x) && in_grid(g, c) && #[trigger] cell_at(g, c) == ch
}

/// Moving the scan position one cell right, over a cell that does not hold
/// `ch`, finds no more occurrences of `ch`.
proof fn lemma_found_step(g: Seq<Seq<char>>, ch: char, y: int, x: int, cur: Coordinate)
    requires
        cur.row == y,
        cur.col == x,
        in_grid(g, cur),
        cell_at(g, cur) != ch,
    ensures
        found_upto(g, ch, y, x + 1) == found_upto(g, ch, y, x),
{
    if found_upto(g, ch, y, x + 1) {
        let c = choose|c: Coordinate|
            lex_before(c, y, x + 1) && in_grid(g, c) && #[trigger] cell_at(g, c) == ch;
        if !lex_before(c, y, x) {
            assert(c.row == y && c.col == x);
            assert(c == cur);
            assert(false);
        }
    }
}

/// At the end of a row the scan position moves to the head of the next.
proof fn lemma_found_row_step(g: Seq<Seq<char>>, ch: char, y: int)
    requires
        0 <= y < g.len(),
    ensures
        found_upto(g, ch, y, g[y].len() as int) == found_upto(g, ch, y + 1, 0),
{
    if found_upto(g, ch, y + 1, 0) {
        let c = choose|c: Coordinate|
            lex_before(c, y + 1, 0) && in_grid(g, c) && #[trigger] cell_at(g, c) == ch;
        assert(lex_before(c, y, g[y].len() as int));
    }
}

/// Past the last row, the scan has seen the whole grid.
proof fn lemma_found_full(g: Seq<Seq<char>>, ch: char)
    ensures
        found_upto(g, ch, g.len() as int, 0) == grid_has(g, ch),
{
    if grid_has(g, ch) {
        let c = choose|c: Coordinate| in_grid(g, c) && #[trigger] cell_at(g, c) == ch;
        assert(lex_before(c, g.len() as int, 0));
    }
}

/// Scans the four axis-neighbors of the cell `(y, x)` and records an edge
/// into it from each walkable one, exactly as `grid_edge` prescribes.
#[verifier::rlimit(100)]
fn scan_cell(m: &mut Maze, rows: &Vec<Vec<char>>, y: usize, x: usize)
    requires
        y < rows.len(),
        x < rows@[y as int].len(),
        scans(cell_at(rows.deep_view(), Coordinate { row: y, col: x })),
    ensures
        final(m).start == old(m).start,
        final(m).end == old(m).end,
        forall|n: Coordinate, c: Coordinate|
            #[trigger] final(m).has_edge(n, c) <==> (old(m).has_edge(n, c) || (c == (Coordinate {
                row: y,
                col: x,
            }) && grid_edge(rows.deep_view(), n, c))),
{
    let ghost g = rows.deep_view();
    let ghost m0 = *m;
    let cur = Coordinate::new(y, x);
    proof {
        assert(in_grid(g, cur));
    }
    // above
    if y >= 1 {
        if x < rows[y - 1].len() {
            let nb = rows[y - 1][x];
            if nb == ' ' || nb == 'S' || nb == 'E' {
                let cand = Coordinate::new(y - 1, x);
                proof {
                    assert(cell_at(g, cand) == nb);
                    assert(grid_edge(g, cand, cur));
                }
                m.add_connection(cand, cur);
            }
        }
    }
    // right
    if x + 1 < rows[y].len() {
        let nb = rows[y][x + 1];
        if nb == ' ' || nb == 'S' || nb == 'E' {
            let cand = Coordinate::new(y, x + 1);
            proof {
                assert(cell_at(g, cand) == nb);
                assert(grid_edge(g, cand, cur));
            }
            m.add_connection(cand, cur);
        }
    }
    // below
    if y + 1 < rows.len() {
        if x < rows[y + 1].len() {
            let nb = rows[y + 1][x];
            if nb == ' ' || nb == 'S' || nb == 'E' {
                let cand = Coordinate::new(y + 1, x);
                proof {
                    assert(cell_at(g, cand) == nb);
                    assert(grid_edge(g, cand, cur));
                }
                m.add_connection(cand, cur);
            }
        }
    }
    // left
    if x >= 1 {
        let nb = rows[y][x - 1];
        if nb == ' ' || nb == 'S' || nb == 'E' {
            let cand = Coordinate::new(y, x - 1);
            proof {
                assert(cell_at(g, cand) == nb);
                assert(grid_edge(g, cand, cur));
            }
            m.add_connection(cand, cur);
        }
    }
    proof {
        let yi = y as int;
        let xi = x as int;
        assert forall|n: Coordinate, c: Coordinate|
            #[trigger] m.has_edge(n, c) <==> (m0.has_edge(n, c) || (c == cur && grid_edge(
                g,
                n,
                c,
            ))) by {
            if grid_edge(g, n, cur) {
                assert(manhattan(n, cur) == 1);
                if n.row == yi && n.col == xi + 1 {
                    assert(cell_at(g, n) == rows@[yi]@[xi + 1]);
                    assert(m.has_edge(n, cur));
                } else if n.row == yi && n.col + 1 == xi {
                    assert(cell_at(g, n) == rows@[yi]@[xi - 1]);
                    assert(m.has_edge(n, cur));
                } else if n.col == xi && n.row + 1 == yi {
                    assert(cell_at(g, n) == rows@[yi - 1]@[xi]);
                    assert(m.has_edge(n, cur));
                } else {
                    assert(n.col == xi && n.row == yi + 1);
                    assert(cell_at(g, n) == rows@[yi + 1]@[xi]);
                    assert(m.has_edge(n, cur));
                }
            }
        }
    }
}

/// Builds the maze graph of a character grid.
///
/// Every cell holding `' '` or `'E'` scans its four axis-neighbors and an
/// edge is recorded from each walkable neighbor into it; `'S'` and `'E'`
/// cells are recorded as the endpoints, the last occurrence winning. Rows
/// of differing length are taken as they are; nothing outside a row is
/// touched.
pub fn build_maze(rows: &Vec<Vec<char>>) -> (m: Maze)
    ensures
        forall|n: Coordinate, c: Coordinate|
            #[trigger] m.has_edge(n, c) <==> grid_edge(rows.deep_view(), n, c),
        m.unit_edges(),
        m.start is Some <==> grid_has(rows.deep_view(), 'S'),
        m.start is Some ==> grid_last(rows.deep_view(), 'S', m.start.unwrap()),
        m.end is Some <==> grid_has(rows.deep_view(), 'E'),
        m.end is Some ==> grid_last(rows.deep_view(), 'E', m.end.unwrap()),
{
    let ghost g = rows.deep_view();
    let mut m = Maze::new();
    let mut y: usize = 0;
    while y < rows.len()
        invariant
            g == rows.deep_view(),
            y <= rows@.len(),
            forall|n: Coordinate, c: Coordinate|
                #[trigger] m.has_edge(n, c) <==> (grid_edge(g, n, c) && lex_before(c, y as int, 0)),
            m.start is Some <==> found_upto(g, 'S', y as int, 0),
            m.start is Some ==> last_upto(g, 'S', m.start.unwrap(), y as int, 0),
            m.end is Some <==> found_upto(g, 'E', y as int, 0),
            m.end is Some ==> last_upto(g, 'E', m.end.unwrap(), y as int, 0),
        decreases rows@.len() - y,
    {
        let row_len = rows[y].len();
        let mut x: usize = 0;
        while x < row_len
            invariant
                g == rows.deep_view(),
                y < rows@.len(),
                row_len == g[y as int].len(),
                x <= row_len,
                forall|n: Coordinate, c: Coordinate|
                    #[trigger] m.has_edge(n, c) <==> (grid_edge(g, n, c) && lex_before(
                        c,
                        y as int,
                        x as int,
                    )),
                m.start is Some <==> found_upto(g, 'S', y as int, x as int),
                m.start is Some ==> last_upto(g, 'S', m.start.unwrap(), y as int, x as int),
                m.end is Some <==> found_upto(g, 'E', y as int, x as int),
                m.end is Some ==> last_upto(g, 'E', m.end.unwrap(), y as int, x as int),
            decreases row_len - x,
        {
            let ghost yi = y as int;
            let ghost xi = x as int;
            let ghost cur = Coordinate { row: y, col: x };
            proof {
                assert(in_grid(g, cur));
            }
            let ch = rows[y][x];
            proof {
                assert(ch == cell_at(g, cur));
            }
            if ch == 'S' {
                m.set_start(Coordinate::new(y, x));
                proof {
                    lemma_found_step(g, 'E', yi, xi, cur);
                    if m.end is Some {
                        lemma_last_step(g, 'E', yi, xi, cur, m.end.unwrap());
                    }
                    assert(lex_before(cur, yi, xi + 1) && in_grid(g, cur) && cell_at(g, cur)
                        == 'S');
                    assert forall|d: Coordinate|
                        lex_before(d, yi, xi + 1) && in_grid(g, d) && #[trigger] cell_at(g, d)
                            == 'S' implies (d == cur || lex_before(
                        d,
                        cur.row as int,
                        cur.col as int,
                    )) by {
                        if d != cur {
                            assert(lex_before(d, yi, xi));
                        }
                    }
                    assert(last_upto(g, 'S', cur, yi, xi + 1));
                    assert forall|n: Coordinate, c: Coordinate|
                        #[trigger] m.has_edge(n, c) <==> (grid_edge(g, n, c) && lex_before(
                            c,
                            yi,
                            xi + 1,
                        )) by {
                        if grid_edge(g, n, c) && lex_before(c, yi, xi + 1) && !lex_before(
                            c,
                            yi,
                            xi,
                        ) {
                            assert(c == cur);
                            assert(!scans(cell_at(g, c)));
                            assert(false);
                        }
                    }
                }
            } else if ch == ' ' || ch == 'E' {
                if ch == 'E' {
                    m.set_end(Coordinate::new(y, x));
                    proof {
                        lemma_found_step(g, 'S', yi, xi, cur);
                        if m.start is Some {
                            lemma_last_step(g, 'S', yi, xi, cur, m.start.unwrap());
                        }
                        assert(lex_before(cur, yi, xi + 1) && in_grid(g, cur) && cell_at(g, cur)
                            == 'E');
                        assert forall|d: Coordinate|
                            lex_before(d, yi, xi + 1) && in_grid(g, d) && #[trigger] cell_at(g, d)
                                == 'E' implies (d == cur || lex_before(
                            d,
                            cur.row as int,
                            cur.col as int,
                        )) by {
                            if d != cur {
                                assert(lex_before(d, yi, xi));
                            }
                        }
                        assert(last_upto(g, 'E', cur, yi, xi + 1));
                    }
                } else {
                    proof {
                        lemma_found_step(g, 'S', yi, xi, cur);
                        lemma_found_step(g, 'E', yi, xi, cur);
                        if m.start is Some {
                            lemma_last_step(g, 'S', yi, xi, cur, m.start.unwrap());
                        }
                        if m.end is Some {
                            lemma_last_step(g, 'E', yi, xi, cur, m.end.unwrap());
                        }
                    }
                }
                scan_cell(&mut m, rows, y, x);
                proof {
                    assert forall|n: Coordinate, c: Coordinate|
                        #[trigger] m.has_edge(n, c) <==> (grid_edge(g, n, c) && lex_before(
                            c,
                            yi,
                            xi + 1,
                        )) by {
                        if grid_edge(g, n, c) && lex_before(c, yi, xi + 1) && !lex_before(
                            c,
                            yi,
                            xi,
                        ) {
                            assert(c == cur);
                        }
                        if m.has_edge(n, c) && c == cur && grid_edge(g, n, c) {
                            assert(lex_before(c, yi, xi + 1));
                        }
                    }
                }
            } else {
                proof {
                    lemma_found_step(g, 'S', yi, xi, cur);
                    lemma_found_step(g, 'E', yi, xi, cur);
                    if m.start is Some {
                        lemma_last_step(g, 'S', yi, xi, cur, m.start.unwrap());
                    }
                    if m.end is Some {
                        lemma_last_step(g, 'E', yi, xi, cur, m.end.unwrap());
                    }
                    assert forall|n: Coordinate, c: Coordinate|
                        #[trigger] m.has_edge(n, c) <==> (grid_edge(g, n, c) && lex_before(
                            c,
                            yi,
                            xi + 1,
                        )) by {
                        if grid_edge(g, n, c) && lex_before(c, yi, xi + 1) && !lex_before(
                            c,
                            yi,
                            xi,
                        ) {
                            assert(c == cur);
                            assert(!scans(cell_at(g, c)));
                            assert(false);
                        }
                    }
                }
            }
            x += 1;
        }
        proof {
            lemma_found_row_step(g, 'S', y as int);
            lemma_found_row_step(g, 'E', y as int);
            if m.start is Some {
                lemma_last_row_step(g, 'S', y as int, m.start.unwrap());
            }
            if m.end is Some {
                lemma_last_row_step(g, 'E', y as int, m.end.unwrap());
            }
            assert forall|n: Coordinate, c: Coordinate|
                #[trigger] m.has_edge(n, c) <==> (grid_edge(g, n, c) && lex_before(
                    c,
                    y as int + 1,
                    0,
                )) by {
                if grid_edge(g, n, c) && lex_before(c, y as int + 1, 0) && !lex_before(
                    c,
                    y as int,
                    row_len as int,
                ) {
                    assert(c.row == y);
                    assert(c.col < g[y as int].len());
                    assert(false);
                }
            }
        }
        y += 1;
    }
    proof {
        lemma_found_full(g, 'S');
        lemma_found_full(g, 'E');
        if m.start is Some {
            lemma_last_full(g, 'S', m.start.unwrap());
        }
        if m.end is Some {
            lemma_last_full(g, 'E', m.end.unwrap());
        }
        assert forall|n: Coordinate, c: Coordinate|
            #[trigger] m.has_edge(n, c) <==> grid_edge(g, n, c) by {
            if grid_edge(g, n, c) {
                assert(c.row < g.len());
                assert(lex_before(c, rows@.len() as int, 0));
            }
        }
        assert forall|a: Coordinate, b: Coordinate| #[trigger]
            m.has_edge(a, b) implies manhattan(a, b) == 1 by {
            assert(grid_edge(g, a, b));
        }
    }
    m
}

} // verus!
