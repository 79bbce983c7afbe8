use vstd::prelude::*;

use crate::coord::Coordinate;
use crate::graph::{connects, has_path, Maze};
use crate::search::solve_post;

verus! {

/// Optimality: over a maze whose edges are all unit steps — every maze
/// the builder produces — a returned path is as short as any walk from
/// the start to the end, so its edge count is the true shortest-path edge
/// count.
pub proof fn lemma_solve_optimal(m: Maze, p: Seq<Coordinate>, q: Seq<Coordinate>)
    requires
        solve_post(m, Some(p)),
        m.unit_edges(),
        connects(m, q, m.start.unwrap(), m.end.unwrap()),
    ensures
        q.len() >= p.len(),
{
}

/// Missing endpoint: a maze that lacks a start or lacks an end is
/// reported unsolvable.
pub proof fn lemma_missing_endpoint(m: Maze, r: Option<Seq<Coordinate>>)
    requires
        solve_post(m, r),
        m.start is None || m.end is None,
    ensures
        r is None,
{
    if r is Some {
        assert(m.start is Some && m.end is Some);
    }
}

/// No-path correctness: when no walk joins the endpoints, the solver
/// reports that and never returns a partial path.
pub proof fn lemma_no_path_gives_none(m: Maze, r: Option<Seq<Coordinate>>)
    requires
        solve_post(m, r),
        !has_path(m, m.start.unwrap(), m.end.unwrap()),
    ensures
        r is None,
{
    if r is Some {
        let p = r.unwrap();
        assert(connects(m, p, m.start.unwrap(), m.end.unwrap()));
        assert(has_path(m, m.start.unwrap(), m.end.unwrap()));
    }
}

/// Idempotence: two solves of one immutable maze agree on solvability,
/// and over unit edges their paths have equal length, though the routes
/// may differ where several shortest walks exist.
pub proof fn lemma_solve_repeatable(
    m: Maze,
    r1: Option<Seq<Coordinate>>,
    r2: Option<Seq<Coordinate>>,
)
    requires
        solve_post(m, r1),
        solve_post(m, r2),
    ensures
        r1 is Some <==> r2 is Some,
        m.unit_edges() && r1 is Some && r2 is Some ==> r1.unwrap().len() == r2.unwrap().len(),
{
    let s = m.start.unwrap();
    let e = m.end.unwrap();
    if r1 is Some && r2 is None {
        assert(connects(m, r1.unwrap(), s, e));
        assert(has_path(m, s, e));
    }
    if r2 is Some && r1 is None {
        assert(connects(m, r2.unwrap(), s, e));
        assert(has_path(m, s, e));
    }
    if m.unit_edges() && r1 is Some && r2 is Some {
        assert(connects(m, r1.unwrap(), s, e));
        assert(connects(m, r2.unwrap(), s, e));
        assert(r1.unwrap().len() >= r2.unwrap().len());
        assert(r2.unwrap().len() >= r1.unwrap().len());
    }
}

} // verus!
