use vstd::prelude::*;

use crate::coord::{manhattan, Coordinate};

verus! {

/// The graph of walkable cells of a maze.
///
/// `start` and `end` are the designated endpoints, each set at most once
/// before solving. `edges` records the directed connections: a pair
/// `(a, b)` says that a step from `a` to `b` is allowed. The builder adds
/// each discovered connection as an edge into the cell being scanned.
pub struct Maze {
    pub start: Option<Coordinate>,
    pub end: Option<Coordinate>,
    pub edges: Vec<(Coordinate, Coordinate)>,
}

impl Maze {
    /// Whether the graph has a directed edge from `a` to `b`.
    pub open spec fn has_edge(self, a: Coordinate, b: Coordinate) -> bool {
        self.edges@.contains((a, b))
    }

    /// Every edge joins two cells at Manhattan distance one, as every maze
    /// built from a grid does (axis-aligned unit steps only).
    pub open spec fn unit_edges(self) -> bool {
        forall|a: Coordinate, b: Coordinate| #[trigger] self.has_edge(a, b) ==> manhattan(a, b) == 1
    }

    /// An empty graph: no endpoints, no edges.
    pub fn new() -> (m: Maze)
        ensures
            m.start is None,
            m.end is None,
            forall|a: Coordinate, b: Coordinate| !(#[trigger] m.has_edge(a, b)),
    {
        Maze { start: None, end: None, edges: Vec::new() }
    }

    /// Records the start cell, replacing any earlier one.
    pub fn set_start(&mut self, start: Coordinate)
        ensures
            final(self).start == Some(start),
            final(self).end == old(self).end,
            forall|a: Coordinate, b: Coordinate|
                #[trigger] final(self).has_edge(a, b) <==> old(self).has_edge(a, b),
    {
        self.start = Some(start);
    }

    /// Records the end cell, replacing any earlier one.
    pub fn set_end(&mut self, end: Coordinate)
        ensures
            final(self).start == old(self).start,
            final(self).end == Some(end),
            forall|a: Coordinate, b: Coordinate|
                #[trigger] final(self).has_edge(a, b) <==> old(self).has_edge(a, b),
    {
        self.end = Some(end);
    }

    /// Adds the directed edge from `from` to `to`; all else is unchanged.
    pub fn add_connection(&mut self, from: Coordinate, to: Coordinate)
        ensures
            final(self).start == old(self).start,
            final(self).end == old(self).end,
            forall|a: Coordinate, b: Coordinate|
                #[trigger] final(self).has_edge(a, b) <==> (old(self).has_edge(a, b) || (a == from
                    && b == to)),
    {
        let ghost before = self.edges@;
        self.edges.push((from, to));
        proof {
            assert forall|a: Coordinate, b: Coordinate|
                #[trigger] self.has_edge(a, b) <==> (before.contains((a, b)) || (a == from && b
                    == to)) by {
                if before.contains((a, b)) {
                    let j = choose|j: int| 0 <= j < before.len() && before[j] == (a, b);
                    assert(self.edges@[j] == (a, b));
                }
                if a == from && b == to {
                    assert(self.edges@[before.len() as int] == (a, b));
                }
                if self.edges@.contains((a, b)) {
                    let j = choose|j: int|
                        0 <= j < self.edges@.len() && self.edges@[j] == (a, b);
                    if j < before.len() {
                        assert(before[j] == (a, b));
                    }
                }
            }
        }
    }

    /// All cells one edge away from `from`. A cell with no recorded edges
    /// has zero neighbors.
    pub fn neighbors_of(&self, from: Coordinate) -> (ns: Vec<Coordinate>)
        ensures
            forall|b: Coordinate| #[trigger] ns@.contains(b) <==> self.has_edge(from, b),
    {
        let mut ns: Vec<Coordinate> = Vec::new();
        let mut i: usize = 0;
        while i < self.edges.len()
            invariant
                i <= self.edges.len(),
                forall|b: Coordinate| #[trigger]
                    ns@.contains(b) <==> exists|j: int|
                        0 <= j < i && self.edges@[j] == (from, b),
            decreases self.edges.len() - i,
        {
            let pair = self.edges[i];
            let ghost before = ns@;
            if pair.0 == from {
                ns.push(pair.1);
            }
            proof {
                assert forall|b: Coordinate| #[trigger]
                    ns@.contains(b) <==> exists|j: int|
                        0 <= j < i + 1 && self.edges@[j] == (from, b) by {
                    if ns@.contains(b) {
                        let k = choose|k: int| 0 <= k < ns@.len() && ns@[k] == b;
                        if k < before.len() {
                            assert(before.contains(b));
                            let j = choose|j: int| 0 <= j < i && self.edges@[j] == (from, b);
                            assert(0 <= j < i + 1 && self.edges@[j] == (from, b));
                        } else {
                            assert(self.edges@[i as int] == (from, b));
                        }
                    }
                    if exists|j: int| 0 <= j < i + 1 && self.edges@[j] == (from, b) {
                        let j = choose|j: int| 0 <= j < i + 1 && self.edges@[j] == (from, b);
                        if j < i {
                            assert(before.contains(b));
                            assert(before.len() <= ns@.len());
                            let k = choose|k: int| 0 <= k < before.len() && before[k] == b;
                            assert(ns@[k] == b);
                        } else {
                            assert(pair == (from, b));
                            assert(ns@.last() == b);
                        }
                    }
                }
            }
            i += 1;
        }
        ns
    }
}

/// A walk through the graph: at least one cell, and each consecutive pair
/// of cells joined by a directed edge.
pub open spec fn is_path(m: Maze, p: Seq<Coordinate>) -> bool {
    &&& p.len() >= 1
    &&& forall|i: int| 0 <= i < p.len() - 1 ==> m.has_edge(#[trigger] p[i], p[i + 1])
}

/// A walk that leads from `s` to `e`.
pub open spec fn connects(m: Maze, p: Seq<Coordinate>, s: Coordinate, e: Coordinate) -> bool {
    &&& is_path(m, p)
    &&& p[0] == s
    &&& p[p.len() - 1] == e
}

/// Whether some walk leads from `s` to `e`.
pub open spec fn has_path(m: Maze, s: Coordinate, e: Coordinate) -> bool {
    exists|p: Seq<Coordinate>| connects(m, p, s, e)
}

} // verus!
