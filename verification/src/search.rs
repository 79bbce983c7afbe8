use vstd::prelude::*;

use crate::coord::{lemma_manhattan_triangle, manhattan, manhattan_dist, Coordinate};
use crate::graph::{connects, has_path, is_path, Maze};
use crate::table::Table;

verus! {

/// Extending a walk by one edge keeps it a walk.
proof fn lemma_connects_extend(
    m: Maze,
    p: Seq<Coordinate>,
    s: Coordinate,
    v: Coordinate,
    w: Coordinate,
)
    requires
        connects(m, p, s, v),
        m.has_edge(v, w),
    ensures
        connects(m, p.push(w), s, w),
        p.push(w).len() == p.len() + 1,
{
    let q = p.push(w);
    assert forall|i: int| 0 <= i < q.len() - 1 implies #[trigger] m.has_edge(q[i], q[i + 1]) by {
        if i < p.len() - 1 {
            assert(q[i] == p[i]);
            assert(q[i + 1] == p[i + 1]);
        } else {
            assert(q[i] == p[p.len() - 1]);
            assert(q[i + 1] == w);
        }
    }
}

/// A prefix of a walk is a walk to the cell where it stops.
proof fn lemma_connects_prefix(m: Maze, p: Seq<Coordinate>, s: Coordinate, n: int)
    requires
        is_path(m, p),
        p[0] == s,
        0 <= n < p.len(),
    ensures
        connects(m, p.take(n + 1), s, p[n]),
        p.take(n + 1).len() == n + 1,
{
    let q = p.take(n + 1);
    assert forall|i: int| 0 <= i < q.len() - 1 implies #[trigger] m.has_edge(q[i], q[i + 1]) by {
        assert(q[i] == p[i]);
        assert(q[i + 1] == p[i + 1]);
        assert(m.has_edge(p[i], p[i + 1]));
    }
}

/// The first cell of a walk that is not yet settled, given that its final
/// cell is not.
proof fn lemma_first_unsettled(settled: Seq<Coordinate>, p: Seq<Coordinate>) -> (n: int)
    requires
        p.len() >= 1,
        !settled.contains(p[p.len() - 1]),
    ensures
        0 <= n < p.len(),
        !settled.contains(p[n]),
        forall|j: int| 0 <= j < n ==> settled.contains(#[trigger] p[j]),
    decreases p.len(),
{
    if !settled.contains(p[0]) {
        0
    } else {
        let q = p.drop_first();
        assert(q[q.len() - 1] == p[p.len() - 1]);
        let n0 = lemma_first_unsettled(settled, q);
        assert forall|j: int| 0 <= j < n0 + 1 implies settled.contains(#[trigger] p[j]) by {
            if j > 0 {
                assert(q[j - 1] == p[j]);
                assert(settled.contains(q[j - 1]));
            }
        }
        assert(p[n0 + 1] == q[n0]);
        n0 + 1
    }
}

/// Along a walk whose edges are all unit steps, the Manhattan distance to
/// any fixed cell changes by at most one per edge.
proof fn lemma_heuristic_along_path(m: Maze, p: Seq<Coordinate>, e: Coordinate)
    requires
        m.unit_edges(),
        is_path(m, p),
    ensures
        manhattan(p[0], e) <= p.len() - 1 + manhattan(p[p.len() - 1], e),
    decreases p.len(),
{
    if p.len() >= 2 {
        let q = p.drop_first();
        assert forall|i: int| 0 <= i < q.len() - 1 implies #[trigger] m.has_edge(q[i], q[i + 1]) by {
            assert(q[i] == p[i + 1]);
            assert(q[i + 1] == p[i + 2]);
            assert(m.has_edge(p[i + 1], p[i + 2]));
        }
        lemma_heuristic_along_path(m, q, e);
        assert(m.has_edge(p[0], p[1]));
        lemma_manhattan_triangle(p[0], p[1], e);
        assert(q[0] == p[1]);
        assert(q[q.len() - 1] == p[p.len() - 1]);
    }
}

/// Every walk that starts among the settled cells ends among them, as long
/// as no edge leads out of the settled region.
proof fn lemma_settled_path(m: Maze, settled: Seq<Coordinate>, p: Seq<Coordinate>)
    requires
        is_path(m, p),
        settled.contains(p[0]),
        forall|v: Coordinate, w: Coordinate|
            settled.contains(v) && #[trigger] m.has_edge(v, w) ==> settled.contains(w),
    ensures
        settled.contains(p[p.len() - 1]),
    decreases p.len(),
{
    if p.len() >= 2 {
        assert(m.has_edge(p[0], p[1]));
        let q = p.drop_first();
        assert forall|i: int| 0 <= i < q.len() - 1 implies #[trigger] m.has_edge(q[i], q[i + 1]) by {
            assert(q[i] == p[i + 1]);
            assert(q[i + 1] == p[i + 2]);
            assert(m.has_edge(p[i + 1], p[i + 2]));
        }
        assert(q[0] == p[1]);
        lemma_settled_path(m, settled, q);
        assert(q[q.len() - 1] == p[p.len() - 1]);
    }
}

/// When the frontier cell with the least sum of cost and heuristic is
/// picked, its recorded cost is already a lower bound on every walk from
/// the start to it. This is the classical argument that best-first search
/// with a consistent heuristic settles cells in optimal order.
proof fn lemma_pop_optimal(
    m: Maze,
    s: Coordinate,
    e: Coordinate,
    frontier: Seq<Coordinate>,
    settled: Seq<Coordinate>,
    gm: Map<Coordinate, usize>,
    u: Coordinate,
    p: Seq<Coordinate>,
)
    requires
        m.unit_edges(),
        forall|v: Coordinate| #[trigger]
            gm.contains_key(v) <==> (frontier.contains(v) || settled.contains(v)),
        gm.contains_key(s) && gm[s] == 0,
        forall|v: Coordinate| #[trigger] frontier.contains(v) ==> !settled.contains(v),
        forall|v: Coordinate, q: Seq<Coordinate>|
            settled.contains(v) && #[trigger] connects(m, q, s, v) ==> q.len() >= gm[v] + 1,
        forall|v: Coordinate, w: Coordinate|
            settled.contains(v) && #[trigger] m.has_edge(v, w) ==> gm.contains_key(w) && gm[w]
                <= gm[v] + 1,
        frontier.contains(u),
        forall|w: Coordinate| #[trigger]
            frontier.contains(w) ==> gm[u] + manhattan(u, e) <= gm[w] + manhattan(w, e),
        connects(m, p, s, u),
    ensures
        p.len() >= gm[u] + 1,
{
    assert(!settled.contains(p[p.len() - 1]));
    let n = lemma_first_unsettled(settled, p);
    let w = p[n];
    if n == 0 {
        assert(w == s);
        assert(frontier.contains(w));
        assert(gm[w] <= n);
    } else {
        let prev = p[n - 1];
        assert(settled.contains(prev));
        assert(m.has_edge(prev, w));
        lemma_connects_prefix(m, p, s, n - 1);
        assert(connects(m, p.take(n), s, prev));
        assert(p.take(n).len() >= gm[prev] + 1);
        assert(gm[prev] <= n - 1);
        assert(gm.contains_key(w) && gm[w] <= gm[prev] + 1);
        assert(frontier.contains(w));
        assert(gm[w] <= n);
    }
    let suf = p.subrange(n, p.len() as int);
    assert forall|i: int| 0 <= i < suf.len() - 1 implies #[trigger] m.has_edge(suf[i], suf[i + 1]) by {
        assert(suf[i] == p[n + i]);
        assert(suf[i + 1] == p[n + i + 1]);
        assert(m.has_edge(p[n + i], p[n + i + 1]));
    }
    assert(is_path(m, suf));
    lemma_heuristic_along_path(m, suf, e);
    assert(suf[0] == w);
    assert(suf[suf.len() - 1] == p[p.len() - 1]);
    assert(manhattan(w, e) <= p.len() - 1 - n + manhattan(u, e));
    assert(gm[u] + manhattan(u, e) <= gm[w] + manhattan(w, e));
    assert(gm[u] <= p.len() - 1);
}

/// A parent chain that steps the recorded cost down by one at each link
/// spells out a walk from the start, of exactly the recorded cost.
proof fn lemma_parent_chain(
    m: Maze,
    s: Coordinate,
    gm: Map<Coordinate, usize>,
    pm: Map<Coordinate, Coordinate>,
    p: Seq<Coordinate>,
)
    requires
        gm.contains_key(s) && gm[s] == 0,
        forall|v: Coordinate| #[trigger] pm.contains_key(v) <==> (gm.contains_key(v) && v != s),
        forall|v: Coordinate| #[trigger]
            pm.contains_key(v) ==> gm.contains_key(pm[v]) && m.has_edge(pm[v], v) && gm[v] == gm[pm[v]]
                + 1,
        p.len() >= 1,
        gm.contains_key(p[p.len() - 1]),
        !pm.contains_key(p[0]),
        forall|i: int| 0 <= i < p.len() - 1 ==> pm.contains_key(#[trigger] p[i + 1]) && p[i]
            == pm[p[i + 1]],
    ensures
        connects(m, p, s, p[p.len() - 1]),
        gm[p[p.len() - 1]] == p.len() - 1,
    decreases p.len(),
{
    if p.len() == 1 {
        assert(p[0] == s);
    } else {
        let t = p[p.len() - 1];
        assert(pm.contains_key(p[p.len() - 2 + 1]) && p[p.len() - 2] == pm[p[p.len() - 2 + 1]]);
        let q = p.drop_last();
        assert(q[q.len() - 1] == p[p.len() - 2]);
        assert forall|i: int| 0 <= i < q.len() - 1 implies pm.contains_key(#[trigger] q[i + 1])
            && q[i] == pm[q[i + 1]] by {
            assert(q[i + 1] == p[i + 1]);
            assert(q[i] == p[i]);
            assert(pm.contains_key(p[i + 1]) && p[i] == pm[p[i + 1]]);
        }
        lemma_parent_chain(m, s, gm, pm, q);
        lemma_connects_extend(m, q, s, q[q.len() - 1], t);
        assert(q.push(t) =~= p);
    }
}

/// A ranking that shrinks along every parent link; it bounds the walk that
/// `reconstruct_path` takes, so the walk terminates.
pub open spec fn parent_rank_ok(pm: Map<Coordinate, Coordinate>, rank: Map<Coordinate, int>) -> bool {
    forall|v: Coordinate| #[trigger]
        pm.contains_key(v) ==> rank.contains_key(v) && rank.contains_key(pm[v]) && 0 <= rank[pm[v]]
            && rank[pm[v]] < rank[v]
}

/// Follows the recorded parent links backward from `last` until a cell
/// without a link is reached, and returns the cells in walking order, so
/// ending at `last`.
pub fn reconstruct_path(connections: &Table<Coordinate>, last: Coordinate) -> (p: Vec<Coordinate>)
    requires
        exists|rank: Map<Coordinate, int>| parent_rank_ok(connections@, rank),
    ensures
        p@.len() >= 1,
        p@[p@.len() - 1] == last,
        !connections@.contains_key(p@[0]),
        forall|i: int| 0 <= i < p@.len() - 1 ==> connections@.contains_key(#[trigger] p@[i + 1])
            && p@[i] == connections@[p@[i + 1]],
{
    let ghost rank = choose|rank: Map<Coordinate, int>| parent_rank_ok(connections@, rank);
    let mut chain: Vec<Coordinate> = Vec::new();
    let mut current = last;
    chain.push(current);
    while connections.contains_key(current)
        invariant
            chain@.len() >= 1,
            chain@[0] == last,
            chain@[chain@.len() - 1] == current,
            forall|i: int| 0 <= i < chain@.len() - 1 ==> connections@.contains_key(
                #[trigger] chain@[i],
            ) && chain@[i + 1] == connections@[chain@[i]],
            parent_rank_ok(connections@, rank),
        decreases (if connections@.contains_key(current) {
            rank[current]
        } else {
            0
        }),
    {
        let prev = connections.get(current).unwrap();
        current = prev;
        chain.push(current);
    }
    let mut p: Vec<Coordinate> = Vec::new();
    let mut j: usize = chain.len();
    while j > 0
        invariant
            j <= chain@.len(),
            p@.len() == chain@.len() - j,
            forall|i: int| 0 <= i < p@.len() ==> #[trigger] p@[i] == chain@[chain@.len() - 1 - i],
        decreases j,
    {
        j = j - 1;
        p.push(chain[j]);
    }
    proof {
        assert(p@[p@.len() - 1] == chain@[0]);
        assert(p@[0] == chain@[chain@.len() - 1]);
        assert forall|i: int| 0 <= i < p@.len() - 1 implies connections@.contains_key(
            #[trigger] p@[i + 1],
        ) && p@[i] == connections@[p@[i + 1]] by {
            let li = chain@.len() - 1 - i;
            assert(p@[i] == chain@[li]);
            assert(p@[i + 1] == chain@[li - 1]);
            assert(connections@.contains_key(chain@[li - 1]) && chain@[li]
                == connections@[chain@[li - 1]]);
        }
    }
    p
}

/// What `Maze::solve` promises, stated of the mathematical value of its
/// result.
///
/// A returned walk leads from the start to the end, and when every edge is
/// a unit step — as in every maze built from a grid — no shorter walk
/// exists. Nothing is returned exactly when an endpoint is missing or no
/// walk joins them.
pub open spec fn solve_post(m: Maze, r: Option<Seq<Coordinate>>) -> bool {
    match r {
        Some(p) => {
            &&& m.start is Some
            &&& m.end is Some
            &&& connects(m, p, m.start.unwrap(), m.end.unwrap())
            &&& m.unit_edges() ==> (forall|q: Seq<Coordinate>| #[trigger]
                connects(m, q, m.start.unwrap(), m.end.unwrap()) ==> q.len() >= p.len())
        },
        None => {
            ||| m.start is None
            ||| m.end is None
            ||| !has_path(m, m.start.unwrap(), m.end.unwrap())
        },
    }
}

/// The mathematical value of an optional path.
pub open spec fn opt_view(r: Option<Vec<Coordinate>>) -> Option<Seq<Coordinate>> {
    match r {
        Some(p) => Some(p@),
        None => None,
    }
}

/// Pushing onto a duplicate-free sequence of cells.
proof fn lemma_push_set(s: Seq<Coordinate>, x: Coordinate)
    ensures
        forall|v: Coordinate| #[trigger] s.push(x).contains(v) <==> (s.contains(v) || v == x),
        s.no_duplicates() && !s.contains(x) ==> s.push(x).no_duplicates(),
{
    assert forall|v: Coordinate| #[trigger] s.push(x).contains(v) <==> (s.contains(v) || v == x) by {
        if s.push(x).contains(v) {
            let j = choose|j: int| 0 <= j < s.push(x).len() && s.push(x)[j] == v;
            if j < s.len() {
                assert(s[j] == v);
            }
        }
        if s.contains(v) {
            let j = choose|j: int| 0 <= j < s.len() && s[j] == v;
            assert(s.push(x)[j] == v);
        }
        if v == x {
            assert(s.push(x)[s.len() as int] == v);
        }
    }
}

/// What a swap-style removal leaves of a duplicate-free sequence of cells.
proof fn lemma_swap_remove_set(s: Seq<Coordinate>, i: int)
    requires
        0 <= i < s.len(),
        s.no_duplicates(),
    ensures
        s.update(i, s[s.len() - 1]).drop_last().no_duplicates(),
        forall|v: Coordinate| #[trigger]
            s.update(i, s[s.len() - 1]).drop_last().contains(v) <==> (s.contains(v) && v != s[i]),
{
    let t = s.update(i, s[s.len() - 1]).drop_last();
    assert forall|v: Coordinate| #[trigger] t.contains(v) <==> (s.contains(v) && v != s[i]) by {
        if t.contains(v) {
            let j = choose|j: int| 0 <= j < t.len() && t[j] == v;
            if j == i {
                assert(v == s[s.len() - 1]);
                assert(s.contains(v));
            } else {
                assert(v == s[j]);
                assert(s.contains(v));
            }
        }
        if s.contains(v) && v != s[i] {
            let j = choose|j: int| 0 <= j < s.len() && s[j] == v;
            if j == s.len() - 1 {
                assert(i < s.len() - 1);
                assert(t[i] == v);
            } else {
                assert(t[j] == v);
            }
        }
    }
    assert forall|j1: int, j2: int|
        0 <= j1 < t.len() && 0 <= j2 < t.len() && j1 != j2 implies t[j1] != t[j2] by {
        let k1 = if j1 == i { s.len() - 1 } else { j1 };
        let k2 = if j2 == i { s.len() - 1 } else { j2 };
        assert(t[j1] == s[k1]);
        assert(t[j2] == s[k2]);
        assert(k1 != k2);
    }
}

/// Every cell that can take part in the search: an endpoint of some edge,
/// or the start itself. The search settles each at most once, which bounds
/// the number of rounds.
spec fn search_cells(m: Maze, s: Coordinate) -> Set<Coordinate> {
    m.edges@.map_values(|pr: (Coordinate, Coordinate)| pr.0).to_set().union(
        m.edges@.map_values(|pr: (Coordinate, Coordinate)| pr.1).to_set(),
    ).insert(s)
}

proof fn lemma_search_cells_finite(m: Maze, s: Coordinate)
    ensures
        search_cells(m, s).finite(),
{
    broadcast use vstd::seq_lib::seq_to_set_is_finite;

}

proof fn lemma_edge_cells(m: Maze, s: Coordinate, a: Coordinate, b: Coordinate)
    requires
        m.has_edge(a, b),
    ensures
        search_cells(m, s).contains(a),
        search_cells(m, s).contains(b),
{
    let j = choose|j: int| 0 <= j < m.edges@.len() && m.edges@[j] == (a, b);
    let firsts = m.edges@.map_values(|pr: (Coordinate, Coordinate)| pr.0);
    let seconds = m.edges@.map_values(|pr: (Coordinate, Coordinate)| pr.1);
    assert(firsts[j] == a);
    assert(seconds[j] == b);
    assert(firsts.contains(a));
    assert(seconds.contains(b));
}

/// A duplicate-free sequence of search cells is no longer than the set of
/// all search cells.
proof fn lemma_settled_bound(m: Maze, s: Coordinate, settled: Seq<Coordinate>)
    requires
        settled.no_duplicates(),
        forall|v: Coordinate| #[trigger] settled.contains(v) ==> search_cells(m, s).contains(v),
    ensures
        settled.len() <= search_cells(m, s).len(),
{
    lemma_search_cells_finite(m, s);
    settled.unique_seq_to_set();
    assert(settled.to_set().subset_of(search_cells(m, s)));
    vstd::set_lib::lemma_len_subset(settled.to_set(), search_cells(m, s));
}

impl Maze {
    /// Best-first search from `start` to `end` over the recorded edges.
    ///
    /// Frontier cells are expanded in order of recorded cost plus Manhattan
    /// distance to the end; ties fall to the earliest frontier entry. The
    /// heuristic never overestimates the remaining steps when every edge is
    /// a unit step, so the first walk that reaches the end is then a
    /// shortest one (see `solve_post`).
    #[verifier::rlimit(100)]
    pub fn solve(&self) -> (r: Option<Vec<Coordinate>>)
        ensures
            solve_post(*self, opt_view(r)),
    {
        let s = match self.start {
            Some(c) => c,
            None => {
                return None;
            },
        };
        let e = match self.end {
            Some(c) => c,
            None => {
                return None;
            },
        };
        let mut frontier: Vec<Coordinate> = Vec::new();
        let mut settled: Vec<Coordinate> = Vec::new();
        let mut scores: Table<usize> = Table::new();
        let mut parents: Table<Coordinate> = Table::new();
        frontier.push(s);
        scores.insert(s, 0);
        proof {
            assert(connects(*self, seq![s], s, s));
            assert(frontier@ =~= seq![s]);
        }
        while frontier.len() > 0
            invariant
                self.start == Some(s),
                self.end == Some(e),
                frontier@.no_duplicates(),
                settled@.no_duplicates(),
                forall|v: Coordinate| #[trigger] frontier@.contains(v) ==> !settled@.contains(v),
                frontier@.contains(s) || settled@.contains(s),
                !settled@.contains(e),
                forall|v: Coordinate| #[trigger]
                    scores@.contains_key(v) <==> (frontier@.contains(v) || settled@.contains(v)),
                scores@.contains_key(s) && scores@[s] == 0,
                forall|v: Coordinate| #[trigger]
                    parents@.contains_key(v) <==> (scores@.contains_key(v) && v != s),
                forall|v: Coordinate| #[trigger]
                    parents@.contains_key(v) ==> scores@.contains_key(parents@[v])
                        && settled@.contains(parents@[v]) && self.has_edge(parents@[v], v)
                        && scores@[v] == scores@[parents@[v]] + 1,
                forall|v: Coordinate| #[trigger]
                    scores@.contains_key(v) ==> scores@[v] <= settled@.len(),
                forall|v: Coordinate| #[trigger]
                    scores@.contains_key(v) ==> exists|p: Seq<Coordinate>|
                        connects(*self, p, s, v) && p.len() == scores@[v] + 1,
                forall|v: Coordinate, w: Coordinate|
                    settled@.contains(v) && #[trigger] self.has_edge(v, w)
                        ==> scores@.contains_key(w),
                self.unit_edges() ==> (forall|v: Coordinate, w: Coordinate|
                    settled@.contains(v) && #[trigger] self.has_edge(v, w) ==> scores@[w]
                        <= scores@[v] + 1),
                self.unit_edges() ==> (forall|v: Coordinate, q: Seq<Coordinate>|
                    settled@.contains(v) && #[trigger] connects(*self, q, s, v) ==> q.len()
                        >= scores@[v] + 1),
                forall|v: Coordinate| #[trigger]
                    scores@.contains_key(v) ==> search_cells(*self, s).contains(v),
            decreases search_cells(*self, s).len() + 1 - settled@.len(),
        {
            // pick the frontier cell with the least cost-plus-heuristic
            let mut mi: usize = 0;
            let mut i: usize = 1;
            proof {
                assert forall|j: int| 0 <= j < frontier@.len() implies scores@.contains_key(
                    #[trigger] frontier@[j],
                ) by {
                    assert(frontier@.contains(frontier@[j]));
                }
            }
            let mut best: u128 = scores.get(frontier[0]).unwrap() as u128 + manhattan_dist(
                frontier[0],
                e,
            );
            while i < frontier.len()
                invariant
                    1 <= i <= frontier@.len(),
                    mi < i,
                    forall|j: int| 0 <= j < frontier@.len() ==> scores@.contains_key(
                        #[trigger] frontier@[j],
                    ),
                    best == scores@[frontier@[mi as int]] + manhattan(frontier@[mi as int], e),
                    forall|j: int|
                        0 <= j < i ==> best <= scores@[#[trigger] frontier@[j]] + manhattan(
                            frontier@[j],
                            e,
                        ),
                decreases frontier@.len() - i,
            {
                proof {
                    assert(frontier@.contains(frontier@[i as int]));
                }
                let fi: u128 = scores.get(frontier[i]).unwrap() as u128 + manhattan_dist(
                    frontier[i],
                    e,
                );
                if fi < best {
                    best = fi;
                    mi = i;
                }
                i += 1;
            }
            let u = frontier[mi];
            proof {
                assert(frontier@.contains(u));
                if self.unit_edges() {
                    assert forall|q: Seq<Coordinate>| #[trigger]
                        connects(*self, q, s, u) implies q.len() >= scores@[u] + 1 by {
                        assert forall|w: Coordinate| #[trigger]
                            frontier@.contains(w) implies scores@[u] + manhattan(u, e)
                            <= scores@[w] + manhattan(w, e) by {
                            let j = choose|j: int| 0 <= j < frontier@.len() && frontier@[j] == w;
                            assert(best <= scores@[frontier@[j]] + manhattan(frontier@[j], e));
                        }
                        lemma_pop_optimal(*self, s, e, frontier@, settled@, scores@, u, q);
                    }
                }
            }
            if u == e {
                let ghost rank = Map::<Coordinate, int>::new(
                    |c: Coordinate| scores@.contains_key(c),
                    |c: Coordinate| scores@[c] as int,
                );
                proof {
                    assert(parent_rank_ok(parents@, rank));
                }
                let path = reconstruct_path(&parents, e);
                proof {
                    lemma_parent_chain(*self, s, scores@, parents@, path@);
                    assert(path@[path@.len() - 1] == e);
                    assert(path@.len() == scores@[e] + 1);
                }
                return Some(path);
            }
            let ghost pre_frontier = frontier@;
            let _ = frontier.swap_remove(mi);
            proof {
                lemma_swap_remove_set(pre_frontier, mi as int);
            }
            let gu = scores.get(u).unwrap();
            let ghost pre_settled = settled@;
            settled.push(u);
            proof {
                lemma_push_set(pre_settled, u);
                assert(gu + 1 <= settled@.len());
                if self.unit_edges() {
                    assert forall|v: Coordinate, q: Seq<Coordinate>|
                        settled@.contains(v) && #[trigger] connects(*self, q, s, v) implies q.len()
                        >= scores@[v] + 1 by {
                        if !pre_settled.contains(v) {
                            assert(v == u);
                        }
                    }
                }
            }
            let nbrs = self.neighbors_of(u);
            proof {
                assert forall|j: int| 0 <= j < nbrs@.len() implies self.has_edge(
                    u,
                    #[trigger] nbrs@[j],
                ) by {
                    assert(nbrs@.contains(nbrs@[j]));
                }
            }
            let mut k: usize = 0;
            while k < nbrs.len()
                invariant
                    k <= nbrs@.len(),
                    gu + 1 <= settled.len(),
                    settled@.contains(u),
                    forall|j: int| 0 <= j < nbrs@.len() ==> self.has_edge(
                        u,
                        #[trigger] nbrs@[j],
                    ),
                    frontier@.no_duplicates(),
                    forall|v: Coordinate| #[trigger] frontier@.contains(v) ==> !settled@.contains(
                        v,
                    ),
                    frontier@.contains(s) || settled@.contains(s),
                    forall|v: Coordinate| #[trigger]
                        scores@.contains_key(v) <==> (frontier@.contains(v) || settled@.contains(
                            v,
                        )),
                    scores@.contains_key(s) && scores@[s] == 0,
                    scores@.contains_key(u) && scores@[u] == gu,
                    forall|v: Coordinate| #[trigger]
                        parents@.contains_key(v) <==> (scores@.contains_key(v) && v != s),
                    forall|v: Coordinate| #[trigger]
                        parents@.contains_key(v) ==> scores@.contains_key(parents@[v])
                            && settled@.contains(parents@[v]) && self.has_edge(parents@[v], v)
                            && scores@[v] == scores@[parents@[v]] + 1,
                    forall|v: Coordinate| #[trigger]
                        scores@.contains_key(v) ==> scores@[v] <= settled@.len(),
                    forall|v: Coordinate| #[trigger]
                        scores@.contains_key(v) ==> exists|p: Seq<Coordinate>|
                            connects(*self, p, s, v) && p.len() == scores@[v] + 1,
                    forall|v: Coordinate, w: Coordinate|
                        settled@.contains(v) && v != u && #[trigger] self.has_edge(v, w)
                            ==> scores@.contains_key(w),
                    forall|j: int|
                        0 <= j < k ==> scores@.contains_key(#[trigger] nbrs@[j]),
                    self.unit_edges() ==> (forall|v: Coordinate, w: Coordinate|
                        settled@.contains(v) && v != u && #[trigger] self.has_edge(v, w)
                            ==> scores@[w] <= scores@[v] + 1),
                    self.unit_edges() ==> (forall|j: int|
                        0 <= j < k ==> scores@[#[trigger] nbrs@[j]] <= gu + 1),
                    self.unit_edges() ==> (forall|v: Coordinate, q: Seq<Coordinate>|
                        settled@.contains(v) && #[trigger] connects(*self, q, s, v) ==> q.len()
                            >= scores@[v] + 1),
                    forall|v: Coordinate| #[trigger]
                        scores@.contains_key(v) ==> search_cells(*self, s).contains(v),
                decreases nbrs@.len() - k,
            {
                let w = nbrs[k];
                proof {
                    assert(nbrs@.contains(w));
                    assert(self.has_edge(u, w));
                }
                if contains_coord(&settled, w) {
                    proof {
                        if self.unit_edges() {
                            let pu = choose|p: Seq<Coordinate>|
                                connects(*self, p, s, u) && p.len() == scores@[u] + 1;
                            lemma_connects_extend(*self, pu, s, u, w);
                            assert(pu.push(w).len() >= scores@[w] + 1);
                        }
                    }
                } else {
                    let score = gu + 1;
                    let ghost pre_scores = scores@;
                    let ghost pre_parents = parents@;
                    let ghost pre_front2 = frontier@;
                    if !contains_coord(&frontier, w) {
                        frontier.push(w);
                        scores.insert(w, score);
                        parents.insert(w, u);
                        proof {
                            lemma_push_set(pre_front2, w);
                            assert(!pre_scores.contains_key(w));
                            assert(w != s);
                            let pu = choose|p: Seq<Coordinate>|
                                connects(*self, p, s, u) && p.len() == pre_scores[u] + 1;
                            lemma_connects_extend(*self, pu, s, u, w);
                            lemma_edge_cells(*self, s, u, w);
                            assert forall|v: Coordinate| #[trigger]
                                scores@.contains_key(v) implies exists|p: Seq<Coordinate>|
                                connects(*self, p, s, v) && p.len() == scores@[v] + 1 by {
                                if v == w {
                                    assert(connects(*self, pu.push(w), s, w) && pu.push(w).len()
                                        == scores@[w] + 1);
                                }
                            }
                            assert forall|v: Coordinate, w2: Coordinate|
                                settled@.contains(v) && v != u && #[trigger] self.has_edge(
                                    v,
                                    w2,
                                ) implies scores@.contains_key(w2) by {}
                        }
                    } else {
                        let cur = scores.get(w).unwrap();
                        if score < cur {
                            scores.insert(w, score);
                            parents.insert(w, u);
                            proof {
                                assert(w != s);
                                let pu = choose|p: Seq<Coordinate>|
                                    connects(*self, p, s, u) && p.len() == pre_scores[u] + 1;
                                lemma_connects_extend(*self, pu, s, u, w);
                                assert forall|v: Coordinate| #[trigger]
                                    scores@.contains_key(v) implies exists|p: Seq<Coordinate>|
                                    connects(*self, p, s, v) && p.len() == scores@[v] + 1 by {
                                    if v == w {
                                        assert(connects(*self, pu.push(w), s, w) && pu.push(
                                            w,
                                        ).len() == scores@[w] + 1);
                                    }
                                }
                            }
                        }
                    }
                }
                k += 1;
            }
            proof {
                assert forall|v: Coordinate, w: Coordinate|
                    settled@.contains(v) && #[trigger] self.has_edge(v, w)
                        implies scores@.contains_key(w) by {
                    if v == u {
                        assert(nbrs@.contains(w));
                        let j = choose|j: int| 0 <= j < nbrs@.len() && nbrs@[j] == w;
                    }
                }
                if self.unit_edges() {
                    assert forall|v: Coordinate, w: Coordinate|
                        settled@.contains(v) && #[trigger] self.has_edge(v, w) implies scores@[w]
                        <= scores@[v] + 1 by {
                        if v == u {
                            assert(nbrs@.contains(w));
                            let j = choose|j: int| 0 <= j < nbrs@.len() && nbrs@[j] == w;
                        }
                    }
                }
                assert forall|v: Coordinate| #[trigger]
                    settled@.contains(v) implies search_cells(*self, s).contains(v) by {
                    assert(scores@.contains_key(v));
                }
                lemma_settled_bound(*self, s, settled@);
            }
        }
        proof {
            assert(settled@.contains(s));
            if has_path(*self, s, e) {
                let q = choose|q: Seq<Coordinate>| connects(*self, q, s, e);
                assert forall|v: Coordinate, w: Coordinate|
                    settled@.contains(v) && #[trigger] self.has_edge(v, w)
                        implies settled@.contains(w) by {
                    assert(scores@.contains_key(w));
                }
                lemma_settled_path(*self, settled@, q);
            }
        }
        None
    }
}

/// Whether a cell occurs in a list of cells.
fn contains_coord(v: &Vec<Coordinate>, c: Coordinate) -> (r: bool)
    ensures
        r == v@.contains(c),
{
    let mut i: usize = 0;
    while i < v.len()
        invariant
            i <= v.len(),
            forall|j: int| 0 <= j < i ==> v@[j] != c,
        decreases v.len() - i,
    {
        if v[i] == c {
            proof {
                assert(v@[i as int] == c);
            }
            return true;
        }
        i += 1;
    }
    false
}

} // verus!
