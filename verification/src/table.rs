use vstd::prelude::*;

use crate::coord::Coordinate;

verus! {

/// The mathematical content of a list of key/value pairs: later pairs win.
pub open spec fn pairs_view<V>(s: Seq<(Coordinate, V)>) -> Map<Coordinate, V>
    decreases s.len(),
{
    if s.len() == 0 {
        Map::empty()
    } else {
        pairs_view(s.drop_last()).insert(s.last().0, s.last().1)
    }
}

/// Looking a key up ignores pairs, at the end of the list, whose key differs.
proof fn lemma_pairs_view_take<V>(s: Seq<(Coordinate, V)>, n: int, k: Coordinate)
    requires
        0 <= n <= s.len(),
        forall|i: int| n <= i < s.len() ==> (#[trigger] s[i]).0 != k,
    ensures
        pairs_view(s).contains_key(k) == pairs_view(s.take(n)).contains_key(k),
        pairs_view(s).contains_key(k) ==> pairs_view(s)[k] == pairs_view(s.take(n))[k],
    decreases s.len() - n,
{
    if n == s.len() {
        assert(s.take(n) =~= s);
    } else {
        lemma_pairs_view_take(s, n + 1, k);
        let t = s.take(n + 1);
        assert(t.drop_last() =~= s.take(n));
        assert(t.last() == s[n]);
    }
}

/// A mapping from coordinates to values, kept as a list of pairs.
///
/// `insert` appends, so the latest pair for a key is the binding; `get`
/// scans from the end.
pub struct Table<V> {
    pub pairs: Vec<(Coordinate, V)>,
}

impl<V: Copy> Table<V> {
    pub open spec fn view(self) -> Map<Coordinate, V> {
        pairs_view(self.pairs@)
    }

    pub fn new() -> (t: Table<V>)
        ensures
            t@ == Map::<Coordinate, V>::empty(),
    {
        Table { pairs: Vec::new() }
    }

    /// Binds `k` to `v`, replacing any earlier binding.
    pub fn insert(&mut self, k: Coordinate, v: V)
        ensures
            final(self)@ == old(self)@.insert(k, v),
    {
        self.pairs.push((k, v));
        proof {
            assert(self.pairs@.drop_last() =~= old(self).pairs@);
        }
    }

    /// The value bound to `k`, if any.
    pub fn get(&self, k: Coordinate) -> (r: Option<V>)
        ensures
            match r {
                Some(v) => self@.contains_key(k) && self@[k] == v,
                None => !self@.contains_key(k),
            },
    {
        let mut j: usize = self.pairs.len();
        while j > 0
            invariant
                j <= self.pairs.len(),
                forall|i: int| j <= i < self.pairs@.len() ==> (#[trigger] self.pairs@[i]).0 != k,
            decreases j,
        {
            j = j - 1;
            let pair = self.pairs[j];
            if pair.0 == k {
                proof {
                    lemma_pairs_view_take(self.pairs@, j + 1, k);
                    let t = self.pairs@.take(j + 1);
                    assert(t.drop_last() =~= self.pairs@.take(j as int));
                    assert(t.last() == self.pairs@[j as int]);
                }
                return Some(pair.1);
            }
        }
        proof {
            lemma_pairs_view_take(self.pairs@, 0, k);
            assert(self.pairs@.take(0) =~= Seq::<(Coordinate, V)>::empty());
        }
        None
    }

    /// Whether `k` has a binding.
    pub fn contains_key(&self, k: Coordinate) -> (r: bool)
        ensures
            r == self@.contains_key(k),
    {
        self.get(k).is_some()
    }
}

} // verus!
