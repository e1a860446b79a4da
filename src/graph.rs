use crate::sets::insert_state;
use vstd::prelude::*;

verus! {

/// A labelled multigraph: each (node, label) pair leads to a set of nodes.
pub struct Graph {
    map: Vec<(usize, char, usize)>,
}

impl Graph {
    /// The links held, as (node, label, destination).
    pub closed spec fn links(&self) -> Set<(usize, char, usize)> {
        self.map@.to_set()
    }

    /// An empty graph that reserves room for `edge_amount` links.
    pub fn with_capaticy(edge_amount: usize) -> (r: Self)
        ensures
            r.links() == Set::<(usize, char, usize)>::empty(),
    {
        let r = Graph { map: Vec::with_capacity(edge_amount) };
        proof {
            assert(r.links() =~= Set::<(usize, char, usize)>::empty());
        }
        r
    }

    pub fn new() -> (r: Self)
        ensures
            r.links() == Set::<(usize, char, usize)>::empty(),
    {
        let r = Graph { map: Vec::new() };
        proof {
            assert(r.links() =~= Set::<(usize, char, usize)>::empty());
        }
        r
    }

    /// Adds `to` to the destinations of `from`.
    pub fn add_edge(&mut self, from: (usize, char), to: usize)
        ensures
            final(self).links() == old(self).links().insert((from.0, from.1, to)),
    {
        let link = (from.0, from.1, to);
        let mut found = false;
        let mut i: usize = 0;
        while i < self.map.len()
            invariant
                i <= self.map@.len(),
                found == exists|k: int| 0 <= k < i && self.map@[k] == link,
            decreases self.map@.len() - i,
        {
            if self.map[i].0 == link.0 && self.map[i].1 == link.1 && self.map[i].2 == link.2 {
                found = true;
            }
            i += 1;
        }
        let ghost before = self.map@;
        if !found {
            self.map.push(link);
        }
        proof {
            assert forall|e: (usize, char, usize)| self.links().contains(e) == old(self).links().insert(link).contains(e) by {
                if e != link && self.map@.contains(e) {
                    let k = choose|k: int| 0 <= k < self.map@.len() && self.map@[k] == e;
                    assert(before[k] == e);
                }
                if before.contains(e) {
                    let k = choose|k: int| 0 <= k < before.len() && before[k] == e;
                    assert(self.map@[k] == e);
                }
                if e == link && !found {
                    assert(self.map@[before.len() as int] == e);
                }
            }
            assert(self.links() =~= old(self).links().insert(link));
        }
    }

    /// The destinations of `state` on `v`, or none where it has none.
    pub fn next_state(&self, state: usize, v: char) -> (r: Option<Vec<usize>>)
        ensures
            r is None <==> forall|t: usize| !self.links().contains((state, v, t)),
            r is Some ==> r->Some_0@.no_duplicates() && forall|t: usize|
                #[trigger] r->Some_0@.contains(t) <==> self.links().contains((state, v, t)),
    {
        let mut out: Vec<usize> = Vec::new();
        let mut i: usize = 0;
        while i < self.map.len()
            invariant
                i <= self.map@.len(),
                out@.no_duplicates(),
                forall|t: usize| #[trigger]
                    out@.contains(t) <==> exists|k: int| 0 <= k < i && self.map@[k] == (state, v, t),
            decreases self.map@.len() - i,
        {
            let e = self.map[i];
            let ghost before = out@;
            if e.0 == state && e.1 == v {
                insert_state(&mut out, e.2);
                proof {
                    if out@.len() > before.len() {
                        assert(out@[before.len() as int] == e.2);
                    }
                }
            }
            proof {
                assert forall|t: usize| #[trigger]
                    out@.contains(t) <==> exists|k: int| 0 <= k < i + 1 && self.map@[k] == (state, v, t) by {
                    if out@.contains(t) && !before.contains(t) {
                        assert(self.map@[i as int] == (state, v, t));
                    }
                    if exists|k: int| 0 <= k < i + 1 && self.map@[k] == (state, v, t) {
                        let k = choose|k: int| 0 <= k < i + 1 && self.map@[k] == (state, v, t);
                        if k < i {
                            assert(before.contains(t));
                            let j = choose|j: int| 0 <= j < before.len() && before[j] == t;
                            assert(out@[j] == t);
                        }
                    }
                }
            }
            i += 1;
        }
        proof {
            assert forall|t: usize| self.links().contains((state, v, t)) == out@.contains(t) by {
                if self.map@.contains((state, v, t)) {
                    let k = choose|k: int| 0 <= k < self.map@.len() && self.map@[k] == (state, v, t);
                }
            }
        }
        if out.len() == 0 {
            proof {
                assert forall|t: usize| !self.links().contains((state, v, t)) by {
                    if self.links().contains((state, v, t)) {
                        assert(out@.contains(t));
                    }
                }
            }
            None
        } else {
            proof {
                assert(out@.contains(out@[0]));
            }
            Some(out)
        }
    }
}

} // verus!
