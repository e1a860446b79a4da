use crate::action::{action_eq, Action};
use crate::matches::{Cursor, Matcher, Matches};
use crate::sets::{contains_state, insert_state};
use crate::state_machine::StateMachine;
use vstd::prelude::*;

verus! {

/// A transition of a deterministic automaton: source, label, target.
pub type DEdge = (usize, Action, usize);

/// A transition was refused because its source already has a label equal to it.
#[derive(Debug, Clone, Copy, PartialEq, Eq, Structural)]
pub enum DfaError {
    InvalidRelationship,
}

/// Whether `edges` already hold a label from `from` that equals `a`.
pub open spec fn conflicts(edges: Seq<DEdge>, from: usize, a: Action) -> bool {
    exists|i: int| 0 <= i < edges.len() && (#[trigger] edges[i]).0 == from && action_eq(edges[i].1, a)
}

/// Adds each of `list` in turn, stopping at the first conflict: the edges that
/// result, and whether every one was added.
pub open spec fn apply_edges(edges: Seq<DEdge>, list: Seq<DEdge>) -> (Seq<DEdge>, bool)
    decreases list.len(),
{
    if list.len() == 0 {
        (edges, true)
    } else if conflicts(edges, list[0].0, list[0].1) {
        (edges, false)
    } else {
        apply_edges(edges.push(list[0]), list.drop_first())
    }
}

/// The target of the first edge from `from` whose label equals `a`.
pub open spec fn lookup(edges: Seq<DEdge>, from: usize, a: Action) -> Option<usize>
    decreases edges.len(),
{
    if edges.len() == 0 {
        None
    } else if edges[0].0 == from && action_eq(edges[0].1, a) {
        Some(edges[0].2)
    } else {
        lookup(edges.drop_first(), from, a)
    }
}

/// No two labels from one state are equal, and every range is well formed.
pub open spec fn deterministic(edges: Seq<DEdge>) -> bool {
    &&& forall|i: int| 0 <= i < edges.len() ==> (#[trigger] edges[i]).1.well_formed()
    &&& forall|i: int, j: int|
        0 <= i < j < edges.len() && (#[trigger] edges[i]).0 == (#[trigger] edges[j]).0 ==> !action_eq(
            edges[i].1,
            edges[j].1,
        )
}

/// A deterministic automaton: at most one label equal to a given one per state.
#[derive(Debug)]
pub struct Dfa {
    start_state: usize,
    end_state: Vec<usize>,
    all_state: Vec<usize>,
    maped: Vec<DEdge>,
}

impl Dfa {
    pub closed spec fn start(&self) -> usize {
        self.start_state
    }

    pub closed spec fn ends(&self) -> Seq<usize> {
        self.end_state@
    }

    pub closed spec fn states(&self) -> Seq<usize> {
        self.all_state@
    }

    pub closed spec fn edges(&self) -> Seq<DEdge> {
        self.maped@
    }

    pub open spec fn wf(&self) -> bool {
        &&& self.ends().no_duplicates()
        &&& self.states().no_duplicates()
        &&& deterministic(self.edges())
    }

    pub open spec fn step(&self, from: usize, a: Action) -> Option<usize> {
        lookup(self.edges(), from, a)
    }

    /// One scan from `state` with the run `buf` so far over `rest`: a symbol with a
    /// transition extends the run; one without is skipped while the run is empty,
    /// and otherwise ends the scan, with the run if `state` accepts. Input that
    /// runs out yields nothing. Also gives the number of symbols consumed.
    pub open spec fn scan(&self, state: usize, buf: Seq<Action>, rest: Seq<Action>) -> (Option<Seq<Action>>, nat)
        decreases rest.len(),
    {
        if rest.len() == 0 {
            (None, 0)
        } else {
            match self.step(state, rest[0]) {
                Some(n) => {
                    let r = self.scan(n, buf.push(rest[0]), rest.drop_first());
                    (r.0, r.1 + 1)
                },
                None => if buf.len() == 0 {
                    let r = self.scan(state, buf, rest.drop_first());
                    (r.0, r.1 + 1)
                } else if self.ends().contains(state) {
                    (Some(buf), 1)
                } else {
                    (None, 1)
                },
            }
        }
    }

    /// Whether the run of `w` from `state` ends in an accepting state.
    pub open spec fn accepts_from(&self, state: usize, w: Seq<Action>) -> bool
        decreases w.len(),
    {
        if w.len() == 0 {
            self.ends().contains(state)
        } else {
            match self.step(state, w[0]) {
                Some(n) => self.accepts_from(n, w.drop_first()),
                None => false,
            }
        }
    }

    pub fn new(start_state: usize) -> (r: Self)
        ensures
            r.wf(),
            r.start() == start_state,
            r.ends() == Seq::<usize>::empty(),
            r.states() == Seq::<usize>::empty(),
            r.edges() == Seq::<DEdge>::empty(),
    {
        Dfa { start_state, end_state: Vec::new(), all_state: Vec::new(), maped: Vec::new() }
    }

    /// An empty automaton whose state lists reserve room in advance.
    pub fn with_capacity(start_state: usize, end_state_amount: usize, all_state_amount: usize) -> (r:
        Self)
        ensures
            r.wf(),
            r.start() == start_state,
            r.ends() == Seq::<usize>::empty(),
            r.states() == Seq::<usize>::empty(),
            r.edges() == Seq::<DEdge>::empty(),
    {
        Dfa {
            start_state,
            end_state: Vec::with_capacity(end_state_amount),
            all_state: Vec::with_capacity(all_state_amount),
            maped: Vec::new(),
        }
    }

    pub(crate) fn from_parts(start_state: usize, end_state: Vec<usize>, all_state: Vec<usize>, maped: Vec<DEdge>) -> (r: Self)
        ensures
            r.start() == start_state,
            r.ends() == end_state@,
            r.states() == all_state@,
            r.edges() == maped@,
    {
        Dfa { start_state, end_state, all_state, maped }
    }

    fn has_conflict(&self, from: usize, v: &Action) -> (r: bool)
        ensures
            r == conflicts(self.edges(), from, *v),
    {
        let mut i: usize = 0;
        while i < self.maped.len()
            invariant
                i <= self.maped@.len(),
                forall|k: int| 0 <= k < i ==> !((#[trigger] self.maped@[k]).0 == from && action_eq(self.maped@[k].1, *v)),
            decreases self.maped@.len() - i,
        {
            let e = self.maped[i];
            if e.0 == from && e.1.matches_action(v) {
                return true;
            }
            i += 1;
        }
        false
    }

    /// Adds the transition `from -v-> to`, unless `from` already has a label equal
    /// to `v`: then nothing changes and the call fails.
    pub fn add_edges(&mut self, from: usize, v: Action, to: usize) -> (r: Result<(), DfaError>)
        requires
            old(self).wf(),
            v.well_formed(),
        ensures
            final(self).wf(),
            final(self).start() == old(self).start(),
            final(self).ends() == old(self).ends(),
            final(self).states() == old(self).states(),
            r is Err <==> conflicts(old(self).edges(), from, v),
            r is Err ==> r == Err::<(), DfaError>(DfaError::InvalidRelationship) && final(self).edges()
                == old(self).edges(),
            r is Ok ==> final(self).edges() == old(self).edges().push((from, v, to)),
    {
        if self.has_conflict(from, &v) {
            Err(DfaError::InvalidRelationship)
        } else {
            self.maped.push((from, v, to));
            proof {
                let e = self.maped@;
                assert(self.edges() == e);
                assert forall|i: int, j: int|
                    0 <= i < j < e.len() && (#[trigger] e[i]).0 == (#[trigger] e[j]).0 implies !action_eq(e[i].1, e[j].1) by {
                    assert(e[i] == old(self).edges()[i]);
                    if j < e.len() - 1 {
                        assert(e[j] == old(self).edges()[j]);
                    } else {
                        assert(!(old(self).edges()[i].0 == from && action_eq(old(self).edges()[i].1, v)));
                        if action_eq(e[i].1, e[j].1) {
                            assert(action_eq(e[i].1, v));
                        }
                    }
                }
                assert forall|i: int| 0 <= i < e.len() implies (#[trigger] e[i]).1.well_formed() by {
                    if i < e.len() - 1 {
                        assert(e[i] == old(self).edges()[i]);
                    }
                }
                assert(self.ends() == old(self).ends());
                assert(self.states() == old(self).states());
            }
            Ok(())
        }
    }

    /// Adds `from -a-> to` for each `a` of `v` in order, stopping at the first conflict.
    pub fn add_pattern(&mut self, from: usize, v: &[Action], to: usize) -> (r: Result<(), DfaError>)
        requires
            old(self).wf(),
            forall|i: int| 0 <= i < v@.len() ==> (#[trigger] v@[i]).well_formed(),
        ensures
            final(self).wf(),
            final(self).start() == old(self).start(),
            final(self).ends() == old(self).ends(),
            final(self).states() == old(self).states(),
            final(self).edges() == apply_edges(old(self).edges(), v@.map_values(|a: Action| (from, a, to))).0,
            r is Ok == apply_edges(old(self).edges(), v@.map_values(|a: Action| (from, a, to))).1,
            r is Err ==> r == Err::<(), DfaError>(DfaError::InvalidRelationship),
    {
        let ghost list = v@.map_values(|a: Action| (from, a, to));
        let mut i: usize = 0;
        proof {
            assert(list.subrange(0, list.len() as int) =~= list);
        }
        while i < v.len()
            invariant
                self.wf(),
                i <= v@.len(),
                list == v@.map_values(|a: Action| (from, a, to)),
                forall|k: int| 0 <= k < v@.len() ==> (#[trigger] v@[k]).well_formed(),
                self.start() == old(self).start(),
                self.ends() == old(self).ends(),
                self.states() == old(self).states(),
                apply_edges(old(self).edges(), list) == apply_edges(self.edges(), list.subrange(i as int, list.len() as int)),
            decreases v@.len() - i,
        {
            let ghost sub = list.subrange(i as int, list.len() as int);
            proof {
                assert(sub[0] == (from, v@[i as int], to));
                assert(sub.drop_first() =~= list.subrange(i + 1, list.len() as int));
            }
            let r = self.add_edges(from, v[i], to);
            if r.is_err() {
                return r;
            }
            i += 1;
        }
        proof {
            assert(list.subrange(i as int, list.len() as int) =~= Seq::<DEdge>::empty());
        }
        Ok(())
    }

    /// Builds an automaton with start state 0 from `list`, adding each edge in
    /// turn; fails at the first edge that conflicts with one before it.
    pub fn from_edges(list: Vec<DEdge>) -> (r: Result<Dfa, DfaError>)
        requires
            forall|i: int| 0 <= i < list@.len() ==> (#[trigger] list@[i]).1.well_formed(),
        ensures
            r is Ok == apply_edges(Seq::empty(), list@).1,
            r is Ok ==> {
                let d = r->Ok_0;
                &&& d.wf()
                &&& d.start() == 0
                &&& d.ends() == Seq::<usize>::empty()
                &&& d.edges() == apply_edges(Seq::empty(), list@).0
            },
            r is Err ==> r == Err::<Dfa, DfaError>(DfaError::InvalidRelationship),
    {
        let mut dfa = Dfa::new(0);
        let mut i: usize = 0;
        proof {
            assert(list@.subrange(0, list@.len() as int) =~= list@);
        }
        while i < list.len()
            invariant
                dfa.wf(),
                i <= list@.len(),
                forall|k: int| 0 <= k < list@.len() ==> (#[trigger] list@[k]).1.well_formed(),
                dfa.start() == 0,
                dfa.ends() == Seq::<usize>::empty(),
                apply_edges(Seq::empty(), list@) == apply_edges(dfa.edges(), list@.subrange(i as int, list@.len() as int)),
            decreases list@.len() - i,
        {
            let ghost sub = list@.subrange(i as int, list@.len() as int);
            proof {
                assert(sub[0] == list@[i as int]);
                assert(sub.drop_first() =~= list@.subrange(i + 1, list@.len() as int));
            }
            let e = list[i];
            if dfa.add_edges(e.0, e.1, e.2).is_err() {
                return Err(DfaError::InvalidRelationship);
            }
            i += 1;
        }
        proof {
            assert(list@.subrange(i as int, list@.len() as int) =~= Seq::<DEdge>::empty());
        }
        Ok(dfa)
    }

    /// The runs found by repeated scans over `iter`.
    pub fn matches<'a>(&'a self, iter: Cursor) -> (r: Matches<'a, Dfa>)
        ensures
            r.matcher() == self,
            r.cursor() == iter,
    {
        Matches::new(self, iter)
    }

    /// Marks a state as accepting; says whether it was not already.
    pub fn add_end_state(&mut self, node: usize) -> (r: bool)
        requires
            old(self).wf(),
        ensures
            final(self).wf(),
            r == !old(self).ends().contains(node),
            final(self).ends() == (if r {
                old(self).ends().push(node)
            } else {
                old(self).ends()
            }),
            final(self).start() == old(self).start(),
            final(self).states() == old(self).states(),
            final(self).edges() == old(self).edges(),
    {
        let r = insert_state(&mut self.end_state, node);
        proof {
            assert(self.states() == old(self).states());
            assert(self.edges() == old(self).edges());
        }
        r
    }

    /// The number of states recorded.
    pub fn states_len(&self) -> (r: usize)
        ensures
            r == self.states().len(),
    {
        self.all_state.len()
    }

    /// The start state.
    pub fn start_of(&self) -> (r: usize)
        ensures
            r == self.start(),
    {
        self.start_state
    }

    /// Leaves the automaton as it is: no reduction of states is done.
    pub fn optimize(&mut self)
        ensures
            *final(self) == *old(self),
    {
    }

    fn lookup_exec(&self, from: usize, a: &Action) -> (r: Option<usize>)
        ensures
            r == self.step(from, *a),
    {
        let mut i: usize = 0;
        proof {
            assert(self.maped@.subrange(0, self.maped@.len() as int) =~= self.maped@);
        }
        while i < self.maped.len()
            invariant
                i <= self.maped@.len(),
                lookup(self.maped@, from, *a) == lookup(self.maped@.subrange(i as int, self.maped@.len() as int), from, *a),
            decreases self.maped@.len() - i,
        {
            let ghost sub = self.maped@.subrange(i as int, self.maped@.len() as int);
            proof {
                assert(sub.drop_first() =~= self.maped@.subrange(i + 1, self.maped@.len() as int));
            }
            let e = self.maped[i];
            if e.0 == from && e.1.matches_action(a) {
                return Some(e.2);
            }
            i += 1;
        }
        None
    }
}

/// No label of `list` conflicts with `edges`, and no two of `list` from one state
/// are equal.
pub open spec fn compatible(edges: Seq<DEdge>, list: Seq<DEdge>) -> bool {
    &&& forall|i: int| 0 <= i < list.len() ==> !conflicts(edges, (#[trigger] list[i]).0, list[i].1)
    &&& forall|i: int, j: int|
        0 <= i < list.len() && 0 <= j < list.len() && i != j && (#[trigger] list[i]).0 == (#[trigger] list[j]).0
            ==> !action_eq(list[i].1, list[j].1)
}

/// Edges that conflict neither with what is there nor with each other are all
/// accepted, each appended in turn.
pub proof fn lemma_apply_all(edges: Seq<DEdge>, list: Seq<DEdge>)
    requires
        compatible(edges, list),
    ensures
        apply_edges(edges, list) == (edges + list, true),
    decreases list.len(),
{
    if list.len() == 0 {
        assert(edges + list =~= edges);
    } else {
        let e2 = edges.push(list[0]);
        let rest = list.drop_first();
        assert(!conflicts(edges, list[0].0, list[0].1));
        assert forall|i: int| 0 <= i < rest.len() implies !conflicts(e2, (#[trigger] rest[i]).0, rest[i].1) by {
            assert(rest[i] == list[i + 1]);
            assert(!conflicts(edges, list[i + 1].0, list[i + 1].1));
            if conflicts(e2, rest[i].0, rest[i].1) {
                let q = choose|q: int| 0 <= q < e2.len() && (#[trigger] e2[q]).0 == rest[i].0 && action_eq(e2[q].1, rest[i].1);
                if q < edges.len() {
                    assert(edges[q] == e2[q]);
                } else {
                    assert(e2[q] == list[0]);
                    assert(list[0].0 == list[i + 1].0);
                }
            }
        }
        assert forall|i: int, j: int|
            0 <= i < rest.len() && 0 <= j < rest.len() && i != j && (#[trigger] rest[i]).0 == (#[trigger] rest[j]).0
                implies !action_eq(rest[i].1, rest[j].1) by {
            assert(rest[i] == list[i + 1]);
            assert(rest[j] == list[j + 1]);
        }
        lemma_apply_all(e2, rest);
        assert(e2 + rest =~= edges + list);
    }
}

/// Order does not matter: two orders of the same conflict-free additions are
/// both accepted in full and leave the same set of edges.
pub proof fn lemma_order_independent(edges: Seq<DEdge>, l1: Seq<DEdge>, l2: Seq<DEdge>)
    requires
        compatible(edges, l1),
        compatible(edges, l2),
        l1.to_set() == l2.to_set(),
    ensures
        apply_edges(edges, l1).1,
        apply_edges(edges, l2).1,
        apply_edges(edges, l1).0.to_set() == apply_edges(edges, l2).0.to_set(),
{
    lemma_apply_all(edges, l1);
    lemma_apply_all(edges, l2);
    assert forall|e: DEdge| (edges + l1).to_set().contains(e) == (edges + l2).to_set().contains(e) by {
        if (edges + l1).contains(e) {
            let q = choose|q: int| 0 <= q < (edges + l1).len() && (edges + l1)[q] == e;
            if q < edges.len() {
                assert((edges + l2)[q] == e);
            } else {
                assert(l1[q - edges.len()] == e);
                assert(l1.to_set().contains(e));
                assert(l2.contains(e));
                let p = choose|p: int| 0 <= p < l2.len() && l2[p] == e;
                assert((edges + l2)[edges.len() + p] == e);
            }
        }
        if (edges + l2).contains(e) {
            let q = choose|q: int| 0 <= q < (edges + l2).len() && (edges + l2)[q] == e;
            if q < edges.len() {
                assert((edges + l1)[q] == e);
            } else {
                assert(l2[q - edges.len()] == e);
                assert(l2.to_set().contains(e));
                assert(l1.contains(e));
                let p = choose|p: int| 0 <= p < l1.len() && l1[p] == e;
                assert((edges + l1)[edges.len() + p] == e);
            }
        }
    }
    assert((edges + l1).to_set() =~= (edges + l2).to_set());
}

/// Adding one more edge after a list is one more `add_edges` step: a chain of
/// calls leaves what `apply_edges` gives for the whole list.
pub proof fn lemma_apply_append(edges: Seq<DEdge>, list: Seq<DEdge>, x: DEdge)
    ensures
        apply_edges(edges, list.push(x)) == (if apply_edges(edges, list).1 {
            apply_edges(apply_edges(edges, list).0, seq![x])
        } else {
            apply_edges(edges, list)
        }),
    decreases list.len(),
{
    if list.len() == 0 {
        assert(list.push(x) =~= seq![x]);
    } else {
        let l2 = list.push(x);
        assert(l2[0] == list[0]);
        assert(l2.drop_first() =~= list.drop_first().push(x));
        if !conflicts(edges, list[0].0, list[0].1) {
            lemma_apply_append(edges.push(list[0]), list.drop_first(), x);
        }
    }
}

/// `lookup` finds a target exactly when some edge from `from` answers `a` and
/// leads there.
proof fn lemma_lookup_witness(edges: Seq<DEdge>, from: usize, a: Action)
    ensures
        lookup(edges, from, a) is Some ==> exists|q: int|
            0 <= q < edges.len() && (#[trigger] edges[q]).0 == from && action_eq(edges[q].1, a)
                && edges[q].2 == lookup(edges, from, a)->Some_0,
        lookup(edges, from, a) is None ==> forall|q: int|
            0 <= q < edges.len() ==> !((#[trigger] edges[q]).0 == from && action_eq(edges[q].1, a)),
    decreases edges.len(),
{
    if edges.len() > 0 {
        let rest = edges.drop_first();
        lemma_lookup_witness(rest, from, a);
        if !(edges[0].0 == from && action_eq(edges[0].1, a)) {
            if lookup(edges, from, a) is Some {
                let q = choose|q: int|
                    0 <= q < rest.len() && (#[trigger] rest[q]).0 == from && action_eq(rest[q].1, a)
                        && rest[q].2 == lookup(rest, from, a)->Some_0;
                assert(edges[q + 1] == rest[q]);
            } else {
                assert forall|q: int| 0 <= q < edges.len() implies !((#[trigger] edges[q]).0 == from
                    && action_eq(edges[q].1, a)) by {
                    if q > 0 {
                        assert(edges[q] == rest[q - 1]);
                    }
                }
            }
        }
    }
}

/// At most one edge from `from` answers `a`.
pub open spec fn one_answer(edges: Seq<DEdge>, from: usize, a: Action) -> bool {
    forall|p: int, q: int|
        0 <= p < edges.len() && 0 <= q < edges.len() && (#[trigger] edges[p]).0 == from && action_eq(
            edges[p].1,
            a,
        ) && (#[trigger] edges[q]).0 == from && action_eq(edges[q].1, a) ==> edges[p] == edges[q]
}

/// Order does not matter to lookups: after either order of the same
/// conflict-free additions, a probe from `from` finds the same target, where at
/// most one edge from `from` answers it (labels that overlap without being
/// equal are looked up first come, first served).
pub proof fn lemma_order_independent_lookup(
    edges: Seq<DEdge>,
    l1: Seq<DEdge>,
    l2: Seq<DEdge>,
    from: usize,
    a: Action,
)
    requires
        compatible(edges, l1),
        compatible(edges, l2),
        l1.to_set() == l2.to_set(),
        one_answer(edges + l1, from, a),
    ensures
        lookup(apply_edges(edges, l1).0, from, a) == lookup(apply_edges(edges, l2).0, from, a),
{
    lemma_order_independent(edges, l1, l2);
    lemma_apply_all(edges, l1);
    lemma_apply_all(edges, l2);
    let e1 = edges + l1;
    let e2 = edges + l2;
    lemma_lookup_witness(e1, from, a);
    lemma_lookup_witness(e2, from, a);
    if lookup(e1, from, a) is Some {
        let q = choose|q: int|
            0 <= q < e1.len() && (#[trigger] e1[q]).0 == from && action_eq(e1[q].1, a) && e1[q].2
                == lookup(e1, from, a)->Some_0;
        assert(e1.to_set().contains(e1[q]));
        assert(e2.contains(e1[q]));
        let p = choose|p: int| 0 <= p < e2.len() && e2[p] == e1[q];
        if lookup(e2, from, a) is Some {
            let p2 = choose|p2: int|
                0 <= p2 < e2.len() && (#[trigger] e2[p2]).0 == from && action_eq(e2[p2].1, a) && e2[p2].2
                    == lookup(e2, from, a)->Some_0;
            assert(e2.to_set().contains(e2[p2]));
            assert(e1.to_set().contains(e2[p2]));
            assert(e1.contains(e2[p2]));
            let q2 = choose|q2: int| 0 <= q2 < e1.len() && e1[q2] == e2[p2];
            assert(e1[q2] == e1[q]);
        } else {
            assert(!(e2[p].0 == from && action_eq(e2[p].1, a)));
        }
    } else if lookup(e2, from, a) is Some {
        let p2 = choose|p2: int|
            0 <= p2 < e2.len() && (#[trigger] e2[p2]).0 == from && action_eq(e2[p2].1, a) && e2[p2].2
                == lookup(e2, from, a)->Some_0;
        assert(e2.to_set().contains(e2[p2]));
        assert(e1.contains(e2[p2]));
        let q2 = choose|q2: int| 0 <= q2 < e1.len() && e1[q2] == e2[p2];
        assert(!(e1[q2].0 == from && action_eq(e1[q2].1, a)));
    }
}

/// A well-formed automaton has, from each state, labels that are pairwise unequal.
pub proof fn lemma_deterministic(dfa: Dfa, i: int, j: int)
    requires
        dfa.wf(),
        0 <= i < dfa.edges().len(),
        0 <= j < dfa.edges().len(),
        i != j,
        dfa.edges()[i].0 == dfa.edges()[j].0,
    ensures
        !action_eq(dfa.edges()[i].1, dfa.edges()[j].1),
{
    if i < j {
        assert(!action_eq(dfa.edges()[i].1, dfa.edges()[j].1));
    } else {
        assert(!action_eq(dfa.edges()[j].1, dfa.edges()[i].1));
    }
}

impl StateMachine for Dfa {
    type State = usize;
    type V = Action;
    type NextState = usize;

    open spec fn accepting(&self, state: usize) -> bool {
        self.ends().contains(state)
    }

    open spec fn next_spec(&self, from: usize, path: Action, r: Option<usize>) -> bool {
        r == self.step(from, path)
    }

    open spec fn valid(&self) -> bool {
        self.wf()
    }

    fn is_end(&self, state: &usize) -> (r: bool) {
        contains_state(&self.end_state, *state)
    }

    fn next_state(&self, from: &usize, path: &Action) -> (r: Option<usize>) {
        self.lookup_exec(*from, path)
    }
}

impl Matcher for Dfa {
    open spec fn ready(&self) -> bool {
        self.wf()
    }

    open spec fn scan_spec(&self, input: Seq<Action>) -> (Option<Seq<Action>>, nat) {
        self.scan(self.start(), Seq::empty(), input)
    }

    fn match_next(&self, iter: &mut Cursor) -> (r: Option<Vec<Action>>) {
        let ghost start_pos = iter.pos();
        let ghost goal = self.scan(self.start(), Seq::empty(), iter.rest());
        let mut state = self.start_state;
        let mut result: Vec<Action> = Vec::new();
        while iter.remaining() > 0
            invariant
                iter.wf(),
                self.wf(),
                iter.items() == old(iter).items(),
                start_pos <= iter.pos(),
                start_pos == old(iter).pos(),
                goal == self.scan(self.start(), Seq::empty(), old(iter).rest()),
                goal.0 == self.scan(state, result@, iter.rest()).0,
                goal.1 == (iter.pos() - start_pos) + self.scan(state, result@, iter.rest()).1,
            decreases iter.rest().len(),
        {
            let ghost rest = iter.rest();
            let a = iter.next_item().unwrap();
            proof {
                assert(rest[0] == a);
                assert(iter.rest() == rest.drop_first());
            }
            match self.next_state(&state, &a) {
                Some(next_state) => {
                    proof {
                        assert(self.scan(state, result@, rest) == (
                            self.scan(next_state, result@.push(a), rest.drop_first()).0,
                            self.scan(next_state, result@.push(a), rest.drop_first()).1 + 1,
                        ));
                    }
                    result.push(a);
                    state = next_state;
                },
                None => {
                    proof {
                        if result@.len() == 0 {
                            assert(self.scan(state, result@, rest) == (
                                self.scan(state, result@, rest.drop_first()).0,
                                self.scan(state, result@, rest.drop_first()).1 + 1,
                            ));
                        } else {
                            assert(self.scan(state, result@, rest) == (if self.ends().contains(state) {
                                Some(result@)
                            } else {
                                None
                            }, 1nat));
                        }
                    }
                    if result.len() != 0 {
                        return if self.is_end(&state) {
                            Some(result)
                        } else {
                            None
                        };
                    }
                },
            }
        }
        None
    }

    fn check(&self, iter: &mut Cursor) -> (r: bool) {
        self.match_next(iter).is_some()
    }
}

} // verus!
