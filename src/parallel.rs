use crate::graph::{
    derivable, derivable_within, is_derivation, lemma_successor_derivable, lemma_successor_within,
    lemma_unvisited_len, lemma_unvisited_members,
    next_count, push_unvisited, unvisited, views, Graph, GraphControl, Outcome,
};
use vstd::multiset::Multiset;
use vstd::prelude::*;

verus! {

broadcast use vstd::multiset::group_multiset_axioms, vstd::multiset::group_multiset_properties;

/// What a worker of the parallel search does next.
pub enum Task<N> {
    /// Check this node, then hand back its report.
    Work(N),
    /// Nothing to claim now, but work is still under way: poll again.
    Wait,
    /// The search has ended: exit.
    Stop,
}

/// What a worker found on one node: the node as its goal check left it, the
/// verdict, and the successors where the check continues.
pub struct Report<G: Graph> {
    node: G::Node,
    control: GraphControl,
    neighbours: Vec<G::Node>,
    source: Ghost<<G::Node as View>::V>,
}

impl<G: Graph> Report<G> {
    /// The node that was checked, as it was claimed.
    pub closed spec fn source(&self) -> <G::Node as View>::V {
        self.source@
    }

    /// The node as its goal check left it.
    pub closed spec fn checked(&self) -> <G::Node as View>::V {
        self.node@
    }

    /// The verdict of the goal check.
    pub closed spec fn control(&self) -> GraphControl {
        self.control
    }

    /// The successors to push, in order.
    pub closed spec fn successors(&self) -> Seq<<G::Node as View>::V> {
        views(self.neighbours@)
    }

    /// The report is what checking its source on `g` gives.
    pub open spec fn is_report_of(&self, g: G) -> bool {
        &&& (self.checked(), self.control()) == g.check(self.source())
        &&& self.successors() == if self.control() == GraphControl::Continue {
            g.successors(self.checked())
        } else {
            Seq::empty()
        }
    }

    /// The number of successors in the report.
    pub fn neighbour_count(&self) -> (r: usize)
        ensures
            r == self.successors().len(),
    {
        self.neighbours.len()
    }
}

/// The work that a worker does on a claimed node, outside any lock: the goal
/// check, and the successors where the check continues.
pub fn expand<G: Graph>(graph: &G, node: G::Node) -> (r: Report<G>)
    requires
        graph.valid(node@),
    ensures
        r.source() == node@,
        r.is_report_of(*graph),
{
    let ghost source = node@;
    proof {
        graph.lemma_progress(source);
    }
    let mut node = node;
    let control = graph.check_goal(&mut node);
    let neighbours = match control {
        GraphControl::Continue => graph.neighbours(&node),
        _ => Vec::new(),
    };
    let r = Report { node, control, neighbours, source: Ghost(source) };
    assert(r.successors() =~= if control == GraphControl::Continue {
        graph.successors(node@)
    } else {
        Seq::empty()
    });
    r
}

/// The state that the workers of a parallel search share: the frontier, the
/// visited set, the count of outstanding work (frontier nodes plus nodes being
/// checked), the iteration count, and the completion slot.
pub struct SharedSearch<G: Graph> {
    frontier: Vec<G::Node>,
    visited: Vec<G::Node>,
    outstanding: usize,
    iterations: usize,
    outcome: Option<Result<(G::Node, usize), (String, usize)>>,
    graph: Ghost<G>,
    start: Ghost<<G::Node as View>::V>,
    in_flight: Ghost<Multiset<<G::Node as View>::V>>,
}

/// How an outcome of the engine reads as an `Outcome`.
pub open spec fn outcome_view<N: View>(r: Result<(N, usize), (String, usize)>) -> Outcome<N::V> {
    match r {
        Ok((n, k)) => Outcome::Found(n@, k as nat),
        Err((_, k)) => Outcome::Exhausted(k as nat),
    }
}

impl<G: Graph> SharedSearch<G> {
    /// The graph searched.
    pub closed spec fn graph(&self) -> G {
        self.graph@
    }

    /// The node the search started from.
    pub closed spec fn start(&self) -> <G::Node as View>::V {
        self.start@
    }

    /// The nodes waiting to be claimed; the last is claimed first.
    pub closed spec fn frontier(&self) -> Seq<<G::Node as View>::V> {
        views(self.frontier@)
    }

    /// The nodes whose goal checks have completed.
    pub closed spec fn visited(&self) -> Seq<<G::Node as View>::V> {
        views(self.visited@)
    }

    /// The claimed nodes whose reports have not come back yet.
    pub closed spec fn in_flight(&self) -> Multiset<<G::Node as View>::V> {
        self.in_flight@
    }

    /// The outstanding work counter.
    pub closed spec fn outstanding(&self) -> nat {
        self.outstanding as nat
    }

    /// The number of nodes claimed so far.
    pub closed spec fn iterations(&self) -> nat {
        self.iterations as nat
    }

    /// What the completion slot holds.
    pub closed spec fn result(&self) -> Option<Outcome<<G::Node as View>::V>> {
        match self.outcome {
            Some(r) => Some(outcome_view(r)),
            None => None,
        }
    }

    /// The exhaustion message is the fixed one.
    pub closed spec fn message_ok(&self) -> bool {
        self.outcome matches Some(Err((m, _))) ==> m@ == "No solution found :C"@
    }

    /// The invariant of the shared state. The counter is the number of frontier
    /// nodes plus the nodes in flight. Every such node is valid and derivable
    /// from the start. Exhaustion stands in the slot only while no work is left
    /// anywhere; a solution there is what a `Finish` check made of a derivable
    /// node, after at least one goal check.
    pub open spec fn inv(&self) -> bool {
        &&& self.outstanding() == self.frontier().len() + self.in_flight().len()
        &&& forall|i: int|
            0 <= i < self.frontier().len() ==> self.graph().valid(#[trigger] self.frontier()[i])
                && derivable(self.graph(), self.start(), self.frontier()[i])
        &&& forall|v: <G::Node as View>::V|
            #[trigger] self.in_flight().count(v) > 0 ==> self.graph().valid(v) && derivable(
                self.graph(),
                self.start(),
                v,
            )
        &&& self.result() matches Some(Outcome::Exhausted(_)) ==> self.frontier().len() == 0
            && self.in_flight().len() == 0
        &&& self.result() matches Some(Outcome::Found(n, k)) ==> k >= 1 && exists|
            path: Seq<<G::Node as View>::V>,
        |
            is_derivation(self.graph(), self.start(), path) && self.graph().check(path.last()) == (
                n,
                GraphControl::Finish,
            )
        &&& self.in_flight().len() > 0 ==> self.iterations() >= 1
        &&& self.message_ok()
        &&& self.iterations() < usize::MAX ==> self.depth_bounded()
    }

    /// While the iteration count has not saturated: every frontier node has a
    /// derivation of at most one node more than the count, every node in flight
    /// one of at most the count, and a solution in the slot one of at most its
    /// count.
    pub open spec fn depth_bounded(&self) -> bool {
        &&& forall|i: int|
            0 <= i < self.frontier().len() ==> derivable_within(
                self.graph(),
                self.start(),
                #[trigger] self.frontier()[i],
                self.iterations() + 1,
            )
        &&& forall|v: <G::Node as View>::V|
            #[trigger] self.in_flight().count(v) > 0 ==> derivable_within(
                self.graph(),
                self.start(),
                v,
                self.iterations(),
            )
        &&& self.result() matches Some(Outcome::Found(n, k)) ==> exists|
            path: Seq<<G::Node as View>::V>,
        |
            is_derivation(self.graph(), self.start(), path) && self.graph().check(path.last()) == (
                n,
                GraphControl::Finish,
            ) && path.len() <= k
    }

    /// A search whose frontier holds `start` alone, counted as outstanding work.
    pub fn new(graph: &G, start: G::Node) -> (r: Self)
        requires
            graph.valid(start@),
        ensures
            r.inv(),
            r.graph() == *graph,
            r.start() == start@,
            r.frontier() == seq![start@],
            r.visited() == Seq::<<G::Node as View>::V>::empty(),
            r.in_flight() == Multiset::<<G::Node as View>::V>::empty(),
            r.outstanding() == 1,
            r.iterations() == 0,
            r.result() is None,
    {
        let ghost s = start@;
        let mut frontier: Vec<G::Node> = Vec::new();
        frontier.push(start);
        let r = SharedSearch {
            frontier,
            visited: Vec::new(),
            outstanding: 1,
            iterations: 0,
            outcome: None,
            graph: Ghost(*graph),
            start: Ghost(s),
            in_flight: Ghost(Multiset::empty()),
        };
        assert(r.frontier() =~= seq![s]);
        assert(r.visited() =~= Seq::<<G::Node as View>::V>::empty());
        let ghost path = seq![s];
        assert(is_derivation(*graph, s, path) && path.last() == s);
        r
    }

    /// Whether the completion slot has been written.
    pub fn is_finished(&self) -> (r: bool)
        ensures
            r == self.result() is Some,
    {
        self.outcome.is_some()
    }

    /// The outstanding work counter.
    pub fn outstanding_count(&self) -> (r: usize)
        ensures
            r == self.outstanding(),
    {
        self.outstanding
    }

    /// Decides what a polling worker does. Once the slot is written: stop. Else
    /// it claims the top of the frontier, which counts as one more goal check
    /// and stays outstanding while in flight. With the frontier empty it
    /// declares exhaustion only when the counter is zero, and otherwise waits.
    pub fn claim(&mut self) -> (r: Task<G::Node>)
        requires
            old(self).inv(),
        ensures
            final(self).inv(),
            final(self).graph() == old(self).graph(),
            final(self).start() == old(self).start(),
            final(self).visited() == old(self).visited(),
            final(self).outstanding() == old(self).outstanding(),
            old(self).result() is Some ==> r is Stop && *final(self) == *old(self),
            old(self).result() is None && old(self).frontier().len() > 0 ==> {
                &&& r matches Task::Work(n) && n@ == old(self).frontier().last()
                    && final(self).in_flight() == old(self).in_flight().insert(n@)
                &&& final(self).frontier() == old(self).frontier().drop_last()
                &&& final(self).iterations() == next_count(old(self).iterations())
                &&& final(self).result() is None
            },
            old(self).result() is None && old(self).frontier().len() == 0 && old(self).outstanding()
                == 0 ==> {
                &&& r is Stop
                &&& final(self).result() == Some(
                    Outcome::<<G::Node as View>::V>::Exhausted(old(self).iterations()),
                )
                &&& final(self).in_flight() == old(self).in_flight()
                &&& final(self).frontier() == old(self).frontier()
                &&& final(self).iterations() == old(self).iterations()
            },
            old(self).result() is None && old(self).frontier().len() == 0 && old(self).outstanding()
                > 0 ==> r is Wait && *final(self) == *old(self),
    {
        if self.outcome.is_some() {
            return Task::Stop;
        }
        if self.frontier.len() == 0 {
            if self.outstanding == 0 {
                self.outcome = Some(Err(("No solution found :C".to_owned(), self.iterations)));
                return Task::Stop;
            } else {
                return Task::Wait;
            }
        }
        let ghost before = self.frontier@;
        let node = self.frontier.pop().unwrap();
        if self.iterations < usize::MAX {
            self.iterations = self.iterations + 1;
        }
        proof {
            assert(views(before)[before.len() - 1] == node@);
            assert(self.frontier() =~= views(before).drop_last());
            assert(forall|i: int|
                0 <= i < self.frontier().len() ==> self.frontier()[i] == views(before)[i]);
            assert(views(before).len() > 0);
            assert(self.graph().valid(views(before)[before.len() - 1]));
            self.in_flight@ = self.in_flight@.insert(node@);
        }
        Task::Work(node)
    }

    /// Takes back the report on a node in flight. On `Finish` the first report
    /// to arrive fills the slot with its node and the iteration count; later
    /// ones are dropped. On `Continue` the successors that are not visited are
    /// pushed, each counted as outstanding. The node then leaves the in-flight
    /// set, its unit of work is taken off the counter, and the checked node
    /// joins the visited set.
    pub fn complete(&mut self, report: Report<G>)
        requires
            old(self).inv(),
            report.is_report_of(old(self).graph()),
            old(self).in_flight().count(report.source()) > 0,
            old(self).outstanding() + report.successors().len() <= usize::MAX,
        ensures
            final(self).inv(),
            final(self).graph() == old(self).graph(),
            final(self).start() == old(self).start(),
            final(self).iterations() == old(self).iterations(),
            final(self).in_flight() == old(self).in_flight().remove(report.source()),
            final(self).visited() == if report.control() == GraphControl::Finish {
                old(self).visited()
            } else {
                old(self).visited().push(report.checked())
            },
            final(self).frontier() == old(self).frontier() + unvisited(
                report.successors(),
                old(self).visited(),
            ),
            final(self).result() == if old(self).result() is None && report.control()
                == GraphControl::Finish {
                Some(Outcome::Found(report.checked(), old(self).iterations()))
            } else {
                old(self).result()
            },
    {
        let ghost g = self.graph@;
        let ghost v = report.source@;
        let ghost seen = self.visited();
        let ghost old_frontier = self.frontier();
        let ghost succ = report.successors();
        let Report { node, control, neighbours, source: _ } = report;
        proof {
            g.lemma_progress(v);
            assert(self.in_flight().count(v) > 0);
            assert(self.outstanding > 0);
        }
        let ghost neighbours_view = neighbours@;
        let pushed_before = self.frontier.len();
        push_unvisited::<G>(&mut self.frontier, &self.visited, neighbours);
        proof {
            lemma_unvisited_len(succ, seen);
            assert(views(neighbours_view) == succ);
            assert(self.frontier() == old_frontier + unvisited(succ, seen));
            assert(self.frontier@.len() == self.frontier().len());
        }
        self.outstanding = self.outstanding + (self.frontier.len() - pushed_before);
        self.outstanding = self.outstanding - 1;
        if let GraphControl::Finish = control {
            if self.outcome.is_none() {
                self.outcome = Some(Ok((node, self.iterations)));
            }
        } else {
            self.visited.push(node);
        }
        proof {
            self.in_flight@ = self.in_flight@.remove(v);
            assert(self.graph() == g);
            assert(self.start() == self.start@);
            lemma_unvisited_members(succ, seen);
            if control != GraphControl::Finish {
                assert(self.visited() =~= seen.push(report.checked()));
            }
            let u = unvisited(succ, seen);
            assert forall|i: int| 0 <= i < self.frontier().len() implies g.valid(
                #[trigger] self.frontier()[i],
            ) && derivable(g, self.start@, self.frontier()[i]) by {
                if i >= old_frontier.len() {
                    let w = u[i - old_frontier.len()];
                    assert(self.frontier()[i] == w);
                    assert(succ.contains(w));
                    let idx = choose|idx: int| 0 <= idx < succ.len() && succ[idx] == w;
                    assert(g.valid(succ[idx]));
                    lemma_successor_derivable(g, self.start@, v, w);
                } else {
                    assert(self.frontier()[i] == old_frontier[i]);
                }
            }
            assert forall|w: <G::Node as View>::V| #[trigger] self.in_flight().count(w) > 0 implies g.valid(w)
                && derivable(g, self.start@, w) by {
                assert(old(self).in_flight().count(w) > 0);
            }
            if self.iterations < usize::MAX {
                let it = self.iterations as nat;
                assert(derivable_within(g, self.start@, v, it));
                assert forall|i: int| 0 <= i < self.frontier().len() implies derivable_within(
                    g,
                    self.start@,
                    #[trigger] self.frontier()[i],
                    it + 1,
                ) by {
                    if i >= old_frontier.len() {
                        let w = u[i - old_frontier.len()];
                        assert(succ.contains(w));
                        lemma_successor_within(g, self.start@, v, w, it);
                    } else {
                        assert(self.frontier()[i] == old_frontier[i]);
                    }
                }
                assert forall|w: <G::Node as View>::V| #[trigger] self.in_flight().count(w)
                    > 0 implies derivable_within(g, self.start@, w, it) by {
                    assert(old(self).in_flight().count(w) > 0);
                }
                if old(self).result() is None && control == GraphControl::Finish {
                    let path = choose|path: Seq<<G::Node as View>::V>|
                        is_derivation(g, self.start@, path) && path.last() == v && path.len() <= it;
                    assert(g.check(path.last()) == (report.checked(), GraphControl::Finish));
                }
            }
            if old(self).result() is None && control == GraphControl::Finish {
                assert(old(self).in_flight().len() > 0);
                let path = choose|path: Seq<<G::Node as View>::V>|
                    is_derivation(g, self.start@, path) && path.last() == v;
                assert(g.check(path.last()) == (report.checked(), GraphControl::Finish));
            } else {
                assert(self.result() == old(self).result());
            }
        }
    }

    /// Ends the search and hands out what the completion slot holds.
    pub fn into_outcome(self) -> (r: Option<Result<(G::Node, usize), (String, usize)>>)
        requires
            self.inv(),
        ensures
            r matches Some(res) ==> Some(outcome_view(res)) == self.result(),
            r is None <==> self.result() is None,
            r matches Some(Err((m, _))) ==> m@ == "No solution found :C"@,
    {
        self.outcome
    }
}

/// What the completion slot of a parallel search says. A solution there is
/// what a goal check that said `Finish` made of a node derivable from the
/// start, after at least one goal check, and, while the count has not
/// saturated, after at least as many goal checks as some such derivation has
/// nodes. Exhaustion there means that no node waits and none is in flight.
pub proof fn lemma_parallel_outcome<G: Graph>(s: SharedSearch<G>)
    requires
        s.inv(),
    ensures
        s.result() matches Some(Outcome::Found(n, k)) ==> {
            &&& k >= 1
            &&& exists|path: Seq<<G::Node as View>::V>|
                is_derivation(s.graph(), s.start(), path) && s.graph().check(path.last()) == (
                    n,
                    GraphControl::Finish,
                )
            &&& s.iterations() < usize::MAX ==> exists|path: Seq<<G::Node as View>::V>|
                is_derivation(s.graph(), s.start(), path) && s.graph().check(path.last()) == (
                    n,
                    GraphControl::Finish,
                ) && path.len() <= k
        },
        s.result() is Some && s.result()->Some_0 is Exhausted ==> s.frontier().len() == 0
            && s.in_flight().len() == 0 && s.outstanding() == 0,
{
}

} // verus!
