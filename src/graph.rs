use std::hash::Hash;
use vstd::prelude::*;
use vstd::std_specs::cmp::PartialEqSpec;

verus! {

/// What a goal check says of a node.
#[derive(Debug, Clone, Copy, PartialEq, Eq, Structural)]
pub enum GraphControl {
    /// The node is a solution.
    Finish,
    /// The node has to be expanded further.
    Continue,
    /// The node is a dead end.
    Prune,
}

/// A search space, given by a goal check and a successor function over its nodes.
pub trait Graph: Sized {
    type Node: Clone + Eq + Hash + View;

    /// The nodes that this graph accepts.
    spec fn valid(&self, n: <Self::Node as View>::V) -> bool;

    /// What a goal check makes of node `n`: the node with its forced deductions
    /// made, and the verdict.
    spec fn check(&self, n: <Self::Node as View>::V) -> (<Self::Node as View>::V, GraphControl);

    /// The successors of a checked node, in the order in which they are pushed.
    spec fn successors(&self, n: <Self::Node as View>::V) -> Seq<<Self::Node as View>::V>;

    /// A measure that strictly falls from a node to each successor of its check.
    spec fn rank(&self, n: <Self::Node as View>::V) -> nat;

    /// A goal check keeps a node valid, and each successor of a node that it
    /// continues from is valid and of lower rank.
    proof fn lemma_progress(&self, n: <Self::Node as View>::V)
        requires
            self.valid(n),
        ensures
            self.valid(self.check(n).0),
            self.check(n).1 == GraphControl::Continue ==> forall|k: int|
                0 <= k < self.successors(self.check(n).0).len() ==> self.valid(
                    #[trigger] self.successors(self.check(n).0)[k],
                ) && self.rank(self.successors(self.check(n).0)[k]) < self.rank(n),
    ;

    /// Two nodes compare equal exactly when their views are equal.
    proof fn lemma_node_eq()
        ensures
            <Self::Node as PartialEqSpec>::obeys_eq_spec(),
            forall|a: Self::Node, b: Self::Node| #[trigger] a.eq_spec(&b) <==> a@ == b@,
    ;

    fn neighbours(&self, node: &Self::Node) -> (r: Vec<Self::Node>)
        requires
            self.valid(node@),
        ensures
            r@.map_values(|m: Self::Node| m@) == self.successors(node@),
    ;

    fn check_goal(&self, node: &mut Self::Node) -> (r: GraphControl)
        requires
            self.valid(old(node)@),
        ensures
            (final(node)@, r) == self.check(old(node)@),
    ;
}

/// The views of a sequence of nodes.
pub open spec fn views<N: View>(s: Seq<N>) -> Seq<N::V> {
    s.map_values(|n: N| n@)
}

/// The members of `nbrs` that are not in `visited`, in order.
pub open spec fn unvisited<V>(nbrs: Seq<V>, visited: Seq<V>) -> Seq<V>
    decreases nbrs.len(),
{
    if nbrs.len() == 0 {
        Seq::empty()
    } else {
        unvisited(nbrs.drop_last(), visited) + if visited.contains(nbrs.last()) {
            Seq::empty()
        } else {
            seq![nbrs.last()]
        }
    }
}

/// An iteration count after one more goal check; the count stops at the
/// largest `usize`.
pub open spec fn next_count(iterations: nat) -> nat {
    if iterations < usize::MAX {
        iterations + 1
    } else {
        iterations
    }
}

/// How a search ends: with a node whose goal check said `Finish`, or with
/// nothing left to explore; each with the number of goal checks made.
pub enum Outcome<V> {
    Found(V, nat),
    Exhausted(nat),
}

/// The depth-first search, run for at most `fuel` steps from the given stack
/// (top last), visited set and iteration count. `None` where the fuel runs out.
/// A step pops the top node and checks it; on `Continue` it pushes the
/// successors of the checked node that are not visited, in order; the checked
/// node then joins the visited set.
pub open spec fn run<G: Graph>(
    g: G,
    stack: Seq<<G::Node as View>::V>,
    visited: Seq<<G::Node as View>::V>,
    iterations: nat,
    fuel: nat,
) -> Option<Outcome<<G::Node as View>::V>>
    decreases fuel,
{
    if fuel == 0 {
        None
    } else if stack.len() == 0 {
        Some(Outcome::Exhausted(iterations))
    } else {
        let (m, c) = g.check(stack.last());
        let count = next_count(iterations);
        match c {
            GraphControl::Finish => Some(Outcome::Found(m, count)),
            GraphControl::Prune => run(g, stack.drop_last(), visited.push(m), count, (fuel - 1) as nat),
            GraphControl::Continue => run(
                g,
                stack.drop_last() + unvisited(g.successors(m), visited),
                visited.push(m),
                count,
                (fuel - 1) as nat,
            ),
        }
    }
}

/// Whether the depth-first search from `start` ends with `r`.
pub open spec fn search_ends<G: Graph>(
    g: G,
    start: <G::Node as View>::V,
    r: Outcome<<G::Node as View>::V>,
) -> bool {
    exists|fuel: nat| run(g, seq![start], Seq::empty(), 0, fuel) == Some(r)
}

/// The number of goal checks that a search from `n` makes at most: one for
/// `n`, and those below each successor when the check continues.
pub open spec fn tree_size<G: Graph>(g: G, n: <G::Node as View>::V) -> nat
    decreases g.rank(n), 1nat, 0nat,
{
    let (m, c) = g.check(n);
    if c == GraphControl::Continue {
        1 + forest_size(g, g.successors(m), g.rank(n))
    } else {
        1
    }
}

/// The sum of `tree_size` over the members of `s` of rank below `bound`.
pub open spec fn forest_size<G: Graph>(g: G, s: Seq<<G::Node as View>::V>, bound: nat) -> nat
    decreases bound, 0nat, s.len(),
{
    if s.len() == 0 {
        0
    } else {
        forest_size(g, s.drop_last(), bound) + if g.rank(s.last()) < bound {
            tree_size(g, s.last())
        } else {
            0
        }
    }
}

/// The sum of `tree_size` over the members of `s`.
pub open spec fn stack_size<G: Graph>(g: G, s: Seq<<G::Node as View>::V>) -> nat
    decreases s.len(),
{
    if s.len() == 0 {
        0
    } else {
        stack_size(g, s.drop_last()) + tree_size(g, s.last())
    }
}

proof fn lemma_stack_size_concat<G: Graph>(
    g: G,
    a: Seq<<G::Node as View>::V>,
    b: Seq<<G::Node as View>::V>,
)
    ensures
        stack_size(g, a + b) == stack_size(g, a) + stack_size(g, b),
    decreases b.len(),
{
    if b.len() == 0 {
        assert(a + b =~= a);
    } else {
        assert((a + b).drop_last() =~= a + b.drop_last());
        lemma_stack_size_concat(g, a, b.drop_last());
    }
}

proof fn lemma_unvisited_size<G: Graph>(
    g: G,
    nbrs: Seq<<G::Node as View>::V>,
    visited: Seq<<G::Node as View>::V>,
    bound: nat,
)
    requires
        forall|k: int| 0 <= k < nbrs.len() ==> g.rank(#[trigger] nbrs[k]) < bound,
    ensures
        stack_size(g, unvisited(nbrs, visited)) <= forest_size(g, nbrs, bound),
    decreases nbrs.len(),
{
    if nbrs.len() > 0 {
        let rest = nbrs.drop_last();
        assert(g.rank(nbrs[nbrs.len() - 1]) < bound);
        lemma_unvisited_size(g, rest, visited, bound);
        let tail = if visited.contains(nbrs.last()) {
            Seq::empty()
        } else {
            seq![nbrs.last()]
        };
        lemma_stack_size_concat(g, unvisited(rest, visited), tail);
        if !visited.contains(nbrs.last()) {
            let one = seq![nbrs.last()];
            assert(one.drop_last() =~= Seq::<<G::Node as View>::V>::empty());
            assert(one.last() == nbrs.last());
            assert(stack_size(g, Seq::<<G::Node as View>::V>::empty()) == 0);
            assert(stack_size(g, one) == tree_size(g, nbrs.last()));
        }
    }
}

pub(crate) proof fn lemma_unvisited_members<V>(nbrs: Seq<V>, visited: Seq<V>)
    ensures
        forall|k: int|
            0 <= k < unvisited(nbrs, visited).len() ==> nbrs.contains(
                #[trigger] unvisited(nbrs, visited)[k],
            ) && !visited.contains(unvisited(nbrs, visited)[k]),
    decreases nbrs.len(),
{
    if nbrs.len() > 0 {
        let rest = nbrs.drop_last();
        lemma_unvisited_members(rest, visited);
        let u = unvisited(nbrs, visited);
        let ur = unvisited(rest, visited);
        assert forall|k: int| 0 <= k < u.len() implies nbrs.contains(#[trigger] u[k])
            && !visited.contains(u[k]) by {
            if k < ur.len() {
                let w = ur[k];
                assert(rest.contains(w));
                let i = choose|i: int| 0 <= i < rest.len() && rest[i] == w;
                assert(nbrs[i] == w);
            } else {
                assert(nbrs[nbrs.len() - 1] == u[k]);
            }
        }
    }
}

fn is_visited<G: Graph>(visited: &Vec<G::Node>, n: &G::Node) -> (r: bool)
    ensures
        r == views(visited@).contains(n@),
{
    let mut k: usize = 0;
    while k < visited.len()
        invariant
            k <= visited@.len(),
            forall|m: int| 0 <= m < k ==> visited@[m]@ != n@,
        decreases visited@.len() - k,
    {
        proof {
            G::lemma_node_eq();
        }
        if visited[k] == *n {
            assert(views(visited@)[k as int] == n@);
            return true;
        }
        k = k + 1;
    }
    assert forall|m: int| 0 <= m < views(visited@).len() implies views(visited@)[m] != n@ by {
        assert(visited@[m]@ != n@);
    }
    false
}

/// Pushes the members of `nbrs` that are not in `visited` onto `queue`, in order.
pub(crate) fn push_unvisited<G: Graph>(queue: &mut Vec<G::Node>, visited: &Vec<G::Node>, nbrs: Vec<G::Node>)
    ensures
        views(final(queue)@) == views(old(queue)@) + unvisited(views(nbrs@), views(visited@)),
{
    let ghost succ = views(nbrs@);
    let ghost start = views(queue@);
    let ghost seen = views(visited@);
    let mut nbrs = nbrs;
    let ghost mut taken: int = 0;
    assert(succ.take(0) =~= Seq::empty());
    assert(start + unvisited(succ.take(0), seen) =~= start);
    assert(succ.skip(0) =~= succ);
    while nbrs.len() > 0
        invariant
            0 <= taken <= succ.len(),
            views(nbrs@) == succ.skip(taken),
            views(queue@) == start + unvisited(succ.take(taken), seen),
            views(visited@) == seen,
        decreases nbrs@.len(),
    {
        let ghost old_nbrs = nbrs@;
        assert(views(old_nbrs).len() == succ.len() - taken);
        let w = nbrs.remove(0);
        assert(views(old_nbrs)[0] == old_nbrs[0]@);
        assert(w@ == succ[taken]);
        assert forall|k: int| 0 <= k < views(nbrs@).len() implies views(nbrs@)[k] == succ.skip(
            taken + 1,
        )[k] by {
            assert(nbrs@[k] == old_nbrs[k + 1]);
            assert(views(old_nbrs)[k + 1] == old_nbrs[k + 1]@);
        }
        assert(views(nbrs@) =~= succ.skip(taken + 1));
        assert(succ.take(taken + 1).drop_last() =~= succ.take(taken));
        let ghost q0 = views(queue@);
        if !is_visited::<G>(visited, &w) {
            queue.push(w);
            assert(views(queue@) =~= q0.push(succ[taken]));
        }
        assert(views(queue@) =~= start + unvisited(succ.take(taken + 1), seen));
        proof {
            taken = taken + 1;
        }
    }
    assert(succ.take(taken) =~= succ);
}

/// Depth-first search from `start`, on an explicit stack. Returns the first
/// node whose goal check says `Finish`, as that check left it, with the number
/// of goal checks made; or, once the stack is empty, the number of goal checks
/// made.
pub fn dfs<G: Graph>(graph: G, start: G::Node) -> (r: Result<(G::Node, usize), (String, usize)>)
    requires
        graph.valid(start@),
    ensures
        r matches Ok((n, k)) ==> search_ends(graph, start@, Outcome::Found(n@, k as nat)),
        r matches Err((msg, k)) ==> search_ends(graph, start@, Outcome::Exhausted(k as nat))
            && msg@ == "No solution found :C"@,
{
    let mut iterations: usize = 0;
    let mut queue: Vec<G::Node> = Vec::new();
    let mut visited: Vec<G::Node> = Vec::new();
    queue.push(start);
    let ghost init = seq![start@];
    let ghost steps: nat = 0;
    assert(views(queue@) =~= init);
    assert(views(visited@) =~= Seq::empty());
    loop
        invariant
            init == seq![start@],
            forall|f: nat|
                #[trigger] run(graph, init, Seq::empty(), 0, f + steps) == run(
                    graph,
                    views(queue@),
                    views(visited@),
                    iterations as nat,
                    f,
                ),
            forall|k: int| 0 <= k < queue@.len() ==> graph.valid(#[trigger] queue@[k]@),
        decreases stack_size(graph, views(queue@)),
    {
        let ghost before = views(queue@);
        let ghost old_queue = queue@;
        let ghost seen = views(visited@);
        let ghost count = iterations as nat;
        match queue.pop() {
            None => {
                assert(before.len() == 0);
                assert(run(graph, init, Seq::empty(), 0, 1 + steps) == Some(
                    Outcome::<<G::Node as View>::V>::Exhausted(count),
                ));
                assert(search_ends(graph, start@, Outcome::Exhausted(count)));
                return Err(("No solution found :C".to_owned(), iterations));
            },
            Some(mut node) => {
                let ghost n0 = node@;
                let ghost rest = views(queue@);
                assert(rest =~= before.drop_last());
                assert(before.last() == n0);
                if iterations < usize::MAX {
                    iterations = iterations + 1;
                }
                proof {
                    graph.lemma_progress(n0);
                }
                let control = graph.check_goal(&mut node);
                let ghost m = node@;
                match control {
                    GraphControl::Finish => {
                        assert(run(graph, init, Seq::empty(), 0, 1 + steps) == Some(
                            Outcome::Found(m, iterations as nat),
                        ));
                        assert(search_ends(graph, start@, Outcome::Found(m, iterations as nat)));
                        return Ok((node, iterations));
                    },
                    GraphControl::Prune => {},
                    GraphControl::Continue => {
                        let nbrs = graph.neighbours(&node);
                        let ghost succ = graph.successors(m);
                        assert(views(nbrs@) =~= succ);
                        let ghost q1 = queue@;
                        assert(views(q1) =~= rest);
                        push_unvisited::<G>(&mut queue, &visited, nbrs);
                        proof {
                            lemma_unvisited_members(succ, seen);
                            let u = unvisited(succ, seen);
                            assert(views(visited@) == seen);
                            assert(views(queue@) == rest + u);
                            assert(views(queue@).len() == queue@.len());
                            assert forall|k: int| 0 <= k < queue@.len() implies graph.valid(
                                #[trigger] queue@[k]@,
                            ) by {
                                assert(views(queue@)[k] == queue@[k]@);
                                if k >= rest.len() {
                                    let w = u[k - rest.len()];
                                    assert(views(queue@)[k] == w);
                                    assert(succ.contains(w));
                                    let idx = choose|idx: int| 0 <= idx < succ.len() && succ[idx] == w;
                                    assert(graph.valid(succ[idx]));
                                } else {
                                    assert(views(queue@)[k] == rest[k]);
                                    assert(views(q1)[k] == q1[k]@);
                                }
                            }
                        }
                        proof {
                            lemma_stack_size_concat(graph, rest, unvisited(succ, seen));
                            lemma_unvisited_size(graph, succ, seen, graph.rank(n0));
                        }
                    },
                }
                visited.push(node);
                assert(views(visited@) =~= seen.push(m));
                assert forall|f: nat|
                    #[trigger] run(graph, init, Seq::empty(), 0, f + (steps + 1)) == run(
                        graph,
                        views(queue@),
                        views(visited@),
                        iterations as nat,
                        f,
                    ) by {
                    assert(f + (steps + 1) == (f + 1) + steps);
                }
                proof {
                    steps = steps + 1;
                }
            },
        }
    }
}

/// `path` leads from `start` through the graph: each node after the first is
/// a successor of the check of the node before it, and that check said
/// `Continue`.
pub open spec fn is_derivation<G: Graph>(
    g: G,
    start: <G::Node as View>::V,
    path: Seq<<G::Node as View>::V>,
) -> bool {
    &&& path.len() > 0
    &&& path[0] == start
    &&& forall|k: int|
        0 <= k < path.len() - 1 ==> g.check(#[trigger] path[k]).1 == GraphControl::Continue
            && g.successors(g.check(path[k]).0).contains(path[k + 1])
}

/// Some derivation from `start` ends at `n`.
pub open spec fn derivable<G: Graph>(
    g: G,
    start: <G::Node as View>::V,
    n: <G::Node as View>::V,
) -> bool {
    exists|path: Seq<<G::Node as View>::V>| is_derivation(g, start, path) && path.last() == n
}

proof fn lemma_run_unique<G: Graph>(
    g: G,
    stack: Seq<<G::Node as View>::V>,
    visited: Seq<<G::Node as View>::V>,
    iterations: nat,
    f1: nat,
    f2: nat,
)
    requires
        run(g, stack, visited, iterations, f1) is Some,
        run(g, stack, visited, iterations, f2) is Some,
    ensures
        run(g, stack, visited, iterations, f1) == run(g, stack, visited, iterations, f2),
    decreases f1,
{
    if stack.len() > 0 {
        let (m, c) = g.check(stack.last());
        let count = next_count(iterations);
        match c {
            GraphControl::Finish => {},
            GraphControl::Prune => {
                lemma_run_unique(
                    g,
                    stack.drop_last(),
                    visited.push(m),
                    count,
                    (f1 - 1) as nat,
                    (f2 - 1) as nat,
                );
            },
            GraphControl::Continue => {
                lemma_run_unique(
                    g,
                    stack.drop_last() + unvisited(g.successors(m), visited),
                    visited.push(m),
                    count,
                    (f1 - 1) as nat,
                    (f2 - 1) as nat,
                );
            },
        }
    }
}

proof fn lemma_run_found_derivable<G: Graph>(
    g: G,
    start: <G::Node as View>::V,
    stack: Seq<<G::Node as View>::V>,
    visited: Seq<<G::Node as View>::V>,
    iterations: nat,
    fuel: nat,
    n: <G::Node as View>::V,
    k: nat,
)
    requires
        forall|i: int| 0 <= i < stack.len() ==> derivable(g, start, #[trigger] stack[i]),
        run(g, stack, visited, iterations, fuel) == Some(Outcome::Found(n, k)),
    ensures
        exists|path: Seq<<G::Node as View>::V>|
            is_derivation(g, start, path) && g.check(path.last()) == (n, GraphControl::Finish),
    decreases fuel,
{
    let top = stack.last();
    assert(derivable(g, start, stack[stack.len() - 1]));
    let path = choose|path: Seq<<G::Node as View>::V>|
        is_derivation(g, start, path) && path.last() == top;
    let (m, c) = g.check(top);
    let count = next_count(iterations);
    let rest = stack.drop_last();
    assert(forall|i: int| 0 <= i < rest.len() ==> rest[i] == stack[i]);
    match c {
        GraphControl::Finish => {},
        GraphControl::Prune => {
            lemma_run_found_derivable(
                g,
                start,
                rest,
                visited.push(m),
                count,
                (fuel - 1) as nat,
                n,
                k,
            );
        },
        GraphControl::Continue => {
            let u = unvisited(g.successors(m), visited);
            let next = rest + u;
            lemma_unvisited_members(g.successors(m), visited);
            assert forall|i: int| 0 <= i < next.len() implies derivable(
                g,
                start,
                #[trigger] next[i],
            ) by {
                if i >= rest.len() {
                    let w = u[i - rest.len()];
                    assert(g.successors(m).contains(w));
                    lemma_successor_derivable(g, start, top, w);
                } else {
                    assert(next[i] == stack[i]);
                }
            }
            lemma_run_found_derivable(g, start, next, visited.push(m), count, (fuel - 1) as nat, n, k);
        },
    }
}

/// Two searches from the same node on the same graph end alike: the outcome
/// and the iteration count are reproducible.
pub proof fn lemma_dfs_reproducible<G: Graph>(
    g: G,
    start: <G::Node as View>::V,
    r1: Outcome<<G::Node as View>::V>,
    r2: Outcome<<G::Node as View>::V>,
)
    requires
        search_ends(g, start, r1),
        search_ends(g, start, r2),
    ensures
        r1 == r2,
{
    let f1 = choose|f: nat| run(g, seq![start], Seq::empty(), 0, f) == Some(r1);
    let f2 = choose|f: nat| run(g, seq![start], Seq::empty(), 0, f) == Some(r2);
    lemma_run_unique(g, seq![start], Seq::empty(), 0, f1, f2);
}

/// A node that the search returns is what a goal check that said `Finish`
/// made of a node derivable from the start.
pub proof fn lemma_dfs_finds_goal<G: Graph>(
    g: G,
    start: <G::Node as View>::V,
    n: <G::Node as View>::V,
    k: nat,
)
    requires
        search_ends(g, start, Outcome::Found(n, k)),
    ensures
        exists|path: Seq<<G::Node as View>::V>|
            is_derivation(g, start, path) && g.check(path.last()) == (n, GraphControl::Finish),
{
    let f = choose|f: nat| run(g, seq![start], Seq::empty(), 0, f) == Some(Outcome::Found(n, k));
    let init = seq![start];
    assert(is_derivation(g, start, init) && init.last() == start);
    assert(derivable(g, start, init[0]));
    lemma_run_found_derivable(g, start, init, Seq::empty(), 0, f, n, k);
}

/// Where no node derivable from the start passes its goal check, the search
/// reports exhaustion.
pub proof fn lemma_dfs_exhausts_without_goal<G: Graph>(
    g: G,
    start: <G::Node as View>::V,
    r: Outcome<<G::Node as View>::V>,
)
    requires
        search_ends(g, start, r),
        forall|path: Seq<<G::Node as View>::V>|
            is_derivation(g, start, path) ==> g.check(#[trigger] path.last()).1
                != GraphControl::Finish,
    ensures
        r is Exhausted,
{
    if let Outcome::Found(n, k) = r {
        lemma_dfs_finds_goal(g, start, n, k);
    }
}

/// A successor of the check of a derivable node, where that check continues,
/// is derivable too.
pub proof fn lemma_successor_derivable<G: Graph>(
    g: G,
    start: <G::Node as View>::V,
    v: <G::Node as View>::V,
    w: <G::Node as View>::V,
)
    requires
        derivable(g, start, v),
        g.check(v).1 == GraphControl::Continue,
        g.successors(g.check(v).0).contains(w),
    ensures
        derivable(g, start, w),
{
    let path = choose|path: Seq<<G::Node as View>::V>|
        is_derivation(g, start, path) && path.last() == v;
    let longer = path.push(w);
    assert(longer[longer.len() - 2] == v);
    assert forall|j: int| 0 <= j < longer.len() - 1 implies g.check(
        #[trigger] longer[j],
    ).1 == GraphControl::Continue && g.successors(g.check(longer[j]).0).contains(longer[j + 1]) by {
        if j < path.len() - 1 {
            assert(longer[j] == path[j]);
            assert(longer[j + 1] == path[j + 1]);
        }
    }
    assert(is_derivation(g, start, longer) && longer.last() == w);
}

pub(crate) proof fn lemma_unvisited_len<V>(nbrs: Seq<V>, visited: Seq<V>)
    ensures
        unvisited(nbrs, visited).len() <= nbrs.len(),
    decreases nbrs.len(),
{
    if nbrs.len() > 0 {
        lemma_unvisited_len(nbrs.drop_last(), visited);
    }
}

/// Some derivation from `start` of at most `d` nodes ends at `n`.
pub open spec fn derivable_within<G: Graph>(
    g: G,
    start: <G::Node as View>::V,
    n: <G::Node as View>::V,
    d: nat,
) -> bool {
    exists|path: Seq<<G::Node as View>::V>|
        is_derivation(g, start, path) && path.last() == n && path.len() <= d
}

/// A successor of the check of a node derivable in `d` nodes, where that check
/// continues, is derivable in `d + 1`.
pub proof fn lemma_successor_within<G: Graph>(
    g: G,
    start: <G::Node as View>::V,
    v: <G::Node as View>::V,
    w: <G::Node as View>::V,
    d: nat,
)
    requires
        derivable_within(g, start, v, d),
        g.check(v).1 == GraphControl::Continue,
        g.successors(g.check(v).0).contains(w),
    ensures
        derivable_within(g, start, w, d + 1),
{
    let path = choose|path: Seq<<G::Node as View>::V>|
        is_derivation(g, start, path) && path.last() == v && path.len() <= d;
    let longer = path.push(w);
    assert(longer[longer.len() - 2] == v);
    assert forall|j: int| 0 <= j < longer.len() - 1 implies g.check(
        #[trigger] longer[j],
    ).1 == GraphControl::Continue && g.successors(g.check(longer[j]).0).contains(longer[j + 1]) by {
        if j < path.len() - 1 {
            assert(longer[j] == path[j]);
            assert(longer[j + 1] == path[j + 1]);
        }
    }
    assert(is_derivation(g, start, longer) && longer.last() == w && longer.len() <= d + 1);
}

/// The nodes that the search checks within `fuel` steps, in the order checked.
pub open spec fn checked_nodes<G: Graph>(
    g: G,
    stack: Seq<<G::Node as View>::V>,
    visited: Seq<<G::Node as View>::V>,
    fuel: nat,
) -> Seq<<G::Node as View>::V>
    decreases fuel,
{
    if fuel == 0 || stack.len() == 0 {
        Seq::empty()
    } else {
        let (m, c) = g.check(stack.last());
        seq![stack.last()] + match c {
            GraphControl::Finish => Seq::empty(),
            GraphControl::Prune => checked_nodes(g, stack.drop_last(), visited.push(m), (fuel - 1) as nat),
            GraphControl::Continue => checked_nodes(
                g,
                stack.drop_last() + unvisited(g.successors(m), visited),
                visited.push(m),
                (fuel - 1) as nat,
            ),
        }
    }
}

/// The part of the graph reachable from `start` is a tree: the start is
/// nobody's successor, no successor list repeats a node, and two derivable
/// nodes whose checks continue share no successor unless they are equal.
pub open spec fn is_tree_from<G: Graph>(g: G, start: <G::Node as View>::V) -> bool {
    &&& forall|p: <G::Node as View>::V|
        derivable(g, start, p) && g.check(p).1 == GraphControl::Continue ==> {
            &&& !(#[trigger] g.successors(g.check(p).0)).contains(start)
            &&& g.successors(g.check(p).0).no_duplicates()
        }
    &&& forall|p1: <G::Node as View>::V, p2: <G::Node as View>::V, w: <G::Node as View>::V|
        derivable(g, start, p1) && derivable(g, start, p2) && g.check(p1).1
            == GraphControl::Continue && g.check(p2).1 == GraphControl::Continue
            && #[trigger] g.successors(g.check(p1).0).contains(w) && #[trigger] g.successors(
            g.check(p2).0,
        ).contains(w) ==> p1 == p2
}

/// `x` is a successor of the check of some node of `done` that continued.
pub open spec fn has_parent_in<G: Graph>(
    g: G,
    done: Seq<<G::Node as View>::V>,
    x: <G::Node as View>::V,
) -> bool {
    exists|p: <G::Node as View>::V|
        done.contains(p) && g.check(p).1 == GraphControl::Continue && g.successors(
            g.check(p).0,
        ).contains(x)
}

proof fn lemma_unvisited_distinct<V>(nbrs: Seq<V>, visited: Seq<V>)
    requires
        nbrs.no_duplicates(),
    ensures
        unvisited(nbrs, visited).no_duplicates(),
    decreases nbrs.len(),
{
    if nbrs.len() > 0 {
        let rest = nbrs.drop_last();
        assert(rest.no_duplicates());
        lemma_unvisited_distinct(rest, visited);
        lemma_unvisited_members(rest, visited);
        let ur = unvisited(rest, visited);
        if !visited.contains(nbrs.last()) {
            assert forall|k: int| 0 <= k < ur.len() implies ur[k] != nbrs.last() by {
                let i = choose|i: int| 0 <= i < rest.len() && rest[i] == ur[k];
                assert(nbrs[i] == ur[k]);
            }
        }
    }
}

proof fn lemma_parent_grows<G: Graph>(
    g: G,
    done: Seq<<G::Node as View>::V>,
    x: <G::Node as View>::V,
    n: <G::Node as View>::V,
)
    requires
        has_parent_in(g, done, x),
    ensures
        has_parent_in(g, done.push(n), x),
{
    let p = choose|p: <G::Node as View>::V|
        done.contains(p) && g.check(p).1 == GraphControl::Continue && g.successors(
            g.check(p).0,
        ).contains(x);
    let j = choose|j: int| 0 <= j < done.len() && done[j] == p;
    assert(done.push(n)[j] == p);
    assert(done.push(n).contains(p));
}

/// In a tree, the successors that a check pushes are new: neither checked nor
/// pending.
proof fn lemma_fresh_successors<G: Graph>(
    g: G,
    start: <G::Node as View>::V,
    stack: Seq<<G::Node as View>::V>,
    visited: Seq<<G::Node as View>::V>,
    done: Seq<<G::Node as View>::V>,
)
    requires
        is_tree_from(g, start),
        stack.len() > 0,
        g.check(stack.last()).1 == GraphControl::Continue,
        stack.no_duplicates(),
        forall|i: int| 0 <= i < stack.len() ==> !done.contains(#[trigger] stack[i]),
        forall|i: int| 0 <= i < stack.len() ==> derivable(g, start, #[trigger] stack[i]),
        forall|i: int| 0 <= i < done.len() ==> derivable(g, start, #[trigger] done[i]),
        forall|i: int|
            0 <= i < stack.len() && stack[i] != start ==> has_parent_in(g, done, #[trigger] stack[i]),
        forall|i: int|
            0 <= i < done.len() && done[i] != start ==> has_parent_in(g, done, #[trigger] done[i]),
    ensures
        forall|k: int|
            0 <= k < unvisited(g.successors(g.check(stack.last()).0), visited).len() ==> {
                let w = #[trigger] unvisited(g.successors(g.check(stack.last()).0), visited)[k];
                &&& !done.push(stack.last()).contains(w)
                &&& !stack.drop_last().contains(w)
            },
{
    let n = stack.last();
    let m = g.check(n).0;
    let succ = g.successors(m);
    let u = unvisited(succ, visited);
    let rest = stack.drop_last();
    let done2 = done.push(n);
    lemma_unvisited_members(succ, visited);
    assert(derivable(g, start, stack[stack.len() - 1]));
    assert(!done.contains(stack[stack.len() - 1]));
    assert forall|k: int| 0 <= k < u.len() implies !done2.contains(#[trigger] u[k])
        && !rest.contains(u[k]) by {
        let w = u[k];
        assert(succ.contains(w));
        assert(w != start);
        if done2.contains(w) || rest.contains(w) {
            assert(has_parent_in(g, done, w)) by {
                if rest.contains(w) {
                    let i = choose|i: int| 0 <= i < rest.len() && rest[i] == w;
                    assert(rest[i] == stack[i]);
                    assert(has_parent_in(g, done, stack[i]));
                } else {
                    let i = choose|i: int| 0 <= i < done2.len() && done2[i] == w;
                    if i < done.len() {
                        assert(done[i] == w);
                        assert(has_parent_in(g, done, done[i]));
                    } else {
                        assert(has_parent_in(g, done, stack[stack.len() - 1]));
                    }
                }
            }
            let q = choose|q: <G::Node as View>::V|
                done.contains(q) && g.check(q).1 == GraphControl::Continue && g.successors(
                    g.check(q).0,
                ).contains(w);
            let j = choose|j: int| 0 <= j < done.len() && done[j] == q;
            assert(derivable(g, start, done[j]));
            assert(q == n);
        }
    }
}

/// The checked nodes `done` and the pending `stack` hold no node twice and
/// none in common; all are derivable, and each but the start has a parent
/// among the checked nodes.
#[verifier::opaque]
spec fn walk_inv<G: Graph>(
    g: G,
    start: <G::Node as View>::V,
    stack: Seq<<G::Node as View>::V>,
    done: Seq<<G::Node as View>::V>,
) -> bool {
    &&& done.no_duplicates()
    &&& stack.no_duplicates()
    &&& forall|i: int| 0 <= i < stack.len() ==> !done.contains(#[trigger] stack[i])
    &&& forall|i: int| 0 <= i < stack.len() ==> derivable(g, start, #[trigger] stack[i])
    &&& forall|i: int| 0 <= i < done.len() ==> derivable(g, start, #[trigger] done[i])
    &&& forall|i: int|
        0 <= i < stack.len() && stack[i] != start ==> has_parent_in(g, done, #[trigger] stack[i])
    &&& forall|i: int|
        0 <= i < done.len() && done[i] != start ==> has_parent_in(g, done, #[trigger] done[i])
}

/// The next stack of the search after checking the top of `stack`, where
/// the check does not finish.
spec fn next_stack<G: Graph>(
    g: G,
    stack: Seq<<G::Node as View>::V>,
    visited: Seq<<G::Node as View>::V>,
) -> Seq<<G::Node as View>::V> {
    let (m, c) = g.check(stack.last());
    if c == GraphControl::Continue {
        stack.drop_last() + unvisited(g.successors(m), visited)
    } else {
        stack.drop_last()
    }
}

proof fn lemma_walk_step<G: Graph>(
    g: G,
    start: <G::Node as View>::V,
    stack: Seq<<G::Node as View>::V>,
    visited: Seq<<G::Node as View>::V>,
    done: Seq<<G::Node as View>::V>,
)
    requires
        is_tree_from(g, start),
        walk_inv(g, start, stack, done),
        stack.len() > 0,
        g.check(stack.last()).1 != GraphControl::Finish,
    ensures
        walk_inv(g, start, next_stack(g, stack, visited), done.push(stack.last())),
{
    reveal(walk_inv);
    let n = stack.last();
    let (m, c) = g.check(n);
    let rest = stack.drop_last();
    let done2 = done.push(n);
    let next = next_stack(g, stack, visited);
    assert(!done.contains(stack[stack.len() - 1]));
    assert(derivable(g, start, stack[stack.len() - 1]));
    assert(done2[done.len() as int] == n);
    assert(done2.no_duplicates());
    assert forall|i: int| 0 <= i < rest.len() implies !done2.contains(#[trigger] rest[i]) by {
        assert(rest[i] == stack[i]);
        assert(!done.contains(stack[i]));
        if done2.contains(rest[i]) {
            let j = choose|j: int| 0 <= j < done2.len() && done2[j] == rest[i];
            assert(j == done.len());
            assert(stack[i] == stack[stack.len() - 1]);
        }
    }
    let u = if c == GraphControl::Continue {
        unvisited(g.successors(m), visited)
    } else {
        Seq::empty()
    };
    assert(next =~= rest + u);
    if c == GraphControl::Continue {
        lemma_fresh_successors(g, start, stack, visited, done);
        lemma_unvisited_distinct(g.successors(m), visited);
        lemma_unvisited_members(g.successors(m), visited);
    }
        assert forall|k: int| 0 <= k < next.len() implies !done2.contains(#[trigger] next[k])
            by {
            if k >= rest.len() {
                assert(next[k] == u[k - rest.len()]);
            } else {
                assert(next[k] == rest[k]);
            }
        }
        assert(next.no_duplicates()) by {
            assert forall|i: int, j: int|
                0 <= i < next.len() && 0 <= j < next.len() && i != j implies next[i]
                != next[j] by {
                if i >= rest.len() && j < rest.len() {
                    assert(rest.contains(next[j]));
                    assert(next[i] == u[i - rest.len()]);
                } else if j >= rest.len() && i < rest.len() {
                    assert(rest.contains(next[i]));
                    assert(next[j] == u[j - rest.len()]);
                } else if i >= rest.len() && j >= rest.len() {
                    assert(next[i] == u[i - rest.len()]);
                    assert(next[j] == u[j - rest.len()]);
                } else {
                    assert(rest[i] == stack[i] && rest[j] == stack[j]);
                }
            }
        }
        assert forall|k: int| 0 <= k < next.len() implies derivable(
            g,
            start,
            #[trigger] next[k],
        ) && (next[k] != start ==> has_parent_in(g, done2, next[k])) by {
            if k >= rest.len() {
                let w = u[k - rest.len()];
                assert(next[k] == w);
                assert(g.successors(m).contains(w));
                lemma_successor_derivable(g, start, n, w);
                assert(done2[done.len() as int] == n);
                assert(done2.contains(n) && g.check(n).1 == GraphControl::Continue
                    && g.successors(g.check(n).0).contains(w));
            } else {
                assert(next[k] == stack[k]);
                if stack[k] != start {
                    lemma_parent_grows(g, done, stack[k], n);
                }
            }
        }
        assert forall|i: int| 0 <= i < done2.len() implies derivable(
            g,
            start,
            #[trigger] done2[i],
        ) && (done2[i] != start ==> has_parent_in(g, done2, done2[i])) by {
            let x = done2[i];
            if x != start {
                if i < done.len() {
                    assert(done2[i] == done[i]);
                    assert(has_parent_in(g, done, done[i]));
                } else {
                    assert(has_parent_in(g, done, stack[stack.len() - 1]));
                }
                lemma_parent_grows(g, done, x, n);
            } else if i < done.len() {
                assert(done2[i] == done[i]);
            }
        }
}

proof fn lemma_checked_distinct<G: Graph>(
    g: G,
    start: <G::Node as View>::V,
    stack: Seq<<G::Node as View>::V>,
    visited: Seq<<G::Node as View>::V>,
    done: Seq<<G::Node as View>::V>,
    fuel: nat,
)
    requires
        is_tree_from(g, start),
        walk_inv(g, start, stack, done),
    ensures
        (done + checked_nodes(g, stack, visited, fuel)).no_duplicates(),
    decreases fuel,
{
    if fuel == 0 || stack.len() == 0 {
        reveal(walk_inv);
        assert(done + checked_nodes(g, stack, visited, fuel) =~= done);
    } else {
        let n = stack.last();
        let (m, c) = g.check(n);
        let done2 = done.push(n);
        if c == GraphControl::Finish {
            reveal(walk_inv);
            assert(!done.contains(stack[stack.len() - 1]));
            assert(done2[done.len() as int] == n);
            assert(done + checked_nodes(g, stack, visited, fuel) =~= done2);
        } else {
            lemma_walk_step(g, start, stack, visited, done);
            let next = next_stack(g, stack, visited);
            lemma_checked_distinct(g, start, next, visited.push(m), done2, (fuel - 1) as nat);
            assert(done + checked_nodes(g, stack, visited, fuel) =~= done2 + checked_nodes(
                g,
                next,
                visited.push(m),
                (fuel - 1) as nat,
            ));
        }
    }
}

/// Where the graph reachable from the start is a tree, the search checks no
/// node twice, within any number of steps.
pub proof fn lemma_dfs_checks_each_node_once<G: Graph>(
    g: G,
    start: <G::Node as View>::V,
    fuel: nat,
)
    requires
        is_tree_from(g, start),
    ensures
        checked_nodes(g, seq![start], Seq::empty(), fuel).no_duplicates(),
{
    let init = seq![start];
    let none = Seq::<<G::Node as View>::V>::empty();
    assert(is_derivation(g, start, init) && init.last() == start);
    assert(derivable(g, start, init[0]));
    assert(walk_inv(g, start, init, none)) by {
        reveal(walk_inv);
    }
    lemma_checked_distinct(g, start, init, none, none, fuel);
    assert(none + checked_nodes(g, init, none, fuel) =~= checked_nodes(g, init, none, fuel));
}

/// `x`, or the largest `usize` where `x` exceeds it.
pub open spec fn capped(x: nat) -> nat {
    if x < usize::MAX {
        x
    } else {
        usize::MAX as nat
    }
}

/// The iteration count that an outcome carries.
pub open spec fn count_of<V>(r: Outcome<V>) -> nat {
    match r {
        Outcome::Found(_, k) => k,
        Outcome::Exhausted(k) => k,
    }
}

proof fn lemma_count_is_checked<G: Graph>(
    g: G,
    stack: Seq<<G::Node as View>::V>,
    visited: Seq<<G::Node as View>::V>,
    iterations: nat,
    fuel: nat,
)
    requires
        iterations <= usize::MAX,
        run(g, stack, visited, iterations, fuel) is Some,
    ensures
        count_of(run(g, stack, visited, iterations, fuel)->Some_0) == capped(
            iterations + checked_nodes(g, stack, visited, fuel).len(),
        ),
    decreases fuel,
{
    if stack.len() > 0 {
        let (m, c) = g.check(stack.last());
        let count = next_count(iterations);
        match c {
            GraphControl::Finish => {},
            GraphControl::Prune => {
                lemma_count_is_checked(g, stack.drop_last(), visited.push(m), count, (fuel - 1) as nat);
            },
            GraphControl::Continue => {
                lemma_count_is_checked(
                    g,
                    stack.drop_last() + unvisited(g.successors(m), visited),
                    visited.push(m),
                    count,
                    (fuel - 1) as nat,
                );
            },
        }
    }
}

/// The iteration count that a search reports is the number of goal checks it
/// made, capped at the largest `usize`.
pub proof fn lemma_dfs_counts_checks<G: Graph>(
    g: G,
    start: <G::Node as View>::V,
    fuel: nat,
)
    requires
        run(g, seq![start], Seq::empty(), 0, fuel) is Some,
    ensures
        count_of(run(g, seq![start], Seq::empty(), 0, fuel)->Some_0) == capped(
            checked_nodes(g, seq![start], Seq::empty(), fuel).len(),
        ),
{
    lemma_count_is_checked(g, seq![start], Seq::empty(), 0, fuel);
}

} // verus!
