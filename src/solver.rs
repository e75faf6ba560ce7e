use crate::graph::{
    dfs, is_derivation, lemma_dfs_finds_goal, search_ends, Graph, GraphControl, Outcome,
};
use crate::sudoku::{
    box_cells, box_index, col_cells, consistent, deduce, first_guess, free_values, guesses_at,
    index_of, lemma_first_guess_bounds, number_of, numbers, position, row_cells, same_group,
    state_of, taken, Cell, Sudoku, SudokuState, SudokuView, CELLS, N,
};
use vstd::prelude::*;

verus! {

/// Sudoku as a search space: a goal check runs one deduction pass, and the
/// successors of a board are its copies with one candidate filled in at the
/// cell that the pass chose.
#[derive(Clone, Copy)]
pub struct SudokuSolver;

/// The verdict that a board's state gives.
pub open spec fn control_of(s: SudokuState) -> GraphControl {
    match s {
        SudokuState::Invalid => GraphControl::Prune,
        SudokuState::Solved => GraphControl::Finish,
        _ => GraphControl::Continue,
    }
}

/// The board after a deduction pass.
pub open spec fn deduced(v: SudokuView) -> SudokuView {
    let cells = deduce(v.cells, 81);
    SudokuView { cells, state: state_of(cells) }
}

/// The boards that follow `v`: one for each candidate of the cell its state
/// points at, in increasing order of the candidate.
pub open spec fn branches(v: SudokuView) -> Seq<SudokuView> {
    match v.state {
        SudokuState::HaveGuesses((i, j)) => if i < 9 && j < 9 {
            guesses_at(v.cells, i as int, j as int).map_values(
                |x: u16|
                    SudokuView {
                        cells: v.cells.update(index_of(i as int, j as int), Cell::Number(x)),
                        state: v.state,
                    },
            )
        } else {
            Seq::empty()
        },
        _ => Seq::empty(),
    }
}

/// The number of cells of `g` that hold no number.
pub open spec fn open_count(g: Seq<Cell>) -> nat
    decreases g.len(),
{
    if g.len() == 0 {
        0
    } else {
        open_count(g.drop_last()) + if number_of(g.last()) is Some {
            0nat
        } else {
            1nat
        }
    }
}

proof fn lemma_open_count_monotone(a: Seq<Cell>, b: Seq<Cell>)
    requires
        a.len() == b.len(),
        forall|q: int| 0 <= q < a.len() && number_of(a[q]) is Some ==> number_of(b[q]) is Some,
    ensures
        open_count(b) <= open_count(a),
    decreases a.len(),
{
    if a.len() > 0 {
        lemma_open_count_monotone(a.drop_last(), b.drop_last());
    }
}

proof fn lemma_open_count_fill(a: Seq<Cell>, p: int, x: u16)
    requires
        0 <= p < a.len(),
        number_of(a[p]) is None,
    ensures
        open_count(a.update(p, Cell::Number(x))) + 1 == open_count(a),
    decreases a.len(),
{
    let b = a.update(p, Cell::Number(x));
    if p == a.len() - 1 {
        assert(b.drop_last() =~= a.drop_last());
    } else {
        assert(b.drop_last() =~= a.drop_last().update(p, Cell::Number(x)));
        lemma_open_count_fill(a.drop_last(), p, x);
    }
}

proof fn lemma_deduce_keeps_numbers(g: Seq<Cell>, k: nat)
    requires
        k <= g.len(),
    ensures
        deduce(g, k).len() == g.len(),
        forall|q: int|
            0 <= q < g.len() && number_of(g[q]) is Some ==> number_of(deduce(g, k)[q]) is Some,
    decreases k,
{
    if k > 0 {
        lemma_deduce_keeps_numbers(g, (k - 1) as nat);
    }
}

impl Graph for SudokuSolver {
    type Node = Sudoku;

    open spec fn valid(&self, n: SudokuView) -> bool {
        n.cells.len() == CELLS
    }

    open spec fn check(&self, n: SudokuView) -> (SudokuView, GraphControl) {
        (deduced(n), control_of(deduced(n).state))
    }

    open spec fn successors(&self, n: SudokuView) -> Seq<SudokuView> {
        branches(n)
    }

    open spec fn rank(&self, n: SudokuView) -> nat {
        open_count(n.cells)
    }

    proof fn lemma_progress(&self, n: SudokuView) {
        lemma_deduce_keeps_numbers(n.cells, 81);
        let d = deduced(n);
        lemma_open_count_monotone(n.cells, d.cells);
        if control_of(d.state) == GraphControl::Continue {
            lemma_first_guess_bounds(d.cells, 81);
            let p = first_guess(d.cells, 81)->Some_0;
            assert(d.state == SudokuState::HaveGuesses(position(p)));
            let (i, j) = position(p);
            assert(index_of(i as int, j as int) == p);
            let succ = branches(d);
            assert forall|k: int| 0 <= k < succ.len() implies self.valid(#[trigger] succ[k])
                && self.rank(succ[k]) < self.rank(n) by {
                let x = guesses_at(d.cells, i as int, j as int)[k];
                lemma_open_count_fill(d.cells, p, x);
            }
        }
    }

    proof fn lemma_node_eq() {
    }

    fn neighbours(&self, node: &Sudoku) -> (r: Vec<Sudoku>) {
        let mut r: Vec<Sudoku> = Vec::new();
        match node.state() {
            SudokuState::HaveGuesses((i, j)) => {
                if i < N && j < N {
                    let gs = node.get_guesses(i, j);
                    let ghost target = branches(node@);
                    let mut k: usize = 0;
                    while k < gs.len()
                        invariant
                            node.wf(),
                            i < N,
                            j < N,
                            node@.state == SudokuState::HaveGuesses((i, j)),
                            gs@ == guesses_at(node@.cells, i as int, j as int),
                            target == branches(node@),
                            k <= gs@.len(),
                            r@.map_values(|m: Sudoku| m@) == target.subrange(0, k as int),
                        decreases gs@.len() - k,
                    {
                        let mut b = node.clone();
                        b.set(i, j, gs[k]);
                        assert(target[k as int] == SudokuView {
                            cells: node@.cells.update(index_of(i as int, j as int), Cell::Number(gs@[k as int])),
                            state: node@.state,
                        });
                        assert(b@ == target[k as int]);
                        let ghost before = r@.map_values(|m: Sudoku| m@);
                        r.push(b);
                        assert(r@.map_values(|m: Sudoku| m@) =~= before.push(target[k as int]));
                        k = k + 1;
                        assert(r@.map_values(|m: Sudoku| m@) =~= target.subrange(0, k as int));
                    }
                    assert(target.subrange(0, k as int) =~= target);
                } else {
                    assert(r@.map_values(|m: Sudoku| m@) =~= Seq::empty());
                }
            },
            _ => {
                assert(r@.map_values(|m: Sudoku| m@) =~= Seq::empty());
            },
        }
        r
    }

    fn check_goal(&self, node: &mut Sudoku) -> (r: GraphControl) {
        node.compute_guesses();
        match node.state() {
            SudokuState::Invalid => GraphControl::Prune,
            SudokuState::Solved => GraphControl::Finish,
            _ => GraphControl::Continue,
        }
    }
}

/// Solves `board` by sequential depth-first search.
pub fn solve_sudoku(board: Sudoku) -> (r: Result<(Sudoku, usize), (String, usize)>)
    requires
        board.wf(),
    ensures
        r matches Ok((n, k)) ==> search_ends(SudokuSolver, board@, Outcome::Found(n@, k as nat)),
        r matches Err((msg, k)) ==> search_ends(SudokuSolver, board@, Outcome::Exhausted(k as nat))
            && msg@ == "No solution found :C"@,
        r matches Ok((n, _)) ==> (consistent(board@.cells) ==> solves(n@.cells, board@.cells)
            && n@.state == SudokuState::Solved),
{
    let graph = SudokuSolver;
    let ghost start = board@;
    let r = dfs(graph, board);
    proof {
        if r is Ok {
            let n = r->Ok_0.0;
            let k = r->Ok_0.1;
            lemma_dfs_finds_goal(graph, start, n@, k as nat);
            if consistent(start.cells) {
                lemma_result_solves(start, n@);
            }
        }
    }
    r
}

} // verus!

verus! {

/// Every cell of `g` holds a number.
pub open spec fn complete(g: Seq<Cell>) -> bool {
    forall|p: int| 0 <= p < 81 ==> number_of(#[trigger] g[p]) is Some
}

/// `g` keeps every number that `h` holds, in its place.
pub open spec fn extends(g: Seq<Cell>, h: Seq<Cell>) -> bool {
    forall|p: int| 0 <= p < 81 && number_of(#[trigger] h[p]) is Some ==> g[p] == h[p]
}

/// `cells` solve the board `start`: they are complete and consistent, and
/// keep the numbers of `start`.
pub open spec fn solves(cells: Seq<Cell>, start: Seq<Cell>) -> bool {
    cells.len() == 81 && complete(cells) && consistent(cells) && extends(cells, start)
}

proof fn lemma_numbers_contains(s: Seq<Cell>, k: int, x: u16)
    requires
        0 <= k < s.len(),
        s[k] == Cell::Number(x),
    ensures
        numbers(s).contains(x),
    decreases s.len(),
{
    if k == s.len() - 1 {
        let n = numbers(s);
        assert(n[n.len() - 1] == x);
    } else {
        lemma_numbers_contains(s.drop_last(), k, x);
        let m = numbers(s.drop_last());
        let i = choose|i: int| 0 <= i < m.len() && m[i] == x;
        assert(numbers(s)[i] == x);
    }
}

proof fn lemma_free_not_taken(g: Seq<Cell>, i: int, j: int, n: nat, x: u16)
    requires
        free_values(g, i, j, n).contains(x),
    ensures
        !taken(g, i, j, x),
    decreases n,
{
    if n > 0 {
        let f = free_values(g, i, j, (n - 1) as nat);
        let all = free_values(g, i, j, n);
        let k = choose|k: int| 0 <= k < all.len() && all[k] == x;
        if k < f.len() {
            assert(f[k] == x);
            lemma_free_not_taken(g, i, j, (n - 1) as nat, x);
        } else {
            assert(x == n as u16);
        }
    }
}

proof fn lemma_box_position(p: int, q: int)
    requires
        0 <= p < 81,
        0 <= q < 81,
        p / 27 == q / 27,
        (p % 9) / 3 == (q % 9) / 3,
    ensures
        box_index(p / 9, p % 9, 3 * ((q / 9) % 3) + (q % 9) % 3) == q,
{
    let qi = q / 9;
    let qj = q % 9;
    let a = qi % 3;
    let b = qj % 3;
    let k = 3 * a + b;
    assert(0 <= a < 3 && 0 <= b < 3);
    assert(k / 3 == a && k % 3 == b);
    assert(q / 27 == qi / 3);
    assert(p / 27 == (p / 9) / 3);
    assert((p / 9) / 3 == qi / 3);
    assert(qi == (qi / 3) * 3 + a);
    assert(qj == (qj / 3) * 3 + b);
    assert(q == 9 * qi + qj);
}

/// A value that cell `p` may take stands nowhere in its row, column or box.
proof fn lemma_group_member_taken(g: Seq<Cell>, p: int, q: int, x: u16)
    requires
        g.len() == 81,
        0 <= p < 81,
        0 <= q < 81,
        p != q,
        same_group(p, q),
        g[q] == Cell::Number(x),
    ensures
        taken(g, p / 9, p % 9, x),
{
    let i = p / 9;
    let j = p % 9;
    if q / 9 == i {
        let row = row_cells(g, i);
        assert(row[q % 9] == g[q]);
        lemma_numbers_contains(row, q % 9, x);
    } else if q % 9 == j {
        let col = col_cells(g, j);
        assert(col[q / 9] == g[q]);
        lemma_numbers_contains(col, q / 9, x);
    } else {
        let k = 3 * ((q / 9) % 3) + (q % 9) % 3;
        lemma_box_position(p, q);
        assert(0 <= k < 9);
        let sq = box_cells(g, i, j);
        assert(sq[k] == g[q]);
        lemma_numbers_contains(sq, k, x);
    }
}

/// Writing a candidate into an open cell keeps a consistent board consistent.
proof fn lemma_fill_candidate(g: Seq<Cell>, p: int, x: u16)
    requires
        g.len() == 81,
        0 <= p < 81,
        consistent(g),
        !taken(g, p / 9, p % 9, x),
    ensures
        consistent(g.update(p, Cell::Number(x))),
{
    let h = g.update(p, Cell::Number(x));
    assert forall|a: int, b: int|
        0 <= a < b < 81 && same_group(a, b) && number_of(h[a]) is Some implies number_of(h[a])
        != number_of(h[b]) by {
        if a == p && number_of(h[b]) == Some(x) {
            lemma_group_member_taken(g, p, b, x);
        } else if b == p && number_of(h[a]) == Some(x) {
            assert(same_group(b, a));
            lemma_group_member_taken(g, p, a, x);
        }
    }
}

/// A deduction pass keeps a board consistent and keeps its numbers, and after
/// it each of the first `k` cells holds a number, guesses or an error.
proof fn lemma_deduce_sound(g: Seq<Cell>, k: nat)
    requires
        g.len() == 81,
        k <= 81,
        consistent(g),
    ensures
        deduce(g, k).len() == 81,
        consistent(deduce(g, k)),
        extends(deduce(g, k), g),
        forall|p: int| 0 <= p < k ==> !(#[trigger] deduce(g, k)[p] is Empty),
    decreases k,
{
    if k > 0 {
        lemma_deduce_sound(g, (k - 1) as nat);
        let h = deduce(g, (k - 1) as nat);
        let p = k - 1;
        if number_of(h[p]) is None {
            let gs = guesses_at(h, p / 9, p % 9);
            if gs.len() == 1 {
                assert(gs.contains(gs[0]));
                lemma_free_not_taken(h, p / 9, p % 9, 9, gs[0]);
                lemma_fill_candidate(h, p, gs[0]);
            } else {
                let d = deduce(g, k);
                assert forall|a: int, b: int|
                    0 <= a < b < 81 && same_group(a, b) && number_of(d[a]) is Some implies number_of(
                    d[a]) != number_of(d[b]) by {
                    assert(number_of(h[a]) is Some);
                }
            }
            assert(number_of(g[p]) is None);
        }
    }
}

proof fn lemma_no_first_guess(g: Seq<Cell>, n: nat)
    requires
        n <= g.len(),
        first_guess(g, n) is None,
    ensures
        forall|p: int| 0 <= p < n ==> !(#[trigger] g[p] is Guesses),
    decreases n,
{
    if n > 0 {
        lemma_no_first_guess(g, (n - 1) as nat);
    }
}

/// Every board along a derivation from a consistent board is valid and
/// consistent, and keeps the numbers of the start.
proof fn lemma_derivation_consistent(start: SudokuView, path: Seq<SudokuView>, k: int)
    requires
        start.cells.len() == 81,
        consistent(start.cells),
        is_derivation(SudokuSolver, start, path),
        0 <= k < path.len(),
    ensures
        path[k].cells.len() == 81,
        consistent(path[k].cells),
        extends(path[k].cells, start.cells),
    decreases k,
{
    if k > 0 {
        lemma_derivation_consistent(start, path, k - 1);
        let v = path[k - 1];
        let d = deduced(v);
        lemma_deduce_sound(v.cells, 81);
        assert(SudokuSolver.check(path[k - 1]).1 == GraphControl::Continue);
        let succ = branches(d);
        assert(succ.contains(path[k]));
        let m = choose|m: int| 0 <= m < succ.len() && succ[m] == path[k];
        SudokuSolver.lemma_progress(v);
        lemma_first_guess_bounds(d.cells, 81);
        let p = first_guess(d.cells, 81)->Some_0;
        let (i, j) = position(p);
        assert(index_of(i as int, j as int) == p);
        let x = guesses_at(d.cells, i as int, j as int)[m];
        assert(guesses_at(d.cells, i as int, j as int).contains(x));
        lemma_free_not_taken(d.cells, i as int, j as int, 9, x);
        lemma_fill_candidate(d.cells, p, x);
        assert(path[k].cells == d.cells.update(p, Cell::Number(x)));
        assert(number_of(v.cells[p]) is None) by {
            if number_of(v.cells[p]) is Some {
                lemma_deduce_keeps_numbers(v.cells, 81);
            }
        }
        assert(number_of(start.cells[p]) is None);
    }
}

/// A board that either engine returns for a consistent start, being what a
/// goal check that said `Finish` made of a board derivable from the start,
/// solves the start and is marked solved.
pub proof fn lemma_result_solves(start: SudokuView, n: SudokuView)
    requires
        start.cells.len() == 81,
        consistent(start.cells),
        exists|path: Seq<SudokuView>|
            is_derivation(SudokuSolver, start, path) && SudokuSolver.check(path.last()) == (
                n,
                GraphControl::Finish,
            ),
    ensures
        solves(n.cells, start.cells),
        n.state == SudokuState::Solved,
{
    let path = choose|path: Seq<SudokuView>|
        is_derivation(SudokuSolver, start, path) && SudokuSolver.check(path.last()) == (
            n,
            GraphControl::Finish,
        );
    let v = path.last();
    lemma_derivation_consistent(start, path, path.len() - 1);
    lemma_deduce_sound(v.cells, 81);
    let d = deduce(v.cells, 81);
    assert(state_of(d) == SudokuState::Solved);
    lemma_no_first_guess(d, 81);
    assert forall|p: int| 0 <= p < 81 implies number_of(#[trigger] d[p]) is Some by {
        assert(!(d[p] is Error));
        assert(!(d[p] is Guesses));
        assert(!(d[p] is Empty));
    }
    assert forall|p: int| 0 <= p < 81 && number_of(#[trigger] start.cells[p]) is Some implies d[p]
        == start.cells[p] by {
        assert(v.cells[p] == start.cells[p]);
    }
}

/// Where a consistent board has one solution only, the two engines, and any
/// two runs of either, return the same board.
pub proof fn lemma_unique_solution_same_result(start: SudokuView, n1: SudokuView, n2: SudokuView)
    requires
        start.cells.len() == 81,
        consistent(start.cells),
        forall|a: Seq<Cell>, b: Seq<Cell>| solves(a, start.cells) && solves(b, start.cells) ==> a
            == b,
        exists|path: Seq<SudokuView>|
            is_derivation(SudokuSolver, start, path) && SudokuSolver.check(path.last()) == (
                n1,
                GraphControl::Finish,
            ),
        exists|path: Seq<SudokuView>|
            is_derivation(SudokuSolver, start, path) && SudokuSolver.check(path.last()) == (
                n2,
                GraphControl::Finish,
            ),
    ensures
        n1 == n2,
{
    lemma_result_solves(start, n1);
    lemma_result_solves(start, n2);
}

} // verus!
