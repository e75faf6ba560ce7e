use vstd::prelude::*;

verus! {

/// Side length of the board.
pub const N: usize = 9;

/// Number of cells on the board.
pub const CELLS: usize = 81;

/// Mathematical view of one cell.
pub enum Cell {
    Number(u16),
    Empty,
    Guesses(Seq<u16>),
    Error,
}

/// One cell of a board.
#[derive(Debug, PartialEq, Eq, Hash)]
pub enum Item {
    /// A fixed value.
    Number(u16),
    /// Nothing is known yet.
    Empty,
    /// The values still possible here, in increasing order.
    Guesses(Vec<u16>),
    /// No value is possible here.
    Error,
}

/// Where a board stands after its last deduction pass.
#[derive(Debug, Clone, Copy, PartialEq, Eq, Hash)]
pub enum SudokuState {
    /// No deduction pass has run yet.
    Unknown,
    /// Contains index for the next guess
    HaveGuesses((usize, usize)),
    /// Some cell has no possible value.
    Invalid,
    /// Every cell holds a number.
    Solved,
}

/// A 9x9 board, stored row by row.
#[derive(Debug, Eq, Hash)]
pub struct Sudoku {
    cells: Vec<Item>,
    state: SudokuState,
}

/// Mathematical view of a board: its cells row by row, and its state.
pub struct SudokuView {
    pub cells: Seq<Cell>,
    pub state: SudokuState,
}

impl View for Item {
    type V = Cell;

    open spec fn view(&self) -> Cell {
        match self {
            Item::Number(x) => Cell::Number(*x),
            Item::Empty => Cell::Empty,
            Item::Guesses(v) => Cell::Guesses(v@),
            Item::Error => Cell::Error,
        }
    }
}

impl View for Sudoku {
    type V = SudokuView;

    closed spec fn view(&self) -> SudokuView {
        SudokuView { cells: self.cells@.map_values(|it: Item| it@), state: self.state }
    }
}

/// The value of a cell, if it holds one.
pub open spec fn number_of(c: Cell) -> Option<u16> {
    match c {
        Cell::Number(x) => Some(x),
        _ => None,
    }
}

/// Index of cell (i, j) in the row-by-row order.
pub open spec fn index_of(i: int, j: int) -> int {
    9 * i + j
}

/// The cells of row `i`, left to right.
pub open spec fn row_cells(g: Seq<Cell>, i: int) -> Seq<Cell> {
    g.subrange(9 * i, 9 * i + 9)
}

/// The cells of column `j`, top to bottom.
pub open spec fn col_cells(g: Seq<Cell>, j: int) -> Seq<Cell> {
    Seq::new(9, |r: int| g[9 * r + j])
}

/// Index of the `k`-th cell of the 3x3 box that holds cell (i, j).
pub open spec fn box_index(i: int, j: int, k: int) -> int {
    9 * ((i / 3) * 3 + k / 3) + (j / 3) * 3 + k % 3
}

/// The cells of the 3x3 box that holds cell (i, j), row by row.
pub open spec fn box_cells(g: Seq<Cell>, i: int, j: int) -> Seq<Cell> {
    Seq::new(9, |k: int| g[box_index(i, j, k)])
}

/// The values held by the cells of `s`, in order.
pub open spec fn numbers(s: Seq<Cell>) -> Seq<u16>
    decreases s.len(),
{
    if s.len() == 0 {
        Seq::empty()
    } else {
        numbers(s.drop_last()) + match number_of(s.last()) {
            Some(x) => seq![x],
            None => Seq::empty(),
        }
    }
}

/// Whether `v` already stands in the row, column or box of cell (i, j).
pub open spec fn taken(g: Seq<Cell>, i: int, j: int, v: u16) -> bool {
    numbers(row_cells(g, i)).contains(v) || numbers(col_cells(g, j)).contains(v) || numbers(
        box_cells(g, i, j),
    ).contains(v)
}

/// The values among 1..=n that cell (i, j) can still take, in increasing order.
pub open spec fn free_values(g: Seq<Cell>, i: int, j: int, n: nat) -> Seq<u16>
    decreases n,
{
    if n == 0 {
        Seq::empty()
    } else {
        free_values(g, i, j, (n - 1) as nat) + if taken(g, i, j, n as u16) {
            Seq::empty()
        } else {
            seq![n as u16]
        }
    }
}

/// The candidate values of cell (i, j): those of 1..=9 not yet taken.
pub open spec fn guesses_at(g: Seq<Cell>, i: int, j: int) -> Seq<u16> {
    free_values(g, i, j, 9)
}

proof fn lemma_numbers_push(s: Seq<Cell>, c: Cell)
    ensures
        numbers(s.push(c)) == numbers(s) + match number_of(c) {
            Some(x) => seq![x],
            None => Seq::<u16>::empty(),
        },
{
    assert(s.push(c).drop_last() =~= s);
}

/// The cell that a deduction pass writes at position `p` of `g`.
pub open spec fn deduced_cell(g: Seq<Cell>, p: int) -> Cell {
    let gs = guesses_at(g, p / 9, p % 9);
    if gs.len() == 0 {
        Cell::Error
    } else if gs.len() == 1 {
        Cell::Number(gs[0])
    } else {
        Cell::Guesses(gs)
    }
}

/// The cells after a deduction pass has visited the first `k` positions of `g`,
/// in row-by-row order. A cell that holds no number is replaced by what its
/// candidates allow, given the cells as they stand at that moment.
pub open spec fn deduce(g: Seq<Cell>, k: nat) -> Seq<Cell>
    decreases k,
{
    if k == 0 {
        g
    } else {
        let h = deduce(g, (k - 1) as nat);
        if number_of(h[k - 1]) is Some {
            h
        } else {
            h.update(k - 1, deduced_cell(h, k - 1))
        }
    }
}

/// Whether one of the first `n` cells of `g` has no possible value.
pub open spec fn has_error(g: Seq<Cell>, n: nat) -> bool {
    exists|p: int| 0 <= p < n && g[p] is Error
}

/// The position of the first cell among the first `n` of `g` that holds guesses.
pub open spec fn first_guess(g: Seq<Cell>, n: nat) -> Option<int>
    decreases n,
{
    if n == 0 {
        None
    } else {
        match first_guess(g, (n - 1) as nat) {
            Some(p) => Some(p),
            None => if g[n - 1] is Guesses {
                Some(n - 1)
            } else {
                None
            },
        }
    }
}

/// The row and column of position `p`.
pub open spec fn position(p: int) -> (usize, usize) {
    ((p / 9) as usize, (p % 9) as usize)
}

/// The state that a deduction pass leaves on cells `g`.
pub open spec fn state_of(g: Seq<Cell>) -> SudokuState {
    if has_error(g, 81) {
        SudokuState::Invalid
    } else {
        match first_guess(g, 81) {
            Some(p) => SudokuState::HaveGuesses(position(p)),
            None => SudokuState::Solved,
        }
    }
}

proof fn lemma_first_guess_prefix(g1: Seq<Cell>, g2: Seq<Cell>, n: nat)
    requires
        n <= g1.len(),
        n <= g2.len(),
        forall|q: int| 0 <= q < n ==> g1[q] == g2[q],
    ensures
        first_guess(g1, n) == first_guess(g2, n),
    decreases n,
{
    if n > 0 {
        lemma_first_guess_prefix(g1, g2, (n - 1) as nat);
    }
}

pub(crate) proof fn lemma_first_guess_bounds(g: Seq<Cell>, n: nat)
    ensures
        first_guess(g, n) matches Some(p) ==> 0 <= p < n && g[p] is Guesses,
    decreases n,
{
    if n > 0 {
        lemma_first_guess_bounds(g, (n - 1) as nat);
    }
}

/// Whether positions `p` and `q` share a row, a column or a 3x3 box.
pub open spec fn same_group(p: int, q: int) -> bool {
    p / 9 == q / 9 || p % 9 == q % 9 || (p / 27 == q / 27 && (p % 9) / 3 == (q % 9) / 3)
}

/// No value stands twice in a row, a column or a box of `g`.
pub open spec fn consistent(g: Seq<Cell>) -> bool {
    forall|p: int, q: int|
        0 <= p < q < 81 && same_group(p, q) && number_of(g[p]) is Some ==> number_of(g[p])
            != number_of(g[q])
}

/// The cell that a character of a board's text stands for: a space is an
/// empty cell, a decimal digit a number.
pub open spec fn cell_of_char(c: char) -> Option<Cell> {
    if c == ' ' {
        Some(Cell::Empty)
    } else if '0' <= c <= '9' {
        Some(Cell::Number((c as u32 - '0' as u32) as u16))
    } else {
        None
    }
}

/// Reads `s` from position `k` on, with the cursor at row `i`, column `j`, onto
/// cells `g`. Lines end with a line feed, optionally preceded by a carriage
/// return. `None` where a character stands for no cell or lies outside the board.
pub open spec fn parse_from(s: Seq<char>, k: int, i: int, j: int, g: Seq<Cell>) -> Option<
    Seq<Cell>,
>
    decreases s.len() - k,
{
    if k < 0 || k >= s.len() {
        Some(g)
    } else if s[k] == '\n' {
        parse_from(s, k + 1, i + 1, 0, g)
    } else if s[k] == '\r' && k + 1 < s.len() && s[k + 1] == '\n' {
        parse_from(s, k + 1, i, j, g)
    } else {
        match cell_of_char(s[k]) {
            Some(c) => if 0 <= i < 9 && 0 <= j < 9 {
                parse_from(s, k + 1, i, j + 1, g.update(index_of(i, j), c))
            } else {
                None
            },
            None => None,
        }
    }
}

/// The cells that the text `s` describes; those it leaves out are empty.
pub open spec fn parse_board(s: Seq<char>) -> Option<Seq<Cell>> {
    parse_from(s, 0, 0, 0, Seq::new(81, |p: int| Cell::Empty))
}

fn holds_value(v: &Vec<u16>, x: u16) -> (r: bool)
    ensures
        r == v@.contains(x),
{
    let mut k: usize = 0;
    while k < v.len()
        invariant
            k <= v@.len(),
            forall|m: int| 0 <= m < k ==> v@[m] != x,
        decreases v@.len() - k,
    {
        if v[k] == x {
            return true;
        }
        k = k + 1;
    }
    false
}

impl Item {
    fn get_number(&self) -> (r: Option<u16>)
        ensures
            r == number_of(self@),
    {
        if let Item::Number(x) = self {
            Some(*x)
        } else {
            None
        }
    }

    /// Whether two cells are the same.
    pub fn same(&self, other: &Item) -> (r: bool)
        ensures
            r == (self@ == other@),
    {
        match (self, other) {
            (Item::Number(x), Item::Number(y)) => *x == *y,
            (Item::Empty, Item::Empty) => true,
            (Item::Error, Item::Error) => true,
            (Item::Guesses(v), Item::Guesses(w)) => {
                if v.len() != w.len() {
                    return false;
                }
                let mut k: usize = 0;
                while k < v.len()
                    invariant
                        k <= v@.len(),
                        v@.len() == w@.len(),
                        self@ == Cell::Guesses(v@),
                        other@ == Cell::Guesses(w@),
                        forall|m: int| 0 <= m < k ==> v@[m] == w@[m],
                    decreases v@.len() - k,
                {
                    if v[k] != w[k] {
                        assert(v@[k as int] != w@[k as int]);
                        assert(v@ != w@);
                        return false;
                    }
                    k = k + 1;
                }
                assert(v@ =~= w@);
                true
            },
            _ => false,
        }
    }
}

impl Clone for Item {
    fn clone(&self) -> (r: Item)
        ensures
            r@ == self@,
    {
        match self {
            Item::Number(x) => Item::Number(*x),
            Item::Empty => Item::Empty,
            Item::Guesses(v) => {
                let mut w: Vec<u16> = Vec::new();
                let mut k: usize = 0;
                while k < v.len()
                    invariant
                        k <= v@.len(),
                        w@ == v@.subrange(0, k as int),
                    decreases v@.len() - k,
                {
                    w.push(v[k]);
                    k = k + 1;
                    assert(w@ =~= v@.subrange(0, k as int));
                }
                assert(w@ =~= v@);
                Item::Guesses(w)
            },
            Item::Error => Item::Error,
        }
    }
}

impl Sudoku {
    /// A board holds exactly 81 cells.
    pub open spec fn wf(&self) -> bool {
        self@.cells.len() == CELLS
    }

    /// Reads a board from `text`, one line per row and one character per cell,
    /// without checking that its values are consistent.
    pub fn parse(text: &str) -> (r: Result<Sudoku, String>)
        ensures
            r is Ok <==> parse_board(text@) is Some,
            r matches Ok(b) ==> b.wf() && parse_board(text@) == Some(b@.cells) && b@.state
                == SudokuState::Unknown,
            r matches Err(e) ==> e@ == "Invalid input"@,
    {
        let mut cells: Vec<Item> = Vec::new();
        let mut p: usize = 0;
        while p < CELLS
            invariant
                p <= CELLS,
                cells@.len() == p,
                forall|q: int| 0 <= q < p ==> cells@[q]@ == Cell::Empty,
            decreases CELLS - p,
        {
            cells.push(Item::Empty);
            p = p + 1;
        }
        assert(cells@.map_values(|it: Item| it@) =~= Seq::new(81, |q: int| Cell::Empty));
        let len = text.unicode_len();
        let mut k: usize = 0;
        let mut i: usize = 0;
        let mut j: usize = 0;
        while k < len
            invariant
                len == text@.len(),
                k <= len,
                i <= k,
                j <= 9,
                cells@.len() == CELLS,
                parse_board(text@) == parse_from(
                    text@,
                    k as int,
                    i as int,
                    j as int,
                    cells@.map_values(|it: Item| it@),
                ),
            decreases len - k,
        {
            let c = text.get_char(k);
            if c == '\n' {
                i = i + 1;
                j = 0;
            } else if c == '\r' && k + 1 < len && text.get_char(k + 1) == '\n' {
            } else if c == ' ' || ('0' <= c && c <= '9') {
                if i < 9 && j < 9 {
                    let ghost before = cells@.map_values(|it: Item| it@);
                    let item = if c == ' ' {
                        Item::Empty
                    } else {
                        Item::Number((c as u32 - '0' as u32) as u16)
                    };
                    cells.set(9 * i + j, item);
                    assert(cells@.map_values(|it: Item| it@) =~= before.update(
                        index_of(i as int, j as int),
                        item@,
                    ));
                    j = j + 1;
                } else {
                    return Err("Invalid input".to_owned());
                }
            } else {
                return Err("Invalid input".to_owned());
            }
            k = k + 1;
        }
        Ok(Sudoku { cells, state: SudokuState::Unknown })
    }

    /// Reads a board from `text` and rejects it where a value stands twice in a
    /// row, a column or a box.
    pub fn from_text(text: &str) -> (r: Result<Sudoku, String>)
        ensures
            r is Ok <==> (parse_board(text@) matches Some(g) && consistent(g)),
            r matches Ok(b) ==> b.wf() && parse_board(text@) == Some(b@.cells) && b@.state
                == SudokuState::Unknown,
            r matches Err(e) ==> (e@ == (if parse_board(text@) is Some {
                "Invalid board"@
            } else {
                "Invalid input"@
            })),
    {
        let board = Sudoku::parse(text)?;
        if board.is_valid() {
            Ok(board)
        } else {
            Err("Invalid board".to_owned())
        }
    }

    fn is_valid(&self) -> (r: bool)
        requires
            self.wf(),
        ensures
            r == consistent(self@.cells),
    {
        let mut p: usize = 0;
        while p < CELLS
            invariant
                p <= CELLS,
                self.wf(),
                forall|a: int, b: int|
                    0 <= a < p && a < b < 81 && same_group(a, b) && number_of(self@.cells[a]) is Some
                        ==> number_of(self@.cells[a]) != number_of(self@.cells[b]),
            decreases CELLS - p,
        {
            if let Some(x) = self.cells[p].get_number() {
                let mut q: usize = p + 1;
                while q < CELLS
                    invariant
                        p < q <= CELLS,
                        self.wf(),
                        number_of(self@.cells[p as int]) == Some(x),
                        forall|b: int|
                            p < b < q && same_group(p as int, b) ==> number_of(self@.cells[b]) != Some(
                                x,
                            ),
                    decreases CELLS - q,
                {
                    let shared = p / 9 == q / 9 || p % 9 == q % 9 || (p / 27 == q / 27 && (p % 9) / 3
                        == (q % 9) / 3);
                    if shared {
                        if let Some(y) = self.cells[q].get_number() {
                            if x == y {
                                assert(same_group(p as int, q as int));
                                assert(!consistent(self@.cells));
                                return false;
                            }
                        }
                    }
                    q = q + 1;
                }
            }
            p = p + 1;
        }
        true
    }

    /// Whether the last deduction pass found every cell filled.
    pub fn is_solved(&self) -> (r: bool)
        ensures
            r == (self@.state == SudokuState::Solved),
    {
        matches!(self.state, SudokuState::Solved)
    }

    /// The state that the last deduction pass left.
    pub fn state(&self) -> (r: SudokuState)
        ensures
            r == self@.state,
    {
        self.state
    }

    /// The cell at row `i`, column `j`.
    pub fn get(&self, i: usize, j: usize) -> (r: &Item)
        requires
            self.wf(),
            i < N,
            j < N,
        ensures
            r@ == self@.cells[index_of(i as int, j as int)],
    {
        &self.cells[9 * i + j]
    }

    /// Writes `number` into the cell at row `i`, column `j`.
    pub fn set(&mut self, i: usize, j: usize, number: u16)
        requires
            old(self).wf(),
            i < N,
            j < N,
        ensures
            final(self)@.cells == old(self)@.cells.update(
                index_of(i as int, j as int),
                Cell::Number(number),
            ),
            final(self)@.state == old(self)@.state,
            final(self).wf(),
    {
        self.cells.set(9 * i + j, Item::Number(number));
        assert(self@.cells =~= old(self)@.cells.update(
            index_of(i as int, j as int),
            Cell::Number(number),
        ));
    }

    /// The numbers of row `i`, left to right.
    pub fn get_row_values(&self, i: usize) -> (r: Vec<u16>)
        requires
            self.wf(),
            i < N,
        ensures
            r@ == numbers(row_cells(self@.cells, i as int)),
    {
        let ghost row = row_cells(self@.cells, i as int);
        let mut r: Vec<u16> = Vec::new();
        let mut j: usize = 0;
        while j < N
            invariant
                i < N,
                j <= N,
                self.cells@.len() == CELLS,
                row == row_cells(self@.cells, i as int),
                r@ == numbers(row.subrange(0, j as int)),
            decreases N - j,
        {
            proof {
                assert(row.subrange(0, j + 1) =~= row.subrange(0, j as int).push(row[j as int]));
                lemma_numbers_push(row.subrange(0, j as int), row[j as int]);
            }
            if let Some(x) = self.cells[9 * i + j].get_number() {
                r.push(x);
            }
            j = j + 1;
        }
        assert(row.subrange(0, 9) =~= row);
        r
    }

    /// The numbers of column `j`, top to bottom.
    pub fn get_col_values(&self, j: usize) -> (r: Vec<u16>)
        requires
            self.wf(),
            j < N,
        ensures
            r@ == numbers(col_cells(self@.cells, j as int)),
    {
        let ghost col = col_cells(self@.cells, j as int);
        let mut r: Vec<u16> = Vec::new();
        let mut i: usize = 0;
        while i < N
            invariant
                i <= N,
                j < N,
                self.cells@.len() == CELLS,
                col == col_cells(self@.cells, j as int),
                r@ == numbers(col.subrange(0, i as int)),
            decreases N - i,
        {
            proof {
                assert(col.subrange(0, i + 1) =~= col.subrange(0, i as int).push(col[i as int]));
                lemma_numbers_push(col.subrange(0, i as int), col[i as int]);
            }
            if let Some(x) = self.cells[9 * i + j].get_number() {
                r.push(x);
            }
            i = i + 1;
        }
        assert(col.subrange(0, 9) =~= col);
        r
    }

    /// The numbers of the 3x3 box that holds cell (i, j), row by row.
    pub fn get_square_values(&self, i: usize, j: usize) -> (r: Vec<u16>)
        requires
            self.wf(),
            i < N,
            j < N,
        ensures
            r@ == numbers(box_cells(self@.cells, i as int, j as int)),
    {
        let ghost sq = box_cells(self@.cells, i as int, j as int);
        let i0: usize = (i / 3) * 3;
        let j0: usize = (j / 3) * 3;
        let mut r: Vec<u16> = Vec::new();
        let mut k: usize = 0;
        while k < N
            invariant
                k <= N,
                i < N,
                j < N,
                i0 == (i / 3) * 3,
                j0 == (j / 3) * 3,
                self.cells@.len() == CELLS,
                sq == box_cells(self@.cells, i as int, j as int),
                r@ == numbers(sq.subrange(0, k as int)),
            decreases N - k,
        {
            proof {
                assert(sq.subrange(0, k + 1) =~= sq.subrange(0, k as int).push(sq[k as int]));
                lemma_numbers_push(sq.subrange(0, k as int), sq[k as int]);
            }
            let p: usize = 9 * (i0 + k / 3) + j0 + k % 3;
            assert(p == box_index(i as int, j as int, k as int));
            if let Some(x) = self.cells[p].get_number() {
                r.push(x);
            }
            k = k + 1;
        }
        assert(sq.subrange(0, 9) =~= sq);
        r
    }
    /// The values of 1..=9 that stand nowhere in the row, column or box of
    /// cell (i, j), in increasing order.
    pub fn get_guesses(&self, i: usize, j: usize) -> (r: Vec<u16>)
        requires
            self.wf(),
            i < N,
            j < N,
        ensures
            r@ == guesses_at(self@.cells, i as int, j as int),
    {
        let row = self.get_row_values(i);
        let col = self.get_col_values(j);
        let sq = self.get_square_values(i, j);
        let mut r: Vec<u16> = Vec::new();
        let mut v: u16 = 1;
        while v <= 9
            invariant
                1 <= v <= 10,
                row@ == numbers(row_cells(self@.cells, i as int)),
                col@ == numbers(col_cells(self@.cells, j as int)),
                sq@ == numbers(box_cells(self@.cells, i as int, j as int)),
                r@ == free_values(self@.cells, i as int, j as int, (v - 1) as nat),
            decreases 10 - v,
        {
            if !holds_value(&row, v) && !holds_value(&col, v) && !holds_value(&sq, v) {
                r.push(v);
            }
            v = v + 1;
        }
        r
    }
    /// One deduction pass: visits the cells in row-by-row order and replaces
    /// each that holds no number by its single candidate, by its candidates, or
    /// by an error where it has none, each time given the cells as they stand.
    /// The state then says whether some cell has no candidate, else which cell
    /// with guesses comes first, else that the board is solved.
    pub fn compute_guesses(&mut self)
        requires
            old(self).wf(),
        ensures
            final(self).wf(),
            final(self)@.cells == deduce(old(self)@.cells, 81),
            final(self)@.state == state_of(final(self)@.cells),
    {
        let ghost g0 = self@.cells;
        let mut invalid = false;
        let mut first: Option<(usize, usize)> = None;
        let mut p: usize = 0;
        while p < CELLS
            invariant
                p <= CELLS,
                self.wf(),
                self@.cells == deduce(g0, p as nat),
                invalid == has_error(self@.cells, p as nat),
                first == match first_guess(self@.cells, p as nat) {
                    Some(q) => Some(position(q)),
                    None => None,
                },
            decreases CELLS - p,
        {
            let ghost h = self@.cells;
            proof {
                lemma_first_guess_bounds(h, p as nat);
            }
            let i: usize = p / 9;
            let j: usize = p % 9;
            assert(index_of(i as int, j as int) == p);
            if self.cells[p].get_number().is_none() {
                let gs = self.get_guesses(i, j);
                let n: usize = gs.len();
                if n == 0 {
                    invalid = true;
                    self.cells.set(p, Item::Error);
                } else if n == 1 {
                    let x: u16 = gs[0];
                    self.cells.set(p, Item::Number(x));
                } else {
                    if first.is_none() {
                        first = Some((i, j));
                    }
                    self.cells.set(p, Item::Guesses(gs));
                }
                assert(self@.cells =~= h.update(p as int, deduced_cell(h, p as int)));
                proof {
                    lemma_first_guess_prefix(h, self@.cells, p as nat);
                }
            }
            proof {
                let g2 = self@.cells;
                assert(forall|q: int| 0 <= q < p ==> g2[q] == h[q]);
                if has_error(h, p as nat) {
                    let q = choose|q: int| 0 <= q < p && h[q] is Error;
                    assert(g2[q] is Error);
                }
                if g2[p as int] is Error {
                    assert(0 <= p < p + 1 && g2[p as int] is Error);
                }
                if has_error(g2, (p + 1) as nat) {
                    let q = choose|q: int| 0 <= q < p + 1 && g2[q] is Error;
                    if q < p {
                        assert(h[q] is Error);
                    }
                }
            }
            p = p + 1;
        }
        if invalid {
            self.state = SudokuState::Invalid;
        } else if let Some(idx) = first {
            self.state = SudokuState::HaveGuesses(idx);
        } else {
            self.state = SudokuState::Solved;
        }
        assert(self@.cells == deduce(g0, 81));
    }
}

impl Clone for Sudoku {
    fn clone(&self) -> (r: Sudoku)
        ensures
            r@ == self@,
            r.wf() == self.wf(),
    {
        let mut cells: Vec<Item> = Vec::new();
        let mut k: usize = 0;
        while k < self.cells.len()
            invariant
                k <= self.cells@.len(),
                cells@.len() == k,
                forall|m: int| 0 <= m < k ==> cells@[m]@ == self.cells@[m]@,
            decreases self.cells@.len() - k,
        {
            cells.push(self.cells[k].clone());
            k = k + 1;
        }
        let r = Sudoku { cells, state: self.state };
        assert(r@.cells =~= self@.cells);
        r
    }
}

impl PartialEq for Sudoku {
    fn eq(&self, other: &Sudoku) -> (r: bool) {
        let same_state = match (self.state, other.state) {
            (SudokuState::Unknown, SudokuState::Unknown) => true,
            (SudokuState::HaveGuesses((a, b)), SudokuState::HaveGuesses((c, d))) => a == c && b
                == d,
            (SudokuState::Invalid, SudokuState::Invalid) => true,
            (SudokuState::Solved, SudokuState::Solved) => true,
            _ => false,
        };
        if !same_state {
            assert(self@.state != other@.state);
            return false;
        }
        if self.cells.len() != other.cells.len() {
            assert(self@.cells.len() != other@.cells.len());
            return false;
        }
        let mut k: usize = 0;
        while k < self.cells.len()
            invariant
                k <= self.cells@.len(),
                self.cells@.len() == other.cells@.len(),
                forall|m: int| 0 <= m < k ==> self.cells@[m]@ == other.cells@[m]@,
            decreases self.cells@.len() - k,
        {
            if !self.cells[k].same(&other.cells[k]) {
                assert(self@.cells[k as int] != other@.cells[k as int]);
                return false;
            }
            k = k + 1;
        }
        assert(self@.cells =~= other@.cells);
        true
    }
}

impl vstd::std_specs::cmp::PartialEqSpecImpl for Sudoku {
    open spec fn obeys_eq_spec() -> bool {
        true
    }

    open spec fn eq_spec(&self, other: &Sudoku) -> bool {
        self@ == other@
    }
}

} // verus!
