use vstd::prelude::*;
use vstd::string::StringExecFns;

verus! {

/// The content of one square of a Yin-Yang board.
#[derive(Copy, Clone, Debug, PartialEq, Eq, Structural)]
pub enum Cell {
    Empty,
    Black,
    White,
}

impl Cell {
    pub fn is_empty(&self) -> (b: bool)
        ensures
            b == (*self == Cell::Empty),
    {
        match self {
            Cell::Empty => true,
            _ => false,
        }
    }
}

/// A board is a non-empty sequence of rows that all have the same non-zero length.
pub open spec fn well_shaped(g: Seq<Seq<Cell>>) -> bool {
    &&& g.len() >= 1
    &&& g[0].len() >= 1
    &&& forall|r: int| 0 <= r < g.len() ==> #[trigger] g[r].len() == g[0].len()
}

/// A rectangular board of cells.
#[derive(Debug)]
pub struct Grid {
    cells: Vec<Vec<Cell>>,
}

impl View for Grid {
    type V = Seq<Seq<Cell>>;

    closed spec fn view(&self) -> Seq<Seq<Cell>> {
        self.cells@.map_values(|row: Vec<Cell>| row@)
    }
}

impl Grid {
    #[verifier::type_invariant]
    spec fn shape_inv(&self) -> bool {
        &&& well_shaped(self@)
        &&& self@.len() <= isize::MAX
        &&& self@[0].len() <= isize::MAX
    }

    pub fn new(rows: usize, cols: usize) -> (g: Grid)
        requires
            rows > 0,
            cols > 0,
            rows <= isize::MAX,
            cols <= isize::MAX,
        ensures
            g@ == Seq::new(rows as nat, |r: int| Seq::new(cols as nat, |c: int| Cell::Empty)),
    {
        let mut cells: Vec<Vec<Cell>> = Vec::new();
        for r in 0..rows
            invariant
                cells@.len() == r,
                forall|k: int|
                    0 <= k < r ==> (#[trigger] cells@[k])@ == Seq::new(
                        cols as nat,
                        |c: int| Cell::Empty,
                    ),
        {
            let mut row: Vec<Cell> = Vec::new();
            for c in 0..cols
                invariant
                    row@ == Seq::new(c as nat, |c: int| Cell::Empty),
            {
                row.push(Cell::Empty);
                assert(row@ =~= Seq::new((c + 1) as nat, |c: int| Cell::Empty));
            }
            cells.push(row);
        }
        let g = Grid { cells };
        assert(g@ =~= Seq::new(rows as nat, |r: int| Seq::new(cols as nat, |c: int| Cell::Empty)));
        g
    }

    pub fn rows(&self) -> (n: usize)
        ensures
            n == self@.len(),
            well_shaped(self@),
            self@.len() <= isize::MAX,
            self@[0].len() <= isize::MAX,
    {
        proof {
            use_type_invariant(self);
        }
        self.cells.len()
    }

    pub fn cols(&self) -> (n: usize)
        ensures
            n == self@[0].len(),
            well_shaped(self@),
            self@.len() <= isize::MAX,
            self@[0].len() <= isize::MAX,
    {
        proof {
            use_type_invariant(self);
        }
        self.cells[0].len()
    }

    /// The cell in row `r` and column `c`.
    pub fn get(&self, r: usize, c: usize) -> (cell: Cell)
        requires
            r < self@.len(),
            c < self@[0].len(),
        ensures
            cell == self@[r as int][c as int],
    {
        proof {
            use_type_invariant(self);
        }
        self.cells[r][c]
    }

    /// Overwrites the cell in row `r` and column `c`.
    pub fn set(&mut self, r: usize, c: usize, cell: Cell)
        requires
            r < old(self)@.len(),
            c < old(self)@[0].len(),
        ensures
            final(self)@ == old(self)@.update(r as int, old(self)@[r as int].update(c as int, cell)),
    {
        proof {
            use_type_invariant(&*self);
        }
        let mut placeholder_row: Vec<Cell> = Vec::new();
        placeholder_row.push(Cell::Empty);
        let mut cells: Vec<Vec<Cell>> = Vec::new();
        cells.push(placeholder_row);
        assert(cells@.map_values(|row: Vec<Cell>| row@) =~= seq![seq![Cell::Empty]]);
        std::mem::swap(&mut cells, &mut self.cells);
        assert(cells@[r as int]@ == old(self)@[r as int]);
        cells[r][c] = cell;
        assert(cells@.map_values(|row: Vec<Cell>| row@) =~= old(self)@.update(
            r as int,
            old(self)@[r as int].update(c as int, cell),
        ));
        std::mem::swap(&mut cells, &mut self.cells);
        assert(self@ =~= old(self)@.update(r as int, old(self)@[r as int].update(c as int, cell)));
    }
}

impl Clone for Grid {
    fn clone(&self) -> (g: Self)
        ensures
            g@ == self@,
    {
        proof {
            use_type_invariant(self);
        }
        let rows = self.cells.len();
        let mut cells: Vec<Vec<Cell>> = Vec::new();
        for r in 0..rows
            invariant
                rows == self@.len(),
                cells@.len() == r,
                forall|a: int| 0 <= a < r ==> (#[trigger] cells@[a])@ == self@[a],
        {
            let width = self.cells[r].len();
            let mut row: Vec<Cell> = Vec::new();
            for c in 0..width
                invariant
                    r < rows,
                    rows == self@.len(),
                    width == self@[r as int].len(),
                    row@ == self@[r as int].take(c as int),
            {
                row.push(self.cells[r][c]);
                assert(row@ =~= self@[r as int].take(c + 1));
            }
            assert(row@ =~= self@[r as int]);
            cells.push(row);
        }
        assert(cells@.map_values(|row: Vec<Cell>| row@) =~= self@);
        Grid { cells }
    }
}

/// Whether the 2x2 block whose top-left cell is `(r, c)` is filled with one colour.
pub open spec fn solid_block(g: Seq<Seq<Cell>>, r: int, c: int) -> bool {
    &&& g[r][c] != Cell::Empty
    &&& g[r][c] == g[r][c + 1]
    &&& g[r][c] == g[r + 1][c]
    &&& g[r][c] == g[r + 1][c + 1]
}

/// Whether `(r, c)` is the top-left cell of a 2x2 block that lies inside `g`.
pub open spec fn block_in_board(g: Seq<Seq<Cell>>, r: int, c: int) -> bool {
    0 <= r && r + 1 < g.len() && 0 <= c && c + 1 < g[0].len()
}

/// The Yin-Yang rule on 2x2 blocks: no block of the board is filled with one colour.
pub open spec fn no_solid_block(g: Seq<Seq<Cell>>) -> bool {
    forall|r: int, c: int| block_in_board(g, r, c) ==> !#[trigger] solid_block(g, r, c)
}

/// The two characters that stand for a cell in the text rendering of a board.
pub open spec fn glyph(cell: Cell) -> Seq<char> {
    match cell {
        Cell::Empty => seq!['.', ' '],
        Cell::Black => seq!['B', ' '],
        Cell::White => seq!['W', ' '],
    }
}

/// The text of one row: the glyph of each cell, left to right.
pub open spec fn render_row(row: Seq<Cell>) -> Seq<char>
    decreases row.len(),
{
    if row.len() == 0 {
        Seq::empty()
    } else {
        render_row(row.drop_last()) + glyph(row.last())
    }
}

/// The text of a board: each row followed by a line break, top to bottom.
pub open spec fn render(g: Seq<Seq<Cell>>) -> Seq<char>
    decreases g.len(),
{
    if g.len() == 0 {
        Seq::empty()
    } else {
        render(g.drop_last()) + render_row(g.last()) + seq!['\n']
    }
}

/// The board whose rows are consecutive runs of `cols` cells of `cells`.
pub open spec fn board_of(cells: Seq<Cell>, cols: int) -> Seq<Seq<Cell>> {
    Seq::new((cells.len() as int / cols) as nat, |r: int| cells.subrange(r * cols, r * cols + cols))
}

/// The Yin-Yang block rule in full: a board breaks it exactly when some 2x2 block inside it has
/// four equal cells that are not empty; a block with an empty cell, or with any two cells of
/// different colours, never breaks it.
pub proof fn lemma_no_solid_block_iff(g: Seq<Seq<Cell>>)
    ensures
        no_solid_block(g) == (forall|r: int, c: int|
            #![trigger g[r][c], g[r + 1][c + 1]]
            0 <= r && r + 1 < g.len() && 0 <= c && c + 1 < g[0].len() ==> (g[r][c] == Cell::Empty
                || g[r][c] != g[r][c + 1] || g[r][c] != g[r + 1][c] || g[r][c] != g[r + 1][c + 1])),
{
    if no_solid_block(g) {
        assert forall|r: int, c: int|
            #![trigger g[r][c], g[r + 1][c + 1]]
            0 <= r && r + 1 < g.len() && 0 <= c && c + 1 < g[0].len() implies (g[r][c] == Cell::Empty
                || g[r][c] != g[r][c + 1] || g[r][c] != g[r + 1][c] || g[r][c] != g[r + 1][c + 1]) by {
            assert(block_in_board(g, r, c));
            assert(!solid_block(g, r, c));
        }
    }
    if forall|r: int, c: int|
        #![trigger g[r][c], g[r + 1][c + 1]]
        0 <= r && r + 1 < g.len() && 0 <= c && c + 1 < g[0].len() ==> (g[r][c] == Cell::Empty
            || g[r][c] != g[r][c + 1] || g[r][c] != g[r + 1][c] || g[r][c] != g[r + 1][c + 1]) {
        assert forall|r: int, c: int| block_in_board(g, r, c) implies !#[trigger] solid_block(g, r, c) by {
            assert(g[r][c] == Cell::Empty || g[r][c] != g[r][c + 1] || g[r][c] != g[r + 1][c] || g[r][c]
                != g[r + 1][c + 1]);
        }
    }
}

/// Cutting `cells` into rows of `cols` gives a board with `len / cols` rows of `cols` cells,
/// whose cell `(r, c)` is cell `r * cols + c` of the list.
pub proof fn lemma_board_of_shape(cells: Seq<Cell>, cols: int)
    requires
        cols > 0,
        cells.len() > 0,
        cells.len() as int % cols == 0,
    ensures
        well_shaped(board_of(cells, cols)),
        board_of(cells, cols).len() * cols == cells.len(),
        board_of(cells, cols)[0].len() == cols,
        forall|r: int, c: int|
            0 <= r < board_of(cells, cols).len() && 0 <= c < cols ==> #[trigger] board_of(cells, cols)[r][c]
                == cells[r * cols + c],
{
    let n = cells.len() as int;
    let rows = n / cols;
    vstd::arithmetic::div_mod::lemma_fundamental_div_mod(n, cols);
    vstd::arithmetic::mul::lemma_mul_is_commutative(rows, cols);
    assert(rows * cols == n);
    assert(rows >= 1) by (nonlinear_arith)
        requires
            rows * cols == n,
            n > 0,
            cols > 0,
    ;
    let g = board_of(cells, cols);
    assert forall|r: int| 0 <= r < rows implies #[trigger] g[r].len() == cols by {
        assert(0 <= r * cols) by (nonlinear_arith)
            requires
                r >= 0,
                cols > 0,
        ;
        assert(r * cols + cols <= rows * cols) by (nonlinear_arith)
            requires
                r < rows,
                cols > 0,
        ;
    }
    assert forall|r: int, c: int| 0 <= r < g.len() && 0 <= c < cols implies #[trigger] g[r][c]
        == cells[r * cols + c] by {
        assert(0 <= r * cols) by (nonlinear_arith)
            requires
                r >= 0,
                cols > 0,
        ;
        assert(r * cols + cols <= rows * cols) by (nonlinear_arith)
            requires
                r < rows,
                cols > 0,
        ;
    }
}

impl Grid {
    /// The board whose rows are consecutive runs of `cols` cells of `cells`.
    pub fn from_row_major(cells: &Vec<Cell>, cols: usize) -> (g: Grid)
        requires
            cols > 0,
            cells@.len() > 0,
            cells@.len() as int % (cols as int) == 0,
            cells@.len() <= isize::MAX,
        ensures
            g@ == board_of(cells@, cols as int),
    {
        let n = cells.len();
        let rows = n / cols;
        let ghost s = cells@;
        proof {
            vstd::arithmetic::div_mod::lemma_fundamental_div_mod(n as int, cols as int);
            vstd::arithmetic::mul::lemma_mul_is_commutative(rows as int, cols as int);
            assert(rows * cols == n);
            assert(rows >= 1) by (nonlinear_arith)
                requires
                    rows * cols == n,
                    n > 0,
                    cols > 0,
                    rows >= 0,
            ;
            assert(cols <= n) by (nonlinear_arith)
                requires
                    rows * cols == n,
                    rows >= 1,
                    cols > 0,
            ;
        }
        let mut board: Vec<Vec<Cell>> = Vec::new();
        let mut k: usize = 0;
        assert(0 * cols == 0) by (nonlinear_arith);
        for r in 0..rows
            invariant
                n == s.len(),
                s == cells@,
                rows * cols == n,
                rows == n / cols,
                cols > 0,
                k == r * cols,
                board@.len() == r,
                forall|a: int|
                    0 <= a < r ==> (#[trigger] board@[a])@ == s.subrange(a * cols, a * cols + cols),
        {
            proof {
                assert((r + 1) * cols <= rows * cols) by (nonlinear_arith)
                    requires
                        r < rows,
                        cols > 0,
                ;
                assert((r + 1) * cols == r * cols + cols) by (nonlinear_arith);
            }
            let mut row: Vec<Cell> = Vec::new();
            for c in 0..cols
                invariant
                    n == s.len(),
                    s == cells@,
                    k == r * cols + c,
                    k + (cols - c) <= n,
                    row@ == s.subrange(r * cols, r * cols + c),
            {
                row.push(cells[k]);
                k = k + 1;
                assert(row@ =~= s.subrange(r * cols, r * cols + c + 1));
            }
            board.push(row);
        }
        let ghost bv = board@.map_values(|row: Vec<Cell>| row@);
        proof {
            assert forall|a: int| 0 <= a < rows implies #[trigger] bv[a] == board_of(s, cols as int)[a]
                && bv[a].len() == cols by {
                assert(0 <= a * cols) by (nonlinear_arith)
                    requires
                        a >= 0,
                        cols > 0,
                ;
                assert(a * cols + cols <= rows * cols) by (nonlinear_arith)
                    requires
                        a < rows,
                        cols > 0,
                ;
                assert(board@[a]@ == s.subrange(a * cols, a * cols + cols));
            }
            assert(bv =~= board_of(s, cols as int));
            assert(bv[0].len() == cols);
        }
        let g = Grid { cells: board };
        g
    }

    /// A view of the board from row `r` down, shifted `c` columns to the right.
    pub fn subgrid<'g>(&'g self, r: usize, c: usize) -> (s: Subgrid<'g>)
        requires
            r <= self@.len(),
        ensures
            s.board() == self@,
            s.origin() == (r as int, c as int),
    {
        Subgrid { grid: self, row: r, offset: c }
    }

    /// The windows of `rows` x `cols` cells of the board, in row-major order.
    pub fn subgrids<'g>(&'g self, rows: usize, cols: usize) -> (it: Subgrids<'g>)
        ensures
            it.board() == self@,
            it.window() == (rows as int, cols as int),
            it.position() == (0int, 0int),
    {
        Subgrids { grid: self, r: 0, c: 0, rows, cols }
    }

    /// Whether no 2x2 block of the board is filled with black or with white.
    pub fn is_valid(&self) -> (b: bool)
        requires
            self@[0].len() >= 2 || self@.len() <= 2,
        ensures
            b == no_solid_block(self@),
            b == (forall|r: int, c: int|
                #![trigger self@[r][c], self@[r + 1][c + 1]]
                0 <= r && r + 1 < self@.len() && 0 <= c && c + 1 < self@[0].len() ==> (self@[r][c]
                    == Cell::Empty || self@[r][c] != self@[r][c + 1] || self@[r][c] != self@[r + 1][c]
                    || self@[r][c] != self@[r + 1][c + 1])),
    {
        proof {
            use_type_invariant(self);
            lemma_no_solid_block_iff(self@);
        }
        let ghost g = self@;
        let ghost gr = g.len() as int;
        let ghost gc = g[0].len() as int;
        let mut it = self.subgrids(2, 2);
        loop
            invariant
                it.board() == g,
                g == self@,
                gr == g.len(),
                gc == g[0].len(),
                well_shaped(g),
                gr <= isize::MAX,
                gc <= isize::MAX,
                gc >= 2 || gr <= 2,
                it.window() == (2int, 2int),
                0 <= it.position().0 <= gr,
                0 <= it.position().1 <= gc,
                gc < 2 ==> it.position() == (0int, 0int),
                forall|r: int, c: int|
                    #![trigger solid_block(g, r, c)]
                    block_in_board(g, r, c) && (r < it.position().0 || (r == it.position().0
                        && c < it.position().1)) ==> !solid_block(g, r, c),
            decreases gr - it.position().0, gc - it.position().1,
        {
            let ghost pos = it.position();
            match it.next() {
                None => {
                    assert forall|r: int, c: int| block_in_board(g, r, c) implies !#[trigger] solid_block(
                        g,
                        r,
                        c,
                    ) by {
                        assert(r < pos.0 || (r == pos.0 && c < pos.1));
                    }
                    proof {
                        lemma_no_solid_block_iff(g);
                    }
                    return true;
                },
                Some(s) => {
                    match s.as_2x2() {
                        Some(x) => {
                            if !x.is_empty() {
                                assert(solid_block(g, s.origin().0, s.origin().1));
                                proof {
                                    lemma_no_solid_block_iff(g);
                                }
                                return false;
                            }
                        },
                        None => {},
                    }
                },
            }
        }
    }

    /// The board as text: one line per row, each cell written as `.`, `B` or `W` and a space.
    pub fn to_string(&self) -> (s: String)
        ensures
            s@ == render(self@),
    {
        proof {
            use_type_invariant(self);
        }
        let ghost g = self@;
        let rows = self.rows();
        let cols = self.cols();
        let mut out = String::new();
        proof {
            reveal_strlit(". ");
            reveal_strlit("B ");
            reveal_strlit("W ");
            reveal_strlit("\n");
            assert(g.take(0) =~= Seq::<Seq<Cell>>::empty());
        }
        for r in 0..rows
            invariant
                g == self@,
                rows == g.len(),
                cols == g[0].len(),
                well_shaped(g),
                out@ == render(g.take(r as int)),
        {
            let ghost before = out@;
            for c in 0..cols
                invariant
                    g == self@,
                    rows == g.len(),
                    cols == g[0].len(),
                    well_shaped(g),
                    r < rows,
                    out@ == before + render_row(g[r as int].take(c as int)),
            {
                proof {
                    reveal_strlit(". ");
                    reveal_strlit("B ");
                    reveal_strlit("W ");
                    assert(g[r as int].len() == cols);
                    assert(g[r as int].take(c + 1).drop_last() =~= g[r as int].take(c as int));
                }
                match self.get(r, c) {
                    Cell::Empty => out.append(". "),
                    Cell::Black => out.append("B "),
                    Cell::White => out.append("W "),
                }
                assert(out@ =~= before + render_row(g[r as int].take(c + 1)));
            }
            proof {
                reveal_strlit("\n");
                assert(g[r as int].take(cols as int) =~= g[r as int]);
                assert(g.take(r + 1).drop_last() =~= g.take(r as int));
            }
            out.append("\n");
            assert(out@ =~= render(g.take(r + 1)));
        }
        assert(g.take(rows as int) =~= g);
        out
    }
}

/// A view into a board, anchored at a row and a column offset.
pub struct Subgrid<'g> {
    grid: &'g Grid,
    row: usize,
    offset: usize,
}

impl<'g> Subgrid<'g> {
    /// The board this view looks into.
    pub closed spec fn board(&self) -> Seq<Seq<Cell>> {
        self.grid@
    }

    /// The board position of the view's top-left cell.
    pub closed spec fn origin(&self) -> (int, int) {
        (self.row as int, self.offset as int)
    }

    /// The cell `r` rows below and `c` columns right of the view's origin.
    pub fn get(&self, r: usize, c: usize) -> (cell: Cell)
        requires
            self.origin().0 + r < self.board().len(),
            self.origin().1 + c < self.board()[0].len(),
        ensures
            cell == self.board()[self.origin().0 + r][self.origin().1 + c],
    {
        proof {
            use_type_invariant(self.grid);
        }
        self.grid.get(self.row + r, self.offset + c)
    }

    /// The common colour of the 2x2 block at the origin, if its four cells agree.
    fn as_2x2(&self) -> (res: Option<Cell>)
        requires
            self.origin().0 + 1 < self.board().len(),
            self.origin().1 + 1 < self.board()[0].len(),
        ensures
            ({
                let g = self.board();
                let (r, c) = self.origin();
                match res {
                    Some(x) => x == g[r][c] && g[r][c] == g[r][c + 1] && g[r][c] == g[r + 1][c]
                        && g[r][c] == g[r + 1][c + 1],
                    None => !(g[r][c] == g[r][c + 1] && g[r][c] == g[r + 1][c] && g[r][c] == g[r
                        + 1][c + 1]),
                }
            }),
    {
        let c00 = self.get(0, 0);
        let c01 = self.get(0, 1);
        let c10 = self.get(1, 0);
        let c11 = self.get(1, 1);
        if c00 == c01 && c00 == c10 && c00 == c11 {
            Some(c00)
        } else {
            None
        }
    }
}

/// Where the walk over windows goes from `(r, c)`: the window it yields, if any, and the
/// position it moves to. A window that would pass the right edge wraps to the next row.
pub open spec fn subgrids_step(
    board_rows: int,
    board_cols: int,
    rows: int,
    cols: int,
    r: int,
    c: int,
) -> (Option<(int, int)>, (int, int)) {
    let (r1, c1) = if c + cols > board_cols {
        (r + 1, 0int)
    } else {
        (r, c)
    };
    if r1 + rows > board_rows {
        (None, (r1, c1))
    } else {
        (Some((r1, c1)), (r1, c1 + 1))
    }
}

/// The sums that one step of the walk computes from `(r, c)` fit in a `usize`: the column
/// sum, and the row sum of the window's bottom edge, one row lower when the step wraps.
pub open spec fn step_in_range(board_cols: int, rows: int, cols: int, r: int, c: int) -> bool {
    &&& c + cols <= usize::MAX
    &&& c + cols > board_cols ==> r + 1 + rows <= usize::MAX
    &&& c + cols <= board_cols ==> r + rows <= usize::MAX
}

/// The windows of a board, in row-major order.
pub struct Subgrids<'g> {
    grid: &'g Grid,
    r: usize,
    c: usize,
    rows: usize,
    cols: usize,
}

impl<'g> Subgrids<'g> {
    pub closed spec fn board(&self) -> Seq<Seq<Cell>> {
        self.grid@
    }

    /// The number of rows and columns of each window.
    pub closed spec fn window(&self) -> (int, int) {
        (self.rows as int, self.cols as int)
    }

    /// Where the walk stands: the next window is looked for from here.
    pub closed spec fn position(&self) -> (int, int) {
        (self.r as int, self.c as int)
    }

    /// Yields the next window, or `None` once the windows reach past the bottom edge.
    pub fn next(&mut self) -> (res: Option<Subgrid<'g>>)
        requires
            step_in_range(
                old(self).board()[0].len() as int,
                old(self).window().0,
                old(self).window().1,
                old(self).position().0,
                old(self).position().1,
            ),
        ensures
            ({
                let g = old(self).board();
                let (w_rows, w_cols) = old(self).window();
                let (pos, c) = old(self).position();
                let step = subgrids_step(g.len() as int, g[0].len() as int, w_rows, w_cols, pos, c);
                &&& final(self).board() == g
                &&& final(self).window() == old(self).window()
                &&& final(self).position() == step.1
                &&& match res {
                    None => step.0 is None,
                    Some(s) => step.0 == Some(s.origin()) && s.board() == g,
                }
            }),
    {
        let grid_rows = self.grid.rows();
        let grid_cols = self.grid.cols();
        // wrap col to next line if needed
        if self.c + self.cols > grid_cols {
            self.c = 0;
            self.r = self.r + 1;
        }
        // end iterator if needed
        if self.r + self.rows > grid_rows {
            return None;
        }
        let subgrid = self.grid.subgrid(self.r, self.c);
        self.c = self.c + 1;
        Some(subgrid)
    }
}

/// The character that stands for a cell in the plain board listing.
pub open spec fn cell_char(cell: Cell) -> char {
    match cell {
        Cell::Empty => '.',
        Cell::Black => 'B',
        Cell::White => 'W',
    }
}

/// One row of the plain listing: the characters of the cells, separated by single spaces.
pub open spec fn ascii_row(row: Seq<Cell>) -> Seq<char>
    decreases row.len(),
{
    if row.len() == 0 {
        Seq::empty()
    } else if row.len() == 1 {
        seq![cell_char(row[0])]
    } else {
        ascii_row(row.drop_last()) + seq![' ', cell_char(row.last())]
    }
}

/// The plain listing of a board: each row followed by a line break, top to bottom.
pub open spec fn ascii_render(g: Seq<Seq<Cell>>) -> Seq<char>
    decreases g.len(),
{
    if g.len() == 0 {
        Seq::empty()
    } else {
        ascii_render(g.drop_last()) + ascii_row(g.last()) + seq!['\n']
    }
}

/// Once the walk over windows has found no window, it finds none from where it stopped either;
/// so, step after step, a walk that has ended stays ended.
pub proof fn lemma_walk_stays_finished(board_rows: int, board_cols: int, rows: int, cols: int, r: int, c: int)
    requires
        subgrids_step(board_rows, board_cols, rows, cols, r, c).0 is None,
    ensures
        ({
            let next = subgrids_step(board_rows, board_cols, rows, cols, r, c).1;
            let again = subgrids_step(board_rows, board_cols, rows, cols, next.0, next.1);
            &&& again.0 is None
            &&& again.1.0 >= next.0
        }),
{
}

impl Grid {
    /// The board as a plain listing: one line per row, the cells written as `.`, `B` or `W` and
    /// separated by single spaces.
    pub fn ascii_board(&self) -> (s: String)
        ensures
            s@ == ascii_render(self@),
    {
        proof {
            use_type_invariant(self);
        }
        let ghost g = self@;
        let rows = self.rows();
        let cols = self.cols();
        let mut out = String::new();
        proof {
            assert(g.take(0) =~= Seq::<Seq<Cell>>::empty());
        }
        for r in 0..rows
            invariant
                g == self@,
                rows == g.len(),
                cols == g[0].len(),
                well_shaped(g),
                out@ == ascii_render(g.take(r as int)),
        {
            let ghost before = out@;
            for c in 0..cols
                invariant
                    g == self@,
                    rows == g.len(),
                    cols == g[0].len(),
                    well_shaped(g),
                    r < rows,
                    out@ == before + ascii_row(g[r as int].take(c as int)),
            {
                proof {
                    reveal_strlit(" ");
                    reveal_strlit(".");
                    reveal_strlit("B");
                    reveal_strlit("W");
                    assert(g[r as int].len() == cols);
                    assert(g[r as int].take(c + 1).drop_last() =~= g[r as int].take(c as int));
                    assert(g[r as int].take(0) =~= Seq::<Cell>::empty());
                }
                if c != 0 {
                    out.append(" ");
                }
                match self.get(r, c) {
                    Cell::Empty => out.append("."),
                    Cell::Black => out.append("B"),
                    Cell::White => out.append("W"),
                }
                assert(out@ =~= before + ascii_row(g[r as int].take(c + 1)));
            }
            proof {
                reveal_strlit("\n");
                assert(g[r as int].take(cols as int) =~= g[r as int]);
                assert(g.take(r + 1).drop_last() =~= g.take(r as int));
            }
            out.append("\n");
            assert(out@ =~= ascii_render(g.take(r + 1)));
        }
        assert(g.take(rows as int) =~= g);
        out
    }
}

} // verus!
