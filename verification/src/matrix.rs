//! Read access to a rectangular board, and the board that the editor owns.

use vstd::prelude::*;

verus! {

/// The mathematical model of a board: its size and the set of its open cells.
/// A coordinate is `(x, y)`: column, then row.
pub ghost struct Layout {
    pub cols: nat,
    pub rows: nat,
    pub open: Set<(int, int)>,
}

impl Layout {
    /// The coordinate lies on the board.
    pub open spec fn in_bounds(self, x: int, y: int) -> bool {
        0 <= x < self.cols && 0 <= y < self.rows
    }

    /// The coordinate lies on the board and its cell is open.
    pub open spec fn is_open(self, x: int, y: int) -> bool {
        self.in_bounds(x, y) && self.open.contains((x, y))
    }

    /// The number of cells fits a machine word, so that a cell can be
    /// addressed by its row-major index.
    pub open spec fn indexable(self) -> bool {
        self.cols * self.rows <= usize::MAX
    }

    /// The row-major index of a coordinate.
    pub open spec fn index_of(self, x: int, y: int) -> int {
        x + self.cols * y
    }
}

/// A board that can be asked for its size and whether a cell is open.
pub trait BoolMatrix: Copy {
    /// The board as a mathematical value.
    spec fn layout(self) -> Layout;

    /// The number of rows.
    fn rows(self) -> (r: usize)
        ensures
            r == self.layout().rows,
    ;

    /// The number of columns.
    fn cols(self) -> (c: usize)
        ensures
            c == self.layout().cols,
    ;

    /// Whether the cell is open; the answer is owed on the board only.
    fn at(self, cell: (usize, usize)) -> (open: bool)
        ensures
            self.layout().in_bounds(cell.0 as int, cell.1 as int) ==> open == self.layout().is_open(
                cell.0 as int,
                cell.1 as int,
            ),
    ;
}

/// A board whose open cells are either empty (`Some(true)`) or hold content
/// (`Some(false)`); any other cell answers `None`.
pub trait TriBoolMatrix: BoolMatrix {
    /// What `maybe_at` answers for each coordinate.
    spec fn content(self, x: int, y: int) -> Option<bool>;

    /// What the cell holds; the answer is owed on the board only.
    fn maybe_at(self, cell: (usize, usize)) -> (state: Option<bool>)
        ensures
            self.layout().in_bounds(cell.0 as int, cell.1 as int) ==> state == self.content(
                cell.0 as int,
                cell.1 as int,
            ),
    ;
}

/// The number of columns of a new board.
pub const DEFAULT_WIDTH: usize = 15;

/// The number of rows of a new board.
pub const DEFAULT_HEIGHT: usize = 15;

/// An open cell of the editor's board and the letter written in it; a blank
/// stands for "no letter yet".
#[derive(Clone, Copy, Debug, PartialEq, Eq, Structural)]
pub struct Cell {
    pub letter: char,
}

impl Cell {
    /// A cell without a letter.
    pub fn new() -> (cell: Cell)
        ensures
            cell.letter == ' ',
    {
        Cell { letter: ' ' }
    }
}

/// The editor's board: a row-major vector of cells, `None` for a blocked cell.
pub struct Grid {
    cells: Vec<Option<Cell>>,
    width: usize,
}

/// A row-major index within `len` cells names a cell of the last full row or
/// an earlier one.
pub proof fn lemma_index_in_range(x: int, y: int, width: int, len: int)
    requires
        0 <= x < width,
        0 <= y < len / width,
        0 <= len,
    ensures
        0 <= y * width + x < len,
        (y * width + x) / width == y,
        (y * width + x) % width == x,
{
    assert(y * width + x < (len / width) * width && y * width >= 0) by (nonlinear_arith)
        requires
            0 <= x < width,
            0 <= y < len / width,
    ;
    assert((len / width) * width <= len) by (nonlinear_arith)
        requires
            0 < width,
            0 <= len,
    ;
    vstd::arithmetic::div_mod::lemma_fundamental_div_mod_converse(y * width + x, width, y, x);
}

impl Grid {
    /// The number of columns.
    pub closed spec fn spec_width(&self) -> nat {
        self.width as nat
    }

    /// The number of full rows.
    pub closed spec fn spec_height(&self) -> nat {
        if self.width == 0 {
            0
        } else {
            (self.cells.len() / self.width) as nat
        }
    }

    /// The cell at a coordinate of the board: `None` where it is blocked.
    pub closed spec fn spec_cell(&self, x: int, y: int) -> Option<Cell>
        recommends
            0 <= x < self.spec_width(),
            0 <= y < self.spec_height(),
    {
        self.cells[y * self.width + x]
    }

    /// The cell at any coordinate: `None` off the board too.
    pub open spec fn spec_get(&self, x: int, y: int) -> Option<Cell> {
        if 0 <= x < self.spec_width() && 0 <= y < self.spec_height() {
            self.spec_cell(x, y)
        } else {
            None
        }
    }

    /// The board as a layout: a cell is open where the board holds one.
    pub open spec fn view(&self) -> Layout {
        Layout {
            cols: self.spec_width(),
            rows: self.spec_height(),
            open: Set::new(|c: (int, int)| self.spec_get(c.0, c.1) is Some),
        }
    }

    /// The cells of a board can be addressed by their row-major index, and
    /// its sides fit a machine word.
    pub proof fn lemma_indexable(&self)
        ensures
            self@.indexable(),
            self.spec_width() <= usize::MAX,
            self.spec_height() <= usize::MAX,
    {
        let w = self.width as int;
        let len = self.cells.len() as int;
        if w > 0 {
            assert(w * (len / w) <= len) by (nonlinear_arith)
                requires
                    0 < w,
                    0 <= len,
            ;
            assert(self@.cols * self@.rows == w * (len / w));
        } else {
            assert(self@.cols == 0 && self@.rows == 0);
            assert(self@.cols * self@.rows == 0) by (nonlinear_arith)
                requires
                    self@.cols == 0,
            ;
        }
    }

    /// A board of the default size with every cell open and blank.
    pub fn new() -> (grid: Grid)
        ensures
            grid.spec_width() == DEFAULT_WIDTH,
            grid.spec_height() == DEFAULT_HEIGHT,
            forall|x: int, y: int|
                0 <= x < DEFAULT_WIDTH && 0 <= y < DEFAULT_HEIGHT ==> #[trigger] grid.spec_get(x, y)
                    == Some(Cell { letter: ' ' }),
    {
        let cells: Vec<Option<Cell>> = vec![Some(Cell::new()); 225];
        let grid = Grid { cells, width: DEFAULT_WIDTH };
        assert forall|x: int, y: int|
            0 <= x < DEFAULT_WIDTH && 0 <= y < DEFAULT_HEIGHT implies #[trigger] grid.spec_get(x, y)
            == Some(Cell { letter: ' ' }) by {
            lemma_index_in_range(x, y, 15, 225);
        }
        grid
    }

    /// A board made of the given row-major cells; `None` unless they fill
    /// whole rows of a positive width.
    pub fn from_cells(width: usize, cells: Vec<Option<Cell>>) -> (made: Option<Grid>)
        ensures
            made is Some <==> width > 0 && cells.len() % width == 0,
            made matches Some(grid) ==> {
                &&& grid.spec_width() == width
                &&& grid.spec_height() == cells.len() / width
                &&& forall|x: int, y: int|
                    0 <= x < width && 0 <= y < cells.len() / width
                        ==> #[trigger] grid.spec_get(x, y) == cells[y * width + x]
            },
    {
        if width == 0 || cells.len() % width != 0 {
            None
        } else {
            Some(Grid { cells, width })
        }
    }

    /// The cell at a coordinate, `None` off the board.
    pub fn get(&self, cell: (usize, usize)) -> (found: Option<&Option<Cell>>)
        ensures
            found is Some <==> self@.in_bounds(cell.0 as int, cell.1 as int),
            found matches Some(c) ==> *c == self.spec_get(cell.0 as int, cell.1 as int),
    {
        if self.width > 0 && cell.0 < self.width && cell.1 < self.cells.len() / self.width {
            proof {
                lemma_index_in_range(
                    cell.0 as int,
                    cell.1 as int,
                    self.width as int,
                    self.cells.len() as int,
                );
            }
            Some(&self.cells[cell.1 * self.width + cell.0])
        } else {
            None
        }
    }

    /// Replaces the cell at a coordinate of the board.
    fn put(&mut self, cell: (usize, usize), value: Option<Cell>)
        requires
            old(self)@.in_bounds(cell.0 as int, cell.1 as int),
        ensures
            final(self).spec_width() == old(self).spec_width(),
            final(self).spec_height() == old(self).spec_height(),
            forall|x: int, y: int| #[trigger]
                final(self).spec_get(x, y) == if x == cell.0 && y == cell.1 {
                    value
                } else {
                    old(self).spec_get(x, y)
                },
    {
        let ghost w = self.width as int;
        let ghost len = self.cells.len() as int;
        proof {
            lemma_index_in_range(cell.0 as int, cell.1 as int, w, len);
        }
        let i: usize = cell.1 * self.width + cell.0;
        self.cells.set(i, value);
        assert forall|x: int, y: int| #[trigger]
            self.spec_get(x, y) == if x == cell.0 && y == cell.1 {
                value
            } else {
                old(self).spec_get(x, y)
            } by {
            if 0 <= x < w && 0 <= y < len / w {
                lemma_index_in_range(x, y, w, len);
            }
        }
    }

    /// Blocks the cell (`black`), or reopens it with a blank where it was
    /// blocked; an open cell that stays open keeps its letter. Off the board
    /// nothing happens.
    pub fn black(&mut self, cell: (usize, usize), black: bool)
        ensures
            final(self).spec_width() == old(self).spec_width(),
            final(self).spec_height() == old(self).spec_height(),
            forall|x: int, y: int| #[trigger]
                final(self).spec_get(x, y) == if x == cell.0 && y == cell.1 && old(self)@.in_bounds(
                    x,
                    y,
                ) {
                    if black {
                        None
                    } else if old(self).spec_get(x, y) is None {
                        Some(Cell { letter: ' ' })
                    } else {
                        old(self).spec_get(x, y)
                    }
                } else {
                    old(self).spec_get(x, y)
                },
    {
        let current: Option<Option<Cell>> = match self.get(cell) {
            Some(c) => Some(*c),
            None => None,
        };
        if let Some(c) = current {
            let value = if black {
                None
            } else {
                match c {
                    None => Some(Cell::new()),
                    Some(kept) => Some(kept),
                }
            };
            self.put(cell, value);
        }
    }

    /// Blocks an open cell and reopens a blocked one with a blank. Off the
    /// board nothing happens.
    pub fn toggle_cell(&mut self, cell: (usize, usize))
        ensures
            final(self).spec_width() == old(self).spec_width(),
            final(self).spec_height() == old(self).spec_height(),
            forall|x: int, y: int| #[trigger]
                final(self).spec_get(x, y) == if x == cell.0 && y == cell.1 && old(self)@.in_bounds(
                    x,
                    y,
                ) {
                    if old(self).spec_get(x, y) is None {
                        Some(Cell { letter: ' ' })
                    } else {
                        None
                    }
                } else {
                    old(self).spec_get(x, y)
                },
    {
        let current: Option<Option<Cell>> = match self.get(cell) {
            Some(c) => Some(*c),
            None => None,
        };
        if let Some(c) = current {
            let value = match c {
                Some(_) => None,
                None => Some(Cell::new()),
            };
            self.put(cell, value);
        }
    }

    /// The letter of an open cell; `None` for a blocked cell and off the board.
    pub fn char_at(&self, cell: (usize, usize)) -> (letter: Option<char>)
        ensures
            letter == match self.spec_get(cell.0 as int, cell.1 as int) {
                Some(c) => Some(c.letter),
                None => None,
            },
    {
        match self.get(cell) {
            Some(Some(c)) => Some(c.letter),
            _ => None,
        }
    }

    /// Whether the board has an open cell at the coordinate.
    pub fn cell_exists(&self, cell: (usize, usize)) -> (exists: bool)
        ensures
            exists == self.spec_get(cell.0 as int, cell.1 as int) is Some,
    {
        self.char_at(cell).is_some()
    }

    /// Writes a letter into an open cell; a blocked cell and a coordinate off
    /// the board are left alone.
    pub fn set_cell(&mut self, cell: (usize, usize), letter: char)
        ensures
            final(self).spec_width() == old(self).spec_width(),
            final(self).spec_height() == old(self).spec_height(),
            forall|x: int, y: int| #[trigger]
                final(self).spec_get(x, y) == if x == cell.0 && y == cell.1 && old(self).spec_get(
                    x,
                    y,
                ) is Some {
                    Some(Cell { letter })
                } else {
                    old(self).spec_get(x, y)
                },
    {
        if self.char_at(cell).is_some() {
            self.put(cell, Some(Cell { letter }));
        }
    }
}

impl<'a> BoolMatrix for &'a Grid {
    open spec fn layout(self) -> Layout {
        self@
    }

    fn rows(self) -> (r: usize) {
        if self.width == 0 {
            0
        } else {
            self.cells.len() / self.width
        }
    }

    fn cols(self) -> (c: usize) {
        self.width
    }

    fn at(self, cell: (usize, usize)) -> (open: bool) {
        match self.get(cell) {
            Some(c) => c.is_some(),
            None => false,
        }
    }
}

impl<'a> TriBoolMatrix for &'a Grid {
    open spec fn content(self, x: int, y: int) -> Option<bool> {
        match self.spec_get(x, y) {
            Some(cell) => Some(cell.letter == ' '),
            None => None,
        }
    }

    fn maybe_at(self, cell: (usize, usize)) -> (state: Option<bool>) {
        match self.get(cell) {
            Some(Some(c)) => Some(c.letter == ' '),
            _ => None,
        }
    }
}

} // verus!
