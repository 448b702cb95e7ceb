//! The mathematical model of a layout under synthesis.

use crate::cell::{Cell, Direction, Symmetry};
use crate::matrix::Layout;
use crate::runs::{cell_after, covers, Run};
use vstd::prelude::*;

verus! {

/// A layout under synthesis: its size, the symmetry it keeps, and its cells in
/// row-major order.
pub ghost struct Board {
    pub width: nat,
    pub height: nat,
    pub symmetry: Symmetry,
    pub cells: Seq<Cell>,
}

impl Board {
    /// The cells fill the rows of a board with at least one column.
    pub open spec fn wf(self) -> bool {
        self.width > 0 && self.cells.len() == self.width * self.height
    }

    /// The coordinate lies on the board.
    pub open spec fn in_bounds(self, x: int, y: int) -> bool {
        0 <= x < self.width && 0 <= y < self.height
    }

    /// The row-major index of a coordinate.
    pub open spec fn index(self, x: int, y: int) -> int {
        y * self.width + x
    }

    /// The cell at a coordinate, `None` off the board.
    pub open spec fn get(self, x: int, y: int) -> Option<Cell> {
        if self.in_bounds(x, y) {
            Some(self.cells[self.index(x, y)])
        } else {
            None
        }
    }

    /// The board with one cell replaced; unchanged for a coordinate off the
    /// board.
    pub open spec fn with_cell(self, x: int, y: int, cell: Cell) -> Board {
        if self.in_bounds(x, y) {
            Board { cells: self.cells.update(self.index(x, y), cell), ..self }
        } else {
            self
        }
    }

    /// The open cells of the board: those that are white.
    pub open spec fn layout(self) -> Layout {
        Layout {
            cols: self.width,
            rows: self.height,
            open: Set::new(|c: (int, int)| self.get(c.0, c.1) matches Some(Cell::White { .. })),
        }
    }

    /// What a new block does to a cell that lies `(dx, dy)` from it, when the
    /// walk away from the block covers `n` steps: the block's own cell turns
    /// black, and a cell right next to it loses the flag of the side on which
    /// the block stands. Cells further away are passed over.
    pub open spec fn struck(cell: Cell, dx: int, dy: int, n: int) -> Cell {
        if dx == 0 && dy == 0 {
            Cell::Black
        } else if n < 1 {
            cell
        } else if dx == -1 && dy == 0 {
            cell.with_flag(Direction::Right, false)
        } else if dx == 1 && dy == 0 {
            cell.with_flag(Direction::Left, false)
        } else if dx == 0 && dy == 1 {
            cell.with_flag(Direction::Up, false)
        } else if dx == 0 && dy == -1 {
            cell.with_flag(Direction::Down, false)
        } else {
            cell
        }
    }

    /// The board after a block is placed at `(x, y)`, which may lie off the
    /// board, with a walk of `n` steps.
    pub open spec fn blocked(self, x: int, y: int, n: int) -> Board {
        Board {
            cells: Seq::new(
                self.cells.len(),
                |i: int|
                    Board::struck(
                        self.cells[i],
                        i % (self.width as int) - x,
                        i / (self.width as int) - y,
                        n,
                    ),
            ),
            ..self
        }
    }

    /// The board after the walk from a block at `(x, y)` in one direction:
    /// the cell one step away loses the flag that faces the block.
    pub open spec fn nudged(self, x: int, y: int, dir: Direction, n: int) -> Board {
        let cx = x + dir.delta().0;
        let cy = y + dir.delta().1;
        if n >= 1 && self.in_bounds(cx, cy) {
            self.with_cell(
                cx,
                cy,
                self.cells[self.index(cx, cy)].with_flag(dir.spec_opposite(), false),
            )
        } else {
            self
        }
    }

    /// The board after the cell at `(x, y)` is marked as one that must stay
    /// open.
    pub open spec fn reserved(self, x: int, y: int) -> Board {
        if self.in_bounds(x, y) {
            self.with_cell(x, y, self.cells[self.index(x, y)].as_reserved())
        } else {
            self
        }
    }

    /// Every index of a well-formed board is the index of one coordinate.
    pub proof fn lemma_coordinates(self, i: int)
        requires
            self.wf(),
            0 <= i < self.cells.len(),
        ensures
            self.in_bounds(i % (self.width as int), i / (self.width as int)),
            self.index(i % (self.width as int), i / (self.width as int)) == i,
    {
        let w = self.width as int;
        let h = self.height as int;
        vstd::arithmetic::div_mod::lemma_fundamental_div_mod(i, w);
        assert(i / w < h) by (nonlinear_arith)
            requires
                i < w * h,
                w > 0,
                i == w * (i / w) + i % w,
                0 <= i % w,
        ;
        assert(i / w >= 0) by (nonlinear_arith)
            requires
                0 <= i,
                w > 0,
        ;
        assert((i / w) * w == w * (i / w)) by (nonlinear_arith);
    }

    /// Every coordinate of a well-formed board has an index of its own.
    pub proof fn lemma_index(self, x: int, y: int)
        requires
            self.wf(),
            self.in_bounds(x, y),
        ensures
            0 <= self.index(x, y) < self.cells.len(),
            self.index(x, y) % (self.width as int) == x,
            self.index(x, y) / (self.width as int) == y,
    {
        let w = self.width as int;
        let h = self.height as int;
        assert(y * w + x < w * h && y * w >= 0) by (nonlinear_arith)
            requires
                0 <= x < w,
                0 <= y < h,
        ;
        vstd::arithmetic::div_mod::lemma_fundamental_div_mod_converse(y * w + x, w, y, x);
    }

    /// Placing a block is turning its cell black and then walking away from
    /// it to the left, to the right, down and up.
    pub proof fn lemma_blocked_in_steps(self, x: int, y: int, n: int)
        requires
            self.wf(),
        ensures
            self.with_cell(x, y, Cell::Black).nudged(x, y, Direction::Left, n).nudged(
                x,
                y,
                Direction::Right,
                n,
            ).nudged(x, y, Direction::Down, n).nudged(x, y, Direction::Up, n) == self.blocked(
                x,
                y,
                n,
            ),
    {
        let b1 = self.with_cell(x, y, Cell::Black);
        let b2 = b1.nudged(x, y, Direction::Left, n);
        let b3 = b2.nudged(x, y, Direction::Right, n);
        let b4 = b3.nudged(x, y, Direction::Down, n);
        let b5 = b4.nudged(x, y, Direction::Up, n);
        let goal = self.blocked(x, y, n);
        if self.in_bounds(x, y) {
            self.lemma_index(x, y);
        }
        if self.in_bounds(x - 1, y) {
            self.lemma_index(x - 1, y);
        }
        if self.in_bounds(x + 1, y) {
            self.lemma_index(x + 1, y);
        }
        if self.in_bounds(x, y + 1) {
            self.lemma_index(x, y + 1);
        }
        if self.in_bounds(x, y - 1) {
            self.lemma_index(x, y - 1);
        }
        assert(b5.cells.len() == goal.cells.len());
        assert forall|i: int| 0 <= i < goal.cells.len() implies b5.cells[i] == goal.cells[i] by {
            self.lemma_coordinates(i);
        }
        assert(b5.cells =~= goal.cells);
    }
}

/// Two different coordinates lie in one row or one column, fewer than three
/// steps apart.
pub open spec fn close(a: (int, int), b: (int, int)) -> bool {
    &&& a != b
    &&& (a.0 == b.0 && -3 < a.1 - b.1 < 3) || (a.1 == b.1 && -3 < a.0 - b.0 < 3)
}

/// Some two of the coordinates are close to each other.
pub open spec fn crowded(coords: Seq<(int, int)>) -> bool {
    exists|i: int, j: int|
        0 <= i < coords.len() && 0 <= j < coords.len() && close(
            #[trigger] coords[i],
            #[trigger] coords[j],
        )
}

/// Machine coordinates as mathematical ones.
pub open spec fn points(coords: Seq<(isize, isize)>) -> Seq<(int, int)> {
    Seq::new(coords.len(), |i: int| (coords[i].0 as int, coords[i].1 as int))
}

impl Board {
    /// The coordinates that share the fate of `(x, y)` under the board's
    /// symmetry, `(x, y)` first and none of them twice.
    pub open spec fn orbit(self, x: int, y: int) -> Seq<(int, int)> {
        let mx = self.width - x - 1;
        let my = self.height - y - 1;
        match self.symmetry {
            Symmetry::NoSymmetry => seq![(x, y)],
            Symmetry::Point => if mx == x && my == y {
                seq![(x, y)]
            } else {
                seq![(x, y), (mx, my)]
            },
            Symmetry::Quarter => if mx == x && my == y {
                seq![(x, y)]
            } else if mx == x {
                seq![(x, y), (x, my)]
            } else if my == y {
                seq![(x, y), (mx, y)]
            } else {
                seq![(x, y), (mx, my), (x, my), (mx, y)]
            },
        }
    }

    /// The board after a block is placed at each of the coordinates in turn.
    pub open spec fn blocked_all(self, coords: Seq<(int, int)>, n: int) -> Board
        decreases coords.len(),
    {
        if coords.len() == 0 {
            self
        } else {
            self.blocked_all(coords.drop_last(), n).blocked(coords.last().0, coords.last().1, n)
        }
    }

    /// The board after blocks are placed on the whole orbit of `(x, y)`.
    pub open spec fn placed(self, x: int, y: int) -> Board {
        self.blocked_all(self.orbit(x, y), 3)
    }

    /// Every one of the coordinates that lies on the board may take a block.
    pub open spec fn all_placeable(self, coords: Seq<(int, int)>) -> bool {
        forall|i: int|
            0 <= i < coords.len() ==> (self.get((#[trigger] coords[i]).0, coords[i].1) matches Some(
                cell,
            ) ==> cell.placeable())
    }

    /// A block may be placed at `(x, y)`: every cell of its orbit may take
    /// one, and no two cells of the orbit are close to each other.
    pub open spec fn can_take(self, x: int, y: int) -> bool {
        !crowded(self.orbit(x, y)) && self.all_placeable(self.orbit(x, y))
    }

    /// The cells of a run, first to last.
    pub open spec fn cells_of(r: Run) -> Seq<(int, int)> {
        Seq::new(r.2 as nat, |k: int| cell_after(r.0 as int, r.1 as int, r.3, k))
    }

    /// The test that picks the coordinates at which a block may be placed.
    pub open spec fn takes(self) -> spec_fn((int, int)) -> bool {
        |c: (int, int)| self.can_take(c.0, c.1)
    }

    /// The cells of a run at which a block may be placed, first to last.
    pub open spec fn candidates(self, r: Run) -> Seq<(int, int)> {
        Board::cells_of(r).filter(self.takes())
    }

    /// One placement step can lead from this board to `next` by a block in
    /// the run `r`: `next` is this board with blocks on the orbit of one of
    /// the run's candidates. The step takes the longest run first and passes
    /// over a run only if it has at most three candidates, so every longer
    /// run has that few.
    pub open spec fn picks(self, r: Run, next: Board) -> bool {
        &&& self.layout().is_run(r)
        &&& exists|k: int|
            0 <= k < self.candidates(r).len() && next == self.placed(
                (#[trigger] self.candidates(r)[k]).0,
                self.candidates(r)[k].1,
            )
        &&& forall|q: Run|
            #![trigger self.candidates(q)]
            self.layout().is_run(q) && q.2 > r.2 ==> self.candidates(q).len() <= 3
    }

    /// One placement step can lead from this board to `next`.
    pub open spec fn step(self, next: Board) -> bool {
        exists|r: Run| self.picks(r, next)
    }

    /// No run of the board has a candidate: no placement step can succeed.
    pub open spec fn stuck(self) -> bool {
        forall|r: Run| self.layout().is_run(r) ==> (#[trigger] self.candidates(r)).len() == 0
    }

    /// Some run of the board has more than three candidates: a placement step
    /// succeeds whatever the random source hands out.
    pub open spec fn has_room(self) -> bool {
        exists|r: Run| self.layout().is_run(r) && (#[trigger] self.candidates(r)).len() > 3
    }

    /// `n` placement steps can lead from this board to `next`.
    pub open spec fn reaches(self, next: Board, n: nat) -> bool
        decreases n,
    {
        if n == 0 {
            next == self
        } else {
            exists|mid: Board| self.reaches(mid, (n - 1) as nat) && #[trigger] mid.step(next)
        }
    }

    /// A candidate of a run is one of its cells, lies on the board, and may
    /// take a block.
    pub proof fn lemma_candidate(self, r: Run, k: int)
        requires
            self.layout().is_run(r),
            0 <= k < self.candidates(r).len(),
        ensures
            covers(r, self.candidates(r)[k].0, self.candidates(r)[k].1),
            self.in_bounds(self.candidates(r)[k].0, self.candidates(r)[k].1),
            self.can_take(self.candidates(r)[k].0, self.candidates(r)[k].1),
    {
        let cells = Board::cells_of(r);
        let c = self.candidates(r)[k];
        cells.lemma_filter_pred(self.takes(), k);
        assert(self.candidates(r).contains(c));
        cells.lemma_filter_contains_rev(self.takes(), c);
        let i = choose|i: int| 0 <= i < cells.len() && cells[i] == c;
        assert(cell_after(r.0 as int, r.1 as int, r.3, i) == c);
        self.layout().lemma_run_shape(r);
        assert(self.layout().is_open(c.0, c.1));
    }
}

impl Board {
    /// Whether the cell is one that must stay open.
    pub open spec fn is_reserved(cell: Cell) -> bool {
        cell matches Cell::White { reserved, .. } && reserved
    }

    /// The indices of the white cells.
    pub open spec fn whites(self) -> Set<int> {
        Set::new(|i: int| 0 <= i < self.cells.len() && self.cells[i] is White)
    }

    /// The number of white cells.
    pub open spec fn open_count(self) -> nat {
        self.whites().len()
    }

    /// `next` is a later state of this board in one synthesis pass: the size
    /// and the symmetry are the same, every black cell is still black, and
    /// every white cell that is still white is reserved as before.
    pub open spec fn precedes(self, next: Board) -> bool {
        &&& next.width == self.width
        &&& next.height == self.height
        &&& next.symmetry == self.symmetry
        &&& next.cells.len() == self.cells.len()
        &&& forall|i: int|
            0 <= i < self.cells.len() && self.cells[i] is Black ==> #[trigger] next.cells[i]
                is Black
        &&& forall|i: int|
            0 <= i < self.cells.len() && #[trigger] next.cells[i] is White ==> Board::is_reserved(
                next.cells[i],
            ) == Board::is_reserved(self.cells[i])
    }

    /// `next` is a later state in which every reserved cell is still white.
    pub open spec fn precedes_keeping(self, next: Board) -> bool {
        &&& self.precedes(next)
        &&& forall|i: int|
            0 <= i < self.cells.len() && Board::is_reserved(self.cells[i])
                ==> #[trigger] next.cells[i] is White
    }

    /// After blocks are placed at some coordinates, the black cells are those
    /// that were black and those at the coordinates, and no other cell has
    /// changed but in its flags.
    pub proof fn lemma_blocked_all(self, coords: Seq<(int, int)>, n: int)
        requires
            self.wf(),
        ensures
            self.blocked_all(coords, n).wf(),
            self.precedes(self.blocked_all(coords, n)),
            forall|i: int|
                0 <= i < self.cells.len() ==> (#[trigger] self.blocked_all(coords, n).cells[i]
                    is Black <==> self.cells[i] is Black || coords.contains(
                    (i % (self.width as int), i / (self.width as int)),
                )),
        decreases coords.len(),
    {
        let w = self.width as int;
        if coords.len() > 0 {
            let front = coords.drop_last();
            let last = coords.last();
            let mid = self.blocked_all(front, n);
            let end = mid.blocked(last.0, last.1, n);
            self.lemma_blocked_all(front, n);
            assert forall|i: int| 0 <= i < self.cells.len() implies (#[trigger] end.cells[i]
                is Black <==> self.cells[i] is Black || coords.contains((i % w, i / w))) by {
                let c = (i % w, i / w);
                if front.contains(c) {
                    let k = choose|k: int| 0 <= k < front.len() && front[k] == c;
                    assert(coords[k] == c);
                }
                if c == last {
                    assert(coords[coords.len() - 1] == c);
                }
                if coords.contains(c) {
                    let k = choose|k: int| 0 <= k < coords.len() && coords[k] == c;
                    if k < front.len() {
                        assert(front[k] == c);
                    }
                }
                assert(mid.cells[i] is Black <==> self.cells[i] is Black || front.contains(c));
            }
            assert forall|i: int|
                0 <= i < self.cells.len() && self.cells[i] is Black implies #[trigger] end.cells[i]
                is Black by {
                assert(mid.cells[i] is Black);
            }
            assert forall|i: int|
                0 <= i < self.cells.len() && #[trigger] end.cells[i]
                    is White implies Board::is_reserved(end.cells[i]) == Board::is_reserved(
                self.cells[i],
            ) by {
                assert(mid.cells[i] is White);
            }
        }
    }

    /// The coordinates of an orbit lie on the board when the first one does.
    pub proof fn lemma_orbit_on_board(self, x: int, y: int)
        requires
            self.in_bounds(x, y),
        ensures
            self.orbit(x, y).len() >= 1,
            self.orbit(x, y)[0] == (x, y),
            forall|k: int|
                0 <= k < self.orbit(x, y).len() ==> self.in_bounds(
                    (#[trigger] self.orbit(x, y)[k]).0,
                    self.orbit(x, y)[k].1,
                ),
    {
    }

    /// Symmetry closure: after a placement at `(x, y)` every cell of its
    /// orbit is black. Under the point symmetry these are `(x, y)` and its
    /// image under the half turn.
    pub proof fn lemma_placed_orbit(self, x: int, y: int)
        requires
            self.wf(),
            self.in_bounds(x, y),
        ensures
            forall|k: int|
                0 <= k < self.orbit(x, y).len() ==> self.placed(x, y).get(
                    (#[trigger] self.orbit(x, y)[k]).0,
                    self.orbit(x, y)[k].1,
                ) == Some(Cell::Black),
            self.placed(x, y).get(x, y) == Some(Cell::Black),
            self.symmetry is Point ==> self.placed(x, y).get(
                self.width - 1 - x,
                self.height - 1 - y,
            ) == Some(Cell::Black),
    {
        let orbit = self.orbit(x, y);
        let next = self.placed(x, y);
        self.lemma_blocked_all(orbit, 3);
        self.lemma_orbit_on_board(x, y);
        assert forall|k: int| 0 <= k < orbit.len() implies next.get(
            (#[trigger] orbit[k]).0,
            orbit[k].1,
        ) == Some(Cell::Black) by {
            let c = orbit[k];
            self.lemma_index(c.0, c.1);
            assert(orbit.contains(c));
            assert(next.cells[self.index(c.0, c.1)] is Black);
        }
        assert(orbit[0] == (x, y));
        if self.symmetry is Point {
            if self.width - 1 - x == x && self.height - 1 - y == y {
            } else {
                assert(orbit[1] == (self.width - 1 - x, self.height - 1 - y));
            }
        }
    }

    /// The centre of a board with an odd number of columns and of rows is its
    /// own image under the point symmetry: its orbit has one cell.
    pub proof fn lemma_centre_orbit(self)
        requires
            self.symmetry is Point,
            self.width % 2 == 1,
            self.height % 2 == 1,
        ensures
            self.orbit((self.width - 1) / 2, (self.height - 1) / 2) == seq![
                ((self.width - 1) / 2, (self.height - 1) / 2),
            ],
    {
    }

    /// A placement step leads to a later state with fewer white cells in
    /// which every reserved cell is still white.
    pub proof fn lemma_step(self, next: Board)
        requires
            self.wf(),
            self.step(next),
        ensures
            next.wf(),
            self.precedes_keeping(next),
            next.open_count() < self.open_count(),
    {
        let r = choose|r: Run| self.picks(r, next);
        let k = choose|k: int|
            0 <= k < self.candidates(r).len() && next == self.placed(
                (#[trigger] self.candidates(r)[k]).0,
                self.candidates(r)[k].1,
            );
        let c = self.candidates(r)[k];
        let orbit = self.orbit(c.0, c.1);
        let w = self.width as int;
        self.lemma_candidate(r, k);
        self.lemma_blocked_all(orbit, 3);
        self.lemma_orbit_on_board(c.0, c.1);
        assert forall|i: int|
            0 <= i < self.cells.len() && Board::is_reserved(
                self.cells[i],
            ) implies #[trigger] next.cells[i] is White by {
            if orbit.contains((i % w, i / w)) {
                let j = choose|j: int| 0 <= j < orbit.len() && orbit[j] == (i % w, i / w);
                self.lemma_coordinates(i);
                assert(self.get(orbit[j].0, orbit[j].1) == Some(self.cells[i]));
            }
        }
        let at = self.index(c.0, c.1);
        self.lemma_index(c.0, c.1);
        assert(orbit.contains(orbit[0]));
        assert(self.get(orbit[0].0, orbit[0].1) == Some(self.cells[at]));
        assert(self.cells[at] is White);
        assert(next.cells[at] is Black);
        vstd::set_lib::lemma_int_range(0, self.cells.len() as int);
        let all = vstd::set_lib::set_int_range(0, self.cells.len() as int);
        assert(self.whites().subset_of(all));
        vstd::set_lib::lemma_len_subset(self.whites(), all);
        assert(next.whites().subset_of(self.whites())) by {
            assert forall|i: int| next.whites().contains(i) implies self.whites().contains(i) by {
                if self.cells[i] is Black {
                    assert(next.cells[i] is Black);
                }
            }
        }
        next.whites().lemma_subset_not_in_lt(self.whites(), at);
    }

    /// Legality monotonicity: whatever number of placement steps leads from
    /// this board to `next`, every cell that was black is black in `next`,
    /// and every reserved cell is still white and reserved.
    pub proof fn lemma_reaches(self, next: Board, n: nat)
        requires
            self.wf(),
            self.reaches(next, n),
        ensures
            next.wf(),
            self.precedes_keeping(next),
        decreases n,
    {
        if n > 0 {
            let mid = choose|mid: Board|
                self.reaches(mid, (n - 1) as nat) && #[trigger] mid.step(next);
            self.lemma_reaches(mid, (n - 1) as nat);
            mid.lemma_step(next);
            assert forall|i: int|
                0 <= i < self.cells.len() && self.cells[i] is Black implies #[trigger] next.cells[i]
                is Black by {
                assert(mid.cells[i] is Black);
            }
            assert forall|i: int|
                0 <= i < self.cells.len() && #[trigger] next.cells[i]
                    is White implies Board::is_reserved(next.cells[i]) == Board::is_reserved(
                self.cells[i],
            ) by {
                assert(mid.cells[i] is White);
            }
            assert forall|i: int|
                0 <= i < self.cells.len() && Board::is_reserved(
                    self.cells[i],
                ) implies #[trigger] next.cells[i] is White by {
                assert(mid.cells[i] is White);
            }
        }
    }
}

impl Board {
    /// The cell at `(x, y)` of a board on which blocks stand at the
    /// coordinates of `blocks` and the cells of `kept` are reserved.
    pub open spec fn seed_cell(blocks: Set<(int, int)>, kept: Set<(int, int)>, x: int, y: int)
        -> Cell {
        if blocks.contains((x, y)) {
            Cell::Black
        } else {
            Cell::White {
                reserved: kept.contains((x, y)),
                left: !blocks.contains((x - 1, y)),
                right: !blocks.contains((x + 1, y)),
                up: !blocks.contains((x, y - 1)),
                down: !blocks.contains((x, y + 1)),
            }
        }
    }

    /// The board that comes of fresh cells when blocks are placed at the
    /// coordinates of `blocks`, on the board and around it, and the cells of
    /// `kept` are reserved.
    pub open spec fn seeded(
        width: nat,
        height: nat,
        symmetry: Symmetry,
        blocks: Set<(int, int)>,
        kept: Set<(int, int)>,
    ) -> Board {
        Board {
            width,
            height,
            symmetry,
            cells: Seq::new(
                width * height,
                |i: int| Board::seed_cell(blocks, kept, i % (width as int), i / (width as int)),
            ),
        }
    }

    /// Placing one more block on a seeded board gives the board seeded with
    /// that block too.
    pub proof fn lemma_seeded_block(
        width: nat,
        height: nat,
        symmetry: Symmetry,
        blocks: Set<(int, int)>,
        kept: Set<(int, int)>,
        x: int,
        y: int,
        n: int,
    )
        requires
            width > 0,
            n >= 1,
        ensures
            Board::seeded(width, height, symmetry, blocks, kept).blocked(x, y, n) == Board::seeded(
                width,
                height,
                symmetry,
                blocks.insert((x, y)),
                kept,
            ),
    {
        let a = Board::seeded(width, height, symmetry, blocks, kept).blocked(x, y, n);
        let b = Board::seeded(width, height, symmetry, blocks.insert((x, y)), kept);
        assert(a.cells =~= b.cells);
    }

    /// Reserving one more cell of a seeded board gives the board seeded with
    /// that cell reserved too.
    pub proof fn lemma_seeded_reserve(
        width: nat,
        height: nat,
        symmetry: Symmetry,
        blocks: Set<(int, int)>,
        kept: Set<(int, int)>,
        x: int,
        y: int,
    )
        requires
            width > 0,
        ensures
            Board::seeded(width, height, symmetry, blocks, kept).reserved(x, y) == Board::seeded(
                width,
                height,
                symmetry,
                blocks,
                kept.insert((x, y)),
            ),
    {
        let start = Board::seeded(width, height, symmetry, blocks, kept);
        let a = start.reserved(x, y);
        let b = Board::seeded(width, height, symmetry, blocks, kept.insert((x, y)));
        assert(start.wf());
        if start.in_bounds(x, y) {
            start.lemma_index(x, y);
        }
        assert forall|i: int| 0 <= i < a.cells.len() implies a.cells[i] == b.cells[i] by {
            start.lemma_coordinates(i);
        }
        assert(a.cells =~= b.cells);
    }
}

} // verus!
