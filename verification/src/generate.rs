//! Synthesis of a layout of blocked cells by randomised search.

use crate::board::{close, crowded, points, Board};
use crate::runs::{cell_after, covers, find_runs, lemma_same_runs, sort_runs, Run};
pub use crate::cell::{Cell, Direction, DirectionIter, Symmetry};
use crate::matrix::{lemma_index_in_range, BoolMatrix, Cell as Letter, Grid, Layout, TriBoolMatrix};
use crate::rng::{entropy_seed, random_below, seeded_rng};
use crate::score::{avg_gap, consider, count_gap, gap, mean_length, on_target, Score};
use std::ops::Range;
use vstd::prelude::*;

verus! {

/// The number of times the search starts over from the seeded layout.
pub const MAX_ITERS: usize = 10000;

/// What a search has done.
#[derive(Clone, Copy, Debug)]
pub struct SearchReport {
    /// The number of passes made.
    pub iters: usize,
    /// The distances of the layout that the search ended with from the target
    /// average word length and from the target word count; `None` if no
    /// outcome was kept and the layout is the given one.
    pub best: Option<(u128, usize)>,
    /// Whether the search ended on a layout inside both target ranges.
    pub accepted: bool,
}

/// A layout under synthesis together with its random source.
pub struct GridGenerator {
    symmetry: Symmetry,
    width: usize,
    cells: Vec<Cell>,
    rand: nanorand::WyRand,
}

impl GridGenerator {
    /// The cells fill whole rows, and both sides of the board stay below the
    /// largest signed coordinate.
    pub closed spec fn wf(&self) -> bool {
        &&& 0 < self.width < isize::MAX
        &&& self.cells.len() / self.width < isize::MAX
        &&& self.cells.len() == self.width * (self.cells.len() / self.width)
    }

    /// The layout as a mathematical value.
    pub closed spec fn view(&self) -> Board {
        Board {
            width: self.width as nat,
            height: if self.width == 0 {
                0
            } else {
                (self.cells.len() / self.width) as nat
            },
            symmetry: self.symmetry,
            cells: self.cells@,
        }
    }

    /// The index of the cell at a coordinate of the board.
    fn offset(&self, coord: (isize, isize)) -> (at: Option<usize>)
        requires
            self.wf(),
        ensures
            at is Some <==> self@.in_bounds(coord.0 as int, coord.1 as int),
            at matches Some(i) ==> i == self@.index(coord.0 as int, coord.1 as int) && i
                < self.cells.len(),
    {
        if coord.0 < 0 || coord.1 < 0 {
            return None;
        }
        let x = coord.0 as usize;
        let y = coord.1 as usize;
        if x < self.width && y < self.cells.len() / self.width {
            proof {
                self@.lemma_index(x as int, y as int);
            }
            Some(y * self.width + x)
        } else {
            None
        }
    }

    /// The number of rows.
    fn height(&self) -> (h: usize)
        requires
            self.wf(),
        ensures
            h == self@.height,
    {
        self.cells.len() / self.width
    }

    /// A well-formed generator has a well-formed layout whose sides stay
    /// below the largest signed coordinate.
    pub proof fn lemma_wf(&self)
        requires
            self.wf(),
        ensures
            self@.wf(),
            self@.width < isize::MAX,
            self@.height < isize::MAX,
    {
    }

    /// The cell at a coordinate, `None` off the board.
    pub fn get(&self, coord: (isize, isize)) -> (cell: Option<&Cell>)
        requires
            self.wf(),
        ensures
            match cell {
                Some(c) => Some(*c),
                None => None,
            } == self@.get(coord.0 as int, coord.1 as int),
    {
        match self.offset(coord) {
            Some(i) => Some(&self.cells[i]),
            None => None,
        }
    }

    /// The coordinates that must be treated together with `coord` under the
    /// generator's symmetry, `coord` first and none of them twice.
    pub fn reflect(&self, coord: (isize, isize)) -> (orbit: Vec<(isize, isize)>)
        requires
            self.wf(),
            self@.in_bounds(coord.0 as int, coord.1 as int),
        ensures
            points(orbit@) == self@.orbit(coord.0 as int, coord.1 as int),
            forall|i: int|
                0 <= i < orbit@.len() ==> self@.in_bounds(
                    (#[trigger] orbit@[i]).0 as int,
                    orbit@[i].1 as int,
                ),
    {
        let height = self.height() as isize;
        let mut orbit: Vec<(isize, isize)> = Vec::new();
        orbit.push(coord);
        assert(orbit@[0] == coord);
        if let Some(turned) = self.symmetry.rotate(coord, self.width, height) {
            let ghost one = orbit@;
            push_new(&mut orbit, turned);
            let ghost two = orbit@;
            assert(one.contains(turned) <==> turned == coord);
            assert(two[0] == coord && (turned != coord ==> two[1] == turned));
            if let Symmetry::Quarter = self.symmetry {
                let above = (coord.0, turned.1);
                let beside = (turned.0, coord.1);
                push_new(&mut orbit, above);
                let ghost three = orbit@;
                assert(two.contains(above) <==> above == coord || (turned != coord && above
                    == turned));
                assert(three[0] == coord && (turned != coord ==> three[1] == turned) && (
                !two.contains(above) ==> three[two.len() as int] == above));
                push_new(&mut orbit, beside);
                assert(three.contains(beside) <==> beside == coord || (turned != coord && beside
                    == turned) || (!two.contains(above) && beside == above));
            }
        }
        assert(points(orbit@) =~= self@.orbit(coord.0 as int, coord.1 as int));
        orbit
    }

    /// Whether every one of the coordinates that lies on the board may take a
    /// block.
    fn legal(&self, coords: &Vec<(isize, isize)>) -> (ok: bool)
        requires
            self.wf(),
        ensures
            ok == self@.all_placeable(points(coords@)),
    {
        let mut i: usize = 0;
        while i < coords.len()
            invariant
                self.wf(),
                i <= coords.len(),
                forall|k: int|
                    0 <= k < i ==> (self@.get(
                        (#[trigger] points(coords@)[k]).0,
                        points(coords@)[k].1,
                    ) matches Some(cell) ==> cell.placeable()),
            decreases coords.len() - i,
        {
            if let Some(cell) = self.get(coords[i]) {
                if !cell.can_place() {
                    assert(points(coords@)[i as int] == (coords@[i as int].0 as int, coords@[i as int].1 as int));
                    return false;
                }
            }
            i += 1;
        }
        true
    }

    /// The cells of a run at which a block may be placed, first to last.
    pub fn placeables(&self, run: Run) -> (found: Vec<(isize, isize)>)
        requires
            self.wf(),
            self@.layout().is_run(run),
        ensures
            points(found@) == self@.candidates(run),
    {
        let ghost board = self@;
        let ghost cells = Board::cells_of(run);
        proof {
            board.layout().lemma_run_shape(run);
            assert forall|k: int| 0 <= k < run.2 implies board.in_bounds(
                cell_after(run.0 as int, run.1 as int, run.3, k).0,
                cell_after(run.0 as int, run.1 as int, run.3, k).1,
            ) by {
                let c = cell_after(run.0 as int, run.1 as int, run.3, k);
                assert(covers(run, c.0, c.1));
            }
        }
        let mut found: Vec<(isize, isize)> = Vec::new();
        let mut i: usize = 0;
        assert(cells.take(0) =~= Seq::empty());
        assert(points(found@) =~= cells.take(0).filter(board.takes()));
        while i < run.2
            invariant
                self.wf(),
                board == self@,
                cells == Board::cells_of(run),
                i <= run.2,
                board.width < isize::MAX,
                board.height < isize::MAX,
                forall|k: int|
                    0 <= k < run.2 ==> board.in_bounds(
                        cell_after(run.0 as int, run.1 as int, run.3, k).0,
                        cell_after(run.0 as int, run.1 as int, run.3, k).1,
                    ),
                points(found@) == cells.take(i as int).filter(board.takes()),
            decreases run.2 - i,
        {
            let ghost c = cell_after(run.0 as int, run.1 as int, run.3, i as int);
            assert(board.in_bounds(c.0, c.1));
            let coord: (isize, isize) = if run.3 {
                ((run.0 + i) as isize, run.1 as isize)
            } else {
                (run.0 as isize, (run.1 + i) as isize)
            };
            let orbit = self.reflect(coord);
            let ghost prior = found@;
            let take = !crowded_among(&orbit) && self.legal(&orbit);
            if take {
                found.push(coord);
            }
            proof {
                assert(cells.take(i + 1) =~= cells.take(i as int).push(c));
                cells.take(i as int).lemma_filter_push(c, board.takes());
                assert(take == board.takes()(c));
                if take {
                    assert(points(found@) =~= points(prior).push(c));
                }
            }
            i += 1;
        }
        assert(cells.take(run.2 as int) =~= cells);
        found
    }

    /// Places a block at `coord` and at every other coordinate of its orbit,
    /// whatever the cells there hold.
    pub fn place_orbit(&mut self, coord: (isize, isize))
        requires
            old(self).wf(),
            old(self)@.in_bounds(coord.0 as int, coord.1 as int),
        ensures
            final(self).wf(),
            final(self)@ == old(self)@.placed(coord.0 as int, coord.1 as int),
    {
        let orbit = self.reflect(coord);
        let ghost start = self@;
        let ghost all = points(orbit@);
        let mut i: usize = 0;
        assert(all.take(0) =~= Seq::empty());
        while i < orbit.len()
            invariant
                self.wf(),
                i <= orbit.len(),
                all == points(orbit@),
                self@ == start.blocked_all(all.take(i as int), 3),
            decreases orbit.len() - i,
        {
            self.block(orbit[i], 3);
            proof {
                assert(all.take(i + 1).drop_last() =~= all.take(i as int));
                assert(all.take(i + 1).last() == (orbit@[i as int].0 as int, orbit@[i as int].1 as int));
            }
            i += 1;
        }
        assert(all.take(orbit.len() as int) =~= all);
    }

    /// A board of this size can be synthesised on: it has a column, both
    /// sides stay below the largest signed coordinate, and its cells can be
    /// counted in a machine word.
    pub open spec fn fits(l: Layout) -> bool {
        &&& 0 < l.cols < isize::MAX
        &&& l.rows < isize::MAX
        &&& l.cols * l.rows <= usize::MAX
    }

    /// The coordinates at which the seeded layout has a block: everything
    /// around the board, and the cells that the matrix does not hold.
    pub open spec fn seed_blocks<M: TriBoolMatrix>(matrix: M) -> Set<(int, int)> {
        Set::new(
            |c: (int, int)|
                !matrix.layout().in_bounds(c.0, c.1) || matrix.content(c.0, c.1) is None,
        )
    }

    /// The cells that the seeded layout reserves: those with content.
    pub open spec fn seed_kept<M: TriBoolMatrix>(matrix: M) -> Set<(int, int)> {
        Set::new(
            |c: (int, int)|
                matrix.layout().in_bounds(c.0, c.1) && matrix.content(c.0, c.1) == Some(false),
        )
    }

    /// The layout from which the synthesis of a board starts: a cell that the
    /// matrix does not hold is black, a cell with content is reserved, and a
    /// white cell has lost the flag of every side on which it touches the edge
    /// of the board or a black cell.
    pub open spec fn seed_of<M: TriBoolMatrix>(matrix: M, symmetry: Symmetry) -> Board {
        Board::seeded(
            matrix.layout().cols,
            matrix.layout().rows,
            symmetry,
            Self::seed_blocks(matrix),
            Self::seed_kept(matrix),
        )
    }

    /// A generator for the given board that keeps the point symmetry and
    /// draws from a freshly seeded random source. See `with_symmetry`.
    pub fn new<M>(matrix: M) -> (generator: Self) where M: TriBoolMatrix
        requires
            Self::fits(matrix.layout()),
        ensures
            generator.wf(),
            generator@ == Self::seed_of(matrix, Symmetry::Point),
    {
        Self::with_symmetry(matrix, Symmetry::Point, entropy_seed())
    }

    /// A generator for the given board that keeps the given symmetry and
    /// draws from a random source started with `seed`. The layout is seeded
    /// from the board, with blocks all around it.
    pub fn with_symmetry<M>(matrix: M, symmetry: Symmetry, seed: u64) -> (generator: Self) where
        M: TriBoolMatrix,

        requires
            Self::fits(matrix.layout()),
        ensures
            generator.wf(),
            generator@ == Self::seed_of(matrix, symmetry),
    {
        let width = matrix.cols();
        let height = matrix.rows();
        let ghost l = matrix.layout();
        let ghost w = l.cols;
        let ghost h = l.rows;
        let mut new = Self {
            symmetry,
            width,
            cells: vec![Cell::default(); width * height],
            rand: seeded_rng(seed),
        };
        let ghost mut blocks: Set<(int, int)> = Set::empty();
        let ghost kept: Set<(int, int)> = Set::empty();
        proof {
            vstd::arithmetic::div_mod::lemma_div_multiples_vanish(height as int, width as int);
            assert(width * height == height * width) by (nonlinear_arith);
            assert(new@.cells =~= Board::seeded(w, h, symmetry, blocks, kept).cells);
        }
        let mut y: isize = -1;
        while y <= height as isize
            invariant
                l == matrix.layout(),
                w == l.cols,
                h == l.rows,
                width == w,
                height == h,
                Self::fits(l),
                new.wf(),
                -1 <= y <= height + 1,
                kept == Set::<(int, int)>::empty(),
                new@ == Board::seeded(w, h, symmetry, blocks, kept),
                forall|c: (int, int)|
                    blocks.contains(c) <==> -1 <= c.0 <= w && -1 <= c.1 < y && !l.in_bounds(
                        c.0,
                        c.1,
                    ),
            decreases height + 1 - y,
        {
            let mut x: isize = -1;
            while x <= width as isize
                invariant
                    l == matrix.layout(),
                    w == l.cols,
                    h == l.rows,
                    width == w,
                    height == h,
                    Self::fits(l),
                    new.wf(),
                    -1 <= y <= height,
                    -1 <= x <= width + 1,
                    kept == Set::<(int, int)>::empty(),
                    new@ == Board::seeded(w, h, symmetry, blocks, kept),
                    forall|c: (int, int)|
                        blocks.contains(c) <==> -1 <= c.0 <= w && !l.in_bounds(c.0, c.1) && (-1
                            <= c.1 < y || (c.1 == y && c.0 < x)),
                decreases width + 1 - x,
            {
                if y < 0 || x < 0 || x == width as isize || y == height as isize {
                    new.block((x, y), 3);
                    proof {
                        Board::lemma_seeded_block(
                            w,
                            h,
                            symmetry,
                            blocks,
                            kept,
                            x as int,
                            y as int,
                            3,
                        );
                        blocks = blocks.insert((x as int, y as int));
                    }
                }
                x += 1;
            }
            y += 1;
        }
        let ghost mut kept: Set<(int, int)> = kept;
        let mut y: usize = 0;
        while y < height
            invariant
                l == matrix.layout(),
                w == l.cols,
                h == l.rows,
                width == w,
                height == h,
                Self::fits(l),
                new.wf(),
                y <= height,
                new@ == Board::seeded(w, h, symmetry, blocks, kept),
                forall|c: (int, int)|
                    blocks.contains(c) <==> (-1 <= c.0 <= w && -1 <= c.1 <= h && !l.in_bounds(
                        c.0,
                        c.1,
                    )) || (l.in_bounds(c.0, c.1) && c.1 < y && matrix.content(c.0, c.1) is None),
                forall|c: (int, int)|
                    kept.contains(c) <==> l.in_bounds(c.0, c.1) && c.1 < y && matrix.content(
                        c.0,
                        c.1,
                    ) == Some(false),
            decreases height - y,
        {
            let mut x: usize = 0;
            while x < width
                invariant
                    l == matrix.layout(),
                    w == l.cols,
                    h == l.rows,
                    width == w,
                    height == h,
                    Self::fits(l),
                    new.wf(),
                    y < height,
                    x <= width,
                    new@ == Board::seeded(w, h, symmetry, blocks, kept),
                    forall|c: (int, int)|
                        blocks.contains(c) <==> (-1 <= c.0 <= w && -1 <= c.1 <= h && !l.in_bounds(
                            c.0,
                            c.1,
                        )) || (l.in_bounds(c.0, c.1) && (c.1 < y || (c.1 == y && c.0 < x))
                            && matrix.content(c.0, c.1) is None),
                    forall|c: (int, int)|
                        kept.contains(c) <==> l.in_bounds(c.0, c.1) && (c.1 < y || (c.1 == y && c.0
                            < x)) && matrix.content(c.0, c.1) == Some(false),
                decreases width - x,
            {
                let maybe_at = matrix.maybe_at((x, y));
                match maybe_at {
                    Some(false) => {
                        new.reserve((x as isize, y as isize));
                        proof {
                            Board::lemma_seeded_reserve(
                                w,
                                h,
                                symmetry,
                                blocks,
                                kept,
                                x as int,
                                y as int,
                            );
                            kept = kept.insert((x as int, y as int));
                        }
                    },
                    Some(true) => {},
                    None => {
                        new.block((x as isize, y as isize), 3);
                        proof {
                            Board::lemma_seeded_block(
                                w,
                                h,
                                symmetry,
                                blocks,
                                kept,
                                x as int,
                                y as int,
                                3,
                            );
                            blocks = blocks.insert((x as int, y as int));
                        }
                    },
                }
                x += 1;
            }
            y += 1;
        }
        proof {
            let goal = Board::seeded(
                w,
                h,
                symmetry,
                Self::seed_blocks(matrix),
                Self::seed_kept(matrix),
            );
            assert forall|i: int| 0 <= i < goal.cells.len() implies new@.cells[i]
                == goal.cells[i] by {
                goal.lemma_coordinates(i);
            }
            assert(new@.cells =~= goal.cells);
        }
        new
    }

    /// The layout as a flat list in row-major order, `true` for a blocked
    /// cell.
    pub fn cells(self) -> (layout: Vec<bool>)
        ensures
            layout@.len() == self@.cells.len(),
            forall|i: int| 0 <= i < layout@.len() ==> layout@[i] == (self@.cells[i] is Black),
    {
        let mut layout: Vec<bool> = Vec::new();
        let mut i: usize = 0;
        while i < self.cells.len()
            invariant
                i <= self.cells.len(),
                layout@.len() == i,
                forall|k: int| 0 <= k < i ==> layout@[k] == (self@.cells[k] is Black),
            decreases self.cells.len() - i,
        {
            let black = match self.cells[i] {
                Cell::Black => true,
                Cell::White { .. } => false,
            };
            layout.push(black);
            i += 1;
        }
        layout
    }

    /// The runs of the board meet both targets.
    pub open spec fn meets(board: Board, avg: Range<u64>, count: Range<usize>) -> bool {
        exists|runs: Seq<Run>|
            #![trigger board.layout().lists_runs(runs)]
            board.layout().lists_runs(runs) && on_target(runs, avg, count)
    }

    /// Placement steps can lead from the board to a layout without runs. The
    /// outcome of a pass that ends on such a layout has no average word
    /// length and is never kept.
    pub open spec fn runs_dry(board: Board) -> bool {
        exists|end: Board, n: nat|
            #![trigger board.reaches(end, n)]
            board.reaches(end, n) && end.layout().lists_runs(Seq::<Run>::empty())
    }

    /// The distances `gaps` are those of the board's runs from the two
    /// targets, and `accepted` says whether the runs lie inside both ranges.
    pub open spec fn recorded(
        board: Board,
        avg: Range<u64>,
        count: Range<usize>,
        gaps: (u128, usize),
        accepted: bool,
    ) -> bool {
        exists|runs: Seq<Run>|
            #![trigger board.layout().lists_runs(runs)]
            {
                &&& board.layout().lists_runs(runs)
                &&& mean_length(runs) is Some
                &&& gaps.0 == gap(avg.start as int, avg.end as int, mean_length(runs)->0)
                &&& gaps.1 == gap(count.start as int, count.end as int, runs.len() as int)
                &&& accepted == on_target(runs, avg, count)
            }
    }

    /// A search pass can have stopped at the board: it has runs, and either
    /// they meet both targets or no run has more than three candidates, so
    /// that a placement step can fail.
    pub open spec fn stopped(board: Board, avg: Range<u64>, count: Range<usize>) -> bool {
        exists|runs: Seq<Run>|
            #![trigger board.layout().lists_runs(runs)]
            board.layout().lists_runs(runs) && runs.len() > 0 && (on_target(runs, avg, count)
                || !board.has_room())
    }

    /// One pass of the search: places blocks step by step until the layout
    /// meets both targets or a step fails, and returns the statistics of the
    /// layout it has reached. A layout that meets the targets is left as it
    /// is, and so is one on which no step can succeed.
    pub fn fill_once(
        &mut self,
        target_avg_word_len: &Range<u64>,
        target_word_count: &Range<usize>,
    ) -> (score: Score)
        requires
            old(self).wf(),
        ensures
            final(self).wf(),
            exists|n: nat| old(self)@.reaches(final(self)@, n),
            exists|runs: Seq<Run>|
                #![trigger final(self)@.layout().lists_runs(runs)]
                final(self)@.layout().lists_runs(runs) && score.describes(runs),
            score.spec_within(*target_avg_word_len, *target_word_count) || !final(self)@.has_room(),
            old(self)@.stuck() ==> final(self)@ == old(self)@,
            forall|runs: Seq<Run>|
                #![trigger old(self)@.layout().lists_runs(runs)]
                old(self)@.layout().lists_runs(runs) && on_target(
                    runs,
                    *target_avg_word_len,
                    *target_word_count,
                ) ==> final(self)@ == old(self)@,
    {
        let ghost seed = self@;
        let ghost calm = exists|runs: Seq<Run>|
            #![trigger seed.layout().lists_runs(runs)]
            seed.layout().lists_runs(runs) && on_target(
                runs,
                *target_avg_word_len,
                *target_word_count,
            );
        proof {
            self.lemma_wf();
        }
        let ghost mut steps: nat = 0;
        let runs = find_runs(&*self);
        let mut score = Score::of(&runs);
        let ghost mut listed = runs@;
        proof {
            if calm {
                let other = choose|other: Seq<Run>|
                    #![trigger seed.layout().lists_runs(other)]
                    seed.layout().lists_runs(other) && on_target(
                        other,
                        *target_avg_word_len,
                        *target_word_count,
                    );
                seed.layout().lemma_run_list_unique(other, runs@);
            }
        }
        let mut inside = score.within(target_avg_word_len, target_word_count);
        while !inside
            invariant
                self.wf(),
                seed.wf(),
                seed.reaches(self@, steps),
                calm ==> inside,
                calm || seed.stuck() ==> self@ == seed,
                inside == score.spec_within(*target_avg_word_len, *target_word_count),
                self@.layout().lists_runs(listed),
                score.describes(listed),
            ensures
                inside || !self@.has_room(),
            decreases self@.open_count(),
        {
            let ghost prior = self@;
            proof {
                seed.lemma_reaches(prior, steps);
            }
            if self.choose_next_black().is_err() {
                break ;
            }
            proof {
                prior.lemma_step(self@);
                assert(prior.step(self@));
                steps = steps + 1;
                assert(seed.reaches(self@, steps));
            }
            let runs = find_runs(&*self);
            score = Score::of(&runs);
            proof {
                listed = runs@;
            }
            inside = score.within(target_avg_word_len, target_word_count);
        }
        score
    }

    /// Searches for a layout whose number of words lies in
    /// `target_word_count` and whose average word length, in thousandths,
    /// lies in `target_avg_word_len`. The search makes up to `MAX_ITERS`
    /// passes, each from the given layout, and stops early after a pass that
    /// meets both targets. It keeps the outcome of a pass if the outcome has
    /// words and neither of its distances from the targets is larger than
    /// that of the outcome kept before. The generator ends up with the last
    /// outcome kept, or with the given layout if none was. The report says
    /// how many passes were made, which distances the final layout has, and
    /// whether it lies inside both ranges; if it does, both distances are
    /// zero.
    pub fn place_blacks(
        &mut self,
        target_avg_word_len: Range<u64>,
        target_word_count: Range<usize>,
    ) -> (report: SearchReport)
        requires
            old(self).wf(),
        ensures
            final(self).wf(),
            1 <= report.iters <= MAX_ITERS,
            !report.accepted ==> report.iters == MAX_ITERS,
            report.accepted ==> report.best == Some((0u128, 0usize)),
            match report.best {
                Some(gaps) => Self::recorded(
                    final(self)@,
                    target_avg_word_len,
                    target_word_count,
                    gaps,
                    report.accepted,
                ),
                None => final(self)@ == old(self)@ && !report.accepted,
            },
            exists|n: nat| old(self)@.reaches(final(self)@, n),
            old(self)@.precedes_keeping(final(self)@),
            final(self)@ == old(self)@ || Self::stopped(
                final(self)@,
                target_avg_word_len,
                target_word_count,
            ),
            old(self)@.stuck() ==> final(self)@ == old(self)@,
            Self::meets(old(self)@, target_avg_word_len, target_word_count) ==> final(self)@
                == old(self)@,
            old(self)@.has_room() && !Self::meets(
                old(self)@,
                target_avg_word_len,
                target_word_count,
            ) ==> final(self)@ != old(self)@ || Self::runs_dry(old(self)@),
    {
        let ghost seed = self@;
        let ghost calm = Self::meets(seed, target_avg_word_len, target_word_count);
        let ghost roomy = seed.has_room();
        let ghost mut dry = false;
        proof {
            self.lemma_wf();
        }
        let start = copy_cells(&self.cells);
        let mut best: Option<Vec<Cell>> = None;
        let mut best_avg_len_diff: u128 = u128::MAX;
        let mut best_word_count_diff: usize = usize::MAX;
        let mut accepted = false;
        let mut iter: usize = 0;
        while !accepted && iter < MAX_ITERS
            invariant
                self.wf(),
                self@ == seed,
                seed.wf(),
                start@ == seed.cells,
                calm == Self::meets(seed, target_avg_word_len, target_word_count),
                roomy == seed.has_room(),
                iter <= MAX_ITERS,
                best is None ==> best_avg_len_diff == u128::MAX && best_word_count_diff
                    == usize::MAX,
                accepted ==> best is Some,
                dry ==> Self::runs_dry(seed),
                iter > 0 && roomy && !calm ==> best is Some || dry,
                best matches Some(b) ==> (roomy && !calm ==> b@ != seed.cells),
                best is Some ==> iter > 0,
                best matches Some(b) ==> Self::recorded(
                    Board { cells: b@, ..seed },
                    target_avg_word_len,
                    target_word_count,
                    (best_avg_len_diff, best_word_count_diff),
                    accepted,
                ),
                best matches Some(b) ==> exists|n: nat|
                    seed.reaches(Board { cells: b@, ..seed }, n),
                best matches Some(b) ==> Self::stopped(
                    Board { cells: b@, ..seed },
                    target_avg_word_len,
                    target_word_count,
                ),
                best matches Some(b) ==> (calm || seed.stuck() ==> b@ == seed.cells),
            decreases MAX_ITERS - iter,
        {
            iter += 1;
            let score = self.fill_once(&target_avg_word_len, &target_word_count);
            let ghost reached = self@;
            proof {
                let n = choose|n: nat| seed.reaches(reached, n);
                seed.lemma_reaches(reached, n);
            }
            let ghost runs = choose|runs: Seq<Run>|
                #![trigger reached.layout().lists_runs(runs)]
                reached.layout().lists_runs(runs) && score.describes(runs);
            proof {
                if roomy && !calm && reached == seed {
                    // The pass has ended on the given layout, which has room,
                    // so it has ended on target.
                    assert(on_target(runs, target_avg_word_len, target_word_count));
                }
                if score.avg_len is None {
                    assert(runs =~= Seq::<Run>::empty());
                    assert(seed.reaches(reached, choose|n: nat| seed.reaches(reached, n)));
                    dry = true;
                }
            }
            let (keep, accept) = consider(
                best_avg_len_diff,
                best_word_count_diff,
                score,
                &target_avg_word_len,
                &target_word_count,
            );
            if keep {
                let kept = copy_cells(&self.cells);
                proof {
                    assert(reached == Board { cells: kept@, ..seed });
                    assert(reached.layout().lists_runs(runs) && runs.len() > 0 && (on_target(
                        runs,
                        target_avg_word_len,
                        target_word_count,
                    ) || !reached.has_room()));
                }
                if let Some(avg) = score.avg_len {
                    best_avg_len_diff = avg_gap(&target_avg_word_len, avg);
                }
                best_word_count_diff = count_gap(&target_word_count, score.word_count);
                best = Some(kept);
                accepted = accept;
                proof {
                    assert(reached.layout().lists_runs(runs) && mean_length(runs) is Some
                        && best_avg_len_diff == gap(
                        target_avg_word_len.start as int,
                        target_avg_word_len.end as int,
                        mean_length(runs)->0,
                    ) && best_word_count_diff == gap(
                        target_word_count.start as int,
                        target_word_count.end as int,
                        runs.len() as int,
                    ) && accepted == on_target(runs, target_avg_word_len, target_word_count));
                }
            }
            self.cells = copy_cells(&start);
        }
        match best {
            Some(b) => {
                proof {
                    let kept = Board { cells: b@, ..seed };
                    let n = choose|n: nat| seed.reaches(kept, n);
                    seed.lemma_reaches(kept, n);
                }
                self.cells = b;
                assert(self@ == Board { cells: b@, ..seed });
                proof {
                    if accepted {
                        let runs = choose|runs: Seq<Run>|
                            #![trigger self@.layout().lists_runs(runs)]
                            {
                                &&& self@.layout().lists_runs(runs)
                                &&& mean_length(runs) is Some
                                &&& best_avg_len_diff == gap(
                                    target_avg_word_len.start as int,
                                    target_avg_word_len.end as int,
                                    mean_length(runs)->0,
                                )
                                &&& best_word_count_diff == gap(
                                    target_word_count.start as int,
                                    target_word_count.end as int,
                                    runs.len() as int,
                                )
                                &&& accepted == on_target(
                                    runs,
                                    target_avg_word_len,
                                    target_word_count,
                                )
                            };
                        assert(on_target(runs, target_avg_word_len, target_word_count));
                    }
                }
                SearchReport {
                    iters: iter,
                    best: Some((best_avg_len_diff, best_word_count_diff)),
                    accepted,
                }
            },
            None => {
                self.cells = start;
                assert(seed.reaches(self@, 0));
                proof {
                    seed.lemma_reaches(self@, 0);
                }
                SearchReport { iters: iter, best: None, accepted }
            },
        }
    }

    /// One placement step: takes the runs from the longest down, and in the
    /// first that has more candidates than a threshold drawn from `0..4`,
    /// places blocks on the orbit of a candidate drawn at random. Fails, and
    /// leaves the layout as it is, when no run passes.
    pub fn choose_next_black(&mut self) -> (res: Result<(), ()>)
        requires
            old(self).wf(),
        ensures
            final(self).wf(),
            res is Err ==> final(self)@ == old(self)@,
            res is Ok ==> old(self)@.step(final(self)@),
            old(self)@.stuck() ==> res is Err,
            old(self)@.has_room() ==> res is Ok,
    {
        let ghost board = self@;
        let mut runs = find_runs(&*self);
        let ghost found = runs@;
        assert(found.no_duplicates()) by {
            assert forall|i: int, j: int|
                0 <= i < found.len() && 0 <= j < found.len() && i != j implies found[i]
                != found[j] by {
                if i < j {
                    assert(board.layout().rank(found[i]) < board.layout().rank(found[j]));
                } else {
                    assert(board.layout().rank(found[j]) < board.layout().rank(found[i]));
                }
            }
        }
        sort_runs(&mut runs, self.width, true);
        let ghost sorted = runs@;
        proof {
            lemma_same_runs(found, sorted);
            assert forall|j: int| 0 <= j < sorted.len() implies sorted.contains(
                #[trigger] sorted[j],
            ) by {}
        }
        while runs.len() > 0
            invariant
                self.wf(),
                self@ == board,
                board == old(self)@,
                runs@.len() <= sorted.len(),
                runs@ == sorted.take(runs@.len() as int),
                forall|r: Run| #[trigger] sorted.contains(r) <==> board.layout().is_run(r),
                forall|i: int, j: int|
                    0 <= i < j < sorted.len() ==> (#[trigger] sorted[i]).2 <= (
                    #[trigger] sorted[j]).2,
                forall|j: int|
                    runs@.len() <= j < sorted.len() ==> board.candidates(#[trigger] sorted[j]).len()
                        <= 3,
                board.stuck() ==> forall|j: int|
                    0 <= j < sorted.len() ==> board.candidates(#[trigger] sorted[j]).len() == 0,
            decreases runs@.len(),
        {
            let ghost at = runs@.len() - 1;
            let next_run = runs.pop().unwrap();
            assert(next_run == sorted[at]);
            assert(sorted.contains(next_run));
            assert(runs@ =~= sorted.take(at));
            let placeables = self.placeables(next_run);
            let min_len = random_below(&mut self.rand, 4);
            if placeables.len() <= min_len {
                continue ;
            }
            let next = random_below(&mut self.rand, placeables.len());
            let coord = placeables[next];
            proof {
                board.lemma_candidate(next_run, next as int);
                assert(points(placeables@)[next as int] == (coord.0 as int, coord.1 as int));
            }
            self.place_orbit(coord);
            proof {
                assert forall|q: Run|
                    #![trigger board.candidates(q)]
                    board.layout().is_run(q) && q.2 > next_run.2 implies board.candidates(q).len()
                    <= 3 by {
                    assert(sorted.contains(q));
                    let j = choose|j: int| 0 <= j < sorted.len() && sorted[j] == q;
                    if j < at {
                        assert(sorted[j].2 <= sorted[at].2);
                    }
                }
                assert(board.picks(next_run, self@));
            }
            return Ok(());
        }
        proof {
            if board.has_room() {
                let r = choose|r: Run|
                    board.layout().is_run(r) && (#[trigger] board.candidates(r)).len() > 3;
                assert(sorted.contains(r));
                let j = choose|j: int| 0 <= j < sorted.len() && sorted[j] == r;
                assert(board.candidates(sorted[j]).len() <= 3);
            }
        }
        Err(())
    }

    /// Walks `n` steps away from a block at `coord`: the cell one step away
    /// loses the flag that faces the block, the cells after it are passed
    /// over.
    fn block_in_dir(&mut self, coord: (isize, isize), dir: Direction, n: isize)
        requires
            old(self).wf(),
        ensures
            final(self).wf(),
            final(self)@ == old(self)@.nudged(coord.0 as int, coord.1 as int, dir, n as int),
    {
        let mut i: isize = 0;
        while i < n
            invariant
                self.wf(),
                0 <= i,
                n >= 1 ==> i <= n,
                self@ == if i >= 1 {
                    old(self)@.nudged(coord.0 as int, coord.1 as int, dir, n as int)
                } else {
                    old(self)@
                },
            decreases n - i,
        {
            i += 1;
            let reached = neighbor(coord, dir, i);
            if let Some(c) = reached {
                if let Some(at) = self.offset(c) {
                    if i == 1 {
                        let mut cell = self.cells[at];
                        cell.set(dir.opposite(), false);
                        self.cells.set(at, cell);
                    }
                }
            }
        }
    }

    /// Places a block at `coord`, which may lie off the board: its cell turns
    /// black and the cells next to it lose the flag that faces it.
    pub fn block(&mut self, coord: (isize, isize), n: isize)
        requires
            old(self).wf(),
        ensures
            final(self).wf(),
            final(self)@ == old(self)@.blocked(coord.0 as int, coord.1 as int, n as int),
    {
        if let Some(at) = self.offset(coord) {
            let mut cell = self.cells[at];
            cell.place();
            self.cells.set(at, cell);
        }
        proof {
            old(self)@.lemma_blocked_in_steps(coord.0 as int, coord.1 as int, n as int);
        }
        let mut it = Direction::iter();
        let ghost start = self@;
        let ghost x = coord.0 as int;
        let ghost y = coord.1 as int;
        loop
            invariant_except_break
                self@ == match it.0 {
                    None => start,
                    Some(Direction::Left) => start.nudged(x, y, Direction::Left, n as int),
                    Some(Direction::Right) => start.nudged(x, y, Direction::Left, n as int).nudged(
                        x,
                        y,
                        Direction::Right,
                        n as int,
                    ),
                    Some(Direction::Down) => start.nudged(x, y, Direction::Left, n as int).nudged(
                        x,
                        y,
                        Direction::Right,
                        n as int,
                    ).nudged(x, y, Direction::Down, n as int),
                    Some(Direction::Up) => start.nudged(x, y, Direction::Left, n as int).nudged(
                        x,
                        y,
                        Direction::Right,
                        n as int,
                    ).nudged(x, y, Direction::Down, n as int).nudged(x, y, Direction::Up, n as int),
                },
            invariant
                self.wf(),
                x == coord.0,
                y == coord.1,
            ensures
                self@ == start.nudged(x, y, Direction::Left, n as int).nudged(
                    x,
                    y,
                    Direction::Right,
                    n as int,
                ).nudged(x, y, Direction::Down, n as int).nudged(x, y, Direction::Up, n as int),
            decreases it.remaining(),
        {
            match it.next() {
                Some(dir) => {
                    self.block_in_dir(coord, dir, n);
                },
                None => {
                    break ;
                },
            }
        }
    }

    /// Marks the cell at `coord` as one that must stay open.
    pub fn reserve(&mut self, coord: (isize, isize))
        requires
            old(self).wf(),
        ensures
            final(self).wf(),
            final(self)@ == old(self)@.reserved(coord.0 as int, coord.1 as int),
    {
        if let Some(at) = self.offset(coord) {
            let cell = match self.cells[at] {
                Cell::White { reserved: _, left, right, up, down } => Cell::White {
                    reserved: true,
                    left,
                    right,
                    up,
                    down,
                },
                Cell::Black => Cell::Black,
            };
            self.cells.set(at, cell);
        }
    }
}

/// The coordinate `i` steps from `coord` in a direction, where it can be
/// written down.
fn neighbor(coord: (isize, isize), dir: Direction, i: isize) -> (c: Option<(isize, isize)>)
    ensures
        ({
            let x = coord.0 + dir.delta().0 * i;
            let y = coord.1 + dir.delta().1 * i;
            if isize::MIN <= x <= isize::MAX && isize::MIN <= y <= isize::MAX {
                c matches Some(p) && p.0 == x && p.1 == y
            } else {
                c is None
            }
        }),
{
    let (x, y): (i128, i128) = match dir {
        Direction::Left => (coord.0 as i128 - i as i128, coord.1 as i128),
        Direction::Right => (coord.0 as i128 + i as i128, coord.1 as i128),
        Direction::Down => (coord.0 as i128, coord.1 as i128 + i as i128),
        Direction::Up => (coord.0 as i128, coord.1 as i128 - i as i128),
    };
    if isize::MIN as i128 <= x && x <= isize::MAX as i128 && isize::MIN as i128 <= y && y
        <= isize::MAX as i128 {
        Some((x as isize, y as isize))
    } else {
        None
    }
}

/// Appends a coordinate unless the list holds it already.
fn push_new(list: &mut Vec<(isize, isize)>, c: (isize, isize))
    ensures
        final(list)@ == if old(list)@.contains(c) {
            old(list)@
        } else {
            old(list)@.push(c)
        },
{
    let mut i: usize = 0;
    while i < list.len()
        invariant
            i <= list.len(),
            list@ == old(list)@,
            forall|k: int| 0 <= k < i ==> list@[k] != c,
        decreases list.len() - i,
    {
        if list[i].0 == c.0 && list[i].1 == c.1 {
            assert(list@[i as int] == c);
            return ;
        }
        i += 1;
    }
    list.push(c);
}

/// Whether two of the coordinates are different and lie in one row or one
/// column, fewer than three steps apart.
fn crowded_among(coords: &Vec<(isize, isize)>) -> (near: bool)
    ensures
        near == crowded(points(coords@)),
{
    let ghost p = points(coords@);
    let mut i: usize = 0;
    while i < coords.len()
        invariant
            i <= coords.len(),
            p == points(coords@),
            forall|a: int, b: int|
                0 <= a < i && 0 <= b < p.len() ==> !close(#[trigger] p[a], #[trigger] p[b]),
        decreases coords.len() - i,
    {
        let mut j: usize = 0;
        while j < coords.len()
            invariant
                i < coords.len(),
                j <= coords.len(),
                p == points(coords@),
                forall|a: int, b: int|
                    0 <= a < i && 0 <= b < p.len() ==> !close(#[trigger] p[a], #[trigger] p[b]),
                forall|b: int| 0 <= b < j ==> !close(p[i as int], #[trigger] p[b]),
            decreases coords.len() - j,
        {
            if near_each_other(coords[i], coords[j]) {
                assert(close(p[i as int], p[j as int]));
                return true;
            }
            j += 1;
        }
        i += 1;
    }
    false
}

/// Whether two coordinates are different and lie in one row or one column,
/// fewer than three steps apart.
fn near_each_other(a: (isize, isize), b: (isize, isize)) -> (near: bool)
    ensures
        near == close((a.0 as int, a.1 as int), (b.0 as int, b.1 as int)),
{
    let dx: i128 = a.0 as i128 - b.0 as i128;
    let dy: i128 = a.1 as i128 - b.1 as i128;
    !(dx == 0 && dy == 0) && ((dx == 0 && -3 < dy && dy < 3) || (dy == 0 && -3 < dx && dx < 3))
}

impl<'a> BoolMatrix for &'a GridGenerator {
    open spec fn layout(self) -> Layout {
        self@.layout()
    }

    fn rows(self) -> (r: usize) {
        if self.width == 0 {
            0
        } else {
            self.cells.len() / self.width
        }
    }

    fn cols(self) -> (c: usize) {
        self.width
    }

    fn at(self, cell: (usize, usize)) -> (open: bool) {
        if self.width > 0 && cell.0 < self.width && cell.1 < self.cells.len() / self.width {
            proof {
                crate::matrix::lemma_index_in_range(
                    cell.0 as int,
                    cell.1 as int,
                    self.width as int,
                    self.cells.len() as int,
                );
            }
            match self.cells[cell.1 * self.width + cell.0] {
                Cell::White { .. } => true,
                Cell::Black => false,
            }
        } else {
            false
        }
    }
}

/// A copy of the cells.
fn copy_cells(cells: &Vec<Cell>) -> (copy: Vec<Cell>)
    ensures
        copy@ == cells@,
{
    let mut copy: Vec<Cell> = Vec::new();
    let mut i: usize = 0;
    while i < cells.len()
        invariant
            i <= cells.len(),
            copy@ == cells@.take(i as int),
        decreases cells.len() - i,
    {
        copy.push(cells[i]);
        assert(cells@.take(i + 1) =~= cells@.take(i as int).push(cells@[i as int]));
        i += 1;
    }
    assert(cells@.take(cells.len() as int) =~= cells@);
    copy
}

/// What a cell of the editor's board becomes when a layout is applied to it:
/// blocked where the layout has a block, else open, with the letter it had or
/// with a blank if it was blocked.
pub open spec fn applied(cell: Option<Letter>, black: bool) -> Option<Letter> {
    if black {
        None
    } else if cell is None {
        Some(Letter { letter: ' ' })
    } else {
        cell
    }
}

/// Applies a layout, given in row-major order with `true` for a block, to the
/// editor's board.
pub fn apply_layout(grid: &mut Grid, layout: &Vec<bool>)
    requires
        layout@.len() == old(grid)@.cols * old(grid)@.rows,
    ensures
        final(grid)@.cols == old(grid)@.cols,
        final(grid)@.rows == old(grid)@.rows,
        forall|x: int, y: int|
            old(grid)@.in_bounds(x, y) ==> #[trigger] final(grid).spec_get(x, y) == applied(
                old(grid).spec_get(x, y),
                layout@[old(grid)@.index_of(x, y)],
            ),
{
    let width = (&*grid).cols();
    let ghost w = width as int;
    let ghost first = grid@;
    let mut i: usize = 0;
    while i < layout.len()
        invariant
            i <= layout@.len(),
            w == width,
            first == old(grid)@,
            grid@.cols == first.cols,
            grid@.rows == first.rows,
            first.cols == width,
            layout@.len() == first.cols * first.rows,
            forall|x: int, y: int|
                first.in_bounds(x, y) ==> #[trigger] grid.spec_get(x, y) == if first.index_of(x, y)
                    < i {
                    applied(old(grid).spec_get(x, y), layout@[first.index_of(x, y)])
                } else {
                    old(grid).spec_get(x, y)
                },
        decreases layout@.len() - i,
    {
        proof {
            assert(width > 0) by {
                if width == 0 {
                    assert(first.cols * first.rows == 0) by (nonlinear_arith)
                        requires
                            first.cols == 0,
                    ;
                }
            }
            vstd::arithmetic::div_mod::lemma_fundamental_div_mod(i as int, w);
            assert(w * first.rows == first.cols * first.rows);
            assert(i as int / w < first.rows) by (nonlinear_arith)
                requires
                    i < w * first.rows,
                    w > 0,
                    i == w * (i as int / w) + i as int % w,
                    0 <= i as int % w,
            ;
        }
        let coord = (i % width, i / width);
        let ghost prior = *grid;
        grid.black(coord, layout[i]);
        proof {
            assert forall|x: int, y: int| first.in_bounds(x, y) implies #[trigger] grid.spec_get(
                x,
                y,
            ) == if first.index_of(x, y) < i + 1 {
                applied(old(grid).spec_get(x, y), layout@[first.index_of(x, y)])
            } else {
                old(grid).spec_get(x, y)
            } by {
                lemma_cell_index(first, x, y);
                assert(prior.spec_get(x, y) == if first.index_of(x, y) < i {
                    applied(old(grid).spec_get(x, y), layout@[first.index_of(x, y)])
                } else {
                    old(grid).spec_get(x, y)
                });
            }
        }
        i += 1;
    }
    proof {
        assert forall|x: int, y: int| first.in_bounds(x, y) implies first.index_of(x, y)
            < layout@.len() by {
            lemma_cell_index(first, x, y);
        }
    }
}

/// The row-major index of a cell of a board names that cell and no other.
proof fn lemma_cell_index(l: Layout, x: int, y: int)
    requires
        l.in_bounds(x, y),
    ensures
        0 <= l.index_of(x, y) < l.cols * l.rows,
        l.index_of(x, y) % (l.cols as int) == x,
        l.index_of(x, y) / (l.cols as int) == y,
{
    let w = l.cols as int;
    vstd::arithmetic::div_mod::lemma_div_multiples_vanish(l.rows as int, w);
    lemma_index_in_range(x, y, w, w * l.rows);
    assert(l.index_of(x, y) == y * w + x) by (nonlinear_arith)
        requires
            l.index_of(x, y) == x + w * y,
    ;
}

/// Replaces the layout of the editor's board by one that is synthesised for
/// the two targets, under the point symmetry and from a freshly seeded random
/// source: the blocked cells of the board are afterwards the black cells of
/// the layout with which `place_blacks` ends when it starts from the board's
/// seeded layout, and the report is that of `place_blacks`. A blocked cell
/// stays blocked, a cell with a letter stays open, and every cell that is
/// open afterwards has the letter it had, or a blank.
pub fn fill_blacks(
    grid: &mut Grid,
    target_avg_word_len: Range<u64>,
    target_word_count: Range<usize>,
) -> (report: SearchReport)
    requires
        GridGenerator::fits(old(grid)@),
    ensures
        final(grid)@.cols == old(grid)@.cols,
        final(grid)@.rows == old(grid)@.rows,
        1 <= report.iters <= MAX_ITERS,
        !report.accepted ==> report.iters == MAX_ITERS,
        report.accepted ==> report.best == Some((0u128, 0usize)),
        exists|end: Board, n: nat|
            {
                &&& #[trigger] GridGenerator::seed_of(&*old(grid), Symmetry::Point).reaches(end, n)
                &&& match report.best {
                    Some(gaps) => GridGenerator::recorded(
                        end,
                        target_avg_word_len,
                        target_word_count,
                        gaps,
                        report.accepted,
                    ),
                    None => end == GridGenerator::seed_of(&*old(grid), Symmetry::Point)
                        && !report.accepted,
                }
                &&& end == GridGenerator::seed_of(&*old(grid), Symmetry::Point)
                    || GridGenerator::stopped(end, target_avg_word_len, target_word_count)
                &&& GridGenerator::seed_of(&*old(grid), Symmetry::Point).stuck() ==> end
                    == GridGenerator::seed_of(&*old(grid), Symmetry::Point)
                &&& GridGenerator::meets(
                    GridGenerator::seed_of(&*old(grid), Symmetry::Point),
                    target_avg_word_len,
                    target_word_count,
                ) ==> end == GridGenerator::seed_of(&*old(grid), Symmetry::Point)
                &&& GridGenerator::seed_of(&*old(grid), Symmetry::Point).has_room()
                    && !GridGenerator::meets(
                    GridGenerator::seed_of(&*old(grid), Symmetry::Point),
                    target_avg_word_len,
                    target_word_count,
                ) ==> end != GridGenerator::seed_of(&*old(grid), Symmetry::Point)
                    || GridGenerator::runs_dry(
                    GridGenerator::seed_of(&*old(grid), Symmetry::Point),
                )
                &&& forall|x: int, y: int|
                    old(grid)@.in_bounds(x, y) ==> (#[trigger] final(grid).spec_get(x, y) is None
                        <==> end.get(x, y) == Some(Cell::Black))
            },
        forall|x: int, y: int|
            old(grid)@.in_bounds(x, y) ==> match old(grid).spec_get(x, y) {
                None => #[trigger] final(grid).spec_get(x, y) is None,
                Some(cell) => if cell.letter == ' ' {
                    final(grid).spec_get(x, y) is None || final(grid).spec_get(x, y) == Some(cell)
                } else {
                    final(grid).spec_get(x, y) == Some(cell)
                },
            },
{
    let ghost l = grid@;
    let mut grid_generator = GridGenerator::new(&*grid);
    let ghost seeded = grid_generator@;
    let report = grid_generator.place_blacks(target_avg_word_len, target_word_count);
    let ghost reached = grid_generator@;
    let cells = grid_generator.cells();
    proof {
        assert(cells@.len() == l.cols * l.rows);
        assert forall|x: int, y: int| l.in_bounds(x, y) implies (match grid.spec_get(x, y) {
            None => cells@[l.index_of(x, y)],
            Some(cell) => cell.letter != ' ' ==> !cells@[l.index_of(x, y)],
        }) by {
            seeded.lemma_index(x, y);
            assert(l.index_of(x, y) == seeded.index(x, y)) by (nonlinear_arith)
                requires
                    l.index_of(x, y) == x + l.cols * y,
                    seeded.index(x, y) == y * l.cols + x,
            ;
            let i = seeded.index(x, y);
            assert(seeded.cells[i] == Board::seed_cell(
                GridGenerator::seed_blocks(&*grid),
                GridGenerator::seed_kept(&*grid),
                x,
                y,
            ));
            if grid.spec_get(x, y) is None {
                assert(seeded.cells[i] is Black);
                assert(reached.cells[i] is Black);
            } else if grid.spec_get(x, y)->0.letter != ' ' {
                assert(Board::is_reserved(seeded.cells[i]));
                assert(reached.cells[i] is White);
            }
        }
    }
    apply_layout(grid, &cells);
    proof {
        let n = choose|n: nat| seeded.reaches(reached, n);
        assert forall|x: int, y: int| l.in_bounds(x, y) implies (#[trigger] grid.spec_get(x, y)
            is None <==> reached.get(x, y) == Some(Cell::Black)) by {
            seeded.lemma_index(x, y);
            assert(l.index_of(x, y) == seeded.index(x, y)) by (nonlinear_arith)
                requires
                    l.index_of(x, y) == x + l.cols * y,
                    seeded.index(x, y) == y * l.cols + x,
            ;
        }
        assert(seeded.reaches(reached, n));
    }
    report
}

} // verus!
