//! Runs: the maximal stretches of open cells that hold a word.

use crate::matrix::{BoolMatrix, Layout};
use vstd::prelude::*;

verus! {

/// A run as `(x, y, length, across)`: its first cell, the number of its cells,
/// and whether it goes across (to the right) or down.
pub type Run = (usize, usize, usize, bool);

/// The cell `k` steps after `(x, y)` in the given direction.
pub open spec fn cell_after(x: int, y: int, across: bool, k: int) -> (int, int) {
    if across {
        (x + k, y)
    } else {
        (x, y + k)
    }
}

/// The run passes through the cell.
pub open spec fn covers(r: Run, x: int, y: int) -> bool {
    exists|k: int| 0 <= k < r.2 && #[trigger] cell_after(r.0 as int, r.1 as int, r.3, k) == (x, y)
}

/// The place of a run in reading order on a board of `cols` columns: by
/// `x + cols * y` of its first cell, and across before down where two runs
/// share that cell.
pub open spec fn reading_rank(cols: nat, r: Run) -> int {
    2 * (r.0 + cols * r.1) + if r.3 {
        0int
    } else {
        1int
    }
}

impl Layout {
    /// The number of consecutive open cells from `(x, y)` on, in the given
    /// direction.
    pub open spec fn extent(self, x: int, y: int, across: bool) -> nat
        decreases
            (if across {
                self.cols - x
            } else {
                self.rows - y
            }),
    {
        if self.is_open(x, y) {
            if across {
                1 + self.extent(x + 1, y, across)
            } else {
                1 + self.extent(x, y + 1, across)
            }
        } else {
            0
        }
    }

    /// A run begins at `(x, y)`: the cell and the next one are open, the one
    /// before it is not.
    pub open spec fn starts_run(self, x: int, y: int, across: bool) -> bool {
        &&& self.is_open(x, y)
        &&& if across {
            !self.is_open(x - 1, y) && self.is_open(x + 1, y)
        } else {
            !self.is_open(x, y - 1) && self.is_open(x, y + 1)
        }
    }

    /// `r` is a run of the board: it begins where a run begins and ends where
    /// the open cells end, so it is maximal and has at least two cells.
    pub open spec fn is_run(self, r: Run) -> bool {
        self.starts_run(r.0 as int, r.1 as int, r.3) && r.2 == self.extent(
            r.0 as int,
            r.1 as int,
            r.3,
        )
    }

    /// The place of a run in the reading order of this board.
    pub open spec fn rank(self, r: Run) -> int {
        reading_rank(self.cols, r)
    }

    /// `runs` is the list of the board's runs in reading order: it holds
    /// every run, nothing else, and each run once.
    pub open spec fn lists_runs(self, runs: Seq<Run>) -> bool {
        &&& forall|r: Run| #[trigger] runs.contains(r) <==> self.is_run(r)
        &&& forall|i: int, j: int|
            0 <= i < j < runs.len() ==> self.rank(#[trigger] runs[i]) < self.rank(
                #[trigger] runs[j],
            )
    }
}

/// Whether a scan that goes through the rows and then through the columns has
/// passed the start of `r` when it stands at position `pos` of line `line`.
pub open spec fn scanned(r: Run, across: bool, line: int, pos: int) -> bool {
    ||| r.3 && !across
    ||| r.3 == across && if across {
        r.1 < line || (r.1 == line && r.0 < pos)
    } else {
        r.0 < line || (r.0 == line && r.1 < pos)
    }
}

/// The coordinate at position `pos` of a row (`across`) or a column.
fn cell_on(line: usize, pos: usize, across: bool) -> (c: (usize, usize))
    ensures
        (c.0 as int, c.1 as int) == if across {
            (pos as int, line as int)
        } else {
            (line as int, pos as int)
        },
{
    if across {
        (pos, line)
    } else {
        (line, pos)
    }
}

/// Whether the cell at position `pos` of the line is open.
pub open spec fn open_on(l: Layout, line: int, pos: int, across: bool) -> bool {
    if across {
        l.is_open(pos, line)
    } else {
        l.is_open(line, pos)
    }
}

/// The open cells from position `pos` of the line on.
pub open spec fn extent_on(l: Layout, line: int, pos: int, across: bool) -> nat {
    if across {
        l.extent(pos, line, across)
    } else {
        l.extent(line, pos, across)
    }
}

/// Appends the runs of one row or column to `runs`, in the order in which
/// they lie.
fn scan_line<M: BoolMatrix>(m: M, line: usize, across: bool, runs: &mut Vec<Run>)
    requires
        line < (if across {
            m.layout().rows
        } else {
            m.layout().cols
        }),
        old(runs)@.no_duplicates(),
        forall|r: Run| #[trigger]
            old(runs)@.contains(r) <==> m.layout().is_run(r) && scanned(r, across, line as int, 0),
    ensures
        final(runs)@.no_duplicates(),
        forall|r: Run| #[trigger]
            final(runs)@.contains(r) <==> m.layout().is_run(r) && scanned(
                r,
                across,
                line + 1,
                0,
            ),
{
    let ghost l = m.layout();
    let n = if across {
        m.cols()
    } else {
        m.rows()
    };
    let mut pos: usize = 0;
    while pos < n
        invariant
            l == m.layout(),
            n == (if across {
                l.cols
            } else {
                l.rows
            }),
            line < (if across {
                l.rows
            } else {
                l.cols
            }),
            pos <= n,
            runs@.no_duplicates(),
            forall|r: Run| #[trigger]
                runs@.contains(r) <==> l.is_run(r) && scanned(r, across, line as int, pos as int),
            !(open_on(l, line as int, pos - 1, across) && open_on(l, line as int, pos as int, across)),
        decreases n - pos,
    {
        let ghost before = runs@;
        let ghost from = pos as int;
        if m.at(cell_on(line, pos, across)) {
            let start = pos;
            let mut length: usize = 1;
            pos += 1;
            let mut open = pos < n && m.at(cell_on(line, pos, across));
            while open
                invariant
                    l == m.layout(),
                    n == (if across {
                        l.cols
                    } else {
                        l.rows
                    }),
                    line < (if across {
                        l.rows
                    } else {
                        l.cols
                    }),
                    start < pos <= n,
                    length == pos - start,
                    open == open_on(l, line as int, pos as int, across),
                    forall|k: int| start <= k < pos ==> open_on(l, line as int, k, across),
                    extent_on(l, line as int, start as int, across) == length + extent_on(
                        l,
                        line as int,
                        pos as int,
                        across,
                    ),
                decreases n - pos,
            {
                length += 1;
                pos += 1;
                open = pos < n && m.at(cell_on(line, pos, across));
            }
            let run: Run = if across {
                (start, line, length, across)
            } else {
                (line, start, length, across)
            };
            assert(extent_on(l, line as int, start as int, across) == length);
            assert(open_on(l, line as int, start as int, across));
            assert(length > 1 ==> open_on(l, line as int, start + 1, across));
            assert(length == 1 ==> !open_on(l, line as int, start + 1, across));
            if length > 1 {
                runs.push(run);
                proof {
                    assert(l.is_run(run));
                    assert(!before.contains(run));
                    assert forall|i: int, j: int|
                        0 <= i < runs@.len() && 0 <= j < runs@.len() && i != j implies runs@[i]
                        != runs@[j] by {
                        if i < before.len() {
                            assert(before.contains(before[i]));
                        }
                        if j < before.len() {
                            assert(before.contains(before[j]));
                        }
                    }
                }
            }
            assert forall|r: Run| #[trigger]
                runs@.contains(r) <==> l.is_run(r) && scanned(
                    r,
                    across,
                    line as int,
                    pos as int,
                ) by {
                vstd::seq_lib::lemma_seq_contains_after_push(before, run, r);
                if l.is_run(r) && r.3 == across && (if across {
                    r.1 == line && from <= r.0 < pos
                } else {
                    r.0 == line && from <= r.1 < pos
                }) {
                    let p = if across {
                        r.0 as int
                    } else {
                        r.1 as int
                    };
                    if p > start {
                        assert(open_on(l, line as int, p - 1, across));
                    } else {
                        assert(r == run);
                    }
                }
            }
        } else {
            pos += 1;
            assert forall|r: Run| #[trigger]
                runs@.contains(r) <==> l.is_run(r) && scanned(
                    r,
                    across,
                    line as int,
                    pos as int,
                ) by {}
        }
    }
}

/// On one board, row-major indices order first cells by row and then by column.
proof fn lemma_rank_by_row(cols: nat, a: Run, b: Run)
    requires
        a.0 < cols,
        b.0 < cols,
    ensures
        a.1 < b.1 ==> reading_rank(cols, a) < reading_rank(cols, b),
        a.1 == b.1 && a.0 < b.0 ==> reading_rank(cols, a) < reading_rank(cols, b),
        a.1 == b.1 && a.0 == b.0 ==> (reading_rank(cols, a) < reading_rank(cols, b) <==> a.3
            && !b.3),
{
    if a.1 < b.1 {
        assert(cols * a.1 + cols <= cols * b.1) by (nonlinear_arith)
            requires
                a.1 < b.1,
        ;
    }
}

/// The number by which runs are sorted: their length, or their place in
/// reading order.
pub open spec fn sort_key(cols: nat, r: Run, by_length: bool) -> int {
    if by_length {
        r.2 as int
    } else {
        reading_rank(cols, r)
    }
}

/// Whether `a` comes before `b` in the chosen order.
fn precedes(a: Run, b: Run, cols: usize, by_length: bool) -> (less: bool)
    requires
        !by_length ==> a.0 < cols && b.0 < cols,
    ensures
        less == (sort_key(cols as nat, a, by_length) < sort_key(cols as nat, b, by_length)),
{
    if by_length {
        a.2 < b.2
    } else {
        proof {
            lemma_rank_by_row(cols as nat, a, b);
            lemma_rank_by_row(cols as nat, b, a);
        }
        if a.1 != b.1 {
            a.1 < b.1
        } else if a.0 != b.0 {
            a.0 < b.0
        } else {
            a.3 && !b.3
        }
    }
}

/// Sorts runs by length or into reading order, keeping each run as often as
/// it occurs.
pub(crate) fn sort_runs(runs: &mut Vec<Run>, cols: usize, by_length: bool)
    requires
        !by_length ==> forall|i: int|
            0 <= i < old(runs)@.len() ==> (#[trigger] old(runs)@[i]).0 < cols,
    ensures
        final(runs)@.to_multiset() == old(runs)@.to_multiset(),
        final(runs)@.len() == old(runs)@.len(),
        forall|i: int, j: int|
            0 <= i < j < final(runs)@.len() ==> sort_key(
                cols as nat,
                #[trigger] final(runs)@[i],
                by_length,
            ) <= sort_key(cols as nat, #[trigger] final(runs)@[j], by_length),
{
    let ghost c = cols as nat;
    let n = runs.len();
    let mut i: usize = 1;
    while i < n
        invariant
            n == runs@.len(),
            c == cols as nat,
            1 <= i,
            runs@.to_multiset() == old(runs)@.to_multiset(),
            !by_length ==> forall|k: int| 0 <= k < runs@.len() ==> (#[trigger] runs@[k]).0 < cols,
            forall|a: int, b: int|
                0 <= a < b < i && b < n ==> sort_key(c, #[trigger] runs@[a], by_length)
                    <= sort_key(c, #[trigger] runs@[b], by_length),
        decreases n - i,
    {
        let mut j: usize = i;
        let mut moving = precedes(runs[j], runs[j - 1], cols, by_length);
        while moving
            invariant
                n == runs@.len(),
                c == cols as nat,
                0 <= j <= i < n,
                runs@.to_multiset() == old(runs)@.to_multiset(),
                !by_length ==> forall|k: int|
                    0 <= k < runs@.len() ==> (#[trigger] runs@[k]).0 < cols,
                moving == (j > 0 && sort_key(c, runs@[j as int], by_length) < sort_key(
                    c,
                    runs@[j - 1],
                    by_length,
                )),
                forall|a: int, b: int|
                    0 <= a < b <= i && a != j && b != j ==> sort_key(
                        c,
                        #[trigger] runs@[a],
                        by_length,
                    ) <= sort_key(c, #[trigger] runs@[b], by_length),
                forall|b: int|
                    j < b <= i ==> sort_key(c, runs@[j as int], by_length) <= sort_key(
                        c,
                        #[trigger] runs@[b],
                        by_length,
                    ),
            decreases j,
        {
            let ghost prior = runs@;
            let lower = runs[j - 1];
            let upper = runs[j];
            runs.set(j - 1, upper);
            runs.set(j, lower);
            proof {
                lemma_swap_keeps_items(prior, j as int);
                assert(runs@ =~= prior.update(j - 1, prior[j as int]).update(j as int, prior[j - 1]));
            }
            j -= 1;
            moving = j > 0 && precedes(runs[j], runs[j - 1], cols, by_length);
        }
        i += 1;
    }
}

/// Exchanging two neighbours of a list keeps its items.
proof fn lemma_swap_keeps_items(prior: Seq<Run>, j: int)
    requires
        0 < j < prior.len(),
    ensures
        prior.update(j - 1, prior[j]).update(j, prior[j - 1]).to_multiset() == prior.to_multiset(),
{
    broadcast use vstd::multiset::group_multiset_axioms;

    let lower = prior[j - 1];
    let upper = prior[j];
    let half = prior.update(j - 1, upper);
    vstd::seq_lib::to_multiset_update(prior, j - 1, upper);
    vstd::seq_lib::to_multiset_update(half, j, lower);
    let whole = prior.to_multiset();
    assert(prior.contains(lower));
    vstd::seq_lib::to_multiset_contains(prior, lower);
    assert forall|r: Run|
        whole.insert(upper).remove(lower).insert(lower).remove(upper).count(r) == whole.count(
            r,
        ) by {
        let one = whole.insert(upper);
        let two = one.remove(lower);
        let three = two.insert(lower);
        assert(one.count(r) == whole.count(r) + if r == upper {
            1int
        } else {
            0int
        });
        assert(one.count(lower) > 0);
        assert(two.count(r) == one.count(r) - if r == lower {
            1int
        } else {
            0int
        });
        assert(three.count(r) == two.count(r) + if r == lower {
            1int
        } else {
            0int
        });
        assert(three.count(upper) > 0);
    }
    assert(half.update(j, lower).to_multiset() =~= whole);
}

/// Finds the runs of a board: every maximal stretch of two or more open cells
/// in a row, and every such stretch in a column, in reading order.
pub fn find_runs<M: BoolMatrix>(m: M) -> (runs: Vec<Run>)
    ensures
        m.layout().lists_runs(runs@),
{
    let ghost l = m.layout();
    let mut runs: Vec<Run> = Vec::new();
    let n_rows = m.rows();
    let n_cols = m.cols();
    let mut y: usize = 0;
    while y < n_rows
        invariant
            l == m.layout(),
            n_rows == l.rows,
            y <= n_rows,
            runs@.no_duplicates(),
            forall|r: Run| #[trigger]
                runs@.contains(r) <==> l.is_run(r) && scanned(r, true, y as int, 0),
        decreases n_rows - y,
    {
        scan_line(m, y, true, &mut runs);
        y += 1;
    }
    let mut x: usize = 0;
    while x < n_cols
        invariant
            l == m.layout(),
            n_cols == l.cols,
            x <= n_cols,
            runs@.no_duplicates(),
            forall|r: Run| #[trigger]
                runs@.contains(r) <==> l.is_run(r) && scanned(r, false, x as int, 0),
        decreases n_cols - x,
    {
        scan_line(m, x, false, &mut runs);
        x += 1;
    }
    let ghost found = runs@;
    assert forall|i: int| 0 <= i < found.len() implies (#[trigger] found[i]).0 < n_cols by {
        assert(found.contains(found[i]));
    }
    sort_runs(&mut runs, n_cols, false);
    proof {
        lemma_same_runs(found, runs@);
        assert forall|r: Run| #[trigger] runs@.contains(r) <==> l.is_run(r) by {}
        assert forall|i: int, j: int| 0 <= i < j < runs@.len() implies l.rank(#[trigger] runs@[i])
            < l.rank(#[trigger] runs@[j]) by {
            let a = runs@[i];
            let b = runs@[j];
            assert(runs@.contains(a) && runs@.contains(b));
            lemma_rank_by_row(l.cols, a, b);
            lemma_rank_by_row(l.cols, b, a);
        }
    }
    runs
}

/// A rearrangement of a list without repetitions holds the same items, again
/// without repetitions.
pub proof fn lemma_same_runs(before: Seq<Run>, after: Seq<Run>)
    requires
        before.no_duplicates(),
        before.to_multiset() == after.to_multiset(),
    ensures
        after.no_duplicates(),
        forall|r: Run| #[trigger] after.contains(r) <==> before.contains(r),
{
    before.lemma_multiset_has_no_duplicates();
    after.lemma_multiset_has_no_duplicates_conv();
    assert forall|r: Run| #[trigger] after.contains(r) <==> before.contains(r) by {
        vstd::seq_lib::to_multiset_contains(before, r);
        vstd::seq_lib::to_multiset_contains(after, r);
    }
}

impl Layout {
    /// The cells counted by `extent` are open, and the cell after them is not.
    pub proof fn lemma_extent_cells(self, x: int, y: int, across: bool)
        ensures
            forall|k: int|
                0 <= k < self.extent(x, y, across) ==> {
                    let c = #[trigger] cell_after(x, y, across, k);
                    self.is_open(c.0, c.1)
                },
            ({
                let c = cell_after(x, y, across, self.extent(x, y, across) as int);
                !self.is_open(c.0, c.1)
            }),
        decreases self.extent(x, y, across),
    {
        if self.is_open(x, y) {
            let next = cell_after(x, y, across, 1);
            self.lemma_extent_cells(next.0, next.1, across);
            assert forall|k: int| 0 <= k < self.extent(x, y, across) implies {
                let c = #[trigger] cell_after(x, y, across, k);
                self.is_open(c.0, c.1)
            } by {
                if k > 0 {
                    assert(cell_after(x, y, across, k) == cell_after(
                        next.0,
                        next.1,
                        across,
                        k - 1,
                    ));
                }
            }
            assert(cell_after(x, y, across, self.extent(x, y, across) as int) == cell_after(
                next.0,
                next.1,
                across,
                self.extent(next.0, next.1, across) as int,
            ));
        }
    }

    /// A run has at least two cells, all of them open cells of the board, and
    /// it cannot be extended at either end.
    pub proof fn lemma_run_shape(self, r: Run)
        requires
            self.is_run(r),
        ensures
            r.2 >= 2,
            forall|x: int, y: int| covers(r, x, y) ==> self.is_open(x, y),
            ({
                let before = cell_after(r.0 as int, r.1 as int, r.3, -1);
                let after = cell_after(r.0 as int, r.1 as int, r.3, r.2 as int);
                !self.is_open(before.0, before.1) && !self.is_open(after.0, after.1)
            }),
    {
        let x = r.0 as int;
        let y = r.1 as int;
        let next = cell_after(x, y, r.3, 1);
        assert(self.extent(x, y, r.3) == 1 + self.extent(next.0, next.1, r.3));
        assert(self.extent(next.0, next.1, r.3) >= 1);
        self.lemma_extent_cells(x, y, r.3);
        assert forall|cx: int, cy: int| covers(r, cx, cy) implies self.is_open(cx, cy) by {
            let k = choose|k: int|
                0 <= k < r.2 && #[trigger] cell_after(r.0 as int, r.1 as int, r.3, k) == (cx, cy);
            assert(self.is_open(cell_after(x, y, r.3, k).0, cell_after(x, y, r.3, k).1));
        }
    }

    /// Two runs of the same orientation that share a cell are one run: the
    /// runs of one orientation are disjoint.
    pub proof fn lemma_runs_disjoint(self, a: Run, b: Run, x: int, y: int)
        requires
            self.is_run(a),
            self.is_run(b),
            a.3 == b.3,
            covers(a, x, y),
            covers(b, x, y),
        ensures
            a == b,
    {
        let ka = choose|k: int|
            0 <= k < a.2 && #[trigger] cell_after(a.0 as int, a.1 as int, a.3, k) == (x, y);
        let kb = choose|k: int|
            0 <= k < b.2 && #[trigger] cell_after(b.0 as int, b.1 as int, b.3, k) == (x, y);
        self.lemma_extent_cells(a.0 as int, a.1 as int, a.3);
        self.lemma_extent_cells(b.0 as int, b.1 as int, b.3);
        if ka > kb {
            // The start of `b` lies inside `a`, so the cell before it is open.
            let c = cell_after(a.0 as int, a.1 as int, a.3, ka - kb - 1);
            assert(self.is_open(c.0, c.1));
            assert(c == cell_after(b.0 as int, b.1 as int, b.3, -1));
        } else if kb > ka {
            let c = cell_after(b.0 as int, b.1 as int, b.3, kb - ka - 1);
            assert(self.is_open(c.0, c.1));
            assert(c == cell_after(a.0 as int, a.1 as int, a.3, -1));
        }
    }

    /// The list of a board's runs is determined by the board.
    pub proof fn lemma_run_list_unique(self, a: Seq<Run>, b: Seq<Run>)
        requires
            self.lists_runs(a),
            self.lists_runs(b),
        ensures
            a == b,
    {
        let rank = |r: Run| self.rank(r);
        assert forall|r: Run| a.contains(r) <==> b.contains(r) by {}
        lemma_ranked_unique(a, b, rank);
    }
}

/// Two lists in strictly increasing order of a rank that hold the same items
/// are the same list.
pub proof fn lemma_ranked_unique<T>(a: Seq<T>, b: Seq<T>, rank: spec_fn(T) -> int)
    requires
        forall|i: int, j: int| 0 <= i < j < a.len() ==> rank(#[trigger] a[i]) < rank(#[trigger] a[j]),
        forall|i: int, j: int| 0 <= i < j < b.len() ==> rank(#[trigger] b[i]) < rank(#[trigger] b[j]),
        forall|t: T| a.contains(t) <==> b.contains(t),
    ensures
        a == b,
    decreases a.len(),
{
    if a.len() == 0 {
        if b.len() > 0 {
            assert(b.contains(b[0]));
        }
        assert(a =~= b);
    } else if b.len() == 0 {
        assert(a.contains(a[0]));
    } else {
        let la = a.last();
        let lb = b.last();
        assert(a.contains(la) && b.contains(lb));
        assert(b.contains(la) && a.contains(lb));
        let ia = choose|i: int| 0 <= i < a.len() && a[i] == lb;
        let ib = choose|i: int| 0 <= i < b.len() && b[i] == la;
        assert(la == lb);
        let a0 = a.drop_last();
        let b0 = b.drop_last();
        assert forall|t: T| a0.contains(t) <==> b0.contains(t) by {
            if a0.contains(t) {
                let i = choose|i: int| 0 <= i < a0.len() && a0[i] == t;
                assert(a[i] == t);
                assert(a.contains(t));
                let j = choose|j: int| 0 <= j < b.len() && b[j] == t;
                assert(j < b.len() - 1);
                assert(b0[j] == t);
            }
            if b0.contains(t) {
                let i = choose|i: int| 0 <= i < b0.len() && b0[i] == t;
                assert(b[i] == t);
                assert(b.contains(t));
                let j = choose|j: int| 0 <= j < a.len() && a[j] == t;
                assert(j < a.len() - 1);
                assert(a0[j] == t);
            }
        }
        lemma_ranked_unique(a0, b0, rank);
        assert(a =~= a0.push(la));
        assert(b =~= b0.push(lb));
    }
}

} // verus!
