//! The mathematical model of the answer index: which heads a board has, which
//! word slots hang on them, and which annotations carry over from an earlier
//! index.

use crate::matrix::Layout;
use crate::runs::{lemma_ranked_unique, Run};
use vstd::prelude::*;

verus! {

/// A word slot as a mathematical value: its cells, first to last, and its
/// annotation.
pub ghost struct WordView {
    pub answer: Seq<(usize, usize)>,
    pub clue: Seq<char>,
}

/// A head as a mathematical value: the first cell of its runs, and the slot
/// of the run that goes across and of the one that goes down.
pub ghost struct HeadView {
    pub head: (usize, usize),
    pub down: Option<WordView>,
    pub across: Option<WordView>,
}

impl HeadView {
    /// The slot of one orientation.
    pub open spec fn word(self, across: bool) -> Option<WordView> {
        if across {
            self.across
        } else {
            self.down
        }
    }
}

/// The annotation of a slot that was never annotated.
pub open spec fn default_clue() -> Seq<char> {
    "Enter a clue"@
}

/// The cells of the run of `len` cells that begins at `head`.
pub open spec fn word_cells(head: (usize, usize), len: nat, across: bool) -> Seq<(usize, usize)> {
    Seq::new(
        len,
        |k: int|
            if across {
                ((head.0 + k) as usize, head.1)
            } else {
                (head.0, (head.1 + k) as usize)
            },
    )
}

/// The first head of the list that stands at the coordinate.
pub open spec fn find_head(heads: Seq<HeadView>, head: (usize, usize)) -> Option<HeadView>
    decreases heads.len(),
{
    if heads.len() == 0 {
        None
    } else if heads.first().head == head {
        Some(heads.first())
    } else {
        find_head(heads.drop_first(), head)
    }
}

/// The annotation that a slot gets when the index is rebuilt: that of the
/// earlier index's slot at the same head with the same orientation and
/// length, and the default where there is none.
pub open spec fn carried_clue(
    prev: Option<Seq<HeadView>>,
    head: (usize, usize),
    len: nat,
    across: bool,
) -> Seq<char> {
    match prev {
        Some(p) => match find_head(p, head) {
            Some(h) => match h.word(across) {
                Some(w) => if w.answer.len() == len {
                    w.clue
                } else {
                    default_clue()
                },
                None => default_clue(),
            },
            None => default_clue(),
        },
        None => default_clue(),
    }
}

/// The slot that the rebuilt index holds at `head` for one orientation:
/// the cells of the run that begins there, if one does.
pub open spec fn word_at(
    l: Layout,
    prev: Option<Seq<HeadView>>,
    head: (usize, usize),
    across: bool,
) -> Option<WordView> {
    if l.starts_run(head.0 as int, head.1 as int, across) {
        let len = l.extent(head.0 as int, head.1 as int, across);
        Some(
            WordView {
                answer: word_cells(head, len, across),
                clue: carried_clue(prev, head, len, across),
            },
        )
    } else {
        None
    }
}

/// The head that the rebuilt index holds at `head`.
pub open spec fn head_at(l: Layout, prev: Option<Seq<HeadView>>, head: (usize, usize))
    -> HeadView {
    HeadView { head, across: word_at(l, prev, head, true), down: word_at(l, prev, head, false) }
}

/// A run of some orientation begins at the coordinate.
pub open spec fn is_head(l: Layout, head: (usize, usize)) -> bool {
    l.starts_run(head.0 as int, head.1 as int, true) || l.starts_run(
        head.0 as int,
        head.1 as int,
        false,
    )
}

/// `heads` is the index of the board, rebuilt with `prev` as the earlier
/// index: it holds one head for each cell at which a run begins, in reading
/// order, and each head holds the slots of the runs that begin there.
pub open spec fn is_index(heads: Seq<HeadView>, l: Layout, prev: Option<Seq<HeadView>>) -> bool {
    &&& forall|j: int|
        0 <= j < heads.len() ==> is_head(l, (#[trigger] heads[j]).head) && heads[j] == head_at(
            l,
            prev,
            heads[j].head,
        )
    &&& forall|i: int, j: int|
        0 <= i < j < heads.len() ==> l.index_of(
            (#[trigger] heads[i]).head.0 as int,
            heads[i].head.1 as int,
        ) < l.index_of((#[trigger] heads[j]).head.0 as int, heads[j].head.1 as int)
    &&& forall|head: (usize, usize)| #[trigger]
        is_head(l, head) ==> exists|j: int|
            0 <= j < heads.len() && (#[trigger] heads[j]).head == head
}

/// Cells of one board with the same row-major index are the same cell.
pub proof fn lemma_index_injective(l: Layout, a: (usize, usize), b: (usize, usize))
    requires
        l.in_bounds(a.0 as int, a.1 as int),
        l.in_bounds(b.0 as int, b.1 as int),
        l.index_of(a.0 as int, a.1 as int) == l.index_of(b.0 as int, b.1 as int),
    ensures
        a == b,
{
    let c = l.cols as int;
    if a.1 < b.1 {
        assert(c * a.1 + c <= c * b.1) by (nonlinear_arith)
            requires
                a.1 < b.1,
                c > 0,
        ;
    }
    if b.1 < a.1 {
        assert(c * b.1 + c <= c * a.1) by (nonlinear_arith)
            requires
                b.1 < a.1,
                c > 0,
        ;
    }
}

/// The index of a board is determined by the board and the earlier index.
pub proof fn lemma_index_unique(
    a: Seq<HeadView>,
    b: Seq<HeadView>,
    l: Layout,
    prev: Option<Seq<HeadView>>,
)
    requires
        is_index(a, l, prev),
        is_index(b, l, prev),
    ensures
        a == b,
{
    let rank = |h: HeadView| l.index_of(h.head.0 as int, h.head.1 as int);
    assert forall|t: HeadView| a.contains(t) <==> b.contains(t) by {
        if a.contains(t) {
            let i = choose|i: int| 0 <= i < a.len() && a[i] == t;
            assert(is_head(l, a[i].head));
            let j = choose|j: int| 0 <= j < b.len() && (#[trigger] b[j]).head == t.head;
            assert(b[j] == t);
        }
        if b.contains(t) {
            let i = choose|i: int| 0 <= i < b.len() && b[i] == t;
            assert(is_head(l, b[i].head));
            let j = choose|j: int| 0 <= j < a.len() && (#[trigger] a[j]).head == t.head;
            assert(a[j] == t);
        }
    }
    lemma_ranked_unique(a, b, rank);
}

/// Where no earlier head of a list stands at the coordinate of the head at
/// `j`, that head is the one found there; where no head stands at a
/// coordinate, none is found.
pub proof fn lemma_find_head(heads: Seq<HeadView>, head: (usize, usize), j: int)
    requires
        0 <= j,
        forall|i: int| 0 <= i < heads.len() && i < j ==> (#[trigger] heads[i]).head != head,
        j < heads.len() ==> heads[j].head == head,
    ensures
        j < heads.len() ==> find_head(heads, head) == Some(heads[j]),
        j >= heads.len() ==> find_head(heads, head) is None,
    decreases heads.len(),
{
    if heads.len() > 0 {
        let rest = heads.drop_first();
        if j == 0 {
        } else {
            assert(heads[0].head != head);
            assert forall|i: int| 0 <= i < rest.len() && i < j - 1 implies (
            #[trigger] rest[i]).head != head by {
                assert(rest[i] == heads[i + 1]);
            }
            lemma_find_head(rest, head, j - 1);
        }
    }
}

/// The heads of an index stand at different cells, so each is the one found
/// at its coordinate.
pub proof fn lemma_index_lookup(
    heads: Seq<HeadView>,
    l: Layout,
    prev: Option<Seq<HeadView>>,
    j: int,
)
    requires
        is_index(heads, l, prev),
        0 <= j < heads.len(),
    ensures
        find_head(heads, heads[j].head) == Some(heads[j]),
{
    assert forall|i: int| 0 <= i < heads.len() && i < j implies (#[trigger] heads[i]).head
        != heads[j].head by {
        assert(l.index_of(heads[i].head.0 as int, heads[i].head.1 as int) < l.index_of(
            heads[j].head.0 as int,
            heads[j].head.1 as int,
        ));
    }
    lemma_find_head(heads, heads[j].head, j);
}

/// Round trip: an index that is rebuilt from an unchanged board, with itself
/// as the earlier index, comes out as it was, annotations included.
pub proof fn lemma_rebuild_idempotent(
    first: Seq<HeadView>,
    second: Seq<HeadView>,
    l: Layout,
    prev: Option<Seq<HeadView>>,
)
    requires
        is_index(first, l, prev),
        is_index(second, l, Some(first)),
    ensures
        second == first,
{
    assert forall|j: int| 0 <= j < first.len() implies (#[trigger] first[j]) == head_at(
        l,
        Some(first),
        first[j].head,
    ) by {
        let h = first[j];
        assert(h == head_at(l, prev, h.head));
        lemma_index_lookup(first, l, prev, j);
    }
    assert(is_index(first, l, Some(first)));
    lemma_index_unique(second, first, l, Some(first));
}

/// Annotation preservation: the rebuilt index holds a slot for each run of
/// the board. The slot has the annotation of the earlier index's slot at the
/// same head, if that slot has the run's orientation and length; it has the
/// default annotation if the length differs or the earlier index holds no
/// such slot.
pub proof fn lemma_annotation_carried(
    heads: Seq<HeadView>,
    l: Layout,
    before: Seq<HeadView>,
    origin: Layout,
    earlier: Option<Seq<HeadView>>,
    k: int,
    head: (usize, usize),
    across: bool,
)
    requires
        is_index(before, origin, earlier),
        is_index(heads, l, Some(before)),
        l.starts_run(head.0 as int, head.1 as int, across),
    ensures
        exists|j: int|
            0 <= j < heads.len() && (#[trigger] heads[j]).head == head && heads[j].word(across)
                == word_at(l, Some(before), head, across),
        word_at(l, Some(before), head, across) is Some,
        0 <= k < before.len() && before[k].head == head ==> word_at(
            l,
            Some(before),
            head,
            across,
        )->0.clue == match before[k].word(across) {
            Some(w) => if w.answer.len() == l.extent(head.0 as int, head.1 as int, across) {
                w.clue
            } else {
                default_clue()
            },
            None => default_clue(),
        },
        (forall|i: int| 0 <= i < before.len() ==> (#[trigger] before[i]).head != head) ==> word_at(
            l,
            Some(before),
            head,
            across,
        )->0.clue == default_clue(),
{
    assert(is_head(l, head));
    let j = choose|j: int| 0 <= j < heads.len() && (#[trigger] heads[j]).head == head;
    assert(heads[j] == head_at(l, Some(before), head));
    if 0 <= k < before.len() && before[k].head == head {
        lemma_index_lookup(before, origin, earlier, k);
    }
    if forall|i: int| 0 <= i < before.len() ==> (#[trigger] before[i]).head != head {
        lemma_find_head(before, head, before.len() as int);
    }
}

/// Among the first `i` runs there is one that begins at `head` and has the
/// given orientation.
pub open spec fn seen(runs: Seq<Run>, i: int, head: (usize, usize), across: bool) -> bool {
    exists|k: int|
        0 <= k < i && (#[trigger] runs[k]).0 == head.0 && runs[k].1 == head.1 && runs[k].3
            == across
}

/// `heads` is the index of the first `i` runs of the board: it holds one head
/// for each cell at which one of them begins, in reading order, and each head
/// holds the slots of those of them that begin there.
pub open spec fn is_partial(
    heads: Seq<HeadView>,
    runs: Seq<Run>,
    i: int,
    l: Layout,
    prev: Option<Seq<HeadView>>,
) -> bool {
    &&& forall|j: int|
        0 <= j < heads.len() ==> {
            let h = #[trigger] heads[j];
            &&& l.in_bounds(h.head.0 as int, h.head.1 as int)
            &&& seen(runs, i, h.head, true) || seen(runs, i, h.head, false)
            &&& h.across == if seen(runs, i, h.head, true) {
                word_at(l, prev, h.head, true)
            } else {
                None
            }
            &&& h.down == if seen(runs, i, h.head, false) {
                word_at(l, prev, h.head, false)
            } else {
                None
            }
        }
    &&& forall|a: int, b: int|
        0 <= a < b < heads.len() ==> l.index_of(
            (#[trigger] heads[a]).head.0 as int,
            heads[a].head.1 as int,
        ) < l.index_of((#[trigger] heads[b]).head.0 as int, heads[b].head.1 as int)
    &&& forall|k: int|
        0 <= k < i ==> exists|j: int|
            0 <= j < heads.len() && (#[trigger] heads[j]).head == ((#[trigger] runs[k]).0, runs[k].1)
}

/// The head that stands at the start of a run once the run is filed.
pub open spec fn with_word(h: HeadView, run: Run, l: Layout, prev: Option<Seq<HeadView>>)
    -> HeadView {
    if run.3 {
        HeadView { across: word_at(l, prev, h.head, true), ..h }
    } else {
        HeadView { down: word_at(l, prev, h.head, false), ..h }
    }
}

impl Layout {
    /// A stretch of open cells ends on the board.
    pub proof fn lemma_extent_bound(self, x: int, y: int, across: bool)
        requires
            0 <= x,
            0 <= y,
        ensures
            across ==> x + self.extent(x, y, across) <= self.cols || self.extent(x, y, across) == 0,
            !across ==> y + self.extent(x, y, across) <= self.rows || self.extent(x, y, across)
                == 0,
        decreases self.extent(x, y, across),
    {
        if self.is_open(x, y) {
            if across {
                self.lemma_extent_bound(x + 1, y, across);
            } else {
                self.lemma_extent_bound(x, y + 1, across);
            }
        }
    }
}

/// Filing the next run keeps the partial index: the run's slot is written to
/// the head at its start, which is appended if it is not there yet.
pub proof fn lemma_partial_step(
    before: Seq<HeadView>,
    after: Seq<HeadView>,
    runs: Seq<Run>,
    i: int,
    l: Layout,
    prev: Option<Seq<HeadView>>,
    at: int,
)
    requires
        l.lists_runs(runs),
        0 <= i < runs.len(),
        is_partial(before, runs, i, l, prev),
        0 <= at <= before.len(),
        at < before.len() ==> before[at].head == (runs[i].0, runs[i].1) && after == before.update(
            at,
            with_word(before[at], runs[i], l, prev),
        ),
        at == before.len() ==> (forall|j: int|
            0 <= j < before.len() ==> (#[trigger] before[j]).head != (runs[i].0, runs[i].1))
            && after == before.push(
            with_word(
                HeadView { head: (runs[i].0, runs[i].1), across: None, down: None },
                runs[i],
                l,
                prev,
            ),
        ),
    ensures
        is_partial(after, runs, i + 1, l, prev),
{
    let run = runs[i];
    let coord = (run.0, run.1);
    assert(runs.contains(run));
    assert(l.is_run(run));
    assert forall|c: (usize, usize), o: bool|
        seen(runs, i + 1, c, o) <==> seen(runs, i, c, o) || (c == coord && o == run.3) by {
        if seen(runs, i + 1, c, o) {
            let k = choose|k: int|
                0 <= k < i + 1 && (#[trigger] runs[k]).0 == c.0 && runs[k].1 == c.1 && runs[k].3
                    == o;
            if k < i {
                assert(seen(runs, i, c, o));
            }
        }
        if seen(runs, i, c, o) {
            let k = choose|k: int|
                0 <= k < i && (#[trigger] runs[k]).0 == c.0 && runs[k].1 == c.1 && runs[k].3 == o;
            assert(0 <= k < i + 1);
        }
        if c == coord && o == run.3 {
            assert(runs[i].0 == c.0);
        }
    }
    if at == before.len() {
        assert forall|o: bool| !seen(runs, i, coord, o) by {
            if seen(runs, i, coord, o) {
                let k = choose|k: int|
                    0 <= k < i && (#[trigger] runs[k]).0 == coord.0 && runs[k].1 == coord.1
                        && runs[k].3 == o;
                let j = choose|j: int|
                    0 <= j < before.len() && (#[trigger] before[j]).head == (runs[k].0, runs[k].1);
                assert(before[j].head == coord);
            }
        }
        assert(!seen(runs, i, coord, true) && !seen(runs, i, coord, false));
        assert forall|a: int| 0 <= a < before.len() implies l.index_of(
            (#[trigger] before[a]).head.0 as int,
            before[a].head.1 as int,
        ) < l.index_of(coord.0 as int, coord.1 as int) by {
            let h = before[a];
            let o = seen(runs, i, h.head, true);
            let k = choose|k: int|
                0 <= k < i && (#[trigger] runs[k]).0 == h.head.0 && runs[k].1 == h.head.1
                    && runs[k].3 == o;
            assert(l.rank(runs[k]) < l.rank(runs[i]));
            if l.index_of(h.head.0 as int, h.head.1 as int) == l.index_of(
                coord.0 as int,
                coord.1 as int,
            ) {
                lemma_index_injective(l, h.head, coord);
            }
        }
    }
    assert forall|j: int| 0 <= j < after.len() implies {
        let h = #[trigger] after[j];
        &&& l.in_bounds(h.head.0 as int, h.head.1 as int)
        &&& seen(runs, i + 1, h.head, true) || seen(runs, i + 1, h.head, false)
        &&& h.across == if seen(runs, i + 1, h.head, true) {
            word_at(l, prev, h.head, true)
        } else {
            None
        }
        &&& h.down == if seen(runs, i + 1, h.head, false) {
            word_at(l, prev, h.head, false)
        } else {
            None
        }
    } by {
        if j != at {
            assert(after[j] == before[j]);
            assert(before[j].head != coord) by {
                if at < before.len() && before[j].head == coord {
                    if j < at {
                        assert(l.index_of(before[j].head.0 as int, before[j].head.1 as int)
                            < l.index_of(before[at].head.0 as int, before[at].head.1 as int));
                    } else {
                        assert(l.index_of(before[at].head.0 as int, before[at].head.1 as int)
                            < l.index_of(before[j].head.0 as int, before[j].head.1 as int));
                    }
                }
            }
        }
    }
    assert forall|k: int| 0 <= k < i + 1 implies exists|j: int|
        0 <= j < after.len() && (#[trigger] after[j]).head == ((#[trigger] runs[k]).0, runs[k].1) by {
        if k < i {
            let j = choose|j: int|
                0 <= j < before.len() && (#[trigger] before[j]).head == (runs[k].0, runs[k].1);
            assert(after[j].head == before[j].head);
        } else {
            assert(after[at].head == coord);
        }
    }
    assert forall|a: int, b: int| 0 <= a < b < after.len() implies l.index_of(
        (#[trigger] after[a]).head.0 as int,
        after[a].head.1 as int,
    ) < l.index_of((#[trigger] after[b]).head.0 as int, after[b].head.1 as int) by {
        assert(after[a].head == if a < before.len() {
            before[a].head
        } else {
            coord
        });
        assert(after[b].head == if b < before.len() {
            before[b].head
        } else {
            coord
        });
    }
}

/// Once every run is filed, the partial index is the index of the board.
pub proof fn lemma_partial_done(
    heads: Seq<HeadView>,
    runs: Seq<Run>,
    l: Layout,
    prev: Option<Seq<HeadView>>,
)
    requires
        l.lists_runs(runs),
        l.cols <= usize::MAX,
        l.rows <= usize::MAX,
        is_partial(heads, runs, runs.len() as int, l, prev),
    ensures
        is_index(heads, l, prev),
{
    let n = runs.len() as int;
    assert forall|c: (usize, usize), o: bool| seen(runs, n, c, o) <==> l.starts_run(
        c.0 as int,
        c.1 as int,
        o,
    ) by {
        if seen(runs, n, c, o) {
            let k = choose|k: int|
                0 <= k < n && (#[trigger] runs[k]).0 == c.0 && runs[k].1 == c.1 && runs[k].3 == o;
            assert(runs.contains(runs[k]));
        }
        if l.starts_run(c.0 as int, c.1 as int, o) {
            l.lemma_extent_bound(c.0 as int, c.1 as int, o);
            let len = l.extent(c.0 as int, c.1 as int, o);
            let r: Run = (c.0, c.1, len as usize, o);
            assert(l.is_run(r));
            assert(runs.contains(r));
            let k = choose|k: int| 0 <= k < runs.len() && runs[k] == r;
            assert(runs[k].0 == c.0);
        }
    }
    assert forall|head: (usize, usize)| #[trigger] is_head(l, head) implies exists|j: int|
        0 <= j < heads.len() && (#[trigger] heads[j]).head == head by {
        let o = l.starts_run(head.0 as int, head.1 as int, true);
        assert(seen(runs, n, head, o));
        let k = choose|k: int|
            0 <= k < n && (#[trigger] runs[k]).0 == head.0 && runs[k].1 == head.1 && runs[k].3
                == o;
        let j = choose|j: int|
            0 <= j < heads.len() && (#[trigger] heads[j]).head == (runs[k].0, runs[k].1);
        assert(heads[j].head == head);
    }
}

/// The head's slot of one orientation passes through the cell.
pub open spec fn slot_covers(h: HeadView, across: bool, cell: (usize, usize)) -> bool {
    h.word(across) matches Some(w) && w.answer.contains(cell)
}

/// The number of the last head whose slot of one orientation passes through
/// the cell. In the index of a board at most one does, as the runs of one
/// orientation are disjoint.
pub open spec fn answer_at(heads: Seq<HeadView>, cell: (usize, usize), across: bool) -> Option<
    int,
>
    decreases heads.len(),
{
    if heads.len() == 0 {
        None
    } else if slot_covers(heads.last(), across, cell) {
        Some(heads.len() - 1)
    } else {
        answer_at(heads.drop_last(), cell, across)
    }
}

/// What `answer_at` finds is a head whose slot passes through the cell, and
/// it finds one wherever there is one.
pub proof fn lemma_answer_at(heads: Seq<HeadView>, cell: (usize, usize), across: bool)
    ensures
        match answer_at(heads, cell, across) {
            Some(j) => 0 <= j < heads.len() && slot_covers(heads[j], across, cell) && forall|i: int|
                j < i < heads.len() ==> !slot_covers(#[trigger] heads[i], across, cell),
            None => forall|i: int|
                0 <= i < heads.len() ==> !slot_covers(#[trigger] heads[i], across, cell),
        },
    decreases heads.len(),
{
    if heads.len() > 0 && !slot_covers(heads.last(), across, cell) {
        lemma_answer_at(heads.drop_last(), cell, across);
        assert forall|i: int| 0 <= i < heads.len() - 1 implies heads.drop_last()[i]
            == heads[i] by {}
    }
}

} // verus!
