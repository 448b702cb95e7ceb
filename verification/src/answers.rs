//! The answer index: the heads of a board and the word slots that hang on
//! them.

use crate::index::{
    answer_at, carried_clue, default_clue, find_head, is_index, is_partial, lemma_find_head,
    lemma_index_injective, lemma_partial_done, lemma_partial_step, with_word, word_at,
    word_cells, HeadView, WordView,
};
use crate::matrix::{BoolMatrix, Grid, Layout};
use crate::runs::{cell_after, covers, find_runs, Run};
use std::collections::HashMap;
use vstd::prelude::*;

verus! {

/// A word slot: its cells, first to last, and the annotation that the user
/// edits.
pub struct Word {
    pub answer: Vec<(usize, usize)>,
    pub clue: String,
}

impl Word {
    /// The slot as a mathematical value.
    pub open spec fn view(&self) -> WordView {
        WordView { answer: self.answer@, clue: self.clue@ }
    }
}

/// The entry of the index for a cell at which a run begins.
pub struct Head {
    pub head: (usize, usize),
    pub down: Option<Word>,
    pub across: Option<Word>,
}

/// The slot as a mathematical value.
pub open spec fn slot_view(slot: Option<Word>) -> Option<WordView> {
    match slot {
        Some(w) => Some(w@),
        None => None,
    }
}

impl Head {
    /// The head as a mathematical value.
    pub open spec fn view(&self) -> HeadView {
        HeadView { head: self.head, down: slot_view(self.down), across: slot_view(self.across) }
    }

    /// The slot of one orientation.
    pub fn word(&self, across: bool) -> (slot: &Option<Word>)
        ensures
            *slot == if across {
                self.across
            } else {
                self.down
            },
    {
        if across {
            &self.across
        } else {
            &self.down
        }
    }

    /// The slot of one orientation, to be written.
    pub fn word_mut(&mut self, across: bool) -> (slot: &mut Option<Word>)
        ensures
            *slot == if across {
                old(self).across
            } else {
                old(self).down
            },
            *final(self) == if across {
                Head { head: old(self).head, down: old(self).down, across: *final(slot) }
            } else {
                Head { head: old(self).head, down: *final(slot), across: old(self).across }
            },
    {
        if across {
            &mut self.across
        } else {
            &mut self.down
        }
    }
}

/// The heads as mathematical values.
pub open spec fn heads_view(heads: Seq<Head>) -> Seq<HeadView> {
    Seq::new(heads.len(), |j: int| heads[j]@)
}

/// The earlier index as a mathematical value.
pub open spec fn earlier_view(this: Option<&Answers>) -> Option<Seq<HeadView>> {
    match this {
        Some(t) => Some(t@),
        None => None,
    }
}

/// The key under which a cell is filed: its row-major index.
pub open spec fn key_of(cols: nat, cell: (usize, usize)) -> int {
    cell.0 + cols * cell.1
}

/// The slot of a head, if it has one, lists the cells of a run that begins at
/// the head and stays on a board of the given size.
pub open spec fn slot_fits(h: HeadView, across: bool, cols: nat, rows: nat) -> bool {
    h.word(across) matches Some(w) ==> {
        &&& w.answer == word_cells(h.head, w.answer.len(), across)
        &&& if across {
            h.head.0 + w.answer.len() <= cols
        } else {
            h.head.1 + w.answer.len() <= rows
        }
    }
}

/// The index of a board's runs, by the cell at which they begin.
pub struct Answers {
    answer_keys: HashMap<usize, usize>,
    answers: Vec<Head>,
    cols: usize,
    rows: usize,
}

/// The key of a cell of a board whose cells can be counted.
fn cell_key(cols: usize, rows: usize, cell: (usize, usize)) -> (key: Option<usize>)
    requires
        cols * rows <= usize::MAX,
    ensures
        key is Some <==> cell.0 < cols && cell.1 < rows,
        key matches Some(k) ==> k == key_of(cols as nat, cell),
{
    if cell.0 < cols && cell.1 < rows {
        assert(cell.0 + cols * cell.1 < cols * rows) by (nonlinear_arith)
            requires
                cell.0 < cols,
                cell.1 < rows,
        ;
        assert(cols * cell.1 >= 0) by (nonlinear_arith);
        Some(cell.0 + cols * cell.1)
    } else {
        None
    }
}

/// Cells of one board that are filed under one key are the same cell.
proof fn lemma_key_injective(cols: nat, rows: nat, a: (usize, usize), b: (usize, usize))
    requires
        a.0 < cols,
        b.0 < cols,
        a.1 < rows,
        b.1 < rows,
        key_of(cols, a) == key_of(cols, b),
    ensures
        a == b,
{
    let l = Layout { cols, rows, open: Set::empty() };
    lemma_index_injective(l, a, b);
}

/// The position of the first head at the coordinate.
fn position(heads: &Vec<Head>, coord: (usize, usize)) -> (at: Option<usize>)
    ensures
        match at {
            Some(j) => j < heads@.len() && heads@[j as int].head == coord && forall|i: int|
                0 <= i < j ==> (#[trigger] heads@[i]).head != coord,
            None => forall|i: int| 0 <= i < heads@.len() ==> (#[trigger] heads@[i]).head != coord,
        },
{
    let mut j: usize = 0;
    while j < heads.len()
        invariant
            j <= heads@.len(),
            forall|i: int| 0 <= i < j ==> (#[trigger] heads@[i]).head != coord,
        decreases heads@.len() - j,
    {
        if heads[j].head.0 == coord.0 && heads[j].head.1 == coord.1 {
            return Some(j);
        }
        j += 1;
    }
    None
}

/// The cells of a run, first to last.
fn run_cells(run: Run, Ghost(l): Ghost<Layout>) -> (cells: Vec<(usize, usize)>)
    requires
        l.is_run(run),
        l.cols <= usize::MAX,
        l.rows <= usize::MAX,
    ensures
        cells@ == word_cells((run.0, run.1), run.2 as nat, run.3),
        if run.3 {
            run.0 + run.2 <= l.cols
        } else {
            run.1 + run.2 <= l.rows
        },
{
    proof {
        l.lemma_run_shape(run);
        assert forall|k: int| 0 <= k < run.2 implies l.in_bounds(
            cell_after(run.0 as int, run.1 as int, run.3, k).0,
            cell_after(run.0 as int, run.1 as int, run.3, k).1,
        ) by {
            let c = cell_after(run.0 as int, run.1 as int, run.3, k);
            assert(covers(run, c.0, c.1));
        }
        let c = cell_after(run.0 as int, run.1 as int, run.3, run.2 - 1);
        assert(l.in_bounds(c.0, c.1));
    }
    let mut cells: Vec<(usize, usize)> = Vec::new();
    let mut k: usize = 0;
    while k < run.2
        invariant
            k <= run.2,
            l.cols <= usize::MAX,
            l.rows <= usize::MAX,
            if run.3 {
                run.0 + run.2 <= l.cols
            } else {
                run.1 + run.2 <= l.rows
            },
            cells@ == word_cells((run.0, run.1), k as nat, run.3),
        decreases run.2 - k,
    {
        let cell = if run.3 {
            (run.0 + k, run.1)
        } else {
            (run.0, run.1 + k)
        };
        cells.push(cell);
        assert(cells@ =~= word_cells((run.0, run.1), (k + 1) as nat, run.3));
        k += 1;
    }
    cells
}

impl Answers {
    /// The heads in reading order, as mathematical values.
    pub closed spec fn view(&self) -> Seq<HeadView> {
        heads_view(self.answers@)
    }

    /// The index is consistent: every head is filed under the key of its
    /// cell, no key is filed without a head, and every slot lists the cells
    /// of a run that stays on the board.
    pub closed spec fn wf(&self) -> bool {
        &&& self.cols * self.rows <= usize::MAX
        &&& forall|j: int|
            0 <= j < self.answers@.len() ==> {
                let h = (#[trigger] self.answers@[j])@;
                &&& h.head.0 < self.cols
                &&& h.head.1 < self.rows
                &&& self.answer_keys@.contains_key(key_of(self.cols as nat, h.head) as usize)
                &&& self.answer_keys@[key_of(self.cols as nat, h.head) as usize] == j
                &&& slot_fits(h, true, self.cols as nat, self.rows as nat)
                &&& slot_fits(h, false, self.cols as nat, self.rows as nat)
            }
        &&& forall|k: usize| #[trigger]
            self.answer_keys@.contains_key(k) ==> {
                let j = self.answer_keys@[k];
                j < self.answers@.len() && key_of(self.cols as nat, self.answers@[j as int].head)
                    == k
            }
    }

    /// The head at a coordinate.
    pub fn get(&self, coord: (usize, usize)) -> (found: Option<&Head>)
        requires
            self.wf(),
        ensures
            match found {
                Some(h) => find_head(self@, coord) == Some(h@) && h.head == coord,
                None => find_head(self@, coord) is None,
            },
    {
        broadcast use vstd::std_specs::hash::group_hash_axioms;

        let ghost heads = self.answers@;
        let ghost c = self.cols as nat;
        let ghost r = self.rows as nat;
        match cell_key(self.cols, self.rows, coord) {
            Some(key) => {
                match self.answer_keys.get(&key) {
                    Some(at) => {
                        let j = *at;
                        proof {
                            lemma_key_injective(c, r, heads[j as int].head, coord);
                            assert forall|i: int| 0 <= i < self@.len() && i < j implies (
                            #[trigger] self@[i]).head != coord by {
                                assert(heads[i]@.head == heads[i].head);
                            }
                            lemma_find_head(self@, coord, j as int);
                        }
                        Some(&self.answers[j])
                    },
                    None => {
                        proof {
                            assert forall|i: int| 0 <= i < self@.len() implies (
                            #[trigger] self@[i]).head != coord by {
                                assert(heads[i]@.head == heads[i].head);
                            }
                            lemma_find_head(self@, coord, self@.len() as int);
                        }
                        None
                    },
                }
            },
            None => {
                proof {
                    assert forall|i: int| 0 <= i < self@.len() implies (#[trigger] self@[i]).head
                        != coord by {
                        assert(heads[i]@.head == heads[i].head);
                    }
                    lemma_find_head(self@, coord, self@.len() as int);
                }
                None
            },
        }
    }

    /// The annotation for the slot of a run: that of the earlier index's
    /// slot at the same head with the same orientation and length, else the
    /// default.
    fn clue_for(this: Option<&Answers>, coord: (usize, usize), length: usize, across: bool) -> (clue:
        String)
        requires
            this matches Some(t) ==> t.wf(),
        ensures
            clue@ == carried_clue(earlier_view(this), coord, length as nat, across),
    {
        let kept: Option<String> = match this {
            Some(t) => match t.get(coord) {
                Some(head) => match head.word(across) {
                    Some(w) => if w.answer.len() == length {
                        Some(w.clue.clone())
                    } else {
                        None
                    },
                    None => None,
                },
                None => None,
            },
            None => None,
        };
        match kept {
            Some(clue) => clue,
            None => "Enter a clue".to_owned(),
        }
    }

    /// Rebuilds the index from the board. Every run of the board gets a slot
    /// at the head that stands at its first cell; the heads come in reading
    /// order. A slot takes the annotation of the slot that `this`, the
    /// earlier index, holds at the same head with the same orientation and
    /// length; any other slot gets the default annotation.
    pub fn new(this: Option<&Answers>, grid: &Grid) -> (index: Answers)
        requires
            this matches Some(t) ==> t.wf(),
        ensures
            index.wf(),
            is_index(index@, grid@, earlier_view(this)),
    {
        broadcast use vstd::std_specs::hash::group_hash_axioms;

        let ghost l = grid@;
        let ghost prev = earlier_view(this);
        proof {
            grid.lemma_indexable();
        }
        let cols = grid.cols();
        let rows = grid.rows();
        let mut answers: Vec<Head> = Vec::with_capacity(
            match this {
                Some(t) => t.answers.len(),
                None => 0,
            },
        );
        let runs = find_runs(grid);
        let mut i: usize = 0;
        while i < runs.len()
            invariant
                l == grid@,
                prev == earlier_view(this),
                this matches Some(t) ==> t.wf(),
                l.lists_runs(runs@),
                l.cols == cols,
                l.rows == rows,
                i <= runs@.len(),
                is_partial(heads_view(answers@), runs@, i as int, l, prev),
                forall|j: int|
                    0 <= j < answers@.len() ==> slot_fits(
                        (#[trigger] answers@[j])@,
                        true,
                        cols as nat,
                        rows as nat,
                    ) && slot_fits(answers@[j]@, false, cols as nat, rows as nat),
            decreases runs@.len() - i,
        {
            let run = runs[i];
            let (x, y, length, is_across) = run;
            let coord = (x, y);
            assert(runs@.contains(run));
            let ghost before = answers@;
            let at = match position(&answers, coord) {
                Some(j) => j,
                None => {
                    answers.push(Head { head: coord, down: None, across: None });
                    answers.len() - 1
                },
            };
            let ghost middle = answers@;
            let word = Word {
                answer: run_cells(run, Ghost(l)),
                clue: Self::clue_for(this, coord, length, is_across),
            };
            let ghost filed = word@;
            let slot = answers[at].word_mut(is_across);
            *slot = Some(word);
            proof {
                assert(Some(filed) == word_at(l, prev, coord, is_across));
                let was = heads_view(before);
                let now = heads_view(answers@);
                if at < before.len() {
                    assert forall|j: int| 0 <= j < before.len() implies (#[trigger] was[j]).head
                        == before[j].head by {}
                    assert(now =~= was.update(at as int, with_word(was[at as int], run, l, prev)));
                } else {
                    assert(middle[at as int]@ == HeadView { head: coord, across: None, down: None });
                    assert(now =~= was.push(
                        with_word(
                            HeadView { head: coord, across: None, down: None },
                            run,
                            l,
                            prev,
                        ),
                    ));
                }
                lemma_partial_step(was, now, runs@, i as int, l, prev, at as int);
            }
            i += 1;
        }
        proof {
            lemma_partial_done(heads_view(answers@), runs@, l, prev);
        }
        let mut answer_keys: HashMap<usize, usize> = HashMap::new();
        let mut j: usize = 0;
        let ghost heads = heads_view(answers@);
        while j < answers.len()
            invariant
                j <= answers@.len(),
                cols * rows <= usize::MAX,
                l.cols == cols,
                l.rows == rows,
                heads == heads_view(answers@),
                is_index(heads, l, prev),
                forall|a: int|
                    0 <= a < j ==> answer_keys@.contains_key(
                        key_of(cols as nat, (#[trigger] answers@[a]).head) as usize,
                    ) && answer_keys@[key_of(cols as nat, answers@[a].head) as usize] == a,
                forall|k: usize| #[trigger]
                    answer_keys@.contains_key(k) ==> {
                        let a = answer_keys@[k];
                        a < j && key_of(cols as nat, answers@[a as int].head) == k
                    },
            decreases answers@.len() - j,
        {
            let head = answers[j].head;
            assert(heads[j as int].head == head);
            match cell_key(cols, rows, head) {
                Some(key) => {
                    proof {
                        assert forall|a: int| 0 <= a < j implies key_of(
                            cols as nat,
                            (#[trigger] answers@[a]).head,
                        ) != key by {
                            assert(heads[a].head == answers@[a].head);
                            assert(l.index_of(heads[a].head.0 as int, heads[a].head.1 as int)
                                < l.index_of(heads[j as int].head.0 as int, heads[j as int].head.1 as int));
                        }
                    }
                    answer_keys.insert(key, j);
                },
                None => {},
            }
            j += 1;
        }
        proof {
            assert forall|a: int| 0 <= a < answers@.len() implies (#[trigger] answers@[a])@.head.0
                < cols && answers@[a]@.head.1 < rows by {
                assert(heads[a].head == answers@[a].head);
            }
        }
        Answers { answer_keys, answers, cols, rows }
    }

    /// Replaces the annotation of the slot that the head at `coord` holds for
    /// one orientation. Returns whether there is such a slot.
    pub fn set_clue(&mut self, coord: (usize, usize), across: bool, clue: String) -> (done: bool)
        requires
            old(self).wf(),
        ensures
            final(self).wf(),
            final(self)@.len() == old(self)@.len(),
            done == exists|j: int|
                0 <= j < old(self)@.len() && (#[trigger] old(self)@[j]).head == coord && old(
                    self,
                )@[j].word(across) is Some,
            forall|j: int|
                0 <= j < old(self)@.len() ==> #[trigger] final(self)@[j] == if old(self)@[j].head
                    == coord && old(self)@[j].word(across) is Some {
                    let w = WordView { answer: old(self)@[j].word(across)->0.answer, clue: clue@ };
                    if across {
                        HeadView { across: Some(w), ..old(self)@[j] }
                    } else {
                        HeadView { down: Some(w), ..old(self)@[j] }
                    }
                } else {
                    old(self)@[j]
                },
    {
        let ghost heads = self.answers@;
        let found = match self.get(coord) {
            Some(_) => true,
            None => false,
        };
        if !found {
            proof {
                assert forall|j: int| 0 <= j < self@.len() implies (#[trigger] self@[j]).head
                    != coord by {
                    if self@[j].head == coord {
                        Self::lemma_first_at(self@, coord, j);
                    }
                }
            }
            return false;
        }
        let at = match position(&self.answers, coord) {
            Some(j) => j,
            None => {
                proof {
                    lemma_find_head(self@, coord, self@.len() as int);
                }
                return false;
            },
        };
        proof {
            assert forall|j: int| 0 <= j < heads.len() && j != at implies (#[trigger] heads[j]).head
                != coord by {
                if heads[j].head == coord {
                    lemma_key_injective(self.cols as nat, self.rows as nat, heads[j].head, heads[at as int].head);
                }
            }
        }
        let slot = self.answers[at].word_mut(across);
        let done = match slot {
            Some(word) => {
                word.clue = clue;
                true
            },
            None => false,
        };
        proof {
            assert forall|j: int| 0 <= j < heads.len() implies (#[trigger] self.answers@[j]).head
                == heads[j].head by {}
            assert(self@.len() == old(self)@.len());
            if done {
                assert(old(self)@[at as int].head == coord);
            }
        }
        done
    }

    /// A head that stands at a coordinate is found there, or an earlier one.
    proof fn lemma_first_at(heads: Seq<HeadView>, coord: (usize, usize), j: int)
        requires
            0 <= j < heads.len(),
            heads[j].head == coord,
        ensures
            find_head(heads, coord) is Some,
        decreases heads.len(),
    {
        if heads[0].head != coord {
            Self::lemma_first_at(heads.drop_first(), coord, j - 1);
        }
    }

    /// The map from every cell that a run passes through to the number of
    /// the run's head, for the runs that go across and for those that go
    /// down.
    pub fn answer_map(&self) -> (map: AnswerMap)
        requires
            self.wf(),
        ensures
            map.maps(self@),
    {
        broadcast use vstd::std_specs::hash::group_hash_axioms;

        let mut across_run_keys: HashMap<usize, usize> = HashMap::new();
        let mut down_run_keys: HashMap<usize, usize> = HashMap::new();
        let ghost heads = self@;
        let cols = self.cols;
        let rows = self.rows;
        let mut answer_id: usize = 0;
        assert(heads.take(0) =~= Seq::empty());
        while answer_id < self.answers.len()
            invariant
                self.wf(),
                heads == self@,
                cols == self.cols,
                rows == self.rows,
                answer_id <= self.answers@.len(),
                forall|c: (usize, usize)|
                    c.0 < cols && c.1 < rows ==> #[trigger] filed(across_run_keys@, cols as nat, c)
                        == answer_at(heads.take(answer_id as int), c, true),
                forall|c: (usize, usize)|
                    c.0 < cols && c.1 < rows ==> #[trigger] filed(down_run_keys@, cols as nat, c)
                        == answer_at(heads.take(answer_id as int), c, false),
            decreases self.answers@.len() - answer_id,
        {
            let head = &self.answers[answer_id];
            let ghost h = heads[answer_id as int];
            assert(h == head@);
            assert(heads.take(answer_id + 1).drop_last() =~= heads.take(answer_id as int));
            if let Some(across) = &head.across {
                let ghost cells = across.answer@;
                let ghost start = across_run_keys@;
                let mut i: usize = 0;
                while i < across.answer.len()
                    invariant
                        cols * rows <= usize::MAX,
                        i <= cells.len(),
                        cells == across.answer@,
                        cells == word_cells(head.head, cells.len(), true),
                        head.head.0 + cells.len() <= cols,
                        head.head.1 < rows,
                        forall|c: (usize, usize)|
                            c.0 < cols && c.1 < rows ==> #[trigger] filed(
                                across_run_keys@,
                                cols as nat,
                                c,
                            ) == if cells.take(i as int).contains(c) {
                                Some(answer_id as int)
                            } else {
                                filed(start, cols as nat, c)
                            },
                    decreases cells.len() - i,
                {
                    let cell = (head.head.0 + i, head.head.1);
                    assert(cells[i as int] == cell);
                    file(&mut across_run_keys, cols, rows, cell, answer_id);
                    proof {
                        assert(cells.take(i + 1) =~= cells.take(i as int).push(cell));
                        assert forall|c: (usize, usize)| c.0 < cols && c.1 < rows implies (
                        cells.take(i + 1).contains(c) <==> c == cell || cells.take(
                            i as int,
                        ).contains(c)) by {
                            vstd::seq_lib::lemma_seq_contains_after_push(
                                cells.take(i as int),
                                cell,
                                c,
                            );
                        }
                    }
                    i += 1;
                }
                assert(cells.take(cells.len() as int) =~= cells);
            }
            if let Some(down) = &head.down {
                let ghost cells = down.answer@;
                let ghost start = down_run_keys@;
                let mut i: usize = 0;
                while i < down.answer.len()
                    invariant
                        cols * rows <= usize::MAX,
                        i <= cells.len(),
                        cells == down.answer@,
                        cells == word_cells(head.head, cells.len(), false),
                        head.head.1 + cells.len() <= rows,
                        head.head.0 < cols,
                        forall|c: (usize, usize)|
                            c.0 < cols && c.1 < rows ==> #[trigger] filed(
                                down_run_keys@,
                                cols as nat,
                                c,
                            ) == if cells.take(i as int).contains(c) {
                                Some(answer_id as int)
                            } else {
                                filed(start, cols as nat, c)
                            },
                    decreases cells.len() - i,
                {
                    let cell = (head.head.0, head.head.1 + i);
                    assert(cells[i as int] == cell);
                    file(&mut down_run_keys, cols, rows, cell, answer_id);
                    proof {
                        assert(cells.take(i + 1) =~= cells.take(i as int).push(cell));
                        assert forall|c: (usize, usize)| c.0 < cols && c.1 < rows implies (
                        cells.take(i + 1).contains(c) <==> c == cell || cells.take(
                            i as int,
                        ).contains(c)) by {
                            vstd::seq_lib::lemma_seq_contains_after_push(
                                cells.take(i as int),
                                cell,
                                c,
                            );
                        }
                    }
                    i += 1;
                }
                assert(cells.take(cells.len() as int) =~= cells);
            }
            answer_id += 1;
        }
        assert(heads.take(answer_id as int) =~= heads);
        AnswerMap { across_run_keys, down_run_keys, cols, rows }
    }

    /// The number of the head at a coordinate.
    pub fn position_of(&self, coord: (usize, usize)) -> (at: Option<usize>)
        ensures
            match at {
                Some(j) => j < self@.len() && self@[j as int].head == coord,
                None => forall|i: int| 0 <= i < self@.len() ==> (#[trigger] self@[i]).head != coord,
            },
    {
        let at = position(&self.answers, coord);
        proof {
            assert forall|i: int| 0 <= i < self@.len() implies (#[trigger] self@[i]).head
                == self.answers@[i].head by {}
        }
        at
    }

    /// The heads of a consistent index stand at different cells.
    pub proof fn lemma_heads_distinct(&self, a: int, b: int)
        requires
            self.wf(),
            0 <= a < self@.len(),
            0 <= b < self@.len(),
            self@[a].head == self@[b].head,
        ensures
            a == b,
    {
        assert(self.answers@[a]@.head == self.answers@[b]@.head);
    }

    /// The number that a cell shows as the first cell of a run: the heads
    /// are numbered from one in reading order.
    pub fn answer_id_at(&self, cell: (usize, usize)) -> (id: Option<usize>)
        ensures
            match id {
                Some(n) => 1 <= n <= self@.len() && self@[n - 1].head == cell,
                None => forall|i: int| 0 <= i < self@.len() ==> (#[trigger] self@[i]).head != cell,
            },
    {
        match self.position_of(cell) {
            Some(at) => {
                assert(at < self.answers.len());
                Some(at + 1)
            },
            None => None,
        }
    }

    /// The heads in reading order.
    pub fn heads(&self) -> (heads: &Vec<Head>)
        ensures
            heads_view(heads@) == self@,
    {
        &self.answers
    }
}

impl Default for Answers {
    /// The index of a board without runs.
    fn default() -> (index: Answers)
        ensures
            index.wf(),
            index@.len() == 0,
    {
        broadcast use vstd::std_specs::hash::group_hash_axioms;

        Answers { answer_keys: HashMap::new(), answers: Vec::new(), cols: 0, rows: 0 }
    }
}

/// What is filed for a cell in a map that is keyed by row-major index.
pub open spec fn filed(keys: Map<usize, usize>, cols: nat, cell: (usize, usize)) -> Option<int> {
    let key = key_of(cols, cell);
    if key <= usize::MAX && keys.contains_key(key as usize) {
        Some(keys[key as usize] as int)
    } else {
        None
    }
}

/// Files a number for a cell of the board, and leaves what is filed for the
/// other cells.
fn file(
    keys: &mut HashMap<usize, usize>,
    cols: usize,
    rows: usize,
    cell: (usize, usize),
    id: usize,
)
    requires
        cols * rows <= usize::MAX,
        cell.0 < cols,
        cell.1 < rows,
    ensures
        forall|c: (usize, usize)|
            c.0 < cols && c.1 < rows ==> #[trigger] filed(final(keys)@, cols as nat, c) == if c
                == cell {
                Some(id as int)
            } else {
                filed(old(keys)@, cols as nat, c)
            },
{
    broadcast use vstd::std_specs::hash::group_hash_axioms;

    match cell_key(cols, rows, cell) {
        Some(key) => {
            keys.insert(key, id);
            assert forall|c: (usize, usize)| c.0 < cols && c.1 < rows && c != cell implies key_of(
                cols as nat,
                c,
            ) != key by {
                if key_of(cols as nat, c) == key {
                    lemma_key_injective(cols as nat, rows as nat, c, cell);
                }
            }
            assert forall|c: (usize, usize)| c.0 < cols && c.1 < rows implies 0 <= key_of(
                cols as nat,
                c,
            ) <= usize::MAX by {
                assert(c.0 + cols * c.1 < cols * rows) by (nonlinear_arith)
                    requires
                        c.0 < cols,
                        c.1 < rows,
                ;
                assert(cols * c.1 >= 0) by (nonlinear_arith);
            }
        },
        None => {},
    }
}

/// For each cell that a run passes through, the number of the run's head:
/// one map for the runs that go across, one for those that go down.
pub struct AnswerMap {
    across_run_keys: HashMap<usize, usize>,
    down_run_keys: HashMap<usize, usize>,
    cols: usize,
    rows: usize,
}

impl AnswerMap {
    /// What the map of one orientation holds for a cell.
    pub closed spec fn spec_get(&self, cell: (usize, usize), across: bool) -> Option<int> {
        if cell.0 < self.cols && cell.1 < self.rows {
            filed(
                if across {
                    self.across_run_keys@
                } else {
                    self.down_run_keys@
                },
                self.cols as nat,
                cell,
            )
        } else {
            None
        }
    }

    /// The map is that of the heads: it holds, for every cell, the number of
    /// the head whose slot passes through it.
    pub closed spec fn maps(&self, heads: Seq<HeadView>) -> bool {
        &&& self.cols * self.rows <= usize::MAX
        &&& forall|j: int|
            0 <= j < heads.len() ==> {
                let h = #[trigger] heads[j];
                &&& slot_fits(h, true, self.cols as nat, self.rows as nat)
                &&& slot_fits(h, false, self.cols as nat, self.rows as nat)
                &&& h.head.0 < self.cols
                &&& h.head.1 < self.rows
            }
        &&& forall|c: (usize, usize), across: bool|
            c.0 < self.cols && c.1 < self.rows ==> #[trigger] self.spec_get(c, across) == answer_at(
                heads,
                c,
                across,
            )
    }

    /// Off the board the map holds nothing, and no slot passes through.
    pub proof fn lemma_maps(&self, heads: Seq<HeadView>, cell: (usize, usize), across: bool)
        requires
            self.maps(heads),
        ensures
            self.spec_get(cell, across) == answer_at(heads, cell, across),
            forall|j: int|
                0 <= j < heads.len() ==> slot_fits(
                    #[trigger] heads[j],
                    across,
                    usize::MAX as nat,
                    usize::MAX as nat,
                ),
    {
        crate::index::lemma_answer_at(heads, cell, across);
        if !(cell.0 < self.cols && cell.1 < self.rows) {
            if answer_at(heads, cell, across) is Some {
                let j = answer_at(heads, cell, across)->0;
                let w = heads[j].word(across)->0;
                let k = choose|k: int| 0 <= k < w.answer.len() && w.answer[k] == cell;
                assert(slot_fits(heads[j], across, self.cols as nat, self.rows as nat));
                assert(w.answer[k] == word_cells(heads[j].head, w.answer.len(), across)[k]);
            }
        }
        assert forall|j: int| 0 <= j < heads.len() implies slot_fits(
            #[trigger] heads[j],
            across,
            usize::MAX as nat,
            usize::MAX as nat,
        ) by {
            assert(slot_fits(heads[j], across, self.cols as nat, self.rows as nat));
        }
    }

    /// The map of one orientation.
    fn run_keys(&self, across: bool) -> (keys: &HashMap<usize, usize>)
        ensures
            *keys == if across {
                self.across_run_keys
            } else {
                self.down_run_keys
            },
    {
        if across {
            &self.across_run_keys
        } else {
            &self.down_run_keys
        }
    }

    /// The number of the head whose run of the given orientation passes
    /// through the cell.
    pub fn get(&self, cell: (usize, usize), across: bool) -> (id: Option<usize>)
        ensures
            match id {
                Some(j) => self.spec_get(cell, across) == Some(j as int),
                None => self.spec_get(cell, across) is None,
            },
    {
        broadcast use vstd::std_specs::hash::group_hash_axioms;

        if cell.0 < self.cols && cell.1 < self.rows {
            match checked_key(self.cols, cell) {
                Some(key) => match self.run_keys(across).get(&key) {
                    Some(id) => Some(*id),
                    None => None,
                },
                None => None,
            }
        } else {
            None
        }
    }
}

/// The key of a cell, where it fits a machine word.
fn checked_key(cols: usize, cell: (usize, usize)) -> (key: Option<usize>)
    ensures
        match key {
            Some(k) => k == key_of(cols as nat, cell),
            None => key_of(cols as nat, cell) > usize::MAX,
        },
{
    assert(cols * cell.1 >= 0) by (nonlinear_arith);
    match cols.checked_mul(cell.1) {
        Some(row) => row.checked_add(cell.0),
        None => None,
    }
}

/// The two ways a slot can go.
pub enum SlotDirection {
    Down,
    Across,
}

} // verus!
