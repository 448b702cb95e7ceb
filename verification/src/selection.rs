//! Read-only queries on the index for an editor: the slot under a cell, the
//! caret within it, the next word, and the rounded corners of a cell.

use crate::answers::{slot_fits, AnswerMap, Answers};
use crate::index::{answer_at, lemma_answer_at, HeadView};
use crate::matrix::Grid;
use vstd::prelude::*;

verus! {

/// A word slot as the editor sees it: the run's first cell, its length and
/// orientation, and the place of the caret in it. A caret at `len` stands
/// behind the last cell.
#[derive(Clone, Copy, Debug, PartialEq, Eq)]
pub struct Slot {
    pub head: (usize, usize),
    pub len: usize,
    pub is_across: bool,
    pub caret_position: usize,
}

/// Which corners of a cell are free on both sides and can be drawn round.
#[derive(Clone, Copy, Debug, PartialEq, Eq, Structural)]
pub struct Corners {
    pub top_left: bool,
    pub top_right: bool,
    pub bottom_left: bool,
    pub bottom_right: bool,
}

/// The slot of the run of one orientation that passes through the cell, with
/// the caret on the cell.
pub open spec fn slot_at(heads: Seq<HeadView>, cell: (usize, usize), across: bool) -> Option<
    Slot,
> {
    match answer_at(heads, cell, across) {
        Some(j) => Some(
            Slot {
                head: heads[j].head,
                len: heads[j].word(across)->0.answer.len() as usize,
                is_across: across,
                caret_position: if across {
                    (cell.0 - heads[j].head.0) as usize
                } else {
                    (cell.1 - heads[j].head.1) as usize
                },
            },
        ),
        None => None,
    }
}

/// The slot of the run of one orientation that passes through the cell, with
/// the caret on the cell; `None` where no such run does.
pub fn get_slot(answers: &Answers, answer_map: &AnswerMap, cell: (usize, usize), across: bool) -> (slot:
    Option<Slot>)
    requires
        answers.wf(),
        answer_map.maps(answers@),
    ensures
        slot == slot_at(answers@, cell, across),
{
    proof {
        lemma_answer_at(answers@, cell, across);
        answer_map.lemma_maps(answers@, cell, across);
    }
    match answer_map.get(cell, across) {
        Some(j) => {
            let heads = answers.heads();
            let head = &heads[j];
            assert(answers@[j as int] == head@);
            match head.word(across) {
                Some(word) => {
                    assert(word.answer@.contains(cell));
                    let ghost k = choose|k: int|
                        0 <= k < word.answer@.len() && word.answer@[k] == cell;
                    Some(
                        Slot {
                            head: head.head,
                            len: word.answer.len(),
                            is_across: across,
                            caret_position: if across {
                                cell.0 - head.head.0
                            } else {
                                cell.1 - head.head.1
                            },
                        },
                    )
                },
                None => None,
            }
        },
        None => None,
    }
}

impl Slot {
    /// The caret does not stand past the end of the slot, and the cell behind
    /// the slot can be written down.
    pub open spec fn wf(self) -> bool {
        &&& self.caret_position <= self.len
        &&& if self.is_across {
            self.head.0 + self.len <= usize::MAX
        } else {
            self.head.1 + self.len <= usize::MAX
        }
    }

    /// The cell on which the caret stands.
    pub fn caret_cell(&self) -> (cell: (usize, usize))
        requires
            self.wf(),
        ensures
            cell == if self.is_across {
                ((self.head.0 + self.caret_position) as usize, self.head.1)
            } else {
                (self.head.0, (self.head.1 + self.caret_position) as usize)
            },
    {
        if self.is_across {
            (self.head.0 + self.caret_position, self.head.1)
        } else {
            (self.head.0, self.head.1 + self.caret_position)
        }
    }

    /// Moves the caret one cell on, at most to the place behind the last cell.
    pub fn advance_caret(&mut self)
        requires
            old(self).wf(),
        ensures
            final(self).wf(),
            *final(self) == (Slot {
                caret_position: if old(self).caret_position < old(self).len {
                    (old(self).caret_position + 1) as usize
                } else {
                    old(self).len
                },
                ..*old(self)
            }),
    {
        if self.caret_position < self.len {
            self.caret_position = self.caret_position + 1;
        } else {
            self.caret_position = self.len;
        }
    }

    /// Moves the caret one cell back, at most to the first cell.
    pub fn retreat_caret(&mut self)
        ensures
            *final(self) == (Slot {
                caret_position: if old(self).caret_position > 0 {
                    (old(self).caret_position - 1) as usize
                } else {
                    0
                },
                ..*old(self)
            }),
    {
        if self.caret_position > 0 {
            self.caret_position = self.caret_position - 1;
        }
    }

    /// Whether the caret stands behind the last cell and is not shown.
    pub fn hide_caret(&self) -> (hidden: bool)
        ensures
            hidden == (self.caret_position >= self.len),
    {
        self.caret_position >= self.len
    }
}

/// The slot that becomes active when a cell is clicked. A click on a cell
/// that does not exist changes nothing. Else the click keeps the orientation
/// of the active slot if it lands on another cell than the caret, and turns
/// it if it lands on the caret; without an active slot it takes
/// `default_is_across`. The slot of that orientation under the cell becomes
/// active, or the slot of the other orientation if there is no such slot.
pub open spec fn clicked(
    existing: Option<(Slot, (usize, usize))>,
    default_is_across: bool,
    coord: (usize, usize),
    cell_exists: bool,
    across: Option<Slot>,
    down: Option<Slot>,
) -> Option<Slot> {
    if !cell_exists {
        match existing {
            Some(e) => Some(e.0),
            None => None,
        }
    } else {
        let use_across = match existing {
            Some(e) => (e.1 != coord) == e.0.is_across,
            None => default_is_across,
        };
        if use_across && across is Some {
            across
        } else if down is Some {
            down
        } else {
            across
        }
    }
}

/// The slot that is active after a click on `coord`, given the active slot
/// with the cell of its caret, and the slots under the clicked cell.
pub fn click_cell(
    existing: Option<(Slot, (usize, usize))>,
    default_is_across: bool,
    coord: (usize, usize),
    cell_exists: bool,
    across: Option<Slot>,
    down: Option<Slot>,
) -> (active: Option<Slot>)
    ensures
        active == clicked(existing, default_is_across, coord, cell_exists, across, down),
{
    if !cell_exists {
        return match existing {
            Some(e) => Some(e.0),
            None => None,
        };
    }
    let use_across = match existing {
        Some((slot, caret)) => {
            let moved = !(caret.0 == coord.0 && caret.1 == coord.1);
            moved == slot.is_across
        },
        None => default_is_across,
    };
    match (across, down) {
        (Some(slot), _) if use_across => Some(slot),
        (_, Some(slot)) => Some(slot),
        (Some(slot), _) => Some(slot),
        _ => None,
    }
}

/// The number of the first head from `lo` up to `hi` that has a slot of the
/// given orientation.
pub open spec fn first_with(heads: Seq<HeadView>, across: bool, lo: int, hi: int) -> Option<int>
    decreases hi - lo,
{
    if lo >= hi {
        None
    } else if heads[lo].word(across) is Some {
        Some(lo)
    } else {
        first_with(heads, across, lo + 1, hi)
    }
}

/// The number of the head to which the selection moves from the head number
/// `from`: the next head with a slot of the orientation, going round to the
/// first head after the last.
pub open spec fn next_head(heads: Seq<HeadView>, across: bool, from: int) -> Option<int> {
    match first_with(heads, across, from + 1, heads.len() as int) {
        Some(j) => Some(j),
        None => first_with(heads, across, 0, heads.len() as int),
    }
}

/// The first head from `lo` on that has a slot of the given orientation.
fn scan_heads(answers: &Answers, across: bool, lo: usize) -> (found: Option<usize>)
    requires
        lo <= answers@.len(),
    ensures
        match found {
            Some(j) => first_with(answers@, across, lo as int, answers@.len() as int) == Some(
                j as int,
            ) && j < answers@.len(),
            None => first_with(answers@, across, lo as int, answers@.len() as int) is None,
        },
{
    let heads = answers.heads();
    let mut j: usize = lo;
    while j < heads.len()
        invariant
            lo <= j <= heads@.len(),
            heads@.len() == answers@.len(),
            crate::answers::heads_view(heads@) == answers@,
            first_with(answers@, across, lo as int, answers@.len() as int) == first_with(
                answers@,
                across,
                j as int,
                answers@.len() as int,
            ),
        decreases heads@.len() - j,
    {
        assert(answers@[j as int] == heads@[j as int]@);
        if heads[j].word(across).is_some() {
            return Some(j);
        }
        j += 1;
    }
    None
}

/// The slot to which the selection moves from `slot`: the slot of the same
/// orientation at the next head that has one, going round to the first head
/// after the last, with the caret on its first cell. `None` where `slot` does
/// not stand at a head or no head has such a slot.
pub fn next_word(answers: &Answers, slot: Slot) -> (next: Option<Slot>)
    requires
        answers.wf(),
    ensures
        match next {
            Some(s) => exists|from: int, to: int|
                #![trigger answers@[from], answers@[to]]
                0 <= from < answers@.len() && answers@[from].head == slot.head && next_head(
                    answers@,
                    slot.is_across,
                    from,
                ) == Some(to) && 0 <= to < answers@.len() && s == (Slot {
                    head: answers@[to].head,
                    len: answers@[to].word(slot.is_across)->0.answer.len() as usize,
                    is_across: slot.is_across,
                    caret_position: 0,
                }),
            None => forall|from: int|
                0 <= from < answers@.len() && (#[trigger] answers@[from]).head == slot.head
                    ==> next_head(answers@, slot.is_across, from) is None,
        },
{
    let heads = answers.heads();
    let count = heads.len();
    assert(count == answers@.len());
    let from = match answers.position_of(slot.head) {
        Some(i) => i,
        None => {
            return None;
        },
    };
    proof {
        assert forall|other: int|
            0 <= other < answers@.len() && (#[trigger] answers@[other]).head
                == slot.head implies other == from by {
            answers.lemma_heads_distinct(other, from as int);
        }
    }
    let to = match scan_heads(answers, slot.is_across, from + 1) {
        Some(j) => j,
        None => match scan_heads(answers, slot.is_across, 0) {
            Some(j) => j,
            None => {
                return None;
            },
        },
    };
    assert(answers@[to as int] == heads@[to as int]@);
    proof {
        lemma_first_with(answers@, slot.is_across, from + 1, answers@.len() as int);
        lemma_first_with(answers@, slot.is_across, 0, answers@.len() as int);
    }
    match heads[to].word(slot.is_across) {
        Some(word) => Some(
            Slot {
                head: heads[to].head,
                len: word.answer.len(),
                is_across: slot.is_across,
                caret_position: 0,
            },
        ),
        None => None,
    }
}

/// What `first_with` finds has a slot of the orientation.
pub proof fn lemma_first_with(heads: Seq<HeadView>, across: bool, lo: int, hi: int)
    requires
        0 <= lo,
    ensures
        first_with(heads, across, lo, hi) matches Some(j) ==> lo <= j < hi && heads[j].word(
            across,
        ) is Some,
    decreases hi - lo,
{
    if lo < hi && !(heads[lo].word(across) is Some) {
        lemma_first_with(heads, across, lo + 1, hi);
    }
}

/// Whether the board has no open cell at the coordinate.
pub open spec fn walled(grid: &Grid, x: int, y: int) -> bool {
    grid.spec_get(x, y) is None
}

/// Which corners of a cell can be drawn round: those at which neither of the
/// two neighbours that share the corner's sides is an open cell.
pub fn corners_at(grid: &Grid, cell: (usize, usize)) -> (corners: Corners)
    ensures
        corners == (Corners {
            top_left: walled(grid, cell.0 as int, cell.1 - 1) && walled(
                grid,
                cell.0 - 1,
                cell.1 as int,
            ),
            top_right: walled(grid, cell.0 as int, cell.1 - 1) && walled(
                grid,
                cell.0 + 1,
                cell.1 as int,
            ),
            bottom_left: walled(grid, cell.0 as int, cell.1 + 1) && walled(
                grid,
                cell.0 - 1,
                cell.1 as int,
            ),
            bottom_right: walled(grid, cell.0 as int, cell.1 + 1) && walled(
                grid,
                cell.0 + 1,
                cell.1 as int,
            ),
        }),
{
    proof {
        grid.lemma_indexable();
    }
    let top = cell.1 == 0 || wall(grid, (cell.0, cell.1 - 1));
    let left = cell.0 == 0 || wall(grid, (cell.0 - 1, cell.1));
    let right = cell.0 == usize::MAX || wall(grid, (cell.0 + 1, cell.1));
    let bottom = cell.1 == usize::MAX || wall(grid, (cell.0, cell.1 + 1));
    Corners {
        top_left: top && left,
        top_right: top && right,
        bottom_left: bottom && left,
        bottom_right: bottom && right,
    }
}

/// Whether the board has no open cell at the coordinate.
fn wall(grid: &Grid, cell: (usize, usize)) -> (none: bool)
    ensures
        none == walled(grid, cell.0 as int, cell.1 as int),
{
    match grid.get(cell) {
        Some(c) => c.is_none(),
        None => true,
    }
}

} // verus!
