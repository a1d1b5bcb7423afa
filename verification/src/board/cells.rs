//! Free cells: a fixed-size set of single-card holding slots. Cells are
//! interchangeable; only the multiset of their contents carries meaning.

use vstd::prelude::*;

use crate::board;
use crate::board::column::slot_wf;
use crate::board::column::slots_wf;
use crate::card::slot_text;
use crate::card::Card;

verus! {

/// The cells' two-character texts joined by single spaces, from cell `k`
/// on.
pub open spec fn cells_text(s: Seq<Option<Card>>, k: int) -> Seq<char>
    decreases s.len() - k,
{
    if k < 0 || k >= s.len() {
        Seq::empty()
    } else if k == s.len() - 1 {
        slot_text(s[k])
    } else {
        slot_text(s[k]) + seq![' '] + cells_text(s, k + 1)
    }
}

/// Number of free cells; this variant has as many cells as columns.
pub const N_CELLS: usize = board::N_COLUMNS;

/// The free cells of a board.
#[derive(Debug, Clone, Copy)]
pub struct Cells {
    pub cards: [Option<Card>; N_CELLS],
}

impl Cells {
    /// The cells are well formed when every occupied cell holds a
    /// well-formed card.
    pub open spec fn wf(self) -> bool {
        slots_wf(self.cards@)
    }

    /// All cells empty.
    pub fn new() -> (c: Self)
        ensures
            c.wf(),
            forall|i: int| 0 <= i < N_CELLS ==> c.cards@[i] is None,
    {
        Self { cards: [None; N_CELLS] }
    }

    /// The lowest index of an empty cell, or `None` when every cell is
    /// occupied.
    pub fn empty_cell_index(self) -> (r: Option<usize>)
        ensures
            r matches Some(i) ==> i < N_CELLS && self.cards@[i as int] is None && forall|j: int|
                0 <= j < i ==> self.cards@[j] is Some,
            r is None ==> forall|j: int| 0 <= j < N_CELLS ==> self.cards@[j] is Some,
    {
        let mut i: usize = 0;
        while i < N_CELLS
            invariant
                i <= N_CELLS,
                forall|j: int| 0 <= j < i ==> self.cards@[j] is Some,
            decreases N_CELLS - i,
        {
            if self.cards[i].is_none() {
                return Some(i);
            }
            i += 1;
        }
        None
    }

    /// A printable rendering of the cell line, one two-character token per
    /// cell, space-joined; trailing blanks are kept.
    #[verifier::loop_isolation(false)]
    pub fn to_s(&self) -> (r: String)
        requires
            self.wf(),
        ensures
            r@ == cells_text(self.cards@, 0),
    {
        let mut r = String::new();
        let mut k: usize = 0;
        while k < N_CELLS
            invariant
                k <= N_CELLS,
                r@ + cells_text(self.cards@, k as int) =~= cells_text(self.cards@, 0),
            decreases N_CELLS - k,
        {
            let ghost before = r@;
            proof {
                assert(slot_wf(self.cards@[k as int]));
            }
            match self.cards[k] {
                None => {
                    r.append("  ");
                    proof {
                        reveal_strlit("  ");
                        assert(r@ =~= before + slot_text(self.cards@[k as int]));
                    }
                },
                Some(c) => {
                    let t = c.to_text();
                    r.append(t.as_str());
                },
            }
            if k < N_CELLS - 1 {
                r.append(" ");
                proof {
                    reveal_strlit(" ");
                    assert(r@ =~= before + slot_text(self.cards@[k as int]) + seq![' ']);
                }
            }
            proof {
                assert(r@ + cells_text(self.cards@, k + 1) =~= cells_text(self.cards@, 0));
            }
            k += 1;
        }
        proof {
            assert(cells_text(self.cards@, N_CELLS as int) =~= Seq::<char>::empty());
            assert(r@ =~= cells_text(self.cards@, 0));
        }
        r
    }
}

} // verus!
