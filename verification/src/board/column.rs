//! A tableau column: a bounded stack of card slots whose occupied slots are
//! contiguous from index 0; the "top" is the highest-index occupied slot.

use vstd::prelude::*;

use crate::card;
use crate::card::Card;

verus! {

/// Depth of a column in the initial deal.
pub const STARTING_DEPTH: usize = 6;

/// The largest column would be one that happens to start with a card of the
/// highest rank at its deepest dealt slot and then has all the other ranks
/// laid on top of it down to the second-lowest. An ace can never be added,
/// because exposed aces are promoted to the foundation automatically, so the
/// bound is the starting depth plus the ranks above the lowest, minus the
/// slot the unreachable ace would have taken.
pub const MAX_COLUMN_SIZE: usize = STARTING_DEPTH + card::N_RANKS - 2;

/// Whether a slot's content, if any, is a well-formed card.
pub open spec fn slot_wf(oc: Option<Card>) -> bool {
    match oc {
        None => true,
        Some(c) => c.wf(),
    }
}

/// Whether every occupied slot of the sequence holds a well-formed card.
pub open spec fn slots_wf(s: Seq<Option<Card>>) -> bool {
    forall|i: int| 0 <= i < s.len() ==> slot_wf(#[trigger] s[i])
}

/// Whether the occupied slots form a prefix: once a slot is empty, every
/// later slot is empty too.
pub open spec fn contiguous(s: Seq<Option<Card>>) -> bool {
    forall|i: int, j: int|
        #![trigger s[i], s[j]]
        0 <= i < j < s.len() && s[i] is None ==> s[j] is None
}

/// The number of occupied slots in the sequence.
pub open spec fn count_cards(s: Seq<Option<Card>>) -> int
    decreases s.len(),
{
    if s.len() == 0 {
        0
    } else {
        count_cards(s.drop_last()) + if s.last() is Some {
            1int
        } else {
            0int
        }
    }
}

/// In a contiguous sequence, exactly the first `count_cards` slots are
/// occupied.
pub proof fn lemma_count_cards_contiguous(s: Seq<Option<Card>>)
    requires
        contiguous(s),
    ensures
        0 <= count_cards(s) <= s.len(),
        forall|i: int| 0 <= i < s.len() ==> (s[i] is Some <==> i < count_cards(s)),
    decreases s.len(),
{
    if s.len() > 0 {
        let head = s.drop_last();
        assert(contiguous(head)) by {
            assert forall|i: int, j: int|
                #![trigger head[i], head[j]]
                0 <= i < j < head.len() && head[i] is None implies head[j] is None by {
                assert(head[i] == s[i]);
                assert(head[j] == s[j]);
            }
        }
        lemma_count_cards_contiguous(head);
        let n = count_cards(head);
        assert(forall|i: int| 0 <= i < s.len() - 1 ==> s[i] == head[i]);
        if s.last() is Some {
            assert forall|i: int| 0 <= i < s.len() - 1 implies s[i] is Some by {
                if s[i] is None {
                    assert(s[s.len() - 1] is None);
                }
            }
            assert(n >= s.len() - 1) by {
                if n < s.len() - 1 {
                    assert(head[n] is None);
                }
            }
            assert(count_cards(s) == s.len());
        } else {
            assert(count_cards(s) == n);
            assert(s[s.len() - 1] is None && s.len() - 1 >= n);
        }
    }
}

/// The exposed card of the sequence: the content of its last occupied slot.
pub open spec fn top_card(s: Seq<Option<Card>>) -> Option<Card> {
    if count_cards(s) == 0 {
        None
    } else {
        s[count_cards(s) - 1]
    }
}

/// One of the fixed ordered stacks forming the main playing area.
#[derive(Debug, Clone, Copy)]
pub struct Column {
    pub cards: [Option<Card>; MAX_COLUMN_SIZE],
}

impl Column {
    /// A column is well formed when its occupied slots are contiguous from
    /// the bottom and hold well-formed cards.
    pub open spec fn wf(self) -> bool {
        slots_wf(self.cards@) && contiguous(self.cards@)
    }

    /// An empty column.
    pub fn new() -> (c: Self)
        ensures
            c.wf(),
            count_cards(c.cards@) == 0,
            forall|i: int| 0 <= i < MAX_COLUMN_SIZE ==> c.cards@[i] is None,
    {
        let c = Self { cards: [None; MAX_COLUMN_SIZE] };
        proof {
            lemma_count_cards_contiguous(c.cards@);
            if count_cards(c.cards@) > 0 {
                assert(c.cards@[0] is Some);
            }
        }
        c
    }

    /// The exposed card and its slot index. An empty column reports
    /// `(None, 0)`.
    pub fn top_card_and_index(&self) -> (r: (Option<Card>, usize))
        requires
            self.wf(),
        ensures
            r.0 == top_card(self.cards@),
            count_cards(self.cards@) == 0 ==> r.1 == 0,
            count_cards(self.cards@) > 0 ==> r.1 == count_cards(self.cards@) - 1,
    {
        proof {
            lemma_count_cards_contiguous(self.cards@);
        }
        let mut index: usize = 0;

        while index < MAX_COLUMN_SIZE - 1 && self.cards[index + 1].is_some()
            invariant
                0 <= index < MAX_COLUMN_SIZE,
                index > 0 ==> self.cards@[index as int] is Some,
            decreases MAX_COLUMN_SIZE - index,
        {
            index += 1;
        }
        proof {
            let n = count_cards(self.cards@);
            if index < MAX_COLUMN_SIZE - 1 {
                assert(self.cards@[index + 1] is None);
            }
        }
        (self.cards[index], index)
    }
}

} // verus!
