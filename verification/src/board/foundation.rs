//! Foundations: one ascending same-suit pile per suit, each represented by
//! only its current top card; the pile below it is implicit.

use vstd::prelude::*;

use crate::board;
use crate::board::column::Column;
use crate::board::column::MAX_COLUMN_SIZE;
use crate::card;
use crate::card::slot_text;
use crate::card::Card;

verus! {

/// Separator between the tableau part of a rendered row and the
/// foundation card appended to it.
pub const SEPARATOR: &'static str = "  ";

/// Whether every column's slot at row `i` is empty.
pub open spec fn row_all_blank(cols: Seq<Seq<Option<Card>>>, i: int) -> bool {
    forall|k: int| 0 <= k < cols.len() ==> (#[trigger] cols[k])[i] is None
}

/// The first row index at or after `i` where the rendering stops: the
/// first row past the foundation rows whose column slots are all empty,
/// or the column capacity.
pub open spec fn render_stop(cols: Seq<Seq<Option<Card>>>, i: int) -> int
    decreases MAX_COLUMN_SIZE - i,
{
    if i < 0 || i >= MAX_COLUMN_SIZE {
        MAX_COLUMN_SIZE as int
    } else if i >= FOUNDATION_ROW_OFFSET + N_CARDS && row_all_blank(cols, i) {
        i
    } else {
        render_stop(cols, i + 1)
    }
}

/// The columns' slots of row `i`, rendered and joined by single spaces,
/// from column `k` on.
pub open spec fn row_cards_text(cols: Seq<Seq<Option<Card>>>, i: int, k: int) -> Seq<char>
    decreases cols.len() - k,
{
    if k < 0 || k >= cols.len() {
        Seq::empty()
    } else if k == cols.len() - 1 {
        slot_text(cols[k][i])
    } else {
        slot_text(cols[k][i]) + seq![' '] + row_cards_text(cols, i, k + 1)
    }
}

/// What the foundations append to rendered row `i`: a separator and the
/// matching pile's card text, on the designated rows that hold one.
pub open spec fn foundation_suffix(f: Seq<Option<Card>>, i: int) -> Seq<char> {
    if FOUNDATION_ROW_OFFSET <= i < FOUNDATION_ROW_OFFSET + N_CARDS {
        match f[i - FOUNDATION_ROW_OFFSET] {
            None => Seq::empty(),
            Some(c) => seq![' ', ' '] + c.spec_text(),
        }
    } else {
        Seq::empty()
    }
}

/// The full text of rendered row `i`, newline included.
pub open spec fn row_text(f: Seq<Option<Card>>, cols: Seq<Seq<Option<Card>>>, i: int) -> Seq<
    char,
> {
    row_cards_text(cols, i, 0) + foundation_suffix(f, i) + seq!['\n']
}

/// The rendered rows from `i` up to `stop`.
pub open spec fn rows_text(
    f: Seq<Option<Card>>,
    cols: Seq<Seq<Option<Card>>>,
    i: int,
    stop: int,
) -> Seq<char>
    decreases stop - i,
{
    if i >= stop {
        Seq::empty()
    } else {
        row_text(f, cols, i) + rows_text(f, cols, i + 1, stop)
    }
}

/// The column sequences that an array of columns stands for.
pub open spec fn cols_view(columns: Seq<Column>) -> Seq<Seq<Option<Card>>> {
    columns.map_values(|c: Column| c.cards@)
}

/// The whole rendering of foundations and columns: every row up to the
/// stopping row.
pub open spec fn foundation_render(f: Seq<Option<Card>>, cols: Seq<Seq<Option<Card>>>) -> Seq<
    char,
> {
    rows_text(f, cols, 0, render_stop(cols, 0))
}

/// Extending the rendered range by one row appends that row's text.
proof fn lemma_rows_text_snoc(f: Seq<Option<Card>>, cols: Seq<Seq<Option<Card>>>, j: int, i: int)
    requires
        j <= i,
    ensures
        rows_text(f, cols, j, i + 1) =~= rows_text(f, cols, j, i) + row_text(f, cols, i),
    decreases i - j,
{
    if j == i {
        assert(rows_text(f, cols, i + 1, i + 1) =~= Seq::<char>::empty());
        assert(rows_text(f, cols, j, i + 1) =~= row_text(f, cols, i));
        assert(rows_text(f, cols, j, i) =~= Seq::<char>::empty());
    } else {
        lemma_rows_text_snoc(f, cols, j + 1, i);
        assert(rows_text(f, cols, j, i + 1) =~= row_text(f, cols, j) + rows_text(
            f,
            cols,
            j + 1,
            i + 1,
        ));
        assert(rows_text(f, cols, j, i) + row_text(f, cols, i) =~= row_text(f, cols, j) + (
        rows_text(f, cols, j + 1, i) + row_text(f, cols, i)));
    }
}

/// The stopping row is unchanged by skipping rows at which the rendering
/// does not stop.
proof fn lemma_render_stop_skip(cols: Seq<Seq<Option<Card>>>, k: int)
    requires
        0 <= k <= MAX_COLUMN_SIZE,
        forall|j: int|
            0 <= j < k ==> !(j >= FOUNDATION_ROW_OFFSET + N_CARDS && row_all_blank(cols, j)),
    ensures
        render_stop(cols, 0) == render_stop(cols, k),
    decreases k,
{
    if k > 0 {
        lemma_render_stop_skip(cols, k - 1);
        assert(render_stop(cols, k - 1) == render_stop(cols, k));
    }
}

/// Number of foundation piles: one per suit.
pub const N_CARDS: usize = card::N_SUITS;

/// Row of the diagnostic rendering at which foundation cards start.
pub const FOUNDATION_ROW_OFFSET: usize = 1;

/// Whether every foundation pile of the sequence has been driven to the
/// highest rank of its suit.
pub open spec fn foundation_solved(f: Seq<Option<Card>>) -> bool {
    forall|s: int| 0 <= s < f.len() ==> (#[trigger] f[s] matches Some(c)
        && c.spec_rank() == card::HIGHEST_RANK)
}

/// The per-suit foundation piles of a board, each tracked by its top card.
#[derive(Debug, Clone, Copy)]
pub struct Foundation {
    pub cards: [Option<Card>; N_CARDS],
}

impl Foundation {
    /// The foundations are well formed when pile `s` holds, if anything,
    /// a well-formed card of suit `s`.
    pub open spec fn wf(self) -> bool {
        forall|s: int| 0 <= s < N_CARDS ==> (#[trigger] self.cards@[s] matches Some(c) ==> c.wf()
            && c.spec_suit() == s)
    }

    /// All piles empty.
    pub fn new() -> (f: Self)
        ensures
            f.wf(),
            forall|s: int| 0 <= s < N_CARDS ==> f.cards@[s] is None,
    {
        Self { cards: [None; N_CARDS] }
    }

    /// Whether every pile's top card has the highest rank of its suit.
    pub fn is_solved(self) -> (r: bool)
        requires
            self.wf(),
        ensures
            r == foundation_solved(self.cards@),
    {
        let mut s: usize = 0;
        while s < N_CARDS
            invariant
                s <= N_CARDS,
                self.wf(),
                forall|j: int| 0 <= j < s ==> (#[trigger] self.cards@[j] matches Some(c)
                    && c.spec_rank() == card::HIGHEST_RANK),
            decreases N_CARDS - s,
        {
            match self.cards[s] {
                None => {
                    return false;
                },
                Some(c) => {
                    if !c.is_highest_rank() {
                        return false;
                    }
                },
            }
            s += 1;
        }
        true
    }

    /// Renders the tableau and foundations together: one line per
    /// occupied row of space-joined two-character card tokens, the
    /// matching foundation card appended after a separator, stopping at
    /// the first row past the foundation rows with no column card.
    #[verifier::loop_isolation(false)]
    #[verifier::rlimit(50)]
    pub fn with_columns_to_s(self, columns: &[Column; board::N_COLUMNS]) -> (r: String)
        requires
            self.wf(),
            forall|k: int| 0 <= k < board::N_COLUMNS ==> (#[trigger] columns@[k]).wf(),
        ensures
            r@ == foundation_render(self.cards@, cols_view(columns@)),
    {
        let ghost f = self.cards@;
        let ghost cols = cols_view(columns@);
        let ghost stop = render_stop(cols, 0);
        let mut s = String::new();
        let mut i: usize = 0;
        let mut done = false;

        while !done
            invariant
                i <= MAX_COLUMN_SIZE,
                !done ==> s@ == rows_text(f, cols, 0, i as int),
                !done ==> forall|j: int|
                    0 <= j < i ==> !(j >= FOUNDATION_ROW_OFFSET + N_CARDS && row_all_blank(
                        cols,
                        j,
                    )),
                done ==> s@ == rows_text(f, cols, 0, stop),
            decreases (if done {
                0int
            } else {
                MAX_COLUMN_SIZE - i + 1
            }),
        {
            if i == MAX_COLUMN_SIZE {
                done = true;
                proof {
                    lemma_render_stop_skip(cols, MAX_COLUMN_SIZE as int);
                }
            } else {
                let mut blank = true;
                let mut k: usize = 0;
                while k < board::N_COLUMNS
                    invariant
                        i < MAX_COLUMN_SIZE,
                        k <= board::N_COLUMNS,
                        blank ==> forall|j: int|
                            0 <= j < k ==> (#[trigger] cols[j])[i as int] is None,
                        !blank ==> exists|j: int|
                            0 <= j < k && (#[trigger] cols[j])[i as int] is Some,
                    decreases board::N_COLUMNS - k,
                {
                    proof {
                        assert(cols[k as int] == columns@[k as int].cards@);
                    }
                    if columns[k].cards[i].is_some() {
                        blank = false;
                        proof {
                            assert(cols[k as int][i as int] is Some);
                        }
                    }
                    k += 1;
                }
                proof {
                    if !blank {
                        assert(!row_all_blank(cols, i as int));
                    }
                }
                done = i >= FOUNDATION_ROW_OFFSET + N_CARDS && blank;
                if !done {
                    let ghost base = s@;
                    let mut k2: usize = 0;
                    while k2 < board::N_COLUMNS
                        invariant
                            i < MAX_COLUMN_SIZE,
                            k2 <= board::N_COLUMNS,
                            s@ + row_cards_text(cols, i as int, k2 as int) =~= base
                                + row_cards_text(cols, i as int, 0),
                        decreases board::N_COLUMNS - k2,
                    {
                        let ghost before = s@;
                        proof {
                            assert(cols[k2 as int] == columns@[k2 as int].cards@);
                        }
                        match columns[k2].cards[i] {
                            None => {
                                s.append("  ");
                                proof {
                                    reveal_strlit("  ");
                                    assert(s@ =~= before + slot_text(
                                        cols[k2 as int][i as int],
                                    ));
                                }
                            },
                            Some(c) => {
                                let t = c.to_text();
                                s.append(t.as_str());
                            },
                        }
                        if k2 < board::N_COLUMNS - 1 {
                            s.append(" ");
                            proof {
                                reveal_strlit(" ");
                                assert(s@ =~= before + slot_text(cols[k2 as int][i as int])
                                    + seq![' ']);
                            }
                        }
                        proof {
                            assert(s@ + row_cards_text(cols, i as int, k2 + 1) =~= base
                                + row_cards_text(cols, i as int, 0));
                        }
                        k2 += 1;
                    }
                    proof {
                        assert(row_cards_text(cols, i as int, board::N_COLUMNS as int) =~= Seq::<
                            char,
                        >::empty());
                        assert(s@ =~= base + row_cards_text(cols, i as int, 0));
                    }
                    self.optionally_add_foundation_card(&mut s, i);
                    s.append("\n");
                    proof {
                        reveal_strlit("\n");
                        assert("\n"@ =~= seq!['\n']);
                        lemma_rows_text_snoc(f, cols, 0, i as int);
                        assert(s@ =~= base + row_text(f, cols, i as int));
                        assert(s@ =~= rows_text(f, cols, 0, i + 1));
                    }
                    i += 1;
                } else {
                    proof {
                        lemma_render_stop_skip(cols, i as int);
                        assert(render_stop(cols, i as int) == i);
                    }
                }
            }
        }
        s
    }

    /// Appends to `s` the separator and the card of the foundation pile
    /// that rendered row `i` carries, if that row carries one.
    fn optionally_add_foundation_card(self, s: &mut String, i: usize)
        requires
            self.wf(),
        ensures
            final(s)@ == old(s)@ + foundation_suffix(self.cards@, i as int),
    {
        let ghost base = s@;
        if i >= FOUNDATION_ROW_OFFSET {
            let index = i - FOUNDATION_ROW_OFFSET;
            if index < N_CARDS {
                match self.cards[index] {
                    Some(card) => {
                        s.append(SEPARATOR);
                        let t = card.to_text();
                        s.append(t.as_str());
                        proof {
                            reveal_strlit("  ");
                            assert(SEPARATOR@ =~= seq![' ', ' ']);
                            assert(s@ =~= base + foundation_suffix(self.cards@, i as int));
                        }
                        return ;
                    },
                    None => {
                        proof {
                            assert(s@ =~= base + foundation_suffix(self.cards@, i as int));
                        }
                        return ;
                    },
                }
            }
        }
        proof {
            assert(s@ =~= base + foundation_suffix(self.cards@, i as int));
        }
    }
}

} // verus!
