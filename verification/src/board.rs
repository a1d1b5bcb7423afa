//! The board: foundations, free cells and tableau columns, with the move
//! operations, automatic foundation promotion, and the canonical byte form
//! that makes equality and the visited set permutation-invariant.
//!
//! Boards are plain `Copy` values: every move operation returns a new board
//! and never mutates its receiver, so backtracking needs no undo log.

use vstd::multiset::Multiset;
use vstd::prelude::*;

use crate::card;
use crate::card::adjacent;
use crate::card::Card;

pub mod cells;
pub mod column;
pub mod foundation;

use cells::Cells;
use column::contiguous;
use column::count_cards;
use column::lemma_count_cards_contiguous;
use column::slot_wf;
use column::slots_wf;
use column::top_card;
use column::Column;
use column::MAX_COLUMN_SIZE;
use foundation::foundation_solved;
use foundation::Foundation;

verus! {

/// Number of tableau columns.
pub const N_COLUMNS: usize = 8;

/// Number of free cells.
pub const N_CELLS: usize = cells::N_CELLS;

/// The mathematical model of a board: the foundations' top cards, the free
/// cells' contents, and each column's slot sequence.
#[verifier::ext_equal]
pub ghost struct BoardV {
    pub foundation: Seq<Option<Card>>,
    pub cells: Seq<Option<Card>>,
    pub columns: Seq<Seq<Option<Card>>>,
}

impl BoardV {
    /// Shape and content invariant of a board model: correct dimensions,
    /// well-formed cards everywhere, the foundation pile of suit `s`
    /// holding only a card of suit `s`, and each column's occupied slots
    /// contiguous from the bottom.
    pub open spec fn wf(self) -> bool {
        &&& self.foundation.len() == card::N_SUITS
        &&& (forall|s: int| 0 <= s < card::N_SUITS ==> (#[trigger] self.foundation[s] matches Some(c)
            ==> c.wf() && c.spec_suit() == s))
        &&& self.cells.len() == N_CELLS
        &&& slots_wf(self.cells)
        &&& self.columns.len() == N_COLUMNS
        &&& (forall|i: int| 0 <= i < N_COLUMNS ==> (#[trigger] self.columns[i]).len()
            == MAX_COLUMN_SIZE)
        &&& (forall|i: int| 0 <= i < N_COLUMNS ==> slots_wf(#[trigger] self.columns[i]))
        &&& (forall|i: int| 0 <= i < N_COLUMNS ==> contiguous(#[trigger] self.columns[i]))
    }

    /// Whether the board is solved: every foundation pile has reached the
    /// highest rank of its suit.
    pub open spec fn solved(self) -> bool {
        foundation_solved(self.foundation)
    }
}

/// Aggregate of foundations, free cells and columns.
#[derive(Debug, Clone, Copy)]
pub struct Board {
    pub foundation: Foundation,
    pub cells: Cells,
    pub columns: [Column; N_COLUMNS],
}

impl View for Board {
    type V = BoardV;

    open spec fn view(&self) -> BoardV {
        BoardV {
            foundation: self.foundation.cards@,
            cells: self.cells.cards@,
            columns: self.columns@.map_values(|c: Column| c.cards@),
        }
    }
}

impl Board {
    /// Whether the concrete board satisfies the model invariant.
    pub open spec fn wf(self) -> bool {
        self@.wf()
    }

    /// The column indices, in the fixed scan order.
    pub fn column_index_iterator() -> (r: core::ops::Range<usize>)
        ensures
            r.start == 0,
            r.end == N_COLUMNS,
    {
        0..N_COLUMNS
    }

    /// The cell indices, in the fixed scan order.
    pub fn cell_index_iterator() -> (r: core::ops::Range<usize>)
        ensures
            r.start == 0,
            r.end == N_CELLS,
    {
        0..N_CELLS
    }

    /// Whether every foundation pile has reached the highest rank.
    pub fn is_solved(&self) -> (r: bool)
        requires
            self.wf(),
        ensures
            r == self@.solved(),
    {
        self.foundation.is_solved()
    }

    /// A printable rendering of the whole board: the tableau rows with
    /// their foundation cards, then the free-cell line.
    pub fn to_s(&self) -> (r: String)
        requires
            self.wf(),
        ensures
            r@ == foundation::foundation_render(self@.foundation, self@.columns) + seq!['\n']
                + cells::cells_text(self@.cells, 0),
    {
        proof {
            assert(foundation::cols_view(self.columns@) =~~= self@.columns);
            assert forall|k: int| 0 <= k < N_COLUMNS implies (#[trigger] self.columns@[k]).wf() by {
                assert(self@.columns[k] == self.columns@[k].cards@);
            }
        }
        let mut r = self.foundation.with_columns_to_s(&self.columns);
        r.append("\n");
        let cell_line = self.cells.to_s();
        r.append(cell_line.as_str());
        proof {
            reveal_strlit("\n");
            assert("\n"@ =~= seq!['\n']);
        }
        r
    }

    /// The lowest index of a fully empty column, or `None`. All empty
    /// columns are interchangeable, so one destination suffices for the
    /// moves that target an empty column.
    pub fn empty_column(&self) -> (r: Option<usize>)
        requires
            self.wf(),
        ensures
            r matches Some(i) ==> i < N_COLUMNS && count_cards(self@.columns[i as int]) == 0
                && forall|j: int| 0 <= j < i ==> count_cards(#[trigger] self@.columns[j]) > 0,
            r is None ==> forall|j: int| 0 <= j < N_COLUMNS ==> count_cards(
                #[trigger] self@.columns[j],
            ) > 0,
    {
        let mut i: usize = 0;
        while i < N_COLUMNS
            invariant
                i <= N_COLUMNS,
                self.wf(),
                forall|j: int| 0 <= j < i ==> count_cards(#[trigger] self@.columns[j]) > 0,
            decreases N_COLUMNS - i,
        {
            proof {
                lemma_count_cards_contiguous(self@.columns[i as int]);
            }
            if self.columns[i].cards[0].is_none() {
                return Some(i);
            }
            i += 1;
        }
        None
    }
}

/// Character column at which a line carries the foundation rank, in the
/// fixed-width layout a loader hands over.
pub const FOUNDATION_RANK_OFFSET: usize = N_COLUMNS * 3 + 1;

/// Character column at which a line carries the foundation suit.
pub const FOUNDATION_SUIT_OFFSET: usize = FOUNDATION_RANK_OFFSET + 1;

/// Whether two characters form a readable slot: both blank, or a valid
/// rank character followed by a valid suit character. A loader must
/// reject anything else as a fatal load error.
pub open spec fn char_pair_ok(rc: char, sc: char) -> bool {
    (rc == ' ' && sc == ' ') || (card::spec_rank_of_char(rc) >= 0 && card::spec_suit_of_char(sc)
        >= 0)
}

/// The slot content that two characters of a line denote, at the given
/// character offset; a short line denotes an empty slot.
pub open spec fn spec_card_at_offset(line: Seq<char>, off: int) -> Option<Card> {
    if 0 <= off && off + 1 < line.len() {
        if line[off] == ' ' && line[off + 1] == ' ' {
            None
        } else {
            Some(
                Card {
                    value: (card::spec_rank_of_char(line[off]) * 4 + card::spec_suit_of_char(
                        line[off + 1],
                    ) + 1) as u8,
                },
            )
        }
    } else {
        None
    }
}

/// The slot content that a line denotes for the given board column, under
/// the three-characters-per-column layout.
pub open spec fn spec_card_at(line: Seq<char>, column: int) -> Option<Card> {
    spec_card_at_offset(line, 3 * column)
}

impl Board {
    /// Reads the card that `line` carries for board column `column`; a
    /// line too short to reach the column denotes an empty slot.
    pub fn card_from_line_indexed_by_column(line: &str, column: usize) -> (r: Option<Card>)
        requires
            column < N_COLUMNS,
            3 * column + 1 < line@.len() ==> char_pair_ok(
                line@[3 * column],
                line@[3 * column + 1],
            ),
        ensures
            r == spec_card_at(line@, column as int),
            slot_wf(r),
    {
        let offset = column * 3;
        let n = line.unicode_len();

        if offset + 1 < n {
            let rank_char = line.get_char(offset);
            let suit_char = line.get_char(offset + 1);
            Card::new_rank_suit(rank_char, suit_char)
        } else {
            None
        }
    }

    /// Records the foundation card that `line` carries, when `row_number`
    /// is one of the designated foundation rows and the line reaches the
    /// fixed foundation offsets; pile order follows row order.
    pub fn optionally_add_foundation_card(
        foundation: &mut Foundation,
        row_number: usize,
        line: &str,
    )
        requires
            old(foundation).wf(),
            (foundation::FOUNDATION_ROW_OFFSET <= row_number < foundation::FOUNDATION_ROW_OFFSET
                + foundation::N_CARDS && FOUNDATION_SUIT_OFFSET < line@.len()) ==> char_pair_ok(
                line@[FOUNDATION_RANK_OFFSET as int],
                line@[FOUNDATION_SUIT_OFFSET as int],
            ) && (spec_card_at_offset(line@, FOUNDATION_RANK_OFFSET as int) matches Some(c)
                ==> c.spec_suit() == row_number - foundation::FOUNDATION_ROW_OFFSET),
        ensures
            final(foundation).wf(),
            (foundation::FOUNDATION_ROW_OFFSET <= row_number < foundation::FOUNDATION_ROW_OFFSET
                + foundation::N_CARDS && FOUNDATION_SUIT_OFFSET < line@.len())
                ==> final(foundation).cards@ == old(foundation).cards@.update(
                row_number - foundation::FOUNDATION_ROW_OFFSET,
                spec_card_at_offset(line@, FOUNDATION_RANK_OFFSET as int),
            ),
            !(foundation::FOUNDATION_ROW_OFFSET <= row_number
                < foundation::FOUNDATION_ROW_OFFSET + foundation::N_CARDS
                && FOUNDATION_SUIT_OFFSET < line@.len()) ==> *final(foundation) == *old(
                foundation,
            ),
    {
        if row_number >= foundation::FOUNDATION_ROW_OFFSET {
            let index = row_number - foundation::FOUNDATION_ROW_OFFSET;
            if index < foundation::N_CARDS {
                let n = line.unicode_len();
                if FOUNDATION_SUIT_OFFSET < n {
                    let rank_char = line.get_char(FOUNDATION_RANK_OFFSET);
                    let suit_char = line.get_char(FOUNDATION_SUIT_OFFSET);
                    let card = Card::new_rank_suit(rank_char, suit_char);
                    foundation.cards[index] = card;
                    proof {
                        assert forall|s: int|
                            0 <= s < foundation::N_CARDS implies (#[trigger] foundation.cards@[s]
                            matches Some(c) ==> c.wf() && c.spec_suit() == s) by {
                            if s != index {
                                assert(foundation.cards@[s] == old(foundation).cards@[s]);
                            }
                        }
                    }
                }
            }
        }
    }

    /// Fills the free cells from the trailing cell line, one cell per
    /// board column under the same per-column offsets.
    pub fn set_cells(cells: &mut Cells, line: &str)
        requires
            forall|j: int|
                0 <= j < N_COLUMNS ==> (3 * j + 1 < line@.len() ==> char_pair_ok(
                    #[trigger] line@[3 * j],
                    line@[3 * j + 1],
                )),
        ensures
            final(cells).wf(),
            forall|j: int|
                0 <= j < N_CELLS ==> final(cells).cards@[j] == spec_card_at(line@, j),
    {
        let mut column_number: usize = 0;
        while column_number < N_COLUMNS
            invariant
                column_number <= N_COLUMNS,
                forall|j: int|
                    0 <= j < N_COLUMNS ==> (3 * j + 1 < line@.len() ==> char_pair_ok(
                        #[trigger] line@[3 * j],
                        line@[3 * j + 1],
                    )),
                forall|j: int|
                    0 <= j < column_number ==> cells.cards@[j] == spec_card_at(line@, j),
                forall|j: int|
                    0 <= j < column_number ==> slot_wf(#[trigger] cells.cards@[j]),
            decreases N_COLUMNS - column_number,
        {
            let card = Self::card_from_line_indexed_by_column(line, column_number);
            cells.cards[column_number] = card;
            column_number += 1;
        }
        proof {
            assert forall|i: int| 0 <= i < cells.cards@.len() implies slot_wf(
                #[trigger] cells.cards@[i],
            ) by {}
        }
    }
}

/// Board model after moving the exposed card of column `from` onto the
/// exposed card of column `to`, when the adjacency rule permits it.
pub open spec fn spec_column_to_card_column(b: BoardV, from: int, to: int) -> Option<BoardV> {
    if !(0 <= from < N_COLUMNS && 0 <= to < N_COLUMNS) {
        None
    } else {
        let fcol = b.columns[from];
        let tcol = b.columns[to];
        let nf = count_cards(fcol);
        let nt = count_cards(tcol);
        if nf == 0 || nt == 0 {
            None
        } else if !(top_card(fcol) matches Some(f) && top_card(tcol) matches Some(t) && adjacent(
            f,
            t,
        )) {
            None
        } else if nt >= MAX_COLUMN_SIZE {
            None
        } else {
            Some(
                BoardV {
                    columns: b.columns.update(from, fcol.update(nf - 1, None)).update(
                        to,
                        tcol.update(nt, top_card(fcol)),
                    ),
                    ..b
                },
            )
        }
    }
}

/// Board model after moving the exposed card of column `from` to slot 0 of
/// the fully empty column `to`.
pub open spec fn spec_column_to_empty_column(b: BoardV, from: int, to: int) -> Option<BoardV> {
    if !(0 <= from < N_COLUMNS && 0 <= to < N_COLUMNS) {
        None
    } else {
        let fcol = b.columns[from];
        let nf = count_cards(fcol);
        if nf == 0 || count_cards(b.columns[to]) != 0 {
            None
        } else {
            Some(
                BoardV {
                    columns: b.columns.update(from, fcol.update(nf - 1, None)).update(
                        to,
                        b.columns[to].update(0, top_card(fcol)),
                    ),
                    ..b
                },
            )
        }
    }
}

/// Board model after moving the exposed card of column `from` into the
/// empty cell `to`.
pub open spec fn spec_column_to_cell(b: BoardV, from: int, to: int) -> Option<BoardV> {
    if !(0 <= from < N_COLUMNS && 0 <= to < N_CELLS) {
        None
    } else {
        let fcol = b.columns[from];
        let nf = count_cards(fcol);
        if nf == 0 || b.cells[to] is Some {
            None
        } else {
            Some(
                BoardV {
                    cells: b.cells.update(to, top_card(fcol)),
                    columns: b.columns.update(from, fcol.update(nf - 1, None)),
                    ..b
                },
            )
        }
    }
}

/// Board model after moving the card in cell `from` onto the exposed card
/// of column `to`, when the adjacency rule permits it.
pub open spec fn spec_cell_to_card_column(b: BoardV, from: int, to: int) -> Option<BoardV> {
    if !(0 <= from < N_CELLS && 0 <= to < N_COLUMNS) {
        None
    } else {
        let tcol = b.columns[to];
        let nt = count_cards(tcol);
        if !(b.cells[from] matches Some(c)) {
            None
        } else if nt == 0 {
            None
        } else if !(b.cells[from] matches Some(c) && top_card(tcol) matches Some(t) && adjacent(
            c,
            t,
        )) {
            None
        } else if nt >= MAX_COLUMN_SIZE {
            None
        } else {
            Some(
                BoardV {
                    cells: b.cells.update(from, None),
                    columns: b.columns.update(to, tcol.update(nt, b.cells[from])),
                    ..b
                },
            )
        }
    }
}

/// Board model after moving the card in cell `from` to slot 0 of the fully
/// empty column `to`.
pub open spec fn spec_cell_to_empty_column(b: BoardV, from: int, to: int) -> Option<BoardV> {
    if !(0 <= from < N_CELLS && 0 <= to < N_COLUMNS) {
        None
    } else if !(b.cells[from] is Some) || count_cards(b.columns[to]) != 0 {
        None
    } else {
        Some(
            BoardV {
                cells: b.cells.update(from, None),
                columns: b.columns.update(to, b.columns[to].update(0, b.cells[from])),
                ..b
            },
        )
    }
}

/// The multiset of cards held in a sequence of slots.
pub open spec fn cards_of(s: Seq<Option<Card>>) -> Multiset<Card>
    decreases s.len(),
{
    if s.len() == 0 {
        Multiset::empty()
    } else {
        match s.last() {
            None => cards_of(s.drop_last()),
            Some(c) => cards_of(s.drop_last()).insert(c),
        }
    }
}

/// The multiset of cards held by a sequence of columns.
pub open spec fn columns_cards(cols: Seq<Seq<Option<Card>>>) -> Multiset<Card>
    decreases cols.len(),
{
    if cols.len() == 0 {
        Multiset::empty()
    } else {
        columns_cards(cols.drop_last()).add(cards_of(cols.last()))
    }
}

/// All cards outside the foundations: those in columns or cells.
pub open spec fn loose_multiset(b: BoardV) -> Multiset<Card> {
    columns_cards(b.columns).add(cards_of(b.cells))
}

/// How updating one slot changes the multiset of held cards.
pub proof fn lemma_cards_of_update(s: Seq<Option<Card>>, i: int, v: Option<Card>)
    requires
        0 <= i < s.len(),
    ensures
        v matches Some(c) ==> (s[i] is None ==> cards_of(s.update(i, v)) =~= cards_of(s).insert(
            c,
        )),
        s[i] matches Some(c) ==> (v is None ==> cards_of(s).count(c) >= 1 && cards_of(
            s.update(i, v),
        ) =~= cards_of(s).remove(c)),
    decreases s.len(),
{
    let r = s.update(i, v);
    if i == s.len() - 1 {
        assert(r.drop_last() =~= s.drop_last());
    } else {
        assert(r.drop_last() =~= s.drop_last().update(i, v));
        lemma_cards_of_update(s.drop_last(), i, v);
        assert(r.last() == s.last());
        let base = cards_of(s.drop_last());
        if s[i] is None && v is Some {
            let c = v.unwrap();
            match s.last() {
                None => {},
                Some(d) => {
                    assert(base.insert(c).insert(d) =~= base.insert(d).insert(c));
                },
            }
        }
        if s[i] is Some && v is None {
            let c = s[i].unwrap();
            match s.last() {
                None => {},
                Some(d) => {
                    assert(base.remove(c).insert(d) =~= base.insert(d).remove(c));
                },
            }
        }
    }
}

/// How replacing one column changes the multiset of held cards, counted
/// card by card.
pub proof fn lemma_columns_cards_update(cols: Seq<Seq<Option<Card>>>, i: int, c: Seq<Option<Card>>)
    requires
        0 <= i < cols.len(),
    ensures
        forall|x: Card| #[trigger] columns_cards(cols).count(x) >= cards_of(cols[i]).count(x),
        forall|x: Card| #[trigger] columns_cards(cols.update(i, c)).count(x) == columns_cards(
            cols,
        ).count(x) - cards_of(cols[i]).count(x) + cards_of(c).count(x),
    decreases cols.len(),
{
    let r = cols.update(i, c);
    if i == cols.len() - 1 {
        assert(r.drop_last() =~= cols.drop_last());
        assert(r.last() == c);
        assert forall|x: Card|
            #[trigger] columns_cards(cols).count(x) >= cards_of(cols[i]).count(x)
                && #[trigger] columns_cards(r).count(x) == columns_cards(cols).count(x) - cards_of(
                cols[i],
            ).count(x) + cards_of(c).count(x) by {
            assert(columns_cards(cols).count(x) == columns_cards(cols.drop_last()).count(x)
                + cards_of(cols.last()).count(x));
            assert(columns_cards(r).count(x) == columns_cards(cols.drop_last()).count(x)
                + cards_of(c).count(x));
        }
    } else {
        assert(r.drop_last() =~= cols.drop_last().update(i, c));
        lemma_columns_cards_update(cols.drop_last(), i, c);
        assert(r.last() == cols.last());
        assert forall|x: Card|
            #[trigger] columns_cards(cols).count(x) >= cards_of(cols[i]).count(x)
                && #[trigger] columns_cards(r).count(x) == columns_cards(cols).count(x) - cards_of(
                cols[i],
            ).count(x) + cards_of(c).count(x) by {
            assert(columns_cards(cols).count(x) == columns_cards(cols.drop_last()).count(x)
                + cards_of(cols.last()).count(x));
            assert(columns_cards(r).count(x) == columns_cards(cols.drop_last().update(i, c)).count(
                x,
            ) + cards_of(cols.last()).count(x));
            assert(columns_cards(cols.drop_last()).count(x) >= cards_of(cols[i]).count(x));
            assert(columns_cards(cols.drop_last().update(i, c)).count(x) == columns_cards(
                cols.drop_last(),
            ).count(x) - cards_of(cols[i]).count(x) + cards_of(c).count(x));
        }
    }
}

/// Whether foundation pile of `c`'s suit is ready to receive `c`: an empty
/// pile takes the lowest rank, an occupied one takes exactly the next
/// higher card of the same suit.
pub open spec fn foundation_accepts(f: Seq<Option<Card>>, c: Card) -> bool {
    c.wf() && match f[c.spec_suit()] {
        None => c.spec_rank() == 0,
        Some(t) => adjacent(t, c),
    }
}

/// Whether column `i` exposes a card that is ready for promotion.
pub open spec fn col_eligible(b: BoardV, i: int) -> bool {
    top_card(b.columns[i]) matches Some(c) && foundation_accepts(b.foundation, c)
}

/// Whether cell `j` holds a card that is ready for promotion.
pub open spec fn cell_eligible(b: BoardV, j: int) -> bool {
    b.cells[j] matches Some(c) && foundation_accepts(b.foundation, c)
}

/// The first column at index `k` or later whose exposed card is ready for
/// promotion.
pub open spec fn first_auto_column(b: BoardV, k: int) -> Option<int>
    decreases N_COLUMNS - k,
{
    if k < 0 || k >= N_COLUMNS {
        None
    } else if col_eligible(b, k) {
        Some(k)
    } else {
        first_auto_column(b, k + 1)
    }
}

/// The first cell at index `k` or later whose card is ready for promotion.
pub open spec fn first_auto_cell(b: BoardV, k: int) -> Option<int>
    decreases N_CELLS - k,
{
    if k < 0 || k >= N_CELLS {
        None
    } else if cell_eligible(b, k) {
        Some(k)
    } else {
        first_auto_cell(b, k + 1)
    }
}

/// The board after promoting the exposed card of column `i` to its
/// foundation pile.
pub open spec fn col_promote(b: BoardV, i: int) -> BoardV {
    let col = b.columns[i];
    let c = top_card(col).unwrap();
    BoardV {
        foundation: b.foundation.update(c.spec_suit(), top_card(col)),
        columns: b.columns.update(i, col.update(count_cards(col) - 1, None)),
        ..b
    }
}

/// The board after promoting the card of cell `j` to its foundation pile.
pub open spec fn cell_promote(b: BoardV, j: int) -> BoardV {
    let c = b.cells[j].unwrap();
    BoardV {
        foundation: b.foundation.update(c.spec_suit(), b.cells[j]),
        cells: b.cells.update(j, None),
        ..b
    }
}

/// One round of the automatic-move scan: the promotion of the first
/// eligible column card, else of the first eligible cell card, else
/// nothing.
pub open spec fn auto_step(b: BoardV) -> Option<BoardV> {
    match first_auto_column(b, 0) {
        Some(i) => Some(col_promote(b, i)),
        None => match first_auto_cell(b, 0) {
            Some(j) => Some(cell_promote(b, j)),
            None => None,
        },
    }
}

/// Total number of cards held by a sequence of columns.
pub open spec fn total_col_cards(cols: Seq<Seq<Option<Card>>>) -> int
    decreases cols.len(),
{
    if cols.len() == 0 {
        0
    } else {
        total_col_cards(cols.drop_last()) + count_cards(cols.last())
    }
}

/// Number of cards still outside the foundations: in columns or cells.
pub open spec fn loose_cards(b: BoardV) -> int {
    total_col_cards(b.columns) + count_cards(b.cells)
}

/// The board after at most `n` rounds of automatic promotion.
pub open spec fn force_n(b: BoardV, n: nat) -> BoardV
    decreases n,
{
    if n == 0 {
        b
    } else {
        match auto_step(b) {
            None => b,
            Some(b2) => force_n(b2, (n - 1) as nat),
        }
    }
}

/// The fixed point of automatic promotion: each round moves one card out
/// of the columns or cells, so `loose_cards` rounds always suffice.
pub open spec fn force(b: BoardV) -> BoardV {
    force_n(
        b,
        if loose_cards(b) > 0 {
            loose_cards(b) as nat
        } else {
            0
        },
    )
}

/// Removing the exposed card of a well-formed column keeps its slots
/// well formed and contiguous, with one card fewer.
pub proof fn lemma_remove_top(s: Seq<Option<Card>>)
    requires
        slots_wf(s),
        contiguous(s),
        count_cards(s) > 0,
    ensures
        slots_wf(s.update(count_cards(s) - 1, None)),
        contiguous(s.update(count_cards(s) - 1, None)),
        count_cards(s.update(count_cards(s) - 1, None)) == count_cards(s) - 1,
{
    let n = count_cards(s);
    lemma_count_cards_contiguous(s);
    let r = s.update(n - 1, None);
    assert forall|i: int| 0 <= i < r.len() implies slot_wf(#[trigger] r[i]) by {
        if i != n - 1 {
            assert(r[i] == s[i]);
        }
    }
    assert forall|i: int, j: int|
        #![trigger r[i], r[j]]
        0 <= i < j < r.len() && r[i] is None implies r[j] is None by {
        if i < n - 1 {
            assert(r[i] == s[i] && s[i] is Some);
        } else {
            assert(j > n - 1);
            assert(r[j] == s[j] && s[j] is None);
        }
    }
    lemma_count_cards_contiguous(r);
    if n - 1 > 0 {
        assert(r[n - 2] == s[n - 2] && s[n - 2] is Some);
    }
    assert(r[n - 1] is None);
    if count_cards(r) > n - 1 {
        assert(r[n - 1] is Some);
    }
    if count_cards(r) < n - 1 {
        assert(r[n - 2] is None);
    }
}

/// Placing a well-formed card on top of a well-formed column that has room
/// keeps its slots well formed and contiguous, with one card more.
pub proof fn lemma_add_top(s: Seq<Option<Card>>, c: Card)
    requires
        slots_wf(s),
        contiguous(s),
        count_cards(s) < s.len(),
        c.wf(),
    ensures
        slots_wf(s.update(count_cards(s), Some(c))),
        contiguous(s.update(count_cards(s), Some(c))),
        count_cards(s.update(count_cards(s), Some(c))) == count_cards(s) + 1,
{
    let n = count_cards(s);
    lemma_count_cards_contiguous(s);
    let r = s.update(n, Some(c));
    assert forall|i: int| 0 <= i < r.len() implies slot_wf(#[trigger] r[i]) by {
        if i != n {
            assert(r[i] == s[i]);
        }
    }
    assert forall|i: int, j: int|
        #![trigger r[i], r[j]]
        0 <= i < j < r.len() && r[i] is None implies r[j] is None by {
        if i < n {
            assert(r[i] == s[i] && s[i] is Some);
        } else {
            assert(i > n && j > n);
            assert(r[j] == s[j] && s[j] is None);
        }
    }
    lemma_count_cards_contiguous(r);
    assert(r[n] is Some);
    if n + 1 < r.len() {
        assert(r[n + 1] == s[n + 1] && s[n + 1] is None);
        if count_cards(r) > n + 1 {
            assert(r[n + 1] is Some);
        }
    }
    if count_cards(r) < n + 1 {
        assert(r[n] is None);
    }
}

/// A slot count lies between zero and the number of slots.
pub proof fn lemma_count_cards_bounds(s: Seq<Option<Card>>)
    ensures
        0 <= count_cards(s) <= s.len(),
    decreases s.len(),
{
    if s.len() > 0 {
        lemma_count_cards_bounds(s.drop_last());
    }
}

/// How updating one slot changes the slot count.
pub proof fn lemma_count_cards_update(s: Seq<Option<Card>>, i: int, v: Option<Card>)
    requires
        0 <= i < s.len(),
    ensures
        count_cards(s.update(i, v)) == count_cards(s) - (if s[i] is Some {
            1int
        } else {
            0int
        }) + (if v is Some {
            1int
        } else {
            0int
        }),
    decreases s.len(),
{
    let r = s.update(i, v);
    if i == s.len() - 1 {
        assert(r.drop_last() =~= s.drop_last());
    } else {
        assert(r.drop_last() =~= s.drop_last().update(i, v));
        lemma_count_cards_update(s.drop_last(), i, v);
        assert(r.last() == s.last());
    }
}

/// A total over columns is at least each single column's count.
pub proof fn lemma_total_col_cards_at(cols: Seq<Seq<Option<Card>>>, i: int)
    requires
        0 <= i < cols.len(),
    ensures
        total_col_cards(cols) >= count_cards(cols[i]),
        total_col_cards(cols) >= 0,
    decreases cols.len(),
{
    lemma_count_cards_bounds(cols.last());
    assert(total_col_cards(cols) == total_col_cards(cols.drop_last()) + count_cards(cols.last()));
    if cols.len() == 1 {
        assert(total_col_cards(cols.drop_last()) == 0);
    } else if i == cols.len() - 1 {
        lemma_total_col_cards_at(cols.drop_last(), 0);
    } else {
        lemma_total_col_cards_at(cols.drop_last(), i);
        assert(cols.drop_last()[i] == cols[i]);
    }
}

/// How replacing one column changes the total over columns.
pub proof fn lemma_total_col_cards_update(
    cols: Seq<Seq<Option<Card>>>,
    i: int,
    c: Seq<Option<Card>>,
)
    requires
        0 <= i < cols.len(),
    ensures
        total_col_cards(cols.update(i, c)) == total_col_cards(cols) - count_cards(cols[i])
            + count_cards(c),
    decreases cols.len(),
{
    let r = cols.update(i, c);
    if i == cols.len() - 1 {
        assert(r.drop_last() =~= cols.drop_last());
    } else {
        assert(r.drop_last() =~= cols.drop_last().update(i, c));
        lemma_total_col_cards_update(cols.drop_last(), i, c);
        assert(r.last() == cols.last());
    }
}

/// What the first-eligible-column scan returns: the first eligible index
/// at or after `k`, every earlier index from `k` on being ineligible.
pub proof fn lemma_first_auto_column_props(b: BoardV, k: int)
    requires
        0 <= k <= N_COLUMNS,
    ensures
        match first_auto_column(b, k) {
            Some(i) => k <= i < N_COLUMNS && col_eligible(b, i) && forall|j: int|
                k <= j < i ==> !col_eligible(b, j),
            None => forall|j: int| k <= j < N_COLUMNS ==> !col_eligible(b, j),
        },
    decreases N_COLUMNS - k,
{
    if k < N_COLUMNS && !col_eligible(b, k) {
        lemma_first_auto_column_props(b, k + 1);
    }
}

/// What the first-eligible-cell scan returns.
pub proof fn lemma_first_auto_cell_props(b: BoardV, k: int)
    requires
        0 <= k <= N_CELLS,
    ensures
        match first_auto_cell(b, k) {
            Some(i) => k <= i < N_CELLS && cell_eligible(b, i) && forall|j: int|
                k <= j < i ==> !cell_eligible(b, j),
            None => forall|j: int| k <= j < N_CELLS ==> !cell_eligible(b, j),
        },
    decreases N_CELLS - k,
{
    if k < N_CELLS && !cell_eligible(b, k) {
        lemma_first_auto_cell_props(b, k + 1);
    }
}

/// One automatic promotion preserves well-formedness and moves exactly
/// one card out of the columns and cells.
pub proof fn lemma_auto_step(b: BoardV)
    requires
        b.wf(),
    ensures
        auto_step(b) matches Some(b2) ==> b2.wf() && loose_cards(b2) == loose_cards(b) - 1,
{
    lemma_first_auto_column_props(b, 0);
    lemma_first_auto_cell_props(b, 0);
    match first_auto_column(b, 0) {
        Some(i) => {
            let col = b.columns[i];
            lemma_count_cards_contiguous(col);
            lemma_remove_top(col);
            lemma_total_col_cards_update(b.columns, i, col.update(count_cards(col) - 1, None));
            let b2 = col_promote(b, i);
            let c = top_card(col).unwrap();
            assert(b2.wf()) by {
                assert forall|s: int|
                    0 <= s < card::N_SUITS implies (#[trigger] b2.foundation[s] matches Some(t)
                    ==> t.wf() && t.spec_suit() == s) by {
                    if s != c.spec_suit() {
                        assert(b2.foundation[s] == b.foundation[s]);
                    }
                }
            }
        },
        None => {
            match first_auto_cell(b, 0) {
                Some(j) => {
                    lemma_count_cards_update(b.cells, j, None);
                    let b2 = cell_promote(b, j);
                    let c = b.cells[j].unwrap();
                    assert(b2.wf()) by {
                        assert forall|s: int|
                            0 <= s < card::N_SUITS implies (#[trigger] b2.foundation[s]
                            matches Some(t) ==> t.wf() && t.spec_suit() == s) by {
                            if s != c.spec_suit() {
                                assert(b2.foundation[s] == b.foundation[s]);
                            }
                        }
                        assert forall|i: int|
                            0 <= i < b2.cells.len() implies slot_wf(#[trigger] b2.cells[i]) by {
                            if i != j {
                                assert(b2.cells[i] == b.cells[i]);
                            }
                        }
                    }
                },
                None => {},
            }
        },
    }
}

/// Cards outside the foundations are never negative in number.
pub proof fn lemma_loose_cards_nonneg(b: BoardV)
    requires
        b.wf(),
    ensures
        loose_cards(b) >= 0,
{
    lemma_total_col_cards_at(b.columns, 0);
    lemma_count_cards_bounds(b.cells);
}

/// An automatic promotion does not change the eventual fixed point.
pub proof fn lemma_force_absorb(b: BoardV)
    requires
        b.wf(),
        auto_step(b) is Some,
    ensures
        auto_step(b) matches Some(b2) ==> b2.wf() && force(b) == force(b2),
{
    let b2 = auto_step(b).unwrap();
    lemma_auto_step(b);
    lemma_loose_cards_nonneg(b2);
    assert(loose_cards(b) == loose_cards(b2) + 1);
    assert(force(b) == force_n(b2, loose_cards(b2) as nat));
}

/// The forcing fixed point is well formed and admits no further
/// automatic promotion.
pub proof fn lemma_force_n_props(b: BoardV, n: nat)
    requires
        b.wf(),
        n >= loose_cards(b),
    ensures
        force_n(b, n).wf(),
        auto_step(force_n(b, n)) is None,
    decreases n,
{
    lemma_auto_step(b);
    match auto_step(b) {
        None => {
        },
        Some(b2) => {
            lemma_loose_cards_nonneg(b2);
            assert(n > 0);
            lemma_force_n_props(b2, (n - 1) as nat);
        },
    }
}

/// `force` yields a well-formed board on which no automatic move remains.
pub proof fn lemma_force_props(b: BoardV)
    requires
        b.wf(),
    ensures
        force(b).wf(),
        auto_step(force(b)) is None,
{
    lemma_loose_cards_nonneg(b);
    lemma_force_n_props(
        b,
        if loose_cards(b) > 0 {
            loose_cards(b) as nat
        } else {
            0
        },
    );
}

impl Board {
    /// Moves the exposed card of column `from` onto the exposed card of
    /// column `to` when the adjacency rule allows it; returns the new
    /// board, or `None` when there is no such move.
    pub fn column_to_card_column(&self, from: usize, to: usize) -> (r: Option<Self>)
        requires
            self.wf(),
            from < N_COLUMNS,
            to < N_COLUMNS,
        ensures
            r matches Some(b2) ==> b2.wf() && spec_column_to_card_column(
                self@,
                from as int,
                to as int,
            ) == Some(b2@),
            r is None ==> spec_column_to_card_column(self@, from as int, to as int) is None,
    {
        proof {
            lemma_count_cards_contiguous(self@.columns[from as int]);
            lemma_count_cards_contiguous(self@.columns[to as int]);
        }
        let (from_ocard, from_index) = self.columns[from].top_card_and_index();
        match from_ocard {
            None => None,
            Some(from_card) => {
                let (to_ocard, to_index) = self.columns[to].top_card_and_index();
                match to_ocard {
                    None => None,
                    Some(to_card) => {
                        if !from_card.plays_on_top_of(Some(to_card)) {
                            return None;
                        }
                        if to_index + 1 >= MAX_COLUMN_SIZE {
                            return None;
                        }
                        let mut board = *self;

                        board.columns[from].cards[from_index] = None;
                        board.columns[to].cards[to_index + 1] = from_ocard;

                        proof {
                            let bv = self@;
                            let fcol = bv.columns[from as int];
                            let tcol = bv.columns[to as int];
                            let nf = count_cards(fcol);
                            let nt = count_cards(tcol);
                            assert(from != to);
                            lemma_remove_top(fcol);
                            lemma_add_top(tcol, from_card);
                            let expected = BoardV {
                                columns: bv.columns.update(from as int, fcol.update(nf - 1, None))
                                    .update(to as int, tcol.update(nt, top_card(fcol))),
                                ..bv
                            };
                            assert(board@.columns =~~= expected.columns);
                            assert(board@ =~~= expected);
                        }
                        Some(board)
                    },
                }
            },
        }
    }

    /// Moves the exposed card of column `from` to slot 0 of the fully
    /// empty column `to`; returns the new board, or `None` when column
    /// `from` is empty.
    pub fn column_to_empty_column(&self, from: usize, to: usize) -> (r: Option<Self>)
        requires
            self.wf(),
            from < N_COLUMNS,
            to < N_COLUMNS,
            count_cards(self@.columns[to as int]) == 0,
        ensures
            r matches Some(b2) ==> b2.wf() && spec_column_to_empty_column(
                self@,
                from as int,
                to as int,
            ) == Some(b2@),
            r is None ==> spec_column_to_empty_column(self@, from as int, to as int) is None,
    {
        proof {
            lemma_count_cards_contiguous(self@.columns[from as int]);
            lemma_count_cards_contiguous(self@.columns[to as int]);
        }
        let (from_ocard, from_index) = self.columns[from].top_card_and_index();
        match from_ocard {
            None => None,
            Some(_) => {
                let mut board = *self;

                board.columns[from].cards[from_index] = None;
                board.columns[to].cards[0] = from_ocard;

                proof {
                    let bv = self@;
                    let fcol = bv.columns[from as int];
                    let tcol = bv.columns[to as int];
                    let nf = count_cards(fcol);
                    assert(from != to);
                    lemma_remove_top(fcol);
                    lemma_add_top(tcol, from_ocard.unwrap());
                    let expected = BoardV {
                        columns: bv.columns.update(from as int, fcol.update(nf - 1, None)).update(
                            to as int,
                            tcol.update(0, top_card(fcol)),
                        ),
                        ..bv
                    };
                    assert(board@.columns =~~= expected.columns);
                    assert(board@ =~~= expected);
                }
                Some(board)
            },
        }
    }

    /// Moves the exposed card of column `from` into the empty cell `to`;
    /// returns the new board, or `None` when column `from` is empty.
    pub fn column_to_cell(&self, from: usize, to: usize) -> (r: Option<Self>)
        requires
            self.wf(),
            from < N_COLUMNS,
            to < N_CELLS,
            self@.cells[to as int] is None,
        ensures
            r matches Some(b2) ==> b2.wf() && spec_column_to_cell(self@, from as int, to as int)
                == Some(b2@),
            r is None ==> spec_column_to_cell(self@, from as int, to as int) is None,
    {
        proof {
            lemma_count_cards_contiguous(self@.columns[from as int]);
        }
        let (from_ocard, from_index) = self.columns[from].top_card_and_index();
        match from_ocard {
            None => None,
            Some(_) => {
                let mut board = *self;

                board.columns[from].cards[from_index] = None;
                board.cells.cards[to] = from_ocard;

                proof {
                    let bv = self@;
                    let fcol = bv.columns[from as int];
                    let nf = count_cards(fcol);
                    lemma_remove_top(fcol);
                    let expected = BoardV {
                        cells: bv.cells.update(to as int, top_card(fcol)),
                        columns: bv.columns.update(from as int, fcol.update(nf - 1, None)),
                        ..bv
                    };
                    assert(board@.columns =~~= expected.columns);
                    assert(board@ =~~= expected);
                }
                Some(board)
            },
        }
    }

    /// Moves the card in cell `from` onto the exposed card of column `to`
    /// when the adjacency rule allows it; returns the new board, or `None`
    /// when there is no such move.
    pub fn cell_to_card_column(&self, from: usize, to: usize) -> (r: Option<Self>)
        requires
            self.wf(),
            from < N_CELLS,
            to < N_COLUMNS,
        ensures
            r matches Some(b2) ==> b2.wf() && spec_cell_to_card_column(
                self@,
                from as int,
                to as int,
            ) == Some(b2@),
            r is None ==> spec_cell_to_card_column(self@, from as int, to as int) is None,
    {
        proof {
            lemma_count_cards_contiguous(self@.columns[to as int]);
        }
        let from_ocard = self.cells.cards[from];
        match from_ocard {
            None => None,
            Some(from_card) => {
                let (to_ocard, to_index) = self.columns[to].top_card_and_index();
                match to_ocard {
                    None => None,
                    Some(to_card) => {
                        if !from_card.plays_on_top_of(Some(to_card)) {
                            return None;
                        }
                        if to_index + 1 >= MAX_COLUMN_SIZE {
                            return None;
                        }
                        let mut board = *self;

                        board.cells.cards[from] = None;
                        board.columns[to].cards[to_index + 1] = from_ocard;

                        proof {
                            let bv = self@;
                            let tcol = bv.columns[to as int];
                            let nt = count_cards(tcol);
                            lemma_add_top(tcol, from_card);
                            let expected = BoardV {
                                cells: bv.cells.update(from as int, None),
                                columns: bv.columns.update(to as int, tcol.update(nt, from_ocard)),
                                ..bv
                            };
                            assert(board@.columns =~~= expected.columns);
                            assert(board@ =~~= expected);
                        }
                        Some(board)
                    },
                }
            },
        }
    }

    /// Moves the card in cell `from` to slot 0 of the fully empty column
    /// `to`; returns the new board, or `None` when cell `from` is empty.
    pub fn cell_to_empty_column(&self, from: usize, to: usize) -> (r: Option<Self>)
        requires
            self.wf(),
            from < N_CELLS,
            to < N_COLUMNS,
            count_cards(self@.columns[to as int]) == 0,
        ensures
            r matches Some(b2) ==> b2.wf() && spec_cell_to_empty_column(
                self@,
                from as int,
                to as int,
            ) == Some(b2@),
            r is None ==> spec_cell_to_empty_column(self@, from as int, to as int) is None,
    {
        proof {
            lemma_count_cards_contiguous(self@.columns[to as int]);
        }
        let from_ocard = self.cells.cards[from];
        match from_ocard {
            None => None,
            Some(from_card) => {
                let mut board = *self;

                board.cells.cards[from] = None;
                board.columns[to].cards[0] = from_ocard;

                proof {
                    let bv = self@;
                    let tcol = bv.columns[to as int];
                    lemma_add_top(tcol, from_card);
                    let expected = BoardV {
                        cells: bv.cells.update(from as int, None),
                        columns: bv.columns.update(to as int, tcol.update(0, from_ocard)),
                        ..bv
                    };
                    assert(board@.columns =~~= expected.columns);
                    assert(board@ =~~= expected);
                }
                Some(board)
            },
        }
    }

    /// Promotes the given card to its foundation pile when the pile is
    /// ready for it; reports whether it did.
    fn play_on_foundation(&mut self, from_ocard: Option<Card>) -> (r: bool)
        requires
            old(self).wf(),
            slot_wf(from_ocard),
        ensures
            final(self).wf(),
            r == (from_ocard matches Some(c) && foundation_accepts(old(self)@.foundation, c)),
            r ==> final(self)@ == (BoardV {
                foundation: old(self)@.foundation.update(
                    from_ocard.unwrap().spec_suit(),
                    from_ocard,
                ),
                ..old(self)@
            }),
            !r ==> *final(self) == *old(self),
    {
        match from_ocard {
            None => false,
            Some(from_card) => {
                let suit = from_card.suit();
                let to_card = self.foundation.cards[suit];

                match to_card {
                    None => {
                        if !from_card.is_lowest_rank() {
                            return false;
                        }
                    },
                    Some(to_card) => {
                        if !to_card.plays_on_top_of(from_ocard) {
                            return false;
                        }
                    },
                }
                self.foundation.cards[suit] = from_ocard;
                proof {
                    let expected = BoardV {
                        foundation: old(self)@.foundation.update(
                            from_card.spec_suit(),
                            from_ocard,
                        ),
                        ..old(self)@
                    };
                    assert(self@ =~~= expected);
                    assert forall|s: int|
                        0 <= s < card::N_SUITS implies (#[trigger] self@.foundation[s]
                        matches Some(t) ==> t.wf() && t.spec_suit() == s) by {
                        if s != from_card.spec_suit() {
                            assert(self@.foundation[s] == old(self)@.foundation[s]);
                        }
                    }
                }
                true
            },
        }
    }

    /// Scans the columns in ascending order and promotes the first exposed
    /// card that its foundation pile is ready for; reports whether any
    /// column card was promoted.
    fn column_automatic_move(&mut self) -> (r: bool)
        requires
            old(self).wf(),
        ensures
            final(self).wf(),
            match first_auto_column(old(self)@, 0) {
                Some(i) => r && final(self)@ == col_promote(old(self)@, i),
                None => !r && *final(self) == *old(self),
            },
    {
        proof {
            lemma_first_auto_column_props(old(self)@, 0);
        }
        let mut column_index: usize = 0;
        while column_index < N_COLUMNS
            invariant
                column_index <= N_COLUMNS,
                *self == *old(self),
                self.wf(),
                forall|j: int| 0 <= j < column_index ==> !col_eligible(self@, j),
            decreases N_COLUMNS - column_index,
        {
            proof {
                lemma_count_cards_contiguous(self@.columns[column_index as int]);
            }
            let (from_card, from_index) = self.columns[column_index].top_card_and_index();

            if self.play_on_foundation(from_card) {
                proof {
                    lemma_count_cards_contiguous(self@.columns[column_index as int]);
                }
                self.columns[column_index].cards[from_index] = None;
                proof {
                    let b = old(self)@;
                    let col = b.columns[column_index as int];
                    lemma_remove_top(col);
                    lemma_first_auto_column_props(b, 0);
                    assert(col_eligible(b, column_index as int));
                    assert(first_auto_column(b, 0) == Some(column_index as int));
                    assert(self@ =~~= col_promote(b, column_index as int));
                    lemma_auto_step(b);
                    assert(auto_step(b) == Some(col_promote(b, column_index as int)));
                }
                return true;
            }
            column_index += 1;
        }
        false
    }

    /// Scans the cells in ascending order and promotes the first card that
    /// its foundation pile is ready for; reports whether any cell card was
    /// promoted.
    fn cell_automatic_move(&mut self) -> (r: bool)
        requires
            old(self).wf(),
        ensures
            final(self).wf(),
            match first_auto_cell(old(self)@, 0) {
                Some(j) => r && final(self)@ == cell_promote(old(self)@, j),
                None => !r && *final(self) == *old(self),
            },
    {
        proof {
            lemma_first_auto_cell_props(old(self)@, 0);
        }
        let mut cell_index: usize = 0;
        while cell_index < N_CELLS
            invariant
                cell_index <= N_CELLS,
                *self == *old(self),
                self.wf(),
                forall|j: int| 0 <= j < cell_index ==> !cell_eligible(self@, j),
            decreases N_CELLS - cell_index,
        {
            let from_card = self.cells.cards[cell_index];

            if self.play_on_foundation(from_card) {
                self.cells.cards[cell_index] = None;
                proof {
                    let b = old(self)@;
                    lemma_first_auto_cell_props(b, 0);
                    assert(cell_eligible(b, cell_index as int));
                    assert(first_auto_cell(b, 0) == Some(cell_index as int));
                    assert(self@ =~~= cell_promote(b, cell_index as int));
                    lemma_auto_step(b);
                }
                return true;
            }
            cell_index += 1;
        }
        false
    }

    /// Repeatedly applies automatic promotions — columns first, then cells
    /// — until none remains, reaching the forcing fixed point.
    pub fn make_automatic_moves(&mut self)
        requires
            old(self).wf(),
        ensures
            final(self).wf(),
            final(self)@ == force(old(self)@),
    {
        let mut progress = true;
        while progress
            invariant
                self.wf(),
                force(self@) == force(old(self)@),
                !progress ==> auto_step(self@) is None,
            decreases (if progress {
                loose_cards(self@) + 1
            } else {
                0int
            }),
        {
            let ghost prev = self@;
            proof {
                lemma_loose_cards_nonneg(prev);
            }
            progress = self.column_automatic_move();
            if !progress {
                progress = self.cell_automatic_move();
            }
            proof {
                if progress {
                    assert(auto_step(prev) == Some(self@));
                    lemma_force_absorb(prev);
                    lemma_auto_step(prev);
                } else {
                    assert(auto_step(prev) is None);
                }
            }
        }
        proof {
            assert(force(self@) == self@);
        }
    }
}

} // verus!
