//! Confluence of automatic-move forcing.
//!
//! The forcing loop scans columns first, then cells, and promotes the
//! first eligible card it finds. This module shows that the scan order
//! does not matter: on a board whose cards are distinct, any maximal
//! sequence of eligible promotions — whatever order it picks its column
//! and cell sources in — ends in the same fixed point, the one `force`
//! computes. Distinctness is essential: with two copies of one card both
//! eligible at once, promoting either leaves the other stranded in a
//! different place.

use vstd::multiset::Multiset;
use vstd::prelude::*;

use crate::board::auto_step;
use crate::board::cards_of;
use crate::board::cell_eligible;
use crate::board::cell_promote;
use crate::board::col_eligible;
use crate::board::col_promote;
use crate::board::columns_cards;
use crate::board::first_auto_cell;
use crate::board::first_auto_column;
use crate::board::force;
use crate::board::foundation_accepts;
use crate::board::lemma_cards_of_update;
use crate::board::lemma_columns_cards_update;
use crate::board::lemma_count_cards_bounds;
use crate::board::lemma_first_auto_cell_props;
use crate::board::lemma_first_auto_column_props;
use crate::board::lemma_force_absorb;
use crate::board::lemma_force_props;
use crate::board::lemma_loose_cards_nonneg;
use crate::board::lemma_remove_top;
use crate::board::loose_cards;
use crate::board::loose_multiset;
use crate::board::BoardV;
use crate::board::N_CELLS;
use crate::board::N_COLUMNS;
use crate::board::column::count_cards;
use crate::board::column::lemma_count_cards_contiguous;
use crate::board::column::top_card;
use crate::card;
use crate::card::Card;

verus! {

/// Whether no card appears twice outside the foundations.
pub open spec fn distinct_loose(b: BoardV) -> bool {
    forall|x: Card| #[trigger] loose_multiset(b).count(x) <= 1
}

/// A promotion source: column `s` for `s` below `N_COLUMNS`, else cell
/// `s - N_COLUMNS`.
pub open spec fn src_eligible(b: BoardV, s: int) -> bool {
    if 0 <= s < N_COLUMNS {
        col_eligible(b, s)
    } else if N_COLUMNS <= s < N_COLUMNS + N_CELLS {
        cell_eligible(b, s - N_COLUMNS)
    } else {
        false
    }
}

/// The card an eligible source exposes.
pub open spec fn src_card(b: BoardV, s: int) -> Card {
    if 0 <= s < N_COLUMNS {
        top_card(b.columns[s]).unwrap()
    } else {
        b.cells[s - N_COLUMNS].unwrap()
    }
}

/// The board after promoting from the given source.
pub open spec fn src_promote(b: BoardV, s: int) -> BoardV {
    if 0 <= s < N_COLUMNS {
        col_promote(b, s)
    } else {
        cell_promote(b, s - N_COLUMNS)
    }
}

/// Whether each promotion of the list is eligible when its turn comes.
pub open spec fn run_ok(b: BoardV, ss: Seq<int>) -> bool
    decreases ss.len(),
{
    ss.len() == 0 || (src_eligible(b, ss[0]) && run_ok(src_promote(b, ss[0]), ss.drop_first()))
}

/// The board a promotion run ends in.
pub open spec fn run_result(b: BoardV, ss: Seq<int>) -> BoardV
    decreases ss.len(),
{
    if ss.len() == 0 {
        b
    } else {
        run_result(src_promote(b, ss[0]), ss.drop_first())
    }
}

/// Whether no promotion is possible anywhere.
pub open spec fn stuck(b: BoardV) -> bool {
    forall|s: int| !#[trigger] src_eligible(b, s)
}

/// One promotion from any eligible source preserves well-formedness,
/// removes one card from the loose multiset, and adds none.
pub proof fn lemma_src_promote(b: BoardV, s: int)
    requires
        b.wf(),
        src_eligible(b, s),
    ensures
        src_promote(b, s).wf(),
        loose_cards(src_promote(b, s)) == loose_cards(b) - 1,
        forall|x: Card| #[trigger] loose_multiset(src_promote(b, s)).count(x) <= loose_multiset(
            b,
        ).count(x),
{
    let b2 = src_promote(b, s);
    if 0 <= s < N_COLUMNS {
        let col = b.columns[s];
        let n = count_cards(col);
        let c = top_card(col).unwrap();
        lemma_count_cards_contiguous(col);
        lemma_remove_top(col);
        crate::board::lemma_total_col_cards_update(b.columns, s, col.update(n - 1, None));
        lemma_cards_of_update(col, n - 1, None);
        lemma_columns_cards_update(b.columns, s, col.update(n - 1, None));
        assert(b2.wf()) by {
            assert forall|t: int|
                0 <= t < card::N_SUITS implies (#[trigger] b2.foundation[t] matches Some(f) ==> f.wf()
                && f.spec_suit() == t) by {
                if t != c.spec_suit() {
                    assert(b2.foundation[t] == b.foundation[t]);
                }
            }
        }
        assert forall|x: Card| #[trigger] loose_multiset(b2).count(x) <= loose_multiset(b).count(
            x,
        ) by {
            assert(columns_cards(b2.columns).count(x) == columns_cards(b.columns).count(x)
                - cards_of(col).count(x) + cards_of(col.update(n - 1, None)).count(x));
            assert(cards_of(col.update(n - 1, None)).count(x) == cards_of(col).remove(c).count(x));
        }
    } else {
        let j = s - N_COLUMNS;
        let c = b.cells[j].unwrap();
        lemma_cards_of_update(b.cells, j, None);
        assert(b2.wf()) by {
            assert forall|t: int|
                0 <= t < card::N_SUITS implies (#[trigger] b2.foundation[t] matches Some(f) ==> f.wf()
                && f.spec_suit() == t) by {
                if t != c.spec_suit() {
                    assert(b2.foundation[t] == b.foundation[t]);
                }
            }
            assert forall|i: int| 0 <= i < b2.cells.len() implies crate::board::column::slot_wf(
                #[trigger] b2.cells[i],
            ) by {
                if i != j {
                    assert(b2.cells[i] == b.cells[i]);
                }
            }
        }
        crate::board::lemma_count_cards_update(b.cells, j, None);
        assert forall|x: Card| #[trigger] loose_multiset(b2).count(x) <= loose_multiset(b).count(
            x,
        ) by {
            assert(cards_of(b2.cells).count(x) == cards_of(b.cells).remove(c).count(x));
        }
    }
}

/// On a board with distinct cards, two different eligible sources expose
/// different cards of different suits.
proof fn lemma_distinct_srcs(b: BoardV, s1: int, s2: int)
    requires
        b.wf(),
        distinct_loose(b),
        s1 != s2,
        src_eligible(b, s1),
        src_eligible(b, s2),
    ensures
        src_card(b, s1) != src_card(b, s2),
        src_card(b, s1).spec_suit() != src_card(b, s2).spec_suit(),
{
    let c1 = src_card(b, s1);
    let c2 = src_card(b, s2);
    if c1 == c2 {
        assert(loose_multiset(b).count(c1) == columns_cards(b.columns).count(c1) + cards_of(
            b.cells,
        ).count(c1));
        assert(loose_multiset(b).count(c1) >= 2) by {
            if 0 <= s1 < N_COLUMNS && 0 <= s2 < N_COLUMNS {
                lemma_top_card_count(b.columns[s1], c1);
                lemma_top_card_count(b.columns[s2], c1);
                let cols2 = b.columns.update(s1, Seq::<Option<Card>>::empty());
                lemma_columns_cards_update(b.columns, s1, Seq::<Option<Card>>::empty());
                lemma_columns_cards_update(cols2, s2, Seq::<Option<Card>>::empty());
                assert(cards_of(Seq::<Option<Card>>::empty()).count(c1) == 0);
                assert(cols2[s2] == b.columns[s2]);
                assert(columns_cards(cols2).count(c1) == columns_cards(b.columns).count(c1)
                    - cards_of(b.columns[s1]).count(c1));
                assert(columns_cards(cols2).count(c1) >= cards_of(b.columns[s2]).count(c1));
            } else if 0 <= s1 < N_COLUMNS {
                lemma_top_card_count(b.columns[s1], c1);
                lemma_columns_cards_update(b.columns, s1, b.columns[s1]);
                assert(columns_cards(b.columns).count(c1) >= cards_of(b.columns[s1]).count(c1));
                lemma_cell_card_count(b.cells, s2 - N_COLUMNS, c1);
            } else if 0 <= s2 < N_COLUMNS {
                lemma_top_card_count(b.columns[s2], c1);
                lemma_columns_cards_update(b.columns, s2, b.columns[s2]);
                assert(columns_cards(b.columns).count(c1) >= cards_of(b.columns[s2]).count(c1));
                lemma_cell_card_count(b.cells, s1 - N_COLUMNS, c1);
            } else {
                let j1 = s1 - N_COLUMNS;
                let j2 = s2 - N_COLUMNS;
                lemma_cards_of_update(b.cells, j1, None);
                let u = b.cells.update(j1, None);
                assert(u[j2] == b.cells[j2]);
                lemma_cards_of_update(u, j2, None);
                assert(cards_of(b.cells).count(c1) == cards_of(b.cells).remove(c1).count(c1) + 1);
                assert(cards_of(u).count(c1) >= 1);
                assert(cards_of(u).count(c1) == cards_of(b.cells).remove(c1).count(c1));
            }
        }
        assert(false);
    }
    if c1.spec_suit() == c2.spec_suit() {
        assert(foundation_accepts(b.foundation, c1));
        assert(foundation_accepts(b.foundation, c2));
        assert(c1.spec_rank() == c2.spec_rank());
        assert(c1.value == c2.value) by {
            assert(c1.value - 1 == 4 * c1.spec_rank() + c1.spec_suit()) by (nonlinear_arith)
                requires
                    c1.wf(),
                    c1.spec_rank() == (c1.value - 1) as int / 4,
                    c1.spec_suit() == (c1.value - 1) as int % 4,
            ;
            assert(c2.value - 1 == 4 * c2.spec_rank() + c2.spec_suit()) by (nonlinear_arith)
                requires
                    c2.wf(),
                    c2.spec_rank() == (c2.value - 1) as int / 4,
                    c2.spec_suit() == (c2.value - 1) as int % 4,
            ;
        }
        assert(false);
    }
}

/// A column's exposed card counts in its multiset.
pub proof fn lemma_top_card_count(col: Seq<Option<Card>>, c: Card)
    requires
        top_card(col) == Some(c),
    ensures
        cards_of(col).count(c) >= 1,
{
    let n = count_cards(col);
    lemma_count_cards_bounds(col);
    assert(col[n - 1] == Some(c));
    lemma_cards_of_update(col, n - 1, None);
    assert(cards_of(col).count(c) == cards_of(col).remove(c).count(c) + 1);
}

/// A cell's card counts in the cells' multiset.
proof fn lemma_cell_card_count(cells: Seq<Option<Card>>, j: int, c: Card)
    requires
        0 <= j < cells.len(),
        cells[j] == Some(c),
    ensures
        cards_of(cells).count(c) >= 1,
{
    lemma_cards_of_update(cells, j, None);
    assert(cards_of(cells).count(c) == cards_of(cells).remove(c).count(c) + 1);
}

/// Promotions from two different sources commute: each leaves the other
/// eligible, and the two orders meet in the same board.
proof fn lemma_promote_commute(b: BoardV, s1: int, s2: int)
    requires
        b.wf(),
        distinct_loose(b),
        s1 != s2,
        src_eligible(b, s1),
        src_eligible(b, s2),
    ensures
        src_eligible(src_promote(b, s1), s2),
        src_promote(src_promote(b, s1), s2) == src_promote(src_promote(b, s2), s1),
{
    lemma_distinct_srcs(b, s1, s2);
    let c1 = src_card(b, s1);
    let c2 = src_card(b, s2);
    let b1 = src_promote(b, s1);
    let b2 = src_promote(b, s2);
    assert(src_eligible(b1, s2)) by {
        if 0 <= s2 < N_COLUMNS {
            assert(b1.columns[s2] == b.columns[s2]);
        } else {
            assert(b1.cells[s2 - N_COLUMNS] == b.cells[s2 - N_COLUMNS]);
        }
        assert(b1.foundation[c2.spec_suit()] == b.foundation[c2.spec_suit()]);
    }
    assert(src_eligible(b2, s1)) by {
        if 0 <= s1 < N_COLUMNS {
            assert(b2.columns[s1] == b.columns[s1]);
        } else {
            assert(b2.cells[s1 - N_COLUMNS] == b.cells[s1 - N_COLUMNS]);
        }
        assert(b2.foundation[c1.spec_suit()] == b.foundation[c1.spec_suit()]);
    }
    let lhs = src_promote(b1, s2);
    let rhs = src_promote(b2, s1);
    assert(lhs.foundation =~= rhs.foundation) by {
        assert(src_card(b1, s2) == c2);
        assert(src_card(b2, s1) == c1);
    }
    assert(lhs.columns =~~= rhs.columns) by {
        assert(src_card(b1, s2) == c2);
        assert(src_card(b2, s1) == c1);
        if 0 <= s1 < N_COLUMNS && 0 <= s2 < N_COLUMNS {
            assert(count_cards(b1.columns[s2]) == count_cards(b.columns[s2]));
            assert(count_cards(b2.columns[s1]) == count_cards(b.columns[s1]));
        }
    }
    assert(lhs.cells =~= rhs.cells);
    assert(lhs =~~= rhs);
}

/// The source the fixed scan promotes from: the first eligible column,
/// else the first eligible cell.
pub open spec fn auto_src(b: BoardV) -> int {
    match first_auto_column(b, 0) {
        Some(i) => i,
        None => match first_auto_cell(b, 0) {
            Some(j) => N_COLUMNS + j,
            None => -1,
        },
    }
}

/// When anything is eligible, the fixed scan promotes from an eligible
/// source too.
proof fn lemma_auto_src(b: BoardV, s: int)
    requires
        src_eligible(b, s),
    ensures
        src_eligible(b, auto_src(b)),
        auto_step(b) == Some(src_promote(b, auto_src(b))),
{
    lemma_first_auto_column_props(b, 0);
    lemma_first_auto_cell_props(b, 0);
    match first_auto_column(b, 0) {
        Some(i) => {},
        None => {
            assert(!(0 <= s < N_COLUMNS));
            assert(first_auto_cell(b, 0) is Some);
        },
    }
}

/// Promoting from any eligible source does not change the fixed point
/// the scan converges to.
pub proof fn lemma_force_absorb_any(b: BoardV, s: int)
    requires
        b.wf(),
        distinct_loose(b),
        src_eligible(b, s),
    ensures
        force(src_promote(b, s)) == force(b),
    decreases loose_cards(b),
{
    lemma_loose_cards_nonneg(b);
    lemma_auto_src(b, s);
    let a = auto_src(b);
    lemma_force_absorb(b);
    if s != a {
        lemma_src_promote(b, s);
        lemma_src_promote(b, a);
        let bs = src_promote(b, s);
        let ba = src_promote(b, a);
        lemma_promote_commute(b, s, a);
        lemma_promote_commute(b, a, s);
        assert(distinct_loose(bs));
        assert(distinct_loose(ba));
        lemma_force_absorb_any(bs, a);
        lemma_force_absorb_any(ba, s);
    }
}

/// Forcing keeps a board well formed and never duplicates a card: each
/// loose card's count can only drop.
pub proof fn lemma_force_distinct(b: BoardV)
    requires
        b.wf(),
        distinct_loose(b),
    ensures
        force(b).wf(),
        distinct_loose(force(b)),
    decreases loose_cards(b),
{
    lemma_loose_cards_nonneg(b);
    lemma_force_props(b);
    lemma_first_auto_column_props(b, 0);
    lemma_first_auto_cell_props(b, 0);
    match auto_step(b) {
        None => {
            assert(force(b) == b);
        },
        Some(b2) => {
            let a = auto_src(b);
            assert(src_eligible(b, a) && b2 == src_promote(b, a)) by {
                match first_auto_column(b, 0) {
                    Some(i) => {},
                    None => {
                        assert(first_auto_cell(b, 0) is Some);
                    },
                }
            }
            lemma_src_promote(b, a);
            lemma_force_absorb(b);
            lemma_force_distinct(b2);
        },
    }
}

/// Automatic-move forcing is confluent: on a board whose loose cards are
/// distinct, every maximal promotion run — any scan order over columns
/// and cells — converges to the same fixed-point board, the one `force`
/// computes.
pub proof fn lemma_forcing_confluent(b: BoardV, ss: Seq<int>)
    requires
        b.wf(),
        distinct_loose(b),
        run_ok(b, ss),
        stuck(run_result(b, ss)),
    ensures
        run_result(b, ss) == force(b),
    decreases ss.len(),
{
    if ss.len() == 0 {
        lemma_first_auto_column_props(b, 0);
        lemma_first_auto_cell_props(b, 0);
        assert(auto_step(b) is None) by {
            match first_auto_column(b, 0) {
                Some(i) => {
                    assert(src_eligible(b, i));
                },
                None => {
                    match first_auto_cell(b, 0) {
                        Some(j) => {
                            assert(src_eligible(b, N_COLUMNS + j));
                        },
                        None => {},
                    }
                },
            }
        }
        assert(force(b) == b);
    } else {
        let b1 = src_promote(b, ss[0]);
        lemma_src_promote(b, ss[0]);
        lemma_forcing_confluent(b1, ss.drop_first());
        lemma_force_absorb_any(b, ss[0]);
    }
}

} // verus!
