//! Equivalence of positions, and that equivalent positions are
//! equi-winnable.
//!
//! Two boards describe the same position when they differ only by a
//! permutation of the interchangeable free cells or of the column
//! identities — the relation the canonical byte form collapses. This
//! module proves that the relation is a bisimulation for the game: it is
//! preserved by every move and by automatic forcing, and equivalent
//! positions admit winning lines of exactly the same lengths. This is
//! what justifies pruning the search on canonical forms: a position whose
//! canonical form was already explored has the same wins as the explored
//! one.

use vstd::multiset::Multiset;
use vstd::prelude::*;

use crate::board::auto_step;
use crate::board::cards_of;
use crate::board::cell_eligible;
use crate::board::cell_promote;
use crate::board::col_eligible;
use crate::board::col_promote;
use crate::board::columns_cards;
use crate::board::first_auto_cell;
use crate::board::first_auto_column;
use crate::board::force;
use crate::board::lemma_auto_step;
use crate::board::lemma_first_auto_cell_props;
use crate::board::lemma_first_auto_column_props;
use crate::board::lemma_force_absorb;
use crate::board::lemma_loose_cards_nonneg;
use crate::board::loose_cards;
use crate::board::loose_multiset;
use crate::board::BoardV;
use crate::board::column::count_cards;
use crate::board::column::top_card;
use crate::card::Card;
use crate::board::lemma_force_props;
use crate::canon::canon;
use crate::canon::lemma_lex_le_total;
use crate::canon::lemma_u8_le_total;
use crate::canon::slot_byte;
use crate::canon::slot_bytes;
use crate::canon::slot_bytes_fn;
use crate::canon::column_bytes;
use crate::canon::lex_le;
use crate::canon::u8_le;
use crate::card::adjacent;
use crate::confluence::distinct_loose;
use crate::confluence::lemma_force_absorb_any;
use crate::confluence::lemma_force_distinct;
use crate::confluence::lemma_src_promote;
use crate::solver::apply_move;
use crate::solver::lemma_apply_move_wf;
use crate::solver::lemma_move_preserves_cards;
use crate::solver::lemma_wins_avoiding_empty;
use crate::solver::wins;
use crate::solver::wins_avoiding;
use crate::solver::Move;
use crate::solver::MoveKind;

verus! {

/// Whether two boards describe the same position: equal foundations, and
/// the same cell contents and the same column content sequences up to
/// which index holds which.
pub open spec fn equiv(a: BoardV, b: BoardV) -> bool {
    &&& a.foundation == b.foundation
    &&& a.cells.to_multiset() == b.cells.to_multiset()
    &&& a.columns.to_multiset() == b.columns.to_multiset()
}

/// Updating one entry exchanges exactly the old element for the new in a
/// sequence's multiset.
pub proof fn lemma_update_to_multiset<A>(s: Seq<A>, i: int, v: A)
    requires
        0 <= i < s.len(),
    ensures
        s.update(i, v).to_multiset() =~= s.to_multiset().remove(s[i]).insert(v),
{
    broadcast use vstd::seq_lib::group_to_multiset_ensures;

    assert(s.update(i, v) =~= s.remove(i).insert(i, v));
    assert(s.remove(i).to_multiset() =~= s.to_multiset().remove(s[i]));
    crate::canon::lemma_insert_multiset(s.remove(i), i, v);
}

/// How removing one slot changes the multiset of held cards.
proof fn lemma_cards_of_remove(s: Seq<Option<Card>>, i: int)
    requires
        0 <= i < s.len(),
    ensures
        s[i] is None ==> cards_of(s.remove(i)) == cards_of(s),
        s[i] matches Some(c) ==> cards_of(s).count(c) >= 1 && cards_of(s.remove(i)) =~= cards_of(
            s,
        ).remove(c),
    decreases s.len(),
{
    let r = s.remove(i);
    if i == s.len() - 1 {
        assert(r =~= s.drop_last());
        match s.last() {
            None => {},
            Some(c) => {
                assert(cards_of(s) == cards_of(r).insert(c));
                assert(cards_of(s).remove(c) =~= cards_of(r));
            },
        }
    } else {
        assert(r.drop_last() =~= s.drop_last().remove(i));
        lemma_cards_of_remove(s.drop_last(), i);
        assert(r.last() == s.last());
        let base = cards_of(s.drop_last());
        match s[i] {
            None => {},
            Some(c) => {
                match s.last() {
                    None => {},
                    Some(d) => {
                        assert(base.remove(c).insert(d) =~= base.insert(d).remove(c));
                    },
                }
            },
        }
    }
}

/// The multiset of held cards depends only on the multiset of slots.
proof fn lemma_cards_of_multiset(s1: Seq<Option<Card>>, s2: Seq<Option<Card>>)
    requires
        s1.to_multiset() == s2.to_multiset(),
    ensures
        cards_of(s1) == cards_of(s2),
    decreases s1.len(),
{
    broadcast use vstd::seq_lib::group_to_multiset_ensures;

    if s1.len() == 0 {
        assert(s1.to_multiset().len() == s1.len());
        assert(s2.to_multiset().len() == s2.len());
        assert(s2 =~= s1);
    } else {
        let x = s1[0];
        assert(s1.contains(x));
        assert(s2.to_multiset().count(x) > 0);
        assert(s2.contains(x));
        let i = choose|i: int| 0 <= i < s2.len() && s2[i] == x;
        assert(s1.remove(0).to_multiset() =~= s1.to_multiset().remove(x));
        assert(s2.remove(i).to_multiset() =~= s2.to_multiset().remove(x));
        lemma_cards_of_multiset(s1.remove(0), s2.remove(i));
        lemma_cards_of_remove(s1, 0);
        lemma_cards_of_remove(s2, i);
        match x {
            None => {},
            Some(c) => {
                assert(cards_of(s1) =~= cards_of(s1.remove(0)).insert(c));
                assert(cards_of(s2) =~= cards_of(s2.remove(i)).insert(c));
            },
        }
    }
}

/// How removing one column changes the total multiset of held cards,
/// counted card by card.
proof fn lemma_columns_cards_remove(cols: Seq<Seq<Option<Card>>>, i: int)
    requires
        0 <= i < cols.len(),
    ensures
        forall|x: Card| #[trigger] columns_cards(cols).count(x) >= cards_of(cols[i]).count(x),
        forall|x: Card| #[trigger] columns_cards(cols.remove(i)).count(x) == columns_cards(
            cols,
        ).count(x) - cards_of(cols[i]).count(x),
    decreases cols.len(),
{
    let r = cols.remove(i);
    if i == cols.len() - 1 {
        assert(r =~= cols.drop_last());
        assert forall|x: Card|
            #[trigger] columns_cards(cols).count(x) >= cards_of(cols[i]).count(x)
                && #[trigger] columns_cards(r).count(x) == columns_cards(cols).count(x) - cards_of(
                cols[i],
            ).count(x) by {
            assert(columns_cards(cols).count(x) == columns_cards(cols.drop_last()).count(x)
                + cards_of(cols.last()).count(x));
        }
    } else {
        assert(r.drop_last() =~= cols.drop_last().remove(i));
        lemma_columns_cards_remove(cols.drop_last(), i);
        assert(r.last() == cols.last());
        assert forall|x: Card|
            #[trigger] columns_cards(cols).count(x) >= cards_of(cols[i]).count(x)
                && #[trigger] columns_cards(r).count(x) == columns_cards(cols).count(x) - cards_of(
                cols[i],
            ).count(x) by {
            assert(columns_cards(cols).count(x) == columns_cards(cols.drop_last()).count(x)
                + cards_of(cols.last()).count(x));
            assert(columns_cards(r).count(x) == columns_cards(cols.drop_last().remove(i)).count(x)
                + cards_of(cols.last()).count(x));
            assert(columns_cards(cols.drop_last().remove(i)).count(x) == columns_cards(
                cols.drop_last(),
            ).count(x) - cards_of(cols[i]).count(x));
            assert(columns_cards(cols.drop_last()).count(x) >= cards_of(cols[i]).count(x));
        }
    }
}

/// The total multiset of column cards depends only on the multiset of
/// column content sequences.
proof fn lemma_columns_cards_multiset(c1: Seq<Seq<Option<Card>>>, c2: Seq<Seq<Option<Card>>>)
    requires
        c1.to_multiset() == c2.to_multiset(),
    ensures
        columns_cards(c1) == columns_cards(c2),
    decreases c1.len(),
{
    broadcast use vstd::seq_lib::group_to_multiset_ensures;

    if c1.len() == 0 {
        assert(c1.to_multiset().len() == c1.len());
        assert(c2.to_multiset().len() == c2.len());
        assert(c2 =~= c1);
    } else {
        let x = c1[0];
        assert(c1.contains(x));
        assert(c2.to_multiset().count(x) > 0);
        assert(c2.contains(x));
        let i = choose|i: int| 0 <= i < c2.len() && c2[i] == x;
        assert(c1.remove(0).to_multiset() =~= c1.to_multiset().remove(x));
        assert(c2.remove(i).to_multiset() =~= c2.to_multiset().remove(x));
        lemma_columns_cards_multiset(c1.remove(0), c2.remove(i));
        lemma_columns_cards_remove(c1, 0);
        lemma_columns_cards_remove(c2, i);
        assert(columns_cards(c1) =~= columns_cards(c2)) by {
            assert forall|y: Card| true implies columns_cards(c1).count(y) == columns_cards(
                c2,
            ).count(y) by {
                assert(columns_cards(c1.remove(0)).count(y) == columns_cards(c1).count(y)
                    - cards_of(x).count(y));
                assert(columns_cards(c2.remove(i)).count(y) == columns_cards(c2).count(y)
                    - cards_of(x).count(y));
            }
        }
    }
}

/// Equivalent boards hold the same loose cards, so distinctness carries
/// over.
pub proof fn lemma_equiv_loose(a: BoardV, b: BoardV)
    requires
        equiv(a, b),
    ensures
        loose_multiset(a) == loose_multiset(b),
        distinct_loose(a) == distinct_loose(b),
{
    lemma_cards_of_multiset(a.cells, b.cells);
    lemma_columns_cards_multiset(a.columns, b.columns);
    assert(loose_multiset(a) =~= loose_multiset(b));
}

/// A flattening of equally many equally long rows determines the rows.
proof fn lemma_flatten_len_fixed(r: Seq<Seq<u8>>, len: int)
    requires
        forall|i: int| 0 <= i < r.len() ==> (#[trigger] r[i]).len() == len,
    ensures
        r.flatten().len() == len * r.len(),
    decreases r.len(),
{
    if r.len() == 0 {
    } else {
        assert(r.flatten() == r[0] + r.drop_first().flatten());
        lemma_flatten_len_fixed(r.drop_first(), len);
        assert(len * r.len() == len + len * (r.len() - 1)) by (nonlinear_arith);
    }
}

/// Equal flattenings of equally many rows of one fixed positive length
/// come from equal rows.
proof fn lemma_flatten_fixed(r1: Seq<Seq<u8>>, r2: Seq<Seq<u8>>, len: int)
    requires
        len > 0,
        r1.len() == r2.len(),
        forall|i: int| 0 <= i < r1.len() ==> (#[trigger] r1[i]).len() == len,
        forall|i: int| 0 <= i < r2.len() ==> (#[trigger] r2[i]).len() == len,
        r1.flatten() == r2.flatten(),
    ensures
        r1 == r2,
    decreases r1.len(),
{
    lemma_flatten_len_fixed(r1, len);
    lemma_flatten_len_fixed(r2, len);
    if r1.len() == 0 {
        assert(r1 =~= r2);
    } else {
        assert(r1.flatten() == r1[0] + r1.drop_first().flatten());
        assert(r2.flatten() == r2[0] + r2.drop_first().flatten());
        lemma_flatten_len_fixed(r1.drop_first(), len);
        lemma_flatten_len_fixed(r2.drop_first(), len);
        assert(r1[0] =~= r1.flatten().subrange(0, len));
        assert(r2[0] =~= r2.flatten().subrange(0, len));
        assert(r1.drop_first().flatten() =~= r1.flatten().subrange(len, r1.flatten().len() as int));
        assert(r2.drop_first().flatten() =~= r2.flatten().subrange(len, r2.flatten().len() as int));
        lemma_flatten_fixed(r1.drop_first(), r2.drop_first(), len);
        assert(r1 =~= r2) by {
            assert forall|i: int| 0 <= i < r1.len() implies r1[i] == r2[i] by {
                if i > 0 {
                    assert(r1[i] == r1.drop_first()[i - 1]);
                    assert(r2[i] == r2.drop_first()[i - 1]);
                }
            }
        }
    }
}

/// On well-formed slots the slot byte determines the slot.
proof fn lemma_slot_byte_injective(u: Option<Card>, v: Option<Card>)
    requires
        crate::board::column::slot_wf(u),
        crate::board::column::slot_wf(v),
        slot_byte(u) == slot_byte(v),
    ensures
        u == v,
{
}

/// Well-formed slot sequences with the same byte-row multiset hold the
/// same slot multiset.
proof fn lemma_slot_bytes_multiset_rev(s1: Seq<Option<Card>>, s2: Seq<Option<Card>>)
    requires
        crate::board::column::slots_wf(s1),
        crate::board::column::slots_wf(s2),
        slot_bytes(s1).to_multiset() == slot_bytes(s2).to_multiset(),
    ensures
        s1.to_multiset() == s2.to_multiset(),
    decreases s1.len(),
{
    broadcast use vstd::seq_lib::group_to_multiset_ensures;

    if s1.len() == 0 {
        assert(slot_bytes(s1).to_multiset().len() == slot_bytes(s1).len());
        assert(slot_bytes(s2).to_multiset().len() == slot_bytes(s2).len());
        assert(s2 =~= s1);
    } else {
        let x = s1[0];
        let bx = slot_byte(x);
        assert(slot_bytes(s1)[0] == bx);
        assert(slot_bytes(s1).contains(bx));
        assert(slot_bytes(s2).to_multiset().count(bx) > 0);
        assert(slot_bytes(s2).contains(bx));
        let i = choose|i: int| 0 <= i < slot_bytes(s2).len() && slot_bytes(s2)[i] == bx;
        assert(slot_byte(s2[i]) == bx);
        lemma_slot_byte_injective(x, s2[i]);
        assert(s2[i] == x);
        assert(slot_bytes(s1.remove(0)) =~= slot_bytes(s1).remove(0));
        assert(slot_bytes(s2.remove(i)) =~= slot_bytes(s2).remove(i));
        assert(slot_bytes(s1).remove(0).to_multiset() =~= slot_bytes(s1).to_multiset().remove(bx));
        assert(slot_bytes(s2).remove(i).to_multiset() =~= slot_bytes(s2).to_multiset().remove(bx));
        assert(crate::board::column::slots_wf(s1.remove(0))) by {
            assert forall|j: int|
                0 <= j < s1.remove(0).len() implies crate::board::column::slot_wf(
                #[trigger] s1.remove(0)[j],
            ) by {
                if j < 0 {
                } else {
                    assert(s1.remove(0)[j] == s1[j + 1]);
                }
            }
        }
        assert(crate::board::column::slots_wf(s2.remove(i))) by {
            assert forall|j: int|
                0 <= j < s2.remove(i).len() implies crate::board::column::slot_wf(
                #[trigger] s2.remove(i)[j],
            ) by {
                if j < i {
                    assert(s2.remove(i)[j] == s2[j]);
                } else {
                    assert(s2.remove(i)[j] == s2[j + 1]);
                }
            }
        }
        lemma_slot_bytes_multiset_rev(s1.remove(0), s2.remove(i));
        assert(s1.remove(0).to_multiset() =~= s1.to_multiset().remove(x));
        assert(s2.remove(i).to_multiset() =~= s2.to_multiset().remove(x));
        assert(s1.to_multiset() =~= s2.to_multiset()) by {
            assert(s1.to_multiset().count(x) > 0);
            assert(s2.to_multiset().count(x) > 0);
            assert forall|y: Option<Card>| true implies s1.to_multiset().count(y)
                == s2.to_multiset().count(y) by {
                if y == x {
                    assert(s1.to_multiset().count(y) == s1.to_multiset().remove(x).count(y) + 1);
                    assert(s2.to_multiset().count(y) == s2.to_multiset().remove(x).count(y) + 1);
                } else {
                    assert(s1.to_multiset().count(y) == s1.to_multiset().remove(x).count(y));
                    assert(s2.to_multiset().count(y) == s2.to_multiset().remove(x).count(y));
                }
            }
        }
    }
}

/// A well-formed column's byte row determines its slots.
proof fn lemma_slot_bytes_row_injective(u: Seq<Option<Card>>, v: Seq<Option<Card>>)
    requires
        crate::board::column::slots_wf(u),
        crate::board::column::slots_wf(v),
        slot_bytes(u) == slot_bytes(v),
    ensures
        u == v,
{
    assert(slot_bytes(u).len() == u.len());
    assert(slot_bytes(v).len() == v.len());
    assert(u.len() == v.len());
    assert(u =~= v) by {
        assert forall|j: int| 0 <= j < u.len() implies u[j] == v[j] by {
            assert(slot_bytes(u)[j] == slot_byte(u[j]));
            assert(slot_bytes(v)[j] == slot_byte(v[j]));
            lemma_slot_byte_injective(u[j], v[j]);
        }
    }
}

/// Column collections whose byte rows agree as multisets hold the same
/// content-sequence multiset, provided all their slots are well formed.
proof fn lemma_column_bytes_multiset_rev(c1: Seq<Seq<Option<Card>>>, c2: Seq<Seq<Option<Card>>>)
    requires
        forall|i: int| 0 <= i < c1.len() ==> crate::board::column::slots_wf(#[trigger] c1[i]),
        forall|i: int| 0 <= i < c2.len() ==> crate::board::column::slots_wf(#[trigger] c2[i]),
        c1.map_values(slot_bytes_fn()).to_multiset() == c2.map_values(slot_bytes_fn()).to_multiset(),
    ensures
        c1.to_multiset() == c2.to_multiset(),
    decreases c1.len(),
{
    broadcast use vstd::seq_lib::group_to_multiset_ensures;

    let m1 = c1.map_values(slot_bytes_fn());
    let m2 = c2.map_values(slot_bytes_fn());
    if c1.len() == 0 {
        assert(m1.to_multiset().len() == m1.len());
        assert(m2.to_multiset().len() == m2.len());
        assert(c2 =~= c1);
    } else {
        let x = c1[0];
        let bx = slot_bytes(x);
        assert(m1[0] == bx);
        assert(m1.contains(bx));
        assert(m2.to_multiset().count(bx) > 0);
        assert(m2.contains(bx));
        let i = choose|i: int| 0 <= i < m2.len() && m2[i] == bx;
        assert(slot_bytes(c2[i]) == bx);
        lemma_slot_bytes_row_injective(x, c2[i]);
        assert(c2[i] == x);
        assert(c1.remove(0).map_values(slot_bytes_fn()) =~= m1.remove(0));
        assert(c2.remove(i).map_values(slot_bytes_fn()) =~= m2.remove(i));
        assert(m1.remove(0).to_multiset() =~= m1.to_multiset().remove(bx));
        assert(m2.remove(i).to_multiset() =~= m2.to_multiset().remove(bx));
        assert(forall|j: int|
            0 <= j < c1.remove(0).len() ==> crate::board::column::slots_wf(
                #[trigger] c1.remove(0)[j],
            ));
        assert forall|j: int|
            0 <= j < c2.remove(i).len() implies crate::board::column::slots_wf(
            #[trigger] c2.remove(i)[j],
        ) by {
            if j < i {
                assert(c2.remove(i)[j] == c2[j]);
            } else {
                assert(c2.remove(i)[j] == c2[j + 1]);
            }
        }
        lemma_column_bytes_multiset_rev(c1.remove(0), c2.remove(i));
        assert(c1.remove(0).to_multiset() =~= c1.to_multiset().remove(x));
        assert(c2.remove(i).to_multiset() =~= c2.to_multiset().remove(x));
        assert(c1.to_multiset() =~= c2.to_multiset()) by {
            assert(c1.to_multiset().count(x) > 0);
            assert(c2.to_multiset().count(x) > 0);
            assert forall|y: Seq<Option<Card>>| true implies c1.to_multiset().count(y)
                == c2.to_multiset().count(y) by {
                if y == x {
                    assert(c1.to_multiset().count(y) == c1.to_multiset().remove(x).count(y) + 1);
                    assert(c2.to_multiset().count(y) == c2.to_multiset().remove(x).count(y) + 1);
                } else {
                    assert(c1.to_multiset().count(y) == c1.to_multiset().remove(x).count(y));
                    assert(c2.to_multiset().count(y) == c2.to_multiset().remove(x).count(y));
                }
            }
        }
    }
}

/// Equal canonical byte forms mean the same position: the canonical form
/// erases exactly the order of the cells and the column identities,
/// nothing more.
pub proof fn lemma_canon_equiv(a: BoardV, b: BoardV)
    requires
        a.wf(),
        b.wf(),
        canon(a) == canon(b),
    ensures
        equiv(a, b),
{
    lemma_u8_le_total();
    lemma_lex_le_total();
    let fa = slot_bytes(a.foundation);
    let fb = slot_bytes(b.foundation);
    let ca = slot_bytes(a.cells).sort_by(u8_le());
    let cb = slot_bytes(b.cells).sort_by(u8_le());
    let ra = column_bytes(a).sort_by(lex_le());
    let rb = column_bytes(b).sort_by(lex_le());
    slot_bytes(a.cells).lemma_sort_by_ensures(u8_le());
    slot_bytes(b.cells).lemma_sort_by_ensures(u8_le());
    column_bytes(a).lemma_sort_by_ensures(lex_le());
    column_bytes(b).lemma_sort_by_ensures(lex_le());
    broadcast use vstd::seq_lib::group_to_multiset_ensures;

    assert(ca.len() == 8) by {
        assert(ca.to_multiset().len() == ca.len());
        assert(slot_bytes(a.cells).to_multiset().len() == slot_bytes(a.cells).len());
    }
    assert(cb.len() == 8) by {
        assert(cb.to_multiset().len() == cb.len());
        assert(slot_bytes(b.cells).to_multiset().len() == slot_bytes(b.cells).len());
    }
    assert(fa == fb && ca == cb && ra.flatten() == rb.flatten()) by {
        assert(fa =~= canon(a).subrange(0, 4));
        assert(fb =~= canon(b).subrange(0, 4));
        assert(ca =~= canon(a).subrange(4, 12));
        assert(cb =~= canon(b).subrange(4, 12));
        assert(ra.flatten() =~= canon(a).subrange(12, canon(a).len() as int));
        assert(rb.flatten() =~= canon(b).subrange(12, canon(b).len() as int));
    }
    assert(a.foundation == b.foundation) by {
        assert(a.foundation =~= b.foundation) by {
            assert forall|s: int| 0 <= s < 4 implies a.foundation[s] == b.foundation[s] by {
                assert(fa[s] == slot_byte(a.foundation[s]));
                assert(fb[s] == slot_byte(b.foundation[s]));
                lemma_slot_byte_injective(a.foundation[s], b.foundation[s]);
            }
        }
    }
    assert(a.cells.to_multiset() == b.cells.to_multiset()) by {
        assert(slot_bytes(a.cells).to_multiset() == slot_bytes(b.cells).to_multiset());
        lemma_slot_bytes_multiset_rev(a.cells, b.cells);
    }
    assert(a.columns.to_multiset() == b.columns.to_multiset()) by {
        assert(ra.len() == 8) by {
            assert(ra.to_multiset().len() == ra.len());
            assert(column_bytes(a).to_multiset().len() == column_bytes(a).len());
        }
        assert(rb.len() == 8) by {
            assert(rb.to_multiset().len() == rb.len());
            assert(column_bytes(b).to_multiset().len() == column_bytes(b).len());
        }
        assert forall|i: int| 0 <= i < ra.len() implies (#[trigger] ra[i]).len() == 17 by {
            assert(ra.contains(ra[i]));
            assert(ra.to_multiset().count(ra[i]) > 0);
            assert(column_bytes(a).to_multiset().count(ra[i]) > 0);
            assert(column_bytes(a).contains(ra[i]));
            let j = choose|j: int| 0 <= j < column_bytes(a).len() && column_bytes(a)[j] == ra[i];
            assert(column_bytes(a)[j] == slot_bytes(a.columns[j]));
        }
        assert forall|i: int| 0 <= i < rb.len() implies (#[trigger] rb[i]).len() == 17 by {
            assert(rb.contains(rb[i]));
            assert(rb.to_multiset().count(rb[i]) > 0);
            assert(column_bytes(b).to_multiset().count(rb[i]) > 0);
            assert(column_bytes(b).contains(rb[i]));
            let j = choose|j: int| 0 <= j < column_bytes(b).len() && column_bytes(b)[j] == rb[i];
            assert(column_bytes(b)[j] == slot_bytes(b.columns[j]));
        }
        lemma_flatten_fixed(ra, rb, 17);
        assert(column_bytes(a).to_multiset() == column_bytes(b).to_multiset());
        lemma_column_bytes_multiset_rev(a.columns, b.columns);
    }
}

/// Automatic forcing respects position equivalence: equivalent boards
/// force to equivalent fixed points.
pub proof fn lemma_force_equiv(a: BoardV, b: BoardV)
    requires
        a.wf(),
        b.wf(),
        distinct_loose(a),
        equiv(a, b),
    ensures
        equiv(force(a), force(b)),
    decreases loose_cards(a),
{
    broadcast use vstd::seq_lib::group_to_multiset_ensures;

    lemma_loose_cards_nonneg(a);
    lemma_equiv_loose(a, b);
    lemma_first_auto_column_props(a, 0);
    lemma_first_auto_cell_props(a, 0);
    lemma_first_auto_column_props(b, 0);
    lemma_first_auto_cell_props(b, 0);
    match auto_step(a) {
        None => {
            assert(auto_step(b) is None) by {
                match first_auto_column(b, 0) {
                    Some(i2) => {
                        let row = b.columns[i2];
                        assert(b.columns.contains(row));
                        assert(a.columns.to_multiset().count(row) > 0);
                        assert(a.columns.contains(row));
                        let i3 = choose|i3: int| 0 <= i3 < a.columns.len() && a.columns[i3] == row;
                        assert(col_eligible(a, i3));
                    },
                    None => {
                        match first_auto_cell(b, 0) {
                            Some(j2) => {
                                let slot = b.cells[j2];
                                assert(b.cells.contains(slot));
                                assert(a.cells.to_multiset().count(slot) > 0);
                                assert(a.cells.contains(slot));
                                let j3 = choose|j3: int|
                                    0 <= j3 < a.cells.len() && a.cells[j3] == slot;
                                assert(cell_eligible(a, j3));
                            },
                            None => {},
                        }
                    },
                }
            }
            assert(force(a) == a);
            assert(force(b) == b);
        },
        Some(a1) => {
            lemma_auto_step(a);
            lemma_force_absorb(a);
            match first_auto_column(a, 0) {
                Some(i) => {
                    let row = a.columns[i];
                    let n = count_cards(row);
                    let c = top_card(row).unwrap();
                    let rowp = row.update(n - 1, None);
                    assert(a.columns.contains(row));
                    assert(b.columns.to_multiset().count(row) > 0);
                    assert(b.columns.contains(row));
                    let i2 = choose|i2: int| 0 <= i2 < b.columns.len() && b.columns[i2] == row;
                    assert(col_eligible(b, i2));
                    lemma_src_promote(a, i);
                    lemma_src_promote(b, i2);
                    let e_b = col_promote(b, i2);
                    assert(equiv(a1, e_b)) by {
                        lemma_update_to_multiset(a.columns, i, rowp);
                        lemma_update_to_multiset(b.columns, i2, rowp);
                    }
                    lemma_force_absorb_any(b, i2);
                    lemma_force_equiv(a1, e_b);
                },
                None => {
                    let j = first_auto_cell(a, 0).unwrap();
                    let slot = a.cells[j];
                    let c = slot.unwrap();
                    assert(a.cells.contains(slot));
                    assert(b.cells.to_multiset().count(slot) > 0);
                    assert(b.cells.contains(slot));
                    let j2 = choose|j2: int| 0 <= j2 < b.cells.len() && b.cells[j2] == slot;
                    assert(cell_eligible(b, j2));
                    lemma_src_promote(a, crate::board::N_COLUMNS + j);
                    lemma_src_promote(b, crate::board::N_COLUMNS + j2);
                    let e_b = cell_promote(b, j2);
                    assert(equiv(a1, e_b)) by {
                        lemma_update_to_multiset(a.cells, j, None);
                        lemma_update_to_multiset(b.cells, j2, None);
                    }
                    lemma_force_absorb_any(b, crate::board::N_COLUMNS + j2);
                    lemma_force_equiv(a1, e_b);
                },
            }
        },
    }
}

/// Equivalent positions admit winning lines of equal length, avoiding
/// the same canonical forms: the equivalence is a bisimulation for a
/// move followed by forcing. Each move on one board maps to the move on
/// the other that touches the same cell contents and the same column
/// content sequences, wherever their indices sit; corresponding boards
/// along the two lines have equal canonical forms throughout.
pub proof fn lemma_wins_avoiding_equiv(a: BoardV, b: BoardV, ms: Seq<Move>, s: Set<Seq<u8>>)
    requires
        a.wf(),
        b.wf(),
        distinct_loose(a),
        equiv(a, b),
        wins_avoiding(a, ms, s),
    ensures
        exists|ms2: Seq<Move>| #[trigger] ms2.len() == ms.len() && wins_avoiding(b, ms2, s),
    decreases ms.len(),
{
    broadcast use vstd::seq_lib::group_to_multiset_ensures;

    lemma_equiv_loose(a, b);
    crate::canon::lemma_canon_permutation_invariant(a, b);
    if ms.len() == 0 {
        let ms2 = Seq::<Move>::empty();
        assert(ms2.len() == ms.len() && wins_avoiding(b, ms2, s));
    } else {
        let m = ms[0];
        let from = m.from as int;
        let to = m.to as int;
        let d_a = apply_move(a, m).unwrap();
        let (m2, d_b): (Move, BoardV) = match m.kind {
            MoveKind::ColumnToCardColumn => {
                let rowf = a.columns[from];
                let rowt = a.columns[to];
                let nf = count_cards(rowf);
                let nt = count_cards(rowt);
                let top = top_card(rowf);
                assert(rowf != rowt) by {
                    if rowf == rowt {
                        assert(!adjacent(
                            top_card(rowf).unwrap(),
                            top_card(rowt).unwrap(),
                        ));
                    }
                }
                assert(a.columns.contains(rowf) && a.columns.contains(rowt));
                assert(b.columns.to_multiset().count(rowf) > 0);
                assert(b.columns.to_multiset().count(rowt) > 0);
                assert(b.columns.contains(rowf) && b.columns.contains(rowt));
                let from2 = choose|i: int| 0 <= i < b.columns.len() && b.columns[i] == rowf;
                let to2 = choose|i: int| 0 <= i < b.columns.len() && b.columns[i] == rowt;
                assert(from2 != to2);
                let m2 = Move { kind: m.kind, from: from2 as u8, to: to2 as u8 };
                let d_b = apply_move(b, m2).unwrap();
                assert(apply_move(b, m2) is Some);
                assert(equiv(d_a, d_b)) by {
                    let rowfp = rowf.update(nf - 1, None);
                    let rowtp = rowt.update(nt, top);
                    lemma_update_to_multiset(a.columns, from, rowfp);
                    lemma_update_to_multiset(a.columns.update(from, rowfp), to, rowtp);
                    lemma_update_to_multiset(b.columns, from2, rowfp);
                    lemma_update_to_multiset(b.columns.update(from2, rowfp), to2, rowtp);
                    assert(a.columns.update(from, rowfp)[to] == rowt);
                    assert(b.columns.update(from2, rowfp)[to2] == rowt);
                }
                (m2, d_b)
            },
            MoveKind::ColumnToEmptyColumn => {
                let rowf = a.columns[from];
                let rowt = a.columns[to];
                let nf = count_cards(rowf);
                let top = top_card(rowf);
                assert(rowf != rowt);
                assert(a.columns.contains(rowf) && a.columns.contains(rowt));
                assert(b.columns.to_multiset().count(rowf) > 0);
                assert(b.columns.to_multiset().count(rowt) > 0);
                assert(b.columns.contains(rowf) && b.columns.contains(rowt));
                let from2 = choose|i: int| 0 <= i < b.columns.len() && b.columns[i] == rowf;
                let to2 = choose|i: int| 0 <= i < b.columns.len() && b.columns[i] == rowt;
                assert(from2 != to2);
                let m2 = Move { kind: m.kind, from: from2 as u8, to: to2 as u8 };
                let d_b = apply_move(b, m2).unwrap();
                assert(apply_move(b, m2) is Some);
                assert(equiv(d_a, d_b)) by {
                    let rowfp = rowf.update(nf - 1, None);
                    let rowtp = rowt.update(0, top);
                    lemma_update_to_multiset(a.columns, from, rowfp);
                    lemma_update_to_multiset(a.columns.update(from, rowfp), to, rowtp);
                    lemma_update_to_multiset(b.columns, from2, rowfp);
                    lemma_update_to_multiset(b.columns.update(from2, rowfp), to2, rowtp);
                    assert(a.columns.update(from, rowfp)[to] == rowt);
                    assert(b.columns.update(from2, rowfp)[to2] == rowt);
                }
                (m2, d_b)
            },
            MoveKind::ColumnToCell => {
                let rowf = a.columns[from];
                let nf = count_cards(rowf);
                let top = top_card(rowf);
                assert(a.columns.contains(rowf));
                assert(b.columns.to_multiset().count(rowf) > 0);
                assert(b.columns.contains(rowf));
                assert(a.cells.contains(None::<Card>));
                assert(b.cells.to_multiset().count(None::<Card>) > 0);
                assert(b.cells.contains(None::<Card>));
                let from2 = choose|i: int| 0 <= i < b.columns.len() && b.columns[i] == rowf;
                let to2 = choose|i: int| 0 <= i < b.cells.len() && b.cells[i] == None::<Card>;
                let m2 = Move { kind: m.kind, from: from2 as u8, to: to2 as u8 };
                let d_b = apply_move(b, m2).unwrap();
                assert(apply_move(b, m2) is Some);
                assert(equiv(d_a, d_b)) by {
                    let rowfp = rowf.update(nf - 1, None);
                    lemma_update_to_multiset(a.columns, from, rowfp);
                    lemma_update_to_multiset(b.columns, from2, rowfp);
                    lemma_update_to_multiset(a.cells, to, top);
                    lemma_update_to_multiset(b.cells, to2, top);
                }
                (m2, d_b)
            },
            MoveKind::CellToCardColumn => {
                let slot = a.cells[from];
                let rowt = a.columns[to];
                let nt = count_cards(rowt);
                assert(a.cells.contains(slot));
                assert(b.cells.to_multiset().count(slot) > 0);
                assert(b.cells.contains(slot));
                assert(a.columns.contains(rowt));
                assert(b.columns.to_multiset().count(rowt) > 0);
                assert(b.columns.contains(rowt));
                let from2 = choose|i: int| 0 <= i < b.cells.len() && b.cells[i] == slot;
                let to2 = choose|i: int| 0 <= i < b.columns.len() && b.columns[i] == rowt;
                let m2 = Move { kind: m.kind, from: from2 as u8, to: to2 as u8 };
                let d_b = apply_move(b, m2).unwrap();
                assert(apply_move(b, m2) is Some);
                assert(equiv(d_a, d_b)) by {
                    let rowtp = rowt.update(nt, slot);
                    lemma_update_to_multiset(a.cells, from, None);
                    lemma_update_to_multiset(b.cells, from2, None);
                    lemma_update_to_multiset(a.columns, to, rowtp);
                    lemma_update_to_multiset(b.columns, to2, rowtp);
                }
                (m2, d_b)
            },
            MoveKind::CellToEmptyColumn => {
                let slot = a.cells[from];
                let rowt = a.columns[to];
                assert(a.cells.contains(slot));
                assert(b.cells.to_multiset().count(slot) > 0);
                assert(b.cells.contains(slot));
                assert(a.columns.contains(rowt));
                assert(b.columns.to_multiset().count(rowt) > 0);
                assert(b.columns.contains(rowt));
                let from2 = choose|i: int| 0 <= i < b.cells.len() && b.cells[i] == slot;
                let to2 = choose|i: int| 0 <= i < b.columns.len() && b.columns[i] == rowt;
                let m2 = Move { kind: m.kind, from: from2 as u8, to: to2 as u8 };
                let d_b = apply_move(b, m2).unwrap();
                assert(apply_move(b, m2) is Some);
                assert(equiv(d_a, d_b)) by {
                    let rowtp = rowt.update(0, slot);
                    lemma_update_to_multiset(a.cells, from, None);
                    lemma_update_to_multiset(b.cells, from2, None);
                    lemma_update_to_multiset(a.columns, to, rowtp);
                    lemma_update_to_multiset(b.columns, to2, rowtp);
                }
                (m2, d_b)
            },
        };
        lemma_apply_move_wf(a, m);
        lemma_apply_move_wf(b, m2);
        lemma_move_preserves_cards(a, m);
        assert(distinct_loose(d_a));
        lemma_force_equiv(d_a, d_b);
        lemma_force_props(d_a);
        lemma_force_props(d_b);
        lemma_force_distinct(d_a);
        lemma_wins_avoiding_equiv(force(d_a), force(d_b), ms.drop_first(), s);
        let tail2 = choose|t: Seq<Move>|
            #[trigger] t.len() == ms.drop_first().len() && wins_avoiding(force(d_b), t, s);
        let ms2 = seq![m2] + tail2;
        assert(ms2[0] == m2);
        assert(ms2.drop_first() =~= tail2);
        assert(ms2.len() == ms.len() && wins_avoiding(b, ms2, s));
    }
}

/// Equivalent positions admit winning lines of equal length.
pub proof fn lemma_wins_equiv(a: BoardV, b: BoardV, ms: Seq<Move>)
    requires
        a.wf(),
        b.wf(),
        distinct_loose(a),
        equiv(a, b),
        wins(a, ms),
    ensures
        exists|ms2: Seq<Move>| #[trigger] ms2.len() == ms.len() && wins(b, ms2),
    decreases ms.len(),
{
    lemma_wins_avoiding_empty(a, ms);
    lemma_wins_avoiding_equiv(a, b, ms, Set::<Seq<u8>>::empty());
    let ms2 = choose|t: Seq<Move>|
        #[trigger] t.len() == ms.len() && wins_avoiding(b, t, Set::<Seq<u8>>::empty());
    lemma_wins_avoiding_empty(b, ms2);
    assert(ms2.len() == ms.len() && wins(b, ms2));
}

/// Positions that differ only by a permutation of the interchangeable
/// free cells, or of the column identities, are equi-winnable. This is
/// the fact that justifies treating canonical-equal boards as one state.
pub proof fn lemma_equiv_winnable(a: BoardV, b: BoardV)
    requires
        a.wf(),
        b.wf(),
        distinct_loose(a),
        equiv(a, b),
    ensures
        (exists|ms: Seq<Move>| wins(a, ms)) <==> (exists|ms: Seq<Move>| wins(b, ms)),
{
    lemma_equiv_loose(a, b);
    if exists|ms: Seq<Move>| wins(a, ms) {
        let ms = choose|ms: Seq<Move>| wins(a, ms);
        lemma_wins_equiv(a, b, ms);
    }
    if exists|ms: Seq<Move>| wins(b, ms) {
        let ms = choose|ms: Seq<Move>| wins(b, ms);
        assert(equiv(b, a)) by {
            assert(b.cells.to_multiset() == a.cells.to_multiset());
            assert(b.columns.to_multiset() == a.columns.to_multiset());
        }
        lemma_wins_equiv(b, a, ms);
    }
}

} // verus!
