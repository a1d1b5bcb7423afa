//! Depth-first backtracking search over the board's move graph, with a
//! visited set of canonical forms for permutation-invariant pruning.
//!
//! The solver proves both directions of its verdict. Any move list it
//! hands back is a winning line, transforming its (forcing-closed)
//! starting board into a solved board. And on a board whose cards are
//! distinct, a `None` outcome is a proof of no solution: no sequence of
//! moves whatsoever wins. The completeness argument threads a soundness
//! invariant through the visited set — every recorded canonical form is
//! either an ancestor of the current node or provably dead — and rests
//! on the equivalence bisimulation, which shows that skipping a board
//! whose canonical form was already explored never hides a win.

use vstd::prelude::*;

use crate::board::cards_of;
use crate::board::columns_cards;
use crate::board::force;
use crate::board::loose_multiset;
use crate::board::spec_cell_to_card_column;
use crate::board::spec_cell_to_empty_column;
use crate::board::spec_column_to_card_column;
use crate::board::spec_column_to_cell;
use crate::board::spec_column_to_empty_column;
use crate::board::Board;
use crate::board::BoardV;
use crate::board::N_CELLS;
use crate::board::N_COLUMNS;
use crate::canon::bytes_eq;
use crate::canon::canon;
use crate::canon::deep_rows;
use crate::card::Card;

verus! {

/// The five move categories the search explores, tried in this fixed
/// priority order. Foundation promotion is never a search move: it
/// happens only through automatic forcing.
#[derive(PartialEq, Eq, Structural, Debug, Clone, Copy)]
pub enum MoveKind {
    ColumnToCardColumn,
    ColumnToEmptyColumn,
    ColumnToCell,
    CellToCardColumn,
    CellToEmptyColumn,
}

/// One step of a solution: a move category with its source and
/// destination indices.
#[derive(PartialEq, Eq, Structural, Debug, Clone, Copy)]
pub struct Move {
    pub kind: MoveKind,
    pub from: u8,
    pub to: u8,
}

/// The board a move yields, if the move is legal on the given board.
pub open spec fn apply_move(b: BoardV, m: Move) -> Option<BoardV> {
    match m.kind {
        MoveKind::ColumnToCardColumn => spec_column_to_card_column(b, m.from as int, m.to as int),
        MoveKind::ColumnToEmptyColumn => spec_column_to_empty_column(b, m.from as int, m.to as int),
        MoveKind::ColumnToCell => spec_column_to_cell(b, m.from as int, m.to as int),
        MoveKind::CellToCardColumn => spec_cell_to_card_column(b, m.from as int, m.to as int),
        MoveKind::CellToEmptyColumn => spec_cell_to_empty_column(b, m.from as int, m.to as int),
    }
}

/// Whether the move list wins from board `b`: each move in turn is legal,
/// automatic forcing is folded in after each move, and the final board is
/// solved. The starting board is taken as already forcing-closed.
pub open spec fn wins(b: BoardV, ms: Seq<Move>) -> bool
    decreases ms.len(),
{
    if ms.len() == 0 {
        b.solved()
    } else {
        match apply_move(b, ms[0]) {
            None => false,
            Some(b2) => wins(force(b2), ms.drop_first()),
        }
    }
}

/// A legal move yields a well-formed board.
pub proof fn lemma_apply_move_wf(b: BoardV, m: Move)
    requires
        b.wf(),
        apply_move(b, m) is Some,
    ensures
        apply_move(b, m).unwrap().wf(),
{
    let b2 = apply_move(b, m).unwrap();
    let from = m.from as int;
    let to = m.to as int;
    match m.kind {
        MoveKind::ColumnToCardColumn => {
            let fcol = b.columns[from];
            let tcol = b.columns[to];
            crate::board::column::lemma_count_cards_contiguous(fcol);
            crate::board::column::lemma_count_cards_contiguous(tcol);
            let c = crate::board::column::top_card(fcol).unwrap();
            assert(from != to);
            crate::board::lemma_remove_top(fcol);
            crate::board::lemma_add_top(tcol, c);
            assert(b2.wf()) by {
                assert forall|i: int|
                    0 <= i < N_COLUMNS implies (#[trigger] b2.columns[i]).len()
                    == crate::board::column::MAX_COLUMN_SIZE && crate::board::column::slots_wf(
                    b2.columns[i],
                ) && crate::board::column::contiguous(b2.columns[i]) by {
                    if i != from && i != to {
                        assert(b2.columns[i] == b.columns[i]);
                    }
                }
            }
        },
        MoveKind::ColumnToEmptyColumn => {
            let fcol = b.columns[from];
            let tcol = b.columns[to];
            crate::board::column::lemma_count_cards_contiguous(fcol);
            crate::board::column::lemma_count_cards_contiguous(tcol);
            let c = crate::board::column::top_card(fcol).unwrap();
            assert(from != to);
            crate::board::lemma_remove_top(fcol);
            crate::board::lemma_add_top(tcol, c);
            assert(b2.wf()) by {
                assert forall|i: int|
                    0 <= i < N_COLUMNS implies (#[trigger] b2.columns[i]).len()
                    == crate::board::column::MAX_COLUMN_SIZE && crate::board::column::slots_wf(
                    b2.columns[i],
                ) && crate::board::column::contiguous(b2.columns[i]) by {
                    if i != from && i != to {
                        assert(b2.columns[i] == b.columns[i]);
                    }
                }
            }
        },
        MoveKind::ColumnToCell => {
            let fcol = b.columns[from];
            crate::board::column::lemma_count_cards_contiguous(fcol);
            let c = crate::board::column::top_card(fcol).unwrap();
            crate::board::lemma_remove_top(fcol);
            assert(b2.wf()) by {
                assert forall|i: int|
                    0 <= i < N_COLUMNS implies (#[trigger] b2.columns[i]).len()
                    == crate::board::column::MAX_COLUMN_SIZE && crate::board::column::slots_wf(
                    b2.columns[i],
                ) && crate::board::column::contiguous(b2.columns[i]) by {
                    if i != from {
                        assert(b2.columns[i] == b.columns[i]);
                    }
                }
                assert forall|i: int|
                    0 <= i < b2.cells.len() implies crate::board::column::slot_wf(
                    #[trigger] b2.cells[i],
                ) by {
                    if i != to {
                        assert(b2.cells[i] == b.cells[i]);
                    }
                }
            }
        },
        MoveKind::CellToCardColumn => {
            let tcol = b.columns[to];
            crate::board::column::lemma_count_cards_contiguous(tcol);
            let c = b.cells[from].unwrap();
            crate::board::lemma_add_top(tcol, c);
            assert(b2.wf()) by {
                assert forall|i: int|
                    0 <= i < N_COLUMNS implies (#[trigger] b2.columns[i]).len()
                    == crate::board::column::MAX_COLUMN_SIZE && crate::board::column::slots_wf(
                    b2.columns[i],
                ) && crate::board::column::contiguous(b2.columns[i]) by {
                    if i != to {
                        assert(b2.columns[i] == b.columns[i]);
                    }
                }
                assert forall|i: int|
                    0 <= i < b2.cells.len() implies crate::board::column::slot_wf(
                    #[trigger] b2.cells[i],
                ) by {
                    if i != from {
                        assert(b2.cells[i] == b.cells[i]);
                    }
                }
            }
        },
        MoveKind::CellToEmptyColumn => {
            let tcol = b.columns[to];
            crate::board::column::lemma_count_cards_contiguous(tcol);
            let c = b.cells[from].unwrap();
            crate::board::lemma_add_top(tcol, c);
            assert(b2.wf()) by {
                assert forall|i: int|
                    0 <= i < N_COLUMNS implies (#[trigger] b2.columns[i]).len()
                    == crate::board::column::MAX_COLUMN_SIZE && crate::board::column::slots_wf(
                    b2.columns[i],
                ) && crate::board::column::contiguous(b2.columns[i]) by {
                    if i != to {
                        assert(b2.columns[i] == b.columns[i]);
                    }
                }
                assert forall|i: int|
                    0 <= i < b2.cells.len() implies crate::board::column::slot_wf(
                    #[trigger] b2.cells[i],
                ) by {
                    if i != from {
                        assert(b2.cells[i] == b.cells[i]);
                    }
                }
            }
        },
    }
}

/// Every move operation preserves the cards on the board: the foundations
/// are untouched and the multiset of cards across cells and columns is
/// unchanged — no move duplicates or loses a card.
pub proof fn lemma_move_preserves_cards(b: BoardV, m: Move)
    requires
        b.wf(),
        apply_move(b, m) is Some,
    ensures
        apply_move(b, m) matches Some(b2) ==> b2.foundation == b.foundation && loose_multiset(b2)
            =~= loose_multiset(b),
{
    let b2 = apply_move(b, m).unwrap();
    let from = m.from as int;
    let to = m.to as int;
    match m.kind {
        MoveKind::ColumnToCardColumn => {
            let fcol = b.columns[from];
            let tcol = b.columns[to];
            let nf = crate::board::column::count_cards(fcol);
            let nt = crate::board::column::count_cards(tcol);
            crate::board::column::lemma_count_cards_contiguous(fcol);
            crate::board::column::lemma_count_cards_contiguous(tcol);
            let c = crate::board::column::top_card(fcol).unwrap();
            assert(from != to);
            crate::board::lemma_cards_of_update(fcol, nf - 1, None);
            crate::board::lemma_cards_of_update(tcol, nt, Some(c));
            let cols1 = b.columns.update(from, fcol.update(nf - 1, None));
            crate::board::lemma_columns_cards_update(b.columns, from, fcol.update(nf - 1, None));
            assert(cols1[to] == tcol);
            crate::board::lemma_columns_cards_update(cols1, to, tcol.update(nt, Some(c)));
            assert forall|x: Card| #[trigger] loose_multiset(b2).count(x) == loose_multiset(
                b,
            ).count(x) by {
                assert(columns_cards(cols1).count(x) == columns_cards(b.columns).count(x)
                    - cards_of(fcol).count(x) + cards_of(fcol.update(nf - 1, None)).count(x));
                assert(columns_cards(b2.columns).count(x) == columns_cards(cols1).count(x)
                    - cards_of(tcol).count(x) + cards_of(tcol.update(nt, Some(c))).count(x));
            }
        },
        MoveKind::ColumnToEmptyColumn => {
            let fcol = b.columns[from];
            let tcol = b.columns[to];
            let nf = crate::board::column::count_cards(fcol);
            crate::board::column::lemma_count_cards_contiguous(fcol);
            crate::board::column::lemma_count_cards_contiguous(tcol);
            let c = crate::board::column::top_card(fcol).unwrap();
            assert(from != to);
            crate::board::lemma_cards_of_update(fcol, nf - 1, None);
            crate::board::lemma_cards_of_update(tcol, 0, Some(c));
            let cols1 = b.columns.update(from, fcol.update(nf - 1, None));
            crate::board::lemma_columns_cards_update(b.columns, from, fcol.update(nf - 1, None));
            assert(cols1[to] == tcol);
            crate::board::lemma_columns_cards_update(cols1, to, tcol.update(0, Some(c)));
            assert forall|x: Card| #[trigger] loose_multiset(b2).count(x) == loose_multiset(
                b,
            ).count(x) by {
                assert(columns_cards(cols1).count(x) == columns_cards(b.columns).count(x)
                    - cards_of(fcol).count(x) + cards_of(fcol.update(nf - 1, None)).count(x));
                assert(columns_cards(b2.columns).count(x) == columns_cards(cols1).count(x)
                    - cards_of(tcol).count(x) + cards_of(tcol.update(0, Some(c))).count(x));
            }
        },
        MoveKind::ColumnToCell => {
            let fcol = b.columns[from];
            let nf = crate::board::column::count_cards(fcol);
            crate::board::column::lemma_count_cards_contiguous(fcol);
            let c = crate::board::column::top_card(fcol).unwrap();
            crate::board::lemma_cards_of_update(fcol, nf - 1, None);
            crate::board::lemma_cards_of_update(b.cells, to, Some(c));
            crate::board::lemma_columns_cards_update(b.columns, from, fcol.update(nf - 1, None));
            assert forall|x: Card| #[trigger] loose_multiset(b2).count(x) == loose_multiset(
                b,
            ).count(x) by {
                assert(columns_cards(b2.columns).count(x) == columns_cards(b.columns).count(x)
                    - cards_of(fcol).count(x) + cards_of(fcol.update(nf - 1, None)).count(x));
            }
        },
        MoveKind::CellToCardColumn => {
            let tcol = b.columns[to];
            let nt = crate::board::column::count_cards(tcol);
            crate::board::column::lemma_count_cards_contiguous(tcol);
            let c = b.cells[from].unwrap();
            crate::board::lemma_cards_of_update(b.cells, from, None);
            crate::board::lemma_cards_of_update(tcol, nt, Some(c));
            crate::board::lemma_columns_cards_update(b.columns, to, tcol.update(nt, Some(c)));
            assert forall|x: Card| #[trigger] loose_multiset(b2).count(x) == loose_multiset(
                b,
            ).count(x) by {
                assert(columns_cards(b2.columns).count(x) == columns_cards(b.columns).count(x)
                    - cards_of(tcol).count(x) + cards_of(tcol.update(nt, Some(c))).count(x));
            }
        },
        MoveKind::CellToEmptyColumn => {
            let tcol = b.columns[to];
            crate::board::column::lemma_count_cards_contiguous(tcol);
            let c = b.cells[from].unwrap();
            crate::board::lemma_cards_of_update(b.cells, from, None);
            crate::board::lemma_cards_of_update(tcol, 0, Some(c));
            crate::board::lemma_columns_cards_update(b.columns, to, tcol.update(0, Some(c)));
            assert forall|x: Card| #[trigger] loose_multiset(b2).count(x) == loose_multiset(
                b,
            ).count(x) by {
                assert(columns_cards(b2.columns).count(x) == columns_cards(b.columns).count(x)
                    - cards_of(tcol).count(x) + cards_of(tcol.update(0, Some(c))).count(x));
            }
        },
    }
}

/// Whether the move list wins from board `b` while visiting no board —
/// `b` included — whose canonical form the given set holds.
pub open spec fn wins_avoiding(b: BoardV, ms: Seq<Move>, s: Set<Seq<u8>>) -> bool
    decreases ms.len(),
{
    &&& !s.contains(canon(b))
    &&& if ms.len() == 0 {
        b.solved()
    } else {
        match apply_move(b, ms[0]) {
            None => false,
            Some(d) => wins_avoiding(force(d), ms.drop_first(), s),
        }
    }
}

/// Winning and winning-avoiding-nothing are the same thing.
pub proof fn lemma_wins_avoiding_empty(b: BoardV, ms: Seq<Move>)
    ensures
        wins(b, ms) == wins_avoiding(b, ms, Set::<Seq<u8>>::empty()),
    decreases ms.len(),
{
    if ms.len() > 0 {
        match apply_move(b, ms[0]) {
            None => {},
            Some(d) => {
                lemma_wins_avoiding_empty(force(d), ms.drop_first());
            },
        }
    }
}

/// Avoiding a larger set is harder: a win that avoids it also avoids any
/// subset.
pub proof fn lemma_wins_avoiding_mono(b: BoardV, ms: Seq<Move>, s1: Set<Seq<u8>>, s2: Set<Seq<u8>>)
    requires
        s1.subset_of(s2),
        wins_avoiding(b, ms, s2),
    ensures
        wins_avoiding(b, ms, s1),
    decreases ms.len(),
{
    if ms.len() > 0 {
        let d = apply_move(b, ms[0]).unwrap();
        lemma_wins_avoiding_mono(force(d), ms.drop_first(), s1, s2);
    }
}

/// A win that avoids a set either also avoids one more canonical form,
/// or passes through a board of that form, from which its own suffix is
/// a strictly shorter avoiding win.
pub proof fn lemma_wins_avoiding_extend(b: BoardV, ms: Seq<Move>, s: Set<Seq<u8>>, c: Seq<u8>)
    requires
        b.wf(),
        crate::confluence::distinct_loose(b),
        wins_avoiding(b, ms, s),
        canon(b) != c,
    ensures
        wins_avoiding(b, ms, s.insert(c)) || (exists|y: BoardV, k: int|
            1 <= k <= ms.len() && (#[trigger] y.wf()) && crate::confluence::distinct_loose(y)
                && canon(y) == c && wins_avoiding(y, #[trigger] ms.skip(k), s)),
    decreases ms.len(),
{
    if ms.len() == 0 {
    } else {
        let d = apply_move(b, ms[0]).unwrap();
        let n1 = force(d);
        lemma_apply_move_wf(b, ms[0]);
        lemma_move_preserves_cards(b, ms[0]);
        crate::board::lemma_force_props(d);
        crate::confluence::lemma_force_distinct(d);
        if canon(n1) == c {
            assert(ms.skip(1) =~= ms.drop_first());
            assert(1 <= 1 <= ms.len() && n1.wf() && crate::confluence::distinct_loose(n1) && canon(
                n1,
            ) == c && wins_avoiding(n1, ms.skip(1), s));
        } else {
            lemma_wins_avoiding_extend(n1, ms.drop_first(), s, c);
            if wins_avoiding(n1, ms.drop_first(), s.insert(c)) {
                assert(wins_avoiding(b, ms, s.insert(c)));
            } else {
                let (y, k): (BoardV, int) = choose|y: BoardV, k: int|
                    1 <= k <= ms.drop_first().len() && (#[trigger] y.wf())
                        && crate::confluence::distinct_loose(y) && canon(y) == c && wins_avoiding(
                        y,
                        #[trigger] ms.drop_first().skip(k),
                        s,
                    );
                assert(ms.skip(k + 1) =~= ms.drop_first().skip(k));
                assert(1 <= k + 1 <= ms.len() && y.wf() && crate::confluence::distinct_loose(y)
                    && canon(y) == c && wins_avoiding(y, ms.skip(k + 1), s));
            }
        }
    }
}

/// Whether every well-formed, distinct-card board of the given canonical
/// form admits no winning line that avoids the excused set.
pub open spec fn dead_canon(c: Seq<u8>, anc: Set<Seq<u8>>) -> bool {
    forall|x: BoardV, ms: Seq<Move>|
        x.wf() && crate::confluence::distinct_loose(x) && canon(x) == c ==> !#[trigger] wins_avoiding(
            x,
            ms,
            anc,
        )
}

/// Whether every recorded canonical form is an excused ancestor of the
/// search or dead relative to those ancestors.
pub open spec fn sound_seen(seen: Seq<Seq<u8>>, anc: Set<Seq<u8>>) -> bool {
    forall|i: int|
        0 <= i < seen.len() ==> anc.contains(#[trigger] seen[i]) || dead_canon(seen[i], anc)
}

/// Whether every move of the given kind from `b` leads to a recorded
/// canonical form.
pub open spec fn kind_covered(b: BoardV, kind: MoveKind, seen: Seq<Seq<u8>>) -> bool {
    forall|m: Move|
        m.kind == kind ==> (#[trigger] apply_move(b, m) matches Some(d) ==> seen.contains(
            canon(force(d)),
        ))
}

/// Every sequence is a prefix of itself.
proof fn lemma_prefix_refl(s: Seq<Seq<u8>>)
    ensures
        s.is_prefix_of(s),
{
    assert(s =~= s.subrange(0, s.len() as int));
}

/// Being a prefix is transitive.
proof fn lemma_prefix_trans(a: Seq<Seq<u8>>, b: Seq<Seq<u8>>, c: Seq<Seq<u8>>)
    requires
        a.is_prefix_of(b),
        b.is_prefix_of(c),
    ensures
        a.is_prefix_of(c),
{
    assert(a =~= c.subrange(0, a.len() as int));
}

/// A prefix's entries stay present in any extension.
proof fn lemma_contains_prefix(s1: Seq<Seq<u8>>, s2: Seq<Seq<u8>>, x: Seq<u8>)
    requires
        s1.is_prefix_of(s2),
        s1.contains(x),
    ensures
        s2.contains(x),
{
    let i = choose|i: int| 0 <= i < s1.len() && s1[i] == x;
    assert(s2[i] == x);
}

/// Soundness of the record survives excusing more ancestors.
proof fn lemma_sound_seen_mono(seen: Seq<Seq<u8>>, anc1: Set<Seq<u8>>, anc2: Set<Seq<u8>>)
    requires
        anc1.subset_of(anc2),
        sound_seen(seen, anc1),
    ensures
        sound_seen(seen, anc2),
{
    assert forall|i: int|
        0 <= i < seen.len() implies anc2.contains(#[trigger] seen[i]) || dead_canon(
        seen[i],
        anc2,
    ) by {
        if !anc2.contains(seen[i]) {
            assert(dead_canon(seen[i], anc1));
            assert forall|x: BoardV, ms: Seq<Move>|
                x.wf() && crate::confluence::distinct_loose(x) && canon(x)
                    == seen[i] implies !#[trigger] wins_avoiding(x, ms, anc2) by {
                if wins_avoiding(x, ms, anc2) {
                    lemma_wins_avoiding_mono(x, ms, anc1, anc2);
                }
            }
        }
    }
}

/// A single exhausted board's dead verdict lifts to every board of its
/// canonical form, by the bisimulation.
proof fn lemma_dead_lift(bd: BoardV, anc: Set<Seq<u8>>)
    requires
        bd.wf(),
        crate::confluence::distinct_loose(bd),
        forall|ms: Seq<Move>| !#[trigger] wins_avoiding(bd, ms, anc),
    ensures
        dead_canon(canon(bd), anc),
{
    assert forall|x: BoardV, ms: Seq<Move>|
        x.wf() && crate::confluence::distinct_loose(x) && canon(x) == canon(
            bd,
        ) implies !#[trigger] wins_avoiding(x, ms, anc) by {
        if wins_avoiding(x, ms, anc) {
            crate::equivalence::lemma_canon_equiv(x, bd);
            crate::equivalence::lemma_wins_avoiding_equiv(x, bd, ms, anc);
            let ms2 = choose|t: Seq<Move>|
                #[trigger] t.len() == ms.len() && wins_avoiding(bd, t, anc);
            assert(!wins_avoiding(bd, ms2, anc));
        }
    }
}

/// Once the board whose canonical form was excused is itself dead, the
/// excuse can be dropped from every other dead verdict.
proof fn lemma_dead_downgrade(c: Seq<u8>, anc: Set<Seq<u8>>, cb: Seq<u8>)
    requires
        dead_canon(c, anc.insert(cb)),
        dead_canon(cb, anc),
    ensures
        dead_canon(c, anc),
{
    assert forall|x: BoardV, ms: Seq<Move>|
        x.wf() && crate::confluence::distinct_loose(x) && canon(x)
            == c implies !#[trigger] wins_avoiding(x, ms, anc) by {
        if wins_avoiding(x, ms, anc) {
            if c == cb {
                assert(!wins_avoiding(x, ms, anc));
            } else {
                lemma_wins_avoiding_extend(x, ms, anc, cb);
                if wins_avoiding(x, ms, anc.insert(cb)) {
                    assert(!wins_avoiding(x, ms, anc.insert(cb)));
                } else {
                    let (y, k): (BoardV, int) = choose|y: BoardV, k: int|
                        1 <= k <= ms.len() && (#[trigger] y.wf())
                            && crate::confluence::distinct_loose(y) && canon(y) == cb
                            && wins_avoiding(y, #[trigger] ms.skip(k), anc);
                    assert(!wins_avoiding(y, ms.skip(k), anc));
                }
            }
        }
    }
}

/// Dropping the root's excuse from a sound record, once the root itself
/// is dead.
proof fn lemma_sound_downgrade(seen: Seq<Seq<u8>>, anc: Set<Seq<u8>>, cb: Seq<u8>)
    requires
        sound_seen(seen, anc.insert(cb)),
        dead_canon(cb, anc),
    ensures
        sound_seen(seen, anc),
{
    assert forall|i: int|
        0 <= i < seen.len() implies anc.contains(#[trigger] seen[i]) || dead_canon(
        seen[i],
        anc,
    ) by {
        if !anc.contains(seen[i]) {
            if seen[i] == cb {
            } else if anc.insert(cb).contains(seen[i]) {
            } else {
                lemma_dead_downgrade(seen[i], anc, cb);
            }
        }
    }
}

/// An unsolved board every one of whose moves leads into a sound record
/// has no winning line outside its own ancestors: the heart of the
/// search's completeness.
proof fn lemma_exhausted_complete(
    b: BoardV,
    seen_final: Seq<Seq<u8>>,
    anc: Set<Seq<u8>>,
    ms: Seq<Move>,
)
    requires
        b.wf(),
        crate::confluence::distinct_loose(b),
        !b.solved(),
        sound_seen(seen_final, anc.insert(canon(b))),
        forall|m: Move| #[trigger] apply_move(b, m) matches Some(d) ==> seen_final.contains(
            canon(force(d)),
        ),
    ensures
        !wins_avoiding(b, ms, anc),
    decreases ms.len(),
{
    if wins_avoiding(b, ms, anc) {
        assert(ms.len() > 0);
        let m = ms[0];
        let d = apply_move(b, m).unwrap();
        let n1 = force(d);
        let tail = ms.drop_first();
        lemma_apply_move_wf(b, m);
        lemma_move_preserves_cards(b, m);
        crate::board::lemma_force_props(d);
        crate::confluence::lemma_force_distinct(d);
        assert(wins_avoiding(n1, tail, anc));
        assert(!anc.contains(canon(n1)));
        assert(seen_final.contains(canon(n1)));
        let i = choose|i: int| 0 <= i < seen_final.len() && seen_final[i] == canon(n1);
        let ancp = anc.insert(canon(b));
        if ancp.contains(canon(n1)) {
            if canon(n1) == canon(b) {
                crate::equivalence::lemma_canon_equiv(n1, b);
                crate::equivalence::lemma_wins_avoiding_equiv(n1, b, tail, anc);
                let ms2 = choose|t: Seq<Move>|
                    #[trigger] t.len() == tail.len() && wins_avoiding(b, t, anc);
                lemma_exhausted_complete(b, seen_final, anc, ms2);
                assert(false);
            } else {
                assert(anc.contains(canon(n1)));
                assert(false);
            }
        } else {
            assert(dead_canon(canon(n1), ancp));
            assert(canon(n1) != canon(b));
            lemma_wins_avoiding_extend(n1, tail, anc, canon(b));
            if wins_avoiding(n1, tail, ancp) {
                assert(!wins_avoiding(n1, tail, ancp));
                assert(false);
            } else {
                let (y, k): (BoardV, int) = choose|y: BoardV, k: int|
                    1 <= k <= tail.len() && (#[trigger] y.wf())
                        && crate::confluence::distinct_loose(y) && canon(y) == canon(b)
                        && wins_avoiding(y, #[trigger] tail.skip(k), anc);
                crate::equivalence::lemma_canon_equiv(y, b);
                crate::equivalence::lemma_wins_avoiding_equiv(y, b, tail.skip(k), anc);
                let ms2 = choose|t: Seq<Move>|
                    #[trigger] t.len() == tail.skip(k).len() && wins_avoiding(b, t, anc);
                lemma_exhausted_complete(b, seen_final, anc, ms2);
                assert(false);
            }
        }
    }
}

/// The canonical forms of the boards already explored in this search, in
/// insertion order.
pub struct SeenBoards {
    canons: Vec<Vec<u8>>,
}

impl View for SeenBoards {
    type V = Seq<Seq<u8>>;

    closed spec fn view(&self) -> Seq<Seq<u8>> {
        deep_rows(self.canons@)
    }
}

impl SeenBoards {
    /// An empty visited set.
    pub fn new() -> (s: Self)
        ensures
            s@ == Seq::<Seq<u8>>::empty(),
            s@.len() == 0,
    {
        let s = SeenBoards { canons: Vec::new() };
        proof {
            assert(s@ =~= Seq::<Seq<u8>>::empty());
        }
        s
    }

    /// Whether this canonical form was recorded before.
    pub fn contains(&self, key: &Vec<u8>) -> (r: bool)
        ensures
            r == self@.contains(key@),
    {
        let mut i: usize = 0;
        while i < self.canons.len()
            invariant
                i <= self.canons@.len(),
                forall|j: int| 0 <= j < i ==> self@[j] != key@,
            decreases self.canons@.len() - i,
        {
            if bytes_eq(&self.canons[i], key) {
                proof {
                    assert(self@[i as int] == key@);
                }
                return true;
            }
            i += 1;
        }
        proof {
            if self@.contains(key@) {
                let j = choose|j: int| 0 <= j < self@.len() && self@[j] == key@;
                assert(self@[j] != key@);
            }
        }
        false
    }

    /// Records a canonical form. The set only ever grows, which is what
    /// bounds the depth of the search.
    pub fn insert(&mut self, key: Vec<u8>)
        ensures
            final(self)@ == old(self)@.push(key@),
            final(self)@.len() == old(self)@.len() + 1,
            final(self)@.len() <= usize::MAX,
    {
        self.canons.push(key);
        let n: usize = self.canons.len();
        proof {
            assert(final(self)@ =~= old(self)@.push(key@));
            assert(n == final(self)@.len());
        }
    }
}

/// Reversing a list that ends in `m` puts `m` first.
proof fn lemma_reverse_push(xs: Seq<Move>, m: Move)
    ensures
        xs.push(m).reverse() =~= seq![m] + xs.reverse(),
{
}

/// The search driver: a board with forcing already applied, explored by
/// depth-first search.
#[derive(Debug)]
pub struct Solver {
    board: Board,
}

impl Solver {
    /// The model of the solver's board.
    pub closed spec fn view(&self) -> BoardV {
        self.board@
    }

    /// The solver's board satisfies the board invariant.
    pub closed spec fn wf(&self) -> bool {
        self.board.wf()
    }

    /// Wraps a board, applying automatic forcing once.
    pub fn new(board: &Board) -> (s: Self)
        requires
            board.wf(),
        ensures
            s.wf(),
            s@ == force(board@),
    {
        let mut new_board = *board;
        new_board.make_automatic_moves();
        Self { board: new_board }
    }

    /// Runs the search from an empty visited set. A returned move list is
    /// proved to win from this solver's board; an already-solved board
    /// yields the empty move list; and on a board whose cards are
    /// distinct — the deal invariant — `None` is proved to mean that no
    /// winning move list exists at all, so success is owed on every
    /// winnable board.
    ///
    /// The search is deterministic — category priority and iteration order
    /// are fixed, and nothing here reads a clock, randomness or the
    /// environment — but the contract leaves open which of several
    /// winning lines is picked; the tests pin the fixed order down on
    /// concrete boards.
    pub fn solution(&self) -> (r: Option<Vec<Move>>)
        requires
            self.wf(),
        ensures
            r matches Some(ms) ==> wins(self@, ms@),
            self@.solved() ==> (r matches Some(ms) && ms@.len() == 0),
            r is None && crate::confluence::distinct_loose(self@) ==> forall|ms: Seq<Move>|
                !#[trigger] wins(self@, ms),
    {
        let mut reversed_solution: Vec<Move> = Vec::new();
        let mut seen = SeenBoards::new();
        let ghost g = crate::confluence::distinct_loose(self@);
        if !self.solve(&mut seen, &mut reversed_solution, Ghost(g), Ghost(Set::empty())) {
            proof {
                if crate::confluence::distinct_loose(self@) {
                    assert forall|ms: Seq<Move>| !#[trigger] wins(self@, ms) by {
                        lemma_wins_avoiding_empty(self@, ms);
                        assert(!wins_avoiding(self@, ms, Set::<Seq<u8>>::empty()));
                    }
                }
            }
            None
        } else {
            let mut forward: Vec<Move> = Vec::new();
            let mut i: usize = reversed_solution.len();
            while i > 0
                invariant
                    i <= reversed_solution@.len(),
                    forward@ =~= reversed_solution@.skip(i as int).reverse(),
                decreases i,
            {
                i -= 1;
                forward.push(reversed_solution[i]);
                proof {
                    assert(forward@ =~= reversed_solution@.skip(i as int).reverse());
                }
            }
            proof {
                assert(reversed_solution@.skip(0) =~= reversed_solution@);
                assert(forward@ =~= reversed_solution@.reverse());
            }
            Some(forward)
        }
    }

    /// One node of the depth-first search: success if the board is
    /// solved, otherwise record it as visited and try each move category
    /// in fixed priority order. Moves are pushed while unwinding, so the
    /// accumulated list holds a winning line in reverse.
    pub fn solve(
        &self,
        seen: &mut SeenBoards,
        moves: &mut Vec<Move>,
        g: Ghost<bool>,
        anc: Ghost<Set<Seq<u8>>>,
    ) -> (r: bool)
        requires
            self.wf(),
            old(seen)@.len() <= usize::MAX,
            g@ ==> crate::confluence::distinct_loose(self@),
            g@ ==> sound_seen(old(seen)@, anc@),
        ensures
            final(seen)@.len() >= old(seen)@.len(),
            final(seen)@.len() <= usize::MAX,
            old(seen)@.is_prefix_of(final(seen)@),
            !r ==> final(moves)@ == old(moves)@,
            r ==> old(moves)@.is_prefix_of(final(moves)@) && wins(
                self@,
                final(moves)@.skip(old(moves)@.len() as int).reverse(),
            ),
            self@.solved() ==> r && final(moves)@ == old(moves)@,
            g@ && !r ==> sound_seen(final(seen)@, anc@) && final(seen)@.contains(canon(self@))
                && (forall|ms: Seq<Move>| !#[trigger] wins_avoiding(self@, ms, anc@)),
        decreases (usize::MAX as int) + 1 - old(seen)@.len(), 0int,
    {
        if self.board.is_solved() {
            proof {
                lemma_prefix_refl(seen@);
                assert(moves@.skip(old(moves)@.len() as int).reverse() =~= Seq::<Move>::empty());
            }
            return true;
        }
        let canon_bytes = self.board.hash_bytes();
        let ghost seen0 = seen@;
        let ghost anc2 = anc@.insert(canon(self@));
        seen.insert(canon_bytes);
        proof {
            assert(seen0.is_prefix_of(seen@)) by {
                assert(seen0 =~= seen@.subrange(0, seen0.len() as int));
            }
            if g@ {
                lemma_sound_seen_mono(seen0, anc@, anc2);
                assert(sound_seen(seen@, anc2)) by {
                    assert forall|i: int|
                        0 <= i < seen@.len() implies anc2.contains(#[trigger] seen@[i])
                        || dead_canon(seen@[i], anc2) by {
                        if i < seen0.len() {
                            assert(seen@[i] == seen0[i]);
                        } else {
                            assert(seen@[i] == canon(self@));
                        }
                    }
                }
            }
        }
        let ghost si = seen@;
        if self.column_to_card_column(seen, moves, g, Ghost(anc2)) {
            proof {
                lemma_prefix_trans(seen0, si, seen@);
            }
            return true;
        }
        let ghost s1 = seen@;
        proof {
            lemma_prefix_trans(seen0, si, s1);
        }
        if self.column_to_empty_column(seen, moves, g, Ghost(anc2)) {
            proof {
                lemma_prefix_trans(seen0, s1, seen@);
            }
            return true;
        }
        let ghost s2 = seen@;
        proof {
            lemma_prefix_trans(seen0, s1, s2);
        }
        if self.column_to_cell(seen, moves, g, Ghost(anc2)) {
            proof {
                lemma_prefix_trans(seen0, s2, seen@);
            }
            return true;
        }
        let ghost s3 = seen@;
        proof {
            lemma_prefix_trans(seen0, s2, s3);
        }
        if self.cell_to_card_column(seen, moves, g, Ghost(anc2)) {
            proof {
                lemma_prefix_trans(seen0, s3, seen@);
            }
            return true;
        }
        let ghost s4 = seen@;
        proof {
            lemma_prefix_trans(seen0, s3, s4);
        }
        if self.cell_to_empty_column(seen, moves, g, Ghost(anc2)) {
            proof {
                lemma_prefix_trans(seen0, s4, seen@);
            }
            return true;
        }
        let ghost s5 = seen@;
        proof {
            lemma_prefix_trans(seen0, s4, s5);
            if g@ {
                lemma_prefix_trans(s1, s2, s3);
                lemma_prefix_trans(s1, s3, s4);
                lemma_prefix_trans(s1, s4, s5);
                lemma_prefix_trans(s2, s3, s4);
                lemma_prefix_trans(s2, s4, s5);
                lemma_prefix_trans(s3, s4, s5);
                assert forall|m: Move| #[trigger] apply_move(self@, m) is Some implies s5.contains(
                    canon(force(apply_move(self@, m).unwrap())),
                ) by {
                    let dd = apply_move(self@, m).unwrap();
                    match m.kind {
                        MoveKind::ColumnToCardColumn => {
                            assert(s1.contains(canon(force(dd))));
                            lemma_contains_prefix(s1, s5, canon(force(dd)));
                        },
                        MoveKind::ColumnToEmptyColumn => {
                            assert(s2.contains(canon(force(dd))));
                            lemma_contains_prefix(s2, s5, canon(force(dd)));
                        },
                        MoveKind::ColumnToCell => {
                            assert(s3.contains(canon(force(dd))));
                            lemma_contains_prefix(s3, s5, canon(force(dd)));
                        },
                        MoveKind::CellToCardColumn => {
                            assert(s4.contains(canon(force(dd))));
                            lemma_contains_prefix(s4, s5, canon(force(dd)));
                        },
                        MoveKind::CellToEmptyColumn => {
                            assert(s5.contains(canon(force(dd))));
                        },
                    }
                }
                assert(forall|m: Move| #[trigger] apply_move(self@, m) matches Some(dd)
                    ==> s5.contains(canon(force(dd))));
                assert forall|ms: Seq<Move>| !#[trigger] wins_avoiding(self@, ms, anc@) by {
                    lemma_exhausted_complete(self@, s5, anc@, ms);
                }
                lemma_dead_lift(self@, anc@);
                lemma_sound_downgrade(s5, anc@, canon(self@));
                assert(si.contains(canon(self@))) by {
                    assert(si[seen0.len() as int] == canon(self@));
                }
                lemma_prefix_trans(si, s1, s2);
                lemma_prefix_trans(si, s2, s3);
                lemma_prefix_trans(si, s3, s4);
                lemma_prefix_trans(si, s4, s5);
                lemma_contains_prefix(si, s5, canon(self@));
            }
        }
        false
    }

    /// Tries every column-to-occupied-column move, sources then
    /// destinations ascending.
    #[verifier::loop_isolation(false)]
    #[verifier::rlimit(50)]
    fn column_to_card_column(
        &self,
        seen: &mut SeenBoards,
        moves: &mut Vec<Move>,
        g: Ghost<bool>,
        anc: Ghost<Set<Seq<u8>>>,
    ) -> (r: bool)
        requires
            self.wf(),
            old(seen)@.len() <= usize::MAX,
            g@ ==> crate::confluence::distinct_loose(self@),
            g@ ==> sound_seen(old(seen)@, anc@),
        ensures
            final(seen)@.len() >= old(seen)@.len(),
            final(seen)@.len() <= usize::MAX,
            old(seen)@.is_prefix_of(final(seen)@),
            !r ==> final(moves)@ == old(moves)@,
            r ==> old(moves)@.is_prefix_of(final(moves)@) && wins(
                self@,
                final(moves)@.skip(old(moves)@.len() as int).reverse(),
            ),
            g@ && !r ==> sound_seen(final(seen)@, anc@) && kind_covered(
                self@,
                MoveKind::ColumnToCardColumn,
                final(seen)@,
            ),
        decreases (usize::MAX as int) + 1 - old(seen)@.len(), 2int,
    {
        proof {
            lemma_prefix_refl(seen@);
        }
        let mut from: usize = 0;
        while from < N_COLUMNS
            invariant
                from <= N_COLUMNS,
                seen@.len() >= old(seen)@.len(),
                seen@.len() <= usize::MAX,
                old(seen)@.is_prefix_of(seen@),
                moves@ == old(moves)@,
                g@ ==> sound_seen(seen@, anc@),
                g@ ==> (forall|m: Move|
                    m.kind == MoveKind::ColumnToCardColumn && (m.from as int) < from ==> (
                    #[trigger] apply_move(self@, m) matches Some(dd) ==> seen@.contains(
                        canon(force(dd)),
                    ))),
            decreases N_COLUMNS - from,
        {
            let mut to: usize = 0;
            while to < N_COLUMNS
                invariant
                    to <= N_COLUMNS,
                    from < N_COLUMNS,
                    seen@.len() >= old(seen)@.len(),
                    seen@.len() <= usize::MAX,
                    old(seen)@.is_prefix_of(seen@),
                    moves@ == old(moves)@,
                    g@ ==> sound_seen(seen@, anc@),
                    g@ ==> (forall|m: Move|
                        m.kind == MoveKind::ColumnToCardColumn && ((m.from as int) < from || (
                        (m.from as int) == from && (m.to as int) < to)) ==> (
                        #[trigger] apply_move(self@, m) matches Some(dd) ==> seen@.contains(
                            canon(force(dd)),
                        ))),
                decreases N_COLUMNS - to,
            {
                let ghost spre = seen@;
                let ghost m0 = Move {
                    kind: MoveKind::ColumnToCardColumn,
                    from: from as u8,
                    to: to as u8,
                };
                if from != to {
                    let mb = self.board.column_to_card_column(from, to);
                    proof {
                        if g@ {
                            match mb {
                                Some(bd) => {
                                    lemma_move_preserves_cards(self@, m0);
                                    crate::confluence::lemma_force_distinct(bd@);
                                },
                                None => {},
                            }
                        }
                    }
                    if Self::helper(
                        mb,
                        MoveKind::ColumnToCardColumn,
                        from,
                        to,
                        seen,
                        moves,
                        g,
                        Ghost(anc@),
                    ) {
                        proof {
                            self.lemma_category_step(
                                mb,
                                MoveKind::ColumnToCardColumn,
                                from as int,
                                to as int,
                                old(moves)@,
                                moves@,
                            );
                            lemma_prefix_trans(old(seen)@, spre, seen@);
                        }
                        return true;
                    }
                    proof {
                        lemma_prefix_trans(old(seen)@, spre, seen@);
                        if g@ {
                            assert forall|m: Move|
                                m.kind == MoveKind::ColumnToCardColumn && ((m.from as int) < from
                                    || ((m.from as int) == from && (m.to as int) < to + 1))
                                implies (#[trigger] apply_move(self@, m) matches Some(dd)
                                ==> seen@.contains(canon(force(dd)))) by {
                                if apply_move(self@, m) is Some {
                                    if m.from as int == from && m.to as int == to {
                                        assert(mb matches Some(bd) && apply_move(self@, m)
                                            == Some(bd@));
                                    } else {
                                        lemma_contains_prefix(
                                            spre,
                                            seen@,
                                            canon(force(apply_move(self@, m).unwrap())),
                                        );
                                    }
                                }
                            }
                        }
                    }
                } else {
                    proof {
                        if g@ {
                            assert(apply_move(self@, m0) is None);
                            assert forall|m: Move|
                                m.kind == MoveKind::ColumnToCardColumn && ((m.from as int) < from
                                    || ((m.from as int) == from && (m.to as int) < to + 1))
                                implies (#[trigger] apply_move(self@, m) matches Some(dd)
                                ==> seen@.contains(canon(force(dd)))) by {}
                        }
                    }
                }
                to += 1;
            }
            from += 1;
        }
        proof {
            if g@ {
                assert(kind_covered(self@, MoveKind::ColumnToCardColumn, seen@)) by {
                    assert forall|m: Move|
                        m.kind == MoveKind::ColumnToCardColumn implies (#[trigger] apply_move(
                        self@,
                        m,
                    ) matches Some(dd) ==> seen@.contains(canon(force(dd)))) by {
                        if apply_move(self@, m) is Some {
                            assert((m.from as int) < N_COLUMNS);
                        }
                    }
                }
            }
        }
        false
    }

    /// Tries moving each column's exposed card to the first empty column,
    /// if there is one: all empty columns are interchangeable, and the
    /// coverage proof shows a move to any other empty column reaches a
    /// position of the same canonical form.
    #[verifier::loop_isolation(false)]
    #[verifier::rlimit(100)]
    fn column_to_empty_column(
        &self,
        seen: &mut SeenBoards,
        moves: &mut Vec<Move>,
        g: Ghost<bool>,
        anc: Ghost<Set<Seq<u8>>>,
    ) -> (r: bool)
        requires
            self.wf(),
            old(seen)@.len() <= usize::MAX,
            g@ ==> crate::confluence::distinct_loose(self@),
            g@ ==> sound_seen(old(seen)@, anc@),
        ensures
            final(seen)@.len() >= old(seen)@.len(),
            final(seen)@.len() <= usize::MAX,
            old(seen)@.is_prefix_of(final(seen)@),
            !r ==> final(moves)@ == old(moves)@,
            r ==> old(moves)@.is_prefix_of(final(moves)@) && wins(
                self@,
                final(moves)@.skip(old(moves)@.len() as int).reverse(),
            ),
            g@ && !r ==> sound_seen(final(seen)@, anc@) && kind_covered(
                self@,
                MoveKind::ColumnToEmptyColumn,
                final(seen)@,
            ),
        decreases (usize::MAX as int) + 1 - old(seen)@.len(), 2int,
    {
        proof {
            lemma_prefix_refl(seen@);
        }
        if let Some(to) = self.board.empty_column() {
            let mut from: usize = 0;
            while from < N_COLUMNS
                invariant
                    from <= N_COLUMNS,
                    to < N_COLUMNS,
                    crate::board::column::count_cards(self@.columns[to as int]) == 0,
                    seen@.len() >= old(seen)@.len(),
                    seen@.len() <= usize::MAX,
                    old(seen)@.is_prefix_of(seen@),
                    moves@ == old(moves)@,
                    g@ ==> sound_seen(seen@, anc@),
                    g@ ==> (forall|m: Move|
                        m.kind == MoveKind::ColumnToEmptyColumn && (m.from as int) < from && (
                        m.to as int) == to ==> (#[trigger] apply_move(self@, m) matches Some(dd)
                            ==> seen@.contains(canon(force(dd))))),
                decreases N_COLUMNS - from,
            {
                let ghost spre = seen@;
                let ghost m0 = Move {
                    kind: MoveKind::ColumnToEmptyColumn,
                    from: from as u8,
                    to: to as u8,
                };
                let mb = self.board.column_to_empty_column(from, to);
                proof {
                    if g@ {
                        match mb {
                            Some(bd) => {
                                lemma_move_preserves_cards(self@, m0);
                                crate::confluence::lemma_force_distinct(bd@);
                            },
                            None => {},
                        }
                    }
                }
                if Self::helper(
                    mb,
                    MoveKind::ColumnToEmptyColumn,
                    from,
                    to,
                    seen,
                    moves,
                    g,
                    Ghost(anc@),
                ) {
                    proof {
                        self.lemma_category_step(
                            mb,
                            MoveKind::ColumnToEmptyColumn,
                            from as int,
                            to as int,
                            old(moves)@,
                            moves@,
                        );
                        lemma_prefix_trans(old(seen)@, spre, seen@);
                    }
                    return true;
                }
                proof {
                    lemma_prefix_trans(old(seen)@, spre, seen@);
                    if g@ {
                        assert forall|m: Move|
                            m.kind == MoveKind::ColumnToEmptyColumn && (m.from as int) < from + 1
                                && (m.to as int) == to implies (#[trigger] apply_move(self@, m)
                            matches Some(dd) ==> seen@.contains(canon(force(dd)))) by {
                            if apply_move(self@, m) is Some {
                                if m.from as int == from {
                                    assert(mb matches Some(bd) && apply_move(self@, m) == Some(
                                        bd@,
                                    ));
                                } else {
                                    lemma_contains_prefix(
                                        spre,
                                        seen@,
                                        canon(force(apply_move(self@, m).unwrap())),
                                    );
                                }
                            }
                        }
                    }
                }
                from += 1;
            }
            proof {
                if g@ {
                    assert forall|m: Move|
                        m.kind == MoveKind::ColumnToEmptyColumn implies (#[trigger] apply_move(
                        self@,
                        m,
                    ) matches Some(dd) ==> seen@.contains(canon(force(dd)))) by {
                        if apply_move(self@, m) is Some {
                            let f = m.from as int;
                            let t = m.to as int;
                            let dm = apply_move(self@, m).unwrap();
                            if t == to as int {
                            } else {
                                let me = Move {
                                    kind: MoveKind::ColumnToEmptyColumn,
                                    from: m.from,
                                    to: to as u8,
                                };
                                assert(apply_move(self@, me) is Some);
                                let de = apply_move(self@, me).unwrap();
                                let rowf = self@.columns[f];
                                let nf = crate::board::column::count_cards(rowf);
                                let rowfp = rowf.update(nf - 1, None);
                                let top = crate::board::column::top_card(rowf);
                                assert(self@.columns[t] =~= self@.columns[to as int]) by {
                                    crate::board::column::lemma_count_cards_contiguous(
                                        self@.columns[t],
                                    );
                                    crate::board::column::lemma_count_cards_contiguous(
                                        self@.columns[to as int],
                                    );
                                }
                                let rowe = self@.columns[t];
                                assert(crate::equivalence::equiv(dm, de)) by {
                                    crate::equivalence::lemma_update_to_multiset(
                                        self@.columns,
                                        f,
                                        rowfp,
                                    );
                                    crate::equivalence::lemma_update_to_multiset(
                                        self@.columns.update(f, rowfp),
                                        t,
                                        rowe.update(0, top),
                                    );
                                    crate::equivalence::lemma_update_to_multiset(
                                        self@.columns.update(f, rowfp),
                                        to as int,
                                        rowe.update(0, top),
                                    );
                                    assert(self@.columns.update(f, rowfp)[t] == self@.columns[t]);
                                    assert(self@.columns.update(f, rowfp)[to as int]
                                        == self@.columns[to as int]);
                                }
                                lemma_apply_move_wf(self@, m);
                                lemma_apply_move_wf(self@, me);
                                lemma_move_preserves_cards(self@, m);
                                crate::equivalence::lemma_force_equiv(dm, de);
                                crate::canon::lemma_canon_permutation_invariant(
                                    force(dm),
                                    force(de),
                                );
                                assert(seen@.contains(canon(force(de))));
                            }
                        }
                    }
                }
            }
        } else {
            proof {
                if g@ {
                    assert forall|m: Move|
                        m.kind == MoveKind::ColumnToEmptyColumn implies (#[trigger] apply_move(
                        self@,
                        m,
                    ) matches Some(dd) ==> seen@.contains(canon(force(dd)))) by {
                        if apply_move(self@, m) is Some {
                            assert(crate::board::column::count_cards(
                                self@.columns[m.to as int],
                            ) > 0);
                        }
                    }
                }
            }
        }
        false
    }

    /// Tries moving each column's exposed card into the first empty cell,
    /// if there is one: all empty cells are interchangeable, and the
    /// coverage proof shows a move into any other empty cell reaches a
    /// position of the same canonical form.
    #[verifier::loop_isolation(false)]
    #[verifier::rlimit(100)]
    fn column_to_cell(
        &self,
        seen: &mut SeenBoards,
        moves: &mut Vec<Move>,
        g: Ghost<bool>,
        anc: Ghost<Set<Seq<u8>>>,
    ) -> (r: bool)
        requires
            self.wf(),
            old(seen)@.len() <= usize::MAX,
            g@ ==> crate::confluence::distinct_loose(self@),
            g@ ==> sound_seen(old(seen)@, anc@),
        ensures
            final(seen)@.len() >= old(seen)@.len(),
            final(seen)@.len() <= usize::MAX,
            old(seen)@.is_prefix_of(final(seen)@),
            !r ==> final(moves)@ == old(moves)@,
            r ==> old(moves)@.is_prefix_of(final(moves)@) && wins(
                self@,
                final(moves)@.skip(old(moves)@.len() as int).reverse(),
            ),
            g@ && !r ==> sound_seen(final(seen)@, anc@) && kind_covered(
                self@,
                MoveKind::ColumnToCell,
                final(seen)@,
            ),
        decreases (usize::MAX as int) + 1 - old(seen)@.len(), 2int,
    {
        proof {
            lemma_prefix_refl(seen@);
        }
        if let Some(to) = self.board.cells.empty_cell_index() {
            let mut from: usize = 0;
            while from < N_COLUMNS
                invariant
                    from <= N_COLUMNS,
                    to < N_CELLS,
                    self@.cells[to as int] is None,
                    seen@.len() >= old(seen)@.len(),
                    seen@.len() <= usize::MAX,
                    old(seen)@.is_prefix_of(seen@),
                    moves@ == old(moves)@,
                    g@ ==> sound_seen(seen@, anc@),
                    g@ ==> (forall|m: Move|
                        m.kind == MoveKind::ColumnToCell && (m.from as int) < from && (
                        m.to as int) == to ==> (#[trigger] apply_move(self@, m) matches Some(dd)
                            ==> seen@.contains(canon(force(dd))))),
                decreases N_COLUMNS - from,
            {
                let ghost spre = seen@;
                let ghost m0 = Move {
                    kind: MoveKind::ColumnToCell,
                    from: from as u8,
                    to: to as u8,
                };
                let mb = self.board.column_to_cell(from, to);
                proof {
                    if g@ {
                        match mb {
                            Some(bd) => {
                                lemma_move_preserves_cards(self@, m0);
                                crate::confluence::lemma_force_distinct(bd@);
                            },
                            None => {},
                        }
                    }
                }
                if Self::helper(mb, MoveKind::ColumnToCell, from, to, seen, moves, g, Ghost(anc@))
                    {
                    proof {
                        self.lemma_category_step(
                            mb,
                            MoveKind::ColumnToCell,
                            from as int,
                            to as int,
                            old(moves)@,
                            moves@,
                        );
                        lemma_prefix_trans(old(seen)@, spre, seen@);
                    }
                    return true;
                }
                proof {
                    lemma_prefix_trans(old(seen)@, spre, seen@);
                    if g@ {
                        assert forall|m: Move|
                            m.kind == MoveKind::ColumnToCell && (m.from as int) < from + 1 && (
                            m.to as int) == to implies (#[trigger] apply_move(self@, m)
                            matches Some(dd) ==> seen@.contains(canon(force(dd)))) by {
                            if apply_move(self@, m) is Some {
                                if m.from as int == from {
                                    assert(mb matches Some(bd) && apply_move(self@, m) == Some(
                                        bd@,
                                    ));
                                } else {
                                    lemma_contains_prefix(
                                        spre,
                                        seen@,
                                        canon(force(apply_move(self@, m).unwrap())),
                                    );
                                }
                            }
                        }
                    }
                }
                from += 1;
            }
            proof {
                if g@ {
                    assert forall|m: Move|
                        m.kind == MoveKind::ColumnToCell implies (#[trigger] apply_move(self@, m)
                        matches Some(dd) ==> seen@.contains(canon(force(dd)))) by {
                        if apply_move(self@, m) is Some {
                            let f = m.from as int;
                            let t = m.to as int;
                            let dm = apply_move(self@, m).unwrap();
                            if t == to as int {
                            } else {
                                let me = Move {
                                    kind: MoveKind::ColumnToCell,
                                    from: m.from,
                                    to: to as u8,
                                };
                                assert(apply_move(self@, me) is Some);
                                let de = apply_move(self@, me).unwrap();
                                let rowf = self@.columns[f];
                                let nf = crate::board::column::count_cards(rowf);
                                let rowfp = rowf.update(nf - 1, None);
                                let top = crate::board::column::top_card(rowf);
                                assert(crate::equivalence::equiv(dm, de)) by {
                                    crate::equivalence::lemma_update_to_multiset(
                                        self@.columns,
                                        f,
                                        rowfp,
                                    );
                                    crate::equivalence::lemma_update_to_multiset(
                                        self@.cells,
                                        t,
                                        top,
                                    );
                                    crate::equivalence::lemma_update_to_multiset(
                                        self@.cells,
                                        to as int,
                                        top,
                                    );
                                }
                                lemma_apply_move_wf(self@, m);
                                lemma_apply_move_wf(self@, me);
                                lemma_move_preserves_cards(self@, m);
                                crate::equivalence::lemma_force_equiv(dm, de);
                                crate::canon::lemma_canon_permutation_invariant(
                                    force(dm),
                                    force(de),
                                );
                                assert(seen@.contains(canon(force(de))));
                            }
                        }
                    }
                }
            }
        } else {
            proof {
                if g@ {
                    assert forall|m: Move|
                        m.kind == MoveKind::ColumnToCell implies (#[trigger] apply_move(self@, m)
                        matches Some(dd) ==> seen@.contains(canon(force(dd)))) by {
                        if apply_move(self@, m) is Some {
                            assert(self@.cells[m.to as int] is Some);
                        }
                    }
                }
            }
        }
        false
    }

    /// Tries every cell-to-occupied-column move, sources then
    /// destinations ascending.
    #[verifier::loop_isolation(false)]
    #[verifier::rlimit(50)]
    fn cell_to_card_column(
        &self,
        seen: &mut SeenBoards,
        moves: &mut Vec<Move>,
        g: Ghost<bool>,
        anc: Ghost<Set<Seq<u8>>>,
    ) -> (r: bool)
        requires
            self.wf(),
            old(seen)@.len() <= usize::MAX,
            g@ ==> crate::confluence::distinct_loose(self@),
            g@ ==> sound_seen(old(seen)@, anc@),
        ensures
            final(seen)@.len() >= old(seen)@.len(),
            final(seen)@.len() <= usize::MAX,
            old(seen)@.is_prefix_of(final(seen)@),
            !r ==> final(moves)@ == old(moves)@,
            r ==> old(moves)@.is_prefix_of(final(moves)@) && wins(
                self@,
                final(moves)@.skip(old(moves)@.len() as int).reverse(),
            ),
            g@ && !r ==> sound_seen(final(seen)@, anc@) && kind_covered(
                self@,
                MoveKind::CellToCardColumn,
                final(seen)@,
            ),
        decreases (usize::MAX as int) + 1 - old(seen)@.len(), 2int,
    {
        proof {
            lemma_prefix_refl(seen@);
        }
        let mut from: usize = 0;
        while from < N_CELLS
            invariant
                from <= N_CELLS,
                seen@.len() >= old(seen)@.len(),
                seen@.len() <= usize::MAX,
                old(seen)@.is_prefix_of(seen@),
                moves@ == old(moves)@,
                g@ ==> sound_seen(seen@, anc@),
                g@ ==> (forall|m: Move|
                    m.kind == MoveKind::CellToCardColumn && (m.from as int) < from ==> (
                    #[trigger] apply_move(self@, m) matches Some(dd) ==> seen@.contains(
                        canon(force(dd)),
                    ))),
            decreases N_CELLS - from,
        {
            let mut to: usize = 0;
            while to < N_COLUMNS
                invariant
                    to <= N_COLUMNS,
                    from < N_CELLS,
                    seen@.len() >= old(seen)@.len(),
                    seen@.len() <= usize::MAX,
                    old(seen)@.is_prefix_of(seen@),
                    moves@ == old(moves)@,
                    g@ ==> sound_seen(seen@, anc@),
                    g@ ==> (forall|m: Move|
                        m.kind == MoveKind::CellToCardColumn && ((m.from as int) < from || ((
                        m.from as int) == from && (m.to as int) < to)) ==> (
                        #[trigger] apply_move(self@, m) matches Some(dd) ==> seen@.contains(
                            canon(force(dd)),
                        ))),
                decreases N_COLUMNS - to,
            {
                let ghost spre = seen@;
                let ghost m0 = Move {
                    kind: MoveKind::CellToCardColumn,
                    from: from as u8,
                    to: to as u8,
                };
                let mb = self.board.cell_to_card_column(from, to);
                proof {
                    if g@ {
                        match mb {
                            Some(bd) => {
                                lemma_move_preserves_cards(self@, m0);
                                crate::confluence::lemma_force_distinct(bd@);
                            },
                            None => {},
                        }
                    }
                }
                if Self::helper(
                    mb,
                    MoveKind::CellToCardColumn,
                    from,
                    to,
                    seen,
                    moves,
                    g,
                    Ghost(anc@),
                ) {
                    proof {
                        self.lemma_category_step(
                            mb,
                            MoveKind::CellToCardColumn,
                            from as int,
                            to as int,
                            old(moves)@,
                            moves@,
                        );
                        lemma_prefix_trans(old(seen)@, spre, seen@);
                    }
                    return true;
                }
                proof {
                    lemma_prefix_trans(old(seen)@, spre, seen@);
                    if g@ {
                        assert forall|m: Move|
                            m.kind == MoveKind::CellToCardColumn && ((m.from as int) < from || ((
                            m.from as int) == from && (m.to as int) < to + 1)) implies (
                        #[trigger] apply_move(self@, m) matches Some(dd) ==> seen@.contains(
                            canon(force(dd)),
                        )) by {
                            if apply_move(self@, m) is Some {
                                if m.from as int == from && m.to as int == to {
                                    assert(mb matches Some(bd) && apply_move(self@, m) == Some(
                                        bd@,
                                    ));
                                } else {
                                    lemma_contains_prefix(
                                        spre,
                                        seen@,
                                        canon(force(apply_move(self@, m).unwrap())),
                                    );
                                }
                            }
                        }
                    }
                }
                to += 1;
            }
            from += 1;
        }
        proof {
            if g@ {
                assert forall|m: Move|
                    m.kind == MoveKind::CellToCardColumn implies (#[trigger] apply_move(self@, m)
                    matches Some(dd) ==> seen@.contains(canon(force(dd)))) by {
                    if apply_move(self@, m) is Some {
                        assert((m.from as int) < N_CELLS);
                    }
                }
            }
        }
        false
    }

    /// Tries moving each cell's card to the first empty column, if there
    /// is one: all empty columns are interchangeable, as for the
    /// column-to-empty-column moves.
    #[verifier::loop_isolation(false)]
    #[verifier::rlimit(100)]
    fn cell_to_empty_column(
        &self,
        seen: &mut SeenBoards,
        moves: &mut Vec<Move>,
        g: Ghost<bool>,
        anc: Ghost<Set<Seq<u8>>>,
    ) -> (r: bool)
        requires
            self.wf(),
            old(seen)@.len() <= usize::MAX,
            g@ ==> crate::confluence::distinct_loose(self@),
            g@ ==> sound_seen(old(seen)@, anc@),
        ensures
            final(seen)@.len() >= old(seen)@.len(),
            final(seen)@.len() <= usize::MAX,
            old(seen)@.is_prefix_of(final(seen)@),
            !r ==> final(moves)@ == old(moves)@,
            r ==> old(moves)@.is_prefix_of(final(moves)@) && wins(
                self@,
                final(moves)@.skip(old(moves)@.len() as int).reverse(),
            ),
            g@ && !r ==> sound_seen(final(seen)@, anc@) && kind_covered(
                self@,
                MoveKind::CellToEmptyColumn,
                final(seen)@,
            ),
        decreases (usize::MAX as int) + 1 - old(seen)@.len(), 2int,
    {
        proof {
            lemma_prefix_refl(seen@);
        }
        if let Some(to) = self.board.empty_column() {
            let mut from: usize = 0;
            while from < N_CELLS
                invariant
                    from <= N_CELLS,
                    to < N_COLUMNS,
                    crate::board::column::count_cards(self@.columns[to as int]) == 0,
                    seen@.len() >= old(seen)@.len(),
                    seen@.len() <= usize::MAX,
                    old(seen)@.is_prefix_of(seen@),
                    moves@ == old(moves)@,
                    g@ ==> sound_seen(seen@, anc@),
                    g@ ==> (forall|m: Move|
                        m.kind == MoveKind::CellToEmptyColumn && (m.from as int) < from && (
                        m.to as int) == to ==> (#[trigger] apply_move(self@, m) matches Some(dd)
                            ==> seen@.contains(canon(force(dd))))),
                decreases N_CELLS - from,
            {
                let ghost spre = seen@;
                let ghost m0 = Move {
                    kind: MoveKind::CellToEmptyColumn,
                    from: from as u8,
                    to: to as u8,
                };
                let mb = self.board.cell_to_empty_column(from, to);
                proof {
                    if g@ {
                        match mb {
                            Some(bd) => {
                                lemma_move_preserves_cards(self@, m0);
                                crate::confluence::lemma_force_distinct(bd@);
                            },
                            None => {},
                        }
                    }
                }
                if Self::helper(
                    mb,
                    MoveKind::CellToEmptyColumn,
                    from,
                    to,
                    seen,
                    moves,
                    g,
                    Ghost(anc@),
                ) {
                    proof {
                        self.lemma_category_step(
                            mb,
                            MoveKind::CellToEmptyColumn,
                            from as int,
                            to as int,
                            old(moves)@,
                            moves@,
                        );
                        lemma_prefix_trans(old(seen)@, spre, seen@);
                    }
                    return true;
                }
                proof {
                    lemma_prefix_trans(old(seen)@, spre, seen@);
                    if g@ {
                        assert forall|m: Move|
                            m.kind == MoveKind::CellToEmptyColumn && (m.from as int) < from + 1
                                && (m.to as int) == to implies (#[trigger] apply_move(self@, m)
                            matches Some(dd) ==> seen@.contains(canon(force(dd)))) by {
                            if apply_move(self@, m) is Some {
                                if m.from as int == from {
                                    assert(mb matches Some(bd) && apply_move(self@, m) == Some(
                                        bd@,
                                    ));
                                } else {
                                    lemma_contains_prefix(
                                        spre,
                                        seen@,
                                        canon(force(apply_move(self@, m).unwrap())),
                                    );
                                }
                            }
                        }
                    }
                }
                from += 1;
            }
            proof {
                if g@ {
                    assert forall|m: Move|
                        m.kind == MoveKind::CellToEmptyColumn implies (#[trigger] apply_move(
                        self@,
                        m,
                    ) matches Some(dd) ==> seen@.contains(canon(force(dd)))) by {
                        if apply_move(self@, m) is Some {
                            let f = m.from as int;
                            let t = m.to as int;
                            let dm = apply_move(self@, m).unwrap();
                            if t == to as int {
                            } else {
                                let me = Move {
                                    kind: MoveKind::CellToEmptyColumn,
                                    from: m.from,
                                    to: to as u8,
                                };
                                assert(apply_move(self@, me) is Some);
                                let de = apply_move(self@, me).unwrap();
                                let slot = self@.cells[f];
                                assert(self@.columns[t] =~= self@.columns[to as int]) by {
                                    crate::board::column::lemma_count_cards_contiguous(
                                        self@.columns[t],
                                    );
                                    crate::board::column::lemma_count_cards_contiguous(
                                        self@.columns[to as int],
                                    );
                                }
                                let rowe = self@.columns[t];
                                assert(crate::equivalence::equiv(dm, de)) by {
                                    crate::equivalence::lemma_update_to_multiset(
                                        self@.cells,
                                        f,
                                        None,
                                    );
                                    crate::equivalence::lemma_update_to_multiset(
                                        self@.columns,
                                        t,
                                        rowe.update(0, slot),
                                    );
                                    crate::equivalence::lemma_update_to_multiset(
                                        self@.columns,
                                        to as int,
                                        rowe.update(0, slot),
                                    );
                                }
                                lemma_apply_move_wf(self@, m);
                                lemma_apply_move_wf(self@, me);
                                lemma_move_preserves_cards(self@, m);
                                crate::equivalence::lemma_force_equiv(dm, de);
                                crate::canon::lemma_canon_permutation_invariant(
                                    force(dm),
                                    force(de),
                                );
                                assert(seen@.contains(canon(force(de))));
                            }
                        }
                    }
                }
            }
        } else {
            proof {
                if g@ {
                    assert forall|m: Move|
                        m.kind == MoveKind::CellToEmptyColumn implies (#[trigger] apply_move(
                        self@,
                        m,
                    ) matches Some(dd) ==> seen@.contains(canon(force(dd)))) by {
                        if apply_move(self@, m) is Some {
                            assert(crate::board::column::count_cards(
                                self@.columns[m.to as int],
                            ) > 0);
                        }
                    }
                }
            }
        }
        false
    }

    /// What a successful call of `helper` yields for its caller: the
    /// whole appended move run, reversed, wins from the solver's board.
    proof fn lemma_category_step(
        &self,
        mb: Option<Board>,
        kind: MoveKind,
        from: int,
        to: int,
        before: Seq<Move>,
        after: Seq<Move>,
    )
        requires
            0 <= from < 256,
            0 <= to < 256,
            mb matches Some(b) && apply_move(
                self@,
                Move { kind, from: from as u8, to: to as u8 },
            ) == Some(b@),
            before.is_prefix_of(after),
            after.len() > before.len(),
            after.last() == (Move { kind, from: from as u8, to: to as u8 }),
            mb matches Some(b) ==> wins(
                force(b@),
                after.subrange(before.len() as int, after.len() - 1).reverse(),
            ),
        ensures
            wins(self@, after.skip(before.len() as int).reverse()),
    {
        let m = Move { kind, from: from as u8, to: to as u8 };
        let delta = after.skip(before.len() as int);
        let dropped = after.subrange(before.len() as int, after.len() - 1);
        assert(delta =~= dropped.push(m));
        lemma_reverse_push(dropped, m);
        let rev = delta.reverse();
        assert(rev == seq![m] + dropped.reverse());
        assert(rev[0] == m);
        assert(rev.drop_first() =~= dropped.reverse());
        let b = mb.unwrap();
        assert(apply_move(self@, rev[0]) == Some(b@));
        assert(wins(self@, rev));
    }

    /// Explores one candidate board: skip it when its canonical form was
    /// seen, otherwise force it and search on; on success the move that
    /// produced it is pushed while unwinding.
    fn helper(
        maybe_board: Option<Board>,
        kind: MoveKind,
        from: usize,
        to: usize,
        seen: &mut SeenBoards,
        moves: &mut Vec<Move>,
        g: Ghost<bool>,
        anc: Ghost<Set<Seq<u8>>>,
    ) -> (r: bool)
        requires
            maybe_board matches Some(b) ==> b.wf(),
            from < 256,
            to < 256,
            old(seen)@.len() <= usize::MAX,
            g@ ==> (maybe_board matches Some(b) ==> crate::confluence::distinct_loose(
                force(b@),
            )),
            g@ ==> sound_seen(old(seen)@, anc@),
        ensures
            final(seen)@.len() >= old(seen)@.len(),
            final(seen)@.len() <= usize::MAX,
            old(seen)@.is_prefix_of(final(seen)@),
            !r ==> final(moves)@ == old(moves)@,
            r ==> (maybe_board matches Some(b) && old(moves)@.is_prefix_of(final(moves)@)
                && final(moves)@.len() > old(moves)@.len() && final(moves)@.last() == (Move {
                kind,
                from: from as u8,
                to: to as u8,
            }) && wins(
                force(b@),
                final(moves)@.subrange(
                    old(moves)@.len() as int,
                    final(moves)@.len() - 1,
                ).reverse(),
            )),
            g@ && !r ==> sound_seen(final(seen)@, anc@) && (maybe_board matches Some(b)
                ==> final(seen)@.contains(canon(force(b@)))),
        decreases (usize::MAX as int) + 1 - old(seen)@.len(), 1int,
    {
        match maybe_board {
            None => {
                proof {
                    lemma_prefix_refl(seen@);
                }
                false
            },
            Some(board) => {
                // The resulting board has automatic forcing folded in; its
                // canonical form is what the visited set records and tests.
                let child = Solver::new(&board);
                let canon_bytes = child.board.hash_bytes();
                if seen.contains(&canon_bytes) {
                    proof {
                        lemma_prefix_refl(seen@);
                    }
                    return false;
                }
                if child.solve(seen, moves, g, anc) {
                    let ghost mid = moves@;
                    moves.push(Move { kind, from: from as u8, to: to as u8 });
                    proof {
                        assert(moves@.subrange(old(moves)@.len() as int, moves@.len() - 1)
                            =~= mid.skip(old(moves)@.len() as int));
                    }
                    true
                } else {
                    false
                }
            },
        }
    }
}

} // verus!
