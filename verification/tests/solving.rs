use freecell::board::cells::Cells;
use freecell::board::column::Column;
use freecell::board::foundation::Foundation;
use freecell::board::Board;
use freecell::board::N_COLUMNS;
use freecell::card::Card;
use freecell::solver::Move;
use freecell::solver::MoveKind;
use freecell::solver::Solver;

fn card(suit: usize, rank: usize) -> Card {
    Card::for_suit_and_rank(suit, rank)
}

fn empty_board() -> Board {
    Board { foundation: Foundation::new(), cells: Cells::new(), columns: [Column::new(); N_COLUMNS] }
}

fn column_of(cards: &[Card]) -> Column {
    let mut col = Column::new();
    for (i, c) in cards.iter().enumerate() {
        col.cards[i] = Some(*c);
    }
    col
}

#[test]
fn solved_board_yields_the_empty_solution() {
    let mut b = empty_board();
    for s in 0..4 {
        b.foundation.cards[s] = Some(card(s, 12));
    }
    let solution = Solver::new(&b).solution();
    assert_eq!(solution, Some(vec![]));
}

#[test]
fn forcing_alone_can_finish_a_board() {
    // One king in a cell, its pile one rank short: automatic forcing
    // completes the board, so zero search moves are needed.
    let mut b = empty_board();
    b.foundation.cards[0] = Some(card(0, 11));
    for s in 1..4 {
        b.foundation.cards[s] = Some(card(s, 12));
    }
    b.cells.cards[2] = Some(card(0, 12));

    let solution = Solver::new(&b).solution();
    assert_eq!(solution, Some(vec![]));
}

/// Spades rest at the jack; the queen and king are buried under hearts,
/// every other slot is blocked by a card that can neither be promoted
/// nor stacked, and no two loose cards are equal — the deal invariant
/// under which the solver's verdict is proved complete.
fn three_move_board() -> Board {
    let mut b = empty_board();
    b.foundation.cards[0] = Some(card(0, 10));
    b.foundation.cards[1] = Some(card(1, 12));
    b.foundation.cards[2] = Some(card(2, 12));
    b.foundation.cards[3] = Some(card(3, 12));
    b.columns[0] = column_of(&[card(0, 11), card(3, 11)]);
    b.columns[1] = column_of(&[card(0, 12), card(3, 10)]);
    b.columns[2] = column_of(&[card(1, 9)]);
    b.columns[3] = column_of(&[card(2, 9)]);
    b.columns[4] = column_of(&[card(1, 7)]);
    b.columns[5] = column_of(&[card(2, 7)]);
    b.columns[6] = column_of(&[card(1, 5)]);
    b.columns[7] = column_of(&[card(2, 5)]);
    b.cells.cards[0] = Some(card(1, 10));
    b.cells.cards[1] = Some(card(1, 11));
    b.cells.cards[2] = Some(card(2, 10));
    b.cells.cards[3] = Some(card(2, 11));
    b.cells.cards[4] = Some(card(3, 6));
    b.cells.cards[5] = Some(card(3, 7));
    b
}

#[test]
fn known_three_move_line_is_found_exactly() {
    // The fixed category and iteration order admit exactly one winning
    // line of three moves.
    let b = three_move_board();
    let solution = Solver::new(&b).solution().expect("this board is winnable");
    assert_eq!(
        solution,
        vec![
            Move { kind: MoveKind::ColumnToCardColumn, from: 1, to: 0 },
            Move { kind: MoveKind::ColumnToCell, from: 0, to: 6 },
            Move { kind: MoveKind::ColumnToCell, from: 0, to: 7 },
        ]
    );
}

#[test]
fn structurally_unreachable_card_yields_no_solution() {
    // The king of spades is buried under a queen of hearts that can never
    // be relocated: every cell is occupied by a card that can never be
    // promoted, no column is empty, and nothing stacks on anything.
    let mut b = empty_board();
    b.foundation.cards[0] = Some(card(0, 11));
    b.foundation.cards[1] = Some(card(1, 12));
    b.foundation.cards[2] = Some(card(2, 12));
    b.foundation.cards[3] = Some(card(3, 12));
    b.columns[0] = column_of(&[card(0, 12), card(3, 11)]);
    for i in 1..N_COLUMNS {
        b.columns[i] = column_of(&[card(0, 11)]);
    }
    for i in 0..8 {
        b.cells.cards[i] = Some(card(3, 11));
    }

    assert_eq!(Solver::new(&b).solution(), None);
}

#[test]
fn one_move_win_is_found() {
    // The king of spades only needs the buried queen exposed once.
    let mut b = empty_board();
    b.foundation.cards[0] = Some(card(0, 10));
    b.foundation.cards[1] = Some(card(1, 12));
    b.foundation.cards[2] = Some(card(2, 12));
    b.foundation.cards[3] = Some(card(3, 12));
    b.columns[0] = column_of(&[card(0, 11), card(0, 12)]);

    let solution = Solver::new(&b).solution().expect("this board is winnable");
    assert_eq!(
        solution,
        vec![Move { kind: MoveKind::ColumnToEmptyColumn, from: 0, to: 1 }]
    );
}

fn apply(board: &Board, m: &Move) -> Board {
    let mut b = match m.kind {
        MoveKind::ColumnToCardColumn => board.column_to_card_column(m.from as usize, m.to as usize),
        MoveKind::ColumnToEmptyColumn => {
            board.column_to_empty_column(m.from as usize, m.to as usize)
        }
        MoveKind::ColumnToCell => board.column_to_cell(m.from as usize, m.to as usize),
        MoveKind::CellToCardColumn => board.cell_to_card_column(m.from as usize, m.to as usize),
        MoveKind::CellToEmptyColumn => board.cell_to_empty_column(m.from as usize, m.to as usize),
    }
    .expect("every move of a solution must be legal");
    b.make_automatic_moves();
    b
}

#[test]
fn returned_solutions_replay_to_a_solved_board() {
    let b = three_move_board();
    let solution = Solver::new(&b).solution().expect("this board is winnable");
    let mut replayed = b;
    replayed.make_automatic_moves();
    for m in solution.iter() {
        assert!(!replayed.is_solved());
        replayed = apply(&replayed, m);
    }
    assert!(replayed.is_solved());
}

#[test]
fn full_destination_column_admits_no_move() {
    // A destination at capacity turns even an adjacent placement into
    // "no such move".
    let mut b = empty_board();
    let mut full = Vec::new();
    for _ in 0..16 {
        full.push(card(1, 12));
    }
    full.push(card(0, 5));
    b.columns[0] = column_of(&full);
    b.columns[1] = column_of(&[card(0, 4)]);
    b.cells.cards[0] = Some(card(0, 4));

    assert_eq!(b.columns[0].top_card_and_index(), (Some(card(0, 5)), 16));
    assert!(b.column_to_card_column(1, 0).is_none());
    assert!(b.cell_to_card_column(0, 0).is_none());
}

#[test]
fn solver_applies_forcing_on_construction() {
    // An exposed ace is promoted before the search begins; the remaining
    // board needs no further moves once every other pile is complete.
    let mut b = empty_board();
    b.foundation.cards[0] = Some(card(0, 11));
    b.foundation.cards[1] = Some(card(1, 12));
    b.foundation.cards[2] = Some(card(2, 12));
    b.foundation.cards[3] = Some(card(3, 12));
    b.columns[4] = column_of(&[card(0, 12)]);

    assert_eq!(Solver::new(&b).solution(), Some(vec![]));
}
