use freecell::board::cells::Cells;
use freecell::board::column::Column;
use freecell::board::column::MAX_COLUMN_SIZE;
use freecell::board::foundation::Foundation;
use freecell::board::Board;
use freecell::board::N_COLUMNS;
use freecell::card::Card;

fn card(suit: usize, rank: usize) -> Card {
    Card::for_suit_and_rank(suit, rank)
}

fn empty_board() -> Board {
    Board { foundation: Foundation::new(), cells: Cells::new(), columns: [Column::new(); N_COLUMNS] }
}

fn column_of(cards: &[Card]) -> Column {
    let mut col = Column::new();
    for (i, c) in cards.iter().enumerate() {
        col.cards[i] = Some(*c);
    }
    col
}

/// All card values on the board outside the foundations, sorted.
fn loose_values(b: &Board) -> Vec<u8> {
    let mut values = Vec::new();
    for col in b.columns.iter() {
        for slot in col.cards.iter() {
            if let Some(c) = slot {
                values.push(c.value);
            }
        }
    }
    for slot in b.cells.cards.iter() {
        if let Some(c) = slot {
            values.push(c.value);
        }
    }
    values.sort();
    values
}

#[test]
fn top_card_and_index_of_stack() {
    let col = column_of(&[card(0, 2), card(0, 1)]);
    assert_eq!(col.top_card_and_index(), (Some(card(0, 1)), 1));
    assert_eq!(Column::new().top_card_and_index(), (None, 0));
}

#[test]
fn empty_column_finds_first_fully_empty() {
    let mut b = empty_board();
    assert_eq!(b.empty_column(), Some(0));
    b.columns[0] = column_of(&[card(0, 5)]);
    assert_eq!(b.empty_column(), Some(1));
    for i in 0..N_COLUMNS {
        b.columns[i] = column_of(&[card(0, 5)]);
    }
    assert_eq!(b.empty_column(), None);
}

#[test]
fn empty_cell_index_finds_first_empty() {
    let mut cells = Cells::new();
    assert_eq!(cells.empty_cell_index(), Some(0));
    cells.cards[0] = Some(card(1, 3));
    assert_eq!(cells.empty_cell_index(), Some(1));
    for i in 0..8 {
        cells.cards[i] = Some(card(1, 3));
    }
    assert_eq!(cells.empty_cell_index(), None);
}

#[test]
fn column_to_card_column_follows_adjacency() {
    let mut b = empty_board();
    b.columns[0] = column_of(&[card(0, 1)]);
    b.columns[1] = column_of(&[card(0, 2)]);

    let moved = b.column_to_card_column(0, 1).expect("adjacent move must exist");
    assert_eq!(moved.columns[0].cards[0], None);
    assert_eq!(moved.columns[1].cards[0], Some(card(0, 2)));
    assert_eq!(moved.columns[1].cards[1], Some(card(0, 1)));

    assert!(b.column_to_card_column(1, 0).is_none());
    assert!(b.column_to_card_column(0, 2).is_none());
    assert!(b.column_to_card_column(2, 1).is_none());
}

#[test]
fn column_to_empty_column_moves_top() {
    let mut b = empty_board();
    b.columns[0] = column_of(&[card(2, 7), card(2, 6)]);

    let moved = b.column_to_empty_column(0, 3).expect("move to empty column must exist");
    assert_eq!(moved.columns[0].cards[0], Some(card(2, 7)));
    assert_eq!(moved.columns[0].cards[1], None);
    assert_eq!(moved.columns[3].cards[0], Some(card(2, 6)));

    assert!(b.column_to_empty_column(1, 3).is_none());
}

#[test]
fn column_to_cell_moves_top() {
    let mut b = empty_board();
    b.columns[0] = column_of(&[card(1, 4)]);

    let moved = b.column_to_cell(0, 5).expect("move to cell must exist");
    assert_eq!(moved.columns[0].cards[0], None);
    assert_eq!(moved.cells.cards[5], Some(card(1, 4)));

    assert!(b.column_to_cell(1, 5).is_none());
}

#[test]
fn cell_to_card_column_follows_adjacency() {
    let mut b = empty_board();
    b.cells.cards[2] = Some(card(0, 1));
    b.columns[1] = column_of(&[card(0, 2)]);

    let moved = b.cell_to_card_column(2, 1).expect("adjacent move must exist");
    assert_eq!(moved.cells.cards[2], None);
    assert_eq!(moved.columns[1].cards[1], Some(card(0, 1)));

    assert!(b.cell_to_card_column(2, 0).is_none());
    assert!(b.cell_to_card_column(0, 1).is_none());
}

#[test]
fn cell_to_empty_column_moves_card() {
    let mut b = empty_board();
    b.cells.cards[4] = Some(card(3, 8));

    let moved = b.cell_to_empty_column(4, 7).expect("move to empty column must exist");
    assert_eq!(moved.cells.cards[4], None);
    assert_eq!(moved.columns[7].cards[0], Some(card(3, 8)));

    assert!(b.cell_to_empty_column(0, 7).is_none());
}

#[test]
fn moves_preserve_the_loose_card_multiset() {
    let mut b = empty_board();
    b.columns[0] = column_of(&[card(0, 4), card(0, 2)]);
    b.columns[1] = column_of(&[card(0, 3)]);
    b.cells.cards[0] = Some(card(1, 9));

    let before = loose_values(&b);
    let after_col = b.column_to_card_column(0, 1).unwrap();
    assert_eq!(loose_values(&after_col), before);
    assert_eq!(after_col.foundation.cards, b.foundation.cards);

    let after_cell = b.column_to_cell(0, 1).unwrap();
    assert_eq!(loose_values(&after_cell), before);
}

#[test]
fn automatic_moves_reach_the_fixed_point() {
    let mut b = empty_board();
    // An ascending spade run exposed bottom-up: everything promotes.
    b.columns[0] = column_of(&[card(0, 1), card(0, 0)]);

    b.make_automatic_moves();
    assert_eq!(b.foundation.cards[0], Some(card(0, 1)));
    assert_eq!(b.columns[0].cards[0], None);
}

#[test]
fn automatic_moves_promote_a_lone_ace_from_a_cell() {
    let mut b = empty_board();
    b.cells.cards[3] = Some(card(0, 0));

    b.make_automatic_moves();
    assert_eq!(b.foundation.cards[0], Some(card(0, 0)));
    assert_eq!(b.cells.cards[3], None);
}

#[test]
fn automatic_moves_leave_ineligible_cards() {
    let mut b = empty_board();
    // A two with no ace anywhere is not eligible.
    b.columns[0] = column_of(&[card(0, 1)]);

    b.make_automatic_moves();
    assert_eq!(b.foundation.cards[0], None);
    assert_eq!(b.columns[0].cards[0], Some(card(0, 1)));
}

#[test]
fn is_solved_requires_every_pile_at_highest_rank() {
    let mut b = empty_board();
    assert!(!b.is_solved());
    for s in 0..4 {
        b.foundation.cards[s] = Some(card(s, 12));
    }
    assert!(b.is_solved());
    b.foundation.cards[2] = Some(card(2, 11));
    assert!(!b.is_solved());
}

#[test]
fn canonical_bytes_are_exact() {
    // Foundation bytes in suit order, cell bytes sorted ascending, then
    // the column rows sorted; 255 stands for an empty slot.
    let b = empty_board();
    assert_eq!(b.hash_bytes(), vec![255u8; 4 + 8 + 8 * MAX_COLUMN_SIZE]);

    let mut b2 = empty_board();
    b2.foundation.cards[1] = Some(card(1, 0));
    b2.cells.cards[6] = Some(card(0, 0));
    b2.columns[7] = column_of(&[card(3, 12)]);

    let mut expected = vec![255u8, 2, 255, 255];
    expected.push(1);
    expected.extend(std::iter::repeat(255u8).take(7));
    // The occupied row sorts before the empty rows: 52 comes before 255.
    expected.push(52u8);
    expected.extend(std::iter::repeat(255u8).take(MAX_COLUMN_SIZE - 1));
    for _ in 0..7 {
        expected.extend(std::iter::repeat(255u8).take(MAX_COLUMN_SIZE));
    }
    assert_eq!(b2.hash_bytes(), expected);
}

#[test]
fn boards_differing_by_cell_permutation_are_equal() {
    let mut b1 = empty_board();
    let mut b2 = empty_board();
    b1.cells.cards[0] = Some(card(1, 6));
    b1.cells.cards[1] = Some(card(2, 3));
    b2.cells.cards[7] = Some(card(1, 6));
    b2.cells.cards[4] = Some(card(2, 3));

    assert!(b1 == b2);
    assert_eq!(b1.hash_bytes(), b2.hash_bytes());
}

#[test]
fn boards_differing_by_column_identity_are_equal() {
    let mut b1 = empty_board();
    let mut b2 = empty_board();
    b1.columns[0] = column_of(&[card(0, 5), card(0, 4)]);
    b1.columns[2] = column_of(&[card(3, 8)]);
    b2.columns[6] = column_of(&[card(0, 5), card(0, 4)]);
    b2.columns[1] = column_of(&[card(3, 8)]);

    assert!(b1 == b2);
    assert_eq!(b1.hash_bytes(), b2.hash_bytes());
}

#[test]
fn boards_with_different_contents_differ() {
    let mut b1 = empty_board();
    let mut b2 = empty_board();
    b1.columns[0] = column_of(&[card(0, 5)]);
    b2.columns[0] = column_of(&[card(0, 6)]);

    assert!(b1 != b2);

    // Order inside one column carries meaning: no column permutation
    // relates these two boards.
    let mut b3 = empty_board();
    let mut b4 = empty_board();
    b3.columns[0] = column_of(&[card(0, 5), card(0, 4)]);
    b4.columns[0] = column_of(&[card(0, 4), card(0, 5)]);
    assert!(b3 != b4);
}

#[test]
fn equality_is_an_equivalence_on_sample_boards() {
    let mut b1 = empty_board();
    let mut b2 = empty_board();
    let mut b3 = empty_board();
    b1.cells.cards[0] = Some(card(1, 6));
    b2.cells.cards[3] = Some(card(1, 6));
    b3.cells.cards[6] = Some(card(1, 6));

    assert!(b1 == b1);
    assert!(b1 == b2 && b2 == b1);
    assert!(b1 == b2 && b2 == b3 && b1 == b3);
}

#[test]
fn card_from_line_reads_pairs_by_column() {
    assert_eq!(Board::card_from_line_indexed_by_column("AS 2C", 0), Some(card(0, 0)));
    assert_eq!(Board::card_from_line_indexed_by_column("AS 2C", 1), Some(card(1, 1)));
    assert_eq!(Board::card_from_line_indexed_by_column("AS", 1), None);
    assert_eq!(Board::card_from_line_indexed_by_column("      KH", 0), None);
    assert_eq!(Board::card_from_line_indexed_by_column("      KH", 2), Some(card(3, 12)));
}

#[test]
fn set_cells_fills_from_the_cell_line() {
    let mut cells = Cells::new();
    Board::set_cells(&mut cells, "AS    2C");
    assert_eq!(cells.cards[0], Some(card(0, 0)));
    assert_eq!(cells.cards[1], None);
    assert_eq!(cells.cards[2], Some(card(1, 1)));
    for i in 3..8 {
        assert_eq!(cells.cards[i], None);
    }
}

#[test]
fn foundation_card_is_read_from_designated_rows() {
    let mut foundation = Foundation::new();
    // Rank sits at character 25, suit at 26; row 1 carries the spade pile.
    let line = format!("{}AS", " ".repeat(25));
    Board::optionally_add_foundation_card(&mut foundation, 1, &line);
    assert_eq!(foundation.cards[0], Some(card(0, 0)));

    // Rows outside the designated range leave the piles alone.
    let line2 = format!("{}KH", " ".repeat(25));
    Board::optionally_add_foundation_card(&mut foundation, 0, &line2);
    Board::optionally_add_foundation_card(&mut foundation, 5, &line2);
    assert_eq!(foundation.cards, [Some(card(0, 0)), None, None, None]);
}

#[test]
fn rendering_prints_rows_cells_and_foundations() {
    let blank_row = " ".repeat(23);
    let b = empty_board();
    let mut expected = String::new();
    for _ in 0..5 {
        expected.push_str(&blank_row);
        expected.push('\n');
    }
    expected.push('\n');
    expected.push_str(&blank_row);
    assert_eq!(b.to_s(), expected);

    let mut b2 = empty_board();
    b2.columns[0] = column_of(&[card(3, 12)]);
    b2.foundation.cards[1] = Some(card(1, 3));
    b2.cells.cards[0] = Some(card(0, 9));
    let rendered = b2.to_s();
    let lines: Vec<&str> = rendered.split('\n').collect();
    assert_eq!(lines[0], format!("KH{}", " ".repeat(21)));
    assert_eq!(lines[2], format!("{}  4C", blank_row));
    assert_eq!(lines[6], format!("TS{}", " ".repeat(21)));
}

#[test]
fn column_capacity_is_rule_derived() {
    assert_eq!(MAX_COLUMN_SIZE, 17);
}
