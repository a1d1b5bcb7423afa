use freecell::card::Card;

fn card(suit: usize, rank: usize) -> Card {
    Card::for_suit_and_rank(suit, rank)
}

#[test]
fn new_rank_suit_blank_is_empty() {
    assert_eq!(Card::new_rank_suit(' ', ' '), None);
}

#[test]
fn new_rank_suit_encodes_rank_and_suit() {
    assert_eq!(Card::new_rank_suit('A', 'S'), Some(Card { value: 1 }));
    assert_eq!(Card::new_rank_suit('K', 'H'), Some(Card { value: 52 }));
    assert_eq!(Card::new_rank_suit('T', 'D'), Some(Card { value: 39 }));
    assert_eq!(Card::new_rank_suit('2', 'C'), Some(Card { value: 6 }));
}

#[test]
fn suit_and_rank_recover_the_encoding() {
    let c = card(2, 9);
    assert_eq!(c.suit(), 2);
    assert_eq!(c.rank(), 9);
    assert_eq!(c.value, 39);
}

#[test]
fn lowest_and_highest_rank() {
    assert!(card(0, 0).is_lowest_rank());
    assert!(!card(0, 1).is_lowest_rank());
    assert!(card(3, 12).is_highest_rank());
    assert!(!card(1, 4).is_highest_rank());
}

#[test]
fn adjacency_is_same_suit_next_rank() {
    let two_s = card(0, 1);
    let three_s = card(0, 2);
    let three_h = card(3, 2);

    assert!(two_s.plays_on_top_of(Some(three_s)));
    assert!(card(0, 0).plays_on_top_of(Some(two_s)));
    assert!(!two_s.plays_on_top_of(Some(two_s)));
    assert!(!two_s.plays_on_top_of(Some(three_h)));
    assert!(!three_s.plays_on_top_of(Some(two_s)));
    assert!(!two_s.plays_on_top_of(Some(card(0, 3))));
    assert!(two_s.plays_on_top_of(None));
}

#[test]
fn next_higher_card_stays_in_suit() {
    assert_eq!(card(0, 0).next_higher_card(), Some(card(0, 1)));
    assert_eq!(card(3, 11).next_higher_card(), Some(card(3, 12)));
    assert_eq!(card(2, 12).next_higher_card(), None);
}

#[test]
fn card_text_is_rank_then_suit() {
    assert_eq!(card(0, 0).to_text(), "AS");
    assert_eq!(card(3, 12).to_text(), "KH");
    assert_eq!(card(2, 9).to_text(), "TD");
}
