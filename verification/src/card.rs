//! Cards, identified by a compact value encoding rank and suit, together
//! with the single adjacency rule that underlies both column stacking and
//! foundation promotion in this solitaire variant.

use vstd::prelude::*;

verus! {

/// Number of suits; suit order is S, C, D, H.
pub const N_SUITS: usize = 4;

/// Number of ranks; rank order is A, 2..9, T, J, Q, K.
pub const N_RANKS: usize = 13;

/// The highest rank (the king).
pub const HIGHEST_RANK: usize = N_RANKS - 1;

/// Number of distinct cards in a deck.
pub const DECK_SIZE: usize = N_SUITS * N_RANKS;

/// A playing card. The value lies in `1..=52` and encodes rank and suit:
/// `value - 1 == rank * N_SUITS + suit`.
#[derive(PartialEq, Eq, Structural, Debug, Clone, Copy)]
pub struct Card {
    pub value: u8,
}

/// The adjacency rule of this variant: `lower` sits directly below `higher`
/// exactly when the suits agree and `higher` is one rank above `lower`.
/// The same relation governs column stacking and foundation promotion.
pub open spec fn adjacent(lower: Card, higher: Card) -> bool {
    lower.spec_suit() == higher.spec_suit() && lower.spec_rank() + 1 == higher.spec_rank()
}

/// Rank encoded by a rank character, or -1 if the character is not one
/// of `A23456789TJQK`.
pub open spec fn spec_rank_of_char(c: char) -> int {
    if c == 'A' {
        0
    } else if c == '2' {
        1
    } else if c == '3' {
        2
    } else if c == '4' {
        3
    } else if c == '5' {
        4
    } else if c == '6' {
        5
    } else if c == '7' {
        6
    } else if c == '8' {
        7
    } else if c == '9' {
        8
    } else if c == 'T' {
        9
    } else if c == 'J' {
        10
    } else if c == 'Q' {
        11
    } else if c == 'K' {
        12
    } else {
        -1
    }
}

/// Suit encoded by a suit character, or -1 if the character is not one
/// of `SCDH`.
pub open spec fn spec_suit_of_char(c: char) -> int {
    if c == 'S' {
        0
    } else if c == 'C' {
        1
    } else if c == 'D' {
        2
    } else if c == 'H' {
        3
    } else {
        -1
    }
}

/// The character that renders a rank.
pub open spec fn spec_rank_char(r: int) -> char {
    if r == 0 {
        'A'
    } else if r == 1 {
        '2'
    } else if r == 2 {
        '3'
    } else if r == 3 {
        '4'
    } else if r == 4 {
        '5'
    } else if r == 5 {
        '6'
    } else if r == 6 {
        '7'
    } else if r == 7 {
        '8'
    } else if r == 8 {
        '9'
    } else if r == 9 {
        'T'
    } else if r == 10 {
        'J'
    } else if r == 11 {
        'Q'
    } else {
        'K'
    }
}

/// The character that renders a suit.
pub open spec fn spec_suit_char(s: int) -> char {
    if s == 0 {
        'S'
    } else if s == 1 {
        'C'
    } else if s == 2 {
        'D'
    } else {
        'H'
    }
}

/// The two characters that render a slot: a card's text, or two blanks.
pub open spec fn slot_text(oc: Option<Card>) -> Seq<char> {
    match oc {
        None => seq![' ', ' '],
        Some(c) => c.spec_text(),
    }
}

/// The one-character rendering of a rank.
pub fn rank_str(rank: usize) -> (s: &'static str)
    requires
        rank < N_RANKS,
    ensures
        s@ == seq![spec_rank_char(rank as int)],
{
    let s: &'static str = match rank {
        0 => "A",
        1 => "2",
        2 => "3",
        3 => "4",
        4 => "5",
        5 => "6",
        6 => "7",
        7 => "8",
        8 => "9",
        9 => "T",
        10 => "J",
        11 => "Q",
        _ => "K",
    };
    proof {
        reveal_strlit("A");
        reveal_strlit("2");
        reveal_strlit("3");
        reveal_strlit("4");
        reveal_strlit("5");
        reveal_strlit("6");
        reveal_strlit("7");
        reveal_strlit("8");
        reveal_strlit("9");
        reveal_strlit("T");
        reveal_strlit("J");
        reveal_strlit("Q");
        reveal_strlit("K");
        assert(s@ =~= seq![spec_rank_char(rank as int)]);
    }
    s
}

/// The one-character rendering of a suit.
pub fn suit_str(suit: usize) -> (s: &'static str)
    requires
        suit < N_SUITS,
    ensures
        s@ == seq![spec_suit_char(suit as int)],
{
    let s: &'static str = match suit {
        0 => "S",
        1 => "C",
        2 => "D",
        _ => "H",
    };
    proof {
        reveal_strlit("S");
        reveal_strlit("C");
        reveal_strlit("D");
        reveal_strlit("H");
        assert(s@ =~= seq![spec_suit_char(suit as int)]);
    }
    s
}

impl Card {
    /// A card value is well formed when it lies in the deck's range.
    pub open spec fn wf(self) -> bool {
        1 <= self.value <= 52
    }

    /// The rank this card's value encodes, from 0 (ace) to 12 (king).
    pub open spec fn spec_rank(self) -> int {
        (self.value - 1) as int / 4
    }

    /// The suit this card's value encodes, from 0 (spades) to 3 (hearts).
    pub open spec fn spec_suit(self) -> int {
        (self.value - 1) as int % 4
    }

    /// The two characters that render this card: rank then suit.
    pub open spec fn spec_text(self) -> Seq<char> {
        seq![spec_rank_char(self.spec_rank()), spec_suit_char(self.spec_suit())]
    }

    /// Reads a card from a rank character and a suit character; two blanks
    /// denote an empty slot. Malformed characters are excluded by the
    /// precondition: a loader must reject them rather than default them.
    pub fn new_rank_suit(rank_char: char, suit_char: char) -> (r: Option<Self>)
        requires
            (rank_char == ' ' && suit_char == ' ') || (spec_rank_of_char(rank_char) >= 0
                && spec_suit_of_char(suit_char) >= 0),
        ensures
            (rank_char == ' ' && suit_char == ' ') <==> r is None,
            r matches Some(c) ==> c.wf() && c.spec_rank() == spec_rank_of_char(rank_char)
                && c.spec_suit() == spec_suit_of_char(suit_char) && c.value == spec_rank_of_char(
                rank_char,
            ) * 4 + spec_suit_of_char(suit_char) + 1,
    {
        if rank_char == ' ' && suit_char == ' ' {
            return None;
        }
        let rank = Self::rank_of_char(rank_char).unwrap();
        let suit = Self::suit_of_char(suit_char).unwrap();

        Some(Self { value: Self::value_for_suit_and_rank(suit, rank) })
    }

    /// Rank encoded by a rank character, if any.
    pub fn rank_of_char(c: char) -> (r: Option<usize>)
        ensures
            spec_rank_of_char(c) >= 0 ==> r == Some(spec_rank_of_char(c) as usize),
            spec_rank_of_char(c) < 0 ==> r is None,
    {
        match c {
            'A' => Some(0),
            '2' => Some(1),
            '3' => Some(2),
            '4' => Some(3),
            '5' => Some(4),
            '6' => Some(5),
            '7' => Some(6),
            '8' => Some(7),
            '9' => Some(8),
            'T' => Some(9),
            'J' => Some(10),
            'Q' => Some(11),
            'K' => Some(12),
            _ => None,
        }
    }

    /// Suit encoded by a suit character, if any.
    pub fn suit_of_char(c: char) -> (r: Option<usize>)
        ensures
            spec_suit_of_char(c) >= 0 ==> r == Some(spec_suit_of_char(c) as usize),
            spec_suit_of_char(c) < 0 ==> r is None,
    {
        match c {
            'S' => Some(0),
            'C' => Some(1),
            'D' => Some(2),
            'H' => Some(3),
            _ => None,
        }
    }

    /// Whether this card is an ace, the card a foundation starts from.
    pub fn is_lowest_rank(self) -> (r: bool)
        requires
            self.wf(),
        ensures
            r == (self.spec_rank() == 0),
    {
        self.rank() == 0
    }

    /// Whether this card is a king, the card a foundation finishes at.
    pub fn is_highest_rank(self) -> (r: bool)
        requires
            self.wf(),
        ensures
            r == (self.spec_rank() == HIGHEST_RANK),
    {
        self.rank() == HIGHEST_RANK
    }

    /// Whether this card may be placed on the given exposed card. An empty
    /// destination accepts anything; an occupied one accepts exactly the
    /// adjacent lower card of the same suit.
    pub fn plays_on_top_of(self, other: Option<Self>) -> (r: bool)
        requires
            self.wf(),
            other matches Some(o) ==> o.wf(),
        ensures
            r == match other {
                None => true,
                Some(o) => adjacent(self, o),
            },
    {
        match other {
            None => true,
            Some(other_value) => {
                self.suit() == other_value.suit() && self.rank() + 1 == other_value.rank()
            },
        }
    }

    /// This card's suit index.
    pub fn suit(self) -> (s: usize)
        requires
            self.wf(),
        ensures
            s == self.spec_suit(),
            s < N_SUITS,
    {
        (self.value as usize - 1) % N_SUITS
    }

    /// This card's rank index.
    pub fn rank(self) -> (r: usize)
        requires
            self.wf(),
        ensures
            r == self.spec_rank(),
            r < N_RANKS,
    {
        (self.value as usize - 1) / N_SUITS
    }

    /// The value that encodes the given suit and rank.
    pub fn value_for_suit_and_rank(suit: usize, rank: usize) -> (v: u8)
        requires
            suit < N_SUITS,
            rank < N_RANKS,
        ensures
            v == rank * N_SUITS + suit + 1,
            1 <= v <= 52,
    {
        (rank * N_SUITS + suit + 1) as u8
    }

    /// The card with the given suit and rank.
    pub fn for_suit_and_rank(suit: usize, rank: usize) -> (c: Self)
        requires
            suit < N_SUITS,
            rank < N_RANKS,
        ensures
            c.wf(),
            c.spec_suit() == suit,
            c.spec_rank() == rank,
    {
        let c = Self { value: Self::value_for_suit_and_rank(suit, rank) };
        proof {
            lemma_value_encoding(suit as int, rank as int);
        }
        c
    }

    /// The next higher card of the same suit, if this is not a king.
    pub fn next_higher_card(self) -> (r: Option<Self>)
        requires
            self.wf(),
        ensures
            self.spec_rank() == HIGHEST_RANK ==> r is None,
            self.spec_rank() < HIGHEST_RANK ==> (r matches Some(c) && c.wf() && adjacent(self, c)),
    {
        if self.rank() == HIGHEST_RANK {
            None
        } else {
            Some(Self::for_suit_and_rank(self.suit(), self.rank() + 1))
        }
    }
}

impl Card {
    /// The two-character text of this card: rank then suit.
    pub fn to_text(&self) -> (r: String)
        requires
            self.wf(),
        ensures
            r@ == self.spec_text(),
    {
        let mut r = String::from_str(rank_str(self.rank()));
        r.append(suit_str(self.suit()));
        proof {
            assert(r@ =~= self.spec_text());
        }
        r
    }
}

/// Rank and suit are recovered exactly from the value encoding.
proof fn lemma_value_encoding(suit: int, rank: int)
    requires
        0 <= suit < 4,
        0 <= rank < 13,
    ensures
        (rank * 4 + suit + 1 - 1) / 4 == rank,
        (rank * 4 + suit + 1 - 1) % 4 == suit,
{
    assert((rank * 4 + suit) / 4 == rank && (rank * 4 + suit) % 4 == suit) by (nonlinear_arith)
        requires
            0 <= suit < 4,
            0 <= rank < 13,
    ;
}

} // verus!
