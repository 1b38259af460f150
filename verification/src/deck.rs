//! Card deck primitives.
//!
//! A card is a `u8` holding `rank << 2 | suit`: the suit (0..4) in the low
//! two bits and the rank (0..13, deuce to ace) above them.
use vstd::prelude::*;

verus! {

/// Number of suits in a standard deck.
pub const SUITS: usize = 4;

/// Number of ranks in a standard deck (2..=Ace).
pub const RANKS: usize = 13;

/// Number of cards in a standard deck.
pub const CARDS: usize = 52;

/// Printable character of each rank, deuce to ace.
pub fn rank_to_char() -> (a: [char; 13])
    ensures
        a@ == seq!['2', '3', '4', '5', '6', '7', '8', '9', 'T', 'J', 'Q', 'K', 'A'],
{
    let a = ['2', '3', '4', '5', '6', '7', '8', '9', 'T', 'J', 'Q', 'K', 'A'];
    assert(a@ =~= seq!['2', '3', '4', '5', '6', '7', '8', '9', 'T', 'J', 'Q', 'K', 'A']);
    a
}

/// Printable character of each suit: spades, hearts, diamonds, clubs.
pub fn suit_to_char() -> (a: [char; 4])
    ensures
        a@ == seq!['s', 'h', 'd', 'c'],
{
    let a = ['s', 'h', 'd', 'c'];
    assert(a@ =~= seq!['s', 'h', 'd', 'c']);
    a
}

/// The suit (0..4) encoded in `card`.
pub open spec fn spec_suit(card: int) -> int {
    card % 4
}

/// The rank encoded in `card`.
pub open spec fn spec_rank(card: int) -> int {
    card / 4
}

/// Returns the suit (0..4) encoded in a card.
pub fn card_suit(card: u8) -> (s: u8)
    ensures
        s == spec_suit(card as int),
        s < 4,
{
    assert(card & 3 == card % 4) by (bit_vector);
    card & 3
}

/// Returns the rank (0..63) encoded in a card.
pub fn card_rank(card: u8) -> (r: u8)
    ensures
        r == spec_rank(card as int),
        r < 64,
{
    assert(card >> 2 == card / 4) by (bit_vector);
    card >> 2
}

/// Constructs a card from a suit (0..4) and rank (0..13).
///
/// The rank is shifted into the bits above the suit; bits shifted past the
/// eighth are dropped, as with any `u8` shift.
pub fn make_card(suit: u8, rank: u8) -> (c: u8)
    ensures
        c == ((((rank as int * 4) % 256) as u8) | suit),
        suit < 4 && rank < 64 ==> c == 4 * rank + suit,
{
    assert((rank << 2) == (((rank as int * 4) % 256) as u8)) by (bit_vector);
    assert(suit < 4 && rank < 64 ==> ((rank << 2) | suit) == 4 * rank + suit) by (bit_vector);
    (rank << 2) | suit
}

/// Encoding and decoding are inverse: a card built from a suit below four
/// and a rank below sixty-four decodes to that suit and rank, and every
/// card is rebuilt from its own suit and rank.
pub proof fn lemma_card_round_trip(suit: u8, rank: u8, card: u8)
    requires
        suit < 4,
        rank < 64,
    ensures
        spec_suit(4 * rank + suit) == suit,
        spec_rank(4 * rank + suit) == rank,
        4 * spec_rank(card as int) + spec_suit(card as int) == card,
{
}

/// Whether card `c` is in the card set `mask` (bit `c` set).
pub open spec fn in_mask(mask: u64, c: nat) -> bool {
    c < 64 && (mask >> (c as u64)) & 1 == 1
}

/// Number of cards of `mask` at positions below `n`.
pub open spec fn mask_count(mask: u64, n: nat) -> nat
    decreases n,
{
    if n == 0 {
        0
    } else {
        mask_count(mask, (n - 1) as nat) + if in_mask(mask, (n - 1) as nat) {
            1nat
        } else {
            0nat
        }
    }
}

/// Number of cards in the card set `mask`.
pub fn mask_len(mask: u64) -> (n: u32)
    ensures
        n == mask_count(mask, 64),
{
    let mut n: u32 = 0;
    let mut b: u64 = 0;
    while b < 64
        invariant
            b <= 64,
            n == mask_count(mask, b as nat),
            n <= b,
        decreases 64 - b,
    {
        if (mask >> b) & 1 == 1 {
            n = n + 1;
        }
        b = b + 1;
    }
    n
}

} // verus!
