//! Card text: card names such as `Ks`, card sets as 64-bit masks, and
//! hole cards.
//!
//! A card's index is `4 * rank + suit`, ranks `2` to `A` as 0 to 12 and
//! suits `s`, `h`, `d`, `c` as 0 to 3; a card set has bit `index` set for
//! each of its cards.
use vstd::prelude::*;
use crate::deck::in_mask;
use crate::range_parse::rank_chars;
use crate::text::{chars_of, push_char};

verus! {

/// Two hole cards, by index.
#[derive(Debug, Clone, Copy, PartialEq, Eq, Structural)]
pub struct HoleCards(pub u8, pub u8);

/// A range: the hole-card combinations a player may hold.
#[derive(Debug, Clone)]
pub struct HandRange {
    pub hands: Vec<HoleCards>,
}

/// Suit characters by suit index.
pub open spec fn suit_chars() -> Seq<char> {
    seq!['s', 'h', 'd', 'c']
}

/// Rank index of a rank character (`2`..`9`, `T`, `J`, `Q`, `K`, `A`).
pub open spec fn rank_index_of(c: char) -> Option<nat> {
    if c == '2' {
        Some(0)
    } else if c == '3' {
        Some(1)
    } else if c == '4' {
        Some(2)
    } else if c == '5' {
        Some(3)
    } else if c == '6' {
        Some(4)
    } else if c == '7' {
        Some(5)
    } else if c == '8' {
        Some(6)
    } else if c == '9' {
        Some(7)
    } else if c == 'T' {
        Some(8)
    } else if c == 'J' {
        Some(9)
    } else if c == 'Q' {
        Some(10)
    } else if c == 'K' {
        Some(11)
    } else if c == 'A' {
        Some(12)
    } else {
        None
    }
}

/// Suit index of a suit character (`s`, `h`, `d`, `c`).
pub open spec fn suit_index_of(c: char) -> Option<nat> {
    if c == 's' {
        Some(0)
    } else if c == 'h' {
        Some(1)
    } else if c == 'd' {
        Some(2)
    } else if c == 'c' {
        Some(3)
    } else {
        None
    }
}

/// The card set named by `s`: a run of card names, each a rank
/// character followed by a suit character; none when `s` is not such a
/// run.
pub open spec fn mask_of(s: Seq<char>) -> Option<u64>
    decreases s.len(),
{
    if s.len() == 0 {
        Some(0)
    } else if s.len() < 2 || s.len() % 2 == 1 {
        None
    } else {
        match (mask_of(s.take(s.len() - 2)), rank_index_of(s[s.len() - 2]), suit_index_of(s.last())) {
            (Some(m), Some(r), Some(u)) => Some(m | (1u64 << ((4 * r + u) as u64))),
            _ => None,
        }
    }
}

/// Name of card `c`: its rank character then its suit character.
pub open spec fn card_name(c: nat) -> Seq<char> {
    seq![rank_chars()[(c / 4) as int], suit_chars()[(c % 4) as int]]
}

/// The cards of `m` below `n`, in increasing order.
pub open spec fn cards_below(m: u64, n: nat) -> Seq<nat>
    decreases n,
{
    if n == 0 {
        Seq::empty()
    } else if in_mask(m, (n - 1) as nat) {
        cards_below(m, (n - 1) as nat).push((n - 1) as nat)
    } else {
        cards_below(m, (n - 1) as nat)
    }
}

/// The first card of `m` at or above `b`; 64 when there is none.
pub open spec fn first_card_from(m: u64, b: nat) -> nat
    decreases 64 - b,
{
    if b >= 64 {
        64
    } else if in_mask(m, b) {
        b
    } else {
        first_card_from(m, b + 1)
    }
}

/// The search for the first card from `b` skips cards that are absent
/// and stops at `t`.
pub proof fn lemma_first_card_skip(m: u64, b: nat, t: nat)
    requires
        b <= t < 64,
        in_mask(m, t),
        forall|i: nat| b <= i < t ==> !#[trigger] in_mask(m, i),
    ensures
        first_card_from(m, b) == t,
    decreases t - b,
{
    if b < t {
        lemma_first_card_skip(m, b + 1, t);
    }
}

/// Adding card `c` to a set adds exactly that card.
pub proof fn lemma_add_card(m: u64, c: u64, b: u64)
    requires
        c < 64,
        b < 64,
    ensures
        in_mask(m | (1u64 << c), b as nat) == (in_mask(m, b as nat) || b == c),
{
    assert(((m | (1u64 << c)) >> b) & 1 == 1 <==> ((m >> b) & 1 == 1 || b == c)) by (bit_vector)
        requires
            c < 64,
            b < 64,
    ;
}

/// The empty set holds no card.
pub proof fn lemma_empty_mask(b: u64)
    requires
        b < 64,
    ensures
        !in_mask(0, b as nat),
{
    assert((0u64 >> b) & 1 == 0) by (bit_vector);
}

/// A card set read from text holds only cards of the deck.
pub proof fn lemma_mask_of_in_deck(s: Seq<char>, b: nat)
    requires
        mask_of(s) matches Some(m),
        52 <= b < 64,
    ensures
        !in_mask(mask_of(s)->0, b),
    decreases s.len(),
{
    if s.len() == 0 {
        lemma_empty_mask(b as u64);
    } else {
        let t = s.take(s.len() - 2);
        lemma_mask_of_in_deck(t, b);
        let r = rank_index_of(s[s.len() - 2])->0;
        let u = suit_index_of(s.last())->0;
        let m = mask_of(t)->0;
        assert(u < 4);
        let c = (4 * r + u) as u64;
        assert(c < 52);
        assert(mask_of(s)->0 == m | (1u64 << c));
        lemma_add_card(m, c, b as u64);
    }
}

/// The names in `s`, one after another.
pub open spec fn joined(s: Seq<Seq<char>>) -> Seq<char>
    decreases s.len(),
{
    if s.len() == 0 {
        Seq::empty()
    } else {
        joined(s.drop_last()) + s.last()
    }
}

/// The cards of `m` below `n`, as a card set.
pub open spec fn low_cards(m: u64, n: nat) -> u64
    decreases n,
{
    if n == 0 {
        0
    } else {
        low_cards(m, (n - 1) as nat) | (if in_mask(m, (n - 1) as nat) {
            1u64 << ((n - 1) as u64)
        } else {
            0u64
        })
    }
}

/// A bit of a card set is zero or one, and adding nothing keeps the set.
proof fn lemma_u64_bit(x: u64, b: u64)
    by (bit_vector)
    ensures
        (x >> b) & 1 == 1 || (x >> b) & 1 == 0,
        x | 0u64 == x,
{
}

/// Two card sets with the same sixty-four bits are equal.
proof fn lemma_mask_ext(a: u64, b: u64)
    by (bit_vector)
    requires
        (a >> 0u64) & 1 == (b >> 0u64) & 1,
        (a >> 1u64) & 1 == (b >> 1u64) & 1,
        (a >> 2u64) & 1 == (b >> 2u64) & 1,
        (a >> 3u64) & 1 == (b >> 3u64) & 1,
        (a >> 4u64) & 1 == (b >> 4u64) & 1,
        (a >> 5u64) & 1 == (b >> 5u64) & 1,
        (a >> 6u64) & 1 == (b >> 6u64) & 1,
        (a >> 7u64) & 1 == (b >> 7u64) & 1,
        (a >> 8u64) & 1 == (b >> 8u64) & 1,
        (a >> 9u64) & 1 == (b >> 9u64) & 1,
        (a >> 10u64) & 1 == (b >> 10u64) & 1,
        (a >> 11u64) & 1 == (b >> 11u64) & 1,
        (a >> 12u64) & 1 == (b >> 12u64) & 1,
        (a >> 13u64) & 1 == (b >> 13u64) & 1,
        (a >> 14u64) & 1 == (b >> 14u64) & 1,
        (a >> 15u64) & 1 == (b >> 15u64) & 1,
        (a >> 16u64) & 1 == (b >> 16u64) & 1,
        (a >> 17u64) & 1 == (b >> 17u64) & 1,
        (a >> 18u64) & 1 == (b >> 18u64) & 1,
        (a >> 19u64) & 1 == (b >> 19u64) & 1,
        (a >> 20u64) & 1 == (b >> 20u64) & 1,
        (a >> 21u64) & 1 == (b >> 21u64) & 1,
        (a >> 22u64) & 1 == (b >> 22u64) & 1,
        (a >> 23u64) & 1 == (b >> 23u64) & 1,
        (a >> 24u64) & 1 == (b >> 24u64) & 1,
        (a >> 25u64) & 1 == (b >> 25u64) & 1,
        (a >> 26u64) & 1 == (b >> 26u64) & 1,
        (a >> 27u64) & 1 == (b >> 27u64) & 1,
        (a >> 28u64) & 1 == (b >> 28u64) & 1,
        (a >> 29u64) & 1 == (b >> 29u64) & 1,
        (a >> 30u64) & 1 == (b >> 30u64) & 1,
        (a >> 31u64) & 1 == (b >> 31u64) & 1,
        (a >> 32u64) & 1 == (b >> 32u64) & 1,
        (a >> 33u64) & 1 == (b >> 33u64) & 1,
        (a >> 34u64) & 1 == (b >> 34u64) & 1,
        (a >> 35u64) & 1 == (b >> 35u64) & 1,
        (a >> 36u64) & 1 == (b >> 36u64) & 1,
        (a >> 37u64) & 1 == (b >> 37u64) & 1,
        (a >> 38u64) & 1 == (b >> 38u64) & 1,
        (a >> 39u64) & 1 == (b >> 39u64) & 1,
        (a >> 40u64) & 1 == (b >> 40u64) & 1,
        (a >> 41u64) & 1 == (b >> 41u64) & 1,
        (a >> 42u64) & 1 == (b >> 42u64) & 1,
        (a >> 43u64) & 1 == (b >> 43u64) & 1,
        (a >> 44u64) & 1 == (b >> 44u64) & 1,
        (a >> 45u64) & 1 == (b >> 45u64) & 1,
        (a >> 46u64) & 1 == (b >> 46u64) & 1,
        (a >> 47u64) & 1 == (b >> 47u64) & 1,
        (a >> 48u64) & 1 == (b >> 48u64) & 1,
        (a >> 49u64) & 1 == (b >> 49u64) & 1,
        (a >> 50u64) & 1 == (b >> 50u64) & 1,
        (a >> 51u64) & 1 == (b >> 51u64) & 1,
        (a >> 52u64) & 1 == (b >> 52u64) & 1,
        (a >> 53u64) & 1 == (b >> 53u64) & 1,
        (a >> 54u64) & 1 == (b >> 54u64) & 1,
        (a >> 55u64) & 1 == (b >> 55u64) & 1,
        (a >> 56u64) & 1 == (b >> 56u64) & 1,
        (a >> 57u64) & 1 == (b >> 57u64) & 1,
        (a >> 58u64) & 1 == (b >> 58u64) & 1,
        (a >> 59u64) & 1 == (b >> 59u64) & 1,
        (a >> 60u64) & 1 == (b >> 60u64) & 1,
        (a >> 61u64) & 1 == (b >> 61u64) & 1,
        (a >> 62u64) & 1 == (b >> 62u64) & 1,
        (a >> 63u64) & 1 == (b >> 63u64) & 1,
    ensures
        a == b,
{
}

proof fn lemma_rank_char(k: int)
    requires
        0 <= k < 13,
    ensures
        rank_index_of(rank_chars()[k]) == Some(k as nat),
{
    if k == 0 {} else if k == 1 {} else if k == 2 {} else if k == 3 {} else if k == 4 {} else if k == 5 {
    } else if k == 6 {} else if k == 7 {} else if k == 8 {} else if k == 9 {} else if k == 10 {
    } else if k == 11 {} else {}
}

proof fn lemma_suit_char(k: int)
    requires
        0 <= k < 4,
    ensures
        suit_index_of(suit_chars()[k]) == Some(k as nat),
{
    if k == 0 {} else if k == 1 {} else if k == 2 {} else {}
}

/// Reading back the names of the cards of `m` below `n` gives those
/// cards.
proof fn lemma_names_parse(m: u64, n: nat)
    requires
        n <= 52,
    ensures
        mask_of(joined(cards_below(m, n).map_values(|c: nat| card_name(c)))) == Some(low_cards(m, n)),
        joined(cards_below(m, n).map_values(|c: nat| card_name(c))).len() % 2 == 0,
    decreases n,
{
    if n > 0 {
        let k = (n - 1) as nat;
        lemma_names_parse(m, k);
        let prev = cards_below(m, k).map_values(|c: nat| card_name(c));
        let t = joined(prev);
        if in_mask(m, k) {
            let name = card_name(k);
            assert(cards_below(m, n).map_values(|c: nat| card_name(c)) =~= prev.push(name));
            assert(prev.push(name).drop_last() =~= prev);
            let s = t + name;
            assert(joined(prev.push(name)) == s);
            assert(s.take(s.len() - 2) =~= t);
            lemma_rank_char((k / 4) as int);
            lemma_suit_char((k % 4) as int);
            assert(s[s.len() - 2] == rank_chars()[(k / 4) as int]);
            assert(s.last() == suit_chars()[(k % 4) as int]);
            assert(4 * (k / 4) + k % 4 == k);
            assert(s.len() == t.len() + 2);
            assert(mask_of(s) == Some(low_cards(m, k) | (1u64 << ((4 * (k / 4) + k % 4) as u64))));
        } else {
            assert(cards_below(m, n).map_values(|c: nat| card_name(c)) =~= prev);
            lemma_u64_bit(low_cards(m, k), 0);
        }
    }
}

/// The cards of `m` below `n`, as a set, hold card `b` exactly when `m`
/// does and `b < n`.
proof fn lemma_low_cards_bits(m: u64, n: nat, b: u64)
    requires
        n <= 64,
        b < 64,
    ensures
        in_mask(low_cards(m, n), b as nat) == (b < n && in_mask(m, b as nat)),
    decreases n,
{
    if n == 0 {
        lemma_empty_mask(b);
    } else {
        let k = (n - 1) as nat;
        lemma_low_cards_bits(m, k, b);
        if in_mask(m, k) {
            lemma_add_card(low_cards(m, k), k as u64, b);
        } else {
            lemma_u64_bit(low_cards(m, k), 0);
        }
    }
}

/// The card names listed for a card set read from text parse back to
/// that set.
pub proof fn law_card_names_parse_back(text: Seq<char>)
    requires
        mask_of(text) is Some,
    ensures
        mask_of(joined(cards_below(mask_of(text)->0, 64).map_values(|c: nat| card_name(c)))) == mask_of(text),
{
    let m = mask_of(text)->0;
    lemma_names_parse(m, 52);
    let low = low_cards(m, 52);
    assert forall|b: u64| b < 64 implies #[trigger] in_mask(low, b as nat) == in_mask(m, b as nat) by {
        lemma_low_cards_bits(m, 52, b);
        if b >= 52 {
            lemma_mask_of_in_deck(text, b as nat);
        }
    }
    assert forall|b: u64| b < 64 implies ((low >> b) & 1 == (m >> b) & 1) by {
        assert(in_mask(low, b as nat) == in_mask(m, b as nat));
        lemma_u64_bit(low, b);
        lemma_u64_bit(m, b);
    }
    assert((low >> 0u64) & 1 == (m >> 0u64) & 1);
    assert((low >> 1u64) & 1 == (m >> 1u64) & 1);
    assert((low >> 2u64) & 1 == (m >> 2u64) & 1);
    assert((low >> 3u64) & 1 == (m >> 3u64) & 1);
    assert((low >> 4u64) & 1 == (m >> 4u64) & 1);
    assert((low >> 5u64) & 1 == (m >> 5u64) & 1);
    assert((low >> 6u64) & 1 == (m >> 6u64) & 1);
    assert((low >> 7u64) & 1 == (m >> 7u64) & 1);
    assert((low >> 8u64) & 1 == (m >> 8u64) & 1);
    assert((low >> 9u64) & 1 == (m >> 9u64) & 1);
    assert((low >> 10u64) & 1 == (m >> 10u64) & 1);
    assert((low >> 11u64) & 1 == (m >> 11u64) & 1);
    assert((low >> 12u64) & 1 == (m >> 12u64) & 1);
    assert((low >> 13u64) & 1 == (m >> 13u64) & 1);
    assert((low >> 14u64) & 1 == (m >> 14u64) & 1);
    assert((low >> 15u64) & 1 == (m >> 15u64) & 1);
    assert((low >> 16u64) & 1 == (m >> 16u64) & 1);
    assert((low >> 17u64) & 1 == (m >> 17u64) & 1);
    assert((low >> 18u64) & 1 == (m >> 18u64) & 1);
    assert((low >> 19u64) & 1 == (m >> 19u64) & 1);
    assert((low >> 20u64) & 1 == (m >> 20u64) & 1);
    assert((low >> 21u64) & 1 == (m >> 21u64) & 1);
    assert((low >> 22u64) & 1 == (m >> 22u64) & 1);
    assert((low >> 23u64) & 1 == (m >> 23u64) & 1);
    assert((low >> 24u64) & 1 == (m >> 24u64) & 1);
    assert((low >> 25u64) & 1 == (m >> 25u64) & 1);
    assert((low >> 26u64) & 1 == (m >> 26u64) & 1);
    assert((low >> 27u64) & 1 == (m >> 27u64) & 1);
    assert((low >> 28u64) & 1 == (m >> 28u64) & 1);
    assert((low >> 29u64) & 1 == (m >> 29u64) & 1);
    assert((low >> 30u64) & 1 == (m >> 30u64) & 1);
    assert((low >> 31u64) & 1 == (m >> 31u64) & 1);
    assert((low >> 32u64) & 1 == (m >> 32u64) & 1);
    assert((low >> 33u64) & 1 == (m >> 33u64) & 1);
    assert((low >> 34u64) & 1 == (m >> 34u64) & 1);
    assert((low >> 35u64) & 1 == (m >> 35u64) & 1);
    assert((low >> 36u64) & 1 == (m >> 36u64) & 1);
    assert((low >> 37u64) & 1 == (m >> 37u64) & 1);
    assert((low >> 38u64) & 1 == (m >> 38u64) & 1);
    assert((low >> 39u64) & 1 == (m >> 39u64) & 1);
    assert((low >> 40u64) & 1 == (m >> 40u64) & 1);
    assert((low >> 41u64) & 1 == (m >> 41u64) & 1);
    assert((low >> 42u64) & 1 == (m >> 42u64) & 1);
    assert((low >> 43u64) & 1 == (m >> 43u64) & 1);
    assert((low >> 44u64) & 1 == (m >> 44u64) & 1);
    assert((low >> 45u64) & 1 == (m >> 45u64) & 1);
    assert((low >> 46u64) & 1 == (m >> 46u64) & 1);
    assert((low >> 47u64) & 1 == (m >> 47u64) & 1);
    assert((low >> 48u64) & 1 == (m >> 48u64) & 1);
    assert((low >> 49u64) & 1 == (m >> 49u64) & 1);
    assert((low >> 50u64) & 1 == (m >> 50u64) & 1);
    assert((low >> 51u64) & 1 == (m >> 51u64) & 1);
    assert((low >> 52u64) & 1 == (m >> 52u64) & 1);
    assert((low >> 53u64) & 1 == (m >> 53u64) & 1);
    assert((low >> 54u64) & 1 == (m >> 54u64) & 1);
    assert((low >> 55u64) & 1 == (m >> 55u64) & 1);
    assert((low >> 56u64) & 1 == (m >> 56u64) & 1);
    assert((low >> 57u64) & 1 == (m >> 57u64) & 1);
    assert((low >> 58u64) & 1 == (m >> 58u64) & 1);
    assert((low >> 59u64) & 1 == (m >> 59u64) & 1);
    assert((low >> 60u64) & 1 == (m >> 60u64) & 1);
    assert((low >> 61u64) & 1 == (m >> 61u64) & 1);
    assert((low >> 62u64) & 1 == (m >> 62u64) & 1);
    assert((low >> 63u64) & 1 == (m >> 63u64) & 1);
    lemma_mask_ext(low, m);
    assert forall|b: nat| 52 <= b < 64 implies !in_mask(m, b) by {
        lemma_mask_of_in_deck(text, b);
    }
    assert(cards_below(m, 64) == cards_below(m, 52)) by {
        lemma_cards_below_tail(m, 52, 64);
    }
}

proof fn lemma_cards_below_tail(m: u64, a: nat, n: nat)
    requires
        a <= n,
        forall|b: nat| a <= b < n ==> !in_mask(m, b),
    ensures
        cards_below(m, n) == cards_below(m, a),
    decreases n,
{
    if a < n {
        lemma_cards_below_tail(m, a, (n - 1) as nat);
    }
}

/// Rank index of a rank character.
fn char_to_rank(c: char) -> (r: Option<u8>)
    ensures
        r matches Some(i) ==> rank_index_of(c) == Some(i as nat),
        r is None ==> rank_index_of(c) is None,
{
    match c {
        '2' => Some(0),
        '3' => Some(1),
        '4' => Some(2),
        '5' => Some(3),
        '6' => Some(4),
        '7' => Some(5),
        '8' => Some(6),
        '9' => Some(7),
        'T' => Some(8),
        'J' => Some(9),
        'Q' => Some(10),
        'K' => Some(11),
        'A' => Some(12),
        _ => None,
    }
}

/// Suit index of a suit character.
fn char_to_suit(c: char) -> (r: Option<u8>)
    ensures
        r matches Some(i) ==> suit_index_of(c) == Some(i as nat),
        r is None ==> suit_index_of(c) is None,
{
    match c {
        's' => Some(0),
        'h' => Some(1),
        'd' => Some(2),
        'c' => Some(3),
        _ => None,
    }
}

/// The card set named by `text` (see `mask_of`).
pub fn get_card_mask(text: &str) -> (r: Option<u64>)
    ensures
        r == mask_of(text@),
{
    let s = chars_of(text);
    let n = s.len();
    if n % 2 == 1 {
        return None;
    }
    let mut m: u64 = 0;
    let mut i: usize = 0;
    while i < n
        invariant
            n == s@.len(),
            s@ == text@,
            n % 2 == 0,
            i % 2 == 0,
            i <= n,
            mask_of(s@.take(i as int)) == Some(m),
        decreases n - i,
    {
        let ghost t = s@.take(i as int + 2);
        assert(t.take(t.len() - 2) =~= s@.take(i as int));
        let r = char_to_rank(s[i]);
        let u = char_to_suit(s[i + 1]);
        match (r, u) {
            (Some(r), Some(u)) => {
                let card: u64 = 4 * r as u64 + u as u64;
                m = m | (1u64 << card);
            },
            _ => {
                proof {
                    assert(mask_of(t) is None);
                    lemma_mask_of_none_extends(s@, i as int + 2);
                }
                return None;
            },
        }
        i = i + 2;
    }
    assert(s@.take(i as int) =~= s@);
    Some(m)
}

/// A prefix that names no card set spoils every longer text.
proof fn lemma_mask_of_none_extends(s: Seq<char>, k: int)
    requires
        0 < k <= s.len(),
        k % 2 == 0,
        s.len() % 2 == 0,
        mask_of(s.take(k)) is None,
    ensures
        mask_of(s) is None,
    decreases s.len() - k,
{
    if k < s.len() {
        let t = s.take(k + 2);
        assert(t.take(t.len() - 2) =~= s.take(k));
        lemma_mask_of_none_extends(s, k + 2);
    } else {
        assert(s.take(k) =~= s);
    }
}

/// The name of card `card`, such as `Ks`.
pub fn card_idx_to_str(card: u8) -> (r: String)
    requires
        card < 52,
    ensures
        r@ == card_name(card as nat),
{
    let rank = card / 4;
    let suit = card % 4;
    let rc = match rank {
        0 => '2',
        1 => '3',
        2 => '4',
        3 => '5',
        4 => '6',
        5 => '7',
        6 => '8',
        7 => '9',
        8 => 'T',
        9 => 'J',
        10 => 'Q',
        11 => 'K',
        _ => 'A',
    };
    let sc = match suit {
        0 => 's',
        1 => 'h',
        2 => 'd',
        _ => 'c',
    };
    let mut s = String::new();
    push_char(&mut s, rc);
    push_char(&mut s, sc);
    assert(s@ =~= card_name(card as nat));
    s
}

/// The first card of `m` at or above `b`, or 64.
fn first_card(m: u64, b: u64) -> (r: u64)
    requires
        b <= 64,
    ensures
        r == first_card_from(m, b as nat),
        r <= 64,
{
    let mut i = b;
    while i < 64
        invariant
            b <= i <= 64,
            first_card_from(m, b as nat) == first_card_from(m, i as nat),
        decreases 64 - i,
    {
        if (m >> i) & 1 == 1 {
            return i;
        }
        i = i + 1;
    }
    64
}

/// Hole cards named by `hand`: its lowest card and its next card (64
/// when it names only one). None when `hand` is no run of card names or
/// names no card.
pub fn parse_hero_hole(hand: &str) -> (r: Option<HoleCards>)
    ensures
        r is Some <==> (mask_of(hand@) matches Some(m) && first_card_from(m, 0) < 64),
        r matches Some(h) ==> h.0 == first_card_from(mask_of(hand@)->0, 0) && h.1 == first_card_from(
            mask_of(hand@)->0,
            (h.0 + 1) as nat,
        ),
{
    match get_card_mask(hand) {
        Some(m) => {
            let c1 = first_card(m, 0);
            if c1 >= 64 {
                return None;
            }
            let c2 = first_card(m, c1 + 1);
            Some(HoleCards(c1 as u8, c2 as u8))
        },
        None => None,
    }
}

/// Names of the cards of `hand`, lowest first; none when `hand` is no
/// run of card names.
pub fn hero_hole_vec(hand: &str) -> (r: Option<Vec<String>>)
    ensures
        r is Some <==> mask_of(hand@) is Some,
        r matches Some(v) ==> v@.map_values(|s: String| s@) == cards_below(
            mask_of(hand@)->0,
            64,
        ).map_values(|c: nat| card_name(c)),
{
    let m = match get_card_mask(hand) {
        Some(m) => m,
        None => return None,
    };
    let mut out: Vec<String> = Vec::new();
    let mut b: u64 = 0;
    while b < 64
        invariant
            b <= 64,
            mask_of(hand@) == Some(m),
            out@.map_values(|s: String| s@) == cards_below(m, b as nat).map_values(
                |c: nat| card_name(c),
            ),
        decreases 64 - b,
    {
        if (m >> b) & 1 == 1 {
            proof {
                if b >= 52 {
                    lemma_mask_of_in_deck(hand@, b as nat);
                }
            }
            let name = card_idx_to_str(b as u8);
            let ghost before = out@.map_values(|s: String| s@);
            out.push(name);
            assert(cards_below(m, b as nat + 1) == cards_below(m, b as nat).push(b as nat));
            assert(out@.map_values(|s: String| s@) =~= before.push(card_name(b as nat)));
            assert(out@.map_values(|s: String| s@) =~= cards_below(m, b as nat + 1).map_values(
                |c: nat| card_name(c),
            ));
        } else {
            assert(cards_below(m, b as nat + 1) == cards_below(m, b as nat));
        }
        b = b + 1;
    }
    Some(out)
}

} // verus!
