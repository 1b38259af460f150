//! The KK turn spot: the hero holds `KsKc` on a `4dQcQd` flop with 12
//! big blinds behind, and two sampled turn cards are solved.
use vstd::prelude::*;
use vstd::string::StringSliceAdditionalSpecFns;
use crate::hand_range::{HoleCards, parse_hero_hole, mask_of, first_card_from, lemma_first_card_skip};
use crate::deck::in_mask;
use crate::python_api::{chunks_on_boundaries, fold_seed, limited, shuffled, turn_cards_of};

verus! {

/// Out-of-position range.
pub const OOP_RANGE: &'static str = "66+,A8s+,A5s-A4s,AJo+,K9s+,KQo,QTs+,JTs,96s+,85s+,75s+,65s,54s";

/// In-position range.
pub const IP_RANGE: &'static str = "QQ-22,AQs-A2s,ATo+,K5s+,KJo+,Q8s+,J8s+,T7s+,96s+,86s+,75s+,64s+,53s+";

/// The hero's hand.
pub const HERO_HAND: &'static str = "KsKc";

/// The flop.
pub const FLOP: &'static str = "4dQcQd";

/// Effective stack, in big blinds.
pub const STACK_BUCKET_BB: u32 = 12;

/// Training iterations per turn card.
pub const MAX_ITER: usize = 200;

/// Number of turn cards solved.
pub const TURN_CARD_LIMIT: usize = 2;

/// Pot at the turn decision node, in chips.
pub const TURN_ENTRY_POT_CHIPS: u32 = 616;

/// The turn cards of the flop, shuffled with a seed taken from the flop
/// and the hero's hand, and cut to `limit` cards when `limit` is
/// positive.
pub fn sample_turn_cards(flop: &str, hero_hand: &str, limit: usize) -> (r: Vec<String>)
    requires
        chunks_on_boundaries(flop.spec_bytes()),
    ensures
        r@.map_values(|s: String| s@) == limited(
            shuffled(
                turn_cards_of(flop.spec_bytes()),
                fold_seed(fold_seed(0, flop.spec_bytes()), hero_hand.spec_bytes()),
            ),
            limit,
        ),
{
    crate::python_api::sample_turn_cards(flop, hero_hand, limit)
}

/// The hero's hole cards: the king of spades and the king of clubs.
pub fn hero_hole_cards() -> (h: HoleCards)
    ensures
        h == HoleCards(44, 47),
{
    proof {
        reveal_strlit("KsKc");
        let s = HERO_HAND@;
        assert(s =~= seq!['K', 's', 'K', 'c']);
        assert(s.take(2).take(0) =~= Seq::<char>::empty());
        assert(s.take(2) =~= seq!['K', 's']);
        assert(mask_of(s.take(2).take(0)) == Some(0u64));
        assert((0u64 | (1u64 << 44u64)) == (1u64 << 44u64)) by (bit_vector);
        assert(mask_of(s.take(2)) == Some(1u64 << 44u64));
        assert(s.take(s.len() - 2) =~= s.take(2));
        assert(mask_of(s) == Some((1u64 << 44u64) | (1u64 << 47u64)));
        let m = (1u64 << 44u64) | (1u64 << 47u64);
        assert forall|i: nat| 0 <= i < 44 || 45 <= i < 47 implies !#[trigger] in_mask(m, i) by {
            let j = i as u64;
            assert(((((1u64 << 44u64) | (1u64 << 47u64)) >> j) & 1) != 1) by (bit_vector)
                requires
                    j < 44 || (45 <= j && j < 47),
            ;
        }
        assert(in_mask(m, 44)) by {
            assert(((((1u64 << 44u64) | (1u64 << 47u64)) >> 44u64) & 1) == 1) by (bit_vector);
        }
        assert(in_mask(m, 47)) by {
            assert(((((1u64 << 44u64) | (1u64 << 47u64)) >> 47u64) & 1) == 1) by (bit_vector);
        }
        lemma_first_card_skip(m, 0, 44);
        lemma_first_card_skip(m, 45, 47);
    }
    match parse_hero_hole(HERO_HAND) {
        Some(h) => h,
        None => HoleCards(44, 47),
    }
}

} // verus!
