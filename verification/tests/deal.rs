use rand::rngs::SmallRng;
use rand::SeedableRng;
use rust_solver::deal::{
    abs_idx_for_round, board_array_with_dealt, board_from_mask, board_mask_to_strings,
    board_mask_with_dealt, generate_all_hole_card_combos, generate_hand,
    generate_possible_next_deals, hand_conflicts, TrainHand,
};
use rust_solver::hand_range::{get_card_mask, HandRange, HoleCards};
use rust_solver::state::BettingRound;

fn mask_of(text: &str) -> u64 {
    get_card_mask(text).unwrap()
}

#[test]
fn board_slots_follow_card_order() {
    let m = mask_of("4dQcQd");
    assert_eq!(board_from_mask(m), [0, 0, 10, 42, 43, 0, 0]);
    assert_eq!(board_from_mask(0), [0; 7]);
}

#[test]
fn conflicts_with_board() {
    let m = mask_of("4dQcQd");
    assert!(hand_conflicts(HoleCards(43, 0), m));
    assert!(!hand_conflicts(HoleCards(44, 45), m));
}

#[test]
fn next_deals_skip_used_cards() {
    let m = mask_of("4dQcQd");
    let hand = TrainHand { hands: vec![HoleCards(44, 45), HoleCards(0, 1)], board: board_from_mask(m) };
    assert_eq!(hand.num_players(), 2);
    let deals = generate_possible_next_deals(BettingRound::Turn, &hand);
    assert_eq!(deals.len(), 52 - 4 - 3);
    for c in [0u8, 1, 10, 42, 43, 44, 45] {
        assert!(!deals.contains(&c));
    }
    assert!(deals.windows(2).all(|w| w[0] < w[1]));
}

#[test]
fn abstraction_index_counts_from_first_street() {
    assert_eq!(abs_idx_for_round(0b111, BettingRound::Flop), 0);
    assert_eq!(abs_idx_for_round(0b111, BettingRound::River), 2);
    assert_eq!(abs_idx_for_round(0b1111, BettingRound::Turn), 0);
    assert_eq!(abs_idx_for_round(0b1111, BettingRound::River), 1);
    assert_eq!(abs_idx_for_round(0b11111, BettingRound::River), 0);
}

#[test]
fn dealt_cards_join_the_board() {
    let m = mask_of("4dQcQd");
    assert_eq!(board_mask_with_dealt(m, &[5, 6]), m | (1 << 5) | (1 << 6));
    assert_eq!(board_array_with_dealt(m, &[5]), [0, 0, 10, 42, 43, 5, 0]);
    assert_eq!(board_mask_to_strings(m), vec!["4d", "Qd", "Qc"]);
}

#[test]
fn all_combos_are_disjoint_deals() {
    let r0 = HandRange { hands: vec![HoleCards(0, 1), HoleCards(2, 3)] };
    let r1 = HandRange { hands: vec![HoleCards(1, 2), HoleCards(4, 5)] };
    let combos = generate_all_hole_card_combos(0b111 << 10, &[r0, r1]);
    let hands: Vec<Vec<HoleCards>> = combos.iter().map(|t| t.hands.clone()).collect();
    assert_eq!(
        hands,
        vec![vec![HoleCards(0, 1), HoleCards(4, 5)], vec![HoleCards(2, 3), HoleCards(4, 5)]]
    );
    assert!(combos.iter().all(|t| t.board == [0, 0, 10, 11, 12, 0, 0]));
}

#[test]
fn generated_hands_avoid_board_and_each_other() {
    let m = mask_of("4dQcQd");
    let r = HandRange { hands: vec![HoleCards(10, 11), HoleCards(0, 1), HoleCards(2, 3)] };
    let mut rng = SmallRng::seed_from_u64(7);
    for _ in 0..50 {
        let h = generate_hand(&mut rng, m, &[r.clone(), r.clone()], None);
        assert_eq!(h.hands.len(), 2);
        assert_ne!(h.hands[0], HoleCards(10, 11));
        assert_ne!(h.hands[0], h.hands[1]);
        assert_eq!(h.board, board_from_mask(m));
    }
}

#[test]
fn pinned_hero_and_exhausted_range() {
    let r = HandRange { hands: vec![HoleCards(0, 1)] };
    let mut rng = SmallRng::seed_from_u64(1);
    let h = generate_hand(&mut rng, 0, &[r.clone(), r.clone()], Some((HoleCards(20, 21), 1)));
    assert_eq!(h.hands, vec![HoleCards(0, 1), HoleCards(20, 21)]);
    let short = generate_hand(&mut rng, 0, &[r.clone(), r.clone()], None);
    assert_eq!(short.hands, vec![HoleCards(0, 1)]);
}
