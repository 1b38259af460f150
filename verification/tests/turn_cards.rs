use rust_solver::kk_turn::{hero_hole_cards, sample_turn_cards, FLOP, HERO_HAND, TURN_CARD_LIMIT};
use rust_solver::hand_range::HoleCards;
use rust_solver::python_api::{hero_pos_label, list_turn_cards_public, SolveFlopTreeConfig, DEFAULT_TURN_POT_CHIPS};

#[test]
fn turn_card_sampling_matches_rjeans() {
    let cards = sample_turn_cards(FLOP, HERO_HAND, TURN_CARD_LIMIT);
    assert_eq!(cards, vec!["Kd", "8s"]);
}

#[test]
fn python_sampling_agrees_with_benchmark() {
    let a = rust_solver::python_api::sample_turn_cards(FLOP, HERO_HAND, TURN_CARD_LIMIT);
    assert_eq!(a, vec!["Kd", "8s"]);
}

#[test]
fn turn_cards_leave_out_the_flop() {
    let cards = list_turn_cards_public("4dQcQd");
    assert_eq!(cards.len(), 49);
    assert!(!cards.contains(&"4d".to_string()));
    assert!(!cards.contains(&"Qc".to_string()));
    assert!(!cards.contains(&"Qd".to_string()));
    assert_eq!(cards[0], "2h");
    assert_eq!(cards[1], "2d");
    assert_eq!(cards[2], "2c");
    assert_eq!(cards[3], "2s");
    assert_eq!(cards[48], "As");
}

#[test]
fn empty_flop_lists_whole_deck() {
    let cards = list_turn_cards_public("");
    assert_eq!(cards.len(), 52);
}

#[test]
fn sampling_is_a_permutation_and_limit_zero_keeps_all() {
    let all = sample_turn_cards(FLOP, HERO_HAND, 0);
    let mut sorted = all.clone();
    sorted.sort();
    let mut listed = list_turn_cards_public(FLOP);
    listed.sort();
    assert_eq!(sorted, listed);
    let again = sample_turn_cards(FLOP, HERO_HAND, 0);
    assert_eq!(all, again);
    let five = sample_turn_cards(FLOP, HERO_HAND, 5);
    assert_eq!(five[..], all[..5]);
}

#[test]
fn hero_cards_are_kings() {
    assert_eq!(hero_hole_cards(), HoleCards(44, 47));
}

#[test]
fn position_labels() {
    assert_eq!(hero_pos_label(true), "IP");
    assert_eq!(hero_pos_label(false), "OOP");
}

#[test]
fn default_solve_config() {
    let c = SolveFlopTreeConfig::default();
    assert_eq!(c.hero_hand, "AsAh");
    assert_eq!(c.flop, "4dQcQd");
    assert_eq!(c.stack_bb, 12);
    assert_eq!(c.max_iter, 200);
    assert_eq!(c.turn_card_limit, 2);
    assert!(!c.weip_flop);
    assert!(c.turn_pot_chips.is_none());
    assert_eq!(c.n_threads, 1);
    assert_eq!(DEFAULT_TURN_POT_CHIPS, 616);
}

#[test]
fn sampled_turn_cards_are_distinct_off_flop_prefixes() {
    let all = rust_solver::python_api::sample_turn_cards("4dQcQd", "KsKc", 0);
    assert_eq!(all.len(), 49);
    for (i, c) in all.iter().enumerate() {
        assert!(!"4dQcQd".as_bytes().chunks(2).any(|ch| ch == c.as_bytes()));
        for d in &all[..i] {
            assert_ne!(c, d);
        }
    }
    for limit in [1usize, 2, 10, 49, 60] {
        let some = rust_solver::python_api::sample_turn_cards("4dQcQd", "KsKc", limit);
        assert_eq!(some.len(), limit.min(49));
        assert_eq!(&all[..some.len()], &some[..]);
    }
}
