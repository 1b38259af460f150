use rust_solver::actions::{Action, ActionAbstraction};
use rust_solver::state::{BettingRound, GameState, PlayerState};

fn make_2p(stacks: [u32; 2]) -> GameState {
    GameState::from_setup(&stacks.to_vec(), 0b111, 6, None, 2, 670)
}

fn make_3p(stacks: [u32; 3]) -> GameState {
    GameState::from_setup(&stacks.to_vec(), 0b111, 9, None, 2, 670)
}

#[test]
fn next_active_player_wraps_in_2p() {
    let s = make_2p([100, 100]);
    assert_eq!(s.next_active_player(), 1);
    let s1 = s.apply_action(&Action::Check);
    assert_eq!(s1.current, 1);
    assert_eq!(s1.next_active_player(), 0);
}

#[test]
fn next_active_player_skips_folded_3p() {
    let s = make_3p([100, 100, 100]);
    let s1 = s.apply_action(&Action::Check);
    assert_eq!(s1.current, 1);
    let s2 = s1.apply_action(&Action::Fold);
    assert_eq!(s2.current, 2);
    assert!(s2.players[1].has_folded);
}

#[test]
fn call_caps_at_stack() {
    let mut s = make_2p([5, 100]);
    s.players[1].wager = 20;
    s.players[1].has_acted_this_street = true;
    let after = s.apply_action(&Action::Call);
    assert_eq!(after.players[0].stack, 0);
    assert_eq!(after.players[0].wager, 5);
    assert_eq!(after.pot, 11);
}

#[test]
fn uncontested_3p_when_two_fold() {
    let s = make_3p([100, 100, 100]);
    let s = s.apply_action(&Action::Bet(500));
    let s = s.apply_action(&Action::Fold);
    let s = s.apply_action(&Action::Fold);
    assert!(s.is_uncontested(), "after p1 and p2 fold, 1 player remains");
    assert!(!s.players[0].has_folded);
    assert!(s.players[1].has_folded);
    assert!(s.players[2].has_folded);
}

#[test]
fn street_closed_after_match_2p() {
    let mut s = make_2p([100, 100]);
    s.players[0].wager = 10;
    s.players[0].has_acted_this_street = true;
    s.current = 1;
    let after = s.apply_action(&Action::Call);
    assert!(after.bets_settled, "street should be closed after call match");
    assert_eq!(after.players[1].wager, 10);
}

#[test]
fn next_round_advances_round_idx() {
    let s = make_2p([100, 100]);
    assert_eq!(s.round, BettingRound::Flop);
    let s2 = s.to_next_street();
    assert_eq!(s2.round, BettingRound::Turn);
    let s3 = s2.to_next_street();
    assert_eq!(s3.round, BettingRound::River);
}

#[test]
fn regr_check_check() {
    let s = make_2p([100, 100]);
    assert_eq!(s.pot, 6);
    let s1 = s.apply_action(&Action::Check);
    assert_eq!(s1.current, 1);
    assert!(!s1.bets_settled);
    let s2 = s1.apply_action(&Action::Check);
    assert!(s2.bets_settled);
    assert_eq!(s2.pot, 6);
    assert_eq!(s2.players[0].wager, 0);
    assert_eq!(s2.players[1].wager, 0);
}

#[test]
fn regr_bet_call() {
    let s = make_2p([100, 100]);
    let s1 = s.apply_action(&Action::Bet(500));
    assert_eq!(s1.players[0].wager, 3);
    assert_eq!(s1.players[0].stack, 97);
    assert_eq!(s1.pot, 9);
    assert_eq!(s1.current, 1);
    let s2 = s1.apply_action(&Action::Call);
    assert!(s2.bets_settled);
    assert_eq!(s2.players[1].wager, 3);
    assert_eq!(s2.players[1].stack, 97);
    assert_eq!(s2.pot, 12);
}

#[test]
fn regr_bet_raise_call() {
    let s = make_2p([100, 100]);
    let s1 = s.apply_action(&Action::Bet(500));
    assert_eq!(s1.pot, 9);
    let s2 = s1.apply_action(&Action::Raise(3000));
    assert_eq!(s2.players[1].wager, 9);
    assert_eq!(s2.players[1].stack, 91);
    assert_eq!(s2.pot, 18);
    assert_eq!(s2.current, 0);
    let s3 = s2.apply_action(&Action::Call);
    assert!(s3.bets_settled);
    assert_eq!(s3.players[0].wager, 9);
    assert_eq!(s3.players[0].stack, 91);
    assert_eq!(s3.pot, 24);
}

#[test]
fn regr_bet_fold_uncontested() {
    let s = make_2p([100, 100]);
    let s1 = s.apply_action(&Action::Bet(500));
    assert_eq!(s1.pot, 9);
    let s2 = s1.apply_action(&Action::Fold);
    assert!(s2.is_uncontested());
    assert_eq!(s2.players[1].has_folded, true);
    assert_eq!(s2.players[0].wager, 3);
    assert_eq!(s2.pot, 9);
}

#[test]
fn regr_stack_cap_on_call() {
    let mut s = make_2p([5, 100]);
    s.players[1].wager = 20;
    s.players[1].has_acted_this_street = true;
    s.pot = 26;
    let after = s.apply_action(&Action::Call);
    assert_eq!(after.players[0].stack, 0, "p0 should be all-in");
    assert_eq!(after.players[0].wager, 5, "p0 caps at remaining stack");
    assert_eq!(after.pot, 31);
}

fn chips(s: &GameState) -> u64 {
    s.pot as u64 + s.players.iter().map(|p| p.stack as u64).sum::<u64>()
}

#[test]
fn actions_conserve_chips() {
    let s = make_3p([100, 40, 100]);
    let total = chips(&s);
    let s = s.apply_action(&Action::Bet(1000));
    assert_eq!(chips(&s), total);
    let s = s.apply_action(&Action::Call);
    assert_eq!(chips(&s), total);
    let s = s.apply_action(&Action::Raise(2500));
    assert_eq!(chips(&s), total);
    let s = s.apply_action(&Action::Fold);
    assert_eq!(chips(&s), total);
    let s = s.to_next_street();
    assert_eq!(chips(&s), total);
}

#[test]
fn only_the_actor_changes() {
    let s = make_3p([100, 100, 100]);
    let s1 = s.apply_action(&Action::Bet(500));
    assert_eq!(s1.players[1], s.players[1]);
    assert_eq!(s1.players[2], s.players[2]);
    assert!(s1.players[0].has_acted_this_street);
    let s2 = s1.apply_action(&Action::Fold);
    let s3 = s2.apply_action(&Action::Call);
    assert!(s3.players[1].has_folded);
}

#[test]
fn next_player_can_act_or_turn_stays() {
    let mut s = make_3p([100, 0, 100]);
    assert_eq!(s.next_active_player(), 2);
    s.players[2].has_folded = true;
    assert_eq!(s.next_active_player(), 0);
    s.players[0].has_folded = true;
    assert_eq!(s.next_active_player(), 0);
}

#[test]
fn bet_over_threshold_goes_all_in() {
    let s = GameState::from_setup(&vec![10, 100], 0b111, 100, None, 2, 670);
    let s1 = s.apply_action(&Action::Bet(500));
    assert_eq!(s1.players[0].stack, 0);
    assert_eq!(s1.players[0].wager, 10);
    assert_eq!(s1.pot, 110);
    assert!(s1.is_allin());
    assert!(s1.is_terminal());
}

#[test]
fn from_setup_reads_board_and_pot() {
    let s = GameState::from_setup(&vec![50, 60, 70], 0b1111, 9, Some(30), 3, 1500);
    assert_eq!(s.round, BettingRound::Turn);
    assert_eq!(s.pot, 30);
    assert_eq!(s.num_players(), 3);
    assert_eq!(s.players[2], PlayerState::init(70));
    assert_eq!(s.current_player().stack, 50);
    let r = GameState::from_setup(&vec![50, 60], 0b11111, 9, None, 3, 1500);
    assert_eq!(r.round, BettingRound::River);
    assert_eq!(r.pot, 9);
    assert_eq!(BettingRound::River.to_usize(), 2);
    assert_eq!(BettingRound::Flop.next(), BettingRound::Turn);
}

#[test]
fn valid_actions_when_checked_to() {
    let s = make_2p([100, 100]);
    let abs = ActionAbstraction { bet_sizes: vec![vec![500, 1000]], raise_sizes: vec![vec![3000]] };
    assert_eq!(s.valid_actions(&abs, 0), vec![Action::Check, Action::Bet(500), Action::Bet(1000)]);
}

#[test]
fn valid_actions_facing_bet() {
    let s = make_2p([100, 100]);
    let abs = ActionAbstraction { bet_sizes: vec![vec![500, 1000]], raise_sizes: vec![vec![3000, 5000]] };
    let s1 = s.apply_action(&Action::Bet(500));
    assert_eq!(
        s1.valid_actions(&abs, 0),
        vec![Action::Call, Action::Fold, Action::Raise(3000), Action::Raise(5000)]
    );
}

#[test]
fn valid_actions_stop_after_first_size_over_threshold() {
    // pot 100, stack 60, threshold 0.67: the cap is 40.2 chips, so a
    // half-pot bet (50 chips) is the last size offered.
    let s = GameState::from_setup(&vec![60, 60], 0b111, 100, None, 2, 670);
    let abs = ActionAbstraction { bet_sizes: vec![vec![300, 500, 1000]], raise_sizes: vec![vec![]] };
    assert_eq!(s.valid_actions(&abs, 0), vec![Action::Check, Action::Bet(300), Action::Bet(500)]);
}

#[test]
fn no_raise_once_cap_reached() {
    let mut s = make_2p([100, 100]);
    s.players[0].wager = 10;
    s.raise_count = 2;
    s.current = 1;
    let abs = ActionAbstraction { bet_sizes: vec![vec![500]], raise_sizes: vec![vec![3000]] };
    assert_eq!(s.valid_actions(&abs, 0), vec![Action::Call, Action::Fold]);
    assert_eq!(s.highest_wager(), 10);
    assert!(!s.street_closed());
}

#[test]
fn action_names() {
    assert_eq!(Action::Check.to_string(), "Check");
    assert_eq!(Action::Bet(500).to_string(), "Bet 0.5");
    assert_eq!(Action::Bet(1000).to_string(), "Bet 1");
    assert_eq!(Action::Bet(750).to_string(), "Bet 0.75");
    assert_eq!(Action::Raise(3000).to_string(), "Raise 3");
    assert_eq!(Action::Raise(2500).to_string(), "Raise 2.5");
    assert_eq!(Action::Raise(12345).to_string(), "Raise 12.345");
    assert_eq!(Action::Bet(5).to_string(), "Bet 0.005");
    assert_eq!(Action::Fold.to_string(), "Fold");
    assert_eq!(Action::Call.to_string(), "Call");
}

#[test]
fn bet_between_stack_and_threshold_is_capped_at_the_stack() {
    // threshold 1.5: a 30-chip stack allows 45 before the all-in rule,
    // but the wager is still capped at the 30 chips the actor holds
    let s = GameState::from_setup(&vec![30, 100], 0b111, 80, None, 2, 1500);
    let s1 = s.apply_action(&Action::Bet(500));
    assert_eq!(s1.players[0].stack, 0);
    assert_eq!(s1.players[0].wager, 30);
    assert_eq!(s1.pot, 110);
}
