use rust_solver::deck::{card_rank, card_suit, make_card, rank_to_char, suit_to_char, mask_len, CARDS, RANKS, SUITS};

#[test]
fn card_round_trip() {
    for s in 0..SUITS as u8 {
        for r in 0..RANKS as u8 {
            let c = make_card(s, r);
            assert_eq!(card_suit(c), s);
            assert_eq!(card_rank(c), r);
        }
    }
}

#[test]
fn rank_to_char_init() {
    let arr = rank_to_char();
    assert_eq!(arr[0], '2');
    assert_eq!(arr[12], 'A');
}

#[test]
fn suit_chars_in_deck_order() {
    assert_eq!(suit_to_char(), ['s', 'h', 'd', 'c']);
}

#[test]
fn make_card_packs_rank_above_suit() {
    assert_eq!(make_card(3, 12), 51);
    assert_eq!(make_card(0, 0), 0);
    assert_eq!(make_card(2, 5), 22);
}

#[test]
fn every_card_decodes_to_itself() {
    for c in 0..CARDS as u8 {
        assert_eq!(make_card(card_suit(c), card_rank(c)), c);
    }
}

#[test]
fn mask_len_counts_cards() {
    assert_eq!(mask_len(0), 0);
    assert_eq!(mask_len(0b111), 3);
    assert_eq!(mask_len(u64::MAX), 64);
    assert_eq!(mask_len((1u64 << 51) | (1u64 << 7) | 1), 3);
}
