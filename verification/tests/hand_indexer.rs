use rust_solver::hand_indexer::{HandIndexer, HandIndexerError};

#[test]
fn preflop_has_169_classes() {
    let idx = HandIndexer::init(1, &[2]).unwrap();
    assert_eq!(idx.size(0), 169);
}

// The expected sizes are the numbers of suit-isomorphism classes, as the
// C library reports them: 1,286,792 flop classes (preflop + flop) and
// 2,428,287,420 river classes (preflop + flop + turn + river).
#[test]
fn flop_indexer_size() {
    let idx = HandIndexer::init(2, &[2, 3]).unwrap();
    assert_eq!(idx.size(1), 1_286_792);
}

#[test]
fn flop_turn_river_indexer_size() {
    let idx = HandIndexer::init(4, &[2, 3, 1, 1]).unwrap();
    assert_eq!(idx.size(3), 2_428_287_420);
}

#[test]
fn flop_indexer_sizes() {
    let idx = HandIndexer::init(2, &[2, 3]).unwrap();
    assert_eq!(idx.size(0), 169);
    assert_eq!(idx.size(1), 1_286_792);
}

#[test]
fn river_indexer_sizes() {
    let idx = HandIndexer::init(4, &[2, 3, 1, 1]).unwrap();
    assert_eq!(idx.size(0), 169);
    assert_eq!(idx.size(1), 1_286_792);
    assert_eq!(idx.size(2), 55_190_538);
    assert_eq!(idx.size(3), 2_428_287_420);
    assert_eq!(idx.size(4), 0);
}

#[test]
fn init_errors() {
    assert_eq!(HandIndexer::init(0, &[]).err(), Some(HandIndexerError::ZeroRounds));
    assert_eq!(
        HandIndexer::init(9, &[1; 9]).err(),
        Some(HandIndexerError::TooManyRounds { rounds: 9 })
    );
    assert_eq!(
        HandIndexer::init(2, &[30, 30]).err(),
        Some(HandIndexerError::TooManyCards { total: 60, cards_in_deck: 52 })
    );
}

#[test]
fn preflop_round_trip() {
    let idx = HandIndexer::init(1, &[2]).unwrap();
    let mut cards = [0u8; 2];
    for i in 0..169u64 {
        idx.get_hand(0, i, &mut cards);
        assert_ne!(cards[0], cards[1]);
        assert_eq!(idx.get_index(&cards), i);
    }
}

#[test]
fn flop_round_trip_sample() {
    let idx = HandIndexer::init(2, &[2, 3]).unwrap();
    let mut cards = [0u8; 5];
    let mut i = 0u64;
    while i < idx.size(1) {
        idx.get_hand(1, i, &mut cards);
        assert_eq!(idx.get_index(&cards), i);
        i += 9973;
    }
}

#[test]
fn suit_swaps_keep_the_class() {
    let idx = HandIndexer::init(2, &[2, 3]).unwrap();
    // As Ks | 2s 7h 9d  versus the same hand with spades and clubs swapped
    let a = [48u8, 44, 0, 21, 30];
    let b = [51u8, 47, 3, 21, 30];
    assert_eq!(idx.get_index(&a), idx.get_index(&b));
    // order within a round does not matter
    let c = [44u8, 48, 30, 0, 21];
    assert_eq!(idx.get_index(&a), idx.get_index(&c));
}

/// A small deterministic generator for test hands.
struct Lcg(u64);

impl Lcg {
    fn next(&mut self, n: u64) -> u64 {
        self.0 = self.0.wrapping_mul(6364136223846793005).wrapping_add(1442695040888963407);
        (self.0 >> 33) % n
    }
}

fn random_hand(rng: &mut Lcg, n: usize) -> Vec<u8> {
    let mut deck: Vec<u8> = (0..52).collect();
    for i in 0..n {
        let j = i + rng.next((52 - i) as u64) as usize;
        deck.swap(i, j);
    }
    deck.truncate(n);
    deck
}

#[test]
fn turn_round_trip_sample() {
    let idx = HandIndexer::init(3, &[2, 3, 1]).unwrap();
    assert_eq!(idx.size(2), 55_190_538);
    let mut cards = [0u8; 6];
    let mut i = 0u64;
    while i < idx.size(2) {
        idx.get_hand(2, i, &mut cards);
        let mut sorted = cards.to_vec();
        sorted.sort();
        sorted.dedup();
        assert_eq!(sorted.len(), 6);
        assert!(cards.iter().all(|c| *c < 52));
        assert_eq!(idx.get_index(&cards), i);
        i += 104_729;
    }
}

#[test]
fn suit_relabelling_and_order_keep_the_class() {
    let idx = HandIndexer::init(2, &[2, 3]).unwrap();
    let mut rng = Lcg(42);
    for _ in 0..300 {
        let hand = random_hand(&mut rng, 5);
        let base = idx.get_index(&hand);
        assert!(base < idx.size(1));
        // relabel suits by a random permutation
        let mut perm = [0u8, 1, 2, 3];
        for i in 0..4 {
            let j = i + rng.next((4 - i) as u64) as usize;
            perm.swap(i, j);
        }
        let relabelled: Vec<u8> = hand.iter().map(|c| (c & !3) | perm[(c & 3) as usize]).collect();
        assert_eq!(idx.get_index(&relabelled), base);
        // reorder within each round
        let swapped = vec![hand[1], hand[0], hand[4], hand[2], hand[3]];
        assert_eq!(idx.get_index(&swapped), base);
        // the canonical hand of the class indexes back to it
        let mut canon = [0u8; 5];
        idx.get_hand(1, base, &mut canon);
        assert_eq!(idx.get_index(&canon), base);
    }
}

#[test]
fn get_hand_writes_only_the_requested_rounds() {
    let idx = HandIndexer::init(3, &[2, 3, 1]).unwrap();
    let mut i = 0u64;
    while i < idx.size(1) {
        let mut cards = [0xAAu8; 8];
        idx.get_hand(1, i, &mut cards);
        for k in 0..5 {
            assert!(cards[k] < 52);
            for l in 0..k {
                assert_ne!(cards[k], cards[l]);
            }
        }
        assert_eq!(&cards[5..], &[0xAA, 0xAA, 0xAA]);
        i += 7919;
    }
}

#[test]
fn get_hand_needs_only_the_requested_rounds() {
    let idx = HandIndexer::init(4, &[2, 3, 1, 1]).unwrap();
    let mut cards = [0u8; 5];
    let mut i = 0u64;
    while i < idx.size(1) {
        idx.get_hand(1, i, &mut cards);
        for k in 0..5 {
            assert!(cards[k] < 52);
            for l in 0..k {
                assert_ne!(cards[k], cards[l]);
            }
        }
        i += 104729;
    }
}
