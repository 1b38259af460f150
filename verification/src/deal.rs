//! Dealing for training: boards read from card sets, the cards left to
//! deal, and hole cards drawn from the players' ranges.
//!
//! A board is seven slots: slots 0 and 1 are unused, the board cards
//! follow from slot 2 in increasing card order, and the rest are zero.
use vstd::prelude::*;
use crate::deck::{in_mask, mask_count};
use crate::hand_range::{
    HandRange, HoleCards, card_idx_to_str, card_name, cards_below, lemma_add_card,
    lemma_empty_mask,
};
use crate::state::{BettingRound, round_index};
use rand::rngs::SmallRng;
use rand::seq::SliceRandom;

verus! {

/// A training deal: each player's hole cards and the board.
#[derive(Debug, Clone)]
pub struct TrainHand {
    pub hands: Vec<HoleCards>,
    pub board: [u8; 7],
}

impl TrainHand {
    /// Number of players dealt in.
    pub fn num_players(&self) -> (n: usize)
        ensures
            n == self.hands@.len(),
    {
        self.hands.len()
    }
}

/// The board slots holding the cards of `mask` in increasing order from
/// slot 2.
pub open spec fn board_of(mask: u64) -> Seq<u8> {
    let cards = cards_below(mask, 64);
    Seq::new(
        7,
        |k: int|
            if 2 <= k < 2 + cards.len() {
                cards[k - 2] as u8
            } else {
                0u8
            },
    )
}

/// The set of the two cards of `h`.
pub open spec fn hole_mask(h: HoleCards) -> u64 {
    (1u64 << (h.0 as u64)) | (1u64 << (h.1 as u64))
}

/// Both cards of `h` are card indices below 64.
pub open spec fn hole_ok(h: HoleCards) -> bool {
    h.0 < 64 && h.1 < 64
}

/// The number of cards below `n` in a set is the length of their list.
proof fn lemma_cards_below_len(m: u64, n: nat)
    ensures
        cards_below(m, n).len() == mask_count(m, n),
        forall|k: int| 0 <= k < cards_below(m, n).len() ==> #[trigger] cards_below(m, n)[k] < n,
    decreases n,
{
    if n > 0 {
        lemma_cards_below_len(m, (n - 1) as nat);
    }
}

/// The board of the card set `mask`.
pub fn board_from_mask(mask: u64) -> (board: [u8; 7])
    requires
        mask_count(mask, 64) <= 5,
    ensures
        board@ == board_of(mask),
{
    let mut board: [u8; 7] = [0; 7];
    let mut i: usize = 2;
    let mut b: u64 = 0;
    proof {
        lemma_cards_below_len(mask, 64);
    }
    while b < 64
        invariant
            b <= 64,
            mask_count(mask, 64) <= 5,
            cards_below(mask, 64).len() == mask_count(mask, 64),
            i == 2 + cards_below(mask, b as nat).len(),
            i <= 2 + mask_count(mask, b as nat),
            mask_count(mask, b as nat) <= mask_count(mask, 64),
            forall|k: int|
                0 <= k < 7 ==> #[trigger] board@[k] == if 2 <= k < i {
                    cards_below(mask, b as nat)[k - 2] as u8
                } else {
                    0u8
                },
        decreases 64 - b,
    {
        proof {
            lemma_cards_below_len(mask, b as nat);
            lemma_cards_below_len(mask, b as nat + 1);
            lemma_mask_count_mono(mask, b as nat + 1, 64);
        }
        if (mask >> b) & 1 == 1 {
            board[i] = b as u8;
            i = i + 1;
        }
        b = b + 1;
    }
    assert(board@ =~= board_of(mask));
    board
}

/// Counting cards below a larger bound counts at least as many.
proof fn lemma_mask_count_mono(m: u64, a: nat, b: nat)
    requires
        a <= b,
    ensures
        mask_count(m, a) <= mask_count(m, b),
    decreases b - a,
{
    if a < b {
        lemma_mask_count_mono(m, a, (b - 1) as nat);
    }
}

/// Whether either hole card lies in the card set `board_mask`.
pub fn hand_conflicts(hand: HoleCards, board_mask: u64) -> (r: bool)
    requires
        hole_ok(hand),
    ensures
        r == (in_mask(board_mask, hand.0 as nat) || in_mask(board_mask, hand.1 as nat)),
{
    let a = hand.0 as u64;
    let b = hand.1 as u64;
    let mask = (1u64 << a) | (1u64 << b);
    let r = mask & board_mask != 0;
    assert(((1u64 << a) | (1u64 << b)) & board_mask != 0 <==> ((board_mask >> a) & 1 == 1 || (
    board_mask >> b) & 1 == 1)) by (bit_vector)
        requires
            a < 64,
            b < 64,
    ;
    r
}

/// Card `c` is held by a player of `hand` or lies in the first `n` board
/// cards (slots 2 on).
pub open spec fn dealt_already(hand: TrainHand, n: int, c: int) -> bool {
    ||| exists|p: int| 0 <= p < hand.hands@.len() && (#[trigger] hand.hands@[p].0 == c || hand.hands@[p].1 == c)
    ||| exists|k: int| 2 <= k < 2 + n && #[trigger] hand.board@[k] == c
}

/// The cards below 52, in increasing order, that `keep` admits.
pub open spec fn cards_where(keep: spec_fn(int) -> bool) -> Seq<u8> {
    Seq::new(52, |c: int| c as u8).filter(|c: u8| keep(c as int))
}

/// Number of board cards before `round`'s card is dealt: three before
/// the turn, four before the river.
pub open spec fn board_cards_before(round: BettingRound) -> int {
    if round == BettingRound::Turn {
        3
    } else {
        4
    }
}

/// The cards left to deal before the turn or the river are exactly the
/// cards below 52 that no player holds and that are not among the board
/// cards already out: slots 2 to 4 before the turn, slots 2 to 5 before
/// the river. The slot of the card about to be dealt is never read.
pub proof fn law_next_deals_are_the_unseen_cards(hand: TrainHand, round: BettingRound, c: int)
    requires
        round != BettingRound::Flop,
        0 <= c < 52,
    ensures
        cards_where(|x: int| !dealt_already(hand, board_cards_before(round), x)).contains(c as u8) <==> {
            &&& forall|p: int|
                0 <= p < hand.hands@.len() ==> (#[trigger] hand.hands@[p]).0 != c && hand.hands@[p].1 != c
            &&& hand.board@[2] != c
            &&& hand.board@[3] != c
            &&& hand.board@[4] != c
            &&& (round == BettingRound::River ==> hand.board@[5] != c)
        },
{
    let keep = |x: int| !dealt_already(hand, board_cards_before(round), x);
    let pred = |x: u8| keep(x as int);
    let all = Seq::new(52, |x: int| x as u8);
    let out = cards_where(keep);
    assert(out == all.filter(pred));
    assert(all[c] == c as u8);
    let unseen = {
        &&& forall|p: int|
            0 <= p < hand.hands@.len() ==> (#[trigger] hand.hands@[p]).0 != c && hand.hands@[p].1 != c
        &&& hand.board@[2] != c
        &&& hand.board@[3] != c
        &&& hand.board@[4] != c
        &&& (round == BettingRound::River ==> hand.board@[5] != c)
    };
    assert(keep(c) == unseen) by {
        if dealt_already(hand, board_cards_before(round), c) {
            if unseen {
                assert forall|p: int| 0 <= p < hand.hands@.len() implies !(#[trigger] hand.hands@[p].0 == c
                    || hand.hands@[p].1 == c) by {
                    assert(hand.hands@[p].0 != c && hand.hands@[p].1 != c);
                }
                assert forall|k: int| 2 <= k < 2 + board_cards_before(round) implies #[trigger] hand.board@[k]
                    != c by {
                    assert(k == 2 || k == 3 || k == 4 || k == 5);
                }
                assert(!dealt_already(hand, board_cards_before(round), c));
            }
        } else {
            assert forall|p: int| 0 <= p < hand.hands@.len() implies (#[trigger] hand.hands@[p]).0 != c
                && hand.hands@[p].1 != c by {
                if hand.hands@[p].0 == c || hand.hands@[p].1 == c {
                    assert(dealt_already(hand, board_cards_before(round), c));
                }
            }
            assert forall|k: int| 2 <= k < 2 + board_cards_before(round) implies #[trigger] hand.board@[k] != c by {
                if hand.board@[k] == c {
                    assert(dealt_already(hand, board_cards_before(round), c));
                }
            }
            assert(hand.board@[2] != c);
            assert(hand.board@[3] != c);
            assert(hand.board@[4] != c);
            if round == BettingRound::River {
                assert(hand.board@[5] != c);
            }
        }
    }
    if keep(c) {
        all.lemma_filter_contains(pred, c);
    }
    if out.contains(c as u8) {
        let i = choose|i: int| 0 <= i < out.len() && out[i] == c as u8;
        all.lemma_filter_pred(pred, i);
    }
}

/// The cards that can still be dealt before `round`: every card below 52
/// that no player holds and that is not among the board cards dealt so
/// far, in increasing order.
pub fn generate_possible_next_deals(round: BettingRound, hand: &TrainHand) -> (r: Vec<u8>)
    requires
        round != BettingRound::Flop,
        forall|p: int| 0 <= p < hand.hands@.len() ==> hole_ok(#[trigger] hand.hands@[p]),
        forall|k: int| 2 <= k < 2 + board_cards_before(round) ==> #[trigger] hand.board@[k] < 64,
    ensures
        r@ == cards_where(|c: int| !dealt_already(*hand, board_cards_before(round), c)),
{
    let n_board: usize = match round {
        BettingRound::Turn => 3,
        _ => 4,
    };
    let mut used: u64 = 0;
    let mut p: usize = 0;
    proof {
        assert forall|c: u64| c < 64 implies !in_mask(used, c as nat) by {
            lemma_empty_mask(c);
        }
    }
    while p < hand.hands.len()
        invariant
            p <= hand.hands@.len(),
            forall|q: int| 0 <= q < hand.hands@.len() ==> hole_ok(#[trigger] hand.hands@[q]),
            forall|c: u64|
                c < 64 ==> (#[trigger] in_mask(used, c as nat) <==> exists|q: int|
                    0 <= q < p && (#[trigger] hand.hands@[q].0 == c || hand.hands@[q].1 == c)),
        decreases hand.hands@.len() - p,
    {
        let h = hand.hands[p];
        let old_used = used;
        used = used | (1u64 << h.0 as u64);
        let mid = used;
        used = used | (1u64 << h.1 as u64);
        proof {
            assert forall|c: u64| c < 64 implies (in_mask(used, c as nat) <==> exists|q: int|
                0 <= q < p + 1 && (#[trigger] hand.hands@[q].0 == c || hand.hands@[q].1 == c)) by {
                lemma_add_card(old_used, h.0 as u64, c);
                lemma_add_card(mid, h.1 as u64, c);
                if in_mask(old_used, c as nat) {
                    let q = choose|q: int|
                        0 <= q < p && (#[trigger] hand.hands@[q].0 == c || hand.hands@[q].1 == c);
                    assert(0 <= q < p + 1 && (hand.hands@[q].0 == c || hand.hands@[q].1 == c));
                }
                if c == h.0 || c == h.1 {
                    assert(hand.hands@[p as int].0 == c || hand.hands@[p as int].1 == c);
                }
            }
        }
        p = p + 1;
    }
    let ghost players_used = used;
    let mut i: usize = 0;
    while i < n_board
        invariant
            i <= n_board,
            n_board == board_cards_before(round),
            p == hand.hands@.len(),
            forall|k: int| 2 <= k < 2 + board_cards_before(round) ==> #[trigger] hand.board@[k] < 64,
            forall|c: u64|
                c < 64 ==> (#[trigger] in_mask(used, c as nat) <==> (exists|q: int|
                    0 <= q < p && (#[trigger] hand.hands@[q].0 == c || hand.hands@[q].1 == c)) || exists|
                    k: int,
                | 2 <= k < 2 + i && #[trigger] hand.board@[k] == c),
        decreases n_board - i,
    {
        let card = hand.board[i + 2];
        let old_used = used;
        used = used | (1u64 << card as u64);
        proof {
            assert forall|c: u64| c < 64 implies (in_mask(used, c as nat) <==> (exists|q: int|
                0 <= q < p && (#[trigger] hand.hands@[q].0 == c || hand.hands@[q].1 == c)) || exists|
                k: int,
            | 2 <= k < 2 + i + 1 && #[trigger] hand.board@[k] == c) by {
                lemma_add_card(old_used, card as u64, c);
                if c == card {
                    assert(hand.board@[i + 2] == c);
                }
                if exists|k: int| 2 <= k < 2 + i && #[trigger] hand.board@[k] == c {
                    let k = choose|k: int| 2 <= k < 2 + i && #[trigger] hand.board@[k] == c;
                    assert(2 <= k < 2 + i + 1 && hand.board@[k] == c);
                }
                if exists|k: int| 2 <= k < 2 + i + 1 && #[trigger] hand.board@[k] == c {
                    let k = choose|k: int| 2 <= k < 2 + i + 1 && #[trigger] hand.board@[k] == c;
                    if k < 2 + i {
                        assert(2 <= k < 2 + i && hand.board@[k] == c);
                    }
                }
            }
        }
        i = i + 1;
    }
    let ghost keep = |c: int| !dealt_already(*hand, board_cards_before(round), c);
    let ghost all = Seq::new(52, |c: int| c as u8);
    let mut out: Vec<u8> = Vec::new();
    let mut c: u8 = 0;
    while c < 52
        invariant
            c <= 52,
            all == Seq::new(52, |c: int| c as u8),
            keep == (|c: int| !dealt_already(*hand, board_cards_before(round), c)),
            forall|x: u64| x < 64 ==> (#[trigger] in_mask(used, x as nat) <==> dealt_already(*hand, board_cards_before(round), x as int)),
            out@ == all.take(c as int).filter(|x: u8| keep(x as int)),
        decreases 52 - c,
    {
        assert(all.take(c as int + 1).drop_last() =~= all.take(c as int));
        assert(all.take(c as int + 1).last() == c);
        proof {
            reveal(Seq::filter);
        }
        if (1u64 << c as u64) & used == 0 {
            assert((1u64 << (c as u64)) & used == 0 <==> (used >> (c as u64)) & 1 != 1) by (bit_vector)
                requires
                    c < 64,
            ;
            assert(!in_mask(used, c as nat));
            out.push(c);
        } else {
            assert((1u64 << (c as u64)) & used != 0 <==> (used >> (c as u64)) & 1 == 1) by (bit_vector)
                requires
                    c < 64,
            ;
            assert(in_mask(used, c as nat));
        }
        c = c + 1;
    }
    assert(all.take(52) =~= all);
    out
}


/// Index of `round`'s card abstraction in a tree whose first street
/// starts with `board_count` board cards: rounds count from the first
/// street of the tree.
pub fn abs_idx_for_round(initial_board_mask: u64, round: BettingRound) -> (r: u8)
    requires
        3 <= mask_count(initial_board_mask, 64) <= 5,
        round_index(round) >= mask_count(initial_board_mask, 64) - 3,
    ensures
        r == round_index(round) - (mask_count(initial_board_mask, 64) - 3),
{
    let start = crate::deck::mask_len(initial_board_mask);
    let r = round.to_usize() as u8;
    r - (start as u8 - 3)
}

/// The card set `mask` with the cards `dealt` added.
pub fn board_mask_with_dealt(mask: u64, dealt: &[u8]) -> (r: u64)
    requires
        forall|i: int| 0 <= i < dealt@.len() ==> #[trigger] dealt@[i] < 64,
    ensures
        forall|c: u64|
            c < 64 ==> (#[trigger] in_mask(r, c as nat) <==> (in_mask(mask, c as nat) || dealt@.contains(
                c as u8,
            ))),
{
    let mut m = mask;
    let mut i: usize = 0;
    while i < dealt.len()
        invariant
            i <= dealt@.len(),
            forall|k: int| 0 <= k < dealt@.len() ==> #[trigger] dealt@[k] < 64,
            forall|c: u64|
                c < 64 ==> (#[trigger] in_mask(m, c as nat) <==> (in_mask(mask, c as nat)
                    || dealt@.take(i as int).contains(c as u8))),
        decreases dealt@.len() - i,
    {
        let card = dealt[i];
        let before = m;
        m = m | (1u64 << card as u64);
        proof {
            assert forall|c: u64| c < 64 implies (in_mask(m, c as nat) <==> (in_mask(mask, c as nat)
                || dealt@.take(i as int + 1).contains(c as u8))) by {
                lemma_add_card(before, card as u64, c);
                assert(dealt@.take(i as int + 1) =~= dealt@.take(i as int).push(card));
                if c == card as u64 {
                    assert(dealt@.take(i as int + 1)[i as int] == card);
                }
                if dealt@.take(i as int + 1).contains(c as u8) && c != card as u64 {
                    let k = choose|k: int| 0 <= k < i + 1 && #[trigger] dealt@.take(i as int + 1)[k] == c as u8;
                    assert(dealt@.take(i as int)[k] == c as u8);
                }
            }
        }
        i = i + 1;
    }
    assert(dealt@.take(i as int) =~= dealt@);
    m
}

/// The board of `mask` with the cards `dealt` placed in the slots after
/// its cards.
pub fn board_array_with_dealt(mask: u64, dealt: &[u8]) -> (board: [u8; 7])
    requires
        2 + mask_count(mask, 64) + dealt@.len() <= 7,
    ensures
        forall|k: int|
            0 <= k < 7 ==> #[trigger] board@[k] == if 2 + mask_count(mask, 64) <= k < 2 + mask_count(mask, 64)
                + dealt@.len() {
                dealt@[k - 2 - mask_count(mask, 64)]
            } else {
                board_of(mask)[k]
            },
{
    let mut board = board_from_mask(mask);
    let start = crate::deck::mask_len(mask) as usize;
    let mut slot: usize = 2 + start;
    let mut i: usize = 0;
    while i < dealt.len()
        invariant
            i <= dealt@.len(),
            start == mask_count(mask, 64),
            slot == 2 + start + i,
            2 + start + dealt@.len() <= 7,
            forall|k: int|
                0 <= k < 7 ==> #[trigger] board@[k] == if 2 + start <= k < 2 + start + i {
                    dealt@[k - 2 - start]
                } else {
                    board_of(mask)[k]
                },
        decreases dealt@.len() - i,
    {
        board[slot] = dealt[i];
        slot = slot + 1;
        i = i + 1;
    }
    board
}

/// Names of the cards of `mask`, lowest first.
pub fn board_mask_to_strings(mask: u64) -> (r: Vec<String>)
    requires
        forall|c: nat| 52 <= c < 64 ==> !#[trigger] in_mask(mask, c),
    ensures
        r@.map_values(|s: String| s@) == cards_below(mask, 64).map_values(|c: nat| card_name(c)),
{
    let mut out: Vec<String> = Vec::new();
    let mut b: u64 = 0;
    while b < 64
        invariant
            b <= 64,
            forall|c: nat| 52 <= c < 64 ==> !#[trigger] in_mask(mask, c),
            out@.map_values(|s: String| s@) == cards_below(mask, b as nat).map_values(
                |c: nat| card_name(c),
            ),
        decreases 64 - b,
    {
        if (mask >> b) & 1 == 1 {
            assert(in_mask(mask, b as nat));
            let name = card_idx_to_str(b as u8);
            let ghost before = out@.map_values(|s: String| s@);
            out.push(name);
            assert(cards_below(mask, b as nat + 1) == cards_below(mask, b as nat).push(b as nat));
            assert(out@.map_values(|s: String| s@) =~= before.push(card_name(b as nat)));
            assert(out@.map_values(|s: String| s@) =~= cards_below(mask, b as nat + 1).map_values(
                |c: nat| card_name(c),
            ));
        } else {
            assert(cards_below(mask, b as nat + 1) == cards_below(mask, b as nat));
        }
        b = b + 1;
    }
    out
}


/// The hole-card lists of the ranges.
pub open spec fn range_hands(ranges: Seq<HandRange>) -> Seq<Seq<HoleCards>> {
    ranges.map_values(|r: HandRange| r.hands@)
}

/// Every combination in the ranges has both cards below 64.
pub open spec fn ranges_ok(rs: Seq<Seq<HoleCards>>) -> bool {
    forall|p: int, j: int| 0 <= p < rs.len() && 0 <= j < rs[p].len() ==> hole_ok(#[trigger] rs[p][j])
}

/// Every way to pick, in order, one combination from each range from
/// `idx` on such that no two picks, nor a pick and `used`, share a card.
pub open spec fn combos_at(rs: Seq<Seq<HoleCards>>, idx: int, used: u64) -> Seq<Seq<HoleCards>>
    decreases rs.len() - idx, rs[idx].len() + 1,
{
    if 0 <= idx < rs.len() {
        choices(rs, idx, used, 0)
    } else {
        seq![Seq::empty()]
    }
}

/// The ways of `combos_at` whose pick from range `idx` is its `j`-th
/// combination or a later one.
pub open spec fn choices(rs: Seq<Seq<HoleCards>>, idx: int, used: u64, j: int) -> Seq<Seq<HoleCards>>
    decreases rs.len() - idx, rs[idx].len() - j,
{
    if 0 <= idx < rs.len() && 0 <= j < rs[idx].len() {
        let c = rs[idx][j];
        let m = hole_mask(c);
        (if m & used == 0 {
            combos_at(rs, idx + 1, used | m).map_values(|t: Seq<HoleCards>| seq![c] + t)
        } else {
            Seq::empty()
        }) + choices(rs, idx, used, j + 1)
    } else {
        Seq::empty()
    }
}

/// A copy of `v`.
fn copy_hands(v: &Vec<HoleCards>) -> (r: Vec<HoleCards>)
    ensures
        r@ == v@,
{
    let mut out: Vec<HoleCards> = Vec::new();
    let mut i: usize = 0;
    while i < v.len()
        invariant
            i <= v@.len(),
            out@ == v@.take(i as int),
        decreases v@.len() - i,
    {
        out.push(v[i]);
        i = i + 1;
        assert(out@ =~= v@.take(i as int));
    }
    assert(v@.take(i as int) =~= v@);
    out
}

/// Appends to `out`, for every way of `combos_at(idx, used)`, a deal of
/// `current` followed by that way, on `board`.
fn recurse_combos(
    idx: usize,
    ranges: &[HandRange],
    used: u64,
    current: &mut Vec<HoleCards>,
    out: &mut Vec<TrainHand>,
    board: &[u8; 7],
)
    requires
        idx <= ranges@.len(),
        ranges_ok(range_hands(ranges@)),
    ensures
        final(current)@ == old(current)@,
        final(out)@.map_values(|t: TrainHand| t.hands@) == old(out)@.map_values(
            |t: TrainHand| t.hands@,
        ) + combos_at(range_hands(ranges@), idx as int, used).map_values(
            |t: Seq<HoleCards>| old(current)@ + t,
        ),
        forall|k: int| 0 <= k < old(out)@.len() ==> #[trigger] final(out)@[k] == old(out)@[k],
        forall|k: int| old(out)@.len() <= k < final(out)@.len() ==> #[trigger] final(out)@[k].board == *board,
    decreases ranges@.len() - idx, range_hands(ranges@)[idx as int].len() + 1,
{
    let ghost rs = range_hands(ranges@);
    let ghost start = out@.map_values(|t: TrainHand| t.hands@);
    let ghost prefix = current@;
    let ghost out0 = out@;
    if idx == ranges.len() {
        out.push(TrainHand { board: *board, hands: copy_hands(current) });
        assert(combos_at(rs, idx as int, used) == seq![Seq::<HoleCards>::empty()]);
        assert(out@.map_values(|t: TrainHand| t.hands@) =~= start + combos_at(rs, idx as int, used).map_values(
            |t: Seq<HoleCards>| prefix + t,
        ));
        return;
    }
    let n_ranges = ranges.len();
    let hands = &ranges[idx].hands;
    assert(hands@ == rs[idx as int]);
    let mut j: usize = 0;
    while j < hands.len()
        invariant
            idx < ranges@.len(),
            n_ranges == ranges@.len(),
            rs == range_hands(ranges@),
            ranges_ok(rs),
            hands@ == rs[idx as int],
            j <= hands@.len(),
            current@ == prefix,
            forall|k: int| 0 <= k < out0.len() ==> #[trigger] out@[k] == out0[k],
            forall|k: int| out0.len() <= k < out@.len() ==> #[trigger] out@[k].board == *board,
            out0.len() <= out@.len(),
            start == out0.map_values(|t: TrainHand| t.hands@),
            out@.map_values(|t: TrainHand| t.hands@) + choices(rs, idx as int, used, j as int).map_values(
                |t: Seq<HoleCards>| prefix + t,
            ) == start + combos_at(rs, idx as int, used).map_values(|t: Seq<HoleCards>| prefix + t),
        decreases hands@.len() - j,
    {
        let c = hands[j];
        assert(hole_ok(rs[idx as int][j as int]));
        let a = c.0 as u64;
        let b = c.1 as u64;
        let mask = (1u64 << a) | (1u64 << b);
        let ghost before = out@.map_values(|t: TrainHand| t.hands@);
        let ghost tail = choices(rs, idx as int, used, j as int + 1);
        if mask & used == 0 {
            current.push(c);
            assert(idx + 1 <= n_ranges);
            recurse_combos(idx + 1, ranges, used | mask, current, out, board);
            current.pop();
            assert(current@ =~= prefix);
            let ghost sub = combos_at(rs, idx as int + 1, used | mask);
            assert(choices(rs, idx as int, used, j as int) == sub.map_values(
                |t: Seq<HoleCards>| seq![c] + t,
            ) + tail);
            assert forall|t: Seq<HoleCards>| prefix + (seq![c] + t) == #[trigger] (prefix.push(c) + t) by {
                assert(prefix + (seq![c] + t) =~= prefix.push(c) + t);
            }
            assert(sub.map_values(|t: Seq<HoleCards>| seq![c] + t).map_values(
                |t: Seq<HoleCards>| prefix + t,
            ) =~= sub.map_values(|t: Seq<HoleCards>| prefix.push(c) + t));
            assert(before + choices(rs, idx as int, used, j as int).map_values(
                |t: Seq<HoleCards>| prefix + t,
            ) =~= out@.map_values(|t: TrainHand| t.hands@) + tail.map_values(
                |t: Seq<HoleCards>| prefix + t,
            ));
        } else {
            assert(choices(rs, idx as int, used, j as int) == tail);
        }
        j = j + 1;
    }
    assert(choices(rs, idx as int, used, j as int) == Seq::<Seq<HoleCards>>::empty());
    assert(out@.map_values(|t: TrainHand| t.hands@) =~= out@.map_values(|t: TrainHand| t.hands@)
        + Seq::<Seq<HoleCards>>::empty().map_values(|t: Seq<HoleCards>| prefix + t));
}

/// Every deal of one combination per range in which no two players
/// share a card, in order (the first range varying slowest), on the
/// board of `board_mask`.
pub fn generate_all_hole_card_combos(board_mask: u64, hand_ranges: &[HandRange]) -> (r: Vec<TrainHand>)
    requires
        mask_count(board_mask, 64) <= 5,
        ranges_ok(range_hands(hand_ranges@)),
    ensures
        r@.map_values(|t: TrainHand| t.hands@) == combos_at(range_hands(hand_ranges@), 0, 0),
        forall|k: int| 0 <= k < r@.len() ==> (#[trigger] r@[k]).board@ == board_of(board_mask),
{
    let board = board_from_mask(board_mask);
    let mut combos: Vec<TrainHand> = Vec::new();
    let mut current: Vec<HoleCards> = Vec::new();
    recurse_combos(0, hand_ranges, 0, &mut current, &mut combos, &board);
    assert(combos_at(range_hands(hand_ranges@), 0, 0).map_values(
        |t: Seq<HoleCards>| Seq::<HoleCards>::empty() + t,
    ) =~= combos_at(range_hands(hand_ranges@), 0, 0));
    assert(combos@.map_values(|t: TrainHand| t.hands@) =~= Seq::<TrainHand>::empty().map_values(
        |t: TrainHand| t.hands@,
    ) + combos_at(range_hands(hand_ranges@), 0, 0));
    combos
}


/// Declares rand's small, fast generator.
#[verifier::external_type_specification]
#[verifier::external_body]
pub struct ExSmallRng(SmallRng);

/// rand's `SliceRandom::choose` on a slice of hole cards: none for an
/// empty slice, else one of its elements, picked with `rng`. Which
/// element is not stated: it depends on the generator's state.
#[verifier::external_body]
fn choose_combo(combos: &Vec<HoleCards>, rng: &mut SmallRng) -> (r: Option<HoleCards>)
    ensures
        r is None <==> combos@.len() == 0,
        r matches Some(c) ==> combos@.contains(c),
{
    combos.as_slice().choose(rng).copied()
}

/// The card set `base` with the cards of every hand of `hs` added.
pub open spec fn used_after(base: u64, hs: Seq<HoleCards>) -> u64
    decreases hs.len(),
{
    if hs.len() == 0 {
        base
    } else {
        used_after(base, hs.drop_last()) | hole_mask(hs.last())
    }
}

/// Seat `p` has pinned hole cards.
pub open spec fn pinned(pin_hero: Option<(HoleCards, u8)>, p: int) -> bool {
    pin_hero matches Some((h, hp)) && p == hp as int
}

/// The combinations of `combos` that share no card with `used`.
fn free_combos(combos: &Vec<HoleCards>, used: u64) -> (r: Vec<HoleCards>)
    requires
        forall|j: int| 0 <= j < combos@.len() ==> hole_ok(#[trigger] combos@[j]),
    ensures
        forall|c: HoleCards| #[trigger] r@.contains(c) ==> combos@.contains(c) && hole_mask(c) & used == 0,
        forall|j: int|
            0 <= j < combos@.len() && hole_mask(#[trigger] combos@[j]) & used == 0 ==> r@.contains(
                combos@[j],
            ),
{
    let mut out: Vec<HoleCards> = Vec::new();
    let mut i: usize = 0;
    while i < combos.len()
        invariant
            i <= combos@.len(),
            forall|j: int| 0 <= j < combos@.len() ==> hole_ok(#[trigger] combos@[j]),
            forall|c: HoleCards| #[trigger] out@.contains(c) ==> combos@.contains(c) && hole_mask(c) & used == 0,
            forall|j: int|
                0 <= j < i && hole_mask(#[trigger] combos@[j]) & used == 0 ==> out@.contains(combos@[j]),
        decreases combos@.len() - i,
    {
        let c = combos[i];
        assert(hole_ok(combos@[i as int]));
        let mask = (1u64 << c.0 as u64) | (1u64 << c.1 as u64);
        if mask & used == 0 {
            let ghost before = out@;
            out.push(c);
            proof {
                assert(out@[out@.len() - 1] == c);
                assert forall|x: HoleCards| #[trigger] out@.contains(x) implies combos@.contains(x) && hole_mask(x)
                    & used == 0 by {
                    let k = choose|k: int| 0 <= k < out@.len() && out@[k] == x;
                    if k < before.len() {
                        assert(before[k] == x);
                        assert(before.contains(x));
                    } else {
                        assert(combos@[i as int] == x);
                    }
                }
                assert forall|j: int| 0 <= j < i + 1 && hole_mask(#[trigger] combos@[j]) & used == 0 implies out@.contains(
                    combos@[j],
                ) by {
                    if j < i {
                        let k = choose|k: int| 0 <= k < before.len() && before[k] == combos@[j];
                        assert(out@[k] == combos@[j]);
                    } else {
                        assert(out@[out@.len() - 1] == combos@[j]);
                    }
                }
            }
        }
        i = i + 1;
    }
    out
}

/// Deals one hole-card combination to each player in turn: the pinned
/// seat gets the pinned cards, every other seat a combination of its
/// range, picked with `rng`, that shares no card with the board or the
/// cards dealt before it. When a seat has no such combination the deal
/// stops there and the players dealt so far are returned.
pub fn generate_hand(
    rng: &mut SmallRng,
    board_mask: u64,
    hand_ranges: &[HandRange],
    pin_hero: Option<(HoleCards, u8)>,
) -> (r: TrainHand)
    requires
        mask_count(board_mask, 64) <= 5,
        ranges_ok(range_hands(hand_ranges@)),
        pin_hero matches Some((h, _)) ==> hole_ok(h),
    ensures
        r.board@ == board_of(board_mask),
        r.hands@.len() <= hand_ranges@.len(),
        forall|p: int|
            0 <= p < r.hands@.len() ==> if pinned(pin_hero, p) {
                pin_hero matches Some((h, _)) && #[trigger] r.hands@[p] == h
            } else {
                &&& hand_ranges@[p].hands@.contains(r.hands@[p])
                &&& hole_mask(r.hands@[p]) & used_after(board_mask, r.hands@.take(p)) == 0
            },
        r.hands@.len() < hand_ranges@.len() ==> !pinned(pin_hero, r.hands@.len() as int) && forall|j: int|
            0 <= j < hand_ranges@[r.hands@.len() as int].hands@.len() ==> hole_mask(
                #[trigger] hand_ranges@[r.hands@.len() as int].hands@[j],
            ) & used_after(board_mask, r.hands@) != 0,
{
    let board = board_from_mask(board_mask);
    let mut used = board_mask;
    let mut hands: Vec<HoleCards> = Vec::new();
    let n = hand_ranges.len();
    let mut p: usize = 0;
    while p < n
        invariant
            n == hand_ranges@.len(),
            p <= n,
            board@ == board_of(board_mask),
            ranges_ok(range_hands(hand_ranges@)),
            pin_hero matches Some((h, _)) ==> hole_ok(h),
            hands@.len() == p,
            used == used_after(board_mask, hands@),
            forall|q: int|
                0 <= q < hands@.len() ==> if pinned(pin_hero, q) {
                    pin_hero matches Some((h, _)) && #[trigger] hands@[q] == h
                } else {
                    &&& hand_ranges@[q].hands@.contains(hands@[q])
                    &&& hole_mask(hands@[q]) & used_after(board_mask, hands@.take(q)) == 0
                },
        decreases n - p,
    {
        let ghost before = hands@;
        assert(hands@.push(HoleCards(0, 0)).take(p as int) =~= hands@);
        let mut pinned_here = false;
        if let Some((hero, hero_p)) = pin_hero {
            if p == hero_p as usize {
                pinned_here = true;
            }
        }
        if pinned_here {
            let hero = match pin_hero {
                Some((h, _)) => h,
                None => HoleCards(0, 0),
            };
            let mask = (1u64 << hero.0 as u64) | (1u64 << hero.1 as u64);
            hands.push(hero);
            used = used | mask;
            assert(hands@.drop_last() =~= before);
            assert forall|q: int| 0 <= q < p implies #[trigger] hands@.take(q) == before.take(q) by {
                assert(hands@.take(q) =~= before.take(q));
            }
        } else {
            let ghost rs = range_hands(hand_ranges@);
            assert(hand_ranges@[p as int].hands@ == rs[p as int]);
            let valid = free_combos(&hand_ranges[p].hands, used);
            match choose_combo(&valid, rng) {
                None => {
                    assert forall|j: int| 0 <= j < hand_ranges@[p as int].hands@.len() implies hole_mask(
                        #[trigger] hand_ranges@[p as int].hands@[j],
                    ) & used != 0 by {
                        if hole_mask(hand_ranges@[p as int].hands@[j]) & used == 0 {
                            assert(valid@.contains(hand_ranges@[p as int].hands@[j]));
                        }
                    }
                    return TrainHand { board, hands };
                },
                Some(c) => {
                    assert(valid@.contains(c));
                    proof {
                        let k = choose|k: int| 0 <= k < rs[p as int].len() && rs[p as int][k] == c;
                        assert(hole_ok(rs[p as int][k]));
                    }
                    let mask = (1u64 << c.0 as u64) | (1u64 << c.1 as u64);
                    hands.push(c);
                    used = used | mask;
                    assert(hands@.drop_last() =~= before);
                    assert(hands@.take(p as int) =~= before);
                    assert forall|q: int| 0 <= q < p implies #[trigger] hands@.take(q) == before.take(q) by {
                        assert(hands@.take(q) =~= before.take(q));
                    }
                },
            }
        }
        p = p + 1;
    }
    TrainHand { board, hands }
}

} // verus!
