//! N-player postflop betting state: whose turn it is, what each player
//! has wagered, and how an action changes the state.
use vstd::prelude::*;
use crate::actions::{Action, ActionAbstraction};
use crate::deck::{mask_count, mask_len};

verus! {

/// Postflop betting rounds.
#[derive(PartialEq, Eq, Debug, Copy, Clone, Structural)]
pub enum BettingRound {
    Flop,
    Turn,
    River,
}

/// Position of a round: flop 0, turn 1, river 2.
pub open spec fn round_index(r: BettingRound) -> nat {
    match r {
        BettingRound::Flop => 0,
        BettingRound::Turn => 1,
        BettingRound::River => 2,
    }
}

impl BettingRound {
    /// Position of the round: flop 0, turn 1, river 2.
    pub fn to_usize(&self) -> (r: usize)
        ensures
            r == round_index(*self),
    {
        match self {
            BettingRound::Flop => 0,
            BettingRound::Turn => 1,
            BettingRound::River => 2,
        }
    }

    /// The next round in postflop order; there is none after the river.
    pub fn next(self) -> (r: BettingRound)
        requires
            self != BettingRound::River,
        ensures
            round_index(r) == round_index(self) + 1,
    {
        match self {
            BettingRound::Flop => BettingRound::Turn,
            BettingRound::Turn => BettingRound::River,
            BettingRound::River => BettingRound::River,
        }
    }
}

/// One player's chips and status on the current street.
#[derive(Debug, Copy, Clone, PartialEq, Eq, Structural)]
pub struct PlayerState {
    pub stack: u32,
    pub wager: u32,
    pub has_folded: bool,
    pub has_acted_this_street: bool,
}

impl PlayerState {
    /// A player with `stack` chips who has neither wagered nor acted.
    pub open spec fn spec_init(stack: u32) -> PlayerState {
        PlayerState { stack, wager: 0, has_folded: false, has_acted_this_street: false }
    }

    /// A player with `stack` chips who has neither wagered nor acted.
    pub fn init(stack: u32) -> (p: PlayerState)
        ensures
            p == PlayerState::spec_init(stack),
    {
        PlayerState { stack, wager: 0, has_folded: false, has_acted_this_street: false }
    }
}

/// The betting state of a hand.
#[derive(Debug)]
pub struct GameState {
    pub players: Vec<PlayerState>,
    pub pot: u32,
    pub raise_count: u8,
    pub current: u8,
    pub round: BettingRound,
    pub bets_settled: bool,
    pub max_raises: u8,
    /// Fraction of the actor's stack, in thousandths, above which a bet or
    /// raise becomes all-in.
    pub all_in_threshold: u32,
}

/// Highest wager among players that have not folded; zero if none.
pub open spec fn highest_wager_of(ps: Seq<PlayerState>) -> u32
    decreases ps.len(),
{
    if ps.len() == 0 {
        0
    } else {
        let h = highest_wager_of(ps.drop_last());
        let p = ps.last();
        if !p.has_folded && p.wager > h {
            p.wager
        } else {
            h
        }
    }
}

/// Number of players that have not folded.
pub open spec fn active_count(ps: Seq<PlayerState>) -> nat
    decreases ps.len(),
{
    if ps.len() == 0 {
        0
    } else {
        active_count(ps.drop_last()) + if !ps.last().has_folded {
            1nat
        } else {
            0nat
        }
    }
}

/// Number of players that have not folded and still have chips.
pub open spec fn can_act_count(ps: Seq<PlayerState>) -> nat
    decreases ps.len(),
{
    if ps.len() == 0 {
        0
    } else {
        can_act_count(ps.drop_last()) + if !ps.last().has_folded && ps.last().stack > 0 {
            1nat
        } else {
            0nat
        }
    }
}

/// Total chips behind, over all players.
pub open spec fn stacks_total(ps: Seq<PlayerState>) -> int
    decreases ps.len(),
{
    if ps.len() == 0 {
        0
    } else {
        stacks_total(ps.drop_last()) + ps.last().stack
    }
}

/// Some player that has not folded has no chips left.
pub open spec fn some_allin(ps: Seq<PlayerState>) -> bool {
    exists|i: int| 0 <= i < ps.len() && !(#[trigger] ps[i]).has_folded && ps[i].stack == 0
}

/// Every player that has not folded has wagered `target`.
pub open spec fn all_matched(ps: Seq<PlayerState>, target: u32) -> bool {
    forall|i: int| 0 <= i < ps.len() && !(#[trigger] ps[i]).has_folded ==> ps[i].wager == target
}

/// Seat `i` may still act: not folded, chips left.
pub open spec fn can_act(p: PlayerState) -> bool {
    !p.has_folded && p.stack > 0
}

/// The first seat after `cur`, going round the table from offset `off`,
/// that can still act.
pub open spec fn first_can_act(ps: Seq<PlayerState>, cur: int, off: int) -> Option<int>
    decreases ps.len() + 1 - off,
{
    if off > ps.len() || off < 1 {
        None
    } else {
        let c = (cur + off) % (ps.len() as int);
        if can_act(ps[c]) {
            Some(c)
        } else {
            first_can_act(ps, cur, off + 1)
        }
    }
}

/// The next player to act after seat `cur`: the first seat round the
/// table that can still act, or `cur` itself when there is none.
pub open spec fn next_active_of(ps: Seq<PlayerState>, cur: u8) -> u8 {
    match first_can_act(ps, cur as int, 1) {
        Some(c) => c as u8,
        None => cur,
    }
}

/// Whether the street is closed: already settled, at most one player can
/// still put chips in, or every active player has matched the highest
/// wager and the player to act has already acted.
pub open spec fn street_closed_of(ps: Seq<PlayerState>, cur: u8, settled: bool) -> bool {
    ||| settled
    ||| can_act_count(ps) <= 1
    ||| all_matched(ps, highest_wager_of(ps)) && ps[cur as int].has_acted_this_street
}

/// `base` times `amt` thousandths, rounded down and saturated to `u32`.
pub open spec fn scaled(base: u32, amt: u32) -> u32 {
    let c = base as int * amt as int / 1000;
    if c > u32::MAX {
        u32::MAX
    } else {
        c as u32
    }
}

/// How many of `sizes` a street offers: sizes are taken in order up to
/// and including the first whose chips (`size` thousandths of `base`)
/// exceed the all-in cap (`threshold` thousandths of `stack`); all of
/// them when none does. Counted from position `i`.
pub open spec fn offered_from(sizes: Seq<u32>, base: u32, threshold: u32, stack: u32, i: int) -> int
    decreases sizes.len() - i,
{
    if i < 0 || i >= sizes.len() {
        sizes.len() as int
    } else if sizes[i] as int * base as int > threshold as int * stack as int {
        i + 1
    } else {
        offered_from(sizes, base, threshold, stack, i + 1)
    }
}

/// The bets offered from `sizes` on a pot of `pot`.
pub open spec fn offered_bets(sizes: Seq<u32>, pot: u32, threshold: u32, stack: u32) -> Seq<Action> {
    sizes.take(offered_from(sizes, pot, threshold, stack, 0)).map_values(|s: u32| Action::Bet(s))
}

/// The raises offered from `sizes` against a highest wager of `hw`.
pub open spec fn offered_raises(sizes: Seq<u32>, hw: u32, threshold: u32, stack: u32) -> Seq<Action> {
    sizes.take(offered_from(sizes, hw, threshold, stack, 0)).map_values(|s: u32| Action::Raise(s))
}

/// A bet (`is_bet`) or raise of `size` thousandths.
pub open spec fn sized_action(is_bet: bool, size: u32) -> Action {
    if is_bet {
        Action::Bet(size)
    } else {
        Action::Raise(size)
    }
}

/// Appends to `actions` the bets (`is_bet`) or raises offered from
/// `sizes` against `base`: in order, up to and including the first whose
/// chips go over `threshold` thousandths of `stack`.
fn push_offered(
    actions: &mut Vec<Action>,
    sizes: &Vec<u32>,
    base: u32,
    threshold: u32,
    stack: u32,
    is_bet: bool,
)
    ensures
        final(actions)@ == old(actions)@ + sizes@.take(
            offered_from(sizes@, base, threshold, stack, 0),
        ).map_values(|s: u32| sized_action(is_bet, s)),
{
    let ghost start = actions@;
    let ghost k = offered_from(sizes@, base, threshold, stack, 0);
    let mut i: usize = 0;
    while i < sizes.len()
        invariant
            i <= sizes@.len(),
            offered_from(sizes@, base, threshold, stack, i as int) == k,
            start == old(actions)@,
            k == offered_from(sizes@, base, threshold, stack, 0),
            actions@ == start + sizes@.take(i as int).map_values(|s: u32| sized_action(is_bet, s)),
        decreases sizes@.len() - i,
    {
        let size = sizes[i];
        let action = if is_bet {
            Action::Bet(size)
        } else {
            Action::Raise(size)
        };
        actions.push(action);
        assert(sizes@.take(i as int + 1).map_values(|s: u32| sized_action(is_bet, s))
            =~= sizes@.take(i as int).map_values(|s: u32| sized_action(is_bet, s)).push(action));
        assert(size as u64 * base as u64 <= u64::MAX) by (nonlinear_arith);
        assert(threshold as u64 * stack as u64 <= u64::MAX) by (nonlinear_arith);
        if size as u64 * base as u64 > threshold as u64 * stack as u64 {
            assert(k == i + 1);
            assert(actions@ =~= start + sizes@.take(k).map_values(|s: u32| sized_action(is_bet, s)));
            return;
        }
        i = i + 1;
    }
    assert(sizes@.take(i as int) =~= sizes@.take(k));
}

/// `base` times `amt` thousandths, rounded down and saturated to `u32`.
fn scale(base: u32, amt: u32) -> (r: u32)
    ensures
        r == scaled(base, amt),
{
    assert(base as u64 * amt as u64 <= u64::MAX) by (nonlinear_arith);
    let c64 = base as u64 * amt as u64 / 1000;
    if c64 > u32::MAX as u64 {
        u32::MAX
    } else {
        c64 as u32
    }
}

impl GameState {
    /// The legal actions of the player to act on street `round_idx` of
    /// the abstraction: check when level with the highest wager, call and
    /// fold when behind it; bets when level, raises when behind while the
    /// raise cap is not reached and nobody is all-in. Sizes are offered in
    /// order up to the first that goes over the all-in threshold.
    pub open spec fn valid_actions_of(&self, bets: Seq<u32>, raises: Seq<u32>) -> Seq<Action> {
        let me = self.players@[self.current as int];
        let hw = highest_wager_of(self.players@);
        let can_check = hw == me.wager;
        let facing = hw > me.wager;
        (if can_check { seq![Action::Check] } else { Seq::empty() })
            + (if facing { seq![Action::Call, Action::Fold] } else { Seq::empty() })
            + (if can_check {
                offered_bets(bets, self.pot, self.all_in_threshold, me.stack)
            } else {
                Seq::empty()
            })
            + (if facing && self.raise_count < self.max_raises && !some_allin(self.players@) {
                offered_raises(raises, hw, self.all_in_threshold, me.stack)
            } else {
                Seq::empty()
            })
    }

    /// Chips the actor puts in for `action`: a bet or raise above the
    /// all-in threshold, or above the actor's stack, puts in the whole
    /// stack; a call is capped at the stack.
    pub open spec fn chips_for(&self, action: Action) -> u32 {
        let me = self.players@[self.current as int];
        let hw = highest_wager_of(self.players@);
        match action {
            Action::Bet(amt) => {
                let chips = scaled(self.pot, amt);
                if chips > scaled(me.stack, self.all_in_threshold) || chips > me.stack {
                    me.stack
                } else {
                    chips
                }
            },
            Action::Raise(amt) => {
                let target = scaled(hw, amt);
                let chips = if target >= me.wager {
                    (target - me.wager) as u32
                } else {
                    0
                };
                if chips > scaled(me.stack, self.all_in_threshold) || chips > me.stack {
                    me.stack
                } else {
                    chips
                }
            },
            Action::Call => {
                let diff = if hw >= me.wager {
                    (hw - me.wager) as u32
                } else {
                    0
                };
                if diff < me.stack {
                    diff
                } else {
                    me.stack
                }
            },
            _ => 0,
        }
    }

    /// The actor after `action`: chips moved from stack to wager (a bet
    /// sets the wager), folded on a fold, and marked as having acted.
    pub open spec fn actor_after(&self, action: Action) -> PlayerState {
        let me = self.players@[self.current as int];
        let chips = self.chips_for(action);
        match action {
            Action::Bet(_) => PlayerState {
                stack: (me.stack - chips) as u32,
                wager: chips,
                has_folded: me.has_folded,
                has_acted_this_street: true,
            },
            Action::Raise(_) | Action::Call => PlayerState {
                stack: (me.stack - chips) as u32,
                wager: (me.wager + chips) as u32,
                has_folded: me.has_folded,
                has_acted_this_street: true,
            },
            Action::Check => PlayerState { has_acted_this_street: true, ..me },
            Action::Fold => PlayerState { has_folded: true, has_acted_this_street: true, ..me },
        }
    }

    /// The action is one the betting rules can apply without any count
    /// leaving its integer type.
    pub open spec fn can_apply(&self, action: Action) -> bool {
        let me = self.players@[self.current as int];
        let chips = self.chips_for(action);
        &&& (self.current as int) < self.players@.len()
        &&& self.pot + chips <= u32::MAX
        &&& (match action {
            Action::Raise(_) => me.wager + chips <= u32::MAX && self.raise_count < u8::MAX,
            _ => true,
        })
    }

    /// The state at the start of postflop betting: every player holds
    /// their stack with nothing wagered, the first seat acts, and the
    /// round is the flop, turn or river as the board holds three, four
    /// or five cards. The pot is `postflop_pot_override` when given, else
    /// `starting_pot`.
    pub fn from_setup(
        stack_sizes: &Vec<u32>,
        board_mask: u64,
        starting_pot: u32,
        postflop_pot_override: Option<u32>,
        max_raises: u8,
        all_in_threshold: u32,
    ) -> (res: GameState)
        requires
            3 <= mask_count(board_mask, 64) <= 5,
        ensures
            res.players@ == stack_sizes@.map_values(|st: u32| PlayerState::spec_init(st)),
            res.round == (if mask_count(board_mask, 64) == 3 {
                BettingRound::Flop
            } else if mask_count(board_mask, 64) == 4 {
                BettingRound::Turn
            } else {
                BettingRound::River
            }),
            res.current == 0,
            !res.bets_settled,
            res.pot == (match postflop_pot_override {
                Some(p) => p,
                None => starting_pot,
            }),
            res.raise_count == 0,
            res.max_raises == max_raises,
            res.all_in_threshold == all_in_threshold,
    {
        let mut players: Vec<PlayerState> = Vec::new();
        let mut i: usize = 0;
        while i < stack_sizes.len()
            invariant
                i <= stack_sizes@.len(),
                players@ == stack_sizes@.take(i as int).map_values(
                    |st: u32| PlayerState::spec_init(st),
                ),
            decreases stack_sizes@.len() - i,
        {
            let p = PlayerState::init(stack_sizes[i]);
            players.push(p);
            assert(stack_sizes@.take(i as int + 1).map_values(|st: u32| PlayerState::spec_init(st))
                =~= stack_sizes@.take(i as int).map_values(|st: u32| PlayerState::spec_init(st)).push(
                p,
            ));
            i = i + 1;
        }
        assert(stack_sizes@.take(i as int) =~= stack_sizes@);
        let n = mask_len(board_mask);
        let round = if n == 3 {
            BettingRound::Flop
        } else if n == 4 {
            BettingRound::Turn
        } else {
            BettingRound::River
        };
        let pot = match postflop_pot_override {
            Some(p) => p,
            None => starting_pot,
        };
        GameState {
            players,
            pot,
            raise_count: 0,
            current: 0,
            round,
            bets_settled: false,
            max_raises,
            all_in_threshold,
        }
    }

    /// The legal actions of the player to act on street `round_idx` of
    /// the abstraction (see `valid_actions_of`).
    pub fn valid_actions(&self, action_abs: &ActionAbstraction, round_idx: usize) -> (r: Vec<Action>)
        requires
            (self.current as int) < self.players@.len(),
            round_idx < action_abs.bet_sizes@.len(),
            round_idx < action_abs.raise_sizes@.len(),
        ensures
            r@ == self.valid_actions_of(
                action_abs.bet_sizes@[round_idx as int]@,
                action_abs.raise_sizes@[round_idx as int]@,
            ),
    {
        let mut actions: Vec<Action> = Vec::new();
        let me = self.players[self.current as usize];
        let target_wager = self.highest_wager();
        let can_check = target_wager == me.wager;
        let facing_bet = target_wager > me.wager;
        if can_check {
            actions.push(Action::Check);
        }
        if facing_bet {
            actions.push(Action::Call);
            actions.push(Action::Fold);
        }
        let ghost head = actions@;
        if can_check {
            push_offered(
                &mut actions,
                &action_abs.bet_sizes[round_idx],
                self.pot,
                self.all_in_threshold,
                me.stack,
                true,
            );
        }
        let ghost mid = actions@;
        if facing_bet && self.raise_count < self.max_raises && !self.is_allin() {
            push_offered(
                &mut actions,
                &action_abs.raise_sizes[round_idx],
                target_wager,
                self.all_in_threshold,
                me.stack,
                false,
            );
        }
        proof {
            let bets = action_abs.bet_sizes@[round_idx as int]@;
            let raises = action_abs.raise_sizes@[round_idx as int]@;
            assert(bets.take(offered_from(bets, self.pot, self.all_in_threshold, me.stack, 0)).map_values(
                |s: u32| sized_action(true, s),
            ) =~= offered_bets(bets, self.pot, self.all_in_threshold, me.stack));
            assert(raises.take(
                offered_from(raises, target_wager, self.all_in_threshold, me.stack, 0),
            ).map_values(|s: u32| sized_action(false, s)) =~= offered_raises(
                raises,
                target_wager,
                self.all_in_threshold,
                me.stack,
            ));
            let v = self.valid_actions_of(bets, raises);
            assert(actions@ =~= v);
        }
        actions
    }

    /// The state after `action`: the actor's chips move, the actor is
    /// marked as having acted, play passes to the next player who can act,
    /// and the street is settled once it is closed.
    pub fn apply_action(&self, action: &Action) -> (res: GameState)
        requires
            self.can_apply(*action),
            self.players@.len() <= 256,
        ensures
            res.players@ == self.players@.update(self.current as int, self.actor_after(*action)),
            res.pot == self.pot + self.chips_for(*action),
            res.raise_count == self.raise_count + if action is Raise {
                1int
            } else {
                0int
            },
            res.current == next_active_of(res.players@, self.current),
            res.bets_settled == street_closed_of(res.players@, res.current, self.bets_settled),
            res.round == self.round,
            res.max_raises == self.max_raises,
            res.all_in_threshold == self.all_in_threshold,
    {
        let me_idx = self.current as usize;
        let target_wager = self.highest_wager();
        let mut players: Vec<PlayerState> = Vec::new();
        let mut i: usize = 0;
        while i < self.players.len()
            invariant
                i <= self.players@.len(),
                players@ == self.players@.take(i as int),
            decreases self.players@.len() - i,
        {
            players.push(self.players[i]);
            i = i + 1;
        }
        assert(players@ =~= self.players@);
        let mut me = self.players[me_idx];
        let mut pot = self.pot;
        let mut raise_count = self.raise_count;
        let cap = scale(me.stack, self.all_in_threshold);
        match action {
            Action::Bet(amt) => {
                let mut chips = scale(pot, *amt);
                if chips > cap || chips > me.stack {
                    chips = me.stack;
                }
                me.stack = me.stack - chips;
                me.wager = chips;
                pot = pot + chips;
            },
            Action::Raise(amt) => {
                let target = scale(target_wager, *amt);
                let mut chips = target.saturating_sub(me.wager);
                if chips > cap || chips > me.stack {
                    chips = me.stack;
                }
                me.stack = me.stack - chips;
                me.wager = me.wager + chips;
                pot = pot + chips;
                raise_count = raise_count + 1;
            },
            Action::Call => {
                let wager_diff = target_wager.saturating_sub(me.wager);
                let chips = if wager_diff < me.stack {
                    wager_diff
                } else {
                    me.stack
                };
                me.stack = me.stack - chips;
                me.wager = me.wager + chips;
                pot = pot + chips;
            },
            Action::Check => {},
            Action::Fold => {
                me.has_folded = true;
            },
        }
        me.has_acted_this_street = true;
        players.set(me_idx, me);
        let mut new_state = GameState {
            players,
            pot,
            raise_count,
            current: self.current,
            round: self.round,
            bets_settled: self.bets_settled,
            max_raises: self.max_raises,
            all_in_threshold: self.all_in_threshold,
        };
        let next = new_state.next_active_player();
        proof {
            lemma_next_active_in_range(new_state.players@, self.current);
        }
        new_state.current = next;
        if new_state.street_closed() {
            new_state.bets_settled = true;
        }
        new_state
    }

    /// Advance to the next street: wagers and the acted flags are reset,
    /// the first seat acts, no raises have been made, and the round moves
    /// on. There is no street after the river.
    pub fn to_next_street(&self) -> (res: GameState)
        requires
            self.round != BettingRound::River,
        ensures
            res.players@.len() == self.players@.len(),
            forall|i: int|
                0 <= i < self.players@.len() ==> #[trigger] res.players@[i] == (PlayerState {
                    wager: 0,
                    has_acted_this_street: false,
                    ..self.players@[i]
                }),
            res.pot == self.pot,
            stacks_total(res.players@) == stacks_total(self.players@),
            res.raise_count == 0,
            res.current == 0,
            !res.bets_settled,
            round_index(res.round) == round_index(self.round) + 1,
            res.max_raises == self.max_raises,
            res.all_in_threshold == self.all_in_threshold,
    {
        let mut players: Vec<PlayerState> = Vec::new();
        let mut i: usize = 0;
        while i < self.players.len()
            invariant
                i <= self.players@.len(),
                players@.len() == i,
                forall|k: int|
                    0 <= k < i ==> #[trigger] players@[k] == (PlayerState {
                        wager: 0,
                        has_acted_this_street: false,
                        ..self.players@[k]
                    }),
            decreases self.players@.len() - i,
        {
            let p = self.players[i];
            players.push(
                PlayerState {
                    stack: p.stack,
                    wager: 0,
                    has_folded: p.has_folded,
                    has_acted_this_street: false,
                },
            );
            i = i + 1;
        }
        proof {
            lemma_stacks_total_same(players@, self.players@);
        }
        GameState {
            players,
            pot: self.pot,
            raise_count: 0,
            current: 0,
            round: self.round.next(),
            bets_settled: false,
            max_raises: self.max_raises,
            all_in_threshold: self.all_in_threshold,
        }
    }

    pub fn num_players(&self) -> (n: usize)
        ensures
            n == self.players@.len(),
    {
        self.players.len()
    }

    pub fn current_player(&self) -> (p: &PlayerState)
        requires
            (self.current as int) < self.players@.len(),
        ensures
            *p == self.players@[self.current as int],
    {
        &self.players[self.current as usize]
    }

    /// Index of the next player who can act, skipping folded players and
    /// players with no chips. If there is none, returns `self.current`.
    pub fn next_active_player(&self) -> (r: u8)
        requires
            self.players@.len() <= 256,
        ensures
            r == next_active_of(self.players@, self.current),
    {
        let n = self.players.len();
        let mut offset: usize = 1;
        while offset <= n
            invariant
                1 <= offset <= n + 1,
                n == self.players@.len(),
                n <= 256,
                first_can_act(self.players@, self.current as int, 1) == first_can_act(
                    self.players@,
                    self.current as int,
                    offset as int,
                ),
            decreases n + 1 - offset,
        {
            let candidate = (self.current as usize + offset) % n;
            if !self.players[candidate].has_folded && self.players[candidate].stack > 0 {
                return #[verifier::truncate] (candidate as u8);
            }
            offset = offset + 1;
        }
        self.current
    }

    /// Highest wager among active (non-folded) players.
    pub fn highest_wager(&self) -> (r: u32)
        ensures
            r == highest_wager_of(self.players@),
    {
        let mut best: u32 = 0;
        let mut i: usize = 0;
        while i < self.players.len()
            invariant
                i <= self.players@.len(),
                best == highest_wager_of(self.players@.take(i as int)),
            decreases self.players@.len() - i,
        {
            assert(self.players@.take(i as int + 1).drop_last() =~= self.players@.take(i as int));
            let p = self.players[i];
            if !p.has_folded && p.wager > best {
                best = p.wager;
            }
            i = i + 1;
        }
        assert(self.players@.take(i as int) =~= self.players@);
        best
    }

    /// True if exactly one active (non-folded) player remains.
    pub fn is_uncontested(&self) -> (r: bool)
        ensures
            r == (active_count(self.players@) <= 1),
    {
        let mut active: usize = 0;
        let mut i: usize = 0;
        while i < self.players.len()
            invariant
                i <= self.players@.len(),
                active == active_count(self.players@.take(i as int)),
                active <= i,
            decreases self.players@.len() - i,
        {
            assert(self.players@.take(i as int + 1).drop_last() =~= self.players@.take(i as int));
            if !self.players[i].has_folded {
                active = active + 1;
            }
            i = i + 1;
        }
        assert(self.players@.take(i as int) =~= self.players@);
        active <= 1
    }

    /// True if at least one active player is all-in.
    pub fn is_allin(&self) -> (r: bool)
        ensures
            r == some_allin(self.players@),
    {
        let mut i: usize = 0;
        while i < self.players.len()
            invariant
                i <= self.players@.len(),
                forall|k: int|
                    0 <= k < i ==> !(!(#[trigger] self.players@[k]).has_folded
                        && self.players@[k].stack == 0),
            decreases self.players@.len() - i,
        {
            if !self.players[i].has_folded && self.players[i].stack == 0 {
                return true;
            }
            i = i + 1;
        }
        false
    }

    /// The hand is over: the river's betting is settled, someone is
    /// all-in, or only one player remains.
    pub fn is_terminal(&self) -> (r: bool)
        ensures
            r == ((self.round == BettingRound::River && self.bets_settled) || some_allin(
                self.players@,
            ) || active_count(self.players@) <= 1),
    {
        (self.round == BettingRound::River && self.bets_settled) || self.is_allin()
            || self.is_uncontested()
    }

    fn count_can_act(&self) -> (r: usize)
        ensures
            r == can_act_count(self.players@),
    {
        let mut c: usize = 0;
        let mut i: usize = 0;
        while i < self.players.len()
            invariant
                i <= self.players@.len(),
                c == can_act_count(self.players@.take(i as int)),
                c <= i,
            decreases self.players@.len() - i,
        {
            assert(self.players@.take(i as int + 1).drop_last() =~= self.players@.take(i as int));
            if !self.players[i].has_folded && self.players[i].stack > 0 {
                c = c + 1;
            }
            i = i + 1;
        }
        assert(self.players@.take(i as int) =~= self.players@);
        c
    }

    fn all_wagers_match(&self, target: u32) -> (r: bool)
        ensures
            r == all_matched(self.players@, target),
    {
        let mut i: usize = 0;
        while i < self.players.len()
            invariant
                i <= self.players@.len(),
                forall|k: int|
                    0 <= k < i && !(#[trigger] self.players@[k]).has_folded ==> self.players@[k].wager
                        == target,
            decreases self.players@.len() - i,
        {
            if !self.players[i].has_folded && self.players[i].wager != target {
                return false;
            }
            i = i + 1;
        }
        true
    }

    /// True if the current betting street is closed. The street closes
    /// when every active player has matched the highest wager and the
    /// player whose turn it is has already acted this street, or when at
    /// most one player can still put chips in.
    pub fn street_closed(&self) -> (r: bool)
        requires
            (self.current as int) < self.players@.len(),
        ensures
            r == street_closed_of(self.players@, self.current, self.bets_settled),
    {
        if self.bets_settled {
            return true;
        }
        let can_act = self.count_can_act();
        if can_act <= 1 {
            return true;
        }
        let target = self.highest_wager();
        let all_matched = self.all_wagers_match(target);
        all_matched && self.players[self.current as usize].has_acted_this_street
    }
}

/// A seat found going round the table lies at the table.
proof fn lemma_first_can_act_in_range(ps: Seq<PlayerState>, cur: int, off: int)
    requires
        ps.len() > 0,
        cur >= 0,
    ensures
        first_can_act(ps, cur, off) matches Some(c) ==> 0 <= c < ps.len() && can_act(ps[c]),
    decreases ps.len() + 1 - off,
{
    if 1 <= off <= ps.len() {
        lemma_first_can_act_in_range(ps, cur, off + 1);
    }
}

/// The next player to act is a seat at the table whenever the current
/// seat is.
pub proof fn lemma_next_active_in_range(ps: Seq<PlayerState>, cur: u8)
    requires
        (cur as int) < ps.len(),
        ps.len() <= 256,
    ensures
        (next_active_of(ps, cur) as int) < ps.len(),
{
    lemma_first_can_act_in_range(ps, cur as int, 1);
    if let Some(c) = first_can_act(ps, cur as int, 1) {
        assert((c as u8) as int == c);
    }
}


/// Replacing one seat changes the chips behind by the difference of the
/// two stacks.
proof fn lemma_stacks_total_update(ps: Seq<PlayerState>, i: int, p: PlayerState)
    requires
        0 <= i < ps.len(),
    ensures
        stacks_total(ps.update(i, p)) == stacks_total(ps) - ps[i].stack + p.stack,
    decreases ps.len(),
{
    let qs = ps.update(i, p);
    if i == ps.len() - 1 {
        assert(qs.drop_last() =~= ps.drop_last());
    } else {
        assert(qs.drop_last() =~= ps.drop_last().update(i, p));
        lemma_stacks_total_update(ps.drop_last(), i, p);
    }
}

/// Seat by seat equal stacks give equal chips behind.
proof fn lemma_stacks_total_same(a: Seq<PlayerState>, b: Seq<PlayerState>)
    requires
        a.len() == b.len(),
        forall|i: int| 0 <= i < a.len() ==> (#[trigger] a[i]).stack == b[i].stack,
    ensures
        stacks_total(a) == stacks_total(b),
    decreases a.len(),
{
    if a.len() > 0 {
        lemma_stacks_total_same(a.drop_last(), b.drop_last());
    }
}

/// An action moves chips from the actor's stack into the pot and creates
/// or destroys none: the pot plus every stack is the same before and
/// after, and the actor never puts in more than its stack.
pub proof fn law_apply_action_conserves_chips(s: GameState, a: Action)
    requires
        s.can_apply(a),
    ensures
        s.pot + s.chips_for(a) + stacks_total(
            s.players@.update(s.current as int, s.actor_after(a)),
        ) == s.pot + stacks_total(s.players@),
        s.chips_for(a) <= s.players@[s.current as int].stack,
{
    lemma_stacks_total_update(s.players@, s.current as int, s.actor_after(a));
}

/// An action changes no seat but the actor's, and a player who has
/// folded stays folded.
pub proof fn law_apply_action_touches_only_actor(s: GameState, a: Action)
    requires
        s.can_apply(a),
    ensures
        forall|j: int|
            0 <= j < s.players@.len() && j != s.current as int ==> #[trigger] s.players@.update(
                s.current as int,
                s.actor_after(a),
            )[j] == s.players@[j],
        s.players@[s.current as int].has_folded ==> s.actor_after(a).has_folded,
        s.actor_after(a).has_acted_this_street,
{
}

/// No seat reached from offset `off` on can act when the search from
/// `off` finds none.
proof fn lemma_first_can_act_none(ps: Seq<PlayerState>, cur: int, off: int)
    requires
        ps.len() > 0,
        1 <= off,
        first_can_act(ps, cur, off) is None,
    ensures
        forall|o: int| off <= o <= ps.len() ==> !can_act(#[trigger] ps[(cur + o) % (ps.len() as int)]),
    decreases ps.len() + 1 - off,
{
    if off <= ps.len() {
        lemma_first_can_act_none(ps, cur, off + 1);
    }
}

/// Play passes to a seat that can still act whenever any seat can; when
/// no seat can, the turn stays where it was.
pub proof fn law_next_active_can_act(ps: Seq<PlayerState>, cur: u8, j: int)
    requires
        (cur as int) < ps.len(),
        ps.len() <= 256,
        0 <= j < ps.len(),
        can_act(ps[j]),
    ensures
        can_act(ps[next_active_of(ps, cur) as int]),
{
    lemma_first_can_act_in_range(ps, cur as int, 1);
    let n = ps.len() as int;
    match first_can_act(ps, cur as int, 1) {
        Some(c) => {
            assert((c as u8) as int == c);
        },
        None => {
            lemma_first_can_act_none(ps, cur as int, 1);
            let o = if j > cur as int {
                j - cur
            } else {
                j - cur + n
            };
            assert((cur + o) % n == j) by {
                vstd::arithmetic::div_mod::lemma_mod_self_0(n);
                if j > cur as int {
                    vstd::arithmetic::div_mod::lemma_small_mod(j as nat, n as nat);
                } else {
                    vstd::arithmetic::div_mod::lemma_mod_add_multiples_vanish(j, n);
                    vstd::arithmetic::div_mod::lemma_small_mod(j as nat, n as nat);
                }
            }
            assert(!can_act(ps[(cur + o) % n]));
        },
    }
}


/// Seats that agree on folding, stacks, acting and, when not folded, on
/// wagers.
pub open spec fn same_but_folded_wagers(a: Seq<PlayerState>, b: Seq<PlayerState>) -> bool {
    &&& a.len() == b.len()
    &&& forall|i: int|
        0 <= i < a.len() ==> {
            &&& (#[trigger] b[i]).has_folded == a[i].has_folded
            &&& b[i].stack == a[i].stack
            &&& b[i].has_acted_this_street == a[i].has_acted_this_street
            &&& (!a[i].has_folded ==> b[i].wager == a[i].wager)
        }
}

proof fn lemma_counts_ignore_folded_wagers(a: Seq<PlayerState>, b: Seq<PlayerState>)
    requires
        same_but_folded_wagers(a, b),
    ensures
        highest_wager_of(a) == highest_wager_of(b),
        can_act_count(a) == can_act_count(b),
    decreases a.len(),
{
    if a.len() > 0 {
        let a2 = a.drop_last();
        let b2 = b.drop_last();
        assert forall|i: int| 0 <= i < a2.len() implies {
            &&& (#[trigger] b2[i]).has_folded == a2[i].has_folded
            &&& b2[i].stack == a2[i].stack
            &&& b2[i].has_acted_this_street == a2[i].has_acted_this_street
            &&& (!a2[i].has_folded ==> b2[i].wager == a2[i].wager)
        } by {
            assert(b[i] == b2[i] && a[i] == a2[i]);
        }
        lemma_counts_ignore_folded_wagers(a2, b2);
        assert(b.last() == b[b.len() - 1]);
    }
}

/// Whether a street is closed depends on the players still in: when
/// every player who has not folded has wagered the highest wager and the
/// player to act has acted, the street is closed (so `apply_action` sets
/// `bets_settled`), whatever the folded players had wagered.
pub proof fn law_street_closes_when_active_wagers_match(ps: Seq<PlayerState>, cur: u8, settled: bool)
    requires
        (cur as int) < ps.len(),
        forall|i: int| 0 <= i < ps.len() && !(#[trigger] ps[i]).has_folded ==> ps[i].wager == highest_wager_of(ps),
        ps[cur as int].has_acted_this_street,
    ensures
        street_closed_of(ps, cur, settled),
{
}

/// A street not yet settled, with at least two players able to put
/// chips in, stays open while some player still in is off the highest
/// wager or the player to act has not acted yet.
pub proof fn law_street_stays_open_until_matched(ps: Seq<PlayerState>, cur: u8, i: int)
    requires
        (cur as int) < ps.len(),
        can_act_count(ps) > 1,
        (0 <= i < ps.len() && !ps[i].has_folded && ps[i].wager != highest_wager_of(ps))
            || !ps[cur as int].has_acted_this_street,
    ensures
        !street_closed_of(ps, cur, false),
{
}

/// The wagers of folded players never decide whether a street is
/// closed: two tables that differ only in them are closed alike.
pub proof fn law_folded_wagers_do_not_matter(ps: Seq<PlayerState>, ps2: Seq<PlayerState>, cur: u8, settled: bool)
    requires
        (cur as int) < ps.len(),
        same_but_folded_wagers(ps, ps2),
    ensures
        street_closed_of(ps2, cur, settled) == street_closed_of(ps, cur, settled),
{
    lemma_counts_ignore_folded_wagers(ps, ps2);
    let t = highest_wager_of(ps);
    assert(ps2[cur as int].has_acted_this_street == ps[cur as int].has_acted_this_street);
    if all_matched(ps, t) {
        assert forall|i: int| 0 <= i < ps2.len() && !(#[trigger] ps2[i]).has_folded implies ps2[i].wager == t by {
            assert(!ps[i].has_folded);
        }
    }
    if all_matched(ps2, t) {
        assert forall|i: int| 0 <= i < ps.len() && !(#[trigger] ps[i]).has_folded implies ps[i].wager == t by {
            assert(!ps2[i].has_folded);
        }
    }
}

/// Every size before position `k`, times `base`, is at most `t` times
/// `st` (both in thousandths).
pub open spec fn within_cap(sizes: Seq<u32>, base: u32, t: u32, st: u32, k: int) -> bool {
    forall|j: int| 0 <= j < k ==> #[trigger] sizes[j] as int * base as int <= t as int * st as int
}

/// `offered_from` from `i` keeps size `k` exactly when every size from
/// `i` up to `k` stays within the cap.
proof fn lemma_offered_prefix(sizes: Seq<u32>, base: u32, t: u32, st: u32, i: int, k: int)
    requires
        0 <= i <= k < sizes.len(),
    ensures
        (k < offered_from(sizes, base, t, st, i)) <==> (forall|j: int|
            i <= j < k ==> #[trigger] sizes[j] as int * base as int <= t as int * st as int),
        offered_from(sizes, base, t, st, i) <= sizes.len(),
    decreases k - i,
{
    lemma_offered_bounds(sizes, base, t, st, i);
    if sizes[i] as int * base as int <= t as int * st as int && i < k {
        lemma_offered_prefix(sizes, base, t, st, i + 1, k);
        if k < offered_from(sizes, base, t, st, i) {
            assert forall|j: int| i <= j < k implies #[trigger] sizes[j] as int * base as int <= t as int
                * st as int by {
                if j > i {
                    assert(i + 1 <= j < k);
                }
            }
        }
    } else if sizes[i] as int * base as int <= t as int * st as int {
        lemma_offered_bounds(sizes, base, t, st, i + 1);
    } else if i < k {
        assert(!(sizes[i] as int * base as int <= t as int * st as int));
    }
}

proof fn lemma_offered_bounds(sizes: Seq<u32>, base: u32, t: u32, st: u32, i: int)
    requires
        0 <= i <= sizes.len(),
    ensures
        i <= offered_from(sizes, base, t, st, i) <= sizes.len(),
        i < sizes.len() ==> i + 1 <= offered_from(sizes, base, t, st, i),
    decreases sizes.len() - i,
{
    if i < sizes.len() {
        lemma_offered_bounds(sizes, base, t, st, i + 1);
    }
}

/// Facing a wager, with raises still allowed and nobody all-in, the
/// actions are call, fold, then the raise sizes in order: a size is
/// offered exactly when every size before it, times the highest wager,
/// stays within `all_in_threshold` times the actor's stack. The pot does
/// not enter the cut-off.
pub proof fn law_raises_cut_at_highest_wager(s: GameState, bets: Seq<u32>, raises: Seq<u32>)
    requires
        (s.current as int) < s.players@.len(),
        highest_wager_of(s.players@) > s.players@[s.current as int].wager,
        s.raise_count < s.max_raises,
        !some_allin(s.players@),
    ensures
        ({
            let v = s.valid_actions_of(bets, raises);
            let hw = highest_wager_of(s.players@);
            let me = s.players@[s.current as int];
            &&& 2 <= v.len() <= 2 + raises.len()
            &&& v[0] == Action::Call
            &&& v[1] == Action::Fold
            &&& forall|k: int| 2 <= k < v.len() ==> #[trigger] v[k] == Action::Raise(raises[k - 2])
            &&& forall|k: int|
                0 <= k < raises.len() ==> (2 + k < v.len() <==> #[trigger] within_cap(
                    raises,
                    hw,
                    s.all_in_threshold,
                    me.stack,
                    k,
                ))
        }),
{
    let hw = highest_wager_of(s.players@);
    let me = s.players@[s.current as int];
    let o = offered_from(raises, hw, s.all_in_threshold, me.stack, 0);
    lemma_offered_bounds(raises, hw, s.all_in_threshold, me.stack, 0);
    let r = offered_raises(raises, hw, s.all_in_threshold, me.stack);
    let v = s.valid_actions_of(bets, raises);
    assert(v =~= seq![Action::Call, Action::Fold] + r);
    assert forall|k: int| 0 <= k < raises.len() implies (2 + k < v.len() <==> #[trigger] within_cap(
        raises,
        hw,
        s.all_in_threshold,
        me.stack,
        k,
    )) by {
        lemma_offered_prefix(raises, hw, s.all_in_threshold, me.stack, 0, k);
    }
}

/// Level with the highest wager, the actions are check, then the bet
/// sizes in order: a size is offered exactly when every size before it,
/// times the pot, stays within `all_in_threshold` times the actor's
/// stack.
pub proof fn law_bets_cut_at_pot(s: GameState, bets: Seq<u32>, raises: Seq<u32>)
    requires
        (s.current as int) < s.players@.len(),
        highest_wager_of(s.players@) == s.players@[s.current as int].wager,
    ensures
        ({
            let v = s.valid_actions_of(bets, raises);
            let me = s.players@[s.current as int];
            &&& 1 <= v.len() <= 1 + bets.len()
            &&& v[0] == Action::Check
            &&& forall|k: int| 1 <= k < v.len() ==> #[trigger] v[k] == Action::Bet(bets[k - 1])
            &&& forall|k: int|
                0 <= k < bets.len() ==> (1 + k < v.len() <==> #[trigger] within_cap(
                    bets,
                    s.pot,
                    s.all_in_threshold,
                    me.stack,
                    k,
                ))
        }),
{
    let me = s.players@[s.current as int];
    lemma_offered_bounds(bets, s.pot, s.all_in_threshold, me.stack, 0);
    let b = offered_bets(bets, s.pot, s.all_in_threshold, me.stack);
    let v = s.valid_actions_of(bets, raises);
    assert(v =~= seq![Action::Check] + b);
    assert forall|k: int| 0 <= k < bets.len() implies (1 + k < v.len() <==> #[trigger] within_cap(
        bets,
        s.pot,
        s.all_in_threshold,
        me.stack,
        k,
    )) by {
        lemma_offered_prefix(bets, s.pot, s.all_in_threshold, me.stack, 0, k);
    }
}

/// A raise is a raise to: with target `size` thousandths of the highest
/// wager, the raiser puts in the difference to its wager, so its wager
/// afterwards is the target, whatever it had already put in; a raise to
/// less than the current wager puts nothing in; one whose difference
/// exceeds the stack or the all-in cap puts in the whole stack.
pub proof fn law_raise_is_a_raise_to(s: GameState, amt: u32)
    requires
        (s.current as int) < s.players@.len(),
    ensures
        ({
            let me = s.players@[s.current as int];
            let target = scaled(highest_wager_of(s.players@), amt);
            let after = s.actor_after(Action::Raise(amt));
            &&& (target >= me.wager && target - me.wager <= me.stack && target - me.wager <= scaled(
                me.stack,
                s.all_in_threshold,
            )) ==> after.wager == target && after.stack == me.stack - (target - me.wager)
            &&& target < me.wager ==> after.wager == me.wager && after.stack == me.stack
            &&& (target >= me.wager && (target - me.wager > me.stack || target - me.wager > scaled(
                me.stack,
                s.all_in_threshold,
            )) && me.wager + me.stack <= u32::MAX) ==> after.wager == me.wager + me.stack && after.stack
                == 0
            &&& after.has_acted_this_street
            &&& after.has_folded == me.has_folded
        }),
{
}
} // verus!
