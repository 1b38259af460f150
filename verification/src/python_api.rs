//! The card handling behind the solve API: the turn cards left by a
//! flop, their seeded shuffle, and the solve configuration.
use vstd::prelude::*;
use vstd::utf8::is_char_boundary;
use vstd::string::StringSliceAdditionalSpecFns;
use crate::range_parse::rank_chars;
use crate::text::push_char;
use vstd::string::StringExecFns;

verus! {

/// Default pot at the turn decision when entering on the turn, in chips
/// (6.16 big blinds).
pub const DEFAULT_TURN_POT_CHIPS: u32 = 616;

/// Suit characters in the order turn cards are listed.
pub open spec fn turn_suit_chars() -> Seq<char> {
    seq!['h', 'd', 'c', 's']
}

/// The 52 card names in listing order: ranks `2` to `A`, and within a
/// rank the suits `h`, `d`, `c`, `s`.
pub open spec fn turn_deck_names() -> Seq<Seq<char>> {
    Seq::new(52, |k: int| seq![rank_chars()[k / 4], turn_suit_chars()[k % 4]])
}

/// The flop text `b` (its bytes) holds the two-byte chunk `r s` at an
/// even offset.
pub open spec fn on_flop(b: Seq<u8>, r: char, s: char) -> bool {
    exists|i: int| 0 <= i && i % 2 == 0 && i + 2 <= b.len() && #[trigger] b[i] == r as u8 && b[i + 1] == s as u8
}

/// Every two-byte chunk of the flop text starts and ends on a character
/// boundary, so that it can be cut out.
pub open spec fn chunks_on_boundaries(b: Seq<u8>) -> bool {
    forall|i: int|
        0 <= i && i % 2 == 0 && i + 2 <= b.len() ==> #[trigger] is_char_boundary(b, i)
            && is_char_boundary(b, i + 2)
}

/// The turn cards of a flop: every card name, in listing order, that is
/// not one of the flop text's two-byte chunks.
pub open spec fn turn_cards_of(b: Seq<u8>) -> Seq<Seq<char>> {
    turn_deck_names().filter(|n: Seq<char>| !on_flop(b, n[0], n[1]))
}

/// One xorshift step.
pub open spec fn xorshift(x: u64) -> u64 {
    let a = x ^ (x << 13u64);
    let b = a ^ (a >> 7u64);
    b ^ (b << 17u64)
}

/// The generator state for a seed; zero is replaced by a fixed value.
pub open spec fn rng_start(seed: u64) -> u64 {
    if seed == 0 {
        0xdead_beef
    } else {
        seed
    }
}

/// `s` with positions `i` and `j` exchanged.
pub open spec fn swap_at<A>(s: Seq<A>, i: int, j: int) -> Seq<A> {
    s.update(i, s[j]).update(j, s[i])
}

/// Fisher-Yates from position `i` down to 1: position `i` is exchanged
/// with position `x % (i + 1)`, `x` the next generator output.
pub open spec fn shuffle_from<A>(s: Seq<A>, state: u64, i: nat) -> Seq<A>
    decreases i,
{
    if i == 0 {
        s
    } else {
        let x = xorshift(state);
        let j = (x as usize) as int % (i + 1) as int;
        shuffle_from(swap_at(s, i as int, j), x, (i - 1) as nat)
    }
}

/// `s` shuffled with the generator seeded by `seed`.
pub open spec fn shuffled<A>(s: Seq<A>, seed: u64) -> Seq<A> {
    if s.len() <= 1 {
        s
    } else {
        shuffle_from(s, rng_start(seed), (s.len() - 1) as nat)
    }
}

/// One step of the shuffle seed: times 31 plus the byte, wrapping.
pub open spec fn seed_step(acc: u64, b: u8) -> u64 {
    vstd::wrapping::u64_specs::wrapping_add(vstd::wrapping::u64_specs::wrapping_mul(acc, 31), b as u64)
}

/// The seed folded over the bytes `b` from `acc`.
pub open spec fn fold_seed(acc: u64, b: Seq<u8>) -> u64
    decreases b.len(),
{
    if b.len() == 0 {
        acc
    } else {
        fold_seed(seed_step(acc, b[0]), b.drop_first())
    }
}

/// The first `limit` items of `s` when `limit` is positive and `s` is
/// longer; all of `s` otherwise.
pub open spec fn limited<A>(s: Seq<A>, limit: usize) -> Seq<A> {
    if limit > 0 && s.len() > limit {
        s.take(limit as int)
    } else {
        s
    }
}

/// Exchanging two positions keeps the same items.
proof fn lemma_swap_multiset<A>(s: Seq<A>, i: int, j: int)
    requires
        0 <= i < s.len(),
        0 <= j < s.len(),
    ensures
        swap_at(s, i, j).to_multiset() =~= s.to_multiset(),
{
    broadcast use vstd::seq_lib::to_multiset_update;
    broadcast use vstd::multiset::group_multiset_axioms;
    broadcast use vstd::seq_lib::to_multiset_contains;

    let a = s[i];
    let b = s[j];
    let u = s.update(i, b);
    assert(u[j] == b);
    assert(s.contains(a));
    assert(s.to_multiset().count(a) > 0);
    assert(swap_at(s, i, j).to_multiset() == u.to_multiset().insert(a).remove(b));
    assert(u.to_multiset() == s.to_multiset().insert(b).remove(a));
    assert(s.to_multiset().insert(b).remove(a).insert(a).remove(b) =~= s.to_multiset());
}

/// The shuffle from position `i` down keeps the same items.
proof fn lemma_shuffle_from_multiset<A>(s: Seq<A>, state: u64, i: nat)
    requires
        i < s.len(),
    ensures
        shuffle_from(s, state, i).to_multiset() =~= s.to_multiset(),
    decreases i,
{
    if i > 0 {
        let x = xorshift(state);
        let j = (x as usize) as int % (i + 1) as int;
        lemma_swap_multiset(s, i as int, j);
        lemma_shuffle_from_multiset(swap_at(s, i as int, j), x, (i - 1) as nat);
    }
}

/// Shuffling reorders the items and neither drops nor repeats any: the
/// shuffled turn cards are the turn cards, each once.
pub proof fn law_shuffle_permutes<A>(s: Seq<A>, seed: u64)
    ensures
        shuffled(s, seed).to_multiset() =~= s.to_multiset(),
        shuffled(s, seed).len() == s.len(),
{
    broadcast use vstd::seq_lib::to_multiset_len;

    if s.len() > 1 {
        lemma_shuffle_from_multiset(s, rng_start(seed), (s.len() - 1) as nat);
    }
    vstd::seq_lib::to_multiset_len(s);
    vstd::seq_lib::to_multiset_len(shuffled(s, seed));
}

/// Deterministic xorshift generator.
struct SimpleRng {
    state: u64,
}

impl SimpleRng {
    /// A generator seeded by `seed`.
    fn new(seed: u64) -> (r: SimpleRng)
        ensures
            r.state == rng_start(seed),
    {
        SimpleRng { state: if seed == 0 { 0xdead_beef } else { seed } }
    }

    /// The next output; it becomes the state.
    fn next_u64(&mut self) -> (x: u64)
        ensures
            x == xorshift(old(self).state),
            final(self).state == x,
    {
        let mut x = self.state;
        x ^= x << 13u64;
        x ^= x >> 7u64;
        x ^= x << 17u64;
        self.state = x;
        x
    }
}

/// Shuffles `items` with the generator seeded by `seed`.
fn fisher_yates_shuffle(items: &mut Vec<String>, seed: u64)
    ensures
        final(items)@.map_values(|s: String| s@) == shuffled(old(items)@.map_values(|s: String| s@), seed),
{
    let mut rng = SimpleRng::new(seed);
    let n = items.len();
    if n <= 1 {
        return;
    }
    let ghost goal = shuffled(old(items)@.map_values(|s: String| s@), seed);
    let mut i: usize = n - 1;
    while i >= 1
        invariant
            n == items@.len(),
            1 < n,
            i < n,
            goal == shuffle_from(items@.map_values(|s: String| s@), rng.state, i as nat),
        decreases i,
    {
        let x = rng.next_u64();
        let j = (x as usize) % (i + 1);
        let ghost before = items@.map_values(|s: String| s@);
        let a = items[i].clone();
        let b = items[j].clone();
        items.set(i, b);
        items.set(j, a);
        assert(items@.map_values(|s: String| s@) =~= swap_at(before, i as int, j as int));
        i = i - 1;
    }
}

/// Whether the flop bytes hold the chunk `r s` at an even offset.
fn flop_holds(b: &[u8], r: char, s: char) -> (res: bool)
    requires
        (r as u32) < 128,
        (s as u32) < 128,
    ensures
        res == on_flop(b@, r, s),
{
    let rb = r as u8;
    let sb = s as u8;
    let mut i: usize = 0;
    while i < b.len() && b.len() - i >= 2
        invariant
            i % 2 == 0,
            i <= b@.len(),
            rb == r as u8,
            sb == s as u8,
            forall|k: int|
                0 <= k < i && k % 2 == 0 && k + 2 <= b@.len() ==> !(#[trigger] b@[k] == r as u8 && b@[k + 1]
                    == s as u8),
        decreases b@.len() - i,
    {
        if b[i] == rb && b[i + 1] == sb {
            return true;
        }
        i = i + 2;
    }
    false
}

/// The rank character of rank `i`.
fn rank_char_at(i: usize) -> (c: char)
    requires
        i < 13,
    ensures
        c == rank_chars()[i as int],
{
    match i {
        0 => '2',
        1 => '3',
        2 => '4',
        3 => '5',
        4 => '6',
        5 => '7',
        6 => '8',
        7 => '9',
        8 => 'T',
        9 => 'J',
        10 => 'Q',
        11 => 'K',
        _ => 'A',
    }
}

/// All turn cards not on the flop, in listing order.
fn list_turn_cards(flop: &str) -> (r: Vec<String>)
    requires
        chunks_on_boundaries(flop.spec_bytes()),
    ensures
        r@.map_values(|s: String| s@) == turn_cards_of(flop.spec_bytes()),
{
    let b = flop.as_bytes();
    let ghost pred = |n: Seq<char>| !on_flop(b@, n[0], n[1]);
    let mut out: Vec<String> = Vec::new();
    let mut k: usize = 0;
    while k < 52
        invariant
            k <= 52,
            b@ == flop.spec_bytes(),
            pred == (|n: Seq<char>| !on_flop(b@, n[0], n[1])),
            out@.map_values(|s: String| s@) == turn_deck_names().take(k as int).filter(pred),
        decreases 52 - k,
    {
        let rc = rank_char_at(k / 4);
        let sc = match k % 4 {
            0 => 'h',
            1 => 'd',
            2 => 'c',
            _ => 's',
        };
        let ghost name = seq![rc, sc];
        assert(turn_deck_names()[k as int] == name);
        let ghost before = out@.map_values(|s: String| s@);
        assert(turn_deck_names().take(k as int + 1).drop_last() =~= turn_deck_names().take(k as int));
        assert((rc as u32) < 128);
        if !flop_holds(b, rc, sc) {
            let mut c = String::new();
            push_char(&mut c, rc);
            push_char(&mut c, sc);
            assert(c@ =~= name);
            out.push(c);
            proof {
                reveal(Seq::filter);
                assert(out@.map_values(|s: String| s@) =~= before.push(name));
            }
        } else {
            proof {
                reveal(Seq::filter);
            }
        }
        k = k + 1;
    }
    assert(turn_deck_names().take(52) =~= turn_deck_names());
    out
}

/// All turn cards not on the flop.
pub fn list_turn_cards_public(flop: &str) -> (r: Vec<String>)
    requires
        chunks_on_boundaries(flop.spec_bytes()),
    ensures
        r@.map_values(|s: String| s@) == turn_cards_of(flop.spec_bytes()),
{
    list_turn_cards(flop)
}

/// The shuffle seed of the flop text followed by the hero's hand text.
fn shuffle_seed(flop: &str, hero_hand: &str) -> (seed: u64)
    ensures
        seed == fold_seed(fold_seed(0, flop.spec_bytes()), hero_hand.spec_bytes()),
{
    let fb = flop.as_bytes();
    let hb = hero_hand.as_bytes();
    let mut acc: u64 = 0;
    let mut i: usize = 0;
    assert(fb@.skip(0) =~= fb@);
    while i < fb.len()
        invariant
            i <= fb@.len(),
            fold_seed(acc, fb@.skip(i as int)) == fold_seed(0, fb@),
        decreases fb@.len() - i,
    {
        assert(fb@.skip(i as int).drop_first() =~= fb@.skip(i as int + 1));
        acc = acc.wrapping_mul(31).wrapping_add(fb[i] as u64);
        i = i + 1;
    }
    assert(fb@.skip(i as int) =~= Seq::<u8>::empty());
    let ghost mid = acc;
    let mut i: usize = 0;
    assert(hb@.skip(0) =~= hb@);
    while i < hb.len()
        invariant
            i <= hb@.len(),
            fold_seed(acc, hb@.skip(i as int)) == fold_seed(mid, hb@),
        decreases hb@.len() - i,
    {
        assert(hb@.skip(i as int).drop_first() =~= hb@.skip(i as int + 1));
        acc = acc.wrapping_mul(31).wrapping_add(hb[i] as u64);
        i = i + 1;
    }
    assert(hb@.skip(i as int) =~= Seq::<u8>::empty());
    acc
}

/// The 52 card names are distinct.
proof fn lemma_turn_deck_distinct()
    ensures
        turn_deck_names().no_duplicates(),
{
    let d = turn_deck_names();
    assert forall|i: int, j: int| 0 <= i < d.len() && 0 <= j < d.len() && i != j implies d[i] != d[j] by {
        if d[i] == d[j] {
            assert(d[i][0] == d[j][0] && d[i][1] == d[j][1]);
            assert(rank_chars()[i / 4] == rank_chars()[j / 4]);
            assert(turn_suit_chars()[i % 4] == turn_suit_chars()[j % 4]);
            assert(i / 4 == j / 4);
            assert(i % 4 == j % 4);
        }
    }
}

/// Filtering a list without repeats gives a list without repeats.
proof fn lemma_filter_no_dup<A>(s: Seq<A>, p: spec_fn(A) -> bool)
    requires
        s.no_duplicates(),
    ensures
        s.filter(p).no_duplicates(),
    decreases s.len(),
{
    broadcast use vstd::seq_lib::group_filter_ensures;

    if s.len() > 0 {
        let t = s.drop_last();
        let e = s.last();
        assert(t.push(e) =~= s);
        assert(t.no_duplicates());
        lemma_filter_no_dup(t, p);
        t.lemma_filter_push(e, p);
        if p(e) {
            let f = t.filter(p);
            assert forall|i: int| 0 <= i < f.len() implies f[i] != e by {
                assert(f.contains(f[i]));
                t.lemma_filter_contains_rev(p, f[i]);
                if f[i] == e {
                    let k = choose|k: int| 0 <= k < t.len() && t[k] == f[i];
                    assert(s[k] == t[k]);
                    assert(s[k] == s[s.len() - 1]);
                }
            }
        }
    }
}

/// A rearrangement of a list without repeats has no repeats.
proof fn lemma_permuted_no_dup<A>(s: Seq<A>, t: Seq<A>)
    requires
        s.no_duplicates(),
        t.to_multiset() =~= s.to_multiset(),
    ensures
        t.no_duplicates(),
{
    s.lemma_multiset_has_no_duplicates();
    t.lemma_multiset_has_no_duplicates_conv();
}

/// What a sampled list of turn cards is: a prefix of the whole shuffled
/// list, `limit` long when `limit` is positive and the list is longer,
/// with no card twice, and each a card name that is not on the flop.
pub proof fn law_sampled_turn_cards(b: Seq<u8>, seed: u64, limit: usize)
    ensures
        ({
            let full = shuffled(turn_cards_of(b), seed);
            let r = limited(full, limit);
            &&& full.len() == turn_cards_of(b).len()
            &&& r =~= full.take(r.len() as int)
            &&& r.len() == if limit > 0 && full.len() > limit {
                limit as int
            } else {
                full.len() as int
            }
            &&& r.no_duplicates()
            &&& forall|i: int|
                0 <= i < r.len() ==> turn_deck_names().contains(#[trigger] r[i]) && !on_flop(
                    b,
                    r[i][0],
                    r[i][1],
                )
        }),
{
    broadcast use vstd::seq_lib::group_filter_ensures;
    broadcast use vstd::seq_lib::to_multiset_contains;

    let s = turn_cards_of(b);
    let pred = |n: Seq<char>| !on_flop(b, n[0], n[1]);
    let full = shuffled(s, seed);
    let r = limited(full, limit);
    law_shuffle_permutes(s, seed);
    lemma_turn_deck_distinct();
    lemma_filter_no_dup(turn_deck_names(), pred);
    lemma_permuted_no_dup(s, full);
    assert forall|i: int| 0 <= i < r.len() implies turn_deck_names().contains(#[trigger] r[i]) && !on_flop(
        b,
        r[i][0],
        r[i][1],
    ) by {
        assert(r[i] == full[i]);
        assert(full.to_multiset().count(full[i]) > 0);
        assert(s.contains(full[i]));
        let k = choose|k: int| 0 <= k < s.len() && s[k] == full[i];
        turn_deck_names().lemma_filter_pred(pred, k);
        assert(s.contains(s[k]));
        turn_deck_names().lemma_filter_contains_rev(pred, s[k]);
    }
}

/// The flop text names cards `k[0]`, `k[1]`, `k[2]`, each as its rank
/// character then its suit character.
pub open spec fn flop_names(b: Seq<u8>, k: Seq<int>) -> bool {
    &&& k.len() == 3
    &&& b.len() == 6
    &&& forall|i: int| 0 <= i < 3 ==> 0 <= #[trigger] k[i] < 52
    &&& forall|i: int|
        0 <= i < 3 ==> b[2 * i] == rank_chars()[k[i] / 4] as u8 && b[2 * i + 1] == turn_suit_chars()[k[i]
            % 4] as u8
}

proof fn lemma_name_bytes(a: int, c: int)
    requires
        0 <= a < 52,
        0 <= c < 52,
        rank_chars()[a / 4] as u8 == rank_chars()[c / 4] as u8,
        turn_suit_chars()[a % 4] as u8 == turn_suit_chars()[c % 4] as u8,
    ensures
        a == c,
{
    let ra = a / 4;
    let rc = c / 4;
    assert(rank_chars()[ra] as u8 == rank_chars()[rc] as u8);
    assert(ra == rc) by {
        assert(rank_chars() =~= seq!['2', '3', '4', '5', '6', '7', '8', '9', 'T', 'J', 'Q', 'K', 'A']);
    }
    assert(a % 4 == c % 4);
}

/// Card `c` of the listing is on a flop naming `k` exactly when it is one
/// of `k`.
proof fn lemma_on_flop_names(b: Seq<u8>, k: Seq<int>, c: int)
    requires
        flop_names(b, k),
        0 <= c < 52,
    ensures
        on_flop(b, turn_deck_names()[c][0], turn_deck_names()[c][1]) == k.contains(c),
{
    let n = turn_deck_names()[c];
    if on_flop(b, n[0], n[1]) {
        let i = choose|i: int| 0 <= i && i % 2 == 0 && i + 2 <= b.len() && #[trigger] b[i] == n[0] as u8 && b[i + 1] == n[1] as u8;
        let h = i / 2;
        assert(0 <= h < 3);
        assert(2 * h == i);
        lemma_name_bytes(k[h], c);
        assert(k[h] == c);
    }
    if k.contains(c) {
        let h = choose|h: int| 0 <= h < k.len() && k[h] == c;
        assert(b[2 * h] == n[0] as u8 && b[2 * h + 1] == n[1] as u8);
    }
}

/// Filtering out three distinct entries of the first `n` card names
/// leaves `n` less those of the three below `n`.
proof fn lemma_filter_count(b: Seq<u8>, k: Seq<int>, n: int)
    requires
        flop_names(b, k),
        k[0] != k[1] && k[0] != k[2] && k[1] != k[2],
        0 <= n <= 52,
    ensures
        turn_deck_names().take(n).filter(|m: Seq<char>| !on_flop(b, m[0], m[1])).len() == n - (if k[0] < n {
            1int
        } else {
            0
        }) - (if k[1] < n {
            1int
        } else {
            0
        }) - (if k[2] < n {
            1int
        } else {
            0
        }),
    decreases n,
{
    broadcast use vstd::seq_lib::group_filter_ensures;

    let pred = |m: Seq<char>| !on_flop(b, m[0], m[1]);
    if n > 0 {
        lemma_filter_count(b, k, n - 1);
        let d = turn_deck_names();
        assert(d.take(n) =~= d.take(n - 1).push(d[n - 1]));
        d.take(n - 1).lemma_filter_push(d[n - 1], pred);
        lemma_on_flop_names(b, k, n - 1);
        assert(k.contains(n - 1) == (k[0] == n - 1 || k[1] == n - 1 || k[2] == n - 1));
    } else {
        assert(turn_deck_names().take(0) =~= Seq::<Seq<char>>::empty());
        assert(Seq::<Seq<char>>::empty().filter(pred) =~= Seq::<Seq<char>>::empty()) by {
            reveal(Seq::filter);
        }
    }
}

/// A flop of three distinct card names leaves forty-nine turn cards.
pub proof fn law_flop_leaves_49_turn_cards(b: Seq<u8>, k: Seq<int>)
    requires
        flop_names(b, k),
        k[0] != k[1] && k[0] != k[2] && k[1] != k[2],
    ensures
        turn_cards_of(b).len() == 49,
{
    lemma_filter_count(b, k, 52);
    assert(turn_deck_names().take(52) =~= turn_deck_names());
}

/// The turn cards of the flop, shuffled with a seed taken from the flop
/// and the hero's hand, and cut to `limit` cards when `limit` is
/// positive.
pub fn sample_turn_cards(flop: &str, hero_hand: &str, limit: usize) -> (r: Vec<String>)
    requires
        chunks_on_boundaries(flop.spec_bytes()),
    ensures
        r@.map_values(|s: String| s@) == limited(
            shuffled(
                turn_cards_of(flop.spec_bytes()),
                fold_seed(fold_seed(0, flop.spec_bytes()), hero_hand.spec_bytes()),
            ),
            limit,
        ),
{
    let mut cards = list_turn_cards(flop);
    let seed = shuffle_seed(flop, hero_hand);
    fisher_yates_shuffle(&mut cards, seed);
    let ghost all = cards@.map_values(|s: String| s@);
    if limit > 0 && cards.len() > limit {
        cards.truncate(limit);
        assert(cards@.map_values(|s: String| s@) =~= all.take(limit as int));
    }
    cards
}

/// Label of the hero's position: `IP` in position on the flop, else
/// `OOP`.
pub fn hero_pos_label(weip_flop: bool) -> (r: &'static str)
    ensures
        r@ == (if weip_flop {
            "IP"@
        } else {
            "OOP"@
        }),
{
    if weip_flop {
        "IP"
    } else {
        "OOP"
    }
}

/// Inputs of a flop-tree solve.
#[derive(Debug, Clone)]
pub struct SolveFlopTreeConfig {
    pub hero_hand: String,
    pub stack_bb: u32,
    pub flop: String,
    pub weip_flop: bool,
    pub max_iter: usize,
    pub turn_card_limit: usize,
    /// When set, solve exactly these turn cards (ignores `turn_card_limit`).
    pub turn_cards: Option<Vec<String>>,
    pub oop_range: Option<String>,
    pub ip_range: Option<String>,
    /// Pot in chips at the turn decision node (`None`: 616, 6.16 BB).
    pub turn_pot_chips: Option<u32>,
    pub n_threads: usize,
}

impl Default for SolveFlopTreeConfig {
    /// Hero `AsAh` out of position with 12 big blinds on `4dQcQd`, 200
    /// iterations, two sampled turn cards, default ranges and pot, one
    /// thread.
    fn default() -> (r: SolveFlopTreeConfig)
        ensures
            r.hero_hand@ == "AsAh"@,
            r.stack_bb == 12,
            r.flop@ == "4dQcQd"@,
            !r.weip_flop,
            r.max_iter == 200,
            r.turn_card_limit == 2,
            r.turn_cards is None,
            r.oop_range is None,
            r.ip_range is None,
            r.turn_pot_chips is None,
            r.n_threads == 1,
    {
        SolveFlopTreeConfig {
            hero_hand: String::from_str("AsAh"),
            stack_bb: 12,
            flop: String::from_str("4dQcQd"),
            weip_flop: false,
            max_iter: 200,
            turn_card_limit: 2,
            turn_cards: None,
            oop_range: None,
            ip_range: None,
            turn_pot_chips: None,
            n_threads: 1,
        }
    }
}

} // verus!
