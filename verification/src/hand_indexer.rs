//! Suit-isomorphic hand indexing (Waugh's algorithm).
//!
//! A hand dealt over several rounds is mapped to a dense index of its
//! class under suit permutation, and an index is mapped back to a
//! canonical representative of its class.
use vstd::prelude::*;
use crate::deck::{card_rank, card_suit, make_card, spec_rank, spec_suit, CARDS, SUITS, RANKS};

verus! {

/// Most rounds (streets) an indexer supports.
pub const MAX_ROUNDS: usize = 8;

/// Rows of the group-size binomial table.
pub const MAX_GROUP_INDEX: usize = 0x100000;

const ROUND_SHIFT: u32 = 4;

const ROUND_MASK: u32 = 0xf;

/// Binomial coefficient, by Pascal's rule.
pub open spec fn binom(n: nat, k: nat) -> nat
    decreases n,
{
    if k == 0 {
        1
    } else if n == 0 {
        0
    } else {
        binom((n - 1) as nat, (k - 1) as nat) + binom((n - 1) as nat, k)
    }
}

/// Two to the power `n`.
pub open spec fn pow2(n: nat) -> nat
    decreases n,
{
    if n == 0 {
        1
    } else {
        2 * pow2((n - 1) as nat)
    }
}

/// `binom(n, k)` vanishes for `k > n` and is at most `2^n`.
pub proof fn lemma_binom_basics(n: nat, k: nat)
    ensures
        k > n ==> binom(n, k) == 0,
        binom(n, n) == 1,
        binom(n, k) <= pow2(n),
    decreases n,
{
    if n > 0 {
        lemma_binom_basics((n - 1) as nat, (k - 1) as nat);
        lemma_binom_basics((n - 1) as nat, k);
        lemma_binom_basics((n - 1) as nat, (n - 1) as nat);
        lemma_binom_basics((n - 1) as nat, n);
        if k > 0 {
            lemma_binom_basics((n - 1) as nat, (k - 1) as nat);
        }
    }
}

proof fn lemma_pow2_13()
    ensures
        pow2(13) == 8192,
{
    reveal_with_fuel(pow2, 14);
}

proof fn lemma_pow2_mono(a: nat, b: nat)
    requires
        a <= b,
    ensures
        pow2(a) <= pow2(b),
    decreases b,
{
    if a < b {
        lemma_pow2_mono(a, (b - 1) as nat);
    }
}

/// Bit `b` of `x`.
pub open spec fn bit(x: u32, b: u32) -> bool {
    (x >> b) & 1 == 1
}

/// The binomial table for ranks: entry `[n][k]` is `binom(n, k)`.
pub open spec fn ncr_ranks_table_ok(t: Seq<[u32; 14]>) -> bool {
    &&& t.len() == 14
    &&& forall|n: int, k: int|
        0 <= n < 14 && 0 <= k < 14 ==> #[trigger] t[n]@[k] == binom(n as nat, k as nat)
}

/// The binomial table for suit groups: entry `[n][k]` is `binom(n, k)`
/// reduced modulo `2^64`.
pub open spec fn ncr_groups_table_ok(t: Seq<[u64; 5]>) -> bool {
    &&& t.len() == MAX_GROUP_INDEX
    &&& forall|n: int, k: int|
        0 <= n < MAX_GROUP_INDEX && 0 <= k < 5 ==> #[trigger] t[n]@[k] == binom(n as nat, k as nat)
            % 0x1_0000_0000_0000_0000
}

fn build_ncr_ranks() -> (t: Vec<[u32; 14]>)
    ensures
        ncr_ranks_table_ok(t@),
{
    let mut t: Vec<[u32; 14]> = Vec::new();
    let mut i: usize = 0;
    while i < 14
        invariant
            i <= 14,
            t.len() == i,
            forall|n: int, k: int|
                0 <= n < i && 0 <= k < 14 ==> #[trigger] t@[n]@[k] == binom(n as nat, k as nat),
        decreases 14 - i,
    {
        let mut row: [u32; 14] = [0; 14];
        let mut j: usize = 0;
        while j < 14
            invariant
                i < 14,
                j <= 14,
                t.len() == i,
                forall|n: int, k: int|
                    0 <= n < i && 0 <= k < 14 ==> #[trigger] t@[n]@[k] == binom(n as nat, k as nat),
                forall|k: int| 0 <= k < j ==> #[trigger] row@[k] == binom(i as nat, k as nat),
            decreases 14 - j,
        {
            proof {
                lemma_binom_basics(i as nat, j as nat);
            }
            if j == 0 || j == i {
                row[j] = 1;
            } else if j < i {
                let a = t[i - 1][j - 1];
                let b = t[i - 1][j];
                proof {
                    lemma_binom_basics((i - 1) as nat, (j - 1) as nat);
                    lemma_binom_basics((i - 1) as nat, j as nat);
                    lemma_pow2_mono((i - 1) as nat, 13);
                    lemma_pow2_13();
                    assert(a == binom((i - 1) as nat, (j - 1) as nat));
                    assert(b == binom((i - 1) as nat, j as nat));
                }
                row[j] = a + b;
            } else {
                row[j] = 0;
            }
            j = j + 1;
        }
        t.push(row);
        i = i + 1;
    }
    t
}


fn build_ncr_groups() -> (t: Vec<[u64; 5]>)
    ensures
        ncr_groups_table_ok(t@),
{
    let mut t: Vec<[u64; 5]> = Vec::new();
    let mut i: usize = 0;
    while i < MAX_GROUP_INDEX
        invariant
            i <= MAX_GROUP_INDEX,
            t.len() == i,
            forall|n: int, k: int|
                0 <= n < i && 0 <= k < 5 ==> #[trigger] t@[n]@[k] == binom(n as nat, k as nat)
                    % 0x1_0000_0000_0000_0000,
        decreases MAX_GROUP_INDEX - i,
    {
        let mut row: [u64; 5] = [0; 5];
        let mut j: usize = 0;
        while j < 5
            invariant
                i < MAX_GROUP_INDEX,
                j <= 5,
                t.len() == i,
                forall|n: int, k: int|
                    0 <= n < i && 0 <= k < 5 ==> #[trigger] t@[n]@[k] == binom(n as nat, k as nat)
                        % 0x1_0000_0000_0000_0000,
                forall|k: int|
                    0 <= k < j ==> #[trigger] row@[k] == binom(i as nat, k as nat)
                        % 0x1_0000_0000_0000_0000,
            decreases 5 - j,
        {
            proof {
                lemma_binom_basics(i as nat, j as nat);
            }
            if j == 0 || j == i {
                row[j] = 1;
            } else if j < i {
                let a = t[i - 1][j - 1];
                let b = t[i - 1][j];
                proof {
                    let x = binom((i - 1) as nat, (j - 1) as nat) as int;
                    let y = binom((i - 1) as nat, j as nat) as int;
                    let m = 0x1_0000_0000_0000_0000int;
                    vstd::arithmetic::div_mod::lemma_add_mod_noop(x, y, m);
                    assert(a == x % m);
                    assert(b == y % m);
                    assert(binom(i as nat, j as nat) == x + y);
                }
                row[j] = a.wrapping_add(b);
            } else {
                row[j] = 0;
            }
            j = j + 1;
        }
        t.push(row);
        i = i + 1;
    }
    t
}

/// Colex rank of the rank set `x`, counting set bits from position `b`
/// upward, `j` set bits having been seen below `b`.
pub open spec fn colex_from(x: u32, b: nat, j: nat) -> nat
    decreases 13 - b,
{
    if b >= 13 {
        0
    } else if bit(x, b as u32) {
        binom(b, j + 1) + colex_from(x, b + 1, j + 1)
    } else {
        colex_from(x, b + 1, j)
    }
}

/// Number of set bits of `x` at positions `b..13`.
pub open spec fn pop_from(x: u32, b: nat) -> nat
    decreases 13 - b,
{
    if b >= 13 {
        0
    } else if bit(x, b as u32) {
        1 + pop_from(x, b + 1)
    } else {
        pop_from(x, b + 1)
    }
}

/// Colex rank of a rank set: the sum of `binom(b, j)` over its members
/// `b`, the `j`-th smallest member counted from one.
pub open spec fn rank_set_index(x: u32) -> nat {
    colex_from(x, 0, 0)
}

/// Number of ranks in a rank set.
pub open spec fn rank_set_size(x: u32) -> nat {
    pop_from(x, 0)
}

/// Position of the `j`-th (from zero) rank absent from `x`, searching
/// from `b`; `0xff` when there is none below thirteen.
pub open spec fn nth_clear(x: u32, j: nat, b: nat) -> nat
    decreases 13 - b,
{
    if b >= 13 {
        0xff
    } else if !bit(x, b as u32) {
        if j == 0 {
            b
        } else {
            nth_clear(x, (j - 1) as nat, b + 1)
        }
    } else {
        nth_clear(x, j, b + 1)
    }
}

proof fn lemma_colex_bound(x: u32, b: nat, j: nat)
    requires
        b <= 13,
    ensures
        colex_from(x, b, j) <= (13 - b) * 8192,
        pop_from(x, b) <= 13 - b,
    decreases 13 - b,
{
    if b < 13 {
        lemma_colex_bound(x, b + 1, j);
        lemma_colex_bound(x, b + 1, j + 1);
        lemma_binom_basics(b, j + 1);
        lemma_pow2_mono(b, 13);
        lemma_pow2_13();
    }
}

/// A rank set below `1 << n` has nothing at or above position `n`.
proof fn lemma_high_zero(x: u32, n: u32, b: nat, j: nat)
    requires
        n <= 13,
        x < (1u32 << n),
        n <= b,
    ensures
        colex_from(x, b, j) == 0,
        pop_from(x, b) == 0,
    decreases 13 - b,
{
    if b < 13 {
        let bu = b as u32;
        assert(!bit(x, bu)) by {
            assert((x >> bu) & 1 != 1) by (bit_vector)
                requires
                    x < (1u32 << n),
                    n <= bu,
                    bu < 13,
            ;
        }
        lemma_high_zero(x, n, b + 1, j);
        lemma_high_zero(x, n, b + 1, j + 1);
    }
}

/// Adding a rank `e` above every rank of `x` adds one member, the last,
/// whose colex term is `binom(e, size)`.
proof fn lemma_add_top(x: u32, e: u32, b: nat, j: nat)
    requires
        e < 13,
        x < (1u32 << e),
        b <= e,
    ensures
        colex_from(x | (1u32 << e), b, j) == colex_from(x, b, j) + binom(e as nat, j + pop_from(x, b) + 1),
        pop_from(x | (1u32 << e), b) == pop_from(x, b) + 1,
    decreases e - b,
{
    let y = x | (1u32 << e);
    let bu = b as u32;
    let e1 = (e + 1) as u32;
    assert(y < (1u32 << e1)) by (bit_vector)
        requires
            x < (1u32 << e),
            e < 13,
            e1 == e + 1,
            y == x | (1u32 << e),
    ;
    if b == e {
        assert(bit(y, e)) by {
            assert((y >> e) & 1 == 1) by (bit_vector)
                requires
                    y == x | (1u32 << e),
                    e < 13,
            ;
        }
        lemma_high_zero(y, (e + 1) as u32, b + 1, j + 1);
        lemma_high_zero(x, e, b, j);
    } else {
        assert(bit(y, bu) == bit(x, bu)) by {
            assert(((y >> bu) & 1 == 1) == ((x >> bu) & 1 == 1)) by (bit_vector)
                requires
                    y == x | (1u32 << e),
                    bu < e,
                    e < 13,
            ;
        }
        lemma_add_top(x, e, b + 1, j);
        lemma_add_top(x, e, b + 1, j + 1);
    }
}

/// `binom(n, k)` does not shrink as `n` grows.
proof fn lemma_binom_mono(a: nat, b: nat, k: nat)
    requires
        a <= b,
    ensures
        binom(a, k) <= binom(b, k),
    decreases b,
{
    if a < b {
        lemma_binom_mono(a, (b - 1) as nat, k);
    }
}

/// Every index below `binom(n, k)` is the colex rank of some `k`-subset
/// of the ranks below `n`.
proof fn lemma_colex_onto(n: u32, k: nat, idx: nat) -> (x: u32)
    requires
        n <= 13,
        idx < binom(n as nat, k),
    ensures
        x < (1u32 << n),
        pop_from(x, 0) == k,
        colex_from(x, 0, 0) == idx,
    decreases n,
{
    if k == 0 {
        assert(0u32 < (1u32 << n)) by (bit_vector)
            requires
                n <= 13,
        ;
        lemma_shift_consts();
        lemma_high_zero(0, 0, 0, 0);
        0
    } else {
        lemma_binom_basics(n as nat, k);
        assert(n > 0);
        let m = (n - 1) as u32;
        assert(binom(n as nat, k) == binom(m as nat, (k - 1) as nat) + binom(m as nat, k));
        if idx < binom(m as nat, k) {
            let x = lemma_colex_onto(m, k, idx);
            assert(x < (1u32 << n)) by (bit_vector)
                requires
                    x < (1u32 << m),
                    n == m + 1,
                    n <= 13,
            ;
            x
        } else {
            let x0 = lemma_colex_onto(m, (k - 1) as nat, (idx - binom(m as nat, k)) as nat);
            lemma_add_top(x0, m, 0, 0);
            let x = x0 | (1u32 << m);
            assert(x < (1u32 << n)) by (bit_vector)
                requires
                    x0 < (1u32 << m),
                    n == m + 1,
                    n <= 13,
                    x == x0 | (1u32 << m),
            ;
            x
        }
    }
}

/// Splitting off the top position `e` of a set below `1 << m`, `m == e + 1`.
proof fn lemma_top_bit(x: u32, e: u32, m: u32)
    by (bit_vector)
    requires
        e < 13,
        m == e + 1,
        x < (1u32 << m),
    ensures
        x >= (1u32 << e) ==> (x ^ (1u32 << e)) < (1u32 << e) && x == (x ^ (1u32 << e)) | (1u32 << e),
{
}

/// The shifts that bound the empty and the full rank sets.
proof fn lemma_shift_consts()
    by (bit_vector)
    ensures
        (1u32 << 0u32) == 1,
        (1u32 << 13u32) == 8192,
        forall|q: u32| #[trigger] (0u32 >> q) == 0u32,
        0u32 & 1u32 == 0u32,
{
}

/// The colex rank of a `k`-element set below position `m` is below
/// `binom(m, k)`.
proof fn lemma_colex_below(x: u32, m: u32)
    requires
        m <= 13,
        x < (1u32 << m),
    ensures
        colex_from(x, 0, 0) < binom(m as nat, pop_from(x, 0)),
    decreases m,
{
    if m == 0 {
        lemma_shift_consts();
        lemma_high_zero(0, 0, 0, 0);
    } else {
        let e = (m - 1) as u32;
        lemma_top_bit(x, e, m);
        lemma_binom_basics(m as nat, pop_from(x, 0));
        if x >= (1u32 << e) {
            let x2 = x ^ (1u32 << e);
            lemma_add_top(x2, e, 0, 0);
            lemma_colex_below(x2, e);
        } else {
            lemma_colex_below(x, e);
            lemma_binom_mono(e as nat, m as nat, pop_from(x, 0));
        }
    }
}

/// Two sets below position `m` with the same size and colex rank are
/// the same set.
proof fn lemma_colex_unique(x: u32, y: u32, m: u32)
    requires
        m <= 13,
        x < (1u32 << m),
        y < (1u32 << m),
        pop_from(x, 0) == pop_from(y, 0),
        colex_from(x, 0, 0) == colex_from(y, 0, 0),
    ensures
        x == y,
    decreases m,
{
    if m == 0 {
        lemma_shift_consts();
    } else {
        let e = (m - 1) as u32;
        lemma_top_bit(x, e, m);
        lemma_top_bit(y, e, m);
        let xt = x >= (1u32 << e);
        let yt = y >= (1u32 << e);
        if xt && yt {
            let x2 = x ^ (1u32 << e);
            let y2 = y ^ (1u32 << e);
            lemma_add_top(x2, e, 0, 0);
            lemma_add_top(y2, e, 0, 0);
            lemma_colex_unique(x2, y2, e);
        } else if !xt && !yt {
            lemma_colex_unique(x, y, e);
        } else if xt {
            let x2 = x ^ (1u32 << e);
            lemma_add_top(x2, e, 0, 0);
            lemma_colex_below(y, e);
        } else {
            let y2 = y ^ (1u32 << e);
            lemma_add_top(y2, e, 0, 0);
            lemma_colex_below(x, e);
        }
    }
}

/// A rank set whose colex rank is below `binom(n, size)` lies below
/// position `n`.
proof fn lemma_colex_small(x: u32, m: u32, n: u32)
    requires
        m <= 13,
        n <= 13,
        x < (1u32 << m),
        colex_from(x, 0, 0) < binom(n as nat, pop_from(x, 0)),
    ensures
        x < (1u32 << n),
    decreases m,
{
    if m <= n {
        assert(x < (1u32 << n)) by (bit_vector)
            requires
                x < (1u32 << m),
                m <= n,
                n <= 13,
        ;
    } else {
        let e = (m - 1) as u32;
        if x >= (1u32 << e) {
            let x2 = x ^ (1u32 << e);
            assert(x2 < (1u32 << e) && x == x2 | (1u32 << e)) by (bit_vector)
                requires
                    x < (1u32 << m),
                    x >= (1u32 << e),
                    m == e + 1,
                    m <= 13,
                    x2 == x ^ (1u32 << e),
            ;
            lemma_add_top(x2, e, 0, 0);
            lemma_binom_mono(n as nat, e as nat, pop_from(x, 0));
            assert(false);
        } else {
            lemma_colex_small(x, e, n);
        }
    }
}

/// The `j`-th absent rank from position `b` on exists below thirteen
/// while `j` is below the number of absent ranks there, and it is absent.
proof fn lemma_nth_clear(x: u32, j: nat, b: nat)
    requires
        b <= 13,
        j + pop_from(x, b) + b < 13,
    ensures
        b <= nth_clear(x, j, b) < 13,
        !bit(x, nth_clear(x, j, b) as u32),
    decreases 13 - b,
{
    if !bit(x, b as u32) {
        if j > 0 {
            lemma_nth_clear(x, (j - 1) as nat, b + 1);
        }
    } else {
        lemma_nth_clear(x, j, b + 1);
    }
}

/// Absent ranks are found in increasing order.
proof fn lemma_nth_clear_mono(x: u32, j1: nat, j2: nat, b: nat)
    requires
        b <= 13,
        j1 < j2,
        j2 + pop_from(x, b) + b < 13,
    ensures
        nth_clear(x, j1, b) < nth_clear(x, j2, b),
    decreases 13 - b,
{
    lemma_nth_clear(x, j2, b);
    if !bit(x, b as u32) {
        if j1 > 0 {
            lemma_nth_clear_mono(x, (j1 - 1) as nat, (j2 - 1) as nat, b + 1);
        } else {
            lemma_nth_clear(x, (j2 - 1) as nat, b + 1);
        }
    } else {
        lemma_nth_clear_mono(x, j1, j2, b + 1);
    }
}

/// The lowest bit of a word is zero or one.
proof fn lemma_low_bit(v: u32)
    by (bit_vector)
    ensures
        v & 1 != 0 ==> v & 1 == 1,
{
}

/// Toggling or setting bit `c` of a rank set changes bit `q` only where
/// `q == c`; setting keeps a set below `1 << 13` below it.
proof fn lemma_bit_update(x: u32, c: u32, q: u32)
    by (bit_vector)
    requires
        c < 13,
        q < 13,
    ensures
        (((x ^ (1u32 << c)) >> q) & 1 == 1) == (((x >> q) & 1 == 1) != (q == c)),
        (((x | (1u32 << c)) >> q) & 1 == 1) == (((x >> q) & 1 == 1) || q == c),
        x < 8192 ==> x | (1u32 << c) < 8192,
{
}

/// A member `c` of a set below `1 << w` lies below `w`, and the set
/// without it stays below `1 << w`.
proof fn lemma_bit_below(x: u32, c: u32, w: u32)
    by (bit_vector)
    requires
        c < 13,
        w <= 13,
        x < (1u32 << w),
        (x >> c) & 1 == 1,
    ensures
        c < w,
        x ^ (1u32 << c) < (1u32 << w),
{
}

/// A rank set with a member has a lowest member at or above `b`.
proof fn lemma_pop_witness(x: u32, b: nat) -> (q: u32)
    requires
        b <= 13,
        pop_from(x, b) > 0,
    ensures
        b <= q < 13,
        bit(x, q),
    decreases 13 - b,
{
    if bit(x, b as u32) {
        b as u32
    } else {
        lemma_pop_witness(x, b + 1)
    }
}

/// Clearing member `c` of a rank set removes one member at or below `c`.
proof fn lemma_pop_clear(x: u32, c: u32, b: nat)
    requires
        c < 13,
        b <= 13,
        bit(x, c),
    ensures
        pop_from(x ^ (1u32 << c), b) + (if b <= c { 1nat } else { 0nat }) == pop_from(x, b),
    decreases 13 - b,
{
    if b < 13 {
        let bu = b as u32;
        let y = x ^ (1u32 << c);
        lemma_bit_update(x, c, bu);
        lemma_pop_clear(x, c, b + 1);
    }
}

/// Adding a rank `c` absent from a rank set adds one member at or below `c`.
proof fn lemma_pop_set(x: u32, c: u32, b: nat)
    requires
        c < 13,
        b <= 13,
        !bit(x, c),
    ensures
        pop_from(x | (1u32 << c), b) == pop_from(x, b) + (if b <= c { 1nat } else { 0nat }),
    decreases 13 - b,
{
    if b < 13 {
        let bu = b as u32;
        let y = x | (1u32 << c);
        lemma_bit_update(x, c, bu);
        lemma_pop_set(x, c, b + 1);
    }
}

/// The empty rank set has no members.
proof fn lemma_pop_zero(b: nat)
    requires
        b <= 13,
    ensures
        pop_from(0, b) == 0,
    decreases 13 - b,
{
    if b < 13 {
        let bu = b as u32;
        assert(!bit(0, bu)) by {
            assert((0u32 >> bu) & 1 != 1) by (bit_vector);
        }
        lemma_pop_zero(b + 1);
    }
}

/// Colex rank and size of every rank set below `1 << 13`.
fn build_rank_set_to_index(ncr: &Vec<[u32; 14]>) -> (res: (Vec<u32>, Vec<u8>))
    requires
        ncr_ranks_table_ok(ncr@),
    ensures
        res.0.len() == 8192,
        res.1.len() == 8192,
        forall|x: int|
            0 <= x < 8192 ==> #[trigger] res.0@[x] == rank_set_index(x as u32) && res.1@[x]
                == rank_set_size(x as u32),
{
    let mut idx_v: Vec<u32> = Vec::new();
    let mut pop_v: Vec<u8> = Vec::new();
    let mut x: u32 = 0;
    while x < 8192
        invariant
            x <= 8192,
            ncr_ranks_table_ok(ncr@),
            idx_v.len() == x,
            pop_v.len() == x,
            forall|y: int|
                0 <= y < x ==> #[trigger] idx_v@[y] == rank_set_index(y as u32) && pop_v@[y]
                    == rank_set_size(y as u32),
        decreases 8192 - x,
    {
        let mut idx: u32 = 0;
        let mut j: u32 = 0;
        let mut b: u32 = 0;
        proof {
            lemma_colex_bound(x, 0, 0);
        }
        while b < 13
            invariant
                b <= 13,
                j <= b,
                ncr_ranks_table_ok(ncr@),
                idx + colex_from(x, b as nat, j as nat) == rank_set_index(x),
                j + pop_from(x, b as nat) == rank_set_size(x),
                idx <= b * 8192,
            decreases 13 - b,
        {
            if (x >> b) & 1 == 1 {
                proof {
                    lemma_binom_basics(b as nat, (j + 1) as nat);
                    lemma_pow2_mono(b as nat, 13);
                    lemma_pow2_13();
                }
                j = j + 1;
                idx = idx + ncr[b as usize][j as usize];
            }
            b = b + 1;
        }
        assert(idx == rank_set_index(x));
        assert(j == rank_set_size(x));
        idx_v.push(idx);
        pop_v.push(j as u8);
        x = x + 1;
    }
    (idx_v, pop_v)
}

/// `index_to_rank_set[k]` lists the `k`-element rank sets by colex rank:
/// row `k` has `binom(13, k)` entries, and the entry at the colex rank of a
/// `k`-element set is a set below `1 << 13` with that size and that rank.
fn build_index_to_rank_set(ncr: &Vec<[u32; 14]>, idx_v: &Vec<u32>, pop_v: &Vec<u8>) -> (t: Vec<
    Vec<u32>,
>)
    requires
        ncr_ranks_table_ok(ncr@),
        idx_v.len() == 8192,
        pop_v.len() == 8192,
    ensures
        t.len() == 14,
        forall|k: int| 0 <= k < 14 ==> (#[trigger] t@[k]).len() == binom(13, k as nat),
        forall|x: int, k: int|
            0 <= x < 8192 && 0 <= k < 14 && k == pop_v@[x] && idx_v@[x] < t@[k].len() ==> {
                let y = #[trigger] t@[k]@[idx_v@[x] as int];
                &&& y < 8192
                &&& pop_v@[y as int] == k
                &&& idx_v@[y as int] == idx_v@[x]
            },
{
    let mut t: Vec<Vec<u32>> = Vec::new();
    let mut k: usize = 0;
    while k < 14
        invariant
            k <= 14,
            ncr_ranks_table_ok(ncr@),
            idx_v.len() == 8192,
            pop_v.len() == 8192,
            t.len() == k,
            forall|kk: int| 0 <= kk < k ==> (#[trigger] t@[kk]).len() == binom(13, kk as nat),
            forall|x: int, kk: int|
                0 <= x < 8192 && 0 <= kk < k && kk == pop_v@[x] && idx_v@[x] < t@[kk].len() ==> {
                    let y = #[trigger] t@[kk]@[idx_v@[x] as int];
                    &&& y < 8192
                    &&& pop_v@[y as int] == kk
                    &&& idx_v@[y as int] == idx_v@[x]
                },
        decreases 14 - k,
    {
        let n = ncr[13][k] as usize;
        let mut row: Vec<u32> = vec![0u32; n];
        let mut x: usize = 0;
        while x < 8192
            invariant
                k < 14,
                x <= 8192,
                idx_v.len() == 8192,
                pop_v.len() == 8192,
                row.len() == n,
                forall|y: int|
                    0 <= y < x && k == pop_v@[y] && idx_v@[y] < n ==> {
                        let z = #[trigger] row@[idx_v@[y] as int];
                        &&& z < 8192
                        &&& pop_v@[z as int] == k
                        &&& idx_v@[z as int] == idx_v@[y]
                    },
            decreases 8192 - x,
        {
            if pop_v[x] as usize == k && (idx_v[x] as usize) < n {
                row.set(idx_v[x] as usize, x as u32);
            }
            x = x + 1;
        }
        t.push(row);
        k = k + 1;
    }
    t
}

/// `nth_unset[x][j]` is the position of the `j`-th rank absent from `x`.
fn build_nth_unset() -> (t: Vec<[u8; 13]>)
    ensures
        t.len() == 8192,
        forall|x: int, j: int|
            0 <= x < 8192 && 0 <= j < 13 ==> #[trigger] t@[x]@[j] == nth_clear(x as u32, j as nat, 0),
{
    let mut t: Vec<[u8; 13]> = Vec::new();
    let mut x: u32 = 0;
    while x < 8192
        invariant
            x <= 8192,
            t.len() == x,
            forall|y: int, j: int|
                0 <= y < x && 0 <= j < 13 ==> #[trigger] t@[y]@[j] == nth_clear(y as u32, j as nat, 0),
        decreases 8192 - x,
    {
        let mut row: [u8; 13] = [0xff; 13];
        let mut c: usize = 0;
        let mut b: u32 = 0;
        while b < 13
            invariant
                b <= 13,
                c <= b,
                forall|j: int| 0 <= j < c ==> nth_clear(x, j as nat, 0) == #[trigger] row@[j] as nat,
                forall|j: int|
                    c <= j < 13 ==> #[trigger] nth_clear(x, j as nat, 0) == nth_clear(
                        x,
                        (j - c) as nat,
                        b as nat,
                    ),
                forall|j: int| c <= j < 13 ==> #[trigger] row@[j] == 0xff,
            decreases 13 - b,
        {
            if (x >> b) & 1 == 0 {
                assert(!bit(x, b));
                row[c] = b as u8;
                c = c + 1;
            } else {
                proof {
                    lemma_low_bit(x >> b);
                }
            }
            b = b + 1;
        }
        assert forall|j: int| 0 <= j < 13 implies #[trigger] row@[j] == nth_clear(x, j as nat, 0) by {
            if j >= c {
                assert(nth_clear(x, j as nat, 0) == nth_clear(x, (j - c) as nat, 13));
            }
        }
        t.push(row);
        x = x + 1;
    }
    t
}

/// `equal[i][j]` tells whether suit `j` (from one) is marked equal to the
/// suit before it in the three-bit mask `i`.
fn build_equal() -> (t: Vec<[bool; 4]>)
    ensures
        t.len() == 8,
        forall|i: int, j: int|
            0 <= i < 8 && 0 <= j < 4 ==> #[trigger] t@[i]@[j] == (j >= 1 && bit(i as u32, (j - 1) as u32)),
{
    let mut t: Vec<[bool; 4]> = Vec::new();
    let mut i: u32 = 0;
    while i < 8
        invariant
            i <= 8,
            t.len() == i,
            forall|ii: int, j: int|
                0 <= ii < i && 0 <= j < 4 ==> #[trigger] t@[ii]@[j] == (j >= 1 && bit(
                    ii as u32,
                    (j - 1) as u32,
                )),
        decreases 8 - i,
    {
        let mut row: [bool; 4] = [false; 4];
        let mut j: u32 = 1;
        while j < 4
            invariant
                1 <= j <= 4,
                i < 8,
                row@[0] == false,
                forall|jj: int| 1 <= jj < j ==> #[trigger] row@[jj] == bit(i, (jj - 1) as u32),
            decreases 4 - j,
        {
            row[j as usize] = (i >> (j - 1)) & 1 == 1;
            j = j + 1;
        }
        t.push(row);
        i = i + 1;
    }
    t
}

/// The suits picked from step `j` on when decoding the Lehmer code `p`
/// with the suits of `used` taken: step `j` takes the digit `p % (4 - j)`
/// and picks the digit-th suit not yet taken.
pub open spec fn lehmer_decode(p: nat, j: nat, used: u32) -> Seq<u32>
    decreases 4 - j,
{
    if j >= 4 {
        Seq::empty()
    } else {
        let d = p % (4 - j) as nat;
        let q = nth_clear(used, d, 0) as u32;
        seq![q] + lehmer_decode(p / (4 - j) as nat, j + 1, used | (1u32 << q))
    }
}

/// The `d`-th absent rank from `b` lies `d` absent ranks and the present
/// ones between them past `b`.
proof fn lemma_nth_clear_offset(x: u32, d: nat, b: nat)
    requires
        b <= 13,
        nth_clear(x, d, b) < 13,
    ensures
        b <= nth_clear(x, d, b),
        nth_clear(x, d, b) - b == d + bits_below(x, nth_clear(x, d, b)) - bits_below(x, b),
    decreases 13 - b,
{
    if b < 13 {
        if !bit(x, b as u32) {
            if d > 0 {
                lemma_nth_clear_offset(x, (d - 1) as nat, b + 1);
                lemma_bits_below_mono(x, b + 1, nth_clear(x, d, b));
            }
        } else {
            lemma_nth_clear_offset(x, d, b + 1);
        }
    }
}

proof fn lemma_bits_below_mono(x: u32, a: nat, b: nat)
    requires
        a <= b,
    ensures
        bits_below(x, a) <= bits_below(x, b),
    decreases b,
{
    if a < b {
        lemma_bits_below_mono(x, a, (b - 1) as nat);
    }
}

/// The `d`-th suit absent from a set of `j` taken suits is a suit, and
/// it is absent, while `d < 4 - j`.
proof fn lemma_nth_clear_suit(x: u32, d: nat, b: nat)
    requires
        b <= 4,
        d + pop_from(x, b) + b < 4,
    ensures
        b <= nth_clear(x, d, b) < 4,
        !bit(x, nth_clear(x, d, b) as u32),
    decreases 4 - b,
{
    if !bit(x, b as u32) {
        if d > 0 {
            lemma_nth_clear_suit(x, (d - 1) as nat, b + 1);
        }
    } else {
        lemma_nth_clear_suit(x, d, b + 1);
    }
}

/// One decoding step: with `j` suits taken, the digit-th absent suit is a
/// new suit below four, the taken set grows by one, and its Lehmer digit
/// is the digit back.
proof fn lemma_decode_step(used: u32, j: nat, d: nat)
    requires
        j < 4,
        d < 4 - j,
        pop_from(used, 0) == j,
        used < 8192,
    ensures
        ({
            let q = nth_clear(used, d, 0) as u32;
            &&& q < 4
            &&& !bit(used, q)
            &&& pop_from(used | (1u32 << q), 0) == j + 1
            &&& used | (1u32 << q) < 8192
            &&& q - bits_below(used, q as nat) == d
            &&& bit(used | (1u32 << q), q)
            &&& forall|c: u32| c < 4 && bit(used, c) ==> #[trigger] bit(used | (1u32 << q), c)
        }),
{
    lemma_nth_clear_suit(used, d, 0);
    let q = nth_clear(used, d, 0) as u32;
    lemma_pop_set(used, q, 0);
    lemma_bit_update(used, q, q);
    lemma_nth_clear_offset(used, d, 0);
    assert forall|c: u32| c < 4 && bit(used, c) implies #[trigger] bit(used | (1u32 << q), c) by {
        lemma_bit_update(used, q, c);
    }
}

/// The arrangement decoded from `p` lists four distinct suits, and its
/// Lehmer code is `p` again.
proof fn lemma_lehmer_round_trip(p: nat, pi: [u32; 4])
    requires
        p < 24,
        pi@ == lehmer_decode(p, 0, 0),
    ensures
        forall|k: int| 0 <= k < 4 ==> #[trigger] pi@[k] < 4,
        forall|a: int, b: int| 0 <= a < b < 4 ==> #[trigger] pi@[a] != #[trigger] pi@[b],
        lehmer_acc(pi, 4).0 == p,
{
    let u0 = 0u32;
    lemma_pop_zero(0);
    let d0 = p % 4;
    lemma_decode_step(u0, 0, d0);
    let q0 = nth_clear(u0, d0, 0) as u32;
    let u1 = u0 | (1u32 << q0);
    let p1 = p / 4;
    let d1 = p1 % 3;
    lemma_decode_step(u1, 1, d1);
    let q1 = nth_clear(u1, d1, 0) as u32;
    let u2 = u1 | (1u32 << q1);
    let p2 = p1 / 3;
    let d2 = p2 % 2;
    lemma_decode_step(u2, 2, d2);
    let q2 = nth_clear(u2, d2, 0) as u32;
    let u3 = u2 | (1u32 << q2);
    let p3 = p2 / 2;
    let d3 = p3 % 1;
    lemma_decode_step(u3, 3, d3);
    let q3 = nth_clear(u3, d3, 0) as u32;
    let u4 = u3 | (1u32 << q3);
    assert(lehmer_decode(p, 0, 0) == seq![q0] + lehmer_decode(p1, 1, u1));
    assert(lehmer_decode(p1, 1, u1) == seq![q1] + lehmer_decode(p2, 2, u2));
    assert(lehmer_decode(p2, 2, u2) == seq![q2] + lehmer_decode(p3, 3, u3));
    assert(lehmer_decode(p3, 3, u3) == seq![q3] + lehmer_decode(p3 / 1, 4, u4));
    assert(pi@[0] == q0 && pi@[1] == q1 && pi@[2] == q2 && pi@[3] == q3);
    assert(lehmer_acc(pi, 0) == (0nat, 1nat, 0u32));
    assert(q0 - bits_below(u0, q0 as nat) == d0);
    assert(pi@[0] == q0);
    assert(lehmer_acc(pi, 1) == (
        (0 + (q0 - bits_below(0u32, q0 as nat)) * 1) as nat,
        (1 * (4 - 0)) as nat,
        0u32 | (1u32 << q0),
    ));
    assert(lehmer_acc(pi, 1) == (d0, 4nat, u1));
    assert(q1 - bits_below(u1, q1 as nat) == d1);
    assert(lehmer_acc(pi, 2) == (
        (d0 + (q1 - bits_below(u1, q1 as nat)) * 4) as nat,
        (4 * (4 - 1)) as nat,
        u1 | (1u32 << q1),
    ));
    assert(lehmer_acc(pi, 2) == (d0 + d1 * 4, 12nat, u2));
    assert(q2 - bits_below(u2, q2 as nat) == d2);
    assert(lehmer_acc(pi, 3) == (
        (d0 + d1 * 4 + (q2 - bits_below(u2, q2 as nat)) * 12) as nat,
        (12 * (4 - 2)) as nat,
        u2 | (1u32 << q2),
    ));
    assert(lehmer_acc(pi, 3) == (d0 + d1 * 4 + d2 * 12, 24nat, u3));
    assert(q3 - bits_below(u3, q3 as nat) == d3);
    assert(lehmer_acc(pi, 4).0 == (d0 + d1 * 4 + d2 * 12 + (q3 - bits_below(u3, q3 as nat)) * 24) as nat);
    assert(lehmer_acc(pi, 4).0 == d0 + d1 * 4 + d2 * 12 + d3 * 24);
    assert(bit(u2, q0) && bit(u3, q0) && bit(u3, q1));
}

/// `suit_permutations[p]` decodes the Lehmer code `p` (below `4!`) into an
/// arrangement of the four suits: digit `j` is `p` in mixed radix
/// `4, 3, 2, 1`, and picks the digit-th suit not yet used.
fn build_suit_permutations(nth_unset: &Vec<[u8; 13]>) -> (t: Vec<[u32; 4]>)
    requires
        nth_unset.len() == 8192,
        forall|x: int, j: int|
            0 <= x < 8192 && 0 <= j < 13 ==> #[trigger] nth_unset@[x]@[j] == nth_clear(x as u32, j as nat, 0),
    ensures
        t.len() == 24,
        forall|p: int| 0 <= p < 24 ==> (#[trigger] t@[p])@ == lehmer_decode(p as nat, 0, 0),
        forall|p: int, j: int| 0 <= p < 24 && 0 <= j < 4 ==> #[trigger] t@[p]@[j] < 4,
        forall|p: int, a: int, b: int|
            0 <= p < 24 && 0 <= a < b < 4 ==> #[trigger] t@[p]@[a] != #[trigger] t@[p]@[b],
        forall|p: int| 0 <= p < 24 ==> lehmer_acc(#[trigger] t@[p], 4).0 == p,
{
    let mut t: Vec<[u32; 4]> = Vec::new();
    let mut i: u32 = 0;
    while i < 24
        invariant
            i <= 24,
            nth_unset.len() == 8192,
            forall|x: int, j: int|
                0 <= x < 8192 && 0 <= j < 13 ==> #[trigger] nth_unset@[x]@[j] == nth_clear(x as u32, j as nat, 0),
            t.len() == i,
            forall|p: int| 0 <= p < i ==> (#[trigger] t@[p])@ == lehmer_decode(p as nat, 0, 0),
            forall|p: int, j: int| 0 <= p < i && 0 <= j < 4 ==> #[trigger] t@[p]@[j] < 4,
            forall|p: int, a: int, b: int|
                0 <= p < i && 0 <= a < b < 4 ==> #[trigger] t@[p]@[a] != #[trigger] t@[p]@[b],
            forall|p: int| 0 <= p < i ==> lehmer_acc(#[trigger] t@[p], 4).0 == p,
        decreases 24 - i,
    {
        let mut perm: [u32; 4] = [0; 4];
        let mut index: u32 = i;
        let mut used: u32 = 0;
        let mut j: u32 = 0;
        proof {
            lemma_pop_zero(0);
        }
        while j < 4
            invariant
                j <= 4,
                i < 24,
                used < 8192,
                pop_from(used, 0) == j,
                index < 24,
                nth_unset.len() == 8192,
                forall|x: int, jj: int|
                    0 <= x < 8192 && 0 <= jj < 13 ==> #[trigger] nth_unset@[x]@[jj] == nth_clear(x as u32, jj as nat, 0),
                perm@.take(j as int) + lehmer_decode(index as nat, j as nat, used) == lehmer_decode(i as nat, 0, 0),
            decreases 4 - j,
        {
            let divisor = 4 - j;
            let suit = index % divisor;
            let ghost old_index = index;
            let ghost old_perm = perm@;
            index = index / divisor;
            let s = nth_unset[used as usize][suit as usize] as u32;
            proof {
                lemma_decode_step(used, j as nat, suit as nat);
            }
            let shifted_suit = if s < 4 { s } else { 0 };
            perm[j as usize] = shifted_suit;
            used = used | (1u32 << shifted_suit);
            proof {
                assert(perm@.take(j as int + 1) =~= old_perm.take(j as int).push(shifted_suit));
            }
            j = j + 1;
        }
        proof {
            assert(perm@.take(4) =~= perm@);
            lemma_lehmer_round_trip(i as nat, perm);
        }
        t.push(perm);
        i = i + 1;
    }
    t
}

/// The lookup tables shared by every indexer.
pub struct StaticTables {
    /// `binom(n, k)` for `n, k <= 13`.
    pub ncr_ranks: Vec<[u32; 14]>,
    /// `binom(n, k)` modulo `2^64` for `k <= 4`.
    pub ncr_groups: Vec<[u64; 5]>,
    /// Colex rank of each rank set.
    pub rank_set_to_index: Vec<u32>,
    /// Size of each rank set.
    pub rank_set_size: Vec<u8>,
    /// The rank sets of each size, by colex rank.
    pub index_to_rank_set: Vec<Vec<u32>>,
    /// For each three-bit mask, which suits equal the suit before them.
    pub equal: Vec<[bool; 4]>,
    /// For each rank set, the positions of its absent ranks.
    pub nth_unset: Vec<[u8; 13]>,
    /// The suit arrangement of each Lehmer code.
    pub suit_permutations: Vec<[u32; 4]>,
}

impl StaticTables {
    /// What each table holds.
    pub open spec fn wf(&self) -> bool {
        &&& ncr_ranks_table_ok(self.ncr_ranks@)
        &&& ncr_groups_table_ok(self.ncr_groups@)
        &&& self.rank_set_to_index.len() == 8192
        &&& self.rank_set_size.len() == 8192
        &&& forall|x: int|
            0 <= x < 8192 ==> #[trigger] self.rank_set_to_index@[x] == rank_set_index(x as u32)
                && self.rank_set_size@[x] == rank_set_size(x as u32)
        &&& self.index_to_rank_set.len() == 14
        &&& forall|k: int|
            0 <= k < 14 ==> (#[trigger] self.index_to_rank_set@[k]).len() == binom(13, k as nat)
        &&& forall|x: int, k: int|
            0 <= x < 8192 && 0 <= k < 14 && k == self.rank_set_size@[x]
                && self.rank_set_to_index@[x] < self.index_to_rank_set@[k].len() ==> {
                let y = #[trigger] self.index_to_rank_set@[k]@[self.rank_set_to_index@[x] as int];
                &&& y < 8192
                &&& self.rank_set_size@[y as int] == k
                &&& self.rank_set_to_index@[y as int] == self.rank_set_to_index@[x]
            }
        &&& forall|x: int|
            0 <= x < 8192 ==> {
                let k = self.rank_set_size@[x] as int;
                &&& (#[trigger] self.rank_set_to_index@[x]) < binom(13, k as nat)
                &&& self.index_to_rank_set@[k]@[self.rank_set_to_index@[x] as int] == x
            }
        &&& self.equal.len() == 8
        &&& forall|i: int, j: int|
            0 <= i < 8 && 0 <= j < 4 ==> #[trigger] self.equal@[i]@[j] == (j >= 1 && bit(
                i as u32,
                (j - 1) as u32,
            ))
        &&& self.nth_unset.len() == 8192
        &&& forall|x: int, j: int|
            0 <= x < 8192 && 0 <= j < 13 ==> #[trigger] self.nth_unset@[x]@[j] == nth_clear(
                x as u32,
                j as nat,
                0,
            )
        &&& self.suit_permutations.len() == 24
        &&& forall|p: int, j: int|
            0 <= p < 24 && 0 <= j < 4 ==> #[trigger] self.suit_permutations@[p]@[j] < 4
        &&& forall|p: int|
            0 <= p < 24 ==> (#[trigger] self.suit_permutations@[p])@ == lehmer_decode(p as nat, 0, 0)
                && lehmer_acc(self.suit_permutations@[p], 4).0 == p
        &&& forall|p: int, a: int, b: int|
            0 <= p < 24 && 0 <= a < b < 4 ==> #[trigger] self.suit_permutations@[p]@[a]
                != #[trigger] self.suit_permutations@[p]@[b]
        &&& forall|p: int, q: int|
            0 <= p < q < 24 ==> #[trigger] self.suit_permutations@[p] != #[trigger] self.suit_permutations@[q]
    }
}

/// A rank set's colex rank is below the number of sets of its size,
/// and the set listed at that rank among the sets of its size is the
/// set itself.
proof fn lemma_rank_set_round_trip(idx_v: Seq<u32>, pop_v: Seq<u8>, rs: Seq<Vec<u32>>, x: int)
    requires
        0 <= x < 8192,
        idx_v.len() == 8192,
        pop_v.len() == 8192,
        forall|y: int|
            0 <= y < 8192 ==> #[trigger] idx_v[y] == rank_set_index(y as u32) && pop_v[y] == rank_set_size(y as u32),
        rs.len() == 14,
        forall|k: int| 0 <= k < 14 ==> (#[trigger] rs[k]).len() == binom(13, k as nat),
        forall|y: int, k: int|
            0 <= y < 8192 && 0 <= k < 14 && k == pop_v[y] && idx_v[y] < rs[k].len() ==> {
                let z = #[trigger] rs[k]@[idx_v[y] as int];
                &&& z < 8192
                &&& pop_v[z as int] == k
                &&& idx_v[z as int] == idx_v[y]
            },
    ensures
        idx_v[x] < binom(13, pop_v[x] as nat),
        rs[pop_v[x] as int]@[idx_v[x] as int] == x,
{
    let xu = x as u32;
    lemma_shift_consts();
    lemma_colex_below(xu, 13);
    lemma_colex_bound(xu, 0, 0);
    assert(idx_v[x] == rank_set_index(xu) && pop_v[x] == rank_set_size(xu));
    let k = pop_v[x] as int;
    assert(0 <= k < 14);
    assert(idx_v[x] < rs[k].len());
    let y = rs[k]@[idx_v[x] as int];
    assert(y < 8192 && pop_v[y as int] == k && idx_v[y as int] == idx_v[x]);
    assert(idx_v[y as int] == rank_set_index(y) && pop_v[y as int] == rank_set_size(y));
    lemma_colex_unique(xu, y, 13);
}

/// Builds the binomial, colex-rank, unset-bit, equal-suit and
/// suit-permutation tables.
pub fn tables() -> (t: StaticTables)
    ensures
        t.wf(),
{
    let ncr_ranks = build_ncr_ranks();
    let ncr_groups = build_ncr_groups();
    let (rank_set_to_index, rank_set_size) = build_rank_set_to_index(&ncr_ranks);
    let index_to_rank_set = build_index_to_rank_set(&ncr_ranks, &rank_set_to_index, &rank_set_size);
    let equal = build_equal();
    let nth_unset = build_nth_unset();
    let suit_permutations = build_suit_permutations(&nth_unset);
    proof {
        lemma_shift_consts();
        assert forall|x: int| 0 <= x < 8192 implies {
            let k = rank_set_size@[x] as int;
            &&& (#[trigger] rank_set_to_index@[x]) < binom(13, k as nat)
            &&& index_to_rank_set@[k]@[rank_set_to_index@[x] as int] == x
        } by {
            lemma_rank_set_round_trip(rank_set_to_index@, rank_set_size@, index_to_rank_set@, x);
        }
    }
    proof {
        assert forall|p: int, q: int| 0 <= p < q < 24 implies #[trigger] suit_permutations@[p]
            != #[trigger] suit_permutations@[q] by {
            assert(lehmer_acc(suit_permutations@[p], 4).0 == p);
            assert(lehmer_acc(suit_permutations@[q], 4).0 == q);
        }
    }
    StaticTables {
        ncr_ranks,
        ncr_groups,
        rank_set_to_index,
        rank_set_size,
        index_to_rank_set,
        equal,
        nth_unset,
        suit_permutations,
    }
}

/// `binom(n, k)` for ranks, `n` and `k` at most thirteen.
fn ncr_ranks(t: &StaticTables, n: u32, k: u32) -> (r: u32)
    requires
        t.wf(),
        n <= 13,
        k <= 13,
    ensures
        r == binom(n as nat, k as nat),
{
    t.ncr_ranks[n as usize][k as usize]
}

/// `binom(n, k)` modulo `2^64` for suit groups, `n` below
/// `MAX_GROUP_INDEX` and `k` at most four; zero outside the table.
fn ncr_groups(t: &StaticTables, n: u64, k: u32) -> (r: u64)
    requires
        t.wf(),
    ensures
        n < MAX_GROUP_INDEX && k < 5 ==> r == binom(n as nat, k as nat) % 0x1_0000_0000_0000_0000,
        !(n < MAX_GROUP_INDEX && k < 5) ==> r == 0,
{
    if n < MAX_GROUP_INDEX as u64 && k < 5 {
        t.ncr_groups[n as usize][k as usize]
    } else {
        0
    }
}

/// A canonical hand index.
pub type HandIndex = u64;

/// Errors returned by `HandIndexer::init`.
#[derive(Debug, Clone, Copy, PartialEq, Eq, Structural)]
pub enum HandIndexerError {
    /// 0 rounds supplied.
    ZeroRounds,
    /// More than `MAX_ROUNDS` rounds supplied.
    TooManyRounds { rounds: u32 },
    /// Total cards across all rounds exceeds the deck size.
    TooManyCards { total: u32, cards_in_deck: u32 },
}

/// Cards dealt in rounds `0..n`.
pub open spec fn total_cards(cpr: Seq<u8>, n: int) -> int
    decreases n,
{
    if n <= 0 {
        0
    } else {
        total_cards(cpr, n - 1) + cpr[n - 1]
    }
}

proof fn lemma_total_cards_mono(cpr: Seq<u8>, a: int, b: int)
    requires
        0 <= a <= b,
    ensures
        total_cards(cpr, a) <= total_cards(cpr, b),
    decreases b,
{
    if a < b {
        lemma_total_cards_mono(cpr, a, b - 1);
    }
}

/// Lexicographic order on suit configurations.
pub open spec fn lex_le(a: [u32; 4], b: [u32; 4]) -> bool {
    ||| a@[0] < b@[0]
    ||| a@[0] == b@[0] && a@[1] < b@[1]
    ||| a@[0] == b@[0] && a@[1] == b@[1] && a@[2] < b@[2]
    ||| a@[0] == b@[0] && a@[1] == b@[1] && a@[2] == b@[2] && a@[3] <= b@[3]
}

/// A list of configurations in ascending lexicographic order.
pub open spec fn sorted_configs(s: Seq<[u32; 4]>) -> bool {
    forall|a: int, b: int| 0 <= a < b < s.len() ==> lex_le(#[trigger] s[a], #[trigger] s[b])
}

/// Whether `a` comes strictly after `b`.
fn config_greater(a: &[u32; 4], b: &[u32; 4]) -> (r: bool)
    ensures
        r == !lex_le(*a, *b),
{
    let mut i: usize = 0;
    while i < 4
        invariant
            i <= 4,
            forall|k: int| 0 <= k < i ==> a@[k] == b@[k],
        decreases 4 - i,
    {
        if a[i] < b[i] {
            return false;
        } else if a[i] > b[i] {
            return true;
        }
        i = i + 1;
    }
    false
}

/// The configuration tables of one round while they are being filled.
struct RoundTables {
    configuration: Vec<[u32; 4]>,
    suit_size: Vec<[u32; 4]>,
    offset: Vec<u64>,
    equal: Vec<u32>,
}

impl RoundTables {
    spec fn wf(&self) -> bool {
        &&& self.suit_size.len() == self.configuration.len()
        &&& self.offset.len() == self.configuration.len()
        &&& self.equal.len() == self.configuration.len()
        &&& sorted_configs(self.configuration@)
        &&& forall|k: int| 0 <= k < self.equal.len() ==> #[trigger] self.equal@[k] < 8
    }
}

/// Bit position of round `j`'s count in a configuration of `rounds`
/// rounds: four bits per round, the first round highest.
pub open spec fn slot(rounds: nat, j: nat) -> u32 {
    (4 * (rounds - j - 1)) as u32
}

/// The number of ranks a suit receives in round `j`, read from its packed
/// configuration entry `c`.
pub open spec fn dg(c: u32, rounds: nat, j: nat) -> nat {
    ((c >> slot(rounds, j)) & 0xf) as nat
}

/// The entry rebuilt from its counts of rounds `0..n`: `c` without
/// anything outside those slots.
pub open spec fn pk(c: u32, rounds: nat, n: nat) -> u32
    decreases n,
{
    if n == 0 {
        0
    } else {
        pk(c, rounds, (n - 1) as nat) | (((c >> slot(rounds, (n - 1) as nat)) & 0xf) << slot(
            rounds,
            (n - 1) as nat,
        ))
    }
}

/// Ranks a suit receives in rounds `0..n`.
pub open spec fn used_upto(c: u32, rounds: nat, n: nat) -> nat
    decreases n,
{
    if n == 0 {
        0
    } else {
        used_upto(c, rounds, (n - 1) as nat) + dg(c, rounds, (n - 1) as nat)
    }
}

/// Two entries have the same counts in rounds `0..n`.
pub open spec fn agree(a: u32, b: u32, rounds: nat, n: nat) -> bool {
    forall|j: nat| j < n ==> #[trigger] dg(a, rounds, j) == dg(b, rounds, j)
}

/// Over rounds `j..n`, the counts of `a` come lexicographically at or
/// before those of `b`.
pub open spec fn dle_from(a: u32, b: u32, rounds: nat, j: nat, n: nat) -> bool
    decreases n - j,
{
    if j >= n {
        true
    } else if dg(a, rounds, j) < dg(b, rounds, j) {
        true
    } else if dg(a, rounds, j) > dg(b, rounds, j) {
        false
    } else {
        dle_from(a, b, rounds, j + 1, n)
    }
}

/// Total of the four suits' counts in round `j`.
pub open spec fn round_total(c: [u32; 4], rounds: nat, j: nat) -> nat {
    dg(c@[0], rounds, j) + dg(c@[1], rounds, j) + dg(c@[2], rounds, j) + dg(c@[3], rounds, j)
}

/// A canonical suit configuration of round `r`: for every round up to
/// `r` the suits' counts add up to the cards dealt in it, no suit
/// receives more than thirteen ranks, nothing is recorded past round
/// `r`, and the suits come in lexicographically non-increasing order of
/// their counts.
pub open spec fn canonical(rounds: nat, cpr: Seq<u8>, r: nat, c: [u32; 4]) -> bool {
    &&& forall|s: int| 0 <= s < 4 ==> #[trigger] c@[s] == pk(c@[s], rounds, r + 1)
    &&& forall|j: nat| j <= r ==> #[trigger] round_total(c, rounds, j) == cpr[j as int]
    &&& forall|s: int| 0 <= s < 4 ==> #[trigger] used_upto(c@[s], rounds, r + 1) <= 13
    &&& forall|s: int| 1 <= s < 4 ==> #[trigger] dle_from(c@[s], c@[s - 1], rounds, 0, r + 1)
}

proof fn lemma_slot_bits(x: u32, v: u32, a: u32, b: u32)
    requires
        v < 16,
        a <= 28,
        b <= 28,
        a % 4 == 0,
        b % 4 == 0,
    ensures
        b >= a + 4 ==> ((x | (v << a)) >> b) & 0xf == (x >> b) & 0xf,
        a >= b + 4 ==> ((x | (v << a)) >> b) & 0xf == (x >> b) & 0xf,
        (x >> a) & 0xf == 0 ==> ((x | (v << a)) >> a) & 0xf == v,
        ((0u32 >> b) & 0xf) == 0,
        (((x >> a) & 0xf) == v) ==> (((x >> a) & 0xf) << a) == (v << a),
{
    assert(b >= a + 4 ==> ((x | (v << a)) >> b) & 0xf == (x >> b) & 0xf) by (bit_vector)
        requires
            v < 16,
            a <= 28,
            b <= 28,
    ;
    assert(a >= b + 4 ==> ((x | (v << a)) >> b) & 0xf == (x >> b) & 0xf) by (bit_vector)
        requires
            v < 16,
            a <= 28,
            b <= 28,
    ;
    assert((x >> a) & 0xf == 0 ==> ((x | (v << a)) >> a) & 0xf == v) by (bit_vector)
        requires
            v < 16,
            a <= 28,
    ;
    assert(((0u32 >> b) & 0xf) == 0) by (bit_vector);
}

/// The rebuilt entry holds the counts of rounds `0..n` and nothing else.
proof fn lemma_pk_digits(c: u32, rounds: nat, n: nat, m: nat)
    requires
        rounds <= 8,
        n <= rounds,
        m < rounds,
    ensures
        dg(pk(c, rounds, n), rounds, m) == if m < n {
            dg(c, rounds, m)
        } else {
            0
        },
    decreases n,
{
    if n == 0 {
        lemma_slot_bits(0, 0, 0, slot(rounds, m));
    } else {
        let k = (n - 1) as nat;
        let p = pk(c, rounds, k);
        let sk = slot(rounds, k);
        let v = (c >> sk) & 0xf;
        assert(v < 16) by (bit_vector)
            requires
                v == (c >> sk) & 0xf,
        ;
        lemma_pk_digits(c, rounds, k, m);
        lemma_pk_digits(c, rounds, k, k);
        lemma_slot_bits(p, v, slot(rounds, k), slot(rounds, m));
    }
}

/// Entries with the same counts in rounds `0..n` rebuild to the same value.
proof fn lemma_pk_congruent(a: u32, b: u32, rounds: nat, n: nat)
    requires
        agree(a, b, rounds, n),
    ensures
        pk(a, rounds, n) == pk(b, rounds, n),
    decreases n,
{
    if n > 0 {
        lemma_pk_congruent(a, b, rounds, (n - 1) as nat);
        assert(dg(a, rounds, (n - 1) as nat) == dg(b, rounds, (n - 1) as nat));
    }
}

/// Writing count `v` into the empty slot of round `n` of an entry that
/// holds only rounds `0..n` sets that count, keeps the others, and
/// leaves an entry holding only rounds `0..=n`.
proof fn lemma_pk_extend(x: u32, v: u32, rounds: nat, n: nat)
    requires
        rounds <= 8,
        n < rounds,
        v < 16,
        x == pk(x, rounds, n),
    ensures
        ({
            let y = x | (v << slot(rounds, n));
            &&& y == pk(y, rounds, n + 1)
            &&& dg(y, rounds, n) == v
            &&& forall|m: nat| m < rounds && m != n ==> #[trigger] dg(y, rounds, m) == dg(x, rounds, m)
        }),
{
    let y = x | (v << slot(rounds, n));
    lemma_pk_digits(x, rounds, n, n);
    lemma_slot_bits(x, v, slot(rounds, n), slot(rounds, n));
    assert forall|m: nat| m < rounds && m != n implies #[trigger] dg(y, rounds, m) == dg(x, rounds, m) by {
        lemma_slot_bits(x, v, slot(rounds, n), slot(rounds, m));
    }
    assert(agree(y, x, rounds, n));
    lemma_pk_congruent(y, x, rounds, n);
    lemma_slot_bits(y, v, slot(rounds, n), slot(rounds, n));
}

/// Rounds whose counts are fixed for suit `s` while the enumeration sits
/// at `suit` of `round`: the current round too for the suits before
/// `suit`.
pub open spec fn fixed(round: nat, suit: nat, s: int) -> nat {
    if s < suit {
        round + 1
    } else {
        round
    }
}

/// Total of the counts of round `round` of the suits before `suit`.
pub open spec fn partial_total(c: [u32; 4], rounds: nat, round: nat, suit: nat) -> nat {
    (if suit > 0 { dg(c@[0], rounds, round) } else { 0 }) + (if suit > 1 {
        dg(c@[1], rounds, round)
    } else {
        0
    }) + (if suit > 2 { dg(c@[2], rounds, round) } else { 0 }) + (if suit > 3 {
        dg(c@[3], rounds, round)
    } else {
        0
    })
}

/// `c` has the counts of `config` that the enumeration has fixed.
pub open spec fn extends(c: [u32; 4], config: [u32; 4], rounds: nat, round: nat, suit: nat) -> bool {
    forall|s: int| 0 <= s < 4 ==> #[trigger] agree(c@[s], config@[s], rounds, fixed(round, suit, s))
}

/// The canonical configurations of round `r` that the enumeration will
/// record from the state (`round`, `suit`, `config`).
pub open spec fn pending(
    rounds: nat,
    cpr: Seq<u8>,
    r: nat,
    round: nat,
    suit: nat,
    config: [u32; 4],
) -> Set<[u32; 4]> {
    Set::new(
        |c: [u32; 4]| round <= r && canonical(rounds, cpr, r, c) && extends(c, config, rounds, round, suit),
    )
}

/// Whether suit `suit` has matched the suit before it in every earlier
/// round.
pub open spec fn was_equal(equal: u32, suit: nat) -> bool {
    (equal >> (suit as u32)) & 1 == 1
}

/// What the enumeration state holds: the fixed counts and nothing else
/// in `config`, earlier rounds complete, `remaining` cards of the round
/// still to place, `used` the ranks each suit has received, bit `s` of
/// `equal` set when suit `s` has matched suit `s - 1` so far, and suits
/// in non-increasing order so far.
pub open spec fn enum_inv(
    rounds: nat,
    cpr: Seq<u8>,
    round: nat,
    remaining: nat,
    suit: nat,
    equal: u32,
    used: [u32; 4],
    config: [u32; 4],
) -> bool {
    &&& 1 <= rounds <= 8
    &&& round < rounds
    &&& suit <= 4
    &&& cpr.len() == 8
    &&& forall|s: int| 0 <= s < 4 ==> #[trigger] config@[s] == pk(config@[s], rounds, fixed(round, suit, s))
    &&& forall|j: nat| j < round ==> #[trigger] round_total(config, rounds, j) == cpr[j as int]
    &&& partial_total(config, rounds, round, suit) + remaining == cpr[round as int]
    &&& suit == 4 ==> remaining == 0
    &&& forall|s: int|
        0 <= s < 4 ==> #[trigger] used@[s] == used_upto(config@[s], rounds, fixed(round, suit, s))
            && used@[s] <= 13
    &&& forall|s: int|
        1 <= s < 4 ==> (was_equal(equal, s as nat) == #[trigger] agree(
            config@[s],
            config@[s - 1],
            rounds,
            fixed(round, suit, s),
        ))
    &&& forall|s: int|
        1 <= s < 4 ==> #[trigger] dle_from(config@[s], config@[s - 1], rounds, 0, fixed(round, suit, s))
    &&& equal & 1 == 0
    &&& equal < 16
}

/// Counts up to `n` grow with `n`.
proof fn lemma_used_upto_mono(a: u32, rounds: nat, n: nat, m: nat)
    requires
        n <= m,
    ensures
        used_upto(a, rounds, n) <= used_upto(a, rounds, m),
    decreases m,
{
    if n < m {
        lemma_used_upto_mono(a, rounds, n, (m - 1) as nat);
    }
}

/// Entries that agree up to `n` use the same ranks up to `n`.
proof fn lemma_used_upto_congruent(a: u32, b: u32, rounds: nat, n: nat)
    requires
        agree(a, b, rounds, n),
    ensures
        used_upto(a, rounds, n) == used_upto(b, rounds, n),
    decreases n,
{
    if n > 0 {
        assert(agree(a, b, rounds, (n - 1) as nat));
        lemma_used_upto_congruent(a, b, rounds, (n - 1) as nat);
        assert(dg(a, rounds, (n - 1) as nat) == dg(b, rounds, (n - 1) as nat));
    }
}

/// Lexicographic order of counts, from round `j` on, depends only on the
/// counts compared.
proof fn lemma_dle_congruent(a: u32, a2: u32, b: u32, b2: u32, rounds: nat, j: nat, n: nat)
    requires
        agree(a, a2, rounds, n),
        agree(b, b2, rounds, n),
    ensures
        dle_from(a, b, rounds, j, n) == dle_from(a2, b2, rounds, j, n),
    decreases n - j,
{
    if j < n {
        assert(dg(a, rounds, j) == dg(a2, rounds, j));
        assert(dg(b, rounds, j) == dg(b2, rounds, j));
        lemma_dle_congruent(a, a2, b, b2, rounds, j + 1, n);
    }
}

/// When `a` comes at or before `b` over rounds `j..n` and they agree on
/// rounds `j..k`, with `k < n`, then `a`'s count in round `k` is at most
/// `b`'s.
proof fn lemma_dle_prefix(a: u32, b: u32, rounds: nat, j: nat, k: nat, n: nat)
    requires
        j <= k < n,
        dle_from(a, b, rounds, j, n),
        forall|i: nat| j <= i < k ==> #[trigger] dg(a, rounds, i) == dg(b, rounds, i),
    ensures
        dg(a, rounds, k) <= dg(b, rounds, k),
    decreases k - j,
{
    if j < k {
        assert(dg(a, rounds, j) == dg(b, rounds, j));
        lemma_dle_prefix(a, b, rounds, j + 1, k, n);
    }
}

/// Extending the compared range by one round keeps the order when the
/// counts were equal so far and the new count is at most the other's,
/// and whenever they already differed.
proof fn lemma_dle_extend(a: u32, b: u32, rounds: nat, j: nat, k: nat)
    requires
        j <= k,
        dle_from(a, b, rounds, j, k),
        (forall|i: nat| j <= i < k ==> #[trigger] dg(a, rounds, i) == dg(b, rounds, i)) ==> dg(
            a,
            rounds,
            k,
        ) <= dg(b, rounds, k),
    ensures
        dle_from(a, b, rounds, j, k + 1),
    decreases k - j,
{
    if j == k {
        assert(dle_from(a, b, rounds, k + 1, k + 1));
    } else if dg(a, rounds, j) == dg(b, rounds, j) {
        if forall|i: nat| j + 1 <= i < k ==> #[trigger] dg(a, rounds, i) == dg(b, rounds, i) {
            assert forall|i: nat| j <= i < k implies #[trigger] dg(a, rounds, i) == dg(b, rounds, i) by {
                if i > j {
                    assert(dg(a, rounds, i) == dg(b, rounds, i));
                }
            }
        }
        lemma_dle_extend(a, b, rounds, j + 1, k);
    }
}

/// Choosing `i` ranks for `suit` in `round` moves the enumeration to the
/// next suit with the invariant kept, and the configurations recorded
/// from there are those recorded from here whose count is `i`.
proof fn lemma_enum_child(
    rounds: nat,
    cpr: Seq<u8>,
    r: nat,
    round: nat,
    remaining: nat,
    suit: nat,
    equal: u32,
    used: [u32; 4],
    config: [u32; 4],
    i: u32,
    new_equal: u32,
    used2: [u32; 4],
    config2: [u32; 4],
)
    requires
        enum_inv(rounds, cpr, round, remaining, suit, equal, used, config),
        suit < 4,
        suit == 3 ==> i == remaining,
        i <= remaining,
        used@[suit as int] + i <= 13,
        was_equal(equal, suit) ==> i <= dg(config@[suit - 1], rounds, round),
        forall|s: nat|
            1 <= s < 4 ==> (#[trigger] was_equal(new_equal, s) == if s == suit {
                was_equal(equal, suit) && i == dg(config@[suit - 1], rounds, round)
            } else {
                was_equal(equal, s)
            }),
        new_equal & 1 == 0,
        new_equal < 16,
        used2@ == used@.update(suit as int, (used@[suit as int] + i) as u32),
        config2@ == config@.update(suit as int, config@[suit as int] | (i << slot(rounds, round))),
    ensures
        enum_inv(rounds, cpr, round, (remaining - i) as nat, suit + 1, new_equal, used2, config2),
        forall|c: [u32; 4]|
            #[trigger] pending(rounds, cpr, r, round, suit + 1, config2).contains(c) == (pending(
                rounds,
                cpr,
                r,
                round,
                suit,
                config,
            ).contains(c) && dg(c@[suit as int], rounds, round) == i),
{
    let x = config@[suit as int];
    let y = config2@[suit as int];
    lemma_pk_extend(x, i, rounds, round);
    assert(y == x | (i << slot(rounds, round)));
    assert forall|j: nat| j < round implies #[trigger] round_total(config2, rounds, j) == cpr[j as int] by {
        assert(round_total(config, rounds, j) == cpr[j as int]);
    }
    assert(partial_total(config2, rounds, round, suit + 1) == partial_total(config, rounds, round, suit) + i);
    assert forall|s: int| 0 <= s < 4 implies #[trigger] config2@[s] == pk(config2@[s], rounds, fixed(round, suit + 1, s)) by {
        if s != suit {
            assert(config2@[s] == config@[s]);
        }
    }
    assert(agree(y, x, rounds, round));
    lemma_used_upto_congruent(y, x, rounds, round);
    assert forall|s: int|
        0 <= s < 4 implies #[trigger] used2@[s] == used_upto(config2@[s], rounds, fixed(round, suit + 1, s))
            && used2@[s] <= 13 by {
        if s != suit {
            assert(config2@[s] == config@[s]);
        } else {
            assert(used_upto(y, rounds, round + 1) == used_upto(y, rounds, round) + dg(y, rounds, round));
        }
    }
    assert forall|s: int|
        1 <= s < 4 implies (was_equal(new_equal, s as nat) == #[trigger] agree(
            config2@[s],
            config2@[s - 1],
            rounds,
            fixed(round, suit + 1, s),
        )) by {
        if s == suit {
            let p = config@[s - 1];
            assert(config2@[s - 1] == p);
            assert(was_equal(equal, suit) == agree(x, p, rounds, round));
            if agree(y, p, rounds, round + 1) {
                assert forall|j: nat| j < round implies #[trigger] dg(x, rounds, j) == dg(p, rounds, j) by {
                    assert(dg(y, rounds, j) == dg(p, rounds, j));
                }
                assert(dg(y, rounds, round) == dg(p, rounds, round));
            }
            if was_equal(equal, suit) && i == dg(p, rounds, round) {
                assert forall|j: nat| j < round + 1 implies #[trigger] dg(y, rounds, j) == dg(p, rounds, j) by {
                    if j < round {
                        assert(dg(x, rounds, j) == dg(p, rounds, j));
                    }
                }
            }
        } else if s == suit + 1 {
            assert(config2@[s] == config@[s]);
            assert(config2@[s - 1] == y);
            assert(was_equal(equal, s as nat) == agree(config@[s], x, rounds, round));
            assert(agree(config@[s], x, rounds, round) == agree(config@[s], y, rounds, round));
        } else {
            assert(config2@[s] == config@[s]);
            assert(config2@[s - 1] == config@[s - 1]);
            assert(was_equal(equal, s as nat) == agree(config@[s], config@[s - 1], rounds, fixed(round, suit, s)));
        }
    }
    assert forall|s: int|
        1 <= s < 4 implies #[trigger] dle_from(config2@[s], config2@[s - 1], rounds, 0, fixed(round, suit + 1, s)) by {
        if s == suit {
            let p = config@[s - 1];
            assert(config2@[s - 1] == p);
            assert(dle_from(x, p, rounds, 0, round));
            lemma_dle_congruent(x, y, p, p, rounds, 0, round);
            if forall|j: nat| 0 <= j < round ==> #[trigger] dg(y, rounds, j) == dg(p, rounds, j) {
                assert forall|j: nat| j < round implies #[trigger] dg(x, rounds, j) == dg(p, rounds, j) by {
                    assert(dg(y, rounds, j) == dg(p, rounds, j));
                }
                assert(agree(x, p, rounds, round));
            }
            lemma_dle_extend(y, p, rounds, 0, round);
        } else if s == suit + 1 {
            assert(config2@[s] == config@[s]);
            assert(config2@[s - 1] == y);
            assert(dle_from(config@[s], x, rounds, 0, round));
            assert(agree(config@[s], config@[s], rounds, round));
            lemma_dle_congruent(config@[s], config@[s], x, y, rounds, 0, round);
        } else {
            assert(config2@[s] == config@[s]);
            assert(config2@[s - 1] == config@[s - 1]);
        }
    }
    assert forall|c: [u32; 4]|
        #[trigger] pending(rounds, cpr, r, round, suit + 1, config2).contains(c) == (pending(
            rounds,
            cpr,
            r,
            round,
            suit,
            config,
        ).contains(c) && dg(c@[suit as int], rounds, round) == i) by {
        if extends(c, config2, rounds, round, suit + 1) {
            assert forall|s: int| 0 <= s < 4 implies #[trigger] agree(c@[s], config@[s], rounds, fixed(round, suit, s)) by {
                assert(agree(c@[s], config2@[s], rounds, fixed(round, suit + 1, s)));
                if s == suit {
                    assert forall|j: nat| j < round implies #[trigger] dg(c@[s], rounds, j) == dg(x, rounds, j) by {
                        assert(dg(c@[s], rounds, j) == dg(y, rounds, j));
                    }
                } else {
                    assert(config2@[s] == config@[s]);
                }
            }
            assert(agree(c@[suit as int], config2@[suit as int], rounds, fixed(round, suit + 1, suit as int)));
            assert(dg(c@[suit as int], rounds, round) == dg(y, rounds, round));
        }
        if extends(c, config, rounds, round, suit) && dg(c@[suit as int], rounds, round) == i {
            assert forall|s: int| 0 <= s < 4 implies #[trigger] agree(c@[s], config2@[s], rounds, fixed(round, suit + 1, s)) by {
                assert(agree(c@[s], config@[s], rounds, fixed(round, suit, s)));
                if s == suit {
                    assert forall|j: nat| j < round + 1 implies #[trigger] dg(c@[s], rounds, j) == dg(y, rounds, j) by {
                        if j < round {
                            assert(dg(c@[s], rounds, j) == dg(x, rounds, j));
                        }
                    }
                } else {
                    assert(config2@[s] == config@[s]);
                }
            }
        }
    }
}

/// Every configuration recorded from a state has, for the current suit,
/// a count the enumeration tries: within the cards left in the round and
/// the ranks left to the suit, all the cards left for the last suit, and
/// at most the previous suit's count while the two have matched.
proof fn lemma_enum_complete(
    rounds: nat,
    cpr: Seq<u8>,
    r: nat,
    round: nat,
    remaining: nat,
    suit: nat,
    equal: u32,
    used: [u32; 4],
    config: [u32; 4],
    c: [u32; 4],
)
    requires
        enum_inv(rounds, cpr, round, remaining, suit, equal, used, config),
        suit < 4,
        pending(rounds, cpr, r, round, suit, config).contains(c),
    ensures
        ({
            let i = dg(c@[suit as int], rounds, round);
            &&& suit == 3 ==> i == remaining
            &&& i <= remaining
            &&& used@[suit as int] + i <= 13
            &&& was_equal(equal, suit) ==> i <= dg(config@[suit - 1], rounds, round)
        }),
{
    let i = dg(c@[suit as int], rounds, round);
    assert(canonical(rounds, cpr, r, c));
    assert(extends(c, config, rounds, round, suit));
    assert(round <= r);
    // counts of the suits already placed agree with `config`
    assert forall|s: int| 0 <= s < suit implies #[trigger] dg(c@[s], rounds, round) == dg(config@[s], rounds, round) by {
        assert(agree(c@[s], config@[s], rounds, fixed(round, suit, s)));
    }
    assert(round_total(c, rounds, round) == cpr[round as int]);
    // ranks used so far
    let cs = c@[suit as int];
    assert(agree(cs, config@[suit as int], rounds, round));
    lemma_used_upto_congruent(cs, config@[suit as int], rounds, round);
    lemma_used_upto_mono(cs, rounds, round + 1, r + 1);
    assert(used_upto(cs, rounds, r + 1) <= 13);
    assert(used_upto(cs, rounds, round + 1) == used_upto(cs, rounds, round) + i);
    assert(!was_equal(equal, 0)) by {
        assert(equal & 1 == 0 ==> (equal >> 0u32) & 1 != 1) by (bit_vector);
    }
    if was_equal(equal, suit) {
        assert(suit >= 1);
        let p = c@[suit - 1];
        assert(agree(config@[suit as int], config@[suit - 1], rounds, fixed(round, suit, suit as int)));
        assert(agree(config@[suit as int], config@[suit - 1], rounds, round));
        assert(agree(p, config@[suit - 1], rounds, fixed(round, suit, suit - 1)));
        assert forall|j: nat| 0 <= j < round implies #[trigger] dg(cs, rounds, j) == dg(p, rounds, j) by {
            assert(dg(cs, rounds, j) == dg(config@[suit as int], rounds, j));
            assert(dg(config@[suit as int], rounds, j) == dg(config@[suit - 1], rounds, j));
            assert(dg(p, rounds, j) == dg(config@[suit - 1], rounds, j));
        }
        assert(dle_from(cs, p, rounds, 0, r + 1));
        lemma_dle_prefix(cs, p, rounds, 0, round, r + 1);
        assert(dg(p, rounds, round) == dg(config@[suit - 1], rounds, round));
    }
}

/// At the end of a round the state records its configuration when the
/// round is the target, then moves on to the next round with the
/// invariant kept and the same configurations still to record.
proof fn lemma_enum_round_end(
    rounds: nat,
    cpr: Seq<u8>,
    r: nat,
    round: nat,
    equal: u32,
    used: [u32; 4],
    config: [u32; 4],
)
    requires
        enum_inv(rounds, cpr, round, 0, 4, equal, used, config),
        r < rounds,
    ensures
        round + 1 < rounds ==> enum_inv(rounds, cpr, round + 1, cpr[(round + 1) as int] as nat, 0, equal, used, config),
        round == r ==> canonical(rounds, cpr, r, config),
        forall|c: [u32; 4]|
            #[trigger] pending(rounds, cpr, r, round, 4, config).contains(c) == ((round == r && c == config)
                || (round + 1 < rounds && pending(rounds, cpr, r, round + 1, 0, config).contains(c))),
{
    assert(round_total(config, rounds, round) == partial_total(config, rounds, round, 4));
    assert forall|j: nat| j < round + 1 implies #[trigger] round_total(config, rounds, j) == cpr[j as int] by {}
    if round + 1 < rounds {
        assert forall|s: int| 0 <= s < 4 implies #[trigger] config@[s] == pk(config@[s], rounds, fixed(round + 1, 0, s)) by {
            assert(config@[s] == pk(config@[s], rounds, fixed(round, 4, s)));
        }
        assert forall|s: int|
            0 <= s < 4 implies #[trigger] used@[s] == used_upto(config@[s], rounds, fixed(round + 1, 0, s))
                && used@[s] <= 13 by {
            assert(used@[s] == used_upto(config@[s], rounds, fixed(round, 4, s)));
        }
        assert forall|s: int|
            1 <= s < 4 implies (was_equal(equal, s as nat) == #[trigger] agree(
                config@[s],
                config@[s - 1],
                rounds,
                fixed(round + 1, 0, s),
            )) by {
            assert(was_equal(equal, s as nat) == agree(config@[s], config@[s - 1], rounds, fixed(round, 4, s)));
        }
        assert forall|s: int|
            1 <= s < 4 implies #[trigger] dle_from(config@[s], config@[s - 1], rounds, 0, fixed(round + 1, 0, s)) by {
            assert(dle_from(config@[s], config@[s - 1], rounds, 0, fixed(round, 4, s)));
        }
        assert(partial_total(config, rounds, round + 1, 0) == 0);
    }
    if round == r {
        assert forall|s: int| 0 <= s < 4 implies #[trigger] config@[s] == pk(config@[s], rounds, r + 1) by {
            assert(config@[s] == pk(config@[s], rounds, fixed(round, 4, s)));
        }
        assert forall|s: int| 0 <= s < 4 implies #[trigger] used_upto(config@[s], rounds, r + 1) <= 13 by {
            assert(used@[s] == used_upto(config@[s], rounds, fixed(round, 4, s)));
        }
        assert forall|s: int| 1 <= s < 4 implies #[trigger] dle_from(config@[s], config@[s - 1], rounds, 0, r + 1) by {
            assert(dle_from(config@[s], config@[s - 1], rounds, 0, fixed(round, 4, s)));
        }
    }
    assert forall|c: [u32; 4]|
        #[trigger] pending(rounds, cpr, r, round, 4, config).contains(c) == ((round == r && c == config)
            || (round + 1 < rounds && pending(rounds, cpr, r, round + 1, 0, config).contains(c))) by {
        let same = forall|s: int| 0 <= s < 4 ==> #[trigger] agree(c@[s], config@[s], rounds, round + 1);
        assert(extends(c, config, rounds, round, 4) == same) by {
            assert forall|s: int| 0 <= s < 4 implies #[trigger] fixed(round, 4, s) == round + 1 by {}
        }
        if round + 1 < rounds {
            assert(extends(c, config, rounds, round + 1, 0) == same) by {
                assert forall|s: int| 0 <= s < 4 implies #[trigger] fixed(round + 1, 0, s) == round + 1 by {}
            }
        }
        if round == r && pending(rounds, cpr, r, round, 4, config).contains(c) {
            assert forall|s: int| 0 <= s < 4 implies c@[s] == config@[s] by {
                assert(agree(c@[s], config@[s], rounds, round + 1));
                lemma_pk_congruent(c@[s], config@[s], rounds, r + 1);
                assert(c@[s] == pk(c@[s], rounds, r + 1));
                assert(config@[s] == pk(config@[s], rounds, fixed(round, 4, s)));
            }
            assert(c =~= config);
        }
        if round == r && c == config {
            assert forall|s: int| 0 <= s < 4 implies #[trigger] agree(c@[s], config@[s], rounds, round + 1) by {}
        }
    }
}

/// The all-zero configuration.
pub open spec fn zero_config() -> [u32; 4] {
    [0u32, 0u32, 0u32, 0u32]
}

/// The enumeration starts in a state of the invariant from which every
/// canonical configuration of round `r` will be recorded.
proof fn lemma_enum_start(rounds: nat, cpr: Seq<u8>, r: nat)
    requires
        1 <= rounds <= 8,
        r < rounds,
        cpr.len() == 8,
    ensures
        enum_inv(rounds, cpr, 0, cpr[0] as nat, 0, 0b1110, zero_config(), zero_config()),
        forall|c: [u32; 4]|
            #[trigger] pending(rounds, cpr, r, 0, 0, zero_config()).contains(c) == canonical(rounds, cpr, r, c),
{
    let z = zero_config();
    assert forall|s: int| 0 <= s < 4 implies #[trigger] z@[s] == pk(z@[s], rounds, fixed(0, 0, s)) by {}
    assert forall|s: nat| 1 <= s < 4 implies #[trigger] was_equal(0b1110u32, s) by {
        let su = s as u32;
        assert((0b1110u32 >> su) & 1 == 1) by (bit_vector)
            requires
                1 <= su < 4,
        ;
    }
    assert forall|s: int|
        1 <= s < 4 implies (was_equal(0b1110u32, s as nat) == #[trigger] agree(z@[s], z@[s - 1], rounds, fixed(0, 0, s))) by {
        assert(was_equal(0b1110u32, s as nat));
    }
    assert(0b1110u32 & 1 == 0) by (bit_vector);
    assert forall|c: [u32; 4]| #[trigger] pending(rounds, cpr, r, 0, 0, z).contains(c) == canonical(rounds, cpr, r, c) by {
        assert forall|s: int| 0 <= s < 4 implies #[trigger] agree(c@[s], z@[s], rounds, fixed(0, 0, s)) by {}
    }
}

/// Ways, modulo `2^64`, to choose a suit's ranks round by round over
/// rounds `0..n`: the product of `binom(ranks left, count)`; zero once a
/// round asks for more ranks than are left.
pub open spec fn rank_choices(c: u32, rounds: nat, n: nat) -> nat
    decreases n,
{
    if n == 0 {
        1
    } else {
        let prev = rank_choices(c, rounds, (n - 1) as nat);
        let used = used_upto(c, rounds, (n - 1) as nat);
        let d = dg(c, rounds, (n - 1) as nat);
        if used + d <= 13 {
            (prev * binom((13 - used) as nat, d)) % 0x1_0000_0000_0000_0000
        } else {
            0
        }
    }
}

/// Ways, modulo `2^64`, to give `g` interchangeable suits one of `size`
/// rank choices each, as the group table holds it: `binom(size + g - 1,
/// g)` (the sum taken modulo `2^64`), zero past the table.
pub open spec fn group_factor(size: nat, g: nat) -> nat {
    let n = ((size + g - 1) % 0x1_0000_0000_0000_0000) as nat;
    if n < MAX_GROUP_INDEX && g < 5 {
        binom(n, g) % 0x1_0000_0000_0000_0000
    } else {
        0
    }
}

/// End of the run of suits equal to suit `i`, searching from `j`.
pub open spec fn run_from(c: [u32; 4], i: int, j: int) -> int
    decreases 4 - j,
{
    if j >= 4 || c@[j] != c@[i] {
        j
    } else {
        run_from(c, i, j + 1)
    }
}

/// `acc` times, modulo `2^64`, the group factors of the runs of equal
/// suits from suit `i` on.
pub open spec fn class_acc(c: [u32; 4], rounds: nat, r: nat, i: int, acc: nat) -> nat
    decreases 4 - i,
{
    if i >= 4 || i < 0 {
        acc
    } else {
        let j = run_from(c, i, i + 1);
        let f = group_factor(rank_choices(c@[i], rounds, r + 1), (j - i) as nat);
        if j <= i || j > 4 {
            acc
        } else {
            class_acc(c, rounds, r, j, (acc * f) % 0x1_0000_0000_0000_0000)
        }
    }
}

/// Number of hand classes, modulo `2^64`, of configuration `c` of round
/// `r`: over each run of equal suits, the ways to give the run's suits
/// their rank choices up to the order of the suits.
pub open spec fn class_count(c: [u32; 4], rounds: nat, r: nat) -> nat {
    class_acc(c, rounds, r, 0, 1)
}

/// Sum, modulo `2^64`, of the class counts of configurations `cs`.
pub open spec fn sum_classes(cs: Seq<[u32; 4]>, rounds: nat, r: nat) -> nat
    decreases cs.len(),
{
    if cs.len() == 0 {
        0
    } else {
        (sum_classes(cs.drop_last(), rounds, r) + class_count(cs.last(), rounds, r)) % 0x1_0000_0000_0000_0000
    }
}

proof fn lemma_class_acc_bound(c: [u32; 4], rounds: nat, r: nat, i: int, acc: nat)
    requires
        acc < 0x1_0000_0000_0000_0000,
    ensures
        class_acc(c, rounds, r, i, acc) < 0x1_0000_0000_0000_0000,
    decreases 4 - i,
{
    if 0 <= i < 4 {
        let j = run_from(c, i, i + 1);
        let f = group_factor(rank_choices(c@[i], rounds, r + 1), (j - i) as nat);
        if !(j <= i || j > 4) {
            lemma_class_acc_bound(c, rounds, r, j, (acc * f) % 0x1_0000_0000_0000_0000);
        }
    }
}

/// Ways, modulo `2^64`, to choose the ranks of a suit with entry `c`
/// round by round up to `round` (see `rank_choices`).
fn suit_choices(t: &StaticTables, c: u32, rounds: u32, round: u32) -> (size: u64)
    requires
        t.wf(),
        1 <= rounds <= 8,
        round < rounds,
    ensures
        size == rank_choices(c, rounds as nat, round as nat + 1),
{
    let mut size: u64 = 1;
    let mut remaining: u32 = 13;
    let mut j: u32 = 0;
    while j <= round
        invariant
            j <= round + 1,
            round < rounds <= 8,
            remaining <= 13,
            t.wf(),
            size == rank_choices(c, rounds as nat, j as nat),
            size != 0 ==> remaining == 13 - used_upto(c, rounds as nat, j as nat),
        decreases round + 1 - j,
    {
        let shift = (rounds - j - 1) * ROUND_SHIFT;
        let ranks = (c >> shift) & ROUND_MASK;
        assert(shift == slot(rounds as nat, j as nat));
        assert(ranks == dg(c, rounds as nat, j as nat));
        if ranks <= remaining {
            let f = ncr_ranks(t, remaining, ranks);
            let ghost old_size = size;
            size = size.wrapping_mul(f as u64);
            remaining = remaining - ranks;
            proof {
                let used = used_upto(c, rounds as nat, j as nat);
                let d = dg(c, rounds as nat, j as nat);
                let prev = rank_choices(c, rounds as nat, j as nat);
                assert(prev == old_size);
                if old_size != 0 {
                    assert(used + d <= 13);
                    assert(f == binom((13 - used) as nat, d));
                    assert(size == (old_size as nat * f as nat) % 0x1_0000_0000_0000_0000);
                    assert(rank_choices(c, rounds as nat, (j + 1) as nat) == (prev * binom((13 - used) as nat, d))
                        % 0x1_0000_0000_0000_0000);
                    assert(used_upto(c, rounds as nat, j as nat + 1) == used + ranks);
                } else {
                    assert(size == (0 * f as nat) % 0x1_0000_0000_0000_0000);
                    assert((0 * binom((13 - used) as nat, d)) % 0x1_0000_0000_0000_0000 == 0);
                    assert(rank_choices(c, rounds as nat, (j + 1) as nat) == 0);
                }
                assert(size == rank_choices(c, rounds as nat, (j + 1) as nat));
            }
        } else {
            proof {
                let used = used_upto(c, rounds as nat, j as nat);
                let d = dg(c, rounds as nat, j as nat);
                if size != 0 {
                    assert(used + d > 13);
                } else {
                    assert((0 * binom((13 - used) as nat, d)) % 0x1_0000_0000_0000_0000 == 0);
                }
                assert(rank_choices(c, rounds as nat, (j + 1) as nat) == 0);
            }
            size = 0;
        }
        j = j + 1;
    }
    size
}

/// End of the run of suits whose entries equal suit `i`'s.
fn run_end(configuration: &[u32; 4], i: usize) -> (j: usize)
    requires
        i < 4,
    ensures
        j == run_from(*configuration, i as int, i as int + 1),
        i < j <= 4,
{
    let mut j: usize = i + 1;
    while j < 4 && configuration[j] == configuration[i]
        invariant
            i < j <= 4,
            run_from(*configuration, i as int, i as int + 1) == run_from(*configuration, i as int, j as int),
        decreases 4 - j,
    {
        j = j + 1;
    }
    j
}

/// One step of `class_acc`: the run of equal suits starting at `i` ends
/// at `j` and contributes the factor `g`.
proof fn lemma_class_step(c: [u32; 4], rounds: nat, r: nat, i: int, j: int, acc: nat, g: nat)
    requires
        0 <= i < j <= 4,
        j == run_from(c, i, i + 1),
        g == group_factor(rank_choices(c@[i], rounds, r + 1), (j - i) as nat),
    ensures
        class_acc(c, rounds, r, i, acc) == class_acc(c, rounds, r, j, (acc * g) % 0x1_0000_0000_0000_0000),
{
}

/// Marks suits `i + 1 .. j` in `equal` as equal to the suit before them.
fn mark_equal(equal: u32, i: usize, j: usize) -> (r: u32)
    requires
        equal < 16,
        i < j <= 4,
    ensures
        r < 16,
        forall|q: u32| q < 4 ==> #[trigger] bit(r, q) == (bit(equal, q) || (i < q < j)),
{
    let mut e = equal;
    let mut k: usize = i + 1;
    while k < j
        invariant
            i < k <= j <= 4,
            e < 16,
            equal < 16,
            forall|q: u32| q < 4 ==> #[trigger] bit(e, q) == (bit(equal, q) || (i < q < k)),
        decreases j - k,
    {
        assert(e | (1u32 << k as u32) < 16) by (bit_vector)
            requires
                e < 16,
                k < 4,
        ;
        let ghost e0 = e;
        e = e | (1u32 << k as u32);
        proof {
            assert forall|q: u32| q < 4 implies #[trigger] bit(e, q) == (bit(equal, q) || (i < q < k + 1)) by {
                lemma_bit_update(e0, k as u32, q);
                assert(bit(e0, q) == (bit(equal, q) || (i < q < k)));
            }
        }
        k = k + 1;
    }
    e
}

/// The number of ways to give a run of `g` equal suits their rank
/// choices, `size` choices each (see `group_factor`).
fn group_size(t: &StaticTables, size: u64, g: u32) -> (r: u64)
    requires
        t.wf(),
        1 <= g <= 4,
    ensures
        r == group_factor(size as nat, g as nat),
{
    ncr_groups(t, size.wrapping_add((g - 1) as u64), g)
}

/// For configuration `configuration` of `round`: each suit's rank-choice
/// count, the number of hand classes (see `class_count`), and a mask
/// with bit `s` set when suit `s` equals suit `s - 1`.
fn class_tables(t: &StaticTables, configuration: &[u32; 4], rounds: u32, round: u32) -> (res: (
    [u32; 4],
    u64,
    u32,
))
    requires
        t.wf(),
        1 <= rounds <= 8,
        round < rounds,
    ensures
        res.1 == class_count(*configuration, rounds as nat, round as nat),
        res.2 < 16,
{
    let mut sizes: [u32; 4] = [0; 4];
    let mut offset: u64 = 1;
    let mut equal: u32 = 0;
    let mut i: usize = 0;
    while i < 4
        invariant
            i <= 4,
            1 <= rounds <= 8,
            round < rounds,
            t.wf(),
            equal < 16,
            class_acc(*configuration, rounds as nat, round as nat, i as int, offset as nat) == class_count(
                *configuration,
                rounds as nat,
                round as nat,
            ),
        decreases 4 - i,
    {
        let size = suit_choices(t, configuration[i], rounds, round);
        let j = run_end(configuration, i);
        let mut k: usize = i;
        while k < j
            invariant
                i <= k <= j <= 4,
            decreases j - k,
        {
            sizes[k] = #[verifier::truncate] (size as u32);
            k = k + 1;
        }
        let g = group_size(t, size, (j - i) as u32);
        let ghost acc0 = offset;
        offset = offset.wrapping_mul(g);
        proof {
            lemma_class_step(
                *configuration,
                rounds as nat,
                round as nat,
                i as int,
                j as int,
                acc0 as nat,
                g as nat,
            );
        }
        equal = mark_equal(equal, i, j);
        i = j;
    }
    (sizes, offset, equal)
}

/// Records `configuration` of `round` in `rt`, keeping the list sorted:
/// its per-suit rank-choice counts, the number of hands it stands for,
/// and which suits share a configuration with the suit before them.
fn tabulate_configuration(
    t: &StaticTables,
    rt: &mut RoundTables,
    rounds: u32,
    round: u32,
    configuration: &[u32; 4],
)
    requires
        t.wf(),
        old(rt).wf(),
        1 <= rounds <= 8,
        round < rounds,
    ensures
        final(rt).wf(),
        exists|d: int|
            0 <= d <= old(rt).configuration@.len() && final(rt).configuration@ == old(
                rt,
            ).configuration@.insert(d, *configuration) && final(rt).offset@ == old(rt).offset@.insert(
                d,
                class_count(*configuration, rounds as nat, round as nat) as u64,
            ),
{
    let n = rt.configuration.len();
    let mut id_cursor: usize = n;
    let mut placed = false;
    while id_cursor > 0 && !placed
        invariant
            id_cursor <= n,
            n == rt.configuration.len(),
            rt.wf(),
            forall|k: int| id_cursor <= k < n ==> lex_le(*configuration, #[trigger] rt.configuration@[k]),
            placed ==> id_cursor > 0 && !lex_le(*configuration, rt.configuration@[id_cursor - 1]),
        decreases id_cursor + (if placed { 0int } else { 1int }),
    {
        let prev = id_cursor - 1;
        if config_greater(configuration, &rt.configuration[prev]) {
            placed = true;
        } else {
            id_cursor = id_cursor - 1;
        }
    }
    let dest = id_cursor;

    let (sizes, offset, equal) = class_tables(t, configuration, rounds, round);
    assert(equal >> 1 < 8) by (bit_vector)
        requires
            equal < 16,
    ;
    proof {
        let old_c = rt.configuration@;
        assert forall|a: int, b: int|
            0 <= a < b < old_c.len() + 1 implies lex_le(
            #[trigger] old_c.insert(dest as int, *configuration)[a],
            #[trigger] old_c.insert(dest as int, *configuration)[b],
        ) by {
            let c2 = old_c.insert(dest as int, *configuration);
            if dest > 0 {
                lemma_lex_trans(old_c[dest - 1], *configuration, *configuration);
                assert(lex_le(old_c[dest - 1], *configuration));
            }
            if a < dest && b == dest {
                lemma_lex_trans(old_c[a], old_c[dest - 1], *configuration);
                if a < dest - 1 {
                    assert(lex_le(old_c[a], old_c[dest - 1]));
                }
            } else if a < dest && b > dest {
                lemma_lex_trans(old_c[a], *configuration, old_c[b - 1]);
                lemma_lex_trans(old_c[a], old_c[dest - 1], *configuration);
                if a < dest - 1 {
                    assert(lex_le(old_c[a], old_c[dest - 1]));
                }
            } else if a == dest {
                assert(lex_le(*configuration, old_c[b - 1]));
            } else if a > dest {
                assert(lex_le(old_c[a - 1], old_c[b - 1]));
            }
        }
        assert(old_c.insert(dest as int, *configuration)[dest as int] == *configuration);
    }
    rt.configuration.insert(dest, *configuration);
    rt.suit_size.insert(dest, sizes);
    rt.offset.insert(dest, offset);
    rt.equal.insert(dest, equal >> 1);
}

proof fn lemma_lex_trans(a: [u32; 4], b: [u32; 4], c: [u32; 4])
    ensures
        lex_le(a, b) && lex_le(b, c) ==> lex_le(a, c),
        !lex_le(b, a) ==> lex_le(a, b),
{
}

/// Each recorded configuration's offset entry still holds its class count.
spec fn offsets_hold(rt: RoundTables, rounds: nat, r: nat) -> bool {
    &&& rt.offset@.len() == rt.configuration@.len()
    &&& forall|k: int|
        0 <= k < rt.offset@.len() ==> #[trigger] rt.offset@[k] == class_count(rt.configuration@[k], rounds, r)
}

/// Inserting a configuration and its class count at the same place keeps
/// every offset entry the class count of its configuration.
proof fn lemma_offsets_insert(a: RoundTables, b: RoundTables, d: int, c: [u32; 4], rounds: nat, r: nat)
    requires
        offsets_hold(a, rounds, r),
        0 <= d <= a.configuration@.len(),
        b.configuration@ == a.configuration@.insert(d, c),
        b.offset@ == a.offset@.insert(d, class_count(c, rounds, r) as u64),
        class_count(c, rounds, r) < 0x1_0000_0000_0000_0000,
    ensures
        offsets_hold(b, rounds, r),
{
    assert forall|k: int| 0 <= k < b.offset@.len() implies #[trigger] b.offset@[k] == class_count(b.configuration@[k], rounds, r) by {
        if k < d {
            assert(b.offset@[k] == a.offset@[k]);
            assert(b.configuration@[k] == a.configuration@[k]);
        } else if k > d {
            assert(b.offset@[k] == a.offset@[k - 1]);
            assert(b.configuration@[k] == a.configuration@[k - 1]);
        }
    }
}

/// Inserting an element that is not there into a list without
/// duplicates leaves a list without duplicates holding exactly one more
/// element.
proof fn lemma_insert_fresh(s: Seq<[u32; 4]>, d: int, x: [u32; 4])
    requires
        0 <= d <= s.len(),
    ensures
        forall|c: [u32; 4]| #[trigger] s.insert(d, x).contains(c) == (s.contains(c) || c == x),
        s.no_duplicates() && !s.contains(x) ==> s.insert(d, x).no_duplicates(),
{
    let t = s.insert(d, x);
    assert forall|k: int| 0 <= k < t.len() implies #[trigger] t[k] == if k < d {
        s[k]
    } else if k == d {
        x
    } else {
        s[k - 1]
    } by {}
    assert forall|c: [u32; 4]| #[trigger] t.contains(c) == (s.contains(c) || c == x) by {
        if s.contains(c) {
            let k = choose|k: int| 0 <= k < s.len() && s[k] == c;
            if k < d {
                assert(t[k] == c);
            } else {
                assert(t[k + 1] == c);
            }
        }
        if c == x {
            assert(t[d] == x);
        }
        if t.contains(c) {
            let k = choose|k: int| 0 <= k < t.len() && t[k] == c;
            if k < d {
                assert(s[k] == c);
            } else if k > d {
                assert(s[k - 1] == c);
            }
        }
    }
    if s.no_duplicates() && !s.contains(x) {
        assert forall|a: int, b: int| 0 <= a < t.len() && 0 <= b < t.len() && a != b implies t[a] != t[b] by {
            if a == d {
                assert(s.contains(t[b]));
            } else if b == d {
                assert(s.contains(t[a]));
            }
        }
    }
}

/// Walks every suit configuration of every round (the counts of ranks
/// each suit receives per round, suits in non-increasing order within runs
/// of equal suits) and records those of `target_round` in `rt`: exactly
/// the canonical configurations of that round that extend the counts
/// fixed so far.
fn tab_config_recursive(
    t: &StaticTables,
    rt: &mut RoundTables,
    rounds: u32,
    cards_per_round: &[u8; 8],
    round: u32,
    remaining: u32,
    suit: u32,
    equal_mask: u32,
    used: &mut [u32; 4],
    config: &mut [u32; 4],
    target_round: u32,
)
    requires
        t.wf(),
        old(rt).wf(),
        target_round < rounds,
        enum_inv(
            rounds as nat,
            cards_per_round@,
            round as nat,
            remaining as nat,
            suit as nat,
            equal_mask,
            *old(used),
            *old(config),
        ),
    ensures
        final(rt).wf(),
        *final(used) == *old(used),
        *final(config) == *old(config),
        forall|c: [u32; 4]|
            #[trigger] final(rt).configuration@.contains(c) == (old(rt).configuration@.contains(c)
                || pending(
                rounds as nat,
                cards_per_round@,
                target_round as nat,
                round as nat,
                suit as nat,
                *old(config),
            ).contains(c)),
        old(rt).configuration@.no_duplicates() && (forall|c: [u32; 4]|
            #[trigger] old(rt).configuration@.contains(c) ==> !pending(
                rounds as nat,
                cards_per_round@,
                target_round as nat,
                round as nat,
                suit as nat,
                *old(config),
            ).contains(c)) ==> final(rt).configuration@.no_duplicates(),
        offsets_hold(*old(rt), rounds as nat, target_round as nat) ==> offsets_hold(
            *final(rt),
            rounds as nat,
            target_round as nat,
        ),
    decreases rounds - round, 4 - suit,
{
    let ghost cpr = cards_per_round@;
    let ghost start = rt.configuration@;
    let ghost rt_start = *rt;
    let ghost state_pending = pending(
        rounds as nat,
        cpr,
        target_round as nat,
        round as nat,
        suit as nat,
        *config,
    );
    if suit == 4 {
        proof {
            lemma_enum_round_end(rounds as nat, cpr, target_round as nat, round as nat, equal_mask, *used, *config);
        }
        if round == target_round {
            tabulate_configuration(t, rt, rounds, target_round, config);
            proof {
                let d = choose|d: int|
                    0 <= d <= start.len() && rt.configuration@ == start.insert(d, *config) && rt.offset@
                        == rt_start.offset@.insert(
                        d,
                        class_count(*config, rounds as nat, target_round as nat) as u64,
                    );
                lemma_insert_fresh(start, d, *config);
                assert(state_pending.contains(*config));
                lemma_class_acc_bound(*config, rounds as nat, target_round as nat, 0, 1);
                if offsets_hold(rt_start, rounds as nat, target_round as nat) {
                    lemma_offsets_insert(rt_start, *rt, d, *config, rounds as nat, target_round as nat);
                }
            }
        }
        let ghost mid = rt.configuration@;
        if round + 1 < rounds {
            tab_config_recursive(
                t,
                rt,
                rounds,
                cards_per_round,
                round + 1,
                cards_per_round[(round + 1) as usize] as u32,
                0,
                equal_mask,
                used,
                config,
                target_round,
            );
            proof {
                if start.no_duplicates() && (forall|c: [u32; 4]| #[trigger] start.contains(c) ==> !state_pending.contains(c)) {
                    assert forall|c: [u32; 4]| #[trigger] mid.contains(c) implies !pending(
                        rounds as nat,
                        cpr,
                        target_round as nat,
                        round as nat + 1,
                        0,
                        *config,
                    ).contains(c) by {
                        if pending(rounds as nat, cpr, target_round as nat, round as nat + 1, 0, *config).contains(c) {
                            assert(state_pending.contains(c));
                            assert(round + 1 <= target_round);
                        }
                    }
                }
            }
        }
    } else {
        let mut min: u32 = 0;
        if suit == 3 {
            min = remaining;
        }
        let mut max: u32 = 13 - used[suit as usize];
        if remaining < max {
            max = remaining;
        }
        let mut previous: u32 = 14;
        let was_eq = (equal_mask >> suit) & 1 == 1;
        let shift = ROUND_SHIFT * (rounds - round - 1);
        assert(was_eq ==> suit != 0) by (bit_vector)
            requires
                equal_mask & 1 == 0,
                was_eq == ((equal_mask >> suit) & 1 == 1),
        ;
        assert(shift == slot(rounds as nat, round as nat));
        if was_eq {
            previous = (config[(suit - 1) as usize] >> shift) & ROUND_MASK;
            if previous < max {
                max = previous;
            }
        }
        let old_config = config[suit as usize];
        let old_used = used[suit as usize];
        let ghost used0 = *used;
        let ghost config0 = *config;
        let mut i: u32 = min;
        while i <= max
            invariant
                t.wf(),
                rt.wf(),
                target_round < rounds,
                suit < 4,
                enum_inv(
                    rounds as nat,
                    cpr,
                    round as nat,
                    remaining as nat,
                    suit as nat,
                    equal_mask,
                    used0,
                    config0,
                ),
                cpr == cards_per_round@,
                state_pending == pending(
                    rounds as nat,
                    cpr,
                    target_round as nat,
                    round as nat,
                    suit as nat,
                    config0,
                ),
                max <= 13,
                max <= remaining,
                suit == 3 ==> min == remaining,
                shift == slot(rounds as nat, round as nat),
                old_used + max <= 13,
                was_eq == was_equal(equal_mask, suit as nat),
                was_eq ==> suit != 0 && max <= previous && previous == dg(
                    config0@[suit - 1],
                    rounds as nat,
                    round as nat,
                ),
                *used == used0,
                *config == config0,
                used0@[suit as int] == old_used,
                config0@[suit as int] == old_config,
                min <= i,
                forall|c: [u32; 4]|
                    #[trigger] rt.configuration@.contains(c) == (start.contains(c) || (
                    state_pending.contains(c) && min <= dg(c@[suit as int], rounds as nat, round as nat)
                        < i)),
                start.no_duplicates() && (forall|c: [u32; 4]|
                    #[trigger] start.contains(c) ==> !state_pending.contains(c))
                    ==> rt.configuration@.no_duplicates(),
                offsets_hold(rt_start, rounds as nat, target_round as nat) ==> offsets_hold(
                    *rt,
                    rounds as nat,
                    target_round as nat,
                ),
            decreases max + 1 - i,
        {
            assert(i << shift <= 0xffff_ffff) by (bit_vector);
            let new_config = old_config | (i << shift);
            let flag: u32 = if was_eq && i == previous {
                1u32 << suit
            } else {
                0
            };
            let new_equal = (equal_mask & !(1u32 << suit)) | flag;
            assert(new_equal < 16 && new_equal & 1 == 0) by (bit_vector)
                requires
                    equal_mask < 16,
                    equal_mask & 1 == 0,
                    suit < 4,
                    new_equal == (equal_mask & !(1u32 << suit)) | flag,
                    flag == 0 || (flag == 1u32 << suit && suit != 0),
            ;
            proof {
                assert forall|s: nat|
                    1 <= s < 4 implies (#[trigger] was_equal(new_equal, s) == if s == suit {
                        was_equal(equal_mask, suit as nat) && i == dg(
                            config0@[suit - 1],
                            rounds as nat,
                            round as nat,
                        )
                    } else {
                        was_equal(equal_mask, s)
                    }) by {
                    let su = s as u32;
                    let fl = was_eq && i == previous;
                    assert(((new_equal >> su) & 1 == 1) == if su == suit {
                        fl
                    } else {
                        (equal_mask >> su) & 1 == 1
                    }) by (bit_vector)
                        requires
                            su < 4,
                            suit < 4,
                            new_equal == (equal_mask & !(1u32 << suit)) | flag,
                            fl ==> flag == 1u32 << suit,
                            !fl ==> flag == 0,
                    ;
                }
            }
            used[suit as usize] = old_used + i;
            config[suit as usize] = new_config;
            let ghost before = rt.configuration@;
            proof {
                lemma_enum_child(
                    rounds as nat,
                    cpr,
                    target_round as nat,
                    round as nat,
                    remaining as nat,
                    suit as nat,
                    equal_mask,
                    used0,
                    config0,
                    i,
                    new_equal,
                    *used,
                    *config,
                );
                assert(used@ =~= used0@.update(suit as int, (used0@[suit as int] + i) as u32));
                assert(config@ =~= config0@.update(suit as int, config0@[suit as int] | (i << slot(rounds as nat, round as nat))));
            }
            let ghost child_pending = pending(
                rounds as nat,
                cpr,
                target_round as nat,
                round as nat,
                suit as nat + 1,
                *config,
            );
            proof {
                if start.no_duplicates() && (forall|c: [u32; 4]| #[trigger] start.contains(c) ==> !state_pending.contains(c)) {
                    assert forall|c: [u32; 4]| #[trigger] before.contains(c) implies !child_pending.contains(c) by {
                        if child_pending.contains(c) {
                            assert(state_pending.contains(c));
                            assert(dg(c@[suit as int], rounds as nat, round as nat) == i);
                        }
                    }
                }
            }
            tab_config_recursive(
                t,
                rt,
                rounds,
                cards_per_round,
                round,
                remaining - i,
                suit + 1,
                new_equal,
                used,
                config,
                target_round,
            );
            config[suit as usize] = old_config;
            used[suit as usize] = old_used;
            assert(config@ =~= config0@);
            assert(used@ =~= used0@);
            i = i + 1;
        }
        proof {
            assert forall|c: [u32; 4]| #[trigger] state_pending.contains(c) implies min <= dg(
                c@[suit as int],
                rounds as nat,
                round as nat,
            ) < i by {
                lemma_enum_complete(
                    rounds as nat,
                    cpr,
                    target_round as nat,
                    round as nat,
                    remaining as nat,
                    suit as nat,
                    equal_mask,
                    used0,
                    config0,
                    c,
                );
            }
        }
    }
}

/// One round `i` of the permutation index: suits `k..3` each add their
/// count times the running multiplier, which then grows by one more than
/// the cards of the round still unassigned. All arithmetic wraps at
/// `2^32`. Returns the index and the multiplier.
pub open spec fn perm_suits(
    count: [u32; 4],
    rounds: nat,
    i: nat,
    k: nat,
    idx: u32,
    mult: u32,
    rem: u32,
) -> (u32, u32)
    decreases 3 - k,
{
    if k >= 3 {
        (idx, mult)
    } else {
        let size = (count@[k as int] >> slot(rounds, i)) & 0xf;
        perm_suits(
            count,
            rounds,
            i,
            k + 1,
            idx.wrapping_add(mult.wrapping_mul(size)),
            mult.wrapping_mul(rem.wrapping_add(1)),
            rem.wrapping_sub(size),
        )
    }
}

/// The permutation index and multiplier after rounds `0..n`.
pub open spec fn perm_acc(cpr: Seq<u8>, rounds: nat, count: [u32; 4], n: nat) -> (u32, u32)
    decreases n,
{
    if n == 0 {
        (0, 1)
    } else {
        let prev = perm_acc(cpr, rounds, count, (n - 1) as nat);
        perm_suits(count, rounds, (n - 1) as nat, 0, prev.0, prev.1, cpr[n - 1] as u32)
    }
}

/// Mixed-radix index of the per-suit counts of rounds `0..=round`: for
/// each round and each of the first three suits, the digit is that suit's
/// count and the radix is one more than the cards still unassigned in the
/// round. Arithmetic wraps at `2^32`.
fn permutation_index(cards_per_round: &[u8; 8], rounds: u32, round: u32, count: &[u32; 4]) -> (r: u32)
    requires
        1 <= rounds <= 8,
        round < rounds,
    ensures
        r == perm_acc(cards_per_round@, rounds as nat, *count, (round + 1) as nat).0,
{
    let mut idx: u32 = 0;
    let mut mult: u32 = 1;
    let mut i: u32 = 0;
    while i <= round
        invariant
            round < rounds <= 8,
            i <= round + 1,
            (idx, mult) == perm_acc(cards_per_round@, rounds as nat, *count, i as nat),
        decreases round + 1 - i,
    {
        let mut remaining: u32 = cards_per_round[i as usize] as u32;
        let ghost start = (idx, mult);
        let mut j: usize = 0;
        while j < 3
            invariant
                i <= round < rounds <= 8,
                j <= 3,
                start == perm_acc(cards_per_round@, rounds as nat, *count, i as nat),
                perm_suits(*count, rounds as nat, i as nat, j as nat, idx, mult, remaining) == perm_suits(
                    *count,
                    rounds as nat,
                    i as nat,
                    0,
                    start.0,
                    start.1,
                    cards_per_round@[i as int] as u32,
                ),
            decreases 3 - j,
        {
            let shift = (rounds - i - 1) * ROUND_SHIFT;
            let size = (count[j] >> shift) & ROUND_MASK;
            idx = idx.wrapping_add(mult.wrapping_mul(size));
            mult = mult.wrapping_mul(remaining.wrapping_add(1));
            remaining = remaining.wrapping_sub(size);
            j = j + 1;
        }
        i = i + 1;
    }
    idx
}

/// A per-suit count assignment of round `r`: each round's counts add up
/// to the cards dealt in it, no suit receives more than thirteen ranks,
/// and nothing is recorded past round `r`.
pub open spec fn feasible(rounds: nat, cpr: Seq<u8>, r: nat, c: [u32; 4]) -> bool {
    &&& forall|s: int| 0 <= s < 4 ==> #[trigger] c@[s] == pk(c@[s], rounds, r + 1)
    &&& forall|j: nat| j <= r ==> #[trigger] round_total(c, rounds, j) == cpr[j as int]
    &&& forall|s: int| 0 <= s < 4 ==> #[trigger] used_upto(c@[s], rounds, r + 1) <= 13
}

/// The count assignments of round `r` that the walk over assignments
/// reaches from the state (`round`, `suit`, `count`).
pub open spec fn pending_counts(
    rounds: nat,
    cpr: Seq<u8>,
    r: nat,
    round: nat,
    suit: nat,
    count: [u32; 4],
) -> Set<[u32; 4]> {
    Set::new(|c: [u32; 4]| round <= r && feasible(rounds, cpr, r, c) && extends(c, count, rounds, round, suit))
}

/// What the walk state holds: the fixed counts and nothing else in
/// `count`, earlier rounds complete, `remaining` cards of the round still
/// to place, and `used` the ranks each suit has received.
pub open spec fn count_inv(
    rounds: nat,
    cpr: Seq<u8>,
    round: nat,
    remaining: nat,
    suit: nat,
    used: [u32; 4],
    count: [u32; 4],
) -> bool {
    &&& 1 <= rounds <= 8
    &&& round < rounds
    &&& suit <= 4
    &&& cpr.len() == 8
    &&& forall|s: int| 0 <= s < 4 ==> #[trigger] count@[s] == pk(count@[s], rounds, fixed(round, suit, s))
    &&& forall|j: nat| j < round ==> #[trigger] round_total(count, rounds, j) == cpr[j as int]
    &&& partial_total(count, rounds, round, suit) + remaining == cpr[round as int]
    &&& suit == 4 ==> remaining == 0
    &&& forall|s: int|
        0 <= s < 4 ==> #[trigger] used@[s] == used_upto(count@[s], rounds, fixed(round, suit, s))
            && used@[s] <= 13
}

/// Giving suit `suit` count `i` in the current round keeps the walk
/// state, and the assignments reached are those with that count.
proof fn lemma_count_child(
    rounds: nat,
    cpr: Seq<u8>,
    r: nat,
    round: nat,
    remaining: nat,
    suit: nat,
    used: [u32; 4],
    count: [u32; 4],
    i: u32,
    used2: [u32; 4],
    count2: [u32; 4],
)
    requires
        count_inv(rounds, cpr, round, remaining, suit, used, count),
        suit < 4,
        suit == 3 ==> i == remaining,
        i <= remaining,
        used@[suit as int] + i <= 13,
        used2@ == used@.update(suit as int, (used@[suit as int] + i) as u32),
        count2@ == count@.update(suit as int, count@[suit as int] | (i << slot(rounds, round))),
    ensures
        count_inv(rounds, cpr, round, (remaining - i) as nat, suit + 1, used2, count2),
        forall|c: [u32; 4]|
            #[trigger] pending_counts(rounds, cpr, r, round, suit + 1, count2).contains(c) == (
            pending_counts(rounds, cpr, r, round, suit, count).contains(c) && dg(
                c@[suit as int],
                rounds,
                round,
            ) == i),
{
    let x = count@[suit as int];
    let y = count2@[suit as int];
    lemma_pk_extend(x, i, rounds, round);
    assert(y == x | (i << slot(rounds, round)));
    assert forall|j: nat| j < round implies #[trigger] round_total(count2, rounds, j) == cpr[j as int] by {
        assert(round_total(count, rounds, j) == cpr[j as int]);
    }
    assert(partial_total(count2, rounds, round, suit + 1) == partial_total(count, rounds, round, suit) + i);
    assert forall|s: int| 0 <= s < 4 implies #[trigger] count2@[s] == pk(count2@[s], rounds, fixed(round, suit + 1, s)) by {
        if s != suit {
            assert(count2@[s] == count@[s]);
        }
    }
    assert(agree(y, x, rounds, round));
    lemma_used_upto_congruent(y, x, rounds, round);
    assert forall|s: int|
        0 <= s < 4 implies #[trigger] used2@[s] == used_upto(count2@[s], rounds, fixed(round, suit + 1, s))
            && used2@[s] <= 13 by {
        if s != suit {
            assert(count2@[s] == count@[s]);
        } else {
            assert(used_upto(y, rounds, round + 1) == used_upto(y, rounds, round) + dg(y, rounds, round));
        }
    }
    assert forall|c: [u32; 4]|
        #[trigger] pending_counts(rounds, cpr, r, round, suit + 1, count2).contains(c) == (pending_counts(
            rounds,
            cpr,
            r,
            round,
            suit,
            count,
        ).contains(c) && dg(c@[suit as int], rounds, round) == i) by {
        if extends(c, count2, rounds, round, suit + 1) {
            assert forall|s: int| 0 <= s < 4 implies #[trigger] agree(c@[s], count@[s], rounds, fixed(round, suit, s)) by {
                assert(agree(c@[s], count2@[s], rounds, fixed(round, suit + 1, s)));
                if s == suit {
                    assert forall|j: nat| j < round implies #[trigger] dg(c@[s], rounds, j) == dg(x, rounds, j) by {
                        assert(dg(c@[s], rounds, j) == dg(y, rounds, j));
                    }
                } else {
                    assert(count2@[s] == count@[s]);
                }
            }
            assert(agree(c@[suit as int], count2@[suit as int], rounds, fixed(round, suit + 1, suit as int)));
            assert(dg(c@[suit as int], rounds, round) == dg(y, rounds, round));
        }
        if extends(c, count, rounds, round, suit) && dg(c@[suit as int], rounds, round) == i {
            assert forall|s: int| 0 <= s < 4 implies #[trigger] agree(c@[s], count2@[s], rounds, fixed(round, suit + 1, s)) by {
                assert(agree(c@[s], count@[s], rounds, fixed(round, suit, s)));
                if s == suit {
                    assert forall|j: nat| j < round + 1 implies #[trigger] dg(c@[s], rounds, j) == dg(y, rounds, j) by {
                        if j < round {
                            assert(dg(c@[s], rounds, j) == dg(x, rounds, j));
                        }
                    }
                } else {
                    assert(count2@[s] == count@[s]);
                }
            }
        }
    }
}

/// Every assignment reached from a state gives the current suit a count
/// the walk tries: within the cards left in the round and the ranks left
/// to the suit, and all the cards left for the last suit.
proof fn lemma_count_complete(
    rounds: nat,
    cpr: Seq<u8>,
    r: nat,
    round: nat,
    remaining: nat,
    suit: nat,
    used: [u32; 4],
    count: [u32; 4],
    c: [u32; 4],
)
    requires
        count_inv(rounds, cpr, round, remaining, suit, used, count),
        suit < 4,
        pending_counts(rounds, cpr, r, round, suit, count).contains(c),
    ensures
        ({
            let i = dg(c@[suit as int], rounds, round);
            &&& suit == 3 ==> i == remaining
            &&& i <= remaining
            &&& used@[suit as int] + i <= 13
        }),
{
    let i = dg(c@[suit as int], rounds, round);
    assert(feasible(rounds, cpr, r, c));
    assert(extends(c, count, rounds, round, suit));
    assert forall|s: int| 0 <= s < suit implies #[trigger] dg(c@[s], rounds, round) == dg(count@[s], rounds, round) by {
        assert(agree(c@[s], count@[s], rounds, fixed(round, suit, s)));
    }
    assert(round_total(c, rounds, round) == cpr[round as int]);
    let cs = c@[suit as int];
    assert(agree(cs, count@[suit as int], rounds, round));
    lemma_used_upto_congruent(cs, count@[suit as int], rounds, round);
    lemma_used_upto_mono(cs, rounds, round + 1, r + 1);
    assert(used_upto(cs, rounds, r + 1) <= 13);
    assert(used_upto(cs, rounds, round + 1) == used_upto(cs, rounds, round) + i);
}

/// At the end of a round the state reaches its own assignment when the
/// round is the target, then moves on to the next round with the
/// invariant kept and the same assignments still to reach.
proof fn lemma_count_round_end(rounds: nat, cpr: Seq<u8>, r: nat, round: nat, used: [u32; 4], count: [u32; 4])
    requires
        count_inv(rounds, cpr, round, 0, 4, used, count),
        r < rounds,
    ensures
        round + 1 < rounds ==> count_inv(rounds, cpr, round + 1, cpr[(round + 1) as int] as nat, 0, used, count),
        forall|c: [u32; 4]|
            #[trigger] pending_counts(rounds, cpr, r, round, 4, count).contains(c) == ((round == r && c
                == count) || (round + 1 < rounds && pending_counts(rounds, cpr, r, round + 1, 0, count).contains(
                c,
            ))),
{
    assert(round_total(count, rounds, round) == partial_total(count, rounds, round, 4));
    assert forall|j: nat| j < round + 1 implies #[trigger] round_total(count, rounds, j) == cpr[j as int] by {}
    if round + 1 < rounds {
        assert forall|s: int| 0 <= s < 4 implies #[trigger] count@[s] == pk(count@[s], rounds, fixed(round + 1, 0, s)) by {
            assert(count@[s] == pk(count@[s], rounds, fixed(round, 4, s)));
        }
        assert forall|s: int|
            0 <= s < 4 implies #[trigger] used@[s] == used_upto(count@[s], rounds, fixed(round + 1, 0, s))
                && used@[s] <= 13 by {
            assert(used@[s] == used_upto(count@[s], rounds, fixed(round, 4, s)));
        }
        assert(partial_total(count, rounds, round + 1, 0) == 0);
    }
    if round == r {
        assert forall|s: int| 0 <= s < 4 implies #[trigger] count@[s] == pk(count@[s], rounds, r + 1) by {
            assert(count@[s] == pk(count@[s], rounds, fixed(round, 4, s)));
        }
        assert forall|s: int| 0 <= s < 4 implies #[trigger] used_upto(count@[s], rounds, r + 1) <= 13 by {
            assert(used@[s] == used_upto(count@[s], rounds, fixed(round, 4, s)));
        }
    }
    assert forall|c: [u32; 4]|
        #[trigger] pending_counts(rounds, cpr, r, round, 4, count).contains(c) == ((round == r && c == count)
            || (round + 1 < rounds && pending_counts(rounds, cpr, r, round + 1, 0, count).contains(c))) by {
        let same = forall|s: int| 0 <= s < 4 ==> #[trigger] agree(c@[s], count@[s], rounds, round + 1);
        assert(extends(c, count, rounds, round, 4) == same) by {
            assert forall|s: int| 0 <= s < 4 implies #[trigger] fixed(round, 4, s) == round + 1 by {}
        }
        if round + 1 < rounds {
            assert(extends(c, count, rounds, round + 1, 0) == same) by {
                assert forall|s: int| 0 <= s < 4 implies #[trigger] fixed(round + 1, 0, s) == round + 1 by {}
            }
        }
        if round == r && pending_counts(rounds, cpr, r, round, 4, count).contains(c) {
            assert forall|s: int| 0 <= s < 4 implies c@[s] == count@[s] by {
                assert(agree(c@[s], count@[s], rounds, round + 1));
                lemma_pk_congruent(c@[s], count@[s], rounds, r + 1);
                assert(c@[s] == pk(c@[s], rounds, r + 1));
                assert(count@[s] == pk(count@[s], rounds, fixed(round, 4, s)));
            }
            assert(c =~= count);
        }
        if round == r && c == count {
            assert forall|s: int| 0 <= s < 4 implies #[trigger] agree(c@[s], count@[s], rounds, round + 1) by {}
        }
    }
}

/// The walk over count assignments starts in a state of its invariant.
proof fn lemma_count_start(rounds: nat, cpr: Seq<u8>)
    requires
        1 <= rounds <= 8,
        cpr.len() == 8,
    ensures
        count_inv(rounds, cpr, 0, cpr[0] as nat, 0, zero_config(), zero_config()),
{
    let z = zero_config();
    assert forall|s: int| 0 <= s < 4 implies #[trigger] z@[s] == pk(z@[s], rounds, fixed(0, 0, s)) by {}
}

/// One more than the permutation index of `c` in round `r`, wrapping at
/// `2^32`: the table size the assignment `c` asks for.
pub open spec fn perm_slot_end(cpr: Seq<u8>, rounds: nat, r: nat, c: [u32; 4]) -> u32 {
    perm_acc(cpr, rounds, c, r + 1).0.wrapping_add(1)
}

/// Walks every assignment of per-round card counts to suits and raises
/// `permutations` to one past the largest index of round `target_round`.
fn perm_recursive(
    rounds: u32,
    cards_per_round: &[u8; 8],
    round: u32,
    remaining: u32,
    suit: u32,
    used: &mut [u32; 4],
    count: &mut [u32; 4],
    target_round: u32,
    permutations: &mut u32,
)
    requires
        1 <= rounds <= 8,
        round < rounds,
        suit <= 4,
        target_round < rounds,
        forall|k: int| 0 <= k < 4 ==> #[trigger] old(used)@[k] <= 13,
    ensures
        *final(used) == *old(used),
        *final(count) == *old(count),
        *old(permutations) <= *final(permutations),
        count_inv(
            rounds as nat,
            cards_per_round@,
            round as nat,
            remaining as nat,
            suit as nat,
            *old(used),
            *old(count),
        ) ==> {
            let reach = pending_counts(
                rounds as nat,
                cards_per_round@,
                target_round as nat,
                round as nat,
                suit as nat,
                *old(count),
            );
            &&& forall|c: [u32; 4]|
                #[trigger] reach.contains(c) ==> perm_slot_end(
                    cards_per_round@,
                    rounds as nat,
                    target_round as nat,
                    c,
                ) <= *final(permutations)
            &&& *final(permutations) == *old(permutations) || exists|c: [u32; 4]|
                #[trigger] reach.contains(c) && *final(permutations) == perm_slot_end(
                    cards_per_round@,
                    rounds as nat,
                    target_round as nat,
                    c,
                )
        },
    decreases rounds - round, 4 - suit,
{
    let ghost cpr = cards_per_round@;
    let ghost inv0 = count_inv(rounds as nat, cpr, round as nat, remaining as nat, suit as nat, *used, *count);
    let ghost reach = pending_counts(rounds as nat, cpr, target_round as nat, round as nat, suit as nat, *count);
    let ghost p0 = *permutations;
    if suit == 4 {
        proof {
            if inv0 {
                lemma_count_round_end(rounds as nat, cpr, target_round as nat, round as nat, *used, *count);
            }
        }
        if round == target_round {
            let idx = permutation_index(cards_per_round, rounds, round, count);
            if *permutations < idx.wrapping_add(1) {
                *permutations = idx.wrapping_add(1);
            }
        }
        let ghost p1 = *permutations;
        if round + 1 < rounds {
            perm_recursive(
                rounds,
                cards_per_round,
                round + 1,
                cards_per_round[(round + 1) as usize] as u32,
                0,
                used,
                count,
                target_round,
                permutations,
            );
        }
        proof {
            if inv0 {
                if round == target_round {
                    assert(reach.contains(*count));
                }
                if round + 1 < rounds {
                    let nxt = pending_counts(rounds as nat, cpr, target_round as nat, round as nat + 1, 0, *count);
                    if *permutations != p0 && *permutations != p1 {
                        let c = choose|c: [u32; 4]| #[trigger] nxt.contains(c) && *permutations == perm_slot_end(
                            cpr,
                            rounds as nat,
                            target_round as nat,
                            c,
                        );
                        assert(reach.contains(c));
                    }
                    assert forall|c: [u32; 4]| #[trigger] reach.contains(c) implies perm_slot_end(
                        cpr,
                        rounds as nat,
                        target_round as nat,
                        c,
                    ) <= *permutations by {
                        if !(round == target_round && c == *count) {
                            assert(nxt.contains(c));
                        }
                    }
                }
            }
        }
    } else {
        let mut min: u32 = 0;
        if suit == 3 {
            min = remaining;
        }
        let mut max: u32 = 13 - used[suit as usize];
        if remaining < max {
            max = remaining;
        }
        let shift = ROUND_SHIFT * (rounds - round - 1);
        assert(shift == slot(rounds as nat, round as nat));
        let old_count = count[suit as usize];
        let old_used = used[suit as usize];
        let ghost used0 = *used;
        let ghost count0 = *count;
        let mut i: u32 = min;
        while i <= max
            invariant
                1 <= rounds <= 8,
                round < rounds,
                suit < 4,
                target_round < rounds,
                max <= 13,
                max <= remaining,
                shift <= 28,
                shift == slot(rounds as nat, round as nat),
                old_used + max <= 13,
                suit == 3 ==> min == remaining,
                min <= i,
                *used == used0,
                *count == count0,
                used0@[suit as int] == old_used,
                count0@[suit as int] == old_count,
                forall|k: int| 0 <= k < 4 ==> #[trigger] used0@[k] <= 13,
                cpr == cards_per_round@,
                inv0 == count_inv(rounds as nat, cpr, round as nat, remaining as nat, suit as nat, used0, count0),
                reach == pending_counts(rounds as nat, cpr, target_round as nat, round as nat, suit as nat, count0),
                p0 <= *permutations,
                inv0 ==> forall|c: [u32; 4]|
                    #[trigger] reach.contains(c) && min <= dg(c@[suit as int], rounds as nat, round as nat) < i
                        ==> perm_slot_end(cpr, rounds as nat, target_round as nat, c) <= *permutations,
                inv0 ==> (*permutations == p0 || exists|c: [u32; 4]|
                    #[trigger] reach.contains(c) && *permutations == perm_slot_end(
                        cpr,
                        rounds as nat,
                        target_round as nat,
                        c,
                    )),
            decreases max + 1 - i,
        {
            assert(i << shift <= 0xffff_ffff) by (bit_vector);
            let new_count = old_count | (i << shift);
            used[suit as usize] = old_used + i;
            count[suit as usize] = new_count;
            let ghost used2 = *used;
            let ghost count2 = *count;
            let ghost pb = *permutations;
            proof {
                if inv0 {
                    lemma_count_child(
                        rounds as nat,
                        cpr,
                        target_round as nat,
                        round as nat,
                        remaining as nat,
                        suit as nat,
                        used0,
                        count0,
                        i,
                        used2,
                        count2,
                    );
                }
            }
            perm_recursive(
                rounds,
                cards_per_round,
                round,
                remaining - i,
                suit + 1,
                used,
                count,
                target_round,
                permutations,
            );
            proof {
                if inv0 {
                    let child = pending_counts(
                        rounds as nat,
                        cpr,
                        target_round as nat,
                        round as nat,
                        suit as nat + 1,
                        count2,
                    );
                    if *permutations != pb {
                        let c = choose|c: [u32; 4]| #[trigger] child.contains(c) && *permutations == perm_slot_end(
                            cpr,
                            rounds as nat,
                            target_round as nat,
                            c,
                        );
                        assert(reach.contains(c));
                    }
                    assert forall|c: [u32; 4]|
                        #[trigger] reach.contains(c) && min <= dg(c@[suit as int], rounds as nat, round as nat) < i
                            + 1 implies perm_slot_end(cpr, rounds as nat, target_round as nat, c) <= *permutations by {
                        if dg(c@[suit as int], rounds as nat, round as nat) == i {
                            assert(child.contains(c));
                        }
                    }
                }
            }
            count[suit as usize] = old_count;
            used[suit as usize] = old_used;
            assert(count@ =~= count0@);
            assert(used@ =~= used0@);
            i = i + 1;
        }
        proof {
            if inv0 {
                assert forall|c: [u32; 4]| #[trigger] reach.contains(c) implies perm_slot_end(
                    cpr,
                    rounds as nat,
                    target_round as nat,
                    c,
                ) <= *permutations by {
                    lemma_count_complete(
                        rounds as nat,
                        cpr,
                        target_round as nat,
                        round as nat,
                        remaining as nat,
                        suit as nat,
                        used0,
                        count0,
                        c,
                    );
                }
            }
        }
    }
}

/// The permutation tables of one round while they are being filled.
struct PermTables {
    to_configuration: Vec<u32>,
    to_pi: Vec<u32>,
}

/// Number of set bits of `x` at positions `0..p`.
pub open spec fn bits_below(x: u32, p: nat) -> nat
    decreases p,
{
    if p == 0 {
        0
    } else {
        bits_below(x, (p - 1) as nat) + if bit(x, (p - 1) as u32) {
            1nat
        } else {
            0nat
        }
    }
}

/// Number of set bits of `x` below position `p`.
fn count_bits_below(x: u32, p: u32) -> (c: u32)
    requires
        p <= 32,
    ensures
        c == bits_below(x, p as nat),
        c <= p,
{
    let mut c: u32 = 0;
    let mut b: u32 = 0;
    while b < p
        invariant
            b <= p <= 32,
            c <= b,
            c == bits_below(x, b as nat),
        decreases p - b,
    {
        if (x >> b) & 1 == 1 {
            c = c + 1;
        }
        b = b + 1;
    }
    c
}

/// Suit `a` comes before suit `b` when sorting suits by count, most
/// first, ties kept in suit order.
pub open spec fn suit_before(count: [u32; 4], a: u32, b: u32) -> bool {
    count@[a as int] > count@[b as int] || (count@[a as int] == count@[b as int] && a < b)
}

/// `pi` lists the four suits in the order that sorts `count` from most
/// to fewest, ties in suit order.
pub open spec fn sorts_suits(count: [u32; 4], pi: [u32; 4]) -> bool {
    &&& forall|k: int| 0 <= k < 4 ==> #[trigger] pi@[k] < 4
    &&& forall|a: int, b: int|
        0 <= a < b < 4 ==> suit_before(count, #[trigger] pi@[a], #[trigger] pi@[b])
}

/// Lehmer code of the first `i` entries of the arrangement `pi`: the
/// code, the radix of the next digit, and the set of suits placed. Digit
/// `k` is `pi[k]` less the placed suits below it, in radix `4 - k`.
pub open spec fn lehmer_acc(pi: [u32; 4], i: nat) -> (nat, nat, u32)
    decreases i,
{
    if i == 0 {
        (0, 1, 0)
    } else {
        let prev = lehmer_acc(pi, (i - 1) as nat);
        let p = pi@[i - 1];
        (
            (prev.0 + (p - bits_below(prev.2, p as nat)) * prev.1) as nat,
            (prev.1 * (4 - (i - 1))) as nat,
            prev.2 | (1u32 << p),
        )
    }
}

/// `low` is where a search of `configs` for `v` may end: a position up
/// to the end, and, in a sorted list that holds `v`, a position of `v`.
pub open spec fn search_result(configs: Seq<[u32; 4]>, v: [u32; 4], low: int) -> bool {
    &&& 0 <= low <= configs.len()
    &&& (sorted_configs(configs) && configs.contains(v) ==> low < configs.len() && configs[low] == v)
}

/// The counts of `count` arranged in the order `pi`.
pub open spec fn arranged(count: [u32; 4], pi: [u32; 4]) -> [u32; 4] {
    [count@[pi@[0] as int], count@[pi@[1] as int], count@[pi@[2] as int], count@[pi@[3] as int]]
}

/// Records, for the per-suit counts `count` of round `round`, the suit
/// order that sorts the counts from most to fewest (as a Lehmer code) and
/// the position of the sorted counts among the round's configurations,
/// both at the permutation index of `count`.
fn tabulate_permutation(
    pt: &mut PermTables,
    configs: &Vec<[u32; 4]>,
    cards_per_round: &[u8; 8],
    rounds: u32,
    round: u32,
    count: &[u32; 4],
)
    requires
        1 <= rounds <= 8,
        round < rounds,
    ensures
        final(pt).to_configuration.len() == old(pt).to_configuration.len(),
        final(pt).to_pi.len() == old(pt).to_pi.len(),
        ({
            let idx = perm_acc(cards_per_round@, rounds as nat, *count, (round + 1) as nat).0 as int;
            exists|pi: [u32; 4], low: int|
                #![trigger sorts_suits(*count, pi), search_result(configs@, arranged(*count, pi), low)]
                {
                    &&& sorts_suits(*count, pi)
                    &&& search_result(configs@, arranged(*count, pi), low)
                    &&& final(pt).to_pi@ == if idx < old(pt).to_pi.len() {
                        old(pt).to_pi@.update(idx, lehmer_acc(pi, 4).0 as u32)
                    } else {
                        old(pt).to_pi@
                    }
                    &&& final(pt).to_configuration@ == if idx < old(pt).to_configuration.len() {
                        old(pt).to_configuration@.update(idx, low as u32)
                    } else {
                        old(pt).to_configuration@
                    }
                }
        }),
{
    let idx = permutation_index(cards_per_round, rounds, round, count);

    let mut pi: [u32; 4] = [0, 1, 2, 3];
    let mut i: usize = 1;
    while i < 4
        invariant
            1 <= i <= 4,
            forall|k: int| 0 <= k < 4 ==> #[trigger] pi@[k] < 4,
            forall|k: int| 0 <= k < i ==> #[trigger] pi@[k] < i,
            forall|k: int| i <= k < 4 ==> #[trigger] pi@[k] == k,
            forall|a: int, b: int| 0 <= a < b < i ==> suit_before(*count, #[trigger] pi@[a], #[trigger] pi@[b]),
        decreases 4 - i,
    {
        let pi_i = pi[i];
        let ghost old_pi = pi;
        let mut j: usize = i;
        while j > 0 && count[pi[j - 1] as usize] < count[pi_i as usize]
            invariant
                j <= i < 4,
                pi_i == i,
                forall|k: int| 0 <= k < 4 ==> #[trigger] pi@[k] < 4,
                forall|k: int| 0 <= k < j ==> #[trigger] pi@[k] == old_pi@[k],
                forall|k: int| j < k <= i ==> #[trigger] pi@[k] == old_pi@[k - 1],
                forall|k: int| i < k < 4 ==> #[trigger] pi@[k] == old_pi@[k],
                forall|k: int| j < k <= i ==> count@[pi_i as int] > count@[#[trigger] pi@[k] as int],
                forall|k: int| 0 <= k < i ==> #[trigger] old_pi@[k] < i,
                forall|k: int| i <= k < 4 ==> #[trigger] old_pi@[k] == k,
                forall|k: int| 0 <= k < 4 ==> #[trigger] old_pi@[k] < 4,
                forall|a: int, b: int|
                    0 <= a < b < i ==> suit_before(*count, #[trigger] old_pi@[a], #[trigger] old_pi@[b]),
            decreases j,
        {
            pi[j] = pi[j - 1];
            j = j - 1;
        }
        pi[j] = pi_i;
        proof {
            assert forall|a: int, b: int| 0 <= a < b < i + 1 implies suit_before(
                *count,
                #[trigger] pi@[a],
                #[trigger] pi@[b],
            ) by {
                if b == j as int && a < b {
                    assert(pi@[a] == old_pi@[a]);
                    assert(suit_before(*count, old_pi@[a], old_pi@[j - 1]) || a == j - 1);
                    assert(suit_before(*count, old_pi@[j - 1], pi_i));
                } else if a == j as int {
                    assert(count@[pi_i as int] > count@[pi@[b] as int]);
                } else if a < j && b > j {
                    assert(pi@[b] == old_pi@[b - 1]);
                    assert(suit_before(*count, old_pi@[a], old_pi@[b - 1]));
                } else if a > j {
                    assert(suit_before(*count, old_pi@[a - 1], old_pi@[b - 1]));
                } else {
                    assert(suit_before(*count, old_pi@[a], old_pi@[b]));
                }
            }
            assert forall|k: int| 0 <= k < i + 1 implies #[trigger] pi@[k] < i + 1 by {
                if k < j {
                    assert(pi@[k] == old_pi@[k]);
                } else if k > j {
                    assert(pi@[k] == old_pi@[k - 1]);
                }
            }
        }
        i = i + 1;
    }

    let mut pi_idx: u32 = 0;
    let mut pi_mult: u32 = 1;
    let mut pi_used: u32 = 0;
    let mut i: u32 = 0;
    while i < 4
        invariant
            i <= 4,
            forall|k: int| 0 <= k < 4 ==> #[trigger] pi@[k] < 4,
            pi_mult <= 24,
            pi_idx <= 3 * 41,
            i == 0 ==> pi_mult == 1 && pi_idx == 0,
            i == 1 ==> pi_mult == 4 && pi_idx <= 3,
            i == 2 ==> pi_mult == 12 && pi_idx <= 15,
            i == 3 ==> pi_mult == 24 && pi_idx <= 51,
            lehmer_acc(pi, i as nat) == (pi_idx as nat, pi_mult as nat, pi_used),
        decreases 4 - i,
    {
        let p = pi[i as usize];
        let smaller = count_bits_below(pi_used, p);
        assert((p - smaller) * pi_mult <= 3 * pi_mult) by (nonlinear_arith)
            requires
                p - smaller <= 3,
                pi_mult <= 24,
        ;
        pi_idx = pi_idx + (p - smaller) * pi_mult;
        pi_mult = pi_mult * (4 - i);
        pi_used = pi_used | (1u32 << p);
        i = i + 1;
    }
    if (idx as usize) < pt.to_pi.len() {
        pt.to_pi.set(idx as usize, pi_idx);
    }
    let ghost v = arranged(*count, pi);
    let ghost mut found = false;
    let mut low: usize = 0;
    let mut high: usize = configs.len();
    while low < high
        invariant
            low <= high <= configs.len(),
            forall|k: int| 0 <= k < 4 ==> #[trigger] pi@[k] < 4,
            v == arranged(*count, pi),
            found ==> low == high && low < configs.len() && configs@[low as int] == v,
            !found && sorted_configs(configs@) && configs@.contains(v) ==> exists|k: int|
                low <= k < high && #[trigger] configs@[k] == v,
        decreases high - low, (if low == high { 0int } else { 1int }),
    {
        let mid = low + (high - low) / 2;
        let mut compare: i32 = 0;
        let mut k: usize = 0;
        while k < 4
            invariant_except_break
                compare == 0,
            invariant
                k <= 4,
                mid < configs.len(),
                forall|kk: int| 0 <= kk < 4 ==> #[trigger] pi@[kk] < 4,
                v == arranged(*count, pi),
                forall|kk: int| 0 <= kk < k ==> #[trigger] configs@[mid as int]@[kk] == v@[kk],
            ensures
                compare == 0 ==> configs@[mid as int] == v,
                compare < 0 ==> lex_le(v, configs@[mid as int]) && v != configs@[mid as int],
                compare > 0 ==> lex_le(configs@[mid as int], v) && v != configs@[mid as int],
            decreases 4 - k,
        {
            let this = count[pi[k] as usize];
            let other = configs[mid][k];
            if other > this {
                compare = -1;
                break;
            } else if other < this {
                compare = 1;
                break;
            }
            k = k + 1;
            if k == 4 {
                assert(configs@[mid as int]@ =~= v@);
            }
        }
        let ghost old_low = low;
        let ghost old_high = high;
        if compare < 0 {
            high = mid;
        } else if compare == 0 {
            low = mid;
            high = mid;
            proof {
                found = true;
            }
        } else {
            low = mid + 1;
        }
        proof {
            if !found && sorted_configs(configs@) && configs@.contains(v) {
                let w = choose|w: int| old_low <= w < old_high && #[trigger] configs@[w] == v;
                if compare < 0 {
                    if w >= mid {
                        if w > mid {
                            assert(lex_le(configs@[mid as int], configs@[w]));
                        }
                        assert(configs@[mid as int]@ =~= v@);
                        assert(configs@[mid as int] == v);
                        assert(false);
                    }
                    assert(w < mid);
                } else if compare > 0 {
                    if w <= mid {
                        if w < mid {
                            assert(lex_le(configs@[w], configs@[mid as int]));
                        }
                        assert(configs@[mid as int]@ =~= v@);
                        assert(configs@[mid as int] == v);
                        assert(false);
                    }
                    assert(w > mid);
                }
                assert(low <= w < high);
            }
        }
    }
    proof {
        if sorted_configs(configs@) && configs@.contains(v) && !found {
            let w = choose|w: int| low <= w < high && #[trigger] configs@[w] == v;
        }
        assert(sorts_suits(*count, pi));
    }
    if (idx as usize) < pt.to_configuration.len() {
        pt.to_configuration.set(idx as usize, #[verifier::truncate] (low as u32));
    }
    proof {
        assert(search_result(configs@, v, low as int));
    }
}

/// Position of the assignment `c` of round `r` in the permutation tables.
pub open spec fn slot_of(cpr: Seq<u8>, rounds: nat, r: nat, c: [u32; 4]) -> int {
    perm_acc(cpr, rounds, c, r + 1).0 as int
}

/// `v` is the Lehmer code of the suit order that sorts `c`.
pub open spec fn pi_entry(c: [u32; 4], v: u32) -> bool {
    exists|pi: [u32; 4]| #[trigger] sorts_suits(c, pi) && v == lehmer_acc(pi, 4).0 as u32
}

/// `v` is where a search of `configs` for the sorted counts of `c` may
/// end.
pub open spec fn conf_entry(configs: Seq<[u32; 4]>, c: [u32; 4], v: u32) -> bool {
    exists|pi: [u32; 4], low: int|
        #![trigger sorts_suits(c, pi), search_result(configs, arranged(c, pi), low)]
        sorts_suits(c, pi) && search_result(configs, arranged(c, pi), low) && v == low as u32
}

/// Entry `x` of the order table holds what some assignment of `reach`
/// at position `x` records there.
pub open spec fn pi_ok(reach: Set<[u32; 4]>, cpr: Seq<u8>, rounds: nat, r: nat, x: int, v: u32) -> bool {
    exists|c: [u32; 4]| #[trigger] reach.contains(c) && slot_of(cpr, rounds, r, c) == x && pi_entry(c, v)
}

/// Entry `x` of the configuration table holds what some assignment of
/// `reach` at position `x` records there.
pub open spec fn conf_ok(
    reach: Set<[u32; 4]>,
    cpr: Seq<u8>,
    rounds: nat,
    r: nat,
    configs: Seq<[u32; 4]>,
    x: int,
    v: u32,
) -> bool {
    exists|c: [u32; 4]|
        #[trigger] reach.contains(c) && slot_of(cpr, rounds, r, c) == x && conf_entry(configs, c, v)
}

proof fn lemma_ok_mono(
    r1: Set<[u32; 4]>,
    r2: Set<[u32; 4]>,
    cpr: Seq<u8>,
    rounds: nat,
    r: nat,
    configs: Seq<[u32; 4]>,
    x: int,
    pv: u32,
    cv: u32,
)
    requires
        forall|c: [u32; 4]| #[trigger] r1.contains(c) ==> r2.contains(c),
    ensures
        pi_ok(r1, cpr, rounds, r, x, pv) ==> pi_ok(r2, cpr, rounds, r, x, pv),
        conf_ok(r1, cpr, rounds, r, configs, x, cv) ==> conf_ok(r2, cpr, rounds, r, configs, x, cv),
{
    if pi_ok(r1, cpr, rounds, r, x, pv) {
        let c = choose|c: [u32; 4]| #[trigger] r1.contains(c) && slot_of(cpr, rounds, r, c) == x && pi_entry(c, pv);
        assert(r2.contains(c));
    }
    if conf_ok(r1, cpr, rounds, r, configs, x, cv) {
        let c = choose|c: [u32; 4]|
            #[trigger] r1.contains(c) && slot_of(cpr, rounds, r, c) == x && conf_entry(configs, c, cv);
        assert(r2.contains(c));
    }
}

/// The two tables hold, at every position, either what they held in
/// `a` or what some assignment of `reach` at that position records.
spec fn tables_from(
    a: PermTables,
    b: PermTables,
    reach: Set<[u32; 4]>,
    cpr: Seq<u8>,
    rounds: nat,
    r: nat,
    configs: Seq<[u32; 4]>,
) -> bool {
    &&& b.to_pi.len() == a.to_pi.len()
    &&& b.to_configuration.len() == a.to_configuration.len()
    &&& forall|x: int|
        0 <= x < a.to_pi.len() ==> #[trigger] b.to_pi@[x] == a.to_pi@[x] || pi_ok(
            reach,
            cpr,
            rounds,
            r,
            x,
            b.to_pi@[x],
        )
    &&& forall|x: int|
        0 <= x < a.to_configuration.len() ==> #[trigger] b.to_configuration@[x] == a.to_configuration@[x]
            || conf_ok(reach, cpr, rounds, r, configs, x, b.to_configuration@[x])
}

/// Every assignment of `reach` that falls inside the tables finds there
/// what some assignment of `reach` at its position records.
spec fn tables_cover(
    b: PermTables,
    reach: Set<[u32; 4]>,
    cpr: Seq<u8>,
    rounds: nat,
    r: nat,
    configs: Seq<[u32; 4]>,
) -> bool {
    &&& forall|c: [u32; 4]|
        #[trigger] reach.contains(c) && slot_of(cpr, rounds, r, c) < b.to_pi.len() ==> pi_ok(
            reach,
            cpr,
            rounds,
            r,
            slot_of(cpr, rounds, r, c),
            b.to_pi@[slot_of(cpr, rounds, r, c)],
        )
    &&& forall|c: [u32; 4]|
        #[trigger] reach.contains(c) && slot_of(cpr, rounds, r, c) < b.to_configuration.len() ==> conf_ok(
            reach,
            cpr,
            rounds,
            r,
            configs,
            slot_of(cpr, rounds, r, c),
            b.to_configuration@[slot_of(cpr, rounds, r, c)],
        )
}

/// Two rounds of writes, each from assignments of `r`, are together a
/// round of writes from `r`.
proof fn lemma_tables_trans(
    a: PermTables,
    b: PermTables,
    c: PermTables,
    r1: Set<[u32; 4]>,
    r2: Set<[u32; 4]>,
    reach: Set<[u32; 4]>,
    cpr: Seq<u8>,
    rounds: nat,
    r: nat,
    configs: Seq<[u32; 4]>,
)
    requires
        tables_from(a, b, r1, cpr, rounds, r, configs),
        tables_from(b, c, r2, cpr, rounds, r, configs),
        forall|k: [u32; 4]| #[trigger] r1.contains(k) ==> reach.contains(k),
        forall|k: [u32; 4]| #[trigger] r2.contains(k) ==> reach.contains(k),
    ensures
        tables_from(a, c, reach, cpr, rounds, r, configs),
{
    assert forall|x: int| 0 <= x < a.to_pi.len() implies #[trigger] c.to_pi@[x] == a.to_pi@[x] || pi_ok(
        reach,
        cpr,
        rounds,
        r,
        x,
        c.to_pi@[x],
    ) by {
        lemma_ok_mono(r1, reach, cpr, rounds, r, configs, x, c.to_pi@[x], 0);
        lemma_ok_mono(r2, reach, cpr, rounds, r, configs, x, c.to_pi@[x], 0);
        assert(c.to_pi@[x] == b.to_pi@[x] || pi_ok(r2, cpr, rounds, r, x, c.to_pi@[x]));
        assert(b.to_pi@[x] == a.to_pi@[x] || pi_ok(r1, cpr, rounds, r, x, b.to_pi@[x]));
    }
    assert forall|x: int| 0 <= x < a.to_configuration.len() implies #[trigger] c.to_configuration@[x]
        == a.to_configuration@[x] || conf_ok(reach, cpr, rounds, r, configs, x, c.to_configuration@[x]) by {
        lemma_ok_mono(r1, reach, cpr, rounds, r, configs, x, 0, c.to_configuration@[x]);
        lemma_ok_mono(r2, reach, cpr, rounds, r, configs, x, 0, c.to_configuration@[x]);
        assert(c.to_configuration@[x] == b.to_configuration@[x] || conf_ok(r2, cpr, rounds, r, configs, x, c.to_configuration@[x]));
        assert(b.to_configuration@[x] == a.to_configuration@[x] || conf_ok(r1, cpr, rounds, r, configs, x, b.to_configuration@[x]));
    }
}

/// Later writes from assignments of `reach` keep every assignment of
/// `done` finding an entry of `reach` at its position.
proof fn lemma_cover_keep(
    b: PermTables,
    c: PermTables,
    done: Set<[u32; 4]>,
    r2: Set<[u32; 4]>,
    reach: Set<[u32; 4]>,
    cpr: Seq<u8>,
    rounds: nat,
    r: nat,
    configs: Seq<[u32; 4]>,
)
    requires
        tables_from(b, c, r2, cpr, rounds, r, configs),
        forall|k: [u32; 4]| #[trigger] r2.contains(k) ==> reach.contains(k),
        forall|k: [u32; 4]| #[trigger] done.contains(k) ==> reach.contains(k),
        tables_cover(b, done, cpr, rounds, r, configs) || forall|k: [u32; 4]|
            #[trigger] done.contains(k) ==> {
                &&& slot_of(cpr, rounds, r, k) < b.to_pi.len() ==> pi_ok(
                    reach,
                    cpr,
                    rounds,
                    r,
                    slot_of(cpr, rounds, r, k),
                    b.to_pi@[slot_of(cpr, rounds, r, k)],
                )
                &&& slot_of(cpr, rounds, r, k) < b.to_configuration.len() ==> conf_ok(
                    reach,
                    cpr,
                    rounds,
                    r,
                    configs,
                    slot_of(cpr, rounds, r, k),
                    b.to_configuration@[slot_of(cpr, rounds, r, k)],
                )
            },
    ensures
        forall|k: [u32; 4]|
            #[trigger] done.contains(k) ==> {
                &&& slot_of(cpr, rounds, r, k) < c.to_pi.len() ==> pi_ok(
                    reach,
                    cpr,
                    rounds,
                    r,
                    slot_of(cpr, rounds, r, k),
                    c.to_pi@[slot_of(cpr, rounds, r, k)],
                )
                &&& slot_of(cpr, rounds, r, k) < c.to_configuration.len() ==> conf_ok(
                    reach,
                    cpr,
                    rounds,
                    r,
                    configs,
                    slot_of(cpr, rounds, r, k),
                    c.to_configuration@[slot_of(cpr, rounds, r, k)],
                )
            },
{
    assert forall|k: [u32; 4]| #[trigger] done.contains(k) implies {
        &&& slot_of(cpr, rounds, r, k) < c.to_pi.len() ==> pi_ok(
            reach,
            cpr,
            rounds,
            r,
            slot_of(cpr, rounds, r, k),
            c.to_pi@[slot_of(cpr, rounds, r, k)],
        )
        &&& slot_of(cpr, rounds, r, k) < c.to_configuration.len() ==> conf_ok(
            reach,
            cpr,
            rounds,
            r,
            configs,
            slot_of(cpr, rounds, r, k),
            c.to_configuration@[slot_of(cpr, rounds, r, k)],
        )
    } by {
        let x = slot_of(cpr, rounds, r, k);
        if 0 <= x < b.to_pi.len() {
            lemma_ok_mono(done, reach, cpr, rounds, r, configs, x, b.to_pi@[x], 0);
            lemma_ok_mono(r2, reach, cpr, rounds, r, configs, x, c.to_pi@[x], 0);
            assert(c.to_pi@[x] == b.to_pi@[x] || pi_ok(r2, cpr, rounds, r, x, c.to_pi@[x]));
        }
        if 0 <= x < b.to_configuration.len() {
            lemma_ok_mono(done, reach, cpr, rounds, r, configs, x, 0, b.to_configuration@[x]);
            lemma_ok_mono(r2, reach, cpr, rounds, r, configs, x, 0, c.to_configuration@[x]);
            assert(c.to_configuration@[x] == b.to_configuration@[x] || conf_ok(r2, cpr, rounds, r, configs, x, c.to_configuration@[x]));
        }
    }
}

/// Walks every assignment of per-round card counts to suits and records
/// those of round `target_round` in `pt`.
fn tab_perm_recursive(
    pt: &mut PermTables,
    configs: &Vec<[u32; 4]>,
    rounds: u32,
    cards_per_round: &[u8; 8],
    round: u32,
    remaining: u32,
    suit: u32,
    used: &mut [u32; 4],
    count: &mut [u32; 4],
    target_round: u32,
)
    requires
        1 <= rounds <= 8,
        round < rounds,
        suit <= 4,
        target_round < rounds,
        forall|k: int| 0 <= k < 4 ==> #[trigger] old(used)@[k] <= 13,
    ensures
        *final(used) == *old(used),
        *final(count) == *old(count),
        final(pt).to_configuration.len() == old(pt).to_configuration.len(),
        final(pt).to_pi.len() == old(pt).to_pi.len(),
        count_inv(
            rounds as nat,
            cards_per_round@,
            round as nat,
            remaining as nat,
            suit as nat,
            *old(used),
            *old(count),
        ) ==> {
            let reach = pending_counts(
                rounds as nat,
                cards_per_round@,
                target_round as nat,
                round as nat,
                suit as nat,
                *old(count),
            );
            &&& tables_from(
                *old(pt),
                *final(pt),
                reach,
                cards_per_round@,
                rounds as nat,
                target_round as nat,
                configs@,
            )
            &&& tables_cover(*final(pt), reach, cards_per_round@, rounds as nat, target_round as nat, configs@)
        },
    decreases rounds - round, 4 - suit,
{
    let ghost cpr = cards_per_round@;
    let ghost rn = rounds as nat;
    let ghost tr = target_round as nat;
    let ghost inv0 = count_inv(rn, cpr, round as nat, remaining as nat, suit as nat, *used, *count);
    let ghost reach = pending_counts(rn, cpr, tr, round as nat, suit as nat, *count);
    let ghost a = *pt;
    if suit == 4 {
        proof {
            if inv0 {
                lemma_count_round_end(rn, cpr, tr, round as nat, *used, *count);
            }
        }
        if round == target_round {
            tabulate_permutation(pt, configs, cards_per_round, rounds, target_round, count);
        }
        let ghost b = *pt;
        let ghost leaf = Set::new(|k: [u32; 4]| round == target_round && k == *count);
        proof {
            if inv0 {
                let x = slot_of(cpr, rn, tr, *count);
                if round == target_round {
                    assert(reach.contains(*count));
                    let (pi, low) = choose|pi: [u32; 4], low: int|
                        #![trigger sorts_suits(*count, pi), search_result(configs@, arranged(*count, pi), low)]
                        {
                            &&& sorts_suits(*count, pi)
                            &&& search_result(configs@, arranged(*count, pi), low)
                            &&& b.to_pi@ == if x < a.to_pi.len() {
                                a.to_pi@.update(x, lehmer_acc(pi, 4).0 as u32)
                            } else {
                                a.to_pi@
                            }
                            &&& b.to_configuration@ == if x < a.to_configuration.len() {
                                a.to_configuration@.update(x, low as u32)
                            } else {
                                a.to_configuration@
                            }
                        };
                    assert(pi_entry(*count, lehmer_acc(pi, 4).0 as u32));
                    assert(conf_entry(configs@, *count, low as u32));
                    assert(leaf.contains(*count));
                    if x < a.to_pi.len() {
                        assert(pi_ok(leaf, cpr, rn, tr, x, b.to_pi@[x]));
                    }
                    if x < a.to_configuration.len() {
                        assert(conf_ok(leaf, cpr, rn, tr, configs@, x, b.to_configuration@[x]));
                    }
                }
                assert(tables_from(a, b, leaf, cpr, rn, tr, configs@));
                assert(tables_cover(b, leaf, cpr, rn, tr, configs@));
            }
        }
        if round + 1 < rounds {
            tab_perm_recursive(
                pt,
                configs,
                rounds,
                cards_per_round,
                round + 1,
                cards_per_round[(round + 1) as usize] as u32,
                0,
                used,
                count,
                target_round,
            );
        }
        proof {
            if inv0 {
                let nxt = Set::new(
                    |k: [u32; 4]| round + 1 < rounds && pending_counts(rn, cpr, tr, round as nat + 1, 0, *count).contains(k),
                );
                assert forall|k: [u32; 4]| #[trigger] leaf.contains(k) implies reach.contains(k) by {}
                assert forall|k: [u32; 4]| #[trigger] nxt.contains(k) implies reach.contains(k) by {}
                if round + 1 < rounds {
                    let child = pending_counts(rn, cpr, tr, round as nat + 1, 0, *count);
                    assert forall|k: [u32; 4]| #[trigger] child.contains(k) implies nxt.contains(k) by {}
                    assert(tables_from(b, *pt, child, cpr, rn, tr, configs@));
                    lemma_tables_trans(b, *pt, *pt, child, nxt, nxt, cpr, rn, tr, configs@);
                } else {
                    assert(tables_from(b, *pt, nxt, cpr, rn, tr, configs@));
                }
                lemma_tables_trans(a, b, *pt, leaf, nxt, reach, cpr, rn, tr, configs@);
                lemma_cover_keep(b, *pt, leaf, nxt, reach, cpr, rn, tr, configs@);
                assert forall|k: [u32; 4]|
                    #[trigger] reach.contains(k) && slot_of(cpr, rn, tr, k) < pt.to_pi.len() implies pi_ok(
                        reach,
                        cpr,
                        rn,
                        tr,
                        slot_of(cpr, rn, tr, k),
                        pt.to_pi@[slot_of(cpr, rn, tr, k)],
                    ) by {
                    if !leaf.contains(k) {
                        let child = pending_counts(rn, cpr, tr, round as nat + 1, 0, *count);
                        assert(child.contains(k));
                        lemma_ok_mono(child, reach, cpr, rn, tr, configs@, slot_of(cpr, rn, tr, k), pt.to_pi@[slot_of(cpr, rn, tr, k)], 0);
                    }
                }
                assert forall|k: [u32; 4]|
                    #[trigger] reach.contains(k) && slot_of(cpr, rn, tr, k) < pt.to_configuration.len() implies conf_ok(
                        reach,
                        cpr,
                        rn,
                        tr,
                        configs@,
                        slot_of(cpr, rn, tr, k),
                        pt.to_configuration@[slot_of(cpr, rn, tr, k)],
                    ) by {
                    if !leaf.contains(k) {
                        let child = pending_counts(rn, cpr, tr, round as nat + 1, 0, *count);
                        assert(child.contains(k));
                        lemma_ok_mono(child, reach, cpr, rn, tr, configs@, slot_of(cpr, rn, tr, k), 0, pt.to_configuration@[slot_of(cpr, rn, tr, k)]);
                    }
                }
            }
        }
    } else {
        let mut min: u32 = 0;
        if suit == 3 {
            min = remaining;
        }
        let mut max: u32 = 13 - used[suit as usize];
        if remaining < max {
            max = remaining;
        }
        let shift = ROUND_SHIFT * (rounds - round - 1);
        assert(shift == slot(rounds as nat, round as nat));
        let old_count = count[suit as usize];
        let old_used = used[suit as usize];
        let ghost used0 = *used;
        let ghost count0 = *count;
        let ghost n_conf = pt.to_configuration.len();
        let ghost n_pi = pt.to_pi.len();
        let mut i: u32 = min;
        while i <= max
            invariant
                1 <= rounds <= 8,
                round < rounds,
                suit < 4,
                target_round < rounds,
                max <= 13,
                max <= remaining,
                shift <= 28,
                shift == slot(rounds as nat, round as nat),
                old_used + max <= 13,
                suit == 3 ==> min == remaining,
                min <= i,
                *used == used0,
                *count == count0,
                used0@[suit as int] == old_used,
                count0@[suit as int] == old_count,
                forall|k: int| 0 <= k < 4 ==> #[trigger] used0@[k] <= 13,
                pt.to_configuration.len() == n_conf,
                pt.to_pi.len() == n_pi,
                cpr == cards_per_round@,
                rn == rounds as nat,
                tr == target_round as nat,
                inv0 == count_inv(rn, cpr, round as nat, remaining as nat, suit as nat, used0, count0),
                reach == pending_counts(rn, cpr, tr, round as nat, suit as nat, count0),
                a.to_configuration.len() == n_conf,
                a.to_pi.len() == n_pi,
                inv0 ==> tables_from(a, *pt, reach, cpr, rn, tr, configs@),
                inv0 ==> forall|k: [u32; 4]|
                    #[trigger] reach.contains(k) && min <= dg(k@[suit as int], rn, round as nat) < i ==> {
                        &&& slot_of(cpr, rn, tr, k) < pt.to_pi.len() ==> pi_ok(
                            reach,
                            cpr,
                            rn,
                            tr,
                            slot_of(cpr, rn, tr, k),
                            pt.to_pi@[slot_of(cpr, rn, tr, k)],
                        )
                        &&& slot_of(cpr, rn, tr, k) < pt.to_configuration.len() ==> conf_ok(
                            reach,
                            cpr,
                            rn,
                            tr,
                            configs@,
                            slot_of(cpr, rn, tr, k),
                            pt.to_configuration@[slot_of(cpr, rn, tr, k)],
                        )
                    },
            decreases max + 1 - i,
        {
            assert(i << shift <= 0xffff_ffff) by (bit_vector);
            let new_count = old_count | (i << shift);
            used[suit as usize] = old_used + i;
            count[suit as usize] = new_count;
            let ghost used2 = *used;
            let ghost count2 = *count;
            let ghost before = *pt;
            proof {
                if inv0 {
                    lemma_count_child(rn, cpr, tr, round as nat, remaining as nat, suit as nat, used0, count0, i, used2, count2);
                }
            }
            tab_perm_recursive(
                pt,
                configs,
                rounds,
                cards_per_round,
                round,
                remaining - i,
                suit + 1,
                used,
                count,
                target_round,
            );
            proof {
                if inv0 {
                    let child = pending_counts(rn, cpr, tr, round as nat, suit as nat + 1, count2);
                    let done = Set::new(
                        |k: [u32; 4]| reach.contains(k) && min <= dg(k@[suit as int], rn, round as nat) < i,
                    );
                    assert forall|k: [u32; 4]| #[trigger] child.contains(k) implies reach.contains(k) by {}
                    assert forall|k: [u32; 4]| #[trigger] done.contains(k) implies reach.contains(k) by {}
                    lemma_tables_trans(a, before, *pt, reach, child, reach, cpr, rn, tr, configs@);
                    assert forall|k: [u32; 4]| #[trigger] done.contains(k) implies {
                        &&& slot_of(cpr, rn, tr, k) < before.to_pi.len() ==> pi_ok(
                            reach,
                            cpr,
                            rn,
                            tr,
                            slot_of(cpr, rn, tr, k),
                            before.to_pi@[slot_of(cpr, rn, tr, k)],
                        )
                        &&& slot_of(cpr, rn, tr, k) < before.to_configuration.len() ==> conf_ok(
                            reach,
                            cpr,
                            rn,
                            tr,
                            configs@,
                            slot_of(cpr, rn, tr, k),
                            before.to_configuration@[slot_of(cpr, rn, tr, k)],
                        )
                    } by {}
                    lemma_cover_keep(before, *pt, done, child, reach, cpr, rn, tr, configs@);
                    assert forall|k: [u32; 4]|
                        #[trigger] reach.contains(k) && min <= dg(k@[suit as int], rn, round as nat) < i + 1 implies {
                            &&& slot_of(cpr, rn, tr, k) < pt.to_pi.len() ==> pi_ok(
                                reach,
                                cpr,
                                rn,
                                tr,
                                slot_of(cpr, rn, tr, k),
                                pt.to_pi@[slot_of(cpr, rn, tr, k)],
                            )
                            &&& slot_of(cpr, rn, tr, k) < pt.to_configuration.len() ==> conf_ok(
                                reach,
                                cpr,
                                rn,
                                tr,
                                configs@,
                                slot_of(cpr, rn, tr, k),
                                pt.to_configuration@[slot_of(cpr, rn, tr, k)],
                            )
                        } by {
                        if dg(k@[suit as int], rn, round as nat) == i {
                            assert(child.contains(k));
                            lemma_ok_mono(
                                child,
                                reach,
                                cpr,
                                rn,
                                tr,
                                configs@,
                                slot_of(cpr, rn, tr, k),
                                pt.to_pi@[slot_of(cpr, rn, tr, k)],
                                pt.to_configuration@[slot_of(cpr, rn, tr, k)],
                            );
                        } else {
                            assert(done.contains(k));
                        }
                    }
                }
            }
            count[suit as usize] = old_count;
            used[suit as usize] = old_used;
            assert(count@ =~= count0@);
            assert(used@ =~= used0@);
            i = i + 1;
        }
        proof {
            if inv0 {
                assert forall|k: [u32; 4]| #[trigger] reach.contains(k) implies min <= dg(
                    k@[suit as int],
                    rn,
                    round as nat,
                ) < i by {
                    lemma_count_complete(rn, cpr, tr, round as nat, remaining as nat, suit as nat, used0, count0, k);
                }
            }
        }
    }
}

/// Hand-indexer state: the per-round configuration and permutation
/// tables of Waugh's algorithm.
pub struct HandIndexer {
    cards_per_round: [u8; 8],
    round_start: [u8; 8],
    rounds: u32,
    /// Number of distinct suit-rank configurations per round.
    configurations: [u32; 8],
    /// Number of distinct suit permutations per round.
    permutations: [u32; 8],
    /// Total canonical hand count per round.
    round_size: [u64; 8],
    permutation_to_configuration: Vec<Vec<u32>>,
    permutation_to_pi: Vec<Vec<u32>>,
    configuration_to_equal: Vec<Vec<u32>>,
    configuration: Vec<Vec<[u32; 4]>>,
    configuration_to_suit_size: Vec<Vec<[u32; 4]>>,
    configuration_to_offset: Vec<Vec<u64>>,
    tables: StaticTables,
}

impl HandIndexer {
    /// Number of rounds.
    pub closed spec fn spec_rounds(&self) -> nat {
        self.rounds as nat
    }

    /// Cards dealt in round `r`.
    pub closed spec fn spec_cards_per_round(&self) -> Seq<u8> {
        self.cards_per_round@
    }

    /// Number of canonical hands of round `r`.
    pub closed spec fn spec_round_size(&self) -> Seq<u64> {
        self.round_size@
    }

    /// The suit configurations of round `r`, in ascending order.
    pub closed spec fn spec_configurations(&self, r: int) -> Seq<[u32; 4]> {
        self.configuration@[r]@
    }

    /// Well-formedness: the tables are aligned per round and sorted.
    pub closed spec fn wf(&self) -> bool {
        &&& 1 <= self.rounds <= 8
        &&& self.tables.wf()
        &&& total_cards(self.cards_per_round@, self.rounds as int) <= 52
        &&& forall|i: int|
            0 <= i < self.rounds ==> #[trigger] self.round_start@[i] == total_cards(
                self.cards_per_round@,
                i,
            )
        &&& forall|i: int| self.rounds <= i < 8 ==> #[trigger] self.cards_per_round@[i] == 0
        &&& forall|i: int| self.rounds <= i < 8 ==> #[trigger] self.round_size@[i] == 0
        &&& self.permutation_to_configuration.len() == self.rounds
        &&& self.permutation_to_pi.len() == self.rounds
        &&& self.configuration_to_equal.len() == self.rounds
        &&& self.configuration.len() == self.rounds
        &&& self.configuration_to_suit_size.len() == self.rounds
        &&& self.configuration_to_offset.len() == self.rounds
        &&& forall|r: int|
            0 <= r < self.rounds ==> {
                &&& (#[trigger] self.configuration_to_suit_size@[r]).len() == self.configuration@[r].len()
                &&& self.configuration_to_offset@[r].len() == self.configuration@[r].len()
                &&& self.configuration_to_equal@[r].len() == self.configuration@[r].len()
                &&& sorted_configs(self.configuration@[r]@)
                &&& forall|k: int|
                    0 <= k < self.configuration_to_equal@[r].len()
                        ==> #[trigger] self.configuration_to_equal@[r]@[k] < 8
                &&& self.permutation_to_configuration@[r].len() == self.permutations@[r]
                &&& self.permutation_to_pi@[r].len() == self.permutations@[r]
                &&& self.configuration_to_offset@[r].len() > 0 ==> self.configuration_to_offset@[r]@[0]
                    == 0
                &&& self.configuration@[r].len() == 0 ==> self.round_size@[r] == 0
            }
        &&& forall|r: int|
            0 <= r < self.rounds ==> (#[trigger] self.configuration@[r])@.no_duplicates() && (forall|
                c: [u32; 4],
            |
                self.configuration@[r]@.contains(c) == canonical(
                    self.rounds as nat,
                    self.cards_per_round@,
                    r as nat,
                    c,
                )) && self.round_size@[r] == sum_classes(
                self.configuration@[r]@,
                self.rounds as nat,
                r as nat,
            )
    }

    /// Create a new hand indexer for the given rounds. `rounds` is
    /// the number of streets (1..=MAX_ROUNDS), and
    /// `cards_per_round[r]` is the number of cards dealt in round
    /// `r` (e.g. `[2, 3, 1, 1]` for preflop+flop+turn+river).
    pub fn init(rounds: u32, cards_per_round: &[u8]) -> (res: Result<Self, HandIndexerError>)
        requires
            1 <= rounds <= 8 ==> cards_per_round@.len() >= rounds,
        ensures
            rounds == 0 ==> res == Err::<Self, HandIndexerError>(HandIndexerError::ZeroRounds),
            rounds > 8 ==> res == Err::<Self, HandIndexerError>(
                HandIndexerError::TooManyRounds { rounds },
            ),
            1 <= rounds <= 8 && total_cards(cards_per_round@, rounds as int) > 52 ==> res == Err::<
                Self,
                HandIndexerError,
            >(
                HandIndexerError::TooManyCards {
                    total: total_cards(cards_per_round@, rounds as int) as u32,
                    cards_in_deck: 52,
                },
            ),
            1 <= rounds <= 8 && total_cards(cards_per_round@, rounds as int) <= 52 ==> {
                &&& res is Ok
                &&& res.unwrap().wf()
                &&& res.unwrap().spec_rounds() == rounds
                &&& forall|i: int|
                    0 <= i < rounds ==> #[trigger] res.unwrap().spec_cards_per_round()[i]
                        == cards_per_round@[i]
                &&& forall|r: int|
                    0 <= r < rounds ==> (#[trigger] res.unwrap().spec_configurations(r)).no_duplicates()
                        && forall|c: [u32; 4]|
                        res.unwrap().spec_configurations(r).contains(c) == canonical(
                            rounds as nat,
                            res.unwrap().spec_cards_per_round(),
                            r as nat,
                            c,
                        )
            },
    {
        if rounds == 0 {
            return Err(HandIndexerError::ZeroRounds);
        }
        if rounds > MAX_ROUNDS as u32 {
            return Err(HandIndexerError::TooManyRounds { rounds });
        }
        let mut total: u32 = 0;
        let mut i: usize = 0;
        while i < rounds as usize
            invariant
                1 <= rounds <= 8,
                i <= rounds,
                cards_per_round@.len() >= rounds,
                total == total_cards(cards_per_round@, i as int),
                total <= 255 * i,
            decreases rounds - i,
        {
            total = total + cards_per_round[i] as u32;
            i = i + 1;
        }
        if total > CARDS as u32 {
            return Err(HandIndexerError::TooManyCards { total, cards_in_deck: CARDS as u32 });
        }
        let mut cpr: [u8; 8] = [0; 8];
        let mut round_start: [u8; 8] = [0; 8];
        let mut j: u8 = 0;
        let mut i: usize = 0;
        while i < rounds as usize
            invariant
                1 <= rounds <= 8,
                i <= rounds,
                cards_per_round@.len() >= rounds,
                total_cards(cards_per_round@, rounds as int) <= 52,
                j == total_cards(cards_per_round@, i as int),
                forall|k: int| 0 <= k < i ==> #[trigger] cpr@[k] == cards_per_round@[k],
                forall|k: int| i <= k < 8 ==> #[trigger] cpr@[k] == 0,
                forall|k: int| 0 <= k < i ==> #[trigger] round_start@[k] == total_cards(
                    cards_per_round@,
                    k,
                ),
            decreases rounds - i,
        {
            proof {
                lemma_total_cards_mono(cards_per_round@, (i + 1) as int, rounds as int);
            }
            cpr[i] = cards_per_round[i];
            round_start[i] = j;
            j = j + cards_per_round[i];
            i = i + 1;
        }
        proof {
            assert forall|k: int| 0 <= k <= rounds implies total_cards(cpr@, k) == total_cards(
                cards_per_round@,
                k,
            ) by {
                lemma_total_cards_prefix(cpr@, cards_per_round@, k);
            }
        }
        let t = tables();

        let mut configurations: [u32; 8] = [0; 8];
        let mut round_size: [u64; 8] = [0; 8];
        let mut configuration: Vec<Vec<[u32; 4]>> = Vec::new();
        let mut configuration_to_suit_size: Vec<Vec<[u32; 4]>> = Vec::new();
        let mut configuration_to_offset: Vec<Vec<u64>> = Vec::new();
        let mut configuration_to_equal: Vec<Vec<u32>> = Vec::new();
        let mut r: u32 = 0;
        while r < rounds
            invariant
                1 <= rounds <= 8,
                r <= rounds,
                t.wf(),
                configuration.len() == r,
                configuration_to_suit_size.len() == r,
                configuration_to_offset.len() == r,
                configuration_to_equal.len() == r,
                forall|k: int| r <= k < 8 ==> #[trigger] round_size@[k] == 0,
                forall|rr: int|
                    0 <= rr < r ==> {
                        &&& (#[trigger] configuration_to_suit_size@[rr]).len() == configuration@[rr].len()
                        &&& configuration_to_offset@[rr].len() == configuration@[rr].len()
                        &&& configuration_to_equal@[rr].len() == configuration@[rr].len()
                        &&& sorted_configs(configuration@[rr]@)
                        &&& forall|k: int|
                            0 <= k < configuration_to_equal@[rr].len()
                                ==> #[trigger] configuration_to_equal@[rr]@[k] < 8
                        &&& configuration_to_offset@[rr].len() > 0
                            ==> configuration_to_offset@[rr]@[0] == 0
                        &&& configuration@[rr].len() == 0 ==> round_size@[rr] == 0
                    },
                forall|rr: int|
                    0 <= rr < r ==> (#[trigger] configuration@[rr])@.no_duplicates() && (forall|c: [u32; 4]|
                        configuration@[rr]@.contains(c) == canonical(rounds as nat, cpr@, rr as nat, c))
                        && round_size@[rr] == sum_classes(configuration@[rr]@, rounds as nat, rr as nat),
                cpr@.len() == 8,
            decreases rounds - r,
        {
            let mut rt = RoundTables {
                configuration: Vec::new(),
                suit_size: Vec::new(),
                offset: Vec::new(),
                equal: Vec::new(),
            };
            let mut used: [u32; 4] = [0; 4];
            let mut config: [u32; 4] = [0; 4];
            assert(0b1110u32 & 1 == 0) by (bit_vector);
            proof {
                lemma_enum_start(rounds as nat, cpr@, r as nat);
                assert(used =~= zero_config());
                assert(config =~= zero_config());
            }
            tab_config_recursive(
                &t,
                &mut rt,
                rounds,
                &cpr,
                0,
                cpr[0] as u32,
                0,
                0b1110,
                &mut used,
                &mut config,
                r,
            );
            let ghost confs = rt.configuration@;
            assert(offsets_hold(rt, rounds as nat, r as nat));
            proof {
                assert forall|c: [u32; 4]| confs.contains(c) == canonical(rounds as nat, cpr@, r as nat, c) by {
                    assert(pending(rounds as nat, cpr@, r as nat, 0, 0, zero_config()).contains(c) == canonical(
                        rounds as nat,
                        cpr@,
                        r as nat,
                        c,
                    ));
                }
            }
            let n = rt.offset.len();
            let mut accum: u64 = 0;
            let mut k: usize = 0;
            while k < n
                invariant
                    rt.configuration@ == confs,
                    k <= n,
                    n == rt.offset.len(),
                    rt.wf(),
                    k == 0 ==> accum == 0,
                    n == rt.configuration.len(),
                    k > 0 ==> rt.offset@[0] == 0,
                    accum == sum_classes(confs.take(k as int), rounds as nat, r as nat),
                    forall|kk: int| k <= kk < n ==> #[trigger] rt.offset@[kk] == class_count(
                        confs[kk],
                        rounds as nat,
                        r as nat,
                    ),
                decreases n - k,
            {
                assert(confs.take(k as int + 1).drop_last() =~= confs.take(k as int));
                let next = accum.wrapping_add(rt.offset[k]);
                rt.offset.set(k, accum);
                accum = next;
                k = k + 1;
            }
            assert(confs.take(k as int) =~= confs);
            round_size[r as usize] = accum;
            configurations[r as usize] = #[verifier::truncate] (rt.configuration.len() as u32);
            let ghost rt0 = rt;
            assert(rt0.wf());
            assert(rt0.configuration@.no_duplicates());
            configuration.push(rt.configuration);
            configuration_to_suit_size.push(rt.suit_size);
            configuration_to_offset.push(rt.offset);
            configuration_to_equal.push(rt.equal);
            assert(configuration@[r as int] == rt0.configuration);
            assert(configuration_to_suit_size@[r as int] == rt0.suit_size);
            assert(configuration_to_offset@[r as int] == rt0.offset);
            assert(configuration_to_equal@[r as int] == rt0.equal);
            assert(sorted_configs(configuration@[r as int]@));
            assert(configuration@[r as int].len() == 0 ==> round_size@[r as int] == 0);
            assert(configuration_to_offset@[r as int].len() > 0 ==> configuration_to_offset@[r as int]@[0] == 0);
            assert(forall|k: int|
                            0 <= k < configuration_to_equal@[r as int].len()
                                ==> #[trigger] configuration_to_equal@[r as int]@[k] < 8);
            assert forall|rr: int| 0 <= rr < r + 1 implies {
                        &&& (#[trigger] configuration_to_suit_size@[rr]).len() == configuration@[rr].len()
                        &&& configuration_to_offset@[rr].len() == configuration@[rr].len()
                        &&& configuration_to_equal@[rr].len() == configuration@[rr].len()
                        &&& sorted_configs(configuration@[rr]@)
                        &&& forall|k: int|
                            0 <= k < configuration_to_equal@[rr].len()
                                ==> #[trigger] configuration_to_equal@[rr]@[k] < 8
                        &&& configuration_to_offset@[rr].len() > 0
                            ==> configuration_to_offset@[rr]@[0] == 0
                        &&& configuration@[rr].len() == 0 ==> round_size@[rr] == 0
                    } by {
                if rr < r {
                    let _ = configuration@[rr];
                    let _ = configuration_to_suit_size@[rr];
                    assert(configuration_to_suit_size@[rr].len() == configuration@[rr].len());
                    assert(configuration_to_offset@[rr].len() == configuration@[rr].len());
                    assert(configuration_to_equal@[rr].len() == configuration@[rr].len());
                    assert(sorted_configs(configuration@[rr]@));
                    assert(configuration@[rr].len() == 0 ==> round_size@[rr] == 0);
                }
            }
            r = r + 1;
        }
        let mut permutations: [u32; 8] = [0; 8];
        let mut permutation_to_configuration: Vec<Vec<u32>> = Vec::new();
        let mut permutation_to_pi: Vec<Vec<u32>> = Vec::new();
        let mut r: u32 = 0;
        while r < rounds
            invariant
                1 <= rounds <= 8,
                r <= rounds,
                configuration.len() == rounds,
                permutation_to_configuration.len() == r,
                permutation_to_pi.len() == r,
                forall|rr: int|
                    0 <= rr < r ==> {
                        &&& (#[trigger] permutation_to_configuration@[rr]).len()
                            == permutations@[rr]
                        &&& permutation_to_pi@[rr].len() == permutations@[rr]
                    },
            decreases rounds - r,
        {
            let mut used: [u32; 4] = [0; 4];
            let mut count: [u32; 4] = [0; 4];
            let mut np: u32 = 0;
            proof {
                assert(used@ =~= zero_config()@);
                assert(count@ =~= zero_config()@);
                lemma_count_start(rounds as nat, cpr@);
                assert(count_inv(rounds as nat, cpr@, 0, cpr[0] as nat, 0, used, count));
            }
            perm_recursive(rounds, &cpr, 0, cpr[0] as u32, 0, &mut used, &mut count, r, &mut np);
            permutations[r as usize] = np;
            let mut pt = PermTables {
                to_configuration: vec![0u32; np as usize],
                to_pi: vec![0u32; np as usize],
            };
            tab_perm_recursive(
                &mut pt,
                &configuration[r as usize],
                rounds,
                &cpr,
                0,
                cpr[0] as u32,
                0,
                &mut used,
                &mut count,
                r,
            );
            permutation_to_configuration.push(pt.to_configuration);
            permutation_to_pi.push(pt.to_pi);
            r = r + 1;
        }
        Ok(
            HandIndexer {
                cards_per_round: cpr,
                round_start,
                rounds,
                configurations,
                permutations,
                round_size,
                permutation_to_configuration,
                permutation_to_pi,
                configuration_to_equal,
                configuration,
                configuration_to_suit_size,
                configuration_to_offset,
                tables: t,
            },
        )
    }

    /// Number of distinct canonical hands in `round` (0-indexed); zero for
    /// rounds past the last.
    pub fn size(&self, round: u32) -> (r: u64)
        requires
            self.wf(),
            round < 8,
        ensures
            r == self.spec_round_size()[round as int],
            round >= self.spec_rounds() ==> r == 0,
            round < self.spec_rounds() ==> {
                &&& r == sum_classes(
                    self.spec_configurations(round as int),
                    self.spec_rounds(),
                    round as nat,
                )
                &&& sorted_configs(self.spec_configurations(round as int))
                &&& self.spec_configurations(round as int).no_duplicates()
                &&& forall|c: [u32; 4]|
                    #[trigger] self.spec_configurations(round as int).contains(c) == canonical(
                        self.spec_rounds(),
                        self.spec_cards_per_round(),
                        round as nat,
                        c,
                    )
            },
    {
        proof {
            if round < self.rounds {
                let _ = self.configuration@[round as int];
                let _ = self.configuration_to_suit_size@[round as int];
            }
        }
        self.round_size[round as usize]
    }
}

/// Cards `0..n` of `cards` are real cards, none twice.
pub open spec fn valid_cards(cards: Seq<u8>, n: int) -> bool {
    &&& cards.len() >= n
    &&& forall|i: int| 0 <= i < n ==> #[trigger] cards[i] < 52
    &&& forall|i: int, j: int| 0 <= i < j < n ==> cards[i] != cards[j]
}

/// The indexing state as values: per-suit indices, multipliers and
/// ranks received, the round reached, the permutation index and
/// multiplier, and the index.
pub struct IndexView {
    pub suit_index: Seq<u64>,
    pub suit_multiplier: Seq<u64>,
    pub round: u32,
    pub permutation_index: u64,
    pub permutation_multiplier: u64,
    pub used_ranks: Seq<u32>,
    pub index: u64,
}

/// The state before any round.
pub open spec fn initial_view() -> IndexView {
    IndexView {
        suit_index: Seq::new(4, |i: int| 0u64),
        suit_multiplier: Seq::new(4, |i: int| 1u64),
        round: 0,
        permutation_index: 0,
        permutation_multiplier: 1,
        used_ranks: Seq::new(4, |i: int| 0u32),
        index: 0,
    }
}

/// Per suit, the ranks received and the new ranks packed below the
/// ranks already used, after the first `k` cards of the round at `off`.
pub open spec fn round_cards(cards: Seq<u8>, off: int, k: int, used: Seq<u32>) -> (Seq<u32>, Seq<u32>)
    decreases k,
{
    if k <= 0 {
        (Seq::new(4, |i: int| 0u32), Seq::new(4, |i: int| 0u32))
    } else {
        let prev = round_cards(cards, off, k - 1, used);
        let card = cards[off + k - 1];
        let rank = (card / 4) as u32;
        let suit = (card % 4) as int;
        let rank_bit = 1u32 << rank;
        let prior = bits_below(used[suit], rank as nat) as u32;
        (
            prev.0.update(suit, prev.0[suit] | rank_bit),
            prev.1.update(suit, prev.1[suit] | (rank_bit >> prior)),
        )
    }
}

/// Suit `i`'s index, multiplier and used ranks after a round that gave
/// it the ranks `ranks[i]`, packed as `shifted[i]`.
pub open spec fn suit_step(
    rank_index: Seq<u32>,
    st: IndexView,
    ranks: Seq<u32>,
    shifted: Seq<u32>,
    i: int,
) -> (u64, u64, u32) {
    let used_size = bits_below(st.used_ranks[i], 32);
    let this_size = bits_below(ranks[i], 32);
    let rs: u32 = if shifted[i] < 8192 {
        rank_index[shifted[i] as int]
    } else {
        0
    };
    let f: u32 = if used_size <= 13 && this_size <= 13 {
        binom((13 - used_size) as nat, this_size) as u32
    } else {
        0
    };
    (
        st.suit_index[i].wrapping_add(st.suit_multiplier[i].wrapping_mul(rs as u64)),
        st.suit_multiplier[i].wrapping_mul(f as u64),
        st.used_ranks[i] | ranks[i],
    )
}

/// The permutation index and multiplier after suits `i..3` of a round
/// add their rank counts, with `rem` cards of the round unassigned.
pub open spec fn perm_round(ranks: Seq<u32>, i: nat, pidx: u64, pmult: u64, rem: u64) -> (u64, u64)
    decreases 3 - i,
{
    if i >= 3 {
        (pidx, pmult)
    } else {
        let ts = bits_below(ranks[i as int], 32) as u64;
        perm_round(
            ranks,
            i + 1,
            pidx.wrapping_add(pmult.wrapping_mul(ts)),
            pmult.wrapping_mul(rem.wrapping_add(1)),
            rem.wrapping_sub(ts),
        )
    }
}

/// Entries `a` and `b` of `v` in order, the smaller first.
pub open spec fn sort2_spec(v: Seq<u64>, a: int, b: int) -> Seq<u64> {
    if v[a] > v[b] {
        v.update(a, v[b]).update(b, v[a])
    } else {
        v
    }
}

/// `binom(n, k)` modulo `2^64` for suit groups, zero outside the table.
pub open spec fn ncr_groups_spec(n: u64, k: u32) -> u64 {
    if n < MAX_GROUP_INDEX && k < 5 {
        (binom(n as nat, k as nat) % 0x1_0000_0000_0000_0000) as u64
    } else {
        0
    }
}

/// The index after the runs of equal suits from `i` on add their
/// multiset-combination parts: a run's sorted suit indices give its part
/// and its suits' shared multiplier its size. Arithmetic wraps at `2^64`.
pub open spec fn group_fold(eq: Seq<bool>, si: Seq<u64>, sm: Seq<u64>, i: int, index: u64, mult: u64) -> u64
    decreases 4 - i,
{
    if i >= 4 || i < 0 {
        index
    } else if i + 1 < 4 && eq[i + 1] {
        if i + 2 < 4 && eq[i + 2] {
            if i + 3 < 4 && eq[i + 3] {
                let v = sort2_spec(
                    sort2_spec(sort2_spec(sort2_spec(sort2_spec(si, i, i + 1), i + 2, i + 3), i, i + 2), i + 1, i + 3),
                    i + 1,
                    i + 2,
                );
                let part = v[i].wrapping_add(ncr_groups_spec(v[i + 1].wrapping_add(1), 2)).wrapping_add(
                    ncr_groups_spec(v[i + 2].wrapping_add(2), 3),
                ).wrapping_add(ncr_groups_spec(v[i + 3].wrapping_add(3), 4));
                let size = ncr_groups_spec(sm[i].wrapping_add(3), 4);
                group_fold(eq, v, sm, i + 4, index.wrapping_add(mult.wrapping_mul(part)), mult.wrapping_mul(size))
            } else {
                let v = sort2_spec(sort2_spec(sort2_spec(si, i, i + 1), i, i + 2), i + 1, i + 2);
                let part = v[i].wrapping_add(ncr_groups_spec(v[i + 1].wrapping_add(1), 2)).wrapping_add(
                    ncr_groups_spec(v[i + 2].wrapping_add(2), 3),
                );
                let size = ncr_groups_spec(sm[i].wrapping_add(2), 3);
                group_fold(eq, v, sm, i + 3, index.wrapping_add(mult.wrapping_mul(part)), mult.wrapping_mul(size))
            }
        } else {
            let v = sort2_spec(si, i, i + 1);
            let part = v[i].wrapping_add(ncr_groups_spec(v[i + 1].wrapping_add(1), 2));
            let size = ncr_groups_spec(sm[i].wrapping_add(1), 2);
            group_fold(eq, v, sm, i + 2, index.wrapping_add(mult.wrapping_mul(part)), mult.wrapping_mul(size))
        }
    } else {
        group_fold(eq, si, sm, i + 1, index.wrapping_add(mult.wrapping_mul(si[i])), mult.wrapping_mul(sm[i]))
    }
}

/// Card `c` is among the `k` cards at `off`.
pub open spec fn in_block(cards: Seq<u8>, off: int, k: int, c: int) -> bool {
    exists|j: int| 0 <= j < k && #[trigger] card_at(cards, off, j) == c
}

/// Card `j` of the block at `off`.
pub open spec fn card_at(cards: Seq<u8>, off: int, j: int) -> int {
    cards[off + j] as int
}

/// Some card of suit `s` among the `k` cards at `off` has a rank `r` that
/// lands on position `q` once the ranks of `used` below it are removed.
pub open spec fn packed_hit(cards: Seq<u8>, off: int, k: int, used: u32, s: int, q: int) -> bool {
    exists|r: int| 0 <= r < 13 && #[trigger] in_block(cards, off, k, 4 * r + s) && r - bits_below(used, r as nat) == q
}

proof fn lemma_bits_below_le(x: u32, p: nat)
    ensures
        bits_below(x, p) <= p,
    decreases p,
{
    if p > 0 {
        lemma_bits_below_le(x, (p - 1) as nat);
    }
}

/// Shifting a single rank bit down by `p` moves it to position `r - p`.
proof fn lemma_shift_down(r: u32, p: u32, h: u32)
    by (bit_vector)
    requires
        r < 13,
        p <= r,
        h == r - p,
    ensures
        (1u32 << r) >> p == 1u32 << h,
        (1u32 << r) < 8192,
{
}

/// Two rank sets below `1 << 13` with the same thirteen bits are equal.
proof fn lemma_rank_sets_equal(x: u32, y: u32)
    by (bit_vector)
    requires
        x < 8192,
        y < 8192,
        (x >> 0u32) & 1 == (y >> 0u32) & 1,
        (x >> 1u32) & 1 == (y >> 1u32) & 1,
        (x >> 2u32) & 1 == (y >> 2u32) & 1,
        (x >> 3u32) & 1 == (y >> 3u32) & 1,
        (x >> 4u32) & 1 == (y >> 4u32) & 1,
        (x >> 5u32) & 1 == (y >> 5u32) & 1,
        (x >> 6u32) & 1 == (y >> 6u32) & 1,
        (x >> 7u32) & 1 == (y >> 7u32) & 1,
        (x >> 8u32) & 1 == (y >> 8u32) & 1,
        (x >> 9u32) & 1 == (y >> 9u32) & 1,
        (x >> 10u32) & 1 == (y >> 10u32) & 1,
        (x >> 11u32) & 1 == (y >> 11u32) & 1,
        (x >> 12u32) & 1 == (y >> 12u32) & 1,
    ensures
        x == y,
{
}

proof fn lemma_rank_sets_equal_bits(x: u32, y: u32)
    requires
        x < 8192,
        y < 8192,
        forall|q: u32| q < 13 ==> #[trigger] bit(x, q) == bit(y, q),
    ensures
        x == y,
{
    assert(bit(x, 0) == bit(y, 0) && bit(x, 1) == bit(y, 1) && bit(x, 2) == bit(y, 2) && bit(x, 3) == bit(y, 3));
    assert(bit(x, 4) == bit(y, 4) && bit(x, 5) == bit(y, 5) && bit(x, 6) == bit(y, 6) && bit(x, 7) == bit(y, 7));
    assert(bit(x, 8) == bit(y, 8) && bit(x, 9) == bit(y, 9) && bit(x, 10) == bit(y, 10));
    assert(bit(x, 11) == bit(y, 11) && bit(x, 12) == bit(y, 12));
    assert forall|q: u32| q < 13 implies ((x >> q) & 1 == (y >> q) & 1) by {
        lemma_low_bit(x >> q);
        lemma_low_bit(y >> q);
    }
    assert((x >> 0u32) & 1 == (y >> 0u32) & 1);
    assert((x >> 1u32) & 1 == (y >> 1u32) & 1);
    assert((x >> 2u32) & 1 == (y >> 2u32) & 1);
    assert((x >> 3u32) & 1 == (y >> 3u32) & 1);
    assert((x >> 4u32) & 1 == (y >> 4u32) & 1);
    assert((x >> 5u32) & 1 == (y >> 5u32) & 1);
    assert((x >> 6u32) & 1 == (y >> 6u32) & 1);
    assert((x >> 7u32) & 1 == (y >> 7u32) & 1);
    assert((x >> 8u32) & 1 == (y >> 8u32) & 1);
    assert((x >> 9u32) & 1 == (y >> 9u32) & 1);
    assert((x >> 10u32) & 1 == (y >> 10u32) & 1);
    assert((x >> 11u32) & 1 == (y >> 11u32) & 1);
    assert((x >> 12u32) & 1 == (y >> 12u32) & 1);
    lemma_rank_sets_equal(x, y);
}

/// What the first `k` cards of a round at `off` give each suit: rank `q`
/// is in its ranks exactly when card `4q + s` is among them, and
/// position `q` is in its packed ranks exactly when some of its ranks
/// lands there.
proof fn lemma_round_cards_bits(cards: Seq<u8>, off: int, k: int, used: Seq<u32>)
    requires
        0 <= k,
        0 <= off,
        off + k <= cards.len(),
        used.len() == 4,
        forall|j: int| 0 <= j < k ==> #[trigger] cards[off + j] < 52,
    ensures
        ({
            let rc = round_cards(cards, off, k, used);
            &&& rc.0.len() == 4
            &&& rc.1.len() == 4
            &&& forall|s: int| 0 <= s < 4 ==> #[trigger] rc.0[s] < 8192 && rc.1[s] < 8192
            &&& forall|s: int, q: u32|
                0 <= s < 4 && q < 13 ==> #[trigger] bit(rc.0[s], q) == in_block(cards, off, k, 4 * q + s)
            &&& forall|s: int, q: u32|
                0 <= s < 4 && q < 13 ==> #[trigger] bit(rc.1[s], q) == packed_hit(
                    cards,
                    off,
                    k,
                    used[s],
                    s,
                    q as int,
                )
        }),
    decreases k,
{
    let rc = round_cards(cards, off, k, used);
    if k == 0 {
        lemma_shift_consts();
        assert forall|q: u32| q < 13 implies !bit(0u32, q) by {
            assert((0u32 >> q) == 0u32);
        }
        assert forall|s: int, q: u32| 0 <= s < 4 && q < 13 implies !packed_hit(cards, off, k, used[s], s, q as int) by {
            if packed_hit(cards, off, k, used[s], s, q as int) {
                let r = choose|r: int| 0 <= r < 13 && #[trigger] in_block(cards, off, k, 4 * r + s) && r - bits_below(used[s], r as nat) == q;
                assert(in_block(cards, off, k, 4 * r + s));
            }
        }
    } else {
        lemma_round_cards_bits(cards, off, k - 1, used);
        let prev = round_cards(cards, off, k - 1, used);
        let card = cards[off + k - 1];
        let rank = (card / 4) as u32;
        let suit = (card % 4) as int;
        let rank_bit = 1u32 << rank;
        let p = bits_below(used[suit], rank as nat);
        lemma_bits_below_le(used[suit], rank as nat);
        let prior = p as u32;
        let hp = (rank - prior) as u32;
        lemma_shift_down(rank, prior, hp);
        assert(rank_bit >> prior == 1u32 << hp);
        assert(card == 4 * rank + suit);
        assert forall|c: int| #[trigger] in_block(cards, off, k, c) == (in_block(cards, off, k - 1, c) || c == card) by {
            if in_block(cards, off, k, c) {
                let j = choose|j: int| 0 <= j < k && #[trigger] card_at(cards, off, j) == c;
                if j < k - 1 {
                    assert(in_block(cards, off, k - 1, c));
                }
            }
            if in_block(cards, off, k - 1, c) {
                let j = choose|j: int| 0 <= j < k - 1 && #[trigger] card_at(cards, off, j) == c;
                assert(0 <= j < k && card_at(cards, off, j) == c);
            }
            if c == card {
                assert(0 <= k - 1 < k && card_at(cards, off, k - 1) == c);
            }
        }
        assert forall|s: int| 0 <= s < 4 implies #[trigger] rc.0[s] < 8192 && rc.1[s] < 8192 by {
            if s == suit {
                lemma_bit_update(prev.0[s], rank, 0);
                lemma_bit_update(prev.1[s], hp, 0);
            }
        }
        assert forall|s: int, q: u32|
            0 <= s < 4 && q < 13 implies #[trigger] bit(rc.0[s], q) == in_block(cards, off, k, 4 * q + s) by {
            assert(bit(prev.0[s], q) == in_block(cards, off, k - 1, 4 * q + s));
            if s == suit {
                lemma_bit_update(prev.0[s], rank, q);
            }
        }
        assert forall|s: int, q: u32|
            0 <= s < 4 && q < 13 implies #[trigger] bit(rc.1[s], q) == packed_hit(cards, off, k, used[s], s, q as int) by {
            assert(bit(prev.1[s], q) == packed_hit(cards, off, k - 1, used[s], s, q as int));
            if s == suit {
                lemma_bit_update(prev.1[s], hp, q);
            }
            if packed_hit(cards, off, k, used[s], s, q as int) {
                let r = choose|r: int| 0 <= r < 13 && #[trigger] in_block(cards, off, k, 4 * r + s) && r - bits_below(used[s], r as nat) == q;
                if in_block(cards, off, k - 1, 4 * r + s) {
                    assert(packed_hit(cards, off, k - 1, used[s], s, q as int));
                } else {
                    assert(4 * r + s == card);
                    assert(r == rank && s == suit);
                }
            }
            if packed_hit(cards, off, k - 1, used[s], s, q as int) {
                let r = choose|r: int| 0 <= r < 13 && #[trigger] in_block(cards, off, k - 1, 4 * r + s) && r - bits_below(used[s], r as nat) == q;
                assert(in_block(cards, off, k, 4 * r + s));
            }
            if s == suit && q == hp {
                assert(in_block(cards, off, k, 4 * (rank as int) + s));
            }
        }
    }
}

/// Two rounds whose blocks hold the same cards give the same ranks and
/// packed ranks per suit, whatever their order.
proof fn lemma_round_cards_same(cards: Seq<u8>, cards2: Seq<u8>, off: int, k: int, used: Seq<u32>)
    requires
        0 <= k,
        0 <= off,
        off + k <= cards.len(),
        off + k <= cards2.len(),
        used.len() == 4,
        forall|j: int| 0 <= j < k ==> #[trigger] cards[off + j] < 52,
        forall|j: int| 0 <= j < k ==> #[trigger] cards2[off + j] < 52,
        forall|c: int| #[trigger] in_block(cards, off, k, c) == in_block(cards2, off, k, c),
    ensures
        round_cards(cards, off, k, used) == round_cards(cards2, off, k, used),
{
    lemma_round_cards_bits(cards, off, k, used);
    lemma_round_cards_bits(cards2, off, k, used);
    let a = round_cards(cards, off, k, used);
    let b = round_cards(cards2, off, k, used);
    assert forall|s: int| 0 <= s < 4 implies a.0[s] == b.0[s] && a.1[s] == b.1[s] by {
        assert forall|q: u32| q < 13 implies #[trigger] bit(a.0[s], q) == bit(b.0[s], q) by {
            assert(bit(a.0[s], q) == in_block(cards, off, k, 4 * q + s));
            assert(bit(b.0[s], q) == in_block(cards2, off, k, 4 * q + s));
        }
        assert forall|q: u32| q < 13 implies #[trigger] bit(a.1[s], q) == bit(b.1[s], q) by {
            assert(bit(a.1[s], q) == packed_hit(cards, off, k, used[s], s, q as int));
            assert(bit(b.1[s], q) == packed_hit(cards2, off, k, used[s], s, q as int));
            if packed_hit(cards, off, k, used[s], s, q as int) {
                let r = choose|r: int| 0 <= r < 13 && #[trigger] in_block(cards, off, k, 4 * r + s) && r - bits_below(used[s], r as nat) == q;
                assert(in_block(cards2, off, k, 4 * r + s));
            }
            if packed_hit(cards2, off, k, used[s], s, q as int) {
                let r = choose|r: int| 0 <= r < 13 && #[trigger] in_block(cards2, off, k, 4 * r + s) && r - bits_below(used[s], r as nat) == q;
                assert(in_block(cards, off, k, 4 * r + s));
            }
        }
        lemma_rank_sets_equal_bits(a.0[s], b.0[s]);
        lemma_rank_sets_equal_bits(a.1[s], b.1[s]);
    }
    assert(a.0 =~= b.0);
    assert(a.1 =~= b.1);
}

/// Mutable state for incremental indexing.
struct IndexState {
    suit_index: [u64; 4],
    suit_multiplier: [u64; 4],
    round: u32,
    permutation_index: u64,
    permutation_multiplier: u64,
    used_ranks: [u32; 4],
    index: u64,
}

impl IndexState {
    /// The state as values.
    spec fn values(&self) -> IndexView {
        IndexView {
            suit_index: self.suit_index@,
            suit_multiplier: self.suit_multiplier@,
            round: self.round,
            permutation_index: self.permutation_index,
            permutation_multiplier: self.permutation_multiplier,
            used_ranks: self.used_ranks@,
            index: self.index,
        }
    }

    fn new() -> (s: Self)
        ensures
            s.round == 0,
            forall|k: int| 0 <= k < 4 ==> #[trigger] s.used_ranks@[k] == 0,
            s.values() == initial_view(),
    {
        let s = IndexState {
            suit_index: [0; 4],
            suit_multiplier: [1; 4],
            round: 0,
            permutation_index: 0,
            permutation_multiplier: 1,
            used_ranks: [0; 4],
            index: 0,
        };
        assert(s.suit_index@ =~= initial_view().suit_index);
        assert(s.suit_multiplier@ =~= initial_view().suit_multiplier);
        assert(s.used_ranks@ =~= initial_view().used_ranks);
        s
    }
}

impl HandIndexer {
    /// The state after the round `round` of `cards`, found at `off`, is
    /// folded into `st`: each suit's index grows by the colex rank of its
    /// new ranks packed below the ranks it already has, its multiplier by
    /// the number of such rank sets; the permutation index records the
    /// suits' counts; and the index is the offset of the configuration
    /// those counts sort to plus the runs of equal suits' parts, taken in
    /// the sorting suit order.
    pub closed spec fn round_values(&self, cards: Seq<u8>, off: int, st: IndexView, round: nat) -> IndexView {
        let ri = round as int;
        let n = self.cards_per_round@[ri] as int;
        let rc = round_cards(cards, off, n, st.used_ranks);
        let ranks = rc.0;
        let sh = rc.1;
        let rank_index = self.tables.rank_set_to_index@;
        let si = Seq::new(4, |i: int| suit_step(rank_index, st, ranks, sh, i).0);
        let sm = Seq::new(4, |i: int| suit_step(rank_index, st, ranks, sh, i).1);
        let used = Seq::new(4, |i: int| suit_step(rank_index, st, ranks, sh, i).2);
        let pr = perm_round(ranks, 0, st.permutation_index, st.permutation_multiplier, self.cards_per_round@[ri] as u64);
        let pidx = pr.0;
        let configuration: u32 = if pidx < self.permutation_to_configuration@[ri].len() {
            self.permutation_to_configuration@[ri]@[pidx as int]
        } else {
            0
        };
        let pi_index: u32 = if pidx < self.permutation_to_pi@[ri].len() {
            self.permutation_to_pi@[ri]@[pidx as int]
        } else {
            0
        };
        let ci = configuration as int;
        let equal_index: u32 = if ci < self.configuration_to_equal@[ri].len() {
            self.configuration_to_equal@[ri]@[ci]
        } else {
            0
        };
        let offset: u64 = if ci < self.configuration_to_offset@[ri].len() {
            self.configuration_to_offset@[ri]@[ci]
        } else {
            0
        };
        let pi: Seq<u32> = if pi_index < 24 {
            self.tables.suit_permutations@[pi_index as int]@
        } else {
            seq![0u32, 1u32, 2u32, 3u32]
        };
        let eq = self.tables.equal@[equal_index as int]@;
        let psi = Seq::new(4, |k: int| si[pi[k] as int]);
        let psm = Seq::new(4, |k: int| sm[pi[k] as int]);
        IndexView {
            suit_index: si,
            suit_multiplier: sm,
            round: (st.round + 1) as u32,
            permutation_index: pr.0,
            permutation_multiplier: pr.1,
            used_ranks: used,
            index: group_fold(eq, psi, psm, 0, offset, 1),
        }
    }

    /// The state after rounds `0..k` of `cards`.
    pub closed spec fn values_after(&self, cards: Seq<u8>, k: nat) -> IndexView
        decreases k,
    {
        if k == 0 {
            initial_view()
        } else {
            self.round_values(
                cards,
                total_cards(self.cards_per_round@, k - 1),
                self.values_after(cards, (k - 1) as nat),
                (k - 1) as nat,
            )
        }
    }

    /// The index of the hand `cards`: the index after its last round.
    pub closed spec fn hand_index(&self, cards: Seq<u8>) -> u64 {
        self.values_after(cards, self.rounds as nat).index
    }
}

impl HandIndexer {
    /// Map a hand dealt round by round (the first `cards_per_round[0]`
    /// cards, then the next `cards_per_round[1]`, and so on) to the index
    /// of its suit-isomorphism class in the last round.
    pub fn get_index(&self, cards: &[u8]) -> (r: u64)
        requires
            self.wf(),
            valid_cards(cards@, total_cards(self.spec_cards_per_round(), self.spec_rounds() as int)),
        ensures
            r == self.hand_index(cards@),
    {
        let mut state = IndexState::new();
        let mut off: usize = 0;
        let mut i: usize = 0;
        while i < self.rounds as usize
            invariant
                self.wf(),
                i <= self.rounds,
                valid_cards(cards@, total_cards(self.cards_per_round@, self.rounds as int)),
                off == total_cards(self.cards_per_round@, i as int),
                state.round == i,
                state.values() == self.values_after(cards@, i as nat),
            decreases self.rounds - i,
        {
            proof {
                lemma_total_cards_mono(self.cards_per_round@, (i + 1) as int, self.rounds as int);
            }
            let n = self.cards_per_round[i] as usize;
            self.next_round(cards, off, &mut state, i as u32);
            off = off + n;
            i = i + 1;
        }
        state.index
    }

    /// Incremental indexer: folds the cards of round `round` (found at
    /// `cards[off..]`) into `state`, leaving the index after that round in
    /// `state.index`. Index arithmetic wraps at `2^64`.
    fn next_round(&self, cards: &[u8], off: usize, state: &mut IndexState, round: u32)
        requires
            self.wf(),
            round < self.rounds,
            old(state).round == round,
            off == total_cards(self.cards_per_round@, round as int),
            valid_cards(cards@, total_cards(self.cards_per_round@, self.rounds as int)),
        ensures
            final(state).round == round + 1,
            final(state).values() == self.round_values(cards@, off as int, old(state).values(), round as nat),
    {
        proof {
            lemma_total_cards_mono(self.cards_per_round@, (round + 1) as int, self.rounds as int);
        }
        let ghost st0 = state.values();
        let ghost spec_out = self.round_values(cards@, off as int, st0, round as nat);
        let r = state.round;
        state.round = state.round + 1;
        let t = &self.tables;

        let mut ranks: [u32; 4] = [0; 4];
        let mut shifted_ranks: [u32; 4] = [0; 4];
        let n = self.cards_per_round[r as usize] as usize;
        assert(off + n == total_cards(self.cards_per_round@, round as int + 1));
        assert(off + n <= 52);
        proof {
            assert(ranks@ =~= Seq::new(4, |i: int| 0u32));
            assert(shifted_ranks@ =~= Seq::new(4, |i: int| 0u32));
        }
        let mut i: usize = 0;
        while i < n
            invariant
                i <= n,
                off + n <= cards@.len(),
                off + n <= 52,
                off + n == total_cards(self.cards_per_round@, round as int + 1),
                valid_cards(cards@, total_cards(self.cards_per_round@, self.rounds as int)),
                total_cards(self.cards_per_round@, round as int + 1) <= total_cards(
                    self.cards_per_round@,
                    self.rounds as int,
                ),
                state.round == round + 1,
                state.used_ranks@ == st0.used_ranks,
                (ranks@, shifted_ranks@) == round_cards(cards@, off as int, i as int, st0.used_ranks),
            decreases n - i,
        {
            let card = cards[off + i];
            let rank = card_rank(card) as u32;
            let suit = card_suit(card) as usize;
            let rank_bit = 1u32 << rank;
            let prior_pop = count_bits_below(state.used_ranks[suit], rank);
            let ghost prev = (ranks@, shifted_ranks@);
            ranks[suit] = ranks[suit] | rank_bit;
            shifted_ranks[suit] = shifted_ranks[suit] | (rank_bit >> prior_pop);
            proof {
                assert(ranks@ =~= prev.0.update(suit as int, prev.0[suit as int] | rank_bit));
                assert(shifted_ranks@ =~= prev.1.update(suit as int, prev.1[suit as int] | (rank_bit >> prior_pop)));
            }
            i = i + 1;
        }
        let ghost rk = ranks@;
        let ghost sh = shifted_ranks@;
        let ghost rank_index = t.rank_set_to_index@;
        let mut i: usize = 0;
        while i < 4
            invariant
                i <= 4,
                t.wf(),
                t == &self.tables,
                rank_index == t.rank_set_to_index@,
                state.round == round + 1,
                state.permutation_index == st0.permutation_index,
                state.permutation_multiplier == st0.permutation_multiplier,
                ranks@ == rk,
                shifted_ranks@ == sh,
                st0.suit_index.len() == 4,
                st0.suit_multiplier.len() == 4,
                st0.used_ranks.len() == 4,
                forall|k: int| 0 <= k < i ==> #[trigger] state.suit_index@[k] == suit_step(rank_index, st0, rk, sh, k).0,
                forall|k: int| 0 <= k < i ==> #[trigger] state.suit_multiplier@[k] == suit_step(rank_index, st0, rk, sh, k).1,
                forall|k: int| 0 <= k < i ==> #[trigger] state.used_ranks@[k] == suit_step(rank_index, st0, rk, sh, k).2,
                forall|k: int| i <= k < 4 ==> #[trigger] state.suit_index@[k] == st0.suit_index[k],
                forall|k: int| i <= k < 4 ==> #[trigger] state.suit_multiplier@[k] == st0.suit_multiplier[k],
                forall|k: int| i <= k < 4 ==> #[trigger] state.used_ranks@[k] == st0.used_ranks[k],
            decreases 4 - i,
        {
            let ghost si_before = state.suit_index@;
            let ghost sm_before = state.suit_multiplier@;
            let ghost ur_before = state.used_ranks@;
            let used_size = count_bits_below(state.used_ranks[i], 32);
            let this_size = count_bits_below(ranks[i], 32);
            let shifted = shifted_ranks[i];
            let rs = if shifted < 8192 {
                t.rank_set_to_index[shifted as usize]
            } else {
                0
            };
            state.suit_index[i] = state.suit_index[i].wrapping_add(
                state.suit_multiplier[i].wrapping_mul(rs as u64),
            );
            let f = if used_size <= 13 && this_size <= 13 {
                ncr_ranks(t, 13 - used_size, this_size)
            } else {
                0
            };
            state.suit_multiplier[i] = state.suit_multiplier[i].wrapping_mul(f as u64);
            state.used_ranks[i] = state.used_ranks[i] | ranks[i];
            proof {
                let step = suit_step(rank_index, st0, rk, sh, i as int);
                assert(used_size == bits_below(st0.used_ranks[i as int], 32));
                assert(this_size == bits_below(rk[i as int], 32));
                assert(state.suit_index@[i as int] == step.0);
                assert(state.suit_multiplier@[i as int] == step.1);
                assert(state.used_ranks@[i as int] == step.2);
                assert forall|k: int| 0 <= k < 4 && k != i implies #[trigger] state.suit_index@[k] == si_before[k] by {}
                assert forall|k: int| 0 <= k < 4 && k != i implies #[trigger] state.suit_multiplier@[k] == sm_before[k] by {}
                assert forall|k: int| 0 <= k < 4 && k != i implies #[trigger] state.used_ranks@[k] == ur_before[k] by {}
            }
            i = i + 1;
        }
        proof {
            assert(state.suit_index@ =~= spec_out.suit_index);
            assert(state.suit_multiplier@ =~= spec_out.suit_multiplier);
            assert(state.used_ranks@ =~= spec_out.used_ranks);
        }
        let mut remaining: u64 = self.cards_per_round[r as usize] as u64;
        let ghost pr = perm_round(rk, 0, st0.permutation_index, st0.permutation_multiplier, remaining);
        let mut i: usize = 0;
        while i < 3
            invariant
                i <= 3,
                state.round == round + 1,
                ranks@ == rk,
                perm_round(rk, i as nat, state.permutation_index, state.permutation_multiplier, remaining) == pr,
                state.suit_index@ == spec_out.suit_index,
                state.suit_multiplier@ == spec_out.suit_multiplier,
                state.used_ranks@ == spec_out.used_ranks,
            decreases 3 - i,
        {
            let this_size = count_bits_below(ranks[i], 32) as u64;
            state.permutation_index = state.permutation_index.wrapping_add(
                state.permutation_multiplier.wrapping_mul(this_size),
            );
            state.permutation_multiplier = state.permutation_multiplier.wrapping_mul(
                remaining.wrapping_add(1),
            );
            remaining = remaining.wrapping_sub(this_size);
            i = i + 1;
        }
        let ri = round as usize;
        proof {
            let _ = self.configuration_to_suit_size@[ri as int];
        }
        let pidx = state.permutation_index;
        let configuration: u32 = if pidx < self.permutation_to_configuration[ri].len() as u64 {
            self.permutation_to_configuration[ri][pidx as usize]
        } else {
            0
        };
        let pi_index: u32 = if pidx < self.permutation_to_pi[ri].len() as u64 {
            self.permutation_to_pi[ri][pidx as usize]
        } else {
            0
        };
        let ci = configuration as usize;
        let equal_index: u32 = if ci < self.configuration_to_equal[ri].len() {
            self.configuration_to_equal[ri][ci]
        } else {
            0
        };
        let offset: u64 = if ci < self.configuration_to_offset[ri].len() {
            self.configuration_to_offset[ri][ci]
        } else {
            0
        };
        let pi: [u32; 4] = if pi_index < 24 {
            t.suit_permutations[pi_index as usize]
        } else {
            [0, 1, 2, 3]
        };
        proof {
            if !(pi_index < 24) {
                assert(pi@ =~= seq![0u32, 1u32, 2u32, 3u32]);
            }
        }
        let eq = &t.equal[equal_index as usize];

        let mut suit_index: [u64; 4] = [0; 4];
        let mut suit_multiplier: [u64; 4] = [0; 4];
        let mut i: usize = 0;
        while i < 4
            invariant
                i <= 4,
                forall|k: int| 0 <= k < 4 ==> #[trigger] pi@[k] < 4,
                forall|k: int| 0 <= k < i ==> #[trigger] suit_index@[k] == state.suit_index@[pi@[k] as int],
                forall|k: int| 0 <= k < i ==> #[trigger] suit_multiplier@[k] == state.suit_multiplier@[pi@[k] as int],
            decreases 4 - i,
        {
            let ghost si0 = suit_index@;
            let ghost sm0 = suit_multiplier@;
            suit_index[i] = state.suit_index[pi[i] as usize];
            suit_multiplier[i] = state.suit_multiplier[pi[i] as usize];
            proof {
                assert forall|k: int| 0 <= k < i implies #[trigger] suit_index@[k] == si0[k] by {}
                assert forall|k: int| 0 <= k < i implies #[trigger] suit_multiplier@[k] == sm0[k] by {}
            }
            i = i + 1;
        }
        let ghost eqs = eq@;
        let ghost sm0 = suit_multiplier@;
        let ghost target = group_fold(eqs, suit_index@, sm0, 0, offset, 1);
        proof {
            assert(suit_index@ =~= Seq::new(4, |k: int| spec_out.suit_index[pi@[k] as int]));
            assert(sm0 =~= Seq::new(4, |k: int| spec_out.suit_multiplier[pi@[k] as int]));
        }

        let mut index: u64 = offset;
        let mut multiplier: u64 = 1;
        let mut i: usize = 0;
        while i < 4
            invariant
                i <= 4,
                t.wf(),
                eq@ == eqs,
                suit_multiplier@ == sm0,
                group_fold(eqs, suit_index@, sm0, i as int, index, multiplier) == target,
            decreases 4 - i,
        {
            let part: u64;
            let size: u64;
            let advance: usize;
            if i + 1 < 4 && eq[i + 1] {
                if i + 2 < 4 && eq[i + 2] {
                    if i + 3 < 4 && eq[i + 3] {
                        // four equal suits
                        sort2(&mut suit_index, i, i + 1);
                        sort2(&mut suit_index, i + 2, i + 3);
                        sort2(&mut suit_index, i, i + 2);
                        sort2(&mut suit_index, i + 1, i + 3);
                        sort2(&mut suit_index, i + 1, i + 2);
                        part = suit_index[i].wrapping_add(
                            ncr_groups(t, suit_index[i + 1].wrapping_add(1), 2),
                        ).wrapping_add(ncr_groups(t, suit_index[i + 2].wrapping_add(2), 3)).wrapping_add(
                            ncr_groups(t, suit_index[i + 3].wrapping_add(3), 4),
                        );
                        size = ncr_groups(t, suit_multiplier[i].wrapping_add(3), 4);
                        advance = 4;
                    } else {
                        // three equal suits
                        sort2(&mut suit_index, i, i + 1);
                        sort2(&mut suit_index, i, i + 2);
                        sort2(&mut suit_index, i + 1, i + 2);
                        part = suit_index[i].wrapping_add(
                            ncr_groups(t, suit_index[i + 1].wrapping_add(1), 2),
                        ).wrapping_add(ncr_groups(t, suit_index[i + 2].wrapping_add(2), 3));
                        size = ncr_groups(t, suit_multiplier[i].wrapping_add(2), 3);
                        advance = 3;
                    }
                } else {
                    // two equal suits
                    sort2(&mut suit_index, i, i + 1);
                    part = suit_index[i].wrapping_add(
                        ncr_groups(t, suit_index[i + 1].wrapping_add(1), 2),
                    );
                    size = ncr_groups(t, suit_multiplier[i].wrapping_add(1), 2);
                    advance = 2;
                }
            } else {
                // no equal suits
                part = suit_index[i];
                size = suit_multiplier[i];
                advance = 1;
            }
            index = index.wrapping_add(multiplier.wrapping_mul(part));
            multiplier = multiplier.wrapping_mul(size);
            i = i + advance;
        }
        state.index = index;
        proof {
            assert(state.values() == spec_out);
        }
    }
}

proof fn lemma_in_block_sub(cards: Seq<u8>, off: int, n: int, c: int)
    requires
        0 <= off,
        0 <= n,
        off + n <= cards.len(),
    ensures
        in_block(cards, off, n, c) == (0 <= c < 256 && cards.subrange(off, off + n).contains(c as u8)),
{
    let sub = cards.subrange(off, off + n);
    if in_block(cards, off, n, c) {
        let j = choose|j: int| 0 <= j < n && #[trigger] card_at(cards, off, j) == c;
        assert(sub[j] == cards[off + j]);
    }
    if 0 <= c < 256 && sub.contains(c as u8) {
        let j = choose|j: int| 0 <= j < sub.len() && sub[j] == c as u8;
        assert(card_at(cards, off, j) == c);
    }
}

/// With the same cards in each round's block, in any order, the states
/// after the first `i` rounds agree.
proof fn lemma_values_same(idx: &HandIndexer, cards: Seq<u8>, cards2: Seq<u8>, i: nat)
    requires
        idx.wf(),
        i <= idx.rounds,
        valid_cards(cards, total_cards(idx.cards_per_round@, idx.rounds as int)),
        cards2.len() == cards.len(),
        forall|r: int|
            0 <= r < idx.rounds ==> #[trigger] cards2.subrange(
                total_cards(idx.cards_per_round@, r),
                total_cards(idx.cards_per_round@, r + 1),
            ).to_multiset() == cards.subrange(
                total_cards(idx.cards_per_round@, r),
                total_cards(idx.cards_per_round@, r + 1),
            ).to_multiset(),
    ensures
        idx.values_after(cards2, i) == idx.values_after(cards, i),
        idx.values_after(cards, i).used_ranks.len() == 4,
    decreases i,
{
    if i > 0 {
        let r = (i - 1) as int;
        lemma_values_same(idx, cards, cards2, (i - 1) as nat);
        let cpr = idx.cards_per_round@;
        let off = total_cards(cpr, r);
        let n = cpr[r] as int;
        lemma_total_cards_mono(cpr, 0, r);
        lemma_total_cards_mono(cpr, r + 1, idx.rounds as int);
        assert(total_cards(cpr, r + 1) == off + n);
        let a = cards.subrange(off, off + n);
        let b = cards2.subrange(off, off + n);
        assert(b.to_multiset() == a.to_multiset());
        a.to_multiset_ensures();
        b.to_multiset_ensures();
        assert forall|c: int| #[trigger] in_block(cards, off, n, c) == in_block(cards2, off, n, c) by {
            lemma_in_block_sub(cards, off, n, c);
            lemma_in_block_sub(cards2, off, n, c);
            if 0 <= c < 256 {
                assert(a.contains(c as u8) == (a.to_multiset().count(c as u8) > 0));
                assert(b.contains(c as u8) == (b.to_multiset().count(c as u8) > 0));
            }
        }
        assert forall|j: int| 0 <= j < n implies #[trigger] cards[off + j] < 52 by {
            assert(cards[off + j] < 52);
        }
        assert forall|j: int| 0 <= j < n implies #[trigger] cards2[off + j] < 52 by {
            assert(in_block(cards2, off, n, card_at(cards2, off, j)));
            let c = card_at(cards2, off, j);
            assert(in_block(cards, off, n, c) == in_block(cards2, off, n, c));
            assert(in_block(cards, off, n, c));
            let jj = choose|jj: int| 0 <= jj < n && #[trigger] card_at(cards, off, jj) == c;
            assert(0 <= off + jj < total_cards(cpr, idx.rounds as int));
            assert(cards[off + jj] < 52);
        }
        let st = idx.values_after(cards, (i - 1) as nat);
        lemma_round_cards_same(cards, cards2, off, n, st.used_ranks);
        lemma_round_cards_bits(cards, off, n, st.used_ranks);
    }
}

/// Reordering the cards inside each round's block keeps the index: a
/// hand's index depends on each round's cards, not on the order they
/// are listed in.
pub proof fn law_index_ignores_order_in_rounds(idx: &HandIndexer, cards: Seq<u8>, cards2: Seq<u8>)
    requires
        idx.wf(),
        valid_cards(cards, total_cards(idx.spec_cards_per_round(), idx.spec_rounds() as int)),
        cards2.len() == cards.len(),
        forall|r: int|
            0 <= r < idx.spec_rounds() ==> #[trigger] cards2.subrange(
                total_cards(idx.spec_cards_per_round(), r),
                total_cards(idx.spec_cards_per_round(), r + 1),
            ).to_multiset() == cards.subrange(
                total_cards(idx.spec_cards_per_round(), r),
                total_cards(idx.spec_cards_per_round(), r + 1),
            ).to_multiset(),
    ensures
        idx.hand_index(cards2) == idx.hand_index(cards),
{
    lemma_values_same(idx, cards, cards2, idx.rounds as nat);
}

/// `sigma` renames the four suits: suit `s` becomes suit `sigma[s]`.
pub open spec fn is_suit_perm(sigma: Seq<u32>) -> bool {
    &&& sigma.len() == 4
    &&& forall|s: int| 0 <= s < 4 ==> #[trigger] sigma[s] < 4
    &&& forall|a: int, b: int| 0 <= a < 4 && 0 <= b < 4 && a != b ==> #[trigger] sigma[a] != #[trigger] sigma[b]
}

/// The card `c` with its suit renamed by `sigma`, its rank kept.
pub open spec fn relabel_card(c: u8, sigma: Seq<u32>) -> u8 {
    (4 * spec_rank(c as int) + sigma[spec_suit(c as int)]) as u8
}

proof fn lemma_relabel_parts(c: u8, sigma: Seq<u32>)
    requires
        is_suit_perm(sigma),
        c < 52,
    ensures
        relabel_card(c, sigma) < 52,
        relabel_card(c, sigma) / 4 == c / 4,
        relabel_card(c, sigma) % 4 == sigma[c as int % 4],
{
    let q = c as int / 4;
    let t = sigma[c as int % 4] as int;
    assert(0 <= t < 4);
    assert(0 <= q < 13);
    assert(relabel_card(c, sigma) as int == 4 * q + t);
    assert((4 * q + t) / 4 == q && (4 * q + t) % 4 == t) by (nonlinear_arith)
        requires
            0 <= t < 4,
            0 <= q,
    ;
}

/// Renaming the suits of a round's cards renames the per-suit ranks
/// received and packed.
proof fn lemma_round_cards_relabel(
    cards: Seq<u8>,
    cards2: Seq<u8>,
    off: int,
    k: int,
    used: Seq<u32>,
    used2: Seq<u32>,
    sigma: Seq<u32>,
)
    requires
        is_suit_perm(sigma),
        used.len() == 4,
        used2.len() == 4,
        forall|s: int| 0 <= s < 4 ==> #[trigger] used2[sigma[s] as int] == used[s],
        forall|j: int|
            0 <= j < k ==> #[trigger] cards[off + j] < 52 && cards2[off + j] == relabel_card(cards[off + j], sigma),
    ensures
        round_cards(cards, off, k, used).0.len() == 4,
        round_cards(cards, off, k, used).1.len() == 4,
        round_cards(cards2, off, k, used2).0.len() == 4,
        round_cards(cards2, off, k, used2).1.len() == 4,
        forall|s: int|
            0 <= s < 4 ==> #[trigger] round_cards(cards2, off, k, used2).0[sigma[s] as int] == round_cards(
                cards,
                off,
                k,
                used,
            ).0[s] && round_cards(cards2, off, k, used2).1[sigma[s] as int] == round_cards(cards, off, k, used).1[s],
    decreases k,
{
    if k > 0 {
        lemma_round_cards_relabel(cards, cards2, off, k - 1, used, used2, sigma);
        let c = cards[off + k - 1];
        assert(cards[off + (k - 1)] < 52);
        lemma_relabel_parts(c, sigma);
        let suit = (c % 4) as int;
        let prev = round_cards(cards, off, k - 1, used);
        let prev2 = round_cards(cards2, off, k - 1, used2);
        let cur = round_cards(cards, off, k, used);
        let cur2 = round_cards(cards2, off, k, used2);
        assert(used2[sigma[suit] as int] == used[suit]);
        assert forall|s: int| 0 <= s < 4 implies #[trigger] cur2.0[sigma[s] as int] == cur.0[s]
            && cur2.1[sigma[s] as int] == cur.1[s] by {
            if s != suit {
                assert(sigma[s] != sigma[suit]);
                assert(prev2.0[sigma[s] as int] == prev.0[s]);
                assert(prev2.1[sigma[s] as int] == prev.1[s]);
            }
        }
    }
}

/// Renaming the suits of a hand renames the per-suit part of the state:
/// after any rounds, suit `sigma[s]` of the renamed hand has the index,
/// multiplier and ranks that suit `s` has in the hand.
proof fn lemma_values_relabel(idx: &HandIndexer, cards: Seq<u8>, cards2: Seq<u8>, sigma: Seq<u32>, i: nat)
    requires
        idx.wf(),
        i <= idx.rounds,
        is_suit_perm(sigma),
        valid_cards(cards, total_cards(idx.cards_per_round@, idx.rounds as int)),
        forall|j: int|
            0 <= j < total_cards(idx.cards_per_round@, idx.rounds as int) ==> #[trigger] cards2[j]
                == relabel_card(cards[j], sigma),
    ensures
        idx.values_after(cards, i).suit_index.len() == 4,
        idx.values_after(cards, i).suit_multiplier.len() == 4,
        idx.values_after(cards, i).used_ranks.len() == 4,
        idx.values_after(cards2, i).suit_index.len() == 4,
        idx.values_after(cards2, i).suit_multiplier.len() == 4,
        idx.values_after(cards2, i).used_ranks.len() == 4,
        forall|s: int|
            0 <= s < 4 ==> {
                &&& #[trigger] idx.values_after(cards2, i).suit_index[sigma[s] as int] == idx.values_after(
                    cards,
                    i,
                ).suit_index[s]
                &&& idx.values_after(cards2, i).suit_multiplier[sigma[s] as int] == idx.values_after(
                    cards,
                    i,
                ).suit_multiplier[s]
                &&& idx.values_after(cards2, i).used_ranks[sigma[s] as int] == idx.values_after(
                    cards,
                    i,
                ).used_ranks[s]
            },
    decreases i,
{
    if i > 0 {
        let r = (i - 1) as int;
        lemma_values_relabel(idx, cards, cards2, sigma, (i - 1) as nat);
        let cpr = idx.cards_per_round@;
        let off = total_cards(cpr, r);
        let n = cpr[r] as int;
        lemma_total_cards_mono(cpr, 0, r);
        lemma_total_cards_mono(cpr, r + 1, idx.rounds as int);
        assert(total_cards(cpr, r + 1) == off + n);
        let st = idx.values_after(cards, (i - 1) as nat);
        let st2 = idx.values_after(cards2, (i - 1) as nat);
        assert forall|j: int| 0 <= j < n implies #[trigger] cards[off + j] < 52 && cards2[off + j] == relabel_card(
            cards[off + j],
            sigma,
        ) by {
            assert(0 <= off + j < total_cards(cpr, idx.rounds as int));
        }
        assert forall|s: int| 0 <= s < 4 implies #[trigger] st2.used_ranks[sigma[s] as int] == st.used_ranks[s] by {
            assert(st2.suit_index[sigma[s] as int] == st.suit_index[s]);
        }
        lemma_round_cards_relabel(cards, cards2, off, n, st.used_ranks, st2.used_ranks, sigma);
        let rc = round_cards(cards, off, n, st.used_ranks);
        let rc2 = round_cards(cards2, off, n, st2.used_ranks);
        let rank_index = idx.tables.rank_set_to_index@;
        assert forall|s: int| 0 <= s < 4 implies #[trigger] suit_step(rank_index, st2, rc2.0, rc2.1, sigma[s] as int)
            == suit_step(rank_index, st, rc.0, rc.1, s) by {
            assert(st2.suit_index[sigma[s] as int] == st.suit_index[s]);
            assert(rc2.0[sigma[s] as int] == rc.0[s]);
        }
        let v = idx.values_after(cards, i);
        let v2 = idx.values_after(cards2, i);
        assert forall|s: int| 0 <= s < 4 implies {
            &&& #[trigger] v2.suit_index[sigma[s] as int] == v.suit_index[s]
            &&& v2.suit_multiplier[sigma[s] as int] == v.suit_multiplier[s]
            &&& v2.used_ranks[sigma[s] as int] == v.used_ranks[s]
        } by {
            assert(suit_step(rank_index, st2, rc2.0, rc2.1, sigma[s] as int) == suit_step(rank_index, st, rc.0, rc.1, s));
        }
    }
}

/// Renaming the suits of a hand renames the per-suit indexing state:
/// after any number of rounds, suit `sigma[s]` of the renamed hand has the
/// rank-set index, multiplier and ranks received that suit `s` has in the
/// hand. (The permutation tables then map both hands to one
/// configuration; that step is not stated here.)
pub proof fn law_suit_state_follows_relabelling(
    idx: &HandIndexer,
    cards: Seq<u8>,
    cards2: Seq<u8>,
    sigma: Seq<u32>,
    rounds_seen: nat,
)
    requires
        idx.wf(),
        rounds_seen <= idx.spec_rounds(),
        is_suit_perm(sigma),
        valid_cards(cards, total_cards(idx.spec_cards_per_round(), idx.spec_rounds() as int)),
        forall|j: int|
            0 <= j < total_cards(idx.spec_cards_per_round(), idx.spec_rounds() as int) ==> #[trigger] cards2[j]
                == relabel_card(cards[j], sigma),
    ensures
        forall|s: int|
            0 <= s < 4 ==> {
                &&& #[trigger] idx.values_after(cards2, rounds_seen).suit_index[sigma[s] as int]
                    == idx.values_after(cards, rounds_seen).suit_index[s]
                &&& idx.values_after(cards2, rounds_seen).suit_multiplier[sigma[s] as int] == idx.values_after(
                    cards,
                    rounds_seen,
                ).suit_multiplier[s]
                &&& idx.values_after(cards2, rounds_seen).used_ranks[sigma[s] as int] == idx.values_after(
                    cards,
                    rounds_seen,
                ).used_ranks[s]
            },
{
    lemma_values_relabel(idx, cards, cards2, sigma, rounds_seen);
}

impl HandIndexer {
    /// Recover the canonical cards for a given (round, index): the cards of
    /// rounds `0..=round` are written to `cards`, each round's cards from
    /// that round's start position.
    pub fn get_hand(&self, round: u32, index: u64, cards: &mut [u8])
        requires
            self.wf(),
            round < self.spec_rounds(),
            index < self.spec_round_size()[round as int],
            old(cards)@.len() >= total_cards(self.spec_cards_per_round(), round + 1),
        ensures
            final(cards)@.len() == old(cards)@.len(),
            valid_cards(final(cards)@, total_cards(self.spec_cards_per_round(), round + 1)),
            forall|p: int|
                total_cards(self.spec_cards_per_round(), round + 1) <= p < final(cards)@.len()
                    ==> #[trigger] final(cards)@[p] == old(cards)@[p],
    {
        unindex(self, round, index, cards);
    }
}

/// Lowest set bit position of `x`, or 32 when `x` is zero.
fn lowest_bit(x: u32) -> (b: u32)
    ensures
        b <= 32,
        b < 32 ==> bit(x, b),
        forall|q: u32| q < b ==> !bit(x, q),
{
    let mut b: u32 = 0;
    while b < 32 && (x >> b) & 1 == 0
        invariant
            b <= 32,
            forall|q: u32| q < b ==> !bit(x, q),
        decreases 32 - b,
    {
        assert(!bit(x, b));
        b = b + 1;
    }
    if b < 32 {
        proof {
            lemma_low_bit(x >> b);
        }
    }
    b
}

/// Decodes the ranks a suit receives in one round: `round_idx` is the
/// colex rank of an `n`-element set of positions among the thirteen
/// ranks minus the `m` ranks of `used`, and each position `p` stands for
/// the `p`-th rank absent from `used`. Returns those ranks in increasing
/// order together with `used` extended by them.
fn decode_ranks(t: &StaticTables, used: u32, m: u32, n: u32, round_idx: u64) -> (res: (Vec<u8>, u32))
    requires
        t.wf(),
        used < 8192,
        pop_from(used, 0) == m,
        m + n <= 13,
        round_idx < binom((13 - m) as nat, n as nat),
    ensures
        res.0.len() == n,
        forall|i: int| 0 <= i < n ==> #[trigger] res.0@[i] < 13 && !bit(used, res.0@[i] as u32),
        forall|i: int, j: int| 0 <= i < j < n ==> #[trigger] res.0@[i] < #[trigger] res.0@[j],
        res.1 < 8192,
        pop_from(res.1, 0) == m + n,
        forall|q: u32| q < 13 ==> #[trigger] bit(res.1, q) == (bit(used, q) || res.0@.contains(q as u8)),
{
    let w: u32 = 13 - m;
    let ghost x: u32;
    proof {
        lemma_binom_mono(w as nat, 13, n as nat);
        x = lemma_colex_onto(13, n as nat, round_idx as nat);
        lemma_shift_consts();
        assert(t.rank_set_to_index@[x as int] == rank_set_index(x));
        assert(t.index_to_rank_set@[n as int].len() == binom(13, n as nat));
    }
    let y: u32 = t.index_to_rank_set[n as usize][round_idx as usize];
    proof {
        assert(t.index_to_rank_set@[n as int]@[t.rank_set_to_index@[x as int] as int] == y);
        assert(t.rank_set_to_index@[y as int] == rank_set_index(y));
        lemma_colex_small(y, 13, w);
    }
    let mut sc: u32 = y;
    let mut ranks: Vec<u8> = Vec::new();
    let mut cur: u32 = used;
    let ghost mut prev: int = -1;
    let mut k: u32 = 0;
    while k < n
        invariant
            t.wf(),
            used < 8192,
            pop_from(used, 0) == m,
            w == 13 - m,
            m + n <= 13,
            k <= n,
            sc < (1u32 << w),
            pop_from(sc, 0) == n - k,
            -1 <= prev < 13,
            forall|q: u32| q <= prev ==> !bit(sc, q),
            ranks.len() == k,
            k > 0 ==> prev >= 0 && ranks@[k - 1] == nth_clear(used, prev as nat, 0),
            k > 0 ==> prev + m < 13,
            forall|i: int| 0 <= i < k ==> #[trigger] ranks@[i] < 13 && !bit(used, ranks@[i] as u32),
            forall|i: int, j: int| 0 <= i < j < k ==> #[trigger] ranks@[i] < #[trigger] ranks@[j],
            cur < 8192,
            pop_from(cur, 0) == m + k,
            forall|q: u32| q < 13 ==> #[trigger] bit(cur, q) == (bit(used, q) || ranks@.contains(q as u8)),
        decreases n - k,
    {
        let ghost q0 = lemma_pop_witness(sc, 0);
        let low = lowest_bit(sc);
        proof {
            assert(low <= q0) by {
                if low > q0 {
                    assert(!bit(sc, q0));
                }
            }
            lemma_bit_below(sc, low, w);
            assert(low as int > prev);
            lemma_nth_clear(used, low as nat, 0);
            if k > 0 {
                lemma_nth_clear_mono(used, prev as nat, low as nat, 0);
            }
            let _ = t.nth_unset@[used as int];
        }
        let rank: u8 = t.nth_unset[used as usize][low as usize];
        proof {
            lemma_pop_clear(sc, low, 0);
            assert forall|q: u32| q <= low implies !bit(sc ^ (1u32 << low), q) by {
                let z = sc ^ (1u32 << low);
                assert(q < low ==> !bit(sc, q));
                assert(bit(sc, low));
                lemma_bit_update(sc, low, q);
            }
            assert(!ranks@.contains(rank)) by {
                if ranks@.contains(rank) {
                    let i = ranks@.index_of(rank);
                    assert(ranks@[i] <= ranks@[k - 1]);
                }
            }
            assert(!bit(cur, rank as u32));
            lemma_pop_set(cur, rank as u32, 0);
            lemma_bit_update(cur, rank as u32, 0);
        }
        sc = sc ^ (1u32 << low);
        let ghost old_cur = cur;
        let ghost old_ranks = ranks@;
        cur = cur | (1u32 << (rank as u32));
        ranks.push(rank);
        proof {
            prev = low as int;
            assert(ranks@ == old_ranks.push(rank));
            assert forall|q: u32| q < 13 implies #[trigger] bit(cur, q) == (bit(used, q) || ranks@.contains(q as u8)) by {
                let rr = rank as u32;
                lemma_bit_update(old_cur, rr, q);
                assert(bit(old_cur, q) == (bit(used, q) || old_ranks.contains(q as u8)));
                if ranks@.contains(q as u8) && !old_ranks.contains(q as u8) {
                    let i = ranks@.index_of(q as u8);
                    assert(i == k);
                }
                if old_ranks.contains(q as u8) {
                    let i = old_ranks.index_of(q as u8);
                    assert(ranks@[i] == q as u8);
                }
                if q == rr {
                    assert(ranks@[k as int] == q as u8);
                }
            }
        }
        k = k + 1;
    }
    (ranks, cur)
}

/// Round holding position `p` of a hand dealt by `cpr`, searching from
/// round `r`: the first round whose cards reach past `p`.
pub open spec fn pos_round(cpr: Seq<u8>, p: int, r: int) -> int
    decreases 8 - r,
{
    if r >= 8 {
        8
    } else if p < total_cards(cpr, r + 1) {
        r
    } else {
        pos_round(cpr, p, r + 1)
    }
}

/// Position `p` of the output has been written: `loc[j]` is the next
/// position to write in round `j`.
pub open spec fn written(loc: Seq<u8>, cpr: Seq<u8>, rounds: nat, p: int) -> bool {
    0 <= p < total_cards(cpr, rounds as int) && p < loc[pos_round(cpr, p, 0)]
}

/// The written positions hold distinct real cards of suits up to `s`;
/// a card of suit `s` has its rank in `used` or among `extra`.
pub open spec fn placed(
    cards: Seq<u8>,
    loc: Seq<u8>,
    cpr: Seq<u8>,
    rounds: nat,
    s: int,
    used: u32,
    extra: Seq<u8>,
) -> bool {
    &&& forall|p: int|
        #[trigger] written(loc, cpr, rounds, p) ==> {
            &&& cards[p] < 52
            &&& spec_suit(cards[p] as int) <= s
            &&& spec_suit(cards[p] as int) == s ==> (bit(used, spec_rank(cards[p] as int) as u32)
                || extra.contains(spec_rank(cards[p] as int) as u8))
        }
    &&& forall|p: int, q: int|
        #[trigger] written(loc, cpr, rounds, p) && #[trigger] written(loc, cpr, rounds, q) && p != q
            ==> cards[p] != cards[q]
}

/// Next output position of round `j` once suits `0..s` are placed and
/// suit `s` has placed its ranks of rounds `0..r` and `k` ranks of round
/// `r`.
pub open spec fn next_position(
    cpr: Seq<u8>,
    config: [u32; 4],
    rounds: nat,
    s: nat,
    r: nat,
    k: nat,
    j: nat,
) -> int {
    total_cards(cpr, j as int) + partial_total(config, rounds, j, s) + (if j < r {
        dg(config@[s as int], rounds, j)
    } else {
        0
    }) + (if j == r {
        k
    } else {
        0
    })
}

/// What placing the cards of configuration `config` of round `round`
/// relies on: a canonical configuration, nothing past `round`, and at
/// most thirteen ranks per suit.
pub open spec fn placement_ctx(indexer: &HandIndexer, round: nat, config: [u32; 4]) -> bool {
    &&& indexer.wf()
    &&& round < indexer.spec_rounds()
    &&& canonical(indexer.spec_rounds(), indexer.spec_cards_per_round(), round, config)
    &&& forall|ss: int, j: nat|
        0 <= ss < 4 && round < j < indexer.spec_rounds() ==> #[trigger] dg(
            config@[ss],
            indexer.spec_rounds(),
            j,
        ) == 0
    &&& forall|ss: int, j: nat|
        0 <= ss < 4 && j <= indexer.spec_rounds() ==> #[trigger] used_upto(
            config@[ss],
            indexer.spec_rounds(),
            j,
        ) <= 13
}

proof fn lemma_pos_round(cpr: Seq<u8>, p: int, r: int, r0: int)
    requires
        0 <= r0 <= r < 8,
        total_cards(cpr, r) <= p < total_cards(cpr, r + 1),
    ensures
        pos_round(cpr, p, r0) == r,
    decreases r - r0,
{
    if r0 < r {
        lemma_total_cards_mono(cpr, r0 + 1, r);
        lemma_pos_round(cpr, p, r, r0 + 1);
    }
}

proof fn lemma_pos_round_some(cpr: Seq<u8>, p: int, n: int) -> (r: int)
    requires
        0 <= p < total_cards(cpr, n),
        n <= 8,
    ensures
        0 <= r < n,
        total_cards(cpr, r) <= p < total_cards(cpr, r + 1),
        pos_round(cpr, p, 0) == r,
    decreases n,
{
    if p < total_cards(cpr, n - 1) {
        lemma_pos_round_some(cpr, p, n - 1)
    } else {
        lemma_pos_round(cpr, p, n - 1, 0);
        n - 1
    }
}

proof fn lemma_used_upto_tail(c: u32, rounds: nat, round: nat, n: nat)
    requires
        round < rounds,
        n <= rounds,
        forall|j: nat| round < j < rounds ==> #[trigger] dg(c, rounds, j) == 0,
    ensures
        used_upto(c, rounds, n) <= used_upto(c, rounds, round + 1),
    decreases n,
{
    if n <= round + 1 {
        lemma_used_upto_mono(c, rounds, n, round + 1);
    } else {
        lemma_used_upto_tail(c, rounds, round, (n - 1) as nat);
        assert(dg(c, rounds, (n - 1) as nat) == 0);
    }
}

/// Writing card `4 * ranks[k] + s` at the next position `p0` of round
/// `r` adds exactly that position to the written ones and keeps the
/// placed cards distinct.
proof fn lemma_place_step(
    c0: Seq<u8>,
    loc0: Seq<u8>,
    cpr: Seq<u8>,
    rounds: nat,
    s: int,
    used: u32,
    ranks: Seq<u8>,
    k: int,
    r: int,
    p0: int,
)
    requires
        0 <= s < 4,
        0 <= k < ranks.len(),
        0 <= r < rounds <= 8,
        loc0.len() == 8,
        forall|i: int| 0 <= i < ranks.len() ==> #[trigger] ranks[i] < 13 && !bit(used, ranks[i] as u32),
        forall|i: int, j: int| 0 <= i < j < ranks.len() ==> #[trigger] ranks[i] < #[trigger] ranks[j],
        p0 == loc0[r],
        total_cards(cpr, r) <= p0 < total_cards(cpr, r + 1),
        total_cards(cpr, rounds as int) <= 52,
        total_cards(cpr, rounds as int) <= c0.len(),
        placed(c0, loc0, cpr, rounds, s, used, ranks.subrange(0, k)),
    ensures
        placed(
            c0.update(p0, (4 * ranks[k] + s) as u8),
            loc0.update(r, (p0 + 1) as u8),
            cpr,
            rounds,
            s,
            used,
            ranks.subrange(0, k + 1),
        ),
        forall|p: int|
            #[trigger] written(loc0.update(r, (p0 + 1) as u8), cpr, rounds, p) == (written(
                loc0,
                cpr,
                rounds,
                p,
            ) || p == p0),
{
    let card = (4 * ranks[k] + s) as u8;
    let c1 = c0.update(p0, card);
    let loc1 = loc0.update(r, (p0 + 1) as u8);
    lemma_pos_round(cpr, p0, r, 0);
    lemma_total_cards_mono(cpr, r + 1, rounds as int);
    assert forall|p: int| #[trigger]
        written(loc1, cpr, rounds, p) == (written(loc0, cpr, rounds, p) || p == p0) by {
        if 0 <= p < total_cards(cpr, rounds as int) {
            let rp = lemma_pos_round_some(cpr, p, rounds as int);
            if rp != r {
                assert(loc1[rp] == loc0[rp]);
                assert(p != p0);
            }
        }
    }
    let e0 = ranks.subrange(0, k);
    let e1 = ranks.subrange(0, k + 1);
    assert(spec_suit(card as int) == s && spec_rank(card as int) == ranks[k]);
    assert forall|p: int| #[trigger] written(loc1, cpr, rounds, p) implies {
        &&& c1[p] < 52
        &&& spec_suit(c1[p] as int) <= s
        &&& spec_suit(c1[p] as int) == s ==> (bit(used, spec_rank(c1[p] as int) as u32) || e1.contains(
            spec_rank(c1[p] as int) as u8,
        ))
    } by {
        if p == p0 {
            assert(e1[k] == ranks[k]);
        } else {
            assert(written(loc0, cpr, rounds, p));
            let v = spec_rank(c0[p] as int) as u8;
            if e0.contains(v) {
                let i = e0.index_of(v);
                assert(e1[i] == v);
            }
        }
    }
    assert forall|p: int, q: int|
        #[trigger] written(loc1, cpr, rounds, p) && #[trigger] written(loc1, cpr, rounds, q) && p
            != q implies c1[p] != c1[q] by {
        if p != p0 && q != p0 {
            assert(written(loc0, cpr, rounds, p) && written(loc0, cpr, rounds, q));
        } else {
            let o = if p == p0 { q } else { p };
            assert(written(loc0, cpr, rounds, o));
            if c0[o] == card {
                let v = spec_rank(c0[o] as int) as u8;
                assert(v == ranks[k]);
                if e0.contains(v) {
                    let i = e0.index_of(v);
                    assert(ranks[i] < ranks[k]);
                }
            }
        }
    }
}

/// Once a round's ranks are all placed, the suit's cards have their
/// ranks in the extended rank set.
proof fn lemma_placed_merge(
    cards: Seq<u8>,
    loc: Seq<u8>,
    cpr: Seq<u8>,
    rounds: nat,
    s: int,
    used: u32,
    ranks: Seq<u8>,
    next_used: u32,
)
    requires
        placed(cards, loc, cpr, rounds, s, used, ranks.subrange(0, ranks.len() as int)),
        forall|q: u32| q < 13 ==> #[trigger] bit(next_used, q) == (bit(used, q) || ranks.contains(q as u8)),
    ensures
        placed(cards, loc, cpr, rounds, s, next_used, Seq::empty()),
{
    assert(ranks.subrange(0, ranks.len() as int) == ranks);
    assert forall|p: int| #[trigger] written(loc, cpr, rounds, p) implies (spec_suit(cards[p] as int) == s
        ==> bit(next_used, spec_rank(cards[p] as int) as u32)) by {
        let q = spec_rank(cards[p] as int) as u32;
        if spec_suit(cards[p] as int) == s {
            assert(q < 13);
            assert(bit(next_used, q) == (bit(used, q) || ranks.contains(q as u8)));
        }
    }
}

/// With every round up to `round` filled and nothing written after it,
/// the first `total_cards(cpr, round + 1)` positions hold a valid hand
/// and the rest of the buffer is as it was.
proof fn lemma_placed_done(
    cards: Seq<u8>,
    old_cards: Seq<u8>,
    loc: Seq<u8>,
    cpr: Seq<u8>,
    rounds: nat,
    round: nat,
    s: int,
    used: u32,
)
    requires
        round < rounds <= 8,
        loc.len() == 8,
        cards.len() == old_cards.len(),
        total_cards(cpr, rounds as int) <= cards.len(),
        forall|j: int| 0 <= j <= round ==> #[trigger] loc[j] == total_cards(cpr, j + 1),
        forall|j: int| round < j < rounds ==> #[trigger] loc[j] == total_cards(cpr, j),
        placed(cards, loc, cpr, rounds, s, used, Seq::empty()),
        forall|p: int|
            0 <= p < cards.len() && !written(loc, cpr, rounds, p) ==> #[trigger] cards[p]
                == old_cards[p],
    ensures
        valid_cards(cards, total_cards(cpr, round + 1int)),
        forall|p: int|
            total_cards(cpr, round + 1int) <= p < cards.len() ==> #[trigger] cards[p] == old_cards[p],
{
    let n = total_cards(cpr, round + 1int);
    lemma_total_cards_mono(cpr, round + 1int, rounds as int);
    lemma_total_cards_mono(cpr, 0, round + 1int);
    assert forall|p: int| 0 <= p < n implies #[trigger] written(loc, cpr, rounds, p) by {
        let rp = lemma_pos_round_some(cpr, p, round + 1int);
    }
    assert forall|i: int| 0 <= i < n implies #[trigger] cards[i] < 52 by {
        assert(written(loc, cpr, rounds, i));
    }
    assert forall|i: int, j: int| 0 <= i < j < n implies cards[i] != cards[j] by {
        assert(written(loc, cpr, rounds, i) && written(loc, cpr, rounds, j));
    }
    assert forall|p: int| n <= p < cards.len() implies #[trigger] cards[p] == old_cards[p] by {
        if 0 <= p < total_cards(cpr, rounds as int) {
            let rp = lemma_pos_round_some(cpr, p, rounds as int);
            if rp <= round {
                lemma_total_cards_mono(cpr, rp + 1, round + 1int);
            }
            assert(loc[rp] == total_cards(cpr, rp));
        }
        assert(!written(loc, cpr, rounds, p));
    }
}

/// Inverse of indexing: writes a canonical hand of class `index` in round
/// `round`. The configuration holding `index` is found by binary search
/// over the offsets; each run of equal suits is decoded from the
/// combinatorial number system, and each suit's rank sets from the colex
/// rank tables.
fn unindex(indexer: &HandIndexer, round: u32, index: u64, cards: &mut [u8])
    requires
        indexer.wf(),
        round < indexer.rounds,
        index < indexer.round_size@[round as int],
        old(cards)@.len() >= total_cards(indexer.cards_per_round@, round + 1),
    ensures
        final(cards)@.len() == old(cards)@.len(),
        valid_cards(final(cards)@, total_cards(indexer.cards_per_round@, round + 1)),
        forall|p: int|
            total_cards(indexer.cards_per_round@, round + 1) <= p < final(cards)@.len()
                ==> #[trigger] final(cards)@[p] == old(cards)@[p],
{
    let t = &indexer.tables;
    let ri = round as usize;
    proof {
        let _ = indexer.configuration_to_suit_size@[ri as int];
    }
    let offsets = &indexer.configuration_to_offset[ri];
    let n_conf = offsets.len();
    let mut low: usize = 0;
    let mut high: usize = n_conf;
    let mut configuration_idx: usize = 0;
    while low < high
        invariant
            low <= high <= n_conf,
            n_conf == offsets.len(),
            n_conf > 0,
            configuration_idx < n_conf,
            offsets@[configuration_idx as int] <= index,
        decreases high - low,
    {
        let mid = low + (high - low) / 2;
        if offsets[mid] <= index {
            configuration_idx = mid;
            low = mid + 1;
        } else {
            high = mid;
        }
    }
    let mut idx: u64 = index - offsets[configuration_idx];
    let config: [u32; 4] = indexer.configuration[ri][configuration_idx];
    let suit_sizes: [u32; 4] = indexer.configuration_to_suit_size[ri][configuration_idx];

    let mut suit_index: [u64; 4] = [0; 4];
    let mut i: usize = 0;
    while i < 4
        invariant
            i <= 4,
            t.wf(),
        decreases 4 - i,
    {
        let mut j: usize = i + 1;
        while j < 4 && config[j] == config[i]
            invariant
                i < j <= 4,
            decreases 4 - j,
        {
            j = j + 1;
        }
        let suit_size = suit_sizes[i] as u64;
        let k = (j - i) as u32;
        let gs = ncr_groups(t, suit_size + (k as u64) - 1, k);
        let group_size = if gs == 0 {
            1
        } else {
            gs
        };
        let mut group_index = idx % group_size;
        idx = idx / group_size;
        while i + 1 < j
            invariant
                i < j <= 4,
                t.wf(),
                suit_size < 0x1_0000_0000,
            decreases j - i,
        {
            let kk = (j - i) as u32;
            let mut lo: u64 = 0;
            let mut hi: u64 = suit_size;
            let mut best: u64 = 0;
            while lo < hi
                invariant
                    lo <= hi <= suit_size,
                    best <= suit_size,
                    suit_size < 0x1_0000_0000,
                    t.wf(),
                    1 <= kk <= 4,
                decreases hi - lo,
            {
                let mid = lo + (hi - lo) / 2;
                if ncr_groups(t, mid + (kk as u64) - 1, kk) <= group_index {
                    best = mid;
                    lo = mid + 1;
                } else {
                    hi = mid;
                }
            }
            suit_index[i] = best;
            let sub = ncr_groups(t, best + (kk as u64) - 1, kk);
            group_index = if sub <= group_index {
                group_index - sub
            } else {
                0
            };
            i = i + 1;
        }
        suit_index[i] = group_index;
        i = i + 1;
    }

    let ghost cpr = indexer.cards_per_round@;
    let ghost rounds = indexer.rounds as nat;
    let ghost wr = (round + 1) as nat;
    proof {
        assert(indexer.configuration@[ri as int]@[configuration_idx as int] == config);
        assert(indexer.configuration@[ri as int]@.contains(config));
        assert forall|ss: int, j: nat| 0 <= ss < 4 && round < j < rounds implies #[trigger] dg(
            config@[ss],
            rounds,
            j,
        ) == 0 by {
            lemma_pk_digits(config@[ss], rounds, (round + 1) as nat, j);
        }
        assert forall|ss: int, j: nat| 0 <= ss < 4 && j <= rounds implies #[trigger] used_upto(
            config@[ss],
            rounds,
            j,
        ) <= 13 by {
            lemma_used_upto_tail(config@[ss], rounds, round as nat, j);
        }
        assert(placement_ctx(indexer, round as nat, config));
        lemma_total_cards_mono(cpr, wr as int, rounds as int);
        assert forall|p: int| #[trigger] written(indexer.round_start@, cpr, wr, p) implies false by {
            let rp = lemma_pos_round_some(cpr, p, wr as int);
        }
    }
    let mut location: [u8; 8] = indexer.round_start;
    let mut s: usize = 0;
    while s < 4
        invariant
            s <= 4,
            placement_ctx(indexer, round as nat, config),
            t.wf(),
            cpr == indexer.cards_per_round@,
            rounds == indexer.rounds,
            cards@.len() == old(cards)@.len(),
            old(cards)@.len() >= total_cards(cpr, wr as int),
                total_cards(cpr, wr as int) <= total_cards(cpr, rounds as int),
                wr == round + 1,
            forall|j: int| 0 <= j < rounds ==> #[trigger] location@[j] == next_position(cpr, config, rounds, s as nat, 0, 0, j as nat),
            placed(cards@, location@, cpr, wr, s as int, 0, Seq::empty()),
            forall|p: int|
                0 <= p < cards@.len() && !written(location@, cpr, wr, p) ==> #[trigger] cards@[p]
                    == old(cards)@[p],
        decreases 4 - s,
    {
        let mut used: u32 = 0;
        let mut m: u32 = 0;
        let mut r: u32 = 0;
        proof {
            lemma_pop_zero(0);
        }
        while r < indexer.rounds
            invariant
                s < 4,
                r <= rounds,
                placement_ctx(indexer, round as nat, config),
                t.wf(),
                cpr == indexer.cards_per_round@,
                rounds == indexer.rounds,
                cards@.len() == old(cards)@.len(),
                old(cards)@.len() >= total_cards(cpr, wr as int),
                total_cards(cpr, wr as int) <= total_cards(cpr, rounds as int),
                wr == round + 1,
                used < 8192,
                pop_from(used, 0) == m,
                m == used_upto(config@[s as int], rounds, r as nat),
                forall|j: int| 0 <= j < rounds ==> #[trigger] location@[j] == next_position(cpr, config, rounds, s as nat, r as nat, 0, j as nat),
                placed(cards@, location@, cpr, wr, s as int, used, Seq::empty()),
                forall|p: int|
                    0 <= p < cards@.len() && !written(location@, cpr, wr, p) ==> #[trigger] cards@[p]
                        == old(cards)@[p],
            decreases indexer.rounds - r,
        {
            let shift = (indexer.rounds - r - 1) * ROUND_SHIFT;
            let n = (config[s] >> shift) & ROUND_MASK;
            proof {
                assert(n == dg(config@[s as int], rounds, r as nat));
                assert(m + n == used_upto(config@[s as int], rounds, (r + 1) as nat));
                assert(used_upto(config@[s as int], rounds, (r + 1) as nat) <= 13);
                lemma_binom_basics(n as nat, n as nat);
                lemma_binom_mono(n as nat, (13 - m) as nat, n as nat);
            }
            let round_size: u64 = ncr_ranks(t, 13 - m, n) as u64;
            let round_idx = suit_index[s] % round_size;
            suit_index[s] = suit_index[s] / round_size;
            let (ranks, next_used) = decode_ranks(t, used, m, n, round_idx);
            let mut k: usize = 0;
            while k < ranks.len()
                invariant
                    s < 4,
                    r < rounds,
                    k <= ranks.len(),
                    ranks.len() == n,
                    n == dg(config@[s as int], rounds, r as nat),
                    placement_ctx(indexer, round as nat, config),
                    cpr == indexer.cards_per_round@,
                    rounds == indexer.rounds,
                    cards@.len() == old(cards)@.len(),
                    old(cards)@.len() >= total_cards(cpr, wr as int),
                total_cards(cpr, wr as int) <= total_cards(cpr, rounds as int),
                wr == round + 1,
                    forall|i: int| 0 <= i < n ==> #[trigger] ranks@[i] < 13 && !bit(used, ranks@[i] as u32),
                    forall|i: int, j: int| 0 <= i < j < n ==> #[trigger] ranks@[i] < #[trigger] ranks@[j],
                    forall|j: int| 0 <= j < rounds ==> #[trigger] location@[j] == next_position(cpr, config, rounds, s as nat, r as nat, k as nat, j as nat),
                    placed(cards@, location@, cpr, wr, s as int, used, ranks@.subrange(0, k as int)),
                    forall|p: int|
                        0 <= p < cards@.len() && !written(location@, cpr, wr, p) ==> #[trigger] cards@[p]
                            == old(cards)@[p],
                decreases ranks.len() - k,
            {
                let p0 = location[r as usize];
                proof {
                    if r > round {
                        assert(dg(config@[s as int], rounds, r as nat) == 0);
                    }
                    assert(round_total(config, rounds, r as nat) == cpr[r as int]);
                    assert(p0 == next_position(cpr, config, rounds, s as nat, r as nat, k as nat, r as nat));
                    assert(total_cards(cpr, r as int + 1) == total_cards(cpr, r as int) + cpr[r as int]);
                    lemma_total_cards_mono(cpr, r as int + 1, wr as int);
                    lemma_total_cards_mono(cpr, 0, r as int);
                    lemma_place_step(
                        cards@,
                        location@,
                        cpr,
                        wr,
                        s as int,
                        used,
                        ranks@,
                        k as int,
                        r as int,
                        p0 as int,
                    );
                }
                let card = make_card(s as u8, ranks[k]);
                let ghost old_loc = location@;
                cards[p0 as usize] = card;
                location[r as usize] = p0 + 1;
                proof {
                    assert(location@ == old_loc.update(r as int, (p0 + 1) as u8));
                }
                k = k + 1;
            }
            proof {
                lemma_placed_merge(cards@, location@, cpr, wr, s as int, used, ranks@, next_used);
            }
            used = next_used;
            m = m + n;
            r = r + 1;
        }
        s = s + 1;
    }
    proof {
        assert forall|j: int| 0 <= j <= round implies #[trigger] location@[j] == total_cards(cpr, j + 1) by {
            assert(round_total(config, rounds, j as nat) == cpr[j]);
        }
        assert forall|j: int| round < j < rounds implies #[trigger] location@[j] == total_cards(cpr, j) by {
            assert(dg(config@[0], rounds, j as nat) == 0);
            assert(dg(config@[1], rounds, j as nat) == 0);
            assert(dg(config@[2], rounds, j as nat) == 0);
            assert(dg(config@[3], rounds, j as nat) == 0);
        }
        lemma_placed_done(cards@, old(cards)@, location@, cpr, wr, round as nat, 4, 0);
    }
}

/// Orders entries `a < b` of `v` so that the smaller comes first.
fn sort2(v: &mut [u64; 4], a: usize, b: usize)
    requires
        a < 4,
        b < 4,
    ensures
        old(v)@[a as int] <= old(v)@[b as int] ==> final(v)@ == old(v)@,
        old(v)@[a as int] > old(v)@[b as int] ==> final(v)@ == old(v)@.update(
            a as int,
            old(v)@[b as int],
        ).update(b as int, old(v)@[a as int]),
{
    if v[a] > v[b] {
        let x = v[a];
        let y = v[b];
        v[a] = y;
        v[b] = x;
    }
}

proof fn lemma_total_cards_prefix(a: Seq<u8>, b: Seq<u8>, k: int)
    requires
        0 <= k,
        a.len() >= k,
        b.len() >= k,
        forall|i: int| 0 <= i < k ==> a[i] == b[i],
    ensures
        total_cards(a, k) == total_cards(b, k),
    decreases k,
{
    if k > 0 {
        lemma_total_cards_prefix(a, b, k - 1);
    }
}

} // verus!
