//! PPT / PokerStove hyphen range expansion (`QQ-22`, `A5s-A4s`,
//! `AQs-A2s`).
//!
//! A range is a comma-separated list of tokens. A token of the form
//! `hi-lo` names a run: a run of pairs (`QQ-22` gives `QQ,JJ,...,22`) or a
//! run of hands sharing their first rank and suffix (`AQs-A2s` gives
//! `AQs,AJs,...,A2s`). Every other token is kept as it is, trimmed.
use vstd::prelude::*;
use crate::text::{chars_of, string_of};

verus! {

/// Rank characters, deuce to ace.
pub open spec fn rank_chars() -> Seq<char> {
    seq!['2', '3', '4', '5', '6', '7', '8', '9', 'T', 'J', 'Q', 'K', 'A']
}

/// ASCII upper case of `c`; other characters are unchanged.
pub open spec fn upper(c: char) -> char {
    if 'a' <= c <= 'z' {
        ((c as u32) - 32) as char
    } else {
        c
    }
}

/// ASCII lower case of `c`; other characters are unchanged.
pub open spec fn lower(c: char) -> char {
    if 'A' <= c <= 'Z' {
        ((c as u32) + 32) as char
    } else {
        c
    }
}

/// ASCII lower case of every character of `s`.
pub open spec fn lower_all(s: Seq<char>) -> Seq<char> {
    s.map_values(|c: char| lower(c))
}

/// First position from `i` on of a rank character equal to the low
/// byte of `c` or of its upper case.
pub open spec fn rank_from_char(c: char, i: nat) -> Option<nat>
    decreases 13 - i,
{
    if i >= 13 {
        None
    } else if rank_chars()[i as int] as u32 == (c as u32) % 256 || rank_chars()[i as int] as u32 == (
    upper(c) as u32) % 256 {
        Some(i)
    } else {
        rank_from_char(c, i + 1)
    }
}

/// Rank (0 = deuce .. 12 = ace) named by `c`: the first rank character
/// equal to the low byte of `c` or of its upper case.
pub open spec fn rank_of(c: char) -> Option<nat> {
    rank_from_char(c, 0)
}

/// Unicode `White_Space`, the characters `str::trim` removes.
pub open spec fn is_ws(c: char) -> bool {
    ||| '\u{9}' <= c <= '\u{d}'
    ||| c == ' '
    ||| c == '\u{85}'
    ||| c == '\u{a0}'
    ||| c == '\u{1680}'
    ||| '\u{2000}' <= c <= '\u{200a}'
    ||| c == '\u{2028}'
    ||| c == '\u{2029}'
    ||| c == '\u{202f}'
    ||| c == '\u{205f}'
    ||| c == '\u{3000}'
}

/// `s` without leading white space.
pub open spec fn trim_start(s: Seq<char>) -> Seq<char>
    decreases s.len(),
{
    if s.len() > 0 && is_ws(s[0]) {
        trim_start(s.drop_first())
    } else {
        s
    }
}

/// `s` without trailing white space.
pub open spec fn trim_end(s: Seq<char>) -> Seq<char>
    decreases s.len(),
{
    if s.len() > 0 && is_ws(s.last()) {
        trim_end(s.drop_last())
    } else {
        s
    }
}

/// `s` without leading and trailing white space.
pub open spec fn trim(s: Seq<char>) -> Seq<char> {
    trim_end(trim_start(s))
}

/// Position of the first `c` in `s` at or after `i`; `s.len()` if none.
pub open spec fn find_from(s: Seq<char>, c: char, i: int) -> int
    decreases s.len() - i,
{
    if i < 0 || i >= s.len() {
        s.len() as int
    } else if s[i] == c {
        i
    } else {
        find_from(s, c, i + 1)
    }
}

/// A search from `i` inside `s` finds a position at or after `i`.
pub proof fn lemma_find_from_bounds(s: Seq<char>, c: char, i: int)
    requires
        0 <= i <= s.len(),
    ensures
        i <= find_from(s, c, i) <= s.len(),
    decreases s.len() - i,
{
    if i < s.len() && s[i] != c {
        lemma_find_from_bounds(s, c, i + 1);
    }
}

/// `s` is under two bytes long in UTF-8: empty, or one ASCII character.
pub open spec fn under_two_bytes(s: Seq<char>) -> bool {
    s.len() == 0 || (s.len() == 1 && (s[0] as u32) < 0x80)
}

/// The part of a hyphen token before its first hyphen, trimmed.
pub open spec fn hi_part(t: Seq<char>) -> Seq<char> {
    trim(t.take(find_from(t, '-', 0)))
}

/// The part of a hyphen token after its first hyphen, trimmed.
pub open spec fn lo_part(t: Seq<char>) -> Seq<char> {
    trim(t.skip(find_from(t, '-', 0) + 1))
}

/// One hand of a run: the pair of rank `i`, or `first` followed by rank
/// `i`, then `suffix`.
pub open spec fn run_item(first: Option<char>, i: nat, suffix: Seq<char>) -> Seq<char> {
    let r = rank_chars()[i as int];
    match first {
        Some(f) => seq![f, r] + suffix,
        None => seq![r, r] + suffix,
    }
}

/// The hands of ranks `hi` down to `lo`, comma separated.
pub open spec fn run(first: Option<char>, hi: nat, lo: nat, suffix: Seq<char>) -> Seq<char>
    decreases hi - lo,
{
    if hi <= lo {
        run_item(first, hi, suffix)
    } else {
        run_item(first, hi, suffix) + seq![','] + run(first, (hi - 1) as nat, lo, suffix)
    }
}

/// Expansion of a run from rank `hi` to rank `lo`: the run when both
/// are ranks and `hi` is not below `lo`, else the token `t` unchanged.
pub open spec fn run_or(
    t: Seq<char>,
    first: Option<char>,
    hi: Option<nat>,
    lo: Option<nat>,
    suffix: Seq<char>,
) -> Seq<char> {
    match (hi, lo) {
        (Some(h), Some(l)) => if h >= l {
            run(first, h, l, suffix)
        } else {
            t
        },
        _ => t,
    }
}

/// Expansion of one range token.
///
/// The token is trimmed. An empty token gives nothing; a token without a
/// hyphen is kept. Otherwise the parts before and after the first hyphen
/// are trimmed, and the token is kept unless both parts are at least two
/// bytes long and have the same suffix (characters after the second,
/// compared in lower case). Then `RR-rr` with no suffix is a run of
/// pairs, `Xa...-Xb...` with a suffix is a run of hands led by `X`
/// (compared in upper case); anything else is kept.
pub open spec fn expand_token_spec(token: Seq<char>) -> Seq<char> {
    let t = trim(token);
    if t.len() == 0 {
        t
    } else if find_from(t, '-', 0) >= t.len() {
        t
    } else {
        let hi = hi_part(t);
        let lo = lo_part(t);
        if under_two_bytes(hi) || under_two_bytes(lo) {
            t
        } else {
            let h1 = upper(hi[0]);
            let h2 = upper(hi[1]);
            let l1 = upper(lo[0]);
            let l2 = upper(lo[1]);
            let hs = lower_all(hi.skip(2));
            let ls = lower_all(lo.skip(2));
            if hs != ls {
                t
            } else if h1 == h2 && l1 == l2 && hs.len() == 0 {
                run_or(t, None, rank_of(h1), rank_of(l1), hs)
            } else if h1 == l1 && hs.len() > 0 {
                run_or(t, Some(h1), rank_of(h2), rank_of(l2), hs)
            } else {
                t
            }
        }
    }
}

/// Expanding the token panics: it holds a hyphen and a part beside it
/// is a single character of two or more bytes.
pub open spec fn token_panics(token: Seq<char>) -> bool {
    let t = trim(token);
    let hi = hi_part(t);
    let lo = lo_part(t);
    &&& t.len() > 0
    &&& find_from(t, '-', 0) < t.len()
    &&& !under_two_bytes(hi)
    &&& !under_two_bytes(lo)
    &&& (hi.len() < 2 || lo.len() < 2)
}

/// `acc` with `e` appended, a comma between them when both are non-empty.
pub open spec fn join_step(acc: Seq<char>, e: Seq<char>) -> Seq<char> {
    if e.len() == 0 {
        acc
    } else if acc.len() == 0 {
        e
    } else {
        acc + seq![','] + e
    }
}

/// Expansion of the comma-separated tokens of `s` from position `pos`
/// on, appended to `acc` by `join_step`.
pub open spec fn expand_from(s: Seq<char>, pos: int, acc: Seq<char>) -> Seq<char>
    decreases s.len() + 1 - pos,
{
    if pos < 0 || pos > s.len() {
        acc
    } else {
        let k = find_from(s, ',', pos);
        let acc2 = join_step(acc, expand_token_spec(s.subrange(pos, k)));
        if k >= s.len() {
            acc2
        } else {
            proof {
                lemma_find_from_bounds(s, ',', pos);
            }
            expand_from(s, k + 1, acc2)
        }
    }
}

/// No token of `s` from position `pos` on panics when expanded.
pub open spec fn no_token_panics(s: Seq<char>, pos: int) -> bool
    decreases s.len() + 1 - pos,
{
    if pos < 0 || pos > s.len() {
        true
    } else {
        let k = find_from(s, ',', pos);
        if k >= s.len() {
            !token_panics(s.subrange(pos, k))
        } else {
            proof {
                lemma_find_from_bounds(s, ',', pos);
            }
            !token_panics(s.subrange(pos, k)) && no_token_panics(s, k + 1)
        }
    }
}

/// Expansion of a whole range: every comma-separated token expanded,
/// the non-empty expansions joined by commas.
pub open spec fn expand_range_spec(s: Seq<char>) -> Seq<char> {
    expand_from(s, 0, Seq::empty())
}


/// No comma in `s`.
pub open spec fn no_comma(s: Seq<char>) -> bool {
    forall|i: int| 0 <= i < s.len() ==> #[trigger] s[i] != ','
}

/// Every comma of `s` sits between two characters that are not commas:
/// splitting `s` at its commas gives no empty piece unless `s` is empty.
pub open spec fn well_separated(s: Seq<char>) -> bool {
    forall|i: int|
        0 <= i < s.len() && #[trigger] s[i] == ',' ==> 0 < i < s.len() - 1 && s[i + 1] != ','
}

proof fn lemma_find_no_comma(s: Seq<char>, pos: int)
    requires
        0 <= pos <= s.len(),
    ensures
        no_comma(s.subrange(pos, find_from(s, ',', pos))),
    decreases s.len() - pos,
{
    lemma_find_from_bounds(s, ',', pos);
    if pos < s.len() && s[pos] != ',' {
        lemma_find_no_comma(s, pos + 1);
        let k = find_from(s, ',', pos);
        let a = s.subrange(pos, k);
        let b = s.subrange(pos + 1, k);
        assert forall|i: int| 0 <= i < a.len() implies #[trigger] a[i] != ',' by {
            if i > 0 {
                assert(a[i] == b[i - 1]);
            }
        }
    }
}

proof fn lemma_trim_no_comma(s: Seq<char>)
    requires
        no_comma(s),
    ensures
        no_comma(trim_start(s)),
        no_comma(trim_end(s)),
        no_comma(trim(s)),
    decreases s.len(),
{
    if s.len() > 0 {
        let a = s.drop_first();
        let b = s.drop_last();
        assert(no_comma(a)) by {
            assert forall|i: int| 0 <= i < a.len() implies #[trigger] a[i] != ',' by {
                assert(a[i] == s[i + 1]);
            }
        }
        assert(no_comma(b)) by {
            assert forall|i: int| 0 <= i < b.len() implies #[trigger] b[i] != ',' by {
                assert(b[i] == s[i]);
            }
        }
        lemma_trim_no_comma(a);
        lemma_trim_no_comma(b);
    }
    lemma_trim_end_no_comma(trim_start(s));
}

proof fn lemma_trim_end_no_comma(s: Seq<char>)
    requires
        no_comma(s),
    ensures
        no_comma(trim_end(s)),
    decreases s.len(),
{
    if s.len() > 0 && is_ws(s.last()) {
        let b = s.drop_last();
        assert(no_comma(b)) by {
            assert forall|i: int| 0 <= i < b.len() implies #[trigger] b[i] != ',' by {
                assert(b[i] == s[i]);
            }
        }
        lemma_trim_end_no_comma(b);
    }
}

proof fn lemma_trim_start_no_comma(s: Seq<char>)
    requires
        no_comma(s),
    ensures
        no_comma(trim_start(s)),
    decreases s.len(),
{
    if s.len() > 0 && is_ws(s[0]) {
        let a = s.drop_first();
        assert(no_comma(a)) by {
            assert forall|i: int| 0 <= i < a.len() implies #[trigger] a[i] != ',' by {
                assert(a[i] == s[i + 1]);
            }
        }
        lemma_trim_start_no_comma(a);
    }
}

/// A comma-free piece of `s` from `a` to `b` is comma-free.
proof fn lemma_sub_no_comma(s: Seq<char>, a: int, b: int)
    requires
        no_comma(s),
        0 <= a <= b <= s.len(),
    ensures
        no_comma(s.subrange(a, b)),
{
    assert forall|i: int| 0 <= i < b - a implies #[trigger] s.subrange(a, b)[i] != ',' by {
        assert(s.subrange(a, b)[i] == s[a + i]);
    }
}

/// The hands of a run are non-empty and comma-free, joined by single
/// commas.
proof fn lemma_run_separated(first: Option<char>, hi: nat, lo: nat, suffix: Seq<char>)
    requires
        hi < 13,
        no_comma(suffix),
        first matches Some(f) ==> f != ',',
    ensures
        run(first, hi, lo, suffix).len() > 0,
        well_separated(run(first, hi, lo, suffix)),
        run(first, hi, lo, suffix)[0] != ',',
        run(first, hi, lo, suffix).last() != ',',
    decreases hi - lo,
{
    let item = run_item(first, hi, suffix);
    assert(rank_chars()[hi as int] != ',');
    assert(no_comma(item)) by {
        assert forall|i: int| 0 <= i < item.len() implies #[trigger] item[i] != ',' by {
            if i >= 2 {
                assert(item[i] == suffix[i - 2]);
            }
        }
    }
    if hi > lo {
        lemma_run_separated(first, (hi - 1) as nat, lo, suffix);
        let rest = run(first, (hi - 1) as nat, lo, suffix);
        let r = item + seq![','] + rest;
        assert(r == run(first, hi, lo, suffix));
        assert forall|i: int| 0 <= i < r.len() && #[trigger] r[i] == ',' implies 0 < i < r.len() - 1 && r[i + 1] != ',' by {
            if i < item.len() {
                assert(r[i] == item[i]);
            } else if i == item.len() {
                assert(r[i + 1] == rest[0]);
            } else {
                assert(r[i] == rest[i - item.len() - 1]);
                if i + 1 < r.len() {
                    assert(r[i + 1] == rest[i + 1 - item.len() - 1]);
                }
            }
        }
        assert(r.last() == rest.last());
    } else {
        assert(item[0] != ',');
        assert(item.last() != ',');
    }
}

/// Upper case of a character other than a comma is not a comma.
proof fn lemma_case_comma(c: char)
    ensures
        upper(c) == ',' ==> c == ',',
        lower(c) == ',' ==> c == ',',
{
}

/// The expansion of a comma-free token is empty or well separated,
/// and neither starts nor ends with a comma.
proof fn lemma_token_separated(token: Seq<char>)
    requires
        no_comma(token),
        !token_panics(token),
    ensures
        ({
            let e = expand_token_spec(token);
            e.len() > 0 ==> well_separated(e) && e[0] != ',' && e.last() != ','
        }),
{
    let t = trim(token);
    lemma_trim_no_comma(token);
    if t.len() > 0 {
        assert(t[0] != ',');
        assert(t[t.len() - 1] != ',');
        assert(t.last() != ',');
    }
    if t.len() > 0 && find_from(t, '-', 0) < t.len() {
        lemma_find_from_bounds(t, '-', 0);
        let k = find_from(t, '-', 0);
        lemma_sub_no_comma(t, 0, k);
        lemma_sub_no_comma(t, k + 1, t.len() as int);
        assert(t.take(k) =~= t.subrange(0, k));
        assert(t.skip(k + 1) =~= t.subrange(k + 1, t.len() as int));
        let hi = hi_part(t);
        let lo = lo_part(t);
        lemma_trim_no_comma(t.take(k));
        lemma_trim_no_comma(t.skip(k + 1));
        if !under_two_bytes(hi) && !under_two_bytes(lo) && hi.len() >= 2 && lo.len() >= 2 {
            let hs = lower_all(hi.skip(2));
            lemma_sub_no_comma(hi, 2, hi.len() as int);
            assert(hi.skip(2) =~= hi.subrange(2, hi.len() as int));
            assert(no_comma(hs)) by {
                assert forall|i: int| 0 <= i < hs.len() implies #[trigger] hs[i] != ',' by {
                    lemma_case_comma(hi.skip(2)[i]);
                }
            }
            lemma_case_comma(hi[0]);
            lemma_case_comma(hi[1]);
            lemma_case_comma(lo[0]);
            lemma_case_comma(lo[1]);
            let h1 = upper(hi[0]);
            let h2 = upper(hi[1]);
            let l1 = upper(lo[0]);
            let l2 = upper(lo[1]);
            if let (Some(h), Some(l)) = (rank_of(h1), rank_of(l1)) {
                lemma_rank_of_bound(h1, 0);
                if h >= l {
                    lemma_run_separated(None, h, l, hs);
                }
            }
            if let (Some(h), Some(l)) = (rank_of(h2), rank_of(l2)) {
                lemma_rank_of_bound(h2, 0);
                if h >= l {
                    lemma_run_separated(Some(h1), h, l, hs);
                }
            }
        }
    }
}

proof fn lemma_rank_of_bound(c: char, i: nat)
    ensures
        rank_from_char(c, i) matches Some(r) ==> r < 13,
    decreases 13 - i,
{
    if i < 13 {
        lemma_rank_of_bound(c, i + 1);
    }
}

/// Joining keeps a well separated list well separated.
proof fn lemma_join_separated(acc: Seq<char>, e: Seq<char>)
    requires
        acc.len() > 0 ==> well_separated(acc) && acc[0] != ',' && acc.last() != ',',
        e.len() > 0 ==> well_separated(e) && e[0] != ',' && e.last() != ',',
    ensures
        ({
            let r = join_step(acc, e);
            r.len() > 0 ==> well_separated(r) && r[0] != ',' && r.last() != ','
        }),
{
    if e.len() > 0 && acc.len() > 0 {
        let r = acc + seq![','] + e;
        assert forall|i: int| 0 <= i < r.len() && #[trigger] r[i] == ',' implies 0 < i < r.len() - 1 && r[i + 1] != ',' by {
            if i < acc.len() {
                assert(r[i] == acc[i]);
                if i + 1 < acc.len() {
                    assert(r[i + 1] == acc[i + 1]);
                }
            } else if i == acc.len() {
                assert(r[i + 1] == e[0]);
            } else {
                assert(r[i] == e[i - acc.len() - 1]);
                if i + 1 < r.len() {
                    assert(r[i + 1] == e[i + 1 - acc.len() - 1]);
                }
            }
        }
        assert(r.last() == e.last());
        assert(r[0] == acc[0]);
    }
}

proof fn lemma_expand_from_separated(s: Seq<char>, pos: int, acc: Seq<char>)
    requires
        no_token_panics(s, pos),
        acc.len() > 0 ==> well_separated(acc) && acc[0] != ',' && acc.last() != ',',
    ensures
        ({
            let r = expand_from(s, pos, acc);
            r.len() > 0 ==> well_separated(r) && r[0] != ',' && r.last() != ','
        }),
    decreases s.len() + 1 - pos,
{
    if 0 <= pos <= s.len() {
        let k = find_from(s, ',', pos);
        lemma_find_from_bounds(s, ',', pos);
        lemma_find_no_comma(s, pos);
        lemma_token_separated(s.subrange(pos, k));
        let acc2 = join_step(acc, expand_token_spec(s.subrange(pos, k)));
        lemma_join_separated(acc, expand_token_spec(s.subrange(pos, k)));
        if k < s.len() {
            lemma_expand_from_separated(s, k + 1, acc2);
        }
    }
}

/// An expanded range has no empty comma-separated token: every comma
/// sits between two characters that are not commas.
pub proof fn law_expansion_has_no_empty_token(s: Seq<char>)
    requires
        no_token_panics(s, 0),
    ensures
        well_separated(expand_range_spec(s)),
{
    lemma_expand_from_separated(s, 0, Seq::empty());
}

/// No character of `s` is `c`.
pub open spec fn no_char(s: Seq<char>, c: char) -> bool {
    forall|i: int| 0 <= i < s.len() ==> #[trigger] s[i] != c
}

/// A token that expands to itself: non-empty, comma-free, and not one
/// whose expansion panics.
pub open spec fn stable_token(t: Seq<char>) -> bool {
    &&& t.len() > 0
    &&& no_comma(t)
    &&& expand_token_spec(t) == t
    &&& !token_panics(t)
}

/// `x` is empty or a comma-separated list of stable tokens.
pub open spec fn stable_text(x: Seq<char>) -> bool
    decreases x.len(),
{
    if x.len() == 0 {
        true
    } else {
        let k = find_from(x, ',', 0);
        proof {
            lemma_find_from_bounds(x, ',', 0);
        }
        stable_token(x.take(k)) && (k >= x.len() || (x.skip(k + 1).len() > 0 && stable_text(x.skip(k + 1))))
    }
}

proof fn lemma_find_hit(s: Seq<char>, c: char, i: int)
    requires
        0 <= i <= s.len(),
    ensures
        find_from(s, c, i) < s.len() ==> s[find_from(s, c, i)] == c,
        forall|j: int| i <= j < find_from(s, c, i) ==> #[trigger] s[j] != c,
    decreases s.len() - i,
{
    if i < s.len() && s[i] != c {
        lemma_find_hit(s, c, i + 1);
    }
}

proof fn lemma_find_none(s: Seq<char>, c: char)
    requires
        no_char(s, c),
    ensures
        find_from(s, c, 0) == s.len(),
{
    lemma_find_from_bounds(s, c, 0);
    lemma_find_hit(s, c, 0);
}

/// A search in `a + r` finds a match of `a` first, else one of `r`.
proof fn lemma_find_concat(a: Seq<char>, r: Seq<char>, c: char)
    ensures
        find_from(a + r, c, 0) == if find_from(a, c, 0) < a.len() {
            find_from(a, c, 0)
        } else {
            a.len() + find_from(r, c, 0)
        },
{
    let y = a + r;
    lemma_find_from_bounds(a, c, 0);
    lemma_find_from_bounds(y, c, 0);
    lemma_find_hit(a, c, 0);
    lemma_find_hit(y, c, 0);
    let fa = find_from(a, c, 0);
    let fy = find_from(y, c, 0);
    if fa < a.len() {
        assert(y[fa] == c);
        if fy < fa {
            assert(y[fy] == a[fy]);
        }
        assert(!(fa < fy));
    } else {
        assert forall|j: int| 0 <= j < a.len() implies y[j] != c by {
            assert(y[j] == a[j]);
        }
        if fy < a.len() {
            assert(y[fy] == a[fy]);
        }
        lemma_find_from_shift(y, c, a.len() as int, y.len() as int);
        assert(y.subrange(a.len() as int, y.len() as int) =~= r);
        lemma_find_from_bounds(y, c, a.len() as int);
        lemma_find_hit(y, c, a.len() as int);
        let fl = find_from(y, c, a.len() as int);
        if fy < fl {
            assert(y[fy] == c);
        }
        if fl < fy {
            assert(y[fl] == c);
        }
    }
}

/// Expanding from position `lo` is expanding the text that starts there.
proof fn lemma_expand_shift(x: Seq<char>, lo: int, acc: Seq<char>)
    requires
        0 <= lo <= x.len(),
    ensures
        expand_from(x, lo, acc) == expand_from(x.subrange(lo, x.len() as int), 0, acc),
        no_token_panics(x, lo) == no_token_panics(x.subrange(lo, x.len() as int), 0),
    decreases x.len() - lo,
{
    let n = x.len() as int;
    let y = x.subrange(lo, n);
    lemma_find_from_shift(x, ',', lo, n);
    lemma_find_from_bounds(x, ',', lo);
    let k = find_from(x, ',', lo);
    assert(find_from(y, ',', 0) == k - lo);
    assert(y.subrange(0, k - lo) =~= x.subrange(lo, k));
    let acc2 = join_step(acc, expand_token_spec(x.subrange(lo, k)));
    if k < n {
        lemma_expand_shift(x, k + 1, acc2);
        lemma_expand_shift(y, k - lo + 1, acc2);
        assert(y.subrange(k - lo + 1, y.len() as int) =~= x.subrange(k + 1, n));
    }
}

/// Joining two lists of stable tokens gives a list of stable tokens.
proof fn lemma_join_stable(a: Seq<char>, b: Seq<char>)
    requires
        stable_text(a),
        stable_text(b),
    ensures
        stable_text(join_step(a, b)),
    decreases a.len(),
{
    if a.len() > 0 && b.len() > 0 {
        let y = a + seq![','] + b;
        let k = find_from(a, ',', 0);
        lemma_find_from_bounds(a, ',', 0);
        lemma_find_hit(a, ',', 0);
        lemma_find_concat(a, seq![','] + b, ',');
        assert(a + seq![','] + b =~= a + (seq![','] + b));
        if k >= a.len() {
            assert(find_from(seq![','] + b, ',', 0) == 0);
            assert(find_from(y, ',', 0) == a.len());
            assert(y.take(a.len() as int) =~= a);
            assert(a.take(k) =~= a);
            assert(y.skip(a.len() as int + 1) =~= b);
        } else {
            assert(find_from(y, ',', 0) == k);
            assert(y.take(k) =~= a.take(k));
            let a2 = a.skip(k + 1);
            assert(y.skip(k + 1) =~= a2 + seq![','] + b);
            lemma_join_stable(a2, b);
        }
    }
}

/// Expanding a list of stable tokens after `acc` appends the list.
proof fn lemma_expand_stable(x: Seq<char>, acc: Seq<char>)
    requires
        stable_text(x),
        x.len() > 0,
    ensures
        expand_from(x, 0, acc) == join_step(acc, x),
        no_token_panics(x, 0),
    decreases x.len(),
{
    let k = find_from(x, ',', 0);
    lemma_find_from_bounds(x, ',', 0);
    lemma_find_hit(x, ',', 0);
    let a = x.subrange(0, k);
    assert(a =~= x.take(k));
    let acc2 = join_step(acc, a);
    if k < x.len() {
        let rest = x.skip(k + 1);
        lemma_expand_stable(rest, acc2);
        lemma_expand_shift(x, k + 1, acc2);
        assert(x.subrange(k + 1, x.len() as int) =~= rest);
        assert(x =~= a + seq![','] + rest);
        if acc.len() > 0 {
            assert(acc + seq![','] + a + seq![','] + rest =~= acc + seq![','] + x);
        }
    } else {
        assert(a =~= x);
    }
}

proof fn lemma_trim_start_ends(s: Seq<char>)
    ensures
        trim_start(s).len() > 0 ==> !is_ws(trim_start(s)[0]),
        trim_start(s).len() <= s.len(),
        trim_start(s) =~= s.skip(s.len() - trim_start(s).len()),
    decreases s.len(),
{
    if s.len() > 0 && is_ws(s[0]) {
        lemma_trim_start_ends(s.drop_first());
        assert(s.drop_first().skip(s.drop_first().len() - trim_start(s).len()) =~= s.skip(
            s.len() - trim_start(s).len(),
        ));
    }
}

proof fn lemma_trim_end_ends(s: Seq<char>)
    ensures
        trim_end(s).len() > 0 ==> !is_ws(trim_end(s).last()),
        trim_end(s).len() <= s.len(),
        trim_end(s) =~= s.take(trim_end(s).len() as int),
    decreases s.len(),
{
    if s.len() > 0 && is_ws(s.last()) {
        lemma_trim_end_ends(s.drop_last());
        assert(s.drop_last().take(trim_end(s).len() as int) =~= s.take(trim_end(s).len() as int));
    }
}

/// A trimmed text neither starts nor ends with white space, and is a
/// piece of the text.
proof fn lemma_trim_ends(s: Seq<char>)
    ensures
        trim(s).len() > 0 ==> !is_ws(trim(s)[0]) && !is_ws(trim(s).last()),
        exists|a: int, b: int| 0 <= a <= b <= s.len() && trim(s) == s.subrange(a, b),
{
    let t0 = trim_start(s);
    lemma_trim_start_ends(s);
    lemma_trim_end_ends(t0);
    let t = trim(s);
    if t.len() > 0 {
        assert(t[0] == t0[0]);
    }
    let a = s.len() - t0.len();
    assert(t =~= s.subrange(a, a + t.len()));
}

/// Text that neither starts nor ends with white space trims to itself.
proof fn lemma_trim_fixed(s: Seq<char>)
    requires
        s.len() > 0 ==> !is_ws(s[0]) && !is_ws(s.last()),
    ensures
        trim(s) == s,
{
}

/// A piece of text free of `c` trims to text free of `c`.
proof fn lemma_trim_no_char(s: Seq<char>, c: char)
    requires
        no_char(s, c),
    ensures
        no_char(trim(s), c),
{
    lemma_trim_ends(s);
    let (a, b) = choose|a: int, b: int| 0 <= a <= b <= s.len() && trim(s) == s.subrange(a, b);
    assert forall|i: int| 0 <= i < trim(s).len() implies #[trigger] trim(s)[i] != c by {
        assert(trim(s)[i] == s[a + i]);
    }
}

proof fn lemma_find_no_char(s: Seq<char>, c: char)
    ensures
        no_char(s.take(find_from(s, c, 0)), c),
{
    lemma_find_from_bounds(s, c, 0);
    lemma_find_hit(s, c, 0);
    let k = find_from(s, c, 0);
    assert forall|i: int| 0 <= i < k implies #[trigger] s.take(k)[i] != c by {
        assert(s[i] != c);
    }
}

/// Expanding a token is expanding its trimmed text.
proof fn lemma_expand_trimmed(t: Seq<char>)
    ensures
        expand_token_spec(trim(t)) == expand_token_spec(t),
        token_panics(trim(t)) == token_panics(t),
{
    lemma_trim_ends(t);
    lemma_trim_fixed(trim(t));
}

/// A hand of a run is a stable token.
proof fn lemma_item_stable(first: Option<char>, i: nat, suffix: Seq<char>)
    requires
        i < 13,
        no_comma(suffix),
        no_char(suffix, '-'),
        suffix.len() > 0 ==> !is_ws(suffix.last()),
        first matches Some(f) ==> f != ',' && f != '-' && !is_ws(f),
    ensures
        stable_token(run_item(first, i, suffix)),
{
    let item = run_item(first, i, suffix);
    let r = rank_chars()[i as int];
    assert(r != ',' && r != '-' && !is_ws(r));
    assert(no_comma(item)) by {
        assert forall|j: int| 0 <= j < item.len() implies #[trigger] item[j] != ',' by {
            if j >= 2 {
                assert(item[j] == suffix[j - 2]);
            }
        }
    }
    assert(no_char(item, '-')) by {
        assert forall|j: int| 0 <= j < item.len() implies #[trigger] item[j] != '-' by {
            if j >= 2 {
                assert(item[j] == suffix[j - 2]);
            }
        }
    }
    if suffix.len() > 0 {
        assert(item.last() == suffix.last());
    }
    lemma_trim_fixed(item);
    lemma_find_none(item, '-');
}

/// A run is a list of stable tokens.
proof fn lemma_run_stable(first: Option<char>, hi: nat, lo: nat, suffix: Seq<char>)
    requires
        hi < 13,
        no_comma(suffix),
        no_char(suffix, '-'),
        suffix.len() > 0 ==> !is_ws(suffix.last()),
        first matches Some(f) ==> f != ',' && f != '-' && !is_ws(f),
    ensures
        stable_text(run(first, hi, lo, suffix)),
    decreases hi - lo,
{
    let item = run_item(first, hi, suffix);
    lemma_item_stable(first, hi, suffix);
    lemma_find_none(item, ',');
    assert(item.take(item.len() as int) =~= item);
    assert(stable_text(item));
    if hi > lo {
        lemma_run_stable(first, (hi - 1) as nat, lo, suffix);
        lemma_run_separated(first, (hi - 1) as nat, lo, suffix);
        lemma_join_stable(item, run(first, (hi - 1) as nat, lo, suffix));
    }
}

/// The expansion of a comma-free token that does not panic is a list of
/// stable tokens.
proof fn lemma_token_stable(token: Seq<char>)
    requires
        no_comma(token),
        !token_panics(token),
    ensures
        stable_text(expand_token_spec(token)),
{
    let t = trim(token);
    let e = expand_token_spec(token);
    lemma_trim_no_comma(token);
    lemma_expand_trimmed(token);
    if e == t {
        if t.len() > 0 {
            lemma_find_none(t, ',');
            assert(t.take(t.len() as int) =~= t);
        }
    } else {
        let f = find_from(t, '-', 0);
        lemma_find_from_bounds(t, '-', 0);
        let hi = hi_part(t);
        let lo = lo_part(t);
        lemma_find_no_char(t, '-');
        lemma_trim_no_char(t.take(f), '-');
        lemma_sub_no_comma(t, 0, f);
        assert(t.take(f) =~= t.subrange(0, f));
        lemma_trim_no_comma(t.take(f));
        lemma_trim_ends(t.take(f));
        let hs = lower_all(hi.skip(2));
        assert(no_comma(hs)) by {
            assert forall|j: int| 0 <= j < hs.len() implies #[trigger] hs[j] != ',' by {
                lemma_case_comma(hi[j + 2]);
            }
        }
        assert(no_char(hs, '-')) by {
            assert forall|j: int| 0 <= j < hs.len() implies #[trigger] hs[j] != '-' by {
                assert(hi[j + 2] != '-');
            }
        }
        if hs.len() > 0 {
            assert(hs.last() == lower(hi.last()));
        }
        let h1 = upper(hi[0]);
        assert(hi[0] != ',' && hi[0] != '-' && !is_ws(hi[0]));
        lemma_case_comma(hi[0]);
        assert(h1 != ',' && h1 != '-' && !is_ws(h1));
        let h2 = upper(hi[1]);
        let l1 = upper(lo[0]);
        let l2 = upper(lo[1]);
        if h1 == h2 && l1 == l2 && hs.len() == 0 {
            let h = rank_of(h1).unwrap();
            lemma_rank_of_bound(h1, 0);
            lemma_run_stable(None, h, rank_of(l1).unwrap(), hs);
        } else {
            let h = rank_of(h2).unwrap();
            lemma_rank_of_bound(h2, 0);
            lemma_run_stable(Some(h1), h, rank_of(l2).unwrap(), hs);
        }
    }
}

proof fn lemma_expand_from_stable(s: Seq<char>, pos: int, acc: Seq<char>)
    requires
        no_token_panics(s, pos),
        stable_text(acc),
    ensures
        stable_text(expand_from(s, pos, acc)),
    decreases s.len() + 1 - pos,
{
    if 0 <= pos <= s.len() {
        let k = find_from(s, ',', pos);
        lemma_find_from_bounds(s, ',', pos);
        lemma_find_no_comma(s, pos);
        lemma_token_stable(s.subrange(pos, k));
        lemma_join_stable(acc, expand_token_spec(s.subrange(pos, k)));
        if k < s.len() {
            lemma_expand_from_stable(s, k + 1, join_step(acc, expand_token_spec(s.subrange(pos, k))));
        }
    }
}

/// Expanding a range twice gives what expanding it once gives, and the
/// second expansion does not panic: an expanded range is a fixed point.
pub proof fn law_expansion_is_idempotent(s: Seq<char>)
    requires
        no_token_panics(s, 0),
    ensures
        no_token_panics(expand_range_spec(s), 0),
        expand_range_spec(expand_range_spec(s)) == expand_range_spec(s),
{
    let e = expand_range_spec(s);
    lemma_expand_from_stable(s, 0, Seq::empty());
    if e.len() > 0 {
        lemma_expand_stable(e, Seq::empty());
    } else {
        assert(e.subrange(0, 0) =~= Seq::<char>::empty());
        lemma_find_from_bounds(e, ',', 0);
    }
}

/// The rank character of rank `i`.
fn rank_char(i: usize) -> (c: char)
    requires
        i < 13,
    ensures
        c == rank_chars()[i as int],
{
    match i {
        0 => '2',
        1 => '3',
        2 => '4',
        3 => '5',
        4 => '6',
        5 => '7',
        6 => '8',
        7 => '9',
        8 => 'T',
        9 => 'J',
        10 => 'Q',
        11 => 'K',
        _ => 'A',
    }
}

/// ASCII upper case of `c`.
fn to_upper(c: char) -> (r: char)
    ensures
        r == upper(c),
{
    if 'a' <= c && c <= 'z' {
        let b = (c as u32) - 32;
        assert(b < 128);
        (b as u8) as char
    } else {
        c
    }
}

/// ASCII lower case of `c`.
fn to_lower(c: char) -> (r: char)
    ensures
        r == lower(c),
{
    if 'A' <= c && c <= 'Z' {
        let b = (c as u32) + 32;
        assert(b < 128);
        (b as u8) as char
    } else {
        c
    }
}

/// Whether `c` is white space.
fn is_white(c: char) -> (r: bool)
    ensures
        r == is_ws(c),
{
    ('\u{9}' <= c && c <= '\u{d}') || c == ' ' || c == '\u{85}' || c == '\u{a0}' || c
        == '\u{1680}' || ('\u{2000}' <= c && c <= '\u{200a}') || c == '\u{2028}' || c
        == '\u{2029}' || c == '\u{202f}' || c == '\u{205f}' || c == '\u{3000}'
}

/// Rank (0 = deuce .. 12 = ace) named by `c`, if any.
fn rank_idx(c: char) -> (r: Option<usize>)
    ensures
        r matches Some(i) ==> i < 13 && rank_of(c) == Some(i as nat),
        r is None ==> rank_of(c) is None,
{
    let up = to_upper(c);
    let low = (c as u32) % 256;
    let up_low = (up as u32) % 256;
    let mut i: usize = 0;
    while i < 13
        invariant
            i <= 13,
            low == (c as u32) % 256,
            up_low == (upper(c) as u32) % 256,
            rank_from_char(c, 0) == rank_from_char(c, i as nat),
        decreases 13 - i,
    {
        let r = rank_char(i) as u32;
        if r == low || r == up_low {
            return Some(i);
        }
        i = i + 1;
    }
    None
}

/// Trimming `s[lo..hi]` leaves `s[a..b]`.
fn trim_bounds(s: &[char], lo: usize, hi: usize) -> (r: (usize, usize))
    requires
        lo <= hi <= s@.len(),
    ensures
        lo <= r.0 <= r.1 <= hi,
        trim(s@.subrange(lo as int, hi as int)) == s@.subrange(r.0 as int, r.1 as int),
{
    let mut a = lo;
    while a < hi && is_white(s[a])
        invariant
            lo <= a <= hi <= s@.len(),
            trim_start(s@.subrange(lo as int, hi as int)) == trim_start(s@.subrange(a as int, hi as int)),
        decreases hi - a,
    {
        assert(s@.subrange(a as int, hi as int).drop_first() =~= s@.subrange(a as int + 1, hi as int));
        a = a + 1;
    }
    let mut b = hi;
    while b > a && is_white(s[b - 1])
        invariant
            lo <= a <= b <= hi <= s@.len(),
            trim_end(s@.subrange(a as int, hi as int)) == trim_end(s@.subrange(a as int, b as int)),
        decreases b - a,
    {
        assert(s@.subrange(a as int, b as int).drop_last() =~= s@.subrange(a as int, b as int - 1));
        b = b - 1;
    }
    (a, b)
}

/// Position of the first `c` in `s[lo..hi]`, or `hi`.
fn find_char(s: &[char], c: char, lo: usize, hi: usize) -> (k: usize)
    requires
        lo <= hi <= s@.len(),
    ensures
        lo <= k <= hi,
        k - lo == find_from(s@.subrange(lo as int, hi as int), c, 0),
{
    let ghost t = s@.subrange(lo as int, hi as int);
    let mut i = lo;
    while i < hi
        invariant
            lo <= i <= hi <= s@.len(),
            t == s@.subrange(lo as int, hi as int),
            find_from(t, c, 0) == find_from(t, c, i - lo),
        decreases hi - i,
    {
        if s[i] == c {
            return i;
        }
        i = i + 1;
    }
    i
}

/// A copy of `s[lo..hi]`.
fn copy_range(s: &[char], lo: usize, hi: usize) -> (r: Vec<char>)
    requires
        lo <= hi <= s@.len(),
    ensures
        r@ == s@.subrange(lo as int, hi as int),
{
    let mut out: Vec<char> = Vec::new();
    let mut i = lo;
    while i < hi
        invariant
            lo <= i <= hi <= s@.len(),
            out@ == s@.subrange(lo as int, i as int),
        decreases hi - i,
    {
        out.push(s[i]);
        i = i + 1;
        assert(out@ =~= s@.subrange(lo as int, i as int));
    }
    out
}

/// The lower case of `s[lo..hi]`.
fn lower_range(s: &[char], lo: usize, hi: usize) -> (r: Vec<char>)
    requires
        lo <= hi <= s@.len(),
    ensures
        r@ == lower_all(s@.subrange(lo as int, hi as int)),
{
    let mut out: Vec<char> = Vec::new();
    let mut i = lo;
    while i < hi
        invariant
            lo <= i <= hi <= s@.len(),
            out@ == lower_all(s@.subrange(lo as int, i as int)),
        decreases hi - i,
    {
        out.push(to_lower(s[i]));
        i = i + 1;
        assert(out@ =~= lower_all(s@.subrange(lo as int, i as int)));
    }
    out
}

/// Whether two character vectors are equal.
fn same_chars(a: &Vec<char>, b: &Vec<char>) -> (r: bool)
    ensures
        r == (a@ == b@),
{
    if a.len() != b.len() {
        return false;
    }
    let mut i: usize = 0;
    while i < a.len()
        invariant
            i <= a@.len() == b@.len(),
            forall|k: int| 0 <= k < i ==> a@[k] == b@[k],
        decreases a@.len() - i,
    {
        if a[i] != b[i] {
            return false;
        }
        i = i + 1;
    }
    assert(a@ =~= b@);
    true
}

/// The hands of ranks `hi` down to `lo`, comma separated.
fn make_run(first: Option<char>, hi: usize, lo: usize, suffix: &Vec<char>) -> (r: Vec<char>)
    requires
        lo <= hi < 13,
    ensures
        r@ == run(first, hi as nat, lo as nat, suffix@),
    decreases hi - lo,
{
    let rc = rank_char(hi);
    let mut out: Vec<char> = Vec::new();
    match first {
        Some(f) => out.push(f),
        None => out.push(rc),
    }
    out.push(rc);
    let mut i: usize = 0;
    while i < suffix.len()
        invariant
            i <= suffix@.len(),
            out@ == run_item(first, hi as nat, suffix@.take(i as int)),
        decreases suffix@.len() - i,
    {
        out.push(suffix[i]);
        i = i + 1;
        assert(out@ =~= run_item(first, hi as nat, suffix@.take(i as int)));
    }
    assert(suffix@.take(i as int) =~= suffix@);
    if hi > lo {
        out.push(',');
        let mut rest = make_run(first, hi - 1, lo, suffix);
        let ghost head = out@;
        out.append(&mut rest);
        assert(out@ =~= run(first, hi as nat, lo as nat, suffix@));
    }
    out
}

/// Expansion of the token `s[lo..hi]`.
fn expand_token(s: &[char], lo: usize, hi: usize) -> (r: Vec<char>)
    requires
        lo <= hi <= s@.len(),
        !token_panics(s@.subrange(lo as int, hi as int)),
    ensures
        r@ == expand_token_spec(s@.subrange(lo as int, hi as int)),
{
    let ghost token = s@.subrange(lo as int, hi as int);
    let (a, b) = trim_bounds(s, lo, hi);
    let ghost t = s@.subrange(a as int, b as int);
    if a == b {
        return Vec::new();
    }
    let k = find_char(s, '-', a, b);
    if k == b {
        return copy_range(s, a, b);
    }
    assert(t.take(k - a) =~= s@.subrange(a as int, k as int));
    assert(t.skip(k - a + 1) =~= s@.subrange(k + 1, b as int));
    let (ha, hb) = trim_bounds(s, a, k);
    let (la, lb) = trim_bounds(s, k + 1, b);
    let ghost hi_s = s@.subrange(ha as int, hb as int);
    let ghost lo_s = s@.subrange(la as int, lb as int);
    assert(hi_s == hi_part(t));
    assert(lo_s == lo_part(t));
    let hi_short = hb == ha || (hb - ha == 1 && (s[ha] as u32) < 0x80);
    let lo_short = lb == la || (lb - la == 1 && (s[la] as u32) < 0x80);
    if hi_short || lo_short {
        return copy_range(s, a, b);
    }
    let h1 = to_upper(s[ha]);
    let h2 = to_upper(s[ha + 1]);
    let l1 = to_upper(s[la]);
    let l2 = to_upper(s[la + 1]);
    let hs = lower_range(s, ha + 2, hb);
    let ls = lower_range(s, la + 2, lb);
    assert(hi_s.skip(2) =~= s@.subrange(ha + 2, hb as int));
    assert(lo_s.skip(2) =~= s@.subrange(la + 2, lb as int));
    if !same_chars(&hs, &ls) {
        return copy_range(s, a, b);
    }
    if h1 == h2 && l1 == l2 && hs.len() == 0 {
        match (rank_idx(h1), rank_idx(l1)) {
            (Some(x), Some(y)) => {
                if x >= y {
                    return make_run(None, x, y, &hs);
                }
            },
            _ => {},
        }
        return copy_range(s, a, b);
    }
    if h1 == l1 && hs.len() > 0 {
        match (rank_idx(h2), rank_idx(l2)) {
            (Some(x), Some(y)) => {
                if x >= y {
                    return make_run(Some(h1), x, y, &hs);
                }
            },
            _ => {},
        }
        return copy_range(s, a, b);
    }
    copy_range(s, a, b)
}

/// Expands every hyphen token of a PPT range string; see
/// `expand_range_spec`. Empty tokens are dropped.
pub fn expand_ppt_range(range: &str) -> (r: String)
    requires
        no_token_panics(range@, 0),
    ensures
        r@ == expand_range_spec(range@),
{
    let s = chars_of(range);
    let n = s.len();
    let mut out: Vec<char> = Vec::new();
    let mut pos: usize = 0;
    loop
        invariant
            s@ == range@,
            n == s@.len(),
            pos <= n,
            no_token_panics(s@, pos as int),
            expand_from(s@, pos as int, out@) == expand_range_spec(s@),
        decreases n - pos,
    {
        let k = find_char(s.as_slice(), ',', pos, n);
        assert(find_from(s@, ',', pos as int) == k) by {
            lemma_find_from_shift(s@, ',', pos as int, n as int);
        }
        let e = expand_token(s.as_slice(), pos, k);
        let ghost before = out@;
        if e.len() > 0 {
            if out.len() > 0 {
                out.push(',');
            }
            let mut e2 = e;
            out.append(&mut e2);
        }
        assert(out@ =~= join_step(before, expand_token_spec(s@.subrange(pos as int, k as int))));
        if k >= n {
            return string_of(&out);
        }
        pos = k + 1;
    }
}

/// Searching a subrange from its start finds the first match of the
/// whole sequence at or after that start, shifted.
proof fn lemma_find_from_shift(s: Seq<char>, c: char, lo: int, hi: int)
    requires
        0 <= lo <= hi == s.len(),
    ensures
        find_from(s.subrange(lo, hi), c, 0) + lo == find_from(s, c, lo),
    decreases hi - lo,
{
    let t = s.subrange(lo, hi);
    if lo < hi && s[lo] != c {
        lemma_find_from_shift(s, c, lo + 1, hi);
        lemma_find_from_offset(s, c, lo, hi, 1);
    }
}

/// Searching a subrange from an offset is searching the subrange that
/// starts there.
proof fn lemma_find_from_offset(s: Seq<char>, c: char, lo: int, hi: int, off: int)
    requires
        0 <= lo,
        0 <= off,
        lo + off <= hi == s.len(),
    ensures
        find_from(s.subrange(lo, hi), c, off) == find_from(s.subrange(lo + off, hi), c, 0) + off,
    decreases hi - lo - off,
{
    if lo + off < hi && s[lo + off] != c {
        lemma_find_from_offset(s, c, lo, hi, off + 1);
        lemma_find_from_offset(s, c, lo + off, hi, 1);
    }
}

} // verus!
