//! Relevance scoring for fuzzy queries.
//!
//! Both the query and the candidate are tokenized on the boundary
//! predicate of [`crate::text::is_punctuation`]; every query token must
//! occur as a substring of some candidate token, and each occurrence
//! contributes a weight that rewards long matches, matches early in a
//! token, and tokens at aligned positions. Weights are fixed-point
//! numbers: the real-valued weight scaled by [`SCORE_SCALE`], rounded
//! up, so that every occurrence contributes at least one unit.

use vstd::prelude::*;

use crate::text;
use crate::text::is_boundary_char;
use crate::text::utf8_len;

verus! {

/// Fixed-point scale: a score of `SCORE_SCALE` stands for 1.0.
pub const SCORE_SCALE: u64 = 1000000;

/// One step of a left-to-right tokenizing scan: `cur` is the token
/// being accumulated, `out` the tokens already finished.
pub open spec fn tokens_from(s: Seq<char>, i: int, cur: Seq<char>, out: Seq<Seq<char>>) -> Seq<
    Seq<char>,
>
    decreases s.len() - i,
{
    if i < 0 || i >= s.len() {
        if cur.len() > 0 {
            out.push(cur)
        } else {
            out
        }
    } else if is_boundary_char(s[i]) {
        if cur.len() > 0 {
            tokens_from(s, i + 1, Seq::empty(), out.push(cur))
        } else {
            tokens_from(s, i + 1, cur, out)
        }
    } else {
        tokens_from(s, i + 1, cur.push(s[i]), out)
    }
}

/// The tokens of `s`: its maximal runs of non-boundary characters.
pub open spec fn tokens(s: Seq<char>) -> Seq<Seq<char>> {
    tokens_from(s, 0, Seq::empty(), Seq::empty())
}

/// Every token is a nonempty run.
pub proof fn lemma_tokens_nonempty(s: Seq<char>)
    ensures
        forall|k: int| 0 <= k < tokens(s).len() ==> #[trigger] tokens(s)[k].len() > 0,
{
    lemma_tokens_nonempty_general(s, 0, Seq::empty(), Seq::empty());
}

proof fn lemma_tokens_nonempty_general(s: Seq<char>, i: int, cur: Seq<char>, out: Seq<Seq<char>>)
    requires
        forall|k: int| 0 <= k < out.len() ==> #[trigger] out[k].len() > 0,
    ensures
        forall|k: int|
            0 <= k < tokens_from(s, i, cur, out).len() ==> #[trigger] tokens_from(
                s,
                i,
                cur,
                out,
            )[k].len() > 0,
    decreases s.len() - i,
{
    if cur.len() > 0 {
        assert forall|k: int| 0 <= k < out.push(cur).len() implies #[trigger] out.push(
            cur,
        )[k].len() > 0 by {
            if k < out.len() {
                assert(out.push(cur)[k] == out[k]);
            }
        }
    }
    if i < 0 || i >= s.len() {
        if cur.len() > 0 {
            assert(tokens_from(s, i, cur, out) == out.push(cur));
        } else {
            assert(tokens_from(s, i, cur, out) == out);
        }
    } else if is_boundary_char(s[i]) {
        if cur.len() > 0 {
            lemma_tokens_nonempty_general(s, i + 1, Seq::empty(), out.push(cur));
            assert(tokens_from(s, i, cur, out) == tokens_from(s, i + 1, Seq::empty(), out.push(cur)));
        } else {
            lemma_tokens_nonempty_general(s, i + 1, cur, out);
            assert(tokens_from(s, i, cur, out) == tokens_from(s, i + 1, cur, out));
        }
    } else {
        lemma_tokens_nonempty_general(s, i + 1, cur.push(s[i]), out);
        assert(tokens_from(s, i, cur, out) == tokens_from(s, i + 1, cur.push(s[i]), out));
    }
}

/// Splits `s` into its tokens.
pub fn tokenize(s: &[char]) -> (r: Vec<Vec<char>>)
    ensures
        r.deep_view() == tokens(s@),
{
    let mut out: Vec<Vec<char>> = Vec::new();
    let mut cur: Vec<char> = Vec::new();
    let mut i: usize = 0;
    assert(out.deep_view() =~~= Seq::<Seq<char>>::empty());
    while i < s.len()
        invariant
            i <= s.len(),
            tokens(s@) == tokens_from(s@, i as int, cur@, out.deep_view()),
        decreases s.len() - i,
    {
        if text::is_punctuation(s[i]) {
            if cur.len() > 0 {
                let ghost prev = out.deep_view();
                out.push(cur);
                assert(out.deep_view() =~~= prev.push(cur@));
                cur = Vec::new();
            }
        } else {
            cur.push(s[i]);
        }
        i += 1;
    }
    if cur.len() > 0 {
        let ghost prev = out.deep_view();
        out.push(cur);
        assert(out.deep_view() =~~= prev.push(cur@));
    }
    out
}

/// Division rounding up, for nonnegative operands.
pub open spec fn ceil_div(a: int, b: int) -> int {
    (a + b - 1) / b
}

/// `p` occurs in `t` at offset `j` and nowhere earlier; `-1` when `p`
/// occurs nowhere at or after `j`.
pub open spec fn first_match_from(t: Seq<char>, p: Seq<char>, j: int) -> int
    decreases t.len() - j + 1,
{
    if j < 0 || j + p.len() > t.len() {
        -1
    } else if t.subrange(j, j + p.len() as int) == p {
        j
    } else {
        first_match_from(t, p, j + 1)
    }
}

/// Offset of the first occurrence of `p` in `t`, `-1` when none.
pub open spec fn first_match(t: Seq<char>, p: Seq<char>) -> int {
    first_match_from(t, p, 0)
}

/// Positional-alignment weight, scaled by 10: 1.0, 0.9, 0.8, 0.7, then
/// 0.6 for token positions four or more apart.
pub open spec fn distance_weight(pi: int, ti: int) -> int {
    let d = if ti >= pi {
        ti - pi
    } else {
        pi - ti
    };
    if d == 0 {
        10
    } else if d == 1 {
        9
    } else if d == 2 {
        8
    } else if d == 3 {
        7
    } else {
        6
    }
}

/// Weight that candidate token `t` (position `ti`) contributes for
/// query token `p` (position `pi`): zero when `p` does not occur in
/// `t`; otherwise `filled * 2 + index * 2 * distance` scaled by
/// `SCORE_SCALE` and rounded up, where `filled` is the byte length of
/// `p` over that of `t`, and `index` falls off linearly with the byte
/// offset of the first occurrence.
pub open spec fn contribution(p: Seq<char>, pi: int, t: Seq<char>, ti: int) -> int {
    let j = first_match(t, p);
    if j < 0 {
        0
    } else {
        let plen = utf8_len(p);
        let tlen = utf8_len(t);
        let off = utf8_len(t.take(j));
        ceil_div(
            (20 * plen + 2 * distance_weight(pi, ti) * (tlen - off)) * (SCORE_SCALE as int),
            10 * tlen,
        )
    }
}

/// Addition clamped at `u64::MAX`.
pub open spec fn sat_add_u64(a: int, b: int) -> int {
    if a + b > u64::MAX {
        u64::MAX as int
    } else {
        a + b
    }
}

/// Total weight of query token `p` over the first `n` candidate tokens.
pub open spec fn part_score_upto(p: Seq<char>, pi: int, ts: Seq<Seq<char>>, n: int) -> int
    decreases n,
{
    if n <= 0 {
        0
    } else {
        sat_add_u64(part_score_upto(p, pi, ts, n - 1), contribution(p, pi, ts[n - 1], n - 1))
    }
}

/// Total weight of query token `p` over all candidate tokens.
pub open spec fn part_score(p: Seq<char>, pi: int, ts: Seq<Seq<char>>) -> int {
    part_score_upto(p, pi, ts, ts.len() as int)
}

/// Some query token among the first `n` contributes nothing at all.
pub open spec fn some_part_misses(ps: Seq<Seq<char>>, ts: Seq<Seq<char>>, n: int) -> bool {
    exists|pi: int| 0 <= pi < n && #[trigger] part_score(ps[pi], pi, ts) == 0
}

/// Sum of the first `n` query tokens' weights.
pub open spec fn total_score_upto(ps: Seq<Seq<char>>, ts: Seq<Seq<char>>, n: int) -> int
    decreases n,
{
    if n <= 0 {
        0
    } else {
        sat_add_u64(total_score_upto(ps, ts, n - 1), part_score(ps[n - 1], n - 1, ts))
    }
}

/// The relevance score of candidate `c` for query `q`: zero when some
/// query token occurs in no candidate token, otherwise the saturating
/// sum of every query token's weight against every candidate token.
pub open spec fn spec_score(q: Seq<char>, c: Seq<char>) -> int {
    let ps = tokens(q);
    let ts = tokens(c);
    if some_part_misses(ps, ts, ps.len() as int) {
        0
    } else {
        total_score_upto(ps, ts, ps.len() as int)
    }
}

proof fn lemma_utf8_len_snoc(s: Seq<char>, c: char)
    ensures
        utf8_len(s.push(c)) == utf8_len(s) + text::char_utf8_len(c),
{
    assert(s.push(c) =~= s + seq![c]);
    text::lemma_utf8_len_concat(s, seq![c]);
    assert(seq![c][0] == c);
    assert(seq![c].drop_first() =~= Seq::<char>::empty());
    assert(utf8_len(seq![c]) == text::char_utf8_len(c) + utf8_len(seq![c].drop_first()));
}

/// Encoded byte length of the first `n` characters of `s`.
fn utf8_len_prefix(s: &[char], n: usize) -> (r: u128)
    requires
        n <= s.len(),
    ensures
        r == utf8_len(s@.take(n as int)),
        r <= 4 * n,
{
    let mut r: u128 = 0;
    let mut i: usize = 0;
    assert(s@.take(0) =~= Seq::<char>::empty());
    while i < n
        invariant
            i <= n <= s.len(),
            r == utf8_len(s@.take(i as int)),
            r <= 4 * i,
        decreases n - i,
    {
        let c = s[i];
        proof {
            assert(s@.take(i + 1) =~= s@.take(i as int).push(s@[i as int]));
            lemma_utf8_len_snoc(s@.take(i as int), s@[i as int]);
        }
        r = r + text::char_len_utf8(c) as u128;
        i += 1;
    }
    r
}

/// Whether `p` occurs in `t` at offset `j`.
fn slice_eq_at(t: &[char], p: &[char], j: usize) -> (r: bool)
    requires
        j + p.len() <= t.len(),
    ensures
        r == (t@.subrange(j as int, j + p.len()) == p@),
{
    let mut k: usize = 0;
    while k < p.len()
        invariant
            k <= p.len(),
            j + p.len() <= t.len(),
            forall|m: int| 0 <= m < k ==> t@[j + m] == p@[m],
        decreases p.len() - k,
    {
        if t[j + k] != p[k] {
            assert(t@.subrange(j as int, j + p.len())[k as int] == t@[j + k]);
            return false;
        }
        k += 1;
    }
    assert(t@.subrange(j as int, j + p.len()) =~= p@);
    true
}

/// Offset of the first occurrence of `p` in `t`, if any.
fn find_first(t: &[char], p: &[char]) -> (r: Option<usize>)
    ensures
        match r {
            Some(j) => first_match(t@, p@) == j as int,
            None => first_match(t@, p@) == -1,
        },
{
    if p.len() > t.len() {
        return None;
    }
    let bound = t.len() - p.len();
    let mut j: usize = 0;
    loop
        invariant
            bound == t.len() - p.len(),
            p.len() <= t.len(),
            j <= bound,
            first_match(t@, p@) == first_match_from(t@, p@, j as int),
        decreases bound - j,
    {
        if slice_eq_at(t, p, j) {
            return Some(j);
        }
        if j == bound {
            assert(first_match_from(t@, p@, j as int) == first_match_from(t@, p@, j + 1));
            assert(first_match_from(t@, p@, j + 1) == -1);
            return None;
        }
        j += 1;
    }
}

proof fn lemma_ceil_div_bounds(a: int, den: int, k: int)
    requires
        den > 0,
        0 <= a,
        a <= k * den,
    ensures
        0 <= ceil_div(a, den) <= k,
        a >= 1 ==> ceil_div(a, den) >= 1,
{
    let b = a + den - 1;
    vstd::arithmetic::div_mod::lemma_fundamental_div_mod(b, den);
    let q = b / den;
    let r = b % den;
    assert(b == den * q + r);
    assert(0 <= r < den);
    assert(q <= k) by (nonlinear_arith)
        requires
            den > 0,
            b == den * q + r,
            0 <= r < den,
            b <= k * den + den - 1,
    ;
    assert(q >= 0) by (nonlinear_arith)
        requires
            den > 0,
            b == den * q + r,
            0 <= r < den,
            b >= 0,
    ;
    if a >= 1 {
        assert(q >= 1) by (nonlinear_arith)
            requires
                den > 0,
                b == den * q + r,
                0 <= r < den,
                b >= den,
        ;
    }
}

/// In a match, the query token's bytes lie within the candidate
/// token's bytes after the match offset.
proof fn lemma_match_fits(t: Seq<char>, p: Seq<char>, j: int)
    requires
        0 <= j,
        j + p.len() <= t.len(),
        t.subrange(j, j + p.len() as int) == p,
    ensures
        0 <= utf8_len(t.take(j)),
        utf8_len(t.take(j)) + utf8_len(p) <= utf8_len(t),
        utf8_len(t) >= t.len(),
{
    text::lemma_utf8_len_bounds(t);
    text::lemma_utf8_len_bounds(t.take(j));
    text::lemma_utf8_len_split(t, j);
    text::lemma_utf8_len_split(t.skip(j), p.len() as int);
    assert(t.skip(j).take(p.len() as int) =~= t.subrange(j, j + p.len() as int));
    text::lemma_utf8_len_bounds(t.skip(j).skip(p.len() as int));
}

/// `first_match` never reports an offset out of range.
proof fn lemma_first_match_valid(t: Seq<char>, p: Seq<char>, j: int)
    requires
        first_match_from(t, p, j) >= 0,
    ensures
        j <= first_match_from(t, p, j),
        first_match_from(t, p, j) + p.len() <= t.len(),
        t.subrange(first_match_from(t, p, j), first_match_from(t, p, j) + p.len() as int) == p,
    decreases t.len() - j + 1,
{
    if j < 0 || j + p.len() > t.len() {
    } else if t.subrange(j, j + p.len() as int) == p {
    } else {
        lemma_first_match_valid(t, p, j + 1);
    }
}

/// A found occurrence always contributes at least one scale unit, and
/// at most `4 * SCORE_SCALE + 1`.
proof fn lemma_contribution_range(p: Seq<char>, pi: int, t: Seq<char>, ti: int)
    requires
        t.len() > 0,
    ensures
        first_match(t, p) == -1 ==> contribution(p, pi, t, ti) == 0,
        first_match(t, p) >= 0 ==> 1 <= contribution(p, pi, t, ti) <= 4 * SCORE_SCALE + 1,
{
    let j = first_match(t, p);
    if j >= 0 {
        lemma_first_match_valid(t, p, 0);
        lemma_match_fits(t, p, j);
        let plen = utf8_len(p);
        let tlen = utf8_len(t);
        let off = utf8_len(t.take(j));
        let d = distance_weight(pi, ti);
        text::lemma_utf8_len_bounds(p);
        let num = (20 * plen + 2 * d * (tlen - off)) * (SCORE_SCALE as int);
        let den = 10 * tlen;
        assert(6 <= d <= 10);
        assert(2 * d * (tlen - off) >= 0) by (nonlinear_arith)
            requires
                d >= 6,
                tlen - off >= 0,
        ;
        assert(2 * d * (tlen - off) <= 20 * (tlen - off)) by (nonlinear_arith)
            requires
                6 <= d <= 10,
                tlen - off >= 0,
        ;
        assert(num <= 40 * tlen * (SCORE_SCALE as int)) by (nonlinear_arith)
            requires
                num == (20 * plen + 2 * d * (tlen - off)) * (SCORE_SCALE as int),
                20 * plen + 2 * d * (tlen - off) <= 40 * tlen,
        ;
        assert(40 * tlen * (SCORE_SCALE as int) == (4 * SCORE_SCALE + 1) * den - den) by (nonlinear_arith)
            requires
                den == 10 * tlen,
        ;
        if plen >= 1 {
            assert(num >= 20 * (SCORE_SCALE as int));
        } else {
            assert(p.len() == 0);
            assert(t.subrange(0, 0) =~= p);
            assert(first_match_from(t, p, 0) == 0);
            assert(t.take(0) =~= Seq::<char>::empty());
            assert(off == 0);
            assert(tlen >= t.len() >= 1);
            assert(num >= 12 * (SCORE_SCALE as int)) by (nonlinear_arith)
                requires
                    num == (20 * plen + 2 * d * (tlen - off)) * (SCORE_SCALE as int),
                    plen >= 0,
                    d >= 6,
                    off == 0,
                    tlen >= 1,
            ;
        }
        lemma_ceil_div_bounds(num, den, 4 * SCORE_SCALE + 1);
    }
}

/// Computes [`contribution`].
fn contribution_of(p: &[char], pi: usize, t: &[char], ti: usize) -> (r: u64)
    requires
        t@.len() > 0,
    ensures
        r == contribution(p@, pi as int, t@, ti as int),
{
    proof {
        lemma_contribution_range(p@, pi as int, t@, ti as int);
    }
    match find_first(t, p) {
        None => 0,
        Some(j) => {
            proof {
                lemma_first_match_valid(t@, p@, 0);
                lemma_match_fits(t@, p@, j as int);
                text::lemma_utf8_len_bounds(p@);
                text::lemma_utf8_len_bounds(t@);
                text::lemma_utf8_len_bounds(t@.take(j as int));
            }
            let plen = utf8_len_prefix(p, p.len());
            let tlen = utf8_len_prefix(t, t.len());
            let off = utf8_len_prefix(t, j);
            assert(p@.take(p@.len() as int) =~= p@);
            assert(t@.take(t@.len() as int) =~= t@);
            let diff = if ti >= pi {
                ti - pi
            } else {
                pi - ti
            };
            let d: u128 = if diff == 0 {
                10
            } else if diff == 1 {
                9
            } else if diff == 2 {
                8
            } else if diff == 3 {
                7
            } else {
                6
            };
            proof {
                assert(2 * (d as int) * ((tlen - off) as int) <= 20 * ((tlen - off) as int))
                    by (nonlinear_arith)
                    requires
                        d <= 10,
                        off <= tlen,
                ;
                assert(20 * ((tlen - off) as int) <= 20 * (tlen as int));
            }
            let num: u128 = (20 * plen + 2 * d * (tlen - off)) * (SCORE_SCALE as u128);
            let den: u128 = 10 * tlen;
            let c: u128 = (num + (den - 1)) / den;
            proof {
                assert(c == contribution(p@, pi as int, t@, ti as int));
            }
            c as u64
        },
    }
}

proof fn lemma_first_match_lb(t: Seq<char>, p: Seq<char>, j: int)
    ensures
        first_match_from(t, p, j) == -1 || first_match_from(t, p, j) >= j,
    decreases t.len() - j + 1,
{
    if j < 0 || j + p.len() > t.len() {
    } else if t.subrange(j, j + p.len() as int) == p {
    } else {
        lemma_first_match_lb(t, p, j + 1);
    }
}

proof fn lemma_part_bounds(p: Seq<char>, pi: int, ts: Seq<Seq<char>>, n: int)
    requires
        forall|k: int| 0 <= k < ts.len() ==> #[trigger] ts[k].len() > 0,
        0 <= n <= ts.len(),
    ensures
        0 <= part_score_upto(p, pi, ts, n) <= u64::MAX,
    decreases n,
{
    if n > 0 {
        lemma_part_bounds(p, pi, ts, n - 1);
        lemma_contribution_range(p, pi, ts[n - 1], n - 1);
        lemma_first_match_lb(ts[n - 1], p, 0);
    }
}

proof fn lemma_part_zero_iff(p: Seq<char>, pi: int, ts: Seq<Seq<char>>, n: int)
    requires
        forall|k: int| 0 <= k < ts.len() ==> #[trigger] ts[k].len() > 0,
        0 <= n <= ts.len(),
    ensures
        part_score_upto(p, pi, ts, n) == 0 <==> (forall|ti: int|
            0 <= ti < n ==> first_match(#[trigger] ts[ti], p) == -1),
    decreases n,
{
    if n > 0 {
        lemma_part_zero_iff(p, pi, ts, n - 1);
        lemma_part_bounds(p, pi, ts, n - 1);
        lemma_contribution_range(p, pi, ts[n - 1], n - 1);
        lemma_first_match_lb(ts[n - 1], p, 0);
    }
}

proof fn lemma_total_bounds(ps: Seq<Seq<char>>, ts: Seq<Seq<char>>, n: int)
    requires
        forall|k: int| 0 <= k < ts.len() ==> #[trigger] ts[k].len() > 0,
    ensures
        0 <= total_score_upto(ps, ts, n) <= u64::MAX,
    decreases n,
{
    if n > 0 {
        lemma_total_bounds(ps, ts, n - 1);
        lemma_part_bounds(ps[n - 1], n - 1, ts, ts.len() as int);
    }
}

proof fn lemma_total_zero_iff(ps: Seq<Seq<char>>, ts: Seq<Seq<char>>, n: int)
    requires
        forall|k: int| 0 <= k < ts.len() ==> #[trigger] ts[k].len() > 0,
        0 <= n,
    ensures
        total_score_upto(ps, ts, n) == 0 <==> (forall|pi: int|
            0 <= pi < n ==> part_score(#[trigger] ps[pi], pi, ts) == 0),
    decreases n,
{
    if n > 0 {
        lemma_total_zero_iff(ps, ts, n - 1);
        lemma_total_bounds(ps, ts, n - 1);
        lemma_part_bounds(ps[n - 1], n - 1, ts, ts.len() as int);
    }
}

/// The score is zero exactly when some query token occurs as a
/// substring of no candidate token — provided the query has at least
/// one token (a token-less query always scores zero).
pub proof fn lemma_score_zero_iff(q: Seq<char>, c: Seq<char>)
    requires
        tokens(q).len() > 0,
    ensures
        spec_score(q, c) == 0 <==> (exists|pi: int|
            0 <= pi < tokens(q).len() && (forall|ti: int|
                0 <= ti < tokens(c).len() ==> first_match(
                    tokens(c)[ti],
                    #[trigger] tokens(q)[pi],
                ) == -1)),
{
    let ps = tokens(q);
    let ts = tokens(c);
    lemma_tokens_nonempty(c);
    assert forall|pi: int| 0 <= pi < ps.len() implies (part_score(#[trigger] ps[pi], pi, ts) == 0
        <==> (forall|ti: int| 0 <= ti < ts.len() ==> first_match(#[trigger] ts[ti], ps[pi])
            == -1)) by {
        lemma_part_zero_iff(ps[pi], pi, ts, ts.len() as int);
    }
    lemma_total_zero_iff(ps, ts, ps.len() as int);
    if some_part_misses(ps, ts, ps.len() as int) {
        let pi = choose|pi: int|
            0 <= pi < ps.len() && #[trigger] part_score(ps[pi], pi, ts) == 0;
        assert(forall|ti: int| 0 <= ti < ts.len() ==> first_match(#[trigger] ts[ti], ps[pi])
            == -1);
        assert(0 <= pi < tokens(q).len() && (forall|ti: int|
            0 <= ti < tokens(c).len() ==> first_match(tokens(c)[ti], tokens(q)[pi]) == -1));
    } else {
        assert(spec_score(q, c) == total_score_upto(ps, ts, ps.len() as int));
        if spec_score(q, c) == 0 {
            assert(part_score(ps[0], 0, ts) == 0);
            assert(false);
        }
        if exists|pi: int|
            0 <= pi < tokens(q).len() && (forall|ti: int|
                0 <= ti < tokens(c).len() ==> first_match(
                    tokens(c)[ti],
                    #[trigger] tokens(q)[pi],
                ) == -1) {
            let pi = choose|pi: int|
                0 <= pi < tokens(q).len() && (forall|ti: int|
                    0 <= ti < tokens(c).len() ==> first_match(
                        tokens(c)[ti],
                        #[trigger] tokens(q)[pi],
                    ) == -1);
            assert(part_score(ps[pi], pi, ts) == 0);
            assert(false);
        }
    }
}

/// A score always fits in a `u64`.
pub proof fn lemma_score_bounds(q: Seq<char>, c: Seq<char>)
    ensures
        0 <= spec_score(q, c) <= u64::MAX,
{
    lemma_tokens_nonempty(c);
    lemma_total_bounds(tokens(q), tokens(c), tokens(q).len() as int);
}

/// Addition clamped at `u64::MAX`.
fn sat_add(a: u64, b: u64) -> (r: u64)
    ensures
        r == sat_add_u64(a as int, b as int),
{
    if a > u64::MAX - b {
        u64::MAX
    } else {
        a + b
    }
}

/// Total weight of query token `p` against every candidate token.
fn part_score_of(p: &[char], pi: usize, ts: &Vec<Vec<char>>) -> (r: u64)
    requires
        forall|k: int| 0 <= k < ts@.len() ==> #[trigger] ts@[k]@.len() > 0,
    ensures
        r == part_score(p@, pi as int, ts.deep_view()),
{
    let ghost dv = ts.deep_view();
    let mut r: u64 = 0;
    let mut ti: usize = 0;
    while ti < ts.len()
        invariant
            ti <= ts.len(),
            dv == ts.deep_view(),
            forall|k: int| 0 <= k < ts@.len() ==> #[trigger] ts@[k]@.len() > 0,
            r == part_score_upto(p@, pi as int, dv, ti as int),
        decreases ts.len() - ti,
    {
        assert(dv[ti as int] =~= ts@[ti as int]@);
        let c = contribution_of(p, pi, ts[ti].as_slice(), ti);
        r = sat_add(r, c);
        ti += 1;
    }
    r
}

/// Scores candidate `target` for query `matcher` over character
/// slices.
pub fn calc_score_chars(matcher: &[char], target: &[char]) -> (score: u64)
    ensures
        score == spec_score(matcher@, target@),
{
    let ghost psg = tokens(matcher@);
    let ghost tsg = tokens(target@);
    let ps = tokenize(matcher);
    let ts = tokenize(target);
    proof {
        lemma_tokens_nonempty(target@);
        assert forall|k: int| 0 <= k < ts@.len() implies #[trigger] ts@[k]@.len() > 0 by {
            assert(ts.deep_view()[k] =~= ts@[k]@);
        }
    }
    let mut total: u64 = 0;
    let mut pi: usize = 0;
    while pi < ps.len()
        invariant
            pi <= ps.len(),
            ps.deep_view() == psg,
            ts.deep_view() == tsg,
            psg == tokens(matcher@),
            tsg == tokens(target@),
            forall|k: int| 0 <= k < ts@.len() ==> #[trigger] ts@[k]@.len() > 0,
            !some_part_misses(psg, tsg, pi as int),
            total == total_score_upto(psg, tsg, pi as int),
        decreases ps.len() - pi,
    {
        assert(ps.deep_view()[pi as int] =~= ps@[pi as int]@);
        let part = part_score_of(ps[pi].as_slice(), pi, &ts);
        if part == 0 {
            assert(part_score(psg[pi as int], pi as int, tsg) == 0);
            assert(some_part_misses(psg, tsg, psg.len() as int));
            return 0;
        }
        total = sat_add(total, part);
        assert(!some_part_misses(psg, tsg, pi + 1)) by {
            if some_part_misses(psg, tsg, pi + 1) {
                let w = choose|w: int|
                    0 <= w < pi + 1 && #[trigger] part_score(psg[w], w, tsg) == 0;
                assert(part_score(psg[pi as int], pi as int, tsg) != 0);
            }
        }
        pi += 1;
    }
    total
}

/// Scores candidate `target` for query `matcher`: how strongly the
/// query's tokens select the candidate, zero when any query token is
/// absent from it.
pub fn calc_score(matcher: &str, target: &str) -> (score: u64)
    ensures
        score == spec_score(matcher@, target@),
{
    let q = text::chars_of(matcher);
    let t = text::chars_of(target);
    calc_score_chars(q.as_slice(), t.as_slice())
}

} // verus!
