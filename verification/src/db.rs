//! The index: a sorted, newline-delimited, deduplicated text buffer of
//! records, with incremental insertion, bulk rebuild, filtering, and a
//! read-only view for repeated ranked queries.

use vstd::prelude::*;

use crate::fuzzy;
use crate::text;

verus! {

/// Strict lexicographic order on character sequences, by code point —
/// the order of the corresponding UTF-8 byte strings.
pub open spec fn lex_lt(a: Seq<char>, b: Seq<char>) -> bool
    decreases a.len(),
{
    if b.len() == 0 {
        false
    } else if a.len() == 0 {
        true
    } else if a[0] != b[0] {
        a[0] < b[0]
    } else {
        lex_lt(a.drop_first(), b.drop_first())
    }
}

pub proof fn lemma_lex_trans(a: Seq<char>, b: Seq<char>, c: Seq<char>)
    requires
        lex_lt(a, b),
        lex_lt(b, c),
    ensures
        lex_lt(a, c),
    decreases a.len(),
{
    if a.len() > 0 && b.len() > 0 && c.len() > 0 {
        if a[0] == b[0] && b[0] == c[0] {
            lemma_lex_trans(a.drop_first(), b.drop_first(), c.drop_first());
        }
    }
}

/// Exactly one of `a < b`, `a == b`, `b < a` holds.
pub proof fn lemma_lex_trichotomy(a: Seq<char>, b: Seq<char>)
    ensures
        lex_lt(a, b) || a == b || lex_lt(b, a),
        lex_lt(a, b) ==> a != b && !lex_lt(b, a),
        a == b ==> !lex_lt(a, b) && !lex_lt(b, a),
    decreases a.len(),
{
    if a.len() == 0 && b.len() == 0 {
        assert(a =~= b);
    } else if a.len() > 0 && b.len() > 0 && a[0] == b[0] {
        lemma_lex_trichotomy(a.drop_first(), b.drop_first());
        if a.drop_first() == b.drop_first() {
            assert forall|i: int| 0 <= i < a.len() implies a[i] == b[i] by {
                if i > 0 {
                    assert(a.drop_first()[i - 1] == b.drop_first()[i - 1]);
                }
            }
            assert(a =~= b);
        }
        if a == b {
            assert(a.drop_first() =~= b.drop_first());
        }
    } else if a.len() > 0 && b.len() > 0 {
        assert(a[0] != b[0]);
        if a[0] < b[0] {
            assert(lex_lt(a, b));
        } else {
            assert(lex_lt(b, a));
        }
        assert(a != b);
    } else if a.len() == 0 {
        assert(lex_lt(a, b));
        assert(a != b);
        assert(!lex_lt(b, a));
    } else {
        assert(lex_lt(b, a));
        assert(a != b);
        assert(!lex_lt(a, b));
    }
}

/// Equal prefixes do not affect the comparison of the remainders.
proof fn lemma_lex_skip(a: Seq<char>, b: Seq<char>, i: int)
    requires
        0 <= i <= a.len(),
        i <= b.len(),
        forall|j: int| 0 <= j < i ==> a[j] == b[j],
    ensures
        lex_lt(a, b) == lex_lt(a.skip(i), b.skip(i)),
        (a == b) == (a.skip(i) == b.skip(i)),
    decreases i,
{
    if i > 0 {
        assert(a.len() > 0 && b.len() > 0 && a[0] == b[0]);
        lemma_lex_skip(a.drop_first(), b.drop_first(), i - 1);
        assert(a.drop_first().skip(i - 1) =~= a.skip(i));
        assert(b.drop_first().skip(i - 1) =~= b.skip(i));
        if a.drop_first() == b.drop_first() {
            assert forall|j: int| 0 <= j < a.len() implies a[j] == b[j] by {
                if j > 0 {
                    assert(a.drop_first()[j - 1] == b.drop_first()[j - 1]);
                }
            }
            assert(a =~= b);
        }
        if a == b {
            assert(a.drop_first() =~= b.drop_first());
        }
    } else {
        assert(a.skip(0) =~= a);
        assert(b.skip(0) =~= b);
    }
}

/// Three-way comparison of two character slices: `-1`, `0` or `1` as
/// `a` is before, equal to, or after `b` in lexicographic order.
pub fn chars_cmp(a: &[char], b: &[char]) -> (r: i8)
    ensures
        r == -1 || r == 0 || r == 1,
        (r == 0) <==> (a@ == b@),
        (r == -1) <==> lex_lt(a@, b@),
        (r == 1) <==> lex_lt(b@, a@),
{
    proof {
        lemma_lex_trichotomy(a@, b@);
    }
    let mut i: usize = 0;
    while i < a.len() && i < b.len()
        invariant
            i <= a.len(),
            i <= b.len(),
            forall|j: int| 0 <= j < i ==> a@[j] == b@[j],
        decreases a.len() - i,
    {
        let x = a[i];
        let y = b[i];
        if x < y {
            proof {
                lemma_lex_skip(a@, b@, i as int);
                let sa = a@.skip(i as int);
                let sb = b@.skip(i as int);
                assert(sa[0] == a@[i as int]);
                assert(sb[0] == b@[i as int]);
                assert(lex_lt(sa, sb));
                lemma_lex_trichotomy(a@, b@);
            }
            return -1;
        }
        if y < x {
            proof {
                lemma_lex_skip(b@, a@, i as int);
                let sa = a@.skip(i as int);
                let sb = b@.skip(i as int);
                assert(sa[0] == a@[i as int]);
                assert(sb[0] == b@[i as int]);
                assert(lex_lt(sb, sa));
                lemma_lex_trichotomy(a@, b@);
            }
            return 1;
        }
        assert(a@[i as int] == b@[i as int]);
        i += 1;
    }
    if a.len() == b.len() {
        assert(a@ =~= b@);
        0
    } else if a.len() < b.len() {
        proof {
            lemma_lex_skip(a@, b@, i as int);
            lemma_lex_trichotomy(a@, b@);
        }
        -1
    } else {
        proof {
            lemma_lex_skip(b@, a@, i as int);
            lemma_lex_trichotomy(a@, b@);
        }
        1
    }
}

/// First position of `c` in `s` at or after `j`, `-1` when none.
pub open spec fn find_char(s: Seq<char>, c: char, j: int) -> int
    decreases s.len() - j + 1,
{
    if j < 0 || j >= s.len() {
        -1
    } else if s[j] == c {
        j
    } else {
        find_char(s, c, j + 1)
    }
}

pub proof fn lemma_find_char_spec(s: Seq<char>, c: char, j0: int)
    requires
        0 <= j0,
    ensures
        find_char(s, c, j0) >= -1,
        find_char(s, c, j0) == -1 ==> (forall|i: int| j0 <= i < s.len() ==> #[trigger] s[i] != c),
        find_char(s, c, j0) >= 0 ==> j0 <= find_char(s, c, j0) < s.len() && s[find_char(s, c, j0)]
            == c && (forall|i: int| j0 <= i < find_char(s, c, j0) ==> #[trigger] s[i] != c),
    decreases s.len() - j0 + 1,
{
    if j0 < s.len() && s[j0] != c {
        lemma_find_char_spec(s, c, j0 + 1);
    }
}

pub proof fn lemma_find_char_witness(s: Seq<char>, c: char, j0: int, j: int)
    requires
        0 <= j0 <= j < s.len(),
        s[j] == c,
        forall|i: int| j0 <= i < j ==> s[i] != c,
    ensures
        find_char(s, c, j0) == j,
    decreases j - j0,
{
    if j0 < j {
        lemma_find_char_witness(s, c, j0 + 1, j);
    }
}

/// First position of `c` in `v` at or after `start`, with plain
/// facts about everything before it.
pub fn find_from(v: &[char], start: usize, c: char) -> (r: Option<usize>)
    requires
        start <= v@.len(),
    ensures
        match r {
            Some(i) => start <= i < v@.len() && v@[i as int] == c && (forall|m: int|
                start <= m < i ==> v@[m] != c),
            None => forall|m: int| start <= m < v@.len() ==> v@[m] != c,
        },
{
    let mut i = start;
    while i < v.len()
        invariant
            start <= i <= v@.len(),
            forall|m: int| start <= m < i ==> v@[m] != c,
        decreases v.len() - i,
    {
        if v[i] == c {
            return Some(i);
        }
        i += 1;
    }
    None
}

/// The segments of `s` between occurrences of `c`, empty segments
/// kept. An empty sequence is one empty segment.
pub open spec fn split_on(s: Seq<char>, c: char) -> Seq<Seq<char>>
    decreases s.len(),
{
    let j = find_char(s, c, 0);
    if j < 0 || j >= s.len() {
        seq![s]
    } else {
        seq![s.take(j)] + split_on(s.skip(j + 1), c)
    }
}

/// The lines of `s`: its segments between newline characters.
#[verifier::inline]
pub open spec fn split_lines(s: Seq<char>) -> Seq<Seq<char>> {
    split_on(s, '\n')
}

/// Each sequence followed by a newline, concatenated.
pub open spec fn join_terminated(ls: Seq<Seq<char>>) -> Seq<char>
    decreases ls.len(),
{
    if ls.len() == 0 {
        Seq::empty()
    } else {
        ls[0] + seq!['\n'] + join_terminated(ls.drop_first())
    }
}

/// A line: no embedded newline.
pub open spec fn no_newline(s: Seq<char>) -> bool {
    forall|i: int| 0 <= i < s.len() ==> #[trigger] s[i] != '\n'
}

/// Prepending a newline-free segment and a newline prepends one line.
proof fn lemma_split_prepend(x: Seq<char>, rest: Seq<char>)
    requires
        no_newline(x),
    ensures
        split_lines(x + seq!['\n'] + rest) == seq![x] + split_lines(rest),
{
    let s = x + seq!['\n'] + rest;
    assert(s[x.len() as int] == '\n');
    assert(forall|i: int| 0 <= i < x.len() ==> s[i] == x[i] && s[i] != '\n');
    lemma_find_char_witness(s, '\n', 0, x.len() as int);
    assert(s.take(x.len() as int) =~= x);
    assert(s.skip(x.len() as int + 1) =~= rest);
}

/// Appending a newline and a newline-free segment appends one line.
proof fn lemma_split_append(s: Seq<char>, x: Seq<char>)
    requires
        no_newline(x),
    ensures
        split_lines(s + seq!['\n'] + x) == split_lines(s).push(x),
    decreases s.len(),
{
    let t = s + seq!['\n'] + x;
    let j = find_char(s, '\n', 0);
    lemma_find_char_spec(s, '\n', 0);
    if j < 0 {
        // s is a single line
        lemma_split_prepend(s, x);
        assert(find_char(x, '\n', 0) < 0) by {
            lemma_find_char_spec(x, '\n', 0);
            if find_char(x, '\n', 0) >= 0 {
                assert(x[find_char(x, '\n', 0)] == '\n');
            }
        }
        assert(split_lines(x) =~= seq![x]);
        assert(seq![s] + split_lines(x) =~= seq![s].push(x));
        assert(split_lines(s) =~= seq![s]);
    } else {
        assert(t[j] == '\n');
        assert(forall|i: int| 0 <= i < j ==> t[i] == s[i] && t[i] != '\n');
        lemma_find_char_witness(t, '\n', 0, j);
        lemma_split_append(s.skip(j + 1), x);
        assert(t.take(j) =~= s.take(j));
        assert(t.skip(j + 1) =~= s.skip(j + 1) + seq!['\n'] + x);
        assert(split_lines(t) == seq![s.take(j)] + split_lines(s.skip(j + 1)).push(x));
        assert(seq![s.take(j)] + split_lines(s.skip(j + 1)).push(x) =~= (seq![s.take(j)]
            + split_lines(s.skip(j + 1))).push(x));
    }
}

/// Splitting after a sequence of full lines yields those lines and the
/// split of the remainder.
proof fn lemma_split_join(ls: Seq<Seq<char>>, rest: Seq<char>)
    requires
        forall|k: int| 0 <= k < ls.len() ==> no_newline(#[trigger] ls[k]),
    ensures
        split_lines(join_terminated(ls) + rest) == ls + split_lines(rest),
    decreases ls.len(),
{
    if ls.len() == 0 {
        assert(join_terminated(ls) + rest =~= rest);
        assert(ls + split_lines(rest) =~= split_lines(rest));
    } else {
        let hd = ls[0];
        let tl = ls.drop_first();
        lemma_split_join(tl, rest);
        assert(join_terminated(ls) + rest =~= hd + seq!['\n'] + (join_terminated(tl) + rest));
        lemma_split_prepend(hd, join_terminated(tl) + rest);
        assert(seq![hd] + (tl + split_lines(rest)) =~= ls + split_lines(rest));
    }
}

proof fn lemma_join_snoc(ls: Seq<Seq<char>>, x: Seq<char>)
    ensures
        join_terminated(ls.push(x)) == join_terminated(ls) + x + seq!['\n'],
    decreases ls.len(),
{
    if ls.len() == 0 {
        let emp: Seq<Seq<char>> = Seq::empty();
        assert(join_terminated(emp) == Seq::<char>::empty());
        assert(ls.push(x).drop_first() =~= emp);
        assert(ls.push(x)[0] == x);
        assert(join_terminated(ls.push(x)) == x + seq!['\n'] + join_terminated(emp));
        assert(join_terminated(ls.push(x)) =~= join_terminated(ls) + x + seq!['\n']);
    } else {
        lemma_join_snoc(ls.drop_first(), x);
        assert(ls.push(x).drop_first() =~= ls.drop_first().push(x));
        assert(ls.push(x)[0] == ls[0]);
        assert(ls[0] + seq!['\n'] + (join_terminated(ls.drop_first()) + x + seq!['\n']) =~= (ls[0]
            + seq!['\n'] + join_terminated(ls.drop_first())) + x + seq!['\n']);
    }
}

/// The position where `x` belongs among `ls`: before the first entry
/// that equals `x` or follows it in lexicographic order.
pub open spec fn insert_pos_lines(ls: Seq<Seq<char>>, x: Seq<char>) -> int
    decreases ls.len(),
{
    if ls.len() == 0 {
        0
    } else if ls[0] == x || lex_lt(x, ls[0]) {
        0
    } else {
        1 + insert_pos_lines(ls.drop_first(), x)
    }
}

pub proof fn lemma_insert_pos_spec(ls: Seq<Seq<char>>, x: Seq<char>)
    ensures
        0 <= insert_pos_lines(ls, x) <= ls.len(),
        forall|j: int|
            0 <= j < insert_pos_lines(ls, x) ==> #[trigger] ls[j] != x && !lex_lt(x, ls[j]),
        insert_pos_lines(ls, x) < ls.len() ==> ls[insert_pos_lines(ls, x)] == x || lex_lt(
            x,
            ls[insert_pos_lines(ls, x)],
        ),
    decreases ls.len(),
{
    if ls.len() > 0 && !(ls[0] == x || lex_lt(x, ls[0])) {
        lemma_insert_pos_spec(ls.drop_first(), x);
        assert forall|j: int| 0 <= j < insert_pos_lines(ls, x) implies #[trigger] ls[j] != x
            && !lex_lt(x, ls[j]) by {
            if j > 0 {
                assert(ls.drop_first()[j - 1] == ls[j]);
            }
        }
    }
}

proof fn lemma_insert_pos_witness(ls: Seq<Seq<char>>, x: Seq<char>, k: int)
    requires
        0 <= k <= ls.len(),
        forall|j: int| 0 <= j < k ==> #[trigger] ls[j] != x && !lex_lt(x, ls[j]),
        k < ls.len() ==> ls[k] == x || lex_lt(x, ls[k]),
    ensures
        insert_pos_lines(ls, x) == k,
    decreases ls.len(),
{
    if k > 0 {
        assert(ls[0] != x && !lex_lt(x, ls[0]));
        assert forall|j: int| 0 <= j < k - 1 implies #[trigger] ls.drop_first()[j] != x && !lex_lt(
            x,
            ls.drop_first()[j],
        ) by {
            assert(ls.drop_first()[j] == ls[j + 1]);
        }
        if k - 1 < ls.drop_first().len() {
            assert(ls.drop_first()[k - 1] == ls[k]);
        }
        lemma_insert_pos_witness(ls.drop_first(), x, k - 1);
    }
}

/// Sorted insertion of `x` into the line sequence `ls`: a no-op when
/// an equal line stands at `x`'s position, otherwise `x` is placed
/// before the first line that follows it.
pub open spec fn insert_unique_sorted(ls: Seq<Seq<char>>, x: Seq<char>) -> Seq<Seq<char>> {
    let k = insert_pos_lines(ls, x);
    if k < ls.len() && ls[k] == x {
        ls
    } else {
        ls.insert(k, x)
    }
}

/// Inserts `source` into the newline-delimited buffer `dest`, keeping
/// it sorted: scans for the first line not before `source`; stops if
/// that line equals `source`, else splices `source` in before it, or
/// at the end when every line comes first.
pub fn str_sorted_insert(dest: &mut String, source: &str)
    requires
        no_newline(source@),
    ensures
        split_lines(final(dest)@) == insert_unique_sorted(split_lines(old(dest)@), source@),
        records_sorted(split_lines(old(dest)@)) && source@.len() > 0 && split_lines(
            old(dest)@,
        ).contains(source@) ==> final(dest)@ == old(dest)@,
{
    let ghost orig = dest@;
    let ghost ls = split_lines(orig);
    let v = text::chars_of(dest.as_str());
    let sv = text::chars_of(source);
    let n = v.len();
    let mut pos: usize = 0;
    let ghost mut done: Seq<Seq<char>> = Seq::empty();
    proof {
        assert(join_terminated(done) =~= v@.take(0));
        assert(v@.skip(0) =~= v@);
        assert(ls =~= done + split_lines(v@.skip(0)));
    }
    loop
        invariant
            orig == old(dest)@,
            v@ == orig,
            sv@ == source@,
            dest@ == orig,
            no_newline(source@),
            n == v.len(),
            pos <= n,
            ls == split_lines(orig),
            join_terminated(done) == v@.take(pos as int),
            ls == done + split_lines(v@.skip(pos as int)),
            forall|j: int| 0 <= j < done.len() ==> #[trigger] done[j] != sv@ && !lex_lt(sv@, done[j]),
            forall|j: int| 0 <= j < done.len() ==> no_newline(#[trigger] done[j]),
        decreases n - pos,
    {
        let ghost rest = v@.skip(pos as int);
        // find the end of the current line
        let mut e: usize = pos;
        while e < n && v[e] != '\n'
            invariant
                pos <= e <= n,
                n == v.len(),
                forall|i: int| pos <= i < e ==> v@[i] != '\n',
            decreases n - e,
        {
            e += 1;
        }
        let ghost line = v@.subrange(pos as int, e as int);
        proof {
            assert forall|i: int| 0 <= i < line.len() implies #[trigger] line[i] != '\n' by {
                assert(line[i] == v@[pos + i]);
            }
            if e < n {
                assert(rest[e - pos] == v@[e as int]);
                assert forall|i: int| 0 <= i < e - pos implies #[trigger] rest[i] != '\n' by {
                    assert(rest[i] == v@[pos + i]);
                }
                lemma_find_char_witness(rest, '\n', 0, e - pos);
                assert(rest.take(e - pos) =~= line);
                assert(rest.skip(e - pos + 1) =~= v@.skip(e + 1));
                assert(split_lines(rest) == seq![line] + split_lines(v@.skip(e + 1)));
            } else {
                assert forall|i: int| 0 <= i < rest.len() implies #[trigger] rest[i] != '\n' by {
                    assert(rest[i] == v@[pos + i]);
                }
                lemma_find_char_spec(rest, '\n', 0);
                if find_char(rest, '\n', 0) >= 0 {
                    assert(rest[find_char(rest, '\n', 0)] == '\n');
                }
                assert(split_lines(rest) == seq![rest]);
                assert(rest =~= line);
            }
            assert(split_lines(rest)[0] == line);
            assert(ls[done.len() as int] == line);
        }
        let line_chars = text::copy_range(v.as_slice(), pos, e);
        let c = chars_cmp(line_chars.as_slice(), sv.as_slice());
        proof {
            lemma_lex_trichotomy(line, sv@);
            assert forall|j: int| 0 <= j < done.len() implies #[trigger] ls[j] == done[j] by {
                assert((done + split_lines(v@.skip(pos as int)))[j] == done[j]);
            }
        }
        if c == 0 {
            // an equal record already stands here
            proof {
                lemma_insert_pos_witness(ls, sv@, done.len() as int);
            }
            return ;
        }
        if c == 1 {
            // the current line follows source: splice source in here
            proof {
                lemma_insert_pos_witness(ls, sv@, done.len() as int);
                if records_sorted(ls) && sv@.len() > 0 && ls.contains(sv@) {
                    let m = choose|m: int| 0 <= m < ls.len() && ls[m] == sv@;
                    lemma_lex_trichotomy(sv@, line);
                    if m > done.len() {
                        assert(line.len() > 0);
                        assert(ls[m].len() > 0);
                        assert(lex_lt(ls[done.len() as int], ls[m]));
                    }
                    assert(false);
                }
            }
            let mut out = String::new();
            let prefix = dest.as_str().substring_char(0, pos);
            out.append(prefix);
            out.append(source);
            out.append("\n");
            let suffix = dest.as_str().substring_char(pos, n);
            out.append(suffix);
            proof {
                reveal_strlit("\n");
                assert("\n"@ =~= seq!['\n']);
                assert(prefix@ == v@.take(pos as int));
                assert(suffix@ == rest);
                assert(out@ =~= join_terminated(done) + (sv@ + seq!['\n'] + rest));
                lemma_split_join(done, sv@ + seq!['\n'] + rest);
                lemma_split_prepend(sv@, rest);
                assert(split_lines(out@) == done + (seq![sv@] + split_lines(rest)));
                assert(done + (seq![sv@] + split_lines(rest)) =~= ls.insert(
                    done.len() as int,
                    sv@,
                ));
            }
            *dest = out;
            return ;
        }
        if e == n {
            // every line comes before source: append it
            proof {
                assert(ls =~= done.push(line));
                assert forall|j: int| 0 <= j < ls.len() implies #[trigger] ls[j] != sv@ && !lex_lt(
                    sv@,
                    ls[j],
                ) by {
                    if j < done.len() {
                        assert(ls[j] == done[j]);
                    } else {
                        assert(ls[j] == line);
                    }
                }
                lemma_insert_pos_witness(ls, sv@, ls.len() as int);
                if ls.contains(sv@) {
                    let m = choose|m: int| 0 <= m < ls.len() && ls[m] == sv@;
                    lemma_lex_trichotomy(sv@, ls[m]);
                    assert(false);
                }
            }
            dest.append("\n");
            dest.append(source);
            proof {
                reveal_strlit("\n");
                assert("\n"@ =~= seq!['\n']);
                assert(dest@ =~= orig + seq!['\n'] + sv@);
                lemma_split_append(orig, sv@);
                assert(split_lines(orig).push(sv@) =~= ls.insert(ls.len() as int, sv@));
            }
            return ;
        }
        // the current line comes before source: move past it
        proof {
            let prev = done;
            done = done.push(line);
            lemma_join_snoc(prev, line);
            assert(join_terminated(done) =~= v@.take(e + 1)) by {
                assert(v@[e as int] == '\n');
                assert(join_terminated(prev) + line + seq!['\n'] =~= v@.take(e + 1));
            }
            assert(ls =~= done + split_lines(v@.skip(e + 1)));
            assert forall|j: int| 0 <= j < done.len() implies #[trigger] done[j] != sv@ && !lex_lt(
                sv@,
                done[j],
            ) by {
                if j < prev.len() {
                    assert(done[j] == prev[j]);
                } else {
                    assert(done[j] == line);
                }
            }
            assert forall|j: int| 0 <= j < done.len() implies no_newline(#[trigger] done[j]) by {
                if j < prev.len() {
                    assert(done[j] == prev[j]);
                } else {
                    assert(done[j] == line);
                }
            }
        }
        pos = e + 1;
    }
}

/// Why an insertion was refused.
#[derive(Clone, Copy, Debug, PartialEq, Eq, Structural)]
pub enum DbError {
    /// The record still held a newline after trimming.
    EntryContainsNewline,
}

/// The index: records as a sorted, newline-delimited text buffer.
pub struct DB {
    data: String,
}

/// Sorted, deduplicated arrangement of the first `n` entries.
pub open spec fn sorted_entries(es: Seq<Seq<char>>, n: int) -> Seq<Seq<char>>
    decreases n,
{
    if n <= 0 {
        Seq::empty()
    } else {
        insert_unique_sorted(sorted_entries(es, n - 1), es[n - 1])
    }
}

impl DB {
    /// The characters of the buffer.
    pub closed spec fn buf(&self) -> Seq<char> {
        self.data@
    }
}

/// Position for `x` among the already-sorted `sorted`, and whether an
/// equal entry already stands there.
fn find_pos(sorted: &Vec<String>, x: &Vec<char>) -> (r: (usize, bool))
    ensures
        r.0 == insert_pos_lines(sorted.deep_view(), x@),
        r.0 <= sorted.deep_view().len(),
        r.1 == (insert_pos_lines(sorted.deep_view(), x@) < sorted.deep_view().len()
            && sorted.deep_view()[insert_pos_lines(sorted.deep_view(), x@)] == x@),
{
    let ghost dv = sorted.deep_view();
    let mut k: usize = 0;
    loop
        invariant
            dv == sorted.deep_view(),
            k <= sorted.len(),
            dv.len() == sorted.len(),
            forall|j: int| 0 <= j < k ==> #[trigger] dv[j] != x@ && !lex_lt(x@, dv[j]),
        decreases sorted.len() - k,
    {
        if k == sorted.len() {
            proof {
                lemma_insert_pos_witness(dv, x@, k as int);
            }
            return (k, false);
        }
        let sc = text::chars_of(sorted[k].as_str());
        proof {
            assert(dv[k as int] =~= sorted@[k as int]@);
        }
        let c = chars_cmp(sc.as_slice(), x.as_slice());
        proof {
            lemma_lex_trichotomy(dv[k as int], x@);
        }
        if c == 0 {
            proof {
                lemma_insert_pos_witness(dv, x@, k as int);
            }
            return (k, true);
        }
        if c == 1 {
            proof {
                lemma_insert_pos_witness(dv, x@, k as int);
            }
            return (k, false);
        }
        k += 1;
    }
}

impl Default for DB {
    /// An index with no records.
    fn default() -> (db: DB)
        ensures
            db.buf() == Seq::<char>::empty(),
    {
        DB::empty()
    }
}

impl DB {
    /// An index with no records.
    pub fn empty() -> (db: DB)
        ensures
            db.buf() == Seq::<char>::empty(),
    {
        DB { data: String::new() }
    }

    /// An index holding `content` verbatim, as loaded from storage;
    /// nothing is validated.
    pub fn from_content(content: String) -> (db: DB)
        ensures
            db.buf() == content@,
    {
        DB { data: content }
    }

    /// The raw buffer, as it is written back to storage.
    pub fn contents(&self) -> (r: &String)
        ensures
            r@ == self.buf(),
    {
        &self.data
    }

    /// Trims `entry` and inserts it at its sorted position; a record
    /// equal to an existing one leaves the index unchanged. Fails, and
    /// changes nothing, exactly when the trimmed record still holds a
    /// newline.
    pub fn add(&mut self, entry: &str) -> (r: Result<(), DbError>)
        ensures
            match r {
                Ok(_) => no_newline(text::trim_spec(entry@)) && split_lines(final(self).buf())
                    == insert_unique_sorted(split_lines(old(self).buf()), text::trim_spec(entry@))
                    && (records_sorted(split_lines(old(self).buf())) && text::trim_spec(
                    entry@,
                ).len() > 0 && split_lines(old(self).buf()).contains(text::trim_spec(entry@))
                    ==> final(self).buf() == old(self).buf()),
                Err(e) => !no_newline(text::trim_spec(entry@)) && final(self).buf() == old(self).buf() && e
                    == DbError::EntryContainsNewline,
            },
    {
        let v = text::chars_of(entry);
        proof {
            assert(v@.subrange(0, v@.len() as int) =~= v@);
        }
        let (a, b) = text::trim_range(v.as_slice(), 0, v.len());
        let ghost trimmed_view = text::trim_spec(entry@);
        proof {
            assert(trimmed_view == v@.subrange(a as int, b as int));
        }
        let mut i = a;
        while i < b
            invariant
                a <= i <= b <= v@.len(),
                trimmed_view == v@.subrange(a as int, b as int),
                trimmed_view == text::trim_spec(entry@),
                self.buf() == old(self).buf(),
                forall|j: int| a <= j < i ==> v@[j] != '\n',
            decreases b - i,
        {
            if v[i] == '\n' {
                proof {
                    assert(trimmed_view[i - a] == '\n');
                }
                return Err(DbError::EntryContainsNewline);
            }
            i += 1;
        }
        proof {
            assert forall|j: int| 0 <= j < trimmed_view.len() implies #[trigger] trimmed_view[j]
                != '\n' by {
                assert(trimmed_view[j] == v@[a + j]);
            }
        }
        let trimmed = entry.substring_char(a, b);
        proof {
            assert(trimmed@ == text::trim_spec(entry@));
        }
        str_sorted_insert(&mut self.data, trimmed);
        Ok(())
    }

    /// Rebuilds the index wholesale from `entries`: sorted and
    /// deduplicated, each record on its own newline-terminated line.
    pub fn from_entries(entries: Vec<String>) -> (db: DB)
        ensures
            db.buf() == join_terminated(
                sorted_entries(entries.deep_view(), entries.deep_view().len() as int),
            ),
    {
        let ghost es = entries.deep_view();
        let mut sorted: Vec<String> = Vec::new();
        let mut i: usize = 0;
        proof {
            assert(sorted.deep_view() =~~= sorted_entries(es, 0));
        }
        while i < entries.len()
            invariant
                es == entries.deep_view(),
                i <= entries.len(),
                es.len() == entries.len(),
                sorted.deep_view() == sorted_entries(es, i as int),
            decreases entries.len() - i,
        {
            let ghost cur = sorted.deep_view();
            let ev = text::chars_of(entries[i].as_str());
            proof {
                assert(ev@ =~= es[i as int]);
            }
            let (k, dup) = find_pos(&sorted, &ev);
            proof {
                lemma_insert_pos_spec(cur, ev@);
            }
            if !dup {
                let item = entries[i].clone();
                sorted.insert(k, item);
                proof {
                    assert(sorted.deep_view() =~~= cur.insert(k as int, ev@));
                }
            }
            proof {
                assert(sorted.deep_view() =~~= insert_unique_sorted(cur, es[i as int]));
            }
            i += 1;
        }
        let ghost dv = sorted.deep_view();
        let mut data = String::new();
        let mut j: usize = 0;
        proof {
            assert(data@ =~= join_terminated(dv.take(0)));
        }
        while j < sorted.len()
            invariant
                dv == sorted.deep_view(),
                j <= sorted.len(),
                dv.len() == sorted.len(),
                data@ == join_terminated(dv.take(j as int)),
            decreases sorted.len() - j,
        {
            data.append(sorted[j].as_str());
            data.append("\n");
            proof {
                reveal_strlit("\n");
                assert("\n"@ =~= seq!['\n']);
                assert(dv[j as int] =~= sorted@[j as int]@);
                lemma_join_snoc(dv.take(j as int), dv[j as int]);
                assert(dv.take(j + 1) =~= dv.take(j as int).push(dv[j as int]));
            }
            j += 1;
        }
        proof {
            assert(dv.take(dv.len() as int) =~= dv);
        }
        DB { data }
    }
}

/// The lines are strictly ascending: sorted, with no duplicates.
pub open spec fn lines_sorted(ls: Seq<Seq<char>>) -> bool {
    forall|i: int, j: int| 0 <= i < j < ls.len() ==> lex_lt(#[trigger] ls[i], #[trigger] ls[j])
}

/// The non-empty lines — the records — are strictly ascending:
/// sorted and duplicate-free, with empty segments (such as the one
/// after a trailing newline) tolerated.
pub open spec fn records_sorted(ls: Seq<Seq<char>>) -> bool {
    forall|i: int, j: int|
        0 <= i < j < ls.len() && (#[trigger] ls[i]).len() > 0 && (#[trigger] ls[j]).len() > 0
            ==> lex_lt(ls[i], ls[j])
}

/// Sorted insertion keeps the lines strictly sorted and deduplicated:
/// the line set gains exactly the inserted record, and inserting a
/// record that is already present changes nothing.
pub proof fn lemma_insert_keeps_sorted(ls: Seq<Seq<char>>, x: Seq<char>)
    requires
        lines_sorted(ls),
    ensures
        lines_sorted(insert_unique_sorted(ls, x)),
        forall|y: Seq<char>|
            #[trigger] insert_unique_sorted(ls, x).contains(y) <==> (ls.contains(y) || y == x),
        ls.contains(x) ==> insert_unique_sorted(ls, x) == ls,
        !ls.contains(x) ==> insert_unique_sorted(ls, x).len() == ls.len() + 1,
{
    let k = insert_pos_lines(ls, x);
    lemma_insert_pos_spec(ls, x);
    assert forall|j: int| 0 <= j < k implies lex_lt(#[trigger] ls[j], x) by {
        lemma_lex_trichotomy(ls[j], x);
    }
    if k < ls.len() && ls[k] == x {
        assert(ls.contains(x));
        assert forall|y: Seq<char>| #[trigger] ls.contains(y) || y == x implies ls.contains(
            y,
        ) by {
            if y == x {
                assert(ls[k] == y);
            }
        }
    } else {
        let nl = ls.insert(k, x);
        if k < ls.len() {
            lemma_lex_trichotomy(x, ls[k]);
        }
        assert forall|i: int, j: int| 0 <= i < j < nl.len() implies lex_lt(
            #[trigger] nl[i],
            #[trigger] nl[j],
        ) by {
            if j < k {
                assert(nl[i] == ls[i] && nl[j] == ls[j]);
            } else if i > k {
                assert(nl[i] == ls[i - 1] && nl[j] == ls[j - 1]);
            } else if i < k && j == k {
                assert(nl[i] == ls[i] && nl[j] == x);
            } else if i == k && j > k {
                assert(nl[i] == x && nl[j] == ls[j - 1]);
                if j - 1 > k {
                    lemma_lex_trans(x, ls[k], ls[j - 1]);
                }
            } else {
                // i < k < j
                assert(nl[i] == ls[i] && nl[j] == ls[j - 1]);
                if j - 1 == k {
                    lemma_lex_trans(ls[i], x, ls[k]);
                } else {
                    lemma_lex_trans(x, ls[k], ls[j - 1]);
                    lemma_lex_trans(ls[i], x, ls[j - 1]);
                }
            }
        }
        if ls.contains(x) {
            let m = choose|m: int| 0 <= m < ls.len() && ls[m] == x;
            if m < k {
                lemma_lex_trichotomy(ls[m], x);
            } else if m == k {
            } else {
                assert(lex_lt(ls[k], ls[m]));
                lemma_lex_trichotomy(x, ls[k]);
            }
            assert(false);
        }
        assert forall|y: Seq<char>| #[trigger] nl.contains(y) implies (ls.contains(y) || y
            == x) by {
            let m = choose|m: int| 0 <= m < nl.len() && nl[m] == y;
            if m < k {
                assert(ls[m] == y);
            } else if m > k {
                assert(ls[m - 1] == y);
            }
        }
        assert forall|y: Seq<char>| ls.contains(y) || y == x implies #[trigger] nl.contains(
            y,
        ) by {
            if y == x {
                assert(nl[k] == y);
            } else {
                let m = choose|m: int| 0 <= m < ls.len() && ls[m] == y;
                if m < k {
                    assert(nl[m] == y);
                } else {
                    assert(nl[m + 1] == y);
                }
            }
        }
    }
}

/// A wholesale rebuild always yields strictly sorted, deduplicated
/// lines, whatever the enumeration produced.
pub proof fn lemma_rebuild_sorted(es: Seq<Seq<char>>, n: int)
    ensures
        lines_sorted(sorted_entries(es, n)),
    decreases n,
{
    if n > 0 {
        lemma_rebuild_sorted(es, n - 1);
        lemma_insert_keeps_sorted(sorted_entries(es, n - 1), es[n - 1]);
    }
}

/// Character bounds of each segment of `v` split on `c`: segment `k`
/// is `v[r[k].0 .. r[k].1]`.
pub fn char_spans(v: &[char], c: char) -> (r: Vec<(usize, usize)>)
    ensures
        r@.len() == split_on(v@, c).len(),
        forall|k: int|
            0 <= k < r@.len() ==> (#[trigger] r@[k]).0 <= r@[k].1 <= v@.len() && v@.subrange(
                r@[k].0 as int,
                r@[k].1 as int,
            ) == split_on(v@, c)[k],
{
    let ghost ls = split_on(v@, c);
    let n = v.len();
    let mut pos: usize = 0;
    let mut spans: Vec<(usize, usize)> = Vec::new();
    let ghost mut done: Seq<Seq<char>> = Seq::empty();
    proof {
        assert(v@.skip(0) =~= v@);
        assert(ls =~= done + split_on(v@.skip(0), c));
    }
    loop
        invariant
            n == v.len(),
            pos <= n,
            ls == split_on(v@, c),
            ls == done + split_on(v@.skip(pos as int), c),
            spans@.len() == done.len(),
            forall|k: int|
                0 <= k < done.len() ==> (#[trigger] spans@[k]).0 <= spans@[k].1 <= v@.len()
                    && v@.subrange(spans@[k].0 as int, spans@[k].1 as int) == done[k],
        decreases n - pos,
    {
        let ghost rest = v@.skip(pos as int);
        let mut e: usize = pos;
        while e < n && v[e] != c
            invariant
                pos <= e <= n,
                n == v.len(),
                forall|i: int| pos <= i < e ==> v@[i] != c,
            decreases n - e,
        {
            e += 1;
        }
        let ghost line = v@.subrange(pos as int, e as int);
        proof {
            if e < n {
                assert(rest[e - pos] == v@[e as int]);
                assert forall|i: int| 0 <= i < e - pos implies #[trigger] rest[i] != c by {
                    assert(rest[i] == v@[pos + i]);
                }
                lemma_find_char_witness(rest, c, 0, e - pos);
                assert(rest.take(e - pos) =~= line);
                assert(rest.skip(e - pos + 1) =~= v@.skip(e + 1));
                assert(split_on(rest, c) == seq![line] + split_on(v@.skip(e + 1), c));
            } else {
                assert forall|i: int| 0 <= i < rest.len() implies #[trigger] rest[i] != c by {
                    assert(rest[i] == v@[pos + i]);
                }
                lemma_find_char_spec(rest, c, 0);
                if find_char(rest, c, 0) >= 0 {
                    assert(rest[find_char(rest, c, 0)] == c);
                }
                assert(split_on(rest, c) == seq![rest]);
                assert(rest =~= line);
            }
        }
        spans.push((pos, e));
        proof {
            let prev = done;
            done = done.push(line);
            if e < n {
                assert(ls =~= done + split_on(v@.skip(e + 1), c));
            } else {
                assert(ls =~= done);
            }
            assert forall|k: int| 0 <= k < done.len() implies (#[trigger] spans@[k]).0
                <= spans@[k].1 <= v@.len() && v@.subrange(spans@[k].0 as int, spans@[k].1 as int)
                == done[k] by {
                if k < prev.len() {
                    assert(done[k] == prev[k]);
                } else {
                    assert(done[k] == line);
                }
            }
        }
        if e == n {
            proof {
                assert(done =~= ls);
            }
            return spans;
        }
        pos = e + 1;
    }
}

/// The trimmed, nonempty lines whose score against `q` is nonzero,
/// among the first `n` lines.
pub open spec fn matches_of(ls: Seq<Seq<char>>, q: Seq<char>, n: int) -> Seq<Seq<char>>
    decreases n,
{
    if n <= 0 {
        Seq::empty()
    } else {
        let prev = matches_of(ls, q, n - 1);
        let t = text::trim_spec(ls[n - 1]);
        if t.len() > 0 && fuzzy::spec_score(q, t) != 0 {
            prev.push(t)
        } else {
            prev
        }
    }
}

/// The trimmed, nonempty lines among the first `n` lines, with no
/// further filter.
pub open spec fn nonempty_lines_of(ls: Seq<Seq<char>>, n: int) -> Seq<Seq<char>>
    decreases n,
{
    if n <= 0 {
        Seq::empty()
    } else {
        let prev = nonempty_lines_of(ls, n - 1);
        let t = text::trim_spec(ls[n - 1]);
        if t.len() > 0 {
            prev.push(t)
        } else {
            prev
        }
    }
}

/// `p` begins `s`.
pub open spec fn is_prefix(p: Seq<char>, s: Seq<char>) -> bool {
    p.len() <= s.len() && s.take(p.len() as int) == p
}

/// The lines (untrimmed) whose trimmed form begins with `p`, among the
/// first `n` lines.
pub open spec fn prefixed_of(ls: Seq<Seq<char>>, p: Seq<char>, n: int) -> Seq<Seq<char>>
    decreases n,
{
    if n <= 0 {
        Seq::empty()
    } else {
        let prev = prefixed_of(ls, p, n - 1);
        if is_prefix(p, text::trim_spec(ls[n - 1])) {
            prev.push(ls[n - 1])
        } else {
            prev
        }
    }
}

/// Whether `v[start..end]` begins with `p`.
fn range_has_prefix(v: &[char], start: usize, end: usize, p: &[char]) -> (r: bool)
    requires
        start <= end <= v@.len(),
    ensures
        r == is_prefix(p@, v@.subrange(start as int, end as int)),
{
    let ghost s = v@.subrange(start as int, end as int);
    if end - start < p.len() {
        return false;
    }
    let mut i: usize = 0;
    while i < p.len()
        invariant
            i <= p.len(),
            p@.len() <= end - start,
            start <= end <= v@.len(),
            s == v@.subrange(start as int, end as int),
            forall|j: int| 0 <= j < i ==> s[j] == p@[j],
        decreases p.len() - i,
    {
        if v[start + i] != p[i] {
            proof {
                assert(s[i as int] == v@[start + i]);
                assert(s.take(p@.len() as int)[i as int] == s[i as int]);
            }
            return false;
        }
        proof {
            assert(s[i as int] == v@[start + i]);
        }
        i += 1;
    }
    proof {
        assert(s.take(p@.len() as int) =~= p@);
    }
    true
}

impl DB {
    /// The lines whose score against `matcher` is nonzero, trimmed —
    /// or, for an empty `matcher`, every non-empty line, trimmed,
    /// with no further filter.
    pub fn find_matches(&self, matcher: &str) -> (r: Vec<String>)
        ensures
            matcher@.len() == 0 ==> r.deep_view() == nonempty_lines_of(
                split_lines(self.buf()),
                split_lines(self.buf()).len() as int,
            ),
            matcher@.len() > 0 ==> r.deep_view() == matches_of(
                split_lines(self.buf()),
                matcher@,
                split_lines(self.buf()).len() as int,
            ),
    {
        let ghost ls = split_lines(self.buf());
        let v = text::chars_of(self.data.as_str());
        let spans = char_spans(v.as_slice(), '\n');
        let qv = text::chars_of(matcher);
        let mut r: Vec<String> = Vec::new();
        let mut k: usize = 0;
        if qv.len() == 0 {
            proof {
                assert(r.deep_view() =~~= nonempty_lines_of(ls, 0));
            }
            while k < spans.len()
                invariant
                    k <= spans.len(),
                    v@ == self.buf(),
                    ls == split_lines(self.buf()),
                    spans@.len() == ls.len(),
                    forall|m: int|
                        0 <= m < spans@.len() ==> (#[trigger] spans@[m]).0 <= spans@[m].1
                            <= v@.len() && v@.subrange(spans@[m].0 as int, spans@[m].1 as int)
                            == ls[m],
                    r.deep_view() == nonempty_lines_of(ls, k as int),
                decreases spans.len() - k,
            {
                let (s0, s1) = (spans[k].0, spans[k].1);
                let (a, b) = text::trim_range(v.as_slice(), s0, s1);
                let ghost t = text::trim_spec(ls[k as int]);
                proof {
                    assert(v@.subrange(a as int, b as int) == t);
                }
                if a < b {
                    let ghost prev = r.deep_view();
                    r.push(self.data.as_str().substring_char(a, b).to_owned());
                    proof {
                        assert(r.deep_view() =~~= prev.push(t));
                    }
                }
                k += 1;
            }
            r
        } else {
            proof {
                assert(r.deep_view() =~~= matches_of(ls, matcher@, 0));
            }
            while k < spans.len()
                invariant
                    k <= spans.len(),
                    v@ == self.buf(),
                    qv@ == matcher@,
                    ls == split_lines(self.buf()),
                    spans@.len() == ls.len(),
                    forall|m: int|
                        0 <= m < spans@.len() ==> (#[trigger] spans@[m]).0 <= spans@[m].1
                            <= v@.len() && v@.subrange(spans@[m].0 as int, spans@[m].1 as int)
                            == ls[m],
                    r.deep_view() == matches_of(ls, matcher@, k as int),
                decreases spans.len() - k,
            {
                let (s0, s1) = (spans[k].0, spans[k].1);
                let (a, b) = text::trim_range(v.as_slice(), s0, s1);
                let ghost t = text::trim_spec(ls[k as int]);
                proof {
                    assert(v@.subrange(a as int, b as int) == t);
                }
                if a < b {
                    let line_chars = text::copy_range(v.as_slice(), a, b);
                    let sc = fuzzy::calc_score_chars(qv.as_slice(), line_chars.as_slice());
                    if sc != 0 {
                        let ghost prev = r.deep_view();
                        r.push(self.data.as_str().substring_char(a, b).to_owned());
                        proof {
                            assert(r.deep_view() =~~= prev.push(t));
                        }
                    }
                }
                k += 1;
            }
            r
        }
    }

    /// The lines (untrimmed) whose trimmed form begins with the
    /// trimmed `prefix` — or, for a prefix that trims to nothing,
    /// every line untouched.
    pub fn find_by_prefix(&self, prefix: &str) -> (r: Vec<String>)
        ensures
            text::trim_spec(prefix@).len() == 0 ==> r.deep_view() == split_lines(self.buf()),
            text::trim_spec(prefix@).len() > 0 ==> r.deep_view() == prefixed_of(
                split_lines(self.buf()),
                text::trim_spec(prefix@),
                split_lines(self.buf()).len() as int,
            ),
    {
        let ghost ls = split_lines(self.buf());
        let pv = text::chars_of(prefix);
        proof {
            assert(pv@.subrange(0, pv@.len() as int) =~= pv@);
        }
        let (pa, pb) = text::trim_range(pv.as_slice(), 0, pv.len());
        let pt = text::copy_range(pv.as_slice(), pa, pb);
        proof {
            assert(pt@ == text::trim_spec(prefix@));
        }
        let v = text::chars_of(self.data.as_str());
        let spans = char_spans(v.as_slice(), '\n');
        let mut r: Vec<String> = Vec::new();
        let mut k: usize = 0;
        if pt.len() == 0 {
            proof {
                assert(r.deep_view() =~~= ls.take(0));
            }
            while k < spans.len()
                invariant
                    k <= spans.len(),
                    v@ == self.buf(),
                    ls == split_lines(self.buf()),
                    spans@.len() == ls.len(),
                    forall|m: int|
                        0 <= m < spans@.len() ==> (#[trigger] spans@[m]).0 <= spans@[m].1
                            <= v@.len() && v@.subrange(spans@[m].0 as int, spans@[m].1 as int)
                            == ls[m],
                    r.deep_view() == ls.take(k as int),
                decreases spans.len() - k,
            {
                let (s0, s1) = (spans[k].0, spans[k].1);
                let ghost prev = r.deep_view();
                r.push(self.data.as_str().substring_char(s0, s1).to_owned());
                proof {
                    assert(r.deep_view() =~~= prev.push(ls[k as int]));
                    assert(ls.take(k + 1) =~= ls.take(k as int).push(ls[k as int]));
                }
                k += 1;
            }
            proof {
                assert(ls.take(ls.len() as int) =~= ls);
            }
            r
        } else {
            proof {
                assert(r.deep_view() =~~= prefixed_of(ls, pt@, 0));
            }
            while k < spans.len()
                invariant
                    k <= spans.len(),
                    v@ == self.buf(),
                    pt@ == text::trim_spec(prefix@),
                    ls == split_lines(self.buf()),
                    spans@.len() == ls.len(),
                    forall|m: int|
                        0 <= m < spans@.len() ==> (#[trigger] spans@[m]).0 <= spans@[m].1
                            <= v@.len() && v@.subrange(spans@[m].0 as int, spans@[m].1 as int)
                            == ls[m],
                    r.deep_view() == prefixed_of(ls, pt@, k as int),
                decreases spans.len() - k,
            {
                let (s0, s1) = (spans[k].0, spans[k].1);
                let (a, b) = text::trim_range(v.as_slice(), s0, s1);
                if range_has_prefix(v.as_slice(), a, b, pt.as_slice()) {
                    let ghost prev = r.deep_view();
                    r.push(self.data.as_str().substring_char(s0, s1).to_owned());
                    proof {
                        assert(r.deep_view() =~~= prev.push(ls[k as int]));
                    }
                }
                k += 1;
            }
            r
        }
    }

    /// A read-only view of the current buffer: every line, trimmed,
    /// ready for repeated ranked queries.
    pub fn view(&self) -> (dbv: DBView)
        ensures
            dbv@.len() == split_lines(self.buf()).len(),
            forall|k: int|
                0 <= k < dbv@.len() ==> #[trigger] dbv@[k] == text::trim_spec(
                    split_lines(self.buf())[k],
                ),
    {
        let ghost ls = split_lines(self.buf());
        let v = text::chars_of(self.data.as_str());
        let spans = char_spans(v.as_slice(), '\n');
        let mut lines: Vec<String> = Vec::new();
        let mut k: usize = 0;
        while k < spans.len()
            invariant
                k <= spans.len(),
                v@ == self.buf(),
                ls == split_lines(self.buf()),
                spans@.len() == ls.len(),
                forall|m: int|
                    0 <= m < spans@.len() ==> (#[trigger] spans@[m]).0 <= spans@[m].1 <= v@.len()
                        && v@.subrange(spans@[m].0 as int, spans@[m].1 as int) == ls[m],
                lines.deep_view().len() == k,
                forall|m: int|
                    0 <= m < k ==> #[trigger] lines.deep_view()[m] == text::trim_spec(ls[m]),
            decreases spans.len() - k,
        {
            let (s0, s1) = (spans[k].0, spans[k].1);
            let (a, b) = text::trim_range(v.as_slice(), s0, s1);
            let ghost prev = lines.deep_view();
            lines.push(self.data.as_str().substring_char(a, b).to_owned());
            proof {
                assert(lines.deep_view() =~~= prev.push(text::trim_spec(ls[k as int])));
                assert forall|m: int| 0 <= m < k + 1 implies #[trigger] lines.deep_view()[m]
                    == text::trim_spec(ls[m]) by {
                    if m < k {
                        assert(lines.deep_view()[m] == prev[m]);
                    }
                }
            }
            k += 1;
        }
        DBView { lines }
    }
}

/// A read-only snapshot of an index's lines, pre-trimmed, for
/// repeated ranked queries.
pub struct DBView {
    lines: Vec<String>,
}

impl View for DBView {
    type V = Seq<Seq<char>>;

    closed spec fn view(&self) -> Seq<Seq<char>> {
        self.lines.deep_view()
    }
}

/// Where a result with score `sc` lands among the already-ranked
/// `rs`: after every result whose score is at least `sc`, so that
/// equal scores keep their original order.
pub open spec fn rank_pos(rs: Seq<(Seq<char>, int)>, sc: int) -> int
    decreases rs.len(),
{
    if rs.len() == 0 {
        0
    } else if rs[0].1 >= sc {
        1 + rank_pos(rs.drop_first(), sc)
    } else {
        0
    }
}

/// The ranked results for query `q` over the first `n` lines: each
/// line with a nonzero score, paired with that score, ordered by
/// falling score, ties in line order.
pub open spec fn ranked_of(ls: Seq<Seq<char>>, q: Seq<char>, n: int) -> Seq<(Seq<char>, int)>
    decreases n,
{
    if n <= 0 {
        Seq::empty()
    } else {
        let prev = ranked_of(ls, q, n - 1);
        let sc = fuzzy::spec_score(q, ls[n - 1]);
        if sc != 0 {
            prev.insert(rank_pos(prev, sc), (ls[n - 1], sc))
        } else {
            prev
        }
    }
}

/// Ranked results never lose their order: scores fall from front to
/// back.
pub open spec fn scores_descending(rs: Seq<(Seq<char>, int)>) -> bool {
    forall|i: int, j: int| 0 <= i <= j < rs.len() ==> (#[trigger] rs[i]).1 >= (#[trigger] rs[j]).1
}

proof fn lemma_rank_pos_spec(rs: Seq<(Seq<char>, int)>, sc: int)
    ensures
        0 <= rank_pos(rs, sc) <= rs.len(),
        forall|j: int| 0 <= j < rank_pos(rs, sc) ==> (#[trigger] rs[j]).1 >= sc,
        rank_pos(rs, sc) < rs.len() ==> rs[rank_pos(rs, sc)].1 < sc,
    decreases rs.len(),
{
    if rs.len() > 0 && rs[0].1 >= sc {
        lemma_rank_pos_spec(rs.drop_first(), sc);
        assert forall|j: int| 0 <= j < rank_pos(rs, sc) implies (#[trigger] rs[j]).1 >= sc by {
            if j > 0 {
                assert(rs.drop_first()[j - 1] == rs[j]);
            }
        }
        if rank_pos(rs, sc) < rs.len() {
            assert(rs.drop_first()[rank_pos(rs, sc) - 1] == rs[rank_pos(rs, sc)]);
        }
    }
}

proof fn lemma_rank_pos_witness(rs: Seq<(Seq<char>, int)>, sc: int, p: int)
    requires
        0 <= p <= rs.len(),
        forall|j: int| 0 <= j < p ==> (#[trigger] rs[j]).1 >= sc,
        p < rs.len() ==> rs[p].1 < sc,
    ensures
        rank_pos(rs, sc) == p,
    decreases rs.len(),
{
    if p > 0 {
        assert forall|j: int| 0 <= j < p - 1 implies (#[trigger] rs.drop_first()[j]).1 >= sc by {
            assert(rs.drop_first()[j] == rs[j + 1]);
        }
        if p - 1 < rs.drop_first().len() {
            assert(rs.drop_first()[p - 1] == rs[p]);
        }
        lemma_rank_pos_witness(rs.drop_first(), sc, p - 1);
    }
}

proof fn lemma_ranked_insert_sorted(rs: Seq<(Seq<char>, int)>, line: Seq<char>, sc: int)
    requires
        scores_descending(rs),
    ensures
        scores_descending(rs.insert(rank_pos(rs, sc), (line, sc))),
{
    let k = rank_pos(rs, sc);
    lemma_rank_pos_spec(rs, sc);
    let nl = rs.insert(k, (line, sc));
    assert forall|i: int, j: int| 0 <= i <= j < nl.len() implies (#[trigger] nl[i]).1
        >= (#[trigger] nl[j]).1 by {
        if i < k && j == k {
            assert(nl[i] == rs[i]);
        } else if i == k && j > k {
            assert(nl[j] == rs[j - 1]);
            assert(rs[k].1 < sc);
            assert(rs[k].1 >= rs[j - 1].1);
        } else if i < k && j > k {
            assert(nl[i] == rs[i] && nl[j] == rs[j - 1]);
        } else if i > k && j > k {
            assert(nl[i] == rs[i - 1] && nl[j] == rs[j - 1]);
        } else if i < k && j < k {
            assert(nl[i] == rs[i] && nl[j] == rs[j]);
        }
    }
}

/// Every ranked result carries a nonzero score, and the results are
/// ordered by non-increasing score.
pub proof fn lemma_ranked_of_sorted(ls: Seq<Seq<char>>, q: Seq<char>, n: int)
    ensures
        forall|i: int| 0 <= i < ranked_of(ls, q, n).len() ==> (#[trigger] ranked_of(ls, q, n)[i]).1
            > 0,
        scores_descending(ranked_of(ls, q, n)),
    decreases n,
{
    if n > 0 {
        lemma_ranked_of_sorted(ls, q, n - 1);
        let prev = ranked_of(ls, q, n - 1);
        let sc = fuzzy::spec_score(q, ls[n - 1]);
        fuzzy::lemma_score_bounds(q, ls[n - 1]);
        if sc != 0 {
            lemma_rank_pos_spec(prev, sc);
            lemma_ranked_insert_sorted(prev, ls[n - 1], sc);
            let k = rank_pos(prev, sc);
            let nl = prev.insert(k, (ls[n - 1], sc));
            assert forall|i: int| 0 <= i < nl.len() implies (#[trigger] nl[i]).1 > 0 by {
                if i < k {
                    assert(nl[i] == prev[i]);
                } else if i > k {
                    assert(nl[i] == prev[i - 1]);
                }
            }
        }
    }
}

impl DBView {
    /// The number of lines in the view.
    pub fn len(&self) -> (n: usize)
        ensures
            n == self@.len(),
    {
        self.lines.len()
    }

    /// Clears `results` and fills it with every line whose score
    /// against `matcher` is nonzero, tagged with its score and sorted
    /// by falling score; equal scores keep line order.
    pub fn find_matches(&self, matcher: &str, results: &mut Vec<(String, u64)>)
        ensures
            ({
                let rr = ranked_of(self@, matcher@, self@.len() as int);
                &&& final(results)@.len() == rr.len()
                &&& (forall|i: int|
                    0 <= i < rr.len() ==> (#[trigger] final(results)@[i]).0@ == rr[i].0
                        && final(results)@[i].1 as int == rr[i].1)
                &&& (forall|i: int| 0 <= i < rr.len() ==> (#[trigger] rr[i]).1 > 0)
                &&& scores_descending(rr)
            }),
    {
        let qv = text::chars_of(matcher);
        self.find_matches_chars(qv.as_slice(), results);
    }

    /// As [`DBView::find_matches`], with the query already split into
    /// characters.
    pub fn find_matches_chars(&self, matcher: &[char], results: &mut Vec<(String, u64)>)
        ensures
            ({
                let rr = ranked_of(self@, matcher@, self@.len() as int);
                &&& final(results)@.len() == rr.len()
                &&& (forall|i: int|
                    0 <= i < rr.len() ==> (#[trigger] final(results)@[i]).0@ == rr[i].0
                        && final(results)@[i].1 as int == rr[i].1)
                &&& (forall|i: int| 0 <= i < rr.len() ==> (#[trigger] rr[i]).1 > 0)
                &&& scores_descending(rr)
            }),
    {
        proof {
            lemma_ranked_of_sorted(self@, matcher@, self@.len() as int);
        }
        let ghost dv = self@;
        results.clear();
        let qv = matcher;
        let mut k: usize = 0;
        while k < self.lines.len()
            invariant
                dv == self@,
                qv@ == matcher@,
                k <= self.lines.len(),
                dv.len() == self.lines.len(),
                ({
                    let rk = ranked_of(dv, matcher@, k as int);
                    &&& results@.len() == rk.len()
                    &&& (forall|i: int|
                        0 <= i < rk.len() ==> (#[trigger] results@[i]).0@ == rk[i].0
                            && results@[i].1 as int == rk[i].1)
                    &&& scores_descending(rk)
                }),
            decreases self.lines.len() - k,
        {
            let ghost rk = ranked_of(dv, matcher@, k as int);
            proof {
                lemma_ranked_of_sorted(dv, matcher@, k as int);
                assert(dv[k as int] =~= self.lines@[k as int]@);
            }
            let lc = text::chars_of(self.lines[k].as_str());
            let sc = fuzzy::calc_score_chars(qv, lc.as_slice());
            if sc != 0 {
                let mut p: usize = results.len();
                while p > 0 && results[p - 1].1 < sc
                    invariant
                        p <= results@.len(),
                        forall|j: int|
                            p <= j < results@.len() ==> (#[trigger] results@[j]).1 < sc,
                    decreases p,
                {
                    p -= 1;
                }
                proof {
                    assert forall|j: int| 0 <= j < p implies (#[trigger] rk[j]).1 >= sc by {
                        if p > 0 {
                            assert(results@[p - 1].1 >= sc);
                            assert(rk[p - 1].1 >= rk[j].1 ==> true);
                            assert(rk[j].1 >= rk[p - 1].1);
                        }
                    }
                    if (p as int) < rk.len() {
                        assert((#[trigger] results@[p as int]).1 < sc);
                        assert(rk[p as int].1 < sc);
                    }
                    lemma_rank_pos_witness(rk, sc as int, p as int);
                }
                let item = self.lines[k].clone();
                results.insert(p, (item, sc));
                proof {
                    let nrk = ranked_of(dv, matcher@, k + 1);
                    assert(nrk == rk.insert(rank_pos(rk, sc as int), (dv[k as int], sc as int)));
                    assert forall|i: int| 0 <= i < nrk.len() implies (#[trigger] results@[i]).0@
                        == nrk[i].0 && results@[i].1 as int == nrk[i].1 by {
                        if i < p {
                            assert(nrk[i] == rk[i]);
                        } else if i > p {
                            assert(nrk[i] == rk[i - 1]);
                        }
                    }
                    lemma_ranked_of_sorted(dv, matcher@, k + 1);
                }
            }
            k += 1;
        }
    }
}

} // verus!
