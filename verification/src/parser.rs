use vstd::prelude::*;

verus! {

use crate::diff::{DiffLine, FileDiff, FileStatus, Hunk, LineKind};
use crate::diff::{hunk_lines_numbered, new_occupied_below, occupies_new, occupies_old,
    old_occupied_below};

/// A diff that could not be parsed, with the 1-based line number of the
/// offending input line.
#[derive(Debug, Clone, PartialEq, Eq)]
pub struct ParseError {
    pub line: usize,
    pub message: String,
}

/// Collect the characters of a string into a vector.
pub fn chars_of(s: &str) -> (r: Vec<char>)
    ensures
        r@ == s@,
{
    let n = s.unicode_len();
    let mut r: Vec<char> = Vec::new();
    for i in 0..n
        invariant
            n == s@.len(),
            r@ == s@.take(i as int),
    {
        r.push(s.get_char(i));
        proof {
            assert(s@.take(i + 1) =~= s@.take(i as int).push(s@[i as int]));
        }
    }
    proof {
        assert(s@.take(n as int) =~= s@);
    }
    r
}

/// Index of the first occurrence of `ch` in `s` at or after `pos`,
/// or `s.len()` when there is none.
pub open spec fn find_from(s: Seq<char>, pos: int, ch: char) -> int
    decreases s.len() - pos,
{
    if pos < 0 || pos >= s.len() {
        s.len() as int
    } else if s[pos] == ch {
        pos
    } else {
        find_from(s, pos + 1, ch)
    }
}

pub proof fn lemma_find_from(s: Seq<char>, pos: int, ch: char)
    requires
        0 <= pos <= s.len(),
    ensures
        pos <= find_from(s, pos, ch) <= s.len(),
        find_from(s, pos, ch) < s.len() ==> s[find_from(s, pos, ch)] == ch,
        forall|k: int| pos <= k < find_from(s, pos, ch) ==> s[k] != ch,
    decreases s.len() - pos,
{
    if pos < s.len() && s[pos] != ch {
        lemma_find_from(s, pos + 1, ch);
    }
}

/// The input split into lines: each line runs to the next `'\n'` (or the
/// end), a `'\r'` before the `'\n'` stripped with it; a final line
/// terminator does not open an empty last line.
pub open spec fn spec_lines(s: Seq<char>) -> Seq<Seq<char>>
    decreases s.len(),
    via spec_lines_decreases
{
    if s.len() == 0 {
        Seq::empty()
    } else {
        let e = find_from(s, 0, '\n');
        let cut = if e < s.len() && e > 0 && s[e - 1] == '\r' {
            e - 1
        } else {
            e
        };
        let line = s.subrange(0, cut);
        if e >= s.len() {
            seq![line]
        } else {
            seq![line] + spec_lines(s.subrange(e + 1, s.len() as int))
        }
    }
}

#[via_fn]
proof fn spec_lines_decreases(s: Seq<char>) {
    if s.len() != 0 {
        lemma_find_from(s, 0, '\n');
    }
}

/// Character ranges `[start, end)` of the lines of `s`, in order; `end`
/// excludes the stripped `'\r'`, so `s.subrange(start, end)` is the line.
pub open spec fn spec_line_ranges(s: Seq<char>, pos: int) -> Seq<(int, int)>
    decreases s.len() - pos,
    via spec_line_ranges_decreases
{
    if pos < 0 || pos >= s.len() {
        Seq::empty()
    } else {
        let e = find_from(s, pos, '\n');
        let cut = if e < s.len() && e > pos && s[e - 1] == '\r' {
            e - 1
        } else {
            e
        };
        if e >= s.len() {
            seq![(pos, cut)]
        } else {
            seq![(pos, cut)] + spec_line_ranges(s, e + 1)
        }
    }
}

#[via_fn]
proof fn spec_line_ranges_decreases(s: Seq<char>, pos: int) {
    if 0 <= pos < s.len() {
        lemma_find_from(s, pos, '\n');
    }
}

/// The ranges carve actual lines: the ranges of `s` list exactly the
/// lines of `s`, in order.
pub proof fn lemma_line_ranges_are_lines(s: Seq<char>, pos: int)
    requires
        0 <= pos <= s.len(),
    ensures
        spec_line_ranges(s, pos).len() == spec_lines(s.subrange(pos, s.len() as int)).len(),
        forall|i: int|
            0 <= i < spec_line_ranges(s, pos).len() ==> {
                let (a, b) = #[trigger] spec_line_ranges(s, pos)[i];
                &&& pos <= a <= b <= s.len()
                &&& s.subrange(a, b) == spec_lines(s.subrange(pos, s.len() as int))[i]
            },
    decreases s.len() - pos,
{
    let suf = s.subrange(pos, s.len() as int);
    if pos >= s.len() {
        assert(suf.len() == 0);
    } else {
        lemma_find_from(s, pos, '\n');
        lemma_find_from(suf, 0, '\n');
        let e = find_from(s, pos, '\n');
        let e2 = find_from(suf, 0, '\n');
        lemma_find_from_shift(s, pos, '\n');
        assert(e2 == e - pos);
        if e < s.len() {
            lemma_line_ranges_are_lines(s, e + 1);
        }
        let cut = if e < s.len() && e > pos && s[e - 1] == '\r' {
            e - 1
        } else {
            e
        };
        let cut2 = if e2 < suf.len() && e2 > 0 && suf[e2 - 1] == '\r' {
            e2 - 1
        } else {
            e2
        };
        assert(cut2 == cut - pos);
        assert(suf.subrange(0, cut2) =~= s.subrange(pos, cut));
        if e < s.len() {
            assert(s.subrange(e + 1, s.len() as int) =~= suf.subrange(e2 + 1, suf.len() as int));
        }
    }
}

/// `find_from` on a suffix finds the same character, shifted.
pub proof fn lemma_find_from_shift(s: Seq<char>, pos: int, ch: char)
    requires
        0 <= pos <= s.len(),
    ensures
        find_from(s.subrange(pos, s.len() as int), 0, ch) == find_from(s, pos, ch) - pos,
{
    let suf = s.subrange(pos, s.len() as int);
    lemma_find_from(s, pos, ch);
    lemma_find_from(suf, 0, ch);
    let e = find_from(s, pos, ch);
    let e2 = find_from(suf, 0, ch);
    if e2 < e - pos {
        assert(s[pos + e2] == suf[e2]);
    }
    if e - pos < e2 {
        assert(suf[e - pos] == s[e]);
    }
}

/// Compute the line ranges of the input.
pub fn line_ranges(cs: &Vec<char>) -> (r: Vec<(usize, usize)>)
    ensures
        r@.map_values(|p: (usize, usize)| (p.0 as int, p.1 as int)) == spec_line_ranges(cs@, 0),
{
    let ghost target = spec_line_ranges(cs@, 0);
    let mut r: Vec<(usize, usize)> = Vec::new();
    let mut pos: usize = 0;
    let n = cs.len();
    while pos < n
        invariant
            n == cs@.len(),
            pos <= n + 1,
            spec_line_ranges(cs@, 0) == r@.map_values(|p: (usize, usize)| (p.0 as int, p.1 as int))
                + spec_line_ranges(cs@, pos as int),
        decreases n - pos,
    {
        // find the next newline
        let mut e: usize = pos;
        while e < n && cs[e] != '\n'
            invariant
                n == cs@.len(),
                pos <= e <= n,
                find_from(cs@, pos as int, '\n') == find_from(cs@, e as int, '\n'),
            decreases n - e,
        {
            e += 1;
        }
        proof {
            lemma_find_from(cs@, e as int, '\n');
            assert(find_from(cs@, pos as int, '\n') == e as int);
        }
        let cut: usize = if e < n && e > pos && cs[e - 1] == '\r' {
            e - 1
        } else {
            e
        };
        r.push((pos, cut));
        proof {
            let f = |p: (usize, usize)| (p.0 as int, p.1 as int);
            assert(r@.map_values(f) =~= r@.drop_last().map_values(f).push((pos as int, cut as int)));
            if e < n {
                assert(spec_line_ranges(cs@, pos as int) == seq![(pos as int, cut as int)]
                    + spec_line_ranges(cs@, e + 1));
                assert(r@.drop_last().map_values(f).push((pos as int, cut as int))
                    + spec_line_ranges(cs@, e + 1) =~= r@.drop_last().map_values(f)
                    + spec_line_ranges(cs@, pos as int));
            } else {
                assert(spec_line_ranges(cs@, pos as int) =~= seq![(pos as int, cut as int)]);
                assert(spec_line_ranges(cs@, n as int) =~= Seq::<(int, int)>::empty());
                assert(r@.drop_last().map_values(f).push((pos as int, cut as int))
                    + spec_line_ranges(cs@, n as int) =~= r@.drop_last().map_values(f)
                    + spec_line_ranges(cs@, pos as int));
            }
        }
        if e < n {
            pos = e + 1;
        } else {
            pos = n;
        }
    }
    proof {
        assert(spec_line_ranges(cs@, pos as int) =~= Seq::<(int, int)>::empty());
        assert(r@.map_values(|p: (usize, usize)| (p.0 as int, p.1 as int)) =~= spec_line_ranges(
            cs@,
            0,
        ));
    }
    r
}

/// `p` is a prefix of `l`.
pub open spec fn spec_has_prefix(l: Seq<char>, p: Seq<char>) -> bool {
    p.len() <= l.len() && l.subrange(0, p.len() as int) == p
}

/// Test whether the characters `cs[a..b]` start with `p`.
pub fn range_has_prefix(cs: &Vec<char>, a: usize, b: usize, p: &str) -> (r: bool)
    requires
        a <= b <= cs@.len(),
    ensures
        r == spec_has_prefix(cs@.subrange(a as int, b as int), p@),
{
    let plen = p.unicode_len();
    if b - a < plen {
        proof {
            assert(!spec_has_prefix(cs@.subrange(a as int, b as int), p@));
        }
        return false;
    }
    let ghost l = cs@.subrange(a as int, b as int);
    for j in 0..plen
        invariant
            a <= b <= cs@.len(),
            plen == p@.len(),
            plen <= b - a,
            l == cs@.subrange(a as int, b as int),
            forall|k: int| 0 <= k < j ==> l[k] == p@[k],
    {
        let c = p.get_char(j);
        if cs[a + j] != c {
            proof {
                assert(l[j as int] != p@[j as int]);
                assert(l.subrange(0, p@.len() as int) != p@) by {
                    if l.subrange(0, p@.len() as int) == p@ {
                        assert(l.subrange(0, p@.len() as int)[j as int] == l[j as int]);
                    }
                }
            }
            return false;
        }
    }
    proof {
        assert(l.subrange(0, p@.len() as int) =~= p@);
    }
    true
}

/// `c` is a decimal digit.
pub open spec fn is_digit(c: char) -> bool {
    48 <= c as u32 <= 57
}

/// Numeric value of a digit character.
pub open spec fn digit_val(c: char) -> int {
    c as u32 - 48
}

/// Every character of `l` is a decimal digit.
pub open spec fn all_digits(l: Seq<char>) -> bool {
    forall|i: int| 0 <= i < l.len() ==> is_digit(#[trigger] l[i])
}

/// The number denoted by a digit sequence, most significant first.
pub open spec fn digits_val(l: Seq<char>) -> int
    decreases l.len(),
{
    if l.len() == 0 {
        0
    } else {
        digits_val(l.drop_last()) * 10 + digit_val(l.last())
    }
}

pub proof fn lemma_digits_val_nonneg(l: Seq<char>)
    requires
        all_digits(l),
    ensures
        digits_val(l) >= 0,
    decreases l.len(),
{
    if l.len() > 0 {
        assert(all_digits(l.drop_last())) by {
            assert(forall|i: int| 0 <= i < l.len() - 1 ==> l.drop_last()[i] == l[i]);
        }
        lemma_digits_val_nonneg(l.drop_last());
    }
}

/// A digit sequence denotes at least as much as any of its prefixes.
pub proof fn lemma_digits_val_mono(l: Seq<char>, k: int)
    requires
        0 <= k <= l.len(),
        all_digits(l),
    ensures
        digits_val(l.subrange(0, k)) <= digits_val(l),
    decreases l.len() - k,
{
    if k < l.len() {
        let p = l.subrange(0, k);
        let q = l.subrange(0, k + 1);
        assert(all_digits(p));
        assert(q.drop_last() =~= p);
        lemma_digits_val_nonneg(p);
        assert(digits_val(q) == digits_val(p) * 10 + digit_val(q.last()));
        assert(digits_val(p) * 10 >= digits_val(p)) by (nonlinear_arith)
            requires
                digits_val(p) >= 0,
        ;
        lemma_digits_val_mono(l, k + 1);
    } else {
        assert(l.subrange(0, k) =~= l);
    }
}

/// What `u32::from_str` makes of a digit string: the denoted number, when
/// the string is non-empty, all digits, and the value fits.
pub open spec fn spec_parse_u32(l: Seq<char>) -> Option<u32> {
    if l.len() > 0 && all_digits(l) && digits_val(l) <= u32::MAX {
        Some(digits_val(l) as u32)
    } else {
        None
    }
}

/// Parse the characters `cs[a..b]` as a decimal `u32`.
fn parse_u32_range(cs: &Vec<char>, a: usize, b: usize) -> (r: Option<u32>)
    requires
        a <= b <= cs@.len(),
    ensures
        r == spec_parse_u32(cs@.subrange(a as int, b as int)),
{
    let ghost l = cs@.subrange(a as int, b as int);
    if a == b {
        return None;
    }
    let mut acc: u64 = 0;
    let mut i: usize = a;
    while i < b
        invariant
            a <= i <= b <= cs@.len(),
            l == cs@.subrange(a as int, b as int),
            all_digits(l.subrange(0, i - a)),
            acc == digits_val(l.subrange(0, i - a)),
            acc <= u32::MAX,
        decreases b - i,
    {
        let c = cs[i];
        let v = c as u32;
        if v < 48 || v > 57 {
            proof {
                assert(!is_digit(l[i - a]));
            }
            return None;
        }
        let d: u64 = (v - 48) as u64;
        acc = acc * 10 + d;
        i += 1;
        proof {
            let p = l.subrange(0, i - 1 - a);
            let q = l.subrange(0, i - a);
            assert(q.drop_last() =~= p);
            assert(q.last() == l[i - 1 - a]);
        }
        if acc > 0xffff_ffffu64 {
            proof {
                if all_digits(l) {
                    lemma_digits_val_mono(l, i - a);
                }
            }
            return None;
        }
    }
    proof {
        assert(l.subrange(0, b - a) =~= l);
    }
    Some(acc as u32)
}

/// Test whether the characters `cs[a..b]` are exactly `p`.
pub fn range_eq_str(cs: &Vec<char>, a: usize, b: usize, p: &str) -> (r: bool)
    requires
        a <= b <= cs@.len(),
    ensures
        r == (cs@.subrange(a as int, b as int) == p@),
{
    let plen = p.unicode_len();
    if b - a != plen {
        proof {
            assert(cs@.subrange(a as int, b as int).len() != p@.len());
        }
        return false;
    }
    let r = range_has_prefix(cs, a, b, p);
    proof {
        let l = cs@.subrange(a as int, b as int);
        assert(l.subrange(0, p@.len() as int) =~= l);
    }
    r
}

/// First index at or after `pos` where `pat` occurs in `s`, or `-1`.
pub open spec fn find_str_from(s: Seq<char>, pos: int, pat: Seq<char>) -> int
    decreases s.len() - pos,
{
    if pos < 0 || pat.len() <= 0 || pos + pat.len() > s.len() {
        -1
    } else if s.subrange(pos, pos + pat.len() as int) == pat {
        pos
    } else {
        find_str_from(s, pos + 1, pat)
    }
}

pub proof fn lemma_find_str_from(s: Seq<char>, pos: int, pat: Seq<char>)
    requires
        0 <= pos,
        pat.len() > 0,
    ensures
        find_str_from(s, pos, pat) == -1 || (pos <= find_str_from(s, pos, pat) && find_str_from(
            s,
            pos,
            pat,
        ) + pat.len() <= s.len()),
    decreases s.len() - pos,
{
    if pos + pat.len() <= s.len() && s.subrange(pos, pos + pat.len() as int) != pat {
        lemma_find_str_from(s, pos + 1, pat);
    }
}

/// Find `pat` within `cs[a..b]`, returning its offset from `a`.
fn find_str_in_range(cs: &Vec<char>, a: usize, b: usize, pat: &str) -> (r: Option<usize>)
    requires
        a <= b <= cs@.len(),
        pat@.len() > 0,
    ensures
        ({
            let f = find_str_from(cs@.subrange(a as int, b as int), 0, pat@);
            match r {
                Some(k) => f == k as int && k <= b - a,
                None => f == -1,
            }
        }),
{
    let ghost l = cs@.subrange(a as int, b as int);
    let plen = pat.unicode_len();
    if plen > b - a {
        proof {
            assert(find_str_from(l, 0, pat@) == -1);
        }
        return None;
    }
    let last = b - a - plen;
    for k in 0..(last + 1)
        invariant
            a <= b <= cs@.len(),
            plen == pat@.len(),
            plen >= 1,
            last == b - a - plen,
            l == cs@.subrange(a as int, b as int),
            find_str_from(l, 0, pat@) == find_str_from(l, k as int, pat@),
    {
        let hit = range_has_prefix(cs, a + k, b, pat);
        proof {
            assert(l.subrange(k as int, k + plen) =~= cs@.subrange((a + k) as int, b as int).subrange(
                0,
                plen as int,
            ));
        }
        if hit {
            proof {
                assert(l.subrange(k as int, k + plen) == pat@);
                assert(find_str_from(l, k as int, pat@) == k as int);
            }
            return Some(k);
        }
        proof {
            assert(l.subrange(k as int, k + plen) != pat@);
        }
    }
    proof {
        assert(find_str_from(l, last + 1, pat@) == -1);
    }
    None
}

/// What a range spec such as `-10,6` or `+3` denotes: start and count,
/// the count defaulting to 1 when omitted.
pub open spec fn spec_parse_range(l: Seq<char>, pfx: char) -> Option<(u32, u32)> {
    if l.len() == 0 || l[0] != pfx {
        None
    } else {
        let body = l.subrange(1, l.len() as int);
        let k = find_from(body, 0, ',');
        if k >= body.len() {
            match spec_parse_u32(body) {
                Some(v) => Some((v, 1u32)),
                None => None,
            }
        } else {
            match (
                spec_parse_u32(body.subrange(0, k)),
                spec_parse_u32(body.subrange(k + 1, body.len() as int)),
            ) {
                (Some(s), Some(c)) => Some((s, c)),
                _ => None,
            }
        }
    }
}

/// Parse the range spec in `cs[a..b]`, expecting the sign prefix `pfx`.
fn parse_range_chars(cs: &Vec<char>, a: usize, b: usize, pfx: char) -> (r: Option<(u32, u32)>)
    requires
        a <= b <= cs@.len(),
    ensures
        r == spec_parse_range(cs@.subrange(a as int, b as int), pfx),
{
    let ghost l = cs@.subrange(a as int, b as int);
    if a == b || cs[a] != pfx {
        return None;
    }
    let ghost body = l.subrange(1, l.len() as int);
    // find the comma
    let mut e: usize = a + 1;
    while e < b && cs[e] != ','
        invariant
            a + 1 <= e <= b <= cs@.len(),
            l == cs@.subrange(a as int, b as int),
            body == l.subrange(1, l.len() as int),
            find_from(body, 0, ',') == find_from(body, e - a - 1, ','),
        decreases b - e,
    {
        proof {
            assert(body[e - a - 1] == cs@[e as int]);
        }
        e += 1;
    }
    proof {
        lemma_find_from(body, e - a - 1, ',');
        if e < b {
            assert(body[e - a - 1] == cs@[e as int]);
        }
        assert(find_from(body, 0, ',') == e - a - 1);
    }
    if e == b {
        // no comma: the whole body is the start, count defaults to 1
        let v = parse_u32_range(cs, a + 1, b);
        proof {
            assert(body =~= cs@.subrange(a + 1, b as int));
        }
        match v {
            Some(s) => Some((s, 1)),
            None => None,
        }
    } else {
        let s = parse_u32_range(cs, a + 1, e);
        let c = parse_u32_range(cs, e + 1, b);
        proof {
            assert(body.subrange(0, e - a - 1) =~= cs@.subrange(a + 1, e as int));
            assert(body.subrange(e - a, body.len() as int) =~= cs@.subrange(e + 1, b as int));
        }
        match (s, c) {
            (Some(s), Some(c)) => Some((s, c)),
            _ => None,
        }
    }
}

/// The parts of a parsed `@@` header.
pub ghost struct HunkHeaderModel {
    pub old_start: u32,
    pub old_count: u32,
    pub new_start: u32,
    pub new_count: u32,
    pub context: Option<Seq<char>>,
}

/// What a hunk header line denotes: `@@ -OLD[,OCOUNT] +NEW[,NCOUNT] @@`
/// followed by optional trailing context text.
pub open spec fn spec_parse_hunk_header(l: Seq<char>) -> Option<HunkHeaderModel> {
    if !spec_has_prefix(l, "@@ "@) {
        None
    } else {
        let rest = l.subrange(3, l.len() as int);
        let k = find_str_from(rest, 0, " @@"@);
        if k < 0 {
            None
        } else {
            let range_part = rest.subrange(0, k);
            let after = rest.subrange(k + 3, rest.len() as int);
            let context = if after.len() == 0 {
                None
            } else {
                let ctx = if after[0] == ' ' {
                    after.subrange(1, after.len() as int)
                } else {
                    after
                };
                if ctx.len() == 0 {
                    None
                } else {
                    Some(ctx)
                }
            };
            let sp = find_from(range_part, 0, ' ');
            if sp >= range_part.len() || find_from(range_part, sp + 1, ' ') < range_part.len() {
                None
            } else {
                match (
                    spec_parse_range(range_part.subrange(0, sp), '-'),
                    spec_parse_range(range_part.subrange(sp + 1, range_part.len() as int), '+'),
                ) {
                    (Some((os, oc)), Some((ns, nc))) => Some(
                        HunkHeaderModel {
                            old_start: os,
                            old_count: oc,
                            new_start: ns,
                            new_count: nc,
                            context,
                        },
                    ),
                    _ => None,
                }
            }
        }
    }
}

/// Find `ch` in `cs[a..b]` starting the scan at `st`, returning the
/// absolute index of the first hit, or `b` when there is none.
fn find_char_range(cs: &Vec<char>, a: usize, st: usize, b: usize, ch: char) -> (r: usize)
    requires
        a <= st <= b <= cs@.len(),
    ensures
        st <= r <= b,
        r - a == find_from(cs@.subrange(a as int, b as int), st - a, ch),
{
    let ghost l = cs@.subrange(a as int, b as int);
    let mut e: usize = st;
    while e < b && cs[e] != ch
        invariant
            a <= st <= e <= b <= cs@.len(),
            l == cs@.subrange(a as int, b as int),
            find_from(l, st - a, ch) == find_from(l, e - a, ch),
        decreases b - e,
    {
        proof {
            assert(l[e - a] == cs@[e as int]);
        }
        e += 1;
    }
    proof {
        if e < b {
            assert(l[e - a] == cs@[e as int]);
            assert(find_from(l, e - a, ch) == e - a);
        } else {
            assert(find_from(l, e - a, ch) == l.len());
        }
    }
    e
}

/// Parse the hunk header in `cs[a..b]`; `line_no` is its 0-based input
/// line, used for the error's 1-based line number.
#[verifier::rlimit(60)]
fn parse_hunk_header_chars(s: &str, cs: &Vec<char>, a: usize, b: usize, line_no: usize) -> (r:
    Result<(u32, u32, u32, u32, Option<String>), ParseError>)
    requires
        cs@ == s@,
        a <= b <= cs@.len(),
        line_no < usize::MAX,
    ensures
        ({
            let m = spec_parse_hunk_header(cs@.subrange(a as int, b as int));
            match r {
                Ok((os, oc, ns, nc, ctx)) => {
                    &&& m is Some
                    &&& os == m->0.old_start
                    &&& oc == m->0.old_count
                    &&& ns == m->0.new_start
                    &&& nc == m->0.new_count
                    &&& (match ctx {
                        Some(c) => m->0.context == Some(c@),
                        None => m->0.context is None,
                    })
                },
                Err(e) => m is None && e.line == line_no + 1,
            }
        }),
{
    let ghost l = cs@.subrange(a as int, b as int);
    proof {
        reveal_strlit("@@ ");
        reveal_strlit(" @@");
    }
    if !range_has_prefix(cs, a, b, "@@ ") {
        return Err(
            ParseError {
                line: line_no + 1,
                message: String::from_str("expected hunk header starting with '@@'"),
            },
        );
    }
    let ghost rest = l.subrange(3, l.len() as int);
    proof {
        assert(rest =~= cs@.subrange(a + 3, b as int));
    }
    let k = match find_str_in_range(cs, a + 3, b, " @@") {
        Some(k) => k,
        None => {
            return Err(
                ParseError {
                    line: line_no + 1,
                    message: String::from_str("expected closing '@@' in hunk header"),
                },
            );
        },
    };
    proof {
        lemma_find_str_from(rest, 0, " @@"@);
    }
    // range_part is cs[a+3 .. a+3+k]; the trailing text follows " @@"
    let ghost range_part = rest.subrange(0, k as int);
    let ghost after = rest.subrange(k + 3, rest.len() as int);
    proof {
        assert(range_part =~= cs@.subrange(a + 3, a + 3 + k));
        assert(after =~= cs@.subrange(a + 3 + k + 3, b as int));
    }
    let after_start = a + 3 + k + 3;
    let context: Option<String> = if after_start == b {
        None
    } else {
        let cstart = if cs[after_start] == ' ' {
            after_start + 1
        } else {
            after_start
        };
        if cstart == b {
            None
        } else {
            Some(s.substring_char(cstart, b).to_owned())
        }
    };
    proof {
        let mctx = if after.len() == 0 {
            None
        } else {
            let ctx = if after[0] == ' ' {
                after.subrange(1, after.len() as int)
            } else {
                after
            };
            if ctx.len() == 0 {
                None
            } else {
                Some(ctx)
            }
        };
        match &context {
            Some(c) => {
                assert(after.len() > 0);
                if after[0] == ' ' {
                    assert(c@ =~= after.subrange(1, after.len() as int));
                } else {
                    assert(c@ =~= after);
                }
                assert(mctx == Some(c@));
            },
            None => {
                assert(mctx is None);
            },
        }
    }
    // split the range part at its single space
    let sp = find_char_range(cs, a + 3, a + 3, a + 3 + k, ' ');
    proof {
        lemma_find_from(range_part, 0, ' ');
    }
    if sp == a + 3 + k {
        return Err(
            ParseError { line: line_no + 1, message: String::from_str("expected two range specs") },
        );
    }
    let sp2 = find_char_range(cs, a + 3, sp + 1, a + 3 + k, ' ');
    proof {
        lemma_find_from(range_part, sp + 1 - (a + 3), ' ');
    }
    if sp2 < a + 3 + k {
        return Err(
            ParseError { line: line_no + 1, message: String::from_str("expected two range specs") },
        );
    }
    let old_part = parse_range_chars(cs, a + 3, sp, '-');
    let new_part = parse_range_chars(cs, sp + 1, a + 3 + k, '+');
    proof {
        assert(range_part.subrange(0, sp - (a + 3)) =~= cs@.subrange(a + 3, sp as int));
        assert(range_part.subrange(sp - (a + 3) + 1, range_part.len() as int) =~= cs@.subrange(
            sp + 1,
            a + 3 + k,
        ));
    }
    match (old_part, new_part) {
        (Some((os, oc)), Some((ns, nc))) => Ok((os, oc, ns, nc, context)),
        _ => Err(
            ParseError { line: line_no + 1, message: String::from_str("invalid range spec") },
        ),
    }
}

/// One parsed diff line, content given as a character sequence.
pub ghost struct LineModel {
    pub kind: LineKind,
    pub content: Seq<char>,
    pub old_line_no: Option<u32>,
    pub new_line_no: Option<u32>,
}

/// The executable diff line realizes the model; the `highlighted` field is
/// only filled by the presentation layer, never by the parser.
pub open spec fn line_matches(dl: DiffLine, m: LineModel) -> bool {
    &&& dl.kind == m.kind
    &&& dl.content@ == m.content
    &&& dl.old_line_no == m.old_line_no
    &&& dl.new_line_no == m.new_line_no
    &&& dl.highlighted is None
}

pub open spec fn lines_match(dls: Seq<DiffLine>, ms: Seq<LineModel>) -> bool {
    dls.len() == ms.len() && forall|k: int| 0 <= k < dls.len() ==> line_matches(#[trigger] dls[k], ms[k])
}

/// The lines of one hunk body, scanned from line `i` of `ls` up to `end`:
/// stops at the next `@@ ` header, an unknown prefix, or `end`; skips
/// `\`-lines; classifies the rest and numbers them from the running
/// counters.  When a line number leaves `u32` the scan fails, carrying
/// the offending 0-based line.
pub open spec fn spec_hunk_body(ls: Seq<Seq<char>>, i: int, end: int, old_ln: int, new_ln: int) ->
    Result<(Seq<LineModel>, int), int>
    decreases end - i,
{
    if i < 0 || i >= end || i >= ls.len() {
        Ok((Seq::empty(), i))
    } else {
        let l = ls[i];
        if spec_has_prefix(l, "@@ "@) {
            Ok((Seq::empty(), i))
        } else if l.len() > 0 && l[0] == '\\' {
            spec_hunk_body(ls, i + 1, end, old_ln, new_ln)
        } else if l.len() == 0 {
            if old_ln > u32::MAX || new_ln > u32::MAX {
                Err(i)
            } else {
                match spec_hunk_body(ls, i + 1, end, old_ln + 1, new_ln + 1) {
                    Ok((rest, stop)) => Ok(
                        (
                            seq![
                                LineModel {
                                    kind: LineKind::Context,
                                    content: Seq::empty(),
                                    old_line_no: Some(old_ln as u32),
                                    new_line_no: Some(new_ln as u32),
                                },
                            ] + rest,
                            stop,
                        ),
                    ),
                    Err(l) => Err(l),
                }
            }
        } else if l[0] == ' ' {
            if old_ln > u32::MAX || new_ln > u32::MAX {
                Err(i)
            } else {
                match spec_hunk_body(ls, i + 1, end, old_ln + 1, new_ln + 1) {
                    Ok((rest, stop)) => Ok(
                        (
                            seq![
                                LineModel {
                                    kind: LineKind::Context,
                                    content: l.subrange(1, l.len() as int),
                                    old_line_no: Some(old_ln as u32),
                                    new_line_no: Some(new_ln as u32),
                                },
                            ] + rest,
                            stop,
                        ),
                    ),
                    Err(l) => Err(l),
                }
            }
        } else if l[0] == '+' {
            if new_ln > u32::MAX {
                Err(i)
            } else {
                match spec_hunk_body(ls, i + 1, end, old_ln, new_ln + 1) {
                    Ok((rest, stop)) => Ok(
                        (
                            seq![
                                LineModel {
                                    kind: LineKind::Added,
                                    content: l.subrange(1, l.len() as int),
                                    old_line_no: None,
                                    new_line_no: Some(new_ln as u32),
                                },
                            ] + rest,
                            stop,
                        ),
                    ),
                    Err(l) => Err(l),
                }
            }
        } else if l[0] == '-' {
            if old_ln > u32::MAX {
                Err(i)
            } else {
                match spec_hunk_body(ls, i + 1, end, old_ln + 1, new_ln) {
                    Ok((rest, stop)) => Ok(
                        (
                            seq![
                                LineModel {
                                    kind: LineKind::Removed,
                                    content: l.subrange(1, l.len() as int),
                                    old_line_no: Some(old_ln as u32),
                                    new_line_no: None,
                                },
                            ] + rest,
                            stop,
                        ),
                    ),
                    Err(l) => Err(l),
                }
            }
        } else {
            Ok((Seq::empty(), i))
        }
    }
}

/// Prefix already-scanned lines onto the remaining scan's result.
pub open spec fn prepend_body(acc: Seq<LineModel>, o: Result<(Seq<LineModel>, int), int>) -> Result<
    (Seq<LineModel>, int),
    int,
> {
    match o {
        Ok((r, st)) => Ok((acc + r, st)),
        Err(l) => Err(l),
    }
}

/// A successful body scan stops between its start and `end`.
pub proof fn lemma_hunk_body_stop(ls: Seq<Seq<char>>, i: int, end: int, old_ln: int, new_ln: int)
    requires
        0 <= i,
        spec_hunk_body(ls, i, end, old_ln, new_ln) is Ok,
    ensures
        i <= (spec_hunk_body(ls, i, end, old_ln, new_ln)->Ok_0).1,
        (spec_hunk_body(ls, i, end, old_ln, new_ln)->Ok_0).1 <= end || (spec_hunk_body(
            ls,
            i,
            end,
            old_ln,
            new_ln,
        )->Ok_0).1 == i,
    decreases end - i,
{
    if 0 <= i < end && i < ls.len() {
        let l = ls[i];
        if spec_has_prefix(l, "@@ "@) {
        } else if l.len() > 0 && l[0] == '\\' {
            lemma_hunk_body_stop(ls, i + 1, end, old_ln, new_ln);
        } else if l.len() == 0 {
            if old_ln <= u32::MAX && new_ln <= u32::MAX {
                lemma_hunk_body_stop(ls, i + 1, end, old_ln + 1, new_ln + 1);
            }
        } else if l[0] == ' ' {
            if old_ln <= u32::MAX && new_ln <= u32::MAX {
                lemma_hunk_body_stop(ls, i + 1, end, old_ln + 1, new_ln + 1);
            }
        } else if l[0] == '+' {
            if new_ln <= u32::MAX {
                lemma_hunk_body_stop(ls, i + 1, end, old_ln, new_ln + 1);
            }
        } else if l[0] == '-' {
            if old_ln <= u32::MAX {
                lemma_hunk_body_stop(ls, i + 1, end, old_ln + 1, new_ln);
            }
        }
    }
}

/// Appending a line does not change how many earlier lines occupy a side.
pub proof fn lemma_occupied_below_push(lines: Seq<DiffLine>, x: DiffLine, k: int)
    requires
        0 <= k <= lines.len(),
    ensures
        old_occupied_below(lines.push(x), k) == old_occupied_below(lines, k),
        new_occupied_below(lines.push(x), k) == new_occupied_below(lines, k),
    decreases k,
{
    if k > 0 {
        assert(lines.push(x)[k - 1] == lines[k - 1]);
        lemma_occupied_below_push(lines, x, k - 1);
    }
}

/// The line ranges of the whole input correspond to `spec_lines`.
pub open spec fn ranges_wf(s: &str, cs: Seq<char>, ranges: Seq<(usize, usize)>) -> bool {
    &&& cs == s@
    &&& ranges.map_values(|p: (usize, usize)| (p.0 as int, p.1 as int)) == spec_line_ranges(cs, 0)
}

/// Under `ranges_wf`, every range is in bounds and carves the
/// corresponding line of `spec_lines`.
pub proof fn lemma_ranges_wf(s: &str, cs: Seq<char>, ranges: Seq<(usize, usize)>)
    requires
        ranges_wf(s, cs, ranges),
    ensures
        ranges.len() == spec_lines(s@).len(),
        forall|i: int|
            0 <= i < ranges.len() ==> {
                let (a, b) = #[trigger] ranges[i];
                &&& a <= b <= cs.len()
                &&& cs.subrange(a as int, b as int) == spec_lines(s@)[i]
            },
{
    lemma_line_ranges_are_lines(cs, 0);
    assert(cs.subrange(0, cs.len() as int) =~= s@);
    let m = ranges.map_values(|p: (usize, usize)| (p.0 as int, p.1 as int));
    assert forall|i: int| 0 <= i < ranges.len() implies {
        let (a, b) = #[trigger] ranges[i];
        &&& a <= b <= cs.len()
        &&& cs.subrange(a as int, b as int) == spec_lines(s@)[i]
    } by {
        assert(m[i] == (ranges[i].0 as int, ranges[i].1 as int));
    }
}

/// Parse one hunk: the `@@` header at line `hi`, then the classified body
/// lines, stopping before `bend`.  Returns the hunk and the index of the
/// line after it.
#[verifier::rlimit(100)]
fn parse_hunk(
    s: &str,
    cs: &Vec<char>,
    ranges: &Vec<(usize, usize)>,
    hi: usize,
    bend: usize,
) -> (r: Result<(Hunk, usize), ParseError>)
    requires
        ranges_wf(s, cs@, ranges@),
        hi < bend <= ranges@.len(),
    ensures
        ({
            let ls = spec_lines(s@);
            let hm = spec_parse_hunk_header(ls[hi as int]);
            match r {
                Ok((h, next)) => {
                    &&& hm is Some
                    &&& h.old_start == hm->0.old_start
                    &&& h.old_count == hm->0.old_count
                    &&& h.new_start == hm->0.new_start
                    &&& h.new_count == hm->0.new_count
                    &&& (match h.context {
                        Some(c) => hm->0.context == Some(c@),
                        None => hm->0.context is None,
                    })
                    &&& ({
                        let body = spec_hunk_body(
                            ls,
                            hi + 1,
                            bend as int,
                            hm->0.old_start as int,
                            hm->0.new_start as int,
                        );
                        &&& body is Ok
                        &&& lines_match(h.lines@, (body->Ok_0).0)
                        &&& next == (body->Ok_0).1
                        &&& hi < next <= bend
                    })
                    &&& hunk_lines_numbered(h.lines@, h.old_start, h.new_start)
                },
                Err(e) => {
                    &&& (hm is None ==> e.line == hi + 1)
                    &&& (hm is Some ==> ({
                        let body = spec_hunk_body(
                            ls,
                            hi + 1,
                            bend as int,
                            hm->0.old_start as int,
                            hm->0.new_start as int,
                        );
                        body is Err && e.line == body->Err_0 + 1
                    }))
                    &&& hi < e.line <= bend
                },
            }
        }),
{
    proof {
        lemma_ranges_wf(s, cs@, ranges@);
    }
    let ghost ls = spec_lines(s@);
    let (ha, hb) = (ranges[hi].0, ranges[hi].1);
    proof {
        assert(cs@.subrange(ha as int, hb as int) == ls[hi as int]);
    }
    let (old_start, old_count, new_start, new_count, context) = match parse_hunk_header_chars(
        s,
        cs,
        ha,
        hb,
        hi,
    ) {
        Ok(t) => t,
        Err(e) => {
            return Err(e);
        },
    };
    let ghost os0 = old_start as int;
    let ghost ns0 = new_start as int;
    let mut acc: Vec<DiffLine> = Vec::new();
    let ghost mut macc: Seq<LineModel> = Seq::empty();
    let mut old_ln: u64 = old_start as u64;
    let mut new_ln: u64 = new_start as u64;
    let mut i: usize = hi + 1;
    let ghost whole = spec_hunk_body(ls, hi + 1, bend as int, os0, ns0);
    loop
        invariant
            ranges_wf(s, cs@, ranges@),
            ls == spec_lines(s@),
            hi < bend <= ranges@.len(),
            hi + 1 <= i <= bend,
            os0 == old_start as int,
            ns0 == new_start as int,
            ({
                let hm = spec_parse_hunk_header(ls[hi as int]);
                &&& hm is Some
                &&& hm->0.old_start == old_start
                &&& hm->0.old_count == old_count
                &&& hm->0.new_start == new_start
                &&& hm->0.new_count == new_count
                &&& (match context {
                    Some(c) => hm->0.context == Some(c@),
                    None => hm->0.context is None,
                })
            }),
            lines_match(acc@, macc),
            hunk_lines_numbered(acc@, old_start, new_start),
            old_ln == os0 + old_occupied_below(acc@, acc@.len() as int),
            new_ln == ns0 + new_occupied_below(acc@, acc@.len() as int),
            old_ln <= u32::MAX as u64 + 1,
            new_ln <= u32::MAX as u64 + 1,
            whole == spec_hunk_body(ls, hi + 1, bend as int, os0, ns0),
            whole == prepend_body(
                macc,
                spec_hunk_body(ls, i as int, bend as int, old_ln as int, new_ln as int),
            ),
        ensures
            hi + 1 <= i <= bend,
            lines_match(acc@, macc),
            hunk_lines_numbered(acc@, old_start, new_start),
            whole == Ok::<(Seq<LineModel>, int), int>((macc, i as int)),
        decreases bend - i,
    {
        proof {
            lemma_ranges_wf(s, cs@, ranges@);
        }
        if i >= bend {
            proof {
                assert(spec_hunk_body(ls, i as int, bend as int, old_ln as int, new_ln as int)
                    == Ok::<(Seq<LineModel>, int), int>((Seq::<LineModel>::empty(), i as int)));
                assert(macc + Seq::<LineModel>::empty() =~= macc);
            }
            break ;
        }
        let (la, lb) = (ranges[i].0, ranges[i].1);
        proof {
            assert(cs@.subrange(la as int, lb as int) == ls[i as int]);
        }
        if range_has_prefix(cs, la, lb, "@@ ") {
            proof {
                assert(spec_hunk_body(ls, i as int, bend as int, old_ln as int, new_ln as int)
                    == Ok::<(Seq<LineModel>, int), int>((Seq::<LineModel>::empty(), i as int)));
                assert(macc + Seq::<LineModel>::empty() =~= macc);
            }
            break ;
        }
        let kind: LineKind;
        let content: String;
        if la == lb {
            proof {
                assert(ls[i as int].len() == 0);
            }
            kind = LineKind::Context;
            content = String::new();
        } else {
            let c0 = cs[la];
            proof {
                assert(ls[i as int][0] == cs@[la as int]);
            }
            if c0 == '\\' {
                i += 1;
                continue ;
            } else if c0 == ' ' {
                kind = LineKind::Context;
                content = s.substring_char(la + 1, lb).to_owned();
            } else if c0 == '+' {
                kind = LineKind::Added;
                content = s.substring_char(la + 1, lb).to_owned();
            } else if c0 == '-' {
                kind = LineKind::Removed;
                content = s.substring_char(la + 1, lb).to_owned();
            } else {
                proof {
                    assert(spec_hunk_body(ls, i as int, bend as int, old_ln as int, new_ln as int)
                        == Ok::<(Seq<LineModel>, int), int>((Seq::<LineModel>::empty(), i as int)));
                    assert(macc + Seq::<LineModel>::empty() =~= macc);
                }
                break ;
            }
        }
        proof {
            if la < lb {
                assert(content@ =~= ls[i as int].subrange(1, ls[i as int].len() as int));
            } else {
                assert(content@ =~= Seq::<char>::empty());
            }
        }
        let occupies_o = match kind {
            LineKind::Added => false,
            _ => true,
        };
        let occupies_n = match kind {
            LineKind::Removed => false,
            _ => true,
        };
        proof {
            assert(occupies_o == occupies_old(kind));
            assert(occupies_n == occupies_new(kind));
        }
        if occupies_o && old_ln > u32::MAX as u64 {
            proof {
                assert(spec_hunk_body(ls, i as int, bend as int, old_ln as int, new_ln as int)
                    == Err::<(Seq<LineModel>, int), int>(i as int));
            }
            return Err(
                ParseError { line: i + 1, message: String::from_str("line number out of range") },
            );
        }
        if occupies_n && new_ln > u32::MAX as u64 {
            proof {
                assert(spec_hunk_body(ls, i as int, bend as int, old_ln as int, new_ln as int)
                    == Err::<(Seq<LineModel>, int), int>(i as int));
            }
            return Err(
                ParseError { line: i + 1, message: String::from_str("line number out of range") },
            );
        }
        let dl = DiffLine {
            kind,
            content,
            old_line_no: if occupies_o {
                Some(old_ln as u32)
            } else {
                None
            },
            new_line_no: if occupies_n {
                Some(new_ln as u32)
            } else {
                None
            },
            highlighted: None,
        };
        let ghost lm = LineModel {
            kind: dl.kind,
            content: dl.content@,
            old_line_no: dl.old_line_no,
            new_line_no: dl.new_line_no,
        };
        let ghost acc0 = acc@;
        proof {
            let tail = spec_hunk_body(ls, i + 1, bend as int, old_ln as int + (if occupies_o {
                1int
            } else {
                0int
            }), new_ln as int + (if occupies_n {
                1int
            } else {
                0int
            }));
            match tail {
                Ok((rest, stop)) => {
                    assert(macc + (seq![lm] + rest) =~= (macc.push(lm)) + rest);
                },
                Err(_) => {},
            }
        }
        acc.push(dl);
        proof {
            macc = macc.push(lm);
            let acc1 = acc@;
            assert(acc1 == acc0.push(dl));
            assert forall|k: int| 0 <= k < acc1.len() implies {
                &&& (#[trigger] acc1[k]).old_line_no == (if occupies_old(acc1[k].kind) {
                    Some((old_start + old_occupied_below(acc1, k)) as u32)
                } else {
                    Option::<u32>::None
                })
                &&& acc1[k].new_line_no == (if occupies_new(acc1[k].kind) {
                    Some((new_start + new_occupied_below(acc1, k)) as u32)
                } else {
                    Option::<u32>::None
                })
            } by {
                lemma_occupied_below_push(acc0, dl, k);
                if k < acc0.len() {
                    assert(acc1[k] == acc0[k]);
                } else {
                    assert(acc1[k] == dl);
                }
            }
            assert(hunk_lines_numbered(acc1, old_start, new_start));
            lemma_occupied_below_push(acc0, dl, acc0.len() as int);
        }
        if occupies_o {
            old_ln = old_ln + 1;
        }
        if occupies_n {
            new_ln = new_ln + 1;
        }
        i += 1;
    }
    Ok(
        (
            Hunk { old_start, old_count, new_start, new_count, context, lines: acc },
            i,
        ),
    )
}

/// View of an optional owned string.
pub open spec fn view_opt_str(o: Option<String>) -> Option<Seq<char>> {
    match o {
        Some(s) => Some(s@),
        None => None,
    }
}

/// One parsed hunk, with its header fields and classified body lines.
pub ghost struct HunkModel {
    pub old_start: u32,
    pub old_count: u32,
    pub new_start: u32,
    pub new_count: u32,
    pub context: Option<Seq<char>>,
    pub lines: Seq<LineModel>,
}

pub open spec fn hunk_matches(h: Hunk, m: HunkModel) -> bool {
    &&& h.old_start == m.old_start
    &&& h.old_count == m.old_count
    &&& h.new_start == m.new_start
    &&& h.new_count == m.new_count
    &&& view_opt_str(h.context) == m.context
    &&& lines_match(h.lines@, m.lines)
}

pub open spec fn hunks_match(hs: Seq<Hunk>, ms: Seq<HunkModel>) -> bool {
    hs.len() == ms.len() && forall|k: int| 0 <= k < hs.len() ==> hunk_matches(#[trigger] hs[k], ms[k])
}

/// Strip a leading `a/` or `b/` from a diff path.
pub open spec fn spec_strip_ab(p: Seq<char>) -> Seq<char> {
    if spec_has_prefix(p, "a/"@) || spec_has_prefix(p, "b/"@) {
        p.subrange(2, p.len() as int)
    } else {
        p
    }
}

/// A `---`/`+++` path: `/dev/null` means absent, else the path with its
/// `a/` or `b/` prefix stripped.
pub open spec fn spec_path_of(p: Seq<char>) -> Option<Seq<char>> {
    if p == "/dev/null"@ {
        None
    } else {
        Some(spec_strip_ab(p))
    }
}

/// What the header lines of a file block (before its first hunk) say.
pub ghost struct BlockHeaderModel {
    pub old_path: Option<Seq<char>>,
    pub new_path: Option<Seq<char>>,
    pub status: FileStatus,
    pub is_binary: bool,
    pub hstart: int,
}

/// Scan the header lines of a block from `i` up to `end` or the first
/// `@@ ` line, folding path and status directives into the state.
pub open spec fn spec_block_header(
    ls: Seq<Seq<char>>,
    i: int,
    end: int,
    op: Option<Seq<char>>,
    np: Option<Seq<char>>,
    st: FileStatus,
    bin: bool,
) -> BlockHeaderModel
    decreases end - i,
{
    if i < 0 || i >= end || i >= ls.len() {
        BlockHeaderModel { old_path: op, new_path: np, status: st, is_binary: bin, hstart: i }
    } else {
        let l = ls[i];
        if spec_has_prefix(l, "@@ "@) {
            BlockHeaderModel { old_path: op, new_path: np, status: st, is_binary: bin, hstart: i }
        } else if spec_has_prefix(l, "--- "@) {
            spec_block_header(ls, i + 1, end, spec_path_of(l.subrange(4, l.len() as int)), np, st, bin)
        } else if spec_has_prefix(l, "+++ "@) {
            spec_block_header(ls, i + 1, end, op, spec_path_of(l.subrange(4, l.len() as int)), st, bin)
        } else if spec_has_prefix(l, "new file mode"@) {
            spec_block_header(ls, i + 1, end, op, np, FileStatus::Added, bin)
        } else if spec_has_prefix(l, "deleted file mode"@) {
            spec_block_header(ls, i + 1, end, op, np, FileStatus::Deleted, bin)
        } else if spec_has_prefix(l, "rename from "@) {
            spec_block_header(
                ls,
                i + 1,
                end,
                Some(l.subrange(12, l.len() as int)),
                np,
                FileStatus::Renamed,
                bin,
            )
        } else if spec_has_prefix(l, "rename to "@) {
            spec_block_header(
                ls,
                i + 1,
                end,
                op,
                Some(l.subrange(10, l.len() as int)),
                FileStatus::Renamed,
                bin,
            )
        } else if spec_has_prefix(l, "Binary files "@) {
            spec_block_header(ls, i + 1, end, op, np, st, true)
        } else {
            spec_block_header(ls, i + 1, end, op, np, st, bin)
        }
    }
}

/// All hunks of a block, scanned from `i` up to `end`; lines that do not
/// open a hunk are skipped.  When a hunk fails to parse the scan fails,
/// carrying the 0-based line of the bad header or oversized number.
pub open spec fn spec_block_hunks(ls: Seq<Seq<char>>, i: int, end: int) -> Result<
    Seq<HunkModel>,
    int,
>
    decreases end - i,
    via spec_block_hunks_decreases
{
    if i < 0 || i >= end || i >= ls.len() {
        Ok(Seq::empty())
    } else if spec_has_prefix(ls[i], "@@ "@) {
        match spec_parse_hunk_header(ls[i]) {
            None => Err(i),
            Some(h) => match spec_hunk_body(ls, i + 1, end, h.old_start as int, h.new_start as int) {
                Err(l) => Err(l),
                Ok((lines, stop)) => match spec_block_hunks(ls, stop, end) {
                    Err(l) => Err(l),
                    Ok(rest) => Ok(
                        seq![
                            HunkModel {
                                old_start: h.old_start,
                                old_count: h.old_count,
                                new_start: h.new_start,
                                new_count: h.new_count,
                                context: h.context,
                                lines,
                            },
                        ] + rest,
                    ),
                },
            },
        }
    } else {
        spec_block_hunks(ls, i + 1, end)
    }
}

#[via_fn]
proof fn spec_block_hunks_decreases(ls: Seq<Seq<char>>, i: int, end: int) {
    if 0 <= i < end && i < ls.len() && spec_has_prefix(ls[i], "@@ "@) {
        match spec_parse_hunk_header(ls[i]) {
            None => {},
            Some(h) => {
                if spec_hunk_body(ls, i + 1, end, h.old_start as int, h.new_start as int) is Ok {
                    lemma_hunk_body_stop(ls, i + 1, end, h.old_start as int, h.new_start as int);
                }
            },
        }
    }
}

/// One parsed file block.
pub ghost struct FileModel {
    pub old_path: Option<Seq<char>>,
    pub new_path: Option<Seq<char>>,
    pub status: FileStatus,
    pub hunks: Seq<HunkModel>,
}

pub open spec fn file_matches(f: FileDiff, m: FileModel) -> bool {
    &&& view_opt_str(f.old_path) == m.old_path
    &&& view_opt_str(f.new_path) == m.new_path
    &&& f.status == m.status
    &&& hunks_match(f.hunks@, m.hunks)
}

pub open spec fn files_match(fs: Seq<FileDiff>, ms: Seq<FileModel>) -> bool {
    fs.len() == ms.len() && forall|k: int| 0 <= k < fs.len() ==> file_matches(#[trigger] fs[k], ms[k])
}

/// What one `diff --git` block denotes: header directives determine the
/// paths and status (`Binary files` overriding the rest), then the hunks.
pub open spec fn spec_parse_file_block(ls: Seq<Seq<char>>, bstart: int, bend: int) -> Result<
    FileModel,
    int,
> {
    let h = spec_block_header(ls, bstart + 1, bend, None, None, FileStatus::Modified, false);
    let status = if h.is_binary {
        FileStatus::Binary
    } else {
        h.status
    };
    match spec_block_hunks(ls, h.hstart, bend) {
        Ok(hs) => Ok(FileModel { old_path: h.old_path, new_path: h.new_path, status, hunks: hs }),
        Err(l) => Err(l),
    }
}

/// The indices of the lines that open a file block.
pub open spec fn spec_block_starts(ls: Seq<Seq<char>>, i: int) -> Seq<int>
    decreases ls.len() - i,
{
    if i < 0 || i >= ls.len() {
        Seq::empty()
    } else if spec_has_prefix(ls[i], "diff --git "@) {
        seq![i] + spec_block_starts(ls, i + 1)
    } else {
        spec_block_starts(ls, i + 1)
    }
}

/// Parse the blocks listed in `bs` from index `k` on; each block ends
/// where the next begins, the last at the end of the input.
pub open spec fn spec_parse_blocks(ls: Seq<Seq<char>>, bs: Seq<int>, k: int) -> Result<
    Seq<FileModel>,
    int,
>
    decreases bs.len() - k,
{
    if k < 0 || k >= bs.len() {
        Ok(Seq::empty())
    } else {
        let bend = if k + 1 < bs.len() {
            bs[k + 1]
        } else {
            ls.len() as int
        };
        match spec_parse_file_block(ls, bs[k], bend) {
            Err(l) => Err(l),
            Ok(f) => match spec_parse_blocks(ls, bs, k + 1) {
                Err(l) => Err(l),
                Ok(r) => Ok(seq![f] + r),
            },
        }
    }
}

/// What a unified diff text denotes: empty input or no `diff --git` line
/// yield no files; otherwise every block must parse, a failure carrying
/// the 0-based line of the bad hunk header or oversized line number.
pub open spec fn spec_parse_diff(s: Seq<char>) -> Result<Seq<FileModel>, int> {
    if s.len() == 0 {
        Ok(Seq::empty())
    } else {
        let ls = spec_lines(s);
        let bs = spec_block_starts(ls, 0);
        if bs.len() == 0 {
            Ok(Seq::empty())
        } else {
            spec_parse_blocks(ls, bs, 0)
        }
    }
}

/// Prefix already-parsed hunks onto the remaining scan's result.
pub open spec fn prepend_hunks(acc: Seq<HunkModel>, o: Result<Seq<HunkModel>, int>) -> Result<
    Seq<HunkModel>,
    int,
> {
    match o {
        Ok(r) => Ok(acc + r),
        Err(l) => Err(l),
    }
}

/// Every hunk of `hs` satisfies the line-number accounting.
pub open spec fn hunks_numbered(hs: Seq<Hunk>) -> bool {
    forall|k: int|
        0 <= k < hs.len() ==> hunk_lines_numbered(
            (#[trigger] hs[k]).lines@,
            hs[k].old_start,
            hs[k].new_start,
        )
}

/// Parse one `diff --git` block: header directives, then the hunks.
#[verifier::rlimit(100)]
fn parse_file_block(
    s: &str,
    cs: &Vec<char>,
    ranges: &Vec<(usize, usize)>,
    bstart: usize,
    bend: usize,
) -> (r: Result<FileDiff, ParseError>)
    requires
        ranges_wf(s, cs@, ranges@),
        bstart < bend <= ranges@.len(),
    ensures
        ({
            let ls = spec_lines(s@);
            let m = spec_parse_file_block(ls, bstart as int, bend as int);
            match r {
                Ok(f) => m is Ok && file_matches(f, m->Ok_0) && hunks_numbered(f.hunks@),
                Err(e) => m is Err && e.line == m->Err_0 + 1 && bstart + 1 < e.line <= bend,
            }
        }),
{
    proof {
        lemma_ranges_wf(s, cs@, ranges@);
        reveal_strlit("--- ");
        reveal_strlit("+++ ");
        reveal_strlit("/dev/null");
        reveal_strlit("a/");
        reveal_strlit("b/");
        reveal_strlit("rename from ");
        reveal_strlit("rename to ");
    }
    let ghost ls = spec_lines(s@);
    let ghost hm0 = spec_block_header(
        ls,
        bstart + 1,
        bend as int,
        None,
        None,
        FileStatus::Modified,
        false,
    );
    let mut old_path: Option<String> = None;
    let mut new_path: Option<String> = None;
    let mut status = FileStatus::Modified;
    let mut is_binary = false;
    let mut i: usize = bstart + 1;
    loop
        invariant
            ranges_wf(s, cs@, ranges@),
            ls == spec_lines(s@),
            bstart < bend <= ranges@.len(),
            bstart + 1 <= i <= bend,
            hm0 == spec_block_header(
                ls,
                bstart + 1,
                bend as int,
                None,
                None,
                FileStatus::Modified,
                false,
            ),
            hm0 == spec_block_header(
                ls,
                i as int,
                bend as int,
                view_opt_str(old_path),
                view_opt_str(new_path),
                status,
                is_binary,
            ),
        ensures
            bstart + 1 <= i <= bend,
            hm0 == (BlockHeaderModel {
                old_path: view_opt_str(old_path),
                new_path: view_opt_str(new_path),
                status,
                is_binary,
                hstart: i as int,
            }),
        decreases bend - i,
    {
        proof {
            lemma_ranges_wf(s, cs@, ranges@);
            reveal_strlit("--- ");
            reveal_strlit("+++ ");
            reveal_strlit("/dev/null");
            reveal_strlit("a/");
            reveal_strlit("b/");
            reveal_strlit("rename from ");
            reveal_strlit("rename to ");
        }
        if i >= bend {
            break ;
        }
        let (la, lb) = (ranges[i].0, ranges[i].1);
        proof {
            assert(cs@.subrange(la as int, lb as int) == ls[i as int]);
        }
        let ghost l = ls[i as int];
        if range_has_prefix(cs, la, lb, "@@ ") {
            break ;
        }
        if range_has_prefix(cs, la, lb, "--- ") {
            let p = if range_eq_str(cs, la + 4, lb, "/dev/null") {
                None
            } else {
                if range_has_prefix(cs, la + 4, lb, "a/") || range_has_prefix(cs, la + 4, lb, "b/") {
                    Some(s.substring_char(la + 6, lb).to_owned())
                } else {
                    Some(s.substring_char(la + 4, lb).to_owned())
                }
            };
            proof {
                assert(cs@.subrange(la + 4, lb as int) =~= l.subrange(4, l.len() as int));
                let lp = l.subrange(4, l.len() as int);
                assert(cs@.subrange(la + 4, lb as int).subrange(0, 2) =~= lp.subrange(0, 2));
                match &p {
                    Some(q) => {
                        if spec_has_prefix(lp, "a/"@) || spec_has_prefix(lp, "b/"@) {
                            assert(q@ =~= lp.subrange(2, lp.len() as int));
                        } else {
                            assert(q@ =~= lp);
                        }
                        assert(view_opt_str(p) == spec_path_of(lp));
                    },
                    None => {
                        assert(view_opt_str(p) == spec_path_of(lp));
                    },
                }
            }
            old_path = p;
        } else if range_has_prefix(cs, la, lb, "+++ ") {
            let p = if range_eq_str(cs, la + 4, lb, "/dev/null") {
                None
            } else {
                if range_has_prefix(cs, la + 4, lb, "a/") || range_has_prefix(cs, la + 4, lb, "b/") {
                    Some(s.substring_char(la + 6, lb).to_owned())
                } else {
                    Some(s.substring_char(la + 4, lb).to_owned())
                }
            };
            proof {
                assert(cs@.subrange(la + 4, lb as int) =~= l.subrange(4, l.len() as int));
                let lp = l.subrange(4, l.len() as int);
                assert(cs@.subrange(la + 4, lb as int).subrange(0, 2) =~= lp.subrange(0, 2));
                match &p {
                    Some(q) => {
                        if spec_has_prefix(lp, "a/"@) || spec_has_prefix(lp, "b/"@) {
                            assert(q@ =~= lp.subrange(2, lp.len() as int));
                        } else {
                            assert(q@ =~= lp);
                        }
                        assert(view_opt_str(p) == spec_path_of(lp));
                    },
                    None => {
                        assert(view_opt_str(p) == spec_path_of(lp));
                    },
                }
            }
            new_path = p;
        } else if range_has_prefix(cs, la, lb, "new file mode") {
            status = FileStatus::Added;
        } else if range_has_prefix(cs, la, lb, "deleted file mode") {
            status = FileStatus::Deleted;
        } else if range_has_prefix(cs, la, lb, "rename from ") {
            let p = s.substring_char(la + 12, lb).to_owned();
            proof {
                assert(p@ =~= l.subrange(12, l.len() as int));
            }
            status = FileStatus::Renamed;
            old_path = Some(p);
        } else if range_has_prefix(cs, la, lb, "rename to ") {
            let p = s.substring_char(la + 10, lb).to_owned();
            proof {
                assert(p@ =~= l.subrange(10, l.len() as int));
            }
            status = FileStatus::Renamed;
            new_path = Some(p);
        } else if range_has_prefix(cs, la, lb, "Binary files ") {
            is_binary = true;
        }
        i += 1;
    }
    if is_binary {
        status = FileStatus::Binary;
    }
    let ghost status0 = if hm0.is_binary {
        FileStatus::Binary
    } else {
        hm0.status
    };
    let ghost whole_hunks = spec_block_hunks(ls, hm0.hstart, bend as int);
    let mut hunks: Vec<Hunk> = Vec::new();
    let ghost mut mhacc: Seq<HunkModel> = Seq::empty();
    loop
        invariant
            ranges_wf(s, cs@, ranges@),
            ls == spec_lines(s@),
            bstart < bend <= ranges@.len(),
            bstart + 1 <= i <= bend,
            status == status0,
            hm0 == spec_block_header(
                ls,
                bstart + 1,
                bend as int,
                None,
                None,
                FileStatus::Modified,
                false,
            ),
            hm0.old_path == view_opt_str(old_path),
            hm0.new_path == view_opt_str(new_path),
            whole_hunks == spec_block_hunks(ls, hm0.hstart, bend as int),
            whole_hunks == prepend_hunks(mhacc, spec_block_hunks(ls, i as int, bend as int)),
            hunks_match(hunks@, mhacc),
            hunks_numbered(hunks@),
        ensures
            whole_hunks == Ok::<Seq<HunkModel>, int>(mhacc),
            hunks_match(hunks@, mhacc),
            hunks_numbered(hunks@),
            hm0.old_path == view_opt_str(old_path),
            hm0.new_path == view_opt_str(new_path),
            status == status0,
        decreases bend - i,
    {
        proof {
            lemma_ranges_wf(s, cs@, ranges@);
        }
        if i >= bend {
            proof {
                assert(spec_block_hunks(ls, i as int, bend as int) == Ok::<Seq<HunkModel>, int>(
                    Seq::<HunkModel>::empty(),
                ));
                assert(mhacc + Seq::<HunkModel>::empty() =~= mhacc);
            }
            break ;
        }
        let (la, lb) = (ranges[i].0, ranges[i].1);
        proof {
            assert(cs@.subrange(la as int, lb as int) == ls[i as int]);
        }
        if range_has_prefix(cs, la, lb, "@@ ") {
            let (hunk, next) = match parse_hunk(s, cs, ranges, i, bend) {
                Ok(t) => t,
                Err(e) => {
                    proof {
                        let hm = spec_parse_hunk_header(ls[i as int]);
                        if hm is None {
                            assert(spec_block_hunks(ls, i as int, bend as int) == Err::<
                                Seq<HunkModel>,
                                int,
                            >(i as int));
                        } else {
                            let body = spec_hunk_body(
                                ls,
                                i + 1,
                                bend as int,
                                hm->0.old_start as int,
                                hm->0.new_start as int,
                            );
                            assert(spec_block_hunks(ls, i as int, bend as int) == Err::<
                                Seq<HunkModel>,
                                int,
                            >(body->Err_0));
                        }
                    }
                    return Err(e);
                },
            };
            proof {
                let h = spec_parse_hunk_header(ls[i as int])->0;
                let body = spec_hunk_body(
                    ls,
                    i + 1,
                    bend as int,
                    h.old_start as int,
                    h.new_start as int,
                );
                let hmod = HunkModel {
                    old_start: h.old_start,
                    old_count: h.old_count,
                    new_start: h.new_start,
                    new_count: h.new_count,
                    context: h.context,
                    lines: (body->Ok_0).0,
                };
                assert(hunk_matches(hunk, hmod));
                match spec_block_hunks(ls, (body->Ok_0).1, bend as int) {
                    Ok(rest) => {
                        assert(mhacc + (seq![hmod] + rest) =~= mhacc.push(hmod) + rest);
                    },
                    Err(_) => {},
                }
                mhacc = mhacc.push(hmod);
            }
            hunks.push(hunk);
            i = next;
        } else {
            i += 1;
        }
    }
    proof {
        match whole_hunks {
            Ok(hs) => {
                assert(spec_parse_file_block(ls, bstart as int, bend as int) == Ok::<
                    FileModel,
                    int,
                >(
                    FileModel {
                        old_path: hm0.old_path,
                        new_path: hm0.new_path,
                        status: status0,
                        hunks: hs,
                    },
                ));
            },
            Err(_) => {},
        }
    }
    Ok(FileDiff { old_path, new_path, status, hunks })
}

/// Parse a unified diff into its file diffs.
///
/// The result realizes `spec_parse_diff` exactly: empty input or input
/// without a `diff --git` line yields no files; otherwise the input is
/// split at `diff --git` lines and every block must parse, a malformed
/// hunk header or an oversized line number failing with a `ParseError`
/// whose `line` is the 1-based input line of the offending header or
/// body line.  Every returned hunk satisfies the line-number accounting
/// (`hunk_lines_numbered`): each side's numbers run contiguously from the
/// hunk's start and sit exactly on the lines whose kind occupies that side.
pub fn parse_diff(input: &str) -> (r: Result<Vec<FileDiff>, ParseError>)
    ensures
        ({
            let m = spec_parse_diff(input@);
            match r {
                Ok(files) => {
                    &&& m is Ok
                    &&& files_match(files@, m->Ok_0)
                    &&& forall|fi: int|
                        0 <= fi < files@.len() ==> hunks_numbered((#[trigger] files@[fi]).hunks@)
                },
                Err(e) => {
                    &&& m is Err
                    &&& e.line == m->Err_0 + 1
                    &&& 1 <= e.line <= spec_lines(input@).len()
                },
            }
        }),
{
    if input.is_empty() {
        return Ok(Vec::new());
    }
    let cs = chars_of(input);
    let ranges = line_ranges(&cs);
    proof {
        lemma_ranges_wf(input, cs@, ranges@);
    }
    let ghost ls = spec_lines(input@);
    let n = ranges.len();
    // find the block starts
    let mut bs: Vec<usize> = Vec::new();
    for i in 0..n
        invariant
            ranges_wf(input, cs@, ranges@),
            ls == spec_lines(input@),
            n == ranges@.len(),
            spec_block_starts(ls, 0) == bs@.map_values(|x: usize| x as int) + spec_block_starts(
                ls,
                i as int,
            ),
            forall|k: int| 0 <= k < bs@.len() ==> bs@[k] < n,
            forall|k: int| 0 <= k < bs@.len() - 1 ==> #[trigger] bs@[k] < bs@[k + 1],
            forall|k: int| 0 <= k < bs@.len() ==> bs@[k] < i,
    {
        proof {
            lemma_ranges_wf(input, cs@, ranges@);
        }
        let (la, lb) = (ranges[i].0, ranges[i].1);
        proof {
            assert(cs@.subrange(la as int, lb as int) == ls[i as int]);
        }
        if range_has_prefix(&cs, la, lb, "diff --git ") {
            bs.push(i);
            proof {
                let f = |x: usize| x as int;
                assert(bs@.map_values(f) =~= bs@.drop_last().map_values(f).push(i as int));
                assert(bs@.drop_last().map_values(f).push(i as int) + spec_block_starts(ls, i + 1)
                    =~= bs@.drop_last().map_values(f) + spec_block_starts(ls, i as int));
            }
        }
    }
    proof {
        assert(spec_block_starts(ls, n as int) =~= Seq::<int>::empty());
        assert(bs@.map_values(|x: usize| x as int) + Seq::<int>::empty() =~= bs@.map_values(
            |x: usize| x as int,
        ));
    }
    if bs.len() == 0 {
        return Ok(Vec::new());
    }
    let ghost mbs = bs@.map_values(|x: usize| x as int);
    let ghost whole = spec_parse_blocks(ls, mbs, 0);
    let mut files: Vec<FileDiff> = Vec::new();
    let ghost mut mfacc: Seq<FileModel> = Seq::empty();
    let nb = bs.len();
    for k in 0..nb
        invariant
            ranges_wf(input, cs@, ranges@),
            ls == spec_lines(input@),
            n == ranges@.len(),
            nb == bs@.len(),
            nb >= 1,
            mbs == bs@.map_values(|x: usize| x as int),
            input@.len() > 0,
            spec_block_starts(ls, 0) == mbs,
            forall|j: int| 0 <= j < bs@.len() ==> bs@[j] < n,
            forall|j: int| 0 <= j < bs@.len() - 1 ==> #[trigger] bs@[j] < bs@[j + 1],
            whole == spec_parse_blocks(ls, mbs, 0),
            whole == (match spec_parse_blocks(ls, mbs, k as int) {
                Ok(r) => Ok(mfacc + r),
                Err(l) => Result::<Seq<FileModel>, int>::Err(l),
            }),
            files_match(files@, mfacc),
            forall|fi: int|
                0 <= fi < files@.len() ==> hunks_numbered((#[trigger] files@[fi]).hunks@),
    {
        proof {
            lemma_ranges_wf(input, cs@, ranges@);
        }
        let bstart = bs[k];
        let bend = if k + 1 < nb {
            bs[k + 1]
        } else {
            n
        };
        proof {
            assert(mbs[k as int] == bstart as int);
            if k + 1 < nb {
                assert(mbs[k + 1] == bend as int);
            }
            assert(ls.len() == n as int);
        }
        let f = match parse_file_block(input, &cs, &ranges, bstart, bend) {
            Ok(f) => f,
            Err(e) => {
                proof {
                    let m = spec_parse_file_block(ls, bstart as int, bend as int);
                    assert(spec_parse_blocks(ls, mbs, k as int) == Result::<
                        Seq<FileModel>,
                        int,
                    >::Err(m->Err_0));
                }
                return Err(e);
            },
        };
        proof {
            let fm = spec_parse_file_block(ls, bstart as int, bend as int)->Ok_0;
            match spec_parse_blocks(ls, mbs, k + 1) {
                Ok(rest) => {
                    assert(mfacc + (seq![fm] + rest) =~= mfacc.push(fm) + rest);
                },
                Err(_) => {},
            }
            mfacc = mfacc.push(fm);
        }
        files.push(f);
    }
    proof {
        assert(spec_parse_blocks(ls, mbs, nb as int) == Result::<Seq<FileModel>, int>::Ok(
            Seq::<FileModel>::empty(),
        ));
        assert(mfacc + Seq::<FileModel>::empty() =~= mfacc);
    }
    Ok(files)
}

} // verus!
