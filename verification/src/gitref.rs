use vstd::prelude::*;

verus! {

use crate::parser::{chars_of, spec_has_prefix};

/// Whitespace as `str::trim` sees it, for the characters git prints.
pub open spec fn is_ws(c: char) -> bool {
    c == ' ' || c == '\t' || c == '\n' || c == '\r'
}

/// The text with trailing whitespace removed.
pub open spec fn trim_end_ws(s: Seq<char>) -> Seq<char>
    decreases s.len(),
{
    if s.len() > 0 && is_ws(s.last()) {
        trim_end_ws(s.drop_last())
    } else {
        s
    }
}

/// The text with leading whitespace removed.
pub open spec fn trim_start_ws(s: Seq<char>) -> Seq<char>
    decreases s.len(),
{
    if s.len() > 0 && is_ws(s[0]) {
        trim_start_ws(s.subrange(1, s.len() as int))
    } else {
        s
    }
}

/// The text with surrounding whitespace removed.
pub open spec fn spec_trim(s: Seq<char>) -> Seq<char> {
    trim_start_ws(trim_end_ws(s))
}

/// Trim surrounding whitespace from a string.
pub fn trim_ws(s: &str) -> (r: String)
    ensures
        r@ == spec_trim(s@),
{
    let cs = chars_of(s);
    let mut e = cs.len();
    proof {
        assert(s@.subrange(0, e as int) =~= s@);
    }
    while e > 0 && (cs[e - 1] == ' ' || cs[e - 1] == '\t' || cs[e - 1] == '\n' || cs[e - 1] == '\r')
        invariant
            cs@ == s@,
            e <= cs@.len(),
            trim_end_ws(s@) == trim_end_ws(s@.subrange(0, e as int)),
        decreases e,
    {
        proof {
            assert(s@.subrange(0, e as int).drop_last() =~= s@.subrange(0, e - 1));
        }
        e -= 1;
    }
    proof {
        assert(trim_end_ws(s@.subrange(0, e as int)) == s@.subrange(0, e as int));
    }
    let ghost t1 = trim_end_ws(s@);
    let mut a: usize = 0;
    while a < e && (cs[a] == ' ' || cs[a] == '\t' || cs[a] == '\n' || cs[a] == '\r')
        invariant
            cs@ == s@,
            a <= e <= cs@.len(),
            t1 == trim_end_ws(s@),
            t1 == s@.subrange(0, e as int),
            trim_start_ws(t1) == trim_start_ws(s@.subrange(a as int, e as int)),
        decreases e - a,
    {
        proof {
            assert(s@.subrange(a as int, e as int).subrange(
                1,
                s@.subrange(a as int, e as int).len() as int,
            ) =~= s@.subrange(a + 1, e as int));
        }
        a += 1;
    }
    proof {
        assert(trim_start_ws(s@.subrange(a as int, e as int)) == s@.subrange(a as int, e as int));
    }
    s.substring_char(a, e).to_owned()
}

/// The branch a symbolic-ref probe names: the trimmed output with its
/// `refs/remotes/origin/` prefix stripped, absent when the output does
/// not carry that prefix.
pub open spec fn spec_symref_branch(output: Seq<char>) -> Option<Seq<char>> {
    let t = spec_trim(output);
    if spec_has_prefix(t, "refs/remotes/origin/"@) {
        Some(t.subrange(20, t.len() as int))
    } else {
        None
    }
}

/// Read the default branch out of a `symbolic-ref` probe's output.
pub fn symref_branch(output: &str) -> (r: Option<String>)
    ensures
        match r {
            Some(b) => spec_symref_branch(output@) == Some(b@),
            None => spec_symref_branch(output@) is None,
        },
{
    proof {
        reveal_strlit("refs/remotes/origin/");
    }
    let t = trim_ws(output);
    let cs = chars_of(t.as_str());
    let n = cs.len();
    if crate::parser::range_has_prefix(&cs, 0, n, "refs/remotes/origin/") {
        proof {
            assert(cs@.subrange(0, n as int) =~= t@);
        }
        let b = t.as_str().substring_char(20, n).to_owned();
        proof {
            assert(b@ =~= spec_trim(output@).subrange(20, spec_trim(output@).len() as int));
        }
        Some(b)
    } else {
        proof {
            assert(cs@.subrange(0, n as int) =~= t@);
        }
        None
    }
}

/// The commit a `merge-base` or `rev-parse` probe names: its trimmed
/// output, absent when empty.
pub open spec fn spec_trimmed_ref(output: Seq<char>) -> Option<Seq<char>> {
    let t = spec_trim(output);
    if t.len() == 0 {
        None
    } else {
        Some(t)
    }
}

/// Read a ref out of a probe's output; empty output names none.
pub fn trimmed_ref(output: &str) -> (r: Option<String>)
    ensures
        match r {
            Some(b) => spec_trimmed_ref(output@) == Some(b@),
            None => spec_trimmed_ref(output@) is None,
        },
{
    let t = trim_ws(output);
    if t.as_str().unicode_len() == 0 {
        None
    } else {
        Some(t)
    }
}

} // verus!
