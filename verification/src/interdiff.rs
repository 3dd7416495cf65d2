use vstd::prelude::*;

verus! {

use crate::diff::{DiffLine, Hunk, LineKind};
use crate::diff::{new_occupied_below, occupies_new, occupies_old, old_occupied_below};
use crate::parser::{chars_of, spec_lines, LineModel};


/// Join lines into one text, every line followed by a newline.
pub open spec fn join_lines(ls: Seq<Seq<char>>) -> Seq<char>
    decreases ls.len(),
{
    if ls.len() == 0 {
        Seq::empty()
    } else {
        join_lines(ls.drop_last()) + ls.last() + seq!['\n']
    }
}

/// The contents of the new side of a hunk: its first `n` lines that are
/// not removals, in order.
pub open spec fn new_side_lines(lines: Seq<DiffLine>, n: int) -> Seq<Seq<char>>
    decreases n,
{
    if n <= 0 {
        Seq::empty()
    } else {
        let p = new_side_lines(lines, n - 1);
        if occupies_new(lines[n - 1].kind) {
            p.push(lines[n - 1].content@)
        } else {
            p
        }
    }
}

/// The base lines with indices in `[from, to)`, clamped to the base.
pub open spec fn copy_range(base: Seq<Seq<char>>, from: int, to: int) -> Seq<Seq<char>> {
    let lo = if from < 0 {
        0
    } else if from > base.len() {
        base.len() as int
    } else {
        from
    };
    let hi = if to < lo {
        lo
    } else if to > base.len() {
        base.len() as int
    } else {
        to
    };
    base.subrange(lo, hi)
}

/// The lines produced by applying `hunks[h..]` to `base` from line index
/// `idx` on: base lines are copied up to each hunk's start, each hunk
/// contributes its new side, and the base index skips the hunk's old
/// span; the remaining base lines follow the last hunk.
pub open spec fn spec_reconstruct_lines(
    base: Seq<Seq<char>>,
    hunks: Seq<Hunk>,
    h: int,
    idx: int,
) -> Seq<Seq<char>>
    decreases hunks.len() - h,
{
    if h < 0 || h >= hunks.len() {
        copy_range(base, idx, base.len() as int)
    } else {
        let hk = hunks[h];
        let hs = if hk.old_start > 0 {
            hk.old_start - 1
        } else {
            0
        };
        copy_range(base, idx, hs) + new_side_lines(hk.lines@, hk.lines@.len() as int)
            + spec_reconstruct_lines(base, hunks, h + 1, hs + hk.old_count)
    }
}

/// The full content an ordered hunk set produces from a base text.
pub open spec fn spec_reconstruct(base: Seq<char>, hunks: Seq<Hunk>) -> Seq<char> {
    join_lines(spec_reconstruct_lines(spec_lines(base), hunks, 0, 0))
}

/// Split a text into its lines as owned strings.
pub fn split_lines(s: &str) -> (r: Vec<String>)
    ensures
        r@.len() == spec_lines(s@).len(),
        forall|k: int| 0 <= k < r@.len() ==> (#[trigger] r@[k])@ == spec_lines(s@)[k],
{
    let cs = chars_of(s);
    let ranges = crate::parser::line_ranges(&cs);
    proof {
        crate::parser::lemma_ranges_wf(s, cs@, ranges@);
    }
    let mut r: Vec<String> = Vec::new();
    let n = ranges.len();
    for i in 0..n
        invariant
            cs@ == s@,
            crate::parser::ranges_wf(s, cs@, ranges@),
            n == ranges@.len(),
            n == spec_lines(s@).len(),
            r@.len() == i,
            forall|k: int| 0 <= k < i ==> (#[trigger] r@[k])@ == spec_lines(s@)[k],
    {
        proof {
            crate::parser::lemma_ranges_wf(s, cs@, ranges@);
        }
        let (a, b) = (ranges[i].0, ranges[i].1);
        r.push(s.substring_char(a, b).to_owned());
    }
    r
}

/// Reconstruct full file content by applying hunks to the base content:
/// the new side of each hunk replaces the old span it covers, and the
/// result carries one trailing newline per line.
pub fn reconstruct_from_hunks(base_content: &str, hunks: &[Hunk]) -> (r: String)
    ensures
        r@ == spec_reconstruct(base_content@, hunks@),
{
    proof {
        reveal_strlit("\n");
    }
    let base_lines = split_lines(base_content);
    let ghost base = spec_lines(base_content@);
    let ghost whole = spec_reconstruct_lines(base, hunks@, 0, 0);
    let mut out = String::new();
    let ghost mut done: Seq<Seq<char>> = Seq::empty();
    let mut idx: u64 = 0;
    let nb = base_lines.len();
    let nh = hunks.len();
    proof {
        assert(join_lines(Seq::<Seq<char>>::empty()) =~= Seq::<char>::empty());
    }
    for h in 0..nh
        invariant
            base == spec_lines(base_content@),
            nb == base.len(),
            nb == base_lines@.len(),
            forall|k: int| 0 <= k < nb ==> (#[trigger] base_lines@[k])@ == base[k],
            nh == hunks@.len(),
            whole == spec_reconstruct_lines(base, hunks@, 0, 0),
            whole == done + spec_reconstruct_lines(base, hunks@, h as int, idx as int),
            out@ == join_lines(done),
            idx <= u32::MAX as u64 + u32::MAX as u64,
    {
        let hk_old_start = hunks[h].old_start;
        let hk_old_count = hunks[h].old_count;
        let hs: u64 = if hk_old_start > 0 {
            (hk_old_start - 1) as u64
        } else {
            0
        };
        let ghost done0 = done;
        let ghost idx0 = idx as int;
        // copy base lines before this hunk
        while idx < hs && idx < nb as u64
            invariant
                nb == base.len(),
                nb == base_lines@.len(),
                forall|k: int| 0 <= k < nb ==> (#[trigger] base_lines@[k])@ == base[k],
                nh == hunks@.len(),
                h < nh,
                hs as int == (if hunks@[h as int].old_start > 0 {
                    hunks@[h as int].old_start - 1
                } else {
                    0int
                }),
                whole == done0 + spec_reconstruct_lines(base, hunks@, h as int, idx0),
                idx0 <= idx as int,
                idx as int <= hs as int || idx as int == idx0,
                idx as int <= nb as int || idx as int == idx0,
                done == done0 + copy_range(base, idx0, idx as int),
                out@ == join_lines(done),
                idx <= u32::MAX as u64 + u32::MAX as u64,
                hs <= u32::MAX as u64,
            decreases hs - idx,
        {
            out.append(base_lines[idx as usize].as_str());
            out.append("\n");
            proof {
                reveal_strlit("\n");
                let prev = done;
                done = done.push(base[idx as int]);
                assert(join_lines(done) == join_lines(prev) + base[idx as int] + seq!['\n']) by {
                    assert(done.drop_last() =~= prev);
                }
                assert(out@ == join_lines(done));
                assert(done0 + copy_range(base, idx0, idx + 1) =~= (done0 + copy_range(
                    base,
                    idx0,
                    idx as int,
                )).push(base[idx as int]));
            }
            idx += 1;
        }
        proof {
            assert(copy_range(base, idx0, idx as int) =~= copy_range(base, idx0, hs as int));
        }
        // the hunk's new side
        let m = hunks[h].lines.len();
        let ghost done1 = done;
        let ghost idx1 = idx as int;
        for k in 0..m
            invariant
                nb == base.len(),
                nh == hunks@.len(),
                h < nh,
                hs as int == (if hunks@[h as int].old_start > 0 {
                    hunks@[h as int].old_start - 1
                } else {
                    0int
                }),
                whole == done0 + spec_reconstruct_lines(base, hunks@, h as int, idx0),
                done1 == done0 + copy_range(base, idx0, hs as int),
                m == hunks@[h as int].lines@.len(),
                done == done1 + new_side_lines(hunks@[h as int].lines@, k as int),
                out@ == join_lines(done),
        {
            let line = &hunks[h].lines[k];
            match line.kind {
                LineKind::Removed => {},
                _ => {
                    out.append(line.content.as_str());
                    out.append("\n");
                    proof {
                        reveal_strlit("\n");
                        let prev = done;
                        done = done.push(hunks@[h as int].lines@[k as int].content@);
                        assert(join_lines(done) == join_lines(prev) + hunks@[h as int].lines@[
                            k as int
                        ].content@ + seq!['\n']) by {
                            assert(done.drop_last() =~= prev);
                        }
                    }
                },
            }
        }
        // skip the old span
        proof {
            let hk = hunks@[h as int];
            assert(spec_reconstruct_lines(base, hunks@, h as int, idx0) == copy_range(
                base,
                idx0,
                hs as int,
            ) + new_side_lines(hk.lines@, hk.lines@.len() as int) + spec_reconstruct_lines(
                base,
                hunks@,
                h + 1,
                hs as int + hk.old_count,
            ));
            assert(copy_range(base, idx0, idx1) =~= copy_range(base, idx0, hs as int));
            assert(done == (done0 + copy_range(base, idx0, hs as int)) + new_side_lines(
                hk.lines@,
                hk.lines@.len() as int,
            ));
            assert(whole == done + spec_reconstruct_lines(base, hunks@, h + 1, hs as int
                + hk.old_count)) by {
                assert(done0 + (copy_range(base, idx0, hs as int) + new_side_lines(
                    hk.lines@,
                    hk.lines@.len() as int,
                ) + spec_reconstruct_lines(base, hunks@, h + 1, hs as int + hk.old_count)) =~= ((
                done0 + copy_range(base, idx0, hs as int)) + new_side_lines(
                    hk.lines@,
                    hk.lines@.len() as int,
                )) + spec_reconstruct_lines(base, hunks@, h + 1, hs as int + hk.old_count));
            }
        }
        idx = hs + hk_old_count as u64;
    }
    // remaining base lines
    let ghost done2 = done;
    let ghost idx2 = idx as int;
    while idx < nb as u64
        invariant
            nb == base.len(),
            nb == base_lines@.len(),
            forall|k: int| 0 <= k < nb ==> (#[trigger] base_lines@[k])@ == base[k],
            idx2 <= idx as int,
            done == done2 + copy_range(base, idx2, idx as int),
            out@ == join_lines(done),
        decreases nb as u64 - idx,
    {
        out.append(base_lines[idx as usize].as_str());
        out.append("\n");
        proof {
            reveal_strlit("\n");
            let prev = done;
            done = done.push(base[idx as int]);
            assert(join_lines(done) == join_lines(prev) + base[idx as int] + seq!['\n']) by {
                assert(done.drop_last() =~= prev);
            }
            assert(done2 + copy_range(base, idx2, idx + 1) =~= (done2 + copy_range(
                base,
                idx2,
                idx as int,
            )).push(base[idx as int]));
        }
        idx += 1;
    }
    proof {
        assert(copy_range(base, idx2, idx as int) =~= copy_range(base, idx2, base.len() as int));
        assert(spec_reconstruct_lines(base, hunks@, nh as int, idx2) == copy_range(
            base,
            idx2,
            base.len() as int,
        ));
        assert(done =~= whole);
    }
    out
}


/// All lines of all hunks, flattened in order.
pub open spec fn spec_all_lines(hs: Seq<Hunk>) -> Seq<DiffLine>
    decreases hs.len(),
{
    if hs.len() == 0 {
        Seq::empty()
    } else {
        spec_all_lines(hs.drop_last()) + hs.last().lines@
    }
}

fn all_lines(hunks: &[Hunk]) -> (r: Vec<DiffLine>)
    ensures
        r@ == spec_all_lines(hunks@),
{
    let mut r: Vec<DiffLine> = Vec::new();
    let n = hunks.len();
    for i in 0..n
        invariant
            n == hunks@.len(),
            r@ == spec_all_lines(hunks@.take(i as int)),
    {
        let m = hunks[i].lines.len();
        let mut k: usize = 0;
        while k < m
            invariant
                n == hunks@.len(),
                i < n,
                m == hunks@[i as int].lines@.len(),
                k <= m,
                r@ == spec_all_lines(hunks@.take(i as int)) + hunks@[i as int].lines@.take(k as int),
            decreases m - k,
        {
            r.push(hunks[i].lines[k].clone());
            k += 1;
            proof {
                assert(hunks@[i as int].lines@.take(k as int) =~= hunks@[i as int].lines@.take(
                    k - 1,
                ).push(hunks@[i as int].lines@[k - 1]));
            }
        }
        proof {
            assert(hunks@.take(i + 1).drop_last() =~= hunks@.take(i as int));
            assert(hunks@.take(i + 1).last() == hunks@[i as int]);
            assert(hunks@[i as int].lines@.take(m as int) =~= hunks@[i as int].lines@);
        }
    }
    proof {
        assert(hunks@.take(n as int) =~= hunks@);
    }
    r
}

/// The content of the line that ends up at row `n` of the given side:
/// the last line carrying that number, as a later hunk overrides an
/// earlier one.
pub open spec fn side_at(lines: Seq<DiffLine>, old_side: bool, n: u32) -> Option<Seq<char>>
    decreases lines.len(),
{
    if lines.len() == 0 {
        None
    } else {
        let l = lines.last();
        let hit = if old_side {
            occupies_old(l.kind) && l.old_line_no == Some(n)
        } else {
            occupies_new(l.kind) && l.new_line_no == Some(n)
        };
        if hit {
            Some(l.content@)
        } else {
            side_at(lines.drop_last(), old_side, n)
        }
    }
}

/// The largest row number present on the given side, 0 when none is.
pub open spec fn side_max(lines: Seq<DiffLine>, old_side: bool) -> int
    decreases lines.len(),
{
    if lines.len() == 0 {
        0
    } else {
        let l = lines.last();
        let here: int = if old_side {
            match l.old_line_no {
                Some(n) => if occupies_old(l.kind) {
                    n as int
                } else {
                    0
                },
                None => 0,
            }
        } else {
            match l.new_line_no {
                Some(n) => if occupies_new(l.kind) {
                    n as int
                } else {
                    0
                },
                None => 0,
            }
        };
        let rest = side_max(lines.drop_last(), old_side);
        if here > rest {
            here
        } else {
            rest
        }
    }
}

pub proof fn lemma_side_max_take(lines: Seq<DiffLine>, old_side: bool, k: int)
    requires
        0 <= k <= lines.len(),
    ensures
        side_max(lines.take(k), old_side) <= side_max(lines, old_side),
    decreases lines.len() - k,
{
    if k < lines.len() {
        lemma_side_max_take(lines, old_side, k + 1);
        assert(lines.take(k + 1).drop_last() =~= lines.take(k));
    } else {
        assert(lines.take(k) =~= lines);
    }
}

/// Rows 1 through `m` of the given side, missing rows empty.
pub open spec fn fill_lines(lines: Seq<DiffLine>, old_side: bool, m: int) -> Seq<Seq<char>>
    decreases m,
{
    if m <= 0 {
        Seq::empty()
    } else {
        fill_lines(lines, old_side, m - 1).push(
            match side_at(lines, old_side, m as u32) {
                Some(c) => c,
                None => Seq::empty(),
            },
        )
    }
}

/// The whole content of one side of a hunk set: its rows up to the
/// largest numbered line, one trailing newline per row.
pub open spec fn spec_side_content(lines: Seq<DiffLine>, old_side: bool) -> Seq<char> {
    join_lines(fill_lines(lines, old_side, side_max(lines, old_side)))
}

/// Build one side's content from a hunk set alone.
fn side_content(hunks: &[Hunk], old_side: bool) -> (r: String)
    ensures
        r@ == spec_side_content(spec_all_lines(hunks@), old_side),
{
    let flat = all_lines(hunks);
    let ghost fl = spec_all_lines(hunks@);
    let n = flat.len();
    // largest numbered row on this side
    let mut m: u32 = 0;
    for i in 0..n
        invariant
            fl == flat@,
            fl == spec_all_lines(hunks@),
            n == flat@.len(),
            m as int == side_max(fl.take(i as int), old_side),
    {
        let l = &flat[i];
        let here: u32 = if old_side {
            match l.kind {
                LineKind::Added => 0,
                _ => match l.old_line_no {
                    Some(x) => x,
                    None => 0,
                },
            }
        } else {
            match l.kind {
                LineKind::Removed => 0,
                _ => match l.new_line_no {
                    Some(x) => x,
                    None => 0,
                },
            }
        };
        if here > m {
            m = here;
        }
        proof {
            assert(fl.take(i + 1).drop_last() =~= fl.take(i as int));
            assert(fl.take(i + 1).last() == fl[i as int]);
        }
    }
    proof {
        assert(fl.take(n as int) =~= fl);
    }
    // rows 1..=m, filled by walking the lines in order; later lines win
    let mut rows: Vec<String> = Vec::new();
    let mu = m as usize;
    for j in 0..mu
        invariant
            rows@.len() == j,
            forall|t: int| 0 <= t < j ==> (#[trigger] rows@[t])@ == Seq::<char>::empty(),
    {
        rows.push(String::new());
    }
    proof {
        assert forall|t: int| 1 <= t <= m as int implies (#[trigger] rows@[t - 1])@ == (
        match side_at(fl.take(0), old_side, t as u32) {
            Some(c) => c,
            None => Seq::<char>::empty(),
        }) by {
            assert(fl.take(0) =~= Seq::<DiffLine>::empty());
        }
    }
    for i in 0..n
        invariant
            fl == flat@,
            fl == spec_all_lines(hunks@),
            n == flat@.len(),
            m as int == side_max(fl, old_side),
            mu == m as usize,
            rows@.len() == mu,
            forall|t: int|
                1 <= t <= m as int ==> (#[trigger] rows@[t - 1])@ == (match side_at(
                    fl.take(i as int),
                    old_side,
                    t as u32,
                ) {
                    Some(c) => c,
                    None => Seq::<char>::empty(),
                }),
    {
        let l = &flat[i];
        let target: Option<u32> = if old_side {
            match l.kind {
                LineKind::Added => None,
                _ => l.old_line_no,
            }
        } else {
            match l.kind {
                LineKind::Removed => None,
                _ => l.new_line_no,
            }
        };
        let ghost rows0 = rows@;
        match target {
            Some(x) => {
                if x >= 1 {
                    proof {
                        lemma_side_max_take(fl, old_side, i + 1);
                        assert(fl.take(i + 1).last() == fl[i as int]);
                        assert(side_max(fl.take(i + 1), old_side) >= x as int);
                    }
                    rows.set((x - 1) as usize, flat[i].content.clone());
                }
            },
            None => {},
        }
        proof {
            assert(fl.take(i + 1).drop_last() =~= fl.take(i as int));
            assert(fl.take(i + 1).last() == fl[i as int]);
            assert forall|t: int| 1 <= t <= m as int implies (#[trigger] rows@[t - 1])@ == (
            match side_at(fl.take(i + 1), old_side, t as u32) {
                Some(c) => c,
                None => Seq::<char>::empty(),
            }) by {
                assert(rows0[t - 1] == rows@[t - 1] || (match target {
                    Some(x) => x as int == t,
                    None => false,
                }));
            }
        }
    }
    proof {
        assert(fl.take(n as int) =~= fl);
    }
    // render the rows
    let mut out = String::new();
    proof {
        assert(join_lines(fill_lines(fl, old_side, 0)) =~= Seq::<char>::empty());
    }
    for j in 0..mu
        invariant
            fl == spec_all_lines(hunks@),
            m as int == side_max(fl, old_side),
            mu == m as usize,
            rows@.len() == mu,
            forall|t: int|
                1 <= t <= m as int ==> (#[trigger] rows@[t - 1])@ == (match side_at(
                    fl,
                    old_side,
                    t as u32,
                ) {
                    Some(c) => c,
                    None => Seq::<char>::empty(),
                }),
            out@ == join_lines(fill_lines(fl, old_side, j as int)),
    {
        out.append(rows[j].as_str());
        out.append("\n");
        proof {
            reveal_strlit("\n");
            let prev = fill_lines(fl, old_side, j as int);
            let next = fill_lines(fl, old_side, j + 1);
            assert(next.drop_last() =~= prev);
            assert(out@ == join_lines(next));
        }
    }
    out
}

/// Rebuild the old and the new body of a file from its hunks alone:
/// every numbered line lands on its row, later hunks override earlier
/// ones, missing rows are empty.
pub fn reconstruct_file_contents(hunks: &[Hunk]) -> (r: (String, String))
    ensures
        r.0@ == spec_side_content(spec_all_lines(hunks@), true),
        r.1@ == spec_side_content(spec_all_lines(hunks@), false),
{
    (side_content(hunks, true), side_content(hunks, false))
}


/// One change reported by the line-differ: the kind of change, the line's
/// index on each side where present, and the raw line text.
pub struct LineChange {
    pub kind: LineKind,
    pub old_index: Option<usize>,
    pub new_index: Option<usize>,
    pub text: String,
}

/// The grouped line diff of two texts with the given context width.  The
/// differ is deterministic: the result is a function of its inputs.
pub uninterp spec fn grouped_diff_of(from: Seq<char>, to: Seq<char>, context: int) -> Seq<
    Seq<LineChange>,
>;

/// Relies on similar's `TextDiff::from_lines`, `grouped_ops` and
/// `iter_changes`: the grouped line diff depends on the two texts and the
/// context width alone, and two equal texts yield no change group.
#[verifier::external_body]
fn grouped_line_diff(from: &str, to: &str, context: usize) -> (r: Vec<Vec<LineChange>>)
    ensures
        r@.map_values(|g: Vec<LineChange>| g@) == grouped_diff_of(from@, to@, context as int),
        from@ == to@ ==> r@.len() == 0,
{
    let diff = similar::TextDiff::from_lines(from, to);
    let mut groups: Vec<Vec<LineChange>> = Vec::new();
    for ops in diff.grouped_ops(context) {
        groups.push(ops.iter().flat_map(|op| diff.iter_changes(op)).map(|ch| LineChange {
            kind: match ch.tag() {
                similar::ChangeTag::Equal => LineKind::Context,
                similar::ChangeTag::Delete => LineKind::Removed,
                similar::ChangeTag::Insert => LineKind::Added,
            },
            old_index: ch.old_index(),
            new_index: ch.new_index(),
            text: ch.value().to_string(),
        }).collect());
    }
    groups
}

/// The text with its trailing newlines removed.
pub open spec fn spec_trim_nl(s: Seq<char>) -> Seq<char>
    decreases s.len(),
{
    if s.len() > 0 && s.last() == '\n' {
        spec_trim_nl(s.drop_last())
    } else {
        s
    }
}

fn trim_newlines(t: &str) -> (r: String)
    ensures
        r@ == spec_trim_nl(t@),
{
    let cs = chars_of(t);
    let mut e = cs.len();
    proof {
        assert(t@.subrange(0, e as int) =~= t@);
    }
    while e > 0 && cs[e - 1] == '\n'
        invariant
            cs@ == t@,
            e <= cs@.len(),
            spec_trim_nl(t@) == spec_trim_nl(t@.subrange(0, e as int)),
        decreases e,
    {
        proof {
            assert(t@.subrange(0, e as int).drop_last() =~= t@.subrange(0, e - 1));
        }
        e -= 1;
    }
    proof {
        assert(spec_trim_nl(t@.subrange(0, e as int)) == t@.subrange(0, e as int));
    }
    t.substring_char(0, e).to_owned()
}

/// How many of the first `n` changes of a group touch the old side.
pub open spec fn ch_old_below(g: Seq<LineChange>, n: int) -> int
    decreases n,
{
    if n <= 0 {
        0
    } else {
        ch_old_below(g, n - 1) + if occupies_old(g[n - 1].kind) {
            1int
        } else {
            0int
        }
    }
}

/// How many of the first `n` changes of a group touch the new side.
pub open spec fn ch_new_below(g: Seq<LineChange>, n: int) -> int
    decreases n,
{
    if n <= 0 {
        0
    } else {
        ch_new_below(g, n - 1) + if occupies_new(g[n - 1].kind) {
            1int
        } else {
            0int
        }
    }
}

/// The one-based old-side start of a group: its first change's old index
/// plus one (zero standing in when the side is absent), in `u32` space.
pub open spec fn group_start_old(g: Seq<LineChange>) -> u32 {
    let i = match g[0].old_index {
        Some(i) => i as u32,
        None => 0u32,
    };
    if i == u32::MAX {
        0u32
    } else {
        (i + 1) as u32
    }
}

/// The one-based new-side start of a group.
pub open spec fn group_start_new(g: Seq<LineChange>) -> u32 {
    let i = match g[0].new_index {
        Some(i) => i as u32,
        None => 0u32,
    };
    if i == u32::MAX {
        0u32
    } else {
        (i + 1) as u32
    }
}

/// The diff line a group's `k`-th change becomes.
pub open spec fn group_line_model(g: Seq<LineChange>, k: int) -> LineModel {
    LineModel {
        kind: g[k].kind,
        content: spec_trim_nl(g[k].text@),
        old_line_no: if occupies_old(g[k].kind) {
            Some((group_start_old(g) + (ch_old_below(g, k) as u32)) as u32)
        } else {
            None
        },
        new_line_no: if occupies_new(g[k].kind) {
            Some((group_start_new(g) + (ch_new_below(g, k) as u32)) as u32)
        } else {
            None
        },
    }
}

/// The hunk a non-empty change group becomes.
pub open spec fn group_hunk_model(g: Seq<LineChange>) -> crate::parser::HunkModel {
    crate::parser::HunkModel {
        old_start: group_start_old(g),
        old_count: ch_old_below(g, g.len() as int) as u32,
        new_start: group_start_new(g),
        new_count: ch_new_below(g, g.len() as int) as u32,
        context: None,
        lines: Seq::new(g.len(), |k: int| group_line_model(g, k)),
    }
}

/// The hunks of a grouped diff, one per non-empty group.
pub open spec fn interdiff_models(gs: Seq<Seq<LineChange>>, k: int) -> Seq<crate::parser::HunkModel>
    decreases gs.len() - k,
{
    if k < 0 || k >= gs.len() {
        Seq::empty()
    } else if gs[k].len() == 0 {
        interdiff_models(gs, k + 1)
    } else {
        seq![group_hunk_model(gs[k])] + interdiff_models(gs, k + 1)
    }
}

/// Compute the interdiff between two revisions of one file: both bodies
/// are rebuilt from the shared base, line-diffed with a context width of
/// three, and each change group becomes one hunk.  Identical bodies
/// produce no hunks at all.
pub fn compute_interdiff(base_content: &str, from_hunks: &[Hunk], to_hunks: &[Hunk]) -> (r: Vec<
    Hunk,
>)
    ensures
        crate::parser::hunks_match(
            r@,
            interdiff_models(
                grouped_diff_of(
                    spec_reconstruct(base_content@, from_hunks@),
                    spec_reconstruct(base_content@, to_hunks@),
                    3,
                ),
                0,
            ),
        ),
        spec_reconstruct(base_content@, from_hunks@) == spec_reconstruct(
            base_content@,
            to_hunks@,
        ) ==> r@.len() == 0,
{
    let from_content = reconstruct_from_hunks(base_content, from_hunks);
    let to_content = reconstruct_from_hunks(base_content, to_hunks);
    let groups = grouped_line_diff(from_content.as_str(), to_content.as_str(), 3);
    let ghost gs = groups@.map_values(|g: Vec<LineChange>| g@);
    let ng = groups.len();
    let mut hunks: Vec<Hunk> = Vec::new();
    let ghost mut macc: Seq<crate::parser::HunkModel> = Seq::empty();
    for gi in 0..ng
        invariant
            ng == groups@.len(),
            gs == groups@.map_values(|g: Vec<LineChange>| g@),
            interdiff_models(gs, 0) == macc + interdiff_models(gs, gi as int),
            crate::parser::hunks_match(hunks@, macc),
    {
        let g = &groups[gi];
        let ghost gv = gs[gi as int];
        proof {
            assert(gv == g@);
        }
        let glen = g.len();
        if glen == 0 {
            proof {
                assert(interdiff_models(gs, gi as int) == interdiff_models(gs, gi + 1));
            }
        } else {
        let first_old: u32 = match g[0].old_index {
            Some(i) => {
                #[verifier::truncate]
                (i as u32)
            },
            None => 0,
        };
        let os: u32 = if first_old == u32::MAX {
            0
        } else {
            first_old + 1
        };
        let first_new: u32 = match g[0].new_index {
            Some(i) => {
                #[verifier::truncate]
                (i as u32)
            },
            None => 0,
        };
        let ns: u32 = if first_new == u32::MAX {
            0
        } else {
            first_new + 1
        };
        proof {
            assert(os == group_start_old(gv));
            assert(ns == group_start_new(gv));
        }
        let mut lines: Vec<DiffLine> = Vec::new();
        let mut oc: u64 = 0;
        let mut nc: u64 = 0;
        for k in 0..glen
            invariant
                glen == g@.len(),
                gv == g@,
                os == group_start_old(gv),
                ns == group_start_new(gv),
                oc == ch_old_below(gv, k as int),
                nc == ch_new_below(gv, k as int),
                oc <= k,
                nc <= k,
                lines@.len() == k,
                forall|t: int|
                    0 <= t < k ==> crate::parser::line_matches(
                        #[trigger] lines@[t],
                        group_line_model(gv, t),
                    ),
        {
            let ch = &g[k];
            let content = trim_newlines(ch.text.as_str());
            let occupies_o = match ch.kind {
                LineKind::Added => false,
                _ => true,
            };
            let occupies_n = match ch.kind {
                LineKind::Removed => false,
                _ => true,
            };
            let oct: u32 = #[verifier::truncate] (oc as u32);
            let nct: u32 = #[verifier::truncate] (nc as u32);
            let old_no: u32 = #[verifier::truncate] (((os as u64) + (oct as u64)) as u32);
            let new_no: u32 = #[verifier::truncate] (((ns as u64) + (nct as u64)) as u32);
            let dl = DiffLine {
                kind: ch.kind,
                content,
                old_line_no: if occupies_o {
                    Some(old_no)
                } else {
                    None
                },
                new_line_no: if occupies_n {
                    Some(new_no)
                } else {
                    None
                },
                highlighted: None,
            };
            proof {
                assert(occupies_o == occupies_old(gv[k as int].kind));
                assert(occupies_n == occupies_new(gv[k as int].kind));
                assert(crate::parser::line_matches(dl, group_line_model(gv, k as int)));
            }
            lines.push(dl);
            if occupies_o {
                oc += 1;
            }
            if occupies_n {
                nc += 1;
            }
        }
        let hunk = Hunk {
            old_start: os,
            old_count: #[verifier::truncate] (oc as u32),
            new_start: ns,
            new_count: #[verifier::truncate] (nc as u32),
            context: None,
            lines,
        };
        proof {
            let hm = group_hunk_model(gv);
            assert(crate::parser::lines_match(hunk.lines@, hm.lines)) by {
                assert(hm.lines.len() == gv.len());
                assert forall|t: int| 0 <= t < hunk.lines@.len() implies crate::parser::line_matches(
                    hunk.lines@[t],
                    hm.lines[t],
                ) by {
                    assert(hm.lines[t] == group_line_model(gv, t));
                }
            }
            assert(crate::parser::hunk_matches(hunk, hm));
            match interdiff_models(gs, gi + 1) {
                rest => {
                    assert(macc + (seq![hm] + rest) =~= macc.push(hm) + rest);
                },
            }
            macc = macc.push(hm);
        }
        hunks.push(hunk);
        }
    }
    proof {
        assert(interdiff_models(gs, ng as int) =~= Seq::<crate::parser::HunkModel>::empty());
        assert(macc + Seq::<crate::parser::HunkModel>::empty() =~= macc);
        if spec_reconstruct(base_content@, from_hunks@) == spec_reconstruct(
            base_content@,
            to_hunks@,
        ) {
            assert(gs.len() == 0);
            assert(interdiff_models(gs, 0) =~= Seq::<crate::parser::HunkModel>::empty());
        }
    }
    hunks
}


/// Element-wise equal hunk lists flatten to the same lines.
pub proof fn lemma_all_lines_like(a: Seq<Hunk>, b: Seq<Hunk>)
    requires
        crate::diff::hunks_eq_seq(a, b),
    ensures
        spec_all_lines(a) == spec_all_lines(b),
    decreases a.len(),
{
    if a.len() > 0 {
        assert(crate::diff::hunks_eq_seq(a.drop_last(), b.drop_last())) by {
            assert(forall|i: int|
                0 <= i < a.len() - 1 ==> a.drop_last()[i] == a[i] && b.drop_last()[i] == b[i]);
        }
        lemma_all_lines_like(a.drop_last(), b.drop_last());
        assert(crate::diff::hunk_eq(a.last(), b.last()));
        assert(spec_all_lines(a) =~= spec_all_lines(b));
    } else {
        assert(spec_all_lines(a) =~= spec_all_lines(b));
    }
}

} // verus!


