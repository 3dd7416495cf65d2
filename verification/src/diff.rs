use vstd::prelude::*;

verus! {

/// Clone an optional string, keeping the value.
pub fn clone_opt_string(o: &Option<String>) -> (r: Option<String>)
    ensures
        r == *o,
{
    match o {
        Some(s) => Some(s.clone()),
        None => None,
    }
}

/// How a file changed between the base revision and the working tree.
#[derive(Debug, Clone, Copy, PartialEq, Eq, Structural)]
pub enum FileStatus {
    Added,
    Modified,
    Deleted,
    Renamed,
    Binary,
}

/// The side(s) of a diff a single line belongs to.
#[derive(Debug, Clone, Copy, PartialEq, Eq, Structural)]
pub enum LineKind {
    Context,
    Added,
    Removed,
}

/// One line of a hunk, with its position on the old and new side.
/// `old_line_no` is present iff the kind occupies the old side,
/// `new_line_no` iff it occupies the new side.
#[derive(Debug, PartialEq, Eq)]
pub struct DiffLine {
    pub kind: LineKind,
    pub content: String,
    pub old_line_no: Option<u32>,
    pub new_line_no: Option<u32>,
    pub highlighted: Option<String>,
}

impl Clone for DiffLine {
    fn clone(&self) -> (r: Self)
        ensures
            r == *self,
    {
        DiffLine {
            kind: self.kind,
            content: self.content.clone(),
            old_line_no: self.old_line_no,
            new_line_no: self.new_line_no,
            highlighted: clone_opt_string(&self.highlighted),
        }
    }
}

/// Clone a vector whose element clones are exact copies.
pub fn clone_vec_exact<T: Clone>(v: &Vec<T>) -> (r: Vec<T>)
    requires
        forall|x: T, y: T| call_ensures(T::clone, (&x,), y) ==> y == x,
    ensures
        r@ == v@,
{
    let r = v.clone();
    proof {
        assert forall|i: int| 0 <= i < v@.len() implies r@[i] == v@[i] by {
            assert(cloned(v@[i], r@[i]));
        }
        assert(r@ =~= v@);
    }
    r
}

/// A contiguous block of diff lines, with the `@@`-header coordinates.
#[derive(Debug, PartialEq, Eq)]
pub struct Hunk {
    pub old_start: u32,
    pub old_count: u32,
    pub new_start: u32,
    pub new_count: u32,
    pub context: Option<String>,
    pub lines: Vec<DiffLine>,
}

/// Value equality on hunks, with the line vector compared element-wise.
pub open spec fn hunk_eq(a: Hunk, b: Hunk) -> bool {
    &&& a.old_start == b.old_start
    &&& a.old_count == b.old_count
    &&& a.new_start == b.new_start
    &&& a.new_count == b.new_count
    &&& a.context == b.context
    &&& a.lines@ == b.lines@
}

impl Clone for Hunk {
    fn clone(&self) -> (r: Self)
        ensures
            hunk_eq(r, *self),
    {
        Hunk {
            old_start: self.old_start,
            old_count: self.old_count,
            new_start: self.new_start,
            new_count: self.new_count,
            context: clone_opt_string(&self.context),
            lines: clone_vec_exact(&self.lines),
        }
    }
}

/// Clone a vector of hunks, keeping every hunk's value.
pub fn clone_hunks(v: &Vec<Hunk>) -> (r: Vec<Hunk>)
    ensures
        r@.len() == v@.len(),
        forall|i: int| 0 <= i < v@.len() ==> hunk_eq(#[trigger] r@[i], v@[i]),
{
    let r = v.clone();
    proof {
        assert forall|i: int| 0 <= i < v@.len() implies hunk_eq(r@[i], v@[i]) by {
            assert(cloned(v@[i], r@[i]));
        }
    }
    r
}

/// All hunks of one file in a unified diff.
#[derive(Debug, PartialEq, Eq)]
pub struct FileDiff {
    pub old_path: Option<String>,
    pub new_path: Option<String>,
    pub status: FileStatus,
    pub hunks: Vec<Hunk>,
}

/// Value equality on file diffs, with hunks compared element-wise.
pub open spec fn file_eq(a: FileDiff, b: FileDiff) -> bool {
    &&& a.old_path == b.old_path
    &&& a.new_path == b.new_path
    &&& a.status == b.status
    &&& a.hunks@.len() == b.hunks@.len()
    &&& forall|i: int| 0 <= i < a.hunks@.len() ==> hunk_eq(#[trigger] a.hunks@[i], b.hunks@[i])
}

impl Clone for FileDiff {
    fn clone(&self) -> (r: Self)
        ensures
            file_eq(r, *self),
    {
        FileDiff {
            old_path: clone_opt_string(&self.old_path),
            new_path: clone_opt_string(&self.new_path),
            status: self.status,
            hunks: clone_hunks(&self.hunks),
        }
    }
}

/// Clone a vector of file diffs, keeping every file's value.
pub fn clone_files(v: &Vec<FileDiff>) -> (r: Vec<FileDiff>)
    ensures
        r@.len() == v@.len(),
        forall|i: int| 0 <= i < v@.len() ==> file_eq(#[trigger] r@[i], v@[i]),
{
    let r = v.clone();
    proof {
        assert forall|i: int| 0 <= i < v@.len() implies file_eq(r@[i], v@[i]) by {
            assert(cloned(v@[i], r@[i]));
        }
    }
    r
}

/// A line of this kind advances the old-side counter.
pub open spec fn occupies_old(k: LineKind) -> bool {
    !(k is Added)
}

/// A line of this kind advances the new-side counter.
pub open spec fn occupies_new(k: LineKind) -> bool {
    !(k is Removed)
}

/// Number of lines among the first `n` of `lines` that occupy the old side.
pub open spec fn old_occupied_below(lines: Seq<DiffLine>, n: int) -> int
    decreases n,
{
    if n <= 0 {
        0
    } else {
        old_occupied_below(lines, n - 1) + if occupies_old(lines[n - 1].kind) {
            1int
        } else {
            0int
        }
    }
}

/// Number of lines among the first `n` of `lines` that occupy the new side.
pub open spec fn new_occupied_below(lines: Seq<DiffLine>, n: int) -> int
    decreases n,
{
    if n <= 0 {
        0
    } else {
        new_occupied_below(lines, n - 1) + if occupies_new(lines[n - 1].kind) {
            1int
        } else {
            0int
        }
    }
}

/// The line-number accounting that every parsed hunk satisfies: each side's
/// numbers form a contiguous run from the hunk's start, present exactly on
/// the lines whose kind occupies that side.
pub open spec fn hunk_lines_numbered(lines: Seq<DiffLine>, old_start: u32, new_start: u32) -> bool {
    forall|i: int|
        0 <= i < lines.len() ==> {
            &&& (#[trigger] lines[i]).old_line_no == (if occupies_old(lines[i].kind) {
                Some((old_start + old_occupied_below(lines, i)) as u32)
            } else {
                Option::<u32>::None
            })
            &&& lines[i].new_line_no == (if occupies_new(lines[i].kind) {
                Some((new_start + new_occupied_below(lines, i)) as u32)
            } else {
                Option::<u32>::None
            })
        }
}

impl FileDiff {
    /// The path a file is addressed by: the new path when present, else the old.
    pub open spec fn spec_effective_path(&self) -> Option<Seq<char>> {
        if self.new_path is Some {
            Some(self.new_path->0@)
        } else if self.old_path is Some {
            Some(self.old_path->0@)
        } else {
            None
        }
    }

    /// The path a file is addressed by: the new path when present, else the old.
    pub fn effective_path(&self) -> (r: Option<&String>)
        ensures
            match r {
                Some(p) => self.spec_effective_path() == Some(p@),
                None => self.spec_effective_path() is None,
            },
    {
        match &self.new_path {
            Some(p) => Some(p),
            None => match &self.old_path {
                Some(p) => Some(p),
                None => None,
            },
        }
    }
}

/// Two diff lines agree on what matters for change detection:
/// the kind and the textual content.
pub open spec fn spec_line_same(a: DiffLine, b: DiffLine) -> bool {
    a.kind == b.kind && a.content@ == b.content@
}

/// Two hunks are structurally identical: same coordinates and the same
/// lines by kind and content.
pub open spec fn spec_hunk_same(a: Hunk, b: Hunk) -> bool {
    &&& a.old_start == b.old_start
    &&& a.new_start == b.new_start
    &&& a.old_count == b.old_count
    &&& a.new_count == b.new_count
    &&& a.lines@.len() == b.lines@.len()
    &&& forall|i: int| 0 <= i < a.lines@.len() ==> spec_line_same(#[trigger] a.lines@[i], b.lines@[i])
}

fn line_same(a: &DiffLine, b: &DiffLine) -> (r: bool)
    ensures
        r == spec_line_same(*a, *b),
{
    a.kind == b.kind && a.content == b.content
}

fn hunk_same(a: &Hunk, b: &Hunk) -> (r: bool)
    ensures
        r == spec_hunk_same(*a, *b),
{
    if a.old_start != b.old_start || a.new_start != b.new_start || a.old_count != b.old_count
        || a.new_count != b.new_count {
        return false;
    }
    if a.lines.len() != b.lines.len() {
        return false;
    }
    let n = a.lines.len();
    for i in 0..n
        invariant
            n == a.lines@.len(),
            n == b.lines@.len(),
            forall|j: int| 0 <= j < i ==> spec_line_same(#[trigger] a.lines@[j], b.lines@[j]),
    {
        if !line_same(&a.lines[i], &b.lines[i]) {
            return false;
        }
    }
    true
}

/// The flattened sequence of all hunks of all files, in file order.
pub open spec fn spec_all_hunks(files: Seq<FileDiff>) -> Seq<Hunk>
    decreases files.len(),
{
    if files.len() == 0 {
        Seq::empty()
    } else {
        spec_all_hunks(files.drop_last()) + files.last().hunks@
    }
}

/// Element-wise value equality of two hunk sequences.
pub open spec fn hunks_eq_seq(x: Seq<Hunk>, y: Seq<Hunk>) -> bool {
    x.len() == y.len() && forall|i: int| 0 <= i < x.len() ==> hunk_eq(#[trigger] x[i], y[i])
}

fn all_hunks(files: &Vec<FileDiff>) -> (r: Vec<Hunk>)
    ensures
        hunks_eq_seq(r@, spec_all_hunks(files@)),
{
    let mut r: Vec<Hunk> = Vec::new();
    let n = files.len();
    for i in 0..n
        invariant
            n == files@.len(),
            hunks_eq_seq(r@, spec_all_hunks(files@.take(i as int))),
    {
        let mut k: usize = 0;
        let m = files[i].hunks.len();
        while k < m
            invariant
                n == files@.len(),
                i < n,
                m == files@[i as int].hunks@.len(),
                k <= m,
                hunks_eq_seq(
                    r@,
                    spec_all_hunks(files@.take(i as int)) + files@[i as int].hunks@.take(k as int),
                ),
            decreases m - k,
        {
            r.push(files[i].hunks[k].clone());
            k += 1;
            proof {
                assert(files@[i as int].hunks@.take(k as int) == files@[i as int].hunks@.take(
                    k - 1,
                ).push(files@[i as int].hunks@[k - 1]));
            }
        }
        proof {
            assert(files@.take(i + 1).drop_last() == files@.take(i as int));
            assert(files@.take(i + 1).last() == files@[i as int]);
            assert(files@[i as int].hunks@.take(m as int) == files@[i as int].hunks@);
        }
    }
    proof {
        assert(files@.take(n as int) == files@);
    }
    r
}

/// Some file of `b` has the same effective path as `a[i]`.
pub open spec fn spec_path_matched(a: Seq<FileDiff>, b: Seq<FileDiff>, i: int) -> bool {
    exists|j: int|
        0 <= j < b.len() && a[i].spec_effective_path() == (#[trigger] b[j]).spec_effective_path()
}

/// Every effective path of `a` also names a file of `b`.
pub open spec fn spec_paths_included(a: Seq<FileDiff>, b: Seq<FileDiff>) -> bool {
    forall|i: int| 0 <= i < a.len() ==> #[trigger] spec_path_matched(a, b, i)
}

fn path_opt_eq(a: Option<&String>, b: Option<&String>) -> (r: bool)
    ensures
        r == (match (a, b) {
            (Some(x), Some(y)) => x@ == y@,
            (None, None) => true,
            _ => false,
        }),
{
    match (a, b) {
        (Some(x), Some(y)) => *x == *y,
        (None, None) => true,
        _ => false,
    }
}

fn paths_included(a: &Vec<FileDiff>, b: &Vec<FileDiff>) -> (r: bool)
    ensures
        r == spec_paths_included(a@, b@),
{
    let n = a.len();
    for i in 0..n
        invariant
            n == a@.len(),
            forall|ii: int| 0 <= ii < i ==> #[trigger] spec_path_matched(a@, b@, ii),
    {
        let pa = a[i].effective_path();
        let mut found = false;
        let m = b.len();
        for j in 0..m
            invariant
                m == b@.len(),
                n == a@.len(),
                i < n,
                match pa {
                    Some(p) => a@[i as int].spec_effective_path() == Some(p@),
                    None => a@[i as int].spec_effective_path() is None,
                },
                found ==> spec_path_matched(a@, b@, i as int),
                !found ==> forall|jj: int|
                    0 <= jj < j ==> a@[i as int].spec_effective_path() != (
                    #[trigger] b@[jj]).spec_effective_path(),
        {
            let pb = b[j].effective_path();
            if path_opt_eq(pa, pb) {
                proof {
                    assert(a@[i as int].spec_effective_path() == b@[j as int].spec_effective_path());
                    assert(spec_path_matched(a@, b@, i as int));
                }
                found = true;
            } else {
                proof {
                    assert(a@[i as int].spec_effective_path() != b@[j as int].spec_effective_path());
                }
            }
        }
        if !found {
            proof {
                assert(!spec_path_matched(a@, b@, i as int));
            }
            return false;
        }
    }
    true
}

/// Two file lists are structurally identical, as used for no-change
/// detection when a revision is submitted: the same files by effective
/// path (as sets), the same number of files, and the flattened hunk
/// sequences pairwise identical in coordinates, line kinds and contents.
pub open spec fn spec_structurally_identical(a: Seq<FileDiff>, b: Seq<FileDiff>) -> bool {
    &&& spec_paths_included(a, b)
    &&& spec_paths_included(b, a)
    &&& a.len() == b.len()
    &&& spec_all_hunks(a).len() == spec_all_hunks(b).len()
    &&& forall|i: int|
        0 <= i < spec_all_hunks(a).len() ==> spec_hunk_same(
            #[trigger] spec_all_hunks(a)[i],
            spec_all_hunks(b)[i],
        )
}

/// Decide whether a freshly computed file list is structurally identical
/// to the one of the latest revision.
pub fn structurally_identical(a: &Vec<FileDiff>, b: &Vec<FileDiff>) -> (r: bool)
    ensures
        r == spec_structurally_identical(a@, b@),
{
    if !paths_included(a, b) {
        return false;
    }
    if !paths_included(b, a) {
        return false;
    }
    if a.len() != b.len() {
        return false;
    }
    let ha = all_hunks(a);
    let hb = all_hunks(b);
    if ha.len() != hb.len() {
        return false;
    }
    let n = ha.len();
    for i in 0..n
        invariant
            n == ha@.len(),
            n == hb@.len(),
            hunks_eq_seq(ha@, spec_all_hunks(a@)),
            hunks_eq_seq(hb@, spec_all_hunks(b@)),
            forall|j: int|
                0 <= j < i ==> spec_hunk_same(#[trigger] spec_all_hunks(a@)[j], spec_all_hunks(b@)[j]),
    {
        let same = hunk_same(&ha[i], &hb[i]);
        proof {
            assert(hunk_eq(ha@[i as int], spec_all_hunks(a@)[i as int]));
            assert(hunk_eq(hb@[i as int], spec_all_hunks(b@)[i as int]));
        }
        if !same {
            return false;
        }
    }
    true
}


/// Element-wise value equality of file lists.
pub open spec fn files_like(a: Seq<FileDiff>, b: Seq<FileDiff>) -> bool {
    a.len() == b.len() && forall|i: int| 0 <= i < a.len() ==> file_eq(#[trigger] a[i], b[i])
}

/// Element-wise equal file lists flatten to element-wise equal hunks.
pub proof fn lemma_all_hunks_like(a: Seq<FileDiff>, b: Seq<FileDiff>)
    requires
        files_like(a, b),
    ensures
        hunks_eq_seq(spec_all_hunks(a), spec_all_hunks(b)),
    decreases a.len(),
{
    if a.len() > 0 {
        assert(files_like(a.drop_last(), b.drop_last())) by {
            assert(forall|i: int|
                0 <= i < a.len() - 1 ==> a.drop_last()[i] == a[i] && b.drop_last()[i] == b[i]);
        }
        lemma_all_hunks_like(a.drop_last(), b.drop_last());
        assert(file_eq(a.last(), b.last()));
        let ha = spec_all_hunks(a);
        let hb = spec_all_hunks(b);
        assert forall|k: int| 0 <= k < ha.len() implies hunk_eq(#[trigger] ha[k], hb[k]) by {
            let pa = spec_all_hunks(a.drop_last());
            if k < pa.len() {
                assert(ha[k] == pa[k]);
                assert(hb[k] == spec_all_hunks(b.drop_last())[k]);
            } else {
                assert(ha[k] == a.last().hunks@[k - pa.len()]);
                assert(hb[k] == b.last().hunks@[k - pa.len()]);
            }
        }
    }
}

/// Structural identity does not see the difference between element-wise
/// equal file lists.
pub proof fn lemma_struct_identical_congr(x: Seq<FileDiff>, a: Seq<FileDiff>, b: Seq<FileDiff>)
    requires
        files_like(a, b),
    ensures
        spec_structurally_identical(x, a) == spec_structurally_identical(x, b),
{
    lemma_all_hunks_like(a, b);
    assert(forall|i: int|
        0 <= i < a.len() ==> (#[trigger] a[i]).spec_effective_path() == b[i].spec_effective_path());
    assert(spec_paths_included(x, a) == spec_paths_included(x, b)) by {
        if spec_paths_included(x, a) {
            assert forall|i: int| 0 <= i < x.len() implies #[trigger] spec_path_matched(
                x,
                b,
                i,
            ) by {
                assert(spec_path_matched(x, a, i));
                let j = choose|j: int|
                    0 <= j < a.len() && x[i].spec_effective_path() == (
                    #[trigger] a[j]).spec_effective_path();
                assert(x[i].spec_effective_path() == b[j].spec_effective_path());
            }
        }
        if spec_paths_included(x, b) {
            assert forall|i: int| 0 <= i < x.len() implies #[trigger] spec_path_matched(
                x,
                a,
                i,
            ) by {
                assert(spec_path_matched(x, b, i));
                let j = choose|j: int|
                    0 <= j < b.len() && x[i].spec_effective_path() == (
                    #[trigger] b[j]).spec_effective_path();
                assert(x[i].spec_effective_path() == a[j].spec_effective_path());
            }
        }
    }
    assert(spec_paths_included(a, x) == spec_paths_included(b, x)) by {
        if spec_paths_included(a, x) {
            assert forall|i: int| 0 <= i < b.len() implies #[trigger] spec_path_matched(
                b,
                x,
                i,
            ) by {
                assert(spec_path_matched(a, x, i));
                let j = choose|j: int|
                    0 <= j < x.len() && a[i].spec_effective_path() == (
                    #[trigger] x[j]).spec_effective_path();
                assert(b[i].spec_effective_path() == x[j].spec_effective_path());
            }
        }
        if spec_paths_included(b, x) {
            assert forall|i: int| 0 <= i < a.len() implies #[trigger] spec_path_matched(
                a,
                x,
                i,
            ) by {
                assert(spec_path_matched(b, x, i));
                let j = choose|j: int|
                    0 <= j < x.len() && b[i].spec_effective_path() == (
                    #[trigger] x[j]).spec_effective_path();
                assert(a[i].spec_effective_path() == x[j].spec_effective_path());
            }
        }
    }
    if spec_all_hunks(x).len() == spec_all_hunks(a).len() {
        assert forall|k: int| 0 <= k < spec_all_hunks(x).len() implies spec_hunk_same(
            #[trigger] spec_all_hunks(x)[k],
            spec_all_hunks(a)[k],
        ) == spec_hunk_same(spec_all_hunks(x)[k], spec_all_hunks(b)[k]) by {
            assert(hunk_eq(spec_all_hunks(a)[k], spec_all_hunks(b)[k]));
        }
    }
}

} // verus!

