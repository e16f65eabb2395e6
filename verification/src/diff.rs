//! Byte diff of two files, grouped into runs.
//!
//! Bytes are compared up to the shorter length. Differing bytes that are
//! separated by at most `GAP` equal bytes belong to the same run, so a
//! small edit shows as one region rather than as scattered single bytes.

use vstd::prelude::*;
use crate::hexview::hex_pair_lines;
use crate::hexview::spec_pair_lines;
use crate::hexview::texts;
use crate::hexview::append_lines;
use crate::text::decimal;
use crate::text::hex_upper;
use crate::text::pad_left;
use crate::text::zero_pad;
use crate::text::push_dec_right;
use crate::text::push_hex;
use crate::text::push_str;
use crate::text::string_from_chars;

verus! {

/// Differing bytes separated by at most this many equal bytes are merged
/// into one run.
pub const GAP: usize = 8;

/// The length of a stretch of equal bytes that separates two runs: one more
/// than `GAP`.
pub const SPLIT: usize = GAP + 1;

/// Equal bytes shown on each side of a run.
pub const CONTEXT: usize = 8;

/// The number of positions compared.
pub open spec fn common_len(a: Seq<u8>, b: Seq<u8>) -> int {
    if a.len() <= b.len() {
        a.len() as int
    } else {
        b.len() as int
    }
}

/// The byte at `j` differs.
pub open spec fn differs(a: Seq<u8>, b: Seq<u8>, j: int) -> bool {
    a[j] != b[j]
}

/// No byte differs in `[lo, hi)`.
pub open spec fn quiet(a: Seq<u8>, b: Seq<u8>, lo: int, hi: int) -> bool {
    forall|j: int| lo <= j < hi ==> !#[trigger] differs(a, b, j)
}

/// Every `SPLIT` consecutive positions inside `[s, e)` hold a differing
/// byte: the run has no stretch of more than `GAP` equal bytes.
pub open spec fn dense(a: Seq<u8>, b: Seq<u8>, s: int, e: int) -> bool {
    forall|p: int|
        s <= p && p + SPLIT <= e ==> !quiet(a, b, p, #[trigger] (p + SPLIT))
}

/// One run `[s, e)`: inside the compared range, starting and ending with a
/// differing byte, without a stretch of more than `GAP` equal bytes.
pub open spec fn run_ok(a: Seq<u8>, b: Seq<u8>, r: (usize, usize)) -> bool {
    let (s, e) = r;
    &&& s < e <= common_len(a, b)
    &&& differs(a, b, s as int)
    &&& differs(a, b, e - 1)
    &&& dense(a, b, s as int, e as int)
}

/// The runs of a diff of `a` and `b`: each run is well formed, runs come in
/// order with more than `GAP` equal bytes between two runs, and every
/// differing byte lies in a run.
pub open spec fn is_diff_runs(a: Seq<u8>, b: Seq<u8>, runs: Seq<(usize, usize)>) -> bool {
    &&& forall|k: int| 0 <= k < runs.len() ==> run_ok(a, b, #[trigger] runs[k])
    &&& forall|k: int|
        0 <= k < runs.len() - 1 ==> #[trigger] runs[k].1 + GAP < runs[k + 1].0
    &&& forall|j: int| 0 <= j < common_len(a, b) && differs(a, b, j) ==> covered(runs, j)
}

/// Some run contains position `j`.
pub open spec fn covered(runs: Seq<(usize, usize)>, j: int) -> bool {
    exists|k: int| 0 <= k < runs.len() && #[trigger] runs[k].0 <= j < runs[k].1
}

/// The number of bytes inside the runs.
pub open spec fn run_total(runs: Seq<(usize, usize)>) -> int
    decreases runs.len(),
{
    if runs.len() == 0 {
        0
    } else {
        run_total(runs.drop_last()) + runs.last().1 - runs.last().0
    }
}

proof fn lemma_extend_dense(a: Seq<u8>, b: Seq<u8>, s: int, last: int, nxt: int)
    requires
        s <= last < nxt,
        dense(a, b, s, last + 1),
        quiet(a, b, last + 1, nxt),
        nxt - (last + 1) < SPLIT,
        differs(a, b, last),
        differs(a, b, nxt),
    ensures
        dense(a, b, s, nxt + 1),
{
    assert forall|p: int| s <= p && p + SPLIT <= nxt + 1 implies !quiet(
        a,
        b,
        p,
        #[trigger] (p + SPLIT),
    ) by {
        if p + SPLIT <= last + 1 {
        } else if p <= last {
            assert(differs(a, b, last));
        } else {
            assert(differs(a, b, nxt));
        }
    }
}

/// The differing runs of `a` and `b`, in order.
pub fn diff_runs(a: &[u8], b: &[u8]) -> (runs: Vec<(usize, usize)>)
    ensures
        is_diff_runs(a@, b@, runs@),
{
    let n = if a.len() <= b.len() {
        a.len()
    } else {
        b.len()
    };
    let mut runs: Vec<(usize, usize)> = Vec::new();
    let mut i: usize = 0;
    while i < n
        invariant
            n == common_len(a@, b@),
            i <= n,
            is_diff_runs_upto(a@, b@, runs@, i as int),
        decreases n - i,
    {
        if a[i] != b[i] {
            let start = i;
            let mut last = i;
            i = i + 1;
            let mut done = false;
            proof {
                if runs@.len() > 0 {
                    let e = runs@.last().1 as int;
                    assert(differs(a@, b@, start as int));
                    assert(start >= e + SPLIT);
                }
            }
            while !done && i < n
                invariant
                    n == common_len(a@, b@),
                    start <= last < i <= n,
                    differs(a@, b@, start as int),
                    differs(a@, b@, last as int),
                    dense(a@, b@, start as int, last + 1),
                    quiet(a@, b@, last + 1, i as int),
                    i - (last + 1) < SPLIT,
                    i == last + 1 || (i < n && differs(a@, b@, i as int)),
                    done ==> i == last + 1 && quiet(a@, b@, last + 1, min_int(last + 1 + SPLIT, n as int)),
                decreases n - i, if done { 0int } else { 1int },
            {
                if a[i] != b[i] {
                    proof {
                        lemma_extend_dense(a@, b@, start as int, last as int, i as int);
                    }
                    last = i;
                    i = i + 1;
                } else {
                    let mut j = i;
                    let mut found = false;
                    while !found && j < n && j - i <= GAP
                        invariant
                            n == common_len(a@, b@),
                            i <= j <= n,
                            j - i <= SPLIT,
                            quiet(a@, b@, i as int, j as int),
                            found ==> j < n && j - i < SPLIT && differs(a@, b@, j as int),
                        decreases n - j, if found { 0int } else { 1int },
                    {
                        if a[j] != b[j] {
                            found = true;
                        } else {
                            j = j + 1;
                        }
                    }
                    if found {
                        i = j;
                    } else {
                        done = true;
                    }
                }
            }
            proof {
                assert(quiet(a@, b@, last + 1, min_int(last + 1 + SPLIT, n as int))) by {
                    if !done {
                        assert(i == n);
                    }
                }
            }
            let ghost old_runs = runs@;
            runs.push((start, last + 1));
            proof {
                lemma_push_run(a@, b@, old_runs, start as int, last + 1, i as int);
            }
        } else {
            i = i + 1;
        }
    }
    proof {
        lemma_upto_done(a@, b@, runs@, n as int);
    }
    runs
}

pub open spec fn min_int(x: int, y: int) -> int {
    if x <= y {
        x
    } else {
        y
    }
}

/// The state of the scan after position `i`: the runs found so far are
/// those of the bytes before `i`, and the bytes after the last run, up to
/// `i` and for `SPLIT` positions, are equal.
pub open spec fn is_diff_runs_upto(
    a: Seq<u8>,
    b: Seq<u8>,
    runs: Seq<(usize, usize)>,
    i: int,
) -> bool {
    &&& forall|k: int| 0 <= k < runs.len() ==> run_ok(a, b, #[trigger] runs[k])
    &&& forall|k: int|
        0 <= k < runs.len() - 1 ==> #[trigger] runs[k].1 + SPLIT <= runs[k + 1].0
    &&& forall|j: int| 0 <= j < i && differs(a, b, j) ==> covered(runs, j)
    &&& runs.len() > 0 ==> {
        let e = runs.last().1 as int;
        &&& e <= i
        &&& quiet(a, b, e, i)
        &&& quiet(a, b, e, min_int(e + SPLIT, common_len(a, b)))
    }
}

proof fn lemma_push_run(
    a: Seq<u8>,
    b: Seq<u8>,
    runs: Seq<(usize, usize)>,
    start: int,
    e: int,
    i: int,
)
    requires
        is_diff_runs_upto(a, b, runs, start),
        0 <= start < e <= i <= common_len(a, b),
        start <= usize::MAX,
        e <= usize::MAX,
        differs(a, b, start),
        differs(a, b, e - 1),
        dense(a, b, start, e),
        quiet(a, b, e, i),
        quiet(a, b, e, min_int(e + SPLIT, common_len(a, b))),
        runs.len() > 0 ==> runs.last().1 + SPLIT <= start,
    ensures
        is_diff_runs_upto(a, b, runs.push((start as usize, e as usize)), i),
{
    let r2 = runs.push((start as usize, e as usize));
    assert(r2.last() == (start as usize, e as usize));
    assert forall|k: int| 0 <= k < r2.len() implies run_ok(a, b, #[trigger] r2[k]) by {
        if k < runs.len() {
            assert(r2[k] == runs[k]);
        }
    }
    assert forall|k: int| 0 <= k < r2.len() - 1 implies #[trigger] r2[k].1 + SPLIT <= r2[k + 1].0 by {
        if k < runs.len() - 1 {
            assert(r2[k] == runs[k]);
            assert(r2[k + 1] == runs[k + 1]);
        } else {
            assert(r2[k] == runs.last());
        }
    }
    assert forall|j: int| 0 <= j < i && differs(a, b, j) implies covered(r2, j) by {
        if j < start {
            assert(covered(runs, j));
            let k = choose|k: int| 0 <= k < runs.len() && #[trigger] runs[k].0 <= j < runs[k].1;
            assert(r2[k] == runs[k]);
        } else if j < e {
            assert(r2[runs.len() as int].0 <= j < r2[runs.len() as int].1);
        } else {
            assert(!differs(a, b, j));
        }
    }
}

proof fn lemma_upto_done(a: Seq<u8>, b: Seq<u8>, runs: Seq<(usize, usize)>, n: int)
    requires
        n == common_len(a, b),
        is_diff_runs_upto(a, b, runs, n),
    ensures
        is_diff_runs(a, b, runs),
{
}

/// `x - y`, or 0 when `y > x` (as `saturating_sub`).
pub open spec fn sat_sub(x: int, y: int) -> int {
    if x >= y {
        x - y
    } else {
        0
    }
}

/// Start of the context window shown around a run starting at `s`.
pub open spec fn context_start(s: int) -> int {
    sat_sub(s, CONTEXT as int)
}

/// End of the context window shown around a run ending at `e`, in a
/// comparison of `n` bytes.
pub open spec fn context_end(e: int, n: int) -> int {
    min_int(e + CONTEXT, n)
}

/// The header line of run number `k` (counted from 0).
pub open spec fn run_header(k: int, r: (usize, usize)) -> Seq<char> {
    "── run "@ + pad_left(decimal((k + 1) as nat), 2) + ": offset 0x"@ + zero_pad(
        hex_upper(r.0 as nat),
        8,
    ) + " ("@ + pad_left(decimal(r.0 as nat), 10) + ")  len "@ + pad_left(
        decimal((r.1 - r.0) as nat),
        5,
    ) + "  ────────────────"@
}

/// The lines shown for run number `k`: its header, the two hex lines of
/// each 16 bytes of its context window, and an empty line.
pub open spec fn run_block(a: Seq<u8>, b: Seq<u8>, k: int, r: (usize, usize)) -> Seq<Seq<char>> {
    let n = common_len(a, b);
    let cs = context_start(r.0 as int);
    let ce = context_end(r.1 as int, n);
    seq![run_header(k, r)] + spec_pair_lines(
        a.subrange(cs, ce),
        b.subrange(cs, ce),
        cs,
        r.0 as int,
        r.1 as int,
    ) + seq![Seq::<char>::empty()]
}

/// The lines of the first `k` runs.
pub open spec fn run_blocks(a: Seq<u8>, b: Seq<u8>, runs: Seq<(usize, usize)>, k: int) -> Seq<
    Seq<char>,
>
    decreases k,
{
    if k <= 0 {
        seq![]
    } else {
        run_blocks(a, b, runs, k - 1) + run_block(a, b, k - 1, runs[k - 1])
    }
}

/// The report of a diff: the compared size, the number of runs and the
/// bytes they span, then each run with its context.
pub open spec fn spec_diff_report(a: Seq<u8>, b: Seq<u8>, runs: Seq<(usize, usize)>) -> Seq<
    Seq<char>,
> {
    seq![
        "file size: "@ + decimal(common_len(a, b) as nat) + " bytes"@,
        "differing runs: "@ + decimal(runs.len()) + "  (total "@ + decimal(run_total(runs) as nat)
            + " bytes differ)"@,
        Seq::<char>::empty(),
    ] + run_blocks(a, b, runs, runs.len() as int)
}

proof fn lemma_run_total_bound(a: Seq<u8>, b: Seq<u8>, runs: Seq<(usize, usize)>, k: int)
    requires
        is_diff_runs(a, b, runs),
        0 < k <= runs.len(),
    ensures
        0 <= run_total(runs.take(k)) <= runs[k - 1].1,
    decreases k,
{
    assert(runs.take(k).drop_last() =~= runs.take(k - 1));
    assert(runs.take(k).last() == runs[k - 1]);
    assert(run_ok(a, b, runs[k - 1]));
    assert(run_total(runs.take(k)) == run_total(runs.take(k - 1)) + runs[k - 1].1 - runs[k - 1].0);
    if k > 1 {
        lemma_run_total_bound(a, b, runs, k - 1);
        assert(runs[k - 2].1 + SPLIT <= runs[k - 1].0);
    } else {
        assert(runs.take(0) =~= Seq::<(usize, usize)>::empty());
        assert(run_total(runs.take(0)) == 0);
    }
}

/// Every run's context window can be computed and shown without
/// overflow: its end plus `CONTEXT` and its length plus 15 fit in a
/// `usize`.
pub open spec fn report_fits(a: Seq<u8>, b: Seq<u8>, runs: Seq<(usize, usize)>) -> bool {
    forall|k: int|
        0 <= k < runs.len() ==> {
            &&& #[trigger] runs[k].1 + CONTEXT <= usize::MAX
            &&& context_end(runs[k].1 as int, common_len(a, b)) - context_start(runs[k].0 as int)
                + 15 <= usize::MAX
        }
}

/// The number of bytes spanned by the runs of a diff; at most the compared
/// length.
pub fn total_diff(a: &[u8], b: &[u8], runs: &[(usize, usize)]) -> (t: usize)
    requires
        is_diff_runs(a@, b@, runs@),
    ensures
        t == run_total(runs@),
        t <= common_len(a@, b@),
{
    let mut t: usize = 0;
    let mut k: usize = 0;
    assert(runs@.take(0) =~= Seq::<(usize, usize)>::empty());
    while k < runs.len()
        invariant
            is_diff_runs(a@, b@, runs@),
            k <= runs@.len(),
            t == run_total(runs@.take(k as int)),
        decreases runs@.len() - k,
    {
        proof {
            lemma_run_total_bound(a@, b@, runs@, k + 1);
            assert(runs@.take(k + 1).drop_last() =~= runs@.take(k as int));
            assert(run_ok(a@, b@, runs@[k as int]));
        }
        let (s, e) = runs[k];
        t = t + (e - s);
        k = k + 1;
    }
    assert(runs@.take(runs@.len() as int) =~= runs@);
    if runs.len() > 0 {
        proof {
            lemma_run_total_bound(a@, b@, runs@, runs@.len() as int);
            assert(run_ok(a@, b@, runs@.last()));
        }
    }
    t
}

fn line_of(cs: &Vec<char>) -> (s: String)
    ensures
        s@ == cs@,
{
    string_from_chars(cs.as_slice())
}

fn header_line(k: usize, s: usize, e: usize) -> (line: String)
    requires
        s <= e,
        k < usize::MAX,
    ensures
        line@ == run_header(k as int, (s, e)),
{
    let mut out: Vec<char> = Vec::new();
    push_str(&mut out, "── run ");
    push_dec_right(&mut out, (k + 1) as u64, 2);
    push_str(&mut out, ": offset 0x");
    push_hex(&mut out, s as u64, 8);
    push_str(&mut out, " (");
    push_dec_right(&mut out, s as u64, 10);
    push_str(&mut out, ")  len ");
    push_dec_right(&mut out, (e - s) as u64, 5);
    push_str(&mut out, "  ────────────────");
    assert(out@ =~= run_header(k as int, (s, e)));
    line_of(&out)
}

/// The report lines of a diff of `a` and `b` with the given runs. The
/// runs must be those of the diff (see `diff_runs`).
pub fn diff_report(a: &[u8], b: &[u8], runs: &[(usize, usize)]) -> (lines: Vec<String>)
    requires
        is_diff_runs(a@, b@, runs@),
        report_fits(a@, b@, runs@),
    ensures
        texts(lines@) == spec_diff_report(a@, b@, runs@),
{
    let n = if a.len() <= b.len() {
        a.len()
    } else {
        b.len()
    };
    let total = total_diff(a, b, runs);
    let mut lines: Vec<String> = Vec::new();
    let mut l1: Vec<char> = Vec::new();
    push_str(&mut l1, "file size: ");
    push_dec_right(&mut l1, n as u64, 0);
    push_str(&mut l1, " bytes");
    lines.push(line_of(&l1));
    let mut l2: Vec<char> = Vec::new();
    push_str(&mut l2, "differing runs: ");
    push_dec_right(&mut l2, runs.len() as u64, 0);
    push_str(&mut l2, "  (total ");
    push_dec_right(&mut l2, total as u64, 0);
    push_str(&mut l2, " bytes differ)");
    lines.push(line_of(&l2));
    let empty: Vec<char> = Vec::new();
    lines.push(line_of(&empty));
    proof {
        assert(pad_left(decimal(n as nat), 0) =~= decimal(n as nat));
        assert(pad_left(decimal(runs@.len()), 0) =~= decimal(runs@.len()));
        assert(pad_left(decimal(total as nat), 0) =~= decimal(total as nat));
        assert(texts(lines@) =~= spec_diff_report(a@, b@, runs@).take(3));
    }
    let ghost head = texts(lines@);
    let mut k: usize = 0;
    while k < runs.len()
        invariant
            n == common_len(a@, b@),
            is_diff_runs(a@, b@, runs@),
            report_fits(a@, b@, runs@),
            k <= runs@.len(),
            head == spec_diff_report(a@, b@, runs@).take(3),
            texts(lines@) == head + run_blocks(a@, b@, runs@, k as int),
        decreases runs@.len() - k,
    {
        assert(run_ok(a@, b@, runs@[k as int]));
        let blk = run_lines(a, b, n, k, runs[k]);
        append_lines(&mut lines, &blk);
        assert(run_blocks(a@, b@, runs@, k + 1) == run_blocks(a@, b@, runs@, k as int) + texts(
            blk@,
        ));
        k = k + 1;
    }
    assert(spec_diff_report(a@, b@, runs@) =~= head + run_blocks(
        a@,
        b@,
        runs@,
        runs@.len() as int,
    ));
    lines
}

/// The lines of run number `k`.
fn run_lines(a: &[u8], b: &[u8], n: usize, k: usize, r: (usize, usize)) -> (lines: Vec<String>)
    requires
        n == common_len(a@, b@),
        run_ok(a@, b@, r),
        r.1 + CONTEXT <= usize::MAX,
        context_end(r.1 as int, n as int) - context_start(r.0 as int) + 15 <= usize::MAX,
        k < usize::MAX,
    ensures
        texts(lines@) == run_block(a@, b@, k as int, r),
{
    let (s, e) = r;
    let cs = if s >= CONTEXT {
        s - CONTEXT
    } else {
        0
    };
    let ce = if e + CONTEXT <= n {
        e + CONTEXT
    } else {
        n
    };
    assert(cs == context_start(s as int));
    assert(ce == context_end(e as int, n as int));
    let h = header_line(k, s, e);
    let sa = &a[cs..ce];
    let sb = &b[cs..ce];
    assert(sa@ == a@.subrange(cs as int, ce as int));
    assert(sb@ == b@.subrange(cs as int, ce as int));
    let pair = hex_pair_lines(sa, sb, cs, s, e);
    let mut lines: Vec<String> = Vec::new();
    lines.push(h);
    assert(texts(lines@) =~= seq![h@]);
    append_lines(&mut lines, &pair);
    let ghost mid = texts(lines@);
    let empty: Vec<char> = Vec::new();
    let el = line_of(&empty);
    lines.push(el);
    proof {
        assert(texts(lines@) =~= mid.push(el@));
        assert(el@ =~= Seq::<char>::empty());
        assert(texts(lines@) =~= run_block(a@, b@, k as int, r));
    }
    lines
}

} // verus!
