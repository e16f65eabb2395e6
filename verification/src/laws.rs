//! Properties of the library that relate several functions or several
//! calls.

use vstd::prelude::*;
use crate::bpb::Bpb;
use crate::carve::ascii_lower;
use crate::carve::has_match_before;
use crate::carve::is_first_match;
use crate::carve::names_match;
use crate::carve::spec_locate;
use crate::diff::SPLIT;
use crate::diff::common_len;
use crate::diff::covered;
use crate::diff::dense;
use crate::diff::differs;
use crate::diff::is_diff_runs;
use crate::diff::min_int;
use crate::diff::quiet;
use crate::diff::run_ok;
use crate::diff::run_block;
use crate::diff::run_blocks;
use crate::diff::spec_diff_report;
use crate::diff::context_start;
use crate::diff::context_end;
use crate::hexview::spec_pair_lines;
use crate::hexview::line_slice;
use crate::dir::DirEntryView;
use crate::dir::chunk;
use crate::dir::dir_end;
use crate::dir::entries_before;
use crate::dir::num_chunks;
use crate::dir::spec_dir_entries;
use crate::drive::spec_dump_target;
use crate::hexview::line_bytes;
use crate::hexview::line_count;
use crate::num::spec_parse_uint;
use crate::num::strip_hex_prefix;
use crate::num::scan_digits;
use crate::num::digit_value;
use crate::num::digits_of;
use crate::num::tokens;
use crate::num::word_tokens;
use crate::num::word_len;
use crate::dir::is_white;
use crate::dir::trim_end;
use crate::find::spec_hex_bytes;
use crate::find::spec_pattern;
use crate::hexview::hex_cells;
use crate::text::hex_byte;
use crate::text::hex_digit;
use crate::text::hex_upper;

verus! {

/// Cluster 2, the first cluster, starts where the data region starts.
pub proof fn law_first_cluster_starts_data_region(b: Bpb)
    requires
        b.wf(),
    ensures
        b.spec_cluster_offset(2) == b.spec_data_region_offset(),
{
}

/// Clusters follow each other without gaps: cluster `c + 1` starts one
/// cluster size after cluster `c`, so a file stored in consecutive clusters
/// is one contiguous byte range.
pub proof fn law_clusters_are_contiguous(b: Bpb, c: int)
    requires
        b.wf(),
        c >= 2,
    ensures
        b.spec_cluster_offset(c + 1) == b.spec_cluster_offset(c) + b.spec_cluster_size(),
{
    assert((c + 1 - 2) * b.spec_cluster_size() == (c - 2) * b.spec_cluster_size()
        + b.spec_cluster_size()) by (nonlinear_arith);
}

/// The data region starts right after the root directory, which starts
/// right after the reserved sectors and the copies of the FAT.
pub proof fn law_layout_order(b: Bpb)
    requires
        b.wf(),
    ensures
        b.spec_root_dir_offset() == (b.reserved_sectors + b.num_fats * b.sectors_per_fat)
            * b.bytes_per_sector,
        b.spec_data_region_offset() == b.spec_root_dir_offset() + 32 * b.root_entries,
{
}

proof fn lemma_entries_before_prefix(buf: Seq<u8>, extra: Seq<u8>, k: int)
    requires
        0 <= k <= num_chunks(buf),
    ensures
        entries_before(buf + extra, k) == entries_before(buf, k),
    decreases k,
{
    if k > 0 {
        lemma_entries_before_prefix(buf, extra, k - 1);
        assert(chunk(buf + extra, k - 1) =~= chunk(buf, k - 1));
    }
}

proof fn lemma_dir_end_prefix(buf: Seq<u8>, extra: Seq<u8>, k: int)
    requires
        0 <= k <= dir_end(buf, 0),
        dir_end(buf, 0) < num_chunks(buf),
        forall|j: int| 0 <= j < k ==> !crate::dir::is_end_marker(#[trigger] chunk(buf, j)),
    ensures
        dir_end(buf + extra, k) == dir_end(buf, k),
    decreases num_chunks(buf) - k,
{
    assert(num_chunks(buf + extra) >= num_chunks(buf)) by {
        assert((buf + extra).len() >= buf.len());
    }
    assert(chunk(buf + extra, k) =~= chunk(buf, k));
    lemma_dir_end_from(buf, 0, k);
    if !crate::dir::is_end_marker(chunk(buf, k)) {
        lemma_dir_end_bounds(buf, k + 1);
        lemma_dir_end_prefix(buf, extra, k + 1);
    }
}

proof fn lemma_dir_end_from(buf: Seq<u8>, j: int, k: int)
    requires
        0 <= j <= k,
        forall|i: int| j <= i < k ==> !crate::dir::is_end_marker(#[trigger] chunk(buf, i)),
        k <= num_chunks(buf),
    ensures
        dir_end(buf, j) == dir_end(buf, k),
    decreases k - j,
{
    if j < k {
        lemma_dir_end_from(buf, j + 1, k);
    }
}

/// Whatever follows the end-of-directory record is ignored: appending bytes
/// to a directory region that holds an end marker leaves its entries
/// unchanged.
pub proof fn law_entries_stop_at_end_marker(buf: Seq<u8>, extra: Seq<u8>)
    requires
        dir_end(buf, 0) < num_chunks(buf),
    ensures
        spec_dir_entries(buf + extra) == spec_dir_entries(buf),
{
    lemma_dir_end_bounds(buf, 0);
    lemma_dir_end_prefix(buf, extra, 0);
    lemma_entries_before_prefix(buf, extra, dir_end(buf, 0));
}

proof fn lemma_dir_end_bounds(buf: Seq<u8>, k: int)
    requires
        0 <= k <= num_chunks(buf),
    ensures
        k <= dir_end(buf, k) <= num_chunks(buf),
    decreases num_chunks(buf) - k,
{
    if k < num_chunks(buf) && !crate::dir::is_end_marker(chunk(buf, k)) {
        lemma_dir_end_bounds(buf, k + 1);
    }
}

/// Looking a file up ignores ASCII case: two requested names that differ
/// only in the case of ASCII letters find the same entry, or fail alike.
pub proof fn law_locate_ignores_case(entries: Seq<DirEntryView>, t1: Seq<char>, t2: Seq<char>)
    requires
        names_match(t1, t2),
    ensures
        spec_locate(entries, t1) == spec_locate(entries, t2),
{
    assert forall|name: Seq<char>| names_match(name, t1) <==> names_match(name, t2) by {
        if names_match(name, t1) {
            assert forall|i: int| 0 <= i < name.len() implies ascii_lower(#[trigger] name[i])
                == ascii_lower(t2[i]) by {
                assert(ascii_lower(name[i]) == ascii_lower(t1[i]));
                assert(ascii_lower(t1[i]) == ascii_lower(t2[i]));
            }
        }
        if names_match(name, t2) {
            assert forall|i: int| 0 <= i < name.len() implies ascii_lower(#[trigger] name[i])
                == ascii_lower(t1[i]) by {
                assert(ascii_lower(name[i]) == ascii_lower(t2[i]));
                assert(ascii_lower(t1[i]) == ascii_lower(t2[i]));
            }
        }
    }
    assert forall|k: int| #![trigger has_match_before(entries, t1, k)]
        has_match_before(entries, t1, k) == has_match_before(entries, t2, k) by {
        if has_match_before(entries, t1, k) {
            let i = choose|i: int| 0 <= i < k && names_match(#[trigger] entries[i].name, t1);
            assert(names_match(entries[i].name, t2));
        }
        if has_match_before(entries, t2, k) {
            let i = choose|i: int| 0 <= i < k && names_match(#[trigger] entries[i].name, t2);
            assert(names_match(entries[i].name, t1));
        }
    }
    assert forall|i: int| is_first_match(entries, t1, i) == is_first_match(entries, t2, i) by {
        assert(has_match_before(entries, t1, i) == has_match_before(entries, t2, i));
    }
    assert(has_match_before(entries, t1, entries.len() as int) == has_match_before(
        entries,
        t2,
        entries.len() as int,
    ));
    if has_match_before(entries, t1, entries.len() as int) {
        let j = choose|j: int| 0 <= j < entries.len() && names_match(#[trigger] entries[j].name, t1);
        crate::carve::lemma_first_match_exists(entries, t1, j);
        let i1 = choose|i: int| is_first_match(entries, t1, i);
        let i2 = choose|i: int| is_first_match(entries, t2, i);
        assert(is_first_match(entries, t2, i1));
        assert(is_first_match(entries, t2, i2)) by {
            crate::carve::lemma_first_match_exists(entries, t2, i1);
        }
        crate::carve::lemma_first_match_unique(entries, t2, i1, i2);
    }
}

/// The drive-letter check never lets drive C through, in either case, and
/// always gives an upper-case letter.
pub proof fn law_dump_target_never_c(s: Seq<char>)
    ensures
        spec_dump_target(s) matches Ok(c) ==> c != 'C' && 'A' <= c <= 'Z',
{
}

/// The bytes of the first `k` rows of a 16-byte-wide dump, in order.
pub open spec fn rows_concat(buf: Seq<u8>, k: int) -> Seq<u8>
    decreases k,
{
    if k <= 0 {
        seq![]
    } else {
        rows_concat(buf, k - 1) + line_bytes(buf, k - 1)
    }
}

proof fn lemma_rows_prefix(buf: Seq<u8>, k: int)
    requires
        0 <= k <= line_count(buf.len() as int),
    ensures
        rows_concat(buf, k) == buf.take(if 16 * k <= buf.len() { 16 * k } else { buf.len() as int }),
    decreases k,
{
    if k > 0 {
        lemma_rows_prefix(buf, k - 1);
        let lo = 16 * (k - 1);
        assert(lo < buf.len());
        let hi = if lo + 16 <= buf.len() {
            lo + 16
        } else {
            buf.len() as int
        };
        assert(buf.take(lo) + buf.subrange(lo, hi) =~= buf.take(hi));
    } else {
        assert(buf.take(0) =~= Seq::<u8>::empty());
    }
}

/// A hex dump shows every byte once, in order: the rows of `hex_rows`,
/// taken together, hold exactly the dumped bytes.
pub proof fn law_rows_cover_the_bytes(buf: Seq<u8>)
    ensures
        rows_concat(buf, line_count(buf.len() as int)) == buf,
{
    lemma_rows_prefix(buf, line_count(buf.len() as int));
    assert(buf.take(buf.len() as int) =~= buf);
}

/// A hex offset reads the same with or without a leading `0x`.
pub proof fn law_hex_offset_prefix_is_optional(s: Seq<char>)
    ensures
        spec_parse_uint(strip_hex_prefix(seq!['0', 'x'] + s), 16, u64::MAX as int) == spec_parse_uint(
            strip_hex_prefix(s),
            16,
            u64::MAX as int,
        ),
{
    let t = seq!['0', 'x'] + s;
    assert(t.subrange(2, t.len() as int) =~= s);
}

// ---- hex text read back as a search pattern ----

/// No character of `w` is whitespace.
pub open spec fn no_white(w: Seq<char>) -> bool {
    forall|i: int| 0 <= i < w.len() ==> !is_white(#[trigger] w[i])
}

proof fn lemma_hex_digit_value(d: int)
    requires
        0 <= d < 16,
    ensures
        digit_value(hex_digit(d), 16) == Some(d),
        !is_white(hex_digit(d)),
{
}

proof fn lemma_hex_byte(b: u8)
    ensures
        hex_byte(b).len() == 2,
        no_white(hex_byte(b)),
        spec_parse_uint(hex_byte(b), 16, 255) == Ok::<int, crate::num::IntError>(b as int),
{
    let v = b as nat;
    let hb = hex_byte(b);
    if v < 16 {
        assert(hex_upper(v) == seq![hex_digit(v as int)]);
        assert(hb =~= seq!['0', hex_digit(v as int)]);
        lemma_hex_digit_value(v as int);
        assert(hb.drop_first() =~= seq![hex_digit(v as int)]);
        assert(hb.drop_first().drop_first() =~= Seq::<char>::empty());
        assert(digits_of(hb) == hb);
        assert(digit_value(hb[0], 16) == Some(0int));
        assert(scan_digits(Seq::<char>::empty(), v as int, 16, 255) == Ok::<int, crate::num::IntError>(v as int));
        assert(scan_digits(hb.drop_first(), 0, 16, 255) == Ok::<int, crate::num::IntError>(v as int));
        assert(scan_digits(hb, 0, 16, 255) == Ok::<int, crate::num::IntError>(v as int));
    } else {
        let hi = (v / 16) as int;
        let lo = (v % 16) as int;
        assert(hex_upper(v / 16) == seq![hex_digit(hi)]);
        assert(hex_upper(v) =~= seq![hex_digit(hi), hex_digit(lo)]);
        assert(hb =~= seq![hex_digit(hi), hex_digit(lo)]);
        lemma_hex_digit_value(hi);
        lemma_hex_digit_value(lo);
        assert(hb.drop_first() =~= seq![hex_digit(lo)]);
        assert(hb.drop_first().drop_first() =~= Seq::<char>::empty());
        assert(digits_of(hb) == hb);
        assert(hi * 16 + lo == v);
        assert(scan_digits(Seq::<char>::empty(), v as int, 16, 255) == Ok::<int, crate::num::IntError>(v as int));
        assert(scan_digits(hb.drop_first(), hi, 16, 255) == Ok::<int, crate::num::IntError>(v as int));
        assert(scan_digits(hb, 0, 16, 255) == Ok::<int, crate::num::IntError>(v as int));
    }
}

proof fn lemma_word_len_inside(x: Seq<char>, y: Seq<char>)
    requires
        word_len(x) < x.len(),
    ensures
        word_len(x + y) == word_len(x),
    decreases x.len(),
{
    if !is_white(x[0]) {
        assert((x + y).drop_first() =~= x.drop_first() + y);
        lemma_word_len_inside(x.drop_first(), y);
    }
}

proof fn lemma_word_len_whole(x: Seq<char>, y: Seq<char>)
    requires
        no_white(x),
    ensures
        word_len(x + y) == x.len() + word_len(y),
        word_len(x) == x.len(),
    decreases x.len(),
{
    if x.len() == 0 {
        assert(x + y =~= y);
    } else {
        assert((x + y).drop_first() =~= x.drop_first() + y);
        assert((x + y)[0] == x[0]);
        lemma_word_len_whole(x.drop_first(), y);
    }
}

proof fn lemma_single_word(w: Seq<char>)
    requires
        w.len() > 0,
        no_white(w),
    ensures
        tokens(w) == seq![w],
{
    lemma_word_len_whole(w, Seq::<char>::empty());
    assert(w + Seq::<char>::empty() =~= w);
    assert(w.subrange(0, w.len() as int) =~= w);
    assert(w.subrange(w.len() as int, w.len() as int) =~= Seq::<char>::empty());
    assert(tokens(w) == word_tokens(w));
}

/// A space and a word appended to `x` add that word as the last token.
proof fn lemma_tokens_space_word(x: Seq<char>, w: Seq<char>)
    requires
        w.len() > 0,
        no_white(w),
    ensures
        tokens(x + seq![' '] + w) == tokens(x).push(w),
    decreases x.len(),
{
    let z = x + seq![' '] + w;
    if x.len() == 0 {
        assert(z.drop_first() =~= w);
        assert(is_white(z[0]));
        lemma_single_word(w);
    } else if is_white(x[0]) {
        assert(z.drop_first() =~= x.drop_first() + seq![' '] + w);
        lemma_tokens_space_word(x.drop_first(), w);
    } else {
        crate::num::lemma_word_len(x);
        let k = word_len(x);
        assert(z =~= x + (seq![' '] + w));
        if k < x.len() {
            lemma_word_len_inside(x, seq![' '] + w);
            assert(z.subrange(0, k) =~= x.subrange(0, k));
            let rest = x.subrange(k, x.len() as int);
            assert(z.subrange(k, z.len() as int) =~= rest + seq![' '] + w);
            lemma_tokens_space_word(rest, w);
            assert(tokens(z) == word_tokens(z));
            assert(tokens(x) == word_tokens(x));
            assert(tokens(x).push(w) =~= seq![x.subrange(0, k)] + tokens(rest).push(w));
        } else {
            assert forall|i: int| 0 <= i < x.len() implies !is_white(#[trigger] x[i]) by {
                lemma_word_len_prefix_nonwhite(x, i);
            }
            lemma_word_len_whole(x, seq![' '] + w);
            assert(word_len(seq![' '] + w) == 0);
            assert(z.subrange(0, k) =~= x);
            assert(z.subrange(k, z.len() as int) =~= seq![' '] + w);
            assert((seq![' '] + w).drop_first() =~= w);
            lemma_single_word(w);
            assert(tokens(seq![' '] + w) == tokens(w));
            assert(x.subrange(0, k) =~= x);
            assert(x.subrange(k, x.len() as int) =~= Seq::<char>::empty());
            assert(tokens(z) == word_tokens(z));
            assert(tokens(x) == word_tokens(x));
            assert(tokens(x) =~= seq![x]);
        }
    }
}

proof fn lemma_word_len_prefix_nonwhite(x: Seq<char>, i: int)
    requires
        0 <= i < word_len(x),
    ensures
        !is_white(x[i]),
    decreases i,
{
    crate::num::lemma_word_len(x);
    if i > 0 {
        lemma_word_len_prefix_nonwhite(x.drop_first(), i - 1);
    }
}

/// The hex bytes of `s`, one token each.
pub open spec fn hex_tokens(s: Seq<u8>) -> Seq<Seq<char>> {
    Seq::new(s.len(), |i: int| hex_byte(s[i]))
}

proof fn lemma_tokens_of_cells(s: Seq<u8>, w: Seq<char>)
    requires
        w.len() > 0,
        no_white(w),
    ensures
        tokens(hex_cells(s) + w) == hex_tokens(s).push(w),
    decreases s.len(),
{
    if s.len() == 0 {
        assert(hex_cells(s) + w =~= w);
        lemma_single_word(w);
        assert(hex_tokens(s).push(w) =~= seq![w]);
    } else {
        let p = s.drop_last();
        let hb = hex_byte(s.last());
        lemma_hex_byte(s.last());
        lemma_tokens_of_cells(p, hb);
        assert(hex_cells(s) + w =~= (hex_cells(p) + hb) + seq![' '] + w);
        lemma_tokens_space_word(hex_cells(p) + hb, w);
        assert(hex_tokens(p).push(hb) =~= hex_tokens(s));
    }
}

proof fn lemma_hex_bytes_of_tokens(s: Seq<u8>)
    ensures
        spec_hex_bytes(hex_tokens(s)) == Ok::<Seq<u8>, crate::num::IntError>(s),
    decreases s.len(),
{
    if s.len() > 0 {
        let t = hex_tokens(s);
        assert(t.drop_last() =~= hex_tokens(s.drop_last()));
        lemma_hex_bytes_of_tokens(s.drop_last());
        lemma_hex_byte(s.last());
        assert(s.drop_last().push(s.last() as int as u8) =~= s);
    } else {
        assert(s =~= Seq::<u8>::empty());
    }
}

/// The hex column of a dump, read back as a search pattern, gives the
/// dumped bytes: what `hex_ascii` or a hex row shows can be given to
/// `parse_pattern` to search for those bytes.
pub proof fn law_hex_text_reads_back_as_pattern(s: Seq<u8>)
    requires
        s.len() > 0,
    ensures
        spec_pattern(trim_end(hex_cells(s))) == Ok::<Seq<u8>, crate::find::PatternError>(s),
{
    let p = s.drop_last();
    let hb = hex_byte(s.last());
    lemma_hex_byte(s.last());
    let body = hex_cells(p) + hb;
    assert(hex_cells(s) =~= body + seq![' ']);
    assert(hex_cells(s).drop_last() =~= body);
    assert(body.last() == hb.last());
    assert(!is_white(hb[1]));
    assert(trim_end(body) == body);
    assert(trim_end(hex_cells(s)) == body);
    lemma_tokens_of_cells(p, hb);
    assert(body =~= hex_cells(p) + hb);
    assert(hex_tokens(p).push(hb) =~= hex_tokens(s));
    lemma_hex_bytes_of_tokens(s);
}

// ---- diff runs ----

proof fn lemma_runs_ordered(a: Seq<u8>, b: Seq<u8>, runs: Seq<(usize, usize)>, i: int, j: int)
    requires
        is_diff_runs(a, b, runs),
        0 <= i < j < runs.len(),
    ensures
        runs[i].1 + SPLIT <= runs[j].0,
    decreases j - i,
{
    if i + 1 < j {
        lemma_runs_ordered(a, b, runs, i, j - 1);
        assert(run_ok(a, b, runs[j - 1]));
        assert(runs[j - 1].1 + SPLIT <= runs[j].0);
    } else {
        assert(runs[i].1 + SPLIT <= runs[i + 1].0);
    }
}

/// After a run come more than `GAP` equal bytes (or the end of the
/// compared range).
proof fn lemma_quiet_after_run(a: Seq<u8>, b: Seq<u8>, runs: Seq<(usize, usize)>, k: int)
    requires
        is_diff_runs(a, b, runs),
        0 <= k < runs.len(),
    ensures
        quiet(a, b, runs[k].1 as int, min_int(runs[k].1 + SPLIT, common_len(a, b))),
{
    let e = runs[k].1 as int;
    assert forall|j: int| e <= j < min_int(e + SPLIT, common_len(a, b)) implies !#[trigger] differs(
        a,
        b,
        j,
    ) by {
        if differs(a, b, j) {
            assert(covered(runs, j));
            let m = choose|m: int| 0 <= m < runs.len() && #[trigger] runs[m].0 <= j < runs[m].1;
            if m < k {
                lemma_runs_ordered(a, b, runs, m, k);
                assert(run_ok(a, b, runs[k]));
            } else if m > k {
                lemma_runs_ordered(a, b, runs, k, m);
            }
        }
    }
}

/// Before a run, back to the end of the previous run (or the start), all
/// bytes are equal.
proof fn lemma_quiet_before_run(a: Seq<u8>, b: Seq<u8>, runs: Seq<(usize, usize)>, k: int)
    requires
        is_diff_runs(a, b, runs),
        0 <= k < runs.len(),
    ensures
        quiet(a, b, if k == 0 { 0 } else { runs[k - 1].1 as int }, runs[k].0 as int),
{
    let p = if k == 0 {
        0
    } else {
        runs[k - 1].1 as int
    };
    assert(run_ok(a, b, runs[k]));
    assert forall|j: int| p <= j < runs[k].0 implies !#[trigger] differs(a, b, j) by {
        if differs(a, b, j) {
            assert(covered(runs, j));
            let m = choose|m: int| 0 <= m < runs.len() && #[trigger] runs[m].0 <= j < runs[m].1;
            if m < k - 1 {
                lemma_runs_ordered(a, b, runs, m, k - 1);
                assert(run_ok(a, b, runs[k - 1]));
            } else if m > k {
                lemma_runs_ordered(a, b, runs, k, m);
                assert(run_ok(a, b, runs[k]));
            }
        }
    }
}

/// After the last run (or from the start, when there is none) all bytes
/// are equal.
proof fn lemma_quiet_after_all(a: Seq<u8>, b: Seq<u8>, runs: Seq<(usize, usize)>)
    requires
        is_diff_runs(a, b, runs),
    ensures
        quiet(
            a,
            b,
            if runs.len() == 0 { 0 } else { runs.last().1 as int },
            common_len(a, b),
        ),
{
    let p = if runs.len() == 0 {
        0
    } else {
        runs.last().1 as int
    };
    assert forall|j: int| p <= j < common_len(a, b) implies !#[trigger] differs(a, b, j) by {
        if differs(a, b, j) && j >= 0 {
            assert(covered(runs, j));
            let m = choose|m: int| 0 <= m < runs.len() && #[trigger] runs[m].0 <= j < runs[m].1;
            if m < runs.len() - 1 {
                lemma_runs_ordered(a, b, runs, m, runs.len() - 1);
                assert(run_ok(a, b, runs.last()));
            }
        }
    }
}

/// A run's end is fixed by its start.
proof fn lemma_end_unique(a: Seq<u8>, b: Seq<u8>, s: int, e1: int, e2: int)
    requires
        s < e1 <= common_len(a, b),
        s < e2 <= common_len(a, b),
        differs(a, b, e1 - 1),
        differs(a, b, e2 - 1),
        dense(a, b, s, e1),
        dense(a, b, s, e2),
        quiet(a, b, e1, min_int(e1 + SPLIT, common_len(a, b))),
        quiet(a, b, e2, min_int(e2 + SPLIT, common_len(a, b))),
    ensures
        e1 == e2,
{
    if e1 < e2 {
        lemma_end_order(a, b, s, e1, e2);
    } else if e2 < e1 {
        lemma_end_order(a, b, s, e2, e1);
    }
}

proof fn lemma_end_order(a: Seq<u8>, b: Seq<u8>, s: int, e1: int, e2: int)
    requires
        s < e1,
        s < e2 <= common_len(a, b),
        differs(a, b, e2 - 1),
        dense(a, b, s, e2),
        quiet(a, b, e1, min_int(e1 + SPLIT, common_len(a, b))),
    ensures
        e2 <= e1,
{
    if e1 < e2 {
        assert(!differs(a, b, e2 - 1) || e2 - 1 >= e1 + SPLIT);
        assert(s <= e1 && e1 + SPLIT <= e2);
        assert(!quiet(a, b, e1, e1 + SPLIT));
        assert(quiet(a, b, e1, e1 + SPLIT));
    }
}

/// Both lists agree on their first `k` runs.
proof fn lemma_runs_prefix_equal(
    a: Seq<u8>,
    b: Seq<u8>,
    r1: Seq<(usize, usize)>,
    r2: Seq<(usize, usize)>,
    k: int,
)
    requires
        is_diff_runs(a, b, r1),
        is_diff_runs(a, b, r2),
        0 <= k <= r1.len(),
        k <= r2.len(),
    ensures
        forall|i: int| 0 <= i < k ==> r1[i] == r2[i],
    decreases k,
{
    if k > 0 {
        lemma_runs_prefix_equal(a, b, r1, r2, k - 1);
        let i = k - 1;
        lemma_quiet_before_run(a, b, r1, i);
        lemma_quiet_before_run(a, b, r2, i);
        assert(run_ok(a, b, r1[i]));
        assert(run_ok(a, b, r2[i]));
        let s1 = r1[i].0 as int;
        let s2 = r2[i].0 as int;
        if i > 0 {
            assert(r1[i - 1] == r2[i - 1]);
            assert(run_ok(a, b, r1[i - 1]));
            assert(r1[i - 1].1 + SPLIT <= r1[i].0);
            assert(r2[i - 1].1 + SPLIT <= r2[i].0);
        }
        if s1 < s2 {
            assert(differs(a, b, s1));
        } else if s2 < s1 {
            assert(differs(a, b, s2));
        }
        assert(s1 == s2);
        lemma_quiet_after_run(a, b, r1, i);
        lemma_quiet_after_run(a, b, r2, i);
        lemma_end_unique(a, b, s1, r1[i].1 as int, r2[i].1 as int);
        assert(r1[i] == r2[i]);
    }
}

proof fn lemma_runs_len_le(a: Seq<u8>, b: Seq<u8>, r1: Seq<(usize, usize)>, r2: Seq<(usize, usize)>)
    requires
        is_diff_runs(a, b, r1),
        is_diff_runs(a, b, r2),
        r2.len() <= r1.len(),
    ensures
        r1.len() == r2.len(),
{
    if r2.len() < r1.len() {
        let k = r2.len() as int;
        lemma_runs_prefix_equal(a, b, r1, r2, k);
        lemma_quiet_after_all(a, b, r2);
        assert(run_ok(a, b, r1[k]));
        if k > 0 {
            assert(r1[k - 1] == r2[k - 1]);
            assert(r1[k - 1].1 + SPLIT <= r1[k].0);
        }
        assert(differs(a, b, r1[k].0 as int));
    }
}

/// The runs of a diff are determined by the two files: two lists that both
/// meet the description of `is_diff_runs` are equal, so the contract of
/// `diff_runs` fixes its result.
pub proof fn law_diff_runs_unique(
    a: Seq<u8>,
    b: Seq<u8>,
    r1: Seq<(usize, usize)>,
    r2: Seq<(usize, usize)>,
)
    requires
        is_diff_runs(a, b, r1),
        is_diff_runs(a, b, r2),
    ensures
        r1 == r2,
{
    if r1.len() <= r2.len() {
        lemma_runs_len_le(a, b, r2, r1);
    } else {
        lemma_runs_len_le(a, b, r1, r2);
    }
    lemma_runs_prefix_equal(a, b, r1, r2, r1.len() as int);
    assert(r1 =~= r2);
}

/// Comparing `b` with `a` gives the same runs as comparing `a` with `b`.
pub proof fn law_diff_runs_symmetric(a: Seq<u8>, b: Seq<u8>, r1: Seq<(usize, usize)>, r2: Seq<(usize, usize)>)
    requires
        is_diff_runs(a, b, r1),
        is_diff_runs(b, a, r2),
    ensures
        r1 == r2,
{
    assert(is_diff_runs(a, b, r2)) by {
        assert forall|k: int| 0 <= k < r2.len() implies run_ok(a, b, #[trigger] r2[k]) by {
            assert(run_ok(b, a, r2[k]));
            let (s, e) = r2[k];
            assert forall|p: int| s <= p && p + SPLIT <= e implies !quiet(
                a,
                b,
                p,
                #[trigger] (p + SPLIT),
            ) by {
                assert(!quiet(b, a, p, p + SPLIT));
                let j = choose|j: int| p <= j < p + SPLIT && #[trigger] differs(b, a, j);
                assert(differs(a, b, j));
            }
        }
        assert forall|j: int| 0 <= j < common_len(a, b) && differs(a, b, j) implies covered(
            r2,
            j,
        ) by {
            assert(differs(b, a, j));
        }
    }
    law_diff_runs_unique(a, b, r1, r2);
}

/// `line` with its four-character side tag replaced by `tag`.
pub open spec fn retag(tag: Seq<char>, line: Seq<char>) -> Seq<char> {
    tag + line.subrange(4, line.len() as int)
}

/// A run block with the bodies of each A/B row pair exchanged; the header,
/// the tags and the closing empty line stay in place.
pub open spec fn swap_rows(block: Seq<Seq<char>>) -> Seq<Seq<char>> {
    Seq::new(
        block.len(),
        |j: int|
            if 1 <= j && j + 1 < block.len() {
                if j % 2 == 1 {
                    retag("  A "@, block[j + 1])
                } else {
                    retag("  B "@, block[j - 1])
                }
            } else {
                block[j]
            },
    )
}

/// The first `k` run blocks of the report of `a` and `b`, each with its
/// rows swapped.
pub open spec fn swapped_blocks(a: Seq<u8>, b: Seq<u8>, runs: Seq<(usize, usize)>, k: int) -> Seq<
    Seq<char>,
>
    decreases k,
{
    if k <= 0 {
        seq![]
    } else {
        swapped_blocks(a, b, runs, k - 1) + swap_rows(run_block(a, b, k - 1, runs[k - 1]))
    }
}

proof fn lemma_block_swap(a: Seq<u8>, b: Seq<u8>, k: int, r: (usize, usize))
    requires
        run_ok(a, b, r),
    ensures
        run_block(b, a, k, r) == swap_rows(run_block(a, b, k, r)),
{
    reveal_strlit("  A ");
    reveal_strlit("  B ");
    let n = common_len(a, b);
    assert(common_len(b, a) == n);
    let cs = context_start(r.0 as int);
    let ce = context_end(r.1 as int, n);
    let a2 = a.subrange(cs, ce);
    let b2 = b.subrange(cs, ce);
    assert(a2.len() == b2.len());
    let pab = spec_pair_lines(a2, b2, cs, r.0 as int, r.1 as int);
    let pba = spec_pair_lines(b2, a2, cs, r.0 as int, r.1 as int);
    let blk = run_block(a, b, k, r);
    let blk2 = run_block(b, a, k, r);
    assert(pab.len() == pba.len());
    assert(blk.len() == pab.len() + 2);
    assert forall|j: int| 0 <= j < blk.len() implies #[trigger] blk2[j] == swap_rows(blk)[j] by {
        if 1 <= j && j + 1 < blk.len() {
            let i = j - 1;
            let l = i / 2;
            if j % 2 == 1 {
                assert(i % 2 == 0 && (i + 1) / 2 == l && (i + 1) % 2 == 1);
                assert(blk[j + 1] == pab[i + 1]);
                assert(blk2[j] == pba[i]);
                let body = pba[i].subrange(4, pba[i].len() as int);
                assert(line_slice(b2, a2.len() as int, l) == line_slice(b2, b2.len() as int, l));
                assert(pab[i + 1] =~= "  B "@ + body);
                assert(retag("  A "@, pab[i + 1]) =~= pba[i]);
            } else {
                assert(i % 2 == 1 && (i - 1) / 2 == l && (i - 1) % 2 == 0);
                assert(blk[j - 1] == pab[i - 1]);
                assert(blk2[j] == pba[i]);
                let body = pab[i - 1].subrange(4, pab[i - 1].len() as int);
                assert(line_slice(a2, b2.len() as int, l) == line_slice(a2, a2.len() as int, l));
                assert(pba[i] =~= "  B "@ + body);
                assert(retag("  B "@, pab[i - 1]) =~= pba[i]);
            }
        }
    }
    assert(blk2 =~= swap_rows(blk));
}

/// Comparing the files the other way round gives the same report except
/// that in every row pair the bytes shown on the `A` row and on the `B` row
/// trade places: size, run count, total, run headers and offsets are
/// unchanged.
pub proof fn law_diff_report_swaps_rows(a: Seq<u8>, b: Seq<u8>, runs: Seq<(usize, usize)>)
    requires
        is_diff_runs(a, b, runs),
    ensures
        spec_diff_report(b, a, runs) == spec_diff_report(a, b, runs).take(3) + swapped_blocks(
            a,
            b,
            runs,
            runs.len() as int,
        ),
{
    lemma_blocks_swap(a, b, runs, runs.len() as int);
    assert(common_len(b, a) == common_len(a, b));
    assert(spec_diff_report(b, a, runs).take(3) =~= spec_diff_report(a, b, runs).take(3));
    assert(spec_diff_report(b, a, runs) =~= spec_diff_report(b, a, runs).take(3) + run_blocks(
        b,
        a,
        runs,
        runs.len() as int,
    ));
}

proof fn lemma_blocks_swap(a: Seq<u8>, b: Seq<u8>, runs: Seq<(usize, usize)>, k: int)
    requires
        is_diff_runs(a, b, runs),
        0 <= k <= runs.len(),
    ensures
        run_blocks(b, a, runs, k) == swapped_blocks(a, b, runs, k),
    decreases k,
{
    if k > 0 {
        lemma_blocks_swap(a, b, runs, k - 1);
        assert(run_ok(a, b, runs[k - 1]));
        lemma_block_swap(a, b, k - 1, runs[k - 1]);
    }
}

/// A file compared with itself has no differing runs.
pub proof fn law_diff_identical_is_empty(a: Seq<u8>, runs: Seq<(usize, usize)>)
    requires
        is_diff_runs(a, a, runs),
    ensures
        runs.len() == 0,
{
    if runs.len() > 0 {
        assert(run_ok(a, a, runs[0]));
    }
}

} // verus!
