//! Side-by-side inspection of known `.KKD` fields across several files.

use vstd::prelude::*;
use vstd::utf8::encode_utf8;
use crate::diff::sat_sub;
use crate::hexview::hex_ascii;
use crate::hexview::spec_hex_ascii;
use crate::hexview::texts;
use crate::hexview::append_lines;
use crate::text::decimal;
use crate::text::hex_upper;
use crate::text::pad_left;
use crate::text::pad_right;
use crate::text::push_chars;
use crate::text::push_dec_right;
use crate::text::push_hex;
use crate::text::push_padded_right;
use crate::text::push_str;
use crate::text::string_from_chars;

verus! {

/// A file read for inspection, with the label it is shown under.
pub struct Loaded {
    pub label: String,
    pub bytes: Vec<u8>,
}

/// Offset from the end of a file of its trailer block.
pub const TRAILER_FROM_END: usize = 0x800;

/// Bytes of the trailer shown in the size table.
pub const TRAILER_HEAD_LEN: usize = 24;

/// `s` occurs in `t` as a contiguous part.
pub open spec fn is_infix(s: Seq<char>, t: Seq<char>) -> bool {
    exists|i: int| 0 <= i && i + s.len() <= t.len() && #[trigger] t.subrange(i, i + s.len()) == s
}

/// Index just past the last `/` of `p`, or 0 when there is none.
pub open spec fn after_last_slash(p: Seq<char>) -> int
    decreases p.len(),
{
    if p.len() == 0 {
        0
    } else if p.last() == '/' {
        p.len() as int
    } else {
        after_last_slash(p.drop_last())
    }
}

/// The part of `p` after its last `/`.
pub open spec fn last_segment(p: Seq<char>) -> Seq<char> {
    p.subrange(after_last_slash(p), p.len() as int)
}

/// A path that every platform splits at `/` alone and that has no prefix:
/// it holds no `\` and no `:`, and does not begin with `//`.
pub open spec fn is_plain_path(p: Seq<char>) -> bool {
    &&& !p.contains('\\')
    &&& !p.contains(':')
    &&& !(p.len() >= 2 && p[0] == '/' && p[1] == '/')
}

/// A path component that names a file: not empty, not `.` or `..`.
pub open spec fn is_file_name(n: Seq<char>) -> bool {
    n.len() > 0 && n != seq!['.'] && n != seq!['.', '.']
}

/// Index of the last `.` in `n`, or -1 when there is none.
pub open spec fn last_dot(n: Seq<char>) -> int
    decreases n.len(),
{
    if n.len() == 0 {
        -1
    } else if n.last() == '.' {
        n.len() - 1
    } else {
        last_dot(n.drop_last())
    }
}

/// The stem of a file name: the whole name when it has no `.` or when its
/// only `.` is its first character, otherwise the part before the last `.`.
pub open spec fn spec_file_stem(n: Seq<char>) -> Seq<char> {
    if last_dot(n) <= 0 {
        n
    } else {
        n.subrange(0, last_dot(n))
    }
}

/// The stem of the last component of a path, if it has one.
///
/// Trusted: `std::path::Path::file_stem`, converted to a `String`. Where
/// the path contains `\` or `:`, or begins with `//`, the component chosen
/// depends on the platform's separators and prefixes, so for such paths the
/// contract claims only what holds on every platform: a stem is not empty
/// and is a contiguous part of the path. For a plain path (`is_plain_path`)
/// it states the stem of the last `/`-separated component as the
/// documentation of `Path::file_name` and `Path::file_stem` gives it; a path
/// that is empty, is `/`, or ends in `..` has none. It leaves unsaid what a
/// plain path that ends in `/` or `/.` gives.
#[verifier::external_body]
fn path_file_stem(path: &str) -> (r: Option<String>)
    ensures
        r matches Some(s) ==> s@.len() > 0 && is_infix(s@, path@),
        path@.len() == 0 ==> r is None,
        path@ == seq!['/'] ==> r is None,
        is_plain_path(path@) && last_segment(path@) == seq!['.', '.'] ==> r is None,
        is_plain_path(path@) && is_file_name(last_segment(path@)) ==> r is Some,
        r matches Some(s) ==> (is_plain_path(path@) && is_file_name(last_segment(path@)) ==> s@
            == spec_file_stem(last_segment(path@))),
{
    std::path::Path::new(path).file_stem().and_then(|s| s.to_str()).map(|s| s.to_string())
}

/// The label shown for a file, given its stem: the stem, or `?` when there
/// is none.
pub fn label_from_stem(stem: Option<String>) -> (label: String)
    ensures
        stem matches Some(s) ==> label@ == s@,
        stem is None ==> label@ == "?"@,
{
    match stem {
        Some(s) => s,
        None => {
            let mut out: Vec<char> = Vec::new();
            push_str(&mut out, "?");
            string_from_chars(out.as_slice())
        },
    }
}

/// The label shown for a file: the stem of its name, or `?`.
pub fn label_for(path: &str) -> (label: String)
    ensures
        label@ == "?"@ || (label@.len() > 0 && is_infix(label@, path@)),
        path@.len() == 0 ==> label@ == "?"@,
        path@ == seq!['/'] ==> label@ == "?"@,
        is_plain_path(path@) && last_segment(path@) == seq!['.', '.'] ==> label@ == "?"@,
        is_plain_path(path@) && is_file_name(last_segment(path@)) ==> label@ == spec_file_stem(
            last_segment(path@),
        ),
{
    label_from_stem(path_file_stem(path))
}

/// The length in bytes of a label (as `String::len` counts it).
pub open spec fn label_bytes(l: Loaded) -> int {
    (encode_utf8(l.label@).len() as usize) as int
}

/// The longest label among `ls`, in bytes.
pub open spec fn max_label_bytes(ls: Seq<Loaded>) -> int
    decreases ls.len(),
{
    if ls.len() == 0 {
        0
    } else {
        let m = max_label_bytes(ls.drop_last());
        let x = label_bytes(ls.last());
        if ls.len() == 1 || x > m {
            x
        } else {
            m
        }
    }
}

/// The column width of labels: the longest label, or 3 when there are no
/// files.
pub open spec fn label_width(ls: Seq<Loaded>) -> int {
    if ls.len() == 0 {
        3
    } else {
        max_label_bytes(ls)
    }
}

/// The column width of labels.
pub fn label_column(loaded: &[Loaded]) -> (w: usize)
    ensures
        w == label_width(loaded@),
{
    if loaded.len() == 0 {
        return 3;
    }
    let mut w: usize = 0;
    let mut i: usize = 0;
    while i < loaded.len()
        invariant
            i <= loaded@.len(),
            w == max_label_bytes(loaded@.take(i as int)),
        decreases loaded@.len() - i,
    {
        let x = loaded[i].label.as_str().len();
        let ghost pre = loaded@.take(i + 1);
        assert(pre.drop_last() =~= loaded@.take(i as int));
        assert(pre.last() == loaded@[i as int]);
        if i == 0 || x > w {
            w = x;
        }
        i = i + 1;
    }
    assert(loaded@.take(loaded@.len() as int) =~= loaded@);
    w
}

/// The title line of a field probe.
pub open spec fn field_title(title: Seq<char>, off: int, len: int) -> Seq<char> {
    "── "@ + title + "  @ 0x"@ + hex_upper(off as nat) + "  ("@ + decimal(len as nat) + " B) ──"@
}

/// The line of one file in a field probe: the field in hex and ASCII, or a
/// note that the file is too short.
pub open spec fn field_line(l: Loaded, w: int, off: int, len: int) -> Seq<char> {
    if off + len <= l.bytes@.len() {
        "  "@ + pad_right(l.label@, w) + "  "@ + spec_hex_ascii(l.bytes@.subrange(off, off + len))
    } else {
        "  "@ + pad_right(l.label@, w) + "  (out of range — file size 0x"@ + hex_upper(
            l.bytes@.len(),
        ) + ")"@
    }
}

/// The lines of a field probe: the title, one line per file, an empty line.
pub open spec fn spec_field_block(ls: Seq<Loaded>, title: Seq<char>, off: int, len: int) -> Seq<
    Seq<char>,
> {
    seq![field_title(title, off, len)] + Seq::new(
        ls.len(),
        |i: int| field_line(ls[i], label_width(ls), off, len),
    ) + seq![Seq::<char>::empty()]
}

fn file_field_line(l: &Loaded, w: usize, off: usize, len: usize) -> (s: String)
    requires
        off + len <= usize::MAX,
    ensures
        s@ == field_line(*l, w as int, off as int, len as int),
{
    let mut out: Vec<char> = Vec::new();
    push_str(&mut out, "  ");
    let mut lab: Vec<char> = Vec::new();
    push_str(&mut lab, l.label.as_str());
    push_padded_right(&mut out, lab.as_slice(), w);
    if off + len <= l.bytes.len() {
        push_str(&mut out, "  ");
        let h = hex_ascii(&l.bytes.as_slice()[off..off + len]);
        push_str(&mut out, h.as_str());
    } else {
        push_str(&mut out, "  (out of range — file size 0x");
        push_hex(&mut out, l.bytes.len() as u64, 0);
        push_str(&mut out, ")");
        assert(crate::text::zero_pad(hex_upper(l.bytes@.len()), 0) =~= hex_upper(
            l.bytes@.len(),
        ));
    }
    assert(out@ =~= field_line(*l, w as int, off as int, len as int));
    string_from_chars(out.as_slice())
}

/// The lines of a field probe of `len` bytes at `off` across the files.
pub fn field_block(loaded: &[Loaded], title: &str, off: usize, len: usize) -> (lines: Vec<String>)
    requires
        off + len <= usize::MAX,
    ensures
        texts(lines@) == spec_field_block(loaded@, title@, off as int, len as int),
{
    let w = label_column(loaded);
    let mut lines: Vec<String> = Vec::new();
    let mut t: Vec<char> = Vec::new();
    push_str(&mut t, "── ");
    push_str(&mut t, title);
    push_str(&mut t, "  @ 0x");
    push_hex(&mut t, off as u64, 0);
    push_str(&mut t, "  (");
    push_dec_right(&mut t, len as u64, 0);
    push_str(&mut t, " B) ──");
    assert(t@ =~= field_title(title@, off as int, len as int)) by {
        assert(crate::text::zero_pad(hex_upper(off as nat), 0) =~= hex_upper(off as nat));
        assert(pad_left(decimal(len as nat), 0) =~= decimal(len as nat));
    }
    lines.push(string_from_chars(t.as_slice()));
    let ghost want = spec_field_block(loaded@, title@, off as int, len as int);
    let mut i: usize = 0;
    while i < loaded.len()
        invariant
            off + len <= usize::MAX,
            w == label_width(loaded@),
            want == spec_field_block(loaded@, title@, off as int, len as int),
            i <= loaded@.len(),
            texts(lines@) == want.take(i + 1),
        decreases loaded@.len() - i,
    {
        let s = file_field_line(&loaded[i], w, off, len);
        let ghost before = texts(lines@);
        lines.push(s);
        assert(texts(lines@) =~= before.push(s@));
        assert(want.take(i + 2) =~= want.take(i + 1).push(want[i + 1]));
        i = i + 1;
    }
    let empty: Vec<char> = Vec::new();
    let e = string_from_chars(empty.as_slice());
    let ghost before = texts(lines@);
    lines.push(e);
    assert(texts(lines@) =~= before.push(e@));
    assert(texts(lines@) =~= want);
    lines
}

/// The size-table line of a file: its size in hex and decimal, the offset
/// of its trailer block, and the first bytes of the trailer.
pub open spec fn size_line(l: Loaded, w: int) -> Seq<char> {
    let sz = l.bytes@.len() as int;
    let tr = sat_sub(sz, TRAILER_FROM_END as int);
    "  "@ + pad_right(l.label@, w) + "  size=0x"@ + hex_upper(sz as nat) + " ("@ + decimal(
        sz as nat,
    ) + ")  trailer@0x"@ + hex_upper(tr as nat) + "  "@ + if tr + TRAILER_HEAD_LEN <= sz {
        spec_hex_ascii(l.bytes@.subrange(tr, tr + TRAILER_HEAD_LEN))
    } else {
        "(file too small)"@
    }
}

fn file_size_line(l: &Loaded, w: usize) -> (s: String)
    requires
        l.bytes@.len() + TRAILER_HEAD_LEN <= usize::MAX,
    ensures
        s@ == size_line(*l, w as int),
{
    let sz = l.bytes.len();
    let tr = if sz >= TRAILER_FROM_END {
        sz - TRAILER_FROM_END
    } else {
        0
    };
    let mut out: Vec<char> = Vec::new();
    push_str(&mut out, "  ");
    let mut lab: Vec<char> = Vec::new();
    push_str(&mut lab, l.label.as_str());
    push_padded_right(&mut out, lab.as_slice(), w);
    push_str(&mut out, "  size=0x");
    push_hex(&mut out, sz as u64, 0);
    push_str(&mut out, " (");
    push_dec_right(&mut out, sz as u64, 0);
    push_str(&mut out, ")  trailer@0x");
    push_hex(&mut out, tr as u64, 0);
    push_str(&mut out, "  ");
    if tr + TRAILER_HEAD_LEN <= sz {
        let h = hex_ascii(&l.bytes.as_slice()[tr..tr + TRAILER_HEAD_LEN]);
        push_str(&mut out, h.as_str());
    } else {
        push_str(&mut out, "(file too small)");
    }
    assert(out@ =~= size_line(*l, w as int)) by {
        assert(crate::text::zero_pad(hex_upper(sz as nat), 0) =~= hex_upper(sz as nat));
        assert(crate::text::zero_pad(hex_upper(tr as nat), 0) =~= hex_upper(tr as nat));
        assert(pad_left(decimal(sz as nat), 0) =~= decimal(sz as nat));
    }
    string_from_chars(out.as_slice())
}

/// The probes of the inspection report: title, offset and length of each
/// known field, in report order.
pub open spec fn probes() -> Seq<(Seq<char>, int, int)> {
    seq![
        ("SHOWDATA header + show-name"@, 0x00int, 0x1Eint),
        ("DMX-address table head (0x1E)"@, 0x1Eint, 32int),
        ("Personality counters @ 0x9C"@, 0x9Cint, 6int),
        ("Personality counters mirror @ 0x60840"@, 0x60840int, 6int),
        ("Sorted fixture_id list head @ 0x498"@, 0x498int, 32int),
        ("Fixture record-pointer table @ 0x4028"@, 0x4028int, 32int),
        ("Fixture→DMX patch table @ 0x60878"@, 0x60878int, 32int),
        ("Personality slot 0 name @ 0x61000"@, 0x61000int, 16int),
    ]
}

/// The field-probe lines of the first `k` probes.
pub open spec fn probe_blocks(ls: Seq<Loaded>, k: int) -> Seq<Seq<char>>
    decreases k,
{
    if k <= 0 {
        seq![]
    } else {
        let p = probes()[k - 1];
        probe_blocks(ls, k - 1) + spec_field_block(ls, p.0, p.1, p.2)
    }
}

/// Every file can have its trailer head sliced without overflow.
pub open spec fn sizes_fit(ls: Seq<Loaded>) -> bool {
    forall|i: int| 0 <= i < ls.len() ==> #[trigger] ls[i].bytes@.len() + TRAILER_HEAD_LEN <= usize::MAX
}

/// The inspection report: the size table, then every field probe.
pub open spec fn spec_inspect_report(ls: Seq<Loaded>) -> Seq<Seq<char>> {
    seq!["=== file sizes & trailer offset ==="@] + Seq::new(
        ls.len(),
        |i: int| size_line(ls[i], label_width(ls)),
    ) + seq![Seq::<char>::empty()] + probe_blocks(ls, 8)
}

/// Adds the block of probe `k` to the report.
fn add_probe(
    lines: &mut Vec<String>,
    loaded: &[Loaded],
    Ghost(head): Ghost<Seq<Seq<char>>>,
    k: usize,
    title: &str,
    off: usize,
    len: usize,
)
    requires
        texts(old(lines)@) == head + probe_blocks(loaded@, k as int),
        k < 8,
        title@ == probes()[k as int].0,
        off == probes()[k as int].1,
        len == probes()[k as int].2,
        off + len <= usize::MAX,
    ensures
        texts(final(lines)@) == head + probe_blocks(loaded@, k + 1),
{
    let blk = field_block(loaded, title, off, len);
    append_lines(lines, &blk);
    assert(head + probe_blocks(loaded@, k + 1) =~= head + probe_blocks(loaded@, k as int)
        + texts(blk@));
}

/// The inspection report of the loaded files.
fn inspect_lines(loaded: &[Loaded]) -> (lines: Vec<String>)
    requires
        sizes_fit(loaded@),
    ensures
        texts(lines@) == spec_inspect_report(loaded@),
{
    let w = label_column(loaded);
    let mut lines: Vec<String> = Vec::new();
    let mut h: Vec<char> = Vec::new();
    push_str(&mut h, "=== file sizes & trailer offset ===");
    lines.push(string_from_chars(h.as_slice()));
    let ghost want = spec_inspect_report(loaded@);
    let mut i: usize = 0;
    while i < loaded.len()
        invariant
            w == label_width(loaded@),
            sizes_fit(loaded@),
            want == spec_inspect_report(loaded@),
            i <= loaded@.len(),
            texts(lines@) == want.take(i + 1),
        decreases loaded@.len() - i,
    {
        assert(loaded@[i as int].bytes@.len() + TRAILER_HEAD_LEN <= usize::MAX);
        let s = file_size_line(&loaded[i], w);
        let ghost before = texts(lines@);
        lines.push(s);
        assert(texts(lines@) =~= before.push(s@));
        assert(want.take(i + 2) =~= want.take(i + 1).push(want[i + 1]));
        i = i + 1;
    }
    let empty: Vec<char> = Vec::new();
    let e = string_from_chars(empty.as_slice());
    let ghost before = texts(lines@);
    lines.push(e);
    assert(texts(lines@) =~= before.push(e@));
    let ghost head = texts(lines@);
    assert(head =~= want.take(loaded@.len() as int + 2));
    assert(texts(lines@) =~= head + probe_blocks(loaded@, 0));
    add_probe(&mut lines, loaded, Ghost(head), 0, "SHOWDATA header + show-name", 0x00, 0x1E);
    add_probe(&mut lines, loaded, Ghost(head), 1, "DMX-address table head (0x1E)", 0x1E, 32);
    add_probe(&mut lines, loaded, Ghost(head), 2, "Personality counters @ 0x9C", 0x9C, 6);
    add_probe(
        &mut lines,
        loaded,
        Ghost(head),
        3,
        "Personality counters mirror @ 0x60840",
        0x60840,
        6,
    );
    add_probe(&mut lines, loaded, Ghost(head), 4, "Sorted fixture_id list head @ 0x498", 0x498, 32);
    add_probe(
        &mut lines,
        loaded,
        Ghost(head),
        5,
        "Fixture record-pointer table @ 0x4028",
        0x4028,
        32,
    );
    add_probe(&mut lines, loaded, Ghost(head), 6, "Fixture→DMX patch table @ 0x60878", 0x60878, 32);
    add_probe(
        &mut lines,
        loaded,
        Ghost(head),
        7,
        "Personality slot 0 name @ 0x61000",
        0x61000,
        16,
    );
    assert(texts(lines@) =~= want);
    lines
}

/// Why no inspection report was made.
#[derive(Debug, Clone, Copy, PartialEq, Eq)]
pub enum InspectError {
    /// No file was given.
    NoFiles,
}

/// The inspection report of the loaded files; at least one file is needed.
pub fn inspect_report(loaded: &[Loaded]) -> (r: Result<Vec<String>, InspectError>)
    requires
        sizes_fit(loaded@),
    ensures
        r is Err <==> loaded@.len() == 0,
        r matches Err(e) ==> e == InspectError::NoFiles,
        r matches Ok(lines) ==> texts(lines@) == spec_inspect_report(loaded@),
{
    if loaded.len() == 0 {
        return Err(InspectError::NoFiles);
    }
    Ok(inspect_lines(loaded))
}

} // verus!
