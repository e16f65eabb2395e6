//! Hex-and-ASCII lines for byte ranges, as the diff, peek and inspect
//! reports show them.

use vstd::prelude::*;
use crate::dir::trim_end;
use crate::dir::trimmed_len;
use crate::text::ascii_column;
use crate::text::ascii_or_dot;
use crate::text::hex_byte;
use crate::text::hex_upper;
use crate::text::pad_right;
use crate::text::zero_pad;
use crate::text::push_chars;
use crate::text::push_hex;
use crate::text::push_padded_right;
use crate::text::push_str;
use crate::text::string_from_chars;
use crate::text::decimal;
use crate::text::pad_left;
use crate::text::push_dec_right;

verus! {

/// Each byte as two hex digits followed by a space.
pub open spec fn hex_cells(bytes: Seq<u8>) -> Seq<char>
    decreases bytes.len(),
{
    if bytes.len() == 0 {
        seq![]
    } else {
        hex_cells(bytes.drop_last()) + hex_byte(bytes.last()) + seq![' ']
    }
}

/// A byte range as `XX XX ...` (padded to 48 columns) and its ASCII column
/// in quotes.
pub open spec fn spec_hex_ascii(bytes: Seq<u8>) -> Seq<char> {
    pad_right(trim_end(hex_cells(bytes)), 48) + "  \""@ + ascii_column(bytes) + "\""@
}

/// One row of a hex dump: offset (at least 8 hex digits), the bytes in hex
/// padded to 48 columns, and the ASCII column.
pub open spec fn spec_hex_row(bytes: Seq<u8>, off: int) -> Seq<char> {
    "  "@ + zero_pad(hex_upper(off as nat), 8) + "  "@ + pad_right(trim_end(hex_cells(bytes)), 48)
        + "  "@ + ascii_column(bytes)
}

/// One byte of a diff line: `[XX]` inside the highlighted run, ` XX `
/// outside it.
pub open spec fn hl_cell(b: u8, off: int, hl_start: int, hl_end: int) -> Seq<char> {
    if hl_start <= off < hl_end {
        "["@ + hex_byte(b) + "]"@
    } else {
        " "@ + hex_byte(b) + " "@
    }
}

/// The cells of the bytes of a diff line starting at offset `base`.
pub open spec fn hl_cells(bytes: Seq<u8>, base: int, hl_start: int, hl_end: int) -> Seq<char>
    decreases bytes.len(),
{
    if bytes.len() == 0 {
        seq![]
    } else {
        hl_cells(bytes.drop_last(), base, hl_start, hl_end) + hl_cell(
            bytes.last(),
            base + bytes.len() - 1,
            hl_start,
            hl_end,
        )
    }
}

/// The body of a diff line: the cells padded to 64 columns, then the ASCII
/// column.
pub open spec fn spec_hex_line(bytes: Seq<u8>, base: int, hl_start: int, hl_end: int) -> Seq<
    char,
> {
    pad_right(hl_cells(bytes, base, hl_start, hl_end), 64) + "  "@ + ascii_column(bytes)
}

/// The bytes of `bytes` at the positions of line `l` of a 16-byte-wide
/// dump of `len` bytes.
pub open spec fn line_slice(bytes: Seq<u8>, len: int, l: int) -> Seq<u8> {
    let lo = 16 * l;
    let hi = if lo + 16 <= len {
        lo + 16
    } else {
        len
    };
    bytes.subrange(lo, hi)
}

/// The bytes shown in line `l` of a 16-byte-wide dump of `bytes`.
pub open spec fn line_bytes(bytes: Seq<u8>, l: int) -> Seq<u8> {
    line_slice(bytes, bytes.len() as int, l)
}

/// The number of 16-byte lines needed for `len` bytes.
pub open spec fn line_count(len: int) -> int {
    (len + 15) / 16
}

/// The two lines, for `a` and for `b`, of each 16-byte line of a diff
/// context window starting at offset `base`.
pub open spec fn spec_pair_lines(a: Seq<u8>, b: Seq<u8>, base: int, hl_start: int, hl_end: int) -> Seq<
    Seq<char>,
> {
    Seq::new(
        (2 * line_count(a.len() as int)) as nat,
        |k: int|
            {
                let l = k / 2;
                let off = base + 16 * l;
                if k % 2 == 0 {
                    "  A "@ + zero_pad(hex_upper(off as nat), 8) + "  "@ + spec_hex_line(
                        line_bytes(a, l),
                        off,
                        hl_start,
                        hl_end,
                    )
                } else {
                    "  B "@ + zero_pad(hex_upper(off as nat), 8) + "  "@ + spec_hex_line(
                        line_slice(b, a.len() as int, l),
                        off,
                        hl_start,
                        hl_end,
                    )
                }
            },
    )
}

/// The text of a sequence of strings.
pub open spec fn texts(v: Seq<String>) -> Seq<Seq<char>> {
    v.map_values(|s: String| s@)
}

/// The sub-slice `[off, off + len)`, if it lies inside `buf`.
pub fn slice(buf: &[u8], off: usize, len: usize) -> (r: Option<&[u8]>)
    requires
        off + len <= usize::MAX,
    ensures
        r is Some <==> off + len <= buf@.len(),
        r matches Some(s) ==> s@ == buf@.subrange(off as int, off + len),
{
    if off + len <= buf.len() {
        Some(&buf[off..off + len])
    } else {
        None
    }
}

/// Appends the hex cells of `bytes`.
fn push_hex_cells(out: &mut Vec<char>, bytes: &[u8])
    ensures
        final(out)@ == old(out)@ + hex_cells(bytes@),
{
    let ghost start = out@;
    let mut i: usize = 0;
    while i < bytes.len()
        invariant
            i <= bytes@.len(),
            out@ == start + hex_cells(bytes@.subrange(0, i as int)),
        decreases bytes@.len() - i,
    {
        let ghost pre = bytes@.subrange(0, i + 1);
        assert(pre.drop_last() =~= bytes@.subrange(0, i as int));
        push_hex(out, bytes[i] as u64, 2);
        out.push(' ');
        i = i + 1;
        assert(out@ =~= start + hex_cells(bytes@.subrange(0, i as int)));
    }
    assert(bytes@.subrange(0, bytes@.len() as int) =~= bytes@);
}

/// Appends the ASCII column of `bytes`.
fn push_ascii(out: &mut Vec<char>, bytes: &[u8])
    ensures
        final(out)@ == old(out)@ + ascii_column(bytes@),
{
    let ghost start = out@;
    let mut i: usize = 0;
    while i < bytes.len()
        invariant
            i <= bytes@.len(),
            out@ == start + ascii_column(bytes@.subrange(0, i as int)),
        decreases bytes@.len() - i,
    {
        let c = ascii_or_dot(bytes[i]);
        out.push(c);
        i = i + 1;
        assert(out@ =~= start + ascii_column(bytes@.subrange(0, i as int)));
    }
    assert(bytes@.subrange(0, bytes@.len() as int) =~= bytes@);
}

/// Appends the trimmed hex cells of `bytes`, padded to `width` columns.
fn push_trimmed_cells(out: &mut Vec<char>, bytes: &[u8], width: usize)
    ensures
        final(out)@ == old(out)@ + pad_right(trim_end(hex_cells(bytes@)), width as int),
{
    let mut cells: Vec<char> = Vec::new();
    push_hex_cells(&mut cells, bytes);
    assert(cells@ =~= hex_cells(bytes@));
    let n = trimmed_len(cells.as_slice());
    let mut kept: Vec<char> = Vec::new();
    let mut i: usize = 0;
    while i < n
        invariant
            n <= cells@.len(),
            i <= n,
            kept@ == cells@.subrange(0, i as int),
        decreases n - i,
    {
        kept.push(cells[i]);
        i = i + 1;
        assert(kept@ =~= cells@.subrange(0, i as int));
    }
    push_padded_right(out, kept.as_slice(), width);
}

/// A byte range in hex (padded to 48 columns) with its ASCII column in
/// quotes.
pub fn hex_ascii(buf: &[u8]) -> (s: String)
    ensures
        s@ == spec_hex_ascii(buf@),
{
    let mut out: Vec<char> = Vec::new();
    push_trimmed_cells(&mut out, buf, 48);
    push_str(&mut out, "  \"");
    push_ascii(&mut out, buf);
    push_str(&mut out, "\"");
    assert(out@ =~= spec_hex_ascii(buf@));
    string_from_chars(out.as_slice())
}

/// One row of a hex dump of `bytes` found at offset `off`.
pub fn hex_row(bytes: &[u8], off: u64) -> (s: String)
    ensures
        s@ == spec_hex_row(bytes@, off as int),
{
    let mut out: Vec<char> = Vec::new();
    push_str(&mut out, "  ");
    push_hex(&mut out, off, 8);
    push_str(&mut out, "  ");
    push_trimmed_cells(&mut out, bytes, 48);
    push_str(&mut out, "  ");
    push_ascii(&mut out, bytes);
    assert(out@ =~= spec_hex_row(bytes@, off as int));
    string_from_chars(out.as_slice())
}

/// The offset of every row of a dump of `len` bytes from `base` fits in
/// 64 bits.
pub open spec fn rows_fit(len: int, base: int) -> bool {
    line_count(len) == 0 || base + 16 * (line_count(len) - 1) <= u64::MAX
}

/// A hex dump of `buf`, 16 bytes per row, the first row at offset `base`.
pub fn hex_rows(buf: &[u8], base: u64) -> (rows: Vec<String>)
    requires
        rows_fit(buf@.len() as int, base as int),
    ensures
        rows@.len() == line_count(buf@.len() as int),
        forall|l: int|
            0 <= l < rows@.len() ==> #[trigger] rows@[l]@ == spec_hex_row(
                line_bytes(buf@, l),
                base + 16 * l,
            ),
{
    let mut rows: Vec<String> = Vec::new();
    let len = buf.len();
    let count = len / 16 + if len % 16 == 0 {
        0
    } else {
        1
    };
    assert(count == line_count(len as int));
    let mut l: usize = 0;
    while l < count
        invariant
            len == buf@.len(),
            count == line_count(len as int),
            l <= count,
            rows@.len() == l,
            rows_fit(len as int, base as int),
            forall|k: int|
                0 <= k < l ==> #[trigger] rows@[k]@ == spec_hex_row(
                    line_bytes(buf@, k),
                    base + 16 * k,
                ),
        decreases count - l,
    {
        let lo = 16 * l;
        let hi = if len - lo >= 16 {
            lo + 16
        } else {
            len
        };
        let off = base + 16 * l as u64;
        let row = hex_row(&buf[lo..hi], off);
        rows.push(row);
        l = l + 1;
    }
    rows
}

/// The note closing a dump that read fewer bytes than requested.
pub open spec fn spec_eof_line(got: int, requested: int) -> Seq<char> {
    "(EOF after "@ + decimal(got as nat) + " bytes; requested "@ + decimal(requested as nat) + ")"@
}

/// The lines of a dump of `buf`, read at offset `base` where `requested`
/// bytes were asked for: the rows, then a note when fewer bytes came.
pub open spec fn spec_peek_report(buf: Seq<u8>, base: int, requested: int) -> Seq<Seq<char>> {
    Seq::new(
        line_count(buf.len() as int) as nat,
        |l: int| spec_hex_row(line_bytes(buf, l), base + 16 * l),
    ) + if buf.len() < requested {
        seq![spec_eof_line(buf.len() as int, requested)]
    } else {
        seq![]
    }
}

/// The lines of a dump of the `buf.len()` bytes read at offset `base` when
/// `requested` bytes were asked for.
pub fn peek_report(buf: &[u8], base: u64, requested: usize) -> (lines: Vec<String>)
    requires
        rows_fit(buf@.len() as int, base as int),
    ensures
        texts(lines@) == spec_peek_report(buf@, base as int, requested as int),
{
    let mut lines = hex_rows(buf, base);
    assert(texts(lines@) =~= Seq::new(
        line_count(buf@.len() as int) as nat,
        |l: int| spec_hex_row(line_bytes(buf@, l), base + 16 * l),
    ));
    if buf.len() < requested {
        let mut out: Vec<char> = Vec::new();
        push_str(&mut out, "(EOF after ");
        push_dec_right(&mut out, buf.len() as u64, 0);
        push_str(&mut out, " bytes; requested ");
        push_dec_right(&mut out, requested as u64, 0);
        push_str(&mut out, ")");
        assert(out@ =~= spec_eof_line(buf@.len() as int, requested as int)) by {
            assert(pad_left(decimal(buf@.len()), 0) =~= decimal(buf@.len()));
            assert(pad_left(decimal(requested as nat), 0) =~= decimal(requested as nat));
        }
        let ghost before = texts(lines@);
        let s = string_from_chars(out.as_slice());
        lines.push(s);
        assert(texts(lines@) =~= before.push(s@));
    }
    assert(texts(lines@) =~= spec_peek_report(buf@, base as int, requested as int));
    lines
}

/// Appends the highlighted cells of a diff line.
fn push_hl_cells(out: &mut Vec<char>, bytes: &[u8], base: usize, hl_start: usize, hl_end: usize)
    requires
        bytes@.len() == 0 || base + bytes@.len() - 1 <= usize::MAX,
    ensures
        final(out)@ == old(out)@ + hl_cells(bytes@, base as int, hl_start as int, hl_end as int),
{
    let ghost start = out@;
    let mut i: usize = 0;
    while i < bytes.len()
        invariant
            i <= bytes@.len(),
            bytes@.len() == 0 || base + bytes@.len() - 1 <= usize::MAX,
            out@ == start + hl_cells(
                bytes@.subrange(0, i as int),
                base as int,
                hl_start as int,
                hl_end as int,
            ),
        decreases bytes@.len() - i,
    {
        let ghost pre = bytes@.subrange(0, i + 1);
        assert(pre.drop_last() =~= bytes@.subrange(0, i as int));
        let off = base + i;
        if off >= hl_start && off < hl_end {
            push_str(out, "[");
            push_hex(out, bytes[i] as u64, 2);
            push_str(out, "]");
        } else {
            push_str(out, " ");
            push_hex(out, bytes[i] as u64, 2);
            push_str(out, " ");
        }
        i = i + 1;
        assert(out@ =~= start + hl_cells(
            bytes@.subrange(0, i as int),
            base as int,
            hl_start as int,
            hl_end as int,
        ));
    }
    assert(bytes@.subrange(0, bytes@.len() as int) =~= bytes@);
}

/// The body of a diff line for `bytes` at offset `base`, bracketing the
/// bytes whose offsets fall in `[hl_start, hl_end)`.
pub fn hex_line(bytes: &[u8], base: usize, hl_start: usize, hl_end: usize) -> (s: String)
    requires
        bytes@.len() == 0 || base + bytes@.len() - 1 <= usize::MAX,
    ensures
        s@ == spec_hex_line(bytes@, base as int, hl_start as int, hl_end as int),
{
    let mut cells: Vec<char> = Vec::new();
    push_hl_cells(&mut cells, bytes, base, hl_start, hl_end);
    let mut out: Vec<char> = Vec::new();
    push_padded_right(&mut out, cells.as_slice(), 64);
    push_str(&mut out, "  ");
    push_ascii(&mut out, bytes);
    assert(out@ =~= spec_hex_line(bytes@, base as int, hl_start as int, hl_end as int));
    string_from_chars(out.as_slice())
}

/// One side of a diff line: the side's tag, the offset, and the body.
fn pair_line(tag: &str, bytes: &[u8], off: usize, hl_start: usize, hl_end: usize) -> (s: String)
    requires
        bytes@.len() == 0 || off + bytes@.len() - 1 <= usize::MAX,
    ensures
        s@ == tag@ + zero_pad(hex_upper(off as nat), 8) + "  "@ + spec_hex_line(
            bytes@,
            off as int,
            hl_start as int,
            hl_end as int,
        ),
{
    let mut out: Vec<char> = Vec::new();
    push_str(&mut out, tag);
    push_hex(&mut out, off as u64, 8);
    push_str(&mut out, "  ");
    let body = hex_line(bytes, off, hl_start, hl_end);
    push_str(&mut out, body.as_str());
    assert(out@ =~= tag@ + zero_pad(hex_upper(off as nat), 8) + "  "@ + spec_hex_line(
        bytes@,
        off as int,
        hl_start as int,
        hl_end as int,
    ));
    string_from_chars(out.as_slice())
}

/// The lines of a diff context window: for every 16 bytes, a line for `a`
/// and a line for `b`, with the run `[hl_start, hl_end)` bracketed.
pub fn hex_pair_lines(a: &[u8], b: &[u8], base: usize, hl_start: usize, hl_end: usize) -> (lines:
    Vec<String>)
    requires
        b@.len() >= a@.len(),
        a@.len() + 15 <= usize::MAX,
        a@.len() == 0 || base + a@.len() - 1 <= usize::MAX,
    ensures
        texts(lines@) == spec_pair_lines(a@, b@, base as int, hl_start as int, hl_end as int),
{
    let mut lines: Vec<String> = Vec::new();
    let len = a.len();
    let count = len / 16 + if len % 16 == 0 {
        0
    } else {
        1
    };
    assert(count == line_count(len as int));
    let ghost want = spec_pair_lines(a@, b@, base as int, hl_start as int, hl_end as int);
    let mut l: usize = 0;
    while l < count
        invariant
            len == a@.len(),
            b@.len() >= a@.len(),
            a@.len() == 0 || base + a@.len() - 1 <= usize::MAX,
            count == line_count(len as int),
            want == spec_pair_lines(a@, b@, base as int, hl_start as int, hl_end as int),
            l <= count,
            lines@.len() == 2 * l,
            forall|k: int| 0 <= k < 2 * l ==> #[trigger] texts(lines@)[k] == want[k],
        decreases count - l,
    {
        let lo = 16 * l;
        let hi = if len - lo >= 16 {
            lo + 16
        } else {
            len
        };
        let off = base + lo;
        assert(a@.subrange(lo as int, hi as int) == line_slice(a@, len as int, l as int));
        assert(b@.subrange(lo as int, hi as int) == line_slice(b@, len as int, l as int));
        let la = pair_line("  A ", &a[lo..hi], off, hl_start, hl_end);
        let lb = pair_line("  B ", &b[lo..hi], off, hl_start, hl_end);
        let ghost before = lines@;
        lines.push(la);
        lines.push(lb);
        proof {
            let k0 = 2 * l as int;
            assert(k0 / 2 == l && k0 % 2 == 0);
            assert((k0 + 1) / 2 == l && (k0 + 1) % 2 == 1);
            assert(texts(lines@)[k0] == want[k0]);
            assert(texts(lines@)[k0 + 1] == want[k0 + 1]);
            assert forall|k: int| 0 <= k < 2 * (l + 1) implies #[trigger] texts(lines@)[k]
                == want[k] by {
                if k < 2 * l {
                    assert(lines@[k] == before[k]);
                    assert(texts(before)[k] == want[k]);
                } else if k == k0 {
                } else {
                    assert(k == k0 + 1);
                }
            }
        }
        l = l + 1;
    }
    assert(texts(lines@) =~= want);
    lines
}

/// Appends copies of `more` to `out`.
pub(crate) fn append_lines(out: &mut Vec<String>, more: &Vec<String>)
    ensures
        texts(final(out)@) == texts(old(out)@) + texts(more@),
{
    let ghost start = texts(out@);
    let mut i: usize = 0;
    while i < more.len()
        invariant
            i <= more@.len(),
            texts(out@) == start + texts(more@).take(i as int),
        decreases more@.len() - i,
    {
        let s = more[i].clone();
        let ghost prev = out@;
        out.push(s);
        assert(s@ == texts(more@)[i as int]);
        assert(texts(out@) =~= texts(prev).push(s@));
        assert(texts(more@).take(i + 1) =~= texts(more@).take(i as int).push(s@));
        i = i + 1;
    }
    assert(texts(more@).take(more@.len() as int) =~= texts(more@));
}

} // verus!
