//! FAT root-directory entries: 32-byte records holding an 8.3 name, the
//! attribute byte, the start cluster and the file size.

use vstd::prelude::*;
use crate::bpb::le16;
use crate::bpb::le32;
use crate::text::string_from_chars;

verus! {

/// Size in bytes of one directory entry.
pub const ENTRY_LEN: usize = 32;

/// A decoded directory entry.
#[derive(Debug)]
pub struct DirEntry {
    pub name: String,
    pub start_cluster: u32,
    pub size: u32,
    pub attr: u8,
}

/// The mathematical value of a directory entry.
pub struct DirEntryView {
    pub name: Seq<char>,
    pub start_cluster: u32,
    pub size: u32,
    pub attr: u8,
}

impl View for DirEntry {
    type V = DirEntryView;

    open spec fn view(&self) -> DirEntryView {
        DirEntryView {
            name: self.name@,
            start_cluster: self.start_cluster,
            size: self.size,
            attr: self.attr,
        }
    }
}

/// The characters that `String::from_utf8_lossy` yields for `bytes`.
pub uninterp spec fn utf8_lossy(bytes: Seq<u8>) -> Seq<char>;

/// All bytes are ASCII.
pub open spec fn all_ascii(bytes: Seq<u8>) -> bool {
    forall|i: int| 0 <= i < bytes.len() ==> bytes[i] < 0x80
}

/// The characters a name field decodes to: one character per byte when all
/// bytes are ASCII, the lossy UTF-8 decoding in general (the two agree on
/// ASCII bytes).
pub open spec fn decoded(bytes: Seq<u8>) -> Seq<char> {
    if all_ascii(bytes) {
        bytes.map_values(|b: u8| b as char)
    } else {
        utf8_lossy(bytes)
    }
}

/// Decodes bytes as UTF-8, replacing invalid sequences as
/// `String::from_utf8_lossy` does.
///
/// Trusted: the result is named `utf8_lossy` of the bytes; beside that, the
/// contract claims only that ASCII bytes decode one character per byte, each
/// the character with the byte's code, which the documentation of
/// `from_utf8_lossy` gives for valid UTF-8.
#[verifier::external_body]
fn decode_lossy(bytes: &[u8]) -> (res: Vec<char>)
    ensures
        res@ == utf8_lossy(bytes@),
        all_ascii(bytes@) ==> res@ == bytes@.map_values(|b: u8| b as char),
{
    String::from_utf8_lossy(bytes).chars().collect()
}

/// Unicode `White_Space`, as tested by `char::is_whitespace`.
pub open spec fn is_white(c: char) -> bool {
    let u = c as u32;
    ||| 0x09 <= u <= 0x0D
    ||| u == 0x20
    ||| u == 0x85
    ||| u == 0xA0
    ||| u == 0x1680
    ||| 0x2000 <= u <= 0x200A
    ||| u == 0x2028
    ||| u == 0x2029
    ||| u == 0x202F
    ||| u == 0x205F
    ||| u == 0x3000
}

pub fn is_whitespace(c: char) -> (r: bool)
    ensures
        r == is_white(c),
{
    let u = c as u32;
    (0x09 <= u && u <= 0x0D) || u == 0x20 || u == 0x85 || u == 0xA0 || u == 0x1680 || (0x2000
        <= u && u <= 0x200A) || u == 0x2028 || u == 0x2029 || u == 0x202F || u == 0x205F || u
        == 0x3000
}

/// `s` without its trailing whitespace (as `str::trim_end` does).
pub open spec fn trim_end(s: Seq<char>) -> Seq<char>
    decreases s.len(),
{
    if s.len() > 0 && is_white(s.last()) {
        trim_end(s.drop_last())
    } else {
        s
    }
}

/// The length of `trim_end(s)`, computed from the end.
pub fn trimmed_len(s: &[char]) -> (n: usize)
    ensures
        n <= s@.len(),
        trim_end(s@) == s@.subrange(0, n as int),
{
    let mut n = s.len();
    assert(s@.subrange(0, n as int) =~= s@);
    while n > 0 && is_whitespace(s[n - 1])
        invariant
            n <= s@.len(),
            trim_end(s@) == trim_end(s@.subrange(0, n as int)),
        decreases n,
    {
        assert(s@.subrange(0, n as int).drop_last() =~= s@.subrange(0, n - 1));
        n = n - 1;
    }
    n
}

/// The displayed 8.3 name: the trimmed name, then a dot and the trimmed
/// extension when the extension is not empty.
pub open spec fn spec_short_name(name: Seq<char>, ext: Seq<char>) -> Seq<char> {
    let n = trim_end(name);
    let e = trim_end(ext);
    if e.len() == 0 {
        n
    } else {
        n + seq!['.'] + e
    }
}

/// Joins the decoded name and extension fields of an entry.
pub fn short_name(name: &[char], ext: &[char]) -> (s: String)
    ensures
        s@ == spec_short_name(name@, ext@),
{
    let nl = trimmed_len(name);
    let el = trimmed_len(ext);
    let mut out: Vec<char> = Vec::new();
    let mut i: usize = 0;
    while i < nl
        invariant
            nl <= name@.len(),
            i <= nl,
            out@ == name@.subrange(0, i as int),
        decreases nl - i,
    {
        out.push(name[i]);
        i = i + 1;
        assert(out@ =~= name@.subrange(0, i as int));
    }
    if el > 0 {
        out.push('.');
        let ghost with_dot = out@;
        let mut j: usize = 0;
        while j < el
            invariant
                el <= ext@.len(),
                j <= el,
                out@ == with_dot + ext@.subrange(0, j as int),
            decreases el - j,
        {
            out.push(ext[j]);
            j = j + 1;
            assert(out@ =~= with_dot + ext@.subrange(0, j as int));
        }
    }
    string_from_chars(out.as_slice())
}

/// The 32-byte record of index `k`.
pub open spec fn chunk(buf: Seq<u8>, k: int) -> Seq<u8> {
    buf.subrange(32 * k, 32 * k + 32)
}

/// The number of whole records in `buf`.
pub open spec fn num_chunks(buf: Seq<u8>) -> int {
    buf.len() as int / 32
}

/// The record marks the end of the directory.
pub open spec fn is_end_marker(c: Seq<u8>) -> bool {
    c[0] == 0x00
}

/// The record describes a file or directory: not deleted, not a long-name
/// fragment, not a bare volume label.
pub open spec fn is_listed(c: Seq<u8>) -> bool {
    let attr = c[11];
    &&& c[0] != 0xE5
    &&& attr != 0x0F
    &&& !(attr & 0x08 != 0 && attr & 0x10 == 0)
}

/// The entry that a 32-byte record decodes to.
pub open spec fn spec_entry(c: Seq<u8>) -> DirEntryView {
    DirEntryView {
        name: spec_short_name(decoded(c.subrange(0, 8)), decoded(c.subrange(8, 11))),
        start_cluster: (le16(c, 20) * 65536 + le16(c, 26)) as u32,
        size: le32(c, 28) as u32,
        attr: c[11],
    }
}

/// Index of the first end-marker record at or after `k`, or the number of
/// records when there is none.
pub open spec fn dir_end(buf: Seq<u8>, k: int) -> int
    decreases num_chunks(buf) - k,
{
    if k >= num_chunks(buf) {
        num_chunks(buf)
    } else if is_end_marker(chunk(buf, k)) {
        k
    } else {
        dir_end(buf, k + 1)
    }
}

/// Entries of the listed records among the first `k` records.
pub open spec fn entries_before(buf: Seq<u8>, k: int) -> Seq<DirEntryView>
    decreases k,
{
    if k <= 0 {
        seq![]
    } else if is_listed(chunk(buf, k - 1)) {
        entries_before(buf, k - 1).push(spec_entry(chunk(buf, k - 1)))
    } else {
        entries_before(buf, k - 1)
    }
}

/// The entries of a directory region: those of the listed records before
/// the first end marker.
pub open spec fn spec_dir_entries(buf: Seq<u8>) -> Seq<DirEntryView> {
    entries_before(buf, dir_end(buf, 0))
}

/// The views of a sequence of entries.
pub open spec fn views(v: Seq<DirEntry>) -> Seq<DirEntryView> {
    v.map_values(|e: DirEntry| e@)
}

/// Decodes one 32-byte record.
pub fn entry_from_chunk(c: &[u8]) -> (e: DirEntry)
    requires
        c@.len() == 32,
    ensures
        e@ == spec_entry(c@),
{
    let name_raw = decode_lossy(&c[0..8]);
    let ext_raw = decode_lossy(&c[8..11]);
    let name = short_name(name_raw.as_slice(), ext_raw.as_slice());
    let start_hi = c[20] as u32 + 256 * c[21] as u32;
    let start_lo = c[26] as u32 + 256 * c[27] as u32;
    let start_cluster = start_hi * 65536 + start_lo;
    let size = c[28] as u32 + 256 * c[29] as u32 + 65536 * (c[30] as u32 + 256 * c[31] as u32);
    DirEntry { name, start_cluster, size, attr: c[11] }
}

proof fn lemma_dir_end_skip(buf: Seq<u8>, k: int, j: int)
    requires
        0 <= j <= k <= num_chunks(buf),
        forall|i: int| j <= i < k ==> !is_end_marker(#[trigger] chunk(buf, i)),
    ensures
        dir_end(buf, j) == dir_end(buf, k),
    decreases k - j,
{
    if j < k {
        lemma_dir_end_skip(buf, k, j + 1);
    }
}

/// Decodes the entries of a root-directory region, stopping at the first
/// end-marker record and skipping deleted records, long-name fragments and
/// volume labels. A trailing partial record is ignored.
pub fn parse_dir_entries(buf: &[u8]) -> (out: Vec<DirEntry>)
    ensures
        views(out@) == spec_dir_entries(buf@),
{
    let mut out: Vec<DirEntry> = Vec::new();
    let len = buf.len();
    let n = len / 32;
    let mut k: usize = 0;
    while k < n
        invariant
            len == buf@.len(),
            n == num_chunks(buf@),
            k <= n,
            forall|i: int| 0 <= i < k ==> !is_end_marker(#[trigger] chunk(buf@, i)),
            views(out@) == entries_before(buf@, k as int),
        decreases n - k,
    {
        assert(32 * k + 32 <= buf@.len()) by (nonlinear_arith)
            requires
                k < n,
                n == len as int / 32,
                len == buf@.len(),
        ;
        let c = &buf[32 * k..32 * k + 32];
        assert(c@ == chunk(buf@, k as int));
        let first = c[0];
        if first == 0x00 {
            proof {
                lemma_dir_end_skip(buf@, k as int, 0);
            }
            return out;
        }
        let attr = c[11];
        if first != 0xE5 && attr != 0x0F && !(attr & 0x08 != 0 && attr & 0x10 == 0) {
            let e = entry_from_chunk(c);
            out.push(e);
            assert(views(out@) =~= entries_before(buf@, k as int).push(e@));
        }
        k = k + 1;
    }
    proof {
        lemma_dir_end_skip(buf@, n as int, 0);
    }
    out
}

} // verus!
