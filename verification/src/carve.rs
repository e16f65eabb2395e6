//! Choosing the directory entry of the file to carve.
//!
//! The console writes its save as one contiguous run of clusters, so the
//! file's bytes are `size` bytes from the start of its start cluster; only
//! the directory entry is needed, not the cluster chain.

use vstd::prelude::*;
use crate::bpb::Bpb;
use crate::dir::DirEntry;
use crate::dir::DirEntryView;
use crate::dir::views;
use crate::text::push_str;
use crate::text::push_dec_right;
use crate::text::push_hex;
use crate::text::push_padded_right;
use crate::text::string_from_chars;
use crate::text::decimal;
use crate::text::hex_upper;
use crate::text::pad_left;
use crate::text::pad_right;
use crate::text::zero_pad;
use crate::hexview::texts;

verus! {

/// Why no file could be carved.
#[derive(Debug, Clone, Copy, PartialEq, Eq)]
pub enum LocateError {
    /// No entry has the requested name.
    NotFound,
    /// The first entry with the requested name records a size of 0; the
    /// field holds its index.
    EmptyEntry(usize),
}

/// ASCII letters folded to lower case; other characters unchanged.
pub open spec fn ascii_lower(c: char) -> char {
    if 'A' <= c <= 'Z' {
        ((c as u32) + 32) as char
    } else {
        c
    }
}

/// The two names are equal when ASCII letters are compared without regard
/// to case (as `str::eq_ignore_ascii_case` compares).
pub open spec fn names_match(a: Seq<char>, b: Seq<char>) -> bool {
    &&& a.len() == b.len()
    &&& forall|i: int| 0 <= i < a.len() ==> ascii_lower(#[trigger] a[i]) == ascii_lower(b[i])
}

/// Some entry before index `k` has the name `target`.
pub open spec fn has_match_before(entries: Seq<DirEntryView>, target: Seq<char>, k: int) -> bool {
    exists|i: int| 0 <= i < k && names_match(#[trigger] entries[i].name, target)
}

/// `i` is the index of the first entry named `target`.
pub open spec fn is_first_match(entries: Seq<DirEntryView>, target: Seq<char>, i: int) -> bool {
    &&& 0 <= i < entries.len()
    &&& names_match(entries[i].name, target)
    &&& !has_match_before(entries, target, i)
}

/// The outcome of looking `target` up among `entries`.
pub open spec fn spec_locate(entries: Seq<DirEntryView>, target: Seq<char>) -> Result<
    usize,
    LocateError,
> {
    if !has_match_before(entries, target, entries.len() as int) {
        Err(LocateError::NotFound)
    } else {
        let i = choose|i: int| is_first_match(entries, target, i);
        if entries[i].size == 0 {
            Err(LocateError::EmptyEntry(i as usize))
        } else {
            Ok(i as usize)
        }
    }
}

fn lower(c: char) -> (r: char)
    ensures
        r == ascii_lower(c),
{
    if 'A' <= c && c <= 'Z' {
        ((c as u32 + 32) as u8) as char
    } else {
        c
    }
}

fn chars_match(a: &[char], b: &[char]) -> (r: bool)
    ensures
        r == names_match(a@, b@),
{
    if a.len() != b.len() {
        return false;
    }
    let mut i: usize = 0;
    while i < a.len()
        invariant
            a@.len() == b@.len(),
            i <= a@.len(),
            forall|j: int| 0 <= j < i ==> ascii_lower(#[trigger] a@[j]) == ascii_lower(b@[j]),
        decreases a@.len() - i,
    {
        if lower(a[i]) != lower(b[i]) {
            return false;
        }
        i = i + 1;
    }
    true
}

pub proof fn lemma_first_match_unique(entries: Seq<DirEntryView>, target: Seq<char>, i: int, j: int)
    requires
        is_first_match(entries, target, i),
        is_first_match(entries, target, j),
    ensures
        i == j,
{
    if i < j {
        assert(names_match(entries[i].name, target));
    } else if j < i {
        assert(names_match(entries[j].name, target));
    }
}

/// When some entry is named `target`, a first such entry exists.
pub proof fn lemma_first_match_exists(entries: Seq<DirEntryView>, target: Seq<char>, j: int)
    requires
        0 <= j < entries.len(),
        names_match(entries[j].name, target),
    ensures
        exists|i: int| is_first_match(entries, target, i),
    decreases j,
{
    if has_match_before(entries, target, j) {
        let k = choose|k: int| 0 <= k < j && names_match(#[trigger] entries[k].name, target);
        lemma_first_match_exists(entries, target, k);
    } else {
        assert(is_first_match(entries, target, j));
    }
}

/// Finds the entry of the file named `target`, comparing names without
/// regard to ASCII case. The first entry with that name is chosen; it must
/// record a non-zero size.
pub fn locate_entry(entries: &[DirEntry], target: &str) -> (res: Result<usize, LocateError>)
    ensures
        res == spec_locate(views(entries@), target@),
        res matches Ok(i) ==> is_first_match(views(entries@), target@, i as int) && entries@[i as int].size
            > 0,
{
    let ghost es = views(entries@);
    let mut want: Vec<char> = Vec::new();
    push_str(&mut want, target);
    assert(want@ =~= target@);
    let mut i: usize = 0;
    while i < entries.len()
        invariant
            i <= entries@.len(),
            es == views(entries@),
            want@ == target@,
            !has_match_before(es, target@, i as int),
        decreases entries@.len() - i,
    {
        let mut name: Vec<char> = Vec::new();
        push_str(&mut name, entries[i].name.as_str());
        assert(name@ =~= es[i as int].name);
        if chars_match(name.as_slice(), want.as_slice()) {
            proof {
                assert(is_first_match(es, target@, i as int));
                assert(has_match_before(es, target@, es.len() as int));
                let k = choose|k: int| is_first_match(es, target@, k);
                lemma_first_match_unique(es, target@, i as int, k);
            }
            if entries[i].size == 0 {
                return Err(LocateError::EmptyEntry(i));
            }
            return Ok(i);
        }
        proof {
            assert forall|j: int| 0 <= j < i + 1 implies !names_match(#[trigger] es[j].name, target@) by {
                if j < i {
                    assert(!has_match_before(es, target@, i as int));
                }
            }
        }
        i = i + 1;
    }
    Err(LocateError::NotFound)
}

/// Where a file lies in the volume image: its size in bytes from the start
/// of its start cluster. `None` when the entry names cluster 0 or 1, which
/// have no place in the data region.
pub fn file_extent(bpb: &Bpb, e: &DirEntry) -> (r: Option<(u64, u32)>)
    requires
        bpb.wf(),
    ensures
        r is Some <==> e.start_cluster >= 2,
        r matches Some(x) ==> x.0 == bpb.spec_cluster_offset(e.start_cluster as int) && x.1
            == e.size,
{
    if e.start_cluster < 2 {
        return None;
    }
    Some((bpb.cluster_offset(e.start_cluster), e.size))
}

/// The parameter block as `{:?}` shows it, after `BPB: `.
pub open spec fn spec_bpb_line(b: Bpb) -> Seq<char> {
    "BPB: Bpb { bytes_per_sector: "@ + decimal(b.bytes_per_sector as nat)
        + ", sectors_per_cluster: "@ + decimal(b.sectors_per_cluster as nat)
        + ", reserved_sectors: "@ + decimal(b.reserved_sectors as nat) + ", num_fats: "@
        + decimal(b.num_fats as nat) + ", root_entries: "@ + decimal(b.root_entries as nat)
        + ", sectors_per_fat: "@ + decimal(b.sectors_per_fat as nat) + " }"@
}

/// The lines describing a volume's layout: the parameter block, the root
/// directory offset, the data region offset and the cluster size.
pub open spec fn spec_layout_lines(b: Bpb) -> Seq<Seq<char>> {
    seq![
        spec_bpb_line(b),
        "  root dir offset: 0x"@ + hex_upper(b.spec_root_dir_offset() as nat),
        "  data region offset: 0x"@ + hex_upper(b.spec_data_region_offset() as nat),
        "  cluster size: "@ + decimal(b.spec_cluster_size() as nat) + " bytes"@,
    ]
}

/// The listing line of a directory entry: name, attribute, start cluster
/// and size.
pub open spec fn spec_entry_line(e: DirEntryView) -> Seq<char> {
    "  "@ + pad_right(e.name, 14) + "  attr=0x"@ + zero_pad(hex_upper(e.attr as nat), 2)
        + "  cluster="@ + pad_left(decimal(e.start_cluster as nat), 6) + "  size="@ + pad_left(
        decimal(e.size as nat),
        10,
    )
}

/// The directory listing: an empty line, a title, then one line per entry.
pub open spec fn spec_listing(es: Seq<DirEntryView>) -> Seq<Seq<char>> {
    seq![Seq::<char>::empty(), "Root directory entries:"@] + Seq::new(
        es.len(),
        |i: int| spec_entry_line(es[i]),
    )
}

/// The lines announcing the carve: an empty line, then the file's name,
/// size, byte offset and start cluster.
pub open spec fn spec_carving_lines(e: DirEntryView, offset: u64) -> Seq<Seq<char>> {
    seq![
        Seq::<char>::empty(),
        "Carving "@ + e.name + " ("@ + decimal(e.size as nat) + " bytes) from offset 0x"@
            + hex_upper(offset as nat) + " (cluster "@ + decimal(e.start_cluster as nat) + ")"@,
    ]
}

fn line_from(out: &Vec<char>) -> (s: String)
    ensures
        s@ == out@,
{
    string_from_chars(out.as_slice())
}

fn push_dec(out: &mut Vec<char>, v: u64)
    ensures
        final(out)@ == old(out)@ + decimal(v as nat),
{
    push_dec_right(out, v, 0);
    assert(pad_left(decimal(v as nat), 0) =~= decimal(v as nat));
}

fn push_hex_plain(out: &mut Vec<char>, v: u64)
    ensures
        final(out)@ == old(out)@ + hex_upper(v as nat),
{
    push_hex(out, v, 0);
    assert(zero_pad(hex_upper(v as nat), 0) =~= hex_upper(v as nat));
}

/// The lines describing the volume layout read from the boot sector.
pub fn layout_lines(b: &Bpb) -> (lines: Vec<String>)
    requires
        b.wf(),
    ensures
        texts(lines@) == spec_layout_lines(*b),
{
    let mut l0: Vec<char> = Vec::new();
    push_str(&mut l0, "BPB: Bpb { bytes_per_sector: ");
    push_dec(&mut l0, b.bytes_per_sector as u64);
    push_str(&mut l0, ", sectors_per_cluster: ");
    push_dec(&mut l0, b.sectors_per_cluster as u64);
    push_str(&mut l0, ", reserved_sectors: ");
    push_dec(&mut l0, b.reserved_sectors as u64);
    push_str(&mut l0, ", num_fats: ");
    push_dec(&mut l0, b.num_fats as u64);
    push_str(&mut l0, ", root_entries: ");
    push_dec(&mut l0, b.root_entries as u64);
    push_str(&mut l0, ", sectors_per_fat: ");
    push_dec(&mut l0, b.sectors_per_fat as u64);
    push_str(&mut l0, " }");
    let mut l1: Vec<char> = Vec::new();
    push_str(&mut l1, "  root dir offset: 0x");
    push_hex_plain(&mut l1, b.root_dir_offset());
    let mut l2: Vec<char> = Vec::new();
    push_str(&mut l2, "  data region offset: 0x");
    push_hex_plain(&mut l2, b.data_region_offset());
    let mut l3: Vec<char> = Vec::new();
    push_str(&mut l3, "  cluster size: ");
    push_dec(&mut l3, b.cluster_size());
    push_str(&mut l3, " bytes");
    let mut lines: Vec<String> = Vec::new();
    lines.push(line_from(&l0));
    lines.push(line_from(&l1));
    lines.push(line_from(&l2));
    lines.push(line_from(&l3));
    assert(texts(lines@) =~= spec_layout_lines(*b));
    lines
}

/// The listing line of one directory entry.
pub fn entry_line(e: &DirEntry) -> (s: String)
    ensures
        s@ == spec_entry_line(e@),
{
    let mut out: Vec<char> = Vec::new();
    push_str(&mut out, "  ");
    let mut name: Vec<char> = Vec::new();
    push_str(&mut name, e.name.as_str());
    push_padded_right(&mut out, name.as_slice(), 14);
    push_str(&mut out, "  attr=0x");
    push_hex(&mut out, e.attr as u64, 2);
    push_str(&mut out, "  cluster=");
    push_dec_right(&mut out, e.start_cluster as u64, 6);
    push_str(&mut out, "  size=");
    push_dec_right(&mut out, e.size as u64, 10);
    assert(out@ =~= spec_entry_line(e@));
    line_from(&out)
}

/// The listing of the root directory's entries.
pub fn listing_lines(entries: &[DirEntry]) -> (lines: Vec<String>)
    ensures
        texts(lines@) == spec_listing(views(entries@)),
{
    let ghost want = spec_listing(views(entries@));
    let mut lines: Vec<String> = Vec::new();
    let empty: Vec<char> = Vec::new();
    lines.push(line_from(&empty));
    let mut t: Vec<char> = Vec::new();
    push_str(&mut t, "Root directory entries:");
    lines.push(line_from(&t));
    assert(texts(lines@) =~= want.take(2));
    let mut i: usize = 0;
    while i < entries.len()
        invariant
            i <= entries@.len(),
            want == spec_listing(views(entries@)),
            texts(lines@) == want.take(i + 2),
        decreases entries@.len() - i,
    {
        let s = entry_line(&entries[i]);
        let ghost before = texts(lines@);
        lines.push(s);
        assert(texts(lines@) =~= before.push(s@));
        assert(want.take(i + 3) =~= want.take(i + 2).push(want[i + 2]));
        i = i + 1;
    }
    assert(texts(lines@) =~= want);
    lines
}

/// The lines announcing the carve of `e` from byte `offset`.
pub fn carving_lines(e: &DirEntry, offset: u64) -> (lines: Vec<String>)
    ensures
        texts(lines@) == spec_carving_lines(e@, offset),
{
    let mut out: Vec<char> = Vec::new();
    push_str(&mut out, "Carving ");
    push_str(&mut out, e.name.as_str());
    push_str(&mut out, " (");
    push_dec(&mut out, e.size as u64);
    push_str(&mut out, " bytes) from offset 0x");
    push_hex_plain(&mut out, offset);
    push_str(&mut out, " (cluster ");
    push_dec(&mut out, e.start_cluster as u64);
    push_str(&mut out, ")");
    let empty: Vec<char> = Vec::new();
    let mut lines: Vec<String> = Vec::new();
    lines.push(line_from(&empty));
    lines.push(line_from(&out));
    assert(texts(lines@) =~= spec_carving_lines(e@, offset));
    lines
}

} // verus!
