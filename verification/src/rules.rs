//! Properties that pin down what single operations compute, stated from
//! their inputs: the cluster geometry, the bracketing of a run's bytes, hex
//! digits in either case, the field probes against their titles, and which
//! drives a dump accepts.

use vstd::prelude::*;
use crate::bpb::Bpb;
use crate::bpb::le16;
use crate::carve::ascii_lower;
use crate::drive::DriveError;
use crate::drive::spec_dump_target;
use crate::drive::spec_drive_letter;
use crate::num::IntError;
use crate::num::digit_value;
use crate::num::digits_of;
use crate::num::scan_digits;
use crate::num::spec_parse_uint;
use crate::hexview::hl_cells;
use crate::hexview::hl_cell;
use crate::text::hex_byte;
use crate::text::hex_upper;
use crate::text::hex_digit;
use crate::inspect::probes;
use crate::bpb::has_boot_signature;
use crate::dir::is_listed;
use crate::dir::spec_entry;
use crate::carve::names_match;
use crate::find::occurs_at;
use crate::find::occurrences;
use crate::find::occurrences_before;

verus! {

/// A cluster is `sectors_per_cluster` sectors of `bytes_per_sector` bytes,
/// and cluster `c` starts `c - 2` such clusters after the data region,
/// which follows the reserved sectors, the FATs and the 32-byte root
/// entries.
pub proof fn law_cluster_geometry(b: Bpb, c: int)
    requires
        b.wf(),
        c >= 2,
    ensures
        b.spec_cluster_size() == b.bytes_per_sector * b.sectors_per_cluster,
        b.spec_cluster_offset(c) == (b.reserved_sectors + b.num_fats * b.sectors_per_fat)
            * b.bytes_per_sector + 32 * b.root_entries + (c - 2) * (b.bytes_per_sector
            * b.sectors_per_cluster),
{
}

/// The value of each hexadecimal digit: `0`-`9` are 0 to 9, and `a`-`f` and
/// `A`-`F` are both 10 to 15; no other character is a hex digit.
pub proof fn law_hex_digit_values(c: char)
    ensures
        '0' <= c <= '9' ==> digit_value(c, 16) == Some(c as int - '0' as int),
        'a' <= c <= 'f' ==> digit_value(c, 16) == Some(c as int - 'a' as int + 10),
        'A' <= c <= 'F' ==> digit_value(c, 16) == Some(c as int - 'A' as int + 10),
        !('0' <= c <= '9' || 'a' <= c <= 'f' || 'A' <= c <= 'F') ==> digit_value(c, 16) is None,
        '0' <= c <= '9' ==> digit_value(c, 10) == Some(c as int - '0' as int),
        !('0' <= c <= '9') ==> digit_value(c, 10) is None,
{
}

proof fn lemma_digit_ignores_case(c: char)
    ensures
        digit_value(ascii_lower(c), 16) == digit_value(c, 16),
{
}

proof fn lemma_scan_ignores_case(ds: Seq<char>, acc: int, max: int)
    ensures
        scan_digits(ds.map_values(|c: char| ascii_lower(c)), acc, 16, max) == scan_digits(
            ds,
            acc,
            16,
            max,
        ),
    decreases ds.len(),
{
    let l = ds.map_values(|c: char| ascii_lower(c));
    if ds.len() > 0 {
        lemma_digit_ignores_case(ds[0]);
        assert(l[0] == ascii_lower(ds[0]));
        assert(l.drop_first() =~= ds.drop_first().map_values(|c: char| ascii_lower(c)));
        if let Some(d) = digit_value(ds[0], 16) {
            lemma_scan_ignores_case(ds.drop_first(), acc * 16 + d, max);
        }
    }
}

/// Hex numbers are read without regard to case: a token and the same token
/// with its ASCII letters in lower case read alike, value or error.
pub proof fn law_hex_parse_ignores_case(tok: Seq<char>, max: int)
    ensures
        spec_parse_uint(tok.map_values(|c: char| ascii_lower(c)), 16, max) == spec_parse_uint(
            tok,
            16,
            max,
        ),
{
    let l = tok.map_values(|c: char| ascii_lower(c));
    if tok.len() > 0 {
        assert(l[0] == ascii_lower(tok[0]));
        if tok.len() > 1 && tok[0] == '+' {
            assert(digits_of(l) =~= digits_of(tok).map_values(|c: char| ascii_lower(c)));
        } else {
            assert(digits_of(l) =~= digits_of(tok).map_values(|c: char| ascii_lower(c)));
        }
        lemma_scan_ignores_case(digits_of(tok), 0, max);
    }
}

/// Only drive C is refused: an argument naming any other drive is accepted
/// as that drive, one naming C is refused as the system drive, and one
/// naming no drive is refused as such.
pub proof fn law_only_drive_c_is_refused(s: Seq<char>)
    ensures
        spec_dump_target(s) == Err::<char, DriveError>(DriveError::SystemDrive) <==> spec_drive_letter(
            s,
        ) == Some('C'),
        spec_drive_letter(s) is Some && spec_drive_letter(s)->0 != 'C' ==> spec_dump_target(s)
            == Ok::<char, DriveError>(spec_drive_letter(s)->0),
        spec_drive_letter(s) is None ==> spec_dump_target(s) == Err::<char, DriveError>(
            DriveError::NotADriveLetter,
        ),
{
}

/// A single ASCII letter names its drive, in upper case, whatever its case
/// and with or without a trailing `:` or backslash.
pub proof fn law_drive_letter_forms(c: char)
    requires
        'A' <= c <= 'Z',
    ensures
        spec_drive_letter(seq![c]) == Some(c),
        spec_drive_letter(seq![c, ':']) == Some(c),
        spec_drive_letter(seq![c, '\\']) == Some(c),
        spec_drive_letter(seq![((c as u32) + 32) as char]) == Some(c),
        spec_drive_letter(seq![((c as u32) + 32) as char, ':']) == Some(c),
{
    let l = ((c as u32) + 32) as char;
    assert(seq![c, ':'].drop_last() =~= seq![c]);
    assert(seq![c, '\\'].drop_last() =~= seq![c]);
    assert(seq![l, ':'].drop_last() =~= seq![l]);
    assert(crate::drive::strip_end(seq![c], ':') == seq![c]);
    assert(crate::drive::strip_end(seq![c], '\\') == seq![c]);
    assert(crate::drive::strip_end(seq![l], ':') == seq![l]);
    assert(crate::drive::strip_end(seq![l], '\\') == seq![l]);
    assert(crate::drive::strip_end(seq![c, ':'], ':') == seq![c]);
    assert(crate::drive::strip_end(seq![l, ':'], ':') == seq![l]);
    assert(crate::drive::strip_end(seq![c, '\\'], ':') == seq![c, '\\']);
    assert(crate::drive::strip_end(seq![c, '\\'], '\\') == seq![c]);
}

/// Only a single ASCII letter names a drive: an empty argument, any other
/// single character and two letters name none.
pub proof fn law_non_letters_name_no_drive(c: char, d: char)
    requires
        !('A' <= c <= 'Z' || 'a' <= c <= 'z'),
        c != ':' && c != '\\',
    ensures
        spec_drive_letter(Seq::<char>::empty()) is None,
        spec_drive_letter(seq![c]) is None,
        ('A' <= d <= 'Z' || 'a' <= d <= 'z') ==> spec_drive_letter(seq![d, d]) is None,
{
    assert(crate::drive::strip_end(Seq::<char>::empty(), ':') == Seq::<char>::empty());
    assert(crate::drive::strip_end(Seq::<char>::empty(), '\\') == Seq::<char>::empty());
    assert(crate::drive::strip_end(seq![c], ':') == seq![c]);
    assert(crate::drive::strip_end(seq![c], '\\') == seq![c]);
    if 'A' <= d <= 'Z' || 'a' <= d <= 'z' {
        assert(crate::drive::strip_end(seq![d, d], ':') == seq![d, d]);
        assert(crate::drive::strip_end(seq![d, d], '\\') == seq![d, d]);
    }
}

proof fn lemma_hex_byte_len(b: u8)
    ensures
        hex_byte(b).len() == 2,
{
    crate::text::lemma_hex_upper_len(b as nat);
}

/// The four characters shown for byte `b` at offset `off` of a diff line:
/// bracketed when the offset lies in `[hl_start, hl_end)`, between spaces
/// otherwise.
pub open spec fn shown_cell(b: u8, off: int, hl_start: int, hl_end: int) -> Seq<char> {
    if hl_start <= off && off < hl_end {
        seq!['['] + hex_byte(b) + seq![']']
    } else {
        seq![' '] + hex_byte(b) + seq![' ']
    }
}

proof fn lemma_hl_cell(b: u8, off: int, hl_start: int, hl_end: int)
    ensures
        hl_cell(b, off, hl_start, hl_end) == shown_cell(b, off, hl_start, hl_end),
{
    reveal_strlit("[");
    reveal_strlit("]");
    reveal_strlit(" ");
    assert("["@ =~= seq!['[']);
    assert("]"@ =~= seq![']']);
    assert(" "@ =~= seq![' ']);
}

/// In a diff line every byte takes four columns, and every byte whose
/// offset lies in the highlighted run is bracketed, every other byte is set
/// between spaces: byte `i` of a line starting at offset `base` is shown as
/// `[XX]` exactly when `hl_start <= base + i < hl_end`.
pub proof fn law_run_bytes_are_bracketed(bytes: Seq<u8>, base: int, hl_start: int, hl_end: int)
    ensures
        hl_cells(bytes, base, hl_start, hl_end).len() == 4 * bytes.len(),
        forall|i: int|
            0 <= i < bytes.len() ==> #[trigger] hl_cells(bytes, base, hl_start, hl_end).subrange(
                4 * i,
                4 * i + 4,
            ) == shown_cell(bytes[i], base + i, hl_start, hl_end),
    decreases bytes.len(),
{
    if bytes.len() > 0 {
        let p = bytes.drop_last();
        let n = bytes.len() - 1;
        law_run_bytes_are_bracketed(p, base, hl_start, hl_end);
        lemma_hl_cell(bytes.last(), base + n, hl_start, hl_end);
        lemma_hex_byte_len(bytes.last());
        let hp = hl_cells(p, base, hl_start, hl_end);
        let last = hl_cell(bytes.last(), base + n, hl_start, hl_end);
        let all = hl_cells(bytes, base, hl_start, hl_end);
        assert(all == hp + last);
        assert(last.len() == 4);
        assert forall|i: int| 0 <= i < bytes.len() implies #[trigger] all.subrange(4 * i, 4 * i + 4)
            == shown_cell(bytes[i], base + i, hl_start, hl_end) by {
            if i < n {
                assert(all.subrange(4 * i, 4 * i + 4) =~= hp.subrange(4 * i, 4 * i + 4));
                assert(p[i] == bytes[i]);
            } else {
                assert(all.subrange(4 * i, 4 * i + 4) =~= last);
            }
        }
    }
}

/// The title `t` names offset `off`: it ends with `0x` and the offset's
/// upper-case hex digits, possibly followed by `)`.
pub open spec fn title_names_offset(t: Seq<char>, off: int) -> bool {
    let h = seq!['0', 'x'] + hex_upper(off as nat);
    ||| t.len() >= h.len() && t.subrange(t.len() - h.len(), t.len() as int) == h
    ||| t.len() >= h.len() + 1 && t.subrange(t.len() - h.len() - 1, t.len() as int) == h + seq![
        ')',
    ]
}

proof fn lemma_ends_with(t: Seq<char>, h: Seq<char>, off: int)
    requires
        h == seq!['0', 'x'] + hex_upper(off as nat),
        t.len() >= h.len(),
        forall|i: int| 0 <= i < h.len() ==> t[t.len() - h.len() + i] == #[trigger] h[i],
    ensures
        title_names_offset(t, off),
{
    assert(t.subrange(t.len() - h.len(), t.len() as int) =~= h);
}

/// Every field probe of the inspection report reads the offset that its
/// title names; the first probe, the file header, reads from offset 0 up to
/// the DMX-address table; the counters mirror is as long as the counters;
/// the four table heads show 32 bytes and the personality name 16.
pub proof fn law_probes_read_the_offsets_their_titles_name()
    ensures
        probes().len() == 8,
        probes()[0].1 == 0,
        probes()[0].2 == probes()[1].1,
        probes()[3].2 == probes()[2].2,
        probes()[1].2 == 32 && probes()[4].2 == 32 && probes()[5].2 == 32 && probes()[6].2 == 32,
        probes()[7].2 == 16,
        forall|k: int| 1 <= k < 8 ==> #[trigger] title_names_offset(probes()[k].0, probes()[k].1),
{
    reveal_strlit("DMX-address table head (0x1E)");
    reveal_strlit("Personality counters @ 0x9C");
    reveal_strlit("Personality counters mirror @ 0x60840");
    reveal_strlit("Sorted fixture_id list head @ 0x498");
    reveal_strlit("Fixture record-pointer table @ 0x4028");
    reveal_strlit("Fixture→DMX patch table @ 0x60878");
    reveal_strlit("Personality slot 0 name @ 0x61000");
    let d = |i: int| hex_digit(i);
    assert(hex_upper(0x1) =~= seq![d(1)]);
    assert(hex_upper(0x1E) =~= seq![d(1), d(14)]);
    assert(hex_upper(0x9) =~= seq![d(9)]);
    assert(hex_upper(0x9C) =~= seq![d(9), d(12)]);
    assert(hex_upper(0x6) =~= seq![d(6)]);
    assert(hex_upper(0x60) =~= seq![d(6), d(0)]);
    assert(hex_upper(0x608) =~= seq![d(6), d(0), d(8)]);
    assert(hex_upper(0x6084) =~= seq![d(6), d(0), d(8), d(4)]);
    assert(hex_upper(0x60840) =~= seq![d(6), d(0), d(8), d(4), d(0)]);
    assert(hex_upper(0x4) =~= seq![d(4)]);
    assert(hex_upper(0x49) =~= seq![d(4), d(9)]);
    assert(hex_upper(0x498) =~= seq![d(4), d(9), d(8)]);
    assert(hex_upper(0x40) =~= seq![d(4), d(0)]);
    assert(hex_upper(0x402) =~= seq![d(4), d(0), d(2)]);
    assert(hex_upper(0x4028) =~= seq![d(4), d(0), d(2), d(8)]);
    assert(hex_upper(0x6087) =~= seq![d(6), d(0), d(8), d(7)]);
    assert(hex_upper(0x60878) =~= seq![d(6), d(0), d(8), d(7), d(8)]);
    assert(hex_upper(0x61) =~= seq![d(6), d(1)]);
    assert(hex_upper(0x610) =~= seq![d(6), d(1), d(0)]);
    assert(hex_upper(0x6100) =~= seq![d(6), d(1), d(0), d(0)]);
    assert(hex_upper(0x61000) =~= seq![d(6), d(1), d(0), d(0), d(0)]);
    let p = probes();
    let t1 = p[1].0;
    let h1 = seq!['0', 'x'] + hex_upper(0x1E);
    assert(t1.subrange(t1.len() - h1.len() - 1, t1.len() as int) =~= h1 + seq![')']);
    lemma_ends_with(p[2].0, seq!['0', 'x'] + hex_upper(0x9C), 0x9C);
    lemma_ends_with(p[3].0, seq!['0', 'x'] + hex_upper(0x60840), 0x60840);
    lemma_ends_with(p[4].0, seq!['0', 'x'] + hex_upper(0x498), 0x498);
    lemma_ends_with(p[5].0, seq!['0', 'x'] + hex_upper(0x4028), 0x4028);
    lemma_ends_with(p[6].0, seq!['0', 'x'] + hex_upper(0x60878), 0x60878);
    lemma_ends_with(p[7].0, seq!['0', 'x'] + hex_upper(0x61000), 0x61000);
}

/// A 512-byte boot sector holding the fields of `b` at their FAT16 offsets
/// (little-endian 16-bit fields at 11, 14, 17 and 22; bytes at 13 and 16)
/// and the `0x55 0xAA` signature.
pub open spec fn boot_image(b: Bpb) -> Seq<u8> {
    Seq::new(
        512,
        |i: int|
            if i == 11 {
                (b.bytes_per_sector % 256) as u8
            } else if i == 12 {
                (b.bytes_per_sector / 256) as u8
            } else if i == 13 {
                b.sectors_per_cluster as u8
            } else if i == 14 {
                (b.reserved_sectors % 256) as u8
            } else if i == 15 {
                (b.reserved_sectors / 256) as u8
            } else if i == 16 {
                b.num_fats as u8
            } else if i == 17 {
                (b.root_entries % 256) as u8
            } else if i == 18 {
                (b.root_entries / 256) as u8
            } else if i == 22 {
                (b.sectors_per_fat % 256) as u8
            } else if i == 23 {
                (b.sectors_per_fat / 256) as u8
            } else if i == 510 {
                0x55u8
            } else if i == 511 {
                0xAAu8
            } else {
                0u8
            },
    )
}

/// Reading a boot sector gives back the fields written at the FAT16
/// offsets, and a sector is accepted only with `0x55 0xAA` at bytes 510 and
/// 511.
pub proof fn law_boot_sector_fields(b: Bpb, boot: Seq<u8>)
    requires
        b.wf(),
    ensures
        has_boot_signature(boot_image(b)),
        Bpb::spec_from_boot(boot_image(b)) == b,
        has_boot_signature(boot) ==> boot.len() >= 512 && boot[510] == 0x55 && boot[511] == 0xAA,
{
    let s = boot_image(b);
    assert(s[11] + 256 * s[12] == b.bytes_per_sector);
    assert(s[14] + 256 * s[15] == b.reserved_sectors);
    assert(s[17] + 256 * s[18] == b.root_entries);
    assert(s[22] + 256 * s[23] == b.sectors_per_fat);
}

/// A 32-byte directory record with the given 11 name bytes, attribute,
/// start cluster (high half at 20, low half at 26) and size (at 28).
pub open spec fn record_image(name: Seq<u8>, attr: u8, cluster: u32, size: u32) -> Seq<u8> {
    Seq::new(
        32,
        |i: int|
            if i < 11 {
                name[i]
            } else if i == 11 {
                attr
            } else if i == 20 {
                ((cluster / 0x10000) % 256) as u8
            } else if i == 21 {
                (cluster / 0x1000000) as u8
            } else if i == 26 {
                (cluster % 256) as u8
            } else if i == 27 {
                ((cluster / 256) % 256) as u8
            } else if i == 28 {
                (size % 256) as u8
            } else if i == 29 {
                ((size / 256) % 256) as u8
            } else if i == 30 {
                ((size / 0x10000) % 256) as u8
            } else if i == 31 {
                (size / 0x1000000) as u8
            } else {
                0u8
            },
    )
}

/// Decoding a directory record gives back its attribute, start cluster and
/// size as written at their FAT offsets.
pub proof fn law_record_fields(name: Seq<u8>, attr: u8, cluster: u32, size: u32)
    requires
        name.len() == 11,
    ensures
        spec_entry(record_image(name, attr, cluster, size)).attr == attr,
        spec_entry(record_image(name, attr, cluster, size)).start_cluster == cluster,
        spec_entry(record_image(name, attr, cluster, size)).size == size,
{
    let r = record_image(name, attr, cluster, size);
    assert((cluster / 0x10000) % 256 + 256 * (cluster / 0x1000000) == cluster / 0x10000) by (
    bit_vector);
    assert(cluster % 256 + 256 * ((cluster / 256) % 256) == cluster % 0x10000) by (bit_vector);
    assert((cluster / 0x10000) * 65536 + cluster % 0x10000 == cluster) by (bit_vector);
    assert(size % 256 + 256 * ((size / 256) % 256) == size % 0x10000) by (bit_vector);
    assert((size / 0x10000) % 256 + 256 * (size / 0x1000000) == size / 0x10000) by (bit_vector);
    assert(size % 0x10000 + 65536 * (size / 0x10000) == size) by (bit_vector);
    assert(le16(r, 20) == cluster / 0x10000);
    assert(le16(r, 26) == cluster % 0x10000);
    assert(le16(r, 28) == size % 0x10000);
    assert(le16(r, 30) == size / 0x10000);
}

/// Which records are listed: a deleted record (first byte `0xE5`), a
/// long-name fragment (attribute `0x0F`) and a bare volume label (attribute
/// `0x08`) are not; an ordinary file (attribute `0x00` or `0x20`) and a
/// directory (`0x10`) whose first byte is neither `0x00` nor `0xE5` are.
pub proof fn law_listed_records(c: Seq<u8>)
    requires
        c.len() == 32,
    ensures
        c[0] == 0xE5 ==> !is_listed(c),
        c[11] == 0x0F ==> !is_listed(c),
        c[11] == 0x08 ==> !is_listed(c),
        c[0] != 0xE5 && (c[11] == 0x00 || c[11] == 0x20 || c[11] == 0x10) ==> is_listed(c),
{
    let a = c[11];
    assert(a == 0x08 ==> (a & 0x08 != 0 && a & 0x10 == 0)) by (bit_vector);
    assert((a == 0x00 || a == 0x20 || a == 0x10) ==> !(a & 0x08 != 0 && a & 0x10 == 0)) by (
    bit_vector);
}

/// File names are compared ignoring ASCII case only: an upper-case ASCII
/// letter matches its lower-case form, and two different characters that are
/// not ASCII letters never match.
pub proof fn law_name_case(c: char, d: char)
    ensures
        'A' <= c <= 'Z' ==> names_match(seq![c], seq![((c as u32) + 32) as char]),
        !('A' <= c <= 'Z' || 'a' <= c <= 'z') && !('A' <= d <= 'Z' || 'a' <= d <= 'z') && c != d
            ==> !names_match(seq![c], seq![d]),
{
    if !('A' <= c <= 'Z' || 'a' <= c <= 'z') && !('A' <= d <= 'Z' || 'a' <= d <= 'z') && c != d {
        assert(seq![c][0] == c && seq![d][0] == d);
    }
}

proof fn lemma_occurrences_before(data: Seq<u8>, pat: Seq<u8>, k: int)
    requires
        0 <= k <= usize::MAX + 1,
    ensures
        forall|x: int|
            0 <= x < occurrences_before(data, pat, k).len() ==> (#[trigger] occurrences_before(
                data,
                pat,
                k,
            )[x] as int) < k && occurs_at(data, pat, occurrences_before(data, pat, k)[x] as int),
        forall|i: int|
            0 <= i < k && #[trigger] occurs_at(data, pat, i) ==> exists|x: int|
                0 <= x < occurrences_before(data, pat, k).len() && occurrences_before(
                    data,
                    pat,
                    k,
                )[x] as int == i,
        forall|x: int, y: int|
            0 <= x < y < occurrences_before(data, pat, k).len() ==> occurrences_before(
                data,
                pat,
                k,
            )[x] < occurrences_before(data, pat, k)[y],
    decreases k,
{
    if k > 0 {
        lemma_occurrences_before(data, pat, k - 1);
        let prev = occurrences_before(data, pat, k - 1);
        let cur = occurrences_before(data, pat, k);
        if occurs_at(data, pat, k - 1) {
            assert(cur == prev.push((k - 1) as usize));
            assert forall|i: int| 0 <= i < k && #[trigger] occurs_at(data, pat, i) implies exists|
                x: int,
            | 0 <= x < cur.len() && cur[x] as int == i by {
                if i < k - 1 {
                    let x = choose|x: int| 0 <= x < prev.len() && prev[x] as int == i;
                    assert(cur[x] == prev[x]);
                } else {
                    assert(cur[prev.len() as int] as int == i);
                }
            }
        }
    }
}

/// A search reports exactly the offsets where every byte of the pattern
/// equals the data byte at the same distance, each once, in ascending
/// order.
pub proof fn law_hits_are_exactly_the_matches(data: Seq<u8>, pat: Seq<u8>, i: int)
    requires
        0 <= i <= usize::MAX,
        data.len() <= usize::MAX,
    ensures
        occurrences(data, pat).contains(i as usize) <==> (i + pat.len() <= data.len() && forall|
            j: int,
        |
            0 <= j < pat.len() ==> #[trigger] data[i + j] == pat[j]),
        forall|x: int, y: int|
            0 <= x < y < occurrences(data, pat).len() ==> occurrences(data, pat)[x] < occurrences(
                data,
                pat,
            )[y],
{
    lemma_occurrences_before(data, pat, data.len() as int + 1);
    let occ = occurrences(data, pat);
    if i + pat.len() <= data.len() && (forall|j: int| 0 <= j < pat.len() ==> #[trigger] data[i + j]
        == pat[j]) {
        assert forall|j: int| 0 <= j < pat.len() implies data.subrange(i, i + pat.len() as int)[j]
            == pat[j] by {
            assert(data[i + j] == pat[j]);
        }
        assert(data.subrange(i, i + pat.len() as int) =~= pat);
        assert(occurs_at(data, pat, i));
        let x = choose|x: int| 0 <= x < occ.len() && occ[x] as int == i;
        assert(occ[x] == i as usize);
    }
    if occ.contains(i as usize) {
        let x = choose|x: int| 0 <= x < occ.len() && occ[x] == i as usize;
        assert(occ[x] as int == i);
        assert(occurs_at(data, pat, i));
        assert forall|j: int| 0 <= j < pat.len() implies #[trigger] data[i + j] == pat[j] by {
            assert(data.subrange(i, i + pat.len() as int)[j] == data[i + j]);
        }
    }
}

} // verus!
