use lib::bpb::{BootError, Bpb};
use lib::carve::{carving_lines, entry_line, file_extent, layout_lines, listing_lines, locate_entry, LocateError};
use lib::dir::{entry_from_chunk, parse_dir_entries, short_name, trimmed_len, DirEntry};
use lib::hexview::slice;

fn boot_sector() -> Vec<u8> {
    let mut b = vec![0u8; 512];
    b[11..13].copy_from_slice(&512u16.to_le_bytes());
    b[13] = 4;
    b[14..16].copy_from_slice(&1u16.to_le_bytes());
    b[16] = 2;
    b[17..19].copy_from_slice(&512u16.to_le_bytes());
    b[22..24].copy_from_slice(&200u16.to_le_bytes());
    b[510] = 0x55;
    b[511] = 0xAA;
    b
}

fn record(name: &[u8; 11], attr: u8, cluster: u32, size: u32) -> [u8; 32] {
    let mut r = [0u8; 32];
    r[0..11].copy_from_slice(name);
    r[11] = attr;
    r[20..22].copy_from_slice(&((cluster >> 16) as u16).to_le_bytes());
    r[26..28].copy_from_slice(&(cluster as u16).to_le_bytes());
    r[28..32].copy_from_slice(&size.to_le_bytes());
    r
}

#[test]
fn parses_boot_sector_fields() {
    let bpb = Bpb::parse(&boot_sector()).unwrap();
    assert_eq!(bpb.bytes_per_sector, 512);
    assert_eq!(bpb.sectors_per_cluster, 4);
    assert_eq!(bpb.reserved_sectors, 1);
    assert_eq!(bpb.num_fats, 2);
    assert_eq!(bpb.root_entries, 512);
    assert_eq!(bpb.sectors_per_fat, 200);
    assert_eq!(
        format!("{bpb:?}"),
        "Bpb { bytes_per_sector: 512, sectors_per_cluster: 4, reserved_sectors: 1, num_fats: 2, root_entries: 512, sectors_per_fat: 200 }"
    );
}

#[test]
fn layout_offsets() {
    let bpb = Bpb::parse(&boot_sector()).unwrap();
    assert_eq!(bpb.root_dir_offset(), (1 + 2 * 200) * 512);
    assert_eq!(bpb.root_dir_bytes(), 512 * 32);
    assert_eq!(bpb.data_region_offset(), 205_312 + 16_384);
    assert_eq!(bpb.cluster_size(), 2048);
    assert_eq!(bpb.cluster_offset(2), 221_696);
    assert_eq!(bpb.cluster_offset(5), 221_696 + 3 * 2048);
}

#[test]
fn first_cluster_is_data_region_and_clusters_are_contiguous() {
    let bpb = Bpb::parse(&boot_sector()).unwrap();
    assert_eq!(bpb.cluster_offset(2), bpb.data_region_offset());
    for c in 2u32..50 {
        assert_eq!(bpb.cluster_offset(c + 1), bpb.cluster_offset(c) + bpb.cluster_size());
    }
    assert_eq!(bpb.data_region_offset(), bpb.root_dir_offset() + bpb.root_dir_bytes());
}

#[test]
fn refuses_missing_signature() {
    let mut b = boot_sector();
    b[511] = 0;
    assert_eq!(Bpb::parse(&b), Err(BootError::MissingSignature));
    let mut b = boot_sector();
    b[510] = 0xAA;
    assert_eq!(Bpb::parse(&b), Err(BootError::MissingSignature));
    assert_eq!(Bpb::parse(&[0u8; 10]), Err(BootError::MissingSignature));
    assert_eq!(Bpb::parse(&[]), Err(BootError::MissingSignature));
}

#[test]
fn decodes_a_record() {
    let r = record(b"C       KKD", 0x20, 0x0001_0003, 1_433_088);
    let e = entry_from_chunk(&r);
    assert_eq!(e.name, "C.KKD");
    assert_eq!(e.start_cluster, 0x0001_0003);
    assert_eq!(e.size, 1_433_088);
    assert_eq!(e.attr, 0x20);
}

#[test]
fn names_are_trimmed_and_joined() {
    assert_eq!(short_name(&['N', 'O', 'E', 'X', 'T', ' ', ' ', ' '], &[' ', ' ', ' ']), "NOEXT");
    assert_eq!(short_name(&['A', ' ', ' '], &['T', 'X', ' ']), "A.TX");
    assert_eq!(short_name(&['A', '\t', '\u{A0}'], &['\u{3000}']), "A");
    assert_eq!(short_name(&[' ', 'B'], &['X']), " B.X");
    assert_eq!(trimmed_len(&['a', ' ', 'b', ' ', '\n']), 3);
    assert_eq!(trimmed_len(&[]), 0);
}

#[test]
fn invalid_utf8_in_a_name_is_replaced() {
    let mut r = record(b"A       BIN", 0x20, 2, 1);
    r[1] = 0xFF;
    let e = entry_from_chunk(&r);
    assert_eq!(e.name, "A\u{FFFD}.BIN");
}

fn directory() -> Vec<u8> {
    let mut d = Vec::new();
    d.extend_from_slice(&record(b"MINIPEARL  ", 0x08, 0, 0)); // volume label
    d.extend_from_slice(&record(b"\xE5OLD    KKD", 0x20, 9, 100)); // deleted
    d.extend_from_slice(&record(b"Ac\0\0\0\0\0\0\0\0\0", 0x0F, 0, 0)); // long-name fragment
    d.extend_from_slice(&record(b"A       KKD", 0x20, 3, 4096));
    d.extend_from_slice(&record(b"SUB        ", 0x18, 7, 0)); // directory flagged as label too
    d.extend_from_slice(&record(b"C       KKD", 0x20, 5, 3000));
    d.extend_from_slice(&record(b"EMPTY   KKD", 0x20, 8, 0));
    d.extend_from_slice(&[0u8; 32]); // end of directory
    d.extend_from_slice(&record(b"GHOST   KKD", 0x20, 11, 10));
    d
}

#[test]
fn lists_directory_entries() {
    let es = parse_dir_entries(&directory());
    let names: Vec<&str> = es.iter().map(|e| e.name.as_str()).collect();
    assert_eq!(names, ["A.KKD", "SUB", "C.KKD", "EMPTY.KKD"]);
    assert_eq!(es[0].start_cluster, 3);
    assert_eq!(es[1].attr, 0x18);
    assert_eq!(es[2].size, 3000);
}

#[test]
fn entries_after_end_marker_are_ignored() {
    let d = directory();
    let cut = 8 * 32;
    let a = parse_dir_entries(&d[..cut]);
    let b = parse_dir_entries(&d);
    assert_eq!(a.len(), b.len());
    for (x, y) in a.iter().zip(b.iter()) {
        assert_eq!(x.name, y.name);
        assert_eq!(x.start_cluster, y.start_cluster);
    }
}

#[test]
fn trailing_partial_record_is_ignored() {
    let mut d = record(b"A       KKD", 0x20, 3, 1).to_vec();
    d.extend_from_slice(&record(b"B       KKD", 0x20, 4, 1)[..20]);
    let es = parse_dir_entries(&d);
    assert_eq!(es.len(), 1);
    assert!(parse_dir_entries(&[]).is_empty());
}

#[test]
fn locate_ignores_ascii_case() {
    let es = parse_dir_entries(&directory());
    assert_eq!(locate_entry(&es, "C.KKD"), Ok(2));
    assert_eq!(locate_entry(&es, "c.kkd"), Ok(2));
    assert_eq!(locate_entry(&es, "a.Kkd"), Ok(0));
}

#[test]
fn locate_errors() {
    let es = parse_dir_entries(&directory());
    assert_eq!(locate_entry(&es, "B.KKD"), Err(LocateError::NotFound));
    assert_eq!(locate_entry(&es, "GHOST.KKD"), Err(LocateError::NotFound));
    assert_eq!(locate_entry(&es, "EMPTY.KKD"), Err(LocateError::EmptyEntry(3)));
    assert_eq!(locate_entry(&es, "C.KK"), Err(LocateError::NotFound));
    assert_eq!(locate_entry(&[], "C.KKD"), Err(LocateError::NotFound));
}

#[test]
fn locate_takes_the_first_match() {
    let es = vec![
        DirEntry { name: "X.KKD".to_string(), start_cluster: 2, size: 5, attr: 0x20 },
        DirEntry { name: "x.kkd".to_string(), start_cluster: 9, size: 7, attr: 0x20 },
    ];
    assert_eq!(locate_entry(&es, "X.kkd"), Ok(0));
    let es = vec![
        DirEntry { name: "X.KKD".to_string(), start_cluster: 2, size: 0, attr: 0x20 },
        DirEntry { name: "X.KKD".to_string(), start_cluster: 9, size: 7, attr: 0x20 },
    ];
    assert_eq!(locate_entry(&es, "X.KKD"), Err(LocateError::EmptyEntry(0)));
}

#[test]
fn carves_a_contiguous_file_from_an_image() {
    // A tiny volume: 512-byte sectors, 1 sector per cluster, 1 reserved
    // sector, 1 FAT of 1 sector, 16 root entries (one sector).
    let mut img = vec![0u8; 512 * 12];
    img[11..13].copy_from_slice(&512u16.to_le_bytes());
    img[13] = 1;
    img[14..16].copy_from_slice(&1u16.to_le_bytes());
    img[16] = 1;
    img[17..19].copy_from_slice(&16u16.to_le_bytes());
    img[22..24].copy_from_slice(&1u16.to_le_bytes());
    img[510] = 0x55;
    img[511] = 0xAA;
    let root = 2 * 512;
    img[root..root + 32].copy_from_slice(&record(b"C       KKD", 0x20, 4, 700));
    let data = 3 * 512;
    let start = data + 2 * 512;
    for i in 0..700 {
        img[start + i] = (i % 251) as u8;
    }
    let bpb = Bpb::parse(&img[..512]).unwrap();
    let off = bpb.root_dir_offset() as usize;
    let len = bpb.root_dir_bytes() as usize;
    let entries = parse_dir_entries(&img[off..off + len]);
    let i = locate_entry(&entries, "c.kkd").unwrap();
    let e = &entries[i];
    let from = bpb.cluster_offset(e.start_cluster) as usize;
    assert_eq!(from, start);
    assert_eq!(file_extent(&bpb, e), Some((start as u64, 700)));
    let payload = slice(&img, from, e.size as usize).unwrap();
    assert_eq!(payload.len(), 700);
    assert!(payload.iter().enumerate().all(|(i, &b)| b == (i % 251) as u8));
}

#[test]
fn no_extent_below_cluster_two() {
    let bpb = Bpb::parse(&boot_sector()).unwrap();
    for c in [0u32, 1] {
        let e = DirEntry { name: "X".to_string(), start_cluster: c, size: 5, attr: 0x20 };
        assert_eq!(file_extent(&bpb, &e), None);
    }
    let e = DirEntry { name: "X".to_string(), start_cluster: 3, size: 5, attr: 0x20 };
    assert_eq!(file_extent(&bpb, &e), Some((bpb.cluster_offset(3), 5)));
}

#[test]
fn carve_report_lines() {
    let bpb = Bpb::parse(&boot_sector()).unwrap();
    let l = layout_lines(&bpb);
    assert_eq!(l[0], format!("BPB: {bpb:?}"));
    assert_eq!(l[1], format!("  root dir offset: 0x{:X}", bpb.root_dir_offset()));
    assert_eq!(l[2], "  data region offset: 0x36200");
    assert_eq!(l[3], "  cluster size: 2048 bytes");
    assert_eq!(l.len(), 4);
    let e = DirEntry { name: "C.KKD".to_string(), start_cluster: 3, size: 1_433_088, attr: 0x20 };
    assert_eq!(entry_line(&e), "  C.KKD           attr=0x20  cluster=     3  size=   1433088");
    let es = parse_dir_entries(&directory());
    let listing = listing_lines(&es);
    assert_eq!(listing[0], "");
    assert_eq!(listing[1], "Root directory entries:");
    assert_eq!(listing.len(), 2 + es.len());
    assert_eq!(listing[2], format!("  {:<14}  attr=0x{:02X}  cluster={:>6}  size={:>10}", "A.KKD", 0x20, 3, 4096));
    let c = carving_lines(&e, 0x36A00);
    assert_eq!(c, vec!["".to_string(), "Carving C.KKD (1433088 bytes) from offset 0x36A00 (cluster 3)".to_string()]);
}
