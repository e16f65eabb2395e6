use lib::find::parse_pattern;
use lib::hexview::{hex_ascii, hex_line, hex_pair_lines, hex_row, hex_rows, peek_report, slice};
use lib::inspect::{
    field_block, inspect_report, label_column, label_for, label_from_stem, InspectError, Loaded,
};
use lib::text::ascii_or_dot;

fn ref_hex_ascii(buf: &[u8]) -> String {
    let h: String = buf.iter().map(|b| format!("{:02X} ", b)).collect();
    let a: String = buf.iter().map(|&b| ascii_or_dot(b)).collect();
    format!("{:<48}  \"{}\"", h.trim_end(), a)
}

#[test]
fn printable_ascii_or_dot() {
    assert_eq!(ascii_or_dot(b'A'), 'A');
    assert_eq!(ascii_or_dot(b' '), ' ');
    assert_eq!(ascii_or_dot(b'~'), '~');
    assert_eq!(ascii_or_dot(0x7F), '.');
    assert_eq!(ascii_or_dot(0x1F), '.');
    assert_eq!(ascii_or_dot(0xC3), '.');
}

#[test]
fn hex_and_ascii_of_a_range() {
    assert_eq!(hex_ascii(&[0x41, 0x42, 0x00]), format!("{:<48}  \"AB.\"", "41 42 00"));
    assert_eq!(hex_ascii(&[]), format!("{:<48}  \"\"", ""));
    let long: Vec<u8> = (0..24u8).collect();
    assert_eq!(hex_ascii(&long), ref_hex_ascii(&long));
    assert!(hex_ascii(&long).starts_with("00 01 02"));
}

#[test]
fn slices_inside_only() {
    let b = [1u8, 2, 3, 4];
    assert_eq!(slice(&b, 1, 2), Some(&b[1..3]));
    assert_eq!(slice(&b, 2, 2), Some(&b[2..4]));
    assert_eq!(slice(&b, 3, 2), None);
    assert_eq!(slice(&b, 4, 0), Some(&b[4..4]));
    assert_eq!(slice(&b, 5, 0), None);
}

#[test]
fn dump_rows() {
    assert_eq!(hex_row(b"hi", 0x10), format!("  00000010  {:<48}  hi", "68 69"));
    let data: Vec<u8> = (0..20u8).map(|i| i + 0x30).collect();
    let rows = hex_rows(&data, 0x61000);
    assert_eq!(rows.len(), 2);
    assert_eq!(rows[0], hex_row(&data[..16], 0x61000));
    assert_eq!(rows[1], hex_row(&data[16..], 0x61010));
    assert_eq!(rows[1], format!("  00061010  {:<48}  @ABC", "40 41 42 43"));
    assert!(hex_rows(&[], 5).is_empty());
    assert_eq!(hex_rows(&[0xAB; 16], 0x1_0000_0000)[0], format!("  100000000  {:<48}  {}", ["AB"; 16].join(" "), "................"));
}

#[test]
fn highlighted_lines() {
    let s = hex_line(&[0x41, 0x42, 0x43], 9, 10, 11);
    assert_eq!(s, format!("{:<64}  ABC", " 41 [42] 43 "));
    let lines = hex_pair_lines(&[0x30; 17], &[0x31; 17], 2, 5, 6);
    assert_eq!(lines.len(), 4);
    assert!(lines[0].starts_with("  A 00000002   30  30  30 [30]"));
    assert!(lines[1].starts_with("  B 00000002   31  31  31 [31]"));
    assert!(lines[2].starts_with("  A 00000012   30 "));
    assert!(lines[3].ends_with("  1"));
}

#[test]
fn labels_from_paths() {
    assert_eq!(label_for("dumps/BKP.KKD"), "BKP");
    assert_eq!(label_for("WP1.KKD"), "WP1");
    assert_eq!(label_for("archive.tar.gz"), "archive.tar");
    assert_eq!(label_for(".hidden"), ".hidden");
    assert_eq!(label_for(""), "?");
    assert_eq!(label_for(".."), "?");
    assert_eq!(label_for("/"), "?");
    assert_eq!(label_for("dumps/.."), "?");
    assert_eq!(label_for("a."), "a");
    assert_eq!(label_for("..."), "..");
    assert_eq!(label_for("/abs/dir/C.KKD"), "C");
    assert_eq!(label_from_stem(None), "?");
    assert_eq!(label_from_stem(Some("X".to_string())), "X");
}

fn files() -> Vec<Loaded> {
    let mut a = vec![0u8; 0x900];
    a[..8].copy_from_slice(b"SHOWDATA");
    a[0x100..0x10C].copy_from_slice(b"KINGKONG1024");
    vec![
        Loaded { label: "BKP".to_string(), bytes: a },
        Loaded { label: "WP10".to_string(), bytes: vec![0x41; 0x10] },
    ]
}

#[test]
fn label_column_is_the_longest_label() {
    assert_eq!(label_column(&files()), 4);
    assert_eq!(label_column(&[]), 3);
    let wide = vec![Loaded { label: "é".to_string(), bytes: vec![] }];
    assert_eq!(label_column(&wide), 2);
}

#[test]
fn field_probe_lines() {
    let fs = files();
    let lines = field_block(&fs, "SHOWDATA header + show-name", 0, 0x1E);
    assert_eq!(lines[0], "── SHOWDATA header + show-name  @ 0x0  (30 B) ──");
    assert_eq!(lines[1], format!("  {:<4}  {}", "BKP", ref_hex_ascii(&fs[0].bytes[..0x1E])));
    assert_eq!(lines[2], "  WP10  (out of range — file size 0x10)");
    assert_eq!(lines[3], "");
    assert_eq!(lines.len(), 4);
}

#[test]
fn inspection_report() {
    let fs = files();
    let lines = inspect_report(&fs).unwrap();
    assert_eq!(lines[0], "=== file sizes & trailer offset ===");
    assert_eq!(
        lines[1],
        format!("  BKP   size=0x900 (2304)  trailer@0x100  {}", ref_hex_ascii(&fs[0].bytes[0x100..0x118]))
    );
    assert_eq!(lines[2], "  WP10  size=0x10 (16)  trailer@0x0  (file too small)");
    assert_eq!(lines[3], "");
    assert_eq!(lines[4], "── SHOWDATA header + show-name  @ 0x0  (30 B) ──");
    assert_eq!(lines.len(), 4 + 8 * 4);
    assert_eq!(lines[4 + 7 * 4], "── Personality slot 0 name @ 0x61000  @ 0x61000  (16 B) ──");
    assert_eq!(lines[4 + 6 * 4], "── Fixture→DMX patch table @ 0x60878  @ 0x60878  (32 B) ──");
}

#[test]
fn hex_text_reads_back_as_a_pattern() {
    for bytes in [vec![0x00u8], vec![0x4B, 0x49, 0x4E, 0x47], (0..16u8).map(|i| i * 17).collect::<Vec<u8>>()] {
        let shown = hex_ascii(&bytes);
        let hex = shown[..48].trim_end();
        assert_eq!(parse_pattern(hex), Ok(bytes.clone()));
        let row = hex_row(&bytes, 0);
        assert_eq!(parse_pattern(row[12..60].trim_end()), Ok(bytes));
    }
}

#[test]
fn inspect_needs_a_file() {
    assert_eq!(inspect_report(&[]), Err(InspectError::NoFiles));
}

#[test]
fn peek_notes_a_short_read() {
    let data = [0x41u8; 20];
    let lines = peek_report(&data, 0x100, 64);
    assert_eq!(lines.len(), 3);
    assert_eq!(lines[0], hex_row(&data[..16], 0x100));
    assert_eq!(lines[1], hex_row(&data[16..], 0x110));
    assert_eq!(lines[2], "(EOF after 20 bytes; requested 64)");
    let lines = peek_report(&data, 0, 20);
    assert_eq!(lines, hex_rows(&data, 0));
    assert_eq!(peek_report(&[], 7, 3), vec!["(EOF after 0 bytes; requested 3)".to_string()]);
}

#[test]
fn pair_lines_near_the_top_of_the_address_range() {
    let lines = hex_pair_lines(&[0x30], &[0x31], usize::MAX - 3, usize::MAX - 3, usize::MAX - 2);
    assert_eq!(lines.len(), 2);
    assert!(lines[0].starts_with(&format!("  A {:08X}  [30]", usize::MAX - 3)));
}
