use lib::diff::{diff_report, diff_runs, total_diff};
use lib::find::{find_hits, hit_line, hits_line, parse_pattern, PatternError};
use lib::num::IntError;

#[test]
fn identical_files_have_no_runs() {
    let a: Vec<u8> = (0..200u32).map(|i| (i * 7) as u8).collect();
    assert!(diff_runs(&a, &a).is_empty());
    assert!(diff_runs(&[], &[]).is_empty());
}

#[test]
fn single_byte_difference() {
    let a = vec![0u8; 40];
    let mut b = a.clone();
    b[10] = 1;
    assert_eq!(diff_runs(&a, &b), vec![(10, 11)]);
}

#[test]
fn runs_merge_across_at_most_gap_equal_bytes() {
    let a = vec![0u8; 64];
    let mut b = a.clone();
    b[10] = 1;
    b[18] = 1; // seven equal bytes between
    assert_eq!(diff_runs(&a, &b), vec![(10, 19)]);
    let mut c = a.clone();
    c[10] = 1;
    c[19] = 1; // eight equal bytes between
    assert_eq!(diff_runs(&a, &c), vec![(10, 20)]);
    let mut d = a.clone();
    d[10] = 1;
    d[20] = 1; // nine equal bytes between
    assert_eq!(diff_runs(&a, &d), vec![(10, 11), (20, 21)]);
}

#[test]
fn runs_at_both_ends() {
    let a = vec![5u8; 30];
    let mut b = a.clone();
    b[0] = 0;
    b[1] = 0;
    b[29] = 0;
    assert_eq!(diff_runs(&a, &b), vec![(0, 2), (29, 30)]);
    let t = diff_runs(&a, &b);
    assert_eq!(total_diff(&a, &b, &t), 3);
}

#[test]
fn compares_up_to_the_shorter_file() {
    let a = vec![1u8, 2, 3, 4];
    let b = vec![1u8, 9, 3, 4, 5, 6, 7];
    assert_eq!(diff_runs(&a, &b), vec![(1, 2)]);
    assert_eq!(diff_runs(&b, &a), vec![(1, 2)]);
}

#[test]
fn diff_is_symmetric() {
    let a: Vec<u8> = (0..300u32).map(|i| (i % 13) as u8).collect();
    let b: Vec<u8> = (0..280u32).map(|i| if i % 37 == 0 || i % 41 < 3 { 0xEE } else { (i % 13) as u8 }).collect();
    let r1 = diff_runs(&a, &b);
    let r2 = diff_runs(&b, &a);
    assert_eq!(r1, r2);
    assert!(!r1.is_empty());
}

#[test]
fn total_spans_merged_runs() {
    let a = vec![0u8; 64];
    let mut b = a.clone();
    b[10] = 1;
    b[14] = 1;
    b[40] = 1;
    let r = diff_runs(&a, &b);
    assert_eq!(r, vec![(10, 15), (40, 41)]);
    assert_eq!(total_diff(&a, &b, &r), 6);
}

fn expected_hex_line(buf: &[u8], base: usize, hs: usize, he: usize) -> String {
    let mut hex = String::new();
    let mut ascii = String::new();
    for (i, &byte) in buf.iter().enumerate() {
        let off = base + i;
        if off >= hs && off < he {
            hex.push_str(&format!("[{:02X}]", byte));
        } else {
            hex.push_str(&format!(" {:02X} ", byte));
        }
        ascii.push(if (0x20..0x7F).contains(&byte) { byte as char } else { '.' });
    }
    format!("{:<64}  {}", hex, ascii)
}

#[test]
fn report_of_one_run() {
    let a: Vec<u8> = (0..40u8).map(|i| b'a' + (i % 26)).collect();
    let mut b = a.clone();
    b[10] = 0x01;
    let runs = diff_runs(&a, &b);
    let lines = diff_report(&a, &b, &runs);
    assert_eq!(lines[0], "file size: 40 bytes");
    assert_eq!(lines[1], "differing runs: 1  (total 1 bytes differ)");
    assert_eq!(lines[2], "");
    assert_eq!(
        lines[3],
        "── run  1: offset 0x0000000A (        10)  len     1  ────────────────"
    );
    assert_eq!(lines[4], format!("  A 00000002  {}", expected_hex_line(&a[2..18], 2, 10, 11)));
    assert_eq!(lines[5], format!("  B 00000002  {}", expected_hex_line(&b[2..18], 2, 10, 11)));
    assert_eq!(lines[6], format!("  A 00000012  {}", expected_hex_line(&a[18..19], 18, 10, 11)));
    assert_eq!(lines[7], format!("  B 00000012  {}", expected_hex_line(&b[18..19], 18, 10, 11)));
    assert_eq!(lines[8], "");
    assert_eq!(lines.len(), 9);
    assert!(lines[4].contains("[6B]"));
    assert!(lines[5].contains("[01]"));
}

#[test]
fn report_context_is_clipped_at_file_edges() {
    let a = vec![0x41u8; 12];
    let mut b = a.clone();
    b[0] = 0x42;
    b[11] = 0x43;
    let runs = diff_runs(&a, &b);
    assert_eq!(runs, vec![(0, 1), (11, 12)]);
    let lines = diff_report(&a, &b, &runs);
    assert_eq!(lines[1], "differing runs: 2  (total 2 bytes differ)");
    assert_eq!(lines[3], "── run  1: offset 0x00000000 (         0)  len     1  ────────────────");
    assert_eq!(lines[4], format!("  A 00000000  {}", expected_hex_line(&a[0..9], 0, 0, 1)));
    assert_eq!(lines[7], "── run  2: offset 0x0000000B (        11)  len     1  ────────────────");
    assert_eq!(lines[8], format!("  A 00000003  {}", expected_hex_line(&a[3..12], 3, 11, 12)));
    assert_eq!(lines[9], format!("  B 00000003  {}", expected_hex_line(&b[3..12], 3, 11, 12)));
    assert_eq!(lines.len(), 11);
}

#[test]
fn report_of_identical_files() {
    let a = vec![7u8; 5];
    let lines = diff_report(&a, &a, &diff_runs(&a, &a));
    assert_eq!(lines, vec!["file size: 5 bytes", "differing runs: 0  (total 0 bytes differ)", ""]);
}

#[test]
fn parses_hex_patterns() {
    assert_eq!(parse_pattern("4B 49 4E 47"), Ok(vec![0x4B, 0x49, 0x4E, 0x47]));
    assert_eq!(parse_pattern("  ff\t0a\n"), Ok(vec![0xFF, 0x0A]));
    assert_eq!(parse_pattern("+7 0"), Ok(vec![7, 0]));
    assert_eq!(parse_pattern("007"), Ok(vec![7]));
}

#[test]
fn refuses_bad_patterns() {
    assert_eq!(parse_pattern(""), Err(PatternError::Empty));
    assert_eq!(parse_pattern(" \t "), Err(PatternError::Empty));
    assert_eq!(parse_pattern("0x4B"), Err(PatternError::InvalidByte(IntError::InvalidDigit)));
    assert_eq!(parse_pattern("4B 100"), Err(PatternError::InvalidByte(IntError::PosOverflow)));
    assert_eq!(parse_pattern("4G 100"), Err(PatternError::InvalidByte(IntError::InvalidDigit)));
    assert_eq!(parse_pattern("-1"), Err(PatternError::InvalidByte(IntError::InvalidDigit)));
    assert_eq!(parse_pattern("+"), Err(PatternError::InvalidByte(IntError::InvalidDigit)));
    assert_eq!(parse_pattern("fffz"), Err(PatternError::InvalidByte(IntError::PosOverflow)));
}

#[test]
fn pattern_errors_agree_with_std() {
    for tok in ["0", "ff", "FF", "100", "+a", "+", "-", "-0", "g", "ffg", "fffg", "0000001", "é"] {
        let std = u8::from_str_radix(tok, 16);
        let ours = parse_pattern(tok);
        match std {
            Ok(v) => assert_eq!(ours, Ok(vec![v])),
            Err(e) => {
                let kind = match e.kind() {
                    std::num::IntErrorKind::InvalidDigit => IntError::InvalidDigit,
                    std::num::IntErrorKind::PosOverflow => IntError::PosOverflow,
                    std::num::IntErrorKind::Empty => IntError::Empty,
                    _ => panic!("unexpected kind"),
                };
                assert_eq!(ours, Err(PatternError::InvalidByte(kind)), "token {tok}");
            }
        }
    }
}

#[test]
fn finds_overlapping_hits() {
    let data = b"AAAxAA";
    assert_eq!(find_hits(data, b"AA"), vec![0, 1, 4]);
    assert_eq!(find_hits(data, b"xAA"), vec![3]);
    assert_eq!(find_hits(data, b"AAAxAAA"), Vec::<usize>::new());
    assert_eq!(find_hits(b"", b"A"), Vec::<usize>::new());
    assert_eq!(find_hits(b"ab", b""), vec![0, 1, 2]);
}

#[test]
fn finds_the_trailer_magic() {
    let mut data = vec![0u8; 100];
    data[60..72].copy_from_slice(b"KINGKONG1024");
    let pat = parse_pattern("4B 49 4E 47 4B 4F 4E 47").unwrap();
    assert_eq!(find_hits(&data, &pat), vec![60]);
}

#[test]
fn hit_report_lines() {
    assert_eq!(hit_line(255), "  hit at 0x000000FF (255)");
    assert_eq!(hit_line(0x1_2345_6789), format!("  hit at 0x{:08X} ({})", 0x1_2345_6789usize, 0x1_2345_6789usize));
    assert_eq!(hits_line(3), "(3 hits)");
    assert_eq!(hits_line(0), "(0 hits)");
}

#[test]
fn swapping_files_swaps_only_the_row_bodies() {
    let a: Vec<u8> = (0..60u8).collect();
    let mut b = a.clone();
    b[5] = 0xFF;
    b[40] = 0xEE;
    let ab = diff_report(&a, &b, &diff_runs(&a, &b));
    let ba = diff_report(&b, &a, &diff_runs(&b, &a));
    assert_eq!(ab.len(), ba.len());
    let mut i = 0;
    while i < ab.len() {
        if ab[i].starts_with("  A ") {
            assert_eq!(ba[i], format!("  A {}", &ab[i + 1][4..]));
            assert_eq!(ba[i + 1], format!("  B {}", &ab[i][4..]));
            i += 2;
        } else {
            assert_eq!(ba[i], ab[i]);
            i += 1;
        }
    }
}

#[test]
fn eight_equal_bytes_do_not_split_a_run() {
    let a = vec![1u8, 0, 0, 0, 0, 0, 0, 0, 0, 1];
    let b = vec![0u8; 10];
    let runs = diff_runs(&a, &b);
    assert_eq!(runs, vec![(0, 10)]);
    let lines = diff_report(&a, &b, &runs);
    assert_eq!(lines[0], "file size: 10 bytes");
    assert_eq!(lines[1], "differing runs: 1  (total 10 bytes differ)");
    assert_eq!(lines[3], "── run  1: offset 0x00000000 (         0)  len    10  ────────────────");
}
