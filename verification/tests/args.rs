use lib::drive::{device_path, dump_target, parse_drive_letter, DriveError};
use lib::num::{parse_dec_len, parse_hex_offset, IntError};

#[test]
fn reads_drive_letters() {
    assert_eq!(parse_drive_letter("e"), Ok('E'));
    assert_eq!(parse_drive_letter("E:"), Ok('E'));
    assert_eq!(parse_drive_letter("e::"), Ok('E'));
    assert_eq!(parse_drive_letter("E\\"), Ok('E'));
    assert_eq!(parse_drive_letter("E\\:"), Ok('E'));
    assert_eq!(parse_drive_letter("c"), Ok('C'));
}

#[test]
fn refuses_bad_drive_arguments() {
    assert_eq!(parse_drive_letter(""), Err(DriveError::NotADriveLetter));
    assert_eq!(parse_drive_letter("EF"), Err(DriveError::NotADriveLetter));
    assert_eq!(parse_drive_letter("1"), Err(DriveError::NotADriveLetter));
    assert_eq!(parse_drive_letter("é"), Err(DriveError::NotADriveLetter));
    // Colons are trimmed before backslashes, so `E:\` keeps its colon.
    assert_eq!(parse_drive_letter("E:\\"), Err(DriveError::NotADriveLetter));
    assert_eq!(parse_drive_letter(":"), Err(DriveError::NotADriveLetter));
}

#[test]
fn never_dumps_drive_c() {
    assert_eq!(dump_target("C"), Err(DriveError::SystemDrive));
    assert_eq!(dump_target("c:"), Err(DriveError::SystemDrive));
    assert_eq!(dump_target("e:"), Ok('E'));
    assert_eq!(dump_target("??"), Err(DriveError::NotADriveLetter));
}

#[test]
fn builds_device_path() {
    assert_eq!(device_path('E'), r"\\.\E:");
}

#[test]
fn reads_hex_offsets() {
    assert_eq!(parse_hex_offset("1F"), Ok(0x1F));
    assert_eq!(parse_hex_offset("0x60878"), Ok(0x60878));
    assert_eq!(parse_hex_offset("0x0x10"), Ok(0x10));
    assert_eq!(parse_hex_offset("0xffffffffffffffff"), Ok(u64::MAX));
    assert_eq!(parse_hex_offset("0x10000000000000000"), Err(IntError::PosOverflow));
    assert_eq!(parse_hex_offset("0x"), Err(IntError::Empty));
    assert_eq!(parse_hex_offset(""), Err(IntError::Empty));
    assert_eq!(parse_hex_offset("0X10"), Err(IntError::InvalidDigit));
    assert_eq!(parse_hex_offset("00x1"), Err(IntError::InvalidDigit));
}

#[test]
fn reads_decimal_lengths() {
    assert_eq!(parse_dec_len("64"), Ok(64));
    assert_eq!(parse_dec_len("+5"), Ok(5));
    assert_eq!(parse_dec_len("0"), Ok(0));
    assert_eq!(parse_dec_len("-1"), Err(IntError::InvalidDigit));
    assert_eq!(parse_dec_len("1a"), Err(IntError::InvalidDigit));
    assert_eq!(parse_dec_len(""), Err(IntError::Empty));
    assert_eq!(parse_dec_len("99999999999999999999999"), Err(IntError::PosOverflow));
}

#[test]
fn lengths_agree_with_std() {
    for s in ["12", "+", "+0", "-0", " 1", "1 ", "18446744073709551615", "18446744073709551616", "٣"] {
        let std = s.parse::<usize>().map_err(|e| e.kind().clone());
        let ours = parse_dec_len(s).map_err(|e| match e {
            IntError::Empty => std::num::IntErrorKind::Empty,
            IntError::InvalidDigit => std::num::IntErrorKind::InvalidDigit,
            IntError::PosOverflow => std::num::IntErrorKind::PosOverflow,
        });
        assert_eq!(ours, std, "input {s:?}");
    }
}

#[test]
fn hex_offset_prefix_is_optional() {
    for s in ["1F", "60878", "", "zz", "ffffffffffffffff"] {
        assert_eq!(parse_hex_offset(&format!("0x{s}")), parse_hex_offset(s));
    }
}
