//! Choosing the volume to dump from a drive-letter argument.

use vstd::prelude::*;
use crate::text::push_str;
use crate::text::string_from_chars;

verus! {

/// Why a drive argument was refused.
#[derive(Debug, Clone, Copy, PartialEq, Eq)]
pub enum DriveError {
    /// The argument is not a single ASCII letter (with optional trailing
    /// `:` and `\`).
    NotADriveLetter,
    /// The argument names drive C, which is never dumped.
    SystemDrive,
}

/// `s` without its trailing copies of `c` (as `trim_end_matches(c)`).
pub open spec fn strip_end(s: Seq<char>, c: char) -> Seq<char>
    decreases s.len(),
{
    if s.len() > 0 && s.last() == c {
        strip_end(s.drop_last(), c)
    } else {
        s
    }
}

pub open spec fn is_ascii_letter(c: char) -> bool {
    ('A' <= c <= 'Z') || ('a' <= c <= 'z')
}

pub open spec fn ascii_upper(c: char) -> char {
    if 'a' <= c <= 'z' {
        ((c as u32) - 32) as char
    } else {
        c
    }
}

/// The drive letter an argument names: trailing colons are removed, then
/// trailing backslashes; what is left must be one ASCII letter, which is
/// given in upper case.
pub open spec fn spec_drive_letter(s: Seq<char>) -> Option<char> {
    let t = strip_end(strip_end(s, ':'), '\\');
    if t.len() == 1 && is_ascii_letter(t[0]) {
        Some(ascii_upper(t[0]))
    } else {
        None
    }
}

fn strip_len(s: &[char], n0: usize, c: char) -> (n: usize)
    requires
        n0 <= s@.len(),
    ensures
        n <= n0,
        strip_end(s@.subrange(0, n0 as int), c) == s@.subrange(0, n as int),
{
    let mut n = n0;
    while n > 0 && s[n - 1] == c
        invariant
            n <= n0 <= s@.len(),
            strip_end(s@.subrange(0, n0 as int), c) == strip_end(s@.subrange(0, n as int), c),
        decreases n,
    {
        assert(s@.subrange(0, n as int).drop_last() =~= s@.subrange(0, n - 1));
        n = n - 1;
    }
    n
}

/// Reads a drive letter argument such as `E`, `e:` or `E:\`.
pub fn parse_drive_letter(s: &str) -> (r: Result<char, DriveError>)
    ensures
        r matches Ok(c) ==> spec_drive_letter(s@) == Some(c),
        r matches Err(e) ==> spec_drive_letter(s@) is None && e == DriveError::NotADriveLetter,
{
    let mut cs: Vec<char> = Vec::new();
    push_str(&mut cs, s);
    assert(cs@.subrange(0, cs@.len() as int) =~= s@);
    let n1 = strip_len(cs.as_slice(), cs.len(), ':');
    let n2 = strip_len(cs.as_slice(), n1, '\\');
    if n2 == 1 {
        let c = cs[0];
        assert(cs@.subrange(0, 1)[0] == c);
        if ('A' <= c && c <= 'Z') || ('a' <= c && c <= 'z') {
            if 'a' <= c && c <= 'z' {
                return Ok(((c as u32 - 32) as u8) as char);
            }
            return Ok(c);
        }
    }
    Err(DriveError::NotADriveLetter)
}

/// The drive to dump: a valid letter other than C.
pub open spec fn spec_dump_target(s: Seq<char>) -> Result<char, DriveError> {
    match spec_drive_letter(s) {
        None => Err(DriveError::NotADriveLetter),
        Some(c) => if c == 'C' {
            Err(DriveError::SystemDrive)
        } else {
            Ok(c)
        },
    }
}

/// Checks the drive argument of a dump: it must name a drive, and not C.
pub fn dump_target(s: &str) -> (r: Result<char, DriveError>)
    ensures
        r == spec_dump_target(s@),
{
    let c = parse_drive_letter(s)?;
    if c == 'C' {
        return Err(DriveError::SystemDrive);
    }
    Ok(c)
}

/// The raw-volume device path of a drive, `\\.\X:`.
pub fn device_path(letter: char) -> (p: String)
    ensures
        p@ == "\\\\.\\"@ + seq![letter] + ":"@,
{
    let mut out: Vec<char> = Vec::new();
    push_str(&mut out, "\\\\.\\");
    out.push(letter);
    push_str(&mut out, ":");
    string_from_chars(out.as_slice())
}

} // verus!
