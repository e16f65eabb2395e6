//! Whitespace-separated tokens and unsigned integer literals, read as
//! `str::split_whitespace` and `from_str_radix` read them.

use vstd::prelude::*;
use crate::dir::is_white;
use crate::dir::is_whitespace;
use crate::text::push_str;

verus! {

/// Why a token is not an integer of the wanted type, as `ParseIntError`
/// tells it.
#[derive(Debug, Clone, Copy, PartialEq, Eq)]
pub enum IntError {
    /// The token is empty.
    Empty,
    /// A character is not a digit of the radix.
    InvalidDigit,
    /// The value exceeds the type's maximum.
    PosOverflow,
}

/// The value of a digit character in `radix` (10 or 16), if it is one.
pub open spec fn digit_value(c: char, radix: int) -> Option<int> {
    if '0' <= c <= '9' {
        Some(c as int - 48)
    } else if radix == 16 && 'a' <= c <= 'f' {
        Some(c as int - 87)
    } else if radix == 16 && 'A' <= c <= 'F' {
        Some(c as int - 55)
    } else {
        None
    }
}

/// The digits of a token: a leading `+` is dropped when something follows.
pub open spec fn digits_of(tok: Seq<char>) -> Seq<char> {
    if tok.len() > 1 && tok[0] == '+' {
        tok.drop_first()
    } else {
        tok
    }
}

/// Reads `ds` left to right onto `acc`, failing at the first character that
/// is not a digit or at the first digit that takes the value past `max`.
pub open spec fn scan_digits(ds: Seq<char>, acc: int, radix: int, max: int) -> Result<int, IntError>
    decreases ds.len(),
{
    if ds.len() == 0 {
        Ok(acc)
    } else {
        match digit_value(ds[0], radix) {
            None => Err(IntError::InvalidDigit),
            Some(d) => if acc * radix + d > max {
                Err(IntError::PosOverflow)
            } else {
                scan_digits(ds.drop_first(), acc * radix + d, radix, max)
            },
        }
    }
}

/// The result of reading `tok` as an unsigned integer in `radix` with
/// maximum `max`.
pub open spec fn spec_parse_uint(tok: Seq<char>, radix: int, max: int) -> Result<int, IntError> {
    if tok.len() == 0 {
        Err(IntError::Empty)
    } else {
        scan_digits(digits_of(tok), 0, radix, max)
    }
}

fn digit_of(c: char, radix: u64) -> (r: Option<u64>)
    requires
        radix == 10 || radix == 16,
    ensures
        r matches Some(d) ==> digit_value(c, radix as int) == Some(d as int),
        r is None ==> digit_value(c, radix as int) is None,
{
    if '0' <= c && c <= '9' {
        Some(c as u64 - 48)
    } else if radix == 16 && 'a' <= c && c <= 'f' {
        Some(c as u64 - 87)
    } else if radix == 16 && 'A' <= c && c <= 'F' {
        Some(c as u64 - 55)
    } else {
        None
    }
}

/// Reads a token as an unsigned integer in radix 10 or 16 no larger than
/// `max`, as `from_str_radix` of the unsigned type with that maximum does.
pub fn parse_uint(tok: &[char], radix: u64, max: u64) -> (r: Result<u64, IntError>)
    requires
        radix == 10 || radix == 16,
    ensures
        r matches Ok(v) ==> v <= max,
        r matches Ok(v) ==> spec_parse_uint(tok@, radix as int, max as int) == Ok::<int, IntError>(
            v as int,
        ),
        r matches Err(e) ==> spec_parse_uint(tok@, radix as int, max as int) == Err::<int, IntError>(
            e,
        ),
{
    if tok.len() == 0 {
        return Err(IntError::Empty);
    }
    let skip: usize = if tok.len() > 1 && tok[0] == '+' {
        1
    } else {
        0
    };
    let ghost ds = digits_of(tok@);
    assert(ds =~= tok@.subrange(skip as int, tok@.len() as int));
    let mut acc: u64 = 0;
    let mut i: usize = skip;
    while i < tok.len()
        invariant
            skip <= i <= tok@.len(),
            radix == 10 || radix == 16,
            acc <= max,
            tok@.len() > 0,
            ds == digits_of(tok@),
            ds == tok@.subrange(skip as int, tok@.len() as int),
            scan_digits(ds, 0, radix as int, max as int) == scan_digits(
                tok@.subrange(i as int, tok@.len() as int),
                acc as int,
                radix as int,
                max as int,
            ),
        decreases tok@.len() - i,
    {
        let ghost rest = tok@.subrange(i as int, tok@.len() as int);
        assert(rest[0] == tok@[i as int]);
        assert(rest.drop_first() =~= tok@.subrange(i + 1, tok@.len() as int));
        assert(rest.len() > 0);
        match digit_of(tok[i], radix) {
            None => {
                assert(scan_digits(rest, acc as int, radix as int, max as int) == Err::<int, IntError>(
                    IntError::InvalidDigit,
                ));
                return Err(IntError::InvalidDigit);
            },
            Some(d) => {
                if d > max {
                    proof {
                        assert(acc * radix + d > max) by (nonlinear_arith)
                            requires
                                d > max,
                                acc >= 0,
                                radix > 0,
                        ;
                        assert(scan_digits(rest, acc as int, radix as int, max as int) == Err::<
                            int,
                            IntError,
                        >(IntError::PosOverflow));
                    }
                    return Err(IntError::PosOverflow);
                }
                let lim = (max - d) / radix;
                if acc > lim {
                    proof {
                        let l = lim as int;
                        let m = (max - d) as int;
                        let r = radix as int;
                        let a = acc as int;
                        assert(a * r > m) by (nonlinear_arith)
                            requires
                                a > l,
                                l == m / r,
                                r > 0,
                                m >= 0,
                        ;
                        assert(scan_digits(rest, acc as int, radix as int, max as int) == Err::<
                            int,
                            IntError,
                        >(IntError::PosOverflow));
                    }
                    return Err(IntError::PosOverflow);
                }
                proof {
                    let l = lim as int;
                    let m = (max - d) as int;
                    let r = radix as int;
                    let a = acc as int;
                    assert(a * r <= m) by (nonlinear_arith)
                        requires
                            a <= l,
                            l == m / r,
                            r > 0,
                            m >= 0,
                            a >= 0,
                    ;
                }
                acc = acc * radix + d;
            },
        }
        i = i + 1;
    }
    assert(tok@.subrange(i as int, tok@.len() as int).len() == 0);
    Ok(acc)
}

/// The maximal runs of non-whitespace characters at the start of `s`:
/// the length of the first one.
pub open spec fn word_len(s: Seq<char>) -> int
    decreases s.len(),
{
    if s.len() == 0 || is_white(s[0]) {
        0
    } else {
        1 + word_len(s.drop_first())
    }
}

/// The whitespace-separated tokens of `s`, in order (as
/// `str::split_whitespace` yields them).
pub open spec fn tokens(s: Seq<char>) -> Seq<Seq<char>>
    decreases s.len(), 1int,
{
    if s.len() == 0 {
        seq![]
    } else if is_white(s[0]) {
        tokens(s.drop_first())
    } else {
        word_tokens(s)
    }
}

pub open spec fn word_tokens(s: Seq<char>) -> Seq<Seq<char>>
    decreases s.len(), 0int,
{
    if s.len() == 0 || is_white(s[0]) {
        seq![]
    } else {
        proof {
            lemma_word_len(s);
        }
        seq![s.subrange(0, word_len(s))] + tokens(s.subrange(word_len(s), s.len() as int))
    }
}

pub proof fn lemma_word_len(s: Seq<char>)
    ensures
        0 <= word_len(s) <= s.len(),
        s.len() > 0 && !is_white(s[0]) ==> word_len(s) >= 1,
    decreases s.len(),
{
    if s.len() > 0 && !is_white(s[0]) {
        lemma_word_len(s.drop_first());
    }
}

proof fn lemma_word_len_scan(s: Seq<char>, k: int)
    requires
        0 <= k <= s.len(),
        forall|j: int| 0 <= j < k ==> !is_white(#[trigger] s[j]),
        k == s.len() || is_white(s[k]),
    ensures
        word_len(s) == k,
    decreases k,
{
    if k > 0 {
        let t = s.drop_first();
        assert forall|j: int| 0 <= j < k - 1 implies !is_white(#[trigger] t[j]) by {
            assert(t[j] == s[j + 1]);
        }
        if k < s.len() {
            assert(t[k - 1] == s[k]);
        }
        lemma_word_len_scan(t, k - 1);
    }
}

/// The whitespace-separated tokens of `s`.
pub fn split_tokens(s: &str) -> (toks: Vec<Vec<char>>)
    ensures
        toks@.len() == tokens(s@).len(),
        forall|k: int| 0 <= k < toks@.len() ==> #[trigger] toks@[k]@ == tokens(s@)[k],
{
    let mut cs: Vec<char> = Vec::new();
    push_str(&mut cs, s);
    assert(cs@ =~= s@);
    let mut toks: Vec<Vec<char>> = Vec::new();
    let n = cs.len();
    let mut i: usize = 0;
    assert(cs@.subrange(0, n as int) =~= cs@);
    while i < n
        invariant
            n == cs@.len(),
            cs@ == s@,
            i <= n,
            tokens(s@).len() == toks@.len() + tokens(cs@.subrange(i as int, n as int)).len(),
            forall|k: int| 0 <= k < toks@.len() ==> #[trigger] toks@[k]@ == tokens(s@)[k],
            forall|k: int|
                0 <= k < tokens(cs@.subrange(i as int, n as int)).len() ==> tokens(s@)[toks@.len()
                    + k] == #[trigger] tokens(cs@.subrange(i as int, n as int))[k],
        decreases n - i,
    {
        let ghost rest = cs@.subrange(i as int, n as int);
        if is_whitespace(cs[i]) {
            assert(rest.drop_first() =~= cs@.subrange(i + 1, n as int));
            i = i + 1;
        } else {
            let start = i;
            let mut word: Vec<char> = Vec::new();
            while i < n && !is_whitespace(cs[i])
                invariant
                    n == cs@.len(),
                    start <= i <= n,
                    start < n,
                    !is_white(cs@[start as int]),
                    word@ == cs@.subrange(start as int, i as int),
                    forall|j: int| start <= j < i ==> !is_white(#[trigger] cs@[j]),
                decreases n - i,
            {
                word.push(cs[i]);
                i = i + 1;
                assert(word@ =~= cs@.subrange(start as int, i as int));
            }
            proof {
                let k = i - start;
                assert forall|j: int| 0 <= j < k implies !is_white(#[trigger] rest[j]) by {
                    assert(rest[j] == cs@[start + j]);
                }
                if i < n {
                    assert(rest[k] == cs@[i as int]);
                }
                assert(rest[0] == cs@[start as int]);
                lemma_word_len_scan(rest, k);
                assert(rest.subrange(0, k) =~= word@);
                assert(rest.subrange(k, rest.len() as int) =~= cs@.subrange(i as int, n as int));
                assert(rest.len() > 0 && !is_white(rest[0]));
                assert(tokens(rest) == word_tokens(rest));
                assert(word_tokens(rest) == seq![rest.subrange(0, word_len(rest))] + tokens(
                    rest.subrange(word_len(rest), rest.len() as int),
                ));
                assert(tokens(rest) == seq![word@] + tokens(cs@.subrange(i as int, n as int)));
            }
            let ghost old_len = toks@.len();
            toks.push(word);
            proof {
                let tail = cs@.subrange(i as int, n as int);
                assert(tokens(s@)[old_len as int] == tokens(rest)[0]);
                assert forall|k: int| 0 <= k < toks@.len() implies #[trigger] toks@[k]@ == tokens(
                    s@,
                )[k] by {
                    if k < old_len {
                    } else {
                        assert(toks@[k] == word);
                    }
                }
                assert forall|k: int| 0 <= k < tokens(tail).len() implies tokens(s@)[toks@.len()
                    + k] == #[trigger] tokens(tail)[k] by {
                    assert(tokens(rest)[k + 1] == tokens(tail)[k]);
                }
            }
        }
    }
    toks
}

} // verus!

verus! {

/// `s` with every leading `"0x"` removed (as `trim_start_matches("0x")`).
pub open spec fn strip_hex_prefix(s: Seq<char>) -> Seq<char>
    decreases s.len(),
{
    if s.len() >= 2 && s[0] == '0' && s[1] == 'x' {
        strip_hex_prefix(s.subrange(2, s.len() as int))
    } else {
        s
    }
}

proof fn lemma_strip_step(s: Seq<char>, i: int)
    requires
        0 <= i,
        i + 2 <= s.len(),
        s[i] == '0',
        s[i + 1] == 'x',
    ensures
        strip_hex_prefix(s.subrange(i, s.len() as int)) == strip_hex_prefix(
            s.subrange(i + 2, s.len() as int),
        ),
{
    let rest = s.subrange(i, s.len() as int);
    assert(rest[0] == s[i]);
    assert(rest[1] == s[i + 1]);
    assert(rest.subrange(2, rest.len() as int) =~= s.subrange(i + 2, s.len() as int));
}

/// The number of leading characters that `strip_hex_prefix` removes.
fn hex_prefix_len(cs: &[char]) -> (i: usize)
    ensures
        i <= cs@.len(),
        strip_hex_prefix(cs@) == cs@.subrange(i as int, cs@.len() as int),
{
    let mut i: usize = 0;
    let n = cs.len();
    assert(cs@.subrange(0, cs@.len() as int) =~= cs@);
    while n - i >= 2 && cs[i] == '0' && cs[i + 1] == 'x'
        invariant
            n == cs@.len(),
            i <= cs@.len(),
            strip_hex_prefix(cs@) == strip_hex_prefix(cs@.subrange(i as int, cs@.len() as int)),
        decreases cs@.len() - i,
    {
        proof {
            lemma_strip_step(cs@, i as int);
        }
        i = i + 2;
    }
    let ghost rest = cs@.subrange(i as int, cs@.len() as int);
    assert(!(rest.len() >= 2 && rest[0] == '0' && rest[1] == 'x')) by {
        if rest.len() >= 2 {
            assert(rest[0] == cs@[i as int]);
            assert(rest[1] == cs@[i + 1]);
        }
    }
    i
}

/// Reads a file offset given in hexadecimal, with or without `0x`.
pub fn parse_hex_offset(s: &str) -> (r: Result<u64, IntError>)
    ensures
        r matches Ok(v) ==> spec_parse_uint(strip_hex_prefix(s@), 16, u64::MAX as int) == Ok::<
            int,
            IntError,
        >(v as int),
        r matches Err(e) ==> spec_parse_uint(strip_hex_prefix(s@), 16, u64::MAX as int) == Err::<
            int,
            IntError,
        >(e),
{
    let mut cs: Vec<char> = Vec::new();
    push_str(&mut cs, s);
    assert(cs@ =~= s@);
    let i = hex_prefix_len(cs.as_slice());
    let mut digits: Vec<char> = Vec::new();
    let mut j: usize = i;
    while j < cs.len()
        invariant
            i <= j <= cs@.len(),
            digits@ == cs@.subrange(i as int, j as int),
        decreases cs@.len() - j,
    {
        digits.push(cs[j]);
        j = j + 1;
        assert(digits@ =~= cs@.subrange(i as int, j as int));
    }
    parse_uint(digits.as_slice(), 16, u64::MAX)
}

/// Reads a byte count given in decimal.
pub fn parse_dec_len(s: &str) -> (r: Result<usize, IntError>)
    ensures
        r matches Ok(v) ==> spec_parse_uint(s@, 10, usize::MAX as int) == Ok::<int, IntError>(
            v as int,
        ),
        r matches Err(e) ==> spec_parse_uint(s@, 10, usize::MAX as int) == Err::<int, IntError>(e),
{
    let mut cs: Vec<char> = Vec::new();
    push_str(&mut cs, s);
    assert(cs@ =~= s@);
    assert((usize::MAX as u64) as int == usize::MAX as int);
    match parse_uint(cs.as_slice(), 10, usize::MAX as u64) {
        Ok(v) => Ok(v as usize),
        Err(e) => Err(e),
    }
}

} // verus!
