//! Searching a file for a byte pattern written as whitespace-separated hex
//! bytes.

use vstd::prelude::*;
use crate::num::IntError;
use crate::num::spec_parse_uint;
use crate::num::tokens;
use crate::num::parse_uint;
use crate::num::split_tokens;
use crate::text::decimal;
use crate::text::hex_upper;
use crate::text::zero_pad;
use crate::text::push_dec_right;
use crate::text::push_hex;
use crate::text::push_str;
use crate::text::string_from_chars;

verus! {

/// Why a pattern was refused.
#[derive(Debug, Clone, Copy, PartialEq, Eq)]
pub enum PatternError {
    /// A token is not a hex byte; the field tells why, for the first such
    /// token.
    InvalidByte(IntError),
    /// The pattern has no bytes.
    Empty,
}

/// The bytes of a list of hex tokens, or the error of the first token that
/// is not a hex byte.
pub open spec fn spec_hex_bytes(toks: Seq<Seq<char>>) -> Result<Seq<u8>, IntError>
    decreases toks.len(),
{
    if toks.len() == 0 {
        Ok(seq![])
    } else {
        match spec_hex_bytes(toks.drop_last()) {
            Err(e) => Err(e),
            Ok(p) => match spec_parse_uint(toks.last(), 16, 255) {
                Err(e) => Err(e),
                Ok(v) => Ok(p.push(v as u8)),
            },
        }
    }
}

/// The pattern that a search string stands for.
pub open spec fn spec_pattern(s: Seq<char>) -> Result<Seq<u8>, PatternError> {
    match spec_hex_bytes(tokens(s)) {
        Err(e) => Err(PatternError::InvalidByte(e)),
        Ok(p) => if p.len() == 0 {
            Err(PatternError::Empty)
        } else {
            Ok(p)
        },
    }
}

proof fn lemma_hex_bytes_err_prefix(toks: Seq<Seq<char>>, k: int, e: IntError)
    requires
        0 <= k <= toks.len(),
        spec_hex_bytes(toks.subrange(0, k)) == Err::<Seq<u8>, IntError>(e),
    ensures
        spec_hex_bytes(toks) == Err::<Seq<u8>, IntError>(e),
    decreases toks.len() - k,
{
    if k < toks.len() {
        let t = toks.subrange(0, k + 1);
        assert(t.drop_last() =~= toks.subrange(0, k));
        lemma_hex_bytes_err_prefix(toks, k + 1, e);
    } else {
        assert(toks.subrange(0, k) =~= toks);
    }
}

/// Reads a search pattern: whitespace-separated hex bytes such as
/// `"4B 49 4E 47"`.
pub fn parse_pattern(s: &str) -> (res: Result<Vec<u8>, PatternError>)
    ensures
        res matches Ok(p) ==> spec_pattern(s@) == Ok::<Seq<u8>, PatternError>(p@),
        res matches Err(e) ==> spec_pattern(s@) == Err::<Seq<u8>, PatternError>(e),
{
    let toks = split_tokens(s);
    let ghost ts = tokens(s@);
    let mut out: Vec<u8> = Vec::new();
    let mut k: usize = 0;
    assert(ts.subrange(0, 0) =~= Seq::<Seq<char>>::empty());
    while k < toks.len()
        invariant
            toks@.len() == ts.len(),
            ts == tokens(s@),
            forall|j: int| 0 <= j < toks@.len() ==> #[trigger] toks@[j]@ == ts[j],
            k <= toks@.len(),
            spec_hex_bytes(ts.subrange(0, k as int)) == Ok::<Seq<u8>, IntError>(out@),
        decreases toks@.len() - k,
    {
        assert(toks@[k as int]@ == ts[k as int]);
        let ghost pre = ts.subrange(0, k + 1);
        assert(pre.drop_last() =~= ts.subrange(0, k as int));
        assert(pre.last() == ts[k as int]);
        match parse_uint(toks[k].as_slice(), 16, 255) {
            Err(e) => {
                proof {
                    lemma_hex_bytes_err_prefix(ts, k + 1, e);
                }
                return Err(PatternError::InvalidByte(e));
            },
            Ok(v) => {
                out.push(v as u8);
            },
        }
        k = k + 1;
    }
    assert(ts.subrange(0, k as int) =~= ts);
    if out.len() == 0 {
        return Err(PatternError::Empty);
    }
    Ok(out)
}

/// The pattern occurs in `data` at offset `i`.
pub open spec fn occurs_at(data: Seq<u8>, pat: Seq<u8>, i: int) -> bool {
    &&& 0 <= i
    &&& i + pat.len() <= data.len()
    &&& data.subrange(i, i + pat.len()) == pat
}

/// The offsets below `k` at which the pattern occurs, ascending.
pub open spec fn occurrences_before(data: Seq<u8>, pat: Seq<u8>, k: int) -> Seq<usize>
    decreases k,
{
    if k <= 0 {
        seq![]
    } else if occurs_at(data, pat, k - 1) {
        occurrences_before(data, pat, k - 1).push((k - 1) as usize)
    } else {
        occurrences_before(data, pat, k - 1)
    }
}

/// Every offset at which the pattern occurs, ascending.
pub open spec fn occurrences(data: Seq<u8>, pat: Seq<u8>) -> Seq<usize> {
    occurrences_before(data, pat, data.len() as int + 1)
}

proof fn lemma_no_occurrence_past(data: Seq<u8>, pat: Seq<u8>, k: int)
    requires
        data.len() - pat.len() + 1 <= k <= data.len() + 1,
        k >= 0,
    ensures
        occurrences_before(data, pat, k) == occurrences_before(
            data,
            pat,
            if data.len() >= pat.len() {
                data.len() - pat.len() + 1
            } else {
                0
            },
        ),
    decreases k,
{
    let lim = if data.len() >= pat.len() {
        data.len() - pat.len() + 1
    } else {
        0
    };
    if k > lim {
        assert(!occurs_at(data, pat, k - 1));
        lemma_no_occurrence_past(data, pat, k - 1);
    }
}

/// The offsets at which `pattern` occurs in `data`, ascending; occurrences
/// may overlap.
pub fn find_hits(data: &[u8], pattern: &[u8]) -> (hits: Vec<usize>)
    ensures
        hits@ == occurrences(data@, pattern@),
{
    let mut hits: Vec<usize> = Vec::new();
    if pattern.len() > data.len() {
        proof {
            lemma_no_occurrence_past(data@, pattern@, data@.len() as int + 1);
        }
        return hits;
    }
    let dlen = data.len();
    let last = dlen - pattern.len();
    let plen = pattern.len();
    let mut i: usize = 0;
    let mut more = true;
    while more
        invariant
            dlen == data@.len(),
            last == data@.len() - pattern@.len(),
            plen == pattern@.len(),
            i <= last,
            more ==> hits@ == occurrences_before(data@, pattern@, i as int),
            !more ==> hits@ == occurrences_before(data@, pattern@, last + 1),
        decreases last - i, if more { 1int } else { 0int },
    {
        let mut j: usize = 0;
        let mut same = true;
        while j < plen && same
            invariant
                plen == pattern@.len(),
                dlen == data@.len(),
                i + plen <= data@.len(),
                j <= plen,
                same ==> forall|t: int| 0 <= t < j ==> data@[i + t] == pattern@[t],
                !same ==> !occurs_at(data@, pattern@, i as int),
            decreases plen - j, if same { 1int } else { 0int },
        {
            if data[i + j] != pattern[j] {
                same = false;
                assert(data@.subrange(i as int, i + plen)[j as int] == data@[i + j]);
            } else {
                j = j + 1;
            }
        }
        if same {
            assert(data@.subrange(i as int, i + plen) =~= pattern@);
            hits.push(i);
        }
        if i == last {
            more = false;
        } else {
            i = i + 1;
        }
    }
    proof {
        lemma_no_occurrence_past(data@, pattern@, data@.len() as int + 1);
    }
    hits
}

/// The report line for one hit.
pub open spec fn spec_hit_line(i: usize) -> Seq<char> {
    "  hit at 0x"@ + zero_pad(hex_upper(i as nat), 8) + " ("@ + decimal(i as nat) + ")"@
}

/// The closing line giving the number of hits.
pub open spec fn spec_hits_line(count: usize) -> Seq<char> {
    "("@ + decimal(count as nat) + " hits)"@
}

/// The report line for one hit: its offset in hex and in decimal.
pub fn hit_line(i: usize) -> (s: String)
    ensures
        s@ == spec_hit_line(i),
{
    let mut out: Vec<char> = Vec::new();
    push_str(&mut out, "  hit at 0x");
    push_hex(&mut out, i as u64, 8);
    push_str(&mut out, " (");
    push_dec_right(&mut out, i as u64, 0);
    push_str(&mut out, ")");
    assert(out@ =~= spec_hit_line(i)) by {
        assert(crate::text::pad_left(decimal(i as nat), 0) =~= decimal(i as nat));
    }
    string_from_chars(out.as_slice())
}

/// The closing line of a search report.
pub fn hits_line(count: usize) -> (s: String)
    ensures
        s@ == spec_hits_line(count),
{
    let mut out: Vec<char> = Vec::new();
    push_str(&mut out, "(");
    push_dec_right(&mut out, count as u64, 0);
    push_str(&mut out, " hits)");
    assert(out@ =~= spec_hits_line(count)) by {
        assert(crate::text::pad_left(decimal(count as nat), 0) =~= decimal(count as nat));
    }
    string_from_chars(out.as_slice())
}

} // verus!
