//! The bounded extractor: validated line or byte bounds, the first-N-lines
//! and first-N-bytes cuts of a stream, and the header naming a source when
//! several are printed.

use vstd::prelude::*;

use crate::text::{byte_views, copy_bytes};
use vstd::string::{StrSliceExecFns, StringExecFns};
use vstd::utf8::is_ascii_chars;

verus! {

broadcast use vstd::string::is_ascii_spec_bytes;

/// A decimal digit character.
pub open spec fn is_digit_char(c: char) -> bool {
    '0' <= c && c <= '9'
}

/// Whether `s` is wholly made of decimal digits.
pub open spec fn all_digits(s: Seq<char>) -> bool {
    forall|i: int| 0 <= i < s.len() ==> is_digit_char(#[trigger] s[i])
}

/// The number the digit string `s` denotes.
pub open spec fn digits_value(s: Seq<char>) -> nat
    decreases s.len(),
{
    if s.len() == 0 {
        0
    } else {
        digits_value(s.drop_last()) * 10 + ((s.last() as int - 48) as nat)
    }
}

proof fn lemma_digits_value_take_le(s: Seq<char>, i: int)
    requires
        0 <= i <= s.len(),
    ensures
        digits_value(s.take(i)) <= digits_value(s),
    decreases s.len() - i,
{
    if i < s.len() {
        lemma_digits_value_take_le(s, i + 1);
        assert(s.take(i + 1).drop_last() =~= s.take(i));
        assert(s.take(i + 1).last() == s[i]);
        assert(digits_value(s.take(i)) * 10 >= digits_value(s.take(i)));
    } else {
        assert(s.take(i) =~= s);
    }
}

/// Parses a strictly positive decimal integer. Rejected with the offending
/// text itself: anything empty, non-numeric, zero, or too large for
/// `usize`.
pub fn parse_positive_int(val: &str) -> (r: Result<usize, String>)
    ensures
        r is Ok <==> (val@.len() > 0 && all_digits(val@) && 1 <= digits_value(val@)
            <= usize::MAX),
        r matches Ok(u) ==> u == digits_value(val@),
        r matches Err(e) ==> e@ == val@,
{
    if !val.is_ascii() {
        proof {
            assert(!is_ascii_chars(val@));
            let j = choose|i: int| !(0 <= i < val@.len() ==> '\0' <= #[trigger] val@[i] <= '\u{7f}');
            assert(!is_digit_char(val@[j]));
        }
        return Err(String::from_str(val));
    }
    let n = val.unicode_len();
    let mut value: usize = 0;
    let mut i: usize = 0;
    proof {
        assert(val@.take(0) =~= Seq::<char>::empty());
    }
    while i < n
        invariant
            i <= n,
            n == val@.len(),
            val.is_ascii(),
            value == digits_value(val@.take(i as int)),
            forall|k: int| 0 <= k < i ==> is_digit_char(#[trigger] val@[k]),
        decreases n - i,
    {
        let b = val.get_ascii(i);
        proof {
            assert(val@.take(i + 1).drop_last() =~= val@.take(i as int));
            assert(val@.take(i + 1).last() == val@[i as int]);
        }
        if b < 48 || b > 57 {
            proof {
                assert(val@[i as int] as u8 == b);
                assert('\0' <= val@[i as int] <= '\u{7f}');
                assert(!is_digit_char(val@[i as int]));
            }
            return Err(String::from_str(val));
        }
        proof {
            assert(val@[i as int] as u8 == b);
            assert('\0' <= val@[i as int] <= '\u{7f}');
            assert(is_digit_char(val@[i as int]));
            assert((val@[i as int] as int - 48) as nat == (b - 48) as nat);
        }
        let d = (b - 48) as usize;
        let scaled = value.checked_mul(10);
        let next = match scaled {
            Some(v) => v.checked_add(d),
            None => None,
        };
        match next {
            Some(v) => {
                value = v;
            },
            None => {
                proof {
                    assert(digits_value(val@.take(i + 1)) > usize::MAX);
                    lemma_digits_value_take_le(val@, i + 1);
                }
                return Err(String::from_str(val));
            },
        }
        i += 1;
    }
    proof {
        assert(val@.take(n as int) =~= val@);
    }
    if value == 0 {
        Err(String::from_str(val))
    } else {
        Ok(value)
    }
}

/// The extractor's bound: exactly one of a line limit or a byte limit.
#[derive(Debug, PartialEq, Eq, Structural, Clone, Copy)]
pub enum BoundSpec {
    Lines(usize),
    Bytes(usize),
}

/// The reason a pair of requested bounds is rejected.
#[derive(Debug, PartialEq, Eq, Structural, Clone, Copy)]
pub enum BoundError {
    Conflict,
}

/// Settles the extractor's bound before any reading: an explicit line
/// bound and an explicit byte bound exclude one another, and with neither
/// the default is ten lines.
pub fn make_bound(lines: Option<usize>, bytes: Option<usize>) -> (r: Result<BoundSpec, BoundError>)
    requires
        lines matches Some(nl) ==> nl > 0,
        bytes matches Some(nb) ==> nb > 0,
    ensures
        r is Err <==> (lines is Some && bytes is Some),
        bytes matches Some(nb) ==> (lines is None ==> r == Ok::<BoundSpec, BoundError>(
            BoundSpec::Bytes(nb),
        )),
        lines matches Some(nl) ==> (bytes is None ==> r == Ok::<BoundSpec, BoundError>(
            BoundSpec::Lines(nl),
        )),
        (lines is None && bytes is None) ==> r == Ok::<BoundSpec, BoundError>(BoundSpec::Lines(10)),
{
    match (lines, bytes) {
        (Some(_), Some(_)) => Err(BoundError::Conflict),
        (None, Some(nb)) => Ok(BoundSpec::Bytes(nb)),
        (Some(nl), None) => Ok(BoundSpec::Lines(nl)),
        (None, None) => Ok(BoundSpec::Lines(10)),
    }
}

/// The first `n` lines of a stream, verbatim, terminators included; all of
/// them if fewer remain.
pub fn head_lines(lines: &Vec<Vec<u8>>, n: usize) -> (r: Vec<Vec<u8>>)
    ensures
        byte_views(r@) == byte_views(lines@).take(
            if n <= lines@.len() {
                n as int
            } else {
                lines@.len() as int
            },
        ),
{
    let limit = if n < lines.len() {
        n
    } else {
        lines.len()
    };
    let mut r: Vec<Vec<u8>> = Vec::new();
    let mut i: usize = 0;
    while i < limit
        invariant
            i <= limit <= lines@.len(),
            r@.len() == i,
            forall|k: int| 0 <= k < i ==> (#[trigger] r@[k])@ == lines@[k]@,
        decreases limit - i,
    {
        let line = copy_bytes(&lines[i]);
        r.push(line);
        i += 1;
    }
    proof {
        assert(byte_views(r@) =~= byte_views(lines@).take(limit as int));
        if n >= lines@.len() {
            assert(byte_views(lines@).take(limit as int) =~= byte_views(lines@).take(
                lines@.len() as int,
            ));
        }
    }
    r
}

/// The first `n` bytes of a stream; all of them if it is shorter.
pub fn head_bytes(data: &Vec<u8>, n: usize) -> (r: Vec<u8>)
    ensures
        r@ == data@.take(
            if n <= data@.len() {
                n as int
            } else {
                data@.len() as int
            },
        ),
{
    let limit = if n < data.len() {
        n
    } else {
        data.len()
    };
    let mut r: Vec<u8> = Vec::new();
    let mut i: usize = 0;
    while i < limit
        invariant
            i <= limit <= data@.len(),
            r@ == data@.take(i as int),
        decreases limit - i,
    {
        r.push(data[i]);
        i += 1;
        assert(r@ =~= data@.take(i as int));
    }
    proof {
        assert(r@ =~= data@.take(limit as int));
        if n >= data@.len() {
            assert(data@.take(limit as int) =~= data@.take(data@.len() as int));
        }
    }
    r
}

/// The header line naming a source when several are printed: a blank
/// separator line stands before every header but the first.
pub open spec fn spec_header(name: Seq<char>, first: bool) -> Seq<char> {
    (if first {
        Seq::<char>::empty()
    } else {
        "\n"@
    }) + "==> "@ + name + " <==\n"@
}

/// Renders the header that announces one source's output.
pub fn header_line(name: &String, first: bool) -> (r: String)
    ensures
        r@ == spec_header(name@, first),
{
    let mut s = String::new();
    if !first {
        s.append("\n");
    }
    s.append("==> ");
    s.append(name.as_str());
    s.append(" <==\n");
    assert(s@ =~= spec_header(name@, first));
    s
}

/// The extractor's finished configuration: the streams to read and the
/// requested bounds.
pub struct Config {
    pub files: Vec<String>,
    pub lines: usize,
    pub bytes: Option<usize>,
}

} // verus!
