//! Byte-level primitives shared by the tools: line splitting, terminator
//! stripping, counting helpers and fixed-width decimal rendering.

use vstd::prelude::*;

verus! {

/// A UTF-8 continuation byte.
pub open spec fn is_cont_byte(b: u8) -> bool {
    128 <= b && b < 192
}

/// Whether `b1` is an acceptable second byte after the lead byte `b0` of a
/// multi-byte UTF-8 sequence: the restricted ranges rule out overlong
/// forms, surrogates and scalars past the last code point.
pub open spec fn second_byte_ok(b0: u8, b1: u8) -> bool {
    if b0 == 0xe0 {
        0xa0 <= b1 && b1 <= 0xbf
    } else if b0 == 0xed {
        0x80 <= b1 && b1 <= 0x9f
    } else if b0 == 0xf0 {
        0x90 <= b1 && b1 <= 0xbf
    } else if b0 == 0xf4 {
        0x80 <= b1 && b1 <= 0x8f
    } else {
        is_cont_byte(b1)
    }
}

/// How many bytes the first decoded unit of `s` spans under lenient UTF-8
/// decoding: the length of a well-formed scalar's encoding, or of the
/// maximal subpart of an ill-formed sequence, which one replacement
/// character stands for.
pub open spec fn head_len(s: Seq<u8>) -> int
    recommends
        s.len() > 0,
{
    let b0 = s[0];
    if b0 < 0x80 {
        1
    } else if 0xc2 <= b0 && b0 <= 0xdf {
        if s.len() >= 2 && is_cont_byte(s[1]) {
            2
        } else {
            1
        }
    } else if 0xe0 <= b0 && b0 <= 0xef {
        if s.len() >= 2 && second_byte_ok(b0, s[1]) {
            if s.len() >= 3 && is_cont_byte(s[2]) {
                3
            } else {
                2
            }
        } else {
            1
        }
    } else if 0xf0 <= b0 && b0 <= 0xf4 {
        if s.len() >= 2 && second_byte_ok(b0, s[1]) {
            if s.len() >= 3 && is_cont_byte(s[2]) {
                if s.len() >= 4 && is_cont_byte(s[3]) {
                    4
                } else {
                    3
                }
            } else {
                2
            }
        } else {
            1
        }
    } else {
        1
    }
}

/// The scalar value of the first decoded unit of `s`: the code point of a
/// well-formed sequence, and the replacement character for the maximal
/// subpart of an ill-formed one.
pub open spec fn head_scalar(s: Seq<u8>) -> int
    recommends
        s.len() > 0,
{
    let b0 = s[0];
    if b0 < 0x80 {
        b0 as int
    } else if 0xc2 <= b0 && b0 <= 0xdf && head_len(s) == 2 {
        (b0 - 0xc0) * 0x40 + (s[1] - 0x80)
    } else if 0xe0 <= b0 && b0 <= 0xef && head_len(s) == 3 {
        (b0 - 0xe0) * 0x1000 + (s[1] - 0x80) * 0x40 + (s[2] - 0x80)
    } else if 0xf0 <= b0 && b0 <= 0xf4 && head_len(s) == 4 {
        (b0 - 0xf0) * 0x40000 + (s[1] - 0x80) * 0x1000 + (s[2] - 0x80) * 0x40 + (s[3] - 0x80)
    } else {
        0xfffd
    }
}

pub proof fn lemma_head_len_bounds(s: Seq<u8>)
    requires
        s.len() > 0,
    ensures
        1 <= head_len(s) <= s.len(),
{
}

/// A scalar with the Unicode White_Space property: what the standard
/// library's whitespace test accepts.
pub open spec fn is_space_scalar(c: int) -> bool {
    ||| c == 32
    ||| (9 <= c && c <= 13)
    ||| c == 0x85
    ||| c == 0xa0
    ||| c == 0x1680
    ||| (0x2000 <= c && c <= 0x200a)
    ||| c == 0x2028
    ||| c == 0x2029
    ||| c == 0x202f
    ||| c == 0x205f
    ||| c == 0x3000
}

/// Reads one decoded unit at position `i`: how many bytes it spans and
/// whether its scalar is whitespace.
pub fn decode_step(data: &Vec<u8>, i: usize) -> (r: (usize, bool))
    requires
        i < data@.len(),
    ensures
        r.0 == head_len(data@.skip(i as int)),
        1 <= r.0,
        i + r.0 <= data@.len(),
        r.1 == is_space_scalar(head_scalar(data@.skip(i as int))),
{
    let ghost t = data@.skip(i as int);
    proof {
        assert(t.len() == data@.len() - i);
        assert(t[0] == data@[i as int]);
        if i + 1 < data@.len() {
            assert(t[1] == data@[i + 1]);
        }
        if i + 2 < data@.len() {
            assert(t[2] == data@[i + 2]);
        }
        if i + 3 < data@.len() {
            assert(t[3] == data@[i + 3]);
        }
    }
    let n = data.len();
    let b0 = data[i];
    if b0 < 0x80 {
        (1, b0 == 32 || (9 <= b0 && b0 <= 13))
    } else if 0xc2 <= b0 && b0 <= 0xdf {
        if i + 1 < n && 0x80 <= data[i + 1] && data[i + 1] < 0xc0 {
            let sc: u32 = (b0 as u32 - 0xc0) * 0x40 + (data[i + 1] as u32 - 0x80);
            proof {
                assert(sc == head_scalar(t));
                assert(sc < 0x800);
            }
            (2, sc == 0x85 || sc == 0xa0)
        } else {
            (1, false)
        }
    } else if 0xe0 <= b0 && b0 <= 0xef {
        let lo2: u8 = if b0 == 0xe0 {
            0xa0
        } else {
            0x80
        };
        let hi2: u8 = if b0 == 0xed {
            0x9f
        } else {
            0xbf
        };
        if i + 1 < n && lo2 <= data[i + 1] && data[i + 1] <= hi2 {
            if i + 2 < n && 0x80 <= data[i + 2] && data[i + 2] < 0xc0 {
                let sc: u32 = (b0 as u32 - 0xe0) * 0x1000 + (data[i + 1] as u32 - 0x80) * 0x40 + (
                data[i + 2] as u32 - 0x80);
                proof {
                    assert(sc == head_scalar(t));
                    assert(0x800 <= sc < 0x10000);
                }
                (
                    3,
                    sc == 0x1680 || (0x2000 <= sc && sc <= 0x200a) || sc == 0x2028 || sc == 0x2029
                        || sc == 0x202f || sc == 0x205f || sc == 0x3000,
                )
            } else {
                (2, false)
            }
        } else {
            (1, false)
        }
    } else if 0xf0 <= b0 && b0 <= 0xf4 {
        let lo2: u8 = if b0 == 0xf0 {
            0x90
        } else {
            0x80
        };
        let hi2: u8 = if b0 == 0xf4 {
            0x8f
        } else {
            0xbf
        };
        if i + 1 < n && lo2 <= data[i + 1] && data[i + 1] <= hi2 {
            if i + 2 < n && 0x80 <= data[i + 2] && data[i + 2] < 0xc0 {
                if i + 3 < n && 0x80 <= data[i + 3] && data[i + 3] < 0xc0 {
                    proof {
                        assert(head_scalar(t) >= 0x10000);
                    }
                    (4, false)
                } else {
                    (3, false)
                }
            } else {
                (2, false)
            }
        } else {
            (1, false)
        }
    } else {
        (1, false)
    }
}

/// A line terminator byte: line feed or carriage return.
pub open spec fn is_term_byte(b: u8) -> bool {
    b == 10 || b == 13
}

/// The views of a sequence of byte vectors.
pub open spec fn byte_views(ls: Seq<Vec<u8>>) -> Seq<Seq<u8>> {
    ls.map_values(|v: Vec<u8>| v@)
}

/// `s` with every trailing line-terminator byte removed.
pub open spec fn strip_term(s: Seq<u8>) -> Seq<u8>
    decreases s.len(),
{
    if s.len() > 0 && is_term_byte(s.last()) {
        strip_term(s.drop_last())
    } else {
        s
    }
}

/// The length of the first line of `s`, its terminator included; the whole
/// of `s` if no line feed occurs.
pub open spec fn first_line_len(s: Seq<u8>) -> nat
    decreases s.len(),
{
    if s.len() == 0 {
        0
    } else if s.first() == 10 {
        1
    } else {
        1 + first_line_len(s.drop_first())
    }
}

pub proof fn lemma_first_line_len_bounds(s: Seq<u8>)
    ensures
        s.len() > 0 ==> 1 <= first_line_len(s) <= s.len(),
    decreases s.len(),
{
    if s.len() > 0 && s.first() != 10 {
        lemma_first_line_len_bounds(s.drop_first());
        if s.drop_first().len() == 0 {
            assert(first_line_len(s.drop_first()) == 0);
        }
    }
}

/// If no line feed stands in `s`, the first line is all of `s`.
pub proof fn lemma_first_line_no_nl(s: Seq<u8>)
    requires
        forall|j: int| 0 <= j < s.len() ==> s[j] != 10,
    ensures
        first_line_len(s) == s.len(),
    decreases s.len(),
{
    if s.len() > 0 {
        lemma_first_line_no_nl(s.drop_first());
    }
}

/// If the first line feed of `s` stands at `k`, the first line is `k + 1`
/// bytes long.
pub proof fn lemma_first_line_nl_at(s: Seq<u8>, k: int)
    requires
        0 <= k < s.len(),
        forall|j: int| 0 <= j < k ==> s[j] != 10,
        s[k] == 10,
    ensures
        first_line_len(s) == k + 1,
    decreases s.len(),
{
    if k > 0 {
        lemma_first_line_nl_at(s.drop_first(), k - 1);
    }
}

/// The first line of a nonempty stream holds no line feed before its last
/// byte, and ends with one unless the stream holds none at all.
pub proof fn lemma_first_line_shape(s: Seq<u8>)
    requires
        s.len() > 0,
    ensures
        forall|j: int| 0 <= j < first_line_len(s) - 1 ==> s[j] != 10,
        s[first_line_len(s) - 1] == 10 || (first_line_len(s) == s.len() && forall|j: int|
            0 <= j < s.len() ==> s[j] != 10),
    decreases s.len(),
{
    lemma_first_line_len_bounds(s);
    if s.first() != 10 && s.len() > 1 {
        lemma_first_line_shape(s.drop_first());
        lemma_first_line_len_bounds(s.drop_first());
        assert(forall|j: int|
            1 <= j < first_line_len(s) - 1 ==> s[j] == s.drop_first()[j - 1] && s[j] != 10);
    }
}

/// `s` cut at every line feed, each piece keeping its terminator; a final
/// unterminated fragment is kept as a last piece.
pub open spec fn spec_split_lines(s: Seq<u8>) -> Seq<Seq<u8>>
    decreases s.len(),
    via spec_split_lines_decreases
{
    if s.len() == 0 {
        Seq::empty()
    } else {
        seq![s.take(first_line_len(s) as int)] + spec_split_lines(
            s.skip(first_line_len(s) as int),
        )
    }
}

#[via_fn]
proof fn spec_split_lines_decreases(s: Seq<u8>) {
    lemma_first_line_len_bounds(s);
}

/// The concatenation of a sequence of lines.
pub open spec fn concat_lines(ls: Seq<Seq<u8>>) -> Seq<u8>
    decreases ls.len(),
{
    if ls.len() == 0 {
        Seq::empty()
    } else {
        ls.first() + concat_lines(ls.drop_first())
    }
}

pub proof fn lemma_concat_lines_push(ls: Seq<Seq<u8>>, l: Seq<u8>)
    ensures
        concat_lines(ls.push(l)) == concat_lines(ls) + l,
    decreases ls.len(),
{
    if ls.len() == 0 {
        assert(ls.push(l).drop_first() =~= Seq::<Seq<u8>>::empty());
        assert(concat_lines(Seq::<Seq<u8>>::empty()) == Seq::<u8>::empty());
        assert(ls.push(l).first() == l);
        assert(concat_lines(ls.push(l)) =~= concat_lines(ls) + l);
    } else {
        assert(ls.push(l).drop_first() =~= ls.drop_first().push(l));
        lemma_concat_lines_push(ls.drop_first(), l);
        assert(concat_lines(ls.push(l)) =~= concat_lines(ls) + l);
    }
}

/// Splitting and rejoining loses nothing: the lines of `s` concatenate
/// back to `s`.
pub proof fn lemma_split_lines_concat(s: Seq<u8>)
    ensures
        concat_lines(spec_split_lines(s)) == s,
    decreases s.len(),
{
    if s.len() == 0 {
        assert(concat_lines(spec_split_lines(s)) =~= s);
    } else {
        lemma_first_line_len_bounds(s);
        let k = first_line_len(s) as int;
        lemma_split_lines_concat(s.skip(k));
        let rest = spec_split_lines(s.skip(k));
        assert(spec_split_lines(s).first() == s.take(k));
        assert(spec_split_lines(s).drop_first() =~= rest);
        assert(concat_lines(spec_split_lines(s)) == s.take(k) + concat_lines(rest));
        assert(s.take(k) + s.skip(k) =~= s);
    }
}

/// The decimal digit character for `d`.
pub open spec fn digit_char(d: nat) -> char {
    if d == 0 {
        '0'
    } else if d == 1 {
        '1'
    } else if d == 2 {
        '2'
    } else if d == 3 {
        '3'
    } else if d == 4 {
        '4'
    } else if d == 5 {
        '5'
    } else if d == 6 {
        '6'
    } else if d == 7 {
        '7'
    } else if d == 8 {
        '8'
    } else {
        '9'
    }
}

/// The decimal digits of `n`, most significant first.
pub open spec fn spec_udec(n: nat) -> Seq<char>
    decreases n,
{
    if n < 10 {
        seq![digit_char(n)]
    } else {
        spec_udec(n / 10).push(digit_char(n % 10))
    }
}

/// `n` space characters.
pub open spec fn spec_spaces(n: nat) -> Seq<char>
    decreases n,
{
    if n == 0 {
        Seq::empty()
    } else {
        spec_spaces((n - 1) as nat).push(' ')
    }
}

/// The decimal digits of `n`, right-justified with spaces to at least
/// `width` characters.
pub open spec fn spec_rjust(n: nat, width: nat) -> Seq<char> {
    if spec_udec(n).len() >= width {
        spec_udec(n)
    } else {
        spec_spaces((width - spec_udec(n).len()) as nat) + spec_udec(n)
    }
}

/// The ASCII bytes of the decimal digits of `n`, most significant first.
pub open spec fn spec_udec_bytes(n: nat) -> Seq<u8>
    decreases n,
{
    if n < 10 {
        seq![(48 + n) as u8]
    } else {
        spec_udec_bytes(n / 10).push((48 + n % 10) as u8)
    }
}

/// `n` ASCII space bytes.
pub open spec fn spec_space_bytes(n: nat) -> Seq<u8>
    decreases n,
{
    if n == 0 {
        Seq::empty()
    } else {
        spec_space_bytes((n - 1) as nat).push(32u8)
    }
}

/// The ASCII decimal rendering of `n`, right-justified with spaces to at
/// least `width` bytes.
pub open spec fn spec_rjust_bytes(n: nat, width: nat) -> Seq<u8> {
    if spec_udec_bytes(n).len() >= width {
        spec_udec_bytes(n)
    } else {
        spec_space_bytes((width - spec_udec_bytes(n).len()) as nat) + spec_udec_bytes(n)
    }
}

pub proof fn lemma_udec_lens(n: nat)
    ensures
        spec_udec(n).len() == spec_udec_bytes(n).len(),
        1 <= spec_udec(n).len() <= n + 1,
    decreases n,
{
    if n >= 10 {
        assert(n / 10 < n) by (nonlinear_arith)
            requires n >= 10;
        assert(n / 10 + 2 <= n + 1) by (nonlinear_arith)
            requires n >= 10;
        lemma_udec_lens(n / 10);
    }
}

fn push_digit(s: &mut String, d: usize)
    requires
        d < 10,
    ensures
        final(s)@ == old(s)@.push(digit_char(d as nat)),
{
    if d == 0 {
        proof { reveal_strlit("0"); }
        s.append("0");
    } else if d == 1 {
        proof { reveal_strlit("1"); }
        s.append("1");
    } else if d == 2 {
        proof { reveal_strlit("2"); }
        s.append("2");
    } else if d == 3 {
        proof { reveal_strlit("3"); }
        s.append("3");
    } else if d == 4 {
        proof { reveal_strlit("4"); }
        s.append("4");
    } else if d == 5 {
        proof { reveal_strlit("5"); }
        s.append("5");
    } else if d == 6 {
        proof { reveal_strlit("6"); }
        s.append("6");
    } else if d == 7 {
        proof { reveal_strlit("7"); }
        s.append("7");
    } else if d == 8 {
        proof { reveal_strlit("8"); }
        s.append("8");
    } else {
        proof { reveal_strlit("9"); }
        s.append("9");
    }
    assert(s@ =~= old(s)@.push(digit_char(d as nat)));
}

fn push_udec(s: &mut String, n: usize)
    ensures
        final(s)@ == old(s)@ + spec_udec(n as nat),
    decreases n,
{
    if n >= 10 {
        proof {
            assert(n / 10 < n) by (nonlinear_arith)
                requires n >= 10;
        }
        push_udec(s, n / 10);
    }
    push_digit(s, n % 10);
    assert(s@ =~= old(s)@ + spec_udec(n as nat));
}

fn num_digits(n: usize) -> (d: usize)
    ensures
        d == spec_udec(n as nat).len(),
    decreases n,
{
    if n < 10 {
        1
    } else {
        proof {
            assert(n / 10 < n) by (nonlinear_arith)
                requires n >= 10;
            lemma_udec_lens((n / 10) as nat);
        }
        let r = num_digits(n / 10);
        r + 1
    }
}

/// Renders `value` in decimal, right-justified with spaces to at least
/// `width` characters.
pub fn format_number(value: usize, width: usize) -> (r: String)
    ensures
        r@ == spec_rjust(value as nat, width as nat),
{
    let nd = num_digits(value);
    let mut s = String::new();
    let mut i = nd;
    proof {
        assert(s@ =~= spec_spaces(0));
    }
    while i < width
        invariant
            nd <= i,
            i <= width || i == nd,
            s@ == spec_spaces((i - nd) as nat),
        decreases width - i,
    {
        proof { reveal_strlit(" "); }
        s.append(" ");
        i += 1;
        assert(s@ =~= spec_spaces((i - nd) as nat));
    }
    push_udec(&mut s, value);
    proof {
        if nd >= width {
            assert(s@ =~= spec_rjust(value as nat, width as nat));
        } else {
            assert(s@ =~= spec_rjust(value as nat, width as nat));
        }
    }
    s
}

/// Renders `value` in ASCII decimal bytes, right-justified with spaces to
/// at least `width` bytes.
pub fn format_number_bytes(value: usize, width: usize) -> (r: Vec<u8>)
    ensures
        r@ == spec_rjust_bytes(value as nat, width as nat),
{
    let nd = num_digits(value);
    proof { lemma_udec_lens(value as nat); }
    let mut v: Vec<u8> = Vec::new();
    let mut i = nd;
    proof {
        assert(v@ =~= spec_space_bytes(0));
    }
    while i < width
        invariant
            nd <= i,
            i <= width || i == nd,
            v@ == spec_space_bytes((i - nd) as nat),
        decreases width - i,
    {
        v.push(32u8);
        i += 1;
        assert(v@ =~= spec_space_bytes((i - nd) as nat));
    }
    push_udec_bytes(&mut v, value);
    assert(v@ =~= spec_rjust_bytes(value as nat, width as nat));
    v
}

fn push_udec_bytes(v: &mut Vec<u8>, n: usize)
    ensures
        final(v)@ == old(v)@ + spec_udec_bytes(n as nat),
    decreases n,
{
    if n >= 10 {
        proof {
            assert(n / 10 < n) by (nonlinear_arith)
                requires n >= 10;
        }
        push_udec_bytes(v, n / 10);
    }
    let d = n % 10;
    v.push(48u8 + d as u8);
    assert(v@ =~= old(v)@ + spec_udec_bytes(n as nat));
}

/// Copies a byte vector.
pub fn copy_bytes(v: &Vec<u8>) -> (r: Vec<u8>)
    ensures
        r@ == v@,
{
    let mut r: Vec<u8> = Vec::new();
    let mut i: usize = 0;
    while i < v.len()
        invariant
            i <= v.len(),
            r@ =~= v@.take(i as int),
        decreases v.len() - i,
    {
        r.push(v[i]);
        i += 1;
        assert(r@ =~= v@.take(i as int));
    }
    assert(v@.take(v.len() as int) =~= v@);
    r
}

/// Cuts `data` into its lines, terminators kept.
pub fn split_lines(data: &Vec<u8>) -> (lines: Vec<Vec<u8>>)
    ensures
        byte_views(lines@) == spec_split_lines(data@),
{
    let mut lines: Vec<Vec<u8>> = Vec::new();
    let mut pos: usize = 0;
    proof {
        assert(byte_views(lines@) =~= Seq::<Seq<u8>>::empty());
        assert(data@.skip(0) =~= data@);
    }
    while pos < data.len()
        invariant
            pos <= data.len(),
            byte_views(lines@) + spec_split_lines(data@.skip(pos as int)) =~= spec_split_lines(
                data@,
            ),
        decreases data.len() - pos,
    {
        let ghost t = data@.skip(pos as int);
        let mut e: usize = pos;
        while e < data.len() && data[e] != 10
            invariant
                pos <= e <= data.len(),
                forall|j: int| pos <= j < e ==> data@[j] != 10,
            decreases data.len() - e,
        {
            e += 1;
        }
        let end = if e < data.len() {
            e + 1
        } else {
            e
        };
        proof {
            assert(t.len() == data@.len() - pos);
            if e < data.len() {
                assert(forall|j: int| 0 <= j < e - pos ==> t[j] != 10);
                lemma_first_line_nl_at(t, e - pos);
            } else {
                assert(forall|j: int| 0 <= j < t.len() ==> t[j] != 10);
                lemma_first_line_no_nl(t);
            }
            assert(first_line_len(t) == end - pos);
        }
        let mut cur: Vec<u8> = Vec::new();
        let mut i: usize = pos;
        while i < end
            invariant
                pos <= i <= end <= data.len(),
                cur@ =~= data@.subrange(pos as int, i as int),
            decreases end - i,
        {
            cur.push(data[i]);
            i += 1;
            assert(cur@ =~= data@.subrange(pos as int, i as int));
        }
        proof {
            assert(cur@ =~= t.take(first_line_len(t) as int));
            assert(t.skip(first_line_len(t) as int) =~= data@.skip(end as int));
            assert(spec_split_lines(t) == seq![t.take(first_line_len(t) as int)]
                + spec_split_lines(t.skip(first_line_len(t) as int)));
        }
        lines.push(cur);
        proof {
            assert(byte_views(lines@) =~= byte_views(lines@.drop_last()).push(cur@));
            assert(byte_views(lines@) + spec_split_lines(data@.skip(end as int))
                =~= spec_split_lines(data@));
        }
        pos = end;
    }
    proof {
        assert(data@.skip(pos as int) =~= Seq::<u8>::empty());
        assert(spec_split_lines(data@.skip(pos as int)) =~= Seq::<Seq<u8>>::empty());
        assert(byte_views(lines@) =~= spec_split_lines(data@));
    }
    lines
}

} // verus!
