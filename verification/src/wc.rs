//! The counter: per-stream line, word, byte and character totals, their
//! accumulation over several streams, and the fixed-width rendering of the
//! resulting report lines.

use vstd::prelude::*;

use crate::text::{decode_step, head_len, head_scalar, is_space_scalar, spec_rjust};
use vstd::string::StringExecFns;

verus! {

/// The number of line feed bytes of `s`.
pub open spec fn newline_count(s: Seq<u8>) -> nat
    decreases s.len(),
{
    if s.len() == 0 {
        0
    } else {
        newline_count(s.drop_last()) + if s.last() == 10 {
            1nat
        } else {
            0nat
        }
    }
}

/// The number of lines of `s`: one per line feed, plus a final
/// unterminated fragment if one remains.
pub open spec fn line_count(s: Seq<u8>) -> nat {
    newline_count(s) + if s.len() > 0 && s.last() != 10 {
        1nat
    } else {
        0nat
    }
}

/// The number of whitespace-delimited words remaining in `s` when
/// `in_word` says whether the decoded unit just before `s` was not
/// whitespace. The stream is decoded leniently, one unit per scalar or
/// per maximal ill-formed subpart, and whitespace is the Unicode
/// White_Space set; a replacement character is part of a word.
pub open spec fn word_count_from(s: Seq<u8>, in_word: bool) -> nat
    decreases s.len(),
    via word_count_from_decreases
{
    if s.len() == 0 {
        0
    } else {
        (if !is_space_scalar(head_scalar(s)) && !in_word {
            1nat
        } else {
            0nat
        }) + word_count_from(s.skip(head_len(s)), !is_space_scalar(head_scalar(s)))
    }
}

#[via_fn]
proof fn word_count_from_decreases(s: Seq<u8>, in_word: bool) {
    if s.len() > 0 {
        crate::text::lemma_head_len_bounds(s);
    }
}

/// The number of whitespace-delimited words of `s`.
pub open spec fn word_count(s: Seq<u8>) -> nat {
    word_count_from(s, false)
}

/// The number of characters `s` decodes to leniently: one per well-formed
/// UTF-8 scalar, and one replacement character per maximal subpart of an
/// ill-formed sequence — never a failure.
pub open spec fn char_count(s: Seq<u8>) -> nat
    decreases s.len(),
    via char_count_decreases
{
    if s.len() == 0 {
        0
    } else {
        1 + char_count(s.skip(head_len(s)))
    }
}

#[via_fn]
proof fn char_count_decreases(s: Seq<u8>) {
    if s.len() > 0 {
        crate::text::lemma_head_len_bounds(s);
    }
}

proof fn lemma_newline_count_le(s: Seq<u8>)
    ensures
        newline_count(s) <= s.len(),
    decreases s.len(),
{
    if s.len() > 0 {
        lemma_newline_count_le(s.drop_last());
    }
}


proof fn lemma_newline_count_none(s: Seq<u8>)
    requires
        forall|j: int| 0 <= j < s.len() ==> s[j] != 10,
    ensures
        newline_count(s) == 0,
    decreases s.len(),
{
    if s.len() > 0 {
        lemma_newline_count_none(s.drop_last());
    }
}

proof fn lemma_newline_count_concat(a: Seq<u8>, b: Seq<u8>)
    ensures
        newline_count(a + b) == newline_count(a) + newline_count(b),
    decreases b.len(),
{
    if b.len() == 0 {
        assert(a + b =~= a);
    } else {
        assert((a + b).drop_last() =~= a + b.drop_last());
        assert((a + b).last() == b.last());
        lemma_newline_count_concat(a, b.drop_last());
    }
}

/// The counter and the line splitter agree: the line total of a stream is
/// exactly the number of line records it splits into.
pub proof fn lemma_line_count_is_split_len(s: Seq<u8>)
    ensures
        line_count(s) == crate::text::spec_split_lines(s).len(),
    decreases s.len(),
{
    if s.len() > 0 {
        crate::text::lemma_first_line_len_bounds(s);
        crate::text::lemma_first_line_shape(s);
        let k = crate::text::first_line_len(s) as int;
        let head = s.take(k);
        let tail = s.skip(k);
        lemma_line_count_is_split_len(tail);
        assert(head + tail =~= s);
        lemma_newline_count_concat(head, tail);
        assert(crate::text::spec_split_lines(s).len() == 1 + crate::text::spec_split_lines(
            tail,
        ).len());
        if s[k - 1] == 10 {
            assert(head.last() == s[k - 1]);
            assert(head.drop_last() =~= s.take(k - 1));
            lemma_newline_count_none(head.drop_last());
            assert(newline_count(head) == 1);
            if tail.len() == 0 {
                assert(s.last() == s[k - 1]);
                assert(line_count(s) == 1);
                assert(line_count(tail) == 0);
            } else {
                assert(s.last() == tail.last());
            }
        } else {
            assert(k == s.len());
            lemma_newline_count_none(s);
            assert(tail.len() == 0);
            assert(line_count(tail) == 0);
            assert(line_count(s) == 1);
        }
    }
}

/// Per-stream totals of the counter.
#[derive(Debug, PartialEq, Eq, Structural, Clone, Copy)]
pub struct FileInfo {
    pub num_lines: usize,
    pub num_words: usize,
    pub num_bytes: usize,
    pub num_chars: usize,
}

/// Counts the lines, words, bytes and characters of one whole input
/// stream: lines per terminator-bounded read, words per Unicode
/// whitespace boundaries, characters per lenient UTF-8 decoding. Invalid
/// byte sequences are never fatal; each maximal ill-formed subpart counts
/// as one replacement character. The character count never exceeds the
/// byte count.
pub fn count(data: &Vec<u8>) -> (info: FileInfo)
    ensures
        info.num_bytes == data@.len(),
        info.num_lines == line_count(data@),
        info.num_words == word_count(data@),
        info.num_chars == char_count(data@),
        info.num_chars <= info.num_bytes,
{
    let mut nl: usize = 0;
    let mut i: usize = 0;
    proof {
        assert(data@.take(0) =~= Seq::<u8>::empty());
    }
    while i < data.len()
        invariant
            i <= data.len(),
            nl == newline_count(data@.take(i as int)),
            nl <= i,
        decreases data.len() - i,
    {
        let b = data[i];
        proof {
            assert(data@.take(i + 1).drop_last() =~= data@.take(i as int));
            assert(data@.take(i + 1).last() == b);
            assert(newline_count(data@.take(i + 1)) == newline_count(data@.take(i as int)) + if b
                == 10 {
                1nat
            } else {
                0nat
            });
        }
        if b == 10 {
            nl += 1;
        }
        i += 1;
    }
    proof {
        assert(data@.take(i as int) =~= data@);
    }
    let num_lines = if data.len() > 0 && data[data.len() - 1] != 10 {
        proof {
            lemma_newline_count_le(data@.drop_last());
            assert(newline_count(data@) == newline_count(data@.drop_last()));
        }
        nl + 1
    } else {
        nl
    };
    let mut chars: usize = 0;
    let mut words: usize = 0;
    let mut in_word = false;
    let mut j: usize = 0;
    proof {
        assert(data@.skip(0) =~= data@);
    }
    while j < data.len()
        invariant
            j <= data.len(),
            chars + char_count(data@.skip(j as int)) == char_count(data@),
            words + word_count_from(data@.skip(j as int), in_word) == word_count(data@),
            chars <= j,
            words <= j,
        decreases data.len() - j,
    {
        let r = decode_step(data, j);
        let step = r.0;
        let sp = r.1;
        proof {
            let t = data@.skip(j as int);
            assert(t.len() > 0);
            assert(t.skip(head_len(t)) =~= data@.skip(j + step));
            assert(char_count(t) == 1 + char_count(t.skip(head_len(t))));
            assert(word_count_from(t, in_word) == (if !is_space_scalar(head_scalar(t)) && !in_word {
                1nat
            } else {
                0nat
            }) + word_count_from(t.skip(head_len(t)), !is_space_scalar(head_scalar(t))));
        }
        if sp {
            in_word = false;
        } else {
            if !in_word {
                words += 1;
            }
            in_word = true;
        }
        chars += 1;
        j += step;
    }
    proof {
        assert(data@.skip(j as int) =~= Seq::<u8>::empty());
    }
    FileInfo { num_lines, num_words: words, num_bytes: data.len(), num_chars: chars }
}

/// Adds the totals of one stream into a grand total; `None` only if a sum
/// would not fit in `usize`.
pub fn combine(total: &FileInfo, info: &FileInfo) -> (r: Option<FileInfo>)
    ensures
        match r {
            Some(t) => {
                &&& t.num_lines == total.num_lines + info.num_lines
                &&& t.num_words == total.num_words + info.num_words
                &&& t.num_bytes == total.num_bytes + info.num_bytes
                &&& t.num_chars == total.num_chars + info.num_chars
            },
            None => {
                ||| total.num_lines + info.num_lines > usize::MAX
                ||| total.num_words + info.num_words > usize::MAX
                ||| total.num_bytes + info.num_bytes > usize::MAX
                ||| total.num_chars + info.num_chars > usize::MAX
            },
        },
{
    if total.num_lines > usize::MAX - info.num_lines
        || total.num_words > usize::MAX - info.num_words
        || total.num_bytes > usize::MAX - info.num_bytes
        || total.num_chars > usize::MAX - info.num_chars {
        None
    } else {
        Some(
            FileInfo {
                num_lines: total.num_lines + info.num_lines,
                num_words: total.num_words + info.num_words,
                num_bytes: total.num_bytes + info.num_bytes,
                num_chars: total.num_chars + info.num_chars,
            },
        )
    }
}

/// One report field: `value` right-justified to at least eight characters
/// when shown, and nothing at all when suppressed.
pub fn format_field(value: usize, show: bool) -> (r: String)
    ensures
        r@ == if show {
            spec_rjust(value as nat, 8)
        } else {
            Seq::<char>::empty()
        },
{
    if show {
        crate::text::format_number(value, 8)
    } else {
        String::new()
    }
}

/// The counter's finished configuration: the streams to read and which
/// counts to show.
pub struct Config {
    pub files: Vec<String>,
    pub lines: bool,
    pub words: bool,
    pub bytes: bool,
    pub chars: bool,
}

impl Config {
    /// Derives the finished configuration from the explicitly requested
    /// fields: when none is requested, lines, words and bytes are shown
    /// and characters are not.
    pub fn from_flags(files: Vec<String>, lines: bool, words: bool, bytes: bool, chars: bool) -> (c:
        Config)
        ensures
            c.files == files,
            (!lines && !words && !bytes && !chars) ==> (c.lines && c.words && c.bytes && !c.chars),
            (lines || words || bytes || chars) ==> (c.lines == lines && c.words == words && c.bytes
                == bytes && c.chars == chars),
    {
        if !lines && !words && !bytes && !chars {
            Config { files, lines: true, words: true, bytes: true, chars: false }
        } else {
            Config { files, lines, words, bytes, chars }
        }
    }
}

/// A field of the report: empty when suppressed, right-justified decimal
/// when shown.
pub open spec fn spec_field(value: nat, show: bool) -> Seq<char> {
    if show {
        spec_rjust(value, 8)
    } else {
        Seq::empty()
    }
}

/// One report line: the selected fields of `info` in order, then the
/// label, preceded by one space, unless the label is `-`, the name of
/// standard input, which is left unwritten.
pub open spec fn spec_report_line(
    info: FileInfo,
    lines: bool,
    words: bool,
    bytes: bool,
    chars: bool,
    label: Seq<char>,
) -> Seq<char> {
    spec_field(info.num_lines as nat, lines) + spec_field(info.num_words as nat, words)
        + spec_field(info.num_bytes as nat, bytes) + spec_field(info.num_chars as nat, chars) + if label
        == seq!['-'] {
        Seq::<char>::empty()
    } else {
        seq![' '] + label
    }
}

/// Renders the report line for one stream.
pub fn format_report_line(info: &FileInfo, config: &Config, label: &String) -> (r: String)
    ensures
        r@ == spec_report_line(
            *info,
            config.lines,
            config.words,
            config.bytes,
            config.chars,
            label@,
        ),
{
    let mut s = format_field(info.num_lines, config.lines);
    let w = format_field(info.num_words, config.words);
    s.append(w.as_str());
    let b = format_field(info.num_bytes, config.bytes);
    s.append(b.as_str());
    let c = format_field(info.num_chars, config.chars);
    s.append(c.as_str());
    let is_stdin = label_is_stdin(label);
    if !is_stdin {
        proof { reveal_strlit(" "); }
        s.append(" ");
        s.append(label.as_str());
        proof {
            assert(" "@ =~= seq![' ']);
        }
    }
    assert(s@ =~= spec_report_line(
        *info,
        config.lines,
        config.words,
        config.bytes,
        config.chars,
        label@,
    ));
    s
}

fn label_is_stdin(label: &String) -> (r: bool)
    ensures
        r == (label@ == seq!['-']),
{
    proof { reveal_strlit("-"); }
    let d = String::from_str("-");
    let r = label.eq(&d);
    proof {
        assert(d@ =~= seq!['-']);
    }
    r
}

} // verus!
