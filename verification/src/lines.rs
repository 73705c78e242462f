//! Lines of text: where they end, and which are blank.

use vstd::prelude::*;
use vstd::string::*;
use vstd::utf8::*;

verus! {

/// The first place of a character, or the end of the text where there is none.
pub open spec fn first_place(text: Seq<char>, c: char) -> int
    decreases text.len(),
{
    if text.len() == 0 || text[0] == c {
        0
    } else {
        1 + first_place(text.skip(1), c)
    }
}

/// The first place of a character is within the text, or right after it.
proof fn lemma_first_place(text: Seq<char>, c: char)
    ensures
        0 <= first_place(text, c) <= text.len(),
    decreases text.len(),
{
    if text.len() > 0 && text[0] != c {
        lemma_first_place(text.skip(1), c);
    }
}

/// The first place of a character is right after what does not hold it.
pub proof fn lemma_first_place_after(before: Seq<char>, c: char, text: Seq<char>)
    requires
        !before.contains(c),
        text == before || (text.len() > before.len() && text.take(before.len() as int) == before
            && text[before.len() as int] == c),
    ensures
        first_place(text, c) == before.len(),
    decreases before.len(),
{
    if before.len() > 0 {
        let rest = before.skip(1);
        assert(before.contains(before[0]));
        assert(text[0] == before[0]) by {
            if text != before {
                assert(text.take(before.len() as int)[0] == text[0]);
            }
        }
        assert(!rest.contains(c)) by {
            if rest.contains(c) {
                assert(before[rest.index_of(c) + 1] == c);
            }
        }
        if text != before {
            assert(text.skip(1).take(rest.len() as int) =~= text.take(before.len() as int).skip(1));
        }
        lemma_first_place_after(rest, c, text.skip(1));
    }
}

/// A line without the carriage return that belongs to its ending.
pub open spec fn without_return(line: Seq<char>) -> Seq<char> {
    if line.len() > 0 && line.last() == '\r' {
        line.drop_last()
    } else {
        line
    }
}

/// The lines of a text. A line ends with a newline, or with a carriage return and a
/// newline, neither of which belongs to it; the last line need not end with either.
pub open spec fn lines_of(text: Seq<char>) -> Seq<Seq<char>>
    decreases text.len(),
    via lines_of_decreases
{
    let end = first_place(text, '\n');
    if text.len() == 0 {
        Seq::empty()
    } else if end >= text.len() {
        seq![text]
    } else {
        seq![without_return(text.take(end))] + lines_of(text.skip(end + 1))
    }
}

#[via_fn]
proof fn lines_of_decreases(text: Seq<char>) {
    lemma_first_place(text, '\n');
}

/// The contents of strings.
pub open spec fn texts_of(strings: Seq<&str>) -> Seq<Seq<char>> {
    Seq::new(strings.len(), |i: int| strings[i]@)
}

/// A text that holds a newline holds its byte.
proof fn lemma_newline_byte(chars: Seq<char>)
    requires
        chars.contains('\n'),
    ensures
        encode_utf8(chars).contains(0x0au8),
    decreases chars.len(),
{
    let bytes = encode_utf8(chars);
    let head = encode_scalar(chars[0] as u32);
    let tail = encode_utf8(chars.drop_first());
    assert(bytes == head + tail);
    if chars[0] == '\n' {
        let c: u32 = 0x0a;
        assert(leading_byte_width_1(c) == 0x0au8) by (bit_vector)
            requires
                c == 0x0a,
        ;
        assert(head[0] == 0x0au8);
        assert(bytes[0] == 0x0au8);
    } else {
        let i = chars.index_of('\n');
        assert(chars.drop_first()[i - 1] == '\n');
        lemma_newline_byte(chars.drop_first());
        let p = tail.index_of(0x0au8);
        assert(bytes[head.len() + p] == 0x0au8);
    }
}

/// Splits a text at its first newline.
fn cut_line<'a>(text: &'a str) -> (cut: Option<(&'a str, &'a str)>)
    ensures
        match cut {
            Some((line, rest)) => {
                &&& !line@.contains('\n')
                &&& text@ == line@.push('\n') + rest@
            },
            None => !text@.contains('\n'),
        },
{
    let bytes = text.as_bytes();
    let n: usize = bytes.len();
    let mut end: usize = 0;
    while end < n && bytes[end] != 0x0a
        invariant
            n == bytes@.len(),
            end <= n,
            forall|i: int| 0 <= i < end ==> (#[trigger] bytes@[i]) != 0x0au8,
        decreases n - end,
    {
        end = end + 1;
    }
    if end == n {
        proof {
            if text@.contains('\n') {
                lemma_newline_byte(text@);
            }
        }
        return None;
    }
    let ghost all = text.spec_bytes();
    proof {
        encode_utf8_valid_utf8(text@);
        assert(!is_continuation_byte(0x0au8));
        is_char_boundary_iff_not_is_continuation_byte(all, end as int);
    }
    let (line, tail) = text.split_at(end);
    let ghost ended = tail.spec_bytes();
    proof {
        encode_utf8_decode_utf8(text@);
        encode_utf8_decode_utf8(line@);
        encode_utf8_decode_utf8(tail@);
        decode_utf8_split(all, end as int);
        assert(text@ == line@ + tail@);
        if line@.contains('\n') {
            lemma_newline_byte(line@);
            let i = line.spec_bytes().index_of(0x0au8);
            assert(bytes@[i] == 0x0au8);
        }
        assert(ended[0] == 0x0au8);
        encode_utf8_valid_utf8(tail@);
        assert(tail@.len() > 0);
        encode_utf8_first_scalar(tail@);
        let b: u8 = 0x0a;
        assert(is_leading_byte_width_1(b) && codepoint_width_1(b) == 0x0au32) by (bit_vector)
            requires
                b == 0x0a,
        ;
        assert(tail@[0] as u32 == 0x0au32);
        char_u32_cast(tail@[0], 0x0au32);
        char_u32_cast('\n', 0x0au32);
        assert(tail@[0] == '\n');
        reveal_with_fuel(is_char_boundary, 2);
        assert(is_char_boundary(ended, 1));
    }
    let (_, rest) = tail.split_at(1);
    proof {
        encode_utf8_decode_utf8(rest@);
        assert(rest.spec_bytes() == pop_first_scalar(ended));
        assert(tail@ =~= seq!['\n'] + rest@);
        assert(text@ =~= line@.push('\n') + rest@);
    }
    Some((line, rest))
}

/// Takes off the carriage return that belongs to a line's ending.
fn strip_return<'a>(line: &'a str) -> (stripped: &'a str)
    ensures
        stripped@ == without_return(line@),
{
    let n: usize = line.unicode_len();
    if n > 0 && line.get_char(n - 1) == '\r' {
        let stripped = line.substring_char(0, n - 1);
        assert(stripped@ =~= line@.drop_last());
        stripped
    } else {
        line
    }
}

/// Splits a text into its lines, without their endings.
pub fn split_lines<'a>(text: &'a str) -> (lines: Vec<&'a str>)
    ensures
        texts_of(lines@) == lines_of(text@),
{
    let mut lines: Vec<&'a str> = Vec::new();
    let mut rest: &'a str = text;
    let mut more = true;
    assert(texts_of(lines@) + lines_of(text@) =~= lines_of(text@));
    while more
        invariant
            more ==> texts_of(lines@) + lines_of(rest@) == lines_of(text@),
            !more ==> texts_of(lines@) == lines_of(text@),
        decreases rest@.len() + (if more { 1int } else { 0int }),
    {
        let ghost before = lines@;
        match cut_line(rest) {
            Some((line, next)) => {
                proof {
                    assert(rest@.take(line@.len() as int) =~= line@);
                    lemma_first_place_after(line@, '\n', rest@);
                    assert(rest@.skip((line@.len() + 1) as int) =~= next@);
                }
                lines.push(strip_return(line));
                proof {
                    assert(texts_of(lines@) =~= texts_of(before).push(without_return(line@)));
                    assert(texts_of(lines@) + lines_of(next@) =~= texts_of(before) + lines_of(rest@));
                }
                rest = next;
            },
            None => {
                more = false;
                proof {
                    lemma_first_place_after(rest@, '\n', rest@);
                }
                if !rest.is_empty() {
                    lines.push(rest);
                    assert(texts_of(lines@) =~= texts_of(before) + seq![rest@]);
                } else {
                    assert(texts_of(lines@) + lines_of(rest@) =~= texts_of(lines@));
                }
            },
        }
    }
    lines
}

/// The characters with the Unicode property `White_Space`.
pub open spec fn white_space(c: char) -> bool {
    let code = c as u32;
    ||| 0x9 <= code <= 0xd
    ||| code == 0x20
    ||| code == 0x85
    ||| code == 0xa0
    ||| code == 0x1680
    ||| 0x2000 <= code <= 0x200a
    ||| 0x2028 <= code <= 0x2029
    ||| code == 0x202f
    ||| code == 0x205f
    ||| code == 0x3000
}

/// Nothing but white space.
pub open spec fn blank(line: Seq<char>) -> bool {
    forall|i: int| 0 <= i < line.len() ==> white_space(#[trigger] line[i])
}

fn is_white_space(c: char) -> (r: bool)
    ensures
        r == white_space(c),
{
    let code: u32 = c as u32;
    (0x9 <= code && code <= 0xd) || code == 0x20 || code == 0x85 || code == 0xa0 || code == 0x1680
        || (0x2000 <= code && code <= 0x200a) || (0x2028 <= code && code <= 0x2029) || code
        == 0x202f || code == 0x205f || code == 0x3000
}

/// Whether a line holds nothing but white space.
pub fn is_blank(line: &str) -> (r: bool)
    ensures
        r == blank(line@),
{
    let mut all = true;
    for c in it: line.chars()
        invariant
            it.seq() == line@,
            all <==> forall|i: int| 0 <= i < it.index() ==> white_space(#[trigger] line@[i]),
    {
        all = all && is_white_space(c);
    }
    all
}

} // verus!
