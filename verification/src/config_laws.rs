//! What holds of configuration files as a whole, and of their booleans.
use vstd::prelude::*;
use vstd::utf8::{
    codepoint_width_1, decode_first_scalar, decode_utf8, encode_utf8, length_of_first_scalar,
    pop_first_scalar,
    valid_first_scalar, valid_utf8,
};

use crate::bytes::{
    all_lowered, index_from, is_alphabetic, is_digit, is_whitespace, lemma_index_from,
    lemma_index_from_is, lowered, BACKSLASH, BRACKET_CLOSE, BRACKET_OPEN, EQUALS, HASH, NEWLINE, QUOTE, RETURN, SEMICOLON,
};
use crate::git_config::{
    after_config, after_header, after_lines, base_zero, bool_of, bool_of_text, char_in_front,
    chars_from, chars_until, comment_from, continues, decoded, digit_value, escape_of, folded,
    integer_of, is_key_byte, is_white_space, joined, key_end, line_assignment, line_continues,
    line_text, logical_lines, magnitude, physical_lines, same_word, scale_of, section_after,
    section_at, text_from, text_until, trimmed, trimmed_start, without_return, GitConfig,
    GitConfigSection, Variable,
};

verus! {

proof fn lemma_text_from(bytes: Seq<u8>, from: int)
    requires
        0 <= from <= bytes.len(),
    ensures
        from <= text_from(bytes, from) <= bytes.len(),
    decreases bytes.len() - from,
{
    if from < bytes.len() && is_whitespace(bytes[from]) {
        lemma_text_from(bytes, from + 1);
    }
}

proof fn lemma_key_end(line: Seq<u8>, from: int)
    requires
        0 <= from <= line.len(),
    ensures
        from <= key_end(line, from) <= line.len(),
    decreases line.len() - from,
{
    if from < line.len() && key_end(line, from) != from {
        lemma_key_end(line, from + 1);
    }
}

/// A line ends in a backslash.
pub open spec fn ends_in_backslash(line: Seq<u8>) -> bool {
    line.len() > 0 && line.last() == BACKSLASH
}

proof fn lemma_continued_value(value: Seq<u8>, from: int, quoted: bool)
    requires
        0 <= from,
        continues(value, from, quoted) is Some,
    ensures
        ends_in_backslash(value),
    decreases value.len() - from,
{
    if from < value.len() && !(value[from] == BACKSLASH && from + 1 >= value.len()) {
        if value[from] == BACKSLASH {
            lemma_continued_value(value, from + 2, quoted);
        } else if continues(value, from + 1, quoted) is Some {
            lemma_continued_value(value, from + 1, quoted);
        } else {
            lemma_continued_value(value, from + 1, !quoted);
        }
    }
}

/// Only a line that ends in a backslash is continued.
proof fn lemma_continued_line(line: Seq<u8>)
    requires
        line_continues(line) is Some,
    ensures
        ends_in_backslash(line),
{
    let start = trimmed_start(line);
    lemma_text_from(line, 0);
    let rest = after_header(start)->0;
    let text = if start.len() > 0 && start[0] == BRACKET_OPEN {
        trimmed_start(rest)
    } else {
        rest
    };
    if start.len() > 0 && start[0] == BRACKET_OPEN {
        lemma_index_from(start, BRACKET_CLOSE, 0);
        lemma_text_from(rest, 0);
    }
    lemma_key_end(text, 0);
    let behind = text.skip(key_end(text, 0));
    lemma_text_from(behind, 0);
    let value = trimmed_start(behind);
    lemma_continued_value(value.skip(1), 0, false);
    assert(value.skip(1).last() == value.last());
    assert(value.last() == behind.last());
    assert(behind.last() == text.last());
    assert(text.last() == start.last());
    assert(start.last() == line.last());
}

proof fn lemma_physical_shift(a: Seq<u8>, b: Seq<u8>, from: int)
    requires
        0 <= from,
    ensures
        physical_lines(a + b, a.len() + from) == physical_lines(b, from),
    decreases b.len() + 1 - from,
{
    let whole = a + b;
    if from < b.len() {
        lemma_index_from(b, NEWLINE, from);
        let at = index_from(b, NEWLINE, from);
        lemma_index_from_is(whole, NEWLINE, a.len() + from, a.len() + at);
        lemma_physical_shift(a, b, at + 1);
        assert(whole.subrange(a.len() + from, a.len() + at) =~= b.subrange(from, at));
    }
}

proof fn lemma_physical_concat(a: Seq<u8>, b: Seq<u8>, from: int)
    requires
        0 <= from <= a.len(),
        from < a.len() ==> a.last() == NEWLINE,
    ensures
        physical_lines(a + b, from) == physical_lines(a, from) + physical_lines(b, 0),
    decreases a.len() - from,
{
    let whole = a + b;
    if from < a.len() {
        lemma_index_from(a, NEWLINE, from);
        let at = index_from(a, NEWLINE, from);
        assert(at < a.len()) by {
            assert(at == a.len() ==> a[a.len() - 1] != NEWLINE);
        }
        lemma_index_from_is(whole, NEWLINE, from, at);
        lemma_physical_concat(a, b, at + 1);
        assert(whole.subrange(from, at) =~= a.subrange(from, at));
        let line = without_return(a.subrange(from, at));
        assert(seq![line] + (physical_lines(a, at + 1) + physical_lines(b, 0)) =~= (seq![line]
            + physical_lines(a, at + 1)) + physical_lines(b, 0));
    } else {
        lemma_physical_shift(a, b, 0);
        assert(physical_lines(a, from) + physical_lines(b, 0) =~= physical_lines(b, 0));
    }
}

proof fn lemma_joined_concat(
    la: Seq<Seq<u8>>,
    lb: Seq<Seq<u8>>,
    text: Seq<u8>,
    state: Option<bool>,
    next: int,
)
    requires
        0 < next <= la.len(),
        !ends_in_backslash(la.last()),
        state is Some ==> next < la.len(),
    ensures
        joined(la + lb, text, state, next) == joined(la, text, state, next),
        next <= joined(la, text, state, next).1 <= la.len(),
    decreases la.len() - next,
{
    if let Some(quoted) = state {
        let line = la[next];
        assert((la + lb)[next] == line);
        if continues(line, 0, quoted) is Some {
            lemma_continued_value(line, 0, quoted);
        }
        lemma_joined_concat(
            la,
            lb,
            text.drop_last() + line,
            continues(line, 0, quoted),
            next + 1,
        );
    }
}

proof fn lemma_joined_shift(
    la: Seq<Seq<u8>>,
    lb: Seq<Seq<u8>>,
    text: Seq<u8>,
    state: Option<bool>,
    next: int,
)
    requires
        0 <= next <= lb.len(),
    ensures
        joined(la + lb, text, state, la.len() + next).0 == joined(lb, text, state, next).0,
        joined(la + lb, text, state, la.len() + next).1 == la.len() + joined(
            lb,
            text,
            state,
            next,
        ).1,
        next <= joined(lb, text, state, next).1 <= lb.len(),
    decreases lb.len() - next,
{
    if let Some(quoted) = state {
        if next < lb.len() {
            assert((la + lb)[la.len() + next] == lb[next]);
            lemma_joined_shift(
                la,
                lb,
                text.drop_last() + lb[next],
                continues(lb[next], 0, quoted),
                next + 1,
            );
        }
    }
}

proof fn lemma_logical_shift(la: Seq<Seq<u8>>, lb: Seq<Seq<u8>>, from: int)
    requires
        0 <= from <= lb.len(),
    ensures
        logical_lines(la + lb, la.len() + from) == logical_lines(lb, from),
    decreases lb.len() - from,
{
    if from < lb.len() {
        let state = line_continues(lb[from]);
        assert((la + lb)[la.len() + from] == lb[from]);
        lemma_joined_shift(la, lb, lb[from], state, from + 1);
        lemma_logical_shift(la, lb, joined(lb, lb[from], state, from + 1).1);
    }
}

proof fn lemma_logical_concat(la: Seq<Seq<u8>>, lb: Seq<Seq<u8>>, from: int)
    requires
        0 <= from <= la.len(),
        la.len() > 0 ==> !ends_in_backslash(la.last()),
    ensures
        logical_lines(la + lb, from) == logical_lines(la, from) + logical_lines(lb, 0),
    decreases la.len() - from,
{
    if from < la.len() {
        let line = la[from];
        let state = line_continues(line);
        assert((la + lb)[from] == line);
        if state is Some {
            lemma_continued_line(line);
        }
        lemma_joined_concat(la, lb, line, state, from + 1);
        let next = joined(la, line, state, from + 1);
        lemma_logical_concat(la, lb, next.1);
        assert(seq![next.0] + (logical_lines(la, next.1) + logical_lines(lb, 0)) =~= (seq![next.0]
            + logical_lines(la, next.1)) + logical_lines(lb, 0));
    } else {
        lemma_logical_shift(la, lb, 0);
        assert(logical_lines(la, from) + logical_lines(lb, 0) =~= logical_lines(lb, 0));
    }
}

/// Whether a line starts with the bracket of a section header.
pub open spec fn opens_header(line: Seq<u8>) -> bool {
    line.len() > 0 && line[0] == BRACKET_OPEN
}

proof fn lemma_joined_opens(
    lines: Seq<Seq<u8>>,
    text: Seq<u8>,
    state: Option<bool>,
    next: int,
)
    requires
        opens_header(text),
        state is Some ==> ends_in_backslash(text),
        0 <= next,
    ensures
        opens_header(joined(lines, text, state, next).0),
    decreases lines.len() - next,
{
    if let Some(quoted) = state {
        assert(text.len() >= 2);
        if next < lines.len() {
            let line = lines[next];
            if continues(line, 0, quoted) is Some {
                lemma_continued_value(line, 0, quoted);
            }
            lemma_joined_opens(
                lines,
                text.drop_last() + line,
                continues(line, 0, quoted),
                next + 1,
            );
        }
    }
}

proof fn lemma_comment_from(line: Seq<u8>, from: int, quoted: bool, escaped: bool)
    requires
        0 <= from <= line.len(),
    ensures
        from <= comment_from(line, from, quoted, escaped) <= line.len(),
    decreases line.len() - from,
{
    if from < line.len() && comment_from(line, from, quoted, escaped) != from {
        if escaped {
            lemma_comment_from(line, from + 1, quoted, false);
        } else if line[from] == BACKSLASH {
            lemma_comment_from(line, from + 1, quoted, true);
        } else {
            lemma_comment_from(line, from + 1, quoted, false);
            lemma_comment_from(line, from + 1, !quoted, false);
        }
    }
}

proof fn lemma_text_until(bytes: Seq<u8>, until: int)
    requires
        1 <= until <= bytes.len(),
        !is_whitespace(bytes[0]),
    ensures
        1 <= text_until(bytes, until) <= until,
    decreases until,
{
    if is_whitespace(bytes[until - 1]) {
        lemma_text_until(bytes, until - 1);
    }
}

proof fn lemma_header_stays(line: Seq<u8>)
    requires
        opens_header(line),
    ensures
        opens_header(line_text(line)),
{
    lemma_comment_from(line, 1, false, false);
    let text = line.take(comment_from(line, 0, false, false));
    assert(text[0] == BRACKET_OPEN);
    assert(text.skip(0) =~= text);
    lemma_text_until(text, text.len() as int);
}

proof fn lemma_lines_before(config: GitConfig, la: Seq<Seq<u8>>, lb: Seq<Seq<u8>>, count: int)
    requires
        0 <= count <= la.len(),
    ensures
        section_at(la + lb, count) == section_at(la, count),
        after_lines(config, la + lb, count) == after_lines(config, la, count),
    decreases count,
{
    if count > 0 {
        lemma_lines_before(config, la, lb, count - 1);
        assert((la + lb)[count - 1] == la[count - 1]);
    }
}

proof fn lemma_lines_behind(config: GitConfig, la: Seq<Seq<u8>>, lb: Seq<Seq<u8>>, count: int)
    requires
        0 <= count <= lb.len(),
        lb.len() > 0 ==> opens_header(lb[0]),
    ensures
        count > 0 ==> section_at(la + lb, la.len() + count) == section_at(lb, count),
        after_lines(config, la + lb, la.len() + count) == after_lines(
            after_lines(config, la, la.len() as int),
            lb,
            count,
        ),
    decreases count,
{
    if count == 0 {
        lemma_lines_before(config, la, lb, la.len() as int);
    } else {
        lemma_lines_behind(config, la, lb, count - 1);
        assert((la + lb)[la.len() + count - 1] == lb[count - 1]);
        if count == 1 {
            lemma_header_stays(lb[0]);
        }
    }
}

/// A configuration file may be cut in front of a section header: to apply the
/// two parts one after the other is to apply the whole.
///
/// The part in front ends with a complete line that is not continued.
pub proof fn law_a_file_may_be_cut_at_a_section(config: GitConfig, front: Seq<u8>, back: Seq<u8>)
    requires
        front.len() > 0 ==> front.last() == NEWLINE && !ends_in_backslash(
            physical_lines(front, 0).last(),
        ),
        back.len() > 0 ==> opens_header(back),
    ensures
        after_config(config, front + back) == after_config(after_config(config, front), back),
{
    let la = physical_lines(front, 0);
    let lb = physical_lines(back, 0);
    lemma_physical_concat(front, back, 0);
    if front.len() == 0 {
        assert(la.len() == 0);
    }
    lemma_logical_concat(la, lb, 0);
    let ga = logical_lines(la, 0);
    let gb = logical_lines(lb, 0);
    if back.len() > 0 {
        lemma_index_from(back, NEWLINE, 0);
        let first = lb[0];
        assert(opens_header(first));
        let state = line_continues(first);
        if state is Some {
            lemma_continued_line(first);
        }
        lemma_joined_opens(lb, first, state, 1);
        assert(gb[0] == joined(lb, first, state, 1).0);
    }
    lemma_lines_behind(config, ga, gb, gb.len() as int);
}

/// Whether two texts are equal but for the case of ASCII letters.
pub open spec fn alike(a: Seq<char>, b: Seq<char>) -> bool {
    a.len() == b.len() && forall|i: int|
        0 <= i < a.len() ==> #[trigger] folded(a[i]) == folded(b[i])
}

/// Two characters that are equal but for their case read alike.
proof fn lemma_characters_alike(c: char, d: char)
    requires
        folded(c) == folded(d),
    ensures
        !(0x41 <= c as u32 <= 0x5a || 0x61 <= c as u32 <= 0x7a) ==> c == d,
        is_white_space(c) == is_white_space(d),
        digit_value(c) == digit_value(d),
        scale_of(c) == scale_of(d),
        (c == '+') == (d == '+'),
        (c == '-') == (d == '-'),
        (c == '0') == (d == '0'),
        (c == '\\') == (d == '\\'),
        (c == '"') == (d == '"'),
        (c == 'x' || c == 'X') == (d == 'x' || d == 'X'),
{
    let one = c as u32;
    let two = d as u32;
    if !(0x41 <= one <= 0x5a || 0x61 <= one <= 0x7a) {
        assert(one == two);
        assert(c == d);
    } else if one != two {
        assert(one == two + 32 || two == one + 32);
    }
}

proof fn lemma_first_scalars_alike(a: Seq<u8>, b: Seq<u8>)
    requires
        a.len() > 0,
        all_lowered(a) == all_lowered(b),
    ensures
        valid_first_scalar(a) == valid_first_scalar(b),
        valid_first_scalar(a) ==> length_of_first_scalar(a) == length_of_first_scalar(b)
            && folded(decode_first_scalar(a) as char) == folded(decode_first_scalar(b) as char),
        valid_first_scalar(a) ==> 1 <= length_of_first_scalar(a) <= a.len(),
        valid_first_scalar(a) ==> all_lowered(pop_first_scalar(a)) == all_lowered(
            pop_first_scalar(b),
        ),
{
    assert(all_lowered(a).len() == a.len());
    assert(all_lowered(b).len() == b.len());
    assert forall|i: int| 0 <= i < a.len() implies lowered(#[trigger] a[i]) == lowered(b[i]) by {
        assert(all_lowered(a)[i] == lowered(a[i]));
        assert(all_lowered(b)[i] == lowered(b[i]));
    }
    let x = a[0];
    let y = b[0];
    if x <= 0x7f {
        assert(x & 0x7f == x) by (bit_vector)
            requires
                x <= 0x7f,
        ;
        assert(y & 0x7f == y) by (bit_vector)
            requires
                y <= 0x7f,
        ;
        assert(codepoint_width_1(x) == x as u32);
        assert(codepoint_width_1(y) == y as u32);
    } else {
        assert(x == y);
        assert(a.len() > 1 && a[1] > 0x7f ==> a[1] == b[1]);
        assert(a.len() > 2 && a[2] > 0x7f ==> a[2] == b[2]);
        assert(a.len() > 3 && a[3] > 0x7f ==> a[3] == b[3]);
        assert(a.len() > 1 && a[1] <= 0x7f ==> b[1] <= 0x7f);
        assert(a.len() > 2 && a[2] <= 0x7f ==> b[2] <= 0x7f);
        assert(a.len() > 3 && a[3] <= 0x7f ==> b[3] <= 0x7f);
    }
    if valid_first_scalar(a) {
        assert(all_lowered(pop_first_scalar(a)) =~= all_lowered(pop_first_scalar(b)));
    }
}

proof fn lemma_texts_alike(a: Seq<u8>, b: Seq<u8>)
    requires
        all_lowered(a) == all_lowered(b),
    ensures
        valid_utf8(a) == valid_utf8(b),
        valid_utf8(a) ==> alike(decode_utf8(a), decode_utf8(b)),
    decreases a.len(),
{
    assert(all_lowered(a).len() == a.len());
    assert(all_lowered(b).len() == b.len());
    if a.len() > 0 {
        lemma_first_scalars_alike(a, b);
        if valid_first_scalar(a) {
            lemma_texts_alike(pop_first_scalar(a), pop_first_scalar(b));
            if valid_utf8(a) {
                let rest = decode_utf8(pop_first_scalar(a));
                let other = decode_utf8(pop_first_scalar(b));
                let one = decode_utf8(a);
                let two = decode_utf8(b);
                assert(one == seq![decode_first_scalar(a) as char] + rest);
                assert(two == seq![decode_first_scalar(b) as char] + other);
                assert forall|i: int| 0 <= i < one.len() implies #[trigger] folded(one[i])
                    == folded(two[i]) by {
                    if i > 0 {
                        assert(one[i] == rest[i - 1]);
                        assert(two[i] == other[i - 1]);
                        assert(folded(rest[i - 1]) == folded(other[i - 1]));
                    }
                }
            }
        }
    }
}

proof fn lemma_trimmed_alike(a: Seq<char>, b: Seq<char>, from: int, until: int)
    requires
        alike(a, b),
        0 <= from <= a.len(),
        0 <= until <= a.len(),
    ensures
        chars_from(a, from) == chars_from(b, from),
        from <= chars_from(a, from) <= a.len(),
        chars_until(a, from, until) == chars_until(b, from, until),
        chars_until(a, from, until) <= until,
    decreases (a.len() - from) + (if until > from {
        until - from
    } else {
        0
    }),
{
    if from < a.len() {
        assert(folded(a[from]) == folded(b[from]));
        lemma_characters_alike(a[from], b[from]);
        if is_white_space(a[from]) {
            lemma_trimmed_alike(a, b, from + 1, from);
        }
    }
    if until > from {
        assert(folded(a[until - 1]) == folded(b[until - 1]));
        lemma_characters_alike(a[until - 1], b[until - 1]);
        lemma_trimmed_alike(a, b, from, until - 1);
    }
}

/// Whether a text holds a control character.
pub open spec fn has_control(text: Seq<char>) -> bool {
    exists|i: int| 0 <= i < text.len() && (#[trigger] text[i]) as u32 <= 0x1f
}

/// Whether two decoded values come to the same: equal but for the case of
/// ASCII letters, or each either missing or with a control character in it.
spec fn come_to_the_same(one: Option<Seq<char>>, two: Option<Seq<char>>) -> bool {
    match (one, two) {
        (Some(a), Some(b)) => alike(a, b) || has_control(a) && has_control(b),
        (Some(a), None) => has_control(a),
        (None, Some(b)) => has_control(b),
        (None, None) => true,
    }
}

proof fn lemma_put_in_front(c: char, d: char, one: Option<Seq<char>>, two: Option<Seq<char>>)
    requires
        come_to_the_same(one, two),
        folded(c) == folded(d),
    ensures
        come_to_the_same(char_in_front(c, one), char_in_front(d, two)),
{
    if let Some(a) = one {
        let longer = seq![c] + a;
        if has_control(a) {
            let i = choose|i: int| 0 <= i < a.len() && (#[trigger] a[i]) as u32 <= 0x1f;
            assert(longer[i + 1] == a[i]);
        }
    }
    if let Some(b) = two {
        let longer = seq![d] + b;
        if has_control(b) {
            let i = choose|i: int| 0 <= i < b.len() && (#[trigger] b[i]) as u32 <= 0x1f;
            assert(longer[i + 1] == b[i]);
        }
    }
    if let (Some(a), Some(b)) = (one, two) {
        if alike(a, b) {
            let x = seq![c] + a;
            let y = seq![d] + b;
            assert forall|i: int| 0 <= i < x.len() implies #[trigger] folded(x[i]) == folded(
                y[i],
            ) by {
                if i > 0 {
                    assert(x[i] == a[i - 1]);
                    assert(y[i] == b[i - 1]);
                    assert(folded(a[i - 1]) == folded(b[i - 1]));
                }
            }
        }
    }
}

proof fn lemma_control_in_front(c: char, rest: Option<Seq<char>>)
    requires
        c as u32 <= 0x1f,
    ensures
        match char_in_front(c, rest) {
            Some(text) => has_control(text),
            None => true,
        },
{
    if let Some(rest) = rest {
        assert((seq![c] + rest)[0] == c);
    }
}

proof fn lemma_decoded_alike(
    a: Seq<char>,
    b: Seq<char>,
    from: int,
    until: int,
    quoted: bool,
    escaped: bool,
)
    requires
        alike(a, b),
        0 <= from,
        until <= a.len(),
    ensures
        come_to_the_same(
            decoded(a, from, until, quoted, escaped),
            decoded(b, from, until, quoted, escaped),
        ),
    decreases until - from,
{
    if from < until {
        assert(folded(a[from]) == folded(b[from]));
        lemma_characters_alike(a[from], b[from]);
        let c = a[from];
        let d = b[from];
        lemma_decoded_alike(a, b, from + 1, until, quoted, false);
        lemma_decoded_alike(a, b, from + 1, until, quoted, true);
        lemma_decoded_alike(a, b, from + 1, until, !quoted, false);
        let one = decoded(a, from + 1, until, quoted, false);
        let two = decoded(b, from + 1, until, quoted, false);
        if escaped {
            if let Some(x) = escape_of(c) {
                if x as u32 <= 0x1f {
                    lemma_control_in_front(x, one);
                }
            }
            if let Some(y) = escape_of(d) {
                if y as u32 <= 0x1f {
                    lemma_control_in_front(y, two);
                }
            }
            if c == d {
                if let Some(x) = escape_of(c) {
                    lemma_put_in_front(x, x, one, two);
                }
            }
        } else {
            lemma_put_in_front(c, d, one, two);
        }
    } else {
        assert(alike(Seq::<char>::empty(), Seq::<char>::empty()));
    }
}

proof fn lemma_no_digit(text: Seq<char>, from: int, until: int, radix: int, at: int)
    requires
        from <= at < until,
        digit_value(text[at]) >= radix,
    ensures
        magnitude(text, from, until, radix) is None,
    decreases until - from,
{
    if at < until - 1 {
        lemma_no_digit(text, from, until - 1, radix, at);
    }
}

proof fn lemma_control_is_no_boolean(text: Seq<char>)
    requires
        has_control(text),
    ensures
        bool_of_text(text) is None,
{
    let at = choose|i: int| 0 <= i < text.len() && (#[trigger] text[i]) as u32 <= 0x1f;
    assert(folded(text[at]) <= 0x1f);
    reveal_strlit("true");
    reveal_strlit("yes");
    reveal_strlit("on");
    reveal_strlit("false");
    reveal_strlit("no");
    reveal_strlit("off");
    assert(!same_word(text, "true"@));
    assert(!same_word(text, "yes"@));
    assert(!same_word(text, "on"@));
    assert(!same_word(text, "false"@));
    assert(!same_word(text, "no"@));
    assert(!same_word(text, "off"@));
    let from: int = if text[0] == '+' || text[0] == '-' {
        1
    } else {
        0
    };
    let until = if text.len() > from && scale_of(text.last()) != 1 {
        text.len() - 1
    } else {
        text.len() as int
    };
    assert(from <= at < until);
    if until - from >= 2 && text[from] == '0' {
        if text[from + 1] == 'x' || text[from + 1] == 'X' {
            lemma_no_digit(text, from + 2, until, 16, at);
        } else {
            lemma_no_digit(text, from + 1, until, 8, at);
        }
    } else {
        lemma_no_digit(text, from, until, 10, at);
    }
}

proof fn lemma_magnitudes_alike(a: Seq<char>, b: Seq<char>, from: int, until: int, radix: int)
    requires
        alike(a, b),
        0 <= from,
        until <= a.len(),
    ensures
        magnitude(a, from, until, radix) == magnitude(b, from, until, radix),
    decreases until - from,
{
    if from < until {
        assert(folded(a[until - 1]) == folded(b[until - 1]));
        lemma_characters_alike(a[until - 1], b[until - 1]);
        lemma_magnitudes_alike(a, b, from, until - 1, radix);
    }
}

proof fn lemma_booleans_alike(a: Seq<char>, b: Seq<char>)
    requires
        alike(a, b),
    ensures
        bool_of_text(a) == bool_of_text(b),
{
    assert forall|word: Seq<char>| #[trigger] same_word(a, word) == same_word(b, word) by {
        if same_word(a, word) {
            assert forall|i: int| 0 <= i < b.len() implies folded(#[trigger] b[i]) == folded(
                word[i],
            ) by {
                assert(folded(a[i]) == folded(b[i]));
            }
        }
        if same_word(b, word) {
            assert forall|i: int| 0 <= i < a.len() implies folded(#[trigger] a[i]) == folded(
                word[i],
            ) by {
                assert(folded(a[i]) == folded(b[i]));
            }
        }
    }
    if a.len() > 0 {
        assert(folded(a[0]) == folded(b[0]));
        lemma_characters_alike(a[0], b[0]);
        assert(folded(a[a.len() - 1]) == folded(b[a.len() - 1]));
        lemma_characters_alike(a[a.len() - 1], b[a.len() - 1]);
        let from: int = if a[0] == '+' || a[0] == '-' {
            1
        } else {
            0
        };
        let until = if a.len() > from && scale_of(a.last()) != 1 {
            a.len() - 1
        } else {
            a.len() as int
        };
        if until - from >= 2 {
            assert(folded(a[from]) == folded(b[from]));
            lemma_characters_alike(a[from], b[from]);
            assert(folded(a[from + 1]) == folded(b[from + 1]));
            lemma_characters_alike(a[from + 1], b[from + 1]);
        }
        lemma_magnitudes_alike(a, b, from, until, 10);
        lemma_magnitudes_alike(a, b, from + 1, until, 8);
        lemma_magnitudes_alike(a, b, from + 2, until, 16);
        assert(base_zero(a, from, until) == base_zero(b, from, until));
        assert(scale_of(a.last()) == scale_of(b.last()));
        assert(integer_of(a) == integer_of(b));
    } else {
        assert(a =~= b);
    }
}

/// The case of ASCII letters never matters to a boolean: values that differ in
/// nothing else stand for the same one, or for none.
pub proof fn law_the_case_of_a_boolean_does_not_matter(a: Seq<u8>, b: Seq<u8>)
    requires
        all_lowered(a) == all_lowered(b),
    ensures
        bool_of(a) == bool_of(b),
{
    lemma_texts_alike(a, b);
    if valid_utf8(a) {
        let one = decode_utf8(a);
        let two = decode_utf8(b);
        lemma_trimmed_alike(one, two, 0, one.len() as int);
        let from = chars_from(one, 0);
        lemma_trimmed_alike(one, two, from, one.len() as int);
        let until = chars_until(one, from, one.len() as int);
        lemma_decoded_alike(one, two, from, until, false, false);
        let x = decoded(one, from, until, false, false);
        let y = decoded(two, from, until, false, false);
        if let Some(word) = x {
            if has_control(word) {
                lemma_control_is_no_boolean(word);
            }
        }
        if let Some(word) = y {
            if has_control(word) {
                lemma_control_is_no_boolean(word);
            }
        }
        if let (Some(first), Some(second)) = (x, y) {
            if alike(first, second) {
                lemma_booleans_alike(first, second);
            }
        }
    }
}

/// Whether a text holds no quote, no backslash and nothing that starts a
/// comment.
pub open spec fn is_plain(text: Seq<u8>) -> bool {
    !text.contains(QUOTE) && !text.contains(BACKSLASH) && !text.contains(HASH) && !text.contains(
        SEMICOLON,
    )
}

proof fn lemma_plain_start(text: Seq<u8>, line: Seq<u8>, from: int)
    requires
        is_plain(text),
        0 <= from <= text.len() <= line.len(),
        line.take(text.len() as int) == text,
        text.len() < line.len() ==> line[text.len() as int] == HASH || line[text.len() as int]
            == SEMICOLON,
    ensures
        comment_from(line, from, false, false) == text.len(),
    decreases text.len() - from,
{
    if from < text.len() {
        assert(line[from] == line.take(text.len() as int)[from]);
        assert(text.contains(text[from]));
        lemma_plain_start(text, line, from + 1);
    }
}

/// A comment changes nothing: a line followed by `#` or by `;` and any text
/// assigns what the line alone assigns, and leaves the same section active.
pub proof fn law_a_comment_changes_nothing(
    section: Option<GitConfigSection>,
    line: Seq<u8>,
    mark: u8,
    comment: Seq<u8>,
)
    requires
        is_plain(line),
        mark == HASH || mark == SEMICOLON,
    ensures
        line_assignment(section, line.push(mark) + comment) == line_assignment(section, line),
        section_after(section, line.push(mark) + comment) == section_after(section, line),
{
    let longer = line.push(mark) + comment;
    assert(longer.take(line.len() as int) =~= line);
    assert(line.take(line.len() as int) =~= line);
    lemma_plain_start(line, longer, 0);
    lemma_plain_start(line, line, 0);
}

proof fn lemma_plain_value(text: Seq<u8>, value: Seq<u8>, from: int)
    requires
        is_plain(text),
        0 <= from <= text.len() <= value.len(),
        value.take(text.len() as int) == text,
        text.len() < value.len() ==> value[text.len() as int] == HASH || value[text.len() as int]
            == SEMICOLON,
    ensures
        continues(value, from, false) is None,
    decreases text.len() - from,
{
    if from < text.len() {
        assert(value[from] == value.take(text.len() as int)[from]);
        assert(text.contains(text[from]));
        lemma_plain_value(text, value, from + 1);
    }
}

/// Whether `line` is `text`, or `text` with a comment behind it.
spec fn is_commented(text: Seq<u8>, line: Seq<u8>) -> bool {
    &&& is_plain(text)
    &&& text.len() <= line.len()
    &&& line.take(text.len() as int) == text
    &&& text.len() < line.len() ==> line[text.len() as int] == HASH || line[text.len() as int]
        == SEMICOLON
}

proof fn lemma_commented_rest(text: Seq<u8>, line: Seq<u8>, from: int)
    requires
        is_commented(text, line),
        0 <= from <= text.len(),
    ensures
        is_commented(text.skip(from), line.skip(from)),
{
    let rest = text.skip(from);
    let other = line.skip(from);
    assert forall|i: int| 0 <= i < text.len() implies line[i] == text[i] by {
        assert(line.take(text.len() as int)[i] == text[i]);
    }
    assert(other.take(rest.len() as int) =~= rest);
    assert forall|byte: u8| #[trigger] rest.contains(byte) implies text.contains(byte) by {
        let i = choose|i: int| 0 <= i < rest.len() && rest[i] == byte;
        assert(text[from + i] == byte);
    }
}

proof fn lemma_commented_text_from(text: Seq<u8>, line: Seq<u8>, from: int)
    requires
        is_commented(text, line),
        0 <= from <= text.len(),
    ensures
        from <= text_from(line, from) <= text.len(),
    decreases text.len() - from,
{
    if from < text.len() && is_whitespace(line[from]) {
        lemma_commented_text_from(text, line, from + 1);
    }
}

proof fn lemma_commented_key_end(text: Seq<u8>, line: Seq<u8>, from: int)
    requires
        is_commented(text, line),
        0 <= from <= text.len(),
    ensures
        from <= key_end(line, from) <= text.len(),
    decreases text.len() - from,
{
    if from < text.len() && is_key_byte(line[from]) {
        lemma_commented_key_end(text, line, from + 1);
    }
}

/// Whether a line that opens a section header closes it.
pub open spec fn closes_its_header(line: Seq<u8>) -> bool {
    line.contains(BRACKET_OPEN) ==> line.contains(BRACKET_CLOSE)
}

/// A plain line is not continued, whatever comment follows it.
proof fn lemma_commented_line_ends(text: Seq<u8>, line: Seq<u8>)
    requires
        is_commented(text, line),
        closes_its_header(text),
    ensures
        line_continues(line) is None,
{
    lemma_commented_text_from(text, line, 0);
    let from = text_from(line, 0);
    lemma_commented_rest(text, line, from);
    let start = trimmed_start(line);
    let plain = text.skip(from);
    assert forall|i: int| 0 <= i < text.len() implies line[i] == text[i] by {
        assert(line.take(text.len() as int)[i] == text[i]);
    }
    if start.len() > 0 && start[0] == BRACKET_OPEN {
        assert(from < text.len());
        assert(text.contains(text[from]));
        let close = choose|i: int| 0 <= i < text.len() && text[i] == BRACKET_CLOSE;
        lemma_text_in_front(line, 0, close);
        lemma_index_from(start, BRACKET_CLOSE, 0);
        let end = index_from(start, BRACKET_CLOSE, 0);
        assert(start[close - from] == BRACKET_CLOSE);
        assert(end <= close - from);
        let rest = start.skip(end + 1);
        lemma_commented_rest(plain, start, end + 1);
        let behind = plain.skip(end + 1);
        lemma_commented_text_from(behind, rest, 0);
        let next = text_from(rest, 0);
        lemma_commented_rest(behind, rest, next);
        lemma_commented_assignment_ends(behind.skip(next), trimmed_start(rest));
    } else {
        lemma_commented_assignment_ends(plain, start);
    }
}

/// What stands before the first byte that is no whitespace is whitespace.
proof fn lemma_text_in_front(line: Seq<u8>, from: int, at: int)
    requires
        0 <= from <= at < line.len(),
        !is_whitespace(line[at]),
    ensures
        text_from(line, from) <= at,
    decreases at - from,
{
    if from < at && is_whitespace(line[from]) {
        lemma_text_in_front(line, from + 1, at);
    }
}

proof fn lemma_commented_assignment_ends(text: Seq<u8>, line: Seq<u8>)
    requires
        is_commented(text, line),
    ensures
        ({
            let value = trimmed_start(line.skip(key_end(line, 0)));
            value.len() > 0 && value[0] == EQUALS ==> continues(value.skip(1), 0, false) is None
        }),
{
    lemma_commented_key_end(text, line, 0);
    let end = key_end(line, 0);
    lemma_commented_rest(text, line, end);
    let rest = line.skip(end);
    let plain = text.skip(end);
    lemma_commented_text_from(plain, rest, 0);
    let from = text_from(rest, 0);
    lemma_commented_rest(plain, rest, from);
    let value = trimmed_start(rest);
    let own = plain.skip(from);
    if value.len() > 0 && value[0] == EQUALS {
        assert(own.len() > 0);
        lemma_commented_rest(own, value, 1);
        lemma_plain_value(own.skip(1), value.skip(1), 0);
    }
}

/// The settings and the section that lines leave behind do not change with a
/// line that says the same.
proof fn lemma_lines_with_another(
    config: GitConfig,
    before: Seq<Seq<u8>>,
    one: Seq<u8>,
    other: Seq<u8>,
    behind: Seq<Seq<u8>>,
    count: int,
)
    requires
        0 <= count <= before.len() + 1 + behind.len(),
        forall|section: Option<GitConfigSection>| #[trigger]
            line_assignment(section, one) == line_assignment(section, other),
        forall|section: Option<GitConfigSection>| #[trigger]
            section_after(section, one) == section_after(section, other),
    ensures
        section_at(before + (seq![one] + behind), count) == section_at(
            before + (seq![other] + behind),
            count,
        ),
        after_lines(config, before + (seq![one] + behind), count) == after_lines(
            config,
            before + (seq![other] + behind),
            count,
        ),
    decreases count,
{
    if count > 0 {
        lemma_lines_with_another(config, before, one, other, behind, count - 1);
        let left = before + (seq![one] + behind);
        let right = before + (seq![other] + behind);
        if count - 1 == before.len() {
            assert(left[count - 1] == one);
            assert(right[count - 1] == other);
            let section = section_at(left, count - 1);
            assert(line_assignment(section, one) == line_assignment(section, other));
            assert(section_after(section, one) == section_after(section, other));
        } else {
            assert(left[count - 1] == right[count - 1]);
        }
    }
}

proof fn lemma_physical_line(line: Seq<u8>, back: Seq<u8>)
    requires
        !line.contains(NEWLINE),
    ensures
        physical_lines(line.push(NEWLINE) + back, 0) == seq![without_return(line)]
            + physical_lines(back, 0),
{
    let front = line.push(NEWLINE);
    lemma_physical_concat(front, back, 0);
    assert forall|i: int| 0 <= i < line.len() implies front[i] != NEWLINE by {
        assert(line.contains(line[i]));
    }
    assert(front[line.len() as int] == NEWLINE);
    lemma_index_from_is(front, NEWLINE, 0, line.len() as int);
    assert(front.subrange(0, line.len() as int) =~= line);
    assert(physical_lines(front, line.len() as int + 1) =~= Seq::empty());
    assert(physical_lines(front, 0) =~= seq![without_return(line)]);
}

proof fn lemma_uncontinued_line(line: Seq<u8>, behind: Seq<Seq<u8>>)
    requires
        line_continues(line) is None,
    ensures
        logical_lines(seq![line] + behind, 0) == seq![line] + logical_lines(behind, 0),
{
    let all = seq![line] + behind;
    assert(all[0] == line);
    lemma_logical_shift(seq![line], behind, 0);
    assert(joined(all, line, None, 1) == (line, 1int));
}

/// A comment changes no setting: a configuration file in which a line gets a
/// comment behind `#` or `;`, whatever the comment says, makes the settings
/// that it makes without.
///
/// The part in front ends with a complete line that is not continued, and a
/// header that the line opens is closed on it.
#[verifier::rlimit(40)]
pub proof fn law_a_comment_changes_no_setting(
    config: GitConfig,
    front: Seq<u8>,
    line: Seq<u8>,
    mark: u8,
    comment: Seq<u8>,
    back: Seq<u8>,
)
    requires
        front.len() > 0 ==> front.last() == NEWLINE && !ends_in_backslash(
            physical_lines(front, 0).last(),
        ),
        is_plain(line),
        closes_its_header(line),
        !line.contains(NEWLINE),
        line.len() > 0 ==> line.last() != RETURN,
        mark == HASH || mark == SEMICOLON,
        !comment.contains(NEWLINE),
    ensures
        after_config(config, front + ((line.push(mark) + comment).push(NEWLINE) + back))
            == after_config(config, front + (line.push(NEWLINE) + back)),
{
    let longer = line.push(mark) + comment;
    assert(!longer.contains(NEWLINE)) by {
        assert forall|i: int| 0 <= i < longer.len() implies longer[i] != NEWLINE by {
            if i < line.len() {
                assert(line.contains(line[i]));
            } else if i > line.len() {
                assert(comment.contains(comment[i - line.len() - 1]));
            }
        }
    }
    let cut = without_return(longer);
    assert(without_return(line) == line);
    assert(is_commented(line, line)) by {
        assert(line.take(line.len() as int) =~= line);
    }
    assert(cut.len() > line.len());
    assert(is_commented(line, cut)) by {
        assert(cut.take(line.len() as int) =~= line);
        assert(cut[line.len() as int] == mark);
    }
    lemma_commented_line_ends(line, line);
    lemma_commented_line_ends(line, cut);
    let la = physical_lines(front, 0);
    let lb = physical_lines(back, 0);
    lemma_physical_line(line, back);
    lemma_physical_line(longer, back);
    lemma_physical_concat(front, line.push(NEWLINE) + back, 0);
    lemma_physical_concat(front, longer.push(NEWLINE) + back, 0);
    if front.len() == 0 {
        assert(la.len() == 0);
    }
    lemma_logical_concat(la, seq![line] + lb, 0);
    lemma_logical_concat(la, seq![cut] + lb, 0);
    lemma_uncontinued_line(line, lb);
    lemma_uncontinued_line(cut, lb);
    assert forall|section: Option<GitConfigSection>| #[trigger]
    line_assignment(section, cut) == line_assignment(section, line) && section_after(section, cut)
        == section_after(section, line) by {
        let rest = cut.skip(line.len() as int + 1);
        assert(cut =~= line.push(mark) + rest);
        law_a_comment_changes_nothing(section, line, mark, rest);
    }
    assert forall|section: Option<GitConfigSection>| #[trigger]
    section_after(section, cut) == section_after(section, line) by {
        assert(line_assignment(section, cut) == line_assignment(section, line));
    }
    let ga = logical_lines(la, 0);
    let gb = logical_lines(lb, 0);
    lemma_lines_with_another(config, ga, cut, line, gb, (ga.len() + 1 + gb.len()) as int);
}

/// A final line counts whether it is terminated or not.
pub proof fn law_a_final_setting_needs_no_line_end(config: GitConfig, file: Seq<u8>)
    requires
        file.len() > 0,
        file.last() != NEWLINE,
    ensures
        after_config(config, file.push(NEWLINE)) == after_config(config, file),
{
    lemma_terminated(file, 0);
}

proof fn lemma_terminated(file: Seq<u8>, from: int)
    requires
        0 <= from <= file.len(),
        file.len() > 0,
        file.last() != NEWLINE,
        from < file.len(),
    ensures
        physical_lines(file.push(NEWLINE), from) == physical_lines(file, from),
    decreases file.len() - from,
{
    let longer = file.push(NEWLINE);
    lemma_index_from(file, NEWLINE, from);
    let at = index_from(file, NEWLINE, from);
    assert(longer[file.len() as int] == NEWLINE);
    lemma_index_from_is(longer, NEWLINE, from, at);
    assert(longer.subrange(from, at) =~= file.subrange(from, at));
    if at < file.len() {
        assert(at + 1 < file.len());
        lemma_terminated(file, at + 1);
    } else {
        assert(physical_lines(longer, at + 1) =~= physical_lines(file, at + 1));
    }
}

proof fn lemma_trimmed_word(front: Seq<u8>, word: Seq<u8>, back: Seq<u8>)
    requires
        word.len() > 0,
        !is_whitespace(word[0]),
        !is_whitespace(word.last()),
        forall|i: int| 0 <= i < front.len() ==> is_whitespace(#[trigger] front[i]),
        forall|i: int| 0 <= i < back.len() ==> is_whitespace(#[trigger] back[i]),
    ensures
        trimmed(front + word + back) == word,
{
    let whole = front + word + back;
    lemma_spaces_in_front(whole, 0, front.len() as int);
    let start = trimmed_start(whole);
    assert(start =~= word + back);
    lemma_spaces_behind(start, word.len() as int, start.len() as int);
    assert(start.take(word.len() as int) =~= word);
}

proof fn lemma_spaces_in_front(bytes: Seq<u8>, from: int, at: int)
    requires
        0 <= from <= at < bytes.len(),
        !is_whitespace(bytes[at]),
        forall|i: int| from <= i < at ==> is_whitespace(#[trigger] bytes[i]),
    ensures
        text_from(bytes, from) == at,
    decreases at - from,
{
    if from < at {
        assert(is_whitespace(bytes[from]));
        lemma_spaces_in_front(bytes, from + 1, at);
    }
}

proof fn lemma_spaces_behind(bytes: Seq<u8>, at: int, until: int)
    requires
        0 < at <= until <= bytes.len(),
        !is_whitespace(bytes[at - 1]),
        forall|i: int| at <= i < until ==> is_whitespace(#[trigger] bytes[i]),
    ensures
        text_until(bytes, until) == at,
    decreases until - at,
{
    if at < until {
        assert(is_whitespace(bytes[until - 1]));
        lemma_spaces_behind(bytes, at, until - 1);
    }
}

proof fn lemma_plain_line(line: Seq<u8>)
    requires
        is_plain(line),
    ensures
        line_text(line) == trimmed(line),
{
    assert(line.take(line.len() as int) =~= line);
    lemma_plain_start(line, line, 0);
}

/// Whether `text` is nothing but whitespace.
pub open spec fn is_blank(text: Seq<u8>) -> bool {
    forall|i: int| 0 <= i < text.len() ==> is_whitespace(#[trigger] text[i])
}

/// Whether `name` is made of letters, and at least one.
pub open spec fn is_letters(name: Seq<u8>) -> bool {
    name.len() > 0 && forall|i: int| 0 <= i < name.len() ==> is_alphabetic(#[trigger] name[i])
}

/// A header makes its section the active one, whatever blanks stand around it
/// and whatever the case of its name. Any other name leaves none of the
/// sections active that are read, and a header alone sets nothing.
#[verifier::rlimit(40)]
pub proof fn law_a_header_opens_its_section(
    section: Option<GitConfigSection>,
    front: Seq<u8>,
    name: Seq<u8>,
    back: Seq<u8>,
)
    requires
        is_blank(front),
        is_blank(back),
        is_letters(name),
    ensures
        ({
            let line = front + (seq![BRACKET_OPEN] + name.push(BRACKET_CLOSE)) + back;
            &&& section_after(section, line) == (if all_lowered(name) == all_lowered(
                encode_utf8("core"@),
            ) {
                Some(GitConfigSection::Core)
            } else if all_lowered(name) == all_lowered(encode_utf8("extensions"@)) {
                Some(GitConfigSection::Extensions)
            } else {
                None
            })
            &&& line_assignment(section, line) is None
        }),
{
    let header = seq![BRACKET_OPEN] + name.push(BRACKET_CLOSE);
    let line = front + header + back;
    assert(is_plain(line)) by {
        assert forall|byte: u8| #[trigger] line.contains(byte) implies is_whitespace(byte)
            || is_alphabetic(byte) || byte == BRACKET_OPEN || byte == BRACKET_CLOSE by {
            let i = choose|i: int| 0 <= i < line.len() && line[i] == byte;
            if i < front.len() {
                assert(is_whitespace(front[i]));
            } else if i < front.len() + header.len() {
                let k = i - front.len();
                assert(line[i] == header[k]);
                if 0 < k <= name.len() {
                    assert(is_alphabetic(name[k - 1]));
                }
            } else {
                assert(is_whitespace(back[i - front.len() - header.len()]));
            }
        }
    }
    lemma_plain_line(line);
    lemma_trimmed_word(front, header, back);
    let end = header.len() - 1;
    assert forall|i: int| 0 <= i < end implies header[i] != BRACKET_CLOSE by {
        if i > 0 {
            assert(is_alphabetic(name[i - 1]));
        }
    }
    lemma_index_from_is(header, BRACKET_CLOSE, 0, end);
    assert(header.take(end + 1) =~= header);
    assert(header.subrange(1, header.len() - 1) =~= name);
    assert(header.skip(end + 1) =~= Seq::<u8>::empty());
    assert(trimmed_start(Seq::<u8>::empty()) =~= Seq::<u8>::empty());
    assert(trimmed(Seq::<u8>::empty()) =~= Seq::<u8>::empty());
}

/// An assignment sets the variable it names, in the section that has it and
/// whatever the case of the name, to the boolean that its value spells, and
/// nothing else. Blanks around the name and the value do not count, and a name
/// alone is true.
#[verifier::rlimit(40)]
pub proof fn law_an_assignment_sets_the_variable_it_names(
    front: Seq<u8>,
    name: Seq<u8>,
    between: Seq<u8>,
    behind: Seq<u8>,
    value: Seq<u8>,
    back: Seq<u8>,
)
    requires
        is_blank(front),
        is_letters(name),
        is_blank(between),
        is_blank(behind),
        is_plain(value),
        value.len() > 0,
        !is_whitespace(value[0]),
        !is_whitespace(value.last()),
        is_blank(back),
    ensures
        ({
            let line = front + (name + between.push(EQUALS) + behind + value) + back;
            let lone = front + name + back;
            let case = all_lowered(name) == all_lowered(encode_utf8("ignorecase"@));
            let compose = all_lowered(name) == all_lowered(encode_utf8("precomposeunicode"@));
            let worktree = all_lowered(name) == all_lowered(encode_utf8("worktreeconfig"@));
            let core = Some(GitConfigSection::Core);
            let extensions = Some(GitConfigSection::Extensions);
            &&& line_assignment(core, line) == (match bool_of(value) {
                Some(is) => if case {
                    Some((Variable::IgnoreCase, is))
                } else if compose {
                    Some((Variable::PrecomposeUnicode, is))
                } else {
                    None
                },
                None => None,
            })
            &&& line_assignment(extensions, line) == (match bool_of(value) {
                Some(is) => if worktree {
                    Some((Variable::WorktreeConfig, is))
                } else {
                    None
                },
                None => None,
            })
            &&& line_assignment(None, line) is None
            &&& line_assignment(core, lone) == (if case {
                Some((Variable::IgnoreCase, true))
            } else if compose {
                Some((Variable::PrecomposeUnicode, true))
            } else {
                None
            })
            &&& line_assignment(extensions, lone) == (if worktree {
                Some((Variable::WorktreeConfig, true))
            } else {
                None
            })
            &&& line_assignment(None, lone) is None
            &&& forall|section: Option<GitConfigSection>| #[trigger]
                section_after(section, line) == section
            &&& forall|section: Option<GitConfigSection>| #[trigger]
                section_after(section, lone) == section
        }),
{
    let text = name + between.push(EQUALS) + behind + value;
    let line = front + text + back;
    let lone = front + name + back;
    let none = Seq::<u8>::empty();
    assert(is_alphabetic(name[0]));
    assert(is_alphabetic(name[name.len() - 1]));
    assert forall|byte: u8| #[trigger] lone.contains(byte) implies is_whitespace(byte)
        || is_alphabetic(byte) by {
        let i = choose|i: int| 0 <= i < lone.len() && lone[i] == byte;
        if i < front.len() {
            assert(is_whitespace(front[i]));
        } else if i < front.len() + name.len() {
            assert(is_alphabetic(name[i - front.len()]));
        } else {
            assert(is_whitespace(back[i - front.len() - name.len()]));
        }
    }
    lemma_plain_line(lone);
    lemma_trimmed_word(front, name, back);
    assert forall|i: int| 0 <= i < name.len() implies name[i] != EQUALS by {
        assert(is_alphabetic(name[i]));
    }
    lemma_index_from_is(name, EQUALS, 0, name.len() as int);
    assert(name.take(name.len() as int) =~= name);
    lemma_trimmed_word(none, name, none);
    assert(none + name + none =~= name);

    let at = (name.len() + between.len()) as int;
    assert forall|byte: u8| #[trigger] line.contains(byte) implies is_whitespace(byte)
        || is_alphabetic(byte) || byte == EQUALS || value.contains(byte) by {
        let i = choose|i: int| 0 <= i < line.len() && line[i] == byte;
        let k = i - front.len();
        if i < front.len() {
            assert(is_whitespace(front[i]));
        } else if k < name.len() {
            assert(line[i] == name[k]);
        } else if k < at {
            assert(line[i] == between[k - name.len()]);
        } else if k == at {
            assert(line[i] == EQUALS);
        } else if k < at + 1 + behind.len() {
            assert(line[i] == behind[k - at - 1]);
        } else if k < text.len() {
            assert(line[i] == value[k - at - 1 - behind.len()]);
        } else {
            assert(line[i] == back[k - text.len()]);
        }
    }
    lemma_plain_line(line);
    assert(text.last() == value.last());
    lemma_trimmed_word(front, text, back);
    assert forall|i: int| 0 <= i < at implies text[i] != EQUALS by {
        if i < name.len() {
            assert(text[i] == name[i]);
        } else {
            assert(text[i] == between[i - name.len()]);
            assert(is_whitespace(between[i - name.len()]));
        }
    }
    assert(text[at] == EQUALS);
    lemma_index_from_is(text, EQUALS, 0, at);
    assert(text.take(at) =~= none + name + between);
    lemma_trimmed_word(none, name, between);
    assert(text.skip(at + 1) =~= behind + value + none);
    lemma_trimmed_word(behind, value, none);
}

/// A word stands for its boolean, whatever its case.
pub proof fn law_a_word_stands_for_its_boolean(value: Seq<u8>)
    requires
        valid_utf8(value),
    ensures
        ({
            let text = decode_utf8(value);
            &&& same_word(text, "true"@) || same_word(text, "yes"@) || same_word(text, "on"@)
                ==> bool_of(value) == Some(true)
            &&& same_word(text, "false"@) || same_word(text, "no"@) || same_word(text, "off"@)
                ==> bool_of(value) == Some(false)
        }),
{
    reveal_strlit("true");
    reveal_strlit("yes");
    reveal_strlit("on");
    reveal_strlit("false");
    reveal_strlit("no");
    reveal_strlit("off");
    let text = decode_utf8(value);
    if same_word(text, "true"@) || same_word(text, "yes"@) || same_word(text, "on"@) || same_word(
        text,
        "false"@,
    ) || same_word(text, "no"@) || same_word(text, "off"@) {
        assert forall|i: int| 0 <= i < text.len() implies 0x61 <= folded(#[trigger] text[i])
            <= 0x7a by {}
        lemma_plain_word(text);
        if same_word(text, "false"@) || same_word(text, "no"@) || same_word(text, "off"@) {
            assert(!same_word(text, "true"@)) by {
                if same_word(text, "true"@) {
                    assert(folded(text[0]) == folded('t'));
                }
            }
            assert(!same_word(text, "yes"@)) by {
                if same_word(text, "yes"@) {
                    assert(folded(text[0]) == folded('y'));
                }
            }
            assert(!same_word(text, "on"@)) by {
                if same_word(text, "on"@) {
                    assert(folded(text[0]) == folded('o'));
                    assert(folded(text[1]) == folded('n'));
                }
            }
        }
    }
}

/// Text without blanks, quotes and backslashes spells itself.
proof fn lemma_plain_word(text: Seq<char>)
    requires
        text.len() > 0,
        forall|i: int|
            0 <= i < text.len() ==> 0x61 <= folded(#[trigger] text[i]) <= 0x7a || 0x30 <= text[i]
                as u32 <= 0x39,
    ensures
        chars_from(text, 0) == 0,
        chars_until(text, 0, text.len() as int) == text.len(),
        decoded(text, 0, text.len() as int, false, false) == Some(text),
{
    assert(!is_white_space(text[0]));
    assert(!is_white_space(text[text.len() - 1]));
    lemma_plain_decoded(text, 0);
    assert(text.skip(0) =~= text);
}

proof fn lemma_plain_decoded(text: Seq<char>, from: int)
    requires
        0 <= from <= text.len(),
        forall|i: int|
            0 <= i < text.len() ==> 0x61 <= folded(#[trigger] text[i]) <= 0x7a || 0x30 <= text[i]
                as u32 <= 0x39,
    ensures
        decoded(text, from, text.len() as int, false, false) == Some(text.skip(from)),
    decreases text.len() - from,
{
    if from < text.len() {
        lemma_plain_decoded(text, from + 1);
        assert(0x61 <= folded(text[from]) <= 0x7a || 0x30 <= text[from] as u32 <= 0x39);
        assert(seq![text[from]] + text.skip(from + 1) =~= text.skip(from));
    } else {
        assert(text.skip(from) =~= Seq::empty());
    }
}

proof fn lemma_ascii(bytes: Seq<u8>)
    requires
        forall|i: int| 0 <= i < bytes.len() ==> #[trigger] bytes[i] <= 0x7f,
    ensures
        valid_utf8(bytes),
        decode_utf8(bytes).len() == bytes.len(),
        forall|i: int|
            0 <= i < bytes.len() ==> (#[trigger] decode_utf8(bytes)[i]) as u32 == bytes[i] as u32,
    decreases bytes.len(),
{
    if bytes.len() > 0 {
        let x = bytes[0];
        assert(x <= 0x7f);
        assert(x & 0x7f == x) by (bit_vector)
            requires
                x <= 0x7f,
        ;
        assert(codepoint_width_1(x) == x as u32);
        let rest = pop_first_scalar(bytes);
        assert(rest =~= bytes.drop_first());
        assert forall|i: int| 0 <= i < rest.len() implies #[trigger] rest[i] <= 0x7f by {
            assert(rest[i] == bytes[i + 1]);
        }
        lemma_ascii(rest);
        let text = decode_utf8(bytes);
        assert(text == seq![decode_first_scalar(bytes) as char] + decode_utf8(rest));
        assert forall|i: int| 0 <= i < bytes.len() implies (#[trigger] text[i]) as u32
            == bytes[i] as u32 by {
            if i > 0 {
                assert(text[i] == decode_utf8(rest)[i - 1]);
                assert(rest[i - 1] == bytes[i]);
            }
        }
    }
}

proof fn lemma_same_char(c: char, d: char)
    requires
        c as u32 == d as u32,
    ensures
        c == d,
{
}

proof fn lemma_digit(c: char)
    requires
        0x30 <= c as u32 <= 0x37,
    ensures
        c != '+' && c != '-' && c != 'x' && c != 'X' && c != '"' && c != '\\',
        scale_of(c) == 1,
        !is_white_space(c),
{
}

/// Whether `value` is letters and digits, and at least one.
pub open spec fn is_word(value: Seq<u8>) -> bool {
    value.len() > 0 && forall|i: int|
        0 <= i < value.len() ==> is_alphabetic(#[trigger] value[i]) || is_digit(value[i])
}

proof fn lemma_word(value: Seq<u8>)
    requires
        is_word(value),
    ensures
        valid_utf8(value),
        ({
            let text = decode_utf8(value);
            &&& text.len() == value.len()
            &&& forall|i: int|
                0 <= i < text.len() ==> (#[trigger] text[i]) as u32 == value[i] as u32
            &&& chars_from(text, 0) == 0
            &&& chars_until(text, 0, text.len() as int) == text.len()
            &&& decoded(text, 0, text.len() as int, false, false) == Some(text)
            &&& bool_of(value) == bool_of_text(text)
        }),
{
    assert forall|i: int| 0 <= i < value.len() implies #[trigger] value[i] <= 0x7f by {
        assert(is_alphabetic(value[i]) || is_digit(value[i]));
    }
    lemma_ascii(value);
    let text = decode_utf8(value);
    assert forall|i: int| 0 <= i < text.len() implies 0x61 <= folded(#[trigger] text[i]) <= 0x7a
        || 0x30 <= text[i] as u32 <= 0x39 by {
        assert(text[i] as u32 == value[i] as u32);
        assert(is_alphabetic(value[i]) || is_digit(value[i]));
    }
    lemma_plain_word(text);
}

/// Quotes around a value say nothing.
#[verifier::rlimit(40)]
pub proof fn law_quotes_around_a_value_say_nothing(value: Seq<u8>)
    requires
        is_word(value),
    ensures
        bool_of(seq![QUOTE] + value.push(QUOTE)) == bool_of(value),
{
    let quoted = seq![QUOTE] + value.push(QUOTE);
    lemma_word(value);
    assert forall|i: int| 0 <= i < quoted.len() implies #[trigger] quoted[i] <= 0x7f by {
        if 0 < i <= value.len() {
            assert(quoted[i] == value[i - 1]);
            assert(is_alphabetic(value[i - 1]) || is_digit(value[i - 1]));
        }
    }
    lemma_ascii(quoted);
    let text = decode_utf8(quoted);
    let word = decode_utf8(value);
    let len = text.len() as int;
    assert(text[0] as u32 == QUOTE as u32);
    assert(text[0] == '"');
    assert(text[len - 1] as u32 == QUOTE as u32);
    lemma_same_char(text[len - 1], '"');
    assert forall|i: int| 1 <= i < len - 1 implies #[trigger] text[i] == word[i - 1] && text[i]
        != '"' && text[i] != '\\' by {
        assert(text[i] as u32 == quoted[i] as u32);
        assert(quoted[i] == value[i - 1]);
        assert(word[i - 1] as u32 == value[i - 1] as u32);
        lemma_same_char(text[i], word[i - 1]);
        assert(is_alphabetic(value[i - 1]) || is_digit(value[i - 1]));
    }
    lemma_quoted(text, 1);
    assert(text.subrange(1, len - 1) =~= word);
    assert(chars_from(text, 0) == 0);
    assert(chars_until(text, 0, len) == len);
}

proof fn lemma_quoted(text: Seq<char>, from: int)
    requires
        1 <= from < text.len(),
        text.last() == '"',
        forall|i: int|
            1 <= i < text.len() - 1 ==> #[trigger] text[i] != '"' && text[i] != '\\',
    ensures
        decoded(text, from, text.len() as int, true, false) == Some(
            text.subrange(from, text.len() - 1),
        ),
    decreases text.len() - from,
{
    let len = text.len() as int;
    if from < len - 1 {
        assert(text[from] != '"');
        lemma_quoted(text, from + 1);
        assert(seq![text[from]] + text.subrange(from + 1, len - 1) =~= text.subrange(
            from,
            len - 1,
        ));
    } else {
        assert(text.subrange(from, len - 1) =~= Seq::empty());
        assert(decoded(text, from + 1, len, false, false) == Some(Seq::<char>::empty()));
    }
}

spec fn power_of_ten(n: int) -> int
    decreases n,
{
    if n <= 0 {
        1
    } else {
        10 * power_of_ten(n - 1)
    }
}

proof fn lemma_magnitude(text: Seq<char>, from: int, until: int, radix: int)
    requires
        0 <= from <= until <= text.len(),
        radix == 8 || radix == 10,
        forall|i: int| from <= i < until ==> 0x30 <= (#[trigger] text[i]) as u32 <= 0x37,
    ensures
        magnitude(text, from, until, radix) is Some,
        0 <= magnitude(text, from, until, radix)->0 < power_of_ten(until - from),
        magnitude(text, from, until, radix)->0 == 0 <==> forall|i: int|
            from <= i < until ==> (#[trigger] text[i]) as u32 == 0x30,
    decreases until - from,
{
    if from < until {
        lemma_magnitude(text, from, until - 1, radix);
        let value = magnitude(text, from, until - 1, radix)->0;
        let digit = digit_value(text[until - 1]);
        assert(0x30 <= text[until - 1] as u32 <= 0x37);
        if radix == 8 {
            assert(value * 8 + digit <= value * 10 + 9);
        }
        assert(value * radix == (if radix == 8 {
            value * 8
        } else {
            value * 10
        }));
        if value * radix + digit == 0 {
            assert(value == 0 && digit == 0);
            assert forall|i: int| from <= i < until implies (#[trigger] text[i]) as u32 == 0x30 by {
                if i < until - 1 {
                    assert(text[i] as u32 == 0x30);
                }
            }
        }
        if forall|i: int| from <= i < until ==> (#[trigger] text[i]) as u32 == 0x30 {
            assert(text[until - 1] as u32 == 0x30);
        }
    }
}

/// Whether `value` is octal digits, at least one and at most `limit`.
pub open spec fn is_number(value: Seq<u8>, limit: int) -> bool {
    0 < value.len() <= limit && forall|i: int|
        0 <= i < value.len() ==> 0x30 <= #[trigger] value[i] <= 0x37
}

/// Whether one of the digits of `value` is not zero.
pub open spec fn is_nonzero(value: Seq<u8>) -> bool {
    exists|i: int| 0 <= i < value.len() && #[trigger] value[i] != 0x30
}

proof fn lemma_base_zero(text: Seq<char>, value: Seq<u8>, from: int)
    requires
        0 <= from <= 1,
        from + value.len() <= text.len(),
        0 < value.len() <= 9,
        forall|i: int| 0 <= i < value.len() ==> 0x30 <= #[trigger] value[i] <= 0x37,
        forall|i: int|
            0 <= i < value.len() ==> text[from + i] as u32 == (#[trigger] value[i]) as u32,
    ensures
        base_zero(text, from, from + value.len()) is Some,
        0 <= base_zero(text, from, from + value.len())->0 < power_of_ten(value.len() as int),
        base_zero(text, from, from + value.len())->0 != 0 <==> is_nonzero(value),
{
    let until = from + value.len();
    assert forall|i: int| from <= i < until implies 0x30 <= (#[trigger] text[i]) as u32 <= 0x37
        && text[i] as u32 == value[i - from] as u32 by {
        assert(text[from + (i - from)] as u32 == value[i - from] as u32);
    }
    let octal = until - from >= 2 && text[from] == '0';
    let start = if octal {
        from + 1
    } else {
        from
    };
    if octal {
        assert(0x30 <= text[from + 1] as u32 <= 0x37);
        lemma_magnitude(text, start, until, 8);
    } else {
        lemma_magnitude(text, start, until, 10);
    }
    assert(power_of_ten(until - from) == 10 * power_of_ten(until - from - 1));
    if is_nonzero(value) {
        let i = choose|i: int| 0 <= i < value.len() && #[trigger] value[i] != 0x30;
        assert(text[from + i] as u32 != 0x30);
        assert(octal ==> text[from] as u32 == 0x30);
    } else {
        assert forall|i: int| start <= i < until implies (#[trigger] text[i]) as u32 == 0x30 by {
            assert(value[i - from] == 0x30);
        }
    }
}

proof fn lemma_no_word(text: Seq<char>, at: int)
    requires
        0 <= at < text.len(),
        !(0x61 <= folded(text[at]) <= 0x7a),
    ensures
        !same_word(text, "true"@) && !same_word(text, "yes"@) && !same_word(text, "on"@),
        !same_word(text, "false"@) && !same_word(text, "no"@) && !same_word(text, "off"@),
{
    reveal_strlit("true");
    reveal_strlit("yes");
    reveal_strlit("on");
    reveal_strlit("false");
    reveal_strlit("no");
    reveal_strlit("off");
    let here = folded(text[at]);
}

/// A number is true unless it is zero, and scaled it stays what it is.
#[verifier::rlimit(40)]
pub proof fn law_a_number_is_true_unless_it_is_zero(value: Seq<u8>, scale: u8)
    requires
        is_number(value, 9),
        scale == 0x6b || scale == 0x4b || scale == 0x6d || scale == 0x4d,
    ensures
        bool_of(value) == Some(is_nonzero(value)),
        value.len() <= 3 ==> bool_of(value.push(scale)) == Some(is_nonzero(value)),
{
    assert(is_word(value)) by {
        assert forall|i: int| 0 <= i < value.len() implies is_alphabetic(#[trigger] value[i])
            || is_digit(value[i]) by {
            assert(0x30 <= value[i] <= 0x37);
        }
    }
    lemma_word(value);
    let text = decode_utf8(value);
    lemma_base_zero(text, value, 0);
    assert(text[0] as u32 == value[0] as u32);
    assert(0x30 <= value[0] <= 0x37);
    lemma_no_word(text, 0);
    lemma_powers(value.len() as int);
    let last = text.last();
    assert(text[text.len() - 1] as u32 == value[value.len() - 1] as u32);
    assert(0x30 <= value[value.len() - 1] <= 0x37);
    lemma_digit(last);
    lemma_digit(text[0]);
    let own = base_zero(text, 0, text.len() as int)->0;
    assert(own * 1 == own);
    assert(i32::MIN <= own <= i32::MAX);
    assert(text[0] != '-' && text[0] != '+');
    assert(scale_of(last) == 1);
    assert(integer_of(text) == Some(own));
    if value.len() <= 3 {
        let scaled = value.push(scale);
        assert(is_word(scaled)) by {
            assert forall|i: int| 0 <= i < scaled.len() implies is_alphabetic(#[trigger] scaled[i])
                || is_digit(scaled[i]) by {
                if i < value.len() {
                    assert(scaled[i] == value[i]);
                    assert(0x30 <= value[i] <= 0x37);
                }
            }
        }
        lemma_word(scaled);
        let longer = decode_utf8(scaled);
        assert forall|i: int| 0 <= i < value.len() implies longer[0 + i] as u32 == (
        #[trigger] value[i]) as u32 by {
            assert(longer[i] as u32 == scaled[i] as u32);
        }
        lemma_base_zero(longer, value, 0);
        assert(longer[0] as u32 == scaled[0] as u32);
        assert(scaled[0] == value[0]);
        lemma_no_word(longer, 0);
        lemma_digit(longer[0]);
        assert(longer[longer.len() - 1] as u32 == scale as u32);
        if scale == 0x6b {
            lemma_same_char(longer.last(), 'k');
        } else if scale == 0x4b {
            lemma_same_char(longer.last(), 'K');
        } else if scale == 0x6d {
            lemma_same_char(longer.last(), 'm');
        } else {
            lemma_same_char(longer.last(), 'M');
        }
        assert(longer.last() == 'k' || longer.last() == 'K' || longer.last() == 'm' || longer.last()
            == 'M');
        let number = base_zero(longer, 0, longer.len() - 1)->0;
        let factor = scale_of(longer.last());
        assert(factor == 1024 || factor == 1_048_576);
        assert(0 <= number * factor <= 1000 * 1_048_576) by (nonlinear_arith)
            requires
                0 <= number < 1000,
                factor == 1024 || factor == 1_048_576,
        ;
        assert(number * factor != 0 <==> number != 0) by (nonlinear_arith)
            requires
                0 <= number < 1000,
                factor == 1024 || factor == 1_048_576,
        ;
        assert(integer_of(longer) == Some(number * factor));
    }
}

proof fn lemma_powers(n: int)
    requires
        0 <= n <= 9,
    ensures
        power_of_ten(n) <= 1_000_000_000,
        n <= 3 ==> power_of_ten(n) <= 1000,
{
    reveal_with_fuel(power_of_ten, 11);
}

/// A sign in front of a number changes nothing about whether it is true.
#[verifier::rlimit(40)]
pub proof fn law_the_sign_of_a_number_does_not_matter(value: Seq<u8>, sign: u8)
    requires
        is_number(value, 9),
        sign == 0x2b || sign == 0x2d,
    ensures
        bool_of(seq![sign] + value) == Some(is_nonzero(value)),
{
    let signed = seq![sign] + value;
    assert forall|i: int| 0 <= i < signed.len() implies #[trigger] signed[i] <= 0x7f by {
        if i > 0 {
            assert(signed[i] == value[i - 1]);
            assert(0x30 <= value[i - 1] <= 0x37);
        }
    }
    lemma_ascii(signed);
    let text = decode_utf8(signed);
    let len = text.len() as int;
    assert(text[0] as u32 == sign as u32);
    assert(text[0] == '+' || text[0] == '-');
    assert forall|i: int| 1 <= i < len implies 0x30 <= (#[trigger] text[i]) as u32 <= 0x37 by {
        assert(text[i] as u32 == signed[i] as u32);
        assert(signed[i] == value[i - 1]);
    }
    assert(chars_from(text, 0) == 0);
    assert(0x30 <= text[len - 1] as u32 <= 0x37);
    assert(chars_until(text, 0, len) == len);
    lemma_signed_decoded(text, 0);
    assert(text.skip(0) =~= text);
    assert forall|i: int| 0 <= i < value.len() implies text[1 + i] as u32 == (
    #[trigger] value[i]) as u32 by {
        assert(text[1 + i] as u32 == signed[1 + i] as u32);
        assert(signed[1 + i] == value[i]);
    }
    lemma_base_zero(text, value, 1);
    lemma_powers(value.len() as int);
    lemma_no_word(text, 0);
    lemma_digit(text[len - 1]);
    assert(scale_of(text.last()) == 1);
    let number = base_zero(text, 1, len)->0;
    assert(base_zero(text, 1, len) == Some(number));
    if sign == 0x2d {
        lemma_same_char(text[0], '-');
    } else {
        lemma_same_char(text[0], '+');
    }
    if text[0] == '-' {
        assert(-(number * 1) == -number);
    }
    assert(i32::MIN <= -number && number <= i32::MAX);
    assert(integer_of(text) == Some(if text[0] == '-' {
        -number
    } else {
        number
    }));
}

proof fn lemma_signed_decoded(text: Seq<char>, from: int)
    requires
        0 <= from <= text.len(),
        forall|i: int|
            0 <= i < text.len() ==> #[trigger] text[i] == '+' || text[i] == '-' || 0x30 <= text[i]
                as u32 <= 0x39,
    ensures
        decoded(text, from, text.len() as int, false, false) == Some(text.skip(from)),
    decreases text.len() - from,
{
    if from < text.len() {
        lemma_signed_decoded(text, from + 1);
        assert(text[from] == '+' || text[from] == '-' || 0x30 <= text[from] as u32 <= 0x39);
        assert(seq![text[from]] + text.skip(from + 1) =~= text.skip(from));
    } else {
        assert(text.skip(from) =~= Seq::empty());
    }
}

proof fn lemma_continued_plain(value: Seq<u8>, from: int)
    requires
        is_plain(value),
        0 <= from <= value.len(),
    ensures
        continues(value.push(BACKSLASH), from, false) == Some(false),
    decreases value.len() - from,
{
    let longer = value.push(BACKSLASH);
    if from < value.len() {
        assert(longer[from] == value[from]);
        assert(value.contains(value[from]));
        lemma_continued_plain(value, from + 1);
    }
}

/// A backslash at the end of a line continues a value: a file in which a value
/// is broken that way makes the settings that it makes with the value on one
/// line.
///
/// The part in front ends with a complete line that is not continued.
#[verifier::spinoff_prover]
#[verifier::rlimit(60)]
pub proof fn law_a_backslash_continues_a_value(
    config: GitConfig,
    front: Seq<u8>,
    indent: Seq<u8>,
    name: Seq<u8>,
    one: Seq<u8>,
    two: Seq<u8>,
    back: Seq<u8>,
)
    requires
        front.len() > 0 ==> front.last() == NEWLINE && !ends_in_backslash(
            physical_lines(front, 0).last(),
        ),
        is_blank(indent),
        !indent.contains(NEWLINE),
        is_letters(name),
        is_plain(one),
        !one.contains(NEWLINE),
        is_plain(two),
        !two.contains(NEWLINE),
        (one + two).len() > 0 ==> (one + two).last() != RETURN,
    ensures
        ({
            let start = indent + name.push(EQUALS) + one;
            after_config(
                config,
                front + (start.push(BACKSLASH).push(NEWLINE) + (two.push(NEWLINE) + back)),
            ) == after_config(config, front + ((start + two).push(NEWLINE) + back))
        }),
{
    let start = indent + name.push(EQUALS) + one;
    let broken = start.push(BACKSLASH);
    let whole = start + two;
    let la = physical_lines(front, 0);
    let lb = physical_lines(back, 0);
    assert forall|i: int| 0 <= i < start.len() implies start[i] != NEWLINE by {
        if i < indent.len() {
            assert(indent.contains(indent[i]));
        } else if i < indent.len() + name.len() {
            assert(start[i] == name[i - indent.len()]);
            assert(is_alphabetic(name[i - indent.len()]));
        } else if i > indent.len() + name.len() {
            assert(start[i] == one[i - indent.len() - name.len() - 1]);
            assert(one.contains(one[i - indent.len() - name.len() - 1]));
        }
    }
    assert(!broken.contains(NEWLINE)) by {
        assert forall|i: int| 0 <= i < broken.len() implies broken[i] != NEWLINE by {
            if i < start.len() {
                assert(broken[i] == start[i]);
            }
        }
    }
    assert(!whole.contains(NEWLINE)) by {
        assert forall|i: int| 0 <= i < whole.len() implies whole[i] != NEWLINE by {
            if i < start.len() {
                assert(whole[i] == start[i]);
            } else {
                assert(two.contains(two[i - start.len()]));
            }
        }
    }
    let behind = two.push(NEWLINE) + back;
    lemma_physical_line(broken, behind);
    lemma_physical_line(two, back);
    lemma_physical_line(whole, back);
    lemma_physical_concat(front, broken.push(NEWLINE) + behind, 0);
    lemma_physical_concat(front, whole.push(NEWLINE) + back, 0);
    if front.len() == 0 {
        assert(la.len() == 0);
    }
    assert(without_return(broken) == broken);
    assert(without_return(whole) == whole) by {
        if two.len() > 0 {
            assert(whole.last() == two.last());
            assert((one + two).last() == two.last());
        } else if one.len() > 0 {
            assert(whole.last() == one.last());
            assert((one + two).last() == one.last());
        } else {
            assert(whole.last() == EQUALS);
        }
    }
    assert(without_return(two) == two) by {
        if two.len() > 0 {
            assert((one + two).last() == two.last());
        }
    }
    lemma_broken_line(indent, name, one);
    lemma_unbroken_line(indent, name, one + two);
    assert(indent + name.push(EQUALS) + (one + two) =~= whole);
    lemma_logical_concat(la, seq![broken] + (seq![two] + lb), 0);
    lemma_logical_concat(la, seq![whole] + lb, 0);
    lemma_uncontinued_line(whole, lb);
    let lines = seq![broken] + (seq![two] + lb);
    assert(lines[0] == broken && lines[1] == two);
    assert(broken.drop_last() =~= start);
    assert(two.take(two.len() as int) =~= two);
    lemma_plain_value(two, two, 0);
    assert(joined(lines, whole, None, 2) == (whole, 2int));
    assert(joined(lines, broken, Some(false), 1) == (whole, 2int));
    assert(lines =~= seq![broken, two] + lb);
    lemma_logical_shift(seq![broken, two], lb, 0);
    assert(logical_lines(lines, 0) == seq![whole] + logical_lines(lb, 0));
}

proof fn lemma_assigned_value(indent: Seq<u8>, name: Seq<u8>, value: Seq<u8>)
    requires
        is_blank(indent),
        is_letters(name),
    ensures
        line_continues(indent + name.push(EQUALS) + value) == continues(value, 0, false),
{
    let line = indent + name.push(EQUALS) + value;
    let text = name.push(EQUALS) + value;
    assert(is_alphabetic(name[0]));
    assert(line[indent.len() as int] == name[0]);
    assert forall|i: int| 0 <= i < indent.len() implies is_whitespace(#[trigger] line[i]) by {
        assert(is_whitespace(indent[i]));
    }
    lemma_spaces_in_front(line, 0, indent.len() as int);
    assert(trimmed_start(line) =~= text);
    assert(text[0] == name[0]);
    lemma_key(text, name, 0);
    let rest = text.skip(name.len() as int);
    assert(rest[0] == EQUALS);
    assert(rest.skip(0) =~= rest);
    assert(text_from(rest, 0) == 0);
    assert(rest.skip(1) =~= value);
}

proof fn lemma_key(text: Seq<u8>, name: Seq<u8>, from: int)
    requires
        is_letters(name),
        0 <= from <= name.len() < text.len(),
        forall|i: int| 0 <= i < name.len() ==> #[trigger] text[i] == name[i],
        text[name.len() as int] == EQUALS,
    ensures
        key_end(text, from) == name.len(),
    decreases name.len() - from,
{
    if from < name.len() {
        assert(text[from] == name[from]);
        assert(is_alphabetic(name[from]));
        lemma_key(text, name, from + 1);
    }
}

proof fn lemma_broken_line(indent: Seq<u8>, name: Seq<u8>, value: Seq<u8>)
    requires
        is_blank(indent),
        is_letters(name),
        is_plain(value),
    ensures
        line_continues((indent + name.push(EQUALS) + value).push(BACKSLASH)) == Some(false),
{
    lemma_assigned_value(indent, name, value.push(BACKSLASH));
    assert(indent + name.push(EQUALS) + value.push(BACKSLASH) =~= (indent + name.push(EQUALS)
        + value).push(BACKSLASH));
    lemma_continued_plain(value, 0);
}

proof fn lemma_unbroken_line(indent: Seq<u8>, name: Seq<u8>, value: Seq<u8>)
    requires
        is_blank(indent),
        is_letters(name),
        is_plain(value),
    ensures
        line_continues(indent + name.push(EQUALS) + value) is None,
{
    lemma_assigned_value(indent, name, value);
    assert(value.take(value.len() as int) =~= value);
    lemma_plain_value(value, value, 0);
}

/// A name with nothing behind its equals sign is false.
#[verifier::rlimit(40)]
pub proof fn law_an_empty_value_is_false(
    front: Seq<u8>,
    name: Seq<u8>,
    between: Seq<u8>,
    back: Seq<u8>,
)
    requires
        is_blank(front),
        is_letters(name),
        is_blank(between),
        is_blank(back),
        all_lowered(name) == all_lowered(encode_utf8("ignorecase"@)),
    ensures
        line_assignment(
            Some(GitConfigSection::Core),
            front + (name + between.push(EQUALS)) + back,
        ) == Some((Variable::IgnoreCase, false)),
{
    let text = name + between.push(EQUALS);
    let line = front + text + back;
    let none = Seq::<u8>::empty();
    assert(is_alphabetic(name[0]));
    assert(is_alphabetic(name[name.len() - 1]));
    assert forall|byte: u8| #[trigger] line.contains(byte) implies is_whitespace(byte)
        || is_alphabetic(byte) || byte == EQUALS by {
        let i = choose|i: int| 0 <= i < line.len() && line[i] == byte;
        let k = i - front.len();
        if i < front.len() {
            assert(is_whitespace(front[i]));
        } else if k < name.len() {
            assert(line[i] == name[k]);
        } else if k < name.len() + between.len() {
            assert(line[i] == between[k - name.len()]);
        } else if k >= text.len() {
            assert(line[i] == back[k - text.len()]);
        }
    }
    lemma_plain_line(line);
    assert(text.last() == EQUALS);
    lemma_trimmed_word(front, text, back);
    let at = (name.len() + between.len()) as int;
    assert forall|i: int| 0 <= i < at implies text[i] != EQUALS by {
        if i < name.len() {
            assert(text[i] == name[i]);
            assert(is_alphabetic(name[i]));
        } else {
            assert(text[i] == between[i - name.len()]);
            assert(is_whitespace(between[i - name.len()]));
        }
    }
    assert(text[at] == EQUALS);
    lemma_index_from_is(text, EQUALS, 0, at);
    assert(text.take(at) =~= none + name + between);
    lemma_trimmed_word(none, name, between);
    assert(text.skip(at + 1) =~= none);
    assert(trimmed_start(none) =~= none);
    assert(trimmed(none) =~= none);
    lemma_ascii(none);
    assert(decode_utf8(none) =~= Seq::<char>::empty());
    assert(bool_of(none) == Some(false));
}

proof fn lemma_large(text: Seq<char>, from: int, until: int)
    requires
        0 <= from < until <= text.len(),
        forall|i: int| from <= i < until ==> 0x30 <= (#[trigger] text[i]) as u32 <= 0x37,
        text[from] as u32 != 0x30,
    ensures
        magnitude(text, from, until, 10) is Some,
        magnitude(text, from, until, 10)->0 >= power_of_ten(until - from - 1),
    decreases until - from,
{
    if from + 1 < until {
        lemma_large(text, from, until - 1);
        assert(0x30 <= text[until - 1] as u32 <= 0x37);
    } else {
        assert(0x30 <= text[from] as u32 <= 0x37);
        reveal_with_fuel(magnitude, 2);
    }
}

proof fn lemma_large_powers(n: int)
    requires
        n >= 10,
    ensures
        power_of_ten(n) >= 10_000_000_000,
    decreases n,
{
    if n > 10 {
        lemma_large_powers(n - 1);
    } else {
        reveal_with_fuel(power_of_ten, 11);
    }
}

/// A number that does not fit into a machine's integer is no value.
#[verifier::rlimit(40)]
pub proof fn law_a_number_too_large_is_no_value(value: Seq<u8>)
    requires
        value.len() >= 11,
        forall|i: int| 0 <= i < value.len() ==> 0x30 <= #[trigger] value[i] <= 0x37,
        value[0] != 0x30,
    ensures
        bool_of(value) is None,
{
    assert(is_word(value)) by {
        assert forall|i: int| 0 <= i < value.len() implies is_alphabetic(#[trigger] value[i])
            || is_digit(value[i]) by {
            assert(0x30 <= value[i] <= 0x37);
        }
    }
    lemma_word(value);
    let text = decode_utf8(value);
    let len = text.len() as int;
    assert forall|i: int| 0 <= i < len implies 0x30 <= (#[trigger] text[i]) as u32 <= 0x37 by {
        assert(text[i] as u32 == value[i] as u32);
        assert(0x30 <= value[i] <= 0x37);
    }
    assert(text[0] as u32 == value[0] as u32);
    lemma_no_word(text, 0);
    lemma_digit(text[0]);
    lemma_digit(text[len - 1]);
    assert(text[0] != '0') by {
        if text[0] == '0' {
            assert(text[0] as u32 == 0x30);
        }
    }
    lemma_large(text, 0, len);
    lemma_large_powers(len - 1);
    let number = magnitude(text, 0, len, 10)->0;
    assert(base_zero(text, 0, len) == Some(number));
    assert(scale_of(text.last()) == 1);
    assert(number * 1 == number);
    assert(integer_of(text) is None);
}

spec fn opens_nowhere(lines: Seq<Seq<u8>>) -> bool {
    forall|i: int| 0 <= i < lines.len() ==> !(#[trigger] lines[i]).contains(BRACKET_OPEN)
}

proof fn lemma_lines_open_nowhere(file: Seq<u8>, from: int)
    requires
        0 <= from,
        !file.contains(BRACKET_OPEN),
    ensures
        opens_nowhere(physical_lines(file, from)),
    decreases file.len() + 1 - from,
{
    if from < file.len() {
        lemma_index_from(file, NEWLINE, from);
        let at = index_from(file, NEWLINE, from);
        lemma_lines_open_nowhere(file, at + 1);
        let rest = physical_lines(file, at + 1);
        let line = without_return(file.subrange(from, at));
        assert(!line.contains(BRACKET_OPEN)) by {
            if line.contains(BRACKET_OPEN) {
                let i = choose|i: int| 0 <= i < line.len() && line[i] == BRACKET_OPEN;
                assert(file[from + i] == line[i]);
                assert(file.contains(BRACKET_OPEN));
            }
        }
        let all = seq![line] + rest;
        assert forall|i: int| 0 <= i < all.len() implies !(#[trigger] all[i]).contains(
            BRACKET_OPEN,
        ) by {
            if i > 0 {
                assert(all[i] == rest[i - 1]);
            }
        }
    }
}

proof fn lemma_joined_opens_nowhere(
    lines: Seq<Seq<u8>>,
    text: Seq<u8>,
    state: Option<bool>,
    next: int,
)
    requires
        0 <= next <= lines.len(),
        opens_nowhere(lines),
        !text.contains(BRACKET_OPEN),
        state is Some ==> text.len() > 0,
    ensures
        !joined(lines, text, state, next).0.contains(BRACKET_OPEN),
        next <= joined(lines, text, state, next).1 <= lines.len(),
    decreases lines.len() - next,
{
    if let Some(quoted) = state {
        let cut = text.drop_last();
        assert(!cut.contains(BRACKET_OPEN)) by {
            if cut.contains(BRACKET_OPEN) {
                let i = choose|i: int| 0 <= i < cut.len() && cut[i] == BRACKET_OPEN;
                assert(text[i] == BRACKET_OPEN);
            }
        }
        if next < lines.len() {
            let longer = cut + lines[next];
            assert(!longer.contains(BRACKET_OPEN)) by {
                assert(!lines[next].contains(BRACKET_OPEN));
                if longer.contains(BRACKET_OPEN) {
                    let i = choose|i: int| 0 <= i < longer.len() && longer[i] == BRACKET_OPEN;
                    if i < cut.len() {
                        assert(cut[i] == BRACKET_OPEN);
                    } else {
                        assert(lines[next][i - cut.len()] == BRACKET_OPEN);
                    }
                }
            }
            let then = continues(lines[next], 0, quoted);
            if then is Some {
                lemma_continued_value(lines[next], 0, quoted);
            }
            lemma_joined_opens_nowhere(lines, longer, then, next + 1);
        }
    }
}

proof fn lemma_logical_opens_nowhere(lines: Seq<Seq<u8>>, from: int)
    requires
        0 <= from <= lines.len(),
        opens_nowhere(lines),
    ensures
        opens_nowhere(logical_lines(lines, from)),
    decreases lines.len() - from,
{
    if from < lines.len() {
        let state = line_continues(lines[from]);
        if state is Some {
            lemma_continued_line(lines[from]);
        }
        assert(!lines[from].contains(BRACKET_OPEN));
        lemma_joined_opens_nowhere(lines, lines[from], state, from + 1);
        let line = joined(lines, lines[from], state, from + 1);
        lemma_logical_opens_nowhere(lines, line.1);
        let rest = logical_lines(lines, line.1);
        let all = seq![line.0] + rest;
        assert forall|i: int| 0 <= i < all.len() implies !(#[trigger] all[i]).contains(
            BRACKET_OPEN,
        ) by {
            if i > 0 {
                assert(all[i] == rest[i - 1]);
            }
        }
    }
}

proof fn lemma_no_section(config: GitConfig, lines: Seq<Seq<u8>>, count: int)
    requires
        0 <= count <= lines.len(),
        opens_nowhere(lines),
    ensures
        section_at(lines, count) is None,
        after_lines(config, lines, count) == config,
    decreases count,
{
    if count > 0 {
        lemma_no_section(config, lines, count - 1);
        let line = lines[count - 1];
        assert(!line.contains(BRACKET_OPEN));
        let text = line_text(line);
        lemma_comment_from(line, 0, false, false);
        let kept = line.take(comment_from(line, 0, false, false));
        lemma_text_from(kept, 0);
        lemma_text_before(trimmed_start(kept), trimmed_start(kept).len() as int);
        if text.len() > 0 && text[0] == BRACKET_OPEN {
            assert(text[0] == kept[text_from(kept, 0)]);
            assert(line[text_from(kept, 0)] == BRACKET_OPEN);
        }
    }
}

proof fn lemma_text_before(bytes: Seq<u8>, until: int)
    requires
        0 <= until <= bytes.len(),
    ensures
        0 <= text_until(bytes, until) <= until,
    decreases until,
{
    if until > 0 && is_whitespace(bytes[until - 1]) {
        lemma_text_before(bytes, until - 1);
    }
}

/// What stands in no section sets nothing.
pub proof fn law_nothing_is_set_outside_a_section(config: GitConfig, file: Seq<u8>)
    requires
        !file.contains(BRACKET_OPEN),
    ensures
        after_config(config, file) == config,
{
    let lines = physical_lines(file, 0);
    lemma_lines_open_nowhere(file, 0);
    lemma_logical_opens_nowhere(lines, 0);
    let logical = logical_lines(lines, 0);
    lemma_no_section(config, logical, logical.len() as int);
}

} // verus!
