//! The repository-local settings that ignore matching depends on.
//!
//! Only a small, stable part of the config language is read: two top-level
//! sections and three boolean variables. Names are case-insensitive; values
//! follow the boolean grammar of Git, with its quoting, escapes and integers.
//! Anything else leaves the settings as they are.
use vstd::prelude::*;
use vstd::slice::{slice_subrange, slice_to_vec};
use vstd::utf8::{decode_utf8, encode_utf8, valid_utf8};

use crate::bytes::{
    all_lowered, alphabetic, append, digit, index_from, is_alphabetic, is_digit, is_whitespace,
    lemma_index_from, position_from, same_ignoring_case, whitespace, BACKSLASH, BRACKET_CLOSE,
    BRACKET_OPEN, EQUALS, HASH, MINUS, NEWLINE, QUOTE, RETURN, SEMICOLON,
};
use crate::literal::contents;
use crate::unicode::text_of;

verus! {

/// The settings read so far. A setting nobody made is absent.
#[derive(Debug, Clone, Copy, PartialEq, Eq, Structural)]
pub struct GitConfig {
    /// `core.ignoreCase`
    pub ignore_case: Option<bool>,
    /// `core.precomposeUnicode`
    pub precompose_unicode: Option<bool>,
    /// `extensions.worktreeConfig`
    pub worktree_config: Option<bool>,
}

impl Default for GitConfig {
    fn default() -> (result: Self)
        ensures
            result.ignore_case is None,
            result.precompose_unicode is None,
            result.worktree_config is None,
    {
        GitConfig { ignore_case: None, precompose_unicode: None, worktree_config: None }
    }
}

/// The sections whose variables are read.
#[derive(Debug, Clone, Copy, PartialEq, Eq, Structural)]
pub enum GitConfigSection {
    Core,
    Extensions,
}

/// The variables that are read.
#[derive(Debug, Clone, Copy, PartialEq, Eq, Structural)]
pub enum Variable {
    IgnoreCase,
    PrecomposeUnicode,
    WorktreeConfig,
}

/// Where the first byte at or after `from` that is not whitespace stands.
pub open spec fn text_from(bytes: Seq<u8>, from: int) -> int
    decreases bytes.len() - from,
{
    if from >= bytes.len() || !is_whitespace(bytes[from]) {
        from
    } else {
        text_from(bytes, from + 1)
    }
}

/// Where the text before `until` ends once trailing whitespace is dropped.
pub open spec fn text_until(bytes: Seq<u8>, until: int) -> int
    decreases until,
{
    if until <= 0 || !is_whitespace(bytes[until - 1]) {
        until
    } else {
        text_until(bytes, until - 1)
    }
}

/// `bytes` without leading whitespace.
pub open spec fn trimmed_start(bytes: Seq<u8>) -> Seq<u8> {
    bytes.skip(text_from(bytes, 0))
}

/// `bytes` without leading and trailing whitespace.
pub open spec fn trimmed(bytes: Seq<u8>) -> Seq<u8> {
    let start = trimmed_start(bytes);
    start.take(text_until(start, start.len() as int))
}

/// `line` without a carriage return at its end.
pub open spec fn without_return(line: Seq<u8>) -> Seq<u8> {
    if line.len() > 0 && line.last() == RETURN {
        line.drop_last()
    } else {
        line
    }
}

/// The lines of `contents` from `from` on. A final line need not be terminated,
/// and a terminator opens no further line.
pub open spec fn physical_lines(contents: Seq<u8>, from: int) -> Seq<Seq<u8>>
    decreases contents.len() + 1 - from,
    when 0 <= from
    via physical_lines_decreases
{
    if from >= contents.len() {
        Seq::empty()
    } else {
        let at = index_from(contents, NEWLINE, from);
        seq![without_return(contents.subrange(from, at))] + physical_lines(contents, at + 1)
    }
}

#[via_fn]
proof fn physical_lines_decreases(contents: Seq<u8>, from: int) {
    if from < contents.len() {
        lemma_index_from(contents, NEWLINE, from);
    }
}

/// Whether a value's text from `from` on is continued on the next line, and
/// then whether it is inside quotes there.
///
/// A backslash at the very end continues it. A comment ends the value, so a
/// backslash in one continues nothing.
pub open spec fn continues(value: Seq<u8>, from: int, quoted: bool) -> Option<bool>
    decreases value.len() - from,
{
    if from >= value.len() {
        None
    } else if value[from] == BACKSLASH {
        if from + 1 >= value.len() {
            Some(quoted)
        } else {
            continues(value, from + 2, quoted)
        }
    } else if value[from] == QUOTE {
        continues(value, from + 1, !quoted)
    } else if !quoted && (value[from] == HASH || value[from] == SEMICOLON) {
        None
    } else {
        continues(value, from + 1, quoted)
    }
}

/// Whether `byte` may stand in a variable's name.
pub open spec fn is_key_byte(byte: u8) -> bool {
    is_alphabetic(byte) || is_digit(byte) || byte == MINUS
}

/// Where the name that starts a line ends.
pub open spec fn key_end(line: Seq<u8>, from: int) -> int
    decreases line.len() - from,
{
    if from >= line.len() || !is_key_byte(line[from]) {
        from
    } else {
        key_end(line, from + 1)
    }
}

/// What follows the section header a line starts with, if it starts with one;
/// nothing where the header is not closed.
pub open spec fn after_header(line: Seq<u8>) -> Option<Seq<u8>> {
    if line.len() > 0 && line[0] == BRACKET_OPEN {
        let end = index_from(line, BRACKET_CLOSE, 0);
        if end < line.len() {
            Some(line.skip(end + 1))
        } else {
            None
        }
    } else {
        Some(line)
    }
}

/// Whether a physical line's value is continued on the next line, and then
/// whether it is inside quotes there.
pub open spec fn line_continues(line: Seq<u8>) -> Option<bool> {
    match after_header(trimmed_start(line)) {
        None => None,
        Some(rest) => {
            let text = if trimmed_start(line).len() > 0 && trimmed_start(line)[0] == BRACKET_OPEN {
                trimmed_start(rest)
            } else {
                rest
            };
            if text.len() == 0 || !is_alphabetic(text[0]) {
                None
            } else {
                let value = trimmed_start(text.skip(key_end(text, 0)));
                if value.len() > 0 && value[0] == EQUALS {
                    continues(value.skip(1), 0, false)
                } else {
                    None
                }
            }
        },
    }
}

/// `text` joined with the lines from number `next` on that continue it, and
/// the number of the first line that does not. `state` says whether and how
/// `text` is continued.
pub open spec fn joined(
    lines: Seq<Seq<u8>>,
    text: Seq<u8>,
    state: Option<bool>,
    next: int,
) -> (Seq<u8>, int)
    decreases lines.len() - next,
{
    match state {
        None => (text, next),
        Some(quoted) => {
            let cut = text.drop_last();
            if next >= lines.len() {
                (cut, next)
            } else {
                joined(lines, cut + lines[next], continues(lines[next], 0, quoted), next + 1)
            }
        },
    }
}

/// The logical lines that the physical lines from number `from` on make up.
pub open spec fn logical_lines(lines: Seq<Seq<u8>>, from: int) -> Seq<Seq<u8>>
    decreases lines.len() - from,
    when 0 <= from
    via logical_lines_decreases
{
    if from >= lines.len() {
        Seq::empty()
    } else {
        let line = joined(lines, lines[from], line_continues(lines[from]), from + 1);
        seq![line.0] + logical_lines(lines, line.1)
    }
}

#[via_fn]
proof fn logical_lines_decreases(lines: Seq<Seq<u8>>, from: int) {
    if from < lines.len() {
        lemma_joined_advances(lines, lines[from], line_continues(lines[from]), from + 1);
    }
}

proof fn lemma_joined_advances(
    lines: Seq<Seq<u8>>,
    text: Seq<u8>,
    state: Option<bool>,
    next: int,
)
    requires
        next <= lines.len(),
    ensures
        next <= joined(lines, text, state, next).1 <= lines.len(),
    decreases lines.len() - next,
{
    if let Some(quoted) = state {
        if next < lines.len() {
            lemma_joined_advances(
                lines,
                text.drop_last() + lines[next],
                continues(lines[next], 0, quoted),
                next + 1,
            );
        }
    }
}

/// Where the comment of a line starts, looking from `from` on, or the length.
pub open spec fn comment_from(line: Seq<u8>, from: int, quoted: bool, escaped: bool) -> int
    decreases line.len() - from,
{
    if from >= line.len() {
        line.len() as int
    } else if escaped {
        comment_from(line, from + 1, quoted, false)
    } else if line[from] == BACKSLASH {
        comment_from(line, from + 1, quoted, true)
    } else if line[from] == QUOTE {
        comment_from(line, from + 1, !quoted, false)
    } else if !quoted && (line[from] == HASH || line[from] == SEMICOLON) {
        from
    } else {
        comment_from(line, from + 1, quoted, false)
    }
}

/// Whether `name` is `word` but for the case of its letters.
pub open spec fn is_name(name: Seq<u8>, word: Seq<char>) -> bool {
    all_lowered(name) == all_lowered(encode_utf8(word))
}

/// The section whose variables are read that a closed header opens. A quoted
/// subsection is a section of its own and none of these.
pub open spec fn section_of(header: Seq<u8>) -> Option<GitConfigSection> {
    if header.len() < 2 || header[0] != BRACKET_OPEN || header.last() != BRACKET_CLOSE {
        None
    } else {
        let name = header.subrange(1, header.len() - 1);
        if is_name(name, "core"@) {
            Some(GitConfigSection::Core)
        } else if is_name(name, "extensions"@) {
            Some(GitConfigSection::Extensions)
        } else {
            None
        }
    }
}

/// Whether `c` is whitespace in the sense of Unicode's `White_Space` property.
pub open spec fn is_white_space(c: char) -> bool {
    let code = c as u32;
    ||| 0x09 <= code <= 0x0d
    ||| code == 0x20 || code == 0x85 || code == 0xa0 || code == 0x1680
    ||| 0x2000 <= code <= 0x200a
    ||| code == 0x2028 || code == 0x2029 || code == 0x202f || code == 0x205f || code == 0x3000
}

/// Where the first character at or after `from` that is not whitespace stands.
pub open spec fn chars_from(text: Seq<char>, from: int) -> int
    decreases text.len() - from,
{
    if from >= text.len() || !is_white_space(text[from]) {
        from
    } else {
        chars_from(text, from + 1)
    }
}

/// Where the text before `until` ends once trailing whitespace is dropped,
/// looking no further back than `from`.
pub open spec fn chars_until(text: Seq<char>, from: int, until: int) -> int
    decreases until - from,
{
    if until <= from || !is_white_space(text[until - 1]) {
        until
    } else {
        chars_until(text, from, until - 1)
    }
}

/// What a backslash in front of `c` stands for.
pub open spec fn escape_of(c: char) -> Option<char> {
    if c == 't' {
        Some('\t')
    } else if c == 'b' {
        Some('\u{8}')
    } else if c == 'n' {
        Some('\n')
    } else if c == '\\' || c == '"' {
        Some(c)
    } else {
        None
    }
}

/// `c` in front of `rest`, where there is a rest.
pub open spec fn char_in_front(c: char, rest: Option<Seq<char>>) -> Option<Seq<char>> {
    match rest {
        Some(text) => Some(seq![c] + text),
        None => None,
    }
}

/// `text` in front of `rest`, where there is a rest.
pub open spec fn in_front(text: Seq<char>, rest: Option<Seq<char>>) -> Option<Seq<char>> {
    match rest {
        Some(rest) => Some(text + rest),
        None => None,
    }
}

proof fn lemma_in_front(text: Seq<char>, c: char, rest: Option<Seq<char>>)
    ensures
        in_front(text, char_in_front(c, rest)) == in_front(text.push(c), rest),
{
    if let Some(rest) = rest {
        assert(text + (seq![c] + rest) =~= text.push(c) + rest);
    }
}

/// The value that the text between `from` and `until` spells, with its quotes
/// and escapes resolved; nothing where a quote or an escape is left open, or an
/// escape stands for nothing.
pub open spec fn decoded(
    text: Seq<char>,
    from: int,
    until: int,
    quoted: bool,
    escaped: bool,
) -> Option<Seq<char>>
    decreases until - from,
{
    if from >= until {
        if quoted || escaped {
            None
        } else {
            Some(Seq::empty())
        }
    } else if escaped {
        match escape_of(text[from]) {
            Some(c) => char_in_front(c, decoded(text, from + 1, until, quoted, false)),
            None => None,
        }
    } else if text[from] == '\\' {
        decoded(text, from + 1, until, quoted, true)
    } else if text[from] == '"' {
        decoded(text, from + 1, until, !quoted, false)
    } else {
        char_in_front(text[from], decoded(text, from + 1, until, quoted, false))
    }
}

/// The code of `c` with an ASCII capital turned into its small letter.
pub open spec fn folded(c: char) -> int {
    if 0x41 <= c as u32 <= 0x5a {
        c as u32 + 32
    } else {
        c as u32 as int
    }
}

/// Whether two texts are equal but for the case of ASCII letters.
pub open spec fn same_word(text: Seq<char>, word: Seq<char>) -> bool {
    text.len() == word.len() && forall|i: int|
        0 <= i < text.len() ==> folded(#[trigger] text[i]) == folded(word[i])
}

/// The value of a digit, which may be larger than a radix allows.
pub open spec fn digit_value(c: char) -> int {
    let code = c as u32;
    if 0x30 <= code <= 0x39 {
        code - 0x30
    } else if 0x41 <= code <= 0x5a {
        code - 0x41 + 10
    } else if 0x61 <= code <= 0x7a {
        code - 0x61 + 10
    } else {
        99
    }
}

/// The number that the digits of `text` from `from` up to `until` spell.
pub open spec fn magnitude(text: Seq<char>, from: int, until: int, radix: int) -> Option<int>
    decreases until - from,
{
    if until <= from {
        Some(0)
    } else {
        match magnitude(text, from, until - 1, radix) {
            Some(value) => if digit_value(text[until - 1]) < radix {
                Some(value * radix + digit_value(text[until - 1]))
            } else {
                None
            },
            None => None,
        }
    }
}

/// The number between `from` and `until`: at least one digit, and nothing else.
pub open spec fn digits_number(text: Seq<char>, from: int, until: int, radix: int) -> Option<int> {
    if from >= until {
        None
    } else {
        magnitude(text, from, until, radix)
    }
}

/// What the last character of a number multiplies it with.
pub open spec fn scale_of(c: char) -> int {
    if c == 'k' || c == 'K' {
        1024
    } else if c == 'm' || c == 'M' {
        1_048_576
    } else if c == 'g' || c == 'G' {
        1_073_741_824
    } else {
        1
    }
}

/// The unscaled number between `from` and `until`, in C's base-zero notation.
pub open spec fn base_zero(text: Seq<char>, from: int, until: int) -> Option<int> {
    if until - from >= 2 && text[from] == '0' && (text[from + 1] == 'x' || text[from + 1] == 'X') {
        digits_number(text, from + 2, until, 16)
    } else if until - from >= 2 && text[from] == '0' {
        digits_number(text, from + 1, until, 8)
    } else {
        digits_number(text, from, until, 10)
    }
}

/// The integer a value spells: one optional sign, digits in base-zero notation,
/// and a binary scale. One that does not fit into 32 bits is no integer.
pub open spec fn integer_of(text: Seq<char>) -> Option<int> {
    let negative = text.len() > 0 && text[0] == '-';
    let from: int = if text.len() > 0 && (text[0] == '+' || text[0] == '-') {
        1
    } else {
        0
    };
    let scale = if text.len() > from {
        scale_of(text.last())
    } else {
        1
    };
    let until = if scale == 1 {
        text.len() as int
    } else {
        text.len() - 1
    };
    match base_zero(text, from, until) {
        Some(number) => {
            let value = if negative {
                -(number * scale)
            } else {
                number * scale
            };
            if i32::MIN <= value <= i32::MAX {
                Some(value)
            } else {
                None
            }
        },
        None => None,
    }
}

/// The boolean a decoded value stands for.
pub open spec fn bool_of_text(text: Seq<char>) -> Option<bool> {
    if text.len() == 0 {
        Some(false)
    } else if same_word(text, "true"@) || same_word(text, "yes"@) || same_word(text, "on"@) {
        Some(true)
    } else if same_word(text, "false"@) || same_word(text, "no"@) || same_word(text, "off"@) {
        Some(false)
    } else {
        match integer_of(text) {
            Some(value) => Some(value != 0),
            None => None,
        }
    }
}

/// The boolean a value stands for, if it is one.
pub open spec fn bool_of(value: Seq<u8>) -> Option<bool> {
    if !valid_utf8(value) {
        None
    } else {
        let text = decode_utf8(value);
        let from = chars_from(text, 0);
        match decoded(text, from, chars_until(text, from, text.len() as int), false, false) {
            Some(word) => bool_of_text(word),
            None => None,
        }
    }
}

/// The variable that `key` names in `section`.
pub open spec fn variable_of(section: GitConfigSection, key: Seq<u8>) -> Option<Variable> {
    match section {
        GitConfigSection::Core => if is_name(key, "ignorecase"@) {
            Some(Variable::IgnoreCase)
        } else if is_name(key, "precomposeunicode"@) {
            Some(Variable::PrecomposeUnicode)
        } else {
            None
        },
        GitConfigSection::Extensions => if is_name(key, "worktreeconfig"@) {
            Some(Variable::WorktreeConfig)
        } else {
            None
        },
    }
}

/// What the text of an assignment in `section` sets, and to what. A variable
/// without a value is true, and one whose value is no boolean is not set.
pub open spec fn assignment(section: Option<GitConfigSection>, text: Seq<u8>) -> Option<
    (Variable, bool),
> {
    match section {
        None => None,
        Some(section) => {
            let at = index_from(text, EQUALS, 0);
            let value = if at < text.len() {
                bool_of(trimmed(text.skip(at + 1)))
            } else {
                Some(true)
            };
            match (variable_of(section, trimmed(text.take(at))), value) {
                (Some(variable), Some(value)) => Some((variable, value)),
                _ => None,
            }
        },
    }
}

/// A logical line without its comment and the whitespace around it.
pub open spec fn line_text(line: Seq<u8>) -> Seq<u8> {
    trimmed(line.take(comment_from(line, 0, false, false)))
}

/// The section that is active after a line. An unclosed header leaves none.
pub open spec fn section_after(section: Option<GitConfigSection>, line: Seq<u8>) -> Option<
    GitConfigSection,
> {
    let text = line_text(line);
    if text.len() > 0 && text[0] == BRACKET_OPEN {
        let end = index_from(text, BRACKET_CLOSE, 0);
        if end < text.len() {
            section_of(text.take(end + 1))
        } else {
            None
        }
    } else {
        section
    }
}

/// What a line sets, and to what. An assignment may follow a header.
pub open spec fn line_assignment(section: Option<GitConfigSection>, line: Seq<u8>) -> Option<
    (Variable, bool),
> {
    let text = line_text(line);
    let rest = if text.len() > 0 && text[0] == BRACKET_OPEN {
        let end = index_from(text, BRACKET_CLOSE, 0);
        if end < text.len() {
            trimmed(text.skip(end + 1))
        } else {
            Seq::empty()
        }
    } else {
        text
    };
    if rest.len() == 0 {
        None
    } else {
        assignment(section_after(section, line), rest)
    }
}

/// The value of a variable.
pub open spec fn setting(config: GitConfig, variable: Variable) -> Option<bool> {
    match variable {
        Variable::IgnoreCase => config.ignore_case,
        Variable::PrecomposeUnicode => config.precompose_unicode,
        Variable::WorktreeConfig => config.worktree_config,
    }
}

/// `config` with one variable set.
pub open spec fn with_setting(config: GitConfig, variable: Variable, value: bool) -> GitConfig {
    match variable {
        Variable::IgnoreCase => GitConfig { ignore_case: Some(value), ..config },
        Variable::PrecomposeUnicode => GitConfig { precompose_unicode: Some(value), ..config },
        Variable::WorktreeConfig => GitConfig { worktree_config: Some(value), ..config },
    }
}

/// The settings after one logical line.
pub open spec fn after_line(
    config: GitConfig,
    section: Option<GitConfigSection>,
    line: Seq<u8>,
) -> GitConfig {
    match line_assignment(section, line) {
        Some((variable, value)) => with_setting(config, variable, value),
        None => config,
    }
}

/// The active section after the first `count` lines.
pub open spec fn section_at(lines: Seq<Seq<u8>>, count: int) -> Option<GitConfigSection>
    decreases count,
{
    if count <= 0 {
        None
    } else {
        section_after(section_at(lines, count - 1), lines[count - 1])
    }
}

/// The settings after the first `count` lines.
pub open spec fn after_lines(config: GitConfig, lines: Seq<Seq<u8>>, count: int) -> GitConfig
    decreases count,
{
    if count <= 0 {
        config
    } else {
        after_line(
            after_lines(config, lines, count - 1),
            section_at(lines, count - 1),
            lines[count - 1],
        )
    }
}

/// What line number `at` sets, and to what.
pub open spec fn assigned_by(lines: Seq<Seq<u8>>, at: int) -> Option<(Variable, bool)> {
    line_assignment(section_at(lines, at), lines[at])
}

/// Whether line number `at` sets `variable`.
pub open spec fn assigns(lines: Seq<Seq<u8>>, at: int, variable: Variable) -> bool {
    match assigned_by(lines, at) {
        Some((name, _)) => name == variable,
        None => false,
    }
}

/// The settings once a whole config file was read on top of `config`.
pub open spec fn after_config(config: GitConfig, file: Seq<u8>) -> GitConfig {
    let lines = logical_lines(physical_lines(file, 0), 0);
    after_lines(config, lines, lines.len() as int)
}

/// The last valid value of a variable decides, whatever other variables and
/// invalid values follow it.
pub proof fn law_the_last_valid_value_wins(
    config: GitConfig,
    lines: Seq<Seq<u8>>,
    at: int,
    variable: Variable,
    value: bool,
    count: int,
)
    requires
        0 <= at < count <= lines.len(),
        assigned_by(lines, at) == Some((variable, value)),
        forall|i: int| at < i < count ==> !assigns(lines, i, variable),
    ensures
        setting(after_lines(config, lines, count), variable) == Some(value),
    decreases count,
{
    if at + 1 < count {
        law_the_last_valid_value_wins(config, lines, at, variable, value, count - 1);
        assert(!assigns(lines, count - 1, variable));
    }
}

/// A variable that no line gives a valid value keeps the value it had.
pub proof fn law_a_variable_nobody_sets_keeps_its_value(
    config: GitConfig,
    lines: Seq<Seq<u8>>,
    variable: Variable,
    count: int,
)
    requires
        0 <= count <= lines.len(),
        forall|i: int| 0 <= i < count ==> !assigns(lines, i, variable),
    ensures
        setting(after_lines(config, lines, count), variable) == setting(config, variable),
    decreases count,
{
    if count > 0 {
        law_a_variable_nobody_sets_keeps_its_value(config, lines, variable, count - 1);
        assert(!assigns(lines, count - 1, variable));
    }
}

/// Drops leading whitespace.
fn trim_ascii_start(bytes: &[u8]) -> (result: &[u8])
    ensures
        result@ == trimmed_start(bytes@),
{
    let mut start: usize = 0;
    while start < bytes.len() && whitespace(bytes[start])
        invariant
            start <= bytes@.len(),
            text_from(bytes@, 0) == text_from(bytes@, start as int),
        decreases bytes@.len() - start,
    {
        start += 1;
    }
    assert(bytes@.subrange(start as int, bytes@.len() as int) =~= bytes@.skip(start as int));
    slice_subrange(bytes, start, bytes.len())
}

/// Drops leading and trailing whitespace.
fn trim_ascii(bytes: &[u8]) -> (result: &[u8])
    ensures
        result@ == trimmed(bytes@),
{
    let start = trim_ascii_start(bytes);
    let mut end: usize = start.len();
    while end > 0 && whitespace(start[end - 1])
        invariant
            end <= start@.len(),
            text_until(start@, start@.len() as int) == text_until(start@, end as int),
        decreases end,
    {
        end -= 1;
    }
    assert(start@.subrange(0, end as int) =~= start@.take(end as int));
    slice_subrange(start, 0, end)
}

/// Whether one stretch of a value is continued on the next line. The quote
/// state its predecessor left is handed in, so no text is scanned twice.
fn config_value_suffix_continuation(value: &[u8], quoted: bool) -> (result: Option<bool>)
    ensures
        result == continues(value@, 0, quoted),
{
    let mut inside = quoted;
    let mut index: usize = 0;
    while index < value.len()
        invariant
            index <= value@.len(),
            continues(value@, 0, quoted) == continues(value@, index as int, inside),
        decreases value@.len() - index,
    {
        let byte: u8 = value[index];
        if byte == BACKSLASH {
            if index + 1 >= value.len() {
                return Some(inside);
            }
            index += 2;
        } else if byte == QUOTE {
            inside = !inside;
            index += 1;
        } else if !inside && (byte == HASH || byte == SEMICOLON) {
            return None;
        } else {
            index += 1;
        }
    }
    None
}

/// Whether a physical line's value is continued on the next line.
fn config_value_continuation(line: &[u8]) -> (result: Option<bool>)
    ensures
        result == line_continues(line@),
{
    let start = trim_ascii_start(line);
    let text = if start.len() > 0 && start[0] == BRACKET_OPEN {
        let end = position_from(start, BRACKET_CLOSE, 0);
        if end >= start.len() {
            return None;
        }
        let rest = slice_subrange(start, end + 1, start.len());
        assert(rest@ =~= start@.skip(end + 1));
        trim_ascii_start(rest)
    } else {
        start
    };
    if text.len() == 0 || !alphabetic(text[0]) {
        return None;
    }
    let mut end: usize = 0;
    while end < text.len() && (alphabetic(text[end]) || digit(text[end]) || text[end] == MINUS)
        invariant
            end <= text@.len(),
            key_end(text@, 0) == key_end(text@, end as int),
        decreases text@.len() - end,
    {
        end += 1;
    }
    let rest = slice_subrange(text, end, text.len());
    assert(rest@ =~= text@.skip(end as int));
    let value = trim_ascii_start(rest);
    if value.len() == 0 || value[0] != EQUALS {
        return None;
    }
    let inner = slice_subrange(value, 1, value.len());
    assert(inner@ =~= value@.skip(1));
    config_value_suffix_continuation(inner, false)
}

/// The physical lines of a file.
fn split_lines(file: &[u8]) -> (result: Vec<Vec<u8>>)
    ensures
        contents(result@) == physical_lines(file@, 0),
{
    let mut lines: Vec<Vec<u8>> = Vec::new();
    let mut start: usize = 0;
    assert(contents(lines@) + physical_lines(file@, 0) =~= physical_lines(file@, 0));
    while start < file.len()
        invariant
            start <= file@.len(),
            contents(lines@) + physical_lines(file@, start as int) == physical_lines(file@, 0),
        decreases file@.len() - start,
    {
        let at = position_from(file, NEWLINE, start);
        let end: usize = if at > start && file[at - 1] == RETURN {
            at - 1
        } else {
            at
        };
        let line = slice_to_vec(slice_subrange(file, start, end));
        proof {
            let whole = file@.subrange(start as int, at as int);
            assert(line@ =~= without_return(whole));
        }
        let ghost before = contents(lines@);
        lines.push(line);
        proof {
            assert(contents(lines@) =~= before.push(line@));
            assert(before + (seq![line@] + physical_lines(file@, at + 1)) =~= before.push(line@)
                + physical_lines(file@, at + 1));
            if at >= file@.len() {
                assert(physical_lines(file@, at + 1) =~= Seq::empty());
                assert(physical_lines(file@, file@.len() as int) =~= Seq::empty());
            }
        }
        start = if at < file.len() {
            at + 1
        } else {
            file.len()
        };
    }
    assert(physical_lines(file@, start as int) =~= Seq::empty());
    assert(contents(lines@) + Seq::empty() =~= contents(lines@));
    lines
}

/// The logical lines a value parser sees.
///
/// A backslash at the end of an assignment's value takes the line break with
/// it, and reading goes on with the next line's bytes, indentation included.
/// At the end of the file the backslash is dropped.
pub fn logical_config_lines(file: &[u8]) -> (result: Vec<Vec<u8>>)
    ensures
        contents(result@) == logical_lines(physical_lines(file@, 0), 0),
{
    let physical = split_lines(file);
    let ghost lines = contents(physical@);
    let mut logical: Vec<Vec<u8>> = Vec::new();
    let mut at: usize = 0;
    assert(contents(logical@) + logical_lines(lines, 0) =~= logical_lines(lines, 0));
    while at < physical.len()
        invariant
            at <= physical@.len(),
            lines == contents(physical@),
            contents(logical@) + logical_lines(lines, at as int) == logical_lines(lines, 0),
        decreases physical@.len() - at,
    {
        let ghost first = at as int;
        assert(lines[first] == physical@[first]@);
        let mut line = slice_to_vec(physical[at].as_slice());
        let mut state = config_value_continuation(physical[at].as_slice());
        let ghost whole = joined(lines, lines[first], line_continues(lines[first]), first + 1);
        proof {
            lemma_joined_advances(lines, lines[first], line_continues(lines[first]), first + 1);
            if line@.len() == 0 {
                assert(trimmed_start(line@) =~= Seq::empty());
            }
        }
        at += 1;
        let mut open = state.is_some();
        while open
            invariant_except_break
                whole == joined(lines, line@, state, at as int),
                open == (state is Some),
                open ==> line@.len() > 0,
            invariant
                first < at <= physical@.len(),
                lines == contents(physical@),
            ensures
                first < at <= physical@.len(),
                whole == (line@, at as int),
            decreases physical@.len() - at, (if open { 1int } else { 0int }),
        {
            let quoted = match state {
                Some(quoted) => quoted,
                None => false,
            };
            let ghost before = line@;
            let _ = line.pop();
            assert(line@ =~= before.drop_last());
            if at >= physical.len() {
                break;
            }
            assert(lines[at as int] == physical@[at as int]@);
            let next = physical[at].as_slice();
            append(&mut line, next);
            state = config_value_suffix_continuation(next, quoted);
            open = state.is_some();
            at += 1;
        }
        let ghost before = contents(logical@);
        logical.push(line);
        proof {
            assert(contents(logical@) =~= before.push(line@));
            assert(before + (seq![line@] + logical_lines(lines, at as int)) =~= before.push(line@)
                + logical_lines(lines, at as int));
        }
    }
    assert(logical_lines(lines, at as int) =~= Seq::empty());
    assert(contents(logical@) + Seq::empty() =~= contents(logical@));
    logical
}

/// A line without its comment. Neither quotes nor escapes end one.
fn strip_config_comment(line: &[u8]) -> (result: &[u8])
    ensures
        result@ == line@.take(comment_from(line@, 0, false, false)),
{
    let mut quoted = false;
    let mut escaped = false;
    let mut index: usize = 0;
    while index < line.len()
        invariant
            index <= line@.len(),
            comment_from(line@, 0, false, false) == comment_from(
                line@,
                index as int,
                quoted,
                escaped,
            ),
        decreases line@.len() - index,
    {
        let byte: u8 = line[index];
        if escaped {
            escaped = false;
        } else if byte == BACKSLASH {
            escaped = true;
        } else if byte == QUOTE {
            quoted = !quoted;
        } else if !quoted && (byte == HASH || byte == SEMICOLON) {
            let kept = slice_subrange(line, 0, index);
            assert(kept@ =~= line@.take(index as int));
            return kept;
        }
        index += 1;
    }
    assert(line@.take(line@.len() as int) =~= line@);
    line
}

/// Whether `name` is `word` but for the case of its letters.
fn named(name: &[u8], word: &str) -> (result: bool)
    ensures
        result == is_name(name@, word@),
{
    same_ignoring_case(name, word.as_bytes())
}

/// The section a closed header opens, of those whose variables are read.
fn parse_top_level_section(line: &[u8]) -> (result: Option<GitConfigSection>)
    ensures
        result == section_of(line@),
{
    if line.len() < 2 || line[0] != BRACKET_OPEN || line[line.len() - 1] != BRACKET_CLOSE {
        return None;
    }
    let name = slice_subrange(line, 1, line.len() - 1);
    if named(name, "core") {
        Some(GitConfigSection::Core)
    } else if named(name, "extensions") {
        Some(GitConfigSection::Extensions)
    } else {
        None
    }
}

/// Parts a section header from what is written behind it on the same line.
fn parse_config_header(line: &[u8]) -> (result: Option<(Option<GitConfigSection>, &[u8])>)
    ensures
        match result {
            Some((section, rest)) => {
                let end = index_from(line@, BRACKET_CLOSE, 0);
                &&& end < line@.len()
                &&& section == section_of(line@.take(end + 1))
                &&& rest@ == line@.skip(end + 1)
            },
            None => index_from(line@, BRACKET_CLOSE, 0) == line@.len(),
        },
{
    let end = position_from(line, BRACKET_CLOSE, 0);
    if end >= line.len() {
        return None;
    }
    let header = slice_subrange(line, 0, end + 1);
    assert(header@ =~= line@.take(end + 1));
    let rest = slice_subrange(line, end + 1, line.len());
    assert(rest@ =~= line@.skip(end + 1));
    Some((parse_top_level_section(header), rest))
}

/// The characters of a text.
fn chars_of(text: &str) -> (result: Vec<char>)
    ensures
        result@ == text@,
{
    let mut chars: Vec<char> = Vec::new();
    for c in it: text.chars()
        invariant
            it.seq() == text@,
            chars@ == text@.take(it.index() as int),
    {
        chars.push(c);
        assert(text@.take(it.index() as int + 1) =~= text@.take(it.index() as int).push(c));
    }
    assert(text@.take(text@.len() as int) =~= text@);
    chars
}

/// Whether `c` is whitespace.
fn white_space(c: char) -> (result: bool)
    ensures
        result == is_white_space(c),
{
    let code: u32 = c as u32;
    (0x09 <= code && code <= 0x0d) || code == 0x20 || code == 0x85 || code == 0xa0 || code == 0x1680
        || (0x2000 <= code && code <= 0x200a) || code == 0x2028 || code == 0x2029 || code == 0x202f
        || code == 0x205f || code == 0x3000
}

/// The value that the text between `from` and `until` spells.
fn decode_git_config_value(text: &Vec<char>, from: usize, until: usize) -> (result: Option<
    Vec<char>,
>)
    requires
        from <= until <= text@.len(),
    ensures
        match result {
            Some(value) => decoded(text@, from as int, until as int, false, false) == Some(value@),
            None => decoded(text@, from as int, until as int, false, false) is None,
        },
{
    let mut value: Vec<char> = Vec::new();
    let mut quoted = false;
    let mut escaped = false;
    let mut index: usize = from;
    let ghost whole = decoded(text@, from as int, until as int, false, false);
    proof {
        if let Some(rest) = whole {
            assert(value@ + rest =~= rest);
        }
    }
    while index < until
        invariant
            from <= index <= until <= text@.len(),
            whole == in_front(
                value@,
                decoded(text@, index as int, until as int, quoted, escaped),
            ),
            whole == decoded(text@, from as int, until as int, false, false),
        decreases until - index,
    {
        let c = text[index];
        let ghost before = value@;
        let ghost rest = decoded(text@, index + 1, until as int, quoted, false);
        if escaped {
            let plain = if c == 't' {
                '\t'
            } else if c == 'b' {
                '\u{8}'
            } else if c == 'n' {
                '\n'
            } else if c == '\\' || c == '"' {
                c
            } else {
                return None;
            };
            value.push(plain);
            escaped = false;
            proof {
                lemma_in_front(before, plain, rest);
            }
        } else if c == '\\' {
            escaped = true;
        } else if c == '"' {
            quoted = !quoted;
        } else {
            value.push(c);
            proof {
                lemma_in_front(before, c, rest);
            }
        }
        index += 1;
    }
    if quoted || escaped {
        return None;
    }
    assert(value@ + Seq::<char>::empty() =~= value@);
    Some(value)
}

/// Whether a text is a word but for the case of its letters.
fn is_word(text: &Vec<char>, word: &str) -> (result: bool)
    ensures
        result == same_word(text@, word@),
{
    let letters = chars_of(word);
    if text.len() != letters.len() {
        return false;
    }
    let mut i: usize = 0;
    while i < text.len()
        invariant
            i <= text@.len(),
            text@.len() == letters@.len(),
            letters@ == word@,
            forall|j: int| 0 <= j < i ==> folded(#[trigger] text@[j]) == folded(word@[j]),
        decreases text@.len() - i,
    {
        if fold(text[i]) != fold(letters[i]) {
            assert(folded(text@[i as int]) != folded(word@[i as int]));
            return false;
        }
        i += 1;
    }
    true
}

/// The code of `c` with an ASCII capital turned into its small letter.
fn fold(c: char) -> (result: u32)
    ensures
        result == folded(c),
{
    let code: u32 = c as u32;
    if 0x41 <= code && code <= 0x5a {
        code + 32
    } else {
        code
    }
}

/// The value of a digit.
fn digit_of(c: char) -> (result: u64)
    ensures
        result == digit_value(c),
{
    let code: u32 = c as u32;
    if 0x30 <= code && code <= 0x39 {
        (code - 0x30) as u64
    } else if 0x41 <= code && code <= 0x5a {
        (code - 0x41 + 10) as u64
    } else if 0x61 <= code && code <= 0x7a {
        (code - 0x61 + 10) as u64
    } else {
        99
    }
}

/// No value that fits into 32 bits has a larger magnitude.
const LARGEST_MAGNITUDE: u64 = 0x8000_0000;

proof fn lemma_magnitude_grows(text: Seq<char>, from: int, middle: int, until: int, radix: int)
    requires
        from <= middle <= until,
        radix >= 1,
    ensures
        match magnitude(text, from, until, radix) {
            Some(value) => match magnitude(text, from, middle, radix) {
                Some(part) => 0 <= part <= value,
                None => false,
            },
            None => true,
        },
    decreases until - from,
{
    if middle < until {
        lemma_magnitude_grows(text, from, middle, until - 1, radix);
        if let Some(value) = magnitude(text, from, until - 1, radix) {
            assert(value * radix >= value) by (nonlinear_arith)
                requires
                    value >= 0,
                    radix >= 1,
            ;
        }
    } else if from < until {
        lemma_magnitude_grows(text, from, until - 1, until - 1, radix);
        if let Some(value) = magnitude(text, from, until - 1, radix) {
            assert(value * radix >= 0) by (nonlinear_arith)
                requires
                    value >= 0,
                    radix >= 1,
            ;
        }
    }
}

/// Whether `result` is the number `exact`, or is missing because there is no
/// number or one too large to matter.
spec fn stands_for(result: Option<i64>, exact: Option<int>) -> bool {
    match result {
        Some(value) => -LARGEST_MAGNITUDE <= value <= LARGEST_MAGNITUDE && exact == Some(
            value as int,
        ),
        None => match exact {
            Some(value) => value < -LARGEST_MAGNITUDE || value > LARGEST_MAGNITUDE,
            None => true,
        },
    }
}

/// Scaling keeps a number's sign, and never brings it closer to zero.
proof fn lemma_scaled(number: int, scale: int)
    requires
        1 <= scale <= 0x4000_0000,
    ensures
        number >= 0 ==> number * scale >= number,
        number <= 0 ==> number * scale <= number,
        -0x8000_0000 <= number <= 0x8000_0000 ==> -0x8000_0000 * 0x4000_0000 <= number * scale
            <= 0x8000_0000 * 0x4000_0000,
{
    assert(number >= 0 ==> number * scale >= number) by (nonlinear_arith)
        requires
            scale >= 1,
    ;
    assert(number <= 0 ==> number * scale <= number) by (nonlinear_arith)
        requires
            scale >= 1,
    ;
    assert(-0x8000_0000 <= number <= 0x8000_0000 ==> -0x8000_0000 * 0x4000_0000 <= number * scale
        <= 0x8000_0000 * 0x4000_0000) by (nonlinear_arith)
        requires
            1 <= scale <= 0x4000_0000,
    ;
}

/// The number that the digits between `from` and `until` spell, where it is
/// small enough to matter.
fn parse_magnitude(text: &Vec<char>, from: usize, until: usize, radix: u64) -> (result: Option<u64>)
    requires
        from <= until <= text@.len(),
        2 <= radix <= 16,
    ensures
        match result {
            Some(value) => value <= LARGEST_MAGNITUDE && magnitude(
                text@,
                from as int,
                until as int,
                radix as int,
            ) == Some(value as int),
            None => match magnitude(text@, from as int, until as int, radix as int) {
                Some(value) => value > LARGEST_MAGNITUDE,
                None => true,
            },
        },
{
    let mut value: u64 = 0;
    let mut index: usize = from;
    while index < until
        invariant
            from <= index <= until <= text@.len(),
            2 <= radix <= 16,
            value <= LARGEST_MAGNITUDE,
            magnitude(text@, from as int, index as int, radix as int) == Some(value as int),
        decreases until - index,
    {
        let next = digit_of(text[index]);
        proof {
            lemma_magnitude_grows(
                text@,
                from as int,
                index as int + 1,
                until as int,
                radix as int,
            );
            assert(0 <= value * radix <= 0x8000_0000 * 16) by (nonlinear_arith)
                requires
                    value <= 0x8000_0000,
                    radix <= 16,
            ;
        }
        if next >= radix {
            return None;
        }
        value = value * radix + next;
        index += 1;
        if value > LARGEST_MAGNITUDE {
            return None;
        }
    }
    Some(value)
}

/// The number between `from` and `until`, where it is small enough to matter:
/// at least one digit, and nothing else.
fn parse_digits(text: &Vec<char>, from: usize, until: usize, radix: u64) -> (result: Option<i64>)
    requires
        from <= text@.len(),
        until <= text@.len(),
        2 <= radix <= 16,
    ensures
        stands_for(result, digits_number(text@, from as int, until as int, radix as int)),
{
    if from >= until {
        return None;
    }
    proof {
        lemma_magnitude_grows(text@, from as int, from as int, until as int, radix as int);
    }
    match parse_magnitude(text, from, until, radix) {
        None => None,
        Some(number) => Some(number as i64),
    }
}

/// The number between `from` and `until` in C's base-zero notation, where it is
/// small enough to matter.
fn parse_base_zero(text: &Vec<char>, from: usize, until: usize) -> (result: Option<i64>)
    requires
        from <= until <= text@.len(),
    ensures
        stands_for(result, base_zero(text@, from as int, until as int)),
{
    if until - from >= 2 && text[from] == '0' {
        if text[from + 1] == 'x' || text[from + 1] == 'X' {
            parse_digits(text, from + 2, until, 16)
        } else {
            parse_digits(text, from + 1, until, 8)
        }
    } else {
        parse_digits(text, from, until, 10)
    }
}

/// The binary scale that a character stands for.
fn scale_for(c: char) -> (result: i64)
    ensures
        result == scale_of(c),
        1 <= result <= 0x4000_0000,
{
    if c == 'k' || c == 'K' {
        1024
    } else if c == 'm' || c == 'M' {
        1_048_576
    } else if c == 'g' || c == 'G' {
        1_073_741_824
    } else {
        1
    }
}

/// The integer a decoded value spells, where it fits into 32 bits.
fn parse_git_config_int(text: &Vec<char>) -> (result: Option<i32>)
    ensures
        match result {
            Some(value) => integer_of(text@) == Some(value as int),
            None => integer_of(text@) is None,
        },
{
    let negative = text.len() > 0 && text[0] == '-';
    let from: usize = if text.len() > 0 && (text[0] == '+' || text[0] == '-') {
        1
    } else {
        0
    };
    let scale: i64 = if text.len() > from {
        scale_for(text[text.len() - 1])
    } else {
        1
    };
    let until: usize = if scale == 1 {
        text.len()
    } else {
        text.len() - 1
    };
    let parsed = parse_base_zero(text, from, until);
    let ghost exact = base_zero(text@, from as int, until as int);
    match parsed {
        None => {
            proof {
                if let Some(number) = exact {
                    lemma_scaled(number, scale as int);
                }
            }
            None
        },
        Some(number) => {
            proof {
                lemma_scaled(number as int, scale as int);
            }
            let scaled: i64 = number * scale;
            let value: i64 = if negative {
                -scaled
            } else {
                scaled
            };
            if -0x8000_0000 <= value && value <= 0x7fff_ffff {
                Some(value as i32)
            } else {
                None
            }
        },
    }
}

/// The boolean a value stands for, if it is one.
pub fn parse_git_bool(value: &[u8]) -> (result: Option<bool>)
    ensures
        result == bool_of(value@),
{
    let text = match text_of(value) {
        Some(text) => chars_of(text),
        None => return None,
    };
    let mut from: usize = 0;
    while from < text.len() && white_space(text[from])
        invariant
            from <= text@.len(),
            chars_from(text@, 0) == chars_from(text@, from as int),
        decreases text@.len() - from,
    {
        from += 1;
    }
    let mut until: usize = text.len();
    while until > from && white_space(text[until - 1])
        invariant
            from <= until <= text@.len(),
            chars_until(text@, from as int, text@.len() as int) == chars_until(
                text@,
                from as int,
                until as int,
            ),
        decreases until,
    {
        until -= 1;
    }
    match decode_git_config_value(&text, from, until) {
        None => None,
        Some(word) => {
            if word.len() == 0 {
                Some(false)
            } else if is_word(&word, "true") || is_word(&word, "yes") || is_word(&word, "on") {
                Some(true)
            } else if is_word(&word, "false") || is_word(&word, "no") || is_word(&word, "off") {
                Some(false)
            } else {
                match parse_git_config_int(&word) {
                    Some(number) => Some(number != 0),
                    None => None,
                }
            }
        },
    }
}

/// The variable that `key` names in `section`.
fn variable_named(section: GitConfigSection, key: &[u8]) -> (result: Option<Variable>)
    ensures
        result == variable_of(section, key@),
{
    match section {
        GitConfigSection::Core => if named(key, "ignorecase") {
            Some(Variable::IgnoreCase)
        } else if named(key, "precomposeunicode") {
            Some(Variable::PrecomposeUnicode)
        } else {
            None
        },
        GitConfigSection::Extensions => if named(key, "worktreeconfig") {
            Some(Variable::WorktreeConfig)
        } else {
            None
        },
    }
}

/// What the text of an assignment in `section` sets, and to what.
fn parse_assignment(section: Option<GitConfigSection>, text: &[u8]) -> (result: Option<
    (Variable, bool),
>)
    ensures
        result == assignment(section, text@),
{
    let section = match section {
        Some(section) => section,
        None => return None,
    };
    let at = position_from(text, EQUALS, 0);
    let left = slice_subrange(text, 0, at);
    assert(left@ =~= text@.take(at as int));
    let key = trim_ascii(left);
    let value = if at < text.len() {
        let right = slice_subrange(text, at + 1, text.len());
        assert(right@ =~= text@.skip(at + 1));
        parse_git_bool(trim_ascii(right))
    } else {
        Some(true)
    };
    match (variable_named(section, key), value) {
        (Some(variable), Some(value)) => Some((variable, value)),
        _ => None,
    }
}

/// Reads a config file on top of the settings made so far.
///
/// Within a file, and from one file to the next, the last valid value of a
/// variable wins. Forms that are not understood leave the settings alone.
pub fn apply_config(config: &mut GitConfig, file: &[u8])
    ensures
        *final(config) == after_config(*old(config), file@),
{
    let lines = logical_config_lines(file);
    let ghost texts = contents(lines@);
    let mut section: Option<GitConfigSection> = None;
    let mut i: usize = 0;
    while i < lines.len()
        invariant
            i <= lines@.len(),
            texts == contents(lines@),
            section == section_at(texts, i as int),
            *config == after_lines(*old(config), texts, i as int),
        decreases lines@.len() - i,
    {
        assert(texts[i as int] == lines@[i as int]@);
        let text = trim_ascii(strip_config_comment(lines[i].as_slice()));
        let mut rest = text;
        if text.len() > 0 && text[0] == BRACKET_OPEN {
            match parse_config_header(text) {
                Some((opened, behind)) => {
                    section = opened;
                    rest = trim_ascii(behind);
                },
                None => {
                    section = None;
                    rest = slice_subrange(text, 0, 0);
                },
            }
        }
        if rest.len() > 0 {
            match parse_assignment(section, rest) {
                Some((Variable::IgnoreCase, value)) => config.ignore_case = Some(value),
                Some((Variable::PrecomposeUnicode, value)) => config.precompose_unicode = Some(
                    value,
                ),
                Some((Variable::WorktreeConfig, value)) => config.worktree_config = Some(value),
                None => {},
            }
        }
        i += 1;
    }
}

} // verus!
