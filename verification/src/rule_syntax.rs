//! Reading one line of an ignore file, up to the point where patterns are
//! compiled.
//!
//! A line is read the way `gitignore(5)` describes it: comment, negation,
//! trailing spaces, directory-only slash, anchoring. What comes out is a plan:
//! the components a candidate's components are compared with, each of them
//! either a run of directories or the text of one component's pattern.
//!
//! A rule compiles per path component rather than into one pattern, because a
//! `**` of an ignore file is only ever a whole component:
//!
//! - A rule without a separator matches at any level, which is a leading run
//!   of directories; one with a separator is anchored to its own directory.
//! - A trailing `/**` covers what is inside a directory, so something has to
//!   follow it.
//! - Asterisks inside a component are ordinary stars, so `a**b` collapses to
//!   `a*b`; a run of two or more stars at a component suffix also has a
//!   directory-spanning and a zero-width form.
use vstd::prelude::*;
use vstd::slice::{slice_subrange, slice_to_vec};

use crate::bytes::{
    append, position_from, BACKSLASH, BANG, BRACKET_CLOSE, BRACKET_OPEN, CARET, COLON, HASH,
    QUESTION, SLASH, SPACE, STAR,
};
use crate::literal::contents;
use crate::search::{find, occurs_at};

verus! {

/// How many backslashes `text` ends with.
pub open spec fn backslashes_at_end(text: Seq<u8>) -> nat
    decreases text.len(),
{
    if text.len() == 0 || text.last() != BACKSLASH {
        0
    } else {
        1 + backslashes_at_end(text.drop_last())
    }
}

/// `line` without the trailing spaces that are not escaped.
pub open spec fn without_trailing_spaces(line: Seq<u8>) -> Seq<u8>
    decreases line.len(),
{
    if line.len() == 0 || line.last() != SPACE || backslashes_at_end(line.drop_last()) % 2 == 1 {
        line
    } else {
        without_trailing_spaces(line.drop_last())
    }
}

/// The first `:]` at or after `from`.
pub open spec fn class_name_end(text: Seq<u8>, from: int) -> Option<int>
    decreases text.len() - from,
{
    if from + 1 >= text.len() {
        None
    } else if text[from] == COLON && text[from + 1] == BRACKET_CLOSE {
        Some(from)
    } else {
        class_name_end(text, from + 1)
    }
}

/// Whether a `[:` stands at `at`.
pub open spec fn class_name_opens(text: Seq<u8>, at: int) -> bool {
    text[at] == BRACKET_OPEN && at + 1 < text.len() && text[at + 1] == COLON
}

/// Whether the byte at `at` is there and negates the bracket class before it.
pub open spec fn negates(text: Seq<u8>, at: int) -> bool {
    at < text.len() && (text[at] == BANG || text[at] == CARET)
}

/// The first separator at or after `from` that stands in no bracket class.
///
/// `in_class` says whether `from` is inside a class, and `seen` whether that
/// class already has a member: a `]` in the first member position is literal.
pub open spec fn separator_from(body: Seq<u8>, from: int, in_class: bool, seen: bool) -> int
    decreases body.len() - from,
{
    if from >= body.len() {
        body.len() as int
    } else {
        let byte = body[from];
        if byte == BACKSLASH {
            if from + 2 >= body.len() {
                body.len() as int
            } else {
                separator_from(body, from + 2, in_class, in_class || seen)
            }
        } else if in_class && class_name_opens(body, from) {
            match class_name_end(body, from + 2) {
                Some(end) => if from < end < body.len() - 1 {
                    separator_from(body, end + 2, true, true)
                } else {
                    body.len() as int
                },
                None => separator_from(body, from + 1, true, true),
            }
        } else if byte == BRACKET_OPEN && !in_class {
            if negates(body, from + 1) {
                separator_from(body, from + 2, true, false)
            } else {
                separator_from(body, from + 1, true, false)
            }
        } else if byte == BRACKET_CLOSE && in_class {
            separator_from(body, from + 1, !seen, true)
        } else if byte == SLASH && !in_class {
            from
        } else {
            separator_from(body, from + 1, in_class, in_class || seen)
        }
    }
}

/// The components of a rule from `from` on: the parts between separators that
/// stand in no bracket class.
pub open spec fn rule_components(body: Seq<u8>, from: int) -> Seq<Seq<u8>>
    decreases body.len() - from,
{
    let at = separator_from(body, from, false, false);
    if at >= body.len() || at < from {
        seq![body.subrange(from, body.len() as int)]
    } else {
        seq![body.subrange(from, at)] + rule_components(body, at + 1)
    }
}

/// What a bracket class holds from `from` on, and where it closes.
///
/// The members come without the separators among them. `seen` says whether the
/// class already had a member.
pub open spec fn class_members(part: Seq<u8>, from: int, seen: bool) -> (Seq<u8>, Option<int>)
    decreases part.len() - from,
{
    if from >= part.len() {
        (Seq::empty(), None)
    } else {
        let byte = part[from];
        if byte == BACKSLASH && from + 1 < part.len() {
            let rest = class_members(part, from + 2, true);
            (part.subrange(from, from + 2) + rest.0, rest.1)
        } else if class_name_opens(part, from) {
            match class_name_end(part, from + 2) {
                Some(end) => if from < end < part.len() - 1 {
                    let rest = class_members(part, end + 2, true);
                    (part.subrange(from, end + 2) + rest.0, rest.1)
                } else {
                    (Seq::empty(), None)
                },
                None => {
                    let rest = class_members(part, from + 1, true);
                    (seq![byte] + rest.0, rest.1)
                },
            }
        } else if byte == BRACKET_CLOSE && seen {
            (Seq::empty(), Some(from))
        } else if byte == SLASH {
            class_members(part, from + 1, true)
        } else {
            let rest = class_members(part, from + 1, true);
            (seq![byte] + rest.0, rest.1)
        }
    }
}

/// `head` in front of `tail`, where there is a tail.
pub open spec fn in_front(head: Seq<u8>, tail: Option<Seq<u8>>) -> Option<Seq<u8>> {
    match tail {
        Some(bytes) => Some(head + bytes),
        None => None,
    }
}

/// The opening of the bracket class at `at`: the bracket and what negates it.
pub open spec fn class_opening(part: Seq<u8>, at: int) -> Seq<u8> {
    if negates(part, at + 1) {
        part.subrange(at, at + 2)
    } else {
        part.subrange(at, at + 1)
    }
}

/// The text of a component from `from` on without the separators inside its
/// bracket classes.
///
/// A class that held nothing else can match nothing, so it takes the whole
/// component with it; negated it can match anything, which is what `?` does.
pub open spec fn without_class_separators(part: Seq<u8>, from: int) -> Option<Seq<u8>>
    decreases part.len() - from,
{
    if from >= part.len() {
        Some(Seq::empty())
    } else {
        let byte = part[from];
        if byte == BACKSLASH && from + 1 < part.len() {
            in_front(part.subrange(from, from + 2), without_class_separators(part, from + 2))
        } else if byte == BRACKET_OPEN {
            let opening = class_opening(part, from);
            let (members, end) = class_members(part, from + opening.len(), false);
            match end {
                None => Some(opening + members),
                Some(close) => if close <= from || close >= part.len() {
                    None
                } else if members.len() > 0 {
                    in_front(
                        (opening + members).push(BRACKET_CLOSE),
                        without_class_separators(part, close + 1),
                    )
                } else if opening.len() == 2 {
                    in_front(seq![QUESTION], without_class_separators(part, close + 1))
                } else {
                    None
                },
            }
        } else {
            in_front(seq![byte], without_class_separators(part, from + 1))
        }
    }
}

/// Where the bracket class whose members start at `from` closes, or the length.
///
/// An escaped byte closes nothing, and a class name brings its own brackets, so
/// `[:x:]` is passed over whole.
pub open spec fn class_close(part: Seq<u8>, from: int) -> int
    decreases part.len() - from,
{
    if from >= part.len() {
        part.len() as int
    } else if part[from] == BACKSLASH && from + 1 < part.len() {
        class_close(part, from + 2)
    } else if part[from] == BRACKET_CLOSE {
        from
    } else if class_name_opens(part, from) {
        match class_name_end(part, from + 2) {
            Some(end) => if from < end < part.len() - 1 {
                class_close(part, end + 2)
            } else {
                part.len() as int
            },
            None => part.len() as int,
        }
    } else {
        class_close(part, from + 1)
    }
}

/// Where the members of the bracket class at `at` start once the byte that
/// negates it and a literal `]` in first position are passed over.
pub open spec fn class_scan_start(part: Seq<u8>, at: int) -> int {
    let after_negation = if negates(part, at + 1) {
        at + 2
    } else {
        at + 1
    };
    if after_negation < part.len() && part[after_negation] == BRACKET_CLOSE {
        after_negation + 1
    } else {
        after_negation
    }
}

/// Where the text behind the bracket class at `at` starts.
pub open spec fn after_class(part: Seq<u8>, at: int) -> int {
    let close = class_close(part, class_scan_start(part, at));
    if close < part.len() {
        close + 1
    } else {
        part.len() as int
    }
}

/// The runs of bytes a component matches literally, from `from` on, where
/// `current` is what the run that `from` continues holds so far.
///
/// An escaped byte counts as the byte it stands for, and a bracket class ends
/// a run.
pub open spec fn literal_runs(part: Seq<u8>, from: int, current: Seq<u8>) -> Seq<Seq<u8>>
    decreases part.len() - from,
{
    if from >= part.len() {
        seq![current]
    } else {
        let byte = part[from];
        if byte == BACKSLASH && from + 1 < part.len() {
            literal_runs(part, from + 2, current.push(part[from + 1]))
        } else if byte == STAR || byte == QUESTION {
            seq![current] + literal_runs(part, from + 1, Seq::empty())
        } else if byte == BRACKET_OPEN {
            if after_class(part, from) <= from {
                seq![current]
            } else {
                seq![current] + literal_runs(part, after_class(part, from), Seq::empty())
            }
        } else {
            literal_runs(part, from + 1, current.push(byte))
        }
    }
}

/// The first of the longest among `best` and `runs`.
pub open spec fn first_longest(best: Seq<u8>, runs: Seq<Seq<u8>>) -> Seq<u8>
    decreases runs.len(),
{
    if runs.len() == 0 {
        best
    } else {
        first_longest(
            if runs[0].len() > best.len() {
                runs[0]
            } else {
                best
            },
            runs.drop_first(),
        )
    }
}

/// The longest run of bytes a component matches literally; runs shorter than
/// two bytes are not worth a search.
pub open spec fn literal_run(part: Seq<u8>) -> Option<Seq<u8>> {
    let longest = first_longest(Seq::empty(), literal_runs(part, 0, Seq::empty()));
    if longest.len() >= 2 {
        Some(longest)
    } else {
        None
    }
}

/// Whether `part` is stars and nothing else.
pub open spec fn only_stars(part: Seq<u8>) -> bool {
    part.len() > 0 && forall|i: int| 0 <= i < part.len() ==> part[i] == STAR
}

/// Whether `part` is a whole-component run of two stars or more.
pub open spec fn is_whole_run(part: Seq<u8>) -> bool {
    only_stars(part) && part.len() >= 2
}

/// Whether `byte` makes a component more than literal text.
pub open spec fn is_wild(byte: u8) -> bool {
    byte == STAR || byte == QUESTION || byte == BRACKET_OPEN || byte == BACKSLASH
}

/// Whether `part` holds a byte that makes it more than literal text.
pub open spec fn has_wild(part: Seq<u8>) -> bool {
    exists|i: int| 0 <= i < part.len() && is_wild(#[trigger] part[i])
}

/// Where the stars `part` ends with start, looking at the first `until` bytes.
pub open spec fn final_stars(part: Seq<u8>, until: int) -> int
    decreases until,
{
    if until <= 0 || part[until - 1] != STAR {
        until
    } else {
        final_stars(part, until - 1)
    }
}

/// The text before a special suffix run: a final run of two stars or more,
/// with nothing but literal text in front of it.
pub open spec fn special_prefix(part: Seq<u8>) -> Option<Seq<u8>> {
    let start = final_stars(part, part.len() as int);
    if part.len() - start >= 2 && !has_wild(part.take(start)) {
        Some(part.take(start))
    } else {
        None
    }
}

/// The text of a component from `from` on with every run of stars made one
/// star. An escaped star is literal and not part of a run.
pub open spec fn collapsed(part: Seq<u8>, from: int) -> Seq<u8>
    decreases part.len() - from,
{
    if from >= part.len() {
        Seq::empty()
    } else if part[from] == BACKSLASH && from + 1 < part.len() {
        part.subrange(from, from + 2) + collapsed(part, from + 2)
    } else if part[from] == STAR && from + 1 < part.len() && part[from + 1] == STAR {
        collapsed(part, from + 1)
    } else {
        seq![part[from]] + collapsed(part, from + 1)
    }
}

/// One component of a rule.
pub ghost enum Part {
    /// Zero or more whole path components.
    AnyDirs,
    /// One component that matches this pattern text.
    Text(Seq<u8>),
}

/// What `part` becomes.
pub open spec fn part_of(part: Seq<u8>) -> Part {
    if is_whole_run(part) {
        Part::AnyDirs
    } else {
        Part::Text(collapsed(part, 0))
    }
}

/// `parts` with one more component. A run of directories that follows another
/// adds nothing.
pub open spec fn with_part(parts: Seq<Part>, part: Part) -> Seq<Part> {
    if part is AnyDirs && parts.len() > 0 && parts.last() is AnyDirs {
        parts
    } else {
        parts.push(part)
    }
}

/// What a rule starts with: a run of directories, unless it is anchored.
pub open spec fn start_of(anchored: bool) -> Seq<Part> {
    if anchored {
        Seq::empty()
    } else {
        seq![Part::AnyDirs]
    }
}

/// The directory-spanning form of the first `count` components of a rule.
pub open spec fn spanning_form(
    texts: Seq<Seq<u8>>,
    anchored: bool,
    star_run: Option<int>,
    count: int,
) -> Seq<Part>
    decreases count,
{
    if count <= 0 {
        start_of(anchored)
    } else {
        let parts = with_part(
            spanning_form(texts, anchored, star_run, count - 1),
            part_of(texts[count - 1]),
        );
        if star_run == Some(count - 1) {
            parts.push(Part::AnyDirs)
        } else {
            parts
        }
    }
}

/// The first component at or after `from` that is more than literal text.
pub open spec fn first_wild(texts: Seq<Seq<u8>>, from: int) -> int
    decreases texts.len() - from,
{
    if from >= texts.len() || has_wild(texts[from]) {
        from
    } else {
        first_wild(texts, from + 1)
    }
}

/// The component whose final stars span directories: the first that is more
/// than literal text, where it ends in a special run and something follows it
/// or the rule is anchored.
pub open spec fn star_run_of(texts: Seq<Seq<u8>>, anchored: bool) -> Option<int> {
    let at = first_wild(texts, 0);
    if at < texts.len() && (at + 1 < texts.len() || anchored) && !only_stars(texts[at])
        && special_prefix(texts[at]) is Some {
        Some(at)
    } else {
        None
    }
}

/// The first component at or after `from` that is no whole-component run.
pub open spec fn after_runs(texts: Seq<Seq<u8>>, from: int) -> int
    decreases texts.len() - from,
{
    if from >= texts.len() || !is_whole_run(texts[from]) {
        from
    } else {
        after_runs(texts, from + 1)
    }
}

/// Whether something has to follow a final run of directories: `abc/**` is
/// what is inside `abc`. A partial run that reaches the end is let off.
pub open spec fn needs_something_inside(texts: Seq<Seq<u8>>, star_run: Option<int>) -> bool {
    &&& texts.len() > 0
    &&& is_whole_run(texts.last())
    &&& match star_run {
        Some(at) => after_runs(texts, at + 1) < texts.len(),
        None => true,
    }
}

/// The text the component `at` takes in its zero-width form: its prefix, run
/// together with the component behind the runs that follow it.
pub open spec fn fused_text(texts: Seq<Seq<u8>>, at: int) -> Seq<u8> {
    let next = after_runs(texts, at + 1);
    let prefix = special_prefix(texts[at]).unwrap_or(Seq::empty());
    if next < texts.len() {
        prefix + texts[next]
    } else {
        prefix
    }
}

/// The zero-width form of the first `count` components of a rule whose star
/// run is at `at`.
pub open spec fn zero_form(texts: Seq<Seq<u8>>, anchored: bool, at: int, count: int) -> Seq<Part>
    decreases count,
{
    if count <= 0 {
        start_of(anchored)
    } else {
        let before = zero_form(texts, anchored, at, count - 1);
        if count - 1 == at {
            before.push(part_of(fused_text(texts, at)))
        } else if at < count - 1 <= after_runs(texts, at + 1) {
            before
        } else {
            with_part(before, part_of(texts[count - 1]))
        }
    }
}

/// The first of the longest literal runs of the first `count` components.
pub open spec fn gate_of(texts: Seq<Seq<u8>>, count: int) -> Option<Seq<u8>>
    decreases count,
{
    if count <= 0 {
        None
    } else {
        let best = gate_of(texts, count - 1);
        match literal_run(texts[count - 1]) {
            Some(run) => if best is None || best->0.len() < run.len() {
                Some(run)
            } else {
                best
            },
            None => best,
        }
    }
}

/// What a line of an ignore file says.
pub ghost struct Plan {
    /// The directory-spanning form.
    pub components: Seq<Part>,
    /// The form in which the one partial suffix run, and any whole runs next
    /// to it, take their zero-width form.
    pub zero: Option<Seq<Part>>,
    /// Bytes a candidate has to contain.
    pub gate: Option<Seq<u8>>,
    /// A match re-includes instead of ignoring.
    pub negated: bool,
    /// The rule matches directories only.
    pub directory_only: bool,
}

/// The plan of a rule made of the component texts `texts`.
pub open spec fn plan_of_texts(
    texts: Seq<Seq<u8>>,
    anchored: bool,
    case_insensitive: bool,
    negated: bool,
    directory_only: bool,
) -> Option<Plan> {
    let star_run = star_run_of(texts, anchored);
    let star = Part::Text(seq![STAR]);
    let inside = needs_something_inside(texts, star_run);
    let spanning = spanning_form(texts, anchored, star_run, texts.len() as int);
    let components = if inside {
        spanning.push(star)
    } else {
        spanning
    };
    if components.len() == start_of(anchored).len() {
        None
    } else {
        Some(
            Plan {
                components,
                zero: match star_run {
                    None => None,
                    Some(at) => {
                        let zero = zero_form(texts, anchored, at, texts.len() as int);
                        if inside && after_runs(texts, at + 1) < texts.len() - 1 {
                            Some(zero.push(star))
                        } else {
                            Some(zero)
                        }
                    },
                },
                // The search for it is byte-exact, so it would reject a
                // candidate that only matches with its case folded.
                gate: if case_insensitive {
                    None
                } else {
                    gate_of(texts, texts.len() as int)
                },
                negated,
                directory_only,
            },
        )
    }
}

/// Whether any of `parts` is empty.
pub open spec fn has_empty(parts: Seq<Seq<u8>>) -> bool {
    exists|i: int| 0 <= i < parts.len() && (#[trigger] parts[i]).len() == 0
}

/// Whether some component cannot be matched by anything.
pub open spec fn has_unmatchable(parts: Seq<Seq<u8>>) -> bool {
    exists|i: int|
        0 <= i < parts.len() && without_class_separators(#[trigger] parts[i], 0) is None
}

/// The components' texts without the separators inside bracket classes.
pub open spec fn component_texts(parts: Seq<Seq<u8>>) -> Seq<Seq<u8>> {
    Seq::new(parts.len(), |i: int| without_class_separators(parts[i], 0)->0)
}

/// The plan of a rule body: the line without its negation and its final
/// separator.
pub open spec fn plan_of_body(
    body: Seq<u8>,
    case_insensitive: bool,
    negated: bool,
    directory_only: bool,
) -> Option<Plan> {
    // Anchoring is decided by a plain search, even where the separator is a
    // dead member of a bracket class.
    let anchored = body.contains(SLASH);
    let relative = if body.len() > 0 && body[0] == SLASH {
        body.skip(1)
    } else {
        body
    };
    let parts = rule_components(relative, 0);
    if relative.len() == 0 || has_empty(parts) || has_unmatchable(parts) {
        None
    } else {
        plan_of_texts(component_texts(parts), anchored, case_insensitive, negated, directory_only)
    }
}

/// What a line of an ignore file says, or nothing where it is no rule.
pub open spec fn plan_of_line(line: Seq<u8>, case_insensitive: bool) -> Option<Plan> {
    let trimmed = without_trailing_spaces(line);
    if line.len() == 0 || line[0] == HASH || trimmed.len() == 0 {
        None
    } else {
        let negated = trimmed[0] == BANG;
        let body = if negated {
            trimmed.skip(1)
        } else {
            trimmed
        };
        // An unpaired backslash at the end escapes nothing and the rule
        // matches nothing.
        if backslashes_at_end(body) % 2 == 1 {
            None
        } else {
            let directory_only = body.len() > 0 && body.last() == SLASH;
            plan_of_body(
                if directory_only {
                    body.drop_last()
                } else {
                    body
                },
                case_insensitive,
                negated,
                directory_only,
            )
        }
    }
}

/// [`class_name_end`] is the first place at which `:]` stands.
pub(crate) proof fn lemma_class_name_end(text: Seq<u8>, from: int)
    requires
        0 <= from <= text.len(),
    ensures
        match class_name_end(text, from) {
            Some(end) => from <= end < text.len() - 1 && text[end] == COLON && text[end + 1]
                == BRACKET_CLOSE && forall|i: int|
                from <= i < end ==> !(text[i] == COLON && #[trigger] text[i + 1] == BRACKET_CLOSE),
            None => forall|i: int|
                from <= i < text.len() - 1 ==> !(text[i] == COLON && #[trigger] text[i + 1]
                    == BRACKET_CLOSE),
        },
    decreases text.len() - from,
{
    if from + 1 < text.len() && !(text[from] == COLON && text[from + 1] == BRACKET_CLOSE) {
        lemma_class_name_end(text, from + 1);
        match class_name_end(text, from + 1) {
            Some(end) => {
                assert forall|i: int| from <= i < end implies !(text[i] == COLON && #[trigger] text[i
                    + 1] == BRACKET_CLOSE) by {
                    if i > from {
                        assert(!(text[i] == COLON && text[i + 1] == BRACKET_CLOSE));
                    }
                }
            },
            None => {
                assert forall|i: int| from <= i < text.len() - 1 implies !(text[i] == COLON
                    && #[trigger] text[i + 1] == BRACKET_CLOSE) by {
                    if i > from {
                        assert(!(text[i] == COLON && text[i + 1] == BRACKET_CLOSE));
                    }
                }
            },
        }
    }
}

/// The first `:]` at or after `from`.
fn find_class_name_end(text: &[u8], from: usize) -> (result: Option<usize>)
    requires
        from <= text@.len(),
    ensures
        match result {
            Some(end) => class_name_end(text@, from as int) == Some(end as int) && from <= end
                && end + 1 < text@.len(),
            None => class_name_end(text@, from as int) is None,
        },
{
    let mut needle: Vec<u8> = Vec::new();
    needle.push(COLON);
    needle.push(BRACKET_CLOSE);
    let rest = slice_subrange(text, from, text.len());
    let found = find(rest, needle.as_slice());
    proof {
        lemma_class_name_end(text@, from as int);
        assert forall|at: int| 0 <= at < text@.len() - from - 1 && text@[from + at] == COLON && text@[
        from + at + 1] == BRACKET_CLOSE implies #[trigger] occurs_at(rest@, needle@, at) by {
            assert(rest@.subrange(at, at + 2) =~= needle@);
        }
        match found {
            Some(at) => {
                assert(rest@.subrange(at as int, at + 2)[0] == needle@[0]);
                assert(rest@.subrange(at as int, at + 2)[1] == needle@[1]);
                let end = from + at;
                assert(text@[end] == COLON && text@[end + 1] == BRACKET_CLOSE);
                match class_name_end(text@, from as int) {
                    Some(other) => {
                        if other < end {
                            assert(occurs_at(rest@, needle@, other - from));
                        }
                    },
                    None => {},
                }
            },
            None => {
                match class_name_end(text@, from as int) {
                    Some(other) => {
                        assert(occurs_at(rest@, needle@, other - from));
                    },
                    None => {},
                }
            },
        }
    }
    match found {
        Some(at) => Some(from + at),
        None => None,
    }
}

/// How many backslashes `text` ends with.
fn trailing_backslashes(text: &[u8]) -> (result: usize)
    ensures
        result == backslashes_at_end(text@),
{
    let mut end: usize = text.len();
    let mut count: usize = 0;
    assert(text@.take(text@.len() as int) =~= text@);
    while end > 0 && text[end - 1] == BACKSLASH
        invariant
            end <= text@.len(),
            count == text@.len() - end,
            backslashes_at_end(text@) == count + backslashes_at_end(text@.take(end as int)),
        decreases end,
    {
        assert(text@.take(end as int).drop_last() =~= text@.take(end - 1));
        end -= 1;
        count += 1;
    }
    count
}

/// Drops the trailing spaces that are not escaped.
fn strip_trailing_spaces(line: &[u8]) -> (result: &[u8])
    ensures
        result@ == without_trailing_spaces(line@),
{
    let mut end: usize = line.len();
    assert(line@.take(line@.len() as int) =~= line@);
    while end > 0 && line[end - 1] == SPACE
        invariant
            end <= line@.len(),
            without_trailing_spaces(line@) == without_trailing_spaces(line@.take(end as int)),
        ensures
            end <= line@.len(),
            without_trailing_spaces(line@) == line@.take(end as int),
        decreases end,
    {
        let before = slice_subrange(line, 0, end - 1);
        assert(line@.take(end as int).drop_last() =~= before@);
        assert(line@.take(end - 1) =~= before@);
        if trailing_backslashes(before) % 2 == 1 {
            break;
        }
        end -= 1;
    }
    assert(line@.subrange(0, end as int) =~= line@.take(end as int));
    slice_subrange(line, 0, end)
}

/// Splits a rule on path separators, keeping a slash inside a bracket class in
/// its component.
fn split_rule_components(body: &[u8]) -> (result: Vec<Vec<u8>>)
    ensures
        contents(result@) == rule_components(body@, 0),
{
    let mut parts: Vec<Vec<u8>> = Vec::new();
    let mut start: usize = 0;
    let mut index: usize = 0;
    let mut in_class = false;
    let mut seen = false;
    assert(contents(parts@) + rule_components(body@, 0) =~= rule_components(
        body@,
        0,
    ));
    while index < body.len()
        invariant
            start <= index <= body@.len(),
            separator_from(body@, start as int, false, false) == separator_from(
                body@,
                index as int,
                in_class,
                seen,
            ),
            contents(parts@) + rule_components(body@, start as int)
                == rule_components(body@, 0),
        decreases body@.len() - index,
    {
        let byte: u8 = body[index];
        if byte == BACKSLASH {
            if in_class {
                seen = true;
            }
            if body.len() - index <= 2 {
                index = body.len();
            } else {
                index += 2;
            }
        } else if in_class && byte == BRACKET_OPEN && index + 1 < body.len() && body[index + 1]
            == COLON {
            seen = true;
            match find_class_name_end(body, index + 2) {
                Some(end) => {
                    index = end + 2;
                },
                None => {
                    index += 1;
                },
            }
        } else if byte == BRACKET_OPEN && !in_class {
            in_class = true;
            seen = false;
            index += 1;
            if index < body.len() && (body[index] == BANG || body[index] == CARET) {
                index += 1;
            }
        } else if byte == BRACKET_CLOSE && in_class {
            // The first `]` after `[` or `[!` is a literal member; only a
            // later one closes the class.
            if seen {
                in_class = false;
            }
            seen = true;
            index += 1;
        } else if byte == SLASH && !in_class {
            let part = slice_to_vec(slice_subrange(body, start, index));
            let ghost before = contents(parts@);
            parts.push(part);
            assert(contents(parts@) =~= before.push(part@));
            assert(before + (seq![part@] + rule_components(body@, index + 1)) =~= before.push(part@)
                + rule_components(body@, index + 1));
            start = index + 1;
            index += 1;
            seen = false;
        } else {
            if in_class {
                seen = true;
            }
            index += 1;
        }
    }
    let part = slice_to_vec(slice_subrange(body, start, body.len()));
    let ghost before = contents(parts@);
    parts.push(part);
    assert(contents(parts@) =~= before + seq![part@]);
    parts
}

/// Drops the separators a bracket class holds.
///
/// Candidate components never contain a separator, so one inside a class
/// cannot affect matching; the pattern compiler would take it for a separator.
fn strip_bracket_separators(part: &[u8]) -> (result: Option<Vec<u8>>)
    ensures
        match result {
            Some(text) => without_class_separators(part@, 0) == Some(text@),
            None => without_class_separators(part@, 0) is None,
        },
{
    let mut text: Vec<u8> = Vec::new();
    let mut index: usize = 0;
    assert(in_front(text@, without_class_separators(part@, 0)) == without_class_separators(
        part@,
        0,
    )) by {
        match without_class_separators(part@, 0) {
            Some(bytes) => assert(Seq::<u8>::empty() + bytes =~= bytes),
            None => {},
        }
    }
    while index < part.len()
        invariant
            index <= part@.len(),
            in_front(text@, without_class_separators(part@, index as int))
                == without_class_separators(part@, 0),
        decreases part@.len() - index,
    {
        let byte: u8 = part[index];
        let ghost done = text@;
        let ghost from = index as int;
        if byte == BACKSLASH && index + 1 < part.len() {
            append(&mut text, slice_subrange(part, index, index + 2));
            index += 2;
            proof {
                lemma_in_front(
                    done,
                    part@.subrange(from, from + 2),
                    without_class_separators(part@, from + 2),
                );
            }
        } else if byte == BRACKET_OPEN {
            let negated = index + 1 < part.len() && (part[index + 1] == BANG || part[index + 1]
                == CARET);
            let opening_length: usize = if negated {
                2
            } else {
                1
            };
            let opening = slice_subrange(part, index, index + opening_length);
            assert(opening@ == class_opening(part@, from));
            let (members, end) = read_class(part, index + opening_length);
            match end {
                None => {
                    append(&mut text, opening);
                    append(&mut text, members.as_slice());
                    assert(done + opening@ + members@ =~= done + (opening@ + members@));
                    return Some(text);
                },
                Some(close) => {
                    if members.len() > 0 {
                        append(&mut text, opening);
                        append(&mut text, members.as_slice());
                        text.push(BRACKET_CLOSE);
                        proof {
                            let class = (opening@ + members@).push(BRACKET_CLOSE);
                            assert(text@ =~= done + class);
                            lemma_in_front(
                                done,
                                class,
                                without_class_separators(part@, close + 1),
                            );
                        }
                    } else if negated {
                        text.push(QUESTION);
                        proof {
                            assert(text@ =~= done + seq![QUESTION]);
                            lemma_in_front(
                                done,
                                seq![QUESTION],
                                without_class_separators(part@, close + 1),
                            );
                        }
                    } else {
                        return None;
                    }
                    index = close + 1;
                },
            }
        } else {
            text.push(byte);
            index += 1;
            proof {
                assert(text@ =~= done + seq![byte]);
                lemma_in_front(done, seq![byte], without_class_separators(part@, from + 1));
            }
        }
    }
    assert(text@ + Seq::<u8>::empty() =~= text@);
    Some(text)
}

proof fn lemma_in_front(first: Seq<u8>, second: Seq<u8>, tail: Option<Seq<u8>>)
    ensures
        in_front(first, in_front(second, tail)) == in_front(first + second, tail),
{
    match tail {
        Some(bytes) => assert(first + (second + bytes) =~= first + second + bytes),
        None => {},
    }
}

/// Reads a bracket class whose members start at `start`: the members without
/// the separators among them, and where the class closes.
fn read_class(part: &[u8], start: usize) -> (result: (Vec<u8>, Option<usize>))
    requires
        start <= part@.len(),
    ensures
        result.0@ == class_members(part@, start as int, false).0,
        match result.1 {
            Some(close) => class_members(part@, start as int, false).1 == Some(close as int)
                && start <= close < part@.len(),
            None => class_members(part@, start as int, false).1 is None,
        },
{
    let mut members: Vec<u8> = Vec::new();
    let mut index: usize = start;
    let mut seen = false;
    let ghost whole = class_members(part@, start as int, false);
    assert(members@ + whole.0 =~= whole.0);
    while index < part.len()
        invariant
            start <= index <= part@.len(),
            whole == class_members(part@, start as int, false),
            members@ + class_members(part@, index as int, seen).0 == whole.0,
            class_members(part@, index as int, seen).1 == whole.1,
        decreases part@.len() - index,
    {
        let byte: u8 = part[index];
        let ghost done = members@;
        let ghost from = index as int;
        if byte == BACKSLASH && index + 1 < part.len() {
            append(&mut members, slice_subrange(part, index, index + 2));
            seen = true;
            index += 2;
            assert(done + (part@.subrange(from, from + 2) + class_members(part@, from + 2, true).0)
                =~= members@ + class_members(part@, from + 2, true).0);
        } else if byte == BRACKET_OPEN && index + 1 < part.len() && part[index + 1] == COLON {
            seen = true;
            match find_class_name_end(part, index + 2) {
                Some(end) => {
                    append(&mut members, slice_subrange(part, index, end + 2));
                    index = end + 2;
                    assert(done + (part@.subrange(from, end + 2) + class_members(
                        part@,
                        end + 2,
                        true,
                    ).0) =~= members@ + class_members(part@, end + 2, true).0);
                },
                None => {
                    members.push(byte);
                    index += 1;
                    assert(done + (seq![byte] + class_members(part@, from + 1, true).0)
                        =~= members@ + class_members(part@, from + 1, true).0);
                },
            }
        } else if byte == BRACKET_CLOSE && seen {
            assert(members@ + Seq::<u8>::empty() =~= members@);
            return (members, Some(index));
        } else if byte == SLASH {
            seen = true;
            index += 1;
        } else {
            members.push(byte);
            seen = true;
            index += 1;
            assert(done + (seq![byte] + class_members(part@, from + 1, true).0) =~= members@
                + class_members(part@, from + 1, true).0);
        }
    }
    assert(members@ + Seq::<u8>::empty() =~= members@);
    (members, None)
}

/// Where the text behind the bracket class at `at` starts.
fn skip_class(part: &[u8], at: usize) -> (result: usize)
    requires
        at < part@.len(),
    ensures
        result == after_class(part@, at as int),
        at < result <= part@.len(),
{
    assert(part.len() == part@.len());
    let mut scan: usize = at + 1;
    if scan < part.len() && (part[scan] == BANG || part[scan] == CARET) {
        scan += 1;
    }
    if scan < part.len() && part[scan] == BRACKET_CLOSE {
        scan += 1;
    }
    let ghost start = scan as int;
    while scan < part.len() && part[scan] != BRACKET_CLOSE
        invariant
            at < start <= scan <= part@.len(),
            start == class_scan_start(part@, at as int),
            class_close(part@, start) == class_close(part@, scan as int),
        decreases part@.len() - scan,
    {
        if part[scan] == BACKSLASH && scan + 1 < part.len() {
            scan += 2;
        } else if part[scan] == BRACKET_OPEN && scan + 1 < part.len() && part[scan + 1] == COLON {
            match find_class_name_end(part, scan + 2) {
                Some(end) => {
                    scan = end + 2;
                },
                None => {
                    scan = part.len();
                },
            }
        } else {
            scan += 1;
        }
    }
    if scan < part.len() {
        scan + 1
    } else {
        part.len()
    }
}

/// The longest run of bytes one component matches literally.
fn longest_literal_run(part: &[u8]) -> (result: Option<Vec<u8>>)
    ensures
        match result {
            Some(run) => literal_run(part@) == Some(run@),
            None => literal_run(part@) is None,
        },
{
    let mut longest: Vec<u8> = Vec::new();
    let mut current: Vec<u8> = Vec::new();
    let mut index: usize = 0;
    let ghost answer = first_longest(Seq::empty(), literal_runs(part@, 0, Seq::empty()));
    while index < part.len()
        invariant
            index <= part@.len(),
            answer == first_longest(Seq::empty(), literal_runs(part@, 0, Seq::empty())),
            answer == first_longest(longest@, literal_runs(part@, index as int, current@)),
        decreases part@.len() - index,
    {
        let byte: u8 = part[index];
        if byte == BACKSLASH && index + 1 < part.len() {
            current.push(part[index + 1]);
            index += 2;
        } else if byte == STAR || byte == QUESTION || byte == BRACKET_OPEN {
            let next: usize = if byte == BRACKET_OPEN {
                skip_class(part, index)
            } else {
                index + 1
            };
            proof {
                let rest = literal_runs(part@, next as int, Seq::empty());
                let all = seq![current@] + rest;
                assert(literal_runs(part@, index as int, current@) == all);
                assert(all[0] == current@);
                assert(all.drop_first() =~= rest);
            }
            if current.len() > longest.len() {
                longest = current;
            }
            current = Vec::new();
            index = next;
        } else {
            current.push(byte);
            index += 1;
        }
    }
    proof {
        let all = seq![current@];
        assert(all.drop_first() =~= Seq::<Seq<u8>>::empty());
        assert(first_longest(
            if current@.len() > longest@.len() {
                current@
            } else {
                longest@
            },
            all.drop_first(),
        ) == first_longest(longest@, all));
    }
    if current.len() > longest.len() {
        longest = current;
    }
    if longest.len() >= 2 {
        Some(longest)
    } else {
        None
    }
}

/// Whether `part` is stars and nothing else.
fn all_stars(part: &[u8]) -> (result: bool)
    ensures
        result == only_stars(part@),
{
    if part.len() == 0 {
        return false;
    }
    let mut i: usize = 0;
    while i < part.len()
        invariant
            i <= part@.len(),
            forall|j: int| 0 <= j < i ==> part@[j] == STAR,
        decreases part@.len() - i,
    {
        if part[i] != STAR {
            return false;
        }
        i += 1;
    }
    true
}

/// Whether `part` is a whole-component run of two stars or more.
fn whole_run(part: &[u8]) -> (result: bool)
    ensures
        result == is_whole_run(part@),
{
    part.len() >= 2 && all_stars(part)
}

/// Whether `part` holds a byte that makes it more than literal text.
fn contains_wild(part: &[u8]) -> (result: bool)
    ensures
        result == has_wild(part@),
{
    let mut i: usize = 0;
    while i < part.len()
        invariant
            i <= part@.len(),
            forall|j: int| 0 <= j < i ==> !is_wild(#[trigger] part@[j]),
        decreases part@.len() - i,
    {
        let byte: u8 = part[i];
        if byte == STAR || byte == QUESTION || byte == BRACKET_OPEN || byte == BACKSLASH {
            assert(is_wild(part@[i as int]));
            return true;
        }
        i += 1;
    }
    false
}

/// Prefix before a special suffix star run.
///
/// A wildcard, class or escape before the final run makes the run an ordinary
/// star rather than a directory-spanning spelling.
fn special_suffix_prefix(part: &[u8]) -> (result: Option<&[u8]>)
    ensures
        match result {
            Some(prefix) => special_prefix(part@) == Some(prefix@),
            None => special_prefix(part@) is None,
        },
{
    let mut start: usize = part.len();
    while start > 0 && part[start - 1] == STAR
        invariant
            start <= part@.len(),
            final_stars(part@, part@.len() as int) == final_stars(part@, start as int),
        decreases start,
    {
        start -= 1;
    }
    let prefix = slice_subrange(part, 0, start);
    assert(prefix@ =~= part@.take(start as int));
    if part.len() - start >= 2 && !contains_wild(prefix) {
        Some(prefix)
    } else {
        None
    }
}

/// Collapses every run of asterisks into a single star.
///
/// An ordinary star never crosses a separator, so a run is worth one. An
/// escaped asterisk is literal and not part of a run.
fn collapse_partial_stars(part: &[u8]) -> (result: Vec<u8>)
    ensures
        result@ == collapsed(part@, 0),
{
    let mut text: Vec<u8> = Vec::new();
    let mut index: usize = 0;
    assert(text@ + collapsed(part@, 0) =~= collapsed(part@, 0));
    while index < part.len()
        invariant
            index <= part@.len(),
            text@ + collapsed(part@, index as int) == collapsed(part@, 0),
        decreases part@.len() - index,
    {
        let byte: u8 = part[index];
        let ghost done = text@;
        let ghost from = index as int;
        if byte == BACKSLASH && index + 1 < part.len() {
            append(&mut text, slice_subrange(part, index, index + 2));
            index += 2;
            assert(done + (part@.subrange(from, from + 2) + collapsed(part@, from + 2)) =~= text@
                + collapsed(part@, from + 2));
        } else if byte == STAR && index + 1 < part.len() && part[index + 1] == STAR {
            index += 1;
        } else {
            text.push(byte);
            index += 1;
            assert(done + (seq![byte] + collapsed(part@, from + 1)) =~= text@ + collapsed(
                part@,
                from + 1,
            ));
        }
    }
    assert(text@ + Seq::<u8>::empty() =~= text@);
    text
}

/// One component of a planned rule.
#[derive(Debug)]
pub enum RulePart {
    /// A `**` component: zero or more whole path components.
    AnyDirs,
    /// One component, matched by the pattern with this text.
    Text(Vec<u8>),
}

impl View for RulePart {
    type V = Part;

    open spec fn view(&self) -> Part {
        match self {
            RulePart::AnyDirs => Part::AnyDirs,
            RulePart::Text(text) => Part::Text(text@),
        }
    }
}

/// The components of a planned rule.
pub open spec fn parts_of(parts: Seq<RulePart>) -> Seq<Part> {
    Seq::new(parts.len(), |i: int| parts[i]@)
}

/// What one line of an ignore file asks for, before its patterns are compiled.
#[derive(Debug)]
pub struct RulePlan {
    /// The directory-spanning form of the rule.
    pub components: Vec<RulePart>,
    /// The form in which the one partial suffix run, and any whole runs next
    /// to it, take their zero-width form.
    pub zero: Option<Vec<RulePart>>,
    /// The longest run of literal bytes the rule requires.
    pub gate: Option<Vec<u8>>,
    /// `!` prefix: a match re-includes instead of ignoring.
    pub negated: bool,
    /// Trailing `/`: the rule matches directories only.
    pub directory_only: bool,
}

impl View for RulePlan {
    type V = Plan;

    open spec fn view(&self) -> Plan {
        Plan {
            components: parts_of(self.components@),
            zero: match self.zero {
                Some(parts) => Some(parts_of(parts@)),
                None => None,
            },
            gate: match self.gate {
                Some(run) => Some(run@),
                None => None,
            },
            negated: self.negated,
            directory_only: self.directory_only,
        }
    }
}

/// What `part` becomes.
fn plan_component(part: &[u8]) -> (result: RulePart)
    ensures
        result@ == part_of(part@),
{
    if whole_run(part) {
        RulePart::AnyDirs
    } else {
        RulePart::Text(collapse_partial_stars(part))
    }
}

fn push_part(parts: &mut Vec<RulePart>, part: RulePart)
    ensures
        parts_of(final(parts)@) == parts_of(old(parts)@).push(part@),
{
    let ghost before = parts_of(parts@);
    parts.push(part);
    assert(parts_of(parts@) =~= before.push(part@));
}

/// Appends a component, unless it is a run of directories behind another.
fn add_part(parts: &mut Vec<RulePart>, part: RulePart)
    ensures
        parts_of(final(parts)@) == with_part(parts_of(old(parts)@), part@),
{
    let repeats = match part {
        RulePart::AnyDirs => parts.len() > 0 && matches!(parts[parts.len() - 1], RulePart::AnyDirs),
        RulePart::Text(_) => false,
    };
    assert(parts@.len() > 0 ==> parts_of(parts@).last() == parts@.last()@);
    if !repeats {
        push_part(parts, part);
    }
}

fn start_parts(anchored: bool) -> (result: Vec<RulePart>)
    ensures
        parts_of(result@) == start_of(anchored),
{
    let mut parts: Vec<RulePart> = Vec::new();
    assert(parts_of(parts@) =~= Seq::<Part>::empty());
    if !anchored {
        push_part(&mut parts, RulePart::AnyDirs);
        assert(parts_of(parts@) =~= start_of(anchored));
    }
    parts
}

fn star_part() -> (result: RulePart)
    ensures
        result@ == Part::Text(seq![STAR]),
{
    let mut text: Vec<u8> = Vec::new();
    text.push(STAR);
    assert(text@ =~= seq![STAR]);
    RulePart::Text(text)
}

/// The component whose final stars span directories, if there is one.
fn find_star_run(texts: &Vec<Vec<u8>>, anchored: bool) -> (result: Option<usize>)
    ensures
        match result {
            Some(at) => star_run_of(contents(texts@), anchored) == Some(at as int)
                && at < texts@.len(),
            None => star_run_of(contents(texts@), anchored) is None,
        },
{
    let ghost all = contents(texts@);
    let mut at: usize = 0;
    while at < texts.len() && !contains_wild(texts[at].as_slice())
        invariant
            at <= texts@.len(),
            all == contents(texts@),
            first_wild(all, 0) == first_wild(all, at as int),
        decreases texts@.len() - at,
    {
        assert(all[at as int] == texts@[at as int]@);
        at += 1;
    }
    if at >= texts.len() {
        return None;
    }
    let part = texts[at].as_slice();
    assert(all[at as int] == part@);
    if (at + 1 < texts.len() || anchored) && !all_stars(part) && special_suffix_prefix(
        part,
    ).is_some() {
        Some(at)
    } else {
        None
    }
}

/// The first component at or after `from` that is no whole-component run.
fn skip_runs(texts: &Vec<Vec<u8>>, from: usize) -> (result: usize)
    requires
        from <= texts@.len(),
    ensures
        result == after_runs(contents(texts@), from as int),
        from <= result <= texts@.len(),
{
    let ghost all = contents(texts@);
    let mut at: usize = from;
    while at < texts.len() && whole_run(texts[at].as_slice())
        invariant
            from <= at <= texts@.len(),
            all == contents(texts@),
            after_runs(all, from as int) == after_runs(all, at as int),
        decreases texts@.len() - at,
    {
        assert(all[at as int] == texts@[at as int]@);
        at += 1;
    }
    assert(at < texts@.len() ==> all[at as int] == texts@[at as int]@);
    at
}

/// The first of the longest literal runs of all components.
fn find_gate(texts: &Vec<Vec<u8>>) -> (result: Option<Vec<u8>>)
    ensures
        match result {
            Some(run) => gate_of(contents(texts@), texts@.len() as int) == Some(
                run@,
            ),
            None => gate_of(contents(texts@), texts@.len() as int) is None,
        },
{
    let ghost all = contents(texts@);
    let mut gate: Option<Vec<u8>> = None;
    let mut i: usize = 0;
    while i < texts.len()
        invariant
            i <= texts@.len(),
            all == contents(texts@),
            match gate {
                Some(run) => gate_of(all, i as int) == Some(run@),
                None => gate_of(all, i as int) is None,
            },
        decreases texts@.len() - i,
    {
        assert(all[i as int] == texts@[i as int]@);
        if let Some(run) = longest_literal_run(texts[i].as_slice()) {
            let better = match &gate {
                Some(best) => best.len() < run.len(),
                None => true,
            };
            if better {
                gate = Some(run);
            }
        }
        i += 1;
    }
    gate
}

/// The directory-spanning form of a rule.
fn plan_spanning(texts: &Vec<Vec<u8>>, anchored: bool, star_run: Option<usize>) -> (result: Vec<
    RulePart,
>)
    ensures
        parts_of(result@) == spanning_form(
            contents(texts@),
            anchored,
            match star_run {
                Some(at) => Some(at as int),
                None => None,
            },
            texts@.len() as int,
        ),
{
    let ghost all = contents(texts@);
    let ghost run: Option<int> = match star_run {
        Some(at) => Some(at as int),
        None => None,
    };
    let mut parts = start_parts(anchored);
    let mut i: usize = 0;
    while i < texts.len()
        invariant
            i <= texts@.len(),
            all == contents(texts@),
            run == (match star_run {
                Some(at) => Some(at as int),
                None => None::<int>,
            }),
            parts_of(parts@) == spanning_form(all, anchored, run, i as int),
        decreases texts@.len() - i,
    {
        assert(all[i as int] == texts@[i as int]@);
        add_part(&mut parts, plan_component(texts[i].as_slice()));
        let here = match star_run {
            Some(at) => at == i,
            None => false,
        };
        if here {
            push_part(&mut parts, RulePart::AnyDirs);
        }
        i += 1;
    }
    parts
}

/// The zero-width form of a rule whose star run is at `at`.
fn plan_zero(texts: &Vec<Vec<u8>>, anchored: bool, at: usize) -> (result: Vec<RulePart>)
    requires
        at < texts@.len(),
        special_prefix(texts@[at as int]@) is Some,
    ensures
        parts_of(result@) == zero_form(
            contents(texts@),
            anchored,
            at as int,
            texts@.len() as int,
        ),
{
    let ghost all = contents(texts@);
    assert(all[at as int] == texts@[at as int]@);
    assert(at < texts.len());
    let next = skip_runs(texts, at + 1);
    let mut fused: Vec<u8> = Vec::new();
    if let Some(prefix) = special_suffix_prefix(texts[at].as_slice()) {
        append(&mut fused, prefix);
        assert(fused@ =~= prefix@);
    }
    if next < texts.len() {
        append(&mut fused, texts[next].as_slice());
        assert(all[next as int] == texts@[next as int]@);
    }
    assert(fused@ == fused_text(all, at as int));
    let mut parts = start_parts(anchored);
    let mut i: usize = 0;
    while i < texts.len()
        invariant
            i <= texts@.len(),
            at < texts@.len(),
            all == contents(texts@),
            next == after_runs(all, at + 1),
            fused@ == fused_text(all, at as int),
            parts_of(parts@) == zero_form(all, anchored, at as int, i as int),
        decreases texts@.len() - i,
    {
        assert(all[i as int] == texts@[i as int]@);
        if i == at {
            push_part(&mut parts, plan_component(fused.as_slice()));
        } else if at < i && i <= next {
        } else {
            add_part(&mut parts, plan_component(texts[i].as_slice()));
        }
        i += 1;
    }
    parts
}

/// Plans a rule made of the component texts `texts`.
fn plan_texts(
    texts: &Vec<Vec<u8>>,
    anchored: bool,
    case_insensitive: bool,
    negated: bool,
    directory_only: bool,
) -> (result: Option<RulePlan>)
    ensures
        match result {
            Some(plan) => plan_of_texts(
                contents(texts@),
                anchored,
                case_insensitive,
                negated,
                directory_only,
            ) == Some(plan@),
            None => plan_of_texts(
                contents(texts@),
                anchored,
                case_insensitive,
                negated,
                directory_only,
            ) is None,
        },
{
    let ghost all = contents(texts@);
    let star_run = find_star_run(texts, anchored);
    assert(star_run is Some ==> all[star_run->0 as int] == texts@[star_run->0 as int]@);
    assert(star_run is Some ==> star_run->0 < texts.len());
    let after: usize = match star_run {
        Some(at) => skip_runs(texts, at + 1),
        None => 0,
    };
    assert(texts@.len() > 0 ==> all.last() == texts@.last()@);
    let inside = texts.len() > 0 && whole_run(texts[texts.len() - 1].as_slice()) && (
    star_run.is_none() || after < texts.len());
    let mut components = plan_spanning(texts, anchored, star_run);
    if inside {
        push_part(&mut components, star_part());
    }
    let start_length: usize = if anchored {
        0
    } else {
        1
    };
    assert(parts_of(components@).len() == components@.len());
    if components.len() == start_length {
        return None;
    }
    let zero = match star_run {
        None => None,
        Some(at) => {
            let mut zero = plan_zero(texts, anchored, at);
            if inside && after < texts.len() - 1 {
                push_part(&mut zero, star_part());
            }
            Some(zero)
        },
    };
    let gate = if case_insensitive {
        None
    } else {
        find_gate(texts)
    };
    Some(RulePlan { components, zero, gate, negated, directory_only })
}

/// Plans a rule from its body.
fn plan_body(body: &[u8], case_insensitive: bool, negated: bool, directory_only: bool) -> (result:
    Option<RulePlan>)
    ensures
        match result {
            Some(plan) => plan_of_body(body@, case_insensitive, negated, directory_only) == Some(
                plan@,
            ),
            None => plan_of_body(body@, case_insensitive, negated, directory_only) is None,
        },
{
    let separator = position_from(body, SLASH, 0);
    let anchored = separator < body.len();
    assert(anchored == body@.contains(SLASH)) by {
        if anchored {
            assert(body@[separator as int] == SLASH);
        }
    }
    let start: usize = if body.len() > 0 && body[0] == SLASH {
        1
    } else {
        0
    };
    let relative = slice_subrange(body, start, body.len());
    assert(start == 1 ==> relative@ =~= body@.skip(1));
    assert(start == 0 ==> relative@ =~= body@);
    if relative.len() == 0 {
        return None;
    }
    let parts = split_rule_components(relative);
    let ghost all = contents(parts@);
    let mut texts: Vec<Vec<u8>> = Vec::new();
    let mut i: usize = 0;
    while i < parts.len()
        invariant
            i <= parts@.len(),
            all == contents(parts@),
            all == rule_components(relative@, 0),
            texts@.len() == i,
            relative@.len() > 0,
            relative@ == (if body@.len() > 0 && body@[0] == SLASH {
                body@.skip(1)
            } else {
                body@
            }),
            forall|j: int| 0 <= j < i ==> (#[trigger] all[j]).len() > 0,
            forall|j: int|
                0 <= j < i ==> without_class_separators(#[trigger] all[j], 0) == Some(texts@[j]@),
        decreases parts@.len() - i,
    {
        assert(all[i as int] == parts@[i as int]@);
        if parts[i].len() == 0 {
            assert(all[i as int].len() == 0);
            assert(has_empty(all));
            return None;
        }
        match strip_bracket_separators(parts[i].as_slice()) {
            Some(text) => {
                texts.push(text);
            },
            None => {
                assert(has_unmatchable(all));
                return None;
            },
        }
        i += 1;
    }
    assert(contents(texts@) =~= component_texts(all));
    plan_texts(&texts, anchored, case_insensitive, negated, directory_only)
}

/// Reads one line of an ignore file, or nothing where it is no rule: a blank
/// line, a comment, or a line that can match nothing.
pub fn plan_rule(line: &[u8], case_insensitive: bool) -> (result: Option<RulePlan>)
    ensures
        match result {
            Some(plan) => plan_of_line(line@, case_insensitive) == Some(plan@),
            None => plan_of_line(line@, case_insensitive) is None,
        },
{
    if line.len() == 0 || line[0] == HASH {
        return None;
    }
    let trimmed = strip_trailing_spaces(line);
    if trimmed.len() == 0 {
        return None;
    }
    let negated = trimmed[0] == BANG;
    let start: usize = if negated {
        1
    } else {
        0
    };
    let body = slice_subrange(trimmed, start, trimmed.len());
    assert(negated ==> body@ =~= trimmed@.skip(1));
    assert(!negated ==> body@ =~= trimmed@);
    // A rule ending in an unpaired backslash escapes nothing and matches
    // nothing.
    if trailing_backslashes(body) % 2 == 1 {
        return None;
    }
    let directory_only = body.len() > 0 && body[body.len() - 1] == SLASH;
    let end: usize = if directory_only {
        body.len() - 1
    } else {
        body.len()
    };
    let inner = slice_subrange(body, 0, end);
    assert(directory_only ==> inner@ =~= body@.drop_last());
    assert(!directory_only ==> inner@ =~= body@);
    plan_body(inner, case_insensitive, negated, directory_only)
}

} // verus!
