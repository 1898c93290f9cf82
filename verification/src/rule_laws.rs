//! What holds of ignore rules that name no directory.
use vstd::prelude::*;

use crate::bytes::{
    index_from, lemma_index_from, lemma_index_from_is, BACKSLASH, BANG, BRACKET_CLOSE, BRACKET_OPEN,
    COLON, QUESTION, SLASH, SPACE, STAR,
};
use crate::components::{covers_from, law_a_run_covers_any_number_of_names, path_names};
use crate::glob::{class_name_stands, is_class_name, matches_path, plain_text};
use crate::ignore_rules::{
    acceptance, asked, component_dialect, part_accepts, parts_match, rule_of_line, runs_of, shown,
    verdict_of_line, RuleModel,
};
use crate::rule_syntax::{
    after_class, backslashes_at_end, class_close, class_members, class_name_end, class_name_opens,
    class_opening, class_scan_start, collapsed, component_texts, first_longest, first_wild, gate_of,
    is_whole_run, lemma_class_name_end, literal_run, literal_runs, negates, part_of, plan_of_body, plan_of_line,
    rule_components, separator_from, spanning_form, star_run_of, without_class_separators,
    without_trailing_spaces, Part, Plan,
};
use crate::search::{occurs_at, occurs_in};

verus! {

pub(crate) proof fn lemma_no_separator(body: Seq<u8>, from: int, in_class: bool, seen: bool)
    requires
        0 <= from <= body.len(),
        !body.contains(SLASH),
    ensures
        separator_from(body, from, in_class, seen) == body.len(),
    decreases body.len() - from,
{
    if from < body.len() {
        assert(body.contains(body[from]));
        if from + 2 <= body.len() {
            lemma_no_separator(body, from + 2, in_class, in_class || seen);
            lemma_no_separator(body, from + 2, true, false);
        }
        lemma_no_separator(body, from + 1, true, true);
        lemma_no_separator(body, from + 1, true, false);
        lemma_no_separator(body, from + 1, !seen, true);
        lemma_no_separator(body, from + 1, in_class, in_class || seen);
        if let Some(end) = class_name_end(body, from + 2) {
            if from < end < body.len() - 1 {
                lemma_no_separator(body, end + 2, true, true);
            }
        }
    }
}

proof fn lemma_trailing_spaces(line: Seq<u8>)
    ensures
        without_trailing_spaces(line).len() <= line.len(),
        forall|i: int|
            0 <= i < without_trailing_spaces(line).len() ==> #[trigger] without_trailing_spaces(
                line,
            )[i] == line[i],
        forall|i: int|
            without_trailing_spaces(line).len() <= i < line.len() ==> #[trigger] line[i] == SPACE,
    decreases line.len(),
{
    if without_trailing_spaces(line) != line && line.len() > 0 {
        let shorter = line.drop_last();
        lemma_trailing_spaces(shorter);
        assert forall|i: int|
            without_trailing_spaces(line).len() <= i < line.len() implies #[trigger] line[i]
            == SPACE by {
            if i < shorter.len() {
                assert(shorter[i] == SPACE);
            }
        }
    }
}

/// Whether a plan asks the last name of a candidate and no other.
pub open spec fn asks_the_last_name(plan: Plan) -> bool {
    &&& plan.zero is None
    &&& plan.components.len() == 2
    &&& plan.components[0] is AnyDirs
    &&& plan.components[1] is Text
}

proof fn lemma_body_asks_the_last_name(
    body: Seq<u8>,
    case_insensitive: bool,
    negated: bool,
    directory_only: bool,
)
    requires
        !body.contains(SLASH),
    ensures
        match plan_of_body(body, case_insensitive, negated, directory_only) {
            Some(plan) => asks_the_last_name(plan),
            None => true,
        },
{
    if body.len() > 0 {
        assert(body.contains(body[0]));
        lemma_no_separator(body, 0, false, false);
        let parts = rule_components(body, 0);
        assert(parts.len() == 1);
        let texts = component_texts(parts);
        reveal_with_fuel(spanning_form, 2);
        reveal_with_fuel(first_wild, 2);
        assert(star_run_of(texts, false) is None);
        let spanning = spanning_form(texts, false, None, 1);
        if is_whole_run(texts[0]) {
            assert(part_of(texts[0]) is AnyDirs);
            assert(spanning =~= seq![Part::AnyDirs]);
            assert(spanning.push(Part::Text(seq![STAR])).len() == 2);
        } else {
            assert(spanning =~= seq![Part::AnyDirs, Part::Text(collapsed(texts[0], 0))]);
        }
    }
}

/// A rule without a separator asks the last name of a candidate and no other.
proof fn lemma_line_asks_the_last_name(line: Seq<u8>, case_insensitive: bool)
    requires
        !line.contains(SLASH),
    ensures
        match rule_of_line(line, case_insensitive) {
            Some(plan) => asks_the_last_name(plan),
            None => true,
        },
{
    let trimmed = without_trailing_spaces(line);
    lemma_trailing_spaces(line);
    assert(!trimmed.contains(SLASH)) by {
        if trimmed.contains(SLASH) {
            let i = choose|i: int| 0 <= i < trimmed.len() && trimmed[i] == SLASH;
            assert(line.contains(line[i]));
        }
    }
    if trimmed.len() > 0 {
        let negated = trimmed[0] == BANG;
        let body = if negated {
            trimmed.skip(1)
        } else {
            trimmed
        };
        assert(!body.contains(SLASH)) by {
            if body.contains(SLASH) {
                let i = choose|i: int| 0 <= i < body.len() && body[i] == SLASH;
                assert(trimmed.contains(
                    trimmed[if negated {
                        i + 1
                    } else {
                        i
                    }],
                ));
            }
        }
        assert(body.len() > 0 ==> body.contains(body.last()));
        lemma_body_asks_the_last_name(body, case_insensitive, negated, false);
        assert(backslashes_at_end(body) % 2 == 1 ==> plan_of_line(line, case_insensitive) is None);
    }
}

pub(crate) proof fn lemma_last_of_names(dir: Seq<u8>, name: Seq<u8>)
    requires
        name.len() > 0,
        !name.contains(SLASH),
    ensures
        path_names(name) == seq![name],
        path_names(dir.push(SLASH) + name).len() > 0,
        path_names(dir.push(SLASH) + name).last() == name,
    decreases dir.len(),
{
    assert(path_names(name) =~= seq![name]) by {
        assert forall|i: int| 0 <= i < name.len() implies name[i] != SLASH by {
            assert(name.contains(name[i]));
        }
        lemma_index_from_is(name, SLASH, 0, name.len() as int);
    }
    let whole = dir.push(SLASH) + name;
    lemma_index_from(dir, SLASH, 0);
    let at = index_from(dir, SLASH, 0);
    assert(whole[dir.len() as int] == SLASH);
    assert forall|i: int| 0 <= i < at implies whole[i] != SLASH by {
        assert(whole[i] == dir[i]);
    }
    lemma_index_from_is(whole, SLASH, 0, at);
    if at < dir.len() {
        let rest = dir.skip(at + 1);
        assert(whole.skip(at + 1) =~= rest.push(SLASH) + name);
        lemma_last_of_names(rest, name);
    } else {
        assert(whole.skip(at + 1) =~= name);
    }
    assert(path_names(whole) == seq![whole.take(at)] + path_names(whole.skip(at + 1)));
}

proof fn lemma_only_the_last_name(components: Seq<Part>, case_insensitive: bool, candidate: Seq<u8>)
    requires
        components.len() == 2,
        components[0] is AnyDirs,
        components[1] is Text,
        path_names(candidate).len() > 0,
    ensures
        parts_match(components, case_insensitive, candidate) == part_accepts(
            components[1],
            case_insensitive,
            path_names(candidate).last(),
        ),
{
    let names = path_names(candidate);
    let count = names.len() as int;
    let runs = runs_of(components);
    let accepts = acceptance(components, case_insensitive, names);
    law_a_run_covers_any_number_of_names(runs, accepts, count, 0, 0);
    reveal_with_fuel(covers_from, 3);
    assert(accepts[1][count - 1] == part_accepts(components[1], case_insensitive, names.last()));
    assert(covers_from(runs, accepts, count, 1, count - 1) == accepts[1][count - 1]);
    if covers_from(runs, accepts, count, 0, 0) {
        let k = choose|k: int| 0 <= k <= count && #[trigger] covers_from(runs, accepts, count, 1, k);
        assert(covers_from(runs, accepts, count, 1, k) == (k < count && accepts[1][k] && k + 1
            == count));
    }
}

/// Whether the bytes that a rule asks of every candidate stand in `name`,
/// provided its text accepts that name.
pub open spec fn gate_lets_pass(plan: Plan, name: Seq<u8>) -> bool {
    match (plan.gate, plan.components.last()) {
        (Some(run), Part::Text(text)) => matches_path(
            text,
            component_dialect(false),
            name,
        ) ==> occurs_in(name, run),
        _ => true,
    }
}

proof fn lemma_occurs_behind(dir: Seq<u8>, name: Seq<u8>, run: Seq<u8>)
    requires
        occurs_in(name, run),
    ensures
        occurs_in(dir.push(SLASH) + name, run),
{
    let at = choose|at: int| #[trigger] occurs_at(name, run, at);
    let whole = dir.push(SLASH) + name;
    let there = dir.len() + 1 + at;
    assert(whole.subrange(there, there + run.len()) =~= name.subrange(at, at + run.len()));
    assert(occurs_at(whole, run, there));
}

/// A rule without a separator matches at any level: it looks at the last name
/// of a candidate, whatever directories stand in front.
///
/// Left out is a name that the rule's text accepts although it does not hold
/// the bytes the rule asks of every candidate.
pub proof fn law_a_rule_without_a_separator_looks_at_the_last_name(
    line: Seq<u8>,
    dir: Seq<u8>,
    name: Seq<u8>,
    is_dir: bool,
)
    requires
        !line.contains(SLASH),
        name.len() > 0,
        !name.contains(SLASH),
        match rule_of_line(line, false) {
            Some(plan) => gate_lets_pass(plan, name),
            None => true,
        },
    ensures
        verdict_of_line(line, dir.push(SLASH) + name, is_dir) == verdict_of_line(
            line,
            name,
            is_dir,
        ),
{
    lemma_line_asks_the_last_name(line, false);
    lemma_last_of_names(dir, name);
    if let Some(plan) = rule_of_line(line, false) {
        let whole = dir.push(SLASH) + name;
        lemma_only_the_last_name(plan.components, false, whole);
        lemma_only_the_last_name(plan.components, false, name);
        assert(path_names(name).last() == name);
        if let Some(run) = plan.gate {
            if occurs_in(name, run) {
                lemma_occurs_behind(dir, name, run);
            }
        }
    }
}

/// Whether a rule's line names no directory and is plain: no separator and no
/// escape is in it, and every class name is a known one.
pub open spec fn names_no_directory(line: Seq<u8>) -> bool {
    plain_text(line)
}

/// Whether a path has a last name to look at.
pub open spec fn ends_in_a_name(path: Seq<u8>) -> bool {
    path_names(path).len() > 0 && path_names(path).last().len() > 0
}

/// Whether the bytes of `text` from `from` to `end` are lower case letters.
spec fn lettered(text: Seq<u8>, from: int, end: int) -> bool {
    forall|i: int| from <= i < end ==> 0x61 <= #[trigger] text[i] <= 0x7a
}

proof fn lemma_name_end(text: Seq<u8>, from: int, end: int)
    requires
        0 <= from <= end,
        end + 1 < text.len(),
        lettered(text, from, end),
        text[end] == COLON,
        text[end + 1] == BRACKET_CLOSE,
    ensures
        class_name_end(text, from) == Some(end),
    decreases end - from,
{
    if from < end {
        lemma_name_end(text, from + 1, end);
    }
}

proof fn lemma_names_are_letters(name: Seq<u8>)
    requires
        is_class_name(name),
    ensures
        lettered(name, 0, name.len() as int),
{
    reveal_strlit("alnum");
    reveal_strlit("alpha");
    reveal_strlit("ascii");
    reveal_strlit("blank");
    reveal_strlit("cntrl");
    reveal_strlit("digit");
    reveal_strlit("graph");
    reveal_strlit("lower");
    reveal_strlit("print");
    reveal_strlit("punct");
    reveal_strlit("space");
    reveal_strlit("upper");
    reveal_strlit("word");
    reveal_strlit("xdigit");
}

proof fn lemma_known_name(text: Seq<u8>, at: int) -> (end: int)
    requires
        plain_text(text),
        0 <= at < text.len(),
        class_name_opens(text, at),
    ensures
        class_name_end(text, at + 2) == Some(end),
        is_class_name(text.subrange(at + 2, end)),
        at + 2 <= end,
        end + 1 < text.len(),
        lettered(text, at + 2, end),
        text[end] == COLON,
        text[end + 1] == BRACKET_CLOSE,
{
    assert(class_name_stands(text, at));
    lemma_class_name_end(text, at + 2);
    let end = class_name_end(text, at + 2)->0;
    let name = text.subrange(at + 2, end);
    lemma_names_are_letters(name);
    assert forall|i: int| at + 2 <= i < end implies 0x61 <= #[trigger] text[i] <= 0x7a by {
        assert(text[i] == name[i - at - 2]);
    }
    end
}

/// A class name that is copied whole is known there too.
proof fn lemma_name_copied(text: Seq<u8>, at: int, end: int, other: Seq<u8>, there: int)
    requires
        0 <= at,
        at + 2 <= end,
        end + 1 < text.len(),
        is_class_name(text.subrange(at + 2, end)),
        lettered(text, at + 2, end),
        text[end] == COLON,
        text[end + 1] == BRACKET_CLOSE,
        0 <= there,
        there + end + 2 - at <= other.len(),
        forall|i: int|
            there <= i < there + end + 2 - at ==> #[trigger] other[i] == text[at + (i - there)],
    ensures
        class_name_end(other, there + 2) == Some(there + end - at),
        class_name_stands(other, there),
{
    let last = there + end - at;
    lemma_name_end(other, there + 2, last);
    assert(other.subrange(there + 2, last) =~= text.subrange(at + 2, end));
}

/// A plain line is plain without the spaces it ends with.
proof fn lemma_plain_start(line: Seq<u8>, until: int)
    requires
        plain_text(line),
        0 <= until <= line.len(),
        forall|i: int| until <= i < line.len() ==> #[trigger] line[i] == SPACE,
    ensures
        plain_text(line.take(until)),
{
    let part = line.take(until);
    assert forall|i: int| 0 <= i < part.len() implies part[i] != SLASH && part[i]
        != BACKSLASH by {
        assert(line.contains(line[i]));
    }
    assert forall|i: int| 0 <= i < part.len() && #[trigger] class_name_opens(
        part,
        i,
    ) implies class_name_stands(part, i) by {
        assert(class_name_opens(line, i));
        let end = lemma_known_name(line, i);
        assert(end + 1 < until) by {
            if until <= end + 1 {
                assert(line[end + 1] == SPACE);
            }
        }
        lemma_name_copied(line, i, end, part, i);
    }
}

/// What follows the first byte of a plain text is plain.
proof fn lemma_plain_rest(text: Seq<u8>)
    requires
        plain_text(text),
        text.len() > 0,
    ensures
        plain_text(text.skip(1)),
{
    let part = text.skip(1);
    assert forall|i: int| 0 <= i < part.len() implies part[i] != SLASH && part[i]
        != BACKSLASH by {
        assert(text.contains(text[i + 1]));
    }
    assert forall|i: int| 0 <= i < part.len() && #[trigger] class_name_opens(
        part,
        i,
    ) implies class_name_stands(part, i) by {
        assert(class_name_opens(text, i + 1));
        let end = lemma_known_name(text, i + 1);
        lemma_name_copied(text, i + 1, end, part, i);
    }
}

proof fn lemma_plain_members(part: Seq<u8>, from: int, seen: bool)
    requires
        plain_text(part),
        0 <= from <= part.len(),
    ensures
        match class_members(part, from, seen).1 {
            Some(close) => from <= close < part.len() && part[close] == BRACKET_CLOSE
                && class_members(part, from, seen).0 == part.subrange(from, close) && (seen || from
                < close),
            None => class_members(part, from, seen).0 == part.subrange(from, part.len() as int),
        },
    decreases part.len() - from,
{
    if from < part.len() {
        assert(part.contains(part[from]));
        if class_name_opens(part, from) {
            let end = lemma_known_name(part, from);
            lemma_plain_members(part, end + 2, true);
            let rest = class_members(part, end + 2, true);
            let name = part.subrange(from, end + 2);
            match rest.1 {
                Some(close) => {
                    assert(name + part.subrange(end + 2, close) =~= part.subrange(from, close));
                },
                None => {
                    assert(name + part.subrange(end + 2, part.len() as int) =~= part.subrange(
                        from,
                        part.len() as int,
                    ));
                },
            }
        } else if !(part[from] == BRACKET_CLOSE && seen) {
            lemma_plain_members(part, from + 1, true);
            let rest = class_members(part, from + 1, true);
            match rest.1 {
                Some(close) => {
                    assert(seq![part[from]] + part.subrange(from + 1, close) =~= part.subrange(
                        from,
                        close,
                    ));
                },
                None => {
                    assert(seq![part[from]] + part.subrange(from + 1, part.len() as int)
                        =~= part.subrange(from, part.len() as int));
                },
            }
        }
    }
}

/// A plain component has no separators to lose.
pub(crate) proof fn lemma_plain_component(part: Seq<u8>, from: int)
    requires
        plain_text(part),
        0 <= from <= part.len(),
    ensures
        without_class_separators(part, from) == Some(part.subrange(from, part.len() as int)),
    decreases part.len() - from,
{
    let end = part.len() as int;
    if from < part.len() {
        assert(part.contains(part[from]));
        if part[from] == BRACKET_OPEN {
            let opening = class_opening(part, from);
            let start = from + opening.len();
            lemma_plain_members(part, start, false);
            let (members, closes) = class_members(part, start, false);
            match closes {
                Some(close) => {
                    lemma_plain_component(part, close + 1);
                    assert((opening + members).push(BRACKET_CLOSE) + part.subrange(close + 1, end)
                        =~= part.subrange(from, end));
                },
                None => {
                    assert(opening + members =~= part.subrange(from, end));
                },
            }
        } else {
            lemma_plain_component(part, from + 1);
            assert(seq![part[from]] + part.subrange(from + 1, end) =~= part.subrange(from, end));
        }
    }
}

/// What holds no star is copied when stars are taken together.
pub(crate) proof fn lemma_collapsed_copies(part: Seq<u8>, from: int, to: int)
    requires
        0 <= from <= to <= part.len(),
        forall|i: int| from <= i < to ==> #[trigger] part[i] != STAR && part[i] != BACKSLASH,
    ensures
        collapsed(part, from) == part.subrange(from, to) + collapsed(part, to),
    decreases to - from,
{
    if from < to {
        lemma_collapsed_copies(part, from + 1, to);
        assert(part[from] != STAR);
        assert(seq![part[from]] + (part.subrange(from + 1, to) + collapsed(part, to))
            =~= part.subrange(from, to) + collapsed(part, to));
    } else {
        assert(part.subrange(from, to) + collapsed(part, to) =~= collapsed(part, to));
    }
}

proof fn lemma_plain_collapsed(part: Seq<u8>, from: int)
    requires
        plain_text(part),
        0 <= from <= part.len(),
    ensures
        plain_text(collapsed(part, from)),
        from < part.len() ==> collapsed(part, from).len() > 0 && collapsed(part, from)[0]
            == part[from],
    decreases part.len() - from,
{
    if from < part.len() {
        lemma_plain_collapsed(part, from + 1);
        assert(part.contains(part[from]));
        let rest = collapsed(part, from + 1);
        let whole = collapsed(part, from);
        if whole != rest {
            assert(whole == seq![part[from]] + rest);
            assert forall|i: int| 0 <= i < whole.len() implies whole[i] != SLASH && whole[i]
                != BACKSLASH by {
                if i > 0 {
                    assert(rest.contains(rest[i - 1]));
                }
            }
            assert forall|i: int| 0 <= i < whole.len() && #[trigger] class_name_opens(
                whole,
                i,
            ) implies class_name_stands(whole, i) by {
                if i > 0 {
                    assert(class_name_opens(rest, i - 1));
                    let end = lemma_known_name(rest, i - 1);
                    lemma_name_copied(rest, i - 1, end, whole, i);
                } else {
                    assert(class_name_opens(part, from));
                    let end = lemma_known_name(part, from);
                    lemma_collapsed_copies(part, from, end + 2);
                    lemma_name_copied(part, from, end, whole, 0);
                }
            }
        }
    }
}

/// Where the byte of `part` at `at` stands once runs of stars are one star.
spec fn place_in_collapsed(part: Seq<u8>, at: int) -> int {
    collapsed(part, 0).len() - collapsed(part, at).len()
}

proof fn lemma_place_in_collapsed(part: Seq<u8>, at: int)
    requires
        plain_text(part),
        0 <= at <= part.len(),
    ensures
        0 <= place_in_collapsed(part, at) <= collapsed(part, 0).len(),
        collapsed(part, 0).skip(place_in_collapsed(part, at)) == collapsed(part, at),
        at == part.len() ==> place_in_collapsed(part, at) == collapsed(part, 0).len(),
        at < part.len() ==> {
            let there = place_in_collapsed(part, at);
            &&& there < collapsed(part, 0).len()
            &&& collapsed(part, 0)[there] == part[at]
            &&& place_in_collapsed(part, at + 1) == there + 1 || (part[at] == STAR && at + 1
                < part.len() && part[at + 1] == STAR && place_in_collapsed(part, at + 1) == there)
            &&& part[at] != STAR ==> place_in_collapsed(part, at + 1) == there + 1
        },
    decreases at,
{
    let whole = collapsed(part, 0);
    if at > 0 {
        lemma_place_in_collapsed(part, at - 1);
        assert(part.contains(part[at - 1]));
        let before = collapsed(part, at - 1);
        let there = place_in_collapsed(part, at - 1);
        if before != collapsed(part, at) {
            assert(before == seq![part[at - 1]] + collapsed(part, at));
            assert(whole.skip(there + 1) =~= whole.skip(there).skip(1));
            assert(before.skip(1) =~= collapsed(part, at));
        }
    } else {
        assert(whole.skip(0) =~= whole);
    }
    if at < part.len() {
        lemma_plain_collapsed(part, at);
        assert(part.contains(part[at]));
        let there = place_in_collapsed(part, at);
        assert(whole.skip(there)[0] == whole[there]);
    }
}

proof fn lemma_close_in_collapsed(part: Seq<u8>, from: int)
    requires
        plain_text(part),
        0 <= from <= part.len(),
    ensures
        from <= class_close(part, from) <= part.len(),
        class_close(part, from) < part.len() ==> part[class_close(part, from)] == BRACKET_CLOSE,
        class_close(collapsed(part, 0), place_in_collapsed(part, from)) == place_in_collapsed(
            part,
            class_close(part, from),
        ),
    decreases part.len() - from,
{
    lemma_place_in_collapsed(part, from);
    if from < part.len() {
        let whole = collapsed(part, 0);
        let there = place_in_collapsed(part, from);
        lemma_plain_collapsed(part, 0);
        assert(part.contains(part[from]));
        assert(whole.contains(whole[there]));
        lemma_place_in_collapsed(part, from + 1);
        assert(class_name_opens(whole, there) == class_name_opens(part, from));
        if class_name_opens(part, from) {
            let end = lemma_known_name(part, from);
            lemma_close_in_collapsed(part, end + 2);
            lemma_collapsed_copies(part, from, end + 2);
            assert forall|i: int| there <= i < there + end + 2 - from implies #[trigger] whole[i]
                == part[from + (i - there)] by {
                assert(whole.skip(there)[i - there] == part.subrange(from, end + 2)[i - there]);
            }
            lemma_name_copied(part, from, end, whole, there);
        } else if part[from] != BRACKET_CLOSE {
            lemma_close_in_collapsed(part, from + 1);
        }
    }
}

proof fn lemma_class_in_collapsed(part: Seq<u8>, at: int)
    requires
        plain_text(part),
        0 <= at < part.len(),
        part[at] == BRACKET_OPEN,
    ensures
        at < after_class(part, at) <= part.len(),
        after_class(collapsed(part, 0), place_in_collapsed(part, at)) == place_in_collapsed(
            part,
            after_class(part, at),
        ),
{
    let whole = collapsed(part, 0);
    let there = place_in_collapsed(part, at);
    lemma_place_in_collapsed(part, at);
    lemma_place_in_collapsed(part, at + 1);
    assert(negates(whole, there + 1) == negates(part, at + 1));
    let inside = if negates(part, at + 1) {
        at + 2
    } else {
        at + 1
    };
    lemma_place_in_collapsed(part, inside);
    let start = class_scan_start(part, at);
    lemma_place_in_collapsed(part, start);
    assert(class_scan_start(whole, there) == place_in_collapsed(part, start));
    lemma_close_in_collapsed(part, start);
    lemma_place_in_collapsed(part, class_close(part, start));
}

/// Whether every run of `runs` that holds a byte is one of `others`.
spec fn runs_stay(runs: Seq<Seq<u8>>, others: Seq<Seq<u8>>) -> bool {
    forall|i: int|
        0 <= i < runs.len() && (#[trigger] runs[i]).len() > 0 ==> others.contains(runs[i])
}

proof fn lemma_runs_stay_behind(
    head: Seq<u8>,
    runs: Seq<Seq<u8>>,
    others: Seq<Seq<u8>>,
)
    requires
        runs_stay(runs, others),
    ensures
        runs_stay(seq![head] + runs, seq![head] + others),
{
    let longer = seq![head] + runs;
    let there = seq![head] + others;
    assert forall|i: int| 0 <= i < longer.len() && (#[trigger] longer[i]).len()
        > 0 implies there.contains(longer[i]) by {
        if i == 0 {
            assert(there[0] == head);
        } else {
            assert(longer[i] == runs[i - 1]);
            let k = choose|k: int| 0 <= k < others.len() && others[k] == runs[i - 1];
            assert(there[k + 1] == longer[i]);
        }
    }
}

/// Taking runs of stars together takes no literal run away.
proof fn lemma_runs_in_collapsed(part: Seq<u8>, from: int, current: Seq<u8>)
    requires
        plain_text(part),
        0 <= from <= part.len(),
    ensures
        runs_stay(
            literal_runs(part, from, current),
            literal_runs(collapsed(part, 0), place_in_collapsed(part, from), current),
        ),
    decreases part.len() - from,
{
    let whole = collapsed(part, 0);
    let there = place_in_collapsed(part, from);
    lemma_place_in_collapsed(part, from);
    if from >= part.len() {
        assert(literal_runs(whole, there, current)[0] == current);
    } else {
        let byte = part[from];
        assert(part.contains(byte));
        if byte == STAR || byte == QUESTION {
            lemma_runs_in_collapsed(part, from + 1, Seq::empty());
            let runs = literal_runs(part, from + 1, Seq::empty());
            let behind = literal_runs(whole, there + 1, Seq::empty());
            if place_in_collapsed(part, from + 1) == there {
                let all = literal_runs(whole, there, Seq::empty());
                assert(all == seq![Seq::<u8>::empty()] + behind);
                assert forall|i: int| 0 <= i < runs.len() && (#[trigger] runs[i]).len()
                    > 0 implies behind.contains(runs[i]) by {
                    let k = choose|k: int| 0 <= k < all.len() && all[k] == runs[i];
                    assert(behind[k - 1] == runs[i]);
                }
            }
            lemma_runs_stay_behind(current, runs, behind);
        } else if byte == BRACKET_OPEN {
            lemma_class_in_collapsed(part, from);
            let next = after_class(part, from);
            lemma_place_in_collapsed(part, next);
            lemma_grows_behind_class(part, from);
            lemma_runs_in_collapsed(part, next, Seq::empty());
            lemma_runs_stay_behind(
                current,
                literal_runs(part, next, Seq::empty()),
                literal_runs(whole, place_in_collapsed(part, next), Seq::empty()),
            );
        } else {
            lemma_runs_in_collapsed(part, from + 1, current.push(byte));
        }
    }
}

proof fn lemma_grows_behind_class(part: Seq<u8>, at: int)
    requires
        plain_text(part),
        0 <= at < part.len(),
        part[at] == BRACKET_OPEN,
    ensures
        place_in_collapsed(part, at) < place_in_collapsed(part, after_class(part, at)),
{
    let next = after_class(part, at);
    lemma_class_in_collapsed(part, at);
    lemma_place_in_collapsed(part, at);
    lemma_places_grow(part, at + 1, next);
}

proof fn lemma_places_grow(part: Seq<u8>, from: int, to: int)
    requires
        plain_text(part),
        0 <= from <= to <= part.len(),
    ensures
        place_in_collapsed(part, from) <= place_in_collapsed(part, to),
    decreases to - from,
{
    if from < to {
        lemma_place_in_collapsed(part, to - 1);
        lemma_places_grow(part, from, to - 1);
    }
}

proof fn lemma_longest_is_one(best: Seq<u8>, runs: Seq<Seq<u8>>)
    ensures
        first_longest(best, runs) == best || runs.contains(first_longest(best, runs)),
    decreases runs.len(),
{
    if runs.len() > 0 {
        let next = if runs[0].len() > best.len() {
            runs[0]
        } else {
            best
        };
        let rest = runs.drop_first();
        lemma_longest_is_one(next, rest);
        let found = first_longest(next, rest);
        if rest.contains(found) {
            let k = choose|k: int| 0 <= k < rest.len() && rest[k] == found;
            assert(runs[k + 1] == found);
        } else if next == runs[0] {
            assert(runs.contains(runs[0]));
        }
    }
}

/// The bytes a plain component asks for are a literal run of its text as it is
/// compiled.
proof fn lemma_gate_is_a_run(part: Seq<u8>)
    requires
        plain_text(part),
    ensures
        match literal_run(part) {
            Some(run) => literal_runs(collapsed(part, 0), 0, Seq::empty()).contains(run),
            None => true,
        },
{
    let runs = literal_runs(part, 0, Seq::empty());
    lemma_longest_is_one(Seq::empty(), runs);
    lemma_runs_in_collapsed(part, 0, Seq::empty());
    if let Some(run) = literal_run(part) {
        let k = choose|k: int| 0 <= k < runs.len() && runs[k] == run;
        assert(runs[k].len() > 0);
    }
}

/// Whether a plan that asks the last name has a plain text there, and asks of a
/// candidate no bytes but those of a literal run of that text.
spec fn asks_its_own_run(plan: Plan) -> bool {
    match plan.components[1] {
        Part::Text(text) => plain_text(text) && match plan.gate {
            Some(run) => literal_runs(text, 0, Seq::empty()).contains(run),
            None => true,
        },
        Part::AnyDirs => false,
    }
}

proof fn lemma_no_run_in_stars(part: Seq<u8>, from: int)
    requires
        is_whole_run(part),
        0 <= from <= part.len(),
    ensures
        forall|i: int|
            0 <= i < literal_runs(part, from, Seq::empty()).len() ==> (#[trigger] literal_runs(
                part,
                from,
                Seq::empty(),
            )[i]).len() == 0,
    decreases part.len() - from,
{
    if from < part.len() {
        lemma_no_run_in_stars(part, from + 1);
        let behind = literal_runs(part, from + 1, Seq::empty());
        let runs = literal_runs(part, from, Seq::empty());
        assert(runs == seq![Seq::<u8>::empty()] + behind);
        assert forall|i: int| 0 <= i < runs.len() implies (#[trigger] runs[i]).len() == 0 by {
            if i > 0 {
                assert(runs[i] == behind[i - 1]);
            }
        }
    }
}

proof fn lemma_body_asks_its_own_run(body: Seq<u8>, negated: bool)
    requires
        plain_text(body),
    ensures
        match plan_of_body(body, false, negated, false) {
            Some(plan) => asks_its_own_run(plan),
            None => true,
        },
{
    if body.len() > 0 {
        assert(body.contains(body[0]));
        lemma_no_separator(body, 0, false, false);
        let parts = rule_components(body, 0);
        assert(parts =~= seq![body]) by {
            assert(body.subrange(0, body.len() as int) =~= body);
        }
        lemma_plain_component(body, 0);
        assert(body.subrange(0, body.len() as int) =~= body);
        let texts = component_texts(parts);
        assert(texts =~= seq![body]);
        reveal_with_fuel(spanning_form, 2);
        reveal_with_fuel(first_wild, 2);
        reveal_with_fuel(gate_of, 2);
        assert(star_run_of(texts, false) is None);
        let spanning = spanning_form(texts, false, None, 1);
        if is_whole_run(body) {
            assert(part_of(body) is AnyDirs);
            assert(spanning =~= seq![Part::AnyDirs]);
            lemma_no_run_in_stars(body, 0);
            lemma_longest_is_one(Seq::empty(), literal_runs(body, 0, Seq::empty()));
            assert(literal_run(body) is None);
            assert(plain_text(seq![STAR]));
        } else {
            assert(spanning =~= seq![Part::AnyDirs, Part::Text(collapsed(body, 0))]);
            lemma_plain_collapsed(body, 0);
            lemma_gate_is_a_run(body);
        }
    }
}

proof fn lemma_line_asks_its_own_run(line: Seq<u8>)
    requires
        names_no_directory(line),
    ensures
        match rule_of_line(line, false) {
            Some(plan) => asks_its_own_run(plan),
            None => true,
        },
{
    let trimmed = without_trailing_spaces(line);
    lemma_trailing_spaces(line);
    assert(trimmed =~= line.take(trimmed.len() as int));
    lemma_plain_start(line, trimmed.len() as int);
    if trimmed.len() > 0 {
        let negated = trimmed[0] == BANG;
        let body = if negated {
            trimmed.skip(1)
        } else {
            trimmed
        };
        if negated {
            lemma_plain_rest(trimmed);
        }
        assert(body.len() > 0 ==> body.contains(body.last()));
        lemma_body_asks_its_own_run(body, negated);
        assert(backslashes_at_end(body) % 2 == 1 ==> plan_of_line(line, false) is None);
    }
}

proof fn lemma_last_name_stands_in(path: Seq<u8>)
    requires
        path_names(path).len() > 0,
    ensures
        occurs_in(path, path_names(path).last()),
        !path_names(path).last().contains(SLASH),
    decreases path.len(),
{
    lemma_index_from(path, SLASH, 0);
    let at = index_from(path, SLASH, 0);
    let name = path_names(path).last();
    if at >= path.len() {
        assert(path.subrange(0, path.len() as int) =~= path);
        assert(occurs_at(path, path, 0));
    } else {
        let rest = path.skip(at + 1);
        if path_names(rest).len() > 0 {
            lemma_last_name_stands_in(rest);
            let there = choose|there: int| #[trigger] occurs_at(rest, name, there);
            assert(path.subrange(at + 1 + there, at + 1 + there + name.len()) =~= rest.subrange(
                there,
                there + name.len(),
            ));
            assert(occurs_at(path, name, at + 1 + there));
        } else {
            assert(path.subrange(0, at) =~= path.take(at));
            assert(occurs_at(path, path.take(at), 0));
        }
    }
}

proof fn lemma_occurs_further_out(path: Seq<u8>, name: Seq<u8>, run: Seq<u8>)
    requires
        occurs_in(path, name),
        occurs_in(name, run),
    ensures
        occurs_in(path, run),
{
    let outer = choose|at: int| #[trigger] occurs_at(path, name, at);
    let inner = choose|at: int| #[trigger] occurs_at(name, run, at);
    let there = outer + inner;
    assert(path.subrange(there, there + run.len()) =~= path.subrange(
        outer,
        outer + name.len(),
    ).subrange(inner, inner + run.len()));
    assert(occurs_at(path, run, there));
}

/// What asking a plain rule without a separator has shown is that the last name
/// of the candidate decides.
pub(crate) proof fn lemma_the_last_name_decides(line: Seq<u8>, candidate: Seq<u8>, is_dir: bool)
    requires
        names_no_directory(line),
        ends_in_a_name(candidate),
        match rule_of_line(line, false) {
            Some(plan) => asked(
                (RuleModel { plan, case_insensitive: false }),
                candidate,
                is_dir,
            ),
            None => true,
        },
    ensures
        verdict_of_line(line, candidate, is_dir) == verdict_of_line(
            line,
            path_names(candidate).last(),
            is_dir,
        ),
{
    let names = path_names(candidate);
    let name = names.last();
    lemma_line_asks_the_last_name(line, false);
    lemma_line_asks_its_own_run(line);
    lemma_last_name_stands_in(candidate);
    lemma_last_of_names(Seq::empty(), name);
    if let Some(plan) = rule_of_line(line, false) {
        lemma_only_the_last_name(plan.components, false, candidate);
        lemma_only_the_last_name(plan.components, false, name);
        if let Some(run) = plan.gate {
            if occurs_in(name, run) {
                lemma_occurs_further_out(candidate, name, run);
            } else if occurs_in(candidate, run) && (is_dir || !plan.directory_only) {
                assert(shown(plan.components[1], false, names[names.len() - 1]));
                let text = plan.components[1]->Text_0;
                let runs = literal_runs(text, 0, Seq::empty());
                let k = choose|k: int| 0 <= k < runs.len() && runs[k] == run;
                assert(!part_accepts(plan.components[1], false, name));
            }
        }
    }
}

} // verus!
