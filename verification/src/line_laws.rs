//! What the parts of a rule's line say: its separators, its negation, its runs
//! and the spaces around it.
use vstd::prelude::*;

use crate::bytes::{
    index_from, is_alphabetic, is_digit, lemma_index_from, BACKSLASH, BANG, BRACKET_CLOSE,
    BRACKET_OPEN, CARET, COLON, HASH, QUESTION, SLASH, SPACE, STAR,
};
use crate::components::{covers_from, law_a_run_covers_any_number_of_names, path_names};
use crate::glob::{compile_failure, matches_path, Dialect};
use crate::ignore_rules::{
    acceptance, all_compile, compiled_plan, parts_match, rule_of_line, runs_of, verdict_of_line,
};
use crate::rule_laws::{
    lemma_collapsed_copies, lemma_last_of_names, lemma_no_separator, lemma_plain_component,
};
use crate::rule_syntax::{
    after_class, after_runs, backslashes_at_end, class_close, class_members, class_name_opens,
    class_opening, class_scan_start, collapsed, component_texts, final_stars, first_longest, first_wild, fused_text, gate_of, has_empty,
    has_unmatchable, has_wild, is_whole_run, is_wild, literal_run, literal_runs,
    needs_something_inside, negates, only_stars, part_of, plan_of_body, plan_of_line, plan_of_texts,
    rule_components, separator_from, spanning_form, special_prefix, star_run_of,
    without_class_separators, without_trailing_spaces, zero_form, Part, Plan,
};
use crate::search::{occurs_at, occurs_in};

verus! {

/// How the text of a rule is read: neither braces nor extended globs mean
/// anything in it, a star stays within one name and may stand for a leading
/// period, and the case of letters counts.
pub open spec fn rule_reading() -> Dialect {
    Dialect {
        braces: false,
        recursive_double_star: false,
        extglob: false,
        match_hidden: true,
        case_insensitive: false,
    }
}

proof fn lemma_nothing_to_trim(line: Seq<u8>)
    requires
        line.len() > 0 ==> line.last() != SPACE,
    ensures
        without_trailing_spaces(line) == line,
{
}

/// A separator at the end of a line asks for a directory and changes nothing
/// else: on a directory the rule says what it says without, and on anything
/// else it says nothing.
///
/// Left out is a line that ends in a space, a backslash or a separator already.
#[verifier::rlimit(40)]
pub proof fn law_a_final_separator_asks_for_a_directory(line: Seq<u8>, candidate: Seq<u8>)
    requires
        line.len() > 0 ==> line.last() != SPACE && line.last() != SLASH && line.last() != BACKSLASH,
    ensures
        verdict_of_line(line.push(SLASH), candidate, true) == verdict_of_line(
            line,
            candidate,
            true,
        ),
        verdict_of_line(line.push(SLASH), candidate, false) is None,
{
    let longer = line.push(SLASH);
    lemma_nothing_to_trim(line);
    lemma_nothing_to_trim(longer);
    if line.len() == 0 {
        assert(longer.drop_last() =~= line);
    } else if line[0] != HASH {
        let negated = line[0] == BANG;
        let body = if negated {
            line.skip(1)
        } else {
            line
        };
        let marked = if negated {
            longer.skip(1)
        } else {
            longer
        };
        assert(marked =~= body.push(SLASH));
        assert(marked.drop_last() =~= body);
        assert(body.len() > 0 ==> body.last() == line.last());
        assert(backslashes_at_end(marked) == 0);
        assert(backslashes_at_end(body) == 0);
        assert(plan_of_line(longer, false) == plan_of_body(body, false, negated, true));
        assert(plan_of_line(line, false) == plan_of_body(body, false, negated, false));
    }
}

/// A separator in front of a rule that has one inside adds nothing: the rule is
/// anchored already.
///
/// Left out is a line that ends in a space or a backslash.
#[verifier::rlimit(40)]
pub proof fn law_a_leading_separator_adds_nothing_to_an_inner_one(
    line: Seq<u8>,
    inner: int,
    candidate: Seq<u8>,
    is_dir: bool,
)
    requires
        0 < inner < line.len() - 1,
        line[inner] == SLASH,
        line[0] != SLASH && line[0] != HASH && line[0] != BANG,
        line.last() != SPACE && line.last() != BACKSLASH,
    ensures
        verdict_of_line(seq![SLASH] + line, candidate, is_dir) == verdict_of_line(
            line,
            candidate,
            is_dir,
        ),
{
    let longer = seq![SLASH] + line;
    assert(longer.last() == line.last());
    lemma_nothing_to_trim(line);
    lemma_nothing_to_trim(longer);
    let directory_only = line.last() == SLASH;
    let body = if directory_only {
        line.drop_last()
    } else {
        line
    };
    let slashed = if directory_only {
        longer.drop_last()
    } else {
        longer
    };
    assert(slashed =~= seq![SLASH] + body);
    assert(slashed.skip(1) =~= body);
    assert(body[inner] == SLASH);
    assert(body.contains(SLASH));
    assert(slashed[0] == SLASH);
    assert(slashed.contains(SLASH));
    assert(plan_of_line(longer, false) == plan_of_body(slashed, false, false, directory_only));
    assert(plan_of_line(line, false) == plan_of_body(body, false, false, directory_only));
}

proof fn lemma_backslashes_behind(byte: u8, text: Seq<u8>)
    requires
        byte != BACKSLASH,
    ensures
        backslashes_at_end(seq![byte] + text) == backslashes_at_end(text),
    decreases text.len(),
{
    let longer = seq![byte] + text;
    if text.len() > 0 {
        assert(longer.last() == text.last());
        assert(longer.drop_last() =~= seq![byte] + text.drop_last());
        lemma_backslashes_behind(byte, text.drop_last());
    } else {
        assert(longer.last() == byte);
    }
}

proof fn lemma_trimmed_behind(byte: u8, text: Seq<u8>)
    requires
        byte != BACKSLASH,
        byte != SPACE,
    ensures
        without_trailing_spaces(seq![byte] + text) == seq![byte] + without_trailing_spaces(text),
    decreases text.len(),
{
    let longer = seq![byte] + text;
    if text.len() > 0 {
        assert(longer.last() == text.last());
        assert(longer.drop_last() =~= seq![byte] + text.drop_last());
        lemma_backslashes_behind(byte, text.drop_last());
        lemma_trimmed_behind(byte, text.drop_last());
    } else {
        assert(longer.last() == byte);
    }
}

proof fn lemma_trimmed_start(text: Seq<u8>)
    ensures
        without_trailing_spaces(text).len() <= text.len(),
        without_trailing_spaces(text).len() > 0 ==> without_trailing_spaces(text)[0] == text[0],
    decreases text.len(),
{
    if text.len() > 0 && without_trailing_spaces(text) != text {
        lemma_trimmed_start(text.drop_last());
    }
}

/// A `!` in front of a line turns the rule around. What it ignores without the
/// `!` is re-included, and what it says nothing of stays so.
///
/// Left out is a comment, and a line that is negated already.
#[verifier::rlimit(40)]
pub proof fn law_a_bang_turns_the_verdict(line: Seq<u8>, candidate: Seq<u8>, is_dir: bool)
    requires
        line.len() > 0 ==> line[0] != HASH && line[0] != BANG,
    ensures
        verdict_of_line(line, candidate, is_dir) is Some ==> verdict_of_line(
            line,
            candidate,
            is_dir,
        ) == Some(true),
        verdict_of_line(seq![BANG] + line, candidate, is_dir) == (match verdict_of_line(
            line,
            candidate,
            is_dir,
        ) {
            Some(_) => Some(false),
            None => None,
        }),
{
    let longer = seq![BANG] + line;
    lemma_trimmed_behind(BANG, line);
    lemma_trimmed_start(line);
    let body = without_trailing_spaces(line);
    let trimmed = without_trailing_spaces(longer);
    assert(trimmed.skip(1) =~= body);
    assert(longer[0] == BANG);
    if body.len() == 0 {
        assert(plan_of_line(longer, false) is None);
    } else {
        let directory_only = body.last() == SLASH;
        let text = if directory_only {
            body.drop_last()
        } else {
            body
        };
        if backslashes_at_end(body) % 2 != 1 {
            assert(plan_of_line(line, false) == plan_of_body(text, false, false, directory_only));
            assert(plan_of_line(longer, false) == plan_of_body(text, false, true, directory_only));
        }
    }
}

proof fn lemma_only_spaces(line: Seq<u8>)
    requires
        forall|i: int| 0 <= i < line.len() ==> #[trigger] line[i] == SPACE,
    ensures
        without_trailing_spaces(line).len() == 0,
    decreases line.len(),
{
    if line.len() > 0 {
        let shorter = line.drop_last();
        lemma_only_spaces(shorter);
        assert(shorter.len() > 0 ==> shorter.last() == line[line.len() - 2]);
        assert(backslashes_at_end(shorter) == 0);
    }
}

/// A comment, an empty line and a line of spaces are no rules.
#[verifier::rlimit(40)]
pub proof fn law_comments_and_blanks_say_nothing(
    line: Seq<u8>,
    case_insensitive: bool,
    candidate: Seq<u8>,
    is_dir: bool,
)
    requires
        line.len() == 0 || line[0] == HASH || forall|i: int|
            0 <= i < line.len() ==> #[trigger] line[i] == SPACE,
    ensures
        rule_of_line(line, case_insensitive) is None,
        verdict_of_line(line, candidate, is_dir) is None,
{
    if line.len() > 0 && line[0] != HASH {
        lemma_only_spaces(line);
    }
}

/// Spaces at the end of a line do not count, unless the first is escaped.
#[verifier::rlimit(40)]
pub proof fn law_final_spaces_do_not_count(line: Seq<u8>, candidate: Seq<u8>, is_dir: bool)
    requires
        line.len() > 0 ==> line.last() != BACKSLASH,
    ensures
        verdict_of_line(line.push(SPACE), candidate, is_dir) == verdict_of_line(
            line,
            candidate,
            is_dir,
        ),
{
    let longer = line.push(SPACE);
    assert(longer.drop_last() =~= line);
    assert(backslashes_at_end(line) == 0);
    assert(without_trailing_spaces(longer) == without_trailing_spaces(line));
    if line.len() > 0 {
        assert(longer[0] == line[0]);
    }
}

/// A rule that ends in a backslash with nothing to escape says nothing.
#[verifier::rlimit(40)]
pub proof fn law_a_final_backslash_says_nothing(text: Seq<u8>, candidate: Seq<u8>, is_dir: bool)
    requires
        text.len() > 0 ==> text.last() != BACKSLASH,
    ensures
        verdict_of_line(text.push(BACKSLASH), candidate, is_dir) is None,
{
    let line = text.push(BACKSLASH);
    lemma_nothing_to_trim(line);
    assert(line.drop_last() =~= text);
    assert(backslashes_at_end(text) == 0);
    reveal_with_fuel(backslashes_at_end, 2);
    let body = if line[0] == BANG {
        line.skip(1)
    } else {
        line
    };
    assert(body.last() == BACKSLASH);
    let rest = body.drop_last();
    assert(rest.len() > 0 ==> rest.last() == text.last());
    assert(backslashes_at_end(body) == 1);
}

/// Whether `name` is a name that a rule spells out: not empty, without a
/// separator, and of nothing but literal text.
pub open spec fn is_literal_name(name: Seq<u8>) -> bool {
    name.len() > 0 && !name.contains(SLASH) && !name.contains(STAR) && !name.contains(QUESTION)
        && !name.contains(BRACKET_OPEN) && !name.contains(BACKSLASH)
}

/// Whether every one of `names` is spelled out.
pub open spec fn are_literal_names(names: Seq<Seq<u8>>) -> bool {
    forall|i: int| 0 <= i < names.len() ==> is_literal_name(#[trigger] names[i])
}

/// `names` with a separator between any two.
pub open spec fn slashed(names: Seq<Seq<u8>>) -> Seq<u8>
    decreases names.len(),
{
    if names.len() == 0 {
        Seq::empty()
    } else if names.len() == 1 {
        names[0]
    } else {
        names[0].push(SLASH) + slashed(names.drop_first())
    }
}

/// `**`
pub open spec fn double_star() -> Seq<u8> {
    seq![STAR, STAR]
}

/// Whether a component's text holds neither a separator, nor a bracket, nor an
/// escape.
spec fn is_open_text(text: Seq<u8>) -> bool {
    text.len() > 0 && forall|i: int|
        0 <= i < text.len() ==> #[trigger] text[i] != SLASH && text[i] != BRACKET_OPEN && text[i]
            != BACKSLASH
}

spec fn are_open_texts(texts: Seq<Seq<u8>>) -> bool {
    forall|i: int| 0 <= i < texts.len() ==> is_open_text(#[trigger] texts[i])
}

proof fn lemma_literal_is_open(name: Seq<u8>)
    requires
        is_literal_name(name),
    ensures
        is_open_text(name),
        !has_wild(name),
{
    assert forall|i: int| 0 <= i < name.len() implies #[trigger] name[i] != SLASH && name[i]
        != BRACKET_OPEN && name[i] != BACKSLASH && name[i] != STAR && name[i] != QUESTION by {
        assert(name.contains(name[i]));
    }
}

proof fn lemma_slashed_ends(texts: Seq<Seq<u8>>)
    requires
        texts.len() > 0,
        are_open_texts(texts),
    ensures
        slashed(texts).len() > 0,
        slashed(texts)[0] == texts[0][0],
        slashed(texts).last() == texts.last().last(),
        texts.len() > 1 ==> slashed(texts).contains(SLASH),
        texts.len() == 1 ==> !slashed(texts).contains(SLASH),
    decreases texts.len(),
{
    assert(is_open_text(texts[0]));
    if texts.len() > 1 {
        let rest = texts.drop_first();
        assert forall|i: int| 0 <= i < rest.len() implies is_open_text(#[trigger] rest[i]) by {
            assert(rest[i] == texts[i + 1]);
        }
        lemma_slashed_ends(rest);
        let whole = slashed(texts);
        assert(whole[texts[0].len() as int] == SLASH);
        assert(whole.last() == slashed(rest).last());
        assert(rest.last() == texts.last());
    }
}

proof fn lemma_separator_behind(body: Seq<u8>, from: int, end: int)
    requires
        0 <= from <= end <= body.len(),
        forall|i: int|
            from <= i < end ==> #[trigger] body[i] != SLASH && body[i] != BRACKET_OPEN && body[i]
                != BACKSLASH,
        end < body.len() ==> body[end] == SLASH,
    ensures
        separator_from(body, from, false, false) == end,
{
    lemma_separator_outside(body, from, end, false);
}

proof fn lemma_separator_outside(body: Seq<u8>, from: int, end: int, seen: bool)
    requires
        0 <= from <= end <= body.len(),
        forall|i: int|
            from <= i < end ==> #[trigger] body[i] != SLASH && body[i] != BRACKET_OPEN && body[i]
                != BACKSLASH,
        end < body.len() ==> body[end] == SLASH,
    ensures
        separator_from(body, from, false, seen) == end,
    decreases end - from,
{
    if from < end {
        assert(body[from] != SLASH);
        lemma_separator_outside(body, from + 1, end, seen);
    }
}

/// The components of texts put together are those texts.
proof fn lemma_components_of(front: Seq<u8>, texts: Seq<Seq<u8>>)
    requires
        texts.len() > 0,
        are_open_texts(texts),
    ensures
        rule_components(front + slashed(texts), front.len() as int) == texts,
    decreases texts.len(),
{
    let body = front + slashed(texts);
    let from = front.len() as int;
    let text = texts[0];
    let end = from + text.len();
    assert(is_open_text(text));
    assert forall|i: int| from <= i < end implies #[trigger] body[i] != SLASH && body[i]
        != BRACKET_OPEN && body[i] != BACKSLASH by {
        assert(body[i] == text[i - from]);
    }
    assert(body.subrange(from, end) =~= text);
    if texts.len() == 1 {
        lemma_separator_behind(body, from, end);
        assert(texts =~= seq![text]);
    } else {
        let rest = texts.drop_first();
        assert forall|i: int| 0 <= i < rest.len() implies is_open_text(#[trigger] rest[i]) by {
            assert(rest[i] == texts[i + 1]);
        }
        assert(body[end] == SLASH);
        lemma_separator_behind(body, from, end);
        let longer = front + text.push(SLASH);
        assert(longer + slashed(rest) =~= body);
        lemma_components_of(longer, rest);
        assert(longer.len() == end + 1);
        assert(seq![text] + rest =~= texts);
    }
}

proof fn lemma_open_text(text: Seq<u8>)
    requires
        is_open_text(text),
    ensures
        without_class_separators(text, 0) == Some(text),
        !has_wild(text) ==> collapsed(text, 0) == text && !is_whole_run(text) && literal_runs(
            text,
            0,
            Seq::empty(),
        ) == seq![text],
{
    assert forall|i: int| 0 <= i < text.len() implies !#[trigger] class_name_opens(text, i) by {
        assert(text[i] != BRACKET_OPEN);
    }
    lemma_plain_component(text, 0);
    assert(text.subrange(0, text.len() as int) =~= text);
    if !has_wild(text) {
        lemma_collapsed_copies(text, 0, text.len() as int);
        assert(collapsed(text, text.len() as int) =~= Seq::empty());
        assert(text + Seq::<u8>::empty() =~= text);
        assert(text[0] != STAR);
        lemma_one_run(text, 0);
        assert(text.take(0) =~= Seq::empty());
    }
}

proof fn lemma_one_run(text: Seq<u8>, from: int)
    requires
        0 <= from <= text.len(),
        !has_wild(text),
    ensures
        literal_runs(text, from, text.take(from)) == seq![text],
    decreases text.len() - from,
{
    if from < text.len() {
        lemma_one_run(text, from + 1);
        assert(text.take(from).push(text[from]) =~= text.take(from + 1));
        assert(text[from] != STAR);
    } else {
        assert(text.take(from) =~= text);
    }
}

/// The texts of a body that texts are put together to, and its plan.
proof fn lemma_plan_of_slashed(
    texts: Seq<Seq<u8>>,
    leading: bool,
    negated: bool,
    directory_only: bool,
)
    requires
        texts.len() > 0,
        are_open_texts(texts),
    ensures
        plan_of_body(
            if leading {
                seq![SLASH] + slashed(texts)
            } else {
                slashed(texts)
            },
            false,
            negated,
            directory_only,
        ) == plan_of_texts(texts, leading || texts.len() > 1, false, negated, directory_only),
{
    let own = slashed(texts);
    lemma_slashed_ends(texts);
    assert(is_open_text(texts[0]));
    assert(own[0] != SLASH);
    let body = if leading {
        seq![SLASH] + own
    } else {
        own
    };
    if leading {
        assert(body[0] == SLASH);
        assert(body.contains(SLASH));
        assert(body.skip(1) =~= own);
    }
    let none = Seq::<u8>::empty();
    lemma_components_of(none, texts);
    assert(none + own =~= own);
    assert forall|i: int| 0 <= i < texts.len() implies without_class_separators(
        #[trigger] texts[i],
        0,
    ) == Some(texts[i]) by {
        assert(is_open_text(texts[i]));
        lemma_open_text(texts[i]);
    }
    assert(component_texts(texts) =~= texts);
}

proof fn lemma_no_wild_from(texts: Seq<Seq<u8>>, from: int, until: int)
    requires
        0 <= from <= until <= texts.len(),
        forall|i: int| from <= i < until ==> !has_wild(#[trigger] texts[i]),
        until < texts.len() ==> has_wild(texts[until]),
    ensures
        first_wild(texts, from) == until,
    decreases until - from,
{
    if from < until {
        assert(!has_wild(texts[from]));
        lemma_no_wild_from(texts, from + 1, until);
    }
}

/// The components that texts, each literal or a run, become.
spec fn parts_of_texts(texts: Seq<Seq<u8>>) -> Seq<Part> {
    Seq::new(
        texts.len(),
        |i: int|
            if texts[i] == double_star() {
                Part::AnyDirs
            } else {
                Part::Text(texts[i])
            },
    )
}

/// Whether each of `texts` is literal, but for one run at `run`.
spec fn are_literal_but(texts: Seq<Seq<u8>>, run: int) -> bool {
    &&& texts.len() > 0
    &&& forall|i: int|
        0 <= i < texts.len() && i != run ==> is_open_text(#[trigger] texts[i]) && !has_wild(
            texts[i],
        )
    &&& 0 <= run < texts.len() ==> texts[run] == double_star()
}

proof fn lemma_double_star()
    ensures
        is_open_text(double_star()),
        has_wild(double_star()),
        is_whole_run(double_star()),
        only_stars(double_star()),
{
    assert(double_star()[0] == STAR);
}

#[verifier::rlimit(40)]
proof fn lemma_spanning(texts: Seq<Seq<u8>>, run: int, anchored: bool, count: int)
    requires
        are_literal_but(texts, run),
        0 <= count <= texts.len(),
        anchored || run != 0,
    ensures
        spanning_form(texts, anchored, None, count) == (if anchored {
            parts_of_texts(texts).take(count)
        } else {
            seq![Part::AnyDirs] + parts_of_texts(texts).take(count)
        }),
    decreases count,
{
    let all = parts_of_texts(texts);
    let start = if anchored {
        Seq::<Part>::empty()
    } else {
        seq![Part::AnyDirs]
    };
    if count > 0 {
        lemma_spanning(texts, run, anchored, count - 1);
        lemma_double_star();
        let text = texts[count - 1];
        let before = spanning_form(texts, anchored, None, count - 1);
        if count - 1 == run {
            assert(part_of(text) is AnyDirs);
            if before.len() > 0 {
                assert(count >= 2);
                assert(!has_wild(texts[count - 2]));
                assert(before.last() == all[count - 2]);
            }
        } else {
            assert(is_open_text(text) && !has_wild(text));
            lemma_open_text(text);
        }
        assert(all[count - 1] == part_of(text));
        assert(start + all.take(count) =~= (start + all.take(count - 1)).push(all[count - 1]));
        assert(all.take(count) =~= all.take(count - 1).push(all[count - 1]));
    } else {
        assert(all.take(0) =~= Seq::empty());
        assert(start + all.take(0) =~= start);
    }
}

proof fn lemma_gate(texts: Seq<Seq<u8>>, run: int, count: int)
    requires
        are_literal_but(texts, run),
        0 <= count <= texts.len(),
    ensures
        match gate_of(texts, count) {
            Some(bytes) => exists|i: int| 0 <= i < count && i != run && #[trigger] texts[i] == bytes,
            None => true,
        },
    decreases count,
{
    if count > 0 {
        lemma_gate(texts, run, count - 1);
        let text = texts[count - 1];
        reveal_with_fuel(first_longest, 4);
        if count - 1 == run {
            reveal_with_fuel(literal_runs, 4);
            let none = Seq::<u8>::empty();
            let runs = literal_runs(text, 0, none);
            assert(runs =~= seq![none, none, none]);
            assert(runs.drop_first() =~= seq![none, none]);
            assert(runs.drop_first().drop_first() =~= seq![none]);
            assert(runs.drop_first().drop_first().drop_first() =~= Seq::<Seq<u8>>::empty());
            assert(literal_run(text) is None);
        } else {
            assert(is_open_text(text) && !has_wild(text));
            lemma_open_text(text);
            assert(seq![text].drop_first() =~= Seq::<Seq<u8>>::empty());
            assert(literal_run(text) is Some ==> literal_run(text) == Some(text));
        }
        if gate_of(texts, count) != gate_of(texts, count - 1) {
            assert(texts[count - 1] == gate_of(texts, count)->0);
        }
    }
}

/// The plan of texts that are literal but for one run of directories.
#[verifier::rlimit(40)]
proof fn lemma_plan_of_names(
    texts: Seq<Seq<u8>>,
    run: int,
    anchored: bool,
    negated: bool,
    directory_only: bool,
)
    requires
        are_literal_but(texts, run),
        anchored || run != 0,
        -1 <= run < texts.len(),
        anchored || texts.len() == 1,
    ensures
        ({
            let plan = plan_of_texts(texts, anchored, false, negated, directory_only);
            let own = parts_of_texts(texts);
            let parts = if anchored {
                own
            } else {
                seq![Part::AnyDirs] + own
            };
            &&& plan is Some
            &&& plan->0.components == (if run == texts.len() - 1 {
                parts.push(Part::Text(seq![STAR]))
            } else {
                parts
            })
            &&& plan->0.zero is None
            &&& plan->0.negated == negated
            &&& plan->0.directory_only == directory_only
            &&& plan->0.gate == gate_of(texts, texts.len() as int)
        }),
{
    lemma_double_star();
    let count = texts.len() as int;
    let wild = if run < 0 {
        count
    } else {
        run
    };
    lemma_no_wild_from(texts, 0, wild);
    assert(star_run_of(texts, anchored) is None);
    lemma_spanning(texts, run, anchored, count);
    let own = parts_of_texts(texts);
    assert(own.take(count) =~= own);
    if run == count - 1 {
        assert(needs_something_inside(texts, None));
    } else {
        let last = texts[count - 1];
        assert(is_open_text(last) && !has_wild(last));
        lemma_open_text(last);
        assert(!needs_something_inside(texts, None));
    }
}

/// Components that are no runs cover one name each.
#[verifier::rlimit(40)]
proof fn lemma_covers_one_by_one(
    runs: Seq<bool>,
    accepts: Seq<Seq<bool>>,
    count: int,
    i: int,
    end: int,
    j: int,
)
    requires
        0 <= i <= end <= runs.len(),
        0 <= j <= count,
        forall|x: int| i <= x < end ==> !#[trigger] runs[x],
    ensures
        covers_from(runs, accepts, count, i, j) <==> j + (end - i) <= count && (forall|x: int|
            i <= x < end ==> #[trigger] accepts[x][j + (x - i)]) && covers_from(
            runs,
            accepts,
            count,
            end,
            j + (end - i),
        ),
    decreases end - i,
{
    if i < end {
        assert(!runs[i]);
        if j < count {
            lemma_covers_one_by_one(runs, accepts, count, i + 1, end, j + 1);
            if covers_from(runs, accepts, count, i, j) {
                assert forall|x: int| i <= x < end implies #[trigger] accepts[x][j + (x - i)] by {
                    if x > i {
                        assert(accepts[x][j + 1 + (x - (i + 1))]);
                    }
                }
            }
            if j + (end - i) <= count && (forall|x: int|
                i <= x < end ==> #[trigger] accepts[x][j + (x - i)]) {
                assert(accepts[i][j + (i - i)]);
                assert forall|x: int| i + 1 <= x < end implies #[trigger] accepts[x][j + 1 + (x - (
                i + 1))] by {
                    assert(accepts[x][j + (x - i)]);
                }
            }
        }
    }
}

/// Whether each of `texts` accepts the name of a path that stands `offset`
/// places behind its own.
pub open spec fn accept_from(texts: Seq<Seq<u8>>, names: Seq<Seq<u8>>, offset: int) -> bool {
    forall|i: int|
        0 <= i < texts.len() ==> matches_path(
            #[trigger] texts[i],
            rule_reading(),
            names[offset + i],
        )
}

#[verifier::rlimit(40)]
proof fn lemma_parts_match_names(texts: Seq<Seq<u8>>, candidate: Seq<u8>)
    requires
        forall|i: int| 0 <= i < texts.len() ==> #[trigger] texts[i] != double_star(),
    ensures
        parts_match(parts_of_texts(texts), false, candidate) <==> path_names(candidate).len()
            == texts.len() && accept_from(texts, path_names(candidate), 0),
{
    let parts = parts_of_texts(texts);
    let names = path_names(candidate);
    let count = names.len() as int;
    let runs = runs_of(parts);
    let accepts = acceptance(parts, false, names);
    let end = texts.len() as int;
    assert forall|x: int| 0 <= x < end implies !#[trigger] runs[x] by {
        assert(texts[x] != double_star());
    }
    lemma_covers_one_by_one(runs, accepts, count, 0, end, 0);
    assert(end <= count ==> covers_from(runs, accepts, count, end, end) == (end == count));
    if end == count {
        assert((forall|x: int| 0 <= x < end ==> #[trigger] accepts[x][0 + (x - 0)])
            <==> accept_from(texts, names, 0)) by {
            if forall|x: int| 0 <= x < end ==> #[trigger] accepts[x][0 + (x - 0)] {
                assert forall|i: int| 0 <= i < end implies matches_path(
                    #[trigger] texts[i],
                    rule_reading(),
                    names[0 + i],
                ) by {
                    assert(texts[i] != double_star());
                    assert(accepts[i][0 + (i - 0)]);
                }
            }
            if accept_from(texts, names, 0) {
                assert forall|x: int| 0 <= x < end implies #[trigger] accepts[x][0 + (x - 0)] by {
                    assert(texts[x] != double_star());
                    assert(matches_path(texts[x], rule_reading(), names[0 + x]));
                }
            }
        }
    }
}

/// Texts, a run, and more texts match what starts with the first and ends in
/// the last, with anything between.
#[verifier::rlimit(40)]
proof fn lemma_parts_match_around(
    front: Seq<Seq<u8>>,
    back: Seq<Seq<u8>>,
    candidate: Seq<u8>,
)
    requires
        forall|i: int| 0 <= i < front.len() ==> #[trigger] front[i] != double_star(),
        forall|i: int| 0 <= i < back.len() ==> #[trigger] back[i] != double_star(),
    ensures
        ({
            let names = path_names(candidate);
            parts_match(
                parts_of_texts(front).push(Part::AnyDirs) + parts_of_texts(back),
                false,
                candidate,
            ) <==> front.len() + back.len() <= names.len() && accept_from(front, names, 0)
                && accept_from(back, names, names.len() - back.len())
        }),
{
    let parts = parts_of_texts(front).push(Part::AnyDirs) + parts_of_texts(back);
    let names = path_names(candidate);
    let count = names.len() as int;
    let runs = runs_of(parts);
    let accepts = acceptance(parts, false, names);
    let k = front.len() as int;
    let m = back.len() as int;
    assert(runs.len() == k + 1 + m);
    assert forall|x: int| 0 <= x < k implies !#[trigger] runs[x] && parts[x] == Part::Text(
        front[x],
    ) by {
        assert(front[x] != double_star());
    }
    assert forall|x: int| k < x < k + 1 + m implies !#[trigger] runs[x] && parts[x] == Part::Text(
        back[x - k - 1],
    ) by {
        assert(back[x - k - 1] != double_star());
    }
    assert(runs[k]);
    lemma_covers_one_by_one(runs, accepts, count, 0, k, 0);
    if k <= count {
        assert((forall|x: int| 0 <= x < k ==> #[trigger] accepts[x][0 + (x - 0)]) <==> accept_from(
            front,
            names,
            0,
        )) by {
            if forall|x: int| 0 <= x < k ==> #[trigger] accepts[x][0 + (x - 0)] {
                assert forall|i: int| 0 <= i < k implies matches_path(
                    #[trigger] front[i],
                    rule_reading(),
                    names[0 + i],
                ) by {
                    assert(!runs[i]);
                    assert(accepts[i][0 + (i - 0)]);
                }
            }
            if accept_from(front, names, 0) {
                assert forall|x: int| 0 <= x < k implies #[trigger] accepts[x][0 + (x - 0)] by {
                    assert(!runs[x]);
                    assert(matches_path(front[x], rule_reading(), names[0 + x]));
                }
            }
        }
        law_a_run_covers_any_number_of_names(runs, accepts, count, k, k);
        assert forall|t: int| k <= t <= count implies (#[trigger] covers_from(
            runs,
            accepts,
            count,
            k + 1,
            t,
        ) <==> t + m == count && accept_from(back, names, t)) by {
            lemma_covers_one_by_one(runs, accepts, count, k + 1, k + 1 + m, t);
            if t + m == count {
                if forall|x: int|
                    k + 1 <= x < k + 1 + m ==> #[trigger] accepts[x][t + (x - (k + 1))] {
                    assert forall|i: int| 0 <= i < m implies matches_path(
                        #[trigger] back[i],
                        rule_reading(),
                        names[t + i],
                    ) by {
                        assert(!runs[k + 1 + i]);
                        assert(accepts[k + 1 + i][t + (k + 1 + i - (k + 1))]);
                    }
                }
                if accept_from(back, names, t) {
                    assert forall|x: int| k + 1 <= x < k + 1 + m implies #[trigger] accepts[x][t + (
                    x - (k + 1))] by {
                        assert(!runs[x]);
                        assert(matches_path(
                            back[x - k - 1],
                            rule_reading(),
                            names[t + (x - k - 1)],
                        ));
                    }
                }
            }
        }
        let t = count - m;
        if k <= t {
            assert(covers_from(runs, accepts, count, k + 1, t) <==> accept_from(back, names, t));
        }
    }
}

/// The line that a body makes, negated or not, and with a separator at its end
/// or not.
pub open spec fn line_of(body: Seq<u8>, negated: bool, directory_only: bool) -> Seq<u8> {
    let marked = if directory_only {
        body.push(SLASH)
    } else {
        body
    };
    if negated {
        seq![BANG] + marked
    } else {
        marked
    }
}

proof fn lemma_plan_of_line_of(body: Seq<u8>, negated: bool, directory_only: bool)
    requires
        body.len() > 0,
        body.last() != SLASH && body.last() != BACKSLASH,
        directory_only || body.last() != SPACE,
        negated || (body[0] != BANG && body[0] != HASH),
    ensures
        plan_of_line(line_of(body, negated, directory_only), false) == plan_of_body(
            body,
            false,
            negated,
            directory_only,
        ),
{
    let line = line_of(body, negated, directory_only);
    let marked = if directory_only {
        body.push(SLASH)
    } else {
        body
    };
    assert(line.last() == marked.last());
    lemma_nothing_to_trim(line);
    if negated {
        assert(line.skip(1) =~= marked);
    }
    assert(line[0] == (if negated {
        BANG
    } else {
        body[0]
    }));
    assert(backslashes_at_end(marked) == 0);
    if directory_only {
        assert(marked.drop_last() =~= body);
    }
}

/// Whether every one of `names` compiles as a pattern.
pub open spec fn names_compile(names: Seq<Seq<u8>>) -> bool {
    forall|i: int|
        0 <= i < names.len() ==> compile_failure(#[trigger] names[i], false, false, false) is None
}

/// Whether every one of `names` stands somewhere in `candidate`.
pub open spec fn names_stand_in(names: Seq<Seq<u8>>, candidate: Seq<u8>) -> bool {
    forall|i: int| 0 <= i < names.len() ==> occurs_in(candidate, #[trigger] names[i])
}

/// A rule with a separator in front or inside is anchored: whether it is
/// negated and whether it asks for a directory, it matches a candidate whose
/// names, from the first on, are the rule's names, each by each, and no other.
///
/// `leading` says whether the rule starts with a separator. A candidate that
/// matches is owed a verdict where each name compiles and stands in it, which
/// is so of the very names that the rule spells.
#[verifier::rlimit(40)]
pub proof fn law_an_anchored_rule_names_the_whole_candidate(
    names: Seq<Seq<u8>>,
    leading: bool,
    negated: bool,
    directory_only: bool,
    candidate: Seq<u8>,
    is_dir: bool,
)
    requires
        names.len() > 0,
        are_literal_names(names),
        leading || names.len() > 1,
        negated || leading || (names[0][0] != BANG && names[0][0] != HASH),
        directory_only || names.last().last() != SPACE,
    ensures
        ({
            let body = if leading {
                seq![SLASH] + slashed(names)
            } else {
                slashed(names)
            };
            let verdict = verdict_of_line(
                line_of(body, negated, directory_only),
                candidate,
                is_dir,
            );
            let matched = {
                &&& directory_only ==> is_dir
                &&& path_names(candidate).len() == names.len()
                &&& accept_from(names, path_names(candidate), 0)
            };
            &&& verdict is Some ==> matched && verdict == Some(!negated)
            &&& matched && names_compile(names) && names_stand_in(names, candidate) ==> verdict
                == Some(!negated)
        }),
{
    let own = slashed(names);
    let body = if leading {
        seq![SLASH] + own
    } else {
        own
    };
    lemma_names_are_texts(names);
    lemma_slashed_ends(names);
    assert(is_open_text(names[0]));
    assert(is_open_text(names[names.len() - 1]));
    assert(body.last() == own.last());
    lemma_plan_of_line_of(body, negated, directory_only);
    lemma_plan_of_slashed(names, leading, negated, directory_only);
    lemma_plan_of_names(names, -1, true, negated, directory_only);
    lemma_gate(names, -1, names.len() as int);
    lemma_parts_match_names(names, candidate);
    let line = line_of(body, negated, directory_only);
    let plan = plan_of_line(line, false)->0;
    let parts = parts_of_texts(names);
    assert(plan.components == parts);
    if names_compile(names) {
        assert forall|i: int| 0 <= i < parts.len() implies match #[trigger] parts[i] {
            Part::AnyDirs => true,
            Part::Text(text) => compile_failure(text, false, false, false) is None,
        } by {
            assert(compile_failure(names[i], false, false, false) is None);
        }
        assert(rule_of_line(line, false) is Some);
    }
    if let Some(bytes) = plan.gate {
        let i = choose|i: int| 0 <= i < names.len() && i != -1 && #[trigger] names[i] == bytes;
        assert(names_stand_in(names, candidate) ==> occurs_in(candidate, names[i]));
    }
}

/// Literal names are texts without anything special.
proof fn lemma_names_are_texts(names: Seq<Seq<u8>>)
    requires
        are_literal_names(names),
    ensures
        are_open_texts(names),
        forall|i: int| 0 <= i < names.len() ==> #[trigger] names[i] != double_star(),
        forall|i: int| 0 <= i < names.len() ==> !has_wild(#[trigger] names[i]),
{
    lemma_double_star();
    assert forall|i: int| 0 <= i < names.len() implies is_open_text(#[trigger] names[i])
        && names[i] != double_star() && !has_wild(names[i]) by {
        lemma_literal_is_open(names[i]);
    }
}

/// A rule that is one name, without a separator in front, matches at any level:
/// whether it is negated and whether it asks for a directory, it looks at the
/// last name of a candidate, and at no other.
#[verifier::rlimit(40)]
pub proof fn law_a_single_name_matches_at_any_level(
    name: Seq<u8>,
    negated: bool,
    directory_only: bool,
    candidate: Seq<u8>,
    is_dir: bool,
)
    requires
        is_literal_name(name),
        negated || (name[0] != BANG && name[0] != HASH),
        directory_only || name.last() != SPACE,
    ensures
        ({
            let verdict = verdict_of_line(
                line_of(name, negated, directory_only),
                candidate,
                is_dir,
            );
            let names = path_names(candidate);
            let matched = {
                &&& directory_only ==> is_dir
                &&& names.len() > 0
                &&& matches_path(name, rule_reading(), names.last())
            };
            &&& verdict is Some ==> matched && verdict == Some(!negated)
            &&& matched && compile_failure(name, false, false, false) is None && occurs_in(
                candidate,
                name,
            ) ==> verdict == Some(!negated)
        }),
{
    let texts = seq![name];
    let names = path_names(candidate);
    lemma_literal_is_open(name);
    assert(are_literal_names(texts));
    lemma_names_are_texts(texts);
    assert(slashed(texts) == name);
    assert(name[name.len() - 1] != SLASH);
    lemma_plan_of_line_of(name, negated, directory_only);
    lemma_plan_of_slashed(texts, false, negated, directory_only);
    lemma_plan_of_names(texts, -1, false, negated, directory_only);
    lemma_gate(texts, -1, 1);
    let line = line_of(name, negated, directory_only);
    let plan = plan_of_line(line, false)->0;
    let none = Seq::<Seq<u8>>::empty();
    lemma_parts_match_around(none, texts, candidate);
    assert(parts_of_texts(none) =~= Seq::<Part>::empty());
    assert(parts_of_texts(none).push(Part::AnyDirs) + parts_of_texts(texts) =~= seq![Part::AnyDirs]
        + parts_of_texts(texts));
    if names.len() > 0 {
        assert(accept_from(texts, names, names.len() - 1) <==> matches_path(
            name,
            rule_reading(),
            names.last(),
        )) by {
            assert(texts[0] == name);
            assert(names[names.len() - 1 + 0] == names.last());
        }
    }
    let parts = plan.components;
    assert(parts =~= seq![Part::AnyDirs, Part::Text(name)]);
    if compile_failure(name, false, false, false) is None {
        assert(rule_of_line(line, false) is Some);
    }
}

/// A separator in front of a single name anchors it, with or without one at its
/// end: below any directory the rule says nothing of the name, while without
/// the separator in front it says what it says of the name alone. Of the name
/// alone both say the same.
#[verifier::rlimit(40)]
pub proof fn law_a_leading_separator_anchors_a_name(
    name: Seq<u8>,
    directory_only: bool,
    dir: Seq<u8>,
    is_dir: bool,
)
    requires
        is_literal_name(name),
        name[0] != BANG && name[0] != HASH,
        directory_only || name.last() != SPACE,
        dir.len() > 0,
    ensures
        ({
            let anchored = line_of(seq![SLASH] + name, false, directory_only);
            let floating = line_of(name, false, directory_only);
            let below = dir.push(SLASH) + name;
            &&& verdict_of_line(anchored, below, is_dir) is None
            &&& verdict_of_line(floating, below, is_dir) == verdict_of_line(floating, name, is_dir)
            &&& verdict_of_line(anchored, name, is_dir) == verdict_of_line(floating, name, is_dir)
        }),
{
    let below = dir.push(SLASH) + name;
    let texts = seq![name];
    assert(are_literal_names(texts));
    assert(slashed(texts) == name);
    lemma_literal_is_open(name);
    law_an_anchored_rule_names_the_whole_candidate(
        texts,
        true,
        false,
        directory_only,
        below,
        is_dir,
    );
    lemma_last_of_names(dir, name);
    assert(path_names(below).len() >= 2) by {
        lemma_index_from(below, SLASH, 0);
        let at = index_from(below, SLASH, 0);
        assert(below[dir.len() as int] == SLASH);
        let rest = below.skip(at + 1);
        assert(rest.len() > 0);
        assert(path_names(below) == seq![below.take(at)] + path_names(rest));
        assert(path_names(rest).len() > 0);
    }
    law_a_single_name_matches_at_any_level(name, false, directory_only, below, is_dir);
    law_a_single_name_matches_at_any_level(name, false, directory_only, name, is_dir);
    law_an_anchored_rule_names_the_whole_candidate(
        texts,
        true,
        false,
        directory_only,
        name,
        is_dir,
    );
    assert(name.subrange(0, name.len() as int) =~= name);
    assert(occurs_at(name, name, 0));
    let start = dir.len() + 1;
    assert(below.subrange(start as int, (start + name.len()) as int) =~= name);
    assert(occurs_at(below, name, start as int));
    let floating = line_of(name, false, directory_only);
    let anchored = line_of(seq![SLASH] + name, false, directory_only);
    if compile_failure(name, false, false, false) is Some {
        lemma_uncompiled(name, directory_only);
    }
    assert(accept_from(texts, path_names(name), 0) <==> matches_path(
        name,
        rule_reading(),
        name,
    )) by {
        assert(texts[0] == name);
        assert(path_names(name)[0int + 0int] == name);
    }
    if compile_failure(name, false, false, false) is None {
        assert(names_compile(texts));
        assert(names_stand_in(texts, name));
        assert(names_stand_in(texts, below));
    }
}

proof fn lemma_uncompiled(name: Seq<u8>, directory_only: bool)
    requires
        is_literal_name(name),
        name[0] != BANG && name[0] != HASH,
        directory_only || name.last() != SPACE,
        compile_failure(name, false, false, false) is Some,
    ensures
        rule_of_line(line_of(name, false, directory_only), false) is None,
        rule_of_line(line_of(seq![SLASH] + name, false, directory_only), false) is None,
{
    let texts = seq![name];
    assert(are_literal_names(texts));
    lemma_names_are_texts(texts);
    lemma_literal_is_open(name);
    assert(slashed(texts) == name);
    assert(name[name.len() - 1] != SLASH);
    let slash = seq![SLASH] + name;
    assert(slash.last() == name.last());
    lemma_plan_of_line_of(name, false, directory_only);
    lemma_plan_of_line_of(slash, false, directory_only);
    lemma_plan_of_slashed(texts, false, false, directory_only);
    lemma_plan_of_slashed(texts, true, false, directory_only);
    lemma_plan_of_names(texts, -1, false, false, directory_only);
    lemma_plan_of_names(texts, -1, true, false, directory_only);
    let one = plan_of_line(line_of(name, false, directory_only), false)->0.components;
    let two = plan_of_line(line_of(slash, false, directory_only), false)->0.components;
    assert(one[1] == Part::Text(name));
    assert(two[0] == Part::Text(name));
}

/// A component of two stars stands for any number of directories, none among
/// them: a rule that has one between names matches what starts with the names
/// in front of it and ends in those behind it. Without names in front it
/// matches at any level.
#[verifier::spinoff_prover]
#[verifier::rlimit(60)]
pub proof fn law_a_double_star_stands_for_any_directories(
    front: Seq<Seq<u8>>,
    back: Seq<Seq<u8>>,
    negated: bool,
    directory_only: bool,
    candidate: Seq<u8>,
    is_dir: bool,
)
    requires
        are_literal_names(front),
        are_literal_names(back),
        back.len() > 0,
        front.len() > 0 ==> negated || (front[0][0] != BANG && front[0][0] != HASH),
        directory_only || back.last().last() != SPACE,
    ensures
        ({
            let verdict = verdict_of_line(
                line_of(slashed(front.push(double_star()) + back), negated, directory_only),
                candidate,
                is_dir,
            );
            let names = path_names(candidate);
            let matched = {
                &&& directory_only ==> is_dir
                &&& front.len() + back.len() <= names.len()
                &&& accept_from(front, names, 0)
                &&& accept_from(back, names, names.len() - back.len())
            };
            &&& verdict is Some ==> matched && verdict == Some(!negated)
            &&& matched && names_compile(front) && names_compile(back) && names_stand_in(
                front,
                candidate,
            ) && names_stand_in(back, candidate) ==> verdict == Some(!negated)
        }),
{
    let run = front.len() as int;
    let texts = front.push(double_star()) + back;
    lemma_names_are_texts(front);
    lemma_names_are_texts(back);
    lemma_texts_around(front, back);
    lemma_slashed_ends(texts);
    let body = slashed(texts);
    assert(is_open_text(texts[0]));
    assert(is_open_text(texts[texts.len() - 1]));
    assert(texts.last() == back.last());
    assert(texts[0] == (if front.len() > 0 {
        front[0]
    } else {
        double_star()
    }));
    lemma_plan_of_line_of(body, negated, directory_only);
    lemma_plan_of_slashed(texts, false, negated, directory_only);
    lemma_plan_of_names(texts, run, true, negated, directory_only);
    lemma_gate(texts, run, texts.len() as int);
    let line = line_of(body, negated, directory_only);
    let plan = plan_of_line(line, false)->0;
    let parts = parts_of_texts(texts);
    assert(parts =~= parts_of_texts(front).push(Part::AnyDirs) + parts_of_texts(back));
    lemma_parts_match_around(front, back, candidate);
    if names_compile(front) && names_compile(back) {
        assert forall|i: int| 0 <= i < parts.len() implies match #[trigger] parts[i] {
            Part::AnyDirs => true,
            Part::Text(text) => compile_failure(text, false, false, false) is None,
        } by {
            if i < run {
                assert(compile_failure(front[i], false, false, false) is None);
            } else if i > run {
                assert(compile_failure(back[i - run - 1], false, false, false) is None);
            }
        }
        assert(rule_of_line(line, false) is Some);
    }
    if let Some(bytes) = plan.gate {
        let i = choose|i: int| 0 <= i < texts.len() && i != run && #[trigger] texts[i] == bytes;
        if i < run {
            assert(texts[i] == front[i]);
        } else {
            assert(texts[i] == back[i - run - 1]);
        }
    }
}

proof fn lemma_texts_around(front: Seq<Seq<u8>>, back: Seq<Seq<u8>>)
    requires
        are_literal_names(front),
        are_literal_names(back),
    ensures
        are_literal_but(front.push(double_star()) + back, front.len() as int),
        are_open_texts(front.push(double_star()) + back),
{
    let texts = front.push(double_star()) + back;
    let run = front.len() as int;
    lemma_double_star();
    assert forall|i: int| 0 <= i < texts.len() implies is_open_text(#[trigger] texts[i]) && (i
        != run ==> !has_wild(texts[i])) by {
        if i < run {
            assert(texts[i] == front[i]);
            lemma_literal_is_open(front[i]);
        } else if i > run {
            assert(texts[i] == back[i - run - 1]);
            lemma_literal_is_open(back[i - run - 1]);
        }
    }
}

/// A rule that ends in a component of two stars is about what is inside a
/// directory: it matches whatever has the rule's names in front and at least
/// one name behind them, and not the directory itself.
#[verifier::rlimit(40)]
pub proof fn law_a_final_double_star_is_what_is_inside(
    front: Seq<Seq<u8>>,
    negated: bool,
    directory_only: bool,
    candidate: Seq<u8>,
    is_dir: bool,
)
    requires
        are_literal_names(front),
        front.len() > 0,
        negated || (front[0][0] != BANG && front[0][0] != HASH),
    ensures
        ({
            let verdict = verdict_of_line(
                line_of(slashed(front.push(double_star())), negated, directory_only),
                candidate,
                is_dir,
            );
            let names = path_names(candidate);
            let matched = {
                &&& directory_only ==> is_dir
                &&& front.len() < names.len()
                &&& accept_from(front, names, 0)
                &&& matches_path(seq![STAR], rule_reading(), names.last())
            };
            &&& verdict is Some ==> matched && verdict == Some(!negated)
            &&& matched && names_compile(front) && compile_failure(
                seq![STAR],
                false,
                false,
                false,
            ) is None && names_stand_in(front, candidate) ==> verdict == Some(!negated)
        }),
{
    let run = front.len() as int;
    let none = Seq::<Seq<u8>>::empty();
    let texts = front.push(double_star());
    lemma_names_are_texts(front);
    lemma_texts_around(front, none);
    assert(texts + none =~= texts);
    lemma_slashed_ends(texts);
    let body = slashed(texts);
    assert(is_open_text(texts[0]));
    assert(texts[0] == front[0]);
    assert(texts.last() == double_star());
    assert(double_star().last() == STAR);
    lemma_plan_of_line_of(body, negated, directory_only);
    lemma_plan_of_slashed(texts, false, negated, directory_only);
    lemma_plan_of_names(texts, run, true, negated, directory_only);
    lemma_gate(texts, run, texts.len() as int);
    let line = line_of(body, negated, directory_only);
    let plan = plan_of_line(line, false)->0;
    let star = seq![seq![STAR]];
    assert(seq![STAR] != double_star()) by {
        assert(seq![STAR].len() != double_star().len());
    }
    assert forall|i: int| 0 <= i < star.len() implies #[trigger] star[i] != double_star() by {}
    lemma_parts_match_around(front, star, candidate);
    let parts = plan.components;
    assert(parts =~= parts_of_texts(front).push(Part::AnyDirs) + parts_of_texts(star)) by {
        assert(parts_of_texts(texts) =~= parts_of_texts(front).push(Part::AnyDirs));
        assert(parts_of_texts(star) =~= seq![Part::Text(seq![STAR])]);
    }
    let names = path_names(candidate);
    if names.len() > 0 {
        assert(accept_from(star, names, names.len() - 1) <==> matches_path(
            seq![STAR],
            rule_reading(),
            names.last(),
        )) by {
            assert(star[0] == seq![STAR]);
            assert(names[names.len() - 1 + 0] == names.last());
        }
    }
    if names_compile(front) && compile_failure(seq![STAR], false, false, false) is None {
        assert forall|i: int| 0 <= i < parts.len() implies match #[trigger] parts[i] {
            Part::AnyDirs => true,
            Part::Text(text) => compile_failure(text, false, false, false) is None,
        } by {
            if i < run {
                assert(compile_failure(front[i], false, false, false) is None);
            }
        }
        assert(rule_of_line(line, false) is Some);
    }
    if let Some(bytes) = plan.gate {
        let i = choose|i: int| 0 <= i < texts.len() && i != run && #[trigger] texts[i] == bytes;
        assert(texts[i] == front[i]);
    }
}

/// A rule with an empty component matches nothing.
#[verifier::rlimit(40)]
pub proof fn law_an_empty_component_matches_nothing(
    name: Seq<u8>,
    rest: Seq<u8>,
    candidate: Seq<u8>,
    is_dir: bool,
)
    requires
        is_literal_name(name),
        name[0] != BANG && name[0] != HASH,
        rest.len() > 0 ==> rest.last() != SPACE,
    ensures
        verdict_of_line(name.push(SLASH).push(SLASH) + rest, candidate, is_dir) is None,
{
    let line = name.push(SLASH).push(SLASH) + rest;
    lemma_literal_is_open(name);
    assert(line.last() != SPACE) by {
        if rest.len() > 0 {
            assert(line.last() == rest.last());
        } else {
            assert(line.last() == SLASH);
        }
    }
    lemma_nothing_to_trim(line);
    assert(line[0] == name[0]);
    let body = if line.last() == SLASH {
        line.drop_last()
    } else {
        line
    };
    let end = name.len() as int;
    assert(body.len() >= end + 1);
    assert(body[end] == SLASH);
    assert forall|i: int| 0 <= i < end implies #[trigger] body[i] != SLASH && body[i]
        != BRACKET_OPEN && body[i] != BACKSLASH by {
        assert(body[i] == name[i]);
    }
    lemma_separator_behind(body, 0, end);
    let parts = rule_components(body, 0);
    assert(body[0] != SLASH) by {
        assert(name[0] != SLASH);
    }
    assert(parts == seq![body.subrange(0, end)] + rule_components(body, end + 1));
    let next = rule_components(body, end + 1);
    lemma_separator_behind(body, end + 1, end + 1);
    assert(next[0].len() == 0);
    assert(parts[1] == next[0]);
    assert(parts[1].len() == 0);
}

proof fn lemma_last_run(text: Seq<u8>, start: int, from: int)
    requires
        0 <= start <= from <= text.len(),
        forall|i: int| start <= i < text.len() ==> !is_wild(#[trigger] text[i]),
    ensures
        literal_runs(text, from, text.subrange(start, from)) == seq![
            text.subrange(start, text.len() as int),
        ],
    decreases text.len() - from,
{
    if from < text.len() {
        assert(!is_wild(text[from]));
        lemma_last_run(text, start, from + 1);
        assert(text.subrange(start, from).push(text[from]) =~= text.subrange(start, from + 1));
    }
}

/// The literal runs of a text go on behind a stretch that is literal.
proof fn lemma_run_in_front(text: Seq<u8>, from: int, end: int)
    requires
        0 <= from <= end <= text.len(),
        forall|i: int| 0 <= i < end ==> !is_wild(#[trigger] text[i]),
    ensures
        literal_runs(text, from, text.take(from)) == literal_runs(text, end, text.take(end)),
    decreases end - from,
{
    if from < end {
        assert(!is_wild(text[from]));
        lemma_run_in_front(text, from + 1, end);
        assert(text.take(from).push(text[from]) =~= text.take(from + 1));
    }
}

proof fn lemma_literal_bytes(name: Seq<u8>)
    requires
        !has_wild(name),
    ensures
        forall|i: int| 0 <= i < name.len() ==> !is_wild(#[trigger] name[i]),
{
}

/// Whether `text` is literal, though it may be empty.
pub open spec fn is_literal_text(text: Seq<u8>) -> bool {
    !text.contains(SLASH) && !text.contains(STAR) && !text.contains(QUESTION) && !text.contains(
        BRACKET_OPEN,
    ) && !text.contains(BACKSLASH)
}

proof fn lemma_literal_text(text: Seq<u8>)
    requires
        is_literal_text(text),
    ensures
        forall|i: int| 0 <= i < text.len() ==> !is_wild(#[trigger] text[i]) && text[i] != SLASH,
{
    assert forall|i: int| 0 <= i < text.len() implies !is_wild(#[trigger] text[i]) && text[i]
        != SLASH by {
        assert(text.contains(text[i]));
    }
}

/// What is known of a rule that is one text, with nothing to anchor it.
spec fn is_lone_text(line: Seq<u8>, text: Seq<u8>, runs: Seq<Seq<u8>>) -> bool {
    match plan_of_line(line, false) {
        Some(plan) => {
            &&& plan.components == seq![Part::AnyDirs, Part::Text(text)]
            &&& plan.zero is None
            &&& !plan.negated
            &&& !plan.directory_only
            &&& plan.gate is Some ==> runs.contains(plan.gate->0)
        },
        None => false,
    }
}

#[verifier::rlimit(40)]
proof fn lemma_lone_text(
    line: Seq<u8>,
    text: Seq<u8>,
    runs: Seq<Seq<u8>>,
    candidate: Seq<u8>,
    is_dir: bool,
)
    requires
        is_lone_text(line, text, runs),
        text != double_star(),
    ensures
        ({
            let verdict = verdict_of_line(line, candidate, is_dir);
            let names = path_names(candidate);
            let matched = names.len() > 0 && matches_path(text, rule_reading(), names.last());
            &&& verdict is Some ==> matched && verdict == Some(true)
            &&& matched && compile_failure(text, false, false, false) is None && names_stand_in(
                runs,
                candidate,
            ) ==> verdict == Some(true)
        }),
{
    let names = path_names(candidate);
    let none = Seq::<Seq<u8>>::empty();
    let texts = seq![text];
    let plan = plan_of_line(line, false)->0;
    lemma_parts_match_around(none, texts, candidate);
    assert(parts_of_texts(none).push(Part::AnyDirs) + parts_of_texts(texts)
        =~= plan.components);
    if names.len() > 0 {
        assert(accept_from(texts, names, names.len() - 1) <==> matches_path(
            text,
            rule_reading(),
            names.last(),
        )) by {
            assert(texts[0] == text);
            assert(names[names.len() - 1 + 0] == names.last());
        }
    }
    if compile_failure(text, false, false, false) is None {
        assert(rule_of_line(line, false) is Some);
    }
    if let Some(bytes) = plan.gate {
        let i = choose|i: int| 0 <= i < runs.len() && runs[i] == bytes;
        assert(names_stand_in(runs, candidate) ==> occurs_in(candidate, runs[i]));
    }
}

/// The plan of a line that is one component and nothing else.
#[verifier::rlimit(40)]
proof fn lemma_plan_of_lone(line: Seq<u8>)
    requires
        line.len() > 0,
        line[0] != HASH && line[0] != BANG,
        without_trailing_spaces(line) == line,
        line.last() != SLASH && line.last() != BACKSLASH,
        !line.contains(SLASH),
        separator_from(line, 0, false, false) == line.len(),
        without_class_separators(line, 0) == Some(line),
        !is_whole_run(line),
    ensures
        plan_of_line(line, false) is Some,
        ({
            let plan = plan_of_line(line, false)->0;
            &&& plan.components == seq![Part::AnyDirs, Part::Text(collapsed(line, 0))]
            &&& plan.zero is None
            &&& !plan.negated
            &&& !plan.directory_only
            &&& plan.gate == literal_run(line)
        }),
{
    let texts = seq![line];
    assert(backslashes_at_end(line) == 0);
    assert(line.contains(line[0]));
    let parts = rule_components(line, 0);
    assert(line.subrange(0, line.len() as int) =~= line);
    assert(parts =~= texts);
    assert(component_texts(parts) =~= texts);
    assert(!has_empty(parts)) by {
        assert forall|i: int| 0 <= i < parts.len() implies (#[trigger] parts[i]).len() > 0 by {}
    }
    assert(!has_unmatchable(parts)) by {
        assert forall|i: int| 0 <= i < parts.len() implies without_class_separators(
            #[trigger] parts[i],
            0,
        ) is Some by {}
    }
    reveal_with_fuel(spanning_form, 2);
    reveal_with_fuel(first_wild, 2);
    reveal_with_fuel(gate_of, 2);
    assert(star_run_of(texts, false) is None);
    let spanning = spanning_form(texts, false, None, 1);
    assert(spanning =~= seq![Part::AnyDirs, Part::Text(collapsed(line, 0))]);
}

proof fn lemma_longest_of_two(one: Seq<u8>, two: Seq<u8>)
    ensures
        first_longest(Seq::empty(), seq![one, two]) == one || first_longest(
            Seq::empty(),
            seq![one, two],
        ) == two || first_longest(Seq::empty(), seq![one, two]).len() == 0,
        first_longest(Seq::empty(), seq![one, Seq::empty(), two]) == first_longest(
            Seq::empty(),
            seq![one, two],
        ),
{
    reveal_with_fuel(first_longest, 4);
    let none = Seq::<u8>::empty();
    assert(seq![one, two].drop_first() =~= seq![two]);
    assert(seq![one, none, two].drop_first() =~= seq![none, two]);
    assert(seq![none, two].drop_first() =~= seq![two]);
    assert(seq![two].drop_first() =~= Seq::<Seq<u8>>::empty());
    if one.len() == 0 {
        assert(one =~= none);
    }
}

/// A text around one wildcard.
spec fn around(front: Seq<u8>, middle: Seq<u8>, back: Seq<u8>) -> Seq<u8> {
    front + middle + back
}

#[verifier::rlimit(40)]
proof fn lemma_around_star(front: Seq<u8>, stars: Seq<u8>, wildcard: u8, back: Seq<u8>)
    requires
        is_literal_text(front),
        is_literal_text(back),
        front.len() > 0 || back.len() > 0,
        wildcard == STAR || wildcard == QUESTION,
        stars == seq![wildcard] || stars == double_star(),
    ensures
        ({
            let text = around(front, stars, back);
            &&& is_open_text(text)
            &&& !is_whole_run(text)
            &&& separator_from(text, 0, false, false) == text.len()
            &&& without_class_separators(text, 0) == Some(text)
            &&& literal_runs(text, 0, Seq::empty()) == (if stars == double_star() {
                seq![front, Seq::empty(), back]
            } else {
                seq![front, back]
            })
            &&& collapsed(text, 0) == (if stars == double_star() {
                front + seq![STAR] + back
            } else {
                text
            })
        }),
{
    let text = around(front, stars, back);
    let at = front.len() as int;
    let behind = at + stars.len();
    let len = text.len() as int;
    lemma_literal_text(front);
    lemma_literal_text(back);
    assert forall|i: int| 0 <= i < at implies !is_wild(#[trigger] text[i]) && text[i] != SLASH by {
        assert(text[i] == front[i]);
    }
    assert forall|i: int| behind <= i < len implies !is_wild(#[trigger] text[i]) && text[i]
        != SLASH by {
        assert(text[i] == back[i - behind]);
    }
    assert(text[at] == stars[0]);
    assert forall|i: int| 0 <= i < len implies #[trigger] text[i] != SLASH && text[i]
        != BRACKET_OPEN && text[i] != BACKSLASH by {
        if at <= i < behind {
            assert(text[i] == stars[i - at]);
        }
    }
    assert(is_open_text(text));
    lemma_open_text(text);
    lemma_separator_behind(text, 0, len);
    if front.len() > 0 {
        assert(text[0] == front[0]);
        assert(!is_wild(text[0]));
    } else {
        assert(text[len - 1] == back[back.len() - 1]);
        assert(!is_wild(text[len - 1]));
    }
    let none = Seq::<u8>::empty();
    assert(text.take(0) =~= none);
    assert(text.take(at) =~= front);
    lemma_run_in_front(text, 0, at);
    lemma_last_run(text, behind, behind);
    assert(text.subrange(behind, behind) =~= none);
    assert(text.subrange(behind, len) =~= back);
    lemma_collapsed_copies(text, 0, at);
    lemma_collapsed_copies(text, behind, len);
    assert(text.subrange(0, at) =~= front);
    assert(collapsed(text, len) =~= none);
    assert(back + none =~= back);
    assert(collapsed(text, behind) == back);
    if stars == double_star() {
        assert(text[at + 1] == STAR);
        assert(literal_runs(text, at + 1, none) == seq![none] + literal_runs(text, behind, none));
        assert(literal_runs(text, at, front) == seq![front] + literal_runs(text, at + 1, none));
        assert(seq![front] + (seq![none] + seq![back]) =~= seq![front, none, back]);
        assert(behind < len ==> text[behind] != STAR);
        assert(collapsed(text, at + 1) == seq![STAR] + collapsed(text, behind));
        assert(collapsed(text, at) == collapsed(text, at + 1));
        assert(front + (seq![STAR] + back) =~= front + seq![STAR] + back);
    } else {
        assert(literal_runs(text, at, front) == seq![front] + literal_runs(text, behind, none));
        assert(seq![front] + seq![back] =~= seq![front, back]);
        assert(behind < len ==> text[behind] != STAR);
        assert(collapsed(text, at) == seq![text[at]] + collapsed(text, behind));
        assert(front + (seq![text[at]] + back) =~= text);
    }
}

/// A rule with one wildcard, and no separator, matches what its text matches:
/// the last name of a candidate, on any level. It asks no more of a candidate
/// than that the text on either side of the wildcard stands in it.
#[verifier::rlimit(40)]
pub proof fn law_a_wildcard_rule_matches_what_its_text_matches(
    front: Seq<u8>,
    wildcard: u8,
    back: Seq<u8>,
    candidate: Seq<u8>,
    is_dir: bool,
)
    requires
        is_literal_text(front),
        is_literal_text(back),
        front.len() > 0 || back.len() > 0,
        wildcard == STAR || wildcard == QUESTION,
        front.len() > 0 ==> front[0] != BANG && front[0] != HASH,
        back.len() > 0 ==> back.last() != SPACE,
    ensures
        ({
            let line = front + seq![wildcard] + back;
            let verdict = verdict_of_line(line, candidate, is_dir);
            let names = path_names(candidate);
            let matched = names.len() > 0 && matches_path(line, rule_reading(), names.last());
            &&& verdict is Some ==> matched && verdict == Some(true)
            &&& matched && compile_failure(line, false, false, false) is None && occurs_in(
                candidate,
                front,
            ) && occurs_in(candidate, back) ==> verdict == Some(true)
        }),
{
    let line = front + seq![wildcard] + back;
    let runs = seq![front, back];
    lemma_around_star(front, seq![wildcard], wildcard, back);
    assert(seq![wildcard] != double_star()) by {
        assert(seq![wildcard].len() != double_star().len());
    }
    lemma_lone_line(line, front, seq![wildcard], back);
    lemma_nothing_to_trim(line);
    lemma_plan_of_lone(line);
    lemma_longest_of_two(front, back);
    let plan = plan_of_line(line, false)->0;
    if let Some(bytes) = plan.gate {
        assert(runs[0] == front && runs[1] == back);
        assert(bytes == front || bytes == back);
    }
    assert(line != double_star()) by {
        lemma_double_star();
    }
    lemma_lone_text(line, line, runs, candidate, is_dir);
    assert(occurs_in(candidate, front) && occurs_in(candidate, back) ==> names_stand_in(
        runs,
        candidate,
    ));
}

proof fn lemma_lone_line(line: Seq<u8>, front: Seq<u8>, stars: Seq<u8>, back: Seq<u8>)
    requires
        is_literal_text(front),
        is_literal_text(back),
        line == around(front, stars, back),
        is_open_text(line),
        stars.len() > 0,
        stars[0] == STAR || stars[0] == QUESTION,
        stars.last() == STAR || stars.last() == QUESTION,
        front.len() > 0 ==> front[0] != BANG && front[0] != HASH,
        back.len() > 0 ==> back.last() != SPACE,
    ensures
        line[0] != HASH && line[0] != BANG,
        line.last() != SPACE && line.last() != SLASH && line.last() != BACKSLASH,
        !line.contains(SLASH),
{
    lemma_literal_text(back);
    if front.len() > 0 {
        assert(line[0] == front[0]);
    } else {
        assert(line[0] == stars[0]);
    }
    if back.len() > 0 {
        assert(line.last() == back.last());
        assert(!is_wild(back[back.len() - 1]));
    } else {
        assert(line.last() == stars.last());
    }
    assert forall|i: int| 0 <= i < line.len() implies line[i] != SLASH by {
        assert(line[i] != SLASH);
    }
}

/// Stars next to each other inside a name are one star.
#[verifier::rlimit(40)]
pub proof fn law_stars_inside_a_name_are_one_star(
    front: Seq<u8>,
    back: Seq<u8>,
    candidate: Seq<u8>,
    is_dir: bool,
)
    requires
        is_literal_text(front),
        is_literal_text(back),
        front.len() > 0 || back.len() > 0,
        front.len() > 0 ==> front[0] != BANG && front[0] != HASH,
        back.len() > 0 ==> back.last() != SPACE,
    ensures
        verdict_of_line(front + seq![STAR, STAR] + back, candidate, is_dir) == verdict_of_line(
            front + seq![STAR] + back,
            candidate,
            is_dir,
        ),
{
    let one = front + seq![STAR] + back;
    let two = front + double_star() + back;
    lemma_around_star(front, seq![STAR], STAR, back);
    lemma_around_star(front, double_star(), STAR, back);
    assert(seq![STAR] != double_star()) by {
        assert(seq![STAR].len() != double_star().len());
    }
    assert(double_star().last() == STAR);
    lemma_lone_line(one, front, seq![STAR], back);
    lemma_lone_line(two, front, double_star(), back);
    lemma_nothing_to_trim(one);
    lemma_plan_of_lone(one);
    lemma_nothing_to_trim(two);
    lemma_plan_of_lone(two);
    lemma_longest_of_two(front, back);
    assert(plan_of_line(one, false)->0.gate == plan_of_line(two, false)->0.gate);
}

/// The plan of a rule whose first name ends in two stars.
#[verifier::spinoff_prover]
#[verifier::rlimit(60)]
proof fn lemma_plan_of_suffix(front: Seq<u8>, name: Seq<u8>)
    requires
        is_literal_name(front),
        is_literal_name(name),
        front[0] != BANG && front[0] != HASH,
        name.last() != SPACE,
    ensures
        ({
            let plan = plan_of_line(front + seq![STAR, STAR, SLASH] + name, false);
            &&& plan is Some
            &&& plan->0.components == seq![
                Part::Text(front.push(STAR)),
                Part::AnyDirs,
                Part::Text(name),
            ]
            &&& plan->0.zero == Some(seq![Part::Text(front + name)])
            &&& !plan->0.negated
            &&& !plan->0.directory_only
            &&& plan->0.gate is Some ==> plan->0.gate->0 == front || plan->0.gate->0 == name
        }),
{
    let none = Seq::<u8>::empty();
    let first = front + double_star() + none;
    let texts = seq![first, name];
    let line = front + seq![STAR, STAR, SLASH] + name;
    lemma_literal_is_open(front);
    lemma_literal_is_open(name);
    lemma_literal_is_open_text(front);
    assert(is_literal_text(none));
    lemma_around_star(front, double_star(), STAR, none);
    lemma_open_text(name);
    assert(is_open_text(texts[0]) && is_open_text(texts[1]));
    assert(are_open_texts(texts));
    assert(texts.drop_first() =~= seq![name]);
    reveal_with_fuel(slashed, 3);
    assert(slashed(texts) =~= line);
    lemma_slashed_ends(texts);
    assert(first[0] == front[0]);
    assert(name[name.len() - 1] != SLASH);
    lemma_plan_of_line_of(line, false, false);
    lemma_plan_of_slashed(texts, false, false, false);
    assert(has_wild(first)) by {
        assert(first[front.len() as int] == STAR);
    }
    lemma_no_wild_from(texts, 0, 0);
    assert(!only_stars(first)) by {
        assert(first[0] == front[0]);
    }
    let len = first.len() as int;
    assert(first[len - 1] == STAR && first[len - 2] == STAR);
    assert(first[len - 3] == front[front.len() - 1]);
    reveal_with_fuel(final_stars, 3);
    assert(final_stars(first, len) == len - 2);
    assert(first.take(len - 2) =~= front);
    assert(special_prefix(first) == Some(front));
    assert(star_run_of(texts, true) == Some(0int));
    assert(!is_whole_run(name));
    reveal_with_fuel(after_runs, 2);
    reveal_with_fuel(spanning_form, 3);
    reveal_with_fuel(zero_form, 3);
    assert(after_runs(texts, 1) == 1);
    let star = front.push(STAR);
    assert(front + seq![STAR] + none =~= star);
    assert(part_of(first) == Part::Text(star));
    assert(part_of(name) == Part::Text(name));
    let spanning = spanning_form(texts, true, Some(0int), 2);
    assert(spanning =~= seq![Part::Text(star), Part::AnyDirs, Part::Text(name)]);
    let fused = front + name;
    assert(fused_text(texts, 0) == fused);
    assert(is_literal_name(fused)) by {
        assert forall|byte: u8| #[trigger] fused.contains(byte) implies front.contains(byte)
            || name.contains(byte) by {
            let i = choose|i: int| 0 <= i < fused.len() && fused[i] == byte;
            if i < front.len() {
                assert(front[i] == byte);
            } else {
                assert(name[i - front.len()] == byte);
            }
        }
    }
    lemma_literal_is_open(fused);
    lemma_open_text(fused);
    assert(part_of(fused) == Part::Text(fused));
    let zero = zero_form(texts, true, 0, 2);
    assert(zero =~= seq![Part::Text(fused)]);
    let plan = plan_of_line(line, false)->0;
    assert(plan.components == spanning);
    assert(plan.zero == Some(zero));

    reveal_with_fuel(gate_of, 3);
    lemma_longest_of_two(front, none);
    assert(seq![name].drop_first() =~= Seq::<Seq<u8>>::empty());
    reveal_with_fuel(first_longest, 2);
    if let Some(bytes) = plan.gate {
        assert(bytes == front || bytes == name);
    }
}

/// A rule whose first name ends in two stars behind literal text spans
/// directories there, and takes them as nothing too: `front**/name` matches
/// `name` at any depth below what `front*` matches, and the one name that is
/// `front` and `name` run together.
#[verifier::spinoff_prover]
#[verifier::rlimit(40)]
pub proof fn law_stars_at_the_end_of_a_name_span_directories(
    front: Seq<u8>,
    name: Seq<u8>,
    candidate: Seq<u8>,
    is_dir: bool,
)
    requires
        is_literal_name(front),
        is_literal_name(name),
        front[0] != BANG && front[0] != HASH,
        name.last() != SPACE,
    ensures
        ({
            let line = front + seq![STAR, STAR, SLASH] + name;
            let verdict = verdict_of_line(line, candidate, is_dir);
            let names = path_names(candidate);
            let spanned = names.len() >= 2 && matches_path(
                front.push(STAR),
                rule_reading(),
                names[0],
            ) && matches_path(name, rule_reading(), names.last());
            let fused = names.len() == 1 && matches_path(front + name, rule_reading(), names[0]);
            &&& verdict is Some ==> (spanned || fused) && verdict == Some(true)
            &&& (spanned || fused) && compile_failure(front.push(STAR), false, false, false) is None
                && compile_failure(name, false, false, false) is None && compile_failure(
                front + name,
                false,
                false,
                false,
            ) is None && occurs_in(candidate, front) && occurs_in(candidate, name) ==> verdict
                == Some(true)
        }),
{
    let line = front + seq![STAR, STAR, SLASH] + name;
    let star = front.push(STAR);
    let fused = front + name;
    lemma_plan_of_suffix(front, name);
    lemma_literal_is_open(front);
    lemma_literal_is_open(name);
    let plan = plan_of_line(line, false)->0;
    let spanning = plan.components;
    let zero = plan.zero->0;
    lemma_double_star();
    assert(star != double_star()) by {
        assert(star[0] == front[0]);
    }
    let ahead = seq![star];
    let behind = seq![name];
    let joint = seq![fused];
    assert(name[0] != STAR && front[0] != STAR);
    assert(fused[0] == front[0]);
    assert(name != double_star() && fused != double_star());
    lemma_parts_match_around(ahead, behind, candidate);
    assert(parts_of_texts(ahead).push(Part::AnyDirs) + parts_of_texts(behind) =~= spanning);
    lemma_parts_match_names(joint, candidate);
    assert(parts_of_texts(joint) =~= zero);
    let names = path_names(candidate);
    if names.len() >= 2 {
        assert(accept_from(ahead, names, 0) <==> matches_path(star, rule_reading(), names[0])) by {
            assert(ahead[0] == star);
            assert(names[0int + 0int] == names[0]);
        }
        assert(accept_from(behind, names, names.len() - 1) <==> matches_path(
            name,
            rule_reading(),
            names.last(),
        )) by {
            assert(behind[0] == name);
            assert(names[names.len() - 1 + 0] == names.last());
        }
    }
    if names.len() == 1 {
        assert(accept_from(joint, names, 0) <==> matches_path(fused, rule_reading(), names[0])) by {
            assert(joint[0] == fused);
            assert(names[0int + 0int] == names[0]);
        }
    }
    if compile_failure(star, false, false, false) is None && compile_failure(
        name,
        false,
        false,
        false,
    ) is None {
        assert(rule_of_line(line, false) is Some);
    }
}

proof fn lemma_literal_is_open_text(name: Seq<u8>)
    requires
        is_literal_name(name),
    ensures
        is_literal_text(name),
{
}

/// A backslash in front of the first byte of a rule makes that byte literal,
/// whatever it would start otherwise: a comment, a negation or a wildcard.
#[verifier::rlimit(40)]
pub proof fn law_an_escaped_start_is_literal(
    byte: u8,
    rest: Seq<u8>,
    candidate: Seq<u8>,
    is_dir: bool,
)
    requires
        byte != SLASH,
        is_literal_name(rest),
        rest.last() != SPACE,
    ensures
        ({
            let line = seq![BACKSLASH, byte] + rest;
            let verdict = verdict_of_line(line, candidate, is_dir);
            let names = path_names(candidate);
            let matched = names.len() > 0 && matches_path(line, rule_reading(), names.last());
            &&& verdict is Some ==> matched && verdict == Some(true)
            &&& matched && compile_failure(line, false, false, false) is None && occurs_in(
                candidate,
                seq![byte] + rest,
            ) ==> verdict == Some(true)
        }),
{
    let line = seq![BACKSLASH, byte] + rest;
    let len = line.len() as int;
    let none = Seq::<u8>::empty();
    lemma_literal_is_open(rest);
    assert forall|i: int| 2 <= i < len implies #[trigger] line[i] != SLASH && line[i]
        != BRACKET_OPEN && line[i] != BACKSLASH && line[i] != STAR && !is_wild(line[i]) by {
        assert(line[i] == rest[i - 2]);
    }
    assert(line.last() == rest.last());
    assert(rest[rest.len() - 1] != SLASH);
    assert(!line.contains(SLASH)) by {
        assert forall|i: int| 0 <= i < len implies line[i] != SLASH by {
            if i >= 2 {
                assert(line[i] != SLASH);
            }
        }
    }
    lemma_separator_behind(line, 2, len);
    lemma_open_text(rest);
    lemma_classes_behind(line, 2);
    assert(line.subrange(0, 2) + line.subrange(2, len) =~= line);
    lemma_collapsed_copies(line, 2, len);
    assert(collapsed(line, len) =~= none);
    assert(line.subrange(0, 2) + (line.subrange(2, len) + none) =~= line);
    assert(collapsed(line, 0) == line);
    assert(!is_whole_run(line)) by {
        assert(line[0] == BACKSLASH);
    }
    lemma_nothing_to_trim(line);
    lemma_plan_of_lone(line);
    let run = seq![byte] + rest;
    lemma_run_on(line, run, 2);
    assert(none.push(byte) =~= run.take(1));
    assert(literal_runs(line, 0, none) == literal_runs(line, 2, none.push(byte)));
    assert(seq![run].drop_first() =~= Seq::<Seq<u8>>::empty());
    reveal_with_fuel(first_longest, 2);
    let runs = seq![run];
    let plan = plan_of_line(line, false)->0;
    if let Some(bytes) = plan.gate {
        assert(runs[0] == run);
        assert(bytes == run);
    }
    lemma_double_star();
    lemma_lone_text(line, line, runs, candidate, is_dir);
    assert(occurs_in(candidate, run) ==> names_stand_in(runs, candidate));
}

proof fn lemma_run_on(line: Seq<u8>, run: Seq<u8>, from: int)
    requires
        2 <= from <= line.len(),
        run.len() == line.len() - 1,
        forall|i: int| 2 <= i < line.len() ==> !is_wild(#[trigger] line[i]),
        forall|i: int| 2 <= i < line.len() ==> #[trigger] line[i] == run[i - 1],
    ensures
        literal_runs(line, from, run.take(from - 1)) == seq![run],
    decreases line.len() - from,
{
    if from < line.len() {
        assert(!is_wild(line[from]));
        assert(line[from] == run[from - 1]);
        lemma_run_on(line, run, from + 1);
        assert(run.take(from - 1).push(line[from]) =~= run.take(from));
    } else {
        assert(run.take(from - 1) =~= run);
    }
}

proof fn lemma_classes_behind(part: Seq<u8>, from: int)
    requires
        0 <= from <= part.len(),
        forall|i: int|
            from <= i < part.len() ==> #[trigger] part[i] != BRACKET_OPEN && part[i] != BACKSLASH,
    ensures
        without_class_separators(part, from) == Some(part.subrange(from, part.len() as int)),
    decreases part.len() - from,
{
    let len = part.len() as int;
    if from < len {
        assert(part[from] != BRACKET_OPEN);
        lemma_classes_behind(part, from + 1);
        assert(seq![part[from]] + part.subrange(from + 1, len) =~= part.subrange(from, len));
    } else {
        assert(part.subrange(from, len) =~= Seq::empty());
    }
}

/// A rule that folds case is the same rule, but that it asks for no bytes in
/// advance: those would be told apart by their case.
#[verifier::rlimit(40)]
pub proof fn law_folding_changes_nothing_but_the_case(line: Seq<u8>)
    ensures
        match (rule_of_line(line, true), rule_of_line(line, false)) {
            (Some(folding), Some(exact)) => {
                &&& folding.gate is None
                &&& folding == (Plan { gate: None, ..exact })
            },
            (None, None) => true,
            _ => false,
        },
{
}

/// Whether `members` are letters and digits.
pub open spec fn are_members(members: Seq<u8>) -> bool {
    forall|i: int|
        0 <= i < members.len() ==> is_alphabetic(#[trigger] members[i]) || is_digit(members[i])
}

/// A text around one bracket class.
spec fn around_class(front: Seq<u8>, members: Seq<u8>, back: Seq<u8>) -> Seq<u8> {
    front.push(BRACKET_OPEN) + members.push(BRACKET_CLOSE) + back
}

proof fn lemma_separator_in_class(body: Seq<u8>, from: int, close: int, seen: bool)
    requires
        0 <= from <= close < body.len(),
        body[close] == BRACKET_CLOSE,
        seen || from < close,
        forall|i: int|
            from <= i < close ==> is_alphabetic(#[trigger] body[i]) || is_digit(body[i]) || body[i]
                == SLASH,
    ensures
        separator_from(body, from, true, seen) == separator_from(body, close + 1, false, true),
    decreases close - from,
{
    if from < close {
        let byte = body[from];
        assert(is_alphabetic(byte) || is_digit(byte) || byte == SLASH);
        lemma_separator_in_class(body, from + 1, close, true);
    }
}

proof fn lemma_members_in_class(body: Seq<u8>, from: int, close: int, seen: bool)
    requires
        0 <= from <= close < body.len(),
        body[close] == BRACKET_CLOSE,
        seen || from < close,
        forall|i: int|
            from <= i < close ==> is_alphabetic(#[trigger] body[i]) || is_digit(body[i]) || body[i]
                == SLASH,
    ensures
        class_members(body, from, seen).1 == Some(close),
        class_members(body, from, seen).0 == without_slashes(body.subrange(from, close)),
    decreases close - from,
{
    if from < close {
        let byte = body[from];
        assert(is_alphabetic(byte) || is_digit(byte) || byte == SLASH);
        lemma_members_in_class(body, from + 1, close, true);
        let rest = body.subrange(from, close);
        assert(rest.drop_first() =~= body.subrange(from + 1, close));
    } else {
        assert(body.subrange(from, close) =~= Seq::empty());
    }
}

/// The bytes of a text that are no separators.
spec fn without_slashes(text: Seq<u8>) -> Seq<u8>
    decreases text.len(),
{
    if text.len() == 0 {
        Seq::empty()
    } else if text[0] == SLASH {
        without_slashes(text.drop_first())
    } else {
        seq![text[0]] + without_slashes(text.drop_first())
    }
}

proof fn lemma_without_slashes(one: Seq<u8>, two: Seq<u8>)
    requires
        are_members(one),
        are_members(two),
    ensures
        without_slashes(one) == one,
        without_slashes(one.push(SLASH) + two) == one + two,
    decreases one.len(),
{
    let whole = one.push(SLASH) + two;
    if one.len() > 0 {
        let rest = one.drop_first();
        assert(is_alphabetic(one[0]) || is_digit(one[0]));
        assert forall|i: int| 0 <= i < rest.len() implies is_alphabetic(#[trigger] rest[i])
            || is_digit(rest[i]) by {
            assert(rest[i] == one[i + 1]);
        }
        lemma_without_slashes(rest, two);
        assert(whole.drop_first() =~= rest.push(SLASH) + two);
        assert(seq![one[0]] + rest =~= one);
        assert(seq![one[0]] + (rest + two) =~= one + two);
    } else {
        assert(whole.drop_first() =~= two);
        assert(one + two =~= two);
        if two.len() > 0 {
            lemma_members_stay(two);
        }
    }
}

proof fn lemma_members_stay(text: Seq<u8>)
    requires
        are_members(text),
    ensures
        without_slashes(text) == text,
    decreases text.len(),
{
    if text.len() > 0 {
        let rest = text.drop_first();
        assert(is_alphabetic(text[0]) || is_digit(text[0]));
        assert forall|i: int| 0 <= i < rest.len() implies is_alphabetic(#[trigger] rest[i])
            || is_digit(rest[i]) by {
            assert(rest[i] == text[i + 1]);
        }
        lemma_members_stay(rest);
        assert(seq![text[0]] + rest =~= text);
    }
}

/// What a text around one class becomes: one component, whose class holds its
/// members without the separators among them.
#[verifier::rlimit(40)]
proof fn lemma_around_class(front: Seq<u8>, inside: Seq<u8>, members: Seq<u8>, back: Seq<u8>)
    requires
        is_literal_text(front),
        is_literal_text(back),
        inside.len() > 0,
        forall|i: int|
            0 <= i < inside.len() ==> is_alphabetic(#[trigger] inside[i]) || is_digit(inside[i])
                || inside[i] == SLASH,
        without_slashes(inside) == members,
        members.len() > 0,
    ensures
        ({
            let body = around_class(front, inside, back);
            &&& separator_from(body, 0, false, false) == body.len()
            &&& without_class_separators(body, 0) == Some(around_class(front, members, back))
        }),
{
    let body = around_class(front, inside, back);
    let at = front.len() as int;
    let close = at + 1 + inside.len();
    let len = body.len() as int;
    lemma_literal_text(front);
    lemma_literal_text(back);
    assert(body[at] == BRACKET_OPEN);
    assert(body[close] == BRACKET_CLOSE);
    assert forall|i: int| 0 <= i < at implies #[trigger] body[i] != SLASH && body[i] != BRACKET_OPEN
        && body[i] != BACKSLASH by {
        assert(body[i] == front[i]);
        assert(!is_wild(front[i]));
    }
    assert forall|i: int| close < i < len implies #[trigger] body[i] != SLASH && body[i]
        != BRACKET_OPEN && body[i] != BACKSLASH by {
        assert(body[i] == back[i - close - 1]);
        assert(!is_wild(back[i - close - 1]));
    }
    assert forall|i: int| at < i < close implies is_alphabetic(#[trigger] body[i]) || is_digit(
        body[i],
    ) || body[i] == SLASH by {
        assert(body[i] == inside[i - at - 1]);
    }
    assert(is_alphabetic(body[at + 1]) || is_digit(body[at + 1]) || body[at + 1] == SLASH);
    assert(!negates(body, at + 1));
    lemma_separator_outside(body, close + 1, len, true);
    lemma_separator_in_class(body, at + 1, close, false);
    lemma_separator_up_to(body, 0, at);

    lemma_members_in_class(body, at + 1, close, false);
    assert(body.subrange(at + 1, close) =~= inside);
    lemma_classes_behind(body, close + 1);
    assert(body.subrange(close + 1, len) =~= back);
    let opening = class_opening(body, at);
    assert(opening =~= seq![BRACKET_OPEN]);
    let tail = (opening + members).push(BRACKET_CLOSE) + back;
    assert(without_class_separators(body, at) == Some(tail));
    lemma_classes_up_to(body, 0, at);
    assert(body.subrange(0, at) =~= front);
    assert(front + tail =~= around_class(front, members, back));
}

proof fn lemma_separator_up_to(body: Seq<u8>, from: int, at: int)
    requires
        0 <= from <= at <= body.len(),
        forall|i: int|
            from <= i < at ==> #[trigger] body[i] != SLASH && body[i] != BRACKET_OPEN && body[i]
                != BACKSLASH,
    ensures
        separator_from(body, from, false, false) == separator_from(body, at, false, false),
    decreases at - from,
{
    if from < at {
        assert(body[from] != SLASH);
        lemma_separator_up_to(body, from + 1, at);
    }
}

proof fn lemma_classes_up_to(body: Seq<u8>, from: int, at: int)
    requires
        0 <= from <= at <= body.len(),
        forall|i: int|
            from <= i < at ==> #[trigger] body[i] != SLASH && body[i] != BRACKET_OPEN && body[i]
                != BACKSLASH,
        without_class_separators(body, at) is Some,
    ensures
        without_class_separators(body, from) == Some(
            body.subrange(from, at) + without_class_separators(body, at)->0,
        ),
    decreases at - from,
{
    let tail = without_class_separators(body, at)->0;
    if from < at {
        assert(body[from] != SLASH);
        lemma_classes_up_to(body, from + 1, at);
        assert(seq![body[from]] + (body.subrange(from + 1, at) + tail) =~= body.subrange(from, at)
            + tail);
    } else {
        assert(body.subrange(from, at) + tail =~= tail);
    }
}

/// A separator inside a bracket class anchors the rule and matches nothing: the
/// rule is what it is with the separator in front of it instead.
#[verifier::spinoff_prover]
#[verifier::rlimit(60)]
pub proof fn law_a_separator_in_a_class_only_anchors(
    front: Seq<u8>,
    one: Seq<u8>,
    two: Seq<u8>,
    back: Seq<u8>,
    candidate: Seq<u8>,
    is_dir: bool,
)
    requires
        is_literal_text(front),
        is_literal_text(back),
        are_members(one),
        are_members(two),
        one.len() > 0 || two.len() > 0,
        front.len() > 0 ==> front[0] != BANG && front[0] != HASH,
        back.len() > 0 ==> back.last() != SPACE,
    ensures
        verdict_of_line(
            front.push(BRACKET_OPEN) + (one.push(SLASH) + two).push(BRACKET_CLOSE) + back,
            candidate,
            is_dir,
        ) == verdict_of_line(
            seq![SLASH] + (front.push(BRACKET_OPEN) + (one + two).push(BRACKET_CLOSE) + back),
            candidate,
            is_dir,
        ),
{
    let inside = one.push(SLASH) + two;
    let members = one + two;
    let dead = around_class(front, inside, back);
    let live = around_class(front, members, back);
    let line = seq![SLASH] + live;
    assert forall|i: int| 0 <= i < inside.len() implies is_alphabetic(#[trigger] inside[i])
        || is_digit(inside[i]) || inside[i] == SLASH by {
        if i < one.len() {
            assert(inside[i] == one[i]);
        } else if i > one.len() {
            assert(inside[i] == two[i - one.len() - 1]);
        }
    }
    assert forall|i: int| 0 <= i < members.len() implies is_alphabetic(#[trigger] members[i])
        || is_digit(members[i]) by {
        if i < one.len() {
            assert(members[i] == one[i]);
        } else {
            assert(members[i] == two[i - one.len()]);
        }
    }
    lemma_without_slashes(one, two);
    lemma_members_stay(members);
    lemma_around_class(front, inside, members, back);
    lemma_around_class(front, members, members, back);
    lemma_literal_text(back);
    lemma_literal_text(front);
    let at = front.len() as int;
    assert(dead[at + 1 + one.len()] == SLASH);
    assert(dead.contains(SLASH));
    assert(line[0] == SLASH);
    assert(line.contains(SLASH));
    assert(line.skip(1) =~= live);
    assert(dead[0] != SLASH) by {
        if at > 0 {
            assert(dead[0] == front[0]);
        } else {
            assert(dead[0] == BRACKET_OPEN);
        }
    }
    assert(dead[0] != BANG && dead[0] != HASH) by {
        if at > 0 {
            assert(dead[0] == front[0]);
        } else {
            assert(dead[0] == BRACKET_OPEN);
        }
    }
    assert(dead.last() == live.last() && line.last() == live.last()) by {
        if back.len() > 0 {
            assert(dead.last() == back.last());
            assert(live.last() == back.last());
        } else {
            assert(dead.last() == BRACKET_CLOSE);
            assert(live.last() == BRACKET_CLOSE);
        }
    }
    assert(live.last() != SPACE && live.last() != SLASH && live.last() != BACKSLASH) by {
        if back.len() > 0 {
            assert(live.last() == back[back.len() - 1]);
            assert(!is_wild(back[back.len() - 1]));
        } else {
            assert(live.last() == BRACKET_CLOSE);
        }
    }
    lemma_plan_of_line_of(dead, false, false);
    lemma_plan_of_line_of(line, false, false);
    let one_part = rule_components(dead, 0);
    let other_part = rule_components(live, 0);
    assert(dead.subrange(0, dead.len() as int) =~= dead);
    assert(live.subrange(0, live.len() as int) =~= live);
    assert(one_part =~= seq![dead]);
    assert(other_part =~= seq![live]);
    assert(component_texts(one_part) =~= seq![live]);
    assert(component_texts(other_part) =~= seq![live]);
    assert(!has_empty(one_part) && !has_empty(other_part)) by {
        assert(one_part[0].len() > 0 && other_part[0].len() > 0);
    }
    assert(!has_unmatchable(one_part) && !has_unmatchable(other_part)) by {
        assert(without_class_separators(one_part[0], 0) is Some);
        assert(without_class_separators(other_part[0], 0) is Some);
    }
}

/// The plan of an anchored rule that is one name and two stars at its end.
#[verifier::spinoff_prover]
#[verifier::rlimit(60)]
proof fn lemma_plan_of_lone_suffix(front: Seq<u8>)
    requires
        is_literal_name(front),
    ensures
        ({
            let plan = plan_of_line(seq![SLASH] + front + seq![STAR, STAR], false);
            &&& plan is Some
            &&& plan->0.components == seq![Part::Text(front.push(STAR)), Part::AnyDirs]
            &&& plan->0.zero == Some(seq![Part::Text(front)])
            &&& !plan->0.negated
            &&& !plan->0.directory_only
            &&& plan->0.gate is Some ==> plan->0.gate->0 == front
        }),
{
    let none = Seq::<u8>::empty();
    let first = front + double_star() + none;
    let texts = seq![first];
    let line = seq![SLASH] + front + seq![STAR, STAR];
    lemma_literal_is_open(front);
    lemma_literal_is_open_text(front);
    assert(is_literal_text(none));
    lemma_around_star(front, double_star(), STAR, none);
    assert(is_open_text(texts[0]));
    assert(are_open_texts(texts));
    assert(slashed(texts) == first);
    assert(seq![SLASH] + first =~= line);
    assert(line[0] == SLASH);
    assert(line.last() == STAR);
    lemma_plan_of_line_of(line, false, false);
    lemma_plan_of_slashed(texts, true, false, false);
    assert(has_wild(first)) by {
        assert(first[front.len() as int] == STAR);
    }
    lemma_no_wild_from(texts, 0, 0);
    assert(first[0] == front[0]);
    assert(!only_stars(first));
    let len = first.len() as int;
    assert(first[len - 1] == STAR && first[len - 2] == STAR);
    assert(first[len - 3] == front[front.len() - 1]);
    reveal_with_fuel(final_stars, 3);
    assert(final_stars(first, len) == len - 2);
    assert(first.take(len - 2) =~= front);
    assert(special_prefix(first) == Some(front));
    assert(star_run_of(texts, true) == Some(0int));
    reveal_with_fuel(after_runs, 2);
    reveal_with_fuel(spanning_form, 2);
    reveal_with_fuel(zero_form, 2);
    assert(after_runs(texts, 1) == 1);
    let star = front.push(STAR);
    assert(front + seq![STAR] + none =~= star);
    assert(part_of(first) == Part::Text(star));
    let spanning = spanning_form(texts, true, Some(0int), 1);
    assert(spanning =~= seq![Part::Text(star), Part::AnyDirs]);
    lemma_open_text(front);
    assert(fused_text(texts, 0) == front);
    let zero = zero_form(texts, true, 0, 1);
    assert(zero =~= seq![Part::Text(front)]);
    let plan = plan_of_line(line, false)->0;
    reveal_with_fuel(gate_of, 2);
    lemma_longest_of_two(front, none);
    if let Some(bytes) = plan.gate {
        assert(bytes == front);
    }
}

#[verifier::rlimit(40)]
proof fn lemma_suffix_forms(front: Seq<u8>, candidate: Seq<u8>)
    requires
        is_literal_name(front),
    ensures
        ({
            let names = path_names(candidate);
            &&& parts_match(
                seq![Part::Text(front.push(STAR)), Part::AnyDirs],
                false,
                candidate,
            ) <==> names.len() >= 1 && matches_path(front.push(STAR), rule_reading(), names[0])
            &&& parts_match(seq![Part::Text(front)], false, candidate) <==> names.len() == 1
                && matches_path(front, rule_reading(), names[0])
        }),
{
    let star = front.push(STAR);
    lemma_literal_is_open(front);
    lemma_double_star();
    assert(front[0] != STAR);
    assert(star[0] == front[0]);
    let none = Seq::<Seq<u8>>::empty();
    let ahead = seq![star];
    let alone = seq![front];
    lemma_parts_match_around(ahead, none, candidate);
    assert(parts_of_texts(ahead).push(Part::AnyDirs) + parts_of_texts(none) =~= seq![
        Part::Text(star),
        Part::AnyDirs,
    ]);
    lemma_parts_match_names(alone, candidate);
    assert(parts_of_texts(alone) =~= seq![Part::Text(front)]);
    let names = path_names(candidate);
    if names.len() >= 1 {
        assert(accept_from(ahead, names, 0) <==> matches_path(star, rule_reading(), names[0])) by {
            assert(ahead[0] == star);
            assert(names[0int + 0int] == names[0]);
        }
        assert(accept_from(alone, names, 0) <==> matches_path(front, rule_reading(), names[0])) by {
            assert(alone[0] == front);
            assert(names[0int + 0int] == names[0]);
        }
    }
}

/// An anchored rule that is one name with two stars at its end matches what the
/// name and a star match, and everything below it, and the name alone.
#[verifier::spinoff_prover]
#[verifier::rlimit(100)]
pub proof fn law_stars_at_the_end_of_an_anchored_name_go_all_the_way_down(
    front: Seq<u8>,
    candidate: Seq<u8>,
    is_dir: bool,
)
    requires
        is_literal_name(front),
    ensures
        ({
            let line = seq![SLASH] + front + seq![STAR, STAR];
            let verdict = verdict_of_line(line, candidate, is_dir);
            let names = path_names(candidate);
            let spanned = names.len() >= 1 && matches_path(
                front.push(STAR),
                rule_reading(),
                names[0],
            );
            let alone = names.len() == 1 && matches_path(front, rule_reading(), names[0]);
            &&& verdict is Some ==> (spanned || alone) && verdict == Some(true)
            &&& (spanned || alone) && compile_failure(front.push(STAR), false, false, false) is None
                && compile_failure(front, false, false, false) is None && occurs_in(
                candidate,
                front,
            ) ==> verdict == Some(true)
        }),
{
    let line = seq![SLASH] + front + seq![STAR, STAR];
    let star = front.push(STAR);
    lemma_plan_of_lone_suffix(front);
    lemma_literal_is_open(front);
    lemma_double_star();
    assert(front[0] != STAR);
    assert(star[0] == front[0]);
    let plan = plan_of_line(line, false)->0;
    lemma_suffix_forms(front, candidate);
    let components = seq![Part::Text(star), Part::AnyDirs];
    let zero = seq![Part::Text(front)];
    assert(all_compile(components) == (compile_failure(star, false, false, false) is None)) by {
        assert(components[0] == Part::Text(star));
    }
    assert(all_compile(zero) == (compile_failure(front, false, false, false) is None)) by {
        assert(zero[0] == Part::Text(front));
    }
    assert(plan.components == components && plan.zero == Some(zero));
    assert(rule_of_line(line, false) == compiled_plan(plan));
}

/// A space at the end of a rule that a backslash stands in front of is part of
/// the rule.
#[verifier::rlimit(40)]
pub proof fn law_an_escaped_final_space_counts(
    name: Seq<u8>,
    candidate: Seq<u8>,
    is_dir: bool,
)
    requires
        is_literal_name(name),
        name[0] != BANG && name[0] != HASH,
    ensures
        ({
            let line = name + seq![BACKSLASH, SPACE];
            let verdict = verdict_of_line(line, candidate, is_dir);
            let names = path_names(candidate);
            let matched = names.len() > 0 && matches_path(line, rule_reading(), names.last());
            &&& verdict_of_line(line.push(SPACE), candidate, is_dir) == verdict
            &&& verdict is Some ==> matched && verdict == Some(true)
            &&& matched && compile_failure(line, false, false, false) is None && occurs_in(
                candidate,
                name.push(SPACE),
            ) ==> verdict == Some(true)
        }),
{
    let line = name + seq![BACKSLASH, SPACE];
    let at = name.len() as int;
    let len = line.len() as int;
    let none = Seq::<u8>::empty();
    let run = name.push(SPACE);
    lemma_literal_is_open(name);
    lemma_literal_bytes(name);
    assert(line[at] == BACKSLASH && line[at + 1] == SPACE);
    assert forall|i: int| 0 <= i < at implies #[trigger] line[i] != SLASH && line[i]
        != BRACKET_OPEN && line[i] != BACKSLASH && line[i] != STAR && !is_wild(line[i]) by {
        assert(line[i] == name[i]);
    }
    assert(line.drop_last() =~= name.push(BACKSLASH));
    assert(name.push(BACKSLASH).drop_last() =~= name);
    assert(name[at - 1] != BACKSLASH);
    assert(backslashes_at_end(name) == 0);
    reveal_with_fuel(backslashes_at_end, 2);
    assert(backslashes_at_end(name.push(BACKSLASH)) == 1);
    assert(without_trailing_spaces(line) == line);
    let longer = line.push(SPACE);
    assert(longer.drop_last() =~= line);
    assert(backslashes_at_end(line) == 0);
    assert(without_trailing_spaces(longer) == line);
    assert(line[0] == name[0] && longer[0] == name[0]);
    assert(plan_of_line(longer, false) == plan_of_line(line, false));
    assert(!line.contains(SLASH)) by {
        assert forall|i: int| 0 <= i < len implies line[i] != SLASH by {
            if i < at {
                assert(line[i] != SLASH);
            }
        }
    }
    lemma_separator_up_to(line, 0, at);
    assert(separator_from(line, at, false, false) == len);
    assert(without_class_separators(line, len) == Some(none));
    assert(line.subrange(at, at + 2) + none =~= line.subrange(at, len));
    assert(without_class_separators(line, at) == Some(line.subrange(at, len)));
    lemma_classes_up_to(line, 0, at);
    assert(line.subrange(0, at) + line.subrange(at, len) =~= line);
    lemma_collapsed_copies(line, 0, at);
    assert(collapsed(line, len) =~= none);
    assert(collapsed(line, at) =~= line.subrange(at, len));
    assert(collapsed(line, 0) == line);
    assert(!is_whole_run(line)) by {
        assert(line[0] == name[0]);
        assert(!is_wild(name[0]));
    }
    lemma_plan_of_lone(line);
    lemma_run_in_front(line, 0, at);
    assert(line.take(0) =~= none);
    assert(line.take(at) =~= name);
    assert(literal_runs(line, at, name) == literal_runs(line, len, run));
    assert(literal_runs(line, 0, none) == seq![run]);
    assert(seq![run].drop_first() =~= Seq::<Seq<u8>>::empty());
    reveal_with_fuel(first_longest, 2);
    let runs = seq![run];
    let plan = plan_of_line(line, false)->0;
    if let Some(bytes) = plan.gate {
        assert(runs[0] == run);
        assert(bytes == run);
    }
    lemma_double_star();
    assert(line != double_star());
    lemma_lone_text(line, line, runs, candidate, is_dir);
    assert(occurs_in(candidate, run) ==> names_stand_in(runs, candidate));
}

/// A bracket class: what negates it, a closing bracket that comes first, and
/// its other members.
pub open spec fn class_of(negation: Seq<u8>, closing: bool, members: Seq<u8>) -> Seq<u8> {
    seq![BRACKET_OPEN] + negation + (if closing {
        seq![BRACKET_CLOSE]
    } else {
        Seq::empty()
    }) + members.push(BRACKET_CLOSE)
}

#[verifier::spinoff_prover]
#[verifier::rlimit(60)]
proof fn lemma_class_text(
    front: Seq<u8>,
    negation: Seq<u8>,
    closing: bool,
    members: Seq<u8>,
    back: Seq<u8>,
)
    requires
        is_literal_text(front),
        is_literal_text(back),
        negation.len() == 0 || negation == seq![BANG] || negation == seq![CARET],
        are_members(members),
        members.len() > 0,
    ensures
        ({
            let class = class_of(negation, closing, members);
            let line = front + class + back;
            &&& class[0] == BRACKET_OPEN
            &&& class.last() == BRACKET_CLOSE
            &&& line[front.len() as int] == BRACKET_OPEN
            &&& !line.contains(SLASH)
            &&& separator_from(line, 0, false, false) == line.len()
            &&& without_class_separators(line, 0) == Some(line)
            &&& collapsed(line, 0) == line
            &&& !is_whole_run(line)
        }),
{
    let class = class_of(negation, closing, members);
    let line = front + class + back;
    let at = front.len() as int;
    let close = at + class.len() - 1;
    let len = line.len() as int;
    let none = Seq::<u8>::empty();
    lemma_literal_text(front);
    lemma_literal_text(back);
    assert(class[0] == BRACKET_OPEN);
    let start = negation.len() as int + (if closing {
        2int
    } else {
        1int
    });
    assert(class.len() == start + members.len() + 1);
    assert forall|i: int| start <= i < class.len() - 1 implies #[trigger] class[i] == members[i
        - start] by {}
    assert(class[class.len() - 1] == BRACKET_CLOSE);
    assert forall|i: int| 0 < i < class.len() implies #[trigger] class[i] != SLASH && class[i]
        != BACKSLASH && class[i] != STAR && class[i] != BRACKET_OPEN && class[i] != COLON by {
        if start <= i < class.len() - 1 {
            assert(class[i] == members[i - start]);
            assert(is_alphabetic(members[i - start]) || is_digit(members[i - start]));
        }
    }
    assert forall|i: int| 0 <= i < len implies #[trigger] line[i] != SLASH && line[i] != BACKSLASH
        && line[i] != STAR && (line[i] == BRACKET_OPEN <==> i == at) by {
        if i < at {
            assert(line[i] == front[i]);
            assert(!is_wild(front[i]));
        } else if i <= close {
            assert(line[i] == class[i - at]);
        } else {
            assert(line[i] == back[i - close - 1]);
            assert(!is_wild(back[i - close - 1]));
        }
    }
    assert(!line.contains(SLASH));
    assert(line[at + 1] == class[1]);
    assert forall|i: int| 0 <= i < len implies !#[trigger] class_name_opens(line, i) by {
        assert(line[i] == BRACKET_OPEN <==> i == at);
    }
    lemma_plain_component(line, 0);
    assert(line.subrange(0, len) =~= line);
    lemma_no_separator(line, 0, false, false);
    lemma_collapsed_copies(line, 0, len);
    assert(collapsed(line, len) =~= none);
    assert(line + none =~= line);
    assert(!is_whole_run(line)) by {
        assert(line[0] != STAR);
    }
}

#[verifier::spinoff_prover]
#[verifier::rlimit(60)]
proof fn lemma_class_runs(
    front: Seq<u8>,
    negation: Seq<u8>,
    closing: bool,
    members: Seq<u8>,
    back: Seq<u8>,
)
    requires
        is_literal_text(front),
        is_literal_text(back),
        negation.len() == 0 || negation == seq![BANG] || negation == seq![CARET],
        are_members(members),
        members.len() > 0,
    ensures
        literal_runs(front + class_of(negation, closing, members) + back, 0, Seq::empty()) == seq![
            front,
            back,
        ],
{
    let class = class_of(negation, closing, members);
    let line = front + class + back;
    let at = front.len() as int;
    let close = at + class.len() - 1;
    let len = line.len() as int;
    let none = Seq::<u8>::empty();
    lemma_literal_text(front);
    lemma_literal_text(back);
    assert(class[0] == BRACKET_OPEN);
    let start = negation.len() as int + (if closing {
        2int
    } else {
        1int
    });
    assert(class.len() == start + members.len() + 1);
    assert forall|i: int| start <= i < class.len() - 1 implies #[trigger] class[i] == members[i
        - start] by {}
    assert(class[class.len() - 1] == BRACKET_CLOSE);
    assert forall|i: int| 0 < i < class.len() implies #[trigger] class[i] != SLASH && class[i]
        != BACKSLASH && class[i] != STAR && class[i] != BRACKET_OPEN && class[i] != COLON by {
        if start <= i < class.len() - 1 {
            assert(class[i] == members[i - start]);
            assert(is_alphabetic(members[i - start]) || is_digit(members[i - start]));
        }
    }
    assert forall|i: int| 0 <= i < len implies #[trigger] line[i] != SLASH && line[i] != BACKSLASH
        && line[i] != STAR && (line[i] == BRACKET_OPEN <==> i == at) by {
        if i < at {
            assert(line[i] == front[i]);
            assert(!is_wild(front[i]));
        } else if i <= close {
            assert(line[i] == class[i - at]);
        } else {
            assert(line[i] == back[i - close - 1]);
            assert(!is_wild(back[i - close - 1]));
        }
    }
    assert(!line.contains(SLASH));
    assert(line[at + 1] == class[1]);
    assert forall|i: int| 0 <= i < len implies !#[trigger] class_name_opens(line, i) by {
        assert(line[i] == BRACKET_OPEN <==> i == at);
    }
    lemma_run_in_front(line, 0, at);
    assert(line.take(0) =~= none);
    assert(line.take(at) =~= front);
    assert(negates(line, at + 1) <==> negation.len() > 0) by {
        if negation.len() > 0 {
            assert(class[1] == negation[0]);
        } else if !closing {
            assert(class[1] == members[0]);
            assert(is_alphabetic(members[0]) || is_digit(members[0]));
        } else {
            assert(class[1] == BRACKET_CLOSE);
        }
    }
    let inside = at + 1 + negation.len();
    assert(line[inside] == class[1 + negation.len() as int]);
    assert(closing <==> line[inside] == BRACKET_CLOSE) by {
        if !closing {
            assert(class[start] == members[0]);
            assert(is_alphabetic(members[0]) || is_digit(members[0]));
        } else {
            assert(class[1 + negation.len() as int] == BRACKET_CLOSE);
        }
    }
    assert(class_scan_start(line, at) == at + start);
    assert forall|i: int| at + start <= i < close implies #[trigger] line[i] != BRACKET_CLOSE
        && line[i] != BACKSLASH && line[i] != BRACKET_OPEN by {
        assert(line[i] == class[i - at]);
        assert(class[i - at] == members[i - at - start]);
        assert(is_alphabetic(members[i - at - start]) || is_digit(members[i - at - start]));
    }
    assert(line[close] == class[class.len() - 1]);
    lemma_class_closes(line, at + start, close);
    assert(after_class(line, at) == close + 1);
    assert forall|i: int| close + 1 <= i < len implies !is_wild(#[trigger] line[i]) by {
        assert(line[i] == back[i - close - 1]);
    }
    lemma_last_run(line, close + 1, close + 1);
    assert(line.subrange(close + 1, close + 1) =~= none);
    assert(line.subrange(close + 1, len) =~= back);
    assert(literal_runs(line, at, front) == seq![front] + literal_runs(line, close + 1, none));
    assert(seq![front] + seq![back] =~= seq![front, back]);
}

/// A rule with one bracket class, and no separator, matches what its text
/// matches: the last name of a candidate, on any level. It asks no more of a
/// candidate than that the text on either side of the class stands in it,
/// whether the class is negated and whether it starts with a closing bracket.
#[verifier::spinoff_prover]
#[verifier::rlimit(40)]
pub proof fn law_a_class_rule_matches_what_its_text_matches(
    front: Seq<u8>,
    negation: Seq<u8>,
    closing: bool,
    members: Seq<u8>,
    back: Seq<u8>,
    candidate: Seq<u8>,
    is_dir: bool,
)
    requires
        is_literal_text(front),
        is_literal_text(back),
        negation.len() == 0 || negation == seq![BANG] || negation == seq![CARET],
        are_members(members),
        members.len() > 0,
        front.len() > 0 ==> front[0] != BANG && front[0] != HASH,
        back.len() > 0 ==> back.last() != SPACE,
    ensures
        ({
            let line = front + class_of(negation, closing, members) + back;
            let verdict = verdict_of_line(line, candidate, is_dir);
            let names = path_names(candidate);
            let matched = names.len() > 0 && matches_path(line, rule_reading(), names.last());
            &&& verdict is Some ==> matched && verdict == Some(true)
            &&& matched && compile_failure(line, false, false, false) is None && occurs_in(
                candidate,
                front,
            ) && occurs_in(candidate, back) ==> verdict == Some(true)
        }),
{
    let class = class_of(negation, closing, members);
    let line = front + class + back;
    let at = front.len() as int;
    lemma_class_text(front, negation, closing, members, back);
    lemma_class_runs(front, negation, closing, members, back);
    lemma_class_line_ends(line, front, class, back);
    lemma_nothing_to_trim(line);
    lemma_plan_of_lone(line);
    let runs = seq![front, back];
    lemma_longest_of_two(front, back);
    let plan = plan_of_line(line, false)->0;
    if let Some(bytes) = plan.gate {
        assert(runs[0] == front && runs[1] == back);
        assert(bytes == front || bytes == back);
    }
    lemma_double_star();
    assert(line != double_star()) by {
        assert(line[at] == BRACKET_OPEN);
    }
    lemma_lone_text(line, line, runs, candidate, is_dir);
    assert(occurs_in(candidate, front) && occurs_in(candidate, back) ==> names_stand_in(
        runs,
        candidate,
    ));
}

proof fn lemma_class_line_ends(line: Seq<u8>, front: Seq<u8>, class: Seq<u8>, back: Seq<u8>)
    requires
        line == front + class + back,
        class.len() > 0,
        class[0] == BRACKET_OPEN,
        class.last() == BRACKET_CLOSE,
        is_literal_text(back),
        front.len() > 0 ==> front[0] != BANG && front[0] != HASH,
        back.len() > 0 ==> back.last() != SPACE,
    ensures
        line[0] != HASH && line[0] != BANG,
        line.last() != SPACE && line.last() != SLASH && line.last() != BACKSLASH,
{
    lemma_literal_text(back);
    if front.len() > 0 {
        assert(line[0] == front[0]);
    } else {
        assert(line[0] == class[0]);
    }
    if back.len() > 0 {
        assert(line.last() == back[back.len() - 1]);
        assert(!is_wild(back[back.len() - 1]));
    } else {
        assert(line.last() == class.last());
    }
}

proof fn lemma_class_closes(part: Seq<u8>, from: int, close: int)
    requires
        0 <= from <= close < part.len(),
        part[close] == BRACKET_CLOSE,
        forall|i: int|
            from <= i < close ==> #[trigger] part[i] != BRACKET_CLOSE && part[i] != BACKSLASH
                && part[i] != BRACKET_OPEN,
    ensures
        class_close(part, from) == close,
    decreases close - from,
{
    if from < close {
        assert(part[from] != BRACKET_CLOSE);
        lemma_class_closes(part, from + 1, close);
    }
}

/// A class of nothing but separators matches nothing, and takes its rule with
/// it. Negated it matches anything, as a `?` does.
#[verifier::spinoff_prover]
#[verifier::rlimit(60)]
pub proof fn law_a_class_of_separators_matches_nothing_or_anything(
    front: Seq<u8>,
    back: Seq<u8>,
    candidate: Seq<u8>,
    is_dir: bool,
)
    requires
        is_literal_text(front),
        is_literal_text(back),
        front.len() > 0 ==> front[0] != BANG && front[0] != HASH,
        back.len() > 0 ==> back.last() != SPACE,
    ensures
        verdict_of_line(
            front + seq![BRACKET_OPEN, SLASH, BRACKET_CLOSE] + back,
            candidate,
            is_dir,
        ) is None,
        verdict_of_line(
            front + seq![BRACKET_OPEN, BANG, SLASH, BRACKET_CLOSE] + back,
            candidate,
            is_dir,
        ) == verdict_of_line(seq![SLASH] + front + seq![QUESTION] + back, candidate, is_dir),
{
    let plain = seq![BRACKET_OPEN, SLASH, BRACKET_CLOSE];
    let turned = seq![BRACKET_OPEN, BANG, SLASH, BRACKET_CLOSE];
    let dead = front + plain + back;
    let any = front + turned + back;
    let live = front + seq![QUESTION] + back;
    let at = front.len() as int;
    lemma_literal_text(front);
    lemma_literal_text(back);

    lemma_dead_class(front, plain, back, 1);
    lemma_class_line_ends(dead, front, plain, back);
    lemma_plan_of_line_of(dead, false, false);
    assert(dead.contains(dead[at + 1]));
    assert(dead[0] != SLASH) by {
        if at > 0 {
            assert(dead[0] == front[0]);
        }
    }
    let parts = rule_components(dead, 0);
    assert(dead.subrange(0, dead.len() as int) =~= dead);
    assert(parts =~= seq![dead]);
    assert(without_class_separators(parts[0], 0) is None);
    assert(has_unmatchable(parts));
    assert(plan_of_line(dead, false) is None);

    lemma_dead_class(front, turned, back, 2);
    lemma_class_line_ends(any, front, turned, back);
    lemma_plan_of_line_of(any, false, false);
    assert(any[at + 2] == SLASH);
    assert(any.contains(any[at + 2]));
    assert(any[0] != SLASH) by {
        if at > 0 {
            assert(any[0] == front[0]);
        }
    }
    let ones = rule_components(any, 0);
    assert(any.subrange(0, any.len() as int) =~= any);
    assert(ones =~= seq![any]);
    assert(without_class_separators(ones[0], 0) == Some(live));
    assert(component_texts(ones) =~= seq![live]);
    assert(!has_empty(ones)) by {
        assert(ones[0].len() > 0);
    }
    assert(!has_unmatchable(ones));
    let line = seq![SLASH] + live;
    assert(line =~= seq![SLASH] + front + seq![QUESTION] + back);
    let texts = seq![live];
    assert(is_open_text(live)) by {
        assert forall|i: int| 0 <= i < live.len() implies #[trigger] live[i] != SLASH && live[i]
            != BRACKET_OPEN && live[i] != BACKSLASH by {
            if i < at {
                assert(live[i] == front[i]);
                assert(!is_wild(front[i]));
            } else if i > at {
                assert(live[i] == back[i - at - 1]);
                assert(!is_wild(back[i - at - 1]));
            }
        }
    }
    assert(is_open_text(texts[0]));
    assert(are_open_texts(texts));
    assert(slashed(texts) == live);
    lemma_plan_of_slashed(texts, true, false, false);
    assert(line.last() == live.last());
    assert(live.last() != SPACE && live.last() != SLASH && live.last() != BACKSLASH) by {
        if back.len() > 0 {
            assert(live.last() == back[back.len() - 1]);
            assert(!is_wild(back[back.len() - 1]));
        } else {
            assert(live.last() == QUESTION);
        }
    }
    lemma_plan_of_line_of(line, false, false);
    assert(plan_of_line(any, false) == plan_of_line(line, false));
}

/// What a text around a class of one separator becomes.
#[verifier::rlimit(40)]
proof fn lemma_dead_class(front: Seq<u8>, class: Seq<u8>, back: Seq<u8>, opening: int)
    requires
        is_literal_text(front),
        is_literal_text(back),
        opening == 1 && class == seq![BRACKET_OPEN, SLASH, BRACKET_CLOSE] || opening == 2 && class
            == seq![BRACKET_OPEN, BANG, SLASH, BRACKET_CLOSE],
    ensures
        ({
            let body = front + class + back;
            &&& separator_from(body, 0, false, false) == body.len()
            &&& without_class_separators(body, 0) == (if opening == 2 {
                Some(front + seq![QUESTION] + back)
            } else {
                None
            })
        }),
{
    let body = front + class + back;
    let at = front.len() as int;
    let inside = at + opening;
    let close = inside + 1;
    let len = body.len() as int;
    lemma_literal_text(front);
    lemma_literal_text(back);
    assert(body[at] == BRACKET_OPEN);
    assert(body[inside] == SLASH);
    assert(body[close] == BRACKET_CLOSE);
    assert(body[at + 1] == class[1]);
    assert(negates(body, at + 1) <==> opening == 2);
    assert forall|i: int| 0 <= i < at implies #[trigger] body[i] != SLASH && body[i] != BRACKET_OPEN
        && body[i] != BACKSLASH by {
        assert(body[i] == front[i]);
        assert(!is_wild(front[i]));
    }
    assert forall|i: int| close < i < len implies #[trigger] body[i] != SLASH && body[i]
        != BRACKET_OPEN && body[i] != BACKSLASH by {
        assert(body[i] == back[i - close - 1]);
        assert(!is_wild(back[i - close - 1]));
    }
    lemma_separator_outside(body, close + 1, len, true);
    lemma_separator_in_class(body, inside, close, false);
    lemma_separator_up_to(body, 0, at);
    lemma_members_in_class(body, inside, close, false);
    let none = Seq::<u8>::empty();
    assert(body.subrange(inside, close) =~= seq![SLASH]);
    assert(seq![SLASH].drop_first() =~= none);
    reveal_with_fuel(without_slashes, 2);
    assert(without_slashes(seq![SLASH]) =~= none);
    assert(class_opening(body, at).len() == opening);
    lemma_classes_behind(body, close + 1);
    assert(body.subrange(close + 1, len) =~= back);
    if opening == 2 {
        let tail = seq![QUESTION] + back;
        assert(without_class_separators(body, at) == Some(tail));
        lemma_classes_up_to(body, 0, at);
        assert(body.subrange(0, at) =~= front);
        assert(front + tail =~= front + seq![QUESTION] + back);
    } else {
        assert(without_class_separators(body, at) is None);
        lemma_dead_up_to(body, 0, at);
    }
}

proof fn lemma_dead_up_to(body: Seq<u8>, from: int, at: int)
    requires
        0 <= from <= at <= body.len(),
        forall|i: int|
            from <= i < at ==> #[trigger] body[i] != SLASH && body[i] != BRACKET_OPEN && body[i]
                != BACKSLASH,
        without_class_separators(body, at) is None,
    ensures
        without_class_separators(body, from) is None,
    decreases at - from,
{
    if from < at {
        assert(body[from] != SLASH);
        lemma_dead_up_to(body, from + 1, at);
    }
}

} // verus!
