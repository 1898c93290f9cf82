//! Ignore files, read once per directory and linked into a chain.
//!
//! Every directory a walk enters links its own rules onto the chain it
//! inherited. The deepest rules with an opinion decide. An ignored directory
//! is not entered, so nothing below it can be re-admitted.
use std::sync::Arc;

use vstd::prelude::*;
use vstd::slice::{slice_subrange, slice_to_vec};

use crate::bytes::{
    begins_with, index_from, lemma_index_from, lemma_index_from_is, position_from, same, split_on,
    NEWLINE, NUL, RETURN, SLASH,
};
use crate::failure::{Failure, FailureKind};
use crate::git_config::{after_config, apply_config, without_return, GitConfig};
use crate::ignore_rules::{
    below, prefix_length, rule_of_line, verdict_of, RuleModel, RuleSet, RuleSetBuilder,
};
use crate::listing::{spells, Listing};
use crate::literal::Syntax;
use crate::paths::{law_the_start_depends_on_the_root_alone, push_name, pushed, pushed_start};
use crate::unicode::composed_path;

verus! {

/// A single ignore file may contribute at most this many rule lines.
pub const MAX_IGNORE_RULES: usize = 100_000;

/// Ignore and repository-metadata files are configuration, not bulk input.
pub const MAX_IGNORE_FILE_BYTES: usize = 8_388_608;

pub const TOO_MANY_RULES: &'static str = "ignore file exceeds the 100,000-rule safety limit";

pub const TOO_MANY_BYTES: &'static str = "configuration file exceeds the 8 MiB safety limit";

/// How many lines of the first `count` bytes are terminated.
pub open spec fn terminated_lines(file: Seq<u8>, count: int) -> int
    decreases count,
{
    if count <= 0 {
        0
    } else {
        terminated_lines(file, count - 1) + (if file[count - 1] == NEWLINE {
            1int
        } else {
            0int
        })
    }
}

/// How many lines a file has. The last one need not be terminated.
pub open spec fn line_count(file: Seq<u8>) -> int {
    terminated_lines(file, file.len() as int) + (if file.len() > 0 && file.last() != NEWLINE {
        1int
    } else {
        0int
    })
}

/// Refuses a file with more lines than a walk will compile.
pub fn validate_rule_count(file: &[u8]) -> (result: Result<(), Failure>)
    ensures
        match result {
            Ok(()) => line_count(file@) <= MAX_IGNORE_RULES,
            Err(error) => line_count(file@) > MAX_IGNORE_RULES && error.kind
                == FailureKind::InvalidData && error.message@ == TOO_MANY_RULES@,
        },
{
    let mut lines: usize = 0;
    let mut i: usize = 0;
    while i < file.len()
        invariant
            i <= file@.len(),
            lines <= i,
            lines == terminated_lines(file@, i as int),
        decreases file@.len() - i,
    {
        if file[i] == NEWLINE {
            lines += 1;
        }
        i += 1;
    }
    let unterminated = file.len() > 0 && file[file.len() - 1] != NEWLINE;
    if lines > MAX_IGNORE_RULES || (unterminated && lines == MAX_IGNORE_RULES) {
        return Err(Failure::new(FailureKind::InvalidData, TOO_MANY_RULES));
    }
    Ok(())
}

/// Refuses what was read of a configuration file where it is over the limit.
/// The caller reads one byte more than the limit at most.
pub fn read_bounded(file: Vec<u8>) -> (result: Result<Vec<u8>, Failure>)
    ensures
        match result {
            Ok(read) => file@.len() <= MAX_IGNORE_FILE_BYTES && read == file,
            Err(error) => file@.len() > MAX_IGNORE_FILE_BYTES && error.kind
                == FailureKind::InvalidData && error.message@ == TOO_MANY_BYTES@,
        },
{
    if file.len() > MAX_IGNORE_FILE_BYTES {
        return Err(Failure::new(FailureKind::InvalidData, TOO_MANY_BYTES));
    }
    Ok(file)
}

/// `file` without the byte order mark it may start with.
pub open spec fn without_mark(file: Seq<u8>) -> Seq<u8> {
    if file.len() >= 3 && file[0] == 0xef && file[1] == 0xbb && file[2] == 0xbf {
        file.skip(3)
    } else {
        file
    }
}

/// The rule a line holds: without a carriage return at its end, and no longer
/// than its first NUL.
pub open spec fn rule_text(line: Seq<u8>) -> Seq<u8> {
    let text = without_return(line);
    text.take(index_from(text, NUL, 0))
}

/// The rules of the first `count` lines.
pub open spec fn rules_of_lines(
    lines: Seq<Seq<u8>>,
    count: int,
    case_insensitive: bool,
) -> Seq<RuleModel>
    decreases count,
{
    if count <= 0 {
        Seq::empty()
    } else {
        let rules = rules_of_lines(lines, count - 1, case_insensitive);
        match rule_of_line(rule_text(lines[count - 1]), case_insensitive) {
            Some(plan) => rules.push(RuleModel { plan, case_insensitive }),
            None => rules,
        }
    }
}

/// The rules of an ignore file, in file order.
pub open spec fn rules_of_file(file: Seq<u8>, case_insensitive: bool) -> Seq<RuleModel> {
    let lines = split_on(without_mark(file), NEWLINE);
    rules_of_lines(lines, lines.len() as int, case_insensitive)
}

/// The rule of one line, if it holds one.
pub open spec fn rule_of(line: Seq<u8>, case_insensitive: bool) -> Seq<RuleModel> {
    match rule_of_line(rule_text(line), case_insensitive) {
        Some(plan) => seq![RuleModel { plan, case_insensitive }],
        None => Seq::empty(),
    }
}

/// The rules of a file's lines from `start` on.
spec fn rules_from(file: Seq<u8>, start: int, case_insensitive: bool) -> Seq<RuleModel> {
    let lines = split_on(file.skip(start), NEWLINE);
    rules_of_lines(lines, lines.len() as int, case_insensitive)
}

proof fn lemma_rules_of_lines_split(
    head: Seq<u8>,
    rest: Seq<Seq<u8>>,
    count: int,
    case_insensitive: bool,
)
    requires
        0 <= count <= rest.len(),
    ensures
        rules_of_lines(seq![head] + rest, count + 1, case_insensitive) == rule_of(
            head,
            case_insensitive,
        ) + rules_of_lines(rest, count, case_insensitive),
    decreases count,
{
    let all = seq![head] + rest;
    let first = rule_of(head, case_insensitive);
    if count > 0 {
        lemma_rules_of_lines_split(head, rest, count - 1, case_insensitive);
        assert(all[count] == rest[count - 1]);
        let before = rules_of_lines(rest, count - 1, case_insensitive);
        match rule_of_line(rule_text(rest[count - 1]), case_insensitive) {
            Some(plan) => {
                let rule = RuleModel { plan, case_insensitive };
                assert((first + before).push(rule) =~= first + before.push(rule));
            },
            None => {},
        }
    } else {
        assert(all[0] == head);
        assert(rules_of_lines(all, 0, case_insensitive) =~= Seq::empty());
        assert(rules_of_lines(all, 1, case_insensitive) =~= first);
        assert(first + Seq::<RuleModel>::empty() =~= first);
    }
}

proof fn lemma_next_line(file: Seq<u8>, start: int, case_insensitive: bool)
    requires
        0 <= start <= file.len(),
    ensures
        ({
            let at = index_from(file, NEWLINE, start);
            rules_from(file, start, case_insensitive) == rule_of(
                file.subrange(start, at),
                case_insensitive,
            ) + (if at < file.len() {
                rules_from(file, at + 1, case_insensitive)
            } else {
                Seq::empty()
            })
        }),
{
    let at = index_from(file, NEWLINE, start);
    let rest = file.skip(start);
    let whole = file.subrange(start, at);
    lemma_index_shift(file, start);
    lemma_index_from(file, NEWLINE, start);
    if at < file.len() {
        assert(rest.take(at - start) =~= whole);
        assert(rest.skip(at - start + 1) =~= file.skip(at + 1));
        let later = split_on(file.skip(at + 1), NEWLINE);
        lemma_rules_of_lines_split(whole, later, later.len() as int, case_insensitive);
        assert(split_on(rest, NEWLINE) == seq![whole] + later);
    } else {
        assert(whole =~= rest);
        let none = Seq::<Seq<u8>>::empty();
        lemma_rules_of_lines_split(whole, none, 0, case_insensitive);
        assert(seq![whole] + none =~= seq![whole]);
        assert(split_on(rest, NEWLINE) == seq![whole]);
        assert(rules_of_lines(none, 0, case_insensitive) =~= Seq::empty());
    }
}

/// The byte order mark a file may start with.
pub open spec fn byte_order_mark() -> Seq<u8> {
    seq![0xef, 0xbb, 0xbf]
}

proof fn lemma_split_at_line_end(front: Seq<u8>, back: Seq<u8>)
    ensures
        split_on(front.push(NEWLINE) + back, NEWLINE) == split_on(front, NEWLINE) + split_on(
            back,
            NEWLINE,
        ),
    decreases front.len(),
{
    let whole = front.push(NEWLINE) + back;
    lemma_index_from(front, NEWLINE, 0);
    let at = index_from(front, NEWLINE, 0);
    assert(whole[front.len() as int] == NEWLINE);
    lemma_index_from_is(whole, NEWLINE, 0, at);
    assert(whole.take(at) =~= front.take(at));
    if at < front.len() {
        let rest = front.skip(at + 1);
        assert(whole.skip(at + 1) =~= rest.push(NEWLINE) + back);
        lemma_split_at_line_end(rest, back);
        assert(seq![front.take(at)] + (split_on(rest, NEWLINE) + split_on(back, NEWLINE)) =~= (seq![
            front.take(at),
        ] + split_on(rest, NEWLINE)) + split_on(back, NEWLINE));
    } else {
        assert(whole.skip(at + 1) =~= back);
        assert(front.take(at) =~= front);
    }
}

proof fn lemma_rules_of_more_lines(
    front: Seq<Seq<u8>>,
    back: Seq<Seq<u8>>,
    count: int,
    case_insensitive: bool,
)
    requires
        0 <= count <= front.len() + back.len(),
    ensures
        rules_of_lines(front + back, count, case_insensitive) == (if count <= front.len() {
            rules_of_lines(front, count, case_insensitive)
        } else {
            rules_of_lines(front, front.len() as int, case_insensitive) + rules_of_lines(
                back,
                count - front.len(),
                case_insensitive,
            )
        }),
    decreases count,
{
    let all = front + back;
    if count > 0 {
        lemma_rules_of_more_lines(front, back, count - 1, case_insensitive);
        if count > front.len() {
            assert(all[count - 1] == back[count - 1 - front.len()]);
            let head = rules_of_lines(front, front.len() as int, case_insensitive);
            let tail = rules_of_lines(back, count - 1 - front.len(), case_insensitive);
            if count - 1 == front.len() {
                assert(head + tail =~= head);
            }
            if let Some(plan) = rule_of_line(rule_text(all[count - 1]), case_insensitive) {
                let rule = RuleModel { plan, case_insensitive };
                assert((head + tail).push(rule) =~= head + tail.push(rule));
            }
        } else {
            assert(all[count - 1] == front[count - 1]);
        }
    }
}

/// An ignore file is read line by line: the rules of two files, one put behind
/// the other with a line end between them, are the rules of the first and then
/// those of the second.
///
/// A mark counts at the very start only, so the second may have none.
pub proof fn law_ignore_files_are_read_line_by_line(
    front: Seq<u8>,
    back: Seq<u8>,
    case_insensitive: bool,
)
    requires
        !begins_with(back, byte_order_mark()),
    ensures
        rules_of_file(front.push(NEWLINE) + back, case_insensitive) == rules_of_file(
            front,
            case_insensitive,
        ) + rules_of_file(back, case_insensitive),
{
    let whole = front.push(NEWLINE) + back;
    assert(without_mark(back) == back) by {
        if without_mark(back) != back {
            assert(back.take(3) =~= byte_order_mark());
        }
    }
    let text = without_mark(front);
    assert forall|i: int| 0 <= i < front.len() implies whole[i] == front[i] by {}
    assert(whole[front.len() as int] == NEWLINE);
    assert(without_mark(whole) =~= text.push(NEWLINE) + back);
    lemma_split_at_line_end(text, back);
    let one = split_on(text, NEWLINE);
    let two = split_on(back, NEWLINE);
    lemma_rules_of_more_lines(one, two, (one + two).len() as int, case_insensitive);
    lemma_some_line(text);
    lemma_some_line(back);
}

proof fn lemma_some_line(text: Seq<u8>)
    ensures
        split_on(text, NEWLINE).len() > 0,
{
}

/// A final line counts whether it is terminated or not: to append a line end to
/// an ignore file changes none of its rules.
pub proof fn law_a_final_line_needs_no_line_end(file: Seq<u8>, case_insensitive: bool)
    ensures
        rules_of_file(file.push(NEWLINE), case_insensitive) == rules_of_file(
            file,
            case_insensitive,
        ),
{
    let none = Seq::<u8>::empty();
    law_ignore_files_are_read_line_by_line(file, none, case_insensitive);
    assert(file.push(NEWLINE) + none =~= file.push(NEWLINE));
    lemma_one_line(none, case_insensitive);
    assert(rules_of_file(file, case_insensitive) + rules_of_file(none, case_insensitive)
        =~= rules_of_file(file, case_insensitive));
}

proof fn lemma_one_line(line: Seq<u8>, case_insensitive: bool)
    requires
        !without_mark(line).contains(NEWLINE),
    ensures
        rules_of_file(line, case_insensitive) == rule_of(without_mark(line), case_insensitive),
{
    let text = without_mark(line);
    assert forall|i: int| 0 <= i < text.len() implies text[i] != NEWLINE by {
        assert(text.contains(text[i]));
    }
    lemma_index_from_is(text, NEWLINE, 0, text.len() as int);
    let lines = split_on(text, NEWLINE);
    assert(lines =~= seq![text]);
    reveal_with_fuel(rules_of_lines, 2);
    assert(rules_of_file(line, case_insensitive) =~= rule_of(text, case_insensitive));
}

/// The rules of a file that is one line are the rule of that line, where the
/// line is one.
pub proof fn law_a_file_of_one_line_holds_its_rule(line: Seq<u8>, case_insensitive: bool)
    requires
        !line.contains(NEWLINE),
        !line.contains(NUL),
        line.len() > 0 ==> line.last() != RETURN,
        !begins_with(line, byte_order_mark()),
    ensures
        match rule_of_line(line, case_insensitive) {
            Some(plan) => rules_of_file(line, case_insensitive) == seq![
                RuleModel { plan, case_insensitive },
            ],
            None => rules_of_file(line, case_insensitive).len() == 0,
        },
{
    assert(without_mark(line) == line) by {
        if without_mark(line) != line {
            assert(line.take(3) =~= byte_order_mark());
        }
    }
    lemma_one_line(line, case_insensitive);
    assert forall|i: int| 0 <= i < line.len() implies line[i] != NUL by {
        assert(line.contains(line[i]));
    }
    lemma_index_from_is(line, NUL, 0, line.len() as int);
    assert(line.take(line.len() as int) =~= line);
}

/// One carriage return in front of a line end is no part of a rule.
pub proof fn law_a_carriage_return_ends_no_rule(line: Seq<u8>, case_insensitive: bool)
    requires
        !line.contains(NEWLINE),
        line.len() > 0 ==> line.last() != RETURN,
    ensures
        rules_of_file(line.push(RETURN), case_insensitive) == rules_of_file(
            line,
            case_insensitive,
        ),
{
    let longer = line.push(RETURN);
    let text = without_mark(line);
    assert(without_mark(longer) =~= text.push(RETURN)) by {
        assert(longer[line.len() as int] == RETURN);
        assert forall|i: int| 0 <= i < line.len() implies longer[i] == line[i] by {}
    }
    assert(!text.contains(NEWLINE) && !text.push(RETURN).contains(NEWLINE)) by {
        lemma_no_line_end_in_text(line);
        assert forall|i: int| 0 <= i < text.push(RETURN).len() implies text.push(RETURN)[i]
            != NEWLINE by {
            if i < text.len() {
                assert(text.contains(text[i]));
            }
        }
    }
    lemma_one_line(line, case_insensitive);
    lemma_one_line(longer, case_insensitive);
    assert(text.push(RETURN).drop_last() =~= text);
    assert(without_return(text) == text) by {
        if text.len() > 0 {
            assert(text.last() == line.last());
        }
    }
}

proof fn lemma_no_line_end_in_text(line: Seq<u8>)
    requires
        !line.contains(NEWLINE),
    ensures
        !without_mark(line).contains(NEWLINE),
{
    let text = without_mark(line);
    if text.contains(NEWLINE) {
        let i = choose|i: int| 0 <= i < text.len() && text[i] == NEWLINE;
        assert(line.contains(line[line.len() - text.len() + i]));
    }
}

/// A NUL ends a rule: what follows it on its line says nothing.
pub proof fn law_a_nul_ends_a_rule(line: Seq<u8>, rest: Seq<u8>, case_insensitive: bool)
    requires
        !line.contains(NEWLINE),
        !line.contains(NUL),
        line.len() > 0 ==> line.last() != RETURN,
        !rest.contains(NEWLINE),
    ensures
        rules_of_file(line.push(NUL) + rest, case_insensitive) == rules_of_file(
            line,
            case_insensitive,
        ),
{
    let longer = line.push(NUL) + rest;
    let text = without_mark(line);
    let whole = text.push(NUL) + rest;
    assert(without_mark(longer) =~= whole) by {
        assert(longer[line.len() as int] == NUL);
        assert forall|i: int| 0 <= i < line.len() implies longer[i] == line[i] by {}
    }
    lemma_no_line_end_in_text(line);
    assert(!whole.contains(NEWLINE)) by {
        assert forall|i: int| 0 <= i < whole.len() implies whole[i] != NEWLINE by {
            if i < text.len() {
                assert(text.contains(text[i]));
            } else if i > text.len() {
                assert(rest.contains(rest[i - text.len() - 1]));
            }
        }
    }
    lemma_one_line(line, case_insensitive);
    lemma_one_line(longer, case_insensitive);
    assert forall|i: int| 0 <= i < text.len() implies text[i] != NUL by {
        assert(line.contains(line[line.len() - text.len() + i]));
    }
    assert(without_return(text) == text) by {
        if text.len() > 0 {
            assert(text.last() == line.last());
        }
    }
    let kept = without_return(whole);
    assert(kept[text.len() as int] == NUL);
    lemma_index_from_is(kept, NUL, 0, text.len() as int);
    lemma_index_from_is(text, NUL, 0, text.len() as int);
    assert(kept.take(text.len() as int) =~= text);
    assert(text.take(text.len() as int) =~= text);
}

/// One byte order mark at the start of an ignore file is no part of it.
pub proof fn law_a_byte_order_mark_says_nothing(file: Seq<u8>, case_insensitive: bool)
    requires
        !begins_with(file, byte_order_mark()),
    ensures
        rules_of_file(byte_order_mark() + file, case_insensitive) == rules_of_file(
            file,
            case_insensitive,
        ),
{
    assert((byte_order_mark() + file).skip(3) =~= file);
    assert(without_mark(file) == file) by {
        if without_mark(file) != file {
            assert(file.take(3) =~= byte_order_mark());
        }
    }
}

/// Feeds one ignore file's lines to the builder.
///
/// Ignore files are byte streams: one mark at the start is dropped, a NUL ends
/// a rule, and bytes that are no UTF-8 are as good as any.
#[verifier::rlimit(40)]
pub fn add_rules(builder: &mut RuleSetBuilder, file: &[u8])
    ensures
        final(builder).root_len() == old(builder).root_len(),
        final(builder).folds_case() == old(builder).folds_case(),
        final(builder).precomposes() == old(builder).precomposes(),
        final(builder).rules() == old(builder).rules() + rules_of_file(
            file@,
            old(builder).folds_case(),
        ),
{
    let ghost fold = builder.folds_case();
    let ghost goal = builder.rules() + rules_of_file(file@, fold);
    let mut start: usize = if file.len() >= 3 && file[0] == 0xef && file[1] == 0xbb && file[2]
        == 0xbf {
        3
    } else {
        0
    };
    let mut more = true;
    assert(file@.skip(start as int) =~= without_mark(file@));
    while more
        invariant
            more ==> start <= file@.len(),
            builder.root_len() == old(builder).root_len(),
            builder.folds_case() == old(builder).folds_case(),
            builder.precomposes() == old(builder).precomposes(),
            fold == old(builder).folds_case(),
            more ==> goal == builder.rules() + rules_from(file@, start as int, fold),
            !more ==> goal == builder.rules(),
        decreases (if more { file@.len() - start + 1 } else { 0 }),
    {
        let at = position_from(file, NEWLINE, start);
        let end: usize = if at > start && file[at - 1] == RETURN {
            at - 1
        } else {
            at
        };
        let line = slice_subrange(file, start, end);
        let cut = position_from(line, NUL, 0);
        let text = slice_subrange(line, 0, cut);
        let ghost before = builder.rules();
        let ghost whole = file@.subrange(start as int, at as int);
        proof {
            assert(line@ =~= without_return(whole));
            assert(text@ =~= rule_text(whole));
            lemma_next_line(file@, start as int, fold);
        }
        builder.add_line(text);
        proof {
            let one = rule_of(whole, fold);
            assert(builder.rules() =~= before + one);
            if at < file@.len() {
                assert(before + (one + rules_from(file@, at + 1, fold)) =~= before + one
                    + rules_from(file@, at + 1, fold));
            } else {
                assert(before + (one + Seq::empty()) =~= before + one);
            }
        }
        if at < file.len() {
            start = at + 1;
        } else {
            more = false;
        }
    }
}

proof fn lemma_index_shift(file: Seq<u8>, start: int)
    requires
        0 <= start <= file.len(),
    ensures
        index_from(file, NEWLINE, start) == start + index_from(file.skip(start), NEWLINE, 0),
{
    lemma_index_from(file, NEWLINE, start);
    let rest = file.skip(start);
    let at = index_from(file, NEWLINE, start) - start;
    lemma_index_from(rest, NEWLINE, 0);
    let found = index_from(rest, NEWLINE, 0);
    if found < at {
        assert(rest[found] == file[start + found]);
    } else if at < found {
        assert(rest[at] == file[start + at]);
    }
}

/// Where an ignore file stands, which decides what a failure to read it means.
#[derive(Debug, Clone, Copy, PartialEq, Eq, Structural)]
pub enum Place {
    /// In the tree being walked. A link is refused there, and counts as no
    /// file.
    Tree(Syntax),
    /// Among the repository's own files.
    Repository,
}

/// Whether a failure to read means that there is no such file.
pub open spec fn means_no_file(place: Place, kind: FailureKind) -> bool {
    ||| kind == FailureKind::NotFound
    ||| place == Place::Tree(Syntax::Posix) && kind == FailureKind::FilesystemLoop
    ||| place == Place::Tree(Syntax::Windows) && kind == FailureKind::InvalidInput
}

/// Whether a failure to read an in-tree ignore file means that there is none.
pub fn ignored_in_tree_read_error(error: &Failure, syntax: Syntax) -> (result: bool)
    ensures
        result == means_no_file(Place::Tree(syntax), error.kind),
{
    match error.kind {
        FailureKind::NotFound => true,
        FailureKind::FilesystemLoop => syntax == Syntax::Posix,
        FailureKind::InvalidInput => syntax == Syntax::Windows,
        _ => false,
    }
}

/// One attempt to read an ignore file.
#[derive(Debug)]
pub struct IgnoreRead {
    pub path: Vec<u8>,
    pub outcome: Result<Vec<u8>, Failure>,
}

/// What an ignore file that cannot be used is reported as.
pub ghost struct IgnoreFault {
    pub path: Seq<u8>,
    pub kind: FailureKind,
    pub message: Seq<char>,
}

/// An ignore file that cannot be used.
#[derive(Debug)]
pub struct IgnoreReadError {
    path: Vec<u8>,
    source: Failure,
}

impl View for IgnoreReadError {
    type V = IgnoreFault;

    closed spec fn view(&self) -> IgnoreFault {
        IgnoreFault {
            path: self.path@,
            kind: self.source.kind,
            message: self.source.message@,
        }
    }
}

impl IgnoreReadError {
    /// A failure at a path.
    pub fn new(path: Vec<u8>, source: Failure) -> (result: Self)
        ensures
            result@ == (IgnoreFault {
                path: path@,
                kind: source.kind,
                message: source.message@,
            }),
    {
        IgnoreReadError { path, source }
    }

    /// The path and the failure.
    pub fn into_parts(self) -> (result: (Vec<u8>, Failure))
        ensures
            self@ == (IgnoreFault {
                path: result.0@,
                kind: result.1.kind,
                message: result.1.message@,
            }),
    {
        (self.path, self.source)
    }
}

/// What errors report.
pub open spec fn ignore_faults(errors: Seq<IgnoreReadError>) -> Seq<IgnoreFault> {
    Seq::new(errors.len(), |i: int| errors[i]@)
}

/// The rules one attempt to read yields.
pub open spec fn rules_read(read: IgnoreRead, case_insensitive: bool) -> Seq<RuleModel> {
    match read.outcome {
        Ok(file) => if line_count(file@) <= MAX_IGNORE_RULES {
            rules_of_file(file@, case_insensitive)
        } else {
            Seq::empty()
        },
        Err(_) => Seq::empty(),
    }
}

/// What one attempt to read is reported as, if anything.
pub open spec fn fault_read(read: IgnoreRead, place: Place) -> Seq<IgnoreFault> {
    match read.outcome {
        Ok(file) => if line_count(file@) <= MAX_IGNORE_RULES {
            Seq::empty()
        } else {
            seq![
                IgnoreFault {
                    path: read.path@,
                    kind: FailureKind::InvalidData,
                    message: TOO_MANY_RULES@,
                },
            ]
        },
        Err(error) => if means_no_file(place, error.kind) {
            Seq::empty()
        } else {
            seq![
                IgnoreFault { path: read.path@, kind: error.kind, message: error.message@ },
            ]
        },
    }
}

/// The rules that attempts yield, in order.
pub open spec fn all_rules_read(reads: Seq<IgnoreRead>, case_insensitive: bool) -> Seq<RuleModel>
    decreases reads.len(),
{
    if reads.len() == 0 {
        Seq::empty()
    } else {
        rules_read(reads[0], case_insensitive) + all_rules_read(
            reads.drop_first(),
            case_insensitive,
        )
    }
}

/// What attempts are reported as, in order.
pub open spec fn all_faults_read(reads: Seq<IgnoreRead>, place: Place) -> Seq<IgnoreFault>
    decreases reads.len(),
{
    if reads.len() == 0 {
        Seq::empty()
    } else {
        fault_read(reads[0], place) + all_faults_read(reads.drop_first(), place)
    }
}

/// The filesystem adaptations Git applies before ignore matching.
#[derive(Debug, Clone, Copy, PartialEq, Eq, Structural)]
pub struct GitIgnoreAdaptation {
    pub case_insensitive: bool,
    pub precompose_unicode: bool,
}

impl Default for GitIgnoreAdaptation {
    fn default() -> (result: Self)
        ensures
            result == (GitIgnoreAdaptation { case_insensitive: false, precompose_unicode: false }),
    {
        GitIgnoreAdaptation { case_insensitive: false, precompose_unicode: false }
    }
}

/// What holds of a setting: what the caller says, else what the repository
/// says, else no.
pub open spec fn in_force(said: Option<bool>, configured: Option<bool>) -> bool {
    match said {
        Some(value) => value,
        None => match configured {
            Some(value) => value,
            None => false,
        },
    }
}

impl GitIgnoreAdaptation {
    /// The adaptations in force. Names are composed only where the platform
    /// has Git do it.
    pub fn effective(
        git_ignore_case: Option<bool>,
        git_precompose_unicode: Option<bool>,
        config: GitConfig,
        platform_composes: bool,
    ) -> (result: Self)
        ensures
            result.case_insensitive == in_force(git_ignore_case, config.ignore_case),
            result.precompose_unicode == (platform_composes && in_force(
                git_precompose_unicode,
                config.precompose_unicode,
            )),
    {
        GitIgnoreAdaptation {
            case_insensitive: settle(git_ignore_case, config.ignore_case),
            precompose_unicode: platform_composes && settle(
                git_precompose_unicode,
                config.precompose_unicode,
            ),
        }
    }
}

fn settle(said: Option<bool>, configured: Option<bool>) -> (result: bool)
    ensures
        result == in_force(said, configured),
{
    match said {
        Some(value) => value,
        None => match configured {
            Some(value) => value,
            None => false,
        },
    }
}

/// The settings of a repository: those of its common config and, where that
/// asks for it, of the worktree's own on top. A file that cannot be read is
/// absent.
pub open spec fn repository_config(common: Option<Seq<u8>>, worktree: Option<Seq<u8>>) -> GitConfig {
    let none = GitConfig { ignore_case: None, precompose_unicode: None, worktree_config: None };
    let shared = match common {
        Some(file) => after_config(none, file),
        None => none,
    };
    match worktree {
        Some(file) if shared.worktree_config == Some(true) => after_config(shared, file),
        _ => shared,
    }
}

/// The settings of a repository.
pub fn read_repository_config(common: Option<&[u8]>, worktree: Option<&[u8]>) -> (result: GitConfig)
    ensures
        result == repository_config(
            match common {
                Some(file) => Some(file@),
                None => None,
            },
            match worktree {
                Some(file) => Some(file@),
                None => None,
            },
        ),
{
    let mut config = GitConfig::default();
    if let Some(file) = common {
        apply_config(&mut config, file);
    }
    if let Some(file) = worktree {
        let asked = match config.worktree_config {
            Some(value) => value,
            None => false,
        };
        if asked {
            apply_config(&mut config, file);
        }
    }
    config
}

/// Reads one directory's ignore files into a single set of rules.
pub fn read_rules(
    directory: &[u8],
    reads: Vec<IgnoreRead>,
    adaptation: GitIgnoreAdaptation,
    place: Place,
) -> (result: (RuleSet, Vec<IgnoreReadError>))
    ensures
        result.0.root_len() == prefix_length(directory@),
        result.0.precomposes() == adaptation.precompose_unicode,
        result.0.rules() == all_rules_read(reads@, adaptation.case_insensitive),
        ignore_faults(result.1@) == all_faults_read(reads@, place),
{
    let fold = adaptation.case_insensitive;
    let mut builder = RuleSetBuilder::new(directory, fold, adaptation.precompose_unicode);
    let mut errors: Vec<IgnoreReadError> = Vec::new();
    let ghost all = reads@;
    let mut rest = reads;
    proof {
        assert(ignore_faults(errors@) =~= Seq::empty());
        assert(builder.rules() + all_rules_read(all, fold) =~= all_rules_read(all, fold));
        assert(ignore_faults(errors@) + all_faults_read(all, place) =~= all_faults_read(
            all,
            place,
        ));
    }
    while rest.len() > 0
        invariant
            builder.root_len() == prefix_length(directory@),
            builder.folds_case() == fold,
            builder.precomposes() == adaptation.precompose_unicode,
            builder.rules() + all_rules_read(rest@, fold) == all_rules_read(all, fold),
            ignore_faults(errors@) + all_faults_read(rest@, place) == all_faults_read(all, place),
        decreases rest@.len(),
    {
        let ghost before = rest@;
        let ghost rules = builder.rules();
        let ghost faults = ignore_faults(errors@);
        let read = rest.remove(0);
        assert(rest@ =~= before.drop_first());
        let IgnoreRead { path, outcome } = read;
        match outcome {
            Ok(file) => match validate_rule_count(file.as_slice()) {
                Ok(()) => add_rules(&mut builder, file.as_slice()),
                Err(error) => errors.push(IgnoreReadError::new(path, error)),
            },
            Err(error) => {
                let absent = match place {
                    Place::Tree(syntax) => ignored_in_tree_read_error(&error, syntax),
                    Place::Repository => matches!(error.kind, FailureKind::NotFound),
                };
                if !absent {
                    errors.push(IgnoreReadError::new(path, error));
                }
            },
        }
        proof {
            let more_rules = rules_read(before[0], fold);
            let more_faults = fault_read(before[0], place);
            assert(builder.rules() =~= rules + more_rules);
            assert(ignore_faults(errors@) =~= faults + more_faults);
            assert(rules + (more_rules + all_rules_read(rest@, fold)) =~= rules + more_rules
                + all_rules_read(rest@, fold));
            assert(faults + (more_faults + all_faults_read(rest@, place)) =~= faults + more_faults
                + all_faults_read(rest@, place));
        }
    }
    assert(builder.rules() + all_rules_read(rest@, fold) =~= builder.rules());
    assert(ignore_faults(errors@) + all_faults_read(rest@, place) =~= ignore_faults(errors@));
    (builder.build(), errors)
}

/// One directory's rules as the chain sees them.
pub ghost struct SetModel {
    pub root_len: int,
    pub precomposes: bool,
    pub rules: Seq<RuleModel>,
}

/// What a set of rules says.
pub open spec fn set_model(rules: RuleSet) -> SetModel {
    SetModel {
        root_len: rules.root_len(),
        precomposes: rules.precomposes(),
        rules: rules.rules(),
    }
}

/// The verdict of one directory's rules on `path`.
pub open spec fn set_verdict(set: SetModel, path: Seq<u8>, is_dir: bool) -> Option<bool> {
    let candidate = below(path, set.root_len);
    verdict_of(
        set.rules,
        set.rules.len() as int,
        if set.precomposes {
            composed_path(candidate, 0)
        } else {
            candidate
        },
        is_dir,
    )
}

/// The verdict of the innermost set that has one. `chain` starts with the
/// innermost.
pub open spec fn chain_verdict(chain: Seq<SetModel>, path: Seq<u8>, is_dir: bool) -> Option<bool>
    decreases chain.len(),
{
    if chain.len() == 0 {
        None
    } else {
        match set_verdict(chain[0], path, is_dir) {
            Some(ignored) => Some(ignored),
            None => chain_verdict(chain.drop_first(), path, is_dir),
        }
    }
}

/// The deepest set with an opinion decides, and there is a verdict exactly
/// where some set has one.
pub proof fn law_the_deepest_opinion_decides(chain: Seq<SetModel>, path: Seq<u8>, is_dir: bool)
    ensures
        match chain_verdict(chain, path, is_dir) {
            Some(ignored) => exists|i: int|
                #![trigger chain[i]]
                0 <= i < chain.len() && set_verdict(chain[i], path, is_dir) == Some(ignored)
                    && forall|j: int|
                    #![trigger chain[j]]
                    0 <= j < i ==> set_verdict(chain[j], path, is_dir) is None,
            None => forall|i: int|
                #![trigger chain[i]]
                0 <= i < chain.len() ==> set_verdict(chain[i], path, is_dir) is None,
        },
    decreases chain.len(),
{
    if chain.len() > 0 {
        let rest = chain.drop_first();
        law_the_deepest_opinion_decides(rest, path, is_dir);
        if set_verdict(chain[0], path, is_dir) is None {
            match chain_verdict(rest, path, is_dir) {
                Some(ignored) => {
                    let i = choose|i: int|
                        #![trigger rest[i]]
                        0 <= i < rest.len() && set_verdict(rest[i], path, is_dir) == Some(ignored)
                            && forall|j: int|
                            #![trigger rest[j]]
                            0 <= j < i ==> set_verdict(rest[j], path, is_dir) is None;
                    assert(chain[i + 1] == rest[i]);
                    assert forall|j: int| #![trigger chain[j]] 0 <= j < i + 1 implies set_verdict(
                        chain[j],
                        path,
                        is_dir,
                    ) is None by {
                        if j > 0 {
                            assert(rest[j - 1] == chain[j]);
                        }
                    }
                },
                None => {
                    assert forall|i: int|
                        #![trigger chain[i]]
                        0 <= i < chain.len() implies set_verdict(chain[i], path, is_dir) is None by {
                        if i > 0 {
                            assert(rest[i - 1] == chain[i]);
                        }
                    }
                },
            }
        }
    }
}

/// A set without rules changes no verdict, wherever it would stand in front.
pub proof fn law_an_empty_set_has_no_opinion(
    set: SetModel,
    chain: Seq<SetModel>,
    path: Seq<u8>,
    is_dir: bool,
)
    requires
        set.rules.len() == 0,
    ensures
        chain_verdict(seq![set] + chain, path, is_dir) == chain_verdict(chain, path, is_dir),
{
    assert((seq![set] + chain).drop_first() =~= chain);
}

/// The rules in force inside one directory, and the way out of it.
#[derive(Debug)]
struct IgnoreNode {
    rules: RuleSet,
    parent: Option<Arc<IgnoreNode>>,
}

spec fn chain_of(node: Option<Arc<IgnoreNode>>) -> Seq<SetModel>
    decreases node,
{
    match node {
        Some(node) => seq![set_model(node.rules)] + chain_of(node.parent),
        None => Seq::empty(),
    }
}

impl IgnoreNode {
    /// The verdict of the deepest node that has one.
    fn verdict(&self, candidate: &[u8], is_dir: bool) -> (result: Option<bool>)
        ensures
            result == chain_verdict(
                seq![set_model(self.rules)] + chain_of(self.parent),
                candidate@,
                is_dir,
            ),
        decreases self,
    {
        assert((seq![set_model(self.rules)] + chain_of(self.parent)).drop_first() =~= chain_of(
            self.parent,
        ));
        match self.rules.matched(candidate, is_dir) {
            Some(ignored) => Some(ignored),
            None => match &self.parent {
                Some(parent) => parent.verdict(candidate, is_dir),
                None => {
                    assert(chain_verdict(chain_of(self.parent), candidate@, is_dir) is None);
                    None
                },
            },
        }
    }
}

/// Where a walk root lies, where that is not how it is spelled: rules from
/// above the root are anchored to the place, and not to the spelling.
pub ghost struct Anchor {
    /// How many bytes of a walked path are the root's.
    pub start: int,
    /// What the rules see in their stead.
    pub place: Seq<u8>,
    /// How the host spells absolute paths.
    pub syntax: Syntax,
}

/// A path as the rules see it.
pub open spec fn anchored(anchor: Option<Anchor>, path: Seq<u8>) -> Seq<u8> {
    match anchor {
        None => path,
        Some(anchor) => if anchor.start <= path.len() {
            pushed(anchor.place, path.skip(anchor.start), anchor.syntax)
        } else {
            anchor.place
        },
    }
}

/// The anchor of a root that lies at `place`.
pub open spec fn anchor_for(root: Seq<u8>, place: Seq<u8>, syntax: Syntax) -> Option<Anchor> {
    if root == place {
        None
    } else {
        Some(Anchor { start: pushed_start(root, syntax), place, syntax })
    }
}

/// Whatever way a root is spelled, its entries are judged by the paths they
/// have in a walk of the place where it lies.
pub proof fn law_a_root_is_judged_where_it_lies(
    root: Seq<u8>,
    place: Seq<u8>,
    relative: Seq<u8>,
    syntax: Syntax,
)
    ensures
        anchored(anchor_for(root, place, syntax), pushed(root, relative, syntax)) == pushed(
            place,
            relative,
            syntax,
        ),
{
    law_the_start_depends_on_the_root_alone(root, relative, syntax);
}

#[derive(Debug)]
struct RootAnchor {
    start: usize,
    place: Vec<u8>,
    syntax: Syntax,
}

spec fn anchor_of(anchor: Option<Arc<RootAnchor>>) -> Option<Anchor> {
    match anchor {
        Some(anchor) => Some(
            Anchor { start: anchor.start as int, place: anchor.place@, syntax: anchor.syntax },
        ),
        None => None,
    }
}

/// The ignore rules in force inside one directory.
#[derive(Debug)]
pub struct IgnoreScope {
    /// Innermost directory with rules. Directories without any never appear.
    rules: Option<Arc<IgnoreNode>>,
    adaptation: GitIgnoreAdaptation,
    anchor: Option<Arc<RootAnchor>>,
}

impl Default for IgnoreScope {
    fn default() -> (result: Self)
        ensures
            result.chain() == Seq::<SetModel>::empty(),
            result.adapts() == (GitIgnoreAdaptation {
                case_insensitive: false,
                precompose_unicode: false,
            }),
            result.anchor() is None,
    {
        IgnoreScope { rules: None, adaptation: GitIgnoreAdaptation::default(), anchor: None }
    }
}

impl Clone for IgnoreScope {
    fn clone(&self) -> (result: Self)
        ensures
            result == *self,
    {
        let rules = match &self.rules {
            Some(node) => Some(node.clone()),
            None => None,
        };
        let anchor = match &self.anchor {
            Some(anchor) => Some(anchor.clone()),
            None => None,
        };
        IgnoreScope { rules, adaptation: self.adaptation, anchor }
    }
}

/// The chain with `set` in front, unless it is empty.
pub open spec fn linked(chain: Seq<SetModel>, set: SetModel) -> Seq<SetModel> {
    if set.rules.len() == 0 {
        chain
    } else {
        seq![set] + chain
    }
}

/// The rules that a directory's reads yield.
pub open spec fn set_read(
    directory: Seq<u8>,
    reads: Seq<IgnoreRead>,
    adaptation: GitIgnoreAdaptation,
) -> SetModel {
    SetModel {
        root_len: prefix_length(directory),
        precomposes: adaptation.precompose_unicode,
        rules: all_rules_read(reads, adaptation.case_insensitive),
    }
}

/// One directory, and the attempts to read its ignore files.
#[derive(Debug)]
pub struct DirectoryReads {
    pub directory: Vec<u8>,
    pub reads: Vec<IgnoreRead>,
}

/// What a walk root inherits from the repository it lies in.
#[derive(Debug)]
pub struct RepositoryReads {
    /// The directory that holds the repository.
    pub root: Vec<u8>,
    /// The attempt to read the repository-wide excludes.
    pub exclude: IgnoreRead,
    /// The directories from the repository's root down to the walk root's
    /// parent.
    pub ancestors: Vec<DirectoryReads>,
}

/// The chain after the rules of `directories` were linked onto it, in order.
pub open spec fn chain_after(
    chain: Seq<SetModel>,
    directories: Seq<DirectoryReads>,
    adaptation: GitIgnoreAdaptation,
) -> Seq<SetModel>
    decreases directories.len(),
{
    if directories.len() == 0 {
        chain
    } else {
        let first = directories[0];
        chain_after(
            linked(chain, set_read(first.directory@, first.reads@, adaptation)),
            directories.drop_first(),
            adaptation,
        )
    }
}

/// What reading `directories` is reported as.
pub open spec fn faults_after(directories: Seq<DirectoryReads>, place: Place) -> Seq<IgnoreFault>
    decreases directories.len(),
{
    if directories.len() == 0 {
        Seq::empty()
    } else {
        all_faults_read(directories[0].reads@, place) + faults_after(
            directories.drop_first(),
            place,
        )
    }
}

impl IgnoreScope {
    /// The sets of rules in force, the innermost first.
    pub closed spec fn chain(&self) -> Seq<SetModel> {
        chain_of(self.rules)
    }

    /// The adaptations in force.
    pub closed spec fn adapts(&self) -> GitIgnoreAdaptation {
        self.adaptation
    }

    /// How the rules see the walk's paths.
    pub closed spec fn anchor(&self) -> Option<Anchor> {
        anchor_of(self.anchor)
    }

    /// What a walk root inherits: the repository-wide excludes and the rules
    /// from the repository's root through the walk root's parent. Without a
    /// repository, or where ignore files are not respected, nothing.
    ///
    /// `place` is where the root lies, however it is spelled.
    pub fn for_root(
        respect_git_ignore: bool,
        root: &[u8],
        place: Vec<u8>,
        adaptation: GitIgnoreAdaptation,
        repository: Option<RepositoryReads>,
        syntax: Syntax,
    ) -> (result: (Self, Vec<IgnoreReadError>))
        ensures
            !respect_git_ignore ==> result.0.chain() == Seq::<SetModel>::empty()
                && result.0.adapts() == (GitIgnoreAdaptation {
                case_insensitive: false,
                precompose_unicode: false,
            }) && result.0.anchor() is None && ignore_faults(result.1@)
                == Seq::<IgnoreFault>::empty(),
            respect_git_ignore ==> result.0.anchor() == anchor_for(root@, place@, syntax),
            respect_git_ignore ==> result.0.adapts() == adaptation && match repository {
                None => result.0.chain() == Seq::<SetModel>::empty() && ignore_faults(result.1@)
                    == Seq::<IgnoreFault>::empty(),
                Some(found) => {
                    &&& result.0.chain() == chain_after(
                        linked(
                            Seq::empty(),
                            set_read(found.root@, seq![found.exclude], adaptation),
                        ),
                        found.ancestors@,
                        adaptation,
                    )
                    &&& ignore_faults(result.1@) == fault_read(found.exclude, Place::Repository)
                        + faults_after(found.ancestors@, Place::Tree(syntax))
                },
            },
    {
        if !respect_git_ignore {
            let errors: Vec<IgnoreReadError> = Vec::new();
            assert(ignore_faults(errors@) =~= Seq::<IgnoreFault>::empty());
            return (IgnoreScope::default(), errors);
        }
        let anchor = if same(root, place.as_slice()) {
            None
        } else {
            let nothing: Vec<u8> = Vec::new();
            let start: usize = push_name(root, nothing.as_slice(), syntax).len();
            Some(Arc::new(RootAnchor { start, place, syntax }))
        };
        let mut scope = IgnoreScope { rules: None, adaptation, anchor };
        let found = match repository {
            Some(found) => found,
            None => {
                let errors: Vec<IgnoreReadError> = Vec::new();
                assert(ignore_faults(errors@) =~= Seq::<IgnoreFault>::empty());
                return (scope, errors);
            },
        };
        let ghost exclude = found.exclude;
        let RepositoryReads { root: top, exclude: read, ancestors } = found;
        let mut reads: Vec<IgnoreRead> = Vec::new();
        reads.push(read);
        assert(reads@ =~= seq![exclude]);
        let (rules, mut errors) = read_rules(top.as_slice(), reads, adaptation, Place::Repository);
        scope = scope.link(rules);
        let ghost all = ancestors@;
        let ghost goal = chain_after(scope.chain(), all, adaptation);
        let ghost faults = fault_read(exclude, Place::Repository);
        proof {
            reveal_with_fuel(all_faults_read, 2);
            let one = seq![exclude];
            assert(one.drop_first() =~= Seq::<IgnoreRead>::empty());
            assert(faults + Seq::<IgnoreFault>::empty() =~= faults);
        }
        let mut rest = ancestors;
        while rest.len() > 0
            invariant
                scope.adapts() == adaptation,
                scope.anchor() == anchor_for(root@, place@, syntax),
                goal == chain_after(scope.chain(), rest@, adaptation),
                ignore_faults(errors@) + faults_after(rest@, Place::Tree(syntax)) == faults
                    + faults_after(all, Place::Tree(syntax)),
            decreases rest@.len(),
        {
            let ghost before = rest@;
            let ghost reported = ignore_faults(errors@);
            let DirectoryReads { directory, reads } = rest.remove(0);
            assert(rest@ =~= before.drop_first());
            let (rules, more) = read_rules(
                directory.as_slice(),
                reads,
                adaptation,
                Place::Tree(syntax),
            );
            scope = scope.link(rules);
            let ghost added = ignore_faults(more@);
            extend_errors(&mut errors, more);
            proof {
                assert(reported + (added + faults_after(rest@, Place::Tree(syntax))) =~= reported
                    + added + faults_after(rest@, Place::Tree(syntax)));
            }
        }
        assert(ignore_faults(errors@) + faults_after(rest@, Place::Tree(syntax)) =~= ignore_faults(
            errors@,
        ));
        (scope, errors)
    }

    /// Links a directory's own ignore files onto the chain. Called once, when
    /// the walk enters the directory, with the files its listing names.
    pub fn enter(self, respect_git_ignore: bool, own: DirectoryReads, syntax: Syntax) -> (result: (
        Self,
        Vec<IgnoreReadError>,
    ))
        ensures
            result.0.adapts() == self.adapts(),
            result.0.anchor() == self.anchor(),
            respect_git_ignore ==> result.0.chain() == linked(
                self.chain(),
                set_read(anchored(self.anchor(), own.directory@), own.reads@, self.adapts()),
            ) && ignore_faults(result.1@) == all_faults_read(own.reads@, Place::Tree(syntax)),
            !respect_git_ignore ==> result.0.chain() == self.chain() && ignore_faults(result.1@)
                == Seq::<IgnoreFault>::empty(),
    {
        if !respect_git_ignore || own.reads.len() == 0 {
            let errors: Vec<IgnoreReadError> = Vec::new();
            assert(ignore_faults(errors@) =~= Seq::<IgnoreFault>::empty());
            return (self, errors);
        }
        let adaptation = self.adaptation;
        let directory = self.as_seen(own.directory);
        let (rules, errors) = read_rules(
            directory.as_slice(),
            own.reads,
            adaptation,
            Place::Tree(syntax),
        );
        (self.link(rules), errors)
    }

    /// A path as the rules see it.
    fn as_seen(&self, path: Vec<u8>) -> (result: Vec<u8>)
        ensures
            result@ == anchored(self.anchor(), path@),
    {
        match &self.anchor {
            None => path,
            Some(anchor) => if anchor.start <= path.len() {
                let rest = slice_subrange(path.as_slice(), anchor.start, path.len());
                assert(rest@ =~= path@.skip(anchor.start as int));
                push_name(anchor.place.as_slice(), rest, anchor.syntax)
            } else {
                slice_to_vec(anchor.place.as_slice())
            },
        }
    }

    /// Whether an entry of the directory this scope describes is ignored. An
    /// entry nobody has an opinion on is not.
    pub fn is_ignored(&self, path: &[u8], is_dir: bool) -> (result: bool)
        ensures
            result == (chain_verdict(self.chain(), anchored(self.anchor(), path@), is_dir) == Some(
                true,
            )),
    {
        match &self.rules {
            Some(node) => {
                let verdict = match &self.anchor {
                    None => node.verdict(path, is_dir),
                    Some(_) => node.verdict(self.as_seen(slice_to_vec(path)).as_slice(), is_dir),
                };
                match verdict {
                    Some(ignored) => ignored,
                    None => false,
                }
            },
            None => false,
        }
    }

    /// Puts `rules` on the chain, unless they are empty: an empty set can never
    /// have an opinion, and would only lengthen the way of every entry below.
    fn link(self, rules: RuleSet) -> (result: Self)
        ensures
            result.chain() == linked(self.chain(), set_model(rules)),
            result.adapts() == self.adapts(),
            result.anchor() == self.anchor(),
    {
        if rules.is_empty() {
            return self;
        }
        let IgnoreScope { rules: parent, adaptation, anchor } = self;
        let node = IgnoreNode { rules, parent };
        IgnoreScope { rules: Some(Arc::new(node)), adaptation, anchor }
    }
}

fn extend_errors(errors: &mut Vec<IgnoreReadError>, more: Vec<IgnoreReadError>)
    ensures
        ignore_faults(final(errors)@) == ignore_faults(old(errors)@) + ignore_faults(more@),
{
    let ghost before = ignore_faults(errors@);
    let ghost added = ignore_faults(more@);
    let mut rest = more;
    errors.append(&mut rest);
    assert(ignore_faults(errors@) =~= before + added);
}

/// The ignore files of a directory, in increasing precedence.
pub const GIT_IGNORE_FILE: &'static str = ".gitignore";

pub const IGNORE_FILE: &'static str = ".ignore";

/// Repository-wide excludes, which a root's own ignore files override.
pub const REPOSITORY_EXCLUDE_FILE: &'static str = "info/exclude";

/// Whether a listing names an ignore file in some spelling.
pub open spec fn names_file(listing: Listing, file: Seq<char>) -> bool {
    exists|i: int| 0 <= i < listing.listed().len() && spells(
        #[trigger] listing.listed()[i].name,
        file,
    )
}

/// The ignore files a listing names, in increasing precedence. A directory
/// without any is recognized without a failed open per candidate.
pub fn present_ignore_files(listing: &Listing) -> (result: Vec<&'static str>)
    ensures
        Seq::new(result@.len(), |i: int| result@[i]@) == (if names_file(
            *listing,
            GIT_IGNORE_FILE@,
        ) {
            seq![GIT_IGNORE_FILE@]
        } else {
            Seq::empty()
        }) + (if names_file(*listing, IGNORE_FILE@) {
            seq![IGNORE_FILE@]
        } else {
            Seq::empty()
        }),
{
    let mut files: Vec<&'static str> = Vec::new();
    if listing.contains_git_ignore_name(GIT_IGNORE_FILE) {
        files.push(GIT_IGNORE_FILE);
    }
    if listing.contains_git_ignore_name(IGNORE_FILE) {
        files.push(IGNORE_FILE);
    }
    assert(Seq::new(files@.len(), |i: int| files@[i]@) =~= (if names_file(
        *listing,
        GIT_IGNORE_FILE@,
    ) {
        seq![GIT_IGNORE_FILE@]
    } else {
        Seq::empty()
    }) + (if names_file(*listing, IGNORE_FILE@) {
        seq![IGNORE_FILE@]
    } else {
        Seq::empty()
    }));
    files
}

/// The rules of a directory see of a path what is below the directory: whether
/// the directory is spelled with a separator at its end or not, and whatever
/// its own name is, they judge a path by the part behind it.
pub proof fn law_rules_see_what_is_below_their_directory(
    directory: Seq<u8>,
    reads: Seq<IgnoreRead>,
    case_insensitive: bool,
    relative: Seq<u8>,
    is_dir: bool,
)
    ensures
        ({
            let adaptation = GitIgnoreAdaptation { case_insensitive, precompose_unicode: false };
            let rules = all_rules_read(reads, case_insensitive);
            let verdict = verdict_of(rules, rules.len() as int, relative, is_dir);
            let set = set_read(directory, reads, adaptation);
            let slashed = set_read(directory.push(SLASH), reads, adaptation);
            &&& directory.len() > 0 && directory.last() != SLASH ==> set_verdict(
                set,
                directory.push(SLASH) + relative,
                is_dir,
            ) == verdict
            &&& set_verdict(slashed, directory.push(SLASH) + relative, is_dir) == verdict
            &&& directory.len() == 0 ==> set_verdict(set, relative, is_dir) == verdict
        }),
{
    let path = directory.push(SLASH) + relative;
    assert(path.skip(directory.len() as int + 1) =~= relative);
    assert(relative.skip(0) =~= relative);
}

proof fn lemma_verdict_of_more(
    front: Seq<RuleModel>,
    back: Seq<RuleModel>,
    count: int,
    candidate: Seq<u8>,
    is_dir: bool,
)
    requires
        0 <= count <= front.len() + back.len(),
    ensures
        verdict_of(front + back, count, candidate, is_dir) == (if count <= front.len() {
            verdict_of(front, count, candidate, is_dir)
        } else {
            match verdict_of(back, count - front.len(), candidate, is_dir) {
                Some(ignored) => Some(ignored),
                None => verdict_of(front, front.len() as int, candidate, is_dir),
            }
        }),
    decreases count,
{
    if count > 0 {
        lemma_verdict_of_more(front, back, count - 1, candidate, is_dir);
        if count > front.len() {
            assert((front + back)[count - 1] == back[count - 1 - front.len()]);
        } else {
            assert((front + back)[count - 1] == front[count - 1]);
        }
    }
}

proof fn lemma_rules_of_more_reads(
    front: Seq<IgnoreRead>,
    back: Seq<IgnoreRead>,
    case_insensitive: bool,
)
    ensures
        all_rules_read(front + back, case_insensitive) == all_rules_read(front, case_insensitive)
            + all_rules_read(back, case_insensitive),
    decreases front.len(),
{
    if front.len() == 0 {
        assert(front + back =~= back);
        assert(all_rules_read(front, case_insensitive) + all_rules_read(back, case_insensitive)
            =~= all_rules_read(back, case_insensitive));
    } else {
        let rest = front.drop_first();
        assert((front + back).drop_first() =~= rest + back);
        lemma_rules_of_more_reads(rest, back, case_insensitive);
        let first = rules_read(front[0], case_insensitive);
        assert(first + (all_rules_read(rest, case_insensitive) + all_rules_read(
            back,
            case_insensitive,
        )) =~= first + all_rules_read(rest, case_insensitive) + all_rules_read(
            back,
            case_insensitive,
        ));
    }
}

/// Of the ignore files of one directory a later one overrides those before it:
/// where it has an opinion, that is the verdict, and elsewhere theirs is.
pub proof fn law_a_later_file_overrides(
    directory: Seq<u8>,
    front: Seq<IgnoreRead>,
    back: Seq<IgnoreRead>,
    adaptation: GitIgnoreAdaptation,
    path: Seq<u8>,
    is_dir: bool,
)
    ensures
        set_verdict(set_read(directory, front + back, adaptation), path, is_dir) == (
        match set_verdict(set_read(directory, back, adaptation), path, is_dir) {
            Some(ignored) => Some(ignored),
            None => set_verdict(set_read(directory, front, adaptation), path, is_dir),
        }),
{
    let fold = adaptation.case_insensitive;
    let one = all_rules_read(front, fold);
    let two = all_rules_read(back, fold);
    lemma_rules_of_more_reads(front, back, fold);
    let candidate = below(path, prefix_length(directory));
    let seen = if adaptation.precompose_unicode {
        composed_path(candidate, 0)
    } else {
        candidate
    };
    lemma_verdict_of_more(one, two, (one + two).len() as int, seen, is_dir);
}

proof fn lemma_chain_after_more(
    chain: Seq<SetModel>,
    directories: Seq<DirectoryReads>,
    last: DirectoryReads,
    adaptation: GitIgnoreAdaptation,
)
    ensures
        chain_after(chain, directories.push(last), adaptation) == linked(
            chain_after(chain, directories, adaptation),
            set_read(last.directory@, last.reads@, adaptation),
        ),
    decreases directories.len(),
{
    let longer = directories.push(last);
    if directories.len() == 0 {
        assert(longer.drop_first() =~= Seq::<DirectoryReads>::empty());
        assert(longer[0] == last);
        reveal_with_fuel(chain_after, 2);
    } else {
        let first = directories[0];
        let rest = directories.drop_first();
        assert(longer.drop_first() =~= rest.push(last));
        lemma_chain_after_more(
            linked(chain, set_read(first.directory@, first.reads@, adaptation)),
            rest,
            last,
            adaptation,
        );
    }
}

/// The rules of an inner directory override those of the directories around it:
/// where it has an opinion, that is the verdict, and elsewhere theirs is.
pub proof fn law_an_inner_directory_overrides(
    chain: Seq<SetModel>,
    directories: Seq<DirectoryReads>,
    inner: DirectoryReads,
    adaptation: GitIgnoreAdaptation,
    path: Seq<u8>,
    is_dir: bool,
)
    ensures
        chain_verdict(
            chain_after(chain, directories.push(inner), adaptation),
            path,
            is_dir,
        ) == (match set_verdict(
            set_read(inner.directory@, inner.reads@, adaptation),
            path,
            is_dir,
        ) {
            Some(ignored) => Some(ignored),
            None => chain_verdict(chain_after(chain, directories, adaptation), path, is_dir),
        }),
{
    lemma_chain_after_more(chain, directories, inner, adaptation);
    let outer = chain_after(chain, directories, adaptation);
    let set = set_read(inner.directory@, inner.reads@, adaptation);
    assert((seq![set] + outer).drop_first() =~= outer);
    assert((seq![set] + outer)[0] == set);
}

/// A file that is not there is nothing, and so is a link in the tree, which is
/// refused by the failure that the host has for it. Any other failure to read
/// one is reported as it came. None yields a rule.
pub proof fn law_a_file_that_cannot_be_read_is_reported(
    read: IgnoreRead,
    failure: Failure,
    place: Place,
    case_insensitive: bool,
)
    requires
        read.outcome == Err::<Vec<u8>, Failure>(failure),
    ensures
        rules_read(read, case_insensitive).len() == 0,
        failure.kind == FailureKind::NotFound ==> fault_read(read, place).len() == 0,
        failure.kind != FailureKind::NotFound && failure.kind != FailureKind::FilesystemLoop
            && failure.kind != FailureKind::InvalidInput ==> fault_read(read, place) == seq![
            IgnoreFault { path: read.path@, kind: failure.kind, message: failure.message@ },
        ],
        place == Place::Repository && failure.kind != FailureKind::NotFound ==> fault_read(
            read,
            place,
        ).len() == 1,
        failure.kind == FailureKind::FilesystemLoop ==> (fault_read(read, place).len() == 0 <==> place
            == Place::Tree(Syntax::Posix)),
        failure.kind == FailureKind::InvalidInput ==> (fault_read(read, place).len() == 0 <==> place
            == Place::Tree(Syntax::Windows)),
{
}

/// A file of more than a hundred thousand lines yields no rule and is reported,
/// and every other file yields its rules and is not.
pub proof fn law_only_an_endless_file_is_refused(
    read: IgnoreRead,
    place: Place,
    case_insensitive: bool,
)
    requires
        read.outcome is Ok,
    ensures
        ({
            let file = read.outcome->Ok_0@;
            if line_count(file) <= 100_000 {
                &&& rules_read(read, case_insensitive) == rules_of_file(file, case_insensitive)
                &&& fault_read(read, place).len() == 0
            } else {
                &&& rules_read(read, case_insensitive).len() == 0
                &&& fault_read(read, place).len() == 1
                &&& fault_read(read, place)[0].path == read.path@
                &&& fault_read(read, place)[0].kind == FailureKind::InvalidData
            }
        }),
{
}

proof fn lemma_terminated_in(front: Seq<u8>, back: Seq<u8>, count: int)
    requires
        0 <= count <= front.len() + back.len(),
    ensures
        terminated_lines(front + back, count) == (if count <= front.len() {
            terminated_lines(front, count)
        } else {
            terminated_lines(front, front.len() as int) + terminated_lines(
                back,
                count - front.len(),
            )
        }),
    decreases count,
{
    if count > 0 {
        lemma_terminated_in(front, back, count - 1);
        assert(terminated_lines(back, 0) == 0);
        if count > front.len() {
            assert((front + back)[count - 1] == back[count - 1 - front.len()]);
        } else {
            assert((front + back)[count - 1] == front[count - 1]);
        }
    }
}

proof fn lemma_no_line_ends(line: Seq<u8>, count: int)
    requires
        !line.contains(NEWLINE),
        0 <= count <= line.len(),
    ensures
        terminated_lines(line, count) == 0,
    decreases count,
{
    if count > 0 {
        lemma_no_line_ends(line, count - 1);
        assert(line.contains(line[count - 1]));
    }
}

/// A file has as many lines as it has line ends, and one more where its last
/// line is not terminated.
pub proof fn law_lines_are_counted_one_by_one(line: Seq<u8>, rest: Seq<u8>)
    requires
        !line.contains(NEWLINE),
    ensures
        line_count(line.push(NEWLINE) + rest) == 1 + line_count(rest),
        line_count(line) == (if line.len() > 0 {
            1int
        } else {
            0int
        }),
{
    let front = line.push(NEWLINE);
    let whole = front + rest;
    let none = Seq::<u8>::empty();
    lemma_no_line_ends(line, line.len() as int);
    lemma_terminated_in(front, rest, whole.len() as int);
    lemma_terminated_in(line, seq![NEWLINE], front.len() as int);
    assert(line + seq![NEWLINE] =~= front);
    reveal_with_fuel(terminated_lines, 2);
    assert(terminated_lines(seq![NEWLINE], 1) == 1);
    assert(terminated_lines(front, front.len() as int) == 1);
    if rest.len() > 0 {
        assert(whole.last() == rest.last());
    } else {
        assert(whole =~= front);
        assert(whole.last() == NEWLINE);
    }
    assert(line.len() > 0 ==> line.contains(line.last()));
}

/// A worktree's own configuration counts exactly where the common one asks for
/// it, and then on top of it.
pub proof fn law_a_worktree_is_configured_where_it_is_asked_for(
    common: Seq<u8>,
    worktree: Seq<u8>,
)
    ensures
        ({
            let none = GitConfig {
                ignore_case: None,
                precompose_unicode: None,
                worktree_config: None,
            };
            let shared = repository_config(Some(common), None);
            &&& shared == after_config(none, common)
            &&& repository_config(Some(common), Some(worktree)) == (if shared.worktree_config
                == Some(true) {
                after_config(shared, worktree)
            } else {
                shared
            })
            &&& repository_config(None, Some(worktree)) == none
        }),
{
}

/// What the caller says of a setting holds, else what the repository says, and
/// a setting that nobody makes is off.
pub proof fn law_the_caller_overrides_the_repository(said: bool, configured: Option<bool>)
    ensures
        in_force(Some(said), configured) == said,
        in_force(None, configured) == (configured == Some(true)),
{
}

} // verus!
