//! Ignore rules: lines of an ignore file, compiled and asked about candidates.
//!
//! A line is planned by [`crate::rule_syntax`]; here each component's text is
//! compiled, and the rules of one file answer together: the last rule that
//! matches decides.
use vstd::prelude::*;
use vstd::slice::slice_subrange;
use vstd::utf8::encode_utf8;

use crate::bytes::SLASH;
use crate::components::{covers_from, covers_names, path_names, split_names};
use crate::glob::{
    compile_failure, holds_every_run, matches_path, plain_text, Dialect, Glob,
};
use crate::rule_laws::{ends_in_a_name, lemma_the_last_name_decides, names_no_directory};
use crate::rule_syntax::{parts_of, plan_of_line, plan_rule, Part, Plan, RulePart};
use crate::search::{find, occurs_in};
use crate::unicode::{composed_path, normalize_candidate};

verus! {

/// How one rule component is read.
///
/// Braces and extended globs are no syntax of ignore files. Hidden files are
/// matchable: an ignore rule is expected to see them. Recursive stars are off
/// because a `**` component never reaches the compiler. Folding is of ASCII
/// letters only, in literals and bracket classes.
pub open spec fn component_dialect(case_insensitive: bool) -> Dialect {
    Dialect {
        braces: false,
        recursive_double_star: false,
        extglob: false,
        match_hidden: true,
        case_insensitive,
    }
}

/// Whether every text among `parts` compiles.
pub open spec fn all_compile(parts: Seq<Part>) -> bool {
    forall|i: int|
        0 <= i < parts.len() ==> match #[trigger] parts[i] {
            Part::AnyDirs => true,
            Part::Text(text) => compile_failure(text, false, false, false) is None,
        }
}

/// What is left of a plan once its texts are compiled: nothing where the
/// spanning form does not compile, and no zero-width form where that does not.
pub open spec fn compiled_plan(plan: Plan) -> Option<Plan> {
    if !all_compile(plan.components) {
        None
    } else {
        Some(
            Plan {
                zero: match plan.zero {
                    Some(parts) => if all_compile(parts) {
                        Some(parts)
                    } else {
                        None
                    },
                    None => None,
                },
                ..plan
            },
        )
    }
}

/// The rule a line of an ignore file stands for, if it is one.
pub open spec fn rule_of_line(line: Seq<u8>, case_insensitive: bool) -> Option<Plan> {
    match plan_of_line(line, case_insensitive) {
        Some(plan) => compiled_plan(plan),
        None => None,
    }
}

/// Which of `parts` are runs of directories.
pub open spec fn runs_of(parts: Seq<Part>) -> Seq<bool> {
    Seq::new(parts.len(), |i: int| parts[i] is AnyDirs)
}

/// Whether a component that is no run accepts one name.
pub open spec fn part_accepts(part: Part, case_insensitive: bool, name: Seq<u8>) -> bool {
    match part {
        Part::AnyDirs => false,
        Part::Text(text) => matches_path(text, component_dialect(case_insensitive), name),
    }
}

/// Which of `parts` accepts which of `names`.
pub open spec fn acceptance(
    parts: Seq<Part>,
    case_insensitive: bool,
    names: Seq<Seq<u8>>,
) -> Seq<Seq<bool>> {
    Seq::new(
        parts.len(),
        |i: int|
            Seq::new(names.len(), |j: int| part_accepts(parts[i], case_insensitive, names[j])),
    )
}

/// Whether a rule's components match the whole candidate.
pub open spec fn parts_match(
    parts: Seq<Part>,
    case_insensitive: bool,
    candidate: Seq<u8>,
) -> bool {
    let names = path_names(candidate);
    covers_from(
        runs_of(parts),
        acceptance(parts, case_insensitive, names),
        names.len() as int,
        0,
        0,
    )
}

/// Whether a rule matches a candidate.
pub open spec fn plan_matches(
    plan: Plan,
    case_insensitive: bool,
    candidate: Seq<u8>,
    is_dir: bool,
) -> bool {
    &&& is_dir || !plan.directory_only
    &&& match plan.gate {
        Some(run) => occurs_in(candidate, run),
        None => true,
    }
    &&& parts_match(plan.components, case_insensitive, candidate) || match plan.zero {
        Some(parts) => parts_match(parts, case_insensitive, candidate),
        None => false,
    }
}

/// What asking a component about a name has shown: where a plain text accepts
/// the name, its literal runs stand in it.
pub open spec fn shown(part: Part, case_insensitive: bool, name: Seq<u8>) -> bool {
    match part {
        Part::AnyDirs => true,
        Part::Text(text) => part_accepts(part, case_insensitive, name) && plain_text(text)
            && !case_insensitive ==> holds_every_run(text, name),
    }
}

/// What asking every component about every name of a candidate has shown.
pub open spec fn all_shown(parts: Seq<Part>, case_insensitive: bool, names: Seq<Seq<u8>>) -> bool {
    forall|i: int, j: int|
        0 <= i < parts.len() && 0 <= j < names.len() ==> #[trigger] shown(
            parts[i],
            case_insensitive,
            names[j],
        )
}

/// What asking a rule about a candidate has shown. A rule that does not apply,
/// or whose gate is shut, asks nothing.
pub open spec fn asked(rule: RuleModel, candidate: Seq<u8>, is_dir: bool) -> bool {
    (is_dir || !rule.plan.directory_only) && match rule.plan.gate {
        Some(run) => occurs_in(candidate, run),
        None => true,
    } ==> all_shown(rule.plan.components, rule.case_insensitive, path_names(candidate))
}

/// A rule as the verdict of a set of rules sees it.
pub ghost struct RuleModel {
    pub plan: Plan,
    pub case_insensitive: bool,
}

/// The verdict of the last of the first `count` rules that matches: whether it
/// ignores, or nothing where none matches.
pub open spec fn verdict_of(
    rules: Seq<RuleModel>,
    count: int,
    candidate: Seq<u8>,
    is_dir: bool,
) -> Option<bool>
    decreases count,
{
    if count <= 0 {
        None
    } else {
        let rule = rules[count - 1];
        if plan_matches(rule.plan, rule.case_insensitive, candidate, is_dir) {
            Some(!rule.plan.negated)
        } else {
            verdict_of(rules, count - 1, candidate, is_dir)
        }
    }
}

/// The last matching rule decides: a verdict comes from a rule that matches
/// and is followed by none that does, and there is no verdict exactly where no
/// rule matches.
pub proof fn law_last_match_decides(
    rules: Seq<RuleModel>,
    count: int,
    candidate: Seq<u8>,
    is_dir: bool,
)
    requires
        0 <= count <= rules.len(),
    ensures
        match verdict_of(rules, count, candidate, is_dir) {
            Some(ignored) => exists|i: int|
                #![trigger rules[i]]
                0 <= i < count && plan_matches(
                    rules[i].plan,
                    rules[i].case_insensitive,
                    candidate,
                    is_dir,
                ) && ignored == !rules[i].plan.negated && forall|j: int|
                    #![trigger rules[j]]
                    i < j < count ==> !plan_matches(
                        rules[j].plan,
                        rules[j].case_insensitive,
                        candidate,
                        is_dir,
                    ),
            None => forall|i: int|
                #![trigger rules[i]]
                0 <= i < count ==> !plan_matches(
                    rules[i].plan,
                    rules[i].case_insensitive,
                    candidate,
                    is_dir,
                ),
        },
    decreases count,
{
    if count > 0 {
        let rule = rules[count - 1];
        if !plan_matches(rule.plan, rule.case_insensitive, candidate, is_dir) {
            law_last_match_decides(rules, count - 1, candidate, is_dir);
        }
    }
}

/// A rule that comes later overrides every rule before it on what it matches.
pub proof fn law_a_later_rule_overrides(
    rules: Seq<RuleModel>,
    later: RuleModel,
    candidate: Seq<u8>,
    is_dir: bool,
)
    ensures
        verdict_of(rules.push(later), rules.len() as int + 1, candidate, is_dir) == (
        if plan_matches(later.plan, later.case_insensitive, candidate, is_dir) {
            Some(!later.plan.negated)
        } else {
            verdict_of(rules, rules.len() as int, candidate, is_dir)
        }),
{
    let longer = rules.push(later);
    assert(longer[rules.len() as int] == later);
    lemma_verdict_of_prefix(longer, rules, rules.len() as int, candidate, is_dir);
}

proof fn lemma_verdict_of_prefix(
    longer: Seq<RuleModel>,
    rules: Seq<RuleModel>,
    count: int,
    candidate: Seq<u8>,
    is_dir: bool,
)
    requires
        count <= rules.len() <= longer.len(),
        forall|i: int| 0 <= i < rules.len() ==> longer[i] == rules[i],
    ensures
        verdict_of(longer, count, candidate, is_dir) == verdict_of(
            rules,
            count,
            candidate,
            is_dir,
        ),
    decreases count,
{
    if count > 0 {
        lemma_verdict_of_prefix(longer, rules, count - 1, candidate, is_dir);
    }
}

/// How a rule component is read.
pub fn component_options(case_insensitive: bool) -> (result: Dialect)
    ensures
        result == component_dialect(case_insensitive),
{
    Dialect {
        braces: false,
        recursive_double_star: false,
        extglob: false,
        match_hidden: true,
        case_insensitive,
    }
}

/// One component of a compiled rule.
#[derive(Debug)]
enum Component {
    /// A `**` component: zero or more whole path components.
    AnyDirs,
    /// One component, matched by a pattern.
    Pattern(Glob),
}

impl Component {
    spec fn part(&self) -> Part {
        match self {
            Component::AnyDirs => Part::AnyDirs,
            Component::Pattern(glob) => Part::Text(glob.text()),
        }
    }

    spec fn reads(&self, dialect: Dialect) -> bool {
        match self {
            Component::AnyDirs => true,
            Component::Pattern(glob) => glob.dialect() == dialect,
        }
    }
}

spec fn parts_in(components: Seq<Component>) -> Seq<Part> {
    Seq::new(components.len(), |i: int| components[i].part())
}

spec fn all_read(components: Seq<Component>, dialect: Dialect) -> bool {
    forall|i: int| 0 <= i < components.len() ==> (#[trigger] components[i]).reads(dialect)
}

/// A compiled rule.
#[derive(Debug)]
pub struct Rule {
    /// The directory-spanning form of the rule.
    components: Vec<Component>,
    /// The form in which the one partial suffix run, and any whole runs next
    /// to it, take their zero-width form.
    zero_components: Option<Vec<Component>>,
    /// The longest run of literal bytes the rule requires.
    ///
    /// A rule that spells out `node_modules` cannot match a candidate that
    /// does not contain those bytes, so one substring search rejects it before
    /// the component walk starts.
    gate: Option<Vec<u8>>,
    /// `!` prefix: a match re-includes instead of ignoring.
    negated: bool,
    /// Trailing `/`: the rule matches directories only.
    directory_only: bool,
    case_insensitive: bool,
}

impl Rule {
    #[verifier::type_invariant]
    spec fn well_formed(&self) -> bool {
        &&& all_read(self.components@, component_dialect(self.case_insensitive))
        &&& match self.zero_components {
            Some(components) => all_read(
                components@,
                component_dialect(self.case_insensitive),
            ),
            None => true,
        }
    }

    /// What the rule asks for.
    pub closed spec fn model(&self) -> RuleModel {
        RuleModel {
            plan: Plan {
                components: parts_in(self.components@),
                zero: match self.zero_components {
                    Some(components) => Some(parts_in(components@)),
                    None => None,
                },
                gate: match self.gate {
                    Some(run) => Some(run@),
                    None => None,
                },
                negated: self.negated,
                directory_only: self.directory_only,
            },
            case_insensitive: self.case_insensitive,
        }
    }

    /// Whether a match re-includes instead of ignoring.
    pub fn negated(&self) -> (result: bool)
        ensures
            result == self.model().plan.negated,
    {
        self.negated
    }

    /// Whether the rule matches directories only.
    pub fn directory_only(&self) -> (result: bool)
        ensures
            result == self.model().plan.directory_only,
    {
        self.directory_only
    }

    /// Whether the rule matches the candidate.
    pub fn matches(&self, candidate: &[u8], is_dir: bool) -> (result: bool)
        ensures
            result == plan_matches(
                self.model().plan,
                self.model().case_insensitive,
                candidate@,
                is_dir,
            ),
            asked(self.model(), candidate@, is_dir),
    {
        proof {
            use_type_invariant(self);
        }
        if self.directory_only && !is_dir {
            return false;
        }
        if let Some(run) = &self.gate {
            if find(candidate, run.as_slice()).is_none() {
                return false;
            }
        }
        if matches_components(&self.components, self.case_insensitive, candidate) {
            return true;
        }
        match &self.zero_components {
            Some(components) => matches_components(components, self.case_insensitive, candidate),
            None => false,
        }
    }
}

/// Whether the rule's components match the whole candidate.
fn matches_components(
    components: &Vec<Component>,
    case_insensitive: bool,
    candidate: &[u8],
) -> (result: bool)
    requires
        all_read(components@, component_dialect(case_insensitive)),
    ensures
        result == parts_match(parts_in(components@), case_insensitive, candidate@),
        all_shown(parts_in(components@), case_insensitive, path_names(candidate@)),
{
    let names = split_names(candidate);
    let ghost parts = parts_in(components@);
    let ghost listed = path_names(candidate@);
    let mut runs: Vec<bool> = Vec::new();
    let mut accepts: Vec<Vec<bool>> = Vec::new();
    assert(names@.len() == listed.len()) by {
        assert(Seq::new(names@.len(), |i: int| names@[i]@).len() == listed.len());
    }
    let mut i: usize = 0;
    while i < components.len()
        invariant
            i <= components@.len(),
            all_read(components@, component_dialect(case_insensitive)),
            parts == parts_in(components@),
            listed == Seq::new(names@.len(), |k: int| names@[k]@),
            runs@.len() == i,
            accepts@.len() == i,
            forall|k: int| 0 <= k < i ==> runs@[k] == (#[trigger] parts[k] is AnyDirs),
            forall|k: int|
                0 <= k < i ==> (#[trigger] accepts@[k])@ == acceptance(
                    parts,
                    case_insensitive,
                    listed,
                )[k],
            forall|k: int, j: int|
                0 <= k < i && 0 <= j < listed.len() ==> #[trigger] shown(
                    parts[k],
                    case_insensitive,
                    listed[j],
                ),
        decreases components@.len() - i,
    {
        let row = accepted_names(&components[i], case_insensitive, &names);
        assert(parts[i as int] == components@[i as int].part());
        assert(row@ =~= acceptance(parts, case_insensitive, listed)[i as int]);
        runs.push(matches!(components[i], Component::AnyDirs));
        accepts.push(row);
        i += 1;
    }
    assert(runs@ =~= runs_of(parts));
    assert(Seq::new(accepts@.len(), |k: int| accepts@[k]@) =~= acceptance(
        parts,
        case_insensitive,
        listed,
    ));
    covers_names(runs.as_slice(), &accepts, names.len())
}

/// Which of `names` one component accepts.
fn accepted_names(component: &Component, case_insensitive: bool, names: &Vec<&[u8]>) -> (result:
    Vec<bool>)
    requires
        component.reads(component_dialect(case_insensitive)),
    ensures
        result@ == Seq::new(
            names@.len(),
            |j: int| part_accepts(component.part(), case_insensitive, names@[j]@),
        ),
        forall|j: int|
            0 <= j < names@.len() ==> shown(
                component.part(),
                case_insensitive,
                (#[trigger] names@[j])@,
            ),
{
    let mut row: Vec<bool> = Vec::new();
    let mut j: usize = 0;
    while j < names.len()
        invariant
            j <= names@.len(),
            forall|k: int|
                0 <= k < j ==> shown(component.part(), case_insensitive, (#[trigger] names@[k])@),
            component.reads(component_dialect(case_insensitive)),
            row@ == Seq::new(
                j as nat,
                |k: int| part_accepts(component.part(), case_insensitive, names@[k]@),
            ),
        decreases names@.len() - j,
    {
        let accepted = match component {
            Component::AnyDirs => false,
            Component::Pattern(glob) => glob.is_match_glob_path(names[j]),
        };
        row.push(accepted);
        j += 1;
        assert(row@ =~= Seq::new(
            j as nat,
            |k: int| part_accepts(component.part(), case_insensitive, names@[k]@),
        ));
    }
    row
}

/// Compiles the texts of one form of a rule.
fn compile_parts(parts: &Vec<RulePart>, case_insensitive: bool) -> (result: Option<Vec<Component>>)
    ensures
        result is Some <==> all_compile(parts_of(parts@)),
        match result {
            Some(components) => parts_in(components@) == parts_of(parts@) && all_read(
                components@,
                component_dialect(case_insensitive),
            ),
            None => true,
        },
{
    let ghost all = parts_of(parts@);
    let mut components: Vec<Component> = Vec::new();
    let mut i: usize = 0;
    while i < parts.len()
        invariant
            i <= parts@.len(),
            all == parts_of(parts@),
            components@.len() == i,
            all_read(components@, component_dialect(case_insensitive)),
            forall|k: int| 0 <= k < i ==> (#[trigger] components@[k]).part() == all[k],
            forall|k: int|
                0 <= k < i ==> match #[trigger] all[k] {
                    Part::AnyDirs => true,
                    Part::Text(text) => compile_failure(text, false, false, false) is None,
                },
        decreases parts@.len() - i,
    {
        assert(all[i as int] == parts@[i as int]@);
        let component = match &parts[i] {
            RulePart::AnyDirs => Component::AnyDirs,
            RulePart::Text(text) => match Glob::compile(
                text.as_slice(),
                component_options(case_insensitive),
            ) {
                Ok(glob) => Component::Pattern(glob),
                Err(_) => {
                    return None;
                },
            },
        };
        components.push(component);
        i += 1;
    }
    assert(parts_in(components@) =~= all);
    Some(components)
}

/// Reads one line of an ignore file into a rule, or nothing: a blank line, a
/// comment, a line that can match nothing, or one whose pattern is malformed.
pub fn parse_rule_with_options(line: &[u8], case_insensitive: bool) -> (result: Option<Rule>)
    ensures
        match result {
            Some(rule) => rule_of_line(line@, case_insensitive) == Some(rule.model().plan)
                && rule.model().case_insensitive == case_insensitive,
            None => rule_of_line(line@, case_insensitive) is None,
        },
{
    let plan = match plan_rule(line, case_insensitive) {
        Some(plan) => plan,
        None => {
            return None;
        },
    };
    let components = match compile_parts(&plan.components, case_insensitive) {
        Some(components) => components,
        None => {
            return None;
        },
    };
    let zero_components = match &plan.zero {
        Some(parts) => compile_parts(parts, case_insensitive),
        None => None,
    };
    Some(
        Rule {
            components,
            zero_components,
            gate: plan.gate,
            negated: plan.negated,
            directory_only: plan.directory_only,
            case_insensitive,
        },
    )
}

/// Reads one line of an ignore file in which the case of letters counts.
pub fn parse_rule(line: &[u8]) -> (result: Option<Rule>)
    ensures
        match result {
            Some(rule) => rule_of_line(line@, false) == Some(rule.model().plan)
                && !rule.model().case_insensitive,
            None => rule_of_line(line@, false) is None,
        },
{
    parse_rule_with_options(line, false)
}

/// What rules say.
pub open spec fn models_of(rules: Seq<Rule>) -> Seq<RuleModel> {
    Seq::new(rules.len(), |i: int| rules[i].model())
}

/// The part of `path` below a directory whose prefix is `root_len` bytes, or
/// all of it where it is shorter.
pub open spec fn below(path: Seq<u8>, root_len: int) -> Seq<u8> {
    if root_len <= path.len() {
        path.skip(root_len)
    } else {
        path
    }
}

/// How many bytes of a path are the prefix of a directory: its own bytes and
/// the separator behind them, which it may already end in. The empty directory
/// has no prefix.
pub open spec fn prefix_length(root: Seq<u8>) -> int {
    if root.len() == 0 || root.last() == SLASH {
        root.len() as int
    } else {
        root.len() as int + 1
    }
}

/// The rules of one directory's ignore files, in file order.
#[derive(Debug)]
pub struct RuleSet {
    /// Bytes of the directory the rules are anchored to, without a separator
    /// that has to follow them.
    root_bytes: usize,
    /// Whether a separator follows.
    separator_follows: bool,
    precompose_unicode: bool,
    rules: Vec<Rule>,
}

impl RuleSet {
    /// How many bytes of a path belong to the directory of the rules.
    pub closed spec fn root_len(&self) -> int {
        if self.separator_follows {
            self.root_bytes + 1
        } else {
            self.root_bytes as int
        }
    }

    /// Whether names are composed before they are matched.
    pub closed spec fn precomposes(&self) -> bool {
        self.precompose_unicode
    }

    /// The rules, in file order.
    pub closed spec fn rules(&self) -> Seq<RuleModel> {
        models_of(self.rules@)
    }

    /// What of `path` the rules see.
    pub open spec fn candidate_of(&self, path: Seq<u8>) -> Seq<u8> {
        let candidate = below(path, self.root_len());
        if self.precomposes() {
            composed_path(candidate, 0)
        } else {
            candidate
        }
    }

    /// The verdict on `path`.
    pub open spec fn verdict(&self, path: Seq<u8>, is_dir: bool) -> Option<bool> {
        verdict_of(self.rules(), self.rules().len() as int, self.candidate_of(path), is_dir)
    }

    /// Whether there is no rule.
    pub fn is_empty(&self) -> (result: bool)
        ensures
            result == (self.rules().len() == 0),
    {
        self.rules.len() == 0
    }

    /// The verdict of the last rule that matches, or nothing where none does.
    ///
    /// `path` is the candidate's whole path; the part below this set's
    /// directory is what the rules see.
    pub fn matched(&self, path: &[u8], is_dir: bool) -> (result: Option<bool>)
        ensures
            result == self.verdict(path@, is_dir),
            self.rules().len() > 0 ==> asked(
                self.rules().last(),
                self.candidate_of(path@),
                is_dir,
            ),
    {
        let shorter = path.len() < self.root_bytes || (self.separator_follows && path.len()
            == self.root_bytes);
        let start: usize = if shorter {
            0
        } else if self.separator_follows {
            self.root_bytes + 1
        } else {
            self.root_bytes
        };
        let candidate = slice_subrange(path, start, path.len());
        assert(candidate@ =~= below(path@, self.root_len()));
        if self.precompose_unicode {
            let composed = normalize_candidate(candidate);
            self.matched_candidate(composed.as_slice(), is_dir)
        } else {
            self.matched_candidate(candidate, is_dir)
        }
    }

    fn matched_candidate(&self, candidate: &[u8], is_dir: bool) -> (result: Option<bool>)
        ensures
            result == verdict_of(
                self.rules(),
                self.rules().len() as int,
                candidate@,
                is_dir,
            ),
            self.rules().len() > 0 ==> asked(self.rules().last(), candidate@, is_dir),
    {
        let mut count: usize = self.rules.len();
        while count > 0
            invariant
                self.rules().len() > count ==> asked(self.rules().last(), candidate@, is_dir),
                count <= self.rules@.len(),
                self.rules() == models_of(self.rules@),
                verdict_of(self.rules(), self.rules().len() as int, candidate@, is_dir)
                    == verdict_of(self.rules(), count as int, candidate@, is_dir),
            decreases count,
        {
            let rule = &self.rules[count - 1];
            assert(self.rules()[count - 1] == rule.model());
            if rule.matches(candidate, is_dir) {
                return Some(!rule.negated());
            }
            count -= 1;
        }
        None
    }
}

/// Collects the rules of one or more ignore files for the same directory.
#[derive(Debug)]
pub struct RuleSetBuilder {
    root_bytes: usize,
    separator_follows: bool,
    case_insensitive: bool,
    precompose_unicode: bool,
    rules: Vec<Rule>,
}

impl RuleSetBuilder {
    /// How many bytes of a path belong to the directory of the rules.
    pub closed spec fn root_len(&self) -> int {
        if self.separator_follows {
            self.root_bytes + 1
        } else {
            self.root_bytes as int
        }
    }

    /// Whether the case of letters does not count.
    pub closed spec fn folds_case(&self) -> bool {
        self.case_insensitive
    }

    /// Whether names are composed before they are matched.
    pub closed spec fn precomposes(&self) -> bool {
        self.precompose_unicode
    }

    /// The rules so far.
    pub closed spec fn rules(&self) -> Seq<RuleModel> {
        models_of(self.rules@)
    }

    /// Starts the rules of the directory `root`.
    pub fn new(root: &[u8], case_insensitive: bool, precompose_unicode: bool) -> (result: Self)
        ensures
            result.root_len() == prefix_length(root@),
            result.folds_case() == case_insensitive,
            result.precomposes() == precompose_unicode,
            result.rules() == Seq::<RuleModel>::empty(),
    {
        let separator_follows = root.len() > 0 && root[root.len() - 1] != SLASH;
        let rules: Vec<Rule> = Vec::new();
        assert(models_of(rules@) =~= Seq::<RuleModel>::empty());
        RuleSetBuilder {
            root_bytes: root.len(),
            separator_follows,
            case_insensitive,
            precompose_unicode,
            rules,
        }
    }

    /// Adds one line. A line that is blank, a comment, or malformed adds
    /// nothing.
    pub fn add_line(&mut self, line: &[u8])
        ensures
            final(self).root_len() == old(self).root_len(),
            final(self).folds_case() == old(self).folds_case(),
            final(self).precomposes() == old(self).precomposes(),
            final(self).rules() == (match rule_of_line(line@, old(self).folds_case()) {
                Some(plan) => old(self).rules().push(
                    RuleModel { plan, case_insensitive: old(self).folds_case() },
                ),
                None => old(self).rules(),
            }),
    {
        if let Some(rule) = parse_rule_with_options(line, self.case_insensitive) {
            let ghost before = models_of(self.rules@);
            self.rules.push(rule);
            assert(models_of(self.rules@) =~= before.push(rule.model()));
        }
    }

    /// The rules as a set.
    pub fn build(self) -> (result: RuleSet)
        ensures
            result.root_len() == self.root_len(),
            result.precomposes() == self.precomposes(),
            result.rules() == self.rules(),
    {
        RuleSet {
            root_bytes: self.root_bytes,
            separator_follows: self.separator_follows,
            precompose_unicode: self.precompose_unicode,
            rules: self.rules,
        }
    }
}

/// The verdict one line gives on one root-relative candidate.
pub open spec fn verdict_of_line(line: Seq<u8>, candidate: Seq<u8>, is_dir: bool) -> Option<bool> {
    match rule_of_line(line, false) {
        Some(plan) => if plan_matches(plan, false, candidate, is_dir) {
            Some(!plan.negated)
        } else {
            None
        },
        None => None,
    }
}

/// Reads one rule line and asks it about one candidate.
pub fn fuzz_rule(line: &str, candidate: &[u8], is_dir: bool) -> (result: Option<bool>)
    ensures
        result == verdict_of_line(encode_utf8(line@), candidate@, is_dir),
        names_no_directory(encode_utf8(line@)) && ends_in_a_name(candidate@) ==> result
            == verdict_of_line(encode_utf8(line@), path_names(candidate@).last(), is_dir),
{
    fuzz_rule_bytes(line.as_bytes(), candidate, is_dir)
}

/// Reads one rule line, which need not be valid UTF-8, and asks it about one
/// candidate.
///
/// A plain line without a separator matches at any level: it looks at the last
/// name of the candidate and at nothing else.
pub fn fuzz_rule_bytes(line: &[u8], candidate: &[u8], is_dir: bool) -> (result: Option<bool>)
    ensures
        result == verdict_of_line(line@, candidate@, is_dir),
        names_no_directory(line@) && ends_in_a_name(candidate@) ==> result == verdict_of_line(
            line@,
            path_names(candidate@).last(),
            is_dir,
        ),
{
    let root: Vec<u8> = Vec::new();
    let mut builder = RuleSetBuilder::new(root.as_slice(), false, false);
    builder.add_line(line);
    let rules = builder.build();
    proof {
        assert(below(candidate@, 0) =~= candidate@);
        reveal_with_fuel(verdict_of, 2);
    }
    let result = rules.matched(candidate, is_dir);
    proof {
        if names_no_directory(line@) && ends_in_a_name(candidate@) {
            lemma_the_last_name_decides(line@, candidate@, is_dir);
        }
    }
    result
}

} // verus!
