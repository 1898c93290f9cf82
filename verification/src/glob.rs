//! Glob patterns, compiled and matched by the `ferralk_glob` crate.
//!
//! What that crate decides is named here: which patterns compile, what they
//! match, and what a braced pattern stands for. The rest of the library speaks
//! of its answers through these names.
use vstd::prelude::*;
use vstd::slice::slice_to_vec;

use crate::bytes::{BACKSLASH, SLASH};
use crate::literal::contents;
use crate::pattern_error::{PatternError, Refusal};
use crate::rule_syntax::{class_name_end, class_name_opens, literal_runs};
use crate::search::occurs_in;

verus! {

/// A compiled pattern of `ferralk_glob`.
#[verifier::external_type_specification]
#[verifier::external_body]
pub struct ExPattern(ferralk_glob::Pattern);

/// Copies a compiled pattern: `ferralk_glob::Pattern` derives `Clone`, so the
/// copy is field by field the pattern itself.
pub assume_specification[ <ferralk_glob::Pattern as Clone>::clone ](
    pattern: &ferralk_glob::Pattern,
) -> (copy: ferralk_glob::Pattern)
    ensures
        copy == *pattern,
;

/// The switches a pattern is read under. Escapes are always on.
#[derive(Debug, Clone, Copy, PartialEq, Eq, Structural)]
pub struct Dialect {
    /// Nested brace alternatives.
    pub braces: bool,
    /// A consecutive `**` crosses separators.
    pub recursive_double_star: bool,
    /// Bash-style extended globs.
    pub extglob: bool,
    /// Wildcards may match a leading period in a path component.
    pub match_hidden: bool,
    /// ASCII letters match without regard to case.
    pub case_insensitive: bool,
}

/// Why `ferralk_glob::Pattern::compile` refuses a pattern: the offset and the
/// message of its error, or nothing where the pattern compiles.
pub uninterp spec fn compile_failure(
    pattern: Seq<u8>,
    braces: bool,
    recursive_double_star: bool,
    extglob: bool,
) -> Option<(usize, Seq<char>)>;

/// What `ferralk_glob::Pattern::is_match_glob_path` answers for a pattern that
/// compiles: whether it matches the path with every ordinary wildcard kept
/// inside one component.
pub uninterp spec fn matches_path(pattern: Seq<u8>, dialect: Dialect, path: Seq<u8>) -> bool;

/// What `ferralk_glob::Pattern::is_match` answers for a pattern that compiles:
/// whether it matches the path with wildcards free to cross separators.
pub uninterp spec fn matches_text(pattern: Seq<u8>, dialect: Dialect, path: Seq<u8>) -> bool;

/// What `ferralk_glob::expand_braces` makes of a pattern: the plain patterns
/// it stands for, or the offset and the message of its error.
pub uninterp spec fn brace_expansion(pattern: Seq<u8>, braces: bool) -> Result<
    Seq<Seq<u8>>,
    (usize, Seq<char>),
>;

/// The model of a failure reported as an offset and a message.
pub open spec fn refusal_of(failure: (usize, Seq<char>)) -> Refusal {
    Refusal { offset: failure.0 as int, message: failure.1 }
}

/// Whether `bytes` are the ASCII characters of `word`.
pub open spec fn spells(bytes: Seq<u8>, word: Seq<char>) -> bool {
    bytes.len() == word.len() && forall|i: int|
        0 <= i < word.len() ==> #[trigger] bytes[i] == word[i] as int
}

/// The names of sets of bytes that a bracket class may hold between `[:` and
/// `:]`.
pub open spec fn is_class_name(name: Seq<u8>) -> bool {
    ||| spells(name, "alnum"@)
    ||| spells(name, "alpha"@)
    ||| spells(name, "ascii"@)
    ||| spells(name, "blank"@)
    ||| spells(name, "cntrl"@)
    ||| spells(name, "digit"@)
    ||| spells(name, "graph"@)
    ||| spells(name, "lower"@)
    ||| spells(name, "print"@)
    ||| spells(name, "punct"@)
    ||| spells(name, "space"@)
    ||| spells(name, "upper"@)
    ||| spells(name, "word"@)
    ||| spells(name, "xdigit"@)
}

/// Whether the class name that opens at `at` is known and closed.
pub open spec fn class_name_stands(text: Seq<u8>, at: int) -> bool {
    match class_name_end(text, at + 2) {
        Some(end) => is_class_name(text.subrange(at + 2, end)),
        None => false,
    }
}

/// Whether a text is made of plain bytes, wildcards and bracket classes alone:
/// no separator and no escape is in it, and every class name is a known one.
pub open spec fn plain_text(text: Seq<u8>) -> bool {
    &&& !text.contains(SLASH)
    &&& !text.contains(BACKSLASH)
    &&& forall|i: int|
        0 <= i < text.len() && #[trigger] class_name_opens(text, i) ==> class_name_stands(text, i)
}

/// Whether nothing but wildcards and bracket classes is special, and the case
/// of letters counts.
pub open spec fn plain_dialect(dialect: Dialect) -> bool {
    !dialect.braces && !dialect.recursive_double_star && !dialect.extglob
        && !dialect.case_insensitive
}

/// Whether every run of a text outside wildcards and bracket classes stands in
/// `path`.
pub open spec fn holds_every_run(text: Seq<u8>, path: Seq<u8>) -> bool {
    forall|i: int|
        0 <= i < literal_runs(text, 0, Seq::empty()).len() ==> occurs_in(
            path,
            #[trigger] literal_runs(text, 0, Seq::empty())[i],
        )
}

/// Why a pattern does not compile under `dialect`. Whether hidden names or the
/// case of letters count is a question of matching, never of syntax.
pub open spec fn failure_in(pattern: Seq<u8>, dialect: Dialect) -> Option<(usize, Seq<char>)> {
    compile_failure(pattern, dialect.braces, dialect.recursive_double_star, dialect.extglob)
}

/// The plain patterns a pattern stands for.
///
/// Calls `ferralk_glob::expand_braces`. Claimed of it: its outcome is a
/// function of the pattern and of the braces switch; without braces a pattern
/// stands for itself; there is at least one alternative; and the offset of an
/// error lies in the pattern.
#[verifier::external_body]
pub(crate) fn expand_braces(pattern: &[u8], dialect: Dialect) -> (result: Result<
    Vec<Vec<u8>>,
    PatternError,
>)
    ensures
        match result {
            Ok(alternatives) => brace_expansion(pattern@, dialect.braces) == Ok::<
                Seq<Seq<u8>>,
                (usize, Seq<char>),
            >(contents(alternatives@)) && alternatives@.len() > 0,
            Err(error) => brace_expansion(pattern@, dialect.braces) is Err && error@ == refusal_of(
                brace_expansion(pattern@, dialect.braces)->Err_0,
            ) && error@.offset <= pattern@.len(),
        },
        !dialect.braces ==> result is Ok && contents(result->Ok_0@) == seq![pattern@],
{
    let options = ferralk_glob::PatternOptions::default().braces(dialect.braces);
    ferralk_glob::expand_braces(pattern, options)
        .map_err(|error| PatternError::new(error.offset(), error.message()))
}

/// A compiled pattern, with the text and the dialect it was compiled from.
///
/// One comes from [`Glob::compile`], which keeps the three together, or is a
/// copy of another.
#[derive(Debug)]
pub struct Glob {
    text: Vec<u8>,
    dialect: Dialect,
    compiled: ferralk_glob::Pattern,
}

impl Glob {
    /// The text the pattern was compiled from.
    pub closed spec fn text(&self) -> Seq<u8> {
        self.text@
    }

    /// The dialect the pattern was compiled in.
    pub closed spec fn dialect(&self) -> Dialect {
        self.dialect
    }

    /// What the text was compiled to.
    pub closed spec fn compiled(&self) -> ferralk_glob::Pattern {
        self.compiled
    }

    /// Compiles a pattern once for repeated matching.
    ///
    /// Calls `ferralk_glob::Pattern::compile`. Claimed of it: whether it
    /// succeeds, and the error it gives, are a function of the pattern and of
    /// the braces, double-star and extended-glob switches; the other two
    /// switches are read only while matching. The offset of an error lies in
    /// the pattern. What compiles is kept with the text and the dialect it was
    /// compiled from.
    #[verifier::external_body]
    pub(crate) fn compile(pattern: &[u8], dialect: Dialect) -> (result: Result<Self, PatternError>)
        ensures
            match result {
                Ok(glob) => compile_failure(
                    pattern@,
                    dialect.braces,
                    dialect.recursive_double_star,
                    dialect.extglob,
                ) is None && glob.text() == pattern@ && glob.dialect() == dialect,
                Err(error) => failure_in(pattern@, dialect) is Some && error@ == refusal_of(
                    failure_in(pattern@, dialect)->0,
                ) && error@.offset <= pattern@.len(),
            },
    {
        let options = ferralk_glob::PatternOptions::default()
            .braces(dialect.braces)
            .recursive_double_star(dialect.recursive_double_star)
            .extglob(dialect.extglob)
            .match_hidden(dialect.match_hidden)
            .case_insensitive(dialect.case_insensitive);
        match ferralk_glob::Pattern::compile(pattern, options) {
            Ok(compiled) => Ok(Glob { text: pattern.to_vec(), dialect, compiled }),
            Err(error) => Err(PatternError::new(error.offset(), error.message())),
        }
    }

    /// Whether the pattern matches `path` with wildcards kept inside their
    /// component.
    ///
    /// Calls `ferralk_glob::Pattern::is_match_glob_path`. Claimed of it: the
    /// answer is a function of the text and the dialect the pattern was
    /// compiled from and of the path. Which bytes separate components is fixed
    /// when the crate is built, and the name stands for the build at hand. And
    /// of a plain text in a plain dialect: a byte outside wildcards and bracket
    /// classes matches itself and nothing else, so a path that matches holds
    /// every run of such bytes. A class there goes from its bracket to the next
    /// closing one, past what negates it, a closing bracket that comes first and
    /// the class names inside.
    #[verifier::external_body]
    pub(crate) fn is_match_glob_path(&self, path: &[u8]) -> (result: bool)
        ensures
            result == matches_path(self.text(), self.dialect(), path@),
            result && plain_text(self.text()) && plain_dialect(self.dialect())
                ==> holds_every_run(self.text(), path@),
    {
        self.compiled.is_match_glob_path(path)
    }

    /// Whether the pattern matches `path` with wildcards free to cross
    /// separators.
    ///
    /// Calls `ferralk_glob::Pattern::is_match`. Claimed of it: the answer is a
    /// function of the text and the dialect the pattern was compiled from and
    /// of the path, in the build at hand.
    #[verifier::external_body]
    pub(crate) fn is_match(&self, path: &[u8]) -> (result: bool)
        ensures
            result == matches_text(self.text(), self.dialect(), path@),
    {
        self.compiled.is_match(path)
    }
}

impl Clone for Glob {
    fn clone(&self) -> (copy: Self)
        ensures
            copy.text() == self.text(),
            copy.dialect() == self.dialect(),
            copy.compiled() == self.compiled(),
    {
        Glob {
            text: slice_to_vec(self.text.as_slice()),
            dialect: self.dialect,
            compiled: self.compiled.clone(),
        }
    }
}

} // verus!
