//! Walker patterns: how one is read for a root, and what it decides there.
use vstd::prelude::*;
use vstd::slice::{slice_subrange, slice_to_vec};

use crate::absolute::{
    absolute_length, component_at, law_rewrite_undoes_prefixing, names_nothing, ordinary_spelling,
    parent_component_from, path_shape, reject_path_shaped, rewrite_in, rewritten, Rewrite,
    Rewritten, PATH_SHAPED,
};
use crate::bytes::{
    begins_with, is_alphabetic, is_digit, same, BRACKET_OPEN, DOT, QUESTION, SLASH, STAR,
};
use crate::glob::{
    brace_expansion, expand_braces, failure_in, matches_path, matches_text, refusal_of, Dialect,
    Glob,
};
use crate::literal::{
    ascending, contents, every_alternative_has_one, extension, final_extension, is_literal,
    law_a_literal_extension_is_spelled_out,
    law_a_literal_root_is_the_directory_of_the_first_wildcard, law_an_extension_follows_the_last_period,
    law_an_extension_is_what_a_path_ends_in, literal_extension, literal_pattern_root, literal_root,
    literal_suffix, metacharacter_from, one_line_of_descent, prefilter_of_every_alternative,
    shares_a_line_of_descent, spoils_extension, Syntax,
};
use crate::options::WildcardMode;
use crate::pattern_error::{PatternError, Refusal};

verus! {

/// Whether a pattern's text can name an entry of a walk, as the glob compiler
/// sees it once braces and extended globs are expanded.
#[derive(Debug, Clone, Copy, PartialEq, Eq, Structural)]
pub enum WalkerPathViability {
    Viable,
    /// Some alternative holds a `..` component.
    ParentComponent,
    /// The pattern names the walk root itself.
    Root,
    /// The pattern ends in `/.`.
    TrailingDot,
    /// Some other component is `.`.
    DotComponent,
}

/// What the glob compiler tells of one compiled pattern besides its matches.
#[derive(Debug, Clone, Copy, PartialEq, Eq, Structural)]
pub struct PathShape {
    pub viability: WalkerPathViability,
    /// Where the offending construct stands, where that is determinate.
    pub problem: Option<usize>,
    /// Whether the pattern can match a hidden component that wildcards leave
    /// alone.
    pub reaches_hidden: bool,
}

pub const UNRESOLVED_RELATIVE_PARENT: &'static str =
    "`..` in a walker-relative pattern is not resolved, because resolving it lexically would be wrong across a symlink";

pub const NAMES_THE_WALK_ROOT: &'static str =
    "a walker-relative pattern that names the walk root itself selects nothing; add `/**` to select what is inside it";

pub const ENDS_IN_DOT: &'static str =
    "a walker-relative pattern ending in `/.` selects that directory itself; add `/**` to select what is inside it";

pub const HAS_DOT_COMPONENT: &'static str =
    "a walker-relative pattern with a `.` component is not normalized; remove `/.` to name the entry below that directory";

/// Why a pattern of this shape names no entry of a walk.
pub open spec fn shape_refusal(
    viability: WalkerPathViability,
    problem: Option<usize>,
) -> Option<Refusal> {
    let offset = match problem {
        Some(at) => at as int,
        None => 0,
    };
    match viability {
        WalkerPathViability::Viable => None,
        WalkerPathViability::ParentComponent => Some(
            Refusal { offset, message: UNRESOLVED_RELATIVE_PARENT@ },
        ),
        WalkerPathViability::Root => Some(Refusal { offset, message: NAMES_THE_WALK_ROOT@ }),
        WalkerPathViability::TrailingDot => Some(Refusal { offset, message: ENDS_IN_DOT@ }),
        WalkerPathViability::DotComponent => Some(
            Refusal { offset, message: HAS_DOT_COMPONENT@ },
        ),
    }
}

/// Rejects root-relative spellings that name no entry of a walk. Where the
/// place of the problem is not determinate, the error points at the start.
pub fn reject_unwalkable_relative_pattern(
    viability: WalkerPathViability,
    offset: Option<usize>,
) -> (result: Result<(), PatternError>)
    ensures
        match result {
            Ok(()) => shape_refusal(viability, offset) is None,
            Err(error) => shape_refusal(viability, offset) == Some(error@),
        },
{
    let message = match viability {
        WalkerPathViability::Viable => return Ok(()),
        WalkerPathViability::ParentComponent => UNRESOLVED_RELATIVE_PARENT,
        WalkerPathViability::Root => NAMES_THE_WALK_ROOT,
        WalkerPathViability::TrailingDot => ENDS_IN_DOT,
        WalkerPathViability::DotComponent => HAS_DOT_COMPONENT,
    };
    let at: usize = match offset {
        Some(at) => at,
        None => 0,
    };
    Err(PatternError::new(at, message))
}

/// The dialect of every walker pattern.
pub open spec fn traversal_dialect(match_hidden: bool) -> Dialect {
    Dialect {
        braces: true,
        recursive_double_star: true,
        extglob: true,
        match_hidden,
        case_insensitive: false,
    }
}

/// The dialect every walker pattern is compiled in. Only `match_hidden` is the
/// caller's to choose.
pub fn traversal_pattern_options(match_hidden: bool) -> (result: Dialect)
    ensures
        result == traversal_dialect(match_hidden),
{
    Dialect {
        braces: true,
        recursive_double_star: true,
        extglob: true,
        match_hidden,
        case_insensitive: false,
    }
}

/// A refusal of text that stands at `start` of the caller's pattern, as the
/// caller sees it.
pub open spec fn rebased(refusal: Refusal, start: int) -> Refusal {
    Refusal { offset: start + refusal.offset, message: refusal.message }
}

fn rebase_pattern_error(error: PatternError, source_start: usize) -> (result: PatternError)
    requires
        source_start + error@.offset <= usize::MAX,
    ensures
        result@ == rebased(error@, source_start as int),
{
    PatternError::new(source_start + error.offset(), error.message())
}

/// What a pattern reads for a root before it is compiled: its bytes and where
/// they stand in the caller's text, or that it is about another tree.
pub ghost enum Reading {
    Refused(Refusal),
    Outside,
    Text { bytes: Seq<u8>, source_start: int },
}

/// The refusal of text that is written as a Windows path.
pub open spec fn path_refusal(text: Seq<u8>, syntax: Syntax) -> Option<Refusal> {
    match path_shape(text, syntax) {
        Some(at) => Some(Refusal { offset: at, message: PATH_SHAPED@ }),
        None => None,
    }
}

/// What `pattern` reads for a walk rooted at `root`. A pattern about another
/// tree needs no second reason to select nothing, so its text is not judged.
pub open spec fn reading(pattern: Seq<u8>, root: Seq<u8>, syntax: Syntax) -> Reading {
    match rewritten(pattern, root, syntax) {
        Rewritten::Refused(refusal) => Reading::Refused(refusal),
        Rewritten::Outside => Reading::Outside,
        Rewritten::Relative => match path_refusal(pattern, syntax) {
            Some(refusal) => Reading::Refused(refusal),
            None => Reading::Text { bytes: pattern, source_start: 0 },
        },
        Rewritten::Rooted { bytes, source_start } => match path_refusal(bytes, syntax) {
            Some(refusal) => Reading::Refused(rebased(refusal, source_start)),
            None => Reading::Text { bytes, source_start },
        },
    }
}

/// The text a pattern reads for a root, and where it stands in the caller's.
#[derive(Debug)]
pub struct RewrittenPattern {
    pub bytes: Vec<u8>,
    pub source_start: usize,
}

/// The model of an executed reading's outcome.
pub open spec fn reading_of(result: Result<Option<RewrittenPattern>, PatternError>) -> Reading {
    match result {
        Ok(Some(text)) => Reading::Text {
            bytes: text.bytes@,
            source_start: text.source_start as int,
        },
        Ok(None) => Reading::Outside,
        Err(error) => Reading::Refused(error@),
    }
}

/// Relates a pattern to a root: absolute patterns lose the root, and text that
/// is written as a path is refused.
pub fn rewrite_pattern_for_root_with_source(pattern: &[u8], root: &[u8], syntax: Syntax) -> (result:
    Result<Option<RewrittenPattern>, PatternError>)
    ensures
        reading_of(result) == reading(pattern@, root@, syntax),
        match result {
            Ok(Some(text)) => text.source_start + text.bytes@.len() == pattern@.len(),
            _ => true,
        },
{
    match rewrite_in(pattern, root, syntax) {
        Err(error) => Err(error),
        Ok(Rewrite::Outside) => Ok(None),
        Ok(Rewrite::Relative) => match reject_path_shaped(pattern, syntax) {
            Err(error) => Err(error),
            Ok(()) => Ok(
                Some(RewrittenPattern { bytes: slice_to_vec(pattern), source_start: 0 }),
            ),
        },
        Ok(Rewrite::Rooted { bytes, source_start }) => match reject_path_shaped(
            bytes.as_slice(),
            syntax,
        ) {
            Err(error) => {
                assert(pattern.len() == pattern@.len());
                Err(rebase_pattern_error(error, source_start))
            },
            Ok(()) => Ok(Some(RewrittenPattern { bytes, source_start })),
        },
    }
}

/// The pattern after the absolute-root rewrite, or nothing where it names
/// paths outside `root`.
pub fn rewrite_pattern_for_root(pattern: &[u8], root: &[u8], syntax: Syntax) -> (result: Result<
    Option<Vec<u8>>,
    PatternError,
>)
    ensures
        match result {
            Ok(Some(bytes)) => match reading(pattern@, root@, syntax) {
                Reading::Text { bytes: text, .. } => text == bytes@,
                _ => false,
            },
            Ok(None) => reading(pattern@, root@, syntax) is Outside,
            Err(error) => reading(pattern@, root@, syntax) == Reading::Refused(error@),
        },
{
    match rewrite_pattern_for_root_with_source(pattern, root, syntax) {
        Ok(Some(text)) => Ok(Some(text.bytes)),
        Ok(None) => Ok(None),
        Err(error) => Err(error),
    }
}

/// The pattern after the absolute-root rewrite in the chosen spelling of
/// paths, or nothing where it names paths outside `root` and so can select
/// nothing. The text is related to the root only, and not compiled.
pub fn corpus_rewrite_absolute_pattern(pattern: &[u8], root: &[u8], windows_paths: bool) -> (result:
    Result<Option<Vec<u8>>, PatternError>)
    ensures
        ({
            let syntax = if windows_paths {
                Syntax::Windows
            } else {
                Syntax::Posix
            };
            match result {
                Ok(Some(bytes)) => match reading(pattern@, root@, syntax) {
                    Reading::Text { bytes: text, .. } => text == bytes@,
                    _ => false,
                },
                Ok(None) => reading(pattern@, root@, syntax) is Outside,
                Err(error) => reading(pattern@, root@, syntax) == Reading::Refused(error@),
            }
        }),
{
    let syntax = if windows_paths {
        Syntax::Windows
    } else {
        Syntax::Posix
    };
    rewrite_pattern_for_root(pattern, root, syntax)
}

/// A pattern without the one trailing slash that marks it as directory-only.
pub open spec fn without_marker(pattern: Seq<u8>) -> Seq<u8> {
    if pattern.len() > 1 && pattern.last() == SLASH {
        pattern.drop_last()
    } else {
        pattern
    }
}

/// The one trailing slash that marks a pattern as directory-only is not part of
/// the spelling it is judged by.
pub fn pattern_without_directory_marker(pattern: &[u8]) -> (result: &[u8])
    ensures
        result@ == without_marker(pattern@),
{
    if pattern.len() > 1 && pattern[pattern.len() - 1] == SLASH {
        let rest = slice_subrange(pattern, 0, pattern.len() - 1);
        assert(rest@ =~= pattern@.drop_last());
        rest
    } else {
        pattern
    }
}

/// A pattern without the conventional leading `./`.
pub open spec fn without_dot_slash(source: Seq<u8>) -> Seq<u8> {
    if source.len() >= 2 && source[0] == DOT && source[1] == SLASH {
        source.skip(2)
    } else {
        source
    }
}

/// Whether a pattern selects directories only.
pub open spec fn marked_directory(source: Seq<u8>) -> bool {
    let pattern = without_dot_slash(source);
    pattern.len() > 1 && pattern.last() == SLASH
}

/// The text a pattern is matched by.
pub open spec fn body(source: Seq<u8>) -> Seq<u8> {
    without_marker(without_dot_slash(source))
}

/// The directory whose whole subtree a pattern covers, for a pattern that ends
/// in `/**`.
pub open spec fn subtree(source: Seq<u8>) -> Option<Seq<u8>> {
    let text = body(source);
    let len = text.len();
    if len >= 3 && text[len - 3] == SLASH && text[len - 2] == STAR && text[len - 1] == STAR {
        Some(text.take(len - 3))
    } else {
        None
    }
}

/// The plain patterns a pattern stands for.
pub open spec fn alternatives(source: Seq<u8>) -> Seq<Seq<u8>> {
    match brace_expansion(body(source), true) {
        Ok(texts) => texts,
        Err(_) => Seq::empty(),
    }
}

/// Why a pattern does not compile for traversal. Which leading periods a
/// wildcard may cover is no question of syntax.
pub open spec fn traversal_refusal(source: Seq<u8>) -> Option<Refusal> {
    let dialect = traversal_dialect(false);
    let of_subtree = match subtree(source) {
        Some(root) => failure_in(root, dialect),
        None => None,
    };
    match of_subtree {
        Some(failure) => Some(refusal_of(failure)),
        None => match brace_expansion(body(source), true) {
            Err(failure) => Some(refusal_of(failure)),
            Ok(_) => match failure_in(body(source), dialect) {
                Some(failure) => Some(refusal_of(failure)),
                None => None,
            },
        },
    }
}

/// Whether a glob matches `path` under `mode`.
pub open spec fn selects(text: Seq<u8>, dialect: Dialect, path: Seq<u8>, mode: WildcardMode) -> bool {
    match mode {
        WildcardMode::ComponentScoped => matches_path(text, dialect, path),
        WildcardMode::SeparatorCrossing => matches_text(text, dialect, path),
    }
}

/// What a walker pattern is, for one root.
pub ghost struct Traversal {
    /// The text it was compiled from.
    pub source: Seq<u8>,
    pub match_hidden: bool,
    pub syntax: Syntax,
    /// Whether it names paths outside the root, and so decides nothing.
    pub never: bool,
    pub reaches_hidden: bool,
}

/// Whether a pattern selects `path`.
pub open spec fn pattern_selects(
    pattern: Traversal,
    path: Seq<u8>,
    is_dir: bool,
    mode: WildcardMode,
) -> bool {
    &&& !pattern.never
    &&& !marked_directory(pattern.source) || is_dir
    &&& selects(body(pattern.source), traversal_dialect(pattern.match_hidden), path, mode)
}

/// Whether a pattern covers everything below `path`.
pub open spec fn pattern_covers(pattern: Traversal, path: Seq<u8>, mode: WildcardMode) -> bool {
    &&& !pattern.never
    &&& !marked_directory(pattern.source)
    &&& match subtree(pattern.source) {
        Some(root) => selects(root, traversal_dialect(pattern.match_hidden), path, mode),
        None => false,
    }
}

/// Whether something below `path` may still match: some alternative has no
/// literal root, or one that lies on one line of descent with `path`.
pub open spec fn pattern_may_reach(pattern: Traversal, path: Seq<u8>) -> bool {
    let texts = alternatives(pattern.source);
    &&& !pattern.never
    &&& texts.len() == 0 || exists|i: int|
        0 <= i < texts.len() && match literal_root(#[trigger] texts[i]) {
            Some(root) => one_line_of_descent(root, path),
            None => true,
        }
}

/// Whether something hidden below `path` may match by being named.
pub open spec fn pattern_may_reach_hidden(pattern: Traversal, path: Seq<u8>) -> bool {
    pattern_may_reach(pattern, path) && pattern.reaches_hidden
}

/// Whether the extension of `path` allows a match: some alternative has no
/// literal extension, or this one.
pub open spec fn pattern_allows_extension(pattern: Traversal, path: Seq<u8>) -> bool {
    let texts = alternatives(pattern.source);
    &&& !pattern.never
    &&& texts.len() == 0 || exists|i: int|
        0 <= i < texts.len() && match literal_suffix(#[trigger] texts[i], pattern.syntax) {
            Some(suffix) => extension(path, pattern.syntax) == Some(suffix),
            None => true,
        }
}

/// Copies every value.
pub(crate) fn copy_values(values: &Vec<Vec<u8>>) -> (result: Vec<Vec<u8>>)
    ensures
        contents(result@) == contents(values@),
{
    let mut copies: Vec<Vec<u8>> = Vec::new();
    let mut i: usize = 0;
    while i < values.len()
        invariant
            i <= values@.len(),
            contents(copies@) == contents(values@).take(i as int),
        decreases values@.len() - i,
    {
        let ghost before = contents(copies@);
        copies.push(slice_to_vec(values[i].as_slice()));
        assert(contents(copies@) =~= before.push(contents(values@)[i as int]));
        i += 1;
    }
    assert(contents(values@).take(i as int) =~= contents(values@));
    copies
}

fn copy_filter(filter: &Option<Vec<Vec<u8>>>) -> (result: Option<Vec<Vec<u8>>>)
    ensures
        result is Some == filter is Some,
        filter is Some ==> contents(result->0@) == contents(filter->0@),
{
    match filter {
        Some(values) => Some(copy_values(values)),
        None => None,
    }
}

/// One include or exclude, compiled for one root.
#[derive(Debug)]
pub struct TraversalPattern {
    /// The text, so that it can be compiled again under another setting.
    source: Vec<u8>,
    syntax: Syntax,
    match_hidden: bool,
    matcher: Glob,
    directories_only: bool,
    subtree_root: Option<Glob>,
    /// Literal root of every alternative, or nothing when one has none.
    literal_roots: Option<Vec<Vec<u8>>>,
    /// Literal extension of every alternative, on the same terms.
    extensions: Option<Vec<Vec<u8>>>,
    never_matches: bool,
    reaches_hidden: bool,
}

spec fn is_filter_of(filter: Option<Vec<Vec<u8>>>, values: Seq<Option<Seq<u8>>>) -> bool {
    &&& filter is Some == (values.len() > 0 && forall|i: int|
        0 <= i < values.len() ==> (#[trigger] values[i]) is Some)
    &&& match filter {
        Some(filter) => forall|x: Seq<u8>| #[trigger]
            contents(filter@).contains(x) <==> exists|i: int|
                0 <= i < values.len() && #[trigger] values[i] == Some(x),
        None => true,
    }
}

spec fn roots_of(texts: Seq<Seq<u8>>) -> Seq<Option<Seq<u8>>> {
    Seq::new(texts.len(), |i: int| literal_root(texts[i]))
}

spec fn suffixes_of(texts: Seq<Seq<u8>>, syntax: Syntax) -> Seq<Option<Seq<u8>>> {
    Seq::new(texts.len(), |i: int| literal_suffix(texts[i], syntax))
}

impl Clone for TraversalPattern {
    fn clone(&self) -> (result: Self)
        ensures
            result.model() == self.model(),
    {
        proof {
            use_type_invariant(self);
        }
        let source = slice_to_vec(self.source.as_slice());
        let literal_roots = copy_filter(&self.literal_roots);
        let extensions = copy_filter(&self.extensions);
        let subtree_root = match &self.subtree_root {
            Some(root) => Some(root.clone()),
            None => None,
        };
        TraversalPattern {
            source,
            syntax: self.syntax,
            match_hidden: self.match_hidden,
            matcher: self.matcher.clone(),
            directories_only: self.directories_only,
            subtree_root,
            literal_roots,
            extensions,
            never_matches: self.never_matches,
            reaches_hidden: self.reaches_hidden,
        }
    }
}

impl TraversalPattern {
    #[verifier::type_invariant]
    spec fn well_formed(&self) -> bool {
        let dialect = traversal_dialect(self.match_hidden);
        let texts = alternatives(self.source@);
        &&& traversal_refusal(self.source@) is None
        &&& self.matcher.text() == body(self.source@)
        &&& self.matcher.dialect() == dialect
        &&& self.directories_only == marked_directory(self.source@)
        &&& match self.subtree_root {
            Some(root) => subtree(self.source@) == Some(root.text()) && root.dialect() == dialect,
            None => subtree(self.source@) is None,
        }
        &&& is_filter_of(self.literal_roots, roots_of(texts))
        &&& is_filter_of(self.extensions, suffixes_of(texts, self.syntax))
    }

    /// What the pattern is.
    pub closed spec fn model(&self) -> Traversal {
        Traversal {
            source: self.source@,
            match_hidden: self.match_hidden,
            syntax: self.syntax,
            never: self.never_matches,
            reaches_hidden: self.reaches_hidden,
        }
    }

    /// Compiles a pattern that is already relative to its root.
    ///
    /// `reaches_hidden` is what the glob compiler tells of it: whether it can
    /// match a hidden component that wildcards leave alone.
    pub fn compile(
        source: &[u8],
        match_hidden: bool,
        syntax: Syntax,
        reaches_hidden: bool,
    ) -> (result: Result<Self, PatternError>)
        ensures
            match result {
                Ok(pattern) => traversal_refusal(source@) is None && pattern.model() == (Traversal {
                    source: source@,
                    match_hidden,
                    syntax,
                    never: false,
                    reaches_hidden,
                }),
                Err(error) => traversal_refusal(source@) == Some(error@),
            },
    {
        let options = traversal_pattern_options(match_hidden);
        let start: usize = if source.len() >= 2 && source[0] == DOT && source[1] == SLASH {
            2
        } else {
            0
        };
        let pattern = slice_subrange(source, start, source.len());
        assert(pattern@ =~= without_dot_slash(source@));
        let directories_only = pattern.len() > 1 && pattern[pattern.len() - 1] == SLASH;
        let text = pattern_without_directory_marker(pattern);
        let len = text.len();
        let subtree_root = if len >= 3 && text[len - 3] == SLASH && text[len - 2] == STAR
            && text[len - 1] == STAR {
            let root = slice_subrange(text, 0, len - 3);
            assert(root@ =~= text@.take(len - 3));
            match Glob::compile(root, options) {
                Ok(glob) => Some(glob),
                Err(error) => return Err(error),
            }
        } else {
            None
        };
        let texts = match expand_braces(text, options) {
            Ok(texts) => texts,
            Err(error) => return Err(error),
        };
        let matcher = match Glob::compile(text, options) {
            Ok(glob) => glob,
            Err(error) => return Err(error),
        };
        let literal_roots = filter_of_roots(&texts);
        let extensions = filter_of_extensions(&texts, syntax);
        Ok(
            TraversalPattern {
                source: slice_to_vec(source),
                syntax,
                match_hidden,
                matcher,
                directories_only,
                subtree_root,
                literal_roots,
                extensions,
                never_matches: false,
                reaches_hidden,
            },
        )
    }

    /// The pattern, marked as one about another tree.
    fn outside(self) -> (result: Self)
        ensures
            result.model() == (Traversal { never: true, ..self.model() }),
    {
        proof {
            use_type_invariant(&self);
        }
        TraversalPattern { never_matches: true, ..self }
    }

    /// The same pattern under another setting of `match_hidden`, which never
    /// makes a pattern invalid.
    pub fn recompile(self, match_hidden: bool) -> (result: Self)
        ensures
            result.model() == (Traversal { match_hidden, ..self.model() }),
    {
        proof {
            use_type_invariant(&self);
        }
        match TraversalPattern::compile(
            self.source.as_slice(),
            match_hidden,
            self.syntax,
            self.reaches_hidden,
        ) {
            Ok(pattern) => if self.never_matches {
                pattern.outside()
            } else {
                pattern
            },
            Err(_) => {
                assert(false);
                self
            },
        }
    }

    /// The text the pattern was compiled from.
    pub fn source(&self) -> (result: &[u8])
        ensures
            result@ == self.model().source,
    {
        self.source.as_slice()
    }

    /// Whether the pattern selects this candidate under `mode`.
    pub fn matches(&self, path: &[u8], is_dir: bool, mode: WildcardMode) -> (result: bool)
        ensures
            result == pattern_selects(self.model(), path@, is_dir, mode),
    {
        proof {
            use_type_invariant(self);
        }
        if self.never_matches || (self.directories_only && !is_dir) {
            return false;
        }
        match mode {
            WildcardMode::ComponentScoped => self.matcher.is_match_glob_path(path),
            WildcardMode::SeparatorCrossing => self.matcher.is_match(path),
        }
    }

    /// Whether the exclude covers everything below `path`, so that the walk may
    /// skip opening it. The subtree's root is asked under the mode of the
    /// pattern itself.
    pub fn covers_subtree(&self, path: &[u8], mode: WildcardMode) -> (result: bool)
        ensures
            result == pattern_covers(self.model(), path@, mode),
    {
        proof {
            use_type_invariant(self);
        }
        if self.never_matches || self.directories_only {
            return false;
        }
        match &self.subtree_root {
            Some(root) => match mode {
                WildcardMode::ComponentScoped => root.is_match_glob_path(path),
                WildcardMode::SeparatorCrossing => root.is_match(path),
            },
            None => false,
        }
    }

    /// Whether something below `path` may still match.
    pub fn could_match_descendant(&self, path: &[u8]) -> (result: bool)
        ensures
            result == pattern_may_reach(self.model(), path@),
    {
        proof {
            use_type_invariant(self);
        }
        if self.never_matches {
            return false;
        }
        let ghost texts = alternatives(self.source@);
        let ghost values = roots_of(texts);
        let roots = match &self.literal_roots {
            Some(roots) => roots,
            None => {
                proof {
                    if values.len() > 0 {
                        let i = choose|i: int| 0 <= i < values.len() && (#[trigger] values[i]) is None;
                        assert(literal_root(texts[i]) is None);
                    }
                }
                return true;
            },
        };
        let mut i: usize = 0;
        while i < roots.len()
            invariant
                i <= roots@.len(),
                values == roots_of(texts),
                texts == alternatives(self.source@),
                !self.never_matches,
                self.model().source == self.source@,
                self.model().never == self.never_matches,
                forall|x: Seq<u8>| #[trigger]
                    contents(roots@).contains(x) <==> exists|i: int|
                        0 <= i < values.len() && #[trigger] values[i] == Some(x),
                forall|j: int| 0 <= j < i ==> !one_line_of_descent(#[trigger] roots@[j]@, path@),
            decreases roots@.len() - i,
        {
            if shares_a_line_of_descent(roots[i].as_slice(), path) {
                proof {
                    let x = roots@[i as int]@;
                    assert(contents(roots@)[i as int] == x);
                    assert(contents(roots@).contains(x));
                    let k = choose|k: int| 0 <= k < values.len() && #[trigger] values[k] == Some(x);
                    assert(literal_root(texts[k]) == Some(x));
                }
                return true;
            }
            i += 1;
        }
        proof {
            assert forall|k: int| 0 <= k < texts.len() implies match literal_root(
                #[trigger] texts[k],
            ) {
                Some(root) => !one_line_of_descent(root, path@),
                None => false,
            } by {
                assert(values[k] == literal_root(texts[k]));
                let x = values[k]->0;
                assert(contents(roots@).contains(x));
                let j = choose|j: int| 0 <= j < contents(roots@).len() && contents(roots@)[j] == x;
                assert(roots@[j]@ == x);
            }
        }
        false
    }

    /// Whether this include can reach below `path` and name a component that
    /// wildcards leave outside a covering exclude.
    pub fn could_match_hidden_descendant(&self, path: &[u8]) -> (result: bool)
        ensures
            result == pattern_may_reach_hidden(self.model(), path@),
    {
        self.could_match_descendant(path) && self.reaches_hidden
    }

    /// Whether the extension of `path` allows a match.
    pub fn matches_extension(&self, path: &[u8]) -> (result: bool)
        ensures
            result == pattern_allows_extension(self.model(), path@),
    {
        proof {
            use_type_invariant(self);
        }
        if self.never_matches {
            return false;
        }
        let ghost texts = alternatives(self.source@);
        let ghost values = suffixes_of(texts, self.syntax);
        let suffixes = match &self.extensions {
            Some(suffixes) => suffixes,
            None => {
                proof {
                    if values.len() > 0 {
                        let i = choose|i: int| 0 <= i < values.len() && (#[trigger] values[i]) is None;
                        assert(literal_suffix(texts[i], self.syntax) is None);
                    }
                }
                return true;
            },
        };
        let candidate = match final_extension(path, self.syntax) {
            Some(candidate) => candidate,
            None => {
                assert forall|k: int| 0 <= k < texts.len() implies literal_suffix(
                    #[trigger] texts[k],
                    self.syntax,
                ) is Some by {
                    assert(values[k] == literal_suffix(texts[k], self.syntax));
                }
                return false;
            },
        };
        let mut i: usize = 0;
        while i < suffixes.len()
            invariant
                i <= suffixes@.len(),
                values == suffixes_of(texts, self.syntax),
                texts == alternatives(self.source@),
                !self.never_matches,
                self.model().source == self.source@,
                self.model().syntax == self.syntax,
                self.model().never == self.never_matches,
                extension(path@, self.syntax) == Some(candidate@),
                forall|x: Seq<u8>| #[trigger]
                    contents(suffixes@).contains(x) <==> exists|i: int|
                        0 <= i < values.len() && #[trigger] values[i] == Some(x),
                forall|j: int| 0 <= j < i ==> #[trigger] suffixes@[j]@ != candidate@,
            decreases suffixes@.len() - i,
        {
            if same(suffixes[i].as_slice(), candidate) {
                proof {
                    let x = suffixes@[i as int]@;
                    assert(contents(suffixes@)[i as int] == x);
                    assert(contents(suffixes@).contains(x));
                    let k = choose|k: int| 0 <= k < values.len() && #[trigger] values[k] == Some(x);
                    assert(literal_suffix(texts[k], self.syntax) == Some(x));
                }
                return true;
            }
            i += 1;
        }
        proof {
            assert forall|k: int| 0 <= k < texts.len() implies match literal_suffix(
                #[trigger] texts[k],
                self.syntax,
            ) {
                Some(suffix) => extension(path@, self.syntax) != Some(suffix),
                None => false,
            } by {
                assert(values[k] == literal_suffix(texts[k], self.syntax));
                let x = values[k]->0;
                assert(contents(suffixes@).contains(x));
                let j = choose|j: int|
                    0 <= j < contents(suffixes@).len() && contents(suffixes@)[j] == x;
                assert(suffixes@[j]@ == x);
            }
        }
        false
    }
}

fn filter_of_roots(texts: &Vec<Vec<u8>>) -> (result: Option<Vec<Vec<u8>>>)
    ensures
        is_filter_of(result, roots_of(contents(texts@))),
{
    let mut values: Vec<Option<Vec<u8>>> = Vec::new();
    let mut i: usize = 0;
    while i < texts.len()
        invariant
            i <= texts@.len(),
            values@.len() == i,
            forall|j: int|
                0 <= j < i ==> match #[trigger] values@[j] {
                    Some(value) => literal_root(texts@[j]@) == Some(value@),
                    None => literal_root(texts@[j]@) is None,
                },
        decreases texts@.len() - i,
    {
        values.push(literal_pattern_root(texts[i].as_slice()));
        i += 1;
    }
    let filter = prefilter_of_every_alternative(values);
    proof {
        lemma_filter(filter, values@, roots_of(contents(texts@)));
    }
    filter
}

fn filter_of_extensions(texts: &Vec<Vec<u8>>, syntax: Syntax) -> (result: Option<Vec<Vec<u8>>>)
    ensures
        is_filter_of(result, suffixes_of(contents(texts@), syntax)),
{
    let mut values: Vec<Option<Vec<u8>>> = Vec::new();
    let mut i: usize = 0;
    while i < texts.len()
        invariant
            i <= texts@.len(),
            values@.len() == i,
            forall|j: int|
                0 <= j < i ==> match #[trigger] values@[j] {
                    Some(value) => literal_suffix(texts@[j]@, syntax) == Some(value@),
                    None => literal_suffix(texts@[j]@, syntax) is None,
                },
        decreases texts@.len() - i,
    {
        values.push(literal_extension(texts[i].as_slice(), syntax));
        i += 1;
    }
    let filter = prefilter_of_every_alternative(values);
    proof {
        lemma_filter(filter, values@, suffixes_of(contents(texts@), syntax));
    }
    filter
}

proof fn lemma_filter(
    filter: Option<Vec<Vec<u8>>>,
    found: Seq<Option<Vec<u8>>>,
    values: Seq<Option<Seq<u8>>>,
)
    requires
        found.len() == values.len(),
        forall|j: int|
            0 <= j < found.len() ==> match #[trigger] found[j] {
                Some(value) => values[j] == Some(value@),
                None => values[j] is None,
            },
        filter is Some == every_alternative_has_one(found),
        match filter {
            Some(filter) => {
                &&& ascending(contents(filter@))
                &&& forall|x: Seq<u8>| #[trigger]
                    contents(filter@).contains(x) <==> exists|i: int|
                        0 <= i < found.len() && (#[trigger] found[i]).unwrap()@ == x
            },
            None => true,
        },
    ensures
        is_filter_of(filter, values),
{
    assert(every_alternative_has_one(found) == (values.len() > 0 && forall|i: int|
        0 <= i < values.len() ==> (#[trigger] values[i]) is Some)) by {
        if every_alternative_has_one(found) {
            assert forall|i: int| 0 <= i < values.len() implies (#[trigger] values[i]) is Some by {
                assert(found[i] is Some);
            }
        }
        if values.len() > 0 && forall|i: int|
            0 <= i < values.len() ==> (#[trigger] values[i]) is Some {
            assert forall|i: int| 0 <= i < found.len() implies (#[trigger] found[i]) is Some by {
                assert(values[i] is Some);
            }
        }
    }
    if let Some(filter) = filter {
        assert forall|x: Seq<u8>| #[trigger]
            contents(filter@).contains(x) <==> exists|i: int|
                0 <= i < values.len() && #[trigger] values[i] == Some(x) by {
            if contents(filter@).contains(x) {
                let i = choose|i: int| 0 <= i < found.len() && (#[trigger] found[i]).unwrap()@ == x;
                assert(found[i] is Some);
                assert(values[i] == Some(x));
            }
            if exists|i: int| 0 <= i < values.len() && #[trigger] values[i] == Some(x) {
                let i = choose|i: int| 0 <= i < values.len() && #[trigger] values[i] == Some(x);
                assert(found[i].unwrap()@ == x);
            }
        }
    }
}

/// The text the glob compiler judges for a pattern and a root, where there is
/// any.
pub open spec fn spelling(pattern: Seq<u8>, root: Seq<u8>, syntax: Syntax) -> Option<Seq<u8>> {
    match reading(pattern, root, syntax) {
        Reading::Text { bytes, .. } => Some(without_marker(bytes)),
        _ => None,
    }
}

/// Whether a shape can be that of the pattern's text: its problem lies in it.
pub open spec fn shape_fits(
    shape: PathShape,
    pattern: Seq<u8>,
    root: Seq<u8>,
    syntax: Syntax,
) -> bool {
    match (spelling(pattern, root, syntax), shape.problem) {
        (Some(text), Some(at)) => at <= text.len(),
        _ => true,
    }
}

/// What a pattern reads for a root once its text was judged, too.
pub open spec fn judged(
    pattern: Seq<u8>,
    root: Seq<u8>,
    syntax: Syntax,
    shape: PathShape,
) -> Reading {
    match reading(pattern, root, syntax) {
        Reading::Text { bytes, source_start } => match failure_in(
            without_marker(bytes),
            traversal_dialect(false),
        ) {
            Some(failure) => Reading::Refused(rebased(refusal_of(failure), source_start)),
            None => match shape_refusal(shape.viability, shape.problem) {
                Some(refusal) => Reading::Refused(rebased(refusal, source_start)),
                None => Reading::Text { bytes, source_start },
            },
        },
        other => other,
    }
}

/// What a pattern is for a root, or why it is refused there.
///
/// A pattern about another tree is compiled all the same, so that one written
/// badly is still reported, and kept rather than dropped: dropping an include
/// would widen the walk to everything.
pub open spec fn traversal_for(
    pattern: Seq<u8>,
    root: Seq<u8>,
    syntax: Syntax,
    match_hidden: bool,
    shape: PathShape,
) -> Result<Traversal, Refusal> {
    match judged(pattern, root, syntax, shape) {
        Reading::Refused(refusal) => Err(refusal),
        Reading::Outside => match traversal_refusal(pattern) {
            Some(refusal) => Err(refusal),
            None => Ok(
                Traversal {
                    source: pattern,
                    match_hidden,
                    syntax,
                    never: true,
                    reaches_hidden: shape.reaches_hidden,
                },
            ),
        },
        Reading::Text { bytes, .. } => match traversal_refusal(bytes) {
            Some(refusal) => Err(refusal),
            None => Ok(
                Traversal {
                    source: bytes,
                    match_hidden,
                    syntax,
                    never: false,
                    reaches_hidden: shape.reaches_hidden,
                },
            ),
        },
    }
}

/// The text the glob compiler judges for a pattern and a root. There is none
/// where the pattern is refused for the root or about another tree.
pub fn spelling_for_root(pattern: &[u8], root: &[u8], syntax: Syntax) -> (result: Option<Vec<u8>>)
    ensures
        match result {
            Some(text) => spelling(pattern@, root@, syntax) == Some(text@),
            None => spelling(pattern@, root@, syntax) is None,
        },
{
    match rewrite_pattern_for_root_with_source(pattern, root, syntax) {
        Ok(Some(text)) => Some(
            slice_to_vec(pattern_without_directory_marker(text.bytes.as_slice())),
        ),
        _ => None,
    }
}

/// The bytes the walker will compile for `root`, nothing where the pattern is
/// about another tree, or the reason it will not.
pub fn walker_pattern_for_root(
    pattern: &[u8],
    root: &[u8],
    syntax: Syntax,
    match_hidden: bool,
    shape: PathShape,
) -> (result: Result<Option<Vec<u8>>, PatternError>)
    requires
        shape_fits(shape, pattern@, root@, syntax),
    ensures
        match result {
            Ok(Some(bytes)) => match judged(pattern@, root@, syntax, shape) {
                Reading::Text { bytes: text, .. } => text == bytes@,
                _ => false,
            },
            Ok(None) => judged(pattern@, root@, syntax, shape) is Outside,
            Err(error) => judged(pattern@, root@, syntax, shape) == Reading::Refused(error@),
        },
{
    assert(pattern.len() == pattern@.len());
    let text = match rewrite_pattern_for_root_with_source(pattern, root, syntax) {
        Ok(Some(text)) => text,
        Ok(None) => return Ok(None),
        Err(error) => return Err(error),
    };
    match Glob::compile(
        pattern_without_directory_marker(text.bytes.as_slice()),
        traversal_pattern_options(match_hidden),
    ) {
        Ok(_) => {},
        Err(error) => return Err(rebase_pattern_error(error, text.source_start)),
    }
    match reject_unwalkable_relative_pattern(shape.viability, shape.problem) {
        Ok(()) => Ok(Some(text.bytes)),
        Err(error) => Err(rebase_pattern_error(error, text.source_start)),
    }
}

/// Compiles one include or exclude for one root, rewriting it if it is
/// absolute.
pub fn compile_for_root(
    pattern: &[u8],
    root: &[u8],
    syntax: Syntax,
    match_hidden: bool,
    shape: PathShape,
) -> (result: Result<TraversalPattern, PatternError>)
    requires
        shape_fits(shape, pattern@, root@, syntax),
    ensures
        match result {
            Ok(compiled) => traversal_for(pattern@, root@, syntax, match_hidden, shape) == Ok::<
                Traversal,
                Refusal,
            >(compiled.model()),
            Err(error) => traversal_for(pattern@, root@, syntax, match_hidden, shape) == Err::<
                Traversal,
                Refusal,
            >(error@),
        },
{
    match walker_pattern_for_root(pattern, root, syntax, match_hidden, shape) {
        Err(error) => Err(error),
        Ok(Some(usable)) => TraversalPattern::compile(
            usable.as_slice(),
            match_hidden,
            syntax,
            shape.reaches_hidden,
        ),
        Ok(None) => match TraversalPattern::compile(
            pattern,
            match_hidden,
            syntax,
            shape.reaches_hidden,
        ) {
            Ok(compiled) => Ok(compiled.outside()),
            Err(error) => Err(error),
        },
    }
}

/// A pattern about another tree selects nothing, prunes nothing and reaches
/// nothing.
pub proof fn law_a_pattern_about_another_tree_decides_nothing(
    pattern: Traversal,
    path: Seq<u8>,
    is_dir: bool,
    mode: WildcardMode,
)
    requires
        pattern.never,
    ensures
        !pattern_selects(pattern, path, is_dir, mode),
        !pattern_covers(pattern, path, mode),
        !pattern_may_reach(pattern, path),
        !pattern_may_reach_hidden(pattern, path),
        !pattern_allows_extension(pattern, path),
{
}

/// Which leading periods a wildcard may cover moves neither the planner's
/// prefilters nor what a pattern is refused for.
pub proof fn law_match_hidden_leaves_the_prefilters_alone(
    pattern: Traversal,
    match_hidden: bool,
    path: Seq<u8>,
)
    ensures
        ({
            let other = Traversal { match_hidden, ..pattern };
            &&& pattern_may_reach(other, path) == pattern_may_reach(pattern, path)
            &&& pattern_allows_extension(other, path) == pattern_allows_extension(pattern, path)
        }),
{
}

/// An absolute pattern selects what its relative spelling selects: with a root
/// in front, and read for that root, it is the same pattern, or refused for the
/// same reason.
pub proof fn law_an_absolute_pattern_means_its_relative_spelling(
    root: Seq<u8>,
    relative: Seq<u8>,
    syntax: Syntax,
    match_hidden: bool,
    shape: PathShape,
)
    requires
        absolute_length(ordinary_spelling(root, syntax), syntax) is Some,
        absolute_length(ordinary_spelling(relative, syntax), syntax) is None,
        relative.len() > 0,
        !names_nothing(component_at(relative, 0)),
        parent_component_from(ordinary_spelling(root, syntax).push(SLASH) + relative, 0) is None,
        match metacharacter_from(ordinary_spelling(root, syntax).push(SLASH) + relative, 0) {
            Some(at) => at >= ordinary_spelling(root, syntax).len(),
            None => true,
        },
    ensures
        ({
            let absolute = root.push(SLASH) + relative;
            match (
                traversal_for(relative, root, syntax, match_hidden, shape),
                traversal_for(absolute, root, syntax, match_hidden, shape),
            ) {
                (Ok(one), Ok(other)) => one == other,
                (Err(one), Err(other)) => one.message == other.message,
                _ => false,
            }
        }),
{
    law_rewrite_undoes_prefixing(root, relative, syntax);
}

/// The extension filter keeps what ends alike: where every alternative of a
/// pattern ends in a period and plain text, a path passes exactly where it ends
/// in a period and one of those texts.
#[verifier::rlimit(40)]
pub proof fn law_the_extension_filter_keeps_what_ends_alike(
    pattern: Traversal,
    fronts: Seq<Seq<u8>>,
    texts: Seq<Seq<u8>>,
    path: Seq<u8>,
)
    requires
        !pattern.never,
        texts.len() > 0,
        fronts.len() == texts.len(),
        alternatives(pattern.source).len() == texts.len(),
        forall|i: int|
            0 <= i < texts.len() ==> {
                &&& alternatives(pattern.source)[i] == fronts[i].push(DOT) + #[trigger] texts[i]
                &&& texts[i].len() > 0
                &&& forall|k: int|
                    0 <= k < texts[i].len() ==> is_alphabetic(#[trigger] texts[i][k]) || is_digit(
                        texts[i][k],
                    )
            },
    ensures
        pattern_allows_extension(pattern, path) <==> exists|i: int, front: Seq<u8>|
            0 <= i < texts.len() && path == #[trigger] front.push(DOT) + #[trigger] texts[i],
{
    let all = alternatives(pattern.source);
    assert forall|i: int| 0 <= i < texts.len() implies literal_suffix(
        #[trigger] all[i],
        pattern.syntax,
    ) == Some(texts[i]) && (extension(path, pattern.syntax) == Some(texts[i]) <==> exists|
        front: Seq<u8>,
    | path == #[trigger] front.push(DOT) + texts[i]) by {
        let text = texts[i];
        assert(all[i] == fronts[i].push(DOT) + texts[i]);
        assert forall|byte: u8| #[trigger] text.contains(byte) implies is_alphabetic(byte)
            || is_digit(byte) by {
            let k = choose|k: int| 0 <= k < text.len() && text[k] == byte;
            assert(is_alphabetic(text[k]) || is_digit(text[k]));
        }
        law_a_literal_extension_is_spelled_out(fronts[i], text, pattern.syntax);
        law_an_extension_is_what_a_path_ends_in(path, text, pattern.syntax);
    }
    if pattern_allows_extension(pattern, path) {
        let i = choose|i: int|
            0 <= i < all.len() && match literal_suffix(#[trigger] all[i], pattern.syntax) {
                Some(suffix) => extension(path, pattern.syntax) == Some(suffix),
                None => true,
            };
        let front = choose|front: Seq<u8>| path == #[trigger] front.push(DOT) + texts[i];
        assert(path == front.push(DOT) + texts[i]);
    }
    if exists|i: int, front: Seq<u8>|
        0 <= i < texts.len() && path == #[trigger] front.push(DOT) + #[trigger] texts[i] {
        let (i, front) = choose|i: int, front: Seq<u8>|
            0 <= i < texts.len() && path == #[trigger] front.push(DOT) + #[trigger] texts[i];
        assert(literal_suffix(all[i], pattern.syntax) == Some(texts[i]));
    }
}

/// A pattern with an alternative that spells no extension filters none.
pub proof fn law_an_alternative_without_an_extension_filters_none(
    pattern: Traversal,
    at: int,
    path: Seq<u8>,
)
    requires
        !pattern.never,
        0 <= at < alternatives(pattern.source).len(),
        ({
            let text = alternatives(pattern.source)[at];
            ||| !text.contains(DOT)
            ||| text.len() > 0 && text.last() == STAR
        }),
    ensures
        pattern_allows_extension(pattern, path),
{
    let text = alternatives(pattern.source)[at];
    law_an_extension_follows_the_last_period(text, pattern.syntax);
    if let Some(suffix) = extension(text, pattern.syntax) {
        let dot = text.len() - suffix.len() - 1;
        assert(text.contains(text[dot]));
        if suffix.len() > 0 {
            assert(suffix[suffix.len() - 1] == text.last());
            assert(spoils_extension(suffix[suffix.len() - 1]));
        }
    }
    assert(literal_suffix(text, pattern.syntax) is None);
}

/// One separator at the end of a pattern asks for a directory and nothing else:
/// the pattern selects the directories that it selects without it, no file, and
/// reaches as far.
pub proof fn law_a_final_separator_selects_directories_only(
    pattern: Traversal,
    path: Seq<u8>,
    mode: WildcardMode,
)
    requires
        pattern.source.len() > 0,
        pattern.source.last() != SLASH,
        pattern.source != seq![DOT],
    ensures
        ({
            let marked = Traversal { source: pattern.source.push(SLASH), ..pattern };
            &&& pattern_selects(marked, path, true, mode) == pattern_selects(
                pattern,
                path,
                true,
                mode,
            )
            &&& !pattern_selects(marked, path, false, mode)
            &&& pattern_selects(pattern, path, false, mode) == pattern_selects(
                pattern,
                path,
                true,
                mode,
            )
            &&& pattern_may_reach(marked, path) == pattern_may_reach(pattern, path)
            &&& pattern_allows_extension(marked, path) == pattern_allows_extension(pattern, path)
            &&& !pattern_covers(marked, path, mode)
        }),
{
    let source = pattern.source;
    let longer = source.push(SLASH);
    if source.len() == 1 {
        assert(source =~= seq![source[0]]);
    }
    assert(without_dot_slash(longer) =~= without_dot_slash(source).push(SLASH));
    assert(without_dot_slash(source).len() > 0 ==> without_dot_slash(source).last()
        == source.last());
    assert(without_dot_slash(source).len() > 0);
    assert(without_dot_slash(source).push(SLASH).drop_last() =~= without_dot_slash(source));
    assert(body(longer) == body(source));
}

/// A leading `./` says nothing.
pub proof fn law_a_leading_dot_says_nothing(
    pattern: Traversal,
    path: Seq<u8>,
    is_dir: bool,
    mode: WildcardMode,
)
    requires
        !begins_with(pattern.source, seq![DOT, SLASH]),
    ensures
        ({
            let dotted = Traversal { source: seq![DOT, SLASH] + pattern.source, ..pattern };
            &&& pattern_selects(dotted, path, is_dir, mode) == pattern_selects(
                pattern,
                path,
                is_dir,
                mode,
            )
            &&& pattern_covers(dotted, path, mode) == pattern_covers(pattern, path, mode)
            &&& pattern_may_reach(dotted, path) == pattern_may_reach(pattern, path)
            &&& pattern_allows_extension(dotted, path) == pattern_allows_extension(pattern, path)
        }),
{
    let source = pattern.source;
    let dotted = seq![DOT, SLASH] + source;
    assert(dotted.skip(2) =~= source);
    if without_dot_slash(source) != source {
        assert(source.take(2) =~= seq![DOT, SLASH]);
    }
    assert(without_dot_slash(dotted) == without_dot_slash(source));
}

/// A pattern that ends in `/**` covers what is below the directories that the
/// text in front of it selects, and no other pattern covers anything.
pub proof fn law_only_a_final_run_covers_a_subtree(
    pattern: Traversal,
    dir: Seq<u8>,
    path: Seq<u8>,
    mode: WildcardMode,
)
    requires
        !begins_with(dir, seq![DOT, SLASH]),
        dir.len() > 0,
        dir.last() != SLASH,
        dir != seq![DOT],
    ensures
        ({
            let whole = Traversal { source: dir + seq![SLASH, STAR, STAR], ..pattern };
            let own = Traversal { source: dir, ..pattern };
            pattern_covers(whole, path, mode) == pattern_selects(own, path, true, mode)
        }),
        pattern_covers(pattern, path, mode) ==> pattern.source.len() >= 3 && pattern.source.skip(
            pattern.source.len() - 3,
        ) == seq![SLASH, STAR, STAR],
{
    let source = dir + seq![SLASH, STAR, STAR];
    if without_dot_slash(dir) != dir {
        assert(dir.take(2) =~= seq![DOT, SLASH]);
    }
    if dir.len() == 1 {
        assert(dir =~= seq![dir[0]]);
    }
    assert(without_dot_slash(source) == source) by {
        if without_dot_slash(source) != source {
            assert(source[0] == dir[0]);
            if dir.len() > 1 {
                assert(source[1] == dir[1]);
            }
        }
    }
    assert(body(source) == source);
    assert(source.take(source.len() - 3) =~= dir);
    assert(body(dir) == dir);
    if pattern_covers(pattern, path, mode) {
        let own = pattern.source;
        let text = without_dot_slash(own);
        assert(text.len() > 1 ==> text.last() != SLASH);
        assert(body(own) == text);
        assert(own.skip(own.len() - 3) =~= text.skip(text.len() - 3));
        assert(text.skip(text.len() - 3) =~= seq![SLASH, STAR, STAR]);
    }
}

/// A pattern selects what its text matches. Braces, extended globs and runs of
/// directories are read in it, the case of letters counts, and whether a
/// wildcard stands for a leading period is as the pattern was made. Under one
/// mode a wildcard stays within a name, under the other it does not.
pub proof fn law_a_pattern_selects_what_its_text_matches(
    pattern: Traversal,
    path: Seq<u8>,
    is_dir: bool,
)
    requires
        !pattern.never,
        pattern.source.len() > 0,
        pattern.source.last() != SLASH,
        !begins_with(pattern.source, seq![DOT, SLASH]),
    ensures
        ({
            let reading = Dialect {
                braces: true,
                recursive_double_star: true,
                extglob: true,
                match_hidden: pattern.match_hidden,
                case_insensitive: false,
            };
            &&& pattern_selects(pattern, path, is_dir, WildcardMode::ComponentScoped)
                == matches_path(pattern.source, reading, path)
            &&& pattern_selects(pattern, path, is_dir, WildcardMode::SeparatorCrossing)
                == matches_text(pattern.source, reading, path)
        }),
{
    let source = pattern.source;
    if without_dot_slash(source) != source {
        assert(source.take(2) =~= seq![DOT, SLASH]);
    }
    assert(body(source) == source);
}

/// A pattern reaches where its directories lie: where every alternative names
/// the directory that its wildcard is in, something below a path can match
/// exactly where the path is such a directory, lies in one, or leads to one.
#[verifier::rlimit(40)]
pub proof fn law_a_pattern_reaches_where_its_directories_lie(
    pattern: Traversal,
    dirs: Seq<Seq<u8>>,
    rests: Seq<Seq<u8>>,
    path: Seq<u8>,
)
    requires
        !pattern.never,
        dirs.len() > 0,
        rests.len() == dirs.len(),
        alternatives(pattern.source).len() == dirs.len(),
        forall|i: int|
            0 <= i < dirs.len() ==> {
                &&& (#[trigger] dirs[i]).len() > 0
                &&& is_literal(dirs[i])
                &&& alternatives(pattern.source)[i] == dirs[i].push(SLASH).push(STAR) + rests[i]
            },
    ensures
        pattern_may_reach(pattern, path) <==> exists|i: int|
            0 <= i < dirs.len() && (#[trigger] dirs[i] == path || begins_with(
                path,
                dirs[i].push(SLASH),
            ) || begins_with(dirs[i], path.push(SLASH))),
{
    let all = alternatives(pattern.source);
    let none = Seq::<u8>::empty();
    assert forall|i: int| 0 <= i < dirs.len() implies literal_root(#[trigger] all[i]) == Some(
        dirs[i],
    ) by {
        assert(is_literal(dirs[i]));
        law_a_literal_root_is_the_directory_of_the_first_wildcard(dirs[i], none, STAR, rests[i]);
        assert(dirs[i].push(SLASH).push(STAR) + rests[i] =~= dirs[i].push(SLASH) + none.push(STAR)
            + rests[i]);
    }
    if pattern_may_reach(pattern, path) {
        let i = choose|i: int|
            0 <= i < all.len() && match literal_root(#[trigger] all[i]) {
                Some(root) => one_line_of_descent(root, path),
                None => true,
            };
        assert(one_line_of_descent(dirs[i], path));
    }
    if exists|i: int|
        0 <= i < dirs.len() && (#[trigger] dirs[i] == path || begins_with(
            path,
            dirs[i].push(SLASH),
        ) || begins_with(dirs[i], path.push(SLASH))) {
        let i = choose|i: int|
            0 <= i < dirs.len() && (#[trigger] dirs[i] == path || begins_with(
                path,
                dirs[i].push(SLASH),
            ) || begins_with(dirs[i], path.push(SLASH)));
        assert(literal_root(all[i]) == Some(dirs[i]));
    }
}

/// A pattern with an alternative that starts with a wildcard reaches everywhere.
pub proof fn law_an_alternative_without_a_directory_reaches_everywhere(
    pattern: Traversal,
    at: int,
    path: Seq<u8>,
)
    requires
        !pattern.never,
        0 <= at < alternatives(pattern.source).len(),
        ({
            let text = alternatives(pattern.source)[at];
            text.len() > 0 && (text[0] == STAR || text[0] == QUESTION || text[0] == BRACKET_OPEN)
        }),
    ensures
        pattern_may_reach(pattern, path),
{
    let text = alternatives(pattern.source)[at];
    let none = Seq::<u8>::empty();
    law_a_literal_root_is_the_directory_of_the_first_wildcard(none, none, text[0], text.skip(1));
    assert(none.push(text[0]) + text.skip(1) =~= text);
    assert(literal_root(text) is None);
}

} // verus!
