//! The builder of a walk: its roots, its patterns and its settings.
use std::sync::Arc;

use vstd::prelude::*;
use vstd::slice::slice_to_vec;

use crate::literal::{contents, Syntax};
use crate::options::{CancellationToken, ErrorPolicy, WalkOptions, WildcardMode};
use crate::pattern::{
    compile_for_root, copy_values, pattern_allows_extension, pattern_may_reach, shape_fits,
    traversal_for, PathShape, Traversal, TraversalPattern,
};
use crate::pattern_error::{PatternError, Refusal};

verus! {

/// Hard ceiling for eagerly allocated worker slots.
pub const MAX_WORKERS: usize = 256;

/// What the host brings to a walk.
#[derive(Debug, Clone, Copy, PartialEq, Eq, Structural)]
pub struct Host {
    /// How the host spells absolute paths.
    pub syntax: Syntax,
    /// How many workers the host can run at once.
    pub parallelism: usize,
}

/// One root, with the patterns as they read for it.
pub ghost struct RootModel {
    pub path: Seq<u8>,
    pub includes: Seq<Traversal>,
    pub excludes: Seq<Traversal>,
}

/// What a walk is configured to do.
pub ghost struct WalkerModel {
    pub syntax: Syntax,
    pub roots: Seq<RootModel>,
    pub include_sources: Seq<Seq<u8>>,
    pub exclude_sources: Seq<Seq<u8>>,
    pub match_hidden: bool,
    pub options: WalkOptions,
    pub error_policy: ErrorPolicy,
    pub cancellation: Option<CancellationToken>,
    pub respect_git_ignore: bool,
    pub git_ignore_case: Option<bool>,
    pub git_precompose_unicode: Option<bool>,
    pub wildcard_mode: WildcardMode,
    pub threads: int,
}

/// A number of workers within what one walk may reserve.
pub open spec fn worker_budget(threads: int) -> int {
    if threads <= 0 {
        1
    } else if threads > MAX_WORKERS {
        MAX_WORKERS as int
    } else {
        threads
    }
}

/// The walk of one root that nothing was said about yet.
pub open spec fn fresh_walker(root: Seq<u8>, host: Host) -> WalkerModel {
    WalkerModel {
        syntax: host.syntax,
        roots: seq![
            RootModel { path: root, includes: Seq::empty(), excludes: Seq::empty() },
        ],
        include_sources: Seq::empty(),
        exclude_sources: Seq::empty(),
        match_hidden: false,
        options: WalkOptions {
            follow_symlinks: false,
            sort: false,
            metadata: false,
            directories_only: false,
            files_only: false,
            resolve_symlink_kind: false,
            skip_hidden: false,
            keep_git_dir: false,
            max_depth: None,
        },
        error_policy: ErrorPolicy::Collect,
        cancellation: None,
        respect_git_ignore: false,
        git_ignore_case: None,
        git_precompose_unicode: None,
        wildcard_mode: WildcardMode::ComponentScoped,
        threads: worker_budget(host.parallelism as int),
    }
}

/// What one pattern is for each of the first `count` roots, or the refusal of
/// the first root that refuses it.
pub open spec fn for_every_root(
    walker: WalkerModel,
    pattern: Seq<u8>,
    shapes: Seq<PathShape>,
    count: int,
) -> Result<Seq<Traversal>, Refusal>
    decreases count,
{
    if count <= 0 {
        Ok(Seq::empty())
    } else {
        match for_every_root(walker, pattern, shapes, count - 1) {
            Err(refusal) => Err(refusal),
            Ok(earlier) => match traversal_for(
                pattern,
                walker.roots[count - 1].path,
                walker.syntax,
                walker.match_hidden,
                shapes[count - 1],
            ) {
                Ok(compiled) => Ok(earlier.push(compiled)),
                Err(refusal) => Err(refusal),
            },
        }
    }
}

/// What each of the first `count` patterns is for one root, or the refusal of
/// the first of them.
pub open spec fn every_for_root(
    walker: WalkerModel,
    sources: Seq<Seq<u8>>,
    root: Seq<u8>,
    shapes: Seq<PathShape>,
    count: int,
) -> Result<Seq<Traversal>, Refusal>
    decreases count,
{
    if count <= 0 {
        Ok(Seq::empty())
    } else {
        match every_for_root(walker, sources, root, shapes, count - 1) {
            Err(refusal) => Err(refusal),
            Ok(earlier) => match traversal_for(
                sources[count - 1],
                root,
                walker.syntax,
                walker.match_hidden,
                shapes[count - 1],
            ) {
                Ok(compiled) => Ok(earlier.push(compiled)),
                Err(refusal) => Err(refusal),
            },
        }
    }
}

/// The roots with one more include each.
pub open spec fn roots_including(
    roots: Seq<RootModel>,
    compiled: Seq<Traversal>,
) -> Seq<RootModel> {
    Seq::new(
        roots.len(),
        |i: int| RootModel { includes: roots[i].includes.push(compiled[i]), ..roots[i] },
    )
}

/// The roots with one more exclude each.
pub open spec fn roots_excluding(
    roots: Seq<RootModel>,
    compiled: Seq<Traversal>,
) -> Seq<RootModel> {
    Seq::new(
        roots.len(),
        |i: int| RootModel { excludes: roots[i].excludes.push(compiled[i]), ..roots[i] },
    )
}

/// The walk with one more include, or why there is none.
pub open spec fn with_include(
    walker: WalkerModel,
    pattern: Seq<u8>,
    shapes: Seq<PathShape>,
) -> Result<WalkerModel, Refusal> {
    match for_every_root(walker, pattern, shapes, walker.roots.len() as int) {
        Ok(compiled) => Ok(
            WalkerModel {
                roots: roots_including(walker.roots, compiled),
                include_sources: walker.include_sources.push(pattern),
                ..walker
            },
        ),
        Err(refusal) => Err(refusal),
    }
}

/// The walk with one more exclude, or why there is none.
pub open spec fn with_exclude(
    walker: WalkerModel,
    pattern: Seq<u8>,
    shapes: Seq<PathShape>,
) -> Result<WalkerModel, Refusal> {
    match for_every_root(walker, pattern, shapes, walker.roots.len() as int) {
        Ok(compiled) => Ok(
            WalkerModel {
                roots: roots_excluding(walker.roots, compiled),
                exclude_sources: walker.exclude_sources.push(pattern),
                ..walker
            },
        ),
        Err(refusal) => Err(refusal),
    }
}

/// The walk with one more root, which gets its own reading of every pattern,
/// or why there is none.
pub open spec fn with_root(
    walker: WalkerModel,
    root: Seq<u8>,
    include_shapes: Seq<PathShape>,
    exclude_shapes: Seq<PathShape>,
) -> Result<WalkerModel, Refusal> {
    match every_for_root(
        walker,
        walker.include_sources,
        root,
        include_shapes,
        walker.include_sources.len() as int,
    ) {
        Err(refusal) => Err(refusal),
        Ok(includes) => match every_for_root(
            walker,
            walker.exclude_sources,
            root,
            exclude_shapes,
            walker.exclude_sources.len() as int,
        ) {
            Err(refusal) => Err(refusal),
            Ok(excludes) => Ok(
                WalkerModel {
                    roots: walker.roots.push(RootModel { path: root, includes, excludes }),
                    ..walker
                },
            ),
        },
    }
}

/// A root to add, with what the glob compiler tells of each include and each
/// exclude there.
#[derive(Debug)]
pub struct NewRoot {
    pub path: Vec<u8>,
    pub include_shapes: Vec<PathShape>,
    pub exclude_shapes: Vec<PathShape>,
}

/// The walk with more roots, added in order, or why the first of them that
/// cannot be added cannot.
pub open spec fn with_roots(walker: WalkerModel, roots: Seq<NewRoot>) -> Result<
    WalkerModel,
    Refusal,
>
    decreases roots.len(),
{
    if roots.len() == 0 {
        Ok(walker)
    } else {
        let first = roots[0];
        match with_root(
            walker,
            first.path@,
            first.include_shapes@,
            first.exclude_shapes@,
        ) {
            Ok(next) => with_roots(next, roots.drop_first()),
            Err(refusal) => Err(refusal),
        }
    }
}

/// The patterns under a setting of `match_hidden`.
pub open spec fn rehidden(patterns: Seq<Traversal>, match_hidden: bool) -> Seq<Traversal> {
    Seq::new(patterns.len(), |i: int| Traversal { match_hidden, ..patterns[i] })
}

/// The roots under a setting of `match_hidden`.
pub open spec fn roots_rehidden(roots: Seq<RootModel>, match_hidden: bool) -> Seq<RootModel> {
    Seq::new(
        roots.len(),
        |i: int|
            RootModel {
                includes: rehidden(roots[i].includes, match_hidden),
                excludes: rehidden(roots[i].excludes, match_hidden),
                ..roots[i]
            },
    )
}

/// The walk under a setting of `match_hidden`, patterns added before included.
pub open spec fn with_match_hidden(walker: WalkerModel, match_hidden: bool) -> WalkerModel {
    WalkerModel { roots: roots_rehidden(walker.roots, match_hidden), match_hidden, ..walker }
}

/// Whether the includes of a root let the walk descend below `relative`.
pub open spec fn may_descend(root: RootModel, relative: Seq<u8>) -> bool {
    root.includes.len() == 0 || exists|i: int|
        0 <= i < root.includes.len() && pattern_may_reach(#[trigger] root.includes[i], relative)
}

/// Whether the includes of a root allow the extension of `relative`.
pub open spec fn may_select_file(root: RootModel, relative: Seq<u8>) -> bool {
    root.includes.len() == 0 || exists|i: int|
        0 <= i < root.includes.len() && pattern_allows_extension(
            #[trigger] root.includes[i],
            relative,
        )
}

/// Whether a directory at `depth` is above the depth limit.
pub open spec fn above_limit(options: WalkOptions, depth: int) -> bool {
    match options.max_depth {
        Some(limit) => depth < limit,
        None => true,
    }
}

/// Every pattern's model.
pub open spec fn models(patterns: Seq<TraversalPattern>) -> Seq<Traversal> {
    Seq::new(patterns.len(), |i: int| patterns[i].model())
}

/// One root of a walk, with the patterns as they read for it.
///
/// A relative pattern means the same under every root, but an absolute one does
/// not: it selects under the root it names and nothing under the others.
#[derive(Debug)]
pub struct RootPlan {
    /// Shared with every entry found under this root.
    path: Arc<Vec<u8>>,
    includes: Vec<TraversalPattern>,
    excludes: Vec<TraversalPattern>,
}

/// What roots are.
spec fn root_models(roots: Seq<RootPlan>) -> Seq<RootModel> {
    Seq::new(roots.len(), |i: int| roots[i].model())
}

impl RootPlan {
    /// What the root is.
    pub closed spec fn model(&self) -> RootModel {
        RootModel {
            path: self.path@,
            includes: models(self.includes@),
            excludes: models(self.excludes@),
        }
    }

    /// A root with no patterns compiled for it yet.
    fn new(path: Vec<u8>) -> (result: Self)
        ensures
            result.model() == (RootModel {
                path: path@,
                includes: Seq::empty(),
                excludes: Seq::empty(),
            }),
    {
        let result = RootPlan {
            path: Arc::new(path),
            includes: Vec::new(),
            excludes: Vec::new(),
        };
        assert(result.model().includes =~= Seq::empty());
        assert(result.model().excludes =~= Seq::empty());
        result
    }

    /// The root's path, to share with what is found under it.
    pub(crate) fn shared_path(&self) -> (result: Arc<Vec<u8>>)
        ensures
            result@ == self.model().path,
    {
        self.path.clone()
    }

    /// The root's path.
    pub fn path(&self) -> (result: &[u8])
        ensures
            result@ == self.model().path,
    {
        self.path.as_slice()
    }

    /// The includes, as they read for this root.
    pub fn includes(&self) -> (result: &Vec<TraversalPattern>)
        ensures
            models(result@) == self.model().includes,
    {
        &self.includes
    }

    /// The excludes, as they read for this root.
    pub fn excludes(&self) -> (result: &Vec<TraversalPattern>)
        ensures
            models(result@) == self.model().excludes,
    {
        &self.excludes
    }
}

fn copy_patterns(patterns: &Vec<TraversalPattern>) -> (result: Vec<TraversalPattern>)
    ensures
        models(result@) == models(patterns@),
{
    let mut copies: Vec<TraversalPattern> = Vec::new();
    let mut i: usize = 0;
    while i < patterns.len()
        invariant
            i <= patterns@.len(),
            models(copies@) == models(patterns@).take(i as int),
        decreases patterns@.len() - i,
    {
        let ghost before = models(copies@);
        copies.push(patterns[i].clone());
        assert(models(copies@) =~= before.push(models(patterns@)[i as int]));
        i += 1;
    }
    assert(models(patterns@).take(i as int) =~= models(patterns@));
    copies
}

impl Clone for RootPlan {
    fn clone(&self) -> (result: Self)
        ensures
            result.model() == self.model(),
    {
        RootPlan {
            path: self.path.clone(),
            includes: copy_patterns(&self.includes),
            excludes: copy_patterns(&self.excludes),
        }
    }
}

/// Builder for a traversal.
#[derive(Debug)]
pub struct Walker {
    syntax: Syntax,
    roots: Vec<RootPlan>,
    /// Patterns as the caller wrote them, so that a root added later can be
    /// given its own reading of each one.
    include_sources: Vec<Vec<u8>>,
    exclude_sources: Vec<Vec<u8>>,
    match_hidden: bool,
    options: WalkOptions,
    error_policy: ErrorPolicy,
    cancellation: Option<CancellationToken>,
    respect_git_ignore: bool,
    git_ignore_case: Option<bool>,
    git_precompose_unicode: Option<bool>,
    wildcard_mode: WildcardMode,
    threads: usize,
}

impl Clone for Walker {
    fn clone(&self) -> (result: Self)
        ensures
            result.model() == self.model(),
    {
        let mut roots: Vec<RootPlan> = Vec::new();
        let mut i: usize = 0;
        while i < self.roots.len()
            invariant
                i <= self.roots@.len(),
                root_models(roots@) == root_models(self.roots@).take(i as int),
            decreases self.roots@.len() - i,
        {
            let ghost before = root_models(roots@);
            roots.push(self.roots[i].clone());
            assert(root_models(roots@) =~= before.push(root_models(self.roots@)[i as int]));
            i += 1;
        }
        assert(root_models(self.roots@).take(i as int) =~= root_models(self.roots@));
        let cancellation = match &self.cancellation {
            Some(token) => Some(token.clone()),
            None => None,
        };
        Walker {
            syntax: self.syntax,
            roots,
            include_sources: copy_values(&self.include_sources),
            exclude_sources: copy_values(&self.exclude_sources),
            match_hidden: self.match_hidden,
            options: self.options,
            error_policy: self.error_policy,
            cancellation,
            respect_git_ignore: self.respect_git_ignore,
            git_ignore_case: self.git_ignore_case,
            git_precompose_unicode: self.git_precompose_unicode,
            wildcard_mode: self.wildcard_mode,
            threads: self.threads,
        }
    }
}

/// Whether each root's shape fits the pattern there.
pub open spec fn shapes_fit(walker: WalkerModel, pattern: Seq<u8>, shapes: Seq<PathShape>) -> bool {
    &&& shapes.len() == walker.roots.len()
    &&& forall|i: int|
        0 <= i < shapes.len() ==> shape_fits(
            #[trigger] shapes[i],
            pattern,
            walker.roots[i].path,
            walker.syntax,
        )
}

/// Whether each pattern's shape fits it at the root.
pub open spec fn root_shapes_fit(
    walker: WalkerModel,
    sources: Seq<Seq<u8>>,
    root: Seq<u8>,
    shapes: Seq<PathShape>,
) -> bool {
    &&& shapes.len() == sources.len()
    &&& forall|i: int|
        0 <= i < shapes.len() ==> shape_fits(
            #[trigger] shapes[i],
            sources[i],
            root,
            walker.syntax,
        )
}

impl Walker {
    /// What the walk is configured to do.
    pub closed spec fn model(&self) -> WalkerModel {
        WalkerModel {
            syntax: self.syntax,
            roots: root_models(self.roots@),
            include_sources: contents(self.include_sources@),
            exclude_sources: contents(self.exclude_sources@),
            match_hidden: self.match_hidden,
            options: self.options,
            error_policy: self.error_policy,
            cancellation: self.cancellation,
            respect_git_ignore: self.respect_git_ignore,
            git_ignore_case: self.git_ignore_case,
            git_precompose_unicode: self.git_precompose_unicode,
            wildcard_mode: self.wildcard_mode,
            threads: self.threads as int,
        }
    }

    /// Starts a walk rooted at `root`, a slash-separated path.
    #[must_use]
    pub fn new(root: Vec<u8>, host: Host) -> (result: Self)
        ensures
            result.model() == fresh_walker(root@, host),
    {
        let mut roots: Vec<RootPlan> = Vec::new();
        let plan = RootPlan::new(root);
        roots.push(plan);
        let result = Walker {
            syntax: host.syntax,
            roots,
            include_sources: Vec::new(),
            exclude_sources: Vec::new(),
            match_hidden: false,
            options: WalkOptions::default(),
            error_policy: ErrorPolicy::default(),
            cancellation: None,
            respect_git_ignore: false,
            git_ignore_case: None,
            git_precompose_unicode: None,
            wildcard_mode: WildcardMode::default(),
            threads: clamp_workers(host.parallelism),
        };
        assert(result.model().roots =~= fresh_walker(root@, host).roots);
        assert(result.model().include_sources =~= Seq::empty());
        assert(result.model().exclude_sources =~= Seq::empty());
        result
    }

    /// Adds an OR-ed include pattern without consuming the builder. No includes
    /// means that every entry that is not excluded is returned.
    ///
    /// The pattern may be absolute. `shapes` holds what the glob compiler tells
    /// of the pattern for each root, in order. A pattern that one root refuses
    /// leaves the walk as it was.
    pub fn try_include(&mut self, pattern: &[u8], shapes: &[PathShape]) -> (result: Result<
        (),
        PatternError,
    >)
        requires
            shapes_fit(old(self).model(), pattern@, shapes@),
        ensures
            match with_include(old(self).model(), pattern@, shapes@) {
                Ok(walker) => result is Ok && final(self).model() == walker,
                Err(refusal) => result is Err && result->Err_0@ == refusal && final(self).model()
                    == old(self).model(),
            },
    {
        let ghost before = self.model();
        let compiled = match self.compile_for_every_root(pattern, shapes) {
            Ok(compiled) => compiled,
            Err(error) => return Err(error),
        };
        let ghost added = models(compiled@);
        let mut rest = compiled;
        let mut i: usize = self.roots.len();
        while i > 0
            invariant
                i <= self.roots@.len(),
                rest@.len() == i,
                added.len() == self.roots@.len(),
                before.roots.len() == self.roots@.len(),
                models(rest@) == added.take(i as int),
                self.model() == (WalkerModel { roots: self.model().roots, ..before }),
                forall|j: int| 0 <= j < i ==> (#[trigger] self.roots@[j]).model() == before.roots[j],
                forall|j: int|
                    i <= j < self.roots@.len() ==> (#[trigger] self.roots@[j]).model() == (RootModel {
                        includes: before.roots[j].includes.push(added[j]),
                        ..before.roots[j]
                    }),
            decreases i,
        {
            i -= 1;
            let ghost left = models(rest@);
            if let Some(pattern) = rest.pop() {
                let ghost one = pattern.model();
                assert(one == left[i as int]);
                let ghost plan = self.roots@[i as int].model();
                self.roots[i].includes.push(pattern);
                assert(self.roots@[i as int].model().includes =~= plan.includes.push(one));
            }
            assert(models(rest@) =~= added.take(i as int));
        }
        self.include_sources.push(slice_to_vec(pattern));
        proof {
            assert(self.model().roots =~= roots_including(before.roots, added));
            assert(self.model().include_sources =~= before.include_sources.push(pattern@));
        }
        Ok(())
    }

    /// Adds an OR-ed include pattern and returns the builder.
    pub fn including(self, pattern: &[u8], shapes: &[PathShape]) -> (result: Result<
        Self,
        PatternError,
    >)
        requires
            shapes_fit(self.model(), pattern@, shapes@),
        ensures
            match with_include(self.model(), pattern@, shapes@) {
                Ok(walker) => result is Ok && result->Ok_0.model() == walker,
                Err(refusal) => result is Err && result->Err_0@ == refusal,
            },
    {
        let mut walker = self;
        match walker.try_include(pattern, shapes) {
            Ok(()) => Ok(walker),
            Err(error) => Err(error),
        }
    }

    /// Adds an OR-ed exclude pattern without consuming the builder, on the terms
    /// of [`Walker::try_include`]. A matching directory is not returned, and is
    /// pruned only when no include can select a descendant.
    pub fn try_exclude(&mut self, pattern: &[u8], shapes: &[PathShape]) -> (result: Result<
        (),
        PatternError,
    >)
        requires
            shapes_fit(old(self).model(), pattern@, shapes@),
        ensures
            match with_exclude(old(self).model(), pattern@, shapes@) {
                Ok(walker) => result is Ok && final(self).model() == walker,
                Err(refusal) => result is Err && result->Err_0@ == refusal && final(self).model()
                    == old(self).model(),
            },
    {
        let ghost before = self.model();
        let compiled = match self.compile_for_every_root(pattern, shapes) {
            Ok(compiled) => compiled,
            Err(error) => return Err(error),
        };
        let ghost added = models(compiled@);
        let mut rest = compiled;
        let mut i: usize = self.roots.len();
        while i > 0
            invariant
                i <= self.roots@.len(),
                rest@.len() == i,
                added.len() == self.roots@.len(),
                before.roots.len() == self.roots@.len(),
                models(rest@) == added.take(i as int),
                self.model() == (WalkerModel { roots: self.model().roots, ..before }),
                forall|j: int| 0 <= j < i ==> (#[trigger] self.roots@[j]).model() == before.roots[j],
                forall|j: int|
                    i <= j < self.roots@.len() ==> (#[trigger] self.roots@[j]).model() == (RootModel {
                        excludes: before.roots[j].excludes.push(added[j]),
                        ..before.roots[j]
                    }),
            decreases i,
        {
            i -= 1;
            let ghost left = models(rest@);
            if let Some(pattern) = rest.pop() {
                let ghost one = pattern.model();
                assert(one == left[i as int]);
                let ghost plan = self.roots@[i as int].model();
                self.roots[i].excludes.push(pattern);
                assert(self.roots@[i as int].model().excludes =~= plan.excludes.push(one));
            }
            assert(models(rest@) =~= added.take(i as int));
        }
        self.exclude_sources.push(slice_to_vec(pattern));
        proof {
            assert(self.model().roots =~= roots_excluding(before.roots, added));
            assert(self.model().exclude_sources =~= before.exclude_sources.push(pattern@));
        }
        Ok(())
    }

    /// Adds an OR-ed exclude pattern and returns the builder.
    pub fn exclude(self, pattern: &[u8], shapes: &[PathShape]) -> (result: Result<
        Self,
        PatternError,
    >)
        requires
            shapes_fit(self.model(), pattern@, shapes@),
        ensures
            match with_exclude(self.model(), pattern@, shapes@) {
                Ok(walker) => result is Ok && result->Ok_0.model() == walker,
                Err(refusal) => result is Err && result->Err_0@ == refusal,
            },
    {
        let mut walker = self;
        match walker.try_exclude(pattern, shapes) {
            Ok(()) => Ok(walker),
            Err(error) => Err(error),
        }
    }

    /// Adds another root to the same walk without consuming the builder.
    ///
    /// Patterns are per root: each one added before is read for this root, too,
    /// and the error one of them gives there leaves the walk as it was. The two
    /// lists of shapes hold what the glob compiler tells of each include and
    /// each exclude for this root, in order.
    pub fn try_add_root(
        &mut self,
        root: Vec<u8>,
        include_shapes: &[PathShape],
        exclude_shapes: &[PathShape],
    ) -> (result: Result<(), PatternError>)
        requires
            root_shapes_fit(
                old(self).model(),
                old(self).model().include_sources,
                root@,
                include_shapes@,
            ),
            root_shapes_fit(
                old(self).model(),
                old(self).model().exclude_sources,
                root@,
                exclude_shapes@,
            ),
        ensures
            match with_root(old(self).model(), root@, include_shapes@, exclude_shapes@) {
                Ok(walker) => result is Ok && final(self).model() == walker,
                Err(refusal) => result is Err && result->Err_0@ == refusal && final(self).model()
                    == old(self).model(),
            },
    {
        let ghost before = self.model();
        let includes = match self.compile_every_for_root(
            &self.include_sources,
            root.as_slice(),
            include_shapes,
        ) {
            Ok(compiled) => compiled,
            Err(error) => return Err(error),
        };
        let excludes = match self.compile_every_for_root(
            &self.exclude_sources,
            root.as_slice(),
            exclude_shapes,
        ) {
            Ok(compiled) => compiled,
            Err(error) => return Err(error),
        };
        let plan = RootPlan { path: Arc::new(root), includes, excludes };
        let ghost added = plan.model();
        self.roots.push(plan);
        assert(self.model().roots =~= before.roots.push(added));
        Ok(())
    }

    /// Adds another root and returns the builder.
    pub fn add_root(
        self,
        root: Vec<u8>,
        include_shapes: &[PathShape],
        exclude_shapes: &[PathShape],
    ) -> (result: Result<Self, PatternError>)
        requires
            root_shapes_fit(
                self.model(),
                self.model().include_sources,
                root@,
                include_shapes@,
            ),
            root_shapes_fit(
                self.model(),
                self.model().exclude_sources,
                root@,
                exclude_shapes@,
            ),
        ensures
            match with_root(self.model(), root@, include_shapes@, exclude_shapes@) {
                Ok(walker) => result is Ok && result->Ok_0.model() == walker,
                Err(refusal) => result is Err && result->Err_0@ == refusal,
            },
    {
        let mut walker = self;
        match walker.try_add_root(root, include_shapes, exclude_shapes) {
            Ok(()) => Ok(walker),
            Err(error) => Err(error),
        }
    }

    /// Adds several roots, in order, and returns the builder, or the error of
    /// the first root that gives one.
    pub fn add_roots(self, roots: Vec<NewRoot>) -> (result: Result<Self, PatternError>)
        requires
            forall|i: int|
                #![trigger roots@[i]]
                0 <= i < roots@.len() ==> root_shapes_fit(
                    self.model(),
                    self.model().include_sources,
                    roots@[i].path@,
                    roots@[i].include_shapes@,
                ) && root_shapes_fit(
                    self.model(),
                    self.model().exclude_sources,
                    roots@[i].path@,
                    roots@[i].exclude_shapes@,
                ),
        ensures
            match with_roots(self.model(), roots@) {
                Ok(walker) => result is Ok && result->Ok_0.model() == walker,
                Err(refusal) => result is Err && result->Err_0@ == refusal,
            },
    {
        let ghost all = roots@;
        let ghost start = self.model();
        let mut walker = self;
        let mut rest = roots;
        while rest.len() > 0
            invariant
                all == roots@,
                start == self.model(),
                rest@.len() <= all.len(),
                forall|i: int|
                    0 <= i < rest@.len() ==> #[trigger] rest@[i] == all[all.len() - rest@.len()
                        + i],
                walker.model().syntax == start.syntax,
                walker.model().include_sources == start.include_sources,
                walker.model().exclude_sources == start.exclude_sources,
                with_roots(walker.model(), rest@) == with_roots(start, all),
                forall|i: int|
                    #![trigger all[i]]
                    0 <= i < all.len() ==> root_shapes_fit(
                        start,
                        start.include_sources,
                        all[i].path@,
                        all[i].include_shapes@,
                    ) && root_shapes_fit(
                        start,
                        start.exclude_sources,
                        all[i].path@,
                        all[i].exclude_shapes@,
                    ),
            decreases rest@.len(),
        {
            let ghost before = rest@;
            let root = rest.remove(0);
            assert(rest@ =~= before.drop_first());
            assert(root == before[0] && root == all[all.len() - before.len()]);
            match walker.try_add_root(
                root.path,
                root.include_shapes.as_slice(),
                root.exclude_shapes.as_slice(),
            ) {
                Ok(()) => {},
                Err(error) => return Err(error),
            }
        }
        Ok(walker)
    }

    /// Compiles each of `sources` for one root, or reports the first rejection.
    fn compile_every_for_root(
        &self,
        sources: &Vec<Vec<u8>>,
        root: &[u8],
        shapes: &[PathShape],
    ) -> (result: Result<Vec<TraversalPattern>, PatternError>)
        requires
            root_shapes_fit(self.model(), contents(sources@), root@, shapes@),
        ensures
            match result {
                Ok(compiled) => every_for_root(
                    self.model(),
                    contents(sources@),
                    root@,
                    shapes@,
                    sources@.len() as int,
                ) == Ok::<Seq<Traversal>, Refusal>(models(compiled@)),
                Err(error) => every_for_root(
                    self.model(),
                    contents(sources@),
                    root@,
                    shapes@,
                    sources@.len() as int,
                ) == Err::<Seq<Traversal>, Refusal>(error@),
            },
    {
        let mut compiled: Vec<TraversalPattern> = Vec::new();
        let ghost texts = contents(sources@);
        let mut i: usize = 0;
        assert(models(compiled@) =~= Seq::empty());
        while i < sources.len()
            invariant
                i <= sources@.len(),
                texts == contents(sources@),
                root_shapes_fit(self.model(), texts, root@, shapes@),
                every_for_root(self.model(), texts, root@, shapes@, i as int) == Ok::<
                    Seq<Traversal>,
                    Refusal,
                >(models(compiled@)),
            decreases sources@.len() - i,
        {
            let ghost earlier = models(compiled@);
            assert(texts[i as int] == sources@[i as int]@);
            assert(shape_fits(shapes@[i as int], texts[i as int], root@, self.model().syntax));
            match compile_for_root(
                sources[i].as_slice(),
                root,
                self.syntax,
                self.match_hidden,
                shapes[i],
            ) {
                Ok(one) => {
                    let ghost model = one.model();
                    compiled.push(one);
                    assert(models(compiled@) =~= earlier.push(model));
                },
                Err(error) => {
                    proof {
                        lemma_root_refusal_stays(
                            self.model(),
                            texts,
                            root@,
                            shapes@,
                            i as int + 1,
                            texts.len() as int,
                        );
                    }
                    return Err(error);
                },
            }
            i += 1;
        }
        Ok(compiled)
    }

    /// The includes as the caller wrote them.
    pub fn include_sources(&self) -> (result: &Vec<Vec<u8>>)
        ensures
            contents(result@) == self.model().include_sources,
    {
        &self.include_sources
    }

    /// The excludes as the caller wrote them.
    pub fn exclude_sources(&self) -> (result: &Vec<Vec<u8>>)
        ensures
            contents(result@) == self.model().exclude_sources,
    {
        &self.exclude_sources
    }

    /// The roots this walk starts from, in the order they were added.
    #[must_use]
    pub fn roots(&self) -> (result: Vec<&[u8]>)
        ensures
            result@.len() == self.model().roots.len(),
            forall|i: int|
                0 <= i < result@.len() ==> (#[trigger] result@[i])@ == self.model().roots[i].path,
    {
        let mut paths: Vec<&[u8]> = Vec::new();
        let mut i: usize = 0;
        while i < self.roots.len()
            invariant
                i <= self.roots@.len(),
                paths@.len() == i,
                forall|j: int|
                    0 <= j < i ==> (#[trigger] paths@[j])@ == self.model().roots[j].path,
            decreases self.roots@.len() - i,
        {
            paths.push(self.roots[i].path());
            i += 1;
        }
        paths
    }

    /// How many roots there are.
    pub fn root_count(&self) -> (result: usize)
        ensures
            result == self.model().roots.len(),
    {
        self.roots.len()
    }

    /// One root, with its patterns.
    pub fn plan(&self, root: usize) -> (result: &RootPlan)
        requires
            root < self.model().roots.len(),
        ensures
            result.model() == self.model().roots[root as int],
    {
        &self.roots[root]
    }

    /// Lets an ordinary wildcard cover a leading period. Patterns added before
    /// this call are read under the new setting, too.
    #[must_use]
    pub fn match_hidden(self, enabled: bool) -> (result: Self)
        ensures
            enabled == self.model().match_hidden ==> result.model() == self.model(),
            enabled != self.model().match_hidden ==> result.model() == with_match_hidden(
                self.model(),
                enabled,
            ),
    {
        if self.match_hidden == enabled {
            return self;
        }
        let ghost before = self.model();
        let mut walker = self;
        walker.match_hidden = enabled;
        let mut rest: Vec<RootPlan> = Vec::new();
        std::mem::swap(&mut rest, &mut walker.roots);
        let mut done: Vec<RootPlan> = Vec::new();
        while rest.len() > 0
            invariant
                before.roots.len() == rest@.len() + done@.len(),
                forall|j: int| 0 <= j < rest@.len() ==> (#[trigger] rest@[j]).model()
                    == before.roots[j],
                forall|j: int|
                    0 <= j < done@.len() ==> (#[trigger] done@[j]).model() == roots_rehidden(
                        before.roots,
                        enabled,
                    )[before.roots.len() - 1 - j],
            decreases rest@.len(),
        {
            let ghost at = rest@.len() - 1;
            if let Some(plan) = rest.pop() {
                assert(plan.model() == before.roots[at]);
                let RootPlan { path, includes, excludes } = plan;
                let plan = RootPlan {
                    path,
                    includes: recompile_all(includes, enabled),
                    excludes: recompile_all(excludes, enabled),
                };
                assert(plan.model() == roots_rehidden(before.roots, enabled)[at]);
                done.push(plan);
            }
        }
        while done.len() > 0
            invariant
                before.roots.len() == walker.roots@.len() + done@.len(),
                walker.model() == (WalkerModel {
                    roots: walker.model().roots,
                    match_hidden: enabled,
                    ..before
                }),
                forall|j: int|
                    0 <= j < done@.len() ==> (#[trigger] done@[j]).model() == roots_rehidden(
                        before.roots,
                        enabled,
                    )[before.roots.len() - 1 - j],
                forall|j: int|
                    0 <= j < walker.roots@.len() ==> (#[trigger] walker.roots@[j]).model()
                        == roots_rehidden(before.roots, enabled)[j],
            decreases done@.len(),
        {
            if let Some(plan) = done.pop() {
                walker.roots.push(plan);
            }
        }
        assert(walker.model().roots =~= roots_rehidden(before.roots, enabled));
        walker
    }

    /// Chooses how far an ordinary wildcard reaches.
    #[must_use]
    pub fn wildcard_mode(self, mode: WildcardMode) -> (result: Self)
        ensures
            result.model() == (WalkerModel { wildcard_mode: mode, ..self.model() }),
    {
        Walker { wildcard_mode: mode, ..self }
    }

    /// Replaces all traversal options.
    #[must_use]
    pub fn options(self, options: WalkOptions) -> (result: Self)
        ensures
            result.model() == (WalkerModel { options, ..self.model() }),
    {
        Walker { options, ..self }
    }

    /// Chooses the recoverable error policy.
    #[must_use]
    pub fn error_policy(self, error_policy: ErrorPolicy) -> (result: Self)
        ensures
            result.model() == (WalkerModel { error_policy, ..self.model() }),
    {
        Walker { error_policy, ..self }
    }

    /// Associates a cancellation handle that the caller owns.
    #[must_use]
    pub fn cancellation(self, cancellation: CancellationToken) -> (result: Self)
        ensures
            result.model() == (WalkerModel { cancellation: Some(cancellation), ..self.model() }),
    {
        Walker { cancellation: Some(cancellation), ..self }
    }

    /// Applies `.gitignore` rules plus `.ignore` supplements. A root that a rule
    /// ignores is entered all the same.
    #[must_use]
    pub fn respect_git_ignore(self, enabled: bool) -> (result: Self)
        ensures
            result.model() == (WalkerModel { respect_git_ignore: enabled, ..self.model() }),
    {
        Walker { respect_git_ignore: enabled, ..self }
    }

    /// Overrides the repository's `core.ignoreCase`.
    #[must_use]
    pub fn git_ignore_case(self, enabled: bool) -> (result: Self)
        ensures
            result.model() == (WalkerModel { git_ignore_case: Some(enabled), ..self.model() }),
    {
        Walker { git_ignore_case: Some(enabled), ..self }
    }

    /// Clears an override of `core.ignoreCase`.
    #[must_use]
    pub fn clear_git_ignore_case(self) -> (result: Self)
        ensures
            result.model() == (WalkerModel { git_ignore_case: None, ..self.model() }),
    {
        Walker { git_ignore_case: None, ..self }
    }

    /// Overrides the repository's `core.precomposeUnicode`.
    #[must_use]
    pub fn git_precompose_unicode(self, enabled: bool) -> (result: Self)
        ensures
            result.model() == (WalkerModel {
                git_precompose_unicode: Some(enabled),
                ..self.model()
            }),
    {
        Walker { git_precompose_unicode: Some(enabled), ..self }
    }

    /// Clears an override of `core.precomposeUnicode`.
    #[must_use]
    pub fn clear_git_precompose_unicode(self) -> (result: Self)
        ensures
            result.model() == (WalkerModel { git_precompose_unicode: None, ..self.model() }),
    {
        Walker { git_precompose_unicode: None, ..self }
    }

    /// Limits a walk to this many workers, within what one walk may reserve.
    #[must_use]
    pub fn threads(self, threads: usize) -> (result: Self)
        ensures
            result.model() == (WalkerModel {
                threads: worker_budget(threads as int),
                ..self.model()
            }),
    {
        Walker { threads: clamp_workers(threads), ..self }
    }

    /// How many workers the walk may use.
    pub fn worker_count(&self) -> (result: usize)
        ensures
            result == self.model().threads,
    {
        self.threads
    }

    /// The traversal options.
    pub fn walk_options(&self) -> (result: WalkOptions)
        ensures
            result == self.model().options,
    {
        self.options
    }

    /// Whether a directory at this depth is opened only where its path does not
    /// end in a link: links are followed on request, and a root always is.
    pub fn refuses_final_symlink(&self, depth: usize) -> (result: bool)
        ensures
            result == (!self.model().options.follow_symlinks && depth > 0),
    {
        !self.options.follow_symlinks && depth > 0
    }

    /// The error policy.
    pub fn policy(&self) -> (result: ErrorPolicy)
        ensures
            result == self.model().error_policy,
    {
        self.error_policy
    }

    /// How far an ordinary wildcard reaches.
    pub fn mode(&self) -> (result: WildcardMode)
        ensures
            result == self.model().wildcard_mode,
    {
        self.wildcard_mode
    }

    /// Whether ignore files are respected.
    pub fn respects_git_ignore(&self) -> (result: bool)
        ensures
            result == self.model().respect_git_ignore,
    {
        self.respect_git_ignore
    }

    /// What the caller says of `core.ignoreCase` and `core.precomposeUnicode`.
    pub fn git_overrides(&self) -> (result: (Option<bool>, Option<bool>))
        ensures
            result.0 == self.model().git_ignore_case,
            result.1 == self.model().git_precompose_unicode,
    {
        (self.git_ignore_case, self.git_precompose_unicode)
    }

    /// How the host spells absolute paths.
    pub fn syntax(&self) -> (result: Syntax)
        ensures
            result == self.model().syntax,
    {
        self.syntax
    }

    /// Whether anyone has asked the walk to stop: the answer of the walk's own
    /// handle. Without a handle nobody can ask.
    pub fn is_cancelled(&self) -> (result: bool)
        ensures
            match self.model().cancellation {
                Some(token) => token.may_answer(result),
                None => !result,
            },
    {
        match &self.cancellation {
            Some(token) => token.is_cancelled(),
            None => false,
        }
    }

    /// Whether the includes of a root let the walk descend below `relative`.
    pub fn may_descend_into(&self, root: usize, relative: &[u8]) -> (result: bool)
        requires
            root < self.model().roots.len(),
        ensures
            result == may_descend(self.model().roots[root as int], relative@),
    {
        let plan = self.plan(root);
        let includes = plan.includes();
        if includes.len() == 0 {
            assert(plan.model().includes.len() == 0);
            return true;
        }
        let mut i: usize = 0;
        while i < includes.len()
            invariant
                i <= includes@.len(),
                models(includes@) == self.model().roots[root as int].includes,
                forall|j: int|
                    0 <= j < i ==> !pattern_may_reach(
                        #[trigger] self.model().roots[root as int].includes[j],
                        relative@,
                    ),
            decreases includes@.len() - i,
        {
            assert(self.model().roots[root as int].includes[i as int]
                == includes@[i as int].model());
            if includes[i].could_match_descendant(relative) {
                return true;
            }
            i += 1;
        }
        false
    }

    /// Whether the walk may traverse into a directory found at `depth`.
    pub fn may_descend_at(&self, root: usize, depth: usize, relative: &[u8]) -> (result: bool)
        requires
            root < self.model().roots.len(),
        ensures
            result == (above_limit(self.model().options, depth as int) && may_descend(
                self.model().roots[root as int],
                relative@,
            )),
    {
        let above = match self.options.max_depth {
            Some(limit) => depth < limit,
            None => true,
        };
        above && self.may_descend_into(root, relative)
    }

    /// Whether the includes of a root allow the extension of `relative`.
    pub fn may_include_file(&self, root: usize, relative: &[u8]) -> (result: bool)
        requires
            root < self.model().roots.len(),
        ensures
            result == may_select_file(self.model().roots[root as int], relative@),
    {
        let plan = self.plan(root);
        let includes = plan.includes();
        if includes.len() == 0 {
            assert(plan.model().includes.len() == 0);
            return true;
        }
        let mut i: usize = 0;
        while i < includes.len()
            invariant
                i <= includes@.len(),
                models(includes@) == self.model().roots[root as int].includes,
                forall|j: int|
                    0 <= j < i ==> !pattern_allows_extension(
                        #[trigger] self.model().roots[root as int].includes[j],
                        relative@,
                    ),
            decreases includes@.len() - i,
        {
            assert(self.model().roots[root as int].includes[i as int]
                == includes@[i as int].model());
            if includes[i].matches_extension(relative) {
                return true;
            }
            i += 1;
        }
        false
    }

    /// Whether a queued directory can be read without resolving its reported
    /// path for any later filesystem operation.
    ///
    /// Modes that load ignore files, identify symlink cycles or ask for an
    /// entry's metadata resolve paths, and mixing the two could observe two
    /// trees after an ancestor was renamed.
    pub fn allows_descriptor_relative_descent(&self) -> (result: bool)
        ensures
            result == (!self.model().respect_git_ignore && !self.model().options.follow_symlinks
                && !self.model().options.metadata && !self.model().options.resolve_symlink_kind),
    {
        !self.respect_git_ignore && !self.options.follow_symlinks && !self.options.metadata
            && !self.options.resolve_symlink_kind
    }

    /// Compiles one pattern once per root, or reports the first rejection.
    fn compile_for_every_root(&self, pattern: &[u8], shapes: &[PathShape]) -> (result: Result<
        Vec<TraversalPattern>,
        PatternError,
    >)
        requires
            shapes_fit(self.model(), pattern@, shapes@),
        ensures
            match result {
                Ok(compiled) => for_every_root(
                    self.model(),
                    pattern@,
                    shapes@,
                    self.model().roots.len() as int,
                ) == Ok::<Seq<Traversal>, Refusal>(models(compiled@)) && compiled@.len()
                    == self.model().roots.len(),
                Err(error) => for_every_root(
                    self.model(),
                    pattern@,
                    shapes@,
                    self.model().roots.len() as int,
                ) == Err::<Seq<Traversal>, Refusal>(error@),
            },
    {
        let mut compiled: Vec<TraversalPattern> = Vec::new();
        let mut i: usize = 0;
        assert(models(compiled@) =~= Seq::empty());
        while i < self.roots.len()
            invariant
                i <= self.roots@.len(),
                compiled@.len() == i,
                shapes_fit(self.model(), pattern@, shapes@),
                for_every_root(self.model(), pattern@, shapes@, i as int) == Ok::<
                    Seq<Traversal>,
                    Refusal,
                >(models(compiled@)),
            decreases self.roots@.len() - i,
        {
            assert(self.model().roots[i as int] == self.roots@[i as int].model());
            let ghost earlier = models(compiled@);
            assert(shape_fits(
                shapes@[i as int],
                pattern@,
                self.model().roots[i as int].path,
                self.model().syntax,
            ));
            match compile_for_root(
                pattern,
                self.roots[i].path(),
                self.syntax,
                self.match_hidden,
                shapes[i],
            ) {
                Ok(one) => {
                    let ghost model = one.model();
                    compiled.push(one);
                    assert(models(compiled@) =~= earlier.push(model));
                },
                Err(error) => {
                    proof {
                        lemma_refusal_stays(
                            self.model(),
                            pattern@,
                            shapes@,
                            i as int + 1,
                            self.model().roots.len() as int,
                        );
                    }
                    return Err(error);
                },
            }
            i += 1;
        }
        Ok(compiled)
    }
}

proof fn lemma_refusal_stays(
    walker: WalkerModel,
    pattern: Seq<u8>,
    shapes: Seq<PathShape>,
    count: int,
    more: int,
)
    requires
        count <= more,
        for_every_root(walker, pattern, shapes, count) is Err,
    ensures
        for_every_root(walker, pattern, shapes, more) == for_every_root(
            walker,
            pattern,
            shapes,
            count,
        ),
    decreases more - count,
{
    if count < more {
        lemma_refusal_stays(walker, pattern, shapes, count, more - 1);
    }
}

proof fn lemma_root_refusal_stays(
    walker: WalkerModel,
    sources: Seq<Seq<u8>>,
    root: Seq<u8>,
    shapes: Seq<PathShape>,
    count: int,
    more: int,
)
    requires
        count <= more,
        every_for_root(walker, sources, root, shapes, count) is Err,
    ensures
        every_for_root(walker, sources, root, shapes, more) == every_for_root(
            walker,
            sources,
            root,
            shapes,
            count,
        ),
    decreases more - count,
{
    if count < more {
        lemma_root_refusal_stays(walker, sources, root, shapes, count, more - 1);
    }
}

/// The patterns under another setting of `match_hidden`.
fn recompile_all(patterns: Vec<TraversalPattern>, match_hidden: bool) -> (result: Vec<
    TraversalPattern,
>)
    ensures
        models(result@) == rehidden(models(patterns@), match_hidden),
{
    let ghost before = models(patterns@);
    let mut rest = patterns;
    let mut done: Vec<TraversalPattern> = Vec::new();
    while rest.len() > 0
        invariant
            before.len() == rest@.len() + done@.len(),
            forall|j: int| 0 <= j < rest@.len() ==> (#[trigger] rest@[j]).model() == before[j],
            forall|j: int|
                0 <= j < done@.len() ==> (#[trigger] done@[j]).model() == rehidden(
                    before,
                    match_hidden,
                )[before.len() - 1 - j],
        decreases rest@.len(),
    {
        if let Some(pattern) = rest.pop() {
            done.push(pattern.recompile(match_hidden));
        }
    }
    let mut result: Vec<TraversalPattern> = Vec::new();
    while done.len() > 0
        invariant
            before.len() == result@.len() + done@.len(),
            forall|j: int|
                0 <= j < done@.len() ==> (#[trigger] done@[j]).model() == rehidden(
                    before,
                    match_hidden,
                )[before.len() - 1 - j],
            forall|j: int|
                0 <= j < result@.len() ==> (#[trigger] result@[j]).model() == rehidden(
                    before,
                    match_hidden,
                )[j],
        decreases done@.len(),
    {
        if let Some(pattern) = done.pop() {
            result.push(pattern);
        }
    }
    assert(models(result@) =~= rehidden(before, match_hidden));
    result
}

fn clamp_workers(threads: usize) -> (result: usize)
    ensures
        result == worker_budget(threads as int),
{
    if threads == 0 {
        1
    } else if threads > MAX_WORKERS {
        MAX_WORKERS
    } else {
        threads
    }
}

/// Whether a compiled pattern is what `pattern` reads for a root.
pub open spec fn reads_as(
    compiled: Traversal,
    pattern: Seq<u8>,
    root: Seq<u8>,
    syntax: Syntax,
    match_hidden: bool,
) -> bool {
    exists|shape: PathShape| #[trigger]
        traversal_for(pattern, root, syntax, match_hidden, shape) == Ok::<Traversal, Refusal>(
            compiled,
        )
}

/// Whether compiled patterns are what `sources` read for a root, one by one.
pub open spec fn all_read_as(
    compiled: Seq<Traversal>,
    sources: Seq<Seq<u8>>,
    root: Seq<u8>,
    syntax: Syntax,
    match_hidden: bool,
) -> bool {
    &&& compiled.len() == sources.len()
    &&& forall|i: int|
        0 <= i < compiled.len() ==> reads_as(
            #[trigger] compiled[i],
            sources[i],
            root,
            syntax,
            match_hidden,
        )
}

/// Whether one pattern list serves every root: there is a root, and each holds
/// its own reading of every pattern.
pub open spec fn consistent(walker: WalkerModel) -> bool {
    &&& walker.roots.len() > 0
    &&& forall|r: int|
        0 <= r < walker.roots.len() ==> all_read_as(
            (#[trigger] walker.roots[r]).includes,
            walker.include_sources,
            walker.roots[r].path,
            walker.syntax,
            walker.match_hidden,
        ) && all_read_as(
            walker.roots[r].excludes,
            walker.exclude_sources,
            walker.roots[r].path,
            walker.syntax,
            walker.match_hidden,
        )
}

proof fn lemma_for_every_root(
    walker: WalkerModel,
    pattern: Seq<u8>,
    shapes: Seq<PathShape>,
    count: int,
)
    requires
        0 <= count,
        for_every_root(walker, pattern, shapes, count) is Ok,
    ensures
        ({
            let compiled = for_every_root(walker, pattern, shapes, count)->Ok_0;
            &&& compiled.len() == count
            &&& forall|r: int|
                0 <= r < count ==> traversal_for(
                    pattern,
                    walker.roots[r].path,
                    walker.syntax,
                    walker.match_hidden,
                    shapes[r],
                ) == Ok::<Traversal, Refusal>(#[trigger] compiled[r])
        }),
    decreases count,
{
    if count > 0 {
        lemma_for_every_root(walker, pattern, shapes, count - 1);
    }
}

proof fn lemma_every_for_root(
    walker: WalkerModel,
    sources: Seq<Seq<u8>>,
    root: Seq<u8>,
    shapes: Seq<PathShape>,
    count: int,
)
    requires
        0 <= count,
        every_for_root(walker, sources, root, shapes, count) is Ok,
    ensures
        ({
            let compiled = every_for_root(walker, sources, root, shapes, count)->Ok_0;
            &&& compiled.len() == count
            &&& forall|i: int|
                0 <= i < count ==> traversal_for(
                    sources[i],
                    root,
                    walker.syntax,
                    walker.match_hidden,
                    shapes[i],
                ) == Ok::<Traversal, Refusal>(#[trigger] compiled[i])
        }),
    decreases count,
{
    if count > 0 {
        lemma_every_for_root(walker, sources, root, shapes, count - 1);
    }
}

/// A fresh walk is consistent.
pub proof fn law_a_fresh_walk_is_consistent(root: Seq<u8>, host: Host)
    ensures
        consistent(fresh_walker(root, host)),
{
}

/// Adding an include keeps a walk consistent.
pub proof fn law_an_include_keeps_a_walk_consistent(
    walker: WalkerModel,
    pattern: Seq<u8>,
    shapes: Seq<PathShape>,
)
    requires
        consistent(walker),
        with_include(walker, pattern, shapes) is Ok,
    ensures
        consistent(with_include(walker, pattern, shapes)->Ok_0),
{
    let count = walker.roots.len() as int;
    lemma_for_every_root(walker, pattern, shapes, count);
    let compiled = for_every_root(walker, pattern, shapes, count)->Ok_0;
    let after = with_include(walker, pattern, shapes)->Ok_0;
    assert forall|r: int| 0 <= r < after.roots.len() implies all_read_as(
        (#[trigger] after.roots[r]).includes,
        after.include_sources,
        after.roots[r].path,
        after.syntax,
        after.match_hidden,
    ) && all_read_as(
        after.roots[r].excludes,
        after.exclude_sources,
        after.roots[r].path,
        after.syntax,
        after.match_hidden,
    ) by {
        let root = walker.roots[r];
        assert forall|i: int| 0 <= i < after.roots[r].includes.len() implies reads_as(
            #[trigger] after.roots[r].includes[i],
            after.include_sources[i],
            root.path,
            walker.syntax,
            walker.match_hidden,
        ) by {
            if i < root.includes.len() {
                assert(reads_as(
                    root.includes[i],
                    walker.include_sources[i],
                    root.path,
                    walker.syntax,
                    walker.match_hidden,
                ));
            } else {
                assert(traversal_for(
                    pattern,
                    root.path,
                    walker.syntax,
                    walker.match_hidden,
                    shapes[r],
                ) == Ok::<Traversal, Refusal>(compiled[r]));
            }
        }
    }
}

/// Adding an exclude keeps a walk consistent.
pub proof fn law_an_exclude_keeps_a_walk_consistent(
    walker: WalkerModel,
    pattern: Seq<u8>,
    shapes: Seq<PathShape>,
)
    requires
        consistent(walker),
        with_exclude(walker, pattern, shapes) is Ok,
    ensures
        consistent(with_exclude(walker, pattern, shapes)->Ok_0),
{
    let count = walker.roots.len() as int;
    lemma_for_every_root(walker, pattern, shapes, count);
    let compiled = for_every_root(walker, pattern, shapes, count)->Ok_0;
    let after = with_exclude(walker, pattern, shapes)->Ok_0;
    assert forall|r: int| 0 <= r < after.roots.len() implies all_read_as(
        (#[trigger] after.roots[r]).includes,
        after.include_sources,
        after.roots[r].path,
        after.syntax,
        after.match_hidden,
    ) && all_read_as(
        after.roots[r].excludes,
        after.exclude_sources,
        after.roots[r].path,
        after.syntax,
        after.match_hidden,
    ) by {
        let root = walker.roots[r];
        assert forall|i: int| 0 <= i < after.roots[r].excludes.len() implies reads_as(
            #[trigger] after.roots[r].excludes[i],
            after.exclude_sources[i],
            root.path,
            walker.syntax,
            walker.match_hidden,
        ) by {
            if i < root.excludes.len() {
                assert(reads_as(
                    root.excludes[i],
                    walker.exclude_sources[i],
                    root.path,
                    walker.syntax,
                    walker.match_hidden,
                ));
            } else {
                assert(traversal_for(
                    pattern,
                    root.path,
                    walker.syntax,
                    walker.match_hidden,
                    shapes[r],
                ) == Ok::<Traversal, Refusal>(compiled[r]));
            }
        }
    }
}

/// Adding a root keeps a walk consistent.
pub proof fn law_a_root_keeps_a_walk_consistent(
    walker: WalkerModel,
    root: Seq<u8>,
    include_shapes: Seq<PathShape>,
    exclude_shapes: Seq<PathShape>,
)
    requires
        consistent(walker),
        with_root(walker, root, include_shapes, exclude_shapes) is Ok,
    ensures
        consistent(with_root(walker, root, include_shapes, exclude_shapes)->Ok_0),
{
    let includes = walker.include_sources.len() as int;
    let excludes = walker.exclude_sources.len() as int;
    lemma_every_for_root(walker, walker.include_sources, root, include_shapes, includes);
    lemma_every_for_root(walker, walker.exclude_sources, root, exclude_shapes, excludes);
    let after = with_root(walker, root, include_shapes, exclude_shapes)->Ok_0;
    let plan = after.roots.last();
    assert forall|i: int| 0 <= i < plan.includes.len() implies reads_as(
        #[trigger] plan.includes[i],
        walker.include_sources[i],
        root,
        walker.syntax,
        walker.match_hidden,
    ) by {
        assert(traversal_for(
            walker.include_sources[i],
            root,
            walker.syntax,
            walker.match_hidden,
            include_shapes[i],
        ) == Ok::<Traversal, Refusal>(plan.includes[i]));
    }
    assert forall|i: int| 0 <= i < plan.excludes.len() implies reads_as(
        #[trigger] plan.excludes[i],
        walker.exclude_sources[i],
        root,
        walker.syntax,
        walker.match_hidden,
    ) by {
        assert(traversal_for(
            walker.exclude_sources[i],
            root,
            walker.syntax,
            walker.match_hidden,
            exclude_shapes[i],
        ) == Ok::<Traversal, Refusal>(plan.excludes[i]));
    }
    assert forall|r: int| 0 <= r < after.roots.len() implies all_read_as(
        (#[trigger] after.roots[r]).includes,
        after.include_sources,
        after.roots[r].path,
        after.syntax,
        after.match_hidden,
    ) && all_read_as(
        after.roots[r].excludes,
        after.exclude_sources,
        after.roots[r].path,
        after.syntax,
        after.match_hidden,
    ) by {
        if r < walker.roots.len() {
            assert(after.roots[r] == walker.roots[r]);
        }
    }
}

/// Adding several roots keeps a walk consistent.
pub proof fn law_several_roots_keep_a_walk_consistent(walker: WalkerModel, roots: Seq<NewRoot>)
    requires
        consistent(walker),
        with_roots(walker, roots) is Ok,
    ensures
        consistent(with_roots(walker, roots)->Ok_0),
    decreases roots.len(),
{
    if roots.len() > 0 {
        let first = roots[0];
        law_a_root_keeps_a_walk_consistent(
            walker,
            first.path@,
            first.include_shapes@,
            first.exclude_shapes@,
        );
        let next = with_root(
            walker,
            first.path@,
            first.include_shapes@,
            first.exclude_shapes@,
        )->Ok_0;
        law_several_roots_keep_a_walk_consistent(next, roots.drop_first());
    }
}

/// Changing `match_hidden` keeps a walk consistent: what was added before is
/// what adding it afterwards would give.
pub proof fn law_match_hidden_keeps_a_walk_consistent(walker: WalkerModel, match_hidden: bool)
    requires
        consistent(walker),
    ensures
        consistent(with_match_hidden(walker, match_hidden)),
{
    let after = with_match_hidden(walker, match_hidden);
    assert forall|r: int| 0 <= r < after.roots.len() implies all_read_as(
        (#[trigger] after.roots[r]).includes,
        after.include_sources,
        after.roots[r].path,
        after.syntax,
        after.match_hidden,
    ) && all_read_as(
        after.roots[r].excludes,
        after.exclude_sources,
        after.roots[r].path,
        after.syntax,
        after.match_hidden,
    ) by {
        let root = walker.roots[r];
        assert forall|i: int| 0 <= i < root.includes.len() implies reads_as(
            #[trigger] after.roots[r].includes[i],
            walker.include_sources[i],
            root.path,
            walker.syntax,
            match_hidden,
        ) by {
            assert(reads_as(
                root.includes[i],
                walker.include_sources[i],
                root.path,
                walker.syntax,
                walker.match_hidden,
            ));
            let shape = choose|shape: PathShape| #[trigger]
                traversal_for(
                    walker.include_sources[i],
                    root.path,
                    walker.syntax,
                    walker.match_hidden,
                    shape,
                ) == Ok::<Traversal, Refusal>(root.includes[i]);
            assert(traversal_for(
                walker.include_sources[i],
                root.path,
                walker.syntax,
                match_hidden,
                shape,
            ) == Ok::<Traversal, Refusal>(after.roots[r].includes[i]));
        }
        assert forall|i: int| 0 <= i < root.excludes.len() implies reads_as(
            #[trigger] after.roots[r].excludes[i],
            walker.exclude_sources[i],
            root.path,
            walker.syntax,
            match_hidden,
        ) by {
            assert(reads_as(
                root.excludes[i],
                walker.exclude_sources[i],
                root.path,
                walker.syntax,
                walker.match_hidden,
            ));
            let shape = choose|shape: PathShape| #[trigger]
                traversal_for(
                    walker.exclude_sources[i],
                    root.path,
                    walker.syntax,
                    walker.match_hidden,
                    shape,
                ) == Ok::<Traversal, Refusal>(root.excludes[i]);
            assert(traversal_for(
                walker.exclude_sources[i],
                root.path,
                walker.syntax,
                match_hidden,
                shape,
            ) == Ok::<Traversal, Refusal>(after.roots[r].excludes[i]));
        }
    }
}

proof fn lemma_same_roots(
    walker: WalkerModel,
    other: WalkerModel,
    pattern: Seq<u8>,
    shapes: Seq<PathShape>,
    more: Seq<PathShape>,
    count: int,
)
    requires
        0 <= count <= walker.roots.len() <= other.roots.len(),
        count <= shapes.len() <= more.len(),
        walker.syntax == other.syntax,
        walker.match_hidden == other.match_hidden,
        forall|r: int| 0 <= r < count ==> walker.roots[r].path == (#[trigger] other.roots[r]).path,
        forall|r: int| 0 <= r < count ==> shapes[r] == #[trigger] more[r],
    ensures
        for_every_root(walker, pattern, shapes, count) == for_every_root(
            other,
            pattern,
            more,
            count,
        ),
    decreases count,
{
    if count > 0 {
        lemma_same_roots(walker, other, pattern, shapes, more, count - 1);
        assert(walker.roots[count - 1].path == other.roots[count - 1].path);
        assert(shapes[count - 1] == more[count - 1]);
    }
}

proof fn lemma_same_sources(
    walker: WalkerModel,
    other: WalkerModel,
    sources: Seq<Seq<u8>>,
    longer: Seq<Seq<u8>>,
    root: Seq<u8>,
    shapes: Seq<PathShape>,
    more: Seq<PathShape>,
    count: int,
)
    requires
        0 <= count <= sources.len() <= longer.len(),
        count <= shapes.len() <= more.len(),
        walker.syntax == other.syntax,
        walker.match_hidden == other.match_hidden,
        forall|i: int| 0 <= i < count ==> sources[i] == #[trigger] longer[i],
        forall|i: int| 0 <= i < count ==> shapes[i] == #[trigger] more[i],
    ensures
        every_for_root(walker, sources, root, shapes, count) == every_for_root(
            other,
            longer,
            root,
            more,
            count,
        ),
    decreases count,
{
    if count > 0 {
        lemma_same_sources(walker, other, sources, longer, root, shapes, more, count - 1);
        assert(sources[count - 1] == longer[count - 1]);
        assert(shapes[count - 1] == more[count - 1]);
    }
}

/// Builder order does not matter: adding a root first and an include second
/// gives the walk, or the error, that the other order gives.
///
/// Where both a root and an include would be refused on their own, the one that
/// is added first is. Where a root is refused for an exclude, and the include
/// there too, the include comes first.
pub proof fn law_roots_and_includes_commute(
    walker: WalkerModel,
    pattern: Seq<u8>,
    shapes: Seq<PathShape>,
    root: Seq<u8>,
    include_shapes: Seq<PathShape>,
    exclude_shapes: Seq<PathShape>,
    shape: PathShape,
)
    requires
        shapes.len() == walker.roots.len(),
        include_shapes.len() == walker.include_sources.len(),
        exclude_shapes.len() == walker.exclude_sources.len(),
    ensures
        ({
            let here = traversal_for(pattern, root, walker.syntax, walker.match_hidden, shape);
            match (
                with_include(walker, pattern, shapes),
                with_root(walker, root, include_shapes, exclude_shapes),
            ) {
                (Ok(included), Ok(rooted)) => with_root(
                    included,
                    root,
                    include_shapes.push(shape),
                    exclude_shapes,
                ) == with_include(rooted, pattern, shapes.push(shape)),
                (Err(refusal), Ok(rooted)) => with_include(rooted, pattern, shapes.push(shape))
                    == Err::<WalkerModel, Refusal>(refusal),
                (Ok(included), Err(refusal)) => {
                    let other = with_root(
                        included,
                        root,
                        include_shapes.push(shape),
                        exclude_shapes,
                    );
                    &&& other is Err
                    &&& here is Ok ==> other == Err::<WalkerModel, Refusal>(refusal)
                },
                (Err(_), Err(_)) => true,
            }
        }),
{
    let n = walker.roots.len() as int;
    let m = walker.include_sources.len() as int;
    let k = walker.exclude_sources.len() as int;
    if let Ok(rooted) = with_root(walker, root, include_shapes, exclude_shapes) {
        lemma_same_roots(walker, rooted, pattern, shapes, shapes.push(shape), n);
        if with_include(walker, pattern, shapes) is Err {
            lemma_refusal_stays(rooted, pattern, shapes.push(shape), n, n + 1);
        }
    }
    if let Ok(included) = with_include(walker, pattern, shapes) {
        lemma_for_every_root(walker, pattern, shapes, n);
        lemma_same_sources(
            walker,
            included,
            walker.include_sources,
            included.include_sources,
            root,
            include_shapes,
            include_shapes.push(shape),
            m,
        );
        lemma_same_sources(
            walker,
            included,
            walker.exclude_sources,
            included.exclude_sources,
            root,
            exclude_shapes,
            exclude_shapes,
            k,
        );
        if every_for_root(walker, walker.include_sources, root, include_shapes, m) is Err {
            lemma_root_refusal_stays(
                included,
                included.include_sources,
                root,
                include_shapes.push(shape),
                m,
                m + 1,
            );
        }
        if let Ok(rooted) = with_root(walker, root, include_shapes, exclude_shapes) {
            if traversal_for(pattern, root, walker.syntax, walker.match_hidden, shape) is Ok {
                let left = with_root(
                    included,
                    root,
                    include_shapes.push(shape),
                    exclude_shapes,
                )->Ok_0;
                let right = with_include(rooted, pattern, shapes.push(shape))->Ok_0;
                assert(left.roots =~= right.roots);
                assert(left.include_sources =~= right.include_sources);
            }
        }
    }
}

/// The same holds of excludes, and there the error is always the same.
pub proof fn law_roots_and_excludes_commute(
    walker: WalkerModel,
    pattern: Seq<u8>,
    shapes: Seq<PathShape>,
    root: Seq<u8>,
    include_shapes: Seq<PathShape>,
    exclude_shapes: Seq<PathShape>,
    shape: PathShape,
)
    requires
        shapes.len() == walker.roots.len(),
        include_shapes.len() == walker.include_sources.len(),
        exclude_shapes.len() == walker.exclude_sources.len(),
    ensures
        match (
            with_exclude(walker, pattern, shapes),
            with_root(walker, root, include_shapes, exclude_shapes),
        ) {
            (Ok(excluded), Ok(rooted)) => with_root(
                excluded,
                root,
                include_shapes,
                exclude_shapes.push(shape),
            ) == with_exclude(rooted, pattern, shapes.push(shape)),
            (Err(refusal), Ok(rooted)) => with_exclude(rooted, pattern, shapes.push(shape))
                == Err::<WalkerModel, Refusal>(refusal),
            (Ok(excluded), Err(refusal)) => with_root(
                excluded,
                root,
                include_shapes,
                exclude_shapes.push(shape),
            ) == Err::<WalkerModel, Refusal>(refusal),
            (Err(_), Err(_)) => true,
        },
{
    let n = walker.roots.len() as int;
    let m = walker.include_sources.len() as int;
    let k = walker.exclude_sources.len() as int;
    if let Ok(rooted) = with_root(walker, root, include_shapes, exclude_shapes) {
        lemma_same_roots(walker, rooted, pattern, shapes, shapes.push(shape), n);
        if with_exclude(walker, pattern, shapes) is Err {
            lemma_refusal_stays(rooted, pattern, shapes.push(shape), n, n + 1);
        }
    }
    if let Ok(excluded) = with_exclude(walker, pattern, shapes) {
        lemma_for_every_root(walker, pattern, shapes, n);
        lemma_same_sources(
            walker,
            excluded,
            walker.exclude_sources,
            excluded.exclude_sources,
            root,
            exclude_shapes,
            exclude_shapes.push(shape),
            k,
        );
        lemma_same_sources(
            walker,
            excluded,
            walker.include_sources,
            excluded.include_sources,
            root,
            include_shapes,
            include_shapes,
            m,
        );
        if every_for_root(walker, walker.exclude_sources, root, exclude_shapes, k) is Err {
            lemma_root_refusal_stays(
                excluded,
                excluded.exclude_sources,
                root,
                exclude_shapes.push(shape),
                k,
                k + 1,
            );
        }
        if let Ok(rooted) = with_root(walker, root, include_shapes, exclude_shapes) {
            if traversal_for(pattern, root, walker.syntax, walker.match_hidden, shape) is Ok {
                let left = with_root(
                    excluded,
                    root,
                    include_shapes,
                    exclude_shapes.push(shape),
                )->Ok_0;
                let right = with_exclude(rooted, pattern, shapes.push(shape))->Ok_0;
                assert(left.roots =~= right.roots);
                assert(left.exclude_sources =~= right.exclude_sources);
            }
        }
    }
}

proof fn lemma_rehidden_for_every_root(
    walker: WalkerModel,
    match_hidden: bool,
    pattern: Seq<u8>,
    shapes: Seq<PathShape>,
    count: int,
)
    requires
        0 <= count <= walker.roots.len(),
    ensures
        ({
            let other = with_match_hidden(walker, match_hidden);
            match for_every_root(walker, pattern, shapes, count) {
                Ok(compiled) => for_every_root(other, pattern, shapes, count) == Ok::<
                    Seq<Traversal>,
                    Refusal,
                >(rehidden(compiled, match_hidden)) && compiled.len() == count,
                Err(refusal) => for_every_root(other, pattern, shapes, count) == Err::<
                    Seq<Traversal>,
                    Refusal,
                >(refusal),
            }
        }),
    decreases count,
{
    let other = with_match_hidden(walker, match_hidden);
    if count > 0 {
        lemma_rehidden_for_every_root(walker, match_hidden, pattern, shapes, count - 1);
        assert(other.roots[count - 1].path == walker.roots[count - 1].path);
        if let Ok(earlier) = for_every_root(walker, pattern, shapes, count - 1) {
            if let Ok(one) = traversal_for(
                pattern,
                walker.roots[count - 1].path,
                walker.syntax,
                walker.match_hidden,
                shapes[count - 1],
            ) {
                assert(rehidden(earlier.push(one), match_hidden) =~= rehidden(
                    earlier,
                    match_hidden,
                ).push(Traversal { match_hidden, ..one }));
            }
        }
    } else {
        assert(rehidden(Seq::empty(), match_hidden) =~= Seq::<Traversal>::empty());
    }
}

/// An include added before `match_hidden` is chosen reads as one added after.
pub proof fn law_match_hidden_and_includes_commute(
    walker: WalkerModel,
    match_hidden: bool,
    pattern: Seq<u8>,
    shapes: Seq<PathShape>,
)
    ensures
        with_include(with_match_hidden(walker, match_hidden), pattern, shapes) == (
        match with_include(walker, pattern, shapes) {
            Ok(included) => Ok::<WalkerModel, Refusal>(with_match_hidden(included, match_hidden)),
            Err(refusal) => Err::<WalkerModel, Refusal>(refusal),
        }),
{
    let count = walker.roots.len() as int;
    lemma_rehidden_for_every_root(walker, match_hidden, pattern, shapes, count);
    if let Ok(compiled) = for_every_root(walker, pattern, shapes, count) {
        let left = with_include(with_match_hidden(walker, match_hidden), pattern, shapes)->Ok_0;
        let right = with_match_hidden(with_include(walker, pattern, shapes)->Ok_0, match_hidden);
        assert forall|r: int| 0 <= r < count implies left.roots[r] == right.roots[r] by {
            assert(left.roots[r].includes =~= right.roots[r].includes);
        }
        assert(left.roots =~= right.roots);
    }
}

/// The same holds of excludes.
pub proof fn law_match_hidden_and_excludes_commute(
    walker: WalkerModel,
    match_hidden: bool,
    pattern: Seq<u8>,
    shapes: Seq<PathShape>,
)
    ensures
        with_exclude(with_match_hidden(walker, match_hidden), pattern, shapes) == (
        match with_exclude(walker, pattern, shapes) {
            Ok(excluded) => Ok::<WalkerModel, Refusal>(with_match_hidden(excluded, match_hidden)),
            Err(refusal) => Err::<WalkerModel, Refusal>(refusal),
        }),
{
    let count = walker.roots.len() as int;
    lemma_rehidden_for_every_root(walker, match_hidden, pattern, shapes, count);
    if let Ok(compiled) = for_every_root(walker, pattern, shapes, count) {
        let left = with_exclude(with_match_hidden(walker, match_hidden), pattern, shapes)->Ok_0;
        let right = with_match_hidden(with_exclude(walker, pattern, shapes)->Ok_0, match_hidden);
        assert forall|r: int| 0 <= r < count implies left.roots[r] == right.roots[r] by {
            assert(left.roots[r].excludes =~= right.roots[r].excludes);
        }
        assert(left.roots =~= right.roots);
    }
}

/// The worker budget lies between one and the ceiling, and a number in between
/// is kept.
pub proof fn law_the_worker_budget_is_bounded_at_both_ends(threads: int)
    ensures
        1 <= worker_budget(threads) <= MAX_WORKERS,
        1 <= threads <= MAX_WORKERS ==> worker_budget(threads) == threads,
{
}

} // verus!
