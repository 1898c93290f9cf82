use ferralk::literal::{
    final_extension, first_metacharacter, has_closing_brace, has_closing_parenthesis,
    literal_extension, literal_pattern_root, prefilter_of_every_alternative,
    shares_a_line_of_descent, Syntax,
};
use ferralk::options::WildcardMode;
use ferralk::pattern::{
    compile_for_root, corpus_rewrite_absolute_pattern, pattern_without_directory_marker, reject_unwalkable_relative_pattern,
    rewrite_pattern_for_root, spelling_for_root,
    walker_pattern_for_root, PathShape, TraversalPattern, WalkerPathViability, ENDS_IN_DOT,
    HAS_DOT_COMPONENT, NAMES_THE_WALK_ROOT, UNRESOLVED_RELATIVE_PARENT,
};
use ferralk::walker::{Host, NewRoot, Walker};

const SCOPED: WildcardMode = WildcardMode::ComponentScoped;
const CROSSING: WildcardMode = WildcardMode::SeparatorCrossing;

const VIABLE: PathShape = PathShape {
    viability: WalkerPathViability::Viable,
    problem: None,
    reaches_hidden: false,
};

fn compiled(source: &str) -> TraversalPattern {
    TraversalPattern::compile(source.as_bytes(), false, Syntax::Posix, false).expect("compiles")
}

fn for_root(pattern: &str, root: &str) -> TraversalPattern {
    compile_for_root(pattern.as_bytes(), root.as_bytes(), Syntax::Posix, false, VIABLE)
        .expect("compiles for the root")
}

#[test]
fn a_wildcard_stays_inside_its_component_unless_it_may_cross() {
    let pattern = compiled("*.ts");
    assert!(pattern.matches(b"main.ts", false, SCOPED));
    assert!(!pattern.matches(b"src/main.ts", false, SCOPED));
    assert!(pattern.matches(b"src/main.ts", false, CROSSING));
    assert!(!pattern.matches(b"main.rs", false, CROSSING));
}

#[test]
fn a_trailing_slash_selects_directories_only() {
    let pattern = compiled("./target/");
    assert!(pattern.matches(b"target", true, SCOPED));
    assert!(!pattern.matches(b"target", false, SCOPED));
    assert!(!pattern.covers_subtree(b"target", SCOPED));
    assert_eq!(pattern.source(), b"./target/");
    assert_eq!(pattern_without_directory_marker(b"target/"), b"target");
    assert_eq!(pattern_without_directory_marker(b"/"), b"/");
}

#[test]
fn a_whole_subtree_exclude_covers_its_root_under_the_walk_s_mode() {
    let pattern = compiled("*.tmp/**");
    assert!(pattern.covers_subtree(b"b.tmp", SCOPED));
    assert!(!pattern.covers_subtree(b"a/b.tmp", SCOPED));
    assert!(pattern.covers_subtree(b"a/b.tmp", CROSSING));
    assert!(!compiled("*.tmp/*").covers_subtree(b"b.tmp", SCOPED));
}

#[test]
fn braces_carry_their_prefilters() {
    let pattern = compiled("{src,lib}/**/*.{ts,tsx}");
    assert!(pattern.could_match_descendant(b"src/deep"));
    assert!(pattern.could_match_descendant(b"lib"));
    assert!(!pattern.could_match_descendant(b"node_modules"));
    assert!(pattern.matches_extension(b"src/a.tsx"));
    assert!(!pattern.matches_extension(b"src/a.rs"));
    assert!(pattern.matches(b"lib/deep/a.ts", false, SCOPED));
    assert!(!pattern.matches(b"bin/deep/a.ts", false, SCOPED));
}

#[test]
fn a_compile_error_points_into_the_caller_s_text() {
    let error = TraversalPattern::compile(b"src/[a", false, Syntax::Posix, false)
        .expect_err("an open class");
    assert!(error.offset() <= 6);
    let rebased = compile_for_root(b"/repo/[a", b"/repo", Syntax::Posix, false, VIABLE)
        .expect_err("an open class");
    let relative = compile_for_root(b"[a", b"/repo", Syntax::Posix, false, VIABLE)
        .expect_err("an open class");
    assert_eq!(rebased.offset(), relative.offset() + 6);
    assert_eq!(rebased.message(), relative.message());
    assert!(TraversalPattern::compile(b"[a]", true, Syntax::Posix, false).is_ok());
}

#[test]
fn a_pattern_about_another_tree_decides_nothing() {
    let outside = for_root("/other/**/*.ts", "/repo");
    for path in ["a.ts", "other/a.ts", "src"] {
        let path = path.as_bytes();
        assert!(!outside.matches(path, true, CROSSING));
        assert!(!outside.covers_subtree(path, CROSSING));
        assert!(!outside.could_match_descendant(path));
        assert!(!outside.could_match_hidden_descendant(path));
        assert!(!outside.matches_extension(path));
    }
    assert_eq!(spelling_for_root(b"/other/a", b"/repo", Syntax::Posix), None);
}

#[test]
fn an_absolute_pattern_is_its_relative_spelling() {
    let absolute = for_root("/repo/src/**/*.ts", "/repo");
    let relative = for_root("src/**/*.ts", "/repo");
    assert_eq!(absolute.source(), relative.source());
    for path in ["src/a.ts", "src/b/c.ts", "lib/a.ts", "src"] {
        let path = path.as_bytes();
        assert_eq!(absolute.matches(path, false, SCOPED), relative.matches(path, false, SCOPED));
        assert_eq!(absolute.could_match_descendant(path), relative.could_match_descendant(path));
    }
    assert_eq!(
        rewrite_pattern_for_root(b"/repo/src/*", b"/repo", Syntax::Posix).expect("rewrites"),
        Some(b"src/*".to_vec())
    );
    assert_eq!(
        spelling_for_root(b"/repo/src/", b"/repo", Syntax::Posix),
        Some(b"src".to_vec())
    );
}

#[test]
fn recompiling_changes_what_wildcards_cover_and_nothing_else() {
    let plain = compiled("src/**/*.ts");
    assert!(!plain.matches(b"src/.cache/a.ts", false, SCOPED));
    let source = plain.source().to_vec();
    let hidden = plain.recompile(true);
    assert_eq!(hidden.source(), source);
    assert!(hidden.matches(b"src/.cache/a.ts", false, SCOPED));
    assert!(hidden.could_match_descendant(b"src/.cache"));
    assert!(!hidden.could_match_descendant(b"lib"));
    assert!(!hidden.matches_extension(b"src/.cache/a.rs"));
    let back = hidden.recompile(false);
    assert!(!back.matches(b"src/.cache/a.ts", false, SCOPED));
    let outside = for_root("/other/**", "/repo").recompile(true);
    assert!(!outside.matches(b"a", false, CROSSING));
}

#[test]
fn a_copy_is_the_pattern_itself() {
    let pattern = compiled("{src,lib}/**/*.ts");
    let copy = pattern.clone();
    for path in ["src/a.ts", "lib/b/c.ts", "bin/a.ts", "src/a.rs"] {
        let path = path.as_bytes();
        assert_eq!(copy.matches(path, false, SCOPED), pattern.matches(path, false, SCOPED));
        assert_eq!(copy.could_match_descendant(path), pattern.could_match_descendant(path));
        assert_eq!(copy.matches_extension(path), pattern.matches_extension(path));
    }
    assert_eq!(copy.source(), pattern.source());
}

#[test]
fn each_unwalkable_shape_has_its_own_guidance() {
    assert!(reject_unwalkable_relative_pattern(WalkerPathViability::Viable, Some(3)).is_ok());
    for (viability, message) in [
        (WalkerPathViability::ParentComponent, UNRESOLVED_RELATIVE_PARENT),
        (WalkerPathViability::Root, NAMES_THE_WALK_ROOT),
        (WalkerPathViability::TrailingDot, ENDS_IN_DOT),
        (WalkerPathViability::DotComponent, HAS_DOT_COMPONENT),
    ] {
        let error =
            reject_unwalkable_relative_pattern(viability, Some(4)).expect_err("names no entry");
        assert_eq!((error.offset(), error.message()), (4, message));
        let unplaced = reject_unwalkable_relative_pattern(viability, None).expect_err("refused");
        assert_eq!(unplaced.offset(), 0);
        let shape = PathShape { viability, problem: Some(1), reaches_hidden: false };
        let rooted = walker_pattern_for_root(b"/repo/ab", b"/repo", Syntax::Posix, false, shape)
            .expect_err("names no entry");
        assert_eq!((rooted.offset(), rooted.message()), (7, message));
    }
}

#[test]
fn a_literal_ends_at_the_first_metacharacter() {
    assert_eq!(first_metacharacter(b"src/*.ts"), Some(4));
    assert_eq!(first_metacharacter(b"src/a{b"), None);
    assert_eq!(first_metacharacter(b"src/a{b}"), Some(5));
    assert_eq!(first_metacharacter(b"a@(b"), None);
    assert_eq!(first_metacharacter(b"a@(b)"), Some(1));
    assert_eq!(first_metacharacter(b"a\\*"), Some(1));
    assert!(has_closing_brace(b"{a,{b}}", 0));
    assert!(!has_closing_brace(b"{a\\}", 0));
    assert!(has_closing_parenthesis(b"(a(b))", 0));
    assert!(!has_closing_parenthesis(b"(a\\)", 0));
}

#[test]
fn a_prefilter_holds_for_every_alternative_or_not_at_all() {
    assert_eq!(literal_pattern_root(b"src/app/*.ts"), Some(b"src/app".to_vec()));
    assert_eq!(literal_pattern_root(b"src*"), None);
    assert_eq!(literal_pattern_root(b"a/src*"), Some(b"a".to_vec()));
    assert_eq!(literal_pattern_root(b"src/main.ts"), Some(b"src/main.ts".to_vec()));
    assert_eq!(literal_extension(b"**/*.ts", Syntax::Posix), Some(b"ts".to_vec()));
    assert_eq!(literal_extension(b"**/*.t?", Syntax::Posix), None);
    assert_eq!(literal_extension(b"**/*.", Syntax::Posix), None);
    assert_eq!(final_extension(b"a.b/c", Syntax::Posix), None);
    assert_eq!(final_extension(b"a/.x", Syntax::Posix), Some(b"x".as_slice()));
    assert_eq!(final_extension(b"a.b\\c", Syntax::Windows), None);
    assert!(shares_a_line_of_descent(b"src", b"src/app"));
    assert!(shares_a_line_of_descent(b"src/app", b"src"));
    assert!(!shares_a_line_of_descent(b"src", b"srcs"));
    let values = vec![Some(b"ts".to_vec()), Some(b"js".to_vec()), Some(b"ts".to_vec())];
    assert_eq!(
        prefilter_of_every_alternative(values),
        Some(vec![b"js".to_vec(), b"ts".to_vec()])
    );
    assert_eq!(prefilter_of_every_alternative(vec![Some(b"ts".to_vec()), None]), None);
    assert_eq!(prefilter_of_every_alternative(Vec::new()), None);
}

fn walker() -> Walker {
    Walker::new(b"/repo".to_vec(), Host { syntax: Syntax::Posix, parallelism: 4 })
}

fn another(path: &str, includes: usize, excludes: usize) -> NewRoot {
    NewRoot {
        path: path.as_bytes().to_vec(),
        include_shapes: vec![VIABLE; includes],
        exclude_shapes: vec![VIABLE; excludes],
    }
}

#[test]
fn several_roots_are_added_in_order_or_refused_at_the_first() {
    let selecting = || walker().including(b"/repo/src/**", &[VIABLE]).expect("compiles");
    let more = selecting()
        .add_roots(vec![another("/one", 1, 0), another("/two", 1, 0)])
        .expect("both read the pattern as about another tree");
    assert_eq!(more.roots(), vec![b"/repo".as_slice(), b"/one", b"/two"]);
    assert_eq!(more.root_count(), 3);
    assert!(more.plan(0).includes()[0].matches(b"src/a", false, SCOPED));
    assert!(!more.plan(1).includes()[0].matches(b"src/a", false, SCOPED));
    let refused = selecting()
        .add_roots(vec![another("/one", 1, 0), another("relative", 1, 0), another("..", 1, 0)])
        .expect_err("an absolute pattern needs an absolute root");
    let alone = compile_for_root(b"/repo/src/**", b"relative", Syntax::Posix, false, VIABLE)
        .expect_err("an absolute pattern needs an absolute root");
    assert_eq!(
        (refused.offset(), refused.message()),
        (alone.offset(), alone.message())
    );
}

#[test]
fn a_refused_pattern_leaves_the_walk_as_it_was() {
    let mut walker = walker();
    walker.try_include(b"src/**", &[VIABLE]).expect("compiles");
    assert!(walker.try_include(b"[a", &[VIABLE]).is_err());
    assert!(walker.try_exclude(b"/*/x", &[VIABLE]).is_err());
    assert!(walker.try_add_root(b"relative".to_vec(), &[VIABLE], &[]).is_ok());
    assert_eq!(walker.include_sources(), &vec![b"src/**".to_vec()]);
    assert!(walker.exclude_sources().is_empty());
    assert_eq!(walker.plan(0).includes().len(), 1);
    assert_eq!(walker.plan(1).includes().len(), 1);
}

#[test]
fn builder_order_does_not_matter() {
    let root_first = walker()
        .add_root(b"/other".to_vec(), &[], &[])
        .expect("a root")
        .including(b"src/**", &[VIABLE, VIABLE])
        .expect("an include")
        .exclude(b"**/*.tmp", &[VIABLE, VIABLE])
        .expect("an exclude")
        .match_hidden(true);
    let root_last = walker()
        .match_hidden(true)
        .exclude(b"**/*.tmp", &[VIABLE])
        .expect("an exclude")
        .including(b"src/**", &[VIABLE])
        .expect("an include")
        .add_root(b"/other".to_vec(), &[VIABLE], &[VIABLE])
        .expect("a root");
    for root in 0..2 {
        let (one, other) = (root_first.plan(root), root_last.plan(root));
        assert_eq!(one.path(), other.path());
        for path in ["src/.a", "src/b.tmp", "lib/.b.tmp"] {
            let path = path.as_bytes();
            assert_eq!(
                one.includes()[0].matches(path, false, SCOPED),
                other.includes()[0].matches(path, false, SCOPED)
            );
            assert_eq!(
                one.excludes()[0].matches(path, false, SCOPED),
                other.excludes()[0].matches(path, false, SCOPED)
            );
        }
    }
}

#[test]
fn a_cloned_walker_is_configured_alike_and_on_its_own() {
    let original = walker().including(b"src/**", &[VIABLE]).expect("compiles").threads(3);
    let mut copy = original.clone();
    assert_eq!(copy.worker_count(), 3);
    assert_eq!(copy.include_sources(), original.include_sources());
    copy.try_exclude(b"**/*.tmp", &[VIABLE]).expect("compiles");
    assert_eq!(copy.exclude_sources().len(), 1);
    assert!(original.exclude_sources().is_empty());
}

#[test]
fn an_absolute_pattern_is_rewritten_in_the_chosen_spelling() {
    let rewritten = |pattern: &[u8], root: &[u8], windows: bool| {
        corpus_rewrite_absolute_pattern(pattern, root, windows).expect("no refusal expected")
    };
    assert_eq!(
        rewritten(b"/repo/src/*.ts", b"/repo", false),
        Some(b"src/*.ts".to_vec())
    );
    assert_eq!(
        rewritten(b"C:/repo/src/*.ts", b"C:/repo", true),
        Some(b"src/*.ts".to_vec())
    );
    // Without drives there is nothing absolute about the same text.
    assert_eq!(
        rewritten(b"C:/repo/src/*.ts", b"/repo", false),
        Some(b"C:/repo/src/*.ts".to_vec())
    );
    assert_eq!(rewritten(b"/elsewhere/*.ts", b"/repo", false), None);
    assert!(corpus_rewrite_absolute_pattern(br"src\*.ts", b"C:/repo", true).is_err());
}
