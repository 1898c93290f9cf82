use ferralk::failure::{Failure, FailureKind};
use ferralk::git_config::GitConfig;
use ferralk::gitignore::{
    ignored_in_tree_read_error, present_ignore_files, read_bounded, read_repository_config,
    read_rules, DirectoryReads, GitIgnoreAdaptation, IgnoreRead, IgnoreReadError, IgnoreScope,
    Place, RepositoryReads, MAX_IGNORE_FILE_BYTES, MAX_IGNORE_RULES, TOO_MANY_BYTES,
    TOO_MANY_RULES,
};
use ferralk::listing::Listing;
use ferralk::literal::Syntax;
use ferralk::unicode::normalize_candidate;

const PLAIN: GitIgnoreAdaptation =
    GitIgnoreAdaptation { case_insensitive: false, precompose_unicode: false };

fn read(path: &str, contents: &[u8]) -> IgnoreRead {
    IgnoreRead { path: path.as_bytes().to_vec(), outcome: Ok(contents.to_vec()) }
}

fn failed(path: &str, kind: FailureKind) -> IgnoreRead {
    IgnoreRead { path: path.as_bytes().to_vec(), outcome: Err(Failure::new(kind, "injected")) }
}

fn reads(directory: &str, contents: &[u8]) -> DirectoryReads {
    DirectoryReads {
        directory: directory.as_bytes().to_vec(),
        reads: vec![read(&format!("{directory}/.gitignore"), contents)],
    }
}

fn reported(errors: Vec<IgnoreReadError>) -> Vec<(String, FailureKind, String)> {
    errors
        .into_iter()
        .map(|error| {
            let (path, source) = error.into_parts();
            (String::from_utf8(path).expect("a path in text"), source.kind(), source.message)
        })
        .collect()
}

/// A scope at `/repo` with one set of rules per directory, outermost first.
fn scope(directories: &[(&str, &[u8])]) -> IgnoreScope {
    let repository = RepositoryReads {
        root: b"/repo".to_vec(),
        exclude: failed("/repo/.git/info/exclude", FailureKind::NotFound),
        ancestors: Vec::new(),
    };
    let (mut scope, errors) = IgnoreScope::for_root(
        true,
        b"/repo",
        b"/repo".to_vec(),
        PLAIN,
        Some(repository),
        Syntax::Posix,
    );
    assert!(errors.is_empty());
    for (directory, contents) in directories {
        let (entered, errors) = scope.enter(true, reads(directory, contents), Syntax::Posix);
        assert!(errors.is_empty());
        scope = entered;
    }
    scope
}

#[test]
fn the_deepest_opinion_decides_concretely() {
    let scope = scope(&[("/repo", b"*.log\n"), ("/repo/sub", b"!kept.log\n")]);
    assert!(scope.is_ignored(b"/repo/sub/other.log", false));
    assert!(!scope.is_ignored(b"/repo/sub/kept.log", false));
    assert!(!scope.is_ignored(b"/repo/sub/main.rs", false));
}

#[test]
fn a_directory_without_rules_changes_nothing() {
    let with = scope(&[("/repo", b"*.log\n"), ("/repo/sub", b"# nothing here\n\n")]);
    let without = scope(&[("/repo", b"*.log\n")]);
    for path in ["/repo/sub/a.log", "/repo/sub/a.rs"] {
        assert_eq!(
            with.is_ignored(path.as_bytes(), false),
            without.is_ignored(path.as_bytes(), false)
        );
    }
}

#[test]
fn a_root_inherits_excludes_and_ancestors_in_order() {
    let repository = RepositoryReads {
        root: b"/repo".to_vec(),
        exclude: read("/repo/.git/info/exclude", b"*.tmp\n*.log\n"),
        ancestors: vec![reads("/repo", b"!keep.tmp\n"), reads("/repo/a", b"/b/own.txt\n")],
    };
    let (scope, errors) = IgnoreScope::for_root(
        true,
        b"/repo/a/b",
        b"/repo/a/b".to_vec(),
        PLAIN,
        Some(repository),
        Syntax::Posix,
    );
    assert!(errors.is_empty());
    assert!(scope.is_ignored(b"/repo/a/b/other.tmp", false));
    assert!(!scope.is_ignored(b"/repo/a/b/keep.tmp", false));
    assert!(scope.is_ignored(b"/repo/a/b/own.txt", false));
    assert!(!scope.is_ignored(b"/repo/a/b/c/own.txt", false));
}

#[test]
fn a_scope_nobody_asked_for_ignores_nothing() {
    let repository = RepositoryReads {
        root: b"/repo".to_vec(),
        exclude: read("/repo/.git/info/exclude", b"*\n"),
        ancestors: Vec::new(),
    };
    let (scope, errors) = IgnoreScope::for_root(
        false,
        b"/repo",
        b"/repo".to_vec(),
        PLAIN,
        Some(repository),
        Syntax::Posix,
    );
    assert!(errors.is_empty());
    assert!(!scope.is_ignored(b"/repo/any", false));
    let (scope, errors) = scope.enter(false, reads("/repo", b"*\n"), Syntax::Posix);
    assert!(errors.is_empty());
    assert!(!scope.is_ignored(b"/repo/any", false));
}

#[test]
fn a_root_is_judged_where_it_lies() {
    let inherited = || RepositoryReads {
        root: b"/repo".to_vec(),
        exclude: failed("/repo/.git/info/exclude", FailureKind::NotFound),
        ancestors: vec![reads("/repo", b"/src/secret.txt\n")],
    };
    for (root, entry) in [
        ("/repo/src", "/repo/src/secret.txt"),
        ("/repo/./src", "/repo/./src/secret.txt"),
        ("src/", "src/secret.txt"),
        (".", "./secret.txt"),
        ("", "secret.txt"),
    ] {
        let (scope, _) = IgnoreScope::for_root(
            true,
            root.as_bytes(),
            b"/repo/src".to_vec(),
            PLAIN,
            Some(inherited()),
            Syntax::Posix,
        );
        assert!(scope.is_ignored(entry.as_bytes(), false), "{root:?}");
        let own = DirectoryReads {
            directory: root.as_bytes().to_vec(),
            reads: vec![read(".gitignore", b"!/secret.txt\n")],
        };
        let (scope, _) = scope.enter(true, own, Syntax::Posix);
        assert!(!scope.is_ignored(entry.as_bytes(), false), "{root:?} overrides");
    }
}

#[test]
fn a_link_in_the_tree_is_no_file_and_other_failures_are_reported() {
    let kinds = |place: Place| {
        let attempts = vec![
            failed("one", FailureKind::NotFound),
            failed("two", FailureKind::FilesystemLoop),
            failed("three", FailureKind::InvalidInput),
            failed("four", FailureKind::PermissionDenied),
        ];
        let (rules, errors) = read_rules(b"/repo", attempts, PLAIN, place);
        assert!(rules.is_empty());
        reported(errors).into_iter().map(|(path, _, _)| path).collect::<Vec<_>>()
    };
    assert_eq!(kinds(Place::Tree(Syntax::Posix)), vec!["three", "four"]);
    assert_eq!(kinds(Place::Tree(Syntax::Windows)), vec!["two", "four"]);
    assert_eq!(kinds(Place::Repository), vec!["two", "three", "four"]);
    assert!(ignored_in_tree_read_error(
        &Failure::new(FailureKind::FilesystemLoop, "injected"),
        Syntax::Posix
    ));
    assert!(!ignored_in_tree_read_error(
        &Failure::new(FailureKind::FilesystemLoop, "injected"),
        Syntax::Windows
    ));
}

#[test]
fn a_file_over_a_limit_is_reported_and_contributes_nothing() {
    let attempts = vec![
        read("/repo/.gitignore", &vec![b'\n'; MAX_IGNORE_RULES + 1]),
        read("/repo/.ignore", b"*.log\n"),
    ];
    let (rules, errors) = read_rules(b"/repo", attempts, PLAIN, Place::Tree(Syntax::Posix));
    assert_eq!(
        reported(errors),
        vec![(
            "/repo/.gitignore".to_owned(),
            FailureKind::InvalidData,
            TOO_MANY_RULES.to_owned()
        )]
    );
    assert_eq!(rules.matched(b"/repo/a.log", false), Some(true));

    let at_limit = vec![b'#'; MAX_IGNORE_FILE_BYTES];
    assert_eq!(read_bounded(at_limit.clone()).expect("within the limit"), at_limit);
    let over = read_bounded(vec![b'#'; MAX_IGNORE_FILE_BYTES + 1]).expect_err("over the limit");
    assert_eq!((over.kind(), over.message.as_str()), (FailureKind::InvalidData, TOO_MANY_BYTES));
}

#[test]
fn a_later_file_of_a_directory_wins() {
    let attempts = vec![read("/repo/.gitignore", b"*.log\n"), read("/repo/.ignore", b"!a.log\n")];
    let (rules, errors) = read_rules(b"/repo", attempts, PLAIN, Place::Tree(Syntax::Posix));
    assert!(errors.is_empty());
    assert_eq!(rules.matched(b"/repo/a.log", false), Some(false));
    assert_eq!(rules.matched(b"/repo/b.log", false), Some(true));
    assert_eq!(rules.matched(b"/repo/b.txt", false), None);
}

#[test]
fn ignore_files_are_recognized_in_any_case_and_in_order() {
    let mut listing = Listing::default();
    listing.push(b"src", true, false);
    assert!(present_ignore_files(&listing).is_empty());
    listing.push(b".IGNORE", false, false);
    assert_eq!(present_ignore_files(&listing), vec![".ignore"]);
    listing.push(b".GitIgnore", false, false);
    assert_eq!(present_ignore_files(&listing), vec![".gitignore", ".ignore"]);
    assert!(!listing.contains(".gitignore"));
    assert!(listing.contains(".GitIgnore"));
}

#[test]
fn the_caller_overrides_the_repository_and_the_platform_decides() {
    let mut config = GitConfig::default();
    assert_eq!(GitIgnoreAdaptation::effective(None, None, config, true), PLAIN);
    config.ignore_case = Some(true);
    config.precompose_unicode = Some(true);
    let both = GitIgnoreAdaptation { case_insensitive: true, precompose_unicode: true };
    assert_eq!(GitIgnoreAdaptation::effective(None, None, config, true), both);
    assert_eq!(GitIgnoreAdaptation::effective(Some(false), Some(false), config, true), PLAIN);
    let elsewhere = GitIgnoreAdaptation::effective(None, Some(true), config, false);
    assert!(elsewhere.case_insensitive && !elsewhere.precompose_unicode);
}

#[test]
fn the_worktree_config_counts_only_where_it_is_asked_for() {
    let common = b"[core]\nignorecase = true\n".as_slice();
    let asking = b"[core]\nignorecase = true\n[extensions]\nworktreeconfig = true\n".as_slice();
    let worktree = b"[core]\nignorecase = false\n".as_slice();
    let case = |common, worktree| read_repository_config(common, worktree).ignore_case;
    assert_eq!(case(Some(common), Some(worktree)), Some(true));
    assert_eq!(case(Some(asking), Some(worktree)), Some(false));
    assert_eq!(case(Some(asking), None), Some(true));
    assert_eq!(case(None, Some(worktree)), None);
}

#[test]
fn valid_components_are_composed_and_others_kept() {
    assert_eq!(
        normalize_candidate("cafe\u{301}/menu.txt".as_bytes()),
        "caf\u{e9}/menu.txt".as_bytes()
    );
    let mut mixed = b"\xff/".to_vec();
    mixed.extend_from_slice("e\u{301}".as_bytes());
    let mut composed = b"\xff/".to_vec();
    composed.extend_from_slice("\u{e9}".as_bytes());
    assert_eq!(normalize_candidate(&mixed), composed);
    assert_eq!(normalize_candidate(b""), b"");
}

#[test]
fn composing_rules_match_decomposed_names() {
    let adaptation = GitIgnoreAdaptation { case_insensitive: false, precompose_unicode: true };
    let rule = "caf\u{e9}.txt\n".as_bytes();
    let name = "/repo/cafe\u{301}.txt".as_bytes();
    let attempts = || vec![read("/repo/.gitignore", rule)];
    let (composing, _) = read_rules(b"/repo", attempts(), adaptation, Place::Repository);
    assert_eq!(composing.matched(name, false), Some(true));
    let (plain, _) = read_rules(b"/repo", attempts(), PLAIN, Place::Repository);
    assert_eq!(plain.matched(name, false), None);
}

#[test]
fn a_literal_inside_a_rule_gates_it() {
    let attempts = vec![read("/repo/.gitignore", b"a*needle*z\n")];
    let (rules, _) = read_rules(b"/repo", attempts, PLAIN, Place::Repository);
    assert_eq!(rules.matched(b"/repo/a-needle-z", false), Some(true));
    assert_eq!(rules.matched(b"/repo/a-needl-z", false), None);
    assert_eq!(rules.matched(b"/repo/az", false), None);
    assert_eq!(rules.matched(b"/repo/aneedlez", false), Some(true));
}
