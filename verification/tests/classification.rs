use ferralk::classify::{
    classify_entry, has_hidden_component, Answer, EmittedEntry, EntryAction, Question,
};
use ferralk::failure::{Failure, FailureKind};
use ferralk::gitignore::{
    DirectoryReads, GitIgnoreAdaptation, IgnoreRead, IgnoreScope,
};
use ferralk::listing::ListedEntry;
use ferralk::literal::Syntax;
use ferralk::options::{Metadata, WalkOptions};
use ferralk::pattern::{PathShape, WalkerPathViability};
use ferralk::walker::{Host, Walker};

const VIABLE: PathShape = PathShape {
    viability: WalkerPathViability::Viable,
    problem: None,
    reaches_hidden: false,
};

const FILE: (bool, bool) = (false, false);
const DIRECTORY: (bool, bool) = (true, false);
const LINK: (bool, bool) = (false, true);

fn walker() -> Walker {
    Walker::new(b"/repo".to_vec(), Host { syntax: Syntax::Posix, parallelism: 1 })
}

fn answer(is_dir: bool) -> Answer {
    Some(Ok(Metadata { is_dir, is_symlink: false, len: 5, device: 1, inode: 9, modified: None, mode: None }))
}

fn refused(kind: FailureKind) -> Answer {
    Some(Err(Failure::new(kind, "injected")))
}

fn classify(
    walker: &Walker,
    ignores: &IgnoreScope,
    relative: &str,
    kind: (bool, bool),
    target: &Answer,
    own: &Answer,
) -> EntryAction {
    let path = format!("/repo/{relative}");
    let name = relative.rsplit('/').next().expect("a name");
    let entry = ListedEntry::new(name.as_bytes().to_vec(), kind.0, kind.1);
    let depth = relative.matches('/').count();
    classify_entry(walker, 0, path.as_bytes(), &entry, ignores, depth, target, own)
}

fn plain(walker: &Walker, relative: &str, kind: (bool, bool)) -> EntryAction {
    classify(walker, &IgnoreScope::default(), relative, kind, &None, &None)
}

fn emitted(action: EntryAction) -> Option<EmittedEntry> {
    match action {
        EntryAction::Emit(entry) | EntryAction::DescendAndEmit(entry) => Some(entry),
        _ => None,
    }
}

fn descends(action: EntryAction) -> bool {
    matches!(
        action,
        EntryAction::Descend
            | EntryAction::DescendAndEmit(_)
            | EntryAction::Failed { descend: true, .. }
    )
}

fn ignoring(contents: &[u8]) -> IgnoreScope {
    let (scope, _) = IgnoreScope::for_root(
        true,
        b"/repo",
        b"/repo".to_vec(),
        GitIgnoreAdaptation::default(),
        None,
        Syntax::Posix,
    );
    let own = DirectoryReads {
        directory: b"/repo".to_vec(),
        reads: vec![IgnoreRead {
            path: b"/repo/.gitignore".to_vec(),
            outcome: Ok(contents.to_vec()),
        }],
    };
    scope.enter(true, own, Syntax::Posix).0
}

#[test]
fn an_entry_is_one_deeper_than_its_directory() {
    let action = plain(&walker(), "a/b/c.txt", FILE);
    assert_eq!(
        action,
        EntryAction::Emit(EmittedEntry {
            is_dir: false,
            is_symlink: false,
            depth: 3,
            metadata: None
        })
    );
    assert!(matches!(plain(&walker(), "a", DIRECTORY), EntryAction::DescendAndEmit(_)));
}

#[test]
fn only_what_is_emitted_is_asked_for_metadata() {
    let walker = walker()
        .including(b"**/*.rs", &[VIABLE])
        .expect("compiles")
        .options(WalkOptions::default().metadata(true));
    assert_eq!(plain(&walker, "a.txt", FILE), EntryAction::Skip);
    assert_eq!(plain(&walker, "src", DIRECTORY), EntryAction::Descend);
    assert_eq!(plain(&walker, "a.rs", FILE), EntryAction::Ask(Question::Own));
    let none = IgnoreScope::default();
    let answered = classify(&walker, &none, "a.rs", FILE, &None, &answer(false));
    assert_eq!(emitted(answered).expect("emitted").metadata.expect("metadata").len, 5);
}

#[test]
fn a_failed_answer_keeps_the_subtree() {
    let walker = walker().options(WalkOptions::default().metadata(true));
    let none = IgnoreScope::default();
    let failed =
        classify(&walker, &none, "a", DIRECTORY, &None, &refused(FailureKind::PermissionDenied));
    assert_eq!(failed, EntryAction::Failed { question: Question::Own, descend: true });
    let answered = classify(&walker, &none, "a", DIRECTORY, &None, &answer(true));
    assert_eq!(descends(failed), descends(answered));
}

#[test]
fn includes_and_excludes_decide_what_is_emitted() {
    let walker = walker()
        .including(b"**/*.rs", &[VIABLE])
        .expect("compiles")
        .exclude(b"gen/**", &[VIABLE])
        .expect("compiles");
    assert!(emitted(plain(&walker, "src/a.rs", FILE)).is_some());
    assert!(emitted(plain(&walker, "src/a.txt", FILE)).is_none());
    assert!(emitted(plain(&walker, "gen/a.rs", FILE)).is_none());
    assert!(emitted(plain(&walker, "src", DIRECTORY)).is_none());
}

#[test]
fn nothing_ignored_is_emitted_or_entered() {
    let walker = walker().respect_git_ignore(true);
    let scope = ignoring(b"target/\n*.log\n");
    for (relative, kind) in [("target", DIRECTORY), ("a.log", FILE), ("a.log", DIRECTORY)] {
        let action = classify(&walker, &scope, relative, kind, &None, &None);
        assert!(emitted(action).is_none() && !descends(action), "{relative}");
    }
    let kept = classify(&walker, &scope, "target", FILE, &None, &None);
    assert!(emitted(kept).is_some(), "a directory rule spares a file");
}

#[test]
fn the_depth_limit_keeps_its_boundary() {
    let walker = walker().options(WalkOptions::default().max_depth(2));
    assert!(matches!(plain(&walker, "a", DIRECTORY), EntryAction::DescendAndEmit(_)));
    assert!(matches!(plain(&walker, "a/b", DIRECTORY), EntryAction::Emit(_)));
    assert_eq!(plain(&walker, "a/b/c", FILE), EntryAction::Skip);
    let unlimited = walker.options(WalkOptions::default());
    assert!(matches!(plain(&unlimited, "a/b", DIRECTORY), EntryAction::DescendAndEmit(_)));
}

#[test]
fn skipped_hidden_entries_stay_out_whatever_selects_them() {
    let walker = walker()
        .including(b".cache/**", &[PathShape { reaches_hidden: true, ..VIABLE }])
        .expect("compiles")
        .options(WalkOptions::default().skip_hidden(true));
    assert_eq!(plain(&walker, ".cache/a", FILE), EntryAction::Skip);
    assert_eq!(plain(&walker, ".cache", DIRECTORY), EntryAction::Skip);
    assert!(has_hidden_component(b"a/.b", Syntax::Posix));
    assert!(!has_hidden_component(b"a/b.c", Syntax::Posix));
    assert!(!has_hidden_component(b"a\\.b", Syntax::Posix));
    assert!(has_hidden_component(b"a\\.b", Syntax::Windows));
}

#[test]
fn an_excluded_directory_is_opened_only_for_an_include() {
    let alone = walker().exclude(b"vendor", &[VIABLE]).expect("compiles");
    assert!(!descends(plain(&alone, "vendor", DIRECTORY)));
    let including = alone.including(b"vendor/keep/*.rs", &[VIABLE]).expect("compiles");
    assert_eq!(plain(&including, "vendor", DIRECTORY), EntryAction::Descend);
    let covered = including.exclude(b"vendor/**", &[VIABLE]).expect("compiles");
    assert!(!descends(plain(&covered, "vendor", DIRECTORY)));
}

#[test]
fn a_resolved_link_counts_as_what_it_points_at() {
    let none = IgnoreScope::default();
    let options = WalkOptions::default().resolve_symlink_kind(true);
    for (files_only, target, kept) in [
        (true, answer(false), true),
        (true, answer(true), false),
        (true, refused(FailureKind::NotFound), false),
        (false, answer(false), false),
        (false, answer(true), true),
        (false, refused(FailureKind::NotFound), false),
    ] {
        let options = if files_only {
            options.files_only(true)
        } else {
            options.directories_only(true)
        };
        let walker = walker().options(options);
        assert_eq!(
            classify(&walker, &none, "link", LINK, &None, &None),
            EntryAction::Ask(Question::Target)
        );
        let action = classify(&walker, &none, "link", LINK, &target, &None);
        assert_eq!(emitted(action).is_some(), kept);
        assert!(!descends(action));
    }
    let walker = walker().options(options.files_only(true));
    assert_eq!(
        classify(&walker, &none, "link", LINK, &refused(FailureKind::PermissionDenied), &None),
        EntryAction::Failed { question: Question::Target, descend: false }
    );
    assert!(emitted(plain(&walker, "file", FILE)).is_some(), "only links are asked about");
}

#[test]
fn an_answer_nobody_asked_for_changes_nothing() {
    let walker = walker().exclude(b"*.tmp", &[VIABLE]).expect("compiles");
    let none = IgnoreScope::default();
    for (relative, kind) in [("a", FILE), ("a.tmp", FILE), ("d", DIRECTORY), ("l", LINK)] {
        let unasked = plain(&walker, relative, kind);
        for target in [answer(true), refused(FailureKind::Other)] {
            for own in [answer(false), refused(FailureKind::Other)] {
                assert_eq!(classify(&walker, &none, relative, kind, &target, &own), unasked);
            }
        }
    }
}

#[test]
fn the_repository_s_own_directory_is_left_out_unless_kept() {
    let respecting = walker().respect_git_ignore(true);
    assert_eq!(plain(&respecting, ".git", DIRECTORY), EntryAction::Skip);
    assert_eq!(plain(&respecting, "sub/.git", FILE), EntryAction::Skip);
    assert!(descends(plain(&walker(), ".git", DIRECTORY)));
    let keeping = respecting.options(WalkOptions::default().keep_git_dir(true));
    assert!(descends(plain(&keeping, ".git", DIRECTORY)));
}

#[test]
fn a_root_reads_an_entry_as_it_would_alone() {
    let both = walker()
        .add_root(b"/other".to_vec(), &[], &[])
        .expect("a root")
        .including(b"/other/src/**", &[VIABLE, VIABLE])
        .expect("compiles");
    let alone = Walker::new(b"/other".to_vec(), Host { syntax: Syntax::Posix, parallelism: 1 })
        .including(b"/other/src/**", &[VIABLE])
        .expect("compiles");
    let none = IgnoreScope::default();
    for (path, depth) in [("/other/src", 0), ("/other/lib", 0), ("/other/src/a", 1)] {
        let name = path.rsplit('/').next().expect("a name").as_bytes().to_vec();
        let entry = ListedEntry::new(name, true, false);
        let among =
            classify_entry(&both, 1, path.as_bytes(), &entry, &none, depth, &None, &None);
        let single =
            classify_entry(&alone, 0, path.as_bytes(), &entry, &none, depth, &None, &None);
        assert_eq!(among, single, "{path}");
    }
}

#[test]
fn only_descendants_refuse_a_final_link_and_only_where_links_are_not_followed() {
    let host = Host { syntax: Syntax::Posix, parallelism: 1 };
    let plain = Walker::new(b"/repo".to_vec(), host);
    assert!(!plain.refuses_final_symlink(0));
    assert!(plain.refuses_final_symlink(1));
    let following = plain.options(WalkOptions::default().follow_symlinks(true));
    assert!(!following.refuses_final_symlink(0));
    assert!(!following.refuses_final_symlink(1));
}
