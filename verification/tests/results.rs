use std::sync::Arc;

use ferralk::failure::{Failure, FailureKind};
use ferralk::gitignore::{IgnoreReadError, IgnoreScope};
use ferralk::options::{
    CancellationToken, ErrorPolicy, Metadata, WalkEntry, WalkEntryKind, WalkError, WalkOptions,
    WalkResult, WildcardMode,
};
use ferralk::literal::Syntax;
use ferralk::paths::{basename, glob_bytes, push_name, sort_entries};
use ferralk::stream::{Identified, Turn, WalkStream};
use ferralk::walk::{
    child_directory_open, react, AncestorChain, CycleKey, DirectoryOpen, DirectoryTask, Reaction,
    WalkState,
};
use ferralk::walker::{Host, Walker};

fn entry(path: &str, depth: usize) -> WalkEntry {
    WalkEntry::new(
        path.as_bytes().to_vec(),
        Arc::new(b"root".to_vec()),
        false,
        false,
        depth,
        None,
    )
}

#[test]
fn every_switch_starts_off_and_is_set_alone() {
    let plain = WalkOptions::default();
    assert_eq!(plain.max_depth, None);
    let all = plain
        .follow_symlinks(true)
        .sort(true)
        .metadata(true)
        .directories_only(true)
        .files_only(true)
        .resolve_symlink_kind(true)
        .skip_hidden(true)
        .keep_git_dir(true)
        .max_depth(3);
    assert_eq!(
        all,
        WalkOptions {
            follow_symlinks: true,
            sort: true,
            metadata: true,
            directories_only: true,
            files_only: true,
            resolve_symlink_kind: true,
            skip_hidden: true,
            keep_git_dir: true,
            max_depth: Some(3),
        }
    );
    assert_eq!(plain.sort(true).sort(false), plain);
    assert_eq!(ErrorPolicy::default(), ErrorPolicy::Collect);
    assert_eq!(WildcardMode::default(), WildcardMode::ComponentScoped);
}

#[test]
fn an_entry_is_a_link_before_it_is_a_directory() {
    let metadata = Metadata { is_dir: true, is_symlink: false, len: 7, device: 1, inode: 2, modified: None, mode: None };
    let of = |is_dir, is_symlink| {
        WalkEntry::new(
            b"root/a".to_vec(),
            Arc::new(b"root".to_vec()),
            is_dir,
            is_symlink,
            1,
            Some(metadata),
        )
    };
    assert_eq!(of(true, true).kind(), WalkEntryKind::Symlink);
    assert_eq!(of(false, true).kind(), WalkEntryKind::Symlink);
    assert_eq!(of(true, false).kind(), WalkEntryKind::Directory);
    assert_eq!(of(false, false).kind(), WalkEntryKind::File);
    let copy = of(true, false).clone();
    assert_eq!(copy.path(), b"root/a");
    assert_eq!(copy.path_bytes(), b"root/a");
    assert_eq!(copy.root(), b"root");
    assert_eq!(copy.depth(), 1);
    assert_eq!(copy.metadata(), Some(metadata));
    assert!(copy.is_dir() && !copy.is_symlink());
    assert_eq!(copy.basename(), Some(b"a".as_slice()));
}

#[test]
fn a_path_has_a_last_name_unless_it_ends_in_its_root_or_a_parent() {
    assert_eq!(basename(b"/a/b", Syntax::Posix), Some(b"b".as_slice()));
    assert_eq!(basename(b"/a/b/.", Syntax::Posix), Some(b"b".as_slice()));
    assert_eq!(basename(b"/a/b//", Syntax::Posix), Some(b"b".as_slice()));
    assert_eq!(basename(b"/a/..", Syntax::Posix), None);
    assert_eq!(basename(b"/", Syntax::Posix), None);
    assert_eq!(basename(b"", Syntax::Posix), None);
}

#[test]
fn a_name_is_pushed_behind_one_separator() {
    assert_eq!(push_name(b"/a", b"b", Syntax::Posix), b"/a/b");
    assert_eq!(push_name(b"/a/", b"b", Syntax::Posix), b"/a/b");
    assert_eq!(push_name(b"", b"b", Syntax::Posix), b"b");
    assert_eq!(push_name(b"/", b"b", Syntax::Posix), b"/b");
    // A bare drive goes on from its own directory.
    assert_eq!(push_name(b"C:", b"b", Syntax::Windows), b"C:b");
    assert_eq!(push_name(b"C:/", b"b", Syntax::Windows), b"C:/b");
    assert_eq!(push_name(b"//h/s", b"b", Syntax::Windows), b"//h/s/b");
    assert_eq!(push_name(b"C:", b"b", Syntax::Posix), b"C:/b");
    assert_eq!(basename(b"C:", Syntax::Windows), None);
    assert_eq!(basename(b"C:b", Syntax::Windows), Some(b"b".as_slice()));
    assert_eq!(basename(b"//h/s", Syntax::Windows), None);
    assert_eq!(basename(b"C:", Syntax::Posix), Some(b"C:".as_slice()));
}

#[test]
fn sorting_goes_by_component_and_keeps_every_entry() {
    let unsorted = ["root/b", "root/a-b", "root/a/c", "root/a", "root/a", "root/A"];
    let entries = unsorted
        .iter()
        .enumerate()
        .map(|(depth, path)| entry(path, depth))
        .collect();
    let sorted = sort_entries(entries, Syntax::Posix)
        .iter()
        .map(|entry| (entry.path().to_vec(), entry.depth()))
        .collect::<Vec<_>>();
    let expected = [
        ("root/A", 5),
        ("root/a", 3),
        ("root/a", 4),
        ("root/a/c", 2),
        ("root/a-b", 1),
        ("root/b", 0),
    ]
    .map(|(path, depth)| (path.as_bytes().to_vec(), depth));
    assert_eq!(sorted, expected);
}

#[test]
fn a_result_hands_out_what_it_holds() {
    let error = WalkError::new("read_dir", b"root/x".to_vec(), Failure::new(FailureKind::NotFound, "gone"));
    assert_eq!((error.operation(), error.path()), ("read_dir", b"root/x".as_slice()));
    assert_eq!(error.source().kind(), FailureKind::NotFound);
    assert_eq!(error.source().message, "gone");
    let result = WalkResult::new(vec![entry("root/a", 1)], vec![error], true);
    assert_eq!(result.entries().len(), 1);
    assert_eq!(result.errors().len(), 1);
    assert!(result.was_cancelled());
    let (entries, errors) = result.into_parts();
    assert_eq!(entries[0].path(), b"root/a");
    assert_eq!(errors[0].operation(), "read_dir");
}

#[test]
fn clones_of_a_token_are_one_request() {
    let token = CancellationToken::default();
    let clone = token.clone();
    assert!(!clone.is_cancelled());
    token.cancel();
    assert!(clone.is_cancelled());
    assert!(!CancellationToken::default().is_cancelled());
}

#[test]
fn no_directory_is_entered_below_itself() {
    let root = AncestorChain::default();
    let one = root.enter(CycleKey::Inode(1, 10)).expect("a new directory");
    let two = one.enter(CycleKey::Inode(1, 20)).expect("another one");
    assert!(two.enter(CycleKey::Inode(1, 10)).is_none());
    assert!(two.enter(CycleKey::Inode(1, 20)).is_none());
    assert!(two.enter(CycleKey::Inode(2, 10)).is_some());
    assert!(one.enter(CycleKey::Inode(1, 20)).is_some(), "a sibling path is no cycle");
    let path = root.enter(CycleKey::Path(b"/a".to_vec())).expect("a new directory");
    assert!(path.enter(CycleKey::Path(b"/a".to_vec())).is_none());
    assert!(path.enter(CycleKey::Path(b"/b".to_vec())).is_some());
    assert!(path.enter(CycleKey::Inode(0, 0)).is_some());
}

#[test]
fn a_root_failure_is_never_dropped() {
    assert_eq!(react(ErrorPolicy::Abort, false), Reaction::Abort);
    assert_eq!(react(ErrorPolicy::Abort, true), Reaction::Abort);
    assert_eq!(react(ErrorPolicy::Skip, false), Reaction::Drop);
    assert_eq!(react(ErrorPolicy::Skip, true), Reaction::Keep);
    assert_eq!(react(ErrorPolicy::Collect, false), Reaction::Keep);
    assert_eq!(react(ErrorPolicy::Collect, true), Reaction::Keep);
}

#[test]
fn a_capability_is_kept_only_where_no_path_is_resolved() {
    assert!(matches!(child_directory_open(Some(7), true), DirectoryOpen::Relative(7)));
    assert!(matches!(child_directory_open(Some(7), false), DirectoryOpen::ByPath));
    assert!(matches!(child_directory_open::<u8>(None, true), DirectoryOpen::ByPath));
}

fn walker(policy: ErrorPolicy) -> Walker {
    let host = Host { syntax: Syntax::Posix, parallelism: 1 };
    Walker::new(b"x".to_vec(), host).error_policy(policy)
}

fn gone() -> Failure {
    Failure::new(FailureKind::NotFound, "gone")
}

#[test]
fn both_frontends_say_or_drop_a_failure_alike_and_a_stopped_stream_says_nothing() {
    for policy in [ErrorPolicy::Abort, ErrorPolicy::Skip, ErrorPolicy::Collect] {
        for is_root in [false, true] {
            let mut state: WalkState<()> = WalkState::new(Vec::new());
            let handled = state.handle_error(policy, "read_dir", b"x".to_vec(), gone(), is_root);
            let mut stream: WalkStream<()> = WalkStream::new(Vec::new());
            let said = stream.error(policy, "read_dir", b"x".to_vec(), gone(), is_root);
            let reaction = react(policy, is_root);
            assert_eq!(said.is_some(), reaction != Reaction::Drop);
            assert_eq!(handled.is_err(), reaction == Reaction::Abort);
            let task: DirectoryTask<()> =
                DirectoryTask::for_root(b"x".to_vec(), 0, IgnoreScope::default(), Vec::new());
            let mut stream: WalkStream<()> = WalkStream::new(vec![task]);
            let _ = stream.error(policy, "read_dir", b"x".to_vec(), gone(), is_root);
            let stopped = matches!(stream.turn(policy, false), Turn::End);
            assert_eq!(stopped, reaction == Reaction::Abort);
            if stopped {
                assert!(matches!(stream.turn(policy, false), Turn::End));
            }
        }
    }
}

#[test]
fn ignore_failures_are_said_in_order() {
    let errors = || {
        ["one", "two", "three"]
            .map(|path| IgnoreReadError::new(path.as_bytes().to_vec(), gone()))
            .into_iter()
            .collect::<Vec<_>>()
    };
    let mut stream: WalkStream<()> = WalkStream::new(Vec::new());
    let first = stream.queue_ignore_errors(ErrorPolicy::Collect, errors()).expect("the first");
    assert_eq!((first.operation(), first.path()), ("read_ignore", b"one".as_slice()));
    for expected in ["two", "three"] {
        match stream.turn(ErrorPolicy::Collect, false) {
            Turn::Yield(error) => assert_eq!(error.path(), expected.as_bytes()),
            other => panic!("expected a failure, not {other:?}"),
        }
    }
    assert!(matches!(stream.turn(ErrorPolicy::Collect, false), Turn::End));

    let mut skipping: WalkStream<()> = WalkStream::new(Vec::new());
    assert!(skipping.queue_ignore_errors(ErrorPolicy::Skip, errors()).is_none());
    let mut aborting: WalkStream<()> = WalkStream::new(Vec::new());
    let only = aborting.queue_ignore_errors(ErrorPolicy::Abort, errors()).expect("the first");
    assert_eq!(only.path(), b"one");
    assert!(matches!(aborting.turn(ErrorPolicy::Abort, false), Turn::End));
}

/// What a stream says after `first`, up to its end.
fn said(stream: &mut WalkStream<()>, policy: ErrorPolicy, first: Option<WalkError>) -> Vec<String> {
    let mut failures = first.into_iter().collect::<Vec<_>>();
    while let Turn::Yield(error) = stream.turn(policy, false) {
        failures.push(error);
    }
    failures
        .iter()
        .map(|error| format!("{} {}", error.operation(), String::from_utf8_lossy(error.path())))
        .collect()
}

#[test]
fn what_was_found_before_a_root_is_said_though_the_root_is_given_up() {
    let task = || {
        let errors = ["one", "two"]
            .map(|path| IgnoreReadError::new(path.as_bytes().to_vec(), gone()))
            .into_iter()
            .collect();
        DirectoryTask::<()>::for_root(b"x".to_vec(), 0, IgnoreScope::default(), errors)
    };
    for (policy, before) in [
        (ErrorPolicy::Collect, vec!["read_ignore one", "read_ignore two"]),
        (ErrorPolicy::Skip, vec![]),
    ] {
        let walker = walker(policy);
        let mut unread: WalkStream<()> = WalkStream::new(Vec::new());
        let first = unread.fail_directory(&walker, task(), gone());
        let mut expected = before.clone();
        expected.push("read_dir x");
        assert_eq!(said(&mut unread, policy, first), expected);

        let mut unknown: WalkStream<()> = WalkStream::new(Vec::new());
        let first = match unknown.identify(&walker, task(), Err(gone())) {
            Identified::Failed(first) => first,
            other => panic!("expected a failure, not {other:?}"),
        };
        let mut expected = before;
        expected.push("metadata x");
        assert_eq!(said(&mut unknown, policy, first), expected);
    }

    let policy = ErrorPolicy::Abort;
    let walker = walker(policy);
    let mut stream: WalkStream<()> = WalkStream::new(Vec::new());
    let first = stream.fail_directory(&walker, task(), gone());
    assert_eq!(said(&mut stream, policy, first), ["read_ignore one"]);
}

#[test]
fn a_cancelled_stream_stays_cancelled() {
    let task = DirectoryTask::for_root(b"x".to_vec(), 0, IgnoreScope::default(), Vec::new());
    let mut stream: WalkStream<()> = WalkStream::new(vec![task]);
    assert!(!stream.was_cancelled());
    assert!(matches!(stream.turn(ErrorPolicy::Collect, true), Turn::End));
    assert!(stream.was_cancelled());
    assert!(matches!(stream.turn(ErrorPolicy::Collect, false), Turn::End));
}

#[test]
fn patterns_read_every_separator_as_a_slash() {
    assert_eq!(glob_bytes(br"a\b/c", Syntax::Windows), b"a/b/c".to_vec());
    // Elsewhere a backslash is an ordinary byte of a name.
    assert_eq!(glob_bytes(br"a\b/c", Syntax::Posix), br"a\b/c".to_vec());
    assert_eq!(glob_bytes(b"", Syntax::Windows), Vec::<u8>::new());
}

#[test]
fn drives_and_shares_sort_before_everything_else_of_a_path() {
    let order = |paths: &[&str]| -> Vec<String> {
        let entries = paths.iter().map(|path| entry(path, 1)).collect();
        sort_entries(entries, Syntax::Windows)
            .iter()
            .map(|entry| String::from_utf8(entry.path().to_vec()).expect("ASCII"))
            .collect()
    };
    assert_eq!(order(&["d:/a", "C:/b", "c:/a"]), ["c:/a", "C:/b", "d:/a"]);
    assert_eq!(
        order(&["C:/a", "a", "//h/s/a", "//?/C:/a", "//?/UNC/h/s/a", "/a"]),
        ["//?/UNC/h/s/a", "//?/C:/a", "//h/s/a", "C:/a", "/a", "a"]
    );
}

#[test]
fn an_entry_of_a_bare_drive_is_named_without_it() {
    let entry = WalkEntry::new(b"C:x".to_vec(), Arc::new(b"C:".to_vec()), false, false, 1, None);
    assert_eq!(entry.basename(), Some(b"x".as_slice()));
}

#[test]
fn a_failure_keeps_the_host_s_number() {
    let failure = Failure::new(FailureKind::Other, "busy");
    assert_eq!(failure.code, None);
    let failure = failure.with_code(Some(16));
    assert_eq!(failure.code, Some(16));
    assert_eq!(failure.kind(), FailureKind::Other);
    assert_eq!(failure.message, "busy");
}
