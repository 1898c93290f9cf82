use ferralk::literal::Syntax;
use ferralk::repository::{
    ancestor_directories, parse_gitdir_pointer, parse_metadata_path, place_of_root,
    private_directory, repository_layout_at, repository_step, resolve_metadata_path, CommonDir,
    DotGit, RepositoryStep,
};

fn bytes(text: &str) -> Vec<u8> {
    text.as_bytes().to_vec()
}

fn place(root: &str, current: &str, syntax: Syntax) -> Option<String> {
    place_of_root(root.as_bytes(), current.as_bytes(), syntax)
        .map(|place| String::from_utf8(place).expect("a place in text"))
}

#[test]
fn a_metadata_file_holds_exactly_one_path() {
    let path = |file: &[u8]| parse_metadata_path(file, Syntax::Posix);
    assert_eq!(path(b"../common\n"), Some(bytes("../common")));
    assert_eq!(path(b"../common\r\n"), Some(bytes("../common")));
    assert_eq!(path(b"../common"), Some(bytes("../common")));
    assert_eq!(path(b"\xff\n"), Some(vec![0xff]));
    assert_eq!(path(b""), None);
    assert_eq!(path(b"\n"), None);
    assert_eq!(path(b"one\ntwo\n"), None);
    assert_eq!(path(b"one\0two"), None);
    assert_eq!(path(b"one\rtwo"), None);
    assert_eq!(path(b"one\n\n"), None);
}

#[test]
fn a_windows_path_is_text() {
    assert_eq!(parse_metadata_path(b"\xff\n", Syntax::Windows), None);
    assert_eq!(
        parse_metadata_path("gr\u{fc}n\n".as_bytes(), Syntax::Windows),
        Some(bytes("gr\u{fc}n"))
    );
}

#[test]
fn only_the_exact_pointer_form_counts() {
    let pointer = |file: &[u8]| parse_gitdir_pointer(file, Syntax::Posix);
    assert_eq!(pointer(b"gitdir: ../.git/worktrees/one\n"), Some(bytes("../.git/worktrees/one")));
    assert_eq!(pointer(b"gitdir:../.git\n"), None);
    assert_eq!(pointer(b"GITDIR: ../.git\n"), None);
    assert_eq!(pointer(b" gitdir: ../.git\n"), None);
    assert_eq!(pointer(b"gitdir: \n"), None);
}

#[test]
fn a_path_in_a_file_is_relative_to_its_directory_unless_absolute() {
    let resolve = |base: &str, path: &str, syntax| {
        resolve_metadata_path(base.as_bytes(), bytes(path), syntax)
    };
    assert_eq!(resolve("/repo", "/elsewhere", Syntax::Posix), Some(bytes("/elsewhere")));
    assert_eq!(resolve("/repo", "../other", Syntax::Posix), Some(bytes("/repo/../other")));
    assert_eq!(resolve("/repo", "", Syntax::Posix), None);
    assert_eq!(resolve("C:/repo", "D:/git", Syntax::Windows), Some(bytes("D:/git")));
    assert_eq!(resolve("/repo", "D:/git", Syntax::Posix), Some(bytes("/repo/D:/git")));
    // Windows reads either separator.
    let windows = |base: &str, path: &str| resolve(base, path, Syntax::Windows);
    assert_eq!(windows("C:/repo", r"D:\git\x"), Some(bytes("D:/git/x")));
    assert_eq!(windows("C:/repo", r"\\host\share\x"), Some(bytes("//host/share/x")));
    assert_eq!(windows("C:/repo", r"..\other"), Some(bytes("C:/repo/../other")));
    // A path from the top of a drive or share stays on the base's own.
    assert_eq!(windows("C:/repo", r"\git"), Some(bytes("C:/git")));
    assert_eq!(windows("C:/repo", "/git"), Some(bytes("C:/git")));
    assert_eq!(windows("//host/share/repo", "/git"), Some(bytes("//host/share/git")));
    assert_eq!(windows("//?/UNC/host/share/repo", "/git"), Some(bytes("//?/UNC/host/share/git")));
    assert_eq!(windows("C:/repo", "D:git"), Some(bytes("D:git")));
    assert_eq!(resolve("/repo", r"a\b", Syntax::Posix), Some(bytes(r"/repo/a\b")));
}

#[test]
fn the_search_goes_on_only_where_nothing_is() {
    assert_eq!(repository_step(DotGit::Missing), RepositoryStep::AskParent);
    assert_eq!(repository_step(DotGit::Directory), RepositoryStep::Plain);
    assert_eq!(repository_step(DotGit::File), RepositoryStep::ReadPointer);
    assert_eq!(repository_step(DotGit::Unreadable), RepositoryStep::Nothing);
    assert_eq!(repository_step(DotGit::Other), RepositoryStep::Nothing);
}

#[test]
fn a_layout_follows_one_indirection() {
    let private = private_directory(
        b"/work",
        b"gitdir: /repo/.git/worktrees/work\n",
        Syntax::Posix,
    );
    assert_eq!(private, Some(bytes("/repo/.git/worktrees/work")));
    let private = private.expect("a private directory");

    let layout =
        repository_layout_at(private.clone(), CommonDir::Contents(bytes("../..\n")), Syntax::Posix)
            .expect("a layout");
    assert_eq!(layout.private_directory, private);
    assert_eq!(layout.common_directory, bytes("/repo/.git/worktrees/work/../.."));

    let alone = repository_layout_at(private.clone(), CommonDir::Missing, Syntax::Posix)
        .expect("a layout");
    assert_eq!(alone.common_directory, private);

    assert!(repository_layout_at(private.clone(), CommonDir::Unreadable, Syntax::Posix).is_none());
    let malformed = CommonDir::Contents(bytes("\n"));
    assert!(repository_layout_at(private, malformed, Syntax::Posix).is_none());
}

#[test]
fn a_subtree_inherits_from_the_repository_down_to_its_parent() {
    let above = ["/repo/a/b", "/repo/a", "/repo", "/"].map(bytes).to_vec();
    assert_eq!(ancestor_directories(&above, b"/repo"), vec![bytes("/repo"), bytes("/repo/a")]);
    assert_eq!(ancestor_directories(&above, b"/repo/a/b"), Vec::<Vec<u8>>::new());
    assert_eq!(ancestor_directories(&above, b"/repo/a"), vec![bytes("/repo/a")]);
    let all = ["/", "/repo", "/repo/a"].map(bytes).to_vec();
    assert_eq!(ancestor_directories(&above, b"/elsewhere"), all);
    assert_eq!(ancestor_directories(&Vec::new(), b"/repo"), Vec::<Vec<u8>>::new());
}

#[test]
fn a_root_lies_where_its_names_lead() {
    let posix = |root: &str| place(root, "/current", Syntax::Posix);
    assert_eq!(posix("/repo/src"), Some("/repo/src".to_owned()));
    assert_eq!(posix("/repo/./src//"), Some("/repo/src".to_owned()));
    assert_eq!(posix("src"), Some("/current/src".to_owned()));
    assert_eq!(posix("./src/."), Some("/current/src".to_owned()));
    assert_eq!(posix("."), Some("/current".to_owned()));
    assert_eq!(posix(""), Some("/current".to_owned()));
    assert_eq!(posix("/"), Some("/".to_owned()));
}

#[test]
fn only_the_filesystem_knows_where_a_parent_is() {
    assert_eq!(place("..", "/current", Syntax::Posix), None);
    assert_eq!(place("/repo/../src", "/current", Syntax::Posix), None);
    assert_eq!(place("..src", "/current", Syntax::Posix), Some("/current/..src".to_owned()));
}

#[test]
fn a_windows_root_lies_on_a_drive() {
    let windows = |root: &str| place(root, "C:/current", Syntax::Windows);
    assert_eq!(windows("D:/repo/./src"), Some("D:/repo/src".to_owned()));
    assert_eq!(windows("//server/share/src"), Some("//server/share/src".to_owned()));
    assert_eq!(windows("src"), Some("C:/current/src".to_owned()));
    assert_eq!(windows("/src"), None);
}
