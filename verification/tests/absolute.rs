use ferralk::absolute::{reject_path_shaped, rewrite_in, Rewrite};
use ferralk::literal::Syntax;

/// Convenience for the common assertion: this rewrote to these bytes.
fn rooted(pattern: &str, root: &str, syntax: Syntax) -> String {
    match rewrite_in(pattern.as_bytes(), root.as_bytes(), syntax) {
        Ok(Rewrite::Rooted { bytes, .. }) => String::from_utf8(bytes).expect("ASCII fixture"),
        other => panic!("expected a rewrite, got {other:?}"),
    }
}

fn verdict(pattern: &str, root: &str, syntax: Syntax) -> Rewrite {
    rewrite_in(pattern.as_bytes(), root.as_bytes(), syntax).expect("no error expected")
}

fn message(pattern: &str, root: &str, syntax: Syntax) -> &'static str {
    rewrite_in(pattern.as_bytes(), root.as_bytes(), syntax)
        .expect_err("an error was expected")
        .message()
}

fn rejection(pattern: &str, syntax: Syntax) -> Option<&'static str> {
    reject_path_shaped(pattern.as_bytes(), syntax)
        .err()
        .map(|error| error.message())
}

/// The shapes a `PathBuf` join produces on Windows, which the dialect reads
/// as escapes and which therefore match nothing.
#[test]
fn a_windows_path_spelled_as_a_pattern_is_refused() {
    for pattern in [
        r"C:\repo\src\**\*.ts",
        r"C:\repo\node_modules",
        r"src\*.ts",
        r"src\**\*.ts",
        r"\\server\share\src\*.ts",
        r"\\?\C:\repo\*.ts",
    ] {
        assert!(
            rejection(pattern, Syntax::Windows)
                .is_some_and(|message| message.starts_with("this looks like a Windows path")),
            "{pattern} must be refused on Windows"
        );
        // POSIX hosts keep every one of these: there a backslash is only
        // ever an escape, and a file really can be named `src*.ts`.
        assert_eq!(
            rejection(pattern, Syntax::Posix),
            None,
            "{pattern} on POSIX"
        );
    }
}

/// The rule may only refuse patterns that could not have matched anyway.
#[test]
fn a_pattern_that_could_match_on_windows_is_kept() {
    for pattern in [
        // The spellings that work, which is most of the point.
        "src/**/*.ts",
        "C:/repo/src/**/*.ts",
        "//server/share/src/*.ts",
        "{src,lib}/**/*.ts",
        // Escaping an ordinary byte is legal and means the byte itself.
        // `a\b\c` selects a file named `abc` - odd, but it works, so it
        // is not this rule's business.
        r"a\b\c",
        // Brackets and braces are legal in a Windows filename, so escaping
        // them asks for something that can exist.
        r"notes\[1\].txt",
        r"literal\{braces\}.txt",
        // A drive prefix written the way this dialect wants it.
        "C:/repo",
    ] {
        assert_eq!(rejection(pattern, Syntax::Windows), None, "{pattern}");
        assert_eq!(rejection(pattern, Syntax::Posix), None, "{pattern}");
    }
}

/// An escaped forbidden byte inside a group is one member among several, so
/// the pattern can still match and must not be refused.
///
/// `[a\*]` and `{a,\*}` both match `a`. A rejection that removes working
/// patterns is worse than silence.
#[test]
fn an_escape_inside_a_group_is_not_a_path_separator() {
    for pattern in [
        // A class: `*` is one member, `a` is another.
        r"[a\*]",
        r"src/[a\*].ts",
        // An alternation: `\*` is one branch, `a` is another.
        r"{a,\*}",
        r"src/{a,\*}.ts",
        // Extglob groups alternate the same way.
        r"@(a|\*)",
        r"+(a|\*)",
        r"!(a|\*)",
        r"*(a|\*)",
        r"?(a|\*)",
        // The residue, stated so it is a decision and not a surprise: a
        // one-alternative group could never match on Windows, and is still
        // accepted, because reading it would mean parsing the group.
        r"{a\*b}",
    ] {
        assert_eq!(
            rejection(pattern, Syntax::Windows),
            None,
            "{pattern} can match, so it must not be refused"
        );
    }
}

/// The negative half of the same pair: what is refused stays refused.
///
/// Restricting the scan to plain text must not cost the shapes it exists
/// for, all of which reach the forbidden escape before any group.
#[test]
fn narrowing_the_scan_keeps_the_shapes_it_was_built_for() {
    for pattern in [
        r"C:\repo\*.ts",
        r"src\*.ts",
        r"C:\repo\src\**\*.ts",
        r"\\server\share\src\*.ts",
        "C:src/*.ts",
    ] {
        assert!(
            rejection(pattern, Syntax::Windows).is_some(),
            "{pattern} can never match on Windows and must be refused"
        );
    }
}

/// A trailing backslash is the pattern language's own error, reported where
/// that is decided rather than guessed at here.
#[test]
fn a_trailing_backslash_is_left_to_the_compiler() {
    assert_eq!(rejection(r"src\", Syntax::Windows), None);
}

#[test]
fn a_pattern_under_the_root_loses_exactly_the_root() {
    assert_eq!(rooted("/a/b/src/*.ts", "/a/b", Syntax::Posix), "src/*.ts");
    assert_eq!(rooted("/a/b/**/*.ts", "/a/b", Syntax::Posix), "**/*.ts");
    assert_eq!(rooted("/a/b/**", "/a/b", Syntax::Posix), "**");
    // A brace root survives, because the rewrite stops at the
    // first metacharacter and the prefix before it is what it removes.
    assert_eq!(
        rooted("/a/b/{src,lib}/**/*.ts", "/a/b", Syntax::Posix),
        "{src,lib}/**/*.ts"
    );
    // A trailing separator still means "directories only" afterwards.
    assert_eq!(rooted("/a/b/build/", "/a/b", Syntax::Posix), "build/");
}

#[test]
fn separator_noise_on_either_side_is_ignored() {
    assert_eq!(rooted("/a//b/src/*.ts", "/a/b", Syntax::Posix), "src/*.ts");
    assert_eq!(rooted("/a/./b/src/*.ts", "/a/b", Syntax::Posix), "src/*.ts");
    assert_eq!(rooted("/a/b/src/*.ts", "/a/b/", Syntax::Posix), "src/*.ts");
    assert_eq!(
        rooted("/a/b/src/*.ts", "/a//b//", Syntax::Posix),
        "src/*.ts"
    );
    // A root that already ends in a separator leaves two at the join.
    assert_eq!(rooted("/a/b//src/*.ts", "/a/b", Syntax::Posix), "src/*.ts");
    assert_eq!(rooted("/a/b/./src/*.ts", "/a/b", Syntax::Posix), "src/*.ts");
    assert_eq!(rooted("//a/b/src/*.ts", "/a/b", Syntax::Posix), "src/*.ts");
}

#[test]
fn a_pattern_that_cannot_reach_the_root_selects_nothing() {
    // A sibling of the root.
    assert_eq!(verdict("/a/c/**", "/a/b", Syntax::Posix), Rewrite::Outside);
    // An unrelated tree.
    assert_eq!(
        verdict("/other/**", "/a/b", Syntax::Posix),
        Rewrite::Outside
    );
    // An ancestor named exactly, which is one path and not inside the walk.
    assert_eq!(verdict("/a", "/a/b", Syntax::Posix), Rewrite::Outside);
    // A near miss that a byte-wise prefix test would have accepted: the
    // root is `/a/b`, and `/a/bb` is a different directory.
    assert_eq!(verdict("/a/bb/**", "/a/b", Syntax::Posix), Rewrite::Outside);
}

#[test]
fn a_relative_pattern_is_left_alone() {
    assert_eq!(
        verdict("src/*.ts", "/a/b", Syntax::Posix),
        Rewrite::Relative
    );
    assert_eq!(verdict("**/*.ts", "/a/b", Syntax::Posix), Rewrite::Relative);
    // On Windows a single leading separator is drive-relative, not
    // absolute, so it keeps whatever meaning it has as a walker pattern.
    assert_eq!(
        verdict("/src/*.ts", "C:/a/b", Syntax::Windows),
        Rewrite::Relative
    );
}

#[test]
fn a_wildcard_at_or_above_the_root_is_rejected() {
    // `/*/x.ts` could match inside the root or outside it; which is not
    // decidable without matching, so the walker says so instead of
    // guessing. Selecting nothing here would silently drop real matches.
    assert_eq!(
        message("/*/x.ts", "/a/b", Syntax::Posix),
        "a wildcard at or above the walk root cannot be made relative to it"
    );
    assert_eq!(
        message("/**/*.ts", "/a/b", Syntax::Posix),
        "a wildcard at or above the walk root cannot be made relative to it"
    );
    // Sharing a component with the root's own name is the same problem:
    // `b*` covers `b` and `bb` alike.
    assert_eq!(
        message("/a/b*/x.ts", "/a/b", Syntax::Posix),
        "a wildcard at or above the walk root cannot be made relative to it"
    );
    // A wildcard below the root is fine; only the part being removed has
    // to be literal.
    assert_eq!(rooted("/a/b/*/x.ts", "/a/b", Syntax::Posix), "*/x.ts");
}

#[test]
fn dot_dot_is_rejected_on_both_sides() {
    assert!(message("/a/b/../b/x.ts", "/a/b", Syntax::Posix).starts_with("`..`"));
    assert_eq!(
        message("/a/b/x.ts", "/a/b/../b", Syntax::Posix),
        "an absolute pattern needs a walk root without a `..` component"
    );
    // Below the root it is rejected too. Removing `/a` would leave
    // `b/../c/*.ts`, which matches no walk candidate, so the pattern would
    // quietly select nothing instead of what it names.
    assert!(message("/a/b/../c/*.ts", "/a", Syntax::Posix).starts_with("`..`"));
}

#[test]
fn naming_the_root_itself_is_rejected() {
    for pattern in ["/a/b", "/a/b/", "/a/b/.", "/a//b//"] {
        assert!(
            message(pattern, "/a/b", Syntax::Posix)
                .starts_with("an absolute pattern that names"),
            "{pattern} names the root"
        );
    }
}

#[test]
fn an_absolute_pattern_needs_an_absolute_root() {
    assert_eq!(
        message("/a/b/*.ts", "relative/dir", Syntax::Posix),
        "an absolute pattern needs an absolute walk root"
    );
    assert_eq!(
        message("C:/a/*.ts", "a/b", Syntax::Windows),
        "an absolute pattern needs an absolute walk root"
    );
}

#[test]
fn windows_roots_are_read_the_way_windows_spells_them() {
    assert_eq!(
        rooted("C:/a/b/src/*.ts", "C:/a/b", Syntax::Windows),
        "src/*.ts"
    );
    // A drive letter is not a filename, so its case does not decide.
    assert_eq!(
        rooted("c:/a/b/src/*.ts", "C:/a/b", Syntax::Windows),
        "src/*.ts"
    );
    // Names below the drive are matched as written.
    assert_eq!(
        verdict("C:/a/B/src/*.ts", "C:/a/b", Syntax::Windows),
        Rewrite::Outside
    );
    // Another drive is outside this walk.
    assert_eq!(
        verdict("D:/a/b/**", "C:/a/b", Syntax::Windows),
        Rewrite::Outside
    );
    // UNC shares work the same way.
    assert_eq!(
        rooted("//host/share/a/**/*.ts", "//host/share/a", Syntax::Windows),
        "**/*.ts"
    );
    // `canonicalize` returns this verbatim namespace spelling on Windows.
    assert_eq!(
        rooted("C:/repo/src/**/*.ts", "//?/C:/repo", Syntax::Windows),
        "src/**/*.ts"
    );
    assert_eq!(
        rooted("//?/C:/repo/src/**/*.ts", "C:/repo", Syntax::Windows),
        "src/**/*.ts"
    );
    assert_eq!(
        rooted(
            "//HOST/SHARE/a/**/*.ts",
            "//?/UNC/host/share/a",
            Syntax::Windows
        ),
        "**/*.ts"
    );
    assert_eq!(
        verdict("//host/other/a/**", "//host/share/a", Syntax::Windows),
        Rewrite::Outside
    );
    // A backslash is an escape in this dialect, not a separator, so a
    // pattern spelled the way `Path::display` prints one is reported
    // rather than silently mis-split.
    assert_eq!(
        message("C:/a\\b\\src\\*.ts", "C:/a/b", Syntax::Windows),
        "a wildcard at or above the walk root cannot be made relative to it"
    );
}
