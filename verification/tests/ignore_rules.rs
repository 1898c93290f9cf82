use std::path::{Path, PathBuf};

use ferralk::ignore_rules::{fuzz_rule, fuzz_rule_bytes, parse_rule, RuleSetBuilder};

/// The directory the rules are anchored to.
const ROOT: &[u8] = b"/fixture";

/// Rule shapes to compare, one per line of a synthetic ignore file.
const RULES: &[&str] = &[
    "debug.log",
    "*.log",
    "*.o",
    "build/",
    "logs/",
    "/root.txt",
    "src/temp.o",
    "**/foo",
    "a/**/b",
    "abc/**",
    "abc/*",
    "a**b",
    "doc/frotz",
    "!keep.log",
    "file[a-c].txt",
    "file[!a-c].txt",
    "*.[oa]",
    "*.[[:digit:]]",
    "file[[:upper:]].txt",
    "*.{ts,tsx}",
    "\\!literal",
    "\\#literal",
    "trailing ",
    "trailing\\ ",
    "#comment",
    "",
    "sp ace.txt",
    "**",
    "*",
    "node_modules/",
    "!node_modules/keep/",
    "deep/nested/*.rs",
    ".env",
    ".*",
];

/// Candidates, matched as both a file and a directory.
const PATHS: &[&str] = &[
    "debug.log",
    "keep.log",
    "sub/debug.log",
    "build",
    "build/main.o",
    "logs",
    "root.txt",
    "sub/root.txt",
    "src/temp.o",
    "foo",
    "a/b/foo",
    "a/b",
    "a/x/y/b",
    "abc",
    "abc/x.txt",
    "abc/deep/x.txt",
    "axxb",
    "a/x/b",
    "doc/frotz",
    "sub/doc/frotz",
    "filea.txt",
    "filez.txt",
    "fileA.txt",
    "main.o",
    "a.7",
    "a.ts",
    "a.{ts,tsx}",
    "!literal",
    "#literal",
    "trailing",
    "trailing ",
    "sp ace.txt",
    "node_modules",
    "node_modules/keep",
    "deep/nested/main.rs",
    ".env",
    ".hidden/x",
    // near misses, so an over-matching rule cannot hide
    "xfoo",
    "a/xfoo",
    "subdebug.log",
    "a/xb",
    "ax/b",
    "abcx/y",
    "xbuild",
    "build2",
    "x.tsx",
    "keep.log.bak",
    "node_modules2/x",
];

/// Rules where this layer deliberately differs from the `ignore` crate.
///
/// Each is a case where that crate does not reproduce Git. Any other
/// disagreement is a bug in this layer.
const DELIBERATE: &[&str] = &["*.[[:digit:]]", "*.{ts,tsx}", "file[[:upper:]].txt"];

/// The candidate as the walker hands it over: the whole path in glob bytes.
fn candidate(root: &Path, path: &str) -> Vec<u8> {
    root.join(path).to_string_lossy().into_owned().into_bytes()
}

fn ours(rule: &str, path: &str, is_dir: bool) -> Option<bool> {
    let root = PathBuf::from("/fixture");
    let mut builder = RuleSetBuilder::new(ROOT, false, false);
    builder.add_line(rule.as_bytes());
    builder.build().matched(&candidate(&root, path), is_dir)
}

fn theirs(rule: &str, path: &str, is_dir: bool) -> Option<bool> {
    let root = PathBuf::from("/fixture");
    let mut builder = ignore::gitignore::GitignoreBuilder::new(&root);
    let _ = builder.add_line(None, rule);
    let Ok(matcher) = builder.build() else {
        return None;
    };
    let matched = matcher.matched(root.join(path), is_dir);
    if matched.is_none() {
        None
    } else {
        Some(matched.is_ignore())
    }
}

/// Every rule and candidate, against the `ignore` crate.
///
/// The two agree everywhere except where that crate is known to differ from
/// Git.
#[test]
fn the_rule_layer_agrees_with_the_engine_it_replaces() {
    let mut disagreed = Vec::new();
    let mut compared = 0_usize;
    for rule in RULES {
        for path in PATHS {
            for is_dir in [false, true] {
                compared += 1;
                if ours(rule, path, is_dir) != theirs(rule, path, is_dir) {
                    disagreed.push(*rule);
                }
            }
        }
    }
    disagreed.sort_unstable();
    disagreed.dedup();
    assert!(
        compared > 1000,
        "the matrix has to be broad, was {compared}"
    );
    assert_eq!(
        disagreed, DELIBERATE,
        "unexpected disagreement with the other engine"
    );
}

/// The parser's own decisions, independent of any matcher.
#[test]
fn rule_lines_are_read_the_way_gitignore_describes_them() {
    assert!(parse_rule("".as_bytes()).is_none(), "a blank line is not a rule");
    assert!(parse_rule("# comment".as_bytes()).is_none());
    assert!(parse_rule("   ".as_bytes()).is_none(), "spaces alone are not a rule");
    assert!(parse_rule("/".as_bytes()).is_none(), "a lone separator is not a rule");
    for rule in ["a//b", "//foo", "x///y"] {
        assert!(
            parse_rule(rule.as_bytes()).is_none(),
            "repeated separators are unmatchable: {rule}"
        );
    }
    assert!(
        parse_rule("foo\\".as_bytes()).is_none(),
        "a dangling escape matches nothing"
    );
    assert!(
        parse_rule("\\#literal".as_bytes()).is_some(),
        "an escaped hash is a rule"
    );

    let negated = parse_rule("!keep.log".as_bytes()).expect("negation parses");
    assert!(negated.negated());
    assert!(!negated.directory_only());

    let directory = parse_rule("build/".as_bytes()).expect("directory rule parses");
    assert!(directory.directory_only());
    assert!(!directory.negated());
}

#[test]
fn a_slash_inside_a_bracket_class_is_not_a_path_separator() {
    assert_eq!(fuzz_rule("a[b/c]d", b"abd", false), Some(true));
    assert_eq!(fuzz_rule("a[b/c]d", b"acd", false), Some(true));
    assert_eq!(fuzz_rule("x[[:alpha:]/]y", b"xay", false), Some(true));
}

#[test]
fn suffix_star_runs_follow_git_s_directory_and_empty_cases() {
    for candidate in [b"b".as_slice(), b"x/y/b"] {
        assert_eq!(fuzz_rule_bytes(b"***/b", candidate, false), Some(true));
    }
    for candidate in [b"ay".as_slice(), b"a/y", b"ax/y", b"a/x/y"] {
        assert_eq!(fuzz_rule_bytes(b"a**/y", candidate, false), Some(true));
    }
    for candidate in [b"a".as_slice(), b"ab", b"a/x"] {
        assert_eq!(fuzz_rule_bytes(b"a**/**", candidate, false), Some(true));
    }
    assert_eq!(fuzz_rule_bytes(b"a**b", b"a/x/b", false), None);
}

#[test]
fn suffix_star_runs_respect_git_s_literal_prefix_and_juncture() {
    for rule in [
        b"[a]**/y".as_slice(),
        b"a?**/y",
        b"*a**/y",
        b"**/a**/y",
        b"a\\**/y",
    ] {
        assert_eq!(
            fuzz_rule_bytes(rule, b"a/x/y", false),
            None,
            "a wildcard or escape before the run makes it an ordinary star: {}",
            String::from_utf8_lossy(rule)
        );
    }

    assert_eq!(fuzz_rule_bytes(b"a**/y", b"ay", false), Some(true));
    assert_eq!(fuzz_rule_bytes(b"a**/y", b"axy", false), None);
    assert_eq!(fuzz_rule_bytes(b"a**/y", b"aXy", false), None);
}

#[test]
fn final_and_repeated_special_star_runs_follow_git() {
    for candidate in [b"a".as_slice(), b"ab", b"a/b", b"a/x/y"] {
        assert_eq!(fuzz_rule_bytes(b"/a**", candidate, false), Some(true));
    }
    assert_eq!(fuzz_rule_bytes(b"a**/**/y", b"ay", false), Some(true));
}

#[test]
fn slash_classes_use_git_s_anchoring_and_negation_rules() {
    assert_eq!(fuzz_rule_bytes(b"a[b/c]d", b"x/abd", false), None);
    assert_eq!(fuzz_rule_bytes(b"x[[:alpha:]/]y", b"q/xay", false), None);
    assert_eq!(fuzz_rule_bytes(b"a[!/]d", b"abd", false), Some(true));
    assert_eq!(fuzz_rule_bytes(b"a[!/]d", b"acd", false), Some(true));
}

#[test]
fn first_closing_bracket_remains_a_literal_class_member() {
    assert_eq!(fuzz_rule_bytes(b"[]]", b"]", false), Some(true));
    assert_eq!(fuzz_rule_bytes(b"[!]]", b"a", false), Some(true));
    assert_eq!(fuzz_rule_bytes(b"[!]]", b"]", false), None);
    assert_eq!(fuzz_rule_bytes(b"[!]", b"a", false), None);
    assert_eq!(fuzz_rule_bytes(b"[]/]", b"]", false), Some(true));
    assert_eq!(fuzz_rule_bytes(b"[]/]", b"x/]", false), None);
    assert_eq!(fuzz_rule_bytes(b"[!]/]", b"a", false), Some(true));
}

#[test]
fn fuzz_rule_uses_empty_root_candidates_without_dropping_a_byte() {
    assert_eq!(fuzz_rule("abc", b"abc", false), Some(true));
    assert_eq!(fuzz_rule("abc", b"Xabc", false), None);
    assert_eq!(fuzz_rule("/a", b"a", false), Some(true));
    assert_eq!(fuzz_rule("/a", b"Xa", false), None);
    assert_eq!(
        fuzz_rule_bytes(b"\xE9latin1.txt", b"\xE9latin1.txt", false),
        Some(true)
    );
}

#[test]
fn deeply_nested_unclosed_posix_openers_are_rejected() {
    let mut rule = String::from("[");
    rule.push_str("[:".repeat(32_768).as_str());
    assert!(parse_rule(rule.as_bytes()).is_none());
}

#[test]
fn trailing_spaces_are_dropped_unless_escaped() {
    let root = Path::new("/fixture");
    let mut builder = RuleSetBuilder::new(ROOT, false, false);
    builder.add_line("trailing ".as_bytes());
    assert_eq!(
        builder.build().matched(&candidate(root, "trailing"), false),
        Some(true)
    );

    let mut builder = RuleSetBuilder::new(ROOT, false, false);
    builder.add_line("trailing\\ ".as_bytes());
    let rules = builder.build();
    assert_eq!(
        rules.matched(&candidate(root, "trailing "), false),
        Some(true)
    );
    assert_eq!(rules.matched(&candidate(root, "trailing"), false), None);
}

#[test]
fn the_last_matching_rule_decides() {
    let root = Path::new("/fixture");
    let mut builder = RuleSetBuilder::new(ROOT, false, false);
    builder.add_line("*.log".as_bytes());
    builder.add_line("!keep.log".as_bytes());
    builder.add_line("keep.log".as_bytes());
    assert_eq!(
        builder.build().matched(&candidate(root, "keep.log"), false),
        Some(true),
        "the later rule wins over the negation before it"
    );
}

/// A rule with many runs, against a candidate built to make each one
/// backtrack.
///
/// A recursive matcher is exponential in the number of `**` components, and a
/// rule file inside the tree being walked is where such input comes from. The
/// bound is generous on purpose: the point is the difference between
/// milliseconds and never.
#[test]
fn many_runs_do_not_explode() {
    let root = PathBuf::from("/fixture");
    let mut builder = RuleSetBuilder::new(ROOT, false, false);
    builder.add_line("**/a/**/a/**/a/**/a/**/a/**/a/**/a/**/x".as_bytes());
    let rules = builder.build();
    let deep = "a/".repeat(24) + "b";

    let start = std::time::Instant::now();
    assert_eq!(rules.matched(&candidate(&root, &deep), false), None);
    assert!(
        start.elapsed() < std::time::Duration::from_secs(1),
        "matching took {:?}",
        start.elapsed()
    );
}

#[test]
fn precomposeunicode_normalizes_only_valid_candidate_components() {
    let mut enabled = RuleSetBuilder::new(ROOT, false, true);
    enabled.add_line("caf\u{e9}.txt".as_bytes());
    let enabled = enabled.build();

    let decomposed = b"/fixture/cafe\xCC\x81.txt";
    assert_eq!(enabled.matched(decomposed, false), Some(true));

    // An invalid component remains byte-exact without preventing a later
    // valid component from receiving the NFC adaptation.
    assert_eq!(
        enabled.matched(b"/fixture/bad\xFF/cafe\xCC\x81.txt", false),
        Some(true)
    );

    let mut disabled = RuleSetBuilder::new(ROOT, false, false);
    disabled.add_line("caf\u{e9}.txt".as_bytes());
    assert_eq!(disabled.build().matched(decomposed, false), None);
}

#[test]
fn an_escaped_bracket_closes_no_class() {
    // The whole component is one class with the members `]`, `a` and `b`.
    for name in [&b"a"[..], b"b", b"]"] {
        assert_eq!(fuzz_rule_bytes(br"[\]ab]", name, false), Some(true), "{name:?}");
    }
    assert_eq!(fuzz_rule_bytes(br"[\]ab]", b"ab]", false), None);
    assert_eq!(fuzz_rule_bytes(br"[\]ab]", b"c", false), None);
    // Text behind such a class is still required.
    assert_eq!(fuzz_rule_bytes(br"[!\]x]tail", b"atail", false), Some(true));
    assert_eq!(fuzz_rule_bytes(br"[!\]x]tail", b"xtail", false), None);
}

#[test]
fn a_rule_without_a_separator_looks_at_the_last_name() {
    for line in [
        "debug.log",
        "*.log",
        "file[a-c].txt",
        "**",
        "!keep.log",
        "de**bug*",
        "[[:alpha:]]ther**log",
        "[]x[:digit:]]ile*txt",
    ] {
        for name in ["debug.log", "other.log", "filea.txt", "keep.log", "none", "]ile.txt"] {
            for dir in ["a", "a/b", "debug.log"] {
                assert_eq!(
                    fuzz_rule(line, format!("{dir}/{name}").as_bytes(), false),
                    fuzz_rule(line, name.as_bytes(), false),
                    "{line} {dir} {name}"
                );
            }
        }
    }
    assert_eq!(fuzz_rule("[[:alpha:]]ther**log", b"ther/other.log", false), Some(true));
    assert_eq!(fuzz_rule("[[:alpha:]]ther**log", b"other.log/none", false), None);
    // A class name that is not known ends the class early for the matcher, so
    // its text accepts a name without the bytes the rule asks for.
    assert_eq!(fuzz_rule("[[:x]:][]ab]", b"x:]a", false), None);
    assert_eq!(fuzz_rule("[[:x]:][]ab]", b"ab]/x:]a", false), Some(true));
}
