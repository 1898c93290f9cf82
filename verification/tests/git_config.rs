use ferralk::failure::FailureKind;
use ferralk::git_config::{apply_config, logical_config_lines, parse_git_bool, GitConfig};
use ferralk::gitignore::{add_rules, validate_rule_count, MAX_IGNORE_RULES};
use ferralk::ignore_rules::RuleSetBuilder;

#[test]
fn ignore_rule_count_has_a_hard_limit() {
    let at_limit = vec![b'\n'; MAX_IGNORE_RULES];
    assert!(validate_rule_count(&at_limit).is_ok());

    let over_limit = vec![b'\n'; MAX_IGNORE_RULES + 1];
    let error = validate_rule_count(&over_limit).expect_err("one extra rule is rejected");
    assert_eq!(error.kind(), FailureKind::InvalidData);
}

#[test]
fn byte_lines_continue_after_invalid_utf8_and_match_byte_patterns() {
    let mut builder = RuleSetBuilder::new(b"/fixture", false, false);
    add_rules(&mut builder, b"first.txt\n\xE9latin1.txt\nsecond.txt\n");
    let rules = builder.build();

    assert_eq!(rules.matched(b"/fixture/second.txt", false), Some(true));
    assert_eq!(rules.matched(b"/fixture/\xE9latin1.txt", false), Some(true));
}

#[test]
fn nul_ends_a_rule_and_one_initial_bom_is_stripped() {
    let mut builder = RuleSetBuilder::new(b"/fixture", false, false);
    add_rules(
        &mut builder,
        b"\xEF\xBB\xBF\xEF\xBB\xBFdouble.txt\r\nsec\0ret.txt\r\n",
    );
    let rules = builder.build();

    assert_eq!(
        rules.matched(b"/fixture/\xEF\xBB\xBFdouble.txt", false),
        Some(true)
    );
    assert_eq!(rules.matched(b"/fixture/double.txt", false), None);
    assert_eq!(rules.matched(b"/fixture/sec", false), Some(true));
    assert_eq!(rules.matched(b"/fixture/secret.txt", false), None);
}

#[test]
fn local_config_is_case_insensitive_and_uses_the_last_boolean_value() {
    let mut config = GitConfig::default();
    apply_config(
        &mut config,
        b"[CoRe]\nignoreCase = on\nprecomposeUnicode = 0 # comment\n\
          ignorecase = false\n[ExTeNsIoNs]\nworktreeConfig\n",
    );
    assert_eq!(config.ignore_case, Some(false));
    assert_eq!(config.precompose_unicode, Some(false));
    assert_eq!(config.worktree_config, Some(true));
}

#[test]
fn local_config_boolean_values_follow_git_grammar() {
    for (value, expected) in [
        ("", Some(false)),
        ("\"\"", Some(false)),
        ("true", Some(true)),
        ("No", Some(false)),
        ("+0", Some(false)),
        ("-0", Some(false)),
        ("+2", Some(true)),
        ("-7", Some(true)),
        ("0x0", Some(false)),
        ("0x2", Some(true)),
        ("010", Some(true)),
        ("1G", Some(true)),
        ("2G", None),
        ("09", None),
        ("1.0", None),
        ("invalid", None),
    ] {
        assert_eq!(parse_git_bool(value.as_bytes()), expected, "{value:?}");
    }
}

#[test]
fn invalid_later_boolean_does_not_override_a_valid_value() {
    let mut config = GitConfig::default();
    apply_config(
        &mut config,
        b"[core]\nignorecase = false\nignorecase = not-a-bool\n",
    );
    assert_eq!(config.ignore_case, Some(false));
}

#[test]
fn config_subsections_and_continuations_follow_git_value_boundaries() {
    let mut config = GitConfig::default();
    apply_config(
        &mut config,
        b"[core \"unrelated\"]\nignorecase = false\nprecomposeunicode = false\n\
          [extensions \"unrelated\"]\nworktreeconfig = false\n  [CoRe] # top-level comment\nignorecase = f\\\nalse\nprecomposeunicode = \"tr\\\nue\" # comment\n\
          [extensions]\nworktreeconfig = f\\\nalse\nworktreeconfig = t\\\nr\\\nue\n",
    );

    assert_eq!(config.ignore_case, Some(false));
    assert_eq!(config.precompose_unicode, Some(true));
    assert_eq!(config.worktree_config, Some(true));

    apply_config(
        &mut config,
        b"[core]\nignorecase = true\nignorecase = f\\\n  alse\n\
          precomposeunicode = true\nprecomposeunicode = tr\\\n# comment\n\
          [extensions]\nworktreeconfig = true\nworktreeconfig = tr\\",
    );

    // Continuation indentation is not trimmed, a continued comment leaves
    // the preceding invalid fragment, and an EOF backslash is consumed.
    // None is a valid boolean, so all earlier values remain in force.
    assert_eq!(config.ignore_case, Some(true));
    assert_eq!(config.precompose_unicode, Some(true));
    assert_eq!(config.worktree_config, Some(true));

    let mut continued_header = GitConfig::default();
    apply_config(
        &mut continued_header,
        b"[core]\nignorecase = true\nignorecase = f\\\n[extensions]\nworktreeconfig = true\n",
    );
    // The continued value consumes the section-looking line, so its invalid
    // boolean cannot replace `true` and the following key remains in core.
    assert_eq!(continued_header.ignore_case, Some(true));
    assert_eq!(continued_header.worktree_config, None);
}

#[test]
fn config_header_assignments_keep_the_section_active() {
    let mut config = GitConfig::default();
    apply_config(
        &mut config,
        b"[core] ignorecase = true\nprecomposeunicode = true\n\
          [extensions] worktreeconfig = true\n\
          [core]ignorecase = false\nprecomposeunicode = false\n",
    );

    assert_eq!(config.ignore_case, Some(false));
    assert_eq!(config.precompose_unicode, Some(false));
    assert_eq!(config.worktree_config, Some(true));

    let mut continued = GitConfig::default();
    apply_config(&mut continued, b"[core] ignorecase = tru\\\ne\n");
    assert_eq!(continued.ignore_case, Some(true));
}

#[test]
fn long_config_continuations_are_joined_without_rescanning_the_prefix() {
    const CONTINUATION_LINES: usize = 1 << 18;

    let mut contents = Vec::with_capacity(8 + CONTINUATION_LINES * 4);
    contents.extend_from_slice(b"[core]\nk=");
    for _ in 0..CONTINUATION_LINES {
        contents.extend_from_slice(b"aa\\\n");
    }
    contents.extend_from_slice(b"true\n");

    let lines = logical_config_lines(&contents);
    assert_eq!(lines.len(), 2);
    assert!(lines[1].ends_with(b"true"));
    assert_eq!(lines[1].len(), 2 + CONTINUATION_LINES * 2 + 4);
}

#[test]
fn config_parser_keeps_core_values_across_non_utf8_irrelevant_lines() {
    let mut config = GitConfig::default();
    apply_config(
        &mut config,
        b"# comment before \xff\n[user]\nname = Jos\xe9\nemail = user\\\n\xff@example.test\n\
          [core]\nignorecase = true\nprecomposeunicode = false\n\
          [remote]\nurl = ssh://\xff@example.test\n# comment after \xff\n",
    );

    assert_eq!(config.ignore_case, Some(true));
    assert_eq!(config.precompose_unicode, Some(false));
}

#[test]
fn config_parser_rejects_non_utf8_relevant_boolean_values() {
    let mut config = GitConfig::default();
    apply_config(
        &mut config,
        b"[core]\nignorecase = false\nignorecase = tr\xffue\n\
          precomposeunicode = true\nprecomposeunicode = fa\xfflse\n",
    );

    assert_eq!(config.ignore_case, Some(false));
    assert_eq!(config.precompose_unicode, Some(true));
}

#[test]
fn an_integer_has_one_sign_and_at_least_one_digit() {
    for value in ["--1", "+-1", "-+1", "++1", "0x-5", "0x+5", "0-5", "0+5", "-", "+", "0x", "k", "-k"] {
        assert_eq!(parse_git_bool(value.as_bytes()), None, "{value:?}");
    }
    for value in ["-1", "+1", "0x5", "-0x5", "05", "1k", "-1k"] {
        assert_eq!(parse_git_bool(value.as_bytes()), Some(true), "{value:?}");
    }
}

#[test]
fn the_case_of_a_boolean_does_not_matter() {
    for value in ["true", "yes", "on", "false", "no", "off", "0xff", "1k", "2g", "\"true\\t\"", "word"] {
        assert_eq!(
            parse_git_bool(value.as_bytes()),
            parse_git_bool(value.to_ascii_uppercase().as_bytes()),
            "{value:?}"
        );
    }
}

#[test]
fn a_file_may_be_cut_at_a_section() {
    let front = b"[core]\nignorecase = true\nprecomposeunicode = no\n";
    let back = b"[extensions]\nworktreeconfig\n[core]\nignorecase = off\n";
    let mut whole = GitConfig::default();
    apply_config(&mut whole, &[&front[..], &back[..]].concat());
    let mut parts = GitConfig::default();
    apply_config(&mut parts, front);
    apply_config(&mut parts, back);
    assert_eq!(whole.ignore_case, Some(false));
    assert_eq!(whole.ignore_case, parts.ignore_case);
    assert_eq!(whole.precompose_unicode, parts.precompose_unicode);
    assert_eq!(whole.worktree_config, parts.worktree_config);
    assert_eq!(whole.worktree_config, Some(true));
}
