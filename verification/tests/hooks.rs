use git_embed::hooks::{
    hook_snippet, hooks, hooks_installed, hooks_status, install_hook, remove_hook_section,
    replace_hook_section, uninstall_hook, uninstall_summary, Installed, Uninstalled, HOOK_MARKER,
};

// --- hook_snippet ---

#[test]
fn test_hook_snippet_contains_marker() {
    let snippet = hook_snippet("update");
    assert!(snippet.starts_with(HOOK_MARKER));
}

#[test]
fn test_hook_snippet_contains_command() {
    let snippet = hook_snippet("update");
    assert!(snippet.contains("git embed update"));
}

#[test]
fn test_hook_snippet_graceful_degradation() {
    let snippet = hook_snippet("update");
    assert!(snippet.contains("command -v git-embed"));
    assert!(snippet.contains("exit 0"));
}

#[test]
fn test_hook_snippet_runs_in_background() {
    let snippet = hook_snippet("update");
    assert!(snippet.contains("&\n"));
}

#[test]
fn hook_snippet_text() {
    assert_eq!(
        hook_snippet("update"),
        "# git-embed\ncommand -v git-embed >/dev/null 2>&1 || exit 0\ngit embed update >/dev/null 2>&1 &\n"
    );
}

// --- replace_hook_section ---

#[test]
fn test_replace_hook_section_updates_existing() {
    let old_snippet = hook_snippet("update");
    let existing = format!("#!/bin/sh\n{old_snippet}");

    let new_snippet = hook_snippet("update");
    let result = replace_hook_section(&existing, &new_snippet);

    assert_eq!(result.matches(HOOK_MARKER).count(), 1);
    assert!(result.starts_with("#!/bin/sh\n"));
}

#[test]
fn test_replace_hook_section_preserves_other_content() {
    let other = "#!/bin/sh\necho 'other hook'\n";
    let old_snippet = hook_snippet("update");
    let existing = format!("{other}\n{old_snippet}");

    let new_snippet = hook_snippet("update");
    let result = replace_hook_section(&existing, &new_snippet);

    assert!(result.contains("echo 'other hook'"));
    assert_eq!(result.matches(HOOK_MARKER).count(), 1);
}

#[test]
fn replace_hook_section_drops_later_sections() {
    let content = "a\n# git-embed one\nx\n\nb\n# git-embed two\ny\n# git-embed three\n\nc";
    assert_eq!(replace_hook_section(content, "NEW\n"), "a\nNEW\n\nb\nc");
    assert_eq!(remove_hook_section(content), "a\nb\nc");
    assert_eq!(replace_hook_section("", "NEW\n"), "");
    assert_eq!(replace_hook_section("# git-embed", "NEW\n"), "NEW\n");
    let other = "a\r\n # git-embed\r\n";
    assert_eq!(replace_hook_section(other, "NEW\n"), other);
    assert_eq!(remove_hook_section(other), other);
    let ended = "a\r\n# git-embed\r\nx\r\n\r\nb\r\r\n\r\nc\r";
    assert_eq!(replace_hook_section(ended, "NEW\n"), "a\r\nNEW\n\r\nb\r\r\n\r\nc\r");
    assert_eq!(remove_hook_section(ended), "a\r\nb\r\r\n\r\nc\r");
}

// --- remove_hook_section ---

#[test]
fn test_remove_hook_section_removes_marker_and_commands() {
    let snippet = hook_snippet("update");
    let content = format!("#!/bin/sh\n{snippet}");

    let result = remove_hook_section(&content);

    assert!(!result.contains(HOOK_MARKER));
    assert!(!result.contains("git embed update"));
    assert!(result.contains("#!/bin/sh"));
}

#[test]
fn test_remove_hook_section_preserves_other_content() {
    let snippet = hook_snippet("update");
    let content = format!("#!/bin/sh\necho 'before'\n\n{snippet}\necho 'after'\n");

    let result = remove_hook_section(&content);

    assert!(result.contains("echo 'before'"));
    assert!(result.contains("echo 'after'"));
    assert!(!result.contains(HOOK_MARKER));
    assert_eq!(result, "#!/bin/sh\necho 'before'\n\necho 'after'\n");
}

#[test]
fn test_remove_hook_section_no_marker_unchanged() {
    let content = "#!/bin/sh\necho 'hello'\n";
    let result = remove_hook_section(content);
    assert_eq!(result, content);
}

// --- install and uninstall ---

#[test]
fn test_install_creates_hook_files() {
    for (hook_name, subcmd) in hooks() {
        let (kind, content) = install_hook(None, subcmd);
        assert_eq!(kind, Installed::Created, "{} should be created", hook_name);
        assert!(content.starts_with("#!/bin/sh\n"));
        assert!(content.contains(HOOK_MARKER));
        assert!(content.contains("git embed"));
    }
}

#[test]
fn test_install_idempotent() {
    for (hook_name, subcmd) in hooks() {
        let (_, once) = install_hook(None, subcmd);
        let (kind, twice) = install_hook(Some(&once), subcmd);
        assert_eq!(kind, Installed::Updated);
        assert_eq!(twice, once);
        assert_eq!(
            twice.matches(HOOK_MARKER).count(),
            1,
            "{} should have exactly one marker",
            hook_name
        );
    }
}

#[test]
fn test_install_appends_to_existing_hook() {
    let existing = "#!/bin/sh\necho 'pre-existing hook'\n";
    let (kind, content) = install_hook(Some(existing), "update");
    assert_eq!(kind, Installed::Appended);
    assert!(content.contains("echo 'pre-existing hook'"), "should preserve existing");
    assert!(content.contains(HOOK_MARKER), "should add git-embed section");
    assert_eq!(content, format!("{}\n{}", existing, hook_snippet("update")));

    let (_, unfinished) = install_hook(Some("echo"), "update");
    assert_eq!(unfinished, format!("echo\n\n{}", hook_snippet("update")));
    assert_eq!(install_hook(Some(&unfinished), "update").1, unfinished);
}

#[test]
fn test_uninstall_removes_hook_files() {
    for (_, subcmd) in hooks() {
        let (_, content) = install_hook(None, subcmd);
        assert!(matches!(uninstall_hook(Some(&content)), Uninstalled::Removed));
    }
}

#[test]
fn test_uninstall_preserves_other_hook_content() {
    let existing = "#!/bin/sh\necho 'keep me'\n";
    let (_, content) = install_hook(Some(existing), "update");
    match uninstall_hook(Some(&content)) {
        Uninstalled::Cleaned(rest) => {
            assert!(rest.contains("echo 'keep me'"), "should preserve other content");
            assert!(!rest.contains(HOOK_MARKER), "should remove git-embed section");
            assert_eq!(rest, "#!/bin/sh\necho 'keep me'\n\n");
        }
        _ => panic!("file should still exist with other content"),
    }
}

#[test]
fn test_uninstall_no_hooks_is_noop() {
    assert!(matches!(uninstall_hook(None), Uninstalled::Untouched));
}

#[test]
fn test_uninstall_ignores_non_embed_hooks() {
    let other = "#!/bin/sh\necho 'other tool'\n";
    assert!(matches!(uninstall_hook(Some(other)), Uninstalled::Untouched));
}

#[test]
fn test_full_lifecycle() {
    for (_, subcmd) in hooks() {
        let (_, content) = install_hook(None, subcmd);
        let (_, content) = install_hook(Some(&content), subcmd);
        assert_eq!(content.matches(HOOK_MARKER).count(), 1);
        assert!(matches!(uninstall_hook(Some(&content)), Uninstalled::Removed));
        assert!(matches!(uninstall_hook(None), Uninstalled::Untouched));
    }
}

#[test]
fn uninstall_removes_a_blank_rest() {
    assert!(matches!(uninstall_hook(Some("# git-embed\nx\n")), Uninstalled::Removed));
    assert!(matches!(
        uninstall_hook(Some(" \t\n\u{3000}\n#!/bin/sh \r\n# git-embed\nx\n")),
        Uninstalled::Removed
    ));
    // The marker may stand within a line, where no section starts.
    assert!(matches!(uninstall_hook(Some("echo # git-embed\r\n")), Uninstalled::Untouched));
}

#[test]
fn a_marker_within_a_line_is_no_section() {
    let other = "#!/bin/sh\necho '# git-embed'\n";
    let (kind, content) = install_hook(Some(other), "update");
    assert_eq!(kind, Installed::Appended);
    assert_eq!(content, format!("{}\n{}", other, hook_snippet("update")));
    let (kind, again) = install_hook(Some(&content), "update");
    assert_eq!(kind, Installed::Updated);
    assert_eq!(again, content);
    match uninstall_hook(Some(&content)) {
        Uninstalled::Cleaned(rest) => assert_eq!(rest, format!("{}\n", other)),
        _ => panic!("the other lines should stay"),
    }
    assert!(hooks_installed(&vec![Some(other.to_string()), None, None]).is_empty());
}

#[test]
fn content_behind_an_updated_section_stays() {
    let existing = format!("#!/bin/sh\n{}\necho 'after'\n", hook_snippet("old"));
    let expected = format!("#!/bin/sh\n{}\necho 'after'\n", hook_snippet("update"));
    let (kind, once) = install_hook(Some(&existing), "update");
    assert_eq!(kind, Installed::Updated);
    assert_eq!(once, expected);
    let mut content = once;
    for _ in 0..3 {
        content = install_hook(Some(&content), "update").1;
        assert_eq!(content, expected);
    }
    match uninstall_hook(Some(&content)) {
        Uninstalled::Cleaned(rest) => assert_eq!(rest, "#!/bin/sh\necho 'after'\n"),
        _ => panic!("the other lines should stay"),
    }
}

#[test]
fn carriage_returns_stay() {
    let (_, once) = install_hook(Some("a\r\r\nb\r"), "update");
    assert_eq!(once, format!("a\r\r\nb\r\n\n{}", hook_snippet("update")));
    let mut content = once.clone();
    for _ in 0..3 {
        content = install_hook(Some(&content), "update").1;
        assert_eq!(content, once);
    }
    match uninstall_hook(Some(&content)) {
        Uninstalled::Cleaned(rest) => assert_eq!(rest, "a\r\r\nb\r\n\n"),
        _ => panic!("the other lines should stay"),
    }
}

#[test]
fn uninstalling_after_an_update_is_uninstalling() {
    for existing in [
        format!("echo 'a'\r\n{}\r\necho 'b'", hook_snippet("old")),
        format!("{}\nx\n{}", hook_snippet("old"), hook_snippet("older")),
        format!("#!/bin/sh\n{}", hook_snippet("old")),
    ] {
        let (kind, updated) = install_hook(Some(&existing), "update");
        assert_eq!(kind, Installed::Updated);
        assert_eq!(remove_hook_section(&updated), remove_hook_section(&existing));
        assert_eq!(updated.matches(HOOK_MARKER).count(), 1);
    }
}

#[test]
fn messages() {
    assert_eq!(Installed::Created.message("post-merge"), "  Created post-merge");
    assert_eq!(Installed::Updated.message("post-merge"), "  Updated post-merge");
    assert_eq!(Installed::Appended.message("x"), "  Appended to existing x");
    assert_eq!(Uninstalled::Untouched.message("x"), None);
    assert_eq!(Uninstalled::Removed.message("x").unwrap(), "  Removed x");
    assert_eq!(
        Uninstalled::Cleaned(String::new()).message("x").unwrap(),
        "  Cleaned git-embed section from x"
    );
    assert_eq!(uninstall_summary(0), "No git-embed hooks found.");
    assert_eq!(uninstall_summary(2), "Hooks removed.");
}

#[test]
fn status_of_the_hooks() {
    let on = Some(format!("#!/bin/sh\n{}", hook_snippet("update")));
    let off = Some("#!/bin/sh\n".to_string());
    let all = vec![on.clone(), on.clone(), on.clone()];
    assert_eq!(
        hooks_status(&all),
        "Hooks:   installed (post-commit, post-merge, post-checkout)"
    );
    assert_eq!(
        hooks_status(&vec![None, off.clone(), None]),
        "Hooks:   not installed (run `git embed install`)"
    );
    let some = vec![off, on, None];
    assert_eq!(hooks_status(&some), "Hooks:   partial (missing: post-commit, post-checkout)");
    assert_eq!(hooks_installed(&some), vec!["post-merge"]);
}
