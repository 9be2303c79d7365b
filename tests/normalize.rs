use git_hooks::{capitalize, normalize_commit_message, CommitError};

#[test]
fn rejects_empty() {
    let r = normalize_commit_message("");
    assert_eq!(r, Err(CommitError::Empty));
}

#[test]
fn accepts_minimal_valid() {
    let r = normalize_commit_message("feat: ok");
    assert_eq!(r.unwrap(), "feat: ok\n");
}

#[test]
fn allows_scope_form() {
    let r = normalize_commit_message("fix(auth): bug");
    assert_eq!(r.unwrap(), "fix(auth): bug\n");
}

#[test]
fn lowercases_accidental_capital() {
    let r = normalize_commit_message("Feat: title");
    assert_eq!(r.unwrap(), "feat: title\n");
}

#[test]
fn strips_comments_and_blanks() {
    let raw = "\n# this is a comment\nfeat: header\nbody line\n# another comment\n";
    let out = normalize_commit_message(raw).unwrap();
    assert_eq!(out, "feat: header\n\nbody line\n");
}

#[test]
fn enforces_single_blank_line_after_subject() {
    let raw = "feat: header\nstuff\n";
    let out = normalize_commit_message(raw).unwrap();
    assert_eq!(out, "feat: header\n\nstuff\n");
}

#[test]
fn idempotent_clean() {
    let raw = "feat: header\n\nbody\n";
    let once = normalize_commit_message(raw).unwrap();
    let twice = normalize_commit_message(&once).unwrap();
    assert_eq!(once, twice);
}

#[test]
fn comments_only_is_empty() {
    let raw = "# hi\n# there\n  # indented\n";
    let res = normalize_commit_message(raw);
    assert_eq!(res, Err(CommitError::Empty));
}

#[test]
fn windows_newlines_normalized() {
    let raw = "feat: header\r\n\r\nbody\r\n";
    let out = normalize_commit_message(raw).unwrap();
    assert_eq!(out, "feat: header\n\nbody\n");
}

#[test]
fn rejects_unlisted_type() {
    assert_eq!(normalize_commit_message("oops: nope"), Err(CommitError::InvalidFormat));
}

#[test]
fn rejects_all_caps_type() {
    assert_eq!(normalize_commit_message("FEAT: loud"), Err(CommitError::InvalidFormat));
}

#[test]
fn rejects_type_without_colon_or_scope() {
    assert_eq!(normalize_commit_message("feat add thing"), Err(CommitError::InvalidFormat));
    assert_eq!(normalize_commit_message("feat"), Err(CommitError::InvalidFormat));
}

#[test]
fn blank_only_is_empty() {
    assert_eq!(normalize_commit_message("  \n\t\n\r\n"), Err(CommitError::Empty));
}

#[test]
fn keeps_leading_whitespace_of_unrepaired_header() {
    let out = normalize_commit_message("  feat: x  \n").unwrap();
    assert_eq!(out, "  feat: x\n");
}

#[test]
fn repaired_header_loses_leading_whitespace() {
    let out = normalize_commit_message("  Fix(core): y\nbody").unwrap();
    assert_eq!(out, "fix(core): y\n\nbody\n");
}

#[test]
fn repairs_every_listed_type() {
    let pairs = [
        ("Build: a", "build: a\n"),
        ("Chore: a", "chore: a\n"),
        ("Ci(x): a", "ci(x): a\n"),
        ("Docs: a", "docs: a\n"),
        ("Perf: a", "perf: a\n"),
        ("Refactor: a", "refactor: a\n"),
        ("Revert: a", "revert: a\n"),
        ("Style: a", "style: a\n"),
        ("Test: a", "test: a\n"),
    ];
    for (raw, want) in pairs {
        assert_eq!(normalize_commit_message(raw).unwrap(), want);
    }
}

#[test]
fn existing_blank_run_after_header_is_kept() {
    let out = normalize_commit_message("feat: h\n\n\nbody\n\n\n").unwrap();
    assert_eq!(out, "feat: h\n\n\nbody\n");
}

#[test]
fn unicode_whitespace_is_trimmed() {
    let out = normalize_commit_message("feat: h\u{3000}\n\u{a0}\nbody\u{2003}").unwrap();
    assert_eq!(out, "feat: h\n\nbody\n");
}

#[test]
fn lone_carriage_returns_are_trimmed() {
    let out = normalize_commit_message("docs: a\r\r\nb\r").unwrap();
    assert_eq!(out, "docs: a\n\nb\n");
}

#[test]
fn output_ends_with_one_newline() {
    for raw in ["feat: a", "feat: a\n\n\n", "chore(x): b\nc\n\n# d\n"] {
        let out = normalize_commit_message(raw).unwrap();
        assert!(out.ends_with('\n'));
        assert!(!out.ends_with("\n\n"));
    }
}

#[test]
fn normalizing_twice_changes_nothing() {
    for raw in ["  Feat(ui): x\r\nbody\n# c\n\nmore  \n", "ci: z\n\n\n\nw", "\n\n  test: q"] {
        let once = normalize_commit_message(raw).unwrap();
        let twice = normalize_commit_message(&once).unwrap();
        assert_eq!(once, twice);
    }
}

#[test]
fn capitalize_first_character() {
    assert_eq!(capitalize("feat"), "Feat");
    assert_eq!(capitalize(""), "");
    assert_eq!(capitalize("ßa"), "SSa");
    assert_eq!(capitalize("Ok"), "Ok");
}

#[test]
fn error_texts() {
    assert_eq!(CommitError::Empty.text(), "empty commit message");
    assert_eq!(CommitError::InvalidFormat.text(), "invalid conventional commits header");
    assert_eq!(CommitError::Io.text(), "io error");
}
