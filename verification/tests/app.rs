use gitshrub::app::{
    add_remote_enabled, default_remote_index, push_sets_upstream,
    annotate_reflog, branch_commit_index, cherry_pick_dialog_entries, max_author_chars, move_entry,
    parse_args, picked_shas, startup_title, window_title, CliArgs,
};
use gitshrub::git::{Commit, RebaseAction, RebaseEntry};
use gitshrub::text::{chars_of, trim_str};
use gitshrub::ui::{diff_line_kind, ref_label, DiffLineKind, RefKind};

fn commit(sha: &str, author: &str, refs: &[&str]) -> Commit {
    Commit {
        full_sha: sha.to_string(),
        short_sha: sha[..1].to_string(),
        parents: Vec::new(),
        author_name: author.to_string(),
        author_email: String::new(),
        date: String::new(),
        subject: format!("subject {}", sha),
        body: String::new(),
        refs: refs.iter().map(|r| r.to_string()).collect(),
    }
}

fn args(v: &[&str]) -> Vec<String> {
    v.iter().map(|x| x.to_string()).collect()
}

#[test]
fn window_titles() {
    assert_eq!(window_title("repo", None, "main", None, false), "GitShrub - repo [main]");
    assert_eq!(window_title("repo", Some("v1"), "main", None, false), "GitShrub - repo [v1]");
    assert_eq!(window_title("repo", None, "main", None, true), "GitShrub - repo (all branches)");
    assert_eq!(
        window_title("repo", None, "main", Some("src"), false),
        "GitShrub - repo - src [main]"
    );
    assert_eq!(
        window_title("repo", None, "main", Some("src"), true),
        "GitShrub - repo - src (all branches)"
    );
    assert_eq!(startup_title("repo", None, false), "GitShrub - repo");
    assert_eq!(startup_title("repo", Some("a.rs"), true), "GitShrub - repo - a.rs (all branches)");
}

#[test]
fn author_column_width() {
    assert_eq!(max_author_chars(&[]), 8);
    assert_eq!(max_author_chars(&[commit("a", "Bo", &[])]), 8);
    assert_eq!(max_author_chars(&[commit("a", "Jane Q. Doe", &[]), commit("b", "Bo", &[])]), 11);
    // Lengths are in bytes: "Jürgen Straße" is 15 bytes.
    assert_eq!(max_author_chars(&[commit("a", "Jürgen Straße", &[])]), 15);
    let long = "x".repeat(100);
    assert_eq!(max_author_chars(&[commit("a", &long, &[])]), 40);
}

#[test]
fn reflog_labels_become_refs() {
    let mut commits = vec![commit("a", "x", &["main"]), commit("b", "x", &[])];
    annotate_reflog(&mut commits, &[("b".to_string(), "HEAD@{1} reset".to_string())]);
    assert_eq!(commits[0].refs, vec!["main".to_string()]);
    assert_eq!(commits[1].refs, vec!["HEAD@{1} reset".to_string()]);
}

#[test]
fn branch_commit_lookup() {
    let commits = vec![commit("a", "x", &["origin/main"]), commit("b", "x", &["dev", "main"])];
    assert_eq!(branch_commit_index(&commits, &"main".to_string()), Some(1));
    assert_eq!(branch_commit_index(&commits, &"other".to_string()), None);
}

#[test]
fn cherry_pick_dialog_is_oldest_first() {
    let commits = vec![commit("a", "x", &[]), commit("b", "x", &[]), commit("c", "x", &[])];
    assert!(cherry_pick_dialog_entries(&commits, &[]).is_none());
    let entries = cherry_pick_dialog_entries(&commits, &[0, 2, 7]).unwrap();
    let shas: Vec<&str> = entries.iter().map(|e| e.sha.as_str()).collect();
    assert_eq!(shas, vec!["c", "a"]);
    assert!(entries.iter().all(|e| e.action == RebaseAction::Pick));
    assert_eq!(entries[0].subject, "subject c");
}

fn entry(sha: &str, action: RebaseAction) -> RebaseEntry {
    RebaseEntry { sha: sha.to_string(), short_sha: sha.to_string(), subject: String::new(), action }
}

#[test]
fn only_picked_entries_are_applied() {
    let entries = vec![
        entry("a", RebaseAction::Pick),
        entry("b", RebaseAction::Drop),
        entry("c", RebaseAction::Pick),
    ];
    assert_eq!(picked_shas(&entries), args(&["a", "c"]));
    assert!(picked_shas(&[]).is_empty());
}

#[test]
fn drag_and_drop_reorders() {
    let mut entries = vec![
        entry("a", RebaseAction::Pick),
        entry("b", RebaseAction::Pick),
        entry("c", RebaseAction::Pick),
    ];
    move_entry(&mut entries, 0, 2);
    let shas: Vec<&str> = entries.iter().map(|e| e.sha.as_str()).collect();
    assert_eq!(shas, vec!["b", "c", "a"]);
    move_entry(&mut entries, 2, 0);
    let shas: Vec<&str> = entries.iter().map(|e| e.sha.as_str()).collect();
    assert_eq!(shas, vec!["a", "b", "c"]);
}

#[test]
fn command_line() {
    assert_eq!(parse_args(&[]), CliArgs::Run { show_all: false, path_filter: None });
    assert_eq!(
        parse_args(&args(&["--all", "src", "lib"])),
        CliArgs::Run { show_all: true, path_filter: Some("lib".to_string()) }
    );
    assert_eq!(parse_args(&args(&["a", "-h", "--bogus"])), CliArgs::Help);
    assert_eq!(parse_args(&args(&["--bogus", "--help"])), CliArgs::UnknownOption("--bogus".to_string()));
}

#[test]
fn ref_labels() {
    let l = ref_label("tag: v1.0");
    assert_eq!((l.text.as_str(), l.kind), ("<v1.0>", RefKind::Tag));
    let l = ref_label("tag: tag: x");
    assert_eq!(l.text, "<x>");
    let l = ref_label("origin/main");
    assert_eq!((l.text.as_str(), l.kind), ("[origin/main]", RefKind::RemoteBranch));
    let l = ref_label("main");
    assert_eq!((l.text.as_str(), l.kind), ("[main]", RefKind::LocalBranch));
}

#[test]
fn diff_line_kinds() {
    assert_eq!(diff_line_kind("diff --git a/x b/x"), DiffLineKind::FileHeader);
    assert_eq!(diff_line_kind("--- a/x"), DiffLineKind::FileMarker);
    assert_eq!(diff_line_kind("+++ b/x"), DiffLineKind::FileMarker);
    assert_eq!(diff_line_kind("@@ -1 +1 @@"), DiffLineKind::Hunk);
    assert_eq!(diff_line_kind("+added"), DiffLineKind::Added);
    assert_eq!(diff_line_kind("-removed"), DiffLineKind::Removed);
    assert_eq!(diff_line_kind("index 123..456"), DiffLineKind::Meta);
    assert_eq!(diff_line_kind("new file mode 100644"), DiffLineKind::Meta);
    assert_eq!(diff_line_kind("deleted file mode 100644"), DiffLineKind::Meta);
    assert_eq!(diff_line_kind(" context"), DiffLineKind::Context);
    assert_eq!(diff_line_kind(""), DiffLineKind::Context);
}

#[test]
fn trimming_uses_unicode_white_space() {
    assert_eq!(trim_str("\u{3000} a b\u{85}\t"), "a b");
    assert_eq!(trim_str("   "), "");
    assert_eq!(chars_of("añb"), vec!['a', 'ñ', 'b']);
}

#[test]
fn push_dialog_defaults() {
    let remotes = vec!["upstream".to_string(), "origin".to_string(), "fork".to_string()];
    assert_eq!(default_remote_index(&remotes, Some("fork/main")), 2);
    assert_eq!(default_remote_index(&remotes, Some("upstream")), 0);
    assert_eq!(default_remote_index(&remotes, Some("gone/main")), 0);
    assert_eq!(default_remote_index(&remotes, None), 1);
    assert_eq!(default_remote_index(&remotes[..1], None), 0);
    assert_eq!(default_remote_index(&[], Some("origin/x")), 0);
    assert!(push_sets_upstream(false, "main", "main"));
    assert!(!push_sets_upstream(true, "main", "main"));
    assert!(!push_sets_upstream(false, "main", "other"));
}

#[test]
fn add_remote_needs_url_and_name() {
    assert!(add_remote_enabled(" git@x:y.git ", "y"));
    assert!(!add_remote_enabled("  ", "y"));
    assert!(!add_remote_enabled("url", "\t"));
}
