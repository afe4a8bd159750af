use gitshrub::ui::file_header_line;
use gitshrub::git::{
    abort_op, checkout_branch, cherry_pick, cherry_pick_multiple, continue_op, create_branch,
    current_branch, current_branch_args, delete_branch, detect_in_progress_op, diff_files_args,
    diff_patch_args, format_date, git_dir_path, git_failure, is_root_commit, is_root_commit_args,
    load_commits, load_commits_args, load_diff, load_rebase_commits, load_rebase_commits_args,
    load_reflog_orphans, local_branch_probe, local_ref_probe, parse_log, parse_refs, rebase, rebase_interactive_args,
    rebase_interactive_result, rebase_todo, repo_root, reset_hard, reset_mixed, revert_commit,
    verify_repo, CherryPickStep, GitDirMarkers, InProgressOp, RebaseAction, RebaseEntry, RepoCheck,
};

fn s(v: &[&str]) -> Vec<String> {
    v.iter().map(|x| x.to_string()).collect()
}

fn record(fields: &[&str]) -> String {
    let mut r = fields.join("\0");
    r.push('\x01');
    r
}

#[test]
fn parses_log_records() {
    let out = format!(
        "{}\n{}\n",
        record(&[
            "aaaa1111", "aaaa", "bbbb2222 cccc3333", "Jane Doe", "jane@x.org",
            "2024-01-15 12:34:56 +0100", "Merge branch", "body text\n", "HEAD -> master, origin/master, tag: v1.0",
        ]),
        record(&["bbbb2222", "bbbb", "", "Jon", "jon@x.org", "2024-01-14 08:00:00 +0000", "Initial", "", ""]),
    );
    let commits = parse_log(&out);
    assert_eq!(commits.len(), 2);
    let c = &commits[0];
    assert_eq!(c.full_sha, "aaaa1111");
    assert_eq!(c.short_sha, "aaaa");
    assert_eq!(c.parents, s(&["bbbb2222", "cccc3333"]));
    assert_eq!(c.author_name, "Jane Doe");
    assert_eq!(c.author_email, "jane@x.org");
    assert_eq!(c.date, "2024-01-15 12:34:56");
    assert_eq!(c.subject, "Merge branch");
    assert_eq!(c.body, "body text");
    assert_eq!(c.refs, s(&["master", "origin/master", "tag: v1.0"]));
    let d = &commits[1];
    assert_eq!(d.full_sha, "bbbb2222");
    assert!(d.parents.is_empty());
    assert!(d.refs.is_empty());
    assert_eq!(d.body, "");
}

#[test]
fn skips_short_and_blank_records() {
    let out = format!("  \n\x01only\0three\0fields\x01{}", record(&["a", "b", "", "n", "e", "d", "s", "b"]));
    let commits = parse_log(&out);
    assert_eq!(commits.len(), 1);
    assert_eq!(commits[0].full_sha, "a");
    assert_eq!(commits[0].date, "d");
    assert!(commits[0].refs.is_empty());
}

#[test]
fn load_commits_outcomes() {
    let ok = load_commits(Ok(record(&["a", "b", "p", "n", "e", "d x", "s", "b"]))).unwrap();
    assert_eq!(ok.len(), 1);
    assert_eq!(ok[0].parents, s(&["p"]));
    let empty = load_commits(Err(
        "git log failed: fatal: your current branch 'main' does not have any commits yet".to_string(),
    ));
    assert!(empty.unwrap().is_empty());
    let bad = load_commits(Err("git log failed: fatal: bad default revision 'HEAD'".to_string()));
    assert!(bad.unwrap().is_empty());
    let err = load_commits(Err("git log failed: fatal: not a git repository".to_string()));
    assert_eq!(err.unwrap_err(), "git log failed: fatal: not a git repository");
}

#[test]
fn log_arguments() {
    let fmt = "--format=%H%x00%h%x00%P%x00%an%x00%ae%x00%ai%x00%s%x00%b%x00%D%x01";
    assert_eq!(load_commits_args(false, None, None, &[]), s(&["log", fmt, "--topo-order"]));
    assert_eq!(
        load_commits_args(true, Some("dev"), Some("src/main.rs"), &s(&["x1", "x2"])),
        s(&["log", fmt, "--topo-order", "--all", "dev", "x1", "x2", "--", "src/main.rs"])
    );
}

#[test]
fn decorations() {
    assert_eq!(
        parse_refs("HEAD -> master, origin/master, tag: v1.0, origin/HEAD"),
        s(&["master", "origin/master", "tag: v1.0"])
    );
    assert_eq!(parse_refs(""), Vec::<String>::new());
    assert_eq!(parse_refs(" , HEAD, main "), s(&["HEAD", "main"]));
}

#[test]
fn dates_lose_their_time_zone() {
    assert_eq!(format_date("2024-01-15 12:34:56 +0100"), "2024-01-15 12:34:56");
    assert_eq!(format_date("2024-01-15"), "2024-01-15");
    assert_eq!(format_date(""), "");
}

#[test]
fn current_branch_outcomes() {
    assert_eq!(current_branch_args(), s(&["symbolic-ref", "--short", "HEAD"]));
    assert_eq!(current_branch(Ok(" main\n".to_string())), Ok("main".to_string()));
    assert_eq!(current_branch(Ok("\n".to_string())), Err("Detached HEAD".to_string()));
    assert_eq!(current_branch(Err("boom".to_string())), Err("boom".to_string()));
}

#[test]
fn checkout_of_local_and_remote_branches() {
    assert_eq!(local_branch_probe("main"), None);
    assert_eq!(
        local_branch_probe("origin/feature/x"),
        Some(s(&["show-ref", "--verify", "--quiet", "refs/heads/x"]))
    );
    assert_eq!(
        local_ref_probe("feature/x"),
        s(&["show-ref", "--verify", "--quiet", "refs/heads/feature/x"])
    );
    assert_eq!(checkout_branch("main", true, false), s(&["checkout", "main"]));
    assert_eq!(checkout_branch("main", false, false), s(&["checkout", "main"]));
    // A local branch with a slash in its name is checked out as it is.
    assert_eq!(checkout_branch("feature/x", true, false), s(&["checkout", "feature/x"]));
    assert_eq!(checkout_branch("origin/foo", false, true), s(&["checkout", "foo"]));
    assert_eq!(checkout_branch("origin/foo", false, false), s(&["checkout", "--track", "origin/foo"]));
}

#[test]
fn branch_and_commit_commands() {
    assert_eq!(delete_branch("b"), s(&["branch", "-D", "b"]));
    assert_eq!(create_branch("n", "abc"), s(&["branch", "n", "abc"]));
    assert_eq!(reset_mixed("abc"), s(&["reset", "--mixed", "abc"]));
    assert_eq!(reset_hard("abc"), s(&["reset", "--hard", "abc"]));
    assert_eq!(revert_commit("abc"), s(&["revert", "--no-edit", "abc"]));
    assert_eq!(cherry_pick("abc"), s(&["cherry-pick", "abc"]));
    assert_eq!(rebase("abc"), s(&["rebase", "abc"]));
    assert_eq!(rebase_interactive_args("abc"), s(&["rebase", "-i", "abc"]));
}

#[test]
fn failure_messages() {
    assert_eq!(
        git_failure(&s(&["branch", "-D", "x"]), "  error: branch 'x' not found.\n"),
        "git branch -D x failed: error: branch 'x' not found."
    );
    assert_eq!(git_failure(&[], ""), "git  failed: ");
}

#[test]
fn root_commits() {
    assert_eq!(is_root_commit_args("abc"), s(&["log", "-1", "--format=%P", "abc"]));
    assert!(is_root_commit(Ok("\n".to_string())));
    assert!(!is_root_commit(Ok("def\n".to_string())));
    assert!(!is_root_commit(Err("x".to_string())));
    assert_eq!(
        diff_files_args(true, "a"),
        s(&["diff-tree", "--root", "--no-commit-id", "-r", "--name-only", "a"])
    );
    assert_eq!(diff_files_args(false, "a"), s(&["diff-tree", "--no-commit-id", "-r", "--name-only", "a"]));
    assert_eq!(diff_patch_args(true, "a"), s(&["diff-tree", "--root", "-p", "--stat", "a"]));
    assert_eq!(diff_patch_args(false, "a"), s(&["diff-tree", "-p", "--stat", "a"]));
}

#[test]
fn diffs_are_indexed_by_file() {
    let raw = "abc123\n\n src/a.rs | 2 +-\ndiff --git a/src/a.rs b/src/a.rs\n-x\n+y\ndiff --git a/b b/c b/d\n+z\n";
    let d = load_diff("abc123", "src/a.rs\n\nc b/d\n", raw);
    assert_eq!(d.files, s(&["src/a.rs", "c b/d"]));
    assert_eq!(
        d.lines,
        s(&[" src/a.rs | 2 +-", "diff --git a/src/a.rs b/src/a.rs", "-x", "+y", "diff --git a/b b/c b/d", "+z"])
    );
    assert_eq!(d.file_header_lines, vec![("src/a.rs".to_string(), 1), ("d".to_string(), 4)]);
}

#[test]
fn diff_sha_line_is_stripped_by_hex_shape() {
    // The output names a short SHA, not the one asked for.
    let d = load_diff("abcdef0123", "", "abcdef\n\nbody\n");
    assert_eq!(d.lines, s(&["body"]));
    // A carriage return makes the first line no SHA.
    let d = load_diff("abcdef0123", "", "abcdef\r\nbody\n");
    assert_eq!(d.lines, s(&["abcdef", "body"]));
    // A first line that is not a SHA stays.
    let d = load_diff("zz", "", "not a sha\nbody");
    assert_eq!(d.lines, s(&["not a sha", "body"]));
    assert!(d.files.is_empty());
    assert!(d.file_header_lines.is_empty());
}

#[test]
fn reflog_keeps_first_label_per_sha() {
    let out = "aaa\0HEAD@{0}\0commit (amend): fix typo\x01\nbbb\0HEAD@{1}\0checkout: moving\x01\naaa\0HEAD@{2}\0commit: older\x01\nccc\0HEAD@{3}\0reset\x01\nshort\0x\x01";
    let (shas, labels) = load_reflog_orphans(out, &Vec::new());
    assert_eq!(shas, s(&["aaa", "bbb", "ccc"]));
    assert_eq!(
        labels,
        vec![
            ("aaa".to_string(), "HEAD@{0} commit (amend)".to_string()),
            ("bbb".to_string(), "HEAD@{1} checkout".to_string()),
            ("ccc".to_string(), "HEAD@{3} reset".to_string()),
        ]
    );
}

#[test]
fn rebase_commit_list() {
    assert_eq!(
        load_rebase_commits_args("base"),
        s(&["log", "--reverse", "--topo-order", "--format=%H%x00%h%x00%s", "base..HEAD"])
    );
    let entries = load_rebase_commits("a1\0a\0First\n\nb2\0b\0Second\nbad\n").unwrap();
    assert_eq!(entries.len(), 2);
    assert_eq!(entries[0].sha, "a1");
    assert_eq!(entries[0].short_sha, "a");
    assert_eq!(entries[0].subject, "First");
    assert_eq!(entries[0].action, RebaseAction::Pick);
    assert_eq!(entries[1].subject, "Second");
    assert_eq!(
        load_rebase_commits("\n").unwrap_err(),
        "No commits to rebase (HEAD is already at or behind the base)."
    );
}

#[test]
fn rebase_todo_script() {
    let e = |sha: &str, subject: &str, action| RebaseEntry {
        sha: sha.to_string(),
        short_sha: sha[..1].to_string(),
        subject: subject.to_string(),
        action,
    };
    let todo = rebase_todo(&[e("a1", "First", RebaseAction::Pick), e("b2", "Second", RebaseAction::Fixup)]);
    assert_eq!(todo, "pick a First\nfixup b Second\n");
    assert_eq!(rebase_todo(&[]), "");
}

#[test]
fn rebase_outcomes() {
    assert_eq!(rebase_interactive_result(true, " done \n", ""), Ok("done".to_string()));
    assert_eq!(
        rebase_interactive_result(false, "", "error: could not apply abc\n"),
        Err("Rebase paused due to conflicts. error: could not apply abc".to_string())
    );
    assert_eq!(
        rebase_interactive_result(false, "CONFLICT (content)", "x"),
        Err("git rebase -i failed: x".to_string())
    );
    assert_eq!(
        rebase_interactive_result(false, "could not apply", "y"),
        Err("Rebase paused due to conflicts. y".to_string())
    );
}

#[test]
fn rebase_actions() {
    let keywords: Vec<&str> = RebaseAction::ALL.iter().map(|a| a.keyword()).collect();
    assert_eq!(keywords, vec!["pick", "reword", "edit", "squash", "fixup", "drop"]);
    let labels: Vec<&str> = RebaseAction::ALL.iter().map(|a| a.label()).collect();
    assert_eq!(labels, vec!["Pick", "Reword", "Edit", "Squash", "Fixup", "Drop"]);
    for a in RebaseAction::ALL {
        assert_eq!(a.keyword(), a.label().to_lowercase());
    }
}

#[test]
fn operations_in_progress() {
    let none = GitDirMarkers {
        rebase_merge: false,
        rebase_apply: false,
        cherry_pick_head: false,
        merge_head: false,
        bisect_log: false,
        revert_head: false,
    };
    assert_eq!(detect_in_progress_op(&none), None);
    let all = GitDirMarkers {
        rebase_merge: false,
        rebase_apply: true,
        cherry_pick_head: true,
        merge_head: true,
        bisect_log: true,
        revert_head: true,
    };
    assert_eq!(detect_in_progress_op(&all), Some(InProgressOp::Rebase));
    let merge = GitDirMarkers { merge_head: true, revert_head: true, ..none };
    assert_eq!(detect_in_progress_op(&merge), Some(InProgressOp::Merge));
    let revert = GitDirMarkers { revert_head: true, ..none };
    assert_eq!(detect_in_progress_op(&revert), Some(InProgressOp::Revert));

    assert_eq!(InProgressOp::CherryPick.label(), "Cherry-pick");
    assert_eq!(InProgressOp::Bisect.abort_label(), "Reset bisect");
    assert_eq!(InProgressOp::Merge.continue_label(), "Continue");
    assert_eq!(InProgressOp::Revert.continue_label(), "Continue revert");
    assert!(InProgressOp::Rebase.supports_continue());
    assert!(!InProgressOp::Merge.supports_continue());
    assert_eq!(abort_op(&InProgressOp::Bisect), s(&["bisect", "reset"]));
    assert_eq!(abort_op(&InProgressOp::Merge), s(&["merge", "--abort"]));
    assert_eq!(continue_op(&InProgressOp::CherryPick), Ok(s(&["cherry-pick", "--continue"])));
    assert_eq!(
        continue_op(&InProgressOp::Merge),
        Err("Merge does not support --continue".to_string())
    );
    for op in [
        InProgressOp::Rebase,
        InProgressOp::CherryPick,
        InProgressOp::Merge,
        InProgressOp::Bisect,
        InProgressOp::Revert,
    ] {
        assert_eq!(continue_op(&op).is_ok(), op.supports_continue());
    }
}

#[test]
fn git_dir_paths() {
    assert_eq!(git_dir_path("/r", "/abs/.git", true), "/abs/.git");
    assert_eq!(git_dir_path("/r", ".git", false), "/r/.git");
    assert_eq!(repo_root(" /home/u/r \n"), Ok("/home/u/r".to_string()));
    assert_eq!(repo_root("\n"), Err("Could not determine repository root".to_string()));
}

#[test]
fn cherry_picks_run_in_order_and_stop_at_failure() {
    let shas = s(&["a", "b", "c"]);
    match cherry_pick_multiple(&shas, &[]) {
        CherryPickStep::Run(args) => assert_eq!(args, s(&["cherry-pick", "a"])),
        other => panic!("{:?}", other),
    }
    let ok = |x: &str| Ok::<String, String>(x.to_string());
    match cherry_pick_multiple(&shas, &[ok(""), ok("")]) {
        CherryPickStep::Run(args) => assert_eq!(args, s(&["cherry-pick", "c"])),
        other => panic!("{:?}", other),
    }
    match cherry_pick_multiple(&shas, &[ok(""), ok(""), ok("")]) {
        CherryPickStep::Done(r) => assert_eq!(r, Ok(3)),
        other => panic!("{:?}", other),
    }
    match cherry_pick_multiple(&shas, &[ok(""), Err("conflict".to_string())]) {
        CherryPickStep::Done(r) => assert_eq!(r, Err((1, "conflict".to_string()))),
        other => panic!("{:?}", other),
    }
    match cherry_pick_multiple(&[], &[]) {
        CherryPickStep::Done(r) => assert_eq!(r, Ok(0)),
        other => panic!("{:?}", other),
    }
}

#[test]
fn clicking_a_file_jumps_to_its_header() {
    let raw = "abc123\ndiff --git a/src/a.rs b/src/a.rs\n-x\n+y\ndiff --git a/b b/c b/d\n+z\n";
    let d = load_diff("abc123", "src/a.rs\nc b/d\n", raw);
    assert_eq!(file_header_line(&d.file_header_lines, "src/a.rs"), Some(0));
    assert_eq!(file_header_line(&d.file_header_lines, "d"), Some(3));
    assert!(d.lines[3].starts_with("diff --git"));
    assert_eq!(file_header_line(&d.file_header_lines, "c b/d"), None);
    assert_eq!(file_header_line(&d.file_header_lines, "missing"), None);
    // The first entry for a path wins.
    let headers = vec![("x".to_string(), 2), ("x".to_string(), 7)];
    assert_eq!(file_header_line(&headers, "x"), Some(2));
}

#[test]
fn reflog_orphans_skip_reachable_shas() {
    let out = "aaa\0HEAD@{0}\0commit: new\x01\nbbb\0HEAD@{1}\0checkout: moving\x01\nccc\0HEAD@{2}\0reset: moving\x01\naaa\0HEAD@{3}\0commit: old\x01";
    let (shas, labels) = load_reflog_orphans(out, &s(&["aaa", "zzz"]));
    assert_eq!(shas, s(&["bbb", "ccc"]));
    assert_eq!(
        labels,
        vec![
            ("bbb".to_string(), "HEAD@{1} checkout".to_string()),
            ("ccc".to_string(), "HEAD@{2} reset".to_string()),
        ]
    );
    let (shas, labels) = load_reflog_orphans(out, &s(&["aaa", "bbb", "ccc"]));
    assert!(shas.is_empty());
    assert!(labels.is_empty());
}

fn done(c: RepoCheck) -> Result<String, String> {
    match c {
        RepoCheck::Done(r) => r,
        RepoCheck::RunGit(a) => panic!("expected a result, got a run of {:?}", a),
    }
}

#[test]
fn verifying_a_repository() {
    assert_eq!(
        done(verify_repo("/nope", false, &None)),
        Err("Path does not exist: /nope".to_string())
    );
    match verify_repo("/r", true, &None) {
        RepoCheck::RunGit(a) => assert_eq!(a, s(&["rev-parse", "--show-toplevel"])),
        RepoCheck::Done(r) => panic!("expected a run, got {:?}", r),
    }
    assert_eq!(
        done(verify_repo("/r", true, &Some(Err("not found".to_string())))),
        Err("Failed to execute git: not found".to_string())
    );
    assert_eq!(
        done(verify_repo("/r", true, &Some(Ok((false, String::new()))))),
        Err("Not a git repository (or any parent up to mount point /)".to_string())
    );
    assert_eq!(
        done(verify_repo("/r", true, &Some(Ok((true, "  \n".to_string()))))),
        Err("Could not determine repository root".to_string())
    );
    assert_eq!(
        done(verify_repo("/r/sub", true, &Some(Ok((true, "/r\n".to_string()))))),
        Ok("/r".to_string())
    );
}
