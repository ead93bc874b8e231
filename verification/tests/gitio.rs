use testless::gitio::{
    changed_files, diff_args, parse_name_status, resolved_rev, show_file, show_spec, ChangedFile,
    FileStatus, GitError, GitOutput, TempWorktree,
};

fn ok(stdout: &str) -> GitOutput {
    GitOutput {
        success: true,
        stdout: Some(stdout.to_string()),
        stderr: String::new(),
    }
}

fn failed(stderr: &str) -> GitOutput {
    GitOutput {
        success: false,
        stdout: Some(String::new()),
        stderr: stderr.to_string(),
    }
}

#[test]
fn changed_files_worktree_reports_modified_and_added() {
    let files = changed_files(&ok("M\0a.txt\0"), &Some(ok("b.txt\0"))).expect("changed_files");

    assert_eq!(files.len(), 2, "expected a.txt + b.txt, got {files:?}");
    let a = files
        .iter()
        .find(|f| f.path == "a.txt")
        .expect("a.txt present");
    assert_eq!(a.status, FileStatus::Modified);
    let b = files
        .iter()
        .find(|f| f.path == "b.txt")
        .expect("b.txt present");
    assert_eq!(b.status, FileStatus::Added);
}

#[test]
fn untracked_files_that_the_diff_lists_are_not_listed_again() {
    let files = changed_files(&ok("M\0a/b.txt\0"), &Some(ok("a/b.txt\0a/./b.txt\0"))).unwrap();
    assert_eq!(
        files,
        vec![ChangedFile {
            path: "a/b.txt".to_string(),
            status: FileStatus::Modified,
        }]
    );
}

#[test]
fn show_file_returns_content_at_rev() {
    assert_eq!(show_spec("HEAD", "a.txt"), "HEAD:a.txt");
    let content = show_file(&ok("original\n")).expect("show_file");
    assert_eq!(content, Some("original\n".to_string()));
}

#[test]
fn show_file_absent_at_rev_returns_none() {
    let content = show_file(&failed(
        "fatal: path 'b.txt' exists on disk, but not in 'HEAD'\n",
    ))
    .expect("show_file");
    assert_eq!(content, None);
}

#[test]
fn show_file_fails_for_other_reasons() {
    match show_file(&failed("fatal: invalid object name 'nope'.\n")) {
        Err(GitError::Failed(e)) => assert_eq!(e, "fatal: invalid object name 'nope'."),
        other => panic!("expected a failure, got {other:?}"),
    }
}

#[test]
fn changed_files_bad_rev_is_err() {
    let result = changed_files(&failed("fatal: bad revision 'not-a-real-rev'\n"), &None);
    match result {
        Err(GitError::Failed(e)) => assert_eq!(e, "fatal: bad revision 'not-a-real-rev'"),
        other => panic!("expected Err for bad rev, got {other:?}"),
    }
}

#[test]
fn output_that_is_not_text_is_an_error() {
    let output = GitOutput {
        success: true,
        stdout: None,
        stderr: String::new(),
    };
    assert!(matches!(
        changed_files(&output, &None),
        Err(GitError::NotUtf8)
    ));
}

#[test]
fn parse_name_status_type_change_maps_to_modified() {
    let files = parse_name_status("T\0a.txt\0").expect("parse");
    assert_eq!(
        files,
        vec![ChangedFile {
            path: "a.txt".to_string(),
            status: FileStatus::Modified,
        }]
    );
}

#[test]
fn parse_name_status_copy_maps_to_added() {
    let files = parse_name_status("C100\0orig.txt\0copy.txt\0").expect("parse");
    assert_eq!(
        files,
        vec![ChangedFile {
            path: "copy.txt".to_string(),
            status: FileStatus::Added,
        }]
    );
}

#[test]
fn parse_name_status_unmerged_is_still_an_error() {
    let result = parse_name_status("U\0conflict.txt\0");
    assert!(result.is_err(), "expected Err for U status, got {result:?}");
    match result {
        Err(GitError::Unrecognized(s)) => assert_eq!(s, "U"),
        other => panic!("expected an unrecognized status, got {other:?}"),
    }
}

#[test]
fn a_status_without_its_paths_is_an_error() {
    assert!(matches!(
        parse_name_status("M\0a.txt\0R100\0old.txt\0"),
        Err(GitError::MissingPath('R'))
    ));
    assert!(matches!(
        parse_name_status("D\0"),
        Err(GitError::MissingPath('D'))
    ));
}

#[test]
fn changed_files_rev_range_detects_rename() {
    let files =
        changed_files(&ok("R100\0a.txt\0renamed.txt\0"), &None).expect("changed_files rev-range");

    assert_eq!(files.len(), 1, "expected exactly one change, got {files:?}");
    assert_eq!(files[0].path, "renamed.txt");
    match &files[0].status {
        FileStatus::Renamed { old } => assert_eq!(old, "a.txt"),
        other => panic!("expected Renamed, got {other:?}"),
    }
}

#[test]
fn temp_worktree_bad_rev_is_err() {
    let result = resolved_rev(&failed("fatal: Needed a single revision\n"));
    assert!(result.is_err(), "expected Err for bad rev, got {result:?}");
}

#[test]
fn a_checkout_is_named_by_its_revision_and_the_process() {
    let sha = resolved_rev(&ok("0123abcd\n")).unwrap();
    let tree = TempWorktree::create("/repo", "/tmp", &sha, 42);
    assert_eq!(tree.path(), "/tmp/testless-to-0123abcd-42");
    assert_eq!(tree.repo, "/repo");
}

#[test]
fn diffs_are_asked_for_by_revision() {
    assert_eq!(
        diff_args("HEAD", None),
        vec!["diff", "--name-status", "-M", "-z", "HEAD"]
    );
    assert_eq!(
        diff_args("a", Some("b")),
        vec!["diff", "--name-status", "-M", "-z", "a", "b"]
    );
}
