use testless::language::RepoFacts;
use testless::runner::{build_files, module_dir, runner_for};

#[test]
fn module_dir_finds_multi_module_prefix() {
    assert_eq!(
        module_dir("services/billing/src/test/java/com/foo/BarTest.java"),
        Some("services/billing".to_string())
    );
}

#[test]
fn module_dir_is_none_at_repo_root() {
    assert_eq!(module_dir("src/test/java/com/foo/BarTest.java"), None);
    assert_eq!(module_dir("src/main/java/com/foo/Bar.java"), None);
}

#[test]
fn module_dir_is_none_for_unconventional_layout() {
    assert_eq!(module_dir("java/com/foo/BarTest.java"), None);
    assert_eq!(module_dir("BarTest.java"), None);
}

#[test]
fn module_dir_prefers_the_last_src_triple() {
    // A module directory that is itself named `src` must not truncate
    // the prefix at the wrong segment.
    assert_eq!(
        module_dir("src/legacy/src/test/java/com/foo/BarTest.java"),
        Some("src/legacy".to_string())
    );
}

#[test]
fn non_java_langs_ignore_path_and_repo() {
    let repo = RepoFacts::new(None);
    assert_eq!(runner_for("ts", None, &repo, None), "vitest");
    assert_eq!(runner_for("go", None, &repo, None), "gotest");
    assert_eq!(runner_for("rust", None, &repo, None), "cargo");
    assert_eq!(runner_for("cobol", None, &repo, None), "unknown");
}

#[test]
fn java_override_wins_over_sniffing() {
    let repo = RepoFacts::new(None);
    assert_eq!(runner_for("java", None, &repo, Some("maven")), "maven");
    assert_eq!(runner_for("java", None, &repo, Some("gradle")), "gradle");
    // An unrecognized value falls through to sniffing rather than
    // silently pretending to be a runner.
    assert_eq!(runner_for("java", None, &repo, Some("bazel")), "unknown");
}

#[test]
fn java_sniffs_module_then_repo_root() {
    let mut repo = RepoFacts::new(None);
    repo.note("build.gradle");

    // Nothing in the module yet: falls back to the root's gradle build.
    let module = "services/billing";
    assert_eq!(runner_for("java", Some(module), &repo, None), "gradle");

    // A module-local pom.xml wins over the root.
    repo.note("services/billing/pom.xml");
    assert_eq!(runner_for("java", Some(module), &repo, None), "maven");
}

#[test]
fn java_with_no_build_file_is_unknown() {
    let repo = RepoFacts::new(None);
    assert_eq!(runner_for("java", None, &repo, None), "unknown");
}

#[test]
fn the_files_that_decide_are_listed() {
    assert_eq!(
        build_files("m"),
        vec!["m/pom.xml", "m/build.gradle", "m/build.gradle.kts"]
    );
    assert_eq!(
        build_files(""),
        vec!["pom.xml", "build.gradle", "build.gradle.kts"]
    );
    let mut repo = RepoFacts::new(None);
    repo.note("build.gradle.kts");
    assert_eq!(runner_for("java", Some("m"), &repo, None), "gradle");
}
