//! Which test runner a selected test is handed to, and which build module it
//! is in.
use vstd::prelude::*;

use crate::java_index;
use crate::java_index::module_of;
use crate::language::RepoFacts;
use crate::paths;
use crate::paths::{join_path, render_parts};
use crate::text;
use crate::text::same;

verus! {

/// The directory of the build module that a Java file is in: what stands
/// above its `src/<set>/java`. None where that is the top of the repository,
/// or where the file is in no source root.
pub open spec fn module_dir_of(file: Seq<char>) -> Option<Seq<char>> {
    match java_index::module_parts(file) {
        Some(parts) => if parts.len() == 0 {
            None
        } else {
            Some(paths::render(parts))
        },
        None => None,
    }
}

/// The directory of the build module that a Java file is in.
pub fn module_dir(file: &str) -> (r: Option<String>)
    ensures
        text::opt_view(r) == module_dir_of(file@),
{
    match module_of(file) {
        Some(parts) => {
            assert(text::views(parts@).len() == parts@.len());
            if parts.len() == 0 {
                None
            } else {
                Some(render_parts(&parts))
            }
        },
        None => None,
    }
}

/// The build tool whose file is in the directory `dir`.
pub open spec fn tool_at(dir: Seq<char>, present: Set<Seq<char>>) -> Option<Seq<char>> {
    if present.contains(paths::joined(dir, "pom.xml"@)) {
        Some("maven"@)
    } else if present.contains(paths::joined(dir, "build.gradle"@)) || present.contains(
        paths::joined(dir, "build.gradle.kts"@),
    ) {
        Some("gradle"@)
    } else {
        None
    }
}

fn build_tool_at(dir: &str, repo: &RepoFacts) -> (r: Option<String>)
    ensures
        text::opt_view(r) == tool_at(dir@, repo@.present),
{
    if repo.has(join_path(dir, "pom.xml").as_str()) {
        Some("maven".to_owned())
    } else if repo.has(join_path(dir, "build.gradle").as_str()) || repo.has(
        join_path(dir, "build.gradle.kts").as_str(),
    ) {
        Some("gradle".to_owned())
    } else {
        None
    }
}

/// The runner of a Java test: the configured one, or else the build tool of
/// its module, or else that of the repository.
pub open spec fn java_runner(
    module: Option<Seq<char>>,
    present: Set<Seq<char>>,
    configured: Option<Seq<char>>,
) -> Seq<char> {
    if configured == Some("maven"@) {
        "maven"@
    } else if configured == Some("gradle"@) {
        "gradle"@
    } else {
        let local = match module {
            Some(m) => tool_at(m, present),
            None => None,
        };
        match local {
            Some(tool) => tool,
            None => match tool_at(Seq::empty(), present) {
                Some(tool) => tool,
                None => "unknown"@,
            },
        }
    }
}

/// The runner of a test in the language `lang`.
pub open spec fn runner(
    lang: Seq<char>,
    module: Option<Seq<char>>,
    present: Set<Seq<char>>,
    configured: Option<Seq<char>>,
) -> Seq<char> {
    if lang == "ts"@ {
        "vitest"@
    } else if lang == "go"@ {
        "gotest"@
    } else if lang == "rust"@ {
        "cargo"@
    } else if lang == "java"@ {
        java_runner(module, present, configured)
    } else {
        "unknown"@
    }
}

/// The runner of a test in the language `lang`, whose module is `module`;
/// `repo` knows of the build files there are, and `java_override` is the
/// configured runner of Java tests.
pub fn runner_for(
    lang: &str,
    module: Option<&str>,
    repo: &RepoFacts,
    java_override: Option<&str>,
) -> (r: String)
    ensures
        r@ == runner(
            lang@,
            text::opt_str_view(module),
            repo@.present,
            text::opt_str_view(java_override),
        ),
{
    if same(lang, "ts") {
        return "vitest".to_owned();
    }
    if same(lang, "go") {
        return "gotest".to_owned();
    }
    if same(lang, "rust") {
        return "cargo".to_owned();
    }
    if !same(lang, "java") {
        return "unknown".to_owned();
    }
    if let Some(tool) = java_override {
        if same(tool, "maven") {
            return "maven".to_owned();
        }
        if same(tool, "gradle") {
            return "gradle".to_owned();
        }
    }
    if let Some(m) = module {
        if let Some(tool) = build_tool_at(m, repo) {
            return tool;
        }
    }
    proof {
        reveal_strlit("");
        assert(""@ =~= Seq::empty());
    }
    match build_tool_at("", repo) {
        Some(tool) => tool,
        None => "unknown".to_owned(),
    }
}

/// The build files that decide the build tool of the directory `dir`.
pub open spec fn build_files_of(dir: Seq<char>) -> Seq<Seq<char>> {
    seq![
        paths::joined(dir, "pom.xml"@),
        paths::joined(dir, "build.gradle"@),
        paths::joined(dir, "build.gradle.kts"@),
    ]
}

/// The build files that decide the build tool of the directory `dir`.
pub fn build_files(dir: &str) -> (r: Vec<String>)
    ensures
        text::views(r@) == build_files_of(dir@),
{
    let mut out: Vec<String> = Vec::new();
    out.push(join_path(dir, "pom.xml"));
    out.push(join_path(dir, "build.gradle"));
    out.push(join_path(dir, "build.gradle.kts"));
    assert(text::views(out@) =~= build_files_of(dir@));
    out
}

/// A configured runner of Java tests wins over any build file.
pub proof fn law_configured_runner_wins(
    module: Option<Seq<char>>,
    present: Set<Seq<char>>,
    tool: Seq<char>,
)
    requires
        tool == "maven"@ || tool == "gradle"@,
    ensures
        runner("java"@, module, present, Some(tool)) == tool,
{
    reveal_strlit("java");
    reveal_strlit("ts");
    reveal_strlit("go");
    reveal_strlit("rust");
    reveal_strlit("maven");
    reveal_strlit("gradle");
    assert("java"@.len() == 4);
    assert("java"@[0] != "rust"@[0]);
}

/// A TypeScript test is run by vitest, a Go test by `go test`, a Rust test by
/// cargo.
pub proof fn law_languages_have_runners(
    module: Option<Seq<char>>,
    present: Set<Seq<char>>,
    configured: Option<Seq<char>>,
)
    ensures
        runner("ts"@, module, present, configured) == "vitest"@,
        runner("go"@, module, present, configured) == "gotest"@,
        runner("rust"@, module, present, configured) == "cargo"@,
{
    reveal_strlit("ts");
    reveal_strlit("go");
    reveal_strlit("rust");
    assert("ts"@[0] == 't' && "go"@[0] == 'g' && "rust"@[0] == 'r');
}

/// Without a configured runner the build files decide on that of a Java test:
/// those of its module first, and those at the top of the repository where
/// the module has none. A file of Maven comes before one of Gradle, in either
/// spelling.
pub proof fn law_build_files_decide(
    module: Seq<char>,
    dir: Seq<char>,
    present: Set<Seq<char>>,
    configured: Option<Seq<char>>,
)
    requires
        configured != Some("maven"@),
        configured != Some("gradle"@),
        dir == module || (dir.len() == 0 && !has_build_file(module, present)),
    ensures
        present.contains(paths::joined(dir, "pom.xml"@)) ==> runner(
            "java"@,
            Some(module),
            present,
            configured,
        ) == "maven"@,
        !present.contains(paths::joined(dir, "pom.xml"@)) && (present.contains(
            paths::joined(dir, "build.gradle"@),
        ) || present.contains(paths::joined(dir, "build.gradle.kts"@))) ==> runner(
            "java"@,
            Some(module),
            present,
            configured,
        ) == "gradle"@,
        !has_build_file(module, present) && !has_build_file(Seq::empty(), present) ==> runner(
            "java"@,
            Some(module),
            present,
            configured,
        ) == "unknown"@,
        present.contains(paths::joined(Seq::empty(), "pom.xml"@)) ==> runner(
            "java"@,
            None,
            present,
            configured,
        ) == "maven"@,
{
    reveal_strlit("java");
    reveal_strlit("ts");
    reveal_strlit("go");
    reveal_strlit("rust");
    assert("java"@[0] == 'j' && "ts"@[0] == 't' && "go"@[0] == 'g' && "rust"@[0] == 'r');
    if dir.len() == 0 {
        assert(dir =~= Seq::empty());
    }
}

/// Does the directory hold a file of a build tool?
pub open spec fn has_build_file(dir: Seq<char>, present: Set<Seq<char>>) -> bool {
    ||| present.contains(paths::joined(dir, "pom.xml"@))
    ||| present.contains(paths::joined(dir, "build.gradle"@))
    ||| present.contains(paths::joined(dir, "build.gradle.kts"@))
}

} // verus!
