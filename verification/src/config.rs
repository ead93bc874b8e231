//! The optional `testless.toml`: files to leave out of the index, tests to
//! run whatever changed, and which build tool Java tests run with.
use vstd::prelude::*;

use crate::gitio;
use crate::gitio::{copy_changed, ChangedFile, ChangedView, FileStatus, StatusView};
use crate::graph::{Def, DefId, DefKind, FileNode, Graph};
use crate::text;

verus! {

/// What `testless.toml` holds. Every part may be left out.
#[derive(Debug, Clone, PartialEq, Eq)]
pub struct Config {
    pub always_run: Vec<String>,
    pub ignore: Vec<String>,
    /// `maven` or `gradle`; any other value, like none, leaves the choice to
    /// the build files there are.
    pub java_runner: Option<String>,
}

impl Default for Config {
    fn default() -> (c: Self)
        ensures
            c.always_run@ == Seq::<String>::empty(),
            c.ignore@ == Seq::<String>::empty(),
            c.java_runner is None,
    {
        Config { always_run: Vec::new(), ignore: Vec::new(), java_runner: None }
    }
}

/// What is wrong with a list of glob patterns.
#[derive(Debug, Clone, PartialEq, Eq)]
pub enum ConfigError {
    /// This pattern is not a glob, and why.
    Pattern { pattern: String, error: String },
    /// The patterns do not make a set, and why.
    Patterns { error: String },
}

/// What a [`ConfigError`] says.
pub enum ConfigErrorView {
    Pattern { pattern: Seq<char>, error: Seq<char> },
    Patterns { error: Seq<char> },
}

impl View for ConfigError {
    type V = ConfigErrorView;

    open spec fn view(&self) -> ConfigErrorView {
        match self {
            ConfigError::Pattern { pattern, error } => ConfigErrorView::Pattern {
                pattern: pattern@,
                error: error@,
            },
            ConfigError::Patterns { error } => ConfigErrorView::Patterns { error: error@ },
        }
    }
}

/// `globset::GlobSetBuilder`: patterns that a set will be made of.
#[verifier::external_type_specification]
#[verifier::external_body]
pub struct ExGlobSetBuilder(globset::GlobSetBuilder);

/// `globset::GlobSet`: patterns that paths are matched against together.
#[verifier::external_type_specification]
#[verifier::external_body]
pub struct ExGlobSet(globset::GlobSet);

/// The patterns that a builder holds, in the order in which they were added.
pub uninterp spec fn builder_patterns(b: globset::GlobSetBuilder) -> Seq<Seq<char>>;

/// The patterns that a set holds, in the order in which they were added.
pub uninterp spec fn set_patterns(s: globset::GlobSet) -> Seq<Seq<char>>;

/// Why a text is not a glob pattern; nothing for one that is.
pub uninterp spec fn glob_fault(pattern: Seq<char>) -> Option<Seq<char>>;

/// Why valid patterns do not make a set; nothing where they do.
pub uninterp spec fn set_fault(patterns: Seq<Seq<char>>) -> Option<Seq<char>>;

/// Does the glob pattern match the path?
pub uninterp spec fn glob_matches(pattern: Seq<char>, path: Seq<char>) -> bool;

/// `globset::Glob::new` and `globset::GlobSetBuilder::add`: the pattern is
/// compiled and, where it is a glob, added behind those that the builder
/// holds; where it is not, the builder stays as it is.
#[verifier::external_body]
fn add_pattern(b: &mut globset::GlobSetBuilder, pattern: &str) -> (fault: Option<String>)
    ensures
        text::opt_view(fault) == glob_fault(pattern@),
        builder_patterns(*final(b)) == (if fault is None {
            builder_patterns(*old(b)).push(pattern@)
        } else {
            builder_patterns(*old(b))
        }),
{
    match globset::Glob::new(pattern) {
        Ok(glob) => {
            b.add(glob);
            None
        },
        Err(e) => Some(e.to_string()),
    }
}

/// `globset::GlobSetBuilder::new`: a builder that holds no pattern.
#[verifier::external_body]
fn new_builder() -> (b: globset::GlobSetBuilder)
    ensures
        builder_patterns(b) == Seq::<Seq<char>>::empty(),
{
    globset::GlobSetBuilder::new()
}

/// `globset::GlobSetBuilder::build`: a set of the patterns that the builder
/// holds.
#[verifier::external_body]
fn build_set(b: &globset::GlobSetBuilder) -> (r: Result<globset::GlobSet, String>)
    ensures
        match r {
            Ok(s) => set_fault(builder_patterns(*b)) is None && set_patterns(s)
                == builder_patterns(*b),
            Err(e) => set_fault(builder_patterns(*b)) == Some(e@),
        },
{
    b.build().map_err(|e| e.to_string())
}

/// Each number is less than the next.
pub open spec fn increasing(s: Seq<usize>) -> bool {
    forall|i: int, j: int| 0 <= i < j < s.len() ==> (#[trigger] s[i]) < (#[trigger] s[j])
}

/// `globset::GlobSet::matches`: the positions of the patterns that match the
/// path, in ascending order.
#[verifier::external_body]
fn matching(s: &globset::GlobSet, path: &str) -> (r: Vec<usize>)
    ensures
        increasing(r@),
        forall|k: usize| #[trigger]
            r@.contains(k) == (set_patterns(*s).len() > k && glob_matches(
                set_patterns(*s)[k as int],
                path@,
            )),
{
    s.matches(path)
}

/// The first fault among the patterns, by position.
pub open spec fn first_fault(patterns: Seq<Seq<char>>) -> Option<ConfigErrorView>
    decreases patterns.len(),
{
    if patterns.len() == 0 {
        None
    } else {
        match first_fault(patterns.drop_last()) {
            Some(f) => Some(f),
            None => match glob_fault(patterns.last()) {
                Some(e) => Some(ConfigErrorView::Pattern { pattern: patterns.last(), error: e }),
                None => None,
            },
        }
    }
}

/// What keeps the patterns from being a set; nothing where they are one.
pub open spec fn globset_fault(patterns: Seq<Seq<char>>) -> Option<ConfigErrorView> {
    match first_fault(patterns) {
        Some(f) => Some(f),
        None => match set_fault(patterns) {
            Some(e) => Some(ConfigErrorView::Patterns { error: e }),
            None => None,
        },
    }
}

/// Is `r` the set of these patterns, or what is wrong with them?
pub open spec fn is_globset(
    r: Result<globset::GlobSet, ConfigError>,
    patterns: Seq<Seq<char>>,
) -> bool {
    match r {
        Ok(s) => globset_fault(patterns) is None && set_patterns(s) == patterns,
        Err(e) => globset_fault(patterns) == Some(e@),
    }
}

proof fn lemma_first_fault_prefix(patterns: Seq<Seq<char>>, k: int)
    requires
        0 <= k <= patterns.len(),
        first_fault(patterns.take(k)) is Some,
    ensures
        first_fault(patterns) == first_fault(patterns.take(k)),
    decreases patterns.len(),
{
    if k < patterns.len() {
        assert(patterns.drop_last().take(k) =~= patterns.take(k));
        lemma_first_fault_prefix(patterns.drop_last(), k);
    } else {
        assert(patterns.take(k) =~= patterns);
    }
}

fn build_globset(patterns: &Vec<String>) -> (r: Result<globset::GlobSet, ConfigError>)
    ensures
        is_globset(r, text::views(patterns@)),
{
    let ghost all = text::views(patterns@);
    let mut b = new_builder();
    let mut i: usize = 0;
    assert(all.take(0) =~= Seq::<Seq<char>>::empty());
    while i < patterns.len()
        invariant
            i <= patterns@.len(),
            all == text::views(patterns@),
            builder_patterns(b) == all.take(i as int),
            first_fault(all.take(i as int)) is None,
        decreases patterns@.len() - i,
    {
        assert(all.take(i + 1).drop_last() =~= all.take(i as int));
        assert(all.take(i + 1).last() == patterns@[i as int]@);
        if let Some(error) = add_pattern(&mut b, patterns[i].as_str()) {
            proof {
                lemma_first_fault_prefix(all, i + 1);
            }
            return Err(ConfigError::Pattern { pattern: patterns[i].clone(), error });
        }
        assert(all.take(i + 1) =~= all.take(i as int).push(patterns@[i as int]@));
        i = i + 1;
    }
    assert(all.take(patterns@.len() as int) =~= all);
    match build_set(&b) {
        Ok(s) => Ok(s),
        Err(error) => Err(ConfigError::Patterns { error }),
    }
}

impl Config {
    /// The patterns of the files to leave out, as a set.
    pub fn ignore_globset(&self) -> (r: Result<globset::GlobSet, ConfigError>)
        ensures
            is_globset(r, text::views(self.ignore@)),
    {
        build_globset(&self.ignore)
    }

    /// The patterns of the test files to run whatever changed, as a set.
    pub fn always_run_globset(&self) -> (r: Result<globset::GlobSet, ConfigError>)
        ensures
            is_globset(r, text::views(self.always_run@)),
    {
        build_globset(&self.always_run)
    }
}

/// The first of the patterns that matches `path`.
pub open spec fn first_match(patterns: Seq<Seq<char>>, path: Seq<char>) -> Option<Seq<char>>
    decreases patterns.len(),
{
    if patterns.len() == 0 {
        None
    } else {
        match first_match(patterns.drop_last(), path) {
            Some(p) => Some(p),
            None => if glob_matches(patterns.last(), path) {
                Some(patterns.last())
            } else {
                None
            },
        }
    }
}

proof fn lemma_first_match(patterns: Seq<Seq<char>>, path: Seq<char>)
    ensures
        first_match(patterns, path) is None <==> forall|k: int|
            0 <= k < patterns.len() ==> !glob_matches(#[trigger] patterns[k], path),
    decreases patterns.len(),
{
    if patterns.len() > 0 {
        lemma_first_match(patterns.drop_last(), path);
        if first_match(patterns, path) is None {
            assert forall|k: int| 0 <= k < patterns.len() implies !glob_matches(
                #[trigger] patterns[k],
                path,
            ) by {
                if k < patterns.len() - 1 {
                    assert(patterns.drop_last()[k] == patterns[k]);
                }
            }
        } else if first_match(patterns.drop_last(), path) is Some {
            let k = choose|k: int|
                0 <= k < patterns.drop_last().len() && glob_matches(
                    #[trigger] patterns.drop_last()[k],
                    path,
                );
            assert(glob_matches(patterns[k], path));
        } else {
            assert(glob_matches(patterns[patterns.len() - 1], path));
        }
    }
}

proof fn lemma_first_match_at(patterns: Seq<Seq<char>>, path: Seq<char>, k: int)
    requires
        0 <= k < patterns.len(),
        glob_matches(patterns[k], path),
        forall|j: int| 0 <= j < k ==> !glob_matches(#[trigger] patterns[j], path),
    ensures
        first_match(patterns, path) == Some(patterns[k]),
    decreases patterns.len(),
{
    if k < patterns.len() - 1 {
        assert(patterns.drop_last()[k] == patterns[k]);
        assert forall|j: int| 0 <= j < k implies !glob_matches(
            #[trigger] patterns.drop_last()[j],
            path,
        ) by {
            assert(patterns.drop_last()[j] == patterns[j]);
        }
        lemma_first_match_at(patterns.drop_last(), path, k);
    } else {
        let rest = patterns.drop_last();
        lemma_first_match(rest, path);
        assert forall|j: int| 0 <= j < rest.len() implies !glob_matches(#[trigger] rest[j], path) by {
            assert(rest[j] == patterns[j]);
        }
    }
}

/// The position of the first pattern of the set that matches `path`.
pub(crate) fn first_matching(s: &globset::GlobSet, path: &str) -> (r: Option<usize>)
    requires
        set_patterns(*s).len() <= usize::MAX,
    ensures
        match r {
            Some(k) => k < set_patterns(*s).len() && first_match(set_patterns(*s), path@) == Some(
                set_patterns(*s)[k as int],
            ),
            None => first_match(set_patterns(*s), path@) is None,
        },
{
    let hits = matching(s, path);
    let ghost all = set_patterns(*s);
    if hits.len() == 0 {
        proof {
            lemma_first_match(all, path@);
            assert forall|k: int| 0 <= k < all.len() && k <= usize::MAX implies !glob_matches(
                #[trigger] all[k],
                path@,
            ) by {
                assert(!hits@.contains(k as usize));
            }
        }
        None
    } else {
        let k: usize = hits[0];
        proof {
            assert(hits@.contains(hits@[0]));
            assert forall|j: int| 0 <= j < k implies !glob_matches(#[trigger] all[j], path@) by {
                if glob_matches(all[j], path@) {
                    assert(hits@.contains(j as usize));
                    let at = choose|at: int| 0 <= at < hits@.len() && hits@[at] == j as usize;
                    if at > 0 {
                        assert(hits@[0] < hits@[at]);
                    }
                }
            }
            lemma_first_match_at(all, path@, k as int);
        }
        Some(k)
    }
}

/// The tests whose file one of the patterns matches, each with the first
/// pattern that does, in the order of the definitions.
pub open spec fn always_run_tests(
    defs: Seq<Def>,
    files: Seq<FileNode>,
    patterns: Seq<Seq<char>>,
) -> Seq<(DefId, Seq<char>)>
    decreases defs.len(),
{
    if defs.len() == 0 {
        Seq::empty()
    } else {
        let before = always_run_tests(defs.drop_last(), files, patterns);
        let d = defs.last();
        if d.kind == DefKind::TestCase {
            match first_match(patterns, files[d.file.0 as int].path@) {
                Some(p) => before.push((DefId((defs.len() - 1) as u32), p)),
                None => before,
            }
        } else {
            before
        }
    }
}

/// The tests listed are those whose file a pattern matches, each with the
/// first that does.
pub proof fn lemma_always_run_tests(
    defs: Seq<Def>,
    files: Seq<FileNode>,
    patterns: Seq<Seq<char>>,
)
    requires
        defs.len() <= u32::MAX + 1,
    ensures
        forall|i: int|
            #![trigger always_run_tests(defs, files, patterns)[i]]
            0 <= i < always_run_tests(defs, files, patterns).len() ==> {
                let (e, p) = always_run_tests(defs, files, patterns)[i];
                e.0 < defs.len() && defs[e.0 as int].kind == DefKind::TestCase && first_match(
                    patterns,
                    files[defs[e.0 as int].file.0 as int].path@,
                ) == Some(p)
            },
        forall|e: DefId|
            #![trigger defs[e.0 as int]]
            e.0 < defs.len() && defs[e.0 as int].kind == DefKind::TestCase && first_match(
                patterns,
                files[defs[e.0 as int].file.0 as int].path@,
            ) is Some ==> exists|i: int|
                0 <= i < always_run_tests(defs, files, patterns).len()
                    && (#[trigger] always_run_tests(defs, files, patterns)[i]).0 == e,
    decreases defs.len(),
{
    if defs.len() > 0 {
        let rest = defs.drop_last();
        lemma_always_run_tests(rest, files, patterns);
        let before = always_run_tests(rest, files, patterns);
        let now = always_run_tests(defs, files, patterns);
        assert forall|i: int| #![trigger now[i]] 0 <= i < now.len() implies {
            let (e, p) = now[i];
            e.0 < defs.len() && defs[e.0 as int].kind == DefKind::TestCase && first_match(
                patterns,
                files[defs[e.0 as int].file.0 as int].path@,
            ) == Some(p)
        } by {
            if i < before.len() {
                assert(now[i] == before[i]);
                let e = before[i].0;
                assert(rest[e.0 as int] == defs[e.0 as int]);
            }
        }
        assert forall|e: DefId|
            #![trigger defs[e.0 as int]]
            e.0 < defs.len() && defs[e.0 as int].kind == DefKind::TestCase && first_match(
                patterns,
                files[defs[e.0 as int].file.0 as int].path@,
            ) is Some implies exists|i: int|
            0 <= i < now.len() && (#[trigger] now[i]).0 == e by {
            if e.0 < rest.len() {
                assert(rest[e.0 as int] == defs[e.0 as int]);
                let i = choose|i: int| 0 <= i < before.len() && (#[trigger] before[i]).0 == e;
                assert(now[i].0 == e);
            } else {
                assert(now[now.len() - 1].0 == e);
            }
        }
    }
}

/// What tests with their patterns say.
pub open spec fn match_views(v: Seq<(DefId, String)>) -> Seq<(DefId, Seq<char>)> {
    v.map_values(|m: (DefId, String)| (m.0, m.1@))
}

/// The tests to run whatever changed: those whose file one of the
/// `always-run` patterns matches, each with the first pattern that does.
/// Where there is no pattern none is compiled.
pub fn always_run_matches(graph: &Graph, config: &Config) -> (r: Result<
    Vec<(DefId, String)>,
    ConfigError,
>)
    requires
        graph.wf(),
    ensures
        match r {
            Ok(v) => match_views(v@) == always_run_tests(
                graph.defs@,
                graph.files@,
                text::views(config.always_run@),
            ) && (config.always_run@.len() == 0 || globset_fault(text::views(config.always_run@))
                is None),
            Err(e) => config.always_run@.len() > 0 && globset_fault(
                text::views(config.always_run@),
            ) == Some(e@),
        },
{
    let ghost all = text::views(config.always_run@);
    let mut out: Vec<(DefId, String)> = Vec::new();
    assert(match_views(out@) =~= Seq::<(DefId, Seq<char>)>::empty());
    if config.always_run.len() == 0 {
        proof {
            lemma_no_patterns(graph.defs@, graph.files@, all);
        }
        return Ok(out);
    }
    let set = match config.always_run_globset() {
        Ok(s) => s,
        Err(e) => {
            return Err(e);
        },
    };
    let mut i: usize = 0;
    assert(graph.defs@.take(0) =~= Seq::<Def>::empty());
    while i < graph.defs.len()
        invariant
            graph.wf(),
            i <= graph.defs@.len(),
            all == text::views(config.always_run@),
            set_patterns(set) == all,
            all.len() == config.always_run.len(),
            match_views(out@) == always_run_tests(
                graph.defs@.take(i as int),
                graph.files@,
                all,
            ),
        decreases graph.defs@.len() - i,
    {
        let ghost was = out@;
        let ghost upto = graph.defs@.take(i + 1);
        assert(upto.drop_last() =~= graph.defs@.take(i as int));
        assert(upto.last() == graph.defs@[i as int]);
        let d = &graph.defs[i];
        if d.kind == DefKind::TestCase {
            let path = &graph.files[d.file.0 as usize].path;
            if let Some(k) = first_matching(&set, path.as_str()) {
                let hit = (DefId(i as u32), config.always_run[k].clone());
                assert(all[k as int] == config.always_run@[k as int]@);
                out.push(hit);
                assert(match_views(out@) =~= match_views(was).push((hit.0, hit.1@)));
            }
        }
        i = i + 1;
    }
    assert(graph.defs@.take(graph.defs@.len() as int) =~= graph.defs@);
    Ok(out)
}

proof fn lemma_no_patterns(defs: Seq<Def>, files: Seq<FileNode>, patterns: Seq<Seq<char>>)
    requires
        patterns.len() == 0,
    ensures
        always_run_tests(defs, files, patterns) == Seq::<(DefId, Seq<char>)>::empty(),
    decreases defs.len(),
{
    if defs.len() > 0 {
        lemma_no_patterns(defs.drop_last(), files, patterns);
    }
}

/// What is left of a change when what the patterns match is left out. A file
/// that moves to where a pattern matches leaves the index: its old path is
/// gone.
pub open spec fn left_of(c: ChangedView, patterns: Seq<Seq<char>>) -> Option<ChangedView> {
    if first_match(patterns, c.path) is None {
        Some(c)
    } else {
        match c.status {
            StatusView::Renamed { old } => if first_match(patterns, old) is None {
                Some(ChangedView { path: old, status: StatusView::Deleted })
            } else {
                None
            },
            _ => None,
        }
    }
}

/// What is left of the changes, in order.
pub open spec fn not_ignored(
    changed: Seq<ChangedView>,
    patterns: Seq<Seq<char>>,
) -> Seq<ChangedView>
    decreases changed.len(),
{
    if changed.len() == 0 {
        Seq::empty()
    } else {
        let before = not_ignored(changed.drop_last(), patterns);
        match left_of(changed.last(), patterns) {
            Some(c) => before.push(c),
            None => before,
        }
    }
}

fn what_is_left(c: &ChangedFile, set: &globset::GlobSet) -> (r: Option<ChangedFile>)
    requires
        set_patterns(*set).len() <= usize::MAX,
    ensures
        match r {
            Some(x) => left_of(c@, set_patterns(*set)) == Some(x@),
            None => left_of(c@, set_patterns(*set)) is None,
        },
{
    if first_matching(set, c.path.as_str()).is_none() {
        return Some(copy_changed(c));
    }
    match &c.status {
        FileStatus::Renamed { old } => if first_matching(set, old.as_str()).is_none() {
            Some(ChangedFile { path: old.clone(), status: FileStatus::Deleted })
        } else {
            None
        },
        _ => None,
    }
}

/// Leaves out the changes whose path one of the `ignore` patterns matches: a
/// file that is not indexed has nothing to select. A file that was renamed
/// from a path that none matches counts as deleted there.
pub fn drop_ignored(changed: &Vec<ChangedFile>, config: &Config) -> (r: Result<
    Vec<ChangedFile>,
    ConfigError,
>)
    ensures
        match r {
            Ok(v) => globset_fault(text::views(config.ignore@)) is None && gitio::changed_views(v@)
                == not_ignored(gitio::changed_views(changed@), text::views(config.ignore@)),
            Err(e) => globset_fault(text::views(config.ignore@)) == Some(e@),
        },
{
    let ghost all = gitio::changed_views(changed@);
    let ghost patterns = text::views(config.ignore@);
    let set = match config.ignore_globset() {
        Ok(s) => s,
        Err(e) => {
            return Err(e);
        },
    };
    let mut out: Vec<ChangedFile> = Vec::new();
    let mut i: usize = 0;
    assert(gitio::changed_views(out@) =~= not_ignored(all.take(0), patterns));
    while i < changed.len()
        invariant
            i <= changed@.len(),
            all == gitio::changed_views(changed@),
            patterns == set_patterns(set),
            patterns.len() == config.ignore.len(),
            gitio::changed_views(out@) == not_ignored(all.take(i as int), patterns),
        decreases changed@.len() - i,
    {
        let ghost was = out@;
        assert(all.take(i + 1).drop_last() =~= all.take(i as int));
        assert(all.take(i + 1).last() == changed@[i as int]@);
        if let Some(c) = what_is_left(&changed[i], &set) {
            out.push(c);
            assert(gitio::changed_views(out@) =~= gitio::changed_views(was).push(c@));
        }
        i = i + 1;
    }
    assert(all.take(changed@.len() as int) =~= all);
    Ok(out)
}

proof fn lemma_left(changed: Seq<ChangedView>, patterns: Seq<Seq<char>>, c: ChangedView)
    ensures
        not_ignored(changed, patterns).contains(c) <==> exists|i: int|
            0 <= i < changed.len() && left_of(#[trigger] changed[i], patterns) == Some(c),
    decreases changed.len(),
{
    if changed.len() > 0 {
        let rest = changed.drop_last();
        lemma_left(rest, patterns, c);
        let before = not_ignored(rest, patterns);
        let now = not_ignored(changed, patterns);
        if before.contains(c) {
            let k = choose|k: int| 0 <= k < before.len() && before[k] == c;
            assert(now[k] == c);
        }
        if now.contains(c) {
            let k = choose|k: int| 0 <= k < now.len() && now[k] == c;
            if k < before.len() {
                assert(before[k] == c);
                let j = choose|j: int|
                    0 <= j < rest.len() && left_of(#[trigger] rest[j], patterns) == Some(c);
                assert(left_of(changed[j], patterns) == Some(c));
            } else {
                assert(left_of(changed[changed.len() - 1], patterns) == Some(c));
            }
        }
        if exists|i: int|
            0 <= i < changed.len() && left_of(#[trigger] changed[i], patterns) == Some(c) {
            let j = choose|j: int|
                0 <= j < changed.len() && left_of(#[trigger] changed[j], patterns) == Some(c);
            if j < rest.len() {
                assert(left_of(rest[j], patterns) == Some(c));
            } else {
                assert(now[now.len() - 1] == c);
            }
        }
    }
}

/// Does one of the patterns match the path?
pub open spec fn is_ignored(patterns: Seq<Seq<char>>, path: Seq<char>) -> bool {
    exists|k: int| 0 <= k < patterns.len() && glob_matches(#[trigger] patterns[k], path)
}

/// What is left of the changes are exactly those whose path no pattern
/// matches, and the deletions of the files that were renamed from such a path
/// to one that a pattern matches.
pub proof fn law_ignored_changes_are_left_out(
    changed: Seq<ChangedView>,
    patterns: Seq<Seq<char>>,
    c: ChangedView,
)
    ensures
        not_ignored(changed, patterns).contains(c) <==> !is_ignored(patterns, c.path) && (
        changed.contains(c) || (c.status is Deleted && exists|i: int|
            0 <= i < changed.len() && (#[trigger] changed[i]).status == (StatusView::Renamed {
                old: c.path,
            }) && is_ignored(patterns, changed[i].path))),
{
    lemma_left(changed, patterns, c);
    lemma_first_match(patterns, c.path);
    if not_ignored(changed, patterns).contains(c) {
        let i = choose|i: int|
            0 <= i < changed.len() && left_of(#[trigger] changed[i], patterns) == Some(c);
        lemma_first_match(patterns, changed[i].path);
    }
    if !is_ignored(patterns, c.path) {
        if changed.contains(c) {
            let i = choose|i: int| 0 <= i < changed.len() && changed[i] == c;
            assert(left_of(changed[i], patterns) == Some(c));
        }
        if c.status is Deleted && exists|i: int|
            0 <= i < changed.len() && (#[trigger] changed[i]).status == (StatusView::Renamed {
                old: c.path,
            }) && is_ignored(patterns, changed[i].path) {
            let i = choose|i: int|
                0 <= i < changed.len() && (#[trigger] changed[i]).status == (StatusView::Renamed {
                    old: c.path,
                }) && is_ignored(patterns, changed[i].path);
            lemma_first_match(patterns, changed[i].path);
            assert(left_of(changed[i], patterns) == Some(c));
        }
    }
}

/// A path is ignored where a pattern is found for it.
pub proof fn lemma_first_match_is_ignored(patterns: Seq<Seq<char>>, path: Seq<char>)
    ensures
        first_match(patterns, path) is Some <==> is_ignored(patterns, path),
{
    lemma_first_match(patterns, path);
}

/// A test in a file that an `always-run` pattern matches is among those that
/// always run, with a pattern that matches; no other definition is.
pub proof fn law_matching_tests_always_run(
    defs: Seq<Def>,
    files: Seq<FileNode>,
    patterns: Seq<Seq<char>>,
    k: int,
)
    requires
        0 <= k < defs.len() <= u32::MAX + 1,
    ensures
        defs[k].kind == DefKind::TestCase && is_ignored(
            patterns,
            files[defs[k].file.0 as int].path@,
        ) <==> exists|p: Seq<char>| #[trigger]
            always_run_tests(defs, files, patterns).contains((DefId(k as u32), p)),
        forall|p: Seq<char>| #[trigger]
            always_run_tests(defs, files, patterns).contains((DefId(k as u32), p))
                ==> patterns.contains(p) && glob_matches(p, files[defs[k].file.0 as int].path@),
{
    let path = files[defs[k].file.0 as int].path@;
    lemma_first_match(patterns, path);
    if let Some(p) = first_match(patterns, path) {
        lemma_first_match_holds(patterns, path);
    }
    assert forall|p: Seq<char>| #[trigger]
        always_run_tests(defs, files, patterns).contains((DefId(k as u32), p)) <==> defs[k].kind
        == DefKind::TestCase && first_match(patterns, path) == Some(p) by {
        lemma_always_run_at(defs, files, patterns, k, p);
    }
    if defs[k].kind == DefKind::TestCase && is_ignored(patterns, path) {
        let p = first_match(patterns, path).unwrap();
        assert(always_run_tests(defs, files, patterns).contains((DefId(k as u32), p)));
    }
}

proof fn lemma_first_match_holds(patterns: Seq<Seq<char>>, path: Seq<char>)
    requires
        first_match(patterns, path) is Some,
    ensures
        patterns.contains(first_match(patterns, path).unwrap()),
        glob_matches(first_match(patterns, path).unwrap(), path),
    decreases patterns.len(),
{
    if patterns.len() > 0 {
        let rest = patterns.drop_last();
        if first_match(rest, path) is Some {
            lemma_first_match_holds(rest, path);
            let p = first_match(rest, path).unwrap();
            let i = choose|i: int| 0 <= i < rest.len() && rest[i] == p;
            assert(patterns[i] == p);
        } else {
            assert(patterns[patterns.len() - 1] == patterns.last());
        }
    }
}

proof fn lemma_always_run_at(
    defs: Seq<Def>,
    files: Seq<FileNode>,
    patterns: Seq<Seq<char>>,
    k: int,
    p: Seq<char>,
)
    requires
        0 <= k <= u32::MAX,
        defs.len() <= u32::MAX + 1,
    ensures
        always_run_tests(defs, files, patterns).contains((DefId(k as u32), p)) <==> k < defs.len()
            && defs[k].kind == DefKind::TestCase && first_match(
            patterns,
            files[defs[k].file.0 as int].path@,
        ) == Some(p),
    decreases defs.len(),
{
    let all = always_run_tests(defs, files, patterns);
    let e = (DefId(k as u32), p);
    if defs.len() > 0 {
        let rest = defs.drop_last();
        let before = always_run_tests(rest, files, patterns);
        lemma_always_run_at(rest, files, patterns, k, p);
        if k < rest.len() {
            assert(rest[k] == defs[k]);
        }
        if before.contains(e) {
            let i = choose|i: int| 0 <= i < before.len() && before[i] == e;
            assert(all[i] == e);
        }
        if all.contains(e) {
            let i = choose|i: int| 0 <= i < all.len() && all[i] == e;
            if i < before.len() {
                assert(before[i] == e);
            }
        }
        if all.len() > before.len() {
            assert(all[before.len() as int] == all.last());
        }
        assert(defs[defs.len() - 1] == defs.last());
    }
}

} // verus!
