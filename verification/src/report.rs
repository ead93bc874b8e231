//! What the commands say: counts, the tests that a change selects, and why a
//! test was selected.
use vstd::prelude::*;

use crate::classify::{ChangeMode, ModeView, Seed, SeedKind};
use crate::config;
use crate::config::{always_run_matches, Config, ConfigError};
use crate::graph::{CallTarget, Def, DefId, DefKind, Edge, Graph};
use crate::language;
use crate::language::{copy_chain, RepoFacts};
use crate::render;
use crate::render::{SelectedTest, SelectedView};
use crate::runner;
use crate::runner::{module_dir, runner_for};
use crate::text;
use crate::text::{cat, cat3, join_with, number, occurs};
use crate::walk;
use crate::walk::{impacted_tests, impacted_tests_with_paths, Hop, HopKind};

verus! {

/// How many of `defs` are tests.
pub open spec fn tests_among(defs: Seq<Def>) -> nat
    decreases defs.len(),
{
    if defs.len() == 0 {
        0
    } else {
        tests_among(defs.drop_last()) + (if defs.last().kind == DefKind::TestCase {
            1nat
        } else {
            0
        })
    }
}

/// How many tests a graph holds.
pub fn count_tests(graph: &Graph) -> (r: usize)
    ensures
        r == tests_among(graph.defs@),
{
    let ghost all = graph.defs@;
    let mut n: usize = 0;
    let mut i: usize = 0;
    assert(all.take(0) =~= Seq::empty());
    while i < graph.defs.len()
        invariant
            i <= graph.defs@.len(),
            all == graph.defs@,
            n <= i,
            n == tests_among(all.take(i as int)),
        decreases graph.defs@.len() - i,
    {
        assert(all.take(i + 1).drop_last() =~= all.take(i as int));
        if graph.defs[i].kind == DefKind::TestCase {
            n = n + 1;
        }
        i = i + 1;
    }
    assert(all.take(all.len() as int) =~= all);
    n
}

/// How many edges there are of the sorts that are counted.
#[derive(Debug, Clone, Copy, PartialEq, Eq, Structural)]
pub struct EdgeCounts {
    pub calls: usize,
    pub reads: usize,
    /// Calls of names that were not resolved.
    pub unresolved: usize,
}

/// How many of `edges` the test `which` picks.
pub open spec fn edges_among(edges: Seq<Edge>, which: spec_fn(Edge) -> bool) -> nat
    decreases edges.len(),
{
    if edges.len() == 0 {
        0
    } else {
        edges_among(edges.drop_last(), which) + (if which(edges.last()) {
            1nat
        } else {
            0
        })
    }
}

/// Is this edge a call of a name that was not resolved?
pub open spec fn is_unresolved(e: Edge) -> bool {
    match e {
        Edge::Calls { from: _, to: CallTarget::Unknown(_) } => true,
        _ => false,
    }
}

/// How many calls, reads and unresolved calls a graph holds.
pub fn count_edges(graph: &Graph) -> (r: EdgeCounts)
    ensures
        r.calls == edges_among(graph.edges@, |e: Edge| e is Calls),
        r.reads == edges_among(graph.edges@, |e: Edge| e is Reads),
        r.unresolved == edges_among(graph.edges@, |e: Edge| is_unresolved(e)),
{
    let ghost all = graph.edges@;
    let ghost is_call = |e: Edge| e is Calls;
    let ghost is_read = |e: Edge| e is Reads;
    let ghost is_open = |e: Edge| is_unresolved(e);
    let mut c = EdgeCounts { calls: 0, reads: 0, unresolved: 0 };
    let mut i: usize = 0;
    assert(all.take(0) =~= Seq::empty());
    while i < graph.edges.len()
        invariant
            i <= graph.edges@.len(),
            all == graph.edges@,
            is_call == (|e: Edge| e is Calls),
            is_read == (|e: Edge| e is Reads),
            is_open == (|e: Edge| is_unresolved(e)),
            c.calls <= i,
            c.reads <= i,
            c.unresolved <= i,
            c.calls == edges_among(all.take(i as int), is_call),
            c.reads == edges_among(all.take(i as int), is_read),
            c.unresolved == edges_among(all.take(i as int), is_open),
        decreases graph.edges@.len() - i,
    {
        assert(all.take(i + 1).drop_last() =~= all.take(i as int));
        assert(all.take(i + 1).last() == all[i as int]);
        match &graph.edges[i] {
            Edge::Calls { to, .. } => {
                c.calls = c.calls + 1;
                if let CallTarget::Unknown(_) = to {
                    c.unresolved = c.unresolved + 1;
                }
            },
            Edge::Reads { .. } => {
                c.reads = c.reads + 1;
            },
            _ => {},
        }
        i = i + 1;
    }
    assert(all.take(all.len() as int) =~= all);
    c
}

/// The word for what changed about a seed.
pub open spec fn seed_label(kind: SeedKind) -> Seq<char> {
    match kind {
        SeedKind::Body => "body"@,
        SeedKind::Signature => "signature"@,
        SeedKind::Added => "added"@,
        SeedKind::ModuleInit => "module_init"@,
    }
}

/// The word for what changed about a seed.
pub fn seed_kind_label(kind: SeedKind) -> (r: String)
    ensures
        r@ == seed_label(kind),
{
    match kind {
        SeedKind::Body => "body".to_owned(),
        SeedKind::Signature => "signature".to_owned(),
        SeedKind::Added => "added".to_owned(),
        SeedKind::ModuleInit => "module_init".to_owned(),
    }
}

/// The path of the file that a definition stands in.
pub open spec fn file_of(g: Graph, d: DefId) -> Seq<char> {
    g.files@[g.at(d).file.0 as int].path@
}

/// The chain of names of a test; its own name where it has no chain.
pub open spec fn chain_of(d: Def) -> Seq<Seq<char>> {
    match language::chain_view(d.test_id) {
        Some(c) => c,
        None => seq![d.name@],
    }
}

fn chain_of_def(d: &Def) -> (r: Vec<String>)
    ensures
        text::views(r@) == chain_of(*d),
{
    match copy_chain(&d.test_id) {
        Some(c) => c,
        None => {
            let mut out: Vec<String> = Vec::new();
            out.push(d.name.clone());
            assert(text::views(out@) =~= seq![d.name@]);
            out
        },
    }
}

/// The name and the file of a definition.
pub fn def_display(graph: &Graph, id: DefId) -> (r: (String, String))
    requires
        graph.wf(),
        graph.has_def(id),
    ensures
        r.0@ == graph.at(id).name@,
        r.1@ == file_of(*graph, id),
{
    let d = graph.def(id);
    (d.name.clone(), graph.files[d.file.0 as usize].path.clone())
}

/// The code that a command exits with.
pub open spec fn exit_of(mode: ModeView) -> int {
    match mode {
        ModeView::Selection(_) => 0,
        ModeView::RunAll { .. } => 2,
    }
}

/// The code that a command exits with: 0 for a selection, empty or not, and
/// 2 where everything has to run.
pub fn exit_code(mode: &ChangeMode) -> (r: i32)
    ensures
        r == exit_of(mode@),
{
    match mode {
        ChangeMode::Selection(_) => 0,
        ChangeMode::RunAll { .. } => 2,
    }
}

/// The line for a seed.
pub open spec fn seed_text(g: Graph, s: Seed) -> Seq<char> {
    file_of(g, s.def) + " :: "@ + g.at(s.def).name@ + " ["@ + seed_label(s.kind) + "]"@
}

fn seed_line(graph: &Graph, s: Seed) -> (r: String)
    requires
        graph.wf(),
        graph.has_def(s.def),
    ensures
        r@ == seed_text(*graph, s),
{
    let (name, file) = def_display(graph, s.def);
    let head = cat3(file.as_str(), " :: ", name.as_str());
    let label = cat3(" [", seed_kind_label(s.kind).as_str(), "]");
    let r = cat(head.as_str(), label.as_str());
    assert(r@ =~= seed_text(*graph, s));
    r
}

/// What `changes` says to a person.
pub open spec fn changes_text(g: Graph, mode: ModeView) -> Seq<Seq<char>> {
    match mode {
        ModeView::Selection(seeds) => if seeds.len() == 0 {
            seq!["no impacted defs"@]
        } else {
            seeds.map_values(|s: Seed| seed_text(g, s))
        },
        ModeView::RunAll { reason } => seq!["run all: "@ + reason],
    }
}

/// What `changes` says to a person.
pub fn changes_lines(graph: &Graph, mode: &ChangeMode) -> (r: Vec<String>)
    requires
        graph.wf(),
        mode@ matches ModeView::Selection(seeds) ==> walk::seeds_in(*graph, seeds),
    ensures
        text::views(r@) == changes_text(*graph, mode@),
{
    let mut out: Vec<String> = Vec::new();
    match mode {
        ChangeMode::Selection(seeds) => {
            if seeds.len() == 0 {
                out.push("no impacted defs".to_owned());
                assert(text::views(out@) =~= changes_text(*graph, mode@));
                return out;
            }
            let mut i: usize = 0;
            while i < seeds.len()
                invariant
                    i <= seeds@.len(),
                    graph.wf(),
                    walk::seeds_in(*graph, seeds@),
                    out@.len() == i,
                    forall|j: int|
                        0 <= j < i ==> (#[trigger] out@[j])@ == seed_text(*graph, seeds@[j]),
                decreases seeds@.len() - i,
            {
                out.push(seed_line(graph, seeds[i]));
                i = i + 1;
            }
            assert(text::views(out@) =~= changes_text(*graph, mode@));
        },
        ChangeMode::RunAll { reason } => {
            out.push(cat("run all: ", reason.as_str()));
            assert(text::views(out@) =~= changes_text(*graph, mode@));
        },
    }
    out
}

/// Is the test `e` selected: impacted by a seed, or in a file that one of
/// the `always-run` patterns matches?
pub open spec fn is_selected(
    g: Graph,
    seeds: Seq<Seed>,
    patterns: Seq<Seq<char>>,
    e: DefId,
) -> bool {
    g.has_def(e) && g.at(e).kind == DefKind::TestCase && (walk::impacted(g, seeds, e)
        || config::first_match(patterns, file_of(g, e)) is Some)
}

/// Each id is less than the next.
pub open spec fn ids_rise(ids: Seq<DefId>) -> bool {
    forall|i: int, j: int| 0 <= i < j < ids.len() ==> (#[trigger] ids[i]).0 < (#[trigger] ids[j]).0
}

/// The ids of the definitions that `marks` marks, in ascending order.
fn marked_ids(marks: &Vec<bool>) -> (r: Vec<DefId>)
    requires
        marks@.len() <= u32::MAX + 1,
    ensures
        ids_rise(r@),
        forall|e: DefId| #[trigger] r@.contains(e) <==> e.0 < marks@.len() && marks@[e.0 as int],
{
    let mut out: Vec<DefId> = Vec::new();
    let mut d: usize = 0;
    while d < marks.len()
        invariant
            d <= marks@.len() <= u32::MAX + 1,
            ids_rise(out@),
            forall|i: int| 0 <= i < out@.len() ==> (#[trigger] out@[i]).0 < d,
            forall|e: DefId| #[trigger] out@.contains(e) <==> e.0 < d && marks@[e.0 as int],
        decreases marks@.len() - d,
    {
        let id = DefId(d as u32);
        let ghost was = out@;
        if marks[d] {
            out.push(id);
        }
        assert forall|e: DefId| #[trigger] out@.contains(e) <==> e.0 < d + 1
            && marks@[e.0 as int] by {
            assert(was.contains(e) <==> e.0 < d && marks@[e.0 as int]);
            if was.contains(e) {
                let k = choose|k: int| 0 <= k < was.len() && was[k] == e;
                assert(out@[k] == e);
            }
            if out@.contains(e) && !was.contains(e) {
                let k = choose|k: int| 0 <= k < out@.len() && out@[k] == e;
                if k < was.len() {
                    assert(was[k] == e);
                }
                assert(e == id);
            }
            if e == id && marks@[d as int] {
                assert(out@[out@.len() - 1] == id);
            }
            if e.0 == d {
                assert(e == id);
            }
        }
        d = d + 1;
    }
    out
}

/// The tests that a change selects, in ascending order and each once: those
/// that the seeds impact, and those that always run.
pub fn selected_test_defs(graph: &Graph, seeds: &[Seed], config: &Config) -> (r: Result<
    Vec<DefId>,
    ConfigError,
>)
    requires
        graph.wf(),
        walk::edges_closed(*graph),
        walk::seeds_in(*graph, seeds@),
    ensures
        match r {
            Ok(v) => ids_rise(v@) && (forall|e: DefId| #[trigger]
                v@.contains(e) <==> is_selected(
                    *graph,
                    seeds@,
                    text::views(config.always_run@),
                    e,
                )) && (config.always_run@.len() == 0 || config::globset_fault(
                text::views(config.always_run@),
            ) is None),
            Err(e) => config.always_run@.len() > 0 && config::globset_fault(
                text::views(config.always_run@),
            ) == Some(e@),
        },
{
    let ghost g = *graph;
    let ghost patterns = text::views(config.always_run@);
    let always = match always_run_matches(graph, config) {
        Ok(v) => v,
        Err(e) => {
            return Err(e);
        },
    };
    let walked = impacted_tests(graph, seeds);
    let n: usize = graph.defs.len();
    let mut marks: Vec<bool> = Vec::new();
    let mut i: usize = 0;
    while i < n
        invariant
            i <= n == g.defs@.len(),
            marks@.len() == i,
            forall|j: int| 0 <= j < i ==> !(#[trigger] marks@[j]),
        decreases n - i,
    {
        marks.push(false);
        i = i + 1;
    }
    i = 0;
    assert forall|k: int| 0 <= k < walked@.len() implies (#[trigger] walked@[k]).0 < n by {
        assert(walked@.contains(walked@[k]));
    }
    while i < walked.len()
        invariant
            i <= walked@.len(),
            n == g.defs@.len(),
            marks@.len() == n,
            n <= u32::MAX + 1,
            g.wf(),
            forall|k: int| 0 <= k < walked@.len() ==> (#[trigger] walked@[k]).0 < n,
            forall|e: DefId|
                #![trigger marks@[e.0 as int]]
                e.0 < n ==> (marks@[e.0 as int] <==> exists|k: int|
                    0 <= k < i && #[trigger] walked@[k] == e),
        decreases walked@.len() - i,
    {
        let ghost was = marks@;
        marks.set(walked[i].0 as usize, true);
        assert forall|e: DefId|
            #![trigger marks@[e.0 as int]]
            e.0 < n implies (marks@[e.0 as int] <==> exists|k: int|
            0 <= k < i + 1 && #[trigger] walked@[k] == e) by {
            let seen = was[e.0 as int];
            if e == walked@[i as int] {
                assert(walked@[i as int] == e);
            } else {
                assert(e.0 != walked@[i as int].0);
                assert(marks@[e.0 as int] == seen);
                if seen {
                    let k = choose|k: int| 0 <= k < i && #[trigger] walked@[k] == e;
                    assert(0 <= k < i + 1 && walked@[k] == e);
                }
            }
        }
        i = i + 1;
    }
    proof {
        assert forall|e: DefId| #![trigger marks@[e.0 as int]] e.0 < n implies (
        marks@[e.0 as int] <==> walked@.contains(e)) by {}
    }
    let ghost by_walk = marks@;
    let ghost listed = config::always_run_tests(g.defs@, g.files@, patterns);
    proof {
        config::lemma_always_run_tests(g.defs@, g.files@, patterns);
        assert(config::match_views(always@).len() == always@.len());
    }
    i = 0;
    while i < always.len()
        invariant
            i <= always@.len() == listed.len(),
            n == g.defs@.len(),
            marks@.len() == n == by_walk.len(),
            listed == config::match_views(always@),
            listed == config::always_run_tests(g.defs@, g.files@, patterns),
            forall|k: int|
                #![trigger config::always_run_tests(g.defs@, g.files@, patterns)[k]]
                0 <= k < listed.len() ==> config::always_run_tests(
                    g.defs@,
                    g.files@,
                    patterns,
                )[k].0.0 < n,
            forall|e: DefId|
                #![trigger marks@[e.0 as int]]
                e.0 < n ==> (marks@[e.0 as int] <==> by_walk[e.0 as int] || exists|k: int|
                    0 <= k < i && (#[trigger] listed[k]).0 == e),
        decreases always@.len() - i,
    {
        let id = always[i].0;
        assert(config::match_views(always@)[i as int].0 == id);
        assert(config::always_run_tests(g.defs@, g.files@, patterns)[i as int].0 == id);
        let ghost was = marks@;
        marks.set(id.0 as usize, true);
        assert forall|e: DefId|
            #![trigger marks@[e.0 as int]]
            e.0 < n implies (marks@[e.0 as int] <==> by_walk[e.0 as int] || exists|k: int|
            0 <= k < i + 1 && (#[trigger] listed[k]).0 == e) by {
            let seen = was[e.0 as int];
            if e == id {
                assert(listed[i as int].0 == e);
            } else {
                assert(e.0 != id.0);
                assert(marks@[e.0 as int] == seen);
                if seen && !by_walk[e.0 as int] {
                    let k = choose|k: int| 0 <= k < i && (#[trigger] listed[k]).0 == e;
                    assert(0 <= k < i + 1 && listed[k].0 == e);
                }
            }
        }
        i = i + 1;
    }
    let out = marked_ids(&marks);
    proof {
        assert forall|e: DefId| #[trigger]
            out@.contains(e) <==> is_selected(g, seeds@, patterns, e) by {
            if e.0 < n {
                let m = marks@[e.0 as int];
                let w = by_walk[e.0 as int];
                assert(w <==> walked@.contains(e));
                let d = g.defs@[e.0 as int];
                if exists|k: int| 0 <= k < listed.len() && (#[trigger] listed[k]).0 == e {
                    let k = choose|k: int| 0 <= k < listed.len() && (#[trigger] listed[k]).0 == e;
                    assert(config::always_run_tests(g.defs@, g.files@, patterns)[k].0 == e);
                }
                if d.kind == DefKind::TestCase && config::first_match(patterns, file_of(g, e))
                    is Some {
                    let k = choose|k: int|
                        0 <= k < config::always_run_tests(g.defs@, g.files@, patterns).len() && (
                        #[trigger] config::always_run_tests(g.defs@, g.files@, patterns)[k]).0
                            == e;
                    assert(listed[k].0 == e);
                }
            }
        }
    }
    Ok(out)
}

/// Every test that a change impacts is selected, whatever the configuration.
pub proof fn law_selection_holds_every_impacted_test(
    g: Graph,
    seeds: Seq<Seed>,
    patterns: Seq<Seq<char>>,
    e: DefId,
)
    requires
        g.has_def(e),
        g.at(e).kind == DefKind::TestCase,
        walk::impacted(g, seeds, e),
    ensures
        is_selected(g, seeds, patterns, e),
{
}

/// A test in a file that an `always-run` pattern matches is selected even
/// where nothing changed.
pub proof fn law_always_run_tests_are_selected(
    g: Graph,
    seeds: Seq<Seed>,
    patterns: Seq<Seq<char>>,
    e: DefId,
)
    requires
        g.has_def(e),
        g.at(e).kind == DefKind::TestCase,
        config::first_match(patterns, file_of(g, e)) is Some,
    ensures
        is_selected(g, seeds, patterns, e),
{
}

/// Without seeds and patterns nothing is selected.
pub proof fn law_nothing_selects_nothing(g: Graph, e: DefId)
    ensures
        !is_selected(g, Seq::empty(), Seq::empty(), e),
{
    walk::law_no_seeds_no_impact(g, e);
}

/// The selected test `e`, ready to be shown.
pub open spec fn shown(
    g: Graph,
    e: DefId,
    present: Set<Seq<char>>,
    java: Option<Seq<char>>,
) -> SelectedView {
    let lang = g.files@[g.at(e).file.0 as int].lang@;
    SelectedView {
        file: file_of(g, e),
        name: chain_of(g.at(e)),
        runner: runner::runner(lang, runner::module_dir_of(file_of(g, e)), present, java),
        lang,
        computed: g.at(e).computed_name,
    }
}

/// The selected tests, ready to be shown.
pub fn selected_tests(
    graph: &Graph,
    ids: &Vec<DefId>,
    repo: &RepoFacts,
    config: &Config,
) -> (r: Vec<SelectedTest>)
    requires
        graph.wf(),
        forall|i: int| 0 <= i < ids@.len() ==> graph.has_def(#[trigger] ids@[i]),
    ensures
        render::selected_views(r@) == ids@.map_values(
            |e: DefId| shown(*graph, e, repo@.present, text::opt_view(config.java_runner)),
        ),
{
    let ghost g = *graph;
    let ghost java = text::opt_view(config.java_runner);
    let mut out: Vec<SelectedTest> = Vec::new();
    let mut i: usize = 0;
    while i < ids.len()
        invariant
            i <= ids@.len(),
            g == *graph,
            g.wf(),
            java == text::opt_view(config.java_runner),
            forall|k: int| 0 <= k < ids@.len() ==> g.has_def(#[trigger] ids@[k]),
            out@.len() == i,
            forall|j: int|
                0 <= j < i ==> (#[trigger] out@[j])@ == shown(g, ids@[j], repo@.present, java),
        decreases ids@.len() - i,
    {
        let d = graph.def(ids[i]);
        let file = &graph.files[d.file.0 as usize];
        let module = module_dir(file.path.as_str());
        let tool: Option<&str> = match &config.java_runner {
            Some(t) => Some(t.as_str()),
            None => None,
        };
        let dir: Option<&str> = match &module {
            Some(m) => Some(m.as_str()),
            None => None,
        };
        let t = SelectedTest {
            file: file.path.clone(),
            name: chain_of_def(d),
            runner: runner_for(file.lang.as_str(), dir, repo, tool),
            lang: file.lang.clone(),
            computed: d.computed_name,
        };
        assert(t@ =~= shown(g, ids@[i as int], repo@.present, java));
        out.push(t);
        i = i + 1;
    }
    assert(render::selected_views(out@) =~= ids@.map_values(
        |e: DefId| shown(g, e, repo@.present, java),
    ));
    out
}

/// The line for a selected test.
pub open spec fn test_text(file: Seq<char>, name: Seq<Seq<char>>) -> Seq<char> {
    file + " :: "@ + text::join(name, " > "@)
}

/// The line for a selected test.
pub fn test_line(file: &str, name: &Vec<String>) -> (r: String)
    ensures
        r@ == test_text(file@, text::views(name@)),
{
    cat3(file, " :: ", join_with(name, " > ").as_str())
}

/// The line that sums a selection up.
pub open spec fn footer_text(selected: nat, total: nat, seeds: nat, changed: nat) -> Seq<char> {
    "selected "@ + text::decimal(selected) + "/"@ + text::decimal(total) + " tests ("@
        + text::decimal(seeds) + " seeds, "@ + text::decimal(changed) + " changed files)"@
}

/// The line that sums a selection up.
pub fn footer_line(selected: usize, total: usize, seeds: usize, changed: usize) -> (r: String)
    ensures
        r@ == footer_text(selected as nat, total as nat, seeds as nat, changed as nat),
{
    let mut out = cat("selected ", number(selected as u64).as_str());
    out.append("/");
    out.append(number(total as u64).as_str());
    out.append(" tests (");
    out.append(number(seeds as u64).as_str());
    out.append(" seeds, ");
    out.append(number(changed as u64).as_str());
    out.append(" changed files)");
    out
}

/// How `select` shows its result.
#[derive(Debug, Clone, Copy, PartialEq, Eq, Structural)]
pub enum Format {
    Json,
    Text,
    /// Command lines of the test runners.
    Args,
}

/// The format that was asked for; where none was, text for a person at a
/// terminal, and JSON otherwise.
pub fn resolved_format(asked: Option<Format>, terminal: bool) -> (r: Format)
    ensures
        r == (match asked {
            Some(f) => f,
            None => if terminal {
                Format::Text
            } else {
                Format::Json
            },
        }),
{
    match asked {
        Some(f) => f,
        None => if terminal {
            Format::Text
        } else {
            Format::Json
        },
    }
}

/// How a step of a path is told.
pub open spec fn hop_text(kind: HopKind) -> Seq<char> {
    match kind {
        HopKind::Calls => "called by"@,
        HopKind::Reads => "read by"@,
        HopKind::Contains => "contained in"@,
        HopKind::ImportCloses => "imported by"@,
        HopKind::UnknownName(name) => "possibly called by (unresolved name \""@ + name@ + "\")"@,
    }
}

/// How a step of a path is told.
pub fn hop_kind_label(kind: &HopKind) -> (r: String)
    ensures
        r@ == hop_text(*kind),
{
    match kind {
        HopKind::Calls => "called by".to_owned(),
        HopKind::Reads => "read by".to_owned(),
        HopKind::Contains => "contained in".to_owned(),
        HopKind::ImportCloses => "imported by".to_owned(),
        HopKind::UnknownName(name) => cat3(
            "possibly called by (unresolved name \"",
            name.as_str(),
            "\")",
        ),
    }
}

/// The word for a step of a path, and the name that an unresolved call has.
pub open spec fn hop_tag(kind: HopKind) -> (Seq<char>, Option<Seq<char>>) {
    match kind {
        HopKind::Calls => ("calls"@, None),
        HopKind::Reads => ("reads"@, None),
        HopKind::Contains => ("contains"@, None),
        HopKind::ImportCloses => ("import_closes"@, None),
        HopKind::UnknownName(name) => ("unknown_name"@, Some(name@)),
    }
}

/// The word for a step of a path, and the name that an unresolved call has.
pub fn hop_kind_tag(kind: &HopKind) -> (r: (String, Option<String>))
    ensures
        (r.0@, text::opt_view(r.1)) == hop_tag(*kind),
{
    match kind {
        HopKind::Calls => ("calls".to_owned(), None),
        HopKind::Reads => ("reads".to_owned(), None),
        HopKind::Contains => ("contains".to_owned(), None),
        HopKind::ImportCloses => ("import_closes".to_owned(), None),
        HopKind::UnknownName(name) => ("unknown_name".to_owned(), Some(name.clone())),
    }
}

/// A selected test, with why it was selected.
#[derive(Debug, Clone)]
pub struct WhyCandidate {
    pub file: String,
    pub name: Vec<String>,
    /// The steps from a seed to the test; none for a test that is a seed
    /// itself.
    pub path: Vec<Hop>,
    /// What a query is looked for in.
    pub match_str: String,
    /// The `always-run` pattern that selected the test, where the walk did
    /// not reach it.
    pub always_run_glob: Option<String>,
}

/// Does `c` say why the test `e` was selected?
pub open spec fn explains(
    g: Graph,
    seeds: Seq<Seed>,
    patterns: Seq<Seq<char>>,
    e: DefId,
    c: WhyCandidate,
) -> bool {
    &&& c.file@ == file_of(g, e)
    &&& text::views(c.name@) == chain_of(g.at(e))
    &&& c.match_str@ == test_text(file_of(g, e), chain_of(g.at(e)))
    &&& hops_in(g, c.path@)
    &&& if walk::impacted(g, seeds, e) {
        walk::leads_to(g, seeds, c.path@, e) && c.always_run_glob is None
    } else {
        c.path@.len() == 0 && text::opt_view(c.always_run_glob) == config::first_match(
            patterns,
            file_of(g, e),
        )
    }
}

fn copy_hops(hops: &Vec<Hop>) -> (r: Vec<Hop>)
    ensures
        r@ == hops@,
{
    let mut out: Vec<Hop> = Vec::new();
    let mut i: usize = 0;
    while i < hops.len()
        invariant
            i <= hops@.len(),
            out@ == hops@.take(i as int),
        decreases hops@.len() - i,
    {
        let h = Hop { from: hops[i].from, edge: walk::copy_kind(&hops[i].edge), to: hops[i].to };
        assert(hops@.take(i + 1) =~= hops@.take(i as int).push(hops@[i as int]));
        out.push(h);
        i = i + 1;
    }
    assert(hops@.take(hops@.len() as int) =~= hops@);
    out
}

/// Everything that was selected, in ascending order, with why.
pub fn why_candidates(graph: &Graph, seeds: &[Seed], config: &Config) -> (r: Result<
    Vec<(DefId, WhyCandidate)>,
    ConfigError,
>)
    requires
        graph.wf(),
        walk::edges_closed(*graph),
        walk::seeds_in(*graph, seeds@),
    ensures
        match r {
            Ok(v) => {
                let ids = v@.map_values(|p: (DefId, WhyCandidate)| p.0);
                &&& config.always_run@.len() == 0 || config::globset_fault(
                    text::views(config.always_run@),
                ) is None
                &&& ids_rise(ids)
                &&& forall|e: DefId| #[trigger]
                    ids.contains(e) <==> is_selected(
                        *graph,
                        seeds@,
                        text::views(config.always_run@),
                        e,
                    )
                &&& forall|i: int|
                    0 <= i < v@.len() ==> explains(
                        *graph,
                        seeds@,
                        text::views(config.always_run@),
                        (#[trigger] v@[i]).0,
                        v@[i].1,
                    )
            },
            Err(e) => config.always_run@.len() > 0 && config::globset_fault(
                text::views(config.always_run@),
            ) == Some(e@),
        },
{
    let ghost g = *graph;
    let ghost patterns = text::views(config.always_run@);
    let ids = match selected_test_defs(graph, seeds, config) {
        Ok(v) => v,
        Err(e) => {
            return Err(e);
        },
    };
    let always = match always_run_matches(graph, config) {
        Ok(v) => v,
        Err(e) => {
            return Err(e);
        },
    };
    let walked = impacted_tests_with_paths(graph, seeds);
    let ghost listed = config::always_run_tests(g.defs@, g.files@, patterns);
    proof {
        config::lemma_always_run_tests(g.defs@, g.files@, patterns);
        assert(config::match_views(always@).len() == always@.len());
        lemma_always_run_rise(g.defs@, g.files@, patterns);
    }
    let mut out: Vec<(DefId, WhyCandidate)> = Vec::new();
    let mut w: usize = 0;
    let mut a: usize = 0;
    let mut i: usize = 0;
    while i < ids.len()
        invariant
            i <= ids@.len(),
            g == *graph,
            g.wf(),
            walk::edges_closed(g),
            walk::seeds_in(g, seeds@),
            patterns == text::views(config.always_run@),
            ids_rise(ids@),
            forall|e: DefId| #[trigger]
                ids@.contains(e) <==> is_selected(g, seeds@, patterns, e),
            w <= walked@.len(),
            a <= always@.len() == listed.len(),
            listed == config::match_views(always@),
            listed == config::always_run_tests(g.defs@, g.files@, patterns),
            forall|x: int, y: int|
                0 <= x < y < listed.len() ==> (#[trigger] listed[x]).0.0 < (
                #[trigger] listed[y]).0.0,
            forall|k: int|
                #![trigger config::always_run_tests(g.defs@, g.files@, patterns)[k]]
                0 <= k < listed.len() ==> {
                    let (e, p) = config::always_run_tests(g.defs@, g.files@, patterns)[k];
                    e.0 < g.defs@.len() && g.defs@[e.0 as int].kind == DefKind::TestCase
                        && config::first_match(
                        patterns,
                        g.files@[g.defs@[e.0 as int].file.0 as int].path@,
                    ) == Some(p)
                },
            forall|e: DefId|
                #![trigger g.defs@[e.0 as int]]
                e.0 < g.defs@.len() && g.defs@[e.0 as int].kind == DefKind::TestCase
                    && config::first_match(
                    patterns,
                    g.files@[g.defs@[e.0 as int].file.0 as int].path@,
                ) is Some ==> exists|k: int|
                    0 <= k < config::always_run_tests(g.defs@, g.files@, patterns).len() && (
                    #[trigger] config::always_run_tests(g.defs@, g.files@, patterns)[k]).0 == e,
            forall|x: int, y: int|
                0 <= x < y < walked@.len() ==> (#[trigger] walked@[x]).0.0 < (
                #[trigger] walked@[y]).0.0,
            forall|k: int|
                0 <= k < walked@.len() ==> walk::impacted(g, seeds@, (#[trigger] walked@[k]).0)
                    && walk::leads_to(g, seeds@, walked@[k].1@, walked@[k].0),
            forall|e: DefId|
                g.has_def(e) && g.at(e).kind == DefKind::TestCase && #[trigger] walk::impacted(
                    g,
                    seeds@,
                    e,
                ) ==> exists|k: int| 0 <= k < walked@.len() && (#[trigger] walked@[k]).0 == e,
            forall|k: int| 0 <= k < w ==> i > 0 && (#[trigger] walked@[k]).0.0 <= ids@[i - 1].0,
            forall|k: int| 0 <= k < a ==> i > 0 && (#[trigger] listed[k]).0.0 <= ids@[i - 1].0,
            out@.len() == i,
            forall|j: int| 0 <= j < i ==> (#[trigger] out@[j]).0 == ids@[j],
            forall|j: int|
                0 <= j < i ==> explains(g, seeds@, patterns, (#[trigger] out@[j]).0, out@[j].1),
        decreases ids@.len() - i,
    {
        let id = ids[i];
        assert(ids@.contains(id));
        while w < walked.len() && walked[w].0.0 < id.0
            invariant
                w <= walked@.len(),
                forall|k: int| 0 <= k < w ==> (#[trigger] walked@[k]).0.0 < id.0,
            decreases walked@.len() - w,
        {
            w = w + 1;
        }
        while a < always.len() && always[a].0.0 < id.0
            invariant
                a <= always@.len() == listed.len(),
                listed == config::match_views(always@),
                forall|k: int| 0 <= k < a ==> (#[trigger] listed[k]).0.0 < id.0,
            decreases always@.len() - a,
        {
            assert(listed[a as int].0 == always@[a as int].0);
            a = a + 1;
        }
        let d = graph.def(id);
        let file = graph.files[d.file.0 as usize].path.clone();
        let name = chain_of_def(d);
        let match_str = test_line(file.as_str(), &name);
        let reached: bool = w < walked.len() && walked[w].0.0 == id.0;
        proof {
            if walk::impacted(g, seeds@, id) {
                let k = choose|k: int| 0 <= k < walked@.len() && (#[trigger] walked@[k]).0 == id;
                assert(k >= w);
                if k > w {
                    assert(walked@[w as int].0.0 < walked@[k].0.0);
                }
                assert(reached);
            }
            if reached {
                assert(walked@[w as int].0 == id);
            }
        }
        let c = if reached {
            WhyCandidate {
                file,
                name,
                path: copy_hops(&walked[w].1),
                match_str,
                always_run_glob: None,
            }
        } else {
            proof {
                assert(config::first_match(patterns, file_of(g, id)) is Some);
                assert(g.defs@[id.0 as int].kind == DefKind::TestCase);
                let k = choose|k: int|
                    0 <= k < config::always_run_tests(g.defs@, g.files@, patterns).len() && (
                    #[trigger] config::always_run_tests(g.defs@, g.files@, patterns)[k]).0 == id;
                assert(listed[k].0 == id);
                assert(k >= a);
                if k > a {
                    assert(listed[a as int].0 == always@[a as int].0);
                    assert(listed[a as int].0.0 < listed[k].0.0);
                }
                assert(k == a);
                assert(listed[a as int] == (always@[a as int].0, always@[a as int].1@));
            }
            WhyCandidate {
                file,
                name,
                path: Vec::new(),
                match_str,
                always_run_glob: Some(always[a].1.clone()),
            }
        };
        proof {
            if reached {
                law_paths_stay_in_the_graph(g, seeds@, c.path@, id);
            }
        }
        assert(explains(g, seeds@, patterns, id, c));
        out.push((id, c));
        i = i + 1;
    }
    proof {
        let got = out@.map_values(|p: (DefId, WhyCandidate)| p.0);
        assert(got =~= ids@);
    }
    Ok(out)
}

proof fn lemma_always_run_rise(
    defs: Seq<Def>,
    files: Seq<crate::graph::FileNode>,
    patterns: Seq<Seq<char>>,
)
    requires
        defs.len() <= u32::MAX + 1,
    ensures
        forall|x: int, y: int|
            0 <= x < y < config::always_run_tests(defs, files, patterns).len() ==> (
            #[trigger] config::always_run_tests(defs, files, patterns)[x]).0.0 < (
            #[trigger] config::always_run_tests(defs, files, patterns)[y]).0.0,
    decreases defs.len(),
{
    if defs.len() > 0 {
        let rest = defs.drop_last();
        lemma_always_run_rise(rest, files, patterns);
        config::lemma_always_run_tests(rest, files, patterns);
        let before = config::always_run_tests(rest, files, patterns);
        let now = config::always_run_tests(defs, files, patterns);
        assert forall|x: int, y: int| 0 <= x < y < now.len() implies (#[trigger] now[x]).0.0 < (
        #[trigger] now[y]).0.0 by {
            assert(now[x] == before[x]);
            assert(config::always_run_tests(rest, files, patterns)[x].0.0 < rest.len());
            if y < before.len() {
                assert(now[y] == before[y]);
            }
        }
    }
}

/// The positions of the candidates that hold the query.
pub open spec fn holding(strs: Seq<Seq<char>>, query: Seq<char>) -> Seq<int>
    decreases strs.len(),
{
    if strs.len() == 0 {
        Seq::empty()
    } else {
        let before = holding(strs.drop_last(), query);
        if text::occurs_in(strs.last(), query) {
            before.push(strs.len() - 1)
        } else {
            before
        }
    }
}

/// What the candidates are matched by.
pub open spec fn match_strs(v: Seq<(DefId, WhyCandidate)>) -> Seq<Seq<char>> {
    v.map_values(|p: (DefId, WhyCandidate)| p.1.match_str@)
}

/// Positions as numbers.
pub open spec fn as_ints(v: Seq<usize>) -> Seq<int> {
    v.map_values(|x: usize| x as int)
}

/// The positions of the candidates whose file and names hold the query: a
/// bare name, a path, or the whole line.
pub fn why_matches(candidates: &Vec<(DefId, WhyCandidate)>, query: &str) -> (r: Vec<usize>)
    ensures
        as_ints(r@) == holding(match_strs(candidates@), query@),
        forall|i: int| 0 <= i < r@.len() ==> (#[trigger] r@[i]) < candidates@.len(),
{
    let ghost all = match_strs(candidates@);
    let mut out: Vec<usize> = Vec::new();
    let mut i: usize = 0;
    assert(all.take(0) =~= Seq::empty());
    assert(as_ints(out@) =~= Seq::empty());
    while i < candidates.len()
        invariant
            i <= candidates@.len() == all.len(),
            all == match_strs(candidates@),
            as_ints(out@) == holding(all.take(i as int), query@),
            forall|k: int| 0 <= k < out@.len() ==> (#[trigger] out@[k]) < i,
        decreases candidates@.len() - i,
    {
        assert(all.take(i + 1).drop_last() =~= all.take(i as int));
        assert(all.take(i + 1).last() == candidates@[i as int].1.match_str@);
        if occurs(candidates[i].1.match_str.as_str(), query) {
            let ghost was = out@;
            out.push(i);
            assert(as_ints(out@) =~= as_ints(was).push(i as int));
        }
        i = i + 1;
    }
    assert(all.take(all.len() as int) =~= all);
    out
}

/// The code that `why` exits with: 0 where one test matches, and 1 where
/// none or several do.
pub fn why_exit_code(matches: usize) -> (r: i32)
    ensures
        r == (if matches == 1 {
            0int
        } else {
            1
        }),
{
    if matches == 1 {
        0
    } else {
        1
    }
}

/// The line for the test that a path ends at.
pub open spec fn end_text(file: Seq<char>, name: Seq<Seq<char>>) -> Seq<char> {
    "= test \""@ + text::join(name, " > "@) + "\" ("@ + file + ")"@
}

/// The line for a step that is not the last.
pub open spec fn step_text(g: Graph, h: Hop) -> Seq<char> {
    "  "@ + hop_text(h.edge) + " "@ + g.at(h.to).name@ + " ("@ + file_of(g, h.to) + ")"@
}

/// What `why` says to a person of a selected test.
pub open spec fn why_text(g: Graph, c: WhyCandidate) -> Seq<Seq<char>> {
    let end = end_text(c.file@, text::views(c.name@));
    match c.always_run_glob {
        Some(glob) => seq!["selected by always-run glob '"@ + glob@ + "'"@, "  "@ + end],
        None => if c.path@.len() == 0 {
            seq![end]
        } else {
            let first = c.path@[0].from;
            (seq!["changed "@ + g.at(first).name@ + " ("@ + file_of(g, first) + ")"@]
                + c.path@.drop_last().map_values(|h: Hop| step_text(g, h))).push("  "@ + end)
        },
    }
}

/// Are the ends of all steps definitions of the graph?
pub open spec fn hops_in(g: Graph, hops: Seq<Hop>) -> bool {
    forall|i: int|
        0 <= i < hops.len() ==> g.has_def((#[trigger] hops[i]).from) && g.has_def(hops[i].to)
}

proof fn lemma_container_in(g: Graph, edges: Seq<Edge>, d: DefId)
    requires
        forall|i: int|
            0 <= i < edges.len() ==> ((#[trigger] edges[i]) matches Edge::Contains {
                parent,
                child: _,
            } ==> g.has_def(parent)),
    ensures
        walk::container_of(edges, d) matches Some(p) ==> g.has_def(p),
    decreases edges.len(),
{
    if edges.len() > 0 {
        let rest = edges.drop_last();
        assert forall|i: int| 0 <= i < rest.len() implies ((#[trigger] rest[i]) matches Edge::Contains {
            parent,
            child: _,
        } ==> g.has_def(parent)) by {
            assert(rest[i] == edges[i]);
        }
        lemma_container_in(g, rest, d);
        assert(edges[edges.len() - 1] == edges.last());
    }
}

/// The steps of a path that leads to a test stay in the graph.
pub proof fn law_paths_stay_in_the_graph(
    g: Graph,
    seeds: Seq<Seed>,
    hops: Seq<Hop>,
    t: DefId,
)
    requires
        walk::edges_closed(g),
        walk::seeds_in(g, seeds),
        walk::leads_to(g, seeds, hops, t),
    ensures
        hops_in(g, hops),
{
    assert forall|i: int| 0 <= i < hops.len() implies g.has_def((#[trigger] hops[i]).to) by {
        let h = hops[i];
        assert(walk::hop_holds(g, h.from, h.edge, h.to));
        assert forall|k: int| 0 <= k < g.edges@.len() implies ((
        #[trigger] g.edges@[k]) matches Edge::Contains { parent, child: _ } ==> g.has_def(
            parent,
        )) by {}
        lemma_container_in(g, g.edges@, h.from);
    }
    assert forall|i: int| 0 <= i < hops.len() implies g.has_def((#[trigger] hops[i]).from)
        && g.has_def(hops[i].to) by {
        if i > 0 {
            assert(hops[i - 1].to == hops[i].from);
            assert(g.has_def(hops[i - 1].to));
        }
    }
}

fn end_line(c: &WhyCandidate) -> (r: String)
    ensures
        r@ == end_text(c.file@, text::views(c.name@)),
{
    let head = cat3("= test \"", join_with(&c.name, " > ").as_str(), "\" (");
    cat3(head.as_str(), c.file.as_str(), ")")
}

fn step_line(graph: &Graph, h: &Hop) -> (r: String)
    requires
        graph.wf(),
        graph.has_def(h.to),
    ensures
        r@ == step_text(*graph, *h),
{
    let (name, file) = def_display(graph, h.to);
    let mut out = cat3("  ", hop_kind_label(&h.edge).as_str(), " ");
    out.append(name.as_str());
    out.append(" (");
    out.append(file.as_str());
    out.append(")");
    out
}

/// What `why` says to a person of a selected test: the seed, each step from
/// it, and the test; or the pattern by which it always runs.
pub fn why_text_lines(graph: &Graph, c: &WhyCandidate) -> (r: Vec<String>)
    requires
        graph.wf(),
        hops_in(*graph, c.path@),
    ensures
        text::views(r@) == why_text(*graph, *c),
{
    let ghost g = *graph;
    let ghost end = end_text(c.file@, text::views(c.name@));
    let last = end_line(c);
    let mut out: Vec<String> = Vec::new();
    if let Some(glob) = &c.always_run_glob {
        out.push(cat3("selected by always-run glob '", glob.as_str(), "'"));
        out.push(cat("  ", last.as_str()));
        assert(text::views(out@) =~= why_text(g, *c));
        return out;
    }
    let n: usize = c.path.len();
    if n == 0 {
        out.push(last);
        assert(text::views(out@) =~= why_text(g, *c));
        return out;
    }
    assert(g.has_def(c.path@[0].from));
    let (name, file) = def_display(graph, c.path[0].from);
    let mut head = cat3("changed ", name.as_str(), " (");
    head.append(file.as_str());
    head.append(")");
    let ghost first = seq![head@];
    let ghost steps = c.path@.drop_last().map_values(|h: Hop| step_text(g, h));
    out.push(head);
    let mut i: usize = 0;
    assert(text::views(out@) =~= first + steps.take(0));
    while i < n - 1
        invariant
            i <= n - 1,
            n == c.path@.len(),
            g == *graph,
            g.wf(),
            hops_in(g, c.path@),
            steps == c.path@.drop_last().map_values(|h: Hop| step_text(g, h)),
            text::views(out@) == first + steps.take(i as int),
        decreases n - i,
    {
        assert(g.has_def(c.path@[i as int].to));
        let s = step_line(graph, &c.path[i]);
        assert(steps[i as int] == s@);
        let ghost was = out@;
        out.push(s);
        assert(text::views(out@) =~= text::views(was).push(s@));
        assert(first + steps.take(i + 1) =~= (first + steps.take(i as int)).push(steps[i as int]));
        i = i + 1;
    }
    assert(steps.take(steps.len() as int) =~= steps);
    let ghost was = out@;
    out.push(cat("  ", last.as_str()));
    assert(text::views(out@) =~= text::views(was).push("  "@ + end));
    assert(text::views(out@) =~= why_text(g, *c));
    out
}

/// Every kind of seed is told by a word of its own.
pub proof fn law_seeds_have_words(kind: SeedKind, other: SeedKind)
    ensures
        kind is Body ==> seed_label(kind) == "body"@,
        kind is Signature ==> seed_label(kind) == "signature"@,
        kind is Added ==> seed_label(kind) == "added"@,
        kind is ModuleInit ==> seed_label(kind) == "module_init"@,
        seed_label(kind) == seed_label(other) ==> kind == other,
{
    reveal_strlit("body");
    reveal_strlit("signature");
    reveal_strlit("added");
    reveal_strlit("module_init");
    assert("body"@[0] == 'b' && "signature"@[0] == 's');
    assert("added"@[0] == 'a' && "module_init"@[0] == 'm');
}

/// Every step of a path is told by words of its own: to a caller, to a
/// reader, to what contains, to an importer, and to a call that was not
/// resolved, with its name.
pub proof fn law_steps_have_words(kind: HopKind)
    ensures
        kind is Calls ==> hop_text(kind) == "called by"@ && hop_tag(kind) == ("calls"@, None::<
            Seq<char>,
        >),
        kind is Reads ==> hop_text(kind) == "read by"@ && hop_tag(kind) == ("reads"@, None::<
            Seq<char>,
        >),
        kind is Contains ==> hop_text(kind) == "contained in"@ && hop_tag(kind) == (
            "contains"@,
            None::<Seq<char>>,
        ),
        kind is ImportCloses ==> hop_text(kind) == "imported by"@ && hop_tag(kind) == (
            "import_closes"@,
            None::<Seq<char>>,
        ),
        kind matches HopKind::UnknownName(name) ==> text::occurs_in(hop_text(kind), name@)
            && hop_tag(kind) == ("unknown_name"@, Some(name@)),
{
    if let HopKind::UnknownName(name) = kind {
        text::lemma_occurs("possibly called by (unresolved name \""@, name@, "\")"@);
    }
}

} // verus!
