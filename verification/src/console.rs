//! What the commands print for a person.
use vstd::prelude::*;

use crate::classify::{ChangeMode, ModeView};
use crate::graph::{DefId, Edge, Graph};
use crate::indexer::IndexStats;
use crate::render;
use crate::render::{command_lines, SelectedTest, SelectedView};
use crate::report;
use crate::report::{count_edges, count_tests, footer_line, test_line, Format, WhyCandidate};
use crate::text;
use crate::text::{cat, cat3, number};

verus! {

/// Lines for standard output and lines for standard error.
#[derive(Debug, Clone, PartialEq, Eq)]
pub struct Printed {
    pub out: Vec<String>,
    pub err: Vec<String>,
}

/// What [`Printed`] says.
#[verifier::ext_equal]
pub struct PrintedView {
    pub out: Seq<Seq<char>>,
    pub err: Seq<Seq<char>>,
}

impl View for Printed {
    type V = PrintedView;

    open spec fn view(&self) -> PrintedView {
        PrintedView { out: text::views(self.out@), err: text::views(self.err@) }
    }
}

/// What may be printed.
pub open spec fn opt_printed(o: Option<Printed>) -> Option<PrintedView> {
    match o {
        Some(p) => Some(p@),
        None => None,
    }
}

/// One line.
fn one(line: String) -> (r: Vec<String>)
    ensures
        text::views(r@) == seq![line@],
{
    let mut out: Vec<String> = Vec::new();
    out.push(line);
    assert(text::views(out@) =~= seq![line@]);
    out
}

/// No line.
fn none() -> (r: Vec<String>)
    ensures
        text::views(r@) == Seq::<Seq<char>>::empty(),
{
    let out: Vec<String> = Vec::new();
    assert(text::views(out@) =~= Seq::empty());
    out
}

/// The mode where the changes since `--from` could not be listed: everything
/// runs, and the error is the reason.
pub fn listing_failed(error: &str) -> (r: ChangeMode)
    ensures
        r@ == (ModeView::RunAll { reason: "listing files changed since --from: "@ + error@ }),
{
    ChangeMode::RunAll { reason: cat("listing files changed since --from: ", error) }
}

/// The mode where the revision of `--to` could not be checked out: everything
/// runs, and the error is the reason.
pub fn checkout_failed(error: &str) -> (r: ChangeMode)
    ensures
        r@ == (ModeView::RunAll { reason: "checking out the revision of --to: "@ + error@ }),
{
    ChangeMode::RunAll { reason: cat("checking out the revision of --to: ", error) }
}

/// The counts of a graph's edges.
pub open spec fn edges_text(g: Graph) -> Seq<char> {
    "calls: "@ + text::decimal(report::edges_among(g.edges@, |e: Edge| e is Calls)) + "  reads: "@
        + text::decimal(report::edges_among(g.edges@, |e: Edge| e is Reads)) + "  unresolved: "@
        + text::decimal(report::edges_among(g.edges@, |e: Edge| report::is_unresolved(e)))
}

fn edges_line(graph: &Graph) -> (r: String)
    ensures
        r@ == edges_text(*graph),
{
    let counts = count_edges(graph);
    let mut out = cat("calls: ", number(counts.calls as u64).as_str());
    out.append("  reads: ");
    out.append(number(counts.reads as u64).as_str());
    out.append("  unresolved: ");
    out.append(number(counts.unresolved as u64).as_str());
    out
}

/// What `index` says that it did.
pub open spec fn index_text(g: Graph, stats: IndexStats, ms: u64) -> PrintedView {
    let files = text::decimal(g.files@.len());
    let defs = text::decimal(g.defs@.len());
    let tests = text::decimal(report::tests_among(g.defs@));
    let parsed = text::decimal(stats.parsed as nat);
    let reused = text::decimal(stats.reused as nat);
    let time = text::decimal(ms as nat);
    PrintedView {
        out: seq![
            "Indexed "@ + files + " files: "@ + defs + " defs ("@ + tests + " tests)"@,
            "  parsed: "@ + parsed + "  reused: "@ + reused + "  time: "@ + time + "ms"@,
            "  "@ + edges_text(g),
        ],
        err: seq![
            "indexed "@ + files + " files ("@ + parsed + " parsed, "@ + reused + " reused) in "@
                + time + "ms"@,
        ],
    }
}

/// What `index` says that it did.
pub fn index_lines(graph: &Graph, stats: IndexStats, ms: u64) -> (r: Printed)
    ensures
        r@ == index_text(*graph, stats, ms),
{
    let files = number(graph.files.len() as u64);
    let parsed = number(stats.parsed as u64);
    let reused = number(stats.reused as u64);
    let time = number(ms);
    let mut first = cat3("Indexed ", files.as_str(), " files: ");
    first.append(number(graph.defs.len() as u64).as_str());
    first.append(" defs (");
    first.append(number(count_tests(graph) as u64).as_str());
    first.append(" tests)");
    let mut second = cat3("  parsed: ", parsed.as_str(), "  reused: ");
    second.append(reused.as_str());
    second.append("  time: ");
    second.append(time.as_str());
    second.append("ms");
    let mut out: Vec<String> = Vec::new();
    out.push(first);
    out.push(second);
    out.push(cat("  ", edges_line(graph).as_str()));
    let mut done = cat3("indexed ", files.as_str(), " files (");
    done.append(parsed.as_str());
    done.append(" parsed, ");
    done.append(reused.as_str());
    done.append(" reused) in ");
    done.append(time.as_str());
    done.append("ms");
    let r = Printed { out, err: one(done) };
    assert(r@.out =~= index_text(*graph, stats, ms).out);
    assert(r@.err =~= index_text(*graph, stats, ms).err);
    r
}

/// What `stats` says of the index in the directory `root`, whose file has
/// `bytes` bytes.
pub open spec fn stats_text(g: Graph, root: Seq<char>, bytes: u64) -> Seq<Seq<char>> {
    seq![
        "Cache: "@ + root,
        "files: "@ + text::decimal(g.files@.len()) + "  defs: "@ + text::decimal(g.defs@.len())
            + "  tests: "@ + text::decimal(report::tests_among(g.defs@)) + "  edges: "@
            + text::decimal(g.edges@.len()) + "  size: "@ + text::decimal(bytes as nat)
            + " bytes"@,
        edges_text(g),
    ]
}

/// What `stats` says of the index in the directory `root`, whose file has
/// `bytes` bytes.
pub fn stats_lines(graph: &Graph, root: &str, bytes: u64) -> (r: Vec<String>)
    ensures
        text::views(r@) == stats_text(*graph, root@, bytes),
{
    let mut second = cat("files: ", number(graph.files.len() as u64).as_str());
    second.append("  defs: ");
    second.append(number(graph.defs.len() as u64).as_str());
    second.append("  tests: ");
    second.append(number(count_tests(graph) as u64).as_str());
    second.append("  edges: ");
    second.append(number(graph.edges.len() as u64).as_str());
    second.append("  size: ");
    second.append(number(bytes).as_str());
    second.append(" bytes");
    let mut out: Vec<String> = Vec::new();
    out.push(cat("Cache: ", root));
    out.push(second);
    out.push(edges_line(graph));
    assert(text::views(out@) =~= stats_text(*graph, root@, bytes));
    out
}

/// What `select` prints where everything has to run; nothing is said here of
/// JSON. Standard output holds command lines and nothing else where those
/// were asked for.
pub open spec fn run_all_text(format: Format, reason: Seq<char>) -> Option<PrintedView> {
    let line = seq!["run all: "@ + reason];
    match format {
        Format::Json => None,
        Format::Text => Some(PrintedView { out: line, err: Seq::empty() }),
        Format::Args => Some(PrintedView { out: Seq::empty(), err: line }),
    }
}

/// What `select` prints where everything has to run; none where JSON was
/// asked for.
pub fn run_all_lines(format: Format, reason: &str) -> (r: Option<Printed>)
    ensures
        opt_printed(r) == run_all_text(format, reason@),
{
    let line = one(cat("run all: ", reason));
    match format {
        Format::Json => None,
        Format::Text => Some(Printed { out: line, err: none() }),
        Format::Args => Some(Printed { out: none(), err: line }),
    }
}

/// The numbers that a selection is summed up by.
#[derive(Debug, Clone, Copy, PartialEq, Eq, Structural)]
pub struct Totals {
    /// How many tests there are.
    pub total_known: usize,
    pub seeds: usize,
    pub changed_files: usize,
}

/// The lines for selected tests.
pub open spec fn test_texts(tests: Seq<SelectedView>) -> Seq<Seq<char>> {
    tests.map_values(|t: SelectedView| report::test_text(t.file, t.name))
}

/// Is this what `select` prints of a selection? The tests or the commands
/// that run them go to standard output, and the numbers to standard error.
pub open spec fn shows_selection(
    p: PrintedView,
    format: Format,
    tests: Seq<SelectedView>,
    totals: Totals,
) -> bool {
    &&& match format {
        Format::Json => false,
        Format::Text => p.out == test_texts(tests),
        Format::Args => text::ascending(p.out) && forall|l: Seq<char>| #[trigger]
            p.out.contains(l) <==> render::runs_one_of(tests, l),
    }
    &&& p.err == seq![
        report::footer_text(
            tests.len(),
            totals.total_known as nat,
            totals.seeds as nat,
            totals.changed_files as nat,
        ),
    ]
}

fn test_lines(tests: &Vec<SelectedTest>) -> (r: Vec<String>)
    ensures
        text::views(r@) == test_texts(render::selected_views(tests@)),
{
    let ghost all = render::selected_views(tests@);
    let mut out: Vec<String> = Vec::new();
    let mut i: usize = 0;
    while i < tests.len()
        invariant
            i <= tests@.len() == all.len(),
            all == render::selected_views(tests@),
            out@.len() == i,
            forall|j: int|
                0 <= j < i ==> (#[trigger] out@[j])@ == report::test_text(all[j].file, all[j].name),
        decreases tests@.len() - i,
    {
        assert(all[i as int] == tests@[i as int]@);
        out.push(test_line(tests[i].file.as_str(), &tests[i].name));
        i = i + 1;
    }
    assert(text::views(out@) =~= test_texts(all));
    out
}

/// What `select` prints of a selection; none where JSON was asked for.
pub fn selection_lines(format: Format, tests: &Vec<SelectedTest>, totals: Totals) -> (r: Option<
    Printed,
>)
    ensures
        match opt_printed(r) {
            Some(p) => shows_selection(p, format, render::selected_views(tests@), totals),
            None => format == Format::Json,
        },
{
    let out = match format {
        Format::Json => {
            return None;
        },
        Format::Text => test_lines(tests),
        Format::Args => command_lines(tests.as_slice()),
    };
    assert(render::selected_views(tests@).len() == tests@.len());
    let footer = footer_line(
        tests.len(),
        totals.total_known,
        totals.seeds,
        totals.changed_files,
    );
    Some(Printed { out, err: one(footer) })
}

/// The lines for the candidates at these positions.
pub open spec fn candidate_texts(candidates: Seq<(DefId, WhyCandidate)>, at: Seq<int>) -> Seq<
    Seq<char>,
> {
    at.map_values(|i: int| "  "@ + candidates[i].1.match_str@)
}

/// What `why` says, when a query matches the candidates at these positions.
pub open spec fn answer_text(
    g: Graph,
    candidates: Seq<(DefId, WhyCandidate)>,
    at: Seq<int>,
    query: Seq<char>,
) -> Seq<Seq<char>> {
    if at.len() == 0 {
        seq!["not selected: no impacted test matches \""@ + query + "\""@]
    } else if at.len() == 1 {
        report::why_text(g, candidates[at[0]].1)
    } else {
        seq!["ambiguous match for \""@ + query + "\", candidates:"@] + candidate_texts(
            candidates,
            at,
        )
    }
}

/// What `why` says of the candidates that the query matches: how the one was
/// reached, that there is none, or which ones there are.
pub fn why_lines(
    graph: &Graph,
    candidates: &Vec<(DefId, WhyCandidate)>,
    matches: &Vec<usize>,
    query: &str,
) -> (r: Vec<String>)
    requires
        graph.wf(),
        forall|i: int|
            0 <= i < candidates@.len() ==> report::hops_in(
                *graph,
                (#[trigger] candidates@[i]).1.path@,
            ),
        forall|i: int| 0 <= i < matches@.len() ==> (#[trigger] matches@[i]) < candidates@.len(),
    ensures
        text::views(r@) == answer_text(
            *graph,
            candidates@,
            report::as_ints(matches@),
            query@,
        ),
{
    let ghost at = report::as_ints(matches@);
    if matches.len() == 0 {
        return one(cat3("not selected: no impacted test matches \"", query, "\""));
    }
    if matches.len() == 1 {
        assert(at[0] == matches@[0]);
        return report::why_text_lines(graph, &candidates[matches[0]].1);
    }
    let mut out = one(cat3("ambiguous match for \"", query, "\", candidates:"));
    let ghost head = text::views(out@);
    let ghost rest = candidate_texts(candidates@, at);
    let mut i: usize = 0;
    assert(text::views(out@) =~= head + rest.take(0));
    while i < matches.len()
        invariant
            i <= matches@.len() == rest.len(),
            forall|k: int| 0 <= k < matches@.len() ==> (#[trigger] matches@[k]) < candidates@.len(),
            at == report::as_ints(matches@),
            rest == candidate_texts(candidates@, at),
            text::views(out@) == head + rest.take(i as int),
        decreases matches@.len() - i,
    {
        assert(at[i as int] == matches@[i as int]);
        let line = cat("  ", candidates[matches[i]].1.match_str.as_str());
        assert(line@ == rest[i as int]);
        let ghost was = out@;
        out.push(line);
        assert(text::views(out@) =~= text::views(was).push(line@));
        assert(head + rest.take(i + 1) =~= (head + rest.take(i as int)).push(rest[i as int]));
        i = i + 1;
    }
    assert(rest.take(rest.len() as int) =~= rest);
    out
}

/// Where everything has to run, `select` prints no command line: nothing goes
/// to standard output when commands were asked for.
pub proof fn law_no_commands_where_everything_runs(reason: Seq<char>)
    ensures
        run_all_text(Format::Args, reason) matches Some(p) && p.out.len() == 0,
{
}

} // verus!
