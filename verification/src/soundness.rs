//! Selections err on the side of too much: what a definition refers to by a
//! name it can see, or by a name that nothing it sees answers to, carries
//! changes back to it.
use vstd::prelude::*;

use crate::classify;
use crate::classify::{ModeView, NewView, OldView, Seed, SeedKind};
use crate::config;
use crate::diffdef;
use crate::diffdef::ChangeView;
use crate::gitio::{ChangedView, StatusView};
use crate::graph;
use crate::graph::{Def, DefId, DefKind, FileId, Graph};
use crate::indexer;
use crate::indexer::EdgeView;
use crate::language;
use crate::language::{ExtractionView, FactsView, Language};
use crate::report;
use crate::walk;

verus! {

/// Does file `i` see the definitions of file `j`: is it the same file or of
/// the same package, or does it import it?
pub open spec fn sees<L: Language>(
    langs: Seq<L>,
    cached: Seq<(Seq<char>, Seq<u8>, ExtractionView)>,
    repo: FactsView,
    i: int,
    j: int,
) -> bool {
    i == j || indexer::same_package(langs, cached, i, j) || indexer::all_imports(
        langs,
        cached,
        repo,
    ).contains(EdgeView::Imports { from: FileId(i as u32), to: FileId(j as u32) })
}

/// Does definition `m` of file `j` answer to `name`?
pub open spec fn answers(
    cached: Seq<(Seq<char>, Seq<u8>, ExtractionView)>,
    j: int,
    m: int,
    name: Seq<char>,
) -> bool {
    &&& 0 <= m < cached[j].2.defs.len()
    &&& cached[j].2.defs[m].kind != DefKind::ModuleInit
    &&& walk::short_name(cached[j].2.defs[m].name) == name
}

proof fn lemma_answering(
    cached: Seq<(Seq<char>, Seq<u8>, ExtractionView)>,
    j: int,
    m: int,
    name: Seq<char>,
    k: int,
)
    requires
        answers(cached, j, m, name),
        m < k <= cached[j].2.defs.len(),
    ensures
        indexer::answering(cached, j, name, k).contains(indexer::id_of(cached, j, m)),
    decreases k,
{
    let before = indexer::answering(cached, j, name, k - 1);
    let now = indexer::answering(cached, j, name, k);
    let d = indexer::id_of(cached, j, m);
    if m < k - 1 {
        lemma_answering(cached, j, m, name, k - 1);
        let at = choose|at: int| 0 <= at < before.len() && before[at] == d;
        assert(now[at] == d);
    } else {
        assert(now[now.len() - 1] == d);
    }
}

proof fn lemma_candidates(
    cached: Seq<(Seq<char>, Seq<u8>, ExtractionView)>,
    scope: Seq<FileId>,
    j: int,
    m: int,
    name: Seq<char>,
)
    requires
        0 <= j <= u32::MAX,
        scope.contains(FileId(j as u32)),
        answers(cached, j, m, name),
    ensures
        indexer::candidates(cached, scope, name).contains(indexer::id_of(cached, j, m)),
    decreases scope.len(),
{
    let d = indexer::id_of(cached, j, m);
    let f = FileId(j as u32);
    let rest = scope.drop_last();
    let before = indexer::candidates(cached, rest, name);
    let now = indexer::candidates(cached, scope, name);
    let at = choose|at: int| 0 <= at < scope.len() && scope[at] == f;
    if at == scope.len() - 1 {
        let own = indexer::answering(cached, j, name, cached[j].2.defs.len() as int);
        lemma_answering(cached, j, m, name, cached[j].2.defs.len() as int);
        let x = choose|x: int| 0 <= x < own.len() && own[x] == d;
        assert(now[before.len() + x] == d);
    } else {
        assert(rest[at] == f);
        lemma_candidates(cached, rest, j, m, name);
        let x = choose|x: int| 0 <= x < before.len() && before[x] == d;
        assert(now[x] == d);
    }
}

proof fn lemma_call_edge(from: DefId, cs: Seq<DefId>, d: DefId)
    requires
        cs.contains(d),
        d != from,
    ensures
        indexer::call_edges(from, cs).contains(EdgeView::Calls { from, to: d }),
    decreases cs.len(),
{
    let e = EdgeView::Calls { from, to: d };
    let rest = cs.drop_last();
    let before = indexer::call_edges(from, rest);
    let now = indexer::call_edges(from, cs);
    let at = choose|at: int| 0 <= at < cs.len() && cs[at] == d;
    if at == cs.len() - 1 {
        assert(now[now.len() - 1] == e);
    } else {
        assert(rest[at] == d);
        lemma_call_edge(from, rest, d);
        let x = choose|x: int| 0 <= x < before.len() && before[x] == e;
        assert(now[x] == e);
    }
}

proof fn lemma_read_edge(from: DefId, cs: Seq<DefId>, d: DefId)
    requires
        cs.contains(d),
        d != from,
    ensures
        indexer::edges_of_read(from, cs).contains(EdgeView::Reads { from, to: d }),
    decreases cs.len(),
{
    let e = EdgeView::Reads { from, to: d };
    let rest = cs.drop_last();
    let before = indexer::edges_of_read(from, rest);
    let now = indexer::edges_of_read(from, cs);
    let at = choose|at: int| 0 <= at < cs.len() && cs[at] == d;
    if at == cs.len() - 1 {
        assert(now[now.len() - 1] == e);
    } else {
        assert(rest[at] == d);
        lemma_read_edge(from, rest, d);
        let x = choose|x: int| 0 <= x < before.len() && before[x] == e;
        assert(now[x] == e);
    }
}

proof fn lemma_reads_in_hold(
    cached: Seq<(Seq<char>, Seq<u8>, ExtractionView)>,
    scope: Seq<FileId>,
    i: int,
    k: int,
    n: int,
    e: EdgeView,
)
    requires
        0 <= k < n <= cached[i].2.reads.len(),
        indexer::edges_of_read(
            indexer::id_of(cached, i, cached[i].2.reads[k].from_def as int),
            indexer::candidates(cached, scope, cached[i].2.reads[k].name),
        ).contains(e),
    ensures
        indexer::reads_in(cached, scope, i, n).contains(e),
    decreases n,
{
    let before = indexer::reads_in(cached, scope, i, n - 1);
    let now = indexer::reads_in(cached, scope, i, n);
    if k < n - 1 {
        lemma_reads_in_hold(cached, scope, i, k, n - 1, e);
        let at = choose|at: int| 0 <= at < before.len() && before[at] == e;
        assert(now[at] == e);
    } else {
        let r = cached[i].2.reads[k];
        let own = indexer::edges_of_read(
            indexer::id_of(cached, i, r.from_def as int),
            indexer::candidates(cached, scope, r.name),
        );
        let at = choose|at: int| 0 <= at < own.len() && own[at] == e;
        assert(now[before.len() + at] == e);
    }
}

proof fn lemma_read_refs_hold<L: Language>(
    langs: Seq<L>,
    cached: Seq<(Seq<char>, Seq<u8>, ExtractionView)>,
    imports: Seq<EdgeView>,
    i: int,
    n: int,
    e: EdgeView,
)
    requires
        0 <= i < n <= cached.len(),
        indexer::reads_in(
            cached,
            indexer::scope_of(langs, cached, imports, i),
            i,
            cached[i].2.reads.len() as int,
        ).contains(e),
    ensures
        indexer::refs_upto(langs, cached, imports, n).contains(e),
    decreases n,
{
    let before = indexer::refs_upto(langs, cached, imports, n - 1);
    let now = indexer::refs_upto(langs, cached, imports, n);
    if i < n - 1 {
        lemma_read_refs_hold(langs, cached, imports, i, n - 1, e);
        let at = choose|at: int| 0 <= at < before.len() && before[at] == e;
        assert(now[at] == e);
    } else {
        let scope = indexer::scope_of(langs, cached, imports, i);
        let calls = indexer::calls_in(cached, scope, i, cached[i].2.calls.len() as int);
        let own = indexer::reads_in(cached, scope, i, cached[i].2.reads.len() as int);
        let at = choose|at: int| 0 <= at < own.len() && own[at] == e;
        assert(now[before.len() + calls.len() + at] == e);
    }
}

/// An edge of a reference is an edge of the graph.
proof fn lemma_in_graph<L: Language>(
    g: Graph,
    langs: Seq<L>,
    cached: Seq<(Seq<char>, Seq<u8>, ExtractionView)>,
    repo: FactsView,
    e: EdgeView,
) -> (at: int)
    requires
        indexer::is_graph_of(g, langs, cached, repo),
        indexer::refs_upto(
            langs,
            cached,
            indexer::all_imports(langs, cached, repo),
            cached.len() as int,
        ).contains(e),
    ensures
        0 <= at < g.edges@.len(),
        indexer::edge_view(g.edges@[at]) == e,
{
    let imports = indexer::all_imports(langs, cached, repo);
    let refs = indexer::refs_upto(langs, cached, imports, cached.len() as int);
    indexer::lemma_once(refs);
    let kept = indexer::once(refs);
    assert(kept.contains(e));
    let x = choose|x: int| 0 <= x < kept.len() && kept[x] == e;
    let all = indexer::all_edges(langs, cached, repo);
    let at = indexer::containments(cached, cached.len() as int).len() + imports.len() + x;
    assert(all[at] == e);
    let views = indexer::edge_views(g.edges@);
    assert(views == all);
    assert(views.len() == g.edges@.len());
    assert(views[at] == indexer::edge_view(g.edges@[at]));
    at
}

/// A call carries changes: where a definition calls a name, a change to any
/// definition of that name in a file that its own file sees reaches it.
pub proof fn law_calls_carry_changes<L: Language>(
    g: Graph,
    langs: Seq<L>,
    cached: Seq<(Seq<char>, Seq<u8>, ExtractionView)>,
    repo: FactsView,
    seeds: Seq<Seed>,
    i: int,
    k: int,
    j: int,
    m: int,
)
    requires
        indexer::is_graph_of(g, langs, cached, repo),
        0 <= i < cached.len() <= u32::MAX + 1,
        0 <= k < cached[i].2.calls.len(),
        0 <= j < cached.len(),
        sees(langs, cached, repo, i, j),
        answers(cached, j, m, cached[i].2.calls[k].name),
        indexer::id_of(cached, j, m) != indexer::id_of(
            cached,
            i,
            cached[i].2.calls[k].from_def as int,
        ),
        walk::impacted(g, seeds, indexer::id_of(cached, j, m)),
    ensures
        walk::impacted(g, seeds, indexer::id_of(cached, i, cached[i].2.calls[k].from_def as int)),
{
    let r = cached[i].2.calls[k];
    let from = indexer::id_of(cached, i, r.from_def as int);
    let d = indexer::id_of(cached, j, m);
    let imports = indexer::all_imports(langs, cached, repo);
    let scope = indexer::scope_of(langs, cached, imports, i);
    let cs = indexer::candidates(cached, scope, r.name);
    let e = EdgeView::Calls { from, to: d };
    indexer::law_scope_holds_package_and_imports(langs, cached, imports, i, j);
    lemma_candidates(cached, scope, j, m, r.name);
    lemma_call_edge(from, cs, d);
    assert(indexer::edges_of_call(from, cs, r.name) == indexer::call_edges(from, cs));
    let n = cached[i].2.calls.len() as int;
    indexer::lemma_calls_in_holds(cached, scope, i, k, n, e);
    indexer::lemma_refs_hold(langs, cached, imports, i, cached.len() as int, e);
    let at = lemma_in_graph(g, langs, cached, repo, e);
    assert(walk::caller_in(g.edges@[at], d) == Some(from));
    assert(walk::calls(g, from, d));
    walk::law_impact_propagates(g, seeds, d, from);
}

/// A call of a name that nothing in sight answers to is not forgotten: a
/// change to any definition of that name, wherever it stands, reaches the
/// caller.
pub proof fn law_unresolved_calls_carry_changes<L: Language>(
    g: Graph,
    langs: Seq<L>,
    cached: Seq<(Seq<char>, Seq<u8>, ExtractionView)>,
    repo: FactsView,
    seeds: Seq<Seed>,
    i: int,
    k: int,
    d: DefId,
)
    requires
        indexer::is_graph_of(g, langs, cached, repo),
        0 <= i < cached.len(),
        0 <= k < cached[i].2.calls.len(),
        ({
            let r = cached[i].2.calls[k];
            let from = indexer::id_of(cached, i, r.from_def as int);
            let imports = indexer::all_imports(langs, cached, repo);
            let scope = indexer::scope_of(langs, cached, imports, i);
            forall|c: DefId| #[trigger]
                indexer::candidates(cached, scope, r.name).contains(c) ==> c == from
        }),
        walk::short_name(g.at(d).name@) == cached[i].2.calls[k].name,
        walk::impacted(g, seeds, d),
    ensures
        walk::impacted(g, seeds, indexer::id_of(cached, i, cached[i].2.calls[k].from_def as int)),
{
    let r = cached[i].2.calls[k];
    let from = indexer::id_of(cached, i, r.from_def as int);
    let imports = indexer::all_imports(langs, cached, repo);
    let scope = indexer::scope_of(langs, cached, imports, i);
    let cs = indexer::candidates(cached, scope, r.name);
    let e = EdgeView::Unknown { from, name: r.name };
    lemma_no_call_edges(from, cs);
    assert(indexer::edges_of_call(from, cs, r.name)[0] == e);
    let n = cached[i].2.calls.len() as int;
    indexer::lemma_calls_in_holds(cached, scope, i, k, n, e);
    indexer::lemma_refs_hold(langs, cached, imports, i, cached.len() as int, e);
    let at = lemma_in_graph(g, langs, cached, repo, e);
    assert(walk::namer_in(g.edges@[at], r.name) == Some(from));
    assert(walk::names(g, from, r.name));
    walk::law_impact_propagates(g, seeds, d, from);
}

proof fn lemma_no_call_edges(from: DefId, cs: Seq<DefId>)
    requires
        forall|c: DefId| #[trigger] cs.contains(c) ==> c == from,
    ensures
        indexer::call_edges(from, cs).len() == 0,
    decreases cs.len(),
{
    if cs.len() > 0 {
        assert(cs[cs.len() - 1] == cs.last());
        assert(cs.contains(cs.last()));
        let rest = cs.drop_last();
        assert forall|c: DefId| #[trigger] rest.contains(c) implies c == from by {
            let at = choose|at: int| 0 <= at < rest.len() && rest[at] == c;
            assert(cs[at] == c);
            assert(cs.contains(c));
        }
        lemma_no_call_edges(from, rest);
    }
}

/// A read carries changes as a call does.
pub proof fn law_reads_carry_changes<L: Language>(
    g: Graph,
    langs: Seq<L>,
    cached: Seq<(Seq<char>, Seq<u8>, ExtractionView)>,
    repo: FactsView,
    seeds: Seq<Seed>,
    i: int,
    k: int,
    j: int,
    m: int,
)
    requires
        indexer::is_graph_of(g, langs, cached, repo),
        0 <= i < cached.len() <= u32::MAX + 1,
        0 <= k < cached[i].2.reads.len(),
        0 <= j < cached.len(),
        sees(langs, cached, repo, i, j),
        answers(cached, j, m, cached[i].2.reads[k].name),
        indexer::id_of(cached, j, m) != indexer::id_of(
            cached,
            i,
            cached[i].2.reads[k].from_def as int,
        ),
        walk::impacted(g, seeds, indexer::id_of(cached, j, m)),
    ensures
        walk::impacted(g, seeds, indexer::id_of(cached, i, cached[i].2.reads[k].from_def as int)),
{
    let r = cached[i].2.reads[k];
    let from = indexer::id_of(cached, i, r.from_def as int);
    let d = indexer::id_of(cached, j, m);
    let imports = indexer::all_imports(langs, cached, repo);
    let scope = indexer::scope_of(langs, cached, imports, i);
    let cs = indexer::candidates(cached, scope, r.name);
    let e = EdgeView::Reads { from, to: d };
    indexer::law_scope_holds_package_and_imports(langs, cached, imports, i, j);
    lemma_candidates(cached, scope, j, m, r.name);
    lemma_read_edge(from, cs, d);
    let n = cached[i].2.reads.len() as int;
    lemma_reads_in_hold(cached, scope, i, k, n, e);
    lemma_read_refs_hold(langs, cached, imports, i, cached.len() as int, e);
    let at = lemma_in_graph(g, langs, cached, repo, e);
    assert(walk::reader_in(g.edges@[at], d) == Some(from));
    assert(walk::reads(g, from, d));
    walk::law_impact_propagates(g, seeds, d, from);
}

/// The definitions of a file are listed in their order.
proof fn lemma_ids_of_file(
    defs: Seq<Def>,
    cached: Seq<(Seq<char>, Seq<u8>, ExtractionView)>,
    j: int,
    x: int,
)
    requires
        indexer::defs_are(defs, cached, cached.len() as int),
        0 <= j < cached.len() <= u32::MAX + 1,
        0 <= x <= defs.len(),
    ensures
        ({
            let start = indexer::base_of(cached, j);
            let len = cached[j].2.defs.len();
            let ids = graph::ids_in_file(defs.take(x), FileId(j as u32));
            &&& ids.len() == (if x <= start {
                0
            } else if x <= start + len {
                x - start
            } else {
                len as int
            })
            &&& forall|m: int|
                0 <= m < ids.len() ==> #[trigger] ids[m] == indexer::id_of(cached, j, m)
        }),
    decreases x,
{
    let f = FileId(j as u32);
    if x > 0 {
        lemma_ids_of_file(defs, cached, j, x - 1);
        let upto = defs.take(x);
        assert(upto.drop_last() =~= defs.take(x - 1));
        assert(upto.last() == defs[x - 1]);
        let (i, k) = indexer::lemma_where(cached, cached.len() as int, x - 1);
        assert(indexer::is_def(
            defs[indexer::base_of(cached, i) + k],
            cached[i].2.defs[k],
            FileId(i as u32),
        ));
        if i < j {
            indexer::lemma_base_monotone(cached, i + 1, j);
        } else if i > j {
            indexer::lemma_base_monotone(cached, j + 1, i);
        }
    } else {
        assert(defs.take(0) =~= Seq::<Def>::empty());
    }
}

/// A test that calls a definition that changed is selected: where a test
/// calls a name, and a definition of that name in a file that the test's
/// file sees was added or changed its signature or its body.
pub proof fn law_callers_of_changes_are_selected<L: Language>(
    g: Graph,
    langs: Seq<L>,
    cached: Seq<(Seq<char>, Seq<u8>, ExtractionView)>,
    repo: FactsView,
    changed: Seq<ChangedView>,
    sides: Seq<(OldView, NewView)>,
    patterns: Seq<Seq<char>>,
    x: int,
    o: ExtractionView,
    c: ChangeView,
    i: int,
    k: int,
    j: int,
    m: usize,
)
    requires
        indexer::is_graph_of(g, langs, cached, repo),
        indexer::all_wf(cached),
        0 <= i < cached.len(),
        0 <= k < cached[i].2.calls.len(),
        0 <= j < cached.len(),
        sees(langs, cached, repo, i, j),
        answers(cached, j, m as int, cached[i].2.calls[k].name),
        cached[i].2.defs[cached[i].2.calls[k].from_def as int].kind == DefKind::TestCase,
        0 <= x < changed.len(),
        changed[x].status is Modified || changed[x].status is Renamed,
        language::lang_for(langs, changed[x].path) is Some,
        classify::file_at(g.files@, changed[x].path) == Some(FileId(j as u32)),
        sides[x] == (OldView::Known(o), NewView::Known(cached[j].2)),
        diffdef::diff(o.defs, cached[j].2.defs).contains(c),
        diffdef::change_index(c) == Some(m),
    ensures
        classify::mode(g, langs, changed, cached, sides) matches ModeView::Selection(seeds)
            ==> report::is_selected(
            g,
            seeds,
            patterns,
            indexer::id_of(cached, i, cached[i].2.calls[k].from_def as int),
        ),
{
    let f = FileId(j as u32);
    let n = cached.len() as int;
    let d = indexer::id_of(cached, j, m as int);
    let r = cached[i].2.calls[k];
    let t = indexer::id_of(cached, i, r.from_def as int);
    assert(cached[i].2.wf());
    indexer::lemma_id_bounds(cached, i, r.from_def as int, n);
    assert(indexer::is_def(
        g.defs@[indexer::base_of(cached, i) + r.from_def],
        cached[i].2.defs[r.from_def as int],
        FileId(i as u32),
    ));
    indexer::lemma_base_monotone(cached, j + 1, n);
    lemma_ids_of_file(g.defs@, cached, j, g.defs@.len() as int);
    assert(g.defs@.take(g.defs@.len() as int) =~= g.defs@);
    let ids = graph::ids_in_file(g.defs@, f);
    assert(ids[m as int] == d);
    let own = classify::change_seeds(g, f, c);
    let seed = own[0];
    assert(seed.def == d);
    assert(own.contains(seed));
    classify::law_every_change_is_seeded(
        g,
        langs,
        changed,
        cached,
        sides,
        x,
        o,
        cached[j].2,
        f,
        c,
        seed,
    );
    match classify::mode(g, langs, changed, cached, sides) {
        ModeView::Selection(seeds) => {
            let at = choose|at: int| 0 <= at < seeds.len() && seeds[at] == seed;
            walk::law_seeds_are_impacted(g, seeds, at);
            if d != t {
                law_calls_carry_changes(g, langs, cached, repo, seeds, i, k, j, m as int);
            }
            report::law_selection_holds_every_impacted_test(g, seeds, patterns, t);
        },
        ModeView::RunAll { .. } => {},
    }
}

/// A configuration file that moves to where an `ignore` pattern matches runs
/// everything.
pub proof fn law_config_moved_out_of_sight_runs_all<L: Language>(
    g: Graph,
    langs: Seq<L>,
    changed: Seq<ChangedView>,
    patterns: Seq<Seq<char>>,
    extractions: Seq<(Seq<char>, Seq<u8>, ExtractionView)>,
    sides: Seq<(OldView, NewView)>,
    i: int,
    old: Seq<char>,
)
    requires
        0 <= i < changed.len(),
        changed[i].status == (StatusView::Renamed { old }),
        config::is_ignored(patterns, changed[i].path),
        !config::is_ignored(patterns, old),
        classify::config_file(old),
    ensures
        classify::mode(g, langs, config::not_ignored(changed, patterns), extractions, sides)
            is RunAll,
{
    let gone = ChangedView { path: old, status: StatusView::Deleted };
    config::law_ignored_changes_are_left_out(changed, patterns, gone);
    let kept = config::not_ignored(changed, patterns);
    let at = choose|at: int| 0 <= at < kept.len() && kept[at] == gone;
    classify::law_config_change_runs_all(g, langs, kept, extractions, sides, at);
}

/// A source file that moves to where an `ignore` pattern matches is not
/// forgotten: a file that mentions its old path in an import has its module
/// init seeded.
pub proof fn law_importers_of_files_moved_out_of_sight_are_seeded<L: Language>(
    g: Graph,
    langs: Seq<L>,
    changed: Seq<ChangedView>,
    patterns: Seq<Seq<char>>,
    extractions: Seq<(Seq<char>, Seq<u8>, ExtractionView)>,
    sides: Seq<(OldView, NewView)>,
    i: int,
    old: Seq<char>,
    k: int,
    j: int,
    m: DefId,
)
    requires
        0 <= i < changed.len(),
        changed[i].status == (StatusView::Renamed { old }),
        config::is_ignored(patterns, changed[i].path),
        !config::is_ignored(patterns, old),
        0 <= k < extractions.len(),
        0 <= j < extractions[k].2.imports.len(),
        classify::mentions(extractions[k].2.imports[j].raw, old),
        graph::init_of(g.defs@, FileId(k as u32)) == Some(m),
    ensures
        classify::mode(
            g,
            langs,
            config::not_ignored(changed, patterns),
            extractions,
            sides,
        ) matches ModeView::Selection(seeds) ==> seeds.contains(
            Seed { def: m, kind: SeedKind::ModuleInit },
        ),
{
    let gone = ChangedView { path: old, status: StatusView::Deleted };
    config::law_ignored_changes_are_left_out(changed, patterns, gone);
    let kept = config::not_ignored(changed, patterns);
    let at = choose|at: int| 0 <= at < kept.len() && kept[at] == gone;
    classify::law_importers_are_seeded(g, langs, kept, extractions, sides, at, k, j, m);
}

} // verus!
