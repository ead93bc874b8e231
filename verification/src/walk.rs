//! The impact walk: from a set of changed definitions to every test that
//! could observe the change.
//!
//! Visiting a definition leads on to
//! - whatever calls it;
//! - whatever reads it;
//! - what contains it, unless the container is a module init: a file's
//!   module init holds every top-level definition by bookkeeping alone, and
//!   that says nothing about behaviour;
//! - whatever makes an unresolved call of its short name;
//! - when it is a module init, the module inits and tests of every file that
//!   imports its file, directly or not, its own file included: importing a
//!   module runs it.
//!
//! A test is collected when it is visited, and the walk goes on through it:
//! other tests may use it as a helper.
use vstd::prelude::*;

use crate::classify::Seed;
use crate::graph;
use crate::graph::{CallTarget, DefId, DefKind, Edge, FileId, Graph};
use crate::names::NameLists;
use crate::reach;
use crate::text;
use crate::text::tail_after;

verus! {

/// How one definition of a path leads to the next.
#[derive(Debug, Clone, PartialEq, Eq)]
pub enum HopKind {
    Calls,
    Reads,
    Contains,
    /// The importer closure of a changed module init.
    ImportCloses,
    /// An unresolved call of this name.
    UnknownName(String),
}

/// One step of a path: a change to `from` is observed by `to`.
#[derive(Debug, Clone, PartialEq, Eq)]
pub struct Hop {
    pub from: DefId,
    pub edge: HopKind,
    pub to: DefId,
}

/// The caller of `d` that this edge records.
pub open spec fn caller_in(e: Edge, d: DefId) -> Option<DefId> {
    match e {
        Edge::Calls { from, to: CallTarget::Resolved(t) } => if t == d {
            Some(from)
        } else {
            None
        },
        _ => None,
    }
}

/// The maker of an unresolved call of `name` that this edge records.
pub open spec fn namer_in(e: Edge, name: Seq<char>) -> Option<DefId> {
    match e {
        Edge::Calls { from, to: CallTarget::Unknown(n) } => if n@ == name {
            Some(from)
        } else {
            None
        },
        _ => None,
    }
}

/// The reader of `d` that this edge records.
pub open spec fn reader_in(e: Edge, d: DefId) -> Option<DefId> {
    match e {
        Edge::Reads { from, to } => if to == d {
            Some(from)
        } else {
            None
        },
        _ => None,
    }
}

/// The container of `d` that this edge records.
pub open spec fn container_in(e: Edge, d: DefId) -> Option<DefId> {
    match e {
        Edge::Contains { parent, child } => if child == d {
            Some(parent)
        } else {
            None
        },
        _ => None,
    }
}

/// The importer of `f` that this edge records.
pub open spec fn importer_in(e: Edge, f: FileId) -> Option<FileId> {
    match e {
        Edge::Imports { from, to } => if to == f {
            Some(from)
        } else {
            None
        },
        _ => None,
    }
}

/// Everything that `sel` picks out of the edges, in their order.
pub open spec fn collect<T>(edges: Seq<Edge>, sel: spec_fn(Edge) -> Option<T>) -> Seq<T>
    decreases edges.len(),
{
    if edges.len() == 0 {
        Seq::empty()
    } else {
        let before = collect(edges.drop_last(), sel);
        match sel(edges.last()) {
            Some(x) => before.push(x),
            None => before,
        }
    }
}

pub open spec fn callers_of(edges: Seq<Edge>, d: DefId) -> Seq<DefId> {
    collect(edges, |e: Edge| caller_in(e, d))
}

pub open spec fn namers_of(edges: Seq<Edge>, name: Seq<char>) -> Seq<DefId> {
    collect(edges, |e: Edge| namer_in(e, name))
}

pub open spec fn readers_of(edges: Seq<Edge>, d: DefId) -> Seq<DefId> {
    collect(edges, |e: Edge| reader_in(e, d))
}

pub open spec fn importers_of(edges: Seq<Edge>, f: FileId) -> Seq<FileId> {
    collect(edges, |e: Edge| importer_in(e, f))
}

/// The container of `d`: the one that was recorded last.
pub open spec fn container_of(edges: Seq<Edge>, d: DefId) -> Option<DefId>
    decreases edges.len(),
{
    if edges.len() == 0 {
        None
    } else {
        match container_in(edges.last(), d) {
            Some(p) => Some(p),
            None => container_of(edges.drop_last(), d),
        }
    }
}

/// The last `.`-separated segment of a definition's name: `m` for `C.m`.
pub open spec fn short_name(name: Seq<char>) -> Seq<char> {
    text::after_last(name, '.')
}

/// Does `c` call `d`?
pub open spec fn calls(g: Graph, c: DefId, d: DefId) -> bool {
    exists|i: int| 0 <= i < g.edges@.len() && caller_in(#[trigger] g.edges@[i], d) == Some(c)
}

/// Does `r` read `d`?
pub open spec fn reads(g: Graph, r: DefId, d: DefId) -> bool {
    exists|i: int| 0 <= i < g.edges@.len() && reader_in(#[trigger] g.edges@[i], d) == Some(r)
}

/// Does `c` make an unresolved call of `name`?
pub open spec fn names(g: Graph, c: DefId, name: Seq<char>) -> bool {
    exists|i: int| 0 <= i < g.edges@.len() && namer_in(#[trigger] g.edges@[i], name) == Some(c)
}

/// Does file `a` import file `b`?
pub open spec fn imports(g: Graph, a: FileId, b: FileId) -> bool {
    exists|i: int| 0 <= i < g.edges@.len() && importer_in(#[trigger] g.edges@[i], b) == Some(a)
}

/// Is `p` what embeds the behaviour of `d`?
pub open spec fn embeds(g: Graph, p: DefId, d: DefId) -> bool {
    container_of(g.edges@, d) == Some(p) && g.at(p).kind != DefKind::ModuleInit
}

/// One step from a file to a file that imports it.
pub open spec fn import_step(g: Graph) -> spec_fn(int, int) -> bool {
    |a: int, b: int|
        0 <= a <= u32::MAX && 0 <= b <= u32::MAX && imports(g, FileId(b as u32), FileId(a as u32))
}

/// Does running file `f` run file `origin`: is it that file, or does it
/// import it, directly or through other files?
pub open spec fn runs(g: Graph, f: FileId, origin: FileId) -> bool {
    reach::reaches(import_step(g), set![origin.0 as int], f.0 as int)
}

/// Does a change of the module init `d` reach `e` through the files that
/// run `d`'s file?
pub open spec fn reruns(g: Graph, e: DefId, d: DefId) -> bool {
    &&& g.at(d).kind == DefKind::ModuleInit
    &&& g.has_def(e)
    &&& runs(g, g.at(e).file, g.at(d).file)
    &&& (graph::init_of(g.defs@, g.at(e).file) == Some(e) || g.at(e).kind == DefKind::TestCase)
}

/// Is `e` directly impacted by a change to `d`?
pub open spec fn impacts(g: Graph, d: DefId, e: DefId) -> bool {
    ||| calls(g, e, d)
    ||| reads(g, e, d)
    ||| embeds(g, e, d)
    ||| names(g, e, short_name(g.at(d).name@))
    ||| reruns(g, e, d)
}

/// One step of the walk.
pub open spec fn impact_step(g: Graph) -> spec_fn(int, int) -> bool {
    |a: int, b: int|
        0 <= a <= u32::MAX && 0 <= b <= u32::MAX && impacts(g, DefId(a as u32), DefId(b as u32))
}

/// The definitions that `seeds` name.
pub open spec fn seed_set(seeds: Seq<Seed>) -> Set<int> {
    Set::new(|x: int| exists|i: int| 0 <= i < seeds.len() && (#[trigger] seeds[i]).def.0 == x)
}

/// Does a change to `seeds` impact `d`, in any number of steps?
pub open spec fn impacted(g: Graph, seeds: Seq<Seed>, d: DefId) -> bool {
    reach::reaches(impact_step(g), seed_set(seeds), d.0 as int)
}

/// The source of every edge is in the graph: a walk that follows edges
/// backwards never leaves it.
pub open spec fn edges_closed(g: Graph) -> bool {
    forall|i: int|
        0 <= i < g.edges@.len() ==> match #[trigger] g.edges@[i] {
            Edge::Calls { from, .. } => g.has_def(from),
            Edge::Reads { from, .. } => g.has_def(from),
            Edge::Contains { parent, .. } => g.has_def(parent),
            Edge::Imports { from, .. } => g.has_file(from),
        }
}

/// Every seed is a definition of the graph.
pub open spec fn seeds_in(g: Graph, seeds: Seq<Seed>) -> bool {
    forall|i: int| 0 <= i < seeds.len() ==> g.has_def((#[trigger] seeds[i]).def)
}

/// Does `kind` describe a way in which a change to `d` impacts `e`?
pub open spec fn hop_holds(g: Graph, d: DefId, kind: HopKind, e: DefId) -> bool {
    match kind {
        HopKind::Calls => calls(g, e, d),
        HopKind::Reads => reads(g, e, d),
        HopKind::Contains => embeds(g, e, d),
        HopKind::ImportCloses => reruns(g, e, d),
        HopKind::UnknownName(n) => n@ == short_name(g.at(d).name@) && names(g, e, n@),
    }
}

/// Do the hops lead from a seed to `t`, each starting where the one before
/// it ended? With no hops `t` is itself a seed.
pub open spec fn leads_to(g: Graph, seeds: Seq<Seed>, hops: Seq<Hop>, t: DefId) -> bool {
    &&& forall|i: int|
        0 <= i < hops.len() ==> hop_holds(
            g,
            (#[trigger] hops[i]).from,
            hops[i].edge,
            hops[i].to,
        )
    &&& forall|i: int, j: int|
        #![trigger hops[i], hops[j]]
        0 <= i && j == i + 1 && j < hops.len() ==> hops[i].to == hops[j].from
    &&& if hops.len() == 0 {
        seed_set(seeds).contains(t.0 as int)
    } else {
        seed_set(seeds).contains(hops[0].from.0 as int) && hops.last().to == t
    }
}

proof fn lemma_collect<T>(edges: Seq<Edge>, sel: spec_fn(Edge) -> Option<T>, x: T)
    ensures
        collect(edges, sel).contains(x) <==> exists|i: int|
            0 <= i < edges.len() && sel(#[trigger] edges[i]) == Some(x),
    decreases edges.len(),
{
    if edges.len() > 0 {
        let rest = edges.drop_last();
        lemma_collect(rest, sel, x);
        let before = collect(rest, sel);
        let now = collect(edges, sel);
        if before.contains(x) {
            let k = choose|k: int| 0 <= k < before.len() && before[k] == x;
            assert(now[k] == x);
        }
        if sel(edges.last()) == Some(x) {
            assert(now[now.len() - 1] == x);
        }
        if now.contains(x) {
            let k = choose|k: int| 0 <= k < now.len() && now[k] == x;
            if k < before.len() {
                assert(before.contains(x));
                let i = choose|i: int| 0 <= i < rest.len() && sel(#[trigger] rest[i]) == Some(x);
                assert(edges[i] == rest[i]);
            } else {
                assert(sel(edges[edges.len() - 1]) == Some(x));
            }
        }
        if exists|i: int| 0 <= i < edges.len() && sel(#[trigger] edges[i]) == Some(x) {
            let i = choose|i: int| 0 <= i < edges.len() && sel(#[trigger] edges[i]) == Some(x);
            if i < rest.len() {
                assert(rest[i] == edges[i]);
            }
        }
    }
}

proof fn lemma_container(edges: Seq<Edge>, d: DefId)
    ensures
        container_of(edges, d) matches Some(p) ==> exists|i: int|
            0 <= i < edges.len() && container_in(#[trigger] edges[i], d) == Some(p),
    decreases edges.len(),
{
    if edges.len() > 0 {
        if container_in(edges.last(), d) is Some {
            assert(container_in(edges[edges.len() - 1], d) is Some);
        } else {
            lemma_container(edges.drop_last(), d);
            if let Some(p) = container_of(edges, d) {
                let i = choose|i: int|
                    0 <= i < edges.drop_last().len() && container_in(
                        #[trigger] edges.drop_last()[i],
                        d,
                    ) == Some(p);
                assert(container_in(edges[i], d) == Some(p));
            }
        }
    }
}

/// What one more edge adds to each of the collections.
proof fn lemma_one_more(edges: Seq<Edge>, k: int)
    requires
        0 <= k < edges.len(),
    ensures
        forall|d: DefId| #[trigger]
            callers_of(edges.take(k + 1), d) == (match caller_in(edges[k], d) {
                Some(c) => callers_of(edges.take(k), d).push(c),
                None => callers_of(edges.take(k), d),
            }),
        forall|d: DefId| #[trigger]
            readers_of(edges.take(k + 1), d) == (match reader_in(edges[k], d) {
                Some(c) => readers_of(edges.take(k), d).push(c),
                None => readers_of(edges.take(k), d),
            }),
        forall|n: Seq<char>| #[trigger]
            namers_of(edges.take(k + 1), n) == (match namer_in(edges[k], n) {
                Some(c) => namers_of(edges.take(k), n).push(c),
                None => namers_of(edges.take(k), n),
            }),
        forall|f: FileId| #[trigger]
            importers_of(edges.take(k + 1), f) == (match importer_in(edges[k], f) {
                Some(c) => importers_of(edges.take(k), f).push(c),
                None => importers_of(edges.take(k), f),
            }),
        forall|d: DefId| #[trigger]
            container_of(edges.take(k + 1), d) == (match container_in(edges[k], d) {
                Some(p) => Some(p),
                None => container_of(edges.take(k), d),
            }),
{
    assert(edges.take(k + 1).drop_last() =~= edges.take(k));
    assert(edges.take(k + 1).last() == edges[k]);
}

/// The edges of a graph, turned round once so that the walk never scans
/// them again. Entries are aligned with the graph's definitions and files.
struct ReverseIndex {
    callers: Vec<Vec<DefId>>,
    readers: Vec<Vec<DefId>>,
    containers: Vec<Option<DefId>>,
    importers: Vec<Vec<FileId>>,
    /// The makers of unresolved calls, by the name called.
    unknown: NameLists<DefId>,
}

impl ReverseIndex {
    spec fn agrees(&self, edges: Seq<Edge>, defs: nat, files: nat) -> bool {
        &&& defs <= u32::MAX + 1
        &&& files <= u32::MAX + 1
        &&& self.callers@.len() == defs
        &&& self.readers@.len() == defs
        &&& self.containers@.len() == defs
        &&& self.importers@.len() == files
        &&& forall|d: int|
            0 <= d < defs ==> #[trigger] self.callers@[d]@ == callers_of(edges, DefId(d as u32))
        &&& forall|d: int|
            0 <= d < defs ==> #[trigger] self.readers@[d]@ == readers_of(edges, DefId(d as u32))
        &&& forall|d: int|
            0 <= d < defs ==> #[trigger] self.containers@[d] == container_of(
                edges,
                DefId(d as u32),
            )
        &&& forall|f: int|
            0 <= f < files ==> #[trigger] self.importers@[f]@ == importers_of(
                edges,
                FileId(f as u32),
            )
        &&& self.unknown.wf()
        &&& forall|n: Seq<char>| #[trigger] self.unknown.list(n) == namers_of(edges, n)
    }

    fn build(graph: &Graph) -> (r: ReverseIndex)
        requires
            graph.wf(),
        ensures
            r.agrees(graph.edges@, graph.defs@.len(), graph.files@.len()),
    {
        let n: usize = graph.defs.len();
        let m: usize = graph.files.len();
        let mut callers: Vec<Vec<DefId>> = Vec::new();
        let mut readers: Vec<Vec<DefId>> = Vec::new();
        let mut containers: Vec<Option<DefId>> = Vec::new();
        let mut importers: Vec<Vec<FileId>> = Vec::new();
        let mut i: usize = 0;
        while i < n
            invariant
                i <= n,
                callers@.len() == i,
                readers@.len() == i,
                containers@.len() == i,
                forall|d: int| 0 <= d < i ==> (#[trigger] callers@[d])@ == Seq::<DefId>::empty(),
                forall|d: int| 0 <= d < i ==> (#[trigger] readers@[d])@ == Seq::<DefId>::empty(),
                forall|d: int| 0 <= d < i ==> (#[trigger] containers@[d]) is None,
            decreases n - i,
        {
            callers.push(Vec::new());
            readers.push(Vec::new());
            containers.push(None);
            i = i + 1;
        }
        i = 0;
        while i < m
            invariant
                i <= m,
                importers@.len() == i,
                forall|f: int| 0 <= f < i ==> (#[trigger] importers@[f])@ == Seq::<FileId>::empty(),
            decreases m - i,
        {
            importers.push(Vec::new());
            i = i + 1;
        }
        let mut index = ReverseIndex {
            callers,
            readers,
            containers,
            importers,
            unknown: NameLists::new(),
        };
        assert(graph.edges@.take(0) =~= Seq::<Edge>::empty());
        let mut k: usize = 0;
        while k < graph.edges.len()
            invariant
                k <= graph.edges@.len(),
                n == graph.defs@.len(),
                m == graph.files@.len(),
                index.agrees(graph.edges@.take(k as int), n as nat, m as nat),
            decreases graph.edges@.len() - k,
        {
            proof {
                lemma_one_more(graph.edges@, k as int);
            }
            index.add(&graph.edges[k], Ghost(graph.edges@), Ghost(k as int));
            k = k + 1;
        }
        assert(graph.edges@.take(k as int) =~= graph.edges@);
        index
    }

    /// Takes up one more edge.
    #[verifier::spinoff_prover]
    fn add(&mut self, edge: &Edge, edges: Ghost<Seq<Edge>>, k: Ghost<int>)
        requires
            0 <= k@ < edges@.len(),
            *edge == edges@[k@],
            old(self).agrees(
                edges@.take(k@),
                old(self).callers@.len(),
                old(self).importers@.len(),
            ),
        ensures
            final(self).agrees(
                edges@.take(k@ + 1),
                old(self).callers@.len(),
                old(self).importers@.len(),
            ),
    {
        proof {
            lemma_one_more(edges@, k@);
        }
        match edge {
            Edge::Calls { from, to: CallTarget::Resolved(t) } => {
                let at: usize = t.0 as usize;
                if at < self.callers.len() {
                    self.callers[at].push(*from);
                }
                assert(DefId(at as u32) == *t);
            },
            Edge::Calls { from, to: CallTarget::Unknown(name) } => {
                self.unknown.file(name.as_str(), *from);
            },
            Edge::Reads { from, to } => {
                let at: usize = to.0 as usize;
                if at < self.readers.len() {
                    self.readers[at].push(*from);
                }
                assert(DefId(at as u32) == *to);
            },
            Edge::Contains { parent, child } => {
                let at: usize = child.0 as usize;
                if at < self.containers.len() {
                    self.containers.set(at, Some(*parent));
                }
                assert(DefId(at as u32) == *child);
            },
            Edge::Imports { from, to } => {
                let at: usize = to.0 as usize;
                if at < self.importers.len() {
                    self.importers[at].push(*from);
                }
                assert(FileId(at as u32) == *to);
            },
        }
    }

    /// The files that run `file`, each once: itself first, and everything
    /// that imports it, directly or through other files.
    fn importer_closure(&self, graph: &Graph, file: FileId) -> (r: Vec<FileId>)
        requires
            graph.wf(),
            edges_closed(*graph),
            graph.has_file(file),
            self.agrees(graph.edges@, graph.defs@.len(), graph.files@.len()),
        ensures
            r@.len() > 0,
            r@[0] == file,
            r@.no_duplicates(),
            forall|f: FileId| #[trigger] r@.contains(f) <==> runs(*graph, f, file),
            forall|i: int| 0 <= i < r@.len() ==> graph.has_file(#[trigger] r@[i]),
    {
        let m: usize = graph.files.len();
        let ghost g = *graph;
        let ghost step = import_step(g);
        let ghost starts = set![file.0 as int];
        let mut seen: Vec<bool> = Vec::new();
        let mut i: usize = 0;
        while i < m
            invariant
                i <= m,
                seen@.len() == i,
                forall|x: int| 0 <= x < i ==> !(#[trigger] seen@[x]),
            decreases m - i,
        {
            seen.push(false);
            i = i + 1;
        }
        let mut out: Vec<FileId> = Vec::new();
        out.push(file);
        seen.set(file.0 as usize, true);
        proof {
            reach::lemma_start(step, starts, file.0 as int);
            assert(out@[0] == file);
            lemma_files_bounded(out@, m as int);
        }
        let mut head: usize = 0;
        while head < out.len()
            invariant
                g == *graph,
                step == import_step(g),
                starts == set![file.0 as int],
                m == graph.files@.len(),
                graph.wf(),
                edges_closed(g),
                self.agrees(g.edges@, g.defs@.len(), g.files@.len()),
                seen@.len() == m,
                head <= out@.len() <= m,
                files_marked(out@, seen@),
                forall|k: int|
                    0 <= k < out@.len() ==> reach::reaches(step, starts, (#[trigger] out@[k]).0 as int),
                out@[0] == file,
                out@.len() > 0,
                forall|k: int, b: FileId|
                    0 <= k < head && #[trigger] imports(g, b, out@[k]) ==> out@.contains(b),
            decreases m - head,
        {
            let f = out[head];
            let ghost base = out@;
            let imps: &Vec<FileId> = &self.importers[f.0 as usize];
            assert(FileId(f.0 as int as u32) == f);
            assert(imps@ == importers_of(g.edges@, f));
            let mut j: usize = 0;
            while j < imps.len()
                invariant
                    g == *graph,
                    step == import_step(g),
                    m == graph.files@.len(),
                    edges_closed(g),
                    imps@ == importers_of(g.edges@, f),
                    j <= imps@.len(),
                    seen@.len() == m,
                    head < base.len() <= out@.len() <= m,
                    base[head as int] == f,
                    out@.take(base.len() as int) == base,
                    files_marked(out@, seen@),
                    forall|k: int|
                        0 <= k < out@.len() ==> reach::reaches(
                            step,
                            starts,
                            (#[trigger] out@[k]).0 as int,
                        ),
                    forall|k: int| 0 <= k < j ==> out@.contains(#[trigger] imps@[k]),
                decreases imps@.len() - j,
            {
                let b = imps[j];
                proof {
                    assert(imps@.contains(b));
                    lemma_collect(g.edges@, |e: Edge| importer_in(e, f), b);
                    let ei = choose|ei: int|
                        0 <= ei < g.edges@.len() && importer_in(#[trigger] g.edges@[ei], f) == Some(
                            b,
                        );
                    assert(g.has_file(b));
                    assert(imports(g, b, f));
                    assert(FileId(b.0 as int as u32) == b);
                    assert(FileId(f.0 as int as u32) == f);
                    assert(out@[head as int] == out@.take(base.len() as int)[head as int]);
                    assert(reach::reaches(step, starts, f.0 as int));
                    assert(step(f.0 as int, b.0 as int));
                    reach::lemma_step(step, starts, f.0 as int, b.0 as int);
                }
                let ghost before = out@;
                if !seen[b.0 as usize] {
                    seen.set(b.0 as usize, true);
                    out.push(b);
                    proof {
                        assert(out@.take(base.len() as int) =~= before.take(base.len() as int));
                        assert(out@[before.len() as int] == b);
                        assert forall|x: int| 0 <= x < seen@.len() implies (seen@[x] <==> exists|
                            k: int,
                        |
                            0 <= k < out@.len() && (#[trigger] out@[k]).0 == x) by {
                            if x == b.0 {
                                assert(out@[before.len() as int].0 == x);
                            } else if seen@[x] {
                                let k = choose|k: int|
                                    0 <= k < before.len() && (#[trigger] before[k]).0 == x;
                                assert(out@[k].0 == x);
                            } else if exists|k: int|
                                0 <= k < out@.len() && (#[trigger] out@[k]).0 == x {
                                let k = choose|k: int|
                                    0 <= k < out@.len() && (#[trigger] out@[k]).0 == x;
                                assert(before[k].0 == x);
                            }
                        }
                        lemma_files_bounded(out@, m as int);
                    }
                } else {
                    let ghost k = choose|k: int|
                        0 <= k < out@.len() && (#[trigger] out@[k]).0 == b.0;
                    assert(out@[k] == b);
                }
                proof {
                    assert forall|k: int| 0 <= k < j + 1 implies out@.contains(
                        #[trigger] imps@[k],
                    ) by {
                        if k < j {
                            assert(before.contains(imps@[k]));
                            let at = choose|at: int|
                                0 <= at < before.len() && before[at] == imps@[k];
                            assert(out@[at] == imps@[k]);
                        }
                    }
                }
                j = j + 1;
            }
            proof {
                assert forall|k: int, b: FileId|
                    0 <= k < head + 1 && #[trigger] imports(g, b, out@[k]) implies out@.contains(
                    b,
                ) by {
                    assert(out@[k] == out@.take(base.len() as int)[k]);
                    if k < head {
                        assert(base.contains(b));
                        let at = choose|at: int| 0 <= at < base.len() && base[at] == b;
                        assert(out@[at] == out@.take(base.len() as int)[at]);
                    } else {
                        lemma_collect(g.edges@, |e: Edge| importer_in(e, f), b);
                        assert(imps@.contains(b));
                    }
                }
                assert(out@[0] == out@.take(base.len() as int)[0]);
            }
            head = head + 1;
        }
        proof {
            let within = Set::new(|x: int| exists|k: int| 0 <= k < out@.len() && (#[trigger] out@[k]).0 == x);
            assert forall|f: FileId| #[trigger] out@.contains(f) <==> runs(g, f, file) by {
                if out@.contains(f) {
                    let k = choose|k: int| 0 <= k < out@.len() && out@[k] == f;
                    assert(reach::reaches(step, starts, out@[k].0 as int));
                }
                if runs(g, f, file) {
                    assert forall|s: int| #[trigger] starts.contains(s) implies within.contains(
                        s,
                    ) by {
                        assert(out@[0].0 == s);
                    }
                    assert forall|a: int, b: int|
                        within.contains(a) && #[trigger] step(a, b) implies within.contains(b) by {
                        let k = choose|k: int| 0 <= k < out@.len() && (#[trigger] out@[k]).0 == a;
                        assert(FileId(a as u32) == out@[k]);
                        assert(imports(g, FileId(b as u32), out@[k]));
                        assert(out@.contains(FileId(b as u32)));
                        let at = choose|at: int|
                            0 <= at < out@.len() && out@[at] == FileId(b as u32);
                        assert(out@[at].0 == b);
                    }
                    reach::lemma_closed(step, starts, within, f.0 as int);
                    let k = choose|k: int|
                        0 <= k < out@.len() && (#[trigger] out@[k]).0 == f.0 as int;
                    assert(out@[k] == f);
                }
            }
        }
        out
    }
}

/// `out` lists distinct files, and `seen` marks exactly those.
spec fn files_marked(out: Seq<FileId>, seen: Seq<bool>) -> bool {
    &&& forall|i: int, j: int| 0 <= i < j < out.len() ==> #[trigger] out[i] != #[trigger] out[j]
    &&& forall|i: int| 0 <= i < out.len() ==> (#[trigger] out[i]).0 < seen.len()
    &&& forall|x: int|
        0 <= x < seen.len() ==> (#[trigger] seen[x] <==> exists|k: int|
            0 <= k < out.len() && (#[trigger] out[k]).0 == x)
}

proof fn lemma_files_bounded(out: Seq<FileId>, m: int)
    requires
        0 <= m,
        forall|i: int, j: int| 0 <= i < j < out.len() ==> #[trigger] out[i] != #[trigger] out[j],
        forall|i: int| 0 <= i < out.len() ==> (#[trigger] out[i]).0 < m,
    ensures
        out.len() <= m,
{
    let s = out.map_values(|f: FileId| f.0 as int);
    assert forall|i: int, j: int| 0 <= i < s.len() && 0 <= j < s.len() && i != j implies s[i]
        != s[j] by {
        if i < j {
            assert(out[i] != out[j]);
        } else {
            assert(out[j] != out[i]);
        }
    }
    reach::lemma_at_most(s, m);
}

/// A definition the walk came to, and how: from the visit at an earlier
/// position, or, for a seed, from none.
struct Visit {
    def: DefId,
    via: Option<(usize, HopKind)>,
}

spec fn visited(order: Seq<Visit>, e: DefId) -> bool {
    exists|k: int| 0 <= k < order.len() && (#[trigger] order[k]).def == e
}

/// `order` lists distinct definitions, each a seed or one hop from an
/// earlier one, and `place` gives each its position.
spec fn visits_ok(g: Graph, seeds: Seq<Seed>, order: Seq<Visit>, place: Seq<Option<usize>>) -> bool {
    &&& place.len() == g.defs@.len()
    &&& order.len() <= g.defs@.len()
    &&& forall|k: int|
        0 <= k < order.len() ==> g.has_def((#[trigger] order[k]).def)
            && place[order[k].def.0 as int] == Some(k as usize)
    &&& forall|x: int|
        0 <= x < place.len() ==> (#[trigger] place[x] matches Some(k) ==> k < order.len()
            && order[k as int].def.0 == x)
    &&& forall|k: int|
        0 <= k < order.len() ==> match (#[trigger] order[k]).via {
            None => seed_set(seeds).contains(order[k].def.0 as int),
            Some((p, kind)) => p < k && hop_holds(g, order[p as int].def, kind, order[k].def),
        }
}

/// `b` continues `a`.
spec fn continues(a: Seq<Visit>, b: Seq<Visit>) -> bool {
    a.len() <= b.len() && forall|k: int| 0 <= k < a.len() ==> a[k] == #[trigger] b[k]
}

proof fn lemma_continues(a: Seq<Visit>, b: Seq<Visit>)
    requires
        continues(a, b),
    ensures
        forall|e: DefId| #[trigger] visited(a, e) ==> visited(b, e),
{
    assert forall|e: DefId| #[trigger] visited(a, e) implies visited(b, e) by {
        let k = choose|k: int| 0 <= k < a.len() && (#[trigger] a[k]).def == e;
        assert(b[k].def == e);
    }
}

proof fn lemma_visits_bounded(g: Graph, order: Seq<Visit>, place: Seq<Option<usize>>)
    requires
        g.defs@.len() <= u32::MAX + 1,
        place.len() == g.defs@.len(),
        order.len() <= usize::MAX + 1,
        forall|k: int|
            0 <= k < order.len() ==> g.has_def((#[trigger] order[k]).def)
                && place[order[k].def.0 as int] == Some(k as usize),
    ensures
        order.len() <= g.defs@.len(),
{
    let s = order.map_values(|v: Visit| v.def.0 as int);
    assert forall|i: int, j: int| 0 <= i < s.len() && 0 <= j < s.len() && i != j implies s[i]
        != s[j] by {
        assert(place[order[i].def.0 as int] == Some(i as usize));
        assert(place[order[j].def.0 as int] == Some(j as usize));
    }
    assert forall|i: int| 0 <= i < s.len() implies 0 <= #[trigger] s[i] < g.defs@.len() by {
        assert(g.has_def(order[i].def));
    }
    reach::lemma_at_most(s, g.defs@.len() as int);
}

/// Adds `e` to the walk, unless it has been visited.
fn enqueue(
    order: &mut Vec<Visit>,
    place: &mut Vec<Option<usize>>,
    e: DefId,
    via: Option<(usize, HopKind)>,
    g: Ghost<Graph>,
    seeds: Ghost<Seq<Seed>>,
)
    requires
        g@.wf(),
        g@.has_def(e),
        visits_ok(g@, seeds@, old(order)@, old(place)@),
        match via {
            None => seed_set(seeds@).contains(e.0 as int),
            Some((p, kind)) => p < old(order)@.len() && hop_holds(
                g@,
                old(order)@[p as int].def,
                kind,
                e,
            ),
        },
    ensures
        visits_ok(g@, seeds@, final(order)@, final(place)@),
        continues(old(order)@, final(order)@),
        visited(final(order)@, e),
{
    let ghost was = order@;
    match place[e.0 as usize] {
        Some(k) => {
            assert(order@[k as int].def == e);
        },
        None => {
            let at: usize = order.len();
            place.set(e.0 as usize, Some(at));
            order.push(Visit { def: e, via });
            proof {
                assert(order@[at as int].def == e);
                assert forall|k: int| 0 <= k < order@.len() implies g@.has_def(
                    (#[trigger] order@[k]).def,
                ) && place@[order@[k].def.0 as int] == Some(k as usize) by {
                    if k < at {
                        assert(order@[k] == was[k]);
                        assert(was[k].def != e);
                    }
                }
                lemma_visits_bounded(g@, order@, place@);
            }
        },
    }
}

proof fn lemma_visits_reached(
    g: Graph,
    seeds: Seq<Seed>,
    order: Seq<Visit>,
    place: Seq<Option<usize>>,
    k: int,
)
    requires
        visits_ok(g, seeds, order, place),
        0 <= k < order.len(),
    ensures
        impacted(g, seeds, order[k].def),
    decreases k,
{
    let step = impact_step(g);
    let starts = seed_set(seeds);
    match order[k].via {
        None => {
            reach::lemma_start(step, starts, order[k].def.0 as int);
        },
        Some((p, kind)) => {
            lemma_visits_reached(g, seeds, order, place, p as int);
            let a = order[p as int].def;
            let b = order[k].def;
            assert(impacts(g, a, b));
            assert(DefId(a.0 as int as u32) == a);
            assert(DefId(b.0 as int as u32) == b);
            assert(step(a.0 as int, b.0 as int));
            reach::lemma_step(step, starts, a.0 as int, b.0 as int);
        },
    }
}

/// The module init and the tests of file `f` are visited.
spec fn covered(g: Graph, order: Seq<Visit>, f: FileId) -> bool {
    forall|e: DefId|
        g.has_def(e) && g.at(e).file == f && (graph::init_of(g.defs@, f) == Some(e) || g.at(e).kind
            == DefKind::TestCase) ==> #[trigger] visited(order, e)
}

proof fn lemma_covered(g: Graph, a: Seq<Visit>, b: Seq<Visit>, f: FileId)
    requires
        continues(a, b),
        covered(g, a, f),
    ensures
        covered(g, b, f),
{
    lemma_continues(a, b);
    assert forall|e: DefId|
        g.has_def(e) && g.at(e).file == f && (graph::init_of(g.defs@, f) == Some(e) || g.at(e).kind
            == DefKind::TestCase) implies #[trigger] visited(b, e) by {
        assert(visited(a, e));
    }
}

/// Visits the module init and the tests of file `f`, one of the files that
/// run the file of the module init at position `head`.
fn visit_file(
    graph: &Graph,
    order: &mut Vec<Visit>,
    place: &mut Vec<Option<usize>>,
    head: usize,
    f: FileId,
    seeds: Ghost<Seq<Seed>>,
)
    requires
        graph.wf(),
        graph.has_file(f),
        visits_ok(*graph, seeds@, old(order)@, old(place)@),
        head < old(order)@.len(),
        graph.at(old(order)@[head as int].def).kind == DefKind::ModuleInit,
        runs(*graph, f, graph.at(old(order)@[head as int].def).file),
    ensures
        visits_ok(*graph, seeds@, final(order)@, final(place)@),
        continues(old(order)@, final(order)@),
        covered(*graph, final(order)@, f),
{
    let ghost g = *graph;
    let ghost was = order@;
    let ghost d = order@[head as int].def;
    proof {
        lemma_init_of_at(g, f);
    }
    let init = graph.module_init(f);
    if let Some(m) = init {
        enqueue(order, place, m, Some((head, HopKind::ImportCloses)), Ghost(g), seeds);
    }
    let ghost after_init = order@;
    let defs = graph.defs_in_file(f);
    let mut i: usize = 0;
    while i < defs.len()
        invariant
            g == *graph,
            g.wf(),
            i <= defs@.len(),
            visits_ok(g, seeds@, order@, place@),
            continues(was, order@),
            continues(after_init, order@),
            head < was.len(),
            was[head as int].def == d,
            g.at(d).kind == DefKind::ModuleInit,
            runs(g, f, g.at(d).file),
            defs@.len() == graph::ids_in_file(g.defs@, f).len(),
            forall|k: int|
                0 <= k < defs@.len() ==> (#[trigger] defs@[k]).0 == graph::ids_in_file(g.defs@, f)[k]
                    && g.has_def(defs@[k].0) && *defs@[k].1 == g.at(defs@[k].0),
            forall|k: int|
                0 <= k < i && g.at((#[trigger] defs@[k]).0).kind == DefKind::TestCase ==> visited(
                    order@,
                    defs@[k].0,
                ),
        decreases defs@.len() - i,
    {
        let id = defs[i].0;
        let ghost before = order@;
        proof {
            assert(graph::ids_in_file(g.defs@, f).contains(id));
            graph::lemma_ids_in_file(g.defs@, f, id);
        }
        if defs[i].1.kind == DefKind::TestCase {
            assert(reruns(g, id, d));
            assert(order@[head as int].def == d);
            enqueue(order, place, id, Some((head, HopKind::ImportCloses)), Ghost(g), seeds);
            proof {
                lemma_continues(before, order@);
            }
        }
        i = i + 1;
    }
    proof {
        lemma_continues(after_init, order@);
        assert forall|e: DefId|
            graph.has_def(e) && graph.at(e).file == f && (graph::init_of(graph.defs@, f) == Some(e)
                || graph.at(e).kind == DefKind::TestCase) implies #[trigger] visited(order@, e) by {
            if graph::init_of(graph.defs@, f) == Some(e) {
                assert(visited(after_init, e));
            } else {
                graph::lemma_ids_in_file(g.defs@, f, e);
                let k = choose|k: int|
                    0 <= k < graph::ids_in_file(g.defs@, f).len() && graph::ids_in_file(g.defs@, f)[k] == e;
                assert(defs@[k].0 == e);
            }
        }
    }
}

proof fn lemma_init_of_at(g: Graph, f: FileId)
    requires
        g.wf(),
    ensures
        graph::init_of(g.defs@, f) matches Some(m) ==> g.has_def(m) && g.at(m).file == f && g.at(m).kind
            == DefKind::ModuleInit,
{
    graph::lemma_init_of(g.defs@, f);
}

/// Visits each of `sources`, which are one hop of kind `kind` from the visit
/// at position `head`.
fn visit_all(
    order: &mut Vec<Visit>,
    place: &mut Vec<Option<usize>>,
    head: usize,
    kind: &HopKind,
    sources: &Vec<DefId>,
    g: Ghost<Graph>,
    seeds: Ghost<Seq<Seed>>,
)
    requires
        g@.wf(),
        visits_ok(g@, seeds@, old(order)@, old(place)@),
        head < old(order)@.len(),
        forall|i: int|
            0 <= i < sources@.len() ==> g@.has_def(#[trigger] sources@[i]) && hop_holds(
                g@,
                old(order)@[head as int].def,
                *kind,
                sources@[i],
            ),
    ensures
        visits_ok(g@, seeds@, final(order)@, final(place)@),
        continues(old(order)@, final(order)@),
        forall|i: int|
            0 <= i < sources@.len() ==> visited(final(order)@, #[trigger] sources@[i]),
{
    let ghost was = order@;
    let mut i: usize = 0;
    while i < sources.len()
        invariant
            g@.wf(),
            i <= sources@.len(),
            visits_ok(g@, seeds@, order@, place@),
            continues(was, order@),
            head < was.len(),
            forall|i: int|
                0 <= i < sources@.len() ==> g@.has_def(#[trigger] sources@[i]) && hop_holds(
                    g@,
                    was[head as int].def,
                    *kind,
                    sources@[i],
                ),
            forall|k: int| 0 <= k < i ==> visited(order@, #[trigger] sources@[k]),
        decreases sources@.len() - i,
    {
        let ghost before = order@;
        assert(order@[head as int] == was[head as int]);
        enqueue(order, place, sources[i], Some((head, copy_kind(kind))), g, seeds);
        proof {
            lemma_continues(before, order@);
        }
        i = i + 1;
    }
}

/// A copy of a hop kind.
pub fn copy_kind(k: &HopKind) -> (r: HopKind)
    ensures
        r == *k,
{
    match k {
        HopKind::Calls => HopKind::Calls,
        HopKind::Reads => HopKind::Reads,
        HopKind::Contains => HopKind::Contains,
        HopKind::ImportCloses => HopKind::ImportCloses,
        HopKind::UnknownName(n) => HopKind::UnknownName(n.clone()),
    }
}

/// Everything one hop from the visit at position `head` gets visited.
#[verifier::spinoff_prover]
fn visit_impacted(
    graph: &Graph,
    index: &ReverseIndex,
    order: &mut Vec<Visit>,
    place: &mut Vec<Option<usize>>,
    head: usize,
    seeds: Ghost<Seq<Seed>>,
)
    requires
        graph.wf(),
        edges_closed(*graph),
        index.agrees(graph.edges@, graph.defs@.len(), graph.files@.len()),
        visits_ok(*graph, seeds@, old(order)@, old(place)@),
        head < old(order)@.len(),
    ensures
        visits_ok(*graph, seeds@, final(order)@, final(place)@),
        continues(old(order)@, final(order)@),
        forall|e: DefId|
            impacts(*graph, old(order)@[head as int].def, e) ==> #[trigger] visited(
                final(order)@,
                e,
            ),
{
    let ghost g = *graph;
    let ghost edges = g.edges@;
    let ghost was = order@;
    let d = order[head].def;
    assert(DefId(d.0 as int as u32) == d);
    let at: usize = d.0 as usize;

    let callers: &Vec<DefId> = &index.callers[at];
    proof {
        assert(callers@ == callers_of(edges, d));
        assert forall|i: int| 0 <= i < callers@.len() implies g.has_def(#[trigger] callers@[i])
            && hop_holds(g, d, HopKind::Calls, callers@[i]) by {
            assert(callers@.contains(callers@[i]));
            lemma_collect(edges, |e: Edge| caller_in(e, d), callers@[i]);
        }
    }
    visit_all(order, place, head, &HopKind::Calls, callers, Ghost(g), seeds);
    let ghost o1 = order@;

    let readers: &Vec<DefId> = &index.readers[at];
    proof {
        assert(readers@ == readers_of(edges, d));
        assert forall|i: int| 0 <= i < readers@.len() implies g.has_def(#[trigger] readers@[i])
            && hop_holds(g, d, HopKind::Reads, readers@[i]) by {
            assert(readers@.contains(readers@[i]));
            lemma_collect(edges, |e: Edge| reader_in(e, d), readers@[i]);
        }
    }
    visit_all(order, place, head, &HopKind::Reads, readers, Ghost(g), seeds);
    let ghost o2 = order@;

    if let Some(parent) = index.containers[at] {
        proof {
            lemma_container(edges, d);
            assert(container_of(edges, d) == Some(parent));
            let i = choose|i: int|
                0 <= i < edges.len() && container_in(#[trigger] edges[i], d) == Some(parent);
            assert(g.has_def(parent));
        }
        if graph.def(parent).kind != DefKind::ModuleInit {
            enqueue(order, place, parent, Some((head, HopKind::Contains)), Ghost(g), seeds);
        }
    }
    let ghost o3 = order@;

    let name = tail_after(graph.def(d).name.as_str(), '.');
    if let Some(namers) = index.unknown.get(name.as_str()) {
        let kind = HopKind::UnknownName(name.clone());
        proof {
            assert(namers@ == namers_of(edges, name@));
            assert forall|i: int| 0 <= i < namers@.len() implies g.has_def(#[trigger] namers@[i])
                && hop_holds(g, d, kind, namers@[i]) by {
                assert(namers@.contains(namers@[i]));
                lemma_collect(edges, |e: Edge| namer_in(e, name@), namers@[i]);
            }
        }
        visit_all(order, place, head, &kind, namers, Ghost(g), seeds);
        proof {
            assert forall|e: DefId| names(g, e, name@) implies #[trigger] visited(order@, e) by {
                lemma_collect(edges, |x: Edge| namer_in(x, name@), e);
                assert(namers@.contains(e));
            }
        }
    } else {
        proof {
            assert forall|e: DefId| names(g, e, name@) implies #[trigger] visited(order@, e) by {
                lemma_collect(edges, |x: Edge| namer_in(x, name@), e);
                assert(namers_of(edges, name@).contains(e));
            }
        }
    }
    let ghost o4 = order@;

    if graph.def(d).kind == DefKind::ModuleInit {
        let files = index.importer_closure(graph, graph.def(d).file);
        let mut i: usize = 0;
        while i < files.len()
            invariant
                g == *graph,
                g.wf(),
                i <= files@.len(),
                visits_ok(g, seeds@, order@, place@),
                head < was.len(),
                was[head as int].def == d,
                continues(was, order@),
                continues(o4, order@),
                g.at(d).kind == DefKind::ModuleInit,
                forall|f: FileId| #[trigger] files@.contains(f) <==> runs(g, f, g.at(d).file),
                forall|k: int| 0 <= k < files@.len() ==> g.has_file(#[trigger] files@[k]),
                forall|k: int| 0 <= k < i ==> covered(g, order@, #[trigger] files@[k]),
            decreases files@.len() - i,
        {
            let f = files[i];
            let ghost before = order@;
            assert(files@.contains(files@[i as int]));
            assert(order@[head as int].def == d);
            visit_file(graph, order, place, head, f, seeds);
            proof {
                lemma_continues(before, order@);
                assert forall|k: int| 0 <= k < i + 1 implies covered(
                    g,
                    order@,
                    #[trigger] files@[k],
                ) by {
                    if k < i {
                        lemma_covered(g, before, order@, files@[k]);
                    }
                }
            }
            i = i + 1;
        }
        proof {
            assert forall|e: DefId| reruns(g, e, d) implies #[trigger] visited(order@, e) by {
                let f = g.at(e).file;
                assert(files@.contains(f));
                let k = choose|k: int| 0 <= k < files@.len() && files@[k] == f;
                assert(covered(g, order@, files@[k]));
            }
        }
    }
    proof {
        lemma_continues(o1, order@);
        lemma_continues(o2, order@);
        lemma_continues(o3, order@);
        lemma_continues(o4, order@);
        assert forall|e: DefId| impacts(g, d, e) implies #[trigger] visited(order@, e) by {
            if calls(g, e, d) {
                lemma_collect(edges, |x: Edge| caller_in(x, d), e);
                assert(callers@.contains(e));
                assert(visited(o1, e));
            } else if reads(g, e, d) {
                lemma_collect(edges, |x: Edge| reader_in(x, d), e);
                assert(readers@.contains(e));
                assert(visited(o2, e));
            } else if embeds(g, e, d) {
                assert(visited(o3, e));
            } else if names(g, e, short_name(g.at(d).name@)) {
                assert(visited(o4, e));
            }
        }
    }
}

/// The walk itself: every definition that `seeds` impact, in the order of
/// arrival, with each one's position.
fn explore(graph: &Graph, seeds: &[Seed]) -> (r: (Vec<Visit>, Vec<Option<usize>>))
    requires
        graph.wf(),
        edges_closed(*graph),
        seeds_in(*graph, seeds@),
    ensures
        visits_ok(*graph, seeds@, r.0@, r.1@),
        forall|e: DefId| #[trigger] visited(r.0@, e) <==> impacted(*graph, seeds@, e),
{
    let ghost g = *graph;
    let index = ReverseIndex::build(graph);
    let n: usize = graph.defs.len();
    let mut order: Vec<Visit> = Vec::new();
    let mut place: Vec<Option<usize>> = Vec::new();
    let mut i: usize = 0;
    while i < n
        invariant
            i <= n,
            place@.len() == i,
            forall|x: int| 0 <= x < i ==> (#[trigger] place@[x]) is None,
        decreases n - i,
    {
        place.push(None);
        i = i + 1;
    }
    i = 0;
    while i < seeds.len()
        invariant
            g == *graph,
            g.wf(),
            i <= seeds@.len(),
            seeds_in(g, seeds@),
            visits_ok(g, seeds@, order@, place@),
            forall|k: int| 0 <= k < i ==> visited(order@, (#[trigger] seeds@[k]).def),
        decreases seeds@.len() - i,
    {
        let s = seeds[i].def;
        let ghost before = order@;
        assert(seed_set(seeds@).contains(s.0 as int));
        assert(g.has_def(seeds@[i as int].def));
        enqueue(&mut order, &mut place, s, None, Ghost(g), Ghost(seeds@));
        proof {
            lemma_continues(before, order@);
        }
        i = i + 1;
    }
    let mut head: usize = 0;
    while head < order.len()
        invariant
            g == *graph,
            g.wf(),
            edges_closed(g),
            index.agrees(g.edges@, g.defs@.len(), g.files@.len()),
            visits_ok(g, seeds@, order@, place@),
            head <= order@.len(),
            forall|k: int|
                0 <= k < seeds@.len() ==> visited(order@, (#[trigger] seeds@[k]).def),
            forall|k: int, e: DefId|
                0 <= k < head && #[trigger] impacts(g, order@[k].def, e) ==> visited(order@, e),
        decreases g.defs@.len() - head,
    {
        let ghost before = order@;
        visit_impacted(graph, &index, &mut order, &mut place, head, Ghost(seeds@));
        proof {
            lemma_continues(before, order@);
            assert forall|k: int, e: DefId|
                0 <= k < head + 1 && #[trigger] impacts(g, order@[k].def, e) implies visited(
                order@,
                e,
            ) by {
                assert(order@[k] == before[k]);
            }
        }
        head = head + 1;
    }
    proof {
        let step = impact_step(g);
        let starts = seed_set(seeds@);
        let within = Set::new(|x: int| 0 <= x <= u32::MAX && visited(order@, DefId(x as u32)));
        assert forall|e: DefId| #[trigger] visited(order@, e) <==> impacted(g, seeds@, e) by {
            if visited(order@, e) {
                let k = choose|k: int| 0 <= k < order@.len() && (#[trigger] order@[k]).def == e;
                lemma_visits_reached(g, seeds@, order@, place@, k);
            }
            if impacted(g, seeds@, e) {
                assert forall|s: int| #[trigger] starts.contains(s) implies within.contains(s) by {
                    let k = choose|k: int|
                        0 <= k < seeds@.len() && (#[trigger] seeds@[k]).def.0 == s;
                    assert(DefId(s as u32) == seeds@[k].def);
                    assert(visited(order@, seeds@[k].def));
                }
                assert forall|a: int, b: int|
                    within.contains(a) && #[trigger] step(a, b) implies within.contains(b) by {
                    let k = choose|k: int|
                        0 <= k < order@.len() && (#[trigger] order@[k]).def == DefId(a as u32);
                    assert(impacts(g, order@[k].def, DefId(b as u32)));
                }
                reach::lemma_closed(step, starts, within, e.0 as int);
                assert(DefId(e.0 as int as u32) == e);
            }
        }
    }
    (order, place)
}

/// Every test that `seeds` impact, in ascending order and each once.
pub fn impacted_tests(graph: &Graph, seeds: &[Seed]) -> (r: Vec<DefId>)
    requires
        graph.wf(),
        edges_closed(*graph),
        seeds_in(*graph, seeds@),
    ensures
        forall|i: int, j: int| 0 <= i < j < r@.len() ==> (#[trigger] r@[i]).0 < (#[trigger] r@[j]).0,
        forall|e: DefId| #[trigger]
            r@.contains(e) <==> graph.has_def(e) && graph.at(e).kind == DefKind::TestCase
                && impacted(*graph, seeds@, e),
{
    let ghost g = *graph;
    let (order, place) = explore(graph, seeds);
    let mut tests: Vec<DefId> = Vec::new();
    let mut d: usize = 0;
    while d < graph.defs.len()
        invariant
            g == *graph,
            g.wf(),
            d <= g.defs@.len(),
            visits_ok(g, seeds@, order@, place@),
            forall|e: DefId| #[trigger] visited(order@, e) <==> impacted(g, seeds@, e),
            forall|i: int, j: int|
                0 <= i < j < tests@.len() ==> (#[trigger] tests@[i]).0 < (#[trigger] tests@[j]).0,
            forall|i: int| 0 <= i < tests@.len() ==> (#[trigger] tests@[i]).0 < d,
            forall|e: DefId| #[trigger]
                tests@.contains(e) <==> e.0 < d && g.at(e).kind == DefKind::TestCase && impacted(
                    g,
                    seeds@,
                    e,
                ),
        decreases g.defs@.len() - d,
    {
        let id = DefId(d as u32);
        let ghost before = tests@;
        proof {
            if place@[d as int] is Some {
                let k = place@[d as int]->0;
                assert(order@[k as int].def == id);
                assert(visited(order@, id));
            } else if visited(order@, id) {
                let k = choose|k: int| 0 <= k < order@.len() && (#[trigger] order@[k]).def == id;
                assert(place@[order@[k].def.0 as int] is Some);
            }
        }
        if place[d].is_some() && graph.defs[d].kind == DefKind::TestCase {
            tests.push(id);
        }
        proof {
            assert forall|e: DefId| #[trigger] tests@.contains(e) <==> e.0 < d + 1 && g.at(e).kind
                == DefKind::TestCase && impacted(g, seeds@, e) by {
                if before.contains(e) {
                    let k = choose|k: int| 0 <= k < before.len() && before[k] == e;
                    assert(tests@[k] == e);
                }
                if tests@.contains(e) {
                    let k = choose|k: int| 0 <= k < tests@.len() && tests@[k] == e;
                    if k < before.len() {
                        assert(before[k] == e);
                    }
                }
                if e == id && tests@.len() > before.len() {
                    assert(tests@[before.len() as int] == e);
                }
            }
        }
        d = d + 1;
    }
    tests
}

/// The hops that led from a seed to the visit at position `k`.
fn path_to(
    order: &Vec<Visit>,
    k: usize,
    g: Ghost<Graph>,
    seeds: Ghost<Seq<Seed>>,
    place: Ghost<Seq<Option<usize>>>,
) -> (hops: Vec<Hop>)
    requires
        visits_ok(g@, seeds@, order@, place@),
        k < order@.len(),
    ensures
        leads_to(g@, seeds@, hops@, order@[k as int].def),
    decreases k,
{
    match &order[k].via {
        None => Vec::new(),
        Some((p, kind)) => {
            assert(hop_holds(g@, order@[*p as int].def, *kind, order@[k as int].def));
            let mut hops = path_to(order, *p, g, seeds, place);
            let ghost was = hops@;
            let hop = Hop { from: order[*p].def, edge: copy_kind(kind), to: order[k].def };
            hops.push(hop);
            proof {
                assert forall|i: int| 0 <= i < hops@.len() implies hop_holds(
                    g@,
                    (#[trigger] hops@[i]).from,
                    hops@[i].edge,
                    hops@[i].to,
                ) by {
                    if i < was.len() {
                        assert(hops@[i] == was[i]);
                    }
                }
                assert forall|i: int, j: int|
                    #![trigger hops@[i], hops@[j]]
                    0 <= i && j == i + 1 && j < hops@.len() implies hops@[i].to
                    == hops@[j].from by {
                    assert(hops@[i] == was[i]);
                    if j < was.len() {
                        assert(hops@[j] == was[j]);
                    } else {
                        assert(was.last().to == order@[*p as int].def);
                    }
                }
                if was.len() > 0 {
                    assert(hops@[0] == was[0]);
                }
            }
            hops
        },
    }
}

/// Every test that `seeds` impact, in ascending order and each once, with
/// hops that lead to it from a seed.
pub fn impacted_tests_with_paths(graph: &Graph, seeds: &[Seed]) -> (r: Vec<(DefId, Vec<Hop>)>)
    requires
        graph.wf(),
        edges_closed(*graph),
        seeds_in(*graph, seeds@),
    ensures
        forall|i: int, j: int|
            0 <= i < j < r@.len() ==> (#[trigger] r@[i]).0.0 < (#[trigger] r@[j]).0.0,
        forall|i: int|
            0 <= i < r@.len() ==> graph.has_def((#[trigger] r@[i]).0) && graph.at(r@[i].0).kind
                == DefKind::TestCase && impacted(*graph, seeds@, r@[i].0) && leads_to(
                *graph,
                seeds@,
                r@[i].1@,
                r@[i].0,
            ),
        forall|e: DefId|
            graph.has_def(e) && graph.at(e).kind == DefKind::TestCase && #[trigger] impacted(
                *graph,
                seeds@,
                e,
            ) ==> exists|i: int| 0 <= i < r@.len() && (#[trigger] r@[i]).0 == e,
{
    let ghost g = *graph;
    let (order, place) = explore(graph, seeds);
    let mut out: Vec<(DefId, Vec<Hop>)> = Vec::new();
    let mut d: usize = 0;
    while d < graph.defs.len()
        invariant
            g == *graph,
            g.wf(),
            d <= g.defs@.len(),
            visits_ok(g, seeds@, order@, place@),
            forall|e: DefId| #[trigger] visited(order@, e) <==> impacted(g, seeds@, e),
            forall|i: int, j: int|
                0 <= i < j < out@.len() ==> (#[trigger] out@[i]).0.0 < (#[trigger] out@[j]).0.0,
            forall|i: int|
                0 <= i < out@.len() ==> (#[trigger] out@[i]).0.0 < d && g.at(out@[i].0).kind
                    == DefKind::TestCase && impacted(g, seeds@, out@[i].0) && leads_to(
                    g,
                    seeds@,
                    out@[i].1@,
                    out@[i].0,
                ),
            forall|e: DefId|
                e.0 < d && g.at(e).kind == DefKind::TestCase && #[trigger] impacted(g, seeds@, e)
                    ==> exists|i: int| 0 <= i < out@.len() && (#[trigger] out@[i]).0 == e,
        decreases g.defs@.len() - d,
    {
        let id = DefId(d as u32);
        let ghost before = out@;
        proof {
            if place@[d as int] is None && visited(order@, id) {
                let k = choose|k: int| 0 <= k < order@.len() && (#[trigger] order@[k]).def == id;
                assert(place@[order@[k].def.0 as int] is Some);
            }
        }
        if let Some(k) = place[d] {
            assert(order@[k as int].def == id);
            assert(visited(order@, id));
            if graph.defs[d].kind == DefKind::TestCase {
                let hops = path_to(&order, k, Ghost(g), Ghost(seeds@), Ghost(place@));
                out.push((id, hops));
            }
        }
        proof {
            assert forall|e: DefId|
                e.0 < d + 1 && g.at(e).kind == DefKind::TestCase && #[trigger] impacted(
                    g,
                    seeds@,
                    e,
                ) implies exists|i: int| 0 <= i < out@.len() && (#[trigger] out@[i]).0 == e by {
                if e.0 < d {
                    let i = choose|i: int| 0 <= i < before.len() && (#[trigger] before[i]).0 == e;
                    assert(out@[i].0 == e);
                } else {
                    assert(e == id);
                    assert(out@[before.len() as int].0 == e);
                }
            }
        }
        d = d + 1;
    }
    out
}

/// Nothing is impacted by no change at all.
pub proof fn law_no_seeds_no_impact(g: Graph, d: DefId)
    ensures
        !impacted(g, Seq::<Seed>::empty(), d),
{
    let seeds = Seq::<Seed>::empty();
    if impacted(g, seeds, d) {
        reach::lemma_closed(impact_step(g), seed_set(seeds), Set::empty(), d.0 as int);
    }
}

/// A changed definition is itself impacted: a test that changed is selected.
pub proof fn law_seeds_are_impacted(g: Graph, seeds: Seq<Seed>, i: int)
    requires
        0 <= i < seeds.len(),
    ensures
        impacted(g, seeds, seeds[i].def),
{
    reach::lemma_start(impact_step(g), seed_set(seeds), seeds[i].def.0 as int);
}

/// Impact is closed: whatever calls, reads, embeds, may dispatch to or
/// re-runs something impacted is impacted.
pub proof fn law_impact_propagates(g: Graph, seeds: Seq<Seed>, d: DefId, e: DefId)
    requires
        impacted(g, seeds, d),
        impacts(g, d, e),
    ensures
        impacted(g, seeds, e),
{
    assert(DefId(d.0 as int as u32) == d && DefId(e.0 as int as u32) == e);
    reach::lemma_step(impact_step(g), seed_set(seeds), d.0 as int, e.0 as int);
}

/// Impact is the least such set: any set that holds the seeds and is closed
/// in this way holds everything impacted.
pub proof fn law_impact_is_least(g: Graph, seeds: Seq<Seed>, within: Set<DefId>, d: DefId)
    requires
        forall|i: int| 0 <= i < seeds.len() ==> within.contains((#[trigger] seeds[i]).def),
        forall|a: DefId, b: DefId|
            within.contains(a) && #[trigger] impacts(g, a, b) ==> within.contains(b),
        impacted(g, seeds, d),
    ensures
        within.contains(d),
{
    let set = Set::new(|x: int| 0 <= x <= u32::MAX && within.contains(DefId(x as u32)));
    assert forall|s: int| #[trigger] seed_set(seeds).contains(s) implies set.contains(s) by {
        let i = choose|i: int| 0 <= i < seeds.len() && (#[trigger] seeds[i]).def.0 == s;
        assert(DefId(s as u32) == seeds[i].def);
    }
    reach::lemma_closed(impact_step(g), seed_set(seeds), set, d.0 as int);
    assert(DefId(d.0 as int as u32) == d);
}

/// More seeds never impact less.
pub proof fn law_impact_is_monotone(g: Graph, few: Seq<Seed>, many: Seq<Seed>, d: DefId)
    requires
        forall|i: int|
            0 <= i < few.len() ==> seed_set(many).contains((#[trigger] few[i]).def.0 as int),
        impacted(g, few, d),
    ensures
        impacted(g, many, d),
{
    assert(seed_set(few).subset_of(seed_set(many)));
    reach::lemma_monotone(impact_step(g), seed_set(few), seed_set(many), d.0 as int);
}

/// What changed about a seed does not matter to the walk, nor does the order
/// of the seeds or a seed given twice.
pub proof fn law_only_seed_definitions_matter(g: Graph, a: Seq<Seed>, b: Seq<Seed>, d: DefId)
    requires
        seed_set(a) == seed_set(b),
    ensures
        impacted(g, a, d) == impacted(g, b, d),
{
}

/// A change is impacted by two groups of seeds together exactly when it is
/// impacted by one of them.
pub proof fn law_impact_of_both(g: Graph, a: Seq<Seed>, b: Seq<Seed>, d: DefId)
    ensures
        impacted(g, a + b, d) <==> impacted(g, a, d) || impacted(g, b, d),
{
    let both = a + b;
    assert forall|i: int| 0 <= i < a.len() implies seed_set(both).contains(
        (#[trigger] a[i]).def.0 as int,
    ) by {
        assert(both[i] == a[i]);
    }
    assert forall|i: int| 0 <= i < b.len() implies seed_set(both).contains(
        (#[trigger] b[i]).def.0 as int,
    ) by {
        assert(both[a.len() + i] == b[i]);
    }
    if impacted(g, a, d) {
        law_impact_is_monotone(g, a, both, d);
    }
    if impacted(g, b, d) {
        law_impact_is_monotone(g, b, both, d);
    }
    if impacted(g, both, d) {
        let within = Set::new(|e: DefId| impacted(g, a, e) || impacted(g, b, e));
        assert forall|i: int| 0 <= i < both.len() implies within.contains(
            (#[trigger] both[i]).def,
        ) by {
            if i < a.len() {
                law_seeds_are_impacted(g, a, i);
            } else {
                law_seeds_are_impacted(g, b, i - a.len());
            }
        }
        assert forall|x: DefId, y: DefId|
            within.contains(x) && #[trigger] impacts(g, x, y) implies within.contains(y) by {
            if impacted(g, a, x) {
                law_impact_propagates(g, a, x, y);
            } else {
                law_impact_propagates(g, b, x, y);
            }
        }
        law_impact_is_least(g, both, within, d);
    }
}

/// Hops that lead from a seed to `t` show that `t` is impacted.
pub proof fn law_hops_show_impact(g: Graph, seeds: Seq<Seed>, hops: Seq<Hop>, t: DefId)
    requires
        leads_to(g, seeds, hops, t),
    ensures
        impacted(g, seeds, t),
    decreases hops.len(),
{
    if hops.len() == 0 {
        reach::lemma_start(impact_step(g), seed_set(seeds), t.0 as int);
    } else {
        let before = hops.drop_last();
        let last = hops.last();
        assert forall|i: int| 0 <= i < before.len() implies hop_holds(
            g,
            (#[trigger] before[i]).from,
            before[i].edge,
            before[i].to,
        ) by {
            assert(before[i] == hops[i]);
        }
        assert forall|i: int, j: int|
            #![trigger before[i], before[j]]
            0 <= i && j == i + 1 && j < before.len() implies before[i].to == before[j].from by {
            assert(before[i] == hops[i] && before[j] == hops[j]);
        }
        if before.len() > 0 {
            assert(before[0] == hops[0]);
            assert(before.last() == hops[hops.len() - 2]);
            assert(hops[hops.len() - 2].to == hops[hops.len() - 1].from);
        }
        law_hops_show_impact(g, seeds, before, last.from);
        assert(hop_holds(g, hops[hops.len() - 1].from, last.edge, last.to));
        law_impact_propagates(g, seeds, last.from, t);
    }
}

/// A module init embeds nothing: containment alone never leads the walk
/// from a top-level definition to its file's module init.
pub proof fn law_module_init_does_not_embed(g: Graph, p: DefId, d: DefId)
    requires
        g.at(p).kind == DefKind::ModuleInit,
    ensures
        !embeds(g, p, d),
{
}

/// An edge carries a change from what it leads to to where it starts: from a
/// callee to its caller, from what is read to its reader, from a part to what
/// contains it unless that is a module init, and from every definition that
/// a name may stand for to the maker of a call that was not resolved.
pub proof fn law_edges_carry_changes(g: Graph, seeds: Seq<Seed>, i: int, d: DefId)
    requires
        0 <= i < g.edges@.len(),
        impacted(g, seeds, d),
    ensures
        match g.edges@[i] {
            Edge::Calls { from, to: CallTarget::Resolved(t) } => t == d ==> impacted(
                g,
                seeds,
                from,
            ),
            Edge::Calls { from, to: CallTarget::Unknown(name) } => is_called(g.at(d).name@, name@)
                ==> impacted(g, seeds, from),
            Edge::Reads { from, to } => to == d ==> impacted(g, seeds, from),
            Edge::Contains { parent, child } => child == d && g.at(parent).kind
                != DefKind::ModuleInit && (forall|j: int|
                i < j < g.edges@.len() ==> !(#[trigger] g.edges@[j] matches Edge::Contains {
                    child: c,
                    ..
                } && c == d)) ==> impacted(g, seeds, parent),
            Edge::Imports { .. } => true,
        },
{
    match g.edges@[i] {
        Edge::Calls { from, to: CallTarget::Resolved(t) } => {
            if t == d {
                assert(caller_in(g.edges@[i], d) == Some(from));
                law_impact_propagates(g, seeds, d, from);
            }
        },
        Edge::Calls { from, to: CallTarget::Unknown(name) } => {
            if is_called(g.at(d).name@, name@) {
                lemma_called(g.at(d).name@, name@);
                assert(namer_in(g.edges@[i], name@) == Some(from));
                law_impact_propagates(g, seeds, d, from);
            }
        },
        Edge::Reads { from, to } => {
            if to == d {
                assert(reader_in(g.edges@[i], d) == Some(from));
                law_impact_propagates(g, seeds, d, from);
            }
        },
        Edge::Contains { parent, child } => {
            if child == d && g.at(parent).kind != DefKind::ModuleInit && (forall|j: int|
                i < j < g.edges@.len() ==> !(#[trigger] g.edges@[j] matches Edge::Contains {
                    child: c,
                    ..
                } && c == d)) {
                lemma_last_container(g.edges@, i, d, parent);
                law_impact_propagates(g, seeds, d, parent);
            }
        },
        Edge::Imports { .. } => {},
    }
}

/// May a call of `name` mean the definition `full`: is it its name, or what
/// stands behind its last dot?
pub open spec fn is_called(full: Seq<char>, name: Seq<char>) -> bool {
    &&& !name.contains('.')
    &&& full == name || exists|owner: Seq<char>| full == #[trigger] (owner + seq!['.'] + name)
}

proof fn lemma_called(full: Seq<char>, name: Seq<char>)
    requires
        is_called(full, name),
    ensures
        short_name(full) == name,
{
    text::law_tail_follows_last(full, name, '.');
    if full != name {
        let owner = choose|owner: Seq<char>| full == #[trigger] (owner + seq!['.'] + name);
        text::law_tail_follows_last(owner, name, '.');
    }
}

proof fn lemma_last_container(edges: Seq<Edge>, i: int, d: DefId, parent: DefId)
    requires
        0 <= i < edges.len(),
        edges[i] == (Edge::Contains { parent, child: d }),
        forall|j: int|
            i < j < edges.len() ==> !(#[trigger] edges[j] matches Edge::Contains { child: c, .. }
                && c == d),
    ensures
        container_of(edges, d) == Some(parent),
    decreases edges.len(),
{
    if i < edges.len() - 1 {
        let rest = edges.drop_last();
        assert(edges[edges.len() - 1] == edges.last());
        assert(rest[i] == edges[i]);
        assert forall|j: int| i < j < rest.len() implies !(#[trigger] rest[j] matches
            Edge::Contains { child: c, .. } && c == d) by {
            assert(rest[j] == edges[j]);
        }
        lemma_last_container(rest, i, d, parent);
    }
}

/// A file runs itself, and what it imports with all that this runs.
pub proof fn law_importers_run_what_they_import(g: Graph, i: int, f: FileId, origin: FileId)
    requires
        0 <= i < g.edges@.len(),
        g.edges@[i] matches Edge::Imports { from, to } && from == f && runs(g, to, origin),
    ensures
        runs(g, f, origin),
        runs(g, f, f),
        runs(g, origin, origin),
{
    let to = g.edges@[i]->Imports_to;
    let step = import_step(g);
    reach::lemma_start(step, set![f.0 as int], f.0 as int);
    reach::lemma_start(step, set![origin.0 as int], origin.0 as int);
    assert(importer_in(g.edges@[i], to) == Some(f));
    assert(imports(g, f, to));
    assert(FileId(f.0 as int as u32) == f && FileId(to.0 as int as u32) == to);
    assert(step(to.0 as int, f.0 as int));
    reach::lemma_step(step, set![origin.0 as int], to.0 as int, f.0 as int);
}

/// When the loose code of a file changes, every test is impacted in the files
/// that run it, and the loose code of these files.
pub proof fn law_module_init_reaches_what_runs_it(
    g: Graph,
    seeds: Seq<Seed>,
    d: DefId,
    e: DefId,
)
    requires
        impacted(g, seeds, d),
        g.at(d).kind == DefKind::ModuleInit,
        g.has_def(e),
        runs(g, g.at(e).file, g.at(d).file),
        g.at(e).kind == DefKind::TestCase || graph::init_of(g.defs@, g.at(e).file) == Some(e),
    ensures
        impacted(g, seeds, e),
{
    law_impact_propagates(g, seeds, d, e);
}

} // verus!
