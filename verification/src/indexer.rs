//! Building the graph: each source is hashed and, where its hash is new,
//! parsed; then definitions, imports and references become files,
//! definitions and edges.
use std::collections::HashSet;
use vstd::hash_set::StringHashSet;
use vstd::prelude::*;

use crate::cache;
use crate::cache::CachedExtraction;
use crate::classify;
use crate::classify::parse_and_extract;
use crate::fingerprint;
use crate::fingerprint::{hash_bytes, same_hash};
use crate::graph;
use crate::graph::{CallTarget, Def, DefId, DefKind, Edge, FileId, FileNode, Graph};
use crate::language;
use crate::language::{
    copy_chain, copy_extraction, DefView, ExtractionView, FactsView, Language, Registry,
    RepoFacts,
};
use crate::names::NameLists;
use crate::paths;
use crate::syntax::ParseFailure;
use crate::text;
use crate::text::{same, tail_after};
use crate::walk;

verus! {

/// How many files were parsed, and how many kept what an earlier run had
/// extracted.
#[derive(Debug, Clone, Copy, PartialEq, Eq, Structural)]
pub struct IndexStats {
    pub parsed: usize,
    pub reused: usize,
}

impl Default for IndexStats {
    fn default() -> (s: Self)
        ensures
            s.parsed == 0,
            s.reused == 0,
    {
        IndexStats { parsed: 0, reused: 0 }
    }
}

/// A source file: its repo-relative path and its contents.
#[derive(Debug)]
pub struct SourceFile {
    pub path: String,
    pub src: String,
}

/// Why there is no index.
#[derive(Debug, Clone, PartialEq, Eq)]
pub enum IndexError {
    /// The file at this path was not parsed.
    Parse { path: String, failure: ParseFailure },
    /// There are more definitions or files than ids.
    TooMany,
}

/// What a [`IndexError`] says.
pub enum IndexErrorView {
    Parse { path: Seq<char>, failure: ParseFailure },
    TooMany,
}

impl View for IndexError {
    type V = IndexErrorView;

    open spec fn view(&self) -> IndexErrorView {
        match self {
            IndexError::Parse { path, failure } => IndexErrorView::Parse {
                path: path@,
                failure: *failure,
            },
            IndexError::TooMany => IndexErrorView::TooMany,
        }
    }
}

/// The last entry of an earlier run for the file at `path`, or `-1`.
pub open spec fn last_entry(
    prev: Seq<(Seq<char>, Seq<u8>, ExtractionView)>,
    path: Seq<char>,
) -> int
    decreases prev.len(),
{
    if prev.len() == 0 {
        -1
    } else if paths::same_path(prev.last().0, path) {
        prev.len() - 1
    } else {
        last_entry(prev.drop_last(), path)
    }
}

/// Does an earlier one of the sources have the path of the one at `i`?
pub open spec fn seen_before(sources: Seq<SourceFile>, i: int) -> bool {
    exists|j: int|
        0 <= j < i && paths::same_path((#[trigger] sources[j]).path@, sources[i].path@)
}

/// The hash that a source is told apart by.
pub open spec fn source_hash(src: Seq<char>) -> Seq<u8> {
    fingerprint::blake3_hash(fingerprint::bytes_of(src))
}

/// Does the source at `i` keep what an earlier run extracted from it? It does
/// when that run saw the same contents at the same path.
pub open spec fn reusable(
    prev: Seq<(Seq<char>, Seq<u8>, ExtractionView)>,
    sources: Seq<SourceFile>,
    i: int,
) -> bool {
    let j = last_entry(prev, sources[i].path@);
    j >= 0 && prev[j].1 == source_hash(sources[i].src@) && !seen_before(sources, i)
}

/// What is extracted from the source at `i`.
pub open spec fn extraction_at<L: Language>(
    langs: Seq<L>,
    prev: Seq<(Seq<char>, Seq<u8>, ExtractionView)>,
    sources: Seq<SourceFile>,
    i: int,
) -> Result<ExtractionView, ParseFailure> {
    if reusable(prev, sources, i) {
        Ok(prev[last_entry(prev, sources[i].path@)].2)
    } else {
        match language::lang_for(langs, sources[i].path@) {
            Some(lang) => classify::extracted(lang, sources[i].path@, sources[i].src@),
            None => Err(ParseFailure::Grammar),
        }
    }
}

/// What is extracted from the first `k` sources, or the first failure.
pub open spec fn refreshed<L: Language>(
    langs: Seq<L>,
    prev: Seq<(Seq<char>, Seq<u8>, ExtractionView)>,
    sources: Seq<SourceFile>,
    k: int,
) -> Result<Seq<(Seq<char>, Seq<u8>, ExtractionView)>, IndexErrorView>
    decreases k,
{
    if k <= 0 {
        Ok(Seq::empty())
    } else {
        match refreshed(langs, prev, sources, k - 1) {
            Err(e) => Err(e),
            Ok(done) => match extraction_at(langs, prev, sources, k - 1) {
                Err(failure) => Err(
                    IndexErrorView::Parse { path: sources[k - 1].path@, failure },
                ),
                Ok(e) => Ok(
                    done.push((sources[k - 1].path@, source_hash(sources[k - 1].src@), e)),
                ),
            },
        }
    }
}

/// How many of the first `k` sources keep what an earlier run extracted.
pub open spec fn reuse_count(
    prev: Seq<(Seq<char>, Seq<u8>, ExtractionView)>,
    sources: Seq<SourceFile>,
    k: int,
) -> nat
    decreases k,
{
    if k <= 0 {
        0
    } else {
        reuse_count(prev, sources, k - 1) + (if reusable(prev, sources, k - 1) {
            1nat
        } else {
            0
        })
    }
}

proof fn lemma_refreshed_fail<L: Language>(
    langs: Seq<L>,
    prev: Seq<(Seq<char>, Seq<u8>, ExtractionView)>,
    sources: Seq<SourceFile>,
    k: int,
    n: int,
)
    requires
        0 <= k <= n,
        refreshed(langs, prev, sources, k) is Err,
    ensures
        refreshed(langs, prev, sources, n) == refreshed(langs, prev, sources, k),
    decreases n - k,
{
    if k < n {
        lemma_refreshed_fail(langs, prev, sources, k, n - 1);
    }
}

proof fn lemma_last_entry(
    prev: Seq<(Seq<char>, Seq<u8>, ExtractionView)>,
    path: Seq<char>,
)
    ensures
        -1 <= last_entry(prev, path) < prev.len(),
    decreases prev.len(),
{
    if prev.len() > 0 && !paths::same_path(prev.last().0, path) {
        lemma_last_entry(prev.drop_last(), path);
    }
}

/// The positions of the entries for `key`, a path spelled the canonical way.
spec fn entries_at(
    prev: Seq<(Seq<char>, Seq<u8>, ExtractionView)>,
    key: Seq<char>,
) -> Seq<usize>
    decreases prev.len(),
{
    if prev.len() == 0 {
        Seq::empty()
    } else {
        let before = entries_at(prev.drop_last(), key);
        if paths::canonical(prev.last().0) == key {
            before.push((prev.len() - 1) as usize)
        } else {
            before
        }
    }
}

proof fn lemma_entries_at(
    prev: Seq<(Seq<char>, Seq<u8>, ExtractionView)>,
    path: Seq<char>,
)
    requires
        prev.len() <= usize::MAX,
    ensures
        entries_at(prev, paths::canonical(path)).len() == 0 <==> last_entry(prev, path) == -1,
        entries_at(prev, paths::canonical(path)).len() > 0 ==> entries_at(
            prev,
            paths::canonical(path),
        ).last() == last_entry(prev, path),
    decreases prev.len(),
{
    if prev.len() > 0 {
        lemma_entries_at(prev.drop_last(), path);
        lemma_last_entry(prev.drop_last(), path);
        paths::law_canonical_decides(prev.last().0, path);
    }
}

/// The extractions of an earlier run, by canonical path.
fn index_entries(prev: &Vec<CachedExtraction>) -> (r: NameLists<usize>)
    ensures
        r.wf(),
        forall|key: Seq<char>| #[trigger]
            r.list(key) == entries_at(cache::cached_views(prev@), key),
{
    let ghost all = cache::cached_views(prev@);
    let mut lists: NameLists<usize> = NameLists::new();
    let mut i: usize = 0;
    assert(all.take(0) =~= Seq::<(Seq<char>, Seq<u8>, ExtractionView)>::empty());
    while i < prev.len()
        invariant
            i <= prev@.len(),
            all == cache::cached_views(prev@),
            lists.wf(),
            forall|key: Seq<char>| #[trigger]
                lists.list(key) == entries_at(all.take(i as int), key),
        decreases prev@.len() - i,
    {
        assert(all.take(i + 1).drop_last() =~= all.take(i as int));
        assert(all.take(i + 1).last() == cache::cached_view(prev@[i as int]));
        lists.file(paths::canonical_path(prev[i].0.as_str()).as_str(), i);
        i = i + 1;
    }
    assert(all.take(all.len() as int) =~= all);
    lists
}

/// Every source has a language.
pub open spec fn all_known<L: Language>(langs: Seq<L>, sources: Seq<SourceFile>) -> bool {
    forall|i: int|
        0 <= i < sources.len() ==> language::lang_for(langs, (#[trigger] sources[i]).path@) is Some
}

/// Parents and references of every extraction name definitions of it.
pub open spec fn all_wf(cached: Seq<(Seq<char>, Seq<u8>, ExtractionView)>) -> bool {
    forall|i: int| 0 <= i < cached.len() ==> (#[trigger] cached[i]).2.wf()
}

/// Is `r` what a refresh should come to?
pub open spec fn is_refresh<L: Language>(
    r: Result<(Vec<CachedExtraction>, IndexStats), IndexError>,
    langs: Seq<L>,
    prev: Seq<(Seq<char>, Seq<u8>, ExtractionView)>,
    sources: Seq<SourceFile>,
) -> bool {
    match r {
        Ok((v, stats)) => {
            &&& refreshed(langs, prev, sources, sources.len() as int) == Ok::<
                Seq<(Seq<char>, Seq<u8>, ExtractionView)>,
                IndexErrorView,
            >(cache::cached_views(v@))
            &&& stats.reused == reuse_count(prev, sources, sources.len() as int)
            &&& stats.parsed + stats.reused == sources.len()
        },
        Err(e) => refreshed(langs, prev, sources, sources.len() as int) == Err::<
            Seq<(Seq<char>, Seq<u8>, ExtractionView)>,
            IndexErrorView,
        >(e@),
    }
}

/// Is `key` the canonical path of one of the first `k` sources?
spec fn key_seen(sources: Seq<SourceFile>, k: int, key: Seq<char>) -> bool {
    exists|j: int| 0 <= j < k && paths::canonical((#[trigger] sources[j]).path@) == key
}

proof fn lemma_key_seen(sources: Seq<SourceFile>, i: int)
    requires
        0 <= i < sources.len(),
    ensures
        key_seen(sources, i, paths::canonical(sources[i].path@)) <==> seen_before(sources, i),
        forall|key: Seq<char>| #[trigger]
            key_seen(sources, i + 1, key) <==> (key_seen(sources, i, key) || key
                == paths::canonical(sources[i].path@)),
{
    let key = paths::canonical(sources[i].path@);
    if key_seen(sources, i, key) {
        let j = choose|j: int|
            0 <= j < i && paths::canonical((#[trigger] sources[j]).path@) == key;
        paths::law_canonical_decides(sources[j].path@, sources[i].path@);
    }
    if seen_before(sources, i) {
        let j = choose|j: int|
            0 <= j < i && paths::same_path((#[trigger] sources[j]).path@, sources[i].path@);
        paths::law_canonical_decides(sources[j].path@, sources[i].path@);
        assert(paths::canonical(sources[j].path@) == key);
    }
    assert forall|key: Seq<char>| #[trigger]
        key_seen(sources, i + 1, key) <==> (key_seen(sources, i, key) || key == paths::canonical(
            sources[i].path@,
        )) by {
        if key_seen(sources, i, key) {
            let j = choose|j: int|
                0 <= j < i && paths::canonical((#[trigger] sources[j]).path@) == key;
            assert(paths::canonical(sources[j].path@) == key);
        }
        if key == paths::canonical(sources[i].path@) {
            assert(0 <= i < i + 1 && paths::canonical(sources[i].path@) == key);
        }
    }
}

/// What is extracted from one source: what was kept, or else what its
/// language finds in it.
fn extract_one<L: Language>(
    registry: &Registry<L>,
    file: &SourceFile,
    kept: Option<&CachedExtraction>,
) -> (r: Result<language::Extraction, ParseFailure>)
    requires
        language::lang_for(registry.langs@, file.path@) is Some,
        kept matches Some(c) ==> c.2@.wf(),
    ensures
        match kept {
            Some(c) => r matches Ok(e) && e@ == c.2@,
            None => classify::extraction_view(r) == classify::extracted(
                language::lang_for(registry.langs@, file.path@)->0,
                file.path@,
                file.src@,
            ),
        },
        r matches Ok(e) ==> e@.wf(),
{
    match kept {
        Some(c) => Ok(copy_extraction(&c.2)),
        None => match registry.for_path(file.path.as_str()) {
            Some(lang) => parse_and_extract(lang, file.path.as_str(), file.src.as_str()),
            None => Err(ParseFailure::Grammar),
        },
    }
}

/// Extracts what every source holds, keeping what an earlier run extracted
/// from a source whose contents are the same.
pub fn refresh<L: Language>(
    registry: &Registry<L>,
    sources: &Vec<SourceFile>,
    prev: &Vec<CachedExtraction>,
) -> (r: Result<(Vec<CachedExtraction>, IndexStats), IndexError>)
    requires
        all_known(registry.langs@, sources@),
        all_wf(cache::cached_views(prev@)),
    ensures
        is_refresh(r, registry.langs@, cache::cached_views(prev@), sources@),
        r matches Ok((v, _)) ==> all_wf(cache::cached_views(v@)),
{
    let ghost pv = cache::cached_views(prev@);
    let ghost langs = registry.langs@;
    let entries = index_entries(prev);
    let mut seen = StringHashSet::new();
    let mut out: Vec<CachedExtraction> = Vec::new();
    let mut parsed: usize = 0;
    let mut reused: usize = 0;
    let mut i: usize = 0;
    assert(cache::cached_views(out@) =~= Seq::<(Seq<char>, Seq<u8>, ExtractionView)>::empty());
    while i < sources.len()
        invariant
            pv == cache::cached_views(prev@),
            langs == registry.langs@,
            all_known(langs, sources@),
            all_wf(pv),
            entries.wf(),
            forall|key: Seq<char>| #[trigger] entries.list(key) == entries_at(pv, key),
            i <= sources@.len(),
            refreshed(langs, pv, sources@, i as int) == Ok::<
                Seq<(Seq<char>, Seq<u8>, ExtractionView)>,
                IndexErrorView,
            >(cache::cached_views(out@)),
            all_wf(cache::cached_views(out@)),
            reused == reuse_count(pv, sources@, i as int),
            parsed + reused == i,
            forall|key: Seq<char>| #[trigger]
                seen@.contains(key) <==> key_seen(sources@, i as int, key),
        decreases sources@.len() - i,
    {
        let file = &sources[i];
        let ghost was = out@;
        let key = paths::canonical_path(file.path.as_str());
        proof {
            assert(pv.len() == prev.len());
            lemma_entries_at(pv, file.path@);
            lemma_last_entry(pv, file.path@);
            lemma_key_seen(sources@, i as int);
            assert(language::lang_for(langs, sources@[i as int].path@) is Some);
        }
        let hash = hash_bytes(file.src.as_str().as_bytes());
        assert(hash@ == source_hash(file.src@));
        let first = !seen.contains(key.as_str());
        let kept: Option<usize> = match entries.get(key.as_str()) {
            Some(at) => {
                if first && at.len() > 0 {
                    let j: usize = at[at.len() - 1];
                    assert(at@.last() == j);
                    assert(pv[j as int] == cache::cached_view(prev@[j as int]));
                    if same_hash(&prev[j].1, &hash) {
                        Some(j)
                    } else {
                        None
                    }
                } else {
                    None
                }
            },
            None => None,
        };
        assert(kept is Some <==> reusable(pv, sources@, i as int));
        let entry: Option<&CachedExtraction> = match kept {
            Some(j) => {
                assert(pv[j as int] == cache::cached_view(prev@[j as int]));
                assert(pv[j as int].2.wf());
                reused = reused + 1;
                Some(&prev[j])
            },
            None => {
                parsed = parsed + 1;
                None
            },
        };
        let extraction = match extract_one(registry, file, entry) {
            Ok(e) => e,
            Err(failure) => {
                proof {
                    lemma_refreshed_fail(langs, pv, sources@, i + 1, sources@.len() as int);
                }
                return Err(IndexError::Parse { path: file.path.clone(), failure });
            },
        };
        seen.insert(key);
        let entry = (file.path.clone(), hash, extraction);
        out.push(entry);
        proof {
            let before = cache::cached_views(was);
            let now = cache::cached_views(out@);
            assert(now =~= before.push(cache::cached_view(entry)));
            assert forall|k: int| 0 <= k < now.len() implies (#[trigger] now[k]).2.wf() by {
                if k < before.len() {
                    assert(now[k] == before[k]);
                }
            }
        }
        i = i + 1;
    }
    Ok((out, IndexStats { parsed, reused }))
}

/// What an edge says, the name of an unresolved call told apart from a
/// resolved one.
#[allow(inconsistent_fields)]
pub enum EdgeView {
    Contains { parent: DefId, child: DefId },
    Imports { from: FileId, to: FileId },
    Calls { from: DefId, to: DefId },
    Unknown { from: DefId, name: Seq<char> },
    Reads { from: DefId, to: DefId },
}

pub open spec fn edge_view(e: Edge) -> EdgeView {
    match e {
        Edge::Contains { parent, child } => EdgeView::Contains { parent, child },
        Edge::Imports { from, to } => EdgeView::Imports { from, to },
        Edge::Calls { from, to: CallTarget::Resolved(d) } => EdgeView::Calls { from, to: d },
        Edge::Calls { from, to: CallTarget::Unknown(n) } => EdgeView::Unknown { from, name: n@ },
        Edge::Reads { from, to } => EdgeView::Reads { from, to },
    }
}

/// What a list of edges says.
pub open spec fn edge_views(v: Seq<Edge>) -> Seq<EdgeView> {
    v.map_values(|e: Edge| edge_view(e))
}

/// Each edge once, where it came first.
pub open spec fn once(wanted: Seq<EdgeView>) -> Seq<EdgeView>
    decreases wanted.len(),
{
    if wanted.len() == 0 {
        Seq::empty()
    } else {
        let before = once(wanted.drop_last());
        if before.contains(wanted.last()) {
            before
        } else {
            before.push(wanted.last())
        }
    }
}

/// How many definitions the first `i` files have.
pub open spec fn base_of(cached: Seq<(Seq<char>, Seq<u8>, ExtractionView)>, i: int) -> nat
    decreases i,
{
    if i <= 0 {
        0
    } else {
        base_of(cached, i - 1) + cached[i - 1].2.defs.len()
    }
}

/// The id of definition `k` of file `i`: definitions are numbered file by
/// file.
pub open spec fn id_of(
    cached: Seq<(Seq<char>, Seq<u8>, ExtractionView)>,
    i: int,
    k: int,
) -> DefId {
    DefId((base_of(cached, i) + k) as u32)
}

/// Is `d` the definition `e` of file `f`?
pub open spec fn is_def(d: Def, e: DefView, f: FileId) -> bool {
    &&& d.name@ == e.name
    &&& d.kind == e.kind
    &&& d.file == f
    &&& d.start_line == e.start_line
    &&& d.end_line == e.end_line
    &&& language::chain_view(d.test_id) == e.test_id
    &&& d.computed_name == e.computed_name
}

/// Is `node` the file that `c` tells of?
pub open spec fn is_file<L: Language>(
    node: FileNode,
    c: (Seq<char>, Seq<u8>, ExtractionView),
    langs: Seq<L>,
) -> bool {
    &&& node.path@ == c.0
    &&& node.hash@ == c.1
    &&& language::lang_for(langs, c.0) matches Some(l) && node.lang@ == l.spec_id()
}

/// The graph's files are those of `cached`, in order.
pub open spec fn files_are<L: Language>(
    files: Seq<FileNode>,
    cached: Seq<(Seq<char>, Seq<u8>, ExtractionView)>,
    langs: Seq<L>,
) -> bool {
    &&& files.len() == cached.len()
    &&& forall|i: int| 0 <= i < files.len() ==> is_file(#[trigger] files[i], cached[i], langs)
}

/// The graph's definitions are those of the first `n` files, file by file.
pub open spec fn defs_are(
    defs: Seq<Def>,
    cached: Seq<(Seq<char>, Seq<u8>, ExtractionView)>,
    n: int,
) -> bool {
    &&& defs.len() == base_of(cached, n)
    &&& forall|i: int, k: int|
        0 <= i < n && 0 <= k < cached[i].2.defs.len() ==> is_def(
            defs[base_of(cached, i) + k],
            #[trigger] cached[i].2.defs[k],
            FileId(i as u32),
        )
}

/// The position of a file's module init: the last there is.
pub open spec fn init_position(defs: Seq<DefView>) -> Option<int>
    decreases defs.len(),
{
    if defs.len() == 0 {
        None
    } else if defs.last().kind == DefKind::ModuleInit {
        Some(defs.len() - 1)
    } else {
        init_position(defs.drop_last())
    }
}

/// What contains definition `k` of file `i`: its parent or else, by
/// bookkeeping, the file's module init.
pub open spec fn containment(
    cached: Seq<(Seq<char>, Seq<u8>, ExtractionView)>,
    i: int,
    k: int,
) -> Seq<EdgeView> {
    let d = cached[i].2.defs[k];
    if d.kind == DefKind::ModuleInit {
        Seq::empty()
    } else {
        match d.parent {
            Some(p) => seq![
                EdgeView::Contains { parent: id_of(cached, i, p as int), child: id_of(cached, i, k) },
            ],
            None => match init_position(cached[i].2.defs) {
                Some(m) => seq![
                    EdgeView::Contains { parent: id_of(cached, i, m), child: id_of(cached, i, k) },
                ],
                None => Seq::empty(),
            },
        }
    }
}

/// What contains the first `k` definitions of file `i`.
pub open spec fn containments_in(
    cached: Seq<(Seq<char>, Seq<u8>, ExtractionView)>,
    i: int,
    k: int,
) -> Seq<EdgeView>
    decreases k,
{
    if k <= 0 {
        Seq::empty()
    } else {
        containments_in(cached, i, k - 1) + containment(cached, i, k - 1)
    }
}

/// What contains the definitions of the first `n` files.
pub open spec fn containments(
    cached: Seq<(Seq<char>, Seq<u8>, ExtractionView)>,
    n: int,
) -> Seq<EdgeView>
    decreases n,
{
    if n <= 0 {
        Seq::empty()
    } else {
        containments(cached, n - 1) + containments_in(
            cached,
            n - 1,
            cached[n - 1].2.defs.len() as int,
        )
    }
}

/// The files at `path`, in order.
pub open spec fn files_at(
    cached: Seq<(Seq<char>, Seq<u8>, ExtractionView)>,
    path: Seq<char>,
) -> Seq<FileId>
    decreases cached.len(),
{
    if cached.len() == 0 {
        Seq::empty()
    } else {
        let before = files_at(cached.drop_last(), path);
        if paths::same_path(cached.last().0, path) {
            before.push(FileId((cached.len() - 1) as u32))
        } else {
            before
        }
    }
}

/// The files that stand directly in the directory `dir`, in order.
pub open spec fn files_in(
    cached: Seq<(Seq<char>, Seq<u8>, ExtractionView)>,
    dir: Seq<char>,
) -> Seq<FileId>
    decreases cached.len(),
{
    if cached.len() == 0 {
        Seq::empty()
    } else {
        let before = files_in(cached.drop_last(), dir);
        if paths::parent_of(cached.last().0) matches Some(p) && paths::same_path(p, dir) {
            before.push(FileId((cached.len() - 1) as u32))
        } else {
            before
        }
    }
}

/// The files that an import resolved to `target` reaches: the file there, or
/// every file of the directory there.
pub open spec fn targets_of(
    cached: Seq<(Seq<char>, Seq<u8>, ExtractionView)>,
    target: Option<Seq<char>>,
) -> Seq<FileId> {
    match target {
        None => Seq::empty(),
        Some(r) => {
            let exact = files_at(cached, r);
            if exact.len() > 0 {
                seq![exact.last()]
            } else {
                files_in(cached, r)
            }
        },
    }
}

/// The import edges from `from` to `targets`, none of them to itself.
pub open spec fn import_edges(from: FileId, targets: Seq<FileId>) -> Seq<EdgeView>
    decreases targets.len(),
{
    if targets.len() == 0 {
        Seq::empty()
    } else {
        let before = import_edges(from, targets.drop_last());
        if targets.last() == from {
            before
        } else {
            before.push(EdgeView::Imports { from, to: targets.last() })
        }
    }
}

/// What the import `raw` of the file `c` resolves to.
pub open spec fn resolution<L: Language>(
    langs: Seq<L>,
    c: (Seq<char>, Seq<u8>, ExtractionView),
    raw: Seq<char>,
    repo: FactsView,
) -> Option<Seq<char>> {
    match language::lang_for(langs, c.0) {
        Some(l) => l.spec_resolve(c.0, raw, repo),
        None => None,
    }
}

/// The edges of the first `m` imports of file `i`.
pub open spec fn imports_in<L: Language>(
    langs: Seq<L>,
    cached: Seq<(Seq<char>, Seq<u8>, ExtractionView)>,
    repo: FactsView,
    i: int,
    m: int,
) -> Seq<EdgeView>
    decreases m,
{
    if m <= 0 {
        Seq::empty()
    } else {
        imports_in(langs, cached, repo, i, m - 1) + import_edges(
            FileId(i as u32),
            targets_of(
                cached,
                resolution(langs, cached[i], cached[i].2.imports[m - 1].raw, repo),
            ),
        )
    }
}

/// The edges of the imports of the first `n` files.
pub open spec fn imports_upto<L: Language>(
    langs: Seq<L>,
    cached: Seq<(Seq<char>, Seq<u8>, ExtractionView)>,
    repo: FactsView,
    n: int,
) -> Seq<EdgeView>
    decreases n,
{
    if n <= 0 {
        Seq::empty()
    } else {
        imports_upto(langs, cached, repo, n - 1) + imports_in(
            langs,
            cached,
            repo,
            n - 1,
            cached[n - 1].2.imports.len() as int,
        )
    }
}

/// The files that `from` imports, by the edges.
pub open spec fn imported(edges: Seq<EdgeView>, from: FileId) -> Seq<FileId>
    decreases edges.len(),
{
    if edges.len() == 0 {
        Seq::empty()
    } else {
        let before = imported(edges.drop_last(), from);
        match edges.last() {
            EdgeView::Imports { from: f, to } => if f == from {
                before.push(to)
            } else {
                before
            },
            _ => before,
        }
    }
}

proof fn lemma_imported(edges: Seq<EdgeView>, from: FileId, to: FileId)
    ensures
        imported(edges, from).contains(to) <==> edges.contains(EdgeView::Imports { from, to }),
    decreases edges.len(),
{
    let e = EdgeView::Imports { from, to };
    if edges.len() > 0 {
        let rest = edges.drop_last();
        lemma_imported(rest, from, to);
        let before = imported(rest, from);
        let now = imported(edges, from);
        if before.contains(to) {
            let k = choose|k: int| 0 <= k < before.len() && before[k] == to;
            assert(now[k] == to);
            let j = choose|j: int| 0 <= j < rest.len() && rest[j] == e;
            assert(edges[j] == e);
        }
        if edges.last() == e {
            assert(now[now.len() - 1] == to);
            assert(edges[edges.len() - 1] == e);
        }
        if now.contains(to) {
            let k = choose|k: int| 0 <= k < now.len() && now[k] == to;
            if k < before.len() {
                assert(before[k] == to);
            } else {
                assert(edges.last() == e);
            }
        }
        if edges.contains(e) {
            let j = choose|j: int| 0 <= j < edges.len() && edges[j] == e;
            if j < rest.len() {
                assert(rest[j] == e);
            }
        }
    }
}

proof fn lemma_once_push(wanted: Seq<EdgeView>, e: EdgeView)
    ensures
        once(wanted.push(e)) == (if once(wanted).contains(e) {
            once(wanted)
        } else {
            once(wanted).push(e)
        }),
{
    assert(wanted.push(e).drop_last() =~= wanted);
}

/// `once` keeps exactly the edges there are, and none twice.
pub proof fn lemma_once(wanted: Seq<EdgeView>)
    ensures
        once(wanted).no_duplicates(),
        forall|e: EdgeView| #[trigger] once(wanted).contains(e) <==> wanted.contains(e),
    decreases wanted.len(),
{
    if wanted.len() > 0 {
        let rest = wanted.drop_last();
        lemma_once(rest);
        let before = once(rest);
        let now = once(wanted);
        assert forall|e: EdgeView| #[trigger] now.contains(e) <==> wanted.contains(e) by {
            if wanted.contains(e) {
                let k = choose|k: int| 0 <= k < wanted.len() && wanted[k] == e;
                if k < rest.len() {
                    assert(rest[k] == e);
                    assert(rest.contains(e));
                    assert(before.contains(e));
                }
                if before.contains(e) {
                    let j = choose|j: int| 0 <= j < before.len() && before[j] == e;
                    assert(now[j] == e);
                } else {
                    assert(now[now.len() - 1] == e);
                }
            }
            if now.contains(e) {
                let k = choose|k: int| 0 <= k < now.len() && now[k] == e;
                if k < before.len() {
                    assert(before[k] == e);
                    assert(before.contains(e));
                    assert(rest.contains(e));
                    let j = choose|j: int| 0 <= j < rest.len() && rest[j] == e;
                    assert(wanted[j] == e);
                } else {
                    assert(wanted[wanted.len() - 1] == e);
                }
            }
        }
        assert forall|i: int, j: int|
            0 <= i < now.len() && 0 <= j < now.len() && i != j implies now[i] != now[j] by {
            if i == now.len() - 1 && now.len() > before.len() {
                assert(now[j] == before[j]);
                assert(before.contains(before[j]));
            } else if j == now.len() - 1 && now.len() > before.len() {
                assert(now[i] == before[i]);
                assert(before.contains(before[i]));
            }
        }
    }
}

/// Do the files at `i` and `j` belong to one package of one language, so that
/// they see each other with no import?
pub open spec fn same_package<L: Language>(
    langs: Seq<L>,
    cached: Seq<(Seq<char>, Seq<u8>, ExtractionView)>,
    i: int,
    j: int,
) -> bool {
    match (language::lang_for(langs, cached[i].0), language::lang_for(langs, cached[j].0)) {
        (Some(a), Some(b)) => {
            &&& a.spec_id() == b.spec_id()
            &&& match (a.spec_package_key(cached[i].0), b.spec_package_key(cached[j].0)) {
                (Some(x), Some(y)) => paths::same_path(x, y),
                _ => false,
            }
        },
        _ => false,
    }
}

/// The other files, among the first `n`, of the package of file `i`.
pub open spec fn siblings<L: Language>(
    langs: Seq<L>,
    cached: Seq<(Seq<char>, Seq<u8>, ExtractionView)>,
    i: int,
    n: int,
) -> Seq<FileId>
    decreases n,
{
    if n <= 0 {
        Seq::empty()
    } else {
        let before = siblings(langs, cached, i, n - 1);
        if n - 1 != i && same_package(langs, cached, i, n - 1) {
            before.push(FileId((n - 1) as u32))
        } else {
            before
        }
    }
}

/// The files whose definitions file `i` sees: itself, the rest of its
/// package, and what it imports.
pub open spec fn scope_of<L: Language>(
    langs: Seq<L>,
    cached: Seq<(Seq<char>, Seq<u8>, ExtractionView)>,
    imports: Seq<EdgeView>,
    i: int,
) -> Seq<FileId> {
    seq![FileId(i as u32)] + siblings(langs, cached, i, cached.len() as int) + imported(
        imports,
        FileId(i as u32),
    )
}

/// The definitions of file `f`, among the first `k`, that answer to `name`:
/// by their short name, a module init never.
pub open spec fn answering(
    cached: Seq<(Seq<char>, Seq<u8>, ExtractionView)>,
    f: int,
    name: Seq<char>,
    k: int,
) -> Seq<DefId>
    decreases k,
{
    if k <= 0 {
        Seq::empty()
    } else {
        let before = answering(cached, f, name, k - 1);
        let d = cached[f].2.defs[k - 1];
        if d.kind != DefKind::ModuleInit && walk::short_name(d.name) == name {
            before.push(id_of(cached, f, k - 1))
        } else {
            before
        }
    }
}

/// The definitions of the files in `scope` that answer to `name`.
pub open spec fn candidates(
    cached: Seq<(Seq<char>, Seq<u8>, ExtractionView)>,
    scope: Seq<FileId>,
    name: Seq<char>,
) -> Seq<DefId>
    decreases scope.len(),
{
    if scope.len() == 0 {
        Seq::empty()
    } else {
        let f = scope.last().0 as int;
        candidates(cached, scope.drop_last(), name) + answering(
            cached,
            f,
            name,
            cached[f].2.defs.len() as int,
        )
    }
}

/// The call edges from `from` to the candidates other than itself.
pub open spec fn call_edges(from: DefId, cs: Seq<DefId>) -> Seq<EdgeView>
    decreases cs.len(),
{
    if cs.len() == 0 {
        Seq::empty()
    } else {
        let before = call_edges(from, cs.drop_last());
        if cs.last() == from {
            before
        } else {
            before.push(EdgeView::Calls { from, to: cs.last() })
        }
    }
}

/// The edges of one call: to every candidate other than the caller, or else
/// to the bare name. No call is ever without an edge.
pub open spec fn edges_of_call(from: DefId, cs: Seq<DefId>, name: Seq<char>) -> Seq<EdgeView> {
    let edges = call_edges(from, cs);
    if edges.len() == 0 {
        seq![EdgeView::Unknown { from, name }]
    } else {
        edges
    }
}

/// The edges of one read: to every candidate other than the reader.
pub open spec fn edges_of_read(from: DefId, cs: Seq<DefId>) -> Seq<EdgeView>
    decreases cs.len(),
{
    if cs.len() == 0 {
        Seq::empty()
    } else {
        let before = edges_of_read(from, cs.drop_last());
        if cs.last() == from {
            before
        } else {
            before.push(EdgeView::Reads { from, to: cs.last() })
        }
    }
}

/// The edges of the first `k` calls of file `i`.
pub open spec fn calls_in(
    cached: Seq<(Seq<char>, Seq<u8>, ExtractionView)>,
    scope: Seq<FileId>,
    i: int,
    k: int,
) -> Seq<EdgeView>
    decreases k,
{
    if k <= 0 {
        Seq::empty()
    } else {
        let r = cached[i].2.calls[k - 1];
        calls_in(cached, scope, i, k - 1) + edges_of_call(
            id_of(cached, i, r.from_def as int),
            candidates(cached, scope, r.name),
            r.name,
        )
    }
}

/// The edges of the first `k` reads of file `i`.
pub open spec fn reads_in(
    cached: Seq<(Seq<char>, Seq<u8>, ExtractionView)>,
    scope: Seq<FileId>,
    i: int,
    k: int,
) -> Seq<EdgeView>
    decreases k,
{
    if k <= 0 {
        Seq::empty()
    } else {
        let r = cached[i].2.reads[k - 1];
        reads_in(cached, scope, i, k - 1) + edges_of_read(
            id_of(cached, i, r.from_def as int),
            candidates(cached, scope, r.name),
        )
    }
}

/// The edges of the references of the first `n` files, each looked up in what
/// its file sees.
pub open spec fn refs_upto<L: Language>(
    langs: Seq<L>,
    cached: Seq<(Seq<char>, Seq<u8>, ExtractionView)>,
    imports: Seq<EdgeView>,
    n: int,
) -> Seq<EdgeView>
    decreases n,
{
    if n <= 0 {
        Seq::empty()
    } else {
        let i = n - 1;
        let scope = scope_of(langs, cached, imports, i);
        refs_upto(langs, cached, imports, n - 1) + calls_in(
            cached,
            scope,
            i,
            cached[i].2.calls.len() as int,
        ) + reads_in(cached, scope, i, cached[i].2.reads.len() as int)
    }
}

/// The import edges of the whole repository.
pub open spec fn all_imports<L: Language>(
    langs: Seq<L>,
    cached: Seq<(Seq<char>, Seq<u8>, ExtractionView)>,
    repo: FactsView,
) -> Seq<EdgeView> {
    once(imports_upto(langs, cached, repo, cached.len() as int))
}

/// The edges of the whole repository: containment, then imports, then
/// references.
pub open spec fn all_edges<L: Language>(
    langs: Seq<L>,
    cached: Seq<(Seq<char>, Seq<u8>, ExtractionView)>,
    repo: FactsView,
) -> Seq<EdgeView> {
    containments(cached, cached.len() as int) + all_imports(langs, cached, repo) + once(
        refs_upto(langs, cached, all_imports(langs, cached, repo), cached.len() as int),
    )
}

/// Ids for all files and definitions fit their type.
pub open spec fn ids_fit(cached: Seq<(Seq<char>, Seq<u8>, ExtractionView)>) -> bool {
    cached.len() <= u32::MAX + 1 && base_of(cached, cached.len() as int) <= u32::MAX + 1
}

/// Every entry is of a file with a language.
pub open spec fn entries_known<L: Language>(
    langs: Seq<L>,
    cached: Seq<(Seq<char>, Seq<u8>, ExtractionView)>,
) -> bool {
    forall|i: int|
        0 <= i < cached.len() ==> language::lang_for(langs, (#[trigger] cached[i]).0) is Some
}

pub proof fn lemma_base_monotone(
    cached: Seq<(Seq<char>, Seq<u8>, ExtractionView)>,
    i: int,
    j: int,
)
    requires
        0 <= i <= j,
    ensures
        base_of(cached, i) <= base_of(cached, j),
    decreases j - i,
{
    if i < j {
        lemma_base_monotone(cached, i, j - 1);
    }
}

/// Definition `k` of file `i` has an id within those of the first `n` files.
pub proof fn lemma_id_bounds(
    cached: Seq<(Seq<char>, Seq<u8>, ExtractionView)>,
    i: int,
    k: int,
    n: int,
)
    requires
        0 <= i < n,
        0 <= k < cached[i].2.defs.len(),
    ensures
        base_of(cached, i) + k < base_of(cached, n),
{
    lemma_base_monotone(cached, i + 1, n);
}

/// The file and the position of the `x`th definition.
pub proof fn lemma_where(
    cached: Seq<(Seq<char>, Seq<u8>, ExtractionView)>,
    n: int,
    x: int,
) -> (r: (int, int))
    requires
        0 <= n,
        0 <= x < base_of(cached, n),
    ensures
        0 <= r.0 < n,
        0 <= r.1 < cached[r.0].2.defs.len(),
        x == base_of(cached, r.0) + r.1,
    decreases n,
{
    if x < base_of(cached, n - 1) {
        lemma_where(cached, n - 1, x)
    } else {
        (n - 1, x - base_of(cached, n - 1))
    }
}

/// A graph with the files and definitions of `cached`, and no edge yet.
fn add_nodes<L: Language>(registry: &Registry<L>, cached: &Vec<CachedExtraction>) -> (g: Graph)
    requires
        ids_fit(cache::cached_views(cached@)),
        entries_known(registry.langs@, cache::cached_views(cached@)),
    ensures
        g.wf(),
        files_are(g.files@, cache::cached_views(cached@), registry.langs@),
        defs_are(g.defs@, cache::cached_views(cached@), cached@.len() as int),
        g.edges@ == Seq::<Edge>::empty(),
{
    let ghost cv = cache::cached_views(cached@);
    let ghost langs = registry.langs@;
    let mut graph = Graph::default();
    let mut i: usize = 0;
    while i < cached.len()
        invariant
            cv == cache::cached_views(cached@),
            langs == registry.langs@,
            ids_fit(cv),
            entries_known(langs, cv),
            i <= cached@.len(),
            graph.wf(),
            graph.edges@ == Seq::<Edge>::empty(),
            graph.files@.len() == i,
            forall|j: int| 0 <= j < i ==> is_file(#[trigger] graph.files@[j], cv[j], langs),
            defs_are(graph.defs@, cv, i as int),
        decreases cached@.len() - i,
    {
        let entry = &cached[i];
        assert(cv[i as int] == cache::cached_view(*entry));
        assert(language::lang_for(langs, cv[i as int].0) is Some);
        let lang: String = match registry.for_path(entry.0.as_str()) {
            Some(l) => l.id(),
            None => String::new(),
        };
        let node = FileNode { path: entry.0.clone(), hash: entry.1, lang };
        assert(is_file(node, cv[i as int], langs));
        let ghost files = graph.files@;
        let file = graph.add_file(node);
        proof {
            assert forall|j: int| 0 <= j < i + 1 implies is_file(
                #[trigger] graph.files@[j],
                cv[j],
                langs,
            ) by {
                if j < i {
                    assert(graph.files@[j] == files[j]);
                }
            }
            lemma_base_monotone(cv, i + 1, cv.len() as int);
        }
        let ghost start = graph.defs@;
        let mut k: usize = 0;
        while k < entry.2.defs.len()
            invariant
                cv == cache::cached_views(cached@),
                ids_fit(cv),
                i < cached@.len(),
                *entry == cached@[i as int],
                cv[i as int] == cache::cached_view(*entry),
                k <= entry.2.defs@.len(),
                file == FileId(i as u32),
                graph.wf(),
                graph.edges@ == Seq::<Edge>::empty(),
                graph.files@.len() == i + 1,
                forall|j: int| 0 <= j < i + 1 ==> is_file(#[trigger] graph.files@[j], cv[j], langs),
                start.len() == base_of(cv, i as int),
                defs_are(start, cv, i as int),
                graph.defs@.len() == start.len() + k,
                forall|j: int| 0 <= j < start.len() ==> graph.defs@[j] == #[trigger] start[j],
                forall|j: int|
                    0 <= j < k ==> is_def(
                        graph.defs@[start.len() + j],
                        #[trigger] cv[i as int].2.defs[j],
                        file,
                    ),
                base_of(cv, i + 1) <= u32::MAX + 1,
            decreases entry.2.defs@.len() - k,
        {
            let d = &entry.2.defs[k];
            assert(cv[i as int].2.defs[k as int] == d@);
            let def = Def {
                name: d.name.clone(),
                kind: d.kind,
                file,
                start_line: d.start_line,
                end_line: d.end_line,
                test_id: copy_chain(&d.test_id),
                computed_name: d.computed_name,
            };
            let ghost before = graph.defs@;
            graph.add_def(def);
            proof {
                assert forall|j: int| 0 <= j < k + 1 implies is_def(
                    graph.defs@[start.len() + j],
                    #[trigger] cv[i as int].2.defs[j],
                    file,
                ) by {
                    if j < k {
                        assert(graph.defs@[start.len() + j] == before[start.len() + j]);
                    }
                }
            }
            k = k + 1;
        }
        proof {
            assert forall|a: int, b: int|
                0 <= a < i + 1 && 0 <= b < cv[a].2.defs.len() implies is_def(
                graph.defs@[base_of(cv, a) + b],
                #[trigger] cv[a].2.defs[b],
                FileId(a as u32),
            ) by {
                if a < i {
                    lemma_id_bounds(cv, a, b, i as int);
                    assert(graph.defs@[base_of(cv, a) + b] == start[base_of(cv, a) + b]);
                }
            }
        }
        i = i + 1;
    }
    graph
}

/// The position of a file's module init.
fn find_init(defs: &Vec<language::ExtractedDef>) -> (r: Option<usize>)
    ensures
        match r {
            Some(m) => init_position(language::def_views(defs@)) == Some(m as int) && m
                < defs@.len(),
            None => init_position(language::def_views(defs@)) is None,
        },
{
    let ghost all = language::def_views(defs@);
    let mut i: usize = defs.len();
    assert(all.take(all.len() as int) =~= all);
    while i > 0
        invariant
            i <= defs@.len(),
            all == language::def_views(defs@),
            init_position(all) == init_position(all.take(i as int)),
        decreases i,
    {
        assert(all.take(i as int).last() == defs@[i - 1]@);
        assert(all.take(i as int).drop_last() =~= all.take(i - 1));
        if defs[i - 1].kind == DefKind::ModuleInit {
            return Some(i - 1);
        }
        i = i - 1;
    }
    None
}

/// Adds what contains the definitions of `cached`.
fn add_containments(graph: &mut Graph, cached: &Vec<CachedExtraction>)
    requires
        old(graph).wf(),
        ids_fit(cache::cached_views(cached@)),
        all_wf(cache::cached_views(cached@)),
        defs_are(old(graph).defs@, cache::cached_views(cached@), cached@.len() as int),
        old(graph).edges@ == Seq::<Edge>::empty(),
    ensures
        final(graph).wf(),
        final(graph).files@ == old(graph).files@,
        final(graph).defs@ == old(graph).defs@,
        walk::edges_closed(*final(graph)),
        edge_views(final(graph).edges@) == containments(
            cache::cached_views(cached@),
            cached@.len() as int,
        ),
{
    let ghost cv = cache::cached_views(cached@);
    let ghost g0 = *graph;
    let mut base: usize = 0;
    let mut i: usize = 0;
    assert(edge_views(graph.edges@) =~= Seq::<EdgeView>::empty());
    while i < cached.len()
        invariant
            cv == cache::cached_views(cached@),
            ids_fit(cv),
            all_wf(cv),
            i <= cached@.len(),
            base == base_of(cv, i as int),
            graph.wf(),
            graph.files@ == g0.files@,
            graph.defs@ == g0.defs@,
            defs_are(g0.defs@, cv, cached@.len() as int),
            walk::edges_closed(*graph),
            edge_views(graph.edges@) == containments(cv, i as int),
        decreases cached@.len() - i,
    {
        let defs = &cached[i].2.defs;
        assert(cv[i as int] == cache::cached_view(cached@[i as int]));
        assert(cv[i as int].2.wf());
        let init = find_init(defs);
        let ghost head = containments(cv, i as int);
        proof {
            lemma_base_monotone(cv, i + 1, cv.len() as int);
        }
        let mut k: usize = 0;
        assert(head + containments_in(cv, i as int, 0) =~= head);
        while k < defs.len()
            invariant
                cv == cache::cached_views(cached@),
                i < cached@.len(),
                *defs == cached@[i as int].2.defs,
                cv[i as int] == cache::cached_view(cached@[i as int]),
                cv[i as int].2.wf(),
                ids_fit(cv),
                base == base_of(cv, i as int),
                base + defs@.len() == base_of(cv, i + 1),
                base_of(cv, i + 1) <= base_of(cv, cv.len() as int),
                graph.defs@.len() == base_of(cv, cv.len() as int),
                init matches Some(m) ==> m < defs@.len(),
                match init {
                    Some(m) => init_position(cv[i as int].2.defs) == Some(m as int),
                    None => init_position(cv[i as int].2.defs) is None,
                },
                k <= defs@.len(),
                graph.wf(),
                graph.files@ == g0.files@,
                graph.defs@ == g0.defs@,
                walk::edges_closed(*graph),
                edge_views(graph.edges@) == head + containments_in(cv, i as int, k as int),
            decreases defs@.len() - k,
        {
            let d = &defs[k];
            assert(cv[i as int].2.defs[k as int] == d@);
            let ghost before = graph.edges@;
            if d.kind != DefKind::ModuleInit {
                let holder: Option<usize> = match d.parent {
                    Some(p) => Some(p),
                    None => init,
                };
                if let Some(p) = holder {
                    assert(p < defs@.len());
                    let e = Edge::Contains {
                        parent: DefId((base + p) as u32),
                        child: DefId((base + k) as u32),
                    };
                    graph.add_edge(e);
                    assert(edge_views(graph.edges@) =~= edge_views(before).push(edge_view(e)));
                }
            }
            proof {
                assert(edge_views(graph.edges@) =~= head + (containments_in(
                    cv,
                    i as int,
                    k as int,
                ) + containment(cv, i as int, k as int)));
            }
            k = k + 1;
        }
        assert(graph.defs@.len() == graph.defs.len());
        base = base + defs.len();
        i = i + 1;
    }
}

/// The files of `cached`, by canonical path and by canonical directory.
struct FileTables {
    by_path: NameLists<FileId>,
    by_dir: NameLists<FileId>,
}

impl FileTables {
    spec fn agrees(&self, cv: Seq<(Seq<char>, Seq<u8>, ExtractionView)>) -> bool {
        &&& self.by_path.wf()
        &&& self.by_dir.wf()
        &&& forall|p: Seq<char>| #[trigger]
            self.by_path.list(paths::canonical(p)) == files_at(cv, p)
        &&& forall|p: Seq<char>| #[trigger] self.by_dir.list(paths::canonical(p)) == files_in(cv, p)
    }

    fn build(cached: &Vec<CachedExtraction>) -> (r: FileTables)
        requires
            cached@.len() <= u32::MAX + 1,
        ensures
            r.agrees(cache::cached_views(cached@)),
    {
        let ghost cv = cache::cached_views(cached@);
        let mut tables = FileTables { by_path: NameLists::new(), by_dir: NameLists::new() };
        let mut i: usize = 0;
        assert(cv.take(0) =~= Seq::<(Seq<char>, Seq<u8>, ExtractionView)>::empty());
        while i < cached.len()
            invariant
                cv == cache::cached_views(cached@),
                cached@.len() <= u32::MAX + 1,
                i <= cached@.len(),
                tables.agrees(cv.take(i as int)),
            decreases cached@.len() - i,
        {
            let path = cached[i].0.as_str();
            let f = FileId(i as u32);
            let ghost was = tables;
            let ghost upto = cv.take(i + 1);
            assert(upto.drop_last() =~= cv.take(i as int));
            assert(upto.last() == cache::cached_view(cached@[i as int]));
            tables.by_path.file(paths::canonical_path(path).as_str(), f);
            let dir = paths::parent(path);
            if let Some(p) = &dir {
                tables.by_dir.file(paths::canonical_path(p.as_str()).as_str(), f);
            }
            proof {
                assert forall|p: Seq<char>| #[trigger]
                    tables.by_path.list(paths::canonical(p)) == files_at(upto, p) by {
                    assert(was.by_path.list(paths::canonical(p)) == files_at(cv.take(i as int), p));
                    paths::law_canonical_decides(p, path@);
                }
                assert forall|p: Seq<char>| #[trigger]
                    tables.by_dir.list(paths::canonical(p)) == files_in(upto, p) by {
                    assert(was.by_dir.list(paths::canonical(p)) == files_in(cv.take(i as int), p));
                    match dir {
                        Some(q) => {
                            paths::law_canonical_decides(p, q@);
                        },
                        None => {},
                    }
                }
            }
            i = i + 1;
        }
        assert(cv.take(cv.len() as int) =~= cv);
        tables
    }

    /// The files that an import resolved to `target` reaches.
    fn targets(&self, target: &Option<String>, cv: Ghost<Seq<(Seq<char>, Seq<u8>, ExtractionView)>>) -> (r:
        Vec<FileId>)
        requires
            self.agrees(cv@),
            cv@.len() <= u32::MAX + 1,
        ensures
            r@ == targets_of(cv@, text::opt_view(*target)),
            all_below(r@, cv@.len() as int),
    {
        proof {
            lemma_targets_below(cv@, text::opt_view(*target));
        }
        let mut out: Vec<FileId> = Vec::new();
        if let Some(t) = target {
            let key = paths::canonical_path(t.as_str());
            assert(self.by_path.list(paths::canonical(t@)) == files_at(cv@, t@));
            assert(self.by_dir.list(paths::canonical(t@)) == files_in(cv@, t@));
            if let Some(exact) = self.by_path.get(key.as_str()) {
                if exact.len() > 0 {
                    out.push(exact[exact.len() - 1]);
                    assert(out@ =~= seq![exact@.last()]);
                    return out;
                }
            }
            if let Some(all) = self.by_dir.get(key.as_str()) {
                let mut i: usize = 0;
                while i < all.len()
                    invariant
                        i <= all@.len(),
                        out@ == all@.take(i as int),
                    decreases all@.len() - i,
                {
                    out.push(all[i]);
                    assert(all@.take(i + 1) =~= all@.take(i as int).push(all@[i as int]));
                    i = i + 1;
                }
                assert(all@.take(all@.len() as int) =~= all@);
            }
        }
        out
    }
}

/// Every file of `v` is one of the first `n`.
pub open spec fn all_below(v: Seq<FileId>, n: int) -> bool {
    forall|j: int| 0 <= j < v.len() ==> (#[trigger] v[j]).0 < n
}

proof fn lemma_files_below(cv: Seq<(Seq<char>, Seq<u8>, ExtractionView)>, path: Seq<char>)
    requires
        cv.len() <= u32::MAX + 1,
    ensures
        all_below(files_at(cv, path), cv.len() as int),
        all_below(files_in(cv, path), cv.len() as int),
    decreases cv.len(),
{
    if cv.len() > 0 {
        lemma_files_below(cv.drop_last(), path);
    }
}

proof fn lemma_targets_below(
    cv: Seq<(Seq<char>, Seq<u8>, ExtractionView)>,
    target: Option<Seq<char>>,
)
    requires
        cv.len() <= u32::MAX + 1,
    ensures
        all_below(targets_of(cv, target), cv.len() as int),
{
    if let Some(t) = target {
        lemma_files_below(cv, t);
    }
}

/// Does `v` list `f`?
fn lists_file(v: &Vec<FileId>, f: FileId) -> (r: bool)
    ensures
        r == v@.contains(f),
{
    let mut i: usize = 0;
    while i < v.len()
        invariant
            i <= v@.len(),
            forall|j: int| 0 <= j < i ==> v@[j] != f,
        decreases v@.len() - i,
    {
        if v[i] == f {
            return true;
        }
        i = i + 1;
    }
    false
}

/// `lists` holds, for each of the first files, what it imports by `edges`.
spec fn lists_imports(lists: Seq<Vec<FileId>>, edges: Seq<EdgeView>) -> bool {
    forall|f: int|
        0 <= f < lists.len() ==> (#[trigger] lists[f])@ == imported(edges, FileId(f as u32))
}

/// Every file that `lists` holds is one of the first `n`.
spec fn lists_below(lists: Seq<Vec<FileId>>, n: int) -> bool {
    forall|f: int| 0 <= f < lists.len() ==> all_below((#[trigger] lists[f])@, n)
}

/// Adds the import edges from `from` to `targets`, none twice and none to
/// itself.
fn add_import_edges(
    graph: &mut Graph,
    lists: &mut Vec<Vec<FileId>>,
    from: FileId,
    targets: &Vec<FileId>,
    head: Ghost<Seq<EdgeView>>,
    wanted: Ghost<Seq<EdgeView>>,
)
    requires
        old(graph).wf(),
        walk::edges_closed(*old(graph)),
        old(graph).has_file(from),
        old(lists)@.len() == old(graph).files@.len(),
        all_below(targets@, old(graph).files@.len() as int),
        lists_below(old(lists)@, old(graph).files@.len() as int),
        lists_imports(old(lists)@, once(wanted@)),
        edge_views(old(graph).edges@) == head@ + once(wanted@),
    ensures
        final(graph).wf(),
        walk::edges_closed(*final(graph)),
        final(graph).files@ == old(graph).files@,
        final(graph).defs@ == old(graph).defs@,
        final(lists)@.len() == old(lists)@.len(),
        lists_below(final(lists)@, old(graph).files@.len() as int),
        lists_imports(final(lists)@, once(wanted@ + import_edges(from, targets@))),
        edge_views(final(graph).edges@) == head@ + once(
            wanted@ + import_edges(from, targets@),
        ),
{
    let ghost g0 = *graph;
    let mut i: usize = 0;
    assert(targets@.take(0) =~= Seq::<FileId>::empty());
    assert(wanted@ + import_edges(from, targets@.take(0)) =~= wanted@);
    while i < targets.len()
        invariant
            i <= targets@.len(),
            graph.wf(),
            walk::edges_closed(*graph),
            graph.files@ == g0.files@,
            graph.defs@ == g0.defs@,
            graph.has_file(from),
            lists@.len() == g0.files@.len(),
            all_below(targets@, g0.files@.len() as int),
            lists_below(lists@, g0.files@.len() as int),
            lists_imports(lists@, once(wanted@ + import_edges(from, targets@.take(i as int)))),
            edge_views(graph.edges@) == head@ + once(
                wanted@ + import_edges(from, targets@.take(i as int)),
            ),
        decreases targets@.len() - i,
    {
        let t = targets[i];
        let ghost so_far = wanted@ + import_edges(from, targets@.take(i as int));
        let ghost e = EdgeView::Imports { from, to: t };
        assert(targets@.take(i + 1).drop_last() =~= targets@.take(i as int));
        assert(targets@.take(i + 1).last() == t);
        if t != from {
            let at: usize = from.0 as usize;
            assert(FileId(at as u32) == from);
            proof {
                assert(wanted@ + import_edges(from, targets@.take(i + 1)) =~= so_far.push(e));
                lemma_once_push(so_far, e);
                lemma_imported(once(so_far), from, t);
                assert(lists@[at as int]@ == imported(once(so_far), from));
            }
            if !lists_file(&lists[at], t) {
                let ghost was = lists@;
                let ghost before = graph.edges@;
                let edge = Edge::Imports { from, to: t };
                graph.add_edge(edge);
                lists[at].push(t);
                proof {
                    assert forall|f: int| 0 <= f < lists@.len() implies all_below(
                        (#[trigger] lists@[f])@,
                        g0.files@.len() as int,
                    ) by {
                        assert(all_below(was[f]@, g0.files@.len() as int));
                        if f == at {
                            assert(targets@[i as int].0 < g0.files@.len());
                        }
                    }
                    assert(edge_views(graph.edges@) =~= edge_views(before).push(e));
                    assert(edge_views(graph.edges@) =~= head@ + once(so_far).push(e));
                    let now = once(so_far).push(e);
                    assert(now.drop_last() =~= once(so_far));
                    assert forall|f: int| 0 <= f < lists@.len() implies (#[trigger] lists@[f])@
                        == imported(now, FileId(f as u32)) by {
                        if f != at {
                            assert(lists@[f] == was[f]);
                        }
                    }
                }
            }
        } else {
            assert(import_edges(from, targets@.take(i + 1)) == import_edges(
                from,
                targets@.take(i as int),
            ));
        }
        i = i + 1;
    }
    assert(targets@.take(targets@.len() as int) =~= targets@);
}

/// Adds the import edges of `cached`, and lists for each file what it
/// imports.
fn add_imports<L: Language>(
    graph: &mut Graph,
    registry: &Registry<L>,
    cached: &Vec<CachedExtraction>,
    repo: &RepoFacts,
) -> (r: Vec<Vec<FileId>>)
    requires
        old(graph).wf(),
        walk::edges_closed(*old(graph)),
        old(graph).files@.len() == cached@.len(),
        entries_known(registry.langs@, cache::cached_views(cached@)),
    ensures
        final(graph).wf(),
        walk::edges_closed(*final(graph)),
        final(graph).files@ == old(graph).files@,
        final(graph).defs@ == old(graph).defs@,
        r@.len() == cached@.len(),
        lists_below(r@, cached@.len() as int),
        lists_imports(
            r@,
            all_imports(registry.langs@, cache::cached_views(cached@), repo@),
        ),
        edge_views(final(graph).edges@) == edge_views(old(graph).edges@) + all_imports(
            registry.langs@,
            cache::cached_views(cached@),
            repo@,
        ),
{
    let ghost cv = cache::cached_views(cached@);
    let ghost langs = registry.langs@;
    let ghost g0 = *graph;
    let ghost head = edge_views(graph.edges@);
    let tables = FileTables::build(cached);
    let mut lists: Vec<Vec<FileId>> = Vec::new();
    let mut i: usize = 0;
    while i < cached.len()
        invariant
            i <= cached@.len(),
            lists@.len() == i,
            forall|f: int| 0 <= f < i ==> (#[trigger] lists@[f])@ == Seq::<FileId>::empty(),
        decreases cached@.len() - i,
    {
        lists.push(Vec::new());
        i = i + 1;
    }
    i = 0;
    assert(head + once(Seq::empty()) =~= head);
    while i < cached.len()
        invariant
            cv == cache::cached_views(cached@),
            langs == registry.langs@,
            entries_known(langs, cv),
            tables.agrees(cv),
            i <= cached@.len(),
            graph.wf(),
            walk::edges_closed(*graph),
            graph.files@ == g0.files@,
            graph.defs@ == g0.defs@,
            graph.files@.len() == cached@.len(),
            lists@.len() == cached@.len(),
            lists_below(lists@, cached@.len() as int),
            lists_imports(lists@, once(imports_upto(langs, cv, repo@, i as int))),
            edge_views(graph.edges@) == head + once(imports_upto(langs, cv, repo@, i as int)),
        decreases cached@.len() - i,
    {
        let entry = &cached[i];
        assert(cv[i as int] == cache::cached_view(*entry));
        assert(language::lang_for(langs, cv[i as int].0) is Some);
        let from = FileId(i as u32);
        let ghost done = imports_upto(langs, cv, repo@, i as int);
        assert(done + imports_in(langs, cv, repo@, i as int, 0) =~= done);
        let lang = registry.for_path(entry.0.as_str());
        let mut m: usize = 0;
        while m < entry.2.imports.len()
            invariant
                cv == cache::cached_views(cached@),
                langs == registry.langs@,
                tables.agrees(cv),
                i < cached@.len(),
                *entry == cached@[i as int],
                cv[i as int] == cache::cached_view(*entry),
                from == FileId(i as u32),
                match lang {
                    Some(l) => language::lang_for(langs, cv[i as int].0) == Some(*l),
                    None => language::lang_for(langs, cv[i as int].0) is None,
                },
                m <= entry.2.imports@.len(),
                graph.wf(),
                walk::edges_closed(*graph),
                graph.files@ == g0.files@,
                graph.defs@ == g0.defs@,
                graph.files@.len() == cached@.len(),
                lists@.len() == cached@.len(),
                lists_below(lists@, cached@.len() as int),
                lists_imports(
                    lists@,
                    once(done + imports_in(langs, cv, repo@, i as int, m as int)),
                ),
                edge_views(graph.edges@) == head + once(
                    done + imports_in(langs, cv, repo@, i as int, m as int),
                ),
            decreases entry.2.imports@.len() - m,
        {
            let raw = entry.2.imports[m].raw.as_str();
            assert(cv[i as int].2.imports[m as int] == entry.2.imports@[m as int]@);
            let target: Option<String> = match lang {
                Some(l) => l.resolve_import(entry.0.as_str(), raw, repo),
                None => None,
            };
            let targets = tables.targets(&target, Ghost(cv));
            let ghost so_far = done + imports_in(langs, cv, repo@, i as int, m as int);
            add_import_edges(graph, &mut lists, from, &targets, Ghost(head), Ghost(so_far));
            proof {
                assert(so_far + import_edges(from, targets@) =~= done + imports_in(
                    langs,
                    cv,
                    repo@,
                    i as int,
                    m + 1,
                ));
            }
            m = m + 1;
        }
        i = i + 1;
    }
    lists
}

/// Adds the edges of references, none twice: what was added is remembered by
/// the definition that refers.
struct RefAdder {
    calls: Vec<HashSet<u32>>,
    reads: Vec<HashSet<u32>>,
    unknown: Vec<StringHashSet>,
}

impl RefAdder {
    spec fn remembers(&self, edges: Seq<EdgeView>, n: nat) -> bool {
        &&& n <= u32::MAX + 1
        &&& self.calls@.len() == n
        &&& self.reads@.len() == n
        &&& self.unknown@.len() == n
        &&& forall|d: int, c: u32|
            0 <= d < n ==> (#[trigger] self.calls@[d]@.contains(c) <==> edges.contains(
                EdgeView::Calls { from: DefId(d as u32), to: DefId(c) },
            ))
        &&& forall|d: int, c: u32|
            0 <= d < n ==> (#[trigger] self.reads@[d]@.contains(c) <==> edges.contains(
                EdgeView::Reads { from: DefId(d as u32), to: DefId(c) },
            ))
        &&& forall|d: int, s: Seq<char>|
            0 <= d < n ==> (#[trigger] self.unknown@[d]@.contains(s) <==> edges.contains(
                EdgeView::Unknown { from: DefId(d as u32), name: s },
            ))
    }

    fn new(n: usize) -> (r: Self)
        requires
            n <= u32::MAX + 1,
        ensures
            r.remembers(Seq::empty(), n as nat),
    {
        broadcast use vstd::std_specs::hash::group_hash_axioms;

        let mut calls: Vec<HashSet<u32>> = Vec::new();
        let mut reads: Vec<HashSet<u32>> = Vec::new();
        let mut unknown: Vec<StringHashSet> = Vec::new();
        let mut i: usize = 0;
        while i < n
            invariant
                i <= n,
                calls@.len() == i,
                reads@.len() == i,
                unknown@.len() == i,
                forall|d: int| 0 <= d < i ==> (#[trigger] calls@[d])@ == Set::<u32>::empty(),
                forall|d: int| 0 <= d < i ==> (#[trigger] reads@[d])@ == Set::<u32>::empty(),
                forall|d: int| 0 <= d < i ==> (#[trigger] unknown@[d])@ == Set::<
                    Seq<char>,
                >::empty(),
            decreases n - i,
        {
            calls.push(HashSet::new());
            reads.push(HashSet::new());
            unknown.push(StringHashSet::new());
            i = i + 1;
        }
        RefAdder { calls, reads, unknown }
    }

    /// Adds a call, unless it is there.
    fn add_call(
        &mut self,
        graph: &mut Graph,
        from: DefId,
        to: DefId,
        head: Ghost<Seq<EdgeView>>,
        wanted: Ghost<Seq<EdgeView>>,
    )
        requires
            old(graph).wf(),
            walk::edges_closed(*old(graph)),
            old(graph).has_def(from),
            old(self).remembers(once(wanted@), old(graph).defs@.len()),
            edge_views(old(graph).edges@) == head@ + once(wanted@),
        ensures
            final(graph).wf(),
            walk::edges_closed(*final(graph)),
            final(graph).files@ == old(graph).files@,
            final(graph).defs@ == old(graph).defs@,
            final(self).remembers(
                once(wanted@.push(EdgeView::Calls { from, to })),
                old(graph).defs@.len(),
            ),
            edge_views(final(graph).edges@) == head@ + once(
                wanted@.push(EdgeView::Calls { from, to }),
            ),
    {
        broadcast use vstd::std_specs::hash::group_hash_axioms;

        let ghost e = EdgeView::Calls { from, to };
        let ghost was = *self;
        let ghost before = graph.edges@;
        let at: usize = from.0 as usize;
        assert(DefId(at as u32) == from);
        proof {
            lemma_once_push(wanted@, e);
            assert(self.calls@[at as int]@.contains(to.0) <==> once(wanted@).contains(e));
        }
        if self.calls[at].insert(to.0) {
            let edge = Edge::Calls { from, to: CallTarget::Resolved(to) };
            graph.add_edge(edge);
            proof {
                assert(edge_views(graph.edges@) =~= edge_views(before).push(e));
                assert(edge_views(graph.edges@) =~= head@ + once(wanted@).push(e));
            }
        }
        proof {
            lemma_push_contains(once(wanted@), e);
            assert forall|d: int, c: u32| 0 <= d < graph.defs@.len() implies (
            #[trigger] self.calls@[d]@.contains(c) <==> once(wanted@.push(e)).contains(
                EdgeView::Calls { from: DefId(d as u32), to: DefId(c) },
            )) by {
                assert(was.calls@[d]@.contains(c) <==> once(wanted@).contains(
                    EdgeView::Calls { from: DefId(d as u32), to: DefId(c) },
                ));
            }
        }
    }

    /// Adds a read, unless it is there.
    fn add_read(
        &mut self,
        graph: &mut Graph,
        from: DefId,
        to: DefId,
        head: Ghost<Seq<EdgeView>>,
        wanted: Ghost<Seq<EdgeView>>,
    )
        requires
            old(graph).wf(),
            walk::edges_closed(*old(graph)),
            old(graph).has_def(from),
            old(self).remembers(once(wanted@), old(graph).defs@.len()),
            edge_views(old(graph).edges@) == head@ + once(wanted@),
        ensures
            final(graph).wf(),
            walk::edges_closed(*final(graph)),
            final(graph).files@ == old(graph).files@,
            final(graph).defs@ == old(graph).defs@,
            final(self).remembers(
                once(wanted@.push(EdgeView::Reads { from, to })),
                old(graph).defs@.len(),
            ),
            edge_views(final(graph).edges@) == head@ + once(
                wanted@.push(EdgeView::Reads { from, to }),
            ),
    {
        broadcast use vstd::std_specs::hash::group_hash_axioms;

        let ghost e = EdgeView::Reads { from, to };
        let ghost was = *self;
        let ghost before = graph.edges@;
        let at: usize = from.0 as usize;
        assert(DefId(at as u32) == from);
        proof {
            lemma_once_push(wanted@, e);
            assert(self.reads@[at as int]@.contains(to.0) <==> once(wanted@).contains(e));
        }
        if self.reads[at].insert(to.0) {
            let edge = Edge::Reads { from, to };
            graph.add_edge(edge);
            proof {
                assert(edge_views(graph.edges@) =~= edge_views(before).push(e));
                assert(edge_views(graph.edges@) =~= head@ + once(wanted@).push(e));
            }
        }
        proof {
            lemma_push_contains(once(wanted@), e);
            assert forall|d: int, c: u32| 0 <= d < graph.defs@.len() implies (
            #[trigger] self.reads@[d]@.contains(c) <==> once(wanted@.push(e)).contains(
                EdgeView::Reads { from: DefId(d as u32), to: DefId(c) },
            )) by {
                assert(was.reads@[d]@.contains(c) <==> once(wanted@).contains(
                    EdgeView::Reads { from: DefId(d as u32), to: DefId(c) },
                ));
            }
        }
    }

    /// Adds a call of a bare name, unless it is there.
    fn add_unknown(
        &mut self,
        graph: &mut Graph,
        from: DefId,
        name: &str,
        head: Ghost<Seq<EdgeView>>,
        wanted: Ghost<Seq<EdgeView>>,
    )
        requires
            old(graph).wf(),
            walk::edges_closed(*old(graph)),
            old(graph).has_def(from),
            old(self).remembers(once(wanted@), old(graph).defs@.len()),
            edge_views(old(graph).edges@) == head@ + once(wanted@),
        ensures
            final(graph).wf(),
            walk::edges_closed(*final(graph)),
            final(graph).files@ == old(graph).files@,
            final(graph).defs@ == old(graph).defs@,
            final(self).remembers(
                once(wanted@.push(EdgeView::Unknown { from, name: name@ })),
                old(graph).defs@.len(),
            ),
            edge_views(final(graph).edges@) == head@ + once(
                wanted@.push(EdgeView::Unknown { from, name: name@ }),
            ),
    {
        let ghost e = EdgeView::Unknown { from, name: name@ };
        let ghost was = *self;
        let ghost before = graph.edges@;
        let at: usize = from.0 as usize;
        assert(DefId(at as u32) == from);
        proof {
            lemma_once_push(wanted@, e);
            assert(self.unknown@[at as int]@.contains(name@) <==> once(wanted@).contains(e));
        }
        if self.unknown[at].insert(name.to_owned()) {
            let edge = Edge::Calls { from, to: CallTarget::Unknown(name.to_owned()) };
            graph.add_edge(edge);
            proof {
                assert(edge_views(graph.edges@) =~= edge_views(before).push(e));
                assert(edge_views(graph.edges@) =~= head@ + once(wanted@).push(e));
            }
        }
        proof {
            lemma_push_contains(once(wanted@), e);
            assert forall|d: int, s: Seq<char>| 0 <= d < graph.defs@.len() implies (
            #[trigger] self.unknown@[d]@.contains(s) <==> once(wanted@.push(e)).contains(
                EdgeView::Unknown { from: DefId(d as u32), name: s },
            )) by {
                assert(was.unknown@[d]@.contains(s) <==> once(wanted@).contains(
                    EdgeView::Unknown { from: DefId(d as u32), name: s },
                ));
            }
        }
    }
}

proof fn lemma_push_contains(edges: Seq<EdgeView>, e: EdgeView)
    ensures
        forall|x: EdgeView| #[trigger]
            edges.push(e).contains(x) <==> (edges.contains(x) || x == e),
{
    assert forall|x: EdgeView| #[trigger] edges.push(e).contains(x) <==> (edges.contains(x) || x
        == e) by {
        if edges.contains(x) {
            let k = choose|k: int| 0 <= k < edges.len() && edges[k] == x;
            assert(edges.push(e)[k] == x);
        }
        if x == e {
            assert(edges.push(e)[edges.len() as int] == x);
        }
    }
}

/// `tables` holds, for each file, its definitions by the name they answer to.
spec fn names_agree(
    tables: Seq<NameLists<DefId>>,
    cv: Seq<(Seq<char>, Seq<u8>, ExtractionView)>,
) -> bool {
    &&& tables.len() == cv.len()
    &&& forall|f: int| 0 <= f < tables.len() ==> (#[trigger] tables[f]).wf()
    &&& forall|f: int, name: Seq<char>|
        0 <= f < tables.len() ==> #[trigger] tables[f].list(name) == answering(
            cv,
            f,
            name,
            cv[f].2.defs.len() as int,
        )
}

/// The definitions of every file, by the name they answer to.
fn index_names(cached: &Vec<CachedExtraction>) -> (r: Vec<NameLists<DefId>>)
    requires
        ids_fit(cache::cached_views(cached@)),
        base_of(cache::cached_views(cached@), cached@.len() as int) <= usize::MAX,
    ensures
        names_agree(r@, cache::cached_views(cached@)),
{
    let ghost cv = cache::cached_views(cached@);
    let mut out: Vec<NameLists<DefId>> = Vec::new();
    let mut base: usize = 0;
    let mut i: usize = 0;
    while i < cached.len()
        invariant
            cv == cache::cached_views(cached@),
            ids_fit(cv),
            base_of(cv, cached@.len() as int) <= usize::MAX,
            i <= cached@.len(),
            base == base_of(cv, i as int),
            out@.len() == i,
            forall|f: int| 0 <= f < i ==> (#[trigger] out@[f]).wf(),
            forall|f: int, name: Seq<char>|
                0 <= f < i ==> #[trigger] out@[f].list(name) == answering(
                    cv,
                    f,
                    name,
                    cv[f].2.defs.len() as int,
                ),
        decreases cached@.len() - i,
    {
        let defs = &cached[i].2.defs;
        assert(cv[i as int] == cache::cached_view(cached@[i as int]));
        proof {
            lemma_base_monotone(cv, i + 1, cv.len() as int);
        }
        let mut lists: NameLists<DefId> = NameLists::new();
        let mut k: usize = 0;
        while k < defs.len()
            invariant
                cv == cache::cached_views(cached@),
                i < cached@.len(),
                *defs == cached@[i as int].2.defs,
                cv[i as int] == cache::cached_view(cached@[i as int]),
                base == base_of(cv, i as int),
                base + defs@.len() == base_of(cv, i + 1),
                base_of(cv, i + 1) <= u32::MAX + 1,
                base_of(cv, i + 1) <= usize::MAX,
                k <= defs@.len(),
                lists.wf(),
                forall|name: Seq<char>| #[trigger]
                    lists.list(name) == answering(cv, i as int, name, k as int),
            decreases defs@.len() - k,
        {
            let d = &defs[k];
            assert(cv[i as int].2.defs[k as int] == d@);
            let ghost was = lists;
            if d.kind != DefKind::ModuleInit {
                lists.file(tail_after(d.name.as_str(), '.').as_str(), DefId((base + k) as u32));
            }
            assert forall|name: Seq<char>| #[trigger] lists.list(name) == answering(
                cv,
                i as int,
                name,
                k + 1,
            ) by {
                assert(was.list(name) == answering(cv, i as int, name, k as int));
            }
            k = k + 1;
        }
        out.push(lists);
        base = base + defs.len();
        i = i + 1;
    }
    out
}

/// The package of a file, and the id of its language.
fn package_of<L: Language>(registry: &Registry<L>, path: &str) -> (r: Option<(String, String)>)
    ensures
        match (r, language::lang_for(registry.langs@, path@)) {
            (Some((id, key)), Some(l)) => id@ == l.spec_id() && l.spec_package_key(path@) == Some(
                key@,
            ),
            (None, Some(l)) => l.spec_package_key(path@) is None,
            (Some(_), None) => false,
            (None, None) => true,
        },
{
    match registry.for_path(path) {
        Some(l) => match l.package_key(path) {
            Some(key) => Some((l.id(), key)),
            None => None,
        },
        None => None,
    }
}

/// The package of every file, and the files of each package by the canonical
/// key, whatever their language.
struct PackageTables {
    packages: Vec<Option<(String, String)>>,
    by_key: NameLists<FileId>,
}

/// Is `r` the package of the file at `path`?
spec fn is_package<L: Language>(
    r: Option<(String, String)>,
    langs: Seq<L>,
    path: Seq<char>,
) -> bool {
    match (r, language::lang_for(langs, path)) {
        (Some((id, key)), Some(l)) => id@ == l.spec_id() && l.spec_package_key(path) == Some(key@),
        (None, Some(l)) => l.spec_package_key(path) is None,
        (Some(_), None) => false,
        (None, None) => true,
    }
}

/// The files among the first `n` whose package key is spelled `key`.
spec fn keyed(packages: Seq<Option<(String, String)>>, key: Seq<char>, n: int) -> Seq<FileId>
    decreases n,
{
    if n <= 0 {
        Seq::empty()
    } else {
        let before = keyed(packages, key, n - 1);
        match packages[n - 1] {
            Some((_, k)) => if paths::canonical(k@) == key {
                before.push(FileId((n - 1) as u32))
            } else {
                before
            },
            None => before,
        }
    }
}

proof fn lemma_keyed_prefix(
    a: Seq<Option<(String, String)>>,
    b: Seq<Option<(String, String)>>,
    key: Seq<char>,
    n: int,
)
    requires
        0 <= n <= a.len(),
        n <= b.len(),
        forall|i: int| 0 <= i < n ==> a[i] == b[i],
    ensures
        keyed(a, key, n) == keyed(b, key, n),
    decreases n,
{
    if n > 0 {
        lemma_keyed_prefix(a, b, key, n - 1);
    }
}

impl PackageTables {
    spec fn agrees<L: Language>(
        &self,
        langs: Seq<L>,
        cv: Seq<(Seq<char>, Seq<u8>, ExtractionView)>,
    ) -> bool {
        &&& self.packages@.len() == cv.len()
        &&& self.by_key.wf()
        &&& forall|i: int|
            0 <= i < cv.len() ==> is_package(#[trigger] self.packages@[i], langs, cv[i].0)
        &&& forall|key: Seq<char>| #[trigger]
            self.by_key.list(key) == keyed(self.packages@, key, self.packages@.len() as int)
    }

    fn build<L: Language>(registry: &Registry<L>, cached: &Vec<CachedExtraction>) -> (r: Self)
        requires
            cached@.len() <= u32::MAX + 1,
        ensures
            r.agrees(registry.langs@, cache::cached_views(cached@)),
    {
        let ghost cv = cache::cached_views(cached@);
        let mut packages: Vec<Option<(String, String)>> = Vec::new();
        let mut by_key: NameLists<FileId> = NameLists::new();
        let mut i: usize = 0;
        while i < cached.len()
            invariant
                cv == cache::cached_views(cached@),
                cached@.len() <= u32::MAX + 1,
                i <= cached@.len(),
                packages@.len() == i,
                by_key.wf(),
                forall|j: int|
                    0 <= j < i ==> is_package(#[trigger] packages@[j], registry.langs@, cv[j].0),
                forall|key: Seq<char>| #[trigger]
                    by_key.list(key) == keyed(packages@, key, i as int),
            decreases cached@.len() - i,
        {
            assert(cv[i as int] == cache::cached_view(cached@[i as int]));
            let p = package_of(registry, cached[i].0.as_str());
            let ghost was = packages@;
            let ghost lists = by_key;
            if let Some((_, key)) = &p {
                by_key.file(paths::canonical_path(key.as_str()).as_str(), FileId(i as u32));
            }
            packages.push(p);
            assert forall|key: Seq<char>| #[trigger] by_key.list(key) == keyed(
                packages@,
                key,
                i + 1,
            ) by {
                assert(lists.list(key) == keyed(was, key, i as int));
                lemma_keyed_prefix(was, packages@, key, i as int);
            }
            i = i + 1;
        }
        PackageTables { packages, by_key }
    }

    /// Adds the other files of the package of file `i`.
    fn add_siblings<L: Language>(
        &self,
        i: usize,
        out: &mut Vec<FileId>,
        langs: Ghost<Seq<L>>,
        cv: Ghost<Seq<(Seq<char>, Seq<u8>, ExtractionView)>>,
    )
        requires
            self.agrees(langs@, cv@),
            i < cv@.len() <= u32::MAX + 1,
            entries_known(langs@, cv@),
        ensures
            final(out)@ == old(out)@ + siblings(langs@, cv@, i as int, cv@.len() as int),
    {
        let ghost was = out@;
        let ghost n = cv@.len() as int;
        assert(is_package(self.packages@[i as int], langs@, cv@[i as int].0));
        assert(language::lang_for(langs@, cv@[i as int].0) is Some);
        if let Some((id, key)) = &self.packages[i] {
            let ckey = paths::canonical_path(key.as_str());
            let ghost all = keyed(self.packages@, ckey@, n);
            if let Some(files) = self.by_key.get(ckey.as_str()) {
                proof {
                    lemma_siblings_of_keyed(self.packages@, langs@, cv@, i as int, id@, key@, n);
                }
                let mut j: usize = 0;
                assert(files@.take(0) =~= Seq::<FileId>::empty());
                assert(was + picked(
                    self.packages@,
                    files@.take(0),
                    i as int,
                    id@,
                ) =~= was);
                while j < files.len()
                    invariant
                        self.agrees(langs@, cv@),
                        i < cv@.len() <= u32::MAX + 1,
                        n == cv@.len(),
                        j <= files@.len(),
                        files@ == keyed(self.packages@, ckey@, n),
                        out@ == was + picked(
                            self.packages@,
                            files@.take(j as int),
                            i as int,
                            id@,
                        ),
                    decreases files@.len() - j,
                {
                    let f = files[j];
                    proof {
                        assert(files@.take(j + 1).drop_last() =~= files@.take(j as int));
                        lemma_keyed_bounds(self.packages@, ckey@, n);
                        assert(files@[j as int].0 < n);
                    }
                    let at: usize = f.0 as usize;
                    let alike: bool = match &self.packages[at] {
                        Some((other, _)) => same(other.as_str(), id.as_str()),
                        None => false,
                    };
                    if at != i && alike {
                        out.push(f);
                    }
                    proof {
                        assert(out@ =~= was + picked(
                            self.packages@,
                            files@.take(j + 1),
                            i as int,
                            id@,
                        ));
                    }
                    j = j + 1;
                }
                assert(files@.take(files@.len() as int) =~= files@);
            } else {
                proof {
                    lemma_siblings_of_keyed(self.packages@, langs@, cv@, i as int, id@, key@, n);
                    assert(all =~= Seq::<FileId>::empty());
                }
                assert(out@ =~= was + siblings(langs@, cv@, i as int, n));
            }
        } else {
            proof {
                lemma_no_siblings(langs@, cv@, i as int, n);
            }
            assert(out@ =~= was + siblings(langs@, cv@, i as int, n));
        }
    }
}

/// The files of `files` other than `i` whose language is `id`.
spec fn picked(
    packages: Seq<Option<(String, String)>>,
    files: Seq<FileId>,
    i: int,
    id: Seq<char>,
) -> Seq<FileId>
    decreases files.len(),
{
    if files.len() == 0 {
        Seq::empty()
    } else {
        let before = picked(packages, files.drop_last(), i, id);
        let f = files.last();
        if f.0 != i && (packages[f.0 as int] matches Some((other, _)) && other@ == id) {
            before.push(f)
        } else {
            before
        }
    }
}

proof fn lemma_keyed_bounds(packages: Seq<Option<(String, String)>>, key: Seq<char>, n: int)
    requires
        0 <= n <= packages.len(),
        n <= u32::MAX + 1,
    ensures
        forall|j: int| 0 <= j < keyed(packages, key, n).len() ==> (#[trigger] keyed(
            packages,
            key,
            n,
        )[j]).0 < n,
    decreases n,
{
    if n > 0 {
        lemma_keyed_bounds(packages, key, n - 1);
        let before = keyed(packages, key, n - 1);
        let now = keyed(packages, key, n);
        assert forall|j: int| 0 <= j < now.len() implies (#[trigger] now[j]).0 < n by {
            if j < before.len() {
                assert(now[j] == before[j]);
            }
        }
    }
}

/// The files with the key of file `i`, those of its language picked out, are
/// the rest of its package.
proof fn lemma_siblings_of_keyed<L: Language>(
    packages: Seq<Option<(String, String)>>,
    langs: Seq<L>,
    cv: Seq<(Seq<char>, Seq<u8>, ExtractionView)>,
    i: int,
    id: Seq<char>,
    key: Seq<char>,
    n: int,
)
    requires
        0 <= n <= cv.len() <= u32::MAX + 1,
        0 <= i < cv.len(),
        packages.len() == cv.len(),
        entries_known(langs, cv),
        forall|k: int| 0 <= k < cv.len() ==> is_package(#[trigger] packages[k], langs, cv[k].0),
        packages[i] matches Some((a, b)) && a@ == id && b@ == key,
    ensures
        picked(packages, keyed(packages, paths::canonical(key), n), i, id) == siblings(
            langs,
            cv,
            i,
            n,
        ),
    decreases n,
{
    let ckey = paths::canonical(key);
    if n > 0 {
        lemma_siblings_of_keyed(packages, langs, cv, i, id, key, n - 1);
        let before = keyed(packages, ckey, n - 1);
        let now = keyed(packages, ckey, n);
        assert(is_package(packages[i], langs, cv[i].0));
        assert(is_package(packages[n - 1], langs, cv[n - 1].0));
        assert(language::lang_for(langs, cv[n - 1].0) is Some);
        assert(language::lang_for(langs, cv[i].0) is Some);
        match packages[n - 1] {
            Some((other, k)) => {
                paths::law_canonical_decides(key, k@);
                if paths::canonical(k@) == ckey {
                    assert(now.drop_last() =~= before);
                    assert(now.last() == FileId((n - 1) as u32));
                }
            },
            None => {},
        }
    } else {
        assert(keyed(packages, ckey, n) =~= Seq::<FileId>::empty());
    }
}

proof fn lemma_no_siblings<L: Language>(
    langs: Seq<L>,
    cv: Seq<(Seq<char>, Seq<u8>, ExtractionView)>,
    i: int,
    n: int,
)
    requires
        0 <= n <= cv.len(),
        0 <= i < cv.len(),
        language::lang_for(langs, cv[i].0) matches Some(l) ==> l.spec_package_key(cv[i].0) is None,
    ensures
        siblings(langs, cv, i, n) == Seq::<FileId>::empty(),
    decreases n,
{
    if n > 0 {
        lemma_no_siblings(langs, cv, i, n - 1);
    }
}

proof fn lemma_siblings_below<L: Language>(
    langs: Seq<L>,
    cv: Seq<(Seq<char>, Seq<u8>, ExtractionView)>,
    i: int,
    n: int,
)
    requires
        0 <= n <= cv.len() <= u32::MAX + 1,
    ensures
        all_below(siblings(langs, cv, i, n), n),
    decreases n,
{
    if n > 0 {
        lemma_siblings_below(langs, cv, i, n - 1);
    }
}

/// The files whose definitions file `i` sees.
fn find_scope<L: Language>(
    tables: &PackageTables,
    imports: &Vec<FileId>,
    i: usize,
    langs: Ghost<Seq<L>>,
    cv: Ghost<Seq<(Seq<char>, Seq<u8>, ExtractionView)>>,
    edges: Ghost<Seq<EdgeView>>,
) -> (r: Vec<FileId>)
    requires
        tables.agrees(langs@, cv@),
        entries_known(langs@, cv@),
        i < cv@.len() <= u32::MAX + 1,
        imports@ == imported(edges@, FileId(i as u32)),
        all_below(imports@, cv@.len() as int),
    ensures
        r@ == scope_of(langs@, cv@, edges@, i as int),
        all_below(r@, cv@.len() as int),
{
    let mut scope: Vec<FileId> = Vec::new();
    scope.push(FileId(i as u32));
    assert(scope@ =~= seq![FileId(i as u32)]);
    proof {
        lemma_siblings_below(langs@, cv@, i as int, cv@.len() as int);
    }
    tables.add_siblings::<L>(i, &mut scope, langs, cv);
    let ghost near = scope@;
    let mut j: usize = 0;
    while j < imports.len()
        invariant
            j <= imports@.len(),
            scope@ == near + imports@.take(j as int),
        decreases imports@.len() - j,
    {
        scope.push(imports[j]);
        assert(imports@.take(j + 1) =~= imports@.take(j as int).push(imports@[j as int]));
        j = j + 1;
    }
    assert(imports@.take(imports@.len() as int) =~= imports@);
    scope
}

/// The definitions of the files in `scope` that answer to `name`.
fn find_candidates(
    tables: &Vec<NameLists<DefId>>,
    scope: &Vec<FileId>,
    name: &str,
    cv: Ghost<Seq<(Seq<char>, Seq<u8>, ExtractionView)>>,
) -> (r: Vec<DefId>)
    requires
        names_agree(tables@, cv@),
        all_below(scope@, cv@.len() as int),
    ensures
        r@ == candidates(cv@, scope@, name@),
{
    let mut out: Vec<DefId> = Vec::new();
    let mut i: usize = 0;
    assert(scope@.take(0) =~= Seq::<FileId>::empty());
    while i < scope.len()
        invariant
            names_agree(tables@, cv@),
            all_below(scope@, cv@.len() as int),
            i <= scope@.len(),
            out@ == candidates(cv@, scope@.take(i as int), name@),
        decreases scope@.len() - i,
    {
        let f: usize = scope[i].0 as usize;
        assert(scope@[i as int].0 < cv@.len());
        assert(scope@.take(i + 1).drop_last() =~= scope@.take(i as int));
        assert(tables@[f as int].wf());
        assert(tables@[f as int].list(name@) == answering(
            cv@,
            f as int,
            name@,
            cv@[f as int].2.defs.len() as int,
        ));
        let ghost was = out@;
        if let Some(ids) = tables[f].get(name) {
            let mut j: usize = 0;
            while j < ids.len()
                invariant
                    j <= ids@.len(),
                    out@ == was + ids@.take(j as int),
                decreases ids@.len() - j,
            {
                out.push(ids[j]);
                assert(ids@.take(j + 1) =~= ids@.take(j as int).push(ids@[j as int]));
                j = j + 1;
            }
            assert(ids@.take(ids@.len() as int) =~= ids@);
        } else {
            assert(out@ =~= was + tables@[f as int].list(name@));
        }
        i = i + 1;
    }
    assert(scope@.take(scope@.len() as int) =~= scope@);
    out
}

impl RefAdder {
    /// Adds the edges of one call.
    fn add_calls(
        &mut self,
        graph: &mut Graph,
        from: DefId,
        cs: &Vec<DefId>,
        name: &str,
        head: Ghost<Seq<EdgeView>>,
        wanted: Ghost<Seq<EdgeView>>,
    )
        requires
            old(graph).wf(),
            walk::edges_closed(*old(graph)),
            old(graph).has_def(from),
            old(self).remembers(once(wanted@), old(graph).defs@.len()),
            edge_views(old(graph).edges@) == head@ + once(wanted@),
        ensures
            final(graph).wf(),
            walk::edges_closed(*final(graph)),
            final(graph).files@ == old(graph).files@,
            final(graph).defs@ == old(graph).defs@,
            final(self).remembers(
                once(wanted@ + edges_of_call(from, cs@, name@)),
                old(graph).defs@.len(),
            ),
            edge_views(final(graph).edges@) == head@ + once(
                wanted@ + edges_of_call(from, cs@, name@),
            ),
    {
        let ghost g0 = *graph;
        let mut emitted: bool = false;
        let mut i: usize = 0;
        assert(cs@.take(0) =~= Seq::<DefId>::empty());
        assert(wanted@ + call_edges(from, cs@.take(0)) =~= wanted@);
        while i < cs.len()
            invariant
                i <= cs@.len(),
                graph.wf(),
                walk::edges_closed(*graph),
                graph.files@ == g0.files@,
                graph.defs@ == g0.defs@,
                graph.has_def(from),
                emitted <==> call_edges(from, cs@.take(i as int)).len() > 0,
                self.remembers(
                    once(wanted@ + call_edges(from, cs@.take(i as int))),
                    g0.defs@.len(),
                ),
                edge_views(graph.edges@) == head@ + once(
                    wanted@ + call_edges(from, cs@.take(i as int)),
                ),
            decreases cs@.len() - i,
        {
            let c = cs[i];
            let ghost so_far = wanted@ + call_edges(from, cs@.take(i as int));
            assert(cs@.take(i + 1).drop_last() =~= cs@.take(i as int));
            if c != from {
                emitted = true;
                self.add_call(graph, from, c, head, Ghost(so_far));
                assert(so_far.push(EdgeView::Calls { from, to: c }) =~= wanted@ + call_edges(
                    from,
                    cs@.take(i + 1),
                ));
            }
            i = i + 1;
        }
        assert(cs@.take(cs@.len() as int) =~= cs@);
        if !emitted {
            assert(wanted@ + call_edges(from, cs@) =~= wanted@);
            self.add_unknown(graph, from, name, head, wanted);
            assert(wanted@.push(EdgeView::Unknown { from, name: name@ }) =~= wanted@
                + edges_of_call(from, cs@, name@));
        }
    }

    /// Adds the edges of one read.
    fn add_reads(
        &mut self,
        graph: &mut Graph,
        from: DefId,
        cs: &Vec<DefId>,
        head: Ghost<Seq<EdgeView>>,
        wanted: Ghost<Seq<EdgeView>>,
    )
        requires
            old(graph).wf(),
            walk::edges_closed(*old(graph)),
            old(graph).has_def(from),
            old(self).remembers(once(wanted@), old(graph).defs@.len()),
            edge_views(old(graph).edges@) == head@ + once(wanted@),
        ensures
            final(graph).wf(),
            walk::edges_closed(*final(graph)),
            final(graph).files@ == old(graph).files@,
            final(graph).defs@ == old(graph).defs@,
            final(self).remembers(
                once(wanted@ + edges_of_read(from, cs@)),
                old(graph).defs@.len(),
            ),
            edge_views(final(graph).edges@) == head@ + once(wanted@ + edges_of_read(from, cs@)),
    {
        let ghost g0 = *graph;
        let mut i: usize = 0;
        assert(cs@.take(0) =~= Seq::<DefId>::empty());
        assert(wanted@ + edges_of_read(from, cs@.take(0)) =~= wanted@);
        while i < cs.len()
            invariant
                i <= cs@.len(),
                graph.wf(),
                walk::edges_closed(*graph),
                graph.files@ == g0.files@,
                graph.defs@ == g0.defs@,
                graph.has_def(from),
                self.remembers(
                    once(wanted@ + edges_of_read(from, cs@.take(i as int))),
                    g0.defs@.len(),
                ),
                edge_views(graph.edges@) == head@ + once(
                    wanted@ + edges_of_read(from, cs@.take(i as int)),
                ),
            decreases cs@.len() - i,
        {
            let c = cs[i];
            let ghost so_far = wanted@ + edges_of_read(from, cs@.take(i as int));
            assert(cs@.take(i + 1).drop_last() =~= cs@.take(i as int));
            if c != from {
                self.add_read(graph, from, c, head, Ghost(so_far));
                assert(so_far.push(EdgeView::Reads { from, to: c }) =~= wanted@ + edges_of_read(
                    from,
                    cs@.take(i + 1),
                ));
            }
            i = i + 1;
        }
        assert(cs@.take(cs@.len() as int) =~= cs@);
    }
}

/// Adds the edges of the references of `cached`.
#[verifier::rlimit(40)]
fn add_refs<L: Language>(
    graph: &mut Graph,
    registry: &Registry<L>,
    cached: &Vec<CachedExtraction>,
    imports: &Vec<Vec<FileId>>,
    edges: Ghost<Seq<EdgeView>>,
)
    requires
        old(graph).wf(),
        walk::edges_closed(*old(graph)),
        ids_fit(cache::cached_views(cached@)),
        all_wf(cache::cached_views(cached@)),
        entries_known(registry.langs@, cache::cached_views(cached@)),
        old(graph).defs@.len() == base_of(cache::cached_views(cached@), cached@.len() as int),
        imports@.len() == cached@.len(),
        lists_imports(imports@, edges@),
        lists_below(imports@, cached@.len() as int),
    ensures
        final(graph).wf(),
        walk::edges_closed(*final(graph)),
        final(graph).files@ == old(graph).files@,
        final(graph).defs@ == old(graph).defs@,
        edge_views(final(graph).edges@) == edge_views(old(graph).edges@) + once(
            refs_upto(
                registry.langs@,
                cache::cached_views(cached@),
                edges@,
                cached@.len() as int,
            ),
        ),
{
    let ghost cv = cache::cached_views(cached@);
    let ghost langs = registry.langs@;
    let ghost g0 = *graph;
    let ghost head = edge_views(graph.edges@);
    assert(graph.defs@.len() == graph.defs.len());
    let names = index_names(cached);
    let packages = PackageTables::build(registry, cached);
    let mut adder = RefAdder::new(graph.defs.len());
    let mut base: usize = 0;
    let mut i: usize = 0;
    assert(once(Seq::<EdgeView>::empty()) =~= Seq::<EdgeView>::empty());
    assert(head + once(Seq::empty()) =~= head);
    while i < cached.len()
        invariant
            cv == cache::cached_views(cached@),
            langs == registry.langs@,
            ids_fit(cv),
            all_wf(cv),
            entries_known(langs, cv),
            imports@.len() == cached@.len(),
            lists_imports(imports@, edges@),
            lists_below(imports@, cached@.len() as int),
            names_agree(names@, cv),
            packages.agrees(langs, cv),
            i <= cached@.len(),
            base == base_of(cv, i as int),
            graph.wf(),
            walk::edges_closed(*graph),
            graph.files@ == g0.files@,
            graph.defs@ == g0.defs@,
            g0.defs@.len() == base_of(cv, cv.len() as int),
            adder.remembers(once(refs_upto(langs, cv, edges@, i as int)), g0.defs@.len()),
            edge_views(graph.edges@) == head + once(refs_upto(langs, cv, edges@, i as int)),
        decreases cached@.len() - i,
    {
        let entry = &cached[i];
        assert(cv[i as int] == cache::cached_view(*entry));
        assert(cv[i as int].2.wf());
        proof {
            lemma_base_monotone(cv, i + 1, cv.len() as int);
            assert(graph.defs@.len() == graph.defs.len());
            assert(imports@[i as int]@ == imported(edges@, FileId(i as u32)));
            assert(all_below(imports@[i as int]@, cached@.len() as int));
        }
        let scope = find_scope::<L>(
            &packages,
            &imports[i],
            i,
            Ghost(langs),
            Ghost(cv),
            edges,
        );
        let ghost done = refs_upto(langs, cv, edges@, i as int);
        let ghost sc = scope@;
        assert(done + calls_in(cv, sc, i as int, 0) =~= done);
        let mut k: usize = 0;
        while k < entry.2.calls.len()
            invariant
                cv == cache::cached_views(cached@),
                i < cached@.len(),
                *entry == cached@[i as int],
                cv[i as int] == cache::cached_view(*entry),
                cv[i as int].2.wf(),
                ids_fit(cv),
                names_agree(names@, cv),
                sc == scope@,
                all_below(scope@, cv.len() as int),
                base == base_of(cv, i as int),
                base + entry.2.defs@.len() == base_of(cv, i + 1),
                base_of(cv, i + 1) <= g0.defs@.len(),
                g0.defs@.len() <= usize::MAX,
                k <= entry.2.calls@.len(),
                graph.wf(),
                walk::edges_closed(*graph),
                graph.files@ == g0.files@,
                graph.defs@ == g0.defs@,
                adder.remembers(
                    once(done + calls_in(cv, sc, i as int, k as int)),
                    g0.defs@.len(),
                ),
                edge_views(graph.edges@) == head + once(
                    done + calls_in(cv, sc, i as int, k as int),
                ),
            decreases entry.2.calls@.len() - k,
        {
            let r = &entry.2.calls[k];
            assert(cv[i as int].2.calls[k as int] == r@);
            assert(r.from_def < entry.2.defs@.len());
            let from = DefId((base + r.from_def) as u32);
            let cs = find_candidates(&names, &scope, r.name.as_str(), Ghost(cv));
            let ghost so_far = done + calls_in(cv, sc, i as int, k as int);
            adder.add_calls(graph, from, &cs, r.name.as_str(), Ghost(head), Ghost(so_far));
            proof {
                assert(from == id_of(cv, i as int, r.from_def as int));
                assert(so_far + edges_of_call(from, cs@, r.name@) =~= done + calls_in(
                    cv,
                    sc,
                    i as int,
                    k + 1,
                ));
            }
            k = k + 1;
        }
        let ghost called = done + calls_in(cv, sc, i as int, entry.2.calls@.len() as int);
        assert(called + reads_in(cv, sc, i as int, 0) =~= called);
        k = 0;
        while k < entry.2.reads.len()
            invariant
                cv == cache::cached_views(cached@),
                i < cached@.len(),
                *entry == cached@[i as int],
                cv[i as int] == cache::cached_view(*entry),
                cv[i as int].2.wf(),
                ids_fit(cv),
                names_agree(names@, cv),
                sc == scope@,
                all_below(scope@, cv.len() as int),
                base == base_of(cv, i as int),
                base + entry.2.defs@.len() == base_of(cv, i + 1),
                base_of(cv, i + 1) <= g0.defs@.len(),
                g0.defs@.len() <= usize::MAX,
                k <= entry.2.reads@.len(),
                graph.wf(),
                walk::edges_closed(*graph),
                graph.files@ == g0.files@,
                graph.defs@ == g0.defs@,
                adder.remembers(
                    once(called + reads_in(cv, sc, i as int, k as int)),
                    g0.defs@.len(),
                ),
                edge_views(graph.edges@) == head + once(
                    called + reads_in(cv, sc, i as int, k as int),
                ),
            decreases entry.2.reads@.len() - k,
        {
            let r = &entry.2.reads[k];
            assert(cv[i as int].2.reads[k as int] == r@);
            assert(r.from_def < entry.2.defs@.len());
            let from = DefId((base + r.from_def) as u32);
            let cs = find_candidates(&names, &scope, r.name.as_str(), Ghost(cv));
            let ghost so_far = called + reads_in(cv, sc, i as int, k as int);
            adder.add_reads(graph, from, &cs, Ghost(head), Ghost(so_far));
            proof {
                assert(from == id_of(cv, i as int, r.from_def as int));
                assert(so_far + edges_of_read(from, cs@) =~= called + reads_in(
                    cv,
                    sc,
                    i as int,
                    k + 1,
                ));
            }
            k = k + 1;
        }
        base = base + entry.2.defs.len();
        i = i + 1;
    }
}

/// Is `g` the graph of what was extracted from the repository?
pub open spec fn is_graph_of<L: Language>(
    g: Graph,
    langs: Seq<L>,
    cached: Seq<(Seq<char>, Seq<u8>, ExtractionView)>,
    repo: FactsView,
) -> bool {
    &&& g.wf()
    &&& walk::edges_closed(g)
    &&& files_are(g.files@, cached, langs)
    &&& defs_are(g.defs@, cached, cached.len() as int)
    &&& edge_views(g.edges@) == all_edges(langs, cached, repo)
}

/// The graph of what was extracted from the repository.
pub fn build_graph<L: Language>(
    registry: &Registry<L>,
    cached: &Vec<CachedExtraction>,
    repo: &RepoFacts,
) -> (g: Graph)
    requires
        ids_fit(cache::cached_views(cached@)),
        all_wf(cache::cached_views(cached@)),
        entries_known(registry.langs@, cache::cached_views(cached@)),
    ensures
        is_graph_of(g, registry.langs@, cache::cached_views(cached@), repo@),
{
    let mut graph = add_nodes(registry, cached);
    add_containments(&mut graph, cached);
    let ghost edges = all_imports(registry.langs@, cache::cached_views(cached@), repo@);
    let imports = add_imports(&mut graph, registry, cached, repo);
    add_refs(&mut graph, registry, cached, &imports, Ghost(edges));
    graph
}

proof fn lemma_refreshed_paths<L: Language>(
    langs: Seq<L>,
    prev: Seq<(Seq<char>, Seq<u8>, ExtractionView)>,
    sources: Seq<SourceFile>,
    k: int,
)
    requires
        0 <= k <= sources.len(),
    ensures
        refreshed(langs, prev, sources, k) matches Ok(v) ==> v.len() == k && forall|i: int|
            0 <= i < k ==> (#[trigger] v[i]).0 == sources[i].path@,
    decreases k,
{
    if k > 0 {
        lemma_refreshed_paths(langs, prev, sources, k - 1);
    }
}

/// Do ids for all files and definitions fit their type?
fn do_ids_fit(cached: &Vec<CachedExtraction>) -> (r: bool)
    ensures
        r == ids_fit(cache::cached_views(cached@)),
{
    let ghost cv = cache::cached_views(cached@);
    if cached.len() as u64 > 0x1_0000_0000 {
        return false;
    }
    let mut total: u64 = 0;
    let mut i: usize = 0;
    while i < cached.len()
        invariant
            cv == cache::cached_views(cached@),
            cached@.len() <= u32::MAX + 1,
            i <= cached@.len(),
            total == base_of(cv, i as int),
            total <= u32::MAX + 1,
        decreases cached@.len() - i,
    {
        assert(cv[i as int] == cache::cached_view(cached@[i as int]));
        let n: u64 = cached[i].2.defs.len() as u64;
        if n > 0x1_0000_0000 || total + n > 0x1_0000_0000 {
            proof {
                lemma_base_monotone(cv, i + 1, cv.len() as int);
            }
            return false;
        }
        total = total + n;
        i = i + 1;
    }
    true
}

/// What indexing a repository should come to.
pub open spec fn is_index<L: Language>(
    r: Result<(Graph, Vec<CachedExtraction>, IndexStats), IndexError>,
    langs: Seq<L>,
    prev: Seq<(Seq<char>, Seq<u8>, ExtractionView)>,
    sources: Seq<SourceFile>,
    repo: FactsView,
) -> bool {
    let fresh = refreshed(langs, prev, sources, sources.len() as int);
    match r {
        Ok((g, v, stats)) => {
            &&& fresh == Ok::<Seq<(Seq<char>, Seq<u8>, ExtractionView)>, IndexErrorView>(
                cache::cached_views(v@),
            )
            &&& ids_fit(cache::cached_views(v@))
            &&& is_graph_of(g, langs, cache::cached_views(v@), repo)
            &&& stats.reused == reuse_count(prev, sources, sources.len() as int)
            &&& stats.parsed + stats.reused == sources.len()
        },
        Err(e) => match fresh {
            Err(f) => e@ == f,
            Ok(v) => !ids_fit(v) && e@ is TooMany,
        },
    }
}

/// Indexes a repository, keeping what an earlier run extracted from sources
/// whose contents are the same. The graph is always built anew, so that what
/// no longer exists simply drops out.
pub fn index_repo_incremental<L: Language>(
    registry: &Registry<L>,
    sources: &Vec<SourceFile>,
    prev: &Vec<CachedExtraction>,
    repo: &RepoFacts,
) -> (r: Result<(Graph, Vec<CachedExtraction>, IndexStats), IndexError>)
    requires
        all_known(registry.langs@, sources@),
        all_wf(cache::cached_views(prev@)),
    ensures
        is_index(r, registry.langs@, cache::cached_views(prev@), sources@, repo@),
        r matches Ok((_, v, _)) ==> all_wf(cache::cached_views(v@)),
{
    let (cached, stats) = match refresh(registry, sources, prev) {
        Ok(done) => done,
        Err(e) => {
            return Err(e);
        },
    };
    if !do_ids_fit(&cached) {
        return Err(IndexError::TooMany);
    }
    proof {
        let cv = cache::cached_views(cached@);
        lemma_refreshed_paths(
            registry.langs@,
            cache::cached_views(prev@),
            sources@,
            sources@.len() as int,
        );
        assert forall|i: int| 0 <= i < cv.len() implies language::lang_for(
            registry.langs@,
            (#[trigger] cv[i]).0,
        ) is Some by {
            assert(language::lang_for(registry.langs@, sources@[i].path@) is Some);
        }
    }
    let graph = build_graph(registry, &cached, repo);
    Ok((graph, cached, stats))
}

/// Indexes a repository from scratch.
pub fn index_repo<L: Language>(
    registry: &Registry<L>,
    sources: &Vec<SourceFile>,
    repo: &RepoFacts,
) -> (r: Result<Graph, IndexError>)
    requires
        all_known(registry.langs@, sources@),
    ensures
        ({
            let fresh = refreshed(registry.langs@, Seq::empty(), sources@, sources@.len() as int);
            match r {
                Ok(g) => fresh matches Ok(v) && ids_fit(v) && is_graph_of(
                    g,
                    registry.langs@,
                    v,
                    repo@,
                ),
                Err(e) => match fresh {
                    Err(f) => e@ == f,
                    Ok(v) => !ids_fit(v) && e@ is TooMany,
                },
            }
        }),
{
    let none: Vec<CachedExtraction> = Vec::new();
    assert(cache::cached_views(none@) =~= Seq::<(Seq<char>, Seq<u8>, ExtractionView)>::empty());
    match index_repo_incremental(registry, sources, &none, repo) {
        Ok((graph, _, _)) => Ok(graph),
        Err(e) => Err(e),
    }
}

/// Where what an earlier run kept is what would be extracted now, an
/// incremental index is the index from scratch.
pub proof fn law_incremental_index_is_full_index<L: Language>(
    langs: Seq<L>,
    prev: Seq<(Seq<char>, Seq<u8>, ExtractionView)>,
    sources: Seq<SourceFile>,
    k: int,
)
    requires
        0 <= k <= sources.len(),
        forall|i: int|
            0 <= i < sources.len() && #[trigger] reusable(prev, sources, i) ==> extraction_at(
                langs,
                Seq::empty(),
                sources,
                i,
            ) == Ok::<ExtractionView, ParseFailure>(
                prev[last_entry(prev, sources[i].path@)].2,
            ),
    ensures
        refreshed(langs, prev, sources, k) == refreshed(langs, Seq::empty(), sources, k),
    decreases k,
{
    if k > 0 {
        law_incremental_index_is_full_index(langs, prev, sources, k - 1);
        if reusable(prev, sources, k - 1) {
            assert(extraction_at(langs, prev, sources, k - 1) == extraction_at(
                langs,
                Seq::empty(),
                sources,
                k - 1,
            ));
        }
    }
}

/// Indexing the same sources again, with what the run before extracted,
/// parses nothing: every source is reused, as long as no path comes twice.
pub proof fn law_unchanged_sources_are_reused<L: Language>(
    langs: Seq<L>,
    earlier: Seq<(Seq<char>, Seq<u8>, ExtractionView)>,
    prev: Seq<(Seq<char>, Seq<u8>, ExtractionView)>,
    sources: Seq<SourceFile>,
)
    requires
        refreshed(langs, earlier, sources, sources.len() as int) == Ok::<
            Seq<(Seq<char>, Seq<u8>, ExtractionView)>,
            IndexErrorView,
        >(prev),
        forall|a: int, b: int|
            0 <= a < sources.len() && 0 <= b < sources.len() && a != b ==> !paths::same_path(
                (#[trigger] sources[a]).path@,
                (#[trigger] sources[b]).path@,
            ),
    ensures
        reuse_count(prev, sources, sources.len() as int) == sources.len(),
{
    lemma_refreshed_entries(langs, earlier, sources, sources.len() as int);
    assert forall|i: int| 0 <= i < sources.len() implies #[trigger] reusable(prev, sources, i) by {
        lemma_last_entry_at(prev, sources, i, prev.len() as int);
        assert(prev.take(prev.len() as int) =~= prev);
        if seen_before(sources, i) {
            let j = choose|j: int|
                0 <= j < i && paths::same_path((#[trigger] sources[j]).path@, sources[i].path@);
            assert(!paths::same_path(sources[j].path@, sources[i].path@));
        }
    }
    lemma_all_reused(prev, sources, sources.len() as int);
}

proof fn lemma_all_reused(
    prev: Seq<(Seq<char>, Seq<u8>, ExtractionView)>,
    sources: Seq<SourceFile>,
    k: int,
)
    requires
        0 <= k <= sources.len(),
        forall|i: int| 0 <= i < sources.len() ==> #[trigger] reusable(prev, sources, i),
    ensures
        reuse_count(prev, sources, k) == k,
    decreases k,
{
    if k > 0 {
        lemma_all_reused(prev, sources, k - 1);
        assert(reusable(prev, sources, k - 1));
    }
}

proof fn lemma_refreshed_entries<L: Language>(
    langs: Seq<L>,
    prev: Seq<(Seq<char>, Seq<u8>, ExtractionView)>,
    sources: Seq<SourceFile>,
    k: int,
)
    requires
        0 <= k <= sources.len(),
    ensures
        refreshed(langs, prev, sources, k) matches Ok(v) ==> v.len() == k && forall|i: int|
            0 <= i < k ==> (#[trigger] v[i]).0 == sources[i].path@ && v[i].1 == source_hash(
                sources[i].src@,
            ),
    decreases k,
{
    if k > 0 {
        lemma_refreshed_entries(langs, prev, sources, k - 1);
    }
}

proof fn lemma_last_entry_at(
    prev: Seq<(Seq<char>, Seq<u8>, ExtractionView)>,
    sources: Seq<SourceFile>,
    i: int,
    n: int,
)
    requires
        0 <= i < n <= prev.len(),
        prev.len() == sources.len(),
        forall|j: int| 0 <= j < prev.len() ==> (#[trigger] prev[j]).0 == sources[j].path@,
        forall|a: int, b: int|
            0 <= a < sources.len() && 0 <= b < sources.len() && a != b ==> !paths::same_path(
                (#[trigger] sources[a]).path@,
                (#[trigger] sources[b]).path@,
            ),
    ensures
        last_entry(prev.take(n), sources[i].path@) == i,
    decreases n,
{
    let p = prev.take(n);
    assert(p.last() == prev[n - 1]);
    assert(prev[n - 1].0 == sources[n - 1].path@);
    if i < n - 1 {
        assert(!paths::same_path(sources[n - 1].path@, sources[i].path@));
        assert(p.drop_last() =~= prev.take(n - 1));
        lemma_last_entry_at(prev, sources, i, n - 1);
    }
}

/// Every call has an edge, resolved or by its bare name: no call is lost.
pub proof fn law_every_call_has_an_edge<L: Language>(
    langs: Seq<L>,
    cached: Seq<(Seq<char>, Seq<u8>, ExtractionView)>,
    repo: FactsView,
    i: int,
    k: int,
)
    requires
        0 <= i < cached.len(),
        0 <= k < cached[i].2.calls.len(),
    ensures
        ({
            let r = cached[i].2.calls[k];
            let from = id_of(cached, i, r.from_def as int);
            all_edges(langs, cached, repo).contains(EdgeView::Unknown { from, name: r.name })
                || exists|to: DefId| #[trigger]
                all_edges(langs, cached, repo).contains(EdgeView::Calls { from, to })
        }),
{
    let r = cached[i].2.calls[k];
    let from = id_of(cached, i, r.from_def as int);
    let imports = all_imports(langs, cached, repo);
    let scope = scope_of(langs, cached, imports, i);
    let cs = candidates(cached, scope, r.name);
    let edges = edges_of_call(from, cs, r.name);
    let e = edges[0];
    lemma_call_edges_from(from, cs);
    let n = cached[i].2.calls.len() as int;
    lemma_calls_in_holds(cached, scope, i, k, n, e);
    lemma_refs_hold(langs, cached, imports, i, cached.len() as int, e);
    let refs = refs_upto(langs, cached, imports, cached.len() as int);
    lemma_once(refs);
    let kept = once(refs);
    assert(kept.contains(e));
    let at = choose|at: int| 0 <= at < kept.len() && kept[at] == e;
    let all = all_edges(langs, cached, repo);
    let start = containments(cached, cached.len() as int).len() + imports.len();
    assert(all[start + at] == e);
    assert(all.contains(e));
    if call_edges(from, cs).len() > 0 {
        assert(e == call_edges(from, cs)[0]);
        match e {
            EdgeView::Calls { from: f, to } => {
                assert(all.contains(EdgeView::Calls { from, to }));
            },
            _ => {},
        }
    }
}

proof fn lemma_call_edges_from(from: DefId, cs: Seq<DefId>)
    ensures
        forall|j: int|
            0 <= j < call_edges(from, cs).len() ==> (#[trigger] call_edges(from, cs)[j] matches
                EdgeView::Calls { from: f, to } && f == from && to != from),
    decreases cs.len(),
{
    if cs.len() > 0 {
        lemma_call_edges_from(from, cs.drop_last());
        let before = call_edges(from, cs.drop_last());
        let now = call_edges(from, cs);
        assert forall|j: int| 0 <= j < now.len() implies (#[trigger] now[j] matches
            EdgeView::Calls { from: f, to } && f == from && to != from) by {
            if j < before.len() {
                assert(now[j] == before[j]);
            }
        }
    }
}

pub proof fn lemma_calls_in_holds(
    cached: Seq<(Seq<char>, Seq<u8>, ExtractionView)>,
    scope: Seq<FileId>,
    i: int,
    k: int,
    n: int,
    e: EdgeView,
)
    requires
        0 <= k < n <= cached[i].2.calls.len(),
        edges_of_call(
            id_of(cached, i, cached[i].2.calls[k].from_def as int),
            candidates(cached, scope, cached[i].2.calls[k].name),
            cached[i].2.calls[k].name,
        ).contains(e),
    ensures
        calls_in(cached, scope, i, n).contains(e),
    decreases n,
{
    let before = calls_in(cached, scope, i, n - 1);
    let now = calls_in(cached, scope, i, n);
    if k < n - 1 {
        lemma_calls_in_holds(cached, scope, i, k, n - 1, e);
        let at = choose|at: int| 0 <= at < before.len() && before[at] == e;
        assert(now[at] == e);
    } else {
        let r = cached[i].2.calls[k];
        let own = edges_of_call(
            id_of(cached, i, r.from_def as int),
            candidates(cached, scope, r.name),
            r.name,
        );
        let at = choose|at: int| 0 <= at < own.len() && own[at] == e;
        assert(now[before.len() + at] == e);
    }
}

pub proof fn lemma_refs_hold<L: Language>(
    langs: Seq<L>,
    cached: Seq<(Seq<char>, Seq<u8>, ExtractionView)>,
    imports: Seq<EdgeView>,
    i: int,
    n: int,
    e: EdgeView,
)
    requires
        0 <= i < n <= cached.len(),
        calls_in(
            cached,
            scope_of(langs, cached, imports, i),
            i,
            cached[i].2.calls.len() as int,
        ).contains(e),
    ensures
        refs_upto(langs, cached, imports, n).contains(e),
    decreases n,
{
    let before = refs_upto(langs, cached, imports, n - 1);
    let now = refs_upto(langs, cached, imports, n);
    if i < n - 1 {
        lemma_refs_hold(langs, cached, imports, i, n - 1, e);
        let at = choose|at: int| 0 <= at < before.len() && before[at] == e;
        assert(now[at] == e);
    } else {
        let own = calls_in(
            cached,
            scope_of(langs, cached, imports, i),
            i,
            cached[i].2.calls.len() as int,
        );
        let at = choose|at: int| 0 <= at < own.len() && own[at] == e;
        assert(now[before.len() + at] == e);
    }
}

/// Is this no edge from a file to itself?
pub open spec fn not_to_self(e: EdgeView) -> bool {
    e matches EdgeView::Imports { from, to } ==> from != to
}

/// Is none of these an edge from a file to itself?
pub open spec fn none_to_self(edges: Seq<EdgeView>) -> bool {
    forall|j: int| 0 <= j < edges.len() ==> not_to_self(#[trigger] edges[j])
}

/// No file imports itself, and no import edge is there twice.
pub proof fn law_imports_are_distinct_and_not_to_self<L: Language>(
    langs: Seq<L>,
    cached: Seq<(Seq<char>, Seq<u8>, ExtractionView)>,
    repo: FactsView,
)
    ensures
        all_imports(langs, cached, repo).no_duplicates(),
        none_to_self(all_imports(langs, cached, repo)),
{
    let wanted = imports_upto(langs, cached, repo, cached.len() as int);
    let kept = all_imports(langs, cached, repo);
    lemma_once(wanted);
    lemma_imports_upto_not_self(langs, cached, repo, cached.len() as int);
    assert forall|j: int| 0 <= j < kept.len() implies not_to_self(#[trigger] kept[j]) by {
        assert(kept.contains(kept[j]));
        let k = choose|k: int| 0 <= k < wanted.len() && wanted[k] == kept[j];
        assert(not_to_self(wanted[k]));
    }
}

proof fn lemma_none_to_self_cat(a: Seq<EdgeView>, b: Seq<EdgeView>)
    requires
        none_to_self(a),
        none_to_self(b),
    ensures
        none_to_self(a + b),
{
    assert forall|j: int| 0 <= j < (a + b).len() implies not_to_self(#[trigger] (a + b)[j]) by {
        if j < a.len() {
            assert((a + b)[j] == a[j]);
        } else {
            assert((a + b)[j] == b[j - a.len()]);
        }
    }
}

proof fn lemma_import_edges_not_self(from: FileId, targets: Seq<FileId>)
    ensures
        none_to_self(import_edges(from, targets)),
    decreases targets.len(),
{
    if targets.len() > 0 {
        lemma_import_edges_not_self(from, targets.drop_last());
    }
}

proof fn lemma_imports_in_not_self<L: Language>(
    langs: Seq<L>,
    cached: Seq<(Seq<char>, Seq<u8>, ExtractionView)>,
    repo: FactsView,
    i: int,
    m: int,
)
    ensures
        none_to_self(imports_in(langs, cached, repo, i, m)),
    decreases m,
{
    if m > 0 {
        let targets = targets_of(
            cached,
            resolution(langs, cached[i], cached[i].2.imports[m - 1].raw, repo),
        );
        lemma_imports_in_not_self(langs, cached, repo, i, m - 1);
        lemma_import_edges_not_self(FileId(i as u32), targets);
        lemma_none_to_self_cat(
            imports_in(langs, cached, repo, i, m - 1),
            import_edges(FileId(i as u32), targets),
        );
    }
}

proof fn lemma_imports_upto_not_self<L: Language>(
    langs: Seq<L>,
    cached: Seq<(Seq<char>, Seq<u8>, ExtractionView)>,
    repo: FactsView,
    n: int,
)
    ensures
        none_to_self(imports_upto(langs, cached, repo, n)),
    decreases n,
{
    if n > 0 {
        let m = cached[n - 1].2.imports.len() as int;
        lemma_imports_upto_not_self(langs, cached, repo, n - 1);
        lemma_imports_in_not_self(langs, cached, repo, n - 1, m);
        lemma_none_to_self_cat(
            imports_upto(langs, cached, repo, n - 1),
            imports_in(langs, cached, repo, n - 1, m),
        );
    }
}

/// A file sees itself, every other file of its package and everything it
/// imports.
pub proof fn law_scope_holds_package_and_imports<L: Language>(
    langs: Seq<L>,
    cached: Seq<(Seq<char>, Seq<u8>, ExtractionView)>,
    imports: Seq<EdgeView>,
    i: int,
    j: int,
)
    requires
        0 <= i < cached.len() <= u32::MAX + 1,
        0 <= j < cached.len(),
        i == j || same_package(langs, cached, i, j) || imports.contains(
            EdgeView::Imports { from: FileId(i as u32), to: FileId(j as u32) },
        ),
    ensures
        scope_of(langs, cached, imports, i).contains(FileId(j as u32)),
{
    let scope = scope_of(langs, cached, imports, i);
    let near = siblings(langs, cached, i, cached.len() as int);
    let far = imported(imports, FileId(i as u32));
    let f = FileId(j as u32);
    if i == j {
        assert(scope[0] == f);
    } else if same_package(langs, cached, i, j) {
        lemma_sibling_listed(langs, cached, i, j, cached.len() as int);
        let at = choose|at: int| 0 <= at < near.len() && near[at] == f;
        assert(scope[1 + at] == f);
    } else {
        lemma_imported(imports, FileId(i as u32), f);
        let at = choose|at: int| 0 <= at < far.len() && far[at] == f;
        assert(scope[1 + near.len() + at] == f);
    }
}

proof fn lemma_sibling_listed<L: Language>(
    langs: Seq<L>,
    cached: Seq<(Seq<char>, Seq<u8>, ExtractionView)>,
    i: int,
    j: int,
    n: int,
)
    requires
        0 <= j < n <= cached.len(),
        i != j,
        same_package(langs, cached, i, j),
    ensures
        siblings(langs, cached, i, n).contains(FileId(j as u32)),
    decreases n,
{
    let before = siblings(langs, cached, i, n - 1);
    let now = siblings(langs, cached, i, n);
    if j < n - 1 {
        lemma_sibling_listed(langs, cached, i, j, n - 1);
        let at = choose|at: int| 0 <= at < before.len() && before[at] == FileId(j as u32);
        assert(now[at] == FileId(j as u32));
    } else {
        assert(now[now.len() - 1] == FileId(j as u32));
    }
}

/// Every definition but a module init is contained in its parent or, without
/// one, in the module init of its file: the graph says so.
pub proof fn law_every_definition_is_contained<L: Language>(
    langs: Seq<L>,
    cached: Seq<(Seq<char>, Seq<u8>, ExtractionView)>,
    repo: FactsView,
    i: int,
    k: int,
    m: int,
)
    requires
        0 <= i < cached.len(),
        0 <= k < cached[i].2.defs.len(),
        cached[i].2.defs[k].kind != DefKind::ModuleInit,
        0 <= m < cached[i].2.defs.len(),
        cached[i].2.defs[k].parent matches Some(p) ==> p == m,
        cached[i].2.defs[k].parent is None ==> cached[i].2.defs[m].kind == DefKind::ModuleInit
            && forall|j: int|
            m < j < cached[i].2.defs.len() ==> (#[trigger] cached[i].2.defs[j]).kind
                != DefKind::ModuleInit,
    ensures
        all_edges(langs, cached, repo).contains(
            EdgeView::Contains { parent: id_of(cached, i, m), child: id_of(cached, i, k) },
        ),
{
    let e = EdgeView::Contains { parent: id_of(cached, i, m), child: id_of(cached, i, k) };
    let defs = cached[i].2.defs;
    if defs[k].parent is None {
        lemma_init_position(defs, m);
    }
    assert(containment(cached, i, k)[0] == e);
    lemma_containment_in(cached, i, k, defs.len() as int, e);
    lemma_containments(cached, i, cached.len() as int, e);
    let first = containments(cached, cached.len() as int);
    let at = choose|at: int| 0 <= at < first.len() && first[at] == e;
    assert(all_edges(langs, cached, repo)[at] == e);
}

proof fn lemma_init_position(defs: Seq<DefView>, m: int)
    requires
        0 <= m < defs.len(),
        defs[m].kind == DefKind::ModuleInit,
        forall|j: int| m < j < defs.len() ==> (#[trigger] defs[j]).kind != DefKind::ModuleInit,
    ensures
        init_position(defs) == Some(m),
    decreases defs.len(),
{
    if m < defs.len() - 1 {
        let rest = defs.drop_last();
        assert(defs[defs.len() - 1] == defs.last());
        assert(rest[m] == defs[m]);
        assert forall|j: int| m < j < rest.len() implies (#[trigger] rest[j]).kind
            != DefKind::ModuleInit by {
            assert(rest[j] == defs[j]);
        }
        lemma_init_position(rest, m);
    }
}

proof fn lemma_containment_in(
    cached: Seq<(Seq<char>, Seq<u8>, ExtractionView)>,
    i: int,
    k: int,
    n: int,
    e: EdgeView,
)
    requires
        0 <= k < n,
        containment(cached, i, k).contains(e),
    ensures
        containments_in(cached, i, n).contains(e),
    decreases n,
{
    let before = containments_in(cached, i, n - 1);
    let last = containment(cached, i, n - 1);
    if k < n - 1 {
        lemma_containment_in(cached, i, k, n - 1, e);
        let at = choose|at: int| 0 <= at < before.len() && before[at] == e;
        assert((before + last)[at] == e);
    } else {
        let at = choose|at: int| 0 <= at < last.len() && last[at] == e;
        assert((before + last)[before.len() + at] == e);
    }
}

proof fn lemma_containments(
    cached: Seq<(Seq<char>, Seq<u8>, ExtractionView)>,
    i: int,
    n: int,
    e: EdgeView,
)
    requires
        0 <= i < n,
        containments_in(cached, i, cached[i].2.defs.len() as int).contains(e),
    ensures
        containments(cached, n).contains(e),
    decreases n,
{
    let before = containments(cached, n - 1);
    let last = containments_in(cached, n - 1, cached[n - 1].2.defs.len() as int);
    if i < n - 1 {
        lemma_containments(cached, i, n - 1, e);
        let at = choose|at: int| 0 <= at < before.len() && before[at] == e;
        assert((before + last)[at] == e);
    } else {
        let at = choose|at: int| 0 <= at < last.len() && last[at] == e;
        assert((before + last)[before.len() + at] == e);
    }
}

/// An import that resolves to a file has an edge to it, and one that resolves
/// to a directory has an edge to every file that stands in it.
pub proof fn law_imports_have_edges<L: Language>(
    langs: Seq<L>,
    cached: Seq<(Seq<char>, Seq<u8>, ExtractionView)>,
    repo: FactsView,
    lang: L,
    i: int,
    m: int,
    j: int,
    target: Seq<char>,
)
    requires
        0 <= i < cached.len() <= u32::MAX + 1,
        0 <= m < cached[i].2.imports.len(),
        0 <= j < cached.len(),
        i != j,
        language::lang_for(langs, cached[i].0) == Some(lang),
        lang.spec_resolve(cached[i].0, cached[i].2.imports[m].raw, repo) == Some(target),
        (paths::same_path(cached[j].0, target) && forall|k: int|
            0 <= k < cached.len() && k != j ==> !paths::same_path((#[trigger] cached[k]).0, target))
            || ((forall|k: int|
            0 <= k < cached.len() ==> !paths::same_path((#[trigger] cached[k]).0, target)) && (
        paths::parent_of(cached[j].0) matches Some(p) && paths::same_path(p, target))),
    ensures
        all_edges(langs, cached, repo).contains(
            EdgeView::Imports { from: FileId(i as u32), to: FileId(j as u32) },
        ),
{
    let from = FileId(i as u32);
    let to = FileId(j as u32);
    let e = EdgeView::Imports { from, to };
    let targets = targets_of(cached, Some(target));
    if paths::same_path(cached[j].0, target) {
        lemma_only_file_at(cached, j, target);
        assert(targets =~= seq![to]);
        assert(targets[0] == to);
    } else {
        lemma_none_at(cached, target);
        lemma_file_in(cached, j, target);
    }
    lemma_import_edge(from, targets, to);
    lemma_imports_in_hold(langs, cached, repo, i, m, cached[i].2.imports.len() as int, e);
    lemma_imports_upto_hold(langs, cached, repo, i, cached.len() as int, e);
    let wanted = imports_upto(langs, cached, repo, cached.len() as int);
    lemma_once(wanted);
    let kept = once(wanted);
    let w = choose|w: int| 0 <= w < wanted.len() && wanted[w] == e;
    assert(kept.contains(wanted[w]));
    let at = choose|at: int| 0 <= at < kept.len() && kept[at] == e;
    let first = containments(cached, cached.len() as int);
    assert(all_edges(langs, cached, repo)[first.len() + at] == e);
}

proof fn lemma_none_at(cached: Seq<(Seq<char>, Seq<u8>, ExtractionView)>, path: Seq<char>)
    requires
        forall|k: int|
            0 <= k < cached.len() ==> !paths::same_path((#[trigger] cached[k]).0, path),
    ensures
        files_at(cached, path).len() == 0,
    decreases cached.len(),
{
    if cached.len() > 0 {
        let rest = cached.drop_last();
        assert(cached[cached.len() - 1] == cached.last());
        assert forall|k: int| 0 <= k < rest.len() implies !paths::same_path(
            (#[trigger] rest[k]).0,
            path,
        ) by {
            assert(rest[k] == cached[k]);
        }
        lemma_none_at(rest, path);
    }
}

proof fn lemma_only_file_at(
    cached: Seq<(Seq<char>, Seq<u8>, ExtractionView)>,
    j: int,
    path: Seq<char>,
)
    requires
        0 <= j < cached.len(),
        paths::same_path(cached[j].0, path),
        forall|k: int|
            0 <= k < cached.len() && k != j ==> !paths::same_path((#[trigger] cached[k]).0, path),
    ensures
        files_at(cached, path) == seq![FileId(j as u32)],
    decreases cached.len(),
{
    let rest = cached.drop_last();
    assert(cached[cached.len() - 1] == cached.last());
    if j < rest.len() {
        assert(rest[j] == cached[j]);
        assert forall|k: int| 0 <= k < rest.len() && k != j implies !paths::same_path(
            (#[trigger] rest[k]).0,
            path,
        ) by {
            assert(rest[k] == cached[k]);
        }
        lemma_only_file_at(rest, j, path);
    } else {
        assert forall|k: int| 0 <= k < rest.len() implies !paths::same_path(
            (#[trigger] rest[k]).0,
            path,
        ) by {
            assert(rest[k] == cached[k]);
        }
        lemma_none_at(rest, path);
        assert(files_at(cached, path) =~= seq![FileId(j as u32)]);
    }
}

proof fn lemma_file_in(
    cached: Seq<(Seq<char>, Seq<u8>, ExtractionView)>,
    j: int,
    dir: Seq<char>,
)
    requires
        0 <= j < cached.len(),
        paths::parent_of(cached[j].0) matches Some(p) && paths::same_path(p, dir),
    ensures
        files_in(cached, dir).contains(FileId(j as u32)),
    decreases cached.len(),
{
    let before = files_in(cached.drop_last(), dir);
    let all = files_in(cached, dir);
    if j < cached.len() - 1 {
        assert(cached.drop_last()[j] == cached[j]);
        lemma_file_in(cached.drop_last(), j, dir);
        let at = choose|at: int| 0 <= at < before.len() && before[at] == FileId(j as u32);
        assert(all[at] == FileId(j as u32));
    } else {
        assert(all[before.len() as int] == FileId(j as u32));
    }
}

proof fn lemma_import_edge(from: FileId, targets: Seq<FileId>, to: FileId)
    requires
        targets.contains(to),
        to != from,
    ensures
        import_edges(from, targets).contains(EdgeView::Imports { from, to }),
    decreases targets.len(),
{
    let e = EdgeView::Imports { from, to };
    let before = import_edges(from, targets.drop_last());
    let all = import_edges(from, targets);
    if targets.last() == to {
        assert(all[before.len() as int] == e);
    } else {
        let k = choose|k: int| 0 <= k < targets.len() && targets[k] == to;
        assert(targets.drop_last()[k] == to);
        lemma_import_edge(from, targets.drop_last(), to);
        let at = choose|at: int| 0 <= at < before.len() && before[at] == e;
        assert(all[at] == e);
    }
}

proof fn lemma_imports_in_hold<L: Language>(
    langs: Seq<L>,
    cached: Seq<(Seq<char>, Seq<u8>, ExtractionView)>,
    repo: FactsView,
    i: int,
    m: int,
    n: int,
    e: EdgeView,
)
    requires
        0 <= m < n,
        import_edges(
            FileId(i as u32),
            targets_of(cached, resolution(langs, cached[i], cached[i].2.imports[m].raw, repo)),
        ).contains(e),
    ensures
        imports_in(langs, cached, repo, i, n).contains(e),
    decreases n,
{
    let before = imports_in(langs, cached, repo, i, n - 1);
    let last = import_edges(
        FileId(i as u32),
        targets_of(cached, resolution(langs, cached[i], cached[i].2.imports[n - 1].raw, repo)),
    );
    if m < n - 1 {
        lemma_imports_in_hold(langs, cached, repo, i, m, n - 1, e);
        let at = choose|at: int| 0 <= at < before.len() && before[at] == e;
        assert((before + last)[at] == e);
    } else {
        let at = choose|at: int| 0 <= at < last.len() && last[at] == e;
        assert((before + last)[before.len() + at] == e);
    }
}

proof fn lemma_imports_upto_hold<L: Language>(
    langs: Seq<L>,
    cached: Seq<(Seq<char>, Seq<u8>, ExtractionView)>,
    repo: FactsView,
    i: int,
    n: int,
    e: EdgeView,
)
    requires
        0 <= i < n,
        imports_in(langs, cached, repo, i, cached[i].2.imports.len() as int).contains(e),
    ensures
        imports_upto(langs, cached, repo, n).contains(e),
    decreases n,
{
    let before = imports_upto(langs, cached, repo, n - 1);
    let last = imports_in(langs, cached, repo, n - 1, cached[n - 1].2.imports.len() as int);
    if i < n - 1 {
        lemma_imports_upto_hold(langs, cached, repo, i, n - 1, e);
        let at = choose|at: int| 0 <= at < before.len() && before[at] == e;
        assert((before + last)[at] == e);
    } else {
        let at = choose|at: int| 0 <= at < last.len() && last[at] == e;
        assert((before + last)[before.len() + at] == e);
    }
}

} // verus!
