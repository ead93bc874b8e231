//! Index runs that follow each other: each keeps what the one before it
//! extracted, and comes to what a run from scratch would come to.
use vstd::prelude::*;

use crate::cache;
use crate::cache::CachedExtraction;
use crate::classify;
use crate::graph::{Def, FileNode, Graph};
use crate::indexer;
use crate::indexer::{IndexError, IndexErrorView, IndexStats, SourceFile};
use crate::language;
use crate::language::{ExtractionView, FactsView, Language};
use crate::paths;
use crate::plugins::AnyLanguage;
use crate::syntax::ParseFailure;

verus! {

/// The path and the contents of a file that was read.
pub type Text = (Seq<char>, Seq<char>);

/// What was read for a run.
pub open spec fn texts_of(sources: Seq<SourceFile>) -> Seq<Text> {
    sources.map_values(|s: SourceFile| (s.path@, s.src@))
}

/// Is the entry what is extracted from the text, under its path and hash?
pub open spec fn came_from<L: Language>(
    langs: Seq<L>,
    e: (Seq<char>, Seq<u8>, ExtractionView),
    t: Text,
) -> bool {
    &&& paths::same_path(e.0, t.0)
    &&& e.1 == indexer::source_hash(t.1)
    &&& language::lang_for(langs, t.0) matches Some(lang) && classify::extracted(lang, t.0, t.1)
        == Ok::<ExtractionView, ParseFailure>(e.2)
}

/// Did every entry come from one of the texts?
pub open spec fn all_came_from<L: Language>(
    langs: Seq<L>,
    cached: Seq<(Seq<char>, Seq<u8>, ExtractionView)>,
    texts: Seq<Text>,
) -> bool {
    forall|i: int|
        0 <= i < cached.len() ==> exists|t: int|
            0 <= t < texts.len() && came_from(langs, #[trigger] cached[i], #[trigger] texts[t])
}

/// Are the sources told from the texts by their hashes?
pub open spec fn told_apart(texts: Seq<Text>, sources: Seq<SourceFile>) -> bool {
    forall|t: int, i: int|
        0 <= t < texts.len() && 0 <= i < sources.len() && indexer::source_hash(
            (#[trigger] texts[t]).1,
        ) == indexer::source_hash((#[trigger] sources[i]).src@) ==> texts[t].1 == sources[i].src@
}

/// Does no language care how a path is spelled?
pub open spec fn spelling_is_nothing<L: Language>(langs: Seq<L>) -> bool {
    forall|i: int, p: Seq<char>, q: Seq<char>|
        0 <= i < langs.len() && paths::same_path(p, q) ==> (#[trigger] langs[i].spec_grammar(p))
            == (#[trigger] langs[i].spec_grammar(q))
}

/// The languages there are do not care how a path is spelled.
pub proof fn law_spelling_of_paths_is_nothing(langs: Seq<AnyLanguage>)
    ensures
        spelling_is_nothing(langs),
{
}

proof fn lemma_lang_for<L: Language>(langs: Seq<L>, p: Seq<char>, q: Seq<char>)
    requires
        paths::same_path(p, q),
    ensures
        language::lang_for(langs, p) == language::lang_for(langs, q),
        language::lang_for(langs, p) matches Some(lang) ==> langs.contains(lang),
    decreases langs.len(),
{
    if langs.len() > 0 {
        let rest = langs.drop_last();
        lemma_lang_for(rest, p, q);
        if let Some(lang) = language::lang_for(rest, p) {
            let i = choose|i: int| 0 <= i < rest.len() && rest[i] == lang;
            assert(langs[i] == lang);
        } else {
            assert(langs[langs.len() - 1] == langs.last());
        }
    }
}

proof fn lemma_last_entry(prev: Seq<(Seq<char>, Seq<u8>, ExtractionView)>, path: Seq<char>)
    ensures
        indexer::last_entry(prev, path) < prev.len(),
        indexer::last_entry(prev, path) >= 0 ==> paths::same_path(
            prev[indexer::last_entry(prev, path)].0,
            path,
        ),
    decreases prev.len(),
{
    if prev.len() > 0 {
        lemma_last_entry(prev.drop_last(), path);
    }
}

/// What a run hands on came from what was read for it and for the runs before
/// it.
pub proof fn law_runs_hand_on_what_they_read<L: Language>(
    langs: Seq<L>,
    prev: Seq<(Seq<char>, Seq<u8>, ExtractionView)>,
    sources: Seq<SourceFile>,
    texts: Seq<Text>,
    v: Seq<(Seq<char>, Seq<u8>, ExtractionView)>,
)
    requires
        all_came_from(langs, prev, texts),
        indexer::refreshed(langs, prev, sources, sources.len() as int) == Ok::<
            Seq<(Seq<char>, Seq<u8>, ExtractionView)>,
            IndexErrorView,
        >(v),
    ensures
        all_came_from(langs, v, texts + texts_of(sources)),
{
    lemma_handed_on(langs, prev, sources, texts, sources.len() as int);
}

proof fn lemma_handed_on<L: Language>(
    langs: Seq<L>,
    prev: Seq<(Seq<char>, Seq<u8>, ExtractionView)>,
    sources: Seq<SourceFile>,
    texts: Seq<Text>,
    k: int,
)
    requires
        all_came_from(langs, prev, texts),
        0 <= k <= sources.len(),
    ensures
        indexer::refreshed(langs, prev, sources, k) matches Ok(v) ==> all_came_from(
            langs,
            v,
            texts + texts_of(sources),
        ),
    decreases k,
{
    let all = texts + texts_of(sources);
    if k > 0 {
        lemma_handed_on(langs, prev, sources, texts, k - 1);
        match (
            indexer::refreshed(langs, prev, sources, k - 1),
            indexer::refreshed(langs, prev, sources, k),
        ) {
            (Ok(before), Ok(now)) => {
                let path = sources[k - 1].path@;
                let own = now[k - 1];
                lemma_len(langs, prev, sources, k - 1);
                assert(now =~= before.push(own));
                assert forall|i: int| 0 <= i < now.len() implies exists|t: int|
                    0 <= t < all.len() && came_from(langs, #[trigger] now[i], #[trigger] all[t]) by {
                    if i < k - 1 {
                        assert(now[i] == before[i]);
                        let t = choose|t: int|
                            0 <= t < all.len() && came_from(
                                langs,
                                before[i],
                                #[trigger] all[t],
                            );
                        assert(came_from(langs, now[i], all[t]));
                    } else if indexer::reusable(prev, sources, k - 1) {
                        lemma_last_entry(prev, path);
                        let j = indexer::last_entry(prev, path);
                        let t = choose|t: int|
                            0 <= t < texts.len() && came_from(langs, prev[j], #[trigger] texts[t]);
                        assert(all[t] == texts[t]);
                        assert(came_from(langs, now[i], all[t]));
                    } else {
                        let t = texts.len() + k - 1;
                        assert(all[t] == texts_of(sources)[k - 1]);
                        assert(came_from(langs, now[i], all[t]));
                    }
                }
            },
            _ => {},
        }
    }
}

proof fn lemma_len<L: Language>(
    langs: Seq<L>,
    prev: Seq<(Seq<char>, Seq<u8>, ExtractionView)>,
    sources: Seq<SourceFile>,
    k: int,
)
    requires
        0 <= k,
    ensures
        indexer::refreshed(langs, prev, sources, k) matches Ok(v) ==> v.len() == k,
    decreases k,
{
    if k > 0 {
        lemma_len(langs, prev, sources, k - 1);
    }
}

/// A run that keeps what earlier runs extracted comes to what a run from
/// scratch comes to, as long as equal hashes mean equal texts.
pub proof fn law_rerun_extracts_what_a_full_run_does<L: Language>(
    langs: Seq<L>,
    prev: Seq<(Seq<char>, Seq<u8>, ExtractionView)>,
    sources: Seq<SourceFile>,
    texts: Seq<Text>,
)
    requires
        spelling_is_nothing(langs),
        all_came_from(langs, prev, texts),
        told_apart(texts, sources),
    ensures
        indexer::refreshed(langs, prev, sources, sources.len() as int) == indexer::refreshed(
            langs,
            Seq::empty(),
            sources,
            sources.len() as int,
        ),
{
    assert forall|i: int|
        0 <= i < sources.len() && #[trigger] indexer::reusable(
            prev,
            sources,
            i,
        ) implies indexer::extraction_at(langs, Seq::empty(), sources, i) == Ok::<
        ExtractionView,
        ParseFailure,
    >(prev[indexer::last_entry(prev, sources[i].path@)].2) by {
        let path = sources[i].path@;
        lemma_last_entry(prev, path);
        let e = prev[indexer::last_entry(prev, path)];
        let t = choose|t: int| 0 <= t < texts.len() && came_from(langs, e, #[trigger] texts[t]);
        assert(texts[t].1 == sources[i].src@);
        assert(paths::same_path(texts[t].0, path));
        lemma_lang_for(langs, texts[t].0, path);
        let lang = language::lang_for(langs, path).unwrap();
        let l = choose|l: int| 0 <= l < langs.len() && langs[l] == lang;
        assert(langs[l].spec_grammar(texts[t].0) == langs[l].spec_grammar(path));
        assert(!indexer::reusable(Seq::empty(), sources, i));
    }
    indexer::law_incremental_index_is_full_index(langs, prev, sources, sources.len() as int);
}

/// Are the two definitions the same?
pub open spec fn same_def(a: Def, b: Def) -> bool {
    &&& a.name@ == b.name@
    &&& a.kind == b.kind
    &&& a.file == b.file
    &&& a.start_line == b.start_line
    &&& a.end_line == b.end_line
    &&& language::chain_view(a.test_id) == language::chain_view(b.test_id)
    &&& a.computed_name == b.computed_name
}

/// Are the two files the same?
pub open spec fn same_file(a: FileNode, b: FileNode) -> bool {
    a.path@ == b.path@ && a.hash@ == b.hash@ && a.lang@ == b.lang@
}

/// Do the two graphs hold the same files, definitions and edges, in the same
/// order?
pub open spec fn same_graph(a: Graph, b: Graph) -> bool {
    &&& a.files@.len() == b.files@.len()
    &&& forall|i: int| 0 <= i < a.files@.len() ==> same_file(#[trigger] a.files@[i], b.files@[i])
    &&& a.defs@.len() == b.defs@.len()
    &&& forall|i: int| 0 <= i < a.defs@.len() ==> same_def(#[trigger] a.defs@[i], b.defs@[i])
    &&& indexer::edge_views(a.edges@) == indexer::edge_views(b.edges@)
}

/// What was extracted determines the graph.
pub proof fn law_extractions_determine_the_graph<L: Language>(
    a: Graph,
    b: Graph,
    langs: Seq<L>,
    cached: Seq<(Seq<char>, Seq<u8>, ExtractionView)>,
    repo: FactsView,
)
    requires
        indexer::is_graph_of(a, langs, cached, repo),
        indexer::is_graph_of(b, langs, cached, repo),
    ensures
        same_graph(a, b),
{
    assert forall|i: int| 0 <= i < a.files@.len() implies same_file(
        #[trigger] a.files@[i],
        b.files@[i],
    ) by {
        assert(indexer::is_file(a.files@[i], cached[i], langs));
        assert(indexer::is_file(b.files@[i], cached[i], langs));
    }
    assert forall|x: int| 0 <= x < a.defs@.len() implies same_def(
        #[trigger] a.defs@[x],
        b.defs@[x],
    ) by {
        let (i, k) = indexer::lemma_where(cached, cached.len() as int, x);
        let file = crate::graph::FileId(i as u32);
        assert(indexer::is_def(a.defs@[x], cached[i].2.defs[k], file));
        assert(indexer::is_def(b.defs@[x], cached[i].2.defs[k], file));
    }
}

/// An incremental run and a run from scratch hand back the same graph and the
/// same extractions, or fail alike: where what was kept came from texts that
/// were read before, and equal hashes mean equal texts.
pub proof fn law_incremental_run_is_a_full_run<L: Language>(
    langs: Seq<L>,
    prev: Seq<(Seq<char>, Seq<u8>, ExtractionView)>,
    sources: Seq<SourceFile>,
    texts: Seq<Text>,
    repo: FactsView,
    r: Result<(Graph, Vec<CachedExtraction>, IndexStats), IndexError>,
    full: Result<(Graph, Vec<CachedExtraction>, IndexStats), IndexError>,
)
    requires
        spelling_is_nothing(langs),
        all_came_from(langs, prev, texts),
        told_apart(texts, sources),
        indexer::is_index(r, langs, prev, sources, repo),
        indexer::is_index(full, langs, Seq::empty(), sources, repo),
    ensures
        match (r, full) {
            (Ok((a, x, _)), Ok((b, y, _))) => same_graph(a, b) && cache::cached_views(x@)
                == cache::cached_views(y@),
            (Err(e), Err(f)) => e@ == f@,
            _ => false,
        },
{
    law_rerun_extracts_what_a_full_run_does(langs, prev, sources, texts);
    match (r, full) {
        (Ok((a, x, _)), Ok((b, y, _))) => {
            law_extractions_determine_the_graph(a, b, langs, cache::cached_views(x@), repo);
        },
        _ => {},
    }
}

/// A run on changed files that keeps what a run from scratch extracted before
/// the change comes to what a run from scratch comes to after it, as long as
/// equal hashes mean equal texts.
pub proof fn law_next_run_is_a_full_run(
    langs: Seq<AnyLanguage>,
    before: Seq<SourceFile>,
    after: Seq<SourceFile>,
    facts: FactsView,
    repo: FactsView,
    first: Result<(Graph, Vec<CachedExtraction>, IndexStats), IndexError>,
    second: Result<(Graph, Vec<CachedExtraction>, IndexStats), IndexError>,
    full: Result<(Graph, Vec<CachedExtraction>, IndexStats), IndexError>,
)
    requires
        told_apart(texts_of(before), after),
        indexer::is_index(first, langs, Seq::empty(), before, facts),
        first matches Ok((_, kept, _)) && indexer::is_index(
            second,
            langs,
            cache::cached_views(kept@),
            after,
            repo,
        ),
        indexer::is_index(full, langs, Seq::empty(), after, repo),
    ensures
        match (second, full) {
            (Ok((a, x, _)), Ok((b, y, _))) => same_graph(a, b) && cache::cached_views(x@)
                == cache::cached_views(y@),
            (Err(e), Err(f)) => e@ == f@,
            _ => false,
        },
{
    let kept = cache::cached_views(first->Ok_0.1@);
    law_spelling_of_paths_is_nothing(langs);
    law_runs_hand_on_what_they_read(langs, Seq::empty(), before, Seq::empty(), kept);
    assert(Seq::<Text>::empty() + texts_of(before) =~= texts_of(before));
    law_incremental_run_is_a_full_run(langs, kept, after, texts_of(before), repo, second, full);
}

/// A run that is given back its own result, on files that did not change,
/// parses nothing and reuses every file.
pub proof fn law_second_run_parses_nothing<L: Language>(
    langs: Seq<L>,
    prev: Seq<(Seq<char>, Seq<u8>, ExtractionView)>,
    sources: Seq<SourceFile>,
    facts: FactsView,
    repo: FactsView,
    first: Result<(Graph, Vec<CachedExtraction>, IndexStats), IndexError>,
    second: Result<(Graph, Vec<CachedExtraction>, IndexStats), IndexError>,
)
    requires
        forall|a: int, b: int|
            0 <= a < sources.len() && 0 <= b < sources.len() && a != b ==> !paths::same_path(
                (#[trigger] sources[a]).path@,
                (#[trigger] sources[b]).path@,
            ),
        indexer::is_index(first, langs, prev, sources, facts),
        first matches Ok((_, kept, _)) && indexer::is_index(
            second,
            langs,
            cache::cached_views(kept@),
            sources,
            repo,
        ),
    ensures
        second matches Ok((g, _, stats)) ==> stats.parsed == 0 && stats.reused == sources.len()
            && g.files@.len() == sources.len(),
{
    let kept = cache::cached_views(first->Ok_0.1@);
    indexer::law_unchanged_sources_are_reused(langs, prev, kept, sources);
    if let Ok((g, v, _)) = second {
        lemma_len(langs, kept, sources, sources.len() as int);
    }
}

} // verus!
