//! What an index has to know of the repository beside its sources: which of
//! the paths that imports may name exist.
use vstd::prelude::*;

use crate::cache;
use crate::cache::CachedExtraction;
use crate::indexer;
use crate::language;
use crate::language::{ExtractionView, FactsView, Language, Registry};
use crate::plugins;
use crate::plugins::AnyLanguage;
use crate::text;

verus! {

/// The paths that the first `m` imports of the file `c` may name.
pub open spec fn probes_in<L: Language>(
    langs: Seq<L>,
    c: (Seq<char>, Seq<u8>, ExtractionView),
    m: int,
) -> Seq<Seq<char>>
    decreases m,
{
    if m <= 0 {
        Seq::empty()
    } else {
        probes_in(langs, c, m - 1) + match language::lang_for(langs, c.0) {
            Some(l) => l.spec_probes(c.0, c.2.imports[m - 1].raw),
            None => Seq::empty(),
        }
    }
}

/// The paths that the imports of the first `n` files may name.
pub open spec fn probes_upto<L: Language>(
    langs: Seq<L>,
    cached: Seq<(Seq<char>, Seq<u8>, ExtractionView)>,
    n: int,
) -> Seq<Seq<char>>
    decreases n,
{
    if n <= 0 {
        Seq::empty()
    } else {
        probes_upto(langs, cached, n - 1) + probes_in(
            langs,
            cached[n - 1],
            cached[n - 1].2.imports.len() as int,
        )
    }
}

/// The paths that imports may name.
pub open spec fn all_probes<L: Language>(
    langs: Seq<L>,
    cached: Seq<(Seq<char>, Seq<u8>, ExtractionView)>,
) -> Seq<Seq<char>> {
    probes_upto(langs, cached, cached.len() as int)
}

/// The paths that imports may name, in the order of the files and of their
/// imports.
pub fn wanted_probes<L: Language>(registry: &Registry<L>, cached: &Vec<CachedExtraction>) -> (r:
    Vec<String>)
    ensures
        text::views(r@) == all_probes(registry.langs@, cache::cached_views(cached@)),
{
    let ghost langs = registry.langs@;
    let ghost all = cache::cached_views(cached@);
    let mut out: Vec<String> = Vec::new();
    assert(text::views(out@) =~= Seq::empty());
    let mut i: usize = 0;
    while i < cached.len()
        invariant
            i <= cached@.len() == all.len(),
            langs == registry.langs@,
            all == cache::cached_views(cached@),
            text::views(out@) == probes_upto(langs, all, i as int),
        decreases cached@.len() - i,
    {
        let c = &cached[i];
        let ghost before = text::views(out@);
        let ghost e = all[i as int];
        assert(e == cache::cached_view(*c));
        assert(e.2.imports.len() == c.2.imports@.len());
        let lang = registry.for_path(c.0.as_str());
        let mut m: usize = 0;
        assert(text::views(out@) =~= before + probes_in(langs, e, 0));
        while m < c.2.imports.len()
            invariant
                m <= c.2.imports@.len() == e.2.imports.len(),
                e == cache::cached_view(*c),
                match lang {
                    Some(l) => language::lang_for(langs, e.0) == Some(*l),
                    None => language::lang_for(langs, e.0) is None,
                },
                text::views(out@) == before + probes_in(langs, e, m as int),
            decreases c.2.imports@.len() - m,
        {
            assert(e.2.imports[m as int] == c.2.imports@[m as int]@);
            if let Some(l) = lang {
                let mut more = l.import_probes(c.0.as_str(), c.2.imports[m].raw.as_str());
                let ghost was = text::views(out@);
                let ghost new = text::views(more@);
                let ghost whole = out@ + more@;
                out.append(&mut more);
                assert(out@ =~= whole);
                assert(text::views(out@) =~= was + new);
            }
            assert(text::views(out@) =~= before + probes_in(langs, e, m + 1));
            m = m + 1;
        }
        i = i + 1;
    }
    out
}

proof fn lemma_imports_in_agree(
    langs: Seq<AnyLanguage>,
    cached: Seq<(Seq<char>, Seq<u8>, ExtractionView)>,
    a: FactsView,
    b: FactsView,
    i: int,
    m: int,
)
    requires
        0 <= i < cached.len(),
        a.go_mod == b.go_mod,
        plugins::agree_on(probes_in(langs, cached[i], m), a.present, b.present),
    ensures
        indexer::imports_in(langs, cached, a, i, m) == indexer::imports_in(
            langs,
            cached,
            b,
            i,
            m,
        ),
    decreases m,
{
    if m > 0 {
        let c = cached[i];
        let raw = c.2.imports[m - 1].raw;
        let last = match language::lang_for(langs, c.0) {
            Some(l) => l.spec_probes(c.0, raw),
            None => Seq::empty(),
        };
        plugins::lemma_agree_on_parts(probes_in(langs, c, m - 1), last, a.present, b.present);
        lemma_imports_in_agree(langs, cached, a, b, i, m - 1);
        if let Some(l) = language::lang_for(langs, c.0) {
            plugins::law_resolution_asks_only_probes(l, c.0, raw, a, b);
        }
    }
}

proof fn lemma_imports_upto_agree(
    langs: Seq<AnyLanguage>,
    cached: Seq<(Seq<char>, Seq<u8>, ExtractionView)>,
    a: FactsView,
    b: FactsView,
    n: int,
)
    requires
        n <= cached.len(),
        a.go_mod == b.go_mod,
        plugins::agree_on(probes_upto(langs, cached, n), a.present, b.present),
    ensures
        indexer::imports_upto(langs, cached, a, n) == indexer::imports_upto(langs, cached, b, n),
    decreases n,
{
    if n > 0 {
        let c = cached[n - 1];
        let m = c.2.imports.len() as int;
        plugins::lemma_agree_on_parts(
            probes_upto(langs, cached, n - 1),
            probes_in(langs, c, m),
            a.present,
            b.present,
        );
        lemma_imports_upto_agree(langs, cached, a, b, n - 1);
        lemma_imports_in_agree(langs, cached, a, b, n - 1, m);
    }
}

/// The edges of an index depend on the repository beside its sources by the
/// `go.mod` and by which of [`wanted_probes`] exist, and by nothing else.
pub proof fn law_index_asks_only_probes(
    langs: Seq<AnyLanguage>,
    cached: Seq<(Seq<char>, Seq<u8>, ExtractionView)>,
    a: FactsView,
    b: FactsView,
)
    requires
        a.go_mod == b.go_mod,
        plugins::agree_on(all_probes(langs, cached), a.present, b.present),
    ensures
        indexer::all_edges(langs, cached, a) == indexer::all_edges(langs, cached, b),
{
    lemma_imports_upto_agree(langs, cached, a, b, cached.len() as int);
}

} // verus!
