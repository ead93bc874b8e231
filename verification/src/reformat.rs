//! Comments and formatting cost nothing: an edit of those alone seeds no
//! definition, whatever the language.
use vstd::prelude::*;

use crate::classify;
use crate::classify::{ModeView, NewView, OldView, Seed};
use crate::diffdef;
use crate::gitio::ChangedView;
use crate::graph::Graph;
use crate::language;
use crate::language::{ExtractionView, Language};
use crate::plugins::AnyLanguage;
use crate::reformat_go;
use crate::reformat_java;
use crate::reformat_rust;
use crate::reformat_ts;
use crate::syntax::NodeView;

verus! {

/// Do the two files differ in comments and formatting alone, and does no
/// comment stand where the plugin would take it for something else?
pub open spec fn reformatted(lang: AnyLanguage, a: NodeView, b: NodeView) -> bool {
    match lang {
        AnyLanguage::Ts(_) => reformat_ts::is_clear_file(a) && reformat_ts::is_clear_file(b)
            && reformat_ts::same_code(a, b),
        AnyLanguage::Go(_) => reformat_go::is_clear_file(a) && reformat_go::is_clear_file(b)
            && reformat_go::same_code(a, b),
        AnyLanguage::Rust(_) => reformat_rust::is_clear_file(a) && reformat_rust::is_clear_file(b)
            && reformat_rust::same_code(a, b),
        AnyLanguage::Java(_) => reformat_java::is_clear_file(a) && reformat_java::is_clear_file(b)
            && reformat_java::same_code(a, b),
    }
}

/// An edit of comments and formatting alone changes no definition.
pub proof fn law_reformatting_changes_nothing(lang: AnyLanguage, a: NodeView, b: NodeView)
    requires
        reformatted(lang, a, b),
        lang.spec_extract(a).defs.len() <= usize::MAX,
    ensures
        diffdef::diff(lang.spec_extract(a).defs, lang.spec_extract(b).defs) == Seq::<
            diffdef::ChangeView,
        >::empty(),
{
    match lang {
        AnyLanguage::Ts(_) => reformat_ts::law_reformatting_changes_nothing(a, b),
        AnyLanguage::Go(_) => reformat_go::law_reformatting_changes_nothing(a, b),
        AnyLanguage::Rust(_) => reformat_rust::law_reformatting_changes_nothing(a, b),
        AnyLanguage::Java(_) => reformat_java::law_reformatting_changes_nothing(a, b),
    }
}

/// Is `c` an indexed file that was parsed before and after an edit of its
/// comments and formatting alone?
pub open spec fn is_reformat(
    g: Graph,
    langs: Seq<AnyLanguage>,
    c: ChangedView,
    a: NodeView,
    b: NodeView,
    sides: (OldView, NewView),
) -> bool {
    &&& c.status is Modified || c.status is Renamed
    &&& classify::config_in(c) is None
    &&& classify::file_at(g.files@, c.path) is Some
    &&& match language::lang_for(langs, c.path) {
        Some(lang) => {
            &&& reformatted(lang, a, b)
            &&& lang.spec_extract(a).defs.len() <= usize::MAX
            &&& sides == (
                OldView::Known(lang.spec_extract(a)),
                NewView::Known(lang.spec_extract(b)),
            )
        },
        None => false,
    }
}

/// Edits of comments and formatting alone, in any number of files, select
/// nothing. `olds` and `news` are the syntax trees of the files before and
/// after.
pub proof fn law_reformatting_selects_nothing(
    g: Graph,
    langs: Seq<AnyLanguage>,
    changed: Seq<ChangedView>,
    extractions: Seq<(Seq<char>, Seq<u8>, ExtractionView)>,
    olds: Seq<NodeView>,
    news: Seq<NodeView>,
    sides: Seq<(OldView, NewView)>,
)
    requires
        forall|i: int|
            0 <= i < changed.len() ==> is_reformat(
                g,
                langs,
                #[trigger] changed[i],
                olds[i],
                news[i],
                sides[i],
            ),
    ensures
        classify::mode(g, langs, changed, extractions, sides) == ModeView::Selection(
            Seq::<Seed>::empty(),
        ),
{
    lemma_no_config(g, langs, changed, olds, news, sides, changed.len() as int);
    assert(changed.take(changed.len() as int) =~= changed);
    lemma_no_seeds(g, langs, changed, olds, news, sides, changed.len() as int);
    let scans = Seq::<Seq<char>>::empty();
    classify::lemma_no_importers(g, extractions, scans, extractions.len() as int);
    assert(Seq::<Seed>::empty() + Seq::<Seed>::empty() =~= Seq::<Seed>::empty());
}

proof fn lemma_no_config(
    g: Graph,
    langs: Seq<AnyLanguage>,
    changed: Seq<ChangedView>,
    olds: Seq<NodeView>,
    news: Seq<NodeView>,
    sides: Seq<(OldView, NewView)>,
    k: int,
)
    requires
        0 <= k <= changed.len(),
        forall|i: int|
            0 <= i < changed.len() ==> is_reformat(
                g,
                langs,
                #[trigger] changed[i],
                olds[i],
                news[i],
                sides[i],
            ),
    ensures
        classify::first_config(changed.take(k)) is None,
    decreases k,
{
    if k > 0 {
        lemma_no_config(g, langs, changed, olds, news, sides, k - 1);
        assert(changed.take(k).drop_last() =~= changed.take(k - 1));
        assert(changed.take(k).last() == changed[k - 1]);
    }
}

proof fn lemma_no_seeds(
    g: Graph,
    langs: Seq<AnyLanguage>,
    changed: Seq<ChangedView>,
    olds: Seq<NodeView>,
    news: Seq<NodeView>,
    sides: Seq<(OldView, NewView)>,
    k: int,
)
    requires
        0 <= k <= changed.len(),
        forall|i: int|
            0 <= i < changed.len() ==> is_reformat(
                g,
                langs,
                #[trigger] changed[i],
                olds[i],
                news[i],
                sides[i],
            ),
    ensures
        classify::per_files(g, langs, changed, sides, k) == Ok::<
            (Seq<Seed>, Seq<Seq<char>>),
            Seq<char>,
        >((Seq::empty(), Seq::empty())),
    decreases k,
{
    if k > 0 {
        lemma_no_seeds(g, langs, changed, olds, news, sides, k - 1);
        let c = changed[k - 1];
        assert(is_reformat(g, langs, c, olds[k - 1], news[k - 1], sides[k - 1]));
        let lang = language::lang_for(langs, c.path).unwrap();
        law_reformatting_changes_nothing(lang, olds[k - 1], news[k - 1]);
        assert(Seq::<Seed>::empty() + Seq::<Seed>::empty() =~= Seq::<Seed>::empty());
    }
}

} // verus!
