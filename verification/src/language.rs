//! What every language plugin says of a source file, and the registry that
//! picks the plugin for a path.
use vstd::hash_set::StringHashSet;
use vstd::prelude::*;

use crate::fingerprint;
use crate::graph::DefKind;
use crate::paths;
use crate::syntax::{Grammar, NodeView, SyntaxNode};
use crate::text;
use crate::text::chars_of;

verus! {

/// An import, as it is written.
#[derive(Debug, Clone)]
pub struct ImportRef {
    pub raw: String,
    pub line: u32,
}

/// A definition as extracted, before it gets its place in a graph.
#[derive(Debug, Clone)]
pub struct ExtractedDef {
    pub name: String,
    pub kind: DefKind,
    pub start_line: u32,
    pub end_line: u32,
    pub test_id: Option<Vec<String>>,
    pub computed_name: bool,
    /// The position of the definition that contains this one.
    pub parent: Option<usize>,
    /// The fingerprint of the signature; for a module init, of the file's
    /// loose top-level code.
    pub sig_hash: [u8; 32],
    /// The fingerprint of the body, when there is one.
    pub body_hash: Option<[u8; 32]>,
}

/// A reference from a definition to a name.
#[derive(Debug, Clone, PartialEq, Eq)]
pub struct ExtractedRef {
    /// The position of the definition that refers.
    pub from_def: usize,
    pub name: String,
    /// The receiver or namespace that qualifies the name.
    pub qualifier: Option<String>,
    pub line: u32,
}

/// Everything extracted from one file.
#[derive(Debug, Clone)]
pub struct Extraction {
    pub defs: Vec<ExtractedDef>,
    pub imports: Vec<ImportRef>,
    /// The call sites.
    pub calls: Vec<ExtractedRef>,
    /// The references that are not calls.
    pub reads: Vec<ExtractedRef>,
}

/// What an [`ImportRef`] says.
pub struct ImportView {
    pub raw: Seq<char>,
    pub line: u32,
}

/// What an [`ExtractedDef`] says.
pub struct DefView {
    pub name: Seq<char>,
    pub kind: DefKind,
    pub start_line: u32,
    pub end_line: u32,
    pub test_id: Option<Seq<Seq<char>>>,
    pub computed_name: bool,
    pub parent: Option<usize>,
    pub sig_hash: Seq<u8>,
    pub body_hash: Option<Seq<u8>>,
}

/// What an [`ExtractedRef`] says.
pub struct RefView {
    pub from_def: usize,
    pub name: Seq<char>,
    pub qualifier: Option<Seq<char>>,
    pub line: u32,
}

/// What an [`Extraction`] says.
pub struct ExtractionView {
    pub defs: Seq<DefView>,
    pub imports: Seq<ImportView>,
    pub calls: Seq<RefView>,
    pub reads: Seq<RefView>,
}

/// What a test's chain of names says.
pub open spec fn chain_view(o: Option<Vec<String>>) -> Option<Seq<Seq<char>>> {
    match o {
        Some(v) => Some(text::views(v@)),
        None => None,
    }
}

impl View for ImportRef {
    type V = ImportView;

    open spec fn view(&self) -> ImportView {
        ImportView { raw: self.raw@, line: self.line }
    }
}

impl View for ExtractedDef {
    type V = DefView;

    open spec fn view(&self) -> DefView {
        DefView {
            name: self.name@,
            kind: self.kind,
            start_line: self.start_line,
            end_line: self.end_line,
            test_id: chain_view(self.test_id),
            computed_name: self.computed_name,
            parent: self.parent,
            sig_hash: self.sig_hash@,
            body_hash: fingerprint::hash_view(self.body_hash),
        }
    }
}

impl View for ExtractedRef {
    type V = RefView;

    open spec fn view(&self) -> RefView {
        RefView {
            from_def: self.from_def,
            name: self.name@,
            qualifier: text::opt_view(self.qualifier),
            line: self.line,
        }
    }
}

impl View for Extraction {
    type V = ExtractionView;

    open spec fn view(&self) -> ExtractionView {
        ExtractionView {
            defs: def_views(self.defs@),
            imports: import_views(self.imports@),
            calls: ref_views(self.calls@),
            reads: ref_views(self.reads@),
        }
    }
}

pub open spec fn def_views(v: Seq<ExtractedDef>) -> Seq<DefView> {
    v.map_values(|d: ExtractedDef| d@)
}

pub open spec fn import_views(v: Seq<ImportRef>) -> Seq<ImportView> {
    v.map_values(|d: ImportRef| d@)
}

pub open spec fn ref_views(v: Seq<ExtractedRef>) -> Seq<RefView> {
    v.map_values(|d: ExtractedRef| d@)
}

impl ExtractionView {
    /// Parents and references name definitions of the same extraction.
    pub open spec fn wf(&self) -> bool {
        &&& forall|i: int|
            0 <= i < self.defs.len() ==> ((#[trigger] self.defs[i]).parent matches Some(p) ==> p
                < self.defs.len())
        &&& forall|i: int|
            0 <= i < self.calls.len() ==> (#[trigger] self.calls[i]).from_def < self.defs.len()
        &&& forall|i: int|
            0 <= i < self.reads.len() ==> (#[trigger] self.reads[i]).from_def < self.defs.len()
    }
}

/// A copy of a test's chain of names.
pub fn copy_chain(o: &Option<Vec<String>>) -> (r: Option<Vec<String>>)
    ensures
        chain_view(r) == chain_view(*o),
{
    match o {
        Some(v) => Some(text::copy_all(v)),
        None => None,
    }
}

fn copy_def(d: &ExtractedDef) -> (r: ExtractedDef)
    ensures
        r@ == d@,
{
    ExtractedDef {
        name: d.name.clone(),
        kind: d.kind,
        start_line: d.start_line,
        end_line: d.end_line,
        test_id: copy_chain(&d.test_id),
        computed_name: d.computed_name,
        parent: d.parent,
        sig_hash: d.sig_hash,
        body_hash: d.body_hash,
    }
}

fn copy_refs(refs: &Vec<ExtractedRef>) -> (r: Vec<ExtractedRef>)
    ensures
        ref_views(r@) == ref_views(refs@),
{
    let mut out: Vec<ExtractedRef> = Vec::new();
    let mut i: usize = 0;
    while i < refs.len()
        invariant
            i <= refs@.len(),
            ref_views(out@) == ref_views(refs@).take(i as int),
        decreases refs@.len() - i,
    {
        let x = &refs[i];
        let c = ExtractedRef {
            from_def: x.from_def,
            name: x.name.clone(),
            qualifier: text::copy_opt(&x.qualifier),
            line: x.line,
        };
        let ghost was = out@;
        out.push(c);
        assert(ref_views(out@) =~= ref_views(was).push(c@));
        assert(ref_views(refs@).take(i + 1) =~= ref_views(refs@).take(i as int).push(c@));
        i = i + 1;
    }
    assert(ref_views(refs@).take(refs@.len() as int) =~= ref_views(refs@));
    out
}

/// A copy of an extraction.
pub fn copy_extraction(e: &Extraction) -> (r: Extraction)
    ensures
        r@ == e@,
{
    let mut defs: Vec<ExtractedDef> = Vec::new();
    let mut i: usize = 0;
    while i < e.defs.len()
        invariant
            i <= e.defs@.len(),
            def_views(defs@) == def_views(e.defs@).take(i as int),
        decreases e.defs@.len() - i,
    {
        let c = copy_def(&e.defs[i]);
        let ghost was = defs@;
        defs.push(c);
        assert(def_views(defs@) =~= def_views(was).push(c@));
        assert(def_views(e.defs@).take(i + 1) =~= def_views(e.defs@).take(i as int).push(c@));
        i = i + 1;
    }
    assert(def_views(e.defs@).take(e.defs@.len() as int) =~= def_views(e.defs@));
    let mut imports: Vec<ImportRef> = Vec::new();
    i = 0;
    while i < e.imports.len()
        invariant
            i <= e.imports@.len(),
            import_views(imports@) == import_views(e.imports@).take(i as int),
        decreases e.imports@.len() - i,
    {
        let c = ImportRef { raw: e.imports[i].raw.clone(), line: e.imports[i].line };
        let ghost was = imports@;
        imports.push(c);
        assert(import_views(imports@) =~= import_views(was).push(c@));
        assert(import_views(e.imports@).take(i + 1) =~= import_views(e.imports@).take(
            i as int,
        ).push(c@));
        i = i + 1;
    }
    assert(import_views(e.imports@).take(e.imports@.len() as int) =~= import_views(e.imports@));
    Extraction { defs, imports, calls: copy_refs(&e.calls), reads: copy_refs(&e.reads) }
}

/// Do all references come from one of `n` definitions?
fn refs_within(refs: &Vec<ExtractedRef>, n: usize) -> (r: bool)
    ensures
        r <==> forall|i: int| 0 <= i < refs@.len() ==> (#[trigger] refs@[i]).from_def < n,
{
    let mut i: usize = 0;
    while i < refs.len()
        invariant
            i <= refs@.len(),
            forall|j: int| 0 <= j < i ==> (#[trigger] refs@[j]).from_def < n,
        decreases refs@.len() - i,
    {
        if refs[i].from_def >= n {
            return false;
        }
        i = i + 1;
    }
    true
}

impl Extraction {
    /// Do parents and references name definitions of this extraction? One
    /// that was read back from disk may not be trusted to.
    pub fn is_wf(&self) -> (r: bool)
        ensures
            r == self@.wf(),
    {
        let n: usize = self.defs.len();
        let mut i: usize = 0;
        while i < n
            invariant
                i <= n == self.defs@.len(),
                forall|j: int|
                    0 <= j < i ==> ((#[trigger] self@.defs[j]).parent matches Some(p) ==> p < n),
            decreases n - i,
        {
            assert(self@.defs[i as int] == self.defs@[i as int]@);
            if let Some(p) = self.defs[i].parent {
                if p >= n {
                    return false;
                }
            }
            i = i + 1;
        }
        let calls = refs_within(&self.calls, n);
        let reads = refs_within(&self.reads, n);
        proof {
            assert forall|i: int| 0 <= i < self.calls@.len() implies (
            #[trigger] self@.calls[i]).from_def == self.calls@[i].from_def by {}
            assert forall|i: int| 0 <= i < self.reads@.len() implies (
            #[trigger] self@.reads[i]).from_def == self.reads@[i].from_def by {}
            if !calls {
                let i = choose|i: int|
                    0 <= i < self.calls@.len() && (#[trigger] self.calls@[i]).from_def >= n;
                assert(self@.calls[i].from_def >= n);
            }
            if !reads {
                let i = choose|i: int|
                    0 <= i < self.reads@.len() && (#[trigger] self.reads@[i]).from_def >= n;
                assert(self@.reads[i].from_def >= n);
            }
        }
        calls && reads
    }
}

/// What import resolution knows of the repository: which of the paths that
/// it asks about exist, and what the root's `go.mod` holds.
pub struct RepoFacts {
    pub present: StringHashSet,
    pub go_mod: Option<String>,
}

/// What [`RepoFacts`] say.
pub struct FactsView {
    pub present: Set<Seq<char>>,
    pub go_mod: Option<Seq<char>>,
}

impl View for RepoFacts {
    type V = FactsView;

    open spec fn view(&self) -> FactsView {
        FactsView { present: self.present@, go_mod: text::opt_view(self.go_mod) }
    }
}

impl RepoFacts {
    /// Nothing exists yet.
    pub fn new(go_mod: Option<String>) -> (r: RepoFacts)
        ensures
            r@.present == Set::<Seq<char>>::empty(),
            r@.go_mod == text::opt_view(go_mod),
    {
        RepoFacts { present: StringHashSet::new(), go_mod }
    }

    /// Notes that `path` exists.
    pub fn note(&mut self, path: &str)
        ensures
            final(self)@.present == old(self)@.present.insert(path@),
            final(self)@.go_mod == old(self)@.go_mod,
    {
        self.present.insert(path.to_owned());
    }

    /// Does `path` exist?
    pub fn has(&self, path: &str) -> (r: bool)
        ensures
            r == self@.present.contains(path@),
    {
        self.present.contains(path)
    }
}

/// The first of `candidates` that exists.
pub open spec fn first_present(candidates: Seq<Seq<char>>, present: Set<Seq<char>>) -> Option<
    Seq<char>,
>
    decreases candidates.len(),
{
    if candidates.len() == 0 {
        None
    } else {
        match first_present(candidates.drop_last(), present) {
            Some(c) => Some(c),
            None => if present.contains(candidates.last()) {
                Some(candidates.last())
            } else {
                None
            },
        }
    }
}

proof fn lemma_first_present_prefix(
    candidates: Seq<Seq<char>>,
    present: Set<Seq<char>>,
    k: int,
)
    requires
        0 <= k <= candidates.len(),
        first_present(candidates.take(k), present) is Some,
    ensures
        first_present(candidates, present) == first_present(candidates.take(k), present),
    decreases candidates.len(),
{
    if k < candidates.len() {
        assert(candidates.drop_last().take(k) =~= candidates.take(k));
        lemma_first_present_prefix(candidates.drop_last(), present, k);
    } else {
        assert(candidates.take(k) =~= candidates);
    }
}

/// The first of `candidates` that exists.
pub fn pick_present(candidates: &Vec<String>, repo: &RepoFacts) -> (r: Option<String>)
    ensures
        text::opt_view(r) == first_present(text::views(candidates@), repo@.present),
{
    let ghost all = text::views(candidates@);
    let mut i: usize = 0;
    assert(all.take(0) =~= Seq::empty());
    while i < candidates.len()
        invariant
            i <= candidates@.len() == all.len(),
            all == text::views(candidates@),
            first_present(all.take(i as int), repo@.present) is None,
        decreases candidates@.len() - i,
    {
        assert(all.take(i + 1).drop_last() =~= all.take(i as int));
        if repo.has(candidates[i].as_str()) {
            proof {
                lemma_first_present_prefix(all, repo@.present, i + 1);
            }
            return Some(candidates[i].clone());
        }
        i = i + 1;
    }
    assert(all.take(all.len() as int) =~= all);
    None
}

/// What is picked depends on no path that is no candidate.
pub proof fn lemma_first_present_local(
    candidates: Seq<Seq<char>>,
    a: Set<Seq<char>>,
    b: Set<Seq<char>>,
)
    requires
        forall|i: int|
            0 <= i < candidates.len() ==> a.contains(#[trigger] candidates[i]) == b.contains(
                candidates[i],
            ),
    ensures
        first_present(candidates, a) == first_present(candidates, b),
    decreases candidates.len(),
{
    if candidates.len() > 0 {
        let rest = candidates.drop_last();
        assert forall|i: int| 0 <= i < rest.len() implies a.contains(#[trigger] rest[i])
            == b.contains(rest[i]) by {
            assert(rest[i] == candidates[i]);
        }
        lemma_first_present_local(rest, a, b);
        assert(candidates[candidates.len() - 1] == candidates.last());
    }
}

/// A language plugin.
///
/// A plugin says what each of its methods returns in the spec function of the
/// same name and is proved against it. Of the default that a spec function has
/// nothing is known, so nothing can be proved against it either: it is there for
/// plugins outside of verified code.
pub trait Language {
    /// What [`Language::id`] returns.
    open spec fn spec_id(&self) -> Seq<char> {
        arbitrary()
    }

    /// What [`Language::extensions`] returns.
    open spec fn spec_extensions(&self) -> Seq<Seq<char>> {
        arbitrary()
    }

    /// What [`Language::grammar`] returns.
    open spec fn spec_grammar(&self, path: Seq<char>) -> Grammar {
        arbitrary()
    }

    /// What [`Language::extract`] returns.
    open spec fn spec_extract(&self, tree: NodeView) -> ExtractionView {
        arbitrary()
    }

    /// What [`Language::import_probes`] returns.
    open spec fn spec_probes(&self, from_file: Seq<char>, raw: Seq<char>) -> Seq<Seq<char>> {
        arbitrary()
    }

    /// What [`Language::resolve_import`] returns.
    open spec fn spec_resolve(
        &self,
        from_file: Seq<char>,
        raw: Seq<char>,
        repo: FactsView,
    ) -> Option<Seq<char>> {
        arbitrary()
    }

    /// What [`Language::package_key`] returns.
    open spec fn spec_package_key(&self, file: Seq<char>) -> Option<Seq<char>> {
        arbitrary()
    }

    /// A short name: `ts`, `go`.
    fn id(&self) -> (r: String)
        ensures
            r@ == self.spec_id(),
    ;

    /// The file extensions of the language.
    fn extensions(&self) -> (r: Vec<String>)
        ensures
            text::views(r@) == self.spec_extensions(),
    ;

    /// The grammar that parses `path`.
    fn grammar(&self, path: &str) -> (r: Grammar)
        ensures
            r == self.spec_grammar(path@),
    ;

    /// The definitions, imports and references of a parsed file.
    fn extract(&self, tree: &SyntaxNode) -> (r: Extraction)
        ensures
            r@ == self.spec_extract(tree@),
            r@.wf(),
    ;

    /// The paths whose existence decides what `raw` resolves to.
    fn import_probes(&self, from_file: &str, raw: &str) -> (r: Vec<String>)
        ensures
            text::views(r@) == self.spec_probes(from_file@, raw@),
    ;

    /// The repo-relative path that an import written as `raw` in `from_file`
    /// names, when it names one in the repository.
    fn resolve_import(&self, from_file: &str, raw: &str, repo: &RepoFacts) -> (r: Option<String>)
        ensures
            text::opt_view(r) == self.spec_resolve(from_file@, raw@, repo@),
    ;

    /// The package of `file`, for languages where files of one package see
    /// each other's definitions with no import. Keys are compared between
    /// files of the same language only.
    fn package_key(&self, file: &str) -> (r: Option<String>)
        ensures
            text::opt_view(r) == self.spec_package_key(file@),
    ;
}

/// Are the two characters the same but for ASCII case?
pub open spec fn same_letter(a: char, b: char) -> bool {
    ||| a == b
    ||| ('A' <= a <= 'Z' && b as u32 == a as u32 + 32)
    ||| ('A' <= b <= 'Z' && a as u32 == b as u32 + 32)
}

/// Are the two texts the same but for ASCII case?
pub open spec fn same_ignoring_case(a: Seq<char>, b: Seq<char>) -> bool {
    a.len() == b.len() && forall|i: int| 0 <= i < a.len() ==> same_letter(#[trigger] a[i], b[i])
}

/// Are the two texts the same but for ASCII case?
pub fn eq_ignoring_case(a: &str, b: &str) -> (r: bool)
    ensures
        r == same_ignoring_case(a@, b@),
{
    let ac = chars_of(a);
    let bc = chars_of(b);
    if ac.len() != bc.len() {
        return false;
    }
    let mut i: usize = 0;
    while i < ac.len()
        invariant
            i <= ac@.len() == bc@.len(),
            ac@ == a@,
            bc@ == b@,
            forall|j: int| 0 <= j < i ==> same_letter(#[trigger] a@[j], b@[j]),
        decreases ac@.len() - i,
    {
        let x = ac[i];
        let y = bc[i];
        let alike: bool = x == y || ('A' <= x && x <= 'Z' && y as u32 == x as u32 + 32) || ('A' <= y
            && y <= 'Z' && x as u32 == y as u32 + 32);
        assert(alike == same_letter(a@[i as int], b@[i as int]));
        if !alike {
            return false;
        }
        i = i + 1;
    }
    true
}

/// Does one of `extensions` match `ext`, whatever its case?
pub open spec fn extension_matches(extensions: Seq<Seq<char>>, ext: Seq<char>) -> bool {
    exists|i: int| 0 <= i < extensions.len() && same_ignoring_case(#[trigger] extensions[i], ext)
}

/// Does `lang` take files at `path`?
pub open spec fn takes<L: Language>(lang: L, path: Seq<char>) -> bool {
    match paths::extension_of(path) {
        Some(ext) => extension_matches(lang.spec_extensions(), ext),
        None => false,
    }
}

/// The first of `langs` that takes files at `path`.
pub open spec fn lang_for<L: Language>(langs: Seq<L>, path: Seq<char>) -> Option<L>
    decreases langs.len(),
{
    if langs.len() == 0 {
        None
    } else {
        match lang_for(langs.drop_last(), path) {
            Some(l) => Some(l),
            None => if takes(langs.last(), path) {
                Some(langs.last())
            } else {
                None
            },
        }
    }
}

/// The registered plugins, in the order in which they are asked.
pub struct Registry<L: Language> {
    pub langs: Vec<L>,
}

impl<L: Language> Registry<L> {
    pub fn new(langs: Vec<L>) -> (r: Self)
        ensures
            r.langs == langs,
    {
        Registry { langs }
    }

    /// The first plugin that takes files at `path`.
    pub fn for_path(&self, path: &str) -> (r: Option<&L>)
        ensures
            match r {
                Some(l) => lang_for(self.langs@, path@) == Some(*l),
                None => lang_for(self.langs@, path@) is None,
            },
    {
        let ext = match paths::extension(path) {
            Some(e) => e,
            None => {
                proof {
                    lemma_no_extension(self.langs@, path@);
                }
                return None;
            },
        };
        let mut i: usize = 0;
        while i < self.langs.len()
            invariant
                i <= self.langs@.len(),
                Some(ext@) == paths::extension_of(path@),
                lang_for(self.langs@.take(i as int), path@) is None,
            decreases self.langs@.len() - i,
        {
            let exts = self.langs[i].extensions();
            let mut hit: bool = false;
            let mut k: usize = 0;
            while k < exts.len()
                invariant
                    k <= exts@.len(),
                    text::views(exts@) == self.langs@[i as int].spec_extensions(),
                    hit <==> exists|j: int|
                        0 <= j < k && same_ignoring_case(#[trigger] text::views(exts@)[j], ext@),
                decreases exts@.len() - k,
            {
                if eq_ignoring_case(exts[k].as_str(), ext.as_str()) {
                    assert(same_ignoring_case(text::views(exts@)[k as int], ext@));
                    hit = true;
                }
                k = k + 1;
            }
            proof {
                let upto = self.langs@.take(i + 1);
                assert(upto.drop_last() =~= self.langs@.take(i as int));
                assert(upto.last() == self.langs@[i as int]);
                assert(hit == takes(self.langs@[i as int], path@));
                if hit {
                    lemma_lang_for_prefix(self.langs@, i + 1, path@);
                }
            }
            if hit {
                return Some(&self.langs[i]);
            }
            i = i + 1;
        }
        assert(self.langs@.take(self.langs@.len() as int) =~= self.langs@);
        None
    }
}

proof fn lemma_no_extension<L: Language>(langs: Seq<L>, path: Seq<char>)
    requires
        paths::extension_of(path) is None,
    ensures
        lang_for(langs, path) is None,
    decreases langs.len(),
{
    if langs.len() > 0 {
        lemma_no_extension(langs.drop_last(), path);
    }
}

proof fn lemma_lang_for_prefix<L: Language>(langs: Seq<L>, k: int, path: Seq<char>)
    requires
        0 <= k <= langs.len(),
        lang_for(langs.take(k), path) is Some,
    ensures
        lang_for(langs, path) == lang_for(langs.take(k), path),
    decreases langs.len(),
{
    if k < langs.len() {
        assert(langs.drop_last().take(k) =~= langs.take(k));
        lemma_lang_for_prefix(langs.drop_last(), k, path);
    } else {
        assert(langs.take(k) =~= langs);
    }
}

} // verus!
