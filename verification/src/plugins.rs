//! The plugins of all languages, as one type that a registry can hold.
use vstd::prelude::*;

use crate::lang_go::GoLanguage;
use crate::lang_java::JavaLanguage;
use crate::lang_rust;
use crate::lang_rust::RustLanguage;
use crate::lang_ts::TsLanguage;
use crate::language;
use crate::language::{Extraction, ExtractionView, FactsView, Language, Registry, RepoFacts};
use crate::paths;
use crate::syntax::{Grammar, NodeView, SyntaxNode};

verus! {

/// Any of the languages.
pub enum AnyLanguage {
    Ts(TsLanguage),
    Go(GoLanguage),
    Rust(RustLanguage),
    Java(JavaLanguage),
}

impl Language for AnyLanguage {
    open spec fn spec_id(&self) -> Seq<char> {
        match self {
            AnyLanguage::Ts(l) => l.spec_id(),
            AnyLanguage::Go(l) => l.spec_id(),
            AnyLanguage::Rust(l) => l.spec_id(),
            AnyLanguage::Java(l) => l.spec_id(),
        }
    }

    open spec fn spec_extensions(&self) -> Seq<Seq<char>> {
        match self {
            AnyLanguage::Ts(l) => l.spec_extensions(),
            AnyLanguage::Go(l) => l.spec_extensions(),
            AnyLanguage::Rust(l) => l.spec_extensions(),
            AnyLanguage::Java(l) => l.spec_extensions(),
        }
    }

    open spec fn spec_grammar(&self, path: Seq<char>) -> Grammar {
        match self {
            AnyLanguage::Ts(l) => l.spec_grammar(path),
            AnyLanguage::Go(l) => l.spec_grammar(path),
            AnyLanguage::Rust(l) => l.spec_grammar(path),
            AnyLanguage::Java(l) => l.spec_grammar(path),
        }
    }

    open spec fn spec_extract(&self, tree: NodeView) -> ExtractionView {
        match self {
            AnyLanguage::Ts(l) => l.spec_extract(tree),
            AnyLanguage::Go(l) => l.spec_extract(tree),
            AnyLanguage::Rust(l) => l.spec_extract(tree),
            AnyLanguage::Java(l) => l.spec_extract(tree),
        }
    }

    open spec fn spec_probes(&self, from_file: Seq<char>, raw: Seq<char>) -> Seq<Seq<char>> {
        match self {
            AnyLanguage::Ts(l) => l.spec_probes(from_file, raw),
            AnyLanguage::Go(l) => l.spec_probes(from_file, raw),
            AnyLanguage::Rust(l) => l.spec_probes(from_file, raw),
            AnyLanguage::Java(l) => l.spec_probes(from_file, raw),
        }
    }

    open spec fn spec_resolve(&self, from_file: Seq<char>, raw: Seq<char>, repo: FactsView) -> Option<Seq<char>> {
        match self {
            AnyLanguage::Ts(l) => l.spec_resolve(from_file, raw, repo),
            AnyLanguage::Go(l) => l.spec_resolve(from_file, raw, repo),
            AnyLanguage::Rust(l) => l.spec_resolve(from_file, raw, repo),
            AnyLanguage::Java(l) => l.spec_resolve(from_file, raw, repo),
        }
    }

    open spec fn spec_package_key(&self, file: Seq<char>) -> Option<Seq<char>> {
        match self {
            AnyLanguage::Ts(l) => l.spec_package_key(file),
            AnyLanguage::Go(l) => l.spec_package_key(file),
            AnyLanguage::Rust(l) => l.spec_package_key(file),
            AnyLanguage::Java(l) => l.spec_package_key(file),
        }
    }

    fn id(&self) -> (r: String) {
        match self {
            AnyLanguage::Ts(l) => l.id(),
            AnyLanguage::Go(l) => l.id(),
            AnyLanguage::Rust(l) => l.id(),
            AnyLanguage::Java(l) => l.id(),
        }
    }

    fn extensions(&self) -> (r: Vec<String>) {
        match self {
            AnyLanguage::Ts(l) => l.extensions(),
            AnyLanguage::Go(l) => l.extensions(),
            AnyLanguage::Rust(l) => l.extensions(),
            AnyLanguage::Java(l) => l.extensions(),
        }
    }

    fn grammar(&self, path: &str) -> (r: Grammar) {
        match self {
            AnyLanguage::Ts(l) => l.grammar(path),
            AnyLanguage::Go(l) => l.grammar(path),
            AnyLanguage::Rust(l) => l.grammar(path),
            AnyLanguage::Java(l) => l.grammar(path),
        }
    }

    fn extract(&self, tree: &SyntaxNode) -> (r: Extraction) {
        match self {
            AnyLanguage::Ts(l) => l.extract(tree),
            AnyLanguage::Go(l) => l.extract(tree),
            AnyLanguage::Rust(l) => l.extract(tree),
            AnyLanguage::Java(l) => l.extract(tree),
        }
    }

    fn import_probes(&self, from_file: &str, raw: &str) -> (r: Vec<String>) {
        match self {
            AnyLanguage::Ts(l) => l.import_probes(from_file, raw),
            AnyLanguage::Go(l) => l.import_probes(from_file, raw),
            AnyLanguage::Rust(l) => l.import_probes(from_file, raw),
            AnyLanguage::Java(l) => l.import_probes(from_file, raw),
        }
    }

    fn resolve_import(&self, from_file: &str, raw: &str, repo: &RepoFacts) -> (r: Option<String>) {
        match self {
            AnyLanguage::Ts(l) => l.resolve_import(from_file, raw, repo),
            AnyLanguage::Go(l) => l.resolve_import(from_file, raw, repo),
            AnyLanguage::Rust(l) => l.resolve_import(from_file, raw, repo),
            AnyLanguage::Java(l) => l.resolve_import(from_file, raw, repo),
        }
    }

    fn package_key(&self, file: &str) -> (r: Option<String>) {
        match self {
            AnyLanguage::Ts(l) => l.package_key(file),
            AnyLanguage::Go(l) => l.package_key(file),
            AnyLanguage::Rust(l) => l.package_key(file),
            AnyLanguage::Java(l) => l.package_key(file),
        }
    }
}

/// The languages that a repository is indexed for. Java is not among them:
/// whoever registers it has to give it the index of the repository.
pub fn registry() -> (r: Registry<AnyLanguage>)
    ensures
        r.langs@.len() == 3,
        r.langs@[0] is Ts,
        r.langs@[1] is Go,
        r.langs@[2] is Rust,
{
    let mut langs: Vec<AnyLanguage> = Vec::new();
    langs.push(AnyLanguage::Ts(TsLanguage));
    langs.push(AnyLanguage::Go(GoLanguage));
    langs.push(AnyLanguage::Rust(RustLanguage));
    Registry::new(langs)
}

/// Do the two sets agree on all of `paths`?
pub open spec fn agree_on(paths: Seq<Seq<char>>, a: Set<Seq<char>>, b: Set<Seq<char>>) -> bool {
    forall|i: int|
        0 <= i < paths.len() ==> a.contains(#[trigger] paths[i]) == b.contains(paths[i])
}

pub proof fn lemma_agree_on_parts(
    x: Seq<Seq<char>>,
    y: Seq<Seq<char>>,
    a: Set<Seq<char>>,
    b: Set<Seq<char>>,
)
    requires
        agree_on(x + y, a, b),
    ensures
        agree_on(x, a, b),
        agree_on(y, a, b),
{
    assert forall|i: int| 0 <= i < x.len() implies a.contains(#[trigger] x[i]) == b.contains(
        x[i],
    ) by {
        assert((x + y)[i] == x[i]);
    }
    assert forall|i: int| 0 <= i < y.len() implies a.contains(#[trigger] y[i]) == b.contains(
        y[i],
    ) by {
        assert((x + y)[x.len() + i] == y[i]);
    }
}

proof fn lemma_crate_resolution_local(
    parts: Seq<Seq<char>>,
    segs: Seq<Seq<char>>,
    a: Set<Seq<char>>,
    b: Set<Seq<char>>,
)
    requires
        agree_on(lang_rust::crate_probes(parts, segs), a, b),
    ensures
        lang_rust::crate_root(parts, a) == lang_rust::crate_root(parts, b),
        lang_rust::crate_root(parts, a) matches Some(root) ==> agree_on(
            lang_rust::segment_candidates(root, segs),
            a,
            b,
        ),
    decreases parts.len(),
{
    let dir = paths::render(parts);
    let marks = seq![paths::joined(dir, "lib.rs"@), paths::joined(dir, "main.rs"@)];
    let files = lang_rust::segment_candidates(dir, segs);
    let own = marks + files;
    if parts.len() == 0 || parts.last() == "/"@ {
        lemma_agree_on_parts(marks, files, a, b);
    } else {
        let rest = lang_rust::crate_probes(parts.drop_last(), segs);
        lemma_agree_on_parts(own, rest, a, b);
        lemma_agree_on_parts(marks, files, a, b);
        lemma_crate_resolution_local(parts.drop_last(), segs, a, b);
    }
    assert(a.contains(marks[0]) == b.contains(marks[0]));
    assert(a.contains(marks[1]) == b.contains(marks[1]));
}

/// What an import resolves to depends on the module's `go.mod` and on which
/// of the paths that the plugin asks about exist, and on nothing else in the
/// repository.
pub proof fn law_resolution_asks_only_probes(
    lang: AnyLanguage,
    from_file: Seq<char>,
    raw: Seq<char>,
    a: FactsView,
    b: FactsView,
)
    requires
        a.go_mod == b.go_mod,
        agree_on(lang.spec_probes(from_file, raw), a.present, b.present),
    ensures
        lang.spec_resolve(from_file, raw, a) == lang.spec_resolve(from_file, raw, b),
{
    match lang {
        AnyLanguage::Ts(l) => {
            language::lemma_first_present_local(
                l.spec_probes(from_file, raw),
                a.present,
                b.present,
            );
        },
        AnyLanguage::Go(l) => {},
        AnyLanguage::Java(l) => {},
        AnyLanguage::Rust(l) => {
            match crate::text::without_prefix(raw, "mod "@) {
                Some(name) => {
                    language::lemma_first_present_local(
                        lang_rust::mod_candidates(from_file, name),
                        a.present,
                        b.present,
                    );
                },
                None => {
                    if let Some(path) = crate::text::without_prefix(raw, "use "@) {
                        let segs = lang_rust::use_segments(path);
                        let dir = paths::directory_of(from_file);
                        let rest = segs.skip(1);
                        if segs[0] == "crate"@ {
                            let parts = paths::components(dir);
                            lemma_crate_resolution_local(parts, rest, a.present, b.present);
                            if let Some(root) = lang_rust::crate_root(parts, a.present) {
                                language::lemma_first_present_local(
                                    lang_rust::segment_candidates(root, rest),
                                    a.present,
                                    b.present,
                                );
                            }
                        } else if segs[0] == "super"@ || segs[0] == "self"@ {
                            language::lemma_first_present_local(
                                lang_rust::segment_candidates(dir, rest),
                                a.present,
                                b.present,
                            );
                        }
                    }
                },
            }
        },
    }
}

/// A file is of the language that its extension says, in whatever case that
/// is written and wherever the file stands.
pub proof fn law_extensions_tell_languages(
    ts: TsLanguage,
    go: GoLanguage,
    rust: RustLanguage,
    java: JavaLanguage,
    dir: Seq<char>,
    stem: Seq<char>,
    ext: Seq<char>,
)
    requires
        stem.len() > 0,
        !stem.contains('/'),
        !ext.contains('/'),
        !ext.contains('.'),
        paths::is_file_name(stem + seq!['.'] + ext),
    ensures
        ({
            let path = dir + seq!['/'] + (stem + seq!['.'] + ext);
            &&& language::takes(AnyLanguage::Ts(ts), path) <==> language::same_ignoring_case(
                "ts"@,
                ext,
            ) || language::same_ignoring_case("tsx"@, ext) || language::same_ignoring_case(
                "js"@,
                ext,
            ) || language::same_ignoring_case("jsx"@, ext) || language::same_ignoring_case(
                "mts"@,
                ext,
            ) || language::same_ignoring_case("cts"@, ext)
            &&& language::takes(AnyLanguage::Go(go), path) <==> language::same_ignoring_case(
                "go"@,
                ext,
            )
            &&& language::takes(AnyLanguage::Rust(rust), path) <==> language::same_ignoring_case(
                "rs"@,
                ext,
            )
            &&& language::takes(AnyLanguage::Java(java), path) <==> language::same_ignoring_case(
                "java"@,
                ext,
            )
            &&& AnyLanguage::Ts(ts).spec_grammar(path) == (if ext == "tsx"@ || ext == "jsx"@ {
                Grammar::Tsx
            } else {
                Grammar::TypeScript
            })
        }),
{
    let path = dir + seq!['/'] + (stem + seq!['.'] + ext);
    paths::law_files_have_extensions(dir, stem, ext);
    let all = AnyLanguage::Ts(ts).spec_extensions();
    assert(all[0] == "ts"@ && all[1] == "tsx"@ && all[2] == "js"@);
    assert(all[3] == "jsx"@ && all[4] == "mts"@ && all[5] == "cts"@);
    assert(all.len() == 6);
    assert(AnyLanguage::Go(go).spec_extensions()[0] == "go"@);
    assert(AnyLanguage::Rust(rust).spec_extensions()[0] == "rs"@);
    assert(AnyLanguage::Java(java).spec_extensions()[0] == "java"@);
}

/// Letters differ from no other in more than case.
pub proof fn law_case_is_nothing(lower: char, upper: char, other: char)
    requires
        'a' <= lower <= 'z',
        upper as u32 + 32 == lower as u32,
    ensures
        language::same_letter(lower, upper),
        language::same_letter(upper, lower),
        language::same_letter(lower, lower),
        other != lower && other != upper ==> !language::same_letter(lower, other)
            && !language::same_letter(upper, other),
{
}

} // verus!
