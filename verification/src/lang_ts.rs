//! The TypeScript and JavaScript plugin: functions, classes with their
//! methods, `describe`/`it`/`test` calls, and relative imports.
use vstd::hash_set::StringHashSet;
use vstd::prelude::*;

use crate::draft;
use crate::draft::{dedup_refs, Draft, DraftView, Refs, RefsView};
use crate::graph::DefKind;
use crate::language;
use crate::language::{
    DefView, ExtractedDef, Extraction, ExtractionView, FactsView, ImportRef, ImportView, Language,
    RepoFacts,
};
use crate::paths;
use crate::paths::{directory, extension, join_path, parts_of, render_parts};
use crate::syntax;
use crate::syntax::{line, Grammar, NodeView, SyntaxNode};
use crate::text;
use crate::text::{begins, cat, cut_suffix, ends, same};

verus! {

/// TypeScript and JavaScript.
pub struct TsLanguage;

/// Is this node the value of a function that a variable holds?
pub open spec fn is_function_value(n: NodeView) -> bool {
    n.kind == "arrow_function"@ || n.kind == "function_expression"@
}

/// Does this declarator declare a function?
pub open spec fn declares_function(n: NodeView) -> bool {
    &&& n.kind == "variable_declarator"@
    &&& match syntax::field_of(n, "value"@) {
        Some(value) => is_function_value(value),
        None => false,
    }
    &&& syntax::field_of(n, "name"@) is Some
}

/// Does this node declare variables?
pub open spec fn declares_variables(kind: Seq<char>) -> bool {
    kind == "lexical_declaration"@ || kind == "variable_declaration"@
}

/// What is found when the functions that the declarators `ns` of the
/// declaration `decl` hold are added.
pub open spec fn with_declarators(ns: Seq<NodeView>, decl: NodeView, d: DraftView) -> DraftView
    decreases ns.len(),
{
    if ns.len() == 0 {
        d
    } else {
        let before = with_declarators(ns.drop_last(), decl, d);
        let n = ns.last();
        if declares_function(n) {
            match (syntax::field_of(n, "value"@), syntax::field_of(n, "name"@)) {
                (Some(value), Some(name)) => before.with_def(
                    draft::def_of(
                        decl,
                        syntax::text_of(name),
                        DefKind::Function,
                        None,
                        None,
                        false,
                    ),
                ).opened(value.id).named(name.id),
                _ => before,
            }
        } else {
            before
        }
    }
}

/// What is found when the methods among the members `ns` of the class at
/// position `class` are added.
pub open spec fn with_methods(ns: Seq<NodeView>, class: usize, d: DraftView) -> DraftView
    decreases ns.len(),
{
    if ns.len() == 0 {
        d
    } else {
        let before = with_methods(ns.drop_last(), class, d);
        let n = ns.last();
        match syntax::field_of(n, "name"@) {
            Some(name) => if n.kind == "method_definition"@ {
                before.with_def(
                    draft::def_of(
                        n,
                        syntax::text_of(name),
                        DefKind::Method,
                        Some(class),
                        None,
                        false,
                    ),
                ).opened(n.id).named(name.id)
            } else {
                before
            },
            None => before,
        }
    }
}

/// What is found when the top-level node `n` is added. An export holds its
/// declaration.
pub open spec fn with_top_level(n: NodeView, d: DraftView) -> DraftView
    decreases n,
{
    if n.kind == "export_statement"@ {
        proof {
            syntax::lemma_field_below(n, "declaration"@);
        }
        match syntax::field_of(n, "declaration"@) {
            Some(decl) => with_top_level(decl, d),
            None => d,
        }
    } else if n.kind == "function_declaration"@ {
        match syntax::field_of(n, "name"@) {
            Some(name) => d.with_def(
                draft::def_of(n, syntax::text_of(name), DefKind::Function, None, None, false),
            ).opened(n.id).named(name.id),
            None => d,
        }
    } else if declares_variables(n.kind) {
        with_declarators(n.children, n, d)
    } else if n.kind == "class_declaration"@ {
        match syntax::field_of(n, "name"@) {
            Some(name) => {
                let own = d.with_def(
                    draft::def_of(n, syntax::text_of(name), DefKind::Class, None, None, false),
                ).named(name.id);
                match syntax::field_of(n, "body"@) {
                    Some(body) => with_methods(body.children, own.last(), own),
                    None => own,
                }
            },
            None => d,
        }
    } else {
        d
    }
}

/// What is found when the top-level nodes `ns` are added.
pub open spec fn with_top_levels(ns: Seq<NodeView>, d: DraftView) -> DraftView
    decreases ns.len(),
{
    if ns.len() == 0 {
        d
    } else {
        with_top_level(ns.last(), with_top_levels(ns.drop_last(), d))
    }
}

/// Do all declarators of the declaration `n` declare functions, and is there
/// one at least?
pub open spec fn only_functions(n: NodeView) -> bool {
    let ds = syntax::of_kind(n.children, "variable_declarator"@);
    ds.len() > 0 && forall|i: int| 0 <= i < ds.len() ==> declares_function(#[trigger] ds[i])
}

/// Is this top-level node kept out of the loose code: an import, or a
/// declaration all of whose code has a definition of its own?
pub open spec fn stands_alone(n: NodeView) -> bool
    decreases n,
{
    proof {
        syntax::lemma_field_below(n, "declaration"@);
    }
    if n.kind == "export_statement"@ {
        match syntax::field_of(n, "declaration"@) {
            Some(decl) => stands_alone(decl),
            None => false,
        }
    } else {
        ||| n.kind == "import_statement"@
        ||| n.kind == "function_declaration"@
        ||| n.kind == "class_declaration"@
        ||| (declares_variables(n.kind) && only_functions(n))
    }
}

/// Which top-level nodes are kept out of the loose code.
pub open spec fn standing_alone(ns: Seq<NodeView>) -> Seq<bool> {
    Seq::new(ns.len(), |i: int| stands_alone(ns[i]))
}

/// Does this name declare a test, or a group of tests?
#[derive(Debug, Clone, Copy, PartialEq, Eq, Structural)]
pub enum TestCallKind {
    Describe,
    Leaf,
}

/// What the name at the head of a call declares.
pub open spec fn kind_of_name(name: Seq<char>) -> Option<TestCallKind> {
    if name == "describe"@ {
        Some(TestCallKind::Describe)
    } else if name == "it"@ || name == "test"@ {
        Some(TestCallKind::Leaf)
    } else {
        None
    }
}

/// What a callee declares: `describe`, `it` or `test`, or a member of one of
/// them such as `it.only`.
pub open spec fn callee_kind_of(callee: NodeView) -> Option<TestCallKind> {
    let base = if callee.kind == "identifier"@ {
        callee.text
    } else if callee.kind == "member_expression"@ {
        match syntax::field_of(callee, "object"@) {
            Some(object) => if object.kind == "identifier"@ {
                object.text
            } else {
                None
            },
            None => None,
        }
    } else {
        None
    };
    match base {
        Some(name) => kind_of_name(name),
        None => None,
    }
}

/// A call that declares a test or a group of tests.
pub struct TestCall {
    pub kind: TestCallKind,
    /// In `it.each(table)("name", fn)`, the inner call: it declares nothing
    /// by itself. Its names are computed from the table.
    pub inner: Option<usize>,
}

/// What a call declares.
pub open spec fn test_call_of(n: NodeView) -> Option<TestCall> {
    match syntax::field_of(n, "function"@) {
        Some(f) => match callee_kind_of(f) {
            Some(kind) => Some(TestCall { kind, inner: None }),
            None => if f.kind == "call_expression"@ {
                match syntax::field_of(f, "function"@) {
                    Some(g) => match callee_kind_of(g) {
                        Some(kind) => Some(TestCall { kind, inner: Some(f.id) }),
                        None => None,
                    },
                    None => None,
                }
            } else {
                None
            },
        },
        None => None,
    }
}

/// What a string literal says.
pub open spec fn literal_content(n: NodeView) -> Seq<char> {
    match syntax::named_child_of(n, 0) {
        Some(c) => syntax::text_of(c),
        None => Seq::empty(),
    }
}

/// The name that a test call gives, and whether it is computed.
pub open spec fn segment_of(n: NodeView, call: TestCall) -> (Seq<char>, bool) {
    let first = match syntax::field_of(n, "arguments"@) {
        Some(args) => syntax::named_child_of(args, 0),
        None => None,
    };
    if call.inner is None && first is Some && first.unwrap().kind == "string"@ {
        (literal_content(first.unwrap()), false)
    } else {
        ("<computed>"@, true)
    }
}

/// The names in front of the first computed one.
pub open spec fn literal_prefix(segments: Seq<(Seq<char>, bool)>) -> Seq<Seq<char>>
    decreases segments.len(),
{
    if segments.len() == 0 {
        Seq::empty()
    } else if any_computed(segments.drop_last()) || segments.last().1 {
        literal_prefix(segments.drop_last())
    } else {
        literal_prefix(segments.drop_last()).push(segments.last().0)
    }
}

/// Is one of the names computed?
pub open spec fn any_computed(segments: Seq<(Seq<char>, bool)>) -> bool {
    exists|i: int| 0 <= i < segments.len() && (#[trigger] segments[i]).1
}

/// The definition of a test whose names, from the outermost group on, are
/// `segments`.
pub open spec fn test_def(n: NodeView, segments: Seq<(Seq<char>, bool)>) -> DefView {
    draft::def_of(
        n,
        segments.last().0,
        DefKind::TestCase,
        None,
        Some(literal_prefix(segments)),
        any_computed(segments),
    )
}

/// What is found when the tests at and below `n` are added, which stands in
/// groups of tests with the names `groups`.
pub open spec fn with_tests(n: NodeView, d: DraftView, groups: Seq<(Seq<char>, bool)>) -> DraftView
    decreases n,
{
    match test_call_of(n) {
        Some(call) => if n.kind != "call_expression"@ {
            with_tests_in(n.children, d, groups, None)
        } else if call.kind == TestCallKind::Describe {
            with_tests_in(n.children, d, groups.push(segment_of(n, call)), call.inner)
        } else {
            with_tests_in(
                n.children,
                d.with_def(test_def(n, groups.push(segment_of(n, call)))).opened(n.id),
                groups,
                call.inner,
            )
        },
        None => with_tests_in(n.children, d, groups, None),
    }
}

/// What is found when the tests in `ns` are added, all but those in the node
/// `skip`.
pub open spec fn with_tests_in(
    ns: Seq<NodeView>,
    d: DraftView,
    groups: Seq<(Seq<char>, bool)>,
    skip: Option<usize>,
) -> DraftView
    decreases ns,
{
    if ns.len() == 0 {
        d
    } else {
        let before = with_tests_in(ns.drop_last(), d, groups, skip);
        if Some(ns.last().id) == skip {
            before
        } else {
            with_tests(ns.last(), before, groups)
        }
    }
}

/// The import that `n` itself writes; `export .. from` imports too.
pub open spec fn own_import(n: NodeView) -> Seq<ImportView> {
    if n.kind == "import_statement"@ || n.kind == "export_statement"@ {
        match syntax::field_of(n, "source"@) {
            Some(source) => if source.kind == "string"@ {
                seq![
                    ImportView {
                        raw: literal_content(source),
                        line: syntax::line_of(n.start_row),
                    },
                ]
            } else {
                Seq::empty()
            },
            None => Seq::empty(),
        }
    } else {
        Seq::empty()
    }
}

/// The imports at and below `n`.
pub open spec fn imports_of(n: NodeView) -> Seq<ImportView>
    decreases n,
{
    own_import(n) + imports_in(n.children)
}

/// The imports in `ns`.
pub open spec fn imports_in(ns: Seq<NodeView>) -> Seq<ImportView>
    decreases ns,
{
    if ns.len() == 0 {
        Seq::empty()
    } else {
        imports_in(ns.drop_last()) + imports_of(ns.last())
    }
}

/// What imports bring in: the names that they bind, and the nodes that spell
/// those names out.
#[verifier::ext_equal]
pub struct Bindings {
    pub names: Set<Seq<char>>,
    pub nodes: Set<usize>,
}

impl Bindings {
    pub open spec fn none() -> Bindings {
        Bindings { names: Set::empty(), nodes: Set::empty() }
    }

    /// The name that the node `n` spells out is bound.
    pub open spec fn bound(self, n: NodeView) -> Bindings {
        match n.text {
            Some(t) => Bindings { names: self.names.insert(t), ..self },
            None => self,
        }
    }

    /// The node `n` spells out a name.
    pub open spec fn spelled(self, n: NodeView) -> Bindings {
        Bindings { nodes: self.nodes.insert(n.id), ..self }
    }
}

/// With what the import specifiers among `ns` bring in: `x as y` binds `y`,
/// and neither of the two refers to a symbol of the file.
pub open spec fn with_specifiers(ns: Seq<NodeView>, b: Bindings) -> Bindings
    decreases ns.len(),
{
    if ns.len() == 0 {
        b
    } else {
        let before = with_specifiers(ns.drop_last(), b);
        let n = ns.last();
        if n.kind == "import_specifier"@ {
            match (syntax::field_of(n, "name"@), syntax::field_of(n, "alias"@)) {
                (Some(name), Some(alias)) => before.spelled(name).spelled(alias).bound(alias),
                (Some(name), None) => before.spelled(name).bound(name),
                (None, Some(alias)) => before.spelled(alias).bound(alias),
                (None, None) => before,
            }
        } else {
            before
        }
    }
}

/// With what the parts `ns` of an import clause bring in.
pub open spec fn with_clause(ns: Seq<NodeView>, b: Bindings) -> Bindings
    decreases ns.len(),
{
    if ns.len() == 0 {
        b
    } else {
        let before = with_clause(ns.drop_last(), b);
        let n = ns.last();
        if n.kind == "identifier"@ {
            before.bound(n).spelled(n)
        } else if n.kind == "namespace_import"@ {
            match syntax::named_child_of(n, 0) {
                Some(id) => before.bound(id).spelled(id),
                None => before,
            }
        } else if n.kind == "named_imports"@ {
            with_specifiers(n.children, before)
        } else {
            before
        }
    }
}

/// With what the import clauses at and below `n` bring in.
pub open spec fn with_bindings(n: NodeView, b: Bindings) -> Bindings
    decreases n,
{
    if n.kind == "import_clause"@ {
        with_clause(n.children, b)
    } else {
        with_bindings_in(n.children, b)
    }
}

/// With what the import clauses in `ns` bring in.
pub open spec fn with_bindings_in(ns: Seq<NodeView>, b: Bindings) -> Bindings
    decreases ns,
{
    if ns.len() == 0 {
        b
    } else {
        with_bindings(ns.last(), with_bindings_in(ns.drop_last(), b))
    }
}

/// The names of the functions and classes among `defs` that stand in no
/// other.
pub open spec fn top_names(defs: Seq<DefView>) -> Set<Seq<char>>
    decreases defs.len(),
{
    if defs.len() == 0 {
        Set::empty()
    } else {
        let before = top_names(defs.drop_last());
        let d = defs.last();
        if d.parent is None && (d.kind == DefKind::Function || d.kind == DefKind::Class) {
            before.insert(d.name)
        } else {
            before
        }
    }
}

/// The references at and below `n`, which stands in the definition `current`.
///
/// A call names what it calls, with what stands before the dot as its
/// qualifier; a call that declares a test is none. What is not called is
/// read, if it is a known name or one of the two names in `x.y` is.
pub open spec fn refs_of(
    n: NodeView,
    d: DraftView,
    known: Set<Seq<char>>,
    current: usize,
) -> RefsView
    decreases n,
{
    let def = d.scope_at(n, current);
    if n.kind == "call_expression"@ {
        proof {
            syntax::lemma_field_below(n, "function"@);
            syntax::lemma_field_below(n, "arguments"@);
        }
        let declares = test_call_of(n) is Some;
        let callee = match syntax::field_of(n, "function"@) {
            Some(f) => if f.kind == "identifier"@ {
                if declares {
                    RefsView::none()
                } else {
                    RefsView::call(draft::ref_at(def, syntax::text_of(f), None, n))
                }
            } else if f.kind == "member_expression"@ {
                proof {
                    syntax::lemma_field_below(f, "object"@);
                }
                match (syntax::field_of(f, "object"@), syntax::field_of(f, "property"@)) {
                    (Some(object), Some(property)) => {
                        let own = if declares {
                            RefsView::none()
                        } else {
                            RefsView::call(
                                draft::ref_at(
                                    def,
                                    syntax::text_of(property),
                                    Some(syntax::text_of(object)),
                                    n,
                                ),
                            )
                        };
                        if object.kind != "identifier"@ {
                            own.plus(refs_of(object, d, known, def))
                        } else {
                            own
                        }
                    },
                    _ => RefsView::none(),
                }
            } else {
                refs_of(f, d, known, def)
            },
            None => RefsView::none(),
        };
        match syntax::field_of(n, "arguments"@) {
            Some(args) => callee.plus(refs_of(args, d, known, def)),
            None => callee,
        }
    } else if n.kind == "new_expression"@ {
        proof {
            syntax::lemma_field_below(n, "constructor"@);
            syntax::lemma_field_below(n, "arguments"@);
        }
        let callee = match syntax::field_of(n, "constructor"@) {
            Some(f) => if f.kind == "identifier"@ {
                RefsView::call(draft::ref_at(def, syntax::text_of(f), None, n))
            } else {
                refs_of(f, d, known, def)
            },
            None => RefsView::none(),
        };
        match syntax::field_of(n, "arguments"@) {
            Some(args) => callee.plus(refs_of(args, d, known, def)),
            None => callee,
        }
    } else if n.kind == "member_expression"@ {
        proof {
            syntax::lemma_field_below(n, "object"@);
        }
        match (syntax::field_of(n, "object"@), syntax::field_of(n, "property"@)) {
            (Some(object), Some(property)) => if object.kind == "identifier"@ {
                let x = syntax::text_of(object);
                let y = syntax::text_of(property);
                if known.contains(x) || known.contains(y) {
                    RefsView::read(draft::ref_at(def, y, Some(x), n))
                } else {
                    RefsView::none()
                }
            } else {
                refs_of(object, d, known, def)
            },
            _ => RefsView::none(),
        }
    } else if n.kind == "identifier"@ {
        let x = syntax::text_of(n);
        if !d.names.contains(n.id) && known.contains(x) {
            RefsView::read(draft::ref_at(def, x, None, n))
        } else {
            RefsView::none()
        }
    } else {
        refs_in(n.children, d, known, def)
    }
}

/// The references in `ns`, which stand in the definition `current`.
pub open spec fn refs_in(
    ns: Seq<NodeView>,
    d: DraftView,
    known: Set<Seq<char>>,
    current: usize,
) -> RefsView
    decreases ns,
{
    if ns.len() == 0 {
        RefsView::none()
    } else {
        refs_in(ns.drop_last(), d, known, current).plus(refs_of(ns.last(), d, known, current))
    }
}

/// The definitions of a file: first its loose code, then its functions and
/// classes, then its tests.
pub open spec fn drafted(root: NodeView) -> DraftView {
    with_tests(
        root,
        with_top_levels(
            root.children,
            DraftView::empty().with_def(draft::module_def(root, standing_alone(root.children))),
        ),
        Seq::empty(),
    )
}

/// The definitions of a file, with the names that imports spell out marked.
pub open spec fn marked(root: NodeView) -> DraftView {
    let d = drafted(root);
    DraftView { names: d.names.union(with_bindings(root, Bindings::none()).nodes), ..d }
}

/// Everything extracted from a file.
pub open spec fn extracted(root: NodeView) -> ExtractionView {
    let d = marked(root);
    let known = with_bindings(root, Bindings::none()).names.union(top_names(d.defs));
    let refs = refs_of(root, d, known, 0);
    ExtractionView {
        defs: d.defs,
        imports: imports_of(root),
        calls: draft::firsts(refs.calls),
        reads: draft::firsts(refs.reads),
    }
}

/// A path's components with `.` and `..` worked out by the text alone.
pub open spec fn collapsed(parts: Seq<Seq<char>>) -> Seq<Seq<char>>
    decreases parts.len(),
{
    if parts.len() == 0 {
        Seq::empty()
    } else {
        let before = collapsed(parts.drop_last());
        let part = parts.last();
        if part == "."@ {
            before
        } else if part == ".."@ {
            if before.len() > 0 && before.last() != "/"@ {
                before.drop_last()
            } else {
                before
            }
        } else {
            before.push(part)
        }
    }
}

/// A path with `.` and `..` worked out by the text alone.
pub open spec fn normal(path: Seq<char>) -> Seq<char> {
    paths::render(collapsed(paths::components(path)))
}

/// Is this an import by a path relative to the file?
pub open spec fn is_relative(raw: Seq<char>) -> bool {
    text::starts_with(raw, "./"@) || text::starts_with(raw, "../"@)
}

/// Does the path name its extension?
pub open spec fn has_known_extension(raw: Seq<char>) -> bool {
    ||| text::ends_with(raw, ".ts"@)
    ||| text::ends_with(raw, ".tsx"@)
    ||| text::ends_with(raw, ".mts"@)
    ||| text::ends_with(raw, ".cts"@)
    ||| text::ends_with(raw, ".js"@)
    ||| text::ends_with(raw, ".jsx"@)
}

/// The source that a path to a compiled file stands for.
pub open spec fn source_of(base: Seq<char>) -> Seq<Seq<char>> {
    match text::without_suffix(base, ".js"@) {
        Some(stem) => seq![stem + ".ts"@],
        None => match text::without_suffix(base, ".jsx"@) {
            Some(stem) => seq![stem + ".tsx"@],
            None => Seq::empty(),
        },
    }
}

/// The paths that the import `raw` of `from_file` may name, in the order in
/// which they are tried.
pub open spec fn candidates(from_file: Seq<char>, raw: Seq<char>) -> Seq<Seq<char>> {
    if is_relative(raw) {
        let base = normal(paths::joined(paths::directory_of(from_file), raw));
        let with_extensions = if has_known_extension(raw) {
            Seq::empty()
        } else {
            seq![
                base + ".ts"@,
                base + ".tsx"@,
                base + ".mts"@,
                base + ".cts"@,
                base + ".js"@,
                base + ".jsx"@,
            ]
        };
        seq![base] + with_extensions + source_of(base) + seq![
            base + "/index.ts"@,
            base + "/index.tsx"@,
        ]
    } else {
        Seq::empty()
    }
}

fn is_function(n: &SyntaxNode) -> (r: bool)
    ensures
        r == declares_function(n@),
{
    n.is("variable_declarator") && match n.child_by_field("value") {
        Some(value) => value.is("arrow_function") || value.is("function_expression"),
        None => false,
    } && n.child_by_field("name").is_some()
}

fn is_variables(n: &SyntaxNode) -> (r: bool)
    ensures
        r == declares_variables(n@.kind),
{
    n.is("lexical_declaration") || n.is("variable_declaration")
}

/// Adds the functions that the declarators of `decl` hold.
fn walk_declarators(decl: &SyntaxNode, d: &mut Draft)
    requires
        old(d)@.wf(),
    ensures
        final(d)@ == with_declarators(decl@.children, decl@, old(d)@),
        final(d)@.wf(),
        final(d)@.defs.len() >= old(d)@.defs.len(),
{
    let ghost was = d@;
    let ghost all = decl@.children;
    let count: usize = decl.child_count();
    let mut i: usize = 0;
    assert(all.take(0) =~= Seq::empty());
    while i < count
        invariant
            i <= count == all.len(),
            all == decl@.children,
            d@ == with_declarators(all.take(i as int), decl@, was),
            d@.wf(),
            d@.defs.len() >= was.defs.len(),
        decreases count - i,
    {
        let n = decl.child(i);
        assert(all.take(i + 1).drop_last() =~= all.take(i as int));
        if is_function(n) {
            if let Some(value) = n.child_by_field("value") {
                if let Some(name) = n.child_by_field("name") {
                    d.add(decl, name.text_or_empty(), DefKind::Function, None, None, false);
                    d.open(value.id);
                    d.name(name.id);
                }
            }
        }
        i = i + 1;
    }
    assert(all.take(all.len() as int) =~= all);
}

/// Adds the methods of the class at position `class`.
fn walk_methods(body: &SyntaxNode, class: usize, d: &mut Draft)
    requires
        old(d)@.wf(),
        class < old(d)@.defs.len(),
    ensures
        final(d)@ == with_methods(body@.children, class, old(d)@),
        final(d)@.wf(),
        final(d)@.defs.len() >= old(d)@.defs.len(),
{
    let ghost was = d@;
    let ghost all = body@.children;
    let count: usize = body.child_count();
    let mut i: usize = 0;
    assert(all.take(0) =~= Seq::empty());
    while i < count
        invariant
            i <= count == all.len(),
            all == body@.children,
            d@ == with_methods(all.take(i as int), class, was),
            d@.wf(),
            class < was.defs.len() <= d@.defs.len(),
        decreases count - i,
    {
        let n = body.child(i);
        assert(all.take(i + 1).drop_last() =~= all.take(i as int));
        if n.is("method_definition") {
            if let Some(name) = n.child_by_field("name") {
                d.add(n, name.text_or_empty(), DefKind::Method, Some(class), None, false);
                d.open(n.id);
                d.name(name.id);
            }
        }
        i = i + 1;
    }
    assert(all.take(all.len() as int) =~= all);
}

/// Adds the definitions of the top-level node `n`.
fn walk_top_level(n: &SyntaxNode, d: &mut Draft)
    requires
        old(d)@.wf(),
    ensures
        final(d)@ == with_top_level(n@, old(d)@),
        final(d)@.wf(),
        final(d)@.defs.len() >= old(d)@.defs.len(),
    decreases n,
{
    if n.is("export_statement") {
        if let Some(decl) = n.child_by_field("declaration") {
            walk_top_level(decl, d);
        }
    } else if n.is("function_declaration") {
        if let Some(name) = n.child_by_field("name") {
            d.add(n, name.text_or_empty(), DefKind::Function, None, None, false);
            d.open(n.id);
            d.name(name.id);
        }
    } else if is_variables(n) {
        walk_declarators(n, d);
    } else if n.is("class_declaration") {
        if let Some(name) = n.child_by_field("name") {
            d.add(n, name.text_or_empty(), DefKind::Class, None, None, false);
            d.name(name.id);
            let class: usize = d.last();
            if let Some(body) = n.child_by_field("body") {
                walk_methods(body, class, d);
            }
        }
    }
}

fn holds_only_functions(n: &SyntaxNode) -> (r: bool)
    ensures
        r == only_functions(n@),
{
    let ds = n.children_of("variable_declarator");
    let ghost all = syntax::of_kind(n@.children, "variable_declarator"@);
    assert(syntax::seen(ds@).len() == ds@.len());
    if ds.len() == 0 {
        return false;
    }
    let mut i: usize = 0;
    while i < ds.len()
        invariant
            i <= ds@.len() == all.len(),
            all == syntax::of_kind(n@.children, "variable_declarator"@),
            syntax::seen(ds@) == all,
            forall|j: int| 0 <= j < i ==> declares_function(#[trigger] all[j]),
        decreases ds@.len() - i,
    {
        assert(syntax::seen(ds@)[i as int] == ds@[i as int]@);
        if !is_function(ds[i]) {
            return false;
        }
        i = i + 1;
    }
    true
}

fn is_alone(n: &SyntaxNode) -> (r: bool)
    ensures
        r == stands_alone(n@),
    decreases n,
{
    if n.is("export_statement") {
        match n.child_by_field("declaration") {
            Some(decl) => is_alone(decl),
            None => false,
        }
    } else {
        n.is("import_statement") || n.is("function_declaration") || n.is("class_declaration") || (
        is_variables(n) && holds_only_functions(n))
    }
}

fn callee_kind(callee: &SyntaxNode) -> (r: Option<TestCallKind>)
    ensures
        r == callee_kind_of(callee@),
{
    let base = if callee.is("identifier") {
        text::copy_opt(&callee.text)
    } else if callee.is("member_expression") {
        match callee.child_by_field("object") {
            Some(object) => if object.is("identifier") {
                text::copy_opt(&object.text)
            } else {
                None
            },
            None => None,
        }
    } else {
        None
    };
    match base {
        Some(name) => if same(name.as_str(), "describe") {
            Some(TestCallKind::Describe)
        } else if same(name.as_str(), "it") || same(name.as_str(), "test") {
            Some(TestCallKind::Leaf)
        } else {
            None
        },
        None => None,
    }
}

/// What a call declares.
fn match_test_call(n: &SyntaxNode) -> (r: Option<TestCall>)
    ensures
        r == test_call_of(n@),
{
    let f = match n.child_by_field("function") {
        Some(f) => f,
        None => {
            return None;
        },
    };
    if let Some(kind) = callee_kind(f) {
        return Some(TestCall { kind, inner: None });
    }
    if f.is("call_expression") {
        if let Some(g) = f.child_by_field("function") {
            if let Some(kind) = callee_kind(g) {
                return Some(TestCall { kind, inner: Some(f.id) });
            }
        }
    }
    None
}

fn content_of(n: &SyntaxNode) -> (r: String)
    ensures
        r@ == literal_content(n@),
{
    match n.named_child(0) {
        Some(c) => c.text_or_empty(),
        None => String::new(),
    }
}

/// The name that a test call gives, and whether it is computed.
fn first_arg_segment(n: &SyntaxNode, call: &TestCall) -> (r: (String, bool))
    ensures
        (r.0@, r.1) == segment_of(n@, *call),
{
    if call.inner.is_none() {
        if let Some(args) = n.child_by_field("arguments") {
            if let Some(first) = args.named_child(0) {
                if first.is("string") {
                    return (content_of(first), false);
                }
            }
        }
    }
    ("<computed>".to_owned(), true)
}

/// What a list of names says.
pub open spec fn segment_views(v: Seq<(String, bool)>) -> Seq<(Seq<char>, bool)> {
    v.map_values(|p: (String, bool)| (p.0@, p.1))
}

/// The names in front of the first computed one, and whether there is one.
fn literal_names(segments: &Vec<(String, bool)>) -> (r: (Vec<String>, bool))
    ensures
        text::views(r.0@) == literal_prefix(segment_views(segments@)),
        r.1 == any_computed(segment_views(segments@)),
{
    let ghost all = segment_views(segments@);
    let mut out: Vec<String> = Vec::new();
    let mut computed: bool = false;
    let mut i: usize = 0;
    assert(all.take(0) =~= Seq::empty());
    assert(text::views(out@) =~= Seq::empty());
    while i < segments.len()
        invariant
            i <= segments@.len() == all.len(),
            all == segment_views(segments@),
            text::views(out@) == literal_prefix(all.take(i as int)),
            computed == any_computed(all.take(i as int)),
        decreases segments@.len() - i,
    {
        let ghost before = all.take(i as int);
        let ghost upto = all.take(i + 1);
        assert(upto.drop_last() =~= before);
        assert(upto.last() == (segments@[i as int].0@, segments@[i as int].1));
        let here: bool = segments[i].1;
        proof {
            if any_computed(before) {
                let k = choose|k: int| 0 <= k < before.len() && (#[trigger] before[k]).1;
                assert(upto[k].1);
            }
            if here {
                assert(upto[i as int].1);
            }
            if any_computed(upto) && !here {
                let k = choose|k: int| 0 <= k < upto.len() && (#[trigger] upto[k]).1;
                assert(before[k].1);
            }
        }
        if here {
            computed = true;
        } else if !computed {
            let s = segments[i].0.clone();
            let ghost was = out@;
            out.push(s);
            assert(text::views(out@) =~= text::views(was).push(s@));
        }
        i = i + 1;
    }
    assert(all.take(all.len() as int) =~= all);
    (out, computed)
}

/// `groups` with one more name.
fn deeper(groups: &Vec<(String, bool)>, name: &str, computed: bool) -> (r: Vec<(String, bool)>)
    ensures
        segment_views(r@) == segment_views(groups@).push((name@, computed)),
{
    let ghost all = segment_views(groups@);
    let mut out: Vec<(String, bool)> = Vec::new();
    let mut i: usize = 0;
    assert(segment_views(out@) =~= all.take(0));
    while i < groups.len()
        invariant
            i <= groups@.len() == all.len(),
            all == segment_views(groups@),
            segment_views(out@) == all.take(i as int),
        decreases groups@.len() - i,
    {
        let p = (groups[i].0.clone(), groups[i].1);
        let ghost was = out@;
        out.push(p);
        assert(segment_views(out@) =~= segment_views(was).push((p.0@, p.1)));
        assert(all.take(i + 1) =~= all.take(i as int).push(all[i as int]));
        i = i + 1;
    }
    assert(all.take(all.len() as int) =~= all);
    let ghost was = out@;
    out.push((name.to_owned(), computed));
    assert(segment_views(out@) =~= segment_views(was).push((name@, computed)));
    out
}

/// Adds the tests at and below `n`.
fn walk_tests(n: &SyntaxNode, d: &mut Draft, groups: &Vec<(String, bool)>)
    requires
        old(d)@.wf(),
    ensures
        final(d)@ == with_tests(n@, old(d)@, segment_views(groups@)),
        final(d)@.wf(),
        final(d)@.defs.len() >= old(d)@.defs.len(),
    decreases n, 1nat,
{
    if n.is("call_expression") {
        if let Some(call) = match_test_call(n) {
            let seg = first_arg_segment(n, &call);
            let full = deeper(groups, seg.0.as_str(), seg.1);
            if call.kind == TestCallKind::Describe {
                walk_children(n, d, &full, call.inner);
            } else {
                let (id, computed) = literal_names(&full);
                assert(segment_views(full@).last() == (seg.0@, seg.1));
                d.add(n, seg.0, DefKind::TestCase, None, Some(id), computed);
                d.open(n.id);
                walk_children(n, d, groups, call.inner);
            }
            return;
        }
    }
    walk_children(n, d, groups, None);
}

/// Adds the tests below `n`, all but those in the child `skip`.
fn walk_children(
    n: &SyntaxNode,
    d: &mut Draft,
    groups: &Vec<(String, bool)>,
    skip: Option<usize>,
)
    requires
        old(d)@.wf(),
    ensures
        final(d)@ == with_tests_in(n@.children, old(d)@, segment_views(groups@), skip),
        final(d)@.wf(),
        final(d)@.defs.len() >= old(d)@.defs.len(),
    decreases n, 0nat,
{
    let ghost was = d@;
    let ghost all = n@.children;
    let count: usize = n.child_count();
    let mut i: usize = 0;
    assert(all.take(0) =~= Seq::empty());
    while i < count
        invariant
            i <= count == all.len(),
            all == n@.children,
            d@ == with_tests_in(all.take(i as int), was, segment_views(groups@), skip),
            d@.wf(),
            d@.defs.len() >= was.defs.len(),
        decreases count - i,
    {
        let c = n.child(i);
        assert(all.take(i + 1).drop_last() =~= all.take(i as int));
        let skipped: bool = match skip {
            Some(id) => c.id == id,
            None => false,
        };
        if !skipped {
            walk_tests(c, d, groups);
        }
        i = i + 1;
    }
    assert(all.take(all.len() as int) =~= all);
}

/// Collects the imports at and below `n`.
fn collect_imports(n: &SyntaxNode, out: &mut Vec<ImportRef>)
    ensures
        language::import_views(final(out)@) == language::import_views(old(out)@) + imports_of(n@),
    decreases n,
{
    let ghost was = language::import_views(out@);
    if n.is("import_statement") || n.is("export_statement") {
        if let Some(source) = n.child_by_field("source") {
            if source.is("string") {
                let i = ImportRef { raw: content_of(source), line: line(n.start_row) };
                let ghost before = out@;
                out.push(i);
                assert(language::import_views(out@) =~= language::import_views(before).push(i@));
            }
        }
    }
    assert(language::import_views(out@) =~= was + own_import(n@));
    let ghost all = n@.children;
    let count: usize = n.child_count();
    let mut i: usize = 0;
    assert(all.take(0) =~= Seq::empty());
    assert(was + own_import(n@) =~= was + own_import(n@) + imports_in(all.take(0)));
    while i < count
        invariant
            i <= count == all.len(),
            all == n@.children,
            language::import_views(out@) == was + own_import(n@) + imports_in(all.take(i as int)),
        decreases count - i,
    {
        assert(all.take(i + 1).drop_last() =~= all.take(i as int));
        collect_imports(n.child(i), out);
        assert(language::import_views(out@) =~= was + own_import(n@) + imports_in(all.take(i + 1)));
        i = i + 1;
    }
    assert(all.take(all.len() as int) =~= all);
    assert(language::import_views(out@) =~= was + imports_of(n@));
}

/// The name that the node `n` spells out is bound.
fn bind(n: &SyntaxNode, names: &mut StringHashSet, Ghost(nodes): Ghost<Set<usize>>)
    ensures
        (Bindings { names: final(names)@, nodes }) == (Bindings { names: old(names)@, nodes }).bound(
            n@,
        ),
{
    if let Some(t) = &n.text {
        names.insert(t.clone());
    }
}

/// Binds what the specifiers of `{ .. }` bring in.
fn bind_specifiers(
    list: &SyntaxNode,
    names: &mut StringHashSet,
    nodes: &mut Vec<usize>,
    Ghost(b): Ghost<Bindings>,
)
    requires
        b == (Bindings { names: old(names)@, nodes: old(nodes)@.to_set() }),
    ensures
        (Bindings { names: final(names)@, nodes: final(nodes)@.to_set() }) == with_specifiers(
            list@.children,
            b,
        ),
{
    let ghost all = list@.children;
    let count: usize = list.child_count();
    let mut i: usize = 0;
    assert(all.take(0) =~= Seq::empty());
    while i < count
        invariant
            i <= count == all.len(),
            all == list@.children,
            (Bindings { names: names@, nodes: nodes@.to_set() }) == with_specifiers(
                all.take(i as int),
                b,
            ),
        decreases count - i,
    {
        let n = list.child(i);
        assert(all.take(i + 1).drop_last() =~= all.take(i as int));
        if n.is("import_specifier") {
            let name = n.child_by_field("name");
            let alias = n.child_by_field("alias");
            if let Some(x) = name {
                spell(x, nodes);
            }
            if let Some(y) = alias {
                spell(y, nodes);
                bind(y, names, Ghost(nodes@.to_set()));
            } else if let Some(x) = name {
                bind(x, names, Ghost(nodes@.to_set()));
            }
        }
        assert((Bindings { names: names@, nodes: nodes@.to_set() }) =~= with_specifiers(
            all.take(i + 1),
            b,
        ));
        i = i + 1;
    }
    assert(all.take(all.len() as int) =~= all);
}

/// The node `n` spells out a name.
fn spell(n: &SyntaxNode, nodes: &mut Vec<usize>)
    ensures
        final(nodes)@.to_set() == old(nodes)@.to_set().insert(n@.id),
{
    let ghost was = nodes@;
    nodes.push(n.id);
    proof {
        lemma_push_to_set(was, n.id);
    }
}

proof fn lemma_push_to_set(s: Seq<usize>, x: usize)
    ensures
        s.push(x).to_set() == s.to_set().insert(x),
{
    let t = s.push(x);
    assert forall|y: usize| t.to_set().contains(y) <==> s.to_set().insert(x).contains(y) by {
        if t.contains(y) {
            let i = choose|i: int| 0 <= i < t.len() && t[i] == y;
            if i < s.len() {
                assert(s[i] == y);
            }
        }
        if s.contains(y) {
            let i = choose|i: int| 0 <= i < s.len() && s[i] == y;
            assert(t[i] == y);
        }
        if y == x {
            assert(t[s.len() as int] == x);
        }
    }
    assert(t.to_set() =~= s.to_set().insert(x));
}

/// Binds what an import clause brings in.
fn bind_clause(
    clause: &SyntaxNode,
    names: &mut StringHashSet,
    nodes: &mut Vec<usize>,
    Ghost(b): Ghost<Bindings>,
)
    requires
        b == (Bindings { names: old(names)@, nodes: old(nodes)@.to_set() }),
    ensures
        (Bindings { names: final(names)@, nodes: final(nodes)@.to_set() }) == with_clause(
            clause@.children,
            b,
        ),
{
    let ghost all = clause@.children;
    let count: usize = clause.child_count();
    let mut i: usize = 0;
    assert(all.take(0) =~= Seq::empty());
    while i < count
        invariant
            i <= count == all.len(),
            all == clause@.children,
            (Bindings { names: names@, nodes: nodes@.to_set() }) == with_clause(
                all.take(i as int),
                b,
            ),
        decreases count - i,
    {
        let n = clause.child(i);
        assert(all.take(i + 1).drop_last() =~= all.take(i as int));
        if n.is("identifier") {
            bind(n, names, Ghost(nodes@.to_set()));
            spell(n, nodes);
        } else if n.is("namespace_import") {
            if let Some(id) = n.named_child(0) {
                bind(id, names, Ghost(nodes@.to_set()));
                spell(id, nodes);
            }
        } else if n.is("named_imports") {
            bind_specifiers(n, names, nodes, Ghost(with_clause(all.take(i as int), b)));
        }
        assert((Bindings { names: names@, nodes: nodes@.to_set() }) =~= with_clause(
            all.take(i + 1),
            b,
        ));
        i = i + 1;
    }
    assert(all.take(all.len() as int) =~= all);
}

/// Collects what the import clauses at and below `n` bring in.
fn collect_import_bindings(
    n: &SyntaxNode,
    names: &mut StringHashSet,
    nodes: &mut Vec<usize>,
    Ghost(b): Ghost<Bindings>,
)
    requires
        b == (Bindings { names: old(names)@, nodes: old(nodes)@.to_set() }),
    ensures
        (Bindings { names: final(names)@, nodes: final(nodes)@.to_set() }) == with_bindings(n@, b),
    decreases n,
{
    if n.is("import_clause") {
        bind_clause(n, names, nodes, Ghost(b));
        return;
    }
    let ghost all = n@.children;
    let count: usize = n.child_count();
    let mut i: usize = 0;
    assert(all.take(0) =~= Seq::empty());
    while i < count
        invariant
            i <= count == all.len(),
            all == n@.children,
            (Bindings { names: names@, nodes: nodes@.to_set() }) == with_bindings_in(
                all.take(i as int),
                b,
            ),
        decreases count - i,
    {
        assert(all.take(i + 1).drop_last() =~= all.take(i as int));
        collect_import_bindings(
            n.child(i),
            names,
            nodes,
            Ghost(with_bindings_in(all.take(i as int), b)),
        );
        i = i + 1;
    }
    assert(all.take(all.len() as int) =~= all);
}

/// Adds the names of the functions and classes that stand in no other.
fn add_top_names(defs: &Vec<ExtractedDef>, names: &mut StringHashSet)
    ensures
        final(names)@ == old(names)@.union(top_names(language::def_views(defs@))),
{
    let ghost was = names@;
    let ghost dv = language::def_views(defs@);
    let mut i: usize = 0;
    assert(dv.take(0) =~= Seq::empty());
    assert(names@ =~= was.union(top_names(dv.take(0))));
    while i < defs.len()
        invariant
            i <= defs@.len() == dv.len(),
            dv == language::def_views(defs@),
            names@ == was.union(top_names(dv.take(i as int))),
        decreases defs@.len() - i,
    {
        assert(dv.take(i + 1).drop_last() =~= dv.take(i as int));
        assert(dv.take(i + 1).last() == defs@[i as int]@);
        if defs[i].parent.is_none() && (defs[i].kind == DefKind::Function || defs[i].kind
            == DefKind::Class) {
            names.insert(defs[i].name.clone());
        }
        assert(names@ =~= was.union(top_names(dv.take(i + 1))));
        i = i + 1;
    }
    assert(dv.take(dv.len() as int) =~= dv);
}

/// Adds the references at and below `n`.
fn walk_refs(n: &SyntaxNode, d: &Draft, known: &StringHashSet, current: usize, out: &mut Refs)
    requires
        d@.wf(),
        current < d@.defs.len(),
        old(out)@.from_within(d@.defs.len() as int),
    ensures
        final(out)@ == old(out)@.plus(refs_of(n@, d@, known@, current)),
        final(out)@.from_within(d@.defs.len() as int),
    decreases n,
{
    let ghost was = out@;
    let def: usize = d.scope_of(n, current);
    if n.is("call_expression") {
        let declares: bool = match_test_call(n).is_some();
        if let Some(f) = n.child_by_field("function") {
            if f.is("identifier") {
                if !declares {
                    out.call(def, f.text_or_empty(), None, n);
                }
            } else if f.is("member_expression") {
                if let Some(object) = f.child_by_field("object") {
                    if let Some(property) = f.child_by_field("property") {
                        if !declares {
                            out.call(
                                def,
                                property.text_or_empty(),
                                Some(object.text_or_empty()),
                                n,
                            );
                        }
                        if !object.is("identifier") {
                            walk_refs(object, d, known, def, out);
                        }
                    }
                }
            } else {
                walk_refs(f, d, known, def, out);
            }
        }
        if let Some(args) = n.child_by_field("arguments") {
            walk_refs(args, d, known, def, out);
        }
        assert(out@ =~= was.plus(refs_of(n@, d@, known@, current)));
    } else if n.is("new_expression") {
        if let Some(f) = n.child_by_field("constructor") {
            if f.is("identifier") {
                out.call(def, f.text_or_empty(), None, n);
            } else {
                walk_refs(f, d, known, def, out);
            }
        }
        if let Some(args) = n.child_by_field("arguments") {
            walk_refs(args, d, known, def, out);
        }
        assert(out@ =~= was.plus(refs_of(n@, d@, known@, current)));
    } else if n.is("member_expression") {
        if let Some(object) = n.child_by_field("object") {
            if let Some(property) = n.child_by_field("property") {
                if object.is("identifier") {
                    let x = object.text_or_empty();
                    let y = property.text_or_empty();
                    if known.contains(x.as_str()) || known.contains(y.as_str()) {
                        out.read(def, y, Some(x), n);
                    }
                } else {
                    walk_refs(object, d, known, def, out);
                }
            }
        }
        assert(out@ =~= was.plus(refs_of(n@, d@, known@, current)));
    } else if n.is("identifier") {
        if !d.is_name(n) {
            let x = n.text_or_empty();
            if known.contains(x.as_str()) {
                out.read(def, x, None, n);
            }
        }
        assert(out@ =~= was.plus(refs_of(n@, d@, known@, current)));
    } else {
        let ghost all = n@.children;
        let count: usize = n.child_count();
        let mut i: usize = 0;
        assert(all.take(0) =~= Seq::empty());
        assert(out@ =~= was.plus(refs_in(all.take(0), d@, known@, def)));
        while i < count
            invariant
                i <= count == all.len(),
                all == n@.children,
                d@.wf(),
                def < d@.defs.len(),
                out@.from_within(d@.defs.len() as int),
                out@ == was.plus(refs_in(all.take(i as int), d@, known@, def)),
            decreases count - i,
        {
            assert(all.take(i + 1).drop_last() =~= all.take(i as int));
            walk_refs(n.child(i), d, known, def, out);
            assert(out@ =~= was.plus(refs_in(all.take(i + 1), d@, known@, def)));
            i = i + 1;
        }
        assert(all.take(all.len() as int) =~= all);
    }
}

/// The definitions of a file.
fn draft_of(root: &SyntaxNode) -> (d: Draft)
    ensures
        d@ == drafted(root@),
        d@.wf(),
        d@.defs.len() > 0,
{
    let ghost all = root@.children;
    let count: usize = root.child_count();
    let mut skip: Vec<bool> = Vec::new();
    let mut i: usize = 0;
    while i < count
        invariant
            i <= count == all.len(),
            all == root@.children,
            skip@.len() == i,
            forall|j: int| 0 <= j < i ==> skip@[j] == stands_alone(#[trigger] all[j]),
        decreases count - i,
    {
        skip.push(is_alone(root.child(i)));
        i = i + 1;
    }
    assert(skip@ =~= standing_alone(all));
    let mut d = Draft::of_module(root, &skip);
    let ghost first = d@;
    i = 0;
    assert(all.take(0) =~= Seq::empty());
    while i < count
        invariant
            i <= count == all.len(),
            all == root@.children,
            d@ == with_top_levels(all.take(i as int), first),
            d@.wf(),
            d@.defs.len() > 0,
        decreases count - i,
    {
        assert(all.take(i + 1).drop_last() =~= all.take(i as int));
        walk_top_level(root.child(i), &mut d);
        i = i + 1;
    }
    assert(all.take(all.len() as int) =~= all);
    let groups: Vec<(String, bool)> = Vec::new();
    assert(segment_views(groups@) =~= Seq::empty());
    walk_tests(root, &mut d, &groups);
    d
}

/// Marks the `nodes` as names.
fn mark_nodes(nodes: &Vec<usize>, d: &mut Draft)
    ensures
        final(d)@ == (DraftView { names: old(d)@.names.union(nodes@.to_set()), ..old(d)@ }),
{
    let ghost was = d@;
    let mut i: usize = 0;
    assert(was.names =~= was.names.union(nodes@.take(0).to_set()));
    while i < nodes.len()
        invariant
            i <= nodes@.len(),
            d@ == (DraftView {
                names: was.names.union(nodes@.take(i as int).to_set()),
                ..was
            }),
        decreases nodes@.len() - i,
    {
        d.name(nodes[i]);
        proof {
            lemma_push_to_set(nodes@.take(i as int), nodes@[i as int]);
            assert(nodes@.take(i + 1) =~= nodes@.take(i as int).push(nodes@[i as int]));
            assert(d@.names =~= was.names.union(nodes@.take(i + 1).to_set()));
        }
        i = i + 1;
    }
    assert(nodes@.take(nodes@.len() as int) =~= nodes@);
}

/// A path with `.` and `..` worked out by the text alone.
pub fn normalize_path(path: &str) -> (r: String)
    ensures
        r@ == normal(path@),
{
    let parts = parts_of(path);
    let ghost all = text::views(parts@);
    let mut out: Vec<String> = Vec::new();
    let mut i: usize = 0;
    assert(all.take(0) =~= Seq::empty());
    assert(text::views(out@) =~= Seq::empty());
    while i < parts.len()
        invariant
            i <= parts@.len() == all.len(),
            all == text::views(parts@),
            text::views(out@) == collapsed(all.take(i as int)),
        decreases parts@.len() - i,
    {
        assert(all.take(i + 1).drop_last() =~= all.take(i as int));
        assert(all.take(i + 1).last() == parts@[i as int]@);
        let part = parts[i].as_str();
        let ghost was = out@;
        assert(text::views(was).len() == was.len());
        if same(part, ".") {
        } else if same(part, "..") {
            let n: usize = out.len();
            if n > 0 {
                assert(text::views(was).last() == was.last()@);
                if !same(out[n - 1].as_str(), "/") {
                    out.pop();
                    assert(text::views(out@) =~= text::views(was).drop_last());
                }
            }
        } else {
            out.push(parts[i].clone());
            assert(text::views(out@) =~= text::views(was).push(part@));
        }
        i = i + 1;
    }
    assert(all.take(all.len() as int) =~= all);
    render_parts(&out)
}

/// The paths that the import `raw` of `from_file` may name.
fn candidates_for(from_file: &str, raw: &str) -> (r: Vec<String>)
    ensures
        text::views(r@) == candidates(from_file@, raw@),
{
    let mut out: Vec<String> = Vec::new();
    if !(begins(raw, "./") || begins(raw, "../")) {
        assert(text::views(out@) =~= Seq::empty());
        return out;
    }
    let base = normalize_path(join_path(directory(from_file).as_str(), raw).as_str());
    let b = base.as_str();
    out.push(base.clone());
    let known: bool = ends(raw, ".ts") || ends(raw, ".tsx") || ends(raw, ".mts") || ends(
        raw,
        ".cts",
    ) || ends(raw, ".js") || ends(raw, ".jsx");
    if !known {
        out.push(cat(b, ".ts"));
        out.push(cat(b, ".tsx"));
        out.push(cat(b, ".mts"));
        out.push(cat(b, ".cts"));
        out.push(cat(b, ".js"));
        out.push(cat(b, ".jsx"));
    }
    match cut_suffix(b, ".js") {
        Some(stem) => {
            out.push(cat(stem.as_str(), ".ts"));
        },
        None => {
            if let Some(stem) = cut_suffix(b, ".jsx") {
                out.push(cat(stem.as_str(), ".tsx"));
            }
        },
    }
    out.push(cat(b, "/index.ts"));
    out.push(cat(b, "/index.tsx"));
    assert(text::views(out@) =~= candidates(from_file@, raw@));
    out
}

impl Language for TsLanguage {
    open spec fn spec_id(&self) -> Seq<char> {
        "ts"@
    }

    open spec fn spec_extensions(&self) -> Seq<Seq<char>> {
        seq!["ts"@, "tsx"@, "js"@, "jsx"@, "mts"@, "cts"@]
    }

    open spec fn spec_grammar(&self, path: Seq<char>) -> Grammar {
        if paths::extension_of(path) == Some("tsx"@) || paths::extension_of(path) == Some("jsx"@) {
            Grammar::Tsx
        } else {
            Grammar::TypeScript
        }
    }

    open spec fn spec_extract(&self, tree: NodeView) -> ExtractionView {
        extracted(tree)
    }

    open spec fn spec_probes(&self, from_file: Seq<char>, raw: Seq<char>) -> Seq<Seq<char>> {
        candidates(from_file, raw)
    }

    open spec fn spec_resolve(
        &self,
        from_file: Seq<char>,
        raw: Seq<char>,
        repo: FactsView,
    ) -> Option<Seq<char>> {
        language::first_present(candidates(from_file, raw), repo.present)
    }

    open spec fn spec_package_key(&self, file: Seq<char>) -> Option<Seq<char>> {
        None
    }

    fn id(&self) -> (r: String) {
        "ts".to_owned()
    }

    fn extensions(&self) -> (r: Vec<String>) {
        let mut out: Vec<String> = Vec::new();
        out.push("ts".to_owned());
        out.push("tsx".to_owned());
        out.push("js".to_owned());
        out.push("jsx".to_owned());
        out.push("mts".to_owned());
        out.push("cts".to_owned());
        assert(text::views(out@) =~= self.spec_extensions());
        out
    }

    fn grammar(&self, path: &str) -> (r: Grammar) {
        match extension(path) {
            Some(ext) => if same(ext.as_str(), "tsx") || same(ext.as_str(), "jsx") {
                Grammar::Tsx
            } else {
                Grammar::TypeScript
            },
            None => Grammar::TypeScript,
        }
    }

    fn extract(&self, tree: &SyntaxNode) -> (r: Extraction) {
        let mut d = draft_of(tree);
        let mut imports: Vec<ImportRef> = Vec::new();
        assert(language::import_views(imports@) =~= Seq::empty());
        collect_imports(tree, &mut imports);
        assert(language::import_views(imports@) =~= imports_of(tree@));
        let mut known: StringHashSet = StringHashSet::new();
        let mut nodes: Vec<usize> = Vec::new();
        assert((Bindings { names: known@, nodes: nodes@.to_set() }) =~= Bindings::none());
        collect_import_bindings(tree, &mut known, &mut nodes, Ghost(Bindings::none()));
        let ghost plain = d@;
        mark_nodes(&nodes, &mut d);
        assert(d@ == marked(tree@));
        assert(d@.wf()) by {
            assert(d@.defs == plain.defs && d@.scope == plain.scope);
        }
        add_top_names(&d.defs, &mut known);
        let mut refs = Refs::new();
        walk_refs(tree, &d, &known, 0, &mut refs);
        proof {
            draft::lemma_plus(refs_of(tree@, d@, known@, 0), RefsView::none(), RefsView::none());
        }
        let ghost n = d@.defs.len() as int;
        let ghost all = refs@;
        assert(draft::all_from(all.calls, n) && draft::all_from(all.reads, n));
        let calls = dedup_refs(refs.calls);
        let reads = dedup_refs(refs.reads);
        assert(draft::all_from(language::ref_views(calls@), n));
        assert(draft::all_from(language::ref_views(reads@), n));
        Extraction { defs: d.defs, imports, calls, reads }
    }

    fn import_probes(&self, from_file: &str, raw: &str) -> (r: Vec<String>) {
        candidates_for(from_file, raw)
    }

    fn resolve_import(&self, from_file: &str, raw: &str, repo: &RepoFacts) -> (r: Option<String>) {
        language::pick_present(&candidates_for(from_file, raw), repo)
    }

    fn package_key(&self, file: &str) -> (r: Option<String>) {
        None
    }
}

} // verus!
