//! The Java plugin: types with their methods and fields, JUnit 5 tests, and
//! imports by the repository's index of names.
use vstd::hash_set::StringHashSet;
use vstd::prelude::*;

use crate::draft;
use crate::draft::{dedup_refs, Draft, DraftView, Refs, RefsView};
use crate::fingerprint;
use crate::graph::DefKind;
use crate::java_index;
use crate::java_index::RepoIndex;
use crate::language;
use crate::language::{
    DefView, ExtractedDef, Extraction, ExtractionView, FactsView, ImportRef, ImportView, Language,
    RepoFacts,
};
use crate::syntax;
use crate::syntax::{line, Grammar, NodeView, SyntaxNode};
use crate::text;
use crate::text::{cat, cat3, copy_all, cut_suffix, same, split_on, tail_after, trimmed};

verus! {

/// Java, with the index of the repository that it is asked about.
pub struct JavaLanguage {
    pub index: RepoIndex,
}

/// Is this the simple name of an annotation that makes a method a JUnit 5
/// test? The names of single runs may vary; the method's name is fixed.
pub open spec fn marks_test(annotation: Seq<char>) -> bool {
    ||| annotation == "Test"@
    ||| annotation == "ParameterizedTest"@
    ||| annotation == "RepeatedTest"@
    ||| annotation == "TestFactory"@
    ||| annotation == "TestTemplate"@
}

/// Is this the simple name of an annotation that says something to the
/// compiler and nothing to what runs the program?
pub open spec fn is_inert(annotation: Seq<char>) -> bool {
    ||| annotation == "Override"@
    ||| annotation == "SuppressWarnings"@
    ||| annotation == "Deprecated"@
    ||| annotation == "SafeVarargs"@
    ||| annotation == "FunctionalInterface"@
    ||| annotation == "Nullable"@
    ||| annotation == "NonNull"@
    ||| annotation == "Nonnull"@
    ||| annotation == "NotNull"@
    ||| annotation == "CheckForNull"@
}

/// Does a node of this kind declare a type?
pub open spec fn declares_type(kind: Seq<char>) -> bool {
    ||| kind == "class_declaration"@
    ||| kind == "interface_declaration"@
    ||| kind == "enum_declaration"@
    ||| kind == "record_declaration"@
    ||| kind == "annotation_type_declaration"@
}

/// Does a node of this kind declare a method or a constructor?
pub open spec fn declares_method(kind: Seq<char>) -> bool {
    kind == "method_declaration"@ || kind == "constructor_declaration"@
}

/// The simple names of the annotations among `ns`.
pub open spec fn annotation_names_in(ns: Seq<NodeView>) -> Seq<Seq<char>>
    decreases ns.len(),
{
    if ns.len() == 0 {
        Seq::empty()
    } else {
        let before = annotation_names_in(ns.drop_last());
        let n = ns.last();
        if n.kind == "marker_annotation"@ || n.kind == "annotation"@ {
            match syntax::field_of(n, "name"@) {
                Some(name) => match name.text {
                    Some(t) => before.push(text::after_last(t, '.')),
                    None => before,
                },
                None => before,
            }
        } else {
            before
        }
    }
}

/// The simple names of the annotations of a member.
pub open spec fn annotations_of(n: NodeView) -> Seq<Seq<char>> {
    match syntax::first_of(n.children, "modifiers"@, "modifiers"@) {
        Some(modifiers) => annotation_names_in(modifiers.children),
        None => Seq::empty(),
    }
}

/// Is the member a test?
pub open spec fn is_test(n: NodeView) -> bool {
    exists|i: int|
        0 <= i < annotations_of(n).len() && marks_test(#[trigger] annotations_of(n)[i])
}

/// Does the member carry an annotation by which something other than a call
/// may reach it: an injected field, a bean, a lifecycle hook?
pub open spec fn container_reaches(n: NodeView) -> bool {
    exists|i: int|
        0 <= i < annotations_of(n).len() && !is_inert(#[trigger] annotations_of(n)[i])
}

/// The package that a file declares.
pub open spec fn package_name(root: NodeView) -> Option<Seq<char>> {
    match syntax::first_of(root.children, "package_declaration"@, "package_declaration"@) {
        Some(decl) => match syntax::first_of(
            decl.children,
            "scoped_identifier"@,
            "identifier"@,
        ) {
            Some(name) => name.text,
            None => None,
        },
        None => None,
    }
}

/// The chain of names of a test: the outermost type with its package, the
/// types nested in it, and the method.
pub open spec fn test_chain(
    package: Option<Seq<char>>,
    types: Seq<Seq<char>>,
    method: Seq<char>,
) -> Seq<Seq<char>> {
    if types.len() == 0 {
        seq![method]
    } else {
        let outer = match package {
            Some(p) => p + "."@ + types[0],
            None => types[0],
        };
        (seq![outer] + types.skip(1)).push(method)
    }
}

/// Has this member of a type a definition of its own?
pub open spec fn own_member(n: NodeView) -> bool {
    declares_method(n.kind) || declares_type(n.kind)
}

/// Which members of a type have a definition of their own.
pub open spec fn own_members(ns: Seq<NodeView>) -> Seq<bool> {
    Seq::new(ns.len(), |i: int| own_member(ns[i]))
}

/// The definition of the type that `n` declares. Its body counts without the
/// members that have definitions of their own: fields and initializers are
/// what is left.
pub open spec fn type_def(n: NodeView, name: Seq<char>, parent: Option<usize>) -> DefView {
    DefView {
        name,
        kind: DefKind::Class,
        start_line: syntax::line_of(n.start_row),
        end_line: syntax::line_of(n.end_row),
        test_id: None,
        computed_name: false,
        parent,
        sig_hash: fingerprint::blake3_hash(fingerprint::signature_stream(n)),
        body_hash: match syntax::field_of(n, "body"@) {
            Some(body) => Some(
                fingerprint::blake3_hash(
                    fingerprint::loose_stream(body.children, own_members(body.children)),
                ),
            ),
            None => None,
        },
    }
}

/// What the walk over types finds.
#[verifier::ext_equal]
pub struct Found {
    pub draft: DraftView,
    /// Each field with the type that declares it.
    pub fields: Seq<(Seq<char>, Seq<char>)>,
}

/// The type whose members are looked at.
pub struct Owner {
    /// The position of its definition.
    pub at: usize,
    pub name: Seq<char>,
    /// The types it is nested in, and itself.
    pub chain: Seq<Seq<char>>,
    pub package: Option<Seq<char>>,
}

/// The parent of a member: the type, for a member that is reached other than
/// by its name.
pub open spec fn parent_for(member: NodeView, owner: Owner) -> Option<usize> {
    if container_reaches(member) {
        Some(owner.at)
    } else {
        None
    }
}

/// What is found when the fields that `ns` declare are added, with the
/// parent `parent`.
pub open spec fn with_fields(
    ns: Seq<NodeView>,
    f: Found,
    owner: Owner,
    parent: Option<usize>,
) -> Found
    decreases ns.len(),
{
    if ns.len() == 0 {
        f
    } else {
        let before = with_fields(ns.drop_last(), f, owner, parent);
        let n = ns.last();
        match syntax::field_of(n, "name"@) {
            Some(name_node) => match name_node.text {
                Some(name) => Found {
                    draft: before.draft.named(name_node.id).with_def(
                        draft::def_of(
                            n,
                            owner.name + "#"@ + name,
                            DefKind::Method,
                            parent,
                            None,
                            false,
                        ),
                    ).opened(n.id),
                    fields: before.fields.push((owner.name, name)),
                },
                None => before,
            },
            None => before,
        }
    }
}

/// What is found when the method or constructor `n` is added.
pub open spec fn with_method(n: NodeView, f: Found, owner: Owner) -> Found {
    match syntax::field_of(n, "name"@) {
        Some(name_node) => match name_node.text {
            Some(name) => {
                let kind = if is_test(n) {
                    DefKind::TestCase
                } else {
                    DefKind::Method
                };
                let test_id = if is_test(n) {
                    Some(test_chain(owner.package, owner.chain, name))
                } else {
                    None
                };
                Found {
                    draft: f.draft.named(name_node.id).with_def(
                        draft::def_of(
                            n,
                            owner.name + "."@ + name,
                            kind,
                            parent_for(n, owner),
                            test_id,
                            false,
                        ),
                    ).opened(n.id),
                    fields: f.fields,
                }
            },
            None => f,
        },
        None => f,
    }
}

/// What is found when the type that `n` declares is added with its members.
pub open spec fn with_type(
    n: NodeView,
    f: Found,
    parent: Option<usize>,
    chain: Seq<Seq<char>>,
    package: Option<Seq<char>>,
) -> Found
    decreases n, 0nat,
{
    match syntax::field_of(n, "name"@) {
        Some(name_node) => match name_node.text {
            Some(name) => {
                let own = Found {
                    draft: f.draft.with_def(type_def(n, name, parent)).named(name_node.id).opened(
                        n.id,
                    ),
                    fields: f.fields,
                };
                let owner = Owner {
                    at: own.draft.last(),
                    name,
                    chain: chain.push(name),
                    package,
                };
                match syntax::field_of(n, "body"@) {
                    Some(body) => {
                        proof {
                            syntax::lemma_field_below(n, "body"@);
                        }
                        with_members(body.children, own, owner)
                    },
                    None => own,
                }
            },
            None => f,
        },
        None => f,
    }
}

/// What is found when the members `ns` of a type are added.
pub open spec fn with_members(ns: Seq<NodeView>, f: Found, owner: Owner) -> Found
    decreases ns, 1nat,
{
    if ns.len() == 0 {
        f
    } else {
        let before = with_members(ns.drop_last(), f, owner);
        let n = ns.last();
        if declares_type(n.kind) {
            with_type(n, before, Some(owner.at), owner.chain, owner.package)
        } else if n.kind == "field_declaration"@ {
            with_fields(
                syntax::of_kind(n.children, "variable_declarator"@),
                before,
                owner,
                parent_for(n, owner),
            )
        } else if declares_method(n.kind) {
            with_method(n, before, owner)
        } else {
            before
        }
    }
}

/// What is found when the types that `ns` declare are added.
pub open spec fn with_types(ns: Seq<NodeView>, f: Found, package: Option<Seq<char>>) -> Found
    decreases ns.len(),
{
    if ns.len() == 0 {
        f
    } else {
        let before = with_types(ns.drop_last(), f, package);
        if declares_type(ns.last().kind) {
            with_type(ns.last(), before, None, Seq::empty(), package)
        } else {
            before
        }
    }
}

/// Is this top-level node kept out of the loose code?
pub open spec fn stands_alone(n: NodeView) -> bool {
    declares_type(n.kind) || n.kind == "import_declaration"@ || n.kind == "package_declaration"@
}

/// Which top-level nodes are kept out of the loose code.
pub open spec fn standing_alone(ns: Seq<NodeView>) -> Seq<bool> {
    Seq::new(ns.len(), |i: int| stands_alone(ns[i]))
}

/// The import that an import declaration writes. The word `static` says
/// nothing of where the target is, and is left out.
pub open spec fn own_import(n: NodeView) -> Seq<ImportView> {
    match syntax::first_of(n.children, "scoped_identifier"@, "identifier"@) {
        Some(path) => match path.text {
            Some(t) => seq![
                ImportView {
                    raw: if syntax::first_of(n.children, "asterisk"@, "asterisk"@) is Some {
                        t + ".*"@
                    } else {
                        t
                    },
                    line: syntax::line_of(n.start_row),
                },
            ],
            None => Seq::empty(),
        },
        None => Seq::empty(),
    }
}

/// The imports at and below `n`.
pub open spec fn imports_of(n: NodeView) -> Seq<ImportView>
    decreases n,
{
    if n.kind == "import_declaration"@ {
        own_import(n)
    } else {
        imports_in(n.children)
    }
}

/// The imports in `ns`.
pub open spec fn imports_in(ns: Seq<NodeView>) -> Seq<ImportView>
    decreases ns,
{
    if ns.len() == 0 {
        Seq::empty()
    } else {
        imports_in(ns.drop_last()) + imports_of(ns.last())
    }
}

/// The ids of `n` and of all nodes below it.
pub open spec fn ids_of(n: NodeView) -> Set<usize>
    decreases n,
{
    ids_in(n.children).insert(n.id)
}

/// The ids of the nodes at and below those in `ns`.
pub open spec fn ids_in(ns: Seq<NodeView>) -> Set<usize>
    decreases ns,
{
    if ns.len() == 0 {
        Set::empty()
    } else {
        ids_in(ns.drop_last()).union(ids_of(ns.last()))
    }
}

/// The nodes that make up the name of the annotation `n`.
pub open spec fn own_marks(n: NodeView) -> Set<usize> {
    if n.kind == "marker_annotation"@ || n.kind == "annotation"@ {
        match syntax::field_of(n, "name"@) {
            Some(name) => ids_of(name),
            None => Set::empty(),
        }
    } else {
        Set::empty()
    }
}

/// The nodes that make up the names of the annotations at and below `n`.
pub open spec fn marks_of(n: NodeView) -> Set<usize>
    decreases n,
{
    if n.kind == "import_declaration"@ {
        Set::empty()
    } else {
        own_marks(n).union(marks_in(n.children))
    }
}

/// The nodes that make up the names of the annotations in `ns`.
pub open spec fn marks_in(ns: Seq<NodeView>) -> Set<usize>
    decreases ns,
{
    if ns.len() == 0 {
        Set::empty()
    } else {
        marks_in(ns.drop_last()).union(marks_of(ns.last()))
    }
}

/// The names of `defs`, in full and behind the last dot.
pub open spec fn def_names(defs: Seq<DefView>) -> Set<Seq<char>>
    decreases defs.len(),
{
    if defs.len() == 0 {
        Set::empty()
    } else {
        let before = def_names(defs.drop_last());
        if defs.last().kind == DefKind::ModuleInit {
            before
        } else {
            before.insert(defs.last().name).insert(text::after_last(defs.last().name, '.'))
        }
    }
}

/// The simple name that an import brings in.
pub open spec fn imported_name(raw: Seq<char>) -> Seq<char> {
    text::after_last(
        match text::without_suffix(raw, ".*"@) {
            Some(s) => s,
            None => raw,
        },
        '.',
    )
}

/// The simple names that `imports` bring in.
pub open spec fn imported_names(imports: Seq<ImportView>) -> Set<Seq<char>>
    decreases imports.len(),
{
    if imports.len() == 0 {
        Set::empty()
    } else {
        let before = imported_names(imports.drop_last());
        let name = imported_name(imports.last().raw);
        if name.len() > 0 {
            before.insert(name)
        } else {
            before
        }
    }
}

/// What precedes the first `c` in `s`, when there is one.
pub open spec fn before_first(s: Seq<char>, c: char) -> Option<Seq<char>> {
    if text::split(s, c).len() > 1 {
        Some(text::split(s, c)[0])
    } else {
        None
    }
}

/// The type that a definition belongs to; a type belongs to itself.
pub open spec fn class_of(d: DefView) -> Option<Seq<char>> {
    if d.kind == DefKind::ModuleInit {
        None
    } else if d.kind == DefKind::Class {
        Some(d.name)
    } else {
        match before_first(d.name, '#') {
            Some(class) => Some(class),
            None => before_first(d.name, '.'),
        }
    }
}

/// What the walk for references knows.
pub struct Context {
    pub draft: DraftView,
    pub fields: Seq<(Seq<char>, Seq<char>)>,
    pub known: Set<Seq<char>>,
}

/// What a bare name in the definition `def` refers to: the field of the type
/// that the definition belongs to, where the type declares one of that name,
/// and otherwise the name itself, if it is known.
pub open spec fn field_ref(c: Context, def: usize, name: Seq<char>) -> Option<Seq<char>> {
    let class = if def < c.draft.defs.len() {
        class_of(c.draft.defs[def as int])
    } else {
        None
    };
    if class is Some && c.fields.contains((class.unwrap(), name)) {
        Some(class.unwrap() + "#"@ + name)
    } else if c.known.contains(name) {
        Some(name)
    } else {
        None
    }
}

/// The read of a bare name.
pub open spec fn bare_read(c: Context, def: usize, name: Seq<char>, n: NodeView) -> RefsView {
    match field_ref(c, def, name) {
        Some(target) => RefsView::read(draft::ref_at(def, target, None, n)),
        None => RefsView::none(),
    }
}

/// The simple name of a type: neither package nor type arguments.
pub open spec fn simple_name(t: Seq<char>) -> Seq<char> {
    text::trim(text::after_last(text::split(t, '<')[0], '.'))
}

/// The references at and below `n`, which stands in the definition `current`.
///
/// A method is called by its name, a constructor by that of its type. A name
/// in a type position is always read; another name where it is a field of
/// the type around it, or known.
pub open spec fn refs_of(n: NodeView, c: Context, current: usize) -> RefsView
    decreases n,
{
    let def = c.draft.scope_at(n, current);
    if n.kind == "import_declaration"@ || n.kind == "package_declaration"@ {
        RefsView::none()
    } else if n.kind == "method_invocation"@ {
        proof {
            syntax::lemma_field_below(n, "object"@);
            syntax::lemma_field_below(n, "arguments"@);
        }
        let called = match syntax::field_of(n, "name"@) {
            Some(name) => match syntax::field_of(n, "object"@) {
                Some(object) => RefsView::call(
                    draft::ref_at(
                        def,
                        syntax::text_of(name),
                        if object.kind == "identifier"@ || object.kind == "field_access"@ {
                            Some(syntax::text_of(object))
                        } else {
                            None
                        },
                        n,
                    ),
                ).plus(
                    if object.kind == "identifier"@ {
                        bare_read(c, def, syntax::text_of(object), n)
                    } else {
                        refs_of(object, c, def)
                    },
                ),
                None => RefsView::call(draft::ref_at(def, syntax::text_of(name), None, n)),
            },
            None => RefsView::none(),
        };
        match syntax::field_of(n, "arguments"@) {
            Some(args) => called.plus(refs_of(args, c, def)),
            None => called,
        }
    } else if n.kind == "object_creation_expression"@ {
        proof {
            syntax::lemma_field_below(n, "arguments"@);
        }
        let called = match syntax::field_of(n, "type"@) {
            Some(ty) => RefsView::call(
                draft::ref_at(def, simple_name(syntax::text_of(ty)), None, n),
            ),
            None => RefsView::none(),
        };
        match syntax::field_of(n, "arguments"@) {
            Some(args) => called.plus(refs_of(args, c, def)),
            None => called,
        }
    } else if n.kind == "type_identifier"@ {
        RefsView::read(draft::ref_at(def, syntax::text_of(n), None, n))
    } else if n.kind == "field_access"@ {
        proof {
            syntax::lemma_field_below(n, "object"@);
        }
        match (syntax::field_of(n, "object"@), syntax::field_of(n, "field"@)) {
            (Some(object), Some(field)) => if object.kind == "identifier"@ {
                let x = syntax::text_of(object);
                let y = syntax::text_of(field);
                if c.known.contains(x) || c.known.contains(y) {
                    RefsView::read(draft::ref_at(def, y, Some(x), n))
                } else {
                    RefsView::none()
                }
            } else if object.kind == "this"@ {
                bare_read(c, def, syntax::text_of(field), n)
            } else {
                refs_of(object, c, def)
            },
            _ => RefsView::none(),
        }
    } else if n.kind == "identifier"@ {
        if c.draft.names.contains(n.id) {
            RefsView::none()
        } else {
            bare_read(c, def, syntax::text_of(n), n)
        }
    } else {
        refs_in(n.children, c, def)
    }
}

/// The references in `ns`, which stand in the definition `current`.
pub open spec fn refs_in(ns: Seq<NodeView>, c: Context, current: usize) -> RefsView
    decreases ns,
{
    if ns.len() == 0 {
        RefsView::none()
    } else {
        refs_in(ns.drop_last(), c, current).plus(refs_of(ns.last(), c, current))
    }
}

/// The definitions and fields of a file.
pub open spec fn found_in(root: NodeView) -> Found {
    with_types(
        root.children,
        Found {
            draft: DraftView::empty().with_def(
                draft::module_def(root, standing_alone(root.children)),
            ),
            fields: Seq::empty(),
        },
        package_name(root),
    )
}

/// What the walk for references knows of a file.
pub open spec fn context_of(root: NodeView) -> Context {
    let f = found_in(root);
    Context {
        draft: DraftView { names: f.draft.names.union(marks_of(root)), ..f.draft },
        fields: f.fields,
        known: def_names(f.draft.defs).union(imported_names(imports_of(root))),
    }
}

/// Everything extracted from a file.
pub open spec fn extracted(root: NodeView) -> ExtractionView {
    let refs = refs_of(root, context_of(root), 0);
    ExtractionView {
        defs: found_in(root).draft.defs,
        imports: imports_of(root),
        calls: draft::firsts(refs.calls),
        reads: draft::firsts(refs.reads),
    }
}

fn is_test_annotation(a: &str) -> (r: bool)
    ensures
        r == marks_test(a@),
{
    same(a, "Test") || same(a, "ParameterizedTest") || same(a, "RepeatedTest") || same(a, "TestFactory") || same(a, "TestTemplate")
}

fn is_inert_annotation(a: &str) -> (r: bool)
    ensures
        r == is_inert(a@),
{
    same(a, "Override") || same(a, "SuppressWarnings") || same(a, "Deprecated") || same(a, "SafeVarargs") || same(a, "FunctionalInterface") || same(a, "Nullable") || same(a, "NonNull") || same(a, "Nonnull") || same(a, "NotNull") || same(a, "CheckForNull")
}

fn is_type(n: &SyntaxNode) -> (r: bool)
    ensures
        r == declares_type(n@.kind),
{
    n.is("class_declaration") || n.is("interface_declaration") || n.is("enum_declaration") || n.is(
        "record_declaration",
    ) || n.is("annotation_type_declaration")
}

fn is_method(n: &SyntaxNode) -> (r: bool)
    ensures
        r == declares_method(n@.kind),
{
    n.is("method_declaration") || n.is("constructor_declaration")
}

/// The simple names of the annotations of a member.
fn annotation_names(n: &SyntaxNode) -> (r: Vec<String>)
    ensures
        text::views(r@) == annotations_of(n@),
{
    let mut out: Vec<String> = Vec::new();
    assert(text::views(out@) =~= Seq::empty());
    if let Some(modifiers) = n.first_child_of("modifiers", "modifiers") {
        let ghost all = modifiers@.children;
        let count: usize = modifiers.child_count();
        let mut i: usize = 0;
        assert(all.take(0) =~= Seq::empty());
        while i < count
            invariant
                i <= count == all.len(),
                all == modifiers@.children,
                text::views(out@) == annotation_names_in(all.take(i as int)),
            decreases count - i,
        {
            let c = modifiers.child(i);
            assert(all.take(i + 1).drop_last() =~= all.take(i as int));
            if c.is("marker_annotation") || c.is("annotation") {
                if let Some(name) = c.child_by_field("name") {
                    if let Some(t) = &name.text {
                        let simple = tail_after(t.as_str(), '.');
                        let ghost was = out@;
                        out.push(simple);
                        assert(text::views(out@) =~= text::views(was).push(simple@));
                    }
                }
            }
            i = i + 1;
        }
        assert(all.take(all.len() as int) =~= all);
    }
    out
}

fn is_test_method(n: &SyntaxNode) -> (r: bool)
    ensures
        r == is_test(n@),
{
    let names = annotation_names(n);
    let mut i: usize = 0;
    while i < names.len()
        invariant
            i <= names@.len(),
            text::views(names@) == annotations_of(n@),
            forall|j: int| 0 <= j < i ==> !marks_test(#[trigger] annotations_of(n@)[j]),
        decreases names@.len() - i,
    {
        assert(annotations_of(n@)[i as int] == names@[i as int]@);
        if is_test_annotation(names[i].as_str()) {
            return true;
        }
        i = i + 1;
    }
    assert(annotations_of(n@).len() == names@.len());
    false
}

/// Does the member carry an annotation by which something other than a call
/// may reach it?
fn container_invocable(n: &SyntaxNode) -> (r: bool)
    ensures
        r == container_reaches(n@),
{
    let names = annotation_names(n);
    let mut i: usize = 0;
    while i < names.len()
        invariant
            i <= names@.len(),
            text::views(names@) == annotations_of(n@),
            forall|j: int| 0 <= j < i ==> is_inert(#[trigger] annotations_of(n@)[j]),
        decreases names@.len() - i,
    {
        assert(annotations_of(n@)[i as int] == names@[i as int]@);
        if !is_inert_annotation(names[i].as_str()) {
            return true;
        }
        i = i + 1;
    }
    assert(annotations_of(n@).len() == names@.len());
    false
}

fn package_of_file(root: &SyntaxNode) -> (r: Option<String>)
    ensures
        text::opt_view(r) == package_name(root@),
{
    match root.first_child_of("package_declaration", "package_declaration") {
        Some(decl) => match decl.first_child_of("scoped_identifier", "identifier") {
            Some(name) => text::copy_opt(&name.text),
            None => None,
        },
        None => None,
    }
}

/// The chain of names of a test.
pub fn test_id_for(package: &Option<String>, types: &Vec<String>, method: &str) -> (r: Vec<String>)
    ensures
        text::views(r@) == test_chain(text::opt_view(*package), text::views(types@), method@),
{
    let ghost tv = text::views(types@);
    let mut out: Vec<String> = Vec::new();
    if types.len() > 0 {
        let outer = match package {
            Some(p) => cat3(p.as_str(), ".", types[0].as_str()),
            None => types[0].clone(),
        };
        let ghost ov = outer@;
        out.push(outer);
        assert(text::views(out@) =~= seq![ov] + tv.subrange(1, 1));
        let mut i: usize = 1;
        while i < types.len()
            invariant
                1 <= i <= types@.len(),
                tv == text::views(types@),
                text::views(out@) == seq![ov] + tv.subrange(1, i as int),
            decreases types@.len() - i,
        {
            let t = types[i].clone();
            let ghost was = out@;
            out.push(t);
            assert(text::views(out@) =~= text::views(was).push(t@));
            assert(seq![ov] + tv.subrange(1, i + 1) =~= (seq![ov] + tv.subrange(1, i as int)).push(
                t@,
            ));
            i = i + 1;
        }
        assert(tv.subrange(1, tv.len() as int) =~= tv.skip(1));
    }
    let ghost was = out@;
    out.push(method.to_owned());
    assert(text::views(out@) =~= text::views(was).push(method@));
    assert(types@.len() == 0 ==> text::views(out@) =~= seq![method@]);
    out
}

/// What a list of pairs says.
pub open spec fn pair_views(v: Seq<(String, String)>) -> Seq<(Seq<char>, Seq<char>)> {
    v.map_values(|p: (String, String)| (p.0@, p.1@))
}

/// Which of the children of `n` have a definition of their own.
fn members_with_defs(n: &SyntaxNode) -> (r: Vec<bool>)
    ensures
        r@ == own_members(n@.children),
{
    let count: usize = n.child_count();
    let mut out: Vec<bool> = Vec::new();
    let mut i: usize = 0;
    while i < count
        invariant
            i <= count == n@.children.len(),
            out@.len() == i,
            forall|j: int| 0 <= j < i ==> out@[j] == own_member(#[trigger] n@.children[j]),
        decreases count - i,
    {
        let c = n.child(i);
        out.push(is_method(c) || is_type(c));
        i = i + 1;
    }
    assert(out@ =~= own_members(n@.children));
    out
}

/// Adds the fields that a field declaration declares.
fn handle_fields(
    member: &SyntaxNode,
    d: &mut Draft,
    fields: &mut Vec<(String, String)>,
    class: &str,
    parent: Option<usize>,
    Ghost(owner): Ghost<Owner>,
)
    requires
        old(d)@.wf(),
        parent matches Some(p) ==> p < old(d)@.defs.len(),
        owner.name == class@,
    ensures
        (Found { draft: final(d)@, fields: pair_views(final(fields)@) }) == with_fields(
            syntax::of_kind(member@.children, "variable_declarator"@),
            Found { draft: old(d)@, fields: pair_views(old(fields)@) },
            owner,
            parent,
        ),
        final(d)@.wf(),
        final(d)@.defs.len() >= old(d)@.defs.len(),
{
    let ghost was = Found { draft: d@, fields: pair_views(fields@) };
    let ns = member.children_of("variable_declarator");
    let ghost all = syntax::seen(ns@);
    let mut i: usize = 0;
    assert(all.take(0) =~= Seq::empty());
    while i < ns.len()
        invariant
            i <= ns@.len() == all.len(),
            all == syntax::seen(ns@),
            d@.wf(),
            was.draft.defs.len() <= d@.defs.len(),
            parent matches Some(p) ==> p < was.draft.defs.len(),
            owner.name == class@,
            (Found { draft: d@, fields: pair_views(fields@) }) == with_fields(
                all.take(i as int),
                was,
                owner,
                parent,
            ),
        decreases ns@.len() - i,
    {
        let n = ns[i];
        assert(all.take(i + 1).drop_last() =~= all.take(i as int));
        assert(all.take(i + 1).last() == n@);
        if let Some(name_node) = n.child_by_field("name") {
            if let Some(name) = &name_node.text {
                d.name(name_node.id);
                let ghost before = fields@;
                let pair = (class.to_owned(), name.clone());
                fields.push(pair);
                assert(pair_views(fields@) =~= pair_views(before).push((class@, name@)));
                let full = cat3(class, "#", name.as_str());
                d.add(n, full, DefKind::Method, parent, None, false);
                d.open(n.id);
            }
        }
        i = i + 1;
    }
    assert(all.take(all.len() as int) =~= all);
}

/// Adds the method or constructor `n` of the type `class`.
fn handle_method(
    n: &SyntaxNode,
    d: &mut Draft,
    at: usize,
    class: &str,
    chain: &Vec<String>,
    package: &Option<String>,
    Ghost(fields): Ghost<Seq<(Seq<char>, Seq<char>)>>,
)
    requires
        old(d)@.wf(),
        at < old(d)@.defs.len(),
    ensures
        (Found { draft: final(d)@, fields }) == with_method(
            n@,
            Found { draft: old(d)@, fields },
            Owner {
                at,
                name: class@,
                chain: text::views(chain@),
                package: text::opt_view(*package),
            },
        ),
        final(d)@.wf(),
        final(d)@.defs.len() >= old(d)@.defs.len(),
{
    if let Some(name_node) = n.child_by_field("name") {
        if let Some(name) = &name_node.text {
            d.name(name_node.id);
            let full = cat3(class, ".", name.as_str());
            let parent: Option<usize> = if container_invocable(n) {
                Some(at)
            } else {
                None
            };
            if is_test_method(n) {
                let id = test_id_for(package, chain, name.as_str());
                d.add(n, full, DefKind::TestCase, parent, Some(id), false);
            } else {
                d.add(n, full, DefKind::Method, parent, None, false);
            }
            d.open(n.id);
        }
    }
}

/// Adds the type that `n` declares, with everything inside it.
fn handle_type_declaration(
    n: &SyntaxNode,
    d: &mut Draft,
    fields: &mut Vec<(String, String)>,
    parent: Option<usize>,
    chain: &Vec<String>,
    package: &Option<String>,
)
    requires
        old(d)@.wf(),
        parent matches Some(p) ==> p < old(d)@.defs.len(),
    ensures
        (Found { draft: final(d)@, fields: pair_views(final(fields)@) }) == with_type(
            n@,
            Found { draft: old(d)@, fields: pair_views(old(fields)@) },
            parent,
            text::views(chain@),
            text::opt_view(*package),
        ),
        final(d)@.wf(),
        final(d)@.defs.len() >= old(d)@.defs.len(),
    decreases n,
{
    let name_node = match n.child_by_field("name") {
        Some(x) => x,
        None => {
            return;
        },
    };
    let name: &String = match &name_node.text {
        Some(t) => t,
        None => {
            return;
        },
    };
    let (sig_hash, _) = fingerprint::split_fingerprint(n);
    let body_hash = match n.child_by_field("body") {
        Some(body) => {
            let own = members_with_defs(body);
            Some(fingerprint::module_init_fingerprint(body, &own))
        },
        None => None,
    };
    let def = ExtractedDef {
        name: name.clone(),
        kind: DefKind::Class,
        start_line: line(n.start_row),
        end_line: line(n.end_row),
        test_id: None,
        computed_name: false,
        parent,
        sig_hash,
        body_hash,
    };
    assert(def@ == type_def(n@, name@, parent));
    d.add_def(def);
    d.name(name_node.id);
    d.open(n.id);
    let at: usize = d.last();
    let mut inner = copy_all(chain);
    let ghost before = inner@;
    inner.push(name.clone());
    assert(text::views(inner@) =~= text::views(before).push(name@));
    let ghost own = Found { draft: d@, fields: pair_views(fields@) };
    let ghost owner = Owner {
        at,
        name: name@,
        chain: text::views(inner@),
        package: text::opt_view(*package),
    };
    let body = match n.child_by_field("body") {
        Some(b) => b,
        None => {
            return;
        },
    };
    let ghost all = body@.children;
    let count: usize = body.child_count();
    let mut i: usize = 0;
    assert(all.take(0) =~= Seq::empty());
    while i < count
        invariant
            i <= count == all.len(),
            all == body@.children,
            decreases_to!(n => body),
            owner == (Owner {
                at,
                name: name@,
                chain: text::views(inner@),
                package: text::opt_view(*package),
            }),
            d@.wf(),
            at < own.draft.defs.len() <= d@.defs.len(),
            (Found { draft: d@, fields: pair_views(fields@) }) == with_members(
                all.take(i as int),
                own,
                owner,
            ),
        decreases count - i,
    {
        let member = body.child(i);
        assert(all.take(i + 1).drop_last() =~= all.take(i as int));
        if is_type(member) {
            handle_type_declaration(member, d, fields, Some(at), &inner, package);
        } else if member.is("field_declaration") {
            let holder: Option<usize> = if container_invocable(member) {
                Some(at)
            } else {
                None
            };
            handle_fields(member, d, fields, name.as_str(), holder, Ghost(owner));
        } else if is_method(member) {
            handle_method(
                member,
                d,
                at,
                name.as_str(),
                &inner,
                package,
                Ghost(pair_views(fields@)),
            );
        }
        i = i + 1;
    }
    assert(all.take(all.len() as int) =~= all);
}

fn is_alone(n: &SyntaxNode) -> (r: bool)
    ensures
        r == stands_alone(n@),
{
    is_type(n) || n.is("import_declaration") || n.is("package_declaration")
}

/// Collects the imports at and below `n`.
fn collect_imports(n: &SyntaxNode, out: &mut Vec<ImportRef>)
    ensures
        language::import_views(final(out)@) == language::import_views(old(out)@) + imports_of(n@),
    decreases n,
{
    let ghost was = language::import_views(out@);
    if n.is("import_declaration") {
        if let Some(path) = n.first_child_of("scoped_identifier", "identifier") {
            if let Some(t) = &path.text {
                let raw = if n.first_child_of("asterisk", "asterisk").is_some() {
                    cat(t.as_str(), ".*")
                } else {
                    t.clone()
                };
                let i = ImportRef { raw, line: line(n.start_row) };
                let ghost before = out@;
                out.push(i);
                assert(language::import_views(out@) =~= language::import_views(before).push(i@));
            }
        }
        assert(language::import_views(out@) =~= was + imports_of(n@));
        return;
    }
    let ghost all = n@.children;
    let count: usize = n.child_count();
    let mut i: usize = 0;
    assert(all.take(0) =~= Seq::empty());
    assert(was =~= was + imports_in(all.take(0)));
    while i < count
        invariant
            i <= count == all.len(),
            all == n@.children,
            language::import_views(out@) == was + imports_in(all.take(i as int)),
        decreases count - i,
    {
        assert(all.take(i + 1).drop_last() =~= all.take(i as int));
        collect_imports(n.child(i), out);
        assert(language::import_views(out@) =~= was + imports_in(all.take(i + 1)));
        i = i + 1;
    }
    assert(all.take(all.len() as int) =~= all);
}

/// Marks `n` and all nodes below it as names.
fn mark_identifiers(n: &SyntaxNode, d: &mut Draft)
    ensures
        final(d)@ == (DraftView { names: old(d)@.names.union(ids_of(n@)), ..old(d)@ }),
    decreases n,
{
    let ghost was = d@;
    d.name(n.id);
    let ghost all = n@.children;
    let count: usize = n.child_count();
    let mut i: usize = 0;
    assert(all.take(0) =~= Seq::empty());
    assert(d@.names =~= was.names.insert(n.id).union(ids_in(all.take(0))));
    while i < count
        invariant
            i <= count == all.len(),
            all == n@.children,
            d@ == (DraftView {
                names: was.names.insert(n.id).union(ids_in(all.take(i as int))),
                ..was
            }),
        decreases count - i,
    {
        assert(all.take(i + 1).drop_last() =~= all.take(i as int));
        mark_identifiers(n.child(i), d);
        assert(d@.names =~= was.names.insert(n.id).union(ids_in(all.take(i + 1))));
        i = i + 1;
    }
    assert(all.take(all.len() as int) =~= all);
    assert(d@.names =~= was.names.union(ids_of(n@)));
}

/// Marks the names of the annotations at and below `n`: they name no symbol
/// of the file. Their arguments are left alone.
fn mark_annotations(n: &SyntaxNode, d: &mut Draft)
    ensures
        final(d)@ == (DraftView { names: old(d)@.names.union(marks_of(n@)), ..old(d)@ }),
    decreases n,
{
    let ghost was = d@;
    if n.is("import_declaration") {
        assert(was.names =~= was.names.union(marks_of(n@)));
        return;
    }
    if n.is("marker_annotation") || n.is("annotation") {
        if let Some(name) = n.child_by_field("name") {
            mark_identifiers(name, d);
        }
    }
    assert(d@.names =~= was.names.union(own_marks(n@)));
    let ghost all = n@.children;
    let count: usize = n.child_count();
    let mut i: usize = 0;
    assert(all.take(0) =~= Seq::empty());
    assert(d@.names =~= was.names.union(own_marks(n@)).union(marks_in(all.take(0))));
    while i < count
        invariant
            i <= count == all.len(),
            all == n@.children,
            d@ == (DraftView {
                names: was.names.union(own_marks(n@)).union(marks_in(all.take(i as int))),
                ..was
            }),
        decreases count - i,
    {
        assert(all.take(i + 1).drop_last() =~= all.take(i as int));
        mark_annotations(n.child(i), d);
        assert(d@.names =~= was.names.union(own_marks(n@)).union(marks_in(all.take(i + 1))));
        i = i + 1;
    }
    assert(all.take(all.len() as int) =~= all);
    assert(d@.names =~= was.names.union(marks_of(n@)));
}

/// The names that a read may go to.
fn build_known_names(defs: &Vec<ExtractedDef>, imports: &Vec<ImportRef>) -> (r: StringHashSet)
    ensures
        r@ == def_names(language::def_views(defs@)).union(
            imported_names(language::import_views(imports@)),
        ),
{
    let ghost dv = language::def_views(defs@);
    let ghost iv = language::import_views(imports@);
    let mut names: StringHashSet = StringHashSet::new();
    let mut i: usize = 0;
    assert(dv.take(0) =~= Seq::empty());
    assert(iv.take(0) =~= Seq::empty());
    while i < defs.len()
        invariant
            i <= defs@.len() == dv.len(),
            dv == language::def_views(defs@),
            names@ == def_names(dv.take(i as int)),
        decreases defs@.len() - i,
    {
        assert(dv.take(i + 1).drop_last() =~= dv.take(i as int));
        assert(dv.take(i + 1).last() == defs@[i as int]@);
        if defs[i].kind != DefKind::ModuleInit {
            names.insert(defs[i].name.clone());
            names.insert(tail_after(defs[i].name.as_str(), '.'));
        }
        i = i + 1;
    }
    assert(dv.take(dv.len() as int) =~= dv);
    let ghost own = names@;
    i = 0;
    assert(names@ =~= own.union(imported_names(iv.take(0))));
    while i < imports.len()
        invariant
            i <= imports@.len() == iv.len(),
            iv == language::import_views(imports@),
            names@ == own.union(imported_names(iv.take(i as int))),
        decreases imports@.len() - i,
    {
        assert(iv.take(i + 1).drop_last() =~= iv.take(i as int));
        assert(iv.take(i + 1).last() == imports@[i as int]@);
        let raw = imports[i].raw.as_str();
        let name = match cut_suffix(raw, ".*") {
            Some(s) => tail_after(s.as_str(), '.'),
            None => tail_after(raw, '.'),
        };
        if !name.as_str().is_empty() {
            names.insert(name);
        }
        assert(names@ =~= own.union(imported_names(iv.take(i + 1))));
        i = i + 1;
    }
    assert(iv.take(iv.len() as int) =~= iv);
    names
}

fn head_before(s: &str, c: char) -> (r: Option<String>)
    ensures
        text::opt_view(r) == before_first(s@, c),
{
    let parts = split_on(s, c);
    assert(text::views(parts@)[0] == parts@[0]@);
    assert(text::views(parts@).len() == parts@.len());
    if parts.len() > 1 {
        Some(parts[0].clone())
    } else {
        None
    }
}

fn class_name_of(d: &ExtractedDef) -> (r: Option<String>)
    ensures
        text::opt_view(r) == class_of(d@),
{
    if d.kind == DefKind::ModuleInit {
        None
    } else if d.kind == DefKind::Class {
        Some(d.name.clone())
    } else {
        match head_before(d.name.as_str(), '#') {
            Some(class) => Some(class),
            None => head_before(d.name.as_str(), '.'),
        }
    }
}

/// The type that each definition belongs to.
fn def_classes(defs: &Vec<ExtractedDef>) -> (r: Vec<Option<String>>)
    ensures
        r@.len() == defs@.len(),
        forall|i: int|
            0 <= i < defs@.len() ==> text::opt_view(#[trigger] r@[i]) == class_of(defs@[i]@),
{
    let mut out: Vec<Option<String>> = Vec::new();
    let mut i: usize = 0;
    while i < defs.len()
        invariant
            i <= defs@.len(),
            out@.len() == i,
            forall|j: int|
                0 <= j < i ==> text::opt_view(#[trigger] out@[j]) == class_of(defs@[j]@),
        decreases defs@.len() - i,
    {
        out.push(class_name_of(&defs[i]));
        i = i + 1;
    }
    out
}

/// What the walk for references knows, with the type of each definition.
struct RefCtx {
    draft: Draft,
    classes: Vec<Option<String>>,
    fields: Vec<(String, String)>,
    known: StringHashSet,
}

impl RefCtx {
    spec fn says(&self) -> Context {
        Context { draft: self.draft@, fields: pair_views(self.fields@), known: self.known@ }
    }

    spec fn wf(&self) -> bool {
        &&& self.draft@.wf()
        &&& self.classes@.len() == self.draft.defs@.len()
        &&& forall|i: int|
            0 <= i < self.classes@.len() ==> text::opt_view(#[trigger] self.classes@[i])
                == class_of(self.draft.defs@[i]@)
    }

    /// Does the type `class` declare the field `name`?
    fn has_field(&self, class: &str, name: &str) -> (r: bool)
        ensures
            r == pair_views(self.fields@).contains((class@, name@)),
    {
        let mut i: usize = 0;
        while i < self.fields.len()
            invariant
                i <= self.fields@.len(),
                forall|j: int|
                    0 <= j < i ==> pair_views(self.fields@)[j] != (class@, name@),
            decreases self.fields@.len() - i,
        {
            assert(pair_views(self.fields@)[i as int] == (
                self.fields@[i as int].0@,
                self.fields@[i as int].1@,
            ));
            if same(self.fields[i].0.as_str(), class) && same(self.fields[i].1.as_str(), name) {
                return true;
            }
            i = i + 1;
        }
        assert forall|j: int| 0 <= j < pair_views(self.fields@).len() implies pair_views(
            self.fields@,
        )[j] != (class@, name@) by {}
        false
    }

    /// What a bare name in the definition `def` refers to.
    fn field_ref(&self, def: usize, name: &str) -> (r: Option<String>)
        requires
            self.wf(),
        ensures
            text::opt_view(r) == field_ref(self.says(), def, name@),
    {
        if def < self.classes.len() {
            assert(self.draft@.defs[def as int] == self.draft.defs@[def as int]@);
            if let Some(class) = &self.classes[def] {
                if self.has_field(class.as_str(), name) {
                    return Some(cat3(class.as_str(), "#", name));
                }
            }
        }
        if self.known.contains(name) {
            Some(name.to_owned())
        } else {
            None
        }
    }

    /// Adds the read of a bare name.
    fn read_bare(&self, def: usize, name: &str, n: &SyntaxNode, out: &mut Refs)
        requires
            self.wf(),
            def < self.draft@.defs.len(),
            old(out)@.from_within(self.draft@.defs.len() as int),
        ensures
            final(out)@ == old(out)@.plus(bare_read(self.says(), def, name@, n@)),
            final(out)@.from_within(self.draft@.defs.len() as int),
    {
        let ghost was = out@;
        if let Some(target) = self.field_ref(def, name) {
            out.read(def, target, None, n);
        }
        assert(out@ =~= was.plus(bare_read(self.says(), def, name@, n@)));
    }
}

/// The simple name of a type: neither package nor type arguments.
pub fn simple_type_name(t: &str) -> (r: String)
    ensures
        r@ == simple_name(t@),
{
    let parts = split_on(t, '<');
    assert(text::views(parts@)[0] == parts@[0]@);
    trimmed(tail_after(parts[0].as_str(), '.').as_str())
}

/// Adds the references at and below `n`.
fn walk_refs(n: &SyntaxNode, c: &RefCtx, current: usize, out: &mut Refs)
    requires
        c.wf(),
        current < c.draft@.defs.len(),
        old(out)@.from_within(c.draft@.defs.len() as int),
    ensures
        final(out)@ == old(out)@.plus(refs_of(n@, c.says(), current)),
        final(out)@.from_within(c.draft@.defs.len() as int),
    decreases n,
{
    let ghost was = out@;
    let def: usize = c.draft.scope_of(n, current);
    if n.is("import_declaration") || n.is("package_declaration") {
        assert(out@ =~= was.plus(refs_of(n@, c.says(), current)));
    } else if n.is("method_invocation") {
        if let Some(name) = n.child_by_field("name") {
            match n.child_by_field("object") {
                Some(object) => {
                    let plain: bool = object.is("identifier");
                    let qualifier = if plain || object.is("field_access") {
                        Some(object.text_or_empty())
                    } else {
                        None
                    };
                    out.call(def, name.text_or_empty(), qualifier, n);
                    if plain {
                        c.read_bare(def, object.text_or_empty().as_str(), n, out);
                    } else {
                        walk_refs(object, c, def, out);
                    }
                },
                None => {
                    out.call(def, name.text_or_empty(), None, n);
                },
            }
        }
        if let Some(args) = n.child_by_field("arguments") {
            walk_refs(args, c, def, out);
        }
        assert(out@ =~= was.plus(refs_of(n@, c.says(), current)));
    } else if n.is("object_creation_expression") {
        if let Some(ty) = n.child_by_field("type") {
            out.call(def, simple_type_name(ty.text_or_empty().as_str()), None, n);
        }
        if let Some(args) = n.child_by_field("arguments") {
            walk_refs(args, c, def, out);
        }
        assert(out@ =~= was.plus(refs_of(n@, c.says(), current)));
    } else if n.is("type_identifier") {
        out.read(def, n.text_or_empty(), None, n);
    } else if n.is("field_access") {
        if let Some(object) = n.child_by_field("object") {
            if let Some(field) = n.child_by_field("field") {
                if object.is("identifier") {
                    let x = object.text_or_empty();
                    let y = field.text_or_empty();
                    if c.known.contains(x.as_str()) || c.known.contains(y.as_str()) {
                        out.read(def, y, Some(x), n);
                    }
                } else if object.is("this") {
                    c.read_bare(def, field.text_or_empty().as_str(), n, out);
                } else {
                    walk_refs(object, c, def, out);
                }
            }
        }
        assert(out@ =~= was.plus(refs_of(n@, c.says(), current)));
    } else if n.is("identifier") {
        if !c.draft.is_name(n) {
            c.read_bare(def, n.text_or_empty().as_str(), n, out);
        }
        assert(out@ =~= was.plus(refs_of(n@, c.says(), current)));
    } else {
        let ghost all = n@.children;
        let count: usize = n.child_count();
        let mut i: usize = 0;
        assert(all.take(0) =~= Seq::empty());
        assert(out@ =~= was.plus(refs_in(all.take(0), c.says(), def)));
        while i < count
            invariant
                i <= count == all.len(),
                all == n@.children,
                c.wf(),
                def < c.draft@.defs.len(),
                out@.from_within(c.draft@.defs.len() as int),
                out@ == was.plus(refs_in(all.take(i as int), c.says(), def)),
            decreases count - i,
        {
            assert(all.take(i + 1).drop_last() =~= all.take(i as int));
            walk_refs(n.child(i), c, def, out);
            assert(out@ =~= was.plus(refs_in(all.take(i + 1), c.says(), def)));
            i = i + 1;
        }
        assert(all.take(all.len() as int) =~= all);
    }
}

/// The definitions of a file, and its fields with their types.
fn find_types(root: &SyntaxNode) -> (r: (Draft, Vec<(String, String)>))
    ensures
        (Found { draft: r.0@, fields: pair_views(r.1@) }) == found_in(root@),
        r.0@.wf(),
        r.0@.defs.len() > 0,
{
    let ghost all = root@.children;
    let count: usize = root.child_count();
    let mut skip: Vec<bool> = Vec::new();
    let mut i: usize = 0;
    while i < count
        invariant
            i <= count == all.len(),
            all == root@.children,
            skip@.len() == i,
            forall|j: int| 0 <= j < i ==> skip@[j] == stands_alone(#[trigger] all[j]),
        decreases count - i,
    {
        skip.push(is_alone(root.child(i)));
        i = i + 1;
    }
    assert(skip@ =~= standing_alone(all));
    let mut d = Draft::of_module(root, &skip);
    let mut fields: Vec<(String, String)> = Vec::new();
    assert(pair_views(fields@) =~= Seq::empty());
    let package = package_of_file(root);
    let chain: Vec<String> = Vec::new();
    assert(text::views(chain@) =~= Seq::empty());
    let ghost first = Found { draft: d@, fields: pair_views(fields@) };
    i = 0;
    assert(all.take(0) =~= Seq::empty());
    while i < count
        invariant
            i <= count == all.len(),
            all == root@.children,
            text::views(chain@) == Seq::<Seq<char>>::empty(),
            text::opt_view(package) == package_name(root@),
            (Found { draft: d@, fields: pair_views(fields@) }) == with_types(
                all.take(i as int),
                first,
                package_name(root@),
            ),
            d@.wf(),
            d@.defs.len() > 0,
        decreases count - i,
    {
        let n = root.child(i);
        assert(all.take(i + 1).drop_last() =~= all.take(i as int));
        if is_type(n) {
            handle_type_declaration(n, &mut d, &mut fields, None, &chain, &package);
        }
        i = i + 1;
    }
    assert(all.take(all.len() as int) =~= all);
    (d, fields)
}

impl Default for JavaLanguage {
    /// Java in a repository that declares nothing.
    fn default() -> (r: Self)
        ensures
            r.index.holds(java_index::Filed::none()),
    {
        JavaLanguage { index: RepoIndex::new() }
    }
}

impl JavaLanguage {
    /// Java in the repository whose top directory is `top`.
    pub fn for_repo(top: &java_index::Dir) -> (r: JavaLanguage)
        ensures
            r.index.holds(java_index::filed_in_repo(top@)),
    {
        JavaLanguage { index: RepoIndex::of(top) }
    }
}

impl Language for JavaLanguage {
    open spec fn spec_id(&self) -> Seq<char> {
        "java"@
    }

    open spec fn spec_extensions(&self) -> Seq<Seq<char>> {
        seq!["java"@]
    }

    open spec fn spec_grammar(&self, path: Seq<char>) -> Grammar {
        Grammar::Java
    }

    open spec fn spec_extract(&self, tree: NodeView) -> ExtractionView {
        extracted(tree)
    }

    open spec fn spec_probes(&self, from_file: Seq<char>, raw: Seq<char>) -> Seq<Seq<char>> {
        Seq::empty()
    }

    open spec fn spec_resolve(
        &self,
        from_file: Seq<char>,
        raw: Seq<char>,
        repo: FactsView,
    ) -> Option<Seq<char>> {
        java_index::named_by(self.index, from_file, raw)
    }

    open spec fn spec_package_key(&self, file: Seq<char>) -> Option<Seq<char>> {
        Some(java_index::java_package(file))
    }

    fn id(&self) -> (r: String) {
        "java".to_owned()
    }

    fn extensions(&self) -> (r: Vec<String>) {
        let mut out: Vec<String> = Vec::new();
        out.push("java".to_owned());
        assert(text::views(out@) =~= self.spec_extensions());
        out
    }

    fn grammar(&self, path: &str) -> (r: Grammar) {
        Grammar::Java
    }

    fn extract(&self, tree: &SyntaxNode) -> (r: Extraction) {
        let (mut d, fields) = find_types(tree);
        let ghost found = found_in(tree@);
        let mut imports: Vec<ImportRef> = Vec::new();
        assert(language::import_views(imports@) =~= Seq::empty());
        collect_imports(tree, &mut imports);
        assert(language::import_views(imports@) =~= imports_of(tree@));
        let known = build_known_names(&d.defs, &imports);
        let classes = def_classes(&d.defs);
        let ghost defs = d.defs@;
        mark_annotations(tree, &mut d);
        proof {
            assert(d@.defs == language::def_views(defs));
            assert forall|i: int| 0 <= i < d.defs@.len() implies d.defs@[i]@ == (
            #[trigger] defs[i])@ by {
                assert(language::def_views(d.defs@)[i] == language::def_views(defs)[i]);
            }
            assert(language::def_views(d.defs@).len() == language::def_views(defs).len());
            assert(d@.scope == found.draft.scope);
        }
        let c = RefCtx { draft: d, classes, fields, known };
        proof {
            assert(c.draft@.wf()) by {
                assert(c.draft@.defs == found.draft.defs);
            }
            assert forall|i: int| 0 <= i < c.classes@.len() implies text::opt_view(
                #[trigger] c.classes@[i],
            ) == class_of(c.draft.defs@[i]@) by {
                assert(d.defs@[i]@ == defs[i]@);
            }
        }
        let mut refs = Refs::new();
        walk_refs(tree, &c, 0, &mut refs);
        proof {
            draft::lemma_plus(refs_of(tree@, c.says(), 0), RefsView::none(), RefsView::none());
            assert(c.says() == context_of(tree@));
        }
        let ghost n = c.draft@.defs.len() as int;
        let ghost all = refs@;
        assert(draft::all_from(all.calls, n) && draft::all_from(all.reads, n));
        let calls = dedup_refs(refs.calls);
        let reads = dedup_refs(refs.reads);
        assert(draft::all_from(language::ref_views(calls@), n));
        assert(draft::all_from(language::ref_views(reads@), n));
        Extraction { defs: c.draft.defs, imports, calls, reads }
    }

    fn import_probes(&self, from_file: &str, raw: &str) -> (r: Vec<String>) {
        let out: Vec<String> = Vec::new();
        assert(text::views(out@) =~= Seq::empty());
        out
    }

    fn resolve_import(&self, from_file: &str, raw: &str, repo: &RepoFacts) -> (r: Option<String>) {
        self.index.resolve(from_file, raw)
    }

    fn package_key(&self, file: &str) -> (r: Option<String>) {
        Some(java_index::package_of(file))
    }
}

} // verus!
