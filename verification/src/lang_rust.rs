//! The Rust plugin: functions, types, methods of `impl` blocks, tests marked
//! by attributes, and `mod` and `use` imports within the crate.
use vstd::hash_set::StringHashSet;
use vstd::prelude::*;

use crate::draft;
use crate::draft::{dedup_refs, Draft, DraftView, Refs, RefsView};
use crate::graph::DefKind;
use crate::language;
use crate::language::{
    DefView, ExtractedDef, Extraction, ExtractionView, FactsView, ImportRef, ImportView, Language,
    RepoFacts,
};
use crate::paths;
use crate::paths::{directory, file_name, file_stem, join_path, parts_of, render_parts};
use crate::syntax;
use crate::syntax::{line, Grammar, NodeView, SyntaxNode};
use crate::text;
use crate::text::{begins, cat, cat3, chars_of, copy_all, cut_prefix, ends, same, split_on, string_of, tail_after};

verus! {

/// Rust.
pub struct RustLanguage;

/// Does an attribute of this path make a function a test: `test`, `bench`, a
/// path that ends in one of them such as `tokio::test`, or `rstest`?
pub open spec fn marks_test(path: Seq<char>) -> bool {
    ||| path == "rstest"@
    ||| path == "test"@
    ||| text::ends_with(path, "::test"@)
    ||| path == "bench"@
    ||| text::ends_with(path, "::bench"@)
}

/// Does the attribute `n` make a function a test?
pub open spec fn is_test_attribute(n: NodeView) -> bool {
    match syntax::named_child_of(n, 0) {
        Some(attribute) => match syntax::named_child_of(attribute, 0) {
            Some(path) => match path.text {
                Some(t) => marks_test(t),
                None => false,
            },
            None => false,
        },
        None => false,
    }
}

/// Does one of the attributes make a function a test?
pub open spec fn any_test_attribute(attrs: Seq<NodeView>) -> bool {
    exists|i: int| 0 <= i < attrs.len() && is_test_attribute(#[trigger] attrs[i])
}

/// What the walk over items finds.
#[verifier::ext_equal]
pub struct Found {
    pub draft: DraftView,
    pub imports: Seq<ImportView>,
}

impl Found {
    /// One more import, written by `n`.
    pub open spec fn with_import(self, raw: Seq<char>, n: NodeView) -> Found {
        Found {
            imports: self.imports.push(ImportView { raw, line: syntax::line_of(n.start_row) }),
            ..self
        }
    }
}

/// What is found when the function `n` with the attributes `attrs` is added,
/// which stands in the modules `mods`.
pub open spec fn with_function(
    n: NodeView,
    f: Found,
    mods: Seq<Seq<char>>,
    attrs: Seq<NodeView>,
) -> Found {
    match syntax::field_of(n, "name"@) {
        Some(name_node) => match name_node.text {
            Some(name) => {
                let def = if any_test_attribute(attrs) {
                    draft::def_of(n, name, DefKind::TestCase, None, Some(mods.push(name)), false)
                } else {
                    draft::def_of(n, name, DefKind::Function, None, None, false)
                };
                Found { draft: f.draft.with_def(def).opened(n.id).named(name_node.id), ..f }
            },
            None => f,
        },
        None => f,
    }
}

/// What is found when the struct, enum or trait `n` is added.
pub open spec fn with_type(n: NodeView, f: Found) -> Found {
    match syntax::field_of(n, "name"@) {
        Some(name_node) => match name_node.text {
            Some(name) => Found {
                draft: f.draft.with_def(
                    draft::def_of(n, name, DefKind::Class, None, None, false),
                ).opened(n.id).named(name_node.id),
                ..f
            },
            None => f,
        },
        None => f,
    }
}

/// A type's text without its generic arguments.
pub open spec fn without_generics(t: Seq<char>) -> Seq<char> {
    text::split(t, '<')[0]
}

/// What is found when the functions among `ns`, the methods of the type
/// `ty`, are added.
pub open spec fn with_methods(ns: Seq<NodeView>, ty: Seq<char>, f: Found) -> Found
    decreases ns.len(),
{
    if ns.len() == 0 {
        f
    } else {
        let before = with_methods(ns.drop_last(), ty, f);
        let n = ns.last();
        if n.kind == "function_item"@ {
            match syntax::field_of(n, "name"@) {
                Some(name_node) => match name_node.text {
                    Some(name) => Found {
                        draft: before.draft.with_def(
                            draft::def_of(n, ty + "."@ + name, DefKind::Method, None, None, false),
                        ).opened(n.id).named(name_node.id),
                        ..before
                    },
                    None => before,
                },
                None => before,
            }
        } else {
            before
        }
    }
}

/// What is found when the `impl` block `n` is added.
pub open spec fn with_impl(n: NodeView, f: Found) -> Found {
    match syntax::field_of(n, "type"@) {
        Some(ty) => match (ty.text, syntax::field_of(n, "body"@)) {
            (Some(t), Some(body)) => with_methods(body.children, without_generics(t), f),
            _ => f,
        },
        None => f,
    }
}

/// What is found when the `use` declaration `n` is added.
pub open spec fn with_use(n: NodeView, f: Found) -> Found {
    match syntax::field_of(n, "argument"@) {
        Some(arg) => match arg.text {
            Some(t) => f.with_import("use "@ + t, n),
            None => f,
        },
        None => f,
    }
}

/// What is found when the module `n` is added: one with a body holds items,
/// one without is an import.
pub open spec fn with_mod(n: NodeView, f: Found, mods: Seq<Seq<char>>) -> Found
    decreases n, 0nat,
{
    match syntax::field_of(n, "name"@) {
        Some(name_node) => match name_node.text {
            Some(name) => match syntax::field_of(n, "body"@) {
                Some(body) => {
                    proof {
                        syntax::lemma_field_below(n, "body"@);
                    }
                    with_items(body.children, f, mods.push(name)).0
                },
                None => f.with_import("mod "@ + name, n),
            },
            None => f,
        },
        None => f,
    }
}

/// What is found when the items `ns` are added, and the attributes that no
/// item has taken yet: an attribute stands before the item it belongs to,
/// with nothing but comments and other attributes in between.
pub open spec fn with_items(ns: Seq<NodeView>, f: Found, mods: Seq<Seq<char>>) -> (
    Found,
    Seq<NodeView>,
)
    decreases ns, 1nat,
{
    if ns.len() == 0 {
        (f, Seq::empty())
    } else {
        let (before, attrs) = with_items(ns.drop_last(), f, mods);
        let n = ns.last();
        if n.kind == "attribute_item"@ {
            (before, attrs.push(n))
        } else if n.kind == "line_comment"@ || n.kind == "block_comment"@ {
            (before, attrs)
        } else if n.kind == "function_item"@ {
            (with_function(n, before, mods, attrs), Seq::empty())
        } else if n.kind == "impl_item"@ {
            (with_impl(n, before), Seq::empty())
        } else if n.kind == "struct_item"@ || n.kind == "enum_item"@ || n.kind == "trait_item"@ {
            (with_type(n, before), Seq::empty())
        } else if n.kind == "mod_item"@ {
            (with_mod(n, before, mods), Seq::empty())
        } else if n.kind == "use_declaration"@ {
            (with_use(n, before), Seq::empty())
        } else {
            (before, Seq::empty())
        }
    }
}

/// Has all code of the item a definition of its own? A function and a type
/// have one; an `impl` block and a module hold such items alone.
pub open spec fn stands_alone(n: NodeView) -> bool
    decreases n, 0nat,
{
    ||| n.kind == "use_declaration"@
    ||| n.kind == "function_item"@
    ||| n.kind == "struct_item"@
    ||| n.kind == "enum_item"@
    ||| n.kind == "trait_item"@
    ||| (n.kind == "impl_item"@ || n.kind == "mod_item"@) && match syntax::field_of(n, "body"@) {
        Some(body) => {
            proof {
                syntax::lemma_field_below(n, "body"@);
            }
            all_stand_alone(body.children)
        },
        None => n.kind == "mod_item"@,
    }
}

/// Have all items in `ns` that are named definitions of their own?
/// Punctuation, comments and attributes are no items.
pub open spec fn all_stand_alone(ns: Seq<NodeView>) -> bool
    decreases ns, 1nat,
{
    ns.len() == 0 || (all_stand_alone(ns.drop_last()) && (!ns.last().named || ns.last().kind
        == "attribute_item"@ || ns.last().kind == "line_comment"@ || ns.last().kind
        == "block_comment"@ || stands_alone(ns.last())))
}

/// Which top-level nodes are kept out of the loose code.
pub open spec fn standing_alone(ns: Seq<NodeView>) -> Seq<bool> {
    Seq::new(ns.len(), |i: int| stands_alone(ns[i]))
}

/// The names of `defs`, behind the last dot.
pub open spec fn def_names(defs: Seq<DefView>) -> Set<Seq<char>>
    decreases defs.len(),
{
    if defs.len() == 0 {
        Set::empty()
    } else {
        let before = def_names(defs.drop_last());
        if defs.last().kind == DefKind::ModuleInit {
            before
        } else {
            before.insert(text::after_last(defs.last().name, '.'))
        }
    }
}

/// Is this node a name?
pub open spec fn is_identifier(n: NodeView) -> bool {
    n.kind == "identifier"@ || n.kind == "type_identifier"@
}

/// The names that `use` declarations at and below `n` spell out; `inside`
/// says whether `n` stands in one.
pub open spec fn used_names(n: NodeView, inside: bool) -> Set<Seq<char>>
    decreases n,
{
    let here = inside || n.kind == "use_declaration"@;
    let below = used_names_in(n.children, here);
    if here && is_identifier(n) {
        below.insert(syntax::text_of(n))
    } else {
        below
    }
}

/// The names that `use` declarations in `ns` spell out.
pub open spec fn used_names_in(ns: Seq<NodeView>, inside: bool) -> Set<Seq<char>>
    decreases ns,
{
    if ns.len() == 0 {
        Set::empty()
    } else {
        used_names_in(ns.drop_last(), inside).union(used_names(ns.last(), inside))
    }
}

/// What is called by the callee `f`: a turbofish is no part of it.
pub open spec fn called(f: NodeView) -> NodeView {
    if f.kind == "generic_function"@ {
        match syntax::field_of(f, "function"@) {
            Some(g) => g,
            None => f,
        }
    } else {
        f
    }
}

/// A callee is above what is called by it, unless they are the same.
pub proof fn lemma_called_below(n: NodeView, f: NodeView)
    requires
        decreases_to!(n => f),
    ensures
        decreases_to!(n => called(f)),
{
    syntax::lemma_field_below(f, "function"@);
}

/// The read of the name `n`, if it is known.
pub open spec fn name_read(n: NodeView, d: DraftView, known: Set<Seq<char>>, def: usize) -> RefsView {
    if !d.names.contains(n.id) && known.contains(syntax::text_of(n)) {
        RefsView::read(draft::ref_at(def, syntax::text_of(n), None, n))
    } else {
        RefsView::none()
    }
}

/// Do the tokens of a macro call a function at `i`: a name, and arguments in
/// round brackets behind it?
pub open spec fn calls_at(ns: Seq<NodeView>, i: int) -> bool {
    &&& 0 <= i && i + 1 < ns.len()
    &&& ns[i].kind == "identifier"@
    &&& ns[i + 1].kind == "token_tree"@
    &&& text::starts_with(syntax::text_of(ns[i + 1]), "("@)
}

/// The references at and below `n`, which stands in the definition `current`.
///
/// A call names the function or method that it calls, with the path or the
/// receiver as its qualifier. The arguments of a macro are tokens: there a
/// name with round brackets behind it is a call. What is not called is read,
/// if it is a known name. Imports and attributes refer to nothing.
pub open spec fn refs_of(
    n: NodeView,
    d: DraftView,
    known: Set<Seq<char>>,
    current: usize,
) -> RefsView
    decreases n, 0nat,
{
    let def = d.scope_at(n, current);
    if n.kind == "use_declaration"@ || n.kind == "attribute_item"@ || n.kind
        == "inner_attribute_item"@ {
        RefsView::none()
    } else if n.kind == "call_expression"@ {
        proof {
            syntax::lemma_field_below(n, "function"@);
            syntax::lemma_field_below(n, "arguments"@);
        }
        let callee = match syntax::field_of(n, "function"@) {
            Some(f) => {
                proof {
                    lemma_called_below(n, f);
                }
                callee_refs(called(f), n, d, known, def)
            },
            None => RefsView::none(),
        };
        match syntax::field_of(n, "arguments"@) {
            Some(args) => callee.plus(refs_of(args, d, known, def)),
            None => callee,
        }
    } else if n.kind == "token_tree"@ {
        token_refs(n.children, n.children, d, known, def)
    } else if is_identifier(n) {
        name_read(n, d, known, def)
    } else {
        refs_in(n.children, d, known, def)
    }
}

/// The references of the call `n` but those in its arguments, when `g` is
/// what it calls.
pub open spec fn callee_refs(
    g: NodeView,
    n: NodeView,
    d: DraftView,
    known: Set<Seq<char>>,
    def: usize,
) -> RefsView
    decreases g, 1nat,
{
    if g.kind == "identifier"@ {
        RefsView::call(draft::ref_at(def, syntax::text_of(g), None, n))
    } else if g.kind == "scoped_identifier"@ {
        match syntax::field_of(g, "name"@) {
            Some(name) => RefsView::call(
                draft::ref_at(
                    def,
                    syntax::text_of(name),
                    match syntax::field_of(g, "path"@) {
                        Some(path) => Some(syntax::text_of(path)),
                        None => None,
                    },
                    n,
                ),
            ),
            None => RefsView::none(),
        }
    } else if g.kind == "field_expression"@ {
        proof {
            syntax::lemma_field_below(g, "value"@);
        }
        match (syntax::field_of(g, "value"@), syntax::field_of(g, "field"@)) {
            (Some(value), Some(field)) => {
                let own = RefsView::call(
                    draft::ref_at(
                        def,
                        syntax::text_of(field),
                        Some(syntax::text_of(value)),
                        n,
                    ),
                );
                if value.kind != "identifier"@ {
                    own.plus(refs_of(value, d, known, def))
                } else {
                    own
                }
            },
            _ => RefsView::none(),
        }
    } else {
        refs_of(g, d, known, def)
    }
}

/// The references in `ns`, which stand in the definition `current`.
pub open spec fn refs_in(
    ns: Seq<NodeView>,
    d: DraftView,
    known: Set<Seq<char>>,
    current: usize,
) -> RefsView
    decreases ns, 1nat,
{
    if ns.len() == 0 {
        RefsView::none()
    } else {
        refs_in(ns.drop_last(), d, known, current).plus(refs_of(ns.last(), d, known, current))
    }
}

/// The references in the tokens `ns`, the first of `all`.
pub open spec fn token_refs(
    ns: Seq<NodeView>,
    all: Seq<NodeView>,
    d: DraftView,
    known: Set<Seq<char>>,
    current: usize,
) -> RefsView
    decreases ns, 1nat,
{
    if ns.len() == 0 {
        RefsView::none()
    } else {
        let n = ns.last();
        token_refs(ns.drop_last(), all, d, known, current).plus(
            if calls_at(all, ns.len() - 1) {
                RefsView::call(draft::ref_at(current, syntax::text_of(n), None, n))
            } else {
                refs_of(n, d, known, current)
            },
        )
    }
}

/// The definitions and imports of a file.
pub open spec fn found_in(root: NodeView) -> Found {
    with_items(
        root.children,
        Found {
            draft: DraftView::empty().with_def(
                draft::module_def(root, standing_alone(root.children)),
            ),
            imports: Seq::empty(),
        },
        Seq::empty(),
    ).0
}

/// Everything extracted from a file.
pub open spec fn extracted(root: NodeView) -> ExtractionView {
    let f = found_in(root);
    let known = def_names(f.draft.defs).union(used_names(root, false));
    let refs = refs_of(root, f.draft, known, 0);
    ExtractionView {
        defs: f.draft.defs,
        imports: f.imports,
        calls: draft::firsts(refs.calls),
        reads: draft::firsts(refs.reads),
    }
}

/// The files that `mod name;` in `from_file` may name. The module's directory
/// is that of the file where the file is a root or a `mod.rs`, and otherwise
/// the one with the file's own name.
pub open spec fn mod_candidates(from_file: Seq<char>, name: Seq<char>) -> Seq<Seq<char>> {
    match (paths::base_name(from_file), paths::stem_of(from_file)) {
        (Some(file), Some(stem)) => {
            let parent = paths::directory_of(from_file);
            let dir = if file == "lib.rs"@ || file == "main.rs"@ || file == "mod.rs"@ {
                parent
            } else {
                paths::joined(parent, stem)
            };
            seq![
                paths::joined(dir, name + ".rs"@),
                paths::joined(paths::joined(dir, name), "mod.rs"@),
            ]
        },
        _ => Seq::empty(),
    }
}

/// The position of the first `::` in `s` at or behind `i`, or `-1`.
pub open spec fn first_colons(s: Seq<char>, i: int) -> int
    decreases s.len() - i,
{
    if i + 1 >= s.len() {
        -1
    } else if s[i] == ':' && s[i + 1] == ':' {
        i
    } else {
        first_colons(s, i + 1)
    }
}

pub proof fn lemma_first_colons(s: Seq<char>, i: int)
    requires
        0 <= i,
    ensures
        first_colons(s, i) == -1 || i <= first_colons(s, i) <= s.len() - 2,
    decreases s.len() - i,
{
    if i + 1 < s.len() && !(s[i] == ':' && s[i + 1] == ':') {
        lemma_first_colons(s, i + 1);
    }
}

/// The segments of a path between `::`.
pub open spec fn segments(s: Seq<char>) -> Seq<Seq<char>>
    decreases s.len(),
{
    let i = first_colons(s, 0);
    proof {
        lemma_first_colons(s, 0);
    }
    if i < 0 {
        seq![s]
    } else {
        seq![s.take(i)] + segments(s.skip(i + 2))
    }
}

/// `s` without any `::` at its end.
pub open spec fn without_colons(s: Seq<char>) -> Seq<char>
    decreases s.len(),
{
    if text::ends_with(s, "::"@) && s.len() >= 2 {
        without_colons(s.take(s.len() - 2))
    } else {
        s
    }
}

/// The segments of the path that a `use` declaration writes: of a group,
/// those before the brace.
pub open spec fn use_segments(path: Seq<char>) -> Seq<Seq<char>> {
    if text::split(path, '{').len() > 1 {
        segments(without_colons(text::split(path, '{')[0]))
    } else {
        segments(path)
    }
}

/// `base` with the segments `segs` behind it.
pub open spec fn descend(base: Seq<char>, segs: Seq<Seq<char>>) -> Seq<char>
    decreases segs.len(),
{
    if segs.len() == 0 {
        base
    } else {
        paths::joined(descend(base, segs.drop_last()), segs.last())
    }
}

/// The files that the segments `segs` below `base` may name: the longest
/// path first, as the last segments may name items within a file.
pub open spec fn segment_candidates(base: Seq<char>, segs: Seq<Seq<char>>) -> Seq<Seq<char>>
    decreases segs.len(),
{
    if segs.len() == 0 {
        Seq::empty()
    } else {
        let path = descend(base, segs);
        seq![path + ".rs"@, paths::joined(path, "mod.rs"@)] + segment_candidates(
            base,
            segs.drop_last(),
        )
    }
}

/// The nearest directory, from the one with the components `parts` up, that
/// holds a `lib.rs` or a `main.rs`.
pub open spec fn crate_root(parts: Seq<Seq<char>>, present: Set<Seq<char>>) -> Option<Seq<char>>
    decreases parts.len(),
{
    let dir = paths::render(parts);
    if present.contains(paths::joined(dir, "lib.rs"@)) || present.contains(
        paths::joined(dir, "main.rs"@),
    ) {
        Some(dir)
    } else if parts.len() == 0 || parts.last() == "/"@ {
        None
    } else {
        crate_root(parts.drop_last(), present)
    }
}

/// The paths that a `use crate::` path asks about, in the directory with the
/// components `parts` and in those above it.
pub open spec fn crate_probes(parts: Seq<Seq<char>>, segs: Seq<Seq<char>>) -> Seq<Seq<char>>
    decreases parts.len(),
{
    let dir = paths::render(parts);
    let own = seq![paths::joined(dir, "lib.rs"@), paths::joined(dir, "main.rs"@)]
        + segment_candidates(dir, segs);
    if parts.len() == 0 || parts.last() == "/"@ {
        own
    } else {
        own + crate_probes(parts.drop_last(), segs)
    }
}

/// The paths that the `use` path `path` of `from_file` asks about.
pub open spec fn use_probes(from_file: Seq<char>, path: Seq<char>) -> Seq<Seq<char>> {
    let segs = use_segments(path);
    let dir = paths::directory_of(from_file);
    if segs[0] == "crate"@ {
        crate_probes(paths::components(dir), segs.skip(1))
    } else if segs[0] == "super"@ || segs[0] == "self"@ {
        segment_candidates(dir, segs.skip(1))
    } else {
        Seq::empty()
    }
}

/// The file that the `use` path `path` of `from_file` names. Only paths from
/// `crate`, `super` and `self` are looked for.
pub open spec fn use_target(
    from_file: Seq<char>,
    path: Seq<char>,
    present: Set<Seq<char>>,
) -> Option<Seq<char>> {
    let segs = use_segments(path);
    let dir = paths::directory_of(from_file);
    if segs[0] == "crate"@ {
        match crate_root(paths::components(dir), present) {
            Some(root) => language::first_present(segment_candidates(root, segs.skip(1)), present),
            None => None,
        }
    } else if segs[0] == "super"@ || segs[0] == "self"@ {
        language::first_present(segment_candidates(dir, segs.skip(1)), present)
    } else {
        None
    }
}

/// The paths that the import `raw` of `from_file` asks about.
pub open spec fn probes(from_file: Seq<char>, raw: Seq<char>) -> Seq<Seq<char>> {
    match text::without_prefix(raw, "mod "@) {
        Some(name) => mod_candidates(from_file, name),
        None => match text::without_prefix(raw, "use "@) {
            Some(path) => use_probes(from_file, path),
            None => Seq::empty(),
        },
    }
}

/// The file that the import `raw` of `from_file` names.
pub open spec fn target(
    from_file: Seq<char>,
    raw: Seq<char>,
    present: Set<Seq<char>>,
) -> Option<Seq<char>> {
    match text::without_prefix(raw, "mod "@) {
        Some(name) => language::first_present(mod_candidates(from_file, name), present),
        None => match text::without_prefix(raw, "use "@) {
            Some(path) => use_target(from_file, path, present),
            None => None,
        },
    }
}

fn is_test_path(path: &str) -> (r: bool)
    ensures
        r == marks_test(path@),
{
    same(path, "rstest") || same(path, "test") || ends(path, "::test") || same(path, "bench")
        || ends(path, "::bench")
}

fn marks_a_test(n: &SyntaxNode) -> (r: bool)
    ensures
        r == is_test_attribute(n@),
{
    match n.named_child(0) {
        Some(attribute) => match attribute.named_child(0) {
            Some(path) => match &path.text {
                Some(t) => is_test_path(t.as_str()),
                None => false,
            },
            None => false,
        },
        None => false,
    }
}

/// Adds the function `n`; `test` says whether its attributes make it a test.
fn handle_function_item(
    n: &SyntaxNode,
    d: &mut Draft,
    mods: &Vec<String>,
    test: bool,
    Ghost(imports): Ghost<Seq<ImportView>>,
    Ghost(attrs): Ghost<Seq<NodeView>>,
)
    requires
        old(d)@.wf(),
        test == any_test_attribute(attrs),
    ensures
        (Found { draft: final(d)@, imports }) == with_function(
            n@,
            Found { draft: old(d)@, imports },
            text::views(mods@),
            attrs,
        ),
        final(d)@.wf(),
        final(d)@.defs.len() >= old(d)@.defs.len(),
{
    if let Some(name_node) = n.child_by_field("name") {
        if let Some(name) = &name_node.text {
            if test {
                let mut id = copy_all(mods);
                let ghost before = id@;
                id.push(name.clone());
                assert(text::views(id@) =~= text::views(before).push(name@));
                d.add(n, name.clone(), DefKind::TestCase, None, Some(id), false);
            } else {
                d.add(n, name.clone(), DefKind::Function, None, None, false);
            }
            d.open(n.id);
            d.name(name_node.id);
        }
    }
}

/// Adds the struct, enum or trait `n`.
fn handle_type_item(n: &SyntaxNode, d: &mut Draft, Ghost(imports): Ghost<Seq<ImportView>>)
    requires
        old(d)@.wf(),
    ensures
        (Found { draft: final(d)@, imports }) == with_type(n@, Found { draft: old(d)@, imports }),
        final(d)@.wf(),
        final(d)@.defs.len() >= old(d)@.defs.len(),
{
    if let Some(name_node) = n.child_by_field("name") {
        if let Some(name) = &name_node.text {
            d.add(n, name.clone(), DefKind::Class, None, None, false);
            d.open(n.id);
            d.name(name_node.id);
        }
    }
}

/// A type's text without its generic arguments.
fn strip_generics(t: &str) -> (r: String)
    ensures
        r@ == without_generics(t@),
{
    let parts = split_on(t, '<');
    assert(text::views(parts@)[0] == parts@[0]@);
    parts[0].clone()
}

/// Adds the methods of the `impl` block `n`.
fn handle_impl_item(n: &SyntaxNode, d: &mut Draft, Ghost(imports): Ghost<Seq<ImportView>>)
    requires
        old(d)@.wf(),
    ensures
        (Found { draft: final(d)@, imports }) == with_impl(n@, Found { draft: old(d)@, imports }),
        final(d)@.wf(),
        final(d)@.defs.len() >= old(d)@.defs.len(),
{
    let ty = match n.child_by_field("type") {
        Some(ty) => ty,
        None => {
            return;
        },
    };
    let name = match &ty.text {
        Some(t) => strip_generics(t.as_str()),
        None => {
            return;
        },
    };
    let body = match n.child_by_field("body") {
        Some(b) => b,
        None => {
            return;
        },
    };
    let ghost was = Found { draft: d@, imports };
    let ghost all = body@.children;
    let count: usize = body.child_count();
    let mut i: usize = 0;
    assert(all.take(0) =~= Seq::empty());
    while i < count
        invariant
            i <= count == all.len(),
            all == body@.children,
            (Found { draft: d@, imports }) == with_methods(all.take(i as int), name@, was),
            d@.wf(),
            d@.defs.len() >= was.draft.defs.len(),
        decreases count - i,
    {
        let c = body.child(i);
        assert(all.take(i + 1).drop_last() =~= all.take(i as int));
        if c.is("function_item") {
            if let Some(name_node) = c.child_by_field("name") {
                if let Some(method) = &name_node.text {
                    let full = cat3(name.as_str(), ".", method.as_str());
                    d.add(c, full, DefKind::Method, None, None, false);
                    d.open(c.id);
                    d.name(name_node.id);
                }
            }
        }
        i = i + 1;
    }
    assert(all.take(all.len() as int) =~= all);
}

fn push_import(out: &mut Vec<ImportRef>, raw: String, n: &SyntaxNode)
    ensures
        language::import_views(final(out)@) == language::import_views(old(out)@).push(
            ImportView { raw: raw@, line: syntax::line_of(n@.start_row) },
        ),
{
    let i = ImportRef { raw, line: line(n.start_row) };
    let ghost before = out@;
    out.push(i);
    assert(language::import_views(out@) =~= language::import_views(before).push(i@));
}

/// Adds the `use` declaration `n`.
fn handle_use_declaration(
    n: &SyntaxNode,
    imports: &mut Vec<ImportRef>,
    Ghost(draft): Ghost<DraftView>,
)
    ensures
        (Found { draft, imports: language::import_views(final(imports)@) }) == with_use(
            n@,
            Found { draft, imports: language::import_views(old(imports)@) },
        ),
{
    if let Some(arg) = n.child_by_field("argument") {
        if let Some(t) = &arg.text {
            push_import(imports, cat("use ", t.as_str()), n);
        }
    }
}

/// Adds the module `n`.
fn handle_mod_item(
    n: &SyntaxNode,
    d: &mut Draft,
    imports: &mut Vec<ImportRef>,
    mods: &Vec<String>,
)
    requires
        old(d)@.wf(),
    ensures
        (Found { draft: final(d)@, imports: language::import_views(final(imports)@) }) == with_mod(
            n@,
            Found { draft: old(d)@, imports: language::import_views(old(imports)@) },
            text::views(mods@),
        ),
        final(d)@.wf(),
        final(d)@.defs.len() >= old(d)@.defs.len(),
    decreases n, 0nat,
{
    let name_node = match n.child_by_field("name") {
        Some(x) => x,
        None => {
            return;
        },
    };
    let name: &String = match &name_node.text {
        Some(t) => t,
        None => {
            return;
        },
    };
    match n.child_by_field("body") {
        Some(body) => {
            let mut inner = copy_all(mods);
            let ghost before = inner@;
            inner.push(name.clone());
            assert(text::views(inner@) =~= text::views(before).push(name@));
            walk_items(body, d, imports, &inner);
        },
        None => {
            push_import(imports, cat("mod ", name.as_str()), n);
        },
    }
}

/// Adds the items below `node`.
fn walk_items(node: &SyntaxNode, d: &mut Draft, imports: &mut Vec<ImportRef>, mods: &Vec<String>)
    requires
        old(d)@.wf(),
    ensures
        (Found { draft: final(d)@, imports: language::import_views(final(imports)@) })
            == with_items(
            node@.children,
            Found { draft: old(d)@, imports: language::import_views(old(imports)@) },
            text::views(mods@),
        ).0,
        final(d)@.wf(),
        final(d)@.defs.len() >= old(d)@.defs.len(),
    decreases node, 1nat,
{
    let ghost was = Found { draft: d@, imports: language::import_views(imports@) };
    let ghost mv = text::views(mods@);
    let ghost all = node@.children;
    let count: usize = node.child_count();
    let mut test: bool = false;
    let mut i: usize = 0;
    assert(all.take(0) =~= Seq::empty());
    while i < count
        invariant
            i <= count == all.len(),
            all == node@.children,
            mv == text::views(mods@),
            (Found { draft: d@, imports: language::import_views(imports@) }) == with_items(
                all.take(i as int),
                was,
                mv,
            ).0,
            test == any_test_attribute(with_items(all.take(i as int), was, mv).1),
            d@.wf(),
            d@.defs.len() >= was.draft.defs.len(),
        decreases count - i,
    {
        let n = node.child(i);
        let ghost attrs = with_items(all.take(i as int), was, mv).1;
        assert(all.take(i + 1).drop_last() =~= all.take(i as int));
        assert(all.take(i + 1).last() == n@);
        if n.is("attribute_item") {
            let here: bool = marks_a_test(n);
            proof {
                let more = attrs.push(n@);
                if test {
                    let k = choose|k: int|
                        0 <= k < attrs.len() && is_test_attribute(#[trigger] attrs[k]);
                    assert(is_test_attribute(more[k]));
                }
                if here {
                    assert(is_test_attribute(more[attrs.len() as int]));
                }
                if any_test_attribute(more) && !here {
                    let k = choose|k: int|
                        0 <= k < more.len() && is_test_attribute(#[trigger] more[k]);
                    assert(is_test_attribute(attrs[k]));
                }
            }
            test = test || here;
        } else if n.is("line_comment") || n.is("block_comment") {
        } else {
            if n.is("function_item") {
                handle_function_item(
                    n,
                    d,
                    mods,
                    test,
                    Ghost(language::import_views(imports@)),
                    Ghost(attrs),
                );
            } else if n.is("impl_item") {
                handle_impl_item(n, d, Ghost(language::import_views(imports@)));
            } else if n.is("struct_item") || n.is("enum_item") || n.is("trait_item") {
                handle_type_item(n, d, Ghost(language::import_views(imports@)));
            } else if n.is("mod_item") {
                handle_mod_item(n, d, imports, mods);
            } else if n.is("use_declaration") {
                handle_use_declaration(n, imports, Ghost(d@));
            }
            test = false;
        }
        i = i + 1;
    }
    assert(all.take(all.len() as int) =~= all);
}

fn is_alone(n: &SyntaxNode) -> (r: bool)
    ensures
        r == stands_alone(n@),
    decreases n, 0nat,
{
    if n.is("use_declaration") || n.is("function_item") || n.is("struct_item") || n.is("enum_item")
        || n.is("trait_item") {
        return true;
    }
    if n.is("impl_item") || n.is("mod_item") {
        match n.child_by_field("body") {
            Some(body) => are_alone(body),
            None => n.is("mod_item"),
        }
    } else {
        false
    }
}

/// Have all items below `node` definitions of their own?
fn are_alone(node: &SyntaxNode) -> (r: bool)
    ensures
        r == all_stand_alone(node@.children),
    decreases node, 1nat,
{
    let ghost all = node@.children;
    let count: usize = node.child_count();
    let mut i: usize = 0;
    assert(all.take(0) =~= Seq::empty());
    while i < count
        invariant
            i <= count == all.len(),
            all == node@.children,
            all_stand_alone(all.take(i as int)),
        decreases count - i,
    {
        let n = node.child(i);
        assert(all.take(i + 1).drop_last() =~= all.take(i as int));
        if n.named && !n.is("attribute_item") && !n.is("line_comment") && !n.is("block_comment") {
            if !is_alone(n) {
                proof {
                    lemma_not_all_alone(all, i + 1);
                }
                return false;
            }
        }
        i = i + 1;
    }
    assert(all.take(all.len() as int) =~= all);
    true
}

proof fn lemma_not_all_alone(ns: Seq<NodeView>, k: int)
    requires
        0 <= k <= ns.len(),
        !all_stand_alone(ns.take(k)),
    ensures
        !all_stand_alone(ns),
    decreases ns.len(),
{
    if k < ns.len() {
        assert(ns.drop_last().take(k) =~= ns.take(k));
        lemma_not_all_alone(ns.drop_last(), k);
    } else {
        assert(ns.take(k) =~= ns);
    }
}

/// Adds the names of `defs`, behind the last dot.
fn add_def_names(defs: &Vec<ExtractedDef>, names: &mut StringHashSet)
    ensures
        final(names)@ == old(names)@.union(def_names(language::def_views(defs@))),
{
    let ghost was = names@;
    let ghost dv = language::def_views(defs@);
    let mut i: usize = 0;
    assert(dv.take(0) =~= Seq::empty());
    assert(names@ =~= was.union(def_names(dv.take(0))));
    while i < defs.len()
        invariant
            i <= defs@.len() == dv.len(),
            dv == language::def_views(defs@),
            names@ == was.union(def_names(dv.take(i as int))),
        decreases defs@.len() - i,
    {
        assert(dv.take(i + 1).drop_last() =~= dv.take(i as int));
        assert(dv.take(i + 1).last() == defs@[i as int]@);
        if defs[i].kind != DefKind::ModuleInit {
            names.insert(tail_after(defs[i].name.as_str(), '.'));
        }
        assert(names@ =~= was.union(def_names(dv.take(i + 1))));
        i = i + 1;
    }
    assert(dv.take(dv.len() as int) =~= dv);
}

fn is_name_node(n: &SyntaxNode) -> (r: bool)
    ensures
        r == is_identifier(n@),
{
    n.is("identifier") || n.is("type_identifier")
}

/// Adds the names that `use` declarations at and below `n` spell out.
fn add_used_names(n: &SyntaxNode, inside: bool, names: &mut StringHashSet)
    ensures
        final(names)@ == old(names)@.union(used_names(n@, inside)),
    decreases n,
{
    let ghost was = names@;
    let here: bool = inside || n.is("use_declaration");
    let ghost all = n@.children;
    let count: usize = n.child_count();
    let mut i: usize = 0;
    assert(all.take(0) =~= Seq::empty());
    assert(names@ =~= was.union(used_names_in(all.take(0), here)));
    while i < count
        invariant
            i <= count == all.len(),
            all == n@.children,
            names@ == was.union(used_names_in(all.take(i as int), here)),
        decreases count - i,
    {
        assert(all.take(i + 1).drop_last() =~= all.take(i as int));
        add_used_names(n.child(i), here, names);
        assert(names@ =~= was.union(used_names_in(all.take(i + 1), here)));
        i = i + 1;
    }
    assert(all.take(all.len() as int) =~= all);
    if here && is_name_node(n) {
        names.insert(n.text_or_empty());
    }
    assert(names@ =~= was.union(used_names(n@, inside)));
}

/// Adds the read of the name `n`, if it is known.
fn read_name(n: &SyntaxNode, d: &Draft, known: &StringHashSet, def: usize, out: &mut Refs)
    requires
        def < d@.defs.len(),
        old(out)@.from_within(d@.defs.len() as int),
    ensures
        final(out)@ == old(out)@.plus(name_read(n@, d@, known@, def)),
        final(out)@.from_within(d@.defs.len() as int),
{
    let ghost was = out@;
    if !d.is_name(n) {
        let x = n.text_or_empty();
        if known.contains(x.as_str()) {
            out.read(def, x, None, n);
        }
    }
    assert(out@ =~= was.plus(name_read(n@, d@, known@, def)));
}

/// Adds the references at and below `n`.
fn walk_refs(n: &SyntaxNode, d: &Draft, known: &StringHashSet, current: usize, out: &mut Refs)
    requires
        d@.wf(),
        current < d@.defs.len(),
        old(out)@.from_within(d@.defs.len() as int),
    ensures
        final(out)@ == old(out)@.plus(refs_of(n@, d@, known@, current)),
        final(out)@.from_within(d@.defs.len() as int),
    decreases n, 1nat,
{
    let ghost was = out@;
    let def: usize = d.scope_of(n, current);
    if n.is("use_declaration") || n.is("attribute_item") || n.is("inner_attribute_item") {
        assert(out@ =~= was.plus(refs_of(n@, d@, known@, current)));
    } else if n.is("call_expression") {
        if let Some(f) = n.child_by_field("function") {
            let g: &SyntaxNode = if f.is("generic_function") {
                match f.child_by_field("function") {
                    Some(g) => g,
                    None => f,
                }
            } else {
                f
            };
            walk_callee(g, n, d, known, def, out);
        }
        if let Some(args) = n.child_by_field("arguments") {
            walk_refs(args, d, known, def, out);
        }
        assert(out@ =~= was.plus(refs_of(n@, d@, known@, current)));
    } else if n.is("token_tree") {
        walk_tokens(n, d, known, def, out);
    } else if is_name_node(n) {
        read_name(n, d, known, def, out);
    } else {
        let ghost all = n@.children;
        let count: usize = n.child_count();
        let mut i: usize = 0;
        assert(all.take(0) =~= Seq::empty());
        assert(out@ =~= was.plus(refs_in(all.take(0), d@, known@, def)));
        while i < count
            invariant
                i <= count == all.len(),
                all == n@.children,
                d@.wf(),
                def < d@.defs.len(),
                out@.from_within(d@.defs.len() as int),
                out@ == was.plus(refs_in(all.take(i as int), d@, known@, def)),
            decreases count - i,
        {
            assert(all.take(i + 1).drop_last() =~= all.take(i as int));
            walk_refs(n.child(i), d, known, def, out);
            assert(out@ =~= was.plus(refs_in(all.take(i + 1), d@, known@, def)));
            i = i + 1;
        }
        assert(all.take(all.len() as int) =~= all);
    }
}

/// Adds the references of the call `n` but those in its arguments, when `g`
/// is what it calls.
fn walk_callee(
    g: &SyntaxNode,
    n: &SyntaxNode,
    d: &Draft,
    known: &StringHashSet,
    def: usize,
    out: &mut Refs,
)
    requires
        d@.wf(),
        def < d@.defs.len(),
        old(out)@.from_within(d@.defs.len() as int),
    ensures
        final(out)@ == old(out)@.plus(callee_refs(g@, n@, d@, known@, def)),
        final(out)@.from_within(d@.defs.len() as int),
    decreases g, 2nat,
{
    let ghost was = out@;
    if g.is("identifier") {
        out.call(def, g.text_or_empty(), None, n);
    } else if g.is("scoped_identifier") {
        if let Some(name) = g.child_by_field("name") {
            let qualifier = match g.child_by_field("path") {
                Some(path) => Some(path.text_or_empty()),
                None => None,
            };
            out.call(def, name.text_or_empty(), qualifier, n);
        }
        assert(out@ =~= was.plus(callee_refs(g@, n@, d@, known@, def)));
    } else if g.is("field_expression") {
        if let Some(value) = g.child_by_field("value") {
            if let Some(field) = g.child_by_field("field") {
                out.call(def, field.text_or_empty(), Some(value.text_or_empty()), n);
                if !value.is("identifier") {
                    walk_refs(value, d, known, def, out);
                }
            }
        }
        assert(out@ =~= was.plus(callee_refs(g@, n@, d@, known@, def)));
    } else {
        walk_refs(g, d, known, def, out);
    }
}

/// Adds the references in the tokens of `n`.
fn walk_tokens(n: &SyntaxNode, d: &Draft, known: &StringHashSet, current: usize, out: &mut Refs)
    requires
        d@.wf(),
        current < d@.defs.len(),
        old(out)@.from_within(d@.defs.len() as int),
    ensures
        final(out)@ == old(out)@.plus(
            token_refs(n@.children, n@.children, d@, known@, current),
        ),
        final(out)@.from_within(d@.defs.len() as int),
    decreases n, 0nat,
{
    let ghost was = out@;
    let ghost all = n@.children;
    let count: usize = n.child_count();
    let mut i: usize = 0;
    assert(all.take(0) =~= Seq::empty());
    assert(out@ =~= was.plus(token_refs(all.take(0), all, d@, known@, current)));
    while i < count
        invariant
            i <= count == all.len(),
            all == n@.children,
            d@.wf(),
            current < d@.defs.len(),
            out@.from_within(d@.defs.len() as int),
            out@ == was.plus(token_refs(all.take(i as int), all, d@, known@, current)),
        decreases count - i,
    {
        assert(all.take(i + 1).drop_last() =~= all.take(i as int));
        assert(all.take(i + 1).last() == all[i as int]);
        let c = n.child(i);
        let call: bool = if i < count - 1 && c.is("identifier") {
            let next = n.child(i + 1);
            next.is("token_tree") && begins(next.text_or_empty().as_str(), "(")
        } else {
            false
        };
        assert(call == calls_at(all, i as int));
        if call {
            out.call(current, c.text_or_empty(), None, c);
        } else {
            walk_refs(c, d, known, current, out);
        }
        assert(out@ =~= was.plus(token_refs(all.take(i + 1), all, d@, known@, current)));
        i = i + 1;
    }
    assert(all.take(all.len() as int) =~= all);
}

/// The definitions and imports of a file.
fn find_items(root: &SyntaxNode) -> (r: (Draft, Vec<ImportRef>))
    ensures
        (Found { draft: r.0@, imports: language::import_views(r.1@) }) == found_in(root@),
        r.0@.wf(),
        r.0@.defs.len() > 0,
{
    let ghost all = root@.children;
    let count: usize = root.child_count();
    let mut skip: Vec<bool> = Vec::new();
    let mut i: usize = 0;
    while i < count
        invariant
            i <= count == all.len(),
            all == root@.children,
            skip@.len() == i,
            forall|j: int| 0 <= j < i ==> skip@[j] == stands_alone(#[trigger] all[j]),
        decreases count - i,
    {
        skip.push(is_alone(root.child(i)));
        i = i + 1;
    }
    assert(skip@ =~= standing_alone(all));
    let mut d = Draft::of_module(root, &skip);
    let mut imports: Vec<ImportRef> = Vec::new();
    assert(language::import_views(imports@) =~= Seq::empty());
    let mods: Vec<String> = Vec::new();
    assert(text::views(mods@) =~= Seq::empty());
    walk_items(root, &mut d, &mut imports, &mods);
    (d, imports)
}

/// The files that `mod name;` in `from_file` may name.
fn mod_files(from_file: &str, name: &str) -> (r: Vec<String>)
    ensures
        text::views(r@) == mod_candidates(from_file@, name@),
{
    let mut out: Vec<String> = Vec::new();
    let file = match file_name(from_file) {
        Some(f) => f,
        None => {
            assert(text::views(out@) =~= Seq::empty());
            return out;
        },
    };
    let stem = match file_stem(from_file) {
        Some(x) => x,
        None => {
            assert(text::views(out@) =~= Seq::empty());
            return out;
        },
    };
    let parent = directory(from_file);
    let f = file.as_str();
    let dir = if same(f, "lib.rs") || same(f, "main.rs") || same(f, "mod.rs") {
        parent
    } else {
        join_path(parent.as_str(), stem.as_str())
    };
    out.push(join_path(dir.as_str(), cat(name, ".rs").as_str()));
    out.push(join_path(join_path(dir.as_str(), name).as_str(), "mod.rs"));
    assert(text::views(out@) =~= mod_candidates(from_file@, name@));
    out
}

/// The segments of a path between `::`.
fn segments_of(s: &str) -> (r: Vec<String>)
    ensures
        text::views(r@) == segments(s@),
        r@.len() >= 1,
{
    let sc = chars_of(s);
    let mut out: Vec<String> = Vec::new();
    let mut from: usize = 0;
    let mut i: usize = 0;
    assert(s@.skip(0) =~= s@);
    assert(text::views(out@) + segments(s@) =~= segments(s@));
    while i < sc.len() && sc.len() - i >= 2
        invariant
            from <= i <= sc@.len(),
            sc@ == s@,
            text::views(out@) + segments(s@.skip(from as int)) == segments(s@),
            first_colons(s@.skip(from as int), 0) == first_colons(
                s@.skip(from as int),
                i - from,
            ),
        decreases sc@.len() - i,
    {
        let ghost rest = s@.skip(from as int);
        assert(rest[i - from] == sc@[i as int] && rest[i - from + 1] == sc@[i + 1]);
        if sc[i] == ':' && sc[i + 1] == ':' {
            let piece = string_of(&sc, from, i);
            let ghost was = out@;
            out.push(piece);
            proof {
                assert(text::views(out@) =~= text::views(was).push(piece@));
                assert(piece@ =~= rest.take(i - from));
                assert(rest.skip(i - from + 2) =~= s@.skip(i + 2));
                assert(segments(rest) == seq![rest.take(i - from)] + segments(s@.skip(i + 2)));
                assert(text::views(out@) + segments(s@.skip(i + 2)) =~= text::views(was)
                    + segments(rest));
            }
            i = i + 2;
            from = i;
        } else {
            i = i + 1;
        }
    }
    let last = string_of(&sc, from, sc.len());
    let ghost was = out@;
    out.push(last);
    proof {
        let rest = s@.skip(from as int);
        assert(last@ =~= rest);
        assert(first_colons(rest, i - from) == -1);
        assert(segments(rest) =~= seq![rest]);
        assert(text::views(out@) =~= text::views(was).push(last@));
        assert(text::views(out@) =~= text::views(was) + seq![rest]);
    }
    out
}

/// `s` without any `::` at its end.
fn trim_colons(s: &str) -> (r: String)
    ensures
        r@ == without_colons(s@),
    decreases s@.len(),
{
    proof {
        reveal_strlit("::");
    }
    match text::cut_suffix(s, "::") {
        Some(t) => trim_colons(t.as_str()),
        None => s.to_owned(),
    }
}

/// The segments of the path that a `use` declaration writes.
fn use_segments_of(path: &str) -> (r: Vec<String>)
    ensures
        text::views(r@) == use_segments(path@),
        r@.len() >= 1,
{
    let pieces = split_on(path, '{');
    assert(text::views(pieces@).len() == pieces@.len());
    assert(text::views(pieces@)[0] == pieces@[0]@);
    if pieces.len() > 1 {
        segments_of(trim_colons(pieces[0].as_str()).as_str())
    } else {
        segments_of(path)
    }
}

/// `base` with the first `n` of `segs` behind it.
fn descend_to(base: &str, segs: &Vec<String>, from: usize, to: usize) -> (r: String)
    requires
        from <= to <= segs@.len(),
    ensures
        r@ == descend(base@, text::views(segs@).subrange(from as int, to as int)),
{
    let ghost all = text::views(segs@);
    let mut out: String = base.to_owned();
    let mut i: usize = from;
    assert(all.subrange(from as int, from as int) =~= Seq::empty());
    while i < to
        invariant
            from <= i <= to <= segs@.len(),
            all == text::views(segs@),
            out@ == descend(base@, all.subrange(from as int, i as int)),
        decreases to - i,
    {
        assert(all.subrange(from as int, i + 1).drop_last() =~= all.subrange(
            from as int,
            i as int,
        ));
        out = join_path(out.as_str(), segs[i].as_str());
        i = i + 1;
    }
    out
}

/// Adds the files that the segments behind the first below `base` may name.
fn push_segment_files(base: &str, segs: &Vec<String>, out: &mut Vec<String>)
    requires
        segs@.len() >= 1,
    ensures
        text::views(final(out)@) == text::views(old(out)@) + segment_candidates(
            base@,
            text::views(segs@).skip(1),
        ),
{
    let ghost was = text::views(out@);
    let ghost all = text::views(segs@);
    let ghost rest = all.skip(1);
    let mut n: usize = segs.len();
    assert(all.subrange(1, n as int) =~= rest);
    while n > 1
        invariant
            1 <= n <= segs@.len(),
            all == text::views(segs@),
            text::views(out@) + segment_candidates(base@, all.subrange(1, n as int)) == was
                + segment_candidates(base@, rest),
        decreases n,
    {
        let ghost here = all.subrange(1, n as int);
        assert(here.drop_last() =~= all.subrange(1, n - 1));
        let path = descend_to(base, segs, 1, n);
        let a = cat(path.as_str(), ".rs");
        let b = join_path(path.as_str(), "mod.rs");
        let ghost before = out@;
        out.push(a);
        out.push(b);
        proof {
            assert(text::views(out@) =~= text::views(before) + seq![a@, b@]);
            assert(text::views(out@) + segment_candidates(base@, here.drop_last()) =~= text::views(
                before,
            ) + segment_candidates(base@, here));
        }
        n = n - 1;
    }
    assert(segment_candidates(base@, all.subrange(1, 1)) =~= Seq::empty());
    assert(text::views(out@) =~= was + segment_candidates(base@, rest));
}

fn segment_files(base: &str, segs: &Vec<String>) -> (r: Vec<String>)
    requires
        segs@.len() >= 1,
    ensures
        text::views(r@) == segment_candidates(base@, text::views(segs@).skip(1)),
{
    let mut out: Vec<String> = Vec::new();
    push_segment_files(base, segs, &mut out);
    assert(text::views(out@) =~= segment_candidates(base@, text::views(segs@).skip(1)));
    out
}

/// The nearest directory, from `dir` up, that holds a `lib.rs` or a
/// `main.rs`.
fn find_crate_root(dir: &str, repo: &RepoFacts) -> (r: Option<String>)
    ensures
        text::opt_view(r) == crate_root(paths::components(dir@), repo@.present),
{
    let mut parts = parts_of(dir);
    loop
        invariant
            crate_root(paths::components(dir@), repo@.present) == crate_root(
                text::views(parts@),
                repo@.present,
            ),
        decreases parts@.len(),
    {
        let here = render_parts(&parts);
        if repo.has(join_path(here.as_str(), "lib.rs").as_str()) || repo.has(
            join_path(here.as_str(), "main.rs").as_str(),
        ) {
            return Some(here);
        }
        let n: usize = parts.len();
        let ghost was = parts@;
        if n == 0 {
            return None;
        }
        assert(text::views(was).last() == was.last()@);
        if same(parts[n - 1].as_str(), "/") {
            return None;
        }
        parts.pop();
        assert(text::views(parts@) =~= text::views(was).drop_last());
    }
}

/// The paths that a `use crate::` path asks about, from `dir` up.
fn crate_files(dir: &str, segs: &Vec<String>) -> (r: Vec<String>)
    requires
        segs@.len() >= 1,
    ensures
        text::views(r@) == crate_probes(paths::components(dir@), text::views(segs@).skip(1)),
{
    let mut out: Vec<String> = Vec::new();
    let mut parts = parts_of(dir);
    let ghost goal = crate_probes(paths::components(dir@), text::views(segs@).skip(1));
    let ghost rest = text::views(segs@).skip(1);
    assert(text::views(out@) + crate_probes(text::views(parts@), rest) =~= goal);
    loop
        invariant
            segs@.len() >= 1,
            rest == text::views(segs@).skip(1),
            goal == crate_probes(paths::components(dir@), rest),
            text::views(out@) + crate_probes(text::views(parts@), rest) == goal,
        decreases parts@.len(),
    {
        let here = render_parts(&parts);
        let ghost before = text::views(out@);
        let a = join_path(here.as_str(), "lib.rs");
        let b = join_path(here.as_str(), "main.rs");
        out.push(a);
        out.push(b);
        assert(text::views(out@) =~= before + seq![a@, b@]);
        push_segment_files(here.as_str(), segs, &mut out);
        let ghost own = seq![a@, b@] + segment_candidates(here@, rest);
        assert(text::views(out@) =~= before + own);
        let n: usize = parts.len();
        let ghost was = parts@;
        if n == 0 {
            assert(text::views(was).len() == 0);
            assert(text::views(out@) =~= goal);
            return out;
        }
        assert(text::views(was).last() == was.last()@);
        if same(parts[n - 1].as_str(), "/") {
            assert(text::views(out@) =~= goal);
            return out;
        }
        parts.pop();
        proof {
            assert(text::views(parts@) =~= text::views(was).drop_last());
            assert(text::views(out@) + crate_probes(text::views(parts@), rest) =~= before
                + crate_probes(text::views(was), rest));
        }
    }
}

/// The file that the `use` path `path` of `from_file` names.
fn resolve_use_path(from_file: &str, path: &str, repo: &RepoFacts) -> (r: Option<String>)
    ensures
        text::opt_view(r) == use_target(from_file@, path@, repo@.present),
{
    let segs = use_segments_of(path);
    assert(text::views(segs@)[0] == segs@[0]@);
    let dir = directory(from_file);
    let head = segs[0].as_str();
    if same(head, "crate") {
        match find_crate_root(dir.as_str(), repo) {
            Some(root) => language::pick_present(&segment_files(root.as_str(), &segs), repo),
            None => None,
        }
    } else if same(head, "super") || same(head, "self") {
        language::pick_present(&segment_files(dir.as_str(), &segs), repo)
    } else {
        None
    }
}

/// The paths that the `use` path `path` of `from_file` asks about.
fn use_probes_of(from_file: &str, path: &str) -> (r: Vec<String>)
    ensures
        text::views(r@) == use_probes(from_file@, path@),
{
    let segs = use_segments_of(path);
    assert(text::views(segs@)[0] == segs@[0]@);
    let dir = directory(from_file);
    let head = segs[0].as_str();
    if same(head, "crate") {
        crate_files(dir.as_str(), &segs)
    } else if same(head, "super") || same(head, "self") {
        segment_files(dir.as_str(), &segs)
    } else {
        let out: Vec<String> = Vec::new();
        assert(text::views(out@) =~= Seq::empty());
        out
    }
}

impl Language for RustLanguage {
    open spec fn spec_id(&self) -> Seq<char> {
        "rust"@
    }

    open spec fn spec_extensions(&self) -> Seq<Seq<char>> {
        seq!["rs"@]
    }

    open spec fn spec_grammar(&self, path: Seq<char>) -> Grammar {
        Grammar::Rust
    }

    open spec fn spec_extract(&self, tree: NodeView) -> ExtractionView {
        extracted(tree)
    }

    open spec fn spec_probes(&self, from_file: Seq<char>, raw: Seq<char>) -> Seq<Seq<char>> {
        probes(from_file, raw)
    }

    open spec fn spec_resolve(
        &self,
        from_file: Seq<char>,
        raw: Seq<char>,
        repo: FactsView,
    ) -> Option<Seq<char>> {
        target(from_file, raw, repo.present)
    }

    open spec fn spec_package_key(&self, file: Seq<char>) -> Option<Seq<char>> {
        None
    }

    fn id(&self) -> (r: String) {
        "rust".to_owned()
    }

    fn extensions(&self) -> (r: Vec<String>) {
        let mut out: Vec<String> = Vec::new();
        out.push("rs".to_owned());
        assert(text::views(out@) =~= self.spec_extensions());
        out
    }

    fn grammar(&self, path: &str) -> (r: Grammar) {
        Grammar::Rust
    }

    fn extract(&self, tree: &SyntaxNode) -> (r: Extraction) {
        let (d, imports) = find_items(tree);
        let mut known: StringHashSet = StringHashSet::new();
        add_def_names(&d.defs, &mut known);
        add_used_names(tree, false, &mut known);
        assert(known@ =~= def_names(d@.defs).union(used_names(tree@, false)));
        let mut refs = Refs::new();
        walk_refs(tree, &d, &known, 0, &mut refs);
        proof {
            draft::lemma_plus(refs_of(tree@, d@, known@, 0), RefsView::none(), RefsView::none());
        }
        let ghost n = d@.defs.len() as int;
        let ghost all = refs@;
        assert(draft::all_from(all.calls, n) && draft::all_from(all.reads, n));
        let calls = dedup_refs(refs.calls);
        let reads = dedup_refs(refs.reads);
        assert(draft::all_from(language::ref_views(calls@), n));
        assert(draft::all_from(language::ref_views(reads@), n));
        Extraction { defs: d.defs, imports, calls, reads }
    }

    fn import_probes(&self, from_file: &str, raw: &str) -> (r: Vec<String>) {
        if let Some(name) = cut_prefix(raw, "mod ") {
            return mod_files(from_file, name.as_str());
        }
        if let Some(path) = cut_prefix(raw, "use ") {
            return use_probes_of(from_file, path.as_str());
        }
        let out: Vec<String> = Vec::new();
        assert(text::views(out@) =~= Seq::empty());
        out
    }

    fn resolve_import(&self, from_file: &str, raw: &str, repo: &RepoFacts) -> (r: Option<String>) {
        if let Some(name) = cut_prefix(raw, "mod ") {
            return language::pick_present(&mod_files(from_file, name.as_str()), repo);
        }
        if let Some(path) = cut_prefix(raw, "use ") {
            return resolve_use_path(from_file, path.as_str(), repo);
        }
        None
    }

    fn package_key(&self, file: &str) -> (r: Option<String>) {
        None
    }
}

} // verus!
