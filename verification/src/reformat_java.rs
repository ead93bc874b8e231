//! Comments and formatting in Java: an edit of those alone changes no
//! definition.
use vstd::prelude::*;

use crate::bare;
use crate::diffdef;
use crate::draft;
use crate::draft::DraftView;
use crate::fingerprint;
use crate::graph::DefKind;
use crate::lang_java;
use crate::lang_java::{Found, Owner};
use crate::syntax;
use crate::syntax::NodeView;
use crate::text;

verus! {

/// What is read of the text of a node above tokens, which stands below a node
/// of kind `up`: the names of what is declared, the simple names of
/// annotations, and the package.
pub open spec fn kept(up: Seq<char>, n: NodeView) -> Option<Seq<char>> {
    if up == "package_declaration"@ || (n.field == Some("name"@) && (lang_java::declares_type(up)
        || lang_java::declares_method(up) || up == "variable_declarator"@)) {
        n.text
    } else if n.field == Some("name"@) && (up == "marker_annotation"@ || up == "annotation"@)
        && n.text is Some {
        Some(text::after_last(n.text.unwrap(), '.'))
    } else {
        None
    }
}

/// Is this a file as tree-sitter gives it: is no comment its parent's child
/// by a field?
pub open spec fn is_clear_file(root: NodeView) -> bool {
    bare::all_tidy(root.children, |n: NodeView| true)
}

/// Do the two files differ in comments and formatting alone?
pub open spec fn same_code(a: NodeView, b: NodeView) -> bool {
    let k = |up: Seq<char>, n: NodeView| kept(up, n);
    a.kind == b.kind && bare::bares(a.children, a.kind, k) == bare::bares(b.children, b.kind, k)
}

spec fn k() -> spec_fn(Seq<char>, NodeView) -> Option<Seq<char>> {
    |up: Seq<char>, n: NodeView| kept(up, n)
}

spec fn c() -> spec_fn(NodeView) -> bool {
    |n: NodeView| true
}

proof fn lemma_kinds()
    ensures
        !text::occurs_in("class_declaration"@, "comment"@),
        !text::occurs_in("interface_declaration"@, "comment"@),
        !text::occurs_in("enum_declaration"@, "comment"@),
        !text::occurs_in("record_declaration"@, "comment"@),
        !text::occurs_in("annotation_type_declaration"@, "comment"@),
        !text::occurs_in("method_declaration"@, "comment"@),
        !text::occurs_in("constructor_declaration"@, "comment"@),
        !text::occurs_in("field_declaration"@, "comment"@),
        !text::occurs_in("variable_declarator"@, "comment"@),
        !text::occurs_in("marker_annotation"@, "comment"@),
        !text::occurs_in("annotation"@, "comment"@),
        !text::occurs_in("modifiers"@, "comment"@),
        !text::occurs_in("package_declaration"@, "comment"@),
        !text::occurs_in("scoped_identifier"@, "comment"@),
        !text::occurs_in("identifier"@, "comment"@),
        text::occurs_in("comment"@, "comment"@),
{
    reveal_strlit("class_declaration");
    reveal_strlit("interface_declaration");
    reveal_strlit("enum_declaration");
    reveal_strlit("record_declaration");
    reveal_strlit("annotation_type_declaration");
    reveal_strlit("method_declaration");
    reveal_strlit("constructor_declaration");
    reveal_strlit("field_declaration");
    reveal_strlit("variable_declarator");
    reveal_strlit("marker_annotation");
    reveal_strlit("annotation");
    reveal_strlit("modifiers");
    reveal_strlit("package_declaration");
    reveal_strlit("scoped_identifier");
    reveal_strlit("identifier");
    bare::lemma_kind_is_no_comment("class_declaration"@);
    bare::lemma_kind_is_no_comment("interface_declaration"@);
    bare::lemma_kind_is_no_comment("enum_declaration"@);
    bare::lemma_kind_is_no_comment("record_declaration"@);
    bare::lemma_kind_is_no_comment("annotation_type_declaration"@);
    bare::lemma_kind_is_no_comment("method_declaration"@);
    bare::lemma_kind_is_no_comment("constructor_declaration"@);
    bare::lemma_kind_is_no_comment("field_declaration"@);
    bare::lemma_kind_is_no_comment("variable_declarator"@);
    bare::lemma_kind_is_no_comment("marker_annotation"@);
    bare::lemma_kind_is_no_comment("annotation"@);
    bare::lemma_kind_is_no_comment("modifiers"@);
    bare::lemma_kind_is_no_comment("package_declaration"@);
    bare::lemma_kind_is_no_comment("scoped_identifier"@);
    bare::lemma_kind_is_no_comment("identifier"@);
    bare::lemma_blank();
}

/// A kind that declares a type, a method or fields is no comment's.
proof fn lemma_declarations_are_no_comments(kind: Seq<char>)
    requires
        text::occurs_in(kind, "comment"@),
    ensures
        !lang_java::declares_type(kind),
        !lang_java::declares_method(kind),
        kind != "field_declaration"@,
{
    lemma_kinds();
}

proof fn lemma_annotation_names(ns: Seq<NodeView>, up: Seq<char>)
    requires
        bare::all_tidy(ns, c()),
    ensures
        lang_java::annotation_names_in(bare::bares(ns, up, k())) == lang_java::annotation_names_in(
            ns,
        ),
    decreases ns.len(),
{
    if ns.len() > 0 {
        let init = ns.drop_last();
        let n = ns.last();
        lemma_annotation_names(init, up);
        lemma_kinds();
        bare::lemma_tidy_at(ns, c(), ns.len() - 1);
        if !syntax::is_comment(n) {
            let b = bare::bare(n, up, k());
            assert(bare::bares(ns, up, k()).drop_last() =~= bare::bares(init, up, k()));
            assert(bare::bares(ns, up, k()).last() == b);
            bare::lemma_field(b, n, c(), k(), "name"@);
            if let Some(name) = syntax::field_of(n, "name"@) {
                if let Some(t) = name.text {
                    text::lemma_after_last_twice(t, '.');
                }
            }
        }
    }
}

proof fn lemma_annotations(n: NodeView, up: Seq<char>)
    requires
        bare::tidy(n, c()),
    ensures
        lang_java::annotations_of(bare::bare(n, up, k())) == lang_java::annotations_of(n),
{
    lemma_kinds();
    bare::lemma_first_of(n.children, n.kind, c(), k(), "modifiers"@, "modifiers"@);
    bare::lemma_blank_kind("modifiers"@);
    if let Some(m) = syntax::first_of(n.children, "modifiers"@, "modifiers"@) {
        lemma_annotation_names(m.children, m.kind);
        reveal_with_fuel(lang_java::annotation_names_in, 2);
        assert(seq![bare::blank()].drop_last() =~= Seq::empty());
    }
}

proof fn lemma_package(root: NodeView)
    requires
        is_clear_file(root),
    ensures
        lang_java::package_name(bare::bare_file(root, k())) == lang_java::package_name(root),
{
    lemma_kinds();
    bare::lemma_first_of(
        root.children,
        root.kind,
        c(),
        k(),
        "package_declaration"@,
        "package_declaration"@,
    );
    if let Some(decl) = syntax::first_of(
        root.children,
        "package_declaration"@,
        "package_declaration"@,
    ) {
        bare::lemma_first_of(
            decl.children,
            decl.kind,
            c(),
            k(),
            "scoped_identifier"@,
            "identifier"@,
        );
        reveal_with_fuel(syntax::first_of, 2);
        assert(seq![bare::blank()].drop_last() =~= Seq::empty());
    }
}

proof fn lemma_body_hash(body: NodeView, up: Seq<char>)
    requires
        bare::tidy(body, c()),
    ensures
        ({
            let bs = bare::bare(body, up, k()).children;
            fingerprint::loose_stream(bs, lang_java::own_members(bs)) == fingerprint::loose_stream(
                body.children,
                lang_java::own_members(body.children),
            )
        }),
{
    let ns = body.children;
    let bs = bare::bares(ns, body.kind, k());
    bare::lemma_loose(
        ns,
        body.kind,
        lang_java::own_members(ns),
        lang_java::own_members(bs),
        k(),
        |n: NodeView| lang_java::own_member(n),
    );
    bare::lemma_blank();
    let blank = seq![bare::blank()];
    reveal_with_fuel(fingerprint::kept_streams, 2);
    assert(blank.drop_last() =~= Seq::empty());
    assert(fingerprint::loose_stream(blank, lang_java::own_members(blank)) =~= Seq::empty());
    if bs.len() == 0 {
        assert(fingerprint::loose_stream(bs, lang_java::own_members(bs)) =~= Seq::empty());
    }
}

proof fn lemma_type_def(n: NodeView, up: Seq<char>, name: Seq<char>, parent: Option<usize>)
    requires
        bare::tidy(n, c()),
    ensures
        bare::timeless(lang_java::type_def(bare::bare(n, up, k()), name, parent)) == bare::timeless(
            lang_java::type_def(n, name, parent),
        ),
{
    bare::lemma_signature(n, up, c(), k());
    bare::lemma_field(bare::bare(n, up, k()), n, c(), k(), "body"@);
    if let Some(body) = syntax::field_of(n, "body"@) {
        lemma_body_hash(body, n.kind);
    }
}

proof fn lemma_fields(
    ns: Seq<NodeView>,
    bs: Seq<NodeView>,
    up: Seq<char>,
    f: Found,
    g: Found,
    owner: Owner,
    parent: Option<usize>,
)
    requires
        bs.len() == ns.len(),
        forall|i: int|
            0 <= i < ns.len() ==> bare::tidy(#[trigger] ns[i], c()) && ns[i].kind
                == "variable_declarator"@ && bs[i] == bare::bare(ns[i], up, k()),
        bare::essence(f.draft) == bare::essence(g.draft),
    ensures
        bare::essence(lang_java::with_fields(bs, g, owner, parent).draft) == bare::essence(
            lang_java::with_fields(ns, f, owner, parent).draft,
        ),
    decreases ns.len(),
{
    if ns.len() > 0 {
        let init = ns.drop_last();
        let bare_init = bs.drop_last();
        let n = ns.last();
        assert forall|i: int| 0 <= i < init.len() implies bare::tidy(#[trigger] init[i], c())
            && init[i].kind == "variable_declarator"@ && bare_init[i] == bare::bare(
            init[i],
            up,
            k(),
        ) by {
            assert(ns[i] == init[i]);
        }
        lemma_fields(init, bare_init, up, f, g, owner, parent);
        assert(ns[ns.len() - 1] == n);
        let b = bare::bare(n, up, k());
        let x = lang_java::with_fields(init, f, owner, parent);
        let y = lang_java::with_fields(bare_init, g, owner, parent);
        bare::lemma_field(b, n, c(), k(), "name"@);
        if let Some(name_node) = syntax::field_of(n, "name"@) {
            if let Some(name) = name_node.text {
                let full = owner.name + "#"@ + name;
                bare::lemma_def_of(n, up, c(), k(), full, DefKind::Method, parent, None, false);
                bare::lemma_with_def(
                    x.draft.named(name_node.id),
                    y.draft.named(bare::bare(name_node, n.kind, k()).id),
                    draft::def_of(n, full, DefKind::Method, parent, None, false),
                    draft::def_of(b, full, DefKind::Method, parent, None, false),
                );
            }
        }
    }
}

proof fn lemma_method(n: NodeView, up: Seq<char>, f: Found, g: Found, owner: Owner)
    requires
        bare::tidy(n, c()),
        lang_java::declares_method(n.kind),
        bare::essence(f.draft) == bare::essence(g.draft),
    ensures
        bare::essence(lang_java::with_method(bare::bare(n, up, k()), g, owner).draft)
            == bare::essence(lang_java::with_method(n, f, owner).draft),
{
    let b = bare::bare(n, up, k());
    lemma_annotations(n, up);
    bare::lemma_field(b, n, c(), k(), "name"@);
    if let Some(name_node) = syntax::field_of(n, "name"@) {
        if let Some(name) = name_node.text {
            let full = owner.name + "."@ + name;
            let test = lang_java::is_test(n);
            let kind = if test {
                DefKind::TestCase
            } else {
                DefKind::Method
            };
            let chain = if test {
                Some(lang_java::test_chain(owner.package, owner.chain, name))
            } else {
                None
            };
            let parent = lang_java::parent_for(n, owner);
            bare::lemma_def_of(n, up, c(), k(), full, kind, parent, chain, false);
            bare::lemma_with_def(
                f.draft.named(name_node.id),
                g.draft.named(bare::bare(name_node, n.kind, k()).id),
                draft::def_of(n, full, kind, parent, chain, false),
                draft::def_of(b, full, kind, parent, chain, false),
            );
        }
    }
}

proof fn lemma_type(
    n: NodeView,
    up: Seq<char>,
    f: Found,
    g: Found,
    parent: Option<usize>,
    chain: Seq<Seq<char>>,
    package: Option<Seq<char>>,
)
    requires
        bare::tidy(n, c()),
        lang_java::declares_type(n.kind),
        bare::essence(f.draft) == bare::essence(g.draft),
    ensures
        bare::essence(
            lang_java::with_type(bare::bare(n, up, k()), g, parent, chain, package).draft,
        ) == bare::essence(lang_java::with_type(n, f, parent, chain, package).draft),
    decreases n, 0nat,
{
    let b = bare::bare(n, up, k());
    bare::lemma_field(b, n, c(), k(), "name"@);
    bare::lemma_field(b, n, c(), k(), "body"@);
    if let Some(name_node) = syntax::field_of(n, "name"@) {
        if let Some(name) = name_node.text {
            let x = lang_java::type_def(n, name, parent);
            let y = lang_java::type_def(b, name, parent);
            lemma_type_def(n, up, name, parent);
            bare::lemma_with_def(f.draft, g.draft, x, y);
            let own = Found {
                draft: f.draft.with_def(x).named(name_node.id).opened(n.id),
                fields: f.fields,
            };
            let bare_own = Found {
                draft: g.draft.with_def(y).named(bare::bare(name_node, n.kind, k()).id).opened(b.id),
                fields: g.fields,
            };
            let owner = Owner { at: own.draft.last(), name, chain: chain.push(name), package };
            if let Some(body) = syntax::field_of(n, "body"@) {
                syntax::lemma_field_below(n, "body"@);
                lemma_members(body.children, body.kind, own, bare_own, owner);
                lemma_blank_members(bare_own, owner);
            }
        }
    }
}

proof fn lemma_blank_members(g: Found, owner: Owner)
    ensures
        lang_java::with_members(seq![bare::blank()], g, owner) == g,
{
    lemma_kinds();
    lemma_declarations_are_no_comments("comment"@);
    reveal_with_fuel(lang_java::with_members, 2);
    assert(seq![bare::blank()].drop_last() =~= Seq::empty());
}

proof fn lemma_members(ns: Seq<NodeView>, up: Seq<char>, f: Found, g: Found, owner: Owner)
    requires
        bare::all_tidy(ns, c()),
        bare::essence(f.draft) == bare::essence(g.draft),
    ensures
        bare::essence(lang_java::with_members(bare::bares(ns, up, k()), g, owner).draft)
            == bare::essence(lang_java::with_members(ns, f, owner).draft),
    decreases ns, 1nat,
{
    if ns.len() > 0 {
        let init = ns.drop_last();
        let n = ns.last();
        lemma_members(init, up, f, g, owner);
        let x = lang_java::with_members(init, f, owner);
        let y = lang_java::with_members(bare::bares(init, up, k()), g, owner);
        bare::lemma_tidy_at(ns, c(), ns.len() - 1);
        if syntax::is_comment(n) {
            lemma_declarations_are_no_comments(n.kind);
        } else {
            let b = bare::bare(n, up, k());
            assert(bare::bares(ns, up, k()).drop_last() =~= bare::bares(init, up, k()));
            assert(bare::bares(ns, up, k()).last() == b);
            if lang_java::declares_type(n.kind) {
                lemma_type(n, up, x, y, Some(owner.at), owner.chain, owner.package);
            } else if n.kind == "field_declaration"@ {
                lemma_kinds();
                lemma_annotations(n, up);
                bare::lemma_of_kind(n.children, n.kind, c(), k(), "variable_declarator"@);
                bare::lemma_blank_kind("variable_declarator"@);
                let ds = syntax::of_kind(n.children, "variable_declarator"@);
                let es = syntax::of_kind(b.children, "variable_declarator"@);
                assert forall|i: int| 0 <= i < ds.len() implies bare::tidy(
                    #[trigger] ds[i],
                    c(),
                ) && ds[i].kind == "variable_declarator"@ && es[i] == bare::bare(
                    ds[i],
                    n.kind,
                    k(),
                ) by {}
                lemma_fields(ds, es, n.kind, x, y, owner, lang_java::parent_for(n, owner));
            } else if lang_java::declares_method(n.kind) {
                lemma_method(n, up, x, y, owner);
            }
        }
    }
}

proof fn lemma_types(
    ns: Seq<NodeView>,
    up: Seq<char>,
    f: Found,
    g: Found,
    package: Option<Seq<char>>,
)
    requires
        bare::all_tidy(ns, c()),
        bare::essence(f.draft) == bare::essence(g.draft),
    ensures
        bare::essence(lang_java::with_types(bare::bares(ns, up, k()), g, package).draft)
            == bare::essence(lang_java::with_types(ns, f, package).draft),
    decreases ns.len(),
{
    if ns.len() > 0 {
        let init = ns.drop_last();
        let n = ns.last();
        lemma_types(init, up, f, g, package);
        bare::lemma_tidy_at(ns, c(), ns.len() - 1);
        if syntax::is_comment(n) {
            lemma_declarations_are_no_comments(n.kind);
        } else {
            assert(bare::bares(ns, up, k()).drop_last() =~= bare::bares(init, up, k()));
            assert(bare::bares(ns, up, k()).last() == bare::bare(n, up, k()));
            if lang_java::declares_type(n.kind) {
                lemma_type(
                    n,
                    up,
                    lang_java::with_types(init, f, package),
                    lang_java::with_types(bare::bares(init, up, k()), g, package),
                    None,
                    Seq::empty(),
                    package,
                );
            }
        }
    }
}

/// The definitions of a file are those of the file without comments and
/// formatting, but for their lines.
proof fn lemma_file(root: NodeView)
    requires
        is_clear_file(root),
    ensures
        bare::essence(lang_java::found_in(bare::bare_file(root, k())).draft) == bare::essence(
            lang_java::found_in(root).draft,
        ),
{
    let b = bare::bare_file(root, k());
    let ns = root.children;
    bare::lemma_loose(
        ns,
        root.kind,
        lang_java::standing_alone(ns),
        lang_java::standing_alone(b.children),
        k(),
        |n: NodeView| lang_java::stands_alone(n),
    );
    let none = DraftView::empty();
    let x = draft::module_def(root, lang_java::standing_alone(ns));
    let y = draft::module_def(b, lang_java::standing_alone(b.children));
    bare::lemma_with_def(none, none, x, y);
    lemma_package(root);
    lemma_types(
        ns,
        root.kind,
        Found { draft: none.with_def(x), fields: Seq::empty() },
        Found { draft: none.with_def(y), fields: Seq::empty() },
        lang_java::package_name(root),
    );
}

/// An edit of comments and formatting alone changes no definition of a Java
/// file.
pub proof fn law_reformatting_changes_nothing(a: NodeView, b: NodeView)
    requires
        is_clear_file(a),
        is_clear_file(b),
        same_code(a, b),
        lang_java::extracted(a).defs.len() <= usize::MAX,
    ensures
        diffdef::diff(lang_java::extracted(a).defs, lang_java::extracted(b).defs) == Seq::<
            diffdef::ChangeView,
        >::empty(),
{
    lemma_file(a);
    lemma_file(b);
    bare::lemma_same_essence(lang_java::found_in(a).draft, lang_java::found_in(b).draft);
}

} // verus!
