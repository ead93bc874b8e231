//! Comments and formatting in Rust: an edit of those alone changes no
//! definition.
use vstd::prelude::*;

use crate::bare;
use crate::diffdef;
use crate::draft;
use crate::draft::DraftView;
use crate::graph::DefKind;
use crate::lang_rust;
use crate::lang_rust::Found;
use crate::syntax;
use crate::syntax::NodeView;
use crate::text;

verus! {

/// What is read of the text of a node above tokens, which stands below a node
/// of kind `up`: the names of items, the paths of attributes, and the type
/// that an `impl` block is of as far as its generic arguments.
pub open spec fn kept(up: Seq<char>, n: NodeView) -> Option<Seq<char>> {
    if up == "attribute"@ || (n.field == Some("name"@) && (up == "function_item"@ || up
        == "struct_item"@ || up == "enum_item"@ || up == "trait_item"@ || up == "mod_item"@)) {
        n.text
    } else if up == "impl_item"@ && n.field == Some("type"@) && n.text is Some {
        Some(lang_rust::without_generics(n.text.unwrap()))
    } else {
        None
    }
}

/// Is the whole text of `n` kept?
pub open spec fn spelled(up: Seq<char>, n: NodeView) -> bool {
    n.children.len() == 0 || kept(up, n) == n.text
}

/// What is taken for granted of a node: an attribute item holds an attribute,
/// whose path is read in full, and comments are of the two kinds that the
/// grammar has.
pub open spec fn clear(n: NodeView) -> bool {
    &&& n.kind == "attribute_item"@ ==> (syntax::named_child_of(n, 0) matches Some(a) ==> (
    syntax::named_child_of(a, 0) matches Some(p) ==> spelled(a.kind, p)))
    &&& syntax::is_comment(n) ==> n.kind == "line_comment"@ || n.kind == "block_comment"@
}

/// Is this a Rust file with what is taken for granted of its nodes?
pub open spec fn is_clear_file(root: NodeView) -> bool {
    bare::all_tidy(root.children, |n: NodeView| clear(n))
}

/// Do the two files differ in comments and formatting alone?
pub open spec fn same_code(a: NodeView, b: NodeView) -> bool {
    let k = |up: Seq<char>, n: NodeView| kept(up, n);
    a.kind == b.kind && bare::bares(a.children, a.kind, k) == bare::bares(b.children, b.kind, k)
}

spec fn k() -> spec_fn(Seq<char>, NodeView) -> Option<Seq<char>> {
    |up: Seq<char>, n: NodeView| kept(up, n)
}

spec fn c() -> spec_fn(NodeView) -> bool {
    |n: NodeView| clear(n)
}

proof fn lemma_kinds()
    ensures
        !text::occurs_in("attribute_item"@, "comment"@),
        !text::occurs_in("function_item"@, "comment"@),
        !text::occurs_in("impl_item"@, "comment"@),
        !text::occurs_in("struct_item"@, "comment"@),
        !text::occurs_in("enum_item"@, "comment"@),
        !text::occurs_in("trait_item"@, "comment"@),
        !text::occurs_in("mod_item"@, "comment"@),
        !text::occurs_in("use_declaration"@, "comment"@),
        text::occurs_in("comment"@, "comment"@),
        "comment"@ != "line_comment"@,
        "comment"@ != "block_comment"@,
{
    reveal_strlit("attribute_item");
    reveal_strlit("function_item");
    reveal_strlit("impl_item");
    reveal_strlit("struct_item");
    reveal_strlit("enum_item");
    reveal_strlit("trait_item");
    reveal_strlit("mod_item");
    reveal_strlit("use_declaration");
    reveal_strlit("comment");
    reveal_strlit("line_comment");
    reveal_strlit("block_comment");
    bare::lemma_kind_is_no_comment("attribute_item"@);
    bare::lemma_kind_is_no_comment("function_item"@);
    bare::lemma_kind_is_no_comment("impl_item"@);
    bare::lemma_kind_is_no_comment("struct_item"@);
    bare::lemma_kind_is_no_comment("enum_item"@);
    bare::lemma_kind_is_no_comment("trait_item"@);
    bare::lemma_kind_is_no_comment("mod_item"@);
    bare::lemma_kind_is_no_comment("use_declaration"@);
    bare::lemma_blank();
    assert("comment"@.len() == 7);
    assert("line_comment"@.len() == 12);
    assert("block_comment"@.len() == 13);
}

proof fn lemma_test_attribute(n: NodeView, up: Seq<char>)
    requires
        bare::tidy(n, c()),
        n.kind == "attribute_item"@,
    ensures
        lang_rust::is_test_attribute(bare::bare(n, up, k())) == lang_rust::is_test_attribute(n),
{
    assert(c()(n));
    bare::lemma_named_child(bare::bare(n, up, k()), n, c(), k(), 0);
    if let Some(a) = syntax::named_child_of(n, 0) {
        bare::lemma_named_child(bare::bare(a, n.kind, k()), a, c(), k(), 0);
    }
}

/// Are these the attributes `attrs`, bare?
spec fn bare_attrs(bs: Seq<NodeView>, attrs: Seq<NodeView>, up: Seq<char>) -> bool {
    bs.len() == attrs.len() && forall|i: int|
        0 <= i < attrs.len() ==> (#[trigger] attrs[i]).kind == "attribute_item"@ && bare::tidy(
            attrs[i],
            c(),
        ) && bs[i] == bare::bare(attrs[i], up, k())
}

proof fn lemma_any_test_attribute(bs: Seq<NodeView>, attrs: Seq<NodeView>, up: Seq<char>)
    requires
        bare_attrs(bs, attrs, up),
    ensures
        lang_rust::any_test_attribute(bs) == lang_rust::any_test_attribute(attrs),
{
    assert forall|i: int| 0 <= i < attrs.len() implies lang_rust::is_test_attribute(
        #[trigger] attrs[i],
    ) == lang_rust::is_test_attribute(bs[i]) by {
        lemma_test_attribute(attrs[i], up);
    }
    if lang_rust::any_test_attribute(attrs) {
        let i = choose|i: int|
            0 <= i < attrs.len() && lang_rust::is_test_attribute(#[trigger] attrs[i]);
        assert(lang_rust::is_test_attribute(bs[i]));
    }
    if lang_rust::any_test_attribute(bs) {
        let i = choose|i: int| 0 <= i < bs.len() && lang_rust::is_test_attribute(#[trigger] bs[i]);
        assert(lang_rust::is_test_attribute(attrs[i]));
    }
}

proof fn lemma_function(
    n: NodeView,
    up: Seq<char>,
    f: Found,
    g: Found,
    mods: Seq<Seq<char>>,
    attrs: Seq<NodeView>,
    bs: Seq<NodeView>,
)
    requires
        bare::tidy(n, c()),
        n.kind == "function_item"@,
        bare_attrs(bs, attrs, up),
        bare::essence(f.draft) == bare::essence(g.draft),
    ensures
        bare::essence(lang_rust::with_function(bare::bare(n, up, k()), g, mods, bs).draft)
            == bare::essence(lang_rust::with_function(n, f, mods, attrs).draft),
{
    let b = bare::bare(n, up, k());
    lemma_any_test_attribute(bs, attrs, up);
    bare::lemma_field(b, n, c(), k(), "name"@);
    if let Some(name_node) = syntax::field_of(n, "name"@) {
        if let Some(name) = name_node.text {
            let test = lang_rust::any_test_attribute(attrs);
            let kind = if test {
                DefKind::TestCase
            } else {
                DefKind::Function
            };
            let chain = if test {
                Some(mods.push(name))
            } else {
                None
            };
            bare::lemma_def_of(n, up, c(), k(), name, kind, None, chain, false);
            bare::lemma_with_def(
                f.draft,
                g.draft,
                draft::def_of(n, name, kind, None, chain, false),
                draft::def_of(b, name, kind, None, chain, false),
            );
        }
    }
}

proof fn lemma_type(n: NodeView, up: Seq<char>, f: Found, g: Found)
    requires
        bare::tidy(n, c()),
        n.kind == "struct_item"@ || n.kind == "enum_item"@ || n.kind == "trait_item"@,
        bare::essence(f.draft) == bare::essence(g.draft),
    ensures
        bare::essence(lang_rust::with_type(bare::bare(n, up, k()), g).draft) == bare::essence(
            lang_rust::with_type(n, f).draft,
        ),
{
    let b = bare::bare(n, up, k());
    bare::lemma_field(b, n, c(), k(), "name"@);
    if let Some(name_node) = syntax::field_of(n, "name"@) {
        if let Some(name) = name_node.text {
            bare::lemma_def_of(n, up, c(), k(), name, DefKind::Class, None, None, false);
            bare::lemma_with_def(
                f.draft,
                g.draft,
                draft::def_of(n, name, DefKind::Class, None, None, false),
                draft::def_of(b, name, DefKind::Class, None, None, false),
            );
        }
    }
}

proof fn lemma_methods(ns: Seq<NodeView>, up: Seq<char>, ty: Seq<char>, f: Found, g: Found)
    requires
        bare::all_tidy(ns, c()),
        bare::essence(f.draft) == bare::essence(g.draft),
    ensures
        bare::essence(lang_rust::with_methods(bare::bares(ns, up, k()), ty, g).draft)
            == bare::essence(lang_rust::with_methods(ns, ty, f).draft),
    decreases ns.len(),
{
    if ns.len() > 0 {
        let init = ns.drop_last();
        let n = ns.last();
        let b = bare::bare(n, up, k());
        lemma_methods(init, up, ty, f, g);
        lemma_kinds();
        bare::lemma_tidy_at(ns, c(), ns.len() - 1);
        if !syntax::is_comment(n) {
            assert(bare::bares(ns, up, k()).drop_last() =~= bare::bares(init, up, k()));
            assert(bare::bares(ns, up, k()).last() == b);
            bare::lemma_field(b, n, c(), k(), "name"@);
            if n.kind == "function_item"@ {
                if let Some(name_node) = syntax::field_of(n, "name"@) {
                    if let Some(name) = name_node.text {
                        let full = ty + "."@ + name;
                        bare::lemma_def_of(n, up, c(), k(), full, DefKind::Method, None, None, false);
                        bare::lemma_with_def(
                            lang_rust::with_methods(init, ty, f).draft,
                            lang_rust::with_methods(bare::bares(init, up, k()), ty, g).draft,
                            draft::def_of(n, full, DefKind::Method, None, None, false),
                            draft::def_of(b, full, DefKind::Method, None, None, false),
                        );
                    }
                }
            }
        }
    }
}

proof fn lemma_blank_methods(ty: Seq<char>, g: Found)
    ensures
        lang_rust::with_methods(seq![bare::blank()], ty, g) == g,
{
    lemma_kinds();
    reveal_with_fuel(lang_rust::with_methods, 2);
    assert(seq![bare::blank()].drop_last() =~= Seq::empty());
}

proof fn lemma_impl(n: NodeView, up: Seq<char>, f: Found, g: Found)
    requires
        bare::tidy(n, c()),
        n.kind == "impl_item"@,
        bare::essence(f.draft) == bare::essence(g.draft),
    ensures
        bare::essence(lang_rust::with_impl(bare::bare(n, up, k()), g).draft) == bare::essence(
            lang_rust::with_impl(n, f).draft,
        ),
{
    let b = bare::bare(n, up, k());
    bare::lemma_field(b, n, c(), k(), "type"@);
    bare::lemma_field(b, n, c(), k(), "body"@);
    if let Some(ty) = syntax::field_of(n, "type"@) {
        if let Some(t) = ty.text {
            text::lemma_split_head(t, '<');
            if let Some(body) = syntax::field_of(n, "body"@) {
                let name = lang_rust::without_generics(t);
                lemma_methods(body.children, body.kind, name, f, g);
                lemma_blank_methods(name, g);
            }
        }
    }
}

proof fn lemma_mod(n: NodeView, up: Seq<char>, f: Found, g: Found, mods: Seq<Seq<char>>)
    requires
        bare::tidy(n, c()),
        n.kind == "mod_item"@,
        bare::essence(f.draft) == bare::essence(g.draft),
    ensures
        bare::essence(lang_rust::with_mod(bare::bare(n, up, k()), g, mods).draft) == bare::essence(
            lang_rust::with_mod(n, f, mods).draft,
        ),
    decreases n, 0nat,
{
    let b = bare::bare(n, up, k());
    bare::lemma_field(b, n, c(), k(), "name"@);
    bare::lemma_field(b, n, c(), k(), "body"@);
    if let Some(name_node) = syntax::field_of(n, "name"@) {
        if let Some(name) = name_node.text {
            if let Some(body) = syntax::field_of(n, "body"@) {
                syntax::lemma_field_below(n, "body"@);
                lemma_items(body.children, body.kind, f, g, mods.push(name));
                lemma_blank_items(g, mods.push(name));
            }
        }
    }
}

proof fn lemma_blank_items(g: Found, mods: Seq<Seq<char>>)
    ensures
        lang_rust::with_items(seq![bare::blank()], g, mods).0 == g,
{
    lemma_kinds();
    reveal_with_fuel(lang_rust::with_items, 2);
    assert(seq![bare::blank()].drop_last() =~= Seq::empty());
}

proof fn lemma_items(
    ns: Seq<NodeView>,
    up: Seq<char>,
    f: Found,
    g: Found,
    mods: Seq<Seq<char>>,
)
    requires
        bare::all_tidy(ns, c()),
        bare::essence(f.draft) == bare::essence(g.draft),
    ensures
        bare::essence(lang_rust::with_items(bare::bares(ns, up, k()), g, mods).0.draft)
            == bare::essence(lang_rust::with_items(ns, f, mods).0.draft),
        bare_attrs(
            lang_rust::with_items(bare::bares(ns, up, k()), g, mods).1,
            lang_rust::with_items(ns, f, mods).1,
            up,
        ),
    decreases ns, 1nat,
{
    if ns.len() > 0 {
        let init = ns.drop_last();
        let n = ns.last();
        lemma_items(init, up, f, g, mods);
        let (x, attrs) = lang_rust::with_items(init, f, mods);
        let (y, bs) = lang_rust::with_items(bare::bares(init, up, k()), g, mods);
        lemma_kinds();
        bare::lemma_tidy_at(ns, c(), ns.len() - 1);
        if !syntax::is_comment(n) {
            let b = bare::bare(n, up, k());
            assert(bare::bares(ns, up, k()).drop_last() =~= bare::bares(init, up, k()));
            assert(bare::bares(ns, up, k()).last() == b);
            assert(n.kind != "line_comment"@ && n.kind != "block_comment"@) by {
                lemma_comment_kinds();
            }
            if n.kind == "attribute_item"@ {
                assert forall|i: int| 0 <= i < attrs.push(n).len() implies (
                #[trigger] attrs.push(n)[i]).kind == "attribute_item"@ && bare::tidy(
                    attrs.push(n)[i],
                    c(),
                ) && bs.push(b)[i] == bare::bare(attrs.push(n)[i], up, k()) by {
                    if i < attrs.len() {
                        assert(attrs.push(n)[i] == attrs[i]);
                    }
                }
            } else if n.kind == "function_item"@ {
                lemma_function(n, up, x, y, mods, attrs, bs);
            } else if n.kind == "impl_item"@ {
                lemma_impl(n, up, x, y);
            } else if n.kind == "struct_item"@ || n.kind == "enum_item"@ || n.kind
                == "trait_item"@ {
                lemma_type(n, up, x, y);
            } else if n.kind == "mod_item"@ {
                lemma_mod(n, up, x, y, mods);
            }
        } else {
            assert(c()(n));
        }
    }
}

proof fn lemma_comment_kinds()
    ensures
        text::occurs_in("line_comment"@, "comment"@),
        text::occurs_in("block_comment"@, "comment"@),
{
    reveal_strlit("comment");
    reveal_strlit("line_comment");
    reveal_strlit("block_comment");
    assert("line_comment"@.subrange(5, 12) =~= "comment"@);
    assert(text::stands_at("line_comment"@, "comment"@, 5));
    assert("block_comment"@.subrange(6, 13) =~= "comment"@);
    assert(text::stands_at("block_comment"@, "comment"@, 6));
}

proof fn lemma_stands_alone(n: NodeView, up: Seq<char>)
    requires
        bare::tidy(n, c()),
    ensures
        lang_rust::stands_alone(bare::bare(n, up, k())) == lang_rust::stands_alone(n),
    decreases n, 0nat,
{
    bare::lemma_field(bare::bare(n, up, k()), n, c(), k(), "body"@);
    if let Some(body) = syntax::field_of(n, "body"@) {
        syntax::lemma_field_below(n, "body"@);
        lemma_all_stand_alone(body.children, body.kind);
        reveal_with_fuel(lang_rust::all_stand_alone, 2);
        assert(seq![bare::blank()].drop_last() =~= Seq::empty());
        assert(lang_rust::all_stand_alone(seq![bare::blank()]));
    }
}

proof fn lemma_all_stand_alone(ns: Seq<NodeView>, up: Seq<char>)
    requires
        bare::all_tidy(ns, c()),
    ensures
        lang_rust::all_stand_alone(bare::bares(ns, up, k())) == lang_rust::all_stand_alone(ns),
    decreases ns, 1nat,
{
    if ns.len() > 0 {
        let init = ns.drop_last();
        let n = ns.last();
        lemma_all_stand_alone(init, up);
        bare::lemma_tidy_at(ns, c(), ns.len() - 1);
        if syntax::is_comment(n) {
            assert(c()(n));
        } else {
            assert(bare::bares(ns, up, k()).drop_last() =~= bare::bares(init, up, k()));
            assert(bare::bares(ns, up, k()).last() == bare::bare(n, up, k()));
            lemma_stands_alone(n, up);
        }
    }
}

proof fn lemma_module(root: NodeView)
    requires
        is_clear_file(root),
    ensures
        ({
            let b = bare::bare_file(root, k());
            bare::timeless(draft::module_def(b, lang_rust::standing_alone(b.children)))
                == bare::timeless(
                draft::module_def(root, lang_rust::standing_alone(root.children)),
            )
        }),
{
    let ns = root.children;
    let bs = bare::bares(ns, root.kind, k());
    let alone = |n: NodeView| lang_rust::stands_alone(n);
    assert forall|i: int| 0 <= i < ns.len() && !syntax::is_comment(#[trigger] ns[i]) implies alone(
        bare::bare(ns[i], root.kind, k()),
    ) == alone(ns[i]) by {
        bare::lemma_tidy_at(ns, c(), i);
        lemma_stands_alone(ns[i], root.kind);
    }
    bare::lemma_loose(
        ns,
        root.kind,
        lang_rust::standing_alone(ns),
        lang_rust::standing_alone(bs),
        k(),
        alone,
    );
}

/// The definitions of a file are those of the file without comments and
/// formatting, but for their lines.
proof fn lemma_file(root: NodeView)
    requires
        is_clear_file(root),
    ensures
        bare::essence(lang_rust::found_in(bare::bare_file(root, k())).draft) == bare::essence(
            lang_rust::found_in(root).draft,
        ),
{
    let b = bare::bare_file(root, k());
    lemma_module(root);
    let none = DraftView::empty();
    let x = draft::module_def(root, lang_rust::standing_alone(root.children));
    let y = draft::module_def(b, lang_rust::standing_alone(b.children));
    bare::lemma_with_def(none, none, x, y);
    lemma_items(
        root.children,
        root.kind,
        Found { draft: none.with_def(x), imports: Seq::empty() },
        Found { draft: none.with_def(y), imports: Seq::empty() },
        Seq::empty(),
    );
}

/// An edit of comments and formatting alone changes no definition of a Rust
/// file.
pub proof fn law_reformatting_changes_nothing(a: NodeView, b: NodeView)
    requires
        is_clear_file(a),
        is_clear_file(b),
        same_code(a, b),
        lang_rust::extracted(a).defs.len() <= usize::MAX,
    ensures
        diffdef::diff(lang_rust::extracted(a).defs, lang_rust::extracted(b).defs) == Seq::<
            diffdef::ChangeView,
        >::empty(),
{
    lemma_file(a);
    lemma_file(b);
    bare::lemma_same_essence(lang_rust::found_in(a).draft, lang_rust::found_in(b).draft);
}

} // verus!
