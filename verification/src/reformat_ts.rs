//! Comments and formatting in TypeScript: an edit of those alone changes no
//! definition.
use vstd::prelude::*;

use crate::bare;
use crate::diffdef;
use crate::draft;
use crate::draft::DraftView;
use crate::graph::DefKind;
use crate::lang_ts;
use crate::lang_ts::TestCallKind;
use crate::syntax;
use crate::syntax::NodeView;
use crate::text;

verus! {

/// What is read of the text of a node above tokens, which stands below a node
/// of kind `up`: the names of what is declared, other than the patterns that
/// variables are taken out of values by.
pub open spec fn kept(up: Seq<char>, n: NodeView) -> Option<Seq<char>> {
    if n.kind == "identifier"@ || (n.field == Some("name"@) && (up == "function_declaration"@ || up
        == "class_declaration"@ || up == "method_definition"@ || (up == "variable_declarator"@
        && n.kind != "object_pattern"@ && n.kind != "array_pattern"@))) {
        n.text
    } else {
        None
    }
}

/// Is the whole text of `n` kept?
pub open spec fn spelled(up: Seq<char>, n: NodeView) -> bool {
    n.children.len() == 0 || kept(up, n) == n.text
}

/// Is what `n` calls its only child by that field, and told from the other
/// children by its position in the file?
pub open spec fn callee_told(n: NodeView) -> bool {
    let p = syntax::field_position(n.children, "function"@);
    forall|i: int|
        0 <= i < n.children.len() && i != p ==> (#[trigger] n.children[i]).id != n.children[p].id
            && n.children[i].field != Some("function"@)
}

/// What is taken for granted of a node: the content of a string is a token,
/// what a call calls is told from its other parts, functions are held by
/// variables with a name, and comments hold no code.
pub open spec fn clear(n: NodeView) -> bool {
    &&& n.kind == "string"@ ==> (syntax::named_child_of(n, 0) matches Some(c) ==> spelled(
        n.kind,
        c,
    ))
    &&& n.kind == "call_expression"@ ==> callee_told(n)
    &&& lang_ts::declares_function(n) ==> (syntax::field_of(n, "name"@) matches Some(name)
        ==> spelled(n.kind, name))
    &&& syntax::is_comment(n) ==> n.children.len() == 0
}

/// Is this a TypeScript file with what is taken for granted of its nodes?
pub open spec fn is_clear_file(root: NodeView) -> bool {
    root.kind != "call_expression"@ && bare::all_tidy(root.children, |n: NodeView| clear(n))
}

/// Do the two files differ in comments and formatting alone?
pub open spec fn same_code(a: NodeView, b: NodeView) -> bool {
    let k = |up: Seq<char>, n: NodeView| kept(up, n);
    a.kind == b.kind && bare::bares(a.children, a.kind, k) == bare::bares(b.children, b.kind, k)
}

spec fn k() -> spec_fn(Seq<char>, NodeView) -> Option<Seq<char>> {
    |up: Seq<char>, n: NodeView| kept(up, n)
}

spec fn c() -> spec_fn(NodeView) -> bool {
    |n: NodeView| clear(n)
}

proof fn lemma_kinds()
    ensures
        !text::occurs_in("export_statement"@, "comment"@),
        !text::occurs_in("import_statement"@, "comment"@),
        !text::occurs_in("function_declaration"@, "comment"@),
        !text::occurs_in("class_declaration"@, "comment"@),
        !text::occurs_in("lexical_declaration"@, "comment"@),
        !text::occurs_in("variable_declaration"@, "comment"@),
        !text::occurs_in("variable_declarator"@, "comment"@),
        !text::occurs_in("method_definition"@, "comment"@),
        !text::occurs_in("call_expression"@, "comment"@),
        text::occurs_in("comment"@, "comment"@),
{
    reveal_strlit("export_statement");
    reveal_strlit("import_statement");
    reveal_strlit("function_declaration");
    reveal_strlit("class_declaration");
    reveal_strlit("lexical_declaration");
    reveal_strlit("variable_declaration");
    reveal_strlit("variable_declarator");
    reveal_strlit("method_definition");
    reveal_strlit("call_expression");
    bare::lemma_kind_is_no_comment("export_statement"@);
    bare::lemma_kind_is_no_comment("import_statement"@);
    bare::lemma_kind_is_no_comment("function_declaration"@);
    bare::lemma_kind_is_no_comment("class_declaration"@);
    bare::lemma_kind_is_no_comment("lexical_declaration"@);
    bare::lemma_kind_is_no_comment("variable_declaration"@);
    bare::lemma_kind_is_no_comment("variable_declarator"@);
    bare::lemma_kind_is_no_comment("method_definition"@);
    bare::lemma_kind_is_no_comment("call_expression"@);
    bare::lemma_blank();
}

proof fn lemma_declares_function(n: NodeView, up: Seq<char>)
    requires
        bare::tidy(n, c()),
    ensures
        lang_ts::declares_function(bare::bare(n, up, k())) == lang_ts::declares_function(n),
{
    bare::lemma_field(bare::bare(n, up, k()), n, c(), k(), "value"@);
    bare::lemma_field(bare::bare(n, up, k()), n, c(), k(), "name"@);
}

proof fn lemma_declarators(ns: Seq<NodeView>, decl: NodeView, top: Seq<char>, d: DraftView, e: DraftView)
    requires
        bare::all_tidy(ns, c()),
        bare::all_tidy(decl.children, c()),
        bare::essence(d) == bare::essence(e),
    ensures
        bare::essence(
            lang_ts::with_declarators(bare::bares(ns, decl.kind, k()), bare::bare(decl, top, k()), e),
        ) == bare::essence(lang_ts::with_declarators(ns, decl, d)),
    decreases ns.len(),
{
    if ns.len() > 0 {
        let init = ns.drop_last();
        let n = ns.last();
        let b = bare::bare(decl, top, k());
        lemma_declarators(init, decl, top, d, e);
        lemma_kinds();
        if !syntax::is_comment(n) {
            assert(bare::bares(ns, decl.kind, k()).drop_last() =~= bare::bares(init, decl.kind, k()));
            assert(bare::bares(ns, decl.kind, k()).last() == bare::bare(n, decl.kind, k()));
            bare::lemma_tidy_at(ns, c(), ns.len() - 1);
            lemma_declares_function(n, decl.kind);
            if lang_ts::declares_function(n) {
                assert(c()(n));
                bare::lemma_field(bare::bare(n, decl.kind, k()), n, c(), k(), "value"@);
                bare::lemma_field(bare::bare(n, decl.kind, k()), n, c(), k(), "name"@);
                let name = syntax::text_of(syntax::field_of(n, "name"@).unwrap());
                bare::lemma_def_of(decl, top, c(), k(), name, DefKind::Function, None, None, false);
                bare::lemma_with_def(
                    lang_ts::with_declarators(init, decl, d),
                    lang_ts::with_declarators(bare::bares(init, decl.kind, k()), b, e),
                    draft::def_of(decl, name, DefKind::Function, None, None, false),
                    draft::def_of(b, name, DefKind::Function, None, None, false),
                );
            }
        }
    }
}

proof fn lemma_blank_declarators(decl: NodeView, e: DraftView)
    ensures
        lang_ts::with_declarators(seq![bare::blank()], decl, e) == e,
{
    lemma_kinds();
    reveal_with_fuel(lang_ts::with_declarators, 2);
    assert(seq![bare::blank()].drop_last() =~= Seq::empty());
}

proof fn lemma_methods(ns: Seq<NodeView>, up: Seq<char>, class: usize, d: DraftView, e: DraftView)
    requires
        bare::all_tidy(ns, c()),
        bare::essence(d) == bare::essence(e),
    ensures
        bare::essence(lang_ts::with_methods(bare::bares(ns, up, k()), class, e)) == bare::essence(
            lang_ts::with_methods(ns, class, d),
        ),
    decreases ns.len(),
{
    if ns.len() > 0 {
        let init = ns.drop_last();
        let n = ns.last();
        let b = bare::bare(n, up, k());
        lemma_methods(init, up, class, d, e);
        lemma_kinds();
        if !syntax::is_comment(n) {
            assert(bare::bares(ns, up, k()).drop_last() =~= bare::bares(init, up, k()));
            assert(bare::bares(ns, up, k()).last() == b);
            bare::lemma_tidy_at(ns, c(), ns.len() - 1);
            bare::lemma_field(b, n, c(), k(), "name"@);
            if let Some(name_node) = syntax::field_of(n, "name"@) {
                if n.kind == "method_definition"@ {
                    assert(c()(n));
                    let name = syntax::text_of(name_node);
                    bare::lemma_def_of(
                        n,
                        up,
                        c(),
                        k(),
                        name,
                        DefKind::Method,
                        Some(class),
                        None,
                        false,
                    );
                    bare::lemma_with_def(
                        lang_ts::with_methods(init, class, d),
                        lang_ts::with_methods(bare::bares(init, up, k()), class, e),
                        draft::def_of(n, name, DefKind::Method, Some(class), None, false),
                        draft::def_of(b, name, DefKind::Method, Some(class), None, false),
                    );
                }
            }
        }
    }
}

proof fn lemma_blank_methods(class: usize, e: DraftView)
    ensures
        lang_ts::with_methods(seq![bare::blank()], class, e) == e,
{
    lemma_kinds();
    bare::lemma_blank_field("name"@);
    reveal_with_fuel(lang_ts::with_methods, 2);
    assert(seq![bare::blank()].drop_last() =~= Seq::empty());
}

proof fn lemma_top_level(n: NodeView, up: Seq<char>, d: DraftView, e: DraftView)
    requires
        bare::tidy(n, c()),
        bare::essence(d) == bare::essence(e),
    ensures
        bare::essence(lang_ts::with_top_level(bare::bare(n, up, k()), e)) == bare::essence(
            lang_ts::with_top_level(n, d),
        ),
    decreases n,
{
    let b = bare::bare(n, up, k());
    assert(c()(n));
    bare::lemma_field(b, n, c(), k(), "declaration"@);
    bare::lemma_field(b, n, c(), k(), "name"@);
    bare::lemma_field(b, n, c(), k(), "body"@);
    if n.kind == "export_statement"@ {
        syntax::lemma_field_below(n, "declaration"@);
        if let Some(decl) = syntax::field_of(n, "declaration"@) {
            lemma_top_level(decl, n.kind, d, e);
        }
    } else if n.kind == "function_declaration"@ {
        if let Some(name_node) = syntax::field_of(n, "name"@) {
            let name = syntax::text_of(name_node);
            bare::lemma_def_of(n, up, c(), k(), name, DefKind::Function, None, None, false);
            bare::lemma_with_def(
                d,
                e,
                draft::def_of(n, name, DefKind::Function, None, None, false),
                draft::def_of(b, name, DefKind::Function, None, None, false),
            );
        }
    } else if lang_ts::declares_variables(n.kind) {
        lemma_declarators(n.children, n, up, d, e);
        lemma_blank_declarators(b, e);
    } else if n.kind == "class_declaration"@ {
        if let Some(name_node) = syntax::field_of(n, "name"@) {
            let name = syntax::text_of(name_node);
            let x = draft::def_of(n, name, DefKind::Class, None, None, false);
            let y = draft::def_of(b, name, DefKind::Class, None, None, false);
            bare::lemma_def_of(n, up, c(), k(), name, DefKind::Class, None, None, false);
            bare::lemma_with_def(d, e, x, y);
            let own = d.with_def(x).named(name_node.id);
            let bare_own = e.with_def(y).named(bare::bare(name_node, n.kind, k()).id);
            if let Some(body) = syntax::field_of(n, "body"@) {
                lemma_methods(body.children, body.kind, own.last(), own, bare_own);
                lemma_blank_methods(own.last(), bare_own);
            }
        }
    }
}

proof fn lemma_top_levels(ns: Seq<NodeView>, up: Seq<char>, d: DraftView, e: DraftView)
    requires
        bare::all_tidy(ns, c()),
        bare::essence(d) == bare::essence(e),
    ensures
        bare::essence(lang_ts::with_top_levels(bare::bares(ns, up, k()), e)) == bare::essence(
            lang_ts::with_top_levels(ns, d),
        ),
    decreases ns.len(),
{
    if ns.len() > 0 {
        let init = ns.drop_last();
        let n = ns.last();
        lemma_top_levels(init, up, d, e);
        lemma_kinds();
        if syntax::is_comment(n) {
            assert(lang_ts::with_top_level(n, lang_ts::with_top_levels(init, d))
                == lang_ts::with_top_levels(init, d));
        } else {
            assert(bare::bares(ns, up, k()).drop_last() =~= bare::bares(init, up, k()));
            assert(bare::bares(ns, up, k()).last() == bare::bare(n, up, k()));
            lemma_top_level(
                n,
                up,
                lang_ts::with_top_levels(init, d),
                lang_ts::with_top_levels(bare::bares(init, up, k()), e),
            );
        }
    }
}

proof fn lemma_only_functions(n: NodeView, up: Seq<char>)
    requires
        bare::tidy(n, c()),
    ensures
        lang_ts::only_functions(bare::bare(n, up, k())) == lang_ts::only_functions(n),
{
    lemma_kinds();
    bare::lemma_of_kind(n.children, n.kind, c(), k(), "variable_declarator"@);
    bare::lemma_blank_kind("variable_declarator"@);
    let b = bare::bare(n, up, k());
    let ds = syntax::of_kind(n.children, "variable_declarator"@);
    let es = syntax::of_kind(b.children, "variable_declarator"@);
    assert(ds.len() == es.len());
    assert forall|i: int| 0 <= i < ds.len() implies lang_ts::declares_function(#[trigger] ds[i])
        == lang_ts::declares_function(es[i]) by {
        assert(es[i] == bare::bare(ds[i], n.kind, k()));
        lemma_declares_function(ds[i], n.kind);
    }
    if lang_ts::only_functions(n) {
        assert forall|i: int| 0 <= i < es.len() implies lang_ts::declares_function(
            #[trigger] es[i],
        ) by {
            assert(lang_ts::declares_function(ds[i]));
        }
    }
    if lang_ts::only_functions(b) {
        assert forall|i: int| 0 <= i < ds.len() implies lang_ts::declares_function(
            #[trigger] ds[i],
        ) by {
            assert(lang_ts::declares_function(es[i]));
        }
    }
}

proof fn lemma_stands_alone(n: NodeView, up: Seq<char>)
    requires
        bare::tidy(n, c()),
    ensures
        lang_ts::stands_alone(bare::bare(n, up, k())) == lang_ts::stands_alone(n),
    decreases n,
{
    bare::lemma_field(bare::bare(n, up, k()), n, c(), k(), "declaration"@);
    syntax::lemma_field_below(n, "declaration"@);
    if n.kind == "export_statement"@ {
        if let Some(decl) = syntax::field_of(n, "declaration"@) {
            lemma_stands_alone(decl, n.kind);
        }
    } else {
        lemma_only_functions(n, up);
    }
}

proof fn lemma_callee_kind(callee: NodeView, up: Seq<char>)
    requires
        bare::tidy(callee, c()),
    ensures
        lang_ts::callee_kind_of(bare::bare(callee, up, k())) == lang_ts::callee_kind_of(callee),
{
    bare::lemma_field(bare::bare(callee, up, k()), callee, c(), k(), "object"@);
}

proof fn lemma_test_call(m: NodeView, n: NodeView)
    requires
        bare::all_tidy(n.children, c()),
        bare::mirrors(m, n, k()),
    ensures
        match (lang_ts::test_call_of(m), lang_ts::test_call_of(n)) {
            (Some(x), Some(y)) => x.kind == y.kind && (x.inner is Some) == (y.inner is Some) && (
            x.inner is Some ==> x.inner == Some(1usize) && y.inner == Some(
                syntax::field_of(n, "function"@).unwrap().id,
            ) && syntax::field_of(n, "function"@) is Some),
            (None, None) => true,
            _ => false,
        },
{
    bare::lemma_field(m, n, c(), k(), "function"@);
    if let Some(f) = syntax::field_of(n, "function"@) {
        lemma_callee_kind(f, n.kind);
        bare::lemma_field(bare::bare(f, n.kind, k()), f, c(), k(), "function"@);
        if let Some(g) = syntax::field_of(f, "function"@) {
            lemma_callee_kind(g, f.kind);
        }
    }
}

proof fn lemma_segment(n: NodeView, up: Seq<char>, x: lang_ts::TestCall, y: lang_ts::TestCall)
    requires
        bare::tidy(n, c()),
        n.kind == "call_expression"@,
        lang_ts::test_call_of(n) is Some,
        (x.inner is Some) == (y.inner is Some),
    ensures
        lang_ts::segment_of(bare::bare(n, up, k()), x) == lang_ts::segment_of(n, y),
{
    assert(c()(n));
    bare::lemma_field(bare::bare(n, up, k()), n, c(), k(), "arguments"@);
    if let Some(args) = syntax::field_of(n, "arguments"@) {
        bare::lemma_named_child(bare::bare(args, n.kind, k()), args, c(), k(), 0);
        if let Some(first) = syntax::named_child_of(args, 0) {
            if first.kind == "string"@ {
                assert(c()(first));
                bare::lemma_named_child(bare::bare(first, args.kind, k()), first, c(), k(), 0);
            }
        }
    }
}

/// The child that is skipped has the mark of what a call calls.
spec fn skips_callee(ns: Seq<NodeView>, skip: Option<usize>, bare_skip: Option<usize>) -> bool {
    match skip {
        None => bare_skip is None,
        Some(id) => bare_skip == Some(1usize) && forall|i: int|
            0 <= i < ns.len() ==> ((#[trigger] ns[i]).id == id <==> ns[i].field == Some(
                "function"@,
            )),
    }
}

proof fn lemma_tests(n: NodeView, up: Seq<char>, d: DraftView, e: DraftView, groups: Seq<(Seq<char>, bool)>)
    requires
        bare::tidy(n, c()),
        bare::essence(d) == bare::essence(e),
    ensures
        bare::essence(lang_ts::with_tests(bare::bare(n, up, k()), e, groups)) == bare::essence(
            lang_ts::with_tests(n, d, groups),
        ),
    decreases n,
{
    let b = bare::bare(n, up, k());
    lemma_test_call(b, n);
    let call = lang_ts::test_call_of(n);
    if n.kind == "call_expression"@ && call is Some {
        let y = call.unwrap();
        let x = lang_ts::test_call_of(b).unwrap();
        assert(c()(n));
        lemma_segment(n, up, x, y);
        let segment = lang_ts::segment_of(n, y);
        if y.inner is Some {
            let p = syntax::field_position(n.children, "function"@);
            syntax::lemma_field_position(n.children, "function"@);
            assert(callee_told(n));
            assert forall|i: int| 0 <= i < n.children.len() implies ((
            #[trigger] n.children[i]).id == n.children[p].id <==> n.children[i].field == Some(
                "function"@,
            )) by {
                if i != p {
                    assert(n.children[i].id != n.children[p].id);
                }
            }
        }
        assert(skips_callee(n.children, y.inner, x.inner));
        if y.kind == TestCallKind::Describe {
            lemma_tests_in(n.children, n.kind, d, e, groups.push(segment), y.inner, x.inner);
            lemma_blank_tests(e, groups.push(segment), x.inner);
        } else {
            let segments = groups.push(segment);
            let dx = lang_ts::test_def(n, segments);
            let dy = lang_ts::test_def(b, segments);
            bare::lemma_def_of(
                n,
                up,
                c(),
                k(),
                segments.last().0,
                DefKind::TestCase,
                None,
                Some(lang_ts::literal_prefix(segments)),
                lang_ts::any_computed(segments),
            );
            bare::lemma_with_def(d, e, dx, dy);
            let own = d.with_def(dx).opened(n.id);
            let bare_own = e.with_def(dy).opened(b.id);
            lemma_tests_in(n.children, n.kind, own, bare_own, groups, y.inner, x.inner);
            lemma_blank_tests(bare_own, groups, x.inner);
        }
    } else {
        lemma_tests_in(n.children, n.kind, d, e, groups, None, None);
        lemma_blank_tests(e, groups, None);
    }
}

proof fn lemma_blank_tests(e: DraftView, groups: Seq<(Seq<char>, bool)>, skip: Option<usize>)
    ensures
        lang_ts::with_tests_in(seq![bare::blank()], e, groups, skip) == e,
{
    lemma_kinds();
    bare::lemma_blank_field("function"@);
    reveal_with_fuel(lang_ts::with_tests_in, 3);
    reveal_with_fuel(lang_ts::with_tests, 3);
    assert(seq![bare::blank()].drop_last() =~= Seq::empty());
}

proof fn lemma_tests_in(
    ns: Seq<NodeView>,
    up: Seq<char>,
    d: DraftView,
    e: DraftView,
    groups: Seq<(Seq<char>, bool)>,
    skip: Option<usize>,
    bare_skip: Option<usize>,
)
    requires
        bare::all_tidy(ns, c()),
        bare::essence(d) == bare::essence(e),
        skips_callee(ns, skip, bare_skip),
    ensures
        bare::essence(
            lang_ts::with_tests_in(bare::bares(ns, up, k()), e, groups, bare_skip),
        ) == bare::essence(lang_ts::with_tests_in(ns, d, groups, skip)),
    decreases ns,
{
    if ns.len() > 0 {
        let init = ns.drop_last();
        let n = ns.last();
        assert forall|i: int| 0 <= i < init.len() implies #[trigger] init[i] == ns[i] by {}
        assert(skips_callee(init, skip, bare_skip));
        lemma_tests_in(init, up, d, e, groups, skip, bare_skip);
        let x = lang_ts::with_tests_in(init, d, groups, skip);
        let y = lang_ts::with_tests_in(bare::bares(init, up, k()), e, groups, bare_skip);
        lemma_kinds();
        assert(ns[ns.len() - 1] == n);
        if syntax::is_comment(n) {
            bare::lemma_tidy_at(ns, c(), ns.len() - 1);
            assert(c()(n));
            reveal_with_fuel(lang_ts::with_tests_in, 2);
            assert(lang_ts::with_tests(n, x, groups) == x);
        } else {
            assert(bare::bares(ns, up, k()).drop_last() =~= bare::bares(init, up, k()));
            assert(bare::bares(ns, up, k()).last() == bare::bare(n, up, k()));
            assert((Some(n.id) == skip) == (Some(bare::bare(n, up, k()).id) == bare_skip));
            lemma_tests(n, up, x, y, groups);
        }
    }
}

proof fn lemma_module(root: NodeView)
    requires
        is_clear_file(root),
    ensures
        ({
            let b = bare::bare_file(root, k());
            bare::timeless(draft::module_def(b, lang_ts::standing_alone(b.children)))
                == bare::timeless(draft::module_def(root, lang_ts::standing_alone(root.children)))
        }),
{
    let ns = root.children;
    let bs = bare::bares(ns, root.kind, k());
    let alone = |n: NodeView| lang_ts::stands_alone(n);
    assert forall|i: int| 0 <= i < ns.len() && !syntax::is_comment(#[trigger] ns[i]) implies alone(
        bare::bare(ns[i], root.kind, k()),
    ) == alone(ns[i]) by {
        bare::lemma_tidy_at(ns, c(), i);
        lemma_stands_alone(ns[i], root.kind);
    }
    bare::lemma_loose(ns, root.kind, lang_ts::standing_alone(ns), lang_ts::standing_alone(bs), k(), alone);
}

/// The definitions of a file are those of the file without comments and
/// formatting, but for their lines.
proof fn lemma_file(root: NodeView)
    requires
        is_clear_file(root),
    ensures
        bare::essence(lang_ts::drafted(bare::bare_file(root, k()))) == bare::essence(
            lang_ts::drafted(root),
        ),
{
    let b = bare::bare_file(root, k());
    lemma_module(root);
    let none = DraftView::empty();
    let x = draft::module_def(root, lang_ts::standing_alone(root.children));
    let y = draft::module_def(b, lang_ts::standing_alone(b.children));
    bare::lemma_with_def(none, none, x, y);
    lemma_top_levels(root.children, root.kind, none.with_def(x), none.with_def(y));
    let top = lang_ts::with_top_levels(root.children, none.with_def(x));
    let bare_top = lang_ts::with_top_levels(b.children, none.with_def(y));
    lemma_test_call(b, root);
    lemma_tests_in(root.children, root.kind, top, bare_top, Seq::empty(), None, None);
}

/// An edit of comments and formatting alone changes no definition of a
/// TypeScript file.
pub proof fn law_reformatting_changes_nothing(a: NodeView, b: NodeView)
    requires
        is_clear_file(a),
        is_clear_file(b),
        same_code(a, b),
        lang_ts::extracted(a).defs.len() <= usize::MAX,
    ensures
        diffdef::diff(lang_ts::extracted(a).defs, lang_ts::extracted(b).defs) == Seq::<
            diffdef::ChangeView,
        >::empty(),
{
    lemma_file(a);
    lemma_file(b);
    bare::lemma_same_essence(lang_ts::drafted(a), lang_ts::drafted(b));
}

} // verus!
