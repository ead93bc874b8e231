//! Comments and formatting in Go: an edit of those alone changes no
//! definition.
use vstd::prelude::*;

use crate::bare;
use crate::diffdef;
use crate::draft;
use crate::draft::DraftView;
use crate::graph::DefKind;
use crate::lang_go;
use crate::lang_go::Enclosing;
use crate::syntax;
use crate::syntax::NodeView;
use crate::text;

verus! {

/// Is this the kind of a type that has a name?
pub open spec fn names_type(kind: Seq<char>) -> bool {
    kind == "type_identifier"@ || kind == "qualified_type"@ || kind == "generic_type"@
}

/// What is read of the text of a node above tokens, which stands below a node
/// of kind `up`: names in full, and of other types of parameters whether they
/// are of package `testing`.
pub open spec fn kept(up: Seq<char>, n: NodeView) -> Option<Seq<char>> {
    if n.field == Some("name"@) || n.field == Some("field"@) || n.field == Some("package"@)
        || n.kind == "identifier"@ || (names_type(n.kind) && (up == "pointer_type"@ || up
        == "parameter_declaration"@)) {
        n.text
    } else if up == "parameter_declaration"@ && n.field == Some("type"@) && n.text is Some
        && text::occurs_in(n.text.unwrap(), "testing."@) {
        Some("testing."@)
    } else {
        None
    }
}

/// Is the whole text of `n` kept?
pub open spec fn spelled(up: Seq<char>, n: NodeView) -> bool {
    n.children.len() == 0 || kept(up, n) == n.text
}

/// Is the type that a method's receiver is read by a named one?
pub open spec fn receiver_spelled(n: NodeView) -> bool {
    match syntax::field_of(n, "receiver"@) {
        Some(receiver) => match syntax::first_of(
            receiver.children,
            "parameter_declaration"@,
            "parameter_declaration"@,
        ) {
            Some(param) => match syntax::field_of(param, "type"@) {
                Some(ty) => if ty.kind == "pointer_type"@ {
                    syntax::named_child_of(ty, 0) matches Some(c) ==> spelled(ty.kind, c)
                } else {
                    spelled(param.kind, ty)
                },
                None => true,
            },
            None => true,
        },
        None => true,
    }
}

/// What is taken for granted of a node: the content of a string is a token,
/// receivers are of named types, and comments hold no code.
pub open spec fn clear(n: NodeView) -> bool {
    &&& n.kind == "interpreted_string_literal"@ ==> (syntax::named_child_of(n, 0) matches Some(c)
        ==> spelled(n.kind, c))
    &&& n.kind == "method_declaration"@ ==> receiver_spelled(n)
    &&& syntax::is_comment(n) ==> n.children.len() == 0
}

/// Is this a Go file with what is taken for granted of its nodes?
pub open spec fn is_clear_file(root: NodeView) -> bool {
    bare::all_tidy(root.children, |n: NodeView| clear(n))
}

/// Do the two files differ in comments and formatting alone?
pub open spec fn same_code(a: NodeView, b: NodeView) -> bool {
    let k = |up: Seq<char>, n: NodeView| kept(up, n);
    a.kind == b.kind && bare::bares(a.children, a.kind, k) == bare::bares(b.children, b.kind, k)
}

spec fn k() -> spec_fn(Seq<char>, NodeView) -> Option<Seq<char>> {
    |up: Seq<char>, n: NodeView| kept(up, n)
}

spec fn c() -> spec_fn(NodeView) -> bool {
    |n: NodeView| clear(n)
}

proof fn lemma_kinds()
    ensures
        !text::occurs_in("parameter_declaration"@, "comment"@),
        !text::occurs_in("function_declaration"@, "comment"@),
        !text::occurs_in("method_declaration"@, "comment"@),
        !text::occurs_in("call_expression"@, "comment"@),
        !text::occurs_in("import_declaration"@, "comment"@),
        text::occurs_in("comment"@, "comment"@),
        text::occurs_in("testing."@, "testing."@),
{
    reveal_strlit("parameter_declaration");
    reveal_strlit("function_declaration");
    reveal_strlit("method_declaration");
    reveal_strlit("call_expression");
    reveal_strlit("import_declaration");
    bare::lemma_kind_is_no_comment("parameter_declaration"@);
    bare::lemma_kind_is_no_comment("function_declaration"@);
    bare::lemma_kind_is_no_comment("method_declaration"@);
    bare::lemma_kind_is_no_comment("call_expression"@);
    bare::lemma_kind_is_no_comment("import_declaration"@);
    bare::lemma_blank();
    assert("testing."@.subrange(0, "testing."@.len() as int) =~= "testing."@);
    assert(text::stands_at("testing."@, "testing."@, 0));
}

proof fn lemma_testing_pointer(ty: NodeView, up: Seq<char>)
    requires
        bare::tidy(ty, c()),
    ensures
        lang_go::testing_pointer(bare::bare(ty, up, k())) == lang_go::testing_pointer(ty),
{
    let b = bare::bare(ty, up, k());
    if ty.kind == "pointer_type"@ {
        assert(c()(ty));
        bare::lemma_named_child(b, ty, c(), k(), 0);
        if let Some(inner) = syntax::named_child_of(ty, 0) {
            bare::lemma_field(bare::bare(inner, ty.kind, k()), inner, c(), k(), "package"@);
        }
    }
}

proof fn lemma_test_parameters(params: NodeView, up: Seq<char>, prefix: Seq<char>)
    requires
        bare::tidy(params, c()),
    ensures
        lang_go::test_parameters(bare::bare(params, up, k()), prefix) == lang_go::test_parameters(
            params,
            prefix,
        ),
{
    let b = bare::bare(params, up, k());
    lemma_kinds();
    bare::lemma_of_kind(params.children, params.kind, c(), k(), "parameter_declaration"@);
    bare::lemma_blank_kind("parameter_declaration"@);
    let decls = syntax::of_kind(params.children, "parameter_declaration"@);
    if decls.len() == 1 {
        let decl = decls[0];
        assert(syntax::of_kind(b.children, "parameter_declaration"@)[0] == bare::bare(decl, params.kind, k()));
        bare::lemma_field(bare::bare(decl, params.kind, k()), decl, c(), k(), "type"@);
        if let Some(ty) = syntax::field_of(decl, "type"@) {
            lemma_testing_pointer(ty, decl.kind);
        }
    }
}

proof fn lemma_is_test(name: Seq<char>, n: NodeView, up: Seq<char>)
    requires
        bare::tidy(n, c()),
    ensures
        lang_go::is_test(name, bare::bare(n, up, k())) == lang_go::is_test(name, n),
{
    bare::lemma_field(bare::bare(n, up, k()), n, c(), k(), "parameters"@);
    if let Some(params) = syntax::field_of(n, "parameters"@) {
        if let Some(prefix) = lang_go::test_prefix(name) {
            lemma_test_parameters(params, n.kind, prefix);
        }
    }
}

proof fn lemma_testing_name(decl: NodeView, up: Seq<char>)
    requires
        bare::tidy(decl, c()),
    ensures
        lang_go::testing_name(bare::bare(decl, up, k())) == lang_go::testing_name(decl),
{
    let b = bare::bare(decl, up, k());
    lemma_kinds();
    bare::lemma_field(b, decl, c(), k(), "type"@);
    bare::lemma_field(b, decl, c(), k(), "name"@);
}

proof fn lemma_first_testing_name(ns: Seq<NodeView>, up: Seq<char>)
    requires
        bare::all_tidy(ns, c()),
    ensures
        lang_go::first_testing_name(bare::bares(ns, up, k())) == lang_go::first_testing_name(ns),
    decreases ns.len(),
{
    if ns.len() > 0 {
        lemma_first_testing_name(ns.drop_last(), up);
        if syntax::is_comment(ns.last()) {
            lemma_kinds();
        } else {
            lemma_testing_name(ns.last(), up);
            assert(bare::bares(ns, up, k()).drop_last() =~= bare::bares(ns.drop_last(), up, k()));
        }
    }
}

proof fn lemma_test_handle(f: NodeView, up: Seq<char>)
    requires
        bare::tidy(f, c()),
    ensures
        lang_go::test_handle(bare::bare(f, up, k())) == lang_go::test_handle(f),
{
    bare::lemma_field(bare::bare(f, up, k()), f, c(), k(), "parameters"@);
    if let Some(params) = syntax::field_of(f, "parameters"@) {
        lemma_first_testing_name(params.children, params.kind);
        lemma_blank_handle();
    }
}

proof fn lemma_blank_handle()
    ensures
        lang_go::first_testing_name(seq![bare::blank()]) is None,
{
    lemma_kinds();
    reveal_with_fuel(lang_go::first_testing_name, 2);
    assert(seq![bare::blank()].drop_last() =~= Seq::empty());
}

proof fn lemma_is_run_call(n: NodeView, up: Seq<char>, handle: Seq<char>)
    requires
        bare::tidy(n, c()),
    ensures
        lang_go::is_run_call(bare::bare(n, up, k()), handle) == lang_go::is_run_call(n, handle),
{
    bare::lemma_field(bare::bare(n, up, k()), n, c(), k(), "function"@);
    if let Some(f) = syntax::field_of(n, "function"@) {
        bare::lemma_field(bare::bare(f, n.kind, k()), f, c(), k(), "field"@);
        bare::lemma_field(bare::bare(f, n.kind, k()), f, c(), k(), "operand"@);
    }
}

/// The kind of what holds the arguments of a call.
spec fn args_kind(call: NodeView) -> Seq<char> {
    match syntax::field_of(call, "arguments"@) {
        Some(args) => args.kind,
        None => Seq::empty(),
    }
}

proof fn lemma_arguments(call: NodeView, up: Seq<char>, i: int)
    requires
        bare::tidy(call, c()),
        0 <= i <= 1,
    ensures
        lang_go::argument_of(bare::bare(call, up, k()), i) == bare::bare_opt(
            lang_go::argument_of(call, i),
            args_kind(call),
            k(),
        ),
        lang_go::argument_of(call, i) matches Some(a) ==> bare::tidy(a, c())
            && !syntax::is_comment(a),
{
    assert(c()(call));
    bare::lemma_field(bare::bare(call, up, k()), call, c(), k(), "arguments"@);
    if let Some(args) = syntax::field_of(call, "arguments"@) {
        bare::lemma_named_child(bare::bare(args, call.kind, k()), args, c(), k(), i);
    }
}

proof fn lemma_literal_name(call: NodeView, up: Seq<char>)
    requires
        bare::tidy(call, c()),
    ensures
        lang_go::literal_name(bare::bare(call, up, k())) == lang_go::literal_name(call),
{
    lemma_arguments(call, up, 0);
    if let Some(arg) = lang_go::argument_of(call, 0) {
        if arg.kind == "interpreted_string_literal"@ {
            assert(c()(arg));
            bare::lemma_named_child(bare::bare(arg, args_kind(call), k()), arg, c(), k(), 0);
        }
    }
}

proof fn lemma_subtests(
    n: NodeView,
    up: Seq<char>,
    d: DraftView,
    e: DraftView,
    outer: Enclosing,
    used: bool,
    handle: Seq<char>,
)
    requires
        bare::tidy(n, c()),
        bare::essence(d) == bare::essence(e),
    ensures
        bare::essence(lang_go::with_subtests(bare::bare(n, up, k()), e, outer, used, handle).0)
            == bare::essence(lang_go::with_subtests(n, d, outer, used, handle).0),
        lang_go::with_subtests(bare::bare(n, up, k()), e, outer, used, handle).1
            == lang_go::with_subtests(n, d, outer, used, handle).1,
    decreases n, 1nat,
{
    lemma_is_run_call(n, up, handle);
    if lang_go::is_run_call(n, handle) {
        lemma_run_call(n, up, d, e, outer, used);
    } else {
        lemma_subtests_of(n.children, n.kind, d, e, outer, used, handle);
        lemma_blank_subtests(e, outer, used, handle);
    }
}

proof fn lemma_blank_subtests(e: DraftView, outer: Enclosing, used: bool, handle: Seq<char>)
    ensures
        lang_go::with_subtests_of(seq![bare::blank()], e, outer, used, handle) == (e, used),
{
    lemma_kinds();
    reveal_with_fuel(lang_go::with_subtests_of, 3);
    reveal_with_fuel(lang_go::with_subtests, 3);
    assert(seq![bare::blank()].drop_last() =~= Seq::empty());
}

proof fn lemma_subtests_of(
    ns: Seq<NodeView>,
    up: Seq<char>,
    d: DraftView,
    e: DraftView,
    outer: Enclosing,
    used: bool,
    handle: Seq<char>,
)
    requires
        bare::all_tidy(ns, c()),
        bare::essence(d) == bare::essence(e),
    ensures
        bare::essence(
            lang_go::with_subtests_of(bare::bares(ns, up, k()), e, outer, used, handle).0,
        ) == bare::essence(lang_go::with_subtests_of(ns, d, outer, used, handle).0),
        lang_go::with_subtests_of(bare::bares(ns, up, k()), e, outer, used, handle).1
            == lang_go::with_subtests_of(ns, d, outer, used, handle).1,
    decreases ns, 0nat,
{
    if ns.len() > 0 {
        let init = ns.drop_last();
        lemma_subtests_of(init, up, d, e, outer, used, handle);
        let x = lang_go::with_subtests_of(init, d, outer, used, handle);
        let y = lang_go::with_subtests_of(bare::bares(init, up, k()), e, outer, used, handle);
        if syntax::is_comment(ns.last()) {
            lemma_kinds();
            assert(c()(ns.last()));
            reveal_with_fuel(lang_go::with_subtests_of, 2);
            assert(lang_go::with_subtests(ns.last(), x.0, outer, x.1, handle) == x);
        } else {
            lemma_subtests(ns.last(), up, x.0, y.0, outer, x.1, handle);
            assert(bare::bares(ns, up, k()).drop_last() =~= bare::bares(init, up, k()));
        }
    }
}

proof fn lemma_run_call(call: NodeView, up: Seq<char>, d: DraftView, e: DraftView, outer: Enclosing, used: bool)
    requires
        bare::tidy(call, c()),
        bare::essence(d) == bare::essence(e),
    ensures
        bare::essence(lang_go::with_run_call(bare::bare(call, up, k()), e, outer, used).0)
            == bare::essence(lang_go::with_run_call(call, d, outer, used).0),
        lang_go::with_run_call(bare::bare(call, up, k()), e, outer, used).1 == lang_go::with_run_call(
            call,
            d,
            outer,
            used,
        ).1,
    decreases call, 0nat,
{
    let b = bare::bare(call, up, k());
    lemma_literal_name(call, up);
    let computed = lang_go::literal_name(call) is None;
    if !(computed && used) {
        let segment = match lang_go::literal_name(call) {
            Some(name) => name,
            None => "<computed>"@,
        };
        let chain = outer.chain.push(segment);
        let x = draft::def_of(
            call,
            segment,
            DefKind::TestCase,
            Some(outer.at),
            Some(chain),
            computed,
        );
        let y = draft::def_of(
            b,
            segment,
            DefKind::TestCase,
            Some(outer.at),
            Some(chain),
            computed,
        );
        bare::lemma_def_of(
            call,
            up,
            c(),
            k(),
            segment,
            DefKind::TestCase,
            Some(outer.at),
            Some(chain),
            computed,
        );
        let own = d.tested(call.id).with_def(x);
        let bare_own = e.tested(b.id).with_def(y);
        bare::lemma_with_def(d.tested(call.id), e.tested(b.id), x, y);
        lemma_arguments(call, up, 1);
        if let Some(callback) = lang_go::argument_of(call, 1) {
            lang_go::lemma_argument_below(call, 1);
            lemma_test_handle(callback, args_kind(call));
            lemma_subtests(
                callback,
                args_kind(call),
                own.opened(callback.id),
                bare_own.opened(bare::bare(callback, args_kind(call), k()).id),
                Enclosing { at: own.last(), chain },
                false,
                lang_go::test_handle(callback),
            );
        }
    }
}

proof fn lemma_function(n: NodeView, up: Seq<char>, d: DraftView, e: DraftView)
    requires
        bare::tidy(n, c()),
        bare::essence(d) == bare::essence(e),
    ensures
        bare::essence(lang_go::with_function(bare::bare(n, up, k()), e)) == bare::essence(
            lang_go::with_function(n, d),
        ),
{
    let b = bare::bare(n, up, k());
    bare::lemma_field(b, n, c(), k(), "name"@);
    if let Some(name_node) = syntax::field_of(n, "name"@) {
        if let Some(name) = name_node.text {
            lemma_is_test(name, n, up);
            lemma_test_handle(n, up);
            let test = lang_go::is_test(name, n);
            let kind = if test {
                DefKind::TestCase
            } else {
                DefKind::Function
            };
            let chain = if test {
                Some(seq![name])
            } else {
                None
            };
            let x = draft::def_of(n, name, kind, None, chain, false);
            let y = draft::def_of(b, name, kind, None, chain, false);
            bare::lemma_def_of(n, up, c(), k(), name, kind, None, chain, false);
            bare::lemma_with_def(d, e, x, y);
            if test && name != "init"@ {
                let own = d.with_def(x).opened(n.id).named(name_node.id);
                let bare_own = e.with_def(y).opened(b.id).named(bare::bare(name_node, n.kind, k()).id);
                lemma_subtests(
                    n,
                    up,
                    own,
                    bare_own,
                    Enclosing { at: own.last(), chain: seq![name] },
                    false,
                    lang_go::test_handle(n),
                );
            }
        }
    }
}

proof fn lemma_receiver(n: NodeView, up: Seq<char>)
    requires
        bare::tidy(n, c()),
        n.kind == "method_declaration"@,
    ensures
        lang_go::receiver_type(bare::bare(n, up, k())) == lang_go::receiver_type(n),
{
    lemma_kinds();
    assert(c()(n));
    bare::lemma_field(bare::bare(n, up, k()), n, c(), k(), "receiver"@);
    if let Some(receiver) = syntax::field_of(n, "receiver"@) {
        bare::lemma_first_of(
            receiver.children,
            receiver.kind,
            c(),
            k(),
            "parameter_declaration"@,
            "parameter_declaration"@,
        );
        bare::lemma_blank_kind("parameter_declaration"@);
        if let Some(param) = syntax::first_of(
            receiver.children,
            "parameter_declaration"@,
            "parameter_declaration"@,
        ) {
            bare::lemma_field(bare::bare(param, receiver.kind, k()), param, c(), k(), "type"@);
            if let Some(ty) = syntax::field_of(param, "type"@) {
                if ty.kind == "pointer_type"@ {
                    assert(c()(ty));
                    bare::lemma_named_child(bare::bare(ty, param.kind, k()), ty, c(), k(), 0);
                }
            }
        }
    }
}

proof fn lemma_method(n: NodeView, up: Seq<char>, d: DraftView, e: DraftView)
    requires
        bare::tidy(n, c()),
        n.kind == "method_declaration"@,
        bare::essence(d) == bare::essence(e),
    ensures
        bare::essence(lang_go::with_method(bare::bare(n, up, k()), e)) == bare::essence(
            lang_go::with_method(n, d),
        ),
{
    let b = bare::bare(n, up, k());
    bare::lemma_field(b, n, c(), k(), "name"@);
    lemma_receiver(n, up);
    if let Some(name_node) = syntax::field_of(n, "name"@) {
        if let (Some(name), Some(ty)) = (name_node.text, lang_go::receiver_type(n)) {
            let full = ty + "."@ + name;
            bare::lemma_def_of(n, up, c(), k(), full, DefKind::Method, None, None, false);
            bare::lemma_with_def(
                d,
                e,
                draft::def_of(n, full, DefKind::Method, None, None, false),
                draft::def_of(b, full, DefKind::Method, None, None, false),
            );
        }
    }
}

proof fn lemma_declarations(ns: Seq<NodeView>, up: Seq<char>, d: DraftView, e: DraftView)
    requires
        bare::all_tidy(ns, c()),
        bare::essence(d) == bare::essence(e),
    ensures
        bare::essence(lang_go::with_declarations(bare::bares(ns, up, k()), e)) == bare::essence(
            lang_go::with_declarations(ns, d),
        ),
    decreases ns.len(),
{
    if ns.len() > 0 {
        let init = ns.drop_last();
        let n = ns.last();
        lemma_declarations(init, up, d, e);
        let x = lang_go::with_declarations(init, d);
        let y = lang_go::with_declarations(bare::bares(init, up, k()), e);
        lemma_kinds();
        if !syntax::is_comment(n) {
            assert(bare::bares(ns, up, k()).drop_last() =~= bare::bares(init, up, k()));
            assert(bare::bares(ns, up, k()).last() == bare::bare(n, up, k()));
            if n.kind == "function_declaration"@ {
                lemma_function(n, up, x, y);
            } else if n.kind == "method_declaration"@ {
                lemma_method(n, up, x, y);
            }
        }
    }
}

proof fn lemma_stands_alone(n: NodeView, up: Seq<char>)
    requires
        bare::tidy(n, c()),
    ensures
        lang_go::stands_alone(bare::bare(n, up, k())) == lang_go::stands_alone(n),
{
    bare::lemma_field(bare::bare(n, up, k()), n, c(), k(), "name"@);
}

proof fn lemma_module(root: NodeView)
    requires
        is_clear_file(root),
    ensures
        ({
            let b = bare::bare_file(root, k());
            bare::timeless(draft::module_def(b, lang_go::standing_alone(b.children)))
                == bare::timeless(draft::module_def(root, lang_go::standing_alone(root.children)))
        }),
{
    let ns = root.children;
    let bs = bare::bares(ns, root.kind, k());
    let alone = |n: NodeView| lang_go::stands_alone(n);
    assert forall|i: int| 0 <= i < ns.len() && !syntax::is_comment(#[trigger] ns[i]) implies alone(
        bare::bare(ns[i], root.kind, k()),
    ) == alone(ns[i]) by {
        bare::lemma_tidy_at(ns, c(), i);
        lemma_stands_alone(ns[i], root.kind);
    }
    bare::lemma_loose(ns, root.kind, lang_go::standing_alone(ns), lang_go::standing_alone(bs), k(), alone);
}

/// The definitions of a file are those of the file without comments and
/// formatting, but for their lines.
proof fn lemma_file(root: NodeView)
    requires
        is_clear_file(root),
    ensures
        bare::essence(lang_go::drafted(bare::bare_file(root, k()))) == bare::essence(
            lang_go::drafted(root),
        ),
{
    let b = bare::bare_file(root, k());
    lemma_module(root);
    let none = DraftView::empty();
    let x = draft::module_def(root, lang_go::standing_alone(root.children));
    let y = draft::module_def(b, lang_go::standing_alone(b.children));
    bare::lemma_with_def(none, none, x, y);
    lemma_declarations(root.children, root.kind, none.with_def(x), none.with_def(y));
}

/// An edit of comments and formatting alone changes no definition of a Go
/// file.
pub proof fn law_reformatting_changes_nothing(a: NodeView, b: NodeView)
    requires
        is_clear_file(a),
        is_clear_file(b),
        same_code(a, b),
        lang_go::extracted(a).defs.len() <= usize::MAX,
    ensures
        diffdef::diff(lang_go::extracted(a).defs, lang_go::extracted(b).defs) == Seq::<
            diffdef::ChangeView,
        >::empty(),
{
    lemma_file(a);
    lemma_file(b);
    bare::lemma_same_essence(lang_go::drafted(a), lang_go::drafted(b));
}

} // verus!
