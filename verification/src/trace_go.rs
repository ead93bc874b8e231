//! What the Go plugin finds, told by the nodes of the tree.
use vstd::prelude::*;

use crate::draft;
use crate::draft::{DraftView, RefsView};
use crate::graph::DefKind;
use crate::lang_go;
use crate::lang_go::Enclosing;
use crate::language::{DefView, ExtractionView, ImportView, RefView};
use crate::syntax;
use crate::syntax::NodeView;
use crate::text;
use crate::trace;

verus! {

/// Does the step from `n` to its child at `i` stay with what is evaluated?
/// From a call it goes to the callee or to the arguments, from `x.y` to `x`;
/// an identifier holds nothing.
pub open spec fn evaluates(n: NodeView, i: int) -> bool {
    &&& n.kind != "identifier"@
    &&& n.kind == "call_expression"@ ==> i == syntax::field_position(n.children, "function"@) || i
        == syntax::field_position(n.children, "arguments"@)
    &&& n.kind == "selector_expression"@ ==> i == syntax::field_position(n.children, "operand"@)
        && syntax::field_of(n, "field"@) is Some
}

/// Does every step of `path` stay with what is evaluated?
pub open spec fn evaluated(n: NodeView, path: Seq<int>) -> bool
    decreases path.len(),
{
    path.len() == 0 || (evaluates(n, path[0]) && evaluated(n.children[path[0]], path.skip(1)))
}

/// What the call `x` calls: a name, and what stands before its dot.
pub open spec fn called_by(x: NodeView) -> Option<(Seq<char>, Option<Seq<char>>)> {
    match syntax::field_of(x, "function"@) {
        Some(f) => if f.kind == "identifier"@ {
            Some((syntax::text_of(f), None))
        } else if f.kind == "selector_expression"@ {
            match (syntax::field_of(f, "operand"@), syntax::field_of(f, "field"@)) {
                (Some(operand), Some(field)) => Some(
                    (syntax::text_of(field), Some(syntax::text_of(operand))),
                ),
                _ => None,
            }
        } else {
            None
        },
        None => None,
    }
}

proof fn lemma_kinds()
    ensures
        "identifier"@ != "call_expression"@,
        "identifier"@ != "selector_expression"@,
        "call_expression"@ != "selector_expression"@,
{
    reveal_strlit("identifier");
    reveal_strlit("call_expression");
    reveal_strlit("selector_expression");
    assert("identifier"@[0] != "call_expression"@[0]);
    assert("identifier"@[0] != "selector_expression"@[0]);
    assert("call_expression"@[0] != "selector_expression"@[0]);
}

proof fn lemma_refs_in(
    ns: Seq<NodeView>,
    d: DraftView,
    known: Set<Seq<char>>,
    current: usize,
    i: int,
    r: RefView,
)
    requires
        0 <= i < ns.len(),
        lang_go::refs_of(ns[i], d, known, current).calls.contains(r),
    ensures
        lang_go::refs_in(ns, d, known, current).calls.contains(r),
    decreases ns.len(),
{
    if i < ns.len() - 1 {
        lemma_refs_in(ns.drop_last(), d, known, current, i, r);
    }
    trace::lemma_call_in_sum(
        lang_go::refs_in(ns.drop_last(), d, known, current),
        lang_go::refs_of(ns.last(), d, known, current),
        r,
    );
}

/// The call at the end of `path` is found, whatever stands around it.
proof fn lemma_call_found(
    n: NodeView,
    d: DraftView,
    known: Set<Seq<char>>,
    current: usize,
    path: Seq<int>,
    name: Seq<char>,
    qualifier: Option<Seq<char>>,
) -> (from: usize)
    requires
        trace::leads(n, path),
        evaluated(n, path),
        trace::node_at(n, path).kind == "call_expression"@,
        called_by(trace::node_at(n, path)) == Some((name, qualifier)),
        qualifier is Some ==> !d.tests.contains(trace::node_at(n, path).id),
    ensures
        lang_go::refs_of(n, d, known, current).calls.contains(
            draft::ref_at(from, name, qualifier, trace::node_at(n, path)),
        ),
        trace::reached_in(d, n, path, current, from),
    decreases path.len(),
{
    lemma_kinds();
    let x = trace::node_at(n, path);
    let def = d.scope_at(n, current);
    let callee = syntax::field_of(n, "function"@);
    let args = syntax::field_of(n, "arguments"@);
    if path.len() == 0 {
        trace::lemma_reached_here(d, n, path, current);
        let r = draft::ref_at(def, name, qualifier, n);
        let own = RefsView::call(r);
        assert(own.calls[0] == r);
        let f = callee.unwrap();
        let first = if f.kind == "identifier"@ {
            own
        } else {
            let operand = syntax::field_of(f, "operand"@).unwrap();
            let more = lang_go::refs_of(operand, d, known, def);
            trace::lemma_call_in_sum(own, more, r);
            if operand.kind != "identifier"@ {
                own.plus(more)
            } else {
                own
            }
        };
        if let Some(a) = args {
            trace::lemma_call_in_sum(first, lang_go::refs_of(a, d, known, def), r);
        }
        def
    } else {
        let c = n.children[path[0]];
        if n.kind == "call_expression"@ && path[0] == syntax::field_position(
            n.children,
            "function"@,
        ) {
            let rest = path.skip(1);
            let (from, first) = if c.kind == "selector_expression"@ {
                assert(x == trace::node_at(c, rest));
                if rest.len() == 0 {
                    assert(trace::node_at(c, rest) == c);
                }
                assert(trace::leads(c, rest) && evaluated(c, rest));
                let operand = c.children[rest[0]];
                assert(evaluates(c, rest[0]));
                assert(syntax::field_of(c, "operand"@) == Some(operand));
                let from = lemma_call_found(
                    operand,
                    d,
                    known,
                    def,
                    rest.skip(1),
                    name,
                    qualifier,
                );
                let r = draft::ref_at(from, name, qualifier, x);
                if from == def && !d.scope.contains_key(operand.id) {
                    trace::lemma_reached_here(d, n, path, current);
                } else {
                    let k = choose|k: int|
                        0 <= k <= rest.skip(1).len() && d.scope.contains_key(
                            (#[trigger] trace::node_at(operand, rest.skip(1).take(k))).id,
                        ) && from == d.scope[trace::node_at(operand, rest.skip(1).take(k)).id];
                    assert(path.take(k + 2).skip(1) =~= rest.take(k + 1));
                    assert(rest.take(k + 1).skip(1) =~= rest.skip(1).take(k));
                    assert(trace::node_at(c, rest.take(k + 1)) == trace::node_at(
                        operand,
                        rest.skip(1).take(k),
                    ));
                    assert(trace::node_at(n, path.take(k + 2)) == trace::node_at(
                        c,
                        rest.take(k + 1),
                    ));
                }
                let more = lang_go::refs_of(operand, d, known, def);
                let field = syntax::field_of(c, "field"@).unwrap();
                let own = if d.tests.contains(n.id) {
                    RefsView::none()
                } else {
                    RefsView::call(
                        draft::ref_at(
                            def,
                            syntax::text_of(field),
                            Some(syntax::text_of(operand)),
                            n,
                        ),
                    )
                };
                assert(operand.kind != "identifier"@);
                trace::lemma_call_in_sum(own, more, r);
                (from, own.plus(more))
            } else {
                let from = lemma_call_found(c, d, known, def, rest, name, qualifier);
                trace::lemma_reached(d, n, path, current, from);
                (from, lang_go::refs_of(c, d, known, def))
            };
            if let Some(a) = args {
                trace::lemma_call_in_sum(
                    first,
                    lang_go::refs_of(a, d, known, def),
                    draft::ref_at(from, name, qualifier, x),
                );
            }
            from
        } else {
            let from = lemma_call_found(c, d, known, def, path.skip(1), name, qualifier);
            trace::lemma_reached(d, n, path, current, from);
            let r = draft::ref_at(from, name, qualifier, x);
            if n.kind == "call_expression"@ {
                let first = match callee {
                    Some(f) => if f.kind == "identifier"@ {
                        RefsView::call(draft::ref_at(def, syntax::text_of(f), None, n))
                    } else if f.kind == "selector_expression"@ {
                        match (syntax::field_of(f, "operand"@), syntax::field_of(f, "field"@)) {
                            (Some(operand), Some(field)) => {
                                let own = if d.tests.contains(n.id) {
                                    RefsView::none()
                                } else {
                                    RefsView::call(
                                        draft::ref_at(
                                            def,
                                            syntax::text_of(field),
                                            Some(syntax::text_of(operand)),
                                            n,
                                        ),
                                    )
                                };
                                if operand.kind != "identifier"@ {
                                    own.plus(lang_go::refs_of(operand, d, known, def))
                                } else {
                                    own
                                }
                            },
                            _ => RefsView::none(),
                        }
                    } else {
                        lang_go::refs_of(f, d, known, def)
                    },
                    None => RefsView::none(),
                };
                trace::lemma_call_in_sum(first, lang_go::refs_of(c, d, known, def), r);
            } else if n.kind == "selector_expression"@ {
                assert(c.kind != "identifier"@);
            } else {
                lemma_refs_in(n.children, d, known, def, path[0], r);
            }
            from
        }
    }
}

/// Does the definition `def` belong to the function or method `t`: under its
/// name and at its first line, or as a test or subtest of it?
pub open spec fn belongs_to(t: NodeView, def: DefView) -> bool {
    match syntax::field_of(t, "name"@) {
        Some(name_node) => match name_node.text {
            Some(name) => if t.kind == "method_declaration"@ {
                &&& def.kind == DefKind::Method
                &&& lang_go::receiver_type(t) matches Some(ty) && def.name == ty + "."@ + name
                &&& def.start_line == syntax::line_of(t.start_row)
            } else {
                ||| def.kind == DefKind::Function && def.name == name && def.start_line
                    == syntax::line_of(t.start_row)
                ||| def.kind == DefKind::TestCase && (def.test_id matches Some(chain) && chain.len()
                    > 0 && chain[0] == name)
            },
            None => false,
        },
        None => false,
    }
}

/// Does the top-level node `t` have a definition of its own? A function with
/// a name has, unless that is `init`, and a method of a type with a name.
pub open spec fn is_defined(t: NodeView) -> bool {
    &&& syntax::field_of(t, "name"@) matches Some(name_node)
    &&& name_node.text matches Some(name)
    &&& {
        ||| t.kind == "function_declaration"@ && name != "init"@
        ||| t.kind == "method_declaration"@ && lang_go::receiver_type(t) is Some
    }
}

/// Is `n` a call of something named `Run`?
pub open spec fn calls_run(n: NodeView) -> bool {
    called_by(n) matches Some((name, qualifier)) && name == "Run"@ && qualifier is Some
}

/// Does a call of something named `Run` with the number `id` stand at or
/// below `t`?
pub open spec fn holds_run(t: NodeView, id: usize) -> bool {
    exists|p: Seq<int>|
        trace::leads(t, p) && (#[trigger] trace::node_at(t, p)).id == id && calls_run(
            trace::node_at(t, p),
        )
}

/// Do the scopes that `e` has beyond `d` belong to `t`, with definitions
/// that do, and likewise the calls that declare subtests?
pub open spec fn opens_for(t: NodeView, d: DraftView, e: DraftView) -> bool {
    &&& d.defs.len() <= e.defs.len()
    &&& forall|i: int| 0 <= i < d.defs.len() ==> #[trigger] e.defs[i] == d.defs[i]
    &&& forall|id: usize| #[trigger]
        d.scope.contains_key(id) ==> e.scope.contains_key(id)
    &&& forall|id: usize| #[trigger]
        e.scope.contains_key(id) ==> {
            ||| d.scope.contains_key(id) && e.scope[id] == d.scope[id]
            ||| trace::holds(t, id) && e.scope[id] < e.defs.len() && belongs_to(
                t,
                e.defs[e.scope[id] as int],
            )
        }
    &&& forall|id: usize| #[trigger]
        e.tests.contains(id) ==> d.tests.contains(id) || holds_run(t, id)
}

proof fn lemma_opens_chain(t: NodeView, a: DraftView, b: DraftView, c: DraftView)
    requires
        opens_for(t, a, b),
        opens_for(t, b, c),
    ensures
        opens_for(t, a, c),
{
    assert forall|i: int| 0 <= i < a.defs.len() implies #[trigger] c.defs[i] == a.defs[i] by {
        assert(b.defs[i] == a.defs[i]);
    }
    assert forall|id: usize| #[trigger] c.scope.contains_key(id) implies {
        ||| a.scope.contains_key(id) && c.scope[id] == a.scope[id]
        ||| trace::holds(t, id) && c.scope[id] < c.defs.len() && belongs_to(
            t,
            c.defs[c.scope[id] as int],
        )
    } by {
        if b.scope.contains_key(id) && c.scope[id] == b.scope[id] {
            if !(a.scope.contains_key(id) && b.scope[id] == a.scope[id]) {
                assert(c.defs[b.scope[id] as int] == b.defs[b.scope[id] as int]);
            }
        }
    }
}

/// The subtests at and below the node at the end of `p` belong to `t`.
proof fn lemma_subtests_open(
    t: NodeView,
    p: Seq<int>,
    d: DraftView,
    outer: Enclosing,
    used: bool,
    handle: Seq<char>,
)
    requires
        t.kind == "function_declaration"@,
        syntax::field_of(t, "name"@) is Some,
        syntax::field_of(t, "name"@).unwrap().text is Some,
        trace::leads(t, p),
        outer.chain.len() > 0,
        Some(outer.chain[0]) == syntax::field_of(t, "name"@).unwrap().text,
        lang_go::with_subtests(trace::node_at(t, p), d, outer, used, handle).0.defs.len()
            <= usize::MAX,
    ensures
        opens_for(
            t,
            d,
            lang_go::with_subtests(trace::node_at(t, p), d, outer, used, handle).0,
        ),
    decreases trace::node_at(t, p), 1nat,
{
    let n = trace::node_at(t, p);
    if lang_go::is_run_call(n, handle) {
        lemma_run_call_opens(t, p, d, outer, used, handle);
    } else {
        assert(n.children.take(n.children.len() as int) =~= n.children);
        lemma_all_subtests_open(t, p, n.children.len() as int, d, outer, used, handle);
    }
}

proof fn lemma_all_subtests_open(
    t: NodeView,
    p: Seq<int>,
    k: int,
    d: DraftView,
    outer: Enclosing,
    used: bool,
    handle: Seq<char>,
)
    requires
        t.kind == "function_declaration"@,
        syntax::field_of(t, "name"@) is Some,
        syntax::field_of(t, "name"@).unwrap().text is Some,
        trace::leads(t, p),
        0 <= k <= trace::node_at(t, p).children.len(),
        outer.chain.len() > 0,
        Some(outer.chain[0]) == syntax::field_of(t, "name"@).unwrap().text,
        lang_go::with_subtests_of(
            trace::node_at(t, p).children.take(k),
            d,
            outer,
            used,
            handle,
        ).0.defs.len() <= usize::MAX,
    ensures
        opens_for(
            t,
            d,
            lang_go::with_subtests_of(
                trace::node_at(t, p).children.take(k),
                d,
                outer,
                used,
                handle,
            ).0,
        ),
    decreases trace::node_at(t, p).children, k,
{
    let n = trace::node_at(t, p);
    let ns = n.children.take(k);
    if k > 0 {
        assert(ns.drop_last() =~= n.children.take(k - 1));
        let before = lang_go::with_subtests_of(ns.drop_last(), d, outer, used, handle);
        let c = n.children[k - 1];
        let q = p + seq![k - 1];
        trace::lemma_child_path(n, k - 1);
        trace::lemma_path_cat(t, p, seq![k - 1]);
        assert(decreases_to!(n.children => n.children[k - 1]));
        lang_go::lemma_subtests_grow(c, before.0, outer, before.1, handle);
        lemma_all_subtests_open(t, p, k - 1, d, outer, used, handle);
        lemma_subtests_open(t, q, before.0, outer, before.1, handle);
        lemma_opens_chain(
            t,
            d,
            before.0,
            lang_go::with_subtests(c, before.0, outer, before.1, handle).0,
        );
    }
}

proof fn lemma_run_call_opens(
    t: NodeView,
    p: Seq<int>,
    d: DraftView,
    outer: Enclosing,
    used: bool,
    handle: Seq<char>,
)
    requires
        t.kind == "function_declaration"@,
        syntax::field_of(t, "name"@) is Some,
        syntax::field_of(t, "name"@).unwrap().text is Some,
        trace::leads(t, p),
        lang_go::is_run_call(trace::node_at(t, p), handle),
        outer.chain.len() > 0,
        Some(outer.chain[0]) == syntax::field_of(t, "name"@).unwrap().text,
        lang_go::with_run_call(trace::node_at(t, p), d, outer, used).0.defs.len() <= usize::MAX,
    ensures
        opens_for(t, d, lang_go::with_run_call(trace::node_at(t, p), d, outer, used).0),
    decreases trace::node_at(t, p), 0nat,
{
    let call = trace::node_at(t, p);
    let computed = lang_go::literal_name(call) is None;
    reveal_strlit("method_declaration");
    reveal_strlit("function_declaration");
    assert("method_declaration"@[0] != "function_declaration"@[0]);
    lemma_kinds();
    assert(calls_run(call));
    assert(holds_run(t, call.id));
    assert(opens_for(t, d, d.tested(call.id)));
    if !(computed && used) {
        let segment = match lang_go::literal_name(call) {
            Some(name) => name,
            None => "<computed>"@,
        };
        let chain = outer.chain.push(segment);
        let def = draft::def_of(
            call,
            segment,
            DefKind::TestCase,
            Some(outer.at),
            Some(chain),
            computed,
        );
        let own = d.tested(call.id).with_def(def);
        assert(chain[0] == outer.chain[0]);
        assert(belongs_to(t, def));
        assert(opens_for(t, d, own));
        if let Some(callback) = lang_go::argument_of(call, 1) {
            lang_go::lemma_argument_below(call, 1);
            let q = lemma_argument_path(call, 1);
            trace::lemma_path_cat(t, p, q);
            assert(trace::holds(t, callback.id)) by {
                assert(trace::node_at(t, p + q).id == callback.id);
            }
            let inner = Enclosing { at: own.last(), chain };
            lang_go::lemma_subtests_grow(
                callback,
                own.opened(callback.id),
                inner,
                false,
                lang_go::test_handle(callback),
            );
            assert(own.defs[own.last() as int] == def);
            assert(opens_for(t, own, own.opened(callback.id)));
            lemma_opens_chain(t, d, own, own.opened(callback.id));
            lemma_subtests_open(
                t,
                p + q,
                own.opened(callback.id),
                inner,
                false,
                lang_go::test_handle(callback),
            );
            lemma_opens_chain(
                t,
                d,
                own.opened(callback.id),
                lang_go::with_run_call(call, d, outer, used).0,
            );
        }
    }
}

/// The way from a call to its argument.
proof fn lemma_argument_path(call: NodeView, i: int) -> (q: Seq<int>)
    requires
        lang_go::argument_of(call, i) is Some,
    ensures
        trace::leads(call, q),
        Some(trace::node_at(call, q)) == lang_go::argument_of(call, i),
{
    let args = syntax::field_of(call, "arguments"@).unwrap();
    let a = syntax::field_position(call.children, "arguments"@);
    syntax::lemma_named_child_among(args, i);
    let c = syntax::named_child_of(args, i).unwrap();
    let k = choose|k: int| 0 <= k < args.children.len() && args.children[k] == c;
    trace::lemma_child_path(call, a);
    trace::lemma_child_path(args, k);
    trace::lemma_path_cat(call, seq![a], seq![k]);
    seq![a] + seq![k]
}

/// Are the scopes those of the top-level nodes `0..m` of the file, with all
/// of theirs among them?
spec fn opened_by(root: NodeView, m: int, d: DraftView) -> bool {
    &&& forall|id: usize| #[trigger]
        d.scope.contains_key(id) ==> exists|j: int|
            0 <= j < m && #[trigger] trace::holds(root.children[j], id) && is_defined(
                root.children[j],
            ) && d.scope[id] < d.defs.len() && belongs_to(
                root.children[j],
                d.defs[d.scope[id] as int],
            )
    &&& forall|j: int|
        0 <= j < m && is_defined(#[trigger] root.children[j]) ==> d.scope.contains_key(
            root.children[j].id,
        )
    &&& forall|id: usize| #[trigger]
        d.tests.contains(id) ==> exists|j: int| 0 <= j < m && holds_run(root.children[j], id)
}

proof fn lemma_opened_next(root: NodeView, m: int, d: DraftView, e: DraftView)
    requires
        0 <= m < root.children.len(),
        opened_by(root, m, d),
        is_defined(root.children[m]) ==> opens_for(root.children[m], d, e) && e.scope.contains_key(
            root.children[m].id,
        ),
        !is_defined(root.children[m]) ==> e == d,
    ensures
        opened_by(root, m + 1, e),
{
    assert forall|id: usize| #[trigger] e.scope.contains_key(id) implies exists|j: int|
        0 <= j < m + 1 && #[trigger] trace::holds(root.children[j], id) && is_defined(
            root.children[j],
        ) && e.scope[id] < e.defs.len() && belongs_to(
            root.children[j],
            e.defs[e.scope[id] as int],
        ) by {
        if d.scope.contains_key(id) && e.scope[id] == d.scope[id] {
            let j = choose|j: int|
                0 <= j < m && #[trigger] trace::holds(root.children[j], id) && is_defined(
                    root.children[j],
                ) && d.scope[id] < d.defs.len() && belongs_to(
                    root.children[j],
                    d.defs[d.scope[id] as int],
                );
            assert(e.defs[d.scope[id] as int] == d.defs[d.scope[id] as int]);
            assert(trace::holds(root.children[j], id));
        } else {
            assert(trace::holds(root.children[m], id));
        }
    }
    assert forall|id: usize| #[trigger] e.tests.contains(id) implies exists|j: int|
        0 <= j < m + 1 && holds_run(root.children[j], id) by {
        if d.tests.contains(id) {
            let j = choose|j: int| 0 <= j < m && holds_run(root.children[j], id);
            assert(holds_run(root.children[j], id));
        } else {
            assert(holds_run(root.children[m], id));
        }
    }
}

proof fn lemma_declarations_open(root: NodeView, m: int, d: DraftView)
    requires
        0 <= m <= root.children.len(),
        d.scope == Map::<usize, usize>::empty(),
        d.tests == Set::<usize>::empty(),
        lang_go::with_declarations(root.children.take(m), d).defs.len() <= usize::MAX,
    ensures
        opened_by(root, m, lang_go::with_declarations(root.children.take(m), d)),
        d.defs.len() <= lang_go::with_declarations(root.children.take(m), d).defs.len(),
    decreases m,
{
    reveal_strlit("method_declaration");
    reveal_strlit("function_declaration");
    assert("method_declaration"@[0] != "function_declaration"@[0]);
    let ns = root.children.take(m);
    if m > 0 {
        assert(ns.drop_last() =~= root.children.take(m - 1));
        let before = lang_go::with_declarations(ns.drop_last(), d);
        let t = root.children[m - 1];
        let e = lang_go::with_declarations(ns, d);
        assert(ns.last() == t);
        trace::lemma_holds_own(t);
        if is_defined(t) {
            let name_node = syntax::field_of(t, "name"@).unwrap();
            let name = name_node.text.unwrap();
            if t.kind == "method_declaration"@ {
                let def = draft::def_of(
                    t,
                    lang_go::receiver_type(t).unwrap() + "."@ + name,
                    DefKind::Method,
                    None,
                    None,
                    false,
                );
                assert(e == before.with_def(def).opened(t.id));
                assert(e.defs[before.defs.len() as int] == def);
                assert(opens_for(t, before, e));
            } else if lang_go::is_test(name, t) {
                let chain = seq![name];
                let def = draft::def_of(t, name, DefKind::TestCase, None, Some(chain), false);
                let own = before.with_def(def).opened(t.id).named(name_node.id);
                let outer = Enclosing { at: own.last(), chain };
                let handle = lang_go::test_handle(t);
                lang_go::lemma_subtests_grow(t, own, outer, false, handle);
                assert(own.defs[before.defs.len() as int] == def);
                assert(belongs_to(t, def));
                assert(opens_for(t, before, own));
                assert(trace::node_at(t, Seq::<int>::empty()) == t);
                lemma_subtests_open(t, Seq::empty(), own, outer, false, handle);
                assert(opens_for(t, own, e));
                lemma_opens_chain(t, before, own, e);
                assert(own.scope.contains_key(t.id));
            } else {
                let def = draft::def_of(t, name, DefKind::Function, None, None, false);
                assert(e == before.with_def(def).opened(t.id).named(name_node.id));
                assert(e.defs[before.defs.len() as int] == def);
                assert(opens_for(t, before, e));
            }
        } else {
            assert(e == before);
        }
        lemma_declarations_open(root, m - 1, d);
        lemma_opened_next(root, m - 1, before, e);
    }
}

/// Does the call at position `i` go to `name` with the qualifier `qualifier`,
/// from a definition of the top-level node `t`, or from the module init where
/// that has none?
pub open spec fn calls_from(
    found: ExtractionView,
    i: int,
    t: NodeView,
    name: Seq<char>,
    qualifier: Option<Seq<char>>,
) -> bool {
    &&& 0 <= i < found.calls.len()
    &&& found.calls[i].name == name
    &&& found.calls[i].qualifier == qualifier
    &&& if is_defined(t) {
        found.calls[i].from_def < found.defs.len() && belongs_to(
            t,
            found.defs[found.calls[i].from_def as int],
        )
    } else {
        found.calls[i].from_def == 0
    }
}

/// Every call in a Go file is found, however deep it stands and also below
/// the operand of another call, under the name that it calls and with what
/// stands before the dot for a qualifier; it comes from the function or the
/// method around it, or from the module init outside of these.
///
/// Left out is what the plugin does not follow: a path to the call that
/// leaves a call by another child than the callee and the arguments. A call
/// of `Run` may declare a subtest, and is then none.
pub proof fn law_calls_are_found(
    root: NodeView,
    path: Seq<int>,
    name: Seq<char>,
    qualifier: Option<Seq<char>>,
)
    requires
        root.kind == "source_file"@,
        trace::numbered(root),
        lang_go::extracted(root).defs.len() <= usize::MAX,
        path.len() > 0,
        trace::leads(root, path),
        evaluated(root, path),
        trace::node_at(root, path).kind == "call_expression"@,
        called_by(trace::node_at(root, path)) == Some((name, qualifier)),
        qualifier is Some && name == "Run"@ ==> !lang_go::drafted(root).tests.contains(
            trace::node_at(root, path).id,
        ),
    ensures
        exists|i: int|
            #[trigger] calls_from(
                lang_go::extracted(root),
                i,
                root.children[path[0]],
                name,
                qualifier,
            ),
{
    let found = lang_go::extracted(root);
    let d = lang_go::drafted(root);
    let t = root.children[path[0]];
    let x = trace::node_at(root, path);
    let start = DraftView::empty().with_def(
        draft::module_def(root, lang_go::standing_alone(root.children)),
    );
    assert(root.children.take(root.children.len() as int) =~= root.children);
    lemma_declarations_open(root, root.children.len() as int, start);
    let known = lang_go::known_names(root, d.defs);
    if qualifier is Some && d.tests.contains(x.id) {
        let j = choose|j: int| 0 <= j < root.children.len() && holds_run(root.children[j], x.id);
        let p = choose|p: Seq<int>|
            trace::leads(root.children[j], p) && (#[trigger] trace::node_at(
                root.children[j],
                p,
            )).id == x.id && calls_run(trace::node_at(root.children[j], p));
        trace::lemma_child_path(root, j);
        trace::lemma_path_cat(root, seq![j], p);
        assert(trace::node_at(root, seq![j] + p).id == trace::node_at(root, path).id);
        assert(name == "Run"@);
    }
    let rest = path.skip(1);
    let from = lemma_call_found(t, d, known, 0, rest, name, qualifier);
    let refs = lang_go::refs_of(root, d, known, 0);
    let r = draft::ref_at(from, name, qualifier, x);
    lemma_kinds();
    reveal_strlit("source_file");
    reveal_strlit("selector_expression");
    reveal_strlit("call_expression");
    reveal_strlit("identifier");
    assert("source_file"@[1] != "selector_expression"@[1]);
    assert("source_file"@[0] != "call_expression"@[0]);
    assert("source_file"@[0] != "identifier"@[0]);
    if d.scope.contains_key(root.id) {
        let j = choose|j: int|
            0 <= j < root.children.len() && #[trigger] trace::holds(root.children[j], root.id)
                && is_defined(root.children[j]) && d.scope[root.id] < d.defs.len() && belongs_to(
                root.children[j],
                d.defs[d.scope[root.id] as int],
            );
        trace::lemma_root_apart(root, j);
    }
    lemma_refs_in(root.children, d, known, 0, path[0], r);
    let at = choose|at: int| 0 <= at < refs.calls.len() && refs.calls[at] == r;
    draft::law_kept_references_are_distinct(refs.calls);
    assert(draft::has_target(found.calls, refs.calls[at]));
    let i = choose|i: int|
        0 <= i < found.calls.len() && draft::same_target(#[trigger] found.calls[i], r);
    assert forall|k: int|
        0 <= k <= rest.len() && d.scope.contains_key(
            (#[trigger] trace::node_at(t, rest.take(k))).id,
        ) implies is_defined(t) && belongs_to(
        t,
        d.defs[d.scope[trace::node_at(t, rest.take(k)).id] as int],
    ) && d.scope[trace::node_at(t, rest.take(k)).id] < d.defs.len() by {
        let id = trace::node_at(t, rest.take(k)).id;
        let j = choose|j: int|
            0 <= j < root.children.len() && #[trigger] trace::holds(root.children[j], id)
                && is_defined(root.children[j]) && d.scope[id] < d.defs.len() && belongs_to(
                root.children[j],
                d.defs[d.scope[id] as int],
            );
        trace::lemma_path_take(t, rest, k);
        assert(trace::holds(t, id));
        trace::lemma_held_once(root, path[0], j, id);
    }
    assert(calls_from(found, i, t, name, qualifier));
}

/// Is the definition at `i` one of `x`, with this name, kind and chain?
pub open spec fn defines(
    found: ExtractionView,
    i: int,
    x: NodeView,
    name: Seq<char>,
    kind: DefKind,
    test_id: Option<Seq<Seq<char>>>,
) -> bool {
    &&& 0 <= i < found.defs.len()
    &&& found.defs[i].name == name
    &&& found.defs[i].kind == kind
    &&& found.defs[i].test_id == test_id
    &&& found.defs[i].start_line == syntax::line_of(x.start_row)
    &&& found.defs[i].end_line == syntax::line_of(x.end_row)
    &&& !found.defs[i].computed_name
}

/// Is this a pointer to a type of package `testing`?
pub open spec fn points_to_testing(ty: NodeView) -> bool {
    &&& ty.kind == "pointer_type"@
    &&& syntax::named_child_of(ty, 0) matches Some(inner) && inner.kind == "qualified_type"@ && (
    syntax::field_of(inner, "package"@) matches Some(package) && package.text == Some("testing"@))
}

/// Has the function one parameter, which points to a type of package
/// `testing`?
pub open spec fn takes_testing(t: NodeView) -> bool {
    &&& syntax::field_of(t, "parameters"@) matches Some(params)
    &&& {
        let decls = syntax::of_kind(params.children, "parameter_declaration"@);
        decls.len() == 1 && (syntax::field_of(decls[0], "type"@) matches Some(ty)
            && points_to_testing(ty))
    }
}

/// Has the function a list of parameters with none in it?
pub open spec fn takes_nothing(t: NodeView) -> bool {
    &&& syntax::field_of(t, "parameters"@) matches Some(params)
    &&& syntax::of_kind(params.children, "parameter_declaration"@).len() == 0
}

proof fn lemma_declaration(root: NodeView, j: int) -> (before: DraftView)
    requires
        0 <= j < root.children.len(),
    ensures
        root.children[j].kind == "function_declaration"@ ==> lang_go::goes_on(
            lang_go::with_function(root.children[j], before),
            lang_go::drafted(root),
        ),
        root.children[j].kind == "method_declaration"@ ==> lang_go::goes_on(
            lang_go::with_method(root.children[j], before),
            lang_go::drafted(root),
        ),
{
    reveal_strlit("method_declaration");
    reveal_strlit("function_declaration");
    assert("method_declaration"@[0] != "function_declaration"@[0]);
    let start = DraftView::empty().with_def(
        draft::module_def(root, lang_go::standing_alone(root.children)),
    );
    let all = root.children;
    let after = lang_go::with_declarations(all.take(j + 1), start);
    assert(all.take(j + 1).drop_last() =~= all.take(j));
    lemma_rest_declared(all, start, j + 1, all.len() as int);
    assert(all.take(all.len() as int) =~= all);
    lang_go::with_declarations(all.take(j), start)
}

proof fn lemma_rest_declared(all: Seq<NodeView>, d: DraftView, i: int, k: int)
    requires
        0 <= i <= k <= all.len(),
    ensures
        lang_go::goes_on(
            lang_go::with_declarations(all.take(i), d),
            lang_go::with_declarations(all.take(k), d),
        ),
    decreases k - i,
{
    if i < k {
        lemma_rest_declared(all, d, i, k - 1);
        let a = lang_go::with_declarations(all.take(i), d);
        let b = lang_go::with_declarations(all.take(k - 1), d);
        let c = lang_go::with_declarations(all.take(k), d);
        assert(all.take(k).drop_last() =~= all.take(k - 1));
        lang_go::lemma_declarations_go_on(seq![all[k - 1]], b);
        assert(seq![all[k - 1]].drop_last() =~= Seq::<NodeView>::empty());
        reveal_with_fuel(lang_go::with_declarations, 2);
        assert(lang_go::with_declarations(seq![all[k - 1]], b) == c);
        assert forall|x: int| 0 <= x < a.defs.len() implies #[trigger] c.defs[x] == a.defs[x] by {
            assert(b.defs[x] == a.defs[x]);
        }
    }
}

/// A function named `TestX`, `BenchmarkX`, `FuzzX` or `ExampleX`, where what
/// follows the word is nothing or begins in upper case, is a test when it
/// takes a pointer to a type of package `testing`; so is an example that
/// takes nothing.
pub proof fn law_test_functions_are_tests(
    root: NodeView,
    j: int,
    word: Seq<char>,
    rest: Seq<char>,
)
    requires
        0 <= j < root.children.len(),
        root.children[j].kind == "function_declaration"@,
        syntax::field_of(root.children[j], "name"@) matches Some(n) && n.text == Some(word + rest),
        word == "Test"@ || word == "Benchmark"@ || word == "Fuzz"@ || word == "Example"@,
        rest.len() == 0 || lang_go::uppercase(rest[0]),
        takes_testing(root.children[j]) || (word == "Example"@ && takes_nothing(root.children[j])),
    ensures
        exists|i: int| #[trigger]
            defines(
                lang_go::extracted(root),
                i,
                root.children[j],
                word + rest,
                DefKind::TestCase,
                Some(seq![word + rest]),
            ),
{
    let t = root.children[j];
    let name = word + rest;
    let before = lemma_declaration(root, j);
    lemma_test_words(word, rest);
    let name_node = syntax::field_of(t, "name"@).unwrap();
    assert(lang_go::is_test(name, t));
    let chain = seq![name];
    let def = draft::def_of(t, name, DefKind::TestCase, None, Some(chain), false);
    let own = before.with_def(def).opened(t.id).named(name_node.id);
    lang_go::lemma_subtests_grow(
        t,
        own,
        Enclosing { at: own.last(), chain },
        false,
        lang_go::test_handle(t),
    );
    let i = before.defs.len() as int;
    assert(own.defs[i] == def);
    let found = lang_go::extracted(root);
    assert(lang_go::with_function(t, before).defs[i] == own.defs[i]);
    assert(found.defs[i] == def);
    assert(defines(found, i, t, name, DefKind::TestCase, Some(chain)));
}

proof fn lemma_test_words(word: Seq<char>, rest: Seq<char>)
    requires
        word == "Test"@ || word == "Benchmark"@ || word == "Fuzz"@ || word == "Example"@,
    ensures
        lang_go::test_prefix(word + rest) == Some(word),
        (word + rest).skip(word.len() as int) == rest,
        word + rest != "init"@,
{
    reveal_strlit("Test");
    reveal_strlit("Benchmark");
    reveal_strlit("Fuzz");
    reveal_strlit("Example");
    reveal_strlit("init");
    let name = word + rest;
    assert(name.take(word.len() as int) =~= word);
    assert(name.skip(word.len() as int) =~= rest);
    assert(name[0] == word[0]);
    assert("init"@[0] == 'i');
    if text::starts_with(name, "Test"@) {
        assert(name.take(4)[0] == name[0]);
    }
    if text::starts_with(name, "Benchmark"@) {
        assert(name.take(9)[0] == name[0]);
    }
    if text::starts_with(name, "Example"@) {
        assert(name.take(7)[0] == name[0]);
    }
    if text::starts_with(name, "Fuzz"@) {
        assert(name.take(4)[0] == name[0]);
    }
}

/// Any other function but `init` is a function under its name, and so is one
/// that is named like a test and does not take what a test takes.
pub proof fn law_other_functions_are_functions(root: NodeView, j: int, name: Seq<char>)
    requires
        0 <= j < root.children.len(),
        root.children[j].kind == "function_declaration"@,
        syntax::field_of(root.children[j], "name"@) matches Some(n) && n.text == Some(name),
        name != "init"@,
        (!takes_testing(root.children[j]) && !takes_nothing(root.children[j])) || forall|
            word: Seq<char>,
            rest: Seq<char>,
        |
            (word == "Test"@ || word == "Benchmark"@ || word == "Fuzz"@ || word == "Example"@)
                && name == #[trigger] (word + rest) ==> rest.len() > 0 && !lang_go::uppercase(
                rest[0],
            ),
    ensures
        exists|i: int| #[trigger]
            defines(
                lang_go::extracted(root),
                i,
                root.children[j],
                name,
                DefKind::Function,
                None,
            ),
{
    let t = root.children[j];
    let before = lemma_declaration(root, j);
    let name_node = syntax::field_of(t, "name"@).unwrap();
    if lang_go::is_test(name, t) {
        let word = lang_go::test_prefix(name).unwrap();
        let rest = name.skip(word.len() as int);
        assert(name =~= name.take(word.len() as int) + rest);
        assert(name.take(word.len() as int) =~= word);
        assert(name == word + rest);
        assert(false);
    }
    let i = before.defs.len() as int;
    let own = lang_go::with_function(t, before);
    assert(own.defs[i] == own.defs.last());
    let found = lang_go::extracted(root);
    assert(found.defs[i] == own.defs[i]);
    assert(defines(found, i, t, name, DefKind::Function, None));
}

/// A method is a definition under the name of its receiver's type, of a
/// pointer that of the type pointed to, and its own.
pub proof fn law_methods_are_defined(
    root: NodeView,
    j: int,
    k: int,
    ty: Seq<char>,
    name: Seq<char>,
)
    requires
        0 <= j < root.children.len(),
        root.children[j].kind == "method_declaration"@,
        syntax::field_of(root.children[j], "name"@) matches Some(n) && n.text == Some(name),
        syntax::field_of(root.children[j], "receiver"@) matches Some(r) && {
            &&& 0 <= k < r.children.len()
            &&& r.children[k].kind == "parameter_declaration"@
            &&& forall|i: int| 0 <= i < k ==> (#[trigger] r.children[i]).kind
                != "parameter_declaration"@
            &&& syntax::field_of(r.children[k], "type"@) matches Some(of) && if of.kind
                == "pointer_type"@ {
                syntax::named_child_of(of, 0) matches Some(inner) && inner.text == Some(ty)
            } else {
                of.text == Some(ty)
            }
        },
    ensures
        exists|i: int| #[trigger]
            defines(
                lang_go::extracted(root),
                i,
                root.children[j],
                ty + "."@ + name,
                DefKind::Method,
                None,
            ),
{
    let t = root.children[j];
    let before = lemma_declaration(root, j);
    let r = syntax::field_of(t, "receiver"@).unwrap();
    syntax::lemma_first_of(r.children, "parameter_declaration"@);
    assert(syntax::first_of(r.children, "parameter_declaration"@, "parameter_declaration"@) == Some(
        r.children[k],
    ));
    let i = before.defs.len() as int;
    let own = lang_go::with_method(t, before);
    assert(own.defs[i] == own.defs.last());
    let found = lang_go::extracted(root);
    assert(found.defs[i] == own.defs[i]);
    assert(defines(found, i, t, ty + "."@ + name, DefKind::Method, None));
}

/// Is `n` a call of `Run` on what `handle` names?
pub open spec fn runs_on(n: NodeView, handle: Seq<char>) -> bool {
    &&& handle.len() > 0
    &&& n.kind == "call_expression"@
    &&& syntax::field_of(n, "function"@) matches Some(f)
    &&& f.kind == "selector_expression"@
    &&& syntax::field_of(f, "field"@) matches Some(field) && field.text == Some("Run"@)
    &&& syntax::field_of(f, "operand"@) matches Some(operand) && operand.kind == "identifier"@
        && operand.text == Some(handle)
}

/// The argument at position `i` of a call.
pub open spec fn argument(call: NodeView, i: int) -> Option<NodeView> {
    match syntax::field_of(call, "arguments"@) {
        Some(args) => syntax::named_child_of(args, i),
        None => None,
    }
}

/// The name of a subtest, where its first argument is a string.
pub open spec fn title_of(call: NodeView) -> Option<Seq<char>> {
    match argument(call, 0) {
        Some(first) => if first.kind == "interpreted_string_literal"@ {
            match syntax::named_child_of(first, 0) {
                Some(said) => Some(syntax::text_of(said)),
                None => Some(Seq::empty()),
            }
        } else {
            None
        },
        None => None,
    }
}

/// The name by which a function holds its test: that of its first parameter
/// with a type of package `testing`.
pub open spec fn holds_test_as(f: NodeView, handle: Seq<char>) -> bool {
    exists|k: int| #[trigger] names_test_at(f, k, handle)
}

/// Is the parameter at `k` the first with a type of package `testing`, and
/// named `handle`?
pub open spec fn names_test_at(f: NodeView, k: int, handle: Seq<char>) -> bool {
    &&& syntax::field_of(f, "parameters"@) matches Some(params)
    &&& 0 <= k < params.children.len()
    &&& is_testing_parameter(params.children[k])
    &&& syntax::field_of(params.children[k], "name"@).unwrap().text == Some(handle)
    &&& forall|i: int| 0 <= i < k ==> !is_testing_parameter(#[trigger] params.children[i])
}

/// Is this a parameter with a name and a type of package `testing`?
pub open spec fn is_testing_parameter(p: NodeView) -> bool {
    &&& p.kind == "parameter_declaration"@
    &&& syntax::field_of(p, "type"@) matches Some(ty) && (ty.text matches Some(t)
        && text::occurs_in(t, "testing."@))
    &&& syntax::field_of(p, "name"@) matches Some(name) && name.text is Some
}

proof fn lemma_handle(f: NodeView, handle: Seq<char>)
    requires
        holds_test_as(f, handle),
    ensures
        lang_go::test_handle(f) == handle,
{
    let k = choose|k: int| #[trigger] names_test_at(f, k, handle);
    let params = syntax::field_of(f, "parameters"@).unwrap();
    lemma_first_handle(params.children, k);
}

proof fn lemma_first_handle(decls: Seq<NodeView>, k: int)
    requires
        0 <= k < decls.len(),
        is_testing_parameter(decls[k]),
        forall|i: int| 0 <= i < k ==> !is_testing_parameter(#[trigger] decls[i]),
    ensures
        lang_go::first_testing_name(decls) == syntax::field_of(decls[k], "name"@).unwrap().text,
    decreases decls.len(),
{
    let rest = decls.drop_last();
    if k < rest.len() {
        assert(rest[k] == decls[k]);
        assert forall|i: int| 0 <= i < k implies !is_testing_parameter(#[trigger] rest[i]) by {
            assert(rest[i] == decls[i]);
        }
        lemma_first_handle(rest, k);
    } else {
        assert forall|i: int| 0 <= i < rest.len() implies !is_testing_parameter(
            #[trigger] rest[i],
        ) by {
            assert(rest[i] == decls[i]);
        }
        lemma_no_handle(rest);
    }
}

proof fn lemma_no_handle(decls: Seq<NodeView>)
    requires
        forall|i: int| 0 <= i < decls.len() ==> !is_testing_parameter(#[trigger] decls[i]),
    ensures
        lang_go::first_testing_name(decls) is None,
    decreases decls.len(),
{
    if decls.len() > 0 {
        let rest = decls.drop_last();
        assert forall|i: int| 0 <= i < rest.len() implies !is_testing_parameter(
            #[trigger] rest[i],
        ) by {
            assert(rest[i] == decls[i]);
        }
        lemma_no_handle(rest);
        assert(decls[decls.len() - 1] == decls.last());
    }
}

/// Is the call at the end of `path` a subtest with the names `names`, which
/// lead to it from the function `n` that holds its test as `handle`? A
/// subtest of a subtest stands in the function that is the second argument
/// of the call that runs it.
pub open spec fn is_subtest(
    n: NodeView,
    path: Seq<int>,
    handle: Seq<char>,
    names: Seq<Seq<char>>,
) -> bool
    decreases path.len(),
{
    if runs_on(n, handle) {
        &&& names.len() > 0
        &&& title_of(n) == Some(names[0])
        &&& if path.len() == 0 {
            names.len() == 1
        } else {
            &&& path.len() > 1
            &&& path[0] == syntax::field_position(n.children, "arguments"@)
            &&& argument(n, 1) == Some(n.children[path[0]].children[path[1]])
            &&& exists|inner: Seq<char>| #[trigger]
                holds_test_as(n.children[path[0]].children[path[1]], inner) && is_subtest(
                    n.children[path[0]].children[path[1]],
                    path.skip(2),
                    inner,
                    names.skip(1),
                )
        }
    } else {
        path.len() > 0 && 0 <= path[0] < n.children.len() && is_subtest(
            n.children[path[0]],
            path.skip(1),
            handle,
            names,
        )
    }
}

/// Is there a definition of the subtest `x` with this chain of names?
spec fn has_subtest(d: DraftView, x: NodeView, chain: Seq<Seq<char>>) -> bool {
    exists|i: int|
        0 <= i < d.defs.len() && (#[trigger] d.defs[i]).name == chain.last() && d.defs[i].kind
            == DefKind::TestCase && d.defs[i].test_id == Some(chain) && d.defs[i].start_line
            == syntax::line_of(x.start_row) && d.defs[i].end_line == syntax::line_of(x.end_row)
            && !d.defs[i].computed_name
}

proof fn lemma_keeps_subtest(d: DraftView, e: DraftView, x: NodeView, chain: Seq<Seq<char>>)
    requires
        has_subtest(d, x, chain),
        lang_go::goes_on(d, e),
    ensures
        has_subtest(e, x, chain),
{
    let i = choose|i: int|
        0 <= i < d.defs.len() && (#[trigger] d.defs[i]).name == chain.last() && d.defs[i].kind
            == DefKind::TestCase && d.defs[i].test_id == Some(chain) && d.defs[i].start_line
            == syntax::line_of(x.start_row) && d.defs[i].end_line == syntax::line_of(x.end_row)
            && !d.defs[i].computed_name;
    assert(e.defs[i] == d.defs[i]);
}

proof fn lemma_subtest_found(
    n: NodeView,
    path: Seq<int>,
    d: DraftView,
    outer: Enclosing,
    used: bool,
    handle: Seq<char>,
    names: Seq<Seq<char>>,
)
    requires
        is_subtest(n, path, handle, names),
    ensures
        has_subtest(
            lang_go::with_subtests(n, d, outer, used, handle).0,
            trace::node_at(n, path),
            outer.chain + names,
        ),
    decreases path.len(), 0nat,
{
    let x = trace::node_at(n, path);
    if runs_on(n, handle) {
        let segment = names[0];
        assert(lang_go::literal_name(n) == Some(segment));
        let chain = outer.chain.push(segment);
        let def = draft::def_of(
            n,
            segment,
            DefKind::TestCase,
            Some(outer.at),
            Some(chain),
            false,
        );
        let own = d.tested(n.id).with_def(def);
        let at = d.defs.len() as int;
        assert(own.defs[at] == def);
        let end = lang_go::with_run_call(n, d, outer, used).0;
        let inner = Enclosing { at: own.last(), chain };
        if path.len() == 0 {
            assert(outer.chain + names =~= chain);
            assert(has_subtest(own, n, chain));
            if let Some(callback) = lang_go::argument_of(n, 1) {
                assert(own.opened(callback.id).defs[at] == def);
                assert(has_subtest(own.opened(callback.id), n, chain));
                lang_go::lemma_subtests_grow(
                    callback,
                    own.opened(callback.id),
                    inner,
                    false,
                    lang_go::test_handle(callback),
                );
                lemma_keeps_subtest(own.opened(callback.id), end, n, chain);
            }
        } else {
            let callback = n.children[path[0]].children[path[1]];
            let h = choose|h: Seq<char>| #[trigger]
                holds_test_as(callback, h) && is_subtest(
                    callback,
                    path.skip(2),
                    h,
                    names.skip(1),
                );
            lemma_handle(callback, h);
            reveal_with_fuel(trace::node_at, 3);
            assert(path.skip(1).skip(1) =~= path.skip(2));
            assert(path.skip(1)[0] == path[1]);
            assert(x == trace::node_at(callback, path.skip(2)));
            lemma_subtest_found(
                callback,
                path.skip(2),
                own.opened(callback.id),
                inner,
                false,
                h,
                names.skip(1),
            );
            assert(outer.chain + names =~= chain + names.skip(1));
        }
    } else {
        assert(!lang_go::is_run_call(n, handle));
        assert(n.children.take(n.children.len() as int) =~= n.children);
        lemma_subtest_found_in(
            n,
            n.children.len() as int,
            path,
            d,
            outer,
            used,
            handle,
            names,
        );
    }
}

proof fn lemma_subtest_found_in(
    n: NodeView,
    k: int,
    path: Seq<int>,
    d: DraftView,
    outer: Enclosing,
    used: bool,
    handle: Seq<char>,
    names: Seq<Seq<char>>,
)
    requires
        path.len() > 0,
        0 <= path[0] < k <= n.children.len(),
        is_subtest(n.children[path[0]], path.skip(1), handle, names),
    ensures
        has_subtest(
            lang_go::with_subtests_of(n.children.take(k), d, outer, used, handle).0,
            trace::node_at(n, path),
            outer.chain + names,
        ),
    decreases path.len() - 1, k,
{
    let ns = n.children.take(k);
    assert(ns.drop_last() =~= n.children.take(k - 1));
    let before = lang_go::with_subtests_of(ns.drop_last(), d, outer, used, handle);
    let c = n.children[k - 1];
    assert(ns.last() == c);
    if k - 1 == path[0] {
        lemma_subtest_found(c, path.skip(1), before.0, outer, before.1, handle, names);
    } else {
        lemma_subtest_found_in(n, k - 1, path, d, outer, used, handle, names);
        lang_go::lemma_subtests_grow(c, before.0, outer, before.1, handle);
        lemma_keeps_subtest(
            before.0,
            lang_go::with_subtests(c, before.0, outer, before.1, handle).0,
            trace::node_at(n, path),
            outer.chain + names,
        );
    }
}

/// Every call of `Run` on a test, at whatever depth, is a subtest when its
/// name is written out: there is a definition of it, which the test's name
/// and the names of the subtests that lead to it identify.
pub proof fn law_run_calls_are_subtests(
    root: NodeView,
    j: int,
    word: Seq<char>,
    rest: Seq<char>,
    handle: Seq<char>,
    path: Seq<int>,
    names: Seq<Seq<char>>,
)
    requires
        0 <= j < root.children.len(),
        root.children[j].kind == "function_declaration"@,
        syntax::field_of(root.children[j], "name"@) matches Some(n) && n.text == Some(word + rest),
        word == "Test"@ || word == "Benchmark"@ || word == "Fuzz"@ || word == "Example"@,
        rest.len() == 0 || lang_go::uppercase(rest[0]),
        takes_testing(root.children[j]),
        holds_test_as(root.children[j], handle),
        is_subtest(root.children[j], path, handle, names),
        names.len() > 0,
    ensures
        exists|i: int| #[trigger]
            defines(
                lang_go::extracted(root),
                i,
                trace::node_at(root.children[j], path),
                names.last(),
                DefKind::TestCase,
                Some(seq![word + rest] + names),
            ),
{
    let t = root.children[j];
    let name = word + rest;
    let before = lemma_declaration(root, j);
    lemma_test_words(word, rest);
    let name_node = syntax::field_of(t, "name"@).unwrap();
    assert(lang_go::is_test(name, t));
    let chain = seq![name];
    let def = draft::def_of(t, name, DefKind::TestCase, None, Some(chain), false);
    let own = before.with_def(def).opened(t.id).named(name_node.id);
    let outer = Enclosing { at: own.last(), chain };
    lemma_handle(t, handle);
    lemma_subtest_found(t, path, own, outer, false, handle, names);
    let x = trace::node_at(t, path);
    lemma_keeps_subtest(
        lang_go::with_function(t, before),
        lang_go::drafted(root),
        x,
        chain + names,
    );
    let found = lang_go::extracted(root);
    let d = lang_go::drafted(root);
    let all = chain + names;
    let i = choose|i: int|
        0 <= i < d.defs.len() && (#[trigger] d.defs[i]).name == all.last() && d.defs[i].kind
            == DefKind::TestCase && d.defs[i].test_id == Some(all) && d.defs[i].start_line
            == syntax::line_of(x.start_row) && d.defs[i].end_line == syntax::line_of(x.end_row)
            && !d.defs[i].computed_name;
    assert(defines(found, i, x, names.last(), DefKind::TestCase, Some(all)));
}

/// Every import of a Go file is found: each specification with a string for
/// a path, wherever it stands.
pub proof fn law_imports_are_found(root: NodeView, path: Seq<int>)
    requires
        trace::leads(root, path),
        trace::node_at(root, path).kind == "import_spec"@,
        syntax::field_of(trace::node_at(root, path), "path"@) matches Some(p) && p.kind
            == "interpreted_string_literal"@,
    ensures
        lang_go::extracted(root).imports.contains(
            ImportView {
                raw: match syntax::named_child_of(
                    syntax::field_of(trace::node_at(root, path), "path"@).unwrap(),
                    0,
                ) {
                    Some(said) => syntax::text_of(said),
                    None => Seq::empty(),
                },
                line: syntax::line_of(trace::node_at(root, path).start_row),
            },
        ),
{
    let import = lang_go::own_import(trace::node_at(root, path))[0];
    lemma_import_found(root, path, import);
}

proof fn lemma_import_found(n: NodeView, path: Seq<int>, import: ImportView)
    requires
        trace::leads(n, path),
        lang_go::own_import(trace::node_at(n, path)) == seq![import],
    ensures
        lang_go::imports_of(n).contains(import),
    decreases path.len(),
{
    let own = lang_go::own_import(n);
    let all = lang_go::imports_of(n);
    if path.len() == 0 {
        assert(all[0] == import);
    } else {
        lemma_import_found(n.children[path[0]], path.skip(1), import);
        lemma_import_among(n.children, path[0], import);
        let below = lang_go::imports_in(n.children);
        let i = choose|i: int| 0 <= i < below.len() && below[i] == import;
        assert(all[own.len() + i] == import);
    }
}

proof fn lemma_import_among(ns: Seq<NodeView>, i: int, import: ImportView)
    requires
        0 <= i < ns.len(),
        lang_go::imports_of(ns[i]).contains(import),
    ensures
        lang_go::imports_in(ns).contains(import),
    decreases ns.len(),
{
    let before = lang_go::imports_in(ns.drop_last());
    let last = lang_go::imports_of(ns.last());
    if i < ns.len() - 1 {
        lemma_import_among(ns.drop_last(), i, import);
        let k = choose|k: int| 0 <= k < before.len() && before[k] == import;
        assert((before + last)[k] == import);
    } else {
        let k = choose|k: int| 0 <= k < last.len() && last[k] == import;
        assert((before + last)[before.len() + k] == import);
    }
}

/// Is this a node whose two names, or whose one name, may be read: `x.y`
/// that is not called, or a name alone?
pub open spec fn named_by(x: NodeView) -> Option<(Seq<char>, Option<Seq<char>>)> {
    if x.kind == "identifier"@ {
        Some((syntax::text_of(x), None))
    } else if x.kind == "selector_expression"@ {
        match (syntax::field_of(x, "operand"@), syntax::field_of(x, "field"@)) {
            (Some(operand), Some(field)) => if operand.kind == "identifier"@ {
                Some((syntax::text_of(field), Some(syntax::text_of(operand))))
            } else {
                None
            },
            _ => None,
        }
    } else {
        None
    }
}

/// Does `path` lead to a value of its own? A name that is called, the callee
/// `x.y` and the two names in `x.y` are none.
pub open spec fn valued(n: NodeView, path: Seq<int>) -> bool
    decreases path.len(),
{
    path.len() == 0 || {
        let c = n.children[path[0]];
        &&& 0 <= path[0] < n.children.len()
        &&& n.kind != "identifier"@
        &&& if n.kind == "call_expression"@ && path[0] == syntax::field_position(
            n.children,
            "function"@,
        ) && c.kind == "selector_expression"@ {
            path.len() > 1 && computes_operand(c, path[1]) && valued(
                c.children[path[1]],
                path.skip(2),
            )
        } else {
            &&& n.kind == "call_expression"@ ==> path[0] == syntax::field_position(
                n.children,
                "arguments"@,
            ) || (path[0] == syntax::field_position(n.children, "function"@) && c.kind
                != "identifier"@)
            &&& n.kind == "selector_expression"@ ==> computes_operand(n, path[0])
            &&& valued(c, path.skip(1))
        }
    }
}

/// Is the child at `i` the operand of `operand.field`, and no mere name?
pub open spec fn computes_operand(n: NodeView, i: int) -> bool {
    &&& 0 <= i < n.children.len()
    &&& i == syntax::field_position(n.children, "operand"@)
    &&& syntax::field_of(n, "field"@) is Some
    &&& n.children[i].kind != "identifier"@
}

/// The definition that the node at the end of `path` stands in: that of the
/// last node on the way which opens a scope. A callee `x.y` opens none.
pub open spec fn scope_on(d: DraftView, n: NodeView, path: Seq<int>, current: usize) -> usize
    decreases path.len(),
{
    let def = d.scope_at(n, current);
    if path.len() == 0 {
        def
    } else {
        let c = n.children[path[0]];
        if n.kind == "call_expression"@ && path[0] == syntax::field_position(
            n.children,
            "function"@,
        ) && c.kind == "selector_expression"@ && path.len() > 1 {
            scope_on(d, c.children[path[1]], path.skip(2), def)
        } else {
            scope_on(d, c, path.skip(1), def)
        }
    }
}

proof fn lemma_all_refs_in(
    ns: Seq<NodeView>,
    d: DraftView,
    known: Set<Seq<char>>,
    current: usize,
    i: int,
)
    requires
        0 <= i < ns.len(),
    ensures
        trace::among(
            lang_go::refs_of(ns[i], d, known, current),
            lang_go::refs_in(ns, d, known, current),
        ),
    decreases ns.len(),
{
    if i < ns.len() - 1 {
        lemma_all_refs_in(ns.drop_last(), d, known, current, i);
    }
    trace::lemma_among_sum(
        lang_go::refs_of(ns[i], d, known, current),
        lang_go::refs_in(ns.drop_last(), d, known, current),
        lang_go::refs_of(ns.last(), d, known, current),
    );
}

/// The reference of the call `n` of `x.y`.
spec fn own_call(n: NodeView, f: NodeView, d: DraftView, def: usize) -> RefsView {
    if d.tests.contains(n.id) {
        RefsView::none()
    } else {
        RefsView::call(
            draft::ref_at(
                def,
                syntax::text_of(syntax::field_of(f, "field"@).unwrap()),
                Some(syntax::text_of(syntax::field_of(f, "operand"@).unwrap())),
                n,
            ),
        )
    }
}

/// The references of the call `n` but those in its arguments.
spec fn callee_of_call(
    n: NodeView,
    d: DraftView,
    known: Set<Seq<char>>,
    def: usize,
) -> RefsView {
    match syntax::field_of(n, "function"@) {
        Some(f) => if f.kind == "identifier"@ {
            RefsView::call(draft::ref_at(def, syntax::text_of(f), None, n))
        } else if f.kind == "selector_expression"@ {
            match (syntax::field_of(f, "operand"@), syntax::field_of(f, "field"@)) {
                (Some(operand), Some(field)) => if operand.kind != "identifier"@ {
                    own_call(n, f, d, def).plus(lang_go::refs_of(operand, d, known, def))
                } else {
                    own_call(n, f, d, def)
                },
                _ => RefsView::none(),
            }
        } else {
            lang_go::refs_of(f, d, known, def)
        },
        None => RefsView::none(),
    }
}

/// The references of the value at the end of `path` are found.
proof fn lemma_value_reached(
    n: NodeView,
    d: DraftView,
    known: Set<Seq<char>>,
    current: usize,
    path: Seq<int>,
) -> (cur: usize)
    requires
        valued(n, path),
    ensures
        trace::among(
            lang_go::refs_of(trace::node_at(n, path), d, known, cur),
            lang_go::refs_of(n, d, known, current),
        ),
        d.scope_at(trace::node_at(n, path), cur) == scope_on(d, n, path, current),
    decreases path.len(),
{
    lemma_kinds();
    if path.len() == 0 {
        current
    } else {
        let def = d.scope_at(n, current);
        let c = n.children[path[0]];
        let x = trace::node_at(n, path);
        let all = lang_go::refs_of(n, d, known, current);
        let through_callee = n.kind == "call_expression"@ && path[0] == syntax::field_position(
            n.children,
            "function"@,
        ) && c.kind == "selector_expression"@;
        let cur = if through_callee {
            let o = c.children[path[1]];
            reveal_with_fuel(trace::node_at, 3);
            assert(path.skip(1).skip(1) =~= path.skip(2));
            assert(path.skip(1)[0] == path[1]);
            assert(x == trace::node_at(o, path.skip(2)));
            lemma_value_reached(o, d, known, def, path.skip(2))
        } else {
            lemma_value_reached(c, d, known, def, path.skip(1))
        };
        let own = lang_go::refs_of(x, d, known, cur);
        if n.kind == "call_expression"@ {
            let callee = callee_of_call(n, d, known, def);
            if through_callee {
                let o = c.children[path[1]];
                let named = own_call(n, c, d, def);
                trace::lemma_among_sum(own, named, lang_go::refs_of(o, d, known, def));
                assert(callee == named.plus(lang_go::refs_of(o, d, known, def)));
            }
            if let Some(args) = syntax::field_of(n, "arguments"@) {
                trace::lemma_among_sum(own, callee, lang_go::refs_of(args, d, known, def));
                assert(all == callee.plus(lang_go::refs_of(args, d, known, def)));
            } else {
                assert(all == callee);
            }
        } else if n.kind == "selector_expression"@ {
        } else {
            lemma_all_refs_in(n.children, d, known, def, path[0]);
        }
        cur
    }
}

/// A name that is evaluated is read where it is that of a function of the
/// file and does not itself declare it, and so is `x.y` where one of the two
/// is.
pub proof fn law_reads_are_found(
    root: NodeView,
    path: Seq<int>,
    name: Seq<char>,
    qualifier: Option<Seq<char>>,
    k: int,
)
    requires
        valued(root, path),
        named_by(trace::node_at(root, path)) == Some((name, qualifier)),
        trace::node_at(root, path).kind == "identifier"@ ==> !lang_go::drafted(root).names.contains(
            trace::node_at(root, path).id,
        ),
        0 <= k < lang_go::extracted(root).defs.len(),
        lang_go::extracted(root).defs[k].kind == DefKind::Function,
        name == lang_go::extracted(root).defs[k].name || qualifier == Some(
            lang_go::extracted(root).defs[k].name,
        ),
    ensures
        trace::refers(
            lang_go::extracted(root).reads,
            scope_on(lang_go::drafted(root), root, path, 0),
            name,
            qualifier,
        ),
{
    let d = lang_go::drafted(root);
    lemma_function_name(d.defs, k);
    lemma_read_found(root, path, name, qualifier, d.defs[k].name);
}

/// So is one that goes to an imported package, by the last part of its path.
pub proof fn law_package_reads_are_found(
    root: NodeView,
    path: Seq<int>,
    name: Seq<char>,
    qualifier: Option<Seq<char>>,
    k: int,
    before: Seq<char>,
    package: Seq<char>,
)
    requires
        valued(root, path),
        named_by(trace::node_at(root, path)) == Some((name, qualifier)),
        trace::node_at(root, path).kind == "identifier"@ ==> !lang_go::drafted(root).names.contains(
            trace::node_at(root, path).id,
        ),
        0 <= k < lang_go::extracted(root).imports.len(),
        package.len() > 0,
        !package.contains('/'),
        lang_go::extracted(root).imports[k].raw == package || lang_go::extracted(
            root,
        ).imports[k].raw == before + seq!['/'] + package,
        name == package || qualifier == Some(package),
    ensures
        trace::refers(
            lang_go::extracted(root).reads,
            scope_on(lang_go::drafted(root), root, path, 0),
            name,
            qualifier,
        ),
{
    text::law_tail_follows_last(before, package, '/');
    lemma_package_name(lang_go::imports_of(root), k);
    lemma_read_found(root, path, name, qualifier, package);
}

proof fn lemma_read_found(
    root: NodeView,
    path: Seq<int>,
    name: Seq<char>,
    qualifier: Option<Seq<char>>,
    what: Seq<char>,
)
    requires
        valued(root, path),
        named_by(trace::node_at(root, path)) == Some((name, qualifier)),
        trace::node_at(root, path).kind == "identifier"@ ==> !lang_go::drafted(root).names.contains(
            trace::node_at(root, path).id,
        ),
        lang_go::known_names(root, lang_go::drafted(root).defs).contains(what),
        name == what || qualifier == Some(what),
    ensures
        trace::refers(
            lang_go::extracted(root).reads,
            scope_on(lang_go::drafted(root), root, path, 0),
            name,
            qualifier,
        ),
{
    lemma_kinds();
    let d = lang_go::drafted(root);
    let known = lang_go::known_names(root, d.defs);
    let cur = lemma_value_reached(root, d, known, 0, path);
    let x = trace::node_at(root, path);
    let def = d.scope_at(x, cur);
    let refs = lang_go::refs_of(root, d, known, 0);
    let own = lang_go::refs_of(x, d, known, cur);
    let r = draft::ref_at(def, name, qualifier, x);
    assert(own.reads[0] == r);
    assert(own.reads.contains(r));
    assert(refs.reads.contains(r));
    trace::lemma_kept(refs.reads, r);
}

proof fn lemma_function_name(defs: Seq<DefView>, k: int)
    requires
        0 <= k < defs.len(),
        defs[k].kind == DefKind::Function,
    ensures
        lang_go::function_names(defs).contains(defs[k].name),
    decreases defs.len(),
{
    if k < defs.len() - 1 {
        assert(defs.drop_last()[k] == defs[k]);
        lemma_function_name(defs.drop_last(), k);
    }
}

proof fn lemma_package_name(imports: Seq<ImportView>, k: int)
    requires
        0 <= k < imports.len(),
        text::after_last(imports[k].raw, '/').len() > 0,
    ensures
        lang_go::package_names(imports).contains(text::after_last(imports[k].raw, '/')),
    decreases imports.len(),
{
    if k < imports.len() - 1 {
        assert(imports.drop_last()[k] == imports[k]);
        lemma_package_name(imports.drop_last(), k);
    }
}

/// And one that goes to a package by the name that its import gives it.
pub proof fn law_alias_reads_are_found(
    root: NodeView,
    path: Seq<int>,
    name: Seq<char>,
    qualifier: Option<Seq<char>>,
    import: Seq<int>,
    alias: Seq<char>,
)
    requires
        valued(root, path),
        named_by(trace::node_at(root, path)) == Some((name, qualifier)),
        trace::node_at(root, path).kind == "identifier"@ ==> !lang_go::drafted(root).names.contains(
            trace::node_at(root, path).id,
        ),
        trace::leads(root, import),
        trace::node_at(root, import).kind == "import_spec"@,
        syntax::field_of(trace::node_at(root, import), "name"@) matches Some(n) && n.kind
            == "package_identifier"@ && n.text == Some(alias),
        name == alias || qualifier == Some(alias),
    ensures
        trace::refers(
            lang_go::extracted(root).reads,
            scope_on(lang_go::drafted(root), root, path, 0),
            name,
            qualifier,
        ),
{
    lemma_alias(root, import, alias);
    lemma_read_found(root, path, name, qualifier, alias);
}

proof fn lemma_alias(n: NodeView, path: Seq<int>, alias: Seq<char>)
    requires
        trace::leads(n, path),
        lang_go::own_alias(trace::node_at(n, path)).contains(alias),
    ensures
        lang_go::aliases_of(n).contains(alias),
    decreases path.len(),
{
    if path.len() > 0 {
        lemma_alias(n.children[path[0]], path.skip(1), alias);
        lemma_alias_among(n.children, path[0], alias);
    }
}

proof fn lemma_alias_among(ns: Seq<NodeView>, i: int, alias: Seq<char>)
    requires
        0 <= i < ns.len(),
        lang_go::aliases_of(ns[i]).contains(alias),
    ensures
        lang_go::aliases_in(ns).contains(alias),
    decreases ns.len(),
{
    if i < ns.len() - 1 {
        lemma_alias_among(ns.drop_last(), i, alias);
    }
}

} // verus!
