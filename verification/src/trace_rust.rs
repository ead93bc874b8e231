//! What the Rust plugin finds, told by the nodes of the tree.
use vstd::prelude::*;

use crate::draft;
use crate::draft::{DraftView, RefsView};
use crate::graph::DefKind;
use crate::lang_rust;
use crate::lang_rust::Found;
use crate::language::{DefView, ExtractionView, ImportView};
use crate::syntax;
use crate::syntax::NodeView;
use crate::text;
use crate::trace;

verus! {

/// Does `path` lead to an item: a child of the file, or of the body of a
/// module that is one?
pub open spec fn leads_to_item(n: NodeView, path: Seq<int>) -> bool
    decreases path.len(),
{
    &&& path.len() > 0
    &&& 0 <= path[0] < n.children.len()
    &&& path.len() > 1 ==> {
        let module = n.children[path[0]];
        &&& path.len() > 2
        &&& module.kind == "mod_item"@
        &&& syntax::field_of(module, "name"@) matches Some(name) && name.text is Some
        &&& path[1] == syntax::field_position(module.children, "body"@)
        &&& 0 <= path[1] < module.children.len()
        &&& leads_to_item(module.children[path[1]], path.skip(2))
    }
}

/// The names of the modules on the way to an item, the outermost first.
pub open spec fn modules_on(n: NodeView, path: Seq<int>) -> Seq<Seq<char>>
    decreases path.len(),
{
    if path.len() < 3 {
        Seq::empty()
    } else {
        let module = n.children[path[0]];
        seq![syntax::text_of(syntax::field_of(module, "name"@).unwrap())] + modules_on(
            module.children[path[1]],
            path.skip(2),
        )
    }
}

/// The nodes that the item stands among.
pub open spec fn around(n: NodeView, path: Seq<int>) -> Seq<NodeView>
    decreases path.len(),
{
    if path.len() < 3 {
        n.children
    } else {
        around(n.children[path[0]].children[path[1]], path.skip(2))
    }
}

/// May this node stand between an attribute and the item it belongs to?
pub open spec fn is_between(n: NodeView) -> bool {
    n.kind == "attribute_item"@ || n.kind == "line_comment"@ || n.kind == "block_comment"@
}

/// Does the attribute at `a` belong to the item at `i`?
pub open spec fn belongs(ns: Seq<NodeView>, a: int, i: int) -> bool {
    &&& 0 <= a < i
    &&& ns[a].kind == "attribute_item"@
    &&& forall|k: int| a < k < i ==> is_between(#[trigger] ns[k])
}

/// The path that an attribute names, as `tokio::test` in `#[tokio::test]`.
pub open spec fn attribute_path(n: NodeView) -> Option<Seq<char>> {
    match syntax::named_child_of(n, 0) {
        Some(attribute) => match syntax::named_child_of(attribute, 0) {
            Some(path) => path.text,
            None => None,
        },
        None => None,
    }
}

/// Is this the path of an attribute that makes a test: `test` or `bench`,
/// alone or at the end of a path, or `rstest`?
pub open spec fn is_test_path(path: Seq<char>) -> bool {
    ||| path == "test"@ || exists|before: Seq<char>| path == #[trigger] (before + "::test"@)
    ||| path == "bench"@ || exists|before: Seq<char>| path == #[trigger] (before + "::bench"@)
    ||| path == "rstest"@
}

/// Does the attribute make a test?
pub open spec fn makes_test(n: NodeView) -> bool {
    attribute_path(n) matches Some(path) && is_test_path(path)
}

/// Does an attribute that belongs to the item at `i` make a test?
pub open spec fn is_marked(ns: Seq<NodeView>, i: int) -> bool {
    exists|a: int| #[trigger] belongs(ns, a, i) && makes_test(ns[a])
}

proof fn lemma_makes_test(n: NodeView)
    ensures
        makes_test(n) == lang_rust::is_test_attribute(n),
{
    if let Some(path) = attribute_path(n) {
        reveal_strlit("::test");
        reveal_strlit("::bench");
        if text::ends_with(path, "::test"@) {
            assert(path =~= path.take(path.len() - 6) + "::test"@) by {
                assert(path.skip(path.len() - 6) =~= "::test"@);
                assert(path =~= path.take(path.len() - 6) + path.skip(path.len() - 6));
            }
        }
        if text::ends_with(path, "::bench"@) {
            assert(path =~= path.take(path.len() - 7) + "::bench"@) by {
                assert(path.skip(path.len() - 7) =~= "::bench"@);
                assert(path =~= path.take(path.len() - 7) + path.skip(path.len() - 7));
            }
        }
        if exists|before: Seq<char>| path == #[trigger] (before + "::test"@) {
            let before = choose|before: Seq<char>| path == #[trigger] (before + "::test"@);
            assert(path.skip(path.len() - 6) =~= "::test"@);
        }
        if exists|before: Seq<char>| path == #[trigger] (before + "::bench"@) {
            let before = choose|before: Seq<char>| path == #[trigger] (before + "::bench"@);
            assert(path.skip(path.len() - 7) =~= "::bench"@);
        }
    }
}

/// The attributes that no item among `ns` has taken.
spec fn waiting(ns: Seq<NodeView>) -> Seq<NodeView>
    decreases ns.len(),
{
    if ns.len() == 0 {
        Seq::empty()
    } else {
        let n = ns.last();
        if n.kind == "attribute_item"@ {
            waiting(ns.drop_last()).push(n)
        } else if n.kind == "line_comment"@ || n.kind == "block_comment"@ {
            waiting(ns.drop_last())
        } else {
            Seq::empty()
        }
    }
}

proof fn lemma_waiting(ns: Seq<NodeView>, f: Found, mods: Seq<Seq<char>>)
    ensures
        lang_rust::with_items(ns, f, mods).1 == waiting(ns),
    decreases ns.len(),
{
    if ns.len() > 0 {
        lemma_waiting(ns.drop_last(), f, mods);
    }
}

/// Is `n` an attribute that belongs to the item at `i`?
spec fn is_attribute_of(ns: Seq<NodeView>, i: int, n: NodeView) -> bool {
    exists|a: int| #[trigger] belongs(ns, a, i) && ns[a] == n
}

/// The attributes before the item at `i` are those that belong to it.
proof fn lemma_attributes(ns: Seq<NodeView>, i: int)
    requires
        0 <= i <= ns.len(),
    ensures
        forall|j: int|
            0 <= j < waiting(ns.take(i)).len() ==> is_attribute_of(
                ns,
                i,
                #[trigger] waiting(ns.take(i))[j],
            ),
        forall|a: int| #[trigger] belongs(ns, a, i) ==> waiting(ns.take(i)).contains(ns[a]),
    decreases i,
{
    let w = waiting(ns.take(i));
    if i > 0 {
        lemma_attributes(ns, i - 1);
        assert(ns.take(i).drop_last() =~= ns.take(i - 1));
        let n = ns[i - 1];
        let v = waiting(ns.take(i - 1));
        reveal_strlit("attribute_item");
        reveal_strlit("line_comment");
        reveal_strlit("block_comment");
        assert("attribute_item"@[0] != "line_comment"@[0]);
        assert("attribute_item"@[0] != "block_comment"@[0]);
        assert forall|j: int| 0 <= j < w.len() implies is_attribute_of(ns, i, #[trigger] w[j]) by {
            if j < v.len() {
                assert(w[j] == v[j]);
                assert(is_attribute_of(ns, i - 1, v[j]));
                let a = choose|a: int| #[trigger] belongs(ns, a, i - 1) && ns[a] == v[j];
                assert forall|k: int| a < k < i implies is_between(#[trigger] ns[k]) by {}
                assert(belongs(ns, a, i));
            } else {
                assert(belongs(ns, i - 1, i));
            }
        }
        assert forall|a: int| #[trigger] belongs(ns, a, i) implies w.contains(ns[a]) by {
            if a < i - 1 {
                assert(is_between(ns[i - 1]));
                assert(belongs(ns, a, i - 1));
                assert(v.contains(ns[a]));
                let j = choose|j: int| 0 <= j < v.len() && v[j] == ns[a];
                assert(w[j] == ns[a]);
            } else {
                assert(w[v.len() as int] == ns[a]);
            }
        }
    }
}

proof fn lemma_marked(ns: Seq<NodeView>, i: int)
    requires
        0 <= i <= ns.len(),
    ensures
        is_marked(ns, i) == lang_rust::any_test_attribute(waiting(ns.take(i))),
{
    let w = waiting(ns.take(i));
    lemma_attributes(ns, i);
    if is_marked(ns, i) {
        let a = choose|a: int| #[trigger] belongs(ns, a, i) && makes_test(ns[a]);
        assert(w.contains(ns[a]));
        let j = choose|j: int| 0 <= j < w.len() && w[j] == ns[a];
        lemma_makes_test(ns[a]);
        assert(lang_rust::is_test_attribute(w[j]));
    }
    if lang_rust::any_test_attribute(w) {
        let j = choose|j: int| 0 <= j < w.len() && lang_rust::is_test_attribute(#[trigger] w[j]);
        assert(is_attribute_of(ns, i, w[j]));
        let a = choose|a: int| #[trigger] belongs(ns, a, i) && ns[a] == w[j];
        lemma_makes_test(ns[a]);
        assert(belongs(ns, a, i) && makes_test(ns[a]));
    }
}

/// Does `e` begin with what `f` holds?
spec fn extends(f: Found, e: Found) -> bool {
    &&& f.draft.defs.len() <= e.draft.defs.len()
    &&& forall|i: int|
        0 <= i < f.draft.defs.len() ==> #[trigger] e.draft.defs[i] == f.draft.defs[i]
    &&& f.imports.len() <= e.imports.len()
    &&& forall|i: int| 0 <= i < f.imports.len() ==> #[trigger] e.imports[i] == f.imports[i]
}

proof fn lemma_extends_on(a: Found, b: Found, c: Found)
    requires
        extends(a, b),
        extends(b, c),
    ensures
        extends(a, c),
{
    assert forall|i: int| 0 <= i < a.draft.defs.len() implies #[trigger] c.draft.defs[i]
        == a.draft.defs[i] by {
        assert(b.draft.defs[i] == a.draft.defs[i]);
    }
    assert forall|i: int| 0 <= i < a.imports.len() implies #[trigger] c.imports[i]
        == a.imports[i] by {
        assert(b.imports[i] == a.imports[i]);
    }
}

proof fn lemma_methods_extend(ns: Seq<NodeView>, ty: Seq<char>, f: Found)
    ensures
        extends(f, lang_rust::with_methods(ns, ty, f)),
    decreases ns.len(),
{
    if ns.len() > 0 {
        let before = lang_rust::with_methods(ns.drop_last(), ty, f);
        lemma_methods_extend(ns.drop_last(), ty, f);
        lemma_extends_on(f, before, lang_rust::with_methods(ns, ty, f));
    }
}

proof fn lemma_items_extend(ns: Seq<NodeView>, f: Found, mods: Seq<Seq<char>>)
    ensures
        extends(f, lang_rust::with_items(ns, f, mods).0),
    decreases ns, 1nat,
{
    if ns.len() > 0 {
        let (before, attrs) = lang_rust::with_items(ns.drop_last(), f, mods);
        let e = lang_rust::with_items(ns, f, mods).0;
        let n = ns.last();
        lemma_items_extend(ns.drop_last(), f, mods);
        lemma_step_extends(n, before, mods, attrs);
        lemma_extends_on(f, before, e);
    }
}

/// What the item `n` adds.
spec fn with_item(n: NodeView, f: Found, mods: Seq<Seq<char>>, attrs: Seq<NodeView>) -> Found {
    if n.kind == "attribute_item"@ || n.kind == "line_comment"@ || n.kind == "block_comment"@ {
        f
    } else if n.kind == "function_item"@ {
        lang_rust::with_function(n, f, mods, attrs)
    } else if n.kind == "impl_item"@ {
        lang_rust::with_impl(n, f)
    } else if n.kind == "struct_item"@ || n.kind == "enum_item"@ || n.kind == "trait_item"@ {
        lang_rust::with_type(n, f)
    } else if n.kind == "mod_item"@ {
        lang_rust::with_mod(n, f, mods)
    } else if n.kind == "use_declaration"@ {
        lang_rust::with_use(n, f)
    } else {
        f
    }
}

proof fn lemma_step_extends(n: NodeView, f: Found, mods: Seq<Seq<char>>, attrs: Seq<NodeView>)
    ensures
        extends(f, with_item(n, f, mods, attrs)),
    decreases n, 0nat,
{
    if let Some(body) = syntax::field_of(n, "body"@) {
        syntax::lemma_field_below(n, "body"@);
        if n.kind == "impl_item"@ {
            if let Some(ty) = syntax::field_of(n, "type"@) {
                if let Some(t) = ty.text {
                    lemma_methods_extend(body.children, lang_rust::without_generics(t), f);
                }
            }
        } else if let Some(name) = syntax::field_of(n, "name"@) {
            if let Some(t) = name.text {
                lemma_items_extend(body.children, f, mods.push(t));
            }
        }
    }
}

/// The item at the end of `path` is added to what was found before it, and
/// nothing of that is lost.
proof fn lemma_item_reached(n: NodeView, f: Found, mods: Seq<Seq<char>>, path: Seq<int>) -> (before:
    Found)
    requires
        leads_to_item(n, path),
    ensures
        extends(
            with_item(
                trace::node_at(n, path),
                before,
                mods + modules_on(n, path),
                waiting(around(n, path).take(path.last())),
            ),
            lang_rust::with_items(n.children, f, mods).0,
        ),
        0 <= path.last() < around(n, path).len(),
        around(n, path)[path.last()] == trace::node_at(n, path),
        trace::numbered(n) ==> keeps_own_scopes(
            trace::node_at(n, path),
            with_item(
                trace::node_at(n, path),
                before,
                mods + modules_on(n, path),
                waiting(around(n, path).take(path.last())),
            ).draft,
            lang_rust::with_items(n.children, f, mods).0.draft,
        ) && trace::holds(n, trace::node_at(n, path).id),
    decreases path.len(),
{
    let i = path[0];
    let c = n.children[i];
    let all = n.children;
    let (before, attrs) = lang_rust::with_items(all.take(i), f, mods);
    lemma_waiting(all.take(i), f, mods);
    let after = lang_rust::with_items(all.take(i + 1), f, mods).0;
    assert(all.take(i + 1).drop_last() =~= all.take(i));
    assert(all.take(i + 1).last() == c);
    assert(after == with_item(c, before, mods, attrs));
    lemma_rest_extends(all, f, mods, i + 1, all.len() as int);
    lemma_rest_keeps(all, f, mods, i + 1, all.len() as int);
    assert(all.take(all.len() as int) =~= all);
    assert(all.subrange(i + 1, all.len() as int) =~= all.skip(i + 1));
    let end = lang_rust::with_items(all, f, mods).0;
    reveal_with_fuel(trace::node_at, 3);
    if path.len() == 1 {
        assert(path.skip(1) =~= Seq::<int>::empty());
        assert(mods + modules_on(n, path) =~= mods);
        assert(trace::node_at(n, path) == c);
        if trace::numbered(n) {
            trace::lemma_holds_own(c);
            trace::lemma_holds_child(n, i, c.id);
            assert forall|id: usize|
                #[trigger] after.draft.scope.contains_key(id) && trace::holds(c, id) implies end.draft.scope.contains_key(
                id,
            ) && end.draft.scope[id] == after.draft.scope[id] by {
                trace::lemma_none_behind(n, i, id);
            }
        }
        before
    } else {
        let name = syntax::field_of(c, "name"@).unwrap().text.unwrap();
        let body = c.children[path[1]];
        assert(path.skip(1).skip(1) =~= path.skip(2));
        assert(path.skip(1)[0] == path[1]);
        assert(trace::node_at(n, path) == trace::node_at(body, path.skip(2)));
        assert(path.skip(2).last() == path.last());
        let found = lemma_item_reached(body, before, mods.push(name), path.skip(2));
        assert(mods.push(name) + modules_on(body, path.skip(2)) =~= mods + modules_on(n, path));
        lemma_kinds();
        let x = trace::node_at(n, path);
        lemma_extends_on(
            with_item(
                x,
                found,
                mods + modules_on(n, path),
                waiting(around(n, path).take(path.last())),
            ),
            after,
            lang_rust::with_items(n.children, f, mods).0,
        );
        if trace::numbered(n) {
            trace::lemma_child_numbered(n, i);
            trace::lemma_child_numbered(c, path[1]);
            trace::lemma_holds_child(c, path[1], x.id);
            trace::lemma_holds_child(n, i, x.id);
            let own = with_item(
                x,
                found,
                mods + modules_on(n, path),
                waiting(around(n, path).take(path.last())),
            );
            assert forall|id: usize|
                #[trigger] own.draft.scope.contains_key(id) && trace::holds(x, id) implies end.draft.scope.contains_key(
                id,
            ) && end.draft.scope[id] == own.draft.scope[id] by {
                assert(after.draft.scope.contains_key(id));
                lemma_item_held(body, path.skip(2), id);
                trace::lemma_holds_child(c, path[1], id);
                trace::lemma_none_behind(n, i, id);
            }
        }
        found
    }
}

/// What the item at the end of `path` holds, the node above holds.
proof fn lemma_item_held(n: NodeView, path: Seq<int>, id: usize)
    requires
        leads_to_item(n, path),
        trace::holds(trace::node_at(n, path), id),
    ensures
        trace::holds(n, id),
    decreases path.len(),
{
    reveal_with_fuel(trace::node_at, 3);
    let c = n.children[path[0]];
    if path.len() == 1 {
        assert(path.skip(1) =~= Seq::<int>::empty());
    } else {
        assert(path.skip(1).skip(1) =~= path.skip(2));
        assert(path.skip(1)[0] == path[1]);
        lemma_item_held(c.children[path[1]], path.skip(2), id);
        trace::lemma_holds_child(c, path[1], id);
    }
    trace::lemma_holds_child(n, path[0], id);
}

/// Has `e` the scopes of `d` that belong to `x`?
spec fn keeps_own_scopes(x: NodeView, d: DraftView, e: DraftView) -> bool {
    forall|id: usize| #[trigger]
        d.scope.contains_key(id) && trace::holds(x, id) ==> e.scope.contains_key(id) && e.scope[id]
            == d.scope[id]
}

proof fn lemma_methods_keep(ns: Seq<NodeView>, ty: Seq<char>, f: Found)
    ensures
        trace::keeps_scopes(f.draft, lang_rust::with_methods(ns, ty, f).draft, ns),
    decreases ns.len(),
{
    if ns.len() > 0 {
        let before = lang_rust::with_methods(ns.drop_last(), ty, f).draft;
        let e = lang_rust::with_methods(ns, ty, f).draft;
        lemma_methods_keep(ns.drop_last(), ty, f);
        assert forall|id: usize| #[trigger]
            f.draft.scope.contains_key(id) && trace::none_holds(ns, id) implies e.scope.contains_key(
            id,
        ) && e.scope[id] == f.draft.scope[id] by {
            trace::lemma_none_before(ns, id);
            trace::lemma_holds_own(ns.last());
            assert(ns[ns.len() - 1] == ns.last());
            assert(before.scope.contains_key(id));
        }
    }
}

proof fn lemma_step_keeps(n: NodeView, f: Found, mods: Seq<Seq<char>>, attrs: Seq<NodeView>)
    ensures
        trace::keeps_scopes(f.draft, with_item(n, f, mods, attrs).draft, seq![n]),
    decreases n, 0nat,
{
    let e = with_item(n, f, mods, attrs).draft;
    trace::lemma_holds_own(n);
    if let Some(body) = syntax::field_of(n, "body"@) {
        syntax::lemma_field_below(n, "body"@);
        if n.kind == "impl_item"@ {
            if let Some(ty) = syntax::field_of(n, "type"@) {
                if let Some(t) = ty.text {
                    lemma_methods_keep(body.children, lang_rust::without_generics(t), f);
                }
            }
        } else if let Some(name) = syntax::field_of(n, "name"@) {
            if let Some(t) = name.text {
                lemma_items_keep(body.children, f, mods.push(t));
            }
        }
    }
    assert forall|id: usize| #[trigger]
        f.draft.scope.contains_key(id) && trace::none_holds(seq![n], id) implies e.scope.contains_key(
        id,
    ) && e.scope[id] == f.draft.scope[id] by {
        assert(!trace::holds(seq![n][0], id));
        if let Some(body) = syntax::field_of(n, "body"@) {
            assert(n.children[syntax::field_position(n.children, "body"@)] == body);
            trace::lemma_none_below(n, body, id);
        }
    }
}

proof fn lemma_items_keep(ns: Seq<NodeView>, f: Found, mods: Seq<Seq<char>>)
    ensures
        trace::keeps_scopes(f.draft, lang_rust::with_items(ns, f, mods).0.draft, ns),
    decreases ns, 1nat,
{
    if ns.len() > 0 {
        let (before, attrs) = lang_rust::with_items(ns.drop_last(), f, mods);
        let e = lang_rust::with_items(ns, f, mods).0.draft;
        lemma_items_keep(ns.drop_last(), f, mods);
        lemma_step_keeps(ns.last(), before, mods, attrs);
        assert forall|id: usize| #[trigger]
            f.draft.scope.contains_key(id) && trace::none_holds(ns, id) implies e.scope.contains_key(
            id,
        ) && e.scope[id] == f.draft.scope[id] by {
            trace::lemma_none_before(ns, id);
            assert(before.draft.scope.contains_key(id));
            assert(trace::none_holds(seq![ns.last()], id));
        }
    }
}

proof fn lemma_rest_keeps(all: Seq<NodeView>, f: Found, mods: Seq<Seq<char>>, i: int, k: int)
    requires
        0 <= i <= k <= all.len(),
    ensures
        trace::keeps_scopes(
            lang_rust::with_items(all.take(i), f, mods).0.draft,
            lang_rust::with_items(all.take(k), f, mods).0.draft,
            all.subrange(i, k),
        ),
    decreases k - i,
{
    if i < k {
        let start = lang_rust::with_items(all.take(i), f, mods).0.draft;
        let (before, attrs) = lang_rust::with_items(all.take(k - 1), f, mods);
        let e = lang_rust::with_items(all.take(k), f, mods).0.draft;
        let ns = all.subrange(i, k);
        lemma_rest_keeps(all, f, mods, i, k - 1);
        assert(all.take(k).drop_last() =~= all.take(k - 1));
        assert(ns.drop_last() =~= all.subrange(i, k - 1));
        lemma_step_keeps(all[k - 1], before, mods, attrs);
        assert forall|id: usize| #[trigger]
            start.scope.contains_key(id) && trace::none_holds(ns, id) implies e.scope.contains_key(
            id,
        ) && e.scope[id] == start.scope[id] by {
            trace::lemma_none_before(ns, id);
            assert(before.draft.scope.contains_key(id));
            assert(trace::none_holds(seq![ns.last()], id));
        }
    }
}

proof fn lemma_rest_extends(
    all: Seq<NodeView>,
    f: Found,
    mods: Seq<Seq<char>>,
    i: int,
    k: int,
)
    requires
        0 <= i <= k <= all.len(),
    ensures
        extends(
            lang_rust::with_items(all.take(i), f, mods).0,
            lang_rust::with_items(all.take(k), f, mods).0,
        ),
    decreases k - i,
{
    if i < k {
        lemma_rest_extends(all, f, mods, i, k - 1);
        let (before, attrs) = lang_rust::with_items(all.take(k - 1), f, mods);
        assert(all.take(k).drop_last() =~= all.take(k - 1));
        lemma_step_extends(all[k - 1], before, mods, attrs);
        lemma_extends_on(
            lang_rust::with_items(all.take(i), f, mods).0,
            before,
            lang_rust::with_items(all.take(k), f, mods).0,
        );
    }
}

proof fn lemma_kinds()
    ensures
        "mod_item"@ != "attribute_item"@,
        "mod_item"@ != "line_comment"@,
        "mod_item"@ != "block_comment"@,
        "mod_item"@ != "function_item"@,
        "mod_item"@ != "impl_item"@,
        "mod_item"@ != "struct_item"@,
        "mod_item"@ != "enum_item"@,
        "mod_item"@ != "trait_item"@,
        "function_item"@ != "attribute_item"@,
        "function_item"@ != "line_comment"@,
        "function_item"@ != "block_comment"@,
        "impl_item"@ != "attribute_item"@,
        "impl_item"@ != "line_comment"@,
        "impl_item"@ != "block_comment"@,
        "impl_item"@ != "function_item"@,
        "use_declaration"@ != "attribute_item"@,
        "use_declaration"@ != "line_comment"@,
        "use_declaration"@ != "block_comment"@,
        "use_declaration"@ != "function_item"@,
        "use_declaration"@ != "impl_item"@,
        "use_declaration"@ != "mod_item"@,
        "use_declaration"@ != "struct_item"@,
        "use_declaration"@ != "enum_item"@,
        "use_declaration"@ != "trait_item"@,
        "struct_item"@ != "attribute_item"@,
        "struct_item"@ != "line_comment"@,
        "struct_item"@ != "block_comment"@,
        "struct_item"@ != "function_item"@,
        "struct_item"@ != "impl_item"@,
        "enum_item"@ != "attribute_item"@,
        "enum_item"@ != "line_comment"@,
        "enum_item"@ != "block_comment"@,
        "enum_item"@ != "function_item"@,
        "enum_item"@ != "impl_item"@,
        "trait_item"@ != "attribute_item"@,
        "trait_item"@ != "line_comment"@,
        "trait_item"@ != "block_comment"@,
        "trait_item"@ != "function_item"@,
        "trait_item"@ != "impl_item"@,
{
    reveal_strlit("mod_item");
    reveal_strlit("attribute_item");
    reveal_strlit("line_comment");
    reveal_strlit("block_comment");
    reveal_strlit("function_item");
    reveal_strlit("impl_item");
    reveal_strlit("struct_item");
    reveal_strlit("enum_item");
    reveal_strlit("trait_item");
    reveal_strlit("use_declaration");
    assert("mod_item"@[0] == 'm' && "attribute_item"@[0] == 'a' && "line_comment"@[0] == 'l');
    assert("block_comment"@[0] == 'b' && "function_item"@[0] == 'f' && "impl_item"@[0] == 'i');
    assert("struct_item"@[0] == 's' && "enum_item"@[0] == 'e' && "trait_item"@[0] == 't');
    assert("use_declaration"@[0] == 'u');
}

/// What is found at the end of `path` is found in the file.
proof fn lemma_found(root: NodeView, path: Seq<int>) -> (before: Found)
    requires
        leads_to_item(root, path),
    ensures
        extends(
            with_item(
                trace::node_at(root, path),
                before,
                modules_on(root, path),
                waiting(around(root, path).take(path.last())),
            ),
            lang_rust::found_in(root),
        ),
        0 <= path.last() < around(root, path).len(),
        around(root, path)[path.last()] == trace::node_at(root, path),
        trace::numbered(root) ==> keeps_own_scopes(
            trace::node_at(root, path),
            with_item(
                trace::node_at(root, path),
                before,
                modules_on(root, path),
                waiting(around(root, path).take(path.last())),
            ).draft,
            lang_rust::found_in(root).draft,
        ),
{
    let none = Seq::<Seq<char>>::empty();
    assert(none + modules_on(root, path) =~= modules_on(root, path));
    lemma_item_reached(
        root,
        Found {
            draft: DraftView::empty().with_def(
                draft::module_def(root, lang_rust::standing_alone(root.children)),
            ),
            imports: Seq::empty(),
        },
        none,
        path,
    )
}

/// Is the definition at `i` one of `x`, with this name, kind and chain?
pub open spec fn defines(
    found: ExtractionView,
    i: int,
    x: NodeView,
    name: Seq<char>,
    kind: DefKind,
    test_id: Option<Seq<Seq<char>>>,
) -> bool {
    &&& 0 <= i < found.defs.len()
    &&& found.defs[i].name == name
    &&& found.defs[i].kind == kind
    &&& found.defs[i].test_id == test_id
    &&& found.defs[i].start_line == syntax::line_of(x.start_row)
    &&& found.defs[i].end_line == syntax::line_of(x.end_row)
    &&& !found.defs[i].computed_name
}

/// A function that carries an attribute such as `#[test]`, `#[tokio::test]`,
/// `#[bench]` or `#[rstest]` is a test, identified by the modules around it
/// and its name; one that carries none is a function.
pub proof fn law_marked_functions_are_tests(root: NodeView, path: Seq<int>, name: Seq<char>)
    requires
        leads_to_item(root, path),
        trace::node_at(root, path).kind == "function_item"@,
        syntax::field_of(trace::node_at(root, path), "name"@) matches Some(n) && n.text == Some(
            name,
        ),
    ensures
        is_marked(around(root, path), path.last()) ==> exists|i: int| #[trigger]
            defines(
                lang_rust::extracted(root),
                i,
                trace::node_at(root, path),
                name,
                DefKind::TestCase,
                Some(modules_on(root, path).push(name)),
            ),
        !is_marked(around(root, path), path.last()) ==> exists|i: int| #[trigger]
            defines(
                lang_rust::extracted(root),
                i,
                trace::node_at(root, path),
                name,
                DefKind::Function,
                None,
            ),
{
    let found = lang_rust::extracted(root);
    let before = lemma_found(root, path);
    lemma_marked(around(root, path), path.last());
    lemma_kinds();
    let x = trace::node_at(root, path);
    let after = with_item(
        x,
        before,
        modules_on(root, path),
        waiting(around(root, path).take(path.last())),
    );
    let i = before.draft.defs.len() as int;
    assert(after.draft.defs[i] == after.draft.defs.last());
    assert(found.defs[i] == after.draft.defs[i]);
    if is_marked(around(root, path), path.last()) {
        assert(defines(
            found,
            i,
            x,
            name,
            DefKind::TestCase,
            Some(modules_on(root, path).push(name)),
        ));
    } else {
        assert(defines(found, i, x, name, DefKind::Function, None));
    }
}

/// A struct, an enum or a trait is a definition under its name.
pub proof fn law_types_are_defined(root: NodeView, path: Seq<int>, name: Seq<char>)
    requires
        leads_to_item(root, path),
        trace::node_at(root, path).kind == "struct_item"@ || trace::node_at(root, path).kind
            == "enum_item"@ || trace::node_at(root, path).kind == "trait_item"@,
        syntax::field_of(trace::node_at(root, path), "name"@) matches Some(n) && n.text == Some(
            name,
        ),
    ensures
        exists|i: int| #[trigger]
            defines(
                lang_rust::extracted(root),
                i,
                trace::node_at(root, path),
                name,
                DefKind::Class,
                None,
            ),
{
    let found = lang_rust::extracted(root);
    let before = lemma_found(root, path);
    lemma_kinds();
    let x = trace::node_at(root, path);
    let after = with_item(
        x,
        before,
        modules_on(root, path),
        waiting(around(root, path).take(path.last())),
    );
    let i = before.draft.defs.len() as int;
    assert(found.defs[i] == after.draft.defs[i]);
    assert(defines(found, i, x, name, DefKind::Class, None));
}

/// A function in an `impl` block is a method of the type that the block is
/// for, which is named without its generic arguments.
pub proof fn law_methods_are_defined(
    root: NodeView,
    path: Seq<int>,
    k: int,
    ty: Seq<char>,
    generics: Seq<char>,
    name: Seq<char>,
)
    requires
        leads_to_item(root, path),
        trace::node_at(root, path).kind == "impl_item"@,
        syntax::field_of(trace::node_at(root, path), "type"@) matches Some(t) && t.text == Some(
            ty + generics,
        ),
        !ty.contains('<'),
        generics.len() == 0 || generics[0] == '<',
        syntax::field_of(trace::node_at(root, path), "body"@) matches Some(body) && 0 <= k
            < body.children.len() && body.children[k].kind == "function_item"@ && (syntax::field_of(
            body.children[k],
            "name"@,
        ) matches Some(n) && n.text == Some(name)),
    ensures
        exists|i: int| #[trigger]
            defines(
                lang_rust::extracted(root),
                i,
                syntax::field_of(trace::node_at(root, path), "body"@).unwrap().children[k],
                ty + "."@ + name,
                DefKind::Method,
                None,
            ),
{
    let found = lang_rust::extracted(root);
    let before = lemma_found(root, path);
    lemma_kinds();
    let x = trace::node_at(root, path);
    let ns = syntax::field_of(x, "body"@).unwrap().children;
    if generics.len() == 0 {
        assert(ty + generics =~= ty);
        text::lemma_split_whole(ty, '<');
    } else {
        assert(ty + generics =~= ty + seq!['<'] + generics.skip(1));
        text::lemma_split_cat(ty, generics.skip(1), '<');
        text::lemma_split_whole(ty, '<');
    }
    assert(lang_rust::without_generics(ty + generics) == ty);
    let a = lang_rust::with_methods(ns.take(k), ty, before);
    let b = lang_rust::with_methods(ns.take(k + 1), ty, before);
    assert(ns.take(k + 1).drop_last() =~= ns.take(k));
    assert(ns.take(k + 1).last() == ns[k]);
    lemma_rest_methods(ns, ty, before, k + 1, ns.len() as int);
    assert(ns.take(ns.len() as int) =~= ns);
    let all = lang_rust::with_methods(ns, ty, before);
    let i = a.draft.defs.len() as int;
    assert(b.draft.defs[i].name == ty + "."@ + name);
    assert(all.draft.defs[i] == b.draft.defs[i]);
    assert(found.defs[i] == all.draft.defs[i]);
    assert(defines(found, i, ns[k], ty + "."@ + name, DefKind::Method, None));
}

proof fn lemma_rest_methods(ns: Seq<NodeView>, ty: Seq<char>, f: Found, i: int, k: int)
    requires
        0 <= i <= k <= ns.len(),
    ensures
        extends(
            lang_rust::with_methods(ns.take(i), ty, f),
            lang_rust::with_methods(ns.take(k), ty, f),
        ),
    decreases k - i,
{
    if i < k {
        lemma_rest_methods(ns, ty, f, i, k - 1);
        assert(ns.take(k).drop_last() =~= ns.take(k - 1));
        lemma_extends_on(
            lang_rust::with_methods(ns.take(i), ty, f),
            lang_rust::with_methods(ns.take(k - 1), ty, f),
            lang_rust::with_methods(ns.take(k), ty, f),
        );
    }
}

/// A `use` declaration imports what it names, and a module without a body is
/// an import too.
pub proof fn law_uses_and_modules_are_imports(root: NodeView, path: Seq<int>, what: Seq<char>)
    requires
        leads_to_item(root, path),
    ensures
        trace::node_at(root, path).kind == "use_declaration"@ && (syntax::field_of(
            trace::node_at(root, path),
            "argument"@,
        ) matches Some(arg) && arg.text == Some(what)) ==> lang_rust::extracted(
            root,
        ).imports.contains(
            ImportView {
                raw: "use "@ + what,
                line: syntax::line_of(trace::node_at(root, path).start_row),
            },
        ),
        trace::node_at(root, path).kind == "mod_item"@ && (syntax::field_of(
            trace::node_at(root, path),
            "name"@,
        ) matches Some(name) && name.text == Some(what)) && syntax::field_of(
            trace::node_at(root, path),
            "body"@,
        ) is None ==> lang_rust::extracted(root).imports.contains(
            ImportView {
                raw: "mod "@ + what,
                line: syntax::line_of(trace::node_at(root, path).start_row),
            },
        ),
{
    let found = lang_rust::extracted(root);
    let before = lemma_found(root, path);
    lemma_kinds();
    let x = trace::node_at(root, path);
    let after = with_item(
        x,
        before,
        modules_on(root, path),
        waiting(around(root, path).take(path.last())),
    );
    if after.imports.len() > before.imports.len() {
        let i = before.imports.len() as int;
        assert(found.imports[i] == after.imports[i]);
    }
}

/// Do the references in `x` come from a definition of it with this name?
pub open spec fn scopes(root: NodeView, x: NodeView, name: Seq<char>) -> bool {
    let d = lang_rust::found_in(root).draft;
    &&& d.scope.contains_key(x.id)
    &&& d.scope[x.id] < d.defs.len()
    &&& d.defs[d.scope[x.id] as int].name == name
    &&& d.defs[d.scope[x.id] as int].start_line == syntax::line_of(x.start_row)
}

/// A function, a struct, an enum, a trait and a method are what the
/// references in them come from.
pub proof fn law_definitions_are_scopes(
    root: NodeView,
    path: Seq<int>,
    k: int,
    ty: Seq<char>,
    name: Seq<char>,
)
    requires
        trace::numbered(root),
        leads_to_item(root, path),
        lang_rust::extracted(root).defs.len() <= usize::MAX,
    ensures
        ({
            let x = trace::node_at(root, path);
            let is_own = x.kind == "function_item"@ || x.kind == "struct_item"@ || x.kind
                == "enum_item"@ || x.kind == "trait_item"@;
            is_own && (syntax::field_of(x, "name"@) matches Some(n) && n.text == Some(name))
                ==> scopes(root, x, name)
        }),
        is_method_of(trace::node_at(root, path), k, ty, name) ==> scopes(
            root,
            syntax::field_of(trace::node_at(root, path), "body"@).unwrap().children[k],
            ty + "."@ + name,
        ),
{
    let found = lang_rust::extracted(root);
    let before = lemma_found(root, path);
    lemma_kinds();
    let x = trace::node_at(root, path);
    let after = with_item(
        x,
        before,
        modules_on(root, path),
        waiting(around(root, path).take(path.last())),
    );
    trace::lemma_holds_own(x);
    let i = before.draft.defs.len() as int;
    if x.kind == "impl_item"@ {
        if is_method_of(x, k, ty, name) {
            let body = syntax::field_of(x, "body"@).unwrap();
            let b = syntax::field_position(x.children, "body"@);
            let ns = body.children;
            let m = ns[k];
            text::lemma_split_whole(ty, '<');
            let a = lang_rust::with_methods(ns.take(k), ty, before);
            let own = lang_rust::with_methods(ns.take(k + 1), ty, before);
            assert(ns.take(k + 1).drop_last() =~= ns.take(k));
            assert(ns.take(k + 1).last() == m);
            lemma_rest_methods(ns, ty, before, k + 1, ns.len() as int);
            lemma_rest_methods_keep(ns, ty, before, k + 1, ns.len() as int);
            assert(ns.take(ns.len() as int) =~= ns);
            assert(ns.subrange(k + 1, ns.len() as int) =~= ns.skip(k + 1));
            lemma_item_numbered(root, path);
            trace::lemma_child_numbered(x, b);
            trace::lemma_holds_own(m);
            trace::lemma_none_behind(body, k, m.id);
            trace::lemma_holds_child(body, k, m.id);
            trace::lemma_holds_child(x, b, m.id);
            assert(own.draft.scope.contains_key(m.id));
            assert(after.draft.scope.contains_key(m.id));
            let at = a.draft.defs.len() as int;
            assert(own.draft.defs[at] == own.draft.defs.last());
            assert(after.draft.defs[at] == own.draft.defs[at]);
            assert(found.defs[at] == after.draft.defs[at]);
        }
    } else if let Some(n) = syntax::field_of(x, "name"@) {
        if n.text == Some(name) && (x.kind == "function_item"@ || x.kind == "struct_item"@ || x.kind
            == "enum_item"@ || x.kind == "trait_item"@) {
            assert(after.draft.scope.contains_key(x.id));
            assert(after.draft.defs[i] == after.draft.defs.last());
            assert(found.defs[i] == after.draft.defs[i]);
        }
    }
}

/// Is the member `k` of the `impl` block `x` a method `name` of `ty`?
pub open spec fn is_method_of(x: NodeView, k: int, ty: Seq<char>, name: Seq<char>) -> bool {
    &&& x.kind == "impl_item"@
    &&& !ty.contains('<')
    &&& syntax::field_of(x, "type"@) matches Some(t) && t.text == Some(ty)
    &&& syntax::field_of(x, "body"@) matches Some(body) && 0 <= k < body.children.len()
        && body.children[k].kind == "function_item"@ && (syntax::field_of(
        body.children[k],
        "name"@,
    ) matches Some(n) && n.text == Some(name))
}

proof fn lemma_item_numbered(n: NodeView, path: Seq<int>)
    requires
        trace::numbered(n),
        leads_to_item(n, path),
    ensures
        trace::numbered(trace::node_at(n, path)),
    decreases path.len(),
{
    reveal_with_fuel(trace::node_at, 3);
    let c = n.children[path[0]];
    trace::lemma_child_numbered(n, path[0]);
    if path.len() == 1 {
        assert(path.skip(1) =~= Seq::<int>::empty());
    } else {
        assert(path.skip(1).skip(1) =~= path.skip(2));
        assert(path.skip(1)[0] == path[1]);
        trace::lemma_child_numbered(c, path[1]);
        lemma_item_numbered(c.children[path[1]], path.skip(2));
    }
}

proof fn lemma_rest_methods_keep(ns: Seq<NodeView>, ty: Seq<char>, f: Found, i: int, k: int)
    requires
        0 <= i <= k <= ns.len(),
    ensures
        trace::keeps_scopes(
            lang_rust::with_methods(ns.take(i), ty, f).draft,
            lang_rust::with_methods(ns.take(k), ty, f).draft,
            ns.subrange(i, k),
        ),
    decreases k - i,
{
    if i < k {
        let start = lang_rust::with_methods(ns.take(i), ty, f).draft;
        let before = lang_rust::with_methods(ns.take(k - 1), ty, f).draft;
        let e = lang_rust::with_methods(ns.take(k), ty, f).draft;
        let part = ns.subrange(i, k);
        lemma_rest_methods_keep(ns, ty, f, i, k - 1);
        assert(ns.take(k).drop_last() =~= ns.take(k - 1));
        assert(part.drop_last() =~= ns.subrange(i, k - 1));
        trace::lemma_holds_own(ns[k - 1]);
        assert forall|id: usize| #[trigger]
            start.scope.contains_key(id) && trace::none_holds(part, id) implies e.scope.contains_key(
            id,
        ) && e.scope[id] == start.scope[id] by {
            trace::lemma_none_before(part, id);
            assert(before.scope.contains_key(id));
        }
    }
}

/// Is this a name?
pub open spec fn is_name(n: NodeView) -> bool {
    n.kind == "identifier"@ || n.kind == "type_identifier"@
}

/// Does nothing below this node refer to anything, as in imports and
/// attributes?
pub open spec fn is_quiet(n: NodeView) -> bool {
    n.kind == "use_declaration"@ || n.kind == "attribute_item"@ || n.kind
        == "inner_attribute_item"@
}

/// Do the tokens call a function at `i`: a name with round brackets behind
/// it?
pub open spec fn is_token_call(ns: Seq<NodeView>, i: int) -> bool {
    &&& 0 <= i && i + 1 < ns.len()
    &&& ns[i].kind == "identifier"@
    &&& ns[i + 1].kind == "token_tree"@
    &&& text::starts_with(syntax::text_of(ns[i + 1]), "("@)
}

/// Does `path` stay with what is evaluated as a value of its own? From a
/// call it goes to the arguments or to what the callee is computed from; a
/// name that is called is no value of its own.
pub open spec fn evaluated(n: NodeView, path: Seq<int>) -> bool
    decreases path.len(), 0nat,
{
    path.len() == 0 || {
        let c = n.children[path[0]];
        &&& 0 <= path[0] < n.children.len()
        &&& !is_quiet(n)
        &&& !is_name(n)
        &&& if n.kind == "call_expression"@ {
            if path[0] == syntax::field_position(n.children, "function"@) {
                computes_callee(c, path.skip(1))
            } else {
                path[0] == syntax::field_position(n.children, "arguments"@) && evaluated(
                    c,
                    path.skip(1),
                )
            }
        } else {
            &&& n.kind == "token_tree"@ ==> !is_token_call(n.children, path[0])
            &&& evaluated(c, path.skip(1))
        }
    }
}

/// Does `path` lead from the callee `f`, with or without a turbofish, to
/// what it is computed from?
pub open spec fn computes_callee(f: NodeView, path: Seq<int>) -> bool
    decreases path.len(), 2nat,
{
    if f.kind == "generic_function"@ && syntax::field_of(f, "function"@) is Some {
        &&& path.len() > 0
        &&& path[0] == syntax::field_position(f.children, "function"@)
        &&& computes_called(f.children[path[0]], path.skip(1))
    } else {
        computes_called(f, path)
    }
}

/// Does `path` lead from what is called to what it is computed from?
pub open spec fn computes_called(g: NodeView, path: Seq<int>) -> bool
    decreases path.len(), 1nat,
{
    if g.kind == "field_expression"@ {
        &&& path.len() > 0
        &&& 0 <= path[0] < g.children.len()
        &&& path[0] == syntax::field_position(g.children, "value"@)
        &&& syntax::field_of(g, "field"@) is Some
        &&& g.children[path[0]].kind != "identifier"@
        &&& evaluated(g.children[path[0]], path.skip(1))
    } else {
        &&& g.kind != "identifier"@
        &&& g.kind != "scoped_identifier"@
        &&& evaluated(g, path)
    }
}

/// The definition that the node at the end of `path` stands in: that of the
/// last value on the way which opens a scope.
pub open spec fn scope_on(d: DraftView, n: NodeView, path: Seq<int>, current: usize) -> usize
    decreases path.len(), 0nat,
{
    let def = d.scope_at(n, current);
    if path.len() == 0 {
        def
    } else {
        let c = n.children[path[0]];
        if n.kind == "call_expression"@ && path[0] == syntax::field_position(
            n.children,
            "function"@,
        ) {
            scope_at_callee(d, c, path.skip(1), def)
        } else {
            scope_on(d, c, path.skip(1), def)
        }
    }
}

/// The same from the callee `f` on.
pub open spec fn scope_at_callee(d: DraftView, f: NodeView, path: Seq<int>, def: usize) -> usize
    decreases path.len(), 2nat,
{
    if f.kind == "generic_function"@ && syntax::field_of(f, "function"@) is Some && path.len()
        > 0 {
        scope_at_called(d, f.children[path[0]], path.skip(1), def)
    } else {
        scope_at_called(d, f, path, def)
    }
}

/// The same from what is called on.
pub open spec fn scope_at_called(d: DraftView, g: NodeView, path: Seq<int>, def: usize) -> usize
    decreases path.len(), 1nat,
{
    if g.kind == "field_expression"@ && path.len() > 0 {
        scope_on(d, g.children[path[0]], path.skip(1), def)
    } else {
        scope_on(d, g, path, def)
    }
}

proof fn lemma_value_kinds()
    ensures
        "call_expression"@ != "use_declaration"@,
        "call_expression"@ != "attribute_item"@,
        "call_expression"@ != "inner_attribute_item"@,
        "call_expression"@ != "token_tree"@,
        "call_expression"@ != "identifier"@,
        "call_expression"@ != "type_identifier"@,
        "token_tree"@ != "use_declaration"@,
        "token_tree"@ != "attribute_item"@,
        "token_tree"@ != "inner_attribute_item"@,
        "token_tree"@ != "identifier"@,
        "token_tree"@ != "type_identifier"@,
        "identifier"@ != "use_declaration"@,
        "identifier"@ != "attribute_item"@,
        "identifier"@ != "inner_attribute_item"@,
        "type_identifier"@ != "use_declaration"@,
        "type_identifier"@ != "attribute_item"@,
        "type_identifier"@ != "inner_attribute_item"@,
        "field_expression"@ != "identifier"@,
        "field_expression"@ != "scoped_identifier"@,
        "identifier"@ != "scoped_identifier"@,
{
    reveal_strlit("call_expression");
    reveal_strlit("use_declaration");
    reveal_strlit("attribute_item");
    reveal_strlit("inner_attribute_item");
    reveal_strlit("token_tree");
    reveal_strlit("identifier");
    reveal_strlit("type_identifier");
    reveal_strlit("field_expression");
    reveal_strlit("scoped_identifier");
    assert("call_expression"@[0] == 'c' && "use_declaration"@[0] == 'u');
    assert("attribute_item"@[0] == 'a' && "inner_attribute_item"@[0] == 'i');
    assert("inner_attribute_item"@[1] == 'n' && "identifier"@[1] == 'd');
    assert("token_tree"@[0] == 't' && "token_tree"@[1] == 'o' && "type_identifier"@[1] == 'y');
    assert("identifier"@[0] == 'i' && "type_identifier"@[0] == 't');
    assert("field_expression"@[0] == 'f' && "scoped_identifier"@[0] == 's');
}

proof fn lemma_refs_in(
    ns: Seq<NodeView>,
    d: DraftView,
    known: Set<Seq<char>>,
    current: usize,
    i: int,
)
    requires
        0 <= i < ns.len(),
    ensures
        trace::among(
            lang_rust::refs_of(ns[i], d, known, current),
            lang_rust::refs_in(ns, d, known, current),
        ),
    decreases ns.len(),
{
    if i < ns.len() - 1 {
        lemma_refs_in(ns.drop_last(), d, known, current, i);
    }
    trace::lemma_among_sum(
        lang_rust::refs_of(ns[i], d, known, current),
        lang_rust::refs_in(ns.drop_last(), d, known, current),
        lang_rust::refs_of(ns.last(), d, known, current),
    );
}

/// The references of the token at `i` are found.
proof fn lemma_token_refs(
    all: Seq<NodeView>,
    k: int,
    d: DraftView,
    known: Set<Seq<char>>,
    current: usize,
    i: int,
)
    requires
        0 <= i < k <= all.len(),
    ensures
        trace::among(
            if lang_rust::calls_at(all, i) {
                RefsView::call(draft::ref_at(current, syntax::text_of(all[i]), None, all[i]))
            } else {
                lang_rust::refs_of(all[i], d, known, current)
            },
            lang_rust::token_refs(all.take(k), all, d, known, current),
        ),
    decreases k,
{
    let ns = all.take(k);
    assert(ns.drop_last() =~= all.take(k - 1));
    if i < k - 1 {
        lemma_token_refs(all, k - 1, d, known, current, i);
    }
    let own = if lang_rust::calls_at(all, i) {
        RefsView::call(draft::ref_at(current, syntax::text_of(all[i]), None, all[i]))
    } else {
        lang_rust::refs_of(all[i], d, known, current)
    };
    let last = if lang_rust::calls_at(all, k - 1) {
        RefsView::call(draft::ref_at(current, syntax::text_of(all[k - 1]), None, all[k - 1]))
    } else {
        lang_rust::refs_of(all[k - 1], d, known, current)
    };
    trace::lemma_among_sum(
        own,
        lang_rust::token_refs(ns.drop_last(), all, d, known, current),
        last,
    );
}

/// The references of the node at the end of `path` are found.
proof fn lemma_reached(
    n: NodeView,
    d: DraftView,
    known: Set<Seq<char>>,
    current: usize,
    path: Seq<int>,
) -> (cur: usize)
    requires
        evaluated(n, path),
    ensures
        trace::among(
            lang_rust::refs_of(trace::node_at(n, path), d, known, cur),
            lang_rust::refs_of(n, d, known, current),
        ),
        d.scope_at(trace::node_at(n, path), cur) == scope_on(d, n, path, current),
    decreases path.len(), 0nat,
{
    lemma_value_kinds();
    if path.len() == 0 {
        current
    } else {
        let def = d.scope_at(n, current);
        let c = n.children[path[0]];
        let x = trace::node_at(n, path);
        if n.kind == "call_expression"@ {
            let callee = match syntax::field_of(n, "function"@) {
                Some(f) => lang_rust::callee_refs(lang_rust::called(f), n, d, known, def),
                None => RefsView::none(),
            };
            let cur = if path[0] == syntax::field_position(n.children, "function"@) {
                lemma_callee_reached(c, n, d, known, def, path.skip(1))
            } else {
                lemma_reached(c, d, known, def, path.skip(1))
            };
            if let Some(args) = syntax::field_of(n, "arguments"@) {
                trace::lemma_among_sum(
                    lang_rust::refs_of(x, d, known, cur),
                    callee,
                    lang_rust::refs_of(args, d, known, def),
                );
            }
            cur
        } else {
            let cur = lemma_reached(c, d, known, def, path.skip(1));
            if n.kind == "token_tree"@ {
                lemma_token_refs(n.children, n.children.len() as int, d, known, def, path[0]);
                assert(n.children.take(n.children.len() as int) =~= n.children);
            } else {
                lemma_refs_in(n.children, d, known, def, path[0]);
            }
            cur
        }
    }
}

proof fn lemma_callee_reached(
    f: NodeView,
    n: NodeView,
    d: DraftView,
    known: Set<Seq<char>>,
    def: usize,
    path: Seq<int>,
) -> (cur: usize)
    requires
        computes_callee(f, path),
    ensures
        trace::among(
            lang_rust::refs_of(trace::node_at(f, path), d, known, cur),
            lang_rust::callee_refs(lang_rust::called(f), n, d, known, def),
        ),
        d.scope_at(trace::node_at(f, path), cur) == scope_at_callee(d, f, path, def),
    decreases path.len(), 2nat,
{
    if f.kind == "generic_function"@ && syntax::field_of(f, "function"@) is Some {
        lemma_called_reached(f.children[path[0]], n, d, known, def, path.skip(1))
    } else {
        lemma_called_reached(f, n, d, known, def, path)
    }
}

proof fn lemma_called_reached(
    g: NodeView,
    n: NodeView,
    d: DraftView,
    known: Set<Seq<char>>,
    def: usize,
    path: Seq<int>,
) -> (cur: usize)
    requires
        computes_called(g, path),
    ensures
        trace::among(
            lang_rust::refs_of(trace::node_at(g, path), d, known, cur),
            lang_rust::callee_refs(g, n, d, known, def),
        ),
        d.scope_at(trace::node_at(g, path), cur) == scope_at_called(d, g, path, def),
    decreases path.len(), 1nat,
{
    lemma_value_kinds();
    if g.kind == "field_expression"@ {
        let value = g.children[path[0]];
        let field = syntax::field_of(g, "field"@).unwrap();
        let cur = lemma_reached(value, d, known, def, path.skip(1));
        let own = RefsView::call(
            draft::ref_at(def, syntax::text_of(field), Some(syntax::text_of(value)), n),
        );
        trace::lemma_among_sum(
            lang_rust::refs_of(trace::node_at(g, path), d, known, cur),
            own,
            lang_rust::refs_of(value, d, known, def),
        );
        cur
    } else {
        lemma_reached(g, d, known, def, path)
    }
}

/// What the call `x` calls: a function by its name, with the path before it,
/// or a method by its name, with its receiver. A turbofish says nothing.
pub open spec fn called_by(x: NodeView) -> Option<(Seq<char>, Option<Seq<char>>)> {
    match syntax::field_of(x, "function"@) {
        Some(f) => {
            let g = if f.kind == "generic_function"@ && syntax::field_of(f, "function"@) is Some {
                syntax::field_of(f, "function"@).unwrap()
            } else {
                f
            };
            if g.kind == "identifier"@ {
                Some((syntax::text_of(g), None))
            } else if g.kind == "scoped_identifier"@ {
                match (syntax::field_of(g, "name"@), syntax::field_of(g, "path"@)) {
                    (Some(name), Some(path)) => Some(
                        (syntax::text_of(name), Some(syntax::text_of(path))),
                    ),
                    (Some(name), None) => Some((syntax::text_of(name), None)),
                    _ => None,
                }
            } else if g.kind == "field_expression"@ {
                match (syntax::field_of(g, "value"@), syntax::field_of(g, "field"@)) {
                    (Some(value), Some(field)) => Some(
                        (syntax::text_of(field), Some(syntax::text_of(value))),
                    ),
                    _ => None,
                }
            } else {
                None
            }
        },
        None => None,
    }
}

/// Every call in a file is found, however deep it stands and also below the
/// receiver of another call, with the name that it calls and the path or the
/// receiver before it; it comes from the definition around it.
pub proof fn law_calls_are_found(
    root: NodeView,
    path: Seq<int>,
    name: Seq<char>,
    qualifier: Option<Seq<char>>,
)
    requires
        evaluated(root, path),
        trace::node_at(root, path).kind == "call_expression"@,
        called_by(trace::node_at(root, path)) == Some((name, qualifier)),
    ensures
        trace::refers(
            lang_rust::extracted(root).calls,
            scope_on(lang_rust::found_in(root).draft, root, path, 0),
            name,
            qualifier,
        ),
{
    lemma_value_kinds();
    let f = lang_rust::found_in(root);
    let d = f.draft;
    let known = lang_rust::def_names(d.defs).union(lang_rust::used_names(root, false));
    let cur = lemma_reached(root, d, known, 0, path);
    let x = trace::node_at(root, path);
    let def = d.scope_at(x, cur);
    let refs = lang_rust::refs_of(root, d, known, 0);
    let r = draft::ref_at(def, name, qualifier, x);
    let here = RefsView::call(r);
    assert(here.calls[0] == r);
    assert(here.calls.contains(r));
    assert(trace::among(here, here));
    let g = lang_rust::called(syntax::field_of(x, "function"@).unwrap());
    let callee = lang_rust::callee_refs(g, x, d, known, def);
    if g.kind == "field_expression"@ {
        let value = syntax::field_of(g, "value"@).unwrap();
        trace::lemma_among_sum(here, here, lang_rust::refs_of(value, d, known, def));
    }
    assert(trace::among(here, callee));
    if let Some(args) = syntax::field_of(x, "arguments"@) {
        trace::lemma_among_sum(here, callee, lang_rust::refs_of(args, d, known, def));
    }
    assert(lang_rust::refs_of(x, d, known, cur).calls.contains(r));
    assert(refs.calls.contains(r));
    trace::lemma_kept(refs.calls, r);
}

/// In the arguments of a macro, which are tokens, a name with round brackets
/// behind it is a call.
pub proof fn law_calls_in_macros_are_found(root: NodeView, path: Seq<int>, i: int)
    requires
        evaluated(root, path),
        trace::node_at(root, path).kind == "token_tree"@,
        is_token_call(trace::node_at(root, path).children, i),
    ensures
        trace::refers(
            lang_rust::extracted(root).calls,
            scope_on(lang_rust::found_in(root).draft, root, path, 0),
            syntax::text_of(trace::node_at(root, path).children[i]),
            None,
        ),
{
    lemma_value_kinds();
    let f = lang_rust::found_in(root);
    let d = f.draft;
    let known = lang_rust::def_names(d.defs).union(lang_rust::used_names(root, false));
    let cur = lemma_reached(root, d, known, 0, path);
    let x = trace::node_at(root, path);
    let def = d.scope_at(x, cur);
    let refs = lang_rust::refs_of(root, d, known, 0);
    let r = draft::ref_at(def, syntax::text_of(x.children[i]), None, x.children[i]);
    let here = RefsView::call(r);
    assert(here.calls[0] == r);
    assert(here.calls.contains(r));
    lemma_token_refs(x.children, x.children.len() as int, d, known, def, i);
    assert(x.children.take(x.children.len() as int) =~= x.children);
    assert(lang_rust::refs_of(x, d, known, cur).calls.contains(r));
    assert(refs.calls.contains(r));
    trace::lemma_kept(refs.calls, r);
}

/// Every name that is evaluated is read, where a definition of the file has
/// it, behind the last dot, and it does not itself declare it.
pub proof fn law_reads_are_found(root: NodeView, path: Seq<int>, k: int)
    requires
        evaluated(root, path),
        is_name(trace::node_at(root, path)),
        !lang_rust::found_in(root).draft.names.contains(trace::node_at(root, path).id),
        0 <= k < lang_rust::extracted(root).defs.len(),
        lang_rust::extracted(root).defs[k].kind != DefKind::ModuleInit,
        syntax::text_of(trace::node_at(root, path)) == text::after_last(
            lang_rust::extracted(root).defs[k].name,
            '.',
        ),
    ensures
        trace::refers(
            lang_rust::extracted(root).reads,
            scope_on(lang_rust::found_in(root).draft, root, path, 0),
            syntax::text_of(trace::node_at(root, path)),
            None,
        ),
{
    lemma_value_kinds();
    let f = lang_rust::found_in(root);
    let d = f.draft;
    let known = lang_rust::def_names(d.defs).union(lang_rust::used_names(root, false));
    let cur = lemma_reached(root, d, known, 0, path);
    lemma_def_name(d.defs, k);
    let x = trace::node_at(root, path);
    let def = d.scope_at(x, cur);
    let refs = lang_rust::refs_of(root, d, known, 0);
    let own = lang_rust::refs_of(x, d, known, cur);
    let r = draft::ref_at(def, syntax::text_of(x), None, x);
    assert(own.reads[0] == r);
    assert(own.reads.contains(r));
    assert(refs.reads.contains(r));
    trace::lemma_kept(refs.reads, r);
}

proof fn lemma_def_name(defs: Seq<DefView>, k: int)
    requires
        0 <= k < defs.len(),
        defs[k].kind != DefKind::ModuleInit,
    ensures
        lang_rust::def_names(defs).contains(text::after_last(defs[k].name, '.')),
    decreases defs.len(),
{
    if k < defs.len() - 1 {
        assert(defs.drop_last()[k] == defs[k]);
        lemma_def_name(defs.drop_last(), k);
    }
}

/// Does the path lead through a `use` declaration, or end at one?
pub open spec fn inside_use(n: NodeView, path: Seq<int>) -> bool
    decreases path.len(),
{
    n.kind == "use_declaration"@ || (path.len() > 0 && inside_use(
        n.children[path[0]],
        path.skip(1),
    ))
}

proof fn lemma_used_name(n: NodeView, path: Seq<int>, inside: bool)
    requires
        trace::leads(n, path),
        inside || inside_use(n, path),
        is_name(trace::node_at(n, path)),
    ensures
        lang_rust::used_names(n, inside).contains(syntax::text_of(trace::node_at(n, path))),
    decreases path.len(),
{
    if path.len() > 0 {
        let here = inside || n.kind == "use_declaration"@;
        lemma_used_name(n.children[path[0]], path.skip(1), here);
        lemma_used_among(
            n.children,
            path[0],
            here,
            syntax::text_of(trace::node_at(n, path)),
        );
    }
}

proof fn lemma_used_among(ns: Seq<NodeView>, i: int, inside: bool, name: Seq<char>)
    requires
        0 <= i < ns.len(),
        lang_rust::used_names(ns[i], inside).contains(name),
    ensures
        lang_rust::used_names_in(ns, inside).contains(name),
    decreases ns.len(),
{
    if i < ns.len() - 1 {
        lemma_used_among(ns.drop_last(), i, inside, name);
    }
}

/// A name that a `use` declaration spells out is read wherever it is
/// evaluated.
pub proof fn law_used_names_are_read(root: NodeView, path: Seq<int>, used: Seq<int>)
    requires
        evaluated(root, path),
        is_name(trace::node_at(root, path)),
        !lang_rust::found_in(root).draft.names.contains(trace::node_at(root, path).id),
        trace::leads(root, used),
        inside_use(root, used),
        is_name(trace::node_at(root, used)),
        syntax::text_of(trace::node_at(root, used)) == syntax::text_of(trace::node_at(root, path)),
    ensures
        trace::refers(
            lang_rust::extracted(root).reads,
            scope_on(lang_rust::found_in(root).draft, root, path, 0),
            syntax::text_of(trace::node_at(root, path)),
            None,
        ),
{
    lemma_value_kinds();
    let f = lang_rust::found_in(root);
    let d = f.draft;
    let known = lang_rust::def_names(d.defs).union(lang_rust::used_names(root, false));
    let cur = lemma_reached(root, d, known, 0, path);
    lemma_used_name(root, used, false);
    let x = trace::node_at(root, path);
    let def = d.scope_at(x, cur);
    let refs = lang_rust::refs_of(root, d, known, 0);
    let own = lang_rust::refs_of(x, d, known, cur);
    let r = draft::ref_at(def, syntax::text_of(x), None, x);
    assert(own.reads[0] == r);
    assert(own.reads.contains(r));
    assert(refs.reads.contains(r));
    trace::lemma_kept(refs.reads, r);
}

} // verus!
