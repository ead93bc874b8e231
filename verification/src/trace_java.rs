//! What the Java plugin finds, told by the nodes of the tree.
use vstd::prelude::*;

use crate::draft;
use crate::draft::{DraftView, RefsView};
use crate::graph::DefKind;
use crate::lang_java;
use crate::lang_java::{Context, Found, Owner};
use crate::language::{ExtractionView, ImportView};
use crate::syntax;
use crate::syntax::NodeView;
use crate::text;
use crate::trace;

verus! {

/// Is this a type: a class, an interface, an enum, a record or an annotation?
pub open spec fn is_type(n: NodeView) -> bool {
    ||| n.kind == "class_declaration"@
    ||| n.kind == "interface_declaration"@
    ||| n.kind == "enum_declaration"@
    ||| n.kind == "record_declaration"@
    ||| n.kind == "annotation_type_declaration"@
}

/// The name of a declaration.
pub open spec fn name_of(n: NodeView) -> Option<Seq<char>> {
    match syntax::field_of(n, "name"@) {
        Some(name) => name.text,
        None => None,
    }
}

/// Does `path` lead to a child of `n`, or to a member of a type that is one,
/// or of a type nested in that?
pub open spec fn leads_to_member(n: NodeView, path: Seq<int>) -> bool
    decreases path.len(),
{
    &&& path.len() > 0
    &&& 0 <= path[0] < n.children.len()
    &&& path.len() > 1 ==> {
        let t = n.children[path[0]];
        &&& path.len() > 2
        &&& is_type(t)
        &&& name_of(t) is Some
        &&& path[1] == syntax::field_position(t.children, "body"@)
        &&& 0 <= path[1] < t.children.len()
        &&& leads_to_member(t.children[path[1]], path.skip(2))
    }
}

/// The types on the way to a member, the outermost first.
pub open spec fn types_on(n: NodeView, path: Seq<int>) -> Seq<NodeView>
    decreases path.len(),
{
    if path.len() < 3 {
        Seq::empty()
    } else {
        let t = n.children[path[0]];
        seq![t] + types_on(t.children[path[1]], path.skip(2))
    }
}

/// The names of types.
pub open spec fn names_of(types: Seq<NodeView>) -> Seq<Seq<char>> {
    types.map_values(|t: NodeView| name_of(t).unwrap())
}

/// Does the member `n` carry an annotation whose name, without a package, is
/// `simple`?
pub open spec fn carries(n: NodeView, simple: Seq<char>) -> bool {
    exists|m: int, k: int| #[trigger] annotated_at(n, m, k, simple)
}

/// Is the child `k` of the modifiers at `m` an annotation of this name?
pub open spec fn annotated_at(n: NodeView, m: int, k: int, simple: Seq<char>) -> bool {
    &&& 0 <= m < n.children.len()
    &&& n.children[m].kind == "modifiers"@
    &&& forall|i: int| 0 <= i < m ==> (#[trigger] n.children[i]).kind != "modifiers"@
    &&& 0 <= k < n.children[m].children.len()
    &&& {
        let a = n.children[m].children[k];
        &&& a.kind == "marker_annotation"@ || a.kind == "annotation"@
        &&& name_of(a) matches Some(t) && text::after_last(t, '.') == simple
    }
}

/// Does the member carry an annotation of JUnit that makes it a test?
pub open spec fn is_marked(n: NodeView) -> bool {
    ||| carries(n, "Test"@)
    ||| carries(n, "ParameterizedTest"@)
    ||| carries(n, "RepeatedTest"@)
    ||| carries(n, "TestFactory"@)
    ||| carries(n, "TestTemplate"@)
}

proof fn lemma_names_in(ns: Seq<NodeView>, simple: Seq<char>)
    ensures
        lang_java::annotation_names_in(ns).contains(simple) <==> exists|k: int|
            {
                &&& 0 <= k < ns.len()
                &&& (#[trigger] ns[k]).kind == "marker_annotation"@ || ns[k].kind == "annotation"@
                &&& name_of(ns[k]) matches Some(t) && text::after_last(t, '.') == simple
            },
    decreases ns.len(),
{
    let all = lang_java::annotation_names_in(ns);
    if ns.len() > 0 {
        let rest = ns.drop_last();
        let before = lang_java::annotation_names_in(rest);
        lemma_names_in(rest, simple);
        let n = ns.last();
        if all.contains(simple) {
            let i = choose|i: int| 0 <= i < all.len() && all[i] == simple;
            if i < before.len() {
                assert(before[i] == simple);
                let k = choose|k: int|
                    {
                        &&& 0 <= k < rest.len()
                        &&& (#[trigger] rest[k]).kind == "marker_annotation"@ || rest[k].kind
                            == "annotation"@
                        &&& name_of(rest[k]) matches Some(t) && text::after_last(t, '.') == simple
                    };
                assert(ns[k] == rest[k]);
            } else {
                assert(ns[ns.len() - 1] == n);
            }
        }
        if exists|k: int|
            {
                &&& 0 <= k < ns.len()
                &&& (#[trigger] ns[k]).kind == "marker_annotation"@ || ns[k].kind == "annotation"@
                &&& name_of(ns[k]) matches Some(t) && text::after_last(t, '.') == simple
            } {
            let k = choose|k: int|
                {
                    &&& 0 <= k < ns.len()
                    &&& (#[trigger] ns[k]).kind == "marker_annotation"@ || ns[k].kind
                        == "annotation"@
                    &&& name_of(ns[k]) matches Some(t) && text::after_last(t, '.') == simple
                };
            if k < rest.len() {
                assert(rest[k] == ns[k]);
                assert(before.contains(simple));
                let i = choose|i: int| 0 <= i < before.len() && before[i] == simple;
                assert(all[i] == simple);
            } else {
                assert(all[before.len() as int] == simple);
            }
        }
    }
}

proof fn lemma_carries(n: NodeView, simple: Seq<char>)
    ensures
        carries(n, simple) == lang_java::annotations_of(n).contains(simple),
{
    let found = syntax::first_of(n.children, "modifiers"@, "modifiers"@);
    syntax::lemma_first_of(n.children, "modifiers"@);
    if carries(n, simple) {
        let (m, k) = choose|m: int, k: int| #[trigger] annotated_at(n, m, k, simple);
        assert(found == Some(n.children[m]));
        lemma_names_in(n.children[m].children, simple);
        assert(n.children[m].children[k].kind == n.children[m].children[k].kind);
    }
    if lang_java::annotations_of(n).contains(simple) {
        let m = choose|m: int|
            0 <= m < n.children.len() && found == Some(#[trigger] n.children[m]) && forall|i: int|
                0 <= i < m ==> (#[trigger] n.children[i]).kind != "modifiers"@;
        lemma_names_in(n.children[m].children, simple);
        let ns = n.children[m].children;
        let k = choose|k: int|
            {
                &&& 0 <= k < ns.len()
                &&& (#[trigger] ns[k]).kind == "marker_annotation"@ || ns[k].kind == "annotation"@
                &&& name_of(ns[k]) matches Some(t) && text::after_last(t, '.') == simple
            };
        assert(annotated_at(n, m, k, simple));
    }
}

proof fn lemma_marked(n: NodeView)
    ensures
        is_marked(n) == lang_java::is_test(n),
{
    let names = lang_java::annotations_of(n);
    lemma_carries(n, "Test"@);
    lemma_carries(n, "ParameterizedTest"@);
    lemma_carries(n, "RepeatedTest"@);
    lemma_carries(n, "TestFactory"@);
    lemma_carries(n, "TestTemplate"@);
    if lang_java::is_test(n) {
        let i = choose|i: int| 0 <= i < names.len() && lang_java::marks_test(#[trigger] names[i]);
        assert(names.contains(names[i]));
    }
    if is_marked(n) {
        let s = if carries(n, "Test"@) {
            "Test"@
        } else if carries(n, "ParameterizedTest"@) {
            "ParameterizedTest"@
        } else if carries(n, "RepeatedTest"@) {
            "RepeatedTest"@
        } else if carries(n, "TestFactory"@) {
            "TestFactory"@
        } else {
            "TestTemplate"@
        };
        let i = choose|i: int| 0 <= i < names.len() && names[i] == s;
        assert(lang_java::marks_test(names[i]));
    }
}

/// Does `e` begin with the definitions of `f`?
spec fn extends(f: Found, e: Found) -> bool {
    &&& f.draft.defs.len() <= e.draft.defs.len()
    &&& forall|i: int|
        0 <= i < f.draft.defs.len() ==> #[trigger] e.draft.defs[i] == f.draft.defs[i]
}

proof fn lemma_extends_on(a: Found, b: Found, c: Found)
    requires
        extends(a, b),
        extends(b, c),
    ensures
        extends(a, c),
{
    assert forall|i: int| 0 <= i < a.draft.defs.len() implies #[trigger] c.draft.defs[i]
        == a.draft.defs[i] by {
        assert(b.draft.defs[i] == a.draft.defs[i]);
    }
}

proof fn lemma_fields_extend(ns: Seq<NodeView>, f: Found, owner: Owner, parent: Option<usize>)
    ensures
        extends(f, lang_java::with_fields(ns, f, owner, parent)),
    decreases ns.len(),
{
    if ns.len() > 0 {
        lemma_fields_extend(ns.drop_last(), f, owner, parent);
        lemma_extends_on(
            f,
            lang_java::with_fields(ns.drop_last(), f, owner, parent),
            lang_java::with_fields(ns, f, owner, parent),
        );
    }
}

/// What the member `n` adds.
spec fn with_member(n: NodeView, f: Found, owner: Owner) -> Found {
    if lang_java::declares_type(n.kind) {
        lang_java::with_type(n, f, Some(owner.at), owner.chain, owner.package)
    } else if n.kind == "field_declaration"@ {
        lang_java::with_fields(
            syntax::of_kind(n.children, "variable_declarator"@),
            f,
            owner,
            lang_java::parent_for(n, owner),
        )
    } else if lang_java::declares_method(n.kind) {
        lang_java::with_method(n, f, owner)
    } else {
        f
    }
}

proof fn lemma_type_extends(
    n: NodeView,
    f: Found,
    parent: Option<usize>,
    chain: Seq<Seq<char>>,
    package: Option<Seq<char>>,
)
    ensures
        extends(f, lang_java::with_type(n, f, parent, chain, package)),
    decreases n, 0nat,
{
    if let Some(name) = name_of(n) {
        let (own, owner) = opened_type(n, f, parent, chain, package, name);
        if let Some(body) = syntax::field_of(n, "body"@) {
            syntax::lemma_field_below(n, "body"@);
            lemma_members_extend(body.children, own, owner);
            lemma_extends_on(f, own, lang_java::with_members(body.children, own, owner));
        }
    }
}

proof fn lemma_members_extend(ns: Seq<NodeView>, f: Found, owner: Owner)
    ensures
        extends(f, lang_java::with_members(ns, f, owner)),
    decreases ns, 1nat,
{
    if ns.len() > 0 {
        let before = lang_java::with_members(ns.drop_last(), f, owner);
        let n = ns.last();
        lemma_members_extend(ns.drop_last(), f, owner);
        if lang_java::declares_type(n.kind) {
            lemma_type_extends(n, before, Some(owner.at), owner.chain, owner.package);
        }
        lemma_fields_extend(
            syntax::of_kind(n.children, "variable_declarator"@),
            before,
            owner,
            lang_java::parent_for(n, owner),
        );
        lemma_extends_on(f, before, lang_java::with_members(ns, f, owner));
    }
}

proof fn lemma_rest_members(all: Seq<NodeView>, f: Found, owner: Owner, i: int, k: int)
    requires
        0 <= i <= k <= all.len(),
    ensures
        extends(
            lang_java::with_members(all.take(i), f, owner),
            lang_java::with_members(all.take(k), f, owner),
        ),
    decreases k - i,
{
    if i < k {
        lemma_rest_members(all, f, owner, i, k - 1);
        let before = lang_java::with_members(all.take(k - 1), f, owner);
        let n = all[k - 1];
        assert(all.take(k).drop_last() =~= all.take(k - 1));
        lemma_type_extends(n, before, Some(owner.at), owner.chain, owner.package);
        lemma_fields_extend(
            syntax::of_kind(n.children, "variable_declarator"@),
            before,
            owner,
            lang_java::parent_for(n, owner),
        );
        lemma_extends_on(
            lang_java::with_members(all.take(i), f, owner),
            before,
            lang_java::with_members(all.take(k), f, owner),
        );
    }
}

proof fn lemma_rest_types(
    all: Seq<NodeView>,
    f: Found,
    package: Option<Seq<char>>,
    i: int,
    k: int,
)
    requires
        0 <= i <= k <= all.len(),
    ensures
        extends(
            lang_java::with_types(all.take(i), f, package),
            lang_java::with_types(all.take(k), f, package),
        ),
    decreases k - i,
{
    if i < k {
        lemma_rest_types(all, f, package, i, k - 1);
        let before = lang_java::with_types(all.take(k - 1), f, package);
        assert(all.take(k).drop_last() =~= all.take(k - 1));
        lemma_type_extends(all[k - 1], before, None, Seq::empty(), package);
        lemma_extends_on(
            lang_java::with_types(all.take(i), f, package),
            before,
            lang_java::with_types(all.take(k), f, package),
        );
    }
}

/// What is found when a type is opened, and the owner that its members get.
spec fn opened_type(
    n: NodeView,
    f: Found,
    parent: Option<usize>,
    chain: Seq<Seq<char>>,
    package: Option<Seq<char>>,
    name: Seq<char>,
) -> (Found, Owner) {
    let name_node = syntax::field_of(n, "name"@).unwrap();
    let own = Found {
        draft: f.draft.with_def(lang_java::type_def(n, name, parent)).named(name_node.id).opened(
            n.id,
        ),
        fields: f.fields,
    };
    (own, Owner { at: own.draft.last(), name, chain: chain.push(name), package })
}

/// Is the owner the type `t`, whose definition was found?
spec fn owned_by(owner: Owner, f: Found, t: NodeView) -> bool {
    &&& name_of(t) == Some(owner.name)
    &&& owner.chain.len() > 0
    &&& owner.chain.last() == owner.name
    &&& owner.at < f.draft.defs.len()
    &&& f.draft.defs[owner.at as int].kind == DefKind::Class
    &&& f.draft.defs[owner.at as int].name == owner.name
    &&& f.draft.defs[owner.at as int].start_line == syntax::line_of(t.start_row)
}

/// Has `e` the scopes of `d` that belong to `x`?
spec fn keeps_own_scopes(x: NodeView, d: DraftView, e: DraftView) -> bool {
    forall|id: usize| #[trigger]
        d.scope.contains_key(id) && trace::holds(x, id) ==> e.scope.contains_key(id) && e.scope[id]
            == d.scope[id]
}

proof fn lemma_fields_keep(ns: Seq<NodeView>, f: Found, owner: Owner, parent: Option<usize>)
    ensures
        trace::keeps_scopes(f.draft, lang_java::with_fields(ns, f, owner, parent).draft, ns),
    decreases ns.len(),
{
    if ns.len() > 0 {
        let before = lang_java::with_fields(ns.drop_last(), f, owner, parent).draft;
        let e = lang_java::with_fields(ns, f, owner, parent).draft;
        lemma_fields_keep(ns.drop_last(), f, owner, parent);
        trace::lemma_holds_own(ns.last());
        assert forall|id: usize| #[trigger]
            f.draft.scope.contains_key(id) && trace::none_holds(ns, id) implies e.scope.contains_key(
            id,
        ) && e.scope[id] == f.draft.scope[id] by {
            trace::lemma_none_before(ns, id);
            assert(before.scope.contains_key(id));
        }
    }
}

proof fn lemma_type_keeps(
    n: NodeView,
    f: Found,
    parent: Option<usize>,
    chain: Seq<Seq<char>>,
    package: Option<Seq<char>>,
)
    ensures
        trace::keeps_scopes(
            f.draft,
            lang_java::with_type(n, f, parent, chain, package).draft,
            seq![n],
        ),
    decreases n, 0nat,
{
    trace::lemma_holds_own(n);
    if let Some(name) = name_of(n) {
        let e = lang_java::with_type(n, f, parent, chain, package).draft;
        let (own, owner) = opened_type(n, f, parent, chain, package, name);
        if let Some(body) = syntax::field_of(n, "body"@) {
            syntax::lemma_field_below(n, "body"@);
            lemma_members_keep(body.children, own, owner);
        }
        assert forall|id: usize| #[trigger]
            f.draft.scope.contains_key(id) && trace::none_holds(seq![n], id) implies e.scope.contains_key(
            id,
        ) && e.scope[id] == f.draft.scope[id] by {
            assert(!trace::holds(seq![n][0], id));
            assert(own.draft.scope.contains_key(id));
            if let Some(body) = syntax::field_of(n, "body"@) {
                assert(n.children[syntax::field_position(n.children, "body"@)] == body);
                trace::lemma_none_below(n, body, id);
            }
        }
    }
}

proof fn lemma_member_keeps(n: NodeView, f: Found, owner: Owner)
    ensures
        trace::keeps_scopes(f.draft, with_member(n, f, owner).draft, seq![n]),
    decreases n, 1nat,
{
    let e = with_member(n, f, owner).draft;
    let ns = syntax::of_kind(n.children, "variable_declarator"@);
    let parent = lang_java::parent_for(n, owner);
    trace::lemma_holds_own(n);
    if lang_java::declares_type(n.kind) {
        lemma_type_keeps(n, f, Some(owner.at), owner.chain, owner.package);
    } else {
        lemma_fields_keep(ns, f, owner, parent);
        syntax::lemma_of_kind_among(n.children, "variable_declarator"@);
        assert forall|id: usize| #[trigger]
            f.draft.scope.contains_key(id) && trace::none_holds(seq![n], id) implies e.scope.contains_key(
            id,
        ) && e.scope[id] == f.draft.scope[id] by {
            assert(!trace::holds(seq![n][0], id));
            assert forall|i: int| 0 <= i < ns.len() implies !#[trigger] trace::holds(ns[i], id) by {
                trace::lemma_none_below(n, ns[i], id);
            }
        }
    }
}

proof fn lemma_members_keep(ns: Seq<NodeView>, f: Found, owner: Owner)
    ensures
        trace::keeps_scopes(f.draft, lang_java::with_members(ns, f, owner).draft, ns),
    decreases ns, 2nat,
{
    if ns.len() > 0 {
        let before = lang_java::with_members(ns.drop_last(), f, owner);
        let e = lang_java::with_members(ns, f, owner).draft;
        lemma_members_keep(ns.drop_last(), f, owner);
        lemma_member_keeps(ns.last(), before, owner);
        assert(e == with_member(ns.last(), before, owner).draft);
        assert forall|id: usize| #[trigger]
            f.draft.scope.contains_key(id) && trace::none_holds(ns, id) implies e.scope.contains_key(
            id,
        ) && e.scope[id] == f.draft.scope[id] by {
            trace::lemma_none_before(ns, id);
            assert(before.draft.scope.contains_key(id));
            assert(trace::none_holds(seq![ns.last()], id));
        }
    }
}

proof fn lemma_rest_members_keep(all: Seq<NodeView>, f: Found, owner: Owner, i: int, k: int)
    requires
        0 <= i <= k <= all.len(),
    ensures
        trace::keeps_scopes(
            lang_java::with_members(all.take(i), f, owner).draft,
            lang_java::with_members(all.take(k), f, owner).draft,
            all.subrange(i, k),
        ),
    decreases k - i,
{
    if i < k {
        let start = lang_java::with_members(all.take(i), f, owner).draft;
        let before = lang_java::with_members(all.take(k - 1), f, owner);
        let e = lang_java::with_members(all.take(k), f, owner).draft;
        let part = all.subrange(i, k);
        lemma_rest_members_keep(all, f, owner, i, k - 1);
        assert(all.take(k).drop_last() =~= all.take(k - 1));
        assert(part.drop_last() =~= all.subrange(i, k - 1));
        lemma_member_keeps(all[k - 1], before, owner);
        assert(e == with_member(all[k - 1], before, owner).draft);
        assert forall|id: usize| #[trigger]
            start.scope.contains_key(id) && trace::none_holds(part, id) implies e.scope.contains_key(
            id,
        ) && e.scope[id] == start.scope[id] by {
            trace::lemma_none_before(part, id);
            assert(before.draft.scope.contains_key(id));
            assert(trace::none_holds(seq![part.last()], id));
        }
    }
}

proof fn lemma_rest_types_keep(
    all: Seq<NodeView>,
    f: Found,
    package: Option<Seq<char>>,
    i: int,
    k: int,
)
    requires
        0 <= i <= k <= all.len(),
    ensures
        trace::keeps_scopes(
            lang_java::with_types(all.take(i), f, package).draft,
            lang_java::with_types(all.take(k), f, package).draft,
            all.subrange(i, k),
        ),
    decreases k - i,
{
    if i < k {
        let start = lang_java::with_types(all.take(i), f, package).draft;
        let before = lang_java::with_types(all.take(k - 1), f, package);
        let e = lang_java::with_types(all.take(k), f, package).draft;
        let part = all.subrange(i, k);
        lemma_rest_types_keep(all, f, package, i, k - 1);
        assert(all.take(k).drop_last() =~= all.take(k - 1));
        assert(part.drop_last() =~= all.subrange(i, k - 1));
        lemma_type_keeps(all[k - 1], before, None, Seq::empty(), package);
        assert forall|id: usize| #[trigger]
            start.scope.contains_key(id) && trace::none_holds(part, id) implies e.scope.contains_key(
            id,
        ) && e.scope[id] == start.scope[id] by {
            trace::lemma_none_before(part, id);
            assert(before.draft.scope.contains_key(id));
            assert(trace::none_holds(seq![part.last()], id));
        }
    }
}

/// What the member at the end of `path` holds, the node above holds.
proof fn lemma_member_held(n: NodeView, path: Seq<int>, id: usize)
    requires
        leads_to_member(n, path),
        trace::holds(trace::node_at(n, path), id),
    ensures
        trace::holds(n, id),
    decreases path.len(),
{
    reveal_with_fuel(trace::node_at, 3);
    let c = n.children[path[0]];
    if path.len() == 1 {
        assert(path.skip(1) =~= Seq::<int>::empty());
    } else {
        assert(path.skip(1).skip(1) =~= path.skip(2));
        assert(path.skip(1)[0] == path[1]);
        lemma_member_held(c.children[path[1]], path.skip(2), id);
        trace::lemma_holds_child(c, path[1], id);
    }
    trace::lemma_holds_child(n, path[0], id);
}

/// The member at the end of `path` is added to what was found before it.
proof fn lemma_member_reached(
    n: NodeView,
    f: Found,
    owner: Owner,
    t: NodeView,
    path: Seq<int>,
) -> (r: (Found, Owner))
    requires
        leads_to_member(n, path),
        owned_by(owner, f, t),
        lang_java::with_members(n.children, f, owner).draft.defs.len() <= usize::MAX,
    ensures
        extends(
            with_member(trace::node_at(n, path), r.0, r.1),
            lang_java::with_members(n.children, f, owner),
        ),
        r.1.chain == owner.chain + names_of(types_on(n, path)),
        r.1.package == owner.package,
        owned_by(r.1, r.0, (seq![t] + types_on(n, path)).last()),
        trace::numbered(n) ==> keeps_own_scopes(
            trace::node_at(n, path),
            with_member(trace::node_at(n, path), r.0, r.1).draft,
            lang_java::with_members(n.children, f, owner).draft,
        ),
    decreases path.len(),
{
    let i = path[0];
    let c = n.children[i];
    let all = n.children;
    let before = lang_java::with_members(all.take(i), f, owner);
    let after = lang_java::with_members(all.take(i + 1), f, owner);
    let end = lang_java::with_members(all, f, owner);
    assert(all.take(i + 1).drop_last() =~= all.take(i));
    assert(all.take(i + 1).last() == c);
    assert(after == with_member(c, before, owner));
    lemma_rest_members(all, f, owner, i + 1, all.len() as int);
    lemma_rest_members_keep(all, f, owner, i + 1, all.len() as int);
    assert(all.take(all.len() as int) =~= all);
    assert(all.subrange(i + 1, all.len() as int) =~= all.skip(i + 1));
    if trace::numbered(n) {
        assert forall|id: usize|
            #[trigger] after.draft.scope.contains_key(id) && trace::holds(c, id) implies end.draft.scope.contains_key(
            id,
        ) && end.draft.scope[id] == after.draft.scope[id] by {
            trace::lemma_none_behind(n, i, id);
        }
    }
    lemma_members_extend(all.take(i), f, owner);
    assert(owned_by(owner, before, t));
    reveal_with_fuel(trace::node_at, 3);
    if path.len() == 1 {
        assert(path.skip(1) =~= Seq::<int>::empty());
        assert(owner.chain + names_of(types_on(n, path)) =~= owner.chain);
        assert((seq![t] + types_on(n, path)).last() == t);
        (before, owner)
    } else {
        let name = name_of(c).unwrap();
        let body = c.children[path[1]];
        assert(path.skip(1).skip(1) =~= path.skip(2));
        assert(path.skip(1)[0] == path[1]);
        assert(trace::node_at(n, path) == trace::node_at(body, path.skip(2)));
        let (own, inner) = opened_type(
            c,
            before,
            Some(owner.at),
            owner.chain,
            owner.package,
            name,
        );
        assert(after == lang_java::with_members(body.children, own, inner));
        lemma_members_extend(body.children, own, inner);
        assert(own.draft.defs[inner.at as int] == own.draft.defs.last());
        let (g, o) = lemma_member_reached(body, own, inner, c, path.skip(2));
        let rest = types_on(body, path.skip(2));
        assert(types_on(n, path) =~= seq![c] + rest);
        assert(names_of(seq![c] + rest) =~= seq![name] + names_of(rest));
        assert(o.chain =~= owner.chain + names_of(types_on(n, path)));
        assert((seq![t] + (seq![c] + rest)).last() == (seq![c] + rest).last());
        lemma_extends_on(with_member(trace::node_at(n, path), g, o), after, end);
        if trace::numbered(n) {
            trace::lemma_child_numbered(n, i);
            trace::lemma_child_numbered(c, path[1]);
            let x = trace::node_at(n, path);
            let own = with_member(x, g, o).draft;
            assert forall|id: usize|
                #[trigger] own.scope.contains_key(id) && trace::holds(x, id) implies end.draft.scope.contains_key(
                id,
            ) && end.draft.scope[id] == own.scope[id] by {
                assert(after.draft.scope.contains_key(id));
                lemma_member_held(body, path.skip(2), id);
                trace::lemma_holds_child(c, path[1], id);
            }
        }
        (g, o)
    }
}

/// The member at the end of `path` is found in the file.
proof fn lemma_found(root: NodeView, path: Seq<int>) -> (r: (Found, Owner))
    requires
        leads_to_member(root, path),
        path.len() > 1,
        lang_java::extracted(root).defs.len() <= usize::MAX,
    ensures
        extends(with_member(trace::node_at(root, path), r.0, r.1), lang_java::found_in(root)),
        extends(r.0, lang_java::found_in(root)),
        r.1.chain == names_of(types_on(root, path)),
        r.1.package == lang_java::package_name(root),
        owned_by(r.1, r.0, types_on(root, path).last()),
        trace::numbered(root) ==> keeps_own_scopes(
            trace::node_at(root, path),
            with_member(trace::node_at(root, path), r.0, r.1).draft,
            lang_java::found_in(root).draft,
        ),
{
    let all = root.children;
    let i = path[0];
    let c = all[i];
    let package = lang_java::package_name(root);
    let start = Found {
        draft: DraftView::empty().with_def(
            draft::module_def(root, lang_java::standing_alone(root.children)),
        ),
        fields: Seq::empty(),
    };
    let before = lang_java::with_types(all.take(i), start, package);
    let after = lang_java::with_types(all.take(i + 1), start, package);
    assert(all.take(i + 1).drop_last() =~= all.take(i));
    assert(all.take(i + 1).last() == c);
    lemma_rest_types(all, start, package, i + 1, all.len() as int);
    assert(all.take(all.len() as int) =~= all);
    let name = name_of(c).unwrap();
    let body = c.children[path[1]];
    reveal_with_fuel(trace::node_at, 3);
    assert(path.skip(1).skip(1) =~= path.skip(2));
    assert(path.skip(1)[0] == path[1]);
    assert(trace::node_at(root, path) == trace::node_at(body, path.skip(2)));
    let (own, inner) = opened_type(c, before, None, Seq::empty(), package, name);
    assert(after == lang_java::with_members(body.children, own, inner));
    lemma_members_extend(body.children, own, inner);
    assert(own.draft.defs[inner.at as int] == own.draft.defs.last());
    let (g, o) = lemma_member_reached(body, own, inner, c, path.skip(2));
    let rest = types_on(body, path.skip(2));
    assert(types_on(root, path) =~= seq![c] + rest);
    assert(names_of(seq![c] + rest) =~= seq![name] + names_of(rest));
    assert(inner.chain =~= seq![name]);
    let x = trace::node_at(root, path);
    lemma_member_extends(x, g, o);
    lemma_extends_on(g, with_member(x, g, o), after);
    lemma_extends_on(with_member(x, g, o), after, lang_java::found_in(root));
    lemma_extends_on(g, after, lang_java::found_in(root));
    if trace::numbered(root) {
        trace::lemma_child_numbered(root, i);
        trace::lemma_child_numbered(c, path[1]);
        lemma_rest_types_keep(all, start, package, i + 1, all.len() as int);
        assert(all.subrange(i + 1, all.len() as int) =~= all.skip(i + 1));
        let mine = with_member(x, g, o).draft;
        let end = lang_java::found_in(root).draft;
        assert forall|id: usize|
            #[trigger] mine.scope.contains_key(id) && trace::holds(x, id) implies end.scope.contains_key(
            id,
        ) && end.scope[id] == mine.scope[id] by {
            assert(after.draft.scope.contains_key(id));
            lemma_member_held(body, path.skip(2), id);
            trace::lemma_holds_child(c, path[1], id);
            trace::lemma_none_behind(root, i, id);
        }
    }
    (g, o)
}

proof fn lemma_member_extends(n: NodeView, f: Found, owner: Owner)
    ensures
        extends(f, with_member(n, f, owner)),
{
    lemma_type_extends(n, f, Some(owner.at), owner.chain, owner.package);
    lemma_fields_extend(
        syntax::of_kind(n.children, "variable_declarator"@),
        f,
        owner,
        lang_java::parent_for(n, owner),
    );
}

/// Is the definition at `i` one of `x`, with this name, kind and chain?
pub open spec fn defines(
    found: ExtractionView,
    i: int,
    x: NodeView,
    name: Seq<char>,
    kind: DefKind,
    test_id: Option<Seq<Seq<char>>>,
) -> bool {
    &&& 0 <= i < found.defs.len()
    &&& found.defs[i].name == name
    &&& found.defs[i].kind == kind
    &&& found.defs[i].test_id == test_id
    &&& found.defs[i].start_line == syntax::line_of(x.start_row)
    &&& found.defs[i].end_line == syntax::line_of(x.end_row)
    &&& !found.defs[i].computed_name
}

/// Does the definition at `i` hang on that of the type `t`?
pub open spec fn hangs_on(found: ExtractionView, i: int, t: NodeView) -> bool {
    &&& 0 <= i < found.defs.len()
    &&& found.defs[i].parent matches Some(p) && {
        &&& p < found.defs.len()
        &&& found.defs[p as int].kind == DefKind::Class
        &&& Some(found.defs[p as int].name) == name_of(t)
        &&& found.defs[p as int].start_line == syntax::line_of(t.start_row)
    }
}

/// Is this the name of an annotation that only the compiler reads?
pub open spec fn only_for_compiler(simple: Seq<char>) -> bool {
    ||| simple == "Override"@
    ||| simple == "SuppressWarnings"@
    ||| simple == "Deprecated"@
    ||| simple == "SafeVarargs"@
    ||| simple == "FunctionalInterface"@
    ||| simple == "Nullable"@
    ||| simple == "NonNull"@
    ||| simple == "Nonnull"@
    ||| simple == "NotNull"@
    ||| simple == "CheckForNull"@
}

/// May something other than a call reach the member, as its annotations say?
pub open spec fn is_injected(n: NodeView) -> bool {
    exists|simple: Seq<char>| #[trigger] carries(n, simple) && !only_for_compiler(simple)
}

proof fn lemma_injected(n: NodeView)
    ensures
        is_injected(n) == lang_java::container_reaches(n),
{
    let names = lang_java::annotations_of(n);
    if is_injected(n) {
        let s = choose|s: Seq<char>| #[trigger] carries(n, s) && !only_for_compiler(s);
        lemma_carries(n, s);
        let i = choose|i: int| 0 <= i < names.len() && names[i] == s;
        assert(!lang_java::is_inert(names[i]));
    }
    if lang_java::container_reaches(n) {
        let i = choose|i: int| 0 <= i < names.len() && !lang_java::is_inert(#[trigger] names[i]);
        lemma_carries(n, names[i]);
        assert(names.contains(names[i]));
        assert(carries(n, names[i]));
    }
}

/// Is the definition at `i` that of the method `x` in these types? A method
/// marked as a test is identified by the outermost type with its package, the
/// types nested in it and its name. One that is injected hangs on its type.
pub open spec fn defines_method(
    found: ExtractionView,
    i: int,
    x: NodeView,
    package: Option<Seq<char>>,
    types: Seq<NodeView>,
) -> bool {
    let names = names_of(types);
    let outer = match package {
        Some(p) => p + "."@ + names[0],
        None => names[0],
    };
    &&& defines(
        found,
        i,
        x,
        names.last() + "."@ + name_of(x).unwrap(),
        if is_marked(x) {
            DefKind::TestCase
        } else {
            DefKind::Method
        },
        if is_marked(x) {
            Some((seq![outer] + names.skip(1)).push(name_of(x).unwrap()))
        } else {
            None
        },
    )
    &&& if is_injected(x) {
        hangs_on(found, i, types.last())
    } else {
        found.defs[i].parent is None
    }
}

/// A method that carries `@Test` or another annotation of JUnit that makes a
/// test is one, in whatever nested type it stands; any other method or
/// constructor is a method.
pub proof fn law_marked_methods_are_tests(root: NodeView, path: Seq<int>)
    requires
        leads_to_member(root, path),
        path.len() > 1,
        trace::node_at(root, path).kind == "method_declaration"@ || trace::node_at(root, path).kind
            == "constructor_declaration"@,
        name_of(trace::node_at(root, path)) is Some,
        lang_java::extracted(root).defs.len() <= usize::MAX,
    ensures
        exists|i: int| #[trigger]
            defines_method(
                lang_java::extracted(root),
                i,
                trace::node_at(root, path),
                lang_java::package_name(root),
                types_on(root, path),
            ),
{
    let found = lang_java::extracted(root);
    let x = trace::node_at(root, path);
    let types = types_on(root, path);
    let (before, owner) = lemma_found(root, path);
    lemma_kinds();
    lemma_marked(x);
    lemma_injected(x);
    let i = before.draft.defs.len() as int;
    let after = with_member(x, before, owner);
    assert(after.draft.defs[i] == after.draft.defs.last());
    assert(found.defs[i] == after.draft.defs[i]);
    assert(names_of(types).len() > 0);
    assert(names_of(types).last() == owner.name);
    if is_injected(x) {
        assert(found.defs[owner.at as int] == before.draft.defs[owner.at as int]);
    }
    assert(defines_method(found, i, x, lang_java::package_name(root), types));
}

/// A type is a definition under its name; a nested one hangs on the type
/// around it.
pub proof fn law_types_are_defined(root: NodeView, path: Seq<int>)
    requires
        leads_to_member(root, path),
        is_type(trace::node_at(root, path)),
        name_of(trace::node_at(root, path)) is Some,
        lang_java::extracted(root).defs.len() <= usize::MAX,
    ensures
        exists|i: int|
            #![trigger lang_java::extracted(root).defs[i]]
            defines(
                lang_java::extracted(root),
                i,
                trace::node_at(root, path),
                name_of(trace::node_at(root, path)).unwrap(),
                DefKind::Class,
                None,
            ) && (path.len() > 1 ==> hangs_on(
                lang_java::extracted(root),
                i,
                types_on(root, path).last(),
            )),
{
    let found = lang_java::extracted(root);
    let x = trace::node_at(root, path);
    let name = name_of(x).unwrap();
    if path.len() > 1 {
        let (before, owner) = lemma_found(root, path);
        let i = before.draft.defs.len() as int;
        let after = with_member(x, before, owner);
        let (own, inner) = opened_type(
            x,
            before,
            Some(owner.at),
            owner.chain,
            owner.package,
            name,
        );
        if let Some(body) = syntax::field_of(x, "body"@) {
            lemma_members_extend(body.children, own, inner);
        }
        assert(own.draft.defs[i] == own.draft.defs.last());
        assert(after.draft.defs[i] == own.draft.defs[i]);
        assert(found.defs[i] == after.draft.defs[i]);
        assert(found.defs[owner.at as int] == before.draft.defs[owner.at as int]);
    } else {
        let all = root.children;
        let k = path[0];
        let package = lang_java::package_name(root);
        let start = Found {
            draft: DraftView::empty().with_def(
                draft::module_def(root, lang_java::standing_alone(root.children)),
            ),
            fields: Seq::empty(),
        };
        let before = lang_java::with_types(all.take(k), start, package);
        let after = lang_java::with_types(all.take(k + 1), start, package);
        assert(all.take(k + 1).drop_last() =~= all.take(k));
        reveal_with_fuel(trace::node_at, 2);
        assert(path.skip(1) =~= Seq::<int>::empty());
        assert(all.take(k + 1).last() == x);
        lemma_rest_types(all, start, package, k + 1, all.len() as int);
        assert(all.take(all.len() as int) =~= all);
        let i = before.draft.defs.len() as int;
        let (own, inner) = opened_type(x, before, None, Seq::empty(), package, name);
        if let Some(body) = syntax::field_of(x, "body"@) {
            lemma_members_extend(body.children, own, inner);
        }
        assert(own.draft.defs[i] == own.draft.defs.last());
        assert(after.draft.defs[i] == own.draft.defs[i]);
        assert(found.defs[i] == after.draft.defs[i]);
    }
}

proof fn lemma_kinds()
    ensures
        !lang_java::declares_type("method_declaration"@),
        !lang_java::declares_type("constructor_declaration"@),
        !lang_java::declares_type("field_declaration"@),
        "method_declaration"@ != "field_declaration"@,
        "constructor_declaration"@ != "field_declaration"@,
{
    reveal_strlit("method_declaration");
    reveal_strlit("constructor_declaration");
    reveal_strlit("field_declaration");
    reveal_strlit("class_declaration");
    reveal_strlit("interface_declaration");
    reveal_strlit("enum_declaration");
    reveal_strlit("record_declaration");
    reveal_strlit("annotation_type_declaration");
    assert("method_declaration"@[0] == 'm' && "field_declaration"@[0] == 'f');
    assert("constructor_declaration"@[0] == 'c' && "constructor_declaration"@[1] == 'o');
    assert("class_declaration"@[0] == 'c' && "class_declaration"@[1] == 'l');
    assert("interface_declaration"@[0] == 'i' && "enum_declaration"@[0] == 'e');
    assert("record_declaration"@[0] == 'r' && "annotation_type_declaration"@[0] == 'a');
}

/// Every field that a type declares is a definition of its own, named by the
/// type and the field; an injected one hangs on its type.
pub proof fn law_fields_are_defined(root: NodeView, path: Seq<int>, k: int)
    requires
        leads_to_member(root, path),
        path.len() > 1,
        trace::node_at(root, path).kind == "field_declaration"@,
        0 <= k < trace::node_at(root, path).children.len(),
        trace::node_at(root, path).children[k].kind == "variable_declarator"@,
        name_of(trace::node_at(root, path).children[k]) is Some,
        lang_java::extracted(root).defs.len() <= usize::MAX,
    ensures
        exists|i: int|
            #![trigger lang_java::extracted(root).defs[i]]
            defines(
                lang_java::extracted(root),
                i,
                trace::node_at(root, path).children[k],
                name_of(types_on(root, path).last()).unwrap() + "#"@ + name_of(
                    trace::node_at(root, path).children[k],
                ).unwrap(),
                DefKind::Method,
                None,
            ) && (is_injected(trace::node_at(root, path)) ==> hangs_on(
                lang_java::extracted(root),
                i,
                types_on(root, path).last(),
            )),
{
    let found = lang_java::extracted(root);
    let x = trace::node_at(root, path);
    let (before, owner) = lemma_found(root, path);
    lemma_kinds();
    lemma_injected(x);
    let ns = syntax::of_kind(x.children, "variable_declarator"@);
    syntax::lemma_of_kind_holds(x.children, "variable_declarator"@, k);
    let m = choose|m: int| 0 <= m < ns.len() && ns[m] == x.children[k];
    let parent = lang_java::parent_for(x, owner);
    let a = lang_java::with_fields(ns.take(m), before, owner, parent);
    let b = lang_java::with_fields(ns.take(m + 1), before, owner, parent);
    assert(ns.take(m + 1).drop_last() =~= ns.take(m));
    assert(ns.take(m + 1).last() == ns[m]);
    lemma_rest_fields(ns, before, owner, parent, m + 1, ns.len() as int);
    assert(ns.take(ns.len() as int) =~= ns);
    let after = with_member(x, before, owner);
    let i = a.draft.defs.len() as int;
    assert(b.draft.defs[i] == b.draft.defs.last());
    assert(after.draft.defs[i] == b.draft.defs[i]);
    assert(found.defs[i] == after.draft.defs[i]);
    assert(found.defs[owner.at as int] == before.draft.defs[owner.at as int]);
}

proof fn lemma_rest_fields(
    ns: Seq<NodeView>,
    f: Found,
    owner: Owner,
    parent: Option<usize>,
    i: int,
    k: int,
)
    requires
        0 <= i <= k <= ns.len(),
    ensures
        extends(
            lang_java::with_fields(ns.take(i), f, owner, parent),
            lang_java::with_fields(ns.take(k), f, owner, parent),
        ),
    decreases k - i,
{
    if i < k {
        lemma_rest_fields(ns, f, owner, parent, i, k - 1);
        assert(ns.take(k).drop_last() =~= ns.take(k - 1));
        lemma_extends_on(
            lang_java::with_fields(ns.take(i), f, owner, parent),
            lang_java::with_fields(ns.take(k - 1), f, owner, parent),
            lang_java::with_fields(ns.take(k), f, owner, parent),
        );
    }
}

/// Do the references in `y` come from a definition with this name?
pub open spec fn scopes(root: NodeView, y: NodeView, name: Seq<char>) -> bool {
    let d = lang_java::found_in(root).draft;
    &&& d.scope.contains_key(y.id)
    &&& d.scope[y.id] < d.defs.len()
    &&& d.defs[d.scope[y.id] as int].name == name
    &&& d.defs[d.scope[y.id] as int].start_line == syntax::line_of(y.start_row)
}

/// A method or a constructor is what the references in it come from, and a
/// field is what those of its value come from.
pub proof fn law_members_are_scopes(root: NodeView, path: Seq<int>, k: int)
    requires
        trace::numbered(root),
        leads_to_member(root, path),
        path.len() > 1,
        lang_java::extracted(root).defs.len() <= usize::MAX,
    ensures
        ({
            let x = trace::node_at(root, path);
            let is_method = x.kind == "method_declaration"@ || x.kind == "constructor_declaration"@;
            is_method && name_of(x) is Some ==> scopes(
                root,
                x,
                name_of(types_on(root, path).last()).unwrap() + "."@ + name_of(x).unwrap(),
            )
        }),
        ({
            let x = trace::node_at(root, path);
            let of = name_of(types_on(root, path).last()).unwrap();
            x.kind == "field_declaration"@ && 0 <= k < x.children.len() && x.children[k].kind
                == "variable_declarator"@ && name_of(x.children[k]) is Some ==> scopes(
                root,
                x.children[k],
                of + "#"@ + name_of(x.children[k]).unwrap(),
            )
        }),
{
    let found = lang_java::extracted(root);
    let x = trace::node_at(root, path);
    let (before, owner) = lemma_found(root, path);
    let after = with_member(x, before, owner);
    lemma_kinds();
    trace::lemma_holds_own(x);
    if (x.kind == "method_declaration"@ || x.kind == "constructor_declaration"@) && name_of(x)
        is Some {
        let i = before.draft.defs.len() as int;
        assert(after.draft.defs[i] == after.draft.defs.last());
        assert(after.draft.scope.contains_key(x.id) && after.draft.scope[x.id] == i as usize);
        assert(found.defs[i] == after.draft.defs[i]);
    }
    if x.kind == "field_declaration"@ && 0 <= k < x.children.len() && x.children[k].kind
        == "variable_declarator"@ && name_of(x.children[k]) is Some {
        let y = x.children[k];
        let ns = syntax::of_kind(x.children, "variable_declarator"@);
        let parent = lang_java::parent_for(x, owner);
        lemma_member_numbered(root, path);
        let m = lemma_place_of_kind(x, "variable_declarator"@, k, y.id);
        let a = lang_java::with_fields(ns.take(m), before, owner, parent);
        let b = lang_java::with_fields(ns.take(m + 1), before, owner, parent);
        assert(ns.take(m + 1).drop_last() =~= ns.take(m));
        assert(ns.take(m + 1).last() == ns[m]);
        lemma_rest_fields(ns, before, owner, parent, m + 1, ns.len() as int);
        lemma_rest_fields_keep(ns, before, owner, parent, m + 1, ns.len() as int, y.id);
        assert(ns.take(ns.len() as int) =~= ns);
        let i = a.draft.defs.len() as int;
        assert(b.draft.defs[i] == b.draft.defs.last());
        assert(after.draft.defs[i] == b.draft.defs[i]);
        assert(after.draft.scope.contains_key(y.id) && after.draft.scope[y.id] == i as usize);
        trace::lemma_holds_own(y);
        trace::lemma_holds_child(x, k, y.id);
        assert(found.defs[i] == after.draft.defs[i]);
    }
}

proof fn lemma_member_numbered(n: NodeView, path: Seq<int>)
    requires
        trace::numbered(n),
        leads_to_member(n, path),
    ensures
        trace::numbered(trace::node_at(n, path)),
    decreases path.len(),
{
    reveal_with_fuel(trace::node_at, 3);
    let c = n.children[path[0]];
    trace::lemma_child_numbered(n, path[0]);
    if path.len() == 1 {
        assert(path.skip(1) =~= Seq::<int>::empty());
    } else {
        assert(path.skip(1).skip(1) =~= path.skip(2));
        assert(path.skip(1)[0] == path[1]);
        trace::lemma_child_numbered(c, path[1]);
        lemma_member_numbered(c.children[path[1]], path.skip(2));
    }
}

/// Where among those of its kind a child stands, with no other behind it that
/// has its number.
proof fn lemma_place_of_kind(n: NodeView, kind: Seq<char>, k: int, id: usize) -> (m: int)
    requires
        trace::numbered(n),
        0 <= k < n.children.len(),
        n.children[k].kind == kind,
        n.children[k].id == id,
    ensures
        0 <= m < syntax::of_kind(n.children, kind).len(),
        syntax::of_kind(n.children, kind)[m] == n.children[k],
        forall|j: int|
            m < j < syntax::of_kind(n.children, kind).len() ==> (#[trigger] syntax::of_kind(
                n.children,
                kind,
            )[j]).id != id,
{
    assert(n.children.take(n.children.len() as int) =~= n.children);
    lemma_place_within(n, kind, k, id, n.children.len() as int)
}

proof fn lemma_place_within(n: NodeView, kind: Seq<char>, k: int, id: usize, end: int) -> (m: int)
    requires
        trace::numbered(n),
        0 <= k < end <= n.children.len(),
        n.children[k].kind == kind,
        n.children[k].id == id,
    ensures
        0 <= m < syntax::of_kind(n.children.take(end), kind).len(),
        syntax::of_kind(n.children.take(end), kind)[m] == n.children[k],
        forall|j: int|
            m < j < syntax::of_kind(n.children.take(end), kind).len() ==> (
            #[trigger] syntax::of_kind(n.children.take(end), kind)[j]).id != id,
    decreases end,
{
    let ns = n.children.take(end);
    let before = syntax::of_kind(ns.drop_last(), kind);
    let all = syntax::of_kind(ns, kind);
    assert(ns.drop_last() =~= n.children.take(end - 1));
    if k == end - 1 {
        before.len() as int
    } else {
        let m = lemma_place_within(n, kind, k, id, end - 1);
        let c = n.children[end - 1];
        if c.id == id {
            trace::lemma_holds_own(c);
            trace::lemma_holds_own(n.children[k]);
            trace::lemma_held_once(n, k, end - 1, id);
        }
        assert forall|j: int| m < j < all.len() implies (#[trigger] all[j]).id != id by {
            if j < before.len() {
                assert(all[j] == before[j]);
            }
        }
        m
    }
}

proof fn lemma_rest_fields_keep(
    ns: Seq<NodeView>,
    f: Found,
    owner: Owner,
    parent: Option<usize>,
    i: int,
    k: int,
    id: usize,
)
    requires
        0 <= i <= k <= ns.len(),
        lang_java::with_fields(ns.take(i), f, owner, parent).draft.scope.contains_key(id),
        forall|j: int| i <= j < ns.len() ==> (#[trigger] ns[j]).id != id,
    ensures
        lang_java::with_fields(ns.take(k), f, owner, parent).draft.scope.contains_key(id),
        lang_java::with_fields(ns.take(k), f, owner, parent).draft.scope[id]
            == lang_java::with_fields(ns.take(i), f, owner, parent).draft.scope[id],
    decreases k - i,
{
    if i < k {
        lemma_rest_fields_keep(ns, f, owner, parent, i, k - 1, id);
        assert(ns.take(k).drop_last() =~= ns.take(k - 1));
        assert(ns[k - 1].id != id);
    }
}

/// Does `path` lead through no import?
pub open spec fn beside_imports(n: NodeView, path: Seq<int>) -> bool
    decreases path.len(),
{
    path.len() == 0 || (n.kind != "import_declaration"@ && beside_imports(
        n.children[path[0]],
        path.skip(1),
    ))
}

/// Every import is found, with `.*` behind the path where it brings in
/// everything.
pub proof fn law_imports_are_found(root: NodeView, path: Seq<int>, k: int, what: Seq<char>)
    requires
        trace::leads(root, path),
        beside_imports(root, path),
        trace::node_at(root, path).kind == "import_declaration"@,
        0 <= k < trace::node_at(root, path).children.len(),
        is_import_path(trace::node_at(root, path).children[k]),
        forall|i: int|
            0 <= i < k ==> !is_import_path(#[trigger] trace::node_at(root, path).children[i]),
        trace::node_at(root, path).children[k].text == Some(what),
    ensures
        lang_java::extracted(root).imports.contains(
            ImportView {
                raw: if exists|i: int|
                    0 <= i < trace::node_at(root, path).children.len() && (
                    #[trigger] trace::node_at(root, path).children[i]).kind == "asterisk"@ {
                    what + ".*"@
                } else {
                    what
                },
                line: syntax::line_of(trace::node_at(root, path).start_row),
            },
        ),
{
    let x = trace::node_at(root, path);
    lemma_import_path(x.children, k);
    syntax::lemma_first_of(x.children, "asterisk"@);
    let import = lang_java::own_import(x)[0];
    lemma_import_found(root, path, import);
}

/// Is this the path of an import?
pub open spec fn is_import_path(n: NodeView) -> bool {
    n.kind == "scoped_identifier"@ || n.kind == "identifier"@
}

proof fn lemma_import_path(ns: Seq<NodeView>, k: int)
    requires
        0 <= k < ns.len(),
        is_import_path(ns[k]),
        forall|i: int| 0 <= i < k ==> !is_import_path(#[trigger] ns[i]),
    ensures
        syntax::first_of(ns, "scoped_identifier"@, "identifier"@) == Some(ns[k]),
    decreases ns.len(),
{
    let rest = ns.drop_last();
    assert forall|i: int| 0 <= i < rest.len() implies #[trigger] rest[i] == ns[i] by {}
    if k < rest.len() {
        assert(rest[k] == ns[k]);
        assert forall|i: int| 0 <= i < k implies !is_import_path(#[trigger] rest[i]) by {
            assert(rest[i] == ns[i]);
        }
        lemma_import_path(rest, k);
    } else {
        assert forall|i: int| 0 <= i < rest.len() implies !is_import_path(#[trigger] rest[i]) by {
            assert(rest[i] == ns[i]);
        }
        lemma_no_import_path(rest);
    }
}

proof fn lemma_no_import_path(ns: Seq<NodeView>)
    requires
        forall|i: int| 0 <= i < ns.len() ==> !is_import_path(#[trigger] ns[i]),
    ensures
        syntax::first_of(ns, "scoped_identifier"@, "identifier"@) is None,
    decreases ns.len(),
{
    if ns.len() > 0 {
        let rest = ns.drop_last();
        assert forall|i: int| 0 <= i < rest.len() implies !is_import_path(#[trigger] rest[i]) by {
            assert(rest[i] == ns[i]);
        }
        lemma_no_import_path(rest);
        assert(ns[ns.len() - 1] == ns.last());
    }
}

proof fn lemma_import_found(n: NodeView, path: Seq<int>, import: ImportView)
    requires
        trace::leads(n, path),
        beside_imports(n, path),
        trace::node_at(n, path).kind == "import_declaration"@,
        lang_java::own_import(trace::node_at(n, path)) == seq![import],
    ensures
        lang_java::imports_of(n).contains(import),
    decreases path.len(),
{
    if path.len() == 0 {
        assert(lang_java::imports_of(n)[0] == import);
    } else {
        lemma_import_found(n.children[path[0]], path.skip(1), import);
        lemma_import_among(n.children, path[0], import);
    }
}

proof fn lemma_import_among(ns: Seq<NodeView>, i: int, import: ImportView)
    requires
        0 <= i < ns.len(),
        lang_java::imports_of(ns[i]).contains(import),
    ensures
        lang_java::imports_in(ns).contains(import),
    decreases ns.len(),
{
    let before = lang_java::imports_in(ns.drop_last());
    let last = lang_java::imports_of(ns.last());
    if i < ns.len() - 1 {
        lemma_import_among(ns.drop_last(), i, import);
        let k = choose|k: int| 0 <= k < before.len() && before[k] == import;
        assert((before + last)[k] == import);
    } else {
        let k = choose|k: int| 0 <= k < last.len() && last[k] == import;
        assert((before + last)[before.len() + k] == import);
    }
}

/// Does `path` stay with what is evaluated as a value of its own? From a
/// call it goes to the arguments or to the object that the method is called
/// on, unless that is a mere name.
pub open spec fn evaluated(n: NodeView, path: Seq<int>) -> bool
    decreases path.len(),
{
    path.len() == 0 || {
        let c = n.children[path[0]];
        &&& 0 <= path[0] < n.children.len()
        &&& n.kind != "import_declaration"@
        &&& n.kind != "package_declaration"@
        &&& n.kind != "identifier"@
        &&& n.kind != "type_identifier"@
        &&& n.kind == "method_invocation"@ ==> path[0] == syntax::field_position(
            n.children,
            "arguments"@,
        ) || (path[0] == syntax::field_position(n.children, "object"@) && syntax::field_of(
            n,
            "name"@,
        ) is Some && c.kind != "identifier"@)
        &&& n.kind == "object_creation_expression"@ ==> path[0] == syntax::field_position(
            n.children,
            "arguments"@,
        )
        &&& n.kind == "field_access"@ ==> path[0] == syntax::field_position(n.children, "object"@)
            && syntax::field_of(n, "field"@) is Some && c.kind != "identifier"@ && c.kind
            != "this"@
        &&& evaluated(c, path.skip(1))
    }
}

/// The definition that the node at the end of `path` stands in: that of the
/// last node on the way which opens a scope.
pub open spec fn scope_on(d: DraftView, n: NodeView, path: Seq<int>, current: usize) -> usize
    decreases path.len(),
{
    let def = d.scope_at(n, current);
    if path.len() == 0 {
        def
    } else {
        scope_on(d, n.children[path[0]], path.skip(1), def)
    }
}

proof fn lemma_value_kinds()
    ensures
        "method_invocation"@ != "import_declaration"@,
        "method_invocation"@ != "package_declaration"@,
        "object_creation_expression"@ != "import_declaration"@,
        "object_creation_expression"@ != "package_declaration"@,
        "object_creation_expression"@ != "method_invocation"@,
        "type_identifier"@ != "import_declaration"@,
        "type_identifier"@ != "package_declaration"@,
        "type_identifier"@ != "method_invocation"@,
        "type_identifier"@ != "object_creation_expression"@,
        "field_access"@ != "import_declaration"@,
        "field_access"@ != "package_declaration"@,
        "field_access"@ != "method_invocation"@,
        "field_access"@ != "object_creation_expression"@,
        "field_access"@ != "type_identifier"@,
        "identifier"@ != "import_declaration"@,
        "identifier"@ != "package_declaration"@,
        "identifier"@ != "method_invocation"@,
        "identifier"@ != "object_creation_expression"@,
        "identifier"@ != "type_identifier"@,
        "identifier"@ != "field_access"@,
{
    reveal_strlit("method_invocation");
    reveal_strlit("import_declaration");
    reveal_strlit("package_declaration");
    reveal_strlit("object_creation_expression");
    reveal_strlit("type_identifier");
    reveal_strlit("field_access");
    reveal_strlit("identifier");
    assert("method_invocation"@[0] == 'm' && "package_declaration"@[0] == 'p');
    assert("import_declaration"@[0] == 'i' && "import_declaration"@[1] == 'm');
    assert("identifier"@[0] == 'i' && "identifier"@[1] == 'd');
    assert("object_creation_expression"@[0] == 'o' && "type_identifier"@[0] == 't');
    assert("field_access"@[0] == 'f');
}

proof fn lemma_refs_in(ns: Seq<NodeView>, c: Context, current: usize, i: int)
    requires
        0 <= i < ns.len(),
    ensures
        trace::among(
            lang_java::refs_of(ns[i], c, current),
            lang_java::refs_in(ns, c, current),
        ),
    decreases ns.len(),
{
    if i < ns.len() - 1 {
        lemma_refs_in(ns.drop_last(), c, current, i);
    }
    trace::lemma_among_sum(
        lang_java::refs_of(ns[i], c, current),
        lang_java::refs_in(ns.drop_last(), c, current),
        lang_java::refs_of(ns.last(), c, current),
    );
}

/// The references of the call `n` but those in its arguments.
spec fn callee_of_call(n: NodeView, c: Context, def: usize) -> RefsView {
    match syntax::field_of(n, "name"@) {
        Some(name) => match syntax::field_of(n, "object"@) {
            Some(object) => own_call(n, name, object, def).plus(
                if object.kind == "identifier"@ {
                    lang_java::bare_read(c, def, syntax::text_of(object), n)
                } else {
                    lang_java::refs_of(object, c, def)
                },
            ),
            None => RefsView::call(draft::ref_at(def, syntax::text_of(name), None, n)),
        },
        None => RefsView::none(),
    }
}

spec fn own_call(n: NodeView, name: NodeView, object: NodeView, def: usize) -> RefsView {
    RefsView::call(
        draft::ref_at(
            def,
            syntax::text_of(name),
            if object.kind == "identifier"@ || object.kind == "field_access"@ {
                Some(syntax::text_of(object))
            } else {
                None
            },
            n,
        ),
    )
}

/// The references of the node at the end of `path` are found.
proof fn lemma_reached(n: NodeView, c: Context, current: usize, path: Seq<int>) -> (cur: usize)
    requires
        evaluated(n, path),
    ensures
        trace::among(
            lang_java::refs_of(trace::node_at(n, path), c, cur),
            lang_java::refs_of(n, c, current),
        ),
        c.draft.scope_at(trace::node_at(n, path), cur) == scope_on(c.draft, n, path, current),
    decreases path.len(),
{
    lemma_value_kinds();
    if path.len() == 0 {
        current
    } else {
        let def = c.draft.scope_at(n, current);
        let below = n.children[path[0]];
        let cur = lemma_reached(below, c, def, path.skip(1));
        let own = lang_java::refs_of(trace::node_at(n, path), c, cur);
        if n.kind == "method_invocation"@ {
            let callee = callee_of_call(n, c, def);
            if path[0] == syntax::field_position(n.children, "object"@) && below.kind
                != "identifier"@ && syntax::field_of(n, "name"@) is Some {
                let name = syntax::field_of(n, "name"@).unwrap();
                trace::lemma_among_sum(
                    own,
                    own_call(n, name, below, def),
                    lang_java::refs_of(below, c, def),
                );
                assert(trace::among(own, callee));
            }
            if let Some(args) = syntax::field_of(n, "arguments"@) {
                trace::lemma_among_sum(own, callee, lang_java::refs_of(args, c, def));
                assert(lang_java::refs_of(n, c, current) == callee.plus(
                    lang_java::refs_of(args, c, def),
                ));
            } else {
                assert(lang_java::refs_of(n, c, current) == callee);
            }
        } else if n.kind == "object_creation_expression"@ {
            let called = match syntax::field_of(n, "type"@) {
                Some(ty) => RefsView::call(
                    draft::ref_at(def, lang_java::simple_name(syntax::text_of(ty)), None, n),
                ),
                None => RefsView::none(),
            };
            trace::lemma_among_sum(own, called, lang_java::refs_of(below, c, def));
        } else if n.kind == "field_access"@ {
        } else {
            lemma_refs_in(n.children, c, def, path[0]);
        }
        cur
    }
}

/// What the expression `x` calls: a method by its name, with the object that
/// it is called on where that is a name or a field, and a constructor by the
/// simple name of its type.
pub open spec fn called_by(x: NodeView) -> Option<(Seq<char>, Option<Seq<char>>)> {
    if x.kind == "method_invocation"@ {
        match (syntax::field_of(x, "name"@), syntax::field_of(x, "object"@)) {
            (Some(name), Some(object)) => if object.kind == "identifier"@ || object.kind
                == "field_access"@ {
                Some((syntax::text_of(name), Some(syntax::text_of(object))))
            } else {
                Some((syntax::text_of(name), None))
            },
            (Some(name), None) => Some((syntax::text_of(name), None)),
            _ => None,
        }
    } else if x.kind == "object_creation_expression"@ {
        match syntax::field_of(x, "type"@) {
            Some(ty) => Some((lang_java::simple_name(syntax::text_of(ty)), None)),
            None => None,
        }
    } else {
        None
    }
}

/// Every call of a method or a constructor is found, however deep it stands
/// and also below the object of another call; it comes from the definition
/// around it.
pub proof fn law_calls_are_found(
    root: NodeView,
    path: Seq<int>,
    name: Seq<char>,
    qualifier: Option<Seq<char>>,
)
    requires
        evaluated(root, path),
        called_by(trace::node_at(root, path)) == Some((name, qualifier)),
    ensures
        trace::refers(
            lang_java::extracted(root).calls,
            scope_on(lang_java::found_in(root).draft, root, path, 0),
            name,
            qualifier,
        ),
{
    lemma_value_kinds();
    let c = lang_java::context_of(root);
    let cur = lemma_reached(root, c, 0, path);
    let x = trace::node_at(root, path);
    let def = c.draft.scope_at(x, cur);
    lemma_same_scopes(lang_java::found_in(root).draft, c.draft, root, path, 0);
    let refs = lang_java::refs_of(root, c, 0);
    let r = draft::ref_at(def, name, qualifier, x);
    let here = RefsView::call(r);
    assert(here.calls[0] == r);
    assert(here.calls.contains(r));
    assert(trace::among(here, here));
    let own = lang_java::refs_of(x, c, cur);
    let callee = if x.kind == "method_invocation"@ {
        if let Some(object) = syntax::field_of(x, "object"@) {
            trace::lemma_among_sum(
                here,
                here,
                if object.kind == "identifier"@ {
                    lang_java::bare_read(c, def, syntax::text_of(object), x)
                } else {
                    lang_java::refs_of(object, c, def)
                },
            );
        }
        callee_of_call(x, c, def)
    } else {
        here
    };
    assert(trace::among(here, callee));
    if let Some(args) = syntax::field_of(x, "arguments"@) {
        trace::lemma_among_sum(here, callee, lang_java::refs_of(args, c, def));
        assert(own == callee.plus(lang_java::refs_of(args, c, def)));
    } else {
        assert(own == callee);
    }
    assert(own.calls.contains(r));
    assert(refs.calls.contains(r));
    trace::lemma_kept(refs.calls, r);
}

proof fn lemma_same_scopes(a: DraftView, b: DraftView, n: NodeView, path: Seq<int>, current: usize)
    requires
        a.scope == b.scope,
    ensures
        scope_on(a, n, path, current) == scope_on(b, n, path, current),
    decreases path.len(),
{
    if path.len() > 0 {
        lemma_same_scopes(a, b, n.children[path[0]], path.skip(1), a.scope_at(n, current));
    }
}

/// Every name in the place of a type is read.
pub proof fn law_type_names_are_read(root: NodeView, path: Seq<int>)
    requires
        evaluated(root, path),
        trace::node_at(root, path).kind == "type_identifier"@,
    ensures
        trace::refers(
            lang_java::extracted(root).reads,
            scope_on(lang_java::found_in(root).draft, root, path, 0),
            syntax::text_of(trace::node_at(root, path)),
            None,
        ),
{
    lemma_value_kinds();
    let c = lang_java::context_of(root);
    let cur = lemma_reached(root, c, 0, path);
    let x = trace::node_at(root, path);
    let def = c.draft.scope_at(x, cur);
    lemma_same_scopes(lang_java::found_in(root).draft, c.draft, root, path, 0);
    let refs = lang_java::refs_of(root, c, 0);
    let own = lang_java::refs_of(x, c, cur);
    let r = draft::ref_at(def, syntax::text_of(x), None, x);
    assert(own.reads[0] == r);
    assert(own.reads.contains(r));
    assert(refs.reads.contains(r));
    trace::lemma_kept(refs.reads, r);
}

/// The simple name of a type is what is written behind its package and
/// before its type arguments.
pub proof fn law_simple_names(package: Seq<char>, name: Seq<char>, arguments: Seq<char>)
    requires
        name.len() > 0,
        !name.contains('<'),
        !name.contains('.'),
        text::trim(name) == name,
        !package.contains('<'),
    ensures
        lang_java::simple_name(name) == name,
        lang_java::simple_name(package + seq!['.'] + name) == name,
        lang_java::simple_name(name + seq!['<'] + arguments) == name,
        lang_java::simple_name(package + seq!['.'] + name + seq!['<'] + arguments) == name,
{
    let full = package + seq!['.'] + name;
    assert(!full.contains('<')) by {
        if full.contains('<') {
            let i = choose|i: int| 0 <= i < full.len() && full[i] == '<';
            if i < package.len() {
                assert(package[i] == '<');
            } else if i > package.len() {
                assert(name[i - package.len() - 1] == '<');
            }
        }
    }
    text::law_tail_follows_last(package, name, '.');
    text::lemma_split_whole(name, '<');
    text::lemma_split_whole(full, '<');
    text::lemma_split_cat(name, arguments, '<');
    text::lemma_split_cat(full, arguments, '<');
}

/// A name alone that is evaluated in a method, or `this` with it, is a read
/// of the field of that name, where the type of the method declares one.
pub proof fn law_field_reads_are_found(
    root: NodeView,
    path: Seq<int>,
    ty: Seq<char>,
    method: Seq<char>,
    field: Seq<char>,
)
    requires
        evaluated(root, path),
        is_own_field_name(trace::node_at(root, path), field),
        trace::node_at(root, path).kind == "identifier"@ ==> !lang_java::context_of(
            root,
        ).draft.names.contains(trace::node_at(root, path).id),
        lang_java::found_in(root).fields.contains((ty, field)),
        !ty.contains('.'),
        !ty.contains('#'),
        !method.contains('#'),
        ({
            let from = scope_on(lang_java::found_in(root).draft, root, path, 0);
            &&& from < lang_java::extracted(root).defs.len()
            &&& lang_java::extracted(root).defs[from as int].kind == DefKind::Method
                || lang_java::extracted(root).defs[from as int].kind == DefKind::TestCase
            &&& lang_java::extracted(root).defs[from as int].name == ty + seq!['.'] + method
        }),
    ensures
        trace::refers(
            lang_java::extracted(root).reads,
            scope_on(lang_java::found_in(root).draft, root, path, 0),
            ty + "#"@ + field,
            None,
        ),
{
    lemma_value_kinds();
    reveal_strlit("this");
    reveal_strlit("identifier");
    assert("this"@[0] == 't' && "identifier"@[0] == 'i');
    let c = lang_java::context_of(root);
    let cur = lemma_reached(root, c, 0, path);
    let x = trace::node_at(root, path);
    let def = c.draft.scope_at(x, cur);
    lemma_same_scopes(lang_java::found_in(root).draft, c.draft, root, path, 0);
    let full = ty + seq!['.'] + method;
    assert(!full.contains('#')) by {
        if full.contains('#') {
            let i = choose|i: int| 0 <= i < full.len() && full[i] == '#';
            if i < ty.len() {
                assert(ty[i] == '#');
            } else if i > ty.len() {
                assert(method[i - ty.len() - 1] == '#');
            }
        }
    }
    text::lemma_split_whole(full, '#');
    text::lemma_split_whole(ty, '.');
    text::lemma_split_cat(ty, method, '.');
    text::lemma_split_nonempty(method, '.');
    assert(lang_java::class_of(c.draft.defs[def as int]) == Some(ty));
    let refs = lang_java::refs_of(root, c, 0);
    let own = lang_java::refs_of(x, c, cur);
    let r = draft::ref_at(def, ty + "#"@ + field, None, x);
    assert(own.reads[0] == r);
    assert(own.reads.contains(r));
    assert(refs.reads.contains(r));
    trace::lemma_kept(refs.reads, r);
}

/// Is this the name of a field of the type around it: alone, or behind
/// `this` and a dot?
pub open spec fn is_own_field_name(x: NodeView, field: Seq<char>) -> bool {
    ||| x.kind == "identifier"@ && syntax::text_of(x) == field
    ||| x.kind == "field_access"@ && (syntax::field_of(x, "object"@) matches Some(o) && o.kind
        == "this"@) && (syntax::field_of(x, "field"@) matches Some(f) && syntax::text_of(f)
        == field)
}

/// A name alone that is evaluated is read where an import brings it in and
/// no type of the file has a field of that name.
pub proof fn law_imported_names_are_read(
    root: NodeView,
    path: Seq<int>,
    k: int,
    package: Seq<char>,
    name: Seq<char>,
)
    requires
        evaluated(root, path),
        trace::node_at(root, path).kind == "identifier"@,
        syntax::text_of(trace::node_at(root, path)) == name,
        !lang_java::context_of(root).draft.names.contains(trace::node_at(root, path).id),
        0 <= k < lang_java::extracted(root).imports.len(),
        lang_java::extracted(root).imports[k].raw == package + seq!['.'] + name,
        name.len() > 0,
        !name.contains('.'),
        name != "*"@,
        forall|ty: Seq<char>| !#[trigger] lang_java::found_in(root).fields.contains((ty, name)),
    ensures
        trace::refers(
            lang_java::extracted(root).reads,
            scope_on(lang_java::found_in(root).draft, root, path, 0),
            name,
            None,
        ),
{
    lemma_value_kinds();
    let c = lang_java::context_of(root);
    let imports = lang_java::imports_of(root);
    text::law_tail_follows_last(package, name, '.');
    let raw = imports[k].raw;
    reveal_strlit(".*");
    reveal_strlit("*");
    assert(text::without_suffix(raw, ".*"@) is None) by {
        if text::ends_with(raw, ".*"@) {
            let end = raw.skip(raw.len() - 2);
            assert(end =~= ".*"@);
            assert(end[1] == raw[raw.len() - 1] && end[0] == raw[raw.len() - 2]);
            assert(name.last() == '*');
            if name.len() > 1 {
                assert(name[name.len() - 2] == raw[raw.len() - 2]);
                assert(name.contains('.'));
            } else {
                assert(name =~= "*"@);
            }
        }
    }
    lemma_imported_name(imports, k);
    let cur = lemma_reached(root, c, 0, path);
    let x = trace::node_at(root, path);
    let def = c.draft.scope_at(x, cur);
    lemma_same_scopes(lang_java::found_in(root).draft, c.draft, root, path, 0);
    let refs = lang_java::refs_of(root, c, 0);
    let own = lang_java::refs_of(x, c, cur);
    let r = draft::ref_at(def, name, None, x);
    assert(c.known.contains(name));
    assert(own.reads[0] == r);
    assert(own.reads.contains(r));
    assert(refs.reads.contains(r));
    trace::lemma_kept(refs.reads, r);
}

proof fn lemma_imported_name(imports: Seq<ImportView>, k: int)
    requires
        0 <= k < imports.len(),
        lang_java::imported_name(imports[k].raw).len() > 0,
    ensures
        lang_java::imported_names(imports).contains(lang_java::imported_name(imports[k].raw)),
    decreases imports.len(),
{
    if k < imports.len() - 1 {
        assert(imports.drop_last()[k] == imports[k]);
        lemma_imported_name(imports.drop_last(), k);
    }
}

} // verus!
