//! Where a node stands in a syntax tree: the way that leads to it from the
//! root, and the definition that its scope belongs to.
use vstd::prelude::*;

use crate::draft;
use crate::draft::{DraftView, RefsView};
use crate::language::RefView;
use crate::syntax;
use crate::syntax::{NodeView, RowView};

verus! {

/// Is there a node below `n` at the end of `path`, which gives the position
/// of the child to go to at each step?
pub open spec fn leads(n: NodeView, path: Seq<int>) -> bool
    decreases path.len(),
{
    path.len() == 0 || (0 <= path[0] < n.children.len() && leads(
        n.children[path[0]],
        path.skip(1),
    ))
}

/// The node at the end of `path`.
pub open spec fn node_at(n: NodeView, path: Seq<int>) -> NodeView
    decreases path.len(),
{
    if path.len() == 0 {
        n
    } else {
        node_at(n.children[path[0]], path.skip(1))
    }
}

/// Does every node of the tree have a number of its own?
pub open spec fn numbered(root: NodeView) -> bool {
    forall|p: Seq<int>, q: Seq<int>|
        leads(root, p) && leads(root, q) && (#[trigger] node_at(root, p)).id == (
        #[trigger] node_at(root, q)).id ==> p == q
}

/// Does a node with the number `id` stand at or below `n`?
pub open spec fn holds(n: NodeView, id: usize) -> bool {
    exists|p: Seq<int>| leads(n, p) && (#[trigger] node_at(n, p)).id == id
}

/// A node stands where one path leads and then another.
pub proof fn lemma_path_cat(n: NodeView, p: Seq<int>, q: Seq<int>)
    requires
        leads(n, p),
    ensures
        leads(n, p + q) == leads(node_at(n, p), q),
        node_at(n, p + q) == node_at(node_at(n, p), q),
    decreases p.len(),
{
    if p.len() == 0 {
        assert(p + q =~= q);
    } else {
        lemma_path_cat(n.children[p[0]], p.skip(1), q);
        assert((p + q).skip(1) =~= p.skip(1) + q);
    }
}

/// What leads to a node leads to the nodes above it first.
pub proof fn lemma_path_take(n: NodeView, path: Seq<int>, k: int)
    requires
        leads(n, path),
        0 <= k <= path.len(),
    ensures
        leads(n, path.take(k)),
    decreases path.len(),
{
    if k > 0 {
        lemma_path_take(n.children[path[0]], path.skip(1), k - 1);
        assert(path.take(k).skip(1) =~= path.skip(1).take(k - 1));
    }
}

/// A child stands at the end of a path of one step.
pub proof fn lemma_child_path(n: NodeView, i: int)
    requires
        0 <= i < n.children.len(),
    ensures
        leads(n, seq![i]),
        node_at(n, seq![i]) == n.children[i],
{
    assert(seq![i].skip(1) =~= Seq::<int>::empty());
    reveal_with_fuel(leads, 2);
    reveal_with_fuel(node_at, 2);
}

/// What stands below a child stands below the node.
pub proof fn lemma_holds_child(n: NodeView, i: int, id: usize)
    requires
        0 <= i < n.children.len(),
        holds(n.children[i], id),
    ensures
        holds(n, id),
{
    let p = choose|p: Seq<int>|
        leads(n.children[i], p) && (#[trigger] node_at(n.children[i], p)).id == id;
    lemma_child_path(n, i);
    lemma_path_cat(n, seq![i], p);
    assert(node_at(n, seq![i] + p).id == id);
}

/// A node holds its own number.
pub proof fn lemma_holds_own(n: NodeView)
    ensures
        holds(n, n.id),
{
    assert(node_at(n, Seq::<int>::empty()).id == n.id);
}

/// What stands below a node's field stands below the node.
pub proof fn lemma_holds_field(n: NodeView, name: Seq<char>, id: usize)
    requires
        syntax::field_of(n, name) matches Some(c) && holds(c, id),
    ensures
        holds(n, id),
{
    lemma_holds_child(n, syntax::field_position(n.children, name), id);
}

/// In a numbered tree a number that two children hold makes them one.
pub proof fn lemma_held_once(root: NodeView, i: int, j: int, id: usize)
    requires
        numbered(root),
        0 <= i < root.children.len(),
        0 <= j < root.children.len(),
        holds(root.children[i], id),
        holds(root.children[j], id),
    ensures
        i == j,
{
    let p = choose|p: Seq<int>|
        leads(root.children[i], p) && (#[trigger] node_at(root.children[i], p)).id == id;
    let q = choose|q: Seq<int>|
        leads(root.children[j], q) && (#[trigger] node_at(root.children[j], q)).id == id;
    lemma_child_path(root, i);
    lemma_child_path(root, j);
    lemma_path_cat(root, seq![i], p);
    lemma_path_cat(root, seq![j], q);
    assert((seq![i] + p)[0] == i && (seq![j] + q)[0] == j);
    assert(node_at(root, seq![i] + p).id == node_at(root, seq![j] + q).id);
}

/// The root of a numbered tree has a number that none of its children holds.
pub proof fn lemma_root_apart(root: NodeView, i: int)
    requires
        numbered(root),
        0 <= i < root.children.len(),
    ensures
        !holds(root.children[i], root.id),
{
    if holds(root.children[i], root.id) {
        let p = choose|p: Seq<int>|
            leads(root.children[i], p) && (#[trigger] node_at(root.children[i], p)).id == root.id;
        lemma_child_path(root, i);
        lemma_path_cat(root, seq![i], p);
        assert(node_at(root, Seq::<int>::empty()).id == node_at(root, seq![i] + p).id);
        assert((seq![i] + p).len() > 0);
    }
}

/// Is `from` the definition that the node at the end of `path` is reached
/// in, when `current` is that around `n`: one whose scope a node on the way
/// opens, or else `current`?
pub open spec fn reached_in(
    d: DraftView,
    n: NodeView,
    path: Seq<int>,
    current: usize,
    from: usize,
) -> bool {
    ||| from == current && !d.scope.contains_key(n.id)
    ||| exists|k: int|
        0 <= k <= path.len() && d.scope.contains_key((#[trigger] node_at(n, path.take(k))).id)
            && from == d.scope[node_at(n, path.take(k)).id]
}

/// What is reached from a child in its definition is reached from the node.
pub proof fn lemma_reached(d: DraftView, n: NodeView, path: Seq<int>, current: usize, from: usize)
    requires
        path.len() > 0,
        reached_in(d, n.children[path[0]], path.skip(1), d.scope_at(n, current), from),
    ensures
        reached_in(d, n, path, current, from),
{
    let c = n.children[path[0]];
    let def = d.scope_at(n, current);
    if from == def && !d.scope.contains_key(c.id) {
        lemma_reached_here(d, n, path, current);
    } else {
        let k = choose|k: int|
            0 <= k <= path.skip(1).len() && d.scope.contains_key(
                (#[trigger] node_at(c, path.skip(1).take(k))).id,
            ) && from == d.scope[node_at(c, path.skip(1).take(k)).id];
        assert(path.take(k + 1).skip(1) =~= path.skip(1).take(k));
        assert(node_at(n, path.take(k + 1)) == node_at(c, path.skip(1).take(k)));
    }
}

/// The definition at a node is reached on every way from it.
pub proof fn lemma_reached_here(d: DraftView, n: NodeView, path: Seq<int>, current: usize)
    ensures
        reached_in(d, n, path, current, d.scope_at(n, current)),
{
    if d.scope.contains_key(n.id) {
        assert(path.take(0) =~= Seq::<int>::empty());
        assert(node_at(n, path.take(0)) == n);
    }
}

/// References are among those that they are added to and with.
pub proof fn lemma_call_in_sum(a: RefsView, b: RefsView, r: RefView)
    requires
        a.calls.contains(r) || b.calls.contains(r),
    ensures
        a.plus(b).calls.contains(r),
{
    if a.calls.contains(r) {
        let i = choose|i: int| 0 <= i < a.calls.len() && a.calls[i] == r;
        assert(a.plus(b).calls[i] == r);
    } else {
        let i = choose|i: int| 0 <= i < b.calls.len() && b.calls[i] == r;
        assert(a.plus(b).calls[a.calls.len() + i] == r);
    }
}

/// References are among those that they are added to and with.
pub proof fn lemma_read_in_sum(a: RefsView, b: RefsView, r: RefView)
    requires
        a.reads.contains(r) || b.reads.contains(r),
    ensures
        a.plus(b).reads.contains(r),
{
    if a.reads.contains(r) {
        let i = choose|i: int| 0 <= i < a.reads.len() && a.reads[i] == r;
        assert(a.plus(b).reads[i] == r);
    } else {
        let i = choose|i: int| 0 <= i < b.reads.len() && b.reads[i] == r;
        assert(a.plus(b).reads[a.reads.len() + i] == r);
    }
}

/// Does none of `ns` hold a node with the number `id`?
pub open spec fn none_holds(ns: Seq<NodeView>, id: usize) -> bool {
    forall|i: int| 0 <= i < ns.len() ==> !#[trigger] holds(ns[i], id)
}

/// Has `e` the scopes of `d` that belong to no node of `ns`?
pub open spec fn keeps_scopes(d: DraftView, e: DraftView, ns: Seq<NodeView>) -> bool {
    forall|id: usize| #[trigger]
        d.scope.contains_key(id) && none_holds(ns, id) ==> e.scope.contains_key(id) && e.scope[id]
            == d.scope[id]
}

/// What stands below one of the children of a node stands below the node.
pub proof fn lemma_none_below(n: NodeView, c: NodeView, id: usize)
    requires
        !holds(n, id),
        n.children.contains(c),
    ensures
        !holds(c, id),
        none_holds(c.children, id),
{
    let i = choose|i: int| 0 <= i < n.children.len() && n.children[i] == c;
    if holds(c, id) {
        lemma_holds_child(n, i, id);
    }
    assert forall|k: int| 0 <= k < c.children.len() implies !#[trigger] holds(
        c.children[k],
        id,
    ) by {
        if holds(c.children[k], id) {
            lemma_holds_child(c, k, id);
        }
    }
}

/// None of the children of a node holds what the node does not.
pub proof fn lemma_none_among_children(n: NodeView, id: usize)
    requires
        !holds(n, id),
    ensures
        none_holds(n.children, id),
{
    assert forall|k: int| 0 <= k < n.children.len() implies !#[trigger] holds(
        n.children[k],
        id,
    ) by {
        if holds(n.children[k], id) {
            lemma_holds_child(n, k, id);
        }
    }
}

/// The tree below a node of a numbered tree is numbered.
pub proof fn lemma_child_numbered(n: NodeView, i: int)
    requires
        numbered(n),
        0 <= i < n.children.len(),
    ensures
        numbered(n.children[i]),
{
    let c = n.children[i];
    lemma_child_path(n, i);
    assert forall|p: Seq<int>, q: Seq<int>|
        leads(c, p) && leads(c, q) && (#[trigger] node_at(c, p)).id == (#[trigger] node_at(
            c,
            q,
        )).id implies p == q by {
        lemma_path_cat(n, seq![i], p);
        lemma_path_cat(n, seq![i], q);
        assert(node_at(n, seq![i] + p).id == node_at(n, seq![i] + q).id);
        assert((seq![i] + p).skip(1) =~= p);
        assert((seq![i] + q).skip(1) =~= q);
    }
}

/// The tree below a node of a numbered tree is numbered.
pub proof fn lemma_numbered_at(n: NodeView, path: Seq<int>)
    requires
        numbered(n),
        leads(n, path),
    ensures
        numbered(node_at(n, path)),
        holds(n, node_at(n, path).id),
    decreases path.len(),
{
    if path.len() > 0 {
        lemma_child_numbered(n, path[0]);
        lemma_numbered_at(n.children[path[0]], path.skip(1));
        lemma_holds_child(n, path[0], node_at(n, path).id);
    } else {
        lemma_holds_own(n);
    }
}

/// None of the first nodes holds what none of all holds.
pub proof fn lemma_none_before(ns: Seq<NodeView>, id: usize)
    requires
        ns.len() > 0,
        none_holds(ns, id),
    ensures
        none_holds(ns.drop_last(), id),
        !holds(ns.last(), id),
{
    assert forall|i: int| 0 <= i < ns.drop_last().len() implies !#[trigger] holds(
        ns.drop_last()[i],
        id,
    ) by {
        assert(ns.drop_last()[i] == ns[i]);
    }
    assert(ns[ns.len() - 1] == ns.last());
}

/// In a numbered tree what one child holds none of those behind it holds.
pub proof fn lemma_none_behind(n: NodeView, i: int, id: usize)
    requires
        numbered(n),
        0 <= i < n.children.len(),
        holds(n.children[i], id),
    ensures
        none_holds(n.children.skip(i + 1), id),
{
    let rest = n.children.skip(i + 1);
    assert forall|k: int| 0 <= k < rest.len() implies !#[trigger] holds(rest[k], id) by {
        assert(rest[k] == n.children[i + 1 + k]);
        if holds(rest[k], id) {
            lemma_held_once(n, i, i + 1 + k, id);
        }
    }
}

/// Are all references of `a` among those of `b`?
pub open spec fn among(a: RefsView, b: RefsView) -> bool {
    &&& forall|r: RefView| #[trigger] a.calls.contains(r) ==> b.calls.contains(r)
    &&& forall|r: RefView| #[trigger] a.reads.contains(r) ==> b.reads.contains(r)
}

pub proof fn lemma_among_sum(a: RefsView, x: RefsView, y: RefsView)
    requires
        among(a, x) || among(a, y),
    ensures
        among(a, x.plus(y)),
{
    assert forall|r: RefView| #[trigger] a.calls.contains(r) implies x.plus(y).calls.contains(
        r,
    ) by {
        lemma_call_in_sum(x, y, r);
    }
    assert forall|r: RefView| #[trigger] a.reads.contains(r) implies x.plus(y).reads.contains(
        r,
    ) by {
        lemma_read_in_sum(x, y, r);
    }
}

/// Is there a reference from the definition `from` to `name`?
pub open spec fn refers(
    refs: Seq<RefView>,
    from: usize,
    name: Seq<char>,
    qualifier: Option<Seq<char>>,
) -> bool {
    exists|i: int|
        0 <= i < refs.len() && (#[trigger] refs[i]).from_def == from && refs[i].name == name
            && refs[i].qualifier == qualifier
}

/// A reference that was found is kept, or one that goes to the same.
pub proof fn lemma_kept(refs: Seq<RefView>, r: RefView)
    requires
        refs.contains(r),
    ensures
        refers(draft::firsts(refs), r.from_def, r.name, r.qualifier),
{
    let at = choose|at: int| 0 <= at < refs.len() && refs[at] == r;
    draft::law_kept_references_are_distinct(refs);
    assert(draft::has_target(draft::firsts(refs), refs[at]));
    let i = choose|i: int|
        0 <= i < draft::firsts(refs).len() && draft::same_target(
            #[trigger] draft::firsts(refs)[i],
            r,
        );
    assert(draft::firsts(refs)[i].from_def == r.from_def);
}

proof fn lemma_numbers_of_tree(
    rows: Seq<RowView>,
    src: Seq<char>,
    i: int,
    end: int,
    p: Seq<int>,
)
    requires
        0 <= i < end <= usize::MAX,
        leads(syntax::tree_of(rows, src, i, end), p),
    ensures
        i <= node_at(syntax::tree_of(rows, src, i, end), p).id < end,
        p.len() > 0 ==> i < node_at(syntax::tree_of(rows, src, i, end), p).id,
    decreases end - i, 0nat,
{
    if p.len() > 0 {
        lemma_numbers_of_forest(rows, src, i + 1, end, p[0], p.skip(1));
    }
}

proof fn lemma_numbers_of_forest(
    rows: Seq<RowView>,
    src: Seq<char>,
    i: int,
    end: int,
    k: int,
    p: Seq<int>,
)
    requires
        0 <= i <= end <= usize::MAX,
        0 <= k < syntax::forest_of(rows, src, i, end).len(),
        leads(syntax::forest_of(rows, src, i, end)[k], p),
    ensures
        i <= node_at(syntax::forest_of(rows, src, i, end)[k], p).id < end,
    decreases end - i, 1nat,
{
    if i < end {
        let e = syntax::subtree_end(rows, i, i + 1, end);
        if i < e <= end {
            if k == 0 {
                lemma_numbers_of_tree(rows, src, i, e, p);
            } else {
                lemma_numbers_of_forest(rows, src, e, end, k - 1, p);
            }
        }
    }
}

proof fn lemma_tree_numbered(
    rows: Seq<RowView>,
    src: Seq<char>,
    i: int,
    end: int,
    p: Seq<int>,
    q: Seq<int>,
)
    requires
        0 <= i < end <= usize::MAX,
        leads(syntax::tree_of(rows, src, i, end), p),
        leads(syntax::tree_of(rows, src, i, end), q),
        node_at(syntax::tree_of(rows, src, i, end), p).id == node_at(
            syntax::tree_of(rows, src, i, end),
            q,
        ).id,
    ensures
        p == q,
    decreases end - i, 0nat,
{
    if p.len() == 0 || q.len() == 0 {
        lemma_numbers_of_tree(rows, src, i, end, p);
        lemma_numbers_of_tree(rows, src, i, end, q);
        assert(p =~= q);
    } else {
        lemma_forest_numbered(rows, src, i + 1, end, p[0], p.skip(1), q[0], q.skip(1));
        assert(p =~= seq![p[0]] + p.skip(1));
        assert(q =~= seq![q[0]] + q.skip(1));
    }
}

proof fn lemma_forest_numbered(
    rows: Seq<RowView>,
    src: Seq<char>,
    i: int,
    end: int,
    k: int,
    p: Seq<int>,
    l: int,
    q: Seq<int>,
)
    requires
        0 <= i <= end <= usize::MAX,
        0 <= k < syntax::forest_of(rows, src, i, end).len(),
        0 <= l < syntax::forest_of(rows, src, i, end).len(),
        leads(syntax::forest_of(rows, src, i, end)[k], p),
        leads(syntax::forest_of(rows, src, i, end)[l], q),
        node_at(syntax::forest_of(rows, src, i, end)[k], p).id == node_at(
            syntax::forest_of(rows, src, i, end)[l],
            q,
        ).id,
    ensures
        k == l,
        p == q,
    decreases end - i, 1nat,
{
    if i < end {
        let e = syntax::subtree_end(rows, i, i + 1, end);
        if i < e <= end {
            if k == 0 && l == 0 {
                lemma_tree_numbered(rows, src, i, e, p, q);
            } else if k == 0 {
                lemma_numbers_of_tree(rows, src, i, e, p);
                lemma_numbers_of_forest(rows, src, e, end, l - 1, q);
            } else if l == 0 {
                lemma_numbers_of_tree(rows, src, i, e, q);
                lemma_numbers_of_forest(rows, src, e, end, k - 1, p);
            } else {
                lemma_forest_numbered(rows, src, e, end, k - 1, p, l - 1, q);
            }
        }
    }
}

/// In the tree that is made of a parsed source, every node has a number of
/// its own.
pub proof fn law_parsed_trees_are_numbered(rows: Seq<RowView>, src: Seq<char>, root: NodeView)
    requires
        rows.len() <= usize::MAX,
        syntax::tree_of_all(rows, src) == Some(root),
    ensures
        numbered(root),
{
    assert forall|p: Seq<int>, q: Seq<int>|
        leads(root, p) && leads(root, q) && (#[trigger] node_at(root, p)).id == (
        #[trigger] node_at(root, q)).id implies p == q by {
        lemma_tree_numbered(rows, src, 0, rows.len() as int, p, q);
    }
}

} // verus!
