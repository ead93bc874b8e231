//! What the TypeScript plugin finds, told by the nodes of the tree.
use vstd::prelude::*;

use crate::draft;
use crate::draft::{DraftView, RefsView};
use crate::graph::DefKind;
use crate::lang_ts;
use crate::lang_ts::{Bindings, TestCallKind};
use crate::language::{DefView, ExtractionView, ImportView};
use crate::syntax;
use crate::syntax::NodeView;
use crate::trace;

verus! {

/// The name at the head of a callee: `it` in `it` and in `it.only`.
pub open spec fn head_of(callee: NodeView) -> Option<Seq<char>> {
    if callee.kind == "identifier"@ {
        callee.text
    } else if callee.kind == "member_expression"@ {
        match syntax::field_of(callee, "object"@) {
            Some(object) => if object.kind == "identifier"@ {
                object.text
            } else {
                None
            },
            None => None,
        }
    } else {
        None
    }
}

/// The head of the call `x`.
pub open spec fn head_of_call(x: NodeView) -> Option<Seq<char>> {
    match syntax::field_of(x, "function"@) {
        Some(f) => if x.kind == "call_expression"@ {
            head_of(f)
        } else {
            None
        },
        None => None,
    }
}

/// Is `x` a call of `it` or of `test`, or of a member of one of them?
pub open spec fn is_test(x: NodeView) -> bool {
    head_of_call(x) == Some("it"@) || head_of_call(x) == Some("test"@)
}

/// Is `x` a call of `describe`, or of a member of it?
pub open spec fn is_group(x: NodeView) -> bool {
    head_of_call(x) == Some("describe"@)
}

/// The call that is called in turn by the call `x`, as `it.each(table)` is in
/// `it.each(table)("name", fn)`.
pub open spec fn table_of(x: NodeView) -> Option<NodeView> {
    match syntax::field_of(x, "function"@) {
        Some(f) => if x.kind == "call_expression"@ && f.kind == "call_expression"@ {
            Some(f)
        } else {
            None
        },
        None => None,
    }
}

/// Is `x` a test, or a call of what a call of a member of a test gave?
pub open spec fn is_test_or_table(x: NodeView) -> bool {
    is_test(x) || (table_of(x) matches Some(f) && is_test(f))
}

/// Is `x` a group, or a call of what a call of a member of a group gave?
pub open spec fn is_group_or_table(x: NodeView) -> bool {
    is_group(x) || (table_of(x) matches Some(f) && is_group(f))
}

/// The title that the test or the group `x` is given: what the string that is
/// its first argument says. With a table there is none.
pub open spec fn title_of(x: NodeView) -> Option<Seq<char>> {
    match syntax::field_of(x, "arguments"@) {
        Some(args) => match syntax::named_child_of(args, 0) {
            Some(first) => if first.kind == "string"@ && table_of(x) is None {
                match syntax::named_child_of(first, 0) {
                    Some(said) => Some(syntax::text_of(said)),
                    None => Some(Seq::empty()),
                }
            } else {
                None
            },
            None => None,
        },
        None => None,
    }
}

/// Does `path` keep out of the tables, which declare nothing by themselves?
pub open spec fn beside_tables(n: NodeView, path: Seq<int>) -> bool
    decreases path.len(),
{
    path.len() == 0 || {
        let c = n.children[path[0]];
        &&& (is_test_or_table(n) || is_group_or_table(n)) && table_of(n) is Some ==> path[0]
            != syntax::field_position(n.children, "function"@)
        &&& beside_tables(c, path.skip(1))
    }
}

/// The titles of the groups on the way to the node at the end of `path`, the
/// outermost first; `None` stands for one that is computed.
pub open spec fn groups_on(n: NodeView, path: Seq<int>) -> Seq<Option<Seq<char>>>
    decreases path.len(),
{
    if path.len() == 0 {
        Seq::empty()
    } else {
        let rest = groups_on(n.children[path[0]], path.skip(1));
        if is_group_or_table(n) {
            seq![title_of(n)] + rest
        } else {
            rest
        }
    }
}

/// The same titles as the plugin notes them.
spec fn noted(title: Option<Seq<char>>) -> (Seq<char>, bool) {
    match title {
        Some(t) => (t, false),
        None => ("<computed>"@, true),
    }
}

spec fn all_noted(titles: Seq<Option<Seq<char>>>) -> Seq<(Seq<char>, bool)> {
    titles.map_values(|t: Option<Seq<char>>| noted(t))
}

proof fn lemma_words()
    ensures
        "it"@ != "test"@,
        "it"@ != "describe"@,
        "test"@ != "describe"@,
        "identifier"@ != "call_expression"@,
        "member_expression"@ != "call_expression"@,
        "identifier"@ != "member_expression"@,
{
    reveal_strlit("it");
    reveal_strlit("test");
    reveal_strlit("describe");
    reveal_strlit("identifier");
    reveal_strlit("call_expression");
    reveal_strlit("member_expression");
    assert("it"@[0] != "test"@[0]);
    assert("it"@[0] != "describe"@[0]);
    assert("test"@[0] != "describe"@[0]);
    assert("identifier"@[0] != "call_expression"@[0]);
    assert("member_expression"@[0] != "call_expression"@[0]);
    assert("identifier"@[0] != "member_expression"@[0]);
}

/// What a call declares is told by its head.
proof fn lemma_test_call(x: NodeView)
    requires
        x.kind == "call_expression"@,
    ensures
        is_test_or_table(x) <==> (lang_ts::test_call_of(x) matches Some(call) && call.kind
            == TestCallKind::Leaf),
        is_group_or_table(x) <==> (lang_ts::test_call_of(x) matches Some(call) && call.kind
            == TestCallKind::Describe),
        lang_ts::test_call_of(x) matches Some(call) ==> {
            &&& call.inner == (match table_of(x) {
                Some(f) => Some(f.id),
                None => None,
            })
            &&& lang_ts::segment_of(x, call) == noted(title_of(x))
        },
{
    lemma_words();
}

/// Does `e` begin with the definitions of `d`?
spec fn extends(d: DraftView, e: DraftView) -> bool {
    &&& d.defs.len() <= e.defs.len()
    &&& forall|i: int| 0 <= i < d.defs.len() ==> #[trigger] e.defs[i] == d.defs[i]
}

proof fn lemma_tests_extend(n: NodeView, d: DraftView, groups: Seq<(Seq<char>, bool)>)
    ensures
        extends(d, lang_ts::with_tests(n, d, groups)),
    decreases n,
{
    match lang_ts::test_call_of(n) {
        Some(call) => if n.kind != "call_expression"@ {
            lemma_all_tests_extend(n.children, d, groups, None);
        } else if call.kind == TestCallKind::Describe {
            lemma_all_tests_extend(
                n.children,
                d,
                groups.push(lang_ts::segment_of(n, call)),
                call.inner,
            );
        } else {
            let own = d.with_def(
                lang_ts::test_def(n, groups.push(lang_ts::segment_of(n, call))),
            ).opened(n.id);
            lemma_all_tests_extend(n.children, own, groups, call.inner);
            let e = lang_ts::with_tests_in(n.children, own, groups, call.inner);
            assert forall|i: int| 0 <= i < d.defs.len() implies #[trigger] e.defs[i]
                == d.defs[i] by {
                assert(own.defs[i] == d.defs[i]);
            }
        },
        None => lemma_all_tests_extend(n.children, d, groups, None),
    }
}

proof fn lemma_all_tests_extend(
    ns: Seq<NodeView>,
    d: DraftView,
    groups: Seq<(Seq<char>, bool)>,
    skip: Option<usize>,
)
    ensures
        extends(d, lang_ts::with_tests_in(ns, d, groups, skip)),
    decreases ns,
{
    if ns.len() > 0 {
        let before = lang_ts::with_tests_in(ns.drop_last(), d, groups, skip);
        lemma_all_tests_extend(ns.drop_last(), d, groups, skip);
        if Some(ns.last().id) != skip {
            lemma_tests_extend(ns.last(), before, groups);
            let e = lang_ts::with_tests(ns.last(), before, groups);
            assert forall|i: int| 0 <= i < d.defs.len() implies #[trigger] e.defs[i]
                == d.defs[i] by {
                assert(before.defs[i] == d.defs[i]);
            }
        }
    }
}

/// Is there a definition for the test `x` in the groups `groups`, whose scope
/// the test opens?
spec fn has_test(d: DraftView, x: NodeView, groups: Seq<(Seq<char>, bool)>) -> bool {
    let def = lang_ts::test_def(x, groups.push(noted(title_of(x))));
    exists|i: int|
        0 <= i < d.defs.len() && #[trigger] d.defs[i] == def && d.scope.contains_key(x.id)
            && d.scope[x.id] == i as usize
}

proof fn lemma_tests_keep(n: NodeView, d: DraftView, groups: Seq<(Seq<char>, bool)>)
    ensures
        trace::keeps_scopes(d, lang_ts::with_tests(n, d, groups), seq![n]),
    decreases n,
{
    let e = lang_ts::with_tests(n, d, groups);
    trace::lemma_holds_own(n);
    let call = lang_ts::test_call_of(n);
    if n.kind != "call_expression"@ || call is None {
        lemma_all_tests_keep(n.children, d, groups, None);
    } else if call.unwrap().kind == TestCallKind::Describe {
        lemma_all_tests_keep(
            n.children,
            d,
            groups.push(lang_ts::segment_of(n, call.unwrap())),
            call.unwrap().inner,
        );
    } else {
        let own = d.with_def(
            lang_ts::test_def(n, groups.push(lang_ts::segment_of(n, call.unwrap()))),
        ).opened(n.id);
        lemma_all_tests_keep(n.children, own, groups, call.unwrap().inner);
        assert forall|id: usize| #[trigger]
            d.scope.contains_key(id) && trace::none_holds(seq![n], id) implies e.scope.contains_key(
            id,
        ) && e.scope[id] == d.scope[id] by {
            assert(!trace::holds(seq![n][0], id));
            trace::lemma_none_among_children(n, id);
            assert(own.scope.contains_key(id));
        }
    }
    assert forall|id: usize| #[trigger]
        d.scope.contains_key(id) && trace::none_holds(seq![n], id) implies e.scope.contains_key(id)
        && e.scope[id] == d.scope[id] by {
        assert(!trace::holds(seq![n][0], id));
        trace::lemma_none_among_children(n, id);
    }
}

proof fn lemma_all_tests_keep(
    ns: Seq<NodeView>,
    d: DraftView,
    groups: Seq<(Seq<char>, bool)>,
    skip: Option<usize>,
)
    ensures
        trace::keeps_scopes(d, lang_ts::with_tests_in(ns, d, groups, skip), ns),
    decreases ns,
{
    if ns.len() > 0 {
        let before = lang_ts::with_tests_in(ns.drop_last(), d, groups, skip);
        let e = lang_ts::with_tests_in(ns, d, groups, skip);
        lemma_all_tests_keep(ns.drop_last(), d, groups, skip);
        if Some(ns.last().id) != skip {
            lemma_tests_keep(ns.last(), before, groups);
        }
        assert forall|id: usize| #[trigger]
            d.scope.contains_key(id) && trace::none_holds(ns, id) implies e.scope.contains_key(id)
            && e.scope[id] == d.scope[id] by {
            trace::lemma_none_before(ns, id);
            assert(before.scope.contains_key(id));
            assert(trace::none_holds(seq![ns.last()], id));
        }
    }
}

proof fn lemma_still_has_test(
    d: DraftView,
    e: DraftView,
    x: NodeView,
    groups: Seq<(Seq<char>, bool)>,
)
    requires
        has_test(d, x, groups),
        extends(d, e),
        d.scope.contains_key(x.id) ==> e.scope.contains_key(x.id) && e.scope[x.id]
            == d.scope[x.id],
    ensures
        has_test(e, x, groups),
{
    let def = lang_ts::test_def(x, groups.push(noted(title_of(x))));
    let i = choose|i: int|
        0 <= i < d.defs.len() && #[trigger] d.defs[i] == def && d.scope.contains_key(x.id)
            && d.scope[x.id] == i as usize;
    assert(e.defs[i] == def);
}

proof fn lemma_test_found(
    root: NodeView,
    at: Seq<int>,
    n: NodeView,
    d: DraftView,
    groups: Seq<(Seq<char>, bool)>,
    path: Seq<int>,
)
    requires
        trace::numbered(root),
        trace::leads(root, at),
        n == trace::node_at(root, at),
        trace::leads(n, path),
        beside_tables(n, path),
        is_test_or_table(trace::node_at(n, path)),
    ensures
        has_test(
            lang_ts::with_tests(n, d, groups),
            trace::node_at(n, path),
            groups + all_noted(groups_on(n, path)),
        ),
    decreases path.len(), 0nat,
{
    let x = trace::node_at(n, path);
    let all = groups + all_noted(groups_on(n, path));
    if n.kind == "call_expression"@ {
        lemma_test_call(n);
    }
    let call = lang_ts::test_call_of(n);
    let skip = if n.kind == "call_expression"@ && call is Some {
        call.unwrap().inner
    } else {
        None
    };
    let (d1, groups1) = if n.kind == "call_expression"@ && call is Some {
        let segment = lang_ts::segment_of(n, call.unwrap());
        if call.unwrap().kind == TestCallKind::Describe {
            (d, groups.push(segment))
        } else {
            (d.with_def(lang_ts::test_def(n, groups.push(segment))).opened(n.id), groups)
        }
    } else {
        (d, groups)
    };
    assert(lang_ts::with_tests(n, d, groups) == lang_ts::with_tests_in(
        n.children,
        d1,
        groups1,
        skip,
    ));
    if path.len() == 0 {
        assert(all =~= groups);
        assert(d1.defs[d.defs.len() as int] == lang_ts::test_def(
            n,
            groups.push(noted(title_of(n))),
        ));
        assert(d1.scope.contains_key(n.id) && d1.scope[n.id] == d.defs.len() as usize);
        assert(has_test(d1, n, groups));
        lemma_all_tests_extend(n.children, d1, groups1, skip);
        lemma_all_tests_keep(n.children, d1, groups1, skip);
        trace::lemma_numbered_at(root, at);
        assert forall|i: int| 0 <= i < n.children.len() implies !#[trigger] trace::holds(
            n.children[i],
            n.id,
        ) by {
            trace::lemma_root_apart(n, i);
        }
        assert(trace::none_holds(n.children, n.id));
        lemma_still_has_test(d1, lang_ts::with_tests(n, d, groups), x, groups);
    } else {
        let rest = groups_on(n.children[path[0]], path.skip(1));
        if is_group_or_table(n) {
            assert(all_noted(seq![title_of(n)] + rest) =~= seq![noted(title_of(n))] + all_noted(
                rest,
            ));
        }
        assert(all =~= groups1 + all_noted(rest));
        assert(n.children.take(n.children.len() as int) =~= n.children);
        if skip is Some && n.children[path[0]].id == skip.unwrap() {
            let f = syntax::field_position(n.children, "function"@);
            trace::lemma_child_path(n, f);
            trace::lemma_child_path(n, path[0]);
            trace::lemma_path_cat(root, at, seq![f]);
            trace::lemma_path_cat(root, at, seq![path[0]]);
            assert(trace::node_at(root, at + seq![f]).id == trace::node_at(
                root,
                at + seq![path[0]],
            ).id);
            assert((at + seq![f])[at.len() as int] == f);
            assert((at + seq![path[0]])[at.len() as int] == path[0]);
            assert(false);
        }
        lemma_test_found_in(
            root,
            at,
            n,
            n.children.len() as int,
            d1,
            groups1,
            skip,
            path,
        );
    }
}

proof fn lemma_test_found_in(
    root: NodeView,
    at: Seq<int>,
    n: NodeView,
    k: int,
    d: DraftView,
    groups: Seq<(Seq<char>, bool)>,
    skip: Option<usize>,
    path: Seq<int>,
)
    requires
        trace::numbered(root),
        trace::leads(root, at),
        n == trace::node_at(root, at),
        path.len() > 0,
        trace::leads(n, path),
        beside_tables(n, path),
        is_test_or_table(trace::node_at(n, path)),
        path[0] < k <= n.children.len(),
        Some(n.children[path[0]].id) != skip,
    ensures
        has_test(
            lang_ts::with_tests_in(n.children.take(k), d, groups, skip),
            trace::node_at(n, path),
            groups + all_noted(groups_on(n.children[path[0]], path.skip(1))),
        ),
    decreases path.len() - 1, k,
{
    let ns = n.children.take(k);
    let x = trace::node_at(n, path);
    let all = groups + all_noted(groups_on(n.children[path[0]], path.skip(1)));
    let before = lang_ts::with_tests_in(ns.drop_last(), d, groups, skip);
    assert(ns.drop_last() =~= n.children.take(k - 1));
    let c = n.children[k - 1];
    assert(ns.last() == c);
    if k - 1 == path[0] {
        trace::lemma_child_path(n, k - 1);
        trace::lemma_path_cat(root, at, seq![k - 1]);
        lemma_test_found(root, at + seq![k - 1], c, before, groups, path.skip(1));
    } else {
        lemma_test_found_in(root, at, n, k - 1, d, groups, skip, path);
        if Some(c.id) != skip {
            lemma_tests_extend(c, before, groups);
            lemma_tests_keep(c, before, groups);
            trace::lemma_numbered_at(root, at);
            trace::lemma_child_numbered(n, path[0]);
            trace::lemma_numbered_at(n.children[path[0]], path.skip(1));
            if trace::holds(c, x.id) {
                trace::lemma_held_once(n, path[0], k - 1, x.id);
            }
            assert(trace::none_holds(seq![c], x.id));
            lemma_still_has_test(before, lang_ts::with_tests(c, before, groups), x, all);
        }
    }
}

/// The titles, when none of them is computed.
pub open spec fn titles(groups: Seq<Option<Seq<char>>>) -> Seq<Seq<char>> {
    groups.map_values(|t: Option<Seq<char>>| t.unwrap())
}

/// Do all the groups have a title?
pub open spec fn all_titled(groups: Seq<Option<Seq<char>>>) -> bool {
    forall|i: int| 0 <= i < groups.len() ==> (#[trigger] groups[i]) is Some
}

proof fn lemma_literal_chain(groups: Seq<Option<Seq<char>>>)
    requires
        all_titled(groups),
    ensures
        lang_ts::literal_prefix(all_noted(groups)) == titles(groups),
        !lang_ts::any_computed(all_noted(groups)),
    decreases groups.len(),
{
    let s = all_noted(groups);
    assert forall|i: int| 0 <= i < s.len() implies !(#[trigger] s[i]).1 by {
        assert(groups[i] is Some);
    }
    if groups.len() > 0 {
        lemma_literal_chain(groups.drop_last());
        assert(all_noted(groups.drop_last()) =~= s.drop_last());
        assert(s.last() == noted(groups.last()));
        assert(titles(groups) =~= titles(groups.drop_last()).push(groups.last().unwrap()));
    }
}

/// Is the definition at position `i` that of the test `x` in groups with
/// these titles? It starts and ends where the test does, and has its title
/// for a name. When no title is computed, the titles of the groups and its
/// own identify it.
pub open spec fn defines_test(
    found: ExtractionView,
    i: int,
    x: NodeView,
    groups: Seq<Option<Seq<char>>>,
) -> bool {
    &&& 0 <= i < found.defs.len()
    &&& found.defs[i].kind == DefKind::TestCase
    &&& found.defs[i].start_line == syntax::line_of(x.start_row)
    &&& found.defs[i].end_line == syntax::line_of(x.end_row)
    &&& title_of(x) matches Some(title) ==> found.defs[i].name == title
    &&& if title_of(x) is Some && all_titled(groups) {
        !found.defs[i].computed_name && found.defs[i].test_id == Some(
            titles(groups).push(title_of(x).unwrap()),
        )
    } else {
        found.defs[i].computed_name
    }
}

/// Every call of `it` or `test`, or of a member of one such as `test.only`,
/// is a test, in whatever groups and functions it stands: there is a
/// definition of it, which its title identifies, behind the titles of the
/// groups around it.
///
/// In `it.each(table)("name", fn)` the call that is called is the test; what
/// stands in the table declares nothing.
pub proof fn law_test_calls_are_tests(root: NodeView, path: Seq<int>)
    requires
        trace::numbered(root),
        trace::leads(root, path),
        beside_tables(root, path),
        is_test_or_table(trace::node_at(root, path)),
    ensures
        exists|i: int| #[trigger]
            defines_test(
                lang_ts::extracted(root),
                i,
                trace::node_at(root, path),
                groups_on(root, path),
            ),
{
    let x = trace::node_at(root, path);
    let groups = groups_on(root, path);
    let d = lang_ts::with_top_levels(
        root.children,
        DraftView::empty().with_def(
            draft::module_def(root, lang_ts::standing_alone(root.children)),
        ),
    );
    assert(trace::node_at(root, Seq::<int>::empty()) == root);
    lemma_test_found(root, Seq::empty(), root, d, Seq::empty(), path);
    let none = Seq::<(Seq<char>, bool)>::empty();
    assert(none + all_noted(groups) =~= all_noted(groups));
    let segments = all_noted(groups).push(noted(title_of(x)));
    let def = lang_ts::test_def(x, segments);
    let found = lang_ts::extracted(root);
    assert(found.defs == lang_ts::drafted(root).defs);
    let d = lang_ts::drafted(root);
    let i = choose|i: int|
        0 <= i < d.defs.len() && #[trigger] d.defs[i] == def && d.scope.contains_key(x.id)
            && d.scope[x.id] == i as usize;
    let titled = groups.push(title_of(x));
    assert(all_noted(titled) =~= segments);
    if title_of(x) is Some && all_titled(groups) {
        assert forall|k: int| 0 <= k < titled.len() implies (#[trigger] titled[k]) is Some by {
            if k < groups.len() {
                assert(groups[k] is Some);
            }
        }
        lemma_literal_chain(titled);
        assert(titles(titled) =~= titles(groups).push(title_of(x).unwrap()));
    } else if title_of(x) is Some {
        let k = choose|k: int| 0 <= k < groups.len() && (#[trigger] groups[k]) is None;
        assert(segments[k].1);
    } else {
        assert(segments[groups.len() as int].1);
    }
    assert(defines_test(found, i, x, groups));
}

/// What is called in a test is called from the test: its call opens the
/// scope of its definition.
pub proof fn law_tests_are_scopes(root: NodeView, path: Seq<int>)
    requires
        trace::numbered(root),
        trace::leads(root, path),
        beside_tables(root, path),
        is_test_or_table(trace::node_at(root, path)),
        lang_ts::extracted(root).defs.len() <= usize::MAX,
    ensures
        ({
            let x = trace::node_at(root, path);
            let d = lang_ts::drafted(root);
            &&& d.scope.contains_key(x.id)
            &&& d.scope[x.id] < d.defs.len()
            &&& d.defs[d.scope[x.id] as int].kind == DefKind::TestCase
            &&& d.defs[d.scope[x.id] as int].start_line == syntax::line_of(x.start_row)
            &&& title_of(x) matches Some(title) ==> d.defs[d.scope[x.id] as int].name == title
        }),
{
    let start = lang_ts::with_top_levels(
        root.children,
        DraftView::empty().with_def(
            draft::module_def(root, lang_ts::standing_alone(root.children)),
        ),
    );
    assert(trace::node_at(root, Seq::<int>::empty()) == root);
    lemma_test_found(root, Seq::empty(), root, start, Seq::empty(), path);
}

/// What a top-level node declares: of an export, what it exports.
pub open spec fn declared_by(n: NodeView) -> NodeView
    decreases n,
{
    if n.kind == "export_statement"@ {
        match syntax::field_of(n, "declaration"@) {
            Some(decl) => {
                proof {
                    syntax::lemma_field_below(n, "declaration"@);
                }
                declared_by(decl)
            },
            None => n,
        }
    } else {
        n
    }
}

/// Is the definition at `i` one of `x`, with this name and kind?
pub open spec fn defines(
    found: ExtractionView,
    i: int,
    x: NodeView,
    name: Seq<char>,
    kind: DefKind,
) -> bool {
    &&& 0 <= i < found.defs.len()
    &&& found.defs[i].name == name
    &&& found.defs[i].kind == kind
    &&& found.defs[i].test_id is None
    &&& found.defs[i].start_line == syntax::line_of(x.start_row)
    &&& found.defs[i].end_line == syntax::line_of(x.end_row)
    &&& !found.defs[i].computed_name
}

proof fn lemma_extends_on(a: DraftView, b: DraftView, c: DraftView)
    requires
        extends(a, b),
        extends(b, c),
    ensures
        extends(a, c),
{
    assert forall|i: int| 0 <= i < a.defs.len() implies #[trigger] c.defs[i] == a.defs[i] by {
        assert(b.defs[i] == a.defs[i]);
    }
}

proof fn lemma_rest_declarators(ns: Seq<NodeView>, decl: NodeView, d: DraftView, i: int, k: int)
    requires
        0 <= i <= k <= ns.len(),
    ensures
        extends(
            lang_ts::with_declarators(ns.take(i), decl, d),
            lang_ts::with_declarators(ns.take(k), decl, d),
        ),
    decreases k - i,
{
    if i < k {
        lemma_rest_declarators(ns, decl, d, i, k - 1);
        assert(ns.take(k).drop_last() =~= ns.take(k - 1));
        lemma_extends_on(
            lang_ts::with_declarators(ns.take(i), decl, d),
            lang_ts::with_declarators(ns.take(k - 1), decl, d),
            lang_ts::with_declarators(ns.take(k), decl, d),
        );
    }
}

proof fn lemma_rest_methods(ns: Seq<NodeView>, class: usize, d: DraftView, i: int, k: int)
    requires
        0 <= i <= k <= ns.len(),
    ensures
        extends(
            lang_ts::with_methods(ns.take(i), class, d),
            lang_ts::with_methods(ns.take(k), class, d),
        ),
    decreases k - i,
{
    if i < k {
        lemma_rest_methods(ns, class, d, i, k - 1);
        assert(ns.take(k).drop_last() =~= ns.take(k - 1));
        lemma_extends_on(
            lang_ts::with_methods(ns.take(i), class, d),
            lang_ts::with_methods(ns.take(k - 1), class, d),
            lang_ts::with_methods(ns.take(k), class, d),
        );
    }
}

proof fn lemma_top_level_extends(n: NodeView, d: DraftView)
    ensures
        lang_ts::with_top_level(n, d) == lang_ts::with_top_level(declared_by(n), d),
        extends(d, lang_ts::with_top_level(n, d)),
    decreases n,
{
    if n.kind == "export_statement"@ {
        syntax::lemma_field_below(n, "declaration"@);
        if let Some(decl) = syntax::field_of(n, "declaration"@) {
            lemma_top_level_extends(decl, d);
        }
    } else {
        let ns = n.children;
        assert(ns.take(ns.len() as int) =~= ns);
        assert(ns.take(0) =~= Seq::<NodeView>::empty());
        lemma_rest_declarators(ns, n, d, 0, ns.len() as int);
        if let (Some(name), Some(body)) = (
            syntax::field_of(n, "name"@),
            syntax::field_of(n, "body"@),
        ) {
            let own = d.with_def(
                draft::def_of(n, syntax::text_of(name), DefKind::Class, None, None, false),
            ).named(name.id);
            let ms = body.children;
            assert(ms.take(ms.len() as int) =~= ms);
            assert(ms.take(0) =~= Seq::<NodeView>::empty());
            lemma_rest_methods(ms, own.last(), own, 0, ms.len() as int);
            lemma_extends_on(d, own, lang_ts::with_methods(ms, own.last(), own));
        }
    }
}

proof fn lemma_rest_top_levels(all: Seq<NodeView>, d: DraftView, i: int, k: int)
    requires
        0 <= i <= k <= all.len(),
    ensures
        extends(
            lang_ts::with_top_levels(all.take(i), d),
            lang_ts::with_top_levels(all.take(k), d),
        ),
    decreases k - i,
{
    if i < k {
        lemma_rest_top_levels(all, d, i, k - 1);
        assert(all.take(k).drop_last() =~= all.take(k - 1));
        lemma_top_level_extends(all[k - 1], lang_ts::with_top_levels(all.take(k - 1), d));
        lemma_extends_on(
            lang_ts::with_top_levels(all.take(i), d),
            lang_ts::with_top_levels(all.take(k - 1), d),
            lang_ts::with_top_levels(all.take(k), d),
        );
    }
}

/// What the top-level node at `j` declares is found in the file.
proof fn lemma_declared(root: NodeView, j: int) -> (before: DraftView)
    requires
        0 <= j < root.children.len(),
    ensures
        extends(
            lang_ts::with_top_level(declared_by(root.children[j]), before),
            lang_ts::drafted(root),
        ),
        lang_ts::extracted(root).defs == lang_ts::drafted(root).defs,
{
    let all = root.children;
    let start = DraftView::empty().with_def(
        draft::module_def(root, lang_ts::standing_alone(root.children)),
    );
    let before = lang_ts::with_top_levels(all.take(j), start);
    let after = lang_ts::with_top_levels(all.take(j + 1), start);
    let end = lang_ts::with_top_levels(all, start);
    assert(all.take(j + 1).drop_last() =~= all.take(j));
    assert(all.take(j + 1).last() == all[j]);
    lemma_top_level_extends(all[j], before);
    lemma_rest_top_levels(all, start, j + 1, all.len() as int);
    assert(all.take(all.len() as int) =~= all);
    lemma_tests_extend(root, end, Seq::empty());
    lemma_extends_on(after, end, lang_ts::drafted(root));
    before
}

proof fn lemma_declaration_kinds()
    ensures
        "function_declaration"@ != "export_statement"@,
        "class_declaration"@ != "export_statement"@,
        "lexical_declaration"@ != "export_statement"@,
        "variable_declaration"@ != "export_statement"@,
        "lexical_declaration"@ != "function_declaration"@,
        "variable_declaration"@ != "function_declaration"@,
        "class_declaration"@ != "function_declaration"@,
        "class_declaration"@ != "lexical_declaration"@,
        "class_declaration"@ != "variable_declaration"@,
{
    reveal_strlit("function_declaration");
    reveal_strlit("class_declaration");
    reveal_strlit("lexical_declaration");
    reveal_strlit("variable_declaration");
    reveal_strlit("export_statement");
    assert("function_declaration"@[0] == 'f' && "class_declaration"@[0] == 'c');
    assert("lexical_declaration"@[0] == 'l' && "variable_declaration"@[0] == 'v');
    assert("export_statement"@[0] == 'e');
}

/// A function at the top level, exported or not, is a definition under its
/// name.
pub proof fn law_functions_are_defined(root: NodeView, j: int)
    requires
        0 <= j < root.children.len(),
        declared_by(root.children[j]).kind == "function_declaration"@,
        syntax::field_of(declared_by(root.children[j]), "name"@) is Some,
    ensures
        exists|i: int| #[trigger]
            defines(
                lang_ts::extracted(root),
                i,
                declared_by(root.children[j]),
                syntax::text_of(
                    syntax::field_of(declared_by(root.children[j]), "name"@).unwrap(),
                ),
                DefKind::Function,
            ),
{
    let x = declared_by(root.children[j]);
    let before = lemma_declared(root, j);
    lemma_declaration_kinds();
    let after = lang_ts::with_top_level(x, before);
    let found = lang_ts::extracted(root);
    let i = before.defs.len() as int;
    assert(after.defs[i] == after.defs.last());
    assert(found.defs[i] == after.defs[i]);
    assert(defines(
        found,
        i,
        x,
        syntax::text_of(syntax::field_of(x, "name"@).unwrap()),
        DefKind::Function,
    ));
}

/// A variable at the top level that holds a function is a definition under
/// the variable's name, which spans the whole declaration.
pub proof fn law_function_variables_are_defined(root: NodeView, j: int, k: int)
    requires
        0 <= j < root.children.len(),
        declared_by(root.children[j]).kind == "lexical_declaration"@ || declared_by(
            root.children[j],
        ).kind == "variable_declaration"@,
        0 <= k < declared_by(root.children[j]).children.len(),
        declared_by(root.children[j]).children[k].kind == "variable_declarator"@,
        syntax::field_of(declared_by(root.children[j]).children[k], "name"@) is Some,
        syntax::field_of(declared_by(root.children[j]).children[k], "value"@) matches Some(value)
            && (value.kind == "arrow_function"@ || value.kind == "function_expression"@),
    ensures
        exists|i: int| #[trigger]
            defines(
                lang_ts::extracted(root),
                i,
                declared_by(root.children[j]),
                syntax::text_of(
                    syntax::field_of(
                        declared_by(root.children[j]).children[k],
                        "name"@,
                    ).unwrap(),
                ),
                DefKind::Function,
            ),
{
    let x = declared_by(root.children[j]);
    let ns = x.children;
    let before = lemma_declared(root, j);
    lemma_declaration_kinds();
    let a = lang_ts::with_declarators(ns.take(k), x, before);
    let b = lang_ts::with_declarators(ns.take(k + 1), x, before);
    assert(ns.take(k + 1).drop_last() =~= ns.take(k));
    assert(ns.take(k + 1).last() == ns[k]);
    lemma_rest_declarators(ns, x, before, k + 1, ns.len() as int);
    assert(ns.take(ns.len() as int) =~= ns);
    let after = lang_ts::with_top_level(x, before);
    let found = lang_ts::extracted(root);
    let i = a.defs.len() as int;
    assert(b.defs[i] == b.defs.last());
    assert(after.defs[i] == b.defs[i]);
    assert(found.defs[i] == after.defs[i]);
    assert(defines(
        found,
        i,
        x,
        syntax::text_of(syntax::field_of(ns[k], "name"@).unwrap()),
        DefKind::Function,
    ));
}

/// A class at the top level is a definition under its name, and so is each
/// of its methods, which hang on the class.
pub proof fn law_classes_and_methods_are_defined(root: NodeView, j: int, k: int)
    requires
        0 <= j < root.children.len(),
        declared_by(root.children[j]).kind == "class_declaration"@,
        syntax::field_of(declared_by(root.children[j]), "name"@) is Some,
        lang_ts::extracted(root).defs.len() <= usize::MAX,
    ensures
        exists|c: int|
            #![trigger lang_ts::extracted(root).defs[c]]
            defines(
                lang_ts::extracted(root),
                c,
                declared_by(root.children[j]),
                syntax::text_of(
                    syntax::field_of(declared_by(root.children[j]), "name"@).unwrap(),
                ),
                DefKind::Class,
            ) && ((syntax::field_of(declared_by(root.children[j]), "body"@) matches Some(body) && 0
                <= k < body.children.len() && body.children[k].kind == "method_definition"@
                && syntax::field_of(body.children[k], "name"@) is Some) ==> has_method(
                lang_ts::extracted(root),
                syntax::field_of(declared_by(root.children[j]), "body"@).unwrap().children[k],
                c,
            )),
{
    let x = declared_by(root.children[j]);
    let before = lemma_declared(root, j);
    lemma_declaration_kinds();
    let name = syntax::field_of(x, "name"@).unwrap();
    let own = before.with_def(
        draft::def_of(x, syntax::text_of(name), DefKind::Class, None, None, false),
    ).named(name.id);
    let after = lang_ts::with_top_level(x, before);
    let found = lang_ts::extracted(root);
    let c = before.defs.len() as int;
    assert(own.defs[c] == own.defs.last());
    if let Some(body) = syntax::field_of(x, "body"@) {
        let ms = body.children;
        assert(ms.take(ms.len() as int) =~= ms);
        assert(ms.take(0) =~= Seq::<NodeView>::empty());
        lemma_rest_methods(ms, own.last(), own, 0, ms.len() as int);
        assert(after.defs[c] == own.defs[c]);
        if 0 <= k < ms.len() && ms[k].kind == "method_definition"@ && syntax::field_of(
            ms[k],
            "name"@,
        ) is Some {
            let a = lang_ts::with_methods(ms.take(k), own.last(), own);
            let b = lang_ts::with_methods(ms.take(k + 1), own.last(), own);
            assert(ms.take(k + 1).drop_last() =~= ms.take(k));
            assert(ms.take(k + 1).last() == ms[k]);
            lemma_rest_methods(ms, own.last(), own, 0, k);
            lemma_rest_methods(ms, own.last(), own, k + 1, ms.len() as int);
            let i = a.defs.len() as int;
            assert(b.defs[i] == b.defs.last());
            assert(after.defs[i] == b.defs[i]);
            assert(found.defs[i] == after.defs[i]);
            assert(found.defs[i].parent == Some(own.last()));
            assert(own.last() == c);
            assert(has_method(found, ms[k], c));
        }
    }
    assert(found.defs[c] == after.defs[c]);
}

/// Is there a definition of the method `m`, which hangs on that at `class`?
pub open spec fn has_method(found: ExtractionView, m: NodeView, class: int) -> bool {
    exists|i: int|
        #![trigger found.defs[i]]
        defines(
            found,
            i,
            m,
            syntax::text_of(syntax::field_of(m, "name"@).unwrap()),
            DefKind::Method,
        ) && (found.defs[i].parent matches Some(p) && p == class)
}

proof fn lemma_rest_declarators_keep(
    ns: Seq<NodeView>,
    decl: NodeView,
    d: DraftView,
    i: int,
    k: int,
)
    requires
        0 <= i <= k <= ns.len(),
    ensures
        trace::keeps_scopes(
            lang_ts::with_declarators(ns.take(i), decl, d),
            lang_ts::with_declarators(ns.take(k), decl, d),
            ns.subrange(i, k),
        ),
    decreases k - i,
{
    if i < k {
        let start = lang_ts::with_declarators(ns.take(i), decl, d);
        let before = lang_ts::with_declarators(ns.take(k - 1), decl, d);
        let e = lang_ts::with_declarators(ns.take(k), decl, d);
        let part = ns.subrange(i, k);
        lemma_rest_declarators_keep(ns, decl, d, i, k - 1);
        assert(ns.take(k).drop_last() =~= ns.take(k - 1));
        assert(part.drop_last() =~= ns.subrange(i, k - 1));
        let n = ns[k - 1];
        assert forall|id: usize| #[trigger]
            start.scope.contains_key(id) && trace::none_holds(part, id) implies e.scope.contains_key(
            id,
        ) && e.scope[id] == start.scope[id] by {
            trace::lemma_none_before(part, id);
            assert(before.scope.contains_key(id));
            if let Some(value) = syntax::field_of(n, "value"@) {
                trace::lemma_holds_own(value);
                if value.id == id {
                    trace::lemma_holds_field(n, "value"@, id);
                }
            }
        }
    }
}

proof fn lemma_rest_methods_keep(ns: Seq<NodeView>, class: usize, d: DraftView, i: int, k: int)
    requires
        0 <= i <= k <= ns.len(),
    ensures
        trace::keeps_scopes(
            lang_ts::with_methods(ns.take(i), class, d),
            lang_ts::with_methods(ns.take(k), class, d),
            ns.subrange(i, k),
        ),
    decreases k - i,
{
    if i < k {
        let start = lang_ts::with_methods(ns.take(i), class, d);
        let before = lang_ts::with_methods(ns.take(k - 1), class, d);
        let e = lang_ts::with_methods(ns.take(k), class, d);
        let part = ns.subrange(i, k);
        lemma_rest_methods_keep(ns, class, d, i, k - 1);
        assert(ns.take(k).drop_last() =~= ns.take(k - 1));
        assert(part.drop_last() =~= ns.subrange(i, k - 1));
        trace::lemma_holds_own(ns[k - 1]);
        assert forall|id: usize| #[trigger]
            start.scope.contains_key(id) && trace::none_holds(part, id) implies e.scope.contains_key(
            id,
        ) && e.scope[id] == start.scope[id] by {
            trace::lemma_none_before(part, id);
            assert(before.scope.contains_key(id));
        }
    }
}

/// Does a call with the number `id` stand at or below `n`?
spec fn holds_call(n: NodeView, id: usize) -> bool {
    exists|p: Seq<int>|
        trace::leads(n, p) && (#[trigger] trace::node_at(n, p)).id == id && trace::node_at(n, p).kind
            == "call_expression"@
}

proof fn lemma_no_call_below(n: NodeView, i: int, id: usize)
    requires
        !holds_call(n, id),
        0 <= i < n.children.len(),
    ensures
        !holds_call(n.children[i], id),
        n.kind == "call_expression"@ ==> n.id != id,
{
    let c = n.children[i];
    if holds_call(c, id) {
        let p = choose|p: Seq<int>|
            trace::leads(c, p) && (#[trigger] trace::node_at(c, p)).id == id && trace::node_at(
                c,
                p,
            ).kind == "call_expression"@;
        trace::lemma_child_path(n, i);
        trace::lemma_path_cat(n, seq![i], p);
        assert(trace::node_at(n, seq![i] + p).id == id);
    }
    assert(trace::node_at(n, Seq::<int>::empty()) == n);
}

/// Tests leave the scopes of everything else as they are.
proof fn lemma_tests_leave(n: NodeView, d: DraftView, groups: Seq<(Seq<char>, bool)>, id: usize)
    requires
        d.scope.contains_key(id),
        !holds_call(n, id),
    ensures
        lang_ts::with_tests(n, d, groups).scope.contains_key(id),
        lang_ts::with_tests(n, d, groups).scope[id] == d.scope[id],
    decreases n,
{
    let call = lang_ts::test_call_of(n);
    assert forall|i: int| 0 <= i < n.children.len() implies !#[trigger] holds_call(
        n.children[i],
        id,
    ) by {
        lemma_no_call_below(n, i, id);
    }
    if n.kind != "call_expression"@ || call is None {
        lemma_all_tests_leave(n.children, d, groups, None, id);
    } else if call.unwrap().kind == TestCallKind::Describe {
        lemma_all_tests_leave(
            n.children,
            d,
            groups.push(lang_ts::segment_of(n, call.unwrap())),
            call.unwrap().inner,
            id,
        );
    } else {
        assert(trace::node_at(n, Seq::<int>::empty()) == n);
        let own = d.with_def(
            lang_ts::test_def(n, groups.push(lang_ts::segment_of(n, call.unwrap()))),
        ).opened(n.id);
        assert(own.scope.contains_key(id) && own.scope[id] == d.scope[id]);
        lemma_all_tests_leave(n.children, own, groups, call.unwrap().inner, id);
    }
}

proof fn lemma_all_tests_leave(
    ns: Seq<NodeView>,
    d: DraftView,
    groups: Seq<(Seq<char>, bool)>,
    skip: Option<usize>,
    id: usize,
)
    requires
        d.scope.contains_key(id),
        forall|i: int| 0 <= i < ns.len() ==> !#[trigger] holds_call(ns[i], id),
    ensures
        lang_ts::with_tests_in(ns, d, groups, skip).scope.contains_key(id),
        lang_ts::with_tests_in(ns, d, groups, skip).scope[id] == d.scope[id],
    decreases ns,
{
    if ns.len() > 0 {
        let rest = ns.drop_last();
        assert forall|i: int| 0 <= i < rest.len() implies !#[trigger] holds_call(rest[i], id) by {
            assert(rest[i] == ns[i]);
        }
        assert(ns[ns.len() - 1] == ns.last());
        lemma_all_tests_leave(rest, d, groups, skip, id);
        if Some(ns.last().id) != skip {
            lemma_tests_leave(
                ns.last(),
                lang_ts::with_tests_in(rest, d, groups, skip),
                groups,
                id,
            );
        }
    }
}

proof fn lemma_top_level_keeps(n: NodeView, d: DraftView, id: usize)
    requires
        d.scope.contains_key(id),
        !trace::holds(n, id),
    ensures
        lang_ts::with_top_level(n, d).scope.contains_key(id),
        lang_ts::with_top_level(n, d).scope[id] == d.scope[id],
    decreases n,
{
    trace::lemma_holds_own(n);
    if n.kind == "export_statement"@ {
        syntax::lemma_field_below(n, "declaration"@);
        if let Some(decl) = syntax::field_of(n, "declaration"@) {
            if trace::holds(decl, id) {
                trace::lemma_holds_field(n, "declaration"@, id);
            }
            lemma_top_level_keeps(decl, d, id);
        }
    } else {
        let ns = n.children;
        assert(ns.take(ns.len() as int) =~= ns);
        assert(ns.take(0) =~= Seq::<NodeView>::empty());
        assert(ns.subrange(0, ns.len() as int) =~= ns);
        lemma_rest_declarators_keep(ns, n, d, 0, ns.len() as int);
        trace::lemma_none_among_children(n, id);
        if let (Some(name), Some(body)) = (
            syntax::field_of(n, "name"@),
            syntax::field_of(n, "body"@),
        ) {
            let own = d.with_def(
                draft::def_of(n, syntax::text_of(name), DefKind::Class, None, None, false),
            ).named(name.id);
            let ms = body.children;
            assert(ms.take(ms.len() as int) =~= ms);
            assert(ms.take(0) =~= Seq::<NodeView>::empty());
            assert(ms.subrange(0, ms.len() as int) =~= ms);
            lemma_rest_methods_keep(ms, own.last(), own, 0, ms.len() as int);
            assert(n.children[syntax::field_position(n.children, "body"@)] == body);
            trace::lemma_none_below(n, body, id);
            assert(own.scope.contains_key(id));
        }
    }
}

proof fn lemma_rest_top_levels_keep(root: NodeView, d: DraftView, j: int, k: int, id: usize)
    requires
        trace::numbered(root),
        0 <= j < k <= root.children.len(),
        trace::holds(root.children[j], id),
        lang_ts::with_top_levels(root.children.take(j + 1), d).scope.contains_key(id),
    ensures
        lang_ts::with_top_levels(root.children.take(k), d).scope.contains_key(id),
        lang_ts::with_top_levels(root.children.take(k), d).scope[id] == lang_ts::with_top_levels(
            root.children.take(j + 1),
            d,
        ).scope[id],
    decreases k,
{
    if j + 1 < k {
        lemma_rest_top_levels_keep(root, d, j, k - 1, id);
        let all = root.children;
        assert(all.take(k).drop_last() =~= all.take(k - 1));
        if trace::holds(all[k - 1], id) {
            trace::lemma_held_once(root, j, k - 1, id);
        }
        lemma_top_level_keeps(all[k - 1], lang_ts::with_top_levels(all.take(k - 1), d), id);
    }
}

/// What a top-level node declares stands below it.
proof fn lemma_declared_held(n: NodeView, id: usize)
    requires
        trace::holds(declared_by(n), id),
    ensures
        trace::holds(n, id),
    decreases n,
{
    if n.kind == "export_statement"@ {
        syntax::lemma_field_below(n, "declaration"@);
        if let Some(decl) = syntax::field_of(n, "declaration"@) {
            lemma_declared_held(decl, id);
            trace::lemma_holds_field(n, "declaration"@, id);
        }
    }
}

/// The scope that a node of the top level `j` opens is kept to the end.
proof fn lemma_scope_kept(root: NodeView, j: int, y: NodeView, id: usize)
    requires
        trace::numbered(root),
        0 <= j < root.children.len(),
        trace::holds(declared_by(root.children[j]), id),
        exists|p: Seq<int>|
            trace::leads(root, p) && #[trigger] trace::node_at(root, p) == y && y.id == id && y.kind
                != "call_expression"@,
        ({
            let start = DraftView::empty().with_def(
                draft::module_def(root, lang_ts::standing_alone(root.children)),
            );
            lang_ts::with_top_level(
                declared_by(root.children[j]),
                lang_ts::with_top_levels(root.children.take(j), start),
            ).scope.contains_key(id)
        }),
    ensures
        ({
            let start = DraftView::empty().with_def(
                draft::module_def(root, lang_ts::standing_alone(root.children)),
            );
            let own = lang_ts::with_top_level(
                declared_by(root.children[j]),
                lang_ts::with_top_levels(root.children.take(j), start),
            );
            lang_ts::drafted(root).scope.contains_key(id) && lang_ts::drafted(root).scope[id]
                == own.scope[id]
        }),
{
    let all = root.children;
    let start = DraftView::empty().with_def(
        draft::module_def(root, lang_ts::standing_alone(root.children)),
    );
    let before = lang_ts::with_top_levels(all.take(j), start);
    assert(all.take(j + 1).drop_last() =~= all.take(j));
    assert(all.take(j + 1).last() == all[j]);
    lemma_top_level_extends(all[j], before);
    lemma_declared_held(all[j], id);
    assert(all.take(all.len() as int) =~= all);
    lemma_rest_top_levels_keep(root, start, j, all.len() as int, id);
    if holds_call(root, id) {
        let p = choose|p: Seq<int>|
            trace::leads(root, p) && #[trigger] trace::node_at(root, p) == y && y.id == id
                && y.kind != "call_expression"@;
        let q = choose|q: Seq<int>|
            trace::leads(root, q) && (#[trigger] trace::node_at(root, q)).id == id
                && trace::node_at(root, q).kind == "call_expression"@;
        assert(trace::node_at(root, p).id == trace::node_at(root, q).id);
        assert(p == q);
    }
    lemma_tests_leave(root, lang_ts::with_top_levels(all, start), Seq::empty(), id);
}

/// Where a declared node stands below the root.
proof fn lemma_declared_path(n: NodeView) -> (p: Seq<int>)
    ensures
        trace::leads(n, p),
        trace::node_at(n, p) == declared_by(n),
    decreases n,
{
    if n.kind == "export_statement"@ && syntax::field_of(n, "declaration"@) is Some {
        syntax::lemma_field_below(n, "declaration"@);
        let i = syntax::field_position(n.children, "declaration"@);
        let q = lemma_declared_path(n.children[i]);
        trace::lemma_child_path(n, i);
        trace::lemma_path_cat(n, seq![i], q);
        seq![i] + q
    } else {
        Seq::empty()
    }
}

/// Do the references in the node `y` come from a definition with this name?
pub open spec fn scopes(root: NodeView, y: NodeView, name: Seq<char>, kind: DefKind) -> bool {
    let d = lang_ts::drafted(root);
    &&& d.scope.contains_key(y.id)
    &&& d.scope[y.id] < d.defs.len()
    &&& d.defs[d.scope[y.id] as int].name == name
    &&& d.defs[d.scope[y.id] as int].kind == kind
}

/// A function at the top level, and one that a variable holds, is what the
/// references in it come from; and so is a method of a class.
pub proof fn law_functions_are_scopes(root: NodeView, j: int, k: int)
    requires
        trace::numbered(root),
        0 <= j < root.children.len(),
        lang_ts::extracted(root).defs.len() <= usize::MAX,
    ensures
        ({
            let x = declared_by(root.children[j]);
            x.kind == "function_declaration"@ && syntax::field_of(x, "name"@) is Some ==> scopes(
                root,
                x,
                syntax::text_of(syntax::field_of(x, "name"@).unwrap()),
                DefKind::Function,
            )
        }),
        ({
            let x = declared_by(root.children[j]);
            holds_function(x, k) ==> scopes(
                root,
                syntax::field_of(x.children[k], "value"@).unwrap(),
                syntax::text_of(syntax::field_of(x.children[k], "name"@).unwrap()),
                DefKind::Function,
            )
        }),
        ({
            let x = declared_by(root.children[j]);
            has_method_at(x, k) ==> scopes(
                root,
                syntax::field_of(x, "body"@).unwrap().children[k],
                syntax::text_of(
                    syntax::field_of(
                        syntax::field_of(x, "body"@).unwrap().children[k],
                        "name"@,
                    ).unwrap(),
                ),
                DefKind::Method,
            )
        }),
{
    let x = declared_by(root.children[j]);
    let all = root.children;
    let start = DraftView::empty().with_def(
        draft::module_def(root, lang_ts::standing_alone(root.children)),
    );
    let before = lang_ts::with_top_levels(all.take(j), start);
    let after = lang_ts::with_top_level(x, before);
    let end = lang_ts::with_top_levels(all, start);
    let d = lang_ts::drafted(root);
    assert(all.take(j + 1).drop_last() =~= all.take(j));
    assert(all.take(j + 1).last() == all[j]);
    lemma_top_level_extends(all[j], before);
    lemma_rest_top_levels(all, start, j + 1, all.len() as int);
    assert(all.take(all.len() as int) =~= all);
    lemma_tests_extend(root, end, Seq::empty());
    lemma_extends_on(after, end, d);
    assert(lang_ts::extracted(root).defs == d.defs);
    lemma_declaration_kinds();
    lemma_opener_kinds();
    let p = lemma_declared_path(all[j]);
    trace::lemma_child_path(root, j);
    trace::lemma_path_cat(root, seq![j], p);
    let at = seq![j] + p;
    assert(trace::node_at(root, at) == x);
    trace::lemma_holds_own(x);
    if x.kind == "function_declaration"@ && syntax::field_of(x, "name"@) is Some {
        let i = before.defs.len() as int;
        assert(after.defs[i] == after.defs.last());
        lemma_scope_kept(root, j, x, x.id);
        assert(d.defs[i] == after.defs[i]);
    }
    if holds_function(x, k) {
        let ns = x.children;
        let value = syntax::field_of(ns[k], "value"@).unwrap();
        let v = syntax::field_position(ns[k].children, "value"@);
        let a = lang_ts::with_declarators(ns.take(k), x, before);
        let b = lang_ts::with_declarators(ns.take(k + 1), x, before);
        assert(ns.take(k + 1).drop_last() =~= ns.take(k));
        assert(ns.take(k + 1).last() == ns[k]);
        lemma_rest_declarators(ns, x, before, k + 1, ns.len() as int);
        lemma_rest_declarators_keep(ns, x, before, k + 1, ns.len() as int);
        assert(ns.take(ns.len() as int) =~= ns);
        assert(ns.subrange(k + 1, ns.len() as int) =~= ns.skip(k + 1));
        trace::lemma_holds_own(value);
        trace::lemma_holds_field(ns[k], "value"@, value.id);
        trace::lemma_holds_child(x, k, value.id);
        trace::lemma_numbered_at(root, at);
        trace::lemma_none_behind(x, k, value.id);
        let i = a.defs.len() as int;
        assert(b.defs[i] == b.defs.last());
        assert(b.scope.contains_key(value.id));
        assert(after.scope.contains_key(value.id) && after.scope[value.id] == i);
        trace::lemma_child_path(x, k);
        trace::lemma_child_path(ns[k], v);
        trace::lemma_path_cat(root, at, seq![k]);
        trace::lemma_path_cat(root, at + seq![k], seq![v]);
        assert(trace::node_at(root, at + seq![k] + seq![v]) == value);
        lemma_scope_kept(root, j, value, value.id);
        assert(after.defs[i] == b.defs[i]);
        assert(d.defs[i] == after.defs[i]);
    }
    if has_method_at(x, k) {
        let name = syntax::field_of(x, "name"@).unwrap();
        let body = syntax::field_of(x, "body"@).unwrap();
        let bp = syntax::field_position(x.children, "body"@);
        let ms = body.children;
        let m = ms[k];
        let own = before.with_def(
            draft::def_of(x, syntax::text_of(name), DefKind::Class, None, None, false),
        ).named(name.id);
        let a = lang_ts::with_methods(ms.take(k), own.last(), own);
        let b = lang_ts::with_methods(ms.take(k + 1), own.last(), own);
        assert(ms.take(k + 1).drop_last() =~= ms.take(k));
        assert(ms.take(k + 1).last() == m);
        lemma_rest_methods(ms, own.last(), own, k + 1, ms.len() as int);
        lemma_rest_methods_keep(ms, own.last(), own, k + 1, ms.len() as int);
        assert(ms.take(ms.len() as int) =~= ms);
        assert(ms.subrange(k + 1, ms.len() as int) =~= ms.skip(k + 1));
        trace::lemma_holds_own(m);
        trace::lemma_holds_child(body, k, m.id);
        trace::lemma_holds_field(x, "body"@, m.id);
        trace::lemma_numbered_at(root, at);
        trace::lemma_child_numbered(x, bp);
        trace::lemma_none_behind(body, k, m.id);
        let i = a.defs.len() as int;
        assert(b.defs[i] == b.defs.last());
        assert(b.scope.contains_key(m.id));
        assert(after.scope.contains_key(m.id) && after.scope[m.id] == i);
        trace::lemma_child_path(x, bp);
        trace::lemma_child_path(body, k);
        trace::lemma_path_cat(root, at, seq![bp]);
        trace::lemma_path_cat(root, at + seq![bp], seq![k]);
        assert(trace::node_at(root, at + seq![bp] + seq![k]) == m);
        lemma_scope_kept(root, j, m, m.id);
        assert(after.defs[i] == b.defs[i]);
        assert(d.defs[i] == after.defs[i]);
    }
}

/// Does the declarator at `k` of the declaration `x` hold a function?
pub open spec fn holds_function(x: NodeView, k: int) -> bool {
    &&& x.kind == "lexical_declaration"@ || x.kind == "variable_declaration"@
    &&& 0 <= k < x.children.len()
    &&& x.children[k].kind == "variable_declarator"@
    &&& syntax::field_of(x.children[k], "name"@) is Some
    &&& syntax::field_of(x.children[k], "value"@) matches Some(value) && (value.kind
        == "arrow_function"@ || value.kind == "function_expression"@)
}

/// Is the member at `k` of the class `x` a method with a name?
pub open spec fn has_method_at(x: NodeView, k: int) -> bool {
    &&& x.kind == "class_declaration"@
    &&& syntax::field_of(x, "name"@) is Some
    &&& syntax::field_of(x, "body"@) matches Some(body) && 0 <= k < body.children.len()
        && body.children[k].kind == "method_definition"@ && syntax::field_of(
        body.children[k],
        "name"@,
    ) is Some
}

proof fn lemma_opener_kinds()
    ensures
        "function_declaration"@ != "call_expression"@,
        "method_definition"@ != "call_expression"@,
        "arrow_function"@ != "call_expression"@,
        "function_expression"@ != "call_expression"@,
{
    reveal_strlit("call_expression");
    reveal_strlit("function_declaration");
    reveal_strlit("method_definition");
    reveal_strlit("arrow_function");
    reveal_strlit("function_expression");
    assert("call_expression"@[0] == 'c' && "function_declaration"@[0] == 'f');
    assert("method_definition"@[0] == 'm' && "arrow_function"@[0] == 'a');
    assert("function_expression"@[0] == 'f');
}

/// Every import is found, and every export of what another file holds: each
/// such statement with a string for its source, wherever it stands.
pub proof fn law_imports_are_found(root: NodeView, path: Seq<int>)
    requires
        trace::leads(root, path),
        trace::node_at(root, path).kind == "import_statement"@ || trace::node_at(root, path).kind
            == "export_statement"@,
        syntax::field_of(trace::node_at(root, path), "source"@) matches Some(source) && source.kind
            == "string"@,
    ensures
        lang_ts::extracted(root).imports.contains(
            ImportView {
                raw: match syntax::named_child_of(
                    syntax::field_of(trace::node_at(root, path), "source"@).unwrap(),
                    0,
                ) {
                    Some(said) => syntax::text_of(said),
                    None => Seq::empty(),
                },
                line: syntax::line_of(trace::node_at(root, path).start_row),
            },
        ),
{
    let import = lang_ts::own_import(trace::node_at(root, path))[0];
    lemma_import_found(root, path, import);
}

proof fn lemma_import_found(n: NodeView, path: Seq<int>, import: ImportView)
    requires
        trace::leads(n, path),
        lang_ts::own_import(trace::node_at(n, path)) == seq![import],
    ensures
        lang_ts::imports_of(n).contains(import),
    decreases path.len(),
{
    let own = lang_ts::own_import(n);
    let all = lang_ts::imports_of(n);
    if path.len() == 0 {
        assert(all[0] == import);
    } else {
        lemma_import_found(n.children[path[0]], path.skip(1), import);
        lemma_import_among(n.children, path[0], import);
        let below = lang_ts::imports_in(n.children);
        let i = choose|i: int| 0 <= i < below.len() && below[i] == import;
        assert(all[own.len() + i] == import);
    }
}

proof fn lemma_import_among(ns: Seq<NodeView>, i: int, import: ImportView)
    requires
        0 <= i < ns.len(),
        lang_ts::imports_of(ns[i]).contains(import),
    ensures
        lang_ts::imports_in(ns).contains(import),
    decreases ns.len(),
{
    let before = lang_ts::imports_in(ns.drop_last());
    let last = lang_ts::imports_of(ns.last());
    if i < ns.len() - 1 {
        lemma_import_among(ns.drop_last(), i, import);
        let k = choose|k: int| 0 <= k < before.len() && before[k] == import;
        assert((before + last)[k] == import);
    } else {
        let k = choose|k: int| 0 <= k < last.len() && last[k] == import;
        assert((before + last)[before.len() + k] == import);
    }
}

/// Does `path` stay with what is evaluated as a value of its own? From a
/// call it goes to the arguments or to what the callee is computed from; a
/// name that is called, and the two names in `x.y`, are no values of their
/// own.
pub open spec fn evaluated(n: NodeView, path: Seq<int>) -> bool
    decreases path.len(),
{
    path.len() == 0 || {
        let c = n.children[path[0]];
        &&& 0 <= path[0] < n.children.len()
        &&& n.kind != "identifier"@
        &&& if n.kind == "call_expression"@ && path[0] == syntax::field_position(
            n.children,
            "function"@,
        ) && c.kind == "member_expression"@ {
            path.len() > 1 && computes_member(c, path[1]) && evaluated(
                c.children[path[1]],
                path.skip(2),
            )
        } else {
            &&& n.kind == "call_expression"@ ==> path[0] == syntax::field_position(
                n.children,
                "arguments"@,
            ) || (path[0] == syntax::field_position(n.children, "function"@) && c.kind
                != "identifier"@)
            &&& n.kind == "new_expression"@ ==> path[0] == syntax::field_position(
                n.children,
                "arguments"@,
            ) || (path[0] == syntax::field_position(n.children, "constructor"@) && c.kind
                != "identifier"@)
            &&& n.kind == "member_expression"@ ==> computes_member(n, path[0])
            &&& evaluated(c, path.skip(1))
        }
    }
}

/// Is the child at `i` the object of `object.property`, and no mere name?
pub open spec fn computes_member(n: NodeView, i: int) -> bool {
    &&& 0 <= i < n.children.len()
    &&& i == syntax::field_position(n.children, "object"@)
    &&& syntax::field_of(n, "property"@) is Some
    &&& n.children[i].kind != "identifier"@
}

/// The definition that the node at the end of `path` stands in: that of the
/// last node on the way which opens a scope. A callee `x.y` opens none.
pub open spec fn scope_on(d: DraftView, n: NodeView, path: Seq<int>, current: usize) -> usize
    decreases path.len(),
{
    let def = d.scope_at(n, current);
    if path.len() == 0 {
        def
    } else {
        let c = n.children[path[0]];
        if n.kind == "call_expression"@ && path[0] == syntax::field_position(
            n.children,
            "function"@,
        ) && c.kind == "member_expression"@ && path.len() > 1 {
            scope_on(d, c.children[path[1]], path.skip(2), def)
        } else {
            scope_on(d, c, path.skip(1), def)
        }
    }
}

proof fn lemma_refs_in(
    ns: Seq<NodeView>,
    d: DraftView,
    known: Set<Seq<char>>,
    current: usize,
    i: int,
)
    requires
        0 <= i < ns.len(),
    ensures
        trace::among(
            lang_ts::refs_of(ns[i], d, known, current),
            lang_ts::refs_in(ns, d, known, current),
        ),
    decreases ns.len(),
{
    if i < ns.len() - 1 {
        lemma_refs_in(ns.drop_last(), d, known, current, i);
    }
    trace::lemma_among_sum(
        lang_ts::refs_of(ns[i], d, known, current),
        lang_ts::refs_in(ns.drop_last(), d, known, current),
        lang_ts::refs_of(ns.last(), d, known, current),
    );
}

/// The references of the node at the end of `path` are found.
proof fn lemma_reached(
    n: NodeView,
    d: DraftView,
    known: Set<Seq<char>>,
    current: usize,
    path: Seq<int>,
) -> (cur: usize)
    requires
        evaluated(n, path),
    ensures
        trace::among(
            lang_ts::refs_of(trace::node_at(n, path), d, known, cur),
            lang_ts::refs_of(n, d, known, current),
        ),
        d.scope_at(trace::node_at(n, path), cur) == scope_on(d, n, path, current),
    decreases path.len(),
{
    lemma_words();
    lemma_value_kinds();
    if path.len() == 0 {
        current
    } else {
        let def = d.scope_at(n, current);
        let c = n.children[path[0]];
        let f = syntax::field_of(n, "function"@);
        let x = trace::node_at(n, path);
        let all = lang_ts::refs_of(n, d, known, current);
        let through_member = n.kind == "call_expression"@ && path[0] == syntax::field_position(
            n.children,
            "function"@,
        ) && c.kind == "member_expression"@;
        let cur = if through_member {
            let o = c.children[path[1]];
            reveal_with_fuel(trace::node_at, 3);
            assert(path.skip(1).skip(1) =~= path.skip(2));
            assert(path.skip(1)[0] == path[1]);
            assert(x == trace::node_at(o, path.skip(2)));
            lemma_reached(o, d, known, def, path.skip(2))
        } else {
            lemma_reached(c, d, known, def, path.skip(1))
        };
        let own = lang_ts::refs_of(x, d, known, cur);
        if n.kind == "call_expression"@ {
            let callee = callee_of_call(n, d, known, def);
            if through_member {
                let o = c.children[path[1]];
                let named = own_call(n, c, d, def);
                trace::lemma_among_sum(own, named, lang_ts::refs_of(o, d, known, def));
                assert(callee == named.plus(lang_ts::refs_of(o, d, known, def)));
            }
            if let Some(args) = syntax::field_of(n, "arguments"@) {
                trace::lemma_among_sum(own, callee, lang_ts::refs_of(args, d, known, def));
                assert(all == callee.plus(lang_ts::refs_of(args, d, known, def)));
            } else {
                assert(all == callee);
            }
        } else if n.kind == "new_expression"@ {
            let callee = match syntax::field_of(n, "constructor"@) {
                Some(g) => if g.kind == "identifier"@ {
                    RefsView::call(draft::ref_at(def, syntax::text_of(g), None, n))
                } else {
                    lang_ts::refs_of(g, d, known, def)
                },
                None => RefsView::none(),
            };
            if let Some(args) = syntax::field_of(n, "arguments"@) {
                trace::lemma_among_sum(own, callee, lang_ts::refs_of(args, d, known, def));
            }
        } else if n.kind == "member_expression"@ {
        } else {
            lemma_refs_in(n.children, d, known, def, path[0]);
        }
        cur
    }
}

/// The reference of the call `n` of `x.y`.
spec fn own_call(n: NodeView, f: NodeView, d: DraftView, def: usize) -> RefsView {
    if lang_ts::test_call_of(n) is Some {
        RefsView::none()
    } else {
        RefsView::call(
            draft::ref_at(
                def,
                syntax::text_of(syntax::field_of(f, "property"@).unwrap()),
                Some(syntax::text_of(syntax::field_of(f, "object"@).unwrap())),
                n,
            ),
        )
    }
}

/// The references of the call `n` but those in its arguments.
spec fn callee_of_call(
    n: NodeView,
    d: DraftView,
    known: Set<Seq<char>>,
    def: usize,
) -> RefsView {
    match syntax::field_of(n, "function"@) {
        Some(f) => if f.kind == "identifier"@ {
            if lang_ts::test_call_of(n) is Some {
                RefsView::none()
            } else {
                RefsView::call(draft::ref_at(def, syntax::text_of(f), None, n))
            }
        } else if f.kind == "member_expression"@ {
            match (syntax::field_of(f, "object"@), syntax::field_of(f, "property"@)) {
                (Some(object), Some(property)) => if object.kind != "identifier"@ {
                    own_call(n, f, d, def).plus(lang_ts::refs_of(object, d, known, def))
                } else {
                    own_call(n, f, d, def)
                },
                _ => RefsView::none(),
            }
        } else {
            lang_ts::refs_of(f, d, known, def)
        },
        None => RefsView::none(),
    }
}

proof fn lemma_value_kinds()
    ensures
        "new_expression"@ != "call_expression"@,
        "new_expression"@ != "member_expression"@,
        "new_expression"@ != "identifier"@,
{
    reveal_strlit("new_expression");
    reveal_strlit("call_expression");
    reveal_strlit("member_expression");
    reveal_strlit("identifier");
    assert("new_expression"@[0] == 'n' && "call_expression"@[0] == 'c');
    assert("member_expression"@[0] == 'm' && "identifier"@[0] == 'i');
}

/// What the expression `x` calls: a name, and what stands before its dot. A
/// call that declares a test or a group calls nothing.
pub open spec fn called_by(x: NodeView) -> Option<(Seq<char>, Option<Seq<char>>)> {
    if x.kind == "call_expression"@ && !is_test_or_table(x) && !is_group_or_table(x) {
        match syntax::field_of(x, "function"@) {
            Some(f) => if f.kind == "identifier"@ {
                Some((syntax::text_of(f), None))
            } else if f.kind == "member_expression"@ {
                match (syntax::field_of(f, "object"@), syntax::field_of(f, "property"@)) {
                    (Some(object), Some(property)) => Some(
                        (syntax::text_of(property), Some(syntax::text_of(object))),
                    ),
                    _ => None,
                }
            } else {
                None
            },
            None => None,
        }
    } else if x.kind == "new_expression"@ {
        match syntax::field_of(x, "constructor"@) {
            Some(f) => if f.kind == "identifier"@ {
                Some((syntax::text_of(f), None))
            } else {
                None
            },
            None => None,
        }
    } else {
        None
    }
}

/// Every call and every `new` in a file is found, however deep it stands and
/// also below the object of another call, with the name that it calls and
/// what stands before the dot; it comes from the definition around it.
pub proof fn law_calls_are_found(
    root: NodeView,
    path: Seq<int>,
    name: Seq<char>,
    qualifier: Option<Seq<char>>,
)
    requires
        evaluated(root, path),
        called_by(trace::node_at(root, path)) == Some((name, qualifier)),
    ensures
        trace::refers(
            lang_ts::extracted(root).calls,
            scope_on(lang_ts::drafted(root), root, path, 0),
            name,
            qualifier,
        ),
{
    lemma_words();
    lemma_value_kinds();
    let d = lang_ts::marked(root);
    let known = lang_ts::with_bindings(root, Bindings::none()).names.union(
        lang_ts::top_names(d.defs),
    );
    let cur = lemma_reached(root, d, known, 0, path);
    let x = trace::node_at(root, path);
    let def = d.scope_at(x, cur);
    lemma_same_scopes(lang_ts::drafted(root), d, root, path, 0);
    let refs = lang_ts::refs_of(root, d, known, 0);
    let own = lang_ts::refs_of(x, d, known, cur);
    let r = draft::ref_at(def, name, qualifier, x);
    let here = RefsView::call(r);
    assert(here.calls[0] == r);
    assert(trace::among(here, here));
    if x.kind == "call_expression"@ {
        lemma_test_call(x);
        let f = syntax::field_of(x, "function"@).unwrap();
        let callee = callee_of_call(x, d, known, def);
        if f.kind == "member_expression"@ {
            let o = syntax::field_of(f, "object"@).unwrap();
            assert(own_call(x, f, d, def) == here);
            trace::lemma_among_sum(here, here, lang_ts::refs_of(o, d, known, def));
        }
        assert(trace::among(here, callee));
        if let Some(args) = syntax::field_of(x, "arguments"@) {
            trace::lemma_among_sum(here, callee, lang_ts::refs_of(args, d, known, def));
            assert(own == callee.plus(lang_ts::refs_of(args, d, known, def)));
        } else {
            assert(own == callee);
        }
    } else {
        if let Some(args) = syntax::field_of(x, "arguments"@) {
            trace::lemma_among_sum(here, here, lang_ts::refs_of(args, d, known, def));
            assert(own == here.plus(lang_ts::refs_of(args, d, known, def)));
        } else {
            assert(own == here);
        }
    }
    assert(here.calls.contains(r));
    assert(own.calls.contains(r));
    assert(refs.calls.contains(r));
    trace::lemma_kept(refs.calls, r);
}

proof fn lemma_same_scopes(a: DraftView, b: DraftView, n: NodeView, path: Seq<int>, current: usize)
    requires
        a.scope == b.scope,
    ensures
        scope_on(a, n, path, current) == scope_on(b, n, path, current),
    decreases path.len(),
{
    if path.len() > 0 {
        let def = a.scope_at(n, current);
        let c = n.children[path[0]];
        if path.len() > 1 {
            lemma_same_scopes(a, b, c.children[path[1]], path.skip(2), def);
        }
        lemma_same_scopes(a, b, c, path.skip(1), def);
    }
}

/// What a name, or a name behind another and a dot, refers to when it is not
/// called.
pub open spec fn named_by(x: NodeView) -> Option<(Seq<char>, Option<Seq<char>>)> {
    if x.kind == "identifier"@ {
        Some((syntax::text_of(x), None))
    } else if x.kind == "member_expression"@ {
        match (syntax::field_of(x, "object"@), syntax::field_of(x, "property"@)) {
            (Some(object), Some(property)) => if object.kind == "identifier"@ {
                Some((syntax::text_of(property), Some(syntax::text_of(object))))
            } else {
                None
            },
            _ => None,
        }
    } else {
        None
    }
}

/// Every name that is evaluated is read, where it is that of a function or a
/// class of the file and does not itself declare it; and so is `x.y` where
/// one of the two is.
pub proof fn law_reads_are_found(
    root: NodeView,
    path: Seq<int>,
    name: Seq<char>,
    qualifier: Option<Seq<char>>,
    k: int,
)
    requires
        evaluated(root, path),
        named_by(trace::node_at(root, path)) == Some((name, qualifier)),
        trace::node_at(root, path).kind == "identifier"@ ==> !lang_ts::marked(root).names.contains(
            trace::node_at(root, path).id,
        ),
        0 <= k < lang_ts::extracted(root).defs.len(),
        lang_ts::extracted(root).defs[k].kind == DefKind::Function || lang_ts::extracted(
            root,
        ).defs[k].kind == DefKind::Class,
        lang_ts::extracted(root).defs[k].parent is None,
        name == lang_ts::extracted(root).defs[k].name || qualifier == Some(
            lang_ts::extracted(root).defs[k].name,
        ),
    ensures
        trace::refers(
            lang_ts::extracted(root).reads,
            scope_on(lang_ts::drafted(root), root, path, 0),
            name,
            qualifier,
        ),
{
    lemma_words();
    lemma_value_kinds();
    let d = lang_ts::marked(root);
    let names = lang_ts::top_names(d.defs);
    let known = lang_ts::with_bindings(root, Bindings::none()).names.union(names);
    lemma_top_name(d.defs, k);
    let cur = lemma_reached(root, d, known, 0, path);
    let x = trace::node_at(root, path);
    let def = d.scope_at(x, cur);
    lemma_same_scopes(lang_ts::drafted(root), d, root, path, 0);
    let refs = lang_ts::refs_of(root, d, known, 0);
    let own = lang_ts::refs_of(x, d, known, cur);
    let r = draft::ref_at(def, name, qualifier, x);
    assert(own.reads[0] == r);
    assert(own.reads.contains(r));
    assert(refs.reads.contains(r));
    trace::lemma_kept(refs.reads, r);
}

proof fn lemma_top_name(defs: Seq<DefView>, k: int)
    requires
        0 <= k < defs.len(),
        defs[k].kind == DefKind::Function || defs[k].kind == DefKind::Class,
        defs[k].parent is None,
    ensures
        lang_ts::top_names(defs).contains(defs[k].name),
    decreases defs.len(),
{
    if k < defs.len() - 1 {
        assert(defs.drop_last()[k] == defs[k]);
        lemma_top_name(defs.drop_last(), k);
    }
}

/// Does `path` lead through no import clause?
pub open spec fn beside_clauses(n: NodeView, path: Seq<int>) -> bool
    decreases path.len(),
{
    path.len() == 0 || (n.kind != "import_clause"@ && beside_clauses(
        n.children[path[0]],
        path.skip(1),
    ))
}

/// Does the part `n` of an import clause bind `name`: as the default import,
/// as a namespace, or by one of its specifiers, under the alias where there
/// is one?
pub open spec fn binds(n: NodeView, name: Seq<char>) -> bool {
    ||| n.kind == "identifier"@ && n.text == Some(name)
    ||| n.kind == "namespace_import"@ && (syntax::named_child_of(n, 0) matches Some(id) && id.text
        == Some(name))
    ||| n.kind == "named_imports"@ && exists|k: int|
        0 <= k < n.children.len() && #[trigger] specifies(n.children[k], name)
}

/// Does the import specifier `n` bind `name`?
pub open spec fn specifies(n: NodeView, name: Seq<char>) -> bool {
    &&& n.kind == "import_specifier"@
    &&& match syntax::field_of(n, "alias"@) {
        Some(alias) => alias.text == Some(name),
        None => syntax::field_of(n, "name"@) matches Some(own) && own.text == Some(name),
    }
}

proof fn lemma_specifiers(ns: Seq<NodeView>, b: Bindings, name: Seq<char>)
    ensures
        b.names.contains(name) || (exists|k: int|
            0 <= k < ns.len() && #[trigger] specifies(ns[k], name)) ==> lang_ts::with_specifiers(
            ns,
            b,
        ).names.contains(name),
    decreases ns.len(),
{
    if ns.len() > 0 {
        let rest = ns.drop_last();
        lemma_specifiers(rest, b, name);
        if exists|k: int| 0 <= k < ns.len() && #[trigger] specifies(ns[k], name) {
            let k = choose|k: int| 0 <= k < ns.len() && #[trigger] specifies(ns[k], name);
            if k < rest.len() {
                assert(specifies(rest[k], name));
            }
        }
    }
}

proof fn lemma_clause(ns: Seq<NodeView>, b: Bindings, name: Seq<char>)
    ensures
        b.names.contains(name) || (exists|k: int|
            0 <= k < ns.len() && #[trigger] binds(ns[k], name)) ==> lang_ts::with_clause(
            ns,
            b,
        ).names.contains(name),
    decreases ns.len(),
{
    if ns.len() > 0 {
        let rest = ns.drop_last();
        let n = ns.last();
        lemma_clause(rest, b, name);
        lemma_specifiers(n.children, lang_ts::with_clause(rest, b), name);
        lemma_clause_kinds();
        if exists|k: int| 0 <= k < ns.len() && #[trigger] binds(ns[k], name) {
            let k = choose|k: int| 0 <= k < ns.len() && #[trigger] binds(ns[k], name);
            if k < rest.len() {
                assert(binds(rest[k], name));
            }
        }
    }
}

proof fn lemma_clause_kinds()
    ensures
        "identifier"@ != "namespace_import"@,
        "identifier"@ != "named_imports"@,
        "namespace_import"@ != "named_imports"@,
{
    reveal_strlit("identifier");
    reveal_strlit("namespace_import");
    reveal_strlit("named_imports");
    assert("identifier"@[0] == 'i' && "namespace_import"@[3] == 'e' && "named_imports"@[3] == 'e');
    assert("namespace_import"@[2] == 'm' && "named_imports"@[2] == 'm');
    assert("namespace_import"@[4] == 's' && "named_imports"@[4] == 'd');
}

proof fn lemma_bindings_grow(n: NodeView, b: Bindings, name: Seq<char>)
    requires
        b.names.contains(name),
    ensures
        lang_ts::with_bindings(n, b).names.contains(name),
    decreases n,
{
    lemma_clause(n.children, b, name);
    if n.kind != "import_clause"@ {
        lemma_all_bindings_grow(n.children, b, name);
    }
}

proof fn lemma_all_bindings_grow(ns: Seq<NodeView>, b: Bindings, name: Seq<char>)
    requires
        b.names.contains(name),
    ensures
        lang_ts::with_bindings_in(ns, b).names.contains(name),
    decreases ns,
{
    if ns.len() > 0 {
        lemma_all_bindings_grow(ns.drop_last(), b, name);
        lemma_bindings_grow(ns.last(), lang_ts::with_bindings_in(ns.drop_last(), b), name);
    }
}

proof fn lemma_bound(n: NodeView, path: Seq<int>, b: Bindings, k: int, name: Seq<char>)
    requires
        trace::leads(n, path),
        beside_clauses(n, path),
        trace::node_at(n, path).kind == "import_clause"@,
        0 <= k < trace::node_at(n, path).children.len(),
        binds(trace::node_at(n, path).children[k], name),
    ensures
        lang_ts::with_bindings(n, b).names.contains(name),
    decreases path.len(), 0nat,
{
    if path.len() == 0 {
        lemma_clause(n.children, b, name);
    } else {
        assert(n.children.take(n.children.len() as int) =~= n.children);
        lemma_bound_in(n, n.children.len() as int, path, b, k, name);
    }
}

proof fn lemma_bound_in(
    n: NodeView,
    m: int,
    path: Seq<int>,
    b: Bindings,
    k: int,
    name: Seq<char>,
)
    requires
        path.len() > 0,
        trace::leads(n, path),
        beside_clauses(n, path),
        trace::node_at(n, path).kind == "import_clause"@,
        0 <= k < trace::node_at(n, path).children.len(),
        binds(trace::node_at(n, path).children[k], name),
        path[0] < m <= n.children.len(),
    ensures
        lang_ts::with_bindings_in(n.children.take(m), b).names.contains(name),
    decreases path.len() - 1, m,
{
    let ns = n.children.take(m);
    assert(ns.drop_last() =~= n.children.take(m - 1));
    let before = lang_ts::with_bindings_in(ns.drop_last(), b);
    assert(ns.last() == n.children[m - 1]);
    if m - 1 == path[0] {
        lemma_bound(n.children[m - 1], path.skip(1), before, k, name);
    } else {
        lemma_bound_in(n, m - 1, path, b, k, name);
        lemma_bindings_grow(n.children[m - 1], before, name);
    }
}

/// A name that an import binds is read wherever it is evaluated: alone, or as
/// one of the two in `x.y`.
pub proof fn law_imported_names_are_read(
    root: NodeView,
    clause: Seq<int>,
    k: int,
    bound: Seq<char>,
    path: Seq<int>,
    name: Seq<char>,
    qualifier: Option<Seq<char>>,
)
    requires
        trace::leads(root, clause),
        beside_clauses(root, clause),
        trace::node_at(root, clause).kind == "import_clause"@,
        0 <= k < trace::node_at(root, clause).children.len(),
        binds(trace::node_at(root, clause).children[k], bound),
        evaluated(root, path),
        named_by(trace::node_at(root, path)) == Some((name, qualifier)),
        trace::node_at(root, path).kind == "identifier"@ ==> !lang_ts::marked(root).names.contains(
            trace::node_at(root, path).id,
        ),
        name == bound || qualifier == Some(bound),
    ensures
        trace::refers(
            lang_ts::extracted(root).reads,
            scope_on(lang_ts::drafted(root), root, path, 0),
            name,
            qualifier,
        ),
{
    lemma_words();
    lemma_value_kinds();
    let d = lang_ts::marked(root);
    let bindings = lang_ts::with_bindings(root, Bindings::none());
    let known = bindings.names.union(lang_ts::top_names(d.defs));
    lemma_bound(root, clause, Bindings::none(), k, bound);
    assert(known.contains(bound));
    let cur = lemma_reached(root, d, known, 0, path);
    let x = trace::node_at(root, path);
    let def = d.scope_at(x, cur);
    lemma_same_scopes(lang_ts::drafted(root), d, root, path, 0);
    let refs = lang_ts::refs_of(root, d, known, 0);
    let own = lang_ts::refs_of(x, d, known, cur);
    let r = draft::ref_at(def, name, qualifier, x);
    assert(own.reads[0] == r);
    assert(own.reads.contains(r));
    assert(refs.reads.contains(r));
    trace::lemma_kept(refs.reads, r);
}

} // verus!
