//! Syntax trees without comments and formatting: what an edit that moves
//! tokens about and writes comments leaves as it was.
use vstd::prelude::*;

use crate::diffdef;
use crate::draft;
use crate::draft::DraftView;
use crate::fingerprint;
use crate::graph::DefKind;
use crate::language::DefView;
use crate::syntax;
use crate::syntax::NodeView;
use crate::text;

verus! {

/// Stands for the comments of a node that has nothing else below it.
pub open spec fn blank() -> NodeView {
    NodeView {
        id: 0,
        kind: "comment"@,
        named: false,
        field: None,
        start_row: 0,
        end_row: 0,
        text: None,
        children: Seq::empty(),
    }
}

/// A tree without comments, without places, and with no text but that of its
/// tokens and what `kept` keeps of nodes above them. The one mark left is that
/// of what a call calls.
pub open spec fn bare(n: NodeView, up: Seq<char>, kept: spec_fn(Seq<char>, NodeView) -> Option<Seq<char>>) -> NodeView
    decreases n,
{
    NodeView {
        id: if n.field == Some("function"@) {
            1
        } else {
            0
        },
        kind: n.kind,
        named: n.named,
        field: n.field,
        start_row: 0,
        end_row: 0,
        text: if n.children.len() == 0 {
            n.text
        } else {
            kept(up, n)
        },
        children: if n.children.len() > 0 && bares(n.children, n.kind, kept).len() == 0 {
            seq![blank()]
        } else {
            bares(n.children, n.kind, kept)
        },
    }
}

/// The trees of `ns` that are no comments, each of them bare.
pub open spec fn bares(ns: Seq<NodeView>, up: Seq<char>, kept: spec_fn(Seq<char>, NodeView) -> Option<Seq<char>>) -> Seq<
    NodeView,
>
    decreases ns,
{
    if ns.len() == 0 {
        Seq::empty()
    } else {
        let before = bares(ns.drop_last(), up, kept);
        if syntax::is_comment(ns.last()) {
            before
        } else {
            before.push(bare(ns.last(), up, kept))
        }
    }
}

/// An optional tree, bare.
pub open spec fn bare_opt(
    o: Option<NodeView>,
    up: Seq<char>,
    kept: spec_fn(Seq<char>, NodeView) -> Option<Seq<char>>,
) -> Option<NodeView> {
    match o {
        Some(n) => Some(bare(n, up, kept)),
        None => None,
    }
}

/// Do the trees below `m` say what those below `n` say, comments left out?
pub open spec fn mirrors(
    m: NodeView,
    n: NodeView,
    kept: spec_fn(Seq<char>, NodeView) -> Option<Seq<char>>,
) -> bool {
    &&& m.kind == n.kind
    &&& m.children == bares(n.children, n.kind, kept) || (m.children == seq![blank()] && bares(
        n.children,
        n.kind,
        kept,
    ).len() == 0)
}

/// A file without comments: what stands below its root, bare.
pub open spec fn bare_file(
    root: NodeView,
    kept: spec_fn(Seq<char>, NodeView) -> Option<Seq<char>>,
) -> NodeView {
    NodeView {
        id: 0,
        kind: root.kind,
        named: root.named,
        field: None,
        start_row: 0,
        end_row: 0,
        text: None,
        children: bares(root.children, root.kind, kept),
    }
}

/// A tree as tree-sitter gives it: no comment is its parent's child by a
/// field. And `clear` holds of each node in it that is not below a comment.
pub open spec fn tidy(n: NodeView, clear: spec_fn(NodeView) -> bool) -> bool
    decreases n,
{
    clear(n) && all_tidy(n.children, clear)
}

/// Are all of these trees tidy, or comments without a field?
pub open spec fn all_tidy(ns: Seq<NodeView>, clear: spec_fn(NodeView) -> bool) -> bool
    decreases ns,
{
    if ns.len() == 0 {
        true
    } else {
        all_tidy(ns.drop_last(), clear) && if syntax::is_comment(ns.last()) {
            ns.last().field is None && clear(ns.last())
        } else {
            tidy(ns.last(), clear)
        }
    }
}

/// A definition without the lines it stands on.
pub open spec fn timeless(d: DefView) -> DefView {
    DefView { start_line: 0, end_line: 0, ..d }
}

/// The definitions found, without the lines they stand on.
pub open spec fn essence(d: DraftView) -> Seq<DefView> {
    d.defs.map_values(|x: DefView| timeless(x))
}

/// The word `comment` is spelled with two letters `m` side by side.
proof fn lemma_comment_spelling(kind: Seq<char>)
    requires
        text::occurs_in(kind, "comment"@),
    ensures
        exists|i: int| 0 <= i < kind.len() - 1 && #[trigger] kind[i] == 'm' && kind[i + 1] == 'm',
{
    reveal_strlit("comment");
    let at = choose|i: int| text::stands_at(kind, "comment"@, i);
    assert(text::stands_at(kind, "comment"@, at));
    let part = kind.subrange(at, at + 7);
    assert(part[2] == 'm' && part[3] == 'm');
    assert(kind[at + 2] == 'm' && kind[at + 2 + 1] == 'm');
}

/// A kind without two letters `m` side by side is no comment's.
pub proof fn lemma_kind_is_no_comment(kind: Seq<char>)
    requires
        forall|i: int|
            0 <= i < kind.len() - 1 ==> !(#[trigger] kind[i] == 'm' && kind[i + 1] == 'm'),
    ensures
        !text::occurs_in(kind, "comment"@),
{
    if text::occurs_in(kind, "comment"@) {
        lemma_comment_spelling(kind);
    }
}

pub proof fn lemma_blank()
    ensures
        syntax::is_comment(blank()),
        fingerprint::stream(blank()) == Seq::<u8>::empty(),
        fingerprint::streams(seq![blank()]) == Seq::<u8>::empty(),
{
    assert("comment"@.subrange(0, "comment"@.len() as int) =~= "comment"@);
    assert(text::stands_at("comment"@, "comment"@, 0));
    reveal_with_fuel(fingerprint::streams, 2);
    assert(seq![blank()].drop_last() =~= Seq::empty());
    assert(fingerprint::streams(seq![blank()]) =~= Seq::empty());
}

/// Trees keep their bytes when comments are left out.
pub proof fn lemma_stream(n: NodeView, up: Seq<char>, kept: spec_fn(Seq<char>, NodeView) -> Option<Seq<char>>)
    ensures
        fingerprint::stream(bare(n, up, kept)) == fingerprint::stream(n),
        syntax::is_comment(bare(n, up, kept)) == syntax::is_comment(n),
    decreases n,
{
    if n.children.len() > 0 {
        lemma_streams(n.children, n.kind, kept);
        lemma_blank();
    }
}

pub proof fn lemma_streams(ns: Seq<NodeView>, up: Seq<char>, kept: spec_fn(Seq<char>, NodeView) -> Option<Seq<char>>)
    ensures
        fingerprint::streams(bares(ns, up, kept)) == fingerprint::streams(ns),
    decreases ns,
{
    if ns.len() > 0 {
        lemma_streams(ns.drop_last(), up, kept);
        if syntax::is_comment(ns.last()) {
            assert(fingerprint::stream(ns.last()) =~= Seq::empty());
            assert(fingerprint::streams(ns) =~= fingerprint::streams(ns.drop_last()));
        } else {
            lemma_stream(ns.last(), up, kept);
            let before = bares(ns.drop_last(), up, kept);
            assert(before.push(bare(ns.last(), up, kept)).drop_last() =~= before);
        }
    }
}

/// What is bare of two sequences one after the other.
pub proof fn lemma_bares_add(
    x: Seq<NodeView>,
    y: Seq<NodeView>,
    up: Seq<char>,
    kept: spec_fn(Seq<char>, NodeView) -> Option<Seq<char>>,
)
    ensures
        bares(x + y, up, kept) == bares(x, up, kept) + bares(y, up, kept),
    decreases y.len(),
{
    if y.len() == 0 {
        assert(x + y =~= x);
        assert(bares(x, up, kept) + bares(y, up, kept) =~= bares(x, up, kept));
    } else {
        assert((x + y).drop_last() =~= x + y.drop_last());
        assert((x + y).last() == y.last());
        lemma_bares_add(x, y.drop_last(), up, kept);
        assert(bares(x + y, up, kept) =~= bares(x, up, kept) + bares(y, up, kept));
    }
}

/// Of tidy trees each is tidy.
pub proof fn lemma_tidy_at(ns: Seq<NodeView>, clear: spec_fn(NodeView) -> bool, i: int)
    requires
        all_tidy(ns, clear),
        0 <= i < ns.len(),
    ensures
        if syntax::is_comment(ns[i]) {
            ns[i].field is None && clear(ns[i])
        } else {
            tidy(ns[i], clear)
        },
    decreases ns.len(),
{
    if i < ns.len() - 1 {
        lemma_tidy_at(ns.drop_last(), clear, i);
        assert(ns.drop_last()[i] == ns[i]);
    }
}

/// A child by a field is found where comments are left out as where they are
/// not.
proof fn lemma_field_position(
    ns: Seq<NodeView>,
    up: Seq<char>,
    clear: spec_fn(NodeView) -> bool,
    kept: spec_fn(Seq<char>, NodeView) -> Option<Seq<char>>,
    name: Seq<char>,
)
    requires
        all_tidy(ns, clear),
    ensures
        ({
            let p = syntax::field_position(ns, name);
            let q = syntax::field_position(bares(ns, up, kept), name);
            if p < 0 {
                q < 0
            } else {
                &&& p < ns.len()
                &&& !syntax::is_comment(ns[p])
                &&& q == bares(ns.take(p), up, kept).len()
                &&& q < bares(ns, up, kept).len()
                &&& bares(ns, up, kept)[q] == bare(ns[p], up, kept)
            }
        }),
    decreases ns.len(),
{
    if ns.len() > 0 {
        let init = ns.drop_last();
        lemma_field_position(init, up, clear, kept, name);
        let p = syntax::field_position(init, name);
        let before = bares(init, up, kept);
        syntax::lemma_field_position(init, name);
        syntax::lemma_field_position(before, name);
        if p >= 0 {
            assert(init.take(p) =~= ns.take(p));
            assert(init[p] == ns[p]);
            if !syntax::is_comment(ns.last()) {
                assert(bares(ns, up, kept).drop_last() =~= before);
            }
        } else {
            assert(ns.take(ns.len() - 1) =~= init);
            if !syntax::is_comment(ns.last()) {
                assert(bares(ns, up, kept).drop_last() =~= before);
                assert(bares(ns, up, kept).last() == bare(ns.last(), up, kept));
            }
        }
    }
}

/// The blank is nobody's child by a field.
pub proof fn lemma_blank_field(name: Seq<char>)
    ensures
        syntax::field_position(seq![blank()], name) < 0,
{
    reveal_with_fuel(syntax::field_position, 2);
    assert(seq![blank()].drop_last() =~= Seq::empty());
}

/// A child by a field is bare where its parent is, and tidy.
pub proof fn lemma_field(
    m: NodeView,
    n: NodeView,
    clear: spec_fn(NodeView) -> bool,
    kept: spec_fn(Seq<char>, NodeView) -> Option<Seq<char>>,
    name: Seq<char>,
)
    requires
        all_tidy(n.children, clear),
        mirrors(m, n, kept),
    ensures
        syntax::field_of(m, name) == bare_opt(syntax::field_of(n, name), n.kind, kept),
        syntax::field_of(n, name) matches Some(c) ==> tidy(c, clear) && c.field == Some(name)
            && !syntax::is_comment(c),
{
    lemma_field_position(n.children, n.kind, clear, kept, name);
    syntax::lemma_field_position(n.children, name);
    lemma_blank_field(name);
    let p = syntax::field_position(n.children, name);
    if p >= 0 {
        lemma_tidy_at(n.children, clear, p);
    }
}

/// Bytes of all but one tree: those before it and those after it.
proof fn lemma_kept_but_one(ns: Seq<NodeView>, p: int)
    requires
        p < ns.len(),
    ensures
        p < 0 ==> fingerprint::kept_streams(ns, |i: int| i != p) == fingerprint::streams(ns),
        p >= 0 ==> fingerprint::kept_streams(ns, |i: int| i != p) == fingerprint::streams(
            ns.take(p),
        ) + fingerprint::streams(ns.skip(p + 1)),
    decreases ns.len(),
{
    let keep = |i: int| i != p;
    if ns.len() > 0 {
        let init = ns.drop_last();
        if p == ns.len() - 1 {
            lemma_kept_all(init, keep);
            assert(ns.take(p) =~= init);
            assert(ns.skip(p + 1) =~= Seq::empty());
            assert(fingerprint::kept_streams(ns, keep) =~= fingerprint::streams(ns.take(p))
                + fingerprint::streams(ns.skip(p + 1)));
        } else {
            lemma_kept_but_one(init, p);
            if p >= 0 {
                assert(init.take(p) =~= ns.take(p));
                assert(init.skip(p + 1) =~= ns.skip(p + 1).drop_last());
                assert(ns.skip(p + 1).last() == ns.last());
                assert(fingerprint::kept_streams(ns, keep) =~= fingerprint::streams(ns.take(p))
                    + fingerprint::streams(ns.skip(p + 1)));
            }
        }
    } else {
        assert(fingerprint::kept_streams(ns, keep) =~= fingerprint::streams(ns));
    }
}

proof fn lemma_kept_all(ns: Seq<NodeView>, keep: spec_fn(int) -> bool)
    requires
        forall|i: int| 0 <= i < ns.len() ==> #[trigger] keep(i),
    ensures
        fingerprint::kept_streams(ns, keep) == fingerprint::streams(ns),
    decreases ns.len(),
{
    if ns.len() > 0 {
        lemma_kept_all(ns.drop_last(), keep);
        assert(keep(ns.len() - 1));
    }
}

/// Signatures and bodies keep their fingerprints when comments are left out.
pub proof fn lemma_signature(
    n: NodeView,
    up: Seq<char>,
    clear: spec_fn(NodeView) -> bool,
    kept: spec_fn(Seq<char>, NodeView) -> Option<Seq<char>>,
)
    requires
        all_tidy(n.children, clear),
    ensures
        fingerprint::signature_stream(bare(n, up, kept)) == fingerprint::signature_stream(n),
        fingerprint::body_fingerprint(bare(n, up, kept)) == fingerprint::body_fingerprint(n),
{
    let ns = n.children;
    let b = bare(n, up, kept);
    let bs = bares(ns, n.kind, kept);
    let p = fingerprint::body_position(n);
    let q = fingerprint::body_position(b);
    lemma_field(b, n, clear, kept, "body"@);
    if let Some(body) = syntax::field_of(n, "body"@) {
        lemma_stream(body, n.kind, kept);
    }
    if ns.len() > 0 {
        lemma_field_position(ns, n.kind, clear, kept, "body"@);
        lemma_blank_field("body"@);
        lemma_blank();
        syntax::lemma_field_position(ns, "body"@);
        syntax::lemma_field_position(b.children, "body"@);
        lemma_kept_but_one(ns, p);
        lemma_kept_but_one(b.children, q);
        assert((|i: int| i != p) =~= (|i: int| i != fingerprint::body_position(n)));
        assert((|i: int| i != q) =~= (|i: int| i != fingerprint::body_position(b)));
        lemma_streams(ns, n.kind, kept);
        if p >= 0 {
            let head = ns.take(p);
            let tail = ns.skip(p + 1);
            assert(ns =~= head + seq![ns[p]] + tail);
            lemma_bares_add(head + seq![ns[p]], tail, n.kind, kept);
            lemma_bares_add(head, seq![ns[p]], n.kind, kept);
            reveal_with_fuel(bares, 2);
            assert(seq![ns[p]].drop_last() =~= Seq::empty());
            assert(bares(seq![ns[p]], n.kind, kept) =~= seq![bare(ns[p], n.kind, kept)]);
            assert(bs.take(q) =~= bares(head, n.kind, kept));
            assert(bs.skip(q + 1) =~= bares(tail, n.kind, kept));
            lemma_streams(head, n.kind, kept);
            lemma_streams(tail, n.kind, kept);
        }
    }
}

/// A definition of a bare tree is, but for its lines, that of the tree.
pub proof fn lemma_def_of(
    n: NodeView,
    up: Seq<char>,
    clear: spec_fn(NodeView) -> bool,
    kept: spec_fn(Seq<char>, NodeView) -> Option<Seq<char>>,
    name: Seq<char>,
    kind: DefKind,
    parent: Option<usize>,
    test_id: Option<Seq<Seq<char>>>,
    computed: bool,
)
    requires
        all_tidy(n.children, clear),
    ensures
        timeless(draft::def_of(bare(n, up, kept), name, kind, parent, test_id, computed)) == timeless(
            draft::def_of(n, name, kind, parent, test_id, computed),
        ),
{
    lemma_signature(n, up, clear, kept);
}

/// One more definition in both of two drafts.
pub proof fn lemma_with_def(d: DraftView, e: DraftView, x: DefView, y: DefView)
    requires
        essence(d) == essence(e),
        timeless(x) == timeless(y),
    ensures
        essence(d.with_def(x)) == essence(e.with_def(y)),
        d.defs.len() == e.defs.len(),
        d.last() == e.last(),
        d.with_def(x).last() == e.with_def(y).last(),
{
    assert(essence(d).len() == d.defs.len());
    assert(essence(e).len() == e.defs.len());
    assert(essence(d.with_def(x)) =~= essence(d).push(timeless(x)));
    assert(essence(e.with_def(y)) =~= essence(e).push(timeless(y)));
}

/// The loose code of a file keeps its bytes when comments are left out.
pub proof fn lemma_loose(
    ns: Seq<NodeView>,
    up: Seq<char>,
    skip: Seq<bool>,
    bare_skip: Seq<bool>,
    kept: spec_fn(Seq<char>, NodeView) -> Option<Seq<char>>,
    alone: spec_fn(NodeView) -> bool,
)
    requires
        skip.len() == ns.len(),
        forall|i: int| 0 <= i < ns.len() ==> #[trigger] skip[i] == alone(ns[i]),
        bare_skip.len() == bares(ns, up, kept).len(),
        forall|i: int|
            0 <= i < bares(ns, up, kept).len() ==> #[trigger] bare_skip[i] == alone(bares(ns, up, kept)[i]),
        forall|i: int|
            0 <= i < ns.len() && !syntax::is_comment(#[trigger] ns[i]) ==> alone(
                bare(ns[i], up, kept),
            ) == alone(ns[i]),
    ensures
        fingerprint::loose_stream(bares(ns, up, kept), bare_skip) == fingerprint::loose_stream(
            ns,
            skip,
        ),
    decreases ns.len(),
{
    let bs = bares(ns, up, kept);
    if ns.len() > 0 {
        let init = ns.drop_last();
        let n = ns.last();
        let before = bares(init, up, kept);
        let keep = |i: int| !skip[i];
        let bare_keep = |i: int| !bare_skip[i];
        let comment = syntax::is_comment(n);
        let bare_init_skip = if comment {
            bare_skip
        } else {
            bare_skip.drop_last()
        };
        assert(comment ==> bs == before);
        assert(!comment ==> bs.drop_last() =~= before);
        assert forall|i: int| 0 <= i < init.len() implies #[trigger] skip.drop_last()[i] == alone(
            init[i],
        ) by {
            assert(skip[i] == alone(ns[i]));
        }
        assert forall|i: int| 0 <= i < before.len() implies #[trigger] bare_init_skip[i] == alone(
            before[i],
        ) by {
            assert(bare_skip[i] == alone(bs[i]));
            assert(bs[i] == before[i]);
        }
        assert forall|i: int|
            0 <= i < init.len() && !syntax::is_comment(#[trigger] init[i]) implies alone(
            bare(init[i], up, kept),
        ) == alone(init[i]) by {
            assert(ns[i] == init[i]);
        }
        lemma_loose(init, up, skip.drop_last(), bare_init_skip, kept, alone);
        lemma_kept_same(init, |i: int| !skip.drop_last()[i], keep);
        lemma_stream(n, up, kept);
        assert(skip[ns.len() - 1] == alone(ns[ns.len() - 1]));
        if comment {
            assert(fingerprint::kept_streams(ns, keep) =~= fingerprint::kept_streams(init, keep));
        } else {
            lemma_kept_same(before, |i: int| !bare_skip.drop_last()[i], bare_keep);
            assert(bare_skip[bs.len() - 1] == alone(bs[bs.len() - 1]));
        }
    }
}

proof fn lemma_kept_same(
    ns: Seq<NodeView>,
    keep: spec_fn(int) -> bool,
    other: spec_fn(int) -> bool,
)
    requires
        forall|i: int| 0 <= i < ns.len() ==> #[trigger] keep(i) == other(i),
    ensures
        fingerprint::kept_streams(ns, keep) == fingerprint::kept_streams(ns, other),
    decreases ns.len(),
{
    if ns.len() > 0 {
        lemma_kept_same(ns.drop_last(), keep, other);
        assert(keep(ns.len() - 1) == other(ns.len() - 1));
    }
}

/// The trees of one kind are bare where all are.
pub proof fn lemma_of_kind(
    ns: Seq<NodeView>,
    up: Seq<char>,
    clear: spec_fn(NodeView) -> bool,
    kept: spec_fn(Seq<char>, NodeView) -> Option<Seq<char>>,
    kind: Seq<char>,
)
    requires
        all_tidy(ns, clear),
        !text::occurs_in(kind, "comment"@),
    ensures
        syntax::of_kind(bares(ns, up, kept), kind) == bares(syntax::of_kind(ns, kind), up, kept),
        bares(syntax::of_kind(ns, kind), up, kept).len() == syntax::of_kind(ns, kind).len(),
        forall|i: int|
            0 <= i < syntax::of_kind(ns, kind).len() ==> bares(syntax::of_kind(ns, kind), up, kept)[i]
                == bare(#[trigger] syntax::of_kind(ns, kind)[i], up, kept),
        forall|i: int|
            0 <= i < syntax::of_kind(ns, kind).len() ==> tidy(
                #[trigger] syntax::of_kind(ns, kind)[i],
                clear,
            ) && syntax::of_kind(ns, kind)[i].kind == kind,
    decreases ns.len(),
{
    if ns.len() > 0 {
        let init = ns.drop_last();
        let n = ns.last();
        lemma_of_kind(init, up, clear, kept, kind);
        let before = syntax::of_kind(init, kind);
        if n.kind == kind {
            assert(!syntax::is_comment(n));
            assert(before.push(n).drop_last() =~= before);
            assert(bares(ns, up, kept).drop_last() =~= bares(init, up, kept));
            assert(bares(ns, up, kept).last() == bare(n, up, kept));
        } else if !syntax::is_comment(n) {
            assert(bares(ns, up, kept).drop_last() =~= bares(init, up, kept));
            assert(bares(ns, up, kept).last() == bare(n, up, kept));
        }
    }
}

/// The blank is of no kind but that of comments.
pub proof fn lemma_blank_kind(kind: Seq<char>)
    requires
        !text::occurs_in(kind, "comment"@),
    ensures
        syntax::of_kind(seq![blank()], kind) == Seq::<NodeView>::empty(),
        syntax::first_of(seq![blank()], kind, kind) is None,
{
    lemma_blank();
    reveal_with_fuel(syntax::of_kind, 2);
    reveal_with_fuel(syntax::first_of, 2);
    assert(seq![blank()].drop_last() =~= Seq::empty());
}

/// The first tree of a kind is bare where all are.
pub proof fn lemma_first_of(
    ns: Seq<NodeView>,
    up: Seq<char>,
    clear: spec_fn(NodeView) -> bool,
    kept: spec_fn(Seq<char>, NodeView) -> Option<Seq<char>>,
    a: Seq<char>,
    b: Seq<char>,
)
    requires
        all_tidy(ns, clear),
        !text::occurs_in(a, "comment"@),
        !text::occurs_in(b, "comment"@),
    ensures
        syntax::first_of(bares(ns, up, kept), a, b) == bare_opt(syntax::first_of(ns, a, b), up, kept),
        syntax::first_of(ns, a, b) matches Some(c) ==> tidy(c, clear) && (c.kind == a || c.kind
            == b),
    decreases ns.len(),
{
    if ns.len() > 0 {
        let init = ns.drop_last();
        let n = ns.last();
        lemma_first_of(init, up, clear, kept, a, b);
        if !syntax::is_comment(n) {
            assert(bares(ns, up, kept).drop_last() =~= bares(init, up, kept));
            assert(bares(ns, up, kept).last() == bare(n, up, kept));
        }
    }
}

/// The named trees are bare where all are.
proof fn lemma_named(
    ns: Seq<NodeView>,
    up: Seq<char>,
    clear: spec_fn(NodeView) -> bool,
    kept: spec_fn(Seq<char>, NodeView) -> Option<Seq<char>>,
)
    requires
        all_tidy(ns, clear),
    ensures
        syntax::named_of(bares(ns, up, kept)).len() == syntax::named_of(ns).len(),
        forall|i: int|
            0 <= i < syntax::named_of(ns).len() ==> #[trigger] syntax::named_of(
                bares(ns, up, kept),
            )[i] == bare(syntax::named_of(ns)[i], up, kept) && tidy(syntax::named_of(ns)[i], clear)
                && !syntax::is_comment(syntax::named_of(ns)[i]),
    decreases ns.len(),
{
    if ns.len() > 0 {
        let init = ns.drop_last();
        let n = ns.last();
        lemma_named(init, up, clear, kept);
        if !syntax::is_comment(n) {
            assert(bares(ns, up, kept).drop_last() =~= bares(init, up, kept));
            assert(bares(ns, up, kept).last() == bare(n, up, kept));
        }
        let before = syntax::named_of(init);
        let now = syntax::named_of(ns);
        let bare_before = syntax::named_of(bares(init, up, kept));
        assert forall|i: int| 0 <= i < now.len() implies #[trigger] syntax::named_of(
            bares(ns, up, kept),
        )[i] == bare(now[i], up, kept) && tidy(now[i], clear) && !syntax::is_comment(now[i]) by {
            if i < before.len() {
                assert(bare_before[i] == bare(before[i], up, kept));
                assert(now[i] == before[i]);
            }
        }
    }
}

/// A named child is bare where its parent is.
pub proof fn lemma_named_child(
    m: NodeView,
    n: NodeView,
    clear: spec_fn(NodeView) -> bool,
    kept: spec_fn(Seq<char>, NodeView) -> Option<Seq<char>>,
    at: int,
)
    requires
        all_tidy(n.children, clear),
        mirrors(m, n, kept),
        0 <= at,
    ensures
        syntax::named_child_of(m, at) == bare_opt(syntax::named_child_of(n, at), n.kind, kept),
        syntax::named_child_of(n, at) matches Some(c) ==> tidy(c, clear) && !syntax::is_comment(c),
{
    let ns = n.children;
    let up = n.kind;
    lemma_named(ns, up, clear, kept);
    reveal_with_fuel(syntax::named_of, 2);
    assert(seq![blank()].drop_last() =~= Seq::empty());
    assert(syntax::named_of(seq![blank()]) =~= Seq::empty());
    if at < syntax::named_of(ns).len() {
        assert(syntax::named_of(bares(ns, up, kept))[at] == bare(syntax::named_of(ns)[at], up, kept));
    }
}

/// Definitions that differ in their lines alone make no difference.
pub proof fn lemma_same_essence(a: DraftView, b: DraftView)
    requires
        essence(a) == essence(b),
        a.defs.len() <= usize::MAX,
    ensures
        diffdef::diff(a.defs, b.defs) == Seq::<diffdef::ChangeView>::empty(),
{
    assert(essence(a).len() == a.defs.len());
    assert(essence(b).len() == b.defs.len());
    assert forall|i: int| 0 <= i < a.defs.len() implies diffdef::unchanged(
        #[trigger] a.defs[i],
        b.defs[i],
    ) by {
        assert(essence(a)[i] == timeless(a.defs[i]));
        assert(essence(b)[i] == timeless(b.defs[i]));
    }
    diffdef::law_same_fingerprints_no_change(a.defs, b.defs);
}

} // verus!
