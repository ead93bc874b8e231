//! Syntax trees as plain values: what tree-sitter says of a source text,
//! kept as nodes that own their children.
use vstd::prelude::*;

use crate::text;
use crate::text::{occurs, same};

verus! {

/// The grammars that sources are parsed with.
#[derive(Debug, Clone, Copy, PartialEq, Eq, Hash, Structural)]
pub enum Grammar {
    Go,
    Java,
    Rust,
    TypeScript,
    Tsx,
}

/// Why there is no tree.
#[derive(Debug, Clone, Copy, PartialEq, Eq, Hash, Structural)]
pub enum ParseFailure {
    /// The grammar was not accepted.
    Grammar,
    /// The source was not parsed.
    Source,
}

/// A syntax node as tree-sitter lists it in preorder.
#[derive(Debug)]
pub struct NodeRow {
    /// How many nodes it stands below the root.
    pub depth: usize,
    pub kind: String,
    pub named: bool,
    /// The name of the field that it is its parent's child by.
    pub field: Option<String>,
    pub start_row: usize,
    pub end_row: usize,
    pub start_byte: usize,
    pub end_byte: usize,
}

/// What a [`NodeRow`] says.
pub struct RowView {
    pub depth: usize,
    pub kind: Seq<char>,
    pub named: bool,
    pub field: Option<Seq<char>>,
    pub start_row: usize,
    pub end_row: usize,
    pub start_byte: usize,
    pub end_byte: usize,
}

impl View for NodeRow {
    type V = RowView;

    open spec fn view(&self) -> RowView {
        RowView {
            depth: self.depth,
            kind: self.kind@,
            named: self.named,
            field: text::opt_view(self.field),
            start_row: self.start_row,
            end_row: self.end_row,
            start_byte: self.start_byte,
            end_byte: self.end_byte,
        }
    }
}

/// What a list of rows says.
pub open spec fn row_views(rows: Seq<NodeRow>) -> Seq<RowView> {
    rows.map_values(|r: NodeRow| r@)
}

/// `tree_sitter::Tree`: a parsed source, held until its nodes are read out.
#[verifier::external_type_specification]
#[verifier::external_body]
pub struct ExTree(tree_sitter::Tree);

/// The nodes that a tree holds, in preorder.
pub uninterp spec fn tree_nodes(tree: tree_sitter::Tree) -> Seq<RowView>;

/// What tree-sitter makes of a source: the nodes of the tree in preorder, or
/// why there is none.
pub uninterp spec fn parse_result(grammar: Grammar, src: Seq<char>) -> Result<
    Seq<RowView>,
    ParseFailure,
>;

/// `tree_sitter::Parser::parse`, with the grammar set by `set_language`: the
/// tree holds the nodes that `parse_result` names. A parser that is made anew,
/// with neither an earlier tree nor a time limit, answers by the grammar and
/// the text alone.
#[verifier::external_body]
fn parse_tree(grammar: Grammar, src: &str) -> (r: Result<tree_sitter::Tree, ParseFailure>)
    ensures
        match r {
            Ok(tree) => parse_result(grammar, src@) == Ok::<Seq<RowView>, ParseFailure>(
                tree_nodes(tree),
            ),
            Err(e) => parse_result(grammar, src@) == Err::<Seq<RowView>, ParseFailure>(e),
        },
{
    let language = match grammar {
        Grammar::Go => tree_sitter_go::LANGUAGE,
        Grammar::Java => tree_sitter_java::LANGUAGE,
        Grammar::Rust => tree_sitter_rust::LANGUAGE,
        Grammar::TypeScript => tree_sitter_typescript::LANGUAGE_TYPESCRIPT,
        Grammar::Tsx => tree_sitter_typescript::LANGUAGE_TSX,
    };
    let mut parser = tree_sitter::Parser::new();
    parser.set_language(&language.into()).map_err(|_| ParseFailure::Grammar)?;
    parser.parse(src, None).ok_or(ParseFailure::Source)
}

/// `tree_sitter::Node::descendant_count` of the root, which counts the root
/// too: how many nodes the tree holds.
#[verifier::external_body]
fn node_count(tree: &tree_sitter::Tree) -> (n: usize)
    ensures
        n == tree_nodes(*tree).len(),
{
    tree.root_node().descendant_count()
}

/// `tree_sitter::TreeCursor::goto_descendant`, which moves to a node by its
/// position in preorder, and what the cursor says of the node it is on.
#[verifier::external_body]
fn node_at(tree: &tree_sitter::Tree, i: usize) -> (row: NodeRow)
    requires
        i < tree_nodes(*tree).len(),
    ensures
        row@ == tree_nodes(*tree)[i as int],
{
    let mut cursor = tree.walk();
    cursor.goto_descendant(i);
    let node = cursor.node();
    NodeRow {
        depth: cursor.depth() as usize,
        kind: node.kind().to_string(),
        named: node.is_named(),
        field: cursor.field_name().map(str::to_string),
        start_row: node.start_position().row,
        end_row: node.end_position().row,
        start_byte: node.start_byte(),
        end_byte: node.end_byte(),
    }
}

/// A node of a syntax tree.
#[derive(Debug)]
pub struct SyntaxNode {
    /// Its position in preorder, which no other node of the tree has.
    pub id: usize,
    pub kind: String,
    pub named: bool,
    pub field: Option<String>,
    pub start_row: usize,
    pub end_row: usize,
    /// The source text it spans.
    pub text: Option<String>,
    pub children: Vec<SyntaxNode>,
}

/// What a [`SyntaxNode`] says.
pub struct NodeView {
    pub id: usize,
    pub kind: Seq<char>,
    pub named: bool,
    pub field: Option<Seq<char>>,
    pub start_row: usize,
    pub end_row: usize,
    pub text: Option<Seq<char>>,
    pub children: Seq<NodeView>,
}

pub open spec fn node_view(n: SyntaxNode) -> NodeView
    decreases n,
{
    NodeView {
        id: n.id,
        kind: n.kind@,
        named: n.named,
        field: text::opt_view(n.field),
        start_row: n.start_row,
        end_row: n.end_row,
        text: text::opt_view(n.text),
        children: node_views(n.children@),
    }
}

/// What nodes side by side say.
pub open spec fn node_views(ns: Seq<SyntaxNode>) -> Seq<NodeView>
    decreases ns,
{
    if ns.len() == 0 {
        Seq::empty()
    } else {
        node_views(ns.drop_last()).push(node_view(ns.last()))
    }
}

impl View for SyntaxNode {
    type V = NodeView;

    open spec fn view(&self) -> NodeView {
        node_view(*self)
    }
}

pub proof fn lemma_node_views(ns: Seq<SyntaxNode>)
    ensures
        node_views(ns).len() == ns.len(),
        forall|i: int| 0 <= i < ns.len() ==> #[trigger] node_views(ns)[i] == ns[i]@,
    decreases ns.len(),
{
    if ns.len() > 0 {
        lemma_node_views(ns.drop_last());
        assert forall|i: int| 0 <= i < ns.len() implies #[trigger] node_views(ns)[i] == ns[i]@ by {
            if i < ns.len() - 1 {
                assert(node_views(ns)[i] == node_views(ns.drop_last())[i]);
            }
        }
    }
}

/// A node's children say what its view's children are.
pub proof fn lemma_children(n: SyntaxNode)
    ensures
        n@.children.len() == n.children@.len(),
        forall|i: int| 0 <= i < n.children@.len() ==> #[trigger] n@.children[i] == n.children@[i]@,
{
    lemma_node_views(n.children@);
}

/// The text of `src` between two byte positions, when characters begin at
/// both.
pub open spec fn slice_text(src: Seq<char>, from: int, to: int) -> Option<Seq<char>> {
    let bytes = vstd::utf8::encode_utf8(src);
    if 0 <= from <= to <= bytes.len() && vstd::utf8::is_char_boundary(bytes, from) && vstd::utf8::is_char_boundary(
        bytes,
        to,
    ) {
        Some(vstd::utf8::decode_utf8(bytes.subrange(from, to)))
    } else {
        None
    }
}

/// Where the nodes below the one at `i` end: at the next row that is no
/// deeper, or at `end`.
pub open spec fn subtree_end(rows: Seq<RowView>, i: int, j: int, end: int) -> int
    decreases end - j,
{
    if j >= end || rows[j].depth <= rows[i].depth {
        j
    } else {
        subtree_end(rows, i, j + 1, end)
    }
}

/// The tree of the rows `i..end`, the first of them its root.
pub open spec fn tree_of(rows: Seq<RowView>, src: Seq<char>, i: int, end: int) -> NodeView
    decreases end - i, 0nat,
{
    NodeView {
        id: i as usize,
        kind: rows[i].kind,
        named: rows[i].named,
        field: rows[i].field,
        start_row: rows[i].start_row,
        end_row: rows[i].end_row,
        text: slice_text(src, rows[i].start_byte as int, rows[i].end_byte as int),
        children: if i < end {
            forest_of(rows, src, i + 1, end)
        } else {
            Seq::empty()
        },
    }
}

/// The trees that the rows `i..end` hold side by side.
pub open spec fn forest_of(rows: Seq<RowView>, src: Seq<char>, i: int, end: int) -> Seq<NodeView>
    decreases end - i, 1nat,
{
    if i >= end {
        Seq::empty()
    } else {
        let e = subtree_end(rows, i, i + 1, end);
        if i < e <= end {
            seq![tree_of(rows, src, i, e)] + forest_of(rows, src, e, end)
        } else {
            Seq::empty()
        }
    }
}

proof fn lemma_subtree_end(rows: Seq<RowView>, i: int, j: int, end: int)
    requires
        j <= end,
    ensures
        j <= subtree_end(rows, i, j, end) <= end,
    decreases end - j,
{
    if !(j >= end || rows[j].depth <= rows[i].depth) {
        lemma_subtree_end(rows, i, j + 1, end);
    }
}

/// A subtree that ends at or before `mid` ends there whatever lies beyond.
proof fn lemma_subtree_end_shorter(rows: Seq<RowView>, i: int, j: int, mid: int, end: int)
    requires
        j <= mid <= end,
        subtree_end(rows, i, j, end) <= mid,
    ensures
        subtree_end(rows, i, j, mid) == subtree_end(rows, i, j, end),
    decreases end - j,
{
    if !(j >= end || rows[j].depth <= rows[i].depth) {
        if j < mid {
            lemma_subtree_end_shorter(rows, i, j + 1, mid, end);
        } else {
            lemma_subtree_end(rows, i, j + 1, end);
        }
    }
}

/// `mid` is where one of the trees side by side in `i..end` begins, or the
/// end of them.
spec fn is_border(rows: Seq<RowView>, i: int, mid: int, end: int) -> bool
    decreases end - i,
{
    if i >= end || i == mid {
        i == mid
    } else {
        let e = subtree_end(rows, i, i + 1, end);
        i < e <= end && is_border(rows, e, mid, end)
    }
}

proof fn lemma_border(rows: Seq<RowView>, i: int, mid: int, end: int)
    requires
        is_border(rows, i, mid, end),
        i <= end,
    ensures
        i <= mid <= end,
    decreases end - i,
{
    if !(i >= end || i == mid) {
        lemma_border(rows, subtree_end(rows, i, i + 1, end), mid, end);
    }
}

proof fn lemma_border_next(rows: Seq<RowView>, i: int, mid: int, end: int)
    requires
        is_border(rows, i, mid, end),
        i <= mid < end,
    ensures
        is_border(rows, i, subtree_end(rows, mid, mid + 1, end), end),
    decreases end - i,
{
    let next = subtree_end(rows, mid, mid + 1, end);
    lemma_subtree_end(rows, mid, mid + 1, end);
    if i == mid {
        let e = subtree_end(rows, i, i + 1, end);
        assert(is_border(rows, e, next, end));
    } else {
        let e = subtree_end(rows, i, i + 1, end);
        lemma_border(rows, e, mid, end);
        lemma_border_next(rows, e, mid, end);
    }
}

/// One more tree at the end of a forest.
proof fn lemma_forest_push(
    rows: Seq<RowView>,
    src: Seq<char>,
    i: int,
    mid: int,
    e: int,
    end: int,
)
    requires
        is_border(rows, i, mid, end),
        i <= mid < e <= end,
        e == subtree_end(rows, mid, mid + 1, end),
    ensures
        forest_of(rows, src, i, e) == forest_of(rows, src, i, mid).push(
            tree_of(rows, src, mid, e),
        ),
    decreases end - i,
{
    if i == mid {
        lemma_subtree_end_shorter(rows, mid, mid + 1, e, end);
        assert(forest_of(rows, src, e, e) =~= Seq::empty());
        assert(forest_of(rows, src, i, e) =~= forest_of(rows, src, i, mid).push(
            tree_of(rows, src, mid, e),
        ));
    } else {
        let f = subtree_end(rows, i, i + 1, end);
        lemma_border(rows, f, mid, end);
        lemma_subtree_end_shorter(rows, i, i + 1, mid, end);
        lemma_subtree_end_shorter(rows, i, i + 1, e, end);
        lemma_forest_push(rows, src, f, mid, e, end);
        assert(forest_of(rows, src, i, e) =~= forest_of(rows, src, i, mid).push(
            tree_of(rows, src, mid, e),
        ));
    }
}

/// The text of `src` between two byte positions, when characters begin at
/// both.
pub fn text_between(src: &str, from: usize, to: usize) -> (r: Option<String>)
    ensures
        text::opt_view(r) == slice_text(src@, from as int, to as int),
{
    broadcast use vstd::utf8::group_utf8_lib;

    if from > to || to > src.as_bytes().len() || !src.is_char_boundary(from) || !src.is_char_boundary(to) {
        return None;
    }
    let ghost bytes = vstd::utf8::encode_utf8(src@);
    let head = src.split_at(to).0;
    proof {
        assert(vstd::utf8::encode_utf8(head@) =~= bytes.subrange(0, to as int));
        if from < to {
            assert(vstd::utf8::encode_utf8(head@)[from as int] == bytes[from as int]);
            vstd::utf8::is_char_boundary_iff_not_is_continuation_byte(bytes, from as int);
            vstd::utf8::is_char_boundary_iff_not_is_continuation_byte(
                vstd::utf8::encode_utf8(head@),
                from as int,
            );
        } else {
            vstd::utf8::is_char_boundary_start_end_of_seq(vstd::utf8::encode_utf8(head@));
        }
    }
    let body = head.split_at(from).1;
    proof {
        assert(vstd::utf8::encode_utf8(body@) =~= bytes.subrange(from as int, to as int));
        vstd::utf8::encode_utf8_decode_utf8(body@);
    }
    Some(body.to_owned())
}

/// Where the nodes below the one at `i` end.
fn end_of_subtree(rows: &Vec<NodeRow>, i: usize, end: usize) -> (e: usize)
    requires
        i < end <= rows@.len(),
    ensures
        e == subtree_end(row_views(rows@), i as int, i + 1, end as int),
        i < e <= end,
{
    let mut j: usize = i + 1;
    while j < end && rows[j].depth > rows[i].depth
        invariant
            i < j <= end <= rows@.len(),
            subtree_end(row_views(rows@), i as int, i + 1, end as int) == subtree_end(
                row_views(rows@),
                i as int,
                j as int,
                end as int,
            ),
        decreases end - j,
    {
        j = j + 1;
    }
    j
}

/// The tree of the rows `i..end`.
fn build_node(rows: &Vec<NodeRow>, src: &str, i: usize, end: usize) -> (n: SyntaxNode)
    requires
        i < end <= rows@.len(),
    ensures
        n@ == tree_of(row_views(rows@), src@, i as int, end as int),
    decreases end - i,
{
    let ghost views = row_views(rows@);
    let mut children: Vec<SyntaxNode> = Vec::new();
    let mut at: usize = i + 1;
    assert(node_views(children@) =~= forest_of(views, src@, i + 1, i + 1));
    while at < end
        invariant
            i < at <= end <= rows@.len(),
            views == row_views(rows@),
            is_border(views, i + 1, at as int, end as int),
            node_views(children@) == forest_of(views, src@, i + 1, at as int),
        decreases end - at,
    {
        let e = end_of_subtree(rows, at, end);
        let child = build_node(rows, src, at, e);
        proof {
            lemma_border_next(views, i + 1, at as int, end as int);
            lemma_forest_push(views, src@, i + 1, at as int, e as int, end as int);
            assert(children@.push(child).drop_last() =~= children@);
        }
        children.push(child);
        at = e;
    }
    let row = &rows[i];
    assert(views[i as int] == rows@[i as int]@);
    SyntaxNode {
        id: i,
        kind: row.kind.clone(),
        named: row.named,
        field: text::copy_opt(&row.field),
        start_row: row.start_row,
        end_row: row.end_row,
        text: text_between(src, row.start_byte, row.end_byte),
        children,
    }
}

/// The tree that the rows list, the first of them its root; none where there
/// is no row.
pub open spec fn tree_of_all(rows: Seq<RowView>, src: Seq<char>) -> Option<NodeView> {
    if rows.len() == 0 {
        None
    } else {
        Some(tree_of(rows, src, 0, rows.len() as int))
    }
}

/// What an optional tree says.
pub open spec fn opt_node(o: Option<SyntaxNode>) -> Option<NodeView> {
    match o {
        Some(n) => Some(n@),
        None => None,
    }
}

/// The tree that the rows list, the first of them its root; none where there
/// is no row.
pub fn build_tree(rows: &Vec<NodeRow>, src: &str) -> (r: Option<SyntaxNode>)
    ensures
        opt_node(r) == tree_of_all(row_views(rows@), src@),
{
    if rows.len() == 0 {
        None
    } else {
        Some(build_node(rows, src, 0, rows.len()))
    }
}

/// The tree of a source, when tree-sitter lists its nodes as `rows`.
pub open spec fn parsed(rows: Result<Seq<RowView>, ParseFailure>, src: Seq<char>) -> Result<
    NodeView,
    ParseFailure,
> {
    match rows {
        Ok(rs) => match tree_of_all(rs, src) {
            Some(n) => Ok(n),
            None => Err(ParseFailure::Source),
        },
        Err(e) => Err(e),
    }
}

/// What the result of a parse says.
pub open spec fn parse_view(r: Result<SyntaxNode, ParseFailure>) -> Result<NodeView, ParseFailure> {
    match r {
        Ok(n) => Ok(n@),
        Err(e) => Err(e),
    }
}

/// The syntax tree of a source.
pub fn parse_source(grammar: Grammar, src: &str) -> (r: Result<SyntaxNode, ParseFailure>)
    ensures
        parse_view(r) == parsed(parse_result(grammar, src@), src@),
{
    let tree = match parse_tree(grammar, src) {
        Ok(t) => t,
        Err(e) => {
            return Err(e);
        },
    };
    let n = node_count(&tree);
    let mut rows: Vec<NodeRow> = Vec::new();
    let mut i: usize = 0;
    while i < n
        invariant
            i <= n == tree_nodes(tree).len(),
            rows@.len() == i,
            row_views(rows@) == tree_nodes(tree).take(i as int),
        decreases n - i,
    {
        let row = node_at(&tree, i);
        let ghost was = rows@;
        rows.push(row);
        assert(row_views(rows@) =~= row_views(was).push(row@));
        assert(tree_nodes(tree).take(i + 1) =~= tree_nodes(tree).take(i as int).push(row@));
        i = i + 1;
    }
    assert(tree_nodes(tree).take(n as int) =~= tree_nodes(tree));
    match build_tree(&rows, src) {
        Some(root) => Ok(root),
        None => Err(ParseFailure::Source),
    }
}

/// The position of the first of `ns` that is its parent's child by the field
/// `name`, or `-1`.
pub open spec fn field_position(ns: Seq<NodeView>, name: Seq<char>) -> int
    decreases ns.len(),
{
    if ns.len() == 0 {
        -1
    } else {
        let before = field_position(ns.drop_last(), name);
        if before >= 0 {
            before
        } else if ns.last().field == Some(name) {
            ns.len() - 1
        } else {
            -1
        }
    }
}

/// The first child of `n` by the field `name`.
pub open spec fn field_of(n: NodeView, name: Seq<char>) -> Option<NodeView> {
    let i = field_position(n.children, name);
    if 0 <= i < n.children.len() {
        Some(n.children[i])
    } else {
        None
    }
}

pub proof fn lemma_field_position(ns: Seq<NodeView>, name: Seq<char>)
    ensures
        -1 <= field_position(ns, name) < ns.len(),
        field_position(ns, name) >= 0 ==> ns[field_position(ns, name)].field
            == Some(name),
        forall|i: int|
            0 <= i < ns.len() && (field_position(ns, name) < 0 || i < field_position(ns, name))
                ==> (#[trigger] ns[i]).field != Some(name),
    decreases ns.len(),
{
    if ns.len() > 0 {
        lemma_field_position(ns.drop_last(), name);
        assert forall|i: int|
            0 <= i < ns.len() && (field_position(ns, name) < 0 || i < field_position(
                ns,
                name,
            )) implies (#[trigger] ns[i]).field != Some(name) by {
            if i < ns.len() - 1 {
                assert(ns.drop_last()[i] == ns[i]);
            }
        }
    }
}

/// Is this node a comment?
pub open spec fn is_comment(n: NodeView) -> bool {
    text::occurs_in(n.kind, "comment"@)
}

/// The named ones among `ns` that are no comments, in order: a comment may
/// stand anywhere, and takes nobody's place.
pub open spec fn named_of(ns: Seq<NodeView>) -> Seq<NodeView>
    decreases ns.len(),
{
    if ns.len() == 0 {
        Seq::empty()
    } else {
        let before = named_of(ns.drop_last());
        if ns.last().named && !is_comment(ns.last()) {
            before.push(ns.last())
        } else {
            before
        }
    }
}

/// The named child of `n` at position `i` among its named children, comments
/// passed over.
pub open spec fn named_child_of(n: NodeView, i: int) -> Option<NodeView> {
    let named = named_of(n.children);
    if 0 <= i < named.len() {
        Some(named[i])
    } else {
        None
    }
}

/// Rows count from 0, lines from 1.
pub open spec fn line_of(row: usize) -> u32 {
    if row < u32::MAX {
        (row + 1) as u32
    } else {
        u32::MAX
    }
}

/// Rows count from 0, lines from 1.
pub fn line(row: usize) -> (r: u32)
    ensures
        r == line_of(row),
{
    if row < u32::MAX as usize {
        row as u32 + 1
    } else {
        u32::MAX
    }
}

/// The text of a node; the empty text where there is none.
pub open spec fn text_of(n: NodeView) -> Seq<char> {
    match n.text {
        Some(t) => t,
        None => Seq::empty(),
    }
}

impl SyntaxNode {
    /// Is this a comment?
    pub fn is_comment(&self) -> (r: bool)
        ensures
            r == is_comment(self@),
    {
        occurs(self.kind.as_str(), "comment")
    }

    /// Is this a node of kind `kind`?
    pub fn is(&self, kind: &str) -> (r: bool)
        ensures
            r == (self@.kind == kind@),
    {
        same(self.kind.as_str(), kind)
    }

    /// The child at position `i`.
    pub fn child(&self, i: usize) -> (r: &SyntaxNode)
        requires
            i < self@.children.len(),
        ensures
            r@ == self@.children[i as int],
            decreases_to!(self => r),
    {
        proof {
            lemma_children(*self);
        }
        &self.children[i]
    }

    /// How many children there are.
    pub fn child_count(&self) -> (n: usize)
        ensures
            n == self@.children.len(),
    {
        proof {
            lemma_children(*self);
        }
        self.children.len()
    }

    /// The first child by the field `name`.
    pub fn child_by_field(&self, name: &str) -> (r: Option<&SyntaxNode>)
        ensures
            match r {
                Some(c) => field_of(self@, name@) == Some(c@) && decreases_to!(self => c),
                None => field_of(self@, name@) is None,
            },
    {
        let ghost all = self@.children;
        proof {
            lemma_children(*self);
        }
        let mut i: usize = 0;
        assert(all.take(0) =~= Seq::<NodeView>::empty());
        while i < self.children.len()
            invariant
                i <= self.children@.len() == all.len(),
                all == self@.children,
                forall|k: int| 0 <= k < all.len() ==> #[trigger] all[k] == self.children@[k]@,
                field_position(all.take(i as int), name@) == -1,
            decreases self.children@.len() - i,
        {
            let found: bool = match &self.children[i].field {
                Some(f) => same(f.as_str(), name),
                None => false,
            };
            proof {
                let upto = all.take(i + 1);
                assert(upto.drop_last() =~= all.take(i as int));
                assert(upto.last() == all[i as int]);
                if found {
                    lemma_field_position_prefix(all, i + 1, name@);
                }
            }
            if found {
                return Some(&self.children[i]);
            }
            i = i + 1;
        }
        assert(all.take(all.len() as int) =~= all);
        None
    }

    /// The named child at position `i` among the named children, comments
    /// passed over.
    pub fn named_child(&self, i: usize) -> (r: Option<&SyntaxNode>)
        ensures
            match r {
                Some(c) => named_child_of(self@, i as int) == Some(c@) && decreases_to!(self => c),
                None => named_child_of(self@, i as int) is None,
            },
    {
        let ghost all = self@.children;
        proof {
            lemma_children(*self);
        }
        let mut k: usize = 0;
        let mut seen: usize = 0;
        assert(all.take(0) =~= Seq::<NodeView>::empty());
        while k < self.children.len()
            invariant
                k <= self.children@.len() == all.len(),
                all == self@.children,
                forall|j: int| 0 <= j < all.len() ==> #[trigger] all[j] == self.children@[j]@,
                seen <= k,
                seen <= i,
                seen == named_of(all.take(k as int)).len(),
            decreases self.children@.len() - k,
        {
            proof {
                let upto = all.take(k + 1);
                assert(upto.drop_last() =~= all.take(k as int));
                assert(upto.last() == all[k as int]);
            }
            if self.children[k].named && !self.children[k].is_comment() {
                if seen == i {
                    proof {
                        lemma_named_prefix(all, k + 1);
                        let named = named_of(all.take(k + 1));
                        assert(named[i as int] == all[k as int]);
                    }
                    return Some(&self.children[k]);
                }
                seen = seen + 1;
            }
            k = k + 1;
        }
        assert(all.take(all.len() as int) =~= all);
        None
    }

    /// The text; the empty text where there is none.
    pub fn text_or_empty(&self) -> (r: String)
        ensures
            r@ == text_of(self@),
    {
        match &self.text {
            Some(t) => t.clone(),
            None => String::new(),
        }
    }

    /// Is the text `t`?
    pub fn text_is(&self, t: &str) -> (r: bool)
        ensures
            r == (self@.text == Some(t@)),
    {
        match &self.text {
            Some(s) => same(s.as_str(), t),
            None => false,
        }
    }
}

proof fn lemma_field_position_prefix(ns: Seq<NodeView>, k: int, name: Seq<char>)
    requires
        0 <= k <= ns.len(),
        field_position(ns.take(k), name) >= 0,
    ensures
        field_position(ns, name) == field_position(ns.take(k), name),
    decreases ns.len(),
{
    if k < ns.len() {
        assert(ns.drop_last().take(k) =~= ns.take(k));
        lemma_field_position_prefix(ns.drop_last(), k, name);
    } else {
        assert(ns.take(k) =~= ns);
    }
}

proof fn lemma_named_prefix(ns: Seq<NodeView>, k: int)
    requires
        0 <= k <= ns.len(),
    ensures
        named_of(ns.take(k)).len() <= named_of(ns).len(),
        forall|j: int|
            0 <= j < named_of(ns.take(k)).len() ==> #[trigger] named_of(ns)[j] == named_of(
                ns.take(k),
            )[j],
    decreases ns.len(),
{
    if k < ns.len() {
        assert(ns.drop_last().take(k) =~= ns.take(k));
        lemma_named_prefix(ns.drop_last(), k);
    } else {
        assert(ns.take(k) =~= ns);
    }
}

/// A node is above each of its children.
pub proof fn lemma_child_below(n: NodeView, c: NodeView)
    requires
        n.children.contains(c),
    ensures
        decreases_to!(n => c),
{
    let i = choose|i: int| 0 <= i < n.children.len() && n.children[i] == c;
    assert(decreases_to!(n => n.children));
    assert(decreases_to!(n.children => n.children[i]));
}

/// A node is above its child by a field.
pub proof fn lemma_field_below(n: NodeView, name: Seq<char>)
    ensures
        field_of(n, name) matches Some(c) ==> decreases_to!(n => c),
{
    if let Some(c) = field_of(n, name) {
        assert(n.children.contains(n.children[field_position(n.children, name)]));
        lemma_child_below(n, c);
    }
}

proof fn lemma_named_among(ns: Seq<NodeView>, i: int)
    requires
        0 <= i < named_of(ns).len(),
    ensures
        ns.contains(named_of(ns)[i]),
    decreases ns.len(),
{
    if ns.len() > 0 {
        let before = named_of(ns.drop_last());
        if i < before.len() {
            lemma_named_among(ns.drop_last(), i);
            let j = choose|j: int| 0 <= j < ns.drop_last().len() && ns.drop_last()[j] == before[i];
            assert(ns[j] == before[i]);
        } else {
            assert(ns[ns.len() - 1] == named_of(ns)[i]);
        }
    }
}

/// A node is above its named children.
pub proof fn lemma_named_below(n: NodeView, i: int)
    ensures
        named_child_of(n, i) matches Some(c) ==> decreases_to!(n => c),
{
    if let Some(c) = named_child_of(n, i) {
        lemma_named_among(n.children, i);
        lemma_child_below(n, c);
    }
}

/// A named child is one of the children.
pub proof fn lemma_named_child_among(n: NodeView, i: int)
    ensures
        named_child_of(n, i) matches Some(c) ==> n.children.contains(c),
{
    if let Some(c) = named_child_of(n, i) {
        lemma_named_among(n.children, i);
    }
}

/// Those of `ns` that are of kind `kind`, in order.
pub open spec fn of_kind(ns: Seq<NodeView>, kind: Seq<char>) -> Seq<NodeView>
    decreases ns.len(),
{
    if ns.len() == 0 {
        Seq::empty()
    } else {
        let before = of_kind(ns.drop_last(), kind);
        if ns.last().kind == kind {
            before.push(ns.last())
        } else {
            before
        }
    }
}

/// Those of a kind are all there.
pub proof fn lemma_of_kind_holds(ns: Seq<NodeView>, kind: Seq<char>, k: int)
    requires
        0 <= k < ns.len(),
        ns[k].kind == kind,
    ensures
        of_kind(ns, kind).contains(ns[k]),
    decreases ns.len(),
{
    let before = of_kind(ns.drop_last(), kind);
    if k < ns.len() - 1 {
        lemma_of_kind_holds(ns.drop_last(), kind, k);
        let i = choose|i: int| 0 <= i < before.len() && before[i] == ns[k];
        assert(of_kind(ns, kind)[i] == ns[k]);
    } else {
        assert(of_kind(ns, kind)[before.len() as int] == ns[k]);
    }
}

/// Those of a kind are among all.
pub proof fn lemma_of_kind_among(ns: Seq<NodeView>, kind: Seq<char>)
    ensures
        forall|i: int|
            0 <= i < of_kind(ns, kind).len() ==> ns.contains(#[trigger] of_kind(ns, kind)[i]),
    decreases ns.len(),
{
    if ns.len() > 0 {
        let rest = ns.drop_last();
        let before = of_kind(rest, kind);
        lemma_of_kind_among(rest, kind);
        assert forall|i: int| 0 <= i < of_kind(ns, kind).len() implies ns.contains(
            #[trigger] of_kind(ns, kind)[i],
        ) by {
            if i < before.len() {
                assert(rest.contains(before[i]));
                let k = choose|k: int| 0 <= k < rest.len() && rest[k] == before[i];
                assert(ns[k] == before[i]);
            } else {
                assert(ns[ns.len() - 1] == ns.last());
            }
        }
    }
}

/// The first of `ns` that is of kind `a` or of kind `b`.
pub open spec fn first_of(ns: Seq<NodeView>, a: Seq<char>, b: Seq<char>) -> Option<NodeView>
    decreases ns.len(),
{
    if ns.len() == 0 {
        None
    } else {
        match first_of(ns.drop_last(), a, b) {
            Some(n) => Some(n),
            None => if ns.last().kind == a || ns.last().kind == b {
                Some(ns.last())
            } else {
                None
            },
        }
    }
}

/// The first of a kind is that of which none precedes.
pub proof fn lemma_first_of(ns: Seq<NodeView>, kind: Seq<char>)
    ensures
        first_of(ns, kind, kind) is None ==> forall|i: int|
            0 <= i < ns.len() ==> (#[trigger] ns[i]).kind != kind,
        first_of(ns, kind, kind) is Some ==> exists|m: int|
            0 <= m < ns.len() && first_of(ns, kind, kind) == Some(#[trigger] ns[m]) && ns[m].kind
                == kind && forall|i: int| 0 <= i < m ==> (#[trigger] ns[i]).kind != kind,
        forall|m: int|
            0 <= m < ns.len() && (#[trigger] ns[m]).kind == kind && (forall|i: int|
                0 <= i < m ==> (#[trigger] ns[i]).kind != kind) ==> first_of(ns, kind, kind)
                == Some(ns[m]),
    decreases ns.len(),
{
    if ns.len() > 0 {
        let rest = ns.drop_last();
        lemma_first_of(rest, kind);
        assert forall|i: int| 0 <= i < rest.len() implies #[trigger] rest[i] == ns[i] by {}
        if first_of(rest, kind, kind) is Some {
            let m = choose|m: int|
                0 <= m < rest.len() && first_of(rest, kind, kind) == Some(#[trigger] rest[m])
                    && rest[m].kind == kind && forall|i: int|
                    0 <= i < m ==> (#[trigger] rest[i]).kind != kind;
            assert(ns[m] == rest[m]);
            assert forall|i: int| 0 <= i < m implies (#[trigger] ns[i]).kind != kind by {
                assert(rest[i] == ns[i]);
            }
        } else {
            assert forall|i: int| 0 <= i < ns.len() - 1 implies (#[trigger] ns[i]).kind != kind by {
                assert(rest[i] == ns[i]);
            }
            assert(ns[ns.len() - 1] == ns.last());
        }
        assert forall|m: int|
            0 <= m < ns.len() && (#[trigger] ns[m]).kind == kind && (forall|i: int|
                0 <= i < m ==> (#[trigger] ns[i]).kind != kind) implies first_of(ns, kind, kind)
            == Some(ns[m]) by {
            if m < rest.len() {
                assert(rest[m] == ns[m]);
                assert forall|i: int| 0 <= i < m implies (#[trigger] rest[i]).kind != kind by {
                    assert(rest[i] == ns[i]);
                }
                assert(first_of(rest, kind, kind) == Some(rest[m]));
            } else if first_of(rest, kind, kind) is Some {
                let j = choose|j: int|
                    0 <= j < rest.len() && first_of(rest, kind, kind) == Some(#[trigger] rest[j])
                        && rest[j].kind == kind && forall|i: int|
                        0 <= i < j ==> (#[trigger] rest[i]).kind != kind;
                assert(ns[j].kind != kind);
            }
        }
    }
}

proof fn lemma_first_of_prefix(ns: Seq<NodeView>, k: int, a: Seq<char>, b: Seq<char>)
    requires
        0 <= k <= ns.len(),
        first_of(ns.take(k), a, b) is Some,
    ensures
        first_of(ns, a, b) == first_of(ns.take(k), a, b),
    decreases ns.len(),
{
    if k < ns.len() {
        assert(ns.drop_last().take(k) =~= ns.take(k));
        lemma_first_of_prefix(ns.drop_last(), k, a, b);
    } else {
        assert(ns.take(k) =~= ns);
    }
}

/// What nodes that are held elsewhere say.
pub open spec fn seen(ns: Seq<&SyntaxNode>) -> Seq<NodeView> {
    ns.map_values(|n: &SyntaxNode| n@)
}

impl SyntaxNode {
    /// The children of kind `kind`, in order.
    pub fn children_of<'a>(&'a self, kind: &str) -> (r: Vec<&'a SyntaxNode>)
        ensures
            seen(r@) == of_kind(self@.children, kind@),
            forall|i: int| 0 <= i < r@.len() ==> decreases_to!(self => #[trigger] r@[i]),
    {
        let ghost all = self@.children;
        let mut out: Vec<&'a SyntaxNode> = Vec::new();
        let count: usize = self.child_count();
        let mut i: usize = 0;
        assert(all.take(0) =~= Seq::empty());
        assert(seen(out@) =~= Seq::empty());
        while i < count
            invariant
                i <= count == all.len(),
                all == self@.children,
                seen(out@) == of_kind(all.take(i as int), kind@),
                forall|j: int| 0 <= j < out@.len() ==> decreases_to!(self => #[trigger] out@[j]),
            decreases count - i,
        {
            let c = self.child(i);
            assert(all.take(i + 1).drop_last() =~= all.take(i as int));
            if c.is(kind) {
                let ghost was = out@;
                out.push(c);
                assert(seen(out@) =~= seen(was).push(c@));
            }
            i = i + 1;
        }
        assert(all.take(all.len() as int) =~= all);
        out
    }

    /// The first child that is of kind `a` or of kind `b`.
    pub fn first_child_of(&self, a: &str, b: &str) -> (r: Option<&SyntaxNode>)
        ensures
            match r {
                Some(c) => first_of(self@.children, a@, b@) == Some(c@) && decreases_to!(self => c),
                None => first_of(self@.children, a@, b@) is None,
            },
    {
        let ghost all = self@.children;
        let count: usize = self.child_count();
        let mut i: usize = 0;
        assert(all.take(0) =~= Seq::empty());
        while i < count
            invariant
                i <= count == all.len(),
                all == self@.children,
                first_of(all.take(i as int), a@, b@) is None,
            decreases count - i,
        {
            let c = self.child(i);
            assert(all.take(i + 1).drop_last() =~= all.take(i as int));
            if c.is(a) || c.is(b) {
                proof {
                    lemma_first_of_prefix(all, i + 1, a@, b@);
                }
                return Some(c);
            }
            i = i + 1;
        }
        assert(all.take(all.len() as int) =~= all);
        None
    }
}

} // verus!
