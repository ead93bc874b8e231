//! Structural fingerprints: hashes of syntax trees that see tokens and
//! structure, and neither comments nor formatting.
use vstd::prelude::*;

use crate::syntax;
use crate::syntax::{NodeView, SyntaxNode};
use crate::text;

verus! {

/// The BLAKE3 hash of some bytes.
pub uninterp spec fn blake3_hash(bytes: Seq<u8>) -> Seq<u8>;

/// `blake3::hash`: the hash of the bytes, the same for the same bytes.
#[verifier::external_body]
pub(crate) fn hash_bytes(bytes: &[u8]) -> (r: [u8; 32])
    ensures
        r@ == blake3_hash(bytes@),
{
    *blake3::hash(bytes).as_bytes()
}

/// The UTF-8 bytes of a text.
pub open spec fn bytes_of(t: Seq<char>) -> Seq<u8> {
    vstd::utf8::encode_utf8(t)
}

/// What a node with no children adds to the hash besides its kind.
pub open spec fn leaf_stream(n: NodeView) -> Seq<u8> {
    match n.text {
        Some(t) => bytes_of(t) + seq![0u8],
        None => Seq::empty(),
    }
}

/// The bytes that a tree is hashed by: each node's kind, and the text of
/// each node without children, all closed by a zero byte; comments are left
/// out.
pub open spec fn stream(n: NodeView) -> Seq<u8>
    decreases n,
{
    if syntax::is_comment(n) {
        Seq::empty()
    } else {
        bytes_of(n.kind) + seq![0u8] + (if n.children.len() == 0 {
            leaf_stream(n)
        } else {
            streams(n.children)
        })
    }
}

/// The bytes that trees side by side are hashed by.
pub open spec fn streams(ns: Seq<NodeView>) -> Seq<u8>
    decreases ns,
{
    if ns.len() == 0 {
        Seq::empty()
    } else {
        streams(ns.drop_last()) + stream(ns.last())
    }
}

/// The bytes of the trees among `ns` that `keep` keeps.
pub open spec fn kept_streams(ns: Seq<NodeView>, keep: spec_fn(int) -> bool) -> Seq<u8>
    decreases ns.len(),
{
    if ns.len() == 0 {
        Seq::empty()
    } else {
        let before = kept_streams(ns.drop_last(), keep);
        if keep(ns.len() - 1) {
            before + stream(ns.last())
        } else {
            before
        }
    }
}

/// The position of the body among a node's children, or `-1`.
pub open spec fn body_position(n: NodeView) -> int {
    syntax::field_position(n.children, "body"@)
}

/// The bytes that a signature is hashed by: the tree without its body.
pub open spec fn signature_stream(n: NodeView) -> Seq<u8> {
    if syntax::is_comment(n) {
        Seq::empty()
    } else {
        bytes_of(n.kind) + seq![0u8] + (if n.children.len() == 0 {
            leaf_stream(n)
        } else {
            kept_streams(n.children, |i: int| i != body_position(n))
        })
    }
}

/// The bytes that a file's loose top-level code is hashed by: the children
/// of the root that `skip` does not mark.
pub open spec fn loose_stream(ns: Seq<NodeView>, skip: Seq<bool>) -> Seq<u8> {
    kept_streams(ns, |i: int| !skip[i])
}

fn push_text(out: &mut Vec<u8>, t: &str)
    ensures
        final(out)@ == old(out)@ + bytes_of(t@) + seq![0u8],
{
    let bytes = t.as_bytes();
    let ghost was = out@;
    let mut i: usize = 0;
    while i < bytes.len()
        invariant
            i <= bytes@.len(),
            out@ == was + bytes@.take(i as int),
        decreases bytes@.len() - i,
    {
        out.push(bytes[i]);
        assert(bytes@.take(i + 1) =~= bytes@.take(i as int).push(bytes@[i as int]));
        i = i + 1;
    }
    assert(bytes@.take(bytes@.len() as int) =~= bytes@);
    out.push(0);
}

fn push_leaf(out: &mut Vec<u8>, n: &SyntaxNode)
    ensures
        final(out)@ == old(out)@ + leaf_stream(n@),
{
    if let Some(t) = &n.text {
        push_text(out, t.as_str());
    }
}

/// Adds the bytes that a tree is hashed by.
fn hash_walk(n: &SyntaxNode, out: &mut Vec<u8>)
    ensures
        final(out)@ == old(out)@ + stream(n@),
    decreases n,
{
    let ghost was = out@;
    if n.is_comment() {
        assert(out@ =~= was + stream(n@));
        return;
    }
    push_text(out, n.kind.as_str());
    let ghost head = bytes_of(n.kind@) + seq![0u8];
    let ghost all = n@.children;
    assert(out@ =~= was + head);
    let count: usize = n.child_count();
    if count == 0 {
        push_leaf(out, n);
        assert(out@ =~= was + stream(n@));
    } else {
        let mut i: usize = 0;
        assert(all.take(0) =~= Seq::empty());
        while i < count
            invariant
                i <= count == all.len(),
                all == n@.children,
                out@ == was + head + streams(all.take(i as int)),
            decreases count - i,
        {
            hash_walk(n.child(i), out);
            assert(all.take(i + 1).drop_last() =~= all.take(i as int));
            i = i + 1;
        }
        assert(all.take(all.len() as int) =~= all);
        assert(out@ =~= was + stream(n@));
    }
}

/// The fingerprint of a tree.
pub fn fingerprint(node: &SyntaxNode) -> (r: [u8; 32])
    ensures
        r@ == blake3_hash(stream(node@)),
{
    let mut out: Vec<u8> = Vec::new();
    hash_walk(node, &mut out);
    assert(out@ =~= stream(node@));
    hash_bytes(out.as_slice())
}

/// The fingerprint of a definition's signature: the tree without its body.
fn signature_fingerprint(node: &SyntaxNode) -> (r: [u8; 32])
    ensures
        r@ == blake3_hash(signature_stream(node@)),
{
    let mut out: Vec<u8> = Vec::new();
    if node.is_comment() {
        assert(out@ =~= signature_stream(node@));
        return hash_bytes(out.as_slice());
    }
    push_text(&mut out, node.kind.as_str());
    let ghost head = bytes_of(node.kind@) + seq![0u8];
    let ghost all = node@.children;
    assert(out@ =~= head);
    let count: usize = node.child_count();
    if count == 0 {
        push_leaf(&mut out, node);
        assert(out@ =~= signature_stream(node@));
    } else {
        let ghost at = body_position(node@);
        let ghost keep = |i: int| i != body_position(node@);
        let mut seen: bool = false;
        let mut i: usize = 0;
        assert(all.take(0) =~= Seq::empty());
        proof {
            syntax::lemma_field_position(all, "body"@);
        }
        while i < count
            invariant
                i <= count == all.len(),
                all == node@.children,
                at == body_position(node@),
                keep == (|i: int| i != body_position(node@)),
                out@ == head + kept_streams(all.take(i as int), keep),
                seen <==> 0 <= at < i,
                -1 <= at < all.len(),
                at >= 0 ==> all[at].field == Some("body"@),
                forall|j: int|
                    0 <= j < all.len() && (at < 0 || j < at) ==> (#[trigger] all[j]).field != Some(
                        "body"@,
                    ),
            decreases count - i,
        {
            let c = node.child(i);
            let here: bool = !seen && match &c.field {
                Some(f) => text::same(f.as_str(), "body"),
                None => false,
            };
            assert(all.take(i + 1).drop_last() =~= all.take(i as int));
            assert(all.take(i + 1).last() == all[i as int]);
            assert(here == (i == at));
            if here {
                seen = true;
            } else {
                hash_walk(c, &mut out);
            }
            i = i + 1;
        }
        assert(all.take(all.len() as int) =~= all);
        assert(out@ =~= signature_stream(node@));
    }
    hash_bytes(out.as_slice())
}

/// The fingerprint of the body of a definition, when it has one.
pub open spec fn body_fingerprint(n: NodeView) -> Option<Seq<u8>> {
    match syntax::field_of(n, "body"@) {
        Some(b) => Some(blake3_hash(stream(b))),
        None => None,
    }
}

/// What an optional hash says.
pub open spec fn hash_view(h: Option<[u8; 32]>) -> Option<Seq<u8>> {
    match h {
        Some(b) => Some(b@),
        None => None,
    }
}

/// The fingerprint of a definition without its body, and of the body alone.
pub fn split_fingerprint(node: &SyntaxNode) -> (r: ([u8; 32], Option<[u8; 32]>))
    ensures
        r.0@ == blake3_hash(signature_stream(node@)),
        hash_view(r.1) == body_fingerprint(node@),
{
    let sig = signature_fingerprint(node);
    let body = match node.child_by_field("body") {
        Some(b) => Some(fingerprint(b)),
        None => None,
    };
    (sig, body)
}

/// The fingerprint of a file's loose top-level code: the children of `root`
/// that `skip`, aligned with them, does not mark.
pub fn module_init_fingerprint(root: &SyntaxNode, skip: &Vec<bool>) -> (r: [u8; 32])
    requires
        skip@.len() == root@.children.len(),
    ensures
        r@ == blake3_hash(loose_stream(root@.children, skip@)),
{
    let mut out: Vec<u8> = Vec::new();
    let ghost keep = |i: int| !skip@[i];
    let ghost all = root@.children;
    let count: usize = root.child_count();
    let mut i: usize = 0;
    assert(all.take(0) =~= Seq::empty());
    while i < count
        invariant
            i <= count == all.len(),
            all == root@.children,
            skip@.len() == all.len(),
            keep == (|i: int| !skip@[i]),
            out@ == kept_streams(all.take(i as int), keep),
        decreases count - i,
    {
        assert(all.take(i + 1).drop_last() =~= all.take(i as int));
        assert(all.take(i + 1).last() == all[i as int]);
        if !skip[i] {
            hash_walk(root.child(i), &mut out);
        }
        i = i + 1;
    }
    assert(all.take(all.len() as int) =~= all);
    hash_bytes(out.as_slice())
}

/// Do two hashes agree?
pub fn same_hash(a: &[u8; 32], b: &[u8; 32]) -> (r: bool)
    ensures
        r == (a@ == b@),
{
    let mut i: usize = 0;
    while i < 32
        invariant
            i <= 32,
            forall|j: int| 0 <= j < i ==> a@[j] == b@[j],
        decreases 32 - i,
    {
        if a[i] != b[i] {
            return false;
        }
        i = i + 1;
    }
    assert(a@ =~= b@);
    true
}

/// Are the two trees the same, node for node and token for token, once
/// comments are left out and wherever they stand in their files?
pub open spec fn alike(a: NodeView, b: NodeView) -> bool
    decreases a, 0nat,
{
    &&& a.kind == b.kind
    &&& (a.children.len() == 0) == (b.children.len() == 0)
    &&& a.children.len() == 0 ==> a.text == b.text
    &&& all_alike(a.children, b.children)
}

/// Are the trees side by side the same, once comments are left out?
pub open spec fn all_alike(a: Seq<NodeView>, b: Seq<NodeView>) -> bool
    decreases a, b.len(),
{
    if a.len() > 0 && syntax::is_comment(a.last()) {
        all_alike(a.drop_last(), b)
    } else if b.len() > 0 && syntax::is_comment(b.last()) {
        all_alike(a, b.drop_last())
    } else if a.len() == 0 || b.len() == 0 {
        a.len() == b.len()
    } else {
        alike(a.last(), b.last()) && all_alike(a.drop_last(), b.drop_last())
    }
}

/// Trees that differ in comments and formatting alone are hashed by the same
/// bytes, and so have the same fingerprint.
pub proof fn law_fingerprint_ignores_comments(a: NodeView, b: NodeView)
    requires
        alike(a, b),
    ensures
        stream(a) == stream(b),
        blake3_hash(stream(a)) == blake3_hash(stream(b)),
    decreases a, 0nat,
{
    if a.children.len() > 0 {
        lemma_all_alike(a.children, b.children);
    }
}

proof fn lemma_all_alike(a: Seq<NodeView>, b: Seq<NodeView>)
    requires
        all_alike(a, b),
    ensures
        streams(a) == streams(b),
    decreases a, b.len(),
{
    if a.len() > 0 && syntax::is_comment(a.last()) {
        lemma_all_alike(a.drop_last(), b);
        assert(stream(a.last()) =~= Seq::empty());
        assert(streams(a) =~= streams(a.drop_last()));
    } else if b.len() > 0 && syntax::is_comment(b.last()) {
        lemma_all_alike(a, b.drop_last());
        assert(stream(b.last()) =~= Seq::empty());
        assert(streams(b) =~= streams(b.drop_last()));
    } else if a.len() > 0 && b.len() > 0 {
        law_fingerprint_ignores_comments(a.last(), b.last());
        lemma_all_alike(a.drop_last(), b.drop_last());
    }
}

/// A piece of a tree: the kind of a node and, for a token, its text.
pub type Piece = (Seq<char>, Option<Seq<char>>);

/// The pieces of a tree in the order of the source, comments left out.
pub open spec fn pieces(n: NodeView) -> Seq<Piece>
    decreases n,
{
    if syntax::is_comment(n) {
        Seq::empty()
    } else if n.children.len() == 0 {
        seq![(n.kind, n.text)]
    } else {
        seq![(n.kind, None)] + all_pieces(n.children)
    }
}

/// The pieces of trees side by side.
pub open spec fn all_pieces(ns: Seq<NodeView>) -> Seq<Piece>
    decreases ns,
{
    if ns.len() == 0 {
        Seq::empty()
    } else {
        all_pieces(ns.drop_last()) + pieces(ns.last())
    }
}

/// Does the text hold no zero character?
pub open spec fn zero_free(t: Seq<char>) -> bool {
    forall|i: int| 0 <= i < t.len() ==> #[trigger] t[i] != '\0'
}

/// Is this a tree of a grammar in which `token` tells the kinds of tokens?
/// Tokens have a text, and no text holds a zero character.
pub open spec fn grammatical(n: NodeView, token: spec_fn(Seq<char>) -> bool) -> bool
    decreases n,
{
    syntax::is_comment(n) || {
        &&& zero_free(n.kind)
        &&& token(n.kind) == (n.children.len() == 0)
        &&& n.children.len() == 0 ==> (n.text matches Some(t) && zero_free(t))
        &&& all_grammatical(n.children, token)
    }
}

/// Are all of these trees of such a grammar?
pub open spec fn all_grammatical(ns: Seq<NodeView>, token: spec_fn(Seq<char>) -> bool) -> bool
    decreases ns,
{
    ns.len() == 0 || (all_grammatical(ns.drop_last(), token) && grammatical(ns.last(), token))
}

/// The bytes of a piece.
spec fn piece_bytes(p: Piece) -> Seq<u8> {
    bytes_of(p.0) + seq![0u8] + (match p.1 {
        Some(t) => bytes_of(t) + seq![0u8],
        None => Seq::empty(),
    })
}

/// The bytes of pieces side by side.
spec fn pieces_bytes(ps: Seq<Piece>) -> Seq<u8>
    decreases ps.len(),
{
    if ps.len() == 0 {
        Seq::empty()
    } else {
        piece_bytes(ps[0]) + pieces_bytes(ps.skip(1))
    }
}

/// Do the pieces of the kinds of tokens have a text and no others, and is no
/// character of theirs zero?
spec fn readable(ps: Seq<Piece>, token: spec_fn(Seq<char>) -> bool) -> bool {
    forall|i: int|
        0 <= i < ps.len() ==> {
            let p = #[trigger] ps[i];
            &&& zero_free(p.0)
            &&& token(p.0) == (p.1 is Some)
            &&& p.1 matches Some(t) ==> zero_free(t)
        }
}

proof fn lemma_pieces_bytes_add(a: Seq<Piece>, b: Seq<Piece>)
    ensures
        pieces_bytes(a + b) == pieces_bytes(a) + pieces_bytes(b),
    decreases a.len(),
{
    if a.len() == 0 {
        assert(a + b =~= b);
        assert(pieces_bytes(a) + pieces_bytes(b) =~= pieces_bytes(b));
    } else {
        assert((a + b).skip(1) =~= a.skip(1) + b);
        lemma_pieces_bytes_add(a.skip(1), b);
        assert(pieces_bytes(a + b) =~= pieces_bytes(a) + pieces_bytes(b));
    }
}

proof fn lemma_one_piece(p: Piece)
    ensures
        pieces_bytes(seq![p]) == piece_bytes(p),
{
    reveal_with_fuel(pieces_bytes, 2);
    assert(seq![p].skip(1) =~= Seq::empty());
    assert(pieces_bytes(seq![p]) =~= piece_bytes(p));
}

/// A tree is hashed by the bytes of its pieces.
proof fn lemma_stream_of_pieces(n: NodeView)
    ensures
        stream(n) == pieces_bytes(pieces(n)),
    decreases n,
{
    if !syntax::is_comment(n) {
        if n.children.len() == 0 {
            lemma_one_piece((n.kind, n.text));
            assert(stream(n) =~= piece_bytes((n.kind, n.text)));
        } else {
            lemma_streams_of_pieces(n.children);
            let head: Piece = (n.kind, None);
            lemma_pieces_bytes_add(seq![head], all_pieces(n.children));
            lemma_one_piece(head);
            assert(piece_bytes(head) =~= bytes_of(n.kind) + seq![0u8]);
        }
    }
}

proof fn lemma_streams_of_pieces(ns: Seq<NodeView>)
    ensures
        streams(ns) == pieces_bytes(all_pieces(ns)),
    decreases ns,
{
    if ns.len() > 0 {
        lemma_streams_of_pieces(ns.drop_last());
        lemma_stream_of_pieces(ns.last());
        lemma_pieces_bytes_add(all_pieces(ns.drop_last()), pieces(ns.last()));
    }
}

proof fn lemma_readable(n: NodeView, token: spec_fn(Seq<char>) -> bool)
    requires
        grammatical(n, token),
    ensures
        readable(pieces(n), token),
    decreases n,
{
    if !syntax::is_comment(n) && n.children.len() > 0 {
        lemma_all_readable(n.children, token);
    }
}

proof fn lemma_all_readable(ns: Seq<NodeView>, token: spec_fn(Seq<char>) -> bool)
    requires
        all_grammatical(ns, token),
    ensures
        readable(all_pieces(ns), token),
    decreases ns,
{
    if ns.len() > 0 {
        lemma_all_readable(ns.drop_last(), token);
        lemma_readable(ns.last(), token);
    }
}

/// Is none of the bytes zero?
spec fn no_zero(b: Seq<u8>) -> bool {
    forall|i: int| 0 <= i < b.len() ==> #[trigger] b[i] != 0
}

proof fn lemma_scalar_bytes(c: u32)
    by (bit_vector)
    ensures
        0 < c <= 0x7F ==> (c & 0x7F) as u8 != 0,
        0xC0u8 | ((c >> 6) & 0x1F) as u8 != 0,
        0xE0u8 | ((c >> 12) & 0x0F) as u8 != 0,
        0xF0u8 | ((c >> 18) & 0x7) as u8 != 0,
        0x80u8 | (c & 0x3F) as u8 != 0,
        0x80u8 | ((c >> 6) & 0x3F) as u8 != 0,
        0x80u8 | ((c >> 12) & 0x3F) as u8 != 0,
{
}

proof fn lemma_no_zero(t: Seq<char>)
    requires
        zero_free(t),
    ensures
        no_zero(bytes_of(t)),
    decreases t.len(),
{
    if t.len() > 0 {
        let rest = t.drop_first();
        assert forall|i: int| 0 <= i < rest.len() implies #[trigger] rest[i] != '\0' by {
            assert(rest[i] == t[i + 1]);
        }
        lemma_no_zero(rest);
        assert(t[0] != '\0');
        let c = t[0] as u32;
        vstd::utf8::char_is_scalar(t[0]);
        lemma_scalar_bytes(c);
        assert(c != 0) by {
            if c == 0 {
                vstd::utf8::char_u32_cast(t[0], 0);
                vstd::utf8::char_u32_cast('\0', 0);
            }
        }
        assert(no_zero(vstd::utf8::encode_scalar(c)));
        let all = vstd::utf8::encode_scalar(c) + bytes_of(rest);
        assert(no_zero(all));
        assert(bytes_of(t) == all);
    }
}

/// What stands before the first zero byte is told by the bytes.
proof fn lemma_first_zero(x: Seq<u8>, y: Seq<u8>, s: Seq<u8>, t: Seq<u8>)
    requires
        no_zero(x),
        no_zero(y),
        x + seq![0u8] + s == y + seq![0u8] + t,
    ensures
        x == y,
        s == t,
{
    let l = x + seq![0u8] + s;
    let r = y + seq![0u8] + t;
    assert(l[x.len() as int] == 0);
    assert(r[y.len() as int] == 0);
    if x.len() < y.len() {
        assert(r[x.len() as int] == y[x.len() as int]);
    }
    if y.len() < x.len() {
        assert(l[y.len() as int] == x[y.len() as int]);
    }
    assert forall|i: int| 0 <= i < x.len() implies x[i] == y[i] by {
        assert(l[i] == x[i] && r[i] == y[i]);
    }
    assert(x =~= y);
    assert(l.len() == x.len() + 1 + s.len());
    assert(r.len() == y.len() + 1 + t.len());
    assert forall|i: int| 0 <= i < s.len() implies s[i] == t[i] by {
        assert(l[x.len() + 1 + i] == s[i]);
        assert(r[y.len() + 1 + i] == t[i]);
    }
    assert(s =~= t);
}

proof fn lemma_same_bytes(a: Seq<char>, b: Seq<char>)
    requires
        bytes_of(a) == bytes_of(b),
    ensures
        a == b,
{
    vstd::utf8::encode_utf8_decode_utf8(a);
    vstd::utf8::encode_utf8_decode_utf8(b);
}

/// Readable pieces are told by their bytes.
proof fn lemma_same_pieces(a: Seq<Piece>, b: Seq<Piece>, token: spec_fn(Seq<char>) -> bool)
    requires
        readable(a, token),
        readable(b, token),
        pieces_bytes(a) == pieces_bytes(b),
    ensures
        a == b,
    decreases a.len(),
{
    if a.len() == 0 {
        if b.len() > 0 {
            assert(pieces_bytes(b).len() > 0);
        }
        assert(a =~= b);
    } else if b.len() == 0 {
        assert(pieces_bytes(a).len() > 0);
    } else {
        let p = a[0];
        let q = b[0];
        let u = a.skip(1);
        let v = b.skip(1);
        assert(readable(u, token)) by {
            assert forall|i: int| 0 <= i < u.len() implies ({
                let x = #[trigger] u[i];
                &&& zero_free(x.0)
                &&& token(x.0) == (x.1 is Some)
                &&& x.1 matches Some(t) ==> zero_free(t)
            }) by {
                assert(u[i] == a[i + 1]);
            }
        }
        assert(readable(v, token)) by {
            assert forall|i: int| 0 <= i < v.len() implies ({
                let x = #[trigger] v[i];
                &&& zero_free(x.0)
                &&& token(x.0) == (x.1 is Some)
                &&& x.1 matches Some(t) ==> zero_free(t)
            }) by {
                assert(v[i] == b[i + 1]);
            }
        }
        lemma_no_zero(p.0);
        lemma_no_zero(q.0);
        let s = tail_bytes(p) + pieces_bytes(u);
        let t = tail_bytes(q) + pieces_bytes(v);
        assert(pieces_bytes(a) =~= bytes_of(p.0) + seq![0u8] + s);
        assert(pieces_bytes(b) =~= bytes_of(q.0) + seq![0u8] + t);
        lemma_first_zero(bytes_of(p.0), bytes_of(q.0), s, t);
        lemma_same_bytes(p.0, q.0);
        match (p.1, q.1) {
            (Some(x), Some(y)) => {
                lemma_no_zero(x);
                lemma_no_zero(y);
                assert(s =~= bytes_of(x) + seq![0u8] + pieces_bytes(u));
                assert(t =~= bytes_of(y) + seq![0u8] + pieces_bytes(v));
                lemma_first_zero(bytes_of(x), bytes_of(y), pieces_bytes(u), pieces_bytes(v));
                lemma_same_bytes(x, y);
            },
            _ => {
                assert(s =~= pieces_bytes(u));
                assert(t =~= pieces_bytes(v));
            },
        }
        lemma_same_pieces(u, v, token);
        assert(a =~= seq![p] + u);
        assert(b =~= seq![q] + v);
    }
}

/// The bytes of a piece behind its kind.
spec fn tail_bytes(p: Piece) -> Seq<u8> {
    match p.1 {
        Some(t) => bytes_of(t) + seq![0u8],
        None => Seq::empty(),
    }
}

/// Do the hashes of the two tell them apart, if they differ?
pub open spec fn no_collision(x: Seq<u8>, y: Seq<u8>) -> bool {
    blake3_hash(x) == blake3_hash(y) ==> x == y
}

/// Two trees of one grammar are hashed by the same bytes exactly when they
/// are the same kind for kind and token for token, comments and formatting
/// left out; and so their fingerprints are the same exactly then, collisions
/// set aside.
pub proof fn law_fingerprint_tells_tokens(
    a: NodeView,
    b: NodeView,
    token: spec_fn(Seq<char>) -> bool,
)
    requires
        grammatical(a, token),
        grammatical(b, token),
    ensures
        stream(a) == stream(b) <==> pieces(a) == pieces(b),
        no_collision(stream(a), stream(b)) ==> (blake3_hash(stream(a)) == blake3_hash(stream(b))
            <==> pieces(a) == pieces(b)),
{
    lemma_stream_of_pieces(a);
    lemma_stream_of_pieces(b);
    lemma_readable(a, token);
    lemma_readable(b, token);
    if stream(a) == stream(b) {
        lemma_same_pieces(pieces(a), pieces(b), token);
    }
}

/// Are the two trees alike but for the text of one token that is no comment?
pub open spec fn one_token_apart(a: NodeView, b: NodeView) -> bool
    decreases a,
{
    &&& a.kind == b.kind
    &&& !syntax::is_comment(a)
    &&& (a.children.len() == 0) == (b.children.len() == 0)
    &&& if a.children.len() == 0 {
        a.text != b.text
    } else {
        exists|i: int, j: int|
            0 <= i < a.children.len() && 0 <= j < b.children.len() && one_token_apart(
                a.children[i],
                b.children[j],
            ) && #[trigger] all_alike(a.children.take(i), b.children.take(j)) && all_alike(
                a.children.skip(i + 1),
                b.children.skip(j + 1),
            )
    }
}

proof fn lemma_streams_add(a: Seq<NodeView>, b: Seq<NodeView>)
    ensures
        streams(a + b) == streams(a) + streams(b),
    decreases b.len(),
{
    if b.len() == 0 {
        assert(a + b =~= a);
        assert(streams(a) + streams(b) =~= streams(a));
    } else {
        assert((a + b).drop_last() =~= a + b.drop_last());
        lemma_streams_add(a, b.drop_last());
        assert(streams(a + b) =~= streams(a) + streams(b));
    }
}

proof fn lemma_streams_around(ns: Seq<NodeView>, i: int)
    requires
        0 <= i < ns.len(),
    ensures
        streams(ns) == streams(ns.take(i)) + stream(ns[i]) + streams(ns.skip(i + 1)),
{
    lemma_streams_add(ns.take(i + 1), ns.skip(i + 1));
    assert(ns.take(i + 1) + ns.skip(i + 1) =~= ns);
    assert(ns.take(i + 1).drop_last() =~= ns.take(i));
}

/// Another token gives other bytes: trees that are alike but for the text of
/// one token are hashed by different bytes, and have different fingerprints
/// where the bytes do not collide.
pub proof fn law_another_token_gives_other_bytes(a: NodeView, b: NodeView)
    requires
        one_token_apart(a, b),
    ensures
        stream(a) != stream(b),
        no_collision(stream(a), stream(b)) ==> blake3_hash(stream(a)) != blake3_hash(stream(b)),
    decreases a,
{
    reveal_with_fuel(one_token_apart, 2);
    let head = bytes_of(a.kind) + seq![0u8];
    if a.children.len() == 0 {
        if stream(a) == stream(b) {
            lemma_between(head, leaf_stream(a), leaf_stream(b), Seq::empty());
            match (a.text, b.text) {
                (Some(x), Some(y)) => {
                    lemma_between(Seq::empty(), bytes_of(x), bytes_of(y), seq![0u8]);
                    lemma_same_bytes(x, y);
                },
                _ => {},
            }
        }
    } else {
        let (i, j) = choose|i: int, j: int|
            0 <= i < a.children.len() && 0 <= j < b.children.len() && one_token_apart(
                a.children[i],
                b.children[j],
            ) && #[trigger] all_alike(a.children.take(i), b.children.take(j)) && all_alike(
                a.children.skip(i + 1),
                b.children.skip(j + 1),
            );
        lemma_streams_around(a.children, i);
        lemma_streams_around(b.children, j);
        lemma_all_alike(a.children.take(i), b.children.take(j));
        lemma_all_alike(a.children.skip(i + 1), b.children.skip(j + 1));
        law_another_token_gives_other_bytes(a.children[i], b.children[j]);
        let before = head + streams(a.children.take(i));
        let after = streams(a.children.skip(i + 1));
        assert(stream(a) =~= before + stream(a.children[i]) + after);
        assert(stream(b) =~= before + stream(b.children[j]) + after);
        if stream(a) == stream(b) {
            lemma_between(before, stream(a.children[i]), stream(b.children[j]), after);
        }
    }
}

/// What stands between the same bytes is the same where the whole is.
proof fn lemma_between(before: Seq<u8>, x: Seq<u8>, y: Seq<u8>, after: Seq<u8>)
    requires
        before + x + after =~= before + y + after,
    ensures
        x == y,
{
    let l = before + x + after;
    let r = before + y + after;
    assert(l.len() == before.len() + x.len() + after.len());
    assert(r.len() == before.len() + y.len() + after.len());
    assert forall|i: int| 0 <= i < x.len() implies x[i] == y[i] by {
        assert(l[before.len() + i] == x[i]);
        assert(r[before.len() + i] == y[i]);
    }
    assert(x =~= y);
}

/// A change inside the body alone leaves the signature's fingerprint as it
/// was.
pub proof fn law_signature_ignores_body(a: NodeView, b: NodeView, p: int)
    requires
        a.kind == b.kind,
        body_position(a) == p,
        body_position(b) == p,
        0 <= p < a.children.len(),
        a.children.len() == b.children.len(),
        forall|i: int| 0 <= i < a.children.len() && i != p ==> #[trigger] a.children[i] == b.children[i],
    ensures
        signature_stream(a) == signature_stream(b),
{
    let keep = |i: int| i != p;
    assert(keep =~= (|i: int| i != body_position(a)));
    assert(keep =~= (|i: int| i != body_position(b)));
    lemma_kept_streams(a.children, b.children, keep);
}

proof fn lemma_kept_streams(a: Seq<NodeView>, b: Seq<NodeView>, keep: spec_fn(int) -> bool)
    requires
        a.len() == b.len(),
        forall|i: int| 0 <= i < a.len() && keep(i) ==> #[trigger] a[i] == b[i],
    ensures
        kept_streams(a, keep) == kept_streams(b, keep),
    decreases a.len(),
{
    if a.len() > 0 {
        assert forall|i: int| 0 <= i < a.drop_last().len() && keep(i) implies
            #[trigger] a.drop_last()[i] == b.drop_last()[i] by {
            assert(a[i] == b[i]);
        }
        lemma_kept_streams(a.drop_last(), b.drop_last(), keep);
        if keep(a.len() - 1) {
            assert(a[a.len() - 1] == b[b.len() - 1]);
        }
    }
}

/// The bytes of what is kept, where one of the trees may have changed.
pub proof fn lemma_kept_around(
    a: Seq<NodeView>,
    b: Seq<NodeView>,
    p: int,
    keep: spec_fn(int) -> bool,
    also: spec_fn(int) -> bool,
)
    requires
        a.len() == b.len(),
        0 <= p < a.len(),
        forall|i: int| 0 <= i < a.len() ==> #[trigger] keep(i) == also(i),
        forall|i: int|
            0 <= i < a.len() && i != p && keep(i) ==> stream(#[trigger] a[i]) == stream(b[i]),
    ensures
        kept_streams(a, keep) == kept_streams(b, also) <==> (keep(p) ==> stream(a[p]) == stream(
            b[p],
        )),
    decreases a.len(),
{
    let n = a.len() - 1;
    let x = a.drop_last();
    let y = b.drop_last();
    assert(a[n] == a.last() && b[n] == b.last());
    assert forall|i: int| 0 <= i < x.len() && i != p && keep(i) implies stream(#[trigger] x[i])
        == stream(y[i]) by {
        assert(x[i] == a[i] && y[i] == b[i]);
    }
    if p < n {
        assert(x[p] == a[p] && y[p] == b[p]);
        lemma_kept_around(x, y, p, keep, also);
        if keep(n) && kept_streams(a, keep) == kept_streams(b, also) {
            let end = stream(a[n]);
            assert(Seq::<u8>::empty() + kept_streams(x, keep) + end =~= kept_streams(a, keep));
            assert(Seq::<u8>::empty() + kept_streams(y, also) + end =~= kept_streams(b, also));
            lemma_between(Seq::empty(), kept_streams(x, keep), kept_streams(y, also), end);
        }
    } else {
        lemma_kept_alike(x, y, keep, also);
        if keep(n) && kept_streams(a, keep) == kept_streams(b, also) {
            let start = kept_streams(x, keep);
            assert(start + stream(a[n]) + Seq::<u8>::empty() =~= kept_streams(a, keep));
            assert(start + stream(b[n]) + Seq::<u8>::empty() =~= kept_streams(b, also));
            lemma_between(start, stream(a[n]), stream(b[n]), Seq::empty());
        }
    }
}

proof fn lemma_kept_alike(
    a: Seq<NodeView>,
    b: Seq<NodeView>,
    keep: spec_fn(int) -> bool,
    also: spec_fn(int) -> bool,
)
    requires
        a.len() == b.len(),
        forall|i: int| 0 <= i < a.len() ==> #[trigger] keep(i) == also(i),
        forall|i: int| 0 <= i < a.len() && keep(i) ==> stream(#[trigger] a[i]) == stream(b[i]),
    ensures
        kept_streams(a, keep) == kept_streams(b, also),
    decreases a.len(),
{
    if a.len() > 0 {
        let x = a.drop_last();
        let y = b.drop_last();
        assert forall|i: int| 0 <= i < x.len() && keep(i) implies stream(#[trigger] x[i])
            == stream(y[i]) by {
            assert(x[i] == a[i] && y[i] == b[i]);
        }
        lemma_kept_alike(x, y, keep, also);
        assert(a[a.len() - 1] == a.last() && b[b.len() - 1] == b.last());
    }
}

} // verus!
