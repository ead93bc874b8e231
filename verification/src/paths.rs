//! Slash-separated paths, read the way the file system reads them: `a//b`,
//! `a/./b` and `a/b/` all name what `a/b` names.
use vstd::prelude::*;

use crate::text;
use crate::text::{chars_of, end_of_last, join_with, same, same_all, split_on, string_of};

verus! {

/// The pieces of `s` that name something: neither empty nor `.`.
pub open spec fn naming(pieces: Seq<Seq<char>>) -> Seq<Seq<char>>
    decreases pieces.len(),
{
    if pieces.len() == 0 {
        Seq::empty()
    } else {
        let before = naming(pieces.drop_last());
        if pieces.last().len() == 0 || pieces.last() == "."@ {
            before
        } else {
            before.push(pieces.last())
        }
    }
}

/// What a path starts from: `/` for an absolute path, `.` where it is
/// written out, and otherwise nothing.
pub open spec fn anchor(path: Seq<char>) -> Seq<Seq<char>> {
    if path.len() > 0 && path[0] == '/' {
        seq!["/"@]
    } else if text::split(path, '/')[0] == "."@ {
        seq!["."@]
    } else {
        Seq::empty()
    }
}

/// The components of a path. Two paths are the same when their components
/// are.
pub open spec fn components(path: Seq<char>) -> Seq<Seq<char>> {
    anchor(path) + naming(text::split(path, '/'))
}

/// The path that has these components.
pub open spec fn render(parts: Seq<Seq<char>>) -> Seq<char> {
    if parts.len() > 0 && parts[0] == "/"@ {
        "/"@ + text::join(parts.skip(1), "/"@)
    } else {
        text::join(parts, "/"@)
    }
}

/// Do the two paths name the same thing?
pub open spec fn same_path(a: Seq<char>, b: Seq<char>) -> bool {
    components(a) == components(b)
}

/// Is this component a name, and not `/`, `.` or `..`?
pub open spec fn is_name(part: Seq<char>) -> bool {
    part != "/"@ && part != "."@ && part != ".."@
}

/// The last component of a path, when it is a name.
pub open spec fn base_name(path: Seq<char>) -> Option<Seq<char>> {
    let parts = components(path);
    if parts.len() > 0 && is_name(parts.last()) {
        Some(parts.last())
    } else {
        None
    }
}

/// The path without its last component. `/` and the empty path have none.
pub open spec fn parent_of(path: Seq<char>) -> Option<Seq<char>> {
    let parts = components(path);
    if parts.len() == 0 || parts.last() == "/"@ {
        None
    } else {
        Some(render(parts.drop_last()))
    }
}

/// The directory a path stands in; the empty path where there is none.
pub open spec fn directory_of(path: Seq<char>) -> Seq<char> {
    match parent_of(path) {
        Some(p) => p,
        None => Seq::empty(),
    }
}

/// What follows the last dot of a file name, unless the name begins there.
pub open spec fn extension_of(path: Seq<char>) -> Option<Seq<char>> {
    match base_name(path) {
        Some(name) => {
            let dot = text::last_index(name, '.');
            if dot <= 0 {
                None
            } else {
                Some(name.skip(dot + 1))
            }
        },
        None => None,
    }
}

/// A file name without its extension.
pub open spec fn stem_of(path: Seq<char>) -> Option<Seq<char>> {
    match base_name(path) {
        Some(name) => {
            let dot = text::last_index(name, '.');
            if dot <= 0 {
                Some(name)
            } else {
                Some(name.take(dot))
            }
        },
        None => None,
    }
}

/// `rel` taken from `base`: `rel` alone where it is absolute.
pub open spec fn joined(base: Seq<char>, rel: Seq<char>) -> Seq<char> {
    if rel.len() > 0 && rel[0] == '/' {
        rel
    } else if base.len() == 0 || base.last() == '/' {
        base + rel
    } else {
        base + "/"@ + rel
    }
}

/// The components of a path.
pub fn parts_of(path: &str) -> (r: Vec<String>)
    ensures
        text::views(r@) == components(path@),
{
    let pieces = split_on(path, '/');
    let chars = chars_of(path);
    let mut out: Vec<String> = Vec::new();
    assert(text::views(out@) =~= Seq::<Seq<char>>::empty());
    if chars.len() > 0 && chars[0] == '/' {
        out.push("/".to_owned());
    } else if same(pieces[0].as_str(), ".") {
        assert(text::views(pieces@)[0] == "."@);
        out.push(".".to_owned());
    } else {
        assert(text::views(pieces@)[0] != "."@);
    }
    assert(text::views(out@) =~= anchor(path@));
    let mut i: usize = 0;
    assert(anchor(path@) + naming(text::views(pieces@).take(0)) =~= anchor(path@));
    while i < pieces.len()
        invariant
            i <= pieces@.len(),
            text::views(out@) == anchor(path@) + naming(text::views(pieces@).take(i as int)),
        decreases pieces@.len() - i,
    {
        let ghost all = text::views(pieces@);
        let ghost was = out@;
        assert(all.take(i + 1).drop_last() =~= all.take(i as int));
        assert(all.take(i + 1).last() == pieces@[i as int]@);
        if !pieces[i].as_str().is_empty() && !same(pieces[i].as_str(), ".") {
            let p = pieces[i].clone();
            out.push(p);
            assert(text::views(out@) =~= text::views(was).push(p@));
            assert(text::views(out@) =~= anchor(path@) + naming(all.take(i + 1)));
        }
        i = i + 1;
    }
    assert(text::views(pieces@).take(pieces@.len() as int) =~= text::views(pieces@));
    out
}

/// The path that has these components.
pub fn render_parts(parts: &Vec<String>) -> (r: String)
    ensures
        r@ == render(text::views(parts@)),
{
    if parts.len() > 0 && same(parts[0].as_str(), "/") {
        let mut rest: Vec<String> = Vec::new();
        let mut i: usize = 1;
        while i < parts.len()
            invariant
                1 <= i <= parts@.len(),
                text::views(rest@) == text::views(parts@).subrange(1, i as int),
            decreases parts@.len() - i,
        {
            let p = parts[i].clone();
            let ghost was = rest@;
            rest.push(p);
            assert(text::views(rest@) =~= text::views(was).push(p@));
            assert(text::views(parts@).subrange(1, i + 1) =~= text::views(parts@).subrange(
                1,
                i as int,
            ).push(p@));
            i = i + 1;
        }
        assert(text::views(parts@).subrange(1, parts@.len() as int) =~= text::views(parts@).skip(
            1,
        ));
        assert(text::views(parts@)[0] == "/"@);
        text::cat("/", join_with(&rest, "/").as_str())
    } else {
        proof {
            if parts@.len() > 0 {
                assert(text::views(parts@)[0] == parts@[0]@);
            }
        }
        join_with(parts, "/")
    }
}

/// Do the two paths name the same thing?
pub fn is_same_path(a: &str, b: &str) -> (r: bool)
    ensures
        r == same_path(a@, b@),
{
    same_all(&parts_of(a), &parts_of(b))
}

/// The last component of a path, when it is a name.
pub fn file_name(path: &str) -> (r: Option<String>)
    ensures
        text::opt_view(r) == base_name(path@),
{
    let mut parts = parts_of(path);
    let ghost all = text::views(parts@);
    match parts.pop() {
        Some(last) => {
            assert(all.last() == last@);
            if same(last.as_str(), "/") || same(last.as_str(), ".") || same(last.as_str(), "..") {
                None
            } else {
                Some(last)
            }
        },
        None => None,
    }
}

/// The path without its last component.
pub fn parent(path: &str) -> (r: Option<String>)
    ensures
        text::opt_view(r) == parent_of(path@),
{
    let mut parts = parts_of(path);
    let ghost all = text::views(parts@);
    match parts.pop() {
        Some(last) => {
            assert(all.last() == last@);
            assert(text::views(parts@) =~= all.drop_last());
            if same(last.as_str(), "/") {
                None
            } else {
                Some(render_parts(&parts))
            }
        },
        None => None,
    }
}

/// The directory a path stands in; the empty path where there is none.
pub fn directory(path: &str) -> (r: String)
    ensures
        r@ == directory_of(path@),
{
    match parent(path) {
        Some(p) => p,
        None => String::new(),
    }
}

/// What follows the last dot of a file name, unless the name begins there.
pub fn extension(path: &str) -> (r: Option<String>)
    ensures
        text::opt_view(r) == extension_of(path@),
{
    match file_name(path) {
        Some(name) => {
            let chars = chars_of(name.as_str());
            let end = end_of_last(&chars, '.');
            if end <= 1 {
                None
            } else {
                assert(name@.subrange(end as int, name@.len() as int) =~= name@.skip(end as int));
                Some(string_of(&chars, end, chars.len()))
            }
        },
        None => None,
    }
}

/// A file name without its extension.
pub fn file_stem(path: &str) -> (r: Option<String>)
    ensures
        text::opt_view(r) == stem_of(path@),
{
    match file_name(path) {
        Some(name) => {
            let chars = chars_of(name.as_str());
            let end = end_of_last(&chars, '.');
            if end <= 1 {
                Some(name)
            } else {
                assert(name@.subrange(0, end - 1) =~= name@.take(end - 1));
                Some(string_of(&chars, 0, end - 1))
            }
        },
        None => None,
    }
}

/// `rel` taken from `base`.
pub fn join_path(base: &str, rel: &str) -> (r: String)
    ensures
        r@ == joined(base@, rel@),
{
    let bc = chars_of(base);
    let rc = chars_of(rel);
    if rc.len() > 0 && rc[0] == '/' {
        rel.to_owned()
    } else if bc.len() == 0 || bc[bc.len() - 1] == '/' {
        text::cat(base, rel)
    } else {
        text::cat3(base, "/", rel)
    }
}

/// The one spelling that stands for every spelling of a path.
pub open spec fn canonical(path: Seq<char>) -> Seq<char> {
    render(components(path))
}

/// The one spelling that stands for every spelling of a path.
pub fn canonical_path(path: &str) -> (r: String)
    ensures
        r@ == canonical(path@),
{
    render_parts(&parts_of(path))
}

/// Where a component stands among others: `/` first, then `.`, `..`, names.
pub open spec fn rank(part: Seq<char>) -> int {
    if part == "/"@ {
        0
    } else if part == "."@ {
        1
    } else if part == ".."@ {
        2
    } else {
        3
    }
}

/// Does component `a` come before component `b`?
pub open spec fn part_precedes(a: Seq<char>, b: Seq<char>) -> bool {
    rank(a) < rank(b) || (rank(a) == rank(b) && text::precedes(a, b))
}

/// Do the components `a` come before `b`, the first difference deciding?
pub open spec fn parts_precede(a: Seq<Seq<char>>, b: Seq<Seq<char>>) -> bool
    decreases a.len(),
{
    if b.len() == 0 {
        false
    } else if a.len() == 0 {
        true
    } else if a[0] != b[0] {
        part_precedes(a[0], b[0])
    } else {
        parts_precede(a.skip(1), b.skip(1))
    }
}

/// Does path `a` come before path `b`?
pub open spec fn path_precedes(a: Seq<char>, b: Seq<char>) -> bool {
    parts_precede(components(a), components(b))
}

proof fn lemma_part_order(a: Seq<char>, b: Seq<char>)
    ensures
        part_precedes(a, b) || part_precedes(b, a) || a == b,
        !(part_precedes(a, b) && part_precedes(b, a)),
        !part_precedes(a, a),
{
    text::lemma_precedes_total(a, b);
    text::lemma_precedes_irreflexive(a);
    if text::precedes(a, b) && text::precedes(b, a) {
        text::lemma_precedes_transitive(a, b, a);
    }
}

pub proof fn lemma_parts_total(a: Seq<Seq<char>>, b: Seq<Seq<char>>)
    ensures
        parts_precede(a, b) || parts_precede(b, a) || a == b,
    decreases a.len(),
{
    if a.len() > 0 && b.len() > 0 {
        if a[0] == b[0] {
            lemma_parts_total(a.skip(1), b.skip(1));
            if a.skip(1) == b.skip(1) {
                assert(a =~= seq![a[0]] + a.skip(1));
                assert(b =~= seq![b[0]] + b.skip(1));
            }
        } else {
            lemma_part_order(a[0], b[0]);
        }
    } else if a.len() == 0 && b.len() == 0 {
        assert(a =~= b);
    }
}

pub proof fn lemma_parts_transitive(a: Seq<Seq<char>>, b: Seq<Seq<char>>, c: Seq<Seq<char>>)
    requires
        parts_precede(a, b),
        parts_precede(b, c),
    ensures
        parts_precede(a, c),
    decreases a.len(),
{
    if a.len() > 0 {
        if a[0] == b[0] && b[0] == c[0] {
            lemma_parts_transitive(a.skip(1), b.skip(1), c.skip(1));
        } else if a[0] != b[0] && b[0] != c[0] {
            lemma_part_order(a[0], c[0]);
            lemma_part_order(a[0], b[0]);
            lemma_part_order(b[0], c[0]);
            if rank(a[0]) == rank(b[0]) && rank(b[0]) == rank(c[0]) {
                text::lemma_precedes_transitive(a[0], b[0], c[0]);
            }
            if a[0] == c[0] {
                text::lemma_precedes_irreflexive(a[0]);
            }
        }
    }
}

fn rank_of(part: &str) -> (r: u8)
    ensures
        r == rank(part@),
{
    if same(part, "/") {
        0
    } else if same(part, ".") {
        1
    } else if same(part, "..") {
        2
    } else {
        3
    }
}

/// Does path `a` come before path `b`?
pub fn path_before(a: &str, b: &str) -> (r: bool)
    ensures
        r == path_precedes(a@, b@),
{
    let ap = parts_of(a);
    let bp = parts_of(b);
    let ghost av = text::views(ap@);
    let ghost bv = text::views(bp@);
    let mut i: usize = 0;
    assert(av.skip(0) =~= av);
    assert(bv.skip(0) =~= bv);
    while i < ap.len() && i < bp.len() && same(ap[i].as_str(), bp[i].as_str())
        invariant
            i <= ap@.len(),
            i <= bp@.len(),
            av == text::views(ap@),
            bv == text::views(bp@),
            parts_precede(av, bv) == parts_precede(av.skip(i as int), bv.skip(i as int)),
        decreases ap@.len() - i,
    {
        assert(av.skip(i as int).skip(1) =~= av.skip(i + 1));
        assert(bv.skip(i as int).skip(1) =~= bv.skip(i + 1));
        assert(av[i as int] == bv[i as int]);
        i = i + 1;
    }
    if i >= bp.len() {
        false
    } else if i >= ap.len() {
        true
    } else {
        assert(av.skip(i as int)[0] == ap@[i as int]@);
        assert(bv.skip(i as int)[0] == bp@[i as int]@);
        let ra = rank_of(ap[i].as_str());
        let rb = rank_of(bp[i].as_str());
        ra < rb || (ra == rb && text::before(ap[i].as_str(), bp[i].as_str()))
    }
}

/// No component holds a slash, but for the root itself.
proof fn lemma_split_pieces(s: Seq<char>)
    ensures
        forall|i: int|
            0 <= i < text::split(s, '/').len() ==> !(#[trigger] text::split(s, '/')[i]).contains(
                '/',
            ),
    decreases s.len(),
{
    text::lemma_split_nonempty(s, '/');
    if s.len() > 0 {
        let t = s.drop_last();
        lemma_split_pieces(t);
        text::lemma_split_nonempty(t, '/');
        let before = text::split(t, '/');
        let now = text::split(s, '/');
        assert forall|i: int| 0 <= i < now.len() implies !(#[trigger] now[i]).contains('/') by {
            if i < before.len() - 1 {
                assert(now[i] == before[i]);
            } else if s.last() != '/' {
                let last = before.last().push(s.last());
                assert(!before[before.len() - 1].contains('/'));
                assert(now[i] == last);
                assert forall|k: int| 0 <= k < last.len() implies last[k] != '/' by {
                    if k < before.last().len() {
                        assert(last[k] == before.last()[k]);
                    }
                }
            } else if i == before.len() - 1 {
                assert(now[i] == before[i]);
            }
        }
    } else {
        assert forall|i: int| 0 <= i < text::split(s, '/').len() implies !(
        #[trigger] text::split(s, '/')[i]).contains('/') by {
            assert(text::split(s, '/')[i] =~= Seq::<char>::empty());
        }
    }
}

/// Pieces that name something and hold no slash.
spec fn plain(parts: Seq<Seq<char>>) -> bool {
    forall|i: int|
        0 <= i < parts.len() ==> (#[trigger] parts[i]).len() > 0 && parts[i] != "."@
            && !parts[i].contains('/')
}

proof fn lemma_naming_plain(pieces: Seq<Seq<char>>)
    requires
        forall|i: int| 0 <= i < pieces.len() ==> !(#[trigger] pieces[i]).contains('/'),
    ensures
        plain(naming(pieces)),
    decreases pieces.len(),
{
    if pieces.len() > 0 {
        let rest = pieces.drop_last();
        assert forall|i: int| 0 <= i < rest.len() implies !(#[trigger] rest[i]).contains('/') by {
            assert(rest[i] == pieces[i]);
        }
        lemma_naming_plain(rest);
        assert(!pieces[pieces.len() - 1].contains('/'));
        let before = naming(rest);
        let now = naming(pieces);
        assert forall|i: int| 0 <= i < now.len() implies (#[trigger] now[i]).len() > 0 && now[i]
            != "."@ && !now[i].contains('/') by {
            if i < before.len() {
                assert(now[i] == before[i]);
            }
        }
    }
}

proof fn lemma_naming_of_plain(parts: Seq<Seq<char>>)
    requires
        plain(parts),
    ensures
        naming(parts) == parts,
    decreases parts.len(),
{
    if parts.len() > 0 {
        let rest = parts.drop_last();
        assert forall|i: int| 0 <= i < rest.len() implies (#[trigger] rest[i]).len() > 0 && rest[i]
            != "."@ && !rest[i].contains('/') by {
            assert(rest[i] == parts[i]);
        }
        lemma_naming_of_plain(rest);
        assert(parts[parts.len() - 1].len() > 0);
        assert(naming(parts) =~= parts);
    } else {
        assert(naming(parts) =~= parts);
    }
}

proof fn lemma_naming_push(pieces: Seq<Seq<char>>, p: Seq<char>)
    ensures
        naming(pieces.push(p)) == (if p.len() == 0 || p == "."@ {
            naming(pieces)
        } else {
            naming(pieces).push(p)
        }),
{
    assert(pieces.push(p).drop_last() =~= pieces);
}

/// A piece that is left out at the front changes nothing.
proof fn lemma_naming_front(p: Seq<char>, rest: Seq<Seq<char>>)
    requires
        p.len() == 0 || p == "."@,
    ensures
        naming(seq![p] + rest) == naming(rest),
    decreases rest.len(),
{
    let all = seq![p] + rest;
    if rest.len() == 0 {
        assert(all.drop_last() =~= Seq::<Seq<char>>::empty());
        assert(all.last() == p);
        assert(naming(all.drop_last()) =~= Seq::<Seq<char>>::empty());
        assert(naming(all) =~= naming(rest));
    } else {
        assert(all.drop_last() =~= seq![p] + rest.drop_last());
        assert(all.last() == rest.last());
        lemma_naming_front(p, rest.drop_last());
    }
}

/// The components of what has the components of a path.
pub proof fn law_canonical_keeps_components(path: Seq<char>)
    ensures
        components(canonical(path)) == components(path),
{
    reveal_strlit("/");
    reveal_strlit(".");
    let pieces = text::split(path, '/');
    text::lemma_split_nonempty(path, '/');
    lemma_split_pieces(path);
    lemma_naming_plain(pieces);
    let body = naming(pieces);
    lemma_naming_of_plain(body);
    let sep = seq!['/'];
    assert("/"@ =~= sep);
    let joined = text::join(body, sep);
    if anchor(path) == seq!["/"@] {
        let parts = anchor(path) + body;
        assert(parts[0] == "/"@);
        assert(parts.skip(1) =~= body);
        let c = sep + joined;
        assert(canonical(path) == c);
        assert(c[0] == '/');
        if body.len() == 0 {
            assert(c =~= sep);
            assert(sep.drop_last() =~= Seq::<char>::empty());
            assert(text::split(sep.drop_last(), '/') =~= seq![Seq::<char>::empty()]);
            let two = seq![Seq::<char>::empty()].push(Seq::<char>::empty());
            assert(text::split(c, '/') == two);
            lemma_naming_push(seq![Seq::<char>::empty()], Seq::<char>::empty());
            lemma_naming_push(Seq::empty(), Seq::<char>::empty());
            assert(Seq::<Seq<char>>::empty().push(Seq::<char>::empty()) =~= seq![
                Seq::<char>::empty(),
            ]);
            assert(naming(two) =~= body);
        } else {
            text::lemma_split_join(body, '/');
            text::lemma_split_cat(Seq::empty(), joined, '/');
            assert(Seq::<char>::empty() + sep + joined =~= c);
            assert(text::split(Seq::<char>::empty(), '/') =~= seq![Seq::<char>::empty()]);
            assert(text::split(c, '/') =~= seq![Seq::<char>::empty()] + body);
            lemma_naming_front(Seq::empty(), body);
        }
        assert(components(c) =~= components(path));
    } else if anchor(path) == seq!["."@] {
        let parts = anchor(path) + body;
        assert(parts[0] == "."@);
        assert("."@ != "/"@) by {
            assert("."@[0] != "/"@[0]);
        }
        let c = text::join(parts, sep);
        assert(canonical(path) == c);
        assert forall|i: int| 0 <= i < parts.len() implies !(#[trigger] parts[i]).contains('/') by {
            if i == 0 {
                assert(parts[0] =~= seq!['.']);
            } else {
                assert(parts[i] == body[i - 1]);
            }
        }
        text::lemma_split_join(parts, '/');
        assert(text::split(c, '/') == parts);
        lemma_naming_front("."@, body);
        assert(parts =~= seq!["."@] + body);
        text::lemma_join_first(parts, sep);
        assert(c.len() > 0 && c[0] == parts[0][0]);
        assert(c[0] == '.');
        assert(anchor(c) == seq!["."@]);
        assert(components(c) =~= components(path));
    } else {
        assert(anchor(path) =~= Seq::<Seq<char>>::empty());
        let parts = anchor(path) + body;
        assert(parts =~= body);
        if body.len() > 0 {
            assert(body[0].len() > 0 && !body[0].contains('/'));
            assert(body[0] != "/"@) by {
                if body[0] == "/"@ {
                    assert(body[0][0] == '/');
                    assert(body[0].contains('/'));
                }
            }
            let c = joined;
            assert(canonical(path) == c);
            text::lemma_split_join(body, '/');
            text::lemma_join_first(body, sep);
            assert(c[0] == body[0][0]);
            assert(c[0] != '/') by {
                if c[0] == '/' {
                    assert(body[0].contains(body[0][0]));
                }
            }
            assert(text::split(c, '/')[0] == body[0]);
            assert(anchor(c) =~= Seq::<Seq<char>>::empty());
            assert(components(c) =~= components(path));
        } else {
            let c = Seq::<char>::empty();
            assert(canonical(path) =~= c);
            assert(text::split(c, '/') =~= seq![Seq::<char>::empty()]);
            assert(Seq::<char>::empty() != "."@) by {
                assert("."@.len() == 1);
            }
            assert(Seq::<Seq<char>>::empty().push(Seq::<char>::empty()) =~= seq![
                Seq::<char>::empty(),
            ]);
            lemma_naming_push(Seq::empty(), Seq::<char>::empty());
            assert(components(c) =~= components(path));
        }
    }
}

/// Two paths have one spelling in common exactly when they name the same
/// thing.
pub proof fn law_canonical_decides(a: Seq<char>, b: Seq<char>)
    ensures
        canonical(a) == canonical(b) <==> same_path(a, b),
{
    law_canonical_keeps_components(a);
    law_canonical_keeps_components(b);
}

/// Spelling a path out once more changes nothing.
pub proof fn law_canonical_is_idempotent(path: Seq<char>)
    ensures
        canonical(canonical(path)) == canonical(path),
{
    law_canonical_keeps_components(path);
}

/// Nothing has no components.
pub proof fn lemma_components_of_nothing()
    ensures
        components(Seq::<char>::empty()).len() == 0,
{
    reveal_strlit(".");
    let none = Seq::<char>::empty();
    text::lemma_split_whole(none, '/');
    lemma_naming_push(Seq::empty(), none);
    assert(Seq::<Seq<char>>::empty().push(none) =~= seq![none]);
    assert(components(none) =~= Seq::<Seq<char>>::empty());
}

/// What is not nothing has a component.
pub proof fn lemma_components_nonempty(path: Seq<char>)
    requires
        path.len() > 0,
    ensures
        components(path).len() > 0,
{
    let pieces = text::split(path, '/');
    text::lemma_split_nonempty(path, '/');
    if path[0] != '/' && pieces[0] != "."@ {
        lemma_first_piece(path);
        lemma_naming_some(pieces);
    }
}

/// A path that does not begin with a slash has a first piece.
proof fn lemma_first_piece(path: Seq<char>)
    requires
        path.len() > 0,
        path[0] != '/',
    ensures
        text::split(path, '/')[0].len() > 0,
    decreases path.len(),
{
    if path.contains('/') {
        text::lemma_last_index(path, '/');
        let i = text::last_index(path, '/');
        if i < 0 {
            let k = choose|k: int| 0 <= k < path.len() && path[k] == '/';
            assert(path[k] != '/');
        }
        let a = path.take(i);
        let b = path.skip(i + 1);
        assert(path =~= a + seq!['/'] + b);
        text::lemma_split_cat(a, b, '/');
        text::lemma_split_nonempty(a, '/');
        assert(a[0] == path[0]);
        lemma_first_piece(a);
    } else {
        text::lemma_split_whole(path, '/');
    }
}

proof fn lemma_naming_some(pieces: Seq<Seq<char>>)
    requires
        pieces.len() > 0,
        pieces[0].len() > 0,
        pieces[0] != "."@,
    ensures
        naming(pieces).len() > 0,
    decreases pieces.len(),
{
    if pieces.len() > 1 {
        assert(pieces.drop_last()[0] == pieces[0]);
        lemma_naming_some(pieces.drop_last());
    }
}

/// `first/name` taken from a directory has the components of the directory
/// and these two; a dot that stands first is none.
pub proof fn lemma_components_joined(
    base: Seq<char>,
    rel: Seq<char>,
    first: Seq<char>,
    name: Seq<char>,
)
    requires
        base.len() > 0,
        rel == first + seq!['/'] + name,
        first == seq!['.'] || first == seq!['.', '.'],
        is_file_name(name),
    ensures
        components(joined(base, rel)) == (if first == seq!['.'] {
            components(base).push(name)
        } else {
            components(base).push(first).push(name)
        }),
{
    reveal_strlit("/");
    reveal_strlit(".");
    reveal_strlit("..");
    assert("/"@ =~= seq!['/']);
    assert("."@ =~= seq!['.']);
    assert(".."@ =~= seq!['.', '.']);
    assert(rel[0] == '.');
    let path = joined(base, rel);
    let head = if base.last() == '/' {
        base + first
    } else {
        base + seq!['/'] + first
    };
    assert(path =~= head + seq!['/'] + name);
    lemma_components_of_child(head, name);
    assert(components(path) == components(head).push(name));
    assert(!first.contains('/'));
    text::lemma_split_whole(first, '/');
    let pieces = text::split(head, '/');
    assert(head[0] == base[0]);
    if base.last() == '/' {
        let up = base.drop_last();
        assert(base =~= up + seq!['/'] + Seq::<char>::empty());
        assert(head =~= up + seq!['/'] + first);
        text::lemma_split_whole(Seq::empty(), '/');
        text::lemma_split_cat(up, Seq::empty(), '/');
        text::lemma_split_cat(up, first, '/');
        let ups = text::split(up, '/');
        assert(text::split(base, '/') =~= ups.push(Seq::empty()));
        assert(pieces =~= ups.push(first));
        lemma_naming_push(ups, Seq::empty());
        lemma_naming_push(ups, first);
        text::lemma_split_nonempty(up, '/');
        assert(text::split(base, '/')[0] == ups[0] && pieces[0] == ups[0]);
    } else {
        text::lemma_split_cat(base, first, '/');
        text::lemma_split_nonempty(base, '/');
        let bases = text::split(base, '/');
        assert(pieces =~= bases.push(first));
        lemma_naming_push(bases, first);
        assert(pieces[0] == bases[0]);
    }
    assert(anchor(head) == anchor(base));
    if first == seq!['.'] {
        assert(components(head) =~= components(base));
    } else {
        assert(components(head) =~= components(base).push(first));
    }
}

/// Is this the name of a file or a directory?
pub open spec fn is_file_name(name: Seq<char>) -> bool {
    name.len() > 0 && !name.contains('/') && name != seq!['.'] && name != seq!['.', '.']
}

proof fn lemma_components_of_child(dir: Seq<char>, name: Seq<char>)
    requires
        is_file_name(name),
    ensures
        dir.len() > 0 ==> components(dir + seq!['/'] + name) == components(dir).push(name),
        components(seq!['/'] + name) == seq![seq!['/'], name],
        components(name) == seq![name],
        is_name(name),
{
    reveal_strlit("/");
    reveal_strlit(".");
    reveal_strlit("..");
    assert("/"@ =~= seq!['/']);
    assert("."@ =~= seq!['.']);
    assert(".."@ =~= seq!['.', '.']);
    assert(is_name(name)) by {
        if name == seq!['/'] {
            assert(name[0] == '/');
            assert(name.contains('/'));
        }
    }
    text::lemma_split_whole(name, '/');
    lemma_naming_push(Seq::empty(), name);
    assert(Seq::<Seq<char>>::empty().push(name) =~= seq![name]);
    assert(naming(seq![name]) =~= seq![name]);
    assert(name[0] != '/') by {
        if name[0] == '/' {
            assert(name.contains('/'));
        }
    }
    assert(components(name) =~= seq![name]);
    let none = Seq::<char>::empty();
    text::lemma_split_cat(none, name, '/');
    assert(none + seq!['/'] + name =~= seq!['/'] + name);
    text::lemma_split_whole(none, '/');
    lemma_naming_front(none, seq![name]);
    assert(components(seq!['/'] + name) =~= seq![seq!['/'], name]);
    if dir.len() > 0 {
        let path = dir + seq!['/'] + name;
        text::lemma_split_cat(dir, name, '/');
        text::lemma_split_nonempty(dir, '/');
        let pieces = text::split(dir, '/');
        assert(text::split(path, '/') =~= pieces.push(name));
        lemma_naming_push(pieces, name);
        assert(path[0] == dir[0]);
        assert(components(path) =~= components(dir).push(name));
    }
}

/// A file in a directory has the name that is written behind the slash, and
/// stands in that directory; one without a directory has its path for a name.
pub proof fn law_files_have_names(dir: Seq<char>, name: Seq<char>)
    requires
        is_file_name(name),
    ensures
        base_name(dir + seq!['/'] + name) == Some(name),
        base_name(name) == Some(name),
        dir.len() > 0 ==> same_path(directory_of(dir + seq!['/'] + name), dir),
        directory_of(name).len() == 0,
{
    lemma_components_of_child(dir, name);
    reveal_strlit("/");
    if dir.len() > 0 {
        let all = components(dir).push(name);
        assert(all.last() == name);
        assert(all.drop_last() =~= components(dir));
        law_canonical_keeps_components(dir);
    } else {
        assert(dir + seq!['/'] + name =~= seq!['/'] + name);
        assert(seq![seq!['/'], name].last() == name);
    }
    assert(seq![name].drop_last() =~= Seq::empty());
}

/// What is written behind the last dot of a file's name is its extension, and
/// what stands before it the stem.
pub proof fn law_files_have_extensions(dir: Seq<char>, stem: Seq<char>, ext: Seq<char>)
    requires
        stem.len() > 0,
        !stem.contains('/'),
        !ext.contains('/'),
        !ext.contains('.'),
        is_file_name(stem + seq!['.'] + ext),
    ensures
        extension_of(dir + seq!['/'] + (stem + seq!['.'] + ext)) == Some(ext),
        extension_of(stem + seq!['.'] + ext) == Some(ext),
        stem_of(dir + seq!['/'] + (stem + seq!['.'] + ext)) == Some(stem),
        stem_of(stem + seq!['.'] + ext) == Some(stem),
{
    let name = stem + seq!['.'] + ext;
    law_files_have_names(dir, name);
    assert forall|i: int| stem.len() < i < name.len() implies name[i] != '.' by {
        assert(ext.contains(ext[i - stem.len() - 1]));
    }
    text::lemma_last_index_unique(name, '.', stem.len() as int);
    assert(name.skip(stem.len() as int + 1) =~= ext);
    assert(name.take(stem.len() as int) =~= stem);
}

/// Two names in one directory are two files.
pub proof fn law_names_tell_files_apart(dir: Seq<char>, a: Seq<char>, b: Seq<char>)
    requires
        is_file_name(a),
        is_file_name(b),
    ensures
        same_path(dir + seq!['/'] + a, dir + seq!['/'] + b) <==> a == b,
        same_path(a, b) <==> a == b,
{
    law_files_have_names(dir, a);
    law_files_have_names(dir, b);
}

} // verus!
