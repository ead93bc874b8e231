//! Strings as sequences of characters: the splitting, joining, matching and
//! ordering that paths, source text and rendered commands rest on.
use vstd::prelude::*;

verus! {

/// `str`'s `==`: two string slices are equal when they hold the same
/// characters in the same order.
pub assume_specification[ <str as PartialEq>::eq ](a: &str, b: &str) -> (r: bool)
    ensures
        r == (a@ == b@),
;

/// `String::push` appends one character to the end.
pub assume_specification[ String::push ](s: &mut String, c: char)
    ensures
        final(s)@ == old(s)@.push(c),
;

/// What a list of strings says: the characters of each, in order.
pub open spec fn views(v: Seq<String>) -> Seq<Seq<char>> {
    v.map_values(|s: String| s@)
}

/// What an optional string says.
pub open spec fn opt_view(o: Option<String>) -> Option<Seq<char>> {
    match o {
        Some(s) => Some(s@),
        None => None,
    }
}

/// What an optional string slice says.
pub open spec fn opt_str_view(o: Option<&str>) -> Option<Seq<char>> {
    match o {
        Some(s) => Some(s@),
        None => None,
    }
}

/// Are the two slices the same text?
pub fn same(a: &str, b: &str) -> (r: bool)
    ensures
        r == (a@ == b@),
{
    *a == *b
}

/// The characters of `s`.
pub fn chars_of(s: &str) -> (r: Vec<char>)
    ensures
        r@ == s@,
{
    let mut out: Vec<char> = Vec::new();
    for c in iter: s.chars()
        invariant
            iter.seq() == s@,
            out@ == s@.take(iter.index() as int),
    {
        out.push(c);
    }
    assert(s@.take(s@.len() as int) =~= s@);
    out
}

/// The string made of the characters at positions `from..to`.
pub fn string_of(chars: &Vec<char>, from: usize, to: usize) -> (r: String)
    requires
        from <= to <= chars@.len(),
    ensures
        r@ == chars@.subrange(from as int, to as int),
{
    let mut out: String = String::new();
    let mut i: usize = from;
    while i < to
        invariant
            from <= i <= to <= chars@.len(),
            out@ == chars@.subrange(from as int, i as int),
        decreases to - i,
    {
        out.push(chars[i]);
        i = i + 1;
        assert(chars@.subrange(from as int, i as int) =~= chars@.subrange(
            from as int,
            i - 1,
        ).push(chars@[i - 1]));
    }
    out
}

/// An owned copy of an optional string.
pub fn copy_opt(o: &Option<String>) -> (r: Option<String>)
    ensures
        opt_view(r) == opt_view(*o),
{
    match o {
        Some(s) => Some(s.clone()),
        None => None,
    }
}

/// An owned copy of a list of strings.
pub fn copy_all(v: &Vec<String>) -> (r: Vec<String>)
    ensures
        views(r@) == views(v@),
        r@.len() == v@.len(),
{
    let mut out: Vec<String> = Vec::new();
    let mut i: usize = 0;
    while i < v.len()
        invariant
            i <= v@.len(),
            out@.len() == i,
            views(out@) == views(v@).take(i as int),
        decreases v@.len() - i,
    {
        let s = v[i].clone();
        assert(views(out@.push(s)) =~= views(out@).push(s@));
        out.push(s);
        assert(views(v@).take(i + 1) =~= views(v@).take(i as int).push(views(v@)[i as int]));
        i = i + 1;
    }
    assert(views(v@).take(v@.len() as int) =~= views(v@));
    out
}

/// Do two lists of strings say the same?
pub fn same_all(a: &Vec<String>, b: &Vec<String>) -> (r: bool)
    ensures
        r == (views(a@) == views(b@)),
{
    if a.len() != b.len() {
        assert(views(a@).len() != views(b@).len());
        return false;
    }
    let mut i: usize = 0;
    while i < a.len()
        invariant
            i <= a@.len() == b@.len(),
            forall|j: int| 0 <= j < i ==> a@[j]@ == b@[j]@,
        decreases a@.len() - i,
    {
        if !same(a[i].as_str(), b[i].as_str()) {
            assert(views(a@)[i as int] != views(b@)[i as int]);
            return false;
        }
        i = i + 1;
    }
    assert(views(a@) =~= views(b@));
    true
}

/// Does `s` begin with `p`?
pub open spec fn starts_with(s: Seq<char>, p: Seq<char>) -> bool {
    p.len() <= s.len() && s.take(p.len() as int) == p
}

/// Does `s` end with `p`?
pub open spec fn ends_with(s: Seq<char>, p: Seq<char>) -> bool {
    p.len() <= s.len() && s.skip(s.len() - p.len()) == p
}

/// Does `p` stand in `s` at position `i`?
pub open spec fn stands_at(s: Seq<char>, p: Seq<char>, i: int) -> bool {
    0 <= i && i + p.len() <= s.len() && s.subrange(i, i + p.len()) == p
}

/// Does `p` occur anywhere in `s`?
pub open spec fn occurs_in(s: Seq<char>, p: Seq<char>) -> bool {
    exists|i: int| stands_at(s, p, i)
}

/// Does `p` stand in `s` at position `i`?
pub fn is_at(s: &Vec<char>, p: &Vec<char>, i: usize) -> (r: bool)
    ensures
        r == stands_at(s@, p@, i as int),
{
    if i > s.len() || p.len() > s.len() - i {
        return false;
    }
    let n: usize = s.len();
    let mut j: usize = 0;
    while j < p.len()
        invariant
            j <= p@.len(),
            i + p@.len() <= s@.len() == n,
            forall|k: int| 0 <= k < j ==> s@[i + k] == p@[k],
        decreases p@.len() - j,
    {
        if s[i + j] != p[j] {
            assert(s@.subrange(i as int, i + p@.len())[j as int] == s@[i + j]);
            return false;
        }
        j = j + 1;
    }
    assert(s@.subrange(i as int, i + p@.len()) =~= p@);
    true
}

/// Does `s` begin with `p`?
pub fn begins(s: &str, p: &str) -> (r: bool)
    ensures
        r == starts_with(s@, p@),
{
    let sc = chars_of(s);
    let pc = chars_of(p);
    let r = is_at(&sc, &pc, 0);
    assert(p@.len() <= s@.len() ==> s@.subrange(0, p@.len() as int) == s@.take(p@.len() as int));
    r
}

/// Does `s` end with `p`?
pub fn ends(s: &str, p: &str) -> (r: bool)
    ensures
        r == ends_with(s@, p@),
{
    let sc = chars_of(s);
    let pc = chars_of(p);
    if pc.len() > sc.len() {
        return false;
    }
    let r = is_at(&sc, &pc, sc.len() - pc.len());
    assert(s@.subrange(s@.len() - p@.len(), s@.len() as int) == s@.skip(s@.len() - p@.len()));
    r
}

/// Does `p` occur anywhere in `s`?
pub fn occurs(s: &str, p: &str) -> (r: bool)
    ensures
        r == occurs_in(s@, p@),
{
    let sc = chars_of(s);
    let pc = chars_of(p);
    let mut i: usize = 0;
    while i < sc.len()
        invariant
            i <= sc@.len(),
            sc@ == s@,
            pc@ == p@,
            forall|j: int| 0 <= j < i ==> !stands_at(s@, p@, j),
        decreases sc@.len() - i,
    {
        if is_at(&sc, &pc, i) {
            return true;
        }
        i = i + 1;
    }
    is_at(&sc, &pc, i)
}

/// What stands between two texts occurs in them together.
pub proof fn lemma_occurs(a: Seq<char>, p: Seq<char>, b: Seq<char>)
    ensures
        occurs_in(a + p + b, p),
{
    let s = a + p + b;
    assert(s.subrange(a.len() as int, (a.len() + p.len()) as int) =~= p);
    assert(stands_at(s, p, a.len() as int));
}

/// What occurs in a text has a text before it and one behind it.
pub proof fn lemma_around(s: Seq<char>, p: Seq<char>) -> (r: (Seq<char>, Seq<char>))
    requires
        occurs_in(s, p),
    ensures
        s == r.0 + p + r.1,
{
    let i = choose|i: int| stands_at(s, p, i);
    let a = s.take(i);
    let b = s.skip(i + p.len());
    assert(s =~= a + p + b);
    (a, b)
}

/// `s` without the prefix `p`, when it has that prefix.
pub open spec fn without_prefix(s: Seq<char>, p: Seq<char>) -> Option<Seq<char>> {
    if starts_with(s, p) {
        Some(s.skip(p.len() as int))
    } else {
        None
    }
}

/// `s` without the prefix `p`, when it has that prefix.
pub fn cut_prefix(s: &str, p: &str) -> (r: Option<String>)
    ensures
        opt_view(r) == without_prefix(s@, p@),
{
    if begins(s, p) {
        let sc = chars_of(s);
        let pc = chars_of(p);
        let r = string_of(&sc, pc.len(), sc.len());
        assert(s@.subrange(p@.len() as int, s@.len() as int) =~= s@.skip(p@.len() as int));
        Some(r)
    } else {
        None
    }
}

/// `s` without the suffix `p`, when it has that suffix.
pub open spec fn without_suffix(s: Seq<char>, p: Seq<char>) -> Option<Seq<char>> {
    if ends_with(s, p) {
        Some(s.take(s.len() - p.len()))
    } else {
        None
    }
}

/// `s` without the suffix `p`, when it has that suffix.
pub fn cut_suffix(s: &str, p: &str) -> (r: Option<String>)
    ensures
        opt_view(r) == without_suffix(s@, p@),
{
    if ends(s, p) {
        let sc = chars_of(s);
        let pc = chars_of(p);
        let r = string_of(&sc, 0, sc.len() - pc.len());
        assert(s@.subrange(0, s@.len() - p@.len()) =~= s@.take(s@.len() - p@.len()));
        Some(r)
    } else {
        None
    }
}

/// The pieces of `s` between occurrences of `sep`: one more than there are
/// occurrences.
pub open spec fn split(s: Seq<char>, sep: char) -> Seq<Seq<char>>
    decreases s.len(),
{
    if s.len() == 0 {
        seq![Seq::empty()]
    } else {
        let before = split(s.drop_last(), sep);
        if s.last() == sep {
            before.push(Seq::empty())
        } else {
            before.drop_last().push(before.last().push(s.last()))
        }
    }
}

/// There is always at least one piece.
pub proof fn lemma_split_nonempty(s: Seq<char>, sep: char)
    ensures
        split(s, sep).len() >= 1,
    decreases s.len(),
{
    if s.len() > 0 {
        lemma_split_nonempty(s.drop_last(), sep);
    }
}

/// No piece holds the separator.
proof fn lemma_pieces_are_free(s: Seq<char>, sep: char)
    ensures
        forall|i: int| 0 <= i < split(s, sep).len() ==> !(#[trigger] split(s, sep)[i]).contains(sep),
    decreases s.len(),
{
    lemma_split_nonempty(s, sep);
    if s.len() > 0 {
        let before = split(s.drop_last(), sep);
        lemma_split_nonempty(s.drop_last(), sep);
        lemma_pieces_are_free(s.drop_last(), sep);
        assert forall|i: int| 0 <= i < split(s, sep).len() implies !(#[trigger] split(
            s,
            sep,
        )[i]).contains(sep) by {
            if i < before.len() - 1 {
                assert(split(s, sep)[i] == before[i]);
            } else if s.last() == sep {
                assert(i < before.len() ==> split(s, sep)[i] == before[i]);
            } else {
                let piece = before.last().push(s.last());
                assert(split(s, sep)[i] == piece);
                assert(!before[before.len() - 1].contains(sep));
                if piece.contains(sep) {
                    let j = choose|j: int| 0 <= j < piece.len() && piece[j] == sep;
                    assert(before.last()[j] == sep);
                }
            }
        }
    }
}

/// What holds no separator is one piece.
proof fn lemma_split_of_free(s: Seq<char>, sep: char)
    requires
        !s.contains(sep),
    ensures
        split(s, sep) == seq![s],
    decreases s.len(),
{
    if s.len() > 0 {
        let init = s.drop_last();
        assert(s[s.len() - 1] != sep);
        if init.contains(sep) {
            let j = choose|j: int| 0 <= j < init.len() && init[j] == sep;
            assert(s[j] == sep);
        }
        lemma_split_of_free(init, sep);
        assert(init.push(s.last()) =~= s);
        assert(split(s, sep) =~= seq![s]);
    } else {
        assert(s =~= Seq::empty());
    }
}

/// Cutting at a separator twice cuts no more than once.
pub proof fn lemma_split_head(s: Seq<char>, sep: char)
    ensures
        split(split(s, sep)[0], sep)[0] == split(s, sep)[0],
{
    lemma_split_nonempty(s, sep);
    lemma_pieces_are_free(s, sep);
    lemma_split_of_free(split(s, sep)[0], sep);
}

/// The pieces of `s` between occurrences of `sep`.
pub fn split_on(s: &str, sep: char) -> (r: Vec<String>)
    ensures
        views(r@) == split(s@, sep),
        r@.len() >= 1,
{
    let sc = chars_of(s);
    let mut out: Vec<String> = Vec::new();
    let mut cur: String = String::new();
    let mut i: usize = 0;
    assert(views(out@).push(cur@) =~= seq![Seq::<char>::empty()]);
    while i < sc.len()
        invariant
            i <= sc@.len(),
            sc@ == s@,
            views(out@).push(cur@) == split(s@.take(i as int), sep),
        decreases sc@.len() - i,
    {
        let ghost was = views(out@).push(cur@);
        assert(s@.take(i + 1).drop_last() =~= s@.take(i as int));
        if sc[i] == sep {
            assert(views(out@.push(cur)) =~= views(out@).push(cur@));
            out.push(cur);
            cur = String::new();
        } else {
            assert(was.drop_last() =~= views(out@));
            cur.push(sc[i]);
        }
        i = i + 1;
    }
    assert(s@.take(s@.len() as int) =~= s@);
    assert(views(out@.push(cur)) =~= views(out@).push(cur@));
    out.push(cur);
    out
}

/// The pieces `parts` with `sep` between each two of them.
pub open spec fn join(parts: Seq<Seq<char>>, sep: Seq<char>) -> Seq<char>
    decreases parts.len(),
{
    if parts.len() == 0 {
        Seq::empty()
    } else if parts.len() == 1 {
        parts[0]
    } else {
        join(parts.drop_last(), sep) + sep + parts.last()
    }
}

/// The pieces `parts` with `sep` between each two of them.
pub fn join_with(parts: &Vec<String>, sep: &str) -> (r: String)
    ensures
        r@ == join(views(parts@), sep@),
{
    let mut out: String = String::new();
    let mut i: usize = 0;
    while i < parts.len()
        invariant
            i <= parts@.len(),
            out@ == join(views(parts@).take(i as int), sep@),
        decreases parts@.len() - i,
    {
        assert(views(parts@).take(i + 1).drop_last() =~= views(parts@).take(i as int));
        if i > 0 {
            out.append(sep);
        } else {
            assert(out@ + parts@[0]@ =~= parts@[0]@);
        }
        out.append(parts[i].as_str());
        i = i + 1;
    }
    assert(views(parts@).take(parts@.len() as int) =~= views(parts@));
    out
}

/// Joining the pieces of a split with the separator gives the text back.
pub proof fn law_join_of_split(s: Seq<char>, sep: char)
    ensures
        join(split(s, sep), seq![sep]) == s,
    decreases s.len(),
{
    if s.len() == 0 {
        assert(join(split(s, sep), seq![sep]) =~= s);
    } else {
        let t = s.drop_last();
        law_join_of_split(t, sep);
        lemma_split_nonempty(t, sep);
        let before = split(t, sep);
        let now = split(s, sep);
        if s.last() == sep {
            assert(now.drop_last() =~= before);
            assert(join(now, seq![sep]) =~= t + seq![sep]);
            assert(t + seq![sep] =~= s);
        } else {
            assert(now.drop_last() =~= before.drop_last());
            assert(now.last() == before.last().push(s.last()));
            if before.len() == 1 {
                assert(join(now, seq![sep]) =~= t.push(s.last()));
            } else {
                assert(join(now, seq![sep]) =~= join(before, seq![sep]).push(s.last()));
            }
            assert(t.push(s.last()) =~= s);
        }
    }
}

/// Splitting at one more separator adds the pieces behind it.
pub proof fn lemma_split_cat(s: Seq<char>, t: Seq<char>, sep: char)
    ensures
        split(s + seq![sep] + t, sep) == split(s, sep) + split(t, sep),
    decreases t.len(),
{
    let all = s + seq![sep] + t;
    if t.len() == 0 {
        assert(all.drop_last() =~= s);
        assert(split(all, sep) =~= split(s, sep) + split(t, sep));
    } else {
        let u = t.drop_last();
        lemma_split_cat(s, u, sep);
        lemma_split_nonempty(u, sep);
        assert(all.drop_last() =~= s + seq![sep] + u);
        assert(all.last() == t.last());
        let before = split(s, sep) + split(u, sep);
        assert(before.last() == split(u, sep).last());
        assert(split(all, sep) =~= split(s, sep) + split(t, sep));
    }
}

/// Text without the separator is one piece.
pub proof fn lemma_split_whole(s: Seq<char>, sep: char)
    requires
        !s.contains(sep),
    ensures
        split(s, sep) == seq![s],
    decreases s.len(),
{
    if s.len() > 0 {
        let t = s.drop_last();
        assert forall|i: int| 0 <= i < t.len() implies t[i] != sep by {
            assert(s.contains(s[i]));
        }
        lemma_split_whole(t, sep);
        assert(s.contains(s[s.len() - 1]));
        assert(t.push(s.last()) =~= s);
        assert(split(s, sep) =~= seq![s]);
    } else {
        assert(s =~= Seq::<char>::empty());
        assert(split(s, sep) =~= seq![s]);
    }
}

/// Splitting what was joined gives the pieces back.
pub proof fn lemma_split_join(parts: Seq<Seq<char>>, sep: char)
    requires
        parts.len() > 0,
        forall|i: int| 0 <= i < parts.len() ==> !(#[trigger] parts[i]).contains(sep),
    ensures
        split(join(parts, seq![sep]), sep) == parts,
    decreases parts.len(),
{
    assert(!parts[parts.len() - 1].contains(sep));
    if parts.len() == 1 {
        lemma_split_whole(parts[0], sep);
        assert(seq![parts[0]] =~= parts);
    } else {
        let rest = parts.drop_last();
        assert forall|i: int| 0 <= i < rest.len() implies !(#[trigger] rest[i]).contains(sep) by {
            assert(rest[i] == parts[i]);
        }
        lemma_split_join(rest, sep);
        lemma_split_whole(parts.last(), sep);
        lemma_split_cat(join(rest, seq![sep]), parts.last(), sep);
        assert(rest + seq![parts.last()] =~= parts);
    }
}

/// What is joined begins with the first piece.
pub proof fn lemma_join_first(parts: Seq<Seq<char>>, sep: Seq<char>)
    requires
        parts.len() > 0,
    ensures
        join(parts, sep).len() >= parts[0].len(),
        join(parts, sep).take(parts[0].len() as int) == parts[0],
        parts[0].len() > 0 ==> join(parts, sep)[0] == parts[0][0],
    decreases parts.len(),
{
    if parts.len() == 1 {
        assert(parts[0].take(parts[0].len() as int) =~= parts[0]);
    } else {
        let rest = parts.drop_last();
        lemma_join_first(rest, sep);
        assert(rest[0] == parts[0]);
        let front = join(rest, sep);
        assert(join(parts, sep).take(parts[0].len() as int) =~= front.take(parts[0].len() as int));
    }
    if parts[0].len() > 0 {
        assert(join(parts, sep).take(parts[0].len() as int)[0] == parts[0][0]);
    }
}

/// The position of the last `c` in `s`, or `-1`.
pub open spec fn last_index(s: Seq<char>, c: char) -> int
    decreases s.len(),
{
    if s.len() == 0 {
        -1
    } else if s.last() == c {
        s.len() - 1
    } else {
        last_index(s.drop_last(), c)
    }
}

/// What follows the last `c` in `s`; all of `s` when there is none.
pub open spec fn after_last(s: Seq<char>, c: char) -> Seq<char> {
    s.skip(last_index(s, c) + 1)
}

pub proof fn lemma_last_index(s: Seq<char>, c: char)
    ensures
        -1 <= last_index(s, c) < s.len(),
        last_index(s, c) >= 0 ==> s[last_index(s, c)] == c,
        forall|i: int| last_index(s, c) < i < s.len() ==> s[i] != c,
    decreases s.len(),
{
    if s.len() > 0 && s.last() != c {
        lemma_last_index(s.drop_last(), c);
        assert forall|i: int| last_index(s, c) < i < s.len() implies s[i] != c by {
            if i < s.len() - 1 {
                assert(s.drop_last()[i] == s[i]);
            }
        }
    }
}

/// `last_index` is the one position with those properties.
pub proof fn lemma_last_index_unique(s: Seq<char>, c: char, k: int)
    requires
        -1 <= k < s.len(),
        k >= 0 ==> s[k] == c,
        forall|i: int| k < i < s.len() ==> s[i] != c,
    ensures
        k == last_index(s, c),
{
    lemma_last_index(s, c);
}

/// What is written behind the last `c` is what follows it; without a `c`
/// nothing is left out.
pub proof fn law_tail_follows_last(a: Seq<char>, b: Seq<char>, c: char)
    requires
        !b.contains(c),
    ensures
        after_last(a + seq![c] + b, c) == b,
        after_last(b, c) == b,
{
    let s = a + seq![c] + b;
    assert forall|i: int| a.len() < i < s.len() implies s[i] != c by {
        assert(b[i - a.len() - 1] == s[i]);
    }
    lemma_last_index_unique(s, c, a.len() as int);
    assert(s.skip(a.len() as int + 1) =~= b);
    assert forall|i: int| -1 < i < b.len() implies b[i] != c by {
        assert(b.contains(b[i]));
    }
    lemma_last_index_unique(b, c, -1);
    assert(b.skip(0) =~= b);
}

/// What follows the last `c` holds none.
pub proof fn lemma_after_last_twice(s: Seq<char>, c: char)
    ensures
        after_last(after_last(s, c), c) == after_last(s, c),
{
    let t = after_last(s, c);
    lemma_last_index(s, c);
    lemma_last_index(t, c);
    let at = last_index(t, c);
    if at >= 0 {
        assert(t[at] == s[last_index(s, c) + 1 + at]);
    }
    assert(t.skip(0) =~= t);
}

/// The position just after the last `c` in `s`: 0 when there is none.
pub fn end_of_last(s: &Vec<char>, c: char) -> (r: usize)
    ensures
        r == last_index(s@, c) + 1,
        r <= s@.len(),
{
    let mut i: usize = s.len();
    while i > 0
        invariant
            i <= s@.len(),
            forall|j: int| i <= j < s@.len() ==> s@[j] != c,
        decreases i,
    {
        if s[i - 1] == c {
            proof {
                lemma_last_index_unique(s@, c, i - 1);
            }
            return i;
        }
        i = i - 1;
    }
    proof {
        lemma_last_index_unique(s@, c, -1);
    }
    0
}

/// What follows the last `c` in `s`; all of `s` when there is none.
pub fn tail_after(s: &str, c: char) -> (r: String)
    ensures
        r@ == after_last(s@, c),
{
    let sc = chars_of(s);
    let from = end_of_last(&sc, c);
    let r = string_of(&sc, from, sc.len());
    assert(sc@.subrange(from as int, sc@.len() as int) =~= s@.skip(from as int));
    r
}

/// Unicode's white space characters.
pub open spec fn whitespace(c: char) -> bool {
    ||| '\u{9}' <= c <= '\u{d}'
    ||| c == ' '
    ||| c == '\u{85}'
    ||| c == '\u{a0}'
    ||| c == '\u{1680}'
    ||| '\u{2000}' <= c <= '\u{200a}'
    ||| c == '\u{2028}'
    ||| c == '\u{2029}'
    ||| c == '\u{202f}'
    ||| c == '\u{205f}'
    ||| c == '\u{3000}'
}

/// Is `c` white space?
pub fn is_space(c: char) -> (r: bool)
    ensures
        r == whitespace(c),
{
    ('\u{9}' <= c && c <= '\u{d}') || c == ' ' || c == '\u{85}' || c == '\u{a0}' || c
        == '\u{1680}' || ('\u{2000}' <= c && c <= '\u{200a}') || c == '\u{2028}' || c == '\u{2029}'
        || c == '\u{202f}' || c == '\u{205f}' || c == '\u{3000}'
}

/// `s` without the white space it begins with.
pub open spec fn trim_start(s: Seq<char>) -> Seq<char>
    decreases s.len(),
{
    if s.len() > 0 && whitespace(s[0]) {
        trim_start(s.skip(1))
    } else {
        s
    }
}

/// `s` without the white space it ends with.
pub open spec fn trim_end(s: Seq<char>) -> Seq<char>
    decreases s.len(),
{
    if s.len() > 0 && whitespace(s.last()) {
        trim_end(s.drop_last())
    } else {
        s
    }
}

/// `s` without the white space at its two ends.
pub open spec fn trim(s: Seq<char>) -> Seq<char> {
    trim_end(trim_start(s))
}

/// `s` without the white space at its two ends.
pub fn trimmed(s: &str) -> (r: String)
    ensures
        r@ == trim(s@),
{
    let sc = chars_of(s);
    let mut from: usize = 0;
    assert(s@.skip(0) =~= s@);
    while from < sc.len() && is_space(sc[from])
        invariant
            from <= sc@.len(),
            sc@ == s@,
            trim_start(s@) == trim_start(s@.skip(from as int)),
        decreases sc@.len() - from,
    {
        assert(s@.skip(from as int).skip(1) =~= s@.skip(from + 1));
        from = from + 1;
    }
    let ghost mid = s@.skip(from as int);
    let mut to: usize = sc.len();
    assert(sc@.subrange(from as int, to as int) =~= mid);
    while to > from && is_space(sc[to - 1])
        invariant
            from <= to <= sc@.len(),
            sc@ == s@,
            trim_end(mid) == trim_end(sc@.subrange(from as int, to as int)),
        decreases to,
    {
        assert(sc@.subrange(from as int, to as int).drop_last() =~= sc@.subrange(
            from as int,
            to - 1,
        ));
        to = to - 1;
    }
    string_of(&sc, from, to)
}

/// Does `a` come before `b`, character by character? This is the order of
/// `String`: UTF-8 keeps the order of the characters it encodes.
pub open spec fn precedes(a: Seq<char>, b: Seq<char>) -> bool
    decreases a.len(),
{
    if b.len() == 0 {
        false
    } else if a.len() == 0 {
        true
    } else if a[0] != b[0] {
        a[0] < b[0]
    } else {
        precedes(a.skip(1), b.skip(1))
    }
}

pub proof fn lemma_precedes_irreflexive(a: Seq<char>)
    ensures
        !precedes(a, a),
    decreases a.len(),
{
    if a.len() > 0 {
        lemma_precedes_irreflexive(a.skip(1));
    }
}

pub proof fn lemma_precedes_transitive(a: Seq<char>, b: Seq<char>, c: Seq<char>)
    requires
        precedes(a, b),
        precedes(b, c),
    ensures
        precedes(a, c),
    decreases a.len(),
{
    if a.len() > 0 && a[0] == b[0] && b[0] == c[0] {
        lemma_precedes_transitive(a.skip(1), b.skip(1), c.skip(1));
    }
}

pub proof fn lemma_precedes_total(a: Seq<char>, b: Seq<char>)
    ensures
        precedes(a, b) || precedes(b, a) || a == b,
    decreases a.len(),
{
    if a.len() > 0 && b.len() > 0 && a[0] == b[0] {
        lemma_precedes_total(a.skip(1), b.skip(1));
        if a.skip(1) == b.skip(1) {
            assert(a =~= seq![a[0]] + a.skip(1));
            assert(b =~= seq![b[0]] + b.skip(1));
        }
    } else if a.len() == 0 && b.len() == 0 {
        assert(a =~= b);
    }
}

/// Does `a` come before `b`?
pub fn before(a: &str, b: &str) -> (r: bool)
    ensures
        r == precedes(a@, b@),
{
    let ac = chars_of(a);
    let bc = chars_of(b);
    let mut i: usize = 0;
    assert(a@.skip(0) =~= a@);
    assert(b@.skip(0) =~= b@);
    while i < ac.len() && i < bc.len() && ac[i] == bc[i]
        invariant
            i <= ac@.len(),
            i <= bc@.len(),
            ac@ == a@,
            bc@ == b@,
            precedes(a@, b@) == precedes(a@.skip(i as int), b@.skip(i as int)),
        decreases ac@.len() - i,
    {
        assert(a@.skip(i as int).skip(1) =~= a@.skip(i + 1));
        assert(b@.skip(i as int).skip(1) =~= b@.skip(i + 1));
        i = i + 1;
    }
    if i >= bc.len() {
        false
    } else if i >= ac.len() {
        true
    } else {
        ac[i] < bc[i]
    }
}

/// Each line before the next: ascending, with nothing twice.
pub open spec fn ascending(lines: Seq<Seq<char>>) -> bool {
    forall|i: int, j: int|
        0 <= i < j < lines.len() ==> precedes(#[trigger] lines[i], #[trigger] lines[j])
}

/// Puts `x` in its place among the ascending `lines`, unless it is there
/// already.
pub fn insert_line(lines: &mut Vec<String>, x: String)
    requires
        ascending(views(old(lines)@)),
    ensures
        ascending(views(final(lines)@)),
        forall|l: Seq<char>|
            views(final(lines)@).contains(l) <==> (views(old(lines)@).contains(l) || l == x@),
{
    let ghost was = views(lines@);
    let mut i: usize = 0;
    while i < lines.len() && before(lines[i].as_str(), x.as_str())
        invariant
            i <= lines@.len(),
            views(lines@) == was,
            forall|j: int| 0 <= j < i ==> precedes(was[j], x@),
        decreases lines@.len() - i,
    {
        i = i + 1;
    }
    if i < lines.len() && same(lines[i].as_str(), x.as_str()) {
        assert(was[i as int] == x@);
        return;
    }
    let ghost xv = x@;
    proof {
        if i < was.len() {
            lemma_precedes_total(was[i as int], xv);
        }
        assert forall|j: int| i <= j < was.len() implies precedes(xv, #[trigger] was[j]) by {
            if j > i {
                lemma_precedes_transitive(xv, was[i as int], was[j]);
            }
        }
    }
    lines.insert(i, x);
    proof {
        let now = views(lines@);
        assert(now =~= was.insert(i as int, xv));
        assert forall|l: Seq<char>| now.contains(l) <==> (was.contains(l) || l == xv) by {
            if was.contains(l) {
                let k = choose|k: int| 0 <= k < was.len() && was[k] == l;
                if k < i {
                    assert(now[k] == l);
                } else {
                    assert(now[k + 1] == l);
                }
            }
            if l == xv {
                assert(now[i as int] == l);
            }
            if now.contains(l) {
                let k = choose|k: int| 0 <= k < now.len() && now[k] == l;
                if k < i {
                    assert(was[k] == l);
                } else if k > i {
                    assert(was[k - 1] == l);
                }
            }
        }
    }
}

/// `a` followed by `b`.
pub fn cat(a: &str, b: &str) -> (r: String)
    ensures
        r@ == a@ + b@,
{
    let mut out: String = a.to_owned();
    out.append(b);
    out
}

/// `a`, `b` and `c`, one after the other.
pub fn cat3(a: &str, b: &str, c: &str) -> (r: String)
    ensures
        r@ == a@ + b@ + c@,
{
    let mut out: String = a.to_owned();
    out.append(b);
    out.append(c);
    out
}

/// The digit `d`.
pub open spec fn digit(d: int) -> char {
    if d == 0 {
        '0'
    } else if d == 1 {
        '1'
    } else if d == 2 {
        '2'
    } else if d == 3 {
        '3'
    } else if d == 4 {
        '4'
    } else if d == 5 {
        '5'
    } else if d == 6 {
        '6'
    } else if d == 7 {
        '7'
    } else if d == 8 {
        '8'
    } else {
        '9'
    }
}

/// `n` in decimal.
pub open spec fn decimal(n: nat) -> Seq<char>
    decreases n,
{
    if n < 10 {
        seq![digit(n as int)]
    } else {
        decimal(n / 10).push(digit((n % 10) as int))
    }
}

fn digit_of(d: u64) -> (c: char)
    requires
        d < 10,
    ensures
        c == digit(d as int),
{
    match d {
        0 => '0',
        1 => '1',
        2 => '2',
        3 => '3',
        4 => '4',
        5 => '5',
        6 => '6',
        7 => '7',
        8 => '8',
        _ => '9',
    }
}

/// `n` in decimal.
pub fn number(n: u64) -> (r: String)
    ensures
        r@ == decimal(n as nat),
    decreases n,
{
    if n < 10 {
        let mut out: String = String::new();
        out.push(digit_of(n));
        assert(out@ =~= seq![digit(n as int)]);
        out
    } else {
        let mut out = number(n / 10);
        out.push(digit_of(n % 10));
        out
    }
}

/// The number that digits write.
pub open spec fn written(s: Seq<char>) -> int
    decreases s.len(),
{
    if s.len() == 0 {
        0
    } else {
        written(s.drop_last()) * 10 + (s.last() as int - '0' as int)
    }
}

/// A number in decimal is written in digits, none too many, that give the
/// number back.
pub proof fn law_decimals_give_the_number(n: nat)
    ensures
        written(decimal(n)) == n,
        decimal(n).len() > 0,
        n > 0 ==> decimal(n)[0] != '0',
        forall|i: int| 0 <= i < decimal(n).len() ==> '0' <= #[trigger] decimal(n)[i] <= '9',
    decreases n,
{
    let s = decimal(n);
    if n < 10 {
        assert(s.drop_last() =~= Seq::<char>::empty());
        reveal_with_fuel(written, 2);
    } else {
        law_decimals_give_the_number(n / 10);
        assert(s.drop_last() =~= decimal(n / 10));
        assert forall|i: int| 0 <= i < s.len() implies '0' <= #[trigger] s[i] <= '9' by {
            if i < s.len() - 1 {
                assert(s[i] == decimal(n / 10)[i]);
            }
        }
    }
}

} // verus!
