//! Which of the files that a walk over a repository meets are indexed.
use vstd::prelude::*;

use crate::config;
use crate::config::{first_matching, Config, ConfigError};
use crate::language;
use crate::language::{Language, Registry};
use crate::paths;
use crate::paths::path_before;
use crate::text;
use crate::text::same;

verus! {

/// Is a directory of this name never walked into?
pub open spec fn noise_dir(name: Seq<char>) -> bool {
    ||| name == "node_modules"@
    ||| name == "vendor"@
    ||| name == "target"@
    ||| name == ".pick-a-test"@
}

/// Is a directory of this name never walked into?
pub fn is_noise_dir(name: &str) -> (r: bool)
    ensures
        r == noise_dir(name@),
{
    same(name, "node_modules") || same(name, "vendor") || same(name, "target") || same(
        name,
        ".pick-a-test",
    )
}

/// Is the file at `path` indexed: of a known language, and not ignored?
pub open spec fn is_wanted<L: Language>(
    langs: Seq<L>,
    ignored: Seq<Seq<char>>,
    path: Seq<char>,
) -> bool {
    language::lang_for(langs, path) is Some && config::first_match(ignored, path) is None
}

/// `path` put into the ordered `list`, behind those that do not come after.
pub open spec fn placed(list: Seq<Seq<char>>, path: Seq<char>) -> Seq<Seq<char>>
    decreases list.len(),
{
    if list.len() > 0 && paths::path_precedes(path, list.last()) {
        placed(list.drop_last(), path).push(list.last())
    } else {
        list.push(path)
    }
}

/// The wanted ones of `found`, ordered by path.
pub open spec fn wanted<L: Language>(
    langs: Seq<L>,
    ignored: Seq<Seq<char>>,
    found: Seq<Seq<char>>,
) -> Seq<Seq<char>>
    decreases found.len(),
{
    if found.len() == 0 {
        Seq::empty()
    } else {
        let before = wanted(langs, ignored, found.drop_last());
        if is_wanted(langs, ignored, found.last()) {
            placed(before, found.last())
        } else {
            before
        }
    }
}

fn place(list: &mut Vec<String>, path: String)
    ensures
        text::views(final(list)@) == placed(text::views(old(list)@), path@),
{
    let ghost was = text::views(list@);
    let ghost pv = path@;
    let mut k: usize = list.len();
    assert(was.take(was.len() as int) =~= was);
    assert(placed(was, pv) =~= placed(was.take(k as int), pv) + was.skip(k as int));
    while k > 0 && path_before(path.as_str(), list[k - 1].as_str())
        invariant
            k <= list@.len() == was.len(),
            was == text::views(list@),
            pv == path@,
            placed(was, pv) == placed(was.take(k as int), pv) + was.skip(k as int),
        decreases k,
    {
        assert(was.take(k as int).drop_last() =~= was.take(k - 1));
        assert(was.take(k as int).last() == was[k - 1]);
        assert(placed(was, pv) =~= placed(was.take(k - 1), pv) + was.skip(k - 1));
        k = k - 1;
    }
    proof {
        if k > 0 {
            assert(was.take(k as int).last() == was[k - 1]);
        }
        assert(placed(was.take(k as int), pv) == was.take(k as int).push(pv));
    }
    list.insert(k, path);
    assert(text::views(list@) =~= was.take(k as int).push(pv) + was.skip(k as int));
}

/// The files to index of the repo-relative paths `found`, ordered by path.
pub fn discover<L: Language>(
    registry: &Registry<L>,
    config: &Config,
    found: &Vec<String>,
) -> (r: Result<Vec<String>, ConfigError>)
    ensures
        match r {
            Ok(v) => config::globset_fault(text::views(config.ignore@)) is None && text::views(v@)
                == wanted(registry.langs@, text::views(config.ignore@), text::views(found@)),
            Err(e) => config::globset_fault(text::views(config.ignore@)) == Some(e@),
        },
{
    let ghost ignored = text::views(config.ignore@);
    let ghost all = text::views(found@);
    let set = match config.ignore_globset() {
        Ok(s) => s,
        Err(e) => {
            return Err(e);
        },
    };
    assert(ignored.len() == config.ignore.len());
    let mut out: Vec<String> = Vec::new();
    let mut i: usize = 0;
    assert(all.take(0) =~= Seq::empty());
    assert(text::views(out@) =~= Seq::empty());
    while i < found.len()
        invariant
            i <= found@.len() == all.len(),
            all == text::views(found@),
            ignored == config::set_patterns(set),
            ignored.len() == config.ignore.len(),
            text::views(out@) == wanted(registry.langs@, ignored, all.take(i as int)),
        decreases found@.len() - i,
    {
        assert(all.take(i + 1).drop_last() =~= all.take(i as int));
        assert(all.take(i + 1).last() == found@[i as int]@);
        if registry.for_path(found[i].as_str()).is_some() && first_matching(
            &set,
            found[i].as_str(),
        ).is_none() {
            place(&mut out, found[i].clone());
        }
        i = i + 1;
    }
    assert(all.take(all.len() as int) =~= all);
    Ok(out)
}

/// Does no path come before the one in front of it?
pub open spec fn in_order(list: Seq<Seq<char>>) -> bool {
    forall|i: int, j: int|
        0 <= i < j < list.len() ==> !paths::path_precedes(#[trigger] list[j], #[trigger] list[i])
}

proof fn lemma_placed(list: Seq<Seq<char>>, path: Seq<char>)
    requires
        in_order(list),
    ensures
        in_order(placed(list, path)),
        forall|p: Seq<char>| #[trigger] placed(list, path).contains(p) <==> list.contains(p) || p
            == path,
    decreases list.len(),
{
    let now = placed(list, path);
    if list.len() > 0 && paths::path_precedes(path, list.last()) {
        let rest = list.drop_last();
        assert(in_order(rest)) by {
            assert forall|i: int, j: int| 0 <= i < j < rest.len() implies !paths::path_precedes(
                #[trigger] rest[j],
                #[trigger] rest[i],
            ) by {
                assert(rest[i] == list[i] && rest[j] == list[j]);
            }
        }
        lemma_placed(rest, path);
        let before = placed(rest, path);
        assert forall|i: int, j: int| 0 <= i < j < now.len() implies !paths::path_precedes(
            #[trigger] now[j],
            #[trigger] now[i],
        ) by {
            if j < before.len() {
                assert(now[i] == before[i] && now[j] == before[j]);
            } else {
                assert(now[j] == list.last());
                assert(now[i] == before[i]);
                assert(before.contains(now[i]));
                if now[i] == path {
                    if paths::path_precedes(list.last(), path) {
                        paths::lemma_parts_transitive(
                            paths::components(path),
                            paths::components(list.last()),
                            paths::components(path),
                        );
                        lemma_not_before_itself(path);
                    }
                } else {
                    assert(rest.contains(now[i]));
                    let k = choose|k: int| 0 <= k < rest.len() && rest[k] == now[i];
                    assert(list[k] == now[i]);
                    assert(!paths::path_precedes(list[list.len() - 1], list[k]));
                }
            }
        }
        assert forall|p: Seq<char>| #[trigger] now.contains(p) <==> list.contains(p) || p
            == path by {
            if now.contains(p) {
                let i = choose|i: int| 0 <= i < now.len() && now[i] == p;
                if i < before.len() {
                    assert(before[i] == p);
                    assert(before.contains(p));
                    if p != path {
                        let k = choose|k: int| 0 <= k < rest.len() && rest[k] == p;
                        assert(list[k] == p);
                    }
                } else {
                    assert(list[list.len() - 1] == p);
                }
            }
            if list.contains(p) || p == path {
                if p != path {
                    let k = choose|k: int| 0 <= k < list.len() && list[k] == p;
                    if k < rest.len() {
                        assert(rest[k] == p);
                        assert(before.contains(p));
                    } else {
                        assert(now[now.len() - 1] == p);
                    }
                } else {
                    assert(before.contains(p));
                }
                if before.contains(p) {
                    let k = choose|k: int| 0 <= k < before.len() && before[k] == p;
                    assert(now[k] == p);
                }
            }
        }
    } else {
        assert forall|i: int, j: int| 0 <= i < j < now.len() implies !paths::path_precedes(
            #[trigger] now[j],
            #[trigger] now[i],
        ) by {
            if j < list.len() {
                assert(now[i] == list[i] && now[j] == list[j]);
            } else {
                assert(now[j] == path && now[i] == list[i]);
                if paths::path_precedes(path, list[i]) {
                    let last = list.last();
                    if i < list.len() - 1 {
                        assert(!paths::path_precedes(list[list.len() - 1], list[i]));
                        paths::lemma_parts_total(paths::components(list[i]), paths::components(last));
                        if paths::path_precedes(list[i], last) {
                            paths::lemma_parts_transitive(
                                paths::components(path),
                                paths::components(list[i]),
                                paths::components(last),
                            );
                        }
                    }
                }
            }
        }
        assert forall|p: Seq<char>| #[trigger] now.contains(p) <==> list.contains(p) || p
            == path by {
            if now.contains(p) {
                let i = choose|i: int| 0 <= i < now.len() && now[i] == p;
                if i < list.len() {
                    assert(list[i] == p);
                }
            }
            if list.contains(p) {
                let k = choose|k: int| 0 <= k < list.len() && list[k] == p;
                assert(now[k] == p);
            }
            if p == path {
                assert(now[now.len() - 1] == p);
            }
        }
    }
}

proof fn lemma_not_before_itself(path: Seq<char>)
    ensures
        !paths::path_precedes(path, path),
{
    lemma_parts_not_before_themselves(paths::components(path));
}

proof fn lemma_parts_not_before_themselves(parts: Seq<Seq<char>>)
    ensures
        !paths::parts_precede(parts, parts),
    decreases parts.len(),
{
    if parts.len() > 0 {
        lemma_parts_not_before_themselves(parts.skip(1));
    }
}

/// The files to index come in the order of their paths, and are exactly
/// those found that have a language and are not ignored.
pub proof fn law_wanted_files_are_ordered<L: Language>(
    langs: Seq<L>,
    ignored: Seq<Seq<char>>,
    found: Seq<Seq<char>>,
)
    ensures
        in_order(wanted(langs, ignored, found)),
        forall|p: Seq<char>| #[trigger]
            wanted(langs, ignored, found).contains(p) <==> found.contains(p) && is_wanted(
                langs,
                ignored,
                p,
            ),
    decreases found.len(),
{
    let now = wanted(langs, ignored, found);
    if found.len() > 0 {
        let rest = found.drop_last();
        let before = wanted(langs, ignored, rest);
        law_wanted_files_are_ordered(langs, ignored, rest);
        lemma_placed(before, found.last());
        assert forall|p: Seq<char>| #[trigger] now.contains(p) <==> found.contains(p) && is_wanted(
            langs,
            ignored,
            p,
        ) by {
            assert(before.contains(p) <==> rest.contains(p) && is_wanted(langs, ignored, p));
            assert(placed(before, found.last()).contains(p) <==> before.contains(p) || p
                == found.last());
            if found.contains(p) {
                let k = choose|k: int| 0 <= k < found.len() && found[k] == p;
                if k < rest.len() {
                    assert(rest[k] == p);
                }
            }
            if rest.contains(p) {
                let k = choose|k: int| 0 <= k < rest.len() && rest[k] == p;
                assert(found[k] == p);
            }
            if p == found.last() {
                assert(found[found.len() - 1] == p);
            }
        }
    } else {
        assert forall|p: Seq<char>| #[trigger] now.contains(p) <==> found.contains(p) && is_wanted(
            langs,
            ignored,
            p,
        ) by {}
    }
}

/// A file is indexed exactly where it was found, some language takes it, and
/// no `ignore` pattern matches it.
pub proof fn law_wanted_files_are_indexed<L: Language>(
    langs: Seq<L>,
    ignored: Seq<Seq<char>>,
    found: Seq<Seq<char>>,
    path: Seq<char>,
)
    ensures
        wanted(langs, ignored, found).contains(path) <==> found.contains(path)
            && language::lang_for(langs, path) is Some && !config::is_ignored(ignored, path),
    decreases found.len(),
{
    if found.len() > 0 {
        let rest = found.drop_last();
        let before = wanted(langs, ignored, rest);
        law_wanted_files_are_indexed(langs, ignored, rest, path);
        config::lemma_first_match_is_ignored(ignored, path);
        lemma_placed_holds(before, found.last(), path);
        if found.contains(path) && path != found.last() {
            let i = choose|i: int| 0 <= i < found.len() && found[i] == path;
            assert(rest[i] == path);
        }
        if rest.contains(path) {
            let i = choose|i: int| 0 <= i < rest.len() && rest[i] == path;
            assert(found[i] == path);
        }
        assert(found[found.len() - 1] == found.last());
    }
}

proof fn lemma_placed_holds(list: Seq<Seq<char>>, new: Seq<char>, path: Seq<char>)
    ensures
        placed(list, new).contains(path) <==> list.contains(path) || path == new,
    decreases list.len(),
{
    let all = placed(list, new);
    if list.len() > 0 && paths::path_precedes(new, list.last()) {
        let rest = list.drop_last();
        let inner = placed(rest, new);
        lemma_placed_holds(rest, new, path);
        if all.contains(path) {
            let i = choose|i: int| 0 <= i < all.len() && all[i] == path;
            if i < inner.len() {
                assert(inner[i] == path);
                if rest.contains(path) {
                    let k = choose|k: int| 0 <= k < rest.len() && rest[k] == path;
                    assert(list[k] == path);
                }
            } else {
                assert(list[list.len() - 1] == path);
            }
        }
        if list.contains(path) || path == new {
            if path == list.last() {
                assert(all[inner.len() as int] == path);
            } else {
                if list.contains(path) {
                    let k = choose|k: int| 0 <= k < list.len() && list[k] == path;
                    assert(rest[k] == path);
                }
                let i = choose|i: int| 0 <= i < inner.len() && inner[i] == path;
                assert(all[i] == path);
            }
        }
    } else {
        if all.contains(path) {
            let i = choose|i: int| 0 <= i < all.len() && all[i] == path;
            if i < list.len() {
                assert(list[i] == path);
            }
        }
        if list.contains(path) {
            let i = choose|i: int| 0 <= i < list.len() && list[i] == path;
            assert(all[i] == path);
        }
        assert(all[list.len() as int] == new);
    }
}

} // verus!
