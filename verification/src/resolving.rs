//! Which files imports name, told by how they are written.
use vstd::prelude::*;

use crate::java_index;
use crate::java_index::RepoIndex;
use crate::lang_go;
use crate::lang_rust;
use crate::lang_ts;
use crate::language;
use crate::paths;
use crate::text;

verus! {

/// Of the files that an import may name, the first that exists is taken, and
/// where none exists the import names nothing.
pub proof fn law_first_candidate_wins(cs: Seq<Seq<char>>, present: Set<Seq<char>>, k: int)
    requires
        0 <= k <= cs.len(),
        forall|i: int| 0 <= i < k ==> !present.contains(#[trigger] cs[i]),
        k < cs.len() ==> present.contains(cs[k]),
    ensures
        language::first_present(cs, present) == (if k < cs.len() {
            Some(cs[k])
        } else {
            None
        }),
    decreases cs.len(),
{
    if cs.len() > 0 {
        let rest = cs.drop_last();
        assert forall|i: int| 0 <= i < rest.len() implies #[trigger] rest[i] == cs[i] by {}
        assert forall|i: int| 0 <= i < k && i < rest.len() implies !present.contains(
            #[trigger] rest[i],
        ) by {
            assert(rest[i] == cs[i]);
        }
        if k < rest.len() {
            assert(rest[k] == cs[k]);
            law_first_candidate_wins(rest, present, k);
        } else {
            law_first_candidate_wins(rest, present, rest.len() as int);
            if k == cs.len() {
                assert(cs[cs.len() - 1] == cs.last());
            }
        }
    }
}

/// A Go import of a package below the module's path names the directory that
/// is written behind it, and any other import names nothing here.
pub proof fn law_go_imports_name_directories(
    module: Seq<char>,
    more: Seq<char>,
    dir: Seq<char>,
    other: Seq<char>,
)
    requires
        !module.contains('\n'),
        text::trim(module) == module,
    ensures
        lang_go::resolved(
            module + "/"@ + dir,
            Some("module "@ + module + seq!['\n'] + more),
        ) == Some(dir),
        lang_go::resolved(module + "/"@ + dir, Some("module "@ + module)) == Some(dir),
        !(exists|rest: Seq<char>| other == #[trigger] (module + "/"@ + rest))
            ==> lang_go::resolved(other, Some("module "@ + module)) is None,
        lang_go::resolved(other, None) is None,
{
    reveal_strlit("module ");
    reveal_strlit("/");
    let line = "module "@ + module;
    assert(!line.contains('\n')) by {
        if line.contains('\n') {
            let i = choose|i: int| 0 <= i < line.len() && line[i] == '\n';
            if i >= 7 {
                assert(module[i - 7] == '\n');
            }
        }
    }
    text::lemma_split_whole(line, '\n');
    text::lemma_split_cat(line, more, '\n');
    assert(line.take(7) =~= "module "@);
    assert(line.skip(7) =~= module);
    let p = module + "/"@;
    let raw = module + "/"@ + dir;
    assert(raw.take(p.len() as int) =~= p);
    assert(raw.skip(p.len() as int) =~= dir);
    if text::starts_with(other, p) {
        let rest = other.skip(p.len() as int);
        assert(other =~= other.take(p.len() as int) + rest);
        assert(other == module + "/"@ + rest);
    }
}

/// The components of a directory in which nothing is to be worked out.
pub open spec fn is_settled(parts: Seq<Seq<char>>) -> bool {
    forall|i: int| 0 <= i < parts.len() ==> (#[trigger] parts[i]) != "."@ && parts[i] != ".."@
}

proof fn lemma_settled(parts: Seq<Seq<char>>)
    requires
        is_settled(parts),
    ensures
        lang_ts::collapsed(parts) == parts,
    decreases parts.len(),
{
    if parts.len() > 0 {
        let rest = parts.drop_last();
        assert forall|i: int| 0 <= i < rest.len() implies (#[trigger] rest[i]) != "."@ && rest[i]
            != ".."@ by {
            assert(rest[i] == parts[i]);
        }
        lemma_settled(rest);
        assert(parts[parts.len() - 1] == parts.last());
        assert(rest.push(parts.last()) =~= parts);
    }
}

/// The files that a relative TypeScript import may name: what it writes,
/// with each extension that it may leave out, and the index of a directory;
/// for a compiled file also its source.
pub open spec fn may_name(from: Seq<char>, raw: Seq<char>, base: Seq<char>) -> bool {
    let cs = lang_ts::candidates(from, raw);
    &&& cs.contains(base)
    &&& cs.contains(base + "/index.ts"@)
    &&& cs.contains(base + "/index.tsx"@)
    &&& !lang_ts::has_known_extension(raw) ==> {
        &&& cs.contains(base + ".ts"@)
        &&& cs.contains(base + ".tsx"@)
        &&& cs.contains(base + ".mts"@)
        &&& cs.contains(base + ".cts"@)
        &&& cs.contains(base + ".js"@)
        &&& cs.contains(base + ".jsx"@)
    }
    &&& forall|stem: Seq<char>| base == #[trigger] (stem + ".js"@) ==> cs.contains(stem + ".ts"@)
    &&& forall|stem: Seq<char>| base == #[trigger] (stem + ".jsx"@) ==> cs.contains(stem + ".tsx"@)
}

proof fn lemma_may_name(from: Seq<char>, raw: Seq<char>)
    requires
        lang_ts::is_relative(raw),
    ensures
        may_name(
            from,
            raw,
            lang_ts::normal(paths::joined(paths::directory_of(from), raw)),
        ),
{
    let base = lang_ts::normal(paths::joined(paths::directory_of(from), raw));
    let cs = lang_ts::candidates(from, raw);
    let exts = if lang_ts::has_known_extension(raw) {
        Seq::empty()
    } else {
        seq![
            base + ".ts"@,
            base + ".tsx"@,
            base + ".mts"@,
            base + ".cts"@,
            base + ".js"@,
            base + ".jsx"@,
        ]
    };
    let sources = lang_ts::source_of(base);
    let n = exts.len() as int;
    let m = sources.len() as int;
    assert(cs[0] == base);
    assert(cs[1 + n + m] == base + "/index.ts"@);
    assert(cs[2 + n + m] == base + "/index.tsx"@);
    if !lang_ts::has_known_extension(raw) {
        assert(cs[1] == exts[0] && cs[2] == exts[1] && cs[3] == exts[2]);
        assert(cs[4] == exts[3] && cs[5] == exts[4] && cs[6] == exts[5]);
    }
    reveal_strlit(".js");
    reveal_strlit(".jsx");
    assert forall|stem: Seq<char>| base == #[trigger] (stem + ".js"@) implies cs.contains(
        stem + ".ts"@,
    ) by {
        assert(base.skip(base.len() - 3) =~= ".js"@);
        assert(base.take(base.len() - 3) =~= stem);
        assert(sources[0] == stem + ".ts"@);
        assert(cs[1 + n] == sources[0]);
    }
    assert forall|stem: Seq<char>| base == #[trigger] (stem + ".jsx"@) implies cs.contains(
        stem + ".tsx"@,
    ) by {
        assert(base.skip(base.len() - 4) =~= ".jsx"@);
        assert(base.take(base.len() - 4) =~= stem);
        assert(base.last() == 'x');
        if text::ends_with(base, ".js"@) {
            assert(base.skip(base.len() - 3).last() == base.last());
            assert(".js"@.last() == 's');
        }
        assert(sources[0] == stem + ".tsx"@);
        assert(cs[1 + n] == sources[0]);
    }
}

/// `./name` in a file names what stands beside the file, and `../name` what
/// stands beside the file's directory.
pub proof fn law_relative_imports_name_neighbours(dir: Seq<char>, file: Seq<char>, name: Seq<char>)
    requires
        dir.len() > 0,
        paths::is_file_name(file),
        paths::is_file_name(name),
        is_settled(paths::components(dir)),
    ensures
        may_name(
            dir + seq!['/'] + file,
            "./"@ + name,
            paths::render(paths::components(dir).push(name)),
        ),
        paths::components(dir).last() != "/"@ ==> may_name(
            dir + seq!['/'] + file,
            "../"@ + name,
            paths::render(paths::components(dir).drop_last().push(name)),
        ),
{
    reveal_strlit("./");
    reveal_strlit("../");
    reveal_strlit("/");
    reveal_strlit(".");
    reveal_strlit("..");
    let from = dir + seq!['/'] + file;
    let d = paths::directory_of(from);
    let here = "./"@ + name;
    let up = "../"@ + name;
    assert("/"@ =~= seq!['/']);
    assert("."@ =~= seq!['.']);
    assert(".."@ =~= seq!['.', '.']);
    paths::law_files_have_names(dir, file);
    let parts = paths::components(dir);
    assert(paths::components(d) == parts);
    paths::lemma_components_nonempty(dir);
    assert(d.len() > 0) by {
        if d.len() == 0 {
            paths::lemma_components_of_nothing();
            assert(d =~= Seq::empty());
        }
    }
    assert(here.take(2) =~= "./"@);
    assert(up.take(3) =~= "../"@);
    assert(here[0] == '.' && up[0] == '.');
    lemma_may_name(from, here);
    lemma_may_name(from, up);
    assert(here =~= seq!['.'] + seq!['/'] + name);
    assert(up =~= seq!['.', '.'] + seq!['/'] + name);
    paths::lemma_components_joined(d, here, seq!['.'], name);
    paths::lemma_components_joined(d, up, seq!['.', '.'], name);
    lemma_settled(parts);
    let with_name = parts.push(name);
    assert(with_name.drop_last() =~= parts);
    assert(lang_ts::collapsed(with_name) == with_name);
    let with_up = parts.push(".."@);
    assert(with_up.drop_last() =~= parts);
    let all = with_up.push(name);
    assert(all.drop_last() =~= with_up);
    assert(lang_ts::collapsed(with_up) == (if parts.last() != "/"@ {
        parts.drop_last()
    } else {
        parts
    }));
    assert(lang_ts::collapsed(all) == lang_ts::collapsed(with_up).push(name));
}

/// An import by a name alone, as of a package, is not looked for.
pub proof fn law_other_imports_name_nothing(from: Seq<char>, raw: Seq<char>)
    requires
        raw.len() > 0 && raw[0] != '.',
    ensures
        lang_ts::candidates(from, raw).len() == 0,
{
    reveal_strlit("./");
    reveal_strlit("../");
    if text::starts_with(raw, "./"@) {
        assert(raw.take(2)[0] == raw[0]);
    }
    if text::starts_with(raw, "../"@) {
        assert(raw.take(3)[0] == raw[0]);
    }
}

/// `mod name;` in `lib.rs`, `main.rs` or `mod.rs` names a file beside it, and
/// in `other.rs` one in the directory `other`: `name.rs`, or `mod.rs` in a
/// directory of that name.
pub proof fn law_modules_name_files(
    dir: Seq<char>,
    stem: Seq<char>,
    name: Seq<char>,
    present: Set<Seq<char>>,
)
    requires
        stem.len() > 0,
        !stem.contains('/'),
        paths::is_file_name(stem + seq!['.'] + "rs"@),
    ensures
        ({
            let file = stem + seq!['.'] + "rs"@;
            let from = dir + seq!['/'] + file;
            let parent = paths::directory_of(from);
            let home = if stem == "lib"@ || stem == "main"@ || stem == "mod"@ {
                parent
            } else {
                paths::joined(parent, stem)
            };
            let first = paths::joined(home, name + ".rs"@);
            let second = paths::joined(paths::joined(home, name), "mod.rs"@);
            lang_rust::target(from, "mod "@ + name, present) == (if present.contains(first) {
                Some(first)
            } else if present.contains(second) {
                Some(second)
            } else {
                None
            })
        }),
{
    reveal_strlit("rs");
    reveal_strlit("lib");
    reveal_strlit("main");
    reveal_strlit("mod");
    reveal_strlit("lib.rs");
    reveal_strlit("main.rs");
    reveal_strlit("mod.rs");
    reveal_strlit("mod ");
    let file = stem + seq!['.'] + "rs"@;
    let from = dir + seq!['/'] + file;
    assert(!"rs"@.contains('/') && !"rs"@.contains('.'));
    paths::law_files_have_names(dir, file);
    paths::law_files_have_extensions(dir, stem, "rs"@);
    assert("lib"@ + seq!['.'] + "rs"@ =~= "lib.rs"@);
    assert("main"@ + seq!['.'] + "rs"@ =~= "main.rs"@);
    assert("mod"@ + seq!['.'] + "rs"@ =~= "mod.rs"@);
    assert(file.take(file.len() - 3) =~= stem);
    if file == "lib.rs"@ {
        assert("lib.rs"@.take(3) =~= "lib"@);
    }
    if file == "main.rs"@ {
        assert("main.rs"@.take(4) =~= "main"@);
    }
    if file == "mod.rs"@ {
        assert("mod.rs"@.take(3) =~= "mod"@);
    }
    let raw = "mod "@ + name;
    assert(raw.take(4) =~= "mod "@);
    assert(raw.skip(4) =~= name);
    let cs = lang_rust::mod_candidates(from, name);
    assert(cs.len() == 2);
    if present.contains(cs[0]) {
        law_first_candidate_wins(cs, present, 0);
    } else if present.contains(cs[1]) {
        law_first_candidate_wins(cs, present, 1);
    } else {
        law_first_candidate_wins(cs, present, 2);
    }
}

proof fn lemma_no_colons(s: Seq<char>, i: int)
    requires
        0 <= i,
        !s.contains(':'),
    ensures
        lang_rust::first_colons(s, i) == -1,
    decreases s.len() - i,
{
    if i + 1 < s.len() {
        assert(s.contains(s[i]));
        lemma_no_colons(s, i + 1);
    }
}

/// `use self::name` and `use super::name` name a file in the directory of
/// the file, and `use crate::name` one below the nearest root of a crate.
pub proof fn law_uses_name_files(from: Seq<char>, name: Seq<char>, present: Set<Seq<char>>)
    requires
        !name.contains(':'),
        !name.contains('{'),
    ensures
        ({
            let dir = paths::directory_of(from);
            &&& present.contains(paths::joined(dir, name) + ".rs"@) ==> lang_rust::target(
                from,
                "use self::"@ + name,
                present,
            ) == Some(paths::joined(dir, name) + ".rs"@) && lang_rust::target(
                from,
                "use super::"@ + name,
                present,
            ) == Some(paths::joined(dir, name) + ".rs"@)
            &&& lang_rust::crate_root(paths::components(dir), present) matches Some(root)
                ==> present.contains(paths::joined(root, name) + ".rs"@) ==> lang_rust::target(
                from,
                "use crate::"@ + name,
                present,
            ) == Some(paths::joined(root, name) + ".rs"@)
        }),
{
    lemma_words();
    let dir = paths::directory_of(from);
    if present.contains(paths::joined(dir, name) + ".rs"@) {
        lemma_name_taken(dir, "self"@, name, present);
        lemma_name_taken(dir, "super"@, name, present);
    }
    if let Some(root) = lang_rust::crate_root(paths::components(dir), present) {
        if present.contains(paths::joined(root, name) + ".rs"@) {
            lemma_name_taken(root, "crate"@, name, present);
        }
    }
    assert(lang_rust::target(from, "use self::"@ + name, present) == lang_rust::use_target(
        from,
        "self"@ + seq![':', ':'] + name,
        present,
    ) && lang_rust::use_segments("self"@ + seq![':', ':'] + name) == seq!["self"@, name]) by {
        reveal_strlit("use self::");
        reveal_strlit("self");
        reveal_strlit("use ");
        lemma_use_target(from, "self"@, name, present);
        assert("use self::"@ + name =~= "use "@ + ("self"@ + seq![':', ':'] + name));
    }
    assert(lang_rust::target(from, "use super::"@ + name, present) == lang_rust::use_target(
        from,
        "super"@ + seq![':', ':'] + name,
        present,
    ) && lang_rust::use_segments("super"@ + seq![':', ':'] + name) == seq!["super"@, name]) by {
        reveal_strlit("use super::");
        reveal_strlit("super");
        reveal_strlit("use ");
        lemma_use_target(from, "super"@, name, present);
        assert("use super::"@ + name =~= "use "@ + ("super"@ + seq![':', ':'] + name));
    }
    assert(lang_rust::target(from, "use crate::"@ + name, present) == lang_rust::use_target(
        from,
        "crate"@ + seq![':', ':'] + name,
        present,
    ) && lang_rust::use_segments("crate"@ + seq![':', ':'] + name) == seq!["crate"@, name]) by {
        reveal_strlit("use crate::");
        reveal_strlit("crate");
        reveal_strlit("use ");
        lemma_use_target(from, "crate"@, name, present);
        assert("use crate::"@ + name =~= "use "@ + ("crate"@ + seq![':', ':'] + name));
    }
}

proof fn lemma_words()
    ensures
        "self"@ != "crate"@,
        "super"@ != "crate"@,
{
    reveal_strlit("self");
    reveal_strlit("super");
    reveal_strlit("crate");
    assert("self"@[0] == 's' && "super"@[0] == 's' && "crate"@[0] == 'c');
}

/// Behind the first word of a path, a name is looked for as a file.
proof fn lemma_name_taken(
    base: Seq<char>,
    word: Seq<char>,
    name: Seq<char>,
    present: Set<Seq<char>>,
)
    requires
        present.contains(paths::joined(base, name) + ".rs"@),
    ensures
        language::first_present(
            lang_rust::segment_candidates(base, seq![word, name].skip(1)),
            present,
        ) == Some(paths::joined(base, name) + ".rs"@),
{
    let segs = seq![word, name].skip(1);
    assert(segs =~= seq![name]);
    reveal_with_fuel(lang_rust::descend, 3);
    reveal_with_fuel(lang_rust::segment_candidates, 3);
    assert(segs.drop_last() =~= Seq::<Seq<char>>::empty());
    let cs = lang_rust::segment_candidates(base, segs);
    assert(cs[0] == paths::joined(base, name) + ".rs"@);
    law_first_candidate_wins(cs, present, 0);
}

proof fn lemma_use_target(
    from: Seq<char>,
    word: Seq<char>,
    name: Seq<char>,
    present: Set<Seq<char>>,
)
    requires
        !name.contains(':'),
        !name.contains('{'),
        !word.contains(':'),
        !word.contains('{'),
        word.len() > 0,
    ensures
        ({
            let path = word + seq![':', ':'] + name;
            &&& lang_rust::use_segments(path) == seq![word, name]
            &&& lang_rust::target(from, "use "@ + path, present) == lang_rust::use_target(
                from,
                path,
                present,
            )
        }),
{
    reveal_strlit("use ");
    reveal_strlit("mod ");
    let path = word + seq![':', ':'] + name;
    let raw = "use "@ + path;
    assert(raw.take(4) =~= "use "@);
    assert(raw.skip(4) =~= path);
    assert(raw.take(4)[0] == 'u' && "mod "@[0] == 'm');
    assert(!path.contains('{')) by {
        if path.contains('{') {
            let i = choose|i: int| 0 <= i < path.len() && path[i] == '{';
            if i < word.len() {
                assert(word[i] == '{');
            } else if i >= word.len() + 2 {
                assert(name[i - word.len() - 2] == '{');
            }
        }
    }
    text::lemma_split_whole(path, '{');
    lemma_colons_at(word, name, 0);
    lemma_no_colons(name, 0);
    assert(path.take(word.len() as int) =~= word);
    assert(path.skip(word.len() as int + 2) =~= name);
    reveal_with_fuel(lang_rust::segments, 3);
    assert(seq![word] + seq![name] =~= seq![word, name]);
}

proof fn lemma_colons_at(word: Seq<char>, name: Seq<char>, i: int)
    requires
        0 <= i <= word.len(),
        !word.contains(':'),
    ensures
        lang_rust::first_colons(word + seq![':', ':'] + name, i) == word.len(),
    decreases word.len() - i,
{
    let s = word + seq![':', ':'] + name;
    if i < word.len() {
        assert(word.contains(word[i]));
        assert(s[i] == word[i]);
        lemma_colons_at(word, name, i + 1);
    }
}

/// The root of a crate is the nearest directory above a file that holds a
/// `lib.rs` or a `main.rs`.
pub proof fn law_crate_roots_are_nearest(parts: Seq<Seq<char>>, present: Set<Seq<char>>, k: int)
    requires
        0 <= k <= parts.len(),
        is_crate_dir(parts.take(k), present),
        forall|i: int| k < i <= parts.len() ==> !is_crate_dir(#[trigger] parts.take(i), present),
        forall|i: int| 0 <= i < parts.len() && k <= i ==> (#[trigger] parts[i]) != "/"@,
    ensures
        lang_rust::crate_root(parts, present) == Some(paths::render(parts.take(k))),
    decreases parts.len(),
{
    assert(parts.take(parts.len() as int) =~= parts);
    if k < parts.len() {
        let rest = parts.drop_last();
        assert(parts[parts.len() - 1] == parts.last());
        assert(rest.take(k) =~= parts.take(k));
        assert forall|i: int| k < i <= rest.len() implies !is_crate_dir(
            #[trigger] rest.take(i),
            present,
        ) by {
            assert(rest.take(i) =~= parts.take(i));
        }
        law_crate_roots_are_nearest(rest, present, k);
    }
}

/// Does the directory hold a `lib.rs` or a `main.rs`?
pub open spec fn is_crate_dir(parts: Seq<Seq<char>>, present: Set<Seq<char>>) -> bool {
    present.contains(paths::joined(paths::render(parts), "lib.rs"@)) || present.contains(
        paths::joined(paths::render(parts), "main.rs"@),
    )
}

/// The name of a Java type or package, with its parts between dots.
pub open spec fn dotted(parts: Seq<Seq<char>>) -> Seq<char> {
    text::join(parts, seq!['.'])
}

/// The same parts as a path.
pub open spec fn slashed(parts: Seq<Seq<char>>) -> Seq<char> {
    text::join(parts, seq!['/'])
}

/// Are these the parts of a name?
pub open spec fn are_name_parts(parts: Seq<Seq<char>>) -> bool {
    &&& parts.len() > 0
    &&& forall|i: int|
        0 <= i < parts.len() ==> paths::is_file_name(#[trigger] parts[i]) && !parts[i].contains('.')
}

proof fn lemma_spelled(parts: Seq<Seq<char>>)
    requires
        are_name_parts(parts),
    ensures
        java_index::spelled(parts) == slashed(parts),
        slashed(parts).len() > 0,
        slashed(parts).last() != '/',
    decreases parts.len(),
{
    reveal_strlit("/");
    assert("/"@ =~= seq!['/']);
    let last = parts.last();
    assert(parts[parts.len() - 1] == last);
    assert(last.contains(last[last.len() - 1]) && last.contains(last[0]));
    let rest = parts.drop_last();
    if parts.len() == 1 {
        assert(rest =~= Seq::<Seq<char>>::empty());
        reveal_with_fuel(java_index::spelled, 2);
        assert(Seq::<char>::empty() + last =~= last);
        assert(slashed(parts) =~= last);
    } else {
        assert forall|i: int| 0 <= i < rest.len() implies paths::is_file_name(#[trigger] rest[i])
            && !rest[i].contains('.') by {
            assert(rest[i] == parts[i]);
        }
        lemma_spelled(rest);
        assert(slashed(parts) =~= slashed(rest) + seq!['/'] + last);
    }
}

/// A Java import names the file of the type that is filed under it, or else
/// the directory of the package, or else, as an import of a member, the file
/// of the type that its last part belongs to; with `.*` behind it, it names
/// the directory of the package.
pub proof fn law_java_imports_name_types_and_packages(
    index: RepoIndex,
    from: Seq<char>,
    parts: Seq<Seq<char>>,
)
    requires
        are_name_parts(parts),
        parts.last() != seq!['*'],
        text::trim(dotted(parts)) == dotted(parts),
        text::trim(dotted(parts) + ".*"@) == dotted(parts) + ".*"@,
    ensures
        index.class_files(slashed(parts)).len() > 0 ==> java_index::named_by(
            index,
            from,
            dotted(parts),
        ) == java_index::nearest(index.class_files(slashed(parts)), from),
        index.class_files(slashed(parts)).len() == 0 && index.package_dirs(slashed(parts)).len() > 0
            ==> java_index::named_by(index, from, dotted(parts)) == java_index::nearest(
            index.package_dirs(slashed(parts)),
            from,
        ),
        java_index::named_by(index, from, dotted(parts) + ".*"@) == java_index::nearest(
            index.package_dirs(slashed(parts)),
            from,
        ),
        parts.len() > 1 && index.class_files(slashed(parts)).len() == 0 && index.package_dirs(
            slashed(parts),
        ).len() == 0 ==> java_index::named_by(index, from, dotted(parts)) == java_index::nearest(
            index.class_files(slashed(parts.drop_last())),
            from,
        ),
{
    let n = dotted(parts);
    let path = slashed(parts);
    reveal_strlit(".*");
    lemma_spelled(parts);
    lemma_dotted(parts);
    java_index::law_nearest_is_a_candidate(index.class_files(path), from);
    java_index::law_nearest_is_a_candidate(index.package_dirs(path), from);
    let last = parts.last();
    assert(parts[parts.len() - 1] == last);
    assert(text::without_suffix(n, ".*"@) is None) by {
        if text::ends_with(n, ".*"@) {
            let end = n.skip(n.len() - 2);
            assert(end =~= ".*"@);
            assert(end[1] == n[n.len() - 1] && end[0] == n[n.len() - 2]);
            assert(n[n.len() - 1] == last[last.len() - 1]);
            if last.len() > 1 {
                assert(n[n.len() - 2] == last[last.len() - 2]);
                assert(last.contains('.'));
            } else {
                assert(last =~= seq!['*']);
            }
        }
    }
    if parts.len() > 1 {
        let rest = parts.drop_last();
        assert forall|i: int| 0 <= i < rest.len() implies paths::is_file_name(#[trigger] rest[i])
            && !rest[i].contains('.') by {
            assert(rest[i] == parts[i]);
        }
        lemma_spelled(rest);
        let owner = slashed(rest);
        assert(path =~= owner + seq!['/'] + last);
        paths::law_files_have_names(owner, last);
        assert(paths::parent_of(path) == Some(paths::directory_of(path)));
        paths::law_canonical_decides(paths::directory_of(path), owner);
    }
    let all = n + ".*"@;
    assert(all.skip(all.len() - 2) =~= ".*"@);
    assert(all.take(all.len() - 2) =~= n);
}

proof fn lemma_dotted(parts: Seq<Seq<char>>)
    requires
        are_name_parts(parts),
    ensures
        text::split(dotted(parts), '.') == parts,
        dotted(parts).len() >= parts.last().len(),
        forall|i: int|
            1 <= i <= parts.last().len() ==> #[trigger] dotted(parts)[dotted(parts).len() - i]
                == parts.last()[parts.last().len() - i],
    decreases parts.len(),
{
    let last = parts.last();
    assert(parts[parts.len() - 1] == last);
    let rest = parts.drop_last();
    text::lemma_split_whole(last, '.');
    if parts.len() == 1 {
        assert(rest =~= Seq::<Seq<char>>::empty());
        assert(dotted(parts) =~= last);
        assert(parts =~= seq![last]);
    } else {
        assert forall|i: int| 0 <= i < rest.len() implies paths::is_file_name(#[trigger] rest[i])
            && !rest[i].contains('.') by {
            assert(rest[i] == parts[i]);
        }
        lemma_dotted(rest);
        assert(dotted(parts) =~= dotted(rest) + seq!['.'] + last);
        text::lemma_split_cat(dotted(rest), last, '.');
        assert(rest + seq![last] =~= parts);
    }
}

} // verus!
