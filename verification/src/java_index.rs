//! The types and packages that a repository's Java sources declare, found by
//! the layout of its directories.
use vstd::prelude::*;

use crate::names::NameLists;
use crate::paths;
use crate::paths::{canonical_path, join_path, parts_of, path_before, render_parts};
use crate::text;
use crate::text::{begins, cut_suffix, same};

verus! {

/// A directory with what it holds.
#[derive(Debug)]
pub struct Dir {
    pub name: String,
    pub dirs: Vec<Dir>,
    /// The names of what is no directory.
    pub files: Vec<String>,
}

/// What a [`Dir`] says.
pub struct DirView {
    pub name: Seq<char>,
    pub dirs: Seq<DirView>,
    pub files: Seq<Seq<char>>,
}

pub open spec fn dir_view(d: Dir) -> DirView
    decreases d,
{
    DirView { name: d.name@, dirs: dir_views(d.dirs@), files: text::views(d.files@) }
}

/// What directories side by side say.
pub open spec fn dir_views(ds: Seq<Dir>) -> Seq<DirView>
    decreases ds,
{
    if ds.len() == 0 {
        Seq::empty()
    } else {
        dir_views(ds.drop_last()).push(dir_view(ds.last()))
    }
}

impl View for Dir {
    type V = DirView;

    open spec fn view(&self) -> DirView {
        dir_view(*self)
    }
}

proof fn lemma_dir_views(ds: Seq<Dir>)
    ensures
        dir_views(ds).len() == ds.len(),
        forall|i: int| 0 <= i < ds.len() ==> #[trigger] dir_views(ds)[i] == ds[i]@,
    decreases ds.len(),
{
    if ds.len() > 0 {
        lemma_dir_views(ds.drop_last());
        assert forall|i: int| 0 <= i < ds.len() implies #[trigger] dir_views(ds)[i] == ds[i]@ by {
            if i < ds.len() - 1 {
                assert(dir_views(ds)[i] == dir_views(ds.drop_last())[i]);
            }
        }
    }
}

/// Is a directory of this name passed over: one that holds build outputs, or
/// that tools keep for themselves?
pub open spec fn is_skipped(name: Seq<char>) -> bool {
    ||| name == "target"@
    ||| name == "build"@
    ||| name == "out"@
    ||| name == "bin"@
    ||| name == ".git"@
    ||| name == ".gradle"@
    ||| name == ".idea"@
    ||| name == "node_modules"@
    ||| text::starts_with(name, "."@)
}

fn skipped(name: &str) -> (r: bool)
    ensures
        r == is_skipped(name@),
{
    same(name, "target") || same(name, "build") || same(name, "out") || same(name, "bin") || same(
        name,
        ".git",
    ) || same(name, ".gradle") || same(name, ".idea") || same(name, "node_modules") || begins(
        name,
        ".",
    )
}

/// Does a source root `src/<set>/java` end at component `i`?
pub open spec fn root_ends_at(parts: Seq<Seq<char>>, i: int) -> bool {
    2 <= i < parts.len() && parts[i - 2] == "src"@ && parts[i] == "java"@
}

/// How many components the source root takes that ends last among the first
/// `n` components, or 0.
pub open spec fn root_within(parts: Seq<Seq<char>>, n: int) -> int
    decreases n,
{
    if n <= 0 {
        0
    } else if root_ends_at(parts, n - 1) {
        n
    } else {
        root_within(parts, n - 1)
    }
}

/// The components of the source root that a path stands in. It is looked
/// for from the end of the path, so that a `src` further up is no matter.
pub open spec fn root_parts(path: Seq<char>) -> Option<Seq<Seq<char>>> {
    let parts = paths::components(path);
    let n = root_within(parts, parts.len() as int);
    if n > 0 {
        Some(parts.take(n))
    } else {
        None
    }
}

/// The source root `<module>/src/<set>/java` that a path stands in.
pub open spec fn source_root(path: Seq<char>) -> Option<Seq<char>> {
    match root_parts(path) {
        Some(parts) => Some(paths::render(parts)),
        None => None,
    }
}

proof fn lemma_root_within(parts: Seq<Seq<char>>, n: int)
    requires
        n <= parts.len(),
    ensures
        root_within(parts, n) <= parts.len(),
        root_within(parts, n) == 0 || (root_within(parts, n) >= 3 && root_ends_at(
            parts,
            root_within(parts, n) - 1,
        )),
    decreases n,
{
    if n > 0 && !root_ends_at(parts, n - 1) {
        lemma_root_within(parts, n - 1);
    }
}

/// The first `n` of `parts`.
fn first_parts(parts: &Vec<String>, n: usize) -> (r: Vec<String>)
    requires
        n <= parts@.len(),
    ensures
        text::views(r@) == text::views(parts@).take(n as int),
{
    parts_between(parts, 0, n)
}

/// Those of `parts` at positions `from..to`.
fn parts_between(parts: &Vec<String>, from: usize, to: usize) -> (r: Vec<String>)
    requires
        from <= to <= parts@.len(),
    ensures
        text::views(r@) == text::views(parts@).subrange(from as int, to as int),
{
    let ghost all = text::views(parts@);
    let mut out: Vec<String> = Vec::new();
    let mut i: usize = from;
    assert(text::views(out@) =~= all.subrange(from as int, from as int));
    while i < to
        invariant
            from <= i <= to <= parts@.len(),
            all == text::views(parts@),
            text::views(out@) == all.subrange(from as int, i as int),
        decreases to - i,
    {
        let p = parts[i].clone();
        let ghost was = out@;
        out.push(p);
        assert(text::views(out@) =~= text::views(was).push(p@));
        assert(all.subrange(from as int, i + 1) =~= all.subrange(from as int, i as int).push(p@));
        i = i + 1;
    }
    out
}

fn root_of(path: &str) -> (r: Option<Vec<String>>)
    ensures
        match r {
            Some(parts) => root_parts(path@) == Some(text::views(parts@)) && parts@.len() >= 3,
            None => root_parts(path@) is None,
        },
{
    let parts = parts_of(path);
    let ghost all = text::views(parts@);
    let mut n: usize = parts.len();
    while n > 0
        invariant
            n <= parts@.len(),
            all == text::views(parts@),
            all == paths::components(path@),
            root_within(all, all.len() as int) == root_within(all, n as int),
        decreases n,
    {
        if n >= 3 {
            assert(all[n - 3] == parts@[n - 3]@ && all[n - 1] == parts@[n - 1]@);
            if same(parts[n - 3].as_str(), "src") && same(parts[n - 1].as_str(), "java") {
                let r = first_parts(&parts, n);
                assert(text::views(r@).len() == r@.len());
                return Some(r);
            }
        }
        n = n - 1;
    }
    None
}

/// The source root `<module>/src/<set>/java` that a path stands in.
pub fn source_root_of(path: &str) -> (r: Option<String>)
    ensures
        text::opt_view(r) == source_root(path@),
{
    match root_of(path) {
        Some(parts) => Some(render_parts(&parts)),
        None => None,
    }
}

/// The components of the build module that a path stands in: its source root
/// without `src/<set>/java`.
pub open spec fn module_parts(path: Seq<char>) -> Option<Seq<Seq<char>>> {
    match root_parts(path) {
        Some(parts) => Some(parts.take(parts.len() - 3)),
        None => None,
    }
}

pub(crate) fn module_of(path: &str) -> (r: Option<Vec<String>>)
    ensures
        match r {
            Some(parts) => module_parts(path@) == Some(text::views(parts@)),
            None => module_parts(path@) is None,
        },
{
    match root_of(path) {
        Some(parts) => {
            assert(text::views(parts@).len() == parts@.len());
            Some(first_parts(&parts, parts.len() - 3))
        },
        None => None,
    }
}

/// Does a path stand in a source root `src/main/java`?
pub open spec fn in_main_root(path: Seq<char>) -> bool {
    match root_parts(path) {
        Some(parts) => parts[parts.len() - 2] == "main"@,
        None => false,
    }
}

fn is_main_root(path: &str) -> (r: bool)
    ensures
        r == in_main_root(path@),
{
    match root_of(path) {
        Some(parts) => {
            assert(text::views(parts@)[parts@.len() - 2] == parts@[parts@.len() - 2]@);
            same(parts[parts.len() - 2].as_str(), "main")
        },
        None => false,
    }
}

/// The package of a Java file, as the path `<module>/<package>`: the source
/// root is left out, so that a class and its test in the parallel root are
/// in one package. A file in no source root is in the package of its
/// directory.
pub open spec fn java_package(file: Seq<char>) -> Seq<char> {
    match root_parts(file) {
        Some(root) => {
            let dir = paths::components(file).drop_last();
            let package = if dir.len() >= root.len() {
                dir.skip(root.len() as int)
            } else {
                dir
            };
            paths::canonical(
                paths::joined(paths::render(root.take(root.len() - 3)), paths::render(package)),
            )
        },
        None => paths::directory_of(file),
    }
}

/// The package of a Java file, as the path `<module>/<package>`.
pub fn package_of(file: &str) -> (r: String)
    ensures
        r@ == java_package(file@),
{
    match root_of(file) {
        Some(root) => {
            let parts = parts_of(file);
            let ghost all = text::views(parts@);
            proof {
                lemma_root_within(all, all.len() as int);
                assert(text::views(root@).len() == root@.len());
                assert(all.len() == parts@.len());
            }
            let n: usize = parts.len() - 1;
            let package = if n >= root.len() {
                assert(all.subrange(root@.len() as int, n as int) =~= all.drop_last().skip(
                    root@.len() as int,
                ));
                parts_between(&parts, root.len(), n)
            } else {
                assert(all.subrange(0, n as int) =~= all.drop_last());
                parts_between(&parts, 0, n)
            };
            let module = first_parts(&root, root.len() - 3);
            canonical_path(
                join_path(render_parts(&module).as_str(), render_parts(&package).as_str()).as_str(),
            )
        },
        None => paths::directory(file),
    }
}

/// How far below the top source roots are looked for.
pub const MAX_ROOT_SCAN_DEPTH: usize = 8;

/// Is the directory at `path` itself a source root?
pub open spec fn is_source_root(path: Seq<char>) -> bool {
    match root_parts(paths::joined(path, "X.java"@)) {
        Some(parts) => parts == paths::components(path),
        None => false,
    }
}

fn is_root(path: &str) -> (r: bool)
    ensures
        r == is_source_root(path@),
{
    match root_of(join_path(path, "X.java").as_str()) {
        Some(parts) => text::same_all(&parts, &parts_of(path)),
        None => false,
    }
}

/// The source roots in the directories `ds` at `rel`, `depth` below the top,
/// each with its path. Below a source root there is no other.
pub open spec fn roots_in(ds: Seq<DirView>, rel: Seq<char>, depth: nat) -> Seq<
    (Seq<char>, DirView),
>
    decreases ds,
{
    if ds.len() == 0 || depth > MAX_ROOT_SCAN_DEPTH {
        Seq::empty()
    } else {
        let before = roots_in(ds.drop_last(), rel, depth);
        let d = ds.last();
        let path = paths::joined(rel, d.name);
        if is_skipped(d.name) {
            before
        } else if is_source_root(path) {
            before.push((path, d))
        } else {
            before + roots_in(d.dirs, path, depth + 1)
        }
    }
}

/// `root` put into the ordered `roots`, behind those that do not come after.
pub open spec fn placed(roots: Seq<(Seq<char>, DirView)>, root: (Seq<char>, DirView)) -> Seq<
    (Seq<char>, DirView),
>
    decreases roots.len(),
{
    if roots.len() > 0 && paths::path_precedes(root.0, roots.last().0) {
        placed(roots.drop_last(), root).push(roots.last())
    } else {
        roots.push(root)
    }
}

/// The roots ordered by path.
pub open spec fn ordered(roots: Seq<(Seq<char>, DirView)>) -> Seq<(Seq<char>, DirView)>
    decreases roots.len(),
{
    if roots.len() == 0 {
        Seq::empty()
    } else {
        placed(ordered(roots.drop_last()), roots.last())
    }
}

/// What is filed: names with the paths they are filed under, in order.
#[verifier::ext_equal]
pub struct Filed {
    /// `com/foo/Calc` and the file that declares it.
    pub classes: Seq<(Seq<char>, Seq<char>)>,
    /// `com/foo` and the directory that holds it.
    pub packages: Seq<(Seq<char>, Seq<char>)>,
}

impl Filed {
    pub open spec fn none() -> Filed {
        Filed { classes: Seq::empty(), packages: Seq::empty() }
    }

    /// This and then that.
    pub open spec fn plus(self, other: Filed) -> Filed {
        Filed {
            classes: self.classes + other.classes,
            packages: self.packages + other.packages,
        }
    }
}

/// The types that the `files` of package `pkg` in the root `root` declare.
pub open spec fn types_of(files: Seq<Seq<char>>, root: Seq<char>, pkg: Seq<char>) -> Seq<
    (Seq<char>, Seq<char>),
>
    decreases files.len(),
{
    if files.len() == 0 {
        Seq::empty()
    } else {
        let before = types_of(files.drop_last(), root, pkg);
        match text::without_suffix(files.last(), ".java"@) {
            Some(stem) => before.push(
                (
                    paths::canonical(paths::joined(pkg, stem)),
                    paths::joined(paths::joined(root, pkg), files.last()),
                ),
            ),
            None => before,
        }
    }
}

/// What is filed for the package `pkg` in `root`, which is the directory
/// `d`, and for the packages below it.
pub open spec fn filed_of(d: DirView, root: Seq<char>, pkg: Seq<char>) -> Filed
    decreases d,
{
    let types = types_of(d.files, root, pkg);
    let own = Filed {
        classes: types,
        packages: if types.len() > 0 {
            seq![(paths::canonical(pkg), paths::joined(root, pkg))]
        } else {
            Seq::empty()
        },
    };
    own.plus(filed_in(d.dirs, root, pkg))
}

/// What is filed for the packages in the directories `ds` of package `pkg`.
pub open spec fn filed_in(ds: Seq<DirView>, root: Seq<char>, pkg: Seq<char>) -> Filed
    decreases ds,
{
    if ds.len() == 0 {
        Filed::none()
    } else {
        let before = filed_in(ds.drop_last(), root, pkg);
        let d = ds.last();
        if is_skipped(d.name) {
            before
        } else {
            before.plus(filed_of(d, root, paths::joined(pkg, d.name)))
        }
    }
}

/// What is filed for the source roots `roots`.
pub open spec fn filed_for(roots: Seq<(Seq<char>, DirView)>) -> Filed
    decreases roots.len(),
{
    if roots.len() == 0 {
        Filed::none()
    } else {
        filed_for(roots.drop_last()).plus(filed_of(roots.last().1, roots.last().0, Seq::empty()))
    }
}

/// What is filed for a repository.
pub open spec fn filed_in_repo(top: DirView) -> Filed {
    filed_for(ordered(roots_in(top.dirs, Seq::empty(), 0)))
}

/// The paths filed under `name`, in order.
pub open spec fn under(entries: Seq<(Seq<char>, Seq<char>)>, name: Seq<char>) -> Seq<Seq<char>>
    decreases entries.len(),
{
    if entries.len() == 0 {
        Seq::empty()
    } else {
        let before = under(entries.drop_last(), name);
        if entries.last().0 == name {
            before.push(entries.last().1)
        } else {
            before
        }
    }
}

/// The types and packages that a repository declares.
pub struct RepoIndex {
    pub classes: NameLists<String>,
    pub packages: NameLists<String>,
}

impl RepoIndex {
    /// The files that declare the type whose name, written as a path, is
    /// `key`.
    pub open spec fn class_files(&self, key: Seq<char>) -> Seq<Seq<char>> {
        text::views(self.classes.list(paths::canonical(key)))
    }

    /// The directories that hold the package whose name, written as a path,
    /// is `key`.
    pub open spec fn package_dirs(&self, key: Seq<char>) -> Seq<Seq<char>> {
        text::views(self.packages.list(paths::canonical(key)))
    }

    /// Does this hold what is filed?
    pub open spec fn holds(&self, f: Filed) -> bool {
        &&& self.classes.wf()
        &&& self.packages.wf()
        &&& forall|k: Seq<char>| #[trigger] text::views(self.classes.list(k)) == under(f.classes, k)
        &&& forall|k: Seq<char>| #[trigger]
            text::views(self.packages.list(k)) == under(f.packages, k)
    }
}

impl Dir {
    fn sub_count(&self) -> (n: usize)
        ensures
            n == self@.dirs.len(),
    {
        proof {
            lemma_dir_views(self.dirs@);
        }
        self.dirs.len()
    }

    fn sub(&self, i: usize) -> (r: &Dir)
        requires
            i < self@.dirs.len(),
        ensures
            r@ == self@.dirs[i as int],
            decreases_to!(self => r),
    {
        proof {
            lemma_dir_views(self.dirs@);
        }
        &self.dirs[i]
    }
}

/// What a list of source roots says.
spec fn root_views(v: Seq<(String, &Dir)>) -> Seq<(Seq<char>, DirView)> {
    v.map_values(|r: (String, &Dir)| (r.0@, r.1@))
}

/// Adds the source roots in `d`, which stands at `rel`, `depth` below the
/// top.
fn scan_dir<'a>(d: &'a Dir, rel: &str, depth: usize, out: &mut Vec<(String, &'a Dir)>)
    requires
        depth <= MAX_ROOT_SCAN_DEPTH + 1,
    ensures
        root_views(final(out)@) == root_views(old(out)@) + roots_in(d@.dirs, rel@, depth as nat),
    decreases d,
{
    let ghost was = root_views(out@);
    let ghost all = d@.dirs;
    if depth > MAX_ROOT_SCAN_DEPTH {
        assert(was + roots_in(all, rel@, depth as nat) =~= was);
        return;
    }
    let count: usize = d.sub_count();
    let mut i: usize = 0;
    assert(all.take(0) =~= Seq::empty());
    assert(was + roots_in(all.take(0), rel@, depth as nat) =~= was);
    while i < count
        invariant
            i <= count == all.len(),
            all == d@.dirs,
            depth <= MAX_ROOT_SCAN_DEPTH,
            root_views(out@) == was + roots_in(all.take(i as int), rel@, depth as nat),
        decreases count - i,
    {
        let c = d.sub(i);
        assert(all.take(i + 1).drop_last() =~= all.take(i as int));
        assert(all.take(i + 1).last() == c@);
        if !skipped(c.name.as_str()) {
            let path = join_path(rel, c.name.as_str());
            if is_root(path.as_str()) {
                let ghost before = out@;
                let ghost pv = path@;
                out.push((path, c));
                assert(root_views(out@) =~= root_views(before).push((pv, c@)));
            } else {
                scan_dir(c, path.as_str(), depth + 1, out);
            }
        }
        assert(root_views(out@) =~= was + roots_in(all.take(i + 1), rel@, depth as nat));
        i = i + 1;
    }
    assert(all.take(all.len() as int) =~= all);
}

/// Puts a source root into its place among the ordered `roots`.
fn place<'a>(roots: &mut Vec<(String, &'a Dir)>, path: String, d: &'a Dir)
    ensures
        root_views(final(roots)@) == placed(root_views(old(roots)@), (path@, d@)),
{
    let ghost was = root_views(roots@);
    let ghost root = (path@, d@);
    let mut k: usize = roots.len();
    assert(was.take(was.len() as int) =~= was);
    assert(placed(was, root) =~= placed(was.take(k as int), root) + was.skip(k as int));
    while k > 0 && path_before(path.as_str(), roots[k - 1].0.as_str())
        invariant
            k <= roots@.len() == was.len(),
            was == root_views(roots@),
            root == (path@, d@),
            placed(was, root) == placed(was.take(k as int), root) + was.skip(k as int),
        decreases k,
    {
        assert(was[k - 1] == (roots@[k - 1].0@, roots@[k - 1].1@));
        assert(was.take(k as int).drop_last() =~= was.take(k - 1));
        assert(was.take(k as int).last() == was[k - 1]);
        assert(placed(was, root) =~= placed(was.take(k - 1), root) + was.skip(k - 1));
        k = k - 1;
    }
    proof {
        if k > 0 {
            assert(was[k - 1] == (roots@[k - 1].0@, roots@[k - 1].1@));
            assert(was.take(k as int).last() == was[k - 1]);
        }
        assert(placed(was.take(k as int), root) == was.take(k as int).push(root));
    }
    roots.insert(k, (path, d));
    assert(root_views(roots@) =~= was.take(k as int).push(root) + was.skip(k as int));
}

/// The source roots of a repository, ordered by path.
fn scan_source_roots(top: &Dir) -> (r: Vec<(String, &Dir)>)
    ensures
        root_views(r@) == ordered(roots_in(top@.dirs, Seq::empty(), 0)),
{
    let mut found: Vec<(String, &Dir)> = Vec::new();
    assert(root_views(found@) =~= Seq::empty());
    proof {
        reveal_strlit("");
        assert(""@ =~= Seq::empty());
    }
    scan_dir(top, "", 0, &mut found);
    let ghost all = roots_in(top@.dirs, Seq::empty(), 0);
    assert(root_views(found@) =~= all);
    let mut out: Vec<(String, &Dir)> = Vec::new();
    let mut i: usize = 0;
    assert(root_views(out@) =~= Seq::empty());
    assert(all.take(0) =~= Seq::empty());
    while i < found.len()
        invariant
            i <= found@.len() == all.len(),
            root_views(found@) == all,
            root_views(out@) == ordered(all.take(i as int)),
        decreases found@.len() - i,
    {
        assert(all[i as int] == (found@[i as int].0@, found@[i as int].1@));
        assert(all.take(i + 1).drop_last() =~= all.take(i as int));
        place(&mut out, found[i].0.clone(), found[i].1);
        i = i + 1;
    }
    assert(all.take(all.len() as int) =~= all);
    out
}

/// Files `path` under `key` where what is filed so far is `entries`.
fn file_entry(lists: &mut NameLists<String>, key: &str, path: String, Ghost(entries): Ghost<
    Seq<(Seq<char>, Seq<char>)>,
>)
    requires
        old(lists).wf(),
        forall|k: Seq<char>| #[trigger] text::views(old(lists).list(k)) == under(entries, k),
    ensures
        final(lists).wf(),
        forall|k: Seq<char>| #[trigger]
            text::views(final(lists).list(k)) == under(entries.push((key@, path@)), k),
{
    let ghost was = *lists;
    let ghost pv = path@;
    lists.file(key, path);
    assert(entries.push((key@, pv)).drop_last() =~= entries);
    assert forall|k: Seq<char>| #[trigger]
        text::views(lists.list(k)) == under(entries.push((key@, pv)), k) by {
        assert(text::views(was.list(k)) == under(entries, k));
        if k == key@ {
            assert(text::views(lists.list(k)) =~= text::views(was.list(k)).push(pv));
        }
    }
}

/// Files the types of package `pkg` in `root`, which is the directory `d`,
/// and of the packages below it, behind what is filed so far.
fn collect_types(d: &Dir, root: &str, pkg: &str, index: &mut RepoIndex, Ghost(f): Ghost<Filed>)
    requires
        old(index).holds(f),
    ensures
        final(index).holds(f.plus(filed_of(d@, root@, pkg@))),
    decreases d,
{
    let ghost files = text::views(d.files@);
    let dir = join_path(root, pkg);
    let mut has_types: bool = false;
    let mut i: usize = 0;
    assert(files.take(0) =~= Seq::empty());
    assert(f.classes + types_of(files.take(0), root@, pkg@) =~= f.classes);
    while i < d.files.len()
        invariant
            i <= d.files@.len() == files.len(),
            files == text::views(d.files@),
            dir@ == paths::joined(root@, pkg@),
            index.holds(
                Filed {
                    classes: f.classes + types_of(files.take(i as int), root@, pkg@),
                    packages: f.packages,
                },
            ),
            has_types == (types_of(files.take(i as int), root@, pkg@).len() > 0),
        decreases d.files@.len() - i,
    {
        let name = d.files[i].as_str();
        let ghost so_far = f.classes + types_of(files.take(i as int), root@, pkg@);
        assert(files.take(i + 1).drop_last() =~= files.take(i as int));
        assert(files.take(i + 1).last() == name@);
        if let Some(stem) = cut_suffix(name, ".java") {
            has_types = true;
            let key = canonical_path(join_path(pkg, stem.as_str()).as_str());
            let path = join_path(dir.as_str(), name);
            let ghost entry = (key@, path@);
            file_entry(&mut index.classes, key.as_str(), path, Ghost(so_far));
            assert(so_far.push(entry) =~= f.classes + types_of(files.take(i + 1), root@, pkg@));
        }
        i = i + 1;
    }
    assert(files.take(files.len() as int) =~= files);
    let ghost types = types_of(files, root@, pkg@);
    let ghost own = Filed {
        classes: types,
        packages: if types.len() > 0 {
            seq![(paths::canonical(pkg@), paths::joined(root@, pkg@))]
        } else {
            Seq::empty()
        },
    };
    if has_types {
        let key = canonical_path(pkg);
        file_entry(&mut index.packages, key.as_str(), dir, Ghost(f.packages));
        assert(f.packages.push((paths::canonical(pkg@), paths::joined(root@, pkg@)))
            =~= f.packages + own.packages);
    } else {
        assert(f.packages + own.packages =~= f.packages);
    }
    let ghost mine = f.plus(own);
    assert(index.holds(mine));
    let ghost all = d@.dirs;
    let count: usize = d.sub_count();
    i = 0;
    assert(all.take(0) =~= Seq::empty());
    assert(mine.plus(filed_in(all.take(0), root@, pkg@)) =~= mine);
    while i < count
        invariant
            i <= count == all.len(),
            all == d@.dirs,
            index.holds(mine.plus(filed_in(all.take(i as int), root@, pkg@))),
        decreases count - i,
    {
        let c = d.sub(i);
        let ghost so_far = mine.plus(filed_in(all.take(i as int), root@, pkg@));
        assert(all.take(i + 1).drop_last() =~= all.take(i as int));
        assert(all.take(i + 1).last() == c@);
        if !skipped(c.name.as_str()) {
            let sub = join_path(pkg, c.name.as_str());
            collect_types(c, root, sub.as_str(), index, Ghost(so_far));
            assert(so_far.plus(filed_of(c@, root@, paths::joined(pkg@, c.name@))) =~= mine.plus(
                filed_in(all.take(i + 1), root@, pkg@),
            ));
        }
        i = i + 1;
    }
    assert(all.take(all.len() as int) =~= all);
    assert(mine.plus(filed_in(all, root@, pkg@)) =~= f.plus(filed_of(d@, root@, pkg@)));
}

impl RepoIndex {
    /// The index of a repository that declares nothing.
    pub fn new() -> (r: RepoIndex)
        ensures
            r.holds(Filed::none()),
    {
        let r = RepoIndex { classes: NameLists::new(), packages: NameLists::new() };
        assert forall|k: Seq<char>| #[trigger]
            text::views(r.classes.list(k)) == under(Filed::none().classes, k) by {
            assert(text::views(r.classes.list(k)) =~= Seq::empty());
        }
        assert forall|k: Seq<char>| #[trigger]
            text::views(r.packages.list(k)) == under(Filed::none().packages, k) by {
            assert(text::views(r.packages.list(k)) =~= Seq::empty());
        }
        r
    }

    /// The index of the repository whose top directory is `top`.
    pub fn of(top: &Dir) -> (r: RepoIndex)
        ensures
            r.holds(filed_in_repo(top@)),
    {
        let roots = scan_source_roots(top);
        let ghost all = root_views(roots@);
        let mut index = RepoIndex::new();
        let mut i: usize = 0;
        assert(all.take(0) =~= Seq::empty());
        proof {
            reveal_strlit("");
            assert(""@ =~= Seq::empty());
        }
        while i < roots.len()
            invariant
                i <= roots@.len() == all.len(),
                all == root_views(roots@),
                ""@ == Seq::<char>::empty(),
                index.holds(filed_for(all.take(i as int))),
            decreases roots@.len() - i,
        {
            assert(all.take(i + 1).drop_last() =~= all.take(i as int));
            assert(all[i as int] == (roots@[i as int].0@, roots@[i as int].1@));
            collect_types(
                roots[i].1,
                roots[i].0.as_str(),
                "",
                &mut index,
                Ghost(filed_for(all.take(i as int))),
            );
            i = i + 1;
        }
        assert(all.take(all.len() as int) =~= all);
        index
    }
}

/// How far a candidate is from what `from` would see: first of all it is in
/// another module, and then in no main root.
pub open spec fn distance(c: Seq<char>, from: Seq<char>) -> int {
    (if module_parts(from) is Some && module_parts(c) == module_parts(from) {
        0int
    } else {
        2
    }) + (if in_main_root(c) {
        0int
    } else {
        1
    })
}

/// The first of the nearest candidates.
pub open spec fn nearest(cs: Seq<Seq<char>>, from: Seq<char>) -> Option<Seq<char>>
    decreases cs.len(),
{
    if cs.len() == 0 {
        None
    } else {
        match nearest(cs.drop_last(), from) {
            Some(best) => if distance(cs.last(), from) < distance(best, from) {
                Some(cs.last())
            } else {
                Some(best)
            },
            None => Some(cs.last()),
        }
    }
}

fn distance_of(c: &str, from: &str) -> (r: u8)
    ensures
        r == distance(c@, from@),
{
    let near: bool = match (module_of(from), module_of(c)) {
        (Some(a), Some(b)) => text::same_all(&a, &b),
        _ => false,
    };
    let main: bool = is_main_root(c);
    if near {
        if main {
            0
        } else {
            1
        }
    } else {
        if main {
            2
        } else {
            3
        }
    }
}

/// Picks among the files or directories that declare one name: those in the
/// module of `from` first, then those in a main root, then the first.
pub fn pick(candidates: &Vec<String>, from: &str) -> (r: Option<String>)
    ensures
        text::opt_view(r) == nearest(text::views(candidates@), from@),
{
    let ghost all = text::views(candidates@);
    if candidates.len() == 0 {
        return None;
    }
    let mut best: usize = 0;
    let mut d: u8 = distance_of(candidates[0].as_str(), from);
    let mut i: usize = 1;
    assert(all.take(1).drop_last() =~= Seq::empty());
    assert(nearest(all.take(1).drop_last(), from@) is None);
    while i < candidates.len()
        invariant
            1 <= i <= candidates@.len() == all.len(),
            all == text::views(candidates@),
            best < candidates@.len(),
            d == distance(all[best as int], from@),
            nearest(all.take(i as int), from@) == Some(all[best as int]),
        decreases candidates@.len() - i,
    {
        let e: u8 = distance_of(candidates[i].as_str(), from);
        assert(all.take(i + 1).drop_last() =~= all.take(i as int));
        if e < d {
            best = i;
            d = e;
        }
        i = i + 1;
    }
    assert(all.take(all.len() as int) =~= all);
    Some(candidates[best].clone())
}

/// What is picked is a candidate, and none is nearer.
pub proof fn law_nearest_is_a_candidate(cs: Seq<Seq<char>>, from: Seq<char>)
    ensures
        nearest(cs, from) is Some <==> cs.len() > 0,
        nearest(cs, from) matches Some(c) ==> cs.contains(c) && forall|i: int|
            0 <= i < cs.len() ==> distance(c, from) <= distance(#[trigger] cs[i], from),
    decreases cs.len(),
{
    if cs.len() > 0 {
        let rest = cs.drop_last();
        law_nearest_is_a_candidate(rest, from);
        let c = nearest(cs, from).unwrap();
        if rest.contains(c) {
            let i = choose|i: int| 0 <= i < rest.len() && rest[i] == c;
            assert(cs[i] == c);
        } else {
            assert(cs[cs.len() - 1] == c);
        }
        assert forall|i: int| 0 <= i < cs.len() implies distance(c, from) <= distance(
            #[trigger] cs[i],
            from,
        ) by {
            if i < rest.len() {
                assert(rest[i] == cs[i]);
            }
        }
    }
}

/// The path that the parts of a dotted name spell.
pub open spec fn spelled(parts: Seq<Seq<char>>) -> Seq<char>
    decreases parts.len(),
{
    if parts.len() == 0 {
        Seq::empty()
    } else {
        paths::joined(spelled(parts.drop_last()), parts.last())
    }
}

/// What the import `raw` of the file `from` names. A name with `.*` behind
/// it is a package; any other is a type, or else a package, or else a member
/// of the type before its last dot.
pub open spec fn named_by(
    index: RepoIndex,
    from: Seq<char>,
    raw: Seq<char>,
) -> Option<Seq<char>> {
    let name = text::trim(raw);
    let whole = text::without_suffix(name, ".*"@);
    let dotted = match whole {
        Some(n) => n,
        None => name,
    };
    let path = spelled(text::split(dotted, '.'));
    let as_package = nearest(index.package_dirs(path), from);
    if dotted.len() == 0 {
        None
    } else if whole is Some {
        as_package
    } else {
        match nearest(index.class_files(path), from) {
            Some(file) => Some(file),
            None => match as_package {
                Some(dir) => Some(dir),
                None => match paths::parent_of(path) {
                    Some(owner) => nearest(index.class_files(owner), from),
                    None => None,
                },
            },
        }
    }
}

fn pick_from(lists: &NameLists<String>, path: &str, from: &str) -> (r: Option<String>)
    ensures
        text::opt_view(r) == nearest(text::views(lists.list(paths::canonical(path@))), from@),
{
    let key = canonical_path(path);
    match lists.get(key.as_str()) {
        Some(v) => pick(v, from),
        None => {
            assert(text::views(lists.list(key@)) =~= Seq::empty());
            None
        },
    }
}

impl RepoIndex {
    /// What the import `raw` of the file `from` names.
    pub fn resolve(&self, from: &str, raw: &str) -> (r: Option<String>)
        ensures
            text::opt_view(r) == named_by(*self, from@, raw@),
    {
        let name = text::trimmed(raw);
        let (dotted, whole): (String, bool) = match cut_suffix(name.as_str(), ".*") {
            Some(n) => (n, true),
            None => (name, false),
        };
        if dotted.as_str().is_empty() {
            return None;
        }
        let parts = text::split_on(dotted.as_str(), '.');
        let ghost all = text::views(parts@);
        let mut path: String = String::new();
        let mut i: usize = 0;
        assert(all.take(0) =~= Seq::empty());
        while i < parts.len()
            invariant
                i <= parts@.len() == all.len(),
                all == text::views(parts@),
                path@ == spelled(all.take(i as int)),
            decreases parts@.len() - i,
        {
            assert(all.take(i + 1).drop_last() =~= all.take(i as int));
            path = join_path(path.as_str(), parts[i].as_str());
            i = i + 1;
        }
        assert(all.take(all.len() as int) =~= all);
        if whole {
            return pick_from(&self.packages, path.as_str(), from);
        }
        if let Some(hit) = pick_from(&self.classes, path.as_str(), from) {
            return Some(hit);
        }
        if let Some(hit) = pick_from(&self.packages, path.as_str(), from) {
            return Some(hit);
        }
        match paths::parent(path.as_str()) {
            Some(owner) => pick_from(&self.classes, owner.as_str(), from),
            None => None,
        }
    }
}

/// A class and its test in the parallel source root of one module are in one
/// package.
pub proof fn law_parallel_roots_share_packages(a: Seq<char>, b: Seq<char>)
    requires
        root_parts(a) matches Some(r) && root_parts(b) matches Some(s) && r.take(r.len() - 3)
            == s.take(s.len() - 3) && paths::components(a).len() > r.len() && paths::components(
            b,
        ).len() > s.len() && paths::components(a).drop_last().skip(r.len() as int)
            == paths::components(b).drop_last().skip(s.len() as int),
    ensures
        java_package(a) == java_package(b),
{
}

/// A file below `<module>/src/<set>/java` is in that module and, whatever the
/// set is, in the package that the directories behind name; the set `main` is
/// the main one.
pub proof fn law_source_roots_tell_modules_and_packages(
    path: Seq<char>,
    module: Seq<Seq<char>>,
    set: Seq<char>,
    package: Seq<Seq<char>>,
    file: Seq<char>,
)
    requires
        paths::components(path) == module + seq!["src"@, set, "java"@] + package.push(file),
        forall|i: int|
            module.len() + 2 < i < paths::components(path).len() ==> !((
            #[trigger] paths::components(path)[i]) == "java"@ && paths::components(path)[i - 2]
                == "src"@),
    ensures
        module_parts(path) == Some(module),
        root_parts(path) == Some(module + seq!["src"@, set, "java"@]),
        in_main_root(path) <==> set == "main"@,
        java_package(path) == paths::canonical(
            paths::joined(paths::render(module), paths::render(package)),
        ),
{
    let parts = paths::components(path);
    let root = module + seq!["src"@, set, "java"@];
    let n = root.len() as int;
    assert(parts[n - 1] == "java"@ && parts[n - 3] == "src"@);
    lemma_root_found(parts, n, parts.len() as int);
    assert(parts.take(n) =~= root);
    assert(root.take(n - 3) =~= module);
    assert(root[n - 2] == set);
    assert(parts.drop_last().skip(n) =~= package);
}

proof fn lemma_root_found(parts: Seq<Seq<char>>, n: int, k: int)
    requires
        0 < n <= k <= parts.len(),
        root_ends_at(parts, n - 1),
        forall|i: int|
            n - 1 < i < parts.len() ==> !((#[trigger] parts[i]) == "java"@ && parts[i - 2]
                == "src"@),
    ensures
        root_within(parts, k) == n,
    decreases k,
{
    if n < k {
        assert(!(parts[k - 1] == "java"@ && parts[k - 3] == "src"@));
        lemma_root_found(parts, n, k - 1);
    }
}

/// Of several candidates one in the module of the importing file is taken
/// where there is one, and of those alike in this one in a main root.
pub proof fn law_own_module_then_main_root(cs: Seq<Seq<char>>, from: Seq<char>, i: int)
    requires
        0 <= i < cs.len(),
    ensures
        nearest(cs, from) matches Some(c) && {
            &&& shares_module(cs[i], from) ==> shares_module(c, from)
            &&& shares_module(cs[i], from) == shares_module(c, from) && in_main_root(cs[i])
                ==> in_main_root(c)
        },
{
    law_nearest_is_a_candidate(cs, from);
    let c = nearest(cs, from).unwrap();
    assert(distance(c, from) <= distance(cs[i], from));
}

/// Do the two files stand in one build module?
pub open spec fn shares_module(a: Seq<char>, b: Seq<char>) -> bool {
    module_parts(b) is Some && module_parts(a) == module_parts(b)
}

/// Is this a directory that no scan goes into: one of build outputs or
/// dependencies, or one whose name begins with a dot?
pub open spec fn is_passed_over(name: Seq<char>) -> bool {
    ||| name == "target"@ || name == "build"@ || name == "out"@ || name == "bin"@
    ||| name == "node_modules"@
    ||| name.len() > 0 && name[0] == '.'
}

proof fn lemma_passed_over(name: Seq<char>)
    ensures
        is_passed_over(name) == is_skipped(name),
{
    reveal_strlit(".");
    reveal_strlit(".git");
    reveal_strlit(".gradle");
    reveal_strlit(".idea");
    assert(".git"@[0] == '.' && ".gradle"@[0] == '.' && ".idea"@[0] == '.');
    if text::starts_with(name, "."@) {
        assert(name.take(1)[0] == name[0]);
    }
    if name.len() > 0 && name[0] == '.' {
        assert(name.take(1) =~= "."@);
    }
}

/// Do the directories at these positions lead from `d` to another, with none
/// on the way that is passed over?
pub open spec fn leads_to_dir(d: DirView, way: Seq<int>) -> bool
    decreases way.len(),
{
    way.len() == 0 || (0 <= way[0] < d.dirs.len() && !is_passed_over(d.dirs[way[0]].name)
        && leads_to_dir(d.dirs[way[0]], way.skip(1)))
}

/// The directory that is led to.
pub open spec fn dir_at(d: DirView, way: Seq<int>) -> DirView
    decreases way.len(),
{
    if way.len() == 0 {
        d
    } else {
        dir_at(d.dirs[way[0]], way.skip(1))
    }
}

/// The path of that directory from `pkg`, the path of `d`.
pub open spec fn path_on(d: DirView, way: Seq<int>, pkg: Seq<char>) -> Seq<char>
    decreases way.len(),
{
    if way.len() == 0 {
        pkg
    } else {
        path_on(d.dirs[way[0]], way.skip(1), paths::joined(pkg, d.dirs[way[0]].name))
    }
}

/// Every Java file below a source root is filed under its package and the
/// name it has without `.java`, and the directory it stands in under the
/// package.
pub proof fn law_java_files_are_filed(
    d: DirView,
    root: Seq<char>,
    way: Seq<int>,
    i: int,
    stem: Seq<char>,
)
    requires
        leads_to_dir(d, way),
        0 <= i < dir_at(d, way).files.len(),
        dir_at(d, way).files[i] == stem + ".java"@,
    ensures
        ({
            let pkg = path_on(d, way, Seq::empty());
            let filed = filed_of(d, root, Seq::empty());
            &&& filed.classes.contains(
                (
                    paths::canonical(paths::joined(pkg, stem)),
                    paths::joined(paths::joined(root, pkg), stem + ".java"@),
                ),
            )
            &&& filed.packages.contains((paths::canonical(pkg), paths::joined(root, pkg)))
        }),
{
    lemma_filed(d, root, Seq::empty(), way, i, stem);
}

proof fn lemma_filed(
    d: DirView,
    root: Seq<char>,
    start: Seq<char>,
    way: Seq<int>,
    i: int,
    stem: Seq<char>,
)
    requires
        leads_to_dir(d, way),
        0 <= i < dir_at(d, way).files.len(),
        dir_at(d, way).files[i] == stem + ".java"@,
    ensures
        ({
            let pkg = path_on(d, way, start);
            let filed = filed_of(d, root, start);
            &&& filed.classes.contains(
                (
                    paths::canonical(paths::joined(pkg, stem)),
                    paths::joined(paths::joined(root, pkg), stem + ".java"@),
                ),
            )
            &&& filed.packages.contains((paths::canonical(pkg), paths::joined(root, pkg)))
        }),
    decreases way.len(),
{
    let pkg = path_on(d, way, start);
    let filed = filed_of(d, root, start);
    let class = (
        paths::canonical(paths::joined(pkg, stem)),
        paths::joined(paths::joined(root, pkg), stem + ".java"@),
    );
    let package = (paths::canonical(pkg), paths::joined(root, pkg));
    let types = types_of(d.files, root, start);
    let own = Filed {
        classes: types,
        packages: if types.len() > 0 {
            seq![(paths::canonical(start), paths::joined(root, start))]
        } else {
            Seq::empty()
        },
    };
    let rest = filed_in(d.dirs, root, start);
    if way.len() == 0 {
        lemma_type_filed(d.files, root, start, i, stem);
        let k = choose|k: int| 0 <= k < types.len() && types[k] == class;
        assert(own.packages[0] == package);
        lemma_filed_sum(own, rest, class, package);
    } else {
        let c = d.dirs[way[0]];
        let inner = paths::joined(start, c.name);
        lemma_filed(c, root, inner, way.skip(1), i, stem);
        lemma_passed_over(c.name);
        lemma_filed_among(d.dirs, root, start, way[0], class, package);
        lemma_filed_sum(own, rest, class, package);
    }
}

proof fn lemma_filed_sum(
    a: Filed,
    b: Filed,
    class: (Seq<char>, Seq<char>),
    package: (Seq<char>, Seq<char>),
)
    requires
        (a.classes.contains(class) && a.packages.contains(package)) || (b.classes.contains(class)
            && b.packages.contains(package)),
    ensures
        a.plus(b).classes.contains(class),
        a.plus(b).packages.contains(package),
{
    let sum = a.plus(b);
    if a.classes.contains(class) && a.packages.contains(package) {
        let i = choose|i: int| 0 <= i < a.classes.len() && a.classes[i] == class;
        let k = choose|k: int| 0 <= k < a.packages.len() && a.packages[k] == package;
        assert(sum.classes[i] == class);
        assert(sum.packages[k] == package);
    } else {
        let i = choose|i: int| 0 <= i < b.classes.len() && b.classes[i] == class;
        let k = choose|k: int| 0 <= k < b.packages.len() && b.packages[k] == package;
        assert(sum.classes[a.classes.len() + i] == class);
        assert(sum.packages[a.packages.len() + k] == package);
    }
}

proof fn lemma_filed_among(
    ds: Seq<DirView>,
    root: Seq<char>,
    pkg: Seq<char>,
    k: int,
    class: (Seq<char>, Seq<char>),
    package: (Seq<char>, Seq<char>),
)
    requires
        0 <= k < ds.len(),
        !is_skipped(ds[k].name),
        filed_of(ds[k], root, paths::joined(pkg, ds[k].name)).classes.contains(class),
        filed_of(ds[k], root, paths::joined(pkg, ds[k].name)).packages.contains(package),
    ensures
        filed_in(ds, root, pkg).classes.contains(class),
        filed_in(ds, root, pkg).packages.contains(package),
    decreases ds.len(),
{
    let before = filed_in(ds.drop_last(), root, pkg);
    let d = ds.last();
    if k < ds.len() - 1 {
        lemma_filed_among(ds.drop_last(), root, pkg, k, class, package);
    }
    if !is_skipped(d.name) {
        lemma_filed_sum(
            before,
            filed_of(d, root, paths::joined(pkg, d.name)),
            class,
            package,
        );
    }
}

proof fn lemma_type_filed(
    files: Seq<Seq<char>>,
    root: Seq<char>,
    pkg: Seq<char>,
    i: int,
    stem: Seq<char>,
)
    requires
        0 <= i < files.len(),
        files[i] == stem + ".java"@,
    ensures
        types_of(files, root, pkg).contains(
            (
                paths::canonical(paths::joined(pkg, stem)),
                paths::joined(paths::joined(root, pkg), stem + ".java"@),
            ),
        ),
    decreases files.len(),
{
    let entry = (
        paths::canonical(paths::joined(pkg, stem)),
        paths::joined(paths::joined(root, pkg), stem + ".java"@),
    );
    let before = types_of(files.drop_last(), root, pkg);
    let all = types_of(files, root, pkg);
    if i < files.len() - 1 {
        assert(files.drop_last()[i] == files[i]);
        lemma_type_filed(files.drop_last(), root, pkg, i, stem);
        let k = choose|k: int| 0 <= k < before.len() && before[k] == entry;
        assert(all[k] == entry);
    } else {
        reveal_strlit(".java");
        let f = files.last();
        assert(f.skip(f.len() - 5) =~= ".java"@);
        assert(f.take(f.len() - 5) =~= stem);
        assert(all[before.len() as int] == entry);
    }
}

} // verus!
