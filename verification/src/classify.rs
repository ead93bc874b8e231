//! From changed files to seeds: the definitions whose change the walk starts
//! from, or the reason why everything has to run.
//!
//! The rules, the first that applies deciding:
//! 1. A changed configuration file runs everything.
//! 2. A deleted source file seeds the module inits of the other files of its
//!    package, and of every file whose imports mention it.
//! 3. A file of no known language seeds the module inits of every file whose
//!    imports mention it.
//! 4. An added source file seeds its tests and its module init.
//! 5. A modified or renamed source file seeds what changed between its old
//!    and its new extraction.
//! 6. Whatever could not be read or parsed runs everything.
use vstd::prelude::*;

use crate::cache;
use crate::cache::CachedExtraction;
use crate::diffdef;
use crate::diffdef::{diff_defs, ChangeView, DefChange};
use crate::gitio;
use crate::gitio::{ChangedFile, ChangedView, FileStatus, StatusView};
use crate::graph;
use crate::graph::{DefId, DefKind, FileId, FileNode, Graph};
use crate::language;
use crate::language::{Extraction, ExtractionView, Language, Registry};
use crate::paths;
use crate::syntax;
use crate::syntax::{parse_source, ParseFailure};
use crate::text;
use crate::text::{begins, cat, cat3, ends, occurs, same};

verus! {

/// What changed about a seed definition.
#[derive(Debug, Clone, Copy, PartialEq, Eq, Hash, Structural)]
pub enum SeedKind {
    Body,
    Signature,
    Added,
    ModuleInit,
}

/// A definition that changed, and how.
#[derive(Debug, Clone, Copy, PartialEq, Eq, Hash, Structural)]
pub struct Seed {
    pub def: DefId,
    pub kind: SeedKind,
}

/// What the changes come to: seeds to walk from, or a reason to run
/// everything.
#[derive(Debug, Clone, PartialEq, Eq)]
pub enum ChangeMode {
    Selection(Vec<Seed>),
    RunAll { reason: String },
}

/// What a [`ChangeMode`] says.
pub enum ModeView {
    Selection(Seq<Seed>),
    RunAll { reason: Seq<char> },
}

impl View for ChangeMode {
    type V = ModeView;

    open spec fn view(&self) -> ModeView {
        match self {
            ChangeMode::Selection(v) => ModeView::Selection(v@),
            ChangeMode::RunAll { reason } => ModeView::RunAll { reason: reason@ },
        }
    }
}

/// The file names that are configuration wherever they stand.
pub open spec fn exact_config_name(name: Seq<char>) -> bool {
    ||| name == "package.json"@
    ||| name == "package-lock.json"@
    ||| name == "pnpm-lock.yaml"@
    ||| name == "yarn.lock"@
    ||| name == "go.mod"@
    ||| name == "go.sum"@
    ||| name == "Cargo.toml"@
    ||| name == "Cargo.lock"@
}

/// Is the file at `path` configuration: one of the exact names,
/// `tsconfig*.json` or `.env*`, in whatever directory?
pub open spec fn config_file(path: Seq<char>) -> bool {
    match paths::base_name(path) {
        Some(name) => exact_config_name(name) || (text::starts_with(name, "tsconfig"@)
            && text::ends_with(name, ".json"@)) || text::starts_with(name, ".env"@),
        None => false,
    }
}

/// Is the file at `path` configuration?
pub fn is_config_file(path: &str) -> (r: bool)
    ensures
        r == config_file(path@),
{
    match paths::file_name(path) {
        Some(n) => {
            let name = n.as_str();
            same(name, "package.json") || same(name, "package-lock.json") || same(
                name,
                "pnpm-lock.yaml",
            ) || same(name, "yarn.lock") || same(name, "go.mod") || same(name, "go.sum") || same(
                name,
                "Cargo.toml",
            ) || same(name, "Cargo.lock") || (begins(name, "tsconfig") && ends(name, ".json"))
                || begins(name, ".env")
        },
        None => false,
    }
}

/// The configuration file that a change touches, under its new name or its
/// old one.
pub open spec fn config_in(c: ChangedView) -> Option<Seq<char>> {
    if config_file(c.path) {
        Some(c.path)
    } else {
        match c.status {
            StatusView::Renamed { old } => if config_file(old) {
                Some(old)
            } else {
                None
            },
            _ => None,
        }
    }
}

/// The first configuration file that the changes touch.
pub open spec fn first_config(changed: Seq<ChangedView>) -> Option<Seq<char>>
    decreases changed.len(),
{
    if changed.len() == 0 {
        None
    } else {
        match first_config(changed.drop_last()) {
            Some(p) => Some(p),
            None => config_in(changed.last()),
        }
    }
}

/// What is known of a file before the change.
#[derive(Debug)]
pub enum OldSide {
    /// It was parsed.
    Known(Extraction),
    /// There was no such file.
    Missing,
    /// It could not be read, and why.
    Unreadable(String),
    /// It could not be parsed, and why.
    Unparsed(ParseFailure),
}

/// What is known of a file after the change.
#[derive(Debug)]
pub enum NewSide {
    Known(Extraction),
    Unreadable(String),
    Unparsed(ParseFailure),
}

/// What is known of a file before and after the change.
#[derive(Debug)]
pub struct Sides {
    pub old: OldSide,
    pub new: NewSide,
}

/// What an [`OldSide`] says.
pub enum OldView {
    Known(ExtractionView),
    Missing,
    Unreadable(Seq<char>),
    Unparsed(ParseFailure),
}

/// What a [`NewSide`] says.
pub enum NewView {
    Known(ExtractionView),
    Unreadable(Seq<char>),
    Unparsed(ParseFailure),
}

impl View for OldSide {
    type V = OldView;

    open spec fn view(&self) -> OldView {
        match self {
            OldSide::Known(e) => OldView::Known(e@),
            OldSide::Missing => OldView::Missing,
            OldSide::Unreadable(s) => OldView::Unreadable(s@),
            OldSide::Unparsed(f) => OldView::Unparsed(*f),
        }
    }
}

impl View for NewSide {
    type V = NewView;

    open spec fn view(&self) -> NewView {
        match self {
            NewSide::Known(e) => NewView::Known(e@),
            NewSide::Unreadable(s) => NewView::Unreadable(s@),
            NewSide::Unparsed(f) => NewView::Unparsed(*f),
        }
    }
}

/// What the two sides of a list of files say.
pub open spec fn side_views(v: Seq<Sides>) -> Seq<(OldView, NewView)> {
    v.map_values(|s: Sides| (s.old@, s.new@))
}

/// Why the source at `path` has no tree.
pub open spec fn parse_reason(f: ParseFailure, path: Seq<char>) -> Seq<char> {
    match f {
        ParseFailure::Grammar => "setting grammar for "@ + path,
        ParseFailure::Source => "failed to parse "@ + path,
    }
}

fn parse_reason_of(f: ParseFailure, path: &str) -> (r: String)
    ensures
        r@ == parse_reason(f, path@),
{
    match f {
        ParseFailure::Grammar => cat("setting grammar for ", path),
        ParseFailure::Source => cat("failed to parse ", path),
    }
}

/// The file of the graph at `path`.
pub open spec fn file_at(files: Seq<FileNode>, path: Seq<char>) -> Option<FileId>
    decreases files.len(),
{
    if files.len() == 0 {
        None
    } else {
        match file_at(files.drop_last(), path) {
            Some(f) => Some(f),
            None => if paths::same_path(files.last().path@, path) {
                Some(FileId((files.len() - 1) as u32))
            } else {
                None
            },
        }
    }
}

proof fn lemma_file_at_prefix(files: Seq<FileNode>, path: Seq<char>, k: int)
    requires
        0 <= k <= files.len(),
        file_at(files.take(k), path) is Some,
    ensures
        file_at(files, path) == file_at(files.take(k), path),
    decreases files.len(),
{
    if k < files.len() {
        assert(files.drop_last().take(k) =~= files.take(k));
        lemma_file_at_prefix(files.drop_last(), path, k);
    } else {
        assert(files.take(k) =~= files);
    }
}

fn find_file_id(graph: &Graph, path: &str) -> (r: Option<FileId>)
    requires
        graph.wf(),
    ensures
        r == file_at(graph.files@, path@),
        r matches Some(f) ==> graph.has_file(f),
{
    let ghost files = graph.files@;
    let mut i: usize = 0;
    assert(files.take(0) =~= Seq::<FileNode>::empty());
    while i < graph.files.len()
        invariant
            graph.wf(),
            files == graph.files@,
            i <= files.len(),
            file_at(files.take(i as int), path@) is None,
        decreases files.len() - i,
    {
        assert(files.take(i + 1).drop_last() =~= files.take(i as int));
        assert(files.take(i + 1).last() == files[i as int]);
        if paths::is_same_path(graph.files[i].path.as_str(), path) {
            proof {
                lemma_file_at_prefix(files, path@, i + 1);
            }
            return Some(FileId(i as u32));
        }
        i = i + 1;
    }
    assert(files.take(files.len() as int) =~= files);
    None
}

/// The tests among `ids`, as added seeds.
pub open spec fn test_seeds(g: Graph, ids: Seq<DefId>) -> Seq<Seed>
    decreases ids.len(),
{
    if ids.len() == 0 {
        Seq::empty()
    } else {
        let before = test_seeds(g, ids.drop_last());
        if g.at(ids.last()).kind == DefKind::TestCase {
            before.push(Seed { def: ids.last(), kind: SeedKind::Added })
        } else {
            before
        }
    }
}

/// The module init of file `f` as a seed, when it has one.
pub open spec fn init_seed(g: Graph, f: FileId, kind: SeedKind) -> Seq<Seed> {
    match graph::init_of(g.defs@, f) {
        Some(m) => seq![Seed { def: m, kind }],
        None => Seq::empty(),
    }
}

/// What a new file seeds: its tests and its module init. Nothing referred to
/// its other definitions before.
pub open spec fn added_seeds(g: Graph, f: FileId) -> Seq<Seed> {
    test_seeds(g, graph::ids_in_file(g.defs@, f)) + init_seed(g, f, SeedKind::Added)
}

fn add_init_seed(graph: &Graph, f: FileId, kind: SeedKind, seeds: &mut Vec<Seed>)
    requires
        graph.wf(),
        graph.has_file(f),
    ensures
        final(seeds)@ == old(seeds)@ + init_seed(*graph, f, kind),
{
    if let Some(m) = graph.module_init(f) {
        seeds.push(Seed { def: m, kind });
    }
}

fn seed_added_file(graph: &Graph, f: FileId) -> (r: Vec<Seed>)
    requires
        graph.wf(),
        graph.has_file(f),
    ensures
        r@ == added_seeds(*graph, f),
{
    let ghost ids = graph::ids_in_file(graph.defs@, f);
    let defs = graph.defs_in_file(f);
    let mut seeds: Vec<Seed> = Vec::new();
    let mut i: usize = 0;
    assert(ids.take(0) =~= Seq::<DefId>::empty());
    while i < defs.len()
        invariant
            i <= defs@.len() == ids.len(),
            seeds@ == test_seeds(*graph, ids.take(i as int)),
            forall|k: int|
                0 <= k < defs@.len() ==> (#[trigger] defs@[k]).0 == ids[k] && *defs@[k].1
                    == graph.at(defs@[k].0),
        decreases defs@.len() - i,
    {
        assert(ids.take(i + 1).drop_last() =~= ids.take(i as int));
        assert(defs@[i as int].0 == ids[i as int]);
        if defs[i].1.kind == DefKind::TestCase {
            seeds.push(Seed { def: defs[i].0, kind: SeedKind::Added });
        }
        i = i + 1;
    }
    assert(ids.take(ids.len() as int) =~= ids);
    add_init_seed(graph, f, SeedKind::Added, &mut seeds);
    seeds
}

/// What one change of a definition in file `f` seeds. What is gone can only
/// be seeded through its file.
pub open spec fn change_seeds(g: Graph, f: FileId, c: ChangeView) -> Seq<Seed> {
    let ids = graph::ids_in_file(g.defs@, f);
    match c {
        ChangeView::BodyChanged { new_idx } => seq![
            Seed { def: ids[new_idx as int], kind: SeedKind::Body },
        ],
        ChangeView::SigChanged { new_idx } => seq![
            Seed { def: ids[new_idx as int], kind: SeedKind::Signature },
        ],
        ChangeView::Added { new_idx } => seq![
            Seed { def: ids[new_idx as int], kind: SeedKind::Added },
        ],
        ChangeView::ModuleInitChanged => init_seed(g, f, SeedKind::ModuleInit),
        ChangeView::Removed { .. } => init_seed(g, f, SeedKind::ModuleInit),
    }
}

/// What changes of definitions in file `f` seed, in order.
pub open spec fn diff_seeds(g: Graph, f: FileId, changes: Seq<ChangeView>) -> Seq<Seed>
    decreases changes.len(),
{
    if changes.len() == 0 {
        Seq::empty()
    } else {
        diff_seeds(g, f, changes.drop_last()) + change_seeds(g, f, changes.last())
    }
}

fn seed_changes(graph: &Graph, f: FileId, changes: &Vec<DefChange>) -> (r: Vec<Seed>)
    requires
        graph.wf(),
        graph.has_file(f),
        diffdef::indices_within(
            diffdef::change_views(changes@),
            graph::ids_in_file(graph.defs@, f).len() as int,
        ),
    ensures
        r@ == diff_seeds(*graph, f, diffdef::change_views(changes@)),
{
    let ghost ids = graph::ids_in_file(graph.defs@, f);
    let ghost all = diffdef::change_views(changes@);
    let defs = graph.defs_in_file(f);
    let mut seeds: Vec<Seed> = Vec::new();
    let mut i: usize = 0;
    assert(all.take(0) =~= Seq::<ChangeView>::empty());
    while i < changes.len()
        invariant
            graph.wf(),
            graph.has_file(f),
            i <= changes@.len(),
            all == diffdef::change_views(changes@),
            diffdef::indices_within(all, ids.len() as int),
            ids == graph::ids_in_file(graph.defs@, f),
            defs@.len() == ids.len(),
            forall|k: int| 0 <= k < defs@.len() ==> (#[trigger] defs@[k]).0 == ids[k],
            seeds@ == diff_seeds(*graph, f, all.take(i as int)),
        decreases changes@.len() - i,
    {
        let ghost was = seeds@;
        assert(all.take(i + 1).drop_last() =~= all.take(i as int));
        assert(all.take(i + 1).last() == all[i as int]);
        assert(all[i as int] == changes@[i as int]@);
        match &changes[i] {
            DefChange::BodyChanged { new_idx } => {
                assert(defs@[*new_idx as int].0 == ids[*new_idx as int]);
                seeds.push(Seed { def: defs[*new_idx].0, kind: SeedKind::Body });
            },
            DefChange::SigChanged { new_idx } => {
                assert(defs@[*new_idx as int].0 == ids[*new_idx as int]);
                seeds.push(Seed { def: defs[*new_idx].0, kind: SeedKind::Signature });
            },
            DefChange::Added { new_idx } => {
                assert(defs@[*new_idx as int].0 == ids[*new_idx as int]);
                seeds.push(Seed { def: defs[*new_idx].0, kind: SeedKind::Added });
            },
            DefChange::ModuleInitChanged => {
                add_init_seed(graph, f, SeedKind::ModuleInit, &mut seeds);
            },
            DefChange::Removed { .. } => {
                add_init_seed(graph, f, SeedKind::ModuleInit, &mut seeds);
            },
        }
        assert(seeds@ =~= was + change_seeds(*graph, f, all[i as int]));
        i = i + 1;
    }
    assert(all.take(all.len() as int) =~= all);
    seeds
}

/// Does file `node` belong to the package with key `key` of the language
/// `lang`?
pub open spec fn in_package<L: Language>(lang: L, node: FileNode, key: Option<Seq<char>>) -> bool {
    &&& node.lang@ == lang.spec_id()
    &&& match (key, lang.spec_package_key(node.path@)) {
        (Some(a), Some(b)) => paths::same_path(a, b),
        _ => false,
    }
}

/// The module inits of the first `k` files that belong to the package of
/// `path`.
pub open spec fn package_seeds<L: Language>(g: Graph, lang: L, path: Seq<char>, k: int) -> Seq<Seed>
    decreases k,
{
    if k <= 0 {
        Seq::empty()
    } else {
        let before = package_seeds(g, lang, path, k - 1);
        if in_package(lang, g.files@[k - 1], lang.spec_package_key(path)) {
            before + init_seed(g, FileId((k - 1) as u32), SeedKind::ModuleInit)
        } else {
            before
        }
    }
}

/// Do the two optional package keys name one package?
fn same_package(a: &Option<String>, b: &Option<String>) -> (r: bool)
    ensures
        r == (match (text::opt_view(*a), text::opt_view(*b)) {
            (Some(x), Some(y)) => paths::same_path(x, y),
            _ => false,
        }),
{
    match (a, b) {
        (Some(x), Some(y)) => paths::is_same_path(x.as_str(), y.as_str()),
        _ => false,
    }
}

fn seed_package<L: Language>(graph: &Graph, lang: &L, path: &str) -> (r: Vec<Seed>)
    requires
        graph.wf(),
    ensures
        r@ == package_seeds(*graph, *lang, path@, graph.files@.len() as int),
{
    let id = lang.id();
    let key = lang.package_key(path);
    let mut seeds: Vec<Seed> = Vec::new();
    let mut i: usize = 0;
    while i < graph.files.len()
        invariant
            graph.wf(),
            i <= graph.files@.len(),
            id@ == lang.spec_id(),
            text::opt_view(key) == lang.spec_package_key(path@),
            seeds@ == package_seeds(*graph, *lang, path@, i as int),
        decreases graph.files@.len() - i,
    {
        let node = &graph.files[i];
        if same(node.lang.as_str(), id.as_str()) {
            let other = lang.package_key(node.path.as_str());
            if same_package(&key, &other) {
                add_init_seed(graph, FileId(i as u32), SeedKind::ModuleInit, &mut seeds);
            }
        }
        i = i + 1;
    }
    seeds
}

/// What one changed file comes to: seeds, and whether the imports that
/// mention it are to be looked for; or a reason to run everything.
pub open spec fn per_file<L: Language>(
    g: Graph,
    langs: Seq<L>,
    c: ChangedView,
    old: OldView,
    new: NewView,
) -> Result<(Seq<Seed>, bool), Seq<char>> {
    match language::lang_for(langs, c.path) {
        None => Ok((Seq::empty(), true)),
        Some(lang) => if c.status is Deleted {
            Ok((package_seeds(g, lang, c.path, g.files@.len() as int), true))
        } else {
            match file_at(g.files@, c.path) {
                None => Err("indexed file missing from new graph: "@ + c.path),
                Some(f) => if c.status is Added {
                    Ok((added_seeds(g, f), false))
                } else {
                    changed_file(g, f, c, old, new)
                },
            }
        },
    }
}

/// The path that a modified or renamed file had before.
pub open spec fn old_path(c: ChangedView) -> Seq<char> {
    match c.status {
        StatusView::Renamed { old } => old,
        _ => c.path,
    }
}

/// What a modified or renamed source file comes to. One whose old content is
/// missing counts as added.
pub open spec fn changed_file(
    g: Graph,
    f: FileId,
    c: ChangedView,
    old: OldView,
    new: NewView,
) -> Result<(Seq<Seed>, bool), Seq<char>> {
    match old {
        OldView::Unreadable(e) => Err("reading old content of "@ + old_path(c) + ": "@ + e),
        OldView::Missing => Ok((added_seeds(g, f), false)),
        OldView::Unparsed(e) => Err(
            "parsing old content of "@ + old_path(c) + ": "@ + parse_reason(e, old_path(c)),
        ),
        OldView::Known(o) => match new {
            NewView::Unreadable(e) => Err("reading new content of "@ + c.path + ": "@ + e),
            NewView::Unparsed(e) => Err(
                "parsing new content of "@ + c.path + ": "@ + parse_reason(e, c.path),
            ),
            NewView::Known(n) => Ok((diff_seeds(g, f, diffdef::diff(o.defs, n.defs)), false)),
        },
    }
}

/// Does the graph list every definition of the file that is to be seeded? A
/// file that changed since it was indexed may have others.
pub open spec fn fits<L: Language>(
    g: Graph,
    langs: Seq<L>,
    c: ChangedView,
    old: OldView,
    new: NewView,
) -> bool {
    (language::lang_for(langs, c.path) is Some && (c.status is Modified || c.status is Renamed))
        ==> match (file_at(g.files@, c.path), old, new) {
        (Some(f), OldView::Known(o), NewView::Known(n)) => diffdef::indices_within(
            diffdef::diff(o.defs, n.defs),
            graph::ids_in_file(g.defs@, f).len() as int,
        ),
        _ => true,
    }
}

fn reason(a: &str, path: &str, e: &str) -> (r: String)
    ensures
        r@ == a@ + path@ + ": "@ + e@,
{
    let mut out = cat3(a, path, ": ");
    out.append(e);
    out
}

/// What a [`per_file`] result says.
pub open spec fn per_file_view(r: Result<(Vec<Seed>, bool), String>) -> Result<
    (Seq<Seed>, bool),
    Seq<char>,
> {
    match r {
        Ok((v, scan)) => Ok((v@, scan)),
        Err(e) => Err(e@),
    }
}

/// Does every change that is about a new definition name one of `n`?
fn are_within(changes: &Vec<DefChange>, n: usize) -> (r: bool)
    ensures
        r == diffdef::indices_within(diffdef::change_views(changes@), n as int),
{
    let ghost all = diffdef::change_views(changes@);
    let mut i: usize = 0;
    while i < changes.len()
        invariant
            i <= changes@.len() == all.len(),
            all == diffdef::change_views(changes@),
            forall|j: int|
                0 <= j < i ==> (diffdef::change_index(#[trigger] all[j]) matches Some(k) ==> k < n),
        decreases changes@.len() - i,
    {
        assert(all[i as int] == changes@[i as int]@);
        let within: bool = match &changes[i] {
            DefChange::Added { new_idx } => *new_idx < n,
            DefChange::BodyChanged { new_idx } => *new_idx < n,
            DefChange::SigChanged { new_idx } => *new_idx < n,
            DefChange::Removed { .. } => true,
            DefChange::ModuleInitChanged => true,
        };
        if !within {
            return false;
        }
        i = i + 1;
    }
    true
}

/// What one changed file comes to; nothing where the graph does not list a
/// definition of it that is to be seeded.
fn classify_one<L: Language>(
    graph: &Graph,
    registry: &Registry<L>,
    c: &ChangedFile,
    old: &OldSide,
    new: &NewSide,
) -> (r: Option<Result<(Vec<Seed>, bool), String>>)
    requires
        graph.wf(),
    ensures
        match r {
            Some(x) => fits(*graph, registry.langs@, c@, old@, new@) && per_file_view(x)
                == per_file(*graph, registry.langs@, c@, old@, new@),
            None => !fits(*graph, registry.langs@, c@, old@, new@),
        },
{
    let path = c.path.as_str();
    let lang = match registry.for_path(path) {
        Some(l) => l,
        None => {
            return Some(Ok((Vec::new(), true)));
        },
    };
    if let FileStatus::Deleted = &c.status {
        return Some(Ok((seed_package(graph, lang, path), true)));
    }
    let f = match find_file_id(graph, path) {
        Some(f) => f,
        None => {
            return Some(Err(cat("indexed file missing from new graph: ", path)));
        },
    };
    let before: &str = match &c.status {
        FileStatus::Added => {
            return Some(Ok((seed_added_file(graph, f), false)));
        },
        FileStatus::Renamed { old } => old.as_str(),
        _ => path,
    };
    let o = match old {
        OldSide::Unreadable(e) => {
            return Some(Err(reason("reading old content of ", before, e.as_str())));
        },
        OldSide::Missing => {
            return Some(Ok((seed_added_file(graph, f), false)));
        },
        OldSide::Unparsed(e) => {
            let why = parse_reason_of(*e, before);
            return Some(Err(reason("parsing old content of ", before, why.as_str())));
        },
        OldSide::Known(o) => o,
    };
    let n = match new {
        NewSide::Unreadable(e) => {
            return Some(Err(reason("reading new content of ", path, e.as_str())));
        },
        NewSide::Unparsed(e) => {
            let why = parse_reason_of(*e, path);
            return Some(Err(reason("parsing new content of ", path, why.as_str())));
        },
        NewSide::Known(n) => n,
    };
    let changes = diff_defs(o, n);
    if !are_within(&changes, graph.defs_in_file(f).len()) {
        return None;
    }
    Some(Ok((seed_changes(graph, f, &changes), false)))
}

/// What the first `k` changed files come to together: their seeds, and the
/// paths whose importers are to be looked for; or the first reason to run
/// everything.
pub open spec fn per_files<L: Language>(
    g: Graph,
    langs: Seq<L>,
    changed: Seq<ChangedView>,
    sides: Seq<(OldView, NewView)>,
    k: int,
) -> Result<(Seq<Seed>, Seq<Seq<char>>), Seq<char>>
    decreases k,
{
    if k <= 0 {
        Ok((Seq::empty(), Seq::empty()))
    } else {
        match per_files(g, langs, changed, sides, k - 1) {
            Err(e) => Err(e),
            Ok((seeds, scans)) => match per_file(
                g,
                langs,
                changed[k - 1],
                sides[k - 1].0,
                sides[k - 1].1,
            ) {
                Err(e) => Err(e),
                Ok((more, scan)) => Ok(
                    (
                        seeds + more,
                        if scan {
                            scans.push(changed[k - 1].path)
                        } else {
                            scans
                        },
                    ),
                ),
            },
        }
    }
}

/// Does the raw text of an import mention the file at `path`, by its name or
/// by its name without the extension?
pub open spec fn mentions(raw: Seq<char>, path: Seq<char>) -> bool {
    ||| (paths::base_name(path) matches Some(name) && text::occurs_in(raw, name))
    ||| (paths::stem_of(path) matches Some(stem) && text::occurs_in(raw, stem))
}

/// Does an import of the extraction mention one of the paths?
pub open spec fn mentions_any(e: ExtractionView, scans: Seq<Seq<char>>) -> bool {
    exists|i: int, j: int|
        0 <= i < e.imports.len() && 0 <= j < scans.len() && mentions(
            (#[trigger] e.imports[i]).raw,
            #[trigger] scans[j],
        )
}

/// The module inits of the files, among the first `k`, that mention one of
/// the paths.
pub open spec fn importer_seeds(
    g: Graph,
    extractions: Seq<(Seq<char>, Seq<u8>, ExtractionView)>,
    scans: Seq<Seq<char>>,
    k: int,
) -> Seq<Seed>
    decreases k,
{
    if k <= 0 {
        Seq::empty()
    } else {
        let before = importer_seeds(g, extractions, scans, k - 1);
        if mentions_any(extractions[k - 1].2, scans) {
            before + init_seed(g, FileId((k - 1) as u32), SeedKind::ModuleInit)
        } else {
            before
        }
    }
}

fn does_mention(raw: &str, path: &str) -> (r: bool)
    ensures
        r == mentions(raw@, path@),
{
    if let Some(name) = paths::file_name(path) {
        if occurs(raw, name.as_str()) {
            return true;
        }
    }
    if let Some(stem) = paths::file_stem(path) {
        if occurs(raw, stem.as_str()) {
            return true;
        }
    }
    false
}

fn mentions_one(e: &Extraction, scans: &Vec<String>) -> (r: bool)
    ensures
        r == mentions_any(e@, text::views(scans@)),
{
    let ghost paths_seen = text::views(scans@);
    let mut i: usize = 0;
    while i < e.imports.len()
        invariant
            i <= e.imports@.len(),
            paths_seen == text::views(scans@),
            forall|a: int, b: int|
                0 <= a < i && 0 <= b < paths_seen.len() ==> !mentions(
                    (#[trigger] e@.imports[a]).raw,
                    #[trigger] paths_seen[b],
                ),
        decreases e.imports@.len() - i,
    {
        assert(e@.imports[i as int] == e.imports@[i as int]@);
        let mut j: usize = 0;
        while j < scans.len()
            invariant
                i < e.imports@.len(),
                j <= scans@.len(),
                paths_seen == text::views(scans@),
                e@.imports[i as int] == e.imports@[i as int]@,
                forall|b: int|
                    0 <= b < j ==> !mentions(e@.imports[i as int].raw, #[trigger] paths_seen[b]),
            decreases scans@.len() - j,
        {
            assert(paths_seen[j as int] == scans@[j as int]@);
            if does_mention(e.imports[i].raw.as_str(), scans[j].as_str()) {
                assert(mentions(e@.imports[i as int].raw, paths_seen[j as int]));
                return true;
            }
            j = j + 1;
        }
        i = i + 1;
    }
    false
}

fn scan_importers(
    graph: &Graph,
    extractions: &Vec<CachedExtraction>,
    scans: &Vec<String>,
    seeds: &mut Vec<Seed>,
)
    requires
        graph.wf(),
        extractions@.len() <= graph.files@.len(),
    ensures
        final(seeds)@ == old(seeds)@ + importer_seeds(
            *graph,
            cache::cached_views(extractions@),
            text::views(scans@),
            extractions@.len() as int,
        ),
{
    let ghost was = seeds@;
    let ghost all = cache::cached_views(extractions@);
    let ghost paths_seen = text::views(scans@);
    let mut i: usize = 0;
    assert(was + importer_seeds(*graph, all, paths_seen, 0) =~= was);
    while i < extractions.len()
        invariant
            graph.wf(),
            i <= extractions@.len() <= graph.files@.len(),
            all == cache::cached_views(extractions@),
            paths_seen == text::views(scans@),
            seeds@ == was + importer_seeds(*graph, all, paths_seen, i as int),
        decreases extractions@.len() - i,
    {
        assert(all[i as int] == cache::cached_view(extractions@[i as int]));
        let ghost before = seeds@;
        if mentions_one(&extractions[i].2, scans) {
            add_init_seed(graph, FileId(i as u32), SeedKind::ModuleInit, seeds);
        }
        assert(seeds@ =~= was + importer_seeds(*graph, all, paths_seen, i + 1));
        i = i + 1;
    }
}

/// Each seed once, where it came first.
pub open spec fn distinct(seeds: Seq<Seed>) -> Seq<Seed>
    decreases seeds.len(),
{
    if seeds.len() == 0 {
        Seq::empty()
    } else {
        let before = distinct(seeds.drop_last());
        if before.contains(seeds.last()) {
            before
        } else {
            before.push(seeds.last())
        }
    }
}

fn dedup_seeds(seeds: &Vec<Seed>) -> (r: Vec<Seed>)
    ensures
        r@ == distinct(seeds@),
{
    let mut out: Vec<Seed> = Vec::new();
    let mut i: usize = 0;
    assert(seeds@.take(0) =~= Seq::<Seed>::empty());
    while i < seeds.len()
        invariant
            i <= seeds@.len(),
            out@ == distinct(seeds@.take(i as int)),
        decreases seeds@.len() - i,
    {
        assert(seeds@.take(i + 1).drop_last() =~= seeds@.take(i as int));
        let s = seeds[i];
        let mut known: bool = false;
        let mut j: usize = 0;
        while j < out.len()
            invariant
                j <= out@.len(),
                known <==> exists|k: int| 0 <= k < j && #[trigger] out@[k] == s,
            decreases out@.len() - j,
        {
            if out[j] == s {
                assert(out@[j as int] == s);
                known = true;
            }
            j = j + 1;
        }
        assert(known == out@.contains(s));
        if !known {
            out.push(s);
        }
        i = i + 1;
    }
    assert(seeds@.take(seeds@.len() as int) =~= seeds@);
    out
}

/// `distinct` keeps exactly the seeds there are, and none twice.
pub proof fn lemma_distinct(seeds: Seq<Seed>)
    ensures
        distinct(seeds).no_duplicates(),
        forall|s: Seed| #[trigger] distinct(seeds).contains(s) <==> seeds.contains(s),
    decreases seeds.len(),
{
    if seeds.len() > 0 {
        let rest = seeds.drop_last();
        lemma_distinct(rest);
        let before = distinct(rest);
        let now = distinct(seeds);
        assert forall|s: Seed| #[trigger] now.contains(s) <==> seeds.contains(s) by {
            if seeds.contains(s) {
                let k = choose|k: int| 0 <= k < seeds.len() && seeds[k] == s;
                if k < rest.len() {
                    assert(rest[k] == s);
                    assert(before.contains(s));
                    let j = choose|j: int| 0 <= j < before.len() && before[j] == s;
                    assert(now[j] == s);
                } else if before.contains(s) {
                    let j = choose|j: int| 0 <= j < before.len() && before[j] == s;
                    assert(now[j] == s);
                } else {
                    assert(now[now.len() - 1] == s);
                }
            }
            if now.contains(s) {
                let k = choose|k: int| 0 <= k < now.len() && now[k] == s;
                if k < before.len() {
                    assert(before[k] == s);
                    assert(before.contains(s));
                    assert(rest.contains(s));
                    let j = choose|j: int| 0 <= j < rest.len() && rest[j] == s;
                    assert(seeds[j] == s);
                } else {
                    assert(seeds[seeds.len() - 1] == s);
                }
            }
        }
        assert forall|i: int, j: int|
            0 <= i < now.len() && 0 <= j < now.len() && i != j implies now[i] != now[j] by {
            if i == now.len() - 1 && now.len() > before.len() {
                assert(now[j] == before[j]);
                assert(before.contains(before[j]));
            } else if j == now.len() - 1 && now.len() > before.len() {
                assert(now[i] == before[i]);
                assert(before.contains(before[i]));
            }
        }
    }
}

/// What the changes come to.
pub open spec fn mode<L: Language>(
    g: Graph,
    langs: Seq<L>,
    changed: Seq<ChangedView>,
    extractions: Seq<(Seq<char>, Seq<u8>, ExtractionView)>,
    sides: Seq<(OldView, NewView)>,
) -> ModeView {
    match first_config(changed) {
        Some(p) => ModeView::RunAll { reason: "config file changed: "@ + p },
        None => match per_files(g, langs, changed, sides, changed.len() as int) {
            Err(e) => ModeView::RunAll { reason: e },
            Ok((seeds, scans)) => ModeView::Selection(
                distinct(
                    seeds + importer_seeds(g, extractions, scans, extractions.len() as int),
                ),
            ),
        },
    }
}

/// Does the graph list every definition that is to be seeded? Only the files
/// in front of the first reason to run everything are looked into.
pub open spec fn all_fit<L: Language>(
    g: Graph,
    langs: Seq<L>,
    changed: Seq<ChangedView>,
    sides: Seq<(OldView, NewView)>,
) -> bool {
    first_config(changed) is None ==> forall|i: int|
        0 <= i < changed.len() && per_files(g, langs, changed, sides, i) is Ok ==> fits(
            g,
            langs,
            #[trigger] changed[i],
            sides[i].0,
            sides[i].1,
        )
}

fn find_config(changed: &Vec<ChangedFile>) -> (r: Option<String>)
    ensures
        text::opt_view(r) == first_config(gitio::changed_views(changed@)),
{
    let ghost all = gitio::changed_views(changed@);
    let mut i: usize = 0;
    assert(all.take(0) =~= Seq::<ChangedView>::empty());
    while i < changed.len()
        invariant
            i <= changed@.len(),
            all == gitio::changed_views(changed@),
            first_config(all.take(i as int)) is None,
        decreases changed@.len() - i,
    {
        assert(all.take(i + 1).drop_last() =~= all.take(i as int));
        assert(all.take(i + 1).last() == changed@[i as int]@);
        let hit: Option<String> = if is_config_file(changed[i].path.as_str()) {
            Some(changed[i].path.clone())
        } else {
            match &changed[i].status {
                FileStatus::Renamed { old } => if is_config_file(old.as_str()) {
                    Some(old.clone())
                } else {
                    None
                },
                _ => None,
            }
        };
        assert(text::opt_view(hit) == config_in(changed@[i as int]@));
        if hit.is_some() {
            proof {
                lemma_first_config_prefix(all, i + 1);
            }
            return hit;
        }
        i = i + 1;
    }
    assert(all.take(all.len() as int) =~= all);
    None
}

proof fn lemma_first_config_prefix(changed: Seq<ChangedView>, k: int)
    requires
        0 <= k <= changed.len(),
        first_config(changed.take(k)) is Some,
    ensures
        first_config(changed) == first_config(changed.take(k)),
    decreases changed.len(),
{
    if k < changed.len() {
        assert(changed.drop_last().take(k) =~= changed.take(k));
        lemma_first_config_prefix(changed.drop_last(), k);
    } else {
        assert(changed.take(k) =~= changed);
    }
}

proof fn lemma_per_files_fail<L: Language>(
    g: Graph,
    langs: Seq<L>,
    changed: Seq<ChangedView>,
    sides: Seq<(OldView, NewView)>,
    k: int,
    n: int,
)
    requires
        0 <= k <= n,
        per_files(g, langs, changed, sides, k) is Err,
    ensures
        per_files(g, langs, changed, sides, n) == per_files(g, langs, changed, sides, k),
    decreases n - k,
{
    if k < n {
        lemma_per_files_fail(g, langs, changed, sides, k, n - 1);
    }
}

/// What the changes come to, when what is known of each changed file before
/// and after the change is given; nothing where the graph does not list a
/// definition that is to be seeded.
pub fn classify_sides<L: Language>(
    graph: &Graph,
    registry: &Registry<L>,
    changed: &Vec<ChangedFile>,
    extractions: &Vec<CachedExtraction>,
    sides: &Vec<Sides>,
) -> (r: Option<ChangeMode>)
    requires
        graph.wf(),
        extractions@.len() <= graph.files@.len(),
        sides@.len() == changed@.len(),
    ensures
        ({
            let cv = gitio::changed_views(changed@);
            let sv = side_views(sides@);
            match r {
                Some(m) => all_fit(*graph, registry.langs@, cv, sv) && m@ == mode(
                    *graph,
                    registry.langs@,
                    cv,
                    cache::cached_views(extractions@),
                    sv,
                ),
                None => !all_fit(*graph, registry.langs@, cv, sv),
            }
        }),
{
    let ghost g = *graph;
    let ghost langs = registry.langs@;
    let ghost cv = gitio::changed_views(changed@);
    let ghost sv = side_views(sides@);
    if let Some(p) = find_config(changed) {
        return Some(ChangeMode::RunAll { reason: cat("config file changed: ", p.as_str()) });
    }
    let mut seeds: Vec<Seed> = Vec::new();
    let mut scans: Vec<String> = Vec::new();
    let mut i: usize = 0;
    assert(text::views(scans@) =~= Seq::<Seq<char>>::empty());
    while i < changed.len()
        invariant
            g == *graph,
            g.wf(),
            langs == registry.langs@,
            cv == gitio::changed_views(changed@),
            sv == side_views(sides@),
            sides@.len() == changed@.len() == cv.len(),
            forall|k: int| 0 <= k < i ==> fits(g, langs, #[trigger] cv[k], sv[k].0, sv[k].1),
            first_config(cv) is None,
            i <= changed@.len(),
            per_files(g, langs, cv, sv, i as int) == Ok::<
                (Seq<Seed>, Seq<Seq<char>>),
                Seq<char>,
            >((seeds@, text::views(scans@))),
        decreases changed@.len() - i,
    {
        assert(cv[i as int] == changed@[i as int]@);
        assert(sv[i as int] == (sides@[i as int].old@, sides@[i as int].new@));
        let side = &sides[i];
        match classify_one(graph, registry, &changed[i], &side.old, &side.new) {
            None => {
                assert(!fits(g, langs, cv[i as int], sv[i as int].0, sv[i as int].1));
                return None;
            },
            Some(Ok((more, scan))) => {
                let mut more = more;
                seeds.append(&mut more);
                if scan {
                    let ghost was = scans@;
                    let p = changed[i].path.clone();
                    scans.push(p);
                    assert(text::views(scans@) =~= text::views(was).push(p@));
                }
            },
            Some(Err(reason)) => {
                proof {
                    lemma_per_files_fail(g, langs, cv, sv, i + 1, cv.len() as int);
                    assert forall|k: int|
                        0 <= k < cv.len() && per_files(g, langs, cv, sv, k) is Ok implies fits(
                        g,
                        langs,
                        #[trigger] cv[k],
                        sv[k].0,
                        sv[k].1,
                    ) by {
                        if k > i {
                            lemma_per_files_fail(g, langs, cv, sv, i + 1, k);
                        }
                    }
                }
                return Some(ChangeMode::RunAll { reason });
            },
        }
        i = i + 1;
    }
    scan_importers(graph, extractions, &scans, &mut seeds);
    Some(ChangeMode::Selection(dedup_seeds(&seeds)))
}

/// A file's content before the change, as it was read.
#[derive(Debug)]
pub enum OldSource {
    Text(String),
    Missing,
    Unreadable(String),
}

/// A file's content after the change, as it was read.
#[derive(Debug)]
pub enum NewSource {
    Text(String),
    Unreadable(String),
}

/// A file's content before and after the change.
#[derive(Debug)]
pub struct Sources {
    pub old: OldSource,
    pub new: NewSource,
}

/// What `lang` extracts from the source `src` of the file at `path`.
pub open spec fn extracted<L: Language>(lang: L, path: Seq<char>, src: Seq<char>) -> Result<
    ExtractionView,
    ParseFailure,
> {
    match syntax::parsed(syntax::parse_result(lang.spec_grammar(path), src), src) {
        Ok(tree) => Ok(lang.spec_extract(tree)),
        Err(e) => Err(e),
    }
}

/// What the result of an extraction says.
pub open spec fn extraction_view(r: Result<Extraction, ParseFailure>) -> Result<
    ExtractionView,
    ParseFailure,
> {
    match r {
        Ok(e) => Ok(e@),
        Err(f) => Err(f),
    }
}

/// Parses the source of the file at `path` and extracts what it holds.
pub fn parse_and_extract<L: Language>(lang: &L, path: &str, src: &str) -> (r: Result<
    Extraction,
    ParseFailure,
>)
    ensures
        extraction_view(r) == extracted(*lang, path@, src@),
        r matches Ok(e) ==> e@.wf(),
{
    match parse_source(lang.grammar(path), src) {
        Ok(tree) => Ok(lang.extract(&tree)),
        Err(e) => Err(e),
    }
}

/// Is what changed inside the file looked at: is it a modified or renamed
/// source file?
pub open spec fn looked_into<L: Language>(langs: Seq<L>, c: ChangedView) -> bool {
    language::lang_for(langs, c.path) is Some && (c.status is Modified || c.status is Renamed)
}

/// What is known of a changed file, from its sources. A file that is not
/// looked into counts as unknown.
pub open spec fn sides_of<L: Language>(langs: Seq<L>, c: ChangedView, src: Sources) -> (
    OldView,
    NewView,
) {
    match language::lang_for(langs, c.path) {
        Some(lang) => if c.status is Modified || c.status is Renamed {
            (
                match src.old {
                    OldSource::Missing => OldView::Missing,
                    OldSource::Unreadable(e) => OldView::Unreadable(e@),
                    OldSource::Text(t) => match extracted(lang, old_path(c), t@) {
                        Ok(e) => OldView::Known(e),
                        Err(f) => OldView::Unparsed(f),
                    },
                },
                match src.new {
                    NewSource::Unreadable(e) => NewView::Unreadable(e@),
                    NewSource::Text(t) => match extracted(lang, c.path, t@) {
                        Ok(e) => NewView::Known(e),
                        Err(f) => NewView::Unparsed(f),
                    },
                },
            )
        } else {
            (OldView::Missing, NewView::Unreadable(Seq::empty()))
        },
        None => (OldView::Missing, NewView::Unreadable(Seq::empty())),
    }
}

/// What is known of every changed file, from their sources.
pub open spec fn all_sides<L: Language>(
    langs: Seq<L>,
    changed: Seq<ChangedView>,
    sources: Seq<Sources>,
) -> Seq<(OldView, NewView)> {
    Seq::new(changed.len(), |i: int| sides_of(langs, changed[i], sources[i]))
}

/// The path whose content before the change is wanted, for a change that is
/// looked into; nothing for any other change.
pub fn wanted_old_path<L: Language>(registry: &Registry<L>, c: &ChangedFile) -> (r: Option<String>)
    ensures
        text::opt_view(r) == (if looked_into(registry.langs@, c@) {
            Some(old_path(c@))
        } else {
            None
        }),
{
    if registry.for_path(c.path.as_str()).is_none() {
        return None;
    }
    match &c.status {
        FileStatus::Modified => Some(c.path.clone()),
        FileStatus::Renamed { old } => Some(old.clone()),
        _ => None,
    }
}

fn find_sides<L: Language>(registry: &Registry<L>, c: &ChangedFile, src: &Sources) -> (r: Sides)
    ensures
        (r.old@, r.new@) == sides_of(registry.langs@, c@, *src),
{
    let path = c.path.as_str();
    let lang = match registry.for_path(path) {
        Some(l) => l,
        None => {
            return Sides { old: OldSide::Missing, new: NewSide::Unreadable(String::new()) };
        },
    };
    let before: &str = match &c.status {
        FileStatus::Modified => path,
        FileStatus::Renamed { old } => old.as_str(),
        _ => {
            return Sides { old: OldSide::Missing, new: NewSide::Unreadable(String::new()) };
        },
    };
    let old = match &src.old {
        OldSource::Missing => OldSide::Missing,
        OldSource::Unreadable(e) => OldSide::Unreadable(e.clone()),
        OldSource::Text(t) => match parse_and_extract(lang, before, t.as_str()) {
            Ok(e) => OldSide::Known(e),
            Err(f) => OldSide::Unparsed(f),
        },
    };
    let new = match &src.new {
        NewSource::Unreadable(e) => NewSide::Unreadable(e.clone()),
        NewSource::Text(t) => match parse_and_extract(lang, path, t.as_str()) {
            Ok(e) => NewSide::Known(e),
            Err(f) => NewSide::Unparsed(f),
        },
    };
    Sides { old, new }
}

/// What the changes come to, from the contents of the changed files before
/// and after the change, aligned with `changed`; `extractions` are those that
/// the graph was built from. Nothing where a file changed since it was
/// indexed so that the graph does not list a definition that is to be seeded.
pub fn classify<L: Language>(
    graph: &Graph,
    registry: &Registry<L>,
    changed: &Vec<ChangedFile>,
    extractions: &Vec<CachedExtraction>,
    sources: &Vec<Sources>,
) -> (r: Option<ChangeMode>)
    requires
        graph.wf(),
        extractions@.len() <= graph.files@.len(),
        sources@.len() == changed@.len(),
    ensures
        ({
            let cv = gitio::changed_views(changed@);
            let sides = all_sides(registry.langs@, cv, sources@);
            match r {
                Some(m) => all_fit(*graph, registry.langs@, cv, sides) && m@ == mode(
                    *graph,
                    registry.langs@,
                    cv,
                    cache::cached_views(extractions@),
                    sides,
                ) && (m@ matches ModeView::Selection(seeds) ==> crate::walk::seeds_in(
                    *graph,
                    seeds,
                )),
                None => !all_fit(*graph, registry.langs@, cv, sides),
            }
        }),
{
    let ghost cv = gitio::changed_views(changed@);
    let ghost langs = registry.langs@;
    let ghost wanted = all_sides(langs, cv, sources@);
    let mut sides: Vec<Sides> = Vec::new();
    let mut i: usize = 0;
    while i < changed.len()
        invariant
            cv == gitio::changed_views(changed@),
            langs == registry.langs@,
            wanted == all_sides(langs, cv, sources@),
            sources@.len() == changed@.len(),
            i <= changed@.len(),
            sides@.len() == i,
            forall|k: int|
                0 <= k < i ==> ((#[trigger] sides@[k]).old@, sides@[k].new@) == wanted[k],
        decreases changed@.len() - i,
    {
        assert(cv[i as int] == changed@[i as int]@);
        let s = find_sides(registry, &changed[i], &sources[i]);
        assert((s.old@, s.new@) == wanted[i as int]);
        sides.push(s);
        i = i + 1;
    }
    assert(side_views(sides@) =~= wanted);
    let r = classify_sides(graph, registry, changed, extractions, &sides);
    proof {
        if r is Some {
            law_selected_seeds_exist(*graph, langs, cv, cache::cached_views(extractions@), wanted);
        }
    }
    r
}

/// Every seed of a selection is a definition of the graph.
pub proof fn law_selected_seeds_exist<L: Language>(
    g: Graph,
    langs: Seq<L>,
    changed: Seq<ChangedView>,
    extractions: Seq<(Seq<char>, Seq<u8>, ExtractionView)>,
    sides: Seq<(OldView, NewView)>,
)
    requires
        g.wf(),
        sides.len() == changed.len(),
        all_fit(g, langs, changed, sides),
    ensures
        mode(g, langs, changed, extractions, sides) matches ModeView::Selection(seeds)
            ==> crate::walk::seeds_in(g, seeds),
{
    match per_files(g, langs, changed, sides, changed.len() as int) {
        Ok((seeds, scans)) if first_config(changed) is None => {
            lemma_per_files_exist(g, langs, changed, sides, changed.len() as int);
            lemma_importers_exist(g, extractions, scans, extractions.len() as int);
            let all = seeds + importer_seeds(g, extractions, scans, extractions.len() as int);
            lemma_distinct(all);
            let kept = distinct(all);
            assert forall|i: int| 0 <= i < kept.len() implies g.has_def(
                (#[trigger] kept[i]).def,
            ) by {
                assert(kept.contains(kept[i]));
                let k = choose|k: int| 0 <= k < all.len() && all[k] == kept[i];
                if k < seeds.len() {
                    assert(seeds[k] == kept[i]);
                } else {
                    assert(importer_seeds(g, extractions, scans, extractions.len() as int)[k
                        - seeds.len()] == kept[i]);
                }
            }
        },
        _ => {},
    }
}

proof fn lemma_init_exists(g: Graph, f: FileId, kind: SeedKind)
    requires
        g.wf(),
    ensures
        crate::walk::seeds_in(g, init_seed(g, f, kind)),
{
    graph::lemma_init_of(g.defs@, f);
}

proof fn lemma_importers_exist(
    g: Graph,
    extractions: Seq<(Seq<char>, Seq<u8>, ExtractionView)>,
    scans: Seq<Seq<char>>,
    k: int,
)
    requires
        g.wf(),
    ensures
        crate::walk::seeds_in(g, importer_seeds(g, extractions, scans, k)),
    decreases k,
{
    if k > 0 {
        lemma_importers_exist(g, extractions, scans, k - 1);
        lemma_init_exists(g, FileId((k - 1) as u32), SeedKind::ModuleInit);
    }
}

proof fn lemma_package_exist<L: Language>(g: Graph, lang: L, path: Seq<char>, k: int)
    requires
        g.wf(),
    ensures
        crate::walk::seeds_in(g, package_seeds(g, lang, path, k)),
    decreases k,
{
    if k > 0 {
        lemma_package_exist(g, lang, path, k - 1);
        lemma_init_exists(g, FileId((k - 1) as u32), SeedKind::ModuleInit);
    }
}

proof fn lemma_tests_exist(g: Graph, ids: Seq<DefId>)
    requires
        forall|i: int| 0 <= i < ids.len() ==> g.has_def(#[trigger] ids[i]),
    ensures
        crate::walk::seeds_in(g, test_seeds(g, ids)),
    decreases ids.len(),
{
    if ids.len() > 0 {
        assert forall|i: int| 0 <= i < ids.drop_last().len() implies g.has_def(
            #[trigger] ids.drop_last()[i],
        ) by {
            assert(ids.drop_last()[i] == ids[i]);
        }
        lemma_tests_exist(g, ids.drop_last());
        assert(g.has_def(ids[ids.len() - 1]));
    }
}

proof fn lemma_ids_exist(g: Graph, f: FileId)
    requires
        g.wf(),
    ensures
        forall|i: int|
            0 <= i < graph::ids_in_file(g.defs@, f).len() ==> g.has_def(
                #[trigger] graph::ids_in_file(g.defs@, f)[i],
            ),
{
    let ids = graph::ids_in_file(g.defs@, f);
    assert forall|i: int| 0 <= i < ids.len() implies g.has_def(#[trigger] ids[i]) by {
        assert(ids.contains(ids[i]));
        graph::lemma_ids_in_file(g.defs@, f, ids[i]);
    }
}

proof fn lemma_diff_seeds_exist(g: Graph, f: FileId, changes: Seq<ChangeView>)
    requires
        g.wf(),
        diffdef::indices_within(changes, graph::ids_in_file(g.defs@, f).len() as int),
    ensures
        crate::walk::seeds_in(g, diff_seeds(g, f, changes)),
    decreases changes.len(),
{
    if changes.len() > 0 {
        let rest = changes.drop_last();
        assert forall|i: int| 0 <= i < rest.len() implies (diffdef::change_index(
            #[trigger] rest[i],
        ) matches Some(k) ==> k < graph::ids_in_file(g.defs@, f).len()) by {
            assert(rest[i] == changes[i]);
        }
        lemma_diff_seeds_exist(g, f, rest);
        lemma_init_exists(g, f, SeedKind::ModuleInit);
        lemma_ids_exist(g, f);
        let c = changes[changes.len() - 1];
        assert(diffdef::change_index(c) matches Some(k) ==> k < graph::ids_in_file(
            g.defs@,
            f,
        ).len());
        match diffdef::change_index(c) {
            Some(k) => {
                assert(g.has_def(graph::ids_in_file(g.defs@, f)[k as int]));
            },
            None => {},
        }
    }
}

proof fn lemma_per_file_exist<L: Language>(
    g: Graph,
    langs: Seq<L>,
    c: ChangedView,
    old: OldView,
    new: NewView,
)
    requires
        g.wf(),
        fits(g, langs, c, old, new),
    ensures
        per_file(g, langs, c, old, new) matches Ok((seeds, _)) ==> crate::walk::seeds_in(
            g,
            seeds,
        ),
{
    if let Some(lang) = language::lang_for(langs, c.path) {
        lemma_package_exist(g, lang, c.path, g.files@.len() as int);
        if let Some(f) = file_at(g.files@, c.path) {
            lemma_ids_exist(g, f);
            lemma_tests_exist(g, graph::ids_in_file(g.defs@, f));
            lemma_init_exists(g, f, SeedKind::Added);
            match (old, new) {
                (OldView::Known(o), NewView::Known(n)) => {
                    if c.status is Modified || c.status is Renamed {
                        lemma_diff_seeds_exist(g, f, diffdef::diff(o.defs, n.defs));
                    }
                },
                _ => {},
            }
        }
    }
}

proof fn lemma_per_files_exist<L: Language>(
    g: Graph,
    langs: Seq<L>,
    changed: Seq<ChangedView>,
    sides: Seq<(OldView, NewView)>,
    k: int,
)
    requires
        g.wf(),
        0 <= k <= changed.len() == sides.len(),
        first_config(changed) is None,
        all_fit(g, langs, changed, sides),
    ensures
        per_files(g, langs, changed, sides, k) matches Ok((seeds, _)) ==> crate::walk::seeds_in(
            g,
            seeds,
        ),
    decreases k,
{
    if k > 0 {
        lemma_per_files_exist(g, langs, changed, sides, k - 1);
        if per_files(g, langs, changed, sides, k - 1) is Ok {
            assert(fits(g, langs, changed[k - 1], sides[k - 1].0, sides[k - 1].1));
            lemma_per_file_exist(g, langs, changed[k - 1], sides[k - 1].0, sides[k - 1].1);
        }
    }
}

/// A changed configuration file runs everything, whatever else changed and
/// wherever it stands among the changes.
pub proof fn law_config_change_runs_all<L: Language>(
    g: Graph,
    langs: Seq<L>,
    changed: Seq<ChangedView>,
    extractions: Seq<(Seq<char>, Seq<u8>, ExtractionView)>,
    sides: Seq<(OldView, NewView)>,
    i: int,
)
    requires
        0 <= i < changed.len(),
        config_in(changed[i]) is Some,
    ensures
        mode(g, langs, changed, extractions, sides) is RunAll,
{
    lemma_config_found(changed, i);
}

proof fn lemma_config_found(changed: Seq<ChangedView>, i: int)
    requires
        0 <= i < changed.len(),
        config_in(changed[i]) is Some,
    ensures
        first_config(changed) is Some,
    decreases changed.len(),
{
    if i < changed.len() - 1 {
        assert(changed.drop_last()[i] == changed[i]);
        lemma_config_found(changed.drop_last(), i);
    }
}

/// No seed is given twice.
pub proof fn law_selected_seeds_are_distinct<L: Language>(
    g: Graph,
    langs: Seq<L>,
    changed: Seq<ChangedView>,
    extractions: Seq<(Seq<char>, Seq<u8>, ExtractionView)>,
    sides: Seq<(OldView, NewView)>,
)
    ensures
        mode(g, langs, changed, extractions, sides) matches ModeView::Selection(seeds)
            ==> seeds.no_duplicates(),
{
    match per_files(g, langs, changed, sides, changed.len() as int) {
        Ok((seeds, scans)) => {
            lemma_distinct(
                seeds + importer_seeds(g, extractions, scans, extractions.len() as int),
            );
        },
        Err(_) => {},
    }
}

/// Every change of a definition in a modified or renamed source file is
/// seeded: what it seeds is among the seeds of the selection.
pub proof fn law_every_change_is_seeded<L: Language>(
    g: Graph,
    langs: Seq<L>,
    changed: Seq<ChangedView>,
    extractions: Seq<(Seq<char>, Seq<u8>, ExtractionView)>,
    sides: Seq<(OldView, NewView)>,
    i: int,
    o: ExtractionView,
    n: ExtractionView,
    f: FileId,
    c: ChangeView,
    seed: Seed,
)
    requires
        0 <= i < changed.len(),
        sides[i] == (OldView::Known(o), NewView::Known(n)),
        changed[i].status is Modified || changed[i].status is Renamed,
        language::lang_for(langs, changed[i].path) is Some,
        file_at(g.files@, changed[i].path) == Some(f),
        diffdef::diff(o.defs, n.defs).contains(c),
        change_seeds(g, f, c).contains(seed),
    ensures
        mode(g, langs, changed, extractions, sides) matches ModeView::Selection(seeds)
            ==> seeds.contains(seed),
{
    lemma_diff_seeds_hold(g, f, diffdef::diff(o.defs, n.defs), c, seed);
    lemma_per_files_hold(g, langs, changed, sides, changed.len() as int, i, seed);
    lemma_kept(g, langs, changed, extractions, sides, seed);
}

/// The tests of an added source file are seeded.
pub proof fn law_added_tests_are_seeded<L: Language>(
    g: Graph,
    langs: Seq<L>,
    changed: Seq<ChangedView>,
    extractions: Seq<(Seq<char>, Seq<u8>, ExtractionView)>,
    sides: Seq<(OldView, NewView)>,
    i: int,
    f: FileId,
    d: DefId,
)
    requires
        0 <= i < changed.len(),
        changed[i].status is Added,
        language::lang_for(langs, changed[i].path) is Some,
        file_at(g.files@, changed[i].path) == Some(f),
        graph::ids_in_file(g.defs@, f).contains(d),
        g.at(d).kind == DefKind::TestCase,
    ensures
        mode(g, langs, changed, extractions, sides) matches ModeView::Selection(seeds)
            ==> seeds.contains(Seed { def: d, kind: SeedKind::Added }),
{
    let seed = Seed { def: d, kind: SeedKind::Added };
    let ids = graph::ids_in_file(g.defs@, f);
    lemma_test_seeded(g, ids, d);
    let tests = test_seeds(g, ids);
    let at = choose|at: int| 0 <= at < tests.len() && tests[at] == seed;
    assert(added_seeds(g, f)[at] == seed);
    lemma_per_files_hold(g, langs, changed, sides, changed.len() as int, i, seed);
    lemma_kept(g, langs, changed, extractions, sides, seed);
}

/// A file that mentions a deleted source file, or a changed one of no known
/// language, in an import has its module init seeded.
pub proof fn law_importers_are_seeded<L: Language>(
    g: Graph,
    langs: Seq<L>,
    changed: Seq<ChangedView>,
    extractions: Seq<(Seq<char>, Seq<u8>, ExtractionView)>,
    sides: Seq<(OldView, NewView)>,
    i: int,
    k: int,
    j: int,
    m: DefId,
)
    requires
        0 <= i < changed.len(),
        language::lang_for(langs, changed[i].path) is None || changed[i].status is Deleted,
        0 <= k < extractions.len(),
        0 <= j < extractions[k].2.imports.len(),
        mentions(extractions[k].2.imports[j].raw, changed[i].path),
        graph::init_of(g.defs@, FileId(k as u32)) == Some(m),
    ensures
        mode(g, langs, changed, extractions, sides) matches ModeView::Selection(seeds)
            ==> seeds.contains(Seed { def: m, kind: SeedKind::ModuleInit }),
{
    let seed = Seed { def: m, kind: SeedKind::ModuleInit };
    lemma_scanned(g, langs, changed, sides, changed.len() as int, i);
    match per_files(g, langs, changed, sides, changed.len() as int) {
        Ok((seeds, scans)) => {
            let at = choose|at: int| 0 <= at < scans.len() && scans[at] == changed[i].path;
            assert(mentions(extractions[k].2.imports[j].raw, scans[at]));
            assert(mentions_any(extractions[k].2, scans));
            let own = init_seed(g, FileId(k as u32), SeedKind::ModuleInit);
            assert(own[0] == seed);
            lemma_importer_seeded(g, extractions, scans, extractions.len() as int, k, seed);
            let more = importer_seeds(g, extractions, scans, extractions.len() as int);
            let x = choose|x: int| 0 <= x < more.len() && more[x] == seed;
            let all = seeds + more;
            assert(all[seeds.len() + x] == seed);
            lemma_distinct(all);
            assert(all.contains(seed));
        },
        Err(_) => {},
    }
}

proof fn lemma_importer_seeded(
    g: Graph,
    extractions: Seq<(Seq<char>, Seq<u8>, ExtractionView)>,
    scans: Seq<Seq<char>>,
    n: int,
    k: int,
    seed: Seed,
)
    requires
        0 <= k < n <= extractions.len(),
        mentions_any(extractions[k].2, scans),
        init_seed(g, FileId(k as u32), SeedKind::ModuleInit).contains(seed),
    ensures
        importer_seeds(g, extractions, scans, n).contains(seed),
    decreases n,
{
    let now = importer_seeds(g, extractions, scans, n);
    let before = importer_seeds(g, extractions, scans, n - 1);
    if k < n - 1 {
        lemma_importer_seeded(g, extractions, scans, n - 1, k, seed);
        let at = choose|at: int| 0 <= at < before.len() && before[at] == seed;
        assert(now[at] == seed);
    } else {
        let own = init_seed(g, FileId(k as u32), SeedKind::ModuleInit);
        let at = choose|at: int| 0 <= at < own.len() && own[at] == seed;
        assert(now[before.len() + at] == seed);
    }
}

proof fn lemma_scanned<L: Language>(
    g: Graph,
    langs: Seq<L>,
    changed: Seq<ChangedView>,
    sides: Seq<(OldView, NewView)>,
    k: int,
    i: int,
)
    requires
        0 <= i < k <= changed.len(),
        language::lang_for(langs, changed[i].path) is None || changed[i].status is Deleted,
    ensures
        per_files(g, langs, changed, sides, k) matches Ok((_, scans)) ==> scans.contains(
            changed[i].path,
        ),
    decreases k,
{
    if i < k - 1 {
        lemma_scanned(g, langs, changed, sides, k - 1, i);
    }
    match (
        per_files(g, langs, changed, sides, k - 1),
        per_files(g, langs, changed, sides, k),
    ) {
        (Ok((_, before)), Ok((_, now))) => {
            if i < k - 1 {
                let at = choose|at: int| 0 <= at < before.len() && before[at] == changed[i].path;
                assert(now[at] == changed[i].path);
            } else {
                assert(now[now.len() - 1] == changed[i].path);
            }
        },
        _ => {},
    }
}

proof fn lemma_test_seeded(g: Graph, ids: Seq<DefId>, d: DefId)
    requires
        ids.contains(d),
        g.at(d).kind == DefKind::TestCase,
    ensures
        test_seeds(g, ids).contains(Seed { def: d, kind: SeedKind::Added }),
    decreases ids.len(),
{
    let seed = Seed { def: d, kind: SeedKind::Added };
    let at = choose|at: int| 0 <= at < ids.len() && ids[at] == d;
    let rest = ids.drop_last();
    let before = test_seeds(g, rest);
    let now = test_seeds(g, ids);
    if at < rest.len() {
        assert(rest[at] == d);
        lemma_test_seeded(g, rest, d);
        let x = choose|x: int| 0 <= x < before.len() && before[x] == seed;
        assert(now[x] == seed);
    } else {
        assert(now[now.len() - 1] == seed);
    }
}

proof fn lemma_diff_seeds_hold(
    g: Graph,
    f: FileId,
    changes: Seq<ChangeView>,
    c: ChangeView,
    seed: Seed,
)
    requires
        changes.contains(c),
        change_seeds(g, f, c).contains(seed),
    ensures
        diff_seeds(g, f, changes).contains(seed),
    decreases changes.len(),
{
    let at = choose|at: int| 0 <= at < changes.len() && changes[at] == c;
    let rest = changes.drop_last();
    let before = diff_seeds(g, f, rest);
    let now = diff_seeds(g, f, changes);
    if at < rest.len() {
        assert(rest[at] == c);
        lemma_diff_seeds_hold(g, f, rest, c, seed);
        let x = choose|x: int| 0 <= x < before.len() && before[x] == seed;
        assert(now[x] == seed);
    } else {
        let own = change_seeds(g, f, c);
        let x = choose|x: int| 0 <= x < own.len() && own[x] == seed;
        assert(now[before.len() + x] == seed);
    }
}

/// What one changed file seeds, the changed files seed together.
proof fn lemma_per_files_hold<L: Language>(
    g: Graph,
    langs: Seq<L>,
    changed: Seq<ChangedView>,
    sides: Seq<(OldView, NewView)>,
    k: int,
    i: int,
    seed: Seed,
)
    requires
        0 <= i < k <= changed.len(),
        per_file(g, langs, changed[i], sides[i].0, sides[i].1) matches Ok((own, _))
            && own.contains(seed),
    ensures
        per_files(g, langs, changed, sides, k) matches Ok((seeds, _)) ==> seeds.contains(seed),
    decreases k,
{
    if i < k - 1 {
        lemma_per_files_hold(g, langs, changed, sides, k - 1, i, seed);
    }
    match (
        per_files(g, langs, changed, sides, k - 1),
        per_file(g, langs, changed[k - 1], sides[k - 1].0, sides[k - 1].1),
    ) {
        (Ok((before, _)), Ok((own, _))) => {
            let now = before + own;
            if i < k - 1 {
                let x = choose|x: int| 0 <= x < before.len() && before[x] == seed;
                assert(now[x] == seed);
            } else {
                let x = choose|x: int| 0 <= x < own.len() && own[x] == seed;
                assert(now[before.len() + x] == seed);
            }
        },
        _ => {},
    }
}

/// A seed of the changed files is a seed of the selection.
proof fn lemma_kept<L: Language>(
    g: Graph,
    langs: Seq<L>,
    changed: Seq<ChangedView>,
    extractions: Seq<(Seq<char>, Seq<u8>, ExtractionView)>,
    sides: Seq<(OldView, NewView)>,
    seed: Seed,
)
    requires
        per_files(g, langs, changed, sides, changed.len() as int) matches Ok((seeds, _))
            ==> seeds.contains(seed),
    ensures
        mode(g, langs, changed, extractions, sides) matches ModeView::Selection(seeds)
            ==> seeds.contains(seed),
{
    match per_files(g, langs, changed, sides, changed.len() as int) {
        Ok((seeds, scans)) => {
            let all = seeds + importer_seeds(g, extractions, scans, extractions.len() as int);
            let x = choose|x: int| 0 <= x < seeds.len() && seeds[x] == seed;
            assert(all[x] == seed);
            lemma_distinct(all);
            assert(all.contains(seed));
        },
        Err(_) => {},
    }
}

/// A modified file whose definitions keep their keys, fingerprints and order
/// seeds nothing: an edit of comments or formatting selects no test.
pub proof fn law_same_fingerprints_seed_nothing<L: Language>(
    g: Graph,
    langs: Seq<L>,
    c: ChangedView,
    o: ExtractionView,
    n: ExtractionView,
)
    requires
        c.status is Modified || c.status is Renamed,
        language::lang_for(langs, c.path) is Some,
        file_at(g.files@, c.path) is Some,
        o.defs.len() == n.defs.len() <= usize::MAX,
        forall|i: int| 0 <= i < o.defs.len() ==> diffdef::unchanged(#[trigger] o.defs[i], n.defs[i]),
    ensures
        per_file(g, langs, c, OldView::Known(o), NewView::Known(n)) == Ok::<
            (Seq<Seed>, bool),
            Seq<char>,
        >((Seq::empty(), false)),
{
    diffdef::law_same_fingerprints_no_change(o.defs, n.defs);
}

/// A file of no known language whose name no import mentions seeds nothing.
pub proof fn law_unmentioned_file_seeds_nothing<L: Language>(
    g: Graph,
    langs: Seq<L>,
    c: ChangedView,
    extractions: Seq<(Seq<char>, Seq<u8>, ExtractionView)>,
    old: OldView,
    new: NewView,
)
    requires
        config_in(c) is None,
        language::lang_for(langs, c.path) is None,
        forall|k: int|
            0 <= k < extractions.len() ==> !mentions_any(#[trigger] extractions[k].2, seq![c.path]),
    ensures
        mode(g, langs, seq![c], extractions, seq![(old, new)]) == ModeView::Selection(
            Seq::<Seed>::empty(),
        ),
{
    let changed = seq![c];
    let sides = seq![(old, new)];
    assert(changed.drop_last() =~= Seq::<ChangedView>::empty());
    assert(first_config(changed.drop_last()) is None);
    assert(first_config(changed) is None);
    assert(per_files(g, langs, changed, sides, 0) == Ok::<
        (Seq<Seed>, Seq<Seq<char>>),
        Seq<char>,
    >((Seq::empty(), Seq::empty())));
    let scans = Seq::<Seq<char>>::empty().push(c.path);
    assert(scans =~= seq![c.path]);
    assert(Seq::<Seed>::empty() + Seq::<Seed>::empty() =~= Seq::<Seed>::empty());
    assert(per_files(g, langs, changed, sides, 1) == Ok::<
        (Seq<Seed>, Seq<Seq<char>>),
        Seq<char>,
    >((Seq::empty(), scans)));
    lemma_no_importers(g, extractions, scans, extractions.len() as int);
    assert(Seq::<Seed>::empty() + importer_seeds(g, extractions, scans, extractions.len() as int)
        =~= Seq::<Seed>::empty());
}

pub proof fn lemma_no_importers(
    g: Graph,
    extractions: Seq<(Seq<char>, Seq<u8>, ExtractionView)>,
    scans: Seq<Seq<char>>,
    k: int,
)
    requires
        0 <= k <= extractions.len(),
        forall|i: int| 0 <= i < extractions.len() ==> !mentions_any(#[trigger] extractions[i].2, scans),
    ensures
        importer_seeds(g, extractions, scans, k) == Seq::<Seed>::empty(),
    decreases k,
{
    if k > 0 {
        lemma_no_importers(g, extractions, scans, k - 1);
        assert(!mentions_any(extractions[k - 1].2, scans));
    }
}

/// The manifests and lock files that every test depends on are configuration,
/// and so are `tsconfig*.json` and `.env*`, in whatever directory they stand.
pub proof fn law_configuration_is_told_by_its_name(dir: Seq<char>, middle: Seq<char>)
    requires
        !middle.contains('/'),
    ensures
        config_file(dir + seq!['/'] + "package.json"@) && config_file("package.json"@),
        config_file(dir + seq!['/'] + "package-lock.json"@) && config_file("package-lock.json"@),
        config_file(dir + seq!['/'] + "pnpm-lock.yaml"@) && config_file("pnpm-lock.yaml"@),
        config_file(dir + seq!['/'] + "yarn.lock"@) && config_file("yarn.lock"@),
        config_file(dir + seq!['/'] + "go.mod"@) && config_file("go.mod"@),
        config_file(dir + seq!['/'] + "go.sum"@) && config_file("go.sum"@),
        config_file(dir + seq!['/'] + "Cargo.toml"@) && config_file("Cargo.toml"@),
        config_file(dir + seq!['/'] + "Cargo.lock"@) && config_file("Cargo.lock"@),
        config_file(dir + seq!['/'] + ("tsconfig"@ + middle + ".json"@)),
        config_file("tsconfig"@ + middle + ".json"@),
        config_file(dir + seq!['/'] + (".env"@ + middle)),
        config_file(".env"@ + middle),
{
    reveal_strlit("package.json");
    reveal_strlit("package-lock.json");
    reveal_strlit("pnpm-lock.yaml");
    reveal_strlit("yarn.lock");
    reveal_strlit("go.mod");
    reveal_strlit("go.sum");
    reveal_strlit("Cargo.toml");
    reveal_strlit("Cargo.lock");
    reveal_strlit("tsconfig");
    reveal_strlit(".json");
    reveal_strlit(".env");
    let ts = "tsconfig"@ + middle + ".json"@;
    let env = ".env"@ + middle;
    assert(!ts.contains('/')) by {
        if ts.contains('/') {
            let i = choose|i: int| 0 <= i < ts.len() && ts[i] == '/';
            if 8 <= i < 8 + middle.len() {
                assert(middle[i - 8] == '/');
            }
        }
    }
    assert(!env.contains('/')) by {
        if env.contains('/') {
            let i = choose|i: int| 0 <= i < env.len() && env[i] == '/';
            if 4 <= i {
                assert(middle[i - 4] == '/');
            }
        }
    }
    assert(ts[0] == 't' && env[1] == 'e');
    assert(ts.take(8) =~= "tsconfig"@);
    assert(ts.skip(ts.len() - 5) =~= ".json"@);
    assert(env.take(4) =~= ".env"@);
    assert(ts.len() > 2 && env.len() > 2);
    assert(seq!['.'].len() == 1 && seq!['.', '.'].len() == 2);
    paths::law_files_have_names(dir, ts);
    paths::law_files_have_names(dir, env);
    lemma_plain_name(dir, "package.json"@);
    lemma_plain_name(dir, "package-lock.json"@);
    lemma_plain_name(dir, "pnpm-lock.yaml"@);
    lemma_plain_name(dir, "yarn.lock"@);
    lemma_plain_name(dir, "go.mod"@);
    lemma_plain_name(dir, "go.sum"@);
    lemma_plain_name(dir, "Cargo.toml"@);
    lemma_plain_name(dir, "Cargo.lock"@);
}

proof fn lemma_plain_name(dir: Seq<char>, name: Seq<char>)
    requires
        name.len() > 2,
        forall|i: int| 0 <= i < name.len() ==> name[i] != '/',
    ensures
        paths::base_name(dir + seq!['/'] + name) == Some(name),
        paths::base_name(name) == Some(name),
{
    assert(seq!['.'].len() == 1 && seq!['.', '.'].len() == 2);
    paths::law_files_have_names(dir, name);
}

/// A file with another name is no configuration.
pub proof fn law_other_names_are_no_configuration(dir: Seq<char>, name: Seq<char>)
    requires
        paths::is_file_name(name),
        name != "package.json"@,
        name != "package-lock.json"@,
        name != "pnpm-lock.yaml"@,
        name != "yarn.lock"@,
        name != "go.mod"@,
        name != "go.sum"@,
        name != "Cargo.toml"@,
        name != "Cargo.lock"@,
        !(exists|middle: Seq<char>| name == #[trigger] ("tsconfig"@ + middle + ".json"@)),
        !(exists|rest: Seq<char>| name == #[trigger] (".env"@ + rest)),
    ensures
        !config_file(dir + seq!['/'] + name),
        !config_file(name),
{
    reveal_strlit("tsconfig");
    reveal_strlit(".json");
    reveal_strlit(".env");
    paths::law_files_have_names(dir, name);
    if text::starts_with(name, "tsconfig"@) && text::ends_with(name, ".json"@) {
        assert(name.len() >= 13) by {
            let end = name.skip(name.len() - 5);
            assert(end[0] == '.');
            assert(name[name.len() - 5] == '.');
            if name.len() < 13 {
                assert(name.take(8)[name.len() - 5] == name[name.len() - 5]);
            }
        }
        let middle = name.subrange(8, name.len() - 5);
        assert(name =~= "tsconfig"@ + middle + ".json"@) by {
            assert forall|i: int| 0 <= i < name.len() implies name[i] == ("tsconfig"@ + middle
                + ".json"@)[i] by {
                if i < 8 {
                    assert(name.take(8)[i] == name[i]);
                } else if i >= name.len() - 5 {
                    assert(name.skip(name.len() - 5)[i - (name.len() - 5)] == name[i]);
                }
            }
        }
    }
    if text::starts_with(name, ".env"@) {
        let rest = name.skip(4);
        assert(name =~= name.take(4) + rest);
        assert(name == ".env"@ + rest);
    }
}

/// What a change of a definition seeds, in a modified or renamed source file:
/// a changed body or signature and an addition seed the definition itself,
/// what was removed and loose code that changed seed the module init of the
/// file.
pub proof fn law_changes_name_their_seeds<L: Language>(
    g: Graph,
    langs: Seq<L>,
    changed: Seq<ChangedView>,
    extractions: Seq<(Seq<char>, Seq<u8>, ExtractionView)>,
    sides: Seq<(OldView, NewView)>,
    i: int,
    o: ExtractionView,
    n: ExtractionView,
    f: FileId,
)
    requires
        0 <= i < changed.len(),
        sides[i] == (OldView::Known(o), NewView::Known(n)),
        changed[i].status is Modified || changed[i].status is Renamed,
        language::lang_for(langs, changed[i].path) is Some,
        file_at(g.files@, changed[i].path) == Some(f),
    ensures
        mode(g, langs, changed, extractions, sides) matches ModeView::Selection(seeds) ==> {
            let changes = diffdef::diff(o.defs, n.defs);
            let ids = graph::ids_in_file(g.defs@, f);
            &&& forall|k: usize| #[trigger]
                changes.contains(ChangeView::BodyChanged { new_idx: k }) ==> seeds.contains(
                    Seed { def: ids[k as int], kind: SeedKind::Body },
                )
            &&& forall|k: usize| #[trigger]
                changes.contains(ChangeView::SigChanged { new_idx: k }) ==> seeds.contains(
                    Seed { def: ids[k as int], kind: SeedKind::Signature },
                )
            &&& forall|k: usize| #[trigger]
                changes.contains(ChangeView::Added { new_idx: k }) ==> seeds.contains(
                    Seed { def: ids[k as int], kind: SeedKind::Added },
                )
            &&& graph::init_of(g.defs@, f) matches Some(m) ==> {
                &&& changes.contains(ChangeView::ModuleInitChanged) ==> seeds.contains(
                    Seed { def: m, kind: SeedKind::ModuleInit },
                )
                &&& forall|name: Seq<char>, kind: DefKind| #[trigger]
                    changes.contains(ChangeView::Removed { old_name: name, old_kind: kind })
                        ==> seeds.contains(Seed { def: m, kind: SeedKind::ModuleInit })
            }
        },
{
    if let ModeView::Selection(seeds) = mode(g, langs, changed, extractions, sides) {
        let changes = diffdef::diff(o.defs, n.defs);
        let ids = graph::ids_in_file(g.defs@, f);
        assert forall|k: usize| #[trigger]
            changes.contains(ChangeView::BodyChanged { new_idx: k }) implies seeds.contains(
            Seed { def: ids[k as int], kind: SeedKind::Body },
        ) by {
            let c = ChangeView::BodyChanged { new_idx: k };
            let s = Seed { def: ids[k as int], kind: SeedKind::Body };
            assert(change_seeds(g, f, c)[0] == s);
            law_every_change_is_seeded(g, langs, changed, extractions, sides, i, o, n, f, c, s);
        }
        assert forall|k: usize| #[trigger]
            changes.contains(ChangeView::SigChanged { new_idx: k }) implies seeds.contains(
            Seed { def: ids[k as int], kind: SeedKind::Signature },
        ) by {
            let c = ChangeView::SigChanged { new_idx: k };
            let s = Seed { def: ids[k as int], kind: SeedKind::Signature };
            assert(change_seeds(g, f, c)[0] == s);
            law_every_change_is_seeded(g, langs, changed, extractions, sides, i, o, n, f, c, s);
        }
        assert forall|k: usize| #[trigger]
            changes.contains(ChangeView::Added { new_idx: k }) implies seeds.contains(
            Seed { def: ids[k as int], kind: SeedKind::Added },
        ) by {
            let c = ChangeView::Added { new_idx: k };
            let s = Seed { def: ids[k as int], kind: SeedKind::Added };
            assert(change_seeds(g, f, c)[0] == s);
            law_every_change_is_seeded(g, langs, changed, extractions, sides, i, o, n, f, c, s);
        }
        if let Some(m) = graph::init_of(g.defs@, f) {
            let s = Seed { def: m, kind: SeedKind::ModuleInit };
            if changes.contains(ChangeView::ModuleInitChanged) {
                let c = ChangeView::ModuleInitChanged;
                assert(change_seeds(g, f, c)[0] == s);
                law_every_change_is_seeded(g, langs, changed, extractions, sides, i, o, n, f, c, s);
            }
            assert forall|name: Seq<char>, kind: DefKind| #[trigger]
                changes.contains(
                    ChangeView::Removed { old_name: name, old_kind: kind },
                ) implies seeds.contains(s) by {
                let c = ChangeView::Removed { old_name: name, old_kind: kind };
                assert(change_seeds(g, f, c)[0] == s);
                law_every_change_is_seeded(g, langs, changed, extractions, sides, i, o, n, f, c, s);
            }
        }
    }
}

/// A definition that a modified or renamed file lost is not forgotten: the
/// module init of the file is seeded.
pub proof fn law_lost_definition_seeds_module_init<L: Language>(
    g: Graph,
    langs: Seq<L>,
    changed: Seq<ChangedView>,
    extractions: Seq<(Seq<char>, Seq<u8>, ExtractionView)>,
    sides: Seq<(OldView, NewView)>,
    i: int,
    o: ExtractionView,
    n: ExtractionView,
    f: FileId,
    x: int,
    m: DefId,
)
    requires
        0 <= i < changed.len(),
        sides[i] == (OldView::Known(o), NewView::Known(n)),
        changed[i].status is Modified || changed[i].status is Renamed,
        language::lang_for(langs, changed[i].path) is Some,
        file_at(g.files@, changed[i].path) == Some(f),
        0 <= x < o.defs.len() <= usize::MAX,
        !diffdef::has_key(n.defs, diffdef::key_of(o.defs[x])),
        graph::init_of(g.defs@, f) == Some(m),
    ensures
        mode(g, langs, changed, extractions, sides) matches ModeView::Selection(seeds)
            ==> seeds.contains(Seed { def: m, kind: SeedKind::ModuleInit }),
{
    diffdef::law_lost_key_is_removed(o.defs, n.defs, x);
    law_changes_name_their_seeds(g, langs, changed, extractions, sides, i, o, n, f);
}

/// The module init of an added source file is seeded too.
pub proof fn law_added_module_init_is_seeded<L: Language>(
    g: Graph,
    langs: Seq<L>,
    changed: Seq<ChangedView>,
    extractions: Seq<(Seq<char>, Seq<u8>, ExtractionView)>,
    sides: Seq<(OldView, NewView)>,
    i: int,
    f: FileId,
    m: DefId,
)
    requires
        0 <= i < changed.len(),
        changed[i].status is Added || ((changed[i].status is Modified || changed[i].status
            is Renamed) && sides[i].0 is Missing),
        language::lang_for(langs, changed[i].path) is Some,
        file_at(g.files@, changed[i].path) == Some(f),
        graph::init_of(g.defs@, f) == Some(m),
    ensures
        mode(g, langs, changed, extractions, sides) matches ModeView::Selection(seeds)
            ==> seeds.contains(Seed { def: m, kind: SeedKind::Added }),
{
    let seed = Seed { def: m, kind: SeedKind::Added };
    let tests = test_seeds(g, graph::ids_in_file(g.defs@, f));
    assert(added_seeds(g, f)[tests.len() as int] == seed);
    lemma_per_files_hold(g, langs, changed, sides, changed.len() as int, i, seed);
    lemma_kept(g, langs, changed, extractions, sides, seed);
}

/// The other files of the package of a deleted source file have their module
/// inits seeded: they saw its definitions with no import.
pub proof fn law_package_of_deleted_file_is_seeded<L: Language>(
    g: Graph,
    langs: Seq<L>,
    changed: Seq<ChangedView>,
    extractions: Seq<(Seq<char>, Seq<u8>, ExtractionView)>,
    sides: Seq<(OldView, NewView)>,
    i: int,
    lang: L,
    k: int,
    m: DefId,
)
    requires
        0 <= i < changed.len(),
        changed[i].status is Deleted,
        language::lang_for(langs, changed[i].path) == Some(lang),
        0 <= k < g.files@.len(),
        g.files@[k].lang@ == lang.spec_id(),
        (lang.spec_package_key(changed[i].path) matches Some(a) && lang.spec_package_key(
            g.files@[k].path@,
        ) matches Some(b) && paths::same_path(a, b)),
        graph::init_of(g.defs@, FileId(k as u32)) == Some(m),
    ensures
        mode(g, langs, changed, extractions, sides) matches ModeView::Selection(seeds)
            ==> seeds.contains(Seed { def: m, kind: SeedKind::ModuleInit }),
{
    let seed = Seed { def: m, kind: SeedKind::ModuleInit };
    lemma_package_seeded(g, lang, changed[i].path, g.files@.len() as int, k, seed);
    lemma_per_files_hold(g, langs, changed, sides, changed.len() as int, i, seed);
    lemma_kept(g, langs, changed, extractions, sides, seed);
}

proof fn lemma_package_seeded<L: Language>(
    g: Graph,
    lang: L,
    path: Seq<char>,
    n: int,
    k: int,
    seed: Seed,
)
    requires
        0 <= k < n,
        in_package(lang, g.files@[k], lang.spec_package_key(path)),
        graph::init_of(g.defs@, FileId(k as u32)) == Some(seed.def),
        seed.kind == SeedKind::ModuleInit,
    ensures
        package_seeds(g, lang, path, n).contains(seed),
    decreases n,
{
    let before = package_seeds(g, lang, path, n - 1);
    let now = package_seeds(g, lang, path, n);
    if k < n - 1 {
        lemma_package_seeded(g, lang, path, n - 1, k, seed);
        let at = choose|at: int| 0 <= at < before.len() && before[at] == seed;
        assert(now[at] == seed);
    } else {
        assert(now[before.len() as int] == seed);
    }
}

/// What could not be read or parsed runs everything, and so does a file that
/// the index does not have.
pub proof fn law_what_is_not_known_runs_all<L: Language>(
    g: Graph,
    langs: Seq<L>,
    changed: Seq<ChangedView>,
    extractions: Seq<(Seq<char>, Seq<u8>, ExtractionView)>,
    sides: Seq<(OldView, NewView)>,
    i: int,
)
    requires
        0 <= i < changed.len(),
        language::lang_for(langs, changed[i].path) is Some,
        (!(changed[i].status is Deleted) && file_at(g.files@, changed[i].path) is None) || ((
        changed[i].status is Modified || changed[i].status is Renamed) && (sides[i].0 is Unreadable
            || sides[i].0 is Unparsed || (sides[i].0 is Known && !(sides[i].1 is Known)))),
    ensures
        mode(g, langs, changed, extractions, sides) is RunAll,
{
    let c = changed[i];
    assert(per_file(g, langs, c, sides[i].0, sides[i].1) is Err);
    lemma_per_files_fail(g, langs, changed, sides, i + 1, changed.len() as int);
}

/// A file of the graph is found by its path, as long as no other has the same.
pub proof fn law_files_are_found_by_their_path(files: Seq<FileNode>, path: Seq<char>, k: int)
    requires
        0 <= k < files.len() <= u32::MAX + 1,
        paths::same_path(files[k].path@, path),
        forall|j: int|
            0 <= j < files.len() && j != k ==> !paths::same_path((#[trigger] files[j]).path@, path),
    ensures
        file_at(files, path) == Some(FileId(k as u32)),
    decreases files.len(),
{
    let rest = files.drop_last();
    if k < rest.len() {
        assert forall|j: int| 0 <= j < rest.len() && j != k implies !paths::same_path(
            (#[trigger] rest[j]).path@,
            path,
        ) by {
            assert(rest[j] == files[j]);
        }
        law_files_are_found_by_their_path(rest, path, k);
    } else {
        lemma_no_file(rest, path);
    }
}

proof fn lemma_no_file(files: Seq<FileNode>, path: Seq<char>)
    requires
        forall|j: int|
            0 <= j < files.len() ==> !paths::same_path((#[trigger] files[j]).path@, path),
    ensures
        file_at(files, path) is None,
    decreases files.len(),
{
    if files.len() > 0 {
        let rest = files.drop_last();
        assert forall|j: int| 0 <= j < rest.len() implies !paths::same_path(
            (#[trigger] rest[j]).path@,
            path,
        ) by {
            assert(rest[j] == files[j]);
        }
        lemma_no_file(rest, path);
        assert(files[files.len() - 1] == files.last());
    }
}

/// An import mentions a file where its text holds the file's name, with the
/// extension or without it.
pub proof fn law_imports_mention_files_by_name(
    dir: Seq<char>,
    stem: Seq<char>,
    ext: Seq<char>,
    a: Seq<char>,
    b: Seq<char>,
)
    requires
        stem.len() > 0,
        !stem.contains('/'),
        !ext.contains('/'),
        !ext.contains('.'),
        paths::is_file_name(stem + seq!['.'] + ext),
    ensures
        mentions(a + (stem + seq!['.'] + ext) + b, dir + seq!['/'] + (stem + seq!['.'] + ext)),
        mentions(a + stem + b, dir + seq!['/'] + (stem + seq!['.'] + ext)),
        mentions(a + stem + b, stem + seq!['.'] + ext),
{
    paths::law_files_have_extensions(dir, stem, ext);
    paths::law_files_have_names(dir, stem + seq!['.'] + ext);
    text::lemma_occurs(a, stem + seq!['.'] + ext, b);
    text::lemma_occurs(a, stem, b);
}

} // verus!
