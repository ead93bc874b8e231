//! The reference graph: files, the definitions in them, and the edges that
//! say which definition refers to which.
use vstd::prelude::*;

verus! {

/// A definition's position in [`Graph::defs`].
#[derive(Debug, Clone, Copy, PartialEq, Eq, Hash, PartialOrd, Ord, Structural)]
pub struct DefId(pub u32);

/// A file's position in [`Graph::files`].
#[derive(Debug, Clone, Copy, PartialEq, Eq, Hash, PartialOrd, Ord, Structural)]
pub struct FileId(pub u32);

/// What sort of thing a definition is.
#[derive(Debug, Clone, Copy, PartialEq, Eq, Hash, Structural)]
pub enum DefKind {
    Function,
    Method,
    Class,
    TestCase,
    ModuleInit,
}

/// One relation between definitions, or between files.
#[allow(inconsistent_fields)]
#[derive(Debug, Clone, PartialEq, Eq)]
pub enum Edge {
    Contains { parent: DefId, child: DefId },
    Imports { from: FileId, to: FileId },
    Calls { from: DefId, to: CallTarget },
    Reads { from: DefId, to: DefId },
}

/// What a call site calls.
#[derive(Debug, Clone, PartialEq, Eq)]
pub enum CallTarget {
    Resolved(DefId),
    /// The bare name, kept so that the walk can widen to every definition
    /// that could answer to it.
    Unknown(String),
}

/// A definition: where it stands and, for a test, how a runner addresses it.
#[derive(Debug, Clone)]
pub struct Def {
    pub name: String,
    pub kind: DefKind,
    pub file: FileId,
    pub start_line: u32,
    pub end_line: u32,
    pub test_id: Option<Vec<String>>,
    pub computed_name: bool,
}

/// A source file: its repo-relative path, the hash of its contents and the
/// language it is written in.
#[derive(Debug, Clone)]
pub struct FileNode {
    pub path: String,
    pub hash: [u8; 32],
    pub lang: String,
}

/// Files, definitions and edges, with two lookups kept alongside them.
#[derive(Debug)]
pub struct Graph {
    pub files: Vec<FileNode>,
    pub defs: Vec<Def>,
    pub edges: Vec<Edge>,
    /// The module-init definition of each file, aligned with `files`.
    pub module_inits: Vec<Option<DefId>>,
    /// The definitions of each file, aligned with `files`.
    pub file_defs: Vec<Vec<DefId>>,
}

/// The ids of the definitions that stand in file `f`, in ascending order.
pub open spec fn ids_in_file(defs: Seq<Def>, f: FileId) -> Seq<DefId>
    decreases defs.len(),
{
    if defs.len() == 0 {
        Seq::empty()
    } else {
        let before = ids_in_file(defs.drop_last(), f);
        if defs.last().file == f {
            before.push(DefId((defs.len() - 1) as u32))
        } else {
            before
        }
    }
}

/// The module-init definition of file `f`: the last one that was added.
pub open spec fn init_of(defs: Seq<Def>, f: FileId) -> Option<DefId>
    decreases defs.len(),
{
    if defs.len() == 0 {
        None
    } else if defs.last().file == f && defs.last().kind == DefKind::ModuleInit {
        Some(DefId((defs.len() - 1) as u32))
    } else {
        init_of(defs.drop_last(), f)
    }
}

/// `ids_in_file` holds exactly the ids of the definitions in that file.
pub proof fn lemma_ids_in_file(defs: Seq<Def>, f: FileId, id: DefId)
    requires
        defs.len() <= u32::MAX + 1,
    ensures
        ids_in_file(defs, f).contains(id) <==> (id.0 < defs.len() && defs[id.0 as int].file == f),
    decreases defs.len(),
{
    if defs.len() > 0 {
        let rest = defs.drop_last();
        lemma_ids_in_file(rest, f, id);
        let before = ids_in_file(rest, f);
        let now = ids_in_file(defs, f);
        if defs.last().file == f {
            if before.contains(id) {
                let k = choose|k: int| 0 <= k < before.len() && before[k] == id;
                assert(now[k] == id);
            }
            if id.0 == defs.len() - 1 {
                assert(now[now.len() - 1] == id);
            }
            if now.contains(id) {
                let k = choose|k: int| 0 <= k < now.len() && now[k] == id;
                if k < before.len() {
                    assert(before[k] == id);
                }
            }
        }
    }
}

/// A file's module-init definition is a definition of that file and kind.
pub proof fn lemma_init_of(defs: Seq<Def>, f: FileId)
    requires
        defs.len() <= u32::MAX + 1,
    ensures
        init_of(defs, f) matches Some(id) ==> id.0 < defs.len() && defs[id.0 as int].file == f
            && defs[id.0 as int].kind == DefKind::ModuleInit,
        init_of(defs, f) is None ==> forall|i: int|
            0 <= i < defs.len() && (#[trigger] defs[i]).file == f ==> defs[i].kind
                != DefKind::ModuleInit,
    decreases defs.len(),
{
    if defs.len() > 0 {
        lemma_init_of(defs.drop_last(), f);
        if init_of(defs, f) is None {
            assert forall|i: int|
                0 <= i < defs.len() && (#[trigger] defs[i]).file == f implies defs[i].kind
                != DefKind::ModuleInit by {
                if i < defs.len() - 1 {
                    assert(defs.drop_last()[i] == defs[i]);
                }
            }
        }
    }
}

impl Default for Graph {
    fn default() -> (g: Self)
        ensures
            g.wf(),
            g.files@ == Seq::<FileNode>::empty(),
            g.defs@ == Seq::<Def>::empty(),
            g.edges@ == Seq::<Edge>::empty(),
    {
        Graph {
            files: Vec::new(),
            defs: Vec::new(),
            edges: Vec::new(),
            module_inits: Vec::new(),
            file_defs: Vec::new(),
        }
    }
}

impl Graph {
    /// The two lookups agree with `defs`, every definition stands in a file
    /// of the graph, and ids fit their type.
    pub open spec fn wf(&self) -> bool {
        &&& self.files@.len() <= u32::MAX + 1
        &&& self.defs@.len() <= u32::MAX + 1
        &&& self.module_inits@.len() == self.files@.len()
        &&& self.file_defs@.len() == self.files@.len()
        &&& forall|i: int|
            0 <= i < self.defs@.len() ==> (#[trigger] self.defs@[i]).file.0 < self.files@.len()
        &&& forall|f: int|
            0 <= f < self.files@.len() ==> #[trigger] self.module_inits@[f] == init_of(
                self.defs@,
                FileId(f as u32),
            )
        &&& forall|f: int|
            0 <= f < self.files@.len() ==> #[trigger] self.file_defs@[f]@ == ids_in_file(
                self.defs@,
                FileId(f as u32),
            )
    }

    /// Is `d` a definition of this graph?
    pub open spec fn has_def(&self, d: DefId) -> bool {
        d.0 < self.defs@.len()
    }

    /// Is `f` a file of this graph?
    pub open spec fn has_file(&self, f: FileId) -> bool {
        f.0 < self.files@.len()
    }

    /// The definition with id `d`.
    pub open spec fn at(&self, d: DefId) -> Def {
        self.defs@[d.0 as int]
    }

    /// Adds a file, with no definitions yet.
    pub fn add_file(&mut self, f: FileNode) -> (id: FileId)
        requires
            old(self).wf(),
            old(self).files@.len() <= u32::MAX,
        ensures
            final(self).wf(),
            id.0 == old(self).files@.len(),
            final(self).files@ == old(self).files@.push(f),
            final(self).defs@ == old(self).defs@,
            final(self).edges@ == old(self).edges@,
    {
        let id = FileId(self.files.len() as u32);
        proof {
            lemma_no_ids(self.defs@, id);
        }
        self.files.push(f);
        self.module_inits.push(None);
        self.file_defs.push(Vec::new());
        id
    }

    /// Adds a definition to a file of the graph.
    pub fn add_def(&mut self, d: Def) -> (id: DefId)
        requires
            old(self).wf(),
            old(self).has_file(d.file),
            old(self).defs@.len() <= u32::MAX,
        ensures
            final(self).wf(),
            id.0 == old(self).defs@.len(),
            final(self).defs@ == old(self).defs@.push(d),
            final(self).files@ == old(self).files@,
            final(self).edges@ == old(self).edges@,
    {
        let file = d.file;
        let kind = d.kind;
        let id = DefId(self.defs.len() as u32);
        let ghost was = self.defs@;
        self.defs.push(d);
        assert(self.defs@.drop_last() =~= was);
        let at: usize = file.0 as usize;
        let ghost lists = self.file_defs@;
        self.file_defs[at].push(id);
        assert(self.file_defs@.len() == lists.len());
        assert(self.file_defs@[at as int]@ == lists[at as int]@.push(id));
        assert forall|f: int| 0 <= f < self.files@.len() implies #[trigger] self.file_defs@[f]@
            == ids_in_file(self.defs@, FileId(f as u32)) by {
            if f != at {
                assert(self.file_defs@[f] == lists[f]);
            }
        }
        if kind == DefKind::ModuleInit {
            self.module_inits.set(at, Some(id));
        }
        id
    }

    /// Adds an edge.
    pub fn add_edge(&mut self, e: Edge)
        requires
            old(self).wf(),
        ensures
            final(self).wf(),
            final(self).edges@ == old(self).edges@.push(e),
            final(self).files@ == old(self).files@,
            final(self).defs@ == old(self).defs@,
    {
        self.edges.push(e);
    }

    /// The definition with id `id`.
    pub fn def(&self, id: DefId) -> (d: &Def)
        requires
            self.has_def(id),
        ensures
            *d == self.at(id),
    {
        &self.defs[id.0 as usize]
    }

    /// The definitions of file `f` with their ids, in the order they were
    /// added.
    pub fn defs_in_file(&self, f: FileId) -> (r: Vec<(DefId, &Def)>)
        requires
            self.wf(),
            self.has_file(f),
        ensures
            r@.len() == ids_in_file(self.defs@, f).len(),
            forall|i: int|
                0 <= i < r@.len() ==> (#[trigger] r@[i]).0 == ids_in_file(self.defs@, f)[i]
                    && self.has_def(r@[i].0) && *r@[i].1 == self.at(r@[i].0),
    {
        let ids: &Vec<DefId> = &self.file_defs[f.0 as usize];
        assert(ids@ == ids_in_file(self.defs@, FileId(f.0 as int as u32)));
        let mut out: Vec<(DefId, &Def)> = Vec::new();
        let mut i: usize = 0;
        while i < ids.len()
            invariant
                self.wf(),
                i <= ids@.len(),
                out@.len() == i,
                ids@ == ids_in_file(self.defs@, f),
                forall|j: int|
                    0 <= j < i ==> (#[trigger] out@[j]).0 == ids@[j] && self.has_def(out@[j].0)
                        && *out@[j].1 == self.at(out@[j].0),
            decreases ids@.len() - i,
        {
            let id = ids[i];
            proof {
                assert(ids@[i as int] == id);
                lemma_ids_in_file(self.defs@, f, id);
            }
            out.push((id, self.def(id)));
            i = i + 1;
        }
        out
    }

    /// The module-init definition of file `f`, when it has one.
    pub fn module_init(&self, f: FileId) -> (r: Option<DefId>)
        requires
            self.wf(),
            self.has_file(f),
        ensures
            r == init_of(self.defs@, f),
    {
        assert(FileId(f.0 as int as u32) == f);
        self.module_inits[f.0 as usize]
    }
}

/// A file that holds no definition has no ids and no module init.
proof fn lemma_no_ids(defs: Seq<Def>, f: FileId)
    requires
        forall|i: int| 0 <= i < defs.len() ==> (#[trigger] defs[i]).file != f,
    ensures
        ids_in_file(defs, f) == Seq::<DefId>::empty(),
        init_of(defs, f) is None,
    decreases defs.len(),
{
    if defs.len() > 0 {
        assert forall|i: int| 0 <= i < defs.drop_last().len() implies (
        #[trigger] defs.drop_last()[i]).file != f by {
            assert(defs.drop_last()[i] == defs[i]);
        }
        lemma_no_ids(defs.drop_last(), f);
    }
}

/// Every definition of a well-formed graph is listed under its file, and a
/// module init is its own file's `module_init`'s only rival.
pub proof fn law_defs_listed_once(g: Graph, d: DefId)
    requires
        g.wf(),
        g.has_def(d),
    ensures
        ids_in_file(g.defs@, g.at(d).file).contains(d),
        forall|f: FileId| f != g.at(d).file ==> !ids_in_file(g.defs@, f).contains(d),
        g.at(d).kind == DefKind::ModuleInit ==> init_of(g.defs@, g.at(d).file) is Some,
{
    lemma_ids_in_file(g.defs@, g.at(d).file, d);
    assert forall|f: FileId| f != g.at(d).file implies !ids_in_file(g.defs@, f).contains(d) by {
        lemma_ids_in_file(g.defs@, f, d);
    }
    lemma_init_of(g.defs@, g.at(d).file);
}

/// The module init of a file is a definition of that kind which stands in the
/// file, and there is one where any such definition does.
pub proof fn law_module_init_stands_in_its_file(defs: Seq<Def>, f: FileId)
    requires
        defs.len() <= u32::MAX + 1,
    ensures
        init_of(defs, f) matches Some(m) ==> m.0 < defs.len() && defs[m.0 as int].file == f
            && defs[m.0 as int].kind == DefKind::ModuleInit,
        init_of(defs, f) is None <==> forall|i: int|
            0 <= i < defs.len() ==> !((#[trigger] defs[i]).file == f && defs[i].kind
                == DefKind::ModuleInit),
    decreases defs.len(),
{
    if defs.len() > 0 {
        let rest = defs.drop_last();
        law_module_init_stands_in_its_file(rest, f);
        assert(defs[defs.len() - 1] == defs.last());
        assert forall|i: int| 0 <= i < rest.len() implies #[trigger] rest[i] == defs[i] by {}
        if init_of(defs, f) is None {
            assert forall|i: int| 0 <= i < defs.len() implies !((#[trigger] defs[i]).file == f
                && defs[i].kind == DefKind::ModuleInit) by {
                if i < rest.len() {
                    assert(rest[i] == defs[i]);
                }
            }
        } else if !(defs.last().file == f && defs.last().kind == DefKind::ModuleInit) {
            let i = choose|i: int|
                0 <= i < rest.len() && (#[trigger] rest[i]).file == f && rest[i].kind
                    == DefKind::ModuleInit;
            assert(defs[i].file == f && defs[i].kind == DefKind::ModuleInit);
        }
    }
}

} // verus!
