//! What a walk over a syntax tree collects: definitions with the nodes that
//! open their scopes, and references.
use std::collections::{HashMap, HashSet};
use vstd::prelude::*;

use crate::fingerprint;
use crate::fingerprint::split_fingerprint;
use crate::graph::DefKind;
use crate::language;
use crate::language::{DefView, ExtractedDef, ExtractedRef, RefView};
use crate::names::NameLists;
use crate::syntax;
use crate::syntax::{line, NodeView, SyntaxNode};
use crate::text;
use crate::text::{copy_opt, same};

verus! {

/// The definitions found so far, and what the walk for references must know
/// of the nodes that they came from.
pub struct Draft {
    pub defs: Vec<ExtractedDef>,
    /// Nodes that open the scope of a definition.
    pub scope: HashMap<usize, usize>,
    /// Identifiers that name something and so refer to nothing.
    pub names: HashSet<usize>,
    /// Calls that declare a test.
    pub tests: HashSet<usize>,
}

/// What a [`Draft`] says.
#[verifier::ext_equal]
pub struct DraftView {
    pub defs: Seq<DefView>,
    pub scope: Map<usize, usize>,
    pub names: Set<usize>,
    pub tests: Set<usize>,
}

impl View for Draft {
    type V = DraftView;

    open spec fn view(&self) -> DraftView {
        DraftView {
            defs: language::def_views(self.defs@),
            scope: self.scope@,
            names: self.names@,
            tests: self.tests@,
        }
    }
}

impl DraftView {
    /// No definition and no mark.
    pub open spec fn empty() -> DraftView {
        DraftView {
            defs: Seq::empty(),
            scope: Map::empty(),
            names: Set::empty(),
            tests: Set::empty(),
        }
    }

    /// One more definition.
    pub open spec fn with_def(self, d: DefView) -> DraftView {
        DraftView { defs: self.defs.push(d), ..self }
    }

    /// The position of the definition found last.
    pub open spec fn last(self) -> usize {
        (self.defs.len() - 1) as usize
    }

    /// The node `id` opens the scope of the definition found last.
    pub open spec fn opened(self, id: usize) -> DraftView {
        DraftView { scope: self.scope.insert(id, self.last()), ..self }
    }

    /// The node `id` is a name.
    pub open spec fn named(self, id: usize) -> DraftView {
        DraftView { names: self.names.insert(id), ..self }
    }

    /// The node `id` declares a test.
    pub open spec fn tested(self, id: usize) -> DraftView {
        DraftView { tests: self.tests.insert(id), ..self }
    }

    /// The definition whose scope `n` opens, or else `current`.
    pub open spec fn scope_at(self, n: NodeView, current: usize) -> usize {
        if self.scope.contains_key(n.id) {
            self.scope[n.id]
        } else {
            current
        }
    }

    /// Parents and scopes name definitions that were found.
    pub open spec fn wf(self) -> bool {
        &&& self.defs.len() <= usize::MAX
        &&& forall|i: int|
            0 <= i < self.defs.len() ==> ((#[trigger] self.defs[i]).parent matches Some(p) ==> p
                < self.defs.len())
        &&& forall|k: usize| #[trigger]
            self.scope.contains_key(k) ==> self.scope[k] < self.defs.len()
    }
}

/// The definition that `span` holds.
pub open spec fn def_of(
    span: NodeView,
    name: Seq<char>,
    kind: DefKind,
    parent: Option<usize>,
    test_id: Option<Seq<Seq<char>>>,
    computed: bool,
) -> DefView {
    DefView {
        name,
        kind,
        start_line: syntax::line_of(span.start_row),
        end_line: syntax::line_of(span.end_row),
        test_id,
        computed_name: computed,
        parent,
        sig_hash: fingerprint::blake3_hash(fingerprint::signature_stream(span)),
        body_hash: fingerprint::body_fingerprint(span),
    }
}

/// The definition that every file has: its loose top-level code, which is
/// all of the root's children but those marked in `skip`.
pub open spec fn module_def(root: NodeView, skip: Seq<bool>) -> DefView {
    DefView {
        name: "<module>"@,
        kind: DefKind::ModuleInit,
        start_line: syntax::line_of(root.start_row),
        end_line: syntax::line_of(root.end_row),
        test_id: None,
        computed_name: false,
        parent: None,
        sig_hash: fingerprint::blake3_hash(fingerprint::loose_stream(root.children, skip)),
        body_hash: None,
    }
}

impl Draft {
    /// The draft of a file with nothing found yet but its loose top-level
    /// code.
    pub fn of_module(root: &SyntaxNode, skip: &Vec<bool>) -> (r: Draft)
        requires
            skip@.len() == root@.children.len(),
        ensures
            r@ == DraftView::empty().with_def(module_def(root@, skip@)),
            r@.wf(),
    {
        broadcast use vstd::std_specs::hash::group_hash_axioms;

        let mut defs: Vec<ExtractedDef> = Vec::new();
        let d = ExtractedDef {
            name: "<module>".to_owned(),
            kind: DefKind::ModuleInit,
            start_line: line(root.start_row),
            end_line: line(root.end_row),
            test_id: None,
            computed_name: false,
            parent: None,
            sig_hash: fingerprint::module_init_fingerprint(root, skip),
            body_hash: None,
        };
        defs.push(d);
        assert(language::def_views(defs@) =~= seq![d@]);
        let r = Draft { defs, scope: HashMap::new(), names: HashSet::new(), tests: HashSet::new() };
        assert(r@ =~= DraftView::empty().with_def(module_def(root@, skip@)));
        r
    }

    /// Adds a definition.
    pub fn add_def(&mut self, d: ExtractedDef)
        requires
            old(self)@.wf(),
            d@.parent matches Some(p) ==> p < old(self)@.defs.len(),
        ensures
            final(self)@ == old(self)@.with_def(d@),
            final(self)@.wf(),
    {
        let ghost was = *self;
        self.defs.push(d);
        assert(language::def_views(self.defs@) =~= language::def_views(was.defs@).push(d@));
        assert(self.defs@.len() == self.defs.len());
        assert(self@ =~= was@.with_def(d@));
        assert forall|i: int| 0 <= i < self@.defs.len() implies ((#[trigger] self@.defs[i]).parent matches Some(p) ==> p
            < self@.defs.len()) by {
            if i < was@.defs.len() {
                assert(self@.defs[i] == was@.defs[i]);
            }
        }
    }

    /// Adds the definition that `span` holds.
    pub fn add(
        &mut self,
        span: &SyntaxNode,
        name: String,
        kind: DefKind,
        parent: Option<usize>,
        test_id: Option<Vec<String>>,
        computed: bool,
    )
        requires
            old(self)@.wf(),
            parent matches Some(p) ==> p < old(self)@.defs.len(),
        ensures
            final(self)@ == old(self)@.with_def(
                def_of(span@, name@, kind, parent, language::chain_view(test_id), computed),
            ),
            final(self)@.wf(),
    {
        let (sig_hash, body_hash) = split_fingerprint(span);
        self.add_def(
            ExtractedDef {
                name,
                kind,
                start_line: line(span.start_row),
                end_line: line(span.end_row),
                test_id,
                computed_name: computed,
                parent,
                sig_hash,
                body_hash,
            },
        );
    }

    /// The position of the definition found last.
    pub fn last(&self) -> (r: usize)
        requires
            self@.defs.len() > 0,
        ensures
            r == self@.last(),
            r < self@.defs.len(),
    {
        assert(self.defs@.len() == self.defs.len());
        self.defs.len() - 1
    }

    /// The node `id` opens the scope of the definition found last.
    pub fn open(&mut self, id: usize)
        requires
            old(self)@.wf(),
            old(self)@.defs.len() > 0,
        ensures
            final(self)@ == old(self)@.opened(id),
            final(self)@.wf(),
    {
        broadcast use vstd::std_specs::hash::group_hash_axioms;

        let i: usize = self.last();
        let ghost was = self@;
        self.scope.insert(id, i);
        assert(self@ =~= was.opened(id));
    }

    /// The node `id` is a name.
    pub fn name(&mut self, id: usize)
        ensures
            final(self)@ == old(self)@.named(id),
            old(self)@.wf() ==> final(self)@.wf(),
    {
        broadcast use vstd::std_specs::hash::group_hash_axioms;

        let ghost was = self@;
        self.names.insert(id);
        assert(self@ =~= was.named(id));
    }

    /// The node `id` declares a test.
    pub fn test(&mut self, id: usize)
        ensures
            final(self)@ == old(self)@.tested(id),
            old(self)@.wf() ==> final(self)@.wf(),
    {
        broadcast use vstd::std_specs::hash::group_hash_axioms;

        let ghost was = self@;
        self.tests.insert(id);
        assert(self@ =~= was.tested(id));
    }

    /// The definition whose scope `n` opens, or else `current`.
    pub fn scope_of(&self, n: &SyntaxNode, current: usize) -> (r: usize)
        ensures
            r == self@.scope_at(n@, current),
    {
        broadcast use vstd::std_specs::hash::group_hash_axioms;

        match self.scope.get(&n.id) {
            Some(d) => *d,
            None => current,
        }
    }

    /// Is the node `n` a name?
    pub fn is_name(&self, n: &SyntaxNode) -> (r: bool)
        ensures
            r == self@.names.contains(n@.id),
    {
        broadcast use vstd::std_specs::hash::group_hash_axioms;

        self.names.contains(&n.id)
    }

    /// Does the node `n` declare a test?
    pub fn is_test(&self, n: &SyntaxNode) -> (r: bool)
        ensures
            r == self@.tests.contains(n@.id),
    {
        broadcast use vstd::std_specs::hash::group_hash_axioms;

        self.tests.contains(&n.id)
    }
}

/// The references found so far.
pub struct Refs {
    pub calls: Vec<ExtractedRef>,
    pub reads: Vec<ExtractedRef>,
}

/// What [`Refs`] say.
#[verifier::ext_equal]
pub struct RefsView {
    pub calls: Seq<RefView>,
    pub reads: Seq<RefView>,
}

impl View for Refs {
    type V = RefsView;

    open spec fn view(&self) -> RefsView {
        RefsView {
            calls: language::ref_views(self.calls@),
            reads: language::ref_views(self.reads@),
        }
    }
}

/// Do all references come from one of `n` definitions?
pub open spec fn all_from(refs: Seq<RefView>, n: int) -> bool {
    forall|i: int| 0 <= i < refs.len() ==> (#[trigger] refs[i]).from_def < n
}

impl RefsView {
    /// No reference.
    pub open spec fn none() -> RefsView {
        RefsView { calls: Seq::empty(), reads: Seq::empty() }
    }

    /// One call.
    pub open spec fn call(r: RefView) -> RefsView {
        RefsView { calls: seq![r], reads: Seq::empty() }
    }

    /// One read.
    pub open spec fn read(r: RefView) -> RefsView {
        RefsView { calls: Seq::empty(), reads: seq![r] }
    }

    /// These references and then those.
    pub open spec fn plus(self, other: RefsView) -> RefsView {
        RefsView { calls: self.calls + other.calls, reads: self.reads + other.reads }
    }

    /// Do all references come from one of `n` definitions?
    pub open spec fn from_within(self, n: int) -> bool {
        all_from(self.calls, n) && all_from(self.reads, n)
    }
}

/// A reference from the definition `from` at the line of `n`.
pub open spec fn ref_at(
    from: usize,
    name: Seq<char>,
    qualifier: Option<Seq<char>>,
    n: NodeView,
) -> RefView {
    RefView { from_def: from, name, qualifier, line: syntax::line_of(n.start_row) }
}

impl Refs {
    pub fn new() -> (r: Refs)
        ensures
            r@ == RefsView::none(),
            forall|n: int| r@.from_within(n),
    {
        let r = Refs { calls: Vec::new(), reads: Vec::new() };
        assert(r@ =~= RefsView::none());
        r
    }

    /// Adds a call at the line of `n`.
    pub fn call(&mut self, from: usize, name: String, qualifier: Option<String>, n: &SyntaxNode)
        ensures
            final(self)@ == old(self)@.plus(
                RefsView::call(ref_at(from, name@, text::opt_view(qualifier), n@)),
            ),
            forall|k: int|
                old(self)@.from_within(k) && from < k ==> #[trigger] final(self)@.from_within(k),
    {
        let r = ExtractedRef { from_def: from, name, qualifier, line: line(n.start_row) };
        let ghost was = *self;
        self.calls.push(r);
        assert(language::ref_views(self.calls@) =~= language::ref_views(was.calls@) + seq![r@]);
        assert(self@ =~= was@.plus(RefsView::call(r@)));
    }

    /// Adds a read at the line of `n`.
    pub fn read(&mut self, from: usize, name: String, qualifier: Option<String>, n: &SyntaxNode)
        ensures
            final(self)@ == old(self)@.plus(
                RefsView::read(ref_at(from, name@, text::opt_view(qualifier), n@)),
            ),
            forall|k: int|
                old(self)@.from_within(k) && from < k ==> #[trigger] final(self)@.from_within(k),
    {
        let r = ExtractedRef { from_def: from, name, qualifier, line: line(n.start_row) };
        let ghost was = *self;
        self.reads.push(r);
        assert(language::ref_views(self.reads@) =~= language::ref_views(was.reads@) + seq![r@]);
        assert(self@ =~= was@.plus(RefsView::read(r@)));
    }
}

pub proof fn lemma_plus(a: RefsView, b: RefsView, c: RefsView)
    ensures
        a.plus(b).plus(c) == a.plus(b.plus(c)),
        a.plus(RefsView::none()) == a,
        RefsView::none().plus(a) == a,
{
    assert(a.plus(b).plus(c) =~= a.plus(b.plus(c)));
    assert(a.plus(RefsView::none()) =~= a);
    assert(RefsView::none().plus(a) =~= a);
}

/// Do two references go from the same definition to the same name with the
/// same qualifier?
pub open spec fn same_target(a: RefView, b: RefView) -> bool {
    a.from_def == b.from_def && a.name == b.name && a.qualifier == b.qualifier
}

/// Is there a reference among `refs` with the target of `r`?
pub open spec fn has_target(refs: Seq<RefView>, r: RefView) -> bool {
    exists|i: int| 0 <= i < refs.len() && same_target(#[trigger] refs[i], r)
}

/// Of the references with one target, the first.
pub open spec fn firsts(refs: Seq<RefView>) -> Seq<RefView>
    decreases refs.len(),
{
    if refs.len() == 0 {
        Seq::empty()
    } else {
        let before = firsts(refs.drop_last());
        if has_target(before, refs.last()) {
            before
        } else {
            before.push(refs.last())
        }
    }
}

fn same_qualifier(a: &Option<String>, b: &Option<String>) -> (r: bool)
    ensures
        r == (text::opt_view(*a) == text::opt_view(*b)),
{
    match (a, b) {
        (Some(x), Some(y)) => same(x.as_str(), y.as_str()),
        (None, None) => true,
        _ => false,
    }
}

/// Keeps the first of the references with one target: a definition may refer
/// to the same name many times, and the graph needs the edge once.
pub fn dedup_refs(refs: Vec<ExtractedRef>) -> (r: Vec<ExtractedRef>)
    ensures
        language::ref_views(r@) == firsts(language::ref_views(refs@)),
        forall|n: int|
            all_from(language::ref_views(refs@), n) ==> #[trigger] all_from(
                language::ref_views(r@),
                n,
            ),
{
    let ghost all = language::ref_views(refs@);
    let mut out: Vec<ExtractedRef> = Vec::new();
    let mut by_name: NameLists<usize> = NameLists::new();
    let mut i: usize = 0;
    assert(all.take(0) =~= Seq::empty());
    assert(language::ref_views(out@) =~= Seq::empty());
    while i < refs.len()
        invariant
            i <= refs@.len() == all.len(),
            all == language::ref_views(refs@),
            language::ref_views(out@) == firsts(all.take(i as int)),
            by_name.wf(),
            forall|name: Seq<char>, k: int|
                0 <= k < by_name.list(name).len() ==> (#[trigger] by_name.list(name)[k]) < out@.len(),
            forall|j: int|
                #![trigger out@[j]]
                0 <= j < out@.len() ==> by_name.list(out@[j].name@).contains(j as usize),
            forall|n: int| all_from(all, n) ==> #[trigger] all_from(language::ref_views(out@), n),
        decreases refs@.len() - i,
    {
        let r = &refs[i];
        let ghost so_far = language::ref_views(out@);
        let mut known: bool = false;
        match by_name.get(r.name.as_str()) {
            Some(list) => {
                let mut k: usize = 0;
                while k < list.len()
                    invariant
                        k <= list@.len(),
                        list@ == by_name.list(r.name@),
                        so_far == language::ref_views(out@),
                        forall|m: int| 0 <= m < list@.len() ==> (#[trigger] list@[m]) < out@.len(),
                        known ==> has_target(so_far, r@),
                        !known ==> forall|m: int|
                            0 <= m < k ==> !same_target(so_far[(#[trigger] list@[m]) as int], r@),
                    decreases list@.len() - k,
                {
                    let o = &out[list[k]];
                    assert(so_far[list@[k as int] as int] == o@);
                    if o.from_def == r.from_def && same(o.name.as_str(), r.name.as_str())
                        && same_qualifier(&o.qualifier, &r.qualifier) {
                        known = true;
                        assert(same_target(so_far[list@[k as int] as int], r@));
                    }
                    k = k + 1;
                }
                proof {
                    if !known {
                        assert forall|j: int| 0 <= j < so_far.len() implies !same_target(
                            #[trigger] so_far[j],
                            r@,
                        ) by {
                            assert(out@.len() == out.len());
                            assert(so_far[j] == out@[j]@);
                            if out@[j].name@ == r.name@ {
                                assert(list@.contains(j as usize));
                                let m = choose|m: int|
                                    0 <= m < list@.len() && list@[m] == j as usize;
                                assert(!same_target(so_far[list@[m] as int], r@));
                            }
                        }
                    }
                }
            },
            None => {
                assert forall|j: int| 0 <= j < so_far.len() implies !same_target(
                    #[trigger] so_far[j],
                    r@,
                ) by {
                    assert(so_far[j] == out@[j]@);
                    assert(by_name.list(out@[j].name@).contains(j as usize));
                }
            },
        }
        proof {
            assert(all.take(i + 1).drop_last() =~= all.take(i as int));
            assert(all.take(i + 1).last() == r@);
            assert(known == has_target(so_far, r@));
        }
        if !known {
            let ghost was = out@;
            let ghost lists = by_name;
            let at: usize = out.len();
            by_name.file(r.name.as_str(), at);
            let c = ExtractedRef {
                from_def: r.from_def,
                name: r.name.clone(),
                qualifier: copy_opt(&r.qualifier),
                line: r.line,
            };
            out.push(c);
            proof {
                assert(language::ref_views(out@) =~= so_far.push(r@));
                assert forall|name: Seq<char>, k: int|
                    0 <= k < by_name.list(name).len() implies (#[trigger] by_name.list(name)[k])
                    < out@.len() by {
                    if name == r.name@ {
                        if k < lists.list(name).len() {
                            assert(by_name.list(name)[k] == lists.list(name)[k]);
                        }
                    } else {
                        assert(by_name.list(name)[k] == lists.list(name)[k]);
                    }
                }
                assert forall|j: int|
                    #![trigger out@[j]]
                    0 <= j < out@.len() implies by_name.list(out@[j].name@).contains(
                    j as usize,
                ) by {
                    if j < was.len() {
                        let name = was[j].name@;
                        assert(lists.list(name).contains(j as usize));
                        let m = choose|m: int|
                            0 <= m < lists.list(name).len() && lists.list(name)[m] == j as usize;
                        assert(by_name.list(name)[m] == j as usize);
                    } else {
                        let name = r.name@;
                        assert(by_name.list(name)[lists.list(name).len() as int] == at);
                    }
                }
                assert forall|n: int| all_from(all, n) implies #[trigger] all_from(
                    language::ref_views(out@),
                    n,
                ) by {
                    assert(all_from(so_far, n));
                    assert(all[i as int] == r@);
                }
            }
        }
        i = i + 1;
    }
    assert(all.take(all.len() as int) =~= all);
    out
}

/// Of the references kept, no two have one target, and each reference has a
/// kept one with its target.
pub proof fn law_kept_references_are_distinct(refs: Seq<RefView>)
    ensures
        forall|i: int, j: int|
            0 <= i < j < firsts(refs).len() ==> !same_target(
                #[trigger] firsts(refs)[i],
                #[trigger] firsts(refs)[j],
            ),
        forall|i: int| 0 <= i < refs.len() ==> has_target(firsts(refs), #[trigger] refs[i]),
    decreases refs.len(),
{
    if refs.len() > 0 {
        let before = firsts(refs.drop_last());
        law_kept_references_are_distinct(refs.drop_last());
        assert forall|i: int| 0 <= i < refs.len() implies has_target(
            firsts(refs),
            #[trigger] refs[i],
        ) by {
            if i < refs.len() - 1 {
                assert(refs.drop_last()[i] == refs[i]);
                let k = choose|k: int|
                    0 <= k < before.len() && same_target(#[trigger] before[k], refs[i]);
                assert(same_target(firsts(refs)[k], refs[i]));
            } else if !has_target(before, refs.last()) {
                assert(same_target(firsts(refs)[before.len() as int], refs[i]));
            }
        }
    }
}

} // verus!
