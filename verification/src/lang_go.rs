//! The Go plugin: functions, methods, `testing` tests with their subtests,
//! and imports within the module.
use vstd::hash_set::StringHashSet;
use vstd::prelude::*;

use crate::draft;
use crate::draft::{dedup_refs, Draft, DraftView, Refs, RefsView};
use crate::fingerprint;
use crate::graph::DefKind;
use crate::language;
use crate::language::{
    DefView, ExtractedDef, Extraction, ExtractionView, FactsView, ImportRef, ImportView, Language,
    RepoFacts,
};
use crate::paths;
use crate::syntax;
use crate::syntax::{line, Grammar, NodeView, SyntaxNode};
use crate::text;
use crate::text::{begins, cat, cat3, chars_of, copy_all, cut_prefix, occurs, same, tail_after, trimmed};

verus! {

/// Go.
pub struct GoLanguage;

/// Does `c` have Unicode's `Uppercase` property?
pub uninterp spec fn uppercase(c: char) -> bool;

/// `char::is_uppercase`: whether the character has Unicode's `Uppercase`
/// property. Of the ASCII characters, the letters `A` to `Z` have it and no
/// others.
pub assume_specification[ char::is_uppercase ](c: char) -> (r: bool)
    ensures
        r == uppercase(c),
        c <= '\u{7f}' ==> r == ('A' <= c && c <= 'Z'),
;

/// The prefix that makes a function's name a test's.
pub open spec fn test_prefix(name: Seq<char>) -> Option<Seq<char>> {
    if text::starts_with(name, "Test"@) {
        Some("Test"@)
    } else if text::starts_with(name, "Benchmark"@) {
        Some("Benchmark"@)
    } else if text::starts_with(name, "Example"@) {
        Some("Example"@)
    } else if text::starts_with(name, "Fuzz"@) {
        Some("Fuzz"@)
    } else {
        None
    }
}

/// Is this the type `*testing.T`, or another pointer into package `testing`?
pub open spec fn testing_pointer(ty: NodeView) -> bool {
    &&& ty.kind == "pointer_type"@
    &&& match syntax::named_child_of(ty, 0) {
        Some(inner) => inner.kind == "qualified_type"@ && match syntax::field_of(
            inner,
            "package"@,
        ) {
            Some(package) => package.text == Some("testing"@),
            None => false,
        },
        None => false,
    }
}

/// Are these the parameters of a test whose name begins with `prefix`: one
/// pointer into package `testing`, or none at all for an example?
pub open spec fn test_parameters(params: NodeView, prefix: Seq<char>) -> bool {
    let decls = syntax::of_kind(params.children, "parameter_declaration"@);
    if decls.len() == 0 {
        prefix == "Example"@
    } else if decls.len() == 1 {
        match syntax::field_of(decls[0], "type"@) {
            Some(ty) => testing_pointer(ty),
            None => false,
        }
    } else {
        false
    }
}

/// Is the function `n` named `name` a test? The file's name is not asked:
/// the shape of the function decides.
pub open spec fn is_test(name: Seq<char>, n: NodeView) -> bool {
    match test_prefix(name) {
        Some(prefix) => {
            let rest = name.skip(prefix.len() as int);
            &&& rest.len() == 0 || uppercase(rest[0])
            &&& match syntax::field_of(n, "parameters"@) {
                Some(params) => test_parameters(params, prefix),
                None => false,
            }
        },
        None => false,
    }
}

/// The name of the parameter `decl`, when its type is of package `testing`.
pub open spec fn testing_name(decl: NodeView) -> Option<Seq<char>> {
    if decl.kind != "parameter_declaration"@ {
        None
    } else {
        match syntax::field_of(decl, "type"@) {
            Some(ty) => match ty.text {
                Some(t) => if text::occurs_in(t, "testing."@) {
                    match syntax::field_of(decl, "name"@) {
                        Some(name) => name.text,
                        None => None,
                    }
                } else {
                    None
                },
                None => None,
            },
            None => None,
        }
    }
}

/// The name of the first parameter whose type is of package `testing`.
pub open spec fn first_testing_name(decls: Seq<NodeView>) -> Option<Seq<char>>
    decreases decls.len(),
{
    if decls.len() == 0 {
        None
    } else {
        match first_testing_name(decls.drop_last()) {
            Some(name) => Some(name),
            None => testing_name(decls.last()),
        }
    }
}

/// The name by which the function `f` holds its test, empty when it has none.
pub open spec fn test_handle(f: NodeView) -> Seq<char> {
    match syntax::field_of(f, "parameters"@) {
        Some(params) => match first_testing_name(params.children) {
            Some(name) => name,
            None => Seq::empty(),
        },
        None => Seq::empty(),
    }
}

/// Is this a call of `Run` on the test that `handle` names?
pub open spec fn is_run_call(n: NodeView, handle: Seq<char>) -> bool {
    &&& handle.len() > 0
    &&& n.kind == "call_expression"@
    &&& match syntax::field_of(n, "function"@) {
        Some(f) => f.kind == "selector_expression"@ && match syntax::field_of(f, "field"@) {
            Some(field) => field.text == Some("Run"@),
            None => false,
        } && match syntax::field_of(f, "operand"@) {
            Some(operand) => operand.kind == "identifier"@ && operand.text == Some(handle),
            None => false,
        },
        None => false,
    }
}

/// What a string literal says.
pub open spec fn literal_content(n: NodeView) -> Seq<char> {
    match syntax::named_child_of(n, 0) {
        Some(c) => syntax::text_of(c),
        None => Seq::empty(),
    }
}

/// The argument of a call at position `i`.
pub open spec fn argument_of(call: NodeView, i: int) -> Option<NodeView> {
    match syntax::field_of(call, "arguments"@) {
        Some(args) => syntax::named_child_of(args, i),
        None => None,
    }
}

/// The name that a subtest is called by, when it is written out.
pub open spec fn literal_name(call: NodeView) -> Option<Seq<char>> {
    match argument_of(call, 0) {
        Some(arg) => if arg.kind == "interpreted_string_literal"@ {
            Some(literal_content(arg))
        } else {
            None
        },
        None => None,
    }
}

/// A test in which subtests are looked for.
pub struct Enclosing {
    /// The position of its definition.
    pub at: usize,
    /// Its chain of names.
    pub chain: Seq<Seq<char>>,
}

/// A call is above its arguments.
pub proof fn lemma_argument_below(call: NodeView, i: int)
    ensures
        argument_of(call, i) matches Some(c) ==> decreases_to!(call => c),
{
    syntax::lemma_field_below(call, "arguments"@);
    if let Some(args) = syntax::field_of(call, "arguments"@) {
        syntax::lemma_named_below(args, i);
    }
}

/// What is found when the subtests below `n` are added. A subtest whose name
/// is computed counts once in its parent: `used` says whether it has.
pub open spec fn with_subtests(
    n: NodeView,
    d: DraftView,
    outer: Enclosing,
    used: bool,
    handle: Seq<char>,
) -> (DraftView, bool)
    decreases n, 1nat,
{
    if is_run_call(n, handle) {
        with_run_call(n, d, outer, used)
    } else {
        with_subtests_of(n.children, d, outer, used, handle)
    }
}

/// What is found when the subtests in `ns` are added.
pub open spec fn with_subtests_of(
    ns: Seq<NodeView>,
    d: DraftView,
    outer: Enclosing,
    used: bool,
    handle: Seq<char>,
) -> (DraftView, bool)
    decreases ns, 0nat,
{
    if ns.len() == 0 {
        (d, used)
    } else {
        let before = with_subtests_of(ns.drop_last(), d, outer, used, handle);
        with_subtests(ns.last(), before.0, outer, before.1, handle)
    }
}

/// What is found when the subtest that `call` runs is added, with the
/// subtests of its callback.
pub open spec fn with_run_call(call: NodeView, d: DraftView, outer: Enclosing, used: bool) -> (
    DraftView,
    bool,
)
    decreases call, 0nat,
{
    let computed = literal_name(call) is None;
    if computed && used {
        (d.tested(call.id), true)
    } else {
        let segment = match literal_name(call) {
            Some(name) => name,
            None => "<computed>"@,
        };
        let chain = outer.chain.push(segment);
        let own = d.tested(call.id).with_def(
            draft::def_of(
                call,
                segment,
                DefKind::TestCase,
                Some(outer.at),
                Some(chain),
                computed,
            ),
        );
        let inner = Enclosing { at: own.last(), chain };
        let found = match argument_of(call, 1) {
            Some(callback) => {
                proof {
                    lemma_argument_below(call, 1);
                }
                with_subtests(
                    callback,
                    own.opened(callback.id),
                    inner,
                    false,
                    test_handle(callback),
                ).0
            },
            None => own,
        };
        (found, used || computed)
    }
}

/// What is found when the function `n` is added. A test comes with its
/// subtests; `init` is part of the file's loose top-level code.
pub open spec fn with_function(n: NodeView, d: DraftView) -> DraftView {
    match syntax::field_of(n, "name"@) {
        Some(name_node) => match name_node.text {
            Some(name) => if name == "init"@ {
                d
            } else if is_test(name, n) {
                let chain = seq![name];
                let own = d.with_def(
                    draft::def_of(n, name, DefKind::TestCase, None, Some(chain), false),
                ).opened(n.id).named(name_node.id);
                with_subtests(
                    n,
                    own,
                    Enclosing { at: own.last(), chain },
                    false,
                    test_handle(n),
                ).0
            } else {
                d.with_def(
                    draft::def_of(n, name, DefKind::Function, None, None, false),
                ).opened(n.id).named(name_node.id)
            },
            None => d,
        },
        None => d,
    }
}

/// The name of the type that the method `n` belongs to.
pub open spec fn receiver_type(n: NodeView) -> Option<Seq<char>> {
    match syntax::field_of(n, "receiver"@) {
        Some(receiver) => match syntax::first_of(
            receiver.children,
            "parameter_declaration"@,
            "parameter_declaration"@,
        ) {
            Some(param) => match syntax::field_of(param, "type"@) {
                Some(ty) => if ty.kind == "pointer_type"@ {
                    match syntax::named_child_of(ty, 0) {
                        Some(inner) => inner.text,
                        None => None,
                    }
                } else {
                    ty.text
                },
                None => None,
            },
            None => None,
        },
        None => None,
    }
}

/// What is found when the method `n` is added.
pub open spec fn with_method(n: NodeView, d: DraftView) -> DraftView {
    match syntax::field_of(n, "name"@) {
        Some(name_node) => match (name_node.text, receiver_type(n)) {
            (Some(name), Some(ty)) => d.with_def(
                draft::def_of(n, ty + "."@ + name, DefKind::Method, None, None, false),
            ).opened(n.id),
            _ => d,
        },
        None => d,
    }
}

/// What is found when the functions and methods among `ns` are added.
pub open spec fn with_declarations(ns: Seq<NodeView>, d: DraftView) -> DraftView
    decreases ns.len(),
{
    if ns.len() == 0 {
        d
    } else {
        let before = with_declarations(ns.drop_last(), d);
        let n = ns.last();
        if n.kind == "function_declaration"@ {
            with_function(n, before)
        } else if n.kind == "method_declaration"@ {
            with_method(n, before)
        } else {
            before
        }
    }
}

/// Is this top-level node kept out of the loose code? Functions, methods and
/// imports are, but for `init`, which has no definition of its own.
pub open spec fn stands_alone(n: NodeView) -> bool {
    ||| n.kind == "method_declaration"@
    ||| n.kind == "import_declaration"@
    ||| n.kind == "function_declaration"@ && !(match syntax::field_of(n, "name"@) {
        Some(name) => name.text == Some("init"@),
        None => false,
    })
}

/// Which top-level nodes are kept out of the loose code.
pub open spec fn standing_alone(ns: Seq<NodeView>) -> Seq<bool> {
    Seq::new(ns.len(), |i: int| stands_alone(ns[i]))
}

/// The import that `n` itself writes.
pub open spec fn own_import(n: NodeView) -> Seq<ImportView> {
    if n.kind == "import_spec"@ {
        match syntax::field_of(n, "path"@) {
            Some(path) => if path.kind == "interpreted_string_literal"@ {
                seq![
                    ImportView {
                        raw: literal_content(path),
                        line: syntax::line_of(n.start_row),
                    },
                ]
            } else {
                Seq::empty()
            },
            None => Seq::empty(),
        }
    } else {
        Seq::empty()
    }
}

/// The imports at and below `n`.
pub open spec fn imports_of(n: NodeView) -> Seq<ImportView>
    decreases n,
{
    own_import(n) + imports_in(n.children)
}

/// The imports in `ns`.
pub open spec fn imports_in(ns: Seq<NodeView>) -> Seq<ImportView>
    decreases ns,
{
    if ns.len() == 0 {
        Seq::empty()
    } else {
        imports_in(ns.drop_last()) + imports_of(ns.last())
    }
}

/// The name that `n` itself imports a package under.
pub open spec fn own_alias(n: NodeView) -> Set<Seq<char>> {
    if n.kind == "import_spec"@ {
        match syntax::field_of(n, "name"@) {
            Some(name) => match name.text {
                Some(t) => if name.kind == "package_identifier"@ {
                    set![t]
                } else {
                    Set::empty()
                },
                None => Set::empty(),
            },
            None => Set::empty(),
        }
    } else {
        Set::empty()
    }
}

/// The names that packages are imported under at and below `n`.
pub open spec fn aliases_of(n: NodeView) -> Set<Seq<char>>
    decreases n,
{
    own_alias(n).union(aliases_in(n.children))
}

/// The names that packages are imported under in `ns`.
pub open spec fn aliases_in(ns: Seq<NodeView>) -> Set<Seq<char>>
    decreases ns,
{
    if ns.len() == 0 {
        Set::empty()
    } else {
        aliases_in(ns.drop_last()).union(aliases_of(ns.last()))
    }
}

/// The names of the functions among `defs`.
pub open spec fn function_names(defs: Seq<DefView>) -> Set<Seq<char>>
    decreases defs.len(),
{
    if defs.len() == 0 {
        Set::empty()
    } else {
        let before = function_names(defs.drop_last());
        if defs.last().kind == DefKind::Function {
            before.insert(defs.last().name)
        } else {
            before
        }
    }
}

/// The names of the packages that `imports` write: what follows the last `/`.
pub open spec fn package_names(imports: Seq<ImportView>) -> Set<Seq<char>>
    decreases imports.len(),
{
    if imports.len() == 0 {
        Set::empty()
    } else {
        let before = package_names(imports.drop_last());
        let name = text::after_last(imports.last().raw, '/');
        if name.len() > 0 {
            before.insert(name)
        } else {
            before
        }
    }
}

/// The names that a read may go to: the file's functions, and the packages
/// that it imports, by their own names and by those it gives them.
pub open spec fn known_names(root: NodeView, defs: Seq<DefView>) -> Set<Seq<char>> {
    function_names(defs).union(package_names(imports_of(root))).union(aliases_of(root))
}

/// The references at and below `n`, which stands in the definition `current`.
///
/// A call names what it calls, with what stands before the dot as its
/// qualifier; a call that declares a subtest is none. What is not called is
/// read, if it is a known name or one of the two names in `x.y` is.
pub open spec fn refs_of(
    n: NodeView,
    d: DraftView,
    known: Set<Seq<char>>,
    current: usize,
) -> RefsView
    decreases n,
{
    let def = d.scope_at(n, current);
    if n.kind == "call_expression"@ {
        proof {
            syntax::lemma_field_below(n, "function"@);
            syntax::lemma_field_below(n, "arguments"@);
        }
        let callee = match syntax::field_of(n, "function"@) {
            Some(f) => if f.kind == "identifier"@ {
                RefsView::call(draft::ref_at(def, syntax::text_of(f), None, n))
            } else if f.kind == "selector_expression"@ {
                proof {
                    syntax::lemma_field_below(f, "operand"@);
                }
                match (syntax::field_of(f, "operand"@), syntax::field_of(f, "field"@)) {
                    (Some(operand), Some(field)) => {
                        let own = if d.tests.contains(n.id) {
                            RefsView::none()
                        } else {
                            RefsView::call(
                                draft::ref_at(
                                    def,
                                    syntax::text_of(field),
                                    Some(syntax::text_of(operand)),
                                    n,
                                ),
                            )
                        };
                        if operand.kind != "identifier"@ {
                            own.plus(refs_of(operand, d, known, def))
                        } else {
                            own
                        }
                    },
                    _ => RefsView::none(),
                }
            } else {
                refs_of(f, d, known, def)
            },
            None => RefsView::none(),
        };
        match syntax::field_of(n, "arguments"@) {
            Some(args) => callee.plus(refs_of(args, d, known, def)),
            None => callee,
        }
    } else if n.kind == "selector_expression"@ {
        proof {
            syntax::lemma_field_below(n, "operand"@);
        }
        match (syntax::field_of(n, "operand"@), syntax::field_of(n, "field"@)) {
            (Some(operand), Some(field)) => if operand.kind == "identifier"@ {
                let x = syntax::text_of(operand);
                let y = syntax::text_of(field);
                if known.contains(x) || known.contains(y) {
                    RefsView::read(draft::ref_at(def, y, Some(x), n))
                } else {
                    RefsView::none()
                }
            } else {
                refs_of(operand, d, known, def)
            },
            _ => RefsView::none(),
        }
    } else if n.kind == "identifier"@ {
        let x = syntax::text_of(n);
        if !d.names.contains(n.id) && known.contains(x) {
            RefsView::read(draft::ref_at(def, x, None, n))
        } else {
            RefsView::none()
        }
    } else {
        refs_in(n.children, d, known, def)
    }
}

/// The references in `ns`, which stand in the definition `current`.
pub open spec fn refs_in(
    ns: Seq<NodeView>,
    d: DraftView,
    known: Set<Seq<char>>,
    current: usize,
) -> RefsView
    decreases ns,
{
    if ns.len() == 0 {
        RefsView::none()
    } else {
        refs_in(ns.drop_last(), d, known, current).plus(refs_of(ns.last(), d, known, current))
    }
}

/// Everything found in a file, the definitions first.
pub open spec fn drafted(root: NodeView) -> DraftView {
    with_declarations(
        root.children,
        DraftView::empty().with_def(draft::module_def(root, standing_alone(root.children))),
    )
}

/// Everything extracted from a file.
pub open spec fn extracted(root: NodeView) -> ExtractionView {
    let d = drafted(root);
    let refs = refs_of(root, d, known_names(root, d.defs), 0);
    ExtractionView {
        defs: d.defs,
        imports: imports_of(root),
        calls: draft::firsts(refs.calls),
        reads: draft::firsts(refs.reads),
    }
}

/// The path of the module, which the first line of `go.mod` gives.
pub open spec fn path_of_module(go_mod: Seq<char>) -> Option<Seq<char>> {
    match text::without_prefix(text::split(go_mod, '\n')[0], "module "@) {
        Some(rest) => Some(text::trim(rest)),
        None => None,
    }
}

/// The directory in the module that the import `raw` names.
pub open spec fn resolved(raw: Seq<char>, go_mod: Option<Seq<char>>) -> Option<Seq<char>> {
    match go_mod {
        Some(g) => match path_of_module(g) {
            Some(m) => text::without_prefix(raw, m + "/"@),
            None => None,
        },
        None => None,
    }
}

fn test_prefix_of(name: &str) -> (r: Option<String>)
    ensures
        text::opt_view(r) == test_prefix(name@),
{
    if begins(name, "Test") {
        Some("Test".to_owned())
    } else if begins(name, "Benchmark") {
        Some("Benchmark".to_owned())
    } else if begins(name, "Example") {
        Some("Example".to_owned())
    } else if begins(name, "Fuzz") {
        Some("Fuzz".to_owned())
    } else {
        None
    }
}

fn is_testing_pointer(ty: &SyntaxNode) -> (r: bool)
    ensures
        r == testing_pointer(ty@),
{
    if !ty.is("pointer_type") {
        return false;
    }
    match ty.named_child(0) {
        Some(inner) => inner.is("qualified_type") && match inner.child_by_field("package") {
            Some(package) => package.text_is("testing"),
            None => false,
        },
        None => false,
    }
}

fn are_test_parameters(params: &SyntaxNode, prefix: &str) -> (r: bool)
    ensures
        r == test_parameters(params@, prefix@),
{
    let decls = params.children_of("parameter_declaration");
    assert(syntax::seen(decls@).len() == decls@.len());
    if decls.len() == 0 {
        same(prefix, "Example")
    } else if decls.len() == 1 {
        assert(syntax::seen(decls@)[0] == decls@[0]@);
        match decls[0].child_by_field("type") {
            Some(ty) => is_testing_pointer(ty),
            None => false,
        }
    } else {
        false
    }
}

/// Is the function `n` named `name` a test?
pub fn is_test_function(name: &str, n: &SyntaxNode) -> (r: bool)
    ensures
        r == is_test(name@, n@),
{
    let prefix = match test_prefix_of(name) {
        Some(p) => p,
        None => {
            return false;
        },
    };
    let nc = chars_of(name);
    let pc = chars_of(prefix.as_str());
    let ghost rest = name@.skip(prefix@.len() as int);
    assert(prefix@.len() <= name@.len());
    if pc.len() < nc.len() {
        assert(rest[0] == name@[pc@.len() as int]);
        if !nc[pc.len()].is_uppercase() {
            return false;
        }
    }
    match n.child_by_field("parameters") {
        Some(params) => are_test_parameters(params, prefix.as_str()),
        None => false,
    }
}

fn testing_name_of(decl: &SyntaxNode) -> (r: Option<String>)
    ensures
        text::opt_view(r) == testing_name(decl@),
{
    if !decl.is("parameter_declaration") {
        return None;
    }
    let ty = match decl.child_by_field("type") {
        Some(ty) => ty,
        None => {
            return None;
        },
    };
    let typed: bool = match &ty.text {
        Some(t) => occurs(t.as_str(), "testing."),
        None => false,
    };
    if !typed {
        return None;
    }
    match decl.child_by_field("name") {
        Some(name) => text::copy_opt(&name.text),
        None => None,
    }
}

/// The name by which the function `f` holds its test, empty when it has none.
fn handle_of(f: &SyntaxNode) -> (r: String)
    ensures
        r@ == test_handle(f@),
{
    let params = match f.child_by_field("parameters") {
        Some(p) => p,
        None => {
            return String::new();
        },
    };
    let ghost all = params@.children;
    let count: usize = params.child_count();
    let mut i: usize = 0;
    assert(all.take(0) =~= Seq::empty());
    while i < count
        invariant
            i <= count == all.len(),
            all == params@.children,
            syntax::field_of(f@, "parameters"@) == Some(params@),
            first_testing_name(all.take(i as int)) is None,
        decreases count - i,
    {
        assert(all.take(i + 1).drop_last() =~= all.take(i as int));
        if let Some(name) = testing_name_of(params.child(i)) {
            proof {
                lemma_first_name_prefix(all, i + 1);
            }
            return name;
        }
        i = i + 1;
    }
    assert(all.take(all.len() as int) =~= all);
    String::new()
}

proof fn lemma_first_name_prefix(decls: Seq<NodeView>, k: int)
    requires
        0 <= k <= decls.len(),
        first_testing_name(decls.take(k)) is Some,
    ensures
        first_testing_name(decls) == first_testing_name(decls.take(k)),
    decreases decls.len(),
{
    if k < decls.len() {
        assert(decls.drop_last().take(k) =~= decls.take(k));
        lemma_first_name_prefix(decls.drop_last(), k);
    } else {
        assert(decls.take(k) =~= decls);
    }
}

fn is_run(n: &SyntaxNode, handle: &str) -> (r: bool)
    ensures
        r == is_run_call(n@, handle@),
{
    let hc = chars_of(handle);
    if hc.len() == 0 || !n.is("call_expression") {
        return false;
    }
    match n.child_by_field("function") {
        Some(f) => f.is("selector_expression") && match f.child_by_field("field") {
            Some(field) => field.text_is("Run"),
            None => false,
        } && match f.child_by_field("operand") {
            Some(operand) => operand.is("identifier") && operand.text_is(handle),
            None => false,
        },
        None => false,
    }
}

fn content_of(n: &SyntaxNode) -> (r: String)
    ensures
        r@ == literal_content(n@),
{
    match n.named_child(0) {
        Some(c) => c.text_or_empty(),
        None => String::new(),
    }
}

fn argument(call: &SyntaxNode, i: usize) -> (r: Option<&SyntaxNode>)
    ensures
        match r {
            Some(c) => argument_of(call@, i as int) == Some(c@) && decreases_to!(call => c),
            None => argument_of(call@, i as int) is None,
        },
{
    match call.child_by_field("arguments") {
        Some(args) => args.named_child(i),
        None => None,
    }
}

fn literal_name_of(call: &SyntaxNode) -> (r: Option<String>)
    ensures
        text::opt_view(r) == literal_name(call@),
{
    match argument(call, 0) {
        Some(arg) => if arg.is("interpreted_string_literal") {
            Some(content_of(arg))
        } else {
            None
        },
        None => None,
    }
}

/// Adds the subtests below `n`.
fn walk_subtests(
    n: &SyntaxNode,
    d: &mut Draft,
    at: usize,
    chain: &Vec<String>,
    used: &mut bool,
    handle: &str,
)
    requires
        old(d)@.wf(),
        at < old(d)@.defs.len(),
    ensures
        (final(d)@, *final(used)) == with_subtests(
            n@,
            old(d)@,
            Enclosing { at, chain: text::views(chain@) },
            *old(used),
            handle@,
        ),
        final(d)@.wf(),
        final(d)@.defs.len() >= old(d)@.defs.len(),
    decreases n, 1nat,
{
    if is_run(n, handle) {
        handle_run_call(n, d, at, chain, used);
        return;
    }
    let ghost outer = Enclosing { at, chain: text::views(chain@) };
    let ghost was = d@;
    let ghost had = *used;
    let ghost all = n@.children;
    let count: usize = n.child_count();
    let mut i: usize = 0;
    assert(all.take(0) =~= Seq::empty());
    while i < count
        invariant
            i <= count == all.len(),
            all == n@.children,
            outer == (Enclosing { at, chain: text::views(chain@) }),
            d@.wf(),
            at < was.defs.len() <= d@.defs.len(),
            (d@, *used) == with_subtests_of(all.take(i as int), was, outer, had, handle@),
        decreases count - i,
    {
        assert(all.take(i + 1).drop_last() =~= all.take(i as int));
        walk_subtests(n.child(i), d, at, chain, used, handle);
        i = i + 1;
    }
    assert(all.take(all.len() as int) =~= all);
}

/// Adds the subtest that `call` runs, with the subtests of its callback.
fn handle_run_call(
    call: &SyntaxNode,
    d: &mut Draft,
    at: usize,
    chain: &Vec<String>,
    used: &mut bool,
)
    requires
        old(d)@.wf(),
        at < old(d)@.defs.len(),
    ensures
        (final(d)@, *final(used)) == with_run_call(
            call@,
            old(d)@,
            Enclosing { at, chain: text::views(chain@) },
            *old(used),
        ),
        final(d)@.wf(),
        final(d)@.defs.len() >= old(d)@.defs.len(),
    decreases call, 0nat,
{
    d.test(call.id);
    let literal = literal_name_of(call);
    let computed: bool = literal.is_none();
    if computed && *used {
        return;
    }
    let segment = match literal {
        Some(name) => name,
        None => "<computed>".to_owned(),
    };
    let mut id = copy_all(chain);
    let ghost before = id@;
    id.push(segment.clone());
    assert(text::views(id@) =~= text::views(before).push(segment@));
    let inner_chain = copy_all(&id);
    d.add(call, segment, DefKind::TestCase, Some(at), Some(id), computed);
    let inner: usize = d.last();
    if let Some(callback) = argument(call, 1) {
        d.open(callback.id);
        let handle = handle_of(callback);
        let mut nested: bool = false;
        walk_subtests(callback, d, inner, &inner_chain, &mut nested, handle.as_str());
    }
    if computed {
        *used = true;
    }
}

/// Adds the function `n`, a test with its subtests.
fn handle_function_declaration(n: &SyntaxNode, d: &mut Draft)
    requires
        old(d)@.wf(),
    ensures
        final(d)@ == with_function(n@, old(d)@),
        final(d)@.wf(),
        final(d)@.defs.len() >= old(d)@.defs.len(),
{
    let name_node = match n.child_by_field("name") {
        Some(x) => x,
        None => {
            return;
        },
    };
    let name: &String = match &name_node.text {
        Some(t) => t,
        None => {
            return;
        },
    };
    if same(name.as_str(), "init") {
        return;
    }
    if is_test_function(name.as_str(), n) {
        let mut id: Vec<String> = Vec::new();
        id.push(name.clone());
        assert(text::views(id@) =~= seq![name@]);
        let chain = copy_all(&id);
        d.add(n, name.clone(), DefKind::TestCase, None, Some(id), false);
        d.open(n.id);
        d.name(name_node.id);
        let at: usize = d.last();
        let handle = handle_of(n);
        let mut used: bool = false;
        walk_subtests(n, d, at, &chain, &mut used, handle.as_str());
        return;
    }
    d.add(n, name.clone(), DefKind::Function, None, None, false);
    d.open(n.id);
    d.name(name_node.id);
}

fn receiver_type_name(n: &SyntaxNode) -> (r: Option<String>)
    ensures
        text::opt_view(r) == receiver_type(n@),
{
    let receiver = match n.child_by_field("receiver") {
        Some(x) => x,
        None => {
            return None;
        },
    };
    let param = match receiver.first_child_of("parameter_declaration", "parameter_declaration") {
        Some(x) => x,
        None => {
            return None;
        },
    };
    let ty = match param.child_by_field("type") {
        Some(x) => x,
        None => {
            return None;
        },
    };
    if ty.is("pointer_type") {
        match ty.named_child(0) {
            Some(inner) => text::copy_opt(&inner.text),
            None => None,
        }
    } else {
        text::copy_opt(&ty.text)
    }
}

/// Adds the method `n`.
fn handle_method_declaration(n: &SyntaxNode, d: &mut Draft)
    requires
        old(d)@.wf(),
    ensures
        final(d)@ == with_method(n@, old(d)@),
        final(d)@.wf(),
        final(d)@.defs.len() >= old(d)@.defs.len(),
{
    if let Some(name_node) = n.child_by_field("name") {
        if let Some(name) = &name_node.text {
            if let Some(ty) = receiver_type_name(n) {
                let full = cat3(ty.as_str(), ".", name.as_str());
                d.add(n, full, DefKind::Method, None, None, false);
                d.open(n.id);
            }
        }
    }
}

fn is_alone(n: &SyntaxNode) -> (r: bool)
    ensures
        r == stands_alone(n@),
{
    n.is("method_declaration") || n.is("import_declaration") || (n.is("function_declaration")
        && match n.child_by_field("name") {
        Some(name) => !name.text_is("init"),
        None => true,
    })
}

/// Collects the imports at and below `n`.
fn collect_imports(n: &SyntaxNode, out: &mut Vec<ImportRef>)
    ensures
        language::import_views(final(out)@) == language::import_views(old(out)@) + imports_of(n@),
    decreases n,
{
    let ghost was = language::import_views(out@);
    if n.is("import_spec") {
        if let Some(path) = n.child_by_field("path") {
            if path.is("interpreted_string_literal") {
                let i = ImportRef { raw: content_of(path), line: line(n.start_row) };
                let ghost before = out@;
                out.push(i);
                assert(language::import_views(out@) =~= language::import_views(before).push(i@));
            }
        }
    }
    assert(language::import_views(out@) =~= was + own_import(n@));
    let ghost all = n@.children;
    let count: usize = n.child_count();
    let mut i: usize = 0;
    assert(all.take(0) =~= Seq::empty());
    assert(was + own_import(n@) =~= was + own_import(n@) + imports_in(all.take(0)));
    while i < count
        invariant
            i <= count == all.len(),
            all == n@.children,
            language::import_views(out@) == was + own_import(n@) + imports_in(all.take(i as int)),
        decreases count - i,
    {
        assert(all.take(i + 1).drop_last() =~= all.take(i as int));
        collect_imports(n.child(i), out);
        assert(language::import_views(out@) =~= was + own_import(n@) + imports_in(all.take(i + 1)));
        i = i + 1;
    }
    assert(all.take(all.len() as int) =~= all);
    assert(language::import_views(out@) =~= was + imports_of(n@));
}

/// Collects the names that packages are imported under at and below `n`.
fn collect_aliases(n: &SyntaxNode, out: &mut StringHashSet)
    ensures
        final(out)@ == old(out)@.union(aliases_of(n@)),
    decreases n,
{
    let ghost was = out@;
    if n.is("import_spec") {
        if let Some(name) = n.child_by_field("name") {
            if let Some(t) = &name.text {
                if name.is("package_identifier") {
                    out.insert(t.clone());
                }
            }
        }
    }
    assert(out@ =~= was.union(own_alias(n@)));
    let ghost all = n@.children;
    let count: usize = n.child_count();
    let mut i: usize = 0;
    assert(all.take(0) =~= Seq::empty());
    assert(out@ =~= was.union(own_alias(n@)).union(aliases_in(all.take(0))));
    while i < count
        invariant
            i <= count == all.len(),
            all == n@.children,
            out@ == was.union(own_alias(n@)).union(aliases_in(all.take(i as int))),
        decreases count - i,
    {
        assert(all.take(i + 1).drop_last() =~= all.take(i as int));
        collect_aliases(n.child(i), out);
        assert(out@ =~= was.union(own_alias(n@)).union(aliases_in(all.take(i + 1))));
        i = i + 1;
    }
    assert(all.take(all.len() as int) =~= all);
    assert(out@ =~= was.union(aliases_of(n@)));
}

/// The names that a read may go to.
fn build_known_names(
    root: &SyntaxNode,
    defs: &Vec<ExtractedDef>,
    imports: &Vec<ImportRef>,
) -> (r: StringHashSet)
    requires
        language::import_views(imports@) == imports_of(root@),
    ensures
        r@ == known_names(root@, language::def_views(defs@)),
{
    let ghost dv = language::def_views(defs@);
    let ghost iv = language::import_views(imports@);
    let mut names: StringHashSet = StringHashSet::new();
    let mut i: usize = 0;
    assert(dv.take(0) =~= Seq::empty());
    assert(iv.take(0) =~= Seq::empty());
    while i < defs.len()
        invariant
            i <= defs@.len() == dv.len(),
            dv == language::def_views(defs@),
            names@ == function_names(dv.take(i as int)),
        decreases defs@.len() - i,
    {
        assert(dv.take(i + 1).drop_last() =~= dv.take(i as int));
        assert(dv.take(i + 1).last() == defs@[i as int]@);
        if defs[i].kind == DefKind::Function {
            names.insert(defs[i].name.clone());
        }
        i = i + 1;
    }
    assert(dv.take(dv.len() as int) =~= dv);
    let ghost funs = names@;
    i = 0;
    assert(names@ =~= funs.union(package_names(iv.take(0))));
    while i < imports.len()
        invariant
            i <= imports@.len() == iv.len(),
            iv == language::import_views(imports@),
            names@ == funs.union(package_names(iv.take(i as int))),
        decreases imports@.len() - i,
    {
        assert(iv.take(i + 1).drop_last() =~= iv.take(i as int));
        assert(iv.take(i + 1).last() == imports@[i as int]@);
        let name = tail_after(imports[i].raw.as_str(), '/');
        if !same(name.as_str(), "") {
            proof {
                reveal_strlit("");
                if name@.len() == 0 {
                    assert(name@ =~= ""@);
                }
            }
            names.insert(name);
        } else {
            proof {
                reveal_strlit("");
            }
        }
        assert(names@ =~= funs.union(package_names(iv.take(i + 1))));
        i = i + 1;
    }
    assert(iv.take(iv.len() as int) =~= iv);
    collect_aliases(root, &mut names);
    names
}

/// Adds the references at and below `n`.
fn walk_refs(n: &SyntaxNode, d: &Draft, known: &StringHashSet, current: usize, out: &mut Refs)
    requires
        d@.wf(),
        current < d@.defs.len(),
        old(out)@.from_within(d@.defs.len() as int),
    ensures
        final(out)@ == old(out)@.plus(refs_of(n@, d@, known@, current)),
        final(out)@.from_within(d@.defs.len() as int),
    decreases n,
{
    let ghost was = out@;
    let def: usize = d.scope_of(n, current);
    if n.is("call_expression") {
        let declares: bool = d.is_test(n);
        if let Some(f) = n.child_by_field("function") {
            if f.is("identifier") {
                out.call(def, f.text_or_empty(), None, n);
            } else if f.is("selector_expression") {
                if let Some(operand) = f.child_by_field("operand") {
                    if let Some(field) = f.child_by_field("field") {
                        if !declares {
                            out.call(def, field.text_or_empty(), Some(operand.text_or_empty()), n);
                        }
                        if !operand.is("identifier") {
                            walk_refs(operand, d, known, def, out);
                        }
                    }
                }
            } else {
                walk_refs(f, d, known, def, out);
            }
        }
        if let Some(args) = n.child_by_field("arguments") {
            walk_refs(args, d, known, def, out);
        }
        assert(out@ =~= was.plus(refs_of(n@, d@, known@, current)));
    } else if n.is("selector_expression") {
        if let Some(operand) = n.child_by_field("operand") {
            if let Some(field) = n.child_by_field("field") {
                if operand.is("identifier") {
                    let x = operand.text_or_empty();
                    let y = field.text_or_empty();
                    if known.contains(x.as_str()) || known.contains(y.as_str()) {
                        out.read(def, y, Some(x), n);
                    }
                } else {
                    walk_refs(operand, d, known, def, out);
                }
            }
        }
        assert(out@ =~= was.plus(refs_of(n@, d@, known@, current)));
    } else if n.is("identifier") {
        if !d.is_name(n) {
            let x = n.text_or_empty();
            if known.contains(x.as_str()) {
                out.read(def, x, None, n);
            }
        }
        assert(out@ =~= was.plus(refs_of(n@, d@, known@, current)));
    } else {
        let ghost all = n@.children;
        let count: usize = n.child_count();
        let mut i: usize = 0;
        assert(all.take(0) =~= Seq::empty());
        assert(out@ =~= was.plus(refs_in(all.take(0), d@, known@, def)));
        while i < count
            invariant
                i <= count == all.len(),
                all == n@.children,
                d@.wf(),
                def < d@.defs.len(),
                out@.from_within(d@.defs.len() as int),
                out@ == was.plus(refs_in(all.take(i as int), d@, known@, def)),
            decreases count - i,
        {
            assert(all.take(i + 1).drop_last() =~= all.take(i as int));
            walk_refs(n.child(i), d, known, def, out);
            assert(out@ =~= was.plus(refs_in(all.take(i + 1), d@, known@, def)));
            i = i + 1;
        }
        assert(all.take(all.len() as int) =~= all);
    }
}

/// The definitions of a file.
fn draft_of(root: &SyntaxNode) -> (d: Draft)
    ensures
        d@ == drafted(root@),
        d@.wf(),
        d@.defs.len() > 0,
{
    let ghost all = root@.children;
    let count: usize = root.child_count();
    let mut skip: Vec<bool> = Vec::new();
    let mut i: usize = 0;
    while i < count
        invariant
            i <= count == all.len(),
            all == root@.children,
            skip@.len() == i,
            forall|j: int| 0 <= j < i ==> skip@[j] == stands_alone(#[trigger] all[j]),
        decreases count - i,
    {
        skip.push(is_alone(root.child(i)));
        i = i + 1;
    }
    assert(skip@ =~= standing_alone(all));
    let mut d = Draft::of_module(root, &skip);
    let ghost first = d@;
    i = 0;
    assert(all.take(0) =~= Seq::empty());
    while i < count
        invariant
            i <= count == all.len(),
            all == root@.children,
            d@ == with_declarations(all.take(i as int), first),
            d@.wf(),
            d@.defs.len() > 0,
        decreases count - i,
    {
        let n = root.child(i);
        assert(all.take(i + 1).drop_last() =~= all.take(i as int));
        if n.is("function_declaration") {
            handle_function_declaration(n, &mut d);
        } else if n.is("method_declaration") {
            handle_method_declaration(n, &mut d);
        }
        i = i + 1;
    }
    assert(all.take(all.len() as int) =~= all);
    d
}

impl Language for GoLanguage {
    open spec fn spec_id(&self) -> Seq<char> {
        "go"@
    }

    open spec fn spec_extensions(&self) -> Seq<Seq<char>> {
        seq!["go"@]
    }

    open spec fn spec_grammar(&self, path: Seq<char>) -> Grammar {
        Grammar::Go
    }

    open spec fn spec_extract(&self, tree: NodeView) -> ExtractionView {
        extracted(tree)
    }

    open spec fn spec_probes(&self, from_file: Seq<char>, raw: Seq<char>) -> Seq<Seq<char>> {
        Seq::empty()
    }

    open spec fn spec_resolve(
        &self,
        from_file: Seq<char>,
        raw: Seq<char>,
        repo: FactsView,
    ) -> Option<Seq<char>> {
        resolved(raw, repo.go_mod)
    }

    open spec fn spec_package_key(&self, file: Seq<char>) -> Option<Seq<char>> {
        Some(paths::directory_of(file))
    }

    fn id(&self) -> (r: String) {
        "go".to_owned()
    }

    fn extensions(&self) -> (r: Vec<String>) {
        let mut out: Vec<String> = Vec::new();
        out.push("go".to_owned());
        assert(text::views(out@) =~= self.spec_extensions());
        out
    }

    fn grammar(&self, path: &str) -> (r: Grammar) {
        Grammar::Go
    }

    fn extract(&self, tree: &SyntaxNode) -> (r: Extraction) {
        let d = draft_of(tree);
        let mut imports: Vec<ImportRef> = Vec::new();
        assert(language::import_views(imports@) =~= Seq::empty());
        collect_imports(tree, &mut imports);
        assert(language::import_views(imports@) =~= imports_of(tree@));
        let known = build_known_names(tree, &d.defs, &imports);
        let mut refs = Refs::new();
        walk_refs(tree, &d, &known, 0, &mut refs);
        proof {
            draft::lemma_plus(refs_of(tree@, d@, known@, 0), RefsView::none(), RefsView::none());
        }
        let ghost n = d@.defs.len() as int;
        let ghost all = refs@;
        assert(draft::all_from(all.calls, n) && draft::all_from(all.reads, n));
        let calls = dedup_refs(refs.calls);
        let reads = dedup_refs(refs.reads);
        assert(draft::all_from(language::ref_views(calls@), n));
        assert(draft::all_from(language::ref_views(reads@), n));
        Extraction { defs: d.defs, imports, calls, reads }
    }

    fn import_probes(&self, from_file: &str, raw: &str) -> (r: Vec<String>) {
        let out: Vec<String> = Vec::new();
        assert(text::views(out@) =~= Seq::empty());
        out
    }

    fn resolve_import(&self, from_file: &str, raw: &str, repo: &RepoFacts) -> (r: Option<String>) {
        let go_mod: &String = match &repo.go_mod {
            Some(g) => g,
            None => {
                return None;
            },
        };
        let lines = text::split_on(go_mod.as_str(), '\n');
        assert(text::views(lines@)[0] == lines@[0]@);
        match cut_prefix(lines[0].as_str(), "module ") {
            Some(rest) => {
                let m = trimmed(rest.as_str());
                let dir = cat(m.as_str(), "/");
                cut_prefix(raw, dir.as_str())
            },
            None => None,
        }
    }

    fn package_key(&self, file: &str) -> (r: Option<String>) {
        Some(paths::directory(file))
    }
}

/// Is this the declaration of an `init`?
pub open spec fn is_init(n: NodeView) -> bool {
    n.kind == "function_declaration"@ && match syntax::field_of(n, "name"@) {
        Some(name) => name.text == Some("init"@),
        None => false,
    }
}

/// The bytes that the loose top-level code of a file is hashed by.
pub open spec fn module_bytes(root: NodeView) -> Seq<u8> {
    fingerprint::loose_stream(root.children, standing_alone(root.children))
}

/// Do the two files differ in their top-level node `p` alone, comments and
/// formatting left out?
pub open spec fn edited_at(a: NodeView, b: NodeView, p: int) -> bool {
    &&& a.children.len() == b.children.len()
    &&& 0 <= p < a.children.len()
    &&& forall|i: int|
        0 <= i < a.children.len() && i != p ==> stands_alone(#[trigger] a.children[i])
            == stands_alone(b.children[i]) && fingerprint::stream(a.children[i])
            == fingerprint::stream(b.children[i])
}

/// Does `e` begin with the definitions of `d`?
pub open spec fn goes_on(d: DraftView, e: DraftView) -> bool {
    &&& d.defs.len() <= e.defs.len()
    &&& forall|i: int| 0 <= i < d.defs.len() ==> #[trigger] e.defs[i] == d.defs[i]
}

proof fn lemma_goes_on(a: DraftView, b: DraftView, c: DraftView)
    requires
        goes_on(a, b),
        goes_on(b, c),
    ensures
        goes_on(a, c),
{
    assert forall|i: int| 0 <= i < a.defs.len() implies #[trigger] c.defs[i] == a.defs[i] by {
        assert(b.defs[i] == a.defs[i]);
    }
}

/// Subtests take no definition away.
pub proof fn lemma_subtests_grow(
    n: NodeView,
    d: DraftView,
    outer: Enclosing,
    used: bool,
    handle: Seq<char>,
)
    ensures
        goes_on(d, with_subtests(n, d, outer, used, handle).0),
{
    lemma_subtests_go_on(n, d, outer, used, handle);
}

proof fn lemma_subtests_go_on(
    n: NodeView,
    d: DraftView,
    outer: Enclosing,
    used: bool,
    handle: Seq<char>,
)
    ensures
        goes_on(d, with_subtests(n, d, outer, used, handle).0),
    decreases n, 1nat,
{
    if is_run_call(n, handle) {
        lemma_run_call_goes_on(n, d, outer, used);
    } else {
        lemma_all_subtests_go_on(n.children, d, outer, used, handle);
    }
}

proof fn lemma_all_subtests_go_on(
    ns: Seq<NodeView>,
    d: DraftView,
    outer: Enclosing,
    used: bool,
    handle: Seq<char>,
)
    ensures
        goes_on(d, with_subtests_of(ns, d, outer, used, handle).0),
    decreases ns, 0nat,
{
    if ns.len() > 0 {
        let before = with_subtests_of(ns.drop_last(), d, outer, used, handle);
        lemma_all_subtests_go_on(ns.drop_last(), d, outer, used, handle);
        lemma_subtests_go_on(ns.last(), before.0, outer, before.1, handle);
        lemma_goes_on(d, before.0, with_subtests_of(ns, d, outer, used, handle).0);
    }
}

proof fn lemma_run_call_goes_on(call: NodeView, d: DraftView, outer: Enclosing, used: bool)
    ensures
        goes_on(d, with_run_call(call, d, outer, used).0),
    decreases call, 0nat,
{
    let computed = literal_name(call) is None;
    if !(computed && used) {
        let segment = match literal_name(call) {
            Some(name) => name,
            None => "<computed>"@,
        };
        let chain = outer.chain.push(segment);
        let own = d.tested(call.id).with_def(
            draft::def_of(
                call,
                segment,
                DefKind::TestCase,
                Some(outer.at),
                Some(chain),
                computed,
            ),
        );
        if let Some(callback) = argument_of(call, 1) {
            lemma_argument_below(call, 1);
            lemma_subtests_go_on(
                callback,
                own.opened(callback.id),
                Enclosing { at: own.last(), chain },
                false,
                test_handle(callback),
            );
            lemma_goes_on(d, own.opened(callback.id), with_run_call(call, d, outer, used).0);
        }
    }
}

pub proof fn lemma_declarations_go_on(ns: Seq<NodeView>, d: DraftView)
    ensures
        goes_on(d, with_declarations(ns, d)),
    decreases ns.len(),
{
    if ns.len() > 0 {
        let before = with_declarations(ns.drop_last(), d);
        lemma_declarations_go_on(ns.drop_last(), d);
        let n = ns.last();
        if n.kind == "function_declaration"@ {
            if let Some(name_node) = syntax::field_of(n, "name"@) {
                if let Some(name) = name_node.text {
                    if name != "init"@ && is_test(name, n) {
                        let chain = seq![name];
                        let own = before.with_def(
                            draft::def_of(n, name, DefKind::TestCase, None, Some(chain), false),
                        ).opened(n.id).named(name_node.id);
                        lemma_subtests_go_on(
                            n,
                            own,
                            Enclosing { at: own.last(), chain },
                            false,
                            test_handle(n),
                        );
                        lemma_goes_on(before, own, with_declarations(ns, d));
                    }
                }
            }
        }
        lemma_goes_on(d, before, with_declarations(ns, d));
    }
}

/// The first definition of a file is its module init, whose fingerprint is
/// that of the loose top-level code.
pub proof fn law_module_init_comes_first(root: NodeView)
    ensures
        extracted(root).defs.len() > 0,
        extracted(root).defs[0].kind == DefKind::ModuleInit,
        extracted(root).defs[0].sig_hash == fingerprint::blake3_hash(module_bytes(root)),
{
    lemma_declarations_go_on(
        root.children,
        DraftView::empty().with_def(draft::module_def(root, standing_alone(root.children))),
    );
}

proof fn lemma_module_bytes(a: NodeView, b: NodeView, p: int)
    requires
        edited_at(a, b, p),
        stands_alone(a.children[p]) == stands_alone(b.children[p]),
    ensures
        module_bytes(a) == module_bytes(b) <==> (!stands_alone(a.children[p]) ==>
            fingerprint::stream(a.children[p]) == fingerprint::stream(b.children[p])),
{
    let x = standing_alone(a.children);
    let y = standing_alone(b.children);
    fingerprint::lemma_kept_around(
        a.children,
        b.children,
        p,
        |i: int| !x[i],
        |i: int| !y[i],
    );
}

/// `init` has no definition of its own: an edit of it changes what the file's
/// module init is hashed by, as long as it changes more than comments and
/// formatting; and so its fingerprint, where the bytes do not collide.
pub proof fn law_init_edit_changes_module_init(a: NodeView, b: NodeView, p: int)
    requires
        edited_at(a, b, p),
        is_init(a.children[p]),
        is_init(b.children[p]),
    ensures
        module_bytes(a) == module_bytes(b) <==> fingerprint::stream(a.children[p])
            == fingerprint::stream(b.children[p]),
        fingerprint::no_collision(module_bytes(a), module_bytes(b)) ==> (extracted(
            a,
        ).defs[0].sig_hash == extracted(b).defs[0].sig_hash <==> fingerprint::stream(a.children[p])
            == fingerprint::stream(b.children[p])),
{
    law_module_init_comes_first(a);
    law_module_init_comes_first(b);
    reveal_strlit("function_declaration");
    reveal_strlit("method_declaration");
    reveal_strlit("import_declaration");
    assert("function_declaration"@[0] != "method_declaration"@[0]);
    assert("function_declaration"@[0] != "import_declaration"@[0]);
    lemma_module_bytes(a, b, p);
}

/// An edit of a function other than `init`, of a method or of an import
/// leaves the file's module init as it was.
pub proof fn law_other_edits_keep_module_init(a: NodeView, b: NodeView, p: int)
    requires
        edited_at(a, b, p),
        stands_alone(a.children[p]),
        stands_alone(b.children[p]),
    ensures
        module_bytes(a) == module_bytes(b),
        extracted(a).defs[0].sig_hash == extracted(b).defs[0].sig_hash,
{
    lemma_module_bytes(a, b, p);
    law_module_init_comes_first(a);
    law_module_init_comes_first(b);
}

} // verus!
