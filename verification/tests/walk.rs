use testless::classify::{Seed, SeedKind};
use testless::graph::{CallTarget, Def, DefId, DefKind, Edge, FileId, FileNode, Graph};
use testless::walk::{impacted_tests, impacted_tests_with_paths, HopKind};

/// A fresh, empty graph to build a hand-authored scenario on top of.
fn g() -> Graph {
    Graph::default()
}

fn file(g: &mut Graph, path: &str) -> FileId {
    g.add_file(FileNode {
        path: path.to_string(),
        hash: [0; 32],
        lang: "ts".into(),
    })
}

fn def(g: &mut Graph, name: &str, kind: DefKind, file: FileId) -> DefId {
    g.add_def(Def {
        name: name.into(),
        kind,
        file,
        start_line: 1,
        end_line: 2,
        test_id: None,
        computed_name: false,
    })
}

fn seed(def: DefId) -> Seed {
    Seed {
        def,
        kind: SeedKind::Body,
    }
}

#[test]
fn caller_chain_reaches_test() {
    // add <- calculate <- test "t1"; seed add(Body) -> [t1]
    let mut g = g();
    let f = file(&mut g, "a.ts");
    let add = def(&mut g, "add", DefKind::Function, f);
    let calculate = def(&mut g, "calculate", DefKind::Function, f);
    let t1 = def(&mut g, "t1", DefKind::TestCase, f);
    g.add_edge(Edge::Calls {
        from: calculate,
        to: CallTarget::Resolved(add),
    });
    g.add_edge(Edge::Calls {
        from: t1,
        to: CallTarget::Resolved(calculate),
    });

    let result = impacted_tests(&g, &[seed(add)]);
    assert_eq!(result, vec![t1]);
}

#[test]
fn unknown_name_widens_to_matching_callers() {
    // test t2 has Calls{Unknown("add")}; seed def add -> t2 selected
    let mut g = g();
    let f = file(&mut g, "a.ts");
    let add = def(&mut g, "add", DefKind::Function, f);
    let t2 = def(&mut g, "t2", DefKind::TestCase, f);
    g.add_edge(Edge::Calls {
        from: t2,
        to: CallTarget::Unknown("add".into()),
    });

    let result = impacted_tests(&g, &[seed(add)]);
    assert_eq!(result, vec![t2]);
}

#[test]
fn module_init_seed_selects_transitive_importer_tests() {
    // file A (module_init M) <- imports - file B <- imports - file C(test t3)
    // seed M -> t3 selected (via importer closure), tests in A too
    let mut g = g();
    let fa = file(&mut g, "a.ts");
    let fb = file(&mut g, "b.ts");
    let fc = file(&mut g, "c.ts");

    let m_a = def(&mut g, "<module>", DefKind::ModuleInit, fa);
    let t_a = def(&mut g, "ta", DefKind::TestCase, fa);
    let _m_b = def(&mut g, "<module>", DefKind::ModuleInit, fb);
    let _m_c = def(&mut g, "<module>", DefKind::ModuleInit, fc);
    let t3 = def(&mut g, "t3", DefKind::TestCase, fc);

    // B imports A; C imports B.
    g.add_edge(Edge::Imports { from: fb, to: fa });
    g.add_edge(Edge::Imports { from: fc, to: fb });

    let result = impacted_tests(&g, &[seed(m_a)]);
    let mut expected = vec![t_a, t3];
    expected.sort();
    assert_eq!(result, expected);
}

#[test]
fn reads_edge_reaches_test() {
    // test reads CONST; seed CONST def -> test
    let mut g = g();
    let f = file(&mut g, "a.ts");
    let constant = def(&mut g, "CONST", DefKind::Function, f);
    let t4 = def(&mut g, "t4", DefKind::TestCase, f);
    g.add_edge(Edge::Reads {
        from: t4,
        to: constant,
    });

    let result = impacted_tests(&g, &[seed(constant)]);
    assert_eq!(result, vec![t4]);
}

#[test]
fn contains_reverse_reaches_parent() {
    // class C contains method m; test calls... m's parent C: seed m -> C enqueued;
    // test calling C (constructor) -> selected
    let mut g = g();
    let f = file(&mut g, "a.ts");
    let class_c = def(&mut g, "C", DefKind::Class, f);
    let method_m = def(&mut g, "C.m", DefKind::Method, f);
    let t5 = def(&mut g, "t5", DefKind::TestCase, f);
    g.add_edge(Edge::Contains {
        parent: class_c,
        child: method_m,
    });
    g.add_edge(Edge::Calls {
        from: t5,
        to: CallTarget::Resolved(class_c),
    });

    let result = impacted_tests(&g, &[seed(method_m)]);
    assert_eq!(result, vec![t5]);
}

/// Regression: `index_repo_incremental` wires every parentless def (an
/// ordinary top-level function, not just genuinely nested ones) to its
/// file's `ModuleInit` via `Contains`, purely as bookkeeping; that
/// edge must NOT reverse-propagate into the `ModuleInit` importer-
/// closure widening, or every top-level def change would sweep in
/// every test in its file (and every transitively importing file)
/// regardless of whether it actually calls/reads the changed def.
/// Here `fn_add` and `fn_other` are unrelated siblings in the same
/// file, each only its own file's `Contains`-child of `ModuleInit`
/// (mirroring real indexer output, NOT a genuine module-init change);
/// seeding `fn_add` must select only `test_add` (a real caller), never
/// `test_other` (which calls the unrelated sibling).
#[test]
fn module_init_container_does_not_widen_unrelated_top_level_def() {
    let mut g = g();
    let f = file(&mut g, "a.ts");
    let m_a = def(&mut g, "<module>", DefKind::ModuleInit, f);
    let fn_add = def(&mut g, "add", DefKind::Function, f);
    let fn_other = def(&mut g, "other", DefKind::Function, f);
    let test_add = def(&mut g, "test_add", DefKind::TestCase, f);
    let test_other = def(&mut g, "test_other", DefKind::TestCase, f);

    g.add_edge(Edge::Contains {
        parent: m_a,
        child: fn_add,
    });
    g.add_edge(Edge::Contains {
        parent: m_a,
        child: fn_other,
    });
    g.add_edge(Edge::Contains {
        parent: m_a,
        child: test_add,
    });
    g.add_edge(Edge::Contains {
        parent: m_a,
        child: test_other,
    });
    g.add_edge(Edge::Calls {
        from: test_add,
        to: CallTarget::Resolved(fn_add),
    });
    g.add_edge(Edge::Calls {
        from: test_other,
        to: CallTarget::Resolved(fn_other),
    });

    let result = impacted_tests(&g, &[seed(fn_add)]);
    assert_eq!(result, vec![test_add]);
}

#[test]
fn test_helper_propagation() {
    // helper TestCase h called by test t; seed something reaching h -> both h and t collected
    let mut g = g();
    let f = file(&mut g, "a.ts");
    let src = def(&mut g, "src", DefKind::Function, f);
    let helper = def(&mut g, "h", DefKind::TestCase, f);
    let test_t = def(&mut g, "t", DefKind::TestCase, f);
    g.add_edge(Edge::Calls {
        from: helper,
        to: CallTarget::Resolved(src),
    });
    g.add_edge(Edge::Calls {
        from: test_t,
        to: CallTarget::Resolved(helper),
    });

    let result = impacted_tests(&g, &[seed(src)]);
    let mut expected = vec![helper, test_t];
    expected.sort();
    assert_eq!(result, expected);
}

#[test]
fn module_init_widened_test_propagates_to_external_caller() {
    // File A: module_init M_a, helper TestCase H (no import relationship
    // needed here: H is collected directly as a TestCase in A's own
    // file during the module_init importer-closure step). File B:
    // TestCase T_ext calls H directly (Calls{Resolved(H)}).
    // Seed M_a -> H is collected via the module_init closure step, but
    // that collection must ALSO enqueue H (not just record it as a
    // test) so the main loop keeps walking through H's callers and
    // reaches T_ext, per "test helper propagation": a test helper
    // reached via ANY path (including module-init widening, not just
    // ordinary caller chains) must keep propagating to its own callers.
    let mut g = g();
    let fa = file(&mut g, "a.ts");
    let fb = file(&mut g, "b.ts");

    let m_a = def(&mut g, "<module>", DefKind::ModuleInit, fa);
    let helper_h = def(&mut g, "h", DefKind::TestCase, fa);
    let t_ext = def(&mut g, "t_ext", DefKind::TestCase, fb);
    g.add_edge(Edge::Calls {
        from: t_ext,
        to: CallTarget::Resolved(helper_h),
    });

    let result = impacted_tests(&g, &[seed(m_a)]);
    let mut expected = vec![helper_h, t_ext];
    expected.sort();
    assert_eq!(result, expected);
}

#[test]
fn unknown_widening_fires_for_def_reached_mid_walk() {
    // Seed X; Y calls X (Calls{from: Y, to: Resolved(X)}), so visiting
    // (seeded) X enqueues Y as its caller; Y is reached MID-WALK, not
    // itself a seed. Elsewhere, test T has an unresolved call matching
    // Y's short name. Widening must be evaluated for every def dequeued
    // during the walk (not just seeds), so T must still be selected.
    let mut g = g();
    let f = file(&mut g, "a.ts");
    let x = def(&mut g, "x", DefKind::Function, f);
    let y = def(&mut g, "y", DefKind::Function, f);
    let t = def(&mut g, "t", DefKind::TestCase, f);
    g.add_edge(Edge::Calls {
        from: y,
        to: CallTarget::Resolved(x),
    });
    g.add_edge(Edge::Calls {
        from: t,
        to: CallTarget::Unknown("y".into()),
    });

    let result = impacted_tests(&g, &[seed(x)]);
    assert_eq!(result, vec![t]);
}

#[test]
fn dotted_method_name_widens_via_unknown_call() {
    // Visited def "Calc.push" (a Method, seeded directly); test with
    // Calls{Unknown("push")} must match on the last `.`-segment of the
    // dotted method name.
    let mut g = g();
    let f = file(&mut g, "a.ts");
    let push_method = def(&mut g, "Calc.push", DefKind::Method, f);
    let t = def(&mut g, "t", DefKind::TestCase, f);
    g.add_edge(Edge::Calls {
        from: t,
        to: CallTarget::Unknown("push".into()),
    });

    let result = impacted_tests(&g, &[seed(push_method)]);
    assert_eq!(result, vec![t]);
}

#[test]
fn deterministic_order_and_no_dupes() {
    // two seeds reaching same test -> once, sorted
    let mut g = g();
    let f = file(&mut g, "a.ts");
    let a = def(&mut g, "a", DefKind::Function, f);
    let b = def(&mut g, "b", DefKind::Function, f);
    let t_c = def(&mut g, "tc", DefKind::TestCase, f);
    g.add_edge(Edge::Calls {
        from: t_c,
        to: CallTarget::Resolved(a),
    });
    g.add_edge(Edge::Calls {
        from: t_c,
        to: CallTarget::Resolved(b),
    });
    // Two more tests, seeded directly (as TestCase seeds), out of
    // ascending order, to check the output is sorted regardless of
    // seed order or discovery order.
    let t_a = def(&mut g, "ta", DefKind::TestCase, f);
    let t_b = def(&mut g, "tb", DefKind::TestCase, f);

    let seeds = vec![seed(b), seed(t_b), seed(t_a), seed(a)];
    let result = impacted_tests(&g, &seeds);

    assert_eq!(result, vec![t_c, t_a, t_b].into_iter().collect::<Vec<_>>());
    // Explicitly assert ascending order + no duplicates.
    let mut sorted = result.clone();
    sorted.sort();
    sorted.dedup();
    assert_eq!(result, sorted);
}

#[test]
fn a_path_leads_from_the_seed_to_the_test() {
    let mut g = g();
    let f = file(&mut g, "a.ts");
    let add = def(&mut g, "add", DefKind::Function, f);
    let calculate = def(&mut g, "calculate", DefKind::Function, f);
    let t1 = def(&mut g, "t1", DefKind::TestCase, f);
    let t2 = def(&mut g, "t2", DefKind::TestCase, f);
    g.add_edge(Edge::Calls {
        from: calculate,
        to: CallTarget::Resolved(add),
    });
    g.add_edge(Edge::Reads {
        from: t1,
        to: calculate,
    });
    g.add_edge(Edge::Calls {
        from: t2,
        to: CallTarget::Unknown("calculate".into()),
    });

    let found = impacted_tests_with_paths(&g, &[seed(add)]);
    assert_eq!(found.len(), 2);
    assert_eq!(found[0].0, t1);
    let steps: Vec<(DefId, &HopKind, DefId)> =
        found[0].1.iter().map(|h| (h.from, &h.edge, h.to)).collect();
    assert_eq!(
        steps,
        vec![
            (add, &HopKind::Calls, calculate),
            (calculate, &HopKind::Reads, t1)
        ]
    );
    assert_eq!(found[1].0, t2);
    assert_eq!(
        found[1].1[1].edge,
        HopKind::UnknownName("calculate".to_string())
    );
}

#[test]
fn a_seeded_test_has_an_empty_path() {
    let mut g = g();
    let f = file(&mut g, "a.ts");
    let t = def(&mut g, "t", DefKind::TestCase, f);
    let found = impacted_tests_with_paths(&g, &[seed(t)]);
    assert_eq!(found.len(), 1);
    assert!(found[0].1.is_empty());
}

#[test]
fn no_seeds_impact_no_tests() {
    let mut g = g();
    let f = file(&mut g, "a.ts");
    def(&mut g, "t", DefKind::TestCase, f);
    assert!(impacted_tests(&g, &[]).is_empty());
}

#[test]
fn more_seeds_impact_no_fewer_tests() {
    let mut g = g();
    let f = file(&mut g, "a.ts");
    let a = def(&mut g, "a", DefKind::Function, f);
    let b = def(&mut g, "b", DefKind::Function, f);
    let ta = def(&mut g, "ta", DefKind::TestCase, f);
    let tb = def(&mut g, "tb", DefKind::TestCase, f);
    g.add_edge(Edge::Calls {
        from: ta,
        to: CallTarget::Resolved(a),
    });
    g.add_edge(Edge::Calls {
        from: tb,
        to: CallTarget::Resolved(b),
    });
    assert_eq!(impacted_tests(&g, &[seed(a)]), vec![ta]);
    assert_eq!(impacted_tests(&g, &[seed(a), seed(b)]), vec![ta, tb]);
}

#[test]
fn a_module_init_is_reached_through_its_importers() {
    let mut g = g();
    let fa = file(&mut g, "a.ts");
    let fb = file(&mut g, "b.ts");
    let m_a = def(&mut g, "<module>", DefKind::ModuleInit, fa);
    let m_b = def(&mut g, "<module>", DefKind::ModuleInit, fb);
    let t = def(&mut g, "t", DefKind::TestCase, fb);
    g.add_edge(Edge::Imports { from: fb, to: fa });
    let found = impacted_tests_with_paths(&g, &[seed(m_a)]);
    assert_eq!(found.len(), 1);
    assert_eq!(found[0].0, t);
    assert_eq!(found[0].1[0].from, m_a);
    assert_eq!(found[0].1[0].edge, HopKind::ImportCloses);
    assert_ne!(m_a, m_b);
}
