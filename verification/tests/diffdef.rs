use testless::diffdef::{diff_defs, DefChange};
use testless::graph::DefKind;
use testless::language::{ExtractedDef, Extraction};

fn def(name: &str, kind: DefKind, sig: u8, body: Option<u8>) -> ExtractedDef {
    ExtractedDef {
        name: name.into(),
        kind,
        start_line: 1,
        end_line: 2,
        test_id: None,
        computed_name: false,
        parent: None,
        sig_hash: [sig; 32],
        body_hash: body.map(|b| [b; 32]),
    }
}

fn ex(defs: Vec<ExtractedDef>) -> Extraction {
    Extraction {
        defs,
        imports: vec![],
        calls: vec![],
        reads: vec![],
    }
}

#[test]
fn classifies_added_removed_body_sig_changes() {
    let old = ex(vec![
        def("<module>", DefKind::ModuleInit, 0, None),
        def("a", DefKind::Function, 1, Some(1)),
        def("b", DefKind::Function, 2, Some(2)),
        def("gone", DefKind::Function, 3, Some(3)),
    ]);
    let new = ex(vec![
        def("<module>", DefKind::ModuleInit, 0, None),
        def("a", DefKind::Function, 1, Some(9)), // body changed
        def("b", DefKind::Function, 9, Some(2)), // sig changed
        def("fresh", DefKind::Function, 4, Some(4)),
    ]);
    let changes = diff_defs(&old, &new);

    assert!(changes.iter().any(
        |c| matches!(c, DefChange::BodyChanged { new_idx } if new.defs[*new_idx].name == "a")
    ));
    assert!(changes.iter().any(
        |c| matches!(c, DefChange::SigChanged { new_idx } if new.defs[*new_idx].name == "b")
    ));
    assert!(changes.iter().any(
        |c| matches!(c, DefChange::Added { new_idx } if new.defs[*new_idx].name == "fresh")
    ));
    assert!(changes.iter().any(|c| matches!(
        c,
        DefChange::Removed { old_name, old_kind }
            if old_name == "gone" && *old_kind == DefKind::Function
    )));
    assert!(!changes
        .iter()
        .any(|c| matches!(c, DefChange::ModuleInitChanged)));
    // Exactly 4 changes: BodyChanged(a), SigChanged(b), Added(fresh),
    // Removed(gone) — the unchanged `<module>` yields no entry.
    assert_eq!(changes.len(), 4);
}

#[test]
fn module_init_change_detected() {
    let old = ex(vec![def("<module>", DefKind::ModuleInit, 0, None)]);
    let new = ex(vec![def("<module>", DefKind::ModuleInit, 7, None)]);
    assert!(matches!(
        diff_defs(&old, &new)[..],
        [DefChange::ModuleInitChanged]
    ));
}

#[test]
fn unchanged_defs_yield_no_entry() {
    let old = ex(vec![def("a", DefKind::Function, 1, Some(1))]);
    let new = ex(vec![def("a", DefKind::Function, 1, Some(1))]);
    assert!(diff_defs(&old, &new).is_empty());
}

#[test]
fn collisions_pair_in_declaration_order() {
    // Two same-named/kind defs (e.g. overloads) on each side pair
    // positionally rather than cross-matching.
    let old = ex(vec![
        def("f", DefKind::Function, 1, Some(1)),
        def("f", DefKind::Function, 2, Some(2)),
    ]);
    let new = ex(vec![
        def("f", DefKind::Function, 1, Some(1)), // unchanged vs old[0]
        def("f", DefKind::Function, 9, Some(9)), // changed vs old[1]
    ]);
    let changes = diff_defs(&old, &new);
    assert_eq!(changes.len(), 1);
    assert!(matches!(changes[0], DefChange::SigChanged { new_idx: 1 }));
}

#[test]
fn swapped_sides_swap_added_and_removed() {
    let old = ex(vec![
        def("a", DefKind::Function, 1, Some(1)),
        def("b", DefKind::Function, 1, Some(1)),
        def("gone", DefKind::Function, 1, None),
    ]);
    let new = ex(vec![
        def("b", DefKind::Function, 2, Some(1)),
        def("a", DefKind::Function, 1, Some(2)),
        def("fresh", DefKind::Function, 1, None),
        def("fresh", DefKind::Function, 2, None),
    ]);
    let count = |changes: &Vec<DefChange>| {
        let of = |f: fn(&DefChange) -> bool| changes.iter().filter(|c| f(c)).count();
        (
            of(|c| matches!(c, DefChange::Added { .. })),
            of(|c| matches!(c, DefChange::Removed { .. })),
            of(|c| matches!(c, DefChange::SigChanged { .. })),
            of(|c| matches!(c, DefChange::BodyChanged { .. })),
        )
    };
    assert_eq!(count(&diff_defs(&old, &new)), (2, 1, 1, 1));
    assert_eq!(count(&diff_defs(&new, &old)), (1, 2, 1, 1));
}
