//! Indexing looks only at the paths that it asks for beforehand.

use testless::indexer::{index_repo_incremental, SourceFile};
use testless::language::RepoFacts;
use testless::plugins::registry;
use testless::probes::wanted_probes;

fn sources() -> Vec<SourceFile> {
    let of = [
        (
            "src/format.ts",
            "import { add } from \"./math\";\nexport function fmt() { return add(1, 2); }\n",
        ),
        (
            "src/math.ts",
            "export function add(a: number, b: number) { return a + b; }\n",
        ),
    ];
    of.iter()
        .map(|(p, s)| SourceFile {
            path: p.to_string(),
            src: s.to_string(),
        })
        .collect()
}

#[test]
fn probes_name_what_imports_may_mean() {
    let langs = registry();
    let none = RepoFacts::new(None);
    let (_, extractions, _) = index_repo_incremental(&langs, &sources(), &vec![], &none).unwrap();
    let probes = wanted_probes(&langs, &extractions);
    assert!(probes.contains(&"src/math.ts".to_string()), "{probes:?}");
    assert!(!probes.contains(&"src/format.ts".to_string()), "{probes:?}");
}

#[test]
fn knowing_the_probes_is_knowing_enough() {
    let langs = registry();
    let none = RepoFacts::new(None);
    let (_, extractions, _) = index_repo_incremental(&langs, &sources(), &vec![], &none).unwrap();

    let all = ["src", "src/format.ts", "src/math.ts"];
    let mut whole = RepoFacts::new(None);
    for path in all {
        whole.note(path);
    }
    let mut probed = RepoFacts::new(None);
    for path in wanted_probes(&langs, &extractions) {
        if all.contains(&path.as_str()) {
            probed.note(&path);
        }
    }

    let (a, _, _) = index_repo_incremental(&langs, &sources(), &vec![], &whole).unwrap();
    let (b, _, _) = index_repo_incremental(&langs, &sources(), &vec![], &probed).unwrap();
    assert!(!a.edges.is_empty());
    assert_eq!(format!("{:?}", a.edges), format!("{:?}", b.edges));
}
