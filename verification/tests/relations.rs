use apfsearch_core::files::{IndexedFile, Property, PropertyValue};
use apfsearch_core::fold::{fold, fold_search};
use apfsearch_core::query::atoms::{NumberRequest, Operand};
use apfsearch_core::query::binding::finish;
use apfsearch_core::query::parser::parse;
use apfsearch_core::query::Query;
use apfsearch_core::relations::hierarchy::{Coverage, Hierarchy};
use apfsearch_core::relations::resolve::resolve;
use apfsearch_core::snapshot::Snapshot;
use std::path::Path;

fn row(id: i64, path: &str, is_dir: bool, size: u64) -> IndexedFile {
    let place = Path::new(path);
    let name: String = place.file_name().unwrap().to_string_lossy().into();
    let extension: String = place
        .extension()
        .map(|value| value.to_string_lossy().into())
        .unwrap_or_default();
    IndexedFile {
        id,
        path: path.into(),
        folded_name: fold(&name),
        folded_path: fold(path),
        folded_extension: fold(&extension),
        search_name: fold_search(&name),
        search_path: fold_search(path),
        name,
        parent: place.parent().unwrap().to_string_lossy().into(),
        extension,
        size,
        modified: 0,
        created: 0,
        is_dir,
        is_symlink: false,
        flags: 0,
        file_id: id as u64,
        volume_id: "fixture".into(),
        modified_ns: 0,
        changed_ns: 0,
        properties: Vec::new(),
    }
}

fn rows() -> Vec<IndexedFile> {
    let definitions = [
        ("/fixture", true, 0),
        ("/fixture/alpha", true, 0),
        ("/fixture/alpha/nested", true, 0),
        ("/fixture/empty", true, 0),
        ("/fixture/denied", true, 0),
        ("/fixture/alphabet", true, 0),
        ("/fixture/alpha/report.pdf", false, 10),
        ("/fixture/alpha/nested/中文.txt", false, 20),
        ("/fixture/alpha/alias.txt", false, 10),
        ("/fixture/alphabet/neighbor.txt", false, 7),
    ];
    let mut files: Vec<_> = definitions
        .into_iter()
        .enumerate()
        .map(|(id, (path, is_dir, size))| row(id as i64 + 1, path, is_dir, size))
        .collect();
    files[6].properties = vec![
        Property {
            key: "author".into(),
            value: PropertyValue::Text("Document Author".into()),
        },
        Property {
            key: "pages".into(),
            value: PropertyValue::Number(3),
        },
    ];
    files
}

fn snapshot_of(entries: Vec<IndexedFile>, generation: u64) -> Snapshot {
    let live = (0..entries.len() as u32).collect();
    Snapshot {
        entries,
        live,
        generation,
        content_revision: 0,
    }
}

fn fixture() -> Snapshot {
    snapshot_of(rows(), 1)
}

fn coverage() -> Coverage {
    Coverage {
        complete: true,
        roots: vec!["/fixture".into()],
        uncovered: Vec::new(),
    }
}

fn whole(request: &NumberRequest) -> Result<(i128, i128), String> {
    match &request.operand {
        Operand::Exactly(value) | Operand::Plain(value) => {
            let number: i128 = value.parse().map_err(|_| "Invalid number".to_string())?;
            Ok((number, number))
        }
        other => Err(format!("{other:?}")),
    }
}

fn parsed(text: &str) -> Query {
    let parsed = parse(text, &Vec::new());
    let answers = parsed.requests.iter().map(whole).collect();
    finish(parsed, &answers).unwrap()
}

fn evaluate(snapshot: &Snapshot, text: &str, coverage: &Coverage) -> Vec<String> {
    let tree = Hierarchy::build(snapshot, || false).unwrap();
    let (query, _) = resolve(
        parsed(text),
        snapshot,
        &tree,
        coverage,
        |_| Ok(None),
        || false,
    )
    .unwrap();
    let mut result: Vec<_> = snapshot
        .entries
        .iter()
        .filter(|file| query.matches_available(file, None).unwrap())
        .map(|file| file.path.clone())
        .collect();
    result.sort();
    result
}

#[test]
fn immediate_recursive_nested_and_unicode_relationships_are_distinct() {
    let snapshot = fixture();
    assert_eq!(
        evaluate(&snapshot, "child:report", &coverage()),
        ["/fixture/alpha"]
    );
    assert_eq!(
        evaluate(&snapshot, "descendant:<ext:pdf>", &coverage()),
        ["/fixture", "/fixture/alpha"]
    );
    assert_eq!(
        evaluate(&snapshot, "childfolder:<child:<ext:txt>>", &coverage()),
        ["/fixture", "/fixture/alpha"]
    );
    assert_eq!(
        evaluate(&snapshot, "child-file:中文", &coverage()),
        ["/fixture/alpha/nested"]
    );
    assert_eq!(
        evaluate(&snapshot, "case:child:Report", &coverage()),
        Vec::<String>::new()
    );
    assert_eq!(
        evaluate(&snapshot, "child:<author:document pages:3>", &coverage()),
        ["/fixture/alpha"]
    );
}

#[test]
fn directory_aggregates_count_entries_not_reclaimable_extents() {
    let snapshot = fixture();
    assert_eq!(
        evaluate(&snapshot, "foldersize:=40", &coverage()),
        ["/fixture/alpha"]
    );
    assert_eq!(
        evaluate(&snapshot, "foldersize:=47", &coverage()),
        ["/fixture"]
    );
    assert_eq!(
        evaluate(&snapshot, "childcount:=3", &coverage()),
        ["/fixture/alpha"]
    );
    assert_eq!(
        evaluate(&snapshot, "descendantfilecount:=3", &coverage()),
        ["/fixture/alpha"]
    );
    assert_eq!(
        evaluate(&snapshot, "empty:", &coverage()),
        ["/fixture/denied", "/fixture/empty"]
    );
    let info = Hierarchy::build(&snapshot, || false)
        .unwrap()
        .info(&snapshot, &coverage(), &["/fixture/alpha".into()], || false)
        .unwrap();
    assert_eq!(info[0].recursive_size, Some(40));
    assert!(info[0].complete);
}

#[test]
fn denied_scope_is_unknown_not_empty_and_prefix_neighbors_stay_independent() {
    let snapshot = fixture();
    let coverage = Coverage {
        complete: true,
        roots: vec!["/fixture".into()],
        uncovered: vec!["/fixture/alpha/nested".into(), "/fixture/denied".into()],
    };
    assert_eq!(evaluate(&snapshot, "empty:", &coverage), ["/fixture/empty"]);
    assert_eq!(
        evaluate(&snapshot, "folder: !descendant:missing", &coverage),
        ["/fixture/alphabet", "/fixture/empty"]
    );
    assert_eq!(
        evaluate(&snapshot, "foldersize:unknown", &coverage),
        [
            "/fixture",
            "/fixture/alpha",
            "/fixture/alpha/nested",
            "/fixture/denied"
        ]
    );
    assert_eq!(
        evaluate(&snapshot, "descendant:report", &coverage),
        ["/fixture", "/fixture/alpha"]
    );
    let info = Hierarchy::build(&snapshot, || false)
        .unwrap()
        .info(&snapshot, &coverage, &["/fixture/alpha".into()], || false)
        .unwrap();
    assert!(info[0].recursive_size.is_none());
    assert_eq!(info[0].indexed_logical_size, Some(40));
}

#[test]
fn cancellation_and_unknown_content_never_become_successful_empty_results() {
    let snapshot = fixture();
    assert!(Hierarchy::build(&snapshot, || true).is_err());
    assert_eq!(
        evaluate(
            &snapshot,
            "folder: !descendant:<content:secret>",
            &coverage()
        ),
        ["/fixture/denied", "/fixture/empty"]
    );
    let tree = Hierarchy::build(&snapshot, || false).unwrap();
    assert!(resolve(
        parsed("child:report"),
        &snapshot,
        &tree,
        &coverage(),
        |_| panic!("cancelled query read content"),
        || true,
    )
    .is_err());
}

#[test]
fn overflowing_logical_size_remains_unknown_without_wrapping() {
    let mut files = rows();
    for file in &mut files {
        if !file.is_dir {
            file.size = u64::MAX;
        }
    }
    let overflowed = snapshot_of(files, 2);
    assert!(evaluate(&overflowed, "foldersize:unknown", &coverage())
        .contains(&"/fixture/alpha".to_string()));
    assert!(!evaluate(&overflowed, "foldersize:=0", &coverage())
        .contains(&"/fixture/alpha".to_string()));
}

#[test]
fn a_changed_size_is_seen_in_its_own_generation_alone() {
    let snapshot = fixture();
    let mut files = rows();
    files[7].size = 30;
    let updated = snapshot_of(files, 2);
    assert_eq!(
        evaluate(&updated, "foldersize:=50", &coverage()),
        ["/fixture/alpha"]
    );
    assert_eq!(
        evaluate(&snapshot, "foldersize:=40", &coverage()),
        ["/fixture/alpha"]
    );
}

#[test]
fn extracted_text_of_a_child_is_asked_for_and_errors_are_handed_on() {
    let snapshot = fixture();
    let tree = Hierarchy::build(&snapshot, || false).unwrap();
    let (query, _) = resolve(
        parsed("child:<content:secret>"),
        &snapshot,
        &tree,
        &coverage(),
        |file| {
            Ok(if file.name == "report.pdf" {
                Some("the secret text".into())
            } else {
                Some("nothing".into())
            })
        },
        || false,
    )
    .unwrap();
    let found: Vec<_> = snapshot
        .entries
        .iter()
        .filter(|file| query.matches_available(file, None).unwrap())
        .map(|file| file.path.as_str())
        .collect();
    assert_eq!(found, ["/fixture/alpha"]);
    let failed = resolve(
        parsed("child:<content:secret>"),
        &snapshot,
        &tree,
        &coverage(),
        |_| Err("unreadable".into()),
        || false,
    );
    assert_eq!(failed.unwrap_err(), "unreadable");
}
