use apfsearch_core::files::{IndexedFile, Property, PropertyValue};
use apfsearch_core::fold::{fold, fold_search};
use apfsearch_core::metadata_postings::MetadataPostings;
use apfsearch_core::numeric_columns::NumericColumns;
use apfsearch_core::paging::{anchored_offset, query_page, PageRequest};
use apfsearch_core::query::atoms::Operand;
use apfsearch_core::query::binding::finish;
use apfsearch_core::query::parser::parse;
use apfsearch_core::query::Query;
use apfsearch_core::query_scratch::{ScratchPool, TextScratch};
use apfsearch_core::relations::hierarchy::{Coverage, Hierarchy};
use apfsearch_core::result_order::{ResultOrder, SortItem};
use apfsearch_core::search::{prepare, Asked, Reuse, Search};
use apfsearch_core::shared_text::SharedText;
use apfsearch_core::snapshot::Snapshot;

fn row(id: i64, path: &str, size: u64) -> IndexedFile {
    let name = path.rsplit('/').next().unwrap();
    let extension = match name.rsplit_once('.') {
        Some((_, extension)) => extension,
        None => "",
    };
    IndexedFile {
        id,
        folded_name: fold(name),
        folded_path: fold(path),
        folded_extension: fold(extension),
        search_name: fold_search(name),
        search_path: fold_search(path),
        path: path.into(),
        name: name.into(),
        parent: path[..path.len() - name.len()].trim_end_matches('/').into(),
        extension: extension.into(),
        size,
        modified: id * 10,
        created: 0,
        is_dir: extension.is_empty(),
        is_symlink: false,
        flags: 0,
        file_id: id as u64,
        volume_id: "v".into(),
        modified_ns: 0,
        changed_ns: 0,
        properties: Vec::new(),
    }
}

fn snapshot() -> Snapshot {
    let entries = vec![
        row(1, "/d", 0),
        row(2, "/d/report10.txt", 5),
        row(3, "/d/report2.txt", 7),
        row(4, "/d/Report1.txt", 7),
        row(5, "/d/gone.txt", 1),
        row(6, "/d/notes.md", 3),
    ];
    Snapshot {
        entries,
        live: [0, 1, 2, 3, 5].into_iter().collect(),
        generation: 1,
        content_revision: 0,
    }
}

fn query(text: &str) -> Query {
    let parsed = parse(text, &Vec::new());
    let answers = parsed.requests.iter().map(|_| Ok((6, 9))).collect();
    finish(parsed, &answers).unwrap()
}

fn search(text: &str, excludes: &[&str]) -> Search {
    let state = snapshot();
    let tree = Hierarchy::build(&state, || false).unwrap();
    let coverage = Coverage {
        roots: vec!["/d".into()],
        uncovered: Vec::new(),
        complete: true,
    };
    prepare(
        Asked {
            query: query(text),
            excludes: excludes.iter().map(|text| query(text)).collect(),
            metadata_only: false,
            offline: false,
        },
        &state,
        &tree,
        &coverage,
        |_| Ok(None),
        || false,
    )
    .unwrap()
    .0
}

fn request(offset: usize, limit: usize) -> PageRequest {
    PageRequest {
        offset,
        limit,
        anchor: None,
        anchor_slot: None,
        anchor_delta: 0,
    }
}

fn sorted(field: &str, ascending: bool) -> ResultOrder {
    ResultOrder::parse(Some(&vec![SortItem {
        field: Some(field.into()),
        ascending: Some(ascending),
    }]))
    .unwrap()
}

fn names(search: &Search, order: &ResultOrder, page: &PageRequest) -> (Vec<String>, usize) {
    let state = snapshot();
    let found = search
        .page(
            &state,
            None,
            None,
            order,
            page,
            |_| Ok(None),
            |_| None,
            || false,
        )
        .unwrap();
    (
        found
            .slots
            .iter()
            .map(|slot| state.entries[*slot as usize].name.clone())
            .collect(),
        found.total,
    )
}

#[test]
fn results_are_live_sorted_naturally_and_paged() {
    let all = search("", &[]);
    assert!(all.all_files());
    assert_eq!(
        names(&all, &ResultOrder::name(), &request(0, 10)),
        (
            ["d", "notes.md", "Report1.txt", "report2.txt", "report10.txt"]
                .map(String::from)
                .to_vec(),
            5
        )
    );
    assert_eq!(
        names(&all, &ResultOrder::name(), &request(1, 2)).0,
        ["notes.md", "Report1.txt"]
    );
    assert_eq!(
        names(&all, &sorted("size", false), &request(0, 3)).0,
        ["Report1.txt", "report2.txt", "report10.txt"]
    );
    assert_eq!(names(&all, &ResultOrder::path(), &request(9, 3)).0, Vec::<String>::new());
    assert_eq!(
        names(&search("report", &[]), &ResultOrder::name(), &request(0, 10)).0,
        ["Report1.txt", "report2.txt", "report10.txt"]
    );
    assert_eq!(
        names(
            &search("report", &["size:6..9"]),
            &ResultOrder::name(),
            &request(0, 10)
        )
        .0,
        ["report10.txt"]
    );
    assert_eq!(
        names(&search("child:notes", &[]), &ResultOrder::name(), &request(0, 10)).0,
        ["d"]
    );
    assert!(ResultOrder::parse(Some(&vec![SortItem {
        field: Some("taste".into()),
        ascending: None,
    }]))
    .is_err());
}

#[test]
fn an_anchor_keeps_its_place_on_the_page() {
    let state = snapshot();
    let anchored = |path: &str, slot: Option<u32>| {
        query_page(
            &state,
            None,
            None,
            &ResultOrder::name(),
            &PageRequest {
                offset: 0,
                limit: 2,
                anchor: Some(path.into()),
                anchor_slot: slot,
                anchor_delta: 1,
            },
            || false,
        )
        .unwrap()
    };
    let page = anchored("/d/report2.txt", None);
    assert_eq!(page.anchor_index, Some(3));
    assert_eq!(page.offset, 2);
    assert_eq!(page.slots, [3, 2]);
    assert_eq!(anchored("/d/report2.txt", Some(2)).slots, page.slots);
    assert_eq!(anchored("/d/report2.txt", Some(0)).slots, page.slots);
    let lost = anchored("/d/gone.txt", Some(4));
    assert_eq!(lost.anchor_index, None);
    assert_eq!(lost.total, 5);
    assert_eq!(anchored_offset(7, 2, 5, false, None, 0), 7);
    assert_eq!(anchored_offset(7, 2, 5, true, None, 0), 3);
    assert_eq!(anchored_offset(0, 2, 5, true, Some(4), 1), 3);
    assert_eq!(anchored_offset(0, 2, 5, true, Some(1), 4), 0);
}

#[test]
fn a_cancelled_search_gives_no_partial_page() {
    let state = snapshot();
    let result = search("report", &[]).page(
        &state,
        None,
        None,
        &ResultOrder::name(),
        &request(0, 10),
        |_| Ok(None),
        |_| None,
        || true,
    );
    assert_eq!(result.unwrap_err(), "Query cancelled");
}

#[test]
fn contents_are_stored_or_extracted() {
    let state = snapshot();
    let asked = search("content:needle", &[]);
    assert!(asked.requires_content());
    let found = asked
        .match_rows(
            &state,
            None,
            |file| {
                Ok(if file.name == "notes.md" {
                    Some("a needle".into())
                } else {
                    None
                })
            },
            |file| {
                if file.name == "report2.txt" {
                    Some("NEEDLE".into())
                } else {
                    None
                }
            },
            || false,
        )
        .unwrap();
    assert_eq!(found.iter().collect::<Vec<_>>(), [2, 5]);
    let failed = asked.match_rows(
        &state,
        None,
        |_| Err("store".into()),
        |_| None,
        || false,
    );
    assert_eq!(failed.unwrap_err(), "store");
}

#[test]
fn buffers_are_counted_while_in_use_and_come_back_once() {
    let mut pool = ScratchPool::new(1);
    let mut first = TextScratch::acquire(&mut pool, 16);
    first.assign(&mut pool, "pre", "fix");
    assert_eq!(first.as_str(), "prefix");
    first.assign(&mut pool, "", "other");
    assert_eq!(first.as_str(), "other");
    let (active, peak) = pool.usage();
    assert!(active >= 16 && peak == active);
    first.release(&mut pool, |_| true);
    assert_eq!(pool.usage(), (0, peak));
    let second = TextScratch::acquire(&mut pool, 0);
    assert_eq!(second.as_str(), "");
    assert!(pool.usage().0 >= 16, "the buffer came back with its room");
    pool.clear();
    second.release(&mut pool, |_| true);
    let third = TextScratch::acquire(&mut pool, 0);
    assert_eq!(pool.usage().0, 0, "a buffer from before the clearing is gone");
    third.release(&mut pool, |_| false);
    let length = pool.with_bytes(
        4,
        |mut buffer| {
            buffer.extend_from_slice(b"abcd");
            (buffer.len(), buffer)
        },
        |_| true,
    );
    assert_eq!(length, 4);
    assert_eq!(pool.usage().0, 0);
    let length = pool.with_bytes(4, |buffer| (buffer.len(), buffer), |_| true);
    assert_eq!(length, 0, "a reused buffer is empty");
}

#[test]
fn shared_text_compares_by_text_and_tells_allocations_apart() {
    let first = SharedText::from("text".to_string());
    let second = first.clone();
    let third = SharedText::new("text".into());
    assert_eq!(first.as_str(), "text");
    assert!(SharedText::ptr_eq(&first, &second));
    assert!(!SharedText::ptr_eq(&first, &third));
    assert!(first == third);
    assert!(first != SharedText::new("other".into()));
}

#[test]
fn postings_give_the_rows_that_a_look_at_each_gives() {
    let state = snapshot();
    let mut postings = MetadataPostings::new();
    for slot in state.live.iter() {
        postings.insert(slot, &state.entries[slot as usize]);
    }
    for (text, excludes) in [
        ("re", vec![]),
        ("ext:txt", vec!["t1"]),
        ("!folder:", vec!["ext:md", "2."]),
        ("", vec!["folder:"]),
        ("zz", vec![]),
    ] {
        let search = search(text, &excludes);
        let looked = search
            .match_rows(&state, None, |_| Ok(None), |_| None, || false)
            .unwrap();
        assert_eq!(search.exact(&state, &postings), Some(looked), "{text}");
    }
    assert!(search("report", &[]).exact(&state, &postings).is_none());
    assert!(search("re", &["size:>1"]).exact(&state, &postings).is_none());
}

#[test]
fn row_evaluation_masks_historical_postings_with_current_visibility() {
    let entries: Vec<IndexedFile> = (0..20)
        .map(|slot| {
            let name = format!(
                "report-document-{slot:07}-{}.txt",
                if slot % 97 == 0 { "报告" } else { "analysis" }
            );
            row(slot + 1, &format!("/synthetic/{}/{name}", slot / 1000), slot as u64)
        })
        .collect();
    let state = Snapshot {
        entries,
        live: (0..20).filter(|slot| slot % 2 == 1).collect(),
        generation: 2,
        content_revision: 0,
    };
    let historical = (0..20).collect();
    for text in [
        "report",
        "regex:report",
        "!unavailable",
        "report | unavailable",
        "a",
    ] {
        for candidates in [None, Some(&historical)] {
            let found = Search {
                query: query(text),
                excludes: Vec::new(),
                metadata_only: false,
                offline: false,
            }
            .match_rows(&state, candidates, |_| Ok(None), |_| None, || false)
            .unwrap();
            assert_eq!(found.len(), 10, "{text}");
            assert!(found.iter().all(|slot| slot % 2 == 1), "{text}");
        }
    }
}

#[test]
fn answers_are_kept_unless_contents_decide() {
    let reuse = |text: &str, excludes: &[&str], metadata_only: bool| {
        let kept = Asked {
            query: query(text),
            excludes: excludes.iter().map(|text| query(text)).collect(),
            metadata_only,
            offline: false,
        }
        .reuse();
        (kept.page, kept.matches, kept.clock)
    };
    assert_eq!(reuse("report", &[], false), (true, true, false));
    assert_eq!(reuse("", &[], false), (true, false, false));
    assert_eq!(reuse("", &["folder:"], false), (true, true, false));
    assert_eq!(reuse("", &["folder:"], true), (true, false, false));
    assert_eq!(reuse("content:x", &[], false), (false, false, false));
    assert_eq!(reuse("content:x", &[], true), (true, true, false));
    assert_eq!(reuse("a", &["dm:today"], false), (true, true, true));
    assert_eq!(reuse("child:<dm:today>", &[], false), (true, true, true));
    assert_eq!(reuse("child:<dm:today>", &[], true), (true, false, false));
    let all = Reuse { page: true, matches: false, clock: false };
    assert_ne!(all, Reuse { clock: true, ..all });
}

fn numeric_row(id: i64, size: u64) -> IndexedFile {
    IndexedFile {
        properties: vec![Property {
            key: "width".into(),
            value: PropertyValue::Number(if id % 2 == 0 { 200 } else { 20 }),
        }],
        ..row(id, &format!("/numeric-fixture/a{id}.txt"), size)
    }
}

fn numeric_snapshot(entries: Vec<IndexedFile>) -> Snapshot {
    Snapshot {
        live: (0..entries.len() as u32).collect(),
        entries,
        generation: 1,
        content_revision: 0,
    }
}

fn numeric_query(text: &str) -> Query {
    let parsed = parse(text, &Vec::new());
    let answers = parsed
        .requests
        .iter()
        .map(|request| {
            Ok(match &request.operand {
                Operand::AtLeast(value) => (value.parse().unwrap(), i128::MAX),
                Operand::Above(value) => (value.parse::<i128>().unwrap() + 1, i128::MAX),
                Operand::Exactly(value) => (value.parse().unwrap(), value.parse().unwrap()),
                other => panic!("{other:?}"),
            })
        })
        .collect();
    finish(parsed, &answers).unwrap()
}

fn numeric_search(text: &str, state: &Snapshot) -> Search {
    let coverage = Coverage {
        roots: vec!["/numeric-fixture".into()],
        uncovered: Vec::new(),
        complete: true,
    };
    prepare(
        Asked {
            query: numeric_query(text),
            excludes: Vec::new(),
            metadata_only: false,
            offline: false,
        },
        state,
        &Hierarchy::build(state, || false).unwrap(),
        &coverage,
        |_| Ok(None),
        || false,
    )
    .unwrap()
    .0
}

#[test]
fn numeric_mixed_unsupported_predicates_keep_conservative_candidates() {
    let state = numeric_snapshot(
        (0..16)
            .map(|slot| numeric_row(slot + 1, slot as u64 * 512))
            .collect(),
    );
    let mut postings = MetadataPostings::new();
    for (slot, file) in state.entries.iter().enumerate() {
        postings.insert(slot as u32, file);
    }
    for text in [
        "size:>=1024 width:>100",
        "size:>=1024 | width:>100",
        "!<size:>=1024 width:>100>",
    ] {
        let search = numeric_search(text, &state);
        assert!(search.exact(&state, &postings).is_none(), "{text}");
        let expected: Vec<u32> = (0..16)
            .filter(|slot| {
                numeric_query(text)
                    .matches_available(&state.entries[*slot as usize], None)
                    .unwrap()
            })
            .collect();
        assert!(!expected.is_empty(), "fixture must contain real matches: {text}");
        let found = search
            .match_rows(&state, None, |_| Ok(None), |_| None, || false)
            .unwrap();
        assert_eq!(found.iter().collect::<Vec<u32>>(), expected, "{text}");
    }
}

#[test]
fn numeric_cancelled_requests_never_return_partial_or_empty_success() {
    let state = numeric_snapshot(vec![numeric_row(1, 1024)]);
    let columns = NumericColumns::build(&state.entries);
    for text in [
        "size:>=0",
        "size:unknown",
        "!size:=1024",
        "size:>=0 | ext:txt",
        "size:>=0 width:>100",
    ] {
        let search = numeric_search(text, &state);
        assert_eq!(
            search
                .page(
                    &state,
                    None,
                    None,
                    &ResultOrder::name(),
                    &request(0, 10),
                    |_| Ok(None),
                    |_| None,
                    || true,
                )
                .unwrap_err(),
            "Query cancelled"
        );
        assert_eq!(
            search
                .match_rows(&state, None, |_| Ok(None), |_| None, || true)
                .unwrap_err(),
            "Query cancelled"
        );
        if let Query::Term(term) = numeric_query(text) {
            assert_eq!(
                columns
                    .exact(&term, &state.entries, &state.live, || true)
                    .unwrap_err(),
                "Query cancelled"
            );
        }
    }
}

#[test]
fn first_path_page_reuses_path_index_and_anchor_id_is_only_a_hint() {
    let entries: Vec<IndexedFile> = (0..12_050)
        .map(|index| {
            let name = format!(
                "item{:05}.{}",
                index % 37,
                if index % 2 == 0 { "txt" } else { "pdf" }
            );
            row(
                index + 1,
                &format!("/query-cache-fixture/Group{index:05}/{name}"),
                (index % 19) as u64,
            )
        })
        .collect();
    let state = numeric_snapshot(entries);
    let order = ResultOrder::parse(Some(&vec![
        SortItem {
            field: Some("path".into()),
            ascending: Some(true),
        },
        SortItem {
            field: Some("name".into()),
            ascending: Some(false),
        },
    ]))
    .unwrap();
    let ask = |page: PageRequest| query_page(&state, None, None, &order, &page, || false).unwrap();
    let first = ask(request(500, 200));
    assert_eq!(first.slots, (500..700).collect::<Vec<u32>>());
    assert_eq!(ask(request(500, 200)).slots, first.slots);
    let anchor = first.slots[30];
    for slot in [Some(anchor), None, Some(9_999_999), Some(first.slots[0])] {
        let anchored = ask(PageRequest {
            offset: 100,
            limit: 200,
            anchor: Some(state.entries[anchor as usize].path.clone()),
            anchor_slot: slot,
            anchor_delta: 30,
        });
        assert_eq!(anchored.anchor_index, Some(530));
        assert_eq!(anchored.slots, first.slots);
    }
}

#[test]
fn every_window_is_cut_out_of_the_whole_result() {
    let found = search("report", &[]);
    let order = sorted("name", true);
    let (whole, total) = names(&found, &order, &request(0, 10_000));
    assert_eq!(whole, ["Report1.txt", "report2.txt", "report10.txt"]);
    for offset in 0..5 {
        for limit in 0..5 {
            let (window, count) = names(&found, &order, &request(offset, limit));
            let (start, end) = (offset.min(total), (offset + limit).min(total));
            assert_eq!(window, whole[start..end]);
            assert_eq!(count, total);
        }
    }
}

#[test]
fn only_relations_about_contents_need_the_store() {
    let state = snapshot();
    let tree = Hierarchy::build(&state, || false).unwrap();
    let coverage = Coverage {
        roots: vec!["/d".into()],
        uncovered: Vec::new(),
        complete: true,
    };
    let prepared = |text: &str| {
        prepare(
            Asked {
                query: query(text),
                excludes: Vec::new(),
                metadata_only: false,
                offline: false,
            },
            &state,
            &tree,
            &coverage,
            |_| Err("store".into()),
            || false,
        )
        .map(|(_, relational)| relational)
    };
    assert_eq!(prepared("child:report"), Ok(true));
    assert_eq!(prepared("child:<content:x>"), Err("store".into()));
}
