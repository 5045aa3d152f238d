use apfsearch_core::files::IndexedFile;
use apfsearch_core::fold::{fold, fold_search};
use apfsearch_core::memory_inventory::{bitmap_payload, CategoryReport, Inventory};
use apfsearch_core::metadata_postings::{MetadataPostings, MAX_EXTENSION_BYTES};
use apfsearch_core::name_column::{
    boundaries, evaluate, evaluate_partitioned, evaluate_slots, match_paths, path_matches,
    prefix_says, NameExpression, PathPieces, PrefixState, SplitPath,
};
use apfsearch_core::posting_cache::{CacheError, ARRAY_COOKIE};
use apfsearch_core::posting_changes::GramChanges;
use apfsearch_core::posting_map::{partition, PostingMap, SHARDS};
use apfsearch_core::query::binding::finish;
use apfsearch_core::query::parser::parse;
use apfsearch_core::query::Query;
use roaring::RoaringBitmap;
use std::sync::Arc;

fn file(name: &str, extension: &str, is_dir: bool) -> IndexedFile {
    let path = format!("/fixture/{name}");
    IndexedFile {
        id: 1,
        folded_name: fold(name),
        folded_path: fold(&path),
        folded_extension: fold(extension),
        search_name: fold_search(name),
        search_path: fold_search(&path),
        path,
        name: name.into(),
        parent: "/fixture".into(),
        extension: extension.into(),
        size: 0,
        modified: 0,
        created: 0,
        is_dir,
        is_symlink: name == "alias",
        flags: 0,
        file_id: 1,
        volume_id: "fixture".into(),
        modified_ns: 0,
        changed_ns: 0,
        properties: Vec::new(),
    }
}

fn parsed(text: &str) -> Query {
    let parsed = parse(text, &Vec::new());
    let answers = parsed.requests.iter().map(|_| Ok((2, i128::MAX))).collect();
    finish(parsed, &answers).unwrap()
}

fn expected(files: &[IndexedFile], query: &Query, live: &RoaringBitmap) -> RoaringBitmap {
    live.iter()
        .filter(|slot| query.matches(&files[*slot as usize], None).unwrap())
        .collect()
}

fn build(files: &[IndexedFile]) -> MetadataPostings {
    let mut postings = MetadataPostings::new();
    for (slot, file) in files.iter().enumerate() {
        postings.insert(slot as u32, file);
    }
    postings
}

fn copied(postings: &MetadataPostings) -> MetadataPostings {
    MetadataPostings {
        name_bytes: postings.name_bytes.copy(),
        name_pairs: postings.name_pairs.copy(),
        extensions: postings.extensions.copy(),
        directories: postings.directories.clone(),
        symlinks: postings.symlinks.clone(),
    }
}

#[test]
fn byte_and_pair_postings_match_unicode_and_boolean_evaluation_exactly() {
    let files = [
        file("aaaa.txt", "txt", false),
        file("Straße.TXT", "TXT", false),
        file("中文μé", "é", false),
        file("目录", "", true),
        file("alias", "", false),
        file("other.e", "e", false),
    ];
    let postings = build(&files);
    let live: RoaringBitmap = (0..files.len() as u32).collect();
    for text in [
        "",
        "a",
        "aa",
        "ss",
        "μ",
        "é",
        "zz",
        "!a",
        "a | μ",
        "<a | μ> !ss",
        "!<a | μ>",
        "ext:TXT",
        "ext:é",
        "ext:txt;é",
        "folder:",
        "file:",
        "symlink:",
        "file:!a",
    ] {
        let query = parsed(text);
        assert!(MetadataPostings::supports(&query) || text == "zz" || postings.exact(&query, &live).is_some());
        assert_eq!(
            postings.exact(&query, &live),
            Some(expected(&files, &query, &live)),
            "{text}"
        );
    }
    for text in [
        "abc",
        "中",
        "case:a",
        "diacritics:e",
        "ww:a",
        "regex:a",
        "path:a",
        "content:a",
        "size:>1",
        "a | content:x",
        "!<a content:x>",
    ] {
        assert!(postings.exact(&parsed(text), &live).is_none(), "{text}");
    }
}

#[test]
fn updates_removals_and_tombstones_do_not_modify_a_retained_snapshot() {
    let mut files = vec![
        file("aaa.txt", "txt", false),
        file("beta.csv", "csv", false),
        file("目录", "", true),
    ];
    let live: RoaringBitmap = (0..files.len() as u32).collect();
    let mut postings = build(&files);
    let retained = copied(&postings);
    assert!(postings.shares_storage(&retained));
    assert!(!postings.shares_storage(&build(&files)), "equal, but not the same in memory");
    let old_a = retained.exact(&parsed("a"), &live).unwrap();
    postings.remove(0, &files[0]);
    files[0] = file("μé.CSV", "CSV", false);
    postings.insert(0, &files[0]);
    postings.remove(1, &files[1]);
    assert!(!postings.shares_storage(&retained));
    let mut current_live = live.clone();
    current_live.remove(1);
    for text in [
        "a", "aa", "μ", "ext:csv", "ext:txt", "!a", "folder:", "file:",
    ] {
        let query = parsed(text);
        assert_eq!(
            postings.exact(&query, &current_live),
            Some(expected(&files, &query, &current_live)),
            "{text}"
        );
    }
    assert_eq!(retained.exact(&parsed("a"), &live), Some(old_a));
    let mut tombstoned = live.clone();
    tombstoned.remove(0);
    assert!(!retained
        .exact(&parsed("a"), &tombstoned)
        .unwrap()
        .contains(0));
    assert!(!retained
        .exact(&parsed("!zz"), &tombstoned)
        .unwrap()
        .contains(0));
}

#[test]
fn restored_postings_answer_and_refuse_malformed_keys() {
    let mut postings = MetadataPostings::new();
    let slots = || RoaringBitmap::from([3]);
    assert!(postings.insert_restored(1, b"a", slots()).is_some());
    assert!(postings.insert_restored(1, b"a", slots()).is_none());
    assert!(postings.insert_restored(1, b"ab", slots()).is_none());
    assert!(postings.insert_restored(2, b"ab", slots()).is_some());
    assert!(postings.insert_restored(2, b"a", slots()).is_none());
    assert!(postings.insert_restored(3, "é".as_bytes(), slots()).is_some());
    assert!(postings.insert_restored(3, &[0xff], slots()).is_none());
    assert!(postings
        .insert_restored(3, &vec![b'x'; MAX_EXTENSION_BYTES + 1], slots())
        .is_none());
    assert!(postings.insert_restored(4, b"", slots()).is_some());
    assert!(postings.insert_restored(5, b"x", slots()).is_none());
    assert!(postings.insert_restored(6, b"", slots()).is_none());
    let live = RoaringBitmap::from([1, 3]);
    assert_eq!(postings.exact(&parsed("a"), &live), Some(slots()));
    assert_eq!(postings.exact(&parsed("folder:"), &live), Some(slots()));
    assert_eq!(
        postings.exact(&parsed("symlink:"), &live),
        Some(RoaringBitmap::new())
    );
}

#[test]
fn shared_terms_keep_their_bitmap_and_changed_terms_preserve_other_slots() {
    let mut postings = PostingMap::new(0);
    let original = "report-old.txt";
    for term in original.as_bytes().windows(3) {
        postings.insert(term, Arc::new(RoaringBitmap::from([7, 9])));
    }
    let retained = postings.copy();
    GramChanges { width: 3 }.apply(&mut postings, 7, original, "report-new.txt");
    assert!(Arc::ptr_eq(
        postings.get(b"rep").unwrap(),
        retained.get(b"rep").unwrap()
    ));
    assert_eq!(
        postings.get(b"old").unwrap().as_ref(),
        &RoaringBitmap::from([9])
    );
    assert_eq!(
        postings.get(b"new").unwrap().as_ref(),
        &RoaringBitmap::from([7])
    );
    assert_eq!(
        retained.get(b"old").unwrap().as_ref(),
        &RoaringBitmap::from([7, 9])
    );
}

#[test]
fn term_sets_match_an_independent_reference_across_repeated_updates() {
    let mut postings = PostingMap::new(0);
    let changes = GramChanges { width: 3 };
    let mut previous = "";
    for next in [
        "a",
        "aa",
        "aaaaa",
        "baaaaab",
        "报告报告.txt",
        "straße.txt",
        "café.txt",
        "",
        "abc",
        "abc",
    ] {
        let retained = postings.copy();
        changes.apply(&mut postings, 0, previous, next);
        let expected: std::collections::HashSet<[u8; 3]> = next
            .as_bytes()
            .windows(3)
            .map(|term| term.try_into().unwrap())
            .collect();
        for shard in 0..SHARDS {
            for posting in &postings.shards[shard].entries {
                let term: [u8; 3] = posting.key.as_slice().try_into().unwrap();
                assert!(expected.contains(&term));
                assert_eq!(posting.slots.as_ref(), &RoaringBitmap::from([0]));
            }
        }
        for term in &expected {
            assert!(postings.get(term).unwrap().contains(0));
        }
        if previous == next {
            assert!(retained.shares_all(&postings));
        }
        previous = next;
    }
}

#[test]
fn updates_clone_one_shard_once_and_leave_prior_bitmaps_unchanged() {
    let mut original = PostingMap::new(0);
    for key in [*b"one", *b"two", *b"tri"] {
        original.insert(&key, Arc::new([1, 2].into()));
    }
    let mut updated = original.copy();
    updated.add_slot(b"one", 3);
    let index = partition(0, b"one");
    let copied = Arc::as_ptr(&updated.shards[index]);
    updated.remove_slot(b"one", 1);
    assert_eq!(copied, Arc::as_ptr(&updated.shards[index]));
    for i in 0..SHARDS {
        assert_eq!(
            Arc::ptr_eq(&original.shards[i], &updated.shards[i]),
            i != index
        );
        assert_eq!(original.shares_partition(&updated, i), i != index);
    }
    assert_eq!(
        original.get(b"one").unwrap().as_ref(),
        &RoaringBitmap::from([1, 2])
    );
    assert_eq!(
        updated.get(b"one").unwrap().as_ref(),
        &RoaringBitmap::from([2, 3])
    );
}

#[test]
fn borrowed_extension_lookup_and_restored_map_preserve_values() {
    let mut map = PostingMap::new(3);
    map.insert("中文".as_bytes(), Arc::new(RoaringBitmap::from([u32::MAX])));
    assert!(map.get("中文".as_bytes()).unwrap().contains(u32::MAX));
    assert!(!map.remove(b"missing"));
    assert!(map.remove("中文".as_bytes()));
    assert!(map.shards.iter().all(|shard| shard.entries.is_empty()));
}

#[test]
fn identity_deduplication_distinguishes_current_old_and_shared_allocations() {
    let mut inventory = Inventory::new();
    inventory.owner(true);
    inventory.record("text_bytes", 10, 100);
    inventory.record("text_bytes", 10, 100);
    inventory.record("text_bytes", 11, 200);
    inventory.owner(false);
    inventory.record("text_bytes", 10, 100);
    inventory.record("text_bytes", 12, 300);
    assert_eq!(
        inventory.report(),
        vec![CategoryReport {
            category: "text_bytes".into(),
            current_only: 200,
            historical_only: 300,
            shared: 100,
            total: 600,
            reclamation_only: 0,
            reclamation_retained: 0,
        }]
    );
}

#[test]
fn categories_are_reported_apart_and_in_order() {
    let mut inventory = Inventory::new();
    inventory.retired_owner();
    inventory.record("z", 1, 5);
    inventory.record("a", 1, 7);
    inventory.record("a", 2, 0);
    assert!(inventory.bitmap(&RoaringBitmap::from([1, 2, 3]), 9));
    assert!(!inventory.bitmap(&RoaringBitmap::full(), 10));
    inventory.owner(true);
    inventory.record("a", 1, 7);
    let report = inventory.report();
    let names: Vec<_> = report.iter().map(|one| one.category.as_str()).collect();
    assert_eq!(names, ["a", "bitmap_live_payload_bytes", "z"]);
    assert_eq!(report[0].shared, 7);
    assert_eq!(report[0].reclamation_retained, 7);
    assert_eq!(report[0].reclamation_only, 0);
    assert_eq!(report[1].total, 6);
    assert_eq!(report[2].reclamation_only, 5);
    assert_eq!(bitmap_payload(3, 2, 5), 6 + 16_384 + 5);
}

fn names(count: u32) -> Vec<IndexedFile> {
    (0..count)
        .map(|slot| {
            let mut row = file("x", "", false);
            row.search_name = if slot % 3 == 0 {
                "报告 report".into()
            } else {
                "analysis".into()
            };
            row
        })
        .collect()
}

fn partitioned(
    rows: &Vec<IndexedFile>,
    query: &NameExpression,
    exclusions: &Vec<NameExpression>,
    candidates: &RoaringBitmap,
    workers: u32,
    cancelled: bool,
) -> Result<RoaringBitmap, String> {
    let slots: Vec<u32> = candidates.iter().collect();
    evaluate_partitioned(query, exclusions, rows, &slots, workers as usize, || cancelled)
}

#[test]
fn partitioned_matching_preserves_sparse_boundaries_and_cancellation() {
    let rows = names(8195);
    let query = parsed("report");
    let expression = NameExpression::compile(&query).unwrap();
    let none = Vec::new();
    for candidates in [
        RoaringBitmap::new(),
        RoaringBitmap::from_iter([0, 4095, 4096, 8194]),
        (0..8195).step_by(7).collect(),
    ] {
        let slots: Vec<u32> = candidates.iter().collect();
        let expected = evaluate_slots(&expression, &none, &rows, &slots, || false).unwrap();
        let independent: RoaringBitmap = slots.iter().copied().filter(|slot| slot % 3 == 0).collect();
        assert_eq!(expected, independent);
        for workers in [1, 2, 4, 8] {
            assert_eq!(
                partitioned(&rows, &expression, &none, &candidates, workers, false).unwrap(),
                expected
            );
        }
    }
    assert!(
        partitioned(&rows, &expression, &none, &(0..8195).collect(), 4, true).is_err()
    );
}

#[test]
fn parallel_dispatch_preserves_exclusions_unicode_and_boolean_matching() {
    let rows = names(100_003);
    let candidates: RoaringBitmap = (0..100_003).filter(|slot| slot % 17 != 0).collect();
    let exclusion = parsed("analysis");
    let exclusions = vec![NameExpression::compile(&exclusion).unwrap()];
    for text in ["report", "报告", "report | analysis", "!analysis"] {
        let query = parsed(text);
        let expression = NameExpression::compile(&query).unwrap();
        let expected: RoaringBitmap = candidates.iter().filter(|slot| slot % 3 == 0).collect();
        for granted in [None, Some(0), Some(1), Some(3)] {
            let found = evaluate(
                &expression,
                &exclusions,
                &rows,
                &candidates,
                |wanted| {
                    assert_eq!(wanted, 2);
                    granted
                },
                || false,
            );
            assert_eq!(found.unwrap(), expected);
        }
        for workers in [1, 2, 4] {
            assert_eq!(
                partitioned(&rows, &expression, &exclusions, &candidates, workers, false).unwrap(),
                expected
            );
        }
    }
}

#[test]
fn parts_of_a_list_follow_each_other() {
    assert_eq!(boundaries(10, 3), [0, 3, 6, 10]);
    assert_eq!(boundaries(0, 2), [0, 0, 0]);
    assert_eq!(boundaries(u32::MAX, 1), [0, u32::MAX]);
}

#[test]
fn a_path_in_two_pieces_is_searched_as_one() {
    let (prefix, suffix) = ("/users/ann/", "notes.txt");
    for needle in ["ann", "/notes", "ann/notes", "tes.t", "ann/tes", "bob", "s/ann/n", "notes.txt.", ""] {
        let state = prefix_says(prefix.as_bytes(), needle.as_bytes());
        assert_eq!(
            path_matches(state, suffix.as_bytes(), needle.as_bytes()),
            format!("{prefix}{suffix}").contains(needle),
            "{needle}"
        );
    }
    let row = |directory: usize, name: &str| SplitPath {
        directory,
        name: name.as_bytes().to_vec(),
    };
    let table = PathPieces {
        directories: vec![b"/users/ann/".to_vec(), b"/users/bob/".to_vec()],
        rows: vec![row(0, "notes.txt"), row(1, "notes.txt"), row(1, "ann"), row(0, "other")],
    };
    let live: RoaringBitmap = [0, 1, 2].into_iter().collect();
    let found = |needle: &str| {
        let slots = match_paths(&table, needle.as_bytes(), &live, || false).unwrap();
        slots.iter().collect::<Vec<u32>>()
    };
    assert_eq!(found("ann"), [0, 2]);
    assert_eq!(found("ann/notes"), [0]);
    assert_eq!(found("b/n"), [1]);
    assert_eq!(found("s/"), [0, 1, 2]);
    assert!(match_paths(&table, b"a", &live, || true).is_err());
    assert!(matches!(prefix_says(b"/a/", b"a"), PrefixState::Found));
    assert!(matches!(prefix_says(b"/a/", b"b/c"), PrefixState::Impossible));
    assert!(matches!(prefix_says(b"/a/", b"a/c"), PrefixState::Depends));
}

fn number(bytes: &mut Vec<u8>, value: u32) {
    bytes.extend(value.to_le_bytes());
}

fn bitmap(bytes: &mut Vec<u8>, slots: &RoaringBitmap) {
    number(bytes, slots.serialized_size() as u32);
    slots.serialize_into(bytes).unwrap();
}

fn refused(bytes: &[u8], entries: usize) -> CacheError {
    match MetadataPostings::read_from(bytes, entries) {
        Ok(_) => panic!("malformed postings were read"),
        Err(error) => error,
    }
}

#[test]
fn cached_postings_round_trip_and_reject_malformed_counts_keys_and_slots() {
    let files = [
        file("aaaa.txt", "txt", false),
        file("Straße.TXT", "TXT", false),
        file("中文μé", "é", false),
        file("目录", "", true),
        file("alias", "", false),
    ];
    let postings = build(&files);
    let bytes = postings.write_to().unwrap();
    let (restored, position) = MetadataPostings::read_from(&bytes, files.len()).unwrap();
    assert_eq!(position, bytes.len());
    assert_eq!(postings.write_to().unwrap(), bytes);
    let rewritten = restored.write_to().unwrap();
    assert_eq!(bytes, rewritten, "cache encoding must be deterministic");
    let live: RoaringBitmap = (0..files.len() as u32).collect();
    for text in [
        "a",
        "aa",
        "μ",
        "!a",
        "a | μ",
        "ext:txt;é",
        "folder:",
        "symlink:",
    ] {
        let query = parsed(text);
        assert_eq!(
            restored.exact(&query, &live),
            Some(expected(&files, &query, &live))
        );
    }
    for truncated_at in 0..bytes.len() {
        assert!(MetadataPostings::read_from(&bytes[..truncated_at], files.len()).is_err());
    }
    let mut too_many_keys = bytes.clone();
    too_many_keys[..4].copy_from_slice(&257u32.to_le_bytes());
    assert_eq!(refused(&too_many_keys, files.len()), CacheError::CountExceedsLimit);
    assert_eq!(refused(&bytes, 1), CacheError::LengthOrSlot, "out of range slots");

    let mut duplicate_keys = Vec::new();
    number(&mut duplicate_keys, 2);
    for _ in 0..2 {
        duplicate_keys.push(b'a');
        bitmap(&mut duplicate_keys, &[0].into_iter().collect());
    }
    assert_eq!(refused(&duplicate_keys, 1), CacheError::DuplicateKey);
    for invalid_length in [MAX_EXTENSION_BYTES as u32 + 1, u32::MAX] {
        let mut oversized = Vec::new();
        for count in [0, 0, 1, invalid_length] {
            number(&mut oversized, count);
        }
        assert_eq!(refused(&oversized, 1), CacheError::CountExceedsLimit);
    }
    let mut invalid_utf8 = Vec::new();
    for count in [0u32, 0, 1, 1] {
        number(&mut invalid_utf8, count);
    }
    invalid_utf8.push(0xff);
    assert_eq!(refused(&invalid_utf8, 1), CacheError::NotText);

    let mut run_bitmap: RoaringBitmap = (0..70_000).collect();
    assert!(
        run_bitmap.optimize(),
        "fixture exercises portable run containers"
    );
    let mut run_bytes = vec![0; 12];
    bitmap(&mut run_bytes, &run_bitmap);
    bitmap(&mut run_bytes, &RoaringBitmap::new());
    let (read, position) = MetadataPostings::read_from(&run_bytes, 70_000).unwrap();
    assert_eq!(position, run_bytes.len());
    assert_eq!(*read.directories, run_bitmap);
    assert!(read.symlinks.is_empty());
    assert_eq!(read.write_to().unwrap(), run_bytes);

    let mut invalid_container_count = vec![0; 12];
    for value in [8u32, ARRAY_COOKIE, 65_536] {
        number(&mut invalid_container_count, value);
    }
    assert_eq!(refused(&invalid_container_count, 1), CacheError::ContainerCount);
}

#[test]
fn malformed_bitmaps_are_told_apart() {
    let prefixed = |numbers: &[u32]| {
        let mut bytes = vec![0; 12];
        for value in numbers {
            number(&mut bytes, *value);
        }
        bytes
    };
    assert_eq!(refused(&[], 1), CacheError::Truncated);
    assert_eq!(refused(&prefixed(&[3, 0]), 1), CacheError::HeaderTruncated);
    assert_eq!(refused(&prefixed(&[8, 7, 0]), 1), CacheError::InvalidCookie);
    assert_eq!(refused(&prefixed(&[4, ARRAY_COOKIE]), 1), CacheError::InvalidCookie);
    assert_eq!(refused(&prefixed(&[8, ARRAY_COOKIE]), 1), CacheError::Truncated);
    assert_eq!(refused(&prefixed(&[12, ARRAY_COOKIE, 1, 0]), 1), CacheError::InvalidBitmap);
    assert_eq!(refused(&prefixed(&[12, ARRAY_COOKIE, 0, 0]), 1), CacheError::LengthOrSlot);
    let mut empty_posting = Vec::new();
    number(&mut empty_posting, 1);
    empty_posting.push(b'a');
    bitmap(&mut empty_posting, &RoaringBitmap::new());
    assert_eq!(refused(&empty_posting, 1), CacheError::EmptyPosting);
    assert_eq!(CacheError::EmptyPosting.message(), "empty posting bitmap");
    assert_eq!(CacheError::LengthOrSlot.message(), "invalid bitmap length or slot");

    let mut long = MetadataPostings::new();
    long.extensions.insert(&vec![b'x'; MAX_EXTENSION_BYTES + 1], Arc::new([0].into_iter().collect()));
    assert_eq!(long.write_to().unwrap_err(), CacheError::ExtensionTooLong);
}
