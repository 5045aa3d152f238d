use apfsearch_core::engine::checks::resolve_directory_checks;
use apfsearch_core::engine::content::{
    fresh_problem, identity_before_reading, reading, validate_content_identity,
    validate_content_revision, verified_text, ExpectedIdentity, FileIdentity, Reading, Seen,
    TextProblem,
};
use apfsearch_core::engine::leases::{Context, Shelf};
use apfsearch_core::engine::links::{
    link_outcome, share_object_state, LinkOutcome, LinkVerification, Prepared, PreparedLinks,
};
use apfsearch_core::engine::outcome::{
    after_baseline, after_passes, end_pass, BaselineStep, DrainEnd, PassEnd, ReconciliationOutcome,
};
use apfsearch_core::engine::prepare::{
    Attempt, MetadataBatchError, NamespaceCodes, PreparationError, after_preparation, take_unseen,
};
use apfsearch_core::engine::prune::{collapse, Pruning};
use apfsearch_core::engine::publish::{
    checkpoint_note, mode_name, pin, refresh_mode, refresh_need, CacheNote, History, Pin,
    RefreshMode, RefreshNeed,
};
use apfsearch_core::engine::reconcile::{
    conclude, progressive_publish_threshold, without_own_files, Links, Pass, Progress,
};
use apfsearch_core::engine::requests::{
    check_directory_count, check_extracted_text, check_leased_generation, check_preference,
    check_query_text, check_roots, check_status_request, duplicate_mode, import_file_list,
    is_object_setting, operation, page_limit, query_plan, DuplicateMode, ImportedRow, Operation,
    Preference,
};
use apfsearch_core::engine::watch::{
    Beginning, Checkpoint, Drain, SavedProof, Step, Stream, WorkerStart, checkpoint, decide_resume,
    worker_start,
};
use apfsearch_core::files::IndexedFile;
use apfsearch_core::query::parser::parse;
use apfsearch_core::scan_resume::{
    Inspection, MountRecord, MountType, ResumeProof, RootIdentity, MNT_LOCAL,
};
use apfsearch_core::scanner::{ScanReport, ScannedFile};
use apfsearch_core::scanner::events::ChangeEvent;
use apfsearch_core::scanner::namespace::HostNames;
use apfsearch_core::scanner::plan::Reconciliation;

fn host() -> HostNames {
    HostNames {
        current_directory: "/".into(),
        firmlinks: Vec::new(),
        aliases: Vec::new(),
    }
}

fn strings(list: &[&str]) -> Vec<String> {
    list.iter().map(|text| (*text).into()).collect()
}

fn scanned(path: &str, file_id: u64, size: u64) -> ScannedFile {
    ScannedFile {
        path: path.into(),
        file_id,
        size,
        volume_id: "v".into(),
        ..ScannedFile::default()
    }
}

#[test]
fn requests_name_their_operation() {
    assert_eq!(operation(Some("query")).unwrap(), Operation::Query);
    assert_eq!(operation(Some("watch")).unwrap(), Operation::Scan);
    assert_eq!(operation(None).unwrap_err(), "Missing op");
    assert_eq!(
        operation(Some("fly")).unwrap_err(),
        "Unknown operation 'fly'"
    );
}

#[test]
fn requests_beyond_their_limits_are_refused() {
    assert!(check_query_text(&"x".repeat(16 * 1024)).is_ok());
    assert_eq!(
        check_query_text(&"x".repeat(16 * 1024 + 1)).unwrap_err(),
        "Query is limited to 16 KiB"
    );
    assert_eq!(page_limit(None), 200);
    assert_eq!(page_limit(Some(7)), 7);
    assert_eq!(page_limit(Some(u64::MAX)), 10_000);
    assert!(check_directory_count(200).is_ok());
    assert!(check_directory_count(201).is_err());
    assert!(check_extracted_text("x").is_ok());
    assert!(check_extracted_text(&"x".repeat(32 * 1024 * 1024 + 1)).is_err());
    assert_eq!(
        check_status_request(Some(4), Some("id")).unwrap(),
        (4, "id".to_string())
    );
    assert_eq!(
        check_status_request(None, Some("id")).unwrap_err(),
        "Missing status revision"
    );
    assert!(check_status_request(Some(4), Some("")).is_err());
    assert!(check_status_request(Some(4), None).is_err());
    assert!(check_leased_generation(None, 3, true).is_ok());
    assert!(check_leased_generation(Some(3), 3, true).is_ok());
    assert_eq!(
        check_leased_generation(Some(2), 3, false).unwrap_err(),
        "Snapshot lease generation mismatch"
    );
    assert_eq!(
        check_leased_generation(Some(2), 3, true).unwrap_err(),
        "SearchSnapshot lease generation does not match the requested generation"
    );
}

#[test]
fn settings_duplicates_and_roots_are_checked() {
    assert_eq!(
        check_preference("settings", false).unwrap(),
        Preference::Settings
    );
    assert_eq!(
        check_preference("macros", false).unwrap_err(),
        "macros must be an object of strings"
    );
    assert_eq!(
        check_preference("colour", true).unwrap_err(),
        "Unknown preference 'colour'"
    );
    assert!(is_object_setting(check_preference("macros", true).unwrap()));
    assert_eq!(duplicate_mode(false, None).unwrap(), DuplicateMode::Content);
    assert_eq!(
        duplicate_mode(false, Some("size")).unwrap(),
        DuplicateMode::Size
    );
    assert_eq!(
        duplicate_mode(false, Some("taste")).unwrap_err(),
        "Duplicate mode must be content, name, or size"
    );
    assert!(duplicate_mode(true, None).is_err());
    assert!(check_roots(&strings(&["/a"]), false).is_ok());
    assert_eq!(
        check_roots(&[], false).unwrap_err(),
        "At least one root is required"
    );
    assert_eq!(
        check_roots(&strings(&["/a", "b"]), true).unwrap_err(),
        "Index roots must be absolute paths"
    );
    assert_eq!(
        check_roots(&strings(&["/a"]), true).unwrap_err(),
        "Offline file-list indexes cannot scan local files"
    );
}

#[test]
fn imported_rows_are_numbered_and_named() {
    let row = |path: &str, name: Option<&str>, is_dir: bool| ImportedRow {
        path: path.into(),
        name: name.map(Into::into),
        size: 9,
        modified: 1,
        created: 2,
        is_dir,
    };
    let rows = [
        row("/a/Report.PDF", None, false),
        row("/a.d", Some("Label"), true),
    ];
    let files = import_file_list(false, &rows).unwrap();
    assert_eq!(files[0].name, "Report.PDF");
    assert_eq!(files[0].extension, "pdf");
    assert_eq!(files[0].file_id, 1);
    assert_eq!(files[0].volume_id, "offline:filelist");
    assert_eq!(files[1].name, "Label");
    assert_eq!(files[1].extension, "");
    assert_eq!(files[1].file_id, 2);
    assert!(import_file_list(true, &rows).is_err());
}

#[test]
fn a_plan_says_what_has_to_be_extracted() {
    let query = |text: &str| parse(text, &Vec::new()).outcome.unwrap();
    let plan = query_plan(&query("a"), &vec![query("content:x")]);
    assert!(plan.requires_content && plan.requires_extraction);
    assert!(!plan.indexed_relations_only);
    let plan = query_plan(&query("child:<content:x>"), &Vec::new());
    assert!(plan.requires_content && !plan.requires_extraction && plan.indexed_relations_only);
}

#[test]
fn only_an_answering_parent_makes_a_link_removed() {
    let missing = || Err("No such file".to_string());
    assert!(matches!(
        link_outcome(Ok(scanned("/a", 1, 1)), false, false),
        LinkOutcome::Found(_)
    ));
    assert!(matches!(
        link_outcome(missing(), true, true),
        LinkOutcome::Removed
    ));
    assert!(matches!(
        link_outcome(missing(), true, false),
        LinkOutcome::Unavailable(_)
    ));
    assert!(matches!(
        link_outcome(missing(), false, true),
        LinkOutcome::Unavailable(_)
    ));
    let mut found = LinkVerification::new();
    assert_eq!(found.record("/a".into(), LinkOutcome::Removed), None);
    assert_eq!(
        found.record("/b".into(), LinkOutcome::Unavailable("denied".into())),
        Some("denied".to_string())
    );
    assert_eq!(found.removed, ["/a"]);
    assert_eq!(found.unavailable, ["/b"]);
}

#[test]
fn entries_of_one_object_share_what_was_read_last() {
    let mut files = vec![scanned("/a", 7, 1), scanned("/b", 8, 5), scanned("/c", 7, 3)];
    share_object_state(&mut files);
    assert_eq!(
        files.iter().map(|file| file.size).collect::<Vec<_>>(),
        [3, 5, 3]
    );
    let prepared = PreparedLinks {
        available: files,
        removed: strings(&["/gone"]),
        unavailable: strings(&["/silent"]),
    };
    assert!(matches!(prepared.answer("/c"), Ok(Prepared::Entry(2))));
    assert!(matches!(prepared.answer("/gone"), Ok(Prepared::Removed)));
    assert!(matches!(
        prepared.answer("/silent"),
        Ok(Prepared::Unavailable)
    ));
    assert!(prepared.answer("/unknown").is_err());
}

#[test]
fn preparation_is_retried_but_not_without_end() {
    assert!(matches!(after_preparation(false, true, true, 0), Attempt::Commit));
    assert!(matches!(after_preparation(false, true, false, 0), Attempt::Again));
    assert!(matches!(
        after_preparation(false, true, false, u32::MAX),
        Attempt::Fail(PreparationError::Retry)
    ));
    assert!(matches!(
        after_preparation(false, false, true, 0),
        Attempt::Fail(PreparationError::Retry)
    ));
    assert!(matches!(
        after_preparation(true, false, false, 0),
        Attempt::Fail(PreparationError::Cancelled)
    ));
    let mut seen = strings(&["/a"]);
    assert_eq!(
        take_unseen(&strings(&["/a", "/b", "/b", "/c"]), &mut seen),
        ["/b", "/c"]
    );
    assert_eq!(seen, ["/a", "/b", "/c"]);
    assert!(take_unseen(&strings(&["/c"]), &mut seen).is_empty());
}

#[test]
fn batch_problems_stay_apart() {
    assert!(matches!(
        PreparationError::from_batch(MetadataBatchError::Cancelled),
        PreparationError::Cancelled
    ));
    assert!(matches!(
        PreparationError::from_batch(MetadataBatchError::NamespaceChanged),
        PreparationError::Retry
    ));
    assert!(matches!(
        PreparationError::from_batch(MetadataBatchError::Filesystem("io".into())),
        PreparationError::Failure(_)
    ));
}

#[test]
fn stored_scopes_outside_the_namespace_are_pruned_branch_by_branch() {
    let configured = strings(&["/", "/System/Volumes/Preboot/chosen"]);
    let mut search = Pruning::start(
        configured,
        strings(&["/System/Volumes/Preboot", "/System/Volumes/VM", "/Users"]),
    );
    let mut asked = Vec::new();
    while let Some(scope) = search.next_mixed() {
        let children = if scope == "/System/Volumes/Preboot" {
            strings(&[
                "/System/Volumes/Preboot/chosen",
                "/System/Volumes/Preboot/other",
                "/System/Volumes/Preboot/other/deep",
            ])
        } else {
            Vec::new()
        };
        asked.push(scope);
        search.children_found(children);
    }
    assert_eq!(asked, ["/System/Volumes/Preboot"]);
    assert_eq!(
        collapse(search.scopes),
        ["/System/Volumes/Preboot/other", "/System/Volumes/VM"]
    );
}

#[test]
fn snapshots_are_refreshed_and_kept_as_needed() {
    assert_eq!(
        refresh_need(5, 5, true, true),
        RefreshNeed::Current { persist: true }
    );
    assert_eq!(
        refresh_need(5, 5, false, true),
        RefreshNeed::Current { persist: false }
    );
    assert_eq!(refresh_need(6, 5, false, false), RefreshNeed::Build);
    assert_eq!(
        refresh_mode(Some(10), 100, None),
        (RefreshMode::Incremental, None)
    );
    assert_eq!(
        refresh_mode(Some(10), 100, Some("moved")),
        (RefreshMode::Remapped, Some("moved"))
    );
    assert_eq!(
        refresh_mode(Some(101), 100, Some("moved")),
        (RefreshMode::Full, Some("delta_exceeds_incremental_limit"))
    );
    assert_eq!(
        refresh_mode(None, 100, None),
        (RefreshMode::Full, Some("delta_unavailable"))
    );
    assert_eq!(mode_name(RefreshMode::Remapped), "remapped");
    let mut history: History<bool, &str> = History::new();
    assert!(history
        .replaced(1, true, "first", RefreshMode::Incremental)
        .is_none());
    assert!(history
        .replaced(2, false, "second", RefreshMode::Full)
        .is_none());
    assert_eq!(pin(None, 3, &history, |alive| *alive).unwrap(), Pin::Current);
    assert_eq!(
        pin(Some(1), 3, &history, |alive| *alive).unwrap(),
        Pin::Historical(0)
    );
    assert_eq!(
        pin(Some(2), 3, &history, |alive| *alive).unwrap_err(),
        "Requested generation expired; restart query at offset 0"
    );
    assert!(pin(Some(9), 3, &history, |alive| *alive).is_err());
    let retired = history
        .replaced(3, true, "third", RefreshMode::Incremental)
        .unwrap();
    assert_eq!(retired.generation, 1);
    assert_eq!(history.release(), vec!["third"]);
    assert_eq!(history.find(2), Some(0));
    assert!(matches!(checkpoint_note(Ok(()), false, Ok(())), CacheNote::Clear));
    assert!(matches!(checkpoint_note(Ok(()), true, Ok(())), CacheNote::Keep));
    match checkpoint_note(Err("full".into()), false, Err("busy".into())) {
        CacheNote::Problem(text) => {
            assert_eq!(text, "full; unable to schedule cache repair: busy")
        }
        other => panic!("{other:?}"),
    }
}

fn row() -> IndexedFile {
    IndexedFile {
        id: 1,
        path: "/a.txt".into(),
        name: "a.txt".into(),
        parent: "/".into(),
        extension: "txt".into(),
        folded_name: "a.txt".into(),
        folded_path: "/a.txt".into(),
        folded_extension: "txt".into(),
        search_name: "a.txt".into(),
        search_path: "/a.txt".into(),
        size: 3,
        modified: 0,
        created: 0,
        is_dir: false,
        is_symlink: false,
        flags: 0,
        file_id: 7,
        volume_id: "v".into(),
        modified_ns: 0,
        changed_ns: 0,
        properties: Vec::new(),
    }
}

#[test]
fn text_is_read_only_where_it_is_local_plain_and_unchanged() {
    assert!(matches!(reading(&row()), Reading::Read));
    assert!(matches!(
        reading(&IndexedFile {
            is_dir: true,
            ..row()
        }),
        Reading::Nothing
    ));
    assert!(matches!(
        reading(&IndexedFile {
            flags: 0x4000_0000,
            ..row()
        }),
        Reading::Skip("Cloud placeholders were skipped without downloading")
    ));
    assert!(matches!(
        reading(&IndexedFile {
            size: 1 << 40,
            ..row()
        }),
        Reading::Skip("Uncached content larger than 16 MiB was skipped")
    ));
    assert!(matches!(
        reading(&IndexedFile {
            extension: "exe".into(),
            ..row()
        }),
        Reading::Skip(_)
    ));
    assert_eq!(fresh_problem(&row(), &scanned("/a.txt", 7, 3)), None);
    assert_eq!(
        fresh_problem(&row(), &scanned("/a.txt", 7, 4)),
        Some("File changed since this query snapshot; refresh the index")
    );
    let mut link = scanned("/a.txt", 7, 3);
    link.is_symlink = true;
    assert_eq!(
        fresh_problem(&row(), &link),
        Some("File became a symlink, directory or cloud placeholder")
    );
}

#[test]
fn text_of_another_version_is_not_believed() {
    let identity = FileIdentity {
        file_id: 7,
        device_id: 1,
        size: 3,
        modified_ns: 0,
        changed_ns: 0,
    };
    let seen = Seen {
        is_file: true,
        identity,
        flags: 0,
    };
    let other = Seen {
        identity: FileIdentity {
            file_id: 8,
            ..identity
        },
        ..seen
    };
    assert_eq!(
        verified_text(seen, b"abc", seen, seen, identity).unwrap(),
        "abc"
    );
    assert!(matches!(
        verified_text(seen, b"ab", seen, seen, identity),
        Err(TextProblem::Doubtful("File size changed during content reading"))
    ));
    assert!(matches!(
        verified_text(other, b"abc", seen, seen, identity),
        Err(TextProblem::Doubtful(
            "Opened file identity or contents changed during reading"
        ))
    ));
    assert!(matches!(
        verified_text(seen, b"abc", seen, other, identity),
        Err(TextProblem::Doubtful(
            "Content path was replaced while its original descriptor remained open"
        ))
    ));
    assert!(matches!(
        verified_text(seen, &[0xff, b'a', b'b'], seen, seen, identity),
        Err(TextProblem::NotUtf8)
    ));
    let expected = ExpectedIdentity {
        file_id: Some(7),
        device_id: Some(1),
        size: Some(3),
        modified_ns: Some(0),
        changed_ns: Some(0),
    };
    assert!(validate_content_identity(Ok(seen), &expected).is_ok());
    assert_eq!(
        validate_content_identity(Ok(other), &expected).unwrap_err(),
        "Content source changed during extraction; retry with current metadata"
    );
    assert_eq!(
        validate_content_identity(Err("gone".into()), &expected).unwrap_err(),
        "Content source unavailable: gone"
    );
    assert!(validate_content_revision(4, 4).is_ok());
    assert!(validate_content_revision(4, 5).is_err());
}

#[test]
fn progress_is_published_by_rows_and_time() {
    assert_eq!(progressive_publish_threshold(10), 10_000);
    assert_eq!(progressive_publish_threshold(100_000), 50_000);
    let mut progress = Progress::start(true, 0);
    progress.committed(9_000, 5, 9_999);
    assert!(!progress.should_publish(60_000));
    progress.committed(1, 0, 1);
    assert!(progress.should_publish(2_000));
    assert!(!progress.should_publish(1_999));
    progress.published(1_000, 40_000);
    assert_eq!(
        (progress.changed, progress.threshold, progress.delay),
        (0, 20_000, 5_000)
    );
    assert!(!Progress::start(false, 0).should_publish(u64::MAX));
    let kept = without_own_files(
        vec![scanned("/index/db", 1, 1), scanned("/indexed", 2, 1)],
        "/index",
    );
    assert_eq!(kept.len(), 1);
    assert_eq!(kept[0].path, "/indexed");
}

fn report(uncovered: &[&str], cancelled: bool) -> ScanReport {
    ScanReport {
        entries: 1,
        roots: strings(&["/root"]),
        uncovered: strings(uncovered),
        errors: uncovered
            .iter()
            .map(|path| format!("{path}: problem"))
            .collect(),
        cancelled,
        excluded_mounts: strings(&["/root/mount"]),
    }
}

#[test]
fn a_pass_removes_what_is_proved_gone_and_keeps_the_rest_as_gaps() {
    let pass = Pass {
        roots: strings(&["/root"]),
        configured: strings(&["/root"]),
        recursive: true,
        initial: false,
    };
    let links = Links {
        cancelled: false,
        uncovered: Vec::new(),
        errors: Vec::new(),
    };
    let run = |report: &ScanReport, stopped: bool| {
        conclude(
            &pass,
            report,
            &links,
            &strings(&["/root/old", "/away"]),
            stopped,
            |path| path == "/root/gone",
            |path| path == "/root",
            |path| path == "/root",
        )
    };
    let done = run(&report(&["/root/gone", "/root/denied"], false), false);
    assert_eq!(
        done.finish,
        Some((
            strings(&["/root", "/root/gone"]),
            strings(&["/root/denied", "/root/mount"])
        ))
    );
    assert_eq!(done.uncovered, ["/away", "/root/denied"]);
    assert_eq!(done.errors, ["/root/denied: problem"]);
    assert_eq!(done.refresh, Some(false));
    assert!(done.complete);
    let cancelled = run(&report(&["/root/denied"], true), true);
    assert_eq!(cancelled.finish, None);
    assert_eq!(
        cancelled.uncovered,
        ["/away", "/root/denied", "/root/old"]
    );
    assert_eq!(cancelled.refresh, None);
    assert_eq!(cancelled.state, Some("cancelled"));
    assert!(!cancelled.complete);
}

fn sample() -> ResumeProof {
    ResumeProof {
        version: 1,
        boot_session: "boot".into(),
        journal_uuid: "journal".into(),
        roots: vec![RootIdentity {
            path: "/root".into(),
            device: 1,
            inode: 2,
        }],
        mounts: vec![MountRecord {
            path: "/".into(),
            source: "/dev/disk1".into(),
            flags: MNT_LOCAL,
        }],
        mount_types: vec![MountType {
            path: "/".into(),
            kind: "apfs".into(),
        }],
        access: Vec::new(),
    }
}

fn beginning() -> Beginning {
    Beginning {
        watch: true,
        resume: true,
        history_wrapped: false,
        saved_cursor: 40,
        current_cursor: 50,
        saved: SavedProof::Valid(sample()),
        inspection: Some(Inspection {
            proof: sample(),
            recheck_roots: strings(&["/root/new"]),
        }),
    }
}

#[test]
fn an_index_is_continued_only_from_a_history_that_leads_to_it() {
    let decide = |start: &Beginning| decide_resume(start, &host(), |_| true);
    let resumed = decide(&beginning());
    assert_eq!(resumed.reason, "journal_resume");
    assert!(resumed.restore);
    assert_eq!(resumed.since, 40);
    assert_eq!(resumed.recheck, ["/root/new"]);
    let mut other = sample();
    other.boot_session = "other".into();
    for (start, reason) in [
        (
            Beginning {
                watch: false,
                ..beginning()
            },
            "watch_disabled",
        ),
        (
            Beginning {
                resume: false,
                ..beginning()
            },
            "explicit_baseline_requested",
        ),
        (
            Beginning {
                history_wrapped: true,
                ..beginning()
            },
            "event_ids_wrapped",
        ),
        (
            Beginning {
                saved_cursor: 0,
                ..beginning()
            },
            "missing_event_cursor",
        ),
        (
            Beginning {
                saved_cursor: 51,
                ..beginning()
            },
            "event_cursor_out_of_range",
        ),
        (
            Beginning {
                saved: SavedProof::Missing,
                ..beginning()
            },
            "missing_completed_baseline_proof",
        ),
        (
            Beginning {
                saved: SavedProof::Invalid,
                ..beginning()
            },
            "invalid_baseline_proof",
        ),
        (
            Beginning {
                inspection: None,
                ..beginning()
            },
            "inspection_failed",
        ),
        (
            Beginning {
                saved: SavedProof::Valid(other),
                ..beginning()
            },
            "boot_session_changed",
        ),
    ] {
        let decision = decide(&start);
        assert_eq!(decision.reason, reason);
        assert!(!decision.restore);
        assert_eq!(decision.since, 50);
        assert!(decision.recheck.is_empty());
    }
    let now = |proof: ResumeProof| {
        Ok(Inspection {
            proof,
            recheck_roots: Vec::new(),
        })
    };
    assert!(matches!(
        checkpoint(&sample(), now(sample())),
        Checkpoint::Commit { mounts_done: true }
    ));
    let mut mounted = sample();
    mounted.mounts[0].source = "/dev/disk2".into();
    assert!(matches!(
        checkpoint(&sample(), now(mounted)),
        Checkpoint::Commit { mounts_done: false }
    ));
    let mut moved = sample();
    moved.journal_uuid = "other".into();
    match checkpoint(&sample(), now(moved)) {
        Checkpoint::Refuse(reason) => assert_eq!(reason, "journal_identity_changed"),
        other => panic!("{other:?}"),
    }
}

fn event(path: &str, event_id: u64, flags: u32) -> ChangeEvent {
    ChangeEvent::from_flags(path, event_id, flags, &host())
}

#[test]
fn drained_events_become_work_once_and_move_the_cursor_forward() {
    let mut stream = Stream::begin(30, true);
    assert!(matches!(
        stream.take_drain(Vec::new(), 30, "/index"),
        Step::Wait
    ));
    assert!(matches!(
        stream.take_drain(vec![event("/a", 31, 0x08)], 30, "/index"),
        Step::Restart
    ));
    assert!(matches!(
        stream.take_drain(vec![event("/index/db", 32, 0x1000)], 30, "/index"),
        Step::Idle {
            watching: false,
            rebuild_cache: false
        }
    ));
    let delivered = vec![
        event("/index/db", 33, 0x1000),
        event("/a", 35, 0x1000),
        event("/b", 34, 0x1000),
        event("/", 36, 0x10),
    ];
    let drain = match stream.take_drain(delivered, 30, "/index") {
        Step::Reconcile(drain) => drain,
        _ => panic!("two events have to be reconciled"),
    };
    assert_eq!(drain.events.len(), 2);
    assert_eq!(drain.max_id, 35);
    assert_eq!(drain.mount_cursor, Some(30));
    assert!(drain.history_done);
    let done = stream.acknowledge(&drain, 30);
    assert_eq!(done.advance, Some(35));
    assert!(!stream.replaying);
    assert!(matches!(
        stream.take_drain(vec![event("/", 40, 0x10)], 35, "/index"),
        Step::Idle {
            watching: true,
            rebuild_cache: true
        }
    ));
}

#[test]
fn checked_directories_are_scanned_unless_covered_and_readable() {
    let plan = Reconciliation {
        recursive: strings(&["/root/new"]),
        metadata: strings(&["/root"]),
        directory_checks: strings(&["/root/a", "/root/b"]),
    };
    let done = resolve_directory_checks(
        &plan,
        &[],
        &host(),
        |path| Ok(path == "/root/a"),
        |_| true,
        |_| false,
        |_| true,
        |_| false,
        |path| Some(path.into()),
        || false,
    )
    .unwrap()
    .unwrap();
    assert!(done.directory_checks.is_empty());
    assert_eq!(done.recursive, ["/root/b", "/root/new"]);
    assert_eq!(done.metadata, ["/root", "/root/a"]);
    let stopped = resolve_directory_checks(
        &plan,
        &[],
        &host(),
        |_| Ok(true),
        |_| true,
        |_| false,
        |_| true,
        |_| false,
        |path| Some(path.into()),
        || true,
    );
    assert!(stopped.unwrap().is_none());
    let failed = resolve_directory_checks(
        &plan,
        &[],
        &host(),
        |_| Err("store".into()),
        |_| true,
        |_| false,
        |_| true,
        |_| false,
        |path| Some(path.into()),
        || false,
    );
    assert_eq!(failed.unwrap_err(), "store");
}

#[test]
fn an_index_of_other_roots_is_not_continued() {
    let (old, new) = (strings(&["/a", "/b"]), strings(&["/a"]));
    assert_eq!(
        worker_start(&old, &old, true, false, true),
        WorkerStart { other_roots: false, resume: true, wait: true }
    );
    assert_eq!(
        worker_start(&old, &new, true, true, true),
        WorkerStart { other_roots: true, resume: false, wait: false }
    );
}

#[test]
fn namespace_errors_remain_distinct_from_io_failure_and_cancellation() {
    let codes = NamespaceCodes {
        again: libc::EAGAIN,
        missing: libc::ENOENT,
        not_a_directory: libc::ENOTDIR,
        too_many_links: libc::ELOOP,
        denied: libc::EACCES,
    };
    for code in [
        libc::EAGAIN,
        libc::ENOENT,
        libc::ENOTDIR,
        libc::ELOOP,
        libc::EACCES,
    ] {
        let error = MetadataBatchError::from_code(code, &codes, "path".into());
        assert!(matches!(
            PreparationError::from_batch(error),
            PreparationError::Retry
        ));
    }
    let error = MetadataBatchError::from_code(libc::EIO, &codes, "io".into());
    assert!(matches!(
        PreparationError::from_batch(error),
        PreparationError::Failure(_)
    ));
    assert!(matches!(
        PreparationError::from_batch(MetadataBatchError::Cancelled),
        PreparationError::Cancelled
    ));
}

#[test]
fn a_lease_keeps_its_snapshot_whatever_is_published() {
    let mut shelf: Shelf<u64, &str, &str> = Shelf::new(1, "first");
    let token = shelf
        .leases
        .retain(Context {
            generation: 1,
            snapshot: "first",
            settings: "old settings",
        })
        .unwrap();
    for (generation, snapshot) in [(2, "second"), (3, "third"), (4, "fourth"), (5, "fifth")] {
        shelf.publish(generation, snapshot, generation - 1, RefreshMode::Full);
        let other = shelf
            .leases
            .retain(Context {
                generation,
                snapshot,
                settings: "new settings",
            })
            .unwrap();
        assert_ne!(other, token);
        assert_eq!(shelf.leases.count(), 2);
        assert!(shelf.leases.release(other));
        assert_eq!(shelf.leases.count(), 1);
        let kept = shelf.leased(token, None, true).unwrap();
        assert_eq!((kept.generation, kept.snapshot), (1, "first"));
        assert_eq!(kept.settings, "old settings");
        assert!(shelf.leased(token, Some(1), false).is_ok());
        assert_eq!(
            shelf.leased(token, Some(generation), true).err().unwrap(),
            "SearchSnapshot lease generation does not match the requested generation"
        );
        assert_eq!(
            shelf.leased(token, Some(generation), false).err().unwrap(),
            "Snapshot lease generation mismatch"
        );
        assert_eq!(shelf.pinned(None, |_| true).unwrap(), Pin::Current);
    }
    assert_eq!(shelf.generation, 5);
    assert_eq!(shelf.pinned(Some(4), |_| true).unwrap(), Pin::Historical(1));
    assert!(shelf.pinned(Some(1), |_| true).is_err());
    assert!(shelf.leases.release(token));
    assert!(!shelf.leases.release(token));
    assert_eq!(
        shelf.leased(token, None, true).err().unwrap(),
        "Snapshot lease expired"
    );
}

fn ended(problem: Option<PreparationError>, links_cancelled: bool) -> Result<PassEnd, String> {
    let pass = Pass {
        roots: strings(&["/root"]),
        configured: strings(&["/root"]),
        recursive: true,
        initial: false,
    };
    let links = Links {
        cancelled: links_cancelled,
        uncovered: Vec::new(),
        errors: Vec::new(),
    };
    end_pass(
        problem,
        &pass,
        &report(&[], false),
        links,
        &strings(&["/root/old"]),
        false,
        |_| false,
        |_| true,
        |_| true,
    )
}

#[test]
fn a_conflict_ends_a_pass_with_nothing_to_write() {
    let retried = ended(Some(PreparationError::Retry), false).unwrap();
    assert_eq!(retried.outcome, ReconciliationOutcome::Retry);
    assert!(retried.conclusion.is_none());
    let complete = ended(None, false).unwrap();
    assert_eq!(complete.outcome, ReconciliationOutcome::Complete);
    assert!(complete.conclusion.unwrap().finish.is_some());
    for cancelled in [
        ended(Some(PreparationError::Cancelled), false).unwrap(),
        ended(None, true).unwrap(),
    ] {
        assert_eq!(cancelled.outcome, ReconciliationOutcome::Cancelled);
        let conclusion = cancelled.conclusion.unwrap();
        assert_eq!(conclusion.finish, None);
        assert!(!conclusion.complete);
    }
    assert_eq!(
        ended(Some(PreparationError::Failure("disk".into())), false).unwrap_err(),
        "disk"
    );
}

#[test]
fn a_baseline_is_tried_again_until_its_conflicts_are_over() {
    let outcomes = [
        ReconciliationOutcome::Retry,
        ReconciliationOutcome::Retry,
        ReconciliationOutcome::Complete,
    ];
    let steps: Vec<_> = outcomes
        .iter()
        .map(|outcome| after_baseline(*outcome, false))
        .collect();
    assert_eq!(
        steps,
        [BaselineStep::Again, BaselineStep::Again, BaselineStep::Over(true)]
    );
    assert_eq!(
        after_baseline(ReconciliationOutcome::Retry, true),
        BaselineStep::Over(false)
    );
    assert_eq!(
        after_baseline(ReconciliationOutcome::Cancelled, false),
        BaselineStep::Over(false)
    );
}

#[test]
fn events_of_a_conflicting_pass_wait_for_the_next_drain() {
    let drain = || Drain {
        events: vec![event("/root/file", 35, 0x1000)],
        history_done: true,
        max_id: 35,
        mount_cursor: Some(30),
    };
    match after_passes(
        drain(),
        Some(ReconciliationOutcome::Complete),
        Some(ReconciliationOutcome::Retry),
        &host(),
    ) {
        DrainEnd::Queued(waiting) => {
            assert_eq!(waiting.len(), 2);
            assert_eq!(waiting[0].path, "/root/file");
            assert_eq!(waiting[1].flags, 0x10);
        }
        other => panic!("{other:?}"),
    }
    assert!(matches!(
        after_passes(drain(), Some(ReconciliationOutcome::Cancelled), None, &host()),
        DrainEnd::Queued(_)
    ));
    match after_passes(drain(), None, Some(ReconciliationOutcome::Complete), &host()) {
        DrainEnd::Reconciled(done) => assert_eq!(done.max_id, 35),
        other => panic!("{other:?}"),
    }
}

#[test]
fn a_file_is_opened_only_while_its_path_names_the_row() {
    let identity = FileIdentity {
        file_id: 7,
        device_id: 1,
        size: 3,
        modified_ns: 0,
        changed_ns: 0,
    };
    let seen = |identity: FileIdentity, is_file: bool| Seen {
        is_file,
        identity,
        flags: 0,
    };
    assert_eq!(
        identity_before_reading(&seen(identity, true), &row()),
        Ok(identity)
    );
    for changed in [
        seen(identity, false),
        seen(FileIdentity { file_id: 8, ..identity }, true),
        seen(FileIdentity { size: 4, ..identity }, true),
        seen(FileIdentity { modified_ns: 1, ..identity }, true),
        seen(FileIdentity { changed_ns: 1, ..identity }, true),
    ] {
        assert_eq!(
            identity_before_reading(&changed, &row()),
            Err("File identity changed before reading content")
        );
    }
}
