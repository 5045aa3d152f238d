use apfsearch_core::metadata_postings::MetadataPostings;
use apfsearch_core::scan_resume::inspect::{inspect, HostFacts, HostMount};
use apfsearch_core::scan_resume::MNT_LOCAL;
use apfsearch_core::scanner::batch::{finish_batch, next_in_batch, sibling_order, BatchStep};
use apfsearch_core::scanner::entry::{FileKind, FileMetadata};
use apfsearch_core::scanner::namespace::HostNames;
use apfsearch_core::scanner::traversal::{
    Collected, Listing, NextDirectory, BATCH_ENTRIES, LISTING_CANCELLED,
};
use apfsearch_core::scanner::{scan, scan_excluding, scan_metadata, stat_entry, Watcher};
use roaring::RoaringBitmap;
use std::path::Path;

fn host() -> HostNames {
    HostNames {
        current_directory: "/".into(),
        firmlinks: Vec::new(),
        aliases: Vec::new(),
    }
}

fn strings(list: &[&str]) -> Vec<String> {
    list.iter().map(|text| (*text).into()).collect()
}

fn metadata(kind: FileKind, size: u64) -> FileMetadata {
    FileMetadata {
        kind,
        size,
        modified: 5,
        changed: 6,
        created: 4,
        modified_ns: 7,
        changed_ns: 8,
        file_id: 9,
        parent_id: 2,
        volume_id: "v".into(),
        flags: 0,
        link_count: Some(1),
        error: None,
    }
}

fn contents(path: &str) -> Vec<(&'static str, FileMetadata)> {
    match path {
        "/root" => vec![
            ("a.TXT", metadata(FileKind::Regular, 3)),
            ("sub", metadata(FileKind::Directory, 0)),
            ("link", metadata(FileKind::Symlink, 0)),
            ("skip", metadata(FileKind::Directory, 0)),
        ],
        "/root/sub" => vec![
            ("b", metadata(FileKind::Regular, 1)),
            (
                "denied",
                FileMetadata {
                    error: Some(13),
                    ..metadata(FileKind::Directory, 0)
                },
            ),
        ],
        _ => Vec::new(),
    }
}

#[test]
fn a_scan_lists_every_directory_once_and_reports_what_it_could_not_read() {
    let mut work = scan(
        &strings(&["/root"]),
        false,
        &host(),
        Ok(()),
        |path| path != "/root/skip",
        |scope| {
            assert_eq!(scope, ["/root"]);
            strings(&["/root/mounted"])
        },
        |_| false,
        |path| Some(path.into()),
        || false,
    );
    work.excluded.push("/root/skip".into());
    let starts = work.starts.clone();
    assert_eq!(starts, ["/root"]);
    for start in &starts {
        work.start_seen(start, Ok(metadata(FileKind::Directory, 0)));
    }
    let mut files = work.first_batch().unwrap();
    assert!(work.first_batch().is_none());
    let mut listed = Vec::new();
    loop {
        let directory = match work.next_directory(false) {
            NextDirectory::List(directory) => directory,
            NextDirectory::Finished => break,
            NextDirectory::Wait => panic!("there is one worker"),
        };
        let mut listing = Listing::of(&directory);
        for (name, metadata) in contents(&directory) {
            match listing.collect_entry(
                name.as_bytes(),
                &metadata,
                &work.configured,
                &work.excluded,
                false,
            ) {
                Collected::Issue(path, code) => {
                    work.issue_seen(&path, &format!("error {code}"));
                }
                Collected::Batch(batch) => files.extend(work.receive(batch).into_iter().flatten()),
                Collected::Continue => {}
                Collected::Stop => panic!("nothing was cancelled"),
            }
        }
        listed.push(directory);
        files.extend(work.receive(listing.entries).into_iter().flatten());
        work.finish_directory(listing.children);
    }
    files.extend(work.flush().into_iter().flatten());
    assert!(work.flush().is_none());
    assert_eq!(listed, ["/root", "/root/sub"]);
    let mut paths: Vec<_> = files.iter().map(|file| file.path.as_str()).collect();
    paths.sort();
    assert_eq!(
        paths,
        ["/root", "/root/a.TXT", "/root/link", "/root/sub", "/root/sub/b"]
    );
    let text = files.iter().find(|file| file.name == "a.TXT").unwrap();
    assert_eq!(text.extension, "txt");
    assert_eq!(text.size, 3);
    let report = work.finish(false);
    assert_eq!(report.entries, 5);
    assert_eq!(report.uncovered, ["/root/sub/denied"]);
    assert_eq!(report.errors, ["/root/sub/denied: error 13"]);
    assert_eq!(report.excluded_mounts, ["/root/mounted"]);
}

#[test]
fn names_that_are_no_text_and_cancellation_are_told_apart() {
    let mut listing = Listing::of("/root");
    let file = metadata(FileKind::Regular, 1);
    let roots = strings(&["/root"]);
    assert!(matches!(
        listing.collect_entry(&[0xff], &file, &roots, &Vec::new(), false),
        Collected::Issue(_, 84)
    ));
    assert!(matches!(
        listing.collect_entry(b"x", &file, &roots, &Vec::new(), true),
        Collected::Stop
    ));
    assert!(listing.entries.is_empty());
}

#[test]
fn unreadable_mounts_leave_every_root_uncovered() {
    let work = scan(
        &strings(&["/root"]),
        false,
        &host(),
        Err("unavailable".into()),
        |_| true,
        |_| strings(&["/root/mounted"]),
        |_| false,
        |path| Some(path.into()),
        || false,
    );
    assert!(work.report.excluded_mounts.is_empty());
    assert_eq!(work.report.uncovered, ["/root"]);
    assert_eq!(
        work.report.errors,
        ["Could not inspect mounted filesystems: unavailable"]
    );
    let mut single = scan_metadata(
        &strings(&["/root/b", "/root/a", "/root/b"]),
        &host(),
        Ok(()),
        |_| true,
        |scope| {
            assert_eq!(scope, ["/root/a", "/root/b"]);
            strings(&["/root/a/mounted"])
        },
    );
    assert_eq!(single.starts, ["/root/a", "/root/b"]);
    assert_eq!(single.report.excluded_mounts, ["/root/a/mounted"]);
    assert!(single
        .metadata_seen("/root/a", Ok(metadata(FileKind::Directory, 0)))
        .is_none());
    assert!(single.metadata_seen("/root/b", Err("denied".into())).is_none());
    let seen = single.flush().unwrap();
    assert_eq!(seen.len(), 1);
    assert_eq!(seen[0].path, "/root/a");
    let report = single.finish(false);
    assert_eq!(report.entries, 1);
    assert_eq!(report.uncovered, ["/root/b"]);
    let entry = stat_entry("/root/x.PDF", Ok(metadata(FileKind::Regular, 2))).unwrap();
    assert_eq!(entry.extension, "pdf");
    assert!(!entry.is_dataless());
    assert_eq!(
        stat_entry("/root/x", Err("denied".into())).unwrap_err(),
        "/root/x: denied"
    );
}

#[test]
fn a_missing_root_is_watched_from_the_closest_directory() {
    let (watcher, watched) = Watcher::start(
        &strings(&["/away/deep", "/here"]),
        &host(),
        |path| path == "/" || path == "/here",
    )
    .unwrap();
    assert_eq!(watcher.roots, ["/away/deep", "/here"]);
    assert_eq!(watched, ["/"]);
    assert!(Watcher::start(&[], &host(), |_| true).is_err());
}

#[test]
fn siblings_are_looked_at_after_each_other_as_paths_sort() {
    let mut list = strings(&[
        "/b/x",
        "/a/z",
        "/a.c/q",
        "/a/a",
        "/a/m/n",
        "/",
        "/b",
        "/a/../w",
        "/a/!/w",
    ]);
    let sorted = sibling_order(list.clone());
    list.sort_by(|a, b| {
        Path::new(a)
            .parent()
            .cmp(&Path::new(b).parent())
            .then(a.cmp(b))
    });
    assert_eq!(sorted, list);
    let mut opened = 0;
    let mut place = 0;
    loop {
        match next_in_batch(&sorted, place, false) {
            BatchStep::Finished => break,
            BatchStep::Cancelled => panic!("nothing was cancelled"),
            BatchStep::Look {
                place: at,
                another_directory,
            } => {
                assert_eq!(at, place);
                opened += another_directory as usize;
                place += 1;
            }
        }
    }
    assert_eq!(opened, 7);
    assert_eq!(next_in_batch(&sorted, 0, true), BatchStep::Cancelled);
    assert!(finish_batch(Ok(()), Ok(true)).is_ok());
    assert_eq!(
        finish_batch(Ok(()), Ok(false)).unwrap_err(),
        "Mount identity changed during metadata verification"
    );
    assert_eq!(finish_batch(Err("moved".into()), Ok(true)).unwrap_err(), "moved");
}

fn facts() -> HostFacts {
    HostFacts {
        boot_device: 1,
        boot_session: "boot".into(),
        journal_uuid: Some("journal".into()),
        mounts: vec![HostMount {
            path: "/".into(),
            source: "/dev/disk1".into(),
            kind: "apfs".into(),
            flags: MNT_LOCAL,
            device: Some(1),
        }],
        home: None,
    }
}

#[test]
fn an_inspection_needs_a_journal_and_reachable_roots() {
    let roots = strings(&["/root"]);
    let run = |host: &HostFacts, allowed: bool, found: Result<(u64, u64), String>| {
        inspect(
            &roots,
            &[],
            host,
            &HostNames {
                current_directory: "/".into(),
                firmlinks: Vec::new(),
                aliases: Vec::new(),
            },
            |_| allowed,
            |_| found.clone(),
            |_| true,
        )
    };
    let seen = run(&facts(), true, Ok((1, 22))).unwrap();
    assert_eq!(seen.proof.boot_session, "boot");
    assert_eq!(seen.proof.journal_uuid, "journal");
    assert_eq!(seen.proof.roots[0].inode, 22);
    assert_eq!(seen.proof.mounts[0].source, "/dev/disk1");
    let mut silent = facts();
    silent.journal_uuid = None;
    assert_eq!(
        run(&silent, true, Ok((1, 22))).unwrap_err(),
        "Boot-volume event history is unavailable"
    );
    assert_eq!(
        run(&facts(), false, Ok((1, 22))).unwrap_err(),
        "Configured root is not on a supported local mount"
    );
    assert_eq!(
        run(&facts(), true, Err("gone".into())).unwrap_err(),
        "gone"
    );
}

#[test]
fn stored_postings_put_back_are_the_same() {
    let mut postings = MetadataPostings::new();
    for (kind, key) in [(1u8, "a"), (1, "b"), (2, "ab"), (3, "txt"), (4, ""), (5, "")] {
        postings
            .insert_restored(
                kind,
                key.as_bytes(),
                RoaringBitmap::from([kind as u32, 100]),
            )
            .unwrap();
    }
    let stored = postings.visit_postings();
    assert_eq!(stored.len(), 6);
    let mut again = MetadataPostings::new();
    for one in &stored {
        again
            .insert_restored(one.kind, &one.key, (*one.slots).clone())
            .unwrap();
    }
    let listed = |postings: &MetadataPostings| {
        let mut list: Vec<_> = postings
            .visit_postings()
            .iter()
            .map(|one| (one.kind, one.key.clone(), one.slots.iter().collect::<Vec<_>>()))
            .collect();
        list.sort();
        list
    };
    assert_eq!(listed(&postings), listed(&again));
}

#[test]
fn a_look_at_single_entries_hands_on_full_batches() {
    let paths: Vec<String> = (0..BATCH_ENTRIES + 1)
        .map(|number| format!("/root/{number:06}"))
        .collect();
    let mut look = scan_metadata(&paths, &host(), Ok(()), |_| true, |_| Vec::new());
    let starts = look.starts.clone();
    let mut batches = Vec::new();
    for start in &starts {
        batches.extend(look.metadata_seen(start, Ok(metadata(FileKind::Regular, 1))));
    }
    batches.extend(look.flush());
    let sizes: Vec<usize> = batches.iter().map(|batch| batch.len()).collect();
    assert_eq!(sizes, [BATCH_ENTRIES, 1]);
    let handed: Vec<String> = batches
        .into_iter()
        .flatten()
        .map(|entry| entry.path)
        .collect();
    assert_eq!(handed, paths);
    assert_eq!(look.finish(false).entries, paths.len() as u64);
}

#[test]
fn a_listing_that_was_given_up_leaves_no_gap() {
    let mut look = scan_metadata(&strings(&["/root"]), &host(), Ok(()), |_| true, |_| Vec::new());
    look.listing_ended("/root/a", 0, "no error");
    look.listing_ended("/root/b", LISTING_CANCELLED, "Operation canceled");
    look.listing_ended("/root/c", 13, "Permission denied");
    assert_eq!(look.report.uncovered, ["/root/c"]);
    assert_eq!(look.report.errors, ["/root/c: Permission denied"]);
    assert_eq!(LISTING_CANCELLED, 89);
}

#[test]
fn a_cancelled_scan_reports_its_roots_and_nothing_else() {
    let begin = |cancelled: bool| {
        scan_excluding(
            &strings(&["/b", "/a"]),
            &[],
            false,
            &host(),
            Ok(()),
            |_| true,
            |_| strings(&["/mounted"]),
            |_| false,
            |path| Some(path.into()),
            move || cancelled,
        )
    };
    let stopped = begin(true);
    assert!(stopped.report.cancelled);
    assert!(stopped.starts.is_empty() && stopped.directories.is_empty());
    assert_eq!(stopped.report.roots, ["/b", "/a"]);
    assert!(stopped.report.uncovered.is_empty());
    assert!(stopped.report.errors.is_empty());
    assert!(stopped.report.excluded_mounts.is_empty());
    let begun = begin(false);
    assert!(!begun.report.cancelled);
    assert_eq!(begun.report.roots, ["/a", "/b"]);
    assert_eq!(begun.starts, ["/a", "/b"]);
}
