use apfsearch_core::engine::errors::discard_removed_path_errors;
use apfsearch_core::fold::natural_cmp;
use apfsearch_core::scanner::entry::{FileKind, FileMetadata};
use apfsearch_core::scanner::events::{ChangeEvent, Watcher, EVENT_IDS_WRAPPED};
use apfsearch_core::scanner::firmlinks::read_firmlinks;
use apfsearch_core::scanner::namespace::{
    path_in_namespace, subtree_in_namespace, visible_path, HostNames, DATA_ROOT, SYSTEM_VOLUMES,
};
use apfsearch_core::scanner::plan::{
    reconciliation_plan, reconciliation_plan_with_history, reconciliation_roots, Reconciliation,
};
use apfsearch_core::scanner::selection::normalize_roots;
use apfsearch_core::scanner::traversal::{
    enumeration_scope, scan_excluding_in_namespace, Collected, Listing,
};
use std::cell::Cell;
use std::path::Path;

const FIRMLINKS: &str = "/AppleInternal\tAppleInternal\n/Applications\tApplications\n/Library\tLibrary\n/System/Library/Caches\tSystem/Library/Caches\n/Users\tUsers\n/Volumes\tVolumes\n/cores\tcores\n/opt\topt\n/private\tprivate\n/usr/local\tusr/local\n";

fn host() -> HostNames {
    let mut firmlinks = read_firmlinks(FIRMLINKS);
    for link in &mut firmlinks {
        link.verified = true;
    }
    HostNames {
        current_directory: "/".into(),
        firmlinks,
        aliases: Vec::new(),
    }
}

fn chosen(roots: &[String]) -> Vec<String> {
    normalize_roots(roots, &host(), |_| true, |_| false, |path| Some(path.into()))
}

fn event(path: &str, id: u64, flags: u32) -> ChangeEvent {
    ChangeEvent::from_flags(path, id, flags, &host())
}

fn plan(roots: &[String], events: &[ChangeEvent]) -> Reconciliation {
    reconciliation_plan(roots, events, &host())
}

fn planned(roots: &[String], events: &[ChangeEvent], cursor: Option<u64>) -> Reconciliation {
    reconciliation_plan_with_history(roots, events, cursor, &host())
}

fn watcher(roots: &[String]) -> Watcher {
    Watcher {
        roots: roots.to_vec(),
        events: Vec::new(),
    }
}

fn directory() -> FileMetadata {
    FileMetadata {
        kind: FileKind::Directory,
        size: 0,
        modified: 1,
        changed: 1,
        created: 1,
        modified_ns: 0,
        changed_ns: 0,
        file_id: 2,
        parent_id: 1,
        volume_id: "volume".into(),
        flags: 0,
        link_count: Some(2),
        error: None,
    }
}

#[test]
fn roots_deduplicate_and_data_alias_maps_once() {
    assert_eq!(
        chosen(&[
            "/Users".into(),
            "/System/Volumes/Data/Users".into(),
            "/Users/example".into()
        ]),
        vec!["/Users"]
    );
    assert_eq!(
        visible_path("/System/Volumes/Data/Applications/Foo.app", &host().firmlinks),
        "/Applications/Foo.app"
    );
    assert_eq!(
        visible_path("/System/Volumes/Database/example", &host().firmlinks),
        "/System/Volumes/Database/example"
    );
}

#[test]
fn data_only_paths_and_overlay_ancestors_are_not_erased_by_firmlinks() {
    let links = host().firmlinks;
    for suffix in [
        "",
        "/usr",
        "/System",
        "/sw",
        "/.Spotlight-V100",
        "/MobileSoftwareUpdate",
        "/.PreviousSystemInformation",
    ] {
        let path = format!("{DATA_ROOT}{suffix}");
        assert_eq!(visible_path(&path, &links), path);
    }
    let (traversed, excluded) =
        enumeration_scope(&["/".into()], &["/".into()], &[], true, &host());
    assert_eq!(traversed, vec!["/", DATA_ROOT]);
    assert!(!excluded.iter().any(|path| path == DATA_ROOT
        || path == &format!("{DATA_ROOT}/usr")
        || path == &format!("{DATA_ROOT}/System")));
    for link in &links {
        assert!(excluded.contains(&link.physical));
        assert_eq!(visible_path(&link.physical, &links), link.logical);
    }
    let physical_usr = format!("{DATA_ROOT}/usr");
    let selected = chosen(std::slice::from_ref(&physical_usr));
    assert!(selected.contains(&physical_usr));
    for link in links
        .iter()
        .filter(|link| Path::new(&link.physical).starts_with(&physical_usr))
    {
        assert!(selected.contains(&link.logical));
    }
    assert!(
        !selected.contains(&"/usr".into()),
        "Data/usr is not the same object as /usr"
    );
}

#[test]
fn directory_events_do_not_promote_a_small_change_to_the_root() {
    let roots = vec!["/".to_string()];
    let result = plan(
        &roots,
        &[
            event("/Users", 1, 0x20000 | 0x1000),
            event("/Users/test/file.txt", 2, 0x10000 | 0x1000),
            event("/Applications/New.app", 3, 0x20000 | 0x100),
            event("/", 4, 0x10),
        ],
    );
    assert_eq!(
        result.metadata,
        vec!["/", "/Applications", "/Users", "/Users/test"]
    );
    assert_eq!(
        result.recursive,
        vec!["/Applications/New.app", "/Users/test/file.txt"]
    );
    let dropped = plan(&roots, &[event("/Users/test", 5, 0x04)]);
    assert_eq!(dropped.recursive, roots);
}

#[test]
fn journal_drop_and_rename_invalidation_are_conservative() {
    let roots = vec!["/Users/test/Documents".into()];
    let drop = event("/Users/test/Documents/child", 12, 0x04);
    assert!(drop.must_rescan);
    assert_eq!(reconciliation_roots(&roots, &[drop], &host()), roots);
    let rename = event("/Users/test/Documents/old", 13, 0x800);
    assert_eq!(
        reconciliation_roots(&roots, &[rename], &host()),
        vec!["/Users/test/Documents/old"]
    );
    let unrelated = event("/Volumes/unrelated", 14, 0x20);
    assert!(reconciliation_roots(&roots, &[unrelated], &host()).is_empty());
}

#[test]
fn history_done_is_retained_without_interpreting_its_undefined_path() {
    let mut context = watcher(&["/some/scoped/root".into()]);
    context.collect("/outside/undefined/path", 123, 0x10, &host());
    let events = context.drain(false, &host());
    assert_eq!(events.len(), 1);
    assert_eq!(events[0].flags, 0x10);
    assert_eq!(plan(&context.roots, &events), Reconciliation::default());
}

#[test]
fn coalesced_history_and_mounts_rescan_their_subtree_but_drops_rescan_all_roots() {
    let roots = vec!["/fixture".into(), "/other".into()];
    for flags in [0x01, 0x21, 0x40, 0x80] {
        let result = plan(&roots, &[event("/fixture/changed", 42, flags)]);
        assert_eq!(result.recursive, vec!["/fixture/changed"], "flags={flags}");
    }
    for flags in [0x02, 0x04, 0x08] {
        let result = plan(&roots, &[event("/fixture/changed", 42, flags)]);
        assert_eq!(result.recursive, roots, "flags={flags}");
    }
}

#[test]
fn boot_namespace_is_shared_by_enumeration_and_event_scopes() {
    let configured: Vec<String> = vec!["/".into()];
    let auxiliary = "/System/Volumes/Preboot";
    assert!(path_in_namespace(DATA_ROOT, &configured));
    assert!(!path_in_namespace(auxiliary, &configured));
    assert!(!path_in_namespace(DATA_ROOT, &["/System".into()]));
    assert!(path_in_namespace(auxiliary, &[SYSTEM_VOLUMES.into()]));
    assert!(path_in_namespace(auxiliary, &[auxiliary.into()]));
    assert_eq!(chosen(&["/".into(), auxiliary.into()]), ["/", auxiliary]);
    assert_eq!(
        chosen(&["/".into(), SYSTEM_VOLUMES.into()]),
        ["/", SYSTEM_VOLUMES]
    );
    let explicit_container = chosen(&["/".into(), SYSTEM_VOLUMES.into()]);
    assert_eq!(
        enumeration_scope(&explicit_container, &explicit_container, &[], true, &host()).0,
        ["/"],
        "explicit overlap traverses each tree once"
    );
    let entry = directory();
    let mut context = Listing::of("/System");
    assert!(matches!(
        context.collect_entry(b"Volumes", &entry, &configured, &Vec::new(), false),
        Collected::Continue
    ));
    assert_eq!(
        context.entries.len(),
        1,
        "the container itself remains indexed"
    );
    assert!(
        context.children.is_empty(),
        "default baseline does not enumerate hidden volumes"
    );
    context.directory = SYSTEM_VOLUMES.into();
    context.entries.clear();
    let _ = context.collect_entry(b"Preboot", &entry, &configured, &Vec::new(), false);
    assert!(context.entries.is_empty());
    let _ = context.collect_entry(b"Data", &entry, &configured, &Vec::new(), false);
    assert_eq!(context.entries[0].path, DATA_ROOT);
    for flags in [0x40, 0x80, 0x20100, 0x20400, 0x28000] {
        let events = [event(auxiliary, 42, flags)];
        assert_eq!(plan(&configured, &events), Reconciliation::default());
        let explicit = plan(&[auxiliary.into()], &events);
        assert!(!explicit.recursive.is_empty() || !explicit.directory_checks.is_empty());
    }
    for flags in [0x02, 0x04, 0x08] {
        assert_eq!(
            plan(&configured, &[event(auxiliary, 42, flags)]).recursive,
            configured,
            "namespace policy never swallows global history loss"
        );
    }
    let broad = [event(SYSTEM_VOLUMES, 42, 0x01)];
    assert_eq!(
        plan(&["/Users/example".into()], &broad),
        Reconciliation::default()
    );
    let selected = "/System/Volumes/Preboot/chosen";
    let scoped = plan(&[selected.into()], &broad);
    assert_eq!(scoped.recursive, [selected]);
    assert!(scoped.metadata.is_empty());
    let combined = plan(&["/".into(), selected.into()], &broad);
    assert!(combined.recursive.contains(&selected.into()));
    assert!(combined.metadata.contains(&SYSTEM_VOLUMES.into()));
    assert!(path_in_namespace(auxiliary, &["/".into(), selected.into()]));
    assert!(!subtree_in_namespace(
        auxiliary,
        &["/".into(), selected.into()]
    ));
    assert!(subtree_in_namespace(selected, &["/".into(), selected.into()]));
    let result = plan(&configured, &[event(SYSTEM_VOLUMES, 42, 0x01)]);
    assert!(result
        .recursive
        .iter()
        .all(|path| path_in_namespace(path, &configured)));
    assert!(!result.recursive.contains(&"/".into()));
    assert!(!result.recursive.contains(&SYSTEM_VOLUMES.into()));
}

#[test]
fn explicit_volume_container_uses_the_same_firmlink_namespace_for_scan_and_events() {
    let roots = chosen(&[SYSTEM_VOLUMES.into()]);
    assert!(roots.contains(&SYSTEM_VOLUMES.into()));
    let links = host().firmlinks;
    let link = links
        .iter()
        .find(|link| link.logical == "/Users")
        .expect("this host has the verified Users firmlink");
    assert!(roots
        .iter()
        .any(|root| Path::new(&link.logical).starts_with(root)));
    let (_, excluded) = enumeration_scope(&roots, &roots, &[], true, &host());
    assert!(
        excluded.contains(&link.physical),
        "baseline must not emit the physical alias too"
    );
    let suffix = "/example/apfsearch-identity-probe.txt";
    let logical = format!("{}{suffix}", link.logical);
    let physical = format!("{}{suffix}", link.physical);
    assert_eq!(visible_path(&physical, &links), logical);
    let mut context = watcher(&roots);
    context.collect(&physical, 42, 0x11000, &host());
    let physical_events = context.drain(false, &host());
    context.collect(&logical, 42, 0x11000, &host());
    let logical_events = context.drain(false, &host());
    assert_eq!(
        physical_events.len(),
        1,
        "physical callback must remain inside the configured namespace"
    );
    assert_eq!(physical_events[0].path, logical);
    assert_eq!(
        plan(&roots, &physical_events),
        plan(&roots, &logical_events)
    );
    let result = plan(&roots, &physical_events);
    assert_eq!(result.recursive, [logical]);
    assert!(!result.recursive.contains(&physical));
}

#[test]
fn a_recovery_scope_cannot_turn_an_implicit_hidden_volume_into_an_explicit_root() {
    let cancelled = Cell::new(false);
    let scan = scan_excluding_in_namespace(
        &["/System/Volumes/Preboot".into()],
        &["/".into()],
        &[],
        true,
        &host(),
        Ok(()),
        |_| true,
        |_| Vec::new(),
        || cancelled.get(),
    );
    assert!(
        scan.starts.is_empty() && scan.directories.is_empty(),
        "an excluded recovery scope must not enumerate entries"
    );
    let report = scan.finish(cancelled.get());
    assert_eq!(report.entries, 0);
    assert!(report.uncovered.is_empty());
    cancelled.set(true);
    let scan = scan_excluding_in_namespace(
        &["/System/Volumes/Preboot".into()],
        &["/".into()],
        &[],
        true,
        &host(),
        Ok(()),
        |_| true,
        |_| Vec::new(),
        || cancelled.get(),
    );
    assert!(
        scan.starts.is_empty() && scan.directories.is_empty(),
        "cancellation must not grant a recovery scope"
    );
    assert!(scan.report.cancelled);
    let report = scan.finish(cancelled.get());
    assert!(report.cancelled);
    assert_eq!(report.entries, 0);
}

#[test]
fn unavailable_root_is_reported_without_claiming_coverage() {
    let mut scan = scan_excluding_in_namespace(
        &["/definitely/not/here".into()],
        &["/definitely/not/here".into()],
        &[],
        false,
        &host(),
        Ok(()),
        |_| true,
        |_| Vec::new(),
        || false,
    );
    let starts = scan.starts.clone();
    for start in &starts {
        scan.start_seen(start, Err("No such file or directory (os error 2)".into()));
    }
    let report = scan.finish(false);
    assert_eq!(report.entries, 0);
    assert_eq!(report.uncovered, ["/definitely/not/here"]);
    assert_eq!(report.errors.len(), 1);
}

#[test]
fn historical_mount_controls_require_a_completed_fixed_anchor_and_no_mixed_flags() {
    let roots: Vec<String> = vec!["/fixture".into()];
    let old_mount = [event("/", 40, 0x40)];
    assert_eq!(plan(&roots, &old_mount).recursive, roots);
    for flags in [0x40, 0x80, 0xc0] {
        let events = [event("/", 40, flags)];
        assert_eq!(
            planned(&roots, &events, Some(50)),
            Reconciliation::default()
        );
        for (id, anchor) in [(0, Some(50)), (51, Some(50)), (40, None)] {
            let events = [event("/", id, flags)];
            assert_eq!(
                planned(&roots, &events, anchor).recursive,
                roots,
                "id={id}, flags={flags}, anchor={anchor:?}"
            );
        }
    }
    // The committed cursor may advance above 51 after another event; the
    // stream's fixed anchor stays 50, preserving a new out-of-order mount.
    for flags in [0x41, 0x42, 0x44, 0x48, 0x60, 0x140, 0x20440, 0x80c0] {
        let events = [event("/", 40, flags)];
        assert_eq!(
            planned(&roots, &events, Some(50)).recursive,
            roots,
            "mixed flags={flags}"
        );
    }
    let ordinary = [event("/fixture/old.txt", 39, 0x11000)];
    assert_eq!(
        planned(&roots, &ordinary, Some(50)),
        plan(&roots, &ordinary),
        "FullHistory's older ordinary records must remain reconcilable"
    );
    for flags in [0x02, 0x04, 0x08] {
        let events = [event("/outside", 39, flags)];
        assert_eq!(planned(&roots, &events, Some(50)).recursive, roots);
    }
}

#[test]
fn wrapped_control_survives_scoped_filtering_and_queue_compaction() {
    let mut context = watcher(&["/fixture".into()]);
    context.collect("/outside", 7, EVENT_IDS_WRAPPED, &host());
    assert_eq!(context.events.len(), 1);
    for id in 0..65_536 {
        context.events.push(event("/fixture/file", id, 0));
    }
    context.collect("/fixture/latest", 8, 0, &host());
    assert_eq!(context.events.len(), 1);
    assert_ne!(context.events[0].flags & EVENT_IDS_WRAPPED, 0);
}

#[test]
fn ancestor_replacement_rechecks_only_its_selected_descendants() {
    let roots = vec!["/fixture/parent/selected".into(), "/other".into()];
    let renamed = plan(&roots, &[event("/fixture/parent", 42, 0x20800)]);
    assert_eq!(renamed.recursive, ["/fixture/parent/selected"]);
    let access = plan(&roots, &[event("/fixture/parent", 43, 0x20400)]);
    assert!(access.recursive.is_empty());
    assert_eq!(access.directory_checks, ["/fixture/parent/selected"]);
}

fn reference(errors: &mut Vec<String>, removed: &[String]) {
    errors.retain(|error| {
        !removed
            .iter()
            .any(|path| error.starts_with(&format!("{path}: ")))
    });
}

#[test]
fn removal_errors_preserve_exact_path_boundaries_and_all_other_diagnostics() {
    let removed = vec!["/fixture/a".into(), "/fixture/目录: 名字.txt".into()];
    let retained = vec![
        "/fixture/ab: Permission denied".to_string(),
        "/fixture/a/child: Permission denied".into(),
        "/fixture/目录: 其他.txt: Permission denied".into(),
        "Could not inspect mounted filesystems: unavailable".into(),
        "permission error without a path separator".into(),
    ];
    let mut errors = retained.clone();
    errors.extend([
        "/fixture/a: No such file".into(),
        "/fixture/目录: 名字.txt: No such file: retry".into(),
    ]);
    discard_removed_path_errors(&mut errors, &removed);
    assert_eq!(errors, retained);
}

#[test]
fn indexed_removal_error_filter_matches_previous_semantics() {
    let paths: Vec<String> = ["a", "ab", "a/b", "目录", "e\u{301}", "a: b", "a: b: c", " "]
        .into_iter()
        .map(|name| format!("/fixture/{name}"))
        .collect();
    let errors: Vec<String> = paths
        .iter()
        .flat_map(|path| {
            ["No such file", "Permission denied: unavailable", ""]
                .map(|message| format!("{path}: {message}"))
        })
        .collect();
    for mask in 0..(1 << paths.len()) {
        let removed: Vec<String> = paths
            .iter()
            .enumerate()
            .filter(|(index, _)| mask & (1 << index) != 0)
            .map(|(_, path)| path.clone())
            .collect();
        let mut expected = errors.clone();
        reference(&mut expected, &removed);
        let mut actual = errors.clone();
        discard_removed_path_errors(&mut actual, &removed);
        assert_eq!(actual, expected, "subset {mask}");
    }
}

#[test]
fn large_removal_burst_filters_diagnostics_without_filesystem_access() {
    let removed: Vec<String> = (0..100_000)
        .map(|id| format!("/fixture/{id}.txt"))
        .collect();
    let mut errors: Vec<String> = removed
        .iter()
        .map(|path| format!("{path}: missing"))
        .collect();
    errors.push("/fixture/protected: Permission denied".into());
    discard_removed_path_errors(&mut errors, &removed);
    assert_eq!(errors, ["/fixture/protected: Permission denied"]);
}

#[test]
fn natural_comparison_handles_big_numbers_and_unicode() {
    assert!(natural_cmp("report2.txt", "report10.txt").is_lt());
    assert!(natural_cmp(
        "项目9999999999999999999999999",
        "项目10000000000000000000000000"
    )
    .is_lt());
    assert!(natural_cmp("café2", "cafe\u{301}10").is_lt());
}

#[test]
fn neither_order_nor_repetition_nor_the_end_of_history_changes_a_plan() {
    let roots = vec!["/Users".to_string(), "/fixture".to_string()];
    let events = || {
        vec![
            event("/Users/a/file", 1, 0x10000 | 0x1000),
            event("/Users/b", 2, 0x20000 | 0x100),
            event("/fixture/changed", 3, 0x01),
        ]
    };
    let expected = plan(&roots, &events());
    assert!(!expected.recursive.is_empty());
    let mut other = events();
    other.reverse();
    other.extend(events());
    other.push(event("/", 9, 0x10));
    other.insert(0, event("/Users/a/file", 8, 0x10));
    assert_eq!(plan(&roots, &other), expected);
    assert_ne!(plan(&roots, &other[4..5]), expected);
}
