//! What the engine decides, said of what it is asked and of what the host reports.
use crate::engine::checks;
use crate::engine::checks::Answers;
use crate::engine::content;
use crate::engine::content::{FileIdentity, Seen};
use crate::engine::errors;
use crate::engine::prune;
use crate::engine::publish;
use crate::engine::reconcile;
use crate::engine::reconcile::Pass;
use crate::engine::requests;
use crate::engine::requests::{ImportedRow, Operation, Preference};
use crate::engine::watch;
use crate::engine::watch::Beginning;
use crate::files::IndexedFile;
use crate::paths;
use crate::query::words;
use crate::scan_resume;
use crate::scan_resume::{MountRecord, ResumeProof};
use crate::scanner::entry;
use crate::scanner::entry::ScannedFile;
use crate::scanner::events::ChangeEvent;
use crate::scanner::namespace;
use crate::scanner::selection;
use crate::text;
use crate::text_order;
use vstd::prelude::*;

verus! {

/// Each request is answered by the operation that it names.
pub proof fn law_requests_name_their_operation()
    ensures
        requests::operation_of("status"@) == Some(Operation::Status),
        requests::operation_of("wait_status"@) == Some(Operation::WaitStatus),
        requests::operation_of("query"@) == Some(Operation::Query),
        requests::operation_of("directory_info"@) == Some(Operation::DirectoryInfo),
        requests::operation_of("retain_snapshot"@) == Some(Operation::RetainSnapshot),
        requests::operation_of("release_snapshot"@) == Some(Operation::ReleaseSnapshot),
        requests::operation_of("renew_snapshot"@) == Some(Operation::RenewSnapshot),
        requests::operation_of("query_plan"@) == Some(Operation::QueryPlan),
        requests::operation_of("volumes"@) == Some(Operation::Volumes),
        requests::operation_of("volumes_changed"@) == Some(Operation::Volumes),
        requests::operation_of("content_candidates"@) == Some(Operation::ContentCandidates),
        requests::operation_of("publish_content"@) == Some(Operation::PublishContent),
        requests::operation_of("scan"@) == Some(Operation::Scan),
        requests::operation_of("watch"@) == Some(Operation::Scan),
        requests::operation_of("quiesce"@) == Some(Operation::Quiesce),
        requests::operation_of("stop"@) == Some(Operation::Stop),
        requests::operation_of("cancel"@) == Some(Operation::Cancel),
        requests::operation_of("put_content"@) == Some(Operation::PutContent),
        requests::operation_of("preferences"@) == Some(Operation::Preferences),
        requests::operation_of("duplicates"@) == Some(Operation::Duplicates),
        requests::operation_of("import_file_list"@) == Some(Operation::ImportFileList),
        requests::operation_of("export"@) == Some(Operation::Export),
{
    words::lemma_operation_words();
}

/// Each preference is stored under its own name.
pub proof fn law_preferences_have_their_own_names()
    ensures
        requests::preference_of("macros"@) == Some(Preference::Macros),
        requests::preference_of("bookmarks"@) == Some(Preference::Bookmarks),
        requests::preference_of("exclusions"@) == Some(Preference::Exclusions),
        requests::preference_of("history"@) == Some(Preference::History),
        requests::preference_of("settings"@) == Some(Preference::Settings),
{
    words::lemma_preference_words();
}

/// An imported row keeps its path, its size, its times and whether it is a folder, each under its
/// own name; what a list does not say of it is nothing.
pub proof fn law_imported_rows_keep_what_the_list_says(
    file: ScannedFile,
    row: ImportedRow,
    index: int,
)
    requires
        requests::imports(file, row, index),
    ensures
        file.path@ == row.path@,
        row.name matches Some(name) ==> file.name@ == name@,
        file.size == row.size,
        file.modified == row.modified,
        file.created == row.created,
        file.is_dir == row.is_dir,
        file.file_id == index + 1,
        file.volume_id@ == "offline:filelist"@,
        !file.is_symlink && file.flags == 0 && file.link_count is None && file.parent_id == 0,
{
}

/// Contents are read of plain text files alone, of at most 16 MiB that are stored here: not of
/// folders, of links, of placeholders in the cloud, or of other formats.
pub proof fn law_contents_are_read_of_small_text_files(file: IndexedFile)
    ensures
        content::reading_of(file).0 ==> !file.is_dir && !file.is_symlink && file.flags & 0x40000000
            == 0 && file.size <= 16777216 && content::text_extensions().contains(file.extension@),
        !file.is_dir && !file.is_symlink && file.flags & 0x40000000 == 0 && file.size <= 16777216
            && content::text_extensions().contains(file.extension@) ==> content::reading_of(file).0
            && content::reading_of(file).1 is None,
        file.is_dir || file.is_symlink ==> content::reading_of(file) == (
            false,
            None::<Seq<char>>,
        ),
        !file.is_dir && !file.is_symlink && !content::reading_of(file).0
            ==> content::reading_of(file).1 is Some,
{
}

/// The formats whose contents are read.
pub proof fn law_text_formats()
    ensures
        ({
            let formats = content::text_extensions();
            &&& formats.len() == 28
            &&& formats.contains("txt"@) && formats.contains("md"@) && formats.contains("rs"@)
                && formats.contains("swift"@) && formats.contains("c"@) && formats.contains("h"@)
            &&& formats.contains("cpp"@) && formats.contains("hpp"@) && formats.contains("py"@)
                && formats.contains("js"@) && formats.contains("ts"@) && formats.contains("tsx"@)
            &&& formats.contains("jsx"@) && formats.contains("json"@) && formats.contains("toml"@)
                && formats.contains("yaml"@) && formats.contains("yml"@) && formats.contains(
                "xml"@,
            )
            &&& formats.contains("html"@) && formats.contains("css"@) && formats.contains("csv"@)
                && formats.contains("log"@) && formats.contains("sh"@) && formats.contains("sql"@)
            &&& formats.contains("ini"@) && formats.contains("cfg"@) && formats.contains("plist"@)
                && formats.contains("tex"@)
        }),
{
    let formats = content::text_extensions();
    assert forall|i: int| 0 <= i < formats.len() implies formats.contains(
        #[trigger] formats[i],
    ) by {}
    assert(formats[0] == "txt"@ && formats[1] == "md"@ && formats[2] == "rs"@ && formats[3]
        == "swift"@ && formats[4] == "c"@ && formats[5] == "h"@ && formats[6] == "cpp"@);
    assert(formats[7] == "hpp"@ && formats[8] == "py"@ && formats[9] == "js"@ && formats[10]
        == "ts"@ && formats[11] == "tsx"@ && formats[12] == "jsx"@ && formats[13] == "json"@);
    assert(formats[14] == "toml"@ && formats[15] == "yaml"@ && formats[16] == "yml"@ && formats[17]
        == "xml"@ && formats[18] == "html"@ && formats[19] == "css"@ && formats[20] == "csv"@);
    assert(formats[21] == "log"@ && formats[22] == "sh"@ && formats[23] == "sql"@ && formats[24]
        == "ini"@ && formats[25] == "cfg"@ && formats[26] == "plist"@ && formats[27] == "tex"@);
}

/// Contents are believed exactly if the file is the expected one in the same version before it was
/// read, after it, and at its path, none of it only a placeholder, and all of it was read.
pub proof fn law_contents_are_believed_only_of_the_expected_version(
    before: Seen,
    read: nat,
    after: Seen,
    at_path: Seen,
    expected: FileIdentity,
)
    ensures
        (content::doubt(before, read, after, at_path, expected) is None) == (before.is_file
            && before.identity == expected && after.is_file && after.identity == expected
            && at_path.is_file && at_path.identity == expected && before.flags & 0x40000000 == 0
            && after.flags & 0x40000000 == 0 && read == expected.size && read <= 16777216),
{
}

/// An entry is the version that was indexed exactly if its volume, its id, its size and both of its
/// times in nanoseconds are the indexed ones.
pub proof fn law_versions_agree_in_everything_that_changes(file: IndexedFile, fresh: ScannedFile)
    ensures
        content::same_version(file, fresh) == (fresh.volume_id@ == file.volume_id@ && fresh.file_id
            == file.file_id && fresh.size == file.size && fresh.modified_ns == file.modified_ns
            && fresh.changed_ns == file.changed_ns),
{
}

pub proof fn lemma_kept(list: Seq<Seq<char>>, keep: spec_fn(Seq<char>) -> bool, path: Seq<char>)
    ensures
        text::kept_texts(list, keep).contains(path) == (list.contains(path) && keep(path)),
    decreases list.len(),
{
    if list.len() > 0 {
        let (init, last) = (list.drop_last(), list.last());
        let before = text::kept_texts(init, keep);
        lemma_kept(init, keep, path);
        assert(list =~= init + seq![last]);
        selection::lemma_in_either(init, seq![last], path);
        assert(seq![last].contains(path) == (last == path)) by {
            assert(seq![last][0] == last);
        }
        assert(before.push(last) =~= before + seq![last]);
        selection::lemma_in_either(before, seq![last], path);
    }
}

/// A directory that was to be checked is only looked at where the index holds what is below it and
/// it can still be listed; otherwise it is scanned.
pub proof fn law_unsound_directories_are_scanned(
    answers: Answers,
    list: Seq<Seq<char>>,
    path: Seq<char>,
)
    ensures
        checks::sound(answers, list).contains(path) == (list.contains(path) && (answers.covered)(
            path,
        ) && (answers.accessible)(path)),
        checks::unsound(answers, list).contains(path) == (list.contains(path) && !((
        answers.covered)(path) && (answers.accessible)(path))),
{
    lemma_kept(list, |one: Seq<char>| checks::is_sound(answers, one), path);
    lemma_kept(list, |one: Seq<char>| !checks::is_sound(answers, one), path);
}

/// A gap of the index stays after a pass unless the pass scanned, to the end and with all that is
/// below, a root that holds it; what a pass could not look at becomes one.
pub proof fn law_gaps_stay_until_they_are_scanned(
    pass: Pass,
    stored: Seq<Seq<char>>,
    denied: Seq<Seq<char>>,
    cancelled: bool,
    path: Seq<char>,
)
    ensures
        reconcile::gaps_after(pass, stored, denied, cancelled).contains(path) == (denied.contains(
            path,
        ) || (stored.contains(path) && (cancelled || !pass.recursive || (forall|i: int|
            0 <= i < pass.roots@.len() ==> !paths::path_starts_with(
                path,
                (#[trigger] pass.roots@[i])@,
            ))))),
{
    let keep = |one: Seq<char>|
        cancelled || !pass.recursive || !reconcile::under_any(one, text::texts(pass.roots@));
    let kept = text::kept_texts(stored, keep);
    lemma_kept(stored, keep, path);
    selection::lemma_in_either(kept, denied, path);
    text_order::lemma_sorted_exists(kept + denied);
    let roots = text::texts(pass.roots@);
    if reconcile::under_any(path, roots) {
        let i = choose|i: int|
            0 <= i < roots.len() && paths::path_starts_with(path, #[trigger] roots[i]);
        assert(pass.roots@[i]@ == roots[i]);
    } else {
        assert forall|i: int| 0 <= i < pass.roots@.len() implies !paths::path_starts_with(
            path,
            (#[trigger] pass.roots@[i])@,
        ) by {
            assert(roots[i] == pass.roots@[i]@);
        }
    }
}

/// A path that could not be looked at is removed where it is gone and the directory above it, in a
/// chosen root, is there and can be read; it is not removed where it is a chosen root, where it is
/// not gone, or where the directory above it is there and cannot be read.
pub proof fn law_removals_are_proved_by_the_directory_above(
    path: Seq<char>,
    up: Seq<char>,
    roots: Seq<Seq<char>>,
    gone: spec_fn(Seq<char>) -> bool,
    stands: spec_fn(Seq<char>) -> bool,
    readable: spec_fn(Seq<char>) -> bool,
    root: Seq<char>,
)
    requires
        paths::parent_path(path) == Some(up),
        roots.contains(root),
        paths::path_starts_with(up, root),
        stands(up),
    ensures
        reconcile::is_removed(path, roots, gone, stands, readable) == (!roots.contains(path)
            && gone(path) && readable(up)),
{
    paths::lemma_parent_shorter(path);
    let i = choose|i: int| 0 <= i < roots.len() && roots[i] == root;
    assert(paths::path_starts_with(up, roots[i]));
}

/// A first scan is published in steps of half of what is published already, and never in smaller
/// ones than ten thousand rows. A pass that was cancelled says so, and a first scan that was not is
/// ready.
pub proof fn law_first_scans_are_published_in_growing_steps(indexed: int)
    requires
        indexed >= 0,
    ensures
        reconcile::publish_threshold(indexed) >= 10000,
        indexed <= 20000 ==> reconcile::publish_threshold(indexed) == 10000,
        indexed > 20000 ==> 2 * reconcile::publish_threshold(indexed) <= indexed < 2
            * reconcile::publish_threshold(indexed) + 2,
        reconcile::state_after(true, true) == Some("cancelled"@),
        reconcile::state_after(false, true) == Some("cancelled"@),
        reconcile::state_after(true, false) == Some("ready"@),
        reconcile::state_after(false, false) is None,
{
}

/// A snapshot is made from its changes alone exactly if they are known, are not too many, and need
/// no new places; otherwise the reason says which of these it was.
pub proof fn law_snapshots_are_made_from_few_known_changes(
    changes: Option<usize>,
    limit: usize,
    remap: Option<Seq<char>>,
)
    ensures
        ({
            let (mode, reason) = publish::mode_of(changes, limit, remap);
            &&& (mode is Incremental) == (changes is Some && changes->0 <= limit && remap is None)
            &&& mode is Incremental ==> reason is None
            &&& changes is None ==> mode is Full && reason == Some("delta_unavailable"@)
            &&& changes is Some && changes->0 > limit ==> mode is Full && reason == Some(
                "delta_exceeds_incremental_limit"@,
            )
            &&& changes is Some && changes->0 <= limit && remap is Some ==> mode is Remapped
                && reason == remap
        }),
{
}

/// A stored path is outside of the index where it does not belong to the namespace, wholly inside
/// where all below it does, and mixed otherwise.
pub proof fn law_stored_paths_are_in_mixed_or_out(path: Seq<char>, roots: Seq<Seq<char>>)
    ensures
        (prune::standing(path, roots) is Outside) == !namespace::in_namespace(path, roots),
        (prune::standing(path, roots) is Inside) == (namespace::in_namespace(path, roots)
            && namespace::tree_in_namespace(path, roots)),
        (prune::standing(path, roots) is Mixed) == (namespace::in_namespace(path, roots)
            && !namespace::tree_in_namespace(path, roots)),
{
}

/// An event is work unless it ends history, or is a change of the index's own files; lost history
/// is always work.
pub proof fn law_events_are_work_unless_they_are_our_own(
    event: ChangeEvent,
    index_directory: Seq<char>,
)
    ensures
        event.flags & 0x10 != 0 ==> !watch::matters(event, index_directory),
        event.flags & 0x10 == 0 && (event.flags & 0x02 != 0 || event.flags & 0x04 != 0
            || event.flags & 0x08 != 0) ==> watch::matters(event, index_directory),
        event.flags & 0x10 == 0 && event.flags & 0x02 == 0 && event.flags & 0x04 == 0 && event.flags
            & 0x08 == 0 ==> watch::matters(event, index_directory) == !paths::path_starts_with(
            event.path@,
            index_directory,
        ),
        watch::is_wrapped(event) == (event.flags & 0x08 != 0),
        watch::is_end(event) == (event.flags & 0x10 != 0),
{
    let flags = event.flags;
    assert((flags & 0x02 != 0 || flags & 0x04 != 0 || flags & 0x08 != 0) == (flags & 0x0e != 0))
        by (bit_vector);
}

/// The work of some events are those that matter, all of them and no others.
pub proof fn law_all_events_that_matter_are_work(
    list: Seq<ChangeEvent>,
    index_directory: Seq<char>,
    event: ChangeEvent,
)
    ensures
        watch::work_of(list, index_directory).contains(event) == (list.contains(event)
            && watch::matters(event, index_directory)),
    decreases list.len(),
{
    if list.len() > 0 {
        let (init, last) = (list.drop_last(), list.last());
        let before = watch::work_of(init, index_directory);
        law_all_events_that_matter_are_work(init, index_directory, event);
        lemma_push_contains(init, last, event);
        lemma_push_contains(before, last, event);
        assert(init.push(last) =~= list);
    }
}

proof fn lemma_push_contains(list: Seq<ChangeEvent>, last: ChangeEvent, event: ChangeEvent)
    ensures
        list.push(last).contains(event) == (list.contains(event) || last == event),
{
    let all = list.push(last);
    if list.contains(event) {
        let i = choose|i: int| 0 <= i < list.len() && list[i] == event;
        assert(all[i] == event);
    }
    if last == event {
        assert(all[list.len() as int] == event);
    }
    if all.contains(event) {
        let i = choose|i: int| 0 <= i < all.len() && all[i] == event;
        if i < list.len() {
            assert(list[i] == event);
        }
    }
}

/// The cursor after some events is the highest of their identifiers and of the one before.
pub proof fn law_the_cursor_is_the_highest_identifier(
    list: Seq<ChangeEvent>,
    saved: u64,
    i: int,
)
    ensures
        watch::highest(list, saved) >= saved,
        0 <= i < list.len() ==> watch::highest(list, saved) >= list[i].event_id,
        watch::highest(list, saved) == saved || exists|j: int|
            0 <= j < list.len() && (#[trigger] list[j]).event_id == watch::highest(list, saved),
    decreases list.len(),
{
    if list.len() > 0 {
        let init = list.drop_last();
        let n = list.len() - 1;
        law_the_cursor_is_the_highest_identifier(init, saved, i);
        assert(list[n] == list.last());
        if 0 <= i < n {
            assert(init[i] == list[i]);
        }
        if watch::highest(init, saved) != saved {
            let j = choose|j: int|
                0 <= j < init.len() && (#[trigger] init[j]).event_id == watch::highest(init, saved);
            assert(list[j] == init[j]);
        }
    }
}

/// The event history is continued only where it is watched and asked for, did not start anew, the
/// saved cursor lies in it, a complete scan is proved, and the host is still the one that was
/// proved. The reason names the first of these that does not hold.
pub proof fn law_history_is_continued_where_everything_is_proved(
    start: Beginning,
    before: ResumeProof,
    now: ResumeProof,
)
    ensures
        watch::restores(start) ==> start.watch && start.resume && !start.history_wrapped
            && start.saved_cursor > 0 && start.saved_cursor <= start.current_cursor,
        !start.watch ==> watch::reason_of(start) == "watch_disabled"@,
        start.watch && !start.resume ==> watch::reason_of(start) == "explicit_baseline_requested"@,
        start.watch && start.resume && start.history_wrapped ==> watch::reason_of(start)
            == "event_ids_wrapped"@,
        start.watch && start.resume && !start.history_wrapped && start.saved_cursor == 0
            ==> watch::reason_of(start) == "missing_event_cursor"@,
        start.watch && start.resume && !start.history_wrapped && start.saved_cursor
            > start.current_cursor ==> watch::reason_of(start) == "event_cursor_out_of_range"@,
        watch::restores(start) ==> watch::reason_of(start) == "journal_resume"@,
        (scan_resume::rejection(before, now) is None) == (before.version == now.version
            && before.boot_session@ == now.boot_session@ && before.journal_uuid@
            == now.journal_uuid@ && scan_resume::root_views(before.roots@)
            == scan_resume::root_views(now.roots@)),
{
}

/// A diagnostic is of a path exactly if it is the path, a colon, a space and more.
pub proof fn law_diagnostics_name_their_path(path: Seq<char>, rest: Seq<char>)
    ensures
        errors::tells_of(path + seq![':', ' '] + rest, path),
        entry::issue_text(path, rest) == path + seq![':', ' '] + rest,
{
    reveal_strlit(": ");
    assert(": "@ =~= seq![':', ' ']);
    let whole = path + seq![':', ' '] + rest;
    let front = path + seq![':', ' '];
    assert(whole.take(front.len() as int) =~= front);
}

/// What a changed place has in common with a root: the place where it lies in the root, the root
/// where it lies in the place, and nothing where neither holds.
pub proof fn law_changed_places_are_cut_to_the_roots(changed: Seq<char>, root: Seq<char>)
    ensures
        paths::path_starts_with(changed, root) ==> scan_resume::common(changed, root) == Some(
            changed,
        ),
        paths::path_starts_with(root, changed) && !paths::path_starts_with(changed, root)
            ==> scan_resume::common(changed, root) == Some(root),
        !paths::path_starts_with(root, changed) && !paths::path_starts_with(changed, root)
            ==> scan_resume::common(changed, root) is None,
{
}

pub proof fn lemma_commons(changed: Seq<char>, roots: Seq<Seq<char>>, path: Seq<char>)
    ensures
        scan_resume::commons(changed, roots).contains(path) == (exists|j: int|
            0 <= j < roots.len() && scan_resume::common(changed, #[trigger] roots[j]) == Some(path)),
    decreases roots.len(),
{
    if roots.len() > 0 {
        let (init, last) = (roots.drop_last(), roots.last());
        let n = roots.len() - 1;
        lemma_commons(changed, init, path);
        let before = scan_resume::commons(changed, init);
        assert(roots[n] == last);
        assert forall|j: int| 0 <= j < n implies #[trigger] init[j] == roots[j] by {}
        if let Some(one) = scan_resume::common(changed, last) {
            assert(before.push(one) =~= before + seq![one]);
            selection::lemma_in_either(before, seq![one], path);
            assert(seq![one].contains(path) == (one == path)) by {
                assert(seq![one][0] == one);
            }
        }
        if before.contains(path) {
            let j = choose|j: int|
                0 <= j < init.len() && scan_resume::common(changed, #[trigger] init[j]) == Some(
                    path,
                );
            assert(roots[j] == init[j]);
        }
        if exists|j: int|
            0 <= j < roots.len() && scan_resume::common(changed, #[trigger] roots[j]) == Some(
                path,
            ) {
            let j = choose|j: int|
                0 <= j < roots.len() && scan_resume::common(changed, #[trigger] roots[j]) == Some(
                    path,
                );
            if j < n {
                assert(init[j] == roots[j]);
            }
        }
    }
}

/// What is checked again after a restart: of each changed place in the namespace what it has in
/// common with a root, and nothing else.
pub proof fn law_changed_places_are_checked_again(
    changed: Seq<Seq<char>>,
    roots: Seq<Seq<char>>,
    path: Seq<char>,
)
    ensures
        scan_resume::intersections(changed, roots).contains(path) == (exists|i: int, j: int|
            0 <= i < changed.len() && 0 <= j < roots.len() && namespace::in_namespace(
                #[trigger] changed[i],
                roots,
            ) && scan_resume::common(changed[i], #[trigger] roots[j]) == Some(path)),
    decreases changed.len(),
{
    if changed.len() > 0 {
        let (init, last) = (changed.drop_last(), changed.last());
        let n = changed.len() - 1;
        law_changed_places_are_checked_again(init, roots, path);
        let before = scan_resume::intersections(init, roots);
        assert(changed[n] == last);
        assert forall|i: int| 0 <= i < n implies #[trigger] init[i] == changed[i] by {}
        lemma_commons(last, roots, path);
        selection::lemma_in_either(before, scan_resume::commons(last, roots), path);
        if before.contains(path) {
            let (i, j) = choose|i: int, j: int|
                0 <= i < init.len() && 0 <= j < roots.len() && namespace::in_namespace(
                    #[trigger] init[i],
                    roots,
                ) && scan_resume::common(init[i], #[trigger] roots[j]) == Some(path);
            assert(changed[i] == init[i]);
            assert(roots[j] == roots[j]);
        }
        if namespace::in_namespace(last, roots) && scan_resume::commons(last, roots).contains(
            path,
        ) {
            let j = choose|j: int|
                0 <= j < roots.len() && scan_resume::common(last, #[trigger] roots[j]) == Some(
                    path,
                );
            assert(namespace::in_namespace(changed[n], roots));
            assert(scan_resume::common(changed[n], roots[j]) == Some(path));
        }
        if exists|i: int, j: int|
            0 <= i < changed.len() && 0 <= j < roots.len() && namespace::in_namespace(
                #[trigger] changed[i],
                roots,
            ) && scan_resume::common(changed[i], #[trigger] roots[j]) == Some(path) {
            let (i, j) = choose|i: int, j: int|
                0 <= i < changed.len() && 0 <= j < roots.len() && namespace::in_namespace(
                    #[trigger] changed[i],
                    roots,
                ) && scan_resume::common(changed[i], #[trigger] roots[j]) == Some(path);
            if i < n {
                assert(init[i] == changed[i]);
                assert(roots[j] == roots[j]);
            }
        }
    }
}

/// What makes a place worth checking after a restart: another source or other flags mounted there,
/// another kind of file system, or another answer to whether it can be read, as long as it belongs
/// to a root.
pub proof fn law_places_change_with_their_mounts_and_access(
    before: ResumeProof,
    now: ResumeProof,
    readable: spec_fn(Seq<char>) -> bool,
    path: Seq<char>,
)
    ensures
        scan_resume::mount_changed(before, now, path) == (scan_resume::mounted_at(
            before.mounts@,
            path,
        ) != scan_resume::mounted_at(now.mounts@, path)),
        scan_resume::type_changed(before, now, path) == (scan_resume::type_at(
            before.mount_types@,
            path,
        ) != scan_resume::type_at(now.mount_types@, path)),
        scan_resume::access_of(now.access@, path) is Some && scan_resume::access_of(
            before.access@,
            path,
        ) == scan_resume::access_of(now.access@, path) ==> !scan_resume::access_changed(
            before,
            now,
            readable,
            path,
        ),
        ({
            let roots = scan_resume::root_paths(now.roots@);
            &&& !namespace::covered(roots, path) ==> !scan_resume::access_changed(
                before,
                now,
                readable,
                path,
            )
            &&& namespace::covered(roots, path) && namespace::in_namespace(path, roots)
                && scan_resume::access_of(now.access@, path) == Some(true)
                && scan_resume::access_of(before.access@, path) != Some(true)
                ==> scan_resume::access_changed(before, now, readable, path)
            &&& namespace::covered(roots, path) && namespace::in_namespace(path, roots)
                && scan_resume::access_of(now.access@, path) == Some(false)
                && scan_resume::access_of(before.access@, path) == Some(true)
                ==> scan_resume::access_changed(before, now, readable, path)
        }),
{
}

/// Of the flags of a mount those for a local volume, for one that ignores who owns its files and
/// for a frozen image count, and no others.
pub proof fn law_only_some_flags_of_a_mount_count(mount: MountRecord, other: MountRecord)
    requires
        mount.path@ == other.path@,
        mount.source@ == other.source@,
    ensures
        (scan_resume::essential(mount) == scan_resume::essential(other)) == (mount.flags & 0x40201000
            == other.flags & 0x40201000),
{
}

} // verus!
