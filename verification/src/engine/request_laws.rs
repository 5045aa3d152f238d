//! What requests may ask for and what passes lead to, said of the calls themselves: of what goes
//! into each of them and of what comes out.
use crate::engine::content;
use crate::engine::content::{ExpectedIdentity, FileIdentity, Seen};
use crate::engine::links;
use crate::engine::links::LinkOutcome;
use crate::engine::outcome;
use crate::engine::outcome::{BaselineStep, DrainEnd, ReconciliationOutcome};
use crate::engine::prepare;
use crate::engine::prepare::{Attempt, MetadataBatchError, PreparationError};
use crate::engine::publish;
use crate::engine::publish::{CacheNote, RefreshMode, RefreshNeed};
use crate::engine::reconcile::Progress;
use crate::engine::requests;
use crate::engine::requests::{DuplicateMode, Operation, Preference, QueryPlan};
use crate::engine::watch;
use crate::engine::watch::{Drain, Stream, WorkerStart};
use crate::files::IndexedFile;
use crate::paths;
use crate::query::evaluate;
use crate::query::evaluate::Question;
use crate::query::model::Query;
use crate::query::words;
use crate::scanner::entry::ScannedFile;
use crate::scanner::namespace::HostNames;
use crate::search::{Asked, Reuse};
use crate::text;
use vstd::prelude::*;

verus! {

/// A page has as many rows as were asked for, but never more than ten thousand; where nothing was
/// asked it has two hundred.
pub proof fn law_pages_are_bounded(asked: Option<u64>, limit: usize)
    requires
        call_ensures(requests::page_limit, (asked,), limit),
    ensures
        limit <= 10000,
        asked is None ==> limit == 200,
        asked is Some && asked->0 <= 10000 ==> limit == asked->0,
        asked is Some && asked->0 > 10000 ==> limit == 10000,
{
}

/// The texts of queries have at most 16 KiB and extracted texts at most 32 MiB; information is
/// given on at most 200 directories at once.
pub proof fn law_requests_are_bounded(
    query: &str,
    checked: Result<(), String>,
    body: &str,
    taken: Result<(), String>,
    count: usize,
    counted: Result<(), String>,
)
    requires
        call_ensures(requests::check_query_text, (query,), checked),
        call_ensures(requests::check_extracted_text, (body,), taken),
        call_ensures(requests::check_directory_count, (count,), counted),
    ensures
        checked is Ok == (text::bytes_of(query@).len() <= 16384),
        taken is Ok == (text::bytes_of(body@).len() <= 33554432),
        counted is Ok == (count <= 200),
{
}

/// A request under a lease may name the lease's generation or none, and no other.
pub proof fn law_leases_are_of_one_generation(
    asked: Option<u64>,
    leased: u64,
    query: bool,
    said: Result<(), String>,
)
    requires
        call_ensures(requests::check_leased_generation, (asked, leased, query), said),
    ensures
        asked is None ==> said is Ok,
        asked == Some(leased) ==> said is Ok,
        asked is Some && asked->0 != leased ==> said is Err,
{
}

/// A request that waits for the status names the revision after which it waits, and itself by at
/// most 128 bytes; both are handed on as they are.
pub proof fn law_status_requests_name_a_revision_and_themselves(
    after: Option<u64>,
    id: Option<&str>,
    said: Result<(u64, String), String>,
)
    requires
        call_ensures(requests::check_status_request, (after, id), said),
    ensures
        said is Ok ==> after is Some && id is Some && said->Ok_0.0 == after->0 && (said->Ok_0).1@
            == (id->0)@,
        (said is Ok) == (after is Some && id is Some && 0 < text::bytes_of((id->0)@).len() <= 128),
{
}

/// Duplicates are found by contents unless names or sizes were asked for, and never of an imported
/// list.
pub proof fn law_duplicates_are_found_as_asked(
    mode: Option<&str>,
    said: Result<DuplicateMode, String>,
    other: Result<DuplicateMode, String>,
)
    requires
        call_ensures(requests::duplicate_mode, (false, mode), said),
        call_ensures(requests::duplicate_mode, (true, mode), other),
    ensures
        other is Err,
        mode is None ==> said == Ok::<DuplicateMode, String>(DuplicateMode::Content),
        mode is Some && (mode->0)@ == "content"@ ==> said == Ok::<DuplicateMode, String>(
            DuplicateMode::Content,
        ),
        mode is Some && (mode->0)@ == "name"@ ==> said == Ok::<DuplicateMode, String>(
            DuplicateMode::Name,
        ),
        mode is Some && (mode->0)@ == "size"@ ==> said == Ok::<DuplicateMode, String>(
            DuplicateMode::Size,
        ),
        mode is Some && (mode->0)@ != "content"@ && (mode->0)@ != "name"@ && (mode->0)@ != "size"@
            ==> said is Err,
{
    words::lemma_function_words();
    words::lemma_modifier_words();
}

/// An index has roots, all of them from the top, and an imported list scans none.
pub proof fn law_roots_begin_at_the_top(
    roots: &[String],
    offline: bool,
    said: Result<(), String>,
    i: int,
)
    requires
        call_ensures(requests::check_roots, (roots, offline), said),
    ensures
        said is Ok && 0 <= i < roots@.len() ==> paths::has_root(roots@[i]@),
        said is Ok ==> !offline && roots@.len() > 0,
        !offline && roots@.len() > 0 && (forall|j: int|
            0 <= j < roots@.len() ==> paths::has_root((#[trigger] roots@[j])@)) ==> said is Ok,
{
}

/// Macros are kept as an object; macros and settings are objects, and the other preferences lists.
pub proof fn law_macros_are_objects(
    key: &str,
    object: bool,
    said: Result<Preference, String>,
    preference: Preference,
    is_object: bool,
)
    requires
        call_ensures(requests::check_preference, (key, object), said),
        call_ensures(requests::is_object_setting, (preference,), is_object),
    ensures
        key@ == "macros"@ ==> (said is Ok) == object,
        key@ == "macros"@ && object ==> said == Ok::<Preference, String>(Preference::Macros),
        key@ == "bookmarks"@ ==> said == Ok::<Preference, String>(Preference::Bookmarks),
        key@ == "exclusions"@ ==> said == Ok::<Preference, String>(Preference::Exclusions),
        key@ == "history"@ ==> said == Ok::<Preference, String>(Preference::History),
        key@ == "settings"@ ==> said == Ok::<Preference, String>(Preference::Settings),
        is_object == (preference == Preference::Macros || preference == Preference::Settings),
{
    words::lemma_preference_words();
}

/// A request without an operation is refused, and so is one with an unknown operation.
pub proof fn law_requests_need_an_operation(
    name: Option<&str>,
    said: Result<Operation, String>,
)
    requires
        call_ensures(requests::operation, (name,), said),
    ensures
        name is None ==> said is Err,
        name is Some && (name->0)@ == "query"@ ==> said == Ok::<Operation, String>(
            Operation::Query,
        ),
        name is Some && (name->0)@ == "scan"@ ==> said == Ok::<Operation, String>(Operation::Scan),
        name is Some && (name->0)@ == "cancel"@ ==> said == Ok::<Operation, String>(
            Operation::Cancel,
        ),
        name is Some && (name->0)@ == "stop"@ ==> said == Ok::<Operation, String>(Operation::Stop),
{
    words::lemma_operation_words();
}

/// A snapshot is built exactly if the store has another revision than the published one; a current
/// one is written out where that was asked and is due.
pub proof fn law_snapshots_are_built_of_new_revisions(
    revision: u64,
    published: u64,
    checkpoint: bool,
    dirty: bool,
    need: RefreshNeed,
)
    requires
        call_ensures(publish::refresh_need, (revision, published, checkpoint, dirty), need),
    ensures
        (need == RefreshNeed::Build) == (revision != published),
        revision == published ==> need == (RefreshNeed::Current { persist: checkpoint && dirty }),
{
}

/// The ways to make a snapshot have their names.
pub proof fn law_ways_of_publishing_have_names(mode: RefreshMode, name: &'static str)
    requires
        call_ensures(publish::mode_name, (mode,), name),
    ensures
        mode == RefreshMode::Incremental ==> name@ == "incremental"@,
        mode == RefreshMode::Remapped ==> name@ == "remapped"@,
        mode == RefreshMode::Full ==> name@ == "full"@,
{
}

/// A checkpoint that was written clears the note of it unless the store still asks for one, and one
/// that was not is noted with its reason.
pub proof fn law_checkpoints_are_noted(
    written: Result<(), String>,
    dirty: bool,
    scheduled: Result<(), String>,
    note: CacheNote,
)
    requires
        call_ensures(publish::checkpoint_note, (written, dirty, scheduled), note),
    ensures
        written is Ok && !dirty ==> note is Clear,
        written is Ok && dirty ==> note is Keep,
        written is Err ==> note is Problem,
        written is Err && (dirty || scheduled is Ok) ==> note->Problem_0@ == written->Err_0@,
{
}

/// A first scan is over when it is complete or cancelled; after a conflict it is tried again unless
/// it was stopped.
pub proof fn law_first_scans_are_tried_until_they_are_over(
    found: ReconciliationOutcome,
    stopped: bool,
    next: BaselineStep,
)
    requires
        call_ensures(outcome::after_baseline, (found, stopped), next),
    ensures
        (next == BaselineStep::Over(true)) == (found == ReconciliationOutcome::Complete),
        (next == BaselineStep::Again) == (found == ReconciliationOutcome::Retry && !stopped),
{
}

/// What was prepared is committed exactly if it was not cancelled, the mounts are still the same
/// and nothing else was committed meanwhile; it is prepared again, at most eight times in all, only
/// where something was.
pub proof fn law_only_current_preparations_are_committed(
    cancelled: bool,
    mounts: bool,
    revision: bool,
    attempts: u32,
    next: Attempt,
)
    requires
        call_ensures(prepare::after_preparation, (cancelled, mounts, revision, attempts), next),
    ensures
        (next is Commit) == (!cancelled && mounts && revision),
        (next is Again) == (!cancelled && mounts && !revision && attempts < 7),
        cancelled ==> next is Fail && next->Fail_0 is Cancelled,
        !cancelled && !mounts ==> next is Fail && next->Fail_0 is Retry,
{
}

/// What stopped a preparation: a cancellation is one, a path that leads elsewhere is reason to try
/// again, and other faults of the host are failures with their reason.
pub proof fn law_preparations_fail_for_their_reason(
    problem: MetadataBatchError,
    failed: PreparationError,
)
    requires
        call_ensures(PreparationError::from_batch, (problem,), failed),
    ensures
        problem is Cancelled ==> failed is Cancelled,
        problem is NamespaceChanged ==> failed is Retry,
        problem is Filesystem ==> failed is Failure && failed->Failure_0 == problem->Filesystem_0,
{
}

/// An entry that the host cannot show is removed exactly if it is not there and its directory can
/// be read; what can be shown is found.
pub proof fn law_links_are_removed_only_where_their_directory_says_so(
    looked: Result<ScannedFile, String>,
    not_found: bool,
    readable: bool,
    said: LinkOutcome,
)
    requires
        call_ensures(links::link_outcome, (looked, not_found, readable), said),
    ensures
        looked is Ok ==> said == LinkOutcome::Found(looked->Ok_0),
        looked is Err ==> (said is Removed) == (not_found && readable),
        looked is Err && !(not_found && readable) ==> said == LinkOutcome::Unavailable(
            looked->Err_0,
        ),
{
}

/// A stream begins to replay where it was told to.
pub proof fn law_streams_begin_with_a_replay(since: u64, mounts: bool, stream: Stream)
    requires
        call_ensures(Stream::begin, (since, mounts), stream),
    ensures
        stream.since == since,
        stream.replaying,
        stream.mounts_done == mounts,
{
}

/// A worker continues the stored index only where that was asked and the roots are the stored
/// ones, and a caller waits only for a worker that does not watch.
pub proof fn law_workers_continue_with_the_same_roots(
    stored: &Vec<String>,
    roots: &Vec<String>,
    resume: bool,
    watches: bool,
    wait: bool,
    start: WorkerStart,
)
    requires
        call_ensures(watch::worker_start, (stored, roots, resume, watches, wait), start),
    ensures
        start.other_roots == (text::texts(stored@) != text::texts(roots@)),
        start.resume ==> resume && !start.other_roots,
        resume && text::texts(stored@) == text::texts(roots@) ==> start.resume,
        start.wait == (wait && !watches),
{
}

/// A first scan publishes what it has once enough rows changed and enough time went by, and no
/// other pass does.
pub proof fn law_only_first_scans_publish_while_they_run(
    progress: Progress,
    elapsed: u64,
    yes: bool,
)
    requires
        call_ensures(Progress::should_publish, (&progress, elapsed), yes),
    ensures
        yes == (progress.initial && progress.changed >= progress.threshold && elapsed
            >= progress.delay),
{
}

/// Contents are taken only for the revision that they were asked for.
pub proof fn law_contents_are_taken_of_the_expected_revision(
    stored: u64,
    expected: u64,
    said: Result<(), String>,
)
    requires
        call_ensures(content::validate_content_revision, (stored, expected), said),
    ensures
        (said is Ok) == (stored == expected),
{
}

/// A file that is looked at again before it is read is refused where it is no plain file any more,
/// only a placeholder, or another version than the indexed one.
pub proof fn law_changed_files_are_not_read(
    file: &IndexedFile,
    fresh: &ScannedFile,
    problem: Option<&'static str>,
)
    requires
        call_ensures(content::fresh_problem, (file, fresh), problem),
    ensures
        (problem is None) == (!fresh.is_symlink && !fresh.is_dir && fresh.flags & 0x40000000 == 0
            && fresh.volume_id@ == file.volume_id@ && fresh.file_id == file.file_id && fresh.size
            == file.size && fresh.modified_ns == file.modified_ns && fresh.changed_ns
            == file.changed_ns),
{
}

/// What a query needs: contents or properties where it or an exclusion asks for them, and an
/// extraction of them first unless relations are asked for, which count as indexed.
pub proof fn law_query_plans_say_what_is_needed(
    query: &Query,
    exclusions: &Vec<Query>,
    needed: QueryPlan,
    i: int,
)
    requires
        call_ensures(requests::query_plan, (query, exclusions), needed),
    ensures
        evaluate::asks(query@, Question::Content) ==> needed.requires_content,
        evaluate::asks(query@, Question::Properties) ==> needed.requires_properties,
        evaluate::asks(query@, Question::Relations) ==> needed.indexed_relations_only,
        0 <= i < exclusions@.len() && evaluate::asks(exclusions@[i]@, Question::Content)
            ==> needed.requires_content,
        0 <= i < exclusions@.len() && evaluate::asks(exclusions@[i]@, Question::Properties)
            ==> needed.requires_properties,
        exclusions@.len() == 0 ==> needed.requires_content == evaluate::asks(
            query@,
            Question::Content,
        ) && needed.requires_properties == evaluate::asks(query@, Question::Properties)
            && needed.indexed_relations_only == evaluate::asks(query@, Question::Relations),
        needed.requires_extraction == ((needed.requires_content || needed.requires_properties)
            && !needed.indexed_relations_only),
{
}

/// Extracted contents are taken exactly if the path still names the file that they were extracted
/// from: a file, with the expected id, device, size and both times.
pub proof fn law_extracted_contents_belong_to_the_file(
    seen: Seen,
    expected: &ExpectedIdentity,
    said: Result<(), String>,
)
    requires
        call_ensures(
            content::validate_content_identity,
            (Ok::<Seen, String>(seen), expected),
            said,
        ),
    ensures
        (said is Ok) == (seen.is_file && expected.file_id == Some(seen.identity.file_id)
            && expected.device_id == Some(seen.identity.device_id) && expected.size == Some(
            seen.identity.size,
        ) && expected.modified_ns == Some(seen.identity.modified_ns) && expected.changed_ns == Some(
            seen.identity.changed_ns,
        )),
{
}

/// A file that is about to be read has the id, the size and both times that were indexed.
pub proof fn law_files_are_read_as_they_were_indexed(
    seen: &Seen,
    file: &IndexedFile,
    said: Result<FileIdentity, &'static str>,
)
    requires
        call_ensures(content::identity_before_reading, (seen, file), said),
    ensures
        (said is Ok) == (seen.is_file && seen.identity.file_id == file.file_id && seen.identity.size
            == file.size && seen.identity.modified_ns == file.modified_ns
            && seen.identity.changed_ns == file.changed_ns),
        said is Ok ==> said->Ok_0 == seen.identity,
{
}

/// Events are done with exactly if each pass that they needed was complete; otherwise all of them
/// wait for the next one.
pub proof fn law_events_wait_until_their_passes_are_complete(
    drain: Drain,
    scopes: Option<ReconciliationOutcome>,
    entries: Option<ReconciliationOutcome>,
    names: &HostNames,
    end: DrainEnd,
)
    requires
        call_ensures(outcome::after_passes, (drain, scopes, entries, names), end),
    ensures
        (end is Reconciled) == ((scopes is None || scopes->0 == ReconciliationOutcome::Complete) && (
        entries is None || entries->0 == ReconciliationOutcome::Complete)),
        end is Reconciled ==> end->Reconciled_0 == drain,
        end is Queued ==> (end->Queued_0)@.take(drain.events@.len() as int) == drain.events@,
{
}

/// What may be kept of an answer: nothing of one that read contents, and one that compared times
/// only for as long as the clock stands.
pub proof fn law_answers_that_read_contents_are_not_kept(asked: Asked, kept: Reuse)
    requires
        call_ensures(Asked::reuse, (&asked,), kept),
        !asked.metadata_only,
    ensures
        evaluate::asks(asked.query@, Question::Content) ==> !kept.page && !kept.matches,
        !evaluate::asks(asked.query@, Question::Content) && asked.excludes@.len() == 0 ==> kept.page,
        evaluate::asks(asked.query@, Question::Clock) ==> kept.clock,
        !evaluate::asks(asked.query@, Question::Clock) && asked.excludes@.len() == 0 ==> !kept.clock,
{
}

} // verus!
