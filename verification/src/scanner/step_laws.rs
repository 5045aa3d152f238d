//! What the steps of a scan and of a watcher do, said of each of them before and after.
use crate::scanner::entry;
use crate::scanner::entry::{FileKind, FileMetadata, ScannedFile};
use crate::scanner::events;
use crate::scanner::events::{ChangeEvent, Watcher};
use crate::scanner::namespace::HostNames;
use crate::scanner::traversal;
use crate::scanner::traversal::{NextDirectory, Scan, ScanReport};
use crate::text;
use crate::text_order;
use vstd::prelude::*;

verus! {

/// What a scan could not look at is a gap and is told of; nothing else changes.
pub proof fn law_issues_become_gaps(scan: &mut Scan, path: &str, error: &str, done: ())
    requires
        call_ensures(Scan::issue_seen, (scan, path, error), done),
    ensures
        text::texts(final(scan).report.uncovered@) == text::texts(
            old(scan).report.uncovered@,
        ).push(path@),
        text::texts(final(scan).report.errors@) == text::texts(old(scan).report.errors@).push(
            path@ + seq![':', ' '] + error@,
        ),
        final(scan).report.entries == old(scan).report.entries,
        final(scan).pending == old(scan).pending,
        final(scan).directories == old(scan).directories,
{
    reveal_strlit(": ");
    assert(": "@ =~= seq![':', ' ']);
    assert(old(scan).pending@ + Seq::<ScannedFile>::empty() =~= old(scan).pending@);
}

/// A listing that ended well, or because it was cancelled, leaves no gap; one that ended otherwise
/// does.
pub proof fn law_listings_that_break_off_are_gaps(
    scan: &mut Scan,
    path: &str,
    code: i32,
    error: &str,
    done: (),
)
    requires
        call_ensures(Scan::listing_ended, (scan, path, code, error), done),
    ensures
        code == 0 ==> *final(scan) == *old(scan),
        code != 0 && code != 89 ==> text::texts(final(scan).report.uncovered@) == text::texts(
            old(scan).report.uncovered@,
        ).push(path@),
{
}

/// A starting point that the host shows is an entry of its own, with its path and what the host
/// reports, and is listed where it is a directory; one that the host does not show is a gap.
pub proof fn law_starting_points_are_entries_too(
    scan: &mut Scan,
    root: &str,
    metadata: FileMetadata,
    done: (),
)
    requires
        call_ensures(Scan::start_seen, (scan, root, Ok::<FileMetadata, String>(metadata)), done),
    ensures
        final(scan).pending@.len() == old(scan).pending@.len() + 1,
        final(scan).pending@.last().path@ == root@,
        final(scan).pending@.last().created == metadata.created,
        final(scan).pending@.last().modified == metadata.modified,
        final(scan).pending@.last().size == metadata.size,
        final(scan).report.uncovered == old(scan).report.uncovered,
        metadata.kind != FileKind::Directory ==> text::texts(final(scan).directories@)
            == text::texts(old(scan).directories@),
{
    let views = entry::entry_views(final(scan).pending@);
    let before = entry::entry_views(old(scan).pending@);
    assert(views.len() == final(scan).pending@.len());
    assert(before.len() == old(scan).pending@.len());
    assert(views.last() == final(scan).pending@.last()@);
    let found = final(scan).pending@.last();
    assert(found@.path == root@);
    if metadata.kind != FileKind::Directory {
        assert(text::texts(old(scan).directories@) + Seq::<Seq<char>>::empty() =~= text::texts(
            old(scan).directories@,
        ));
    }
}

/// The directory that was queued last is listed next; a scan is over when it was cancelled or when
/// nothing is outstanding.
pub proof fn law_directories_are_listed_until_none_is_left(
    scan: &mut Scan,
    cancelled: bool,
    next: NextDirectory,
)
    requires
        call_ensures(Scan::next_directory, (scan, cancelled), next),
    ensures
        cancelled ==> next is Finished,
        next is Finished ==> cancelled || old(scan).outstanding == 0,
        next is List ==> old(scan).directories@.len() > 0 && next->List_0
            == old(scan).directories@.last() && final(scan).directories@
            == old(scan).directories@.drop_last(),
        !cancelled && old(scan).outstanding > 0 && old(scan).directories@.len() > 0
            ==> next is List,
{
}

/// What was listed is queued behind what waits, and one directory less is outstanding.
pub proof fn law_listed_directories_queue_their_children(
    scan: &mut Scan,
    children: Vec<String>,
    done: (),
)
    requires
        call_ensures(Scan::finish_directory, (scan, children), done),
    ensures
        final(scan).directories@ == old(scan).directories@ + children@,
        final(scan).outstanding == old(scan).outstanding - 1 + children@.len(),
{
}

/// Whatever a scan receives it hands on or keeps, in its order, and counts it.
pub proof fn law_received_entries_are_handed_on_in_order(
    scan: &mut Scan,
    entries: Vec<ScannedFile>,
    batches: Vec<Vec<ScannedFile>>,
    i: int,
)
    requires
        call_ensures(Scan::receive, (scan, entries), batches),
    ensures
        traversal::flat(batches@) + final(scan).pending@ == old(scan).pending@
            + entries@,
        final(scan).report.entries == old(scan).report.entries + entries@.len(),
        0 <= i < batches@.len() ==> batches@[i]@.len() == 512,
{
}

/// The last batch is what is left, and then nothing is.
pub proof fn law_the_rest_is_handed_on(scan: &mut Scan, batch: Option<Vec<ScannedFile>>)
    requires
        call_ensures(Scan::flush, (scan,), batch),
    ensures
        batch is Some ==> (batch->0)@ == old(scan).pending@,
        (batch is None) == (old(scan).pending@.len() == 0),
        final(scan).pending@.len() == 0,
        final(scan).report == old(scan).report,
{
}

/// The report of a finished scan has what the scan counted and met, its gaps each once and in
/// order, and whether it was cancelled.
pub proof fn law_reports_tell_what_a_scan_met(
    scan: Scan,
    cancelled: bool,
    report: ScanReport,
    gap: Seq<char>,
)
    requires
        call_ensures(Scan::finish, (scan, cancelled), report),
    ensures
        report.entries == scan.report.entries,
        report.roots == scan.report.roots,
        report.errors == scan.report.errors,
        report.excluded_mounts == scan.report.excluded_mounts,
        report.cancelled == cancelled,
        text::texts(report.uncovered@).contains(gap) == text::texts(
            scan.report.uncovered@,
        ).contains(gap),
        text_order::ascending(text::texts(report.uncovered@)),
{
    text_order::lemma_sorted_exists(text::texts(scan.report.uncovered@));
}

/// What a watcher has collected is drained once, in its order, and its roots stay.
pub proof fn law_drained_events_are_those_collected(
    watcher: &mut Watcher,
    names: &HostNames,
    drained: Vec<ChangeEvent>,
)
    requires
        call_ensures(Watcher::drain, (watcher, false, names), drained),
    ensures
        events::event_views(drained@) == events::event_views(old(watcher).events@),
        final(watcher).events@.len() == 0,
        final(watcher).roots == old(watcher).roots,
{
}

} // verus!
