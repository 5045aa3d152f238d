//! How passes end, and what is prepared and kept for them, said of the calls themselves.
use crate::engine::links;
use crate::engine::links::{Prepared, PreparedLinks};
use crate::engine::outcome;
use crate::engine::outcome::{PassEnd, ReconciliationOutcome};
use crate::engine::prepare::PreparationError;
use crate::engine::reconcile::{Links, Pass};
use crate::engine::watch::Drain;
use crate::scanner::events;
use crate::scanner::events::ChangeEvent;
use crate::scanner::namespace::HostNames;
use crate::scanner::ScanReport;
use crate::text;
use vstd::prelude::*;

verus! {

/// A pass ends with the failure of a batch. After a conflict nothing of it is written. Otherwise it
/// is complete exactly if nothing of it was cancelled; then, and only then, rows are removed, and
/// the mounts that are not indexed keep theirs. A cancelled pass leaves every gap open, and writes
/// no snapshot once the engine stops.
pub proof fn law_passes_end_as_their_batches_did<
    G: Fn(&str) -> bool,
    S: Fn(&str) -> bool,
    R: Fn(&str) -> bool,
>(
    problem: Option<PreparationError>,
    pass: &Pass,
    report: &ScanReport,
    links: Links,
    stored: &[String],
    stopped: bool,
    gone: G,
    stands: S,
    readable: R,
    result: Result<PassEnd, String>,
)
    requires
        call_ensures(
            outcome::end_pass::<G, S, R>,
            (problem, pass, report, links, stored, stopped, gone, stands, readable),
            result,
        ),
    ensures
        problem matches Some(PreparationError::Failure(reason)) ==> result is Err
            && result->Err_0 == reason,
        !(problem matches Some(PreparationError::Failure(_))) ==> result is Ok,
        result matches Ok(end) ==> {
            let cancelled = report.cancelled || links.cancelled || problem
                == Some(PreparationError::Cancelled);
            &&& (end.outcome == ReconciliationOutcome::Retry) == (problem
                == Some(PreparationError::Retry))
            &&& (end.conclusion is None) == (problem == Some(PreparationError::Retry))
            &&& end.conclusion matches Some(done) ==> {
                &&& (end.outcome == ReconciliationOutcome::Cancelled) == cancelled
                &&& done.complete == !cancelled
                &&& (done.finish is Some) == !cancelled
                &&& cancelled ==> forall|i: int|
                    0 <= i < stored@.len() ==> text::texts(done.uncovered@).contains(
                        (#[trigger] stored@[i])@,
                    )
                &&& !cancelled ==> done.refresh == Some(pass.initial)
                &&& cancelled && stopped ==> done.refresh is None
                &&& cancelled && !stopped ==> done.refresh == Some(false)
                &&& cancelled ==> done.state is Some && done.state->0@ == "cancelled"@
                &&& !cancelled && pass.initial ==> done.state is Some && done.state->0@ == "ready"@
                &&& !cancelled && !pass.initial ==> done.state is None
                &&& done.finish matches Some((scopes, kept)) ==> forall|i: int|
                    0 <= i < report.excluded_mounts@.len() ==> text::texts(kept@).contains(
                        (#[trigger] report.excluded_mounts@[i])@,
                    )
            }
        },
{
    let views = text::texts(stored@);
    assert forall|i: int| 0 <= i < stored@.len() implies views[i] == (#[trigger] stored@[i])@ by {};
}

proof fn lemma_last_prepared(prepared: &PreparedLinks, path: Seq<char>, n: int)
    requires
        0 <= n <= prepared.available@.len(),
    ensures
        match links::prepared_entry(prepared.available@.take(n), path) {
            Some(entry) => exists|i: int|
                0 <= i < n && #[trigger] prepared.available@[i] == entry && entry.path@ == path && (
                forall|j: int| i < j < n ==> (#[trigger] prepared.available@[j]).path@ != path),
            None => forall|j: int| 0 <= j < n ==> (#[trigger] prepared.available@[j]).path@ != path,
        },
    decreases n,
{
    if n > 0 {
        let part = prepared.available@.take(n);
        assert(part.drop_last() =~= prepared.available@.take(n - 1));
        assert(part.last() == prepared.available@[n - 1]);
        lemma_last_prepared(prepared, path, n - 1);
    }
}

/// For a path stands the entry that was prepared for it last; without one it was removed or could
/// not be looked at, if that was noted; and nothing is said of a path that was not looked at.
pub proof fn law_prepared_paths_are_answered_for(
    prepared: &PreparedLinks,
    path: &str,
    result: Result<Prepared, String>,
)
    requires
        call_ensures(PreparedLinks::answer, (prepared, path), result),
    ensures
        (result matches Ok(Prepared::Entry(_))) == (exists|j: int|
            0 <= j < prepared.available@.len() && (#[trigger] prepared.available@[j]).path@
                == path@),
        result matches Ok(Prepared::Entry(i)) ==> i < prepared.available@.len()
            && prepared.available@[i as int].path@ == path@ && exists|k: int|
            0 <= k < prepared.available@.len() && #[trigger] prepared.available@[k]
                == prepared.available@[i as int] && forall|j: int|
                k < j < prepared.available@.len() ==> (#[trigger] prepared.available@[j]).path@
                    != path@,
        (result matches Ok(Prepared::Removed)) == ((forall|j: int|
            0 <= j < prepared.available@.len() ==> (#[trigger] prepared.available@[j]).path@
                != path@) && text::texts(prepared.removed@).contains(path@)),
        result is Err ==> !text::texts(prepared.removed@).contains(path@) && !text::texts(
            prepared.unavailable@,
        ).contains(path@),
        result matches Ok(Prepared::Unavailable) ==> text::texts(
            prepared.unavailable@,
        ).contains(path@) && !text::texts(prepared.removed@).contains(path@),
{
    let n = prepared.available@.len() as int;
    lemma_last_prepared(prepared, path@, n);
    assert(prepared.available@.take(n) =~= prepared.available@);
}

/// What a drain keeps for the next one is its events, in their order, and behind them the end of
/// the history exactly if the drain had come to it.
pub proof fn law_kept_drains_keep_their_events(
    drain: Drain,
    names: &HostNames,
    pending: Vec<ChangeEvent>,
)
    requires
        call_ensures(Drain::keep, (drain, names), pending),
    ensures
        forall|i: int|
            0 <= i < drain.events@.len() ==> #[trigger] pending@[i] == drain.events@[i],
        !drain.history_done ==> pending@ == drain.events@,
        drain.history_done ==> pending@.len() == drain.events@.len() + 1 && pending@.last().flags
            == 0x10 && pending@.last().event_id == 0,
{
    let n = drain.events@.len() as int;
    assert forall|i: int| 0 <= i < n implies #[trigger] pending@[i] == drain.events@[i] by {
        assert(pending@.take(n)[i] == pending@[i]);
    }
    if drain.history_done {
        let views = events::event_views(pending@);
        assert(views.last() == pending@.last()@);
    } else {
        assert(pending@.take(n) =~= pending@);
    }
}

} // verus!
