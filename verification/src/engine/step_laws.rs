//! What the engine's steps do, said of what they work on before and after.
use crate::engine::leases::{Context, Leases, Shelf};
use crate::engine::links;
use crate::engine::links::{LinkOutcome, LinkVerification};
use crate::engine::publish::{HistoricalSnapshot, History, RefreshMode};
use crate::engine::reconcile::Progress;
use crate::engine::watch;
use crate::engine::watch::{Acknowledged, Drain, Step, Stream};
use crate::query::keyword_laws;
use crate::query::options;
use crate::query::options::{MatchOptions, Modes};
use crate::scanner::entry::ScannedFile;
use crate::scanner::events::ChangeEvent;
use vstd::prelude::*;

verus! {

/// A drain without events waits; one in which the identifiers started anew starts over; otherwise
/// what matters of it is reconciled, with the highest identifier as its cursor.
pub proof fn law_drains_are_reconciled_unless_history_broke(
    stream: &mut Stream,
    delivered: Vec<ChangeEvent>,
    saved: u64,
    directory: &str,
    step: Step,
    i: int,
)
    requires
        call_ensures(Stream::take_drain, (stream, delivered, saved, directory), step),
    ensures
        delivered@.len() == 0 ==> step is Wait && *final(stream) == *old(stream),
        0 <= i < delivered@.len() && delivered@[i].flags & 0x08 != 0 ==> step is Restart
            && *final(stream) == *old(stream),
        step is Reconcile ==> *final(stream) == *old(stream),
        final(stream).since == old(stream).since,
        final(stream).mounts_done == old(stream).mounts_done,
        final(stream).replaying ==> old(stream).replaying,
{
    if 0 <= i < delivered@.len() && delivered@[i].flags & 0x08 != 0 {
        assert(watch::is_wrapped(delivered@[i]));
        let is = |event: ChangeEvent| watch::is_wrapped(event);
        assert(is(delivered@[i]));
        assert(watch::any_event(delivered@, is));
    }
}

/// What was reconciled moves the cursor on and never back, and the stream watches once the history
/// was replayed.
pub proof fn law_reconciled_drains_move_the_cursor_on(
    stream: &mut Stream,
    drain: &Drain,
    saved: u64,
    done: Acknowledged,
)
    requires
        call_ensures(Stream::acknowledge, (stream, drain, saved), done),
    ensures
        done.advance is Some ==> done.advance->0 > saved && done.advance->0 == drain.max_id,
        drain.max_id > saved ==> done.advance == Some(drain.max_id),
        drain.history_done ==> !final(stream).replaying && done.state@ == "watching"@,
        !drain.history_done ==> final(stream).replaying == old(stream).replaying,
        final(stream).replaying ==> done.state@ == "catching_up"@,
        done.rebuild_cache == drain.history_done,
        final(stream).since == old(stream).since,
{
}

/// The count of a pass is the sum of what it committed, and publishing starts its changes anew; the
/// next one waits at least two seconds, and five times as long as publishing took.
pub proof fn law_progress_is_counted_until_it_is_published(
    before: &mut Progress,
    entries: u64,
    linked: u64,
    changed: u64,
    after: &mut Progress,
    taken: u64,
    indexed: usize,
    done: (),
)
    requires
        call_ensures(Progress::committed, (before, entries, linked, changed), done),
        call_ensures(Progress::published, (after, taken, indexed), done),
        old(before).changed + changed <= u64::MAX,
        old(before).processed + entries + linked <= u64::MAX,
        taken * 5 <= u64::MAX,
    ensures
        final(before).changed == old(before).changed + changed,
        final(before).processed == old(before).processed + entries + linked,
        final(before).initial == old(before).initial,
        final(after).changed == 0,
        final(after).processed == old(after).processed,
        final(after).delay >= 2000 && final(after).delay >= 5 * taken,
        final(after).delay == 2000 || final(after).delay == 5 * taken,
{
}

/// A link that was found is kept, one that is gone is removed, and one that could not be looked at
/// is unavailable and told of; each is recorded once and nothing else is.
pub proof fn law_links_are_recorded_as_they_were_found(
    found: &mut LinkVerification,
    path: String,
    said: LinkOutcome,
    problem: Option<String>,
)
    requires
        call_ensures(LinkVerification::record, (found, path, said), problem),
    ensures
        said is Found ==> final(found).entries@ == old(found).entries@.push(said->Found_0)
            && final(found).removed@ == old(found).removed@ && problem is None,
        said is Removed ==> final(found).removed@ == old(found).removed@.push(path)
            && final(found).entries@ == old(found).entries@ && problem is None,
        said is Unavailable ==> final(found).unavailable@ == old(found).unavailable@.push(path)
            && final(found).entries@ == old(found).entries@ && problem == Some(
            said->Unavailable_0,
        ),
{
}

/// Entries of one object, other than directories, get the state of the last of them: its size, its
/// times and its flags; their paths and whatever else they hold stay.
pub proof fn law_entries_of_one_object_share_its_state(
    entries: &mut Vec<ScannedFile>,
    done: (),
    i: int,
    j: int,
)
    requires
        call_ensures(links::share_object_state, (entries,), done),
        0 <= i < old(entries)@.len(),
        0 <= j < old(entries)@.len(),
    ensures
        final(entries)@.len() == old(entries)@.len(),
        final(entries)@[i].path@ == old(entries)@[i].path@,
        final(entries)@[i].is_dir == old(entries)@[i].is_dir,
        final(entries)@[i].file_id == old(entries)@[i].file_id,
        ({
            let (a, b) = (old(entries)@[i], old(entries)@[j]);
            !a.is_dir && !b.is_dir && a.file_id != 0 && a.file_id == b.file_id && a.volume_id@
                == b.volume_id@ ==> final(entries)@[i].size == final(entries)@[j].size
                && final(entries)@[i].modified == final(entries)@[j].modified
                && final(entries)@[i].created == final(entries)@[j].created
                && final(entries)@[i].changed == final(entries)@[j].changed
                && final(entries)@[i].flags == final(entries)@[j].flags
        }),
{
    let (a, b) = (old(entries)@[i], old(entries)@[j]);
    let (x, y) = (final(entries)@[i], final(entries)@[j]);
    assert(x@ == links::with_state(a@, links::last_state(old(entries)@, a.volume_id@, a.file_id)));
    assert(y@ == links::with_state(b@, links::last_state(old(entries)@, b.volume_id@, b.file_id)));
    assert(x@.path == a@.path && x@.is_dir == a@.is_dir && x@.file_id == a@.file_id);
    if !a.is_dir && a.file_id != 0 {
        lemma_has_state(old(entries)@, i);
    }
    assert(x@.state.size == x.size && y@.state.size == y.size);
}

proof fn lemma_has_state(files: Seq<ScannedFile>, i: int)
    requires
        0 <= i < files.len(),
        !files[i].is_dir,
        files[i].file_id != 0,
    ensures
        links::last_state(files, files[i].volume_id@, files[i].file_id) is Some,
    decreases files.len(),
{
    if !links::is_of(files.last(), files[i].volume_id@, files[i].file_id) {
        assert(i < files.len() - 1);
        assert(files.drop_last()[i] == files[i]);
        lemma_has_state(files.drop_last(), i);
    }
}

/// A modifier that is known changes the modes of a search as it says, and one that is not changes
/// nothing.
pub proof fn law_known_modifiers_change_the_modes(
    asked: &mut MatchOptions,
    key: &str,
    known: bool,
)
    requires
        call_ensures(options::modifier, (asked, key), known),
    ensures
        key@ == "case"@ ==> known && final(asked).modes == (Modes {
            sensitive: true,
            ..old(asked).modes
        }),
        key@ == "nocase"@ ==> known && final(asked).modes == (Modes {
            sensitive: false,
            ..old(asked).modes
        }),
        key@ == "regex"@ ==> known && final(asked).modes == (Modes {
            regex: true,
            ..old(asked).modes
        }),
        key@ == "whole"@ ==> known && final(asked).modes == (Modes {
            whole: true,
            ..old(asked).modes
        }),
        key@ == "startwith"@ ==> known && final(asked).modes == (Modes {
            start: true,
            ..old(asked).modes
        }),
        key@ == "endwith"@ ==> known && final(asked).modes == (Modes {
            end: true,
            ..old(asked).modes
        }),
        key@ == "diacritics"@ ==> known && final(asked).modes == (Modes {
            diacritics: true,
            ..old(asked).modes
        }),
        !known ==> final(asked).modes == old(asked).modes,
{
    keyword_laws::law_modifiers_turn_their_own_mode(old(asked)@);
    assert(final(asked)@.modes == final(asked).modes);
    assert(old(asked)@.modes == old(asked).modes);
}

/// A lease keeps what it was given, under a number that no other lease has, and every other lease
/// keeps what it had.
pub proof fn law_leases_keep_what_they_were_given<S, P>(
    leases: &mut Leases<S, P>,
    context: Context<S, P>,
    token: Option<u64>,
    other: u64,
)
    requires
        call_ensures(Leases::<S, P>::retain, (leases, context), token),
    ensures
        token is Some ==> final(leases)@.dom().contains(token->0) && final(leases)@[token->0]
            == context && !old(leases)@.dom().contains(token->0),
        old(leases)@.dom().contains(other) ==> final(leases)@.dom().contains(other) && final(leases)@[other] == old(leases)@[other],
{
}

/// A lease that is given back is gone, every other one stays, and giving it back says whether it was
/// there.
pub proof fn law_returned_leases_are_gone<S, P>(
    leases: &mut Leases<S, P>,
    token: u64,
    released: bool,
    other: u64,
)
    requires
        call_ensures(Leases::<S, P>::release, (leases, token), released),
    ensures
        !final(leases)@.dom().contains(token),
        released == old(leases)@.dom().contains(token),
        other != token && old(leases)@.dom().contains(other) ==> final(leases)@.dom().contains(
            other,
        ) && final(leases)@[other] == old(leases)@[other],
{
}

/// A request under a lease is answered from what the lease keeps, where there is such a lease and
/// the request names its generation or none; otherwise it is refused.
pub proof fn law_leased_requests_are_answered_from_their_lease<W, S, P>(
    shelf: &Shelf<W, S, P>,
    token: u64,
    asked: Option<u64>,
    query: bool,
    said: Result<&Context<S, P>, String>,
)
    requires
        call_ensures(Shelf::<W, S, P>::leased, (shelf, token, asked, query), said),
    ensures
        (said is Ok) == (shelf.leases@.dom().contains(token) && (asked is None || asked == Some(
            shelf.leases@[token].generation,
        ))),
        said is Ok ==> *(said->Ok_0) == shelf.leases@[token],
        !shelf.leases@.dom().contains(token) ==> said is Err && (said->Err_0)@
            == "Snapshot lease expired"@,
{
}

/// Publishing makes the new snapshot the current one and changes no lease.
pub proof fn law_publishing_replaces_the_current_snapshot<W, S, P>(
    shelf: &mut Shelf<W, S, P>,
    generation: u64,
    snapshot: S,
    weak: W,
    mode: RefreshMode,
    retired: Option<HistoricalSnapshot<W, S>>,
)
    requires
        call_ensures(
            Shelf::<W, S, P>::publish,
            (shelf, generation, snapshot, weak, mode),
            retired,
        ),
    ensures
        final(shelf).generation == generation,
        final(shelf).snapshot == snapshot,
        final(shelf).leases == old(shelf).leases,
        old(shelf).history.entries@.len() < 2 ==> retired is None,
        final(shelf).history.entries@.len() > 0,
        final(shelf).history.entries@.last().generation == old(shelf).generation,
        final(shelf).history.entries@.last().retained == (if mode == RefreshMode::Incremental {
            Some(old(shelf).snapshot)
        } else {
            None
        }),
{
}

/// The history keeps the last two generations: the newest last, and of more the oldest leaves.
pub proof fn law_two_generations_are_kept<W, S>(
    history: &mut History<W, S>,
    generation: u64,
    weak: W,
    snapshot: S,
    mode: RefreshMode,
    retired: Option<HistoricalSnapshot<W, S>>,
)
    requires
        call_ensures(History::<W, S>::replaced, (history, generation, weak, snapshot, mode), retired),
        old(history).wf(),
    ensures
        final(history).entries@.len() <= 2,
        final(history).entries@.len() > 0,
        final(history).entries@.last().generation == generation,
        old(history).entries@.len() == 2 ==> retired == Some(old(history).entries@[0]),
        old(history).entries@.len() < 2 ==> retired is None,
{
}

} // verus!
