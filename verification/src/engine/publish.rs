//! Publishing snapshots of the index.
use crate::text::joined;
use vstd::prelude::*;

verus! {

/// How a snapshot is made from the one before.
#[derive(Clone, Copy, Debug, PartialEq, Eq, Structural)]
pub enum RefreshMode {
    /// Changed rows are put into what is there.
    Incremental,
    /// Rows move to other slots.
    Remapped,
    /// All rows are read again.
    Full,
}

/// Whether there is anything to publish.
#[derive(Clone, Copy, Debug, PartialEq, Eq, Structural)]
pub enum RefreshNeed {
    /// The published snapshot is current; it may have to be written to disk.
    Current { persist: bool },
    Build,
}

/// Whether there is anything to publish: the store's revision against the published one.
pub fn refresh_need(revision: u64, published: u64, checkpoint: bool, cache_dirty: bool) -> (need:
    RefreshNeed)
    ensures
        need == (if revision == published {
            RefreshNeed::Current { persist: checkpoint && cache_dirty }
        } else {
            RefreshNeed::Build
        }),
{
    if revision == published {
        RefreshNeed::Current { persist: checkpoint && cache_dirty }
    } else {
        RefreshNeed::Build
    }
}

/// How a snapshot is made, and why not from its changes alone.
pub open spec fn mode_of(
    changes: Option<usize>,
    limit: usize,
    remap: Option<Seq<char>>,
) -> (RefreshMode, Option<Seq<char>>) {
    match changes {
        None => (RefreshMode::Full, Some("delta_unavailable"@)),
        Some(count) => if count > limit {
            (RefreshMode::Full, Some("delta_exceeds_incremental_limit"@))
        } else if remap is Some {
            (RefreshMode::Remapped, remap)
        } else {
            (RefreshMode::Incremental, None)
        },
    }
}

pub open spec fn reason_view(reason: Option<&'static str>) -> Option<Seq<char>> {
    match reason {
        Some(text) => Some(text@),
        None => None,
    }
}

/// How a snapshot is made: `changes` rows changed, where that is known; at most `limit` are put
/// in one by one; `remap` says why rows have to move.
pub fn refresh_mode(changes: Option<usize>, limit: usize, remap: Option<&'static str>) -> (chosen: (
    RefreshMode,
    Option<&'static str>,
))
    ensures
        (chosen.0, reason_view(chosen.1)) == mode_of(changes, limit, reason_view(remap)),
{
    match changes {
        None => (RefreshMode::Full, Some("delta_unavailable")),
        Some(count) => if count > limit {
            (RefreshMode::Full, Some("delta_exceeds_incremental_limit"))
        } else if remap.is_some() {
            (RefreshMode::Remapped, remap)
        } else {
            (RefreshMode::Incremental, None)
        },
    }
}

/// The name of a mode.
pub fn mode_name(mode: RefreshMode) -> (name: &'static str)
    ensures
        name@ == (match mode {
            RefreshMode::Incremental => "incremental"@,
            RefreshMode::Remapped => "remapped"@,
            RefreshMode::Full => "full"@,
        }),
{
    match mode {
        RefreshMode::Incremental => "incremental",
        RefreshMode::Remapped => "remapped",
        RefreshMode::Full => "full",
    }
}

/// So many snapshots before the current one can still be asked for.
pub const KEPT_GENERATIONS: usize = 2;

/// A snapshot before the current one: `weak` finds it as long as someone holds it, `retained`
/// holds it.
#[derive(Debug)]
pub struct HistoricalSnapshot<W, S> {
    pub generation: u64,
    pub weak: W,
    pub retained: Option<S>,
}

/// The snapshots before the current one, the oldest first.
#[derive(Debug)]
pub struct History<W, S> {
    pub entries: Vec<HistoricalSnapshot<W, S>>,
}

/// The snapshots that some entries hold.
pub open spec fn retained_of<W, S>(entries: Seq<HistoricalSnapshot<W, S>>) -> Seq<S>
    decreases entries.len(),
{
    if entries.len() == 0 {
        Seq::empty()
    } else {
        let before = retained_of(entries.drop_last());
        match entries.last().retained {
            Some(snapshot) => before.push(snapshot),
            None => before,
        }
    }
}

/// The place of the first entry with a generation.
pub open spec fn place_of<W, S>(
    entries: Seq<HistoricalSnapshot<W, S>>,
    generation: u64,
) -> Option<int>
    decreases entries.len(),
{
    if entries.len() == 0 {
        None
    } else {
        match place_of(entries.drop_last(), generation) {
            Some(i) => Some(i),
            None => if entries.last().generation == generation {
                Some(entries.len() - 1)
            } else {
                None
            },
        }
    }
}

impl<W, S> History<W, S> {
    pub open spec fn wf(&self) -> bool {
        self.entries@.len() <= KEPT_GENERATIONS
    }

    pub fn new() -> (history: Self)
        ensures
            history.wf(),
            history.entries@.len() == 0,
    {
        History { entries: Vec::new() }
    }

    /// A snapshot was replaced. It is held only if its successor shares most of it; gives the
    /// oldest where there are too many.
    pub fn replaced(&mut self, generation: u64, weak: W, snapshot: S, mode: RefreshMode) -> (retired:
        Option<HistoricalSnapshot<W, S>>)
        requires
            old(self).wf(),
        ensures
            final(self).wf(),
            ({
                let one = HistoricalSnapshot {
                    generation,
                    weak,
                    retained: if mode is Incremental {
                        Some(snapshot)
                    } else {
                        None
                    },
                };
                let all = old(self).entries@.push(one);
                if all.len() > KEPT_GENERATIONS {
                    retired == Some(all[0]) && final(self).entries@ == all.drop_first()
                } else {
                    retired is None && final(self).entries@ == all
                }
            }),
    {
        let retained = match mode {
            RefreshMode::Incremental => Some(snapshot),
            _ => None,
        };
        let ghost before = self.entries@;
        self.entries.push(HistoricalSnapshot { generation, weak, retained });
        if self.entries.len() > KEPT_GENERATIONS {
            let ghost all = self.entries@;
            let oldest = self.entries.remove(0);
            assert(self.entries@ =~= all.drop_first());
            Some(oldest)
        } else {
            None
        }
    }

    /// Let go of the snapshots that are only held here, and hand them out.
    pub fn release(&mut self) -> (released: Vec<S>)
        requires
            old(self).wf(),
        ensures
            final(self).wf(),
            final(self).entries@.len() == old(self).entries@.len(),
            forall|i: int|
                0 <= i < final(self).entries@.len() ==> (#[trigger] final(self).entries@[i])
                    == (HistoricalSnapshot { retained: None, ..old(self).entries@[i] }),
            released@ == retained_of(old(self).entries@),
    {
        let ghost before = self.entries@;
        assert(before.take(0) =~= Seq::empty());
        let mut released: Vec<S> = Vec::new();
        let mut next: usize = 0;
        while next < self.entries.len()
            invariant
                next <= self.entries@.len(),
                self.entries@.len() == before.len(),
                forall|i: int|
                    0 <= i < next ==> (#[trigger] self.entries@[i]) == (HistoricalSnapshot {
                        retained: None,
                        ..before[i]
                    }),
                forall|i: int|
                    next <= i < self.entries@.len() ==> #[trigger] self.entries@[i] == before[i],
                released@ == retained_of(before.take(next as int)),
            decreases self.entries@.len() - next,
        {
            let ghost part = before.take(next + 1);
            assert(part.drop_last() =~= before.take(next as int));
            assert(part.last() == before[next as int]);
            let entry = &mut self.entries[next];
            if let Some(snapshot) = entry.retained.take() {
                released.push(snapshot);
            }
            next = next + 1;
        }
        assert(before.take(next as int) =~= before);
        released
    }

    /// The place of the first snapshot with a generation.
    pub fn find(&self, generation: u64) -> (place: Option<usize>)
        ensures
            place_of(self.entries@, generation) == (match place {
                Some(i) => Some(i as int),
                None => None,
            }),
            place matches Some(i) ==> i < self.entries@.len(),
    {
        let mut next: usize = 0;
        assert(self.entries@.take(0) =~= Seq::<HistoricalSnapshot<W, S>>::empty());
        while next < self.entries.len()
            invariant
                next <= self.entries@.len(),
                place_of(self.entries@.take(next as int), generation) is None,
            decreases self.entries@.len() - next,
        {
            let ghost part = self.entries@.take(next + 1);
            assert(part.drop_last() =~= self.entries@.take(next as int));
            if self.entries[next].generation == generation {
                proof {
                    lemma_place_stays(self.entries@, next + 1, generation);
                }
                return Some(next);
            }
            next = next + 1;
        }
        assert(self.entries@.take(next as int) =~= self.entries@);
        None
    }
}

proof fn lemma_place_stays<W, S>(
    entries: Seq<HistoricalSnapshot<W, S>>,
    count: int,
    generation: u64,
)
    requires
        0 <= count <= entries.len(),
        place_of(entries.take(count), generation) is Some,
    ensures
        place_of(entries, generation) == place_of(entries.take(count), generation),
    decreases entries.len() - count,
{
    if count == entries.len() {
        assert(entries.take(count) =~= entries);
    } else {
        assert(entries.take(count + 1).drop_last() =~= entries.take(count));
        lemma_place_stays(entries, count + 1, generation);
    }
}

/// Which snapshot a request asks for.
#[derive(Clone, Copy, Debug, PartialEq, Eq, Structural)]
pub enum Pin {
    Current,
    Historical(usize),
}

/// Find the snapshot that a request asks for: the current one, unless it names another
/// generation. `alive` tells whether a historical snapshot is still there.
pub fn pin<W, S, F: Fn(&W) -> bool>(
    generation: Option<u64>,
    current: u64,
    history: &History<W, S>,
    alive: F,
) -> (result: Result<Pin, String>)
    requires
        forall|weak: &W| #[trigger] call_requires(alive, (weak,)),
    ensures
        ({
            let wanted = match generation {
                Some(wanted) => wanted,
                None => current,
            };
            let place = place_of(history.entries@, wanted);
            match result {
                Ok(Pin::Current) => wanted == current,
                Ok(Pin::Historical(i)) => wanted != current && place == Some(i as int)
                    && call_ensures(alive, (&history.entries@[i as int].weak,), true),
                Err(reason) => {
                    &&& reason@ == "Requested generation expired; restart query at offset 0"@
                    &&& wanted != current
                    &&& place matches Some(i) ==> call_ensures(
                        alive,
                        (&history.entries@[i].weak,),
                        false,
                    )
                },
            }
        }),
{
    let wanted = match generation {
        Some(wanted) => wanted,
        None => current,
    };
    if wanted == current {
        return Ok(Pin::Current);
    }
    if let Some(i) = history.find(wanted) {
        let weak = &history.entries[i].weak;
        if alive(weak) {
            return Ok(Pin::Historical(i));
        }
    }
    Err("Requested generation expired; restart query at offset 0".to_owned())
}

/// What becomes of the note that a checkpoint failed.
#[derive(Debug)]
pub enum CacheNote {
    Clear,
    Keep,
    Problem(String),
}

/// A checkpoint was written, or not. `dirty` tells whether the store still asks for one;
/// `scheduled` whether asking for one worked where it did not. The snapshot in memory and the
/// store stay what counts.
pub fn checkpoint_note(
    written: Result<(), String>,
    dirty: bool,
    scheduled: Result<(), String>,
) -> (note: CacheNote)
    ensures
        match written {
            Ok(_) => if dirty {
                note is Keep
            } else {
                note is Clear
            },
            Err(reason) => note matches CacheNote::Problem(said) && said@ == (match scheduled {
                Err(second) if !dirty => reason@ + "; unable to schedule cache repair: "@ + second@,
                _ => reason@,
            }),
        },
{
    match written {
        Ok(_) => if dirty {
            CacheNote::Keep
        } else {
            CacheNote::Clear
        },
        Err(reason) => {
            if !dirty {
                if let Err(second) = scheduled {
                    let first = joined(
                        reason.as_str(),
                        "; unable to schedule cache repair: ",
                    );
                    return CacheNote::Problem(joined(first.as_str(), second.as_str()));
                }
            }
            CacheNote::Problem(reason)
        },
    }
}

} // verus!
