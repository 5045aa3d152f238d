//! Which snapshot a request is answered from.
//!
//! A request names a generation, or a lease that it or an earlier request took. A lease keeps a
//! snapshot together with what it was taken under, so that the pages of one query agree whatever
//! is published between them.
use crate::engine::publish;
use crate::engine::publish::{pin, HistoricalSnapshot, History, Pin, RefreshMode};
use crate::engine::requests;
use crate::engine::requests::check_leased_generation;
use crate::files::IndexedFile;
use crate::paging;
use crate::paging::{Page, PageRequest};
use crate::query::evaluate::Question;
use crate::relations::hierarchy::{Coverage, Hierarchy};
use crate::result_order::SortField;
use crate::search;
use crate::search::{Asked, Search};
use crate::snapshot;
use crate::snapshot::Snapshot;
use std::sync::Arc;
use vstd::prelude::*;

verus! {

/// A snapshot with its generation, and the settings, coverage and clock that it is asked under.
pub struct Context<S, P> {
    pub generation: u64,
    pub snapshot: S,
    pub settings: P,
}

/// A lease by its number.
pub struct Lease<S, P> {
    pub token: u64,
    pub context: Context<S, P>,
}

/// The leases that are out.
pub struct Leases<S, P> {
    entries: Vec<Lease<S, P>>,
    issued: u64,
}

spec fn has_token<S, P>(entries: Seq<Lease<S, P>>, token: u64) -> bool {
    exists|i: int| 0 <= i < entries.len() && (#[trigger] entries[i]).token == token
}

spec fn place_of<S, P>(entries: Seq<Lease<S, P>>, token: u64) -> int {
    choose|i: int| 0 <= i < entries.len() && (#[trigger] entries[i]).token == token
}

spec fn table<S, P>(entries: Seq<Lease<S, P>>) -> Map<u64, Context<S, P>> {
    Map::new(
        |token: u64| has_token(entries, token),
        |token: u64| entries[place_of(entries, token)].context,
    )
}

spec fn different_tokens<S, P>(entries: Seq<Lease<S, P>>) -> bool {
    forall|i: int, j: int|
        0 <= i < j < entries.len() ==> (#[trigger] entries[i]).token != (#[trigger] entries[j]).token
}

proof fn lemma_found<S, P>(entries: Seq<Lease<S, P>>, i: int)
    requires
        different_tokens(entries),
        0 <= i < entries.len(),
    ensures
        table(entries).dom().contains(entries[i].token),
        table(entries)[entries[i].token] == entries[i].context,
        place_of(entries, entries[i].token) == i,
{
    let p = place_of(entries, entries[i].token);
    assert(has_token(entries, entries[i].token));
    if p < i {
        assert(entries[p].token != entries[i].token);
    } else if i < p {
        assert(entries[i].token != entries[p].token);
    }
}

impl<S, P> View for Leases<S, P> {
    type V = Map<u64, Context<S, P>>;

    /// What each lease keeps.
    closed spec fn view(&self) -> Map<u64, Context<S, P>> {
        table(self.entries@)
    }
}

impl<S, P> Leases<S, P> {
    /// Every lease has a number of its own, and none has one that is still to be given.
    pub closed spec fn wf(&self) -> bool {
        &&& different_tokens(self.entries@)
        &&& forall|i: int|
            0 <= i < self.entries@.len() ==> (#[trigger] self.entries@[i]).token < self.issued
    }

    /// How many leases were given.
    pub closed spec fn issued(&self) -> u64 {
        self.issued
    }

    pub fn new() -> (leases: Self)
        ensures
            leases.wf(),
            leases@ == Map::<u64, Context<S, P>>::empty(),
            leases.issued() == 0,
    {
        let leases = Leases { entries: Vec::new(), issued: 0 };
        assert(leases@ =~= Map::<u64, Context<S, P>>::empty());
        leases
    }

    /// Keep a context under a number that no lease had before; nothing where the numbers are
    /// used up.
    pub fn retain(&mut self, context: Context<S, P>) -> (token: Option<u64>)
        requires
            old(self).wf(),
        ensures
            final(self).wf(),
            match token {
                Some(number) => {
                    &&& number == old(self).issued()
                    &&& !old(self)@.dom().contains(number)
                    &&& final(self)@ == old(self)@.insert(number, context)
                    &&& final(self).issued() == number + 1
                },
                None => old(self).issued() == u64::MAX && *final(self) == *old(self),
            },
    {
        if self.issued == u64::MAX {
            return None;
        }
        let token = self.issued;
        let ghost before = self.entries@;
        self.entries.push(Lease { token, context });
        self.issued = token + 1;
        proof {
            let after = self.entries@;
            assert forall|i: int| 0 <= i < before.len() implies #[trigger] after[i] == before[i] by {}
            assert(different_tokens(after));
            let (x, y) = (table(before).insert(token, context), table(after));
            assert(!has_token(before, token));
            lemma_found(after, before.len() as int);
            assert forall|t: u64| x.dom().contains(t) == #[trigger] y.dom().contains(t) && (
            y.dom().contains(t) ==> x[t] == y[t]) by {
                if has_token(before, t) {
                    let i = place_of(before, t);
                    lemma_found(before, i);
                    lemma_found(after, i);
                    assert(after[i].token == t);
                }
                if has_token(after, t) && t != token {
                    let i = place_of(after, t);
                    assert(before[i].token == t);
                }
            }
            assert(y =~= x);
        }
        Some(token)
    }

    fn find(&self, token: u64) -> (place: Option<usize>)
        requires
            self.wf(),
        ensures
            match place {
                Some(i) => i < self.entries@.len() && self.entries@[i as int].token == token,
                None => !has_token(self.entries@, token),
            },
    {
        let mut next: usize = 0;
        while next < self.entries.len()
            invariant
                next <= self.entries@.len(),
                forall|i: int| 0 <= i < next ==> (#[trigger] self.entries@[i]).token != token,
            decreases self.entries@.len() - next,
        {
            if self.entries[next].token == token {
                return Some(next);
            }
            next = next + 1;
        }
        None
    }

    /// Give a lease back; tells whether there was one.
    pub fn release(&mut self, token: u64) -> (released: bool)
        requires
            old(self).wf(),
        ensures
            final(self).wf(),
            released == old(self)@.dom().contains(token),
            final(self)@ == old(self)@.remove(token),
            final(self).issued() == old(self).issued(),
    {
        let ghost before = self.entries@;
        match self.find(token) {
            Some(place) => {
                let ghost at = place as int;
                let _gone = self.entries.remove(place);
                proof {
                    let after = self.entries@;
                    assert forall|i: int| 0 <= i < after.len() implies #[trigger] after[i] == before[if i
                        < at {
                        i
                    } else {
                        i + 1
                    }] by {}
                    assert(different_tokens(after));
                    lemma_found(before, at);
                    let (x, y) = (table(before).remove(token), table(after));
                    assert forall|t: u64| x.dom().contains(t) == #[trigger] y.dom().contains(t) && (
                    y.dom().contains(t) ==> x[t] == y[t]) by {
                        if has_token(before, t) && t != token {
                            let i = place_of(before, t);
                            let j = if i < at {
                                i
                            } else {
                                i - 1
                            };
                            assert(after[j] == before[i]);
                            assert(has_token(after, t));
                        }
                        if has_token(after, t) {
                            let j = place_of(after, t);
                            let i = if j < at {
                                j
                            } else {
                                j + 1
                            };
                            assert(after[j] == before[i]);
                            lemma_found(after, j);
                            lemma_found(before, i);
                            assert(before[at].token == token);
                        }
                    }
                    assert(y =~= x);
                }
                true
            },
            None => {
                assert(table(before).remove(token) =~= table(before));
                false
            },
        }
    }

    /// How many leases are out.
    pub fn count(&self) -> (count: usize)
        requires
            self.wf(),
        ensures
            count == self@.dom().len(),
    {
        proof {
            let entries = self.entries@;
            let tokens = entries.map_values(|lease: Lease<S, P>| lease.token);
            assert forall|i: int, j: int|
                0 <= i < tokens.len() && 0 <= j < tokens.len() && i != j implies tokens[i]
                != tokens[j] by {
                assert(tokens[i] == entries[i].token && tokens[j] == entries[j].token);
            }
            tokens.unique_seq_to_set();
            assert forall|token: u64| #[trigger] self@.dom().contains(token)
                == tokens.to_set().contains(token) by {
                if has_token(entries, token) {
                    let i = place_of(entries, token);
                    assert(tokens[i] == token);
                }
                if tokens.contains(token) {
                    let i = choose|i: int| 0 <= i < tokens.len() && tokens[i] == token;
                    assert(entries[i].token == token);
                }
            }
            assert(self@.dom() =~= tokens.to_set());
        }
        self.entries.len()
    }

    /// What a lease keeps.
    pub fn get(&self, token: u64) -> (context: Option<&Context<S, P>>)
        requires
            self.wf(),
        ensures
            match context {
                Some(kept) => self@.dom().contains(token) && *kept == self@[token],
                None => !self@.dom().contains(token),
            },
    {
        match self.find(token) {
            Some(place) => {
                proof {
                    lemma_found(self.entries@, place as int);
                }
                Some(&self.entries[place].context)
            },
            None => None,
        }
    }
}

/// The published snapshot, those before it, and the leases.
pub struct Shelf<W, S, P> {
    pub generation: u64,
    pub snapshot: S,
    pub history: History<W, S>,
    pub leases: Leases<S, P>,
}

/// What a request under a lease is answered from.
pub open spec fn leased<S, P>(
    leases: Map<u64, Context<S, P>>,
    token: u64,
    asked: Option<u64>,
    query: bool,
) -> Result<Context<S, P>, Seq<char>> {
    if !leases.dom().contains(token) {
        Err("Snapshot lease expired"@)
    } else if asked is Some && asked != Some(leases[token].generation) {
        Err(requests::mismatch(query))
    } else {
        Ok(leases[token])
    }
}

impl<W, S, P> Shelf<W, S, P> {
    pub open spec fn wf(&self) -> bool {
        self.history.wf() && self.leases.wf()
    }

    pub fn new(generation: u64, snapshot: S) -> (shelf: Self)
        ensures
            shelf.wf(),
            shelf.generation == generation,
            shelf.snapshot == snapshot,
            shelf.history.entries@.len() == 0,
            shelf.leases@ == Map::<u64, Context<S, P>>::empty(),
    {
        Shelf { generation, snapshot, history: History::new(), leases: Leases::new() }
    }

    /// Publish a snapshot; `weak` finds the one that it replaces. Gives the oldest where there
    /// are too many.
    pub fn publish(&mut self, generation: u64, snapshot: S, weak: W, mode: RefreshMode) -> (retired:
        Option<HistoricalSnapshot<W, S>>)
        requires
            old(self).wf(),
        ensures
            final(self).wf(),
            final(self).generation == generation,
            final(self).snapshot == snapshot,
            final(self).leases == old(self).leases,
            ({
                let one = HistoricalSnapshot {
                    generation: old(self).generation,
                    weak,
                    retained: if mode is Incremental {
                        Some(old(self).snapshot)
                    } else {
                        None
                    },
                };
                let all = old(self).history.entries@.push(one);
                if all.len() > publish::KEPT_GENERATIONS {
                    retired == Some(all[0]) && final(self).history.entries@ == all.drop_first()
                } else {
                    retired is None && final(self).history.entries@ == all
                }
            }),
    {
        let before = self.generation;
        let mut other = snapshot;
        core::mem::swap(&mut self.snapshot, &mut other);
        self.generation = generation;
        self.history.replaced(before, weak, other, mode)
    }

    /// What a request without a lease is answered from: the published snapshot, unless it names
    /// another generation that can still be had.
    pub fn pinned<F: Fn(&W) -> bool>(&self, asked: Option<u64>, alive: F) -> (result: Result<
        Pin,
        String,
    >)
        requires
            forall|weak: &W| #[trigger] call_requires(alive, (weak,)),
        ensures
            ({
                let wanted = match asked {
                    Some(wanted) => wanted,
                    None => self.generation,
                };
                let place = publish::place_of(self.history.entries@, wanted);
                match result {
                    Ok(Pin::Current) => wanted == self.generation,
                    Ok(Pin::Historical(i)) => wanted != self.generation && place == Some(i as int)
                        && call_ensures(alive, (&self.history.entries@[i as int].weak,), true),
                    Err(reason) => {
                        &&& reason@ == "Requested generation expired; restart query at offset 0"@
                        &&& wanted != self.generation
                        &&& place matches Some(i) ==> call_ensures(
                            alive,
                            (&self.history.entries@[i].weak,),
                            false,
                        )
                    },
                }
            }),
    {
        pin(asked, self.generation, &self.history, alive)
    }

    /// What a request under a lease is answered from. One that names another generation than the
    /// lease keeps is refused.
    pub fn leased(&self, token: u64, asked: Option<u64>, query: bool) -> (result: Result<
        &Context<S, P>,
        String,
    >)
        requires
            self.wf(),
        ensures
            match leased(self.leases@, token, asked, query) {
                Ok(context) => result matches Ok(kept) && *kept == context,
                Err(reason) => result matches Err(said) && said@ == reason,
            },
    {
        match self.leases.get(token) {
            Some(context) => match check_leased_generation(asked, context.generation, query) {
                Ok(_) => Ok(context),
                Err(reason) => Err(reason),
            },
            None => Err("Snapshot lease expired".to_owned()),
        }
    }
}

/// What can happen to leases.
pub enum Change<S, P> {
    /// A snapshot was published.
    Published,
    /// A lease was taken.
    Retained(u64, Context<S, P>),
    /// A lease was given back.
    Released(u64),
}

/// The leases after some changes.
pub open spec fn after_changes<S, P>(
    leases: Map<u64, Context<S, P>>,
    changes: Seq<Change<S, P>>,
) -> Map<u64, Context<S, P>>
    decreases changes.len(),
{
    if changes.len() == 0 {
        leases
    } else {
        let before = after_changes(leases, changes.drop_last());
        match changes.last() {
            Change::Published => before,
            Change::Retained(token, context) => before.insert(token, context),
            Change::Released(token) => before.remove(token),
        }
    }
}

/// None of some changes gives a lease back or gives its number again.
pub open spec fn spares<S, P>(changes: Seq<Change<S, P>>, token: u64) -> bool {
    forall|i: int|
        0 <= i < changes.len() ==> (match #[trigger] changes[i] {
            Change::Published => true,
            Change::Retained(other, _) => other != token,
            Change::Released(other) => other != token,
        })
}

/// A request under a lease is answered from the same generation, snapshot and settings, or refused
/// for the same reason, whatever is published, taken and given back, as long as the lease itself
/// is not given back and its number is not given again.
pub proof fn law_a_lease_outlasts_publications<S, P>(
    leases: Map<u64, Context<S, P>>,
    changes: Seq<Change<S, P>>,
    token: u64,
    asked: Option<u64>,
    query: bool,
)
    requires
        leases.dom().contains(token),
        spares(changes, token),
    ensures
        after_changes(leases, changes).dom().contains(token),
        after_changes(leases, changes)[token] == leases[token],
        leased(after_changes(leases, changes), token, asked, query) == leased(
            leases,
            token,
            asked,
            query,
        ),
    decreases changes.len(),
{
    if changes.len() > 0 {
        let init = changes.drop_last();
        assert forall|i: int| 0 <= i < init.len() implies (match #[trigger] init[i] {
            Change::Published => true,
            Change::Retained(other, _) => other != token,
            Change::Released(other) => other != token,
        }) by {
            assert(init[i] == changes[i]);
        }
        assert(changes[changes.len() - 1] == changes.last());
        law_a_lease_outlasts_publications(leases, init, token, asked, query);
    }
}

/// A query under a lease has the same page before and after whatever is published, taken and given
/// back meanwhile: the same rows, the same total, and the generation of the lease. Settings of the
/// lease decide what is asked, so `first` and `second` ask the same.
pub proof fn law_a_leased_page_stays_the_same<P>(
    leases: Map<u64, Context<Arc<Snapshot>, P>>,
    changes: Seq<Change<Arc<Snapshot>, P>>,
    token: u64,
    asked: Option<u64>,
    first: Asked,
    second: Asked,
    a: Search,
    b: Search,
    tree: Hierarchy,
    coverage: Coverage,
    stored: spec_fn(IndexedFile) -> Option<Seq<char>>,
    extracted: spec_fn(IndexedFile) -> Option<Seq<char>>,
    later: spec_fn(IndexedFile) -> Option<Seq<char>>,
    keys: Seq<(SortField, bool)>,
    request: PageRequest,
    listing: Seq<u32>,
    relisting: Seq<u32>,
    page: Page,
    again: Page,
)
    requires
        leases.dom().contains(token),
        spares(changes, token),
        leased(leases, token, asked, true) is Ok,
        search::asks_the_same(first, second),
        a.needs_content() ==> extracted == later,
        ({
            let state = *leases[token].snapshot;
            &&& search::stands_for(a, first, state, tree, coverage, stored)
            &&& snapshot::is_listing(
                state.rows(),
                keys,
                search::results(a, state, None, stored, extracted),
                listing,
            )
            &&& paging::shows(page, state.rows(), listing, request)
        }),
        ({
            let state = *after_changes(leases, changes)[token].snapshot;
            &&& search::stands_for(b, second, state, tree, coverage, stored)
            &&& snapshot::is_listing(
                state.rows(),
                keys,
                search::results(b, state, None, stored, later),
                relisting,
            )
            &&& paging::shows(again, state.rows(), relisting, request)
        }),
    ensures
        leased(after_changes(leases, changes), token, asked, true) == leased(
            leases,
            token,
            asked,
            true,
        ),
        again.slots@ == page.slots@,
        again.total == page.total,
        again.offset == page.offset,
        again.anchor_index == page.anchor_index,
{
    law_a_lease_outlasts_publications(leases, changes, token, asked, true);
    let state = *leases[token].snapshot;
    search::law_the_same_request_has_the_same_results(
        first,
        second,
        a,
        b,
        state,
        tree,
        coverage,
        stored,
        extracted,
        later,
    );
    paging::law_pages_do_not_depend_on_hints(
        page,
        again,
        state.rows(),
        keys,
        search::results(a, state, None, stored, extracted),
        listing,
        relisting,
        request,
        request,
    );
}

/// A request under a lease is answered: what was asked, prepared for the lease's snapshot, and its
/// page.
pub open spec fn answered<
    P,
    S: Fn(&IndexedFile) -> Result<Option<String>, String>,
    E: Fn(&IndexedFile) -> Option<String>,
    C: Fn() -> bool,
>(
    leases: Map<u64, Context<Arc<Snapshot>, P>>,
    token: u64,
    asked: Asked,
    tree: Hierarchy,
    coverage: Coverage,
    keys: Seq<(SortField, bool)>,
    request: PageRequest,
    stored: S,
    extract: E,
    cancelled: C,
    prepared: Result<(Search, bool), String>,
    page: Result<Page, String>,
) -> bool {
    let state = *leases[token].snapshot;
    &&& search::prepares(asked, state, tree, coverage, stored, cancelled, prepared)
    &&& prepared matches Ok((search, _)) ==> search::answers(
        search,
        state,
        None,
        keys,
        request,
        stored,
        extract,
        cancelled,
        page,
    )
}

/// Two requests that ask the same under a lease, whatever else they are, whatever changes between
/// them: both are answered, with pages of one and the same listing.
proof fn lemma_pages_of_one_listing<
    P,
    S: Fn(&IndexedFile) -> Result<Option<String>, String>,
    E: Fn(&IndexedFile) -> Option<String>,
    C: Fn() -> bool,
    T: Fn(&IndexedFile) -> Result<Option<String>, String>,
    F: Fn(&IndexedFile) -> Option<String>,
    D: Fn() -> bool,
>(
    leases: Map<u64, Context<Arc<Snapshot>, P>>,
    changes: Seq<Change<Arc<Snapshot>, P>>,
    token: u64,
    first: Asked,
    second: Asked,
    tree: Hierarchy,
    coverage: Coverage,
    keys: Seq<(SortField, bool)>,
    request: PageRequest,
    other: PageRequest,
    stored: S,
    extract: E,
    cancelled: C,
    restored: T,
    reextract: F,
    recancelled: D,
    content: spec_fn(IndexedFile) -> Option<Seq<char>>,
    extracted: spec_fn(IndexedFile) -> Option<Seq<char>>,
    later: spec_fn(IndexedFile) -> Option<Seq<char>>,
    prepared: Result<(Search, bool), String>,
    page: Result<Page, String>,
    reprepared: Result<(Search, bool), String>,
    again: Result<Page, String>,
) -> (listing: Seq<u32>)
    requires
        leases.dom().contains(token),
        spares(changes, token),
        search::asks_the_same(first, second),
        first.asks(Question::Content) ==> extracted == later,
        search::extracted_as(extract, extracted),
        search::extracted_as(reextract, later),
        ({
            let state = *leases[token].snapshot;
            &&& search::left_alone(
                first,
                state,
                tree,
                coverage,
                stored,
                extract,
                cancelled,
                content,
                prepared,
            )
            &&& search::left_alone(
                second,
                state,
                tree,
                coverage,
                restored,
                reextract,
                recancelled,
                content,
                reprepared,
            )
        }),
        answered(
            leases,
            token,
            first,
            tree,
            coverage,
            keys,
            request,
            stored,
            extract,
            cancelled,
            prepared,
            page,
        ),
        answered(
            after_changes(leases, changes),
            token,
            second,
            tree,
            coverage,
            keys,
            other,
            restored,
            reextract,
            recancelled,
            reprepared,
            again,
        ),
    ensures
        prepared is Ok,
        page is Ok,
        reprepared is Ok,
        again is Ok,
        snapshot::is_listing(
            leases[token].snapshot.rows(),
            keys,
            search::results(
                prepared->Ok_0.0,
                *leases[token].snapshot,
                None,
                content,
                extracted,
            ),
            listing,
        ),
        paging::shows(page->Ok_0, leases[token].snapshot.rows(), listing, request),
        paging::shows(again->Ok_0, leases[token].snapshot.rows(), listing, other),
{
    law_a_lease_outlasts_publications(leases, changes, token, None, true);
    let state = *leases[token].snapshot;
    search::law_a_request_that_is_left_alone_is_answered(
        first,
        state,
        tree,
        coverage,
        keys,
        request,
        stored,
        extract,
        cancelled,
        content,
        prepared,
        page,
    );
    search::law_a_request_that_is_left_alone_is_answered(
        second,
        state,
        tree,
        coverage,
        keys,
        other,
        restored,
        reextract,
        recancelled,
        content,
        reprepared,
        again,
    );
    let (a, b) = (prepared->Ok_0.0, reprepared->Ok_0.0);
    let results = search::results(a, state, None, content, extracted);
    search::lemma_prepared_content(a, first, state, tree, coverage, content);
    search::law_the_same_request_has_the_same_results(
        first,
        second,
        a,
        b,
        state,
        tree,
        coverage,
        content,
        extracted,
        later,
    );
    let listing = choose|listing: Seq<u32>| #[trigger]
        snapshot::is_listing(state.rows(), keys, results, listing) && paging::shows(
            page->Ok_0,
            state.rows(),
            listing,
            request,
        );
    let relisting = choose|relisting: Seq<u32>| #[trigger]
        snapshot::is_listing(
            state.rows(),
            keys,
            search::results(b, state, None, content, later),
            relisting,
        ) && paging::shows(again->Ok_0, state.rows(), relisting, other);
    snapshot::law_there_is_one_listing(state.rows(), keys, results, listing, relisting);
    listing
}

/// The same request under a lease, made twice, is answered twice, with the same rows, total and
/// generation, whatever is published, taken and given back meanwhile.
pub proof fn law_a_leased_request_is_answered_twice_alike<
    P,
    S: Fn(&IndexedFile) -> Result<Option<String>, String>,
    E: Fn(&IndexedFile) -> Option<String>,
    C: Fn() -> bool,
    T: Fn(&IndexedFile) -> Result<Option<String>, String>,
    F: Fn(&IndexedFile) -> Option<String>,
    D: Fn() -> bool,
>(
    leases: Map<u64, Context<Arc<Snapshot>, P>>,
    changes: Seq<Change<Arc<Snapshot>, P>>,
    token: u64,
    generation: Option<u64>,
    first: Asked,
    second: Asked,
    tree: Hierarchy,
    coverage: Coverage,
    keys: Seq<(SortField, bool)>,
    request: PageRequest,
    stored: S,
    extract: E,
    cancelled: C,
    restored: T,
    reextract: F,
    recancelled: D,
    content: spec_fn(IndexedFile) -> Option<Seq<char>>,
    extracted: spec_fn(IndexedFile) -> Option<Seq<char>>,
    later: spec_fn(IndexedFile) -> Option<Seq<char>>,
    prepared: Result<(Search, bool), String>,
    page: Result<Page, String>,
    reprepared: Result<(Search, bool), String>,
    again: Result<Page, String>,
)
    requires
        leases.dom().contains(token),
        spares(changes, token),
        leased(leases, token, generation, true) is Ok,
        search::asks_the_same(first, second),
        first.asks(Question::Content) ==> extracted == later,
        search::extracted_as(extract, extracted),
        search::extracted_as(reextract, later),
        search::left_alone(
            first,
            *leases[token].snapshot,
            tree,
            coverage,
            stored,
            extract,
            cancelled,
            content,
            prepared,
        ),
        search::left_alone(
            second,
            *leases[token].snapshot,
            tree,
            coverage,
            restored,
            reextract,
            recancelled,
            content,
            reprepared,
        ),
        answered(
            leases,
            token,
            first,
            tree,
            coverage,
            keys,
            request,
            stored,
            extract,
            cancelled,
            prepared,
            page,
        ),
        answered(
            after_changes(leases, changes),
            token,
            second,
            tree,
            coverage,
            keys,
            request,
            restored,
            reextract,
            recancelled,
            reprepared,
            again,
        ),
    ensures
        leased(after_changes(leases, changes), token, generation, true) == leased(
            leases,
            token,
            generation,
            true,
        ),
        page is Ok,
        again is Ok,
        again->Ok_0.slots@ == page->Ok_0.slots@,
        again->Ok_0.total == page->Ok_0.total,
        again->Ok_0.offset == page->Ok_0.offset,
        again->Ok_0.anchor_index == page->Ok_0.anchor_index,
{
    law_a_lease_outlasts_publications(leases, changes, token, generation, true);
    let listing = lemma_pages_of_one_listing(
        leases,
        changes,
        token,
        first,
        second,
        tree,
        coverage,
        keys,
        request,
        request,
        stored,
        extract,
        cancelled,
        restored,
        reextract,
        recancelled,
        content,
        extracted,
        later,
        prepared,
        page,
        reprepared,
        again,
    );
}

/// Under a lease every window is cut out of the whole result: where one request has all rows, any
/// other that asks the same is answered with the rows from its offset on, up to its limit, in the
/// same order, and with the same total. The whole result is sorted and has no row twice.
pub proof fn law_leased_windows_are_cut_out_of_the_whole_result<
    P,
    S: Fn(&IndexedFile) -> Result<Option<String>, String>,
    E: Fn(&IndexedFile) -> Option<String>,
    C: Fn() -> bool,
    T: Fn(&IndexedFile) -> Result<Option<String>, String>,
    F: Fn(&IndexedFile) -> Option<String>,
    D: Fn() -> bool,
>(
    leases: Map<u64, Context<Arc<Snapshot>, P>>,
    changes: Seq<Change<Arc<Snapshot>, P>>,
    token: u64,
    first: Asked,
    second: Asked,
    tree: Hierarchy,
    coverage: Coverage,
    keys: Seq<(SortField, bool)>,
    request: PageRequest,
    other: PageRequest,
    stored: S,
    extract: E,
    cancelled: C,
    restored: T,
    reextract: F,
    recancelled: D,
    content: spec_fn(IndexedFile) -> Option<Seq<char>>,
    extracted: spec_fn(IndexedFile) -> Option<Seq<char>>,
    later: spec_fn(IndexedFile) -> Option<Seq<char>>,
    prepared: Result<(Search, bool), String>,
    whole: Result<Page, String>,
    reprepared: Result<(Search, bool), String>,
    window: Result<Page, String>,
)
    requires
        leases.dom().contains(token),
        spares(changes, token),
        search::asks_the_same(first, second),
        first.asks(Question::Content) ==> extracted == later,
        search::extracted_as(extract, extracted),
        search::extracted_as(reextract, later),
        search::left_alone(
            first,
            *leases[token].snapshot,
            tree,
            coverage,
            stored,
            extract,
            cancelled,
            content,
            prepared,
        ),
        search::left_alone(
            second,
            *leases[token].snapshot,
            tree,
            coverage,
            restored,
            reextract,
            recancelled,
            content,
            reprepared,
        ),
        answered(
            leases,
            token,
            first,
            tree,
            coverage,
            keys,
            request,
            stored,
            extract,
            cancelled,
            prepared,
            whole,
        ),
        answered(
            after_changes(leases, changes),
            token,
            second,
            tree,
            coverage,
            keys,
            other,
            restored,
            reextract,
            recancelled,
            reprepared,
            window,
        ),
        request.anchor is None,
        other.anchor is None,
        request.offset == 0,
        whole matches Ok(page) ==> page.total <= request.limit,
    ensures
        whole is Ok,
        window is Ok,
        window->Ok_0.total == whole->Ok_0.total,
        whole->Ok_0.slots@.len() == whole->Ok_0.total,
        window->Ok_0.slots@ == whole->Ok_0.slots@.subrange(
            paging::smaller(other.offset as int, whole->Ok_0.total as int),
            paging::smaller(other.offset + other.limit, whole->Ok_0.total as int),
        ),
        snapshot::listed_in_order(
            leases[token].snapshot.rows(),
            keys,
            whole->Ok_0.slots@,
        ),
        whole->Ok_0.slots@.no_duplicates(),
{
    let listing = lemma_pages_of_one_listing(
        leases,
        changes,
        token,
        first,
        second,
        tree,
        coverage,
        keys,
        request,
        other,
        stored,
        extract,
        cancelled,
        restored,
        reextract,
        recancelled,
        content,
        extracted,
        later,
        prepared,
        whole,
        reprepared,
        window,
    );
    assert(whole->Ok_0.slots@ =~= listing);
    snapshot::lemma_listing_distinct(leases[token].snapshot.rows(), keys, listing);
}

/// A request that names a generation is answered from that generation or refused.
pub proof fn law_a_request_is_answered_from_the_generation_it_names<S, P>(
    leases: Map<u64, Context<S, P>>,
    token: u64,
    generation: u64,
    query: bool,
)
    ensures
        leased(leases, token, Some(generation), query) matches Ok(context)
            ==> context.generation == generation,
{
}

} // verus!
