//! The rows that a query matches, and pages of them.
use crate::bitmaps;
use crate::bitmaps::{slot_list, subtract};
use crate::cancellation;
use crate::files::IndexedFile;
use crate::metadata_postings;
use crate::metadata_postings::MetadataPostings;
use crate::paging;
use crate::paging::{query_page_by, Page, PageRequest};
use crate::query::evaluate;
use crate::query::evaluate::{ask, Mode, Question};
use crate::query::laws;
use crate::query::model;
use crate::query::model::{Query, QueryView};
use crate::relations::hierarchy::{Coverage, Hierarchy};
use crate::relations::resolve;
use crate::relations::resolve::{resolve_all, resolve_by};
use crate::result_order::{ResultOrder, SortField};
use crate::slot_order::SlotOrder;
use crate::snapshot;
use crate::snapshot::Snapshot;
use crate::text;
use roaring::RoaringBitmap;
use vstd::prelude::*;

verus! {

/// A query with the queries whose rows are left out. `metadata_only` asks for the rows that may
/// match once their properties and contents are extracted; nothing is extracted `offline`.
pub struct Search {
    pub query: Query,
    pub excludes: Vec<Query>,
    pub metadata_only: bool,
    pub offline: bool,
}

/// Stored contents are found as by a function of the row.
pub open spec fn stored_as<S: Fn(&IndexedFile) -> Result<Option<String>, String>>(
    stored: S,
    body: spec_fn(IndexedFile) -> Option<Seq<char>>,
) -> bool {
    forall|file: &IndexedFile, said: Option<String>| #[trigger]
        call_ensures(stored, (file,), Ok(said)) ==> body(*file) == text_view(said)
}

/// Contents are extracted as by a function of the row.
pub open spec fn extracted_as<E: Fn(&IndexedFile) -> Option<String>>(
    extract: E,
    body: spec_fn(IndexedFile) -> Option<Seq<char>>,
) -> bool {
    forall|file: &IndexedFile, said: Option<String>| #[trigger]
        call_ensures(extract, (file,), said) ==> body(*file) == text_view(said)
}

pub open spec fn text_view(text: Option<String>) -> Option<Seq<char>> {
    match text {
        Some(body) => Some(body@),
        None => None,
    }
}

impl Search {
    /// No relation is left to resolve.
    pub open spec fn resolved(&self) -> bool {
        &&& !laws::relates(self.query@)
        &&& forall|i: int| 0 <= i < self.excludes@.len() ==> !laws::relates(
            (#[trigger] self.excludes@[i])@,
        )
    }

    /// Some part asks for contents.
    pub open spec fn needs_content(&self) -> bool {
        !self.metadata_only && (evaluate::asks(self.query@, Question::Content) || exists|i: int|
            0 <= i < self.excludes@.len() && evaluate::asks(
                (#[trigger] self.excludes@[i])@,
                Question::Content,
            ))
    }

    /// A row is left out.
    pub open spec fn excludes_row(&self, file: IndexedFile, body: Option<Seq<char>>) -> bool {
        exists|i: int|
            0 <= i < self.excludes@.len() && evaluate::available_verdict(
                (#[trigger] self.excludes@[i])@,
                file,
                body,
            ) is True
    }

    /// A row is a result.
    pub open spec fn matches_row(&self, file: IndexedFile, body: Option<Seq<char>>) -> bool {
        if self.metadata_only {
            evaluate::lenient(evaluate::verdict(Mode::Extraction, self.query@, file, None)) is True
        } else {
            evaluate::available_verdict(self.query@, file, body) is True && !self.excludes_row(
                file,
                body,
            )
        }
    }

    /// Asking whether a row is left out comes to an expression: that of a part before which no
    /// other leaves the row out.
    pub open spec fn exclusion_reaches(&self, file: IndexedFile, body: Option<Seq<char>>) -> bool {
        exists|i: int|
            0 <= i < self.excludes@.len() && evaluate::available_reaches(
                (#[trigger] self.excludes@[i])@,
                file,
                body,
            ) && forall|j: int|
                0 <= j < i ==> !(evaluate::available_verdict(
                    (#[trigger] self.excludes@[j])@,
                    file,
                    body,
                ) is True)
    }

    /// Judging a row by its contents comes to an expression.
    pub open spec fn row_reaches(&self, file: IndexedFile, body: Option<Seq<char>>) -> bool {
        if self.metadata_only {
            evaluate::reaches(Mode::Extraction, self.query@, file, None)
        } else {
            self.exclusion_reaches(file, body) || evaluate::available_reaches(
                self.query@,
                file,
                body,
            )
        }
    }

    /// What is known of a row without its contents leaves it possible as a result.
    pub open spec fn possible(&self, file: IndexedFile) -> bool {
        evaluate::lenient(evaluate::verdict(Mode::Metadata, self.query@, file, None)) is True
    }

    /// The contents by which a row is judged: stored ones, or those that are extracted now.
    pub open spec fn body_of(
        &self,
        file: IndexedFile,
        stored: spec_fn(IndexedFile) -> Option<Seq<char>>,
        extracted: spec_fn(IndexedFile) -> Option<Seq<char>>,
    ) -> Option<Seq<char>> {
        if !self.needs_content() {
            None
        } else if stored(file) is Some {
            stored(file)
        } else if self.offline {
            None
        } else {
            extracted(file)
        }
    }

    /// Everything is a result.
    pub open spec fn takes_everything(&self) -> bool {
        self.query is All && (self.metadata_only || self.excludes@.len() == 0)
    }
}

/// The slots among some whose rows are results.
pub open spec fn results_in(
    search: Search,
    rows: Seq<IndexedFile>,
    live: Set<u32>,
    list: Seq<u32>,
    stored: spec_fn(IndexedFile) -> Option<Seq<char>>,
    extracted: spec_fn(IndexedFile) -> Option<Seq<char>>,
) -> Set<u32> {
    Set::new(
        |slot: u32|
            list.contains(slot) && live.contains(slot) && search.matches_row(
                rows[slot as int],
                search.body_of(rows[slot as int], stored, extracted),
            ),
    )
}

/// The slots whose rows are results, of the live ones or of candidates among them.
pub open spec fn results(
    search: Search,
    state: Snapshot,
    candidates: Option<&RoaringBitmap>,
    stored: spec_fn(IndexedFile) -> Option<Seq<char>>,
    extracted: spec_fn(IndexedFile) -> Option<Seq<char>>,
) -> Set<u32> {
    Set::new(
        |slot: u32|
            state.slots().contains(slot) && (candidates matches Some(set) ==> bitmaps::slots_in(
                *set,
            ).contains(slot)) && search.matches_row(
                state.rows()[slot as int],
                search.body_of(state.rows()[slot as int], stored, extracted),
            ),
    )
}

/// There is a row to look at: a candidate, or a live row.
pub open spec fn looks_at_some(state: Snapshot, candidates: Option<&RoaringBitmap>) -> bool {
    match candidates {
        Some(set) => bitmaps::slots_in(*set) != Set::<u32>::empty(),
        None => state.slots() != Set::<u32>::empty(),
    }
}

/// Contents are those by which a row is judged, where stored and extracted ones are found as by
/// functions of the row.
pub open spec fn judged_by<
    S: Fn(&IndexedFile) -> Result<Option<String>, String>,
    E: Fn(&IndexedFile) -> Option<String>,
>(search: Search, file: IndexedFile, stored: S, extract: E, body: Option<Seq<char>>) -> bool {
    forall|
        s: spec_fn(IndexedFile) -> Option<Seq<char>>,
        e: spec_fn(IndexedFile) -> Option<Seq<char>>,
    | #[trigger]
        stored_as(stored, s) && #[trigger] extracted_as(extract, e) ==> body == search.body_of(
            file,
            s,
            e,
        )
}

/// Judging a row comes to an expression: before its contents are looked for, or with them where
/// the row is possible without.
pub open spec fn search_reaches<
    S: Fn(&IndexedFile) -> Result<Option<String>, String>,
    E: Fn(&IndexedFile) -> Option<String>,
>(search: Search, file: IndexedFile, stored: S, extract: E) -> bool {
    ||| search.needs_content() && evaluate::reaches(Mode::Metadata, search.query@, file, None)
    ||| (search.needs_content() ==> search.possible(file)) && exists|body: Option<Seq<char>>|
        #[trigger] search.row_reaches(file, body) && judged_by(search, file, stored, extract, body)
}

/// A slot is looked at: one that is live and, where there are candidates, among them.
pub open spec fn looks_at(state: Snapshot, candidates: Option<&RoaringBitmap>, slot: u32) -> bool {
    state.slots().contains(slot) && (candidates matches Some(set) ==> bitmaps::slots_in(
        *set,
    ).contains(slot))
}

/// Why a search fails: it was cancelled, stored contents could not be read, or an expression
/// search failed that judging a row comes to.
pub open spec fn search_fails<
    S: Fn(&IndexedFile) -> Result<Option<String>, String>,
    E: Fn(&IndexedFile) -> Option<String>,
    C: Fn() -> bool,
>(
    search: Search,
    state: Snapshot,
    candidates: Option<&RoaringBitmap>,
    stored: S,
    extract: E,
    cancelled: C,
    reason: String,
) -> bool {
    ||| reason@ == "Query cancelled"@ && call_ensures(cancelled, (), true)
    ||| search.needs_content() && exists|file: &IndexedFile| #[trigger]
        call_ensures(stored, (file,), Err(reason))
    ||| text::begins(reason@, "PCRE2 matching failed: "@) && exists|slot: u32| #[trigger]
        looks_at(state, candidates, slot) && search_reaches(
            search,
            state.rows()[slot as int],
            stored,
            extract,
        )
}

fn any_exclude_needs_content(search: &Search) -> (found: bool)
    ensures
        found == exists|i: int|
            0 <= i < search.excludes@.len() && evaluate::asks(
                (#[trigger] search.excludes@[i])@,
                Question::Content,
            ),
{
    let mut next: usize = 0;
    while next < search.excludes.len()
        invariant
            next <= search.excludes@.len(),
            forall|i: int|
                0 <= i < next ==> !evaluate::asks(
                    (#[trigger] search.excludes@[i])@,
                    Question::Content,
                ),
        decreases search.excludes@.len() - next,
    {
        if search.excludes[next].requires_content() {
            return true;
        }
        next = next + 1;
    }
    false
}

impl Search {
    /// Whether contents have to be read.
    pub fn requires_content(&self) -> (needed: bool)
        ensures
            needed == self.needs_content(),
    {
        !self.metadata_only && (self.query.requires_content() || any_exclude_needs_content(self))
    }

    /// Whether every live row is a result.
    pub fn all_files(&self) -> (all: bool)
        ensures
            all == self.takes_everything(),
    {
        let everything = match &self.query {
            Query::All => true,
            _ => false,
        };
        everything && (self.metadata_only || self.excludes.len() == 0)
    }

    fn leaves_out(&self, file: &IndexedFile, body: Option<&str>) -> (result: Result<bool, String>)
        requires
            self.resolved(),
        ensures
            match result {
                Ok(out) => out == self.excludes_row(*file, evaluate::content_view(body)),
                Err(reason) => self.exclusion_reaches(*file, evaluate::content_view(body))
                    && text::begins(reason@, "PCRE2 matching failed: "@),
            },
    {
        let ghost given = evaluate::content_view(body);
        let mut next: usize = 0;
        while next < self.excludes.len()
            invariant
                next <= self.excludes@.len(),
                self.resolved(),
                given == evaluate::content_view(body),
                forall|i: int|
                    0 <= i < next ==> !(evaluate::available_verdict(
                        (#[trigger] self.excludes@[i])@,
                        *file,
                        given,
                    ) is True),
            decreases self.excludes@.len() - next,
        {
            proof {
                laws::lemma_available_resolved(self.excludes@[next as int]@, *file, given);
            }
            match self.excludes[next].matches_available(file, body) {
                Ok(out) => {
                    if out {
                        return Ok(true);
                    }
                },
                Err(reason) => {
                    return Err(reason);
                },
            }
            next = next + 1;
        }
        Ok(false)
    }

    /// Whether a row with these contents is a result.
    pub fn accepts(&self, file: &IndexedFile, body: Option<&str>) -> (result: Result<bool, String>)
        requires
            self.resolved(),
        ensures
            match result {
                Ok(found) => found == self.matches_row(*file, evaluate::content_view(body)),
                Err(reason) => self.row_reaches(*file, evaluate::content_view(body))
                    && text::begins(reason@, "PCRE2 matching failed: "@),
            },
    {
        proof {
            laws::lemma_available_resolved(self.query@, *file, evaluate::content_view(body));
        }
        if self.metadata_only {
            return self.query.may_match_before_extraction(file);
        }
        match self.leaves_out(file, body) {
            Ok(out) => match self.query.matches_available(file, body) {
                Ok(found) => Ok(found && !out),
                Err(reason) => Err(reason),
            },
            Err(reason) => Err(reason),
        }
    }

    /// Whether a row is a result, by the contents that are stored or can be extracted.
    fn accepts_row<
        S: Fn(&IndexedFile) -> Result<Option<String>, String>,
        E: Fn(&IndexedFile) -> Option<String>,
    >(&self, file: &IndexedFile, needs: bool, stored: &S, extract: &E) -> (result: Result<
        bool,
        String,
    >)
        requires
            self.resolved(),
            needs == self.needs_content(),
            forall|f: &IndexedFile| #[trigger] call_requires(*stored, (f,)),
            forall|f: &IndexedFile| #[trigger] call_requires(*extract, (f,)),
        ensures
            match result {
                Ok(found) => forall|
                    s: spec_fn(IndexedFile) -> Option<Seq<char>>,
                    e: spec_fn(IndexedFile) -> Option<Seq<char>>,
                | #[trigger]
                    stored_as(*stored, s) && #[trigger] extracted_as(*extract, e) ==> found
                        == self.matches_row(*file, self.body_of(*file, s, e)),
                Err(reason) => {
                    ||| needs && call_ensures(*stored, (file,), Err(reason))
                    ||| text::begins(reason@, "PCRE2 matching failed: "@) && search_reaches(
                        *self,
                        *file,
                        *stored,
                        *extract,
                    )
                },
            },
    {
        if !needs {
            assert(judged_by(*self, *file, *stored, *extract, None));
            return self.accepts(file, None);
        }
        match self.query.may_match_without_content(file) {
            Ok(possible) => {
                if !possible {
                    proof {
                        assert forall|
                            s: spec_fn(IndexedFile) -> Option<Seq<char>>,
                            e: spec_fn(IndexedFile) -> Option<Seq<char>>,
                        | #[trigger]
                            stored_as(*stored, s) && #[trigger] extracted_as(
                                *extract,
                                e,
                            ) implies !self.matches_row(*file, self.body_of(*file, s, e)) by {
                            laws::law_what_metadata_excludes_stays_excluded(
                                self.query@,
                                *file,
                                self.body_of(*file, s, e),
                            );
                        }
                    }
                    return Ok(false);
                }
            },
            Err(reason) => {
                proof {
                    laws::lemma_metadata_resolved(self.query@, *file);
                }
                return Err(reason);
            },
        }
        let kept = match stored(file) {
            Ok(kept) => kept,
            Err(reason) => {
                return Err(reason);
            },
        };
        match kept {
            Some(body) => {
                assert(judged_by(*self, *file, *stored, *extract, Some(body@)));
                self.accepts(file, Some(body.as_str()))
            },
            None => {
                if self.offline {
                    assert(judged_by(*self, *file, *stored, *extract, None));
                    return self.accepts(file, None);
                }
                match extract(file) {
                    Some(body) => {
                        assert(judged_by(*self, *file, *stored, *extract, Some(body@)));
                        self.accepts(file, Some(body.as_str()))
                    },
                    None => {
                        assert(judged_by(*self, *file, *stored, *extract, None));
                        self.accepts(file, None)
                    },
                }
            },
        }
    }

    /// The live slots whose rows are results. Candidates may name more slots than that, also
    /// slots whose rows are gone. `stored` gives the contents that the index keeps of a row,
    /// `extract` reads them anew.
    pub fn match_rows<
        S: Fn(&IndexedFile) -> Result<Option<String>, String>,
        E: Fn(&IndexedFile) -> Option<String>,
        C: Fn() -> bool,
    >(
        &self,
        state: &Snapshot,
        candidates: Option<&RoaringBitmap>,
        stored: S,
        extract: E,
        cancelled: C,
    ) -> (result: Result<RoaringBitmap, String>)
        requires
            state.wf(),
            self.resolved(),
            forall|f: &IndexedFile| #[trigger] call_requires(stored, (f,)),
            forall|f: &IndexedFile| #[trigger] call_requires(extract, (f,)),
            call_requires(cancelled, ()),
        ensures
            match result {
                Ok(matched) => {
                    &&& bitmaps::slots_in(matched).subset_of(state.slots())
                    &&& forall|
                        s: spec_fn(IndexedFile) -> Option<Seq<char>>,
                        e: spec_fn(IndexedFile) -> Option<Seq<char>>,
                    | #[trigger]
                        stored_as(stored, s) && #[trigger] extracted_as(extract, e)
                            ==> bitmaps::slots_in(matched) == results(*self, *state, candidates, s, e)
                },
                Err(reason) => search_fails(
                    *self,
                    *state,
                    candidates,
                    stored,
                    extract,
                    cancelled,
                    reason,
                ),
            },
            cancellation::always(cancelled) && looks_at_some(*state, candidates) ==> result is Err,
    {
        self.match_rows_by(state, candidates, &stored, &extract, &cancelled)
    }

    pub(crate) fn match_rows_by<
        S: Fn(&IndexedFile) -> Result<Option<String>, String>,
        E: Fn(&IndexedFile) -> Option<String>,
        C: Fn() -> bool,
    >(
        &self,
        state: &Snapshot,
        candidates: Option<&RoaringBitmap>,
        stored: &S,
        extract: &E,
        cancelled: &C,
    ) -> (result: Result<RoaringBitmap, String>)
        requires
            state.wf(),
            self.resolved(),
            forall|f: &IndexedFile| #[trigger] call_requires(*stored, (f,)),
            forall|f: &IndexedFile| #[trigger] call_requires(*extract, (f,)),
            call_requires(*cancelled, ()),
        ensures
            match result {
                Ok(matched) => {
                    &&& bitmaps::slots_in(matched).subset_of(state.slots())
                    &&& forall|
                        s: spec_fn(IndexedFile) -> Option<Seq<char>>,
                        e: spec_fn(IndexedFile) -> Option<Seq<char>>,
                    | #[trigger]
                        stored_as(*stored, s) && #[trigger] extracted_as(*extract, e)
                            ==> bitmaps::slots_in(matched) == results(*self, *state, candidates, s, e)
                },
                Err(reason) => search_fails(
                    *self,
                    *state,
                    candidates,
                    *stored,
                    *extract,
                    *cancelled,
                    reason,
                ),
            },
            cancellation::always(*cancelled) && looks_at_some(*state, candidates) ==> result is Err,
    {
        let needs = self.requires_content();
        let list = match candidates {
            Some(set) => slot_list(set),
            None => slot_list(&state.live),
        };
        let ghost rows = state.rows();
        let ghost live = state.slots();
        assert(list@.len() == 0 ==> list@.to_set() =~= Set::<u32>::empty());
        let mut matched = RoaringBitmap::new();
        let mut next: usize = 0;
        proof {
            assert forall|
                s: spec_fn(IndexedFile) -> Option<Seq<char>>,
                e: spec_fn(IndexedFile) -> Option<Seq<char>>,
            | #[trigger]
                stored_as(*stored, s) && #[trigger] extracted_as(*extract, e) implies bitmaps::slots_in(
                matched,
            ) == results_in(*self, rows, live, list@.take(0), s, e) by {
                assert(bitmaps::slots_in(matched) =~= results_in(
                    *self,
                    rows,
                    live,
                    list@.take(0),
                    s,
                    e,
                ));
            }
        }
        while next < list.len()
            invariant
                next <= list@.len(),
                next > 0 ==> !cancellation::always(*cancelled),
                candidates matches Some(set) ==> list@.to_set() == bitmaps::slots_in(*set),
                state.wf(),
                self.resolved(),
                needs == self.needs_content(),
                rows == state.rows(),
                live == state.slots(),
                forall|f: &IndexedFile| #[trigger] call_requires(*stored, (f,)),
                forall|f: &IndexedFile| #[trigger] call_requires(*extract, (f,)),
                call_requires(*cancelled, ()),
                bitmaps::slots_in(matched).subset_of(live),
                forall|
                    s: spec_fn(IndexedFile) -> Option<Seq<char>>,
                    e: spec_fn(IndexedFile) -> Option<Seq<char>>,
                | #[trigger]
                    stored_as(*stored, s) && #[trigger] extracted_as(*extract, e)
                        ==> bitmaps::slots_in(matched) == results_in(
                        *self,
                        rows,
                        live,
                        list@.take(next as int),
                        s,
                        e,
                    ),
            decreases list@.len() - next,
        {
            if cancelled() {
                return Err("Query cancelled".to_owned());
            }
            let slot = list[next];
            let ghost before = bitmaps::slots_in(matched);
            let ghost (part, done) = (list@.take(next + 1), list@.take(next as int));
            let mut found = false;
            if state.live.contains(slot) {
                let file = &state.entries[slot as usize];
                found = match self.accepts_row(file, needs, stored, extract) {
                    Ok(found) => found,
                    Err(reason) => {
                        proof {
                            assert(list@.contains(slot));
                            assert(list@.to_set().contains(slot));
                            assert(looks_at(*state, candidates, slot));
                        }
                        return Err(reason);
                    },
                };
            }
            if found {
                matched.insert(slot);
            }
            proof {
                assert(part =~= done.push(slot));
                assert forall|
                    s: spec_fn(IndexedFile) -> Option<Seq<char>>,
                    e: spec_fn(IndexedFile) -> Option<Seq<char>>,
                | #[trigger]
                    stored_as(*stored, s) && #[trigger] extracted_as(
                        *extract,
                        e,
                    ) implies bitmaps::slots_in(matched) == results_in(
                    *self,
                    rows,
                    live,
                    part,
                    s,
                    e,
                ) by {
                    let want = results_in(*self, rows, live, part, s, e);
                    assert(before == results_in(*self, rows, live, done, s, e));
                    assert forall|t: u32| #[trigger]
                        bitmaps::slots_in(matched).contains(t) == want.contains(t) by {
                        assert(part.contains(t) == (done.contains(t) || t == slot)) by {
                            if part.contains(t) {
                                let k = choose|k: int| 0 <= k < part.len() && part[k] == t;
                                if k < done.len() {
                                    assert(done[k] == t);
                                }
                            }
                            if done.contains(t) {
                                let k = choose|k: int| 0 <= k < done.len() && done[k] == t;
                                assert(part[k] == t);
                            }
                            assert(part[next as int] == slot);
                        }
                    }
                    assert(bitmaps::slots_in(matched) =~= want);
                }
            }
            next = next + 1;
        }
        proof {
            assert(list@.take(next as int) =~= list@);
            assert forall|
                s: spec_fn(IndexedFile) -> Option<Seq<char>>,
                e: spec_fn(IndexedFile) -> Option<Seq<char>>,
            | #[trigger]
                stored_as(*stored, s) && #[trigger] extracted_as(*extract, e) implies bitmaps::slots_in(
                matched,
            ) == results(*self, *state, candidates, s, e) by {
                let want = results(*self, *state, candidates, s, e);
                assert forall|t: u32| #[trigger]
                    bitmaps::slots_in(matched).contains(t) == want.contains(t) by {
                    assert(list@.to_set().contains(t) == list@.contains(t));
                }
                assert(bitmaps::slots_in(matched) =~= want);
            }
        }
        Ok(matched)
    }

    /// A page of the results. Without candidates every live row is judged.
    pub fn page<
        S: Fn(&IndexedFile) -> Result<Option<String>, String>,
        E: Fn(&IndexedFile) -> Option<String>,
        C: Fn() -> bool,
    >(
        &self,
        state: &Snapshot,
        candidates: Option<&RoaringBitmap>,
        cached: Option<&SlotOrder>,
        keys: &ResultOrder,
        request: &PageRequest,
        stored: S,
        extract: E,
        cancelled: C,
    ) -> (result: Result<Page, String>)
        requires
            state.wf(),
            self.resolved(),
            candidates is Some ==> !self.takes_everything(),
            cached matches Some(order) ==> order.wf() && snapshot::is_listing(
                state.rows(),
                keys.keys@,
                state.slots(),
                order@,
            ),
            forall|f: &IndexedFile| #[trigger] call_requires(stored, (f,)),
            forall|f: &IndexedFile| #[trigger] call_requires(extract, (f,)),
            call_requires(cancelled, ()),
        ensures
            answers(
                *self,
                *state,
                candidates,
                keys.keys@,
                *request,
                stored,
                extract,
                cancelled,
                result,
            ),
            cancellation::always(cancelled) ==> result is Err,
    {
        if self.all_files() {
            let page = query_page_by(state, None, cached, keys, request, &cancelled);
            proof {
                assert forall|
                    s: spec_fn(IndexedFile) -> Option<Seq<char>>,
                    e: spec_fn(IndexedFile) -> Option<Seq<char>>,
                | #[trigger]
                    stored_as(stored, s) && #[trigger] extracted_as(extract, e) implies results(
                    *self,
                    *state,
                    candidates,
                    s,
                    e,
                ) == state.slots() by {
                    assert(results(*self, *state, candidates, s, e) =~= state.slots());
                }
            }
            return page;
        }
        let matched = match self.match_rows_by(state, candidates, &stored, &extract, &cancelled) {
            Ok(matched) => matched,
            Err(reason) => {
                return Err(reason);
            },
        };
        query_page_by(state, Some(&matched), cached, keys, request, &cancelled)
    }
}

/// What a search answers to a request: the page of its results, or why it fails.
pub open spec fn answers<
    S: Fn(&IndexedFile) -> Result<Option<String>, String>,
    E: Fn(&IndexedFile) -> Option<String>,
    C: Fn() -> bool,
>(
    search: Search,
    state: Snapshot,
    candidates: Option<&RoaringBitmap>,
    keys: Seq<(SortField, bool)>,
    request: PageRequest,
    stored: S,
    extract: E,
    cancelled: C,
    result: Result<Page, String>,
) -> bool {
    match result {
        Ok(found) => forall|
            s: spec_fn(IndexedFile) -> Option<Seq<char>>,
            e: spec_fn(IndexedFile) -> Option<Seq<char>>,
        | #[trigger]
            stored_as(stored, s) && #[trigger] extracted_as(extract, e) ==> exists|
                listing: Seq<u32>,
            | #[trigger]
                snapshot::is_listing(
                    state.rows(),
                    keys,
                    results(search, state, candidates, s, e),
                    listing,
                ) && paging::shows(found, state.rows(), listing, request),
        Err(reason) => search_fails(
            search,
            state,
            candidates,
            stored,
            extract,
            cancelled,
            reason,
        ),
    }
}

/// A query as it was parsed, with the parsed queries whose rows are left out.
pub struct Asked {
    pub query: Query,
    pub excludes: Vec<Query>,
    pub metadata_only: bool,
    pub offline: bool,
}

impl Asked {
    /// Directories have to be consulted.
    pub open spec fn is_relational(&self) -> bool {
        evaluate::asks(self.query@, Question::Relations) || exists|i: int|
            0 <= i < self.excludes@.len() && evaluate::asks(
                (#[trigger] self.excludes@[i])@,
                Question::Relations,
            )
    }
}

impl Asked {
    /// Relations are about rows of which something is asked.
    pub open spec fn relations_ask(&self, question: Question) -> bool {
        resolve::relation_asks(self.query@, question) || resolve::any_relation_asks(
            model::query_views(self.excludes@),
            question,
        )
    }

    /// Something is asked, of rows or of those that relations are about.
    pub open spec fn asks(&self, question: Question) -> bool {
        ||| evaluate::asks(self.query@, question)
        ||| one_asks(self.excludes@, question)
        ||| self.relations_ask(question)
    }
}

/// A search is what was asked with its relations settled. What is extracted for a relation are
/// the children, not the directories: asked for what to extract, it names every row.
pub open spec fn stands_for(
    search: Search,
    asked: Asked,
    state: Snapshot,
    tree: Hierarchy,
    coverage: Coverage,
    content: spec_fn(IndexedFile) -> Option<Seq<char>>,
) -> bool {
    &&& search.metadata_only == asked.metadata_only
    &&& search.offline == asked.offline
    &&& if !asked.is_relational() {
        search.query@ == asked.query@ && model::query_views(search.excludes@) == model::query_views(
            asked.excludes@,
        )
    } else if asked.metadata_only {
        search.query is All && search.excludes@.len() == 0
    } else {
        &&& search.query@ == resolve::settled(tree, state, coverage, content, asked.query@)
        &&& model::query_views(search.excludes@) == resolve::settled_all(
            tree,
            state,
            coverage,
            content,
            model::query_views(asked.excludes@),
        )
    }
}

/// Why a search cannot be prepared.
pub open spec fn preparation_fails<
    S: Fn(&IndexedFile) -> Result<Option<String>, String>,
    C: Fn() -> bool,
>(
    asked: Asked,
    state: Snapshot,
    tree: Hierarchy,
    coverage: Coverage,
    stored: S,
    cancelled: C,
    reason: String,
) -> bool {
    resolve::resolve_fails(
        asked.relations_ask(Question::Expressions),
        asked.relations_ask(Question::Content),
        |c: spec_fn(IndexedFile) -> Option<Seq<char>>|
            resolve::relation_reaches(tree, state, coverage, c, asked.query@)
                || resolve::any_relation_reaches(
                tree,
                state,
                coverage,
                c,
                model::query_views(asked.excludes@),
            ),
        stored,
        cancelled,
        reason,
    )
}

/// One of some queries asks a question.
pub open spec fn one_asks(queries: Seq<Query>, question: Question) -> bool {
    exists|i: int| 0 <= i < queries.len() && evaluate::asks((#[trigger] queries[i])@, question)
}

fn any_asks(queries: &Vec<Query>, question: Question) -> (found: bool)
    ensures
        found == one_asks(queries@, question),
{
    let mut next: usize = 0;
    while next < queries.len()
        invariant
            next <= queries@.len(),
            forall|i: int| 0 <= i < next ==> !evaluate::asks((#[trigger] queries@[i])@, question),
        decreases queries@.len() - next,
    {
        if ask(&queries[next], question) {
            return true;
        }
        next = next + 1;
    }
    false
}

/// What may be kept of an answer for the same question on the same snapshot.
#[derive(Clone, Copy, Debug, PartialEq, Eq, Structural)]
pub struct Reuse {
    /// The page, as long as it is asked for with the same order, place and anchor.
    pub page: bool,
    /// The rows that match; not where these are all.
    pub matches: bool,
    /// Only within the same second and zone: a date is compared.
    pub clock: bool,
}

impl Asked {
    /// Every row is named because relations are not settled for an extraction.
    pub open spec fn names_every_row(&self) -> bool {
        self.is_relational() && self.metadata_only
    }

    /// What may be kept: nothing where contents are read, which change without the snapshot.
    pub open spec fn reusable(&self) -> Reuse {
        let every = self.names_every_row();
        let reads = !self.metadata_only && (evaluate::asks(self.query@, Question::Content)
            || one_asks(self.excludes@, Question::Content));
        let all = (every || self.query is All) && (self.metadata_only || self.excludes@.len() == 0);
        Reuse {
            page: !reads,
            matches: !reads && !all,
            clock: !every && (evaluate::asks(self.query@, Question::Clock) || one_asks(
                self.excludes@,
                Question::Clock,
            )),
        }
    }

    /// Decide what may be kept of the answer.
    pub fn reuse(&self) -> (reuse: Reuse)
        ensures
            reuse == self.reusable(),
    {
        let relational = self.query.requires_relations() || any_asks(
            &self.excludes,
            Question::Relations,
        );
        let every = relational && self.metadata_only;
        let reads = !self.metadata_only && (self.query.requires_content() || any_asks(
            &self.excludes,
            Question::Content,
        ));
        let plain = match self.query {
            Query::All => true,
            _ => false,
        };
        let all = (every || plain) && (self.metadata_only || self.excludes.len() == 0);
        Reuse {
            page: !reads,
            matches: !reads && !all,
            clock: !every && (self.query.may_depend_on_clock() || any_asks(
                &self.excludes,
                Question::Clock,
            )),
        }
    }
}

/// What is kept needs no contents: the results are the same whatever is stored or extracted.
pub proof fn law_kept_results_need_no_contents(
    search: Search,
    state: Snapshot,
    candidates: Option<&RoaringBitmap>,
    a: (spec_fn(IndexedFile) -> Option<Seq<char>>, spec_fn(IndexedFile) -> Option<Seq<char>>),
    b: (spec_fn(IndexedFile) -> Option<Seq<char>>, spec_fn(IndexedFile) -> Option<Seq<char>>),
)
    requires
        !search.needs_content(),
    ensures
        results(search, state, candidates, a.0, a.1) == results(
            search,
            state,
            candidates,
            b.0,
            b.1,
        ),
{
    assert(results(search, state, candidates, a.0, a.1) =~= results(
        search,
        state,
        candidates,
        b.0,
        b.1,
    ));
}

/// What preparing gives: the search, with whether it has relations, or why it cannot be prepared.
pub open spec fn prepares<
    S: Fn(&IndexedFile) -> Result<Option<String>, String>,
    C: Fn() -> bool,
>(
    asked: Asked,
    state: Snapshot,
    tree: Hierarchy,
    coverage: Coverage,
    stored: S,
    cancelled: C,
    result: Result<(Search, bool), String>,
) -> bool {
    match result {
        Ok((search, relational)) => {
            &&& relational == asked.is_relational()
            &&& search.resolved()
            &&& forall|c: spec_fn(IndexedFile) -> Option<Seq<char>>| #[trigger]
                stored_as(stored, c) ==> stands_for(search, asked, state, tree, coverage, c)
        },
        Err(reason) => asked.is_relational() && !asked.metadata_only && preparation_fails(
            asked,
            state,
            tree,
            coverage,
            stored,
            cancelled,
            reason,
        ),
    }
}

/// Prepare what was asked for a snapshot: settle its relations. Says too whether it has any.
pub fn prepare<S: Fn(&IndexedFile) -> Result<Option<String>, String>, C: Fn() -> bool>(
    asked: Asked,
    state: &Snapshot,
    tree: &Hierarchy,
    coverage: &Coverage,
    stored: S,
    cancelled: C,
) -> (result: Result<(Search, bool), String>)
    requires
        state.wf(),
        tree.describes(*state),
        forall|f: &IndexedFile| #[trigger] call_requires(stored, (f,)),
        call_requires(cancelled, ()),
    ensures
        prepares(asked, *state, *tree, *coverage, stored, cancelled, result),
        cancellation::always(cancelled) && asked.is_relational() && !asked.metadata_only
            ==> result is Err,
{
    let relational = asked.query.requires_relations() || any_asks(&asked.excludes, Question::Relations);
    if !relational {
        proof {
            laws::lemma_unrelated(asked.query@);
            assert forall|i: int| 0 <= i < asked.excludes@.len() implies !laws::relates(
                (#[trigger] asked.excludes@[i])@,
            ) by {
                laws::lemma_unrelated(asked.excludes@[i]@);
            }
        }
        let search = Search {
            query: asked.query,
            excludes: asked.excludes,
            metadata_only: asked.metadata_only,
            offline: asked.offline,
        };
        return Ok((search, false));
    }
    if asked.metadata_only {
        let search = Search {
            query: Query::All,
            excludes: Vec::new(),
            metadata_only: true,
            offline: asked.offline,
        };
        return Ok((search, true));
    }
    let (query, _open) = match resolve_by(
        asked.query,
        state,
        tree,
        coverage,
        &stored,
        &cancelled,
    ) {
        Ok(found) => found,
        Err(reason) => {
            return Err(reason);
        },
    };
    let (excludes, _more) = match resolve_all(
        asked.excludes,
        state,
        tree,
        coverage,
        &stored,
        &cancelled,
    ) {
        Ok(found) => found,
        Err(reason) => {
            return Err(reason);
        },
    };
    proof {
        model::lemma_query_views(excludes@);
        assert forall|i: int| 0 <= i < excludes@.len() implies !laws::relates(
            (#[trigger] excludes@[i])@,
        ) by {
            laws::lemma_none_relates(model::query_views(excludes@), i);
        }
    }
    let search = Search { query, excludes, metadata_only: false, offline: asked.offline };
    Ok((search, true))
}

/// The live rows of a snapshot by their slots.
pub open spec fn live_rows(state: Snapshot) -> Map<u32, IndexedFile> {
    Map::new(|slot: u32| state.slots().contains(slot), |slot: u32| state.rows()[slot as int])
}

/// What postings answer asks for nothing else, and is the same before extraction.
proof fn lemma_answerable(query: QueryView, file: IndexedFile)
    requires
        metadata_postings::answerable(query),
    ensures
        !evaluate::asks(query, Question::Content),
        !evaluate::asks(query, Question::Relations),
        evaluate::verdict(Mode::Extraction, query, file, None) == evaluate::verdict(
            Mode::Full,
            query,
            file,
            None,
        ),
    decreases query,
{
    match query {
        QueryView::And(children) => lemma_all_answerable(children, true, file),
        QueryView::Or(children) => lemma_all_answerable(children, false, file),
        QueryView::Not(child) => lemma_answerable(*child, file),
        _ => {
            reveal_with_fuel(evaluate::asks, 2);
            reveal_with_fuel(evaluate::term_asks, 2);
        },
    }
}

proof fn lemma_all_answerable(queries: Seq<QueryView>, all: bool, file: IndexedFile)
    requires
        metadata_postings::all_answerable(queries),
    ensures
        !evaluate::any_asks(queries, Question::Content),
        !evaluate::any_asks(queries, Question::Relations),
        evaluate::combined(Mode::Extraction, queries, all, file, None) == evaluate::combined(
            Mode::Full,
            queries,
            all,
            file,
            None,
        ),
    decreases queries,
{
    if queries.len() > 0 {
        lemma_all_answerable(queries.drop_last(), all, file);
        lemma_answerable(queries.last(), file);
    }
}

impl Search {
    /// Postings answer every part that counts.
    pub open spec fn answered_by_postings(&self) -> bool {
        &&& metadata_postings::answerable(self.query@)
        &&& self.metadata_only || forall|i: int|
            0 <= i < self.excludes@.len() ==> metadata_postings::answerable(
                (#[trigger] self.excludes@[i])@,
            )
    }

    /// The live slots whose rows are results, without a look at any row. `None` where some part
    /// needs such a look.
    pub fn exact(&self, state: &Snapshot, postings: &MetadataPostings) -> (found: Option<
        RoaringBitmap,
    >)
        requires
            state.wf(),
            postings.wf(),
            postings.describes(live_rows(*state)),
        ensures
            match found {
                Some(matched) => self.answered_by_postings() && forall|
                    s: spec_fn(IndexedFile) -> Option<Seq<char>>,
                    e: spec_fn(IndexedFile) -> Option<Seq<char>>,
                |
                    bitmaps::slots_in(matched) == #[trigger] results(*self, *state, None, s, e),
                None => !self.answered_by_postings(),
            },
    {
        let ghost rows = live_rows(*state);
        let ghost live = state.slots();
        assert(live =~= rows.dom());
        let mut matched = match postings.exact(&self.query, &state.live) {
            Some(matched) => matched,
            None => {
                return None;
            },
        };
        let ghost chosen = metadata_postings::matching(self.query@, rows, live);
        let mut next: usize = 0;
        if !self.metadata_only {
            while next < self.excludes.len()
                invariant
                    next <= self.excludes@.len(),
                    !self.metadata_only,
                    postings.wf(),
                    postings.describes(rows),
                    live == state.slots(),
                    live == rows.dom(),
                    forall|slot: u32| #[trigger]
                        bitmaps::slots_in(matched).contains(slot) == (chosen.contains(slot)
                            && forall|i: int|
                            0 <= i < next ==> !metadata_postings::matching(
                                (#[trigger] self.excludes@[i])@,
                                rows,
                                live,
                            ).contains(slot)),
                    forall|i: int|
                        0 <= i < next ==> metadata_postings::answerable(
                            (#[trigger] self.excludes@[i])@,
                        ),
                decreases self.excludes@.len() - next,
            {
                let left_out = match postings.exact(&self.excludes[next], &state.live) {
                    Some(left_out) => left_out,
                    None => {
                        assert(!metadata_postings::answerable(self.excludes@[next as int]@));
                        return None;
                    },
                };
                subtract(&mut matched, &left_out);
                next = next + 1;
            }
        }
        proof {
            assert forall|
                s: spec_fn(IndexedFile) -> Option<Seq<char>>,
                e: spec_fn(IndexedFile) -> Option<Seq<char>>,
            |
                bitmaps::slots_in(matched) == #[trigger] results(*self, *state, None, s, e) by {
                let want = results(*self, *state, None, s, e);
                assert forall|slot: u32| #[trigger] bitmaps::slots_in(matched).contains(slot)
                    == want.contains(slot) by {
                    if live.contains(slot) {
                        let file = state.rows()[slot as int];
                        assert(rows[slot] == file);
                        lemma_answerable(self.query@, file);
                        metadata_postings::lemma_decided(self.query@, file);
                        assert forall|i: int|
                            !self.metadata_only && 0 <= i
                                < self.excludes@.len() implies evaluate::available_verdict(
                            (#[trigger] self.excludes@[i])@,
                            file,
                            None,
                        ) == evaluate::verdict(Mode::Full, self.excludes@[i]@, file, None)
                            && !evaluate::asks(self.excludes@[i]@, Question::Content) by {
                            lemma_answerable(self.excludes@[i]@, file);
                        }
                        assert(!self.needs_content());
                    }
                }
                assert(bitmaps::slots_in(matched) =~= want);
            }
        }
        Some(matched)
    }
}

/// Two requests ask for the same.
pub open spec fn asks_the_same(a: Asked, b: Asked) -> bool {
    &&& a.query@ == b.query@
    &&& model::query_views(a.excludes@) == model::query_views(b.excludes@)
    &&& a.metadata_only == b.metadata_only
    &&& a.offline == b.offline
}

proof fn lemma_same_parts(a: Asked, b: Asked)
    requires
        asks_the_same(a, b),
    ensures
        a.is_relational() == b.is_relational(),
{
    model::lemma_query_views(a.excludes@);
    model::lemma_query_views(b.excludes@);
    assert forall|i: int| 0 <= i < a.excludes@.len() implies (#[trigger] a.excludes@[i])@
        == b.excludes@[i]@ by {
        assert(model::query_views(a.excludes@)[i] == model::query_views(b.excludes@)[i]);
    }
    assert forall|i: int| 0 <= i < b.excludes@.len() implies (#[trigger] b.excludes@[i])@
        == a.excludes@[i]@ by {
        assert(model::query_views(a.excludes@)[i] == model::query_views(b.excludes@)[i]);
    }
}

/// The same request, prepared for the same snapshot, coverage and stored contents, has the same
/// results, whatever can be extracted meanwhile, unless its contents decide.
pub proof fn law_the_same_request_has_the_same_results(
    first: Asked,
    second: Asked,
    a: Search,
    b: Search,
    state: Snapshot,
    tree: Hierarchy,
    coverage: Coverage,
    stored: spec_fn(IndexedFile) -> Option<Seq<char>>,
    extracted: spec_fn(IndexedFile) -> Option<Seq<char>>,
    later: spec_fn(IndexedFile) -> Option<Seq<char>>,
)
    requires
        asks_the_same(first, second),
        stands_for(a, first, state, tree, coverage, stored),
        stands_for(b, second, state, tree, coverage, stored),
        a.needs_content() ==> extracted == later,
    ensures
        results(a, state, None, stored, extracted) == results(b, state, None, stored, later),
{
    lemma_same_parts(first, second);
    model::lemma_query_views(a.excludes@);
    model::lemma_query_views(b.excludes@);
    assert(a.query@ == b.query@);
    assert(a.excludes@.len() == b.excludes@.len());
    assert forall|i: int| 0 <= i < a.excludes@.len() implies (#[trigger] a.excludes@[i])@
        == b.excludes@[i]@ by {
        assert(model::query_views(a.excludes@)[i] == model::query_views(b.excludes@)[i]);
    }
    assert forall|i: int| 0 <= i < b.excludes@.len() implies (#[trigger] b.excludes@[i])@
        == a.excludes@[i]@ by {
        assert(a.excludes@[i]@ == b.excludes@[i]@);
    }
    assert(a.needs_content() == b.needs_content());
    let (x, y) = (
        results(a, state, None, stored, extracted),
        results(b, state, None, stored, later),
    );
    assert forall|t: u32| #[trigger] x.contains(t) == y.contains(t) by {
        let file = state.rows()[t as int];
        let body = a.body_of(file, stored, extracted);
        assert(body == b.body_of(file, stored, later));
        assert(a.excludes_row(file, body) == b.excludes_row(file, body));
    }
    assert(x =~= y);
}

/// Stored contents can be read.
pub open spec fn readable<S: Fn(&IndexedFile) -> Result<Option<String>, String>>(stored: S) -> bool {
    forall|file: &IndexedFile, reason: String| !#[trigger] call_ensures(stored, (file,), Err(reason))
}

/// A request is left alone: it is not cancelled, the contents that it needs can be read, and
/// neither settling its relations nor judging a row comes to an expression.
pub open spec fn left_alone<
    S: Fn(&IndexedFile) -> Result<Option<String>, String>,
    E: Fn(&IndexedFile) -> Option<String>,
    C: Fn() -> bool,
>(
    asked: Asked,
    state: Snapshot,
    tree: Hierarchy,
    coverage: Coverage,
    stored: S,
    extract: E,
    cancelled: C,
    content: spec_fn(IndexedFile) -> Option<Seq<char>>,
    prepared: Result<(Search, bool), String>,
) -> bool {
    &&& cancellation::never(cancelled)
    &&& asked.asks(Question::Content) ==> readable(stored)
    &&& stored_as(stored, content)
    &&& !resolve::relation_reaches(tree, state, coverage, content, asked.query@)
    &&& !resolve::any_relation_reaches(
        tree,
        state,
        coverage,
        content,
        model::query_views(asked.excludes@),
    )
    &&& prepared matches Ok((search, _)) ==> forall|slot: u32| #[trigger]
        state.slots().contains(slot) ==> !search_reaches(
            search,
            state.rows()[slot as int],
            stored,
            extract,
        )
}

/// A list of queries asks a question exactly if one of them does.
proof fn lemma_views_ask(queries: Seq<Query>, question: Question)
    ensures
        evaluate::any_asks(model::query_views(queries), question) == one_asks(queries, question),
{
    let views = model::query_views(queries);
    model::lemma_query_views(queries);
    evaluate::lemma_any_asks(views, question);
    if evaluate::any_asks(views, question) {
        let i = choose|i: int|
            0 <= i < views.len() && #[trigger] evaluate::asks(views[i], question);
        assert(evaluate::asks(queries[i]@, question));
    }
    if one_asks(queries, question) {
        let i = choose|i: int|
            0 <= i < queries.len() && evaluate::asks((#[trigger] queries[i])@, question);
        assert(evaluate::asks(views[i], question));
    }
}

/// A prepared search asks only what was asked.
proof fn lemma_prepared_asks(
    search: Search,
    asked: Asked,
    state: Snapshot,
    tree: Hierarchy,
    coverage: Coverage,
    content: spec_fn(IndexedFile) -> Option<Seq<char>>,
    question: Question,
)
    requires
        stands_for(search, asked, state, tree, coverage, content),
        question is Content || question is Expressions,
    ensures
        evaluate::asks(search.query@, question) ==> asked.asks(question),
        one_asks(search.excludes@, question) ==> asked.asks(question),
{
    lemma_views_ask(search.excludes@, question);
    lemma_views_ask(asked.excludes@, question);
    resolve::lemma_settled_asks(tree, state, coverage, content, asked.query@);
    resolve::lemma_settled_all_asks(
        tree,
        state,
        coverage,
        content,
        model::query_views(asked.excludes@),
    );
}

/// A search needs contents only where they were asked for.
pub proof fn lemma_prepared_content(
    search: Search,
    asked: Asked,
    state: Snapshot,
    tree: Hierarchy,
    coverage: Coverage,
    content: spec_fn(IndexedFile) -> Option<Seq<char>>,
)
    requires
        stands_for(search, asked, state, tree, coverage, content),
    ensures
        search.needs_content() ==> asked.asks(Question::Content),
{
    lemma_prepared_asks(search, asked, state, tree, coverage, content, Question::Content);
}

/// A request that is left alone is answered: it is prepared, and its page is given. Only where a
/// row comes to an expression does this rest on whether the search for that one gives up.
pub proof fn law_a_request_that_is_left_alone_is_answered<
    S: Fn(&IndexedFile) -> Result<Option<String>, String>,
    E: Fn(&IndexedFile) -> Option<String>,
    C: Fn() -> bool,
>(
    asked: Asked,
    state: Snapshot,
    tree: Hierarchy,
    coverage: Coverage,
    keys: Seq<(SortField, bool)>,
    request: PageRequest,
    stored: S,
    extract: E,
    cancelled: C,
    content: spec_fn(IndexedFile) -> Option<Seq<char>>,
    prepared: Result<(Search, bool), String>,
    page: Result<Page, String>,
)
    requires
        prepares(asked, state, tree, coverage, stored, cancelled, prepared),
        prepared matches Ok((search, _)) ==> answers(
            search,
            state,
            None,
            keys,
            request,
            stored,
            extract,
            cancelled,
            page,
        ),
        left_alone(
            asked,
            state,
            tree,
            coverage,
            stored,
            extract,
            cancelled,
            content,
            prepared,
        ),
    ensures
        prepared is Ok,
        page is Ok,
{
    if let Ok((search, _)) = prepared {
        lemma_prepared_content(search, asked, state, tree, coverage, content);
    }
}

/// A request without expressions comes to none: neither where its relations are settled nor
/// where a row is judged.
pub proof fn law_a_request_without_expressions_reaches_none<
    S: Fn(&IndexedFile) -> Result<Option<String>, String>,
    E: Fn(&IndexedFile) -> Option<String>,
>(
    asked: Asked,
    search: Search,
    state: Snapshot,
    tree: Hierarchy,
    coverage: Coverage,
    stored: S,
    extract: E,
    content: spec_fn(IndexedFile) -> Option<Seq<char>>,
    file: IndexedFile,
)
    requires
        !asked.asks(Question::Expressions),
        stands_for(search, asked, state, tree, coverage, content),
    ensures
        !resolve::relation_reaches(tree, state, coverage, content, asked.query@),
        !resolve::any_relation_reaches(
            tree,
            state,
            coverage,
            content,
            model::query_views(asked.excludes@),
        ),
        !search_reaches(search, file, stored, extract),
{
    let views = model::query_views(asked.excludes@);
    resolve::lemma_relation_reaches_asks(tree, state, coverage, content, asked.query@);
    resolve::lemma_any_relation_reaches_asks(tree, state, coverage, content, views);
    lemma_prepared_asks(search, asked, state, tree, coverage, content, Question::Expressions);
    evaluate::lemma_reaches_asks(Mode::Metadata, search.query@, file, None);
    evaluate::lemma_reaches_asks(Mode::Extraction, search.query@, file, None);
    assert forall|body: Option<Seq<char>>| !#[trigger] search.row_reaches(file, body) by {
        evaluate::law_only_queries_with_expressions_reach_one(search.query@, file, body);
        if search.exclusion_reaches(file, body) {
            let i = choose|i: int|
                0 <= i < search.excludes@.len() && evaluate::available_reaches(
                    (#[trigger] search.excludes@[i])@,
                    file,
                    body,
                ) && forall|j: int|
                    0 <= j < i ==> !(evaluate::available_verdict(
                        (#[trigger] search.excludes@[j])@,
                        file,
                        body,
                    ) is True);
            evaluate::law_only_queries_with_expressions_reach_one(
                search.excludes@[i]@,
                file,
                body,
            );
        }
    }
}

/// A set of candidates that leaves out no result changes nothing.
pub proof fn law_candidates_only_save_work(
    search: Search,
    state: Snapshot,
    candidates: &RoaringBitmap,
    stored: spec_fn(IndexedFile) -> Option<Seq<char>>,
    extracted: spec_fn(IndexedFile) -> Option<Seq<char>>,
)
    requires
        results(search, state, None, stored, extracted).subset_of(bitmaps::slots_in(*candidates)),
    ensures
        results(search, state, Some(candidates), stored, extracted) == results(
            search,
            state,
            None,
            stored,
            extracted,
        ),
{
    let (some, all) = (
        results(search, state, Some(candidates), stored, extracted),
        results(search, state, None, stored, extracted),
    );
    assert forall|t: u32| #[trigger] some.contains(t) == all.contains(t) by {
        if all.contains(t) {
            assert(bitmaps::slots_in(*candidates).contains(t));
        }
    }
    assert(some =~= all);
}

} // verus!
