//! What pages show, said of places in the whole result, and which rows are results.
use crate::files::IndexedFile;
use crate::paging;
use crate::paging::{Page, PageRequest};
use crate::query::evaluate;
use crate::search;
use crate::search::Search;
use crate::snapshot::Snapshot;
use vstd::prelude::*;

verus! {

/// A page is a run of the result: its rows stand in the result one after the other from the page's
/// offset on. It has as many rows as were asked for, or as many as are left.
pub proof fn law_pages_are_runs_of_the_result(
    page: Page,
    rows: Seq<IndexedFile>,
    listing: Seq<u32>,
    request: PageRequest,
    i: int,
)
    requires
        paging::shows(page, rows, listing, request),
    ensures
        page.total == listing.len(),
        page.slots@.len() <= request.limit,
        0 <= i < page.slots@.len() ==> page.offset + i < listing.len() && page.slots@[i]
            == listing[page.offset + i],
        page.offset <= listing.len() ==> page.slots@.len() == (if listing.len() - page.offset
            < request.limit {
            listing.len() - page.offset
        } else {
            request.limit as int
        }),
        page.offset >= listing.len() ==> page.slots@.len() == 0,
{
}

/// Without an anchor a page begins where it was asked to.
pub proof fn law_pages_begin_where_asked(
    page: Page,
    rows: Seq<IndexedFile>,
    listing: Seq<u32>,
    request: PageRequest,
)
    requires
        paging::shows(page, rows, listing, request),
        request.anchor is None,
    ensures
        page.offset == request.offset,
        page.anchor_index is None,
{
}

/// A page with an anchor that is in the result begins as far before it as was asked, or at the
/// start of the result where that is closer: the anchored row stands in the page at its old place.
pub proof fn law_anchored_rows_stand_where_asked(
    page: Page,
    rows: Seq<IndexedFile>,
    listing: Seq<u32>,
    request: PageRequest,
    rank: int,
)
    requires
        paging::shows(page, rows, listing, request),
        request.anchor is Some,
        0 <= rank < listing.len(),
        rows[listing[rank] as int].path@ == request.anchor->0@,
        forall|j: int|
            0 <= j < listing.len() && j != rank ==> rows[#[trigger] listing[j] as int].path@
                != request.anchor->0@,
    ensures
        paging::as_rank(page.anchor_index) == Some(rank),
        0 <= request.anchor_delta <= rank ==> page.offset + request.anchor_delta == rank,
        request.anchor_delta < 0 && rank - request.anchor_delta < listing.len() ==> page.offset
            + request.anchor_delta == rank,
        request.anchor_delta > rank ==> page.offset == 0,
        0 <= request.anchor_delta <= rank && request.anchor_delta < request.limit
            ==> request.anchor_delta < page.slots@.len()
            && page.slots@[request.anchor_delta as int] == listing[rank],
{
    assert(paging::has_path(rows, listing[rank], request.anchor->0@));
    let found = choose|i: int|
        0 <= i < listing.len() && paging::has_path(
            rows,
            #[trigger] listing[i],
            request.anchor->0@,
        );
    assert(found == rank);
}

/// A page whose anchor is not in the result stays where it was asked to begin, but begins no later
/// than the last page that is full.
pub proof fn law_lost_anchors_keep_the_place(
    page: Page,
    rows: Seq<IndexedFile>,
    listing: Seq<u32>,
    request: PageRequest,
)
    requires
        paging::shows(page, rows, listing, request),
        request.anchor is Some,
        forall|j: int|
            0 <= j < listing.len() ==> rows[#[trigger] listing[j] as int].path@
                != request.anchor->0@,
    ensures
        page.anchor_index is None,
        request.limit > 0 && request.offset + request.limit <= listing.len() ==> page.offset
            == request.offset,
        request.limit > 0 && request.offset + request.limit > listing.len() && listing.len()
            >= request.limit ==> page.offset + request.limit == listing.len(),
        listing.len() <= request.limit ==> page.offset == 0,
{
}

/// A live row is a result of a search exactly if the query holds of it and nothing that leaves rows
/// out does, judged by the stored contents of the row where there are any, and otherwise by what is
/// extracted unless the search stays offline. Nothing that is not live is a result.
pub proof fn law_results_are_the_live_rows_that_match(
    asked: Search,
    state: Snapshot,
    stored: spec_fn(IndexedFile) -> Option<Seq<char>>,
    extracted: spec_fn(IndexedFile) -> Option<Seq<char>>,
    slot: u32,
)
    requires
        !asked.metadata_only,
    ensures
        ({
            let row = state.rows()[slot as int];
            let reads = asked.needs_content();
            let body = if !reads {
                None
            } else if stored(row) is Some {
                stored(row)
            } else if asked.offline {
                None
            } else {
                extracted(row)
            };
            let found = search::results(asked, state, None, stored, extracted).contains(slot);
            &&& found ==> state.slots().contains(slot)
            &&& found ==> evaluate::available_verdict(asked.query@, row, body) is True
            &&& found ==> forall|i: int|
                0 <= i < asked.excludes@.len() ==> !(evaluate::available_verdict(
                    (#[trigger] asked.excludes@[i])@,
                    row,
                    body,
                ) is True)
            &&& state.slots().contains(slot) && evaluate::available_verdict(
                asked.query@,
                row,
                body,
            ) is True && (forall|i: int|
                0 <= i < asked.excludes@.len() ==> !(evaluate::available_verdict(
                    (#[trigger] asked.excludes@[i])@,
                    row,
                    body,
                ) is True)) ==> found
        }),
{
    let row = state.rows()[slot as int];
    let body = asked.body_of(row, stored, extracted);
    if !asked.excludes_row(row, body) {
        assert forall|i: int| 0 <= i < asked.excludes@.len() implies !(evaluate::available_verdict(
            (#[trigger] asked.excludes@[i])@,
            row,
            body,
        ) is True) by {}
    }
}

} // verus!
