//! What holds of queries as a whole.
use crate::files::IndexedFile;
use crate::query::evaluate;
use crate::query::evaluate::{Mode, Question};
use crate::query::model::{QueryView, TermView};
use vstd::prelude::*;

verus! {

/// Some relation is still to be resolved.
pub open spec fn relates(query: QueryView) -> bool
    decreases query,
{
    match query {
        QueryView::All => false,
        QueryView::And(children) => any_relates(children),
        QueryView::Or(children) => any_relates(children),
        QueryView::Not(child) => relates(*child),
        QueryView::Term(term) => term is Related,
    }
}

pub open spec fn any_relates(queries: Seq<QueryView>) -> bool
    decreases queries,
{
    queries.len() > 0 && (any_relates(queries.drop_last()) || relates(queries.last()))
}

/// A mode knows no more than everything, and nothing else.
proof fn lemma_term_agrees(
    mode: Mode,
    term: TermView,
    file: IndexedFile,
    given: Option<Seq<char>>,
    content: Option<Seq<char>>,
)
    requires
        !(term is Related),
        given is None || given == content,
        !(mode is Full) || given == content,
    ensures
        ({
            let part = evaluate::term_verdict(mode, term, file, given);
            let full = evaluate::term_verdict(Mode::Full, term, file, content);
            part is Unknown || part == full
        }),
{
}

/// What a mode decides from part of what there is to know stays decided.
proof fn lemma_verdict_agrees(
    mode: Mode,
    query: QueryView,
    file: IndexedFile,
    given: Option<Seq<char>>,
    content: Option<Seq<char>>,
)
    requires
        !relates(query),
        given is None || given == content,
        !(mode is Full) || given == content,
    ensures
        ({
            let part = evaluate::verdict(mode, query, file, given);
            let full = evaluate::verdict(Mode::Full, query, file, content);
            &&& part is Unknown || part == full
            &&& full is True || full is False
        }),
    decreases query,
{
    match query {
        QueryView::All => {},
        QueryView::And(children) => lemma_combined_agrees(
            mode,
            children,
            true,
            file,
            given,
            content,
        ),
        QueryView::Or(children) => lemma_combined_agrees(
            mode,
            children,
            false,
            file,
            given,
            content,
        ),
        QueryView::Not(child) => lemma_verdict_agrees(mode, *child, file, given, content),
        QueryView::Term(term) => lemma_term_agrees(mode, term, file, given, content),
    }
}

proof fn lemma_combined_agrees(
    mode: Mode,
    queries: Seq<QueryView>,
    all: bool,
    file: IndexedFile,
    given: Option<Seq<char>>,
    content: Option<Seq<char>>,
)
    requires
        !any_relates(queries),
        given is None || given == content,
        !(mode is Full) || given == content,
    ensures
        ({
            let part = evaluate::combined(mode, queries, all, file, given);
            let full = evaluate::combined(Mode::Full, queries, all, file, content);
            &&& part is Unknown || part == full
            &&& full is True || full is False
        }),
    decreases queries,
{
    if queries.len() > 0 {
        lemma_combined_agrees(mode, queries.drop_last(), all, file, given, content);
        lemma_verdict_agrees(mode, queries.last(), file, given, content);
    }
}

/// A row that cannot match without its contents matches with none.
pub proof fn law_what_metadata_excludes_stays_excluded(
    query: QueryView,
    file: IndexedFile,
    content: Option<Seq<char>>,
)
    requires
        !relates(query),
        evaluate::verdict(Mode::Metadata, query, file, None) is False,
    ensures
        !(evaluate::available_verdict(query, file, content) is True),
{
    lemma_verdict_agrees(Mode::Metadata, query, file, None, content);
    lemma_verdict_agrees(Mode::Indexed, query, file, content, content);
}

/// A row that metadata alone lets match, matches whatever its contents.
pub proof fn law_what_metadata_admits_stays_admitted(
    query: QueryView,
    file: IndexedFile,
    content: Option<Seq<char>>,
)
    requires
        !relates(query),
        !evaluate::asks(query, Question::Relations),
        evaluate::verdict(Mode::Metadata, query, file, None) is True,
    ensures
        evaluate::available_verdict(query, file, content) is True,
{
    lemma_verdict_agrees(Mode::Metadata, query, file, None, content);
}

/// Before extraction no row is given up that matches afterwards.
pub proof fn law_extraction_loses_no_match(
    query: QueryView,
    file: IndexedFile,
    content: Option<Seq<char>>,
)
    requires
        !relates(query),
        evaluate::available_verdict(query, file, content) is True,
    ensures
        evaluate::lenient(evaluate::verdict(Mode::Extraction, query, file, None)) is True,
{
    lemma_verdict_agrees(Mode::Extraction, query, file, None, content);
    lemma_verdict_agrees(Mode::Indexed, query, file, content, content);
    lemma_verdict_agrees(Mode::Metadata, query, file, None, content);
}

/// Negation turns every decided verdict round.
pub proof fn law_negation_complements(
    query: QueryView,
    file: IndexedFile,
    content: Option<Seq<char>>,
)
    requires
        !relates(query),
    ensures
        evaluate::verdict(Mode::Full, QueryView::Not(Box::new(query)), file, content) is True
            <==> evaluate::verdict(Mode::Full, query, file, content) is False,
        evaluate::verdict(Mode::Full, QueryView::Not(Box::new(query)), file, content) is False
            <==> evaluate::verdict(Mode::Full, query, file, content) is True,
{
    lemma_verdict_agrees(Mode::Full, query, file, content, content);
}

/// Without relations no evaluation asks for a snapshot.
pub proof fn lemma_available_resolved(
    query: QueryView,
    file: IndexedFile,
    content: Option<Seq<char>>,
)
    requires
        !relates(query),
    ensures
        !(evaluate::available_verdict(query, file, content) is Unresolved),
        !(evaluate::verdict(Mode::Extraction, query, file, None) is Unresolved),
{
    lemma_verdict_agrees(Mode::Extraction, query, file, None, content);
    lemma_verdict_agrees(Mode::Indexed, query, file, content, content);
    lemma_verdict_agrees(Mode::Metadata, query, file, None, content);
    lemma_verdict_agrees(Mode::Full, query, file, content, content);
}

pub proof fn lemma_metadata_resolved(query: QueryView, file: IndexedFile)
    requires
        !relates(query),
    ensures
        !(evaluate::verdict(Mode::Metadata, query, file, None) is Unresolved),
{
    lemma_verdict_agrees(Mode::Metadata, query, file, None, None);
}

/// Indexed evaluation of a query without relations never asks for a snapshot.
pub proof fn lemma_indexed_resolved(
    query: QueryView,
    file: IndexedFile,
    content: Option<Seq<char>>,
)
    requires
        !relates(query),
    ensures
        !(evaluate::verdict(Mode::Indexed, query, file, content) is Unresolved),
{
    lemma_verdict_agrees(Mode::Indexed, query, file, content, content);
}

/// A query that asks for no relation has none to resolve.
pub proof fn lemma_unrelated(query: QueryView)
    requires
        !evaluate::asks(query, Question::Relations),
    ensures
        !relates(query),
    decreases query,
{
    reveal_with_fuel(evaluate::asks, 2);
    reveal_with_fuel(evaluate::term_asks, 2);
    match query {
        QueryView::And(children) => lemma_all_unrelated(children),
        QueryView::Or(children) => lemma_all_unrelated(children),
        QueryView::Not(child) => lemma_unrelated(*child),
        _ => {},
    }
}

proof fn lemma_all_unrelated(queries: Seq<QueryView>)
    requires
        !evaluate::any_asks(queries, Question::Relations),
    ensures
        !any_relates(queries),
    decreases queries,
{
    if queries.len() > 0 {
        lemma_all_unrelated(queries.drop_last());
        lemma_unrelated(queries.last());
    }
}

pub proof fn lemma_none_relates(queries: Seq<QueryView>, i: int)
    requires
        !any_relates(queries),
        0 <= i < queries.len(),
    ensures
        !relates(queries[i]),
    decreases queries.len(),
{
    if i < queries.len() - 1 {
        lemma_none_relates(queries.drop_last(), i);
    }
}

} // verus!
