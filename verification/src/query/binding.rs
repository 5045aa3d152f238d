//! Parsed queries with the numbers that they asked for.
use crate::query::atoms;
use crate::query::atoms::NumberRequest;
use crate::query::model;
use crate::query::model::{NumberBounds, Query, QueryView, Term, TermView};
use crate::query::parser;
use crate::query::parser::{parse, Macro, Parsed};
use vstd::prelude::*;

verus! {

/// Bounds with their request answered.
pub open spec fn answered(bounds: NumberBounds, spans: Seq<(i128, i128)>) -> NumberBounds {
    match bounds {
        NumberBounds::Pending(index) => if index < spans.len() {
            NumberBounds::Span(spans[index as int].0, spans[index as int].1)
        } else {
            bounds
        },
        NumberBounds::Span(_, _) => bounds,
    }
}

/// A query with its requests answered.
pub open spec fn bound(query: QueryView, spans: Seq<(i128, i128)>) -> QueryView
    decreases query,
{
    match query {
        QueryView::All => query,
        QueryView::And(children) => QueryView::And(bound_all(children, spans)),
        QueryView::Or(children) => QueryView::Or(bound_all(children, spans)),
        QueryView::Not(child) => QueryView::Not(Box::new(bound(*child, spans))),
        QueryView::Term(term) => match term {
            TermView::Related { recursive, query: inner } => QueryView::Term(
                TermView::Related { recursive, query: Box::new(bound(*inner, spans)) },
            ),
            TermView::Number { field, bounds, negate } => QueryView::Term(
                TermView::Number { field, bounds: answered(bounds, spans), negate },
            ),
            _ => query,
        },
    }
}

pub open spec fn bound_all(queries: Seq<QueryView>, spans: Seq<(i128, i128)>) -> Seq<QueryView>
    decreases queries,
{
    if queries.len() == 0 {
        queries
    } else {
        bound_all(queries.drop_last(), spans).push(bound(queries.last(), spans))
    }
}

proof fn lemma_bound_all(queries: Seq<QueryView>, spans: Seq<(i128, i128)>)
    ensures
        bound_all(queries, spans).len() == queries.len(),
        forall|i: int|
            0 <= i < queries.len() ==> bound_all(queries, spans)[i] == bound(queries[i], spans),
    decreases queries.len(),
{
    if queries.len() > 0 {
        lemma_bound_all(queries.drop_last(), spans);
    }
}

/// Answer the requests of a query.
pub fn bind(query: Query, spans: &Vec<(i128, i128)>) -> (result: Query)
    ensures
        result@ == bound(query@, spans@),
    decreases query,
{
    match query {
        Query::All => Query::All,
        Query::And(children) => Query::And(bind_all(children, spans)),
        Query::Or(children) => Query::Or(bind_all(children, spans)),
        Query::Not(child) => {
            let inner = bind(*child, spans);
            Query::Not(Box::new(inner))
        },
        Query::Term(term) => {
            assert(query@ == QueryView::Term(term@));
            bind_term(term, spans)
        },
    }
}

fn bind_term(term: Term, spans: &Vec<(i128, i128)>) -> (result: Query)
    ensures
        result@ == bound(QueryView::Term(term@), spans@),
    decreases term,
{
    match term {
        Term::Related { recursive, query: inner } => {
            let ghost before = inner@;
            assert(term@ == TermView::Related { recursive, query: Box::new(before) });
            let inner = bind(*inner, spans);
            atoms::related_query(recursive, inner)
        },
        Term::Number { field, bounds, negate } => {
            let bounds = match bounds {
                NumberBounds::Pending(index) => if index < spans.len() {
                    NumberBounds::Span(spans[index].0, spans[index].1)
                } else {
                    bounds
                },
                NumberBounds::Span(_, _) => bounds,
            };
            model::term_query(Term::Number { field, bounds, negate })
        },
        other => model::term_query(other),
    }
}

fn bind_all(queries: Vec<Query>, spans: &Vec<(i128, i128)>) -> (result: Vec<Query>)
    ensures
        model::query_views(result@) == bound_all(model::query_views(queries@), spans@),
    decreases queries,
{
    let ghost all = queries@;
    let mut rest = queries;
    let mut reversed: Vec<Query> = Vec::new();
    while rest.len() > 0
        invariant
            all == queries@,
            rest@.len() + reversed@.len() == all.len(),
            rest@ == all.take(rest@.len() as int),
            forall|i: int|
                0 <= i < reversed@.len() ==> (#[trigger] reversed@[i])@ == bound(
                    all[all.len() - 1 - i]@,
                    spans@,
                ),
        decreases rest@.len(),
    {
        let ghost count = rest@.len() as int;
        if let Some(query) = rest.pop() {
            assert(query == all[count - 1]);
            assert(decreases_to!(queries => queries@[count - 1]));
            reversed.push(bind(query, spans));
            assert(rest@ =~= all.take(count - 1));
        }
    }
    let ghost turned = reversed@;
    let mut result: Vec<Query> = Vec::new();
    while reversed.len() > 0
        invariant
            turned.len() == all.len(),
            reversed@.len() + result@.len() == all.len(),
            reversed@ == turned.take(reversed@.len() as int),
            forall|i: int|
                0 <= i < turned.len() ==> (#[trigger] turned[i])@ == bound(
                    all[all.len() - 1 - i]@,
                    spans@,
                ),
            forall|i: int|
                0 <= i < result@.len() ==> (#[trigger] result@[i])@ == bound(all[i]@, spans@),
        decreases reversed@.len(),
    {
        let ghost count = reversed@.len() as int;
        if let Some(query) = reversed.pop() {
            assert(query == turned[count - 1]);
            result.push(query);
            assert(reversed@ =~= turned.take(count - 1));
        }
    }
    proof {
        model::lemma_query_views(result@);
        model::lemma_query_views(all);
        lemma_bound_all(model::query_views(all), spans@);
        assert(model::query_views(result@) =~= bound_all(model::query_views(all), spans@));
    }
    result
}

/// The first error among some answers.
pub open spec fn first_error(answers: Seq<Result<(i128, i128), String>>) -> Option<Seq<char>>
    decreases answers.len(),
{
    if answers.len() == 0 {
        None
    } else {
        match answers[0] {
            Err(reason) => Some(reason@),
            Ok(_) => first_error(answers.drop_first()),
        }
    }
}

/// The ranges that some answers give.
pub open spec fn spans_of(answers: Seq<Result<(i128, i128), String>>) -> Seq<(i128, i128)> {
    answers.map_values(
        |answer: Result<(i128, i128), String>|
            match answer {
                Ok(span) => span,
                Err(_) => (0i128, 0i128),
            },
    )
}

/// A parsed query with the answers to its requests. A request that failed comes before any
/// error that parsing found, because it stands in front of it.
pub open spec fn finished(
    outcome: Result<QueryView, Seq<char>>,
    answers: Seq<Result<(i128, i128), String>>,
) -> Result<QueryView, Seq<char>> {
    match first_error(answers) {
        Some(reason) => Err(reason),
        None => match outcome {
            Ok(query) => Ok(bound(query, spans_of(answers))),
            Err(reason) => Err(reason),
        },
    }
}

/// Finish parsing with the answers to the requests, in their order.
pub fn finish(parsed: Parsed, answers: &Vec<Result<(i128, i128), String>>) -> (result: Result<
    Query,
    String,
>)
    ensures
        forall|outcome: Result<QueryView, Seq<char>>| #[trigger]
            atoms::agrees(parsed.outcome, outcome) ==> atoms::agrees(
                result,
                finished(outcome, answers@),
            ),
{
    let mut spans: Vec<(i128, i128)> = Vec::new();
    let mut next: usize = 0;
    assert(answers@.skip(0) =~= answers@);
    assert(spans@ =~= spans_of(answers@.take(0)));
    while next < answers.len()
        invariant
            next <= answers@.len(),
            first_error(answers@) == first_error(answers@.skip(next as int)),
            spans@ == spans_of(answers@.take(next as int)),
        decreases answers@.len() - next,
    {
        let ghost rest = answers@.skip(next as int);
        assert(rest[0] == answers@[next as int]);
        assert(rest.drop_first() =~= answers@.skip(next + 1));
        match &answers[next] {
            Ok(span) => {
                let ghost before = spans@;
                spans.push((span.0, span.1));
                assert(spans@ =~= spans_of(answers@.take(next + 1)));
            },
            Err(reason) => {
                return Err(reason.clone());
            },
        }
        next = next + 1;
    }
    assert(answers@.take(next as int) =~= answers@);
    match parsed.outcome {
        Ok(query) => Ok(bind(query, &spans)),
        Err(reason) => Err(reason),
    }
}

/// Each request got an answer.
pub open spec fn answers_each<A: Fn(&NumberRequest) -> Result<(i128, i128), String>>(
    answer: A,
    requests: Seq<NumberRequest>,
    answers: Seq<Result<(i128, i128), String>>,
) -> bool {
    &&& answers.len() == requests.len()
    &&& forall|i: int|
        0 <= i < requests.len() ==> call_ensures(answer, (&requests[i],), #[trigger] answers[i])
}

/// Parse a query text with the numbers and dates that it compares with. `answer` gives the bounds
/// of one of them, at the time to which relative dates are bound.
pub fn parse_at<A: Fn(&NumberRequest) -> Result<(i128, i128), String>>(
    input: &str,
    macros: &Vec<Macro>,
    answer: A,
) -> (result: Result<Query, String>)
    requires
        forall|request: &NumberRequest| #[trigger] call_requires(answer, (request,)),
    ensures
        exists|requests: Seq<NumberRequest>, answers: Seq<Result<(i128, i128), String>>| #[trigger]
            answers_each(answer, requests, answers) && atoms::request_views(requests)
                == parser::parsed(input@, parser::macro_views(macros@)).1 && atoms::agrees(
                result,
                finished(parser::parsed(input@, parser::macro_views(macros@)).0, answers),
            ),
{
    let parsed = parse(input, macros);
    let mut answers: Vec<Result<(i128, i128), String>> = Vec::new();
    let mut next: usize = 0;
    while next < parsed.requests.len()
        invariant
            next <= parsed.requests@.len(),
            answers@.len() == next,
            forall|request: &NumberRequest| #[trigger] call_requires(answer, (request,)),
            forall|i: int|
                0 <= i < next ==> call_ensures(
                    answer,
                    (&parsed.requests@[i],),
                    #[trigger] answers@[i],
                ),
        decreases parsed.requests@.len() - next,
    {
        answers.push(answer(&parsed.requests[next]));
        next = next + 1;
    }
    assert(answers_each(answer, parsed.requests@, answers@));
    finish(parsed, &answers)
}

} // verus!
