//! Texts that a name must hold for a query to match.
use crate::files::IndexedFile;
use crate::query::evaluate;
use crate::query::evaluate::Mode;
use crate::query::model;
use crate::query::model::{Query, QueryView, Term, TermView};
use crate::query::options::{Field, TargetView, TextTarget};
use crate::text;
use vstd::prelude::*;

verus! {

/// The text that a term requires of names, if it is long enough to be looked up.
pub open spec fn literal_of(term: TermView) -> Option<Seq<char>> {
    match term {
        TermView::Text { field, needle, sensitive } => if field == Field::Name && !sensitive
            && text::bytes_of(needle).len() >= 3 {
            Some(needle)
        } else {
            None
        },
        TermView::Matched { target, matcher } => if target == TargetView::Field(Field::Name)
            && matcher.regex is None && text::bytes_of(matcher.candidate_needle).len() >= 3 {
            Some(matcher.candidate_needle)
        } else {
            None
        },
        _ => None,
    }
}

/// The texts that a query requires of names. Alternatives and negations require none.
pub open spec fn literals_of(query: QueryView) -> Seq<Seq<char>>
    decreases query,
{
    match query {
        QueryView::And(children) => all_literals(children),
        QueryView::Term(term) => match literal_of(term) {
            Some(literal) => seq![literal],
            None => Seq::empty(),
        },
        _ => Seq::empty(),
    }
}

pub open spec fn all_literals(queries: Seq<QueryView>) -> Seq<Seq<char>>
    decreases queries,
{
    if queries.len() == 0 {
        Seq::empty()
    } else {
        all_literals(queries.drop_last()) + literals_of(queries.last())
    }
}

impl Query {
    /// The texts that the query requires of names: safe to narrow the rows by, before they are
    /// evaluated.
    pub fn required_name_literals(&self, out: &mut Vec<String>)
        ensures
            text::texts(final(out)@) == text::texts(old(out)@) + literals_of(self@),
        decreases self,
    {
        let ghost first = text::texts(out@);
        match self {
            Query::And(children) => {
                require_all(children, out);
            },
            Query::Term(term) => {
                assert(self@ == QueryView::Term(term@));
                let literal = match term {
                    Term::Text { field, needle, sensitive } => if matches!(field, Field::Name)
                        && !*sensitive && needle.as_str().as_bytes().len() >= 3 {
                        Some(needle.clone())
                    } else {
                        None
                    },
                    Term::Matched { target, matcher } => if matches!(
                        target,
                        TextTarget::Field(Field::Name)
                    ) && matcher.regex.is_none()
                        && matcher.candidate_needle.as_str().as_bytes().len() >= 3 {
                        Some(matcher.candidate_needle.clone())
                    } else {
                        None
                    },
                    _ => None,
                };
                if let Some(literal) = literal {
                    out.push(literal);
                    assert(text::texts(out@) =~= first + seq![literal@]);
                } else {
                    assert(first =~= first + Seq::<Seq<char>>::empty());
                }
            },
            _ => {
                assert(first =~= first + Seq::<Seq<char>>::empty());
            },
        }
    }
}

fn require_all(queries: &Vec<Query>, out: &mut Vec<String>)
    ensures
        text::texts(final(out)@) == text::texts(old(out)@) + all_literals(
            model::query_views(queries@),
        ),
    decreases queries,
{
    let ghost views = model::query_views(queries@);
    let ghost first = text::texts(out@);
    proof {
        model::lemma_query_views(queries@);
    }
    let mut next: usize = 0;
    assert(first =~= first + all_literals(views.take(0)));
    while next < queries.len()
        invariant
            next <= queries@.len(),
            views == model::query_views(queries@),
            views.len() == queries@.len(),
            forall|i: int| 0 <= i < views.len() ==> views[i] == queries@[i]@,
            text::texts(out@) == first + all_literals(views.take(next as int)),
        decreases queries@.len() - next,
    {
        assert(decreases_to!(queries => queries@[next as int]));
        let ghost part = views.take(next + 1);
        let ghost before = all_literals(views.take(next as int));
        assert(part.drop_last() =~= views.take(next as int));
        assert(part.last() == queries@[next as int]@);
        queries[next].required_name_literals(out);
        assert(text::texts(out@) =~= first + all_literals(part));
        next = next + 1;
    }
    assert(views.take(next as int) =~= views);
}

/// A query whose required texts are all from plain text terms.
pub open spec fn plain(query: QueryView) -> bool
    decreases query,
{
    match query {
        QueryView::And(children) => all_plain(children),
        QueryView::Term(term) => !(term is Matched) || literal_of(term) is None,
        _ => true,
    }
}

pub open spec fn all_plain(queries: Seq<QueryView>) -> bool
    decreases queries,
{
    queries.len() == 0 || (all_plain(queries.drop_last()) && plain(queries.last()))
}

/// A row that matches holds every required text of the plain terms in its name.
pub proof fn law_matching_names_hold_the_plain_literals(
    query: QueryView,
    file: IndexedFile,
    content: Option<Seq<char>>,
    i: int,
)
    requires
        plain(query),
        evaluate::verdict(Mode::Full, query, file, content) is True,
        0 <= i < literals_of(query).len(),
    ensures
        evaluate::holds(file.search_name@, literals_of(query)[i]),
    decreases query,
{
    match query {
        QueryView::And(children) => lemma_all_literals(children, file, content, i),
        _ => {},
    }
}

proof fn lemma_all_literals(
    queries: Seq<QueryView>,
    file: IndexedFile,
    content: Option<Seq<char>>,
    i: int,
)
    requires
        all_plain(queries),
        evaluate::combined(Mode::Full, queries, true, file, content) is True,
        0 <= i < all_literals(queries).len(),
    ensures
        evaluate::holds(file.search_name@, all_literals(queries)[i]),
    decreases queries,
{
    let head = queries.drop_last();
    evaluate::lemma_full_decides(queries.last(), file, content);
    if i < all_literals(head).len() {
        lemma_all_literals(head, file, content, i);
    } else {
        law_matching_names_hold_the_plain_literals(
            queries.last(),
            file,
            content,
            i - all_literals(head).len(),
        );
    }
}

} // verus!
