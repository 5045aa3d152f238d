//! Parsed queries and their mathematical values.
use crate::bitmaps;
use crate::files::IndexedFile;
use crate::pcre::Pattern;
use crate::query::matcher::{MatcherView, TextMatcher};
use crate::query::options::{Field, TargetView, TextTarget};
use crate::text;
use roaring::RoaringTreemap;
use vstd::prelude::*;

verus! {

/// A search expression.
#[derive(Debug)]
pub enum Query {
    All,
    And(Vec<Query>),
    Or(Vec<Query>),
    Not(Box<Query>),
    Term(Term),
}

/// Which numbers a term accepts: those of a request that is still to be answered, or those of
/// a closed range. Whole numbers are their own rank; other numbers are ranked by an integer
/// that orders as they do.
#[derive(Clone, Copy, Debug, PartialEq, Eq, Structural)]
pub enum NumberBounds {
    Pending(usize),
    Span(i128, i128),
}

/// One condition on a row.
#[allow(inconsistent_fields)]
#[derive(Debug)]
pub enum Term {
    Text { field: Field, needle: String, sensitive: bool },
    Pattern { field: Field, regex: Pattern },
    Related { recursive: bool, query: Box<Query> },
    Resolved(ResolvedPredicate),
    Extension(Vec<String>),
    IsDir(bool),
    IsSymlink,
    Hidden,
    Flags(u32),
    Unknown { field: String, negate: bool },
    Number { field: String, bounds: NumberBounds, negate: bool },
    Content { needle: String, sensitive: bool },
    PropertyText(String, String),
    Matched { target: TextTarget, matcher: TextMatcher },
}

/// The rows of a snapshot for which a relation holds, and those for which that is unknown.
#[derive(Debug)]
pub struct ResolvedPredicate {
    pub yes: RoaringTreemap,
    pub unknown: RoaringTreemap,
}

/// What a resolved relation says of a row.
pub open spec fn resolved_truth(yes: Set<u64>, unknown: Set<u64>, file: IndexedFile) -> Option<
    bool,
> {
    if yes.contains(file.id as u64) {
        Some(true)
    } else if unknown.contains(file.id as u64) {
        None
    } else {
        Some(false)
    }
}

impl ResolvedPredicate {
    pub fn truth(&self, file: &IndexedFile) -> (truth: Option<bool>)
        ensures
            truth == resolved_truth(
                bitmaps::ids_in(self.yes),
                bitmaps::ids_in(self.unknown),
                *file,
            ),
    {
        let id: u64 = file.id as u64;
        if self.yes.contains(id) {
            Some(true)
        } else if self.unknown.contains(id) {
            None
        } else {
            Some(false)
        }
    }
}

/// The mathematical value of a `Query`.
#[verifier::ext_equal]
pub enum QueryView {
    All,
    And(Seq<QueryView>),
    Or(Seq<QueryView>),
    Not(Box<QueryView>),
    Term(TermView),
}

/// The mathematical value of a `Term`.
#[allow(inconsistent_fields)]
#[verifier::ext_equal]
pub enum TermView {
    Text { field: Field, needle: Seq<char>, sensitive: bool },
    Pattern { field: Field, source: Seq<char>, sensitive: bool },
    Related { recursive: bool, query: Box<QueryView> },
    Resolved { yes: Set<u64>, unknown: Set<u64> },
    Extension(Seq<Seq<char>>),
    IsDir(bool),
    IsSymlink,
    Hidden,
    Flags(u32),
    Unknown { field: Seq<char>, negate: bool },
    Number { field: Seq<char>, bounds: NumberBounds, negate: bool },
    Content { needle: Seq<char>, sensitive: bool },
    PropertyText(Seq<char>, Seq<char>),
    Matched { target: TargetView, matcher: MatcherView },
}

pub open spec fn query_view(query: Query) -> QueryView
    decreases query,
{
    match query {
        Query::All => QueryView::All,
        Query::And(children) => QueryView::And(query_views(children@)),
        Query::Or(children) => QueryView::Or(query_views(children@)),
        Query::Not(child) => QueryView::Not(Box::new(query_view(*child))),
        Query::Term(term) => QueryView::Term(term_view(term)),
    }
}

pub open spec fn query_views(queries: Seq<Query>) -> Seq<QueryView>
    decreases queries,
{
    if queries.len() == 0 {
        Seq::empty()
    } else {
        query_views(queries.drop_last()).push(query_view(queries.last()))
    }
}

pub open spec fn term_view(term: Term) -> TermView
    decreases term,
{
    match term {
        Term::Text { field, needle, sensitive } => TermView::Text {
            field,
            needle: needle@,
            sensitive,
        },
        Term::Pattern { field, regex } => TermView::Pattern {
            field,
            source: regex.source(),
            sensitive: regex.sensitive(),
        },
        Term::Related { recursive, query } => TermView::Related {
            recursive,
            query: Box::new(query_view(*query)),
        },
        Term::Resolved(result) => TermView::Resolved {
            yes: bitmaps::ids_in(result.yes),
            unknown: bitmaps::ids_in(result.unknown),
        },
        Term::Extension(extensions) => TermView::Extension(text::texts(extensions@)),
        Term::IsDir(dir) => TermView::IsDir(dir),
        Term::IsSymlink => TermView::IsSymlink,
        Term::Hidden => TermView::Hidden,
        Term::Flags(mask) => TermView::Flags(mask),
        Term::Unknown { field, negate } => TermView::Unknown { field: field@, negate },
        Term::Number { field, bounds, negate } => TermView::Number {
            field: field@,
            bounds,
            negate,
        },
        Term::Content { needle, sensitive } => TermView::Content { needle: needle@, sensitive },
        Term::PropertyText(key, needle) => TermView::PropertyText(key@, needle@),
        Term::Matched { target, matcher } => TermView::Matched {
            target: target@,
            matcher: matcher@,
        },
    }
}

impl View for Query {
    type V = QueryView;

    open spec fn view(&self) -> QueryView {
        query_view(*self)
    }
}

impl View for Term {
    type V = TermView;

    open spec fn view(&self) -> TermView {
        term_view(*self)
    }
}

/// The values of some queries are the values of each.
pub proof fn lemma_query_views(queries: Seq<Query>)
    ensures
        query_views(queries).len() == queries.len(),
        forall|i: int| 0 <= i < queries.len() ==> query_views(queries)[i] == query_view(queries[i]),
    decreases queries.len(),
{
    if queries.len() > 0 {
        lemma_query_views(queries.drop_last());
    }
}

pub proof fn lemma_query_views_push(queries: Seq<Query>, query: Query)
    ensures
        query_views(queries.push(query)) == query_views(queries).push(query_view(query)),
{
    assert(queries.push(query).drop_last() =~= queries);
}

/// A query of one term.
pub fn term_query(term: Term) -> (query: Query)
    ensures
        query@ == QueryView::Term(term@),
{
    Query::Term(term)
}

/// A query restricted to files or to folders.
pub open spec fn restricted(query: QueryView, is_dir: Option<bool>) -> QueryView {
    match is_dir {
        Some(dir) => QueryView::And(seq![QueryView::Term(TermView::IsDir(dir)), query]),
        None => query,
    }
}

pub fn restrict_type(query: Query, is_dir: Option<bool>) -> (result: Query)
    ensures
        result@ == restricted(query@, is_dir),
{
    match is_dir {
        Some(dir) => {
            let first = Query::Term(Term::IsDir(dir));
            let mut both: Vec<Query> = Vec::new();
            both.push(first);
            both.push(query);
            proof {
                lemma_query_views_push(Seq::empty(), first);
                lemma_query_views_push(Seq::empty().push(first), query);
                assert(both@ =~= Seq::empty().push(first).push(query));
                reveal_with_fuel(query_views, 2);
                reveal_with_fuel(term_view, 2);
                assert(term_view(Term::IsDir(dir)) == TermView::IsDir(dir));
                assert(first@ == QueryView::Term(TermView::IsDir(dir)));
                assert(query_views(both@) =~= seq![first@, query@]);
            }
            Query::And(both)
        },
        None => query,
    }
}

} // verus!
