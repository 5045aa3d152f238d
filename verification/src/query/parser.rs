//! Tokens into queries.
use crate::query::atoms;
use crate::query::atoms::{atom_with_options, related_query, NumberRequest, RequestView};
use crate::query::lexer;
use crate::query::lexer::{lex, Token, TokenView};
use crate::query::model;
use crate::query::model::{restrict_type, Query, QueryView, TermView};
use crate::query::options;
use crate::query::options::{relation_scope, scoped_options, MatchOptions, OptionsView};
use crate::text;
use crate::text::{same_text, strip_last};
use vstd::prelude::*;

verus! {

/// A name that stands for a query text.
#[derive(Clone, Debug)]
pub struct Macro {
    pub name: String,
    pub value: String,
}

/// The mathematical values of some macros.
pub open spec fn macro_views(macros: Seq<Macro>) -> Seq<(Seq<char>, Seq<char>)> {
    macros.map_values(|item: Macro| (item.name@, item.value@))
}

/// What a name stands for.
pub open spec fn macro_value(macros: Seq<(Seq<char>, Seq<char>)>, name: Seq<char>) -> Option<
    Seq<char>,
>
    decreases macros.len(),
{
    if macros.len() == 0 {
        None
    } else if macros[0].0 == name {
        Some(macros[0].1)
    } else {
        macro_value(macros.drop_first(), name)
    }
}

fn find_macro<'a>(macros: &'a Vec<Macro>, name: &str) -> (value: Option<&'a String>)
    ensures
        match macro_value(macro_views(macros@), name@) {
            Some(text) => value matches Some(found) && found@ == text,
            None => value is None,
        },
{
    let ghost all = macro_views(macros@);
    let mut next: usize = 0;
    assert(all.skip(0) =~= all);
    while next < macros.len()
        invariant
            next <= macros@.len(),
            all == macro_views(macros@),
            macro_value(all, name@) == macro_value(all.skip(next as int), name@),
        decreases macros@.len() - next,
    {
        let ghost rest = all.skip(next as int);
        assert(rest[0] == (macros@[next as int].name@, macros@[next as int].value@));
        assert(rest.drop_first() =~= all.skip(next + 1));
        if same_text(macros[next].name.as_str(), name) {
            return Some(&macros[next].value);
        }
        next = next + 1;
    }
    assert(all.skip(next as int) =~= Seq::<(Seq<char>, Seq<char>)>::empty());
    None
}

/// What is being parsed.
#[verifier::ext_equal]
pub struct Source {
    pub tokens: Seq<TokenView>,
    pub macros: Seq<(Seq<char>, Seq<char>)>,
    pub depth: int,
}

/// How far parsing has come: the next token, how many expressions may still follow, and what
/// was requested.
#[verifier::ext_equal]
pub struct State {
    pub pos: int,
    pub remaining: int,
    pub requests: Seq<RequestView>,
}

/// What parsing gives, and how far it came.
pub type Parse = (Result<QueryView, Seq<char>>, State);

/// Parsing consumed at least one expression.
pub open spec fn advanced(before: State, after: State) -> bool {
    0 <= after.remaining < before.remaining
}

/// One or more queries joined.
pub open spec fn joined_or(queries: Seq<QueryView>) -> QueryView {
    if queries.len() == 1 {
        queries[0]
    } else {
        QueryView::Or(queries)
    }
}

pub open spec fn joined_and(queries: Seq<QueryView>) -> QueryView {
    if queries.len() == 1 {
        queries[0]
    } else {
        QueryView::And(queries)
    }
}

/// The token at a position is the given one.
pub open spec fn token_is(source: Source, pos: int, token: TokenView) -> bool {
    0 <= pos < source.tokens.len() && source.tokens[pos] == token
}

/// `or (["AND"] or)*`, up to a closing group.
pub open spec fn and_expression(s: Source, o: OptionsView, nesting: int, st: State) -> Parse
    decreases st.remaining, 6int,
{
    let (first, next) = or_expression(s, o, nesting, st);
    match first {
        Err(reason) => (Err(reason), next),
        Ok(query) => if advanced(st, next) {
            and_more(s, o, nesting, next, seq![query])
        } else {
            (Err(Seq::empty()), next)
        },
    }
}

/// The rest of a conjunction after some of its parts.
pub open spec fn and_more(
    s: Source,
    o: OptionsView,
    nesting: int,
    st: State,
    done: Seq<QueryView>,
) -> Parse
    decreases st.remaining, 5int,
{
    if st.pos >= s.tokens.len() || token_is(s, st.pos, TokenView::R) {
        (Ok(joined_and(done)), st)
    } else {
        let start = if token_is(s, st.pos, TokenView::And) {
            State { pos: st.pos + 1, ..st }
        } else {
            st
        };
        let (part, next) = or_expression(s, o, nesting, start);
        match part {
            Err(reason) => (Err(reason), next),
            Ok(query) => if advanced(st, next) {
                and_more(s, o, nesting, next, done.push(query))
            } else {
                (Err(Seq::empty()), next)
            },
        }
    }
}

/// `unary ("|" unary)*`: OR binds tighter than AND.
pub open spec fn or_expression(s: Source, o: OptionsView, nesting: int, st: State) -> Parse
    decreases st.remaining, 4int,
{
    let (first, next) = unary_expression(s, o, nesting, st);
    match first {
        Err(reason) => (Err(reason), next),
        Ok(query) => if advanced(st, next) {
            or_more(s, o, nesting, next, seq![query])
        } else {
            (Err(Seq::empty()), next)
        },
    }
}

/// The rest of a disjunction after some of its parts.
pub open spec fn or_more(
    s: Source,
    o: OptionsView,
    nesting: int,
    st: State,
    done: Seq<QueryView>,
) -> Parse
    decreases st.remaining, 3int,
{
    if !token_is(s, st.pos, TokenView::Or) {
        (Ok(joined_or(done)), st)
    } else {
        let start = State { pos: st.pos + 1, ..st };
        let (part, next) = unary_expression(s, o, nesting, start);
        match part {
            Err(reason) => (Err(reason), next),
            Ok(query) => if advanced(st, next) {
                or_more(s, o, nesting, next, done.push(query))
            } else {
                (Err(Seq::empty()), next)
            },
        }
    }
}

/// A negation, a group or a search word. Nesting and the number of expressions are bounded.
pub open spec fn unary_expression(s: Source, o: OptionsView, nesting: int, st: State) -> Parse
    decreases st.remaining, 2int,
{
    if nesting >= 128 {
        (Err("Search expression nesting exceeds 128 levels"@), st)
    } else if st.remaining <= 0 {
        (Err("Expanded query exceeds 8192 expressions"@), st)
    } else {
        let counted = State { remaining: st.remaining - 1, ..st };
        if !(0 <= st.pos < s.tokens.len()) {
            (Err("Missing search expression"@), counted)
        } else {
            let next = State { pos: st.pos + 1, ..counted };
            match s.tokens[st.pos] {
                TokenView::Not => {
                    let (inner, after) = unary_expression(s, o, nesting + 1, next);
                    match inner {
                        Ok(query) => (Ok(QueryView::Not(Box::new(query))), after),
                        Err(reason) => (Err(reason), after),
                    }
                },
                TokenView::L => group_expression(s, o, nesting + 1, next),
                TokenView::Atom(word, from) => word_expression(s, o, nesting + 1, next, word, from),
                _ => (Err("Expected a search expression"@), next),
            }
        }
    }
}

/// A conjunction up to the closing group.
pub open spec fn group_expression(s: Source, o: OptionsView, nesting: int, st: State) -> Parse
    decreases st.remaining, 7int,
{
    let (inner, next) = and_expression(s, o, nesting, st);
    match inner {
        Err(reason) => (Err(reason), next),
        Ok(query) => if token_is(s, next.pos, TokenView::R) {
            (Ok(query), State { pos: next.pos + 1, ..next })
        } else {
            (Err("Unclosed search group"@), next)
        },
    }
}

/// What a search word turns out to be.
pub enum WordKind {
    /// A relation to a group.
    Relation(bool, Option<bool>, OptionsView),
    /// Options for a group.
    Scope(OptionsView, Option<bool>),
    /// A macro.
    Macro(Seq<char>),
    /// A search word.
    Plain,
}

/// What a search word turns out to be in front of the given position.
pub open spec fn word_kind(
    s: Source,
    o: OptionsView,
    pos: int,
    word: Seq<char>,
    from: Option<int>,
) -> WordKind {
    let group = from != Some(0int) && token_is(s, pos, TokenView::L);
    let relation = options::relation_prefix(word, o);
    let scope = options::scope_prefix(word, o);
    let expansion = macro_value(s.macros, word.drop_last());
    if group && relation is Some {
        let (recursive, kind, scoped) = relation->0;
        WordKind::Relation(recursive, kind, scoped)
    } else if group && scope is Some {
        let (scoped, is_dir) = scope->0;
        WordKind::Scope(scoped, is_dir)
    } else if from != Some(0int) && text::ends_in(word, ':') && expansion is Some {
        WordKind::Macro(expansion->0)
    } else {
        WordKind::Plain
    }
}

/// A search word, a macro, or a prefix with its group.
pub open spec fn word_expression(
    s: Source,
    o: OptionsView,
    nesting: int,
    st: State,
    word: Seq<char>,
    from: Option<int>,
) -> Parse
    decreases st.remaining, 9int,
{
    let inside = State { pos: st.pos + 1, ..st };
    match word_kind(s, o, st.pos, word, from) {
        WordKind::Relation(recursive, kind, scoped) => {
            let (inner, next) = group_expression(s, scoped, nesting, inside);
            match inner {
                Ok(query) => (
                    Ok(
                        QueryView::Term(
                            TermView::Related {
                                recursive,
                                query: Box::new(model::restricted(query, kind)),
                            },
                        ),
                    ),
                    next,
                ),
                Err(reason) => (Err(reason), next),
            }
        },
        WordKind::Scope(scoped, is_dir) => {
            let (inner, next) = group_expression(s, scoped, nesting, inside);
            match inner {
                Ok(query) => (Ok(model::restricted(query, is_dir)), next),
                Err(reason) => (Err(reason), next),
            }
        },
        WordKind::Macro(value) => macro_expression(s, o, nesting, st, value),
        WordKind::Plain => {
            let (result, requests) = atoms::atom_result(word, o, from, st.requests);
            (result, State { requests, ..st })
        },
    }
}

/// A macro's text, parsed by itself within the surrounding limits.
pub open spec fn macro_expression(
    s: Source,
    o: OptionsView,
    nesting: int,
    st: State,
    value: Seq<char>,
) -> Parse
    decreases st.remaining, 8int,
{
    if s.depth >= 16 {
        (Err("Macro expansion exceeds 16 levels (possible cycle)"@), st)
    } else {
        match lexer::tokens_of(value) {
            Err(reason) => (Err(reason), st),
            Ok(tokens) => if tokens.len() == 0 {
                (Ok(QueryView::All), st)
            } else {
                let inner = Source { tokens, depth: s.depth + 1, ..s };
                let (result, next) = and_expression(inner, o, nesting, State { pos: 0, ..st });
                let after = State { pos: st.pos, ..next };
                match result {
                    Err(reason) => (Err(reason), after),
                    Ok(query) => if next.pos == tokens.len() {
                        (Ok(query), after)
                    } else {
                        (Err("Unexpected closing group in macro"@), after)
                    },
                }
            },
        }
    }
}

/// A query text parsed, and what it requests.
pub open spec fn parsed(input: Seq<char>, macros: Seq<(Seq<char>, Seq<char>)>) -> (
    Result<QueryView, Seq<char>>,
    Seq<RequestView>,
) {
    match lexer::tokens_of(input) {
        Err(reason) => (Err(reason), Seq::empty()),
        Ok(tokens) => if tokens.len() == 0 {
            (Ok(QueryView::All), Seq::empty())
        } else {
            let source = Source { tokens, macros, depth: 0 };
            let start = State { pos: 0, remaining: 8192, requests: Seq::empty() };
            let (result, end) = and_expression(source, options::default_options(), 0, start);
            match result {
                Err(reason) => (Err(reason), end.requests),
                Ok(query) => if end.pos == tokens.len() {
                    (Ok(query), end.requests)
                } else {
                    (Err("Unexpected closing group or trailing token"@), end.requests)
                },
            }
        },
    }
}

/// Tokens with what is needed to parse them.
struct Job<'a> {
    tokens: Vec<Token>,
    macros: &'a Vec<Macro>,
    depth: usize,
}

impl<'a> View for Job<'a> {
    type V = Source;

    closed spec fn view(&self) -> Source {
        Source {
            tokens: lexer::token_views(self.tokens@),
            macros: macro_views(self.macros@),
            depth: self.depth as int,
        }
    }
}

/// How many expressions may still follow, and what was requested.
struct Budget {
    remaining: usize,
    requests: Vec<NumberRequest>,
}

impl Budget {
    spec fn state(&self, pos: usize) -> State {
        State {
            pos: pos as int,
            remaining: self.remaining as int,
            requests: atoms::request_views(self.requests@),
        }
    }
}

/// Every expression makes at most one request.
spec fn bounded(budget: Budget) -> bool {
    budget.remaining + budget.requests@.len() <= 8192
}

spec fn ready(job: Job, pos: usize, nesting: usize, budget: Budget) -> bool {
    &&& pos <= job.tokens@.len() <= 8192
    &&& nesting <= 128
    &&& job.depth <= 16
    &&& bounded(budget)
}

/// What was parsed is what the grammar says.
spec fn follows(
    job: Job,
    before: Budget,
    after: Budget,
    parse: (Result<Query, String>, usize),
    expected: Parse,
) -> bool {
    &&& atoms::agrees(parse.0, expected.0)
    &&& after.state(parse.1) == expected.1
    &&& bounded(after)
    &&& after.remaining <= before.remaining
    &&& parse.0 is Ok ==> parse.1 <= job.tokens@.len()
}

impl<'a> Job<'a> {
    fn or_at(&self, pos: usize) -> (yes: bool)
        ensures
            yes == token_is(self@, pos as int, TokenView::Or),
    {
        pos < self.tokens.len() && matches!(&self.tokens[pos], Token::Or)
    }

    fn and_at(&self, pos: usize) -> (yes: bool)
        ensures
            yes == token_is(self@, pos as int, TokenView::And),
    {
        pos < self.tokens.len() && matches!(&self.tokens[pos], Token::And)
    }

    fn left_at(&self, pos: usize) -> (yes: bool)
        ensures
            yes == token_is(self@, pos as int, TokenView::L),
    {
        pos < self.tokens.len() && matches!(&self.tokens[pos], Token::L)
    }

    fn right_at(&self, pos: usize) -> (yes: bool)
        ensures
            yes == token_is(self@, pos as int, TokenView::R),
    {
        pos < self.tokens.len() && matches!(&self.tokens[pos], Token::R)
    }
}

/// The only one of some queries.
fn single(mut queries: Vec<Query>) -> (query: Query)
    requires
        queries@.len() == 1,
    ensures
        query@ == model::query_views(queries@)[0],
{
    proof {
        model::lemma_query_views(queries@);
    }
    queries.swap_remove(0)
}

fn parse_and(
    job: &Job,
    pos: usize,
    options: &MatchOptions,
    nesting: usize,
    budget: &mut Budget,
) -> (parse: (Result<Query, String>, usize))
    requires
        ready(*job, pos, nesting, *old(budget)),
    ensures
        follows(
            *job,
            *old(budget),
            *final(budget),
            parse,
            and_expression(job@, options@, nesting as int, old(budget).state(pos)),
        ),
    decreases old(budget).remaining, 6int,
{
    let ghost start = budget.state(pos);
    let (first, mut at) = parse_or(job, pos, options, nesting, budget);
    let mut queries: Vec<Query> = Vec::new();
    match first {
        Err(reason) => {
            return (Err(reason), at);
        },
        Ok(query) => {
            proof {
                model::lemma_query_views_push(queries@, query);
                assert(model::query_views(Seq::<Query>::empty()).push(query@) =~= seq![query@]);
                assert(queries@ =~= Seq::<Query>::empty());
            }
            queries.push(query);
        },
    }
    while at < job.tokens.len() && !job.right_at(at)
        invariant
            ready(*job, at, nesting, *budget),
            budget.remaining < old(budget).remaining,
            model::query_views(queries@).len() > 0,
            and_expression(job@, options@, nesting as int, old(budget).state(pos)) == and_more(
                job@,
                options@,
                nesting as int,
                budget.state(at),
                model::query_views(queries@),
            ),
        decreases budget.remaining,
    {
        let ghost here = budget.state(at);
        let ghost done = model::query_views(queries@);
        let from = if job.and_at(at) {
            at + 1
        } else {
            at
        };
        let (part, next) = parse_or(job, from, options, nesting, budget);
        match part {
            Err(reason) => {
                return (Err(reason), next);
            },
            Ok(query) => {
                proof {
                    model::lemma_query_views_push(queries@, query);
                }
                queries.push(query);
            },
        }
        at = next;
    }
    proof {
        model::lemma_query_views(queries@);
    }
    if queries.len() == 1 {
        (Ok(single(queries)), at)
    } else {
        (Ok(Query::And(queries)), at)
    }
}

fn parse_or(
    job: &Job,
    pos: usize,
    options: &MatchOptions,
    nesting: usize,
    budget: &mut Budget,
) -> (parse: (Result<Query, String>, usize))
    requires
        ready(*job, pos, nesting, *old(budget)),
    ensures
        follows(
            *job,
            *old(budget),
            *final(budget),
            parse,
            or_expression(job@, options@, nesting as int, old(budget).state(pos)),
        ),
        parse.0 is Ok ==> final(budget).remaining < old(budget).remaining,
    decreases old(budget).remaining, 4int,
{
    let (first, mut at) = parse_unary(job, pos, options, nesting, budget);
    let mut queries: Vec<Query> = Vec::new();
    match first {
        Err(reason) => {
            return (Err(reason), at);
        },
        Ok(query) => {
            proof {
                model::lemma_query_views_push(queries@, query);
                assert(model::query_views(Seq::<Query>::empty()).push(query@) =~= seq![query@]);
                assert(queries@ =~= Seq::<Query>::empty());
            }
            queries.push(query);
        },
    }
    while job.or_at(at)
        invariant
            ready(*job, at, nesting, *budget),
            budget.remaining < old(budget).remaining,
            model::query_views(queries@).len() > 0,
            or_expression(job@, options@, nesting as int, old(budget).state(pos)) == or_more(
                job@,
                options@,
                nesting as int,
                budget.state(at),
                model::query_views(queries@),
            ),
        decreases budget.remaining,
    {
        let (part, next) = parse_unary(job, at + 1, options, nesting, budget);
        match part {
            Err(reason) => {
                return (Err(reason), next);
            },
            Ok(query) => {
                proof {
                    model::lemma_query_views_push(queries@, query);
                }
                queries.push(query);
            },
        }
        at = next;
    }
    proof {
        model::lemma_query_views(queries@);
    }
    if queries.len() == 1 {
        (Ok(single(queries)), at)
    } else {
        (Ok(Query::Or(queries)), at)
    }
}

fn parse_unary(
    job: &Job,
    pos: usize,
    options: &MatchOptions,
    nesting: usize,
    budget: &mut Budget,
) -> (parse: (Result<Query, String>, usize))
    requires
        ready(*job, pos, nesting, *old(budget)),
    ensures
        follows(
            *job,
            *old(budget),
            *final(budget),
            parse,
            unary_expression(job@, options@, nesting as int, old(budget).state(pos)),
        ),
        parse.0 is Ok ==> final(budget).remaining < old(budget).remaining,
    decreases old(budget).remaining, 2int,
{
    if nesting >= 128 {
        return (Err("Search expression nesting exceeds 128 levels".to_owned()), pos);
    }
    if budget.remaining == 0 {
        return (Err("Expanded query exceeds 8192 expressions".to_owned()), pos);
    }
    budget.remaining = budget.remaining - 1;
    if pos >= job.tokens.len() {
        return (Err("Missing search expression".to_owned()), pos);
    }
    assert(job@.tokens[pos as int] == job.tokens@[pos as int]@);
    match &job.tokens[pos] {
        Token::Not => {
            let (inner, at) = parse_unary(job, pos + 1, options, nesting + 1, budget);
            match inner {
                Ok(query) => (Ok(Query::Not(Box::new(query))), at),
                Err(reason) => (Err(reason), at),
            }
        },
        Token::L => parse_group(job, pos + 1, options, nesting + 1, budget),
        Token::Atom(word, from) => parse_word(
            job,
            pos + 1,
            options,
            nesting + 1,
            budget,
            word.as_str(),
            *from,
        ),
        _ => (Err("Expected a search expression".to_owned()), pos + 1),
    }
}

fn parse_group(
    job: &Job,
    pos: usize,
    options: &MatchOptions,
    nesting: usize,
    budget: &mut Budget,
) -> (parse: (Result<Query, String>, usize))
    requires
        ready(*job, pos, nesting, *old(budget)),
    ensures
        follows(
            *job,
            *old(budget),
            *final(budget),
            parse,
            group_expression(job@, options@, nesting as int, old(budget).state(pos)),
        ),
    decreases old(budget).remaining, 7int,
{
    let (inner, at) = parse_and(job, pos, options, nesting, budget);
    match inner {
        Err(reason) => (Err(reason), at),
        Ok(query) => if job.right_at(at) {
            (Ok(query), at + 1)
        } else {
            (Err("Unclosed search group".to_owned()), at)
        },
    }
}

/// What a search word turns out to be.
enum Word {
    Relation(bool, Option<bool>, MatchOptions),
    Scope(MatchOptions, Option<bool>),
    Macro(String),
    Plain,
}

spec fn word_view(word: Word) -> WordKind {
    match word {
        Word::Relation(recursive, kind, scoped) => WordKind::Relation(recursive, kind, scoped@),
        Word::Scope(scoped, is_dir) => WordKind::Scope(scoped@, is_dir),
        Word::Macro(value) => WordKind::Macro(value@),
        Word::Plain => WordKind::Plain,
    }
}

fn classify(job: &Job, options: &MatchOptions, pos: usize, word: &str, from: Option<usize>) -> (kind:
    Word)
    requires
        pos <= job.tokens@.len(),
    ensures
        word_view(kind) == word_kind(
            job@,
            options@,
            pos as int,
            word@,
            lexer::position(from),
        ),
        kind is Relation || kind is Scope ==> pos < job.tokens@.len(),
{
    let prefixed = match from {
        Some(at) => at != 0,
        None => true,
    };
    if prefixed && job.left_at(pos) {
        if let Some((recursive, kind, scoped)) = relation_scope(word, options) {
            return Word::Relation(recursive, kind, scoped);
        }
        if let Some((scoped, is_dir)) = scoped_options(word, options) {
            return Word::Scope(scoped, is_dir);
        }
    }
    if prefixed {
        if let Some(name) = strip_last(word, ':') {
            if let Some(value) = find_macro(job.macros, name.as_str()) {
                return Word::Macro(value.clone());
            }
        }
    }
    Word::Plain
}

fn parse_word(
    job: &Job,
    pos: usize,
    options: &MatchOptions,
    nesting: usize,
    budget: &mut Budget,
    word: &str,
    from: Option<usize>,
) -> (parse: (Result<Query, String>, usize))
    requires
        ready(*job, pos, nesting, *old(budget)),
        old(budget).remaining + old(budget).requests@.len() < 8192,
    ensures
        follows(
            *job,
            *old(budget),
            *final(budget),
            parse,
            word_expression(job@, options@, nesting as int, old(budget).state(pos), word@, lexer::position(from)),
        ),
    decreases old(budget).remaining, 9int,
{
    match classify(job, options, pos, word, from) {
        Word::Relation(recursive, kind, scoped) => {
            let (inner, at) = parse_group(job, pos + 1, &scoped, nesting, budget);
            match inner {
                Ok(query) => (Ok(related_query(recursive, restrict_type(query, kind))), at),
                Err(reason) => (Err(reason), at),
            }
        },
        Word::Scope(scoped, is_dir) => {
            let (inner, at) = parse_group(job, pos + 1, &scoped, nesting, budget);
            match inner {
                Ok(query) => (Ok(restrict_type(query, is_dir)), at),
                Err(reason) => (Err(reason), at),
            }
        },
        Word::Macro(value) => parse_macro(job, pos, options, nesting, budget, value.as_str()),
        Word::Plain => {
            let result = atom_with_options(word, options, from, &mut budget.requests);
            (result, pos)
        },
    }
}

fn parse_macro(
    job: &Job,
    pos: usize,
    options: &MatchOptions,
    nesting: usize,
    budget: &mut Budget,
    value: &str,
) -> (parse: (Result<Query, String>, usize))
    requires
        ready(*job, pos, nesting, *old(budget)),
    ensures
        follows(
            *job,
            *old(budget),
            *final(budget),
            parse,
            macro_expression(job@, options@, nesting as int, old(budget).state(pos), value@),
        ),
    decreases old(budget).remaining, 8int,
{
    if job.depth >= 16 {
        return (Err("Macro expansion exceeds 16 levels (possible cycle)".to_owned()), pos);
    }
    let tokens = match lex(value) {
        Ok(tokens) => tokens,
        Err(reason) => {
            return (Err(reason), pos);
        },
    };
    if tokens.len() == 0 {
        return (Ok(Query::All), pos);
    }
    let count = tokens.len();
    let inner = Job { tokens, macros: job.macros, depth: job.depth + 1 };
    assert(inner@ =~= (Source {
        tokens: lexer::token_views(tokens@),
        depth: job@.depth + 1,
        ..job@
    }));
    let (result, at) = parse_and(&inner, 0, options, nesting, budget);
    match result {
        Err(reason) => (Err(reason), pos),
        Ok(query) => if at == count {
            (Ok(query), pos)
        } else {
            (Err("Unexpected closing group in macro".to_owned()), pos)
        },
    }
}

/// A parsed query text. Numbers and dates that it compares with are requested in the order in
/// which they stand; also those in front of an error.
pub struct Parsed {
    pub outcome: Result<Query, String>,
    pub requests: Vec<NumberRequest>,
}

/// Parse a query text.
pub fn parse(input: &str, macros: &Vec<Macro>) -> (result: Parsed)
    ensures
        atoms::agrees(result.outcome, parsed(input@, macro_views(macros@)).0),
        atoms::request_views(result.requests@) == parsed(input@, macro_views(macros@)).1,
        result.requests@.len() <= 8192,
{
    let none: Vec<NumberRequest> = Vec::new();
    assert(atoms::request_views(none@) =~= Seq::<RequestView>::empty());
    let tokens = match lex(input) {
        Ok(tokens) => tokens,
        Err(reason) => {
            return Parsed { outcome: Err(reason), requests: none };
        },
    };
    if tokens.len() == 0 {
        return Parsed { outcome: Ok(Query::All), requests: none };
    }
    let count = tokens.len();
    let job = Job { tokens, macros, depth: 0 };
    let options = MatchOptions::default();
    let mut budget = Budget { remaining: 8192, requests: none };
    let (result, at) = parse_and(&job, 0, &options, 0, &mut budget);
    let outcome = match result {
        Ok(query) => if at == count {
            Ok(query)
        } else {
            Err("Unexpected closing group or trailing token".to_owned())
        },
        Err(reason) => Err(reason),
    };
    Parsed { outcome, requests: budget.requests }
}

} // verus!
