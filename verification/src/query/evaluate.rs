//! What a query says of a row.
use crate::files;
use crate::files::{IndexedFile, PropertyValue};
use crate::fold;
use crate::fold::{fold_search, nfc};
use crate::pcre;
use crate::query::matcher;
use crate::query::matcher::{normalized_parent, TextMatcher};
use crate::query::model;
use crate::query::model::{NumberBounds, Query, QueryView, Term, TermView};
use crate::query::options;
use crate::query::options::{metric_name, numeric_property, Field, TargetView, TextTarget};
use crate::text;
use crate::text::{any_text, contains_text, same_text};
use vstd::prelude::*;

verus! {

/// What is asked about the terms of a query.
#[derive(Clone, Copy)]
pub enum Question {
    /// Whether a snapshot's directories must be consulted.
    Relations,
    /// Whether file contents must be read.
    Content,
    /// Whether extracted properties are needed.
    Properties,
    /// Whether a date is compared.
    Clock,
    /// Whether a regular expression is evaluated.
    Expressions,
}

/// The answer for one term. Relations are asked about what they relate to, except whether they
/// are relations and whether evaluating them runs an expression.
pub open spec fn term_asks(term: TermView, question: Question) -> bool
    decreases term, 0int,
{
    match question {
        Question::Relations => match term {
            TermView::Related { .. } => true,
            TermView::Resolved { .. } => true,
            TermView::Number { field, .. } => options::is_metric_name(field),
            TermView::Unknown { field, .. } => options::is_metric_name(field),
            _ => false,
        },
        Question::Content => match term {
            TermView::Related { query, .. } => asks(*query, question),
            TermView::Content { .. } => true,
            TermView::Matched { target, .. } => target == TargetView::Content,
            _ => false,
        },
        Question::Properties => match term {
            TermView::Related { query, .. } => asks(*query, question),
            TermView::PropertyText(_, _) => true,
            TermView::Matched { target, .. } => target is Property,
            TermView::Number { field, .. } => options::is_numeric_property(field),
            TermView::Unknown { field, .. } => options::is_numeric_property(field),
            _ => false,
        },
        Question::Clock => match term {
            TermView::Related { query, .. } => asks(*query, question),
            TermView::Number { field, .. } => field == "modified"@ || field == "created"@,
            _ => false,
        },
        Question::Expressions => match term {
            TermView::Pattern { .. } => true,
            TermView::Matched { matcher, .. } => matcher.regex is Some,
            _ => false,
        },
    }
}

/// The answer for a query: whether it is yes for one of its terms.
pub open spec fn asks(query: QueryView, question: Question) -> bool
    decreases query, 1int,
{
    match query {
        QueryView::All => false,
        QueryView::And(children) => any_asks(children, question),
        QueryView::Or(children) => any_asks(children, question),
        QueryView::Not(child) => asks(*child, question),
        QueryView::Term(term) => term_asks(term, question),
    }
}

pub open spec fn any_asks(queries: Seq<QueryView>, question: Question) -> bool
    decreases queries, 1int,
{
    queries.len() > 0 && (any_asks(queries.drop_last(), question) || asks(queries.last(), question))
}

pub proof fn lemma_any_asks(queries: Seq<QueryView>, question: Question)
    ensures
        any_asks(queries, question) == exists|i: int|
            0 <= i < queries.len() && #[trigger] asks(queries[i], question),
    decreases queries.len(),
{
    if queries.len() > 0 {
        let head = queries.drop_last();
        lemma_any_asks(head, question);
        if any_asks(head, question) {
            let i = choose|i: int| 0 <= i < head.len() && #[trigger] asks(head[i], question);
            assert(asks(queries[i], question));
        }
        if asks(queries.last(), question) {
            assert(asks(queries[queries.len() - 1], question));
        }
        if exists|i: int| 0 <= i < queries.len() && #[trigger] asks(queries[i], question) {
            let i = choose|i: int| 0 <= i < queries.len() && #[trigger] asks(queries[i], question);
            if i < head.len() {
                assert(asks(head[i], question));
            }
        }
    }
}

fn ask_term(term: &Term, question: Question) -> (answer: bool)
    ensures
        answer == term_asks(term@, question),
    decreases term, 0int,
{
    match question {
        Question::Relations => match term {
            Term::Related { .. } => true,
            Term::Resolved(_) => true,
            Term::Number { field, .. } => metric_name(field.as_str()),
            Term::Unknown { field, .. } => metric_name(field.as_str()),
            _ => false,
        },
        Question::Content => match term {
            Term::Related { query, .. } => ask(&**query, question),
            Term::Content { .. } => true,
            Term::Matched { target, .. } => matches!(target, TextTarget::Content),
            _ => false,
        },
        Question::Properties => match term {
            Term::Related { query, .. } => ask(&**query, question),
            Term::PropertyText(_, _) => true,
            Term::Matched { target, .. } => matches!(target, TextTarget::Property(_)),
            Term::Number { field, .. } => numeric_property(field.as_str()),
            Term::Unknown { field, .. } => numeric_property(field.as_str()),
            _ => false,
        },
        Question::Clock => match term {
            Term::Related { query, .. } => ask(&**query, question),
            Term::Number { field, .. } => same_text(field.as_str(), "modified") || same_text(
                field.as_str(),
                "created",
            ),
            _ => false,
        },
        Question::Expressions => match term {
            Term::Pattern { .. } => true,
            Term::Matched { matcher, .. } => matcher.regex.is_some(),
            _ => false,
        },
    }
}

pub(crate) fn ask(query: &Query, question: Question) -> (answer: bool)
    ensures
        answer == asks(query@, question),
    decreases query, 1int,
{
    match query {
        Query::All => false,
        Query::And(children) => ask_any(children, question),
        Query::Or(children) => ask_any(children, question),
        Query::Not(child) => ask(&**child, question),
        Query::Term(term) => {
            assert(query@ == QueryView::Term(term@));
            ask_term(term, question)
        },
    }
}

fn ask_any(queries: &Vec<Query>, question: Question) -> (answer: bool)
    ensures
        answer == any_asks(model::query_views(queries@), question),
    decreases queries, 1int,
{
    let ghost views = model::query_views(queries@);
    proof {
        model::lemma_query_views(queries@);
        lemma_any_asks(views, question);
    }
    let mut next: usize = 0;
    while next < queries.len()
        invariant
            next <= queries@.len(),
            views == model::query_views(queries@),
            views.len() == queries@.len(),
            forall|i: int| 0 <= i < views.len() ==> views[i] == queries@[i]@,
            forall|i: int| 0 <= i < next ==> !#[trigger] asks(views[i], question),
            any_asks(views, question) == exists|i: int|
                0 <= i < views.len() && #[trigger] asks(views[i], question),
        decreases queries@.len() - next,
    {
        assert(decreases_to!(queries => queries@[next as int]));
        if ask(&queries[next], question) {
            assert(asks(views[next as int], question));
            return true;
        }
        next = next + 1;
    }
    false
}

/// Whether a number of the given rank is accepted.
pub open spec fn in_bounds(bounds: NumberBounds, rank: int) -> bool {
    match bounds {
        NumberBounds::Pending(_) => false,
        NumberBounds::Span(low, high) => low <= rank <= high,
    }
}

/// The rank of a numeric field of a row, where the row has one.
pub open spec fn number_of(file: IndexedFile, field: Seq<char>) -> Option<int> {
    if field == "size"@ {
        if file.is_dir {
            None
        } else {
            Some(file.size as int)
        }
    } else if field == "modified"@ {
        Some(file.modified as int)
    } else if field == "created"@ {
        Some(file.created as int)
    } else {
        match files::number_in(files::find_property(file.properties@, field)) {
            Some(number) => Some(number as int),
            None => None,
        }
    }
}

/// What a numeric term says of a number that may be unknown.
pub open spec fn number_truth(term: TermView, value: Option<int>) -> bool {
    match term {
        TermView::Unknown { negate, .. } => (value is None) != negate,
        TermView::Number { bounds, negate, .. } => value is Some && in_bounds(bounds, value->0)
            != negate,
        _ => false,
    }
}

/// Of a comparison and the one turned round, exactly one accepts a known number, whatever its
/// bounds; neither accepts an unknown one, unless unknown numbers are what is asked for.
pub proof fn law_a_number_matches_a_comparison_or_its_negation(
    term: TermView,
    turned: TermView,
    value: Option<int>,
)
    requires
        match (term, turned) {
            (
                TermView::Number { field, bounds, negate },
                TermView::Number { field: other, bounds: same, negate: opposite },
            ) => field == other && bounds == same && negate != opposite,
            (
                TermView::Unknown { field, negate },
                TermView::Unknown { field: other, negate: opposite },
            ) => field == other && negate != opposite,
            _ => false,
        },
    ensures
        value is Some || term is Unknown ==> number_truth(term, value) != number_truth(
            turned,
            value,
        ),
        value is None && term is Number ==> !number_truth(term, value) && !number_truth(
            turned,
            value,
        ),
{
}

impl Term {
    /// What a numeric term says of a number that may be unknown.
    pub fn matches_numeric_value(&self, value: Option<i128>) -> (matched: bool)
        ensures
            matched == number_truth(
                self@,
                match value {
                    Some(rank) => Some(rank as int),
                    None => None,
                },
            ),
    {
        match self {
            Term::Unknown { negate, .. } => value.is_none() != *negate,
            Term::Number { bounds, negate, .. } => match value {
                None => false,
                Some(rank) => match bounds {
                    NumberBounds::Pending(_) => *negate,
                    NumberBounds::Span(low, high) => (*low <= rank && rank <= *high) != *negate,
                },
            },
            _ => false,
        }
    }
}

/// The folded text of a field that searching compares.
pub open spec fn search_text(file: IndexedFile, field: Field) -> Seq<char> {
    match field {
        Field::Name => file.search_name@,
        Field::Path => file.search_path@,
        Field::Parent => matcher::parent_text(file.search_path@),
    }
}

/// One text occurs in another.
pub open spec fn holds(haystack: Seq<char>, needle: Seq<char>) -> bool {
    text::occurs(text::bytes_of(haystack), text::bytes_of(needle))
}

/// What a term other than a relation says of a row.
pub open spec fn term_truth(term: TermView, file: IndexedFile, content: Option<Seq<char>>) -> bool {
    match term {
        TermView::Related { .. } => false,
        TermView::Resolved { yes, unknown } => model::resolved_truth(yes, unknown, file) == Some(
            true,
        ),
        TermView::Flags(mask) => file.flags & mask != 0,
        TermView::Text { field, needle, sensitive } => if sensitive {
            holds(fold::canonical_composition(file.field_text(field)), needle)
        } else {
            holds(search_text(file, field), needle)
        },
        TermView::Pattern { field, source, sensitive } => pcre::expression_matches(
            source,
            sensitive,
            text::bytes_of(fold::canonical_composition(file.field_text(field))),
        ),
        TermView::Matched { target, matcher } => match target {
            TargetView::Field(field) => matcher::field_match(matcher, file, field),
            TargetView::Content => content is Some && matcher::text_match(matcher, content->0),
            TargetView::Property(key) => {
                let held = files::text_in(files::property_of(file, key));
                held is Some && matcher::text_match(matcher, held->0)
            },
            TargetView::Extension => matcher::text_match(matcher, file.extension@),
        },
        TermView::Extension(extensions) => extensions.contains(
            if text::ascii(file.folded_extension@) {
                file.folded_extension@
            } else {
                fold::search_folded(file.extension@)
            },
        ),
        TermView::IsDir(dir) => file.is_dir == dir,
        TermView::IsSymlink => file.is_symlink,
        TermView::Hidden => text::begins(file.name@, "."@) || file.flags & 0x8000 != 0,
        TermView::Content { needle, sensitive } => content is Some && holds(
            if sensitive {
                fold::canonical_composition(content->0)
            } else {
                fold::search_folded(content->0)
            },
            needle,
        ),
        TermView::PropertyText(key, needle) => {
            let held = files::text_in(files::property_of(file, key));
            held is Some && holds(fold::search_folded(held->0), needle)
        },
        TermView::Unknown { field, .. } => number_truth(term, number_of(file, field)),
        TermView::Number { field, .. } => number_truth(term, number_of(file, field)),
    }
}

/// What is known of a condition. Evaluating a relation without its snapshot is an error.
pub enum Verdict {
    True,
    False,
    Unknown,
    Unresolved,
}

pub open spec fn decided(value: bool) -> Verdict {
    if value {
        Verdict::True
    } else {
        Verdict::False
    }
}

pub open spec fn verdict_of(truth: Option<bool>) -> Verdict {
    match truth {
        Some(value) => decided(value),
        None => Verdict::Unknown,
    }
}

pub open spec fn negated(verdict: Verdict) -> Verdict {
    match verdict {
        Verdict::True => Verdict::False,
        Verdict::False => Verdict::True,
        other => other,
    }
}

/// What may be consulted to evaluate a query.
#[derive(Clone, Copy)]
pub enum Mode {
    /// All of the row; what is missing is false.
    Full,
    /// All of the row; what is missing is unknown.
    Indexed,
    /// What is known before properties and contents are extracted.
    Extraction,
    /// What is known without contents.
    Metadata,
}

/// What a term says of a row in a mode.
pub open spec fn term_verdict(
    mode: Mode,
    term: TermView,
    file: IndexedFile,
    content: Option<Seq<char>>,
) -> Verdict {
    let full = if term is Related {
        Verdict::Unresolved
    } else {
        decided(term_truth(term, file, content))
    };
    match mode {
        Mode::Full => full,
        Mode::Indexed => match term {
            TermView::Resolved { yes, unknown } => verdict_of(
                model::resolved_truth(yes, unknown, file),
            ),
            TermView::Related { .. } => Verdict::Unresolved,
            TermView::PropertyText(key, _) => if files::property_of(file, key) is None {
                Verdict::Unknown
            } else {
                full
            },
            TermView::Matched { target: TargetView::Property(key), .. } => if files::property_of(
                file,
                key,
            ) is None {
                Verdict::Unknown
            } else {
                full
            },
            TermView::Number { field, .. } => if options::is_numeric_property(field)
                && files::number_in(files::property_of(file, field)) is None {
                Verdict::Unknown
            } else {
                full
            },
            _ => if content is None && term_asks(term, Question::Content) {
                Verdict::Unknown
            } else {
                full
            },
        },
        Mode::Extraction => match term {
            TermView::Related { .. } => Verdict::Unknown,
            TermView::Resolved { yes, unknown } => verdict_of(
                model::resolved_truth(yes, unknown, file),
            ),
            _ => if term_asks(term, Question::Content) || term_asks(term, Question::Properties) {
                Verdict::Unknown
            } else {
                decided(term_truth(term, file, None))
            },
        },
        Mode::Metadata => match term {
            TermView::Related { .. } => Verdict::Unknown,
            TermView::Resolved { yes, unknown } => verdict_of(
                model::resolved_truth(yes, unknown, file),
            ),
            _ => if term_asks(term, Question::Content) {
                Verdict::Unknown
            } else {
                decided(term_truth(term, file, None))
            },
        },
    }
}

/// What a query says of a row in a mode: three-valued logic in which an unknown part matters
/// only where the others do not decide.
pub open spec fn verdict(
    mode: Mode,
    query: QueryView,
    file: IndexedFile,
    content: Option<Seq<char>>,
) -> Verdict
    decreases query,
{
    match query {
        QueryView::All => Verdict::True,
        QueryView::And(children) => combined(mode, children, true, file, content),
        QueryView::Or(children) => combined(mode, children, false, file, content),
        QueryView::Not(child) => negated(verdict(mode, *child, file, content)),
        QueryView::Term(term) => term_verdict(mode, term, file, content),
    }
}

/// A conjunction (`all`) or a disjunction, from left to right: the first part that decides, or
/// that is an error, ends it.
pub open spec fn combined(
    mode: Mode,
    queries: Seq<QueryView>,
    all: bool,
    file: IndexedFile,
    content: Option<Seq<char>>,
) -> Verdict
    decreases queries,
{
    if queries.len() == 0 {
        decided(all)
    } else {
        let before = combined(mode, queries.drop_last(), all, file, content);
        if before == decided(!all) || before is Unresolved {
            before
        } else {
            let last = verdict(mode, queries.last(), file, content);
            if last == decided(!all) || last is Unresolved || before == decided(all) {
                last
            } else {
                before
            }
        }
    }
}

/// A term runs an expression on a row: one that has the text that is looked at.
pub open spec fn runs_on(term: TermView, file: IndexedFile, content: Option<Seq<char>>) -> bool {
    match term {
        TermView::Pattern { .. } => true,
        TermView::Matched { target, matcher } => matcher.regex is Some && (match target {
            TargetView::Content => content is Some,
            TargetView::Property(key) => files::text_in(files::property_of(file, key)) is Some,
            _ => true,
        }),
        _ => false,
    }
}

/// A term runs an expression on a row in a mode.
pub open spec fn term_reaches(
    mode: Mode,
    term: TermView,
    file: IndexedFile,
    content: Option<Seq<char>>,
) -> bool {
    match mode {
        Mode::Full => runs_on(term, file, content),
        Mode::Indexed => runs_on(term, file, content),
        Mode::Extraction => !term_asks(term, Question::Properties) && runs_on(term, file, None),
        Mode::Metadata => runs_on(term, file, None),
    }
}

/// Evaluating a query on a row in a mode comes to an expression.
pub open spec fn reaches(
    mode: Mode,
    query: QueryView,
    file: IndexedFile,
    content: Option<Seq<char>>,
) -> bool
    decreases query,
{
    match query {
        QueryView::All => false,
        QueryView::And(children) => any_reaches(mode, children, true, file, content),
        QueryView::Or(children) => any_reaches(mode, children, false, file, content),
        QueryView::Not(child) => reaches(mode, *child, file, content),
        QueryView::Term(term) => term_reaches(mode, term, file, content),
    }
}

/// A part of a conjunction (`all`) or of a disjunction comes to an expression, and no part before
/// it ends the evaluation.
pub open spec fn any_reaches(
    mode: Mode,
    queries: Seq<QueryView>,
    all: bool,
    file: IndexedFile,
    content: Option<Seq<char>>,
) -> bool
    decreases queries,
{
    if queries.len() == 0 {
        false
    } else {
        let before = combined(mode, queries.drop_last(), all, file, content);
        any_reaches(mode, queries.drop_last(), all, file, content) || (before != decided(!all)
            && !(before is Unresolved) && reaches(mode, queries.last(), file, content))
    }
}

/// Once come to, always so.
proof fn lemma_reached_early(
    mode: Mode,
    queries: Seq<QueryView>,
    count: int,
    all: bool,
    file: IndexedFile,
    content: Option<Seq<char>>,
)
    requires
        0 <= count <= queries.len(),
        any_reaches(mode, queries.take(count), all, file, content),
    ensures
        any_reaches(mode, queries, all, file, content),
    decreases queries.len() - count,
{
    if count == queries.len() {
        assert(queries.take(count) =~= queries);
    } else {
        assert(queries.take(count + 1).drop_last() =~= queries.take(count));
        lemma_reached_early(mode, queries, count + 1, all, file, content);
    }
}

/// Matching comes to an expression only where the query has one.
pub proof fn lemma_reaches_asks(
    mode: Mode,
    query: QueryView,
    file: IndexedFile,
    content: Option<Seq<char>>,
)
    ensures
        reaches(mode, query, file, content) ==> asks(query, Question::Expressions),
    decreases query,
{
    reveal_with_fuel(asks, 2);
    reveal_with_fuel(term_asks, 2);
    match query {
        QueryView::And(children) => lemma_any_reaches_asks(mode, children, true, file, content),
        QueryView::Or(children) => lemma_any_reaches_asks(mode, children, false, file, content),
        QueryView::Not(child) => lemma_reaches_asks(mode, *child, file, content),
        _ => {},
    }
}

proof fn lemma_any_reaches_asks(
    mode: Mode,
    queries: Seq<QueryView>,
    all: bool,
    file: IndexedFile,
    content: Option<Seq<char>>,
)
    ensures
        any_reaches(mode, queries, all, file, content) ==> any_asks(queries, Question::Expressions),
    decreases queries,
{
    if queries.len() > 0 {
        lemma_any_reaches_asks(mode, queries.drop_last(), all, file, content);
        lemma_reaches_asks(mode, queries.last(), file, content);
    }
}

/// An evaluation is the verdict, or an error that it can make: a relation without its snapshot,
/// or, where it comes to an expression, an expression search that failed.
pub open spec fn evaluates(
    result: Result<Option<bool>, String>,
    expected: Verdict,
    expressions: bool,
) -> bool {
    match result {
        Ok(truth) => expected == verdict_of(truth),
        Err(message) => (expected is Unresolved && message@
            == "Relationship predicates require a search snapshot"@) || (expressions
            && text::begins(message@, "PCRE2 matching failed: "@)),
    }
}

/// As `evaluates`, where nothing may stay unknown.
pub open spec fn decides(
    result: Result<bool, String>,
    expected: Verdict,
    expressions: bool,
) -> bool {
    match result {
        Ok(value) => expected == decided(value),
        Err(message) => (expected is Unresolved && message@
            == "Relationship predicates require a search snapshot"@) || (expressions
            && text::begins(message@, "PCRE2 matching failed: "@)),
    }
}

pub open spec fn content_view(content: Option<&str>) -> Option<Seq<char>> {
    match content {
        Some(body) => Some(body@),
        None => None,
    }
}

/// The number of a field of a row.
fn field_number(file: &IndexedFile, field: &str) -> (number: Option<i128>)
    ensures
        number_of(*file, field@) == (match number {
            Some(rank) => Some(rank as int),
            None => None,
        }),
{
    if same_text(field, "size") {
        if file.is_dir {
            None
        } else {
            Some(file.size as i128)
        }
    } else if same_text(field, "modified") {
        Some(file.modified as i128)
    } else if same_text(field, "created") {
        Some(file.created as i128)
    } else {
        match file.stored_number(field) {
            Some(number) => Some(number as i128),
            None => None,
        }
    }
}

fn text_holds(file: &IndexedFile, field: Field, needle: &str, sensitive: bool) -> (found: bool)
    ensures
        found == term_truth(
            TermView::Text { field, needle: needle@, sensitive },
            *file,
            None,
        ),
{
    if sensitive {
        let composed = nfc(file.text(field));
        contains_text(composed.as_str(), needle)
    } else {
        match field {
            Field::Name => contains_text(file.search_name.as_str(), needle),
            Field::Path => contains_text(file.search_path.as_str(), needle),
            Field::Parent => {
                let parent = normalized_parent(file.search_path.as_str());
                contains_text(parent.as_str(), needle)
            },
        }
    }
}

fn text_property_of<'a>(file: &'a IndexedFile, key: &str) -> (held: Option<&'a String>)
    ensures
        files::text_in(files::property_of(*file, key@)) == (match held {
            Some(text) => Some(text@),
            None => None,
        }),
{
    match file.property(key) {
        Some(PropertyValue::Text(text)) => Some(text),
        _ => None,
    }
}

fn matched(
    target: &TextTarget,
    text_matcher: &TextMatcher,
    file: &IndexedFile,
    content: Option<&str>,
) -> (result: Result<bool, String>)
    ensures
        decides(
            result,
            decided(
                term_truth(
                    TermView::Matched { target: target@, matcher: text_matcher@ },
                    *file,
                    content_view(content),
                ),
            ),
            runs_on(
                TermView::Matched { target: target@, matcher: text_matcher@ },
                *file,
                content_view(content),
            ),
        ),
{
    match target {
        TextTarget::Field(field) => text_matcher.matches_file(file, *field),
        TextTarget::Content => match content {
            Some(body) => text_matcher.matches(body),
            None => Ok(false),
        },
        TextTarget::Property(key) => match text_property_of(file, key.as_str()) {
            Some(held) => text_matcher.matches(held.as_str()),
            None => Ok(false),
        },
        TextTarget::Extension => text_matcher.matches(file.extension.as_str()),
    }
}

fn extension_listed(extensions: &Vec<String>, file: &IndexedFile) -> (listed: bool)
    ensures
        listed == term_truth(TermView::Extension(text::texts(extensions@)), *file, None),
{
    let ghost all = text::texts(extensions@);
    let folded = if file.folded_extension.as_str().is_ascii() {
        file.folded_extension.clone()
    } else {
        fold_search(file.extension.as_str())
    };
    let listed = any_text(extensions, folded.as_str());
    proof {
        if listed {
            let i = choose|i: int|
                0 <= i < extensions@.len() && (#[trigger] extensions@[i])@ == folded@;
            assert(all[i] == folded@);
        } else if all.contains(folded@) {
            let i = choose|i: int| 0 <= i < all.len() && all[i] == folded@;
            assert(extensions@[i]@ == folded@);
        }
    }
    listed
}

fn hidden(file: &IndexedFile) -> (yes: bool)
    ensures
        yes == term_truth(TermView::Hidden, *file, None),
{
    text::strip_prefix(file.name.as_str(), ".").is_some() || file.flags & 0x8000 != 0
}

impl Term {
    /// What a term says of a row. A relation needs a snapshot.
    pub fn matches(&self, file: &IndexedFile, content: Option<&str>) -> (result: Result<
        bool,
        String,
    >)
        ensures
            decides(
                result,
                term_verdict(Mode::Full, self@, *file, content_view(content)),
                runs_on(self@, *file, content_view(content)),
            ),
    {
        match self {
            Term::Related { .. } => Err(
                "Relationship predicates require a search snapshot".to_owned(),
            ),
            Term::Resolved(resolved) => Ok(
                match resolved.truth(file) {
                    Some(value) => value,
                    None => false,
                },
            ),
            Term::Flags(mask) => Ok(file.flags & *mask != 0),
            Term::Text { field, needle, sensitive } => Ok(
                text_holds(file, *field, needle.as_str(), *sensitive),
            ),
            Term::Pattern { field, regex } => {
                let composed = nfc(file.text(*field));
                regex.is_match(composed.as_str())
            },
            Term::Matched { target, matcher } => matched(target, matcher, file, content),
            Term::Extension(extensions) => Ok(extension_listed(extensions, file)),
            Term::IsDir(dir) => Ok(file.is_dir == *dir),
            Term::IsSymlink => Ok(file.is_symlink),
            Term::Hidden => Ok(hidden(file)),
            Term::Content { needle, sensitive } => Ok(
                match content {
                    None => false,
                    Some(body) => {
                        let seen = if *sensitive {
                            nfc(body)
                        } else {
                            fold_search(body)
                        };
                        contains_text(seen.as_str(), needle.as_str())
                    },
                },
            ),
            Term::PropertyText(key, needle) => Ok(
                match text_property_of(file, key.as_str()) {
                    None => false,
                    Some(held) => {
                        let seen = fold_search(held.as_str());
                        contains_text(seen.as_str(), needle.as_str())
                    },
                },
            ),
            Term::Unknown { field, .. } => Ok(
                self.matches_numeric_value(field_number(file, field.as_str())),
            ),
            Term::Number { field, .. } => Ok(
                self.matches_numeric_value(field_number(file, field.as_str())),
            ),
        }
    }
}

/// Contents that several terms look at, folded at most once.
struct Body<'a> {
    content: Option<&'a str>,
    folded: Option<String>,
}

impl<'a> Body<'a> {
    spec fn wf(&self) -> bool {
        match self.folded {
            Some(folded) => self.content is Some && folded@ == fold::search_folded(
                self.content->0@,
            ),
            None => true,
        }
    }

    fn fold(&mut self)
        requires
            old(self).wf(),
            old(self).content is Some,
        ensures
            final(self).wf(),
            final(self).content == old(self).content,
            final(self).folded is Some,
    {
        if self.folded.is_none() {
            if let Some(body) = self.content {
                self.folded = Some(fold_search(body));
            }
        }
    }
}

/// What a term says of a row with everything consulted, sharing the folded contents.
fn full_term(term: &Term, file: &IndexedFile, body: &mut Body) -> (result: Result<bool, String>)
    requires
        old(body).wf(),
    ensures
        final(body).wf(),
        final(body).content == old(body).content,
        decides(
            result,
            term_verdict(Mode::Full, term@, *file, content_view(old(body).content)),
            runs_on(term@, *file, content_view(old(body).content)),
        ),
{
    if body.content.is_some() {
        match term {
            Term::Content { needle, sensitive } => {
                if !*sensitive {
                    body.fold();
                    if let Some(folded) = &body.folded {
                        return Ok(contains_text(folded.as_str(), needle.as_str()));
                    }
                }
            },
            Term::Matched { target, matcher } => {
                if matches!(target, TextTarget::Content) && matcher.regex.is_none()
                    && !matcher.options.modes.sensitive && !matcher.options.modes.diacritics {
                    body.fold();
                    if let Some(folded) = &body.folded {
                        return Ok(matcher.matches_normalized(folded.as_str()));
                    }
                }
            },
            _ => {},
        }
    }
    term.matches(file, body.content)
}

fn known(result: Result<bool, String>) -> (truth: Result<Option<bool>, String>)
    ensures
        forall|expected: Verdict, expressions: bool| #[trigger]
            decides(result, expected, expressions) ==> evaluates(truth, expected, expressions),
{
    match result {
        Ok(value) => Ok(Some(value)),
        Err(reason) => Err(reason),
    }
}

/// What a term says of a row in a mode.
fn judge_term(mode: Mode, term: &Term, file: &IndexedFile, body: &mut Body) -> (result: Result<
    Option<bool>,
    String,
>)
    requires
        old(body).wf(),
    ensures
        final(body).wf(),
        final(body).content == old(body).content,
        evaluates(
            result,
            term_verdict(mode, term@, *file, content_view(old(body).content)),
            term_reaches(mode, term@, *file, content_view(old(body).content)),
        ),
{
    match mode {
        Mode::Full => {
            let result = full_term(term, file, body);
            known(result)
        },
        Mode::Indexed => {
            let missing = match term {
                Term::Resolved(resolved) => {
                    return Ok(resolved.truth(file));
                },
                Term::Related { .. } => false,
                Term::PropertyText(key, _) => file.property(key.as_str()).is_none(),
                Term::Matched { target: TextTarget::Property(key), .. } => file.property(
                    key.as_str(),
                ).is_none(),
                Term::Number { field, .. } => numeric_property(field.as_str()) && !matches!(
                    file.property(field.as_str()),
                    Some(PropertyValue::Number(_))
                ),
                _ => body.content.is_none() && ask_term(term, Question::Content),
            };
            if missing {
                return Ok(None);
            }
            let result = full_term(term, file, body);
            known(result)
        },
        Mode::Extraction => match term {
            Term::Related { .. } => Ok(None),
            Term::Resolved(resolved) => Ok(resolved.truth(file)),
            _ => {
                if ask_term(term, Question::Content) || ask_term(term, Question::Properties) {
                    return Ok(None);
                }
                known(term.matches(file, None))
            },
        },
        Mode::Metadata => match term {
            Term::Related { .. } => Ok(None),
            Term::Resolved(resolved) => Ok(resolved.truth(file)),
            _ => {
                if ask_term(term, Question::Content) {
                    return Ok(None);
                }
                known(term.matches(file, None))
            },
        },
    }
}

/// What a query says of a row in a mode.
fn judge(mode: Mode, query: &Query, file: &IndexedFile, body: &mut Body) -> (result: Result<
    Option<bool>,
    String,
>)
    requires
        old(body).wf(),
    ensures
        final(body).wf(),
        final(body).content == old(body).content,
        evaluates(
            result,
            verdict(mode, query@, *file, content_view(old(body).content)),
            reaches(mode, query@, *file, content_view(old(body).content)),
        ),
    decreases query,
{
    match query {
        Query::All => Ok(Some(true)),
        Query::And(children) => judge_all(mode, children, true, file, body),
        Query::Or(children) => judge_all(mode, children, false, file, body),
        Query::Not(child) => match judge(mode, &**child, file, body) {
            Ok(Some(value)) => Ok(Some(!value)),
            Ok(None) => Ok(None),
            Err(reason) => Err(reason),
        },
        Query::Term(term) => {
            assert(query@ == QueryView::Term(term@));
            judge_term(mode, term, file, body)
        },
    }
}

fn judge_all(
    mode: Mode,
    queries: &Vec<Query>,
    all: bool,
    file: &IndexedFile,
    body: &mut Body,
) -> (result: Result<Option<bool>, String>)
    requires
        old(body).wf(),
    ensures
        final(body).wf(),
        final(body).content == old(body).content,
        evaluates(
            result,
            combined(
                mode,
                model::query_views(queries@),
                all,
                *file,
                content_view(old(body).content),
            ),
            any_reaches(
                mode,
                model::query_views(queries@),
                all,
                *file,
                content_view(old(body).content),
            ),
        ),
    decreases queries,
{
    let ghost views = model::query_views(queries@);
    let ghost content = content_view(body.content);
    proof {
        model::lemma_query_views(queries@);
        assert(views.take(0) =~= Seq::<QueryView>::empty());
    }
    let mut unknown = false;
    let mut next: usize = 0;
    while next < queries.len()
        invariant
            next <= queries@.len(),
            body.wf(),
            body.content == old(body).content,
            content == content_view(body.content),
            views == model::query_views(queries@),
            views.len() == queries@.len(),
            forall|i: int| 0 <= i < views.len() ==> views[i] == queries@[i]@,
            combined(mode, views.take(next as int), all, *file, content) == (if unknown {
                Verdict::Unknown
            } else {
                decided(all)
            }),
        decreases queries@.len() - next,
    {
        let ghost part = views.take(next + 1);
        assert(part.drop_last() =~= views.take(next as int));
        assert(part.last() == queries@[next as int]@);
        assert(decreases_to!(queries => queries@[next as int]));
        match judge(mode, &queries[next], file, body) {
            Ok(Some(value)) => {
                if value != all {
                    proof {
                        lemma_decided_early(mode, views, next + 1, all, *file, content);
                    }
                    return Ok(Some(!all));
                }
            },
            Ok(None) => {
                unknown = true;
            },
            Err(reason) => {
                proof {
                    lemma_decided_early(mode, views, next + 1, all, *file, content);
                    if any_reaches(mode, part, all, *file, content) {
                        lemma_reached_early(mode, views, next + 1, all, *file, content);
                    }
                }
                return Err(reason);
            },
        }
        next = next + 1;
    }
    assert(views.take(next as int) =~= views);
    if unknown {
        Ok(None)
    } else {
        Ok(Some(all))
    }
}

/// Once decided, or once an error, always so.
proof fn lemma_decided_early(
    mode: Mode,
    queries: Seq<QueryView>,
    count: int,
    all: bool,
    file: IndexedFile,
    content: Option<Seq<char>>,
)
    requires
        0 <= count <= queries.len(),
    ensures
        ({
            let early = combined(mode, queries.take(count), all, file, content);
            early == decided(!all) || early is Unresolved ==> combined(
                mode,
                queries,
                all,
                file,
                content,
            ) == early
        }),
    decreases queries.len() - count,
{
    if count == queries.len() {
        assert(queries.take(count) =~= queries);
    } else {
        lemma_decided_early(mode, queries, count + 1, all, file, content);
        assert(queries.take(count + 1).drop_last() =~= queries.take(count));
    }
}

/// What matching a row gives: relations and metrics count as indexed, and what is then unknown
/// does not match.
pub open spec fn match_verdict(
    query: QueryView,
    file: IndexedFile,
    content: Option<Seq<char>>,
) -> Verdict {
    if asks(query, Question::Relations) {
        strict(verdict(Mode::Indexed, query, file, content))
    } else {
        verdict(Mode::Full, query, file, content)
    }
}

/// Matching a row comes to an expression.
pub open spec fn match_reaches(
    query: QueryView,
    file: IndexedFile,
    content: Option<Seq<char>>,
) -> bool {
    if asks(query, Question::Relations) {
        reaches(Mode::Indexed, query, file, content)
    } else {
        reaches(Mode::Full, query, file, content)
    }
}

/// Matching a row where contents may be unavailable comes to an expression.
pub open spec fn available_reaches(
    query: QueryView,
    file: IndexedFile,
    content: Option<Seq<char>>,
) -> bool {
    if content is None && asks(query, Question::Content) {
        reaches(Mode::Metadata, query, file, None)
    } else {
        match_reaches(query, file, content)
    }
}

/// Matching comes to an expression only where the query has one.
pub proof fn law_only_queries_with_expressions_reach_one(
    query: QueryView,
    file: IndexedFile,
    content: Option<Seq<char>>,
)
    ensures
        available_reaches(query, file, content) ==> asks(query, Question::Expressions),
{
    lemma_reaches_asks(Mode::Metadata, query, file, None);
    lemma_reaches_asks(Mode::Indexed, query, file, content);
    lemma_reaches_asks(Mode::Full, query, file, content);
}

/// What matching a row gives where contents may be unavailable.
pub open spec fn available_verdict(
    query: QueryView,
    file: IndexedFile,
    content: Option<Seq<char>>,
) -> Verdict {
    if content is None && asks(query, Question::Content) {
        strict(verdict(Mode::Metadata, query, file, None))
    } else {
        match_verdict(query, file, content)
    }
}

/// Unknown counts as false.
pub open spec fn strict(verdict: Verdict) -> Verdict {
    if verdict is Unknown {
        Verdict::False
    } else {
        verdict
    }
}

/// Unknown counts as true.
pub open spec fn lenient(verdict: Verdict) -> Verdict {
    if verdict is Unknown {
        Verdict::True
    } else {
        verdict
    }
}

impl Query {
    fn judged(&self, mode: Mode, file: &IndexedFile, content: Option<&str>) -> (result: Result<
        Option<bool>,
        String,
    >)
        ensures
            evaluates(
                result,
                verdict(mode, self@, *file, content_view(content)),
                reaches(mode, self@, *file, content_view(content)),
            ),
    {
        let mut body = Body { content, folded: None };
        judge(mode, self, file, &mut body)
    }

    pub fn requires_relations(&self) -> (answer: bool)
        ensures
            answer == asks(self@, Question::Relations),
    {
        ask(self, Question::Relations)
    }

    /// Snapshot relations must distinguish unknown descendants from absence. Only already
    /// indexed properties and contents are consulted.
    pub fn indexed_truth(&self, file: &IndexedFile, content: Option<&str>) -> (result: Result<
        Option<bool>,
        String,
    >)
        ensures
            evaluates(
                result,
                verdict(Mode::Indexed, self@, *file, content_view(content)),
                reaches(Mode::Indexed, self@, *file, content_view(content)),
            ),
    {
        self.judged(Mode::Indexed, file, content)
    }

    /// Conservative cache hint: date predicates may contain relative periods. Absolute dates
    /// are counted too; that only shortens cache reuse.
    pub fn may_depend_on_clock(&self) -> (answer: bool)
        ensures
            answer == asks(self@, Question::Clock),
    {
        ask(self, Question::Clock)
    }

    pub fn requires_properties(&self) -> (answer: bool)
        ensures
            answer == asks(self@, Question::Properties),
    {
        ask(self, Question::Properties)
    }

    pub fn requires_content(&self) -> (answer: bool)
        ensures
            answer == asks(self@, Question::Content),
    {
        ask(self, Question::Content)
    }

    /// Whether a row may match once its properties and contents are extracted.
    pub fn may_match_before_extraction(&self, file: &IndexedFile) -> (result: Result<bool, String>)
        ensures
            decides(
                result,
                lenient(verdict(Mode::Extraction, self@, *file, None)),
                reaches(Mode::Extraction, self@, *file, None),
            ),
    {
        match self.judged(Mode::Extraction, file, None) {
            Ok(Some(value)) => Ok(value),
            Ok(None) => Ok(true),
            Err(reason) => Err(reason),
        }
    }

    /// Whether a row may match once its contents are read.
    pub fn may_match_without_content(&self, file: &IndexedFile) -> (result: Result<bool, String>)
        ensures
            decides(
                result,
                lenient(verdict(Mode::Metadata, self@, *file, None)),
                reaches(Mode::Metadata, self@, *file, None),
            ),
    {
        match self.judged(Mode::Metadata, file, None) {
            Ok(Some(value)) => Ok(value),
            Ok(None) => Ok(true),
            Err(reason) => Err(reason),
        }
    }

    /// Whether a row matches, as far as that is known without missing contents.
    pub fn matches_available(&self, file: &IndexedFile, content: Option<&str>) -> (result: Result<
        bool,
        String,
    >)
        ensures
            decides(
                result,
                available_verdict(self@, *file, content_view(content)),
                available_reaches(self@, *file, content_view(content)),
            ),
    {
        if content.is_none() && self.requires_content() {
            return match self.judged(Mode::Metadata, file, None) {
                Ok(Some(value)) => Ok(value),
                Ok(None) => Ok(false),
                Err(reason) => Err(reason),
            };
        }
        self.matches(file, content)
    }

    /// Whether a row matches.
    pub fn matches(&self, file: &IndexedFile, content: Option<&str>) -> (result: Result<
        bool,
        String,
    >)
        ensures
            decides(
                result,
                match_verdict(self@, *file, content_view(content)),
                match_reaches(self@, *file, content_view(content)),
            ),
    {
        let mode = if self.requires_relations() {
            Mode::Indexed
        } else {
            Mode::Full
        };
        proof {
            lemma_full_decides(self@, *file, content_view(content));
        }
        match self.judged(mode, file, content) {
            Ok(Some(value)) => Ok(value),
            Ok(None) => Ok(false),
            Err(reason) => Err(reason),
        }
    }
}

/// With everything consulted nothing stays unknown.
pub proof fn lemma_full_decides(query: QueryView, file: IndexedFile, content: Option<Seq<char>>)
    ensures
        !(verdict(Mode::Full, query, file, content) is Unknown),
    decreases query,
{
    match query {
        QueryView::And(children) => lemma_full_combined(children, true, file, content),
        QueryView::Or(children) => lemma_full_combined(children, false, file, content),
        QueryView::Not(child) => lemma_full_decides(*child, file, content),
        _ => {},
    }
}

proof fn lemma_full_combined(
    queries: Seq<QueryView>,
    all: bool,
    file: IndexedFile,
    content: Option<Seq<char>>,
)
    ensures
        !(combined(Mode::Full, queries, all, file, content) is Unknown),
    decreases queries,
{
    if queries.len() > 0 {
        lemma_full_combined(queries.drop_last(), all, file, content);
        lemma_full_decides(queries.last(), file, content);
    }
}

} // verus!
