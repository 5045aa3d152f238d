//! What single conditions say of rows, what stays unknown of them, and what a query asks for.
use crate::files;
use crate::files::{IndexedFile, PropertyValue};
use crate::fold;
use crate::query::atoms;
use crate::query::atoms::RequestView;
use crate::query::binding;
use crate::query::evaluate;
use crate::query::evaluate::{Mode, Question, Verdict};
use crate::query::keyword_laws;
use crate::query::matcher;
use crate::query::matcher::MatcherView;
use crate::query::model::{NumberBounds, QueryView, TermView};
use crate::query::options;
use crate::query::options::{Field, TargetView};
use crate::query::words;
use crate::text;
use vstd::prelude::*;

verus! {

/// What a condition by itself says of a row.
pub open spec fn says(term: TermView, file: IndexedFile, content: Option<Seq<char>>) -> Verdict {
    evaluate::verdict(Mode::Full, QueryView::Term(term), file, content)
}

/// Conditions on a row hold of its own fields: whether it is a folder, a link or hidden, the bits
/// of its flags, its extension, and what its texts, its contents and its properties hold.
pub proof fn law_conditions_hold_of_the_fields_they_name(
    file: IndexedFile,
    content: Option<Seq<char>>,
    needle: Seq<char>,
    mask: u32,
    dir: bool,
    m: MatcherView,
    key: Seq<char>,
)
    ensures
        (says(TermView::IsDir(dir), file, content) is True) == (file.is_dir == dir),
        (says(TermView::IsSymlink, file, content) is True) == file.is_symlink,
        (says(TermView::Hidden, file, content) is True) == keyword_laws::is_hidden(file),
        (says(TermView::Flags(mask), file, content) is True) == (file.flags & mask != 0),
        (says(
            TermView::Text { field: Field::Name, needle, sensitive: true },
            file,
            content,
        ) is True) == text::occurs(
            text::bytes_of(fold::canonical_composition(file.name@)),
            text::bytes_of(needle),
        ),
        (says(
            TermView::Text { field: Field::Path, needle, sensitive: true },
            file,
            content,
        ) is True) == text::occurs(
            text::bytes_of(fold::canonical_composition(file.path@)),
            text::bytes_of(needle),
        ),
        (says(TermView::Content { needle, sensitive: true }, file, content) is True) == (content
            is Some && text::occurs(
            text::bytes_of(fold::canonical_composition(content->0)),
            text::bytes_of(needle),
        )),
        (says(
            TermView::Matched { target: TargetView::Content, matcher: m },
            file,
            content,
        ) is True) == (content is Some && matcher::text_match(m, content->0)),
        (says(
            TermView::Matched { target: TargetView::Extension, matcher: m },
            file,
            content,
        ) is True) == matcher::text_match(m, file.extension@),
        (says(
            TermView::Matched { target: TargetView::Field(Field::Name), matcher: m },
            file,
            content,
        ) is True) == matcher::field_match(m, file, Field::Name),
        (says(TermView::PropertyText(key, needle), file, content) is True) == (files::text_in(
            files::property_of(file, key),
        ) is Some && text::occurs(
            text::bytes_of(fold::search_folded(files::text_in(files::property_of(file, key))->0)),
            text::bytes_of(needle),
        )),
{
    keyword_laws::lemma_hidden(file);
}

/// A property of a row is the first one with its key; the author of a PDF may be kept as its
/// artist, and no other key stands in for another.
pub proof fn law_properties_are_found_by_their_key(file: IndexedFile, key: Seq<char>)
    ensures
        files::find_property(file.properties@, key) is Some ==> files::property_of(file, key)
            == files::find_property(file.properties@, key),
        files::find_property(file.properties@, key) is None && key == "author"@ && text::lower(
            file.extension@,
        ) == "pdf"@ ==> files::property_of(file, key) == files::find_property(
            file.properties@,
            "artist"@,
        ),
        files::find_property(file.properties@, key) is None && (key != "author"@ || text::lower(
            file.extension@,
        ) != "pdf"@) ==> files::property_of(file, key) is None,
        files::property_of(file, key) matches Some(PropertyValue::Number(number))
            ==> files::number_in(files::property_of(file, key)) == Some(number) && files::text_in(
            files::property_of(file, key),
        ) is None,
        files::property_of(file, key) matches Some(PropertyValue::Text(words)) ==> files::text_in(
            files::property_of(file, key),
        ) == Some(words@) && files::number_in(files::property_of(file, key)) is None,
{
}

/// What the index does not know of a row stays unknown, and only that: contents that were not
/// stored, and properties that were not read. It then counts as no match where rows are matched,
/// and as a possible one where they are looked for.
pub proof fn law_what_is_not_known_stays_unknown(
    file: IndexedFile,
    needle: Seq<char>,
    key: Seq<char>,
    low: i128,
    high: i128,
    negate: bool,
)
    ensures
        evaluate::verdict(
            Mode::Indexed,
            QueryView::Term(TermView::Content { needle, sensitive: false }),
            file,
            None,
        ) is Unknown,
        (evaluate::verdict(
            Mode::Indexed,
            QueryView::Term(TermView::PropertyText(key, needle)),
            file,
            None,
        ) is Unknown) == (files::property_of(file, key) is None),
        options::is_numeric_property(key) ==> (evaluate::verdict(
            Mode::Indexed,
            QueryView::Term(
                TermView::Number { field: key, bounds: NumberBounds::Span(low, high), negate },
            ),
            file,
            None,
        ) is Unknown) == (files::number_in(files::property_of(file, key)) is None),
        !(evaluate::verdict(
            Mode::Indexed,
            QueryView::Term(TermView::Text { field: Field::Name, needle, sensitive: false }),
            file,
            None,
        ) is Unknown),
        evaluate::strict(Verdict::Unknown) is False,
        evaluate::lenient(Verdict::Unknown) is True,
        evaluate::strict(Verdict::True) is True && evaluate::strict(Verdict::False) is False,
        evaluate::lenient(Verdict::True) is True && evaluate::lenient(Verdict::False) is False,
{
    reveal_with_fuel(evaluate::term_asks, 2);
}

/// What a condition asks for: contents where it looks into them, properties where it looks at them,
/// the clock where it compares times, and the directories where it relates to them.
pub proof fn law_conditions_ask_for_what_they_look_at(
    needle: Seq<char>,
    key: Seq<char>,
    m: MatcherView,
    bounds: NumberBounds,
    negate: bool,
    question: Question,
)
    ensures
        evaluate::asks(
            QueryView::Term(TermView::Content { needle, sensitive: false }),
            question,
        ) == (question == Question::Content),
        evaluate::asks(
            QueryView::Term(TermView::Text { field: Field::Name, needle, sensitive: false }),
            question,
        ) == false,
        evaluate::asks(QueryView::Term(TermView::PropertyText(key, needle)), question) == (question
            == Question::Properties),
        evaluate::asks(
            QueryView::Term(TermView::Matched { target: TargetView::Content, matcher: m }),
            question,
        ) == (question == Question::Content || (question == Question::Expressions && m.regex
            is Some)),
        evaluate::asks(
            QueryView::Term(TermView::Number { field: "modified"@, bounds, negate }),
            question,
        ) == (question == Question::Clock),
        evaluate::asks(
            QueryView::Term(TermView::Number { field: "created"@, bounds, negate }),
            question,
        ) == (question == Question::Clock),
        evaluate::asks(
            QueryView::Term(TermView::Number { field: "size"@, bounds, negate }),
            question,
        ) == false,
        evaluate::asks(
            QueryView::Term(TermView::Number { field: "width"@, bounds, negate }),
            question,
        ) == (question == Question::Properties),
        evaluate::asks(
            QueryView::Term(TermView::Number { field: "foldersize"@, bounds, negate }),
            question,
        ) == (question == Question::Relations),
{
    words::lemma_function_words();
    words::lemma_property_words();
    words::lemma_metric_words();
    reveal_with_fuel(evaluate::term_asks, 2);
    reveal_with_fuel(evaluate::asks, 2);
}

/// The bounds of a comparison are the answer to the request that it makes: the request stands
/// where the comparison says, with its field, with how it is read and with what is written behind
/// the negation; and what answers it becomes its bounds.
pub proof fn law_comparisons_are_answered_by_their_own_request(
    field: Seq<char>,
    input: Seq<char>,
    date: bool,
    requests: Seq<RequestView>,
    spans: Seq<(i128, i128)>,
)
    requires
        !atoms::asks_unknown(input),
        requests.len() < usize::MAX,
        spans.len() == requests.len() + 1,
    ensures
        ({
            let (term, after) = atoms::number_result(field, input, date, requests);
            let n = requests.len() as int;
            let wanted = TermView::Number {
                field,
                bounds: NumberBounds::Span(spans[n].0, spans[n].1),
                negate: text::begins(input, "!"@),
            };
            &&& after.len() == requests.len() + 1
            &&& after.take(n) == requests
            &&& after[n].field == field
            &&& after[n].date == date
            &&& after[n].operand == atoms::operand_of(atoms::without_negation(input))
            &&& binding::bound(QueryView::Term(term), spans) == QueryView::Term(wanted)
        }),
{
    let (term, after) = atoms::number_result(field, input, date, requests);
    assert(after.take(requests.len() as int) =~= requests);
}

/// Answering the requests of a query changes nothing but the bounds of its comparisons: groups and
/// negations stay what they are, part by part.
pub proof fn law_answers_keep_the_shape_of_a_query(
    parts: Seq<QueryView>,
    query: QueryView,
    needle: Seq<char>,
    spans: Seq<(i128, i128)>,
)
    ensures
        binding::bound(QueryView::And(parts), spans) == QueryView::And(
            parts.map_values(|part: QueryView| binding::bound(part, spans)),
        ),
        binding::bound(QueryView::Or(parts), spans) == QueryView::Or(
            parts.map_values(|part: QueryView| binding::bound(part, spans)),
        ),
        binding::bound(QueryView::Not(Box::new(query)), spans) == QueryView::Not(
            Box::new(binding::bound(query, spans)),
        ),
        binding::bound(QueryView::All, spans) == QueryView::All,
        binding::bound(
            QueryView::Term(TermView::Text { field: Field::Name, needle, sensitive: false }),
            spans,
        ) == QueryView::Term(TermView::Text { field: Field::Name, needle, sensitive: false }),
{
    reveal_with_fuel(binding::bound, 2);
    lemma_bound_all(parts, spans);
}

proof fn lemma_bound_all(parts: Seq<QueryView>, spans: Seq<(i128, i128)>)
    ensures
        binding::bound_all(parts, spans) == parts.map_values(
            |part: QueryView| binding::bound(part, spans),
        ),
    decreases parts.len(),
{
    let mapped = parts.map_values(|part: QueryView| binding::bound(part, spans));
    if parts.len() == 0 {
        assert(binding::bound_all(parts, spans) =~= mapped);
    } else {
        lemma_bound_all(parts.drop_last(), spans);
        assert(binding::bound_all(parts, spans) =~= mapped);
    }
}

/// A request that fails makes the whole query fail with its reason, and the first of several that
/// fail gives the reason; a query whose requests are all answered keeps what parsing gave.
pub proof fn law_failed_requests_fail_the_query(
    outcome: Result<QueryView, Seq<char>>,
    answers: Seq<Result<(i128, i128), String>>,
    at: int,
)
    ensures
        0 <= at < answers.len() && answers[at] is Err && (forall|i: int|
            0 <= i < at ==> (#[trigger] answers[i]) is Ok) ==> binding::finished(outcome, answers)
            == Err::<QueryView, Seq<char>>((answers[at]->Err_0)@),
        (forall|i: int| 0 <= i < answers.len() ==> (#[trigger] answers[i]) is Ok) ==> (
        binding::finished(outcome, answers) is Ok) == (outcome is Ok),
{
    lemma_first_error(answers, at);
}

proof fn lemma_first_error(answers: Seq<Result<(i128, i128), String>>, at: int)
    ensures
        0 <= at < answers.len() && answers[at] is Err && (forall|i: int|
            0 <= i < at ==> (#[trigger] answers[i]) is Ok) ==> binding::first_error(answers)
            == Some((answers[at]->Err_0)@),
        (forall|i: int| 0 <= i < answers.len() ==> (#[trigger] answers[i]) is Ok)
            ==> binding::first_error(answers) is None,
    decreases answers.len(),
{
    if answers.len() > 0 {
        let rest = answers.drop_first();
        lemma_first_error(rest, at - 1);
        assert forall|i: int| 0 <= i < rest.len() implies #[trigger] rest[i] == answers[i + 1] by {}
        if 0 < at < answers.len() {
            assert(rest[at - 1] == answers[at]);
        }
    }
}

} // verus!
