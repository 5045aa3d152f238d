//! What a single search word asks for.
use crate::fold;
use crate::fold::fold_search;
use crate::query::matcher;
use crate::query::matcher::TextMatcher;
use crate::query::model;
use crate::query::model::{restrict_type, term_query, NumberBounds, Query, QueryView, Term, TermView};
use crate::query::options;
use crate::query::options::{
    metric_name, modifier, numeric_property, relation_kind, text_property, Field, MatchOptions, Modes,
    OptionsView, TargetView, TextTarget,
};
use crate::text;
use crate::text::{
    byte_count, chars_of, has_char, joined, keyword, lower_ascii, same_text, split_once, split_text, strip_prefix,
    text_of,
};
use vstd::prelude::*;

verus! {

/// An executed result has the mathematical value of a specified one.
pub open spec fn agrees(result: Result<Query, String>, view: Result<QueryView, Seq<char>>) -> bool {
    match view {
        Ok(expected) => result matches Ok(query) && query@ == expected,
        Err(reason) => result matches Err(message) && message@ == reason,
    }
}

/// How a number is compared.
#[derive(Debug)]
pub enum Operand {
    Between(String, String),
    AtLeast(String),
    AtMost(String),
    Above(String),
    Below(String),
    Exactly(String),
    Plain(String),
}

/// The mathematical value of an `Operand`.
#[verifier::ext_equal]
pub enum OperandView {
    Between(Seq<char>, Seq<char>),
    AtLeast(Seq<char>),
    AtMost(Seq<char>),
    Above(Seq<char>),
    Below(Seq<char>),
    Exactly(Seq<char>),
    Plain(Seq<char>),
}

impl View for Operand {
    type V = OperandView;

    open spec fn view(&self) -> OperandView {
        match self {
            Operand::Between(low, high) => OperandView::Between(low@, high@),
            Operand::AtLeast(value) => OperandView::AtLeast(value@),
            Operand::AtMost(value) => OperandView::AtMost(value@),
            Operand::Above(value) => OperandView::Above(value@),
            Operand::Below(value) => OperandView::Below(value@),
            Operand::Exactly(value) => OperandView::Exactly(value@),
            Operand::Plain(value) => OperandView::Plain(value@),
        }
    }
}

/// A number or a date whose bounds a query needs.
#[derive(Debug)]
pub struct NumberRequest {
    pub field: String,
    pub date: bool,
    pub operand: Operand,
}

/// The mathematical value of a `NumberRequest`.
#[verifier::ext_equal]
pub struct RequestView {
    pub field: Seq<char>,
    pub date: bool,
    pub operand: OperandView,
}

impl View for NumberRequest {
    type V = RequestView;

    open spec fn view(&self) -> RequestView {
        RequestView { field: self.field@, date: self.date, operand: self.operand@ }
    }
}

/// The mathematical values of some requests.
pub open spec fn request_views(requests: Seq<NumberRequest>) -> Seq<RequestView> {
    requests.map_values(|request: NumberRequest| request@)
}

/// Where two dots first follow each other, or nothing.
pub open spec fn dots_at(value: Seq<char>) -> Option<int>
    decreases value.len(),
{
    if value.len() < 2 {
        None
    } else if value[0] == '.' && value[1] == '.' {
        Some(0)
    } else {
        match dots_at(value.drop_first()) {
            Some(at) => Some(at + 1),
            None => None,
        }
    }
}

/// A comparison as it is written.
pub open spec fn operand_of(value: Seq<char>) -> OperandView {
    match dots_at(value) {
        Some(at) => OperandView::Between(value.take(at), value.skip(at + 2)),
        None => if text::begins(value, ">="@) {
            OperandView::AtLeast(value.skip(2))
        } else if text::begins(value, "<="@) {
            OperandView::AtMost(value.skip(2))
        } else if text::begins(value, ">"@) {
            OperandView::Above(value.skip(1))
        } else if text::begins(value, "<"@) {
            OperandView::Below(value.skip(1))
        } else if text::begins(value, "=="@) {
            OperandView::Exactly(value.skip(2))
        } else if text::begins(value, "="@) {
            OperandView::Exactly(value.skip(1))
        } else {
            OperandView::Plain(value)
        },
    }
}

/// What is left of a comparison without its negation.
pub open spec fn without_negation(input: Seq<char>) -> Seq<char> {
    if text::begins(input, "!="@) {
        "="@ + input.skip(2)
    } else if text::begins(input, "!"@) {
        input.skip(1)
    } else {
        input
    }
}

/// Whether a comparison asks for unknown values.
pub open spec fn asks_unknown(input: Seq<char>) -> bool {
    let low = text::lower(input);
    low == "unknown"@ || low == "!unknown"@ || low == "!=unknown"@
}

/// The term of a comparison, and the requests with the one that it makes.
pub open spec fn number_result(
    field: Seq<char>,
    input: Seq<char>,
    date: bool,
    requests: Seq<RequestView>,
) -> (TermView, Seq<RequestView>) {
    let negate = text::begins(input, "!"@);
    if asks_unknown(input) {
        (TermView::Unknown { field, negate }, requests)
    } else {
        (
            TermView::Number {
                field,
                bounds: NumberBounds::Pending(requests.len() as usize),
                negate,
            },
            requests.push(RequestView { field, date, operand: operand_of(without_negation(input)) }),
        )
    }
}

fn find_dots(value: &Vec<char>) -> (found: Option<usize>)
    ensures
        match dots_at(value@) {
            Some(at) => found matches Some(here) && here == at && here + 2 <= value@.len(),
            None => found is None,
        },
{
    let mut at: usize = 0;
    assert(value@.skip(0) =~= value@);
    loop
        invariant
            at <= value@.len(),
            dots_at(value@) == (match dots_at(value@.skip(at as int)) {
                Some(rest) => Some(rest + at),
                None => None,
            }),
        decreases value@.len() - at,
    {
        let ghost rest = value@.skip(at as int);
        if value.len() - at < 2 {
            return None;
        }
        if value[at] == '.' && value[at + 1] == '.' {
            assert(rest[0] == '.' && rest[1] == '.');
            return Some(at);
        }
        assert(rest[0] == value@[at as int] && rest[1] == value@[at + 1]);
        assert(rest.drop_first() =~= value@.skip(at + 1));
        at = at + 1;
    }
}

fn operand(value: &str) -> (result: Operand)
    ensures
        result@ == operand_of(value@),
{
    let chars = chars_of(value);
    if let Some(at) = find_dots(&chars) {
        let low = text_of(&chars, 0, at);
        let total: usize = chars.len();
        let high = text_of(&chars, at + 2, chars.len());
        assert(low@ =~= value@.take(at as int));
        assert(high@ =~= value@.skip(at + 2));
        return Operand::Between(low, high);
    }
    proof {
        reveal_strlit(">=");
        reveal_strlit("<=");
        reveal_strlit(">");
        reveal_strlit("<");
        reveal_strlit("==");
        reveal_strlit("=");
    }
    if let Some(rest) = strip_prefix(value, ">=") {
        return Operand::AtLeast(rest);
    }
    if let Some(rest) = strip_prefix(value, "<=") {
        return Operand::AtMost(rest);
    }
    if let Some(rest) = strip_prefix(value, ">") {
        return Operand::Above(rest);
    }
    if let Some(rest) = strip_prefix(value, "<") {
        return Operand::Below(rest);
    }
    if let Some(rest) = strip_prefix(value, "==") {
        return Operand::Exactly(rest);
    }
    if let Some(rest) = strip_prefix(value, "=") {
        return Operand::Exactly(rest);
    }
    Operand::Plain(value.to_owned())
}

/// The term of a comparison. A bound that only arithmetic on numbers or dates can tell is
/// requested.
pub fn number_term(
    field: &str,
    input: &str,
    date: bool,
    requests: &mut Vec<NumberRequest>,
) -> (term: Term)
    requires
        old(requests)@.len() < usize::MAX,
    ensures
        ({
            let (expected, after) = number_result(
                field@,
                input@,
                date,
                request_views(old(requests)@),
            );
            term@ == expected && request_views(final(requests)@) == after
        }),
        final(requests)@.len() <= old(requests)@.len() + 1,
{
    let low = lower_ascii(input);
    let negated = strip_prefix(input, "!");
    if same_text(low.as_str(), "unknown") || same_text(low.as_str(), "!unknown") || same_text(
        low.as_str(),
        "!=unknown",
    ) {
        return Term::Unknown { field: field.to_owned(), negate: negated.is_some() };
    }
    let negate = negated.is_some();
    proof {
        reveal_strlit("!=");
        reveal_strlit("!");
    }
    let value = match strip_prefix(input, "!=") {
        Some(rest) => joined("=", rest.as_str()),
        None => match negated {
            Some(rest) => rest,
            None => input.to_owned(),
        },
    };
    let index: usize = requests.len();
    let ghost before = requests@;
    let request = NumberRequest { field: field.to_owned(), date, operand: operand(value.as_str()) };
    let ghost added = request@;
    requests.push(request);
    assert(request_views(requests@) =~= request_views(before).push(added));
    Term::Number { field: field.to_owned(), bounds: NumberBounds::Pending(index), negate }
}

/// Nothing is asked of how the text is compared.
pub open spec fn unmodified(modes: Modes) -> bool {
    !modes.regex && !modes.diacritics && !modes.sensitive && !modes.prefix && !modes.suffix
        && !modes.whole && !modes.start && !modes.end
}

/// The text is one with wildcards.
pub open spec fn has_wildcards(s: Seq<char>, modes: Modes, target: TargetView) -> bool {
    !modes.regex && modes.wildcards && (s.contains('*') || s.contains('?')) && target
        != TargetView::Content
}

/// The query for a text.
pub open spec fn text_result(s: Seq<char>, base: OptionsView, target: TargetView) -> Result<
    QueryView,
    Seq<char>,
> {
    let options = OptionsView { target: Some(target), ..base };
    let wildcard = has_wildcards(s, options.modes, target);
    let needle = fold::search_folded(s);
    if unmodified(options.modes) && !wildcard && target is Field {
        Ok(QueryView::Term(TermView::Text { field: target->Field_0, needle, sensitive: false }))
    } else if unmodified(options.modes) && !wildcard && target is Content {
        Ok(QueryView::Term(TermView::Content { needle, sensitive: false }))
    } else if unmodified(options.modes) && !wildcard && target is Property {
        Ok(QueryView::Term(TermView::PropertyText(target->Property_0, needle)))
    } else {
        match matcher::matcher_for(s, options, wildcard) {
            Ok(matcher) => Ok(QueryView::Term(TermView::Matched { target, matcher })),
            Err(reason) => Err(reason),
        }
    }
}

pub fn text_query(s: &str, base: &MatchOptions, target: TextTarget) -> (result: Result<
    Query,
    String,
>)
    ensures
        agrees(result, text_result(s@, base@, target@)),
{
    let options = MatchOptions { modes: base.modes, target: Some(target.clone()) };
    let ghost view = OptionsView { target: Some(target@), ..base@ };
    assert(options@ =~= view);
    let modes = options.modes;
    let plain = !modes.regex && !modes.diacritics && !modes.sensitive && !modes.prefix
        && !modes.suffix && !modes.whole && !modes.start && !modes.end;
    let wildcard = !modes.regex && modes.wildcards && (has_char(s, '*') || has_char(s, '?'))
        && !matches!(&target, TextTarget::Content);
    if plain && !wildcard {
        match &target {
            TextTarget::Field(field) => {
                return Ok(
                    term_query(
                        Term::Text { field: *field, needle: fold_search(s), sensitive: false },
                    ),
                );
            },
            TextTarget::Content => {
                return Ok(term_query(Term::Content { needle: fold_search(s), sensitive: false }));
            },
            TextTarget::Property(key) => {
                return Ok(term_query(Term::PropertyText(key.clone(), fold_search(s))));
            },
            TextTarget::Extension => {},
        }
    }
    match TextMatcher::new(s, &options, wildcard) {
        Ok(matcher) => Ok(term_query(Term::Matched { target, matcher })),
        Err(reason) => Err(reason),
    }
}

/// A text without the dots at its front.
pub open spec fn after_dots(s: Seq<char>) -> Seq<char>
    decreases s.len(),
{
    if s.len() > 0 && s[0] == '.' {
        after_dots(s.drop_first())
    } else {
        s
    }
}

/// A text without the slashes at its end.
pub open spec fn before_slashes(s: Seq<char>) -> Seq<char>
    decreases s.len(),
{
    if s.len() > 0 && s.last() == '/' {
        before_slashes(s.drop_last())
    } else {
        s
    }
}

fn trim_dots(s: &str) -> (result: String)
    ensures
        result@ == after_dots(s@),
{
    let chars = chars_of(s);
    let mut start: usize = 0;
    assert(chars@.skip(0) =~= chars@);
    while start < chars.len() && chars[start] == '.'
        invariant
            start <= chars@.len(),
            after_dots(chars@) == after_dots(chars@.skip(start as int)),
        decreases chars@.len() - start,
    {
        assert(chars@.skip(start as int).drop_first() =~= chars@.skip(start + 1));
        start = start + 1;
    }
    let result = text_of(&chars, start, chars.len());
    assert(result@ =~= chars@.skip(start as int));
    result
}

fn trim_slashes(s: &str) -> (result: String)
    ensures
        result@ == before_slashes(s@),
{
    let chars = chars_of(s);
    let mut end: usize = chars.len();
    assert(chars@.take(end as int) =~= chars@);
    while end > 0 && chars[end - 1] == '/'
        invariant
            end <= chars@.len(),
            before_slashes(chars@) == before_slashes(chars@.take(end as int)),
        decreases end,
    {
        assert(chars@.take(end as int).drop_last() =~= chars@.take(end - 1));
        end = end - 1;
    }
    let result = text_of(&chars, 0, end);
    assert(result@ =~= chars@.take(end as int));
    result
}

/// Extensions as they are compared.
pub open spec fn extension_list(pieces: Seq<Seq<char>>) -> Seq<Seq<char>> {
    pieces.map_values(|piece: Seq<char>| fold::search_folded(after_dots(piece)))
}

fn folded_extensions(value: &str) -> (extensions: Vec<String>)
    ensures
        text::texts(extensions@) == extension_list(text::split_on(value@, ';')),
{
    let pieces = split_text(value, ';');
    let ghost all = text::split_on(value@, ';');
    let mut extensions: Vec<String> = Vec::new();
    let mut next: usize = 0;
    assert(text::texts(extensions@) =~= extension_list(all.take(0)));
    while next < pieces.len()
        invariant
            next <= pieces@.len(),
            text::texts(pieces@) == all,
            text::texts(extensions@) == extension_list(all.take(next as int)),
        decreases pieces@.len() - next,
    {
        let ghost before = extensions@;
        assert(all[next as int] == pieces@[next as int]@);
        let bare = trim_dots(pieces[next].as_str());
        let folded = fold_search(bare.as_str());
        let ghost added = folded@;
        extensions.push(folded);
        assert(text::texts(extensions@) =~= text::texts(before).push(added));
        assert(extension_list(all.take(next + 1)) =~= extension_list(all.take(next as int)).push(
            added,
        ));
        next = next + 1;
    }
    assert(all.take(next as int) =~= all);
    extensions
}

/// Options for a whole extension.
pub open spec fn whole_options(options: OptionsView) -> OptionsView {
    OptionsView { modes: Modes { whole: true, ..options.modes }, ..options }
}

/// Queries for extensions that are compared in a special way, after some that are done.
pub open spec fn extension_queries(
    pieces: Seq<Seq<char>>,
    options: OptionsView,
    done: Seq<QueryView>,
) -> Result<Seq<QueryView>, Seq<char>>
    decreases pieces.len(),
{
    if pieces.len() == 0 {
        Ok(done)
    } else {
        match text_result(after_dots(pieces[0]), whole_options(options), TargetView::Extension) {
            Ok(query) => extension_queries(pieces.drop_first(), options, done.push(query)),
            Err(reason) => Err(reason),
        }
    }
}

fn special_extensions(value: &str, options: &MatchOptions) -> (result: Result<Query, String>)
    ensures
        agrees(
            result,
            match extension_queries(text::split_on(value@, ';'), options@, Seq::empty()) {
                Ok(queries) => Ok(QueryView::Or(queries)),
                Err(reason) => Err(reason),
            },
        ),
{
    let pieces = split_text(value, ';');
    let ghost all = text::split_on(value@, ';');
    let whole = MatchOptions {
        modes: Modes { whole: true, ..options.modes },
        target: options.clone().target,
    };
    assert(whole@ =~= whole_options(options@));
    let mut queries: Vec<Query> = Vec::new();
    let mut next: usize = 0;
    assert(all.skip(0) =~= all);
    assert(model::query_views(queries@) =~= Seq::<QueryView>::empty());
    while next < pieces.len()
        invariant
            next <= pieces@.len(),
            all == text::split_on(value@, ';'),
            text::texts(pieces@) == all,
            whole@ == whole_options(options@),
            extension_queries(all, options@, Seq::empty()) == extension_queries(
                all.skip(next as int),
                options@,
                model::query_views(queries@),
            ),
        decreases pieces@.len() - next,
    {
        let ghost rest = all.skip(next as int);
        assert(rest[0] == pieces@[next as int]@);
        assert(rest.drop_first() =~= all.skip(next + 1));
        let bare = trim_dots(pieces[next].as_str());
        match text_query(bare.as_str(), &whole, TextTarget::Extension) {
            Ok(query) => {
                proof {
                    model::lemma_query_views_push(queries@, query);
                }
                queries.push(query);
            },
            Err(reason) => {
                return Err(reason);
            },
        }
        next = next + 1;
    }
    assert(all.skip(next as int) =~= Seq::<Seq<char>>::empty());
    Ok(Query::Or(queries))
}

/// The conditions that attribute letters stand for, after some that are done.
pub open spec fn attribute_terms(letters: Seq<char>, done: Seq<QueryView>) -> Result<
    Seq<QueryView>,
    Seq<char>,
>
    decreases letters.len(),
{
    if letters.len() == 0 {
        Ok(done)
    } else if text::lower_char(letters[0]) == 'h' {
        attribute_terms(letters.drop_first(), done.push(QueryView::Term(TermView::Hidden)))
    } else if text::lower_char(letters[0]) == 'l' {
        attribute_terms(letters.drop_first(), done.push(QueryView::Term(TermView::IsSymlink)))
    } else {
        Err(
            "attrib: supports macOS hidden (h) and symlink (l); use flags: for native flags"@,
        )
    }
}

/// The query of attribute letters.
pub open spec fn attribute_result(letters: Seq<char>) -> Result<QueryView, Seq<char>> {
    match attribute_terms(letters, Seq::empty()) {
        Ok(terms) => if terms.len() == 0 {
            Err("attrib: requires at least one attribute"@)
        } else {
            Ok(QueryView::And(terms))
        },
        Err(reason) => Err(reason),
    }
}

fn attribute_query(value: &str) -> (result: Result<Query, String>)
    ensures
        agrees(result, attribute_result(value@)),
{
    let letters = chars_of(value);
    let mut terms: Vec<Query> = Vec::new();
    let mut next: usize = 0;
    assert(letters@.skip(0) =~= letters@);
    assert(model::query_views(terms@) =~= Seq::<QueryView>::empty());
    while next < letters.len()
        invariant
            next <= letters@.len(),
            letters@ == value@,
            attribute_terms(value@, Seq::empty()) == attribute_terms(
                letters@.skip(next as int),
                model::query_views(terms@),
            ),
        decreases letters@.len() - next,
    {
        let ghost rest = letters@.skip(next as int);
        assert(rest[0] == letters@[next as int]);
        assert(rest.drop_first() =~= letters@.skip(next + 1));
        let c = text::lower_ascii_char(letters[next]);
        let term = if c == 'h' {
            term_query(Term::Hidden)
        } else if c == 'l' {
            term_query(Term::IsSymlink)
        } else {
            return Err(
                "attrib: supports macOS hidden (h) and symlink (l); use flags: for native flags".to_owned(),
            );
        };
        proof {
            model::lemma_query_views_push(terms@, term);
        }
        terms.push(term);
        next = next + 1;
    }
    assert(letters@.skip(next as int) =~= Seq::<char>::empty());
    proof {
        model::lemma_query_views(terms@);
    }
    if terms.len() == 0 {
        return Err("attrib: requires at least one attribute".to_owned());
    }
    Ok(Query::And(terms))
}

/// The native flag bits that a name stands for.
pub open spec fn flag_bits(key: Seq<char>) -> Option<u32> {
    if key == "hidden"@ {
        Some(0x8000)
    } else if key == "immutable"@ {
        Some(0x0002_0002)
    } else if key == "append"@ {
        Some(0x0004_0004)
    } else if key == "nodump"@ {
        Some(0x0001)
    } else if key == "compressed"@ {
        Some(0x0020)
    } else if key == "dataless"@ || key == "placeholder"@ {
        Some(0x4000_0000)
    } else {
        None
    }
}

/// The native flags of some names, joined with those that are set already.
pub open spec fn flag_mask(names: Seq<Seq<char>>, mask: u32) -> Result<u32, Seq<char>>
    decreases names.len(),
{
    if names.len() == 0 {
        Ok(mask)
    } else {
        match flag_bits(text::keyword_of(names[0])) {
            Some(bits) => flag_mask(names.drop_first(), mask | bits),
            None => Err("Unsupported native flag '"@ + names[0] + "'"@),
        }
    }
}

fn flags_of(value: &str) -> (result: Result<u32, String>)
    ensures
        match flag_mask(text::split_on(value@, ';'), 0) {
            Ok(mask) => result == Ok::<u32, String>(mask),
            Err(reason) => result matches Err(message) && message@ == reason,
        },
{
    let names = split_text(value, ';');
    let ghost all = text::split_on(value@, ';');
    let mut mask: u32 = 0;
    let mut next: usize = 0;
    assert(all.skip(0) =~= all);
    while next < names.len()
        invariant
            next <= names@.len(),
            all == text::split_on(value@, ';'),
            text::texts(names@) == all,
            flag_mask(all, 0) == flag_mask(all.skip(next as int), mask),
        decreases names@.len() - next,
    {
        let ghost rest = all.skip(next as int);
        assert(rest[0] == names@[next as int]@);
        assert(rest.drop_first() =~= all.skip(next + 1));
        let name = keyword(names[next].as_str());
        let key = name.as_str();
        let bits: u32 = if same_text(key, "hidden") {
            0x8000
        } else if same_text(key, "immutable") {
            0x0002_0002
        } else if same_text(key, "append") {
            0x0004_0004
        } else if same_text(key, "nodump") {
            0x0001
        } else if same_text(key, "compressed") {
            0x0020
        } else if same_text(key, "dataless") || same_text(key, "placeholder") {
            0x4000_0000
        } else {
            let mut message = joined("Unsupported native flag '", names[next].as_str());
            message.append("'");
            return Err(message);
        };
        mask = mask | bits;
        next = next + 1;
    }
    assert(all.skip(next as int) =~= Seq::<Seq<char>>::empty());
    Ok(mask)
}

/// The query of a type name.
pub open spec fn type_result(value: Seq<char>) -> Result<QueryView, Seq<char>> {
    let low = text::lower(value);
    if low == "file"@ {
        Ok(QueryView::Term(TermView::IsDir(false)))
    } else if low == "folder"@ || low == "directory"@ {
        Ok(QueryView::Term(TermView::IsDir(true)))
    } else if low == "symlink"@ || low == "link"@ {
        Ok(QueryView::Term(TermView::IsSymlink))
    } else {
        Err("type: accepts file, folder, or symlink"@)
    }
}

fn type_query(value: &str) -> (result: Result<Query, String>)
    ensures
        agrees(result, type_result(value@)),
{
    let low = lower_ascii(value);
    let low = low.as_str();
    if same_text(low, "file") {
        Ok(term_query(Term::IsDir(false)))
    } else if same_text(low, "folder") || same_text(low, "directory") {
        Ok(term_query(Term::IsDir(true)))
    } else if same_text(low, "symlink") || same_text(low, "link") {
        Ok(term_query(Term::IsSymlink))
    } else {
        Err("type: accepts file, folder, or symlink".to_owned())
    }
}

/// What a `key:` function is.
pub enum Function {
    Extension,
    Type,
    Hidden,
    Symlink,
    Empty,
    Number,
    Modified,
    Created,
    Attributes,
    Flags,
    Unsupported,
}

/// The function that a keyword names.
#[verifier::opaque]
pub open spec fn function_of(key: Seq<char>, value: Seq<char>) -> Function {
    if key == "ext"@ || key == "extension"@ {
        Function::Extension
    } else if key == "type"@ {
        Function::Type
    } else if key == "hidden"@ && value.len() == 0 {
        Function::Hidden
    } else if key == "symlink"@ && value.len() == 0 {
        Function::Symlink
    } else if key == "empty"@ && value.len() == 0 {
        Function::Empty
    } else if key == "size"@ || options::is_numeric_property(key) || options::is_metric_name(key) {
        Function::Number
    } else if key == "dm"@ || key == "datemodified"@ || key == "modified"@ {
        Function::Modified
    } else if key == "dc"@ || key == "datecreated"@ || key == "created"@ {
        Function::Created
    } else if key == "attrib"@ || key == "attributes"@ {
        Function::Attributes
    } else if key == "flags"@ {
        Function::Flags
    } else {
        Function::Unsupported
    }
}

fn function_named(key: &str, value: &str) -> (function: Function)
    ensures
        function == function_of(key@, value@),
{
    reveal(function_of);
    if same_text(key, "ext") || same_text(key, "extension") {
        Function::Extension
    } else if same_text(key, "type") {
        Function::Type
    } else if same_text(key, "hidden") && value.is_empty() {
        Function::Hidden
    } else if same_text(key, "symlink") && value.is_empty() {
        Function::Symlink
    } else if same_text(key, "empty") && value.is_empty() {
        Function::Empty
    } else if same_text(key, "size") || numeric_property(key) || metric_name(key) {
        Function::Number
    } else if same_text(key, "dm") || same_text(key, "datemodified") || same_text(key, "modified") {
        Function::Modified
    } else if same_text(key, "dc") || same_text(key, "datecreated") || same_text(key, "created") {
        Function::Created
    } else if same_text(key, "attrib") || same_text(key, "attributes") {
        Function::Attributes
    } else if same_text(key, "flags") {
        Function::Flags
    } else {
        Function::Unsupported
    }
}

/// The query of a comparison, and the requests after it.
pub open spec fn number_query(
    field: Seq<char>,
    input: Seq<char>,
    date: bool,
    requests: Seq<RequestView>,
) -> (Result<QueryView, Seq<char>>, Seq<RequestView>) {
    let (term, after) = number_result(field, input, date, requests);
    (Ok(QueryView::Term(term)), after)
}

/// The query of a `key:value` function, and the requests after it.
pub open spec fn function_result(
    key: Seq<char>,
    value: Seq<char>,
    options: OptionsView,
    requests: Seq<RequestView>,
) -> (Result<QueryView, Seq<char>>, Seq<RequestView>) {
    match function_of(key, value) {
        Function::Extension => if !options.modes.sensitive && !options.modes.diacritics {
            (
                Ok(
                    QueryView::Term(
                        TermView::Extension(extension_list(text::split_on(value, ';'))),
                    ),
                ),
                requests,
            )
        } else {
            (
                match extension_queries(text::split_on(value, ';'), options, Seq::empty()) {
                    Ok(queries) => Ok(QueryView::Or(queries)),
                    Err(reason) => Err(reason),
                },
                requests,
            )
        },
        Function::Type => (type_result(value), requests),
        Function::Hidden => (Ok(QueryView::Term(TermView::Hidden)), requests),
        Function::Symlink => (Ok(QueryView::Term(TermView::IsSymlink)), requests),
        Function::Empty => number_query("childcount"@, "=0"@, false, requests),
        Function::Number => number_query(key, value, false, requests),
        Function::Modified => number_query("modified"@, value, true, requests),
        Function::Created => number_query("created"@, value, true, requests),
        Function::Attributes => (attribute_result(value), requests),
        Function::Flags => (
            match flag_mask(text::split_on(value, ';'), 0) {
                Ok(mask) => Ok(QueryView::Term(TermView::Flags(mask))),
                Err(reason) => Err(reason),
            },
            requests,
        ),
        Function::Unsupported => (
            Err(
                "Unsupported search function '"@ + key
                    + ":' (Windows-only properties are not silently ignored)"@,
            ),
            requests,
        ),
    }
}

fn function_query(
    key: &str,
    value: &str,
    options: &MatchOptions,
    requests: &mut Vec<NumberRequest>,
) -> (result: Result<Query, String>)
    requires
        old(requests)@.len() < usize::MAX,
    ensures
        ({
            let (expected, after) = function_result(
                key@,
                value@,
                options@,
                request_views(old(requests)@),
            );
            agrees(result, expected) && request_views(final(requests)@) == after
        }),
        final(requests)@.len() <= old(requests)@.len() + 1,
{
    match function_named(key, value) {
        Function::Extension => {
            if !options.modes.sensitive && !options.modes.diacritics {
                Ok(term_query(Term::Extension(folded_extensions(value))))
            } else {
                special_extensions(value, options)
            }
        },
        Function::Type => type_query(value),
        Function::Hidden => Ok(term_query(Term::Hidden)),
        Function::Symlink => Ok(term_query(Term::IsSymlink)),
        Function::Empty => Ok(term_query(number_term("childcount", "=0", false, requests))),
        Function::Number => Ok(term_query(number_term(key, value, false, requests))),
        Function::Modified => Ok(term_query(number_term("modified", value, true, requests))),
        Function::Created => Ok(term_query(number_term("created", value, true, requests))),
        Function::Attributes => attribute_query(value),
        Function::Flags => match flags_of(value) {
            Ok(mask) => Ok(term_query(Term::Flags(mask))),
            Err(reason) => Err(reason),
        },
        Function::Unsupported => {
            let mut message = joined("Unsupported search function '", key);
            message.append(":' (Windows-only properties are not silently ignored)");
            Err(message)
        },
    }
}

/// A search word with the prefixes that were read off it.
#[verifier::ext_equal]
pub struct AtomView {
    pub rest: Seq<char>,
    pub options: OptionsView,
    pub is_dir: Option<bool>,
}

/// What the prefixes of a search word lead to.
#[verifier::ext_equal]
pub enum PrefixView {
    /// A relation to what the rest asks for.
    Relation { recursive: bool, kind: Option<bool>, atom: AtomView },
    /// The rest.
    Rest(AtomView),
}

/// What is left after `consumed` bytes is quoted.
pub open spec fn is_literal(from: Option<int>, consumed: int) -> bool {
    from matches Some(offset) && consumed >= offset
}

/// What a prefix that is no modifier asks for.
pub enum PrefixWord {
    File,
    Folder,
    Extension,
    Ext,
    Content,
    Property,
    Other,
}

/// What a prefix keyword asks for.
#[verifier::opaque]
pub open spec fn prefix_word(key: Seq<char>) -> PrefixWord {
    if key == "file"@ {
        PrefixWord::File
    } else if key == "folder"@ || key == "dir"@ {
        PrefixWord::Folder
    } else if key == "extension"@ {
        PrefixWord::Extension
    } else if key == "ext"@ {
        PrefixWord::Ext
    } else if key == "content"@ {
        PrefixWord::Content
    } else if options::is_text_property(key) {
        PrefixWord::Property
    } else {
        PrefixWord::Other
    }
}

fn prefix_named(key: &str) -> (word: PrefixWord)
    ensures
        word == prefix_word(key@),
{
    reveal(prefix_word);
    if same_text(key, "file") {
        PrefixWord::File
    } else if same_text(key, "folder") || same_text(key, "dir") {
        PrefixWord::Folder
    } else if same_text(key, "extension") {
        PrefixWord::Extension
    } else if same_text(key, "ext") {
        PrefixWord::Ext
    } else if same_text(key, "content") {
        PrefixWord::Content
    } else if text_property(key) {
        PrefixWord::Property
    } else {
        PrefixWord::Other
    }
}

/// Read one prefix: what follows it, and whether more prefixes may follow.
pub open spec fn prefix_step(atom: AtomView) -> Option<(AtomView, bool)> {
    let at = text::first_at(atom.rest, ':');
    let word = atom.rest.take(at);
    let key = text::keyword_of(word);
    let rest = atom.rest.skip(at + 1);
    let next = AtomView { rest, ..atom };
    match options::modified(atom.options, word) {
        Some(options) => Some((AtomView { options, ..next }, true)),
        None => match prefix_word(key) {
            PrefixWord::File => Some((AtomView { is_dir: Some(false), ..next }, true)),
            PrefixWord::Folder => Some((AtomView { is_dir: Some(true), ..next }, true)),
            PrefixWord::Extension => Some((with_target(next, TargetView::Extension), false)),
            PrefixWord::Ext => if atom.options.modes.regex {
                let target = with_target(next, TargetView::Extension);
                Some((AtomView { options: whole_options(target.options), ..target }, false))
            } else {
                None
            },
            PrefixWord::Content => Some((with_target(next, TargetView::Content), false)),
            PrefixWord::Property => Some(
                (with_target(next, TargetView::Property(text::keyword_of(key))), false),
            ),
            PrefixWord::Other => None,
        },
    }
}

/// A search word that looks elsewhere.
pub open spec fn with_target(atom: AtomView, target: TargetView) -> AtomView {
    AtomView { options: OptionsView { target: Some(target), ..atom.options }, ..atom }
}

/// How many of the `length` bytes of a search word were read.
pub open spec fn consumed(length: int, atom: AtomView) -> int {
    length - text::bytes_of(atom.rest).len()
}

/// Read the prefixes of a search word of `length` bytes.
pub open spec fn read_prefixes(length: int, from: Option<int>, atom: AtomView) -> PrefixView
    decreases atom.rest.len(),
{
    let at = text::first_at(atom.rest, ':');
    if is_literal(from, consumed(length, atom)) || !(0 <= at < atom.rest.len()) {
        PrefixView::Rest(atom)
    } else {
        match options::relation_of(text::keyword_of(atom.rest.take(at))) {
            Some((recursive, kind)) => PrefixView::Relation {
                recursive,
                kind,
                atom: AtomView { rest: atom.rest.skip(at + 1), ..atom },
            },
            None => match prefix_step(atom) {
                Some((next, more)) => if more && next.rest.len() < atom.rest.len() {
                    read_prefixes(length, from, next)
                } else {
                    PrefixView::Rest(next)
                },
                None => PrefixView::Rest(atom),
            },
        }
    }
}

/// The query of a search word whose prefixes are read.
pub open spec fn rest_result(
    length: int,
    from: Option<int>,
    atom: AtomView,
    requests: Seq<RequestView>,
) -> (Result<QueryView, Seq<char>>, Seq<RequestView>) {
    let options = atom.options;
    let at = text::first_at(atom.rest, ':');
    if atom.is_dir is Some && atom.rest.len() == 0 {
        (Ok(QueryView::Term(TermView::IsDir(atom.is_dir->0))), requests)
    } else if options.target is None && !options.modes.regex && !is_literal(
        from,
        consumed(length, atom),
    ) && at < atom.rest.len() {
        let (result, after) = function_result(
            text::keyword_of(atom.rest.take(at)),
            atom.rest.skip(at + 1),
            options,
            requests,
        );
        (restricted_result(result, atom.is_dir), after)
    } else {
        (restricted_result(plain_result(atom), atom.is_dir), requests)
    }
}

/// The query of a search word that is looked for as a text.
pub open spec fn plain_result(atom: AtomView) -> Result<QueryView, Seq<char>> {
    let options = atom.options;
    let s = if options.modes.field == Field::Parent && options.modes.whole
        && text::bytes_of(atom.rest).len() > 1 {
        before_slashes(atom.rest)
    } else {
        atom.rest
    };
    let field = if options.modes.field == Field::Name && s.contains('/') && options.target is None {
        Field::Path
    } else {
        options.modes.field
    };
    let placed = OptionsView { modes: Modes { field, ..options.modes }, ..options };
    let target = match options.target {
        Some(target) => target,
        None => TargetView::Field(field),
    };
    text_result(s, placed, target)
}

/// A result restricted to files or to folders.
pub open spec fn restricted_result(
    result: Result<QueryView, Seq<char>>,
    is_dir: Option<bool>,
) -> Result<QueryView, Seq<char>> {
    match result {
        Ok(query) => Ok(model::restricted(query, is_dir)),
        Err(reason) => Err(reason),
    }
}

/// The query of a search word, and the requests after it.
pub open spec fn atom_result(
    original: Seq<char>,
    inherited: OptionsView,
    from: Option<int>,
    requests: Seq<RequestView>,
) -> (Result<QueryView, Seq<char>>, Seq<RequestView>) {
    let start = AtomView { rest: original, options: inherited, is_dir: None };
    match read_prefixes(text::bytes_of(original).len() as int, from, start) {
        PrefixView::Relation { recursive, kind, atom } => (
            match text_result(atom.rest, atom.options, TargetView::Field(atom.options.modes.field)) {
                Ok(query) => Ok(
                    model::restricted(
                        QueryView::Term(
                            TermView::Related {
                                recursive,
                                query: Box::new(model::restricted(query, kind)),
                            },
                        ),
                        atom.is_dir,
                    ),
                ),
                Err(reason) => Err(reason),
            },
            requests,
        ),
        PrefixView::Rest(atom) => rest_result(
            text::bytes_of(original).len() as int,
            from,
            atom,
            requests,
        ),
    }
}

/// A search word with the prefixes that were read off it.
struct Atom {
    rest: String,
    options: MatchOptions,
    is_dir: Option<bool>,
}

impl View for Atom {
    type V = AtomView;

    closed spec fn view(&self) -> AtomView {
        AtomView { rest: self.rest@, options: self.options@, is_dir: self.is_dir }
    }
}

fn restrict_result(result: Result<Query, String>, is_dir: Option<bool>) -> (restricted: Result<
    Query,
    String,
>)
    ensures
        forall|view: Result<QueryView, Seq<char>>| #[trigger]
            agrees(result, view) ==> agrees(restricted, restricted_result(view, is_dir)),
{
    match result {
        Ok(query) => Ok(restrict_type(query, is_dir)),
        Err(reason) => Err(reason),
    }
}

fn quoted_from(from: Option<usize>, consumed: usize) -> (literal: bool)
    ensures
        literal == is_literal(crate::query::lexer::position(from), consumed as int),
{
    match from {
        Some(offset) => consumed >= offset,
        None => false,
    }
}

/// Read one prefix off a search word that has one: whether it was a known one, and whether more
/// may follow.
fn read_prefix(atom: Atom, word: &str, rest: String) -> (step: (Atom, Option<bool>))
    requires
        ({
            let at = text::first_at(atom@.rest, ':');
            word@ == atom@.rest.take(at) && rest@ == atom@.rest.skip(at + 1)
        }),
    ensures
        match prefix_step(atom@) {
            Some((next, more)) => step.1 == Some(more) && step.0@ == next,
            None => step.1 is None && step.0@ == atom@,
        },
{
    let ghost before = atom@;
    let Atom { rest: whole, mut options, is_dir } = atom;
    if modifier(&mut options, word) {
        return (Atom { rest, options, is_dir }, Some(true));
    }
    let modes = options.modes;
    let key = keyword(word);
    match prefix_named(key.as_str()) {
        PrefixWord::File => (Atom { rest, options, is_dir: Some(false) }, Some(true)),
        PrefixWord::Folder => (Atom { rest, options, is_dir: Some(true) }, Some(true)),
        PrefixWord::Extension => (
            Atom {
                rest,
                options: MatchOptions { modes, target: Some(TextTarget::Extension) },
                is_dir,
            },
            Some(false),
        ),
        PrefixWord::Ext => {
            if modes.regex {
                let modes = Modes { whole: true, ..modes };
                (
                    Atom {
                        rest,
                        options: MatchOptions { modes, target: Some(TextTarget::Extension) },
                        is_dir,
                    },
                    Some(false),
                )
            } else {
                (Atom { rest: whole, options, is_dir }, None)
            }
        },
        PrefixWord::Content => (
            Atom {
                rest,
                options: MatchOptions { modes, target: Some(TextTarget::Content) },
                is_dir,
            },
            Some(false),
        ),
        PrefixWord::Property => (
            Atom {
                rest,
                options: MatchOptions {
                    modes,
                    target: Some(TextTarget::Property(keyword(key.as_str()))),
                },
                is_dir,
            },
            Some(false),
        ),
        PrefixWord::Other => (Atom { rest: whole, options, is_dir }, None),
    }
}

/// The query of a search word. `literal_from` tells behind how many of its bytes the first quoted
/// part begins: nothing from there on is read as a prefix.
pub fn atom_with_options(
    original: &str,
    inherited: &MatchOptions,
    literal_from: Option<usize>,
    requests: &mut Vec<NumberRequest>,
) -> (result: Result<Query, String>)
    requires
        old(requests)@.len() < usize::MAX,
    ensures
        ({
            let (expected, after) = atom_result(
                original@,
                inherited@,
                crate::query::lexer::position(literal_from),
                request_views(old(requests)@),
            );
            agrees(result, expected) && request_views(final(requests)@) == after
        }),
        final(requests)@.len() <= old(requests)@.len() + 1,
{
    let length = byte_count(original);
    let ghost from = crate::query::lexer::position(literal_from);
    let ghost asked = request_views(requests@);
    let mut atom = Atom { rest: original.to_owned(), options: inherited.clone(), is_dir: None };
    assert(atom@ =~= (AtomView { rest: original@, options: inherited@, is_dir: None }));
    let mut more = true;
    while more
        invariant
            length == text::bytes_of(original@).len(),
            from == crate::query::lexer::position(literal_from),
            old(requests)@ == requests@,
            asked == request_views(requests@),
            text::bytes_of(atom@.rest).len() <= length,
            ({
                let start = AtomView { rest: original@, options: inherited@, is_dir: None };
                let whole = read_prefixes(length as int, from, start);
                &&& more ==> whole == read_prefixes(length as int, from, atom@)
                &&& !more ==> whole == PrefixView::Rest(atom@)
            }),
        decreases atom@.rest.len() + (if more {
            1int
        } else {
            0int
        }),
    {
        let ghost before = atom@;
        let read: usize = length - byte_count(atom.rest.as_str());
        proof {
            let at = text::first_at(atom@.rest, ':');
            text::lemma_first_bounds(atom@.rest, ':');
            if at < atom@.rest.len() {
                text::lemma_rest_bytes(atom@.rest, at + 1);
            }
        }
        if quoted_from(literal_from, read) {
            more = false;
        } else {
            match split_once(atom.rest.as_str(), ':') {
                None => {
                    more = false;
                },
                Some((word, rest)) => {
                    let key = keyword(word.as_str());
                    match relation_kind(key.as_str()) {
                        Some((recursive, kind)) => {
                            let target = TextTarget::Field(atom.options.modes.field);
                            let inner = match text_query(rest.as_str(), &atom.options, target) {
                                Ok(query) => restrict_type(query, kind),
                                Err(reason) => {
                                    return Err(reason);
                                },
                            };
                            let related = related_query(recursive, inner);
                            return Ok(restrict_type(related, atom.is_dir));
                        },
                        None => {
                            let (next, again) = read_prefix(atom, word.as_str(), rest);
                            atom = next;
                            more = match again {
                                Some(again) => again,
                                None => false,
                            };
                        },
                    }
                },
            }
        }
    }
    atom_rest(length, literal_from, atom, requests)
}

/// A relation to what a query asks for.
pub fn related_query(recursive: bool, inner: Query) -> (query: Query)
    ensures
        query@ == QueryView::Term(TermView::Related { recursive, query: Box::new(inner@) }),
{
    let term = Term::Related { recursive, query: Box::new(inner) };
    assert(term@ == TermView::Related { recursive, query: Box::new(inner@) });
    term_query(term)
}

fn atom_rest(
    length: usize,
    literal_from: Option<usize>,
    atom: Atom,
    requests: &mut Vec<NumberRequest>,
) -> (result: Result<Query, String>)
    requires
        old(requests)@.len() < usize::MAX,
        text::bytes_of(atom@.rest).len() <= length,
    ensures
        ({
            let (expected, after) = rest_result(
                length as int,
                crate::query::lexer::position(literal_from),
                atom@,
                request_views(old(requests)@),
            );
            agrees(result, expected) && request_views(final(requests)@) == after
        }),
        final(requests)@.len() <= old(requests)@.len() + 1,
{
    let modes = atom.options.modes;
    if let Some(is_dir) = atom.is_dir {
        if atom.rest.as_str().is_empty() {
            return Ok(term_query(Term::IsDir(is_dir)));
        }
    }
    let read: usize = length - byte_count(atom.rest.as_str());
    if atom.options.target.is_none() && !modes.regex && !quoted_from(literal_from, read) {
        proof {
            text::lemma_first_bounds(atom@.rest, ':');
        }
        if let Some((word, value)) = split_once(atom.rest.as_str(), ':') {
            let key = keyword(word.as_str());
            let result = function_query(key.as_str(), value.as_str(), &atom.options, requests);
            return restrict_result(result, atom.is_dir);
        }
    }
    let is_dir = atom.is_dir;
    let result = plain_query(atom);
    restrict_result(result, is_dir)
}

fn plain_query(atom: Atom) -> (result: Result<Query, String>)
    ensures
        agrees(result, plain_result(atom@)),
{
    let modes = atom.options.modes;
    let s = if modes.field == Field::Parent && modes.whole && atom.rest.as_str().as_bytes().len()
        > 1 {
        trim_slashes(atom.rest.as_str())
    } else {
        atom.rest.clone()
    };
    let field = if modes.field == Field::Name && has_char(s.as_str(), '/')
        && atom.options.target.is_none() {
        Field::Path
    } else {
        modes.field
    };
    let target = match &atom.options.target {
        Some(target) => target.clone(),
        None => TextTarget::Field(field),
    };
    let placed = MatchOptions { modes: Modes { field, ..modes }, target: atom.options.target };
    assert(placed@ =~= (OptionsView { modes: Modes { field, ..modes }, ..atom@.options }));
    text_query(s.as_str(), &placed, target)
}

/// A comparison turned round.
pub open spec fn turned(term: TermView) -> TermView {
    match term {
        TermView::Unknown { field, negate } => TermView::Unknown { field, negate: !negate },
        TermView::Number { field, bounds, negate } => TermView::Number {
            field,
            bounds,
            negate: !negate,
        },
        _ => term,
    }
}

/// A `!` before a comparison turns it round and leaves what is requested as it is, so `!=5` asks
/// for the bounds that `=5` asks for. Only `=unknown` reads as a number where `!=unknown` asks for
/// unknown values.
pub proof fn law_negation_turns_a_comparison_round(
    field: Seq<char>,
    input: Seq<char>,
    date: bool,
    requests: Seq<RequestView>,
)
    requires
        !text::begins(input, "!"@),
        text::lower(input) != "=unknown"@,
    ensures
        ({
            let (term, after) = number_result(field, input, date, requests);
            number_result(field, "!"@ + input, date, requests) == (turned(term), after)
        }),
{
    let negated = "!"@ + input;
    reveal_strlit("!");
    reveal_strlit("=");
    reveal_strlit("!=");
    reveal_strlit("unknown");
    reveal_strlit("=unknown");
    reveal_strlit("!unknown");
    reveal_strlit("!=unknown");
    let (low, high) = (text::lower(input), text::lower(negated));
    assert(negated[0] == '!');
    assert(negated.skip(1) =~= input);
    assert(negated.take(1) =~= "!"@);
    assert(high =~= "!"@ + low);
    assert(text::begins(negated, "!"@));
    assert(high.skip(1) =~= low);
    assert("!unknown"@ =~= "!"@ + "unknown"@);
    assert("!=unknown"@ =~= "!"@ + "=unknown"@);
    assert("!unknown"@.skip(1) =~= "unknown"@);
    assert("!=unknown"@.skip(1) =~= "=unknown"@);
    if low.len() > 0 && low[0] == '!' {
        assert(input[0] == '!');
        assert(input.take(1) =~= "!"@);
    }
    if text::begins(negated, "!="@) {
        assert("="@ + negated.skip(2) =~= input) by {
            assert(negated[1] == '=') by {
                assert(negated.take(2)[1] == "!="@[1]);
            }
        }
    }
    assert(without_negation(input) == input) by {
        if text::begins(input, "!="@) {
            assert(input.take(2)[0] == "!="@[0]);
            assert(input.take(1) =~= "!"@);
        }
    }
    assert(without_negation(negated) == input);
    assert(asks_unknown(negated) == asks_unknown(input)) by {
        if low == "unknown"@ {
            assert(high == "!unknown"@);
        }
        if high == "!unknown"@ {
            assert(low == "unknown"@);
        }
        if high == "unknown"@ {
            assert(high[0] == '!');
        }
        if low == "!unknown"@ || low == "!=unknown"@ {
            assert(low[0] == '!');
        }
    }
    let (term, after) = number_result(field, input, date, requests);
    let (other, rest) = number_result(field, negated, date, requests);
    assert(rest =~= after);
    assert(other == turned(term));
}

} // verus!
