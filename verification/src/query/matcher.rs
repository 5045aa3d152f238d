//! Matching one text against what a query asks for.
use crate::files::IndexedFile;
use crate::fold;
use crate::fold::{fold, fold_search, is_combining_mark, nfc, strip_diacritics};
use crate::paths;
use crate::pcre;
use crate::pcre::Pattern;
use crate::query::options::{Field, MatchOptions, Modes, OptionsView, TargetView, TextTarget};
use crate::text;
use crate::text::{chars_of, contains_text, joined, lower_ascii, same_text};
use vstd::prelude::*;

verus! {

/// Whether a character is alphabetic or numeric.
pub uninterp spec fn alphanumeric(c: char) -> bool;

/// `char::is_alphanumeric`.
pub assume_specification[ char::is_alphanumeric ](c: char) -> (yes: bool)
    ensures
        yes == alphanumeric(c),
;

/// What a wildcard stands for in a regular expression.
pub open spec fn wildcard_piece(c: char) -> Seq<char> {
    if c == '*' {
        "[^/]*"@
    } else if c == '?' {
        "[^/]"@
    } else if special(c) {
        seq!['\\', c]
    } else {
        seq![c]
    }
}

/// Characters that mean something in a regular expression.
pub open spec fn special(c: char) -> bool {
    c == '.' || c == '+' || c == '(' || c == ')' || c == '[' || c == ']' || c == '{' || c == '}' || c
        == '^' || c == '$' || c == '|' || c == '\\'
}

/// The wildcards of a text as pieces of a regular expression.
pub open spec fn wildcard_pieces(source: Seq<char>) -> Seq<char>
    decreases source.len(),
{
    if source.len() == 0 {
        source
    } else {
        wildcard_pieces(source.drop_last()) + wildcard_piece(source.last())
    }
}

/// A text with wildcards as a regular expression for the whole.
pub open spec fn wildcard_source(source: Seq<char>) -> Seq<char> {
    "\\A(?:"@ + wildcard_pieces(source) + ")\\z"@
}

pub fn wildcard_pattern(source: &str) -> (expression: String)
    ensures
        expression@ == wildcard_source(source@),
{
    let mut pieces = String::new();
    for c in iter: source.chars()
        invariant
            iter.seq() == source@,
            pieces@ == wildcard_pieces(source@.take(iter.index() as int)),
    {
        let ghost part = source@.take(iter.index() + 1);
        assert(part.drop_last() =~= source@.take(iter.index() as int));
        assert(part.last() == c);
        let ghost before = pieces@;
        if c == '*' {
            pieces.append("[^/]*");
        } else if c == '?' {
            pieces.append("[^/]");
        } else {
            if c == '.' || c == '+' || c == '(' || c == ')' || c == '[' || c == ']' || c == '{' || c
                == '}' || c == '^' || c == '$' || c == '|' || c == '\\' {
                pieces.push('\\');
            }
            pieces.push(c);
        }
        assert(pieces@ =~= before + wildcard_piece(c));
    }
    assert(source@.take(source@.len() as int) =~= source@);
    let mut expression = joined("\\A(?:", pieces.as_str());
    expression.append(")\\z");
    expression
}

/// A text in the form in which it is compared.
pub open spec fn normal_form(source: Seq<char>, modes: Modes) -> Seq<char> {
    if text::ascii(source) {
        if modes.sensitive {
            source
        } else {
            text::lower(source)
        }
    } else {
        let plain = plain_form(source, modes);
        if modes.sensitive {
            plain
        } else {
            fold::folded(plain)
        }
    }
}

/// A text with its diacritics composed or without them.
pub open spec fn plain_form(source: Seq<char>, modes: Modes) -> Seq<char> {
    if modes.diacritics {
        fold::canonical_composition(source)
    } else {
        fold::bare(source)
    }
}

fn plain(source: &str, modes: Modes) -> (result: String)
    ensures
        result@ == plain_form(source@, modes),
{
    if modes.diacritics {
        nfc(source)
    } else {
        strip_diacritics(source)
    }
}

pub fn normalized(source: &str, modes: Modes) -> (result: String)
    ensures
        result@ == normal_form(source@, modes),
{
    if source.is_ascii() {
        return if modes.sensitive {
            source.to_owned()
        } else {
            lower_ascii(source)
        };
    }
    let result = plain(source, modes);
    if modes.sensitive {
        result
    } else {
        fold(result.as_str())
    }
}

/// The regular expression for what a query asks for.
pub open spec fn expression_source(source: Seq<char>, options: OptionsView, wildcard: bool) -> Seq<
    char,
> {
    let modes = options.modes;
    let plain = plain_form(source, modes);
    let body = if wildcard {
        wildcard_source(plain)
    } else {
        plain
    };
    let word = if about_content(options) {
        "\\p{L}\\p{N}\\p{M}_"@
    } else {
        "\\p{L}\\p{N}\\p{M}"@
    };
    let bounded = if modes.whole {
        "\\A(?:"@ + body + ")\\z"@
    } else {
        let started = if modes.start {
            "\\A(?:"@ + body + ")"@
        } else {
            body
        };
        let ended = if modes.end {
            "(?:"@ + started + ")\\z"@
        } else {
            started
        };
        let fronted = if modes.prefix {
            "(?<!["@ + word + "])(?:"@ + ended + ")"@
        } else {
            ended
        };
        if modes.suffix {
            "(?:"@ + fronted + ")(?!["@ + word + "])"@
        } else {
            fronted
        }
    };
    let dots = if modes.dot_all {
        "(?s)"@
    } else {
        ""@
    };
    let lines = if modes.multiline {
        "(?m)"@
    } else {
        ""@
    };
    dots + lines + bounded
}

fn wrapped(before: &str, body: &str, after: &str) -> (result: String)
    ensures
        result@ == before@ + body@ + after@,
{
    let mut result = joined(before, body);
    result.append(after);
    result
}

fn expression(source: &str, options: &MatchOptions, wildcard: bool) -> (result: String)
    ensures
        result@ == expression_source(source@, options@, wildcard),
{
    let modes = options.modes;
    let mut body = plain(source, modes);
    if wildcard {
        body = wildcard_pattern(body.as_str());
    }
    let word = match &options.target {
        Some(TextTarget::Content) => "\\p{L}\\p{N}\\p{M}_",
        _ => "\\p{L}\\p{N}\\p{M}",
    };
    if modes.whole {
        body = wrapped("\\A(?:", body.as_str(), ")\\z");
    } else {
        if modes.start {
            body = wrapped("\\A(?:", body.as_str(), ")");
        }
        if modes.end {
            body = wrapped("(?:", body.as_str(), ")\\z");
        }
        if modes.prefix {
            let front = wrapped("(?<![", word, "])(?:");
            body = wrapped(front.as_str(), body.as_str(), ")");
        }
        if modes.suffix {
            let ghost inner = body@;
            let back = wrapped(")(?![", word, "])");
            body = wrapped("(?:", body.as_str(), back.as_str());
            assert(body@ =~= "(?:"@ + inner + ")(?!["@ + word@ + "])"@);
        }
    }
    let dots = if modes.dot_all {
        "(?s)"
    } else {
        ""
    };
    let lines = if modes.multiline {
        "(?m)"
    } else {
        ""
    };
    wrapped(dots, lines, body.as_str())
}

/// The mathematical value of a `TextMatcher`.
#[verifier::ext_equal]
pub struct MatcherView {
    pub needle: Seq<char>,
    pub candidate_needle: Seq<char>,
    pub regex: Option<(Seq<char>, bool)>,
    pub options: OptionsView,
}

/// A text to be found, and how.
#[derive(Debug)]
pub struct TextMatcher {
    pub needle: String,
    pub candidate_needle: String,
    pub regex: Option<Pattern>,
    pub options: MatchOptions,
}

impl View for TextMatcher {
    type V = MatcherView;

    open spec fn view(&self) -> MatcherView {
        MatcherView {
            needle: self.needle@,
            candidate_needle: self.candidate_needle@,
            regex: match self.regex {
                Some(pattern) => Some((pattern.source(), pattern.sensitive())),
                None => None,
            },
            options: self.options@,
        }
    }
}

/// The matcher for a text, or why there is none.
pub open spec fn matcher_for(source: Seq<char>, options: OptionsView, wildcard: bool) -> Result<
    MatcherView,
    Seq<char>,
> {
    let sensitive = options.modes.sensitive;
    let needle = normal_form(source, options.modes);
    let candidate_needle = fold::search_folded(source);
    if options.modes.regex || wildcard {
        let limited = pcre::limited(expression_source(source, options, wildcard));
        match pcre::expression_fault(limited, sensitive) {
            None => Ok(
                MatcherView { needle, candidate_needle, regex: Some((limited, sensitive)), options },
            ),
            Some(reason) => Err("Invalid PCRE2 pattern: "@ + reason),
        }
    } else {
        Ok(MatcherView { needle, candidate_needle, regex: None, options })
    }
}

/// Whether a text is looked for in file contents.
pub open spec fn about_content(options: OptionsView) -> bool {
    options.target == Some(TargetView::Content)
}

/// Whether a character belongs to a word.
pub open spec fn word_char(c: char, content: bool) -> bool {
    alphanumeric(c) || (content && c == '_') || fold::combining_mark(c)
}

/// `needle` stands at `at` with the boundaries that are asked for.
pub open spec fn bounded_at(
    haystack: Seq<char>,
    needle: Seq<char>,
    modes: Modes,
    content: bool,
    at: int,
) -> bool {
    let end = at + needle.len();
    &&& 0 <= at
    &&& end <= haystack.len()
    &&& haystack.subrange(at, end) == needle
    &&& modes.start ==> at == 0
    &&& modes.end ==> end == haystack.len()
    &&& modes.prefix ==> at == 0 || !word_char(haystack[at - 1], content)
    &&& modes.suffix ==> end == haystack.len() || !word_char(haystack[end], content)
}

/// Whether a normalized text holds what is asked for.
pub open spec fn literal_match(m: MatcherView, haystack: Seq<char>) -> bool {
    if m.options.modes.whole {
        haystack == m.needle
    } else {
        exists|at: int|
            bounded_at(haystack, m.needle, m.options.modes, about_content(m.options), at)
    }
}

/// Whether a text holds what is asked for.
pub open spec fn text_match(m: MatcherView, haystack: Seq<char>) -> bool {
    match m.regex {
        Some((source, sensitive)) => expression_match(source, sensitive, m.options.modes, haystack),
        None => literal_match(
            m,
            if text::ascii(haystack) && m.options.modes.sensitive {
                haystack
            } else {
                normal_form(haystack, m.options.modes)
            },
        ),
    }
}

/// Whether an expression matches a text, in the form in which expressions see it.
pub open spec fn expression_match(
    source: Seq<char>,
    sensitive: bool,
    modes: Modes,
    haystack: Seq<char>,
) -> bool {
    pcre::expression_matches(
        source,
        sensitive,
        text::bytes_of(
            if text::ascii(haystack) {
                haystack
            } else {
                plain_form(haystack, modes)
            },
        ),
    )
}

/// The parent of a path, or nothing where it has none.
pub open spec fn parent_text(path: Seq<char>) -> Seq<char> {
    match paths::parent_path(path) {
        Some(parent) => parent,
        None => Seq::empty(),
    }
}

pub fn normalized_parent(path: &str) -> (parent: String)
    ensures
        parent@ == parent_text(path@),
{
    match paths::parent(path) {
        Some(parent) => parent,
        None => {
            let empty = String::new();
            assert(empty@ =~= Seq::<char>::empty());
            empty
        },
    }
}

/// Whether a field of a row holds what is asked for.
pub open spec fn field_match(m: MatcherView, file: IndexedFile, field: Field) -> bool {
    if m.regex is None && !m.options.modes.sensitive {
        literal_match(
            m,
            if m.options.modes.diacritics {
                match field {
                    Field::Name => file.folded_name@,
                    Field::Path => file.folded_path@,
                    Field::Parent => parent_text(file.folded_path@),
                }
            } else {
                match field {
                    Field::Name => file.search_name@,
                    Field::Path => file.search_path@,
                    Field::Parent => parent_text(file.search_path@),
                }
            },
        )
    } else {
        text_match(m, file.field_text(field))
    }
}

/// The bytes of a text stand where its characters stand.
proof fn lemma_bytes_concat(a: Seq<char>, b: Seq<char>)
    ensures
        text::bytes_of(a + b) == text::bytes_of(a) + text::bytes_of(b),
    decreases a.len(),
{
    if a.len() == 0 {
        assert(a + b =~= b);
        assert(text::bytes_of(a) + text::bytes_of(b) =~= text::bytes_of(b));
    } else {
        lemma_bytes_concat(a.drop_first(), b);
        assert((a + b).drop_first() =~= a.drop_first() + b);
        assert(text::bytes_of(a + b) =~= text::bytes_of(a) + text::bytes_of(b));
    }
}

proof fn lemma_chars_occur(haystack: Seq<char>, needle: Seq<char>, at: int)
    requires
        0 <= at,
        at + needle.len() <= haystack.len(),
        haystack.subrange(at, at + needle.len()) == needle,
    ensures
        text::occurs(text::bytes_of(haystack), text::bytes_of(needle)),
{
    let (head, tail) = (haystack.take(at), haystack.skip(at + needle.len()));
    assert(haystack =~= head + (needle + tail));
    lemma_bytes_concat(head, needle + tail);
    lemma_bytes_concat(needle, tail);
    let (h, n) = (text::bytes_of(head), text::bytes_of(needle));
    assert(text::bytes_of(haystack).subrange(h.len() as int, h.len() as int + n.len()) =~= n);
    assert(text::occurs_at(text::bytes_of(haystack), n, h.len() as int));
}

impl TextMatcher {
    pub fn new(s: &str, options: &MatchOptions, wildcard: bool) -> (result: Result<Self, String>)
        ensures
            match matcher_for(s@, options@, wildcard) {
                Ok(view) => result matches Ok(matcher) && matcher@ == view,
                Err(reason) => result matches Err(message) && message@ == reason,
            },
    {
        let regex = if options.modes.regex || wildcard {
            let source = expression(s, options, wildcard);
            match pcre::pattern(source.as_str(), options.modes.sensitive) {
                Ok(compiled) => Some(compiled),
                Err(reason) => {
                    return Err(reason);
                },
            }
        } else {
            None
        };
        Ok(
            TextMatcher {
                needle: normalized(s, options.modes),
                candidate_needle: fold_search(s),
                regex,
                options: options.clone(),
            },
        )
    }

    /// Whether a normalized text holds what is asked for.
    pub fn matches_normalized(&self, haystack: &str) -> (found: bool)
        ensures
            found == literal_match(self@, haystack@),
    {
        let modes = self.options.modes;
        if modes.whole {
            return same_text(haystack, self.needle.as_str());
        }
        let content = matches!(&self.options.target, Some(TextTarget::Content));
        if !contains_text(haystack, self.needle.as_str()) {
            proof {
                assert forall|at: int| !bounded_at(haystack@, self.needle@, modes, content, at) by {
                    if bounded_at(haystack@, self.needle@, modes, content, at) {
                        lemma_chars_occur(haystack@, self.needle@, at);
                    }
                }
            }
            return false;
        }
        let (chars, needle) = (chars_of(haystack), chars_of(self.needle.as_str()));
        if needle.len() > chars.len() {
            return false;
        }
        let last: usize = chars.len() - needle.len();
        let mut at: usize = 0;
        loop
            invariant
                chars@ == haystack@,
                needle@ == self.needle@,
                !modes.whole,
                modes == self.options.modes,
                content == about_content(self@.options),
                at <= last,
                last + needle@.len() == chars@.len(),
                forall|i: int| 0 <= i < at ==> !bounded_at(haystack@, self.needle@, modes, content, i),
            decreases last - at,
        {
            if stands_at(&chars, &needle, modes, content, at) {
                assert(bounded_at(
                    haystack@,
                    self@.needle,
                    self@.options.modes,
                    about_content(self@.options),
                    at as int,
                ));
                return true;
            }
            if at == last {
                return false;
            }
            at = at + 1;
        }
    }

    /// Whether a text holds what is asked for. Only a failed expression search is an error.
    pub fn matches(&self, haystack: &str) -> (result: Result<bool, String>)
        ensures
            match result {
                Ok(found) => found == text_match(self@, haystack@),
                Err(message) => self.regex is Some && text::begins(
                    message@,
                    "PCRE2 matching failed: "@,
                ),
            },
    {
        let modes = self.options.modes;
        match &self.regex {
            Some(regex) => {
                // Expressions use Unicode case matching themselves; neither their source nor
                // the text is ever case-folded.
                if haystack.is_ascii() {
                    regex.is_match(haystack)
                } else {
                    regex.is_match(plain(haystack, modes).as_str())
                }
            },
            None => {
                if haystack.is_ascii() && modes.sensitive {
                    return Ok(self.matches_normalized(haystack));
                }
                let normal = normalized(haystack, modes);
                Ok(self.matches_normalized(normal.as_str()))
            },
        }
    }

    /// Whether a field of a row holds what is asked for.
    pub fn matches_file(&self, file: &IndexedFile, field: Field) -> (result: Result<bool, String>)
        ensures
            match result {
                Ok(found) => found == field_match(self@, *file, field),
                Err(message) => self.regex is Some && text::begins(
                    message@,
                    "PCRE2 matching failed: "@,
                ),
            },
    {
        if self.regex.is_none() && !self.options.modes.sensitive {
            if self.options.modes.diacritics {
                return Ok(
                    match field {
                        Field::Name => self.matches_normalized(file.folded_name.as_str()),
                        Field::Path => self.matches_normalized(file.folded_path.as_str()),
                        Field::Parent => self.matches_normalized(
                            normalized_parent(file.folded_path.as_str()).as_str(),
                        ),
                    },
                );
            }
            return Ok(
                match field {
                    Field::Name => self.matches_normalized(file.search_name.as_str()),
                    Field::Path => self.matches_normalized(file.search_path.as_str()),
                    Field::Parent => self.matches_normalized(
                        normalized_parent(file.search_path.as_str()).as_str(),
                    ),
                },
            );
        }
        self.matches(file.text(field))
    }
}

fn belongs_to_word(c: char, content: bool) -> (yes: bool)
    ensures
        yes == word_char(c, content),
{
    c.is_alphanumeric() || (content && c == '_') || is_combining_mark(c)
}

fn stands_at(
    haystack: &Vec<char>,
    needle: &Vec<char>,
    modes: Modes,
    content: bool,
    at: usize,
) -> (yes: bool)
    requires
        at + needle@.len() <= haystack@.len(),
    ensures
        yes == bounded_at(haystack@, needle@, modes, content, at as int),
{
    let total: usize = haystack.len();
    let end: usize = at + needle.len();
    let mut next: usize = 0;
    let ghost window = haystack@.subrange(at as int, end as int);
    while next < needle.len()
        invariant
            next <= needle@.len(),
            at + needle@.len() == end <= haystack@.len(),
            window == haystack@.subrange(at as int, end as int),
            forall|i: int| 0 <= i < next ==> window[i] == #[trigger] needle@[i],
        decreases needle@.len() - next,
    {
        assert(window[next as int] == haystack@[at + next]);
        if haystack[at + next] != needle[next] {
            return false;
        }
        next = next + 1;
    }
    assert(window =~= needle@);
    (!modes.start || at == 0) && (!modes.end || end == haystack.len()) && (!modes.prefix || at == 0
        || !belongs_to_word(haystack[at - 1], content)) && (!modes.suffix || end == haystack.len()
        || !belongs_to_word(haystack[end], content))
}

} // verus!
