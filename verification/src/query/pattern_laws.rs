//! What wildcards and words match, said of the characters of the pattern and of the text.
//!
//! The expressions that wildcards become are read back here by what they mean: an escaped or
//! plain character stands for itself, `[^/]` for one character other than a slash, and `[^/]*`
//! for a run of them.
use crate::fold;
use crate::pcre;
use crate::query::matcher;
use crate::query::matcher::MatcherView;
use crate::query::options;
use crate::query::options::{Modes, OptionsView};
use crate::text;
use vstd::prelude::*;

verus! {

/// One part of an expression.
pub enum Part {
    /// This character.
    Exactly(char),
    /// One character that is no slash.
    AnyOne,
    /// A run of characters that are no slashes.
    AnyRun,
}

/// Characters that stand for more than themselves in an expression.
pub open spec fn meaningful(c: char) -> bool {
    c == '\\' || c == '^' || c == '$' || c == '.' || c == '[' || c == ']' || c == '|' || c == '('
        || c == ')' || c == '*' || c == '+' || c == '?' || c == '{' || c == '}'
}

/// The parts of an expression that is made of characters, escaped characters, and `[^/]` with or
/// without a star.
pub open spec fn read_parts(e: Seq<char>) -> Option<Seq<Part>>
    decreases e.len(),
{
    if e.len() == 0 {
        Some(Seq::empty())
    } else if e.len() >= 5 && e[0] == '[' && e[1] == '^' && e[2] == '/' && e[3] == ']' && e[4]
        == '*' {
        match read_parts(e.skip(5)) {
            Some(rest) => Some(seq![Part::AnyRun] + rest),
            None => None,
        }
    } else if e.len() >= 4 && e[0] == '[' && e[1] == '^' && e[2] == '/' && e[3] == ']' {
        match read_parts(e.skip(4)) {
            Some(rest) => Some(seq![Part::AnyOne] + rest),
            None => None,
        }
    } else if e.len() >= 2 && e[0] == '\\' && meaningful(e[1]) {
        match read_parts(e.skip(2)) {
            Some(rest) => Some(seq![Part::Exactly(e[1])] + rest),
            None => None,
        }
    } else if !meaningful(e[0]) {
        match read_parts(e.skip(1)) {
            Some(rest) => Some(seq![Part::Exactly(e[0])] + rest),
            None => None,
        }
    } else {
        None
    }
}

/// No character of a text is a slash.
pub open spec fn without_slash(t: Seq<char>) -> bool {
    forall|i: int| 0 <= i < t.len() ==> #[trigger] t[i] != '/'
}

/// The parts, one after the other, cover the text. A run is empty, or it is one character that is
/// no slash and a run again.
pub open spec fn parts_fit(parts: Seq<Part>, t: Seq<char>) -> bool
    decreases parts.len() + t.len(),
{
    if parts.len() == 0 {
        t.len() == 0
    } else {
        match parts[0] {
            Part::Exactly(c) => t.len() > 0 && t[0] == c && parts_fit(parts.skip(1), t.skip(1)),
            Part::AnyOne => t.len() > 0 && t[0] != '/' && parts_fit(parts.skip(1), t.skip(1)),
            Part::AnyRun => parts_fit(parts.skip(1), t) || (t.len() > 0 && t[0] != '/'
                && parts_fit(parts, t.skip(1))),
        }
    }
}

/// An expression for the whole of a text, `\A(?:` and `)\z` round its parts, fits the text.
pub open spec fn whole_fits(expression: Seq<char>, t: Seq<char>) -> bool {
    let inner = expression.len() - 8;
    &&& inner >= 0
    &&& expression.take(5) == seq!['\\', 'A', '(', '?', ':']
    &&& expression.skip(5 + inner) == seq![')', '\\', 'z']
    &&& read_parts(expression.subrange(5, 5 + inner)) matches Some(parts)
    &&& parts_fit(parts, t)
}

/// What a pattern with wildcards asks of a text.
pub open spec fn pattern_fits(pattern: Seq<char>, t: Seq<char>) -> bool {
    whole_fits(matcher::wildcard_source(pattern), t)
}

/// The part that a character of a pattern should become.
spec fn part_for(c: char) -> Part {
    if c == '*' {
        Part::AnyRun
    } else if c == '?' {
        Part::AnyOne
    } else {
        Part::Exactly(c)
    }
}

spec fn parts_for(pattern: Seq<char>) -> Seq<Part> {
    pattern.map_values(|c: char| part_for(c))
}

proof fn lemma_pieces_front(pattern: Seq<char>)
    requires
        pattern.len() > 0,
    ensures
        matcher::wildcard_pieces(pattern) == matcher::wildcard_piece(pattern[0])
            + matcher::wildcard_pieces(pattern.skip(1)),
    decreases pattern.len(),
{
    let init = pattern.drop_last();
    if pattern.len() == 1 {
        assert(init =~= Seq::<char>::empty());
        assert(pattern.skip(1) =~= Seq::<char>::empty());
        assert(Seq::<char>::empty() + matcher::wildcard_piece(pattern[0])
            =~= matcher::wildcard_piece(pattern[0]) + Seq::<char>::empty());
    } else {
        lemma_pieces_front(init);
        assert(init.skip(1) =~= pattern.skip(1).drop_last());
        assert(pattern.skip(1).last() == pattern.last());
        let (a, b, c) = (
            matcher::wildcard_piece(pattern[0]),
            matcher::wildcard_pieces(init.skip(1)),
            matcher::wildcard_piece(pattern.last()),
        );
        assert((a + b) + c =~= a + (b + c));
    }
}

/// No piece begins with a star, and each has a first character.
proof fn lemma_pieces_begin(pattern: Seq<char>)
    ensures
        matcher::wildcard_pieces(pattern).len() > 0 ==> matcher::wildcard_pieces(pattern)[0] != '*',
{
    reveal_strlit("[^/]*");
    reveal_strlit("[^/]");
    if pattern.len() > 0 {
        lemma_pieces_front(pattern);
    }
}

proof fn lemma_pieces_read(pattern: Seq<char>)
    ensures
        read_parts(matcher::wildcard_pieces(pattern)) == Some(parts_for(pattern)),
    decreases pattern.len(),
{
    reveal_strlit("[^/]*");
    reveal_strlit("[^/]");
    let e = matcher::wildcard_pieces(pattern);
    if pattern.len() == 0 {
        assert(parts_for(pattern) =~= Seq::<Part>::empty());
    } else {
        let rest = pattern.skip(1);
        lemma_pieces_front(pattern);
        lemma_pieces_read(rest);
        lemma_pieces_begin(rest);
        let c = pattern[0];
        let piece = matcher::wildcard_piece(c);
        let tail = matcher::wildcard_pieces(rest);
        assert(e.skip(piece.len() as int) =~= tail);
        assert(parts_for(pattern) =~= seq![part_for(c)] + parts_for(rest));
        if c == '*' {
            assert(piece.len() == 5);
            assert(e[4] == '*');
        } else if c == '?' {
            assert(piece.len() == 4);
            assert(e.len() > 4 ==> e[4] == tail[0]);
        } else if matcher::special(c) {
            assert(e[0] == '\\' && e[1] == c);
        } else {
            assert(e[0] == c);
        }
    }
}

proof fn lemma_fits(pattern: Seq<char>, t: Seq<char>)
    ensures
        pattern_fits(pattern, t) == parts_fit(parts_for(pattern), t),
{
    reveal_strlit("\\A(?:");
    reveal_strlit(")\\z");
    lemma_pieces_read(pattern);
    let e = matcher::wildcard_source(pattern);
    let inner = matcher::wildcard_pieces(pattern);
    assert(e.len() == inner.len() + 8);
    assert(e.take(5) =~= seq!['\\', 'A', '(', '?', ':']);
    assert(e.skip(5int + inner.len()) =~= seq![')', '\\', 'z']);
    assert(e.subrange(5, 5int + inner.len()) =~= inner);
}

proof fn lemma_one_part(part: Part, t: Seq<char>)
    ensures
        parts_fit(seq![part], t) == match part {
            Part::Exactly(c) => t == seq![c],
            Part::AnyOne => t.len() == 1 && t[0] != '/',
            Part::AnyRun => without_slash(t),
        },
    decreases t.len(),
{
    let none = seq![part].skip(1);
    assert(none =~= Seq::<Part>::empty());
    assert(seq![part][0] == part);
    assert(parts_fit(none, t) == (t.len() == 0));
    if t.len() > 0 {
        assert(parts_fit(none, t.skip(1)) == (t.len() == 1));
    }
    match part {
        Part::Exactly(c) => {
            assert((t.len() == 1 && t[0] == c) == (t =~= seq![c]));
        },
        Part::AnyOne => {},
        Part::AnyRun => {
            if t.len() > 0 {
                lemma_one_part(part, t.skip(1));
                lemma_slashes(t);
            }
        },
    }
}

proof fn lemma_slashes(t: Seq<char>)
    requires
        t.len() > 0,
    ensures
        without_slash(t) == (t[0] != '/' && without_slash(t.skip(1))),
{
    if without_slash(t) {
        assert forall|i: int| 0 <= i < t.skip(1).len() implies #[trigger] t.skip(1)[i] != '/' by {
            assert(t.skip(1)[i] == t[i + 1]);
        }
    }
    if t[0] != '/' && without_slash(t.skip(1)) {
        assert forall|i: int| 0 <= i < t.len() implies #[trigger] t[i] != '/' by {
            if i > 0 {
                assert(t.skip(1)[i - 1] == t[i]);
            }
        }
    }
}

/// A place where a text can be cut so that the first parts cover what stands before it and the
/// other parts what stands behind it.
spec fn cut_at(a: Seq<Part>, b: Seq<Part>, t: Seq<char>, n: int) -> bool {
    0 <= n <= t.len() && parts_fit(a, t.take(n)) && parts_fit(b, t.skip(n))
}

spec fn can_cut(a: Seq<Part>, b: Seq<Part>, t: Seq<char>) -> bool {
    exists|n: int| #[trigger] cut_at(a, b, t, n)
}

/// A cut behind the first character is a cut of what follows it.
proof fn lemma_cut_later(
    a: Seq<Part>,
    rest: Seq<Part>,
    b: Seq<Part>,
    t: Seq<char>,
    n: int,
)
    requires
        t.len() > 0,
        0 <= n < t.len(),
        parts_fit(a, t.take(n + 1)) == parts_fit(rest, t.take(n + 1).skip(1)),
    ensures
        cut_at(a, b, t, n + 1) == cut_at(rest, b, t.skip(1), n),
{
    assert(t.take(n + 1).skip(1) =~= t.skip(1).take(n));
    assert(t.skip(1).skip(n) =~= t.skip(n + 1));
}

proof fn lemma_cut(a: Seq<Part>, b: Seq<Part>, t: Seq<char>)
    ensures
        parts_fit(a + b, t) == can_cut(a, b, t),
    decreases a.len() + t.len(),
{
    let all = a + b;
    assert(t.skip(0) =~= t);
    assert(t.take(0) =~= Seq::<char>::empty());
    if a.len() == 0 {
        assert(all =~= b);
        assert(cut_at(a, b, t, 0) == parts_fit(b, t));
        if can_cut(a, b, t) {
            let n = choose|n: int| #[trigger] cut_at(a, b, t, n);
            assert(n == 0);
        }
    } else {
        let rest = a.skip(1);
        assert(all.skip(1) =~= rest + b);
        assert(all[0] == a[0]);
        match a[0] {
            Part::AnyRun => {
                lemma_cut(rest, b, t);
                assert forall|n: int| 0 <= n <= t.len() implies (#[trigger] cut_at(a, b, t, n))
                    == (cut_at(rest, b, t, n) || (n > 0 && t[0] != '/' && cut_at(
                    a,
                    b,
                    t.skip(1),
                    n - 1,
                ))) by {
                    let front = t.take(n);
                    assert(parts_fit(a, front) == (parts_fit(rest, front) || (front.len() > 0
                        && front[0] != '/' && parts_fit(a, front.skip(1)))));
                    if n > 0 {
                        assert(front[0] == t[0]);
                        assert(front.skip(1) =~= t.skip(1).take(n - 1));
                        assert(t.skip(1).skip(n - 1) =~= t.skip(n));
                    }
                }
                if t.len() > 0 {
                    lemma_cut(a, b, t.skip(1));
                }
                if parts_fit(all, t) {
                    if can_cut(rest, b, t) {
                        let n = choose|n: int| #[trigger] cut_at(rest, b, t, n);
                        assert(cut_at(a, b, t, n));
                    } else {
                        let n = choose|n: int| #[trigger] cut_at(a, b, t.skip(1), n);
                        assert(cut_at(a, b, t, n + 1));
                    }
                }
                if can_cut(a, b, t) {
                    let n = choose|n: int| #[trigger] cut_at(a, b, t, n);
                    if cut_at(rest, b, t, n) {
                        assert(can_cut(rest, b, t));
                    } else {
                        assert(cut_at(a, b, t.skip(1), n - 1));
                        assert(can_cut(a, b, t.skip(1)));
                    }
                }
            },
            _ => {
                if t.len() > 0 {
                    lemma_cut(rest, b, t.skip(1));
                }
                if parts_fit(all, t) {
                    let n = choose|n: int| #[trigger] cut_at(rest, b, t.skip(1), n);
                    assert(t.take(n + 1)[0] == t[0]);
                    lemma_cut_later(a, rest, b, t, n);
                    assert(cut_at(a, b, t, n + 1));
                }
                if can_cut(a, b, t) {
                    let n = choose|n: int| #[trigger] cut_at(a, b, t, n);
                    assert(t.take(n).len() > 0);
                    assert(t.take(n)[0] == t[0]);
                    lemma_cut_later(a, rest, b, t, n - 1);
                    assert(cut_at(rest, b, t.skip(1), n - 1));
                    assert(can_cut(rest, b, t.skip(1)));
                }
            },
        }
    }
}

/// A single wildcard or character: a question mark fits exactly one character other than a slash,
/// a star any run of such characters, and every other character itself alone.
pub proof fn law_what_a_wildcard_stands_for(c: char, t: Seq<char>)
    ensures
        c == '?' ==> pattern_fits(seq![c], t) == (t.len() == 1 && t[0] != '/'),
        c == '*' ==> pattern_fits(seq![c], t) == without_slash(t),
        c != '?' && c != '*' ==> pattern_fits(seq![c], t) == (t == seq![c]),
{
    lemma_fits(seq![c], t);
    assert(parts_for(seq![c]) =~= seq![part_for(c)]);
    lemma_one_part(part_for(c), t);
}

/// Patterns one after the other fit what they fit one after the other: the text can be cut in two
/// so that each pattern fits its part. The empty pattern fits the empty text alone.
pub proof fn law_patterns_fit_piece_by_piece(first: Seq<char>, second: Seq<char>, t: Seq<char>)
    ensures
        pattern_fits(first + second, t) == (exists|n: int|
            0 <= n <= t.len() && #[trigger] pattern_fits(first, t.take(n)) && pattern_fits(
                second,
                t.skip(n),
            )),
        pattern_fits(Seq::empty(), t) == (t.len() == 0),
{
    let (a, b) = (parts_for(first), parts_for(second));
    lemma_fits(first + second, t);
    lemma_fits(Seq::empty(), t);
    assert(parts_for(Seq::empty()) =~= Seq::<Part>::empty());
    assert(parts_for(first + second) =~= a + b);
    lemma_cut(a, b, t);
    assert forall|n: int| 0 <= n <= t.len() implies cut_at(a, b, t, n) == (#[trigger] pattern_fits(
        first,
        t.take(n),
    ) && pattern_fits(second, t.skip(n))) by {
        lemma_fits(first, t.take(n));
        lemma_fits(second, t.skip(n));
    }
    if can_cut(a, b, t) {
        let n = choose|n: int| #[trigger] cut_at(a, b, t, n);
        assert(pattern_fits(first, t.take(n)));
    }
}

/// As many question marks as a text has characters fit it, and no other number of them does, as
/// long as there is no slash in it; with a slash in it no number of them does.
pub proof fn law_question_marks_count_characters(pattern: Seq<char>, t: Seq<char>)
    requires
        forall|i: int| 0 <= i < pattern.len() ==> #[trigger] pattern[i] == '?',
    ensures
        pattern_fits(pattern, t) == (t.len() == pattern.len() && without_slash(t)),
    decreases pattern.len(),
{
    lemma_fits(pattern, t);
    if pattern.len() == 0 {
        assert(parts_for(pattern) =~= Seq::<Part>::empty());
    } else {
        let rest = pattern.skip(1);
        assert(pattern[0] == '?');
        assert forall|i: int| 0 <= i < rest.len() implies #[trigger] rest[i] == '?' by {
            assert(rest[i] == pattern[i + 1]);
        }
        law_question_marks_count_characters(rest, t.skip(1));
        lemma_fits(rest, t.skip(1));
        assert(parts_for(pattern).skip(1) =~= parts_for(rest));
        assert(parts_for(pattern)[0] == part_for('?'));
        if t.len() > 0 {
            lemma_slashes(t);
        }
    }
}

/// A pattern without wildcards fits itself alone, whatever its characters mean in expressions.
pub proof fn law_other_characters_stand_for_themselves(pattern: Seq<char>, t: Seq<char>)
    requires
        !pattern.contains('*'),
        !pattern.contains('?'),
    ensures
        pattern_fits(pattern, t) == (t == pattern),
    decreases pattern.len(),
{
    lemma_fits(pattern, t);
    if pattern.len() == 0 {
        assert(parts_for(pattern) =~= Seq::<Part>::empty());
        assert(t.len() == 0 <==> t =~= pattern);
    } else {
        let rest = pattern.skip(1);
        assert(pattern.contains(pattern[0]));
        assert forall|c: char| rest.contains(c) implies pattern.contains(c) by {
            let i = choose|i: int| 0 <= i < rest.len() && rest[i] == c;
            assert(pattern[i + 1] == c);
        }
        law_other_characters_stand_for_themselves(rest, t.skip(1));
        lemma_fits(rest, t.skip(1));
        assert(parts_for(pattern).skip(1) =~= parts_for(rest));
        assert(parts_for(pattern)[0] == Part::Exactly(pattern[0]));
        if t.len() > 0 && t[0] == pattern[0] && t.skip(1) == rest {
            assert(t =~= seq![t[0]] + t.skip(1));
            assert(pattern =~= seq![pattern[0]] + rest);
        }
    }
}

/// Modes in which nothing is asked of where a text stands.
pub open spec fn unbounded(modes: Modes) -> bool {
    !modes.whole && !modes.start && !modes.end && !modes.prefix && !modes.suffix && !modes.dot_all
        && !modes.multiline
}

/// A search with wildcards hands on the expression of its pattern, and nothing else: what a
/// matcher for it asks the library of expressions is what the pattern asks for.
pub proof fn law_wildcard_searches_ask_for_the_pattern(
    source: Seq<char>,
    asked: OptionsView,
    found: MatcherView,
)
    requires
        matcher::matcher_for(source, asked, true) == Ok::<MatcherView, Seq<char>>(found),
        unbounded(asked.modes),
    ensures
        found.regex matches Some(handed) && handed.1 == asked.modes.sensitive && handed.0
            == pcre::limited(
            matcher::wildcard_source(matcher::plain_form(source, asked.modes)),
        ),
        found.options == asked,
{
    reveal_strlit("");
    let body = matcher::wildcard_source(matcher::plain_form(source, asked.modes));
    assert(""@ + ""@ + body =~= body);
}

/// A text occurs in another.
pub open spec fn occurs_in(needle: Seq<char>, t: Seq<char>) -> bool {
    exists|at: int|
        0 <= at && at + needle.len() <= t.len() && #[trigger] t.subrange(at, at + needle.len())
            == needle
}

/// A plain search finds the texts that hold what it looks for; asked for at the start it finds
/// those that begin with it, at the end those that end in it, with both those that do both, and
/// asked for as the whole only what it looks for itself.
pub proof fn law_plain_searches_find_what_holds_the_needle(m: MatcherView, t: Seq<char>)
    requires
        !m.options.modes.prefix,
        !m.options.modes.suffix,
    ensures
        ({
            let (modes, needle) = (m.options.modes, m.needle);
            let n = needle.len() as int;
            let begins = n <= t.len() && t.take(n) == needle;
            let ends = n <= t.len() && t.skip(t.len() - n) == needle;
            let found = matcher::literal_match(m, t);
            &&& modes.whole ==> found == (t == needle)
            &&& !modes.whole && !modes.start && !modes.end ==> found == occurs_in(needle, t)
            &&& !modes.whole && modes.start && !modes.end ==> found == begins
            &&& !modes.whole && !modes.start && modes.end ==> found == ends
            &&& !modes.whole && modes.start && modes.end ==> found == (t == needle)
        }),
{
    let (modes, needle) = (m.options.modes, m.needle);
    let content = matcher::about_content(m.options);
    let n = needle.len() as int;
    let found = matcher::literal_match(m, t);
    if !modes.whole {
        if found {
            let at = choose|at: int| matcher::bounded_at(t, needle, modes, content, at);
            assert(t.subrange(at, at + needle.len()) == needle);
            if modes.start {
                assert(t.take(n) =~= t.subrange(at, at + n));
            }
            if modes.end {
                assert(t.skip(t.len() - n) =~= t.subrange(at, at + n));
            }
            if modes.start && modes.end {
                assert(t =~= t.subrange(at, at + n));
            }
        }
        if occurs_in(needle, t) && !modes.start && !modes.end {
            let at = choose|at: int|
                0 <= at && at + needle.len() <= t.len() && #[trigger] t.subrange(
                    at,
                    at + needle.len(),
                ) == needle;
            assert(matcher::bounded_at(t, needle, modes, content, at));
        }
        if n <= t.len() && t.take(n) == needle && !modes.end {
            assert(t.subrange(0, n) =~= t.take(n));
            assert(matcher::bounded_at(t, needle, modes, content, 0));
        }
        if n <= t.len() && t.skip(t.len() - n) == needle && !modes.start {
            assert(t.subrange(t.len() - n, t.len() as int) =~= t.skip(t.len() - n));
            assert(matcher::bounded_at(t, needle, modes, content, t.len() - n));
        }
        if t == needle {
            assert(t.subrange(0, n) =~= t);
            assert(matcher::bounded_at(t, needle, modes, content, 0));
        }
    }
}

/// A search for the beginning of a word finds a text where what it looks for stands and no
/// character of a word stands before it; one for the end of a word where none stands behind it.
pub proof fn law_word_searches_stop_at_words(m: MatcherView, t: Seq<char>)
    requires
        !m.options.modes.whole,
        !m.options.modes.start,
        !m.options.modes.end,
    ensures
        ({
            let (modes, needle) = (m.options.modes, m.needle);
            let content = matcher::about_content(m.options);
            matcher::literal_match(m, t) == (exists|at: int|
                {
                    let end = at + needle.len();
                    &&& 0 <= at
                    &&& end <= t.len()
                    &&& #[trigger] t.subrange(at, at + needle.len()) == needle
                    &&& modes.prefix && at > 0 ==> !matcher::word_char(t[at - 1], content)
                    &&& modes.suffix && end < t.len() ==> !matcher::word_char(t[end], content)
                })
        }),
{
    let (modes, needle) = (m.options.modes, m.needle);
    let content = matcher::about_content(m.options);
    if matcher::literal_match(m, t) {
        let at = choose|at: int| matcher::bounded_at(t, needle, modes, content, at);
        assert(t.subrange(at, at + needle.len()) == needle);
    }
    if exists|at: int|
        {
            let end = at + needle.len();
            &&& 0 <= at
            &&& end <= t.len()
            &&& #[trigger] t.subrange(at, at + needle.len()) == needle
            &&& modes.prefix && at > 0 ==> !matcher::word_char(t[at - 1], content)
            &&& modes.suffix && end < t.len() ==> !matcher::word_char(t[end], content)
        } {
        let at = choose|at: int|
            {
                let end = at + needle.len();
                &&& 0 <= at
                &&& end <= t.len()
                &&& #[trigger] t.subrange(at, at + needle.len()) == needle
                &&& modes.prefix && at > 0 ==> !matcher::word_char(t[at - 1], content)
                &&& modes.suffix && end < t.len() ==> !matcher::word_char(t[end], content)
            };
        assert(matcher::bounded_at(t, needle, modes, content, at));
    }
}

/// What is asked of where an expression stands is written round it: the anchors of a text before
/// or behind it, or a look at the neighbouring character for the letters, digits and marks of a
/// word; the modes for dots and lines stand before it.
pub proof fn law_expressions_are_bounded_as_asked(
    source: Seq<char>,
    asked: OptionsView,
    wildcard: bool,
)
    requires
        asked.target != Some(options::TargetView::Content),
    ensures
        ({
            let modes = asked.modes;
            let bare = OptionsView {
                modes: Modes {
                    whole: false,
                    start: false,
                    end: false,
                    prefix: false,
                    suffix: false,
                    dot_all: false,
                    multiline: false,
                    ..modes
                },
                ..asked
            };
            let inner = matcher::expression_source(source, bare, wildcard);
            let plain = unbounded(
                Modes { whole: false, start: false, end: false, prefix: false, suffix: false, ..modes },
            );
            let one = |whole: bool, start: bool, end: bool, prefix: bool, suffix: bool|
                plain && modes.whole == whole && modes.start == start && modes.end == end
                    && modes.prefix == prefix && modes.suffix == suffix;
            let all = matcher::expression_source(source, asked, wildcard);
            &&& one(true, false, false, false, false) ==> all == "\\A(?:"@ + inner + ")\\z"@
            &&& one(false, true, false, false, false) ==> all == "\\A(?:"@ + inner + ")"@
            &&& one(false, false, true, false, false) ==> all == "(?:"@ + inner + ")\\z"@
            &&& one(false, false, false, true, false) ==> all
                == "(?<![\\p{L}\\p{N}\\p{M}])(?:"@ + inner + ")"@
            &&& one(false, false, false, false, true) ==> all == "(?:"@ + inner
                + ")(?![\\p{L}\\p{N}\\p{M}])"@
            &&& unbounded(Modes { dot_all: false, ..modes }) && modes.dot_all ==> all == "(?s)"@
                + inner
            &&& unbounded(Modes { multiline: false, ..modes }) && modes.multiline ==> all
                == "(?m)"@ + inner
            &&& !wildcard && unbounded(modes) ==> all == matcher::plain_form(source, modes)
        }),
{
    reveal_strlit("");
    reveal_strlit("(?<![");
    reveal_strlit("\\p{L}\\p{N}\\p{M}");
    reveal_strlit("])(?:");
    reveal_strlit(")(?![");
    reveal_strlit("])");
    reveal_strlit("(?<![\\p{L}\\p{N}\\p{M}])(?:");
    reveal_strlit(")(?![\\p{L}\\p{N}\\p{M}])");
    let plain = matcher::plain_form(source, asked.modes);
    let body = if wildcard {
        matcher::wildcard_source(plain)
    } else {
        plain
    };
    assert(""@ + ""@ + body =~= body);
    assert(""@ + ""@ + ("\\A(?:"@ + body + ")\\z"@) =~= "\\A(?:"@ + body + ")\\z"@);
    assert(""@ + ""@ + ("\\A(?:"@ + body + ")"@) =~= "\\A(?:"@ + body + ")"@);
    assert(""@ + ""@ + ("(?:"@ + body + ")\\z"@) =~= "(?:"@ + body + ")\\z"@);
    assert("(?s)"@ + ""@ + body =~= "(?s)"@ + body);
    assert(""@ + "(?m)"@ + body =~= "(?m)"@ + body);
    let word = "\\p{L}\\p{N}\\p{M}"@;
    let fronted = "(?<!["@ + word + "])(?:"@ + body + ")"@;
    let backed = "(?:"@ + body + ")(?!["@ + word + "])"@;
    assert("(?<!["@ + word + "])(?:"@ =~= "(?<![\\p{L}\\p{N}\\p{M}])(?:"@);
    assert(")(?!["@ + word + "])"@ =~= ")(?![\\p{L}\\p{N}\\p{M}])"@);
    assert(""@ + ""@ + fronted =~= "(?<![\\p{L}\\p{N}\\p{M}])(?:"@ + body + ")"@);
    assert(backed =~= "(?:"@ + body + (")(?!["@ + word + "])"@));
    assert(""@ + ""@ + backed =~= "(?:"@ + body + ")(?![\\p{L}\\p{N}\\p{M}])"@);
}

/// The letters and digits of any script and combining marks belong to words; an underscore does so
/// in contents alone.
pub proof fn law_words_are_letters_digits_and_marks(c: char)
    ensures
        matcher::alphanumeric(c) || fold::combining_mark(c) ==> matcher::word_char(c, true)
            && matcher::word_char(c, false),
        !matcher::alphanumeric(c) && !fold::combining_mark(c) ==> !matcher::word_char(c, false) && (
        matcher::word_char(c, true) == (c == '_')),
{
}

/// Texts are compared without diacritics unless they were asked for, and without case unless it
/// was: in ASCII alone that is small letters, and otherwise the folded text.
pub proof fn law_texts_are_compared_as_asked(source: Seq<char>, modes: Modes)
    ensures
        text::ascii(source) && modes.sensitive ==> matcher::normal_form(source, modes) == source,
        text::ascii(source) && !modes.sensitive ==> matcher::normal_form(source, modes)
            == text::lower(source),
        !text::ascii(source) && modes.sensitive && modes.diacritics ==> matcher::normal_form(
            source,
            modes,
        ) == fold::canonical_composition(source),
        !text::ascii(source) && modes.sensitive && !modes.diacritics ==> matcher::normal_form(
            source,
            modes,
        ) == fold::without_marks(fold::canonical_decomposition(source)),
        !text::ascii(source) && !modes.sensitive && modes.diacritics ==> matcher::normal_form(
            source,
            modes,
        ) == fold::folded(fold::canonical_composition(source)),
        !text::ascii(source) && !modes.sensitive && !modes.diacritics ==> matcher::normal_form(
            source,
            modes,
        ) == fold::folded(fold::without_marks(fold::canonical_decomposition(source))),
        modes.diacritics ==> matcher::plain_form(source, modes) == fold::canonical_composition(
            source,
        ),
        !modes.diacritics ==> matcher::plain_form(source, modes) == fold::without_marks(
            fold::canonical_decomposition(source),
        ),
{
}

/// ASCII texts that differ in case alone are searched and sorted alike; what is left of a text
/// without its marks are its other characters, and a text without marks is left as it is.
pub proof fn law_folding_forgets_case_and_marks(a: Seq<char>, b: Seq<char>, c: char)
    requires
        text::ascii(a),
        text::ascii(b),
        text::lower(a) == text::lower(b),
    ensures
        fold::search_folded(a) == fold::search_folded(b),
        fold::folded(a) == fold::folded(b),
        fold::search_folded(a) == text::lower(a),
        fold::without_marks(a).contains(c) == (a.contains(c) && !fold::combining_mark(c)),
        (forall|i: int| 0 <= i < a.len() ==> !fold::combining_mark(#[trigger] a[i]))
            ==> fold::without_marks(a) == a,
{
    lemma_marks(a, c);
}

proof fn lemma_marks(t: Seq<char>, c: char)
    ensures
        fold::without_marks(t).contains(c) == (t.contains(c) && !fold::combining_mark(c)),
        (forall|i: int| 0 <= i < t.len() ==> !fold::combining_mark(#[trigger] t[i]))
            ==> fold::without_marks(t) == t,
    decreases t.len(),
{
    if t.len() > 0 {
        let (init, last) = (t.drop_last(), t.last());
        let before = fold::without_marks(init);
        lemma_marks(init, c);
        assert(init.push(last) =~= t);
        lemma_pushed(init, last, c);
        lemma_pushed(before, last, c);
        assert(t[t.len() - 1] == last);
        assert forall|i: int| 0 <= i < init.len() implies #[trigger] init[i] == t[i] by {}
    }
}

proof fn lemma_pushed(t: Seq<char>, last: char, c: char)
    ensures
        t.push(last).contains(c) == (t.contains(c) || last == c),
{
    let all = t.push(last);
    if t.contains(c) {
        let i = choose|i: int| 0 <= i < t.len() && t[i] == c;
        assert(all[i] == c);
    }
    if last == c {
        assert(all[t.len() as int] == c);
    }
    if all.contains(c) {
        let i = choose|i: int| 0 <= i < all.len() && all[i] == c;
        if i < t.len() {
            assert(t[i] == c);
        }
    }
}

} // verus!
