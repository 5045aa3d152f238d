//! How searches are read: what stands together, what quotation marks do, and what lists of
//! extensions, attributes and flags find.
use crate::files::IndexedFile;
use crate::fold;
use crate::query::atoms;
use crate::query::atoms::RequestView;
use crate::query::evaluate;
use crate::query::evaluate::Mode;
use crate::query::keyword_laws;
use crate::query::lexer;
use crate::query::lexer::{ScanView, TokenView};
use crate::query::meaning_laws;
use crate::query::model::{QueryView, TermView};
use crate::query::options::OptionsView;
use crate::query::parser;
use crate::query::parser::{Source, State};
use crate::query::words;
use crate::text;
use vstd::prelude::*;

verus! {

/// A single expression is read at a place and gives a query, and reading goes on at another place.
pub open spec fn reads(
    source: Source,
    base: OptionsView,
    nesting: int,
    from: State,
    query: QueryView,
    to: State,
) -> bool {
    &&& parser::unary_expression(source, base, nesting, from) == (
        Ok::<QueryView, Seq<char>>(query),
        to,
    )
    &&& 0 <= to.remaining < from.remaining
}

/// One token further.
pub open spec fn past(at: State) -> State {
    State { pos: at.pos + 1, ..at }
}

/// Another expression begins here: neither a sign between expressions nor the end of a group.
pub open spec fn goes_on(source: Source, at: State) -> bool {
    &&& 0 <= at.pos < source.tokens.len()
    &&& !(source.tokens[at.pos] is R)
    &&& !(source.tokens[at.pos] is Or)
    &&& !(source.tokens[at.pos] is And)
}

/// Alternatives stand together before anything else: of `a | b c` one of the first two is wanted
/// and the third with it, and of `a b | c` the first with one of the other two. A word for "and"
/// between expressions changes nothing.
pub proof fn law_alternatives_bind_first(
    source: Source,
    base: OptionsView,
    nesting: int,
    a: State,
    first: QueryView,
    b: State,
    second: QueryView,
    c: State,
    third: QueryView,
    d: State,
)
    requires
        reads(source, base, nesting, a, first, b),
        d.pos >= source.tokens.len(),
    ensures
        parser::token_is(source, b.pos, TokenView::Or) && reads(
            source,
            base,
            nesting,
            past(b),
            second,
            c,
        ) && goes_on(source, c) && reads(source, base, nesting, c, third, d)
            ==> parser::and_expression(source, base, nesting, a) == (
            Ok::<QueryView, Seq<char>>(
                QueryView::And(seq![QueryView::Or(seq![first, second]), third]),
            ),
            d,
        ),
        parser::token_is(source, b.pos, TokenView::Or) && reads(
            source,
            base,
            nesting,
            past(b),
            second,
            c,
        ) && parser::token_is(source, c.pos, TokenView::And) && reads(
            source,
            base,
            nesting,
            past(c),
            third,
            d,
        ) ==> parser::and_expression(source, base, nesting, a) == (
            Ok::<QueryView, Seq<char>>(
                QueryView::And(seq![QueryView::Or(seq![first, second]), third]),
            ),
            d,
        ),
        goes_on(source, b) && reads(source, base, nesting, b, second, c) && parser::token_is(
            source,
            c.pos,
            TokenView::Or,
        ) && reads(source, base, nesting, past(c), third, d) ==> parser::and_expression(
            source,
            base,
            nesting,
            a,
        ) == (
            Ok::<QueryView, Seq<char>>(
                QueryView::And(seq![first, QueryView::Or(seq![second, third])]),
            ),
            d,
        ),
{
    reveal_with_fuel(parser::and_expression, 2);
    reveal_with_fuel(parser::and_more, 3);
    reveal_with_fuel(parser::or_expression, 2);
    reveal_with_fuel(parser::or_more, 3);
    let (one, two, three) = (seq![first], seq![second], seq![third]);
    assert(one.push(second) =~= seq![first, second]);
    assert(two.push(third) =~= seq![second, third]);
    let either = QueryView::Or(seq![first, second]);
    let other = QueryView::Or(seq![second, third]);
    assert(seq![either].push(third) =~= seq![either, third]);
    assert(one.push(other) =~= seq![first, other]);
    assert(parser::or_more(source, base, nesting, d, three) == (
        Ok::<QueryView, Seq<char>>(third),
        d,
    ));
    assert(parser::or_more(source, base, nesting, d, seq![second, third]) == (
        Ok::<QueryView, Seq<char>>(other),
        d,
    ));
    assert(parser::and_more(source, base, nesting, d, seq![either, third]) == (
        Ok::<QueryView, Seq<char>>(QueryView::And(seq![either, third])),
        d,
    ));
    assert(parser::and_more(source, base, nesting, d, seq![first, other]) == (
        Ok::<QueryView, Seq<char>>(QueryView::And(seq![first, other])),
        d,
    ));
    if parser::token_is(source, b.pos, TokenView::Or) && reads(
        source,
        base,
        nesting,
        past(b),
        second,
        c,
    ) && (goes_on(source, c) || parser::token_is(source, c.pos, TokenView::And)) {
        assert(parser::or_more(source, base, nesting, c, seq![first, second]) == (
            Ok::<QueryView, Seq<char>>(either),
            c,
        ));
        assert(parser::or_expression(source, base, nesting, a) == (
            Ok::<QueryView, Seq<char>>(either),
            c,
        ));
    }
    if goes_on(source, b) {
        assert(parser::or_more(source, base, nesting, b, one) == (
            Ok::<QueryView, Seq<char>>(first),
            b,
        ));
        assert(parser::or_expression(source, base, nesting, a) == (
            Ok::<QueryView, Seq<char>>(first),
            b,
        ));
    }
}

/// Expressions one after the other are all wanted; one alone stands for itself.
pub proof fn law_expressions_are_wanted_together(
    source: Source,
    base: OptionsView,
    nesting: int,
    a: State,
    first: QueryView,
    b: State,
    second: QueryView,
    c: State,
)
    requires
        reads(source, base, nesting, a, first, b),
    ensures
        b.pos >= source.tokens.len() ==> parser::and_expression(source, base, nesting, a) == (
            Ok::<QueryView, Seq<char>>(first),
            b,
        ),
        goes_on(source, b) && reads(source, base, nesting, b, second, c) && c.pos
            >= source.tokens.len() ==> parser::and_expression(source, base, nesting, a) == (
            Ok::<QueryView, Seq<char>>(QueryView::And(seq![first, second])),
            c,
        ),
        parser::token_is(source, b.pos, TokenView::Or) && reads(
            source,
            base,
            nesting,
            past(b),
            second,
            c,
        ) && c.pos >= source.tokens.len() ==> parser::and_expression(source, base, nesting, a) == (
            Ok::<QueryView, Seq<char>>(QueryView::Or(seq![first, second])),
            c,
        ),
{
    reveal_with_fuel(parser::and_expression, 2);
    reveal_with_fuel(parser::and_more, 3);
    reveal_with_fuel(parser::or_expression, 2);
    reveal_with_fuel(parser::or_more, 3);
    let (one, two) = (seq![first], seq![second]);
    let either = QueryView::Or(seq![first, second]);
    assert(one.push(second) =~= seq![first, second]);
    assert(seq![either].len() == 1);
}

/// A sign for "not" turns the next single expression round, and nothing after it; a group is read
/// as a search of its own, up to its end.
pub proof fn law_negation_takes_one_expression(
    source: Source,
    base: OptionsView,
    nesting: int,
    at: State,
    query: QueryView,
    to: State,
)
    requires
        0 <= nesting < 128,
        at.remaining > 0,
        0 <= at.pos < source.tokens.len(),
    ensures
        ({
            let next = State { pos: at.pos + 1, remaining: at.remaining - 1, ..at };
            &&& source.tokens[at.pos] is Not && parser::unary_expression(
                source,
                base,
                nesting + 1,
                next,
            ) == (Ok::<QueryView, Seq<char>>(query), to) ==> parser::unary_expression(
                source,
                base,
                nesting,
                at,
            ) == (Ok::<QueryView, Seq<char>>(QueryView::Not(Box::new(query))), to)
            &&& source.tokens[at.pos] is L && parser::and_expression(
                source,
                base,
                nesting + 1,
                next,
            ) == (Ok::<QueryView, Seq<char>>(query), to) && parser::token_is(
                source,
                to.pos,
                TokenView::R,
            ) ==> parser::unary_expression(source, base, nesting, at) == (
                Ok::<QueryView, Seq<char>>(query),
                past(to),
            )
        }),
{
    reveal_with_fuel(parser::unary_expression, 2);
    reveal_with_fuel(parser::group_expression, 2);
}

/// The conditions of attribute letters hold of a row exactly if each letter's does: `h` that the
/// row is hidden, `l` that it is a link, in either case. Other letters are refused, and so is an
/// empty list.
pub proof fn law_attributes_are_all_wanted(
    letters: Seq<char>,
    file: IndexedFile,
    content: Option<Seq<char>>,
)
    ensures
        ({
            let known = forall|i: int|
                0 <= i < letters.len() ==> {
                    let c = #[trigger] letters[i];
                    c == 'h' || c == 'H' || c == 'l' || c == 'L'
                };
            let said = atoms::attribute_result(letters);
            &&& (said is Ok) == (known && letters.len() > 0)
            &&& said is Ok ==> keyword_laws::finds(said, file, content) == (((letters.contains('h')
                || letters.contains('H')) ==> keyword_laws::is_hidden(file)) && ((letters.contains(
                'l',
            ) || letters.contains('L')) ==> file.is_symlink))
        }),
{
    lemma_letters(letters, Seq::empty());
    let said = atoms::attribute_terms(letters, Seq::empty());
    if said is Ok {
        let terms = said->Ok_0;
        meaning_laws::law_groups_hold_by_their_parts(Mode::Full, terms, file, content);
        keyword_laws::lemma_hidden(file);
        assert forall|i: int| 0 <= i < letters.len() implies #[trigger] terms[i] == letter_term(
            letters[i],
        ) by {}
        if forall|i: int|
            0 <= i < terms.len() ==> #[trigger] evaluate::verdict(
                Mode::Full,
                terms[i],
                file,
                content,
            ) is True {
            assert forall|c: char| letters.contains(c) implies letter_holds(c, file) by {
                let i = choose|i: int| 0 <= i < letters.len() && letters[i] == c;
                assert(evaluate::verdict(Mode::Full, terms[i], file, content) is True);
            }
            assert(letters.contains('h') ==> letter_holds('h', file));
            assert(letters.contains('H') ==> letter_holds('H', file));
            assert(letters.contains('l') ==> letter_holds('l', file));
            assert(letters.contains('L') ==> letter_holds('L', file));
        } else {
            let i = choose|i: int|
                0 <= i < terms.len() && !(#[trigger] evaluate::verdict(
                    Mode::Full,
                    terms[i],
                    file,
                    content,
                ) is True);
            assert(letters.contains(letters[i]));
            assert(!letter_holds(letters[i], file));
        }
    }
}

spec fn letter_holds(c: char, file: IndexedFile) -> bool {
    if c == 'h' || c == 'H' {
        keyword_laws::is_hidden(file)
    } else {
        file.is_symlink
    }
}

spec fn letter_term(c: char) -> QueryView {
    if c == 'h' || c == 'H' {
        QueryView::Term(TermView::Hidden)
    } else {
        QueryView::Term(TermView::IsSymlink)
    }
}

proof fn lemma_letters(letters: Seq<char>, done: Seq<QueryView>)
    ensures
        ({
            let known = forall|i: int|
                0 <= i < letters.len() ==> {
                    let c = #[trigger] letters[i];
                    c == 'h' || c == 'H' || c == 'l' || c == 'L'
                };
            let said = atoms::attribute_terms(letters, done);
            &&& (said is Ok) == known
            &&& said is Ok ==> said->Ok_0 == done + letters.map_values(|c: char| letter_term(c))
        }),
    decreases letters.len(),
{
    if letters.len() == 0 {
        assert(done + letters.map_values(|c: char| letter_term(c)) =~= done);
    } else {
        let rest = letters.drop_first();
        let c = letters[0];
        assert(text::lower_char('H') == 'h');
        assert(text::lower_char('L') == 'l');
        assert((text::lower_char(c) == 'h') == (c == 'h' || c == 'H'));
        assert((text::lower_char(c) == 'l') == (c == 'l' || c == 'L'));
        assert forall|i: int| 0 <= i < rest.len() implies #[trigger] rest[i] == letters[i + 1] by {}
        lemma_letters(rest, done.push(letter_term(c)));
        assert(done.push(letter_term(c)) + rest.map_values(|x: char| letter_term(x)) =~= done
            + letters.map_values(|x: char| letter_term(x)));
        assert(forall|i: int| 0 < i < letters.len() ==> #[trigger] letters[i] == rest[i - 1]);
    }
}

/// The host's bits that a flag's name stands for.
pub open spec fn named_bits(name: Seq<char>) -> Option<u32> {
    atoms::flag_bits(text::keyword_of(name))
}

/// Names of flags stand for the host's bits: hidden, immutable and append-only for the user and
/// for the system, left out of backups, compressed, and not stored here.
pub proof fn law_flags_are_the_bits_of_the_host()
    ensures
        named_bits("hidden"@) == Some(0x8000u32),
        named_bits("immutable"@) == Some(0x20002u32),
        named_bits("append"@) == Some(0x40004u32),
        named_bits("nodump"@) == Some(0x1u32),
        named_bits("compressed"@) == Some(0x20u32),
        named_bits("dataless"@) == Some(0x40000000u32),
        named_bits("placeholder"@) == Some(0x40000000u32),
{
    words::lemma_function_words();
    words::lemma_flag_words();
    words::lemma_keyword("hidden"@);
    words::lemma_keyword("immutable"@);
    words::lemma_keyword("append"@);
    words::lemma_keyword("nodump"@);
    words::lemma_keyword("compressed"@);
    words::lemma_keyword("dataless"@);
    words::lemma_keyword("placeholder"@);
}

/// A list of flags is understood exactly if each of its names is known, and then finds the rows
/// that have a bit of one of them.
pub proof fn law_one_of_the_flags_is_enough(
    value: Seq<char>,
    base: OptionsView,
    requests: Seq<RequestView>,
    file: IndexedFile,
    content: Option<Seq<char>>,
)
    ensures
        ({
            let names = text::split_on(value, ';');
            let said = atoms::function_result("flags"@, value, base, requests).0;
            let known = forall|i: int| 0 <= i < names.len() ==> #[trigger] named_bits(names[i])
                is Some;
            &&& (said is Ok) == known
            &&& known ==> keyword_laws::finds(said, file, content) == (exists|i: int|
                0 <= i < names.len() && file.flags & (#[trigger] named_bits(names[i]))->0 != 0)
        }),
{
    words::lemma_function_words();
    words::lemma_property_words();
    words::lemma_metric_words();
    reveal(atoms::function_of);
    let names = text::split_on(value, ';');
    lemma_flags(names, 0, file.flags);
    let bits = file.flags;
    assert(bits & 0 == 0) by (bit_vector);
}

proof fn lemma_flags(names: Seq<Seq<char>>, mask: u32, bits: u32)
    ensures
        ({
            let known = forall|i: int| 0 <= i < names.len() ==> #[trigger] named_bits(names[i])
                is Some;
            let said = atoms::flag_mask(names, mask);
            &&& (said is Ok) == known
            &&& said is Ok ==> (bits & said->Ok_0 != 0) == (bits & mask != 0 || exists|i: int|
                0 <= i < names.len() && bits & (#[trigger] named_bits(names[i]))->0 != 0)
        }),
    decreases names.len(),
{
    if names.len() > 0 {
        let rest = names.drop_first();
        let first = named_bits(names[0]);
        assert forall|i: int| 0 <= i < rest.len() implies #[trigger] rest[i] == names[i + 1] by {}
        if first is Some {
            let here = first->0;
            let both = mask | here;
            assert((bits & (mask | here) != 0) == (bits & mask != 0 || bits & here != 0))
                by (bit_vector);
            lemma_flags(rest, both, bits);
            if forall|i: int| 0 <= i < rest.len() ==> #[trigger] named_bits(rest[i]) is Some {
                assert forall|i: int| 0 <= i < names.len() implies #[trigger] named_bits(names[i])
                    is Some by {
                    if i > 0 {
                        assert(named_bits(rest[i - 1]) is Some);
                    }
                }
            } else {
                let i = choose|i: int|
                    0 <= i < rest.len() && !(#[trigger] named_bits(rest[i]) is Some);
                assert(!(named_bits(names[i + 1]) is Some));
            }
            if exists|i: int| 0 <= i < rest.len() && bits & (#[trigger] named_bits(rest[i]))->0
                != 0 {
                let i = choose|i: int|
                    0 <= i < rest.len() && bits & (#[trigger] named_bits(rest[i]))->0 != 0;
                assert(bits & named_bits(names[i + 1])->0 != 0);
            }
            if exists|i: int| 0 <= i < names.len() && bits & (#[trigger] named_bits(names[i]))->0
                != 0 {
                let i = choose|i: int|
                    0 <= i < names.len() && bits & (#[trigger] named_bits(names[i]))->0 != 0;
                if i > 0 {
                    assert(bits & named_bits(rest[i - 1])->0 != 0);
                }
            }
        } else {
            assert(!(named_bits(names[0]) is Some));
        }
    }
}

/// A list of extensions finds the rows whose folded extension is one of them, folded and without
/// the dots before it.
pub proof fn law_one_of_the_extensions_is_enough(
    value: Seq<char>,
    base: OptionsView,
    requests: Seq<RequestView>,
    file: IndexedFile,
    content: Option<Seq<char>>,
)
    requires
        !base.modes.sensitive,
        !base.modes.diacritics,
        text::ascii(file.folded_extension@),
    ensures
        keyword_laws::finds(atoms::function_result("ext"@, value, base, requests).0, file, content)
            == (exists|i: int|
            0 <= i < text::split_on(value, ';').len() && fold::search_folded(
                atoms::after_dots(#[trigger] text::split_on(value, ';')[i]),
            ) == file.folded_extension@),
{
    words::lemma_function_words();
    reveal(atoms::function_of);
    let pieces = text::split_on(value, ';');
    let list = atoms::extension_list(pieces);
    let own = file.folded_extension@;
    if list.contains(own) {
        let i = choose|i: int| 0 <= i < list.len() && list[i] == own;
        assert(pieces[i] == pieces[i]);
    }
    if exists|i: int|
        0 <= i < pieces.len() && fold::search_folded(atoms::after_dots(#[trigger] pieces[i]))
            == own {
        let i = choose|i: int|
            0 <= i < pieces.len() && fold::search_folded(atoms::after_dots(#[trigger] pieces[i]))
                == own;
        assert(list[i] == own);
    }
}

/// The dots before an extension do not count: what is left begins with no dot, and is the text
/// without some dots at its front.
pub proof fn law_dots_before_extensions_do_not_count(s: Seq<char>)
    ensures
        ({
            let left = atoms::after_dots(s);
            &&& left.len() <= s.len()
            &&& left == s.skip(s.len() - left.len())
            &&& left.len() > 0 ==> left[0] != '.'
            &&& forall|i: int| 0 <= i < s.len() - left.len() ==> #[trigger] s[i] == '.'
        }),
    decreases s.len(),
{
    if s.len() > 0 && s[0] == '.' {
        let rest = s.drop_first();
        law_dots_before_extensions_do_not_count(rest);
        let left = atoms::after_dots(s);
        assert(rest.skip(rest.len() - left.len()) =~= s.skip(s.len() - left.len()));
        assert forall|i: int| 0 <= i < s.len() - left.len() implies #[trigger] s[i] == '.' by {
            if i > 0 {
                assert(rest[i - 1] == s[i]);
            }
        }
    } else {
        assert(s.skip(0) =~= s);
    }
}

/// Characters that words are made of: no white space, no quotation marks, no signs of the
/// grammar and no colon.
pub open spec fn ordinary(c: char) -> bool {
    !lexer::white_space(c) && c != '"' && c != '\\' && c != '(' && c != ')' && c != '<' && c != '>'
        && c != '|' && c != '!' && c != ':'
}

/// A word that is being read so far.
spec fn plain_scan(t: Seq<char>, pos: int) -> ScanView {
    ScanView { text: t, pos, ..lexer::scan_start(pos) }
}

proof fn lemma_word(input: Seq<char>, t: Seq<char>, pos: int, end: int)
    requires
        0 <= pos <= end <= input.len(),
        forall|i: int| pos <= i < end ==> ordinary(#[trigger] input[i]),
        end == input.len() || lexer::white_space(input[end]),
    ensures
        lexer::scan(input, plain_scan(t, pos)) == plain_scan(t + input.subrange(pos, end), end),
    decreases end - pos,
{
    let s = plain_scan(t, pos);
    if pos < end {
        let c = input[pos];
        assert(ordinary(input[pos]));
        let next = plain_scan(t.push(c), pos + 1);
        assert(lexer::scan_step(input, s) == Some(next));
        lemma_word(input, t.push(c), pos + 1, end);
        assert(t.push(c) + input.subrange(pos + 1, end) =~= t + input.subrange(pos, end));
    } else {
        assert(t + input.subrange(pos, end) =~= t);
        assert(lexer::scan_step(input, s) is None);
    }
}

/// Words are told apart by white space: two of them are read as two, in their order.
pub proof fn law_white_space_tells_words_apart(a: Seq<char>, b: Seq<char>)
    requires
        a.len() > 0,
        b.len() > 0,
        forall|i: int| 0 <= i < a.len() ==> ordinary(#[trigger] a[i]),
        forall|i: int| 0 <= i < b.len() ==> ordinary(#[trigger] b[i]),
        a != "OR"@ && a != "AND"@ && a != "NOT"@,
        b != "OR"@ && b != "AND"@ && b != "NOT"@,
        text::bytes_of(a + seq![' '] + b).len() <= 65536,
    ensures
        lexer::tokens_of(a + seq![' '] + b) == Ok::<Seq<TokenView>, Seq<char>>(
            seq![TokenView::Atom(a, None), TokenView::Atom(b, None)],
        ),
{
    let input = a + seq![' '] + b;
    let n = a.len() as int;
    let m = input.len() as int;
    assert forall|i: int| 0 <= i < n implies ordinary(#[trigger] input[i]) by {
        assert(input[i] == a[i]);
    }
    assert(input[n] == ' ');
    assert forall|i: int| n + 1 <= i < m implies ordinary(#[trigger] input[i]) by {
        assert(input[i] == b[i - n - 1]);
    }
    let none = Seq::<TokenView>::empty();
    lemma_word(input, Seq::empty(), 0, n);
    assert(Seq::<char>::empty() + input.subrange(0, n) =~= a);
    lemma_word(input, Seq::empty(), n + 1, m);
    assert(Seq::<char>::empty() + input.subrange(n + 1, m) =~= b);
    assert(lexer::scan_start(0) == plain_scan(Seq::empty(), 0));
    assert(lexer::scan_start(n + 1) == plain_scan(Seq::empty(), n + 1));
    assert(ordinary(input[0]));
    assert(ordinary(input[n + 1]));
    let first = none.push(TokenView::Atom(a, None));
    let second = first.push(TokenView::Atom(b, None));
    assert(lexer::tokens_from(input, m, second) == Ok::<Seq<TokenView>, Seq<char>>(second));
    assert(lexer::tokens_from(input, n + 1, first) == lexer::tokens_from(input, m, second));
    assert(lexer::tokens_from(input, n, first) == lexer::tokens_from(input, n + 1, first));
    assert(lexer::tokens_from(input, 0, none) == lexer::tokens_from(input, n, first));
    assert(second =~= seq![TokenView::Atom(a, None), TokenView::Atom(b, None)]);
}

/// What has been read within quotation marks so far.
spec fn quoted_scan(input: Seq<char>, s: ScanView, t: Seq<char>, pos: int) -> bool {
    s.text == t && s.pos == pos && s.quoted && s.had_quote && s.literal_from == Some(0int)
}

proof fn lemma_quoted(input: Seq<char>, s: ScanView, pos: int)
    requires
        0 < pos < input.len(),
        forall|i: int| pos <= i < input.len() - 1 ==> #[trigger] input[i] != '"' && input[i] != '\\',
        input[input.len() - 1] == '"',
        quoted_scan(input, s, input.subrange(1, pos), pos),
    ensures
        ({
            let end = lexer::scan(input, s);
            &&& end.text == input.subrange(1, input.len() - 1)
            &&& end.pos == input.len()
            &&& !end.quoted
            &&& end.had_quote
            &&& end.literal_from == Some(0int)
        }),
    decreases input.len() - pos,
{
    let c = input[pos];
    let next = lexer::scan_step(input, s)->0;
    if pos == input.len() - 1 {
        assert(lexer::scan_step(input, s) is Some);
        assert(lexer::scan_step(input, next) is None);
        assert(lexer::scan(input, next) == next);
    } else {
        assert(c != '"' && c != '\\');
        assert(next == lexer::with_char(s, c));
        assert(input.subrange(1, pos).push(c) =~= input.subrange(1, pos + 1));
        lemma_quoted(input, next, pos + 1);
    }
}

/// A text within quotation marks is one word, whatever is in it, and all of it is meant literally.
pub proof fn law_quoted_texts_are_one_word(t: Seq<char>)
    requires
        !t.contains('"'),
        !t.contains('\\'),
        text::bytes_of(seq!['"'] + t + seq!['"']).len() <= 65536,
    ensures
        lexer::tokens_of(seq!['"'] + t + seq!['"']) == Ok::<Seq<TokenView>, Seq<char>>(
            seq![TokenView::Atom(t, Some(0))],
        ),
{
    let input = seq!['"'] + t + seq!['"'];
    let m = input.len() as int;
    assert(input[0] == '"');
    assert(input[m - 1] == '"');
    assert forall|i: int| 1 <= i < m - 1 implies #[trigger] input[i] != '"' && input[i] != '\\' by {
        assert(input[i] == t[i - 1]);
        assert(t.contains(t[i - 1]));
    }
    let start = lexer::scan_start(0);
    let s = lexer::scan_step(input, start)->0;
    assert(text::bytes_of(Seq::<char>::empty()).len() == 0);
    assert(lexer::scan_step(input, start) is Some);
    assert(input.subrange(1, 1) =~= Seq::<char>::empty());
    lemma_quoted(input, s, 1);
    assert(lexer::scan(input, start) == lexer::scan(input, s));
    assert(input.subrange(1, m - 1) =~= t);
    let none = Seq::<TokenView>::empty();
    let one = none.push(TokenView::Atom(t, Some(0)));
    assert(lexer::tokens_from(input, m, one) == Ok::<Seq<TokenView>, Seq<char>>(one));
    assert(lexer::tokens_from(input, 0, none) == lexer::tokens_from(input, m, one));
    assert(one =~= seq![TokenView::Atom(t, Some(0))]);
}

} // verus!
