//! What queries say of rows, said of the rows' own fields, and what comparisons accept, said of the
//! numbers themselves.
use crate::files;
use crate::files::{IndexedFile, PropertyValue};
use crate::fold;
use crate::query::atoms;
use crate::query::atoms::{AtomView, OperandView};
use crate::query::dates;
use crate::query::dates::DurationUnit;
use crate::query::evaluate;
use crate::query::evaluate::Mode;
use crate::query::keyword_laws;
use crate::query::matcher;
use crate::query::matcher::MatcherView;
use crate::query::model;
use crate::query::model::{NumberBounds, QueryView, TermView};
use crate::query::numbers;
use crate::query::options::{Field, Modes, OptionsView, TargetView};
use crate::query::words;
use crate::text;
use vstd::prelude::*;

verus! {

/// All of some queries hold exactly if each of them does, one of some queries does not hold as
/// soon as one is false and none is left open, and each is false where none holds.
pub proof fn law_groups_hold_by_their_parts(
    mode: Mode,
    parts: Seq<QueryView>,
    file: IndexedFile,
    content: Option<Seq<char>>,
)
    ensures
        ({
            let all = evaluate::verdict(mode, QueryView::And(parts), file, content);
            let any = evaluate::verdict(mode, QueryView::Or(parts), file, content);
            let settled = forall|i: int|
                0 <= i < parts.len() ==> !(#[trigger] evaluate::verdict(
                    mode,
                    parts[i],
                    file,
                    content,
                ) is Unresolved);
            &&& (all is True) == (forall|i: int|
                0 <= i < parts.len() ==> #[trigger] evaluate::verdict(mode, parts[i], file, content)
                    is True)
            &&& settled ==> (all is False) == (exists|i: int|
                0 <= i < parts.len() && #[trigger] evaluate::verdict(mode, parts[i], file, content)
                    is False)
            &&& settled ==> (any is True) == (exists|i: int|
                0 <= i < parts.len() && #[trigger] evaluate::verdict(mode, parts[i], file, content)
                    is True)
            &&& (any is False) == (forall|i: int|
                0 <= i < parts.len() ==> #[trigger] evaluate::verdict(mode, parts[i], file, content)
                    is False)
        }),
{
    lemma_parts(mode, parts, true, file, content);
    lemma_parts(mode, parts, false, file, content);
}

/// How many verdicts it takes to decide a list: one of the wrong kind, or all of the right one.
proof fn lemma_parts(
    mode: Mode,
    parts: Seq<QueryView>,
    all: bool,
    file: IndexedFile,
    content: Option<Seq<char>>,
)
    ensures
        ({
            let said = evaluate::combined(mode, parts, all, file, content);
            let settled = forall|i: int|
                0 <= i < parts.len() ==> !(#[trigger] evaluate::verdict(
                    mode,
                    parts[i],
                    file,
                    content,
                ) is Unresolved);
            &&& (said == evaluate::decided(all)) == (forall|i: int|
                0 <= i < parts.len() ==> #[trigger] evaluate::verdict(mode, parts[i], file, content)
                    == evaluate::decided(all))
            &&& settled ==> !(said is Unresolved)
            &&& settled ==> (said == evaluate::decided(!all)) == (exists|i: int|
                0 <= i < parts.len() && #[trigger] evaluate::verdict(mode, parts[i], file, content)
                    == evaluate::decided(!all))
        }),
    decreases parts.len(),
{
    if parts.len() > 0 {
        let init = parts.drop_last();
        lemma_parts(mode, init, all, file, content);
        let n = parts.len() - 1;
        assert(parts.last() == parts[n]);
        assert forall|i: int| 0 <= i < n implies #[trigger] init[i] == parts[i] by {}
        let before = evaluate::combined(mode, init, all, file, content);
        let last = evaluate::verdict(mode, parts[n], file, content);
        let said = evaluate::combined(mode, parts, all, file, content);
        let wanted = evaluate::decided(all);
        let other = evaluate::decided(!all);
        if said == wanted {
            assert forall|i: int| 0 <= i < parts.len() implies #[trigger] evaluate::verdict(
                mode,
                parts[i],
                file,
                content,
            ) == wanted by {
                if i < n {
                    assert(init[i] == parts[i]);
                    assert(evaluate::verdict(mode, init[i], file, content) == wanted);
                }
            }
        }
        if forall|i: int|
            0 <= i < parts.len() ==> #[trigger] evaluate::verdict(mode, parts[i], file, content)
                == wanted {
            assert forall|i: int| 0 <= i < init.len() implies #[trigger] evaluate::verdict(
                mode,
                init[i],
                file,
                content,
            ) == wanted by {
                assert(evaluate::verdict(mode, parts[i], file, content) == wanted);
            }
            assert(last == wanted);
        }
        let settled = forall|i: int|
            0 <= i < parts.len() ==> !(#[trigger] evaluate::verdict(mode, parts[i], file, content)
                is Unresolved);
        if settled {
            assert forall|i: int| 0 <= i < init.len() implies !(#[trigger] evaluate::verdict(
                mode,
                init[i],
                file,
                content,
            ) is Unresolved) by {
                assert(!(evaluate::verdict(mode, parts[i], file, content) is Unresolved));
            }
            assert(!(last is Unresolved));
            if exists|i: int|
                0 <= i < parts.len() && #[trigger] evaluate::verdict(mode, parts[i], file, content)
                    == other {
                let i = choose|i: int|
                    0 <= i < parts.len() && #[trigger] evaluate::verdict(
                        mode,
                        parts[i],
                        file,
                        content,
                    ) == other;
                if i < n {
                    assert(evaluate::verdict(mode, init[i], file, content) == other);
                }
            }
            if said == other {
                if before == other {
                    let i = choose|i: int|
                        0 <= i < init.len() && #[trigger] evaluate::verdict(
                            mode,
                            init[i],
                            file,
                            content,
                        ) == other;
                    assert(evaluate::verdict(mode, parts[i], file, content) == other);
                } else {
                    assert(evaluate::verdict(mode, parts[n], file, content) == other);
                }
            }
        }
    }
}

/// Restricting a query to files or to folders leaves of its rows those of that kind.
pub proof fn law_restrictions_keep_rows_of_a_kind(
    mode: Mode,
    query: QueryView,
    dir: bool,
    file: IndexedFile,
    content: Option<Seq<char>>,
)
    ensures
        evaluate::verdict(mode, model::restricted(query, Some(dir)), file, content) is True <==> (
        file.is_dir == dir && evaluate::verdict(mode, query, file, content) is True),
        evaluate::verdict(mode, model::restricted(query, None), file, content)
            == evaluate::verdict(mode, query, file, content),
{
    let parts = seq![QueryView::Term(TermView::IsDir(dir)), query];
    law_groups_hold_by_their_parts(mode, parts, file, content);
    reveal_with_fuel(evaluate::term_asks, 2);
    assert(evaluate::verdict(mode, parts[0], file, content) is True == (file.is_dir == dir));
    assert(parts[1] == query);
}

/// A word that asks for nothing special is looked for, folded, in the folded text of its field:
/// of the name, of the path, or of the path of the parent.
pub proof fn law_words_are_looked_for_in_their_field(
    s: Seq<char>,
    base: OptionsView,
    field: Field,
    file: IndexedFile,
    content: Option<Seq<char>>,
)
    requires
        !s.contains('*') && !s.contains('?') || !base.modes.wildcards,
        !base.modes.regex,
        !base.modes.diacritics,
        !base.modes.sensitive,
        !base.modes.prefix,
        !base.modes.suffix,
        !base.modes.whole,
        !base.modes.start,
        !base.modes.end,
    ensures
        ({
            let said = atoms::text_result(s, base, TargetView::Field(field));
            let needle = text::bytes_of(fold::search_folded(s));
            let within = |t: Seq<char>| text::occurs(text::bytes_of(t), needle);
            &&& field == Field::Name ==> keyword_laws::finds(said, file, content) == within(
                file.search_name@,
            )
            &&& field == Field::Path ==> keyword_laws::finds(said, file, content) == within(
                file.search_path@,
            )
            &&& field == Field::Parent ==> keyword_laws::finds(said, file, content) == within(
                matcher::parent_text(file.search_path@),
            )
        }),
        ({
            let said = atoms::text_result(s, base, TargetView::Content);
            let needle = text::bytes_of(fold::search_folded(s));
            keyword_laws::finds(said, file, content) == (content is Some && text::occurs(
                text::bytes_of(fold::search_folded(content->0)),
                needle,
            ))
        }),
{
}

/// A word with a slash in it is looked for in the path where nothing else was chosen; otherwise
/// words are looked for where the modes or the target say.
pub proof fn law_words_with_slashes_are_looked_for_in_paths(atom: AtomView)
    requires
        atom.options.target is None,
        !(atom.options.modes.field == Field::Parent && atom.options.modes.whole),
    ensures
        ({
            let said = atoms::plain_result(atom);
            let modes = atom.options.modes;
            let by_path = OptionsView {
                modes: Modes { field: Field::Path, ..modes },
                ..atom.options
            };
            &&& modes.field == Field::Name && atom.rest.contains('/') ==> said
                == atoms::text_result(atom.rest, by_path, TargetView::Field(Field::Path))
            &&& modes.field != Field::Name || !atom.rest.contains('/') ==> said
                == atoms::text_result(atom.rest, atom.options, TargetView::Field(modes.field))
        }),
{
}

/// A search without case looks at the folded texts of a row, with or without its diacritics; one
/// with case, or with an expression, looks at the texts as they are.
pub proof fn law_matchers_look_at_the_asked_text(m: MatcherView, file: IndexedFile, field: Field)
    ensures
        ({
            let plain = m.regex is None && !m.options.modes.sensitive;
            let said = matcher::field_match(m, file, field);
            &&& plain && !m.options.modes.diacritics && field == Field::Name ==> said
                == matcher::literal_match(m, file.search_name@)
            &&& plain && !m.options.modes.diacritics && field == Field::Path ==> said
                == matcher::literal_match(m, file.search_path@)
            &&& plain && m.options.modes.diacritics && field == Field::Name ==> said
                == matcher::literal_match(m, file.folded_name@)
            &&& plain && m.options.modes.diacritics && field == Field::Path ==> said
                == matcher::literal_match(m, file.folded_path@)
            &&& !plain && field == Field::Name ==> said == matcher::text_match(m, file.name@)
            &&& !plain && field == Field::Path ==> said == matcher::text_match(m, file.path@)
            &&& !plain && field == Field::Parent ==> said == matcher::text_match(m, file.parent@)
        }),
{
}

/// A search without case finds the same in texts that differ only in the case of their letters,
/// and a search with case finds only what is written as it is.
pub proof fn law_case_counts_only_where_asked(
    source: Seq<char>,
    asked: OptionsView,
    m: MatcherView,
    t: Seq<char>,
    other: Seq<char>,
)
    requires
        matcher::matcher_for(source, asked, false) == Ok::<MatcherView, Seq<char>>(m),
        !asked.modes.regex,
        text::ascii(source),
        text::ascii(t),
        text::ascii(other),
    ensures
        !asked.modes.sensitive && text::lower(t) == text::lower(other) ==> matcher::text_match(m, t)
            == matcher::text_match(m, other),
        asked.modes.sensitive ==> m.needle == source && matcher::text_match(m, t)
            == matcher::literal_match(m, t),
        !asked.modes.sensitive ==> m.needle == text::lower(source) && matcher::text_match(m, t)
            == matcher::literal_match(m, text::lower(t)),
{
}

/// The numbers of a row: the size of what is no folder, the times that it was modified and
/// created, and otherwise the property of that name where it holds a number.
pub proof fn law_numbers_are_the_fields_of_that_name(
    file: IndexedFile,
    name: Seq<char>,
    at: int,
    number: i64,
)
    ensures
        evaluate::number_of(file, "size"@) == (if file.is_dir {
            None
        } else {
            Some(file.size as int)
        }),
        evaluate::number_of(file, "modified"@) == Some(file.modified as int),
        evaluate::number_of(file, "created"@) == Some(file.created as int),
        name != "size"@ && name != "modified"@ && name != "created"@ && 0 <= at
            < file.properties@.len() && file.properties@[at].key@ == name
            && file.properties@[at].value == PropertyValue::Number(number) && (forall|i: int|
            0 <= i < at ==> (#[trigger] file.properties@[i]).key@ != name)
            ==> evaluate::number_of(file, name) == Some(number as int),
        name != "size"@ && name != "modified"@ && name != "created"@ && (forall|i: int|
            0 <= i < file.properties@.len() ==> (#[trigger] file.properties@[i]).key@ != name)
            ==> evaluate::number_of(file, name) is None,
{
    words::lemma_function_words();
    lemma_property(file.properties@, name, at);
}

proof fn lemma_property(list: Seq<files::Property>, name: Seq<char>, at: int)
    ensures
        0 <= at < list.len() && list[at].key@ == name && (forall|i: int|
            0 <= i < at ==> (#[trigger] list[i]).key@ != name) ==> files::find_property(list, name)
            == Some(list[at].value),
        (forall|i: int| 0 <= i < list.len() ==> (#[trigger] list[i]).key@ != name)
            ==> files::find_property(list, name) is None,
    decreases list.len(),
{
    if list.len() > 0 {
        let rest = list.drop_first();
        lemma_property(rest, name, at - 1);
        assert forall|i: int| 0 <= i < rest.len() implies #[trigger] rest[i] == list[i + 1] by {}
        if 0 < at < list.len() {
            assert(rest[at - 1] == list[at]);
        }
    }
}

/// A comparison holds of a number within its bounds, and where it is negated of the numbers
/// outside them; of a number that is not known neither holds.
pub proof fn law_comparisons_hold_within_their_bounds(
    field: Seq<char>,
    low: i128,
    high: i128,
    negate: bool,
    value: Option<int>,
)
    ensures
        ({
            let term = TermView::Number { field, bounds: NumberBounds::Span(low, high), negate };
            &&& value is None ==> !evaluate::number_truth(term, value)
            &&& value is Some ==> evaluate::number_truth(term, value) == ((low <= value->0
                && value->0 <= high) != negate)
        }),
        evaluate::number_truth(TermView::Unknown { field, negate }, value) == ((value is None)
            != negate),
{
}

/// How a comparison is written: two dots between its ends, or a sign before its number; a number
/// alone stands for itself, and a leading exclamation mark negates what follows it.
pub proof fn law_comparisons_are_read_as_written(v: Seq<char>, w: Seq<char>)
    requires
        atoms::dots_at(v) is None,
        !text::ends_in(v, '.'),
        !text::begins(v, "="@),
    ensures
        atoms::operand_of(">="@ + v) == OperandView::AtLeast(v),
        atoms::operand_of("<="@ + v) == OperandView::AtMost(v),
        atoms::operand_of(">"@ + v) == OperandView::Above(v),
        atoms::operand_of("<"@ + v) == OperandView::Below(v),
        atoms::operand_of("="@ + v) == OperandView::Exactly(v),
        atoms::operand_of("=="@ + v) == OperandView::Exactly(v),
        atoms::operand_of(v + ".."@ + w) == OperandView::Between(v, w),
        !text::begins(v, ">"@) && !text::begins(v, "<"@) ==> atoms::operand_of(v)
            == OperandView::Plain(v),
        atoms::without_negation("!"@ + v) == v,
        atoms::without_negation("!="@ + v) == "="@ + v,
{
    reveal_strlit(">=");
    reveal_strlit("<=");
    reveal_strlit(">");
    reveal_strlit("<");
    reveal_strlit("=");
    reveal_strlit("==");
    reveal_strlit("..");
    reveal_strlit("!");
    reveal_strlit("!=");
    lemma_sign(">="@, v);
    lemma_sign("<="@, v);
    lemma_sign(">"@, v);
    lemma_sign("<"@, v);
    lemma_sign("="@, v);
    lemma_sign("=="@, v);
    lemma_sign("!"@, v);
    lemma_sign("!="@, v);
    lemma_begins_with_one(">"@, '>');
    lemma_begins_with_one("<"@, '<');
    lemma_begins_with_one("="@, '=');
    lemma_begins_with_one("!"@, '!');
    lemma_begins_with_two(">="@, '>', '=');
    lemma_begins_with_two("<="@, '<', '=');
    lemma_begins_with_two("=="@, '=', '=');
    lemma_begins_with_two("!="@, '!', '=');
    assert((">="@ + v)[0] == '>' && (">="@ + v)[1] == '=');
    assert(("<="@ + v)[0] == '<' && ("<="@ + v)[1] == '=');
    assert(("=="@ + v)[0] == '=' && ("=="@ + v)[1] == '=');
    assert(("!="@ + v)[0] == '!' && ("!="@ + v)[1] == '=');
    assert((">"@ + v)[0] == '>' && ("<"@ + v)[0] == '<' && ("="@ + v)[0] == '=' && ("!"@ + v)[0]
        == '!');
    if v.len() > 0 {
        assert((">"@ + v)[1] == v[0] && ("<"@ + v)[1] == v[0] && ("="@ + v)[1] == v[0] && ("!"@
            + v)[1] == v[0]);
    }
    lemma_two_dots(v, w);
}

proof fn lemma_begins_with_one(sign: Seq<char>, c: char)
    requires
        sign.len() == 1,
        sign[0] == c,
    ensures
        forall|t: Seq<char>| #[trigger] text::begins(t, sign) == (t.len() > 0 && t[0] == c),
{
    assert(sign =~= seq![c]);
    assert forall|t: Seq<char>| #[trigger] text::begins(t, sign) == (t.len() > 0 && t[0] == c) by {
        if t.len() > 0 {
            assert(t.take(1) =~= seq![t[0]]);
            assert(seq![t[0]][0] == t[0] && seq![c][0] == c);
        }
    }
}

proof fn lemma_begins_with_two(sign: Seq<char>, a: char, b: char)
    requires
        sign.len() == 2,
        sign[0] == a,
        sign[1] == b,
    ensures
        forall|t: Seq<char>| #[trigger]
            text::begins(t, sign) == (t.len() > 1 && t[0] == a && t[1] == b),
{
    assert(sign =~= seq![a, b]);
    assert forall|t: Seq<char>| #[trigger]
        text::begins(t, sign) == (t.len() > 1 && t[0] == a && t[1] == b) by {
        if t.len() > 1 {
            assert(t.take(2) =~= seq![t[0], t[1]]);
            assert(t.take(2)[0] == t[0] && seq![a, b][0] == a);
            assert(t.take(2)[1] == t[1] && seq![a, b][1] == b);
        }
    }
}

/// A sign without dots before a text without two dots in it.
proof fn lemma_sign(sign: Seq<char>, v: Seq<char>)
    requires
        atoms::dots_at(v) is None,
        0 < sign.len() <= 2,
        forall|i: int| 0 <= i < sign.len() ==> #[trigger] sign[i] != '.',
    ensures
        atoms::dots_at(sign + v) is None,
        (sign + v).skip(sign.len() as int) == v,
        (sign + v).take(sign.len() as int) == sign,
{
    let t = sign + v;
    assert(t.skip(sign.len() as int) =~= v);
    assert(t.take(sign.len() as int) =~= sign);
    if sign.len() == 1 {
        assert(t.drop_first() =~= v);
        assert(t[0] == sign[0]);
    } else {
        let rest = t.drop_first();
        assert(rest.drop_first() =~= v);
        assert(t[0] == sign[0] && rest[0] == sign[1]);
        assert(atoms::dots_at(rest) is None);
    }
}

proof fn lemma_two_dots(v: Seq<char>, w: Seq<char>)
    requires
        atoms::dots_at(v) is None,
        !text::ends_in(v, '.'),
    ensures
        atoms::dots_at(v + ".."@ + w) == Some(v.len() as int),
        (v + ".."@ + w).take(v.len() as int) == v,
        (v + ".."@ + w).skip(v.len() + 2int) == w,
    decreases v.len(),
{
    reveal_strlit("..");
    let t = v + ".."@ + w;
    assert(t.take(v.len() as int) =~= v);
    assert(t.skip(v.len() + 2int) =~= w);
    if v.len() > 0 {
        let rest = v.drop_first();
        assert(t.drop_first() =~= rest + ".."@ + w);
        assert(v.len() >= 2 ==> atoms::dots_at(rest) is None);
        if rest.len() > 0 {
            assert(rest.last() == v.last());
            assert(t[1] == v[1]);
        } else {
            assert(v.last() == v[0]);
        }
        assert(t[0] == v[0]);
        lemma_two_dots(rest, w);
    } else {
        assert(t[0] == '.' && t[1] == '.');
    }
}

/// What comparisons accept: at least, at most, above, below and exactly the number that is
/// written, everything from one number to another with both, and of a number alone all from it up
/// to where its next decimal begins.
pub proof fn law_comparisons_accept_what_they_say(
    value: spec_fn(Seq<char>) -> Result<i64, Seq<char>>,
    reach: spec_fn(Seq<char>) -> Result<i64, Seq<char>>,
    v: Seq<char>,
    w: Seq<char>,
    k: i64,
    n: i64,
    key: i64,
)
    requires
        value(v) == Ok::<i64, Seq<char>>(k),
        value(w) == Ok::<i64, Seq<char>>(n),
        reach(v) == Ok::<i64, Seq<char>>(n),
    ensures
        ({
            let accepts = |operand: OperandView|
                {
                    let bounds = numbers::bounds_of(operand, value, reach);
                    bounds is Ok && bounds->Ok_0.accepts(key as int)
                };
            &&& accepts(OperandView::AtLeast(v)) == (key >= k)
            &&& accepts(OperandView::AtMost(v)) == (key <= k)
            &&& accepts(OperandView::Above(v)) == (key > k)
            &&& accepts(OperandView::Below(v)) == (key < k)
            &&& accepts(OperandView::Exactly(v)) == (key == k)
            &&& accepts(OperandView::Between(v, w)) == (k <= key <= n)
            &&& accepts(OperandView::Plain(v)) == (k <= n && k <= key && (key < n))
        }),
{
}

/// What comparisons with dates accept: a date alone, or with an equals sign, its own seconds;
/// above it what comes after all of them, below it what comes before all of them, and at least or
/// at most the date itself too.
pub proof fn law_date_comparisons_accept_what_they_say(
    answer: spec_fn(Seq<char>) -> Result<(i64, i64), Seq<char>>,
    v: Seq<char>,
    w: Seq<char>,
    period: (i64, i64),
    other: (i64, i64),
    second: i64,
)
    requires
        answer(v) == Ok::<(i64, i64), Seq<char>>(period),
        answer(w) == Ok::<(i64, i64), Seq<char>>(other),
        period.0 < period.1,
        period.0 < other.1,
    ensures
        ({
            let accepts = |operand: OperandView|
                {
                    let span = dates::seconds_of(operand, answer);
                    span is Ok && (span->Ok_0).0 <= second <= (span->Ok_0).1
                };
            &&& accepts(OperandView::Plain(v)) == (period.0 <= second && second < period.1)
            &&& accepts(OperandView::Exactly(v)) == (period.0 <= second && second < period.1)
            &&& accepts(OperandView::AtLeast(v)) == (second >= period.0)
            &&& accepts(OperandView::AtMost(v)) == (second < period.1)
            &&& accepts(OperandView::Above(v)) == (second >= period.1)
            &&& accepts(OperandView::Below(v)) == (second < period.0)
            &&& accepts(OperandView::Between(v, w)) == (period.0 <= second && second < other.1)
        }),
{
}

proof fn lemma_powers()
    ensures
        numbers::unit_power("k"@) == Some(1u32),
        numbers::unit_power("kb"@) == Some(1u32),
        numbers::unit_power("kib"@) == Some(1u32),
        numbers::unit_power("m"@) == Some(2u32),
        numbers::unit_power("mb"@) == Some(2u32),
        numbers::unit_power("mib"@) == Some(2u32),
        numbers::unit_power("g"@) == Some(3u32),
        numbers::unit_power("gb"@) == Some(3u32),
        numbers::unit_power("gib"@) == Some(3u32),
        numbers::unit_power("t"@) == Some(4u32),
        numbers::unit_power("tb"@) == Some(4u32),
        numbers::unit_power("tib"@) == Some(4u32),
        numbers::unit_power("b"@) == Some(0u32),
        numbers::unit_power(""@) == Some(0u32),
{
    words::lemma_unit_words();
    assert(words::number_of_word(""@) == 0) by {
        reveal_strlit("");
        reveal(words::number_of_word);
    }
}

/// Bytes count by powers of 1024: kilo once, mega twice, giga three times and tera four times, and
/// nothing or `b` stands for single bytes; the ways to write a unit mean the same.
pub proof fn law_units_count_by_1024()
    ensures
        numbers::unit_power(""@) == Some(0u32),
        numbers::unit_power("b"@) == Some(0u32),
        numbers::unit_power("k"@) == Some(1u32),
        numbers::unit_power("m"@) == Some(2u32),
        numbers::unit_power("g"@) == Some(3u32),
        numbers::unit_power("t"@) == Some(4u32),
        numbers::unit_power("kb"@) == numbers::unit_power("k"@),
        numbers::unit_power("kib"@) == numbers::unit_power("k"@),
        numbers::unit_power("mb"@) == numbers::unit_power("m"@),
        numbers::unit_power("mib"@) == numbers::unit_power("m"@),
        numbers::unit_power("gb"@) == numbers::unit_power("g"@),
        numbers::unit_power("gib"@) == numbers::unit_power("g"@),
        numbers::unit_power("tb"@) == numbers::unit_power("t"@),
        numbers::unit_power("tib"@) == numbers::unit_power("t"@),
{
    lemma_powers();
}

/// How long the units of durations are: a minute has 60 seconds, an hour 60 minutes, a day 24 hours
/// and a week 7 days; a year has 12 months. The ways to write a unit mean the same.
pub proof fn law_durations_count_seconds_or_months()
    ensures
        dates::unit_of("s"@) == Some(DurationUnit::Seconds(1)),
        dates::unit_of("sec"@) == Some(DurationUnit::Seconds(1)),
        dates::unit_of("secs"@) == Some(DurationUnit::Seconds(1)),
        dates::unit_of("second"@) == Some(DurationUnit::Seconds(1)),
        dates::unit_of("seconds"@) == Some(DurationUnit::Seconds(1)),
        dates::unit_of("min"@) == Some(DurationUnit::Seconds(60)),
        dates::unit_of("mins"@) == Some(DurationUnit::Seconds(60)),
        dates::unit_of("minute"@) == Some(DurationUnit::Seconds(60)),
        dates::unit_of("minutes"@) == Some(DurationUnit::Seconds(60)),
        dates::unit_of("h"@) == Some(DurationUnit::Seconds(3600)),
        dates::unit_of("hour"@) == Some(DurationUnit::Seconds(3600)),
        dates::unit_of("hours"@) == Some(DurationUnit::Seconds(3600)),
        dates::unit_of("d"@) == Some(DurationUnit::Seconds(86400)),
        dates::unit_of("day"@) == Some(DurationUnit::Seconds(86400)),
        dates::unit_of("days"@) == Some(DurationUnit::Seconds(86400)),
        dates::unit_of("w"@) == Some(DurationUnit::Seconds(604800)),
        dates::unit_of("week"@) == Some(DurationUnit::Seconds(604800)),
        dates::unit_of("weeks"@) == Some(DurationUnit::Seconds(604800)),
        dates::unit_of("month"@) == Some(DurationUnit::Months(1)),
        dates::unit_of("months"@) == Some(DurationUnit::Months(1)),
        dates::unit_of("year"@) == Some(DurationUnit::Months(12)),
        dates::unit_of("years"@) == Some(DurationUnit::Months(12)),
{
    words::lemma_unit_words();
}

/// A duration is a count and a unit: so many times the unit, back from now.
pub proof fn law_durations_multiply_their_unit(count: int, unit: DurationUnit)
    requires
        0 <= count <= u32::MAX,
    ensures
        unit matches DurationUnit::Seconds(each) ==> dates::counted(count, unit) == Some(
            count * each,
        ),
        unit matches DurationUnit::Months(each) ==> dates::counted(count, unit) == (if count * each
            <= u32::MAX {
            Some(count * each)
        } else {
            None
        }),
{
}

} // verus!
