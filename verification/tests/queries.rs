use apfsearch_core::files::{IndexedFile, Property, PropertyValue};
use apfsearch_core::fold::{fold, fold_search, natural_cmp};
use apfsearch_core::natural::natural_cmp_folded;
use apfsearch_core::numeric_columns::{NumericColumns, BLOCK_ENTRIES};
use apfsearch_core::query::atoms::{atom_with_options, related_query, NumberRequest, Operand};
use apfsearch_core::query::binding::{finish, parse_at};
use apfsearch_core::query::lexer::{lex, Token};
use apfsearch_core::query::model::{restrict_type, Query, Term};
use apfsearch_core::query::numbers::{number_span, written_number, written_precision};
use apfsearch_core::query::options::{relation_scope, scoped_options, MatchOptions};
use apfsearch_core::query::parser::{parse, Macro};
use apfsearch_core::result_order::{ResultOrder, SortItem};
use roaring::RoaringBitmap;

fn find<'a>(macros: &'a [Macro], key: &str) -> Option<&'a str> {
    macros
        .iter()
        .find(|item| item.name == key)
        .map(|item| item.value.as_str())
}

/// A recursive parser of the grammar, to hold the results against.
struct Reference<'a> {
    tokens: Vec<Token>,
    pos: usize,
    macros: &'a [Macro],
    depth: usize,
    nesting: usize,
    remaining: usize,
    requests: Vec<NumberRequest>,
}

fn reference(input: &str, macros: &[Macro]) -> Result<Query, String> {
    let tokens = lex(input)?;
    if tokens.is_empty() {
        return Ok(Query::All);
    }
    let mut parser = Reference {
        tokens,
        pos: 0,
        macros,
        depth: 0,
        nesting: 0,
        remaining: 8192,
        requests: Vec::new(),
    };
    let query = parser.and(&MatchOptions::default())?;
    if parser.pos != parser.tokens.len() {
        return Err("Unexpected closing group or trailing token".into());
    }
    Ok(query)
}

impl Reference<'_> {
    fn at(&self, wanted: fn(&Token) -> bool) -> bool {
        self.tokens.get(self.pos).is_some_and(wanted)
    }

    fn or(&mut self, options: &MatchOptions) -> Result<Query, String> {
        let mut queries = vec![self.unary(options)?];
        while self.at(|token| matches!(token, Token::Or)) {
            self.pos += 1;
            queries.push(self.unary(options)?);
        }
        Ok(if queries.len() == 1 {
            queries.remove(0)
        } else {
            Query::Or(queries)
        })
    }

    fn and(&mut self, options: &MatchOptions) -> Result<Query, String> {
        let mut queries = vec![self.or(options)?];
        while self.pos < self.tokens.len() && !self.at(|token| matches!(token, Token::R)) {
            if self.at(|token| matches!(token, Token::And)) {
                self.pos += 1;
            }
            queries.push(self.or(options)?);
        }
        Ok(if queries.len() == 1 {
            queries.remove(0)
        } else {
            Query::And(queries)
        })
    }

    fn group(&mut self, options: &MatchOptions) -> Result<Query, String> {
        let query = self.and(options)?;
        if !self.at(|token| matches!(token, Token::R)) {
            return Err("Unclosed search group".into());
        }
        self.pos += 1;
        Ok(query)
    }

    fn unary(&mut self, options: &MatchOptions) -> Result<Query, String> {
        if self.nesting >= 128 {
            return Err("Search expression nesting exceeds 128 levels".into());
        }
        if self.remaining == 0 {
            return Err("Expanded query exceeds 8192 expressions".into());
        }
        self.remaining -= 1;
        self.nesting += 1;
        let result = self.unary_inner(options);
        self.nesting -= 1;
        result
    }

    fn unary_inner(&mut self, options: &MatchOptions) -> Result<Query, String> {
        let (word, literal_from) = match self.tokens.get(self.pos) {
            None => return Err("Missing search expression".into()),
            Some(Token::Not) => {
                self.pos += 1;
                return Ok(Query::Not(Box::new(self.unary(options)?)));
            }
            Some(Token::L) => {
                self.pos += 1;
                return self.group(options);
            }
            Some(Token::Atom(word, literal_from)) => (word.clone(), *literal_from),
            Some(_) => return Err("Expected a search expression".into()),
        };
        self.pos += 1;
        if literal_from != Some(0) && self.at(|token| matches!(token, Token::L)) {
            if let Some((recursive, kind, scoped)) = relation_scope(&word, options) {
                self.pos += 1;
                let query = restrict_type(self.group(&scoped)?, kind);
                return Ok(related_query(recursive, query));
            }
            if let Some((scoped, is_dir)) = scoped_options(&word, options) {
                self.pos += 1;
                return Ok(restrict_type(self.group(&scoped)?, is_dir));
            }
        }
        let value = if literal_from != Some(0) {
            word.strip_suffix(':').and_then(|key| find(self.macros, key))
        } else {
            None
        };
        if let Some(value) = value {
            if self.depth >= 16 {
                return Err("Macro expansion exceeds 16 levels (possible cycle)".into());
            }
            let mut parser = Reference {
                tokens: lex(value)?,
                pos: 0,
                macros: self.macros,
                depth: self.depth + 1,
                nesting: self.nesting,
                remaining: self.remaining,
                requests: Vec::new(),
            };
            if parser.tokens.is_empty() {
                return Ok(Query::All);
            }
            let query = parser.and(options);
            self.remaining = parser.remaining;
            let query = query?;
            if parser.pos != parser.tokens.len() {
                return Err("Unexpected closing group in macro".into());
            }
            return Ok(query);
        }
        atom_with_options(&word, options, literal_from, &mut self.requests)
    }
}

fn named(name: &str, value: &str) -> Macro {
    Macro {
        name: name.into(),
        value: value.into(),
    }
}

#[test]
fn iterative_parser_preserves_reference_trees_and_errors() {
    let macros = vec![
        named("docs", "ext:txt | ext:pdf"),
        named("scoped", "case:<alpha | beta> !ext:zip"),
        named("empty", ""),
        named("broken", "alpha >"),
        named("cycle", "cycle:"),
    ];
    let compare = |text: &str| {
        let actual = parse(text, &macros).outcome.map(|query| format!("{query:?}"));
        let expected = reference(text, &macros).map(|query| format!("{query:?}"));
        assert_eq!(actual, expected, "{text}");
    };
    for text in [
        "",
        "alpha | beta gamma",
        "alpha beta | gamma",
        "!docs: empty:",
        "file:<!scoped:>",
        "case:<docs: empty:>",
        "child:<docs: | beta>",
        "ancestor:<case:alpha | beta>",
        "broken:",
        "cycle:",
        "empty: <x>",
        "<>",
        "!",
        "|x",
        "x &",
        "x |",
        "<x",
        "x>",
        "<x |>",
        "docs:<x>",
        r#""docs:""#,
        r"regex:(?<word>foo)",
        r"regex:[(]",
        "path:<alpha | beta>",
        "file:folder:<x>",
        "regex:<alpha | beta>",
        "case:<alpha <nocase:beta>>",
    ] {
        compare(text);
    }
    fn expression(seed: &mut u64, depth: usize) -> String {
        *seed ^= *seed << 13;
        *seed ^= *seed >> 7;
        *seed ^= *seed << 17;
        let choice = *seed as usize;
        if depth == 0 {
            return [
                "alpha",
                "报告",
                "docs:",
                "empty:",
                "case:Alpha",
                "ext:pdf",
                r#"regex:"a.*b""#,
                r#""literal:term""#,
            ][choice % 8]
                .into();
        }
        let left = expression(seed, depth - 1);
        match choice % 7 {
            0 => format!("!{left}"),
            1 => format!("<{left}>"),
            2 => format!("case:<{left}>"),
            3 => format!("file:<{left}>"),
            4 => format!("{left} | {}", expression(seed, depth - 1)),
            5 => format!("{left} {}", expression(seed, depth - 1)),
            _ => format!("path:<{left}>"),
        }
    }
    let mut seed = 0x8c3a_205d_16e7_9b41;
    for _ in 0..1_024 {
        let text = expression(&mut seed, 5);
        compare(&text);
        compare(&format!("<{text}"));
        compare(&format!("{text} |"));
        compare(&format!("{text}>"));
    }
}

#[test]
fn nesting_macros_and_expansion_are_bounded() {
    let none = Vec::new();
    for depth in [1, 16, 64, 127] {
        let groups = format!("{}x{}", "<".repeat(depth), ">".repeat(depth));
        assert!(parse(&groups, &none).outcome.is_ok());
        assert!(parse(&format!("{}x", "!".repeat(depth)), &none).outcome.is_ok());
    }
    for depth in [128, 200, 8_000] {
        let groups = format!("{}x{}", "<".repeat(depth), ">".repeat(depth));
        assert!(parse(&groups, &none).outcome.is_err());
        assert!(parse(&format!("{}x", "!".repeat(depth)), &none).outcome.is_err());
    }
    let mut macros = vec![named("level0", "x")];
    for level in 1..=16 {
        macros.push(named(&format!("level{level}"), &format!("level{}:", level - 1)));
    }
    assert!(parse("level15:", &macros).outcome.is_ok());
    assert_eq!(
        parse("level16:", &macros).outcome.unwrap_err(),
        "Macro expansion exceeds 16 levels (possible cycle)"
    );
    for level in 1..16 {
        macros[level].value = format!("level{}: level{}:", level - 1, level - 1);
    }
    assert_eq!(
        parse("level15:", &macros).outcome.unwrap_err(),
        "Expanded query exceeds 8192 expressions"
    );
    let siblings = "<!<x | y>> ".repeat(256);
    assert!(parse(&siblings, &none).outcome.is_ok());
}

fn file(name: &str, extension: &str, is_dir: bool) -> IndexedFile {
    let path = format!("/Fixture/{name}");
    IndexedFile {
        id: 1,
        folded_name: fold(name),
        folded_path: fold(&path),
        folded_extension: fold(extension),
        search_name: fold_search(name),
        search_path: fold_search(&path),
        path,
        name: name.into(),
        parent: "/Fixture".into(),
        extension: extension.into(),
        size: 2048,
        modified: 100,
        created: -5,
        is_dir,
        is_symlink: name == "alias",
        flags: 0,
        file_id: 1,
        volume_id: "fixture".into(),
        modified_ns: 0,
        changed_ns: 0,
        properties: vec![Property {
            key: "width".into(),
            value: PropertyValue::Number(300),
        }],
    }
}

fn answer(request: &NumberRequest) -> Result<(i128, i128), String> {
    let number = |text: &str| {
        text.parse::<i128>()
            .map_err(|_| format!("Invalid number '{text}'"))
    };
    if request.date {
        return Ok((0, 86_399));
    }
    Ok(match &request.operand {
        Operand::Between(low, high) => (number(low)?, number(high)?),
        Operand::AtLeast(value) => (number(value)?, i128::MAX),
        Operand::AtMost(value) => (i128::MIN, number(value)?),
        Operand::Above(value) => (number(value)? + 1, i128::MAX),
        Operand::Below(value) => (i128::MIN, number(value)? - 1),
        Operand::Exactly(value) | Operand::Plain(value) => (number(value)?, number(value)?),
    })
}

fn parsed(text: &str) -> Result<Query, String> {
    let parsed = parse(text, &Vec::new());
    let answers = parsed.requests.iter().map(answer).collect();
    finish(parsed, &answers)
}

fn matches(text: &str, row: &IndexedFile, content: Option<&str>) -> bool {
    parsed(text).unwrap().matches(row, content).unwrap()
}

#[test]
fn words_and_their_scopes_match_as_written() {
    let row = file("Résumé Straße.TXT", "TXT", false);
    for text in [
        "resume",
        "strasse",
        "straße",
        "résumé",
        "case:Résumé",
        "diacritics:résumé",
        "ww:straße",
        "path:fixture",
        "regex:^R.sum",
        "*stra*txt",
        "startwith:resu",
        "endwith:.txt",
        "ext:txt",
        "ext:pdf;TXT",
        "file:",
        "!folder:",
        "<nothing | resume> txt",
        "size:2048",
        "size:>=2048",
        "size:<4096",
        "size:!=7",
        "size:1..3000",
        "width:>200",
        "\"Résumé Straße\"",
    ] {
        assert!(matches(text, &row, None), "{text}");
    }
    for text in [
        "missing",
        "case:résumé",
        "diacritics:resume",
        "ww:stra",
        "regex:^sum",
        "ext:pdf",
        "folder:",
        "symlink:",
        "!resume",
        "size:>2048",
        "size:unknown",
        "width:<300",
    ] {
        assert!(!matches(text, &row, None), "{text}");
    }
    assert!(matches("content:needle", &row, Some("hay Needle hay")));
    assert!(!matches("content:needle", &row, Some("hay")));
    assert!(matches("symlink:", &file("alias", "", false), None));
    assert!(matches("size:unknown", &file("folder", "", true), None));
}

#[test]
fn faulty_queries_say_what_is_wrong() {
    for (text, reason) in [
        ("<x", "Unclosed search group"),
        ("x>", "Unexpected closing group or trailing token"),
        ("!", "Missing search expression"),
        ("|x", "Expected a search expression"),
        ("size:many", "Invalid number 'many'"),
    ] {
        assert_eq!(parsed(text).unwrap_err(), reason, "{text}");
    }
    assert!(parsed("regex:\"[\"").is_err());
}

#[test]
fn queries_tell_what_they_need() {
    let needs = |text: &str| {
        let query = parsed(text).unwrap();
        (
            query.requires_relations(),
            query.requires_properties(),
            query.requires_content(),
        )
    };
    assert_eq!(needs("a b"), (false, false, false));
    assert_eq!(needs("child:a"), (true, false, false));
    assert_eq!(needs("width:3"), (false, true, false));
    assert_eq!(needs("content:a | b").2, true);
    let row = file("a", "", false);
    let query = parsed("content:x a").unwrap();
    assert!(query.may_match_without_content(&row).unwrap());
    assert!(!parsed("content:x zzz")
        .unwrap()
        .may_match_without_content(&row)
        .unwrap());
    assert_eq!(query.indexed_truth(&row, None).unwrap(), None);
    assert_eq!(query.indexed_truth(&row, Some("x")).unwrap(), Some(true));
}

#[test]
fn plain_literals_are_those_that_a_name_must_hold() {
    let literals = |text: &str| {
        let mut out = Vec::new();
        parsed(text).unwrap().required_name_literals(&mut out);
        out
    };
    assert_eq!(literals("Alpha beta"), ["alpha", "beta"]);
    assert_eq!(literals("alpha | beta"), Vec::<String>::new());
    assert_eq!(literals("!alpha"), Vec::<String>::new());
}

#[test]
fn numbers_in_names_compare_by_value() {
    assert!(natural_cmp("a2b", "a10b").is_lt());
    assert!(natural_cmp("A2", "a2").is_eq());
    assert!(natural_cmp("a", "a1").is_lt());
    assert!(natural_cmp_folded("x07", "x7").is_eq());
    assert!(natural_cmp_folded("10", "9").is_gt());
}

#[test]
fn columns_answer_numeric_terms_as_the_rows_do() {
    let count = BLOCK_ENTRIES * 2 + 37;
    let mut rows: Vec<IndexedFile> = (0..count)
        .map(|slot| {
            let mut row = file("a", "", slot % 5 == 0);
            row.size = (slot as u64 * 7919) % 9001;
            row.modified = slot as i64 - 4000;
            row.created = -(slot as i64);
            row
        })
        .collect();
    rows[3].size = u64::MAX;
    let mut columns = NumericColumns::build(&rows);
    let live: RoaringBitmap = (0..count as u32).filter(|slot| slot % 11 != 0).collect();
    let check = |columns: &NumericColumns, rows: &Vec<IndexedFile>| {
        for text in [
            "size:>=1024",
            "size:>4096",
            "size:<=4096",
            "size:=4096",
            "size:!=4096",
            "size:unknown",
            "size:!unknown",
            "size:18446744073709551615",
            "modified:-10..10",
            "created:<-8000",
        ] {
            let query = parsed(text).unwrap();
            let term = match &query {
                Query::Term(term) => term,
                other => panic!("{other:?}"),
            };
            assert!(NumericColumns::supports(term), "{text}");
            let found = columns.exact(term, rows, &live, || false).unwrap().unwrap();
            let expected: RoaringBitmap = live
                .iter()
                .filter(|slot| query.matches(&rows[*slot as usize], None).unwrap())
                .collect();
            assert_eq!(found, expected, "{text}");
        }
    };
    check(&columns, &rows);
    for slot in [0usize, 3, BLOCK_ENTRIES - 1, BLOCK_ENTRIES] {
        rows[slot].size = 4096;
        rows[slot].is_dir = !rows[slot].is_dir;
        columns.set(slot as u32, &rows[slot]);
    }
    columns.finish_update(&rows);
    check(&columns, &rows);
    let query = parsed("size:>1").unwrap();
    if let Query::Term(term) = &query {
        assert_eq!(
            columns.exact(term, &rows, &live, || true).unwrap_err(),
            "Query cancelled"
        );
    }
    assert!(!NumericColumns::supports(&Term::Hidden));
}

#[test]
fn dates_and_relations_over_them_may_depend_on_the_clock() {
    for (text, depends) in [
        ("a", false),
        ("size:>1", false),
        ("dm:today", true),
        ("!dm:today", true),
        ("a | dc:2024-01-01", true),
        ("child:<dm:today>", true),
        ("child:<a>", false),
    ] {
        assert_eq!(parsed(text).unwrap().may_depend_on_clock(), depends, "{text}");
    }
}

#[test]
fn only_changes_of_sorted_fields_move_a_row() {
    let by = |field: &str| {
        ResultOrder::parse(Some(&vec![SortItem {
            field: Some(field.into()),
            ascending: Some(true),
        }]))
        .unwrap()
    };
    let old = file("a.txt", "txt", false);
    let mut new = file("a.txt", "txt", false);
    new.size = old.size + 1;
    assert!(by("size").affected_by_change(&old, &new));
    assert!(!by("name").affected_by_change(&old, &new));
    new.id = old.id + 1;
    assert!(by("name").affected_by_change(&old, &new));
}

#[test]
fn numeric_unknown_size_differs_from_outer_boolean_not() {
    let row = |id: i64, size: u64, is_dir: bool| {
        let mut row = file(&format!("a{id}.txt"), "txt", is_dir);
        row.id = id;
        row.size = size;
        row
    };
    let rows = vec![
        row(1, 1024, false),
        row(2, 1025, false),
        row(3, 1024, true),
        row(4, u64::MAX, true),
    ];
    for (text, expected) in [
        ("size:!=1024", vec![2]),
        ("!size:=1024", vec![2, 3, 4]),
        ("size:unknown", vec![3, 4]),
        ("size:!unknown", vec![1, 2]),
        ("size:!=unknown", vec![1, 2]),
        ("!size:unknown", vec![1, 2]),
        ("dm:unknown", vec![]),
        ("dc:!unknown", vec![1, 2, 3, 4]),
        ("folder: size:>=0", vec![]),
        ("folder: !size:<0", vec![3, 4]),
    ] {
        let query = parse_at(text, &Vec::new(), answer).unwrap();
        let found: Vec<i64> = rows
            .iter()
            .filter(|row| query.matches_available(row, None).unwrap())
            .map(|row| row.id)
            .collect();
        assert_eq!(found, expected, "{text}");
    }
    assert_eq!(
        parse_at("size:x |", &Vec::new(), answer).unwrap_err(),
        "Invalid number 'x'"
    );
}

#[test]
fn texts_are_equal_when_their_numbers_are() {
    for (a, b) in [("x007y", "x7y"), ("a00", "a0"), ("1b02c", "01b2c"), ("", "")] {
        assert!(natural_cmp_folded(a, b).is_eq(), "{a} {b}");
    }
    for (a, b) in [("x7y", "x8y"), ("a0", "a1"), ("a", "a0"), ("9", "10"), ("2a", "2b")] {
        assert!(natural_cmp_folded(a, b).is_lt(), "{a} {b}");
        assert!(natural_cmp_folded(b, a).is_gt(), "{a} {b}");
    }
}

#[test]
fn a_negated_comparison_asks_for_the_same_bounds() {
    for (plain, negated) in [
        ("size:=5", "size:!=5"),
        ("size:5", "size:!5"),
        ("size:1..9", "size:!1..9"),
        ("dm:=2024", "dm:!=2024"),
    ] {
        let (first, second) = (parse(plain, &Vec::new()), parse(negated, &Vec::new()));
        assert_eq!(
            format!("{:?}", first.requests),
            format!("{:?}", second.requests),
            "{negated}"
        );
        let mut row = file("a.txt", "txt", false);
        for size in [0, 4, 5, 6, 9, 10] {
            row.size = size;
            row.modified = size as i64 * 20_000;
            assert_ne!(
                matches(plain, &row, None),
                matches(negated, &row, None),
                "{negated} {size}"
            );
        }
    }
}

#[test]
fn white_space_separates_words() {
    let listed = |code: u32| {
        matches!(
            code,
            0x9..=0xd
                | 0x20
                | 0x85
                | 0xa0
                | 0x1680
                | 0x2000..=0x200a
                | 0x2028..=0x2029
                | 0x202f
                | 0x205f
                | 0x3000
        )
    };
    let spaced = format!("{:?}", lex("a b").unwrap());
    for code in 0..=0x10ffff {
        if let Some(c) = char::from_u32(code) {
            assert_eq!(c.is_whitespace(), listed(code), "{code:x}");
            if listed(code) {
                let tokens = lex(&format!("a{c}b")).unwrap();
                assert_eq!(format!("{tokens:?}"), spaced, "{code:x}");
            }
        }
    }
    assert_eq!(lex("a\u{200b}b").unwrap().len(), 1);
}

#[test]
fn quoted_text_begins_at_a_byte() {
    let at = |input: &str| match lex(input).unwrap().as_slice() {
        [Token::Atom(text, from)] => (text.clone(), *from),
        other => panic!("{other:?}"),
    };
    assert_eq!(at("\u{e9}:\"x\""), ("\u{e9}:x".into(), Some(3)));
    assert_eq!(at("e:\"x\""), ("e:x".into(), Some(2)));
    assert_eq!(at("\u{6587}\u{4ef6}\"x\""), ("\u{6587}\u{4ef6}x".into(), Some(6)));
    assert_eq!(at("plain"), ("plain".into(), None));
}

#[test]
fn an_expression_that_gives_up_fails_only_the_rows_that_reach_it() {
    let row = file(&format!("{}b", "a".repeat(60)), "", false);
    let expression = "regex:\"^(a+)+$\"";
    let asks = |text: &str| parsed(text).unwrap().matches(&row, None);
    assert!(asks(expression).is_err());
    assert!(!asks(&format!("zzz {expression}")).unwrap());
    assert!(asks(&format!("aab | {expression}")).unwrap());
    assert!(asks(&format!("aab {expression}")).is_err());
}

fn key(value: f64) -> i64 {
    let bits = (value + 0.).to_bits() as i64;
    bits ^ (((bits >> 63) as u64) >> 1) as i64
}

fn scalar(text: &str) -> Result<f64, String> {
    let written = written_number(text);
    let value: f64 = written
        .digits
        .parse()
        .map_err(|_| format!("Invalid number '{text}'"))?;
    let power = written
        .power
        .ok_or_else(|| format!("Unknown unit in '{text}'"))?;
    Ok(value * 1024_f64.powi(power as i32))
}

fn reach(text: &str) -> Result<f64, String> {
    let precision = written_precision(text);
    let unit = match &precision.unit {
        Some(one) => scalar(one)?,
        None => 1.,
    };
    Ok(scalar(text)? + unit * 10_f64.powi(-(precision.decimals as i32)))
}

fn accepted(field: &str, operand: Operand) -> Result<(i128, i128), String> {
    number_span(
        &NumberRequest {
            field: field.into(),
            date: false,
            operand,
        },
        &|text: &str| scalar(text).map(key),
        &|text: &str| reach(text).map(key),
        &|number: i128| key(number as f64),
    )
}

#[test]
fn comparisons_accept_the_whole_numbers_between_their_bounds() {
    let (least, most) = (i64::MIN as i128, u64::MAX as i128);
    let cases = [
        (Operand::Between("1".into(), "2.5".into()), Ok((1, 2))),
        (Operand::AtLeast("1.5".into()), Ok((2, most))),
        (Operand::AtMost("1.5".into()), Ok((least, 1))),
        (Operand::Above("2".into()), Ok((3, most))),
        (Operand::Below("2".into()), Ok((least, 1))),
        (Operand::Exactly("2KiB".into()), Ok((2048, 2048))),
        (Operand::Plain(" 1.5k".into()), Ok((1536, 1638))),
        (Operand::Plain("5".into()), Ok((5, 5))),
        (
            Operand::Between("3".into(), "2".into()),
            Err("Range lower bound exceeds upper bound".to_string()),
        ),
        (
            Operand::Exactly("1x".into()),
            Err("Unknown unit in '1x'".to_string()),
        ),
        (
            Operand::Between("y".into(), "z".into()),
            Err("Invalid number 'y'".to_string()),
        ),
    ];
    for (operand, expected) in cases {
        let shown = format!("{operand:?}");
        assert_eq!(accepted("size", operand), expected, "{shown}");
    }
    let half = key(0.5) as i128;
    assert_eq!(
        accepted("width", Operand::Exactly("0.5".into())),
        Ok((half, half))
    );
    assert_eq!(
        accepted("width", Operand::Above("0.5".into())),
        Ok((half + 1, i128::MAX))
    );
}

#[test]
fn numbers_are_written_with_a_unit_and_decimals() {
    let parts = |text: &str| {
        let written = written_number(text);
        (written.digits, written.power)
    };
    assert_eq!(parts("\u{3000}12.5 MB "), ("12.5 ".into(), Some(2)));
    assert_eq!(parts("7"), ("7".into(), Some(0)));
    assert_eq!(parts("7tib"), ("7".into(), Some(4)));
    assert_eq!(parts("7gibi"), ("7".into(), None));
    let exact = |text: &str| {
        let precision = written_precision(text);
        (precision.decimals, precision.unit)
    };
    assert_eq!(exact("12.25MB"), (2, Some("1mb".into())));
    assert_eq!(exact("12"), (0, None));
    assert_eq!(exact("1.2.3"), (3, None));
}
