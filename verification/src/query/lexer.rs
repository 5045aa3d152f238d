//! Query text into tokens.
use crate::query::options;
use crate::query::options::{metric_name, numeric_property};
use crate::text;
use crate::text::{byte_count, chars_of, keyword, same_text, text_of};
use vstd::prelude::*;

verus! {

/// Unicode's `White_Space` characters.
pub open spec fn white_space(c: char) -> bool {
    ||| '\u{9}' <= c <= '\u{d}'
    ||| c == '\u{20}'
    ||| c == '\u{85}'
    ||| c == '\u{a0}'
    ||| c == '\u{1680}'
    ||| '\u{2000}' <= c <= '\u{200a}'
    ||| '\u{2028}' <= c <= '\u{2029}'
    ||| c == '\u{202f}'
    ||| c == '\u{205f}'
    ||| c == '\u{3000}'
}

/// `char::is_whitespace`.
pub assume_specification[ char::is_whitespace ](c: char) -> (white: bool)
    ensures
        white == white_space(c),
;

/// A piece of a query. An atom remembers behind how many of its bytes the first quoted part
/// begins.
#[derive(Debug)]
pub enum Token {
    Atom(String, Option<usize>),
    L,
    R,
    Or,
    Not,
    And,
}

/// The mathematical value of a `Token`.
#[verifier::ext_equal]
pub enum TokenView {
    Atom(Seq<char>, Option<int>),
    L,
    R,
    Or,
    Not,
    And,
}

/// A position as a mathematical integer.
pub open spec fn position(at: Option<usize>) -> Option<int> {
    match at {
        Some(at) => Some(at as int),
        None => None,
    }
}

impl View for Token {
    type V = TokenView;

    open spec fn view(&self) -> TokenView {
        match self {
            Token::Atom(text, from) => TokenView::Atom(text@, position(*from)),
            Token::L => TokenView::L,
            Token::R => TokenView::R,
            Token::Or => TokenView::Or,
            Token::Not => TokenView::Not,
            Token::And => TokenView::And,
        }
    }
}

/// The mathematical values of some tokens.
pub open spec fn token_views(tokens: Seq<Token>) -> Seq<TokenView> {
    tokens.map_values(|token: Token| token@)
}

/// Keys after which `<` and `>` compare instead of grouping.
pub open spec fn compares_numbers(key: Seq<char>) -> bool {
    ||| options::is_numeric_property(key)
    ||| options::is_metric_name(key)
    ||| key == "size"@
    ||| key == "width"@
    ||| key == "height"@
    ||| key == "duration"@
    ||| key == "pages"@
    ||| key == "dm"@
    ||| key == "dc"@
    ||| key == "modified"@
    ||| key == "created"@
    ||| key == "datemodified"@
    ||| key == "datecreated"@
}

fn numeric_key(key: &str) -> (numeric: bool)
    ensures
        numeric == compares_numbers(key@),
{
    numeric_property(key) || metric_name(key) || same_text(key, "size") || same_text(key, "width")
        || same_text(key, "height") || same_text(key, "duration") || same_text(key, "pages")
        || same_text(key, "dm") || same_text(key, "dc") || same_text(key, "modified") || same_text(
        key,
        "created",
    ) || same_text(key, "datemodified") || same_text(key, "datecreated")
}

/// How far an atom has been read.
#[verifier::ext_equal]
pub struct ScanView {
    pub text: Seq<char>,
    pub pos: int,
    pub quoted: bool,
    pub had_quote: bool,
    pub literal_from: Option<int>,
    pub parentheses: int,
    pub regex_mode: bool,
    pub escaped: bool,
    pub class: bool,
    pub numeric: bool,
    pub component: int,
}

/// An atom that begins at `pos`.
pub open spec fn scan_start(pos: int) -> ScanView {
    ScanView {
        text: Seq::empty(),
        pos,
        quoted: false,
        had_quote: false,
        literal_from: None,
        parentheses: 0,
        regex_mode: false,
        escaped: false,
        class: false,
        numeric: false,
        component: 0,
    }
}

/// Parentheses and brackets are being counted for a regular expression.
pub open spec fn counts_groups(s: ScanView) -> bool {
    s.regex_mode && !s.escaped && !s.class
}

/// Whether an unquoted character ends the atom in front of it.
pub open spec fn ends_atom(s: ScanView, c: char) -> bool {
    ||| white_space(c)
    ||| counts_groups(s) && c == '<' && text::ends_in(s.text, ':')
    ||| counts_groups(s) && (c == ')' || c == '>') && s.parentheses == 0
    ||| !s.regex_mode && (c == '(' || c == ')' || c == '|')
    ||| !s.regex_mode && (c == '<' || c == '>') && !s.numeric && !text::ends_in(s.text, '=')
}

/// The modes after a colon: the component in front of it may switch regular expressions on or
/// off, or announce a comparison.
pub open spec fn after_colon(s: ScanView, c: char) -> ScanView {
    if c == ':' {
        let key = text::keyword_of(s.text.skip(s.component));
        ScanView {
            regex_mode: if key == "noregex"@ {
                false
            } else {
                s.regex_mode || key == "regex"@
            },
            numeric: compares_numbers(key),
            component: s.text.len() + 1int,
            ..s
        }
    } else {
        ScanView { numeric: false, ..s }
    }
}

/// The escape and bracket state after one unquoted character of a regular expression.
pub open spec fn after_escape(s: ScanView, c: char) -> ScanView {
    if !s.regex_mode || s.quoted {
        s
    } else if s.escaped {
        ScanView { escaped: false, ..s }
    } else if c == '\\' {
        ScanView { escaped: true, ..s }
    } else if c == '[' {
        ScanView { class: true, ..s }
    } else if c == ']' {
        ScanView { class: false, ..s }
    } else {
        s
    }
}

/// The atom with one more character.
pub open spec fn with_char(s: ScanView, c: char) -> ScanView {
    let parentheses = if !s.quoted && counts_groups(s) && c == '(' {
        s.parentheses + 1
    } else if !s.quoted && counts_groups(s) && c == ')' {
        s.parentheses - 1
    } else {
        s.parentheses
    };
    let next = after_escape(after_colon(ScanView { parentheses, ..s }, c), c);
    ScanView { text: s.text.push(c), pos: s.pos + 1, ..next }
}

/// One step of reading an atom, or nothing where the atom ends.
pub open spec fn scan_step(input: Seq<char>, s: ScanView) -> Option<ScanView> {
    if s.pos >= input.len() {
        None
    } else {
        let c = input[s.pos];
        if c == '"' {
            Some(
                ScanView {
                    literal_from: if !s.quoted && s.literal_from is None {
                        Some(text::bytes_of(s.text).len() as int)
                    } else {
                        s.literal_from
                    },
                    quoted: !s.quoted,
                    had_quote: true,
                    pos: s.pos + 1,
                    ..s
                },
            )
        } else if c == '\\' && s.quoted {
            if s.pos + 1 < input.len() && (input[s.pos + 1] == '"' || input[s.pos + 1] == '\\') {
                Some(ScanView { text: s.text.push(input[s.pos + 1]), pos: s.pos + 2, ..s })
            } else {
                Some(ScanView { text: s.text.push('\\'), pos: s.pos + 1, ..s })
            }
        } else if !s.quoted && ends_atom(s, c) {
            None
        } else {
            Some(with_char(s, c))
        }
    }
}

/// The atom read to its end.
pub open spec fn scan(input: Seq<char>, s: ScanView) -> ScanView
    decreases input.len() - s.pos,
{
    match scan_step(input, s) {
        Some(next) => if s.pos < next.pos {
            scan(input, next)
        } else {
            s
        },
        None => s,
    }
}

/// Reading goes forward and stops at the end.
pub proof fn lemma_scan_position(input: Seq<char>, s: ScanView)
    requires
        s.pos <= input.len(),
    ensures
        s.pos <= scan(input, s).pos <= input.len(),
    decreases input.len() - s.pos,
{
    match scan_step(input, s) {
        Some(next) => {
            if s.pos < next.pos {
                lemma_scan_position(input, next);
            }
        },
        None => {},
    }
}

/// The token of an atom that has been read.
pub open spec fn atom_token(s: ScanView) -> TokenView {
    if !s.had_quote && s.text == "OR"@ {
        TokenView::Or
    } else if !s.had_quote && s.text == "AND"@ {
        TokenView::And
    } else if !s.had_quote && s.text == "NOT"@ {
        TokenView::Not
    } else {
        TokenView::Atom(s.text, s.literal_from)
    }
}

/// Characters that are tokens by themselves.
pub open spec fn punctuation(c: char) -> Option<TokenView> {
    if c == '(' || c == '<' {
        Some(TokenView::L)
    } else if c == ')' || c == '>' {
        Some(TokenView::R)
    } else if c == '|' {
        Some(TokenView::Or)
    } else if c == '!' {
        Some(TokenView::Not)
    } else {
        None
    }
}

/// The tokens from `pos` on, given those before it.
pub open spec fn tokens_from(input: Seq<char>, pos: int, done: Seq<TokenView>) -> Result<
    Seq<TokenView>,
    Seq<char>,
>
    decreases input.len() - pos,
{
    if pos >= input.len() {
        Ok(done)
    } else if done.len() >= 8192 {
        Err("Query exceeds 8192 tokens"@)
    } else if white_space(input[pos]) {
        tokens_from(input, pos + 1, done)
    } else {
        match punctuation(input[pos]) {
            Some(token) => tokens_from(input, pos + 1, done.push(token)),
            None => {
                let atom = scan(input, scan_start(pos));
                proof {
                    lemma_scan_position(input, scan_start(pos));
                }
                if atom.quoted {
                    Err("Unclosed quotation mark"@)
                } else if atom.text.len() == 0 && !atom.had_quote || atom.pos <= pos {
                    Err("Unexpected query character"@)
                } else {
                    tokens_from(input, atom.pos, done.push(atom_token(atom)))
                }
            },
        }
    }
}

/// The tokens of a query text.
pub open spec fn tokens_of(input: Seq<char>) -> Result<Seq<TokenView>, Seq<char>> {
    if text::bytes_of(input).len() > 65536 {
        Err("Query exceeds 64 KiB"@)
    } else {
        tokens_from(input, 0, Seq::empty())
    }
}

/// How far an atom has been read.
struct Scan {
    text: Vec<char>,
    pos: usize,
    quoted: bool,
    had_quote: bool,
    literal_from: Option<usize>,
    parentheses: usize,
    regex_mode: bool,
    escaped: bool,
    class: bool,
    numeric: bool,
    component: usize,
}

impl View for Scan {
    type V = ScanView;

    closed spec fn view(&self) -> ScanView {
        ScanView {
            text: self.text@,
            pos: self.pos as int,
            quoted: self.quoted,
            had_quote: self.had_quote,
            literal_from: position(self.literal_from),
            parentheses: self.parentheses as int,
            regex_mode: self.regex_mode,
            escaped: self.escaped,
            class: self.class,
            numeric: self.numeric,
            component: self.component as int,
        }
    }
}

impl Scan {
    fn last_is(&self, c: char) -> (yes: bool)
        ensures
            yes == text::ends_in(self.text@, c),
    {
        let count = self.text.len();
        count > 0 && self.text[count - 1] == c
    }

    fn ends_before(&self, c: char) -> (ends: bool)
        ensures
            ends == ends_atom(self@, c),
    {
        if c.is_whitespace() {
            return true;
        }
        if self.regex_mode {
            !self.escaped && !self.class && ((c == '<' && self.last_is(':')) || ((c == ')' || c
                == '>') && self.parentheses == 0))
        } else {
            c == '(' || c == ')' || c == '|' || ((c == '<' || c == '>') && !self.numeric
                && !self.last_is('='))
        }
    }

    /// Append one character that does not end the atom.
    fn append(&mut self, c: char)
        requires
            old(self)@.component <= old(self)@.text.len(),
            old(self)@.parentheses <= old(self)@.text.len(),
            old(self)@.text.len() <= old(self)@.pos < usize::MAX,
            old(self)@.quoted || !ends_atom(old(self)@, c),
        ensures
            final(self)@ == with_char(old(self)@, c),
    {
        let ghost before = self@;
        if !self.quoted && self.regex_mode && !self.escaped && !self.class {
            if c == '(' {
                self.parentheses = self.parentheses + 1;
            } else if c == ')' {
                self.parentheses = self.parentheses - 1;
            }
        }
        let ghost counted = self@;
        if c == ':' {
            let component = text_of(&self.text, self.component, self.text.len());
            assert(component@ =~= self.text@.skip(self.component as int));
            let key = keyword(component.as_str());
            if same_text(key.as_str(), "regex") {
                self.regex_mode = true;
            }
            if same_text(key.as_str(), "noregex") {
                self.regex_mode = false;
            }
            self.numeric = numeric_key(key.as_str());
            self.component = self.text.len() + 1;
            proof {
                reveal_strlit("regex");
                reveal_strlit("noregex");
                assert("regex"@.len() != "noregex"@.len());
            }
        } else {
            self.numeric = false;
        }
        assert(self@ == after_colon(counted, c));
        if self.regex_mode && !self.quoted {
            if self.escaped {
                self.escaped = false;
            } else if c == '\\' {
                self.escaped = true;
            } else if c == '[' {
                self.class = true;
            } else if c == ']' {
                self.class = false;
            }
        }
        self.text.push(c);
        self.pos = self.pos + 1;
    }
}

/// Read the atom that begins at `from`.
fn scan_atom(input: &Vec<char>, from: usize) -> (atom: Scan)
    requires
        from <= input@.len(),
    ensures
        atom@ == scan(input@, scan_start(from as int)),
        from <= atom@.pos <= input@.len(),
{
    let mut atom = Scan {
        text: Vec::new(),
        pos: from,
        quoted: false,
        had_quote: false,
        literal_from: None,
        parentheses: 0,
        regex_mode: false,
        escaped: false,
        class: false,
        numeric: false,
        component: 0,
    };
    assert(atom@ =~= scan_start(from as int));
    assert(input.len() <= usize::MAX);
    while atom.pos < input.len()
        invariant
            from <= atom@.pos <= input@.len() <= usize::MAX,
            atom@.component <= atom@.text.len(),
            atom@.parentheses <= atom@.text.len(),
            atom@.text.len() <= atom@.pos,
            scan(input@, atom@) == scan(input@, scan_start(from as int)),
        decreases input@.len() - atom@.pos,
    {
        let ghost before = atom@;
        let c = input[atom.pos];
        if c == '"' {
            if !atom.quoted && atom.literal_from.is_none() {
                let read = text_of(&atom.text, 0, atom.text.len());
                assert(read@ =~= atom.text@);
                atom.literal_from = Some(byte_count(read.as_str()));
            }
            atom.pos = atom.pos + 1;
            atom.quoted = !atom.quoted;
            atom.had_quote = true;
        } else if c == '\\' && atom.quoted {
            atom.pos = atom.pos + 1;
            if atom.pos < input.len() && (input[atom.pos] == '"' || input[atom.pos] == '\\') {
                atom.text.push(input[atom.pos]);
                atom.pos = atom.pos + 1;
            } else {
                atom.text.push('\\');
            }
        } else {
            if !atom.quoted && atom.ends_before(c) {
                return atom;
            }
            atom.append(c);
        }
        assert(scan_step(input@, before) == Some(atom@));
    }
    atom
}

/// The tokens of a query, or why there are none.
pub fn lex(input: &str) -> (result: Result<Vec<Token>, String>)
    ensures
        match tokens_of(input@) {
            Ok(tokens) => result matches Ok(list) && token_views(list@) == tokens,
            Err(reason) => result matches Err(message) && message@ == reason,
        },
        result matches Ok(list) ==> list@.len() <= 8192,
{
    if input.as_bytes().len() > 65536 {
        return Err("Query exceeds 64 KiB".to_owned());
    }
    let chars = chars_of(input);
    let mut out: Vec<Token> = Vec::new();
    let mut pos: usize = 0;
    assert(token_views(out@) =~= Seq::<TokenView>::empty());
    while pos < chars.len()
        invariant
            chars@ == input@,
            text::bytes_of(input@).len() <= 65536,
            pos <= chars@.len(),
            out@.len() <= 8192,
            tokens_from(input@, pos as int, token_views(out@)) == tokens_of(input@),
        decreases chars@.len() - pos,
    {
        if out.len() >= 8192 {
            return Err("Query exceeds 8192 tokens".to_owned());
        }
        let c = chars[pos];
        let ghost before = out@;
        if c.is_whitespace() {
            pos = pos + 1;
            continue;
        }
        let single = if c == '(' || c == '<' {
            Some(Token::L)
        } else if c == ')' || c == '>' {
            Some(Token::R)
        } else if c == '|' {
            Some(Token::Or)
        } else if c == '!' {
            Some(Token::Not)
        } else {
            None
        };
        if let Some(token) = single {
            let ghost view = token@;
            out.push(token);
            assert(token_views(out@) =~= token_views(before).push(view));
            pos = pos + 1;
            continue;
        }
        let atom = scan_atom(&chars, pos);
        if atom.quoted {
            return Err("Unclosed quotation mark".to_owned());
        }
        if (atom.text.len() == 0 && !atom.had_quote) || atom.pos <= pos {
            return Err("Unexpected query character".to_owned());
        }
        let text = text_of(&atom.text, 0, atom.text.len());
        assert(text@ =~= atom.text@);
        let token = if !atom.had_quote && same_text(text.as_str(), "OR") {
            Token::Or
        } else if !atom.had_quote && same_text(text.as_str(), "AND") {
            Token::And
        } else if !atom.had_quote && same_text(text.as_str(), "NOT") {
            Token::Not
        } else {
            Token::Atom(text, atom.literal_from)
        };
        let ghost view = token@;
        out.push(token);
        assert(token_views(out@) =~= token_views(before).push(view));
        pos = atom.pos;
    }
    Ok(out)
}

} // verus!
