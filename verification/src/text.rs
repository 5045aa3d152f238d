//! Text that is searched: characters, bytes, and the foldings applied to both.
use vstd::prelude::*;

verus! {

/// `String::push` appends one character.
pub assume_specification[ std::string::String::push ](target: &mut String, c: char)
    ensures
        final(target)@ == old(target)@.push(c),
;

/// The bytes of a text in UTF-8.
pub open spec fn bytes_of(text: Seq<char>) -> Seq<u8> {
    vstd::utf8::encode_utf8(text)
}

/// All characters are ASCII.
pub open spec fn ascii(text: Seq<char>) -> bool {
    vstd::utf8::is_ascii_chars(text)
}

/// ASCII letters in lower case, everything else as it is.
pub open spec fn lower_char(c: char) -> char {
    if 'A' <= c <= 'Z' {
        ((c as u32) + 32) as char
    } else {
        c
    }
}

/// A text with its ASCII letters in lower case.
pub open spec fn lower(text: Seq<char>) -> Seq<char> {
    text.map_values(|c: char| lower_char(c))
}

pub fn lower_ascii_char(c: char) -> (low: char)
    ensures
        low == lower_char(c),
{
    if c >= 'A' && c <= 'Z' {
        let code: u8 = c as u8;
        (code + 32) as char
    } else {
        c
    }
}

/// The characters of a text.
pub fn chars_of(text: &str) -> (chars: Vec<char>)
    ensures
        chars@ == text@,
{
    let mut chars: Vec<char> = Vec::new();
    for c in iter: text.chars()
        invariant
            iter.seq() == text@,
            chars@ == text@.take(iter.index() as int),
    {
        chars.push(c);
        assert(chars@ =~= text@.take(iter.index() + 1));
    }
    assert(text@.take(text@.len() as int) =~= text@);
    chars
}

/// The text of some characters.
pub fn text_of(chars: &Vec<char>, start: usize, end: usize) -> (text: String)
    requires
        start <= end <= chars@.len(),
    ensures
        text@ == chars@.subrange(start as int, end as int),
{
    let mut text = String::new();
    let mut next: usize = start;
    while next < end
        invariant
            start <= next <= end <= chars@.len(),
            text@ == chars@.subrange(start as int, next as int),
        decreases end - next,
    {
        text.push(chars[next]);
        next = next + 1;
        assert(text@ =~= chars@.subrange(start as int, next as int));
    }
    text
}

/// The text with its ASCII letters in lower case.
pub fn lower_ascii(text: &str) -> (low: String)
    ensures
        low@ == lower(text@),
{
    let mut low = String::new();
    for c in iter: text.chars()
        invariant
            iter.seq() == text@,
            low@ == lower(text@).take(iter.index() as int),
    {
        low.push(lower_ascii_char(c));
        assert(low@ =~= lower(text@).take(iter.index() + 1));
    }
    assert(lower(text@).take(text@.len() as int) =~= lower(text@));
    low
}

/// Texts with the same bytes are the same text.
pub proof fn lemma_same_bytes(a: Seq<char>, b: Seq<char>)
    requires
        bytes_of(a) == bytes_of(b),
    ensures
        a == b,
{
    vstd::utf8::encode_utf8_decode_utf8(a);
    vstd::utf8::encode_utf8_decode_utf8(b);
}

/// What is left of a text takes no more bytes.
pub proof fn lemma_rest_bytes(text: Seq<char>, count: int)
    requires
        0 <= count <= text.len(),
    ensures
        bytes_of(text.skip(count)).len() <= bytes_of(text).len(),
    decreases count,
{
    if count == 0 {
        assert(text.skip(0) =~= text);
    } else {
        let rest = text.drop_first();
        lemma_rest_bytes(rest, count - 1);
        assert(rest.skip(count - 1) =~= text.skip(count));
    }
}

/// The number of bytes of a text.
pub fn byte_count(text: &str) -> (count: usize)
    ensures
        count == bytes_of(text@).len(),
{
    text.as_bytes().len()
}

/// Whether two texts are equal.
pub fn same_text(a: &str, b: &str) -> (same: bool)
    ensures
        same == (a@ == b@),
{
    let (x, y) = (a.as_bytes(), b.as_bytes());
    if x.len() != y.len() {
        return false;
    }
    let mut next: usize = 0;
    while next < x.len()
        invariant
            x@ == bytes_of(a@),
            y@ == bytes_of(b@),
            x@.len() == y@.len(),
            next <= x@.len(),
            x@.take(next as int) == y@.take(next as int),
        decreases x@.len() - next,
    {
        if x[next] != y[next] {
            return false;
        }
        next = next + 1;
        assert(x@.take(next as int) =~= x@.take(next - 1).push(x@[next - 1]));
        assert(y@.take(next as int) =~= y@.take(next - 1).push(y@[next - 1]));
    }
    proof {
        assert(x@.take(next as int) =~= x@);
        assert(y@.take(next as int) =~= y@);
        lemma_same_bytes(a@, b@);
    }
    true
}

/// Whether one of some texts is `text`.
pub fn any_text(texts: &Vec<String>, text: &str) -> (found: bool)
    ensures
        found == exists|i: int| 0 <= i < texts@.len() && (#[trigger] texts@[i])@ == text@,
{
    let mut next: usize = 0;
    while next < texts.len()
        invariant
            next <= texts@.len(),
            forall|i: int| 0 <= i < next ==> (#[trigger] texts@[i])@ != text@,
        decreases texts@.len() - next,
    {
        if same_text(texts[next].as_str(), text) {
            return true;
        }
        next = next + 1;
    }
    false
}

/// One text after another.
pub fn joined(a: &str, b: &str) -> (text: String)
    ensures
        text@ == a@ + b@,
{
    let mut text = a.to_owned();
    text.append(b);
    text
}

/// `needle` stands in `haystack` at `at`.
pub open spec fn occurs_at(haystack: Seq<u8>, needle: Seq<u8>, at: int) -> bool {
    &&& 0 <= at
    &&& at + needle.len() <= haystack.len()
    &&& haystack.subrange(at, at + needle.len()) == needle
}

/// `needle` stands somewhere in `haystack`.
pub open spec fn occurs(haystack: Seq<u8>, needle: Seq<u8>) -> bool {
    exists|at: int| occurs_at(haystack, needle, at)
}

/// `memchr::memmem::find`: the position of the first occurrence of `needle`.
#[verifier::external_body]
pub(crate) fn find_bytes(haystack: &[u8], needle: &[u8]) -> (found: Option<usize>)
    ensures
        match found {
            Some(at) => occurs_at(haystack@, needle@, at as int) && forall|i: int|
                0 <= i < at ==> !occurs_at(haystack@, needle@, i),
            None => !occurs(haystack@, needle@),
        },
{
    memchr::memmem::find(haystack, needle)
}

/// Whether `needle` occurs in `haystack`.
pub fn contains_text(haystack: &str, needle: &str) -> (found: bool)
    ensures
        found == occurs(bytes_of(haystack@), bytes_of(needle@)),
{
    find_bytes(haystack.as_bytes(), needle.as_bytes()).is_some()
}

/// Where `c` first stands in `text`, or its length where it does not occur.
pub open spec fn first_at(text: Seq<char>, c: char) -> int
    decreases text.len(),
{
    if text.len() == 0 || text[0] == c {
        0
    } else {
        1 + first_at(text.drop_first(), c)
    }
}

pub proof fn lemma_first_at(text: Seq<char>, c: char, at: int)
    requires
        0 <= at <= text.len(),
        forall|i: int| 0 <= i < at ==> #[trigger] text[i] != c,
        at < text.len() ==> text[at] == c,
    ensures
        first_at(text, c) == at,
    decreases text.len(),
{
    if at > 0 {
        assert(text[0] != c);
        let rest = text.drop_first();
        assert forall|i: int| 0 <= i < at - 1 implies #[trigger] rest[i] != c by {
            assert(rest[i] == text[i + 1]);
        }
        lemma_first_at(rest, c, at - 1);
    }
}

pub proof fn lemma_first_bounds(text: Seq<char>, c: char)
    ensures
        0 <= first_at(text, c) <= text.len(),
        first_at(text, c) < text.len() ==> text[first_at(text, c)] == c,
    decreases text.len(),
{
    if text.len() > 0 && text[0] != c {
        lemma_first_bounds(text.drop_first(), c);
    }
}

/// The pieces of a text between separators.
pub open spec fn split_on(text: Seq<char>, c: char) -> Seq<Seq<char>>
    decreases text.len(),
{
    let at = first_at(text, c);
    if 0 <= at < text.len() {
        seq![text.take(at)] + split_on(text.skip(at + 1), c)
    } else {
        seq![text]
    }
}

/// The texts of some strings.
pub open spec fn texts(strings: Seq<String>) -> Seq<Seq<char>> {
    strings.map_values(|s: String| s@)
}

/// Where `c` first stands from `start` on, or the number of characters where it does not.
pub fn find_char(chars: &Vec<char>, start: usize, c: char) -> (at: usize)
    requires
        start <= chars@.len(),
    ensures
        start <= at <= chars@.len(),
        at == start + first_at(chars@.skip(start as int), c),
        at < chars@.len() ==> chars@[at as int] == c,
{
    let mut at: usize = start;
    while at < chars.len() && chars[at] != c
        invariant
            start <= at <= chars@.len(),
            forall|i: int| start <= i < at ==> #[trigger] chars@[i] != c,
        decreases chars@.len() - at,
    {
        at = at + 1;
    }
    proof {
        lemma_first_at(chars@.skip(start as int), c, at - start);
    }
    at
}

/// What stands before and after the first `c`, where there is one.
pub fn split_once(text: &str, c: char) -> (parts: Option<(String, String)>)
    ensures
        match parts {
            Some((head, tail)) => {
                let at = first_at(text@, c);
                &&& 0 <= at < text@.len()
                &&& head@ == text@.take(at)
                &&& tail@ == text@.skip(at + 1)
            },
            None => first_at(text@, c) == text@.len(),
        },
{
    let chars = chars_of(text);
    let at = find_char(&chars, 0, c);
    assert(chars@.skip(0) =~= chars@);
    if at == chars.len() {
        return None;
    }
    let head = text_of(&chars, 0, at);
    let tail = text_of(&chars, at + 1, chars.len());
    assert(head@ =~= text@.take(at as int));
    assert(tail@ =~= text@.skip(at + 1));
    Some((head, tail))
}

/// The pieces of a text between separators.
pub fn split_text(text: &str, c: char) -> (pieces: Vec<String>)
    ensures
        texts(pieces@) == split_on(text@, c),
        pieces@.len() > 0,
{
    let chars = chars_of(text);
    let mut pieces: Vec<String> = Vec::new();
    let mut start: usize = 0;
    proof {
        assert(chars@.skip(0) =~= chars@);
        assert(texts(pieces@) + split_on(chars@, c) =~= split_on(chars@, c));
    }
    loop
        invariant
            start <= chars@.len(),
            chars@ == text@,
            texts(pieces@) + split_on(chars@.skip(start as int), c) == split_on(text@, c),
        decreases chars@.len() - start,
    {
        let at = find_char(&chars, start, c);
        let ghost rest = chars@.skip(start as int);
        let ghost before = pieces@;
        let piece = text_of(&chars, start, at);
        assert(piece@ =~= rest.take(at - start));
        pieces.push(piece);
        assert(texts(pieces@) =~= texts(before).push(piece@));
        if at == chars.len() {
            proof {
                assert(rest.take(at - start) =~= rest);
                assert(split_on(rest, c) == seq![rest]);
                assert(texts(pieces@) =~= texts(before) + seq![rest]);
            }
            return pieces;
        }
        proof {
            assert(rest.skip(at - start + 1) =~= chars@.skip(at + 1));
            assert(texts(pieces@) + split_on(chars@.skip(at + 1), c) =~= texts(before) + (
            seq![piece@] + split_on(chars@.skip(at + 1), c)));
        }
        start = at + 1;
    }
}

/// Whether a text begins with another.
pub open spec fn begins(text: Seq<char>, prefix: Seq<char>) -> bool {
    prefix.len() <= text.len() && text.take(prefix.len() as int) == prefix
}

/// What follows `prefix`, where the text begins with it.
pub fn strip_prefix(text: &str, prefix: &str) -> (rest: Option<String>)
    ensures
        match rest {
            Some(tail) => begins(text@, prefix@) && tail@ == text@.skip(prefix@.len() as int),
            None => !begins(text@, prefix@),
        },
{
    let (chars, start) = (chars_of(text), chars_of(prefix));
    if start.len() > chars.len() {
        return None;
    }
    let mut next: usize = 0;
    while next < start.len()
        invariant
            chars@ == text@,
            start@ == prefix@,
            next <= start@.len() <= chars@.len(),
            chars@.take(next as int) == start@.take(next as int),
        decreases start@.len() - next,
    {
        if chars[next] != start[next] {
            proof {
                if begins(text@, prefix@) {
                    assert(text@.take(prefix@.len() as int)[next as int] == prefix@[next as int]);
                }
            }
            return None;
        }
        next = next + 1;
        assert(chars@.take(next as int) =~= chars@.take(next - 1).push(chars@[next - 1]));
        assert(start@.take(next as int) =~= start@.take(next - 1).push(start@[next - 1]));
    }
    assert(start@.take(next as int) =~= start@);
    let rest = text_of(&chars, next, chars.len());
    assert(rest@ =~= text@.skip(next as int));
    Some(rest)
}

/// Whether the last character of a text is `c`.
pub open spec fn ends_in(text: Seq<char>, c: char) -> bool {
    text.len() > 0 && text.last() == c
}

/// What stands before a final `c`, where the text ends in it.
pub fn strip_last(text: &str, c: char) -> (rest: Option<String>)
    ensures
        match rest {
            Some(head) => ends_in(text@, c) && head@ == text@.drop_last(),
            None => !ends_in(text@, c),
        },
{
    let chars = chars_of(text);
    let count = chars.len();
    if count == 0 || chars[count - 1] != c {
        return None;
    }
    let head = text_of(&chars, 0, count - 1);
    assert(head@ =~= text@.drop_last());
    Some(head)
}

/// Whether `c` occurs in a text.
pub fn has_char(text: &str, c: char) -> (found: bool)
    ensures
        found == text@.contains(c),
{
    let chars = chars_of(text);
    let mut next: usize = 0;
    while next < chars.len()
        invariant
            next <= chars@.len(),
            chars@ == text@,
            forall|i: int| 0 <= i < next ==> #[trigger] chars@[i] != c,
        decreases chars@.len() - next,
    {
        if chars[next] == c {
            return true;
        }
        next = next + 1;
    }
    false
}

/// A text without one character.
pub open spec fn without_char(text: Seq<char>, c: char) -> Seq<char>
    decreases text.len(),
{
    if text.len() == 0 {
        text
    } else if text.last() == c {
        without_char(text.drop_last(), c)
    } else {
        without_char(text.drop_last(), c).push(text.last())
    }
}

/// Search keywords are compared without case and hyphens.
pub open spec fn keyword_of(text: Seq<char>) -> Seq<char> {
    without_char(lower(text), '-')
}

pub fn keyword(s: &str) -> (key: String)
    ensures
        key@ == keyword_of(s@),
{
    let mut key = String::new();
    let ghost low = lower(s@);
    for c in iter: s.chars()
        invariant
            iter.seq() == s@,
            low == lower(s@),
            key@ == without_char(low.take(iter.index() as int), '-'),
    {
        let ghost part = low.take(iter.index() + 1);
        assert(part.drop_last() =~= low.take(iter.index() as int));
        assert(part.last() == lower_char(c));
        let small = lower_ascii_char(c);
        if small != '-' {
            key.push(small);
        }
    }
    assert(low.take(s@.len() as int) =~= low);
    key
}

/// `std::str::from_utf8`, copied: the text that some bytes encode, if they encode one.
#[verifier::external_body]
pub(crate) fn decoded(bytes: &[u8]) -> (text: Option<String>)
    ensures
        match text {
            Some(found) => bytes_of(found@) == bytes@,
            None => !vstd::utf8::valid_utf8(bytes@),
        },
{
    std::str::from_utf8(bytes).ok().map(str::to_owned)
}

/// What `str::to_lowercase` makes of a text.
pub uninterp spec fn lowercase(text: Seq<char>) -> Seq<char>;

/// `str::to_lowercase`.
#[verifier::external_body]
pub(crate) fn to_lowercase(text: &str) -> (low: String)
    ensures
        low@ == lowercase(text@),
{
    text.to_lowercase()
}

/// Where a character occurs last, or -1.
pub open spec fn last_at(text: Seq<char>, c: char) -> int
    decreases text.len(),
{
    if text.len() == 0 {
        -1
    } else if text.last() == c {
        text.len() - 1
    } else {
        last_at(text.drop_last(), c)
    }
}

/// What follows a character where it occurs last, if it does and not only at the start.
pub fn after_last(text: &str, c: char) -> (tail: Option<String>)
    ensures
        match tail {
            Some(rest) => 0 < last_at(text@, c) < text@.len() && rest@ == text@.skip(
                last_at(text@, c) + 1,
            ),
            None => last_at(text@, c) <= 0,
        },
{
    let chars = chars_of(text);
    let mut end: usize = chars.len();
    assert(chars@.take(end as int) =~= text@);
    while end > 0
        invariant
            end <= chars@.len(),
            chars@ == text@,
            last_at(text@, c) == last_at(chars@.take(end as int), c),
        decreases end,
    {
        let ghost part = chars@.take(end as int);
        assert(part.drop_last() =~= chars@.take(end - 1));
        if chars[end - 1] == c {
            if end == 1 {
                return None;
            }
            let rest = text_of(&chars, end, chars.len());
            assert(rest@ =~= text@.skip(end as int));
            return Some(rest);
        }
        end = end - 1;
    }
    None
}

/// A copy of some texts.
pub fn copy_texts(list: &[String]) -> (copy: Vec<String>)
    ensures
        texts(copy@) == texts(list@),
{
    let mut copy: Vec<String> = Vec::new();
    let mut next: usize = 0;
    assert(texts(copy@) =~= texts(list@).take(0));
    while next < list.len()
        invariant
            next <= list@.len(),
            texts(copy@) == texts(list@).take(next as int),
        decreases list@.len() - next,
    {
        let ghost before = texts(copy@);
        let one = list[next].clone();
        copy.push(one);
        next = next + 1;
        assert(texts(copy@) =~= before.push(list@[next - 1]@));
        assert(texts(copy@) =~= texts(list@).take(next as int));
    }
    assert(texts(list@).take(next as int) =~= texts(list@));
    copy
}

/// The texts of a list that satisfy a condition.
pub open spec fn kept_texts(list: Seq<Seq<char>>, keep: spec_fn(Seq<char>) -> bool) -> Seq<
    Seq<char>,
>
    decreases list.len(),
{
    if list.len() == 0 {
        list
    } else {
        let before = kept_texts(list.drop_last(), keep);
        if keep(list.last()) {
            before.push(list.last())
        } else {
            before
        }
    }
}

/// The texts of a list that a predicate accepts.
pub(crate) fn keep_texts<F: Fn(&str) -> bool>(
    list: &[String],
    accepts: F,
    Ghost(keep): Ghost<spec_fn(Seq<char>) -> bool>,
) -> (kept: Vec<String>)
    requires
        forall|one: &str| #[trigger] call_requires(accepts, (one,)),
        forall|one: &str, said: bool| #[trigger]
            call_ensures(accepts, (one,), said) ==> said == keep(one@),
    ensures
        texts(kept@) == kept_texts(texts(list@), keep),
{
    let ghost all = texts(list@);
    let mut kept: Vec<String> = Vec::new();
    let mut next: usize = 0;
    assert(texts(kept@) =~= kept_texts(all.take(0), keep));
    while next < list.len()
        invariant
            next <= list@.len(),
            all == texts(list@),
            forall|one: &str| #[trigger] call_requires(accepts, (one,)),
            forall|one: &str, said: bool| #[trigger]
                call_ensures(accepts, (one,), said) ==> said == keep(one@),
            texts(kept@) == kept_texts(all.take(next as int), keep),
        decreases list@.len() - next,
    {
        let ghost part = all.take(next + 1);
        let ghost before = texts(kept@);
        assert(part.drop_last() =~= all.take(next as int));
        assert(part.last() == list@[next as int]@);
        if accepts(list[next].as_str()) {
            let one = list[next].clone();
            kept.push(one);
            assert(texts(kept@) =~= before.push(list@[next as int]@));
        }
        next = next + 1;
    }
    assert(all.take(next as int) =~= all);
    kept
}

/// One list of texts behind another.
pub fn append_texts(list: &mut Vec<String>, more: Vec<String>)
    ensures
        texts(final(list)@) == texts(old(list)@) + texts(more@),
{
    let mut rest = more;
    list.append(&mut rest);
    assert(texts(list@) =~= texts(old(list)@) + texts(more@));
}

} // verus!
