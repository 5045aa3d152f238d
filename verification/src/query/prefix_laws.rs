//! What stands before a colon in a search word: kinds, targets, modifiers and functions, each said
//! of the word as it is written.
use crate::query::atoms;
use crate::query::atoms::{AtomView, PrefixView, RequestView};
use crate::query::keyword_laws;
use crate::query::lexer;
use crate::query::model::QueryView;
use crate::query::options;
use crate::query::options::{Field, OptionsView, TargetView};
use crate::query::parser;
use crate::query::words;
use crate::text;
use vstd::prelude::*;

verus! {

/// A text without colons.
pub open spec fn without_colon(t: Seq<char>) -> bool {
    forall|i: int| 0 <= i < t.len() ==> #[trigger] t[i] != ':'
}

/// A word with something before a colon.
pub open spec fn before_colon(key: Seq<char>, t: Seq<char>) -> Seq<char> {
    key + seq![':'] + t
}

/// What is left of a word to read, with nothing read yet.
pub open spec fn unread(t: Seq<char>, base: OptionsView, kind: Option<bool>) -> AtomView {
    AtomView { rest: t, options: base, is_dir: kind }
}

proof fn lemma_colon(key: Seq<char>, t: Seq<char>)
    requires
        without_colon(key),
    ensures
        text::first_at(before_colon(key, t), ':') == key.len(),
        before_colon(key, t).take(key.len() as int) == key,
        before_colon(key, t).skip(key.len() + 1int) == t,
        before_colon(key, t).len() == key.len() + 1 + t.len(),
{
    let all = before_colon(key, t);
    let n = key.len() as int;
    assert forall|i: int| 0 <= i < n implies #[trigger] all[i] != ':' by {
        assert(all[i] == key[i]);
    }
    assert(all[n] == ':');
    text::lemma_first_at(all, ':', n);
    assert(all.take(n) =~= key);
    assert(all.skip(n + 1) =~= t);
}

proof fn lemma_no_colon(t: Seq<char>)
    requires
        without_colon(t),
    ensures
        text::first_at(t, ':') == t.len(),
{
    text::lemma_first_at(t, ':', t.len() as int);
}

/// A modifier before a word changes the modes in which the word is looked for, and nothing else.
pub proof fn law_modifiers_apply_to_the_word_behind_them(
    key: Seq<char>,
    t: Seq<char>,
    base: OptionsView,
    changed: OptionsView,
    requests: Seq<RequestView>,
)
    requires
        without_colon(key),
        without_colon(t),
        options::relation_of(text::keyword_of(key)) is None,
        options::modified(base, key) == Some(changed),
    ensures
        atoms::atom_result(before_colon(key, t), base, None, requests) == (
            atoms::plain_result(unread(t, changed, None)),
            requests,
        ),
{
    let all = before_colon(key, t);
    let length = text::bytes_of(all).len() as int;
    lemma_colon(key, t);
    lemma_no_colon(t);
    let next = unread(t, changed, None);
    assert(atoms::read_prefixes(length, None, next) == PrefixView::Rest(next));
    assert(atoms::prefix_step(unread(all, base, None)) == Some((next, true)));
    assert(atoms::read_prefixes(length, None, unread(all, base, None)) == PrefixView::Rest(next));
    lemma_unrestricted(atoms::plain_result(next));
}

proof fn lemma_unrestricted(said: Result<QueryView, Seq<char>>)
    ensures
        atoms::restricted_result(said, None) == said,
{
}

/// `file`, `folder` and `dir` before a word leave of what it finds the files or the folders, and
/// alone find all of them.
pub proof fn law_kinds_before_a_word_restrict_it(
    t: Seq<char>,
    base: OptionsView,
    requests: Seq<RequestView>,
)
    requires
        without_colon(t),
        t.len() > 0,
    ensures
        atoms::atom_result(before_colon("file"@, t), base, None, requests).0
            == atoms::restricted_result(
            atoms::plain_result(unread(t, base, Some(false))),
            Some(false),
        ),
        atoms::atom_result(before_colon("folder"@, t), base, None, requests).0
            == atoms::restricted_result(
            atoms::plain_result(unread(t, base, Some(true))),
            Some(true),
        ),
        atoms::atom_result(before_colon("dir"@, t), base, None, requests).0
            == atoms::restricted_result(
            atoms::plain_result(unread(t, base, Some(true))),
            Some(true),
        ),
{
    words::lemma_function_words();
    lemma_kind("file"@, false, t, base, requests);
    lemma_kind("folder"@, true, t, base, requests);
    lemma_kind("dir"@, true, t, base, requests);
}

proof fn lemma_kind(
    key: Seq<char>,
    dir: bool,
    t: Seq<char>,
    base: OptionsView,
    requests: Seq<RequestView>,
)
    requires
        without_colon(t),
        t.len() > 0,
        key == "file"@ && !dir || key == "folder"@ && dir || key == "dir"@ && dir,
    ensures
        atoms::atom_result(before_colon(key, t), base, None, requests).0
            == atoms::restricted_result(
            atoms::plain_result(unread(t, base, Some(dir))),
            Some(dir),
        ),
{
    words::lemma_function_words();
    words::lemma_modifier_words();
    words::lemma_metric_words();
    words::lemma_keyword(key);
    words::lemma_plain_letters(key);
    reveal(options::change_of);
    reveal(atoms::prefix_word);
    let all = before_colon(key, t);
    let length = text::bytes_of(all).len() as int;
    lemma_colon(key, t);
    lemma_no_colon(t);
    let next = unread(t, base, Some(dir));
    assert(atoms::read_prefixes(length, None, next) == PrefixView::Rest(next));
    assert(options::modified(base, key) is None);
    assert(atoms::prefix_step(unread(all, base, None)) == Some((next, true)));
    assert(atoms::read_prefixes(length, None, unread(all, base, None)) == PrefixView::Rest(next));
}

/// `content` before a word looks for it in contents, `extension` in extensions, and the name of a
/// textual property in that property.
pub proof fn law_targets_before_a_word_are_looked_at(
    t: Seq<char>,
    base: OptionsView,
    requests: Seq<RequestView>,
)
    requires
        without_colon(t),
    ensures
        ({
            let said = |key: Seq<char>, target: TargetView|
                atoms::atom_result(before_colon(key, t), base, None, requests).0
                    == atoms::plain_result(unread(t, keyword_laws::with_target(base, target), None));
            &&& said("content"@, TargetView::Content)
            &&& said("extension"@, TargetView::Extension)
            &&& said("artist"@, TargetView::Property("artist"@))
            &&& said("album"@, TargetView::Property("album"@))
            &&& said("title"@, TargetView::Property("title"@))
            &&& said("author"@, TargetView::Property("author"@))
            &&& said("subject"@, TargetView::Property("subject"@))
            &&& said("genre"@, TargetView::Property("genre"@))
        }),
{
    lemma_target("content"@, TargetView::Content, t, base, requests);
    lemma_target("extension"@, TargetView::Extension, t, base, requests);
    lemma_target("artist"@, TargetView::Property("artist"@), t, base, requests);
    lemma_target("album"@, TargetView::Property("album"@), t, base, requests);
    lemma_target("title"@, TargetView::Property("title"@), t, base, requests);
    lemma_target("author"@, TargetView::Property("author"@), t, base, requests);
    lemma_target("subject"@, TargetView::Property("subject"@), t, base, requests);
    lemma_target("genre"@, TargetView::Property("genre"@), t, base, requests);
}

proof fn lemma_target(
    key: Seq<char>,
    target: TargetView,
    t: Seq<char>,
    base: OptionsView,
    requests: Seq<RequestView>,
)
    requires
        without_colon(t),
        key == "content"@ && target == TargetView::Content || key == "extension"@ && target
            == TargetView::Extension || (target == TargetView::Property(key) && (key == "artist"@
            || key == "album"@ || key == "title"@ || key == "author"@ || key == "subject"@ || key
            == "genre"@)),
    ensures
        atoms::atom_result(before_colon(key, t), base, None, requests).0 == atoms::plain_result(
            unread(t, keyword_laws::with_target(base, target), None),
        ),
{
    words::lemma_function_words();
    words::lemma_modifier_words();
    words::lemma_metric_words();
    words::lemma_property_words();
    words::lemma_keyword(key);
    words::lemma_plain_letters(key);
    reveal(options::change_of);
    reveal(atoms::prefix_word);
    let all = before_colon(key, t);
    let length = text::bytes_of(all).len() as int;
    lemma_colon(key, t);
    lemma_no_colon(t);
    let next = unread(t, keyword_laws::with_target(base, target), None);
    assert(options::modified(base, key) is None);
    assert(atoms::prefix_step(unread(all, base, None)) == Some((next, false)));
    assert(atoms::read_prefixes(length, None, unread(all, base, None)) == PrefixView::Rest(next));
    lemma_unrestricted(atoms::plain_result(next));
}

/// A name of a function before a colon calls it with what stands behind the colon.
pub proof fn law_functions_take_what_stands_behind_them(
    key: Seq<char>,
    value: Seq<char>,
    base: OptionsView,
    requests: Seq<RequestView>,
)
    requires
        base.target is None,
        !base.modes.regex,
        key == "size"@ || key == "dm"@ || key == "dc"@ || key == "type"@ || key == "attrib"@ || key
            == "flags"@ || key == "ext"@ || key == "hidden"@ || key == "symlink"@ || key
            == "empty"@ || key == "width"@ || key == "height"@ || key == "duration"@ || key
            == "childcount"@ || key == "foldersize"@,
    ensures
        atoms::atom_result(before_colon(key, value), base, None, requests)
            == atoms::function_result(key, value, base, requests),
{
    words::lemma_function_words();
    words::lemma_modifier_words();
    words::lemma_metric_words();
    words::lemma_property_words();
    words::lemma_keyword(key);
    words::lemma_plain_letters(key);
    reveal(options::change_of);
    reveal(atoms::prefix_word);
    let all = before_colon(key, value);
    let length = text::bytes_of(all).len() as int;
    lemma_colon(key, value);
    let start = unread(all, base, None);
    assert(options::modified(base, key) is None);
    assert(atoms::prefix_step(start) is None);
    assert(atoms::read_prefixes(length, None, start) == PrefixView::Rest(start));
    lemma_unrestricted(atoms::function_result(key, value, base, requests).0);
}

/// A search that says nothing about how: it looks at names, does not mind case or diacritics, asks
/// nothing of where the word stands, and takes wildcards but no expressions. An empty search finds
/// everything.
pub proof fn law_plain_searches_look_at_names(macros: Seq<(Seq<char>, Seq<char>)>)
    ensures
        ({
            let plain = options::default_options();
            &&& plain.modes.field == Field::Name
            &&& !plain.modes.sensitive && !plain.modes.diacritics && !plain.modes.regex
            &&& !plain.modes.prefix && !plain.modes.suffix && !plain.modes.whole
            &&& !plain.modes.start && !plain.modes.end
            &&& plain.modes.wildcards && !plain.modes.dot_all && !plain.modes.multiline
            &&& plain.target is None
        }),
        parser::parsed(Seq::empty(), macros).0 == Ok::<QueryView, Seq<char>>(QueryView::All),
{
    assert(text::bytes_of(Seq::<char>::empty()).len() == 0);
    assert(lexer::tokens_from(Seq::empty(), 0, Seq::empty()) == Ok::<
        Seq<lexer::TokenView>,
        Seq<char>,
    >(Seq::empty()));
}

/// A macro stands for the value of the first one with its name.
pub proof fn law_macros_stand_for_their_value(
    macros: Seq<(Seq<char>, Seq<char>)>,
    name: Seq<char>,
    at: int,
)
    ensures
        0 <= at < macros.len() && macros[at].0 == name && (forall|i: int|
            0 <= i < at ==> (#[trigger] macros[i]).0 != name) ==> parser::macro_value(macros, name)
            == Some(macros[at].1),
        (forall|i: int| 0 <= i < macros.len() ==> (#[trigger] macros[i]).0 != name)
            ==> parser::macro_value(macros, name) is None,
    decreases macros.len(),
{
    if macros.len() > 0 {
        let rest = macros.drop_first();
        law_macros_stand_for_their_value(rest, name, at - 1);
        assert forall|i: int| 0 <= i < rest.len() implies #[trigger] rest[i] == macros[i + 1] by {}
        if 0 < at < macros.len() {
            assert(rest[at - 1] == macros[at]);
        }
    }
}

} // verus!
