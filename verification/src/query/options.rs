//! Search keywords and the options they set.
use crate::text;
use crate::text::{keyword, same_text, split_text, strip_last};
use vstd::prelude::*;

verus! {

/// The part of a path that a text is looked for in.
#[derive(Clone, Copy, Debug, PartialEq, Eq, Structural)]
pub enum Field {
    Name,
    Path,
    Parent,
}

/// Where a text is looked for.
#[derive(Debug)]
pub enum TextTarget {
    Field(Field),
    Content,
    Property(String),
    Extension,
}

/// The mathematical value of a `TextTarget`.
#[verifier::ext_equal]
pub enum TargetView {
    Field(Field),
    Content,
    Property(Seq<char>),
    Extension,
}

impl View for TextTarget {
    type V = TargetView;

    open spec fn view(&self) -> TargetView {
        match self {
            TextTarget::Field(field) => TargetView::Field(*field),
            TextTarget::Content => TargetView::Content,
            TextTarget::Property(key) => TargetView::Property(key@),
            TextTarget::Extension => TargetView::Extension,
        }
    }
}

impl Clone for TextTarget {
    fn clone(&self) -> (target: Self)
        ensures
            target@ == self@,
    {
        match self {
            TextTarget::Field(field) => TextTarget::Field(*field),
            TextTarget::Content => TextTarget::Content,
            TextTarget::Property(key) => TextTarget::Property(key.clone()),
            TextTarget::Extension => TextTarget::Extension,
        }
    }
}

/// How a text is compared.
#[derive(Clone, Copy, Debug, PartialEq, Eq, Structural)]
pub struct Modes {
    pub field: Field,
    pub sensitive: bool,
    pub regex: bool,
    pub diacritics: bool,
    pub prefix: bool,
    pub suffix: bool,
    pub whole: bool,
    pub start: bool,
    pub end: bool,
    pub wildcards: bool,
    pub dot_all: bool,
    pub multiline: bool,
}

/// How a text is compared, and where it is looked for if that is not its field.
#[derive(Debug)]
pub struct MatchOptions {
    pub modes: Modes,
    pub target: Option<TextTarget>,
}

/// The mathematical value of `MatchOptions`.
#[verifier::ext_equal]
pub struct OptionsView {
    pub modes: Modes,
    pub target: Option<TargetView>,
}

/// The mathematical value of an optional target.
pub open spec fn target_view(target: Option<TextTarget>) -> Option<TargetView> {
    match target {
        Some(target) => Some(target@),
        None => None,
    }
}

impl View for MatchOptions {
    type V = OptionsView;

    open spec fn view(&self) -> OptionsView {
        OptionsView { modes: self.modes, target: target_view(self.target) }
    }
}

impl Clone for MatchOptions {
    fn clone(&self) -> (options: Self)
        ensures
            options@ == self@,
    {
        MatchOptions {
            modes: self.modes,
            target: match &self.target {
                Some(target) => Some(target.clone()),
                None => None,
            },
        }
    }
}

/// The modes of a query that sets none.
pub open spec fn default_modes() -> Modes {
    Modes {
        field: Field::Name,
        sensitive: false,
        regex: false,
        diacritics: false,
        prefix: false,
        suffix: false,
        whole: false,
        start: false,
        end: false,
        wildcards: true,
        dot_all: false,
        multiline: false,
    }
}

/// The options of a query that sets none.
pub open spec fn default_options() -> OptionsView {
    OptionsView { modes: default_modes(), target: None }
}

impl Default for MatchOptions {
    fn default() -> (options: Self)
        ensures
            options@ == default_options(),
    {
        MatchOptions {
            modes: Modes {
                field: Field::Name,
                sensitive: false,
                regex: false,
                diacritics: false,
                prefix: false,
                suffix: false,
                whole: false,
                start: false,
                end: false,
                wildcards: true,
                dot_all: false,
                multiline: false,
            },
            target: None,
        }
    }
}

/// Keys of textual document properties.
pub open spec fn is_text_property(key: Seq<char>) -> bool {
    ||| key == "artist"@
    ||| key == "album"@
    ||| key == "title"@
    ||| key == "kind"@
    ||| key == "author"@
    ||| key == "subject"@
    ||| key == "keywords"@
    ||| key == "creator"@
    ||| key == "producer"@
    ||| key == "genre"@
    ||| key == "copyright"@
    ||| key == "composer"@
    ||| key == "cameramake"@
    ||| key == "cameramodel"@
}

pub fn text_property(key: &str) -> (known: bool)
    ensures
        known == is_text_property(key@),
{
    same_text(key, "artist") || same_text(key, "album") || same_text(key, "title") || same_text(
        key,
        "kind",
    ) || same_text(key, "author") || same_text(key, "subject") || same_text(key, "keywords")
        || same_text(key, "creator") || same_text(key, "producer") || same_text(key, "genre")
        || same_text(key, "copyright") || same_text(key, "composer") || same_text(key, "cameramake")
        || same_text(key, "cameramodel")
}

/// Keys of numeric document properties.
pub open spec fn is_numeric_property(key: Seq<char>) -> bool {
    ||| key == "width"@
    ||| key == "height"@
    ||| key == "duration"@
    ||| key == "pages"@
    ||| key == "orientation"@
    ||| key == "iso"@
    ||| key == "focallength"@
    ||| key == "aperture"@
    ||| key == "exposuretime"@
}

pub fn numeric_property(key: &str) -> (known: bool)
    ensures
        known == is_numeric_property(key@),
{
    same_text(key, "width") || same_text(key, "height") || same_text(key, "duration") || same_text(
        key,
        "pages",
    ) || same_text(key, "orientation") || same_text(key, "iso") || same_text(key, "focallength")
        || same_text(key, "aperture") || same_text(key, "exposuretime")
}

/// Names of what is counted or summed over a directory.
pub open spec fn is_metric_name(key: Seq<char>) -> bool {
    ||| key == "foldersize"@
    ||| key == "childcount"@
    ||| key == "childfilecount"@
    ||| key == "childfoldercount"@
    ||| key == "descendantcount"@
    ||| key == "descendantfilecount"@
    ||| key == "descendantfoldercount"@
}

pub fn metric_name(key: &str) -> (known: bool)
    ensures
        known == is_metric_name(key@),
{
    same_text(key, "foldersize") || same_text(key, "childcount") || same_text(key, "childfilecount")
        || same_text(key, "childfoldercount") || same_text(key, "descendantcount") || same_text(
        key,
        "descendantfilecount",
    ) || same_text(key, "descendantfoldercount")
}

/// What a relation keyword relates a directory to: whether beyond its immediate children, and
/// whether only to files or only to folders.
pub open spec fn relation_of(key: Seq<char>) -> Option<(bool, Option<bool>)> {
    if key == "child"@ {
        Some((false, None))
    } else if key == "childfile"@ {
        Some((false, Some(false)))
    } else if key == "childfolder"@ {
        Some((false, Some(true)))
    } else if key == "descendant"@ {
        Some((true, None))
    } else if key == "descendantfile"@ {
        Some((true, Some(false)))
    } else if key == "descendantfolder"@ {
        Some((true, Some(true)))
    } else {
        None
    }
}

pub fn relation_kind(key: &str) -> (kind: Option<(bool, Option<bool>)>)
    ensures
        kind == relation_of(key@),
{
    if same_text(key, "child") {
        Some((false, None))
    } else if same_text(key, "childfile") {
        Some((false, Some(false)))
    } else if same_text(key, "childfolder") {
        Some((false, Some(true)))
    } else if same_text(key, "descendant") {
        Some((true, None))
    } else if same_text(key, "descendantfile") {
        Some((true, Some(false)))
    } else if same_text(key, "descendantfolder") {
        Some((true, Some(true)))
    } else {
        None
    }
}

/// What a modifier keyword changes.
#[derive(Clone, Copy, PartialEq, Eq, Structural)]
pub enum Change {
    Sensitive(bool),
    Field(Field),
    WholeParent,
    Regex(bool),
    Diacritics(bool),
    WholeWords(bool),
    Prefix(bool),
    Suffix(bool),
    Whole(bool),
    Start(bool),
    End(bool),
    NoWildcards,
    DotAll(bool),
    Multiline(bool),
}

/// The change that a keyword stands for.
#[verifier::opaque]
pub open spec fn change_of(key: Seq<char>) -> Option<Change> {
    if key == "case"@ {
        Some(Change::Sensitive(true))
    } else if key == "nocase"@ {
        Some(Change::Sensitive(false))
    } else if key == "path"@ {
        Some(Change::Field(Field::Path))
    } else if key == "name"@ || key == "nopath"@ {
        Some(Change::Field(Field::Name))
    } else if key == "parent"@ {
        Some(Change::WholeParent)
    } else if key == "pathpart"@ || key == "location"@ || key == "loc"@ {
        Some(Change::Field(Field::Parent))
    } else if key == "regex"@ {
        Some(Change::Regex(true))
    } else if key == "noregex"@ {
        Some(Change::Regex(false))
    } else if key == "diacritics"@ || key == "diac"@ {
        Some(Change::Diacritics(true))
    } else if key == "nodiacritics"@ || key == "nodiac"@ {
        Some(Change::Diacritics(false))
    } else if key == "wholewords"@ || key == "ww"@ {
        Some(Change::WholeWords(true))
    } else if key == "nowholewords"@ || key == "noww"@ {
        Some(Change::WholeWords(false))
    } else if key == "prefix"@ {
        Some(Change::Prefix(true))
    } else if key == "noprefix"@ {
        Some(Change::Prefix(false))
    } else if key == "suffix"@ {
        Some(Change::Suffix(true))
    } else if key == "nosuffix"@ {
        Some(Change::Suffix(false))
    } else if key == "whole"@ || key == "wholefilename"@ || key == "wfn"@ || key == "entire"@ {
        Some(Change::Whole(true))
    } else if key == "nowhole"@ || key == "nowholefilename"@ || key == "nowfn"@ || key == "noentire"@ {
        Some(Change::Whole(false))
    } else if key == "startwith"@ || key == "^"@ {
        Some(Change::Start(true))
    } else if key == "nostartwith"@ {
        Some(Change::Start(false))
    } else if key == "endwith"@ || key == "$"@ {
        Some(Change::End(true))
    } else if key == "noendwith"@ {
        Some(Change::End(false))
    } else if key == "nowildcards"@ {
        Some(Change::NoWildcards)
    } else if key == "dotall"@ {
        Some(Change::DotAll(true))
    } else if key == "nodotall"@ {
        Some(Change::DotAll(false))
    } else if key == "multiline"@ {
        Some(Change::Multiline(true))
    } else if key == "nomultiline"@ {
        Some(Change::Multiline(false))
    } else {
        None
    }
}

fn change_for(key: &str) -> (change: Option<Change>)
    ensures
        change == change_of(key@),
{
    reveal(change_of);
    if same_text(key, "case") {
        Some(Change::Sensitive(true))
    } else if same_text(key, "nocase") {
        Some(Change::Sensitive(false))
    } else if same_text(key, "path") {
        Some(Change::Field(Field::Path))
    } else if same_text(key, "name") || same_text(key, "nopath") {
        Some(Change::Field(Field::Name))
    } else if same_text(key, "parent") {
        Some(Change::WholeParent)
    } else if same_text(key, "pathpart") || same_text(key, "location") || same_text(key, "loc") {
        Some(Change::Field(Field::Parent))
    } else if same_text(key, "regex") {
        Some(Change::Regex(true))
    } else if same_text(key, "noregex") {
        Some(Change::Regex(false))
    } else if same_text(key, "diacritics") || same_text(key, "diac") {
        Some(Change::Diacritics(true))
    } else if same_text(key, "nodiacritics") || same_text(key, "nodiac") {
        Some(Change::Diacritics(false))
    } else if same_text(key, "wholewords") || same_text(key, "ww") {
        Some(Change::WholeWords(true))
    } else if same_text(key, "nowholewords") || same_text(key, "noww") {
        Some(Change::WholeWords(false))
    } else if same_text(key, "prefix") {
        Some(Change::Prefix(true))
    } else if same_text(key, "noprefix") {
        Some(Change::Prefix(false))
    } else if same_text(key, "suffix") {
        Some(Change::Suffix(true))
    } else if same_text(key, "nosuffix") {
        Some(Change::Suffix(false))
    } else if same_text(key, "whole") || same_text(key, "wholefilename") || same_text(key, "wfn") || same_text(key, "entire") {
        Some(Change::Whole(true))
    } else if same_text(key, "nowhole") || same_text(key, "nowholefilename") || same_text(key, "nowfn") || same_text(key, "noentire") {
        Some(Change::Whole(false))
    } else if same_text(key, "startwith") || same_text(key, "^") {
        Some(Change::Start(true))
    } else if same_text(key, "nostartwith") {
        Some(Change::Start(false))
    } else if same_text(key, "endwith") || same_text(key, "$") {
        Some(Change::End(true))
    } else if same_text(key, "noendwith") {
        Some(Change::End(false))
    } else if same_text(key, "nowildcards") {
        Some(Change::NoWildcards)
    } else if same_text(key, "dotall") {
        Some(Change::DotAll(true))
    } else if same_text(key, "nodotall") {
        Some(Change::DotAll(false))
    } else if same_text(key, "multiline") {
        Some(Change::Multiline(true))
    } else if same_text(key, "nomultiline") {
        Some(Change::Multiline(false))
    } else {
        None
    }
}

/// Modes with one change.
pub open spec fn changed(modes: Modes, change: Change) -> Modes {
    match change {
        Change::Sensitive(on) => Modes { sensitive: on, ..modes },
        Change::Field(field) => Modes { field, ..modes },
        Change::WholeParent => Modes { field: Field::Parent, whole: true, ..modes },
        Change::Regex(on) => Modes { regex: on, ..modes },
        Change::Diacritics(on) => Modes { diacritics: on, ..modes },
        Change::WholeWords(on) => Modes { prefix: on, suffix: on, ..modes },
        Change::Prefix(on) => Modes { prefix: on, ..modes },
        Change::Suffix(on) => Modes { suffix: on, ..modes },
        Change::Whole(on) => Modes { whole: on, ..modes },
        Change::Start(on) => Modes { start: on, ..modes },
        Change::End(on) => Modes { end: on, ..modes },
        Change::NoWildcards => Modes { wildcards: false, ..modes },
        Change::DotAll(on) => Modes { dot_all: on, ..modes },
        Change::Multiline(on) => Modes { multiline: on, ..modes },
    }
}

fn with_change(modes: Modes, change: Change) -> (result: Modes)
    ensures
        result == changed(modes, change),
{
    match change {
        Change::Sensitive(on) => Modes { sensitive: on, ..modes },
        Change::Field(field) => Modes { field, ..modes },
        Change::WholeParent => Modes { field: Field::Parent, whole: true, ..modes },
        Change::Regex(on) => Modes { regex: on, ..modes },
        Change::Diacritics(on) => Modes { diacritics: on, ..modes },
        Change::WholeWords(on) => Modes { prefix: on, suffix: on, ..modes },
        Change::Prefix(on) => Modes { prefix: on, ..modes },
        Change::Suffix(on) => Modes { suffix: on, ..modes },
        Change::Whole(on) => Modes { whole: on, ..modes },
        Change::Start(on) => Modes { start: on, ..modes },
        Change::End(on) => Modes { end: on, ..modes },
        Change::NoWildcards => Modes { wildcards: false, ..modes },
        Change::DotAll(on) => Modes { dot_all: on, ..modes },
        Change::Multiline(on) => Modes { multiline: on, ..modes },
    }
}

/// The options after one modifier keyword, where the keyword is one.
pub open spec fn modified(options: OptionsView, word: Seq<char>) -> Option<OptionsView> {
    match change_of(text::keyword_of(word)) {
        Some(change) => Some(OptionsView { modes: changed(options.modes, change), ..options }),
        None => None,
    }
}

/// Apply a modifier keyword; false, and nothing changed, where it is none.
pub fn modifier(options: &mut MatchOptions, key: &str) -> (known: bool)
    ensures
        match modified(old(options)@, key@) {
            Some(after) => known && final(options)@ == after,
            None => !known && final(options)@ == old(options)@,
        },
{
    let word = keyword(key);
    match change_for(word.as_str()) {
        None => false,
        Some(change) => {
            options.modes = with_change(options.modes, change);
            true
        },
    }
}

/// The options after a list of modifier keywords, where all of them are ones.
pub open spec fn modified_by_all(options: OptionsView, words: Seq<Seq<char>>) -> Option<OptionsView>
    decreases words.len(),
{
    if words.len() == 0 {
        Some(options)
    } else {
        match modified(options, words[0]) {
            Some(after) => modified_by_all(after, words.drop_first()),
            None => None,
        }
    }
}

/// `modifier:...:relation:` in front of a group.
pub open spec fn relation_prefix(prefix: Seq<char>, base: OptionsView) -> Option<
    (bool, Option<bool>, OptionsView),
> {
    if !text::ends_in(prefix, ':') {
        None
    } else {
        let words = text::split_on(prefix.drop_last(), ':');
        match modified_by_all(base, keyword_list(words.drop_last())) {
            None => None,
            Some(options) => match relation_of(text::keyword_of(words.last())) {
                None => None,
                Some((recursive, kind)) => Some((recursive, kind, options)),
            },
        }
    }
}

/// The keyword forms of some words.
pub open spec fn keyword_list(words: Seq<Seq<char>>) -> Seq<Seq<char>> {
    words.map_values(|word: Seq<char>| text::keyword_of(word))
}

pub fn relation_scope(prefix: &str, base: &MatchOptions) -> (scope: Option<
    (bool, Option<bool>, MatchOptions),
>)
    ensures
        match relation_prefix(prefix@, base@) {
            Some((recursive, kind, options)) => scope matches Some((a, b, c)) && a == recursive && b
                == kind && c@ == options,
            None => scope is None,
        },
{
    let head = match strip_last(prefix, ':') {
        Some(head) => head,
        None => {
            return None;
        },
    };
    let words = split_text(head.as_str(), ':');
    let ghost pieces = text::split_on(head@, ':');
    let ghost leading = keyword_list(pieces.drop_last());
    let mut options = base.clone();
    let mut next: usize = 0;
    let last: usize = words.len() - 1;
    assert(leading.skip(0) =~= leading);
    while next < last
        invariant
            next <= last,
            last == words@.len() - 1,
            text::ends_in(prefix@, ':'),
            head@ == prefix@.drop_last(),
            pieces == text::split_on(head@, ':'),
            pieces == text::texts(words@),
            leading == keyword_list(pieces.drop_last()),
            modified_by_all(base@, leading) == modified_by_all(
                options@,
                leading.skip(next as int),
            ),
        decreases last - next,
    {
        let word = keyword(words[next].as_str());
        let ghost rest = leading.skip(next as int);
        assert(rest[0] == word@);
        assert(rest.drop_first() =~= leading.skip(next + 1));
        if !modifier(&mut options, word.as_str()) {
            return None;
        }
        next = next + 1;
    }
    assert(leading.skip(next as int) =~= Seq::<Seq<char>>::empty());
    let word = keyword(words[last].as_str());
    assert(pieces.last() == words@[last as int]@);
    match relation_kind(word.as_str()) {
        Some((recursive, kind)) => Some((recursive, kind, options)),
        None => None,
    }
}

/// The options and the type restriction after one scope keyword, where the keyword is one.
pub open spec fn scope_step(
    options: OptionsView,
    is_dir: Option<bool>,
    word: Seq<char>,
) -> Option<(OptionsView, Option<bool>)> {
    match modified(options, word) {
        Some(after) => Some((after, is_dir)),
        None => {
            let key = text::keyword_of(word);
            if key == "file"@ {
                Some((options, Some(false)))
            } else if key == "folder"@ || key == "dir"@ {
                Some((options, Some(true)))
            } else if key == "content"@ {
                Some((OptionsView { target: Some(TargetView::Content), ..options }, is_dir))
            } else if key == "extension"@ {
                Some((OptionsView { target: Some(TargetView::Extension), ..options }, is_dir))
            } else if is_text_property(key) {
                Some(
                    (
                        OptionsView {
                            target: Some(TargetView::Property(text::keyword_of(key))),
                            ..options
                        },
                        is_dir,
                    ),
                )
            } else {
                None
            }
        },
    }
}

/// The options and the type restriction after a list of scope keywords.
pub open spec fn scope_steps(
    options: OptionsView,
    is_dir: Option<bool>,
    words: Seq<Seq<char>>,
) -> Option<(OptionsView, Option<bool>)>
    decreases words.len(),
{
    if words.len() == 0 {
        Some((options, is_dir))
    } else {
        match scope_step(options, is_dir, words[0]) {
            Some((after, kind)) => scope_steps(after, kind, words.drop_first()),
            None => None,
        }
    }
}

/// `scope:...:` in front of a group.
pub open spec fn scope_prefix(prefix: Seq<char>, base: OptionsView) -> Option<
    (OptionsView, Option<bool>),
> {
    if text::ends_in(prefix, ':') {
        scope_steps(base, None, text::split_on(prefix.drop_last(), ':'))
    } else {
        None
    }
}

/// Take in one scope keyword, where the word is one.
fn take_scope(options: &mut MatchOptions, is_dir: &mut Option<bool>, word: &str) -> (known: bool)
    ensures
        match scope_step(old(options)@, *old(is_dir), word@) {
            Some((after, kind)) => known && final(options)@ == after && *final(is_dir) == kind,
            None => !known,
        },
{
    if modifier(options, word) {
        return true;
    }
    let key = keyword(word);
    if same_text(key.as_str(), "file") {
        *is_dir = Some(false);
    } else if same_text(key.as_str(), "folder") || same_text(key.as_str(), "dir") {
        *is_dir = Some(true);
    } else if same_text(key.as_str(), "content") {
        options.target = Some(TextTarget::Content);
    } else if same_text(key.as_str(), "extension") {
        options.target = Some(TextTarget::Extension);
    } else if text_property(key.as_str()) {
        options.target = Some(TextTarget::Property(keyword(key.as_str())));
    } else {
        return false;
    }
    true
}

pub fn scoped_options(prefix: &str, base: &MatchOptions) -> (scope: Option<
    (MatchOptions, Option<bool>),
>)
    ensures
        match scope_prefix(prefix@, base@) {
            Some((options, is_dir)) => scope matches Some((a, b)) && a@ == options && b == is_dir,
            None => scope is None,
        },
{
    let head = match strip_last(prefix, ':') {
        Some(head) => head,
        None => {
            return None;
        },
    };
    let words = split_text(head.as_str(), ':');
    let ghost pieces = text::split_on(head@, ':');
    let mut options = base.clone();
    let mut is_dir: Option<bool> = None;
    let mut next: usize = 0;
    assert(pieces.skip(0) =~= pieces);
    while next < words.len()
        invariant
            next <= words@.len(),
            text::ends_in(prefix@, ':'),
            head@ == prefix@.drop_last(),
            pieces == text::split_on(head@, ':'),
            pieces == text::texts(words@),
            scope_steps(base@, None, pieces) == scope_steps(
                options@,
                is_dir,
                pieces.skip(next as int),
            ),
        decreases words@.len() - next,
    {
        let word = words[next].as_str();
        let ghost rest = pieces.skip(next as int);
        assert(rest[0] == word@);
        assert(rest.drop_first() =~= pieces.skip(next + 1));
        if !take_scope(&mut options, &mut is_dir, word) {
            return None;
        }
        next = next + 1;
    }
    assert(pieces.skip(next as int) =~= Seq::<Seq<char>>::empty());
    Some((options, is_dir))
}

} // verus!
