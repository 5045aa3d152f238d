//! What the words of the search language do, each said of the words as they are written and of
//! the modes, the rows and the numbers that they act on.
use crate::files::IndexedFile;
use crate::query::atoms;
use crate::query::atoms::RequestView;
use crate::query::evaluate;
use crate::query::evaluate::Mode;
use crate::query::model::QueryView;
use crate::query::options;
use crate::query::options::{Field, Modes, OptionsView, TargetView};
use crate::query::words;
use crate::text;
use vstd::prelude::*;

verus! {

/// The same options with other modes.
pub open spec fn with_modes(base: OptionsView, modes: Modes) -> Option<OptionsView> {
    Some(OptionsView { modes, target: base.target })
}

proof fn lemma_changes_a(base: OptionsView)
    ensures
        options::modified(base, "case"@) == with_modes(base, (Modes { sensitive: true, ..base.modes })),
        options::modified(base, "nocase"@) == with_modes(base, (Modes { sensitive: false, ..base.modes })),
        options::modified(base, "path"@) == with_modes(base, (Modes { field: Field::Path, ..base.modes })),
        options::modified(base, "name"@) == with_modes(base, (Modes { field: Field::Name, ..base.modes })),
        options::modified(base, "nopath"@) == with_modes(base, (Modes { field: Field::Name, ..base.modes })),
{
    words::lemma_modifier_words();
    reveal(options::change_of);
    words::lemma_keyword("case"@);
    words::lemma_keyword("nocase"@);
    words::lemma_keyword("path"@);
    words::lemma_keyword("name"@);
    words::lemma_keyword("nopath"@);
}

proof fn lemma_changes_b(base: OptionsView)
    ensures
        options::modified(base, "parent"@) == with_modes(base, (Modes { field: Field::Parent, whole: true, ..base.modes })),
        options::modified(base, "pathpart"@) == with_modes(base, (Modes { field: Field::Parent, ..base.modes })),
        options::modified(base, "location"@) == with_modes(base, (Modes { field: Field::Parent, ..base.modes })),
        options::modified(base, "loc"@) == with_modes(base, (Modes { field: Field::Parent, ..base.modes })),
        options::modified(base, "regex"@) == with_modes(base, (Modes { regex: true, ..base.modes })),
{
    words::lemma_modifier_words();
    reveal(options::change_of);
    words::lemma_keyword("parent"@);
    words::lemma_keyword("pathpart"@);
    words::lemma_keyword("location"@);
    words::lemma_keyword("loc"@);
    words::lemma_keyword("regex"@);
}

proof fn lemma_changes_c(base: OptionsView)
    ensures
        options::modified(base, "noregex"@) == with_modes(base, (Modes { regex: false, ..base.modes })),
        options::modified(base, "diacritics"@) == with_modes(base, (Modes { diacritics: true, ..base.modes })),
        options::modified(base, "diac"@) == with_modes(base, (Modes { diacritics: true, ..base.modes })),
        options::modified(base, "nodiacritics"@) == with_modes(base, (Modes { diacritics: false, ..base.modes })),
        options::modified(base, "nodiac"@) == with_modes(base, (Modes { diacritics: false, ..base.modes })),
{
    words::lemma_modifier_words();
    reveal(options::change_of);
    words::lemma_keyword("noregex"@);
    words::lemma_keyword("diacritics"@);
    words::lemma_keyword("diac"@);
    words::lemma_keyword("nodiacritics"@);
    words::lemma_keyword("nodiac"@);
}

proof fn lemma_changes_d(base: OptionsView)
    ensures
        options::modified(base, "wholewords"@) == with_modes(base, (Modes { prefix: true, suffix: true, ..base.modes })),
        options::modified(base, "ww"@) == with_modes(base, (Modes { prefix: true, suffix: true, ..base.modes })),
        options::modified(base, "nowholewords"@) == with_modes(base, (Modes { prefix: false, suffix: false, ..base.modes })),
        options::modified(base, "noww"@) == with_modes(base, (Modes { prefix: false, suffix: false, ..base.modes })),
        options::modified(base, "prefix"@) == with_modes(base, (Modes { prefix: true, ..base.modes })),
{
    words::lemma_modifier_words();
    reveal(options::change_of);
    words::lemma_keyword("wholewords"@);
    words::lemma_keyword("ww"@);
    words::lemma_keyword("nowholewords"@);
    words::lemma_keyword("noww"@);
    words::lemma_keyword("prefix"@);
}

proof fn lemma_changes_e(base: OptionsView)
    ensures
        options::modified(base, "noprefix"@) == with_modes(base, (Modes { prefix: false, ..base.modes })),
        options::modified(base, "suffix"@) == with_modes(base, (Modes { suffix: true, ..base.modes })),
        options::modified(base, "nosuffix"@) == with_modes(base, (Modes { suffix: false, ..base.modes })),
        options::modified(base, "whole"@) == with_modes(base, (Modes { whole: true, ..base.modes })),
        options::modified(base, "wholefilename"@) == with_modes(base, (Modes { whole: true, ..base.modes })),
{
    words::lemma_modifier_words();
    reveal(options::change_of);
    words::lemma_keyword("noprefix"@);
    words::lemma_keyword("suffix"@);
    words::lemma_keyword("nosuffix"@);
    words::lemma_keyword("whole"@);
    words::lemma_keyword("wholefilename"@);
}

proof fn lemma_changes_f(base: OptionsView)
    ensures
        options::modified(base, "wfn"@) == with_modes(base, (Modes { whole: true, ..base.modes })),
        options::modified(base, "entire"@) == with_modes(base, (Modes { whole: true, ..base.modes })),
        options::modified(base, "nowhole"@) == with_modes(base, (Modes { whole: false, ..base.modes })),
        options::modified(base, "nowholefilename"@) == with_modes(base, (Modes { whole: false, ..base.modes })),
        options::modified(base, "nowfn"@) == with_modes(base, (Modes { whole: false, ..base.modes })),
{
    words::lemma_modifier_words();
    reveal(options::change_of);
    words::lemma_keyword("wfn"@);
    words::lemma_keyword("entire"@);
    words::lemma_keyword("nowhole"@);
    words::lemma_keyword("nowholefilename"@);
    words::lemma_keyword("nowfn"@);
}

proof fn lemma_changes_g(base: OptionsView)
    ensures
        options::modified(base, "noentire"@) == with_modes(base, (Modes { whole: false, ..base.modes })),
        options::modified(base, "startwith"@) == with_modes(base, (Modes { start: true, ..base.modes })),
        options::modified(base, "nostartwith"@) == with_modes(base, (Modes { start: false, ..base.modes })),
        options::modified(base, "endwith"@) == with_modes(base, (Modes { end: true, ..base.modes })),
        options::modified(base, "noendwith"@) == with_modes(base, (Modes { end: false, ..base.modes })),
{
    words::lemma_modifier_words();
    reveal(options::change_of);
    words::lemma_keyword("noentire"@);
    words::lemma_keyword("startwith"@);
    words::lemma_keyword("nostartwith"@);
    words::lemma_keyword("endwith"@);
    words::lemma_keyword("noendwith"@);
}

proof fn lemma_changes_h(base: OptionsView)
    ensures
        options::modified(base, "nowildcards"@) == with_modes(base, (Modes { wildcards: false, ..base.modes })),
        options::modified(base, "dotall"@) == with_modes(base, (Modes { dot_all: true, ..base.modes })),
        options::modified(base, "nodotall"@) == with_modes(base, (Modes { dot_all: false, ..base.modes })),
        options::modified(base, "multiline"@) == with_modes(base, (Modes { multiline: true, ..base.modes })),
        options::modified(base, "nomultiline"@) == with_modes(base, (Modes { multiline: false, ..base.modes })),
{
    words::lemma_modifier_words();
    reveal(options::change_of);
    words::lemma_keyword("nowildcards"@);
    words::lemma_keyword("dotall"@);
    words::lemma_keyword("nodotall"@);
    words::lemma_keyword("multiline"@);
    words::lemma_keyword("nomultiline"@);
}

/// Each modifier turns its own mode on, its negation turns that mode off, and neither changes
/// another: `ww` is `prefix` and `suffix` together, and `parent` is the place with the whole of
/// it. The words for fields choose where to look.
pub proof fn law_modifiers_turn_their_own_mode(base: OptionsView)
    ensures
        options::modified(base, "case"@) == with_modes(base, (Modes { sensitive: true, ..base.modes })),
        options::modified(base, "nocase"@) == with_modes(base, (Modes { sensitive: false, ..base.modes })),
        options::modified(base, "path"@) == with_modes(base, (Modes { field: Field::Path, ..base.modes })),
        options::modified(base, "name"@) == with_modes(base, (Modes { field: Field::Name, ..base.modes })),
        options::modified(base, "nopath"@) == with_modes(base, (Modes { field: Field::Name, ..base.modes })),
        options::modified(base, "parent"@) == with_modes(base, (Modes { field: Field::Parent, whole: true, ..base.modes })),
        options::modified(base, "pathpart"@) == with_modes(base, (Modes { field: Field::Parent, ..base.modes })),
        options::modified(base, "location"@) == with_modes(base, (Modes { field: Field::Parent, ..base.modes })),
        options::modified(base, "loc"@) == with_modes(base, (Modes { field: Field::Parent, ..base.modes })),
        options::modified(base, "regex"@) == with_modes(base, (Modes { regex: true, ..base.modes })),
        options::modified(base, "noregex"@) == with_modes(base, (Modes { regex: false, ..base.modes })),
        options::modified(base, "diacritics"@) == with_modes(base, (Modes { diacritics: true, ..base.modes })),
        options::modified(base, "diac"@) == with_modes(base, (Modes { diacritics: true, ..base.modes })),
        options::modified(base, "nodiacritics"@) == with_modes(base, (Modes { diacritics: false, ..base.modes })),
        options::modified(base, "nodiac"@) == with_modes(base, (Modes { diacritics: false, ..base.modes })),
        options::modified(base, "wholewords"@) == with_modes(base, (Modes { prefix: true, suffix: true, ..base.modes })),
        options::modified(base, "ww"@) == with_modes(base, (Modes { prefix: true, suffix: true, ..base.modes })),
        options::modified(base, "nowholewords"@) == with_modes(base, (Modes { prefix: false, suffix: false, ..base.modes })),
        options::modified(base, "noww"@) == with_modes(base, (Modes { prefix: false, suffix: false, ..base.modes })),
        options::modified(base, "prefix"@) == with_modes(base, (Modes { prefix: true, ..base.modes })),
        options::modified(base, "noprefix"@) == with_modes(base, (Modes { prefix: false, ..base.modes })),
        options::modified(base, "suffix"@) == with_modes(base, (Modes { suffix: true, ..base.modes })),
        options::modified(base, "nosuffix"@) == with_modes(base, (Modes { suffix: false, ..base.modes })),
        options::modified(base, "whole"@) == with_modes(base, (Modes { whole: true, ..base.modes })),
        options::modified(base, "wholefilename"@) == with_modes(base, (Modes { whole: true, ..base.modes })),
        options::modified(base, "wfn"@) == with_modes(base, (Modes { whole: true, ..base.modes })),
        options::modified(base, "entire"@) == with_modes(base, (Modes { whole: true, ..base.modes })),
        options::modified(base, "nowhole"@) == with_modes(base, (Modes { whole: false, ..base.modes })),
        options::modified(base, "nowholefilename"@) == with_modes(base, (Modes { whole: false, ..base.modes })),
        options::modified(base, "nowfn"@) == with_modes(base, (Modes { whole: false, ..base.modes })),
        options::modified(base, "noentire"@) == with_modes(base, (Modes { whole: false, ..base.modes })),
        options::modified(base, "startwith"@) == with_modes(base, (Modes { start: true, ..base.modes })),
        options::modified(base, "nostartwith"@) == with_modes(base, (Modes { start: false, ..base.modes })),
        options::modified(base, "endwith"@) == with_modes(base, (Modes { end: true, ..base.modes })),
        options::modified(base, "noendwith"@) == with_modes(base, (Modes { end: false, ..base.modes })),
        options::modified(base, "nowildcards"@) == with_modes(base, (Modes { wildcards: false, ..base.modes })),
        options::modified(base, "dotall"@) == with_modes(base, (Modes { dot_all: true, ..base.modes })),
        options::modified(base, "nodotall"@) == with_modes(base, (Modes { dot_all: false, ..base.modes })),
        options::modified(base, "multiline"@) == with_modes(base, (Modes { multiline: true, ..base.modes })),
        options::modified(base, "nomultiline"@) == with_modes(base, (Modes { multiline: false, ..base.modes })),
{
    lemma_changes_a(base);
    lemma_changes_b(base);
    lemma_changes_c(base);
    lemma_changes_d(base);
    lemma_changes_e(base);
    lemma_changes_f(base);
    lemma_changes_g(base);
    lemma_changes_h(base);
}

/// A target without a change of modes.
pub open spec fn with_target(base: OptionsView, target: TargetView) -> OptionsView {
    OptionsView { modes: base.modes, target: Some(target) }
}

proof fn lemma_scopes_a(base: OptionsView, kind: Option<bool>)
    ensures
        options::scope_step(base, kind, "file"@) == Some((base, Some(false))),
        options::scope_step(base, kind, "folder"@) == Some((base, Some(true))),
        options::scope_step(base, kind, "dir"@) == Some((base, Some(true))),
        options::scope_step(base, kind, "content"@) == Some((with_target(base, TargetView::Content), kind)),
{
    words::lemma_modifier_words();
    words::lemma_function_words();
    words::lemma_property_words();
    reveal(options::change_of);
    words::lemma_keyword("file"@);
    words::lemma_keyword("folder"@);
    words::lemma_keyword("dir"@);
    words::lemma_keyword("content"@);
}

proof fn lemma_scopes_b(base: OptionsView, kind: Option<bool>)
    ensures
        options::scope_step(base, kind, "extension"@) == Some((with_target(base, TargetView::Extension), kind)),
        options::scope_step(base, kind, "artist"@) == Some((with_target(base, TargetView::Property("artist"@)), kind)),
        options::scope_step(base, kind, "album"@) == Some((with_target(base, TargetView::Property("album"@)), kind)),
        options::scope_step(base, kind, "title"@) == Some((with_target(base, TargetView::Property("title"@)), kind)),
{
    words::lemma_modifier_words();
    words::lemma_function_words();
    words::lemma_property_words();
    reveal(options::change_of);
    words::lemma_keyword("extension"@);
    words::lemma_keyword("artist"@);
    words::lemma_keyword("album"@);
    words::lemma_keyword("title"@);
}

proof fn lemma_scopes_c(base: OptionsView, kind: Option<bool>)
    ensures
        options::scope_step(base, kind, "kind"@) == Some((with_target(base, TargetView::Property("kind"@)), kind)),
        options::scope_step(base, kind, "author"@) == Some((with_target(base, TargetView::Property("author"@)), kind)),
        options::scope_step(base, kind, "subject"@) == Some((with_target(base, TargetView::Property("subject"@)), kind)),
        options::scope_step(base, kind, "keywords"@) == Some((with_target(base, TargetView::Property("keywords"@)), kind)),
{
    words::lemma_modifier_words();
    words::lemma_function_words();
    words::lemma_property_words();
    reveal(options::change_of);
    words::lemma_keyword("kind"@);
    words::lemma_keyword("author"@);
    words::lemma_keyword("subject"@);
    words::lemma_keyword("keywords"@);
}

proof fn lemma_scopes_d(base: OptionsView, kind: Option<bool>)
    ensures
        options::scope_step(base, kind, "creator"@) == Some((with_target(base, TargetView::Property("creator"@)), kind)),
        options::scope_step(base, kind, "producer"@) == Some((with_target(base, TargetView::Property("producer"@)), kind)),
        options::scope_step(base, kind, "genre"@) == Some((with_target(base, TargetView::Property("genre"@)), kind)),
        options::scope_step(base, kind, "copyright"@) == Some((with_target(base, TargetView::Property("copyright"@)), kind)),
{
    words::lemma_modifier_words();
    words::lemma_function_words();
    words::lemma_property_words();
    reveal(options::change_of);
    words::lemma_keyword("creator"@);
    words::lemma_keyword("producer"@);
    words::lemma_keyword("genre"@);
    words::lemma_keyword("copyright"@);
}

proof fn lemma_scopes_e(base: OptionsView, kind: Option<bool>)
    ensures
        options::scope_step(base, kind, "composer"@) == Some((with_target(base, TargetView::Property("composer"@)), kind)),
        options::scope_step(base, kind, "cameramake"@) == Some((with_target(base, TargetView::Property("cameramake"@)), kind)),
        options::scope_step(base, kind, "cameramodel"@) == Some((with_target(base, TargetView::Property("cameramodel"@)), kind)),
{
    words::lemma_modifier_words();
    words::lemma_function_words();
    words::lemma_property_words();
    reveal(options::change_of);
    words::lemma_keyword("composer"@);
    words::lemma_keyword("cameramake"@);
    words::lemma_keyword("cameramodel"@);
}

/// The words before a group: `file`, `folder` and `dir` restrict it to files or to folders;
/// `content`, `extension` and the names of textual properties choose what is looked at. None of
/// them changes a mode.
pub proof fn law_scopes_choose_kinds_and_targets(base: OptionsView, kind: Option<bool>)
    ensures
        options::scope_step(base, kind, "file"@) == Some((base, Some(false))),
        options::scope_step(base, kind, "folder"@) == Some((base, Some(true))),
        options::scope_step(base, kind, "dir"@) == Some((base, Some(true))),
        options::scope_step(base, kind, "content"@) == Some((with_target(base, TargetView::Content), kind)),
        options::scope_step(base, kind, "extension"@) == Some((with_target(base, TargetView::Extension), kind)),
        options::scope_step(base, kind, "artist"@) == Some((with_target(base, TargetView::Property("artist"@)), kind)),
        options::scope_step(base, kind, "album"@) == Some((with_target(base, TargetView::Property("album"@)), kind)),
        options::scope_step(base, kind, "title"@) == Some((with_target(base, TargetView::Property("title"@)), kind)),
        options::scope_step(base, kind, "kind"@) == Some((with_target(base, TargetView::Property("kind"@)), kind)),
        options::scope_step(base, kind, "author"@) == Some((with_target(base, TargetView::Property("author"@)), kind)),
        options::scope_step(base, kind, "subject"@) == Some((with_target(base, TargetView::Property("subject"@)), kind)),
        options::scope_step(base, kind, "keywords"@) == Some((with_target(base, TargetView::Property("keywords"@)), kind)),
        options::scope_step(base, kind, "creator"@) == Some((with_target(base, TargetView::Property("creator"@)), kind)),
        options::scope_step(base, kind, "producer"@) == Some((with_target(base, TargetView::Property("producer"@)), kind)),
        options::scope_step(base, kind, "genre"@) == Some((with_target(base, TargetView::Property("genre"@)), kind)),
        options::scope_step(base, kind, "copyright"@) == Some((with_target(base, TargetView::Property("copyright"@)), kind)),
        options::scope_step(base, kind, "composer"@) == Some((with_target(base, TargetView::Property("composer"@)), kind)),
        options::scope_step(base, kind, "cameramake"@) == Some((with_target(base, TargetView::Property("cameramake"@)), kind)),
        options::scope_step(base, kind, "cameramodel"@) == Some((with_target(base, TargetView::Property("cameramodel"@)), kind)),
{
    lemma_scopes_a(base, kind);
    lemma_scopes_b(base, kind);
    lemma_scopes_c(base, kind);
    lemma_scopes_d(base, kind);
    lemma_scopes_e(base, kind);
}

/// The number that a comparison is about, and how its operand is read.
pub open spec fn asks_number(
    said: (Result<QueryView, Seq<char>>, Seq<RequestView>),
    field: Seq<char>,
    input: Seq<char>,
    date: bool,
    requests: Seq<RequestView>,
) -> bool {
    said == atoms::number_query(field, input, date, requests)
}

proof fn lemma_numbers_a(value: Seq<char>, base: OptionsView, requests: Seq<RequestView>)
    ensures
        asks_number(atoms::function_result("size"@, value, base, requests), "size"@, value, false, requests),
        asks_number(atoms::function_result("dm"@, value, base, requests), "modified"@, value, true, requests),
        asks_number(atoms::function_result("datemodified"@, value, base, requests), "modified"@, value, true, requests),
        asks_number(atoms::function_result("modified"@, value, base, requests), "modified"@, value, true, requests),
        asks_number(atoms::function_result("dc"@, value, base, requests), "created"@, value, true, requests),
{
    words::lemma_function_words();
    words::lemma_property_words();
    words::lemma_metric_words();
    reveal(atoms::function_of);
}

proof fn lemma_numbers_b(value: Seq<char>, base: OptionsView, requests: Seq<RequestView>)
    ensures
        asks_number(atoms::function_result("datecreated"@, value, base, requests), "created"@, value, true, requests),
        asks_number(atoms::function_result("created"@, value, base, requests), "created"@, value, true, requests),
        asks_number(atoms::function_result("width"@, value, base, requests), "width"@, value, false, requests),
        asks_number(atoms::function_result("height"@, value, base, requests), "height"@, value, false, requests),
        asks_number(atoms::function_result("duration"@, value, base, requests), "duration"@, value, false, requests),
{
    words::lemma_function_words();
    words::lemma_property_words();
    words::lemma_metric_words();
    reveal(atoms::function_of);
}

proof fn lemma_numbers_c(value: Seq<char>, base: OptionsView, requests: Seq<RequestView>)
    ensures
        asks_number(atoms::function_result("pages"@, value, base, requests), "pages"@, value, false, requests),
        asks_number(atoms::function_result("orientation"@, value, base, requests), "orientation"@, value, false, requests),
        asks_number(atoms::function_result("iso"@, value, base, requests), "iso"@, value, false, requests),
        asks_number(atoms::function_result("focallength"@, value, base, requests), "focallength"@, value, false, requests),
        asks_number(atoms::function_result("aperture"@, value, base, requests), "aperture"@, value, false, requests),
{
    words::lemma_function_words();
    words::lemma_property_words();
    words::lemma_metric_words();
    reveal(atoms::function_of);
}

proof fn lemma_numbers_d(value: Seq<char>, base: OptionsView, requests: Seq<RequestView>)
    ensures
        asks_number(atoms::function_result("exposuretime"@, value, base, requests), "exposuretime"@, value, false, requests),
        asks_number(atoms::function_result("foldersize"@, value, base, requests), "foldersize"@, value, false, requests),
        asks_number(atoms::function_result("childcount"@, value, base, requests), "childcount"@, value, false, requests),
        asks_number(atoms::function_result("childfilecount"@, value, base, requests), "childfilecount"@, value, false, requests),
        asks_number(atoms::function_result("childfoldercount"@, value, base, requests), "childfoldercount"@, value, false, requests),
{
    words::lemma_function_words();
    words::lemma_property_words();
    words::lemma_metric_words();
    reveal(atoms::function_of);
}

proof fn lemma_numbers_e(value: Seq<char>, base: OptionsView, requests: Seq<RequestView>)
    ensures
        asks_number(atoms::function_result("descendantcount"@, value, base, requests), "descendantcount"@, value, false, requests),
        asks_number(atoms::function_result("descendantfilecount"@, value, base, requests), "descendantfilecount"@, value, false, requests),
        asks_number(atoms::function_result("descendantfoldercount"@, value, base, requests), "descendantfoldercount"@, value, false, requests),
{
    words::lemma_function_words();
    words::lemma_property_words();
    words::lemma_metric_words();
    reveal(atoms::function_of);
}

/// Which number a function compares: `size` and the names of numeric properties and of folder
/// numbers the number of that name, the words for times the time that a row was modified or
/// created, read as a date.
pub proof fn law_functions_compare_the_number_they_name(
    value: Seq<char>,
    base: OptionsView,
    requests: Seq<RequestView>,
)
    ensures
        asks_number(atoms::function_result("size"@, value, base, requests), "size"@, value, false, requests),
        asks_number(atoms::function_result("dm"@, value, base, requests), "modified"@, value, true, requests),
        asks_number(atoms::function_result("datemodified"@, value, base, requests), "modified"@, value, true, requests),
        asks_number(atoms::function_result("modified"@, value, base, requests), "modified"@, value, true, requests),
        asks_number(atoms::function_result("dc"@, value, base, requests), "created"@, value, true, requests),
        asks_number(atoms::function_result("datecreated"@, value, base, requests), "created"@, value, true, requests),
        asks_number(atoms::function_result("created"@, value, base, requests), "created"@, value, true, requests),
        asks_number(atoms::function_result("width"@, value, base, requests), "width"@, value, false, requests),
        asks_number(atoms::function_result("height"@, value, base, requests), "height"@, value, false, requests),
        asks_number(atoms::function_result("duration"@, value, base, requests), "duration"@, value, false, requests),
        asks_number(atoms::function_result("pages"@, value, base, requests), "pages"@, value, false, requests),
        asks_number(atoms::function_result("orientation"@, value, base, requests), "orientation"@, value, false, requests),
        asks_number(atoms::function_result("iso"@, value, base, requests), "iso"@, value, false, requests),
        asks_number(atoms::function_result("focallength"@, value, base, requests), "focallength"@, value, false, requests),
        asks_number(atoms::function_result("aperture"@, value, base, requests), "aperture"@, value, false, requests),
        asks_number(atoms::function_result("exposuretime"@, value, base, requests), "exposuretime"@, value, false, requests),
        asks_number(atoms::function_result("foldersize"@, value, base, requests), "foldersize"@, value, false, requests),
        asks_number(atoms::function_result("childcount"@, value, base, requests), "childcount"@, value, false, requests),
        asks_number(atoms::function_result("childfilecount"@, value, base, requests), "childfilecount"@, value, false, requests),
        asks_number(atoms::function_result("childfoldercount"@, value, base, requests), "childfoldercount"@, value, false, requests),
        asks_number(atoms::function_result("descendantcount"@, value, base, requests), "descendantcount"@, value, false, requests),
        asks_number(atoms::function_result("descendantfilecount"@, value, base, requests), "descendantfilecount"@, value, false, requests),
        asks_number(atoms::function_result("descendantfoldercount"@, value, base, requests), "descendantfoldercount"@, value, false, requests),
        asks_number(
            atoms::function_result("empty"@, Seq::empty(), base, requests),
            "childcount"@,
            "=0"@,
            false,
            requests,
        ),
{
    lemma_numbers_a(value, base, requests);
    lemma_numbers_b(value, base, requests);
    lemma_numbers_c(value, base, requests);
    lemma_numbers_d(value, base, requests);
    lemma_numbers_e(value, base, requests);
    words::lemma_function_words();
    words::lemma_property_words();
    words::lemma_metric_words();
    reveal(atoms::function_of);
}

/// What the result of a search word says of a row.
pub open spec fn finds(
    said: Result<QueryView, Seq<char>>,
    file: IndexedFile,
    content: Option<Seq<char>>,
) -> bool {
    said is Ok && evaluate::verdict(Mode::Full, said->Ok_0, file, content) is True
}

/// A row is hidden: its name begins with a dot, or the host's flag for it is set.
pub open spec fn is_hidden(file: IndexedFile) -> bool {
    (file.name@.len() > 0 && file.name@[0] == '.') || file.flags & 0x8000 != 0
}

pub proof fn lemma_hidden(file: IndexedFile)
    ensures
        (text::begins(file.name@, "."@) || file.flags & 0x8000 != 0) == is_hidden(file),
{
    reveal_strlit(".");
    let name = file.name@;
    if name.len() > 0 {
        assert(name.take(1) =~= seq![name[0]]);
        assert("."@ =~= seq!['.']);
        assert(name.take(1)[0] == name[0]);
    }
}

/// The functions for kinds of rows find what they name: files, folders, links, and what is hidden.
pub proof fn law_kinds_find_rows_of_that_kind(
    base: OptionsView,
    requests: Seq<RequestView>,
    file: IndexedFile,
    content: Option<Seq<char>>,
)
    ensures
        ({
            let of_type = |value: Seq<char>| atoms::function_result(
                "type"@,
                value,
                base,
                requests,
            ).0;
            let alone = |key: Seq<char>| atoms::function_result(
                key,
                Seq::empty(),
                base,
                requests,
            ).0;
            &&& finds(of_type("file"@), file, content) == !file.is_dir
            &&& finds(of_type("folder"@), file, content) == file.is_dir
            &&& finds(of_type("directory"@), file, content) == file.is_dir
            &&& finds(of_type("symlink"@), file, content) == file.is_symlink
            &&& finds(of_type("link"@), file, content) == file.is_symlink
            &&& finds(alone("symlink"@), file, content) == file.is_symlink
            &&& finds(alone("hidden"@), file, content) == is_hidden(file)
        }),
{
    words::lemma_function_words();
    words::lemma_kind_words();
    words::lemma_plain_letters("file"@);
    words::lemma_plain_letters("folder"@);
    words::lemma_plain_letters("directory"@);
    words::lemma_plain_letters("symlink"@);
    words::lemma_plain_letters("link"@);
    reveal(atoms::function_of);
    lemma_hidden(file);
}

} // verus!
