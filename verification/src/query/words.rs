//! The words of the search language and of requests, told apart.
//!
//! Each word has a number of its own, made of its length and some of its letters, so that proofs
//! about long lists of words compare numbers and not letters.
use crate::text;
use vstd::prelude::*;

verus! {

/// The number of a character of a text, or nothing where there is none.
pub open spec fn letter(word: Seq<char>, i: int) -> int {
    if 0 <= i < word.len() {
        word[i] as int
    } else {
        0
    }
}

/// A number by which words are told apart.
#[verifier::opaque]
pub open spec fn number_of_word(word: Seq<char>) -> int {
    let n = word.len() as int;
    n + 32 * letter(word, 0) + 4096 * letter(word, 2) + 524288 * letter(word, n - 1) + 67108864
        * letter(word, n - 3)
}

/// A word of small letters.
#[verifier::opaque]
pub open spec fn small_letters(word: Seq<char>) -> bool {
    forall|i: int| 0 <= i < word.len() ==> 'a' <= #[trigger] word[i] <= 'z'
}

proof fn lemma_without(word: Seq<char>)
    requires
        forall|i: int| 0 <= i < word.len() ==> 'a' <= #[trigger] word[i] <= 'z',
    ensures
        text::without_char(word, '-') == word,
    decreases word.len(),
{
    if word.len() > 0 {
        let init = word.drop_last();
        assert forall|i: int| 0 <= i < init.len() implies 'a' <= #[trigger] init[i] <= 'z' by {
            assert(init[i] == word[i]);
        }
        lemma_without(init);
        assert('a' <= word[word.len() - 1] <= 'z');
        assert(init.push(word.last()) =~= word);
    }
}

/// A word of small letters is its own keyword.
pub proof fn lemma_keyword(word: Seq<char>)
    requires
        small_letters(word),
    ensures
        text::keyword_of(word) == word,
{
    reveal(small_letters);
    assert(text::lower(word) =~= word);
    lemma_without(word);
}

/// A word of small letters holds neither colons nor semicolons, and no capital letters.
pub proof fn lemma_plain_letters(word: Seq<char>)
    requires
        small_letters(word),
    ensures
        text::lower(word) == word,
        forall|i: int| 0 <= i < word.len() ==> #[trigger] word[i] != ':' && word[i] != ';',
{
    reveal(small_letters);
    assert(text::lower(word) =~= word);
}

proof fn lemma_modifier_a_words()
    ensures
        number_of_word("case"@) == 6562987108,
        small_letters("case"@),
        number_of_word("nocase"@) == 6562921926,
        small_letters("nocase"@),
        number_of_word("path"@) == 6564564484,
        small_letters("path"@),
        number_of_word("name"@) == 6562962884,
        small_letters("name"@),
        number_of_word("nopath"@) == 6564548038,
        small_letters("nopath"@),
        number_of_word("parent"@) == 6839283206,
        small_letters("parent"@),
        number_of_word("pathpart"@) == 6570855944,
        small_letters("pathpart"@),
        number_of_word("location"@) == 7104511368,
        small_letters("location"@),
        number_of_word("loc"@) == 7300070787,
        small_letters("loc"@),
        number_of_word("regex"@) == 6975553093,
        small_letters("regex"@),
        number_of_word("noregex"@) == 6975598023,
        small_letters("noregex"@),
        number_of_word("diacritics"@) == 7107124362,
        small_letters("diacritics"@),
{
    reveal(number_of_word);
    reveal(small_letters);
    reveal_strlit("case");
    reveal_strlit("nocase");
    reveal_strlit("path");
    reveal_strlit("name");
    reveal_strlit("nopath");
    reveal_strlit("parent");
    reveal_strlit("pathpart");
    reveal_strlit("location");
    reveal_strlit("loc");
    reveal_strlit("regex");
    reveal_strlit("noregex");
    reveal_strlit("diacritics");
}

proof fn lemma_modifier_b_words()
    ensures
        number_of_word("diac"@) == 7098735748,
        small_letters("diac"@),
        number_of_word("nodiacritics"@) == 7107136972,
        small_letters("nodiacritics"@),
        number_of_word("nodiac"@) == 7098748358,
        small_letters("nodiac"@),
        number_of_word("wholewords"@) == 7711162090,
        small_letters("wholewords"@),
        number_of_word("ww"@) == 62394082,
        small_letters("ww"@),
        number_of_word("nowholewords"@) == 7711194572,
        small_letters("nowholewords"@),
        number_of_word("noww"@) == 7511965124,
        small_letters("noww"@),
        number_of_word("prefix"@) == 6908435974,
        small_letters("prefix"@),
        number_of_word("noprefix"@) == 6908480968,
        small_letters("noprefix"@),
        number_of_word("suffix"@) == 6908440166,
        small_letters("suffix"@),
        number_of_word("nosuffix"@) == 6908493256,
        small_letters("nosuffix"@),
        number_of_word("whole"@) == 7502495461,
        small_letters("whole"@),
{
    reveal(number_of_word);
    reveal(small_letters);
    reveal_strlit("diac");
    reveal_strlit("nodiacritics");
    reveal_strlit("nodiac");
    reveal_strlit("wholewords");
    reveal_strlit("ww");
    reveal_strlit("nowholewords");
    reveal_strlit("noww");
    reveal_strlit("prefix");
    reveal_strlit("noprefix");
    reveal_strlit("suffix");
    reveal_strlit("nosuffix");
    reveal_strlit("whole");
}

proof fn lemma_modifier_c_words()
    ensures
        number_of_word("wholefilename"@) == 6562971373,
        small_letters("wholefilename"@),
        number_of_word("wfn"@) == 8044080867,
        small_letters("wfn"@),
        number_of_word("entire"@) == 7099862182,
        small_letters("entire"@),
        number_of_word("nowhole"@) == 7502527943,
        small_letters("nowhole"@),
        number_of_word("nowholefilename"@) == 6563003855,
        small_letters("nowholefilename"@),
        number_of_word("nowfn"@) == 8044117445,
        small_letters("nowfn"@),
        number_of_word("noentire"@) == 7099801032,
        small_letters("noentire"@),
        number_of_word("startwith"@) == 7101357673,
        small_letters("startwith"@),
        number_of_word("nostartwith"@) == 7101431243,
        small_letters("nostartwith"@),
        number_of_word("endwith"@) == 7101369511,
        small_letters("endwith"@),
        number_of_word("noendwith"@) == 7101373897,
        small_letters("noendwith"@),
        number_of_word("nowildcards"@) == 7711194571,
        small_letters("nowildcards"@),
{
    reveal(number_of_word);
    reveal(small_letters);
    reveal_strlit("wholefilename");
    reveal_strlit("wfn");
    reveal_strlit("entire");
    reveal_strlit("nowhole");
    reveal_strlit("nowholefilename");
    reveal_strlit("nowfn");
    reveal_strlit("noentire");
    reveal_strlit("startwith");
    reveal_strlit("nostartwith");
    reveal_strlit("endwith");
    reveal_strlit("noendwith");
    reveal_strlit("nowildcards");
}

proof fn lemma_modifier_d_words()
    ensures
        number_of_word("dotall"@) == 6566661254,
        small_letters("dotall"@),
        number_of_word("nodotall"@) == 6566596040,
        small_letters("nodotall"@),
        number_of_word("multiline"@) == 7099829673,
        small_letters("multiline"@),
        number_of_word("nomultiline"@) == 7099833803,
        small_letters("nomultiline"@),
        number_of_word("^"@) == 49286081,
        number_of_word("$"@) == 18875521,
{
    reveal(number_of_word);
    reveal(small_letters);
    reveal_strlit("dotall");
    reveal_strlit("nodotall");
    reveal_strlit("multiline");
    reveal_strlit("nomultiline");
    reveal_strlit("^");
    reveal_strlit("$");
}

proof fn lemma_function_a_words()
    ensures
        number_of_word("ext"@) == 6839291043,
        small_letters("ext"@),
        number_of_word("extension"@) == 7104580777,
        small_letters("extension"@),
        number_of_word("type"@) == 8173588100,
        small_letters("type"@),
        number_of_word("hidden"@) == 6768971014,
        small_letters("hidden"@),
        number_of_word("symlink"@) == 7102979687,
        small_letters("symlink"@),
        number_of_word("empty"@) == 7580093605,
        small_letters("empty"@),
        number_of_word("size"@) == 7099887204,
        small_letters("size"@),
        number_of_word("dm"@) == 57150594,
        small_letters("dm"@),
        number_of_word("datemodified"@) == 7099337868,
        small_letters("datemodified"@),
        number_of_word("modified"@) == 7099272616,
        small_letters("modified"@),
        number_of_word("dc"@) == 51907714,
        small_letters("dc"@),
        number_of_word("datecreated"@) == 7837535371,
        small_letters("datecreated"@),
{
    reveal(number_of_word);
    reveal(small_letters);
    reveal_strlit("ext");
    reveal_strlit("extension");
    reveal_strlit("type");
    reveal_strlit("hidden");
    reveal_strlit("symlink");
    reveal_strlit("empty");
    reveal_strlit("size");
    reveal_strlit("dm");
    reveal_strlit("datemodified");
    reveal_strlit("modified");
    reveal_strlit("dc");
    reveal_strlit("datecreated");
}

proof fn lemma_function_b_words()
    ensures
        number_of_word("created"@) == 7837473895,
        small_letters("created"@),
        number_of_word("attrib"@) == 7702268966,
        small_letters("attrib"@),
        number_of_word("attributes"@) == 7845399594,
        small_letters("attributes"@),
        number_of_word("flags"@) == 6570253509,
        small_letters("flags"@),
        number_of_word("content"@) == 6839266407,
        small_letters("content"@),
        number_of_word("file"@) == 7099829444,
        small_letters("file"@),
        number_of_word("folder"@) == 6771100870,
        small_letters("folder"@),
        number_of_word("dir"@) == 6771125379,
        small_letters("dir"@),
{
    reveal(number_of_word);
    reveal(small_letters);
    reveal_strlit("created");
    reveal_strlit("attrib");
    reveal_strlit("attributes");
    reveal_strlit("flags");
    reveal_strlit("content");
    reveal_strlit("file");
    reveal_strlit("folder");
    reveal_strlit("dir");
}

proof fn lemma_property_a_words()
    ensures
        number_of_word("artist"@) == 7107726374,
        small_letters("artist"@),
        number_of_word("album"@) == 6634220581,
        small_letters("album"@),
        number_of_word("title"@) == 7838060165,
        small_letters("title"@),
        number_of_word("kind"@) == 7099313508,
        small_letters("kind"@),
        number_of_word("author"@) == 7039568934,
        small_letters("author"@),
        number_of_word("subject"@) == 6839217767,
        small_letters("subject"@),
        number_of_word("keywords"@) == 7711202664,
        small_letters("keywords"@),
        number_of_word("creator"@) == 7844813927,
        small_letters("creator"@),
        number_of_word("producer"@) == 6704004616,
        small_letters("producer"@),
        number_of_word("genre"@) == 7435381989,
        small_letters("genre"@),
        number_of_word("copyright"@) == 6973492329,
        small_letters("copyright"@),
        number_of_word("composer"@) == 7777737832,
        small_letters("composer"@),
{
    reveal(number_of_word);
    reveal(small_letters);
    reveal_strlit("artist");
    reveal_strlit("album");
    reveal_strlit("title");
    reveal_strlit("kind");
    reveal_strlit("author");
    reveal_strlit("subject");
    reveal_strlit("keywords");
    reveal_strlit("creator");
    reveal_strlit("producer");
    reveal_strlit("genre");
    reveal_strlit("copyright");
    reveal_strlit("composer");
}

proof fn lemma_property_b_words()
    ensures
        number_of_word("cameramake"@) == 6562962538,
        small_letters("cameramake"@),
        number_of_word("cameramodel"@) == 6767959147,
        small_letters("cameramodel"@),
        number_of_word("width"@) == 6765825765,
        small_letters("width"@),
        number_of_word("height"@) == 6973463814,
        small_letters("height"@),
        number_of_word("duration"@) == 7104572552,
        small_letters("duration"@),
        number_of_word("pages"@) == 6972931589,
        small_letters("pages"@),
        number_of_word("orientation"@) == 7104536043,
        small_letters("orientation"@),
        number_of_word("iso"@) == 7105084707,
        small_letters("iso"@),
        number_of_word("focallength"@) == 6967147723,
        small_letters("focallength"@),
        number_of_word("aperture"@) == 7905106984,
        small_letters("aperture"@),
        number_of_word("exposuretime"@) == 7099845804,
        small_letters("exposuretime"@),
{
    reveal(number_of_word);
    reveal(small_letters);
    reveal_strlit("cameramake");
    reveal_strlit("cameramodel");
    reveal_strlit("width");
    reveal_strlit("height");
    reveal_strlit("duration");
    reveal_strlit("pages");
    reveal_strlit("orientation");
    reveal_strlit("iso");
    reveal_strlit("focallength");
    reveal_strlit("aperture");
    reveal_strlit("exposuretime");
}

proof fn lemma_metric_a_words()
    ensures
        number_of_word("foldersize"@) == 7099829450,
        small_letters("foldersize"@),
        number_of_word("childcount"@) == 7912987754,
        small_letters("childcount"@),
        number_of_word("childfilecount"@) == 7912987758,
        small_letters("childfilecount"@),
        number_of_word("childfoldercount"@) == 7912987760,
        small_letters("childfoldercount"@),
        number_of_word("descendantcount"@) == 7913028751,
        small_letters("descendantcount"@),
        number_of_word("descendantfilecount"@) == 7913028755,
        small_letters("descendantfilecount"@),
        number_of_word("descendantfoldercount"@) == 7913028757,
        small_letters("descendantfoldercount"@),
        number_of_word("child"@) == 7099292773,
        small_letters("child"@),
        number_of_word("childfile"@) == 7099817065,
        small_letters("childfile"@),
        number_of_word("childfolder"@) == 6771088491,
        small_letters("childfolder"@),
        number_of_word("descendant"@) == 6570851466,
        small_letters("descendant"@),
        number_of_word("descendantfile"@) == 7099858062,
        small_letters("descendantfile"@),
{
    reveal(number_of_word);
    reveal(small_letters);
    reveal_strlit("foldersize");
    reveal_strlit("childcount");
    reveal_strlit("childfilecount");
    reveal_strlit("childfoldercount");
    reveal_strlit("descendantcount");
    reveal_strlit("descendantfilecount");
    reveal_strlit("descendantfoldercount");
    reveal_strlit("child");
    reveal_strlit("childfile");
    reveal_strlit("childfolder");
    reveal_strlit("descendant");
    reveal_strlit("descendantfile");
}

proof fn lemma_metric_b_words()
    ensures
        number_of_word("descendantfolder"@) == 6771129488,
        small_letters("descendantfolder"@),
{
    reveal(number_of_word);
    reveal(small_letters);
    reveal_strlit("descendantfolder");
}

/// The numbers of these words.
pub proof fn lemma_flag_words()
    ensures
        number_of_word("immutable"@) == 6630071593,
        small_letters("immutable"@),
        number_of_word("append"@) == 6830885926,
        small_letters("append"@),
        number_of_word("nodump"@) == 7910870470,
        small_letters("nodump"@),
        number_of_word("compressed"@) == 7770397802,
        small_letters("compressed"@),
        number_of_word("dataless"@) == 6838766728,
        small_letters("dataless"@),
        number_of_word("placeholder"@) == 6771056139,
        small_letters("placeholder"@),
{
    reveal(number_of_word);
    reveal(small_letters);
    reveal_strlit("immutable");
    reveal_strlit("append");
    reveal_strlit("nodump");
    reveal_strlit("compressed");
    reveal_strlit("dataless");
    reveal_strlit("placeholder");
}

proof fn lemma_unit_a_words()
    ensures
        number_of_word("b"@) == 51383361,
        small_letters("b"@),
        number_of_word("k"@) == 56102241,
        small_letters("k"@),
        number_of_word("kb"@) == 51383650,
        small_letters("kb"@),
        number_of_word("kib"@) == 7232433507,
        small_letters("kib"@),
        number_of_word("m"@) == 57150881,
        small_letters("m"@),
        number_of_word("mb"@) == 51383714,
        small_letters("mb"@),
        number_of_word("mib"@) == 7366651299,
        small_letters("mib"@),
        number_of_word("g"@) == 54004961,
        small_letters("g"@),
        number_of_word("gb"@) == 51383522,
        small_letters("gb"@),
        number_of_word("gib"@) == 6963997923,
        small_letters("gib"@),
        number_of_word("t"@) == 60821121,
        small_letters("t"@),
        number_of_word("tb"@) == 51383938,
        small_letters("tb"@),
{
    reveal(number_of_word);
    reveal(small_letters);
    reveal_strlit("b");
    reveal_strlit("k");
    reveal_strlit("kb");
    reveal_strlit("kib");
    reveal_strlit("m");
    reveal_strlit("mb");
    reveal_strlit("mib");
    reveal_strlit("g");
    reveal_strlit("gb");
    reveal_strlit("gib");
    reveal_strlit("t");
    reveal_strlit("tb");
}

proof fn lemma_unit_b_words()
    ensures
        number_of_word("tib"@) == 7836413571,
        small_letters("tib"@),
        number_of_word("s"@) == 60296801,
        small_letters("s"@),
        number_of_word("sec"@) == 7769833059,
        small_letters("sec"@),
        number_of_word("secs"@) == 6838697572,
        small_letters("secs"@),
        number_of_word("second"@) == 7501921894,
        small_letters("second"@),
        number_of_word("seconds"@) == 7442677351,
        small_letters("seconds"@),
        number_of_word("min"@) == 7372991907,
        small_letters("min"@),
        number_of_word("mins"@) == 7107177892,
        small_letters("mins"@),
        number_of_word("minute"@) == 7905144230,
        small_letters("minute"@),
        number_of_word("minutes"@) == 7845375399,
        small_letters("minutes"@),
        number_of_word("h"@) == 54529281,
        small_letters("h"@),
        number_of_word("hour"@) == 7509335300,
        small_letters("hour"@),
{
    reveal(number_of_word);
    reveal(small_letters);
    reveal_strlit("tib");
    reveal_strlit("s");
    reveal_strlit("sec");
    reveal_strlit("secs");
    reveal_strlit("second");
    reveal_strlit("seconds");
    reveal_strlit("min");
    reveal_strlit("mins");
    reveal_strlit("minute");
    reveal_strlit("minutes");
    reveal_strlit("h");
    reveal_strlit("hour");
}

proof fn lemma_unit_c_words()
    ensures
        number_of_word("hours"@) == 7912512773,
        small_letters("hours"@),
        number_of_word("d"@) == 52432001,
        small_letters("d"@),
        number_of_word("day"@) == 6774824067,
        small_letters("day"@),
        number_of_word("days"@) == 6570351748,
        small_letters("days"@),
        number_of_word("w"@) == 62394081,
        small_letters("w"@),
        number_of_word("week"@) == 6834511588,
        small_letters("week"@),
        number_of_word("weeks"@) == 6838705893,
        small_letters("weeks"@),
        number_of_word("month"@) == 7436955045,
        small_letters("month"@),
        number_of_word("months"@) == 7845375398,
        small_letters("months"@),
        number_of_word("year"@) == 6838165284,
        small_letters("year"@),
        number_of_word("years"@) == 6570254117,
        small_letters("years"@),
{
    reveal(number_of_word);
    reveal(small_letters);
    reveal_strlit("hours");
    reveal_strlit("d");
    reveal_strlit("day");
    reveal_strlit("days");
    reveal_strlit("w");
    reveal_strlit("week");
    reveal_strlit("weeks");
    reveal_strlit("month");
    reveal_strlit("months");
    reveal_strlit("year");
    reveal_strlit("years");
}

/// The numbers of these words.
pub proof fn lemma_kind_words()
    ensures
        number_of_word("directory"@) == 7512992905,
        small_letters("directory"@),
        number_of_word("link"@) == 7102983556,
        small_letters("link"@),
{
    reveal(number_of_word);
    reveal(small_letters);
    reveal_strlit("directory");
    reveal_strlit("link");
}

proof fn lemma_operation_a_words()
    ensures
        number_of_word("status"@) == 7845322342,
        small_letters("status"@),
        number_of_word("wait_status"@) == 7845355243,
        number_of_word("query"@) == 6841851429,
        small_letters("query"@),
        number_of_word("directory_info"@) == 7440641166,
        number_of_word("retain_snapshot"@) == 7040618063,
        number_of_word("release_snapshot"@) == 7040585296,
        number_of_word("renew_snapshot"@) == 7040593486,
        number_of_word("query_plan"@) == 7305846314,
        number_of_word("volumes"@) == 7375605447,
        small_letters("volumes"@),
        number_of_word("volumes_changed"@) == 6965087951,
        number_of_word("content_candidates"@) == 7845375090,
        number_of_word("publish_content"@) == 6839217679,
{
    reveal(number_of_word);
    reveal(small_letters);
    reveal_strlit("status");
    reveal_strlit("wait_status");
    reveal_strlit("query");
    reveal_strlit("directory_info");
    reveal_strlit("retain_snapshot");
    reveal_strlit("release_snapshot");
    reveal_strlit("renew_snapshot");
    reveal_strlit("query_plan");
    reveal_strlit("volumes");
    reveal_strlit("volumes_changed");
    reveal_strlit("content_candidates");
    reveal_strlit("publish_content");
}

proof fn lemma_operation_b_words()
    ensures
        number_of_word("scan"@) == 6701850212,
        small_letters("scan"@),
        number_of_word("watch"@) == 7839633125,
        small_letters("watch"@),
        number_of_word("quiesce"@) == 7770906151,
        small_letters("quiesce"@),
        number_of_word("stop"@) == 7843806820,
        small_letters("stop"@),
        number_of_word("cancel"@) == 6700854374,
        small_letters("cancel"@),
        number_of_word("put_content"@) == 6839291403,
        number_of_word("preferences"@) == 6704487947,
        small_letters("preferences"@),
        number_of_word("duplicates"@) == 7845383306,
        small_letters("duplicates"@),
        number_of_word("import_file_list"@) == 7107710256,
        number_of_word("export"@) == 7510363302,
        small_letters("export"@),
{
    reveal(number_of_word);
    reveal(small_letters);
    reveal_strlit("scan");
    reveal_strlit("watch");
    reveal_strlit("quiesce");
    reveal_strlit("stop");
    reveal_strlit("cancel");
    reveal_strlit("put_content");
    reveal_strlit("preferences");
    reveal_strlit("duplicates");
    reveal_strlit("import_file_list");
    reveal_strlit("export");
}

/// The numbers of these words.
pub proof fn lemma_preference_words()
    ensures
        number_of_word("macros"@) == 7711112614,
        small_letters("macros"@),
        number_of_word("bookmarks"@) == 7711161417,
        small_letters("bookmarks"@),
        number_of_word("exclusions"@) == 7509785770,
        small_letters("exclusions"@),
        number_of_word("history"@) == 7512997127,
        small_letters("history"@),
        number_of_word("settings"@) == 7442746984,
        small_letters("settings"@),
{
    reveal(number_of_word);
    reveal(small_letters);
    reveal_strlit("macros");
    reveal_strlit("bookmarks");
    reveal_strlit("exclusions");
    reveal_strlit("history");
    reveal_strlit("settings");
}

/// The numbers of these words.
pub proof fn lemma_modifier_words()
    ensures
        number_of_word("case"@) == 6562987108,
        small_letters("case"@),
        number_of_word("nocase"@) == 6562921926,
        small_letters("nocase"@),
        number_of_word("path"@) == 6564564484,
        small_letters("path"@),
        number_of_word("name"@) == 6562962884,
        small_letters("name"@),
        number_of_word("nopath"@) == 6564548038,
        small_letters("nopath"@),
        number_of_word("parent"@) == 6839283206,
        small_letters("parent"@),
        number_of_word("pathpart"@) == 6570855944,
        small_letters("pathpart"@),
        number_of_word("location"@) == 7104511368,
        small_letters("location"@),
        number_of_word("loc"@) == 7300070787,
        small_letters("loc"@),
        number_of_word("regex"@) == 6975553093,
        small_letters("regex"@),
        number_of_word("noregex"@) == 6975598023,
        small_letters("noregex"@),
        number_of_word("diacritics"@) == 7107124362,
        small_letters("diacritics"@),
        number_of_word("diac"@) == 7098735748,
        small_letters("diac"@),
        number_of_word("nodiacritics"@) == 7107136972,
        small_letters("nodiacritics"@),
        number_of_word("nodiac"@) == 7098748358,
        small_letters("nodiac"@),
        number_of_word("wholewords"@) == 7711162090,
        small_letters("wholewords"@),
        number_of_word("ww"@) == 62394082,
        small_letters("ww"@),
        number_of_word("nowholewords"@) == 7711194572,
        small_letters("nowholewords"@),
        number_of_word("noww"@) == 7511965124,
        small_letters("noww"@),
        number_of_word("prefix"@) == 6908435974,
        small_letters("prefix"@),
        number_of_word("noprefix"@) == 6908480968,
        small_letters("noprefix"@),
        number_of_word("suffix"@) == 6908440166,
        small_letters("suffix"@),
        number_of_word("nosuffix"@) == 6908493256,
        small_letters("nosuffix"@),
        number_of_word("whole"@) == 7502495461,
        small_letters("whole"@),
        number_of_word("wholefilename"@) == 6562971373,
        small_letters("wholefilename"@),
        number_of_word("wfn"@) == 8044080867,
        small_letters("wfn"@),
        number_of_word("entire"@) == 7099862182,
        small_letters("entire"@),
        number_of_word("nowhole"@) == 7502527943,
        small_letters("nowhole"@),
        number_of_word("nowholefilename"@) == 6563003855,
        small_letters("nowholefilename"@),
        number_of_word("nowfn"@) == 8044117445,
        small_letters("nowfn"@),
        number_of_word("noentire"@) == 7099801032,
        small_letters("noentire"@),
        number_of_word("startwith"@) == 7101357673,
        small_letters("startwith"@),
        number_of_word("nostartwith"@) == 7101431243,
        small_letters("nostartwith"@),
        number_of_word("endwith"@) == 7101369511,
        small_letters("endwith"@),
        number_of_word("noendwith"@) == 7101373897,
        small_letters("noendwith"@),
        number_of_word("nowildcards"@) == 7711194571,
        small_letters("nowildcards"@),
        number_of_word("dotall"@) == 6566661254,
        small_letters("dotall"@),
        number_of_word("nodotall"@) == 6566596040,
        small_letters("nodotall"@),
        number_of_word("multiline"@) == 7099829673,
        small_letters("multiline"@),
        number_of_word("nomultiline"@) == 7099833803,
        small_letters("nomultiline"@),
        number_of_word("^"@) == 49286081,
        number_of_word("$"@) == 18875521,
{
    lemma_modifier_a_words();
    lemma_modifier_b_words();
    lemma_modifier_c_words();
    lemma_modifier_d_words();
}

/// The numbers of these words.
pub proof fn lemma_function_words()
    ensures
        number_of_word("ext"@) == 6839291043,
        small_letters("ext"@),
        number_of_word("extension"@) == 7104580777,
        small_letters("extension"@),
        number_of_word("type"@) == 8173588100,
        small_letters("type"@),
        number_of_word("hidden"@) == 6768971014,
        small_letters("hidden"@),
        number_of_word("symlink"@) == 7102979687,
        small_letters("symlink"@),
        number_of_word("empty"@) == 7580093605,
        small_letters("empty"@),
        number_of_word("size"@) == 7099887204,
        small_letters("size"@),
        number_of_word("dm"@) == 57150594,
        small_letters("dm"@),
        number_of_word("datemodified"@) == 7099337868,
        small_letters("datemodified"@),
        number_of_word("modified"@) == 7099272616,
        small_letters("modified"@),
        number_of_word("dc"@) == 51907714,
        small_letters("dc"@),
        number_of_word("datecreated"@) == 7837535371,
        small_letters("datecreated"@),
        number_of_word("created"@) == 7837473895,
        small_letters("created"@),
        number_of_word("attrib"@) == 7702268966,
        small_letters("attrib"@),
        number_of_word("attributes"@) == 7845399594,
        small_letters("attributes"@),
        number_of_word("flags"@) == 6570253509,
        small_letters("flags"@),
        number_of_word("content"@) == 6839266407,
        small_letters("content"@),
        number_of_word("file"@) == 7099829444,
        small_letters("file"@),
        number_of_word("folder"@) == 6771100870,
        small_letters("folder"@),
        number_of_word("dir"@) == 6771125379,
        small_letters("dir"@),
{
    lemma_function_a_words();
    lemma_function_b_words();
}

/// The numbers of these words.
pub proof fn lemma_property_words()
    ensures
        number_of_word("artist"@) == 7107726374,
        small_letters("artist"@),
        number_of_word("album"@) == 6634220581,
        small_letters("album"@),
        number_of_word("title"@) == 7838060165,
        small_letters("title"@),
        number_of_word("kind"@) == 7099313508,
        small_letters("kind"@),
        number_of_word("author"@) == 7039568934,
        small_letters("author"@),
        number_of_word("subject"@) == 6839217767,
        small_letters("subject"@),
        number_of_word("keywords"@) == 7711202664,
        small_letters("keywords"@),
        number_of_word("creator"@) == 7844813927,
        small_letters("creator"@),
        number_of_word("producer"@) == 6704004616,
        small_letters("producer"@),
        number_of_word("genre"@) == 7435381989,
        small_letters("genre"@),
        number_of_word("copyright"@) == 6973492329,
        small_letters("copyright"@),
        number_of_word("composer"@) == 7777737832,
        small_letters("composer"@),
        number_of_word("cameramake"@) == 6562962538,
        small_letters("cameramake"@),
        number_of_word("cameramodel"@) == 6767959147,
        small_letters("cameramodel"@),
        number_of_word("width"@) == 6765825765,
        small_letters("width"@),
        number_of_word("height"@) == 6973463814,
        small_letters("height"@),
        number_of_word("duration"@) == 7104572552,
        small_letters("duration"@),
        number_of_word("pages"@) == 6972931589,
        small_letters("pages"@),
        number_of_word("orientation"@) == 7104536043,
        small_letters("orientation"@),
        number_of_word("iso"@) == 7105084707,
        small_letters("iso"@),
        number_of_word("focallength"@) == 6967147723,
        small_letters("focallength"@),
        number_of_word("aperture"@) == 7905106984,
        small_letters("aperture"@),
        number_of_word("exposuretime"@) == 7099845804,
        small_letters("exposuretime"@),
{
    lemma_property_a_words();
    lemma_property_b_words();
}

/// The numbers of these words.
pub proof fn lemma_metric_words()
    ensures
        number_of_word("foldersize"@) == 7099829450,
        small_letters("foldersize"@),
        number_of_word("childcount"@) == 7912987754,
        small_letters("childcount"@),
        number_of_word("childfilecount"@) == 7912987758,
        small_letters("childfilecount"@),
        number_of_word("childfoldercount"@) == 7912987760,
        small_letters("childfoldercount"@),
        number_of_word("descendantcount"@) == 7913028751,
        small_letters("descendantcount"@),
        number_of_word("descendantfilecount"@) == 7913028755,
        small_letters("descendantfilecount"@),
        number_of_word("descendantfoldercount"@) == 7913028757,
        small_letters("descendantfoldercount"@),
        number_of_word("child"@) == 7099292773,
        small_letters("child"@),
        number_of_word("childfile"@) == 7099817065,
        small_letters("childfile"@),
        number_of_word("childfolder"@) == 6771088491,
        small_letters("childfolder"@),
        number_of_word("descendant"@) == 6570851466,
        small_letters("descendant"@),
        number_of_word("descendantfile"@) == 7099858062,
        small_letters("descendantfile"@),
        number_of_word("descendantfolder"@) == 6771129488,
        small_letters("descendantfolder"@),
{
    lemma_metric_a_words();
    lemma_metric_b_words();
}

/// The numbers of these words.
pub proof fn lemma_unit_words()
    ensures
        number_of_word("b"@) == 51383361,
        small_letters("b"@),
        number_of_word("k"@) == 56102241,
        small_letters("k"@),
        number_of_word("kb"@) == 51383650,
        small_letters("kb"@),
        number_of_word("kib"@) == 7232433507,
        small_letters("kib"@),
        number_of_word("m"@) == 57150881,
        small_letters("m"@),
        number_of_word("mb"@) == 51383714,
        small_letters("mb"@),
        number_of_word("mib"@) == 7366651299,
        small_letters("mib"@),
        number_of_word("g"@) == 54004961,
        small_letters("g"@),
        number_of_word("gb"@) == 51383522,
        small_letters("gb"@),
        number_of_word("gib"@) == 6963997923,
        small_letters("gib"@),
        number_of_word("t"@) == 60821121,
        small_letters("t"@),
        number_of_word("tb"@) == 51383938,
        small_letters("tb"@),
        number_of_word("tib"@) == 7836413571,
        small_letters("tib"@),
        number_of_word("s"@) == 60296801,
        small_letters("s"@),
        number_of_word("sec"@) == 7769833059,
        small_letters("sec"@),
        number_of_word("secs"@) == 6838697572,
        small_letters("secs"@),
        number_of_word("second"@) == 7501921894,
        small_letters("second"@),
        number_of_word("seconds"@) == 7442677351,
        small_letters("seconds"@),
        number_of_word("min"@) == 7372991907,
        small_letters("min"@),
        number_of_word("mins"@) == 7107177892,
        small_letters("mins"@),
        number_of_word("minute"@) == 7905144230,
        small_letters("minute"@),
        number_of_word("minutes"@) == 7845375399,
        small_letters("minutes"@),
        number_of_word("h"@) == 54529281,
        small_letters("h"@),
        number_of_word("hour"@) == 7509335300,
        small_letters("hour"@),
        number_of_word("hours"@) == 7912512773,
        small_letters("hours"@),
        number_of_word("d"@) == 52432001,
        small_letters("d"@),
        number_of_word("day"@) == 6774824067,
        small_letters("day"@),
        number_of_word("days"@) == 6570351748,
        small_letters("days"@),
        number_of_word("w"@) == 62394081,
        small_letters("w"@),
        number_of_word("week"@) == 6834511588,
        small_letters("week"@),
        number_of_word("weeks"@) == 6838705893,
        small_letters("weeks"@),
        number_of_word("month"@) == 7436955045,
        small_letters("month"@),
        number_of_word("months"@) == 7845375398,
        small_letters("months"@),
        number_of_word("year"@) == 6838165284,
        small_letters("year"@),
        number_of_word("years"@) == 6570254117,
        small_letters("years"@),
{
    lemma_unit_a_words();
    lemma_unit_b_words();
    lemma_unit_c_words();
}

/// The numbers of these words.
pub proof fn lemma_operation_words()
    ensures
        number_of_word("status"@) == 7845322342,
        small_letters("status"@),
        number_of_word("wait_status"@) == 7845355243,
        number_of_word("query"@) == 6841851429,
        small_letters("query"@),
        number_of_word("directory_info"@) == 7440641166,
        number_of_word("retain_snapshot"@) == 7040618063,
        number_of_word("release_snapshot"@) == 7040585296,
        number_of_word("renew_snapshot"@) == 7040593486,
        number_of_word("query_plan"@) == 7305846314,
        number_of_word("volumes"@) == 7375605447,
        small_letters("volumes"@),
        number_of_word("volumes_changed"@) == 6965087951,
        number_of_word("content_candidates"@) == 7845375090,
        number_of_word("publish_content"@) == 6839217679,
        number_of_word("scan"@) == 6701850212,
        small_letters("scan"@),
        number_of_word("watch"@) == 7839633125,
        small_letters("watch"@),
        number_of_word("quiesce"@) == 7770906151,
        small_letters("quiesce"@),
        number_of_word("stop"@) == 7843806820,
        small_letters("stop"@),
        number_of_word("cancel"@) == 6700854374,
        small_letters("cancel"@),
        number_of_word("put_content"@) == 6839291403,
        number_of_word("preferences"@) == 6704487947,
        small_letters("preferences"@),
        number_of_word("duplicates"@) == 7845383306,
        small_letters("duplicates"@),
        number_of_word("import_file_list"@) == 7107710256,
        number_of_word("export"@) == 7510363302,
        small_letters("export"@),
{
    lemma_operation_a_words();
    lemma_operation_b_words();
}

} // verus!
