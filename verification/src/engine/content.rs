//! File contents: whether to read them, and whether what was read can be believed.
use crate::files::IndexedFile;
use crate::scanner::entry::{ScannedFile, DATALESS};
use crate::text;
use crate::text::{any_text, decoded, same_text};
use vstd::prelude::*;

verus! {

/// The most that is read of a file.
pub const CONTENT_LIMIT: u64 = 16_777_216;

/// Which object a path names, and which version of it.
#[derive(Clone, Copy, Debug, PartialEq, Eq, Structural)]
pub struct FileIdentity {
    pub file_id: u64,
    pub device_id: u64,
    pub size: u64,
    pub modified_ns: i64,
    pub changed_ns: i64,
}

/// Extensions of files that hold plain text.
pub open spec fn text_extensions() -> Seq<Seq<char>> {
    seq![
        "txt"@,
        "md"@,
        "rs"@,
        "swift"@,
        "c"@,
        "h"@,
        "cpp"@,
        "hpp"@,
        "py"@,
        "js"@,
        "ts"@,
        "tsx"@,
        "jsx"@,
        "json"@,
        "toml"@,
        "yaml"@,
        "yml"@,
        "xml"@,
        "html"@,
        "css"@,
        "csv"@,
        "log"@,
        "sh"@,
        "sql"@,
        "ini"@,
        "cfg"@,
        "plist"@,
        "tex"@,
    ]
}

fn is_text_extension(extension: &str) -> (yes: bool)
    ensures
        yes == text_extensions().contains(extension@),
{
    let mut list: Vec<String> = Vec::new();
    list.push("txt".to_owned());
    list.push("md".to_owned());
    list.push("rs".to_owned());
    list.push("swift".to_owned());
    list.push("c".to_owned());
    list.push("h".to_owned());
    list.push("cpp".to_owned());
    list.push("hpp".to_owned());
    list.push("py".to_owned());
    list.push("js".to_owned());
    list.push("ts".to_owned());
    list.push("tsx".to_owned());
    list.push("jsx".to_owned());
    list.push("json".to_owned());
    list.push("toml".to_owned());
    list.push("yaml".to_owned());
    list.push("yml".to_owned());
    list.push("xml".to_owned());
    list.push("html".to_owned());
    list.push("css".to_owned());
    list.push("csv".to_owned());
    list.push("log".to_owned());
    list.push("sh".to_owned());
    list.push("sql".to_owned());
    list.push("ini".to_owned());
    list.push("cfg".to_owned());
    list.push("plist".to_owned());
    list.push("tex".to_owned());
    let found = any_text(&list, extension);
    proof {
        let all = text_extensions();
        assert(text::texts(list@) =~= all);
        if found {
            let i = choose|i: int| 0 <= i < list@.len() && (#[trigger] list@[i])@ == extension@;
            assert(text::texts(list@)[i] == extension@);
        } else if all.contains(extension@) {
            let i = choose|i: int| 0 <= i < all.len() && all[i] == extension@;
            assert(list@[i]@ == all[i]);
        }
    }
    found
}

/// Whether the contents of a row are read.
#[derive(Clone, Copy, Debug)]
pub enum Reading {
    /// It has none.
    Nothing,
    /// They are left out, with a warning.
    Skip(&'static str),
    Read,
}

pub open spec fn reading_of(file: IndexedFile) -> (bool, Option<Seq<char>>) {
    if file.is_dir || file.is_symlink {
        (false, None)
    } else if file.flags & DATALESS != 0 {
        (false, Some("Cloud placeholders were skipped without downloading"@))
    } else if file.size > CONTENT_LIMIT {
        (false, Some("Uncached content larger than 16 MiB was skipped"@))
    } else if !text_extensions().contains(file.extension@) {
        (
            false,
            Some(
                "Some files need the macOS content extractor or have unsupported formats; content results are partial"@,
            ),
        )
    } else {
        (true, None)
    }
}

/// Whether the contents of a row are read. Nothing is downloaded, and only plain text is read
/// here.
pub fn reading(file: &IndexedFile) -> (what: Reading)
    ensures
        match what {
            Reading::Nothing => reading_of(*file) == (false, None::<Seq<char>>),
            Reading::Skip(warning) => reading_of(*file) == (false, Some(warning@)),
            Reading::Read => reading_of(*file) == (true, None::<Seq<char>>),
        },
{
    if file.is_dir || file.is_symlink {
        Reading::Nothing
    } else if file.flags & DATALESS != 0 {
        Reading::Skip("Cloud placeholders were skipped without downloading")
    } else if file.size > CONTENT_LIMIT {
        Reading::Skip("Uncached content larger than 16 MiB was skipped")
    } else if !is_text_extension(file.extension.as_str()) {
        Reading::Skip(
            "Some files need the macOS content extractor or have unsupported formats; content results are partial",
        )
    } else {
        Reading::Read
    }
}

/// An entry is the row that was indexed, in the same version.
pub open spec fn same_version(file: IndexedFile, fresh: ScannedFile) -> bool {
    &&& fresh.volume_id@ == file.volume_id@
    &&& fresh.file_id == file.file_id
    &&& fresh.size == file.size
    &&& fresh.modified_ns == file.modified_ns
    &&& fresh.changed_ns == file.changed_ns
}

/// Why the contents of a row cannot be read from what its path names now.
pub fn fresh_problem(file: &IndexedFile, fresh: &ScannedFile) -> (problem: Option<&'static str>)
    ensures
        match problem {
            Some(reason) => if fresh.is_symlink || fresh.flags & DATALESS != 0 || fresh.is_dir {
                reason@ == "File became a symlink, directory or cloud placeholder"@
            } else {
                reason@ == "File changed since this query snapshot; refresh the index"@
                    && !same_version(*file, *fresh)
            },
            None => !fresh.is_symlink && fresh.flags & DATALESS == 0 && !fresh.is_dir
                && same_version(*file, *fresh),
        },
{
    if fresh.is_symlink || fresh.flags & DATALESS != 0 || fresh.is_dir {
        return Some("File became a symlink, directory or cloud placeholder");
    }
    let same = same_text(fresh.volume_id.as_str(), file.volume_id.as_str()) && fresh.file_id
        == file.file_id && fresh.size == file.size && fresh.modified_ns == file.modified_ns
        && fresh.changed_ns == file.changed_ns;
    if !same {
        return Some("File changed since this query snapshot; refresh the index");
    }
    None
}

/// What a descriptor or a path named while contents were read.
#[derive(Clone, Copy, Debug)]
pub struct Seen {
    pub is_file: bool,
    pub identity: FileIdentity,
    pub flags: u32,
}

/// What a path names has the identity of a row. A row does not hold a device; that its volume is
/// the same is seen before.
pub open spec fn names_row(seen: Seen, file: IndexedFile) -> bool {
    &&& seen.is_file
    &&& seen.identity.file_id == file.file_id
    &&& seen.identity.size == file.size
    &&& seen.identity.modified_ns == file.modified_ns
    &&& seen.identity.changed_ns == file.changed_ns
}

/// What has to be found of a file while its contents are read, or why they are not read: right
/// before it is opened, its path has to name a regular file with the identity of the row.
pub fn identity_before_reading(seen: &Seen, file: &IndexedFile) -> (result: Result<
    FileIdentity,
    &'static str,
>)
    ensures
        match result {
            Ok(expected) => names_row(*seen, *file) && expected == seen.identity,
            Err(reason) => !names_row(*seen, *file) && reason@
                == "File identity changed before reading content"@,
        },
{
    if seen.is_file && seen.identity.file_id == file.file_id && seen.identity.size == file.size
        && seen.identity.modified_ns == file.modified_ns && seen.identity.changed_ns
        == file.changed_ns {
        Ok(seen.identity)
    } else {
        Err("File identity changed before reading content")
    }
}

/// The object is the expected one, in the same version.
pub open spec fn is_expected(seen: Seen, expected: FileIdentity) -> bool {
    seen.is_file && seen.identity == expected
}

/// Why contents that were read cannot be believed.
pub open spec fn doubt(
    before: Seen,
    read: nat,
    after: Seen,
    at_path: Seen,
    expected: FileIdentity,
) -> Option<Seq<char>> {
    if !is_expected(before, expected) || (before.flags & DATALESS == 0 && read <= CONTENT_LIMIT
        && read == expected.size && !is_expected(after, expected)) {
        Some("Opened file identity or contents changed during reading"@)
    } else if before.flags & DATALESS != 0 {
        Some("Cloud placeholder skipped"@)
    } else if read > CONTENT_LIMIT {
        Some("Content exceeds bounded read"@)
    } else if read != expected.size {
        Some("File size changed during content reading"@)
    } else if after.flags & DATALESS != 0 {
        Some("Cloud placeholder skipped"@)
    } else if !is_expected(at_path, expected) {
        Some("Content path was replaced while its original descriptor remained open"@)
    } else {
        None
    }
}

/// Why text was not read.
#[derive(Clone, Copy, Debug)]
pub enum TextProblem {
    Doubtful(&'static str),
    NotUtf8,
}

/// The text that was read of a file, if it can be believed: the descriptor named the expected
/// object before and after, all of it was read, and the path still names it.
pub fn verified_text(
    before: Seen,
    bytes: &[u8],
    after: Seen,
    at_path: Seen,
    expected: FileIdentity,
) -> (result: Result<String, TextProblem>)
    ensures
        match doubt(before, bytes@.len(), after, at_path, expected) {
            Some(reason) => result matches Err(TextProblem::Doubtful(said)) && said@ == reason,
            None => match result {
                Ok(body) => text::bytes_of(body@) == bytes@,
                Err(problem) => problem is NotUtf8 && !vstd::utf8::valid_utf8(bytes@),
            },
        },
{
    let read: u64 = bytes.len() as u64;
    if !(before.is_file && before.identity == expected) {
        return Err(
            TextProblem::Doubtful("Opened file identity or contents changed during reading"),
        );
    }
    if before.flags & DATALESS != 0 {
        return Err(TextProblem::Doubtful("Cloud placeholder skipped"));
    }
    if read > CONTENT_LIMIT {
        return Err(TextProblem::Doubtful("Content exceeds bounded read"));
    }
    if read != expected.size {
        return Err(TextProblem::Doubtful("File size changed during content reading"));
    }
    if !(after.is_file && after.identity == expected) {
        return Err(
            TextProblem::Doubtful("Opened file identity or contents changed during reading"),
        );
    }
    if after.flags & DATALESS != 0 {
        return Err(TextProblem::Doubtful("Cloud placeholder skipped"));
    }
    if !(at_path.is_file && at_path.identity == expected) {
        return Err(
            TextProblem::Doubtful(
                "Content path was replaced while its original descriptor remained open",
            ),
        );
    }
    match decoded(bytes) {
        Some(body) => Ok(body),
        None => Err(TextProblem::NotUtf8),
    }
}

/// The identity that an extractor says it read.
#[derive(Clone, Copy, Debug)]
pub struct ExpectedIdentity {
    pub file_id: Option<u64>,
    pub device_id: Option<u64>,
    pub size: Option<u64>,
    pub modified_ns: Option<i64>,
    pub changed_ns: Option<i64>,
}

/// Extracted contents belong to what the path names now.
pub open spec fn belongs(seen: Seen, expected: ExpectedIdentity) -> bool {
    &&& seen.is_file
    &&& expected.file_id == Some(seen.identity.file_id)
    &&& expected.device_id == Some(seen.identity.device_id)
    &&& expected.size == Some(seen.identity.size)
    &&& expected.modified_ns == Some(seen.identity.modified_ns)
    &&& expected.changed_ns == Some(seen.identity.changed_ns)
}

fn is_value(given: Option<u64>, value: u64) -> (same: bool)
    ensures
        same == (given == Some(value)),
{
    match given {
        Some(given) => given == value,
        None => false,
    }
}

fn is_time(given: Option<i64>, value: i64) -> (same: bool)
    ensures
        same == (given == Some(value)),
{
    match given {
        Some(given) => given == value,
        None => false,
    }
}

/// Refuse contents that were extracted from another version of the file. `seen` is what the
/// path names now, or why that is not known.
pub fn validate_content_identity(
    seen: Result<Seen, String>,
    expected: &ExpectedIdentity,
) -> (result: Result<(), String>)
    ensures
        match seen {
            Ok(seen) => match result {
                Ok(_) => belongs(seen, *expected),
                Err(reason) => !belongs(seen, *expected) && reason@
                    == "Content source changed during extraction; retry with current metadata"@,
            },
            Err(why) => result matches Err(reason) && reason@ == "Content source unavailable: "@
                + why@,
        },
{
    let seen = match seen {
        Ok(seen) => seen,
        Err(why) => {
            return Err(text::joined("Content source unavailable: ", why.as_str()));
        },
    };
    if seen.is_file && is_value(expected.file_id, seen.identity.file_id) && is_value(
        expected.device_id,
        seen.identity.device_id,
    ) && is_value(expected.size, seen.identity.size) && is_time(
        expected.modified_ns,
        seen.identity.modified_ns,
    ) && is_time(expected.changed_ns, seen.identity.changed_ns) {
        return Ok(());
    }
    Err("Content source changed during extraction; retry with current metadata".to_owned())
}

/// Refuse to go on with contents of another revision than the snapshot's.
pub fn validate_content_revision(stored: u64, expected: u64) -> (result: Result<(), String>)
    ensures
        match result {
            Ok(_) => stored == expected,
            Err(reason) => stored != expected && reason@
                == "Content revision changed; restart the content query with a new snapshot"@,
        },
{
    if stored != expected {
        return Err(
            "Content revision changed; restart the content query with a new snapshot".to_owned(),
        );
    }
    Ok(())
}

/// Text is believed only of the expected version, seen before and after reading.
pub proof fn law_believed_text_is_of_the_expected_version(
    before: Seen,
    read: nat,
    after: Seen,
    at_path: Seen,
    expected: FileIdentity,
)
    requires
        doubt(before, read, after, at_path, expected) is None,
    ensures
        is_expected(before, expected),
        is_expected(after, expected),
        is_expected(at_path, expected),
        read == expected.size,
        read <= CONTENT_LIMIT,
{
}

/// Text that is believed is of the version that the row holds.
pub proof fn law_believed_text_is_of_the_row(
    file: IndexedFile,
    found: Seen,
    before: Seen,
    read: nat,
    after: Seen,
    at_path: Seen,
)
    requires
        names_row(found, file),
        doubt(before, read, after, at_path, found.identity) is None,
    ensures
        names_row(before, file),
        names_row(after, file),
        names_row(at_path, file),
        before.identity == after.identity && after.identity == at_path.identity,
        read == file.size,
{
}

} // verus!
