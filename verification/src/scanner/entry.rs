//! Directory entries as a scan records them.
use crate::scanner::selection;
use crate::scanner::selection::name_of;
use crate::text;
use crate::text::{after_last, to_lowercase};
use vstd::prelude::*;

verus! {

/// The flag of a file whose contents are not on this machine.
pub const DATALESS: u32 = 0x4000_0000;

#[derive(Clone, Copy, Debug, PartialEq, Eq, Structural)]
pub enum FileKind {
    Regular,
    Directory,
    Symlink,
    Other,
}

/// What the host says of a directory entry.
#[derive(Clone, Debug)]
pub struct FileMetadata {
    pub kind: FileKind,
    pub size: u64,
    pub modified: i64,
    pub changed: i64,
    pub created: i64,
    pub modified_ns: i64,
    pub changed_ns: i64,
    pub file_id: u64,
    pub parent_id: u64,
    pub volume_id: String,
    pub flags: u32,
    pub link_count: Option<u64>,
    pub error: Option<i32>,
}

/// One directory entry. A file object is known by its volume and file id, an entry by its path:
/// several entries may be one object.
#[derive(Clone, Debug, Default, PartialEq)]
pub struct ScannedFile {
    pub path: String,
    pub name: String,
    pub extension: String,
    pub size: u64,
    pub modified: i64,
    pub changed: i64,
    pub created: i64,
    pub modified_ns: i64,
    pub changed_ns: i64,
    pub is_dir: bool,
    pub is_symlink: bool,
    pub file_id: u64,
    pub parent_id: u64,
    pub volume_id: String,
    pub flags: u32,
    pub link_count: Option<u64>,
}

/// A volume that can be indexed.
#[derive(Clone, Debug, Default)]
pub struct Volume {
    pub path: String,
    pub id: String,
    pub filesystem: String,
}

/// The times, size and flags that all entries of one object share.
#[derive(Clone, Copy, Debug)]
pub struct ObjectState {
    pub size: u64,
    pub modified: i64,
    pub changed: i64,
    pub created: i64,
    pub modified_ns: i64,
    pub changed_ns: i64,
    pub flags: u32,
}

/// What an entry says.
pub struct EntryView {
    pub path: Seq<char>,
    pub name: Seq<char>,
    pub extension: Seq<char>,
    pub state: ObjectState,
    pub is_dir: bool,
    pub is_symlink: bool,
    pub file_id: u64,
    pub parent_id: u64,
    pub volume_id: Seq<char>,
    pub link_count: Option<u64>,
}

impl View for ScannedFile {
    type V = EntryView;

    open spec fn view(&self) -> EntryView {
        EntryView {
            path: self.path@,
            name: self.name@,
            extension: self.extension@,
            state: ObjectState {
                size: self.size,
                modified: self.modified,
                changed: self.changed,
                created: self.created,
                modified_ns: self.modified_ns,
                changed_ns: self.changed_ns,
                flags: self.flags,
            },
            is_dir: self.is_dir,
            is_symlink: self.is_symlink,
            file_id: self.file_id,
            parent_id: self.parent_id,
            volume_id: self.volume_id@,
            link_count: self.link_count,
        }
    }
}

/// What some entries say.
pub open spec fn entry_views(entries: Seq<ScannedFile>) -> Seq<EntryView> {
    entries.map_values(|entry: ScannedFile| entry@)
}

/// The name of an entry; a path without a name stands for itself.
pub open spec fn entry_name(path: Seq<char>) -> Seq<char> {
    match selection::file_name(path) {
        Some(name) => name,
        None => path,
    }
}

/// What follows the last dot of a name that does not only begin with it, in lower case.
pub open spec fn path_extension(path: Seq<char>) -> Seq<char> {
    match selection::file_name(path) {
        Some(name) => if text::last_at(name, '.') > 0 {
            text::lowercase(name.skip(text::last_at(name, '.') + 1))
        } else {
            Seq::empty()
        },
        None => Seq::empty(),
    }
}

/// The extension of a path in lower case, or nothing.
pub fn extension_of(path: &str) -> (extension: String)
    ensures
        extension@ == path_extension(path@),
{
    let empty = String::new();
    assert(empty@ =~= Seq::<char>::empty());
    match name_of(path) {
        Some(name) => match after_last(name.as_str(), '.') {
            Some(tail) => to_lowercase(tail.as_str()),
            None => empty,
        },
        None => empty,
    }
}

/// The entry at a path, by what the host says of it.
pub open spec fn entry_of(path: Seq<char>, metadata: FileMetadata) -> EntryView {
    EntryView {
        path,
        name: entry_name(path),
        extension: if metadata.kind == FileKind::Directory {
            Seq::empty()
        } else {
            path_extension(path)
        },
        state: ObjectState {
            size: metadata.size,
            modified: metadata.modified,
            changed: metadata.changed,
            created: metadata.created,
            modified_ns: metadata.modified_ns,
            changed_ns: metadata.changed_ns,
            flags: metadata.flags,
        },
        is_dir: metadata.kind == FileKind::Directory,
        is_symlink: metadata.kind == FileKind::Symlink,
        file_id: metadata.file_id,
        parent_id: metadata.parent_id,
        volume_id: metadata.volume_id@,
        link_count: metadata.link_count,
    }
}

pub fn from_metadata(path: String, metadata: &FileMetadata) -> (entry: ScannedFile)
    ensures
        entry@ == entry_of(path@, *metadata),
{
    let name = match name_of(path.as_str()) {
        Some(name) => name,
        None => path.clone(),
    };
    let is_dir = metadata.kind == FileKind::Directory;
    let extension = if is_dir {
        String::new()
    } else {
        extension_of(path.as_str())
    };
    let entry = ScannedFile {
        path,
        name,
        extension,
        size: metadata.size,
        modified: metadata.modified,
        changed: metadata.changed,
        created: metadata.created,
        modified_ns: metadata.modified_ns,
        changed_ns: metadata.changed_ns,
        is_dir,
        is_symlink: metadata.kind == FileKind::Symlink,
        file_id: metadata.file_id,
        parent_id: metadata.parent_id,
        volume_id: metadata.volume_id.clone(),
        flags: metadata.flags,
        link_count: metadata.link_count,
    };
    assert(entry@.extension =~= entry_of(path@, *metadata).extension);
    entry
}

/// A path with what went wrong at it.
pub open spec fn issue_text(path: Seq<char>, error: Seq<char>) -> Seq<char> {
    path + ": "@ + error
}

/// A path with what went wrong at it.
pub fn issue(path: &str, error: &str) -> (line: String)
    ensures
        line@ == issue_text(path@, error@),
{
    let mut line = path.to_owned();
    line.append(": ");
    line.append(error);
    line
}

/// The entry at a path that was looked at without following a link.
pub fn stat_entry(path: &str, observed: Result<FileMetadata, String>) -> (entry: Result<
    ScannedFile,
    String,
>)
    ensures
        match observed {
            Ok(metadata) => entry matches Ok(found) && found@ == entry_of(path@, metadata),
            Err(error) => entry matches Err(line) && line@ == issue_text(path@, error@),
        },
{
    match observed {
        Ok(metadata) => Ok(from_metadata(path.to_owned(), &metadata)),
        Err(error) => Err(issue(path, error.as_str())),
    }
}

impl ScannedFile {
    pub fn is_dataless(&self) -> (dataless: bool)
        ensures
            dataless == (self.flags & DATALESS != 0),
    {
        self.flags & DATALESS != 0
    }
}

} // verus!
