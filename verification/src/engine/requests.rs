//! Requests to the engine: which they are, and which are refused.
use crate::paths;
use crate::paths::is_absolute;
use crate::query::evaluate;
use crate::query::evaluate::Question;
use crate::query::model::Query;
use crate::scanner::entry;
use crate::scanner::entry::{extension_of, ScannedFile};
use crate::scanner::selection::name_of;
use crate::scanner::selection;
use crate::text;
use crate::text::{joined, same_text};
use vstd::prelude::*;

verus! {

/// The version of the requests and replies.
pub const PROTOCOL_VERSION: u32 = 2;

/// The most text of a query, in bytes.
pub const QUERY_LIMIT: usize = 16_384;

/// The most rows of a page, and how many where a request does not say.
pub const PAGE_LIMIT: u64 = 10_000;

pub const DEFAULT_PAGE: u64 = 200;

/// The most directories of one request.
pub const DIRECTORY_LIMIT: usize = 200;

/// The most extracted text of a file, in bytes.
pub const EXTRACTED_LIMIT: usize = 33_554_432;

/// The most bytes of the id of a status request.
pub const REQUEST_ID_LIMIT: usize = 128;

/// What a request asks for.
#[derive(Clone, Copy, Debug, PartialEq, Eq, Structural)]
pub enum Operation {
    Status,
    WaitStatus,
    Query,
    DirectoryInfo,
    RetainSnapshot,
    ReleaseSnapshot,
    RenewSnapshot,
    QueryPlan,
    Volumes,
    ContentCandidates,
    PublishContent,
    Scan,
    Quiesce,
    Stop,
    Cancel,
    PutContent,
    Preferences,
    Duplicates,
    ImportFileList,
    Export,
}

/// The operation with a name.
pub open spec fn operation_of(name: Seq<char>) -> Option<Operation> {
    if name == "status"@ {
        Some(Operation::Status)
    } else if name == "wait_status"@ {
        Some(Operation::WaitStatus)
    } else if name == "query"@ {
        Some(Operation::Query)
    } else if name == "directory_info"@ {
        Some(Operation::DirectoryInfo)
    } else if name == "retain_snapshot"@ {
        Some(Operation::RetainSnapshot)
    } else if name == "release_snapshot"@ {
        Some(Operation::ReleaseSnapshot)
    } else if name == "renew_snapshot"@ {
        Some(Operation::RenewSnapshot)
    } else if name == "query_plan"@ {
        Some(Operation::QueryPlan)
    } else if name == "volumes"@ || name == "volumes_changed"@ {
        Some(Operation::Volumes)
    } else if name == "content_candidates"@ {
        Some(Operation::ContentCandidates)
    } else if name == "publish_content"@ {
        Some(Operation::PublishContent)
    } else if name == "scan"@ || name == "watch"@ {
        Some(Operation::Scan)
    } else if name == "quiesce"@ {
        Some(Operation::Quiesce)
    } else if name == "stop"@ {
        Some(Operation::Stop)
    } else if name == "cancel"@ {
        Some(Operation::Cancel)
    } else if name == "put_content"@ {
        Some(Operation::PutContent)
    } else if name == "preferences"@ {
        Some(Operation::Preferences)
    } else if name == "duplicates"@ {
        Some(Operation::Duplicates)
    } else if name == "import_file_list"@ {
        Some(Operation::ImportFileList)
    } else if name == "export"@ {
        Some(Operation::Export)
    } else {
        None
    }
}

fn named_operation(name: &str) -> (operation: Option<Operation>)
    ensures
        operation == operation_of(name@),
{
    if same_text(name, "status") {
        Some(Operation::Status)
    } else if same_text(name, "wait_status") {
        Some(Operation::WaitStatus)
    } else if same_text(name, "query") {
        Some(Operation::Query)
    } else if same_text(name, "directory_info") {
        Some(Operation::DirectoryInfo)
    } else if same_text(name, "retain_snapshot") {
        Some(Operation::RetainSnapshot)
    } else if same_text(name, "release_snapshot") {
        Some(Operation::ReleaseSnapshot)
    } else if same_text(name, "renew_snapshot") {
        Some(Operation::RenewSnapshot)
    } else if same_text(name, "query_plan") {
        Some(Operation::QueryPlan)
    } else if same_text(name, "volumes") || same_text(name, "volumes_changed") {
        Some(Operation::Volumes)
    } else if same_text(name, "content_candidates") {
        Some(Operation::ContentCandidates)
    } else if same_text(name, "publish_content") {
        Some(Operation::PublishContent)
    } else if same_text(name, "scan") || same_text(name, "watch") {
        Some(Operation::Scan)
    } else if same_text(name, "quiesce") {
        Some(Operation::Quiesce)
    } else if same_text(name, "stop") {
        Some(Operation::Stop)
    } else if same_text(name, "cancel") {
        Some(Operation::Cancel)
    } else if same_text(name, "put_content") {
        Some(Operation::PutContent)
    } else if same_text(name, "preferences") {
        Some(Operation::Preferences)
    } else if same_text(name, "duplicates") {
        Some(Operation::Duplicates)
    } else if same_text(name, "import_file_list") {
        Some(Operation::ImportFileList)
    } else if same_text(name, "export") {
        Some(Operation::Export)
    } else {
        None
    }
}

/// Which operation a request asks for.
pub fn operation(name: Option<&str>) -> (result: Result<Operation, String>)
    ensures
        match name {
            None => result matches Err(reason) && reason@ == "Missing op"@,
            Some(name) => match operation_of(name@) {
                Some(operation) => result == Ok::<Operation, String>(operation),
                None => result matches Err(reason) && reason@ == "Unknown operation '"@ + name@
                    + "'"@,
            },
        },
{
    match name {
        None => Err("Missing op".to_owned()),
        Some(name) => match named_operation(name) {
            Some(operation) => Ok(operation),
            None => {
                let start = joined("Unknown operation '", name);
                Err(joined(start.as_str(), "'"))
            },
        },
    }
}

/// Refuse a query text that is too long.
pub fn check_query_text(query: &str) -> (result: Result<(), String>)
    ensures
        match result {
            Ok(_) => text::bytes_of(query@).len() <= QUERY_LIMIT,
            Err(reason) => text::bytes_of(query@).len() > QUERY_LIMIT && reason@
                == "Query is limited to 16 KiB"@,
        },
{
    if query.as_bytes().len() > QUERY_LIMIT {
        return Err("Query is limited to 16 KiB".to_owned());
    }
    Ok(())
}

/// How many rows a page has at most.
pub fn page_limit(asked: Option<u64>) -> (limit: usize)
    ensures
        limit == (match asked {
            Some(rows) => if rows < PAGE_LIMIT {
                rows
            } else {
                PAGE_LIMIT
            },
            None => DEFAULT_PAGE,
        }),
{
    match asked {
        Some(rows) => if rows < PAGE_LIMIT {
            rows as usize
        } else {
            10_000
        },
        None => 200,
    }
}

/// Why a request that names another generation than its lease is refused.
pub open spec fn mismatch(query: bool) -> Seq<char> {
    if query {
        "SearchSnapshot lease generation does not match the requested generation"@
    } else {
        "Snapshot lease generation mismatch"@
    }
}

/// Refuse a request that names another generation than the snapshot that it retains.
pub fn check_leased_generation(asked: Option<u64>, leased: u64, query: bool) -> (result: Result<
    (),
    String,
>)
    ensures
        match result {
            Ok(_) => asked is None || asked == Some(leased),
            Err(reason) => asked is Some && asked != Some(leased) && reason@ == mismatch(query),
        },
{
    if let Some(asked) = asked {
        if asked != leased {
            return Err(
                if query {
                    "SearchSnapshot lease generation does not match the requested generation".to_owned()
                } else {
                    "Snapshot lease generation mismatch".to_owned()
                },
            );
        }
    }
    Ok(())
}

/// The revision and id of a request that waits for a status.
pub fn check_status_request(after: Option<u64>, id: Option<&str>) -> (result: Result<
    (u64, String),
    String,
>)
    ensures
        match result {
            Ok((revision, kept)) => after == Some(revision) && (id matches Some(id) && kept@ == id@
                && 0 < text::bytes_of(id@).len() <= REQUEST_ID_LIMIT),
            Err(reason) => if after is None {
                reason@ == "Missing status revision"@
            } else {
                &&& reason@ == "Status observation requires a bounded request_id"@
                &&& id matches Some(id) ==> text::bytes_of(id@).len() == 0 || text::bytes_of(
                    id@,
                ).len() > REQUEST_ID_LIMIT
            },
        },
{
    let revision = match after {
        Some(revision) => revision,
        None => {
            return Err("Missing status revision".to_owned());
        },
    };
    if let Some(id) = id {
        let length = id.as_bytes().len();
        if 0 < length && length <= REQUEST_ID_LIMIT {
            return Ok((revision, id.to_owned()));
        }
    }
    Err("Status observation requires a bounded request_id".to_owned())
}

/// Refuse to tell of too many directories at once.
pub fn check_directory_count(count: usize) -> (result: Result<(), String>)
    ensures
        match result {
            Ok(_) => count <= DIRECTORY_LIMIT,
            Err(reason) => count > DIRECTORY_LIMIT && reason@
                == "Directory information is limited to 200 paths per request"@,
        },
{
    if count > DIRECTORY_LIMIT {
        return Err("Directory information is limited to 200 paths per request".to_owned());
    }
    Ok(())
}

/// Refuse extracted text that is too long.
pub fn check_extracted_text(body: &str) -> (result: Result<(), String>)
    ensures
        match result {
            Ok(_) => text::bytes_of(body@).len() <= EXTRACTED_LIMIT,
            Err(reason) => text::bytes_of(body@).len() > EXTRACTED_LIMIT && reason@
                == "Content extraction exceeds 32 MiB per file"@,
        },
{
    if body.as_bytes().len() > EXTRACTED_LIMIT {
        return Err("Content extraction exceeds 32 MiB per file".to_owned());
    }
    Ok(())
}

/// A setting that the index keeps.
#[derive(Clone, Copy, Debug, PartialEq, Eq, Structural)]
pub enum Preference {
    Macros,
    Bookmarks,
    Exclusions,
    History,
    Settings,
}

pub open spec fn preference_of(key: Seq<char>) -> Option<Preference> {
    if key == "macros"@ {
        Some(Preference::Macros)
    } else if key == "bookmarks"@ {
        Some(Preference::Bookmarks)
    } else if key == "exclusions"@ {
        Some(Preference::Exclusions)
    } else if key == "history"@ {
        Some(Preference::History)
    } else if key == "settings"@ {
        Some(Preference::Settings)
    } else {
        None
    }
}

/// The setting that a request changes; macros have to be an object.
pub fn check_preference(key: &str, is_object: bool) -> (result: Result<Preference, String>)
    ensures
        match preference_of(key@) {
            None => result matches Err(reason) && reason@ == "Unknown preference '"@ + key@ + "'"@,
            Some(preference) => if preference is Macros && !is_object {
                result matches Err(reason) && reason@ == "macros must be an object of strings"@
            } else {
                result == Ok::<Preference, String>(preference)
            },
        },
{
    let preference = if same_text(key, "macros") {
        Preference::Macros
    } else if same_text(key, "bookmarks") {
        Preference::Bookmarks
    } else if same_text(key, "exclusions") {
        Preference::Exclusions
    } else if same_text(key, "history") {
        Preference::History
    } else if same_text(key, "settings") {
        Preference::Settings
    } else {
        let start = joined("Unknown preference '", key);
        return Err(joined(start.as_str(), "'"));
    };
    match preference {
        Preference::Macros => if !is_object {
            return Err("macros must be an object of strings".to_owned());
        },
        _ => {},
    }
    Ok(preference)
}

/// Whether a setting is an object where none was stored, and not a list.
pub fn is_object_setting(preference: Preference) -> (object: bool)
    ensures
        object == (preference is Macros || preference is Settings),
{
    match preference {
        Preference::Macros => true,
        Preference::Settings => true,
        _ => false,
    }
}

/// By what duplicates are found.
#[derive(Clone, Copy, Debug, PartialEq, Eq, Structural)]
pub enum DuplicateMode {
    Content,
    Name,
    Size,
}

/// By what duplicates are found: by contents, unless the request says otherwise.
pub fn duplicate_mode(offline: bool, mode: Option<&str>) -> (result: Result<DuplicateMode, String>)
    ensures
        ({
            let name = match mode {
                Some(mode) => mode@,
                None => "content"@,
            };
            if offline {
                result matches Err(reason) && reason@
                    == "Content duplicate detection requires online files"@
            } else if name == "content"@ {
                result == Ok::<DuplicateMode, String>(DuplicateMode::Content)
            } else if name == "name"@ {
                result == Ok::<DuplicateMode, String>(DuplicateMode::Name)
            } else if name == "size"@ {
                result == Ok::<DuplicateMode, String>(DuplicateMode::Size)
            } else {
                result matches Err(reason) && reason@
                    == "Duplicate mode must be content, name, or size"@
            }
        }),
{
    if offline {
        return Err("Content duplicate detection requires online files".to_owned());
    }
    let name = match mode {
        Some(mode) => mode,
        None => "content",
    };
    if same_text(name, "content") {
        Ok(DuplicateMode::Content)
    } else if same_text(name, "name") {
        Ok(DuplicateMode::Name)
    } else if same_text(name, "size") {
        Ok(DuplicateMode::Size)
    } else {
        Err("Duplicate mode must be content, name, or size".to_owned())
    }
}

/// What a query needs.
#[derive(Clone, Copy, Debug, PartialEq, Eq, Structural)]
pub struct QueryPlan {
    pub requires_content: bool,
    pub requires_properties: bool,
    /// Contents or properties have to be extracted first. Relations never are.
    pub requires_extraction: bool,
    pub indexed_relations_only: bool,
}

/// A query or one of the exclusions asks something.
pub open spec fn any_part_asks(query: Query, exclusions: Seq<Query>, question: Question) -> bool {
    evaluate::asks(query@, question) || exists|i: int|
        0 <= i < exclusions.len() && evaluate::asks((#[trigger] exclusions[i])@, question)
}

/// What a query with its exclusions needs.
pub fn query_plan(query: &Query, exclusions: &Vec<Query>) -> (plan: QueryPlan)
    ensures
        plan.requires_content == any_part_asks(*query, exclusions@, Question::Content),
        plan.requires_properties == any_part_asks(*query, exclusions@, Question::Properties),
        plan.indexed_relations_only == any_part_asks(*query, exclusions@, Question::Relations),
        plan.requires_extraction == ((plan.requires_content || plan.requires_properties)
            && !plan.indexed_relations_only),
{
    let mut relational = query.requires_relations();
    let mut content = query.requires_content();
    let mut properties = query.requires_properties();
    let mut next: usize = 0;
    while next < exclusions.len()
        invariant
            next <= exclusions@.len(),
            relational == (evaluate::asks(query@, Question::Relations) || exists|i: int|
                0 <= i < next && evaluate::asks(
                    (#[trigger] exclusions@[i])@,
                    Question::Relations,
                )),
            content == (evaluate::asks(query@, Question::Content) || exists|i: int|
                0 <= i < next && evaluate::asks((#[trigger] exclusions@[i])@, Question::Content)),
            properties == (evaluate::asks(query@, Question::Properties) || exists|i: int|
                0 <= i < next && evaluate::asks(
                    (#[trigger] exclusions@[i])@,
                    Question::Properties,
                )),
        decreases exclusions@.len() - next,
    {
        let part = &exclusions[next];
        assert(part == exclusions@[next as int]);
        let (r, c, p) = (
            part.requires_relations(),
            part.requires_content(),
            part.requires_properties(),
        );
        relational = relational || r;
        content = content || c;
        properties = properties || p;
        next = next + 1;
    }
    QueryPlan {
        requires_content: content,
        requires_properties: properties,
        requires_extraction: (content || properties) && !relational,
        indexed_relations_only: relational,
    }
}

/// Refuse roots that are none, or not absolute, and an index without local files.
pub fn check_roots(roots: &[String], offline: bool) -> (result: Result<(), String>)
    ensures
        match result {
            Ok(_) => roots@.len() > 0 && !offline && forall|i: int|
                0 <= i < roots@.len() ==> paths::has_root((#[trigger] roots@[i])@),
            Err(reason) => if roots@.len() == 0 {
                reason@ == "At least one root is required"@
            } else if exists|i: int|
                0 <= i < roots@.len() && !paths::has_root((#[trigger] roots@[i])@) {
                reason@ == "Index roots must be absolute paths"@
            } else {
                offline && reason@ == "Offline file-list indexes cannot scan local files"@
            },
        },
{
    if roots.len() == 0 {
        return Err("At least one root is required".to_owned());
    }
    let mut next: usize = 0;
    while next < roots.len()
        invariant
            next <= roots@.len(),
            roots@.len() > 0,
            forall|i: int| 0 <= i < next ==> paths::has_root((#[trigger] roots@[i])@),
        decreases roots@.len() - next,
    {
        if !is_absolute(roots[next].as_str()) {
            assert(!paths::has_root(roots@[next as int]@));
            return Err("Index roots must be absolute paths".to_owned());
        }
        next = next + 1;
    }
    if offline {
        return Err("Offline file-list indexes cannot scan local files".to_owned());
    }
    Ok(())
}

/// A row of a file list that is imported.
#[derive(Clone, Debug)]
pub struct ImportedRow {
    pub path: String,
    pub name: Option<String>,
    pub size: u64,
    pub modified: i64,
    pub created: i64,
    pub is_dir: bool,
}

/// The volume of imported rows.
pub const IMPORTED_VOLUME: &'static str = "offline:filelist";

/// The entry that an imported row becomes.
pub open spec fn imports(file: ScannedFile, row: ImportedRow, index: int) -> bool {
    &&& file.path@ == row.path@
    &&& file.name@ == (match row.name {
        Some(name) => name@,
        None => match selection::file_name(row.path@) {
            Some(name) => name,
            None => Seq::empty(),
        },
    })
    &&& file.extension@ == (if row.is_dir {
        Seq::empty()
    } else {
        entry::path_extension(row.path@)
    })
    &&& file.size == row.size
    &&& file.modified == row.modified
    &&& file.created == row.created
    &&& file.is_dir == row.is_dir
    &&& file.file_id == index + 1
    &&& file.volume_id@ == IMPORTED_VOLUME@
    &&& !file.is_symlink
    &&& file.changed == 0
    &&& file.modified_ns == 0
    &&& file.changed_ns == 0
    &&& file.parent_id == 0
    &&& file.flags == 0
    &&& file.link_count is None
}

fn imported(row: &ImportedRow, id: u64) -> (file: ScannedFile)
    requires
        id > 0,
    ensures
        imports(file, *row, id - 1),
{
    let name = match &row.name {
        Some(name) => name.clone(),
        None => match name_of(row.path.as_str()) {
            Some(name) => name,
            None => {
                let none = "".to_owned();
                proof {
                    reveal_strlit("");
                    assert(none@ =~= Seq::<char>::empty());
                }
                none
            },
        },
    };
    let extension = if row.is_dir {
        let none = "".to_owned();
        proof {
            reveal_strlit("");
            assert(none@ =~= Seq::<char>::empty());
        }
        none
    } else {
        extension_of(row.path.as_str())
    };
    ScannedFile {
        path: row.path.clone(),
        name,
        extension,
        size: row.size,
        modified: row.modified,
        changed: 0,
        created: row.created,
        modified_ns: 0,
        changed_ns: 0,
        is_dir: row.is_dir,
        is_symlink: false,
        file_id: id,
        parent_id: 0,
        volume_id: IMPORTED_VOLUME.to_owned(),
        flags: 0,
        link_count: None,
    }
}

/// The entries of an imported file list, which has no objects of its own: they are numbered. A
/// running index is not replaced.
pub fn import_file_list(active: bool, rows: &[ImportedRow]) -> (result: Result<
    Vec<ScannedFile>,
    String,
>)
    ensures
        match result {
            Ok(files) => !active && files@.len() == rows@.len() && forall|i: int|
                0 <= i < files@.len() ==> imports(#[trigger] files@[i], rows@[i], i),
            Err(reason) => active && reason@
                == "Use a separate offline database for imported file lists"@,
        },
{
    if active {
        return Err("Use a separate offline database for imported file lists".to_owned());
    }
    let mut files: Vec<ScannedFile> = Vec::new();
    let mut next: usize = 0;
    while next < rows.len()
        invariant
            next <= rows@.len(),
            files@.len() == next,
            forall|i: int| 0 <= i < files@.len() ==> imports(#[trigger] files@[i], rows@[i], i),
        decreases rows@.len() - next,
    {
        let id: u64 = next as u64 + 1;
        files.push(imported(&rows[next], id));
        next = next + 1;
    }
    Ok(files)
}

} // verus!
