//! Postings as bytes.
//!
//! Each of the three maps is written as the number of its keys and then, in the order of the
//! keys, each key with its slots. The directories and the symbolic links follow. Numbers take
//! four bytes, the lowest first; slots are written in the portable format of their bitmap behind
//! the number of its bytes. What is read back is checked against the number of entries.
use crate::bitmaps;
use crate::files::IndexedFile;
use crate::key_order;
use crate::key_order::sorted_places;
use crate::lexicographic;
use crate::metadata_postings;
use crate::metadata_postings::{MetadataPostings, PostingsView, MAX_EXTENSION_BYTES};
use crate::posting_map;
use crate::posting_map::{own_key, Posting, PostingMap};
use crate::text;
use crate::text::decoded;
use crate::text_order;
use core::cmp::Ordering;
use roaring::RoaringBitmap;
use std::sync::Arc;
use vstd::prelude::*;
use vstd::slice::slice_subrange;

verus! {

/// How a bitmap without runs begins.
pub const ARRAY_COOKIE: u32 = 12_346;

/// How a bitmap with runs begins, in its lower half.
pub const RUN_COOKIE: u32 = 12_347;

/// What a container takes at most: eight bytes in the header, and 32768 runs of four bytes behind
/// their number.
pub const CONTAINER_BYTES: u64 = 131_082;

/// Why postings cannot be written or read.
#[derive(Clone, Copy, Debug, PartialEq, Eq, Structural)]
pub enum CacheError {
    CountTooLarge,
    ExtensionTooLong,
    Truncated,
    CountExceedsLimit,
    HeaderTruncated,
    InvalidCookie,
    ContainerCount,
    InvalidBitmap,
    LengthOrSlot,
    DuplicateKey,
    EmptyPosting,
    NotText,
}

impl CacheError {
    pub open spec fn says(self) -> Seq<char> {
        match self {
            CacheError::CountTooLarge => "cache count exceeds u32"@,
            CacheError::ExtensionTooLong => "extension exceeds cache limit"@,
            CacheError::Truncated => "failed to fill whole buffer"@,
            CacheError::CountExceedsLimit => "cache count exceeds limit"@,
            CacheError::HeaderTruncated => "bitmap header is truncated"@,
            CacheError::InvalidCookie => "invalid bitmap cookie"@,
            CacheError::ContainerCount => "invalid bitmap container count"@,
            CacheError::InvalidBitmap => "invalid bitmap"@,
            CacheError::LengthOrSlot => "invalid bitmap length or slot"@,
            CacheError::DuplicateKey => "duplicate posting key"@,
            CacheError::EmptyPosting => "empty posting bitmap"@,
            CacheError::NotText => "extension is not UTF-8"@,
        }
    }

    pub fn message(&self) -> (message: &'static str)
        ensures
            message@ == self.says(),
    {
        match self {
            CacheError::CountTooLarge => "cache count exceeds u32",
            CacheError::ExtensionTooLong => "extension exceeds cache limit",
            CacheError::Truncated => "failed to fill whole buffer",
            CacheError::CountExceedsLimit => "cache count exceeds limit",
            CacheError::HeaderTruncated => "bitmap header is truncated",
            CacheError::InvalidCookie => "invalid bitmap cookie",
            CacheError::ContainerCount => "invalid bitmap container count",
            CacheError::InvalidBitmap => "invalid bitmap",
            CacheError::LengthOrSlot => "invalid bitmap length or slot",
            CacheError::DuplicateKey => "duplicate posting key",
            CacheError::EmptyPosting => "empty posting bitmap",
            CacheError::NotText => "extension is not UTF-8",
        }
    }
}

/// The number that four bytes make.
pub open spec fn number_at(bytes: Seq<u8>, at: int) -> int {
    bytes[at] + 0x100 * bytes[at + 1] + 0x1_0000 * bytes[at + 2] + 0x100_0000 * bytes[at + 3]
}

/// The four bytes of a number.
pub open spec fn number_bytes(number: int) -> Seq<u8> {
    seq![
        (number % 0x100) as u8,
        (number / 0x100 % 0x100) as u8,
        (number / 0x1_0000 % 0x100) as u8,
        (number / 0x100_0000 % 0x100) as u8,
    ]
}

/// All slots are below a bound.
pub open spec fn below(slots: Set<u32>, bound: int) -> bool {
    forall|slot: u32| #[trigger] slots.contains(slot) ==> slot < bound
}

/// So many containers hold all slots below a bound: each holds those that agree in their upper
/// half.
pub open spec fn container_limit(entries: int) -> int {
    if entries <= 0 {
        0
    } else if entries >= 0x1_0000_0000 {
        0x1_0000
    } else {
        (entries + 0xffff) / 0x1_0000
    }
}

/// So many bytes hold the bitmap of any slots below a bound: a header, for each container a bit,
/// and the containers.
pub open spec fn byte_limit(entries: int) -> int {
    let containers = container_limit(entries);
    8 + (containers + 7) / 8 + containers * CONTAINER_BYTES
}

/// The number of containers that the header of a bitmap gives.
pub open spec fn header_containers(bytes: Seq<u8>) -> Option<int> {
    if bytes.len() < 4 {
        None
    } else if number_at(bytes, 0) == ARRAY_COOKIE && bytes.len() >= 8 {
        Some(number_at(bytes, 4))
    } else if number_at(bytes, 0) % 0x1_0000 == RUN_COOKIE {
        Some(number_at(bytes, 0) / 0x1_0000 + 1)
    } else {
        None
    }
}

/// What `RoaringBitmap::deserialize_from` reads from the start of some bytes, and how many bytes
/// it leaves.
pub uninterp spec fn portable_slots(bytes: Seq<u8>) -> Option<(Set<u32>, nat)>;

/// The bytes that `RoaringBitmap::serialize_into` writes.
pub uninterp spec fn portable_encoding(bitmap: roaring::RoaringBitmap) -> Seq<u8>;

/// Some bytes are a bitmap of some slots in its portable format.
pub open spec fn portable(bytes: Seq<u8>, slots: Set<u32>) -> bool {
    &&& portable_slots(bytes) == Some((slots, 0nat))
    &&& header_containers(bytes) is Some
    &&& forall|bound: int| #[trigger]
        below(slots, bound) ==> header_containers(bytes)->0 <= container_limit(bound)
}

/// `RoaringBitmap::serialized_size`: what `serialize_into` writes. A container takes eight bytes
/// in the header and a bit, and at most as much as 32768 runs: arrays and bitsets take less, and
/// runs do not touch.
pub assume_specification[ roaring::RoaringBitmap::serialized_size ](bitmap: &RoaringBitmap) -> (size:
    usize)
    ensures
        size == portable_encoding(*bitmap).len(),
        forall|bound: int| #[trigger]
            below(bitmaps::slots_in(*bitmap), bound) ==> size <= byte_limit(bound),
;

/// `RoaringBitmap::max`: the largest integer.
pub assume_specification[ roaring::RoaringBitmap::max ](bitmap: &RoaringBitmap) -> (largest: Option<
    u32,
>)
    ensures
        match largest {
            Some(slot) => bitmaps::slots_in(*bitmap).contains(slot) && below(
                bitmaps::slots_in(*bitmap),
                slot + 1,
            ),
            None => bitmaps::slots_in(*bitmap) == Set::<u32>::empty(),
        },
;

/// `RoaringBitmap::serialize_into` a vector: bytes that the bitmap alone determines, from which
/// `deserialize_from` reads the same integers and leaves nothing. The header gives the number of
/// containers, one for each upper half that occurs. Offsets in it are 32-bit sums, so that larger
/// bitmaps are left out.
#[verifier::external_body]
fn portable_bytes(bitmap: &RoaringBitmap) -> (bytes: Vec<u8>)
    requires
        portable_encoding(*bitmap).len() <= u32::MAX,
    ensures
        bytes@ == portable_encoding(*bitmap),
        portable(bytes@, bitmaps::slots_in(*bitmap)),
{
    let mut bytes = Vec::new();
    bitmap.serialize_into(&mut bytes).unwrap();
    bytes
}

/// `RoaringBitmap::deserialize_from` a slice, and the number of bytes that it leaves.
#[verifier::external_body]
fn read_portable(bytes: &[u8]) -> (found: Option<(RoaringBitmap, usize)>)
    ensures
        match found {
            Some((bitmap, rest)) => portable_slots(bytes@) == Some(
                (bitmaps::slots_in(bitmap), rest as nat),
            ),
            None => portable_slots(bytes@) is None,
        },
{
    let mut rest = bytes;
    let bitmap = RoaringBitmap::deserialize_from(&mut rest).ok()?;
    Some((bitmap, rest.len()))
}

/// A number that is no larger than a limit, and where what follows it begins.
pub open spec fn count_at(bytes: Seq<u8>, at: int, limit: int) -> Result<(int, int), CacheError> {
    if at + 4 > bytes.len() {
        Err(CacheError::Truncated)
    } else if number_at(bytes, at) > limit {
        Err(CacheError::CountExceedsLimit)
    } else {
        Ok((number_at(bytes, at), at + 4))
    }
}

/// The slots of a bitmap whose header was looked at.
pub open spec fn body_at(
    bytes: Seq<u8>,
    from: int,
    length: int,
    containers: int,
    entries: int,
) -> Result<(Set<u32>, int), CacheError> {
    let end = if from + length <= bytes.len() {
        from + length
    } else {
        bytes.len() as int
    };
    if containers > container_limit(entries) {
        Err(CacheError::ContainerCount)
    } else {
        match portable_slots(bytes.subrange(from, end)) {
            None => Err(CacheError::InvalidBitmap),
            Some((slots, rest)) => if end != from + length || rest != 0 || !below(slots, entries) {
                Err(CacheError::LengthOrSlot)
            } else {
                Ok((slots, end))
            },
        }
    }
}

/// Slots, and where what follows them begins.
#[verifier::opaque]
pub open spec fn bitmap_at(bytes: Seq<u8>, at: int, entries: int) -> Result<
    (Set<u32>, int),
    CacheError,
> {
    match count_at(bytes, at, byte_limit(entries)) {
        Err(error) => Err(error),
        Ok((length, from)) => if length < 4 {
            Err(CacheError::HeaderTruncated)
        } else if from + 4 > bytes.len() {
            Err(CacheError::Truncated)
        } else if number_at(bytes, from) == ARRAY_COOKIE && length >= 8 {
            if from + 8 > bytes.len() {
                Err(CacheError::Truncated)
            } else {
                body_at(bytes, from, length, number_at(bytes, from + 4), entries)
            }
        } else if number_at(bytes, from) % 0x1_0000 == RUN_COOKIE {
            body_at(bytes, from, length, number_at(bytes, from) / 0x1_0000 + 1, entries)
        } else {
            Err(CacheError::InvalidCookie)
        },
    }
}

/// A key of a kind, and where what follows it begins. Extensions have their length before them.
pub open spec fn key_at(bytes: Seq<u8>, at: int, kind: u8) -> Result<(Seq<u8>, int), CacheError> {
    if kind == 3 {
        match count_at(bytes, at, MAX_EXTENSION_BYTES as int) {
            Err(error) => Err(error),
            Ok((length, from)) => if from + length > bytes.len() {
                Err(CacheError::Truncated)
            } else if !vstd::utf8::valid_utf8(bytes.subrange(from, from + length)) {
                Err(CacheError::NotText)
            } else {
                Ok((bytes.subrange(from, from + length), from + length))
            },
        }
    } else if at + kind > bytes.len() {
        Err(CacheError::Truncated)
    } else {
        Ok((bytes.subrange(at, at + kind), at + kind))
    }
}

/// So many keys with their slots, added to those seen before.
pub open spec fn keys_at(
    bytes: Seq<u8>,
    at: int,
    left: nat,
    kind: u8,
    entries: int,
    seen: Map<Seq<u8>, Set<u32>>,
) -> Result<(Map<Seq<u8>, Set<u32>>, int), CacheError>
    decreases left,
{
    if left == 0 {
        Ok((seen, at))
    } else {
        match key_at(bytes, at, kind) {
            Err(error) => Err(error),
            Ok((key, middle)) => if seen.dom().contains(key) {
                Err(CacheError::DuplicateKey)
            } else {
                match bitmap_at(bytes, middle, entries) {
                    Err(error) => Err(error),
                    Ok((slots, next)) => if slots == Set::<u32>::empty() {
                        Err(CacheError::EmptyPosting)
                    } else {
                        keys_at(
                            bytes,
                            next,
                            (left - 1) as nat,
                            kind,
                            entries,
                            seen.insert(key, slots),
                        )
                    },
                }
            },
        }
    }
}

/// As many keys as a map of a kind may have.
pub open spec fn key_limit(kind: u8, entries: int) -> int {
    if kind == 1 {
        0x100
    } else if kind == 2 {
        0x1_0000
    } else {
        entries
    }
}

/// The map of a kind, and where what follows it begins.
#[verifier::opaque]
pub open spec fn map_at(bytes: Seq<u8>, at: int, kind: u8, entries: int) -> Result<
    (Map<Seq<u8>, Set<u32>>, int),
    CacheError,
> {
    match count_at(bytes, at, key_limit(kind, entries)) {
        Err(error) => Err(error),
        Ok((count, from)) => keys_at(bytes, from, count as nat, kind, entries, Map::empty()),
    }
}

/// The postings that some bytes begin with, and where what follows them begins.
pub open spec fn postings_at(bytes: Seq<u8>, entries: int) -> Result<
    (PostingsView, int),
    CacheError,
> {
    match map_at(bytes, 0, 1, entries) {
        Err(error) => Err(error),
        Ok((name_bytes, second)) => match map_at(bytes, second, 2, entries) {
            Err(error) => Err(error),
            Ok((name_pairs, third)) => match map_at(bytes, third, 3, entries) {
                Err(error) => Err(error),
                Ok((extensions, fourth)) => match bitmap_at(bytes, fourth, entries) {
                    Err(error) => Err(error),
                    Ok((directories, fifth)) => match bitmap_at(bytes, fifth, entries) {
                        Err(error) => Err(error),
                        Ok((symlinks, end)) => Ok(
                            (
                                PostingsView {
                                    name_bytes,
                                    name_pairs,
                                    extensions,
                                    directories,
                                    symlinks,
                                },
                                end,
                            ),
                        ),
                    },
                },
            },
        },
    }
}

fn read_number(bytes: &[u8], at: usize) -> (number: u32)
    requires
        at + 4 <= bytes@.len(),
    ensures
        number == number_at(bytes@, at as int),
{
    bytes[at] as u32 + 0x100 * (bytes[at + 1] as u32) + 0x1_0000 * (bytes[at + 2] as u32)
        + 0x100_0000 * (bytes[at + 3] as u32)
}

fn read_count(bytes: &[u8], at: usize, limit: u64) -> (result: Result<(usize, usize), CacheError>)
    requires
        at <= bytes@.len(),
    ensures
        match result {
            Ok((count, next)) => count_at(bytes@, at as int, limit as int) == Ok::<
                (int, int),
                CacheError,
            >((count as int, next as int)) && next <= bytes@.len() && count <= u32::MAX,
            Err(error) => count_at(bytes@, at as int, limit as int) == Err::<
                (int, int),
                CacheError,
            >(error),
        },
{
    if bytes.len() - at < 4 {
        return Err(CacheError::Truncated);
    }
    let number = read_number(bytes, at);
    if number as u64 > limit {
        return Err(CacheError::CountExceedsLimit);
    }
    Ok((number as usize, at + 4))
}

fn containers_for(entries: usize) -> (limit: u64)
    ensures
        limit == container_limit(entries as int),
        limit <= 0x1_0000,
{
    let entries = entries as u64;
    if entries >= 0x1_0000_0000 {
        0x1_0000
    } else {
        (entries + 0xffff) / 0x1_0000
    }
}

fn bytes_for(entries: usize) -> (limit: u64)
    ensures
        limit == byte_limit(entries as int),
{
    let containers = containers_for(entries);
    8 + (containers + 7) / 8 + containers * CONTAINER_BYTES
}

fn read_body(bytes: &[u8], from: usize, length: usize, containers: u64, entries: usize) -> (result:
    Result<(RoaringBitmap, usize), CacheError>)
    requires
        from <= bytes@.len(),
    ensures
        match result {
            Ok((bitmap, next)) => body_at(
                bytes@,
                from as int,
                length as int,
                containers as int,
                entries as int,
            ) == Ok::<(Set<u32>, int), CacheError>((bitmaps::slots_in(bitmap), next as int))
                && next <= bytes@.len(),
            Err(error) => body_at(
                bytes@,
                from as int,
                length as int,
                containers as int,
                entries as int,
            ) == Err::<(Set<u32>, int), CacheError>(error),
        },
{
    if containers > containers_for(entries) {
        return Err(CacheError::ContainerCount);
    }
    let whole = length <= bytes.len() - from;
    let end = if whole {
        from + length
    } else {
        bytes.len()
    };
    match read_portable(slice_subrange(bytes, from, end)) {
        None => Err(CacheError::InvalidBitmap),
        Some((bitmap, rest)) => {
            let fits_in = match bitmap.max() {
                Some(slot) => (slot as usize) < entries,
                None => true,
            };
            if !whole || rest != 0 || !fits_in {
                return Err(CacheError::LengthOrSlot);
            }
            Ok((bitmap, end))
        },
    }
}

fn read_bitmap(bytes: &[u8], at: usize, entries: usize) -> (result: Result<
    (RoaringBitmap, usize),
    CacheError,
>)
    requires
        at <= bytes@.len(),
    ensures
        match result {
            Ok((bitmap, next)) => bitmap_at(bytes@, at as int, entries as int) == Ok::<
                (Set<u32>, int),
                CacheError,
            >((bitmaps::slots_in(bitmap), next as int)) && next <= bytes@.len(),
            Err(error) => bitmap_at(bytes@, at as int, entries as int) == Err::<
                (Set<u32>, int),
                CacheError,
            >(error),
        },
{
    reveal(bitmap_at);
    let (length, from) = match read_count(bytes, at, bytes_for(entries)) {
        Ok(found) => found,
        Err(error) => {
            return Err(error);
        },
    };
    if length < 4 {
        return Err(CacheError::HeaderTruncated);
    }
    if bytes.len() - from < 4 {
        return Err(CacheError::Truncated);
    }
    let cookie = read_number(bytes, from);
    if cookie == ARRAY_COOKIE && length >= 8 {
        if bytes.len() - from < 8 {
            return Err(CacheError::Truncated);
        }
        let containers = read_number(bytes, from + 4);
        read_body(bytes, from, length, containers as u64, entries)
    } else if cookie % 0x1_0000 == RUN_COOKIE {
        read_body(bytes, from, length, cookie as u64 / 0x1_0000 + 1, entries)
    } else {
        Err(CacheError::InvalidCookie)
    }
}

fn read_key(bytes: &[u8], at: usize, kind: u8) -> (result: Result<(Vec<u8>, usize), CacheError>)
    requires
        at <= bytes@.len(),
    ensures
        match result {
            Ok((key, next)) => key_at(bytes@, at as int, kind) == Ok::<(Seq<u8>, int), CacheError>(
                (key@, next as int),
            ) && next <= bytes@.len(),
            Err(error) => key_at(bytes@, at as int, kind) == Err::<(Seq<u8>, int), CacheError>(
                error,
            ),
        },
{
    if kind == 3 {
        let (length, from) = match read_count(bytes, at, MAX_EXTENSION_BYTES as u64) {
            Ok(found) => found,
            Err(error) => {
                return Err(error);
            },
        };
        if bytes.len() - from < length {
            return Err(CacheError::Truncated);
        }
        let key = slice_subrange(bytes, from, from + length);
        match decoded(key) {
            Some(found) => {
                proof {
                    vstd::utf8::encode_utf8_valid_utf8(found@);
                }
            },
            None => {
                return Err(CacheError::NotText);
            },
        }
        Ok((own_key(key), from + length))
    } else {
        let width = kind as usize;
        if bytes.len() - at < width {
            return Err(CacheError::Truncated);
        }
        Ok((own_key(slice_subrange(bytes, at, at + width)), at + width))
    }
}

fn read_map(bytes: &[u8], at: usize, kind: u8, limit: u64, entries: usize) -> (result: Result<
    (PostingMap, usize),
    CacheError,
>)
    requires
        at <= bytes@.len(),
        limit == key_limit(kind, entries as int),
    ensures
        match result {
            Ok((map, next)) => map.wf() && map_at(bytes@, at as int, kind, entries as int) == Ok::<
                (Map<Seq<u8>, Set<u32>>, int),
                CacheError,
            >((map@, next as int)) && next <= bytes@.len(),
            Err(error) => map_at(bytes@, at as int, kind, entries as int) == Err::<
                (Map<Seq<u8>, Set<u32>>, int),
                CacheError,
            >(error),
        },
{
    reveal(map_at);
    let (count, from) = match read_count(bytes, at, limit) {
        Ok(found) => found,
        Err(error) => {
            return Err(error);
        },
    };
    let mut map = PostingMap::new(kind);
    let mut left: usize = count;
    let mut next: usize = from;
    while left > 0
        invariant
            next <= bytes@.len(),
            map.wf(),
            keys_at(bytes@, next as int, left as nat, kind, entries as int, map@) == map_at(
                bytes@,
                at as int,
                kind,
                entries as int,
            ),
        decreases left,
    {
        let (key, middle) = match read_key(bytes, next, kind) {
            Ok(found) => found,
            Err(error) => {
                return Err(error);
            },
        };
        if map.get(key.as_slice()).is_some() {
            return Err(CacheError::DuplicateKey);
        }
        let (bitmap, end) = match read_bitmap(bytes, middle, entries) {
            Ok(found) => found,
            Err(error) => {
                return Err(error);
            },
        };
        if bitmap.is_empty() {
            return Err(CacheError::EmptyPosting);
        }
        map.insert(key.as_slice(), Arc::new(bitmap));
        next = end;
        left = left - 1;
    }
    Ok((map, next))
}

impl MetadataPostings {
    /// Read postings from the start of some bytes, for so many entries; the second number says
    /// where what follows them begins.
    pub fn read_from(bytes: &[u8], entries: usize) -> (result: Result<(Self, usize), CacheError>)
        ensures
            match result {
                Ok((postings, next)) => postings.wf() && postings_at(bytes@, entries as int) == Ok::<
                    (PostingsView, int),
                    CacheError,
                >((postings@, next as int)) && next <= bytes@.len(),
                Err(error) => postings_at(bytes@, entries as int) == Err::<
                    (PostingsView, int),
                    CacheError,
                >(error),
            },
    {
        let (name_bytes, second) = match read_map(bytes, 0, 1, 0x100, entries) {
            Ok(found) => found,
            Err(error) => {
                return Err(error);
            },
        };
        let (name_pairs, third) = match read_map(bytes, second, 2, 0x1_0000, entries) {
            Ok(found) => found,
            Err(error) => {
                return Err(error);
            },
        };
        let (extensions, fourth) = match read_map(bytes, third, 3, entries as u64, entries) {
            Ok(found) => found,
            Err(error) => {
                return Err(error);
            },
        };
        let (directories, fifth) = match read_bitmap(bytes, fourth, entries) {
            Ok(found) => found,
            Err(error) => {
                return Err(error);
            },
        };
        let (symlinks, end) = match read_bitmap(bytes, fifth, entries) {
            Ok(found) => found,
            Err(error) => {
                return Err(error);
            },
        };
        let postings = MetadataPostings {
            name_bytes,
            name_pairs,
            extensions,
            directories: Arc::new(directories),
            symlinks: Arc::new(symlinks),
        };
        Ok((postings, end))
    }
}

/// How a key of a kind is written.
pub open spec fn key_bytes(kind: u8, key: Seq<u8>) -> Seq<u8> {
    if kind == 3 {
        number_bytes(key.len() as int) + key
    } else {
        key
    }
}

/// A key as it is written, with the bytes of its bitmap and the slots.
pub type WrittenKey = (Seq<u8>, Seq<u8>, Set<u32>);

/// How a bitmap is written.
pub open spec fn bitmap_bytes(body: Seq<u8>) -> Seq<u8> {
    number_bytes(body.len() as int) + body
}

/// How a key with its slots is written.
pub open spec fn entry_bytes(kind: u8, entry: WrittenKey) -> Seq<u8> {
    key_bytes(kind, entry.0) + bitmap_bytes(entry.1)
}

/// How keys with their slots are written.
pub open spec fn entries_bytes(kind: u8, list: Seq<WrittenKey>) -> Seq<u8>
    decreases list.len(),
{
    if list.len() == 0 {
        Seq::empty()
    } else {
        entry_bytes(kind, list[0]) + entries_bytes(kind, list.drop_first())
    }
}

/// The bytes of a bitmap of some slots, few enough for a number.
pub open spec fn body_of(body: Seq<u8>, slots: Set<u32>) -> bool {
    &&& portable(body, slots)
    &&& body.len() <= u32::MAX
    &&& forall|bound: int| #[trigger] below(slots, bound) ==> body.len() <= byte_limit(bound)
}

/// Some keys with their slots are those of a map, each once.
pub open spec fn lists_map(list: Seq<WrittenKey>, map: Map<Seq<u8>, Set<u32>>) -> bool {
    &&& forall|i: int|
        0 <= i < list.len() ==> body_of((#[trigger] list[i]).1, list[i].2) && map.dom().contains(
            list[i].0,
        ) && map[list[i].0] == list[i].2
    &&& forall|i: int, j: int|
        0 <= i < j < list.len() ==> (#[trigger] list[i]).0 != (#[trigger] list[j]).0
    &&& forall|key: Seq<u8>| #[trigger]
        map.dom().contains(key) ==> exists|i: int|
            0 <= i < list.len() && (#[trigger] list[i]).0 == key
}

proof fn lemma_number(number: int)
    requires
        0 <= number <= u32::MAX,
    ensures
        number_at(number_bytes(number), 0) == number,
        number_bytes(number).len() == 4,
{
}

proof fn lemma_number_within(bytes: Seq<u8>, at: int, number: int)
    requires
        0 <= at,
        at + 4 <= bytes.len(),
        bytes.subrange(at, at + 4) == number_bytes(number),
        0 <= number <= u32::MAX,
    ensures
        number_at(bytes, at) == number,
{
    lemma_number(number);
    let part = bytes.subrange(at, at + 4);
    assert(part[0] == bytes[at]);
    assert(part[1] == bytes[at + 1]);
    assert(part[2] == bytes[at + 2]);
    assert(part[3] == bytes[at + 3]);
}

/// A bitmap that was written is read.
proof fn lemma_bitmap_read(bytes: Seq<u8>, at: int, body: Seq<u8>, slots: Set<u32>, entries: int)
    requires
        0 <= at,
        at + 4 + body.len() <= bytes.len(),
        bytes.subrange(at, at + 4 + body.len()) == bitmap_bytes(body),
        body_of(body, slots),
        below(slots, entries),
    ensures
        bitmap_at(bytes, at, entries) == Ok::<(Set<u32>, int), CacheError>(
            (slots, at + 4 + body.len()),
        ),
{
    reveal(bitmap_at);
    let (from, end) = (at + 4, at + 4 + body.len());
    let piece = bitmap_bytes(body);
    assert(bytes.subrange(at, from) =~= piece.subrange(0, 4));
    assert(piece.subrange(0, 4) =~= number_bytes(body.len() as int));
    lemma_number_within(bytes, at, body.len() as int);
    assert(bytes.subrange(from, end) =~= piece.subrange(4, piece.len() as int));
    assert(piece.subrange(4, piece.len() as int) =~= body);
    let part = bytes.subrange(from, end);
    assert(part == body);
    assert forall|i: int| 0 <= i < body.len() implies #[trigger] bytes[from + i] == body[i] by {
        assert(part[i] == bytes[from + i]);
    }
    assert(bytes[from] == body[0] && bytes[from + 1] == body[1] && bytes[from + 2] == body[2]
        && bytes[from + 3] == body[3]) by {
        assert(bytes[from + 0] == body[0]);
    }
    assert(number_at(bytes, from) == number_at(body, 0));
    if body.len() >= 8 {
        assert(bytes[from + 4] == body[4] && bytes[from + 5] == body[5] && bytes[from + 6]
            == body[6] && bytes[from + 7] == body[7]);
        assert(number_at(bytes, from + 4) == number_at(body, 4));
    }
    let containers = header_containers(body)->0;
    assert(body_at(bytes, from, body.len() as int, containers, entries) == Ok::<
        (Set<u32>, int),
        CacheError,
    >((slots, end)));
}

/// A key that was written is read.
proof fn lemma_key_read(bytes: Seq<u8>, at: int, kind: u8, key: Seq<u8>)
    requires
        0 <= at,
        at + key_bytes(kind, key).len() <= bytes.len(),
        bytes.subrange(at, at + key_bytes(kind, key).len()) == key_bytes(kind, key),
        metadata_postings::fits_kind(kind, key),
    ensures
        key_at(bytes, at, kind) == Ok::<(Seq<u8>, int), CacheError>(
            (key, at + key_bytes(kind, key).len()),
        ),
{
    let piece = key_bytes(kind, key);
    let end = at + piece.len();
    if kind == 3 {
        assert(bytes.subrange(at, at + 4) =~= piece.subrange(0, 4));
        assert(piece.subrange(0, 4) =~= number_bytes(key.len() as int));
        lemma_number_within(bytes, at, key.len() as int);
        assert(bytes.subrange(at + 4, end) =~= piece.subrange(4, piece.len() as int));
        assert(piece.subrange(4, piece.len() as int) =~= key);
    }
}

/// Keys with their slots, put into a map one after the other.
pub open spec fn with_all(
    seen: Map<Seq<u8>, Set<u32>>,
    list: Seq<WrittenKey>,
) -> Map<Seq<u8>, Set<u32>>
    decreases list.len(),
{
    if list.len() == 0 {
        seen
    } else {
        with_all(seen.insert(list[0].0, list[0].2), list.drop_first())
    }
}

/// A key with its slots that can be read back.
pub open spec fn readable(entry: WrittenKey, kind: u8, entries: int) -> bool {
    &&& metadata_postings::fits_kind(kind, entry.0)
    &&& body_of(entry.1, entry.2)
    &&& below(entry.2, entries)
    &&& entry.2 != Set::<u32>::empty()
}

/// Keys that were written are read.
proof fn lemma_keys_read(
    bytes: Seq<u8>,
    at: int,
    kind: u8,
    list: Seq<WrittenKey>,
    entries: int,
    seen: Map<Seq<u8>, Set<u32>>,
)
    requires
        0 <= at,
        at + entries_bytes(kind, list).len() <= bytes.len(),
        bytes.subrange(at, at + entries_bytes(kind, list).len()) == entries_bytes(kind, list),
        forall|i: int| 0 <= i < list.len() ==> readable(#[trigger] list[i], kind, entries),
        forall|i: int, j: int|
            0 <= i < j < list.len() ==> (#[trigger] list[i]).0 != (#[trigger] list[j]).0,
        forall|i: int| 0 <= i < list.len() ==> !seen.dom().contains((#[trigger] list[i]).0),
    ensures
        keys_at(bytes, at, list.len(), kind, entries, seen) == Ok::<
            (Map<Seq<u8>, Set<u32>>, int),
            CacheError,
        >((with_all(seen, list), at + entries_bytes(kind, list).len())),
    decreases list.len(),
{
    if list.len() > 0 {
        let first = list[0];
        let rest = list.drop_first();
        assert(readable(first, kind, entries));
        let (key, body) = (key_bytes(kind, first.0), bitmap_bytes(first.1));
        let all = entries_bytes(kind, list);
        let tail = entries_bytes(kind, rest);
        assert(all == key + body + tail);
        let (one, two) = (key.len() as int, key.len() + body.len() as int);
        let (middle, next) = (at + one, at + two);
        let whole = bytes.subrange(at, at + all.len());
        assert(bytes.subrange(at, middle) =~= whole.subrange(0, one));
        assert(whole.subrange(0, one) =~= key);
        assert(bytes.subrange(middle, next) =~= whole.subrange(one, two));
        assert(whole.subrange(one, two) =~= body);
        assert(bytes.subrange(next, next + tail.len()) =~= whole.subrange(two, all.len() as int));
        assert(whole.subrange(two, all.len() as int) =~= tail);
        lemma_key_read(bytes, at, kind, first.0);
        lemma_number(first.1.len() as int);
        lemma_bitmap_read(bytes, middle, first.1, first.2, entries);
        let more = seen.insert(first.0, first.2);
        assert forall|i: int| 0 <= i < rest.len() implies readable(#[trigger] rest[i], kind, entries)
            && !more.dom().contains(rest[i].0) by {
            assert(rest[i] == list[i + 1]);
            assert(list[0].0 != list[i + 1].0);
        }
        assert forall|i: int, j: int| 0 <= i < j < rest.len() implies (#[trigger] rest[i]).0 != (
        #[trigger] rest[j]).0 by {
            assert(rest[i] == list[i + 1]);
            assert(rest[j] == list[j + 1]);
        }
        lemma_keys_read(bytes, next, kind, rest, entries, more);
    }
}

/// Different keys, put into a map, are what they were before and what the map held.
proof fn lemma_with_all(seen: Map<Seq<u8>, Set<u32>>, list: Seq<WrittenKey>)
    requires
        forall|i: int, j: int|
            0 <= i < j < list.len() ==> (#[trigger] list[i]).0 != (#[trigger] list[j]).0,
    ensures
        forall|i: int|
            0 <= i < list.len() ==> with_all(seen, list).dom().contains((#[trigger] list[i]).0)
                && with_all(seen, list)[list[i].0] == list[i].2,
        forall|key: Seq<u8>|
            (forall|i: int| 0 <= i < list.len() ==> (#[trigger] list[i]).0 != key) ==> (
            #[trigger] with_all(seen, list).dom().contains(key) == seen.dom().contains(key)) && (
            seen.dom().contains(key) ==> with_all(seen, list)[key] == seen[key]),
    decreases list.len(),
{
    if list.len() > 0 {
        let first = list[0];
        let rest = list.drop_first();
        let more = seen.insert(first.0, first.2);
        assert forall|i: int, j: int| 0 <= i < j < rest.len() implies (#[trigger] rest[i]).0 != (
        #[trigger] rest[j]).0 by {
            assert(rest[i] == list[i + 1]);
            assert(rest[j] == list[j + 1]);
        }
        lemma_with_all(more, rest);
        let all = with_all(seen, list);
        assert(all == with_all(more, rest));
        assert forall|i: int| 0 <= i < list.len() implies all.dom().contains((#[trigger] list[i]).0)
            && all[list[i].0] == list[i].2 by {
            if i > 0 {
                assert(rest[i - 1] == list[i]);
            } else {
                assert forall|k: int| 0 <= k < rest.len() implies (#[trigger] rest[k]).0 != first.0 by {
                    assert(rest[k] == list[k + 1]);
                    assert(list[0].0 != list[k + 1].0);
                }
                assert(with_all(more, rest).dom().contains(first.0) == more.dom().contains(
                    first.0,
                ));
            }
        }
        assert forall|key: Seq<u8>|
            (forall|i: int| 0 <= i < list.len() ==> (#[trigger] list[i]).0 != key) implies (
        #[trigger] all.dom().contains(key) == seen.dom().contains(key)) && (seen.dom().contains(key)
            ==> all[key] == seen[key]) by {
            assert(list[0].0 != key);
            assert forall|k: int| 0 <= k < rest.len() implies (#[trigger] rest[k]).0 != key by {
                assert(rest[k] == list[k + 1]);
            }
        }
    }
}

proof fn lemma_listed_map(list: Seq<WrittenKey>, map: Map<Seq<u8>, Set<u32>>)
    requires
        lists_map(list, map),
    ensures
        with_all(Map::empty(), list) == map,
{
    lemma_with_all(Map::empty(), list);
    let all = with_all(Map::empty(), list);
    assert forall|key: Seq<u8>| #[trigger] all.dom().contains(key) == map.dom().contains(key) by {
        if map.dom().contains(key) {
            let i = choose|i: int| 0 <= i < list.len() && (#[trigger] list[i]).0 == key;
            assert(all.dom().contains(list[i].0));
        } else {
            assert forall|i: int| 0 <= i < list.len() implies (#[trigger] list[i]).0 != key by {}
        }
    }
    assert forall|key: Seq<u8>| #[trigger] all.dom().contains(key) implies all[key] == map[key] by {
        let i = choose|i: int| 0 <= i < list.len() && (#[trigger] list[i]).0 == key;
        assert(all[list[i].0] == list[i].2);
    }
    assert(all =~= map);
}

fn widened(key: &[u8]) -> (wide: Vec<u16>)
    ensures
        wide@.len() == key@.len(),
        forall|i: int| 0 <= i < key@.len() ==> #[trigger] wide@[i] == key@[i],
{
    let mut wide: Vec<u16> = Vec::new();
    let mut next: usize = 0;
    while next < key.len()
        invariant
            next <= key@.len(),
            wide@.len() == next,
            forall|i: int| 0 <= i < next ==> #[trigger] wide@[i] == key@[i],
        decreases key@.len() - next,
    {
        wide.push(key[next] as u16);
        next = next + 1;
    }
    wide
}

/// Numbers that stand for bytes are in the order of the bytes.
proof fn lemma_widened(a: Seq<int>, b: Seq<int>, x: Seq<u8>, y: Seq<u8>)
    requires
        a.len() == x.len(),
        b.len() == y.len(),
        forall|i: int| 0 <= i < a.len() ==> #[trigger] a[i] == x[i],
        forall|i: int| 0 <= i < b.len() ==> #[trigger] b[i] == y[i],
        lexicographic::lexicographic(a, b) == Ordering::Less,
    ensures
        text_order::bytes_before(x, y),
    decreases a.len(),
{
    if a.len() > 0 && b.len() > 0 && a[0] == b[0] {
        lemma_widened(a.drop_first(), b.drop_first(), x.drop_first(), y.drop_first());
    }
}

fn short_count(list: &Vec<Posting>) -> (count: u32)
    requires
        list@.len() <= u32::MAX,
    ensures
        count == list@.len(),
{
    list.len() as u32
}

/// The places of postings in the order of their keys.
fn key_places(list: &Vec<Posting>) -> (places: Vec<u32>)
    requires
        posting_map::distinct_keys(list@),
        list@.len() <= u32::MAX,
    ensures
        key_order::every_place_once(places@, list@.len()),
        forall|place: u32| place < list@.len() ==> #[trigger] places@.contains(place),
        forall|i: int, j: int|
            0 <= i < j < places@.len() ==> text_order::bytes_before(
                list@[#[trigger] places@[i] + 0].key@,
                list@[#[trigger] places@[j] + 0].key@,
            ),
{
    let mut keys: Vec<Vec<u16>> = Vec::new();
    let mut next: usize = 0;
    while next < list.len()
        invariant
            next <= list@.len(),
            keys@.len() == next,
            forall|k: int|
                0 <= k < next ==> (#[trigger] keys@[k])@.len() == list@[k].key@.len() && forall|
                    i: int,
                |
                    0 <= i < list@[k].key@.len() ==> #[trigger] keys@[k]@[i] == list@[k].key@[i],
        decreases list@.len() - next,
    {
        keys.push(widened(list[next].key.as_slice()));
        next = next + 1;
    }
    let places = sorted_places(&keys, short_count(list));
    proof {
        assert forall|i: int, j: int| 0 <= i < j < places@.len() implies text_order::bytes_before(
            list@[#[trigger] places@[i] + 0].key@,
            list@[#[trigger] places@[j] + 0].key@,
        ) by {
            let (p, q) = (places@[i] + 0, places@[j] + 0);
            let (a, b) = (key_order::numbers(keys@[p]@), key_order::numbers(keys@[q]@));
            assert(places@[i] != places@[j]);
            assert(a == key_order::key_at(keys@, places@[i]));
            assert(b == key_order::key_at(keys@, places@[j]));
            assert forall|k: int| 0 <= k < a.len() implies #[trigger] a[k] == list@[p].key@[k] by {
                assert(keys@[p]@[k] == list@[p].key@[k]);
            }
            assert forall|k: int| 0 <= k < b.len() implies #[trigger] b[k] == list@[q].key@[k] by {
                assert(keys@[q]@[k] == list@[q].key@[k]);
            }
            lexicographic::lemma_lexicographic_opposite(a, b);
            if a == b {
                assert forall|k: int| 0 <= k < a.len() implies list@[p].key@[k] == list@[q].key@[k] by {
                    assert(a[k] == b[k]);
                }
                assert(list@[p].key@ =~= list@[q].key@);
            }
            lemma_widened(a, b, list@[p].key@, list@[q].key@);
        }
    }
    places
}

/// Keys are in the order of their bytes.
pub open spec fn in_key_order(list: Seq<WrittenKey>) -> bool {
    forall|i: int, j: int|
        0 <= i < j < list.len() ==> text_order::bytes_before(
            (#[trigger] list[i]).0,
            (#[trigger] list[j]).0,
        )
}

/// There are no more keys of one byte than bytes.
proof fn lemma_few_bytes(list: Seq<WrittenKey>, end: int)
    requires
        in_key_order(list),
        forall|i: int| 0 <= i < list.len() ==> (#[trigger] list[i]).0.len() == 1,
        0 <= end < list.len(),
    ensures
        end <= list[end].0[0],
    decreases end,
{
    if end > 0 {
        lemma_few_bytes(list, end - 1);
        assert(text_order::bytes_before(list[end - 1].0, list[end].0));
        reveal_with_fuel(text_order::bytes_before, 2);
    }
}

/// There are no more keys of two bytes than pairs of bytes.
proof fn lemma_few_pairs(list: Seq<WrittenKey>, end: int)
    requires
        in_key_order(list),
        forall|i: int| 0 <= i < list.len() ==> (#[trigger] list[i]).0.len() == 2,
        0 <= end < list.len(),
    ensures
        end <= 0x100 * list[end].0[0] + list[end].0[1],
    decreases end,
{
    if end > 0 {
        lemma_few_pairs(list, end - 1);
        assert(text_order::bytes_before(list[end - 1].0, list[end].0));
        reveal_with_fuel(text_order::bytes_before, 3);
    }
}

fn push_number(out: &mut Vec<u8>, number: u32)
    ensures
        final(out)@ == old(out)@ + number_bytes(number as int),
{
    let ghost before = out@;
    out.push((number % 0x100) as u8);
    out.push((number / 0x100 % 0x100) as u8);
    out.push((number / 0x1_0000 % 0x100) as u8);
    out.push((number / 0x100_0000 % 0x100) as u8);
    assert(out@ =~= before + number_bytes(number as int));
}

/// No bound on slots keeps their bitmap short enough for a number.
pub open spec fn oversized(slots: Set<u32>) -> bool {
    forall|bound: int| #[trigger] below(slots, bound) ==> byte_limit(bound) > u32::MAX
}

/// A bitmap takes more bytes than a number can tell.
pub open spec fn too_large(bitmap: RoaringBitmap) -> bool {
    portable_encoding(bitmap).len() > u32::MAX
}

/// Write a bitmap; the bytes of the bitmap itself are handed back.
fn write_bitmap(out: &mut Vec<u8>, bitmap: &RoaringBitmap) -> (result: Result<
    Ghost<Seq<u8>>,
    CacheError,
>)
    ensures
        match result {
            Ok(body) => final(out)@ == old(out)@ + bitmap_bytes(body@) && body_of(
                body@,
                bitmaps::slots_in(*bitmap),
            ) && body@ == portable_encoding(*bitmap),
            Err(error) => error == CacheError::CountTooLarge && oversized(
                bitmaps::slots_in(*bitmap),
            ) && too_large(*bitmap),
        },
{
    let size = bitmap.serialized_size();
    if size as u64 > u32::MAX as u64 {
        return Err(CacheError::CountTooLarge);
    }
    let ghost before = out@;
    push_number(out, size as u32);
    let bytes = portable_bytes(bitmap);
    out.extend_from_slice(bytes.as_slice());
    assert(out@ =~= before + bitmap_bytes(bytes@));
    Ok(Ghost(bytes@))
}

proof fn lemma_entries_push(kind: u8, list: Seq<WrittenKey>, entry: WrittenKey)
    ensures
        entries_bytes(kind, list.push(entry)) == entries_bytes(kind, list) + entry_bytes(
            kind,
            entry,
        ),
    decreases list.len(),
{
    let more = list.push(entry);
    if list.len() == 0 {
        assert(more.drop_first() =~= list);
        assert(entries_bytes(kind, more.drop_first()) =~= Seq::<u8>::empty());
        assert(entries_bytes(kind, more) =~= entry_bytes(kind, entry));
        assert(entries_bytes(kind, list) + entry_bytes(kind, entry) =~= entry_bytes(kind, entry));
    } else {
        assert(more.drop_first() =~= list.drop_first().push(entry));
        assert(more[0] == list[0]);
        lemma_entries_push(kind, list.drop_first(), entry);
        assert(entries_bytes(kind, more) =~= entries_bytes(kind, list) + entry_bytes(kind, entry));
    }
}

/// How a map is written.
#[verifier::opaque]
pub open spec fn map_bytes(kind: u8, list: Seq<WrittenKey>) -> Seq<u8> {
    number_bytes(list.len() as int) + entries_bytes(kind, list)
}

/// Some keys are those of a map, in their order, and no more and no longer than can be written.
pub open spec fn orders_map(kind: u8, list: Seq<WrittenKey>, map: Map<Seq<u8>, Set<u32>>) -> bool {
    &&& lists_map(list, map)
    &&& in_key_order(list)
    &&& list.len() <= u32::MAX
    &&& forall|i: int|
        kind == 3 && 0 <= i < list.len() ==> (#[trigger] list[i]).0.len() <= MAX_EXTENSION_BYTES
}

/// Why a map cannot be written.
pub open spec fn refuses_map(error: CacheError, kind: u8, map: Map<Seq<u8>, Set<u32>>) -> bool {
    ||| error == CacheError::ExtensionTooLong && kind == 3 && exists|key: Seq<u8>| #[trigger]
        map.dom().contains(key) && key.len() > MAX_EXTENSION_BYTES
    ||| error == CacheError::CountTooLarge && map.dom().len() > u32::MAX
    ||| error == CacheError::CountTooLarge && exists|key: Seq<u8>| #[trigger]
        map.dom().contains(key) && oversized(map[key])
}

/// What of a map as it is kept cannot be written.
pub open spec fn overflows_map(error: CacheError, kind: u8, map: PostingMap) -> bool {
    ||| error == CacheError::ExtensionTooLong && kind == 3 && exists|key: Seq<u8>| #[trigger]
        map@.dom().contains(key) && key.len() > MAX_EXTENSION_BYTES
    ||| error == CacheError::CountTooLarge && map@.dom().len() > u32::MAX
    ||| error == CacheError::CountTooLarge && exists|key: Seq<u8>| #[trigger]
        map@.dom().contains(key) && too_large(map.bitmap_of(key))
}

/// Each key is written with the bytes of the bitmap that is kept for it.
pub open spec fn encodes_map(list: Seq<WrittenKey>, map: PostingMap) -> bool {
    forall|i: int|
        0 <= i < list.len() ==> (#[trigger] list[i]).1 == portable_encoding(
            map.bitmap_of(list[i].0),
        )
}

/// There are as many different postings as keys.
proof fn lemma_key_count(list: Seq<Posting>)
    requires
        posting_map::distinct_keys(list),
    ensures
        posting_map::table(list).dom().len() == list.len(),
{
    let keys = list.map_values(|posting: Posting| posting.key@);
    assert(keys.no_duplicates()) by {
        assert forall|i: int, j: int| 0 <= i < keys.len() && 0 <= j < keys.len() && i != j implies keys[i]
            != keys[j] by {
            assert(keys[i] == list[i].key@);
            assert(keys[j] == list[j].key@);
        }
    }
    keys.unique_seq_to_set();
    let all = posting_map::table(list).dom();
    assert forall|key: Seq<u8>| #[trigger] all.contains(key) == keys.to_set().contains(key) by {
        if posting_map::holds_key(list, key) {
            let i = choose|i: int| 0 <= i < list.len() && (#[trigger] list[i]).key@ == key;
            assert(keys[i] == key);
        }
        if keys.contains(key) {
            let i = choose|i: int| 0 <= i < keys.len() && keys[i] == key;
            assert(list[i].key@ == key);
        }
    }
    assert(all =~= keys.to_set());
}

fn write_key(out: &mut Vec<u8>, kind: u8, key: &Vec<u8>) -> (done: bool)
    ensures
        done == (kind != 3 || key@.len() <= MAX_EXTENSION_BYTES),
        done ==> final(out)@ == old(out)@ + key_bytes(kind, key@),
{
    let ghost before = out@;
    if kind == 3 {
        if key.len() > MAX_EXTENSION_BYTES {
            return false;
        }
        push_number(out, key.len() as u32);
    }
    out.extend_from_slice(key.as_slice());
    assert(out@ =~= before + key_bytes(kind, key@));
    true
}

/// Write a map; the keys as they were written are handed back.
fn write_map(out: &mut Vec<u8>, kind: u8, map: &PostingMap) -> (result: Result<
    Ghost<Seq<WrittenKey>>,
    CacheError,
>)
    requires
        map.wf(),
    ensures
        match result {
            Ok(list) => final(out)@ == old(out)@ + map_bytes(kind, list@) && orders_map(
                kind,
                list@,
                map@,
            ) && encodes_map(list@, *map),
            Err(error) => refuses_map(error, kind, map@) && overflows_map(error, kind, *map),
        },
{
    let postings = map.postings();
    proof {
        lemma_key_count(postings@);
    }
    if postings.len() as u64 > u32::MAX as u64 {
        return Err(CacheError::CountTooLarge);
    }
    let ghost start = out@;
    push_number(out, postings.len() as u32);
    let places = key_places(&postings);
    let ghost mut list: Seq<WrittenKey> = Seq::empty();
    let mut next: usize = 0;
    assert(out@ =~= start + number_bytes(places@.len() as int) + entries_bytes(kind, list));
    while next < places.len()
        invariant
            next <= places@.len(),
            posting_map::distinct_keys(postings@),
            posting_map::table(postings@) == map@,
            forall|i: int|
                0 <= i < postings@.len() ==> *(#[trigger] postings@[i]).slots == map.bitmap_of(
                    postings@[i].key@,
                ),
            key_order::every_place_once(places@, postings@.len()),
            out@ == start + number_bytes(places@.len() as int) + entries_bytes(kind, list),
            list.len() == next,
            forall|i: int|
                0 <= i < next ==> {
                    let posting = postings@[places@[i] as int];
                    &&& (#[trigger] list[i]).0 == posting.key@
                    &&& list[i].2 == posting_map::shared_slots(posting.slots)
                    &&& body_of(list[i].1, list[i].2)
                    &&& list[i].1 == portable_encoding(map.bitmap_of(list[i].0))
                    &&& kind == 3 ==> list[i].0.len() <= MAX_EXTENSION_BYTES
                },
        decreases places@.len() - next,
    {
        let place = places[next] as usize;
        let posting = &postings[place];
        proof {
            posting_map::lemma_place(postings@, place as int);
        }
        if !write_key(out, kind, &posting.key) {
            assert(map@.dom().contains(posting.key@));
            return Err(CacheError::ExtensionTooLong);
        }
        match write_bitmap(out, &posting.slots) {
            Ok(body) => {
                proof {
                    let slots = posting_map::shared_slots(posting.slots);
                    let entry: WrittenKey = (posting.key@, body@, slots);
                    lemma_entries_push(kind, list, entry);
                    let all = start + number_bytes(places@.len() as int);
                    assert(out@ =~= all + entries_bytes(kind, list) + entry_bytes(kind, entry));
                    assert(out@ =~= all + entries_bytes(kind, list.push(entry)));
                    list = list.push(entry);
                }
            },
            Err(error) => {
                assert(map@.dom().contains(posting.key@));
                return Err(error);
            },
        }
        next = next + 1;
    }
    proof {
        assert forall|i: int| 0 <= i < list.len() implies body_of((#[trigger] list[i]).1, list[i].2)
            && map@.dom().contains(list[i].0) && map@[list[i].0] == list[i].2 by {
            posting_map::lemma_place(postings@, places@[i] as int);
        }
        assert forall|i: int, j: int| 0 <= i < j < list.len() implies (#[trigger] list[i]).0 != (
        #[trigger] list[j]).0 by {
            assert(places@[i] != places@[j]);
        }
        assert forall|key: Seq<u8>| #[trigger] map@.dom().contains(key) implies exists|i: int|
            0 <= i < list.len() && (#[trigger] list[i]).0 == key by {
            let k = choose|k: int| 0 <= k < postings@.len() && (#[trigger] postings@[k]).key@ == key;
            assert(places@.contains(k as u32));
            let i = choose|i: int| 0 <= i < places@.len() && places@[i] == k as u32;
            assert(list[i].0 == key);
        }
        assert forall|i: int, j: int| 0 <= i < j < list.len() implies text_order::bytes_before(
            (#[trigger] list[i]).0,
            (#[trigger] list[j]).0,
        ) by {
            assert(text_order::bytes_before(
                postings@[places@[i] + 0].key@,
                postings@[places@[j] + 0].key@,
            ));
        }
        reveal(map_bytes);
        assert(out@ =~= start + map_bytes(kind, list));
    }
    Ok(Ghost(list))
}

/// Postings as they are written: the keys of each map, and the bytes of the two bitmaps.
pub struct WrittenPostings {
    pub name_bytes: Seq<WrittenKey>,
    pub name_pairs: Seq<WrittenKey>,
    pub extensions: Seq<WrittenKey>,
    pub directories: Seq<u8>,
    pub symlinks: Seq<u8>,
}

/// Some bytes are postings written in one way.
pub open spec fn written_as(bytes: Seq<u8>, view: PostingsView, parts: WrittenPostings) -> bool {
    &&& orders_map(1, parts.name_bytes, view.name_bytes)
    &&& orders_map(2, parts.name_pairs, view.name_pairs)
    &&& orders_map(3, parts.extensions, view.extensions)
    &&& body_of(parts.directories, view.directories)
    &&& body_of(parts.symlinks, view.symlinks)
    &&& bytes == map_bytes(1, parts.name_bytes) + map_bytes(2, parts.name_pairs) + map_bytes(
        3,
        parts.extensions,
    ) + bitmap_bytes(parts.directories) + bitmap_bytes(parts.symlinks)
}

/// Some bytes are some postings.
pub open spec fn written(bytes: Seq<u8>, view: PostingsView) -> bool {
    exists|parts: WrittenPostings| written_as(bytes, view, parts)
}

/// Some bytes are some postings, each bitmap in its own bytes.
pub open spec fn written_by(bytes: Seq<u8>, postings: MetadataPostings) -> bool {
    exists|parts: WrittenPostings| #[trigger]
        written_as(bytes, postings@, parts) && encodes(parts, postings)
}

/// Keys and bitmaps are written with the bytes of the bitmaps as they are kept.
pub open spec fn encodes(parts: WrittenPostings, postings: MetadataPostings) -> bool {
    &&& encodes_map(parts.name_bytes, postings.name_bytes)
    &&& encodes_map(parts.name_pairs, postings.name_pairs)
    &&& encodes_map(parts.extensions, postings.extensions)
    &&& parts.directories == portable_encoding(*postings.directories)
    &&& parts.symlinks == portable_encoding(*postings.symlinks)
}

/// What of postings as they are kept cannot be written.
pub open spec fn overflows(error: CacheError, postings: MetadataPostings) -> bool {
    ||| overflows_map(error, 1, postings.name_bytes)
    ||| overflows_map(error, 2, postings.name_pairs)
    ||| overflows_map(error, 3, postings.extensions)
    ||| error == CacheError::CountTooLarge && (too_large(*postings.directories) || too_large(
        *postings.symlinks,
    ))
}

/// Why postings cannot be written.
pub open spec fn refuses(error: CacheError, view: PostingsView) -> bool {
    ||| refuses_map(error, 1, view.name_bytes)
    ||| refuses_map(error, 2, view.name_pairs)
    ||| refuses_map(error, 3, view.extensions)
    ||| error == CacheError::CountTooLarge && (oversized(view.directories) || oversized(
        view.symlinks,
    ))
}

impl MetadataPostings {
    /// Write postings. They are refused only where an extension is too long, or a number of keys
    /// or bytes is too large.
    pub fn write_to(&self) -> (result: Result<Vec<u8>, CacheError>)
        requires
            self.wf(),
        ensures
            match result {
                Ok(bytes) => written(bytes@, self@) && written_by(bytes@, *self),
                Err(error) => refuses(error, self@) && overflows(error, *self),
            },
    {
        let mut out: Vec<u8> = Vec::new();
        let name_bytes = match write_map(&mut out, 1, &self.name_bytes) {
            Ok(list) => list,
            Err(error) => {
                return Err(error);
            },
        };
        let name_pairs = match write_map(&mut out, 2, &self.name_pairs) {
            Ok(list) => list,
            Err(error) => {
                return Err(error);
            },
        };
        let extensions = match write_map(&mut out, 3, &self.extensions) {
            Ok(list) => list,
            Err(error) => {
                return Err(error);
            },
        };
        let directories = match write_bitmap(&mut out, &self.directories) {
            Ok(body) => body,
            Err(error) => {
                return Err(error);
            },
        };
        let symlinks = match write_bitmap(&mut out, &self.symlinks) {
            Ok(body) => body,
            Err(error) => {
                return Err(error);
            },
        };
        proof {
            let parts = WrittenPostings {
                name_bytes: name_bytes@,
                name_pairs: name_pairs@,
                extensions: extensions@,
                directories: directories@,
                symlinks: symlinks@,
            };
            assert(out@ =~= map_bytes(1, parts.name_bytes) + map_bytes(2, parts.name_pairs)
                + map_bytes(3, parts.extensions) + bitmap_bytes(parts.directories) + bitmap_bytes(
                parts.symlinks,
            ));
            assert(written_as(out@, self@, parts));
            assert(encodes(parts, *self));
        }
        Ok(out)
    }
}

proof fn lemma_same_keys(
    a: Seq<WrittenKey>,
    b: Seq<WrittenKey>,
    whole: PostingMap,
    keys: Set<Seq<u8>>,
)
    requires
        in_key_order(a),
        in_key_order(b),
        encodes_map(a, whole),
        encodes_map(b, whole),
        forall|i: int| 0 <= i < a.len() ==> keys.contains((#[trigger] a[i]).0),
        forall|i: int| 0 <= i < b.len() ==> keys.contains((#[trigger] b[i]).0),
        forall|key: Seq<u8>| #[trigger]
            keys.contains(key) ==> exists|i: int| 0 <= i < a.len() && (#[trigger] a[i]).0 == key,
        forall|key: Seq<u8>| #[trigger]
            keys.contains(key) ==> exists|i: int| 0 <= i < b.len() && (#[trigger] b[i]).0 == key,
        forall|i: int| 0 <= i < a.len() ==> (#[trigger] a[i]).2 == whole@[a[i].0],
        forall|i: int| 0 <= i < b.len() ==> (#[trigger] b[i]).2 == whole@[b[i].0],
    ensures
        a == b,
    decreases a.len(),
{
    if a.len() == 0 {
        if b.len() > 0 {
            assert(keys.contains(b[0].0));
        }
        assert(a =~= b);
    } else {
        assert(keys.contains(a[0].0));
        let j = choose|j: int| 0 <= j < b.len() && (#[trigger] b[j]).0 == a[0].0;
        assert(keys.contains(b[0].0));
        let i = choose|i: int| 0 <= i < a.len() && (#[trigger] a[i]).0 == b[0].0;
        if a[0].0 != b[0].0 {
            assert(text_order::bytes_before(a[0].0, a[i].0));
            assert(text_order::bytes_before(b[0].0, b[j].0));
            text_order::lemma_bytes_transitive(a[0].0, b[0].0, a[0].0);
            text_order::lemma_bytes_irreflexive(a[0].0);
        }
        assert(a[0] == b[0]);
        let (x, y) = (a.drop_first(), b.drop_first());
        let rest = keys.remove(a[0].0);
        assert(in_key_order(x)) by {
            assert forall|i: int, j: int| 0 <= i < j < x.len() implies text_order::bytes_before(
                (#[trigger] x[i]).0,
                (#[trigger] x[j]).0,
            ) by {
                assert(x[i] == a[i + 1] && x[j] == a[j + 1]);
            }
        }
        assert(in_key_order(y)) by {
            assert forall|i: int, j: int| 0 <= i < j < y.len() implies text_order::bytes_before(
                (#[trigger] y[i]).0,
                (#[trigger] y[j]).0,
            ) by {
                assert(y[i] == b[i + 1] && y[j] == b[j + 1]);
            }
        }
        text_order::lemma_bytes_irreflexive(a[0].0);
        assert forall|i: int| 0 <= i < x.len() implies rest.contains((#[trigger] x[i]).0)
            && x[i].1 == portable_encoding(whole.bitmap_of(x[i].0)) && x[i].2 == whole@[x[i].0] by {
            assert(x[i] == a[i + 1]);
            assert(text_order::bytes_before(a[0].0, a[i + 1].0));
        }
        assert forall|i: int| 0 <= i < y.len() implies rest.contains((#[trigger] y[i]).0)
            && y[i].1 == portable_encoding(whole.bitmap_of(y[i].0)) && y[i].2 == whole@[y[i].0] by {
            assert(y[i] == b[i + 1]);
            assert(text_order::bytes_before(b[0].0, b[i + 1].0));
        }
        assert forall|key: Seq<u8>| #[trigger] rest.contains(key) implies exists|i: int|
            0 <= i < x.len() && (#[trigger] x[i]).0 == key by {
            assert(keys.contains(key));
            let i = choose|i: int| 0 <= i < a.len() && (#[trigger] a[i]).0 == key;
            assert(x[i - 1] == a[i]);
        }
        assert forall|key: Seq<u8>| #[trigger] rest.contains(key) implies exists|i: int|
            0 <= i < y.len() && (#[trigger] y[i]).0 == key by {
            assert(keys.contains(key));
            let i = choose|i: int| 0 <= i < b.len() && (#[trigger] b[i]).0 == key;
            assert(y[i - 1] == b[i]);
        }
        lemma_same_keys(x, y, whole, rest);
        assert(a =~= seq![a[0]] + x);
        assert(b =~= seq![b[0]] + y);
    }
}

proof fn lemma_same_list(kind: u8, a: Seq<WrittenKey>, b: Seq<WrittenKey>, map: PostingMap)
    requires
        orders_map(kind, a, map@),
        orders_map(kind, b, map@),
        encodes_map(a, map),
        encodes_map(b, map),
    ensures
        a == b,
{
    lemma_same_keys(a, b, map, map@.dom());
}

/// Postings are written in one way: the bytes follow from the bitmaps alone.
pub proof fn law_postings_have_one_spelling(postings: MetadataPostings, a: Seq<u8>, b: Seq<u8>)
    requires
        written_by(a, postings),
        written_by(b, postings),
    ensures
        a == b,
{
    let x = choose|parts: WrittenPostings| #[trigger]
        written_as(a, postings@, parts) && encodes(parts, postings);
    let y = choose|parts: WrittenPostings| #[trigger]
        written_as(b, postings@, parts) && encodes(parts, postings);
    lemma_same_list(1, x.name_bytes, y.name_bytes, postings.name_bytes);
    lemma_same_list(2, x.name_pairs, y.name_pairs, postings.name_pairs);
    lemma_same_list(3, x.extensions, y.extensions, postings.extensions);
}

/// The keys of a map fit their kind, and each has slots, all below the number of entries.
pub open spec fn storable_map(kind: u8, map: Map<Seq<u8>, Set<u32>>, entries: int) -> bool {
    forall|key: Seq<u8>| #[trigger]
        map.dom().contains(key) ==> metadata_postings::fits_kind(kind, key) && map[key] != Set::<
            u32,
        >::empty() && below(map[key], entries)
}

/// Postings as those of so many entries are: their keys fit, no posting is empty, no slot is too
/// large, and there are no more extensions than entries.
pub open spec fn storable(view: PostingsView, entries: int) -> bool {
    &&& storable_map(1, view.name_bytes, entries)
    &&& storable_map(2, view.name_pairs, entries)
    &&& storable_map(3, view.extensions, entries)
    &&& view.extensions.dom().len() <= entries
    &&& below(view.directories, entries)
    &&& below(view.symlinks, entries)
}

proof fn lemma_listed_count(list: Seq<WrittenKey>, map: Map<Seq<u8>, Set<u32>>)
    requires
        lists_map(list, map),
    ensures
        map.dom().len() == list.len(),
{
    let keys = list.map_values(|entry: WrittenKey| entry.0);
    assert(keys.no_duplicates()) by {
        assert forall|i: int, j: int| 0 <= i < keys.len() && 0 <= j < keys.len() && i != j implies keys[i]
            != keys[j] by {
            if i < j {
                assert(list[i].0 != list[j].0);
            } else {
                assert(list[j].0 != list[i].0);
            }
        }
    }
    keys.unique_seq_to_set();
    assert forall|key: Seq<u8>| #[trigger] map.dom().contains(key) == keys.to_set().contains(key) by {
        if map.dom().contains(key) {
            let i = choose|i: int| 0 <= i < list.len() && (#[trigger] list[i]).0 == key;
            assert(keys[i] == key);
        }
        if keys.contains(key) {
            let i = choose|i: int| 0 <= i < keys.len() && keys[i] == key;
            assert(list[i].0 == key);
        }
    }
    assert(map.dom() =~= keys.to_set());
}

/// A map that was written is read.
proof fn lemma_map_read(
    bytes: Seq<u8>,
    at: int,
    kind: u8,
    list: Seq<WrittenKey>,
    map: Map<Seq<u8>, Set<u32>>,
    entries: int,
)
    requires
        1 <= kind <= 3,
        0 <= at,
        at + map_bytes(kind, list).len() <= bytes.len(),
        bytes.subrange(at, at + map_bytes(kind, list).len()) == map_bytes(kind, list),
        orders_map(kind, list, map),
        storable_map(kind, map, entries),
        kind == 3 ==> map.dom().len() <= entries,
    ensures
        map_at(bytes, at, kind, entries) == Ok::<(Map<Seq<u8>, Set<u32>>, int), CacheError>(
            (map, at + map_bytes(kind, list).len()),
        ),
{
    reveal(map_at);
    reveal(map_bytes);
    let piece = map_bytes(kind, list);
    let end = at + piece.len();
    assert(bytes.subrange(at, at + 4) =~= piece.subrange(0, 4));
    assert(piece.subrange(0, 4) =~= number_bytes(list.len() as int));
    lemma_number_within(bytes, at, list.len() as int);
    assert(bytes.subrange(at + 4, end) =~= piece.subrange(4, piece.len() as int));
    assert(piece.subrange(4, piece.len() as int) =~= entries_bytes(kind, list));
    assert forall|i: int| 0 <= i < list.len() implies readable(#[trigger] list[i], kind, entries) by {
        assert(map.dom().contains(list[i].0));
    }
    lemma_listed_count(list, map);
    if list.len() > 0 {
        let last = list.len() - 1;
        if kind == 1 {
            assert forall|i: int| 0 <= i < list.len() implies (#[trigger] list[i]).0.len() == 1 by {
                assert(readable(list[i], kind, entries));
            }
            lemma_few_bytes(list, last);
        } else if kind == 2 {
            assert forall|i: int| 0 <= i < list.len() implies (#[trigger] list[i]).0.len() == 2 by {
                assert(readable(list[i], kind, entries));
            }
            lemma_few_pairs(list, last);
        }
    }
    assert(list.len() <= key_limit(kind, entries));
    lemma_keys_read(bytes, at + 4, kind, list, entries, Map::empty());
    lemma_listed_map(list, map);
}

proof fn lemma_five_parts(a: Seq<u8>, b: Seq<u8>, c: Seq<u8>, d: Seq<u8>, e: Seq<u8>)
    ensures
        ({
            let all = a + b + c + d + e;
            let second = a.len() as int;
            let third = second + b.len();
            let fourth = third + c.len();
            let fifth = fourth + d.len();
            let end = fifth + e.len();
            &&& all.subrange(0, second) == a
            &&& all.subrange(second, third) == b
            &&& all.subrange(third, fourth) == c
            &&& all.subrange(fourth, fifth) == d
            &&& all.subrange(fifth, end) == e
            &&& all.len() == end
        }),
{
    let all = a + b + c + d + e;
    let second = a.len() as int;
    let third = second + b.len();
    let fourth = third + c.len();
    let fifth = fourth + d.len();
    assert(all.subrange(0, second) =~= a);
    assert(all.subrange(second, third) =~= b);
    assert(all.subrange(third, fourth) =~= c);
    assert(all.subrange(fourth, fifth) =~= d);
    assert(all.subrange(fifth, fifth + e.len()) =~= e);
}

/// What was written of postings is read back, whole and with nothing left over.
pub proof fn law_written_postings_are_read_back(bytes: Seq<u8>, view: PostingsView, entries: int)
    requires
        written(bytes, view),
        storable(view, entries),
    ensures
        postings_at(bytes, entries) == Ok::<(PostingsView, int), CacheError>(
            (view, bytes.len() as int),
        ),
{
    let parts = choose|parts: WrittenPostings| written_as(bytes, view, parts);
    let a = map_bytes(1, parts.name_bytes);
    let b = map_bytes(2, parts.name_pairs);
    let c = map_bytes(3, parts.extensions);
    let d = bitmap_bytes(parts.directories);
    let e = bitmap_bytes(parts.symlinks);
    lemma_five_parts(a, b, c, d, e);
    let second = a.len() as int;
    let third = second + b.len();
    let fourth = third + c.len();
    let fifth = fourth + d.len();
    let end = fifth + e.len();
    assert(map_at(bytes, 0, 1, entries) == Ok::<(Map<Seq<u8>, Set<u32>>, int), CacheError>(
        (view.name_bytes, second),
    )) by {
        lemma_map_read(bytes, 0, 1, parts.name_bytes, view.name_bytes, entries);
    }
    assert(map_at(bytes, second, 2, entries) == Ok::<(Map<Seq<u8>, Set<u32>>, int), CacheError>(
        (view.name_pairs, third),
    )) by {
        lemma_map_read(bytes, second, 2, parts.name_pairs, view.name_pairs, entries);
    }
    assert(map_at(bytes, third, 3, entries) == Ok::<(Map<Seq<u8>, Set<u32>>, int), CacheError>(
        (view.extensions, fourth),
    )) by {
        lemma_map_read(bytes, third, 3, parts.extensions, view.extensions, entries);
    }
    assert(bitmap_at(bytes, fourth, entries) == Ok::<(Set<u32>, int), CacheError>(
        (view.directories, fifth),
    )) by {
        lemma_number(parts.directories.len() as int);
        lemma_bitmap_read(bytes, fourth, parts.directories, view.directories, entries);
    }
    assert(bitmap_at(bytes, fifth, entries) == Ok::<(Set<u32>, int), CacheError>(
        (view.symlinks, end),
    )) by {
        lemma_number(parts.symlinks.len() as int);
        lemma_bitmap_read(bytes, fifth, parts.symlinks, view.symlinks, entries);
    }
}

/// There are no more keys of a length than bytes or pairs of bytes.
proof fn lemma_short_keys(kind: u8, keys: Set<Seq<u8>>)
    requires
        kind == 1 || kind == 2,
        forall|key: Seq<u8>| #[trigger] keys.contains(key) ==> key.len() == kind,
    ensures
        keys.len() <= 0x1_0000,
{
    let name = |number: int|
        if kind == 1 {
            seq![number as u8]
        } else {
            seq![(number / 0x100) as u8, (number % 0x100) as u8]
        };
    let numbers = vstd::set_lib::set_int_range(0, 0x1_0000);
    vstd::set_lib::lemma_int_range(0, 0x1_0000);
    vstd::set_lib::lemma_map_size_bound(numbers, numbers.map(name), name);
    assert forall|key: Seq<u8>| #[trigger] keys.contains(key) implies numbers.map(name).contains(
        key,
    ) by {
        let number = if kind == 1 {
            key[0] as int
        } else {
            0x100 * key[0] + key[1]
        };
        assert(numbers.contains(number));
        assert(name(number) =~= key);
    }
    vstd::set_lib::lemma_len_subset(keys, numbers.map(name));
}

/// Postings of entries are refused only where the bitmap of so many entries may take more bytes
/// than a number can count.
pub proof fn law_postings_of_entries_are_written(
    error: CacheError,
    view: PostingsView,
    entries: int,
)
    requires
        refuses(error, view),
        storable(view, entries),
    ensures
        error == CacheError::CountTooLarge,
        byte_limit(entries) > u32::MAX,
{
    lemma_short_keys(1, view.name_bytes.dom());
    lemma_short_keys(2, view.name_pairs.dom());
}

/// The postings of rows are such as can be stored for so many entries, if none was left empty and
/// no extension is too long.
pub proof fn law_postings_of_rows_are_storable(
    postings: MetadataPostings,
    rows: Seq<IndexedFile>,
)
    requires
        postings.describes(metadata_postings::rows_by_slot(rows)),
        rows.len() <= u32::MAX,
        forall|key: Seq<u8>| #[trigger]
            postings@.name_bytes.dom().contains(key) ==> postings@.name_bytes[key] != Set::<
                u32,
            >::empty(),
        forall|key: Seq<u8>| #[trigger]
            postings@.name_pairs.dom().contains(key) ==> postings@.name_pairs[key] != Set::<
                u32,
            >::empty(),
        forall|key: Seq<u8>| #[trigger]
            postings@.extensions.dom().contains(key) ==> postings@.extensions[key] != Set::<
                u32,
            >::empty(),
        forall|i: int|
            0 <= i < rows.len() ==> text::bytes_of(
                metadata_postings::extension_key(#[trigger] rows[i]),
            ).len() <= MAX_EXTENSION_BYTES,
    ensures
        storable(postings@, rows.len() as int),
{
    let all = metadata_postings::rows_by_slot(rows);
    let view = postings@;
    let count = rows.len() as int;
    assert forall|key: Seq<u8>| #[trigger] view.name_bytes.dom().contains(key) implies
        metadata_postings::fits_kind(1, key) && below(view.name_bytes[key], count) by {
        let slots = view.name_bytes[key];
        assert(posting_map::slots_of(view.name_bytes, key) == slots);
        lemma_some_slot(slots);
    }
    assert forall|key: Seq<u8>| #[trigger] view.name_pairs.dom().contains(key) implies
        metadata_postings::fits_kind(2, key) && below(view.name_pairs[key], count) by {
        let slots = view.name_pairs[key];
        assert(posting_map::slots_of(view.name_pairs, key) == slots);
        lemma_some_slot(slots);
    }
    let name = |i: int| text::bytes_of(metadata_postings::extension_key(rows[i]));
    let places = vstd::set_lib::set_int_range(0, count);
    assert forall|key: Seq<u8>| #[trigger] view.extensions.dom().contains(key) implies
        metadata_postings::fits_kind(3, key) && below(view.extensions[key], count)
        && places.map(name).contains(key) by {
        let slots = view.extensions[key];
        assert(posting_map::slots_of(view.extensions, key) == slots);
        lemma_some_slot(slots);
        let slot = choose|slot: u32| slots.contains(slot);
        let file = rows[slot as int];
        vstd::utf8::encode_utf8_valid_utf8(metadata_postings::extension_key(file));
        assert(places.contains(slot as int));
        assert(name(slot as int) == key);
    }
    vstd::set_lib::lemma_int_range(0, count);
    vstd::set_lib::lemma_map_size_bound(places, places.map(name), name);
    vstd::set_lib::lemma_len_subset(view.extensions.dom(), places.map(name));
}

proof fn lemma_some_slot(slots: Set<u32>)
    requires
        slots != Set::<u32>::empty(),
    ensures
        exists|slot: u32| slots.contains(slot),
{
    if forall|slot: u32| !slots.contains(slot) {
        assert(slots =~= Set::<u32>::empty());
    }
}

} // verus!
