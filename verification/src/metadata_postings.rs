//! Exact postings for common conditions on metadata. A condition that they do not know is left
//! to full evaluation; a key that they do not hold has no rows.
use crate::bitmaps;
use crate::bitmaps::{copy_bitmap, intersect, subtract, unite};
use crate::files::IndexedFile;
use crate::fold;
use crate::fold::fold_search;
use crate::posting_map;
use crate::posting_map::{own_slots, Posting, PostingMap};
use crate::query::evaluate;
use crate::query::evaluate::Mode;
use crate::query::model;
use crate::query::model::{Query, QueryView, Term, TermView};
use crate::query::options::Field;
use crate::sharing::{same_allocation, share};
use crate::text;
use crate::text::decoded;
use roaring::RoaringBitmap;
use std::sync::Arc;
use vstd::prelude::*;

verus! {

/// The most bytes of an extension that is restored.
pub const MAX_EXTENSION_BYTES: usize = 1024;

/// Slots by what their names hold, by their extensions, and of directories and links.
pub struct MetadataPostings {
    pub name_bytes: PostingMap,
    pub name_pairs: PostingMap,
    pub extensions: PostingMap,
    pub directories: Arc<RoaringBitmap>,
    pub symlinks: Arc<RoaringBitmap>,
}

/// The extension by which a row is found.
pub open spec fn extension_key(file: IndexedFile) -> Seq<char> {
    if text::ascii(file.folded_extension@) {
        file.folded_extension@
    } else {
        fold::search_folded(file.extension@)
    }
}

/// A row's name holds a key.
pub open spec fn name_holds(file: IndexedFile, key: Seq<u8>) -> bool {
    text::occurs(text::bytes_of(file.search_name@), key)
}

/// The slots of some rows that satisfy a condition.
pub open spec fn slots_where(
    rows: Map<u32, IndexedFile>,
    is: spec_fn(IndexedFile) -> bool,
) -> Set<u32> {
    Set::new(|slot: u32| rows.dom().contains(slot) && is(rows[slot]))
}

fn key_of(file: &IndexedFile) -> (key: String)
    ensures
        key@ == extension_key(*file),
{
    if file.folded_extension.as_str().is_ascii() {
        file.folded_extension.clone()
    } else {
        fold_search(file.extension.as_str())
    }
}

/// A set with a slot, or without it.
pub open spec fn with_if(slots: Set<u32>, slot: u32, yes: bool) -> Set<u32> {
    if yes {
        slots.insert(slot)
    } else {
        slots
    }
}

pub open spec fn without_if(slots: Set<u32>, slot: u32, yes: bool) -> Set<u32> {
    if yes {
        slots.remove(slot)
    } else {
        slots
    }
}

/// Some run of bytes that begins before a place.
pub open spec fn run_before(bytes: Seq<u8>, key: Seq<u8>, end: int) -> bool {
    exists|at: int| 0 <= at < end && #[trigger] text::occurs_at(bytes, key, at)
}

/// A slot was added to the postings of the runs that begin before a place.
pub open spec fn added_before(
    before: Map<Seq<u8>, Set<u32>>,
    after: Map<Seq<u8>, Set<u32>>,
    bytes: Seq<u8>,
    width: int,
    slot: u32,
    end: int,
) -> bool {
    forall|key: Seq<u8>| #[trigger]
        posting_map::slots_of(after, key) == with_if(
            posting_map::slots_of(before, key),
            slot,
            key.len() == width && run_before(bytes, key, end),
        )
}

pub open spec fn removed_before(
    before: Map<Seq<u8>, Set<u32>>,
    after: Map<Seq<u8>, Set<u32>>,
    bytes: Seq<u8>,
    width: int,
    slot: u32,
    end: int,
) -> bool {
    forall|key: Seq<u8>| #[trigger]
        posting_map::slots_of(after, key) == without_if(
            posting_map::slots_of(before, key),
            slot,
            key.len() == width && run_before(bytes, key, end),
        )
}

proof fn lemma_run_step(bytes: Seq<u8>, key: Seq<u8>, width: int, at: int)
    requires
        0 <= at,
        at + width <= bytes.len(),
        key.len() == width,
    ensures
        run_before(bytes, key, at + 1) == (run_before(bytes, key, at) || key == bytes.subrange(
            at,
            at + width,
        )),
{
    if run_before(bytes, key, at + 1) {
        let k = choose|k: int| 0 <= k < at + 1 && #[trigger] text::occurs_at(bytes, key, k);
        if k < at {
            assert(run_before(bytes, key, at));
        }
    }
    if run_before(bytes, key, at) {
        let k = choose|k: int| 0 <= k < at && #[trigger] text::occurs_at(bytes, key, k);
        assert(0 <= k < at + 1 && text::occurs_at(bytes, key, k));
    }
    if key == bytes.subrange(at, at + width) {
        assert(text::occurs_at(bytes, key, at));
    }
}

/// All runs of a width begin before the last place where one can.
proof fn lemma_runs_end(bytes: Seq<u8>, key: Seq<u8>, end: int)
    requires
        key.len() > 0,
        end + key.len() > bytes.len(),
    ensures
        run_before(bytes, key, end) == text::occurs(bytes, key),
{
    if text::occurs(bytes, key) {
        let at = choose|at: int| text::occurs_at(bytes, key, at);
        assert(0 <= at < end && text::occurs_at(bytes, key, at));
    }
}

fn add_runs(postings: &mut PostingMap, bytes: &[u8], width: usize, slot: u32)
    requires
        width > 0,
        old(postings).wf(),
    ensures
        final(postings).wf(),
        final(postings).kind == old(postings).kind,
        forall|key: Seq<u8>| #[trigger]
            posting_map::slots_of(final(postings)@, key) == with_if(
                posting_map::slots_of(old(postings)@, key),
                slot,
                key.len() == width && text::occurs(bytes@, key),
            ),
{
    let ghost first = postings@;
    let ghost w = width as int;
    let mut at: usize = 0;
    while bytes.len() >= width && at <= bytes.len() - width
        invariant
            w == width,
            w > 0,
            bytes@.len() >= w ==> at <= bytes@.len() - w + 1,
            bytes@.len() < w ==> at == 0,
            postings.wf(),
            postings.kind == old(postings).kind,
            added_before(first, postings@, bytes@, w, slot, at as int),
        decreases bytes@.len() + 1 - at,
    {
        let run = vstd::slice::slice_subrange(bytes, at, at + width);
        let ghost seen = postings@;
        let ghost item = bytes@.subrange(at as int, at + w);
        postings.add_slot(run, slot);
        proof {
            assert forall|key: Seq<u8>| #[trigger] posting_map::slots_of(postings@, key) == with_if(
                posting_map::slots_of(first, key),
                slot,
                key.len() == w && run_before(bytes@, key, at + 1),
            ) by {
                assert(posting_map::slots_of(seen, key) == with_if(
                    posting_map::slots_of(first, key),
                    slot,
                    key.len() == w && run_before(bytes@, key, at as int),
                ));
                if key.len() == w {
                    lemma_run_step(bytes@, key, w, at as int);
                }
                assert(posting_map::slots_of(postings@, key) =~= with_if(
                    posting_map::slots_of(first, key),
                    slot,
                    key.len() == w && run_before(bytes@, key, at + 1),
                ));
            }
        }
        at = at + 1;
    }
    proof {
        assert forall|key: Seq<u8>| #[trigger] posting_map::slots_of(postings@, key) == with_if(
            posting_map::slots_of(first, key),
            slot,
            key.len() == w && text::occurs(bytes@, key),
        ) by {
            if key.len() == w {
                lemma_runs_end(bytes@, key, at as int);
            }
        }
    }
}

fn remove_runs(postings: &mut PostingMap, bytes: &[u8], width: usize, slot: u32)
    requires
        width > 0,
        old(postings).wf(),
    ensures
        final(postings).wf(),
        final(postings).kind == old(postings).kind,
        forall|key: Seq<u8>| #[trigger]
            posting_map::slots_of(final(postings)@, key) == without_if(
                posting_map::slots_of(old(postings)@, key),
                slot,
                key.len() == width && text::occurs(bytes@, key),
            ),
{
    let ghost first = postings@;
    let ghost w = width as int;
    let mut at: usize = 0;
    while bytes.len() >= width && at <= bytes.len() - width
        invariant
            w == width,
            w > 0,
            bytes@.len() >= w ==> at <= bytes@.len() - w + 1,
            bytes@.len() < w ==> at == 0,
            postings.wf(),
            postings.kind == old(postings).kind,
            removed_before(first, postings@, bytes@, w, slot, at as int),
        decreases bytes@.len() + 1 - at,
    {
        let run = vstd::slice::slice_subrange(bytes, at, at + width);
        let ghost seen = postings@;
        let ghost item = bytes@.subrange(at as int, at + w);
        postings.remove_slot(run, slot);
        proof {
            assert forall|key: Seq<u8>| #[trigger] posting_map::slots_of(postings@, key)
                == without_if(
                posting_map::slots_of(first, key),
                slot,
                key.len() == w && run_before(bytes@, key, at + 1),
            ) by {
                assert(posting_map::slots_of(seen, key) == without_if(
                    posting_map::slots_of(first, key),
                    slot,
                    key.len() == w && run_before(bytes@, key, at as int),
                ));
                if key.len() == w {
                    lemma_run_step(bytes@, key, w, at as int);
                }
                lemma_without(seen, item, slot, key);
                assert(posting_map::slots_of(postings@, key) =~= without_if(
                    posting_map::slots_of(first, key),
                    slot,
                    key.len() == w && run_before(bytes@, key, at + 1),
                ));
            }
        }
        at = at + 1;
    }
    proof {
        assert forall|key: Seq<u8>| #[trigger] posting_map::slots_of(postings@, key) == without_if(
            posting_map::slots_of(first, key),
            slot,
            key.len() == w && text::occurs(bytes@, key),
        ) by {
            if key.len() == w {
                lemma_runs_end(bytes@, key, at as int);
            }
        }
    }
}

/// What a key's slots are once a slot left the postings of another.
proof fn lemma_without(
    postings: Map<Seq<u8>, Set<u32>>,
    item: Seq<u8>,
    slot: u32,
    key: Seq<u8>,
)
    ensures
        posting_map::slots_of(posting_map::without_slot(postings, item, slot), key) == (if key
            == item {
            posting_map::slots_of(postings, key).remove(slot)
        } else {
            posting_map::slots_of(postings, key)
        }),
{
    let after = posting_map::slots_of(posting_map::without_slot(postings, item, slot), key);
    if key == item {
        assert(after =~= posting_map::slots_of(postings, key).remove(slot));
    }
}

/// What a condition says of the bytes of an extension.
pub open spec fn has_extension(file: IndexedFile, key: Seq<u8>) -> bool {
    text::bytes_of(extension_key(file)) == key
}

impl MetadataPostings {
    pub open spec fn wf(&self) -> bool {
        self.name_bytes.wf() && self.name_pairs.wf() && self.extensions.wf()
    }

    /// The postings are those of some rows.
    pub open spec fn describes(&self, rows: Map<u32, IndexedFile>) -> bool {
        &&& forall|key: Seq<u8>| #[trigger]
            posting_map::slots_of(self.name_bytes@, key) == slots_where(
                rows,
                |file: IndexedFile| key.len() == 1 && name_holds(file, key),
            )
        &&& forall|key: Seq<u8>| #[trigger]
            posting_map::slots_of(self.name_pairs@, key) == slots_where(
                rows,
                |file: IndexedFile| key.len() == 2 && name_holds(file, key),
            )
        &&& forall|key: Seq<u8>| #[trigger]
            posting_map::slots_of(self.extensions@, key) == slots_where(
                rows,
                |file: IndexedFile| has_extension(file, key),
            )
        &&& bitmaps::slots_in(*self.directories) == slots_where(
            rows,
            |file: IndexedFile| file.is_dir,
        )
        &&& bitmaps::slots_in(*self.symlinks) == slots_where(
            rows,
            |file: IndexedFile| file.is_symlink,
        )
    }

    /// The postings of no rows.
    pub fn new() -> (postings: Self)
        ensures
            postings.wf(),
            postings.describes(Map::empty()),
    {
        let postings = MetadataPostings {
            name_bytes: PostingMap::new(1),
            name_pairs: PostingMap::new(2),
            extensions: PostingMap::new(3),
            directories: Arc::new(RoaringBitmap::new()),
            symlinks: Arc::new(RoaringBitmap::new()),
        };
        proof {
            let none = Map::<u32, IndexedFile>::empty();
            assert forall|is: spec_fn(IndexedFile) -> bool| #[trigger] slots_where(none, is)
                == Set::<u32>::empty() by {
                assert(slots_where(none, is) =~= Set::<u32>::empty());
            }
        }
        postings
    }

    /// Add a row.
    pub fn insert(&mut self, slot: u32, file: &IndexedFile)
        requires
            old(self).wf(),
        ensures
            final(self).wf(),
            forall|rows: Map<u32, IndexedFile>| #[trigger]
                old(self).describes(rows) && !rows.dom().contains(slot) ==> final(self).describes(
                    rows.insert(slot, *file),
                ),
    {
        let ghost before = *self;
        let bytes = file.search_name.as_str().as_bytes();
        add_runs(&mut self.name_bytes, bytes, 1, slot);
        add_runs(&mut self.name_pairs, bytes, 2, slot);
        let key = key_of(file);
        let ghost name = text::bytes_of(key@);
        self.extensions.add_slot(key.as_str().as_bytes(), slot);
        if file.is_dir {
            let directories = own_slots(&mut self.directories);
            directories.insert(slot);
        }
        if file.is_symlink {
            let symlinks = own_slots(&mut self.symlinks);
            symlinks.insert(slot);
        }
        proof {
            assert forall|rows: Map<u32, IndexedFile>| #[trigger]
                before.describes(rows) && !rows.dom().contains(slot) implies self.describes(
                rows.insert(slot, *file),
            ) by {
                let more = rows.insert(slot, *file);
                assert forall|k: Seq<u8>| #[trigger] posting_map::slots_of(self.name_bytes@, k)
                    == slots_where(
                    more,
                    |f: IndexedFile| k.len() == 1 && name_holds(f, k),
                ) by {
                    assert(posting_map::slots_of(before.name_bytes@, k) == slots_where(
                        rows,
                        |f: IndexedFile| k.len() == 1 && name_holds(f, k),
                    ));
                    assert(posting_map::slots_of(self.name_bytes@, k) =~= slots_where(
                        more,
                        |f: IndexedFile| k.len() == 1 && name_holds(f, k),
                    ));
                }
                assert forall|k: Seq<u8>| #[trigger] posting_map::slots_of(self.name_pairs@, k)
                    == slots_where(
                    more,
                    |f: IndexedFile| k.len() == 2 && name_holds(f, k),
                ) by {
                    assert(posting_map::slots_of(before.name_pairs@, k) == slots_where(
                        rows,
                        |f: IndexedFile| k.len() == 2 && name_holds(f, k),
                    ));
                    assert(posting_map::slots_of(self.name_pairs@, k) =~= slots_where(
                        more,
                        |f: IndexedFile| k.len() == 2 && name_holds(f, k),
                    ));
                }
                assert forall|k: Seq<u8>| #[trigger] posting_map::slots_of(self.extensions@, k)
                    == slots_where(more, |f: IndexedFile| has_extension(f, k)) by {
                    assert(posting_map::slots_of(before.extensions@, k) == slots_where(
                        rows,
                        |f: IndexedFile| has_extension(f, k),
                    ));
                    assert(posting_map::slots_of(self.extensions@, k) =~= slots_where(
                        more,
                        |f: IndexedFile| has_extension(f, k),
                    ));
                }
                assert(bitmaps::slots_in(*self.directories) =~= slots_where(
                    more,
                    |f: IndexedFile| f.is_dir,
                ));
                assert(bitmaps::slots_in(*self.symlinks) =~= slots_where(
                    more,
                    |f: IndexedFile| f.is_symlink,
                ));
            }
        }
    }

    /// Take a row out.
    pub fn remove(&mut self, slot: u32, file: &IndexedFile)
        requires
            old(self).wf(),
        ensures
            final(self).wf(),
            forall|rows: Map<u32, IndexedFile>| #[trigger]
                old(self).describes(rows) && rows.dom().contains(slot) && rows[slot] == *file
                    ==> final(self).describes(rows.remove(slot)),
    {
        let ghost before = *self;
        let bytes = file.search_name.as_str().as_bytes();
        remove_runs(&mut self.name_bytes, bytes, 1, slot);
        remove_runs(&mut self.name_pairs, bytes, 2, slot);
        let key = key_of(file);
        let ghost name = text::bytes_of(key@);
        self.extensions.remove_slot(key.as_str().as_bytes(), slot);
        if file.is_dir {
            let directories = own_slots(&mut self.directories);
            directories.remove(slot);
        }
        if file.is_symlink {
            let symlinks = own_slots(&mut self.symlinks);
            symlinks.remove(slot);
        }
        proof {
            assert forall|rows: Map<u32, IndexedFile>| #[trigger]
                before.describes(rows) && rows.dom().contains(slot) && rows[slot]
                    == *file implies self.describes(rows.remove(slot)) by {
                let less = rows.remove(slot);
                assert forall|k: Seq<u8>| #[trigger] posting_map::slots_of(self.name_bytes@, k)
                    == slots_where(
                    less,
                    |f: IndexedFile| k.len() == 1 && name_holds(f, k),
                ) by {
                    assert(posting_map::slots_of(before.name_bytes@, k) == slots_where(
                        rows,
                        |f: IndexedFile| k.len() == 1 && name_holds(f, k),
                    ));
                    assert(posting_map::slots_of(self.name_bytes@, k) =~= slots_where(
                        less,
                        |f: IndexedFile| k.len() == 1 && name_holds(f, k),
                    ));
                }
                assert forall|k: Seq<u8>| #[trigger] posting_map::slots_of(self.name_pairs@, k)
                    == slots_where(
                    less,
                    |f: IndexedFile| k.len() == 2 && name_holds(f, k),
                ) by {
                    assert(posting_map::slots_of(before.name_pairs@, k) == slots_where(
                        rows,
                        |f: IndexedFile| k.len() == 2 && name_holds(f, k),
                    ));
                    assert(posting_map::slots_of(self.name_pairs@, k) =~= slots_where(
                        less,
                        |f: IndexedFile| k.len() == 2 && name_holds(f, k),
                    ));
                }
                assert forall|k: Seq<u8>| #[trigger] posting_map::slots_of(self.extensions@, k)
                    == slots_where(less, |f: IndexedFile| has_extension(f, k)) by {
                    lemma_without(before.extensions@, name, slot, k);
                    assert(posting_map::slots_of(before.extensions@, k) == slots_where(
                        rows,
                        |f: IndexedFile| has_extension(f, k),
                    ));
                    assert(posting_map::slots_of(self.extensions@, k) =~= slots_where(
                        less,
                        |f: IndexedFile| has_extension(f, k),
                    ));
                }
                assert(bitmaps::slots_in(*self.directories) =~= slots_where(
                    less,
                    |f: IndexedFile| f.is_dir,
                ));
                assert(bitmaps::slots_in(*self.symlinks) =~= slots_where(
                    less,
                    |f: IndexedFile| f.is_symlink,
                ));
            }
        }
    }

    /// Put back one stored posting. `None` for what no stored postings hold: an unknown kind, a
    /// key that does not fit it, or a key that was put back already.
    pub fn insert_restored(&mut self, kind: u8, key: &[u8], slots: RoaringBitmap) -> (done: Option<
        (),
    >)
        requires
            old(self).wf(),
        ensures
            final(self).wf(),
            ({
                let held = bitmaps::slots_in(slots);
                let (a, b) = (*old(self), *final(self));
                if kind == 1 && key@.len() == 1 {
                    &&& b.name_bytes@ == a.name_bytes@.insert(key@, held)
                    &&& b.name_pairs == a.name_pairs && b.extensions == a.extensions
                    &&& b.directories == a.directories && b.symlinks == a.symlinks
                    &&& (done is Some) == !a.name_bytes@.dom().contains(key@)
                } else if kind == 2 && key@.len() == 2 {
                    &&& b.name_pairs@ == a.name_pairs@.insert(key@, held)
                    &&& b.name_bytes == a.name_bytes && b.extensions == a.extensions
                    &&& b.directories == a.directories && b.symlinks == a.symlinks
                    &&& (done is Some) == !a.name_pairs@.dom().contains(key@)
                } else if kind == 3 && key@.len() <= MAX_EXTENSION_BYTES
                    && vstd::utf8::valid_utf8(key@) {
                    &&& b.extensions@ == a.extensions@.insert(key@, held)
                    &&& b.name_bytes == a.name_bytes && b.name_pairs == a.name_pairs
                    &&& b.directories == a.directories && b.symlinks == a.symlinks
                    &&& (done is Some) == !a.extensions@.dom().contains(key@)
                } else if kind == 4 && key@.len() == 0 {
                    &&& bitmaps::slots_in(*b.directories) == held
                    &&& b.name_bytes == a.name_bytes && b.name_pairs == a.name_pairs
                    &&& b.extensions == a.extensions && b.symlinks == a.symlinks
                    &&& done is Some
                } else if kind == 5 && key@.len() == 0 {
                    &&& bitmaps::slots_in(*b.symlinks) == held
                    &&& b.name_bytes == a.name_bytes && b.name_pairs == a.name_pairs
                    &&& b.extensions == a.extensions && b.directories == a.directories
                    &&& done is Some
                } else {
                    done is None && b == a
                }
            }),
            match put_back(old(self)@, (kind, key@, bitmaps::slots_in(slots))) {
                Some(after) => done is Some && final(self)@ == after,
                None => done is None,
            },
    {
        let shared = Arc::new(slots);
        let mut duplicate = false;
        if kind == 1 && key.len() == 1 {
            duplicate = self.name_bytes.insert(key, shared);
        } else if kind == 2 && key.len() == 2 {
            duplicate = self.name_pairs.insert(key, shared);
        } else if kind == 3 && key.len() <= MAX_EXTENSION_BYTES {
            match decoded(key) {
                Some(found) => {
                    proof {
                        vstd::utf8::encode_utf8_valid_utf8(found@);
                    }
                },
                None => {
                    return None;
                },
            }
            duplicate = self.extensions.insert(key, shared);
        } else if kind == 4 && key.len() == 0 {
            self.directories = shared;
        } else if kind == 5 && key.len() == 0 {
            self.symlinks = shared;
        } else {
            return None;
        }
        if duplicate {
            None
        } else {
            Some(())
        }
    }
}

/// One posting as it is stored: what kind of key it has, the key, and the slots.
pub struct StoredPosting {
    pub kind: u8,
    pub key: Vec<u8>,
    pub slots: Arc<RoaringBitmap>,
}

/// What is stored of a posting.
pub open spec fn stored(posting: StoredPosting) -> (u8, Seq<u8>, Set<u32>) {
    (posting.kind, posting.key@, posting_map::shared_slots(posting.slots))
}

/// What is stored of some postings.
pub open spec fn all_stored(list: Seq<StoredPosting>) -> Seq<(u8, Seq<u8>, Set<u32>)> {
    list.map_values(|one: StoredPosting| stored(one))
}

/// What postings hold.
#[verifier::ext_equal]
pub struct PostingsView {
    pub name_bytes: Map<Seq<u8>, Set<u32>>,
    pub name_pairs: Map<Seq<u8>, Set<u32>>,
    pub extensions: Map<Seq<u8>, Set<u32>>,
    pub directories: Set<u32>,
    pub symlinks: Set<u32>,
}

impl View for MetadataPostings {
    type V = PostingsView;

    open spec fn view(&self) -> PostingsView {
        PostingsView {
            name_bytes: self.name_bytes@,
            name_pairs: self.name_pairs@,
            extensions: self.extensions@,
            directories: bitmaps::slots_in(*self.directories),
            symlinks: bitmaps::slots_in(*self.symlinks),
        }
    }
}

/// Postings that hold nothing.
pub open spec fn nothing() -> PostingsView {
    PostingsView {
        name_bytes: Map::empty(),
        name_pairs: Map::empty(),
        extensions: Map::empty(),
        directories: Set::empty(),
        symlinks: Set::empty(),
    }
}

/// Postings with a stored one put back.
pub open spec fn put_back(view: PostingsView, item: (u8, Seq<u8>, Set<u32>)) -> Option<
    PostingsView,
> {
    let (kind, key, held) = item;
    if kind == 1 && key.len() == 1 && !view.name_bytes.dom().contains(key) {
        Some(PostingsView { name_bytes: view.name_bytes.insert(key, held), ..view })
    } else if kind == 2 && key.len() == 2 && !view.name_pairs.dom().contains(key) {
        Some(PostingsView { name_pairs: view.name_pairs.insert(key, held), ..view })
    } else if kind == 3 && key.len() <= MAX_EXTENSION_BYTES && vstd::utf8::valid_utf8(key)
        && !view.extensions.dom().contains(key) {
        Some(PostingsView { extensions: view.extensions.insert(key, held), ..view })
    } else if kind == 4 && key.len() == 0 {
        Some(PostingsView { directories: held, ..view })
    } else if kind == 5 && key.len() == 0 {
        Some(PostingsView { symlinks: held, ..view })
    } else {
        None
    }
}

/// Postings with some stored ones put back, one after the other.
pub open spec fn restored_from(
    view: PostingsView,
    items: Seq<(u8, Seq<u8>, Set<u32>)>,
) -> Option<PostingsView>
    decreases items.len(),
{
    if items.len() == 0 {
        Some(view)
    } else {
        match restored_from(view, items.drop_last()) {
            Some(before) => put_back(before, items.last()),
            None => None,
        }
    }
}

/// The postings of a map under a kind.
pub open spec fn of_kind(kind: u8, list: Seq<Posting>) -> Seq<(u8, Seq<u8>, Set<u32>)> {
    list.map_values(
        |posting: Posting| (kind, posting.key@, posting_map::shared_slots(posting.slots)),
    )
}

/// All postings as they are stored: those of each map, each once, and the two sets.
pub open spec fn lists(
    items: Seq<(u8, Seq<u8>, Set<u32>)>,
    view: PostingsView,
    bytes: Seq<Posting>,
    pairs: Seq<Posting>,
    extensions: Seq<Posting>,
) -> bool {
    &&& posting_map::distinct_keys(bytes) && posting_map::table(bytes) == view.name_bytes
    &&& posting_map::distinct_keys(pairs) && posting_map::table(pairs) == view.name_pairs
    &&& posting_map::distinct_keys(extensions) && posting_map::table(extensions) == view.extensions
    &&& items == of_kind(1, bytes) + of_kind(2, pairs) + of_kind(3, extensions) + seq![
        (4u8, Seq::<u8>::empty(), view.directories),
        (5u8, Seq::<u8>::empty(), view.symlinks),
    ]
}

fn append_kind(list: &mut Vec<StoredPosting>, kind: u8, postings: Vec<Posting>)
    ensures
        all_stored(final(list)@) == all_stored(old(list)@) + of_kind(kind, postings@),
{
    let ghost first = all_stored(list@);
    let ghost all = of_kind(kind, postings@);
    let mut next: usize = 0;
    assert(first + all.take(0) =~= first);
    while next < postings.len()
        invariant
            next <= postings@.len(),
            all == of_kind(kind, postings@),
            all_stored(list@) == first + all.take(next as int),
        decreases postings@.len() - next,
    {
        let ghost before = all_stored(list@);
        let key = postings[next].key.clone();
        let one = StoredPosting { kind, key, slots: share(&postings[next].slots) };
        assert(one.key@ =~= postings@[next as int].key@);
        assert(stored(one) == all[next as int]);
        list.push(one);
        assert(all_stored(list@) =~= before.push(stored(one)));
        assert(first + all.take(next + 1) =~= (first + all.take(next as int)).push(
            all[next as int],
        ));
        next = next + 1;
    }
    assert(all.take(next as int) =~= all);
}

/// A row for each slot from the first on.
pub open spec fn rows_by_slot(rows: Seq<IndexedFile>) -> Map<u32, IndexedFile> {
    Map::new(|slot: u32| slot < rows.len(), |slot: u32| rows[slot as int])
}

impl MetadataPostings {
    /// The postings of some rows.
    pub fn build(rows: &Vec<IndexedFile>) -> (postings: Self)
        requires
            rows@.len() <= u32::MAX,
        ensures
            postings.wf(),
            postings.describes(rows_by_slot(rows@)),
    {
        let mut postings = MetadataPostings::new();
        let mut next: usize = 0;
        assert(rows_by_slot(rows@.take(0)) =~= Map::empty());
        while next < rows.len()
            invariant
                next <= rows@.len(),
                rows@.len() <= u32::MAX,
                postings.wf(),
                postings.describes(rows_by_slot(rows@.take(next as int))),
            decreases rows@.len() - next,
        {
            let slot: u32 = next as u32;
            let ghost before = rows_by_slot(rows@.take(next as int));
            postings.insert(slot, &rows[next]);
            next = next + 1;
            assert(rows_by_slot(rows@.take(next as int)) =~= before.insert(
                slot,
                rows@[slot as int],
            ));
        }
        assert(rows@.take(next as int) =~= rows@);
        postings
    }

    /// All postings, as they are stored.
    pub fn visit_postings(&self) -> (list: Vec<StoredPosting>)
        requires
            self.wf(),
        ensures
            exists|bytes: Seq<Posting>, pairs: Seq<Posting>, extensions: Seq<Posting>| #[trigger]
                lists(all_stored(list@), self@, bytes, pairs, extensions),
    {
        let mut list: Vec<StoredPosting> = Vec::new();
        let bytes = self.name_bytes.postings();
        let pairs = self.name_pairs.postings();
        let extensions = self.extensions.postings();
        let ghost (a, b, c) = (bytes@, pairs@, extensions@);
        append_kind(&mut list, 1, bytes);
        append_kind(&mut list, 2, pairs);
        append_kind(&mut list, 3, extensions);
        let ghost before = all_stored(list@);
        assert(before =~= of_kind(1, a) + of_kind(2, b) + of_kind(3, c));
        list.push(StoredPosting { kind: 4, key: Vec::new(), slots: share(&self.directories) });
        list.push(StoredPosting { kind: 5, key: Vec::new(), slots: share(&self.symlinks) });
        proof {
            let items = all_stored(list@);
            assert(items[items.len() - 2].1 =~= Seq::<u8>::empty());
            assert(items[items.len() - 1].1 =~= Seq::<u8>::empty());
            assert(items =~= before + seq![
                (4u8, Seq::<u8>::empty(), self@.directories),
                (5u8, Seq::<u8>::empty(), self@.symlinks),
            ]);
            assert(lists(items, self@, a, b, c));
        }
        list
    }
}

proof fn lemma_restored_parts(
    view: PostingsView,
    first: Seq<(u8, Seq<u8>, Set<u32>)>,
    second: Seq<(u8, Seq<u8>, Set<u32>)>,
)
    ensures
        restored_from(view, first + second) == (match restored_from(view, first) {
            Some(between) => restored_from(between, second),
            None => None,
        }),
    decreases second.len(),
{
    if second.len() == 0 {
        assert(first + second =~= first);
    } else {
        lemma_restored_parts(view, first, second.drop_last());
        assert((first + second).drop_last() =~= first + second.drop_last());
        assert((first + second).last() == second.last());
    }
}

/// The keys of a kind.
pub open spec fn fits_kind(kind: u8, key: Seq<u8>) -> bool {
    ||| kind == 1 && key.len() == 1
    ||| kind == 2 && key.len() == 2
    ||| kind == 3 && key.len() <= MAX_EXTENSION_BYTES && vstd::utf8::valid_utf8(key)
}

/// Postings with one of their maps replaced.
pub open spec fn with_kind(
    view: PostingsView,
    kind: u8,
    map: Map<Seq<u8>, Set<u32>>,
) -> PostingsView {
    if kind == 1 {
        PostingsView { name_bytes: map, ..view }
    } else if kind == 2 {
        PostingsView { name_pairs: map, ..view }
    } else {
        PostingsView { extensions: map, ..view }
    }
}

proof fn lemma_restored_kind(view: PostingsView, kind: u8, list: Seq<Posting>)
    requires
        1 <= kind <= 3,
        with_kind(view, kind, Map::empty()) == view,
        posting_map::distinct_keys(list),
        forall|i: int| 0 <= i < list.len() ==> fits_kind(kind, (#[trigger] list[i]).key@),
    ensures
        restored_from(view, of_kind(kind, list)) == Some(
            with_kind(view, kind, posting_map::table(list)),
        ),
    decreases list.len(),
{
    if list.len() == 0 {
        assert(posting_map::table(list) =~= Map::empty());
        assert(of_kind(kind, list) =~= Seq::empty());
    } else {
        let (head, last) = (list.drop_last(), list.last());
        assert forall|i: int| 0 <= i < head.len() implies fits_kind(
            kind,
            (#[trigger] head[i]).key@,
        ) by {
            assert(head[i] == list[i]);
        }
        assert forall|i: int, j: int| 0 <= i < j < head.len() implies (#[trigger] head[i]).key@ != (
        #[trigger] head[j]).key@ by {
            assert(list[i].key@ != list[j].key@);
        }
        lemma_restored_kind(view, kind, head);
        assert(of_kind(kind, list).drop_last() =~= of_kind(kind, head));
        assert(fits_kind(kind, list[list.len() - 1].key@));
        assert(!posting_map::holds_key(head, last.key@)) by {
            if posting_map::holds_key(head, last.key@) {
                let i = choose|i: int|
                    0 <= i < head.len() && (#[trigger] head[i]).key@ == last.key@;
                assert(list[i].key@ != list[list.len() - 1].key@);
            }
        }
        posting_map::lemma_added(head, last);
        assert(head.push(last) =~= list);
    }
}

/// What was stored of postings, put back into empty ones, gives the same postings: so long as
/// each key fits its kind, as those of rows do whose extensions are not too long.
pub proof fn law_stored_postings_are_restored(
    items: Seq<(u8, Seq<u8>, Set<u32>)>,
    view: PostingsView,
    bytes: Seq<Posting>,
    pairs: Seq<Posting>,
    extensions: Seq<Posting>,
)
    requires
        lists(items, view, bytes, pairs, extensions),
        forall|key: Seq<u8>| #[trigger] view.name_bytes.dom().contains(key) ==> fits_kind(1, key),
        forall|key: Seq<u8>| #[trigger] view.name_pairs.dom().contains(key) ==> fits_kind(2, key),
        forall|key: Seq<u8>| #[trigger] view.extensions.dom().contains(key) ==> fits_kind(3, key),
    ensures
        restored_from(nothing(), items) == Some(view),
{
    lemma_keys_fit(1, bytes, view.name_bytes);
    lemma_keys_fit(2, pairs, view.name_pairs);
    lemma_keys_fit(3, extensions, view.extensions);
    let (a, b, c) = (of_kind(1, bytes), of_kind(2, pairs), of_kind(3, extensions));
    let rest = seq![
        (4u8, Seq::<u8>::empty(), view.directories),
        (5u8, Seq::<u8>::empty(), view.symlinks),
    ];
    let start = nothing();
    lemma_restored_kind(start, 1, bytes);
    let one = with_kind(start, 1, view.name_bytes);
    lemma_restored_kind(one, 2, pairs);
    let two = with_kind(one, 2, view.name_pairs);
    lemma_restored_kind(two, 3, extensions);
    let three = with_kind(two, 3, view.extensions);
    lemma_restored_parts(start, a, b);
    lemma_restored_parts(start, a + b, c);
    lemma_restored_parts(start, a + b + c, rest);
    reveal_with_fuel(restored_from, 3);
    assert(rest.drop_last().drop_last() =~= Seq::empty());
    assert(rest.drop_last().last() == rest[0]);
    assert(restored_from(three, rest) == Some(view));
}

proof fn lemma_keys_fit(kind: u8, list: Seq<Posting>, map: Map<Seq<u8>, Set<u32>>)
    requires
        posting_map::table(list) == map,
        forall|key: Seq<u8>| #[trigger] map.dom().contains(key) ==> fits_kind(kind, key),
    ensures
        forall|i: int| 0 <= i < list.len() ==> fits_kind(kind, (#[trigger] list[i]).key@),
{
    assert forall|i: int| 0 <= i < list.len() implies fits_kind(kind, (#[trigger] list[i]).key@) by {
        assert(posting_map::holds_key(list, list[i].key@));
        assert(map.dom().contains(list[i].key@));
    }
}

/// A query that the postings answer.
pub open spec fn answerable(query: QueryView) -> bool
    decreases query,
{
    match query {
        QueryView::All => true,
        QueryView::And(children) => all_answerable(children),
        QueryView::Or(children) => all_answerable(children),
        QueryView::Not(child) => answerable(*child),
        QueryView::Term(term) => match term {
            TermView::Text { field, needle, sensitive } => field == Field::Name && !sensitive
                && text::bytes_of(needle).len() <= 2,
            TermView::Extension(_) => true,
            TermView::IsDir(_) => true,
            TermView::IsSymlink => true,
            _ => false,
        },
    }
}

pub open spec fn all_answerable(queries: Seq<QueryView>) -> bool
    decreases queries,
{
    queries.len() == 0 || (all_answerable(queries.drop_last()) && answerable(queries.last()))
}

proof fn lemma_all_answerable(queries: Seq<QueryView>)
    ensures
        all_answerable(queries) == forall|i: int|
            0 <= i < queries.len() ==> answerable(#[trigger] queries[i]),
    decreases queries.len(),
{
    if queries.len() > 0 {
        let head = queries.drop_last();
        lemma_all_answerable(head);
        if all_answerable(queries) {
            assert forall|i: int| 0 <= i < queries.len() implies answerable(
                #[trigger] queries[i],
            ) by {
                if i < head.len() {
                    assert(answerable(head[i]));
                }
            }
        }
        if forall|i: int| 0 <= i < queries.len() ==> answerable(#[trigger] queries[i]) {
            assert forall|i: int| 0 <= i < head.len() implies answerable(#[trigger] head[i]) by {
                assert(answerable(queries[i]));
            }
            assert(answerable(queries[queries.len() - 1]));
        }
    }
}

/// The live slots whose rows a query matches.
pub open spec fn matching(
    query: QueryView,
    rows: Map<u32, IndexedFile>,
    live: Set<u32>,
) -> Set<u32> {
    Set::new(
        |slot: u32|
            live.contains(slot) && evaluate::verdict(Mode::Full, query, rows[slot], None) is True,
    )
}

/// The live slots whose rows a conjunction (`all`) or a disjunction matches.
pub open spec fn matching_combined(
    queries: Seq<QueryView>,
    all: bool,
    rows: Map<u32, IndexedFile>,
    live: Set<u32>,
) -> Set<u32> {
    Set::new(
        |slot: u32|
            live.contains(slot) && evaluate::combined(Mode::Full, queries, all, rows[slot], None)
                is True,
    )
}

/// An answerable query is decided for every row.
pub proof fn lemma_decided(query: QueryView, file: IndexedFile)
    requires
        answerable(query),
    ensures
        evaluate::verdict(Mode::Full, query, file, None) is True || evaluate::verdict(
            Mode::Full,
            query,
            file,
            None,
        ) is False,
    decreases query,
{
    match query {
        QueryView::And(children) => lemma_combined_decided(children, true, file),
        QueryView::Or(children) => lemma_combined_decided(children, false, file),
        QueryView::Not(child) => lemma_decided(*child, file),
        _ => {},
    }
}

proof fn lemma_combined_decided(queries: Seq<QueryView>, all: bool, file: IndexedFile)
    requires
        all_answerable(queries),
    ensures
        evaluate::combined(Mode::Full, queries, all, file, None) is True || evaluate::combined(
            Mode::Full,
            queries,
            all,
            file,
            None,
        ) is False,
    decreases queries,
{
    if queries.len() > 0 {
        lemma_combined_decided(queries.drop_last(), all, file);
        lemma_decided(queries.last(), file);
    }
}

impl MetadataPostings {
    /// Whether the postings answer a query.
    pub fn supports(query: &Query) -> (yes: bool)
        ensures
            yes == answerable(query@),
        decreases query,
    {
        match query {
            Query::All => true,
            Query::And(children) => Self::supports_all(children),
            Query::Or(children) => Self::supports_all(children),
            Query::Not(child) => Self::supports(&**child),
            Query::Term(term) => {
                assert(query@ == QueryView::Term(term@));
                match term {
                    Term::Text { field, needle, sensitive } => matches!(field, Field::Name)
                        && !*sensitive && needle.as_str().as_bytes().len() <= 2,
                    Term::Extension(_) => true,
                    Term::IsDir(_) => true,
                    Term::IsSymlink => true,
                    _ => false,
                }
            },
        }
    }

    fn supports_all(queries: &Vec<Query>) -> (yes: bool)
        ensures
            yes == all_answerable(model::query_views(queries@)),
        decreases queries,
    {
        let ghost views = model::query_views(queries@);
        proof {
            model::lemma_query_views(queries@);
            lemma_all_answerable(views);
        }
        let mut next: usize = 0;
        while next < queries.len()
            invariant
                next <= queries@.len(),
                views == model::query_views(queries@),
                views.len() == queries@.len(),
                forall|i: int| 0 <= i < views.len() ==> views[i] == queries@[i]@,
                forall|i: int| 0 <= i < next ==> answerable(#[trigger] views[i]),
                all_answerable(views) == forall|i: int|
                    0 <= i < views.len() ==> answerable(#[trigger] views[i]),
            decreases queries@.len() - next,
        {
            assert(decreases_to!(queries => queries@[next as int]));
            if !Self::supports(&queries[next]) {
                assert(!answerable(views[next as int]));
                return false;
            }
            next = next + 1;
        }
        true
    }

    /// The live slots whose rows a query matches, where the postings answer it.
    pub fn exact(&self, query: &Query, live: &RoaringBitmap) -> (found: Option<RoaringBitmap>)
        requires
            self.wf(),
        ensures
            match found {
                Some(slots) => answerable(query@) && forall|rows: Map<u32, IndexedFile>| #[trigger]
                    self.describes(rows) && bitmaps::slots_in(*live).subset_of(rows.dom())
                        ==> bitmaps::slots_in(slots) == matching(
                        query@,
                        rows,
                        bitmaps::slots_in(*live),
                    ),
                None => !answerable(query@),
            },
        decreases query,
    {
        let ghost (view, all) = (query@, bitmaps::slots_in(*live));
        let found = match query {
            Query::All => copy_bitmap(live),
            Query::And(children) => match self.exact_all(children, true, live) {
                Some(found) => found,
                None => {
                    return None;
                },
            },
            Query::Or(children) => match self.exact_all(children, false, live) {
                Some(found) => found,
                None => {
                    return None;
                },
            },
            Query::Not(child) => {
                let inner = match self.exact(&**child, live) {
                    Some(inner) => inner,
                    None => {
                        return None;
                    },
                };
                let mut rest = copy_bitmap(live);
                subtract(&mut rest, &inner);
                proof {
                    assert forall|rows: Map<u32, IndexedFile>, t: u32|
                        #![trigger self.describes(rows), all.contains(t)]
                        self.describes(rows) && all.subset_of(rows.dom()) && all.contains(
                            t,
                        ) implies bitmaps::slots_in(rest).contains(t) == matching(
                        view,
                        rows,
                        all,
                    ).contains(t) by {
                        assert(bitmaps::slots_in(inner) == matching(child@, rows, all));
                        lemma_decided(child@, rows[t]);
                    }
                }
                rest
            },
            Query::Term(term) => {
                assert(view == QueryView::Term(term@));
                match self.exact_term(term, live) {
                    Some(found) => found,
                    None => {
                        return None;
                    },
                }
            },
        };
        let mut result = found;
        intersect(&mut result, live);
        proof {
            assert forall|rows: Map<u32, IndexedFile>| #[trigger]
                self.describes(rows) && all.subset_of(rows.dom()) implies bitmaps::slots_in(result)
                == matching(view, rows, all) by {
                let want = matching(view, rows, all);
                assert forall|t: u32| #[trigger] bitmaps::slots_in(result).contains(t)
                    == want.contains(t) by {
                    assert(all.contains(t) == all.contains(t));
                }
                assert(bitmaps::slots_in(result) =~= want);
            }
        }
        Some(result)
    }

    fn looked_up(postings: &PostingMap, key: &[u8]) -> (slots: RoaringBitmap)
        requires
            postings.wf(),
        ensures
            bitmaps::slots_in(slots) == posting_map::slots_of(postings@, key@),
    {
        match postings.get(key) {
            Some(found) => copy_bitmap(found),
            None => RoaringBitmap::new(),
        }
    }

    fn exact_extensions(&self, extensions: &Vec<String>) -> (found: RoaringBitmap)
        requires
            self.wf(),
        ensures
            forall|slot: u32| #[trigger]
                bitmaps::slots_in(found).contains(slot) == exists|i: int|
                    0 <= i < extensions@.len() && posting_map::slots_of(
                        self.extensions@,
                        text::bytes_of((#[trigger] extensions@[i])@),
                    ).contains(slot),
    {
        let mut found = RoaringBitmap::new();
        let mut next: usize = 0;
        while next < extensions.len()
            invariant
                next <= extensions@.len(),
                self.wf(),
                forall|slot: u32| #[trigger]
                    bitmaps::slots_in(found).contains(slot) == exists|i: int|
                        0 <= i < next && posting_map::slots_of(
                            self.extensions@,
                            text::bytes_of((#[trigger] extensions@[i])@),
                        ).contains(slot),
            decreases extensions@.len() - next,
        {
            let more = Self::looked_up(
                &self.extensions,
                extensions[next].as_str().as_bytes(),
            );
            let ghost before = bitmaps::slots_in(found);
            unite(&mut found, &more);
            proof {
                assert forall|slot: u32| #[trigger] bitmaps::slots_in(found).contains(slot)
                    == exists|i: int|
                    0 <= i < next + 1 && posting_map::slots_of(
                        self.extensions@,
                        text::bytes_of((#[trigger] extensions@[i])@),
                    ).contains(slot) by {
                    if before.contains(slot) {
                        let i = choose|i: int|
                            0 <= i < next && posting_map::slots_of(
                                self.extensions@,
                                text::bytes_of((#[trigger] extensions@[i])@),
                            ).contains(slot);
                        assert(0 <= i < next + 1 && extensions@[i] == extensions@[i]);
                    }
                    if bitmaps::slots_in(more).contains(slot) {
                        assert(extensions@[next as int] == extensions@[next as int]);
                    }
                }
            }
            next = next + 1;
        }
        found
    }

    fn exact_term(&self, term: &Term, live: &RoaringBitmap) -> (found: Option<RoaringBitmap>)
        requires
            self.wf(),
        ensures
            match found {
                Some(slots) => answerable(QueryView::Term(term@)) && forall|
                    rows: Map<u32, IndexedFile>,
                    t: u32,
                |
                    #![trigger self.describes(rows), bitmaps::slots_in(*live).contains(t)]
                    self.describes(rows) && bitmaps::slots_in(*live).subset_of(rows.dom())
                        && bitmaps::slots_in(*live).contains(t) ==> bitmaps::slots_in(
                        slots,
                    ).contains(t) == (evaluate::verdict(
                        Mode::Full,
                        QueryView::Term(term@),
                        rows[t],
                        None,
                    ) is True),
                None => !answerable(QueryView::Term(term@)),
            },
    {
        match term {
            Term::Text { field, needle, sensitive } => {
                if !matches!(field, Field::Name) || *sensitive {
                    return None;
                }
                let bytes = needle.as_str().as_bytes();
                if bytes.len() == 0 {
                    proof {
                        assert forall|name: Seq<u8>| #[trigger] text::occurs(name, bytes@) by {
                            assert(name.subrange(0, 0) =~= bytes@);
                            assert(text::occurs_at(name, bytes@, 0));
                        }
                    }
                    Some(copy_bitmap(live))
                } else if bytes.len() == 1 {
                    let found = Self::looked_up(&self.name_bytes, bytes);
                    proof {
                        assert forall|rows: Map<u32, IndexedFile>| #[trigger]
                            self.describes(rows) implies bitmaps::slots_in(found) == slots_where(
                            rows,
                            |file: IndexedFile| bytes@.len() == 1 && name_holds(file, bytes@),
                        ) by {}
                    }
                    Some(found)
                } else if bytes.len() == 2 {
                    let found = Self::looked_up(&self.name_pairs, bytes);
                    proof {
                        assert forall|rows: Map<u32, IndexedFile>| #[trigger]
                            self.describes(rows) implies bitmaps::slots_in(found) == slots_where(
                            rows,
                            |file: IndexedFile| bytes@.len() == 2 && name_holds(file, bytes@),
                        ) by {}
                    }
                    Some(found)
                } else {
                    None
                }
            },
            Term::Extension(extensions) => {
                let found = self.exact_extensions(extensions);
                proof {
                    let list = text::texts(extensions@);
                    assert forall|rows: Map<u32, IndexedFile>, t: u32|
                        #![trigger self.describes(rows), bitmaps::slots_in(*live).contains(t)]
                        self.describes(rows) && bitmaps::slots_in(*live).subset_of(rows.dom())
                            && bitmaps::slots_in(*live).contains(t) implies bitmaps::slots_in(
                        found,
                    ).contains(t) == list.contains(extension_key(rows[t])) by {
                        let own = extension_key(rows[t]);
                        if bitmaps::slots_in(found).contains(t) {
                            let i = choose|i: int|
                                0 <= i < extensions@.len() && posting_map::slots_of(
                                    self.extensions@,
                                    text::bytes_of((#[trigger] extensions@[i])@),
                                ).contains(t);
                            let key = text::bytes_of(extensions@[i]@);
                            assert(posting_map::slots_of(self.extensions@, key) == slots_where(
                                rows,
                                |file: IndexedFile| has_extension(file, key),
                            ));
                            text::lemma_same_bytes(own, extensions@[i]@);
                            assert(list[i] == own);
                        }
                        if list.contains(own) {
                            let i = choose|i: int| 0 <= i < list.len() && list[i] == own;
                            let key = text::bytes_of(extensions@[i]@);
                            assert(posting_map::slots_of(self.extensions@, key) == slots_where(
                                rows,
                                |file: IndexedFile| has_extension(file, key),
                            ));
                        }
                    }
                }
                Some(found)
            },
            Term::IsDir(dir) => {
                if *dir {
                    Some(copy_bitmap(&self.directories))
                } else {
                    let mut rest = copy_bitmap(live);
                    subtract(&mut rest, &self.directories);
                    Some(rest)
                }
            },
            Term::IsSymlink => Some(copy_bitmap(&self.symlinks)),
            _ => None,
        }
    }

    fn exact_all(&self, queries: &Vec<Query>, conjunction: bool, live: &RoaringBitmap) -> (found:
        Option<RoaringBitmap>)
        requires
            self.wf(),
        ensures
            match found {
                Some(slots) => all_answerable(model::query_views(queries@)) && forall|
                    rows: Map<u32, IndexedFile>,
                | #[trigger]
                    self.describes(rows) && bitmaps::slots_in(*live).subset_of(rows.dom())
                        ==> bitmaps::slots_in(slots) == matching_combined(
                        model::query_views(queries@),
                        conjunction,
                        rows,
                        bitmaps::slots_in(*live),
                    ),
                None => !all_answerable(model::query_views(queries@)),
            },
        decreases queries,
    {
        let ghost views = model::query_views(queries@);
        let ghost all = bitmaps::slots_in(*live);
        proof {
            model::lemma_query_views(queries@);
            lemma_all_answerable(views);
        }
        let mut found = if conjunction {
            copy_bitmap(live)
        } else {
            RoaringBitmap::new()
        };
        let mut next: usize = 0;
        proof {
            assert(views.take(0) =~= Seq::<QueryView>::empty());
            assert forall|rows: Map<u32, IndexedFile>| #[trigger]
                self.describes(rows) && all.subset_of(rows.dom()) implies bitmaps::slots_in(found)
                == matching_combined(views.take(0), conjunction, rows, all) by {
                assert(bitmaps::slots_in(found) =~= matching_combined(
                    views.take(0),
                    conjunction,
                    rows,
                    all,
                ));
            }
        }
        while next < queries.len()
            invariant
                next <= queries@.len(),
                self.wf(),
                all == bitmaps::slots_in(*live),
                views == model::query_views(queries@),
                views.len() == queries@.len(),
                forall|i: int| 0 <= i < views.len() ==> views[i] == queries@[i]@,
                all_answerable(views) == forall|i: int|
                    0 <= i < views.len() ==> answerable(#[trigger] views[i]),
                all_answerable(views.take(next as int)),
                forall|rows: Map<u32, IndexedFile>| #[trigger]
                    self.describes(rows) && all.subset_of(rows.dom()) ==> bitmaps::slots_in(found)
                        == matching_combined(views.take(next as int), conjunction, rows, all),
            decreases queries@.len() - next,
        {
            assert(decreases_to!(queries => queries@[next as int]));
            let ghost part = views.take(next + 1);
            let ghost before = bitmaps::slots_in(found);
            assert(part.drop_last() =~= views.take(next as int));
            assert(part.last() == queries@[next as int]@);
            let one = match self.exact(&queries[next], live) {
                Some(one) => one,
                None => {
                    assert(!answerable(views[next as int]));
                    return None;
                },
            };
            if conjunction {
                intersect(&mut found, &one);
            } else {
                unite(&mut found, &one);
            }
            proof {
                assert forall|rows: Map<u32, IndexedFile>| #[trigger]
                    self.describes(rows) && all.subset_of(
                        rows.dom(),
                    ) implies bitmaps::slots_in(found) == matching_combined(
                    part,
                    conjunction,
                    rows,
                    all,
                ) by {
                    let want = matching_combined(part, conjunction, rows, all);
                    assert(bitmaps::slots_in(one) == matching(part.last(), rows, all));
                    assert forall|t: u32| #[trigger] bitmaps::slots_in(found).contains(t)
                        == want.contains(t) by {
                        if all.contains(t) {
                            lemma_decided(part.last(), rows[t]);
                            lemma_combined_decided(part.drop_last(), conjunction, rows[t]);
                        }
                    }
                    assert(bitmaps::slots_in(found) =~= want);
                }
            }
            next = next + 1;
        }
        assert(views.take(next as int) =~= views);
        Some(found)
    }

    /// Asked whether the sets of directories, or those of links, are one allocation, the answer was
    /// `same`.
    pub closed spec fn sets_compared(&self, other: &Self, links: bool, same: bool) -> bool {
        if links {
            call_ensures(
                same_allocation::<RoaringBitmap>,
                (&self.symlinks, &other.symlinks),
                same,
            )
        } else {
            call_ensures(
                same_allocation::<RoaringBitmap>,
                (&self.directories, &other.directories),
                same,
            )
        }
    }

    /// Asked of each part of two sets of postings, the answer was that it is shared; or that it is
    /// not, of some part.
    pub open spec fn storage_compared(&self, other: &Self, same: bool) -> bool {
        if same {
            &&& self.name_bytes.all_compared(&other.name_bytes, true)
            &&& self.name_pairs.all_compared(&other.name_pairs, true)
            &&& self.extensions.all_compared(&other.extensions, true)
            &&& self.sets_compared(other, false, true)
            &&& self.sets_compared(other, true, true)
        } else {
            ||| self.name_bytes.all_compared(&other.name_bytes, false)
            ||| self.name_pairs.all_compared(&other.name_pairs, false)
            ||| self.extensions.all_compared(&other.extensions, false)
            ||| self.sets_compared(other, false, false)
            ||| self.sets_compared(other, true, false)
        }
    }

    /// Whether two sets of postings are one in memory.
    pub fn shares_storage(&self, other: &Self) -> (shared: bool)
        requires
            self.wf(),
            other.wf(),
        ensures
            shared ==> self.name_bytes@ == other.name_bytes@ && self.name_pairs@
                == other.name_pairs@ && self.extensions@ == other.extensions@
                && bitmaps::slots_in(*self.directories) == bitmaps::slots_in(*other.directories)
                && bitmaps::slots_in(*self.symlinks) == bitmaps::slots_in(*other.symlinks),
            self.storage_compared(other, shared),
    {
        self.name_bytes.shares_all(&other.name_bytes) && self.name_pairs.shares_all(
            &other.name_pairs,
        ) && self.extensions.shares_all(&other.extensions) && same_allocation(
            &self.directories,
            &other.directories,
        ) && same_allocation(&self.symlinks, &other.symlinks)
    }
}

} // verus!
