//! Reusable buffers for the texts that a query looks at.
//!
//! What is in use is counted, and the most that ever was. Buffers come back to the pool they
//! were taken from, unless it was cleared meanwhile, is full, or has no room in its budget.
use vstd::prelude::*;

verus! {

/// `String::clear`.
#[verifier::external_body]
fn clear_text(text: &mut String)
    ensures
        final(text)@ == Seq::<char>::empty(),
{
    text.clear()
}

/// `String::reserve`: makes room and leaves the text as it is.
#[verifier::external_body]
fn reserve_text(text: &mut String, additional: usize)
    requires
        old(text)@.len() == 0,
        additional <= isize::MAX,
    ensures
        final(text)@ == old(text)@,
{
    text.reserve(additional)
}

/// `String::capacity`. How much an allocator gave is left open.
#[verifier::external_body]
fn text_room(text: &String) -> (bytes: usize) {
    text.capacity()
}

/// `Vec::capacity`. How much an allocator gave is left open.
#[verifier::external_body]
fn byte_room(bytes: &Vec<u8>) -> (room: usize) {
    bytes.capacity()
}

/// Asked how much room a text has, the answer was `room`.
pub closed spec fn text_measured(text: String, room: usize) -> bool {
    call_ensures(text_room, (&text,), room)
}

/// Asked how much room a buffer has, the answer was `room`.
pub closed spec fn bytes_measured(bytes: Vec<u8>, room: usize) -> bool {
    call_ensures(byte_room, (&bytes,), room)
}

/// Buffers that wait for their next use, and the count of those in use.
#[derive(Debug)]
pub struct ScratchPool {
    texts: Vec<String>,
    bytes: Vec<Vec<u8>>,
    active: usize,
    peak: usize,
    epoch: usize,
    limit: usize,
}

/// A text buffer in use.
#[derive(Debug)]
pub struct TextScratch {
    value: String,
    epoch: usize,
    held: usize,
}

impl View for TextScratch {
    type V = Seq<char>;

    closed spec fn view(&self) -> Seq<char> {
        self.value@
    }
}

/// Which of two counts is larger.
pub open spec fn larger(a: usize, b: usize) -> usize {
    if a < b {
        b
    } else {
        a
    }
}

/// What is left of some after one was taken, where there was one.
pub open spec fn one_less(count: nat) -> int {
    if count == 0 {
        0
    } else {
        count - 1
    }
}

impl ScratchPool {
    /// How many bytes are in use.
    pub closed spec fn in_use(&self) -> usize {
        self.active
    }

    /// The most that was ever in use.
    pub closed spec fn most(&self) -> usize {
        self.peak
    }

    /// How often the pool was cleared.
    pub closed spec fn cleared(&self) -> usize {
        self.epoch
    }

    /// How many text buffers wait.
    pub closed spec fn waiting_texts(&self) -> nat {
        self.texts@.len()
    }

    /// How many byte buffers wait.
    pub closed spec fn waiting_bytes(&self) -> nat {
        self.bytes@.len()
    }

    /// How many buffers of a kind may wait.
    pub closed spec fn room(&self) -> usize {
        self.limit
    }

    /// What waits is empty, and no more than may.
    pub closed spec fn wf(&self) -> bool {
        &&& self.texts@.len() <= self.limit
        &&& self.bytes@.len() <= self.limit
        &&& forall|i: int| 0 <= i < self.texts@.len() ==> (#[trigger] self.texts@[i])@.len() == 0
        &&& forall|i: int| 0 <= i < self.bytes@.len() ==> (#[trigger] self.bytes@[i])@.len() == 0
    }

    /// The counts after more bytes came into use.
    pub open spec fn counts_more(before: ScratchPool, after: ScratchPool, held: usize) -> bool {
        &&& after.in_use() == before.in_use().wrapping_add(held)
        &&& after.most() == (if held == 0 {
            before.most()
        } else {
            larger(before.most(), before.in_use().wrapping_add(held))
        })
    }

    /// A pool that keeps up to `limit` buffers of a kind.
    pub fn new(limit: usize) -> (pool: Self)
        ensures
            pool.wf(),
            pool.in_use() == 0,
            pool.most() == 0,
            pool.cleared() == 0,
            pool.waiting_texts() == 0,
            pool.waiting_bytes() == 0,
            pool.room() == limit,
    {
        ScratchPool { texts: Vec::new(), bytes: Vec::new(), active: 0, peak: 0, epoch: 0, limit }
    }

    fn add_active(&mut self, bytes: usize)
        ensures
            Self::counts_more(*old(self), *final(self), bytes),
            final(self).texts == old(self).texts,
            final(self).bytes == old(self).bytes,
            final(self).epoch == old(self).epoch,
            final(self).limit == old(self).limit,
    {
        if bytes == 0 {
            return;
        }
        self.active = self.active.wrapping_add(bytes);
        if self.peak < self.active {
            self.peak = self.active;
        }
    }

    /// Let all that waits go. Buffers in use do not come back.
    pub fn clear(&mut self)
        requires
            old(self).wf(),
        ensures
            final(self).wf(),
            final(self).cleared() == old(self).cleared().wrapping_add(1),
            final(self).waiting_texts() == 0,
            final(self).waiting_bytes() == 0,
            final(self).in_use() == old(self).in_use(),
            final(self).most() == old(self).most(),
            final(self).room() == old(self).room(),
    {
        self.epoch = self.epoch.wrapping_add(1);
        self.texts = Vec::new();
        self.bytes = Vec::new();
    }

    /// How many bytes are in use, and the most that ever were.
    pub fn usage(&self) -> (counts: (usize, usize))
        ensures
            counts == (self.in_use(), self.most()),
    {
        (self.active, self.peak)
    }

    /// Lend a byte buffer with room for `capacity` bytes to `work`, which hands it back.
    /// `reserve` says whether a budget has room for keeping the buffer afterwards.
    pub fn with_bytes<R, W: FnOnce(Vec<u8>) -> (R, Vec<u8>), B: Fn(usize) -> bool>(
        &mut self,
        capacity: usize,
        work: W,
        reserve: B,
    ) -> (result: R)
        requires
            old(self).wf(),
            capacity <= isize::MAX,
            forall|buffer: Vec<u8>| buffer@.len() == 0 ==> #[trigger] call_requires(work, (buffer,)),
            forall|buffer: Vec<u8>, made: R, after: Vec<u8>| #[trigger]
                call_ensures(work, (buffer,), (made, after)) ==> after@.len() <= capacity,
            forall|bytes: usize| #[trigger] call_requires(reserve, (bytes,)),
        ensures
            final(self).wf(),
            final(self).in_use() == old(self).in_use(),
            exists|buffer: Vec<u8>, after: Vec<u8>, held: usize|
                buffer@.len() == 0 && #[trigger] bytes_measured(buffer, held)
                    && #[trigger] call_ensures(work, (buffer,), (result, after))
                    && final(self).most() == (if held == 0 {
                    old(self).most()
                } else {
                    larger(old(self).most(), old(self).in_use().wrapping_add(held))
                }),
            final(self).cleared() == old(self).cleared(),
            final(self).waiting_texts() == old(self).waiting_texts(),
            old(self).room() == 0 ==> final(self).waiting_bytes() == 0,
            old(self).room() > 0 ==> exists|kept: Vec<u8>, held: usize, keeps: bool|
                kept@.len() == 0 && #[trigger] bytes_measured(kept, held) && #[trigger] call_ensures(
                    reserve,
                    (held,),
                    keeps,
                ) && final(self).waiting_bytes() == one_less(old(self).waiting_bytes()) + if keeps {
                    1int
                } else {
                    0
                },
            final(self).room() == old(self).room(),
    {
        let mut buffer = match self.bytes.pop() {
            Some(buffer) => buffer,
            None => Vec::new(),
        };
        assert(buffer@.len() == 0);
        buffer.reserve(capacity);
        let held = byte_room(&buffer);
        assert(bytes_measured(buffer, held));
        self.add_active(held);
        let (result, mut after) = work(buffer);
        self.active = self.active.wrapping_sub(held);
        after.clear();
        if self.bytes.len() < self.limit {
            let room = byte_room(&after);
            assert(bytes_measured(after, room));
            if reserve(room) {
                self.bytes.push(after);
            }
        }
        result
    }
}

impl TextScratch {
    /// How many bytes the buffer counts for.
    pub closed spec fn counted(&self) -> usize {
        self.held
    }

    /// The buffer counts for the room that it was found to have.
    pub closed spec fn counts_its_room(&self) -> bool {
        text_measured(self.value, self.held)
    }

    /// Which clearing of the pool the buffer was taken after.
    pub closed spec fn taken_at(&self) -> usize {
        self.epoch
    }

    /// Take an empty buffer with room for `capacity` bytes.
    pub fn acquire(pool: &mut ScratchPool, capacity: usize) -> (scratch: Self)
        requires
            old(pool).wf(),
            capacity <= isize::MAX,
        ensures
            final(pool).wf(),
            scratch@ == Seq::<char>::empty(),
            scratch.taken_at() == old(pool).cleared(),
            scratch.counts_its_room(),
            ScratchPool::counts_more(*old(pool), *final(pool), scratch.counted()),
            final(pool).cleared() == old(pool).cleared(),
            final(pool).waiting_texts() == one_less(old(pool).waiting_texts()),
            final(pool).waiting_bytes() == old(pool).waiting_bytes(),
            final(pool).room() == old(pool).room(),
    {
        let epoch = pool.epoch;
        let mut value = match pool.texts.pop() {
            Some(value) => value,
            None => String::new(),
        };
        assert(value@ =~= Seq::<char>::empty());
        reserve_text(&mut value, capacity);
        let held = text_room(&value);
        pool.add_active(held);
        TextScratch { value, epoch, held }
    }

    /// Put a text that stands in two pieces into the buffer.
    pub fn assign(&mut self, pool: &mut ScratchPool, prefix: &str, suffix: &str)
        requires
            old(pool).wf(),
            vstd::utf8::encode_utf8(prefix@).len() + vstd::utf8::encode_utf8(suffix@).len()
                <= isize::MAX,
        ensures
            final(pool).wf(),
            final(self)@ == prefix@ + suffix@,
            final(self).taken_at() == old(self).taken_at(),
            final(self).counted() >= old(self).counted(),
            exists|emptied: String, room: usize|
                emptied@.len() == 0 && #[trigger] text_measured(emptied, room)
                    && final(self).counted() == larger(old(self).counted(), room),
            ScratchPool::counts_more(
                *old(pool),
                *final(pool),
                (final(self).counted() - old(self).counted()) as usize,
            ),
            final(pool).cleared() == old(pool).cleared(),
            final(pool).waiting_texts() == old(pool).waiting_texts(),
            final(pool).waiting_bytes() == old(pool).waiting_bytes(),
            final(pool).room() == old(pool).room(),
    {
        clear_text(&mut self.value);
        let length = prefix.as_bytes().len() + suffix.as_bytes().len();
        reserve_text(&mut self.value, length);
        let room = text_room(&self.value);
        assert(text_measured(self.value, room));
        let grown = if room > self.held {
            room - self.held
        } else {
            0
        };
        pool.add_active(grown);
        self.held = self.held + grown;
        self.value.append(prefix);
        self.value.append(suffix);
        assert(self.value@ =~= prefix@ + suffix@);
    }

    /// The text in the buffer.
    pub fn as_str(&self) -> (text: &str)
        ensures
            text@ == self@,
    {
        self.value.as_str()
    }

    /// Give the buffer back. `reserve` says whether a budget has room for keeping it.
    pub fn release<B: Fn(usize) -> bool>(self, pool: &mut ScratchPool, reserve: B)
        requires
            old(pool).wf(),
            forall|bytes: usize| #[trigger] call_requires(reserve, (bytes,)),
        ensures
            final(pool).wf(),
            final(pool).in_use() == old(pool).in_use().wrapping_sub(self.counted()),
            final(pool).most() == old(pool).most(),
            final(pool).cleared() == old(pool).cleared(),
            final(pool).waiting_bytes() == old(pool).waiting_bytes(),
            final(pool).room() == old(pool).room(),
            final(pool).waiting_texts() == old(pool).waiting_texts() || final(pool).waiting_texts()
                == old(pool).waiting_texts() + 1,
            final(pool).waiting_texts() == old(pool).waiting_texts() + 1 ==> self.taken_at() == old(
                pool,
            ).cleared() && old(pool).waiting_texts() < old(pool).room() && call_ensures(
                reserve,
                (self.counted(),),
                true,
            ),
            final(pool).waiting_texts() == old(pool).waiting_texts() ==> self.taken_at() != old(
                pool,
            ).cleared() || old(pool).waiting_texts() >= old(pool).room() || call_ensures(
                reserve,
                (self.counted(),),
                false,
            ),
    {
        let mut value = self.value;
        pool.active = pool.active.wrapping_sub(self.held);
        clear_text(&mut value);
        if self.epoch == pool.epoch && pool.texts.len() < pool.limit && reserve(self.held) {
            pool.texts.push(value);
        }
    }
}

/// A buffer that is taken, filled and given back leaves the count of bytes in use as it was.
pub proof fn law_what_comes_back_is_not_counted(before: usize, taken: usize, grown: usize)
    requires
        taken + grown <= usize::MAX,
    ensures
        before.wrapping_add(taken).wrapping_add(grown).wrapping_sub((taken + grown) as usize)
            == before,
{
}

} // verus!
