//! A single-producer / single-consumer ring of length-prefixed messages.
//!
//! ```text
//! [ head (8 B) | tail (8 B) | capacity (8 B) | data (capacity B) ]
//! ```
//!
//! `head` is the index of the next byte the consumer reads, `tail` the
//! index of the next byte the producer writes. Both grow without bound,
//! wrapping around the word size, and are reduced to a slot of the data
//! area (whose size is a power of two) only when a byte is accessed. Each
//! message is stored as a frame: its length as a `u32`, then its bytes.
//!
//! [`SpscRingBuffer`] holds one observed value of the header. The producer
//! observes `head` and `tail`, pushes, and publishes the new `tail`; the
//! consumer observes them, pops, and publishes the new `head`. The data area
//! is handed to each operation as a byte slice.
use vstd::prelude::*;
use vstd::arithmetic::power2::is_pow2;
use vstd::bytes::{spec_u32_from_le_bytes, spec_u32_to_le_bytes, lemma_auto_spec_u32_to_from_le_bytes, u32_from_le_bytes, u32_to_le_bytes};
use crate::error::{ShmError, invalid_arg};
use crate::mixed::{
    Column, ColumnView, Decoded, Item, Value, column_views, lemma_list_round_trip,
    lemma_raw_bytes_stored, read_back,
    schema_reads_back, singles, values_bytes, columns_failure, decode_columns, failure_message,
    item_bad, item_bytes, item_packable, pack_item, shown_as, spec_decode, spec_tag, unpack_mixed,
    unpack_one, unpack_one_message, unsupported_message,
};
use crate::ring_arith::{
    lemma_congruent, lemma_distance_congruent, lemma_mask_is_slot, lemma_multiple_shift,
    lemma_pow2_divides_word, lemma_slot_offset, lemma_wrap_add, lemma_wrap_distance_zero,
    lemma_wrap_keeps_slot, lemma_wrap_pop, lemma_wrap_push, lemma_wrap_small, lemma_wrapping_add,
    lemma_wrapping_sub, word_range, wrap,
};

verus! {

/// Size in bytes of the ring header (head, tail and capacity words).
pub const SPSC_HEADER_SIZE: usize = 24;

// ---- bytes of a ring ----

/// `len` bytes of the ring `region` read from index `pos` on, wrapping at
/// the end of the region.
pub open spec fn ring_read(region: Seq<u8>, pos: int, len: nat) -> Seq<u8> {
    Seq::new(len, |i: int| region[(pos + i) % (region.len() as int)])
}

/// The ring `region` after writing `bytes` from index `pos` on, wrapping at
/// the end of the region.
pub open spec fn ring_write(region: Seq<u8>, pos: int, bytes: Seq<u8>) -> Seq<u8> {
    Seq::new(
        region.len(),
        |k: int|
            if (k - pos) % (region.len() as int) < bytes.len() {
                bytes[(k - pos) % (region.len() as int)]
            } else {
                region[k]
            },
    )
}

/// The frame of one message: its length as a little-endian `u32`, then its
/// bytes.
pub open spec fn frame_of(m: Seq<u8>) -> Seq<u8> {
    spec_u32_to_le_bytes(m.len() as u32) + m
}

/// The frames of a sequence of messages, one after the other.
pub open spec fn frames(msgs: Seq<Seq<u8>>) -> Seq<u8>
    decreases msgs.len(),
{
    if msgs.len() == 0 {
        Seq::empty()
    } else {
        frames(msgs.drop_last()) + frame_of(msgs.last())
    }
}

/// Whether every message is short enough for its length to fit the `u32`
/// prefix.
pub open spec fn all_fit(msgs: Seq<Seq<u8>>) -> bool {
    forall|i: int| 0 <= i < msgs.len() ==> (#[trigger] msgs[i]).len() <= u32::MAX
}

// ---- the header ----

/// The mathematical form of a ring header.
pub struct RingView {
    pub head: usize,
    pub tail: usize,
    pub capacity: usize,
    /// Total mapped size including the header.
    pub map_size: usize,
}

impl RingView {
    /// The number of bytes between head and tail.
    pub open spec fn used(self) -> nat {
        wrap(self.tail - self.head) as nat
    }

    /// The bytes between head and tail: the frames not yet consumed.
    pub open spec fn stream(self, region: Seq<u8>) -> Seq<u8> {
        ring_read(region, self.head as int, self.used())
    }

    /// Whether the ring holds exactly `msgs`, oldest first.
    pub open spec fn holds(self, region: Seq<u8>, msgs: Seq<Seq<u8>>) -> bool {
        self.stream(region) == frames(msgs) && all_fit(msgs)
    }

    /// The length recorded by the frame at the head.
    pub open spec fn front_len(self, region: Seq<u8>) -> nat {
        spec_u32_from_le_bytes(ring_read(region, self.head as int, 4)) as nat
    }

    /// The bytes of the frame at the head.
    pub open spec fn front_payload(self, region: Seq<u8>) -> Seq<u8> {
        ring_read(region, self.head + 4, self.front_len(region))
    }

    /// The header after the frame at the head is consumed.
    pub open spec fn popped(self, region: Seq<u8>) -> RingView {
        RingView { head: wrap(self.head + 4 + self.front_len(region)) as usize, ..self }
    }

    /// The header after a frame of `len` bytes is published.
    pub open spec fn pushed(self, len: nat) -> RingView {
        RingView { tail: wrap(self.tail + len) as usize, ..self }
    }

    /// Whether no more bytes are in use than the capacity holds.
    pub open spec fn bounded(self) -> bool {
        self.used() <= self.capacity
    }

    /// The header after `k` frames are consumed, one after the other.
    pub open spec fn popped_times(self, region: Seq<u8>, k: nat) -> RingView
        decreases k,
    {
        if k == 0 {
            self
        } else {
            self.popped_times(region, (k - 1) as nat).popped(region)
        }
    }
}

/// One observed value of a ring header.
#[derive(Debug)]
pub struct SpscRingBuffer {
    head: usize,
    tail: usize,
    capacity: usize,
    /// Total mapped size including the header.
    map_size: usize,
}

/// What a pop returns: the raw bytes of a message, or the value read from
/// them with a tag.
#[derive(Debug, PartialEq, Eq)]
pub enum Popped {
    Raw(Vec<u8>),
    Value(Decoded),
}

impl View for SpscRingBuffer {
    type V = RingView;

    closed spec fn view(&self) -> RingView {
        RingView {
            head: self.head,
            tail: self.tail,
            capacity: self.capacity,
            map_size: self.map_size,
        }
    }
}

// ---- lemmas ----

/// The frames of messages start with the frame of the first.
pub proof fn lemma_frames_front(msgs: Seq<Seq<u8>>)
    requires
        msgs.len() > 0,
    ensures
        frames(msgs) == frame_of(msgs[0]) + frames(msgs.drop_first()),
    decreases msgs.len(),
{
    if msgs.len() == 1 {
        assert(msgs.drop_last() =~= Seq::<Seq<u8>>::empty());
        assert(msgs.drop_first() =~= Seq::<Seq<u8>>::empty());
        assert(msgs.last() == msgs[0]);
        assert(frames(msgs.drop_last()) == Seq::<u8>::empty());
        assert(frames(msgs.drop_first()) == Seq::<u8>::empty());
        assert(frames(msgs) == frames(msgs.drop_last()) + frame_of(msgs.last()));
        assert(frames(msgs) =~= frame_of(msgs[0]));
        assert(frame_of(msgs[0]) + frames(msgs.drop_first()) =~= frame_of(msgs[0]));
    } else {
        let init = msgs.drop_last();
        lemma_frames_front(init);
        assert(init.drop_first() =~= msgs.drop_first().drop_last());
        assert(msgs.drop_first().last() == msgs.last());
        assert(frames(msgs) =~= frame_of(msgs[0]) + frames(msgs.drop_first()));
    }
}

/// The frame of a short message records its length.
proof fn lemma_frame_len(m: Seq<u8>)
    requires
        m.len() <= u32::MAX,
    ensures
        frame_of(m).take(4) == spec_u32_to_le_bytes(m.len() as u32),
        spec_u32_from_le_bytes(frame_of(m).take(4)) == m.len(),
        frame_of(m).subrange(4, 4 + m.len() as int) == m,
        frame_of(m).len() == 4 + m.len(),
{
    lemma_auto_spec_u32_to_from_le_bytes();
    assert(frame_of(m).take(4) =~= spec_u32_to_le_bytes(m.len() as u32));
    assert(frame_of(m).subrange(4, 4 + m.len() as int) =~= m);
}

/// Reading from two positions in the same slot reads the same bytes.
proof fn lemma_ring_read_shift(region: Seq<u8>, p1: int, p2: int, len: nat)
    requires
        region.len() > 0,
        (p1 - p2) % (region.len() as int) == 0,
    ensures
        ring_read(region, p1, len) == ring_read(region, p2, len),
{
    let cap = region.len() as int;
    assert forall|i: int| 0 <= i < len implies ring_read(region, p1, len)[i] == ring_read(
        region,
        p2,
        len,
    )[i] by {
        lemma_congruent(p1 + i, p2 + i, cap);
    }
    assert(ring_read(region, p1, len) =~= ring_read(region, p2, len));
}

/// A window of a ring read is a ring read from further on.
proof fn lemma_ring_read_window(region: Seq<u8>, pos: int, len: nat, a: int, b: int)
    requires
        0 <= a <= b <= len,
    ensures
        ring_read(region, pos, len).subrange(a, b) == ring_read(region, pos + a, (b - a) as nat),
{
    assert(ring_read(region, pos, len).subrange(a, b) =~= ring_read(region, pos + a, (b - a) as nat));
}

/// Writing `b` at the tail of a window that leaves room for it appends `b`
/// to the window and leaves the window's bytes alone.
proof fn lemma_append_window(region: Seq<u8>, head: int, tail: int, used: nat, b: Seq<u8>)
    requires
        region.len() > 0,
        (tail - head - used) % (region.len() as int) == 0,
        used + b.len() <= region.len(),
    ensures
        ring_read(ring_write(region, tail, b), head, used + b.len()) == ring_read(region, head, used)
            + b,
{
    let cap = region.len() as int;
    let r2 = ring_write(region, tail, b);
    let lhs = ring_read(r2, head, used + b.len());
    let rhs = ring_read(region, head, used) + b;
    assert forall|i: int| 0 <= i < used + b.len() implies lhs[i] == rhs[i] by {
        let k = (head + i) % cap;
        lemma_multiple_shift(tail - head - used, -1, cap);
        lemma_multiple_shift(tail - head - used, 0, cap);
        if i < used {
            // the slot lies before the write, `cap - (used - i)` slots past the tail
            assert(head + i - tail - (i - used + cap) == (-1) * cap - (tail - head - used));
            lemma_slot_offset(head + i, tail, i - used + cap, cap);
            assert((k - tail) % cap == i - used + cap);
        } else {
            assert(head + i - tail - (i - used) == 0 * cap - (tail - head - used));
            lemma_slot_offset(head + i, tail, i - used, cap);
            assert((k - tail) % cap == i - used);
        }
    }
    assert(lhs =~= rhs);
}

// ---- byte access ----

/// Whether `p` is the power of two that [`next_power_of_two`] gives for
/// `n`: the smallest one at least `n`, or the largest of the word where
/// none is.
pub open spec fn next_pow2_of(n: usize, p: usize) -> bool {
    is_pow2(p as int) && (p == 1 || p / 2 < n) && (p >= n || 2 * p > usize::MAX)
}

/// Whether `msg` is the message of the error for a data capacity `cap`
/// that is not a power of two: it names the capacity and the powers of two
/// on either side of it.
pub open spec fn pow2_message(cap: usize, msg: Seq<char>) -> bool {
    exists|p: usize, a: Seq<char>, b: Seq<char>, c: Seq<char>|
        #![trigger next_pow2_of(cap, p), shown_as(cap, a), shown_as((p / 2) as usize, b), shown_as(p, c)]
        next_pow2_of(cap, p) && shown_as(cap, a) && shown_as((p / 2) as usize, b) && shown_as(p, c)
            && msg == "data capacity ("@ + a + ") must be a power of two; try "@ + b + " or "@ + c
}

/// The frame length of a message of `payload_len` bytes, saturating at the
/// word's maximum.
pub open spec fn frame_len_of(payload_len: nat) -> usize {
    if payload_len + 4 > usize::MAX {
        usize::MAX
    } else {
        (payload_len + 4) as usize
    }
}

/// Whether `msg` is the message of the error for a message of `payload_len`
/// bytes whose frame is larger than the capacity of a ring of `map_size`
/// bytes: it names the frame length, the capacity and the mapped size.
pub open spec fn too_large_message(payload_len: nat, cap: usize, map_size: usize, msg: Seq<char>) -> bool {
    exists|a: Seq<char>, b: Seq<char>, c: Seq<char>|
        #![trigger shown_as(frame_len_of(payload_len), a), shown_as(cap, b), shown_as(map_size, c)]
        shown_as(frame_len_of(payload_len), a) && shown_as(cap, b) && shown_as(map_size, c) && msg
            == "message too large: frame_len="@ + a + " > capacity="@ + b
            + "                  (map_size="@ + c + ")"@
}

/// Whether a capacity is a power of two.
pub fn is_power_of_two(n: usize) -> (b: bool)
    ensures
        b == is_pow2(n as int),
{
    reveal(is_pow2);
    if n == 0 {
        return false;
    }
    let mut m = n;
    while m > 1 && m % 2 == 0
        invariant
            m > 0,
            is_pow2(n as int) == is_pow2(m as int),
        decreases m,
    {
        proof {
            reveal(is_pow2);
        }
        m = m / 2;
    }
    m == 1
}

/// The smallest power of two at least `n` (1 for `n == 0`), capped at the
/// largest power of two of the word (used in a message only).
fn next_power_of_two(n: usize) -> (p: usize)
    ensures
        next_pow2_of(n, p),
{
    let mut p: usize = 1;
    proof {
        reveal(is_pow2);
    }
    while p < n && p <= usize::MAX / 2
        invariant
            p >= 1,
            is_pow2(p as int),
            p == 1 || p / 2 < n,
        decreases usize::MAX - p,
    {
        proof {
            reveal(is_pow2);
            assert((2 * p) % 2 == 0);
            assert((2 * p) / 2 == p);
        }
        p = p * 2;
    }
    p
}

/// Writes `src` into the ring from logical index `pos` on, wrapping at
/// `cap`.
fn write_bytes(region: &mut [u8], pos: usize, src: &[u8], cap: usize)
    requires
        old(region)@.len() == cap,
        is_pow2(cap as int),
        src@.len() <= cap,
    ensures
        final(region)@ == ring_write(old(region)@, pos as int, src@),
{
    proof {
        lemma_pow2_divides_word(cap);
    }
    let mask = cap - 1;
    let mut i: usize = 0;
    while i < src.len()
        invariant
            old(region)@.len() == cap,
            region@.len() == cap,
            is_pow2(cap as int),
            cap > 0,
            mask == cap - 1,
            word_range() % (cap as int) == 0,
            (word_range() / (cap as int)) * (cap as int) == word_range(),
            word_range() / (cap as int) > 0,
            src@.len() <= cap,
            i <= src@.len(),
            region@ == ring_write(old(region)@, pos as int, src@.take(i as int)),
        decreases src@.len() - i,
    {
        let w = pos.wrapping_add(i);
        let idx = w & mask;
        proof {
            lemma_wrapping_add(pos, i);
            lemma_mask_is_slot(w, cap);
            lemma_wrap_keeps_slot(pos + i, cap as int);
            assert(idx == (pos + i) % (cap as int));
        }
        let ghost before = region@;
        region[idx] = src[i];
        proof {
            let c = cap as int;
            let next = ring_write(old(region)@, pos as int, src@.take(i + 1));
            assert forall|k: int| 0 <= k < c implies region@[k] == next[k] by {
                let j = (k - pos) % c;
                if k == idx {
                    lemma_slot_offset(pos + i, pos as int, i as int, c);
                } else if j == i {
                    vstd::arithmetic::div_mod::lemma_small_mod(i as nat, c as nat);
                    vstd::arithmetic::div_mod::lemma_mod_equivalence(k - pos, i as int, c);
                    lemma_congruent(k, pos + i, c);
                    vstd::arithmetic::div_mod::lemma_small_mod(k as nat, c as nat);
                    assert(false);
                }
            }
            assert(region@ =~= next);
        }
        i = i + 1;
    }
    assert(src@.take(src@.len() as int) =~= src@);
}

/// Reads `len` bytes of the ring from logical index `pos` on, wrapping at
/// `cap`.
fn read_bytes(region: &[u8], pos: usize, len: usize, cap: usize) -> (r: Vec<u8>)
    requires
        region@.len() == cap,
        is_pow2(cap as int),
    ensures
        r@ == ring_read(region@, pos as int, len as nat),
{
    proof {
        lemma_pow2_divides_word(cap);
    }
    let mask = cap - 1;
    let mut out: Vec<u8> = Vec::new();
    let mut i: usize = 0;
    while i < len
        invariant
            region@.len() == cap,
            is_pow2(cap as int),
            cap > 0,
            mask == cap - 1,
            word_range() % (cap as int) == 0,
            (word_range() / (cap as int)) * (cap as int) == word_range(),
            word_range() / (cap as int) > 0,
            i <= len,
            out@ == ring_read(region@, pos as int, i as nat),
        decreases len - i,
    {
        let w = pos.wrapping_add(i);
        let idx = w & mask;
        proof {
            lemma_wrapping_add(pos, i);
            lemma_mask_is_slot(w, cap);
            lemma_wrap_keeps_slot(pos + i, cap as int);
        }
        out.push(region[idx]);
        i = i + 1;
        assert(out@ =~= ring_read(region@, pos as int, i as nat));
    }
    out
}

// ---- the ring ----

impl SpscRingBuffer {
    #[verifier::type_invariant]
    spec fn inv(self) -> bool {
        is_pow2(self.capacity as int)
    }

    /// Checks a segment of `map_size` bytes for use as a ring.
    ///
    /// Fails where the segment has no room beyond the header, and, for the
    /// process that creates the ring, where the data capacity
    /// (`map_size - 24`) is not a power of two. The creator gets the header
    /// it has to write: an empty ring of that capacity.
    pub fn new(map_size: usize, is_creator: bool) -> (r: Result<Option<SpscRingBuffer>, ShmError>)
        ensures
            r is Err <==> map_size <= SPSC_HEADER_SIZE || (is_creator && !is_pow2(
                map_size - SPSC_HEADER_SIZE,
            )),
            r matches Ok(h) ==> (h is Some <==> is_creator),
            r matches Ok(Some(ring)) ==> ring@ == (RingView {
                head: 0,
                tail: 0,
                capacity: (map_size - SPSC_HEADER_SIZE) as usize,
                map_size,
            }) && ring@.bounded() && forall|region: Seq<u8>| #[trigger]
                ring@.holds(region, Seq::empty()),
            r matches Err(e) ==> e is InvalidArg && if map_size <= SPSC_HEADER_SIZE {
                e.message() == "map_size must be > 24 bytes (spsc header)"@
            } else {
                pow2_message((map_size - SPSC_HEADER_SIZE) as usize, e.message())
            },
    {
        if map_size <= SPSC_HEADER_SIZE {
            return Err(invalid_arg("map_size must be > 24 bytes (spsc header)"));
        }
        if is_creator {
            let capacity = map_size - SPSC_HEADER_SIZE;
            if !is_power_of_two(capacity) {
                let up = next_power_of_two(capacity);
                let a = capacity.to_string();
                let b = (up / 2).to_string();
                let c = up.to_string();
                let mut m = String::from_str("data capacity (");
                m.append(a.as_str());
                m.append(") must be a power of two; try ");
                m.append(b.as_str());
                m.append(" or ");
                m.append(c.as_str());
                proof {
                    assert(shown_as(capacity, a@));
                    assert(shown_as((up / 2) as usize, b@));
                    assert(shown_as(up, c@));
                    assert(m@ == "data capacity ("@ + a@ + ") must be a power of two; try "@ + b@
                        + " or "@ + c@);
                    assert(next_pow2_of(capacity, up));
                }
                return Err(ShmError::InvalidArg(m));
            }
            let ring = SpscRingBuffer { head: 0, tail: 0, capacity, map_size };
            proof {
                assert forall|region: Seq<u8>| #[trigger] ring@.holds(region, Seq::empty()) by {
                    assert(ring_read(region, 0, 0) =~= Seq::<u8>::empty());
                    assert(frames(Seq::<Seq<u8>>::empty()) =~= Seq::<u8>::empty());
                }
            }
            return Ok(Some(ring));
        }
        Ok(None)
    }

    /// A ring header observed in a segment of `map_size` bytes, or `None`
    /// where it cannot describe a ring of that segment: the segment has no
    /// room beyond the header, the capacity exceeds the room, or the
    /// capacity is not a power of two.
    pub fn from_header(head: usize, tail: usize, capacity: usize, map_size: usize) -> (r: Option<
        SpscRingBuffer,
    >)
        ensures
            r is Some <==> map_size > SPSC_HEADER_SIZE && capacity <= map_size - SPSC_HEADER_SIZE
                && is_pow2(capacity as int),
            r matches Some(ring) ==> ring@ == (RingView { head, tail, capacity, map_size }),
    {
        if map_size <= SPSC_HEADER_SIZE || capacity > map_size - SPSC_HEADER_SIZE
            || !is_power_of_two(capacity) {
            return None;
        }
        Some(SpscRingBuffer { head, tail, capacity, map_size })
    }

    /// The head index: the next byte the consumer reads.
    pub fn head_index(&self) -> (h: usize)
        ensures
            h == self@.head,
    {
        self.head
    }

    /// The tail index: the next byte the producer writes.
    pub fn tail_index(&self) -> (t: usize)
        ensures
            t == self@.tail,
    {
        self.tail
    }

    /// Writes a message: a plain value, or the elements of a list one after
    /// the other, framed with a 4-byte length.
    ///
    /// Returns `Ok(true)` when the message was written, `Ok(false)` when the
    /// ring has not enough free space for it (back-pressure: the caller
    /// retries later). Fails where some value has no encoding and where the
    /// frame is larger than the whole capacity.
    pub fn push(&mut self, region: &mut [u8], data: &Item) -> (r: Result<bool, ShmError>)
        requires
            old(region)@.len() == old(self)@.capacity,
        ensures
            final(self)@.capacity == old(self)@.capacity,
            final(region)@.len() == old(region)@.len(),
            ({
                let payload = item_bytes(*data);
                let flen = payload.len() + 4;
                let v = old(self)@;
                &&& (r is Err <==> !item_packable(*data) || flen > v.capacity)
                &&& ((r == Ok::<bool, ShmError>(false)) <==> item_packable(*data) && flen <= v.capacity
                    && v.used() + flen > v.capacity)
                &&& r matches Ok(true) ==> {
                    &&& final(self)@ == v.pushed(flen)
                    &&& final(region)@ == ring_write(old(region)@, v.tail as int, frame_of(payload))
                    &&& final(self)@.stream(final(region)@) == v.stream(old(region)@) + frame_of(
                        payload,
                    )
                    &&& payload.len() <= u32::MAX ==> forall|msgs: Seq<Seq<u8>>|
                        v.holds(old(region)@, msgs) ==> #[trigger] final(self)@.holds(
                            final(region)@,
                            msgs.push(payload),
                        )
                }
                &&& !(r matches Ok(true)) ==> final(self)@ == v && final(region)@ == old(region)@
                &&& v.bounded() ==> final(self)@.bounded()
                &&& r matches Err(e) ==> e is InvalidArg && if item_packable(*data) {
                    too_large_message(payload.len(), v.capacity, v.map_size, e.message())
                } else {
                    e.message() == unsupported_message(item_bad(*data)->0)
                }
            }),
    {
        proof {
            use_type_invariant(&*self);
        }
        let mut payload: Vec<u8> = Vec::new();
        pack_item(data, &mut payload)?;
        let cap = self.capacity;
        if payload.len() > cap || cap - payload.len() < 4 {
            let flen = payload.len().saturating_add(4);
            let a = flen.to_string();
            let b = cap.to_string();
            let c = self.map_size.to_string();
            let mut m = String::from_str("message too large: frame_len=");
            m.append(a.as_str());
            m.append(" > capacity=");
            m.append(b.as_str());
            m.append("                  (map_size=");
            m.append(c.as_str());
            m.append(")");
            proof {
                assert(payload@ == item_bytes(*data));
                assert(flen == frame_len_of(payload@.len()));
                assert(shown_as(flen, a@));
                assert(shown_as(cap, b@));
                assert(shown_as(self.map_size, c@));
                assert(m@ == "message too large: frame_len="@ + a@ + " > capacity="@ + b@
                    + "                  (map_size="@ + c@ + ")"@);
                assert(too_large_message(payload@.len(), cap, self.map_size, m@));
            }
            return Err(ShmError::InvalidArg(m));
        }
        let frame_len = 4 + payload.len();
        let used = self.tail.wrapping_sub(self.head);
        proof {
            lemma_wrapping_sub(self.tail, self.head);
        }
        if used > cap || frame_len > cap - used {
            return Ok(false);
        }
        let ghost old_region = region@;
        let ghost p = payload@;
        let mut frame = u32_to_le_bytes(payload.len() as u32);
        frame.append(&mut payload);
        assert(frame@ =~= frame_of(p));
        write_bytes(region, self.tail, frame.as_slice(), cap);
        let ghost v = self@;
        self.tail = self.tail.wrapping_add(frame_len);
        proof {
            lemma_wrapping_add(v.tail, frame_len);
            lemma_pow2_divides_word(cap);
            lemma_distance_congruent(v.head as int, v.tail as int, cap as int);
            lemma_append_window(old_region, v.head as int, v.tail as int, used as nat, frame_of(p));
            lemma_wrap_push(v.tail as int, v.head as int, frame_len as int);
            assert(self@.used() == used + frame_len);
            assert forall|msgs: Seq<Seq<u8>>|
                p.len() <= u32::MAX && v.holds(old_region, msgs) implies #[trigger] self@.holds(
                region@,
                msgs.push(p),
            ) by {
                assert(msgs.push(p).drop_last() =~= msgs);
                assert(frames(msgs.push(p)) == frames(msgs) + frame_of(p));
            }
        }
        Ok(true)
    }

    /// Takes the frame at the head: `None` where the ring is empty,
    /// otherwise the bytes of the oldest message, which the head moves past.
    fn take_frame(&mut self, region: &[u8]) -> (r: Option<Vec<u8>>)
        requires
            region@.len() == old(self)@.capacity,
        ensures
            final(self)@.capacity == old(self)@.capacity,
            old(self)@.head == old(self)@.tail ==> r is None && final(self)@ == old(self)@,
            old(self)@.head != old(self)@.tail ==> (r matches Some(p) && p@ == old(
                self,
            )@.front_payload(region@) && final(self)@ == old(self)@.popped(region@)),
    {
        proof {
            use_type_invariant(&*self);
        }
        if self.head == self.tail {
            return None;
        }
        let cap = self.capacity;
        let hdr = read_bytes(region, self.head, 4, cap);
        let n = u32_from_le_bytes(hdr.as_slice()) as usize;
        let start = self.head.wrapping_add(4);
        let payload = read_bytes(region, start, n, cap);
        let ghost v = self@;
        self.head = start.wrapping_add(n);
        proof {
            lemma_pow2_divides_word(cap);
            lemma_wrapping_add(v.head, 4);
            lemma_wrapping_add(start, n);
            lemma_wrap_add(v.head + 4, n as int);
            lemma_wrap_keeps_slot(v.head + 4, cap as int);
            vstd::arithmetic::div_mod::lemma_mod_equivalence(wrap(v.head + 4), v.head + 4, cap as int);
            lemma_ring_read_shift(region@, start as int, v.head + 4, n as nat);
        }
        Some(payload)
    }

    /// Reads one message.
    ///
    /// Without a tag, returns the message's raw bytes; with a tag (e.g.
    /// `"str"`, `"int"`), the value read from them. Returns `Ok(None)`
    /// where the ring is empty. The message is consumed even where reading
    /// a value from it fails (for a tag string that names no type, or a
    /// message too short for the value).
    pub fn pop(&mut self, region: &[u8], tag: Option<&str>) -> (r: Result<Option<Popped>, ShmError>)
        requires
            region@.len() == old(self)@.capacity,
        ensures
            final(self)@.capacity == old(self)@.capacity,
            old(self)@.head == old(self)@.tail ==> (r matches Ok(None)) && final(self)@ == old(
                self,
            )@,
            old(self)@.head != old(self)@.tail ==> final(self)@ == old(self)@.popped(region@) && ({
                let p = old(self)@.front_payload(region@);
                match tag {
                    None => r matches Ok(Some(Popped::Raw(b))) && b@ == p,
                    Some(t) => match spec_tag(t@) {
                        None => r is Err,
                        Some(tt) => match spec_decode(p, tt) {
                            None => r is Err,
                            Some((d, _)) => r matches Ok(Some(Popped::Value(x))) && x@ == d,
                        },
                    },
                }
            }),
            forall|msgs: Seq<Seq<u8>>|
                #[trigger] old(self)@.holds(region@, msgs) ==> {
                    &&& (msgs.len() == 0 <==> r matches Ok(None))
                    &&& msgs.len() > 0 ==> final(self)@.holds(region@, msgs.drop_first())
                    &&& msgs.len() > 0 && tag is None ==> (r matches Ok(Some(Popped::Raw(b))) && b@
                        == msgs[0])
                    &&& old(self)@.bounded() ==> final(self)@.bounded()
                },
            r matches Err(e) ==> e is InvalidArg && tag is Some && unpack_one_message(
                old(self)@.front_payload(region@),
                tag->0@,
                e.message(),
            ),
    {
        proof {
            use_type_invariant(&*self);
            assert forall|msgs: Seq<Seq<u8>>| #[trigger]
                self@.holds(region@, msgs) implies (self@.head == self@.tail) <==> msgs.len() == 0 by {
                Self::lemma_fifo(self@, region@, msgs);
            }
        }
        let ghost v = self@;
        let payload = match self.take_frame(region) {
            None => return Ok(None),
            Some(p) => p,
        };
        proof {
            assert forall|msgs: Seq<Seq<u8>>| #[trigger]
                v.holds(region@, msgs) && msgs.len() > 0 implies payload@ == msgs[0]
                && self@.holds(region@, msgs.drop_first()) && self@.used() < v.used() by {
                Self::lemma_fifo(v, region@, msgs);
            }
        }
        match tag {
            None => Ok(Some(Popped::Raw(payload))),
            Some(t) => {
                let (value, _) = unpack_one(payload.as_slice(), t)?;
                Ok(Some(Popped::Value(value)))
            },
        }
    }

    /// Reads one message and reads values from it according to a schema of
    /// `(type_tag, count)` entries (see [`unpack_mixed`]).
    ///
    /// Returns `Ok(None)` where the ring is empty. The message is consumed
    /// even where the schema does not read it.
    pub fn pop_mixed(&mut self, region: &[u8], schema: &[(String, usize)]) -> (r: Result<
        Option<Vec<Column>>,
        ShmError,
    >)
        requires
            region@.len() == old(self)@.capacity,
        ensures
            final(self)@.capacity == old(self)@.capacity,
            old(self)@.head == old(self)@.tail ==> (r matches Ok(None)) && final(self)@ == old(
                self,
            )@,
            old(self)@.head != old(self)@.tail ==> final(self)@ == old(self)@.popped(region@) && match decode_columns(
                old(self)@.front_payload(region@),
                schema@,
            ) {
                None => r is Err,
                Some((cols, _)) => r matches Ok(Some(cs)) && column_views(cs@) == cols,
            },
            forall|msgs: Seq<Seq<u8>>|
                #[trigger] old(self)@.holds(region@, msgs) ==> {
                    &&& (msgs.len() == 0 <==> r matches Ok(None))
                    &&& msgs.len() > 0 ==> final(self)@.holds(region@, msgs.drop_first())
                    &&& msgs.len() > 0 ==> match decode_columns(msgs[0], schema@) {
                        None => r is Err,
                        Some((cols, _)) => r matches Ok(Some(cs)) && column_views(cs@) == cols,
                    }
                    &&& old(self)@.bounded() ==> final(self)@.bounded()
                },
            r matches Err(e) ==> e is InvalidArg && failure_message(
                old(self)@.front_payload(region@),
                columns_failure(old(self)@.front_payload(region@), schema@),
                e.message(),
            ),
    {
        proof {
            use_type_invariant(&*self);
            assert forall|msgs: Seq<Seq<u8>>| #[trigger]
                self@.holds(region@, msgs) implies (self@.head == self@.tail) <==> msgs.len() == 0 by {
                Self::lemma_fifo(self@, region@, msgs);
            }
        }
        let ghost v = self@;
        let payload = match self.take_frame(region) {
            None => return Ok(None),
            Some(p) => p,
        };
        proof {
            assert forall|msgs: Seq<Seq<u8>>| #[trigger]
                v.holds(region@, msgs) && msgs.len() > 0 implies payload@ == msgs[0]
                && self@.holds(region@, msgs.drop_first()) && self@.used() < v.used() by {
                Self::lemma_fifo(v, region@, msgs);
            }
        }
        let result = unpack_mixed(payload.as_slice(), schema)?;
        Ok(Some(result))
    }

    /// The number of bytes in use.
    pub fn used(&self) -> (n: usize)
        ensures
            n == self@.used(),
    {
        proof {
            lemma_wrapping_sub(self.tail, self.head);
        }
        self.tail.wrapping_sub(self.head)
    }

    /// The data capacity in bytes (excluding the header); a power of two.
    pub fn capacity(&self) -> (n: usize)
        ensures
            n == self@.capacity,
            is_pow2(n as int),
    {
        proof {
            use_type_invariant(self);
        }
        self.capacity
    }

    /// The number of free bytes.
    pub fn free(&self) -> (n: usize)
        ensures
            n == if self@.used() <= self@.capacity {
                self@.capacity - self@.used()
            } else {
                0
            },
    {
        self.capacity().saturating_sub(self.used())
    }

    /// Whether the ring is empty.
    pub fn is_empty(&self) -> (b: bool)
        ensures
            b == (self@.head == self@.tail),
            b == (self@.used() == 0),
    {
        proof {
            lemma_wrap_distance_zero(self.tail, self.head);
        }
        self.head == self.tail
    }

    /// Whether the ring has no free space.
    pub fn is_full(&self) -> (b: bool)
        ensures
            b == (self@.used() >= self@.capacity),
    {
        self.used() >= self.capacity()
    }

    /// Popping a ring that holds `msgs` hands the messages out in the order
    /// they were pushed: the `i`-th pop returns `msgs[i]`; after `k` pops the
    /// ring holds the messages after them, and after all of them it is
    /// empty.
    pub proof fn lemma_drain(v: RingView, region: Seq<u8>, msgs: Seq<Seq<u8>>, k: nat)
        requires
            region.len() == v.capacity,
            is_pow2(v.capacity as int),
            v.holds(region, msgs),
            k <= msgs.len(),
        ensures
            v.popped_times(region, k).capacity == v.capacity,
            v.popped_times(region, k).holds(region, msgs.skip(k as int)),
            forall|i: nat|
                i < k ==> #[trigger] v.popped_times(region, i).front_payload(region) == msgs[i as int],
            k == msgs.len() ==> v.popped_times(region, k).head == v.popped_times(region, k).tail,
        decreases k,
    {
        if k == 0 {
            assert(msgs.skip(0) =~= msgs);
        } else {
            Self::lemma_drain(v, region, msgs, (k - 1) as nat);
            let w = v.popped_times(region, (k - 1) as nat);
            let rest = msgs.skip(k - 1);
            Self::lemma_fifo(w, region, rest);
            assert(rest.drop_first() =~= msgs.skip(k as int));
            assert(rest[0] == msgs[k - 1]);
        }
        if k == msgs.len() {
            Self::lemma_fifo(v.popped_times(region, k), region, msgs.skip(k as int));
        }
    }

    /// A list pushed as the only message of a ring is popped with a schema
    /// of one single-value entry per element as the elements it held, and
    /// leaves the ring empty.
    pub proof fn lemma_list_push_pop(v: RingView, region: Seq<u8>, vs: Seq<Value>, schema: Seq<(String, usize)>)
        requires
            region.len() == v.capacity,
            is_pow2(v.capacity as int),
            v.holds(region, seq![values_bytes(vs)]),
            schema_reads_back(singles(vs), schema),
        ensures
            decode_columns(v.front_payload(region), schema) matches Some((cols, _)) && cols
                == vs.map_values(|x: Value| ColumnView::One(read_back(x))),
            v.popped(region).head == v.popped(region).tail,
    {
        Self::lemma_fifo(v, region, seq![values_bytes(vs)]);
        lemma_list_round_trip(vs, schema);
        Self::lemma_fifo(v.popped(region), region, seq![values_bytes(vs)].drop_first());
    }

    /// A raw message of any length, pushed as the only message of a ring,
    /// takes its bytes plus the 4-byte prefix and pops back as exactly the
    /// bytes pushed, leaving the ring empty.
    pub proof fn lemma_raw_message(v: RingView, region: Seq<u8>, b: Vec<u8>)
        requires
            region.len() == v.capacity,
            is_pow2(v.capacity as int),
            v.holds(region, seq![item_bytes(Item::One(Value::Bytes(b)))]),
        ensures
            v.used() == 4 + b@.len(),
            v.front_payload(region) == b@,
            v.popped(region).head == v.popped(region).tail,
    {
        lemma_raw_bytes_stored(b);
        let msgs = seq![b@];
        assert(msgs.drop_last() =~= Seq::<Seq<u8>>::empty());
        assert(frames(msgs) == frames(Seq::<Seq<u8>>::empty()) + frame_of(b@));
        assert(frames(msgs) =~= frame_of(b@));
        assert(v.stream(region).len() == v.used());
        assert(msgs[0] == b@);
        lemma_frame_len(b@);
        Self::lemma_fifo(v, region, msgs);
        Self::lemma_fifo(v.popped(region), region, msgs.drop_first());
    }

    /// The oldest message, when the ring holds messages, comes out first
    /// and leaves the others; an empty ring gives nothing.
    pub proof fn lemma_fifo(v: RingView, region: Seq<u8>, msgs: Seq<Seq<u8>>)
        requires
            region.len() == v.capacity,
            is_pow2(v.capacity as int),
            v.holds(region, msgs),
        ensures
            (v.head == v.tail) <==> msgs.len() == 0,
            msgs.len() > 0 ==> v.front_payload(region) == msgs[0] && v.popped(region).holds(
                region,
                msgs.drop_first(),
            ) && v.popped(region).used() < v.used(),
    {
        let cap = v.capacity as int;
        lemma_pow2_divides_word(v.capacity);
        lemma_auto_spec_u32_to_from_le_bytes();
        lemma_wrap_distance_zero(v.tail, v.head);
        let s = v.stream(region);
        if msgs.len() == 0 {
            assert(frames(msgs) =~= Seq::<u8>::empty());
        } else {
            let m = msgs[0];
            assert(m.len() <= u32::MAX);
            lemma_frames_front(msgs);
            lemma_frame_len(m);
            let n = m.len();
            assert(s == frame_of(m) + frames(msgs.drop_first()));
            assert(s.len() >= 4 + n);
            // the length prefix
            lemma_ring_read_window(region, v.head as int, v.used(), 0, 4);
            assert(s.subrange(0, 4) =~= frame_of(m).take(4));
            assert(ring_read(region, v.head as int, 4) == spec_u32_to_le_bytes(n as u32));
            assert(v.front_len(region) == n);
            // the payload
            lemma_ring_read_window(region, v.head as int, v.used(), 4, 4 + n as int);
            assert(s.subrange(4, 4 + n as int) =~= frame_of(m).subrange(4, 4 + n as int));
            assert(v.front_payload(region) == m);
            // the rest
            let d = 4 + n;
            let w = v.popped(region);
            lemma_wrap_small(v.head as int);
            lemma_wrap_pop(v.tail as int, v.head as int, d as int);
            assert(w.used() == v.used() - d);
            lemma_ring_read_window(region, v.head as int, v.used(), d as int, v.used() as int);
            lemma_wrap_keeps_slot(v.head + d, cap);
            vstd::arithmetic::div_mod::lemma_mod_equivalence(w.head as int, v.head + d, cap);
            lemma_ring_read_shift(region, w.head as int, v.head + d, w.used());
            assert(w.stream(region) == s.subrange(d as int, s.len() as int));
            assert(s.subrange(d as int, s.len() as int) =~= frames(msgs.drop_first()));
            assert(all_fit(msgs.drop_first())) by {
                assert forall|i: int| 0 <= i < msgs.drop_first().len() implies (
                #[trigger] msgs.drop_first()[i]).len() <= u32::MAX by {
                    assert(msgs.drop_first()[i] == msgs[i + 1]);
                }
            }
        }
    }
}

} // verus!
