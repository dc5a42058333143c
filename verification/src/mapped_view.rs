//! A sequential view into a mapped segment.
//!
//! The segment starts with the [`RWLOCK_SIZE`]-byte lock header; every
//! offset of a view is relative to the data area that follows it:
//!
//! ```text
//! [ lock word (4 B) | data area (size - 4 B) ]
//!                     ^ offset 0
//! ```
//!
//! A [`MappedView`] holds the segment's size and the auto-advance cursor.
//! Its operations take the data area as a byte slice: the caller hands it
//! over while it holds the read lock (for the reading operations) or the
//! write lock (for the writing ones).
use vstd::prelude::*;
use vstd::slice::slice_subrange;
use crate::error::{ShmError, invalid_arg};
use crate::mixed::{
    Column, Decoded, Item, Value, bad_kind, column_for, column_views, columns_failure,
    decode_columns, failure_message, first_bad_item, items_bytes,
    items_packable, lemma_columns_round_trip, lemma_decode_columns_within, lemma_decode_within,
    lemma_value_round_trip, natural_tag, pack_mixed, pack_value, packable, read_back, round_trips,
    schema_reads_back, shown_as, spec_decode, spec_tag, unpack_mixed_counted, unpack_one,
    unpack_one_message, unsupported_message, value_bytes,
};
use crate::rwlock::{RWLOCK_SIZE, ShmRwLock, free_word};

verus! {

/// `s` with the bytes from `pos` on replaced by `b`.
pub open spec fn splice(s: Seq<u8>, pos: int, b: Seq<u8>) -> Seq<u8> {
    s.take(pos) + b + s.skip(pos + b.len())
}

/// Where a write or a read without an explicit offset takes place: at the
/// offset if one is given, otherwise at the cursor.
pub open spec fn position(offset: Option<usize>, cursor: nat) -> nat {
    match offset {
        Some(o) => o as nat,
        None => cursor,
    }
}

/// Whether `length` bytes from `offset` are a non-empty range inside a data
/// area of `size` bytes.
pub open spec fn in_bounds(offset: int, length: int, size: int) -> bool {
    length != 0 && offset + length <= size
}

/// Whether `length` bytes from `offset` lie inside a data area of `size`
/// bytes, an empty range counting only where `allow_empty` holds.
pub open spec fn fits(offset: int, length: int, size: int, allow_empty: bool) -> bool {
    (allow_empty || length != 0) && offset + length <= size
}

/// Whether `msg` is the message of the error for `length` bytes from
/// `offset` running past a data area of `size` bytes.
pub open spec fn out_of_bounds_message(offset: usize, length: usize, size: nat, msg: Seq<char>) -> bool {
    exists|a: Seq<char>, b: Seq<char>, c: Seq<char>|
        #![trigger shown_as(offset, a), shown_as(length, b), shown_as(size as usize, c)]
        shown_as(offset, a) && shown_as(length, b) && shown_as(size as usize, c) && msg
            == "out of bounds: offset="@ + a + " + length="@ + b + " > data_size="@ + c
}

/// Whether `msg` is the message of the error for a range that does not
/// [`fits`]: an empty range where none is allowed, or one that runs past
/// the data area.
pub open spec fn bounds_message(offset: usize, length: usize, size: nat, allow_empty: bool, msg: Seq<char>) -> bool {
    if length == 0 && !allow_empty {
        msg == "length cannot be zero"@
    } else {
        out_of_bounds_message(offset, length, size, msg)
    }
}

/// Whether `msg` is the message of the error for a seek to `pos` past a
/// data area of `size` bytes.
pub open spec fn seek_message(pos: usize, size: nat, msg: Seq<char>) -> bool {
    exists|a: Seq<char>, b: Seq<char>|
        #![trigger shown_as(pos, a), shown_as(size as usize, b)]
        shown_as(pos, a) && shown_as(size as usize, b) && msg == "seek position "@ + a
            + " exceeds data_size "@ + b
}

/// A view of a mapped segment with an auto-advance cursor.
#[derive(Debug)]
pub struct MappedView {
    /// Total segment size in bytes, including the lock header.
    size: usize,
    /// Auto-advance cursor, relative to the data area.
    cursor: usize,
}

impl MappedView {
    #[verifier::type_invariant]
    spec fn inv(self) -> bool {
        self.size > RWLOCK_SIZE && self.cursor <= self.size - RWLOCK_SIZE
    }

    /// The size of the data area in bytes.
    pub closed spec fn data_len(self) -> nat {
        (self.size - RWLOCK_SIZE) as nat
    }

    /// The cursor, relative to the data area.
    pub closed spec fn cursor_pos(self) -> nat {
        self.cursor as nat
    }

    /// A view of a segment of `size` bytes (lock header included), with the
    /// cursor at the start of the data area. The process that created the
    /// segment also gets the lock word it has to write before anyone uses
    /// the lock: the free word.
    ///
    /// Fails where the segment has no room beyond the lock header.
    pub fn new(size: usize, is_creator: bool) -> (r: Result<(MappedView, Option<ShmRwLock>), ShmError>)
        ensures
            r is Ok <==> size > RWLOCK_SIZE,
            r matches Ok((v, lock)) ==> v.data_len() == size - RWLOCK_SIZE && v.cursor_pos() == 0
                && (lock is Some <==> is_creator) && (lock matches Some(l) ==> l.state
                == free_word()),
            r matches Err(e) ==> e is InvalidArg && e.message()
                == "segment size must be > 4 bytes (rwlock header)"@,
    {
        if size <= RWLOCK_SIZE {
            return Err(invalid_arg("segment size must be > 4 bytes (rwlock header)"));
        }
        let lock = if is_creator {
            let mut l = ShmRwLock::from_word(0);
            l.init();
            Some(l)
        } else {
            None
        };
        Ok((MappedView { size, cursor: 0 }, lock))
    }

    /// The size of the data area in bytes.
    fn data_size(&self) -> (n: usize)
        ensures
            n == self.data_len(),
            n > 0,
            self.cursor_pos() <= n,
    {
        proof {
            use_type_invariant(self);
        }
        self.size - RWLOCK_SIZE
    }

    /// Checks that `[offset, offset + length)` lies inside the data area; an
    /// empty range passes only where `allow_empty` holds.
    fn check_bounds(&self, offset: usize, length: usize, allow_empty: bool) -> (r: Result<(), ShmError>)
        ensures
            r is Ok <==> fits(offset as int, length as int, self.data_len() as int, allow_empty),
            r matches Err(e) ==> e is InvalidArg && bounds_message(
                offset,
                length,
                self.data_len(),
                allow_empty,
                e.message(),
            ),
    {
        if length == 0 && !allow_empty {
            return Err(invalid_arg("length cannot be zero"));
        }
        let size = self.data_size();
        if offset > size || length > size - offset {
            let a = offset.to_string();
            let b = length.to_string();
            let c = size.to_string();
            let mut m = String::from_str("out of bounds: offset=");
            m.append(a.as_str());
            m.append(" + length=");
            m.append(b.as_str());
            m.append(" > data_size=");
            m.append(c.as_str());
            proof {
                assert(shown_as(offset, a@));
                assert(shown_as(length, b@));
                assert(shown_as(self.data_len() as usize, c@));
                assert(m@ == "out of bounds: offset="@ + a@ + " + length="@ + b@ + " > data_size="@
                    + c@);
            }
            return Err(ShmError::InvalidArg(m));
        }
        Ok(())
    }

    /// Copies `bytes` into the data area at `pos`.
    fn copy_in(data: &mut [u8], pos: usize, bytes: &[u8])
        requires
            pos + bytes@.len() <= old(data)@.len(),
        ensures
            final(data)@ == splice(old(data)@, pos as int, bytes@),
    {
        let total = data.len();
        let mut i: usize = 0;
        while i < bytes.len()
            invariant
                i <= bytes@.len(),
                total == data@.len(),
                pos + bytes@.len() <= data@.len(),
                data@.len() == old(data)@.len(),
                forall|k: int|
                    0 <= k < data@.len() ==> #[trigger] data@[k] == if pos <= k < pos + i {
                        bytes@[k - pos]
                    } else {
                        old(data)@[k]
                    },
            decreases bytes@.len() - i,
        {
            data[pos + i] = bytes[i];
            i = i + 1;
        }
        assert(data@ =~= splice(old(data)@, pos as int, bytes@));
    }

    /// Returns the whole data area.
    pub fn read_all(&self, data: &[u8]) -> (r: Vec<u8>)
        requires
            data@.len() == self.data_len(),
        ensures
            r@ == data@,
    {
        vstd::slice::slice_to_vec(data)
    }

    /// Returns `length` bytes of the data area from `offset`.
    ///
    /// Fails where `length == 0` and where the range runs past the data
    /// area.
    pub fn read_range(&self, data: &[u8], offset: usize, length: usize) -> (r: Result<
        Vec<u8>,
        ShmError,
    >)
        requires
            data@.len() == self.data_len(),
        ensures
            r is Ok <==> in_bounds(offset as int, length as int, self.data_len() as int),
            r matches Ok(b) ==> b@ == data@.subrange(offset as int, offset + length),
            r matches Err(e) ==> e is InvalidArg && bounds_message(
                offset,
                length,
                self.data_len(),
                false,
                e.message(),
            ),
    {
        proof {
            use_type_invariant(self);
        }
        self.check_bounds(offset, length, false)?;
        let s = slice_subrange(data, offset, offset + length);
        Ok(vstd::slice::slice_to_vec(s))
    }

    /// Places already packed bytes at `offset`, or at the cursor when no
    /// offset is given; only in the latter case does the cursor advance past
    /// them. No bytes at all are placed only where `allow_empty` holds.
    fn place(&mut self, data: &mut [u8], bytes: &[u8], offset: Option<usize>, allow_empty: bool) -> (r:
        Result<(), ShmError>)
        requires
            old(data)@.len() == old(self).data_len(),
        ensures
            final(self).data_len() == old(self).data_len(),
            r is Ok <==> fits(
                position(offset, old(self).cursor_pos()) as int,
                bytes@.len() as int,
                old(self).data_len() as int,
                allow_empty,
            ),
            r is Ok ==> final(data)@ == splice(
                old(data)@,
                position(offset, old(self).cursor_pos()) as int,
                bytes@,
            ),
            r is Ok ==> final(self).cursor_pos() == if offset is None {
                old(self).cursor_pos() + bytes@.len()
            } else {
                old(self).cursor_pos()
            },
            r is Err ==> final(data)@ == old(data)@ && *final(self) == *old(self),
            r matches Err(e) ==> e is InvalidArg && bounds_message(
                position(offset, old(self).cursor_pos()) as usize,
                bytes@.len() as usize,
                old(self).data_len(),
                allow_empty,
                e.message(),
            ),
    {
        proof {
            use_type_invariant(&*self);
        }
        let pos = match offset {
            Some(o) => o,
            None => self.cursor,
        };
        self.check_bounds(pos, bytes.len(), allow_empty)?;
        Self::copy_in(data, pos, bytes);
        if offset.is_none() {
            self.cursor = self.cursor + bytes.len();
        }
        Ok(())
    }

    /// Packs one value and writes it at `offset`, or at the cursor when no
    /// offset is given; only in the latter case does the cursor advance past
    /// the bytes written.
    ///
    /// A value of no bytes writes nothing and leaves the cursor where it was.
    ///
    /// Fails, writing nothing, for a value that has no encoding, and where
    /// the bytes would run past the data area.
    pub fn write(&mut self, data: &mut [u8], value: &Value, offset: Option<usize>) -> (r: Result<
        (),
        ShmError,
    >)
        requires
            old(data)@.len() == old(self).data_len(),
        ensures
            final(self).data_len() == old(self).data_len(),
            r is Ok <==> packable(*value) && position(offset, old(self).cursor_pos())
                + value_bytes(*value).len() <= old(self).data_len(),
            r is Ok ==> final(data)@ == splice(
                old(data)@,
                position(offset, old(self).cursor_pos()) as int,
                value_bytes(*value),
            ),
            r is Ok ==> final(self).cursor_pos() == if offset is None {
                old(self).cursor_pos() + value_bytes(*value).len()
            } else {
                old(self).cursor_pos()
            },
            r is Err ==> final(data)@ == old(data)@ && *final(self) == *old(self),
            r matches Err(e) ==> e is InvalidArg && if packable(*value) {
                out_of_bounds_message(
                    position(offset, old(self).cursor_pos()) as usize,
                    value_bytes(*value).len() as usize,
                    old(self).data_len(),
                    e.message(),
                )
            } else {
                e.message() == unsupported_message(bad_kind(*value)->0)
            },
    {
        let mut bytes: Vec<u8> = Vec::new();
        pack_value(value, &mut bytes)?;
        assert(bytes@ =~= value_bytes(*value));
        self.place(data, bytes.as_slice(), offset, true)
    }

    /// Packs a heterogeneous list (see [`pack_mixed`]) and writes it at
    /// `offset`, or at the cursor when no offset is given; only in the
    /// latter case does the cursor advance past the bytes written.
    ///
    /// Fails, writing nothing, where some value has no encoding, where the
    /// list packs to no bytes, and where the bytes would run past the data
    /// area.
    pub fn write_mixed(&mut self, data: &mut [u8], items: &[Item], offset: Option<usize>) -> (r:
        Result<(), ShmError>)
        requires
            old(data)@.len() == old(self).data_len(),
        ensures
            final(self).data_len() == old(self).data_len(),
            r is Ok <==> items_packable(items@) && in_bounds(
                position(offset, old(self).cursor_pos()) as int,
                items_bytes(items@).len() as int,
                old(self).data_len() as int,
            ),
            r is Ok ==> final(data)@ == splice(
                old(data)@,
                position(offset, old(self).cursor_pos()) as int,
                items_bytes(items@),
            ),
            r is Ok ==> final(self).cursor_pos() == if offset is None {
                old(self).cursor_pos() + items_bytes(items@).len()
            } else {
                old(self).cursor_pos()
            },
            r is Err ==> final(data)@ == old(data)@ && *final(self) == *old(self),
            r matches Err(e) ==> e is InvalidArg && if items_packable(items@) {
                bounds_message(
                    position(offset, old(self).cursor_pos()) as usize,
                    items_bytes(items@).len() as usize,
                    old(self).data_len(),
                    false,
                    e.message(),
                )
            } else {
                e.message() == unsupported_message(first_bad_item(items@)->0)
            },
    {
        let bytes = pack_mixed(items)?;
        self.place(data, bytes.as_slice(), offset, false)
    }

    /// Moves the cursor to `pos`.
    ///
    /// Fails, leaving the cursor where it was, where `pos` is past the end
    /// of the data area.
    pub fn seek(&mut self, pos: usize) -> (r: Result<(), ShmError>)
        ensures
            final(self).data_len() == old(self).data_len(),
            r is Ok <==> pos <= old(self).data_len(),
            r is Ok ==> final(self).cursor_pos() == pos,
            r is Err ==> *final(self) == *old(self),
            r matches Err(e) ==> e is InvalidArg && seek_message(pos, old(self).data_len(), e.message()),
    {
        proof {
            use_type_invariant(&*self);
        }
        let size = self.data_size();
        if pos > size {
            let a = pos.to_string();
            let b = size.to_string();
            let mut m = String::from_str("seek position ");
            m.append(a.as_str());
            m.append(" exceeds data_size ");
            m.append(b.as_str());
            proof {
                assert(shown_as(pos, a@));
                assert(shown_as(self.data_len() as usize, b@));
                assert(m@ == "seek position "@ + a@ + " exceeds data_size "@ + b@);
            }
            return Err(ShmError::InvalidArg(m));
        }
        self.cursor = pos;
        Ok(())
    }

    /// The cursor position.
    pub fn tell(&self) -> (pos: usize)
        ensures
            pos == self.cursor_pos(),
            pos <= self.data_len(),
    {
        proof {
            use_type_invariant(self);
        }
        self.cursor
    }

    /// Reads one value of type `tag` at the cursor and advances the cursor
    /// past it.
    ///
    /// Fails, leaving the cursor where it was, for a tag string that names
    /// no type and where the bytes left in the data area are too few.
    pub fn read(&mut self, data: &[u8], tag: &str) -> (r: Result<Decoded, ShmError>)
        requires
            data@.len() == old(self).data_len(),
        ensures
            final(self).data_len() == old(self).data_len(),
            match spec_tag(tag@) {
                None => r is Err,
                Some(t) => match spec_decode(data@.skip(old(self).cursor_pos() as int), t) {
                    None => r is Err,
                    Some((d, n)) => r matches Ok(x) && x@ == d && final(self).cursor_pos()
                        == old(self).cursor_pos() + n,
                },
            },
            r is Err ==> *final(self) == *old(self),
            r matches Err(e) ==> e is InvalidArg && unpack_one_message(
                data@.skip(old(self).cursor_pos() as int),
                tag@,
                e.message(),
            ),
    {
        proof {
            use_type_invariant(&*self);
        }
        let size = self.data_size();
        let pos = self.cursor;
        let rest = slice_subrange(data, pos, size);
        assert(rest@ =~= data@.skip(pos as int));
        let (value, n) = unpack_one(rest, tag)?;
        proof {
            lemma_decode_within(rest@, spec_tag(tag@)->0);
        }
        self.cursor = pos + n;
        Ok(value)
    }

    /// Reads bytes at `offset`, or at the cursor when no offset is given,
    /// according to a schema of `(type_tag, count)` entries (see
    /// [`unpack_mixed`]); only in the latter case does the cursor advance
    /// past the bytes read.
    ///
    /// Fails, leaving the cursor where it was, where no byte of the data
    /// area is left at that position, for a tag string that names no type,
    /// and where the bytes run out.
    pub fn read_mixed(&mut self, data: &[u8], schema: &[(String, usize)], offset: Option<usize>) -> (r:
        Result<Vec<Column>, ShmError>)
        requires
            data@.len() == old(self).data_len(),
        ensures
            final(self).data_len() == old(self).data_len(),
            ({
                let pos = position(offset, old(self).cursor_pos());
                if pos >= old(self).data_len() {
                    r is Err
                } else {
                    match decode_columns(data@.skip(pos as int), schema@) {
                        None => r is Err,
                        Some((cols, n)) => r matches Ok(cs) && column_views(cs@) == cols
                            && final(self).cursor_pos() == if offset is None {
                            old(self).cursor_pos() + n
                        } else {
                            old(self).cursor_pos()
                        },
                    }
                }
            }),
            r is Err ==> *final(self) == *old(self),
            r matches Err(e) ==> e is InvalidArg && ({
                let pos = position(offset, old(self).cursor_pos());
                if pos >= old(self).data_len() {
                    e.message() == "read_mixed: no data available at current cursor position"@
                } else {
                    failure_message(
                        data@.skip(pos as int),
                        columns_failure(data@.skip(pos as int), schema@),
                        e.message(),
                    )
                }
            }),
    {
        proof {
            use_type_invariant(&*self);
        }
        let size = self.data_size();
        let pos = match offset {
            Some(o) => o,
            None => self.cursor,
        };
        let available = size.saturating_sub(pos);
        if available == 0 {
            return Err(invalid_arg("read_mixed: no data available at current cursor position"));
        }
        let rest = slice_subrange(data, pos, size);
        assert(rest@ =~= data@.skip(pos as int));
        let (result, n) = unpack_mixed_counted(rest, schema)?;
        proof {
            lemma_decode_columns_within(rest@, schema@);
        }
        if offset.is_none() {
            self.cursor = pos + n;
        }
        Ok(result)
    }

    /// Zeroes the whole data area.
    pub fn zero(&self, data: &mut [u8])
        requires
            old(data)@.len() == self.data_len(),
        ensures
            final(data)@ == Seq::new(old(data)@.len(), |i: int| 0u8),
    {
        let mut i: usize = 0;
        while i < data.len()
            invariant
                i <= data@.len(),
                data@.len() == old(data)@.len(),
                forall|k: int| 0 <= k < i ==> data@[k] == 0u8,
            decreases data@.len() - i,
        {
            data[i] = 0;
            i = i + 1;
        }
        assert(data@ =~= Seq::new(old(data)@.len(), |i: int| 0u8));
    }

    /// The size of the data area in bytes (the segment size minus the lock
    /// header).
    pub fn size(&self) -> (n: usize)
        ensures
            n == self.data_len(),
            n > 0,
    {
        self.data_size()
    }
}

/// What is written at a position is what a range read there returns, and
/// the bytes around it are untouched.
pub proof fn lemma_read_range_after_write(region: Seq<u8>, pos: int, bytes: Seq<u8>)
    requires
        0 <= pos,
        pos + bytes.len() <= region.len(),
    ensures
        splice(region, pos, bytes).len() == region.len(),
        splice(region, pos, bytes).subrange(pos, pos + bytes.len()) == bytes,
        forall|k: int|
            0 <= k < region.len() && !(pos <= k < pos + bytes.len()) ==> #[trigger] splice(
                region,
                pos,
                bytes,
            )[k] == region[k],
{
    assert(splice(region, pos, bytes).subrange(pos, pos + bytes.len()) =~= bytes);
}

/// A value written at a position reads back, with its natural tag, as the
/// value it was.
pub proof fn lemma_read_after_write(region: Seq<u8>, pos: int, v: Value)
    requires
        0 <= pos,
        pos + value_bytes(v).len() <= region.len(),
        round_trips(v),
    ensures
        spec_decode(splice(region, pos, value_bytes(v)).skip(pos), natural_tag(v)) == Some(
            (read_back(v), value_bytes(v).len()),
        ),
{
    let b = value_bytes(v);
    let after = region.skip(pos + b.len());
    assert(splice(region, pos, b).skip(pos) =~= b + after);
    lemma_value_round_trip(v, after);
}

/// A list written with `write_mixed` at a position is read back there by a
/// matching schema, one column per item, taking exactly the bytes written.
pub proof fn lemma_read_mixed_after_write_mixed(
    region: Seq<u8>,
    pos: int,
    items: Seq<Item>,
    schema: Seq<(String, usize)>,
)
    requires
        0 <= pos,
        pos + items_bytes(items).len() <= region.len(),
        schema_reads_back(items, schema),
    ensures
        decode_columns(splice(region, pos, items_bytes(items)).skip(pos), schema) == Some(
            (items.map_values(|it: Item| column_for(it)), items_bytes(items).len()),
        ),
{
    let b = items_bytes(items);
    let after = region.skip(pos + b.len());
    assert(splice(region, pos, b).skip(pos) =~= b + after);
    lemma_columns_round_trip(items, schema, after);
}

} // verus!
