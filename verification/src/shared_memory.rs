//! Named segments: the rules on names and sizes, and what a segment is
//! mapped as.
//!
//! The operating-system object behind a segment (`shm_open` + `ftruncate`
//! + `mmap` on Unix, `CreateFileMappingA` + `MapViewOfFile` on Windows) is
//! made, opened, mapped and removed by the platform layer of the embedding
//! program; [`SharedMemory`] describes it.
use vstd::prelude::*;
use vstd::string::StringSliceAdditionalSpecFns;
use vstd::utf8::{encode_scalar, encode_utf8};
use crate::error::{ShmError, invalid_arg};
use crate::mapped_view::MappedView;
use crate::rwlock::{RWLOCK_SIZE, ShmRwLock, free_word};
use crate::spsc::{RingView, SpscRingBuffer, SPSC_HEADER_SIZE, pow2_message};
use vstd::arithmetic::power2::is_pow2;

verus! {

/// Whether a string is a valid segment name: it starts with `'/'` and has
/// at least one more character (at least two bytes in all).
pub open spec fn valid_name(name: &str) -> bool {
    &&& name@.len() > 0
    &&& name@[0] == '/'
    &&& name.spec_bytes().len() >= 2
}

/// The message of the error for an invalid name.
pub open spec fn name_error(name: &str) -> Seq<char> {
    if name@.len() == 0 || name@[0] != '/' {
        "name must start with '/' (e.g. \"/my_segment\")"@
    } else {
        "name must have at least one character after '/'"@
    }
}

/// A name is accepted exactly when its first character is `'/'` and at
/// least one more character follows it: a name that does not start with
/// `'/'` is always refused, whatever its length.
pub proof fn lemma_valid_name(name: &str)
    ensures
        valid_name(name) <==> (name@.len() >= 2 && name@[0] == '/'),
{
    let chars = name@;
    if chars.len() > 0 {
        let rest = chars.drop_first();
        assert(encode_utf8(chars) == encode_scalar(chars[0] as u32) + encode_utf8(rest));
        assert(encode_scalar(chars[0] as u32).len() >= 1);
        if chars[0] == '/' {
            assert(('/' as u32) == 47u32);
            assert(encode_scalar(chars[0] as u32).len() == 1);
            if chars.len() == 1 {
                assert(rest =~= Seq::<char>::empty());
                assert(encode_utf8(rest) =~= Seq::<u8>::empty());
            } else {
                assert(encode_utf8(rest) == encode_scalar(rest[0] as u32) + encode_utf8(
                    rest.drop_first(),
                ));
                assert(encode_scalar(rest[0] as u32).len() >= 1);
            }
        }
    }
}

/// Validates a POSIX-style segment name, e.g. `"/my_segment"`.
///
/// Fails where the name does not start with `'/'` and where nothing
/// follows the `'/'`.
pub fn validate_name(name: &str) -> (r: Result<(), ShmError>)
    ensures
        r is Ok <==> valid_name(name),
        r matches Err(e) ==> e is InvalidArg && e.message() == name_error(name),
{
    if name.unicode_len() == 0 || name.get_char(0) != '/' {
        return Err(invalid_arg("name must start with '/' (e.g. \"/my_segment\")"));
    }
    if name.as_bytes().len() < 2 {
        return Err(invalid_arg("name must have at least one character after '/'"));
    }
    Ok(())
}

/// The size of a segment to open: the size that the operating system
/// reports where it reports one (Unix, through `fstat`), otherwise the size
/// the caller gave (Windows, where it is required).
pub fn resolve_open_size(given: Option<usize>, reported: Option<usize>) -> (r: Result<usize, ShmError>)
    ensures
        r is Err <==> reported is None && given is None,
        r matches Ok(n) ==> n == match reported {
            Some(s) => s,
            None => given->0,
        },
        r matches Err(e) ==> e is InvalidArg && e.message()
            == "size is required on Windows (Win32 does not expose segment size)"@,
{
    match reported {
        Some(s) => Ok(s),
        None => match given {
            Some(s) => Ok(s),
            None => Err(
                invalid_arg("size is required on Windows (Win32 does not expose segment size)"),
            ),
        },
    }
}

/// A named shared memory segment: its name, its total size, and whether
/// this process created it.
#[derive(Debug)]
pub struct SharedMemory {
    name: String,
    size: usize,
    is_creator: bool,
}

impl SharedMemory {
    /// The segment name.
    pub closed spec fn name_view(self) -> Seq<char> {
        self.name@
    }

    /// The total segment size.
    pub closed spec fn size_view(self) -> nat {
        self.size as nat
    }

    /// Whether this process created the segment.
    pub closed spec fn created(self) -> bool {
        self.is_creator
    }

    /// A new segment of `size` bytes named `name`, owned by this process.
    ///
    /// Fails where `size == 0` or the name is invalid.
    pub fn create(name: &str, size: usize) -> (r: Result<SharedMemory, ShmError>)
        ensures
            r is Ok <==> size > 0 && valid_name(name),
            r matches Ok(m) ==> m.name_view() == name@ && m.size_view() == size && m.created(),
            r matches Err(e) ==> e is InvalidArg && e.message() == if size == 0 {
                "size must be > 0"@
            } else {
                name_error(name)
            },
    {
        if size == 0 {
            return Err(invalid_arg("size must be > 0"));
        }
        validate_name(name)?;
        Ok(SharedMemory { name: name.to_owned(), size, is_creator: true })
    }

    /// An existing segment named `name`, of `size` bytes (see
    /// [`resolve_open_size`]).
    ///
    /// Fails where the name is invalid.
    pub fn open(name: &str, size: usize) -> (r: Result<SharedMemory, ShmError>)
        ensures
            r is Ok <==> valid_name(name),
            r matches Ok(m) ==> m.name_view() == name@ && m.size_view() == size && !m.created(),
            r matches Err(e) ==> e is InvalidArg && e.message() == name_error(name),
    {
        validate_name(name)?;
        Ok(SharedMemory { name: name.to_owned(), size, is_creator: false })
    }

    /// Checks the name of a segment to remove (Unix unlinks it; on Windows
    /// the kernel frees it when the last handle closes).
    ///
    /// Fails where the name is invalid.
    pub fn remove(name: &str) -> (r: Result<(), ShmError>)
        ensures
            r is Ok <==> valid_name(name),
            r matches Err(e) ==> e is InvalidArg && e.message() == name_error(name),
    {
        validate_name(name)
    }

    /// The view of the mapped segment, cursor at the start of the data
    /// area (see [`MappedView::new`]): for the creator, with the lock word it
    /// has to write, the free word.
    ///
    /// Fails where the segment has no room beyond the lock header.
    pub fn map(&self) -> (r: Result<(MappedView, Option<ShmRwLock>), ShmError>)
        ensures
            r is Ok <==> self.size_view() > RWLOCK_SIZE,
            r matches Ok((v, lock)) ==> v.data_len() == self.size_view() - RWLOCK_SIZE
                && v.cursor_pos() == 0 && (lock is Some <==> self.created()) && (lock matches Some(
                l,
            ) ==> l.state == free_word()),
            r matches Err(e) ==> e is InvalidArg && e.message()
                == "segment size must be > 4 bytes (rwlock header)"@,
    {
        MappedView::new(self.size, self.is_creator)
    }

    /// The ring laid over the mapped segment (see [`SpscRingBuffer::new`]):
    /// for the creator, the empty ring header it has to write.
    pub fn spsc(&self) -> (r: Result<Option<SpscRingBuffer>, ShmError>)
        ensures
            r is Err <==> self.size_view() <= SPSC_HEADER_SIZE || (self.created() && !is_pow2(
                self.size_view() - SPSC_HEADER_SIZE,
            )),
            r matches Ok(h) ==> (h is Some <==> self.created()),
            r matches Ok(Some(ring)) ==> ring@ == (RingView {
                head: 0,
                tail: 0,
                capacity: (self.size_view() - SPSC_HEADER_SIZE) as usize,
                map_size: self.size_view() as usize,
            }) && ring@.bounded() && forall|region: Seq<u8>| #[trigger]
                ring@.holds(region, Seq::empty()),
            r matches Err(e) ==> e is InvalidArg && if self.size_view() <= SPSC_HEADER_SIZE {
                e.message() == "map_size must be > 24 bytes (spsc header)"@
            } else {
                pow2_message((self.size_view() - SPSC_HEADER_SIZE) as usize, e.message())
            },
    {
        SpscRingBuffer::new(self.size, self.is_creator)
    }

    /// The segment name.
    pub fn name(&self) -> (n: &str)
        ensures
            n@ == self.name_view(),
    {
        self.name.as_str()
    }

    /// The total segment size in bytes.
    pub fn size(&self) -> (n: usize)
        ensures
            n == self.size_view(),
    {
        self.size
    }

    /// Whether this process created the segment.
    pub fn is_creator(&self) -> (b: bool)
        ensures
            b == self.created(),
    {
        self.is_creator
    }
}

} // verus!
