//! The byte encoding of values stored in a segment.
//!
//! | Value     | Stored as                                  | Bytes   |
//! |-----------|--------------------------------------------|---------|
//! | bool      | `u8` (0 or 1)                              | 1       |
//! | int       | `i64`                                      | 8       |
//! | float     | `f64`                                      | 8       |
//! | str       | `u32` length prefix + UTF-8 bytes          | 4 + len |
//! | bytes     | raw bytes                                  | len     |
//!
//! Multi-byte numbers are stored in the byte order of the supported targets
//! (x86_64, aarch64), which is little-endian. Floats travel through the
//! library as the bits of their IEEE-754 representation.
use vstd::prelude::*;
use vstd::bytes::*;
use vstd::slice::{slice_subrange, slice_to_vec};
use vstd::utf8::{decode_utf8, encode_utf8, valid_utf8};
use vstd::string::to_string_from_display_ensures;
use crate::error::{ShmError, invalid_arg};

verus! {

// ---- values to pack ----

/// A value handed to the packing functions.
pub enum Value {
    Bool(bool),
    Int(i64),
    /// A float, by the bits of its IEEE-754 `f64` representation.
    Float(u64),
    Str(String),
    Bytes(Vec<u8>),
    /// A value of a type that has no encoding, by the name of its type.
    Other(String),
}

/// One element of a heterogeneous list: a plain value, or a nested list
/// whose elements are packed in order.
pub enum Item {
    One(Value),
    List(Vec<Value>),
}

/// Whether a value has an encoding.
pub open spec fn packable(v: Value) -> bool {
    !(v is Other)
}

/// The UTF-8 bytes of a string.
pub open spec fn utf8_of(s: String) -> Seq<u8> {
    encode_utf8(s@)
}

/// The encoding of one value.
pub open spec fn value_bytes(v: Value) -> Seq<u8> {
    match v {
        Value::Bool(b) => seq![if b { 1u8 } else { 0u8 }],
        Value::Int(i) => spec_u64_to_le_bytes(i as u64),
        Value::Float(bits) => spec_u64_to_le_bytes(bits),
        Value::Str(s) => spec_u32_to_le_bytes(utf8_of(s).len() as u32) + utf8_of(s),
        Value::Bytes(b) => b@,
        Value::Other(_) => Seq::empty(),
    }
}

/// Whether every value of a sequence has an encoding.
pub open spec fn all_packable(vs: Seq<Value>) -> bool {
    forall|i: int| 0 <= i < vs.len() ==> packable(#[trigger] vs[i])
}

/// The encodings of a sequence of values, one after the other.
pub open spec fn values_bytes(vs: Seq<Value>) -> Seq<u8>
    decreases vs.len(),
{
    if vs.len() == 0 {
        Seq::empty()
    } else {
        values_bytes(vs.drop_last()) + value_bytes(vs.last())
    }
}

/// Whether an item has an encoding.
pub open spec fn item_packable(it: Item) -> bool {
    match it {
        Item::One(v) => packable(v),
        Item::List(vs) => all_packable(vs@),
    }
}

/// The encoding of one item.
pub open spec fn item_bytes(it: Item) -> Seq<u8> {
    match it {
        Item::One(v) => value_bytes(v),
        Item::List(vs) => values_bytes(vs@),
    }
}

/// Whether every item of a sequence has an encoding.
pub open spec fn items_packable(items: Seq<Item>) -> bool {
    forall|i: int| 0 <= i < items.len() ==> item_packable(#[trigger] items[i])
}

/// The encodings of a sequence of items, one after the other.
pub open spec fn items_bytes(items: Seq<Item>) -> Seq<u8>
    decreases items.len(),
{
    if items.len() == 0 {
        Seq::empty()
    } else {
        items_bytes(items.drop_last()) + item_bytes(items.last())
    }
}

// ---- values read back ----

/// The type tags that the reading functions accept.
#[derive(Clone, Copy, Debug, PartialEq, Eq)]
pub enum TypeTag {
    Bool,
    U8,
    I32,
    U32,
    F32,
    I64,
    U64,
    F64,
    Str,
}

/// The tag named by a tag string: `"bool"`, `"int"` / `"i64"`,
/// `"float"` / `"f64"`, `"f32"`, `"i32"`, `"u8"`, `"u32"`, `"u64"`, `"str"`.
pub open spec fn spec_tag(t: Seq<char>) -> Option<TypeTag> {
    if t == seq!['b', 'o', 'o', 'l'] {
        Some(TypeTag::Bool)
    } else if t == seq!['i', 'n', 't'] || t == seq!['i', '6', '4'] {
        Some(TypeTag::I64)
    } else if t == seq!['f', 'l', 'o', 'a', 't'] || t == seq!['f', '6', '4'] {
        Some(TypeTag::F64)
    } else if t == seq!['f', '3', '2'] {
        Some(TypeTag::F32)
    } else if t == seq!['i', '3', '2'] {
        Some(TypeTag::I32)
    } else if t == seq!['u', '8'] {
        Some(TypeTag::U8)
    } else if t == seq!['u', '3', '2'] {
        Some(TypeTag::U32)
    } else if t == seq!['u', '6', '4'] {
        Some(TypeTag::U64)
    } else if t == seq!['s', 't', 'r'] {
        Some(TypeTag::Str)
    } else {
        None
    }
}

/// A value read back from bytes. Floats come back as the bits of their
/// IEEE-754 representation, strings as their raw bytes.
#[derive(Debug, PartialEq, Eq)]
pub enum Decoded {
    Bool(bool),
    U8(u8),
    I32(i32),
    U32(u32),
    /// An `f32`, by its bits.
    F32(u32),
    I64(i64),
    U64(u64),
    /// An `f64`, by its bits.
    F64(u64),
    /// A string, by the bytes that followed its length prefix.
    Str(Vec<u8>),
}

/// The mathematical form of a [`Decoded`].
pub enum DecodedView {
    Bool(bool),
    U8(u8),
    I32(i32),
    U32(u32),
    F32(u32),
    I64(i64),
    U64(u64),
    F64(u64),
    Str(Seq<u8>),
}

impl View for Decoded {
    type V = DecodedView;

    open spec fn view(&self) -> DecodedView {
        match self {
            Decoded::Bool(b) => DecodedView::Bool(*b),
            Decoded::U8(x) => DecodedView::U8(*x),
            Decoded::I32(x) => DecodedView::I32(*x),
            Decoded::U32(x) => DecodedView::U32(*x),
            Decoded::F32(x) => DecodedView::F32(*x),
            Decoded::I64(x) => DecodedView::I64(*x),
            Decoded::U64(x) => DecodedView::U64(*x),
            Decoded::F64(x) => DecodedView::F64(*x),
            Decoded::Str(b) => DecodedView::Str(b@),
        }
    }
}

/// What `String::from_utf8_lossy` makes of some bytes: their UTF-8 text,
/// each invalid sequence replaced by U+FFFD.
pub uninterp spec fn lossy_text(bytes: Seq<u8>) -> Seq<char>;

/// The text of `bytes` by `String::from_utf8_lossy`. Trusted: the text is
/// [`lossy_text`] of the bytes and, for bytes that are valid UTF-8, the
/// text they encode (the function then takes them unchanged).
#[verifier::external_body]
fn utf8_lossy(bytes: &[u8]) -> (s: String)
    ensures
        s@ == lossy_text(bytes@),
        valid_utf8(bytes@) ==> s@ == decode_utf8(bytes@),
{
    String::from_utf8_lossy(bytes).into_owned()
}

impl Decoded {
    /// The text of a string read back: its bytes taken as UTF-8, each
    /// invalid sequence replaced by U+FFFD; `None` for a value of another
    /// type.
    pub fn text(&self) -> (r: Option<String>)
        ensures
            match self@ {
                DecodedView::Str(b) => r matches Some(s) && s@ == lossy_text(b) && (valid_utf8(b)
                    ==> s@ == decode_utf8(b)),
                _ => r is None,
            },
    {
        match self {
            Decoded::Str(b) => Some(utf8_lossy(b.as_slice())),
            _ => None,
        }
    }
}

/// The UTF-8 bytes of a string are valid UTF-8, and the text they give
/// (see [`Decoded::text`]) is the string itself: a string written is read
/// back as the same string.
pub proof fn lemma_text_round_trip(s: Seq<char>)
    ensures
        valid_utf8(encode_utf8(s)),
        decode_utf8(encode_utf8(s)) == s,
{
    vstd::utf8::encode_utf8_valid_utf8(s);
    vstd::utf8::encode_utf8_decode_utf8(s);
}

/// The views of a sequence of decoded values.
pub open spec fn decoded_views(ds: Seq<Decoded>) -> Seq<DecodedView> {
    Seq::new(ds.len(), |i: int| ds[i]@)
}

/// What reading one value of tag `t` from the start of `bytes` gives: the
/// value and the number of bytes it took, or `None` where the bytes are too
/// few.
pub open spec fn spec_decode(bytes: Seq<u8>, t: TypeTag) -> Option<(DecodedView, nat)> {
    match t {
        TypeTag::Bool => if bytes.len() >= 1 {
            Some((DecodedView::Bool(bytes[0] != 0), 1))
        } else {
            None
        },
        TypeTag::U8 => if bytes.len() >= 1 {
            Some((DecodedView::U8(bytes[0]), 1))
        } else {
            None
        },
        TypeTag::I32 => if bytes.len() >= 4 {
            Some((DecodedView::I32(spec_u32_from_le_bytes(bytes.take(4)) as i32), 4))
        } else {
            None
        },
        TypeTag::U32 => if bytes.len() >= 4 {
            Some((DecodedView::U32(spec_u32_from_le_bytes(bytes.take(4))), 4))
        } else {
            None
        },
        TypeTag::F32 => if bytes.len() >= 4 {
            Some((DecodedView::F32(spec_u32_from_le_bytes(bytes.take(4))), 4))
        } else {
            None
        },
        TypeTag::I64 => if bytes.len() >= 8 {
            Some((DecodedView::I64(spec_u64_from_le_bytes(bytes.take(8)) as i64), 8))
        } else {
            None
        },
        TypeTag::U64 => if bytes.len() >= 8 {
            Some((DecodedView::U64(spec_u64_from_le_bytes(bytes.take(8))), 8))
        } else {
            None
        },
        TypeTag::F64 => if bytes.len() >= 8 {
            Some((DecodedView::F64(spec_u64_from_le_bytes(bytes.take(8))), 8))
        } else {
            None
        },
        TypeTag::Str => if bytes.len() >= 4 {
            let n = spec_u32_from_le_bytes(bytes.take(4)) as nat;
            if bytes.len() >= 4 + n {
                Some((DecodedView::Str(bytes.subrange(4, 4 + n as int)), (4 + n) as nat))
            } else {
                None
            }
        } else {
            None
        },
    }
}

/// A decoded value takes no more bytes than there are.
pub proof fn lemma_decode_within(bytes: Seq<u8>, t: TypeTag)
    ensures
        spec_decode(bytes, t) matches Some((_, n)) ==> 0 < n <= bytes.len(),
{
}

// ---- exec helpers ----

/// Whether a string equals another, char by char.
fn str_is(s: &str, lit: &str) -> (b: bool)
    ensures
        b == (s@ == lit@),
{
    let n = s.unicode_len();
    let m = lit.unicode_len();
    if n != m {
        return false;
    }
    let mut i: usize = 0;
    while i < n
        invariant
            n == s@.len(),
            m == lit@.len(),
            n == m,
            i <= n,
            forall|j: int| 0 <= j < i ==> s@[j] == lit@[j],
        decreases n - i,
    {
        if s.get_char(i) != lit.get_char(i) {
            return false;
        }
        i = i + 1;
    }
    assert(s@ =~= lit@);
    true
}

/// Parses a type tag string.
pub fn parse_tag(tag: &str) -> (t: Option<TypeTag>)
    ensures
        t == spec_tag(tag@),
{
    proof {
        reveal_strlit("bool");
        reveal_strlit("int");
        reveal_strlit("i64");
        reveal_strlit("float");
        reveal_strlit("f64");
        reveal_strlit("f32");
        reveal_strlit("i32");
        reveal_strlit("u8");
        reveal_strlit("u32");
        reveal_strlit("u64");
        reveal_strlit("str");
        assert("bool"@ =~= seq!['b', 'o', 'o', 'l']);
        assert("int"@ =~= seq!['i', 'n', 't']);
        assert("i64"@ =~= seq!['i', '6', '4']);
        assert("float"@ =~= seq!['f', 'l', 'o', 'a', 't']);
        assert("f64"@ =~= seq!['f', '6', '4']);
        assert("f32"@ =~= seq!['f', '3', '2']);
        assert("i32"@ =~= seq!['i', '3', '2']);
        assert("u8"@ =~= seq!['u', '8']);
        assert("u32"@ =~= seq!['u', '3', '2']);
        assert("u64"@ =~= seq!['u', '6', '4']);
        assert("str"@ =~= seq!['s', 't', 'r']);
    }
    if str_is(tag, "bool") {
        Some(TypeTag::Bool)
    } else if str_is(tag, "int") || str_is(tag, "i64") {
        Some(TypeTag::I64)
    } else if str_is(tag, "float") || str_is(tag, "f64") {
        Some(TypeTag::F64)
    } else if str_is(tag, "f32") {
        Some(TypeTag::F32)
    } else if str_is(tag, "i32") {
        Some(TypeTag::I32)
    } else if str_is(tag, "u8") {
        Some(TypeTag::U8)
    } else if str_is(tag, "u32") {
        Some(TypeTag::U32)
    } else if str_is(tag, "u64") {
        Some(TypeTag::U64)
    } else if str_is(tag, "str") {
        Some(TypeTag::Str)
    } else {
        None
    }
}

/// Appends the bytes of `src` to `out`.
fn extend_bytes(out: &mut Vec<u8>, src: &[u8])
    ensures
        final(out)@ == old(out)@ + src@,
{
    let mut i: usize = 0;
    while i < src.len()
        invariant
            i <= src@.len(),
            out@ == old(out)@ + src@.take(i as int),
        decreases src@.len() - i,
    {
        out.push(src[i]);
        i = i + 1;
        assert(out@ =~= old(out)@ + src@.take(i as int));
    }
    assert(src@.take(src@.len() as int) =~= src@);
}


// ---- packing ----

/// The message of the error for a value of type `kind`, which has no
/// encoding.
pub open spec fn unsupported_message(kind: Seq<char>) -> Seq<char> {
    "unsupported type '"@ + kind + "'; supported: bool, int, float, str, bytes, bytearray"@
}

/// The type name of a value that has no encoding.
pub open spec fn bad_kind(v: Value) -> Option<Seq<char>> {
    match v {
        Value::Other(k) => Some(k@),
        _ => None,
    }
}

/// The type name of the first value of a sequence that has no encoding.
pub open spec fn first_bad_value(vs: Seq<Value>) -> Option<Seq<char>>
    decreases vs.len(),
{
    if vs.len() == 0 {
        None
    } else {
        match first_bad_value(vs.drop_last()) {
            Some(k) => Some(k),
            None => bad_kind(vs.last()),
        }
    }
}

/// The type name of the first value of an item that has no encoding.
pub open spec fn item_bad(it: Item) -> Option<Seq<char>> {
    match it {
        Item::One(v) => bad_kind(v),
        Item::List(vs) => first_bad_value(vs@),
    }
}

/// The type name of the first value of a sequence of items that has no
/// encoding.
pub open spec fn first_bad_item(items: Seq<Item>) -> Option<Seq<char>>
    decreases items.len(),
{
    if items.len() == 0 {
        None
    } else {
        match first_bad_item(items.drop_last()) {
            Some(k) => Some(k),
            None => item_bad(items.last()),
        }
    }
}

/// A sequence of values has a first value without an encoding exactly when
/// not all of them have one.
pub proof fn lemma_first_bad_value(vs: Seq<Value>)
    ensures
        first_bad_value(vs) is None <==> all_packable(vs),
    decreases vs.len(),
{
    if vs.len() > 0 {
        lemma_first_bad_value(vs.drop_last());
        if all_packable(vs) {
            assert(all_packable(vs.drop_last())) by {
                assert forall|i: int| 0 <= i < vs.drop_last().len() implies packable(
                    #[trigger] vs.drop_last()[i],
                ) by {
                    assert(vs.drop_last()[i] == vs[i]);
                }
            }
            assert(packable(vs[vs.len() - 1]));
        }
        if first_bad_value(vs) is None {
            assert forall|i: int| 0 <= i < vs.len() implies packable(#[trigger] vs[i]) by {
                if i < vs.len() - 1 {
                    assert(vs.drop_last()[i] == vs[i]);
                }
            }
        }
    }
}

/// Once a prefix has a value without an encoding, that value is the first
/// one of the whole sequence.
pub proof fn lemma_first_bad_value_prefix(vs: Seq<Value>, k: nat)
    requires
        k <= vs.len(),
        first_bad_value(vs.take(k as int)) is Some,
    ensures
        first_bad_value(vs) == first_bad_value(vs.take(k as int)),
    decreases vs.len() - k,
{
    if k < vs.len() {
        assert(vs.take(k as int + 1).drop_last() =~= vs.take(k as int));
        lemma_first_bad_value_prefix(vs, k + 1);
    } else {
        assert(vs.take(k as int) =~= vs);
    }
}

/// An item has a first value without an encoding exactly when it has no
/// encoding.
pub proof fn lemma_item_bad(it: Item)
    ensures
        item_bad(it) is None <==> item_packable(it),
{
    if let Item::List(vs) = it {
        lemma_first_bad_value(vs@);
    }
}

/// A sequence of items has a first value without an encoding exactly when
/// not all of the items have one.
pub proof fn lemma_first_bad_item(items: Seq<Item>)
    ensures
        first_bad_item(items) is None <==> items_packable(items),
    decreases items.len(),
{
    if items.len() > 0 {
        lemma_first_bad_item(items.drop_last());
        lemma_item_bad(items.last());
        if items_packable(items) {
            assert(items_packable(items.drop_last())) by {
                assert forall|i: int| 0 <= i < items.drop_last().len() implies item_packable(
                    #[trigger] items.drop_last()[i],
                ) by {
                    assert(items.drop_last()[i] == items[i]);
                }
            }
            assert(item_packable(items[items.len() - 1]));
        }
        if first_bad_item(items) is None {
            assert forall|i: int| 0 <= i < items.len() implies item_packable(#[trigger] items[i]) by {
                if i < items.len() - 1 {
                    assert(items.drop_last()[i] == items[i]);
                }
            }
        }
    }
}

/// Once a prefix of items has a value without an encoding, that value is
/// the first one of the whole sequence.
pub proof fn lemma_first_bad_item_prefix(items: Seq<Item>, k: nat)
    requires
        k <= items.len(),
        first_bad_item(items.take(k as int)) is Some,
    ensures
        first_bad_item(items) == first_bad_item(items.take(k as int)),
    decreases items.len() - k,
{
    if k < items.len() {
        assert(items.take(k as int + 1).drop_last() =~= items.take(k as int));
        lemma_first_bad_item_prefix(items, k + 1);
    } else {
        assert(items.take(k as int) =~= items);
    }
}

/// The error for a value of a type that has no encoding.
fn unsupported_type(kind: &String) -> (e: ShmError)
    ensures
        e is InvalidArg,
        e.message() == "unsupported type '"@ + kind@
            + "'; supported: bool, int, float, str, bytes, bytearray"@,
{
    let mut m = String::from_str("unsupported type '");
    m.append(kind.as_str());
    m.append("'; supported: bool, int, float, str, bytes, bytearray");
    ShmError::InvalidArg(m)
}

/// Packs one value at the end of `out`.
///
/// Fails, leaving `out` as it was, exactly for a value of a type that has
/// no encoding; the error names the type.
pub fn pack_value(v: &Value, out: &mut Vec<u8>) -> (r: Result<(), ShmError>)
    ensures
        r is Ok <==> packable(*v),
        r is Ok ==> final(out)@ == old(out)@ + value_bytes(*v),
        r matches Err(e) ==> e is InvalidArg && final(out)@ == old(out)@ && e.message()
            == unsupported_message(bad_kind(*v)->0),
{
    match v {
        Value::Bool(b) => {
            out.push(if *b { 1u8 } else { 0u8 });
            assert(out@ =~= old(out)@ + value_bytes(*v));
        },
        Value::Int(i) => {
            let bs = u64_to_le_bytes(*i as u64);
            extend_bytes(out, bs.as_slice());
        },
        Value::Float(bits) => {
            let bs = u64_to_le_bytes(*bits);
            extend_bytes(out, bs.as_slice());
        },
        Value::Str(s) => {
            let enc = s.as_str().as_bytes();
            let n = enc.len() as u32;
            let prefix = u32_to_le_bytes(n);
            extend_bytes(out, prefix.as_slice());
            extend_bytes(out, enc);
            assert(out@ =~= old(out)@ + value_bytes(*v));
        },
        Value::Bytes(b) => {
            extend_bytes(out, b.as_slice());
        },
        Value::Other(name) => {
            return Err(unsupported_type(name));
        },
    }
    Ok(())
}

/// Packs the values of a list one after the other at the end of `out`.
fn pack_values(vs: &Vec<Value>, out: &mut Vec<u8>) -> (r: Result<(), ShmError>)
    ensures
        r is Ok <==> all_packable(vs@),
        r is Ok ==> final(out)@ == old(out)@ + values_bytes(vs@),
        r matches Err(e) ==> e is InvalidArg && e.message() == unsupported_message(
            first_bad_value(vs@)->0,
        ),
{
    let mut j: usize = 0;
    while j < vs.len()
        invariant
            j <= vs@.len(),
            all_packable(vs@.take(j as int)),
            first_bad_value(vs@.take(j as int)) is None,
            out@ == old(out)@ + values_bytes(vs@.take(j as int)),
        decreases vs@.len() - j,
    {
        let r = pack_value(&vs[j], out);
        assert(vs@.take(j + 1).drop_last() =~= vs@.take(j as int));
        assert(vs@.take(j + 1).last() == vs@[j as int]);
        if r.is_err() {
            assert(!packable(vs@[j as int]));
            proof {
                lemma_first_bad_value_prefix(vs@, (j + 1) as nat);
            }
            return r;
        }
        assert(out@ =~= old(out)@ + values_bytes(vs@.take(j + 1)));
        j = j + 1;
    }
    assert(vs@.take(vs@.len() as int) =~= vs@);
    Ok(())
}

/// Packs one item at the end of `out`: a plain value, or each element of a
/// nested list in order.
pub fn pack_item(it: &Item, out: &mut Vec<u8>) -> (r: Result<(), ShmError>)
    ensures
        r is Ok <==> item_packable(*it),
        r is Ok ==> final(out)@ == old(out)@ + item_bytes(*it),
        r matches Err(e) ==> e is InvalidArg && e.message() == unsupported_message(
            item_bad(*it)->0,
        ),
{
    match it {
        Item::One(v) => pack_value(v, out),
        Item::List(vs) => pack_values(vs, out),
    }
}

/// Packs a heterogeneous list into a flat byte buffer: each plain value is
/// packed directly, each nested list element by element.
///
/// Fails exactly when some value has no encoding; the error names the type
/// of the first such value.
pub fn pack_mixed(items: &[Item]) -> (r: Result<Vec<u8>, ShmError>)
    ensures
        r is Ok <==> items_packable(items@),
        r matches Ok(bytes) ==> bytes@ == items_bytes(items@),
        r matches Err(e) ==> e is InvalidArg && e.message() == unsupported_message(
            first_bad_item(items@)->0,
        ),
{
    let mut out: Vec<u8> = Vec::new();
    let mut i: usize = 0;
    while i < items.len()
        invariant
            i <= items@.len(),
            items_packable(items@.take(i as int)),
            first_bad_item(items@.take(i as int)) is None,
            out@ == items_bytes(items@.take(i as int)),
        decreases items@.len() - i,
    {
        let r = pack_item(&items[i], &mut out);
        assert(items@.take(i + 1).drop_last() =~= items@.take(i as int));
        assert(items@.take(i + 1).last() == items@[i as int]);
        if let Err(e) = r {
            assert(!item_packable(items@[i as int]));
            proof {
                lemma_item_bad(items@[i as int]);
                lemma_first_bad_item_prefix(items@, (i + 1) as nat);
            }
            return Err(e);
        }
        proof {
            lemma_item_bad(items@[i as int]);
        }
        i = i + 1;
    }
    assert(items@.take(items@.len() as int) =~= items@);
    Ok(out)
}

// ---- reading ----

/// Reads one value of tag `t` at `cursor`, or `None` where the bytes left
/// are too few.
fn decode_at(data: &[u8], cursor: usize, t: TypeTag) -> (r: Option<(Decoded, usize)>)
    requires
        cursor <= data@.len(),
    ensures
        match spec_decode(data@.subrange(cursor as int, data@.len() as int), t) {
            None => r is None,
            Some((d, n)) => r matches Some((x, m)) && x@ == d && m == n,
        },
{
    let ghost rest = data@.subrange(cursor as int, data@.len() as int);
    let left = data.len() - cursor;
    match t {
        TypeTag::Bool => {
            if left < 1 {
                return None;
            }
            Some((Decoded::Bool(data[cursor] != 0), 1))
        },
        TypeTag::U8 => {
            if left < 1 {
                return None;
            }
            Some((Decoded::U8(data[cursor]), 1))
        },
        TypeTag::I32 | TypeTag::U32 | TypeTag::F32 => {
            if left < 4 {
                return None;
            }
            let w = slice_subrange(data, cursor, cursor + 4);
            assert(w@ =~= rest.take(4));
            let x = u32_from_le_bytes(w);
            match t {
                TypeTag::I32 => Some((Decoded::I32(x as i32), 4)),
                TypeTag::U32 => Some((Decoded::U32(x), 4)),
                _ => Some((Decoded::F32(x), 4)),
            }
        },
        TypeTag::I64 | TypeTag::U64 | TypeTag::F64 => {
            if left < 8 {
                return None;
            }
            let w = slice_subrange(data, cursor, cursor + 8);
            assert(w@ =~= rest.take(8));
            let x = u64_from_le_bytes(w);
            match t {
                TypeTag::I64 => Some((Decoded::I64(x as i64), 8)),
                TypeTag::U64 => Some((Decoded::U64(x), 8)),
                _ => Some((Decoded::F64(x), 8)),
            }
        },
        TypeTag::Str => {
            if left < 4 {
                return None;
            }
            let w = slice_subrange(data, cursor, cursor + 4);
            assert(w@ =~= rest.take(4));
            let n = u32_from_le_bytes(w) as usize;
            if left - 4 < n {
                return None;
            }
            let body = slice_to_vec(slice_subrange(data, cursor + 4, cursor + 4 + n));
            assert(body@ =~= rest.subrange(4, 4 + n as int));
            Some((Decoded::Str(body), 4 + n))
        },
    }
}

/// The message of the error for a tag string that names no type.
pub open spec fn unknown_tag_message(tag: Seq<char>) -> Seq<char> {
    "unknown type tag '"@ + tag
        + "'; supported: bool, int, float, f32, f64, i32, i64, u8, u32, u64, str"@
}

/// Whether `msg` is the message of the error that reading one value of the
/// type named `tag` from the start of `data` fails with.
pub open spec fn unpack_one_message(data: Seq<u8>, tag: Seq<char>, msg: Seq<char>) -> bool {
    match spec_tag(tag) {
        None => msg == unknown_tag_message(tag),
        Some(t) => not_enough_message(data, tag, t, msg),
    }
}

/// The error for a tag string that names no type.
fn unknown_tag(tag: &str) -> (e: ShmError)
    ensures
        e is InvalidArg,
        e.message() == unknown_tag_message(tag@),
{
    let mut m = String::from_str("unknown type tag '");
    m.append(tag);
    m.append("'; supported: bool, int, float, f32, f64, i32, i64, u8, u32, u64, str");
    ShmError::InvalidArg(m)
}

/// Whether `s` is the text that `to_string` gives for `n`.
pub open spec fn shown_as(n: usize, s: Seq<char>) -> bool {
    exists|t: String| #[trigger] to_string_from_display_ensures::<usize>(&n, t) && t@ == s
}

/// The width in bytes of one value of a fixed-width tag; `None` for `Str`.
pub open spec fn spec_fixed_width(t: TypeTag) -> Option<usize> {
    match t {
        TypeTag::Bool | TypeTag::U8 => Some(1usize),
        TypeTag::I32 | TypeTag::U32 | TypeTag::F32 => Some(4usize),
        TypeTag::I64 | TypeTag::U64 | TypeTag::F64 => Some(8usize),
        TypeTag::Str => None,
    }
}

/// A string payload length plus its 4-byte prefix, saturating at the
/// word's maximum.
pub open spec fn framed_len(n: u32) -> usize {
    if n + 4 > usize::MAX {
        usize::MAX
    } else {
        (n + 4) as usize
    }
}

/// The width in bytes of a fixed-width tag (`None` for `Str`).
fn fixed_width(t: TypeTag) -> (w: Option<usize>)
    ensures
        w == spec_fixed_width(t),
{
    match t {
        TypeTag::Bool | TypeTag::U8 => Some(1),
        TypeTag::I32 | TypeTag::U32 | TypeTag::F32 => Some(4),
        TypeTag::I64 | TypeTag::U64 | TypeTag::F64 => Some(8),
        TypeTag::Str => None,
    }
}

/// Whether `msg` is the message of the error for a value of tag `t` (named
/// `tag`) that `data` is too short for: for a fixed-width tag it names the
/// width needed and the bytes there are; for a string, the missing length
/// prefix, or the length the prefix asks for (prefix included) and the
/// bytes there are.
pub open spec fn not_enough_message(data: Seq<u8>, tag: Seq<char>, t: TypeTag, msg: Seq<char>) -> bool {
    &&& (t is Bool ==> msg == "not enough data to read 'bool'"@)
    &&& (t is Str && data.len() < 4 ==> msg
            == "not enough data to read str length prefix"@)
    &&& (t is Str && data.len() >= 4 ==> exists|x: Seq<char>, y: Seq<char>|
            #![trigger shown_as(framed_len(spec_u32_from_le_bytes(data.take(4))), x), shown_as(data.len() as usize, y)]
            shown_as(framed_len(spec_u32_from_le_bytes(data.take(4))), x)
                && shown_as(data.len() as usize, y)
                && msg == "not enough data to read str payload: need "@ + x + ", have "@ + y)
    &&& (!(t is Bool) && !(t is Str) ==> exists|x: Seq<char>, y: Seq<char>|
            #![trigger shown_as(spec_fixed_width(t)->0, x), shown_as(data.len() as usize, y)]
            shown_as(spec_fixed_width(t)->0, x) && shown_as(data.len() as usize, y) && msg
                == "not enough data to read '"@ + tag + "': need "@ + x + ", have "@ + y)
}

/// The error for a value of tag `t` that the bytes of `data` are too few
/// for: for a fixed-width tag it names the width needed and the bytes there
/// are; for a string, the missing length prefix, or the length the prefix
/// asks for (prefix included) and the bytes there are.
fn not_enough_data(data: &[u8], tag: &str, t: TypeTag) -> (e: ShmError)
    ensures
        e is InvalidArg,
        not_enough_message(data@, tag@, t, e.message()),
{
    let have = data.len();
    match t {
        TypeTag::Bool => invalid_arg("not enough data to read 'bool'"),
        TypeTag::Str => {
            if have < 4 {
                return invalid_arg("not enough data to read str length prefix");
            }
            let w = slice_subrange(data, 0, 4);
            assert(w@ =~= data@.take(4));
            let n = u32_from_le_bytes(w) as usize;
            let need = n.saturating_add(4);
            let xs = need.to_string();
            let ys = have.to_string();
            let mut m = String::from_str("not enough data to read str payload: need ");
            m.append(xs.as_str());
            m.append(", have ");
            m.append(ys.as_str());
            proof {
                assert(need == framed_len(spec_u32_from_le_bytes(data@.take(4))));
                assert(shown_as(need, xs@));
                assert(shown_as(have, ys@));
                assert(m@ == "not enough data to read str payload: need "@ + xs@ + ", have "@ + ys@);
                assert(shown_as(framed_len(spec_u32_from_le_bytes(data@.take(4))), xs@) && shown_as(
                    data@.len() as usize,
                    ys@,
                ) && m@ == "not enough data to read str payload: need "@ + xs@ + ", have "@ + ys@);
            }
            ShmError::InvalidArg(m)
        },
        _ => {
            let need = match fixed_width(t) {
                Some(w) => w,
                None => 0,
            };
            let xs = need.to_string();
            let ys = have.to_string();
            let mut m = String::from_str("not enough data to read '");
            m.append(tag);
            m.append("': need ");
            m.append(xs.as_str());
            m.append(", have ");
            m.append(ys.as_str());
            proof {
                assert(need == spec_fixed_width(t)->0);
                assert(shown_as(need, xs@));
                assert(shown_as(have, ys@));
                assert(m@ == "not enough data to read '"@ + tag@ + "': need "@ + xs@ + ", have "@ + ys@);
                assert(shown_as(spec_fixed_width(t)->0, xs@) && shown_as(data@.len() as usize, ys@)
                    && m@ == "not enough data to read '"@ + tag@ + "': need "@ + xs@ + ", have "@
                    + ys@);
            }
            ShmError::InvalidArg(m)
        },
    }
}

/// Reads one value from the start of `data` according to `tag`, and returns
/// it with the number of bytes it took.
///
/// Fails for a tag string that names no type, and where the bytes are too
/// few for the value.
pub fn unpack_one(data: &[u8], tag: &str) -> (r: Result<(Decoded, usize), ShmError>)
    ensures
        match spec_tag(tag@) {
            None => r is Err,
            Some(t) => match spec_decode(data@, t) {
                None => r is Err,
                Some((d, n)) => r matches Ok((x, m)) && x@ == d && m == n,
            },
        },
        r matches Err(e) ==> e is InvalidArg && unpack_one_message(data@, tag@, e.message()),
{
    let t = match parse_tag(tag) {
        Some(t) => t,
        None => return Err(unknown_tag(tag)),
    };
    assert(data@.subrange(0, data@.len() as int) =~= data@);
    match decode_at(data, 0, t) {
        Some(x) => Ok(x),
        None => Err(not_enough_data(data, tag, t)),
    }
}

// ---- schemas ----

/// One entry of what a schema reads: a single value for a count of one,
/// otherwise the list of the values read.
#[derive(Debug, PartialEq, Eq)]
pub enum Column {
    One(Decoded),
    Many(Vec<Decoded>),
}

/// The mathematical form of a [`Column`].
pub enum ColumnView {
    One(DecodedView),
    Many(Seq<DecodedView>),
}

impl View for Column {
    type V = ColumnView;

    open spec fn view(&self) -> ColumnView {
        match self {
            Column::One(d) => ColumnView::One(d@),
            Column::Many(ds) => ColumnView::Many(decoded_views(ds@)),
        }
    }
}

/// The views of a sequence of columns.
pub open spec fn column_views(cs: Seq<Column>) -> Seq<ColumnView> {
    Seq::new(cs.len(), |i: int| cs[i]@)
}

/// The column that `count` values read for one schema entry make.
pub open spec fn column_of(vs: Seq<DecodedView>, count: nat) -> ColumnView {
    if count == 1 {
        ColumnView::One(vs[0])
    } else {
        ColumnView::Many(vs)
    }
}

/// Reading `count` values of tag `t` one after the other from `start`: the
/// values and the position after them, or `None` where the bytes run out.
pub open spec fn decode_many(data: Seq<u8>, t: TypeTag, count: nat, start: nat) -> Option<(Seq<DecodedView>, nat)>
    decreases count,
{
    if count == 0 {
        Some((Seq::empty(), start))
    } else {
        match decode_many(data, t, (count - 1) as nat, start) {
            None => None,
            Some((vs, c)) => if c <= data.len() {
                match spec_decode(data.subrange(c as int, data.len() as int), t) {
                    None => None,
                    Some((d, n)) => Some((vs.push(d), c + n)),
                }
            } else {
                None
            },
        }
    }
}

/// Reading a schema of `(tag, count)` entries from the start of `data`:
/// one column per entry and the number of bytes read, or `None` where a tag
/// names no type or the bytes run out.
pub open spec fn decode_columns(data: Seq<u8>, schema: Seq<(String, usize)>) -> Option<(Seq<ColumnView>, nat)>
    decreases schema.len(),
{
    if schema.len() == 0 {
        Some((Seq::empty(), 0))
    } else {
        match decode_columns(data, schema.drop_last()) {
            None => None,
            Some((cols, c)) => match spec_tag(schema.last().0@) {
                None => None,
                Some(t) => match decode_many(data, t, schema.last().1 as nat, c) {
                    None => None,
                    Some((vs, c2)) => Some((cols.push(column_of(vs, schema.last().1 as nat)), c2)),
                },
            },
        }
    }
}

/// Reading values never goes past the end, and reads as many as asked.
pub proof fn lemma_decode_many_within(data: Seq<u8>, t: TypeTag, count: nat, start: nat)
    requires
        start <= data.len(),
    ensures
        decode_many(data, t, count, start) matches Some((vs, c)) ==> start <= c <= data.len()
            && vs.len() == count,
    decreases count,
{
    if count > 0 {
        lemma_decode_many_within(data, t, (count - 1) as nat, start);
        if let Some((vs, c)) = decode_many(data, t, (count - 1) as nat, start) {
            lemma_decode_within(data.subrange(c as int, data.len() as int), t);
        }
    }
}

/// Once the bytes run out, asking for more values does not help.
pub proof fn lemma_decode_many_stays_none(data: Seq<u8>, t: TypeTag, k: nat, count: nat, start: nat)
    requires
        k <= count,
        decode_many(data, t, k, start) is None,
    ensures
        decode_many(data, t, count, start) is None,
    decreases count - k,
{
    if k < count {
        lemma_decode_many_stays_none(data, t, k, (count - 1) as nat, start);
    }
}

/// A schema reads no more bytes than there are.
pub proof fn lemma_decode_columns_within(data: Seq<u8>, schema: Seq<(String, usize)>)
    ensures
        decode_columns(data, schema) matches Some((cols, c)) ==> c <= data.len() && cols.len()
            == schema.len(),
    decreases schema.len(),
{
    if schema.len() > 0 {
        lemma_decode_columns_within(data, schema.drop_last());
        if let Some((cols, c)) = decode_columns(data, schema.drop_last()) {
            if let Some(t) = spec_tag(schema.last().0@) {
                lemma_decode_many_within(data, t, schema.last().1 as nat, c);
            }
        }
    }
}

/// Where reading `count` values of tag `t` from `start` on fails: the
/// position of the first value that the bytes left are too few for
/// (meaningful where [`decode_many`] gives `None`).
pub open spec fn many_failure(data: Seq<u8>, t: TypeTag, count: nat, start: nat) -> nat
    decreases count,
{
    if count == 0 {
        start
    } else {
        match decode_many(data, t, (count - 1) as nat, start) {
            None => many_failure(data, t, (count - 1) as nat, start),
            Some((_, c)) => c,
        }
    }
}

/// Once the bytes have run out, asking for more values fails at the same
/// place.
pub proof fn lemma_many_failure_stays(data: Seq<u8>, t: TypeTag, k: nat, count: nat, start: nat)
    requires
        k <= count,
        decode_many(data, t, k, start) is None,
    ensures
        many_failure(data, t, count, start) == many_failure(data, t, k, start),
    decreases count - k,
{
    if k < count {
        lemma_many_failure_stays(data, t, k, (count - 1) as nat, start);
        lemma_decode_many_stays_none(data, t, k, (count - 1) as nat, start);
    }
}

/// Why a schema read fails: a tag string that names no type, or a value of
/// a tag that the bytes left at a position are too few for.
pub enum SchemaFailure {
    UnknownTag(Seq<char>),
    Overrun(usize, TypeTag),
}

/// Why reading a schema from the start of `data` fails (meaningful where
/// [`decode_columns`] gives `None`): the first entry that cannot be read.
pub open spec fn columns_failure(data: Seq<u8>, schema: Seq<(String, usize)>) -> SchemaFailure
    decreases schema.len(),
{
    if schema.len() == 0 {
        SchemaFailure::UnknownTag(Seq::empty())
    } else {
        match decode_columns(data, schema.drop_last()) {
            None => columns_failure(data, schema.drop_last()),
            Some((_, c)) => match spec_tag(schema.last().0@) {
                None => SchemaFailure::UnknownTag(schema.last().0@),
                Some(t) => SchemaFailure::Overrun(
                    many_failure(data, t, schema.last().1 as nat, c) as usize,
                    t,
                ),
            },
        }
    }
}

/// Once a schema prefix fails, the whole schema fails for the same reason.
pub proof fn lemma_columns_failure_stays(data: Seq<u8>, schema: Seq<(String, usize)>, k: nat)
    requires
        k <= schema.len(),
        decode_columns(data, schema.take(k as int)) is None,
    ensures
        columns_failure(data, schema) == columns_failure(data, schema.take(k as int)),
    decreases schema.len() - k,
{
    if k < schema.len() {
        let next = schema.take(k as int + 1);
        assert(next.drop_last() =~= schema.take(k as int));
        lemma_columns_failure_stays(data, schema, k + 1);
    } else {
        assert(schema.take(k as int) =~= schema);
    }
}

/// Whether `msg` is the message of the error for the schema failure `f` on
/// `data`.
pub open spec fn failure_message(data: Seq<u8>, f: SchemaFailure, msg: Seq<char>) -> bool {
    match f {
        SchemaFailure::UnknownTag(tag) => msg == unknown_tag_message(tag),
        SchemaFailure::Overrun(cursor, t) => overrun_message(data, cursor, t, msg),
    }
}

/// Where a read of tag `t` at `cursor` fails and the width that does not
/// fit there: the value's width at `cursor` for a fixed-width tag; for a
/// string, the length prefix at `cursor`, or, where the prefix fits, the
/// length it records just past it.
pub open spec fn overrun(data: Seq<u8>, cursor: usize, t: TypeTag) -> (usize, usize) {
    match spec_fixed_width(t) {
        Some(w) => (cursor, w),
        None => if data.len() - cursor < 4 {
            (cursor, 4usize)
        } else {
            (
                (cursor + 4) as usize,
                spec_u32_from_le_bytes(data.subrange(cursor as int, cursor + 4)) as usize,
            )
        },
    }
}

/// Whether `msg` is the message of the error for a read of tag `t` at
/// `cursor` that runs past the end of `data`: it names the position and the
/// width that did not fit (see [`overrun`]) and the length of the data.
pub open spec fn overrun_message(data: Seq<u8>, cursor: usize, t: TypeTag, msg: Seq<char>) -> bool {
    exists|a: Seq<char>, b: Seq<char>, c: Seq<char>|
            #![trigger shown_as(overrun(data, cursor, t).0, a), shown_as(overrun(data, cursor, t).1, b), shown_as(data.len() as usize, c)]
            shown_as(overrun(data, cursor, t).0, a) && shown_as(overrun(data, cursor, t).1, b)
                && shown_as(data.len() as usize, c) && msg == "out of bounds: cursor="@
                + a + " + needed="@ + b + " > data_len="@ + c
}

/// The error for a read of a schema entry at `cursor` that runs past the
/// end: it names the position and the width that did not fit (for a string,
/// the length prefix or, past it, the payload), and the length of the data.
fn out_of_bounds(data: &[u8], cursor: usize, t: TypeTag) -> (e: ShmError)
    requires
        cursor <= data@.len(),
    ensures
        e is InvalidArg,
        overrun_message(data@, cursor, t, e.message()),
{
    let total = data.len();
    let (at, needed) = match fixed_width(t) {
        Some(w) => (cursor, w),
        None => if total - cursor < 4 {
            (cursor, 4)
        } else {
            (cursor + 4, u32_from_le_bytes(slice_subrange(data, cursor, cursor + 4)) as usize)
        },
    };
    assert((at, needed) == overrun(data@, cursor, t));
    let a = at.to_string();
    let b = needed.to_string();
    let c = total.to_string();
    let mut m = String::from_str("out of bounds: cursor=");
    m.append(a.as_str());
    m.append(" + needed=");
    m.append(b.as_str());
    m.append(" > data_len=");
    m.append(c.as_str());
    proof {
        assert(shown_as(at, a@));
        assert(shown_as(needed, b@));
        assert(shown_as(total, c@));
        assert(m@ == "out of bounds: cursor="@ + a@ + " + needed="@ + b@ + " > data_len="@ + c@);
        assert(shown_as(overrun(data@, cursor, t).0, a@) && shown_as(overrun(data@, cursor, t).1, b@)
            && shown_as(data@.len() as usize, c@) && m@ == "out of bounds: cursor="@ + a@
            + " + needed="@ + b@ + " > data_len="@ + c@);
    }
    ShmError::InvalidArg(m)
}

/// Reads `count` values of tag `t` from `cursor` on.
fn unpack_group(data: &[u8], t: TypeTag, count: usize, cursor: usize) -> (r: Result<(Vec<Decoded>, usize), ShmError>)
    requires
        cursor <= data@.len(),
    ensures
        match decode_many(data@, t, count as nat, cursor as nat) {
            None => r is Err,
            Some((vs, c)) => r matches Ok((g, m)) && decoded_views(g@) == vs && m == c,
        },
        r matches Err(e) ==> e is InvalidArg && overrun_message(
            data@,
            many_failure(data@, t, count as nat, cursor as nat) as usize,
            t,
            e.message(),
        ),
{
    let total = data.len();
    let mut group: Vec<Decoded> = Vec::new();
    let mut pos = cursor;
    let mut k: usize = 0;
    while k < count
        invariant
            k <= count,
            cursor <= data@.len(),
            decode_many(data@, t, k as nat, cursor as nat) == Some((decoded_views(group@), pos as nat)),
            pos <= data@.len(),
            total == data@.len(),
        decreases count - k,
    {
        proof {
            lemma_decode_many_within(data@, t, k as nat, cursor as nat);
        }
        match decode_at(data, pos, t) {
            None => {
                proof {
                    lemma_decode_many_stays_none(data@, t, (k + 1) as nat, count as nat, cursor as nat);
                    lemma_many_failure_stays(data@, t, (k + 1) as nat, count as nat, cursor as nat);
                    assert(many_failure(data@, t, (k + 1) as nat, cursor as nat) == pos);
                }
                return Err(out_of_bounds(data, pos, t));
            },
            Some((d, n)) => {
                let ghost rest = data@.subrange(pos as int, data@.len() as int);
                proof {
                    lemma_decode_within(rest, t);
                    assert(spec_decode(rest, t) is Some);
                    assert(n <= rest.len());
                    assert(rest.len() == data@.len() - pos);
                    assert(pos + n <= data@.len());
                }
                group.push(d);
                pos = pos + n;
                k = k + 1;
                assert(decoded_views(group@) =~= decoded_views(group@.drop_last()).push(d@));
            },
        }
    }
    Ok((group, pos))
}

/// Reads bytes from the start of `data` according to a schema of
/// `(type_tag, count)` entries, and returns one column per entry with the
/// number of bytes read: a single value for a count of one, otherwise the
/// list of the values read.
///
/// Fails where a tag names no type and where the bytes run out.
pub fn unpack_mixed_counted(data: &[u8], schema: &[(String, usize)]) -> (r: Result<(Vec<Column>, usize), ShmError>)
    ensures
        match decode_columns(data@, schema@) {
            None => r is Err,
            Some((cols, n)) => r matches Ok((cs, m)) && column_views(cs@) == cols && m == n,
        },
        r matches Err(e) ==> e is InvalidArg && failure_message(
            data@,
            columns_failure(data@, schema@),
            e.message(),
        ),
{
    let mut result: Vec<Column> = Vec::new();
    let mut cursor: usize = 0;
    let mut i: usize = 0;
    while i < schema.len()
        invariant
            i <= schema@.len(),
            decode_columns(data@, schema@.take(i as int)) == Some((column_views(result@), cursor as nat)),
            cursor <= data@.len(),
        decreases schema@.len() - i,
    {
        let ghost prefix = schema@.take(i as int + 1);
        assert(prefix.drop_last() =~= schema@.take(i as int));
        assert(prefix.last() == schema@[i as int]);
        let entry = &schema[i];
        let t = match parse_tag(entry.0.as_str()) {
            Some(t) => t,
            None => {
                proof {
                    lemma_decode_columns_stays_none(data@, schema@, (i + 1) as nat);
                    lemma_columns_failure_stays(data@, schema@, (i + 1) as nat);
                }
                return Err(unknown_tag(entry.0.as_str()));
            },
        };
        let count = entry.1;
        match unpack_group(data, t, count, cursor) {
            Err(e) => {
                proof {
                    lemma_decode_columns_stays_none(data@, schema@, (i + 1) as nat);
                    lemma_columns_failure_stays(data@, schema@, (i + 1) as nat);
                }
                return Err(e);
            },
            Ok((group, next)) => {
                proof {
                    lemma_decode_many_within(data@, t, count as nat, cursor as nat);
                }
                let ghost gv = decoded_views(group@);
                if count == 1 {
                    let mut group = group;
                    let d = group.pop().unwrap();
                    result.push(Column::One(d));
                } else {
                    result.push(Column::Many(group));
                }
                assert(column_views(result@) =~= column_views(result@.drop_last()).push(column_of(gv, count as nat)));
                cursor = next;
                i = i + 1;
            },
        }
    }
    assert(schema@.take(schema@.len() as int) =~= schema@);
    Ok((result, cursor))
}

/// Once a schema prefix fails, the whole schema fails.
pub proof fn lemma_decode_columns_stays_none(data: Seq<u8>, schema: Seq<(String, usize)>, k: nat)
    requires
        k <= schema.len(),
        decode_columns(data, schema.take(k as int)) is None,
    ensures
        decode_columns(data, schema) is None,
    decreases schema.len() - k,
{
    if k < schema.len() {
        let next = schema.take(k as int + 1);
        assert(next.drop_last() =~= schema.take(k as int));
        lemma_decode_columns_stays_none(data, schema, k + 1);
    } else {
        assert(schema.take(k as int) =~= schema);
    }
}

/// Reads bytes from the start of `data` according to a schema of
/// `(type_tag, count)` entries; see [`unpack_mixed_counted`].
pub fn unpack_mixed(data: &[u8], schema: &[(String, usize)]) -> (r: Result<Vec<Column>, ShmError>)
    ensures
        match decode_columns(data@, schema@) {
            None => r is Err,
            Some((cols, _)) => r matches Ok(cs) && column_views(cs@) == cols,
        },
        r matches Err(e) ==> e is InvalidArg && failure_message(
            data@,
            columns_failure(data@, schema@),
            e.message(),
        ),
{
    match unpack_mixed_counted(data, schema) {
        Ok((cs, _)) => Ok(cs),
        Err(e) => Err(e),
    }
}


// ---- schema sizes ----

/// The width in bytes of one value of a fixed-width tag; `None` for `"str"`
/// and for a tag string that names no type.
pub open spec fn elem_size(t: Seq<char>) -> Option<nat> {
    match spec_tag(t) {
        Some(TypeTag::Bool) | Some(TypeTag::U8) => Some(1),
        Some(TypeTag::F32) | Some(TypeTag::I32) | Some(TypeTag::U32) => Some(4),
        Some(TypeTag::F64) | Some(TypeTag::I64) | Some(TypeTag::U64) => Some(8),
        _ => None,
    }
}

/// The total width of a schema of fixed-width entries, or `None` where an
/// entry is `"str"` or names no type.
pub open spec fn schema_size(schema: Seq<(String, usize)>) -> Option<int>
    decreases schema.len(),
{
    if schema.len() == 0 {
        Some(0)
    } else {
        match schema_size(schema.drop_last()) {
            None => None,
            Some(s) => match elem_size(schema.last().0@) {
                None => None,
                Some(e) => Some(s + e * schema.last().1),
            },
        }
    }
}

/// Whether every running total of a schema's width fits in a `usize`.
pub open spec fn schema_size_fits(schema: Seq<(String, usize)>) -> bool {
    forall|i: int|
        0 <= i <= schema.len() ==> (#[trigger] schema_size(schema.take(i)) matches Some(s) ==> s
            <= usize::MAX)
}

/// The message of the error for a schema without a fixed width (meaningful
/// where [`schema_size`] gives `None`): the first entry that is `"str"` or
/// names no type decides it.
pub open spec fn size_failure_message(schema: Seq<(String, usize)>) -> Seq<char>
    decreases schema.len(),
{
    if schema.len() == 0 {
        Seq::empty()
    } else {
        match schema_size(schema.drop_last()) {
            None => size_failure_message(schema.drop_last()),
            Some(_) => if spec_tag(schema.last().0@) == Some(TypeTag::Str) {
                "schema_byte_size cannot compute size for 'str' (variable length);                  use read_range manually"@
            } else {
                "unknown type tag '"@ + schema.last().0@ + "'"@
            },
        }
    }
}

/// Once a schema prefix has no fixed width, the whole schema has none, for
/// the same reason.
pub proof fn lemma_size_failure_stays(schema: Seq<(String, usize)>, k: nat)
    requires
        k <= schema.len(),
        schema_size(schema.take(k as int)) is None,
    ensures
        schema_size(schema) is None,
        size_failure_message(schema) == size_failure_message(schema.take(k as int)),
    decreases schema.len() - k,
{
    if k < schema.len() {
        let next = schema.take(k as int + 1);
        assert(next.drop_last() =~= schema.take(k as int));
        lemma_size_failure_stays(schema, k + 1);
    } else {
        assert(schema.take(k as int) =~= schema);
    }
}

/// Computes the total byte width of a schema without reading any data.
///
/// Fails for a `"str"` entry (its width depends on the data) and for a tag
/// string that names no type.
pub fn schema_byte_size(schema: &[(String, usize)]) -> (r: Result<usize, ShmError>)
    requires
        schema_size_fits(schema@),
    ensures
        match schema_size(schema@) {
            None => r is Err,
            Some(s) => r matches Ok(n) && n == s,
        },
        r matches Err(e) ==> e is InvalidArg && e.message() == size_failure_message(schema@),
{
    let mut total: usize = 0;
    let mut i: usize = 0;
    while i < schema.len()
        invariant
            i <= schema@.len(),
            schema_size_fits(schema@),
            schema_size(schema@.take(i as int)) == Some(total as int),
        decreases schema@.len() - i,
    {
        let ghost next = schema@.take(i as int + 1);
        assert(next.drop_last() =~= schema@.take(i as int));
        assert(next.last() == schema@[i as int]);
        let entry = &schema[i];
        let elem: usize = match parse_tag(entry.0.as_str()) {
            Some(TypeTag::Bool) | Some(TypeTag::U8) => 1,
            Some(TypeTag::F32) | Some(TypeTag::I32) | Some(TypeTag::U32) => 4,
            Some(TypeTag::F64) | Some(TypeTag::I64) | Some(TypeTag::U64) => 8,
            Some(TypeTag::Str) => {
                proof {
                    lemma_size_failure_stays(schema@, (i + 1) as nat);
                }
                return Err(invalid_arg(
                    "schema_byte_size cannot compute size for 'str' (variable length);                  use read_range manually",
                ));
            },
            None => {
                proof {
                    lemma_size_failure_stays(schema@, (i + 1) as nat);
                }
                let mut m = String::from_str("unknown type tag '");
                m.append(entry.0.as_str());
                m.append("'");
                return Err(ShmError::InvalidArg(m));
            },
        };
        let count = entry.1;
        assert(schema_size(next) == Some(total + elem * count));
        assert(total + elem * count <= usize::MAX);
        assert(elem * count <= usize::MAX) by (nonlinear_arith)
            requires
                total + elem * count <= usize::MAX,
                total >= 0,
        ;
        total = total + elem * count;
        i = i + 1;
    }
    assert(schema@.take(schema@.len() as int) =~= schema@);
    Ok(total)
}

// ---- what is written reads back ----

/// The tag that reads a value back as it was packed.
pub open spec fn natural_tag(v: Value) -> TypeTag {
    match v {
        Value::Bool(_) => TypeTag::Bool,
        Value::Int(_) => TypeTag::I64,
        Value::Float(_) => TypeTag::F64,
        _ => TypeTag::Str,
    }
}

/// What reading a packed value back with its natural tag gives.
pub open spec fn read_back(v: Value) -> DecodedView {
    match v {
        Value::Bool(b) => DecodedView::Bool(b),
        Value::Int(i) => DecodedView::I64(i),
        Value::Float(x) => DecodedView::F64(x),
        Value::Str(s) => DecodedView::Str(utf8_of(s)),
        Value::Bytes(b) => DecodedView::Str(b@),
        Value::Other(_) => DecodedView::Bool(false),
    }
}

/// Whether a value reads back as it was packed: booleans, integers,
/// floats, and strings whose UTF-8 length fits the `u32` length prefix.
/// (Raw bytes carry no length, so no tag reads them back on their own.)
pub open spec fn round_trips(v: Value) -> bool {
    match v {
        Value::Bool(_) | Value::Int(_) | Value::Float(_) => true,
        Value::Str(s) => utf8_of(s).len() <= u32::MAX,
        _ => false,
    }
}

/// A packed value, followed by anything, reads back with its natural tag
/// as the value it was, taking exactly its own bytes.
pub proof fn lemma_value_round_trip(v: Value, rest: Seq<u8>)
    requires
        round_trips(v),
    ensures
        spec_decode(value_bytes(v) + rest, natural_tag(v)) == Some(
            (read_back(v), value_bytes(v).len()),
        ),
{
    lemma_auto_spec_u64_to_from_le_bytes();
    lemma_auto_spec_u32_to_from_le_bytes();
    let data = value_bytes(v) + rest;
    match v {
        Value::Bool(b) => {
        },
        Value::Int(i) => {
            assert(data.take(8) =~= spec_u64_to_le_bytes(i as u64));
            let u = i as u64;
            assert(u as i64 == i) by (bit_vector)
                requires
                    u == i as u64,
            ;
        },
        Value::Float(x) => {
            assert(data.take(8) =~= spec_u64_to_le_bytes(x));
        },
        Value::Str(s) => {
            let enc = utf8_of(s);
            let n = enc.len() as u32;
            assert(data.take(4) =~= spec_u32_to_le_bytes(n));
            assert(n == enc.len());
            assert(data.subrange(4, 4 + enc.len() as int) =~= enc);
        },
        _ => {
        },
    }
}

/// The values of an item, in the order they are packed.
pub open spec fn item_values(it: Item) -> Seq<Value> {
    match it {
        Item::One(v) => seq![v],
        Item::List(vs) => vs@,
    }
}

/// The column that reading an item back gives.
pub open spec fn column_for(it: Item) -> ColumnView {
    column_of(
        item_values(it).map_values(|v: Value| read_back(v)),
        item_values(it).len(),
    )
}

/// Whether a schema reads a list of items back: one entry per item, whose
/// tag is the natural tag of each of the item's values and whose count is
/// the item's number of values.
pub open spec fn schema_reads_back(items: Seq<Item>, schema: Seq<(String, usize)>) -> bool {
    &&& items.len() == schema.len()
    &&& forall|i: int|
        0 <= i < items.len() ==> {
            let vs = item_values(#[trigger] items[i]);
            &&& schema[i].1 == vs.len()
            &&& spec_tag(schema[i].0@) is Some
            &&& forall|j: int|
                0 <= j < vs.len() ==> round_trips(#[trigger] vs[j]) && natural_tag(vs[j])
                    == spec_tag(schema[i].0@)->0
        }
}

/// The bytes of an item are the bytes of its values.
proof fn lemma_item_bytes_values(it: Item)
    ensures
        item_bytes(it) == values_bytes(item_values(it)),
{
    if let Item::One(v) = it {
        let vs = seq![v];
        assert(vs.drop_last() =~= Seq::<Value>::empty());
        assert(vs.last() == v);
        assert(values_bytes(vs.drop_last()) == Seq::<u8>::empty());
        assert(values_bytes(vs) == values_bytes(vs.drop_last()) + value_bytes(vs.last()));
        assert(values_bytes(vs) =~= value_bytes(v));
    }
}

/// Packed values of one natural tag, between anything before and anything
/// after, read back one by one as they were.
proof fn lemma_values_round_trip(before: Seq<u8>, vs: Seq<Value>, after: Seq<u8>, t: TypeTag)
    requires
        forall|j: int| 0 <= j < vs.len() ==> round_trips(#[trigger] vs[j]) && natural_tag(vs[j]) == t,
    ensures
        decode_many(before + values_bytes(vs) + after, t, vs.len(), before.len()) == Some(
            (vs.map_values(|v: Value| read_back(v)), before.len() + values_bytes(vs).len()),
        ),
    decreases vs.len(),
{
    let data = before + values_bytes(vs) + after;
    if vs.len() == 0 {
        assert(vs.map_values(|v: Value| read_back(v)) =~= Seq::<DecodedView>::empty());
    } else {
        let init = vs.drop_last();
        let v = vs.last();
        let after2 = value_bytes(v) + after;
        assert(before + values_bytes(init) + after2 =~= data);
        lemma_values_round_trip(before, init, after2, t);
        let c = before.len() + values_bytes(init).len();
        assert(data.subrange(c as int, data.len() as int) =~= value_bytes(v) + after);
        lemma_value_round_trip(v, after);
        assert(init.map_values(|v: Value| read_back(v)).push(read_back(v)) =~= vs.map_values(
            |v: Value| read_back(v),
        ));
    }
}

/// Items packed by [`pack_mixed`], followed by anything, are read back by a
/// matching schema as one column per item, taking exactly the packed bytes.
pub proof fn lemma_columns_round_trip(items: Seq<Item>, schema: Seq<(String, usize)>, rest: Seq<u8>)
    requires
        schema_reads_back(items, schema),
    ensures
        decode_columns(items_bytes(items) + rest, schema) == Some(
            (items.map_values(|it: Item| column_for(it)), items_bytes(items).len()),
        ),
    decreases items.len(),
{
    let data = items_bytes(items) + rest;
    if items.len() == 0 {
        assert(items.map_values(|it: Item| column_for(it)) =~= Seq::<ColumnView>::empty());
    } else {
        let init = items.drop_last();
        let it = items.last();
        let k = (items.len() - 1) as int;
        assert(it == items[k]);
        let rest2 = item_bytes(it) + rest;
        assert(items_bytes(init) + rest2 =~= data);
        assert(schema_reads_back(init, schema.drop_last())) by {
            assert forall|i: int| 0 <= i < init.len() implies {
                let vs = item_values(#[trigger] init[i]);
                &&& schema.drop_last()[i].1 == vs.len()
                &&& spec_tag(schema.drop_last()[i].0@) is Some
                &&& forall|j: int|
                    0 <= j < vs.len() ==> round_trips(#[trigger] vs[j]) && natural_tag(vs[j])
                        == spec_tag(schema.drop_last()[i].0@)->0
            } by {
                assert(init[i] == items[i]);
                assert(schema.drop_last()[i] == schema[i]);
            }
        }
        lemma_columns_round_trip(init, schema.drop_last(), rest2);
        let vs = item_values(it);
        let t = spec_tag(schema.last().0@)->0;
        lemma_item_bytes_values(it);
        assert(items_bytes(init) + values_bytes(vs) + rest =~= data);
        lemma_values_round_trip(items_bytes(init), vs, rest, t);
        assert(init.map_values(|it: Item| column_for(it)).push(column_for(it)) =~= items.map_values(
            |it: Item| column_for(it),
        ));
    }
}


/// Each value of a list as an item of its own.
pub open spec fn singles(vs: Seq<Value>) -> Seq<Item> {
    vs.map_values(|v: Value| Item::One(v))
}

/// A list packs to the same bytes as its values taken as separate items.
proof fn lemma_singles_bytes(vs: Seq<Value>)
    ensures
        items_bytes(singles(vs)) == values_bytes(vs),
    decreases vs.len(),
{
    if vs.len() > 0 {
        lemma_singles_bytes(vs.drop_last());
        assert(singles(vs).drop_last() =~= singles(vs.drop_last()));
        assert(singles(vs).last() == Item::One(vs.last()));
    }
}

/// A list packed as one message (see `SpscRingBuffer::push`) is read back
/// by a schema with one single-value entry per element, each element as it
/// was, taking exactly the packed bytes.
pub proof fn lemma_list_round_trip(vs: Seq<Value>, schema: Seq<(String, usize)>)
    requires
        schema_reads_back(singles(vs), schema),
    ensures
        decode_columns(values_bytes(vs), schema) == Some(
            (
                vs.map_values(|v: Value| ColumnView::One(read_back(v))),
                values_bytes(vs).len(),
            ),
        ),
{
    lemma_singles_bytes(vs);
    let items = singles(vs);
    lemma_columns_round_trip(items, schema, Seq::empty());
    assert(items_bytes(items) + Seq::<u8>::empty() =~= values_bytes(vs));
    let cols = items.map_values(|it: Item| column_for(it));
    assert forall|i: int| 0 <= i < vs.len() implies #[trigger] cols[i] == ColumnView::One(
        read_back(vs[i]),
    ) by {
        assert(items[i] == Item::One(vs[i]));
        assert(item_values(items[i]) =~= seq![vs[i]]);
        assert(item_values(items[i]).map_values(|v: Value| read_back(v)) =~= seq![read_back(vs[i])]);
    }
    assert(cols =~= vs.map_values(|v: Value| ColumnView::One(read_back(v))));
}

// ---- what reading gives, stated over the bytes ----

/// Every fixed-width tag reads the little-endian bytes of a number back as
/// that number: a 64-bit value from its 8 bytes, a 32-bit value from its 4,
/// a byte from itself, a boolean as whether its byte is non-zero; whatever
/// follows is left unread.
pub proof fn lemma_fixed_width_reads(x64: u64, i64v: i64, x32: u32, i32v: i32, b: u8, rest: Seq<u8>)
    ensures
        spec_decode(spec_u64_to_le_bytes(x64) + rest, TypeTag::U64) == Some(
            (DecodedView::U64(x64), 8nat),
        ),
        spec_decode(spec_u64_to_le_bytes(i64v as u64) + rest, TypeTag::I64) == Some(
            (DecodedView::I64(i64v), 8nat),
        ),
        spec_decode(spec_u64_to_le_bytes(x64) + rest, TypeTag::F64) == Some(
            (DecodedView::F64(x64), 8nat),
        ),
        spec_decode(spec_u32_to_le_bytes(x32) + rest, TypeTag::U32) == Some(
            (DecodedView::U32(x32), 4nat),
        ),
        spec_decode(spec_u32_to_le_bytes(i32v as u32) + rest, TypeTag::I32) == Some(
            (DecodedView::I32(i32v), 4nat),
        ),
        spec_decode(spec_u32_to_le_bytes(x32) + rest, TypeTag::F32) == Some(
            (DecodedView::F32(x32), 4nat),
        ),
        spec_decode(seq![b] + rest, TypeTag::U8) == Some((DecodedView::U8(b), 1nat)),
        spec_decode(seq![b] + rest, TypeTag::Bool) == Some((DecodedView::Bool(b != 0), 1nat)),
{
    lemma_auto_spec_u64_to_from_le_bytes();
    lemma_auto_spec_u32_to_from_le_bytes();
    assert((spec_u64_to_le_bytes(x64) + rest).take(8) =~= spec_u64_to_le_bytes(x64));
    assert((spec_u64_to_le_bytes(i64v as u64) + rest).take(8) =~= spec_u64_to_le_bytes(
        i64v as u64,
    ));
    assert((spec_u32_to_le_bytes(x32) + rest).take(4) =~= spec_u32_to_le_bytes(x32));
    assert((spec_u32_to_le_bytes(i32v as u32) + rest).take(4) =~= spec_u32_to_le_bytes(
        i32v as u32,
    ));
    let u = i64v as u64;
    assert(u as i64 == i64v) by (bit_vector)
        requires
            u == i64v as u64,
    ;
    let w = i32v as u32;
    assert(w as i32 == i32v) by (bit_vector)
        requires
            w == i32v as u32,
    ;
}

/// Raw bytes are stored as they are, whatever their length: packing them
/// always succeeds and gives exactly those bytes, as a value and as a
/// message item.
pub proof fn lemma_raw_bytes_stored(b: Vec<u8>)
    ensures
        packable(Value::Bytes(b)),
        value_bytes(Value::Bytes(b)) == b@,
        item_packable(Item::One(Value::Bytes(b))),
        item_bytes(Item::One(Value::Bytes(b))) == b@,
{
}

/// A string is stored as its length prefix and its whole UTF-8 encoding:
/// reading it back takes exactly those bytes and gives bytes whose text is
/// the string itself, whatever its length (as far as the prefix can count
/// it).
pub proof fn lemma_string_stored(s: String, rest: Seq<u8>)
    requires
        encode_utf8(s@).len() <= u32::MAX,
    ensures
        value_bytes(Value::Str(s)).len() == 4 + encode_utf8(s@).len(),
        spec_decode(value_bytes(Value::Str(s)) + rest, TypeTag::Str) matches Some(
            (DecodedView::Str(bytes), n),
        ) && n == 4 + encode_utf8(s@).len() && valid_utf8(bytes) && decode_utf8(bytes) == s@,
{
    lemma_auto_spec_u32_to_from_le_bytes();
    let enc = encode_utf8(s@);
    let data = value_bytes(Value::Str(s)) + rest;
    assert(data.take(4) =~= spec_u32_to_le_bytes(enc.len() as u32));
    assert(data.subrange(4, 4 + enc.len() as int) =~= enc);
    lemma_text_round_trip(s@);
}

/// Reading `count` values of a fixed width `w` from `start` reads them one
/// after the other, the `i`-th at `start + i * w`, and ends `count` widths
/// on; it fails only where the bytes run out.
pub proof fn lemma_decode_many_fixed(data: Seq<u8>, t: TypeTag, w: usize, count: nat, start: nat)
    requires
        spec_fixed_width(t) == Some(w),
        start + count * w <= data.len(),
    ensures
        decode_many(data, t, count, start) matches Some((vs, c)) && c == start + count * w
            && vs.len() == count && forall|i: int|
            0 <= i < count ==> #[trigger] vs[i] == spec_decode(
                data.subrange(start + i * w, data.len() as int),
                t,
            ).unwrap().0,
    decreases count,
{
    if count > 0 {
        let k = (count - 1) as nat;
        assert(k * w <= count * w) by (nonlinear_arith)
            requires
                k < count,
        ;
        assert(count * w == k * w + w) by (nonlinear_arith)
            requires
                k == count - 1,
        ;
        lemma_decode_many_fixed(data, t, w, k, start);
        let c = (start + k * w) as nat;
        let sub = data.subrange(c as int, data.len() as int);
        assert(sub.len() >= w);
        assert(spec_decode(sub, t) matches Some((_, n)) && n == w) by {
            match t {
                TypeTag::Str => {},
                _ => {},
            }
        }
        let (vs, c0) = decode_many(data, t, k, start)->0;
        let d = spec_decode(sub, t).unwrap().0;
        assert(decode_many(data, t, count, start) == Some((vs.push(d), (c + w) as nat)));
        assert forall|i: int| 0 <= i < count implies #[trigger] vs.push(d)[i] == spec_decode(
            data.subrange(start + i * w, data.len() as int),
            t,
        ).unwrap().0 by {
            if i < k {
                assert(vs.push(d)[i] == vs[i]);
            } else {
                assert(i == k);
            }
        }
    }
}

/// A schema entry of a fixed-width tag reads, for a count other than one,
/// a list of exactly `count` values in the order they stand in the bytes,
/// the `i`-th at `i * w`; for a count of one, the single value at the
/// start. It takes `count * w` bytes.
pub proof fn lemma_fixed_entry_column(data: Seq<u8>, tag: String, count: usize, w: usize)
    requires
        spec_tag(tag@) matches Some(t) && spec_fixed_width(t) == Some(w),
        count * w <= data.len(),
    ensures
        ({
            let t = spec_tag(tag@)->0;
            &&& decode_columns(data, seq![(tag, count)]) matches Some((cols, n))
            &&& n == count * w
            &&& cols.len() == 1
            &&& count == 1 ==> cols[0] == ColumnView::One(spec_decode(data, t).unwrap().0)
            &&& count != 1 ==> (cols[0] matches ColumnView::Many(vs) && vs.len() == count
                && forall|i: int|
                0 <= i < count ==> #[trigger] vs[i] == spec_decode(
                    data.subrange(i * w, data.len() as int),
                    t,
                ).unwrap().0)
        }),
{
    let t = spec_tag(tag@)->0;
    let schema = seq![(tag, count)];
    assert(schema.drop_last() =~= Seq::<(String, usize)>::empty());
    assert(schema.last() == (tag, count));
    lemma_decode_many_fixed(data, t, w, count as nat, 0);
    assert(data.subrange(0, data.len() as int) =~= data);
    let (vs, c) = decode_many(data, t, count as nat, 0)->0;
    let col = column_of(vs, count as nat);
    assert(decode_columns(data, schema.drop_last()) == Some((Seq::<ColumnView>::empty(), 0nat)));
    assert(spec_tag(schema.last().0@) == Some(t));
    assert(schema.last().1 as nat == count as nat);
    assert(decode_columns(data, schema) == Some((Seq::<ColumnView>::empty().push(col), c)));
    assert(Seq::<ColumnView>::empty().push(col)[0] == col);
    if count == 1 {
        assert(vs[0] == spec_decode(data.subrange(0 + 0 * w, data.len() as int), t).unwrap().0);
        assert(0 + 0 * w == 0);
    } else {
        assert forall|i: int| 0 <= i < count implies #[trigger] vs[i] == spec_decode(
            data.subrange(i * w, data.len() as int),
            t,
        ).unwrap().0 by {
            assert(0 + i * w == i * w);
        }
    }
}

} // verus!
