//! The byte layout of a store, as functions on byte sequences: what
//! encoding writes, what decoding reads, and when either fails.

use crate::model::{ContainerView, ElementsView, StoreView, DEFAULT_ENTRY_LIMIT};
use crate::wire::{le_bytes_u16, le_bytes_u32, le_u16, le_u32};
use vstd::prelude::*;
use vstd::utf8::{decode_utf8, encode_utf8, valid_utf8};

verus! {

/// Why bytes could not be decoded.
#[derive(Clone, Copy, Debug, PartialEq, Eq, Structural)]
pub enum DecodeError {
    /// The bytes end before the value does.
    UnexpectedEof,
    /// An element type tag other than 1, 2 or 3.
    UnknownTag(u8),
    /// A string field that is not UTF-8.
    InvalidUtf8,
}

/// Why a store could not be encoded: a count or a length does not fit the
/// field that holds it on the wire.
#[derive(Clone, Copy, Debug, PartialEq, Eq, Structural)]
pub enum EncodeError {
    /// More than 65535 columns.
    TooManyContainers,
    /// A column with more than 4294967295 samples.
    TooManyElements,
    /// A name or a string sample of more than 65535 bytes.
    StringTooLong,
}

/// A decoded value and the number of bytes it took.
pub type Parsed<T> = Result<(T, int), DecodeError>;

/// The sequences of `parts`, one after another.
pub open spec fn concat(parts: Seq<Seq<u8>>) -> Seq<u8>
    decreases parts.len(),
{
    if parts.len() == 0 {
        Seq::empty()
    } else {
        concat(parts.drop_last()) + parts.last()
    }
}

/// The first fault among the items of `s`, in their order.
pub open spec fn first_fault<T>(fault: spec_fn(T) -> Option<EncodeError>, s: Seq<T>) -> Option<
    EncodeError,
>
    decreases s.len(),
{
    if s.len() == 0 {
        None
    } else {
        match first_fault(fault, s.drop_last()) {
            Some(e) => Some(e),
            None => fault(s.last()),
        }
    }
}

/// `n` items read one after another from the start of `b`, each by `item`;
/// the first failure is the failure of the whole.
pub open spec fn parse_many<T>(item: spec_fn(Seq<u8>) -> Parsed<T>, b: Seq<u8>, n: nat) -> Parsed<
    Seq<T>,
>
    decreases n,
{
    if n == 0 {
        Ok((Seq::empty(), 0))
    } else {
        match parse_many(item, b, (n - 1) as nat) {
            Err(e) => Err(e),
            Ok((vs, m)) => match item(b.skip(m)) {
                Err(e) => Err(e),
                Ok((v, k)) => Ok((vs.push(v), m + k)),
            },
        }
    }
}

// Strings
/// A string on the wire: its length in bytes, in one byte where that is
/// under 255 and else as 0xFF and two bytes, then its UTF-8 bytes.
pub open spec fn encode_string(s: Seq<char>) -> Seq<u8> {
    let body = encode_utf8(s);
    if body.len() < 255 {
        seq![body.len() as u8] + body
    } else {
        seq![0xffu8] + le_bytes_u16(body.len() as u16) + body
    }
}

/// The fault of a string: its length must fit two bytes.
pub open spec fn string_fault(s: Seq<char>) -> Option<EncodeError> {
    if encode_utf8(s).len() > 0xffff {
        Some(EncodeError::StringTooLong)
    } else {
        None
    }
}

/// `string_fault`, as a value.
pub open spec fn string_faults() -> spec_fn(Seq<char>) -> Option<EncodeError> {
    |s: Seq<char>| string_fault(s)
}

/// `encode_string`, as a value.
pub open spec fn string_encoder() -> spec_fn(Seq<char>) -> Seq<u8> {
    |s: Seq<char>| encode_string(s)
}

/// The string of `len` bytes that starts at `at` in `b`.
pub open spec fn parse_string_body(b: Seq<u8>, at: int, len: int) -> Parsed<Seq<char>> {
    if b.len() < at + len {
        Err(DecodeError::UnexpectedEof)
    } else if !valid_utf8(b.subrange(at, at + len)) {
        Err(DecodeError::InvalidUtf8)
    } else {
        Ok((decode_utf8(b.subrange(at, at + len)), at + len))
    }
}

/// The string at the start of `b`.
pub open spec fn parse_string(b: Seq<u8>) -> Parsed<Seq<char>> {
    if b.len() < 1 {
        Err(DecodeError::UnexpectedEof)
    } else if b[0] != 0xff {
        parse_string_body(b, 1, b[0] as int)
    } else if b.len() < 3 {
        Err(DecodeError::UnexpectedEof)
    } else {
        parse_string_body(b, 3, le_u16(b.skip(1)) as int)
    }
}

/// `parse_string`, as a value.
pub open spec fn string_parser() -> spec_fn(Seq<u8>) -> Parsed<Seq<char>> {
    |b: Seq<u8>| parse_string(b)
}

// Numbers
/// The four-byte number at the start of `b`.
pub open spec fn parse_u32(b: Seq<u8>) -> Parsed<u32> {
    if b.len() < 4 {
        Err(DecodeError::UnexpectedEof)
    } else {
        Ok((le_u32(b), 4))
    }
}

/// `le_bytes_u32`, as a value.
pub open spec fn u32_encoder() -> spec_fn(u32) -> Seq<u8> {
    |x: u32| le_bytes_u32(x)
}

/// `parse_u32`, as a value.
pub open spec fn u32_parser() -> spec_fn(Seq<u8>) -> Parsed<u32> {
    |b: Seq<u8>| parse_u32(b)
}

// Element arrays
/// The samples of an array on the wire, one after another: four bytes for
/// a number or a float, a string as strings are.
pub open spec fn encode_items(e: ElementsView) -> Seq<u8> {
    match e {
        ElementsView::U32(s) => concat(s.map_values(u32_encoder())),
        ElementsView::Float32(s) => concat(s.map_values(u32_encoder())),
        ElementsView::String(s) => concat(s.map_values(string_encoder())),
    }
}

/// The fault of an array: its length must fit four bytes, and so must each
/// string's length two.
pub open spec fn elements_fault(e: ElementsView) -> Option<EncodeError> {
    if e.len() > 0xffff_ffff {
        Some(EncodeError::TooManyElements)
    } else {
        match e {
            ElementsView::String(s) => first_fault(string_faults(), s),
            _ => None,
        }
    }
}

/// `count` samples of the kind that `tag` names, from the start of `b`.
pub open spec fn parse_items(tag: u8, count: nat, b: Seq<u8>) -> Parsed<ElementsView> {
    if tag == 1 {
        match parse_many(u32_parser(), b, count) {
            Ok((s, n)) => Ok((ElementsView::U32(s), n)),
            Err(e) => Err(e),
        }
    } else if tag == 2 {
        match parse_many(u32_parser(), b, count) {
            Ok((s, n)) => Ok((ElementsView::Float32(s), n)),
            Err(e) => Err(e),
        }
    } else if tag == 3 {
        match parse_many(string_parser(), b, count) {
            Ok((s, n)) => Ok((ElementsView::String(s), n)),
            Err(e) => Err(e),
        }
    } else {
        Err(DecodeError::UnknownTag(tag))
    }
}

// Columns
/// A column on the wire: its name, the tag of its kind, the number of its
/// samples in four bytes, and the samples.
pub open spec fn encode_container(c: ContainerView) -> Seq<u8> {
    encode_string(c.name) + seq![c.elements.tag()] + le_bytes_u32(c.elements.len() as u32)
        + encode_items(c.elements)
}

/// The first fault of a column, in the order of the wire: its name, then
/// its samples.
pub open spec fn container_fault(c: ContainerView) -> Option<EncodeError> {
    match string_fault(c.name) {
        Some(e) => Some(e),
        None => elements_fault(c.elements),
    }
}

/// `container_fault`, as a value.
pub open spec fn container_faults() -> spec_fn(ContainerView) -> Option<EncodeError> {
    |c: ContainerView| container_fault(c)
}

/// `encode_container`, as a value.
pub open spec fn container_encoder() -> spec_fn(ContainerView) -> Seq<u8> {
    |c: ContainerView| encode_container(c)
}

/// The column at the start of `b`.
pub open spec fn parse_container(b: Seq<u8>) -> Parsed<ContainerView> {
    match parse_string(b) {
        Err(e) => Err(e),
        Ok((name, n)) => if b.len() < n + 5 {
            Err(DecodeError::UnexpectedEof)
        } else {
            match parse_items(b[n], le_u32(b.skip(n + 1)) as nat, b.skip(n + 5)) {
                Err(e) => Err(e),
                Ok((elements, k)) => Ok((ContainerView { name, elements }, n + 5 + k)),
            }
        },
    }
}

/// `parse_container`, as a value.
pub open spec fn container_parser() -> spec_fn(Seq<u8>) -> Parsed<ContainerView> {
    |b: Seq<u8>| parse_container(b)
}

// Stores
/// A store on the wire: the format tag in four bytes, the version, the
/// number of columns in two bytes, and the columns. The retention limit
/// is not written.
pub open spec fn encode_store(s: StoreView) -> Seq<u8> {
    le_bytes_u32(s.magic) + seq![s.version] + le_bytes_u16(s.containers.len() as u16) + concat(
        s.containers.map_values(container_encoder()),
    )
}

/// The first fault of a store, in the order of the wire: the number of
/// its columns, then the columns.
pub open spec fn store_fault(s: StoreView) -> Option<EncodeError> {
    if s.containers.len() > 0xffff {
        Some(EncodeError::TooManyContainers)
    } else {
        first_fault(container_faults(), s.containers)
    }
}

/// The store at the start of `b`. What follows it is not read.
pub open spec fn parse_store(b: Seq<u8>) -> Parsed<StoreView> {
    if b.len() < 7 {
        Err(DecodeError::UnexpectedEof)
    } else {
        match parse_many(container_parser(), b.skip(7), le_u16(b.skip(5)) as nat) {
            Err(e) => Err(e),
            Ok((containers, n)) => Ok(
                (
                    StoreView {
                        magic: le_u32(b),
                        version: b[4],
                        containers,
                        entry_limit: DEFAULT_ENTRY_LIMIT as nat,
                    },
                    7 + n,
                ),
            ),
        }
    }
}

// What the loops of the codec need of the three functions on sequences.
/// The parts of a sequence with one more part, one after another.
pub proof fn lemma_concat_push(parts: Seq<Seq<u8>>, last: Seq<u8>)
    ensures
        concat(parts.push(last)) == concat(parts) + last,
{
    assert(parts.push(last).drop_last() =~= parts);
}

/// The first `k + 1` parts are the first `k` and the part at `k`.
pub proof fn lemma_concat_take(parts: Seq<Seq<u8>>, k: int)
    requires
        0 <= k < parts.len(),
    ensures
        concat(parts.take(k + 1)) == concat(parts.take(k)) + parts[k],
{
    assert(parts.take(k + 1).drop_last() =~= parts.take(k));
}

/// The first fault among the first `k + 1` items is that among the first
/// `k`, or else that of the item at `k`.
pub proof fn lemma_first_fault_take<T>(
    fault: spec_fn(T) -> Option<EncodeError>,
    s: Seq<T>,
    k: int,
)
    requires
        0 <= k < s.len(),
    ensures
        first_fault(fault, s.take(k + 1)) == match first_fault(fault, s.take(k)) {
            Some(e) => Some(e),
            None => fault(s[k]),
        },
{
    assert(s.take(k + 1).drop_last() =~= s.take(k));
}

/// A fault among the first `k` items is the first fault of the whole.
pub proof fn lemma_first_fault_prefix<T>(
    fault: spec_fn(T) -> Option<EncodeError>,
    s: Seq<T>,
    k: int,
)
    requires
        0 <= k <= s.len(),
        first_fault(fault, s.take(k)) is Some,
    ensures
        first_fault(fault, s) == first_fault(fault, s.take(k)),
    decreases s.len() - k,
{
    if k < s.len() {
        lemma_first_fault_take(fault, s, k);
        lemma_first_fault_prefix(fault, s, k + 1);
    } else {
        assert(s.take(k) =~= s);
    }
}

/// Where a sequence has no fault, none of its items has one.
pub proof fn lemma_no_fault_each<T>(fault: spec_fn(T) -> Option<EncodeError>, s: Seq<T>, i: int)
    requires
        first_fault(fault, s) is None,
        0 <= i < s.len(),
    ensures
        fault(s[i]) is None,
    decreases s.len(),
{
    if i < s.len() - 1 {
        lemma_no_fault_each(fault, s.drop_last(), i);
    }
}

/// One more item read after `k` items.
pub proof fn lemma_parse_many_next<T>(item: spec_fn(Seq<u8>) -> Parsed<T>, b: Seq<u8>, k: nat)
    ensures
        parse_many(item, b, k + 1) == match parse_many(item, b, k) {
            Err(e) => Err(e),
            Ok((vs, m)) => match item(b.skip(m)) {
                Err(e) => Err(e),
                Ok((v, n)) => Ok((vs.push(v), m + n)),
            },
        },
{
}

/// Where the items read so far end in a failure, so does any longer read.
pub proof fn lemma_parse_many_fails<T>(
    item: spec_fn(Seq<u8>) -> Parsed<T>,
    b: Seq<u8>,
    k: nat,
    n: nat,
)
    requires
        k <= n,
        parse_many(item, b, k) is Err,
    ensures
        parse_many(item, b, n) == parse_many(item, b, k),
    decreases n - k,
{
    if k < n {
        lemma_parse_many_fails(item, b, k, (n - 1) as nat);
    }
}

} // verus!
