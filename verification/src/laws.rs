//! What holds of the codec and of the retention window, for every store.

use crate::layout::{
    concat, container_encoder, container_fault, container_faults, container_parser,
    encode_container, encode_items, encode_store, encode_string, first_fault,
    lemma_concat_push, lemma_no_fault_each, parse_container, parse_items, parse_many,
    parse_store, parse_string, parse_u32, store_fault, string_encoder, string_fault,
    string_faults, string_parser, u32_encoder, u32_parser, DecodeError, EncodeError, Parsed,
};
use crate::model::{
    has_container, is_first_named, keep_last, lemma_first_named_is_position,
    lemma_position_is_first, position_of, ContainerView, ElementsView, Scalar, StoreView,
    DEFAULT_ENTRY_LIMIT,
};
use crate::wire::{
    le_bytes_u16, le_bytes_u32, le_u16, le_u32, lemma_le_bytes_of_le_u16,
    lemma_le_bytes_of_le_u32, lemma_le_u16_of_le_bytes, lemma_le_u32_of_le_bytes,
};
use vstd::prelude::*;
use vstd::utf8::{
    decode_utf8_encode_utf8, encode_utf8, encode_utf8_decode_utf8, encode_utf8_valid_utf8,
};

verus! {

/// Whether `item` reads back what `encode` wrote of `x`, whatever follows.
pub open spec fn reads_back<T>(
    item: spec_fn(Seq<u8>) -> Parsed<T>,
    encode: spec_fn(T) -> Seq<u8>,
    x: T,
) -> bool {
    forall|rest: Seq<u8>| #[trigger]
        item(encode(x) + rest) == Ok::<(T, int), DecodeError>((x, encode(x).len() as int))
}

/// Items that are each read back are read back one after another.
pub proof fn lemma_parse_many_of_concat<T>(
    item: spec_fn(Seq<u8>) -> Parsed<T>,
    encode: spec_fn(T) -> Seq<u8>,
    s: Seq<T>,
    rest: Seq<u8>,
)
    requires
        forall|i: int| 0 <= i < s.len() ==> reads_back(item, encode, #[trigger] s[i]),
    ensures
        parse_many(item, concat(s.map_values(encode)) + rest, s.len()) == Ok::<
            (Seq<T>, int),
            DecodeError,
        >((s, concat(s.map_values(encode)).len() as int)),
    decreases s.len(),
{
    if s.len() > 0 {
        let init = s.drop_last();
        let last = s.last();
        let head = concat(init.map_values(encode));
        let bytes = concat(s.map_values(encode)) + rest;
        assert(s.map_values(encode) =~= init.map_values(encode).push(encode(last)));
        lemma_concat_push(init.map_values(encode), encode(last));
        assert(bytes =~= head + (encode(last) + rest));
        assert forall|i: int| 0 <= i < init.len() implies reads_back(
            item,
            encode,
            #[trigger] init[i],
        ) by {
            assert(init[i] == s[i]);
        }
        lemma_parse_many_of_concat(item, encode, init, encode(last) + rest);
        assert(bytes.skip(head.len() as int) =~= encode(last) + rest);
        assert(reads_back(item, encode, s[s.len() - 1]));
        assert(init.push(last) =~= s);
    } else {
        assert(s =~= Seq::<T>::empty());
    }
}

/// A string that fits its length field is read back as it was written.
pub proof fn lemma_string_round_trip(s: Seq<char>, rest: Seq<u8>)
    requires
        string_fault(s) is None,
    ensures
        parse_string(encode_string(s) + rest) == Ok::<(Seq<char>, int), DecodeError>(
            (s, encode_string(s).len() as int),
        ),
{
    let body = encode_utf8(s);
    let bytes = encode_string(s) + rest;
    encode_utf8_valid_utf8(s);
    encode_utf8_decode_utf8(s);
    if body.len() < 255 {
        assert(bytes[0] == body.len() as u8);
        assert(bytes.subrange(1, 1 + body.len() as int) =~= body);
    } else {
        assert(bytes[0] == 0xffu8);
        assert(bytes.skip(1) =~= le_bytes_u16(body.len() as u16) + (body + rest));
        lemma_le_u16_of_le_bytes(body.len() as u16, body + rest);
        assert(bytes.subrange(3, 3 + body.len() as int) =~= body);
    }
}

/// A four-byte number is read back as it was written.
pub proof fn lemma_u32_round_trip(x: u32, rest: Seq<u8>)
    ensures
        parse_u32(le_bytes_u32(x) + rest) == Ok::<(u32, int), DecodeError>((x, 4)),
{
    lemma_le_u32_of_le_bytes(x, rest);
}

/// The samples of a column without a fault are read back as they were
/// written.
pub proof fn lemma_items_round_trip(e: ElementsView, rest: Seq<u8>)
    requires
        e.len() <= 0xffff_ffff,
        e matches ElementsView::String(s) ==> first_fault(string_faults(), s) is None,
    ensures
        parse_items(e.tag(), e.len(), encode_items(e) + rest) == Ok::<
            (ElementsView, int),
            DecodeError,
        >((e, encode_items(e).len() as int)),
{
    match e {
        ElementsView::U32(s) => {
            assert forall|i: int| 0 <= i < s.len() implies reads_back(
                u32_parser(),
                u32_encoder(),
                #[trigger] s[i],
            ) by {
                assert forall|r: Seq<u8>| #[trigger]
                    u32_parser()(u32_encoder()(s[i]) + r) == Ok::<(u32, int), DecodeError>(
                        (s[i], u32_encoder()(s[i]).len() as int),
                    ) by {
                    lemma_u32_round_trip(s[i], r);
                }
            }
            lemma_parse_many_of_concat(u32_parser(), u32_encoder(), s, rest);
        },
        ElementsView::Float32(s) => {
            assert forall|i: int| 0 <= i < s.len() implies reads_back(
                u32_parser(),
                u32_encoder(),
                #[trigger] s[i],
            ) by {
                assert forall|r: Seq<u8>| #[trigger]
                    u32_parser()(u32_encoder()(s[i]) + r) == Ok::<(u32, int), DecodeError>(
                        (s[i], u32_encoder()(s[i]).len() as int),
                    ) by {
                    lemma_u32_round_trip(s[i], r);
                }
            }
            lemma_parse_many_of_concat(u32_parser(), u32_encoder(), s, rest);
        },
        ElementsView::String(s) => {
            assert forall|i: int| 0 <= i < s.len() implies reads_back(
                string_parser(),
                string_encoder(),
                #[trigger] s[i],
            ) by {
                lemma_no_fault_each(string_faults(), s, i);
                assert forall|r: Seq<u8>| #[trigger]
                    string_parser()(string_encoder()(s[i]) + r) == Ok::<
                        (Seq<char>, int),
                        DecodeError,
                    >((s[i], string_encoder()(s[i]).len() as int)) by {
                    lemma_string_round_trip(s[i], r);
                }
            }
            lemma_parse_many_of_concat(string_parser(), string_encoder(), s, rest);
        },
    }
}

/// A column without a fault is read back as it was written.
pub proof fn lemma_container_round_trip(c: ContainerView, rest: Seq<u8>)
    requires
        container_fault(c) is None,
    ensures
        parse_container(encode_container(c) + rest) == Ok::<(ContainerView, int), DecodeError>(
            (c, encode_container(c).len() as int),
        ),
{
    let name = encode_string(c.name);
    let count = le_bytes_u32(c.elements.len() as u32);
    let items = encode_items(c.elements);
    let bytes = encode_container(c) + rest;
    let n = name.len() as int;
    assert(bytes =~= name + (seq![c.elements.tag()] + count + items + rest));
    lemma_string_round_trip(c.name, seq![c.elements.tag()] + count + items + rest);
    assert(bytes[n] == c.elements.tag());
    assert(bytes.skip(n + 1) =~= count + (items + rest));
    lemma_le_u32_of_le_bytes(c.elements.len() as u32, items + rest);
    assert(bytes.skip(n + 5) =~= items + rest);
    lemma_items_round_trip(c.elements, rest);
}

/// Decoding what encoding wrote gives the store back: format tag, version,
/// the columns in their order, their names, kinds and samples. The
/// retention limit, which is not written, comes back as the default.
/// Bytes that follow the store do not matter.
pub proof fn lemma_store_round_trip(s: StoreView, rest: Seq<u8>)
    requires
        store_fault(s) is None,
    ensures
        parse_store(encode_store(s) + rest) == Ok::<(StoreView, int), DecodeError>(
            (
                StoreView { entry_limit: DEFAULT_ENTRY_LIMIT as nat, ..s },
                encode_store(s).len() as int,
            ),
        ),
{
    let count = le_bytes_u16(s.containers.len() as u16);
    let body = concat(s.containers.map_values(container_encoder()));
    let bytes = encode_store(s) + rest;
    assert(bytes =~= le_bytes_u32(s.magic) + (seq![s.version] + count + body + rest));
    lemma_le_u32_of_le_bytes(s.magic, seq![s.version] + count + body + rest);
    assert(bytes[4] == s.version);
    assert(bytes.skip(5) =~= count + (body + rest));
    lemma_le_u16_of_le_bytes(s.containers.len() as u16, body + rest);
    assert(bytes.skip(7) =~= body + rest);
    assert forall|i: int| 0 <= i < s.containers.len() implies reads_back(
        container_parser(),
        container_encoder(),
        #[trigger] s.containers[i],
    ) by {
        lemma_no_fault_each(container_faults(), s.containers, i);
        assert forall|r: Seq<u8>| #[trigger]
            container_parser()(container_encoder()(s.containers[i]) + r) == Ok::<
                (ContainerView, int),
                DecodeError,
            >((s.containers[i], container_encoder()(s.containers[i]).len() as int)) by {
            lemma_container_round_trip(s.containers[i], r);
        }
    }
    lemma_parse_many_of_concat(container_parser(), container_encoder(), s.containers, rest);
}

/// What encoding wrote is what encoding writes again of what was decoded
/// from it, and decoding takes all of it.
pub proof fn lemma_bytes_round_trip(s: StoreView)
    requires
        store_fault(s) is None,
    ensures
        parse_store(encode_store(s)) matches Ok((t, n)) && encode_store(t) == encode_store(s) && n
            == encode_store(s).len(),
{
    lemma_store_round_trip(s, Seq::empty());
    assert(encode_store(s) + Seq::<u8>::empty() =~= encode_store(s));
}

// From bytes to a store and back
/// Whether `v`, read by `item` from the start of `b` in `n` bytes, can be
/// written, is written by `encode` in no more than `n` bytes, and in as
/// many only as the bytes that were read.
pub open spec fn written_back<T>(
    encode: spec_fn(T) -> Seq<u8>,
    fault: spec_fn(T) -> Option<EncodeError>,
    b: Seq<u8>,
    v: T,
    n: int,
) -> bool {
    &&& 0 <= n <= b.len()
    &&& fault(v) is None
    &&& encode(v).len() <= n
    &&& encode(v).len() == n ==> encode(v) == b.take(n)
}

/// Whether `encode` writes back what `item` reads from `b`, if anything.
pub open spec fn writes_back_from<T>(
    item: spec_fn(Seq<u8>) -> Parsed<T>,
    encode: spec_fn(T) -> Seq<u8>,
    fault: spec_fn(T) -> Option<EncodeError>,
    b: Seq<u8>,
) -> bool {
    item(b) matches Ok((v, n)) ==> written_back(encode, fault, b, v, n)
}

/// Whether `encode` writes back whatever `item` reads.
pub open spec fn writes_back<T>(
    item: spec_fn(Seq<u8>) -> Parsed<T>,
    encode: spec_fn(T) -> Seq<u8>,
    fault: spec_fn(T) -> Option<EncodeError>,
) -> bool {
    forall|b: Seq<u8>| #[trigger] writes_back_from(item, encode, fault, b)
}

/// Items that are each written back are written back one after another.
pub proof fn lemma_parse_many_written_back<T>(
    item: spec_fn(Seq<u8>) -> Parsed<T>,
    encode: spec_fn(T) -> Seq<u8>,
    fault: spec_fn(T) -> Option<EncodeError>,
    b: Seq<u8>,
    n: nat,
)
    requires
        writes_back(item, encode, fault),
    ensures
        parse_many(item, b, n) matches Ok((vs, m)) ==> {
            &&& vs.len() == n
            &&& 0 <= m <= b.len()
            &&& first_fault(fault, vs) is None
            &&& concat(vs.map_values(encode)).len() <= m
            &&& concat(vs.map_values(encode)).len() == m ==> concat(vs.map_values(encode))
                == b.take(m)
        },
    decreases n,
{
    if n > 0 {
        lemma_parse_many_written_back(item, encode, fault, b, (n - 1) as nat);
        if let Ok((init, m)) = parse_many(item, b, (n - 1) as nat) {
            if let Ok((v, k)) = item(b.skip(m)) {
                let vs = init.push(v);
                let head = concat(init.map_values(encode));
                assert(writes_back_from(item, encode, fault, b.skip(m)));
                assert(vs.map_values(encode) =~= init.map_values(encode).push(encode(v)));
                lemma_concat_push(init.map_values(encode), encode(v));
                assert(vs.drop_last() =~= init);
                if head.len() + encode(v).len() == m + k {
                    assert(b.skip(m).take(k) =~= b.subrange(m, m + k));
                    assert(head + encode(v) =~= b.take(m + k));
                }
            }
        }
    } else {
        assert(Seq::<T>::empty().map_values(encode) =~= Seq::<Seq<u8>>::empty());
    }
}

/// A string that was read can be written, in no more bytes than it was
/// read from, and in as many only as the bytes that were read.
pub proof fn lemma_string_written_back(b: Seq<u8>)
    ensures
        parse_string(b) matches Ok((s, n)) ==> written_back(
            string_encoder(),
            string_faults(),
            b,
            s,
            n,
        ),
{
    if let Ok((s, n)) = parse_string(b) {
        if b[0] != 0xff {
            let len = b[0] as int;
            decode_utf8_encode_utf8(b.subrange(1, 1 + len));
            assert(encode_string(s) =~= b.take(n));
        } else {
            let len = le_u16(b.skip(1)) as int;
            decode_utf8_encode_utf8(b.subrange(3, 3 + len));
            if len >= 255 {
                lemma_le_bytes_of_le_u16(b.skip(1));
                assert(b.skip(1).take(2) =~= b.subrange(1, 3));
                assert(encode_string(s) =~= b.take(n));
            }
        }
    }
}

/// A four-byte number that was read is written as the bytes that were
/// read.
pub proof fn lemma_u32_written_back(b: Seq<u8>)
    ensures
        parse_u32(b) matches Ok((x, n)) ==> le_bytes_u32(x) == b.take(n) && n == 4,
{
    if b.len() >= 4 {
        lemma_le_bytes_of_le_u32(b);
    }
}

/// The fault of a number: none.
pub open spec fn u32_faults() -> spec_fn(u32) -> Option<EncodeError> {
    |x: u32| None
}

/// A column that was read can be written, in no more bytes than it was
/// read from, and in as many only as the bytes that were read.
pub proof fn lemma_container_written_back(b: Seq<u8>)
    ensures
        parse_container(b) matches Ok((c, n)) ==> written_back(
            container_encoder(),
            container_faults(),
            b,
            c,
            n,
        ),
{
    if let Ok((c, n)) = parse_container(b) {
        let (name, n1) = parse_string(b)->Ok_0;
        let tag = b[n1];
        let count = le_u32(b.skip(n1 + 1));
        let body = b.skip(n1 + 5);
        let (elements, k) = parse_items(tag, count as nat, body)->Ok_0;
        lemma_string_written_back(b);
        assert(written_back(string_encoder(), string_faults(), b, name, n1));
        assert forall|x: Seq<u8>| #[trigger]
            writes_back_from(string_parser(), string_encoder(), string_faults(), x) by {
            lemma_string_written_back(x);
        }
        assert forall|x: Seq<u8>| #[trigger]
            writes_back_from(u32_parser(), u32_encoder(), u32_faults(), x) by {
            lemma_u32_written_back(x);
        }
        if tag == 3 {
            lemma_parse_many_written_back(
                string_parser(),
                string_encoder(),
                string_faults(),
                body,
                count as nat,
            );
        } else {
            lemma_parse_many_written_back(
                u32_parser(),
                u32_encoder(),
                u32_faults(),
                body,
                count as nat,
            );
        }
        assert(elements.len() == count);
        assert(elements.tag() == tag);
        assert(encode_items(elements).len() <= k);
        lemma_le_bytes_of_le_u32(b.skip(n1 + 1));
        let head = encode_string(name) + seq![tag] + le_bytes_u32(count);
        assert(encode_container(c) == head + encode_items(elements));
        if encode_container(c).len() == n {
            assert(encode_string(name) == b.take(n1));
            assert(encode_items(elements) == body.take(k));
            assert(b.skip(n1 + 1).take(4) =~= b.subrange(n1 + 1, n1 + 5));
            assert(body.take(k) =~= b.subrange(n1 + 5, n));
            assert(encode_container(c) =~= b.take(n));
        }
    }
}

/// A store that was decoded can be encoded, in no more bytes than it was
/// decoded from. Where it takes as many, which is where each string had
/// the shorter of its two length forms, encoding gives back the bytes that
/// were decoded.
pub proof fn lemma_decoded_is_written_back(b: Seq<u8>)
    ensures
        parse_store(b) matches Ok((s, n)) ==> {
            &&& 0 <= n <= b.len()
            &&& store_fault(s) is None
            &&& encode_store(s).len() <= n
            &&& encode_store(s).len() == n ==> encode_store(s) == b.take(n)
        },
{
    if let Ok((s, n)) = parse_store(b) {
        let count = le_u16(b.skip(5));
        let body = b.skip(7);
        let (containers, k) = parse_many(container_parser(), body, count as nat)->Ok_0;
        assert forall|x: Seq<u8>| #[trigger]
            writes_back_from(container_parser(), container_encoder(), container_faults(), x) by {
            lemma_container_written_back(x);
        }
        lemma_parse_many_written_back(
            container_parser(),
            container_encoder(),
            container_faults(),
            body,
            count as nat,
        );
        lemma_le_bytes_of_le_u32(b);
        lemma_le_bytes_of_le_u16(b.skip(5));
        let columns = concat(containers.map_values(container_encoder()));
        if encode_store(s).len() == n {
            assert(columns == body.take(k));
            assert(b.skip(5).take(2) =~= b.subrange(5, 7));
            assert(body.take(k) =~= b.subrange(7, n));
            assert(encode_store(s) =~= b.take(n));
        }
    }
}

/// A store without columns is written as seven bytes: the format tag, the
/// version, and a count of zero.
pub proof fn lemma_empty_store_bytes(s: StoreView)
    requires
        s.containers.len() == 0,
    ensures
        store_fault(s) is None,
        encode_store(s) == le_bytes_u32(s.magic) + seq![s.version, 0u8, 0u8],
        encode_store(s).len() == 7,
{
    assert(s.containers.map_values(container_encoder()) =~= Seq::<Seq<u8>>::empty());
    assert(encode_store(s) =~= le_bytes_u32(s.magic) + seq![s.version, 0u8, 0u8]);
}

/// A string of fewer than 255 bytes is written with one length byte, and a
/// longer one with the byte 0xFF and its length in two bytes.
pub proof fn lemma_string_length_prefix(s: Seq<char>)
    requires
        string_fault(s) is None,
    ensures
        encode_utf8(s).len() < 255 ==> encode_string(s).len() == 1 + encode_utf8(s).len()
            && encode_string(s)[0] == encode_utf8(s).len(),
        encode_utf8(s).len() >= 255 ==> encode_string(s).len() == 3 + encode_utf8(s).len()
            && encode_string(s)[0] == 0xff && le_u16(encode_string(s).skip(1)) == encode_utf8(
            s,
        ).len(),
        encode_string(s).skip(encode_string(s).len() - encode_utf8(s).len()) == encode_utf8(s),
{
    let body = encode_utf8(s);
    if body.len() >= 255 {
        assert(encode_string(s).skip(1) =~= le_bytes_u16(body.len() as u16) + body);
        lemma_le_u16_of_le_bytes(body.len() as u16, body);
    }
    assert(encode_string(s).skip(encode_string(s).len() - body.len()) =~= body);
}

// Columns
/// Appending keeps every column where it was, with its name and its kind;
/// under a name that no column has it adds one column, after all others,
/// of the kind of the sample.
pub proof fn lemma_append_keeps_columns(s: StoreView, name: Seq<char>, v: Scalar)
    requires
        s.accepts(name, v),
    ensures
        s.append(name, v).containers.len() == s.containers.len() + if has_container(
            s.containers,
            name,
        ) {
            0int
        } else {
            1int
        },
        forall|i: int|
            0 <= i < s.containers.len() ==> (#[trigger] s.append(name, v).containers[i]).name
                == s.containers[i].name && s.append(name, v).containers[i].elements.tag()
                == s.containers[i].elements.tag(),
        forall|i: int|
            0 <= i < s.containers.len() && s.containers[i].name != name ==> (#[trigger] s.append(
                name,
                v,
            ).containers[i]) == s.containers[i],
        !has_container(s.containers, name) ==> s.append(name, v).containers.last().name == name
            && s.append(name, v).containers.last().elements.tag() == v.tag(),
{
    if has_container(s.containers, name) {
        lemma_position_is_first(s.containers, name);
    }
}

/// Replacing gives the column of that name the new samples as its whole
/// content, whatever the retention limit, and leaves the other columns and
/// the limit as they were.
pub proof fn lemma_replace_overwrites(s: StoreView, name: Seq<char>, values: ElementsView)
    ensures
        has_container(s.replace(name, values).containers, name),
        s.replace(name, values).containers[position_of(
            s.replace(name, values).containers,
            name,
        )].elements == values,
        s.replace(name, values).entry_limit == s.entry_limit,
        forall|i: int|
            0 <= i < s.containers.len() && s.containers[i].name != name ==> (
            #[trigger] s.replace(name, values).containers[i]) == s.containers[i],
{
    let after = s.replace(name, values).containers;
    if has_container(s.containers, name) {
        let p = position_of(s.containers, name);
        lemma_position_is_first(s.containers, name);
        assert forall|j: int| 0 <= j < p implies #[trigger] after[j].name != name by {
            assert(s.containers[j].name != name);
        }
        assert(is_first_named(after, name, p));
        lemma_first_named_is_position(after, name, p);
    } else {
        let n = s.containers.len() as int;
        assert forall|j: int| 0 <= j < n implies #[trigger] after[j].name != name by {
            assert(s.containers[j].name != name);
        }
        assert(is_first_named(after, name, n));
        lemma_first_named_is_position(after, name, n);
    }
}

// The retention window
/// The store after the calls of `append` that `calls` lists, each with
/// the name of its column and its sample, made in that order on `s`.
pub open spec fn after_appends(s: StoreView, calls: Seq<(Seq<char>, Scalar)>) -> StoreView
    decreases calls.len(),
{
    if calls.len() == 0 {
        s
    } else {
        after_appends(s, calls.drop_last()).append(calls.last().0, calls.last().1)
    }
}

/// Whether each call of `calls` was allowed when it was made: no sample
/// went to a column of another kind.
pub open spec fn appends_accepted(s: StoreView, calls: Seq<(Seq<char>, Scalar)>) -> bool
    decreases calls.len(),
{
    calls.len() == 0 || (appends_accepted(s, calls.drop_last()) && after_appends(
        s,
        calls.drop_last(),
    ).accepts(calls.last().0, calls.last().1))
}

/// The samples that `calls` put under `name`, in the order of the calls.
pub open spec fn samples_under(calls: Seq<(Seq<char>, Scalar)>, name: Seq<char>) -> Seq<Scalar>
    decreases calls.len(),
{
    if calls.len() == 0 {
        Seq::empty()
    } else if calls.last().0 == name {
        samples_under(calls.drop_last(), name).push(calls.last().1)
    } else {
        samples_under(calls.drop_last(), name)
    }
}

/// What holds of a store that was empty before `calls`: it keeps its
/// limit, each column holds the newest samples of its name, no name occurs
/// twice, and a name with a sample has a column.
spec fn window_holds(s: StoreView, limit: nat, calls: Seq<(Seq<char>, Scalar)>) -> bool {
    &&& s.entry_limit == limit
    &&& forall|i: int|
        0 <= i < s.containers.len() ==> (#[trigger] s.containers[i]).elements.scalars()
            == keep_last(samples_under(calls, s.containers[i].name), limit)
    &&& forall|i: int, j: int|
        0 <= i < j < s.containers.len() ==> (#[trigger] s.containers[i]).name != (
        #[trigger] s.containers[j]).name
    &&& forall|name: Seq<char>|
        !has_container(s.containers, name) ==> (#[trigger] samples_under(calls, name)).len() == 0
}

/// Keeping the newest of a window that got one more sample is keeping the
/// newest of all samples.
proof fn lemma_keep_last_step<T>(all: Seq<T>, x: T, limit: nat)
    ensures
        keep_last(keep_last(all, limit).push(x), limit) == keep_last(all.push(x), limit),
{
    assert(keep_last(keep_last(all, limit).push(x), limit) =~= keep_last(all.push(x), limit));
}

/// The samples of an array that got one more sample of its kind and lost
/// its oldest beyond the limit.
proof fn lemma_scalars_of_grown(e: ElementsView, v: Scalar, limit: nat)
    requires
        e.tag() == v.tag(),
    ensures
        e.push(v).keep_last(limit).scalars() == keep_last(e.scalars().push(v), limit),
{
    assert(e.push(v).scalars() =~= e.scalars().push(v));
    assert(e.push(v).keep_last(limit).scalars() =~= keep_last(e.push(v).scalars(), limit));
}

/// The window holds after any accepted calls on a store that had no
/// column.
proof fn lemma_window(s: StoreView, calls: Seq<(Seq<char>, Scalar)>)
    requires
        s.containers.len() == 0,
        appends_accepted(s, calls),
    ensures
        window_holds(after_appends(s, calls), s.entry_limit, calls),
    decreases calls.len(),
{
    let limit = s.entry_limit;
    if calls.len() > 0 {
        let init = calls.drop_last();
        let (name, v) = calls.last();
        let before = after_appends(s, init);
        let after = after_appends(s, calls);
        lemma_window(s, init);
        assert(after == before.append(name, v));
        if has_container(before.containers, name) {
            let p = position_of(before.containers, name);
            lemma_position_is_first(before.containers, name);
            let old_elements = before.containers[p].elements;
            lemma_scalars_of_grown(old_elements, v, limit);
            lemma_keep_last_step(samples_under(init, name), v, limit);
            assert forall|i: int| 0 <= i < after.containers.len() implies (
            #[trigger] after.containers[i]).elements.scalars() == keep_last(
                samples_under(calls, after.containers[i].name),
                limit,
            ) by {
                if i != p {
                    assert(after.containers[i] == before.containers[i]);
                    if i < p {
                        assert(before.containers[i].name != before.containers[p].name);
                    } else {
                        assert(before.containers[p].name != before.containers[i].name);
                    }
                }
            }
            assert forall|i: int, j: int| 0 <= i < j < after.containers.len() implies (
            #[trigger] after.containers[i]).name != (#[trigger] after.containers[j]).name by {
                assert(after.containers[i].name == before.containers[i].name);
                assert(after.containers[j].name == before.containers[j].name);
            }
            assert forall|other: Seq<char>|
                !has_container(after.containers, other) implies (#[trigger] samples_under(
                calls,
                other,
            )).len() == 0 by {
                if has_container(before.containers, other) {
                    let k = choose|k: int|
                        0 <= k < before.containers.len() && #[trigger] before.containers[k].name
                            == other;
                    assert(after.containers[k].name == other);
                }
                assert(after.containers[p].name == name);
                assert(samples_under(init, other).len() == 0);
            }
        } else {
            let n = before.containers.len() as int;
            lemma_scalars_of_grown(ElementsView::empty_for(v), v, limit);
            assert(ElementsView::empty_for(v).scalars() =~= Seq::<Scalar>::empty());
            assert(samples_under(init, name) =~= Seq::<Scalar>::empty());
            assert forall|i: int| 0 <= i < after.containers.len() implies (
            #[trigger] after.containers[i]).elements.scalars() == keep_last(
                samples_under(calls, after.containers[i].name),
                limit,
            ) by {
                if i < n {
                    assert(after.containers[i] == before.containers[i]);
                    assert(before.containers[i].name != name);
                }
            }
            assert forall|i: int, j: int| 0 <= i < j < after.containers.len() implies (
            #[trigger] after.containers[i]).name != (#[trigger] after.containers[j]).name by {
                assert(after.containers[i] == before.containers[i]);
                if j < n {
                    assert(after.containers[j] == before.containers[j]);
                } else {
                    assert(before.containers[i].name != name);
                }
            }
            assert forall|other: Seq<char>|
                !has_container(after.containers, other) implies (#[trigger] samples_under(
                calls,
                other,
            )).len() == 0 by {
                assert(after.containers[n].name == name);
                if has_container(before.containers, other) {
                    let k = choose|k: int|
                        0 <= k < before.containers.len() && #[trigger] before.containers[k].name
                            == other;
                    assert(after.containers[k].name == other);
                }
                assert(samples_under(init, other).len() == 0);
            }
        }
    } else {
        assert forall|name: Seq<char>|
            !has_container(s.containers, name) implies (#[trigger] samples_under(
            calls,
            name,
        )).len() == 0 by {}
    }
}

/// After any calls of `append` on a store that had no column, under one
/// retention limit, each column holds no more samples than the limit, and
/// they are the newest of the samples that were appended under its name,
/// oldest first.
pub proof fn lemma_eviction_bound(s: StoreView, calls: Seq<(Seq<char>, Scalar)>, i: int)
    requires
        s.containers.len() == 0,
        appends_accepted(s, calls),
        0 <= i < after_appends(s, calls).containers.len(),
    ensures
        after_appends(s, calls).entry_limit == s.entry_limit,
        after_appends(s, calls).containers[i].elements.len() <= s.entry_limit,
        after_appends(s, calls).containers[i].elements.scalars() == keep_last(
            samples_under(calls, after_appends(s, calls).containers[i].name),
            s.entry_limit,
        ),
{
    lemma_window(s, calls);
    let c = after_appends(s, calls).containers[i];
    assert(c.elements.scalars().len() == c.elements.len());
}

} // verus!
