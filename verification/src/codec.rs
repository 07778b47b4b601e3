//! Writing a store to bytes and reading it back.

use crate::layout::{
    concat, container_encoder, container_fault, container_faults, container_parser,
    encode_container, encode_items, encode_store, encode_string, first_fault,
    lemma_concat_take, lemma_first_fault_prefix, lemma_first_fault_take, lemma_no_fault_each,
    lemma_parse_many_fails, lemma_parse_many_next, parse_container, parse_many, parse_store,
    parse_string, store_fault, string_encoder, string_fault, string_faults, string_parser,
    u32_encoder, u32_parser, DecodeError, EncodeError,
};
use crate::model::{ContainerView, ElementsView, DEFAULT_ENTRY_LIMIT};
use crate::tgph_format::{
    bits_view, strings_view, ElementArrayType, Float32, TGPHContainer, TGPH,
};
use crate::wire::{
    le_u16, le_u32, read_u16_le, read_u32_le, string_from_utf8, write_u16_le, write_u32_le,
};
use vstd::prelude::*;
use vstd::slice::{slice_subrange, slice_to_vec};

verus! {

/// Appends the bytes of `bytes` to `stream`.
fn write_all(stream: &mut Vec<u8>, bytes: &[u8])
    ensures
        final(stream)@ == old(stream)@ + bytes@,
{
    stream.extend_from_slice(bytes);
    assert(stream@ =~= old(stream)@ + bytes@);
}

impl TGPHContainer {
    /// Appends `string` to `stream` as strings are written: the length of
    /// its UTF-8 bytes, then the bytes.
    fn write_string(stream: &mut Vec<u8>, string: &str)
        requires
            string_fault(string@) is None,
        ensures
            final(stream)@ == old(stream)@ + encode_string(string@),
    {
        let bytes = string.as_bytes();
        let length = bytes.len();
        if length >= 255 {
            stream.push(0xff);
            write_u16_le(stream, length as u16);
        } else {
            stream.push(length as u8);
        }
        write_all(stream, bytes);
        assert(stream@ =~= old(stream)@ + encode_string(string@));
    }

    /// Appends `string` to `stream` as strings are written, unless it is
    /// longer than a length field can say; `stream` is then left as it was.
    pub fn serialize_string_into(stream: &mut Vec<u8>, string: &str) -> (r: Result<
        (),
        EncodeError,
    >)
        ensures
            match string_fault(string@) {
                None => r is Ok && final(stream)@ == old(stream)@ + encode_string(string@),
                Some(e) => r == Err::<(), EncodeError>(e) && final(stream)@ == old(stream)@,
            },
    {
        if string.as_bytes().len() > 0xffff {
            return Err(EncodeError::StringTooLong);
        }
        Self::write_string(stream, string);
        Ok(())
    }

    /// Reads the string at the start of `stream`, and says how many bytes
    /// it took.
    pub fn deserialize_string_from(stream: &[u8]) -> (r: Result<(String, usize), DecodeError>)
        ensures
            match parse_string(stream@) {
                Ok((s, n)) => r matches Ok((v, k)) && v@ == s && k == n,
                Err(e) => r == Err::<(String, usize), DecodeError>(e),
            },
    {
        if stream.len() < 1 {
            return Err(DecodeError::UnexpectedEof);
        }
        let first = stream[0];
        let at: usize;
        let length: usize;
        if first != 0xff {
            at = 1;
            length = first as usize;
        } else {
            if stream.len() < 3 {
                return Err(DecodeError::UnexpectedEof);
            }
            at = 3;
            length = read_u16_le(slice_subrange(stream, 1, 3)) as usize;
        }
        if stream.len() - at < length {
            return Err(DecodeError::UnexpectedEof);
        }
        let buf = slice_to_vec(slice_subrange(stream, at, at + length));
        match string_from_utf8(buf) {
            Some(s) => Ok((s, at + length)),
            None => Err(DecodeError::InvalidUtf8),
        }
    }

    /// The first reason, in the order of the wire, for which this column
    /// cannot be written.
    pub fn encode_fault(&self) -> (r: Option<EncodeError>)
        ensures
            r == container_fault(self@),
    {
        if self.name.as_str().as_bytes().len() > 0xffff {
            return Some(EncodeError::StringTooLong);
        }
        if self.elements.len() > 0xffff_ffff {
            return Some(EncodeError::TooManyElements);
        }
        if let ElementArrayType::STRING(arr) = &self.elements {
            let ghost items = strings_view(arr@);
            let mut i: usize = 0;
            while i < arr.len()
                invariant
                    i <= arr@.len(),
                    items == strings_view(arr@),
                    string_fault(self.name@) is None,
                    self.elements@ == ElementsView::String(items),
                    items.len() <= 0xffff_ffff,
                    first_fault(string_faults(), items.take(i as int)) is None,
                decreases arr@.len() - i,
            {
                proof {
                    lemma_first_fault_take(string_faults(), items, i as int);
                }
                if arr[i].as_str().as_bytes().len() > 0xffff {
                    proof {
                        lemma_first_fault_prefix(string_faults(), items, i + 1);
                    }
                    return Some(EncodeError::StringTooLong);
                }
                i += 1;
            }
            assert(items.take(i as int) =~= items);
        }
        None
    }

    /// Appends the samples of this column to `stream`, one after another.
    fn write_items(&self, stream: &mut Vec<u8>)
        requires
            container_fault(self@) is None,
        ensures
            final(stream)@ == old(stream)@ + encode_items(self.elements@),
    {
        let ghost base = stream@;
        match &self.elements {
            ElementArrayType::U32(arr) => {
                let ghost parts = arr@.map_values(u32_encoder());
                let mut i: usize = 0;
                while i < arr.len()
                    invariant
                        i <= arr@.len(),
                        parts == arr@.map_values(u32_encoder()),
                        stream@ == base + concat(parts.take(i as int)),
                    decreases arr@.len() - i,
                {
                    proof {
                        lemma_concat_take(parts, i as int);
                    }
                    write_u32_le(stream, arr[i]);
                    i += 1;
                    assert(stream@ =~= base + concat(parts.take(i as int)));
                }
                assert(parts.take(i as int) =~= parts);
            },
            ElementArrayType::FLOAT32(arr) => {
                let ghost parts = bits_view(arr@).map_values(u32_encoder());
                let mut i: usize = 0;
                while i < arr.len()
                    invariant
                        i <= arr@.len(),
                        parts == bits_view(arr@).map_values(u32_encoder()),
                        stream@ == base + concat(parts.take(i as int)),
                    decreases arr@.len() - i,
                {
                    proof {
                        lemma_concat_take(parts, i as int);
                    }
                    write_u32_le(stream, arr[i].bits);
                    i += 1;
                    assert(stream@ =~= base + concat(parts.take(i as int)));
                }
                assert(parts.take(i as int) =~= parts);
            },
            ElementArrayType::STRING(arr) => {
                let ghost items = strings_view(arr@);
                let ghost parts = items.map_values(string_encoder());
                let mut i: usize = 0;
                while i < arr.len()
                    invariant
                        i <= arr@.len(),
                        items == strings_view(arr@),
                        parts == items.map_values(string_encoder()),
                        first_fault(string_faults(), items) is None,
                        stream@ == base + concat(parts.take(i as int)),
                    decreases arr@.len() - i,
                {
                    proof {
                        lemma_concat_take(parts, i as int);
                        lemma_no_fault_each(string_faults(), items, i as int);
                    }
                    Self::write_string(stream, arr[i].as_str());
                    i += 1;
                    assert(stream@ =~= base + concat(parts.take(i as int)));
                }
                assert(parts.take(i as int) =~= parts);
            },
        }
    }

    /// Appends this column to `stream`: its name, the tag of its kind, the
    /// number of its samples and the samples.
    fn write_into(&self, stream: &mut Vec<u8>)
        requires
            container_fault(self@) is None,
        ensures
            final(stream)@ == old(stream)@ + encode_container(self@),
    {
        Self::write_string(stream, self.name.as_str());
        stream.push(self.elements.get_index());
        write_u32_le(stream, self.elements.len() as u32);
        self.write_items(stream);
        assert(stream@ =~= old(stream)@ + encode_container(self@));
    }

    /// Appends this column to `stream` as columns are written, unless a
    /// count or a length of it does not fit its field; `stream` is then left
    /// as it was.
    pub fn serialize_into(&self, stream: &mut Vec<u8>) -> (r: Result<(), EncodeError>)
        ensures
            match container_fault(self@) {
                None => r is Ok && final(stream)@ == old(stream)@ + encode_container(self@),
                Some(e) => r == Err::<(), EncodeError>(e) && final(stream)@ == old(stream)@,
            },
    {
        match self.encode_fault() {
            Some(e) => Err(e),
            None => {
                self.write_into(stream);
                Ok(())
            },
        }
    }

    /// Reads `count` four-byte numbers from the start of `stream`, and says
    /// how many bytes they took.
    fn read_numbers(stream: &[u8], count: u32) -> (r: Result<(Vec<u32>, usize), DecodeError>)
        ensures
            match parse_many(u32_parser(), stream@, count as nat) {
                Ok((s, n)) => r matches Ok((v, k)) && v@ == s && k == n,
                Err(e) => r == Err::<(Vec<u32>, usize), DecodeError>(e),
            },
            r matches Ok((_, k)) ==> k <= stream@.len(),
    {
        let mut elements: Vec<u32> = Vec::new();
        let mut at: usize = 0;
        let mut i: u32 = 0;
        while i < count
            invariant
                i <= count,
                at <= stream@.len(),
                parse_many(u32_parser(), stream@, i as nat) == Ok::<
                    (Seq<u32>, int),
                    DecodeError,
                >((elements@, at as int)),
            decreases count - i,
        {
            proof {
                lemma_parse_many_next(u32_parser(), stream@, i as nat);
            }
            if stream.len() - at < 4 {
                proof {
                    lemma_parse_many_fails(u32_parser(), stream@, (i + 1) as nat, count as nat);
                }
                return Err(DecodeError::UnexpectedEof);
            }
            let value = read_u32_le(slice_subrange(stream, at, at + 4));
            elements.push(value);
            at += 4;
            i += 1;
        }
        Ok((elements, at))
    }

    /// Reads `count` floats from the start of `stream`, and says how many
    /// bytes they took.
    fn read_floats(stream: &[u8], count: u32) -> (r: Result<(Vec<Float32>, usize), DecodeError>)
        ensures
            match parse_many(u32_parser(), stream@, count as nat) {
                Ok((s, n)) => r matches Ok((v, k)) && bits_view(v@) == s && k == n,
                Err(e) => r == Err::<(Vec<Float32>, usize), DecodeError>(e),
            },
            r matches Ok((_, k)) ==> k <= stream@.len(),
    {
        let mut elements: Vec<Float32> = Vec::new();
        assert(bits_view(elements@) =~= Seq::<u32>::empty());
        let mut at: usize = 0;
        let mut i: u32 = 0;
        while i < count
            invariant
                i <= count,
                at <= stream@.len(),
                parse_many(u32_parser(), stream@, i as nat) == Ok::<
                    (Seq<u32>, int),
                    DecodeError,
                >((bits_view(elements@), at as int)),
            decreases count - i,
        {
            proof {
                lemma_parse_many_next(u32_parser(), stream@, i as nat);
            }
            if stream.len() - at < 4 {
                proof {
                    lemma_parse_many_fails(u32_parser(), stream@, (i + 1) as nat, count as nat);
                }
                return Err(DecodeError::UnexpectedEof);
            }
            let ghost before = elements@;
            let value = Float32::from_bits(read_u32_le(slice_subrange(stream, at, at + 4)));
            elements.push(value);
            assert(bits_view(elements@) =~= bits_view(before).push(value.bits));
            at += 4;
            i += 1;
        }
        Ok((elements, at))
    }

    /// Reads `count` strings from the start of `stream`, and says how many
    /// bytes they took.
    fn read_strings(stream: &[u8], count: u32) -> (r: Result<(Vec<String>, usize), DecodeError>)
        ensures
            match parse_many(string_parser(), stream@, count as nat) {
                Ok((s, n)) => r matches Ok((v, k)) && strings_view(v@) == s && k == n,
                Err(e) => r == Err::<(Vec<String>, usize), DecodeError>(e),
            },
            r matches Ok((_, k)) ==> k <= stream@.len(),
    {
        let mut elements: Vec<String> = Vec::new();
        assert(strings_view(elements@) =~= Seq::<Seq<char>>::empty());
        let mut at: usize = 0;
        let mut i: u32 = 0;
        while i < count
            invariant
                i <= count,
                at <= stream@.len(),
                parse_many(string_parser(), stream@, i as nat) == Ok::<
                    (Seq<Seq<char>>, int),
                    DecodeError,
                >((strings_view(elements@), at as int)),
            decreases count - i,
        {
            proof {
                lemma_parse_many_next(string_parser(), stream@, i as nat);
            }
            let rest = slice_subrange(stream, at, stream.len());
            assert(rest@ =~= stream@.skip(at as int));
            match Self::deserialize_string_from(rest) {
                Err(e) => {
                    proof {
                        lemma_parse_many_fails(
                            string_parser(),
                            stream@,
                            (i + 1) as nat,
                            count as nat,
                        );
                    }
                    return Err(e);
                },
                Ok((value, taken)) => {
                    let ghost before = elements@;
                    elements.push(value);
                    assert(strings_view(elements@) =~= strings_view(before).push(value@));
                    at += taken;
                    i += 1;
                },
            }
        }
        Ok((elements, at))
    }

    /// Reads the column at the start of `stream`, and says how many bytes
    /// it took.
    pub fn deserialize_from(stream: &[u8]) -> (r: Result<(Self, usize), DecodeError>)
        ensures
            match parse_container(stream@) {
                Ok((c, n)) => r matches Ok((v, k)) && v@ == c && k == n,
                Err(e) => r == Err::<(Self, usize), DecodeError>(e),
            },
            r matches Ok((_, k)) ==> k <= stream@.len(),
    {
        let (name, n) = match Self::deserialize_string_from(stream) {
            Ok(v) => v,
            Err(e) => {
                return Err(e);
            },
        };
        if stream.len() - n < 5 {
            return Err(DecodeError::UnexpectedEof);
        }
        let element_type = stream[n];
        let element_count = read_u32_le(slice_subrange(stream, n + 1, n + 5));
        let body = slice_subrange(stream, n + 5, stream.len());
        assert(body@ =~= stream@.skip(n + 5));
        let (elements, taken) = match element_type {
            1 => match Self::read_numbers(body, element_count) {
                Ok((elements, taken)) => (ElementArrayType::U32(elements), taken),
                Err(e) => {
                    return Err(e);
                },
            },
            2 => match Self::read_floats(body, element_count) {
                Ok((elements, taken)) => (ElementArrayType::FLOAT32(elements), taken),
                Err(e) => {
                    return Err(e);
                },
            },
            3 => match Self::read_strings(body, element_count) {
                Ok((elements, taken)) => (ElementArrayType::STRING(elements), taken),
                Err(e) => {
                    return Err(e);
                },
            },
            _ => {
                return Err(DecodeError::UnknownTag(element_type));
            },
        };
        Ok((Self { name, elements }, n + 5 + taken))
    }
}

impl TGPH {
    /// The first reason, in the order of the wire, for which this store
    /// cannot be written.
    pub fn encode_fault(&self) -> (r: Option<EncodeError>)
        ensures
            r == store_fault(self@),
    {
        if self.containers.len() > 0xffff {
            return Some(EncodeError::TooManyContainers);
        }
        let ghost items = self@.containers;
        let mut i: usize = 0;
        while i < self.containers.len()
            invariant
                i <= self.containers@.len(),
                items == self@.containers,
                items.len() <= 0xffff,
                first_fault(container_faults(), items.take(i as int)) is None,
            decreases self.containers@.len() - i,
        {
            proof {
                lemma_first_fault_take(container_faults(), items, i as int);
            }
            match self.containers[i].encode_fault() {
                Some(e) => {
                    proof {
                        lemma_first_fault_prefix(container_faults(), items, i + 1);
                    }
                    return Some(e);
                },
                None => {},
            }
            i += 1;
        }
        assert(items.take(i as int) =~= items);
        None
    }

    /// Appends this store to `stream` as stores are written: format tag,
    /// version, number of columns, and the columns. Where a count or a
    /// length of it does not fit its field, `stream` is left as it was.
    pub fn serialize_into(&self, stream: &mut Vec<u8>) -> (r: Result<(), EncodeError>)
        ensures
            match store_fault(self@) {
                None => r is Ok && final(stream)@ == old(stream)@ + encode_store(self@),
                Some(e) => r == Err::<(), EncodeError>(e) && final(stream)@ == old(stream)@,
            },
    {
        match self.encode_fault() {
            Some(e) => {
                return Err(e);
            },
            None => {},
        }
        write_u32_le(stream, self.magic);
        stream.push(self.version);
        write_u16_le(stream, self.containers.len() as u16);
        let ghost base = stream@;
        let ghost items = self@.containers;
        let ghost parts = items.map_values(container_encoder());
        let mut i: usize = 0;
        while i < self.containers.len()
            invariant
                i <= self.containers@.len(),
                items == self@.containers,
                parts == items.map_values(container_encoder()),
                first_fault(container_faults(), items) is None,
                stream@ == base + concat(parts.take(i as int)),
            decreases self.containers@.len() - i,
        {
            proof {
                lemma_concat_take(parts, i as int);
                lemma_no_fault_each(container_faults(), items, i as int);
            }
            self.containers[i].write_into(stream);
            i += 1;
            assert(stream@ =~= base + concat(parts.take(i as int)));
        }
        assert(parts.take(i as int) =~= parts);
        assert(stream@ =~= old(stream)@ + encode_store(self@));
        Ok(())
    }

    /// Reads the store at the start of `stream`. What follows the store
    /// is not read. The store that comes back has the default retention
    /// limit, which is not on the wire.
    pub fn deserialize_from(stream: &[u8]) -> (r: Result<Self, DecodeError>)
        ensures
            match parse_store(stream@) {
                Ok((s, _)) => r matches Ok(v) && v@ == s,
                Err(e) => r == Err::<Self, DecodeError>(e),
            },
    {
        let mut result = Self::default();
        if stream.len() < 7 {
            return Err(DecodeError::UnexpectedEof);
        }
        result.magic = read_u32_le(slice_subrange(stream, 0, 4));
        result.version = stream[4];
        let container_num = read_u16_le(slice_subrange(stream, 5, 7));
        let body = slice_subrange(stream, 7, stream.len());
        assert(body@ =~= stream@.skip(7));
        let mut at: usize = 0;
        let mut i: u16 = 0;
        while i < container_num
            invariant
                i <= container_num,
                at <= body@.len(),
                stream@.len() >= 7,
                body@ == stream@.skip(7),
                container_num == le_u16(stream@.skip(5)),
                parse_many(container_parser(), body@, i as nat) == Ok::<
                    (Seq<ContainerView>, int),
                    DecodeError,
                >((result@.containers, at as int)),
                result.magic == le_u32(stream@),
                result.version == stream@[4],
                result.entry_limit == DEFAULT_ENTRY_LIMIT,
            decreases container_num - i,
        {
            proof {
                lemma_parse_many_next(container_parser(), body@, i as nat);
            }
            let rest = slice_subrange(body, at, body.len());
            assert(rest@ =~= body@.skip(at as int));
            match TGPHContainer::deserialize_from(rest) {
                Err(e) => {
                    proof {
                        lemma_parse_many_fails(
                            container_parser(),
                            body@,
                            (i + 1) as nat,
                            container_num as nat,
                        );
                    }
                    return Err(e);
                },
                Ok((container, taken)) => {
                    result.add_container(container);
                    at += taken;
                    i += 1;
                },
            }
        }
        Ok(result)
    }
}

} // verus!
