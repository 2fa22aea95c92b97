//! FESL codec: a 12-byte binary header (4-byte command, big-endian type/id
//! word, big-endian total length) followed by `key=value\n` records and a
//! single `0x00` terminator.

use vstd::prelude::*;
use vstd::slice::{slice_index_get, slice_subrange};
use vstd::string::StringSliceAdditionalSpecFns;
use vstd::utf8::valid_utf8;
use crate::wire::{
    be32_bytes, be32_read, be32_val, be32_write, find_byte, find_byte_in, lemma_be32_round_trip,
    lemma_find_byte, lemma_find_byte_at, lemma_find_byte_none, utf8_view,
};

verus! {

/// The closed set of message roles carried in the top nibble of byte 4.
#[derive(Clone, Copy, Debug, PartialEq, Eq, Structural)]
pub enum FeslMessageType {
    SingleClient,
    SingleServer,
    MultiClient,
    MultiServer,
}

/// The wire code of a message type: its tag byte, low nibble zero.
pub open spec fn type_code(t: FeslMessageType) -> u8 {
    match t {
        FeslMessageType::SingleClient => 0xc0,
        FeslMessageType::SingleServer => 0x80,
        FeslMessageType::MultiClient => 0xf0,
        FeslMessageType::MultiServer => 0xb0,
    }
}

/// The message type of a masked tag byte; codes outside the closed set are
/// rejected, never coerced.
pub open spec fn type_from_code(c: u8) -> Option<FeslMessageType> {
    if c == 0xc0 {
        Some(FeslMessageType::SingleClient)
    } else if c == 0x80 {
        Some(FeslMessageType::SingleServer)
    } else if c == 0xf0 {
        Some(FeslMessageType::MultiClient)
    } else if c == 0xb0 {
        Some(FeslMessageType::MultiServer)
    } else {
        None
    }
}

/// Decoding and framing failures of the FESL codec.
#[derive(Clone, Copy, Debug, PartialEq, Eq, Structural)]
pub enum FeslMessageError {
    /// A `=`, `\n` or terminator byte was missing where one was required.
    ExpectedDelimiter,
    /// Bytes claimed as text were not valid UTF-8.
    ExpectedUtf8,
    /// A command was not exactly 4 bytes.
    InvalidCommandLength,
    /// The tag byte held none of the four known codes.
    InvalidType,
    /// The length field was below the 12-byte header size, or disagreed with
    /// the bytes available.
    InvalidLength,
}

/// One serialized record: `key=value\n`.
pub open spec fn fesl_record(k: Seq<u8>, v: Seq<u8>) -> Seq<u8> {
    k + seq![61u8] + v + seq![10u8]
}

/// The serialized records of a pair sequence, in order.
pub open spec fn fesl_records(pairs: Seq<(Seq<u8>, Seq<u8>)>) -> Seq<u8>
    decreases pairs.len(),
{
    if pairs.len() == 0 {
        Seq::empty()
    } else {
        fesl_record(pairs[0].0, pairs[0].1) + fesl_records(pairs.drop_first())
    }
}

/// The header word packing the type code into the top bits and the masked
/// 28-bit id into the low bits.
pub open spec fn type_id_word(t: FeslMessageType, id: u32) -> u32 {
    (((type_code(t) as u32) & 0xf0) << 24) | (id & 0xfffffff)
}

/// The full wire form of a message: command, type/id word, total length,
/// records, `0x00` terminator.
pub open spec fn spec_serialize(
    cmd: Seq<u8>,
    t: FeslMessageType,
    id: u32,
    pairs: Seq<(Seq<u8>, Seq<u8>)>,
) -> Seq<u8> {
    cmd + be32_bytes(type_id_word(t, id)) + be32_bytes((13 + fesl_records(pairs).len()) as u32)
        + fesl_records(pairs) + seq![0u8]
}

/// A correctly framed buffer: at least the 12-byte header, small enough for
/// the 4-byte length field, and a length field equal to the buffer's length.
pub open spec fn fesl_framed(d: Seq<u8>) -> bool {
    &&& d.len() >= 12
    &&& d.len() <= 0xffff_ffff
    &&& be32_val(d.subrange(8, 12)) == d.len()
}

/// The command bytes of a framed buffer.
pub open spec fn spec_cmd(d: Seq<u8>) -> Seq<u8> {
    d.subrange(0, 4)
}

/// The 28-bit id of a framed buffer: the big-endian word at offset 4 with its
/// top nibble masked off.
pub open spec fn spec_id(d: Seq<u8>) -> u32 {
    be32_val(d.subrange(4, 8)) & 0xfffffff
}

/// The decoded message type of a framed buffer.
pub open spec fn spec_type(d: Seq<u8>) -> Result<FeslMessageType, FeslMessageError> {
    match type_from_code(d[4] & 0xf0) {
        Some(t) => Ok(t),
        None => Err(FeslMessageError::InvalidType),
    }
}

/// One step of the body scan over the remaining bytes `d`: the item yielded
/// (none at a clean end) and how many bytes the step consumes. Any error
/// consumes the whole remainder, so one structural error ends the sequence.
pub open spec fn fesl_step(d: Seq<u8>) -> (Option<
    Result<(Seq<u8>, Seq<u8>), FeslMessageError>,
>, int) {
    if d.len() == 0 {
        (None, 0)
    } else if d.len() == 1 {
        if d[0] == 0 {
            (None, 1)
        } else {
            (Some(Err(FeslMessageError::ExpectedDelimiter)), 1)
        }
    } else {
        match find_byte(d, 61) {
            None => (Some(Err(FeslMessageError::ExpectedDelimiter)), d.len() as int),
            Some(q) => {
                let key = d.take(q);
                if !valid_utf8(key) {
                    (Some(Err(FeslMessageError::ExpectedUtf8)), d.len() as int)
                } else {
                    let rest = d.skip(q + 1);
                    match find_byte(rest, 10) {
                        None => (Some(Err(FeslMessageError::ExpectedDelimiter)), d.len() as int),
                        Some(w) => {
                            let value = rest.take(w);
                            if !valid_utf8(value) {
                                (Some(Err(FeslMessageError::ExpectedUtf8)), d.len() as int)
                            } else {
                                (Some(Ok((key, value))), q + 1 + w + 1)
                            }
                        },
                    }
                }
            },
        }
    }
}

/// Every step stays within the remainder, and a successful step consumes at
/// least one byte.
pub proof fn lemma_fesl_step_bounds(d: Seq<u8>)
    ensures
        ({
            let (item, skip) = fesl_step(d);
            &&& 0 <= skip <= d.len()
            &&& (item matches Some(it) && it is Ok ==> 1 <= skip)
        }),
{
    if d.len() >= 2 {
        lemma_find_byte(d, 61);
        match find_byte(d, 61) {
            Some(q) => {
                lemma_find_byte(d.skip(q + 1), 10);
            },
            None => {},
        }
    }
}

/// The full item sequence of a body scan: records until the clean end, or
/// until the first error, which is the final item.
pub open spec fn fesl_items(d: Seq<u8>) -> Seq<Result<(Seq<u8>, Seq<u8>), FeslMessageError>>
    decreases d.len(),
    via fesl_items_decreases
{
    let (item, skip) = fesl_step(d);
    match item {
        None => Seq::empty(),
        Some(it) => if it is Ok {
            seq![it] + fesl_items(d.skip(skip))
        } else {
            seq![it]
        },
    }
}

#[via_fn]
proof fn fesl_items_decreases(d: Seq<u8>) {
    lemma_fesl_step_bounds(d);
}

/// An immutable framed FESL message buffer.
#[derive(Debug)]
pub struct FeslMessage {
    data: Vec<u8>,
}

impl View for FeslMessage {
    type V = Seq<u8>;

    closed spec fn view(&self) -> Seq<u8> {
        self.data@
    }
}

impl FeslMessage {
    /// The framing invariant every constructed message satisfies.
    pub open spec fn wf(&self) -> bool {
        fesl_framed(self@)
    }

    /// Frames a complete buffer as a message, rejecting one whose length
    /// field does not match the bytes supplied.
    pub fn from_bytes(data: Vec<u8>) -> (r: Result<FeslMessage, FeslMessageError>)
        ensures
            fesl_framed(data@) ==> (r matches Ok(m) && m@ == data@ && m.wf()),
            !fesl_framed(data@) ==> (r matches Err(e) && e == FeslMessageError::InvalidLength),
    {
        if data.len() < 12 || data.len() > 0xffff_ffff {
            return Err(FeslMessageError::InvalidLength);
        }
        let len_field = be32_read(data[8], data[9], data[10], data[11]);
        assert(seq![data@[8], data@[9], data@[10], data@[11]] =~= data@.subrange(8, 12));
        if len_field as usize != data.len() {
            return Err(FeslMessageError::InvalidLength);
        }
        Ok(FeslMessage { data })
    }

    /// The body length a 12-byte header announces: its big-endian length
    /// field minus the header's own 12 bytes. A field below 12 is rejected,
    /// which keeps the subtraction from underflowing.
    pub fn body_len_from_header(header: &[u8]) -> (r: Result<usize, FeslMessageError>)
        requires
            header@.len() == 12,
        ensures
            ({
                let len = be32_val(header@.subrange(8, 12));
                &&& len >= 12 ==> (r matches Ok(b) && b == len - 12)
                &&& len < 12 ==> (r matches Err(e) && e == FeslMessageError::InvalidLength)
            }),
    {
        let len = be32_read(
            *slice_index_get(header, 8),
            *slice_index_get(header, 9),
            *slice_index_get(header, 10),
            *slice_index_get(header, 11),
        );
        assert(seq![header@[8], header@[9], header@[10], header@[11]] =~= header@.subrange(8, 12));
        if len < 12 {
            Err(FeslMessageError::InvalidLength)
        } else {
            Ok((len - 12) as usize)
        }
    }

    /// The command: the first four bytes, viewed as text.
    pub fn get_cmd(&self) -> (r: Result<&str, FeslMessageError>)
        requires
            self.wf(),
        ensures
            r is Ok <==> valid_utf8(spec_cmd(self@)),
            r matches Ok(c) ==> c.spec_bytes() == spec_cmd(self@),
            r matches Err(e) ==> e == FeslMessageError::ExpectedUtf8,
    {
        let s = slice_subrange(self.data.as_slice(), 0, 4);
        match utf8_view(s) {
            Some(c) => Ok(c),
            None => Err(FeslMessageError::ExpectedUtf8),
        }
    }

    /// The message type decoded from the top nibble of byte 4.
    pub fn get_type(&self) -> (r: Result<FeslMessageType, FeslMessageError>)
        requires
            self.wf(),
        ensures
            r == spec_type(self@),
    {
        let c = self.data[4] & 0xf0;
        if c == 0xc0 {
            Ok(FeslMessageType::SingleClient)
        } else if c == 0x80 {
            Ok(FeslMessageType::SingleServer)
        } else if c == 0xf0 {
            Ok(FeslMessageType::MultiClient)
        } else if c == 0xb0 {
            Ok(FeslMessageType::MultiServer)
        } else {
            Err(FeslMessageError::InvalidType)
        }
    }

    /// The 28-bit id; the top nibble of the raw word is always masked off, so
    /// the result is below `2^28` whatever the tag byte holds.
    pub fn get_id(&self) -> (r: u32)
        requires
            self.wf(),
        ensures
            r == spec_id(self@),
            r < 0x10000000,
    {
        let w = be32_read(self.data[4], self.data[5], self.data[6], self.data[7]);
        assert(seq![self@[4], self@[5], self@[6], self@[7]] =~= self@.subrange(4, 8));
        assert(forall|x: u32| #![auto] x & 0xfffffff < 0x10000000) by (bit_vector);
        w & 0xfffffff
    }

    /// The whole framed buffer.
    pub fn as_bytes(&self) -> (r: &[u8])
        ensures
            r@ == self@,
    {
        self.data.as_slice()
    }

    /// A scanning view over the body records.
    pub fn iter<'a>(&'a self) -> (r: FeslMessageIterator<'a>)
        requires
            self.wf(),
        ensures
            r.wf(),
            r.remaining() == self@.skip(12),
    {
        let body = slice_subrange(self.data.as_slice(), 12, self.data.len());
        assert(body@.skip(0) =~= self@.skip(12));
        FeslMessageIterator { body, pos: 0 }
    }
}

/// A cursor over a message body, yielding `(key, value)` pairs until the
/// clean end or the first error.
#[derive(Debug)]
pub struct FeslMessageIterator<'a> {
    body: &'a [u8],
    pos: usize,
}

impl<'a> FeslMessageIterator<'a> {
    /// The cursor stays within the body.
    pub closed spec fn wf(&self) -> bool {
        self.pos <= self.body@.len()
    }

    /// The bytes not yet consumed.
    pub closed spec fn remaining(&self) -> Seq<u8> {
        self.body@.skip(self.pos as int)
    }

    /// Yields the next record, an error, or nothing at the end. The step
    /// taken is exactly `fesl_step` of the remaining bytes; an error consumes
    /// the whole remainder, so nothing follows it.
    pub fn next(&mut self) -> (r: Option<Result<(&'a str, &'a str), FeslMessageError>>)
        requires
            old(self).wf(),
        ensures
            final(self).wf(),
            ({
                let (item, skip) = fesl_step(old(self).remaining());
                &&& final(self).remaining() == old(self).remaining().skip(skip)
                &&& match (r, item) {
                    (None, None) => true,
                    (Some(Ok((k, v))), Some(Ok((kb, vb)))) => k.spec_bytes() == kb
                        && v.spec_bytes() == vb,
                    (Some(Err(e1)), Some(Err(e2))) => e1 == e2,
                    _ => false,
                }
            }),
    {
        let ghost d = self.remaining();
        let n = self.body.len();
        if self.pos == n {
            assert(d.skip(0) =~= d);
            return None;
        }
        if self.pos + 1 == n {
            let b = *slice_index_get(self.body, self.pos);
            assert(d.len() == 1 && d[0] == b);
            self.pos = n;
            assert(self.body@.skip(n as int) =~= d.skip(1));
            if b == 0 {
                return None;
            } else {
                return Some(Err(FeslMessageError::ExpectedDelimiter));
            }
        }
        assert(d.len() >= 2);
        let q = match find_byte_in(self.body, self.pos, 61) {
            None => {
                self.pos = n;
                assert(self.body@.skip(n as int) =~= d.skip(d.len() as int));
                return Some(Err(FeslMessageError::ExpectedDelimiter));
            },
            Some(q) => q,
        };
        let key_s = slice_subrange(self.body, self.pos, q);
        assert(key_s@ =~= d.take(q - self.pos));
        let k = match utf8_view(key_s) {
            None => {
                self.pos = n;
                assert(self.body@.skip(n as int) =~= d.skip(d.len() as int));
                return Some(Err(FeslMessageError::ExpectedUtf8));
            },
            Some(k) => k,
        };
        assert(self.body@.skip(q + 1) =~= d.skip(q - self.pos + 1));
        let w = match find_byte_in(self.body, q + 1, 10) {
            None => {
                self.pos = n;
                assert(self.body@.skip(n as int) =~= d.skip(d.len() as int));
                return Some(Err(FeslMessageError::ExpectedDelimiter));
            },
            Some(w) => w,
        };
        let val_s = slice_subrange(self.body, q + 1, w);
        assert(val_s@ =~= d.skip(q - self.pos + 1).take(w - q - 1));
        let v = match utf8_view(val_s) {
            None => {
                self.pos = n;
                assert(self.body@.skip(n as int) =~= d.skip(d.len() as int));
                return Some(Err(FeslMessageError::ExpectedUtf8));
            },
            Some(v) => v,
        };
        let ghost skip = (q - self.pos) + 1 + (w - (q + 1)) + 1;
        self.pos = w + 1;
        assert(self.body@.skip(w + 1) =~= d.skip(skip));
        Some(Ok((k, v)))
    }
}

/// A one-shot accumulator of header fields and records, consumed by `build`.
pub struct FeslMessageBuilder {
    cmd: Vec<u8>,
    type_and_id: u32,
    len: usize,
    buf: Vec<u8>,
    pairs: Ghost<Seq<(Seq<u8>, Seq<u8>)>>,
    msg_type: Ghost<FeslMessageType>,
    msg_id: Ghost<u32>,
}

impl FeslMessageBuilder {
    /// The accumulated state is consistent: the tracked length is the exact
    /// serialized length, and it fits the 4-byte length field.
    pub closed spec fn wf(&self) -> bool {
        &&& self.cmd@.len() == 4
        &&& self.len == 13 + self.buf@.len()
        &&& self.len <= 0xffff_ffff
        &&& self.buf@ == fesl_records(self.pairs@)
        &&& self.type_and_id == type_id_word(self.msg_type@, self.msg_id@)
    }

    /// The command bytes the builder was created with.
    pub closed spec fn cmd_bytes(&self) -> Seq<u8> {
        self.cmd@
    }

    /// The exact serialized length of the message built so far: the 12-byte
    /// header, one byte per terminator, and every record's bytes.
    pub closed spec fn wire_len(&self) -> int {
        self.len as int
    }

    /// The records pushed so far, in order.
    pub closed spec fn pairs(&self) -> Seq<(Seq<u8>, Seq<u8>)> {
        self.pairs@
    }

    /// The message type the builder was created with.
    pub closed spec fn msg_type(&self) -> FeslMessageType {
        self.msg_type@
    }

    /// The id the builder was created with.
    pub closed spec fn msg_id(&self) -> u32 {
        self.msg_id@
    }

    /// The exact serialized length of the message built so far, so a caller
    /// can keep the accumulated length within the 4-byte length field before
    /// pushing more.
    pub fn len(&self) -> (r: usize)
        ensures
            r == self.wire_len(),
    {
        self.len
    }

    /// Starts a message with the given header fields; the command must be
    /// exactly 4 bytes.
    pub fn new(cmd: &str, fesl_type: FeslMessageType, id: u32) -> (r: Result<
        FeslMessageBuilder,
        FeslMessageError,
    >)
        ensures
            r is Ok <==> cmd.spec_bytes().len() == 4,
            r matches Ok(b) ==> b.wf() && b.cmd_bytes() == cmd.spec_bytes() && b.pairs()
                == Seq::<(Seq<u8>, Seq<u8>)>::empty() && b.msg_type() == fesl_type && b.msg_id()
                == id && b.wire_len() == 13,
            r matches Err(e) ==> e == FeslMessageError::InvalidCommandLength,
    {
        if cmd.as_bytes().len() != 4 {
            return Err(FeslMessageError::InvalidCommandLength);
        }
        let code = match fesl_type {
            FeslMessageType::SingleClient => 0xc0u8,
            FeslMessageType::SingleServer => 0x80u8,
            FeslMessageType::MultiClient => 0xf0u8,
            FeslMessageType::MultiServer => 0xb0u8,
        };
        assert(code == type_code(fesl_type));
        Ok(FeslMessageBuilder {
            cmd: cmd.as_bytes_vec(),
            type_and_id: (((code as u32) & 0xf0) << 24) | (id & 0xfffffff),
            len: 13,
            buf: Vec::new(),
            pairs: Ghost(Seq::empty()),
            msg_type: Ghost(fesl_type),
            msg_id: Ghost(id),
        })
    }

    /// Appends one record and accounts for its exact serialized length
    /// (`len(key) + 1 + len(value) + 1`). The accumulated length must keep
    /// fitting the 4-byte length field.
    pub fn push(&mut self, key: &str, value: &str)
        requires
            old(self).wf(),
            old(self).wire_len() + key.spec_bytes().len() + value.spec_bytes().len() + 2
                <= 0xffff_ffff,
        ensures
            final(self).wf(),
            final(self).pairs() == old(self).pairs().push(
                (key.spec_bytes(), value.spec_bytes()),
            ),
            final(self).wire_len() == old(self).wire_len() + key.spec_bytes().len()
                + value.spec_bytes().len() + 2,
            final(self).cmd_bytes() == old(self).cmd_bytes(),
            final(self).msg_type() == old(self).msg_type(),
            final(self).msg_id() == old(self).msg_id(),
    {
        self.len = self.len + key.len() + 1 + value.len() + 1;
        self.buf.extend_from_slice(key.as_bytes());
        self.buf.push(61);
        self.buf.extend_from_slice(value.as_bytes());
        self.buf.push(10);
        proof {
            self.pairs@ = self.pairs@.push((key.spec_bytes(), value.spec_bytes()));
            lemma_fesl_records_snoc(old(self).pairs@, key.spec_bytes(), value.spec_bytes());
            assert(self.buf@ =~= old(self).buf@ + fesl_record(
                key.spec_bytes(),
                value.spec_bytes(),
            ));
        }
    }

    /// Serializes the accumulated message, consuming the builder.
    pub fn build(self) -> (m: FeslMessage)
        requires
            self.wf(),
        ensures
            m@ == spec_serialize(self.cmd_bytes(), self.msg_type(), self.msg_id(), self.pairs()),
            m.wf(),
    {
        let mut me = self;
        let mut out: Vec<u8> = Vec::with_capacity(me.len);
        out.extend_from_slice(me.cmd.as_slice());
        be32_write(me.type_and_id, &mut out);
        let total = me.len as u32;
        be32_write(total, &mut out);
        out.append(&mut me.buf);
        out.push(0);
        proof {
            assert(out@ =~= spec_serialize(
                self.cmd_bytes(),
                self.msg_type(),
                self.msg_id(),
                self.pairs(),
            ));
            assert(out@.subrange(8, 12) =~= be32_bytes(total));
            lemma_be32_round_trip(total);
        }
        FeslMessage { data: out }
    }
}

/// The item sequence that yields every pair in order, each as a success.
pub open spec fn ok_items(pairs: Seq<(Seq<u8>, Seq<u8>)>) -> Seq<
    Result<(Seq<u8>, Seq<u8>), FeslMessageError>,
> {
    pairs.map_values(|p: (Seq<u8>, Seq<u8>)| Ok::<(Seq<u8>, Seq<u8>), FeslMessageError>(p))
}

/// Scanning a serialized body yields back exactly the records it was built
/// from, when keys and values are valid text free of `=` and `\n`.
proof fn lemma_fesl_body_items(pairs: Seq<(Seq<u8>, Seq<u8>)>)
    requires
        forall|i: int| #![auto]
            0 <= i < pairs.len() ==> !pairs[i].0.contains(61u8) && !pairs[i].0.contains(10u8)
                && !pairs[i].1.contains(61u8) && !pairs[i].1.contains(10u8),
        forall|i: int| #![auto]
            0 <= i < pairs.len() ==> valid_utf8(pairs[i].0) && valid_utf8(pairs[i].1),
    ensures
        fesl_items(fesl_records(pairs) + seq![0u8]) == ok_items(pairs),
    decreases pairs.len(),
{
    let d = fesl_records(pairs) + seq![0u8];
    if pairs.len() == 0 {
        assert(fesl_records(pairs) =~= Seq::empty());
        assert(d =~= seq![0u8]);
        assert(d.len() == 1 && d[0] == 0);
        assert(fesl_items(d) =~= Seq::empty());
        assert(ok_items(pairs) =~= Seq::empty());
    } else {
        let k = pairs[0].0;
        let v = pairs[0].1;
        let rest = pairs.drop_first();
        let tail = fesl_records(rest) + seq![0u8];
        assert(fesl_records(pairs) == fesl_record(k, v) + fesl_records(rest));
        assert(d =~= k + seq![61u8] + v + seq![10u8] + tail);
        let q = k.len() as int;
        assert forall|j: int| 0 <= j < q implies d[j] != 61u8 by {
            assert(d[j] == k[j]);
            if k[j] == 61u8 {
                assert(k.contains(61u8));
            }
        }
        assert(d[q] == 61u8);
        lemma_find_byte_at(d, 61u8, q);
        assert(d.take(q) =~= k);
        let rest0 = d.skip(q + 1);
        assert(rest0 =~= v + seq![10u8] + tail);
        let w = v.len() as int;
        assert forall|j: int| 0 <= j < w implies rest0[j] != 10u8 by {
            assert(rest0[j] == v[j]);
            if v[j] == 10u8 {
                assert(v.contains(10u8));
            }
        }
        assert(rest0[w] == 10u8);
        lemma_find_byte_at(rest0, 10u8, w);
        assert(rest0.take(w) =~= v);
        let skip = q + 1 + w + 1;
        assert(d.len() >= 2);
        assert(fesl_step(d) == (
            Some(Ok::<(Seq<u8>, Seq<u8>), FeslMessageError>((k, v))),
            skip,
        ));
        assert(d.skip(skip) =~= tail);
        assert forall|i: int|
            0 <= i < rest.len() implies !rest[i].0.contains(61u8) && !rest[i].0.contains(10u8)
                && !rest[i].1.contains(61u8) && !rest[i].1.contains(10u8) && valid_utf8(rest[i].0)
                && valid_utf8(rest[i].1) by {
            assert(rest[i] == pairs[i + 1]);
        }
        lemma_fesl_body_items(rest);
        assert(fesl_items(d) == seq![Ok::<(Seq<u8>, Seq<u8>), FeslMessageError>((k, v))]
            + fesl_items(tail));
        assert(ok_items(pairs) =~= seq![Ok::<(Seq<u8>, Seq<u8>), FeslMessageError>((k, v))]
            + ok_items(rest));
    }
}

/// Round trip: a message serialized from a 4-byte command, a type of the
/// closed set, an id below `2^28`, and records whose keys and values are
/// valid text free of `=` and `\n` is correctly framed, decodes back to
/// exactly those header fields, and its body scan yields exactly those
/// records, in order.
pub proof fn lemma_fesl_round_trip(
    cmd: Seq<u8>,
    t: FeslMessageType,
    id: u32,
    pairs: Seq<(Seq<u8>, Seq<u8>)>,
)
    requires
        cmd.len() == 4,
        id < 0x10000000,
        13 + fesl_records(pairs).len() <= 0xffff_ffff,
        forall|i: int| #![auto]
            0 <= i < pairs.len() ==> !pairs[i].0.contains(61u8) && !pairs[i].0.contains(10u8)
                && !pairs[i].1.contains(61u8) && !pairs[i].1.contains(10u8),
        forall|i: int| #![auto]
            0 <= i < pairs.len() ==> valid_utf8(pairs[i].0) && valid_utf8(pairs[i].1),
    ensures
        ({
            let w = spec_serialize(cmd, t, id, pairs);
            &&& fesl_framed(w)
            &&& spec_cmd(w) == cmd
            &&& spec_type(w) == Ok::<FeslMessageType, FeslMessageError>(t)
            &&& spec_id(w) == id
            &&& w.skip(12) == fesl_records(pairs) + seq![0u8]
            &&& fesl_items(w.skip(12)) == ok_items(pairs)
        }),
{
    let w = spec_serialize(cmd, t, id, pairs);
    let tid = type_id_word(t, id);
    let r = fesl_records(pairs);
    let total = (13 + r.len()) as u32;
    assert(w.len() == 13 + r.len());
    assert(w.subrange(0, 4) =~= cmd);
    assert(w.subrange(4, 8) =~= be32_bytes(tid));
    assert(w.subrange(8, 12) =~= be32_bytes(total));
    lemma_be32_round_trip(tid);
    lemma_be32_round_trip(total);
    let c = type_code(t);
    assert(c == 0xc0 || c == 0x80 || c == 0xf0 || c == 0xb0);
    assert((c == 0xc0 || c == 0x80 || c == 0xf0 || c == 0xb0) ==> (c & 0x0f) == 0)
        by (bit_vector);
    assert(((((((c as u32) & 0xf0) << 24) | (id & 0xfffffff)) & 0xfffffff) == id && ((((((
    c as u32) & 0xf0) << 24) | (id & 0xfffffff)) >> 24) & 0xff) as u8 & 0xf0 == c))
        by (bit_vector)
        requires
            id < 0x10000000,
            (c & 0x0f) == 0,
    ;
    assert(spec_id(w) == id);
    assert(w[4] == w.subrange(4, 8)[0]);
    assert(w[4] & 0xf0 == c);
    match t {
        FeslMessageType::SingleClient => assert(type_from_code(0xc0) == Some(
            FeslMessageType::SingleClient,
        )),
        FeslMessageType::SingleServer => assert(type_from_code(0x80) == Some(
            FeslMessageType::SingleServer,
        )),
        FeslMessageType::MultiClient => assert(type_from_code(0xf0) == Some(
            FeslMessageType::MultiClient,
        )),
        FeslMessageType::MultiServer => assert(type_from_code(0xb0) == Some(
            FeslMessageType::MultiServer,
        )),
    }
    assert((13 + r.len()) as u32 == 13 + r.len());
    assert(fesl_framed(w));
    assert(w.skip(12) =~= r + seq![0u8]);
    lemma_fesl_body_items(pairs);
}

/// A body remainder of two or more bytes holding no `\n` yields exactly one
/// `ExpectedDelimiter` error and no further items (the key, when a `=` is
/// present, being valid text).
pub proof fn lemma_fesl_missing_newline(d: Seq<u8>)
    requires
        d.len() >= 2,
        !d.contains(10u8),
        (find_byte(d, 61) matches Some(q) ==> valid_utf8(d.take(q))),
    ensures
        fesl_items(d) == seq![
            Err::<(Seq<u8>, Seq<u8>), FeslMessageError>(FeslMessageError::ExpectedDelimiter),
        ],
{
    match find_byte(d, 61) {
        None => {
            assert(fesl_step(d) == (
                Some(Err::<(Seq<u8>, Seq<u8>), FeslMessageError>(
                    FeslMessageError::ExpectedDelimiter,
                )),
                d.len() as int,
            ));
        },
        Some(q) => {
            lemma_find_byte(d, 61);
            let rest = d.skip(q + 1);
            assert forall|j: int| 0 <= j < rest.len() implies rest[j] != 10u8 by {
                assert(rest[j] == d[j + q + 1]);
                if d[j + q + 1] == 10u8 {
                    assert(d.contains(10u8));
                }
            }
            lemma_find_byte_none(rest, 10u8);
            assert(fesl_step(d) == (
                Some(Err::<(Seq<u8>, Seq<u8>), FeslMessageError>(
                    FeslMessageError::ExpectedDelimiter,
                )),
                d.len() as int,
            ));
        },
    }
}

/// Appending one pair serializes as the records so far followed by the new
/// record.
proof fn lemma_fesl_records_snoc(pairs: Seq<(Seq<u8>, Seq<u8>)>, k: Seq<u8>, v: Seq<u8>)
    ensures
        fesl_records(pairs.push((k, v))) == fesl_records(pairs) + fesl_record(k, v),
    decreases pairs.len(),
{
    let whole = pairs.push((k, v));
    if pairs.len() == 0 {
        assert(whole.drop_first() =~= Seq::<(Seq<u8>, Seq<u8>)>::empty());
        assert(fesl_records(whole.drop_first()) =~= Seq::empty());
        assert(whole[0] == (k, v));
        assert(fesl_records(pairs) =~= Seq::empty());
        assert(fesl_records(whole) =~= fesl_records(pairs) + fesl_record(k, v));
    } else {
        assert(whole[0] == pairs[0]);
        assert(whole.drop_first() =~= pairs.drop_first().push((k, v)));
        lemma_fesl_records_snoc(pairs.drop_first(), k, v);
        assert(fesl_records(whole) == fesl_record(pairs[0].0, pairs[0].1) + (fesl_records(
            pairs.drop_first(),
        ) + fesl_record(k, v)));
        assert(fesl_records(whole) =~= fesl_records(pairs) + fesl_record(k, v));
    }
}

} // verus!
