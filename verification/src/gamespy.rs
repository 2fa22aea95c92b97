//! GameSpy codec: backslash-delimited `\key\value` tokens closed by the
//! literal 7-byte terminator `\final\`, and a streaming framer that cuts
//! complete packets out of arbitrary read chunks with a rolling
//! partial-match rank against the terminator.

use vstd::prelude::*;
use vstd::slice::{slice_index_get, slice_subrange};
use vstd::string::StringSliceAdditionalSpecFns;
use vstd::utf8::valid_utf8;
use crate::wire::{find_byte, find_byte_in, lemma_find_byte, lemma_find_byte_at,
    lemma_find_byte_none, utf8_view};

verus! {

/// Decoding failures of the GameSpy codec.
#[derive(Clone, Copy, Debug, PartialEq, Eq, Structural)]
pub enum GameSpyPacketError {
    /// A leading backslash was missing where a token had to start.
    ExpectedDelimiter,
    /// Bytes claimed as text were not valid UTF-8.
    ExpectedUtf8,
}

/// The fixed packet terminator `\final\`.
pub open spec fn term() -> Seq<u8> {
    seq![92u8, 102u8, 105u8, 110u8, 97u8, 108u8, 92u8]
}

/// A correctly framed packet buffer: its final 7 bytes are the terminator.
pub open spec fn gs_framed(d: Seq<u8>) -> bool {
    &&& d.len() >= 7
    &&& d.subrange(d.len() - 7, d.len() as int) == term()
}

/// One serialized pair: `\key\value`.
pub open spec fn gs_pair_bytes(k: Seq<u8>, v: Seq<u8>) -> Seq<u8> {
    seq![92u8] + k + seq![92u8] + v
}

/// The serialized body of a pair sequence, in order, without the terminator.
pub open spec fn gs_pairs_bytes(pairs: Seq<(Seq<u8>, Seq<u8>)>) -> Seq<u8>
    decreases pairs.len(),
{
    if pairs.len() == 0 {
        Seq::empty()
    } else {
        gs_pair_bytes(pairs[0].0, pairs[0].1) + gs_pairs_bytes(pairs.drop_first())
    }
}

/// The full wire form of a packet built from the given pairs.
pub open spec fn gs_wire(pairs: Seq<(Seq<u8>, Seq<u8>)>) -> Seq<u8> {
    gs_pairs_bytes(pairs) + term()
}

/// One step of the body scan over the remaining bytes `d`: the pair yielded
/// (none at the clean end) and how many bytes the step consumes. Each token
/// must start with a backslash; the last token may run to the end of the
/// body. Any error consumes the whole remainder.
pub open spec fn gs_step(d: Seq<u8>) -> (Option<
    Result<(Seq<u8>, Seq<u8>), GameSpyPacketError>,
>, int) {
    if d.len() == 0 {
        (None, 0)
    } else if d[0] != 92 {
        (Some(Err(GameSpyPacketError::ExpectedDelimiter)), d.len() as int)
    } else {
        let (key, rest) = match find_byte(d.skip(1), 92) {
            Some(x) => (d.skip(1).take(x), d.skip(1 + x)),
            None => (d.skip(1), d.skip(d.len() as int)),
        };
        if !valid_utf8(key) {
            (Some(Err(GameSpyPacketError::ExpectedUtf8)), d.len() as int)
        } else if rest.len() == 0 || rest[0] != 92 {
            (Some(Err(GameSpyPacketError::ExpectedDelimiter)), d.len() as int)
        } else {
            let (value, consumed) = match find_byte(rest.skip(1), 92) {
                Some(y) => (rest.skip(1).take(y), d.len() - rest.len() + 1 + y),
                None => (rest.skip(1), d.len() as int),
            };
            if !valid_utf8(value) {
                (Some(Err(GameSpyPacketError::ExpectedUtf8)), d.len() as int)
            } else {
                (Some(Ok((key, value))), consumed)
            }
        }
    }
}

/// Every step stays within the remainder, and a successful step consumes at
/// least one byte.
pub proof fn lemma_gs_step_bounds(d: Seq<u8>)
    ensures
        ({
            let (item, skip) = gs_step(d);
            &&& 0 <= skip <= d.len()
            &&& (item matches Some(it) && it is Ok ==> 1 <= skip)
        }),
{
    if d.len() > 0 && d[0] == 92 {
        lemma_find_byte(d.skip(1), 92);
        match find_byte(d.skip(1), 92) {
            Some(x) => {
                let rest = d.skip(1 + x);
                lemma_find_byte(rest.skip(1), 92);
            },
            None => {},
        }
    }
}

/// The full item sequence of a body scan: pairs until the clean end, or
/// until the first error, which is the final item.
pub open spec fn gs_items(d: Seq<u8>) -> Seq<Result<(Seq<u8>, Seq<u8>), GameSpyPacketError>>
    decreases d.len(),
    via gs_items_decreases
{
    let (item, skip) = gs_step(d);
    match item {
        None => Seq::empty(),
        Some(it) => if it is Ok {
            seq![it] + gs_items(d.skip(skip))
        } else {
            seq![it]
        },
    }
}

#[via_fn]
proof fn gs_items_decreases(d: Seq<u8>) {
    lemma_gs_step_bounds(d);
}

/// An immutable framed GameSpy packet buffer.
#[derive(Debug)]
pub struct GameSpyPacket {
    data: Vec<u8>,
}

impl View for GameSpyPacket {
    type V = Seq<u8>;

    closed spec fn view(&self) -> Seq<u8> {
        self.data@
    }
}

impl GameSpyPacket {
    /// The framing invariant every packet satisfies.
    pub open spec fn wf(&self) -> bool {
        gs_framed(self@)
    }

    /// Wraps an owned buffer that already carries the terminator.
    pub fn from_box(data: Vec<u8>) -> (p: GameSpyPacket)
        requires
            gs_framed(data@),
        ensures
            p@ == data@,
            p.wf(),
    {
        GameSpyPacket { data }
    }

    /// The whole framed buffer.
    pub fn as_bytes(&self) -> (r: &[u8])
        ensures
            r@ == self@,
    {
        self.data.as_slice()
    }

    /// A scanning view over the body, the bytes before the terminator.
    pub fn iter<'a>(&'a self) -> (r: GameSpyPacketIterator<'a>)
        requires
            self.wf(),
        ensures
            r.wf(),
            r.remaining() == self@.take(self@.len() - 7),
    {
        let body = slice_subrange(self.data.as_slice(), 0, self.data.len() - 7);
        assert(body@.skip(0) =~= self@.take(self@.len() - 7));
        GameSpyPacketIterator { body, pos: 0 }
    }
}

/// A cursor over a packet body, yielding `(key, value)` pairs until the
/// clean end or the first error.
#[derive(Debug)]
pub struct GameSpyPacketIterator<'a> {
    body: &'a [u8],
    pos: usize,
}

impl<'a> GameSpyPacketIterator<'a> {
    /// The cursor stays within the body.
    pub closed spec fn wf(&self) -> bool {
        self.pos <= self.body@.len()
    }

    /// The bytes not yet consumed.
    pub closed spec fn remaining(&self) -> Seq<u8> {
        self.body@.skip(self.pos as int)
    }

    /// Yields the next pair, an error, or nothing at the end. The step taken
    /// is exactly `gs_step` of the remaining bytes; an error consumes the
    /// whole remainder, so nothing follows it.
    pub fn next(&mut self) -> (r: Option<Result<(&'a str, &'a str), GameSpyPacketError>>)
        requires
            old(self).wf(),
        ensures
            final(self).wf(),
            ({
                let (item, skip) = gs_step(old(self).remaining());
                &&& final(self).remaining() == old(self).remaining().skip(skip)
                &&& match (r, item) {
                    (None, None) => true,
                    (Some(Ok((k, v))), Some(Ok((kb, vb)))) => k.spec_bytes() == kb
                        && v.spec_bytes() == vb,
                    (Some(Err(e1)), Some(Err(e2))) => e1 == e2,
                    _ => false,
                }
            }),
    {
        let ghost d = self.remaining();
        let n = self.body.len();
        if self.pos == n {
            assert(d.skip(0) =~= d);
            return None;
        }
        if *slice_index_get(self.body, self.pos) != 92 {
            self.pos = n;
            assert(self.body@.skip(n as int) =~= d.skip(d.len() as int));
            return Some(Err(GameSpyPacketError::ExpectedDelimiter));
        }
        assert(self.body@.skip(self.pos + 1) =~= d.skip(1));
        let key_end = match find_byte_in(self.body, self.pos + 1, 92) {
            Some(x) => x,
            None => n,
        };
        let key_s = slice_subrange(self.body, self.pos + 1, key_end);
        proof {
            lemma_find_byte(d.skip(1), 92);
            if key_end < n {
                assert(key_s@ =~= d.skip(1).take(key_end - (self.pos + 1)));
                assert(self.body@.skip(key_end as int) =~= d.skip(1 + (key_end - (self.pos
                    + 1))));
            } else {
                assert(key_s@ =~= d.skip(1));
            }
        }
        let k = match utf8_view(key_s) {
            None => {
                self.pos = n;
                assert(self.body@.skip(n as int) =~= d.skip(d.len() as int));
                return Some(Err(GameSpyPacketError::ExpectedUtf8));
            },
            Some(k) => k,
        };
        if key_end >= n {
            self.pos = n;
            assert(self.body@.skip(n as int) =~= d.skip(d.len() as int));
            assert(d.skip(d.len() as int).len() == 0);
            return Some(Err(GameSpyPacketError::ExpectedDelimiter));
        }
        let ghost rest = d.skip(1 + (key_end - (self.pos + 1)));
        assert(rest.len() == n - key_end);
        assert(rest[0] == self.body@[key_end as int]);
        assert(self.body@.skip(key_end + 1) =~= rest.skip(1));
        let val_end = match find_byte_in(self.body, key_end + 1, 92) {
            Some(y) => y,
            None => n,
        };
        let val_s = slice_subrange(self.body, key_end + 1, val_end);
        proof {
            if val_end < n {
                assert(val_s@ =~= rest.skip(1).take(val_end - (key_end + 1)));
            } else {
                assert(val_s@ =~= rest.skip(1));
            }
        }
        let v = match utf8_view(val_s) {
            None => {
                self.pos = n;
                assert(self.body@.skip(n as int) =~= d.skip(d.len() as int));
                return Some(Err(GameSpyPacketError::ExpectedUtf8));
            },
            Some(v) => v,
        };
        self.pos = val_end;
        proof {
            if val_end < n {
                assert(self.body@.skip(val_end as int) =~= d.skip(
                    d.len() - rest.len() + 1 + (val_end - (key_end + 1)),
                ));
            } else {
                assert(self.body@.skip(n as int) =~= d.skip(d.len() as int));
            }
        }
        Some(Ok((k, v)))
    }
}

/// A one-shot accumulator of pairs, consumed by `build`.
pub struct GameSpyPacketBuilder {
    len: usize,
    buf: Vec<u8>,
    pairs: Ghost<Seq<(Seq<u8>, Seq<u8>)>>,
}

impl GameSpyPacketBuilder {
    /// The tracked length is the exact serialized length: the 7-byte
    /// terminator plus every pair's delimited bytes.
    pub closed spec fn wf(&self) -> bool {
        &&& self.len == 7 + self.buf@.len()
        &&& self.buf@ == gs_pairs_bytes(self.pairs@)
    }

    /// The pairs pushed so far, in order.
    pub closed spec fn pairs(&self) -> Seq<(Seq<u8>, Seq<u8>)> {
        self.pairs@
    }

    /// The exact serialized length of the packet built so far.
    pub closed spec fn wire_len(&self) -> int {
        self.len as int
    }

    /// The exact serialized length of the packet built so far, so a caller
    /// can bound the accumulated length before pushing more.
    pub fn len(&self) -> (r: usize)
        ensures
            r == self.wire_len(),
    {
        self.len
    }

    /// Starts an empty packet.
    pub fn new() -> (b: GameSpyPacketBuilder)
        ensures
            b.wf(),
            b.pairs() == Seq::<(Seq<u8>, Seq<u8>)>::empty(),
            b.wire_len() == 7,
    {
        GameSpyPacketBuilder { len: 7, buf: Vec::new(), pairs: Ghost(Seq::empty()) }
    }

    /// Appends one pair and accounts for its exact serialized length
    /// (`1 + len(key) + 1 + len(value)`).
    pub fn push(&mut self, key: &str, value: &str)
        requires
            old(self).wf(),
            old(self).wire_len() + key.spec_bytes().len() + value.spec_bytes().len() + 2
                <= usize::MAX,
        ensures
            final(self).wf(),
            final(self).pairs() == old(self).pairs().push(
                (key.spec_bytes(), value.spec_bytes()),
            ),
            final(self).wire_len() == old(self).wire_len() + key.spec_bytes().len()
                + value.spec_bytes().len() + 2,
    {
        self.len = self.len + 1 + key.len() + 1 + value.len();
        self.buf.push(92);
        self.buf.extend_from_slice(key.as_bytes());
        self.buf.push(92);
        self.buf.extend_from_slice(value.as_bytes());
        proof {
            self.pairs@ = self.pairs@.push((key.spec_bytes(), value.spec_bytes()));
            lemma_gs_pairs_snoc(old(self).pairs@, key.spec_bytes(), value.spec_bytes());
            assert(self.buf@ =~= old(self).buf@ + gs_pair_bytes(
                key.spec_bytes(),
                value.spec_bytes(),
            ));
        }
    }

    /// Serializes the accumulated packet, consuming the builder.
    pub fn build(self) -> (p: GameSpyPacket)
        requires
            self.wf(),
        ensures
            p@ == gs_wire(self.pairs()),
            p.wf(),
    {
        let mut me = self;
        let mut out: Vec<u8> = Vec::with_capacity(me.len);
        out.append(&mut me.buf);
        out.push(92);
        out.push(102);
        out.push(105);
        out.push(110);
        out.push(97);
        out.push(108);
        out.push(92);
        proof {
            assert(out@ =~= gs_wire(self.pairs()));
            assert(out@.subrange(out@.len() - 7, out@.len() as int) =~= term());
        }
        GameSpyPacket { data: out }
    }
}

/// The item sequence that yields every pair in order, each as a success.
pub open spec fn gs_ok_items(pairs: Seq<(Seq<u8>, Seq<u8>)>) -> Seq<
    Result<(Seq<u8>, Seq<u8>), GameSpyPacketError>,
> {
    pairs.map_values(|p: (Seq<u8>, Seq<u8>)| Ok::<(Seq<u8>, Seq<u8>), GameSpyPacketError>(p))
}

/// Scanning a serialized body yields back exactly the pairs it was built
/// from, when keys and values are valid text free of backslashes.
proof fn lemma_gs_body_items(pairs: Seq<(Seq<u8>, Seq<u8>)>)
    requires
        forall|i: int| #![auto]
            0 <= i < pairs.len() ==> !pairs[i].0.contains(92u8) && !pairs[i].1.contains(92u8),
        forall|i: int| #![auto]
            0 <= i < pairs.len() ==> valid_utf8(pairs[i].0) && valid_utf8(pairs[i].1),
    ensures
        gs_items(gs_pairs_bytes(pairs)) == gs_ok_items(pairs),
    decreases pairs.len(),
{
    let d = gs_pairs_bytes(pairs);
    if pairs.len() == 0 {
        assert(d =~= Seq::empty());
        assert(gs_items(d) =~= Seq::empty());
        assert(gs_ok_items(pairs) =~= Seq::empty());
    } else {
        let k = pairs[0].0;
        let v = pairs[0].1;
        let rest = pairs.drop_first();
        let tail = gs_pairs_bytes(rest);
        assert(d == gs_pair_bytes(k, v) + tail);
        assert(d =~= seq![92u8] + k + seq![92u8] + v + tail);
        assert(d[0] == 92);
        let s1 = d.skip(1);
        assert(s1 =~= k + seq![92u8] + v + tail);
        let q = k.len() as int;
        assert forall|j: int| 0 <= j < q implies s1[j] != 92u8 by {
            assert(s1[j] == k[j]);
            if k[j] == 92u8 {
                assert(k.contains(92u8));
            }
        }
        assert(s1[q] == 92u8);
        lemma_find_byte_at(s1, 92u8, q);
        assert(s1.take(q) =~= k);
        let rest0 = d.skip(1 + q);
        assert(rest0 =~= seq![92u8] + v + tail);
        assert(rest0[0] == 92);
        let s2 = rest0.skip(1);
        assert(s2 =~= v + tail);
        let w = v.len() as int;
        assert forall|j: int| 0 <= j < w implies s2[j] != 92u8 by {
            assert(s2[j] == v[j]);
            if v[j] == 92u8 {
                assert(v.contains(92u8));
            }
        }
        let skip: int;
        if rest.len() == 0 {
            assert(tail =~= Seq::empty());
            assert(s2 =~= v);
            lemma_find_byte_none(s2, 92u8);
            assert(s2 =~= s2.take(s2.len() as int));
            skip = d.len() as int;
            assert(gs_step(d) == (
                Some(Ok::<(Seq<u8>, Seq<u8>), GameSpyPacketError>((k, v))),
                skip,
            ));
        } else {
            assert(tail == gs_pair_bytes(rest[0].0, rest[0].1) + gs_pairs_bytes(
                rest.drop_first(),
            ));
            assert(s2[w] == 92u8);
            lemma_find_byte_at(s2, 92u8, w);
            assert(s2.take(w) =~= v);
            skip = d.len() - rest0.len() + 1 + w;
            assert(gs_step(d) == (
                Some(Ok::<(Seq<u8>, Seq<u8>), GameSpyPacketError>((k, v))),
                skip,
            ));
        }
        assert(d.skip(skip) =~= tail);
        assert forall|i: int|
            0 <= i < rest.len() implies !rest[i].0.contains(92u8) && !rest[i].1.contains(92u8)
                && valid_utf8(rest[i].0) && valid_utf8(rest[i].1) by {
            assert(rest[i] == pairs[i + 1]);
        }
        lemma_gs_body_items(rest);
        assert(gs_items(d) == seq![Ok::<(Seq<u8>, Seq<u8>), GameSpyPacketError>((k, v))]
            + gs_items(tail));
        assert(gs_ok_items(pairs) =~= seq![Ok::<(Seq<u8>, Seq<u8>), GameSpyPacketError>((k, v))]
            + gs_ok_items(rest));
    }
}

/// Round trip: a packet built from pairs whose keys and values are valid
/// text free of backslashes is correctly framed, and scanning its body
/// yields exactly those pairs, in order.
pub proof fn lemma_gamespy_round_trip(pairs: Seq<(Seq<u8>, Seq<u8>)>)
    requires
        forall|i: int| #![auto]
            0 <= i < pairs.len() ==> !pairs[i].0.contains(92u8) && !pairs[i].1.contains(92u8),
        forall|i: int| #![auto]
            0 <= i < pairs.len() ==> valid_utf8(pairs[i].0) && valid_utf8(pairs[i].1),
    ensures
        ({
            let w = gs_wire(pairs);
            &&& gs_framed(w)
            &&& w.take(w.len() - 7) == gs_pairs_bytes(pairs)
            &&& gs_items(w.take(w.len() - 7)) == gs_ok_items(pairs)
        }),
{
    let w = gs_wire(pairs);
    assert(w.subrange(w.len() - 7, w.len() as int) =~= term());
    assert(w.take(w.len() - 7) =~= gs_pairs_bytes(pairs));
    lemma_gs_body_items(pairs);
}

/// Appending one pair serializes as the body so far followed by the new
/// delimited pair.
proof fn lemma_gs_pairs_snoc(pairs: Seq<(Seq<u8>, Seq<u8>)>, k: Seq<u8>, v: Seq<u8>)
    ensures
        gs_pairs_bytes(pairs.push((k, v))) == gs_pairs_bytes(pairs) + gs_pair_bytes(k, v),
    decreases pairs.len(),
{
    let whole = pairs.push((k, v));
    if pairs.len() == 0 {
        assert(whole.drop_first() =~= Seq::<(Seq<u8>, Seq<u8>)>::empty());
        assert(gs_pairs_bytes(whole.drop_first()) =~= Seq::empty());
        assert(whole[0] == (k, v));
        assert(gs_pairs_bytes(pairs) =~= Seq::empty());
        assert(gs_pairs_bytes(whole) =~= gs_pairs_bytes(pairs) + gs_pair_bytes(k, v));
    } else {
        assert(whole[0] == pairs[0]);
        assert(whole.drop_first() =~= pairs.drop_first().push((k, v)));
        lemma_gs_pairs_snoc(pairs.drop_first(), k, v);
        assert(gs_pairs_bytes(whole) == gs_pair_bytes(pairs[0].0, pairs[0].1) + (gs_pairs_bytes(
            pairs.drop_first(),
        ) + gs_pair_bytes(k, v)));
        assert(gs_pairs_bytes(whole) =~= gs_pairs_bytes(pairs) + gs_pair_bytes(k, v));
    }
}

/// One automaton step of the rolling terminator match: advance the rank on
/// the expected byte, fall back to rank 1 on a backslash, else to 0. This is
/// deliberately not a full failure-function automaton; it is exact for the
/// fixed terminator, whose interior repeats no prefix.
pub open spec fn step_rank(r: int, b: u8) -> int {
    if b == term()[r] {
        r + 1
    } else if b == term()[0] {
        1
    } else {
        0
    }
}

/// Scanning a chunk from rank `r`: how many bytes are examined before the
/// rank reaches 7 (or the chunk ends), and the rank afterwards.
pub open spec fn scan(r: int, chunk: Seq<u8>) -> (int, int)
    decreases chunk.len(),
{
    if chunk.len() == 0 {
        (0, r)
    } else {
        let r2 = step_rank(r, chunk[0]);
        if r2 == 7 {
            (1, 7)
        } else {
            let rec = scan(r2, chunk.drop_first());
            (1 + rec.0, rec.1)
        }
    }
}

/// A scan that does not complete the terminator examines the whole chunk.
pub proof fn lemma_scan_incomplete(r: int, chunk: Seq<u8>)
    requires
        scan(r, chunk).1 != 7,
    ensures
        scan(r, chunk).0 == chunk.len(),
    decreases chunk.len(),
{
    if chunk.len() > 0 {
        let r2 = step_rank(r, chunk[0]);
        if r2 != 7 {
            lemma_scan_incomplete(r2, chunk.drop_first());
        }
    }
}

/// A chunk whose scan completes the terminator bounds the packet exactly:
/// scanning any extension of it stops at the very same byte, leaving every
/// later byte (a following packet, say) unexamined.
pub proof fn lemma_scan_complete_prefix(r: int, a: Seq<u8>, b: Seq<u8>)
    requires
        r != 7,
        scan(r, a).1 == 7,
    ensures
        scan(r, a + b) == (scan(r, a).0, 7int),
    decreases a.len(),
{
    assert(a.len() > 0);
    let r2 = step_rank(r, a[0]);
    assert((a + b)[0] == a[0]);
    assert((a + b).drop_first() =~= a.drop_first() + b);
    if r2 != 7 {
        lemma_scan_complete_prefix(r2, a.drop_first(), b);
    }
}

/// Scanning chunk by chunk equals scanning the concatenation: a scan left
/// unfinished by the first chunk (a terminator split across reads, say)
/// continues through the second from the rank it reached.
pub proof fn lemma_scan_append(r: int, a: Seq<u8>, b: Seq<u8>)
    requires
        scan(r, a).1 != 7,
    ensures
        scan(r, a + b) == (a.len() + scan(scan(r, a).1, b).0, scan(scan(r, a).1, b).1),
    decreases a.len(),
{
    if a.len() == 0 {
        assert(a + b =~= b);
    } else {
        let r2 = step_rank(r, a[0]);
        assert((a + b)[0] == a[0]);
        assert((a + b).drop_first() =~= a.drop_first() + b);
        assert(r2 != 7);
        lemma_scan_append(r2, a.drop_first(), b);
    }
}

/// Two complete packets concatenated into one chunk: the scan consumes
/// exactly the first packet, byte for byte, and the rest of the chunk is
/// exactly the second.
pub proof fn lemma_scan_two_packets(first: Seq<u8>, second: Seq<u8>)
    requires
        scan(0, first) == (first.len() as int, 7int),
        scan(0, second) == (second.len() as int, 7int),
    ensures
        scan(0, first + second) == (first.len() as int, 7int),
        (first + second).take(first.len() as int) == first,
        (first + second).skip(first.len() as int) == second,
{
    lemma_scan_complete_prefix(0, first, second);
    assert((first + second).take(first.len() as int) =~= first);
    assert((first + second).skip(first.len() as int) =~= second);
}

/// A complete packet cut anywhere into two chunks is reassembled: the first
/// part leaves the scan unfinished at some rank, and scanning the second
/// part from that rank consumes exactly the packet's remaining bytes.
pub proof fn lemma_scan_split_packet(p: Seq<u8>, cut: int)
    requires
        0 <= cut <= p.len(),
        scan(0, p) == (p.len() as int, 7int),
        scan(0, p.take(cut)).1 != 7,
    ensures
        scan(0, p.take(cut)).0 == cut,
        scan(scan(0, p.take(cut)).1, p.skip(cut)) == (p.len() - cut, 7int),
{
    lemma_scan_incomplete(0, p.take(cut));
    assert(p.take(cut) + p.skip(cut) =~= p);
    lemma_scan_append(0, p.take(cut), p.skip(cut));
}

/// An occurrence of the terminator ends at position `j` of `w`.
pub open spec fn term_at(w: Seq<u8>, j: int) -> bool {
    w.subrange(j - 7, j) == term()
}

/// An unfinished scan has matched exactly what it says: the input ends with
/// the matched prefix of the terminator.
proof fn lemma_scan_rank_suffix(w: Seq<u8>)
    requires
        scan(0, w).1 != 7,
    ensures
        0 <= scan(0, w).1 < 7,
        w.len() >= scan(0, w).1,
        w.skip(w.len() - scan(0, w).1) == term().take(scan(0, w).1),
    decreases w.len(),
{
    if w.len() == 0 {
        assert(w.skip(0) =~= term().take(0));
    } else {
        let u = w.take(w.len() - 1);
        let b = w.last();
        assert(u + seq![b] =~= w);
        if scan(0, u).1 == 7 {
            lemma_scan_complete_prefix(0, u, seq![b]);
            assert(false);
        }
        lemma_scan_rank_suffix(u);
        lemma_scan_append(0, u, seq![b]);
        let r1 = scan(0, u).1;
        let r2 = step_rank(r1, b);
        assert(seq![b].drop_first() =~= Seq::<u8>::empty());
        assert(scan(r2, Seq::<u8>::empty()) == (0int, r2));
        assert(r2 != 7);
        assert(scan(r1, seq![b]) == (1int, r2));
        assert(scan(0, w).1 == r2);
        if b == term()[r1] {
            assert(w.skip(w.len() - (r1 + 1)) =~= term().take(r1 + 1));
        } else if b == term()[0] {
            assert(w.skip(w.len() - 1) =~= term().take(1));
        } else {
            assert(w.skip(w.len() as int) =~= term().take(0));
        }
    }
}

/// On input holding no occurrence of the terminator before its end, the scan
/// either runs through the whole input without completing, or the input
/// itself ends with the terminator and the scan completes exactly there.
proof fn lemma_scan_no_internal(w: Seq<u8>)
    requires
        forall|j: int| 7 <= j < w.len() ==> !term_at(w, j),
    ensures
        scan(0, w).1 != 7 ==> scan(0, w).0 == w.len(),
        scan(0, w).1 == 7 ==> (w.len() >= 7 && w.skip(w.len() - 7) == term() && scan(0, w) == (
            w.len() as int,
            7int,
        )),
    decreases w.len(),
{
    if w.len() > 0 {
        let u = w.take(w.len() - 1);
        let b = w.last();
        assert(u + seq![b] =~= w);
        assert forall|j: int| 7 <= j < u.len() implies !term_at(u, j) by {
            assert(u.subrange(j - 7, j) =~= w.subrange(j - 7, j));
            assert(!term_at(w, j));
        }
        lemma_scan_no_internal(u);
        if scan(0, u).1 == 7 {
            assert(w.subrange(u.len() - 7, u.len() as int) =~= u.skip(u.len() - 7));
            assert(term_at(w, u.len() as int));
            assert(false);
        }
        let r1 = scan(0, u).1;
        lemma_scan_append(0, u, seq![b]);
        let r2 = step_rank(r1, b);
        assert(seq![b].drop_first() =~= Seq::<u8>::empty());
        assert(scan(r2, Seq::<u8>::empty()) == (0int, r2));
        if r2 == 7 {
            assert(scan(r1, seq![b]) == (1int, 7int));
            assert(scan(0, w) == (w.len() as int, 7int));
            assert(r1 == 6 && b == term()[6]);
            lemma_scan_rank_suffix(u);
            assert(w.skip(w.len() - 7) =~= u.skip(u.len() - 6) + seq![b]);
            assert(term().take(6) + seq![term()[6]] =~= term());
        } else {
            assert(scan(r1, seq![b]) == (1int, r2));
            assert(scan(0, w) == ((u.len() + 1) as int, r2));
        }
    }
}

/// From any rank short of the final backslash, the terminator's own bytes
/// drive the scan to completion in exactly seven steps.
proof fn lemma_scan_term_completes(r: int)
    requires
        0 <= r <= 5,
    ensures
        scan(r, term()) == (7int, 7int),
{
    let t = term();
    let t1 = t.drop_first();
    assert(t1 =~= seq![102u8, 105u8, 110u8, 97u8, 108u8, 92u8]);
    let t2 = t1.drop_first();
    assert(t2 =~= seq![105u8, 110u8, 97u8, 108u8, 92u8]);
    let t3 = t2.drop_first();
    assert(t3 =~= seq![110u8, 97u8, 108u8, 92u8]);
    let t4 = t3.drop_first();
    assert(t4 =~= seq![97u8, 108u8, 92u8]);
    let t5 = t4.drop_first();
    assert(t5 =~= seq![108u8, 92u8]);
    let t6 = t5.drop_first();
    assert(t6 =~= seq![92u8]);
    assert(step_rank(6, 92) == 7);
    assert(scan(6, t6) == (1int, 7int));
    assert(step_rank(5, 108) == 6);
    assert(scan(5, t5) == (2int, 7int));
    assert(step_rank(4, 97) == 5);
    assert(scan(4, t4) == (3int, 7int));
    assert(step_rank(3, 110) == 4);
    assert(scan(3, t3) == (4int, 7int));
    assert(step_rank(2, 105) == 3);
    assert(scan(2, t2) == (5int, 7int));
    assert(step_rank(1, 102) == 2);
    assert(scan(1, t1) == (6int, 7int));
    assert(step_rank(r, 92) == 1);
    assert(scan(r, t) == (7int, 7int));
}

/// A valid packet is framed whole: a buffer that ends with the terminator
/// and holds no earlier occurrence of it is consumed by the scan exactly,
/// byte for byte, completing on its last byte — the simplified automaton
/// never fires early and never overshoots on such input.
pub proof fn lemma_scan_whole_packet(w: Seq<u8>)
    requires
        w.len() >= 7,
        w.skip(w.len() - 7) == term(),
        forall|j: int| 7 <= j < w.len() ==> !term_at(w, j),
    ensures
        scan(0, w) == (w.len() as int, 7int),
{
    let u = w.take(w.len() - 7);
    assert(u + term() =~= w);
    assert forall|j: int| 7 <= j < u.len() implies !term_at(u, j) by {
        assert(u.subrange(j - 7, j) =~= w.subrange(j - 7, j));
        assert(!term_at(w, j));
    }
    lemma_scan_no_internal(u);
    if scan(0, u).1 == 7 {
        assert(w.subrange(u.len() - 7, u.len() as int) =~= u.skip(u.len() - 7));
        assert(term_at(w, u.len() as int));
        assert(false);
    }
    let r1 = scan(0, u).1;
    lemma_scan_rank_suffix(u);
    if r1 == 6 {
        assert(w[u.len() as int] == term()[0]);
        assert(w.subrange(u.len() - 6, (u.len() + 1) as int) =~= term().take(6) + seq![92u8]);
        assert(term().take(6) + seq![92u8] =~= term());
        assert(term_at(w, (u.len() + 1) as int));
        assert(false);
    }
    lemma_scan_term_completes(r1);
    lemma_scan_append(0, u, term());
}

/// The byte the automaton expects at a given rank.
fn term_byte(r: u8) -> (b: u8)
    requires
        r < 7,
    ensures
        b == term()[r as int],
{
    match r {
        0 => 92,
        1 => 102,
        2 => 105,
        3 => 110,
        4 => 97,
        5 => 108,
        _ => 92,
    }
}

/// The streaming framer's scan state: the bytes accumulated for the packet
/// being assembled, and the current partial-match rank against the
/// terminator. The transport itself stays outside; chunks read from it are
/// handed to `feed`.
#[derive(Debug)]
pub struct GameSpyPacketFramer {
    rank: u8,
    msg: Vec<u8>,
}

impl GameSpyPacketFramer {
    /// The rank never reaches 7 between calls, and the accumulated bytes end
    /// with exactly the matched part of the terminator.
    pub closed spec fn wf(&self) -> bool {
        &&& self.rank < 7
        &&& self.msg@.len() >= self.rank
        &&& self.msg@.skip(self.msg@.len() - self.rank as int) == term().take(self.rank as int)
    }

    /// The bytes accumulated for the packet being assembled.
    pub closed spec fn buffered(&self) -> Seq<u8> {
        self.msg@
    }

    /// The current partial-match rank.
    pub closed spec fn matched(&self) -> int {
        self.rank as int
    }

    /// Starts a framer with an empty accumulator and rank 0.
    pub fn new() -> (f: GameSpyPacketFramer)
        ensures
            f.wf(),
            f.buffered() == Seq::<u8>::empty(),
            f.matched() == 0,
    {
        let f = GameSpyPacketFramer { rank: 0, msg: Vec::new() };
        assert(f.msg@.skip(0) =~= term().take(0));
        f
    }

    /// Feeds one read chunk. Examines bytes left to right, appending each to
    /// the accumulator and stepping the rank, and stops as soon as the rank
    /// reaches 7: the accumulated bytes (terminator included) come back as
    /// one complete packet, the state resets, and the rest of the chunk is
    /// left for the next call. If the chunk ends first, everything is
    /// buffered and no packet comes back — an exhausted stream therefore
    /// never yields a partial packet.
    pub fn feed(&mut self, chunk: &[u8]) -> (r: (usize, Option<GameSpyPacket>))
        requires
            old(self).wf(),
        ensures
            final(self).wf(),
            ({
                let (c, rf) = scan(old(self).matched(), chunk@);
                &&& r.0 == c
                &&& c <= chunk@.len()
                &&& (rf == 7 ==> (r.1 matches Some(p) && p@ == old(self).buffered()
                    + chunk@.take(c) && p.wf() && final(self).buffered() == Seq::<u8>::empty()
                    && final(self).matched() == 0))
                &&& (rf != 7 ==> (r.1 is None && c == chunk@.len() && final(self).buffered()
                    == old(self).buffered() + chunk@ && final(self).matched() == rf))
            }),
    {
        let ghost c0 = self.msg@;
        let ghost r0 = self.rank as int;
        let n = chunk.len();
        let mut i: usize = 0;
        proof {
            assert(chunk@.skip(0) =~= chunk@);
            assert(chunk@.take(0) =~= Seq::<u8>::empty());
            assert(c0 + chunk@.take(0) =~= c0);
        }
        while i < n
            invariant
                r0 == old(self).matched(),
                c0 == old(self).buffered(),
                i <= n,
                n == chunk@.len(),
                self.rank < 7,
                self.msg@ == c0 + chunk@.take(i as int),
                self.msg@.len() >= self.rank,
                self.msg@.skip(self.msg@.len() - self.rank as int) == term().take(
                    self.rank as int,
                ),
                scan(r0, chunk@) == {
                    let rec = scan(self.rank as int, chunk@.skip(i as int));
                    (i + rec.0, rec.1)
                },
            decreases n - i,
        {
            let ghost rr = self.rank as int;
            let b = *slice_index_get(chunk, i);
            assert(chunk@.skip(i as int)[0] == b);
            assert(chunk@.skip(i as int).drop_first() =~= chunk@.skip(i + 1));
            self.msg.push(b);
            assert(self.msg@ =~= c0 + chunk@.take(i + 1));
            if b == term_byte(self.rank) {
                self.rank = self.rank + 1;
                proof {
                    assert(step_rank(rr, b) == rr + 1);
                    assert(self.msg@.skip(self.msg@.len() - (rr + 1)) =~= term().take(rr + 1));
                }
                if self.rank == 7 {
                    let data = self.msg.split_off(0);
                    self.rank = 0;
                    proof {
                        assert(scan(rr, chunk@.skip(i as int)) == (1int, 7int));
                        assert(data@ =~= c0 + chunk@.take(i + 1));
                        assert(self.msg@ =~= Seq::<u8>::empty());
                        assert(term().take(7) =~= term());
                        assert(data@.subrange(data@.len() - 7, data@.len() as int) =~= data@.skip(
                            data@.len() - 7,
                        ));
                        assert(self.msg@.skip(0) =~= term().take(0));
                    }
                    return (i + 1, Some(GameSpyPacket { data }));
                }
            } else if b == 92 {
                self.rank = 1;
                proof {
                    assert(term()[0] == 92);
                    assert(step_rank(rr, b) == 1);
                    assert(self.msg@.skip(self.msg@.len() - 1) =~= term().take(1));
                }
            } else {
                self.rank = 0;
                proof {
                    assert(term()[0] == 92);
                    assert(step_rank(rr, b) == 0);
                    assert(self.msg@.skip(self.msg@.len() as int) =~= term().take(0));
                }
            }
            i = i + 1;
        }
        proof {
            assert(chunk@.skip(n as int).len() == 0);
            assert(scan(self.rank as int, chunk@.skip(n as int)) == (0int, self.rank as int));
            assert(chunk@.take(n as int) =~= chunk@);
        }
        (n, None)
    }
}

} // verus!
