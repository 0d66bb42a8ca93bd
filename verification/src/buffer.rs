//! Incremental frame decoding of a byte stream.
//!
//! A `ReceiveBuffer` accumulates the bytes arriving on one connection and
//! slices out every complete frame: a frame is only delivered once all of its
//! declared payload bytes are present, and one read that carries several
//! complete frames delivers all of them, in arrival order. The unconsumed
//! tail stays buffered for the next read.

use vstd::prelude::*;
use vstd::bytes::{lemma_auto_spec_u32_to_from_le_bytes, spec_u32_from_le_bytes, u32_from_le_bytes};
use vstd::slice::slice_subrange;
use core::marker::PhantomData;
use crate::codec::{spec_frame, Message};

verus! {

/// Why one read of the stream failed.
#[derive(Debug, Clone, Copy, PartialEq, Eq)]
pub enum ReadError {
    /// The transport reported end of stream (a read of zero bytes).
    EndOfStream,
    /// A complete frame's payload is not the encoding of any message; the
    /// connection is torn down rather than resynchronized.
    MalformedPayload,
}

/// Total length of the first frame declared by `b`: the 4-byte prefix plus
/// the payload length it announces.
pub open spec fn spec_frame_len(b: Seq<u8>) -> int
    recommends
        b.len() >= 4,
{
    4 + spec_u32_from_le_bytes(b.subrange(0, 4))
}

/// `b` starts with one complete frame.
pub open spec fn spec_has_frame(b: Seq<u8>) -> bool {
    b.len() >= 4 && b.len() >= spec_frame_len(b)
}

/// Payload of the first complete frame of `b`.
pub open spec fn spec_first_payload(b: Seq<u8>) -> Seq<u8>
    recommends
        spec_has_frame(b),
{
    b.subrange(4, spec_frame_len(b))
}

/// The payloads of every complete frame at the front of `b`, in order.
pub open spec fn spec_frames(b: Seq<u8>) -> Seq<Seq<u8>>
    decreases b.len(),
{
    if spec_has_frame(b) {
        seq![spec_first_payload(b)] + spec_frames(b.skip(spec_frame_len(b)))
    } else {
        Seq::empty()
    }
}

/// What remains of `b` after every complete frame is consumed: the
/// unterminated tail of a yet-incomplete frame.
pub open spec fn spec_frames_rest(b: Seq<u8>) -> Seq<u8>
    decreases b.len(),
{
    if spec_has_frame(b) {
        spec_frames_rest(b.skip(spec_frame_len(b)))
    } else {
        b
    }
}

/// The payload is the encoding of some message of type `T`.
pub open spec fn spec_payload_decodable<T: Message>(p: Seq<u8>) -> bool {
    exists|v: T::V| T::enc_valid(v) && #[trigger] T::spec_enc(v) == p
}

/// Every complete frame among `ps` decodes.
pub open spec fn frames_all_decodable<T: Message>(ps: Seq<Seq<u8>>) -> bool {
    forall|k: int| 0 <= k < ps.len() ==> spec_payload_decodable::<T>(#[trigger] ps[k])
}

/// A frame followed by arbitrary bytes is recognized exactly: its payload is
/// sliced out and the following bytes are left.
pub proof fn lemma_frame_then_rest(p: Seq<u8>, rest: Seq<u8>)
    requires
        p.len() <= u32::MAX,
    ensures
        ({
            let b = spec_frame(p) + rest;
            &&& spec_has_frame(b)
            &&& spec_frame_len(b) == 4 + p.len()
            &&& spec_first_payload(b) == p
            &&& b.skip(spec_frame_len(b)) == rest
        }),
{
    lemma_auto_spec_u32_to_from_le_bytes();
    let b = spec_frame(p) + rest;
    assert(b.subrange(0, 4) =~= spec_u32_to_le_bytes_of(p));
    assert(spec_frame_len(b) == 4 + p.len());
    assert(spec_first_payload(b) =~= p);
    assert(b.skip(spec_frame_len(b)) =~= rest);
}

/// The 4-byte length prefix of a payload (helper naming the prefix term).
pub open spec fn spec_u32_to_le_bytes_of(p: Seq<u8>) -> Seq<u8> {
    vstd::bytes::spec_u32_to_le_bytes(p.len() as u32)
}

/// Framing round-trip: one encoded frame, fed whole, yields exactly its one
/// payload and leaves nothing buffered.
pub proof fn lemma_round_trip_single(p: Seq<u8>)
    requires
        p.len() <= u32::MAX,
    ensures
        spec_frames(spec_frame(p)) == seq![p],
        spec_frames_rest(spec_frame(p)) == Seq::<u8>::empty(),
{
    lemma_frame_then_rest(p, Seq::<u8>::empty());
    assert(spec_frame(p) + Seq::<u8>::empty() =~= spec_frame(p));
    assert(!spec_has_frame(Seq::<u8>::empty()));
    assert(spec_frames(Seq::<u8>::empty()) == Seq::<Seq<u8>>::empty());
    assert(spec_frames_rest(Seq::<u8>::empty()) == Seq::<u8>::empty());
    assert(spec_frames(spec_frame(p)) =~= seq![p]);
}

/// Multi-frame batching: the concatenation of two encoded frames yields both
/// payloads, in order, and leaves nothing buffered.
pub proof fn lemma_frames_batched(p1: Seq<u8>, p2: Seq<u8>)
    requires
        p1.len() <= u32::MAX,
        p2.len() <= u32::MAX,
    ensures
        spec_frames(spec_frame(p1) + spec_frame(p2)) == seq![p1, p2],
        spec_frames_rest(spec_frame(p1) + spec_frame(p2)) == Seq::<u8>::empty(),
{
    let b = spec_frame(p1) + spec_frame(p2);
    lemma_frame_then_rest(p1, spec_frame(p2));
    lemma_round_trip_single(p2);
    assert(spec_frames(b) =~= seq![p1, p2]);
}

/// Partial-frame buffering: any strict prefix of one encoded frame yields no
/// payload and stays buffered whole.
pub proof fn lemma_partial_frame(p: Seq<u8>, k: int)
    requires
        p.len() <= u32::MAX,
        0 <= k < spec_frame(p).len(),
    ensures
        spec_frames(spec_frame(p).take(k)) == Seq::<Seq<u8>>::empty(),
        spec_frames_rest(spec_frame(p).take(k)) == spec_frame(p).take(k),
{
    lemma_auto_spec_u32_to_from_le_bytes();
    let q = spec_frame(p).take(k);
    if k >= 4 {
        assert(q.subrange(0, 4) =~= spec_u32_to_le_bytes_of(p));
        assert(spec_frame_len(q) == 4 + p.len());
        assert(!spec_has_frame(q));
    }
}

/// Greedy framing is incremental: feeding `c` after `b` finds exactly the
/// frames of the concatenation, whichever way the bytes were split.
pub proof fn lemma_frames_incremental(b: Seq<u8>, c: Seq<u8>)
    ensures
        spec_frames(b + c) == spec_frames(b) + spec_frames(spec_frames_rest(b) + c),
        spec_frames_rest(b + c) == spec_frames_rest(spec_frames_rest(b) + c),
    decreases b.len(),
{
    if spec_has_frame(b) {
        let len = spec_frame_len(b);
        assert((b + c).subrange(0, 4) =~= b.subrange(0, 4));
        assert(spec_has_frame(b + c) && spec_frame_len(b + c) == len);
        assert(spec_first_payload(b + c) =~= spec_first_payload(b));
        assert((b + c).skip(len) =~= b.skip(len) + c);
        lemma_frames_incremental(b.skip(len), c);
        assert(spec_frames(b + c) =~= spec_frames(b) + spec_frames(spec_frames_rest(b) + c));
    } else {
        assert(spec_frames_rest(b) + c =~= b + c);
    }
}

/// What remains after consuming complete frames never holds a complete frame.
pub proof fn lemma_rest_has_no_frame(b: Seq<u8>)
    ensures
        !spec_has_frame(spec_frames_rest(b)),
        spec_frames(spec_frames_rest(b)) == Seq::<Seq<u8>>::empty(),
    decreases b.len(),
{
    if spec_has_frame(b) {
        lemma_rest_has_no_frame(b.skip(spec_frame_len(b)));
    }
}

/// Framing round-trip for one message: its complete frame, fed whole,
/// carries exactly its one payload encoding, which decodes, and leaves
/// nothing buffered.
pub proof fn lemma_message_round_trip<T: Message>(v: T::V)
    requires
        T::enc_valid(v),
        T::spec_enc(v).len() <= u32::MAX,
    ensures
        spec_frames(spec_frame(T::spec_enc(v))) == seq![T::spec_enc(v)],
        spec_frames_rest(spec_frame(T::spec_enc(v))) == Seq::<u8>::empty(),
        spec_payload_decodable::<T>(T::spec_enc(v)),
{
    lemma_round_trip_single(T::spec_enc(v));
}

/// Concatenation of a sequence of byte chunks.
pub open spec fn spec_concat(chunks: Seq<Seq<u8>>) -> Seq<u8>
    decreases chunks.len(),
{
    if chunks.len() == 0 {
        Seq::empty()
    } else {
        chunks[0] + spec_concat(chunks.drop_first())
    }
}

/// The messages and final buffered tail produced by feeding `chunks` one by
/// one into a buffer currently holding `buf`.
pub open spec fn spec_feed_all(buf: Seq<u8>, chunks: Seq<Seq<u8>>) -> (Seq<Seq<u8>>, Seq<u8>)
    decreases chunks.len(),
{
    if chunks.len() == 0 {
        (Seq::empty(), buf)
    } else {
        let whole = buf + chunks[0];
        let rec = spec_feed_all(spec_frames_rest(whole), chunks.drop_first());
        (spec_frames(whole) + rec.0, rec.1)
    }
}

/// Fragmentation invariance: however a byte stream is split into chunks,
/// feeding the chunks in order yields exactly the frames of the whole stream,
/// with the same tail left buffered.
pub proof fn lemma_fragmentation_invariance(buf: Seq<u8>, chunks: Seq<Seq<u8>>)
    requires
        !spec_has_frame(buf),
    ensures
        spec_feed_all(buf, chunks).0 == spec_frames(buf + spec_concat(chunks)),
        spec_feed_all(buf, chunks).1 == spec_frames_rest(buf + spec_concat(chunks)),
    decreases chunks.len(),
{
    if chunks.len() == 0 {
        assert(buf + spec_concat(chunks) =~= buf);
    } else {
        let whole = buf + chunks[0];
        lemma_rest_has_no_frame(whole);
        lemma_fragmentation_invariance(spec_frames_rest(whole), chunks.drop_first());
        lemma_frames_incremental(whole, spec_concat(chunks.drop_first()));
        assert(buf + spec_concat(chunks) =~= whole + spec_concat(chunks.drop_first()));
    }
}

/// The payload encodings of a sequence of messages.
pub open spec fn spec_msg_encs<T: Message>(msgs: Seq<T>) -> Seq<Seq<u8>> {
    Seq::new(msgs.len(), |k: int| T::spec_enc(msgs[k]@))
}

/// The incremental decoder for one direction of one connection. It buffers
/// the unconsumed tail of the byte stream between reads.
pub struct ReceiveBuffer<T: Message> {
    data: Vec<u8>,
    _msg: PhantomData<T>,
}

impl<T: Message> View for ReceiveBuffer<T> {
    type V = Seq<u8>;

    closed spec fn view(&self) -> Seq<u8> {
        self.data@
    }
}

/// One read transaction: the buffered bytes joined by the bytes arriving
/// from the transport, not yet decoded.
pub struct ReceiveBufferRead<T: Message> {
    data: Vec<u8>,
    start_index: usize,
    _msg: PhantomData<T>,
}

impl<T: Message> View for ReceiveBufferRead<T> {
    type V = Seq<u8>;

    closed spec fn view(&self) -> Seq<u8> {
        self.data@
    }
}

impl<T: Message> ReceiveBufferRead<T> {
    /// Where the bytes of this read begin: everything before was already
    /// buffered when the read started.
    pub closed spec fn start(&self) -> int {
        self.start_index as int
    }

    pub open spec fn inv(&self) -> bool {
        self.start() <= self@.len()
    }

    /// Appends bytes read from the transport.
    pub fn data(&mut self, bytes: &[u8])
        requires
            old(self).inv(),
        ensures
            final(self).inv(),
            final(self)@ == old(self)@ + bytes@,
            final(self).start() == old(self).start(),
    {
        self.data.extend_from_slice(bytes);
    }

    /// Ends the read: decodes every complete frame, returns the decoded
    /// messages in order, and leaves the unconsumed tail in `buffer`.
    /// A read that brought no bytes at all is the end of the stream.
    pub fn finish(self, buffer: &mut ReceiveBuffer<T>) -> (r: Result<Vec<T>, ReadError>)
        requires
            self.inv(),
            old(buffer)@.len() == 0,
        ensures
            ({
                let whole = self@;
                &&& (r matches Err(e) && e == ReadError::EndOfStream <==> self@.len()
                    == self.start())
                &&& (r matches Err(e) && e == ReadError::EndOfStream ==> final(buffer)@ == whole)
                &&& (r matches Ok(msgs) ==> {
                    &&& msgs@.len() == spec_frames(whole).len()
                    &&& forall|k: int|
                        0 <= k < msgs@.len() ==> T::enc_valid(#[trigger] msgs@[k]@) && T::spec_enc(
                            msgs@[k]@,
                        ) == spec_frames(whole)[k]
                    &&& forall|k: int, v: T::V|
                        #![trigger T::spec_enc(v), spec_frames(whole)[k]]
                        0 <= k < msgs@.len() && T::enc_valid(v) && T::spec_enc(v) == spec_frames(
                            whole,
                        )[k] ==> msgs@[k]@ == v
                    &&& final(buffer)@ == spec_frames_rest(whole)
                })
                &&& (r matches Err(e) && e == ReadError::MalformedPayload
                    ==> !frames_all_decodable::<T>(spec_frames(whole)) && final(buffer)@
                    == Seq::<u8>::empty())
                &&& (self@.len() > self.start() && frames_all_decodable::<T>(spec_frames(whole))
                    ==> r is Ok)
            }),
    {
        let mut data = self.data;
        let start_index = self.start_index;
        if data.len() == start_index {
            buffer.data = data;
            return Err(ReadError::EndOfStream);
        }
        let ghost whole = data@;
        let mut idx: usize = 0;
        let mut out: Vec<T> = Vec::new();
        let mut malformed = false;
        proof {
            assert(whole.skip(0) =~= whole);
            assert(spec_frames(whole) =~= spec_msg_encs(out@) + spec_frames(whole.skip(0)));
        }
        loop
            invariant_except_break
                !malformed,
            invariant
                idx <= data@.len(),
                data@ == whole,
                spec_frames(whole) == spec_msg_encs(out@) + spec_frames(whole.skip(idx as int)),
                spec_frames_rest(whole) == spec_frames_rest(whole.skip(idx as int)),
                forall|k: int| 0 <= k < out@.len() ==> T::enc_valid(#[trigger] out@[k]@),
                forall|k: int, v: T::V|
                    #![trigger T::spec_enc(v), spec_frames(whole)[k]]
                    0 <= k < out@.len() && T::enc_valid(v) && T::spec_enc(v) == spec_frames(
                        whole,
                    )[k] ==> out@[k]@ == v,
            ensures
                idx <= data@.len(),
                data@ == whole,
                malformed ==> !frames_all_decodable::<T>(spec_frames(whole)),
                !malformed ==> !spec_has_frame(whole.skip(idx as int)),
                !malformed ==> spec_frames(whole) == spec_msg_encs(out@),
                !malformed ==> spec_frames_rest(whole) == whole.skip(idx as int),
                forall|k: int| 0 <= k < out@.len() ==> T::enc_valid(#[trigger] out@[k]@),
                forall|k: int, v: T::V|
                    #![trigger T::spec_enc(v), spec_frames(whole)[k]]
                    0 <= k < out@.len() && T::enc_valid(v) && T::spec_enc(v) == spec_frames(
                        whole,
                    )[k] ==> out@[k]@ == v,
            decreases data@.len() - idx,
        {
            let ghost tailseq = whole.skip(idx as int);
            if data.len() - idx < 4 {
                break ;
            }
            proof {
                lemma_auto_spec_u32_to_from_le_bytes();
                assert(tailseq.subrange(0, 4) =~= whole.subrange(idx as int, idx + 4));
            }
            let n = u32_from_le_bytes(slice_subrange(data.as_slice(), idx, idx + 4));
            let n_us = n as usize;
            proof {
                assert(spec_frame_len(tailseq) == 4 + n);
            }
            if data.len() - (idx + 4) < n_us {
                proof {
                    assert(!spec_has_frame(tailseq));
                }
                break ;
            }
            let end = idx + 4 + n_us;
            let payload = slice_subrange(data.as_slice(), idx + 4, end);
            proof {
                assert(spec_has_frame(tailseq));
                assert(spec_first_payload(tailseq) =~= payload@);
                assert(tailseq.skip(spec_frame_len(tailseq)) =~= whole.skip(end as int));
            }
            match T::decode_payload(payload) {
                Some(m) => {
                    proof {
                        assert(spec_frames(tailseq) == seq![payload@] + spec_frames(
                            whole.skip(end as int),
                        ));
                        assert(spec_msg_encs(out@.push(m)) =~= spec_msg_encs(out@).push(
                            T::spec_enc(m@),
                        ));
                        assert(spec_frames(whole) =~= spec_msg_encs(out@.push(m)) + spec_frames(
                            whole.skip(end as int),
                        ));
                        assert forall|k: int, v: T::V|
                            #![trigger T::spec_enc(v), spec_frames(whole)[k]]
                            0 <= k < out@.push(m).len() && T::enc_valid(v) && T::spec_enc(v)
                                == spec_frames(whole)[k] implies out@.push(m)[k]@ == v by {
                            if k < out@.len() {
                                assert(out@[k]@ == v);
                            } else {
                                assert(spec_frames(whole)[k] == payload@);
                            }
                        }
                    }
                    out.push(m);
                    idx = end;
                },
                None => {
                    proof {
                        assert(spec_frames(tailseq) == seq![payload@] + spec_frames(
                            whole.skip(end as int),
                        ));
                        let bad = out@.len() as int;
                        assert(spec_frames(whole)[bad] == payload@);
                        assert(!spec_payload_decodable::<T>(payload@));
                        assert(0 <= bad < spec_frames(whole).len());
                        assert(!frames_all_decodable::<T>(spec_frames(whole)));
                    }
                    malformed = true;
                    break ;
                },
            }
        }
        if malformed {
            buffer.data = Vec::new();
            return Err(ReadError::MalformedPayload);
        }
                proof {
            assert(spec_frames_rest(whole) == whole.skip(idx as int));
        }
        let tail = data.split_off(idx);
        buffer.data = tail;
        proof {
            assert forall|k: int| 0 <= k < out@.len() implies T::enc_valid(#[trigger] out@[k]@)
                && T::spec_enc(out@[k]@) == spec_frames(whole)[k] by {
                assert(spec_frames(whole)[k] == spec_msg_encs(out@)[k]);
            }
        }
        Ok(out)
    }
}

impl<T: Message> ReceiveBuffer<T> {
    /// A decoder with an empty buffer.
    pub fn new() -> (r: Self)
        ensures
            r@ == Seq::<u8>::empty(),
    {
        ReceiveBuffer { data: Vec::new(), _msg: PhantomData }
    }

    /// Begins one read transaction, moving the buffered bytes into it.
    pub fn start_read(&mut self) -> (r: ReceiveBufferRead<T>)
        ensures
            r@ == old(self)@,
            r.start() == old(self)@.len(),
            r.inv(),
            final(self)@ == Seq::<u8>::empty(),
    {
        let mut taken: Vec<u8> = Vec::new();
        core::mem::swap(&mut taken, &mut self.data);
        let start_index = taken.len();
        ReceiveBufferRead { data: taken, start_index, _msg: PhantomData }
    }

    /// Feeds the bytes of one transport read and decodes every complete
    /// frame now buffered. An empty `chunk` means the stream has ended and
    /// is reported as such, with the buffer kept intact.
    pub fn read(&mut self, chunk: &[u8]) -> (r: Result<Vec<T>, ReadError>)
        ensures
            ({
                let whole = old(self)@ + chunk@;
                &&& (r matches Err(e) && e == ReadError::EndOfStream <==> chunk@.len() == 0)
                &&& (r matches Err(e) && e == ReadError::EndOfStream ==> final(self)@ == old(
                    self,
                )@)
                &&& (r matches Ok(msgs) ==> {
                    &&& msgs@.len() == spec_frames(whole).len()
                    &&& forall|k: int|
                        0 <= k < msgs@.len() ==> T::enc_valid(#[trigger] msgs@[k]@) && T::spec_enc(
                            msgs@[k]@,
                        ) == spec_frames(whole)[k]
                    &&& forall|k: int, v: T::V|
                        #![trigger T::spec_enc(v), spec_frames(whole)[k]]
                        0 <= k < msgs@.len() && T::enc_valid(v) && T::spec_enc(v) == spec_frames(
                            whole,
                        )[k] ==> msgs@[k]@ == v
                    &&& final(self)@ == spec_frames_rest(whole)
                })
                &&& (r matches Err(e) && e == ReadError::MalformedPayload
                    ==> !frames_all_decodable::<T>(spec_frames(whole)) && final(self)@
                    == Seq::<u8>::empty())
                &&& (chunk@.len() > 0 && frames_all_decodable::<T>(spec_frames(whole))
                    ==> r is Ok)
            }),
    {
        let mut rd = self.start_read();
        rd.data(chunk);
        rd.finish(self)
    }
}

} // verus!

