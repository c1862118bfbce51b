//! Laying out the formats.

use crate::consts::MAX_PAYLOAD_LEN;
use crate::error::{DriverError, MyError};
use crate::format::{
    chunk, frame, frame_count, lenenc_int_bytes, lenenc_text_bytes, packet_bytes, packet_frame,
    packet_frames, too_large,
};
use crate::laws::law_packet_frames;
use crate::le::{le_bytes, lemma_le_bytes_digit, lemma_le_bytes_len};
use vstd::prelude::*;
use vstd::slice::slice_subrange;

verus! {

/// The bits that make up byte `i` of `x` are digit `i` of `x` in base 256.
proof fn lemma_byte_bits(x: u64, i: u64, n: nat)
    requires
        i < n <= 8,
    ensures
        le_bytes(x as nat, n).len() == n,
        (((0xFFu64 << (i * 8) as u64) & x) >> (i * 8) as u64) as u8 == le_bytes(x as nat, n)[i as int],
{
    let shift: u64 = (i * 8) as u64;
    lemma_le_bytes_digit(x as nat, n, i as nat);
    vstd::bits::lemma_u64_shr_is_div(x, shift);
    assert((((0xFFu64 << shift) & x) >> shift) as u8 == (x >> shift) % 256) by (bit_vector)
        requires
            shift <= 56,
    ;
}

/// The low `len` bytes of `x`, least significant byte first.
fn le_uint_n(x: u64, len: usize) -> (r: Vec<u8>)
    requires
        len <= 8,
    ensures
        r@ == le_bytes(x as nat, len as nat),
{
    let mut buf: Vec<u8> = Vec::new();
    let mut offset: usize = 0;
    while offset < len
        invariant
            offset <= len <= 8,
            buf@.len() == offset,
            forall|i: int|
                0 <= i < offset ==> #[trigger] buf@[i] == le_bytes(x as nat, len as nat)[i],
        decreases len - offset,
    {
        let shift: u64 = offset as u64 * 8;
        proof {
            lemma_byte_bits(x, offset as u64, len as nat);
        }
        buf.push((((0xFFu64 << shift) & x) >> shift) as u8);
        offset += 1;
    }
    proof {
        lemma_le_bytes_len(x as nat, len as nat);
        assert(buf@ =~= le_bytes(x as nat, len as nat));
    }
    buf
}

/// One frame around a payload that fits in it.
fn encode_frame(payload: &[u8], seq_id: u8) -> (r: Vec<u8>)
    requires
        payload@.len() <= MAX_PAYLOAD_LEN,
    ensures
        r@ == frame(payload@, seq_id),
{
    let mut writer: Vec<u8> = le_uint_n(payload.len() as u64, 3);
    writer.push(seq_id);
    writer.extend_from_slice(payload);
    assert(writer@ =~= frame(payload@, seq_id));
    writer
}

/// What to do with a packet that is being sent.
pub enum SendStep<'a, E> {
    /// Send these bytes, and step on from `rest` with how that went. `more` tells
    /// whether another frame follows.
    Frame { bytes: Vec<u8>, more: bool, rest: PacketWriter<'a> },
    /// Send nothing more. This is the sequence id that follows the packet, or
    /// the error that ended it.
    Done(Result<u8, E>),
}

/// A packet of which some frames have been handed out to be sent. Its sequence ids
/// go round.
pub struct PacketWriter<'a> {
    data: &'a [u8],
    seq_id: u8,
    sent: usize,
}

impl<'a> PacketWriter<'a> {
    /// The payload of the packet.
    pub closed spec fn data(self) -> Seq<u8> {
        self.data@
    }

    /// The sequence id of the first frame.
    pub closed spec fn seq_id(self) -> u8 {
        self.seq_id
    }

    /// How many frames have been handed out.
    pub closed spec fn sent(self) -> nat {
        self.sent as nat
    }

    #[verifier::type_invariant]
    spec fn valid(self) -> bool {
        self.sent <= frame_count(self.data@.len())
    }

    /// `step` is what comes after the last frame was sent with this `outcome`:
    /// the next frame whole, the end of the packet, or the error.
    pub open spec fn answers<E>(self, outcome: Result<(), E>, step: SendStep<'a, E>) -> bool {
        let count = frame_count(self.data().len());
        match outcome {
            Err(e) => step == SendStep::<'a, E>::Done(Err(e)),
            Ok(()) => if self.sent() < count {
                &&& step matches SendStep::Frame { bytes, more, rest }
                &&& bytes@ == packet_frame(self.data(), self.seq_id(), self.sent())
                &&& more == (self.sent() + 1 < count)
                &&& rest.data() == self.data()
                &&& rest.seq_id() == self.seq_id()
                &&& rest.sent() == self.sent() + 1
            } else {
                step matches SendStep::Done(Ok(next)) && next == (self.seq_id() + count) % 256
            },
        }
    }

    /// A packet of `data` whose first frame carries `seq_id`, none of it sent.
    pub fn new(data: &'a [u8], seq_id: u8, max_allowed_packet: usize) -> (r: Result<Self, MyError>)
        ensures
            r is Err <==> data@.len() > max_allowed_packet && max_allowed_packet < 16_777_215,
            too_large(data@.len(), max_allowed_packet) ==> r == Err::<Self, MyError>(
                MyError::MyDriverError(DriverError::PacketTooLarge),
            ),
            !too_large(data@.len(), max_allowed_packet) ==> {
                &&& r matches Ok(packet)
                &&& packet.data() == data@
                &&& packet.seq_id() == seq_id
                &&& packet.sent() == 0
            },
    {
        if data.len() > max_allowed_packet && max_allowed_packet < MAX_PAYLOAD_LEN {
            return Err(MyError::MyDriverError(DriverError::PacketTooLarge));
        }
        Ok(PacketWriter { data, seq_id, sent: 0 })
    }

    /// Tells what to do after the last frame was sent with this `outcome`, which
    /// is a success before the first one. A failure ends the packet.
    pub fn step<E>(self, outcome: Result<(), E>) -> (r: SendStep<'a, E>)
        ensures
            self.answers(outcome, r),
    {
        proof {
            use_type_invariant(&self);
        }
        if let Err(e) = outcome {
            return SendStep::Done(Err(e));
        }
        let id: u8 = self.seq_id.wrapping_add((self.sent % 256) as u8);
        let last: usize = self.data.len() / MAX_PAYLOAD_LEN;
        let i: usize = self.sent;
        if i > last {
            return SendStep::Done(Ok(id));
        }
        let from: usize = i * MAX_PAYLOAD_LEN;
        let to: usize = if i < last {
            from + MAX_PAYLOAD_LEN
        } else {
            self.data.len()
        };
        let payload: &[u8] = slice_subrange(self.data, from, to);
        assert(payload@ =~= chunk(self.data@, i as nat));
        let rest: PacketWriter<'a> = PacketWriter {
            data: self.data,
            seq_id: self.seq_id,
            sent: self.sent + 1,
        };
        SendStep::Frame { bytes: encode_frame(payload, id), more: i < last, rest }
    }
}

/// Lays out the formats of the protocol at the end of a buffer. Memory takes
/// every byte, so none of this fails for want of room.
pub trait Write: Sized {
    /// What has been written.
    spec fn written(&self) -> Seq<u8>;

    /// Appends `bytes`.
    fn put(&mut self, bytes: &[u8])
        ensures
            final(self).written() == old(self).written() + bytes@,
    ;

    /// Writes the low `len` bytes of `x`, least significant byte first.
    fn write_le_uint_n(&mut self, x: u64, len: usize) -> (r: Result<(), std::io::Error>)
        requires
            len <= 8,
        ensures
            r is Ok,
            final(self).written() == old(self).written() + le_bytes(x as nat, len as nat),
    {
        let buf: Vec<u8> = le_uint_n(x, len);
        self.put(buf.as_slice());
        Ok(())
    }

    /// Writes a length-encoded integer.
    fn write_lenenc_int(&mut self, x: u64) -> (r: Result<(), std::io::Error>)
        ensures
            r is Ok,
            final(self).written() == old(self).written() + lenenc_int_bytes(x as nat),
    {
        if x < 251 {
            let head: [u8; 1] = [x as u8];
            assert(head@ =~= lenenc_int_bytes(x as nat));
            self.put(head.as_slice());
            return Ok(());
        }
        let tag: u8;
        let len: usize;
        if x < 65_536 {
            tag = 0xFC;
            len = 2;
        } else if x < 16_777_216 {
            tag = 0xFD;
            len = 3;
        } else {
            tag = 0xFE;
            len = 8;
        }
        let ghost before = self.written();
        let head: [u8; 1] = [tag];
        assert(head@ =~= seq![tag]);
        self.put(head.as_slice());
        assert((before + seq![tag]) + le_bytes(x as nat, len as nat) =~= before + (seq![tag]
            + le_bytes(x as nat, len as nat)));
        self.write_le_uint_n(x, len)
    }

    /// Writes a length-encoded string.
    fn write_lenenc_bytes(&mut self, bytes: &[u8]) -> (r: Result<(), std::io::Error>)
        ensures
            r is Ok,
            final(self).written() == old(self).written() + lenenc_text_bytes(bytes@),
    {
        let ghost before = self.written();
        let r = self.write_lenenc_int(bytes.len() as u64);
        self.put(bytes);
        assert(self.written() =~= before + lenenc_text_bytes(bytes@));
        r
    }

    /// Writes `data` as a packet whose first frame carries `seq_id`, and returns
    /// the sequence id that follows the last frame. The ids of one packet may not
    /// go round.
    fn write_packet(&mut self, data: &[u8], seq_id: u8, max_allowed_packet: usize) -> (r: Result<
        u8,
        MyError,
    >)
        requires
            !too_large(data@.len(), max_allowed_packet) ==> seq_id + frame_count(data@.len())
                <= u8::MAX,
        ensures
            r is Err <==> data@.len() > max_allowed_packet && max_allowed_packet < 16_777_215,
            r matches Ok(next) ==> next == seq_id + data@.len() / 16_777_215 + 1,
            too_large(data@.len(), max_allowed_packet) ==> {
                &&& r == Err::<u8, MyError>(MyError::MyDriverError(DriverError::PacketTooLarge))
                &&& *final(self) == *old(self)
            },
            !too_large(data@.len(), max_allowed_packet) ==> {
                &&& r matches Ok(next) && next == seq_id + frame_count(data@.len())
                &&& final(self).written() == old(self).written() + packet_bytes(data@, seq_id)
            },
    {
        let ghost frames = packet_frames(data@, seq_id);
        let mut packet: PacketWriter = match PacketWriter::new(data, seq_id, max_allowed_packet) {
            Ok(packet) => packet,
            Err(e) => return Err(e),
        };
        assert(frames.take(0).flatten() =~= Seq::empty());
        loop
            invariant
                packet.data() == data@,
                packet.seq_id() == seq_id,
                packet.sent() <= frames.len(),
                seq_id + frames.len() <= u8::MAX,
                frames == packet_frames(data@, seq_id),
                self.written() == old(self).written() + frames.take(
                    packet.sent() as int,
                ).flatten(),
                !too_large(data@.len(), max_allowed_packet),
            decreases frames.len() - packet.sent(),
        {
            let ghost i = packet.sent() as int;
            match packet.step(Ok(())) {
                SendStep::Frame { bytes, rest, .. } => {
                    self.put(bytes.as_slice());
                    proof {
                        assert(frames.take(i + 1) =~= frames.take(i).push(frames[i]));
                        frames.take(i).lemma_flatten_push(frames[i]);
                        assert(self.written() =~= old(self).written() + frames.take(
                            i + 1,
                        ).flatten());
                    }
                    packet = rest;
                },
                SendStep::Done(r) => {
                    proof {
                        assert(frames.take(i) =~= frames);
                        law_packet_frames(data@, seq_id);
                    }
                    return r;
                },
            }
        }
    }
}

impl Write for Vec<u8> {
    open spec fn written(&self) -> Seq<u8> {
        self@
    }

    fn put(&mut self, bytes: &[u8]) {
        self.extend_from_slice(bytes);
        assert(self@ =~= old(self)@ + bytes@);
    }
}

} // verus!
