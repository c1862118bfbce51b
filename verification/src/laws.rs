//! What holds of the formats: what was written is read back, a read looks at no
//! more than it consumes, and what is cut short is never taken for whole.

use crate::consts::{ColumnType, MAX_PAYLOAD_LEN};
use crate::error::{ErrorKind, IoError};
use crate::format::{
    bin_value, chunk, date, field, frame, frame_count, front_frame, has_field, lacking, lenenc_int,
    lenenc_int_bytes, lenenc_tail, lenenc_text, lenenc_text_bytes, next_id, number, number_width,
    packet, packet_bytes, packet_frame, packet_frames, text_end, time, Cut, Parsed, ParsedFrame,
    ParsedPacket,
};
use crate::le::{
    law_le_decode_encode, law_le_encode_decode, le_bytes, le_nat, lemma_le_bytes_len,
};
use crate::read::{advanced, ran_out};
use crate::source::ByteSource;
use crate::stream::{tls_files, Stream, TcpStream, TlsFile};
use crate::value::{FloatBits, Value, ValueView};
use crate::write::{PacketWriter, SendStep, Write};
use vstd::arithmetic::power2::{lemma2_to64, lemma2_to64_rest};
use vstd::prelude::*;

verus! {

/// A stream that ends inside a string or a payload is an error of its own, with a
/// message that says which; one that ends inside any other field is a plain end
/// of file.
pub proof fn law_cut_errors(cut: Cut, missing: nat)
    ensures
        ({
            let e = cut.error(false, missing);
            match cut {
                Cut::Field => e.spec_kind() == ErrorKind::UnexpectedEof && e.spec_message() is None,
                Cut::Text => e.spec_kind() == ErrorKind::Other && e.spec_message() == Some(
                    "Unexpected EOF while reading length encoded string"@,
                ),
                Cut::Payload => e.spec_kind() == ErrorKind::Other && e.spec_message() == Some(
                    "Unexpected EOF while reading packet"@,
                ),
            }
        }),
{
}

/// While a stream is open, whatever part it ran out in, the error tells how many
/// bytes are missing.
pub proof fn law_missing(cut: Cut, missing: u64)
    ensures
        cut.error(true, missing as nat) == IoError::Missing(missing),
{
}

/// Each error has the message and the kind of what went wrong.
pub proof fn law_messages(missing: u64)
    ensures
        IoError::StringEof.spec_message() == Some(
            "Unexpected EOF while reading length encoded string"@,
        ),
        IoError::PacketEof.spec_message() == Some("Unexpected EOF while reading packet"@),
        IoError::UnexpectedEof.spec_message() is None,
        IoError::Missing(missing).spec_message() is None,
        IoError::StringEof.spec_kind() == ErrorKind::Other,
        IoError::PacketEof.spec_kind() == ErrorKind::Other,
        IoError::UnexpectedEof.spec_kind() == ErrorKind::UnexpectedEof,
        IoError::Missing(missing).spec_kind() == ErrorKind::UnexpectedEof,
{
}

/// A source that moved on by `k` bytes has lost the first `k`, and the others are
/// pending in the same order.
pub proof fn law_advanced<S: ByteSource>(before: &S, after: &S, k: nat)
    requires
        advanced(before, after, k),
        k <= before.pending().len(),
    ensures
        after.pending().len() + k == before.pending().len(),
        forall|i: int|
            0 <= i < after.pending().len() ==> #[trigger] after.pending()[i] == before.pending()[k
                + i],
        after.open() == before.open(),
{
}

/// A source that ran out has nothing left. The error is the one of the part it ran
/// out in, if the stream has ended, and otherwise tells how many bytes are missing.
pub proof fn law_ran_out<S: ByteSource, T>(
    before: &S,
    after: &S,
    cut: Cut,
    missing: u64,
    r: Result<T, IoError>,
)
    requires
        ran_out(before, after, cut, missing as nat, r),
    ensures
        after.pending().len() == 0,
        after.open() == before.open(),
        before.open() ==> r == Err::<T, IoError>(IoError::Missing(missing)),
        !before.open() ==> match cut {
            Cut::Field => r == Err::<T, IoError>(IoError::UnexpectedEof),
            Cut::Text => r == Err::<T, IoError>(IoError::StringEof),
            Cut::Payload => r == Err::<T, IoError>(IoError::PacketEof),
        },
{
}

/// A slice is read from its first byte to its last and has ended there; a vector
/// is written to its end.
pub proof fn law_memory(source: &[u8], target: &Vec<u8>)
    ensures
        source.pending().len() == source@.len(),
        forall|i: int| 0 <= i < source@.len() ==> #[trigger] source.pending()[i] == source@[i],
        !source.open(),
        target.written().len() == target@.len(),
        forall|i: int| 0 <= i < target@.len() ==> #[trigger] target.written()[i] == target@[i],
{
}

/// A value stands for what it holds: the same number, the same bytes, the same
/// bits, and each part of a date or a time in its place.
pub proof fn law_views(v: Value)
    ensures
        (match v {
            Value::NULL => v@ == ValueView::NULL,
            Value::Bytes(bytes) => v@ == ValueView::Bytes(bytes@),
            Value::Int(i) => v@ == ValueView::Int(i as int),
            Value::UInt(u) => v@ == ValueView::UInt(u as nat),
            Value::Float(FloatBits::Single(bits)) => v@ == ValueView::Single(bits as nat),
            Value::Float(FloatBits::Double(bits)) => v@ == ValueView::Double(bits as nat),
            Value::Date(y, mo, d, h, mi, s, us) => v@ == ValueView::Date(
                y as nat,
                mo,
                d,
                h,
                mi,
                s,
                us as nat,
            ),
            Value::Time(neg, d, h, mi, s, us) => v@ == ValueView::Time(
                neg,
                d as nat,
                h,
                mi,
                s,
                us as nat,
            ),
        }),
{
}

/// A length-encoded integer is read back as it was written, whatever follows.
pub proof fn law_lenenc_int_round_trip(x: u64, rest: Seq<u8>)
    ensures
        lenenc_int(lenenc_int_bytes(x as nat) + rest) == Parsed::Done(
            x as nat,
            lenenc_int_bytes(x as nat).len(),
        ),
{
    lemma2_to64();
    lemma2_to64_rest();
    let bytes = lenenc_int_bytes(x as nat);
    let s = bytes + rest;
    if x >= 251 {
        let width: nat = lenenc_tail(bytes[0]);
        lemma_le_bytes_len(x as nat, width);
        law_le_encode_decode(x as nat, width);
        assert(field(s, 1, width) =~= le_bytes(x as nat, width));
    }
}

/// A length-encoded string is read back as it was written, whatever follows.
pub proof fn law_lenenc_text_round_trip(text: Seq<u8>, rest: Seq<u8>)
    requires
        text.len() <= u64::MAX,
    ensures
        lenenc_text(lenenc_text_bytes(text) + rest) == Parsed::Done(
            text,
            lenenc_text_bytes(text).len(),
        ),
{
    let head = lenenc_int_bytes(text.len());
    let s = lenenc_text_bytes(text) + rest;
    law_lenenc_int_round_trip(text.len() as u64, text + rest);
    assert(s =~= head + (text + rest));
    assert(field(s, head.len(), text.len()) =~= text);
}

/// Of all layouts that are read as `x`, the one that is written is the shortest,
/// but for the two that consist of a head byte that is never written.
pub proof fn law_lenenc_int_shortest(s: Seq<u8>)
    requires
        s.len() > 0,
        s[0] != 0xfb && s[0] != 0xff,
    ensures
        lenenc_int(s) matches Parsed::Done(x, k) ==> lenenc_int_bytes(x).len() <= k,
{
    if let Parsed::Done(x, k) = lenenc_int(s) {
        lemma2_to64();
        lemma_le_bytes_len(x, 2);
        lemma_le_bytes_len(x, 3);
        lemma_le_bytes_len(x, 8);
        let width = lenenc_tail(s[0]);
        if width > 0 {
            law_le_decode_encode(field(s, 1, width));
        }
    }
}

/// Reading a length-encoded integer consumes no more than there is and looks at
/// no more than it consumes.
pub proof fn law_lenenc_int_prefix(s: Seq<u8>, t: Seq<u8>)
    ensures
        lenenc_int(s) matches Parsed::Done(x, k) ==> 0 < k <= s.len() && lenenc_int(
            s.take(k as int) + t,
        ) == Parsed::Done(x, k),
{
    if let Parsed::Done(x, k) = lenenc_int(s) {
        let width = lenenc_tail(s[0]);
        assert(field(s.take(k as int) + t, 1, width) =~= field(s, 1, width));
    }
}

/// Reading a length-encoded string consumes no more than there is and looks at
/// no more than it consumes.
pub proof fn law_lenenc_text_prefix(s: Seq<u8>, t: Seq<u8>)
    ensures
        lenenc_text(s) matches Parsed::Done(x, k) ==> 0 < k <= s.len() && lenenc_text(
            s.take(k as int) + t,
        ) == Parsed::Done(x, k),
{
    if let Parsed::Done(x, k) = lenenc_text(s) {
        let len = x.len();
        let at = (k - len) as nat;
        law_lenenc_int_prefix(s, s.subrange(at as int, k as int) + t);
        assert(s.take(at as int) + (s.subrange(at as int, k as int) + t) =~= s.take(k as int) + t);
        assert(field(s.take(k as int) + t, at, len) =~= field(s, at, len));
    }
}

/// While bytes are missing to a length-encoded integer, fewer do not do, and no
/// more than those are taken from what follows it.
pub proof fn law_lenenc_int_fetch(s: Seq<u8>, t: Seq<u8>)
    ensures
        lenenc_int(s) matches Parsed::Short(cut, missing) ==> {
            &&& 0 < missing
            &&& t.len() < missing ==> lenenc_int(s + t) == Parsed::<nat>::Short(
                cut,
                (missing - t.len()) as nat,
            )
            &&& t.len() == missing ==> (lenenc_int(s + t) matches Parsed::Done(x, k) ==> k == s.len()
                + t.len())
        },
{
}

/// While bytes are missing to a length-encoded string, fewer do not do, and no
/// more than those are taken from what follows it.
pub proof fn law_lenenc_text_fetch(s: Seq<u8>, t: Seq<u8>)
    ensures
        lenenc_text(s) matches Parsed::Short(cut, missing) ==> {
            &&& 0 < missing
            &&& t.len() < missing ==> lenenc_text(s + t) == Parsed::<Seq<u8>>::Short(
                cut,
                (missing - t.len()) as nat,
            )
            &&& t.len() == missing ==> (lenenc_text(s + t) matches Parsed::Done(x, k) ==> k
                == s.len() + t.len())
        },
{
    law_lenenc_int_fetch(s, t);
    if let Parsed::Done(len, at) = lenenc_int(s) {
        law_lenenc_int_prefix(s, s.skip(at as int) + t);
        assert(s.take(at as int) + (s.skip(at as int) + t) =~= s + t);
    }
}

/// A length-encoded integer cut short is noticed.
pub proof fn law_lenenc_int_truncated(x: u64, n: nat)
    requires
        n < lenenc_int_bytes(x as nat).len(),
    ensures
        lenenc_int(lenenc_int_bytes(x as nat).take(n as int)) matches Parsed::Short(
            Cut::Field,
            missing,
        ) && 0 < missing <= lenenc_int_bytes(x as nat).len() - n,
{
    let bytes = lenenc_int_bytes(x as nat);
    law_lenenc_int_round_trip(x, Seq::empty());
    assert(bytes + Seq::empty() =~= bytes);
    if let Parsed::Done(y, k) = lenenc_int(bytes.take(n as int)) {
        law_lenenc_int_prefix(bytes.take(n as int), bytes.skip(k as int));
        assert(bytes.take(n as int).take(k as int) + bytes.skip(k as int) =~= bytes);
    }
}

/// A length-encoded string cut short is noticed: in its length as a field that
/// is missing, and after that as text that is missing.
pub proof fn law_lenenc_text_truncated(text: Seq<u8>, n: nat)
    requires
        text.len() <= u64::MAX,
        n < lenenc_text_bytes(text).len(),
    ensures
        n < lenenc_int_bytes(text.len()).len() ==> (lenenc_text(
            lenenc_text_bytes(text).take(n as int),
        ) matches Parsed::Short(Cut::Field, _)),
        n >= lenenc_int_bytes(text.len()).len() ==> lenenc_text(
            lenenc_text_bytes(text).take(n as int),
        ) == Parsed::<Seq<u8>>::Short(
            Cut::Text,
            (lenenc_text_bytes(text).len() - n) as nat,
        ),
{
    let head = lenenc_int_bytes(text.len());
    let bytes = lenenc_text_bytes(text);
    if n < head.len() {
        law_lenenc_int_truncated(text.len() as u64, n);
        assert(bytes.take(n as int) =~= head.take(n as int));
    } else {
        law_lenenc_int_round_trip(text.len() as u64, text.take(n - head.len()));
        assert(bytes.take(n as int) =~= head + text.take(n - head.len()));
    }
}

/// The text before the terminator is all that comes before the first zero byte.
pub proof fn law_text_end_first(s: Seq<u8>)
    ensures
        text_end(s) <= s.len(),
        forall|i: int| 0 <= i < text_end(s) ==> s[i] != 0,
        text_end(s) < s.len() ==> s[text_end(s) as int] == 0,
    decreases s.len(),
{
    if s.len() > 0 && s[0] != 0 {
        let t = s.skip(1);
        law_text_end_first(t);
        assert forall|i: int| 0 <= i < text_end(s) implies s[i] != 0 by {
            if i > 0 {
                assert(s[i] == t[i - 1]);
            }
        }
    }
}

/// A text without a zero byte, with one behind it, is read back, whatever
/// follows.
pub proof fn law_null_text_round_trip(text: Seq<u8>, rest: Seq<u8>)
    requires
        forall|i: int| 0 <= i < text.len() ==> text[i] != 0,
    ensures
        text_end(text + seq![0u8] + rest) == text.len(),
        (text + seq![0u8] + rest).take(text.len() as int) == text,
{
    let s = text + seq![0u8] + rest;
    law_text_end_first(s);
    assert(s[text.len() as int] == 0);
    if text_end(s) < text.len() {
        assert(s[text_end(s) as int] == text[text_end(s) as int]);
    }
    assert(s.take(text.len() as int) =~= text);
}

/// While no zero byte has come, one more byte is missing to a text: it is the
/// terminator, or more of the text.
pub proof fn law_null_text_fetch(s: Seq<u8>, c: u8)
    requires
        text_end(s) == s.len(),
    ensures
        text_end(s.push(c)) == if c == 0 {
            s.len()
        } else {
            s.len() + 1
        },
    decreases s.len(),
{
    reveal_with_fuel(text_end, 2);
    if s.len() > 0 {
        law_null_text_fetch(s.skip(1), c);
        assert(s.push(c).skip(1) =~= s.skip(1).push(c));
    }
}

/// Reading a date looks at no more than it consumes.
proof fn lemma_date_prefix(s: Seq<u8>, t: Seq<u8>)
    ensures
        date(s) matches Parsed::Done(x, k) ==> k <= s.len() && date(s.take(k as int) + t)
            == Parsed::Done(x, k),
{
    if let Parsed::Done(x, k) = date(s) {
        let u = s.take(k as int) + t;
        assert(forall|i: int| 0 <= i < k ==> u[i] == s[i]);
        if k >= 3 {
            assert(field(u, 1, 2) =~= field(s, 1, 2));
        }
        if k >= 12 {
            assert(field(u, 8, 4) =~= field(s, 8, 4));
        }
    }
}

/// Reading a time looks at no more than it consumes.
proof fn lemma_time_prefix(s: Seq<u8>, t: Seq<u8>)
    ensures
        time(s) matches Parsed::Done(x, k) ==> k <= s.len() && time(s.take(k as int) + t)
            == Parsed::Done(x, k),
{
    if let Parsed::Done(x, k) = time(s) {
        let u = s.take(k as int) + t;
        assert(forall|i: int| 0 <= i < k ==> u[i] == s[i]);
        if k >= 6 {
            assert(field(u, 2, 4) =~= field(s, 2, 4));
        }
        if k >= 13 {
            assert(field(u, 9, 4) =~= field(s, 9, 4));
        }
    }
}

/// Reading a number looks at no more than it consumes.
proof fn lemma_number_prefix(col_type: ColumnType, unsigned: bool, s: Seq<u8>, t: Seq<u8>)
    ensures
        number(col_type, unsigned, s) matches Parsed::Done(x, k) ==> k <= s.len() && number(
            col_type,
            unsigned,
            s.take(k as int) + t,
        ) == Parsed::Done(x, k),
{
    let width = number_width(col_type);
    if has_field(s, 0, width) {
        assert(field(s.take(width as int) + t, 0, width) =~= field(s, 0, width));
    }
}

/// Reading a value consumes no more than there is and looks at no more than it
/// consumes.
pub proof fn law_bin_value_prefix(col_type: ColumnType, unsigned: bool, s: Seq<u8>, t: Seq<u8>)
    ensures
        bin_value(col_type, unsigned, s) matches Parsed::Done(x, k) ==> k <= s.len() && bin_value(
            col_type,
            unsigned,
            s.take(k as int) + t,
        ) == Parsed::Done(x, k),
{
    lemma_date_prefix(s, t);
    lemma_time_prefix(s, t);
    lemma_number_prefix(col_type, unsigned, s, t);
    law_lenenc_text_prefix(s, t);
}

/// While bytes are missing to a value, fewer do not do, and no more than those
/// are taken from what follows it.
pub proof fn law_bin_value_fetch(col_type: ColumnType, unsigned: bool, s: Seq<u8>, t: Seq<u8>)
    ensures
        bin_value(col_type, unsigned, s) matches Parsed::Short(cut, missing) ==> {
            &&& 0 < missing
            &&& t.len() < missing ==> bin_value(col_type, unsigned, s + t) == Parsed::<
                ValueView,
            >::Short(cut, (missing - t.len()) as nat)
            &&& t.len() == missing ==> (bin_value(col_type, unsigned, s + t) matches Parsed::Done(
                x,
                k,
            ) ==> k == s.len() + t.len())
        },
{
    law_lenenc_text_fetch(s, t);
}

/// A packet takes its payload and a header of four bytes for each frame.
pub proof fn law_packet_len(data: Seq<u8>, seq_id: u8)
    ensures
        packet_bytes(data, seq_id).len() == data.len() + 4 * frame_count(data.len()),
    decreases data.len(),
{
    lemma_le_bytes_len(data.len(), 3);
    lemma_le_bytes_len(MAX_PAYLOAD_LEN as nat, 3);
    if data.len() >= MAX_PAYLOAD_LEN {
        law_packet_len(data.skip(MAX_PAYLOAD_LEN as int), next_id(seq_id));
    }
}

/// The parts of a frame are found where they were put.
proof fn lemma_frame_fields(payload: Seq<u8>, seq_id: u8, rest: Seq<u8>)
    requires
        payload.len() <= MAX_PAYLOAD_LEN,
    ensures
        ({
            let s = frame(payload, seq_id) + rest;
            &&& frame(payload, seq_id).len() == 4 + payload.len()
            &&& le_nat(field(s, 0, 3)) == payload.len()
            &&& s[3] == seq_id
            &&& field(s, 4, payload.len()) == payload
            &&& s.skip(4 + payload.len() as int) == rest
        }),
{
    lemma2_to64();
    lemma_le_bytes_len(payload.len(), 3);
    law_le_encode_decode(payload.len(), 3);
    let s = frame(payload, seq_id) + rest;
    assert(field(s, 0, 3) =~= le_bytes(payload.len(), 3));
    assert(field(s, 4, payload.len()) =~= payload);
    assert(s.skip(4 + payload.len() as int) =~= rest);
}

/// A frame is read back as it was laid out, whatever follows.
pub proof fn law_frame_round_trip(payload: Seq<u8>, seq_id: u8, rest: Seq<u8>)
    requires
        payload.len() <= MAX_PAYLOAD_LEN,
    ensures
        front_frame(frame(payload, seq_id) + rest, seq_id) == ParsedFrame::Whole(payload),
        frame(payload, seq_id).len() == 4 + payload.len(),
{
    lemma_frame_fields(payload, seq_id, rest);
}

/// Reading a frame consumes no more than there is and looks at no more than it
/// consumes: the frame, or its header where that is out of sync.
pub proof fn law_frame_prefix(s: Seq<u8>, seq_id: u8, t: Seq<u8>)
    ensures
        front_frame(s, seq_id) matches ParsedFrame::Whole(payload) ==> 4 + payload.len() <= s.len()
            && front_frame(s.take(4 + payload.len() as int) + t, seq_id) == front_frame(s, seq_id),
        front_frame(s, seq_id) is OutOfSync ==> 4 <= s.len() && front_frame(
            s.take(4) + t,
            seq_id,
        ) is OutOfSync,
{
    if let ParsedFrame::Whole(payload) = front_frame(s, seq_id) {
        let u = s.take(4 + payload.len() as int) + t;
        assert(field(u, 0, 3) =~= field(s, 0, 3));
        assert(field(u, 4, payload.len()) =~= field(s, 4, payload.len()));
    }
}

/// While bytes are missing to a frame, fewer do not do, and no more than those
/// are taken from what follows it, or from what follows its header where that is
/// out of sync.
pub proof fn law_frame_fetch(s: Seq<u8>, seq_id: u8, t: Seq<u8>)
    ensures
        front_frame(s, seq_id) matches ParsedFrame::Short(cut, missing) ==> {
            &&& 0 < missing
            &&& t.len() < missing ==> front_frame(s + t, seq_id) == ParsedFrame::Short(
                cut,
                (missing - t.len()) as nat,
            )
            &&& t.len() == missing ==> match front_frame(s + t, seq_id) {
                ParsedFrame::Whole(payload) => 4 + payload.len() == s.len() + t.len(),
                ParsedFrame::OutOfSync => 4 == s.len() + t.len(),
                ParsedFrame::Short(..) => true,
            }
        },
{
    if has_field(s, 0, 4) {
        assert(field(s + t, 0, 3) =~= field(s, 0, 3));
    }
}

/// The frames of a packet, one after the other, are the packet.
pub proof fn law_packet_frames(data: Seq<u8>, seq_id: u8)
    ensures
        packet_frames(data, seq_id).flatten() == packet_bytes(data, seq_id),
    decreases data.len(),
{
    let frames = packet_frames(data, seq_id);
    if data.len() < MAX_PAYLOAD_LEN {
        assert(chunk(data, 0) =~= data);
        frames.lemma_flatten_one_element();
    } else {
        let tail = data.skip(MAX_PAYLOAD_LEN as int);
        let more = packet_frames(tail, next_id(seq_id));
        assert(chunk(data, 0) =~= data.take(MAX_PAYLOAD_LEN as int));
        assert forall|i: int| 0 <= i < more.len() implies frames[i + 1] == more[i] by {
            assert(chunk(data, (i + 1) as nat) =~= chunk(tail, i as nat));
        }
        assert(frames.drop_first() =~= more);
        law_packet_frames(tail, next_id(seq_id));
    }
}

/// A packet is read back as it was written, whatever follows, and reader and
/// writer agree on the sequence id that comes next.
#[verifier::rlimit(40)]
pub proof fn law_packet_round_trip(data: Seq<u8>, seq_id: u8, rest: Seq<u8>)
    ensures
        packet(packet_bytes(data, seq_id) + rest, seq_id) == (ParsedPacket::Whole {
            payload: data,
            consumed: packet_bytes(data, seq_id).len(),
            next: ((seq_id + frame_count(data.len())) % 256) as u8,
        }),
    decreases data.len(),
{
    let s = packet_bytes(data, seq_id) + rest;
    if data.len() < MAX_PAYLOAD_LEN {
        lemma_frame_fields(data, seq_id, rest);
    } else {
        let head = data.take(MAX_PAYLOAD_LEN as int);
        let tail = data.skip(MAX_PAYLOAD_LEN as int);
        let more = packet_bytes(tail, next_id(seq_id));
        lemma_frame_fields(head, seq_id, more + rest);
        law_packet_round_trip(tail, next_id(seq_id), rest);
        assert(s =~= frame(head, seq_id) + (more + rest));
        assert(data =~= head + tail);
    }
}

/// The bytes that are read as a packet are those that its payload is written as.
pub proof fn law_packet_canonical(s: Seq<u8>, seq_id: u8)
    ensures
        packet(s, seq_id) matches ParsedPacket::Whole { payload, consumed, next } ==> {
            &&& 4 <= consumed <= s.len()
            &&& s.take(consumed as int) == packet_bytes(payload, seq_id)
            &&& next == ((seq_id + frame_count(payload.len())) % 256) as u8
        },
    decreases s.len(),
{
    if let ParsedPacket::Whole { payload, consumed, next } = packet(s, seq_id) {
        lemma2_to64();
        let len = le_nat(field(s, 0, 3));
        law_le_decode_encode(field(s, 0, 3));
        let head = field(s, 4, len);
        assert(s.take(4 + len as int) =~= frame(head, seq_id));
        if len == MAX_PAYLOAD_LEN {
            let t = s.skip((4 + len) as int);
            law_packet_canonical(t, next_id(seq_id));
            let tail = payload.skip(MAX_PAYLOAD_LEN as int);
            assert(payload.take(MAX_PAYLOAD_LEN as int) =~= head);
            if let ParsedPacket::Whole { payload: p, consumed: c, next: n } = packet(
                t,
                next_id(seq_id),
            ) {
                assert(tail =~= p);
                assert(s.take(consumed as int) =~= s.take(4 + len as int) + t.take(c as int));
            }
        }
    }
}

/// Reading a packet consumes no more than there is and looks at no more than it
/// consumes.
pub proof fn law_packet_prefix(s: Seq<u8>, seq_id: u8, t: Seq<u8>)
    ensures
        packet(s, seq_id) matches ParsedPacket::Whole { payload, consumed, next } ==> consumed
            <= s.len() && packet(s.take(consumed as int) + t, seq_id) == packet(s, seq_id),
        packet(s, seq_id) matches ParsedPacket::OutOfSync { consumed } ==> consumed <= s.len()
            && packet(s.take(consumed as int) + t, seq_id) == packet(s, seq_id),
    decreases s.len(),
{
    if !(packet(s, seq_id) is Short) {
        let k: nat = match packet(s, seq_id) {
            ParsedPacket::Whole { payload, consumed, next } => consumed,
            ParsedPacket::OutOfSync { consumed } => consumed,
            ParsedPacket::Short(..) => 0,
        };
        let len = le_nat(field(s, 0, 3));
        if s[3] == seq_id && len == MAX_PAYLOAD_LEN {
            let after = s.skip((4 + len) as int);
            law_packet_prefix(after, next_id(seq_id), t);
            let u = s.take(k as int) + t;
            assert(u.skip((4 + len) as int) =~= after.take(k - 4 - len) + t);
            assert(field(u, 0, 3) =~= field(s, 0, 3));
            assert(field(u, 4, len) =~= field(s, 4, len));
        } else {
            let u = s.take(k as int) + t;
            assert(field(u, 0, 3) =~= field(s, 0, 3));
            if s[3] == seq_id {
                assert(field(u, 4, len) =~= field(s, 4, len));
            }
        }
    }
}

/// While bytes are missing to a packet, fewer do not do, and no more than those
/// are taken from what follows it.
pub proof fn law_packet_fetch(s: Seq<u8>, seq_id: u8, t: Seq<u8>)
    ensures
        packet(s, seq_id) matches ParsedPacket::Short(cut, missing) ==> {
            &&& 0 < missing
            &&& t.len() < missing ==> packet(s + t, seq_id) == ParsedPacket::Short(
                cut,
                (missing - t.len()) as nat,
            )
            &&& t.len() == missing ==> match packet(s + t, seq_id) {
                ParsedPacket::Whole { payload, consumed, next } => consumed == s.len() + t.len(),
                ParsedPacket::OutOfSync { consumed } => consumed == s.len() + t.len(),
                ParsedPacket::Short(..) => true,
            }
        },
    decreases s.len(),
{
    let u = s + t;
    if !has_field(s, 0, 4) {
        if t.len() == lacking(s, 0, 4) {
            assert(packet(u, seq_id) is Whole ==> packet(u, seq_id)->Whole_consumed == 4);
        }
    } else if packet(s, seq_id) is Short {
        let len = le_nat(field(s, 0, 3));
        let end = (4 + len) as int;
        assert(field(u, 0, 3) =~= field(s, 0, 3));
        assert(u[3] == s[3]);
        if has_field(s, 4, len) {
            law_packet_fetch(s.skip(end), next_id(seq_id), t);
            assert(u.skip(end) =~= s.skip(end) + t);
        } else if t.len() == lacking(s, 4, len) && len == MAX_PAYLOAD_LEN {
            assert(packet(u.skip(end), next_id(seq_id)) is Short);
            assert(packet(u, seq_id) is Short);
        }
    }
}

/// A packet cut short is noticed.
#[verifier::rlimit(40)]
pub proof fn law_packet_truncated(data: Seq<u8>, seq_id: u8, n: nat)
    requires
        n < packet_bytes(data, seq_id).len(),
    ensures
        packet(packet_bytes(data, seq_id).take(n as int), seq_id) is Short,
{
    let bytes = packet_bytes(data, seq_id);
    let s = bytes.take(n as int);
    law_packet_round_trip(data, seq_id, Seq::empty());
    assert(bytes + Seq::empty() =~= bytes);
    if !(packet(s, seq_id) is Short) {
        let k: nat = match packet(s, seq_id) {
            ParsedPacket::Whole { payload, consumed, next } => consumed,
            ParsedPacket::OutOfSync { consumed } => consumed,
            ParsedPacket::Short(..) => 0,
        };
        law_packet_prefix(s, seq_id, bytes.skip(k as int));
        assert(s.take(k as int) + bytes.skip(k as int) =~= bytes);
    }
}

/// What was written as a packet is read back by a source that is about to hand
/// out just that.
pub proof fn law_written_packet_is_read<W: Write, R: ByteSource>(
    before: &W,
    after: &W,
    source: &R,
    data: Seq<u8>,
    seq_id: u8,
)
    requires
        after.written() == before.written() + packet_bytes(data, seq_id),
        source.pending() == after.written().skip(before.written().len() as int),
    ensures
        packet(source.pending(), seq_id) == (ParsedPacket::Whole {
            payload: data,
            consumed: source.pending().len(),
            next: ((seq_id + frame_count(data.len())) % 256) as u8,
        }),
{
    law_packet_round_trip(data, seq_id, Seq::empty());
    assert(source.pending() =~= packet_bytes(data, seq_id) + Seq::empty());
}

/// A packet whose first frame carries another sequence id than the expected one
/// is out of sync, and only the header of that frame has been read.
pub proof fn law_packet_out_of_sync(data: Seq<u8>, seq_id: u8, expected: u8, rest: Seq<u8>)
    requires
        seq_id != expected,
    ensures
        packet(packet_bytes(data, seq_id) + rest, expected) == (ParsedPacket::OutOfSync {
            consumed: 4,
        }),
{
    let head = if data.len() < MAX_PAYLOAD_LEN {
        data
    } else {
        data.take(MAX_PAYLOAD_LEN as int)
    };
    lemma_le_bytes_len(head.len(), 3);
    assert(packet_bytes(data, seq_id)[3] == seq_id);
}

/// Packets written one after the other, each with the sequence id that the one
/// before left, are read back one after the other.
pub proof fn law_packets_in_a_row(a: Seq<u8>, b: Seq<u8>, seq_id: u8, rest: Seq<u8>)
    ensures
        ({
            let between = ((seq_id + frame_count(a.len())) % 256) as u8;
            let stream = packet_bytes(a, seq_id) + packet_bytes(b, between) + rest;
            &&& packet(stream, seq_id) == (ParsedPacket::Whole {
                payload: a,
                consumed: packet_bytes(a, seq_id).len(),
                next: between,
            })
            &&& packet(stream.skip(packet_bytes(a, seq_id).len() as int), between) == (
            ParsedPacket::Whole {
                payload: b,
                consumed: packet_bytes(b, between).len(),
                next: ((between + frame_count(b.len())) % 256) as u8,
            })
        }),
{
    let between = ((seq_id + frame_count(a.len())) % 256) as u8;
    let front = packet_bytes(a, seq_id);
    let back = packet_bytes(b, between);
    let stream = front + back + rest;
    assert(stream =~= front + (back + rest));
    law_packet_round_trip(a, seq_id, back + rest);
    assert(stream.skip(front.len() as int) =~= back + rest);
    law_packet_round_trip(b, between, rest);
}

/// The packet that step `i` of a transmission steps on from.
pub open spec fn packet_at<'a, E>(
    packet: PacketWriter<'a>,
    steps: Seq<SendStep<'a, E>>,
    i: int,
) -> PacketWriter<'a> {
    if i == 0 {
        packet
    } else {
        steps[i - 1]->rest
    }
}

/// A transmission of `packet`, to its end or as far as it has come: `steps[i]`
/// answers `outcomes[i]`, and every step but the last one hands out a frame.
/// `outcomes[0]` comes before the first frame, and `outcomes[i + 1]` is how
/// sending the frame of `steps[i]` went.
pub open spec fn transmission<'a, E>(
    packet: PacketWriter<'a>,
    outcomes: Seq<Result<(), E>>,
    steps: Seq<SendStep<'a, E>>,
) -> bool {
    &&& packet.sent() == 0
    &&& outcomes.len() == steps.len()
    &&& steps.len() > 0 ==> outcomes[0] is Ok
    &&& forall|i: int|
        0 <= i < steps.len() ==> packet_at(packet, steps, i).answers(
            #[trigger] outcomes[i],
            steps[i],
        )
    &&& forall|i: int| 0 <= i < steps.len() - 1 ==> #[trigger] steps[i] is Frame
}

/// The frames that are sent are those of the packet, whole and in order, and
/// each tells whether another follows.
pub proof fn law_sent_frames<'a, E>(
    packet: PacketWriter<'a>,
    outcomes: Seq<Result<(), E>>,
    steps: Seq<SendStep<'a, E>>,
    i: int,
)
    requires
        transmission(packet, outcomes, steps),
        0 <= i < steps.len(),
    ensures
        steps[i] matches SendStep::Frame { bytes, more, rest } ==> {
            let frames = packet_frames(packet.data(), packet.seq_id());
            &&& i < frames.len()
            &&& bytes@ == frames[i]
            &&& more == (i + 1 < frames.len())
            &&& rest.data() == packet.data()
            &&& rest.seq_id() == packet.seq_id()
            &&& rest.sent() == i + 1
        },
    decreases i,
{
    assert(packet_at(packet, steps, i).answers(outcomes[i], steps[i]));
    if i > 0 {
        assert(steps[i - 1] is Frame);
        law_sent_frames(packet, outcomes, steps, i - 1);
    }
}

/// If frame `j` of a packet cannot be sent, then just the frames up to that one
/// were handed out, each whole and in order; the packet ends with the error that
/// sending it failed with, and nothing is sent after it.
pub proof fn law_failed_transmission<'a, E>(
    packet: PacketWriter<'a>,
    outcomes: Seq<Result<(), E>>,
    steps: Seq<SendStep<'a, E>>,
    j: int,
    e: E,
)
    requires
        transmission(packet, outcomes, steps),
        0 <= j < steps.len() - 1,
        outcomes[j + 1] == Err::<(), E>(e),
    ensures
        steps.len() == j + 2,
        steps[j + 1] == SendStep::<'a, E>::Done(Err(e)),
        j < frame_count(packet.data().len()),
        forall|i: int|
            0 <= i <= j ==> (#[trigger] steps[i] matches SendStep::Frame { bytes, more, rest }
                && bytes@ == packet_frame(packet.data(), packet.seq_id(), i as nat)),
{
    assert(packet_at(packet, steps, j + 1).answers(outcomes[j + 1], steps[j + 1]));
    assert forall|i: int| 0 <= i <= j implies (#[trigger] steps[i] matches SendStep::Frame {
        bytes,
        more,
        rest,
    } && i < frame_count(packet.data().len()) && bytes@ == packet_frame(
        packet.data(),
        packet.seq_id(),
        i as nat,
    )) by {
        law_sent_frames(packet, outcomes, steps, i);
    }
    assert(steps[j] is Frame);
}

/// If every frame can be sent, a packet ends after all of them with the sequence
/// id that follows, and together they are the packet.
pub proof fn law_whole_transmission<'a, E>(
    packet: PacketWriter<'a>,
    outcomes: Seq<Result<(), E>>,
    steps: Seq<SendStep<'a, E>>,
)
    requires
        transmission(packet, outcomes, steps),
        steps.len() > 0,
        steps.last() is Done,
        forall|i: int| 0 <= i < outcomes.len() ==> #[trigger] outcomes[i] is Ok,
    ensures
        steps.len() == frame_count(packet.data().len()) + 1,
        steps.last() matches SendStep::Done(Ok(next)) && next == (packet.seq_id() + frame_count(
            packet.data().len(),
        )) % 256,
        Seq::new((steps.len() - 1) as nat, |i: int| steps[i]->bytes@).flatten() == packet_bytes(
            packet.data(),
            packet.seq_id(),
        ),
{
    let n = steps.len() - 1;
    let frames = packet_frames(packet.data(), packet.seq_id());
    let sent = Seq::new(n as nat, |i: int| steps[i]->bytes@);
    assert(packet_at(packet, steps, n).answers(outcomes[n], steps[n]));
    assert forall|i: int| 0 <= i < n implies sent[i] == frames[i] && i < frames.len() by {
        assert(steps[i] is Frame);
        law_sent_frames(packet, outcomes, steps, i);
    }
    if n > 0 {
        assert(steps[n - 1] is Frame);
        law_sent_frames(packet, outcomes, steps, n - 1);
        assert(sent[n - 1] == frames[n - 1]);
    }
    assert(sent =~= frames);
    law_packet_frames(packet.data(), packet.seq_id());
}

/// Only a TCP connection can be bare, and only one without a socket is incomplete.
pub proof fn law_connections<U, P, S, I>(unix: U, pipe: P, session: S, socket: I)
    ensures
        Stream::<U, P, S, I>::TcpStream(Some(TcpStream::Insecure(socket))).insecure(),
        !Stream::<U, P, S, I>::TcpStream(Some(TcpStream::Secure(session))).insecure(),
        !Stream::<U, P, S, I>::TcpStream(None).insecure(),
        !Stream::<U, P, S, I>::UnixStream(unix).insecure(),
        !Stream::<U, P, S, I>::PipeStream(pipe).insecure(),
        Stream::<U, P, S, I>::TcpStream(None).incomplete(),
        !Stream::<U, P, S, I>::TcpStream(Some(TcpStream::Insecure(socket))).incomplete(),
        !Stream::<U, P, S, I>::TcpStream(Some(TcpStream::Secure(session))).incomplete(),
        !Stream::<U, P, S, I>::UnixStream(unix).incomplete(),
        !Stream::<U, P, S, I>::PipeStream(pipe).incomplete(),
        TcpStream::<S, I>::Secure(session).spec_label() == "Secure stream"@,
        TcpStream::<S, I>::Insecure(socket).spec_label() == "Insecure stream"@,
{
}

/// The authority is loaded first; a client that shows a certificate loads that
/// next, and then its key.
pub proof fn law_tls_files<T>(ca: T, cert: T, key: T)
    ensures
        tls_files(&Some((ca, None))) == seq![TlsFile::Authority(&ca)],
        tls_files(&Some((ca, Some((cert, key))))) == seq![
            TlsFile::Authority(&ca),
            TlsFile::Certificate(&cert),
            TlsFile::PrivateKey(&key),
        ],
{
}

/// A connection that has been made secure is complete and asks for no other
/// handshake.
pub proof fn law_secure_is_settled<U, P, S, I>(session: S)
    ensures
        ({
            let stream = Stream::<U, P, S, I>::TcpStream(Some(TcpStream::Secure(session)));
            !stream.insecure() && !stream.incomplete()
        }),
{
}

} // verus!
