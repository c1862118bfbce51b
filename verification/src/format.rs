//! The formats: what a sequence of bytes stands for, and how values are laid
//! out in bytes.

use crate::consts::{ColumnType, MAX_PAYLOAD_LEN};
use crate::error::IoError;
use crate::le::{le_bytes, le_int, le_nat};
use crate::value::ValueView;
use vstd::prelude::*;

verus! {

/// Which part of a format the bytes ran out in.
pub enum Cut {
    /// A field of known width.
    Field,
    /// The contents of a length-encoded string.
    Text,
    /// The payload of a frame.
    Payload,
}

impl Cut {
    /// The error of a read that ran out in this part, where `missing` more bytes
    /// would have taken it further.
    pub open spec fn error(self, open: bool, missing: nat) -> IoError {
        if open {
            IoError::Missing(missing as u64)
        } else {
            match self {
                Cut::Field => IoError::UnexpectedEof,
                Cut::Text => IoError::StringEof,
                Cut::Payload => IoError::PacketEof,
            }
        }
    }
}

/// What the bytes of a source stand for.
pub enum Parsed<T> {
    /// A value, laid out in so many bytes at the front.
    Done(T, nat),
    /// The beginning of a value, to which so many bytes are missing at least.
    Short(Cut, nat),
}

/// `s` begins with a field of `width` bytes at `at`.
pub open spec fn has_field(s: Seq<u8>, at: nat, width: nat) -> bool {
    at + width <= s.len()
}

/// How many bytes are missing to a field of `width` bytes at `at`.
pub open spec fn lacking(s: Seq<u8>, at: nat, width: nat) -> nat {
    (at + width - s.len()) as nat
}

/// The field of `width` bytes at `at`.
pub open spec fn field(s: Seq<u8>, at: nat, width: nat) -> Seq<u8> {
    s.subrange(at as int, (at + width) as int)
}

/// How many bytes follow the head byte of a length-encoded integer.
pub open spec fn lenenc_tail(head: u8) -> nat {
    if head == 0xfc {
        2
    } else if head == 0xfd {
        3
    } else if head == 0xfe {
        8
    } else {
        0
    }
}

/// A length-encoded integer: a head byte that is the number itself, or that
/// tells the width of the number that follows.
pub open spec fn lenenc_int(s: Seq<u8>) -> Parsed<nat> {
    if !has_field(s, 0, 1) {
        Parsed::Short(Cut::Field, 1)
    } else {
        let width = lenenc_tail(s[0]);
        if width == 0 {
            Parsed::Done(s[0] as nat, 1)
        } else if !has_field(s, 1, width) {
            Parsed::Short(Cut::Field, lacking(s, 1, width))
        } else {
            Parsed::Done(le_nat(field(s, 1, width)), 1 + width)
        }
    }
}

/// The shortest layout of `x` whose head byte is not taken otherwise.
pub open spec fn lenenc_int_bytes(x: nat) -> Seq<u8> {
    if x < 251 {
        seq![x as u8]
    } else if x < 0x1_0000 {
        seq![0xfcu8] + le_bytes(x, 2)
    } else if x < 0x100_0000 {
        seq![0xfdu8] + le_bytes(x, 3)
    } else {
        seq![0xfeu8] + le_bytes(x, 8)
    }
}

/// A length-encoded string: its length as a length-encoded integer, then its
/// bytes.
pub open spec fn lenenc_text(s: Seq<u8>) -> Parsed<Seq<u8>> {
    match lenenc_int(s) {
        Parsed::Short(cut, missing) => Parsed::Short(cut, missing),
        Parsed::Done(len, at) => if has_field(s, at, len) {
            Parsed::Done(field(s, at, len), at + len)
        } else {
            Parsed::Short(Cut::Text, lacking(s, at, len))
        },
    }
}

/// The layout of a length-encoded string.
pub open spec fn lenenc_text_bytes(text: Seq<u8>) -> Seq<u8> {
    lenenc_int_bytes(text.len()) + text
}

/// How many bytes of `s` come before its first zero byte; all of them, if there
/// is none.
pub open spec fn text_end(s: Seq<u8>) -> nat
    decreases s.len(),
{
    if s.len() == 0 || s[0] == 0 {
        0
    } else {
        1 + text_end(s.skip(1))
    }
}

/// How many bytes a number of this type takes; 0 for types that are no numbers.
pub open spec fn number_width(col_type: ColumnType) -> nat {
    match col_type {
        ColumnType::MYSQL_TYPE_TINY => 1,
        ColumnType::MYSQL_TYPE_SHORT | ColumnType::MYSQL_TYPE_YEAR => 2,
        ColumnType::MYSQL_TYPE_LONG
        | ColumnType::MYSQL_TYPE_INT24
        | ColumnType::MYSQL_TYPE_FLOAT => 4,
        ColumnType::MYSQL_TYPE_LONGLONG | ColumnType::MYSQL_TYPE_DOUBLE => 8,
        _ => 0,
    }
}

/// The number that `b` stands for. Only an unsigned integer of the longest type
/// does not fit in a signed one.
pub open spec fn number_value(col_type: ColumnType, unsigned: bool, b: Seq<u8>) -> ValueView {
    match col_type {
        ColumnType::MYSQL_TYPE_FLOAT => ValueView::Single(le_nat(b)),
        ColumnType::MYSQL_TYPE_DOUBLE => ValueView::Double(le_nat(b)),
        ColumnType::MYSQL_TYPE_LONGLONG if unsigned => ValueView::UInt(le_nat(b)),
        _ => ValueView::Int(
            if unsigned {
                le_nat(b) as int
            } else {
                le_int(b)
            },
        ),
    }
}

/// A number of fixed width.
pub open spec fn number(col_type: ColumnType, unsigned: bool, s: Seq<u8>) -> Parsed<ValueView> {
    let width = number_width(col_type);
    if has_field(s, 0, width) {
        Parsed::Done(number_value(col_type, unsigned, field(s, 0, width)), width)
    } else {
        Parsed::Short(Cut::Field, lacking(s, 0, width))
    }
}

/// How many bytes of a date follow a length byte `len`.
pub open spec fn date_width(len: u8) -> nat {
    if len < 4 {
        0
    } else if len < 7 {
        4
    } else if len == 11 {
        11
    } else {
        7
    }
}

/// A date: a length byte, then as many of year, month and day; hour, minutes
/// and seconds; and microseconds as the length admits. What is left out is 0.
pub open spec fn date(s: Seq<u8>) -> Parsed<ValueView> {
    if !has_field(s, 0, 1) {
        Parsed::Short(Cut::Field, 1)
    } else {
        let width = date_width(s[0]);
        if !has_field(s, 1, width) {
            Parsed::Short(Cut::Field, lacking(s, 1, width))
        } else {
            let day = width >= 4;
            let clock = width >= 7;
            let micro = width >= 11;
            Parsed::Done(
                ValueView::Date(
                    if day { le_nat(field(s, 1, 2)) } else { 0 },
                    if day { s[3] } else { 0 },
                    if day { s[4] } else { 0 },
                    if clock { s[5] } else { 0 },
                    if clock { s[6] } else { 0 },
                    if clock { s[7] } else { 0 },
                    if micro { le_nat(field(s, 8, 4)) } else { 0 },
                ),
                1 + width,
            )
        }
    }
}

/// How many bytes of a time follow a length byte `len`.
pub open spec fn time_width(len: u8) -> nat {
    if len < 8 {
        0
    } else if len == 12 {
        12
    } else {
        8
    }
}

/// A time: a length byte, then the sign, days, hours, minutes and seconds, and
/// then microseconds, as the length admits. What is left out is 0.
pub open spec fn time(s: Seq<u8>) -> Parsed<ValueView> {
    if !has_field(s, 0, 1) {
        Parsed::Short(Cut::Field, 1)
    } else {
        let width = time_width(s[0]);
        if !has_field(s, 1, width) {
            Parsed::Short(Cut::Field, lacking(s, 1, width))
        } else {
            let clock = width >= 8;
            let micro = width >= 12;
            Parsed::Done(
                ValueView::Time(
                    clock && s[1] == 1,
                    if clock { le_nat(field(s, 2, 4)) } else { 0 },
                    if clock { s[6] } else { 0 },
                    if clock { s[7] } else { 0 },
                    if clock { s[8] } else { 0 },
                    if micro { le_nat(field(s, 9, 4)) } else { 0 },
                ),
                1 + width,
            )
        }
    }
}

/// Columns that hold text, blobs and everything else sent as a string.
pub open spec fn is_text(col_type: ColumnType) -> bool {
    match col_type {
        ColumnType::MYSQL_TYPE_STRING
        | ColumnType::MYSQL_TYPE_VAR_STRING
        | ColumnType::MYSQL_TYPE_BLOB
        | ColumnType::MYSQL_TYPE_TINY_BLOB
        | ColumnType::MYSQL_TYPE_MEDIUM_BLOB
        | ColumnType::MYSQL_TYPE_LONG_BLOB
        | ColumnType::MYSQL_TYPE_SET
        | ColumnType::MYSQL_TYPE_ENUM
        | ColumnType::MYSQL_TYPE_DECIMAL
        | ColumnType::MYSQL_TYPE_VARCHAR
        | ColumnType::MYSQL_TYPE_BIT
        | ColumnType::MYSQL_TYPE_NEWDECIMAL
        | ColumnType::MYSQL_TYPE_GEOMETRY => true,
        _ => false,
    }
}

/// A length-encoded string as a value.
pub open spec fn text(s: Seq<u8>) -> Parsed<ValueView> {
    match lenenc_text(s) {
        Parsed::Done(bytes, k) => Parsed::Done(ValueView::Bytes(bytes), k),
        Parsed::Short(cut, missing) => Parsed::Short(cut, missing),
    }
}

/// A value in the binary protocol. A column of a type that has no layout of its
/// own takes no bytes and is NULL.
pub open spec fn bin_value(col_type: ColumnType, unsigned: bool, s: Seq<u8>) -> Parsed<ValueView> {
    match col_type {
        ColumnType::MYSQL_TYPE_TIMESTAMP
        | ColumnType::MYSQL_TYPE_DATE
        | ColumnType::MYSQL_TYPE_DATETIME => date(s),
        ColumnType::MYSQL_TYPE_TIME => time(s),
        _ => if is_text(col_type) {
            text(s)
        } else if number_width(col_type) > 0 {
            number(col_type, unsigned, s)
        } else {
            Parsed::Done(ValueView::NULL, 0)
        },
    }
}

/// The sequence id after `seq_id`: ids go round.
pub open spec fn next_id(seq_id: u8) -> u8 {
    if seq_id == 255 {
        0
    } else {
        (seq_id + 1) as u8
    }
}

/// What the bytes of a source stand for, read as a packet.
pub enum ParsedPacket {
    /// A packet, laid out in so many bytes at the front, and the sequence id
    /// that follows its last frame.
    Whole { payload: Seq<u8>, consumed: nat, next: u8 },
    /// A frame with a wrong sequence id, whose header ends after so many bytes.
    OutOfSync { consumed: nat },
    /// The beginning of a packet, to which so many bytes are missing at least.
    Short(Cut, nat),
}

impl ParsedPacket {
    /// The same with `head`, laid out in `k` bytes, in front.
    pub open spec fn after(self, head: Seq<u8>, k: nat) -> ParsedPacket {
        match self {
            ParsedPacket::Whole { payload, consumed, next } => ParsedPacket::Whole {
                payload: head + payload,
                consumed: k + consumed,
                next,
            },
            ParsedPacket::OutOfSync { consumed } => ParsedPacket::OutOfSync {
                consumed: k + consumed,
            },
            ParsedPacket::Short(cut, missing) => ParsedPacket::Short(cut, missing),
        }
    }
}

/// What the bytes of a source stand for, read as a frame.
pub enum ParsedFrame {
    /// A frame with this payload.
    Whole(Seq<u8>),
    /// The header of a frame with a wrong sequence id.
    OutOfSync,
    /// The beginning of a frame, to which so many bytes are missing at least.
    Short(Cut, nat),
}

/// The frame at the front: a payload length of three bytes, the sequence id and
/// the payload.
pub open spec fn front_frame(s: Seq<u8>, seq_id: u8) -> ParsedFrame {
    if !has_field(s, 0, 4) {
        ParsedFrame::Short(Cut::Field, lacking(s, 0, 4))
    } else if s[3] != seq_id {
        ParsedFrame::OutOfSync
    } else {
        let len = le_nat(field(s, 0, 3));
        if has_field(s, 4, len) {
            ParsedFrame::Whole(field(s, 4, len))
        } else {
            ParsedFrame::Short(Cut::Payload, lacking(s, 4, len))
        }
    }
}

/// A packet: frames with consecutive sequence ids from `seq_id` on. A frame with
/// the longest payload is followed by another, any other is the last.
pub open spec fn packet(s: Seq<u8>, seq_id: u8) -> ParsedPacket
    decreases s.len(),
{
    match front_frame(s, seq_id) {
        ParsedFrame::Short(cut, missing) => ParsedPacket::Short(cut, missing),
        ParsedFrame::OutOfSync => ParsedPacket::OutOfSync { consumed: 4 },
        ParsedFrame::Whole(payload) => if payload.len() != MAX_PAYLOAD_LEN {
            ParsedPacket::Whole {
                payload,
                consumed: 4 + payload.len(),
                next: next_id(seq_id),
            }
        } else {
            packet(s.skip((4 + payload.len()) as int), next_id(seq_id)).after(
                payload,
                4 + payload.len(),
            )
        },
    }
}

/// One frame.
pub open spec fn frame(payload: Seq<u8>, seq_id: u8) -> Seq<u8> {
    le_bytes(payload.len(), 3) + seq![seq_id] + payload
}

/// The layout of a packet: full frames, then one that is not full, which may be
/// empty.
pub open spec fn packet_bytes(data: Seq<u8>, seq_id: u8) -> Seq<u8>
    decreases data.len(),
{
    if data.len() < MAX_PAYLOAD_LEN {
        frame(data, seq_id)
    } else {
        frame(data.take(MAX_PAYLOAD_LEN as int), seq_id) + packet_bytes(
            data.skip(MAX_PAYLOAD_LEN as int),
            next_id(seq_id),
        )
    }
}

/// The part of a payload that frame `i` of its packet carries.
pub open spec fn chunk(data: Seq<u8>, i: nat) -> Seq<u8> {
    let from = i * MAX_PAYLOAD_LEN;
    let to = from + MAX_PAYLOAD_LEN;
    data.subrange(
        from,
        if to <= data.len() {
            to
        } else {
            data.len() as int
        },
    )
}

/// Frame `i` of a packet whose first frame carries `seq_id`.
pub open spec fn packet_frame(data: Seq<u8>, seq_id: u8, i: nat) -> Seq<u8> {
    frame(chunk(data, i), ((seq_id + i) % 256) as u8)
}

/// The frames of a packet, in order.
pub open spec fn packet_frames(data: Seq<u8>, seq_id: u8) -> Seq<Seq<u8>> {
    Seq::new(frame_count(data.len()), |i: int| packet_frame(data, seq_id, i as nat))
}

/// A payload of `len` bytes is longer than the limit, and the limit is one that
/// binds.
pub open spec fn too_large(len: nat, max_allowed_packet: usize) -> bool {
    len > max_allowed_packet && max_allowed_packet < MAX_PAYLOAD_LEN
}

/// How many frames a payload of `len` bytes is split into.
pub open spec fn frame_count(len: nat) -> nat {
    len / (MAX_PAYLOAD_LEN as nat) + 1
}

} // verus!
