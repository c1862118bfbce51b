//! Reading the formats from a source.

use crate::consts::{ColumnType, MAX_PAYLOAD_LEN};
use crate::error::{DriverError, IoError, MyError};
use crate::format::{
    bin_value, date, field, front_frame, has_field, lacking, lenenc_int, lenenc_text, next_id,
    packet, text_end, time, Cut, Parsed, ParsedFrame, ParsedPacket,
};
use crate::le::{
    decode_i16, decode_i32, decode_i64, decode_u16, decode_u32, decode_u64, decode_uint,
    law_le_decode_encode, le_int, le_nat,
};
use crate::source::ByteSource;
use crate::value::{FloatBits, Value};
use vstd::arithmetic::power2::lemma2_to64;
use vstd::prelude::*;
use vstd::slice::slice_subrange;

verus! {

/// The source has moved on by `k` bytes.
pub open spec fn advanced<S: ByteSource>(before: &S, after: &S, k: nat) -> bool {
    &&& after.pending() == before.pending().skip(k as int)
    &&& after.open() == before.open()
}

/// The source ran out of bytes in the part `cut`, to which `missing` bytes are
/// missing, and `r` is the error of it.
pub open spec fn ran_out<S: ByteSource, T>(
    before: &S,
    after: &S,
    cut: Cut,
    missing: nat,
    r: Result<T, IoError>,
) -> bool {
    &&& after.pending() == Seq::<u8>::empty()
    &&& after.open() == before.open()
    &&& r == Err::<T, IoError>(cut.error(before.open(), missing))
}

/// Reads one byte.
fn read_u8<S: ByteSource>(source: &mut S) -> (r: Result<u8, IoError>)
    ensures
        has_field(old(source).pending(), 0, 1) ==> {
            &&& r == Ok::<u8, IoError>(old(source).pending()[0])
            &&& advanced(&*old(source), &*final(source), 1)
        },
        !has_field(old(source).pending(), 0, 1) ==> ran_out(
            &*old(source),
            &*final(source),
            Cut::Field,
            lacking(old(source).pending(), 0, 1),
            r,
        ),
{
    match source.read_exact(1) {
        Ok(bytes) => Ok(bytes[0]),
        Err(e) => Err(e),
    }
}

/// Reads an unsigned integer of `width` bytes.
fn read_uint<S: ByteSource>(source: &mut S, width: usize) -> (r: Result<u64, IoError>)
    requires
        1 <= width <= 8,
    ensures
        has_field(old(source).pending(), 0, width as nat) ==> {
            &&& r matches Ok(x) && x == le_nat(field(old(source).pending(), 0, width as nat))
            &&& advanced(&*old(source), &*final(source), width as nat)
        },
        !has_field(old(source).pending(), 0, width as nat) ==> ran_out(
            &*old(source),
            &*final(source),
            Cut::Field,
            lacking(old(source).pending(), 0, width as nat),
            r,
        ),
{
    match source.read_exact(width) {
        Ok(bytes) => {
            assert(bytes@.take(width as int) =~= field(old(source).pending(), 0, width as nat));
            Ok(decode_uint(bytes.as_slice(), width))
        },
        Err(e) => Err(e),
    }
}

/// Reads `width` bytes.
fn read_field<S: ByteSource>(source: &mut S, width: usize) -> (r: Result<Vec<u8>, IoError>)
    ensures
        has_field(old(source).pending(), 0, width as nat) ==> {
            &&& r matches Ok(b) && b@ == field(old(source).pending(), 0, width as nat)
            &&& r matches Ok(b) && b@.len() == width && b@.take(width as int) == b@
            &&& advanced(&*old(source), &*final(source), width as nat)
        },
        !has_field(old(source).pending(), 0, width as nat) ==> ran_out(
            &*old(source),
            &*final(source),
            Cut::Field,
            lacking(old(source).pending(), 0, width as nat),
            r,
        ),
{
    match source.read_exact(width) {
        Ok(bytes) => {
            assert(bytes@.take(width as int) =~= bytes@);
            Ok(bytes)
        },
        Err(e) => Err(e),
    }
}

/// The two's complement reading of one byte.
fn signed_byte(b: u8) -> (r: i8)
    ensures
        r == le_int(seq![b]),
{
    let r: i8 = b as i8;
    assert(b < 128 ==> b as i8 == b) by (bit_vector);
    assert(b >= 128 ==> b as i8 == b - 256) by (bit_vector);
    r
}

/// Reads a date after its length byte has told how much of it was sent.
fn read_date<S: ByteSource>(source: &mut S) -> (r: Result<Value, IoError>)
    ensures
        (match date(old(source).pending()) {
            Parsed::Done(x, k) => {
                &&& r matches Ok(v) && v@ == x
                &&& advanced(&*old(source), &*final(source), k)
            },
            Parsed::Short(cut, missing) => ran_out(
                &*old(source),
                &*final(source),
                cut,
                missing,
                r,
            ),
        }),
{
    let ghost s = source.pending();
    let len: u8 = match read_u8(source) {
        Ok(len) => len,
        Err(e) => return Err(e),
    };
    let width: usize = if len < 4 {
        0
    } else if len < 7 {
        4
    } else if len == 11 {
        11
    } else {
        7
    };
    let b: Vec<u8> = match read_field(source, width) {
        Ok(b) => b,
        Err(e) => return Err(e),
    };
    proof {
        assert(forall|i: int| 0 <= i < width ==> b@[i] == s[i + 1]);
        assert(s.skip(1).skip(width as int) =~= s.skip(1 + width));
    }
    let mut year: u16 = 0;
    let mut month: u8 = 0;
    let mut day: u8 = 0;
    let mut hour: u8 = 0;
    let mut minute: u8 = 0;
    let mut second: u8 = 0;
    let mut micro_second: u32 = 0;
    if len >= 4 {
        let bytes: &[u8] = slice_subrange(b.as_slice(), 0, 2);
        assert(bytes@.take(2) =~= field(s, 1, 2));
        year = decode_u16(bytes);
        month = b[2];
        day = b[3];
    }
    if len >= 7 {
        hour = b[4];
        minute = b[5];
        second = b[6];
    }
    if len == 11 {
        let bytes: &[u8] = slice_subrange(b.as_slice(), 7, 11);
        assert(bytes@.take(4) =~= field(s, 8, 4));
        micro_second = decode_u32(bytes);
    }
    Ok(Value::Date(year, month, day, hour, minute, second, micro_second))
}

/// Reads a time after its length byte has told how much of it was sent.
fn read_time<S: ByteSource>(source: &mut S) -> (r: Result<Value, IoError>)
    ensures
        (match time(old(source).pending()) {
            Parsed::Done(x, k) => {
                &&& r matches Ok(v) && v@ == x
                &&& advanced(&*old(source), &*final(source), k)
            },
            Parsed::Short(cut, missing) => ran_out(
                &*old(source),
                &*final(source),
                cut,
                missing,
                r,
            ),
        }),
{
    let ghost s = source.pending();
    let len: u8 = match read_u8(source) {
        Ok(len) => len,
        Err(e) => return Err(e),
    };
    let width: usize = if len < 8 {
        0
    } else if len == 12 {
        12
    } else {
        8
    };
    let b: Vec<u8> = match read_field(source, width) {
        Ok(b) => b,
        Err(e) => return Err(e),
    };
    proof {
        assert(forall|i: int| 0 <= i < width ==> b@[i] == s[i + 1]);
        assert(s.skip(1).skip(width as int) =~= s.skip(1 + width));
    }
    let mut is_negative: bool = false;
    let mut days: u32 = 0;
    let mut hours: u8 = 0;
    let mut minutes: u8 = 0;
    let mut seconds: u8 = 0;
    let mut micro_seconds: u32 = 0;
    if len >= 8 {
        let bytes: &[u8] = slice_subrange(b.as_slice(), 1, 5);
        assert(bytes@.take(4) =~= field(s, 2, 4));
        is_negative = b[0] == 1;
        days = decode_u32(bytes);
        hours = b[5];
        minutes = b[6];
        seconds = b[7];
    }
    if len == 12 {
        let bytes: &[u8] = slice_subrange(b.as_slice(), 8, 12);
        assert(bytes@.take(4) =~= field(s, 9, 4));
        micro_seconds = decode_u32(bytes);
    }
    Ok(Value::Time(is_negative, days, hours, minutes, seconds, micro_seconds))
}

/// A packet of which some frames have been read.
pub struct PacketReader {
    output: Vec<u8>,
    next: u8,
}

impl PacketReader {
    /// The payload of the frames so far.
    pub closed spec fn output(self) -> Seq<u8> {
        self.output@
    }

    /// The sequence id of the frame to come.
    pub closed spec fn next(self) -> u8 {
        self.next
    }

    /// A packet whose first frame is to carry `seq_id`.
    pub fn new(seq_id: u8) -> (r: Self)
        ensures
            r.output() == Seq::<u8>::empty(),
            r.next() == seq_id,
    {
        PacketReader { output: Vec::new(), next: seq_id }
    }

    /// Reads one frame, and returns whether another follows. If that fails, the
    /// packet is as it was.
    pub fn read_frame<S: ByteSource>(&mut self, source: &mut S) -> (r: Result<bool, MyError>)
        ensures
            (match front_frame(old(source).pending(), old(self).next()) {
                ParsedFrame::Whole(payload) => {
                    &&& r == Ok::<bool, MyError>(payload.len() == MAX_PAYLOAD_LEN)
                    &&& final(self).output() == old(self).output() + payload
                    &&& final(self).next() == next_id(old(self).next())
                    &&& 4 + payload.len() <= old(source).pending().len()
                    &&& advanced(&*old(source), &*final(source), 4 + payload.len())
                },
                ParsedFrame::OutOfSync => {
                    &&& r == Err::<bool, MyError>(
                        MyError::MyDriverError(DriverError::PacketOutOfSync),
                    )
                    &&& *final(self) == *old(self)
                    &&& advanced(&*old(source), &*final(source), 4)
                },
                ParsedFrame::Short(cut, missing) => {
                    &&& r == Err::<bool, MyError>(
                        MyError::MyIoError(cut.error(old(source).open(), missing)),
                    )
                    &&& *final(self) == *old(self)
                    &&& final(source).pending() == Seq::<u8>::empty()
                    &&& final(source).open() == old(source).open()
                },
            }),
    {
        let ghost s = source.pending();
        let header: Vec<u8> = match read_field(source, 4) {
            Ok(header) => header,
            Err(e) => return Err(MyError::MyIoError(e)),
        };
        proof {
            assert(header@.take(3) =~= field(s, 0, 3));
            law_le_decode_encode(field(s, 0, 3));
            lemma2_to64();
        }
        let payload_len: usize = decode_uint(header.as_slice(), 3) as usize;
        if header[3] != self.next {
            return Err(MyError::MyDriverError(DriverError::PacketOutOfSync));
        }
        let mut payload: Vec<u8> = Vec::new();
        let count: usize = match source.read_up_to(payload_len as u64, &mut payload) {
            Ok(count) => count,
            Err(e) => return Err(MyError::MyIoError(e)),
        };
        if count != payload_len {
            return Err(MyError::MyIoError(IoError::PacketEof));
        }
        proof {
            assert(payload@ =~= field(s, 4, payload_len as nat));
            assert(s.skip(4).skip(payload_len as int) =~= s.skip(4 + payload_len));
        }
        self.output.append(&mut payload);
        self.next = self.next.wrapping_add(1);
        Ok(payload_len == MAX_PAYLOAD_LEN)
    }

    /// The payload, and the sequence id that follows.
    pub fn finish(self) -> (r: (Vec<u8>, u8))
        ensures
            r.0@ == self.output(),
            r.1 == self.next(),
    {
        (self.output, self.next)
    }
}

/// Nothing in front changes nothing.
proof fn lemma_after_nothing(p: ParsedPacket)
    ensures
        p.after(Seq::empty(), 0) == p,
{
    if let ParsedPacket::Whole { payload, consumed, next } = p {
        assert(Seq::empty() + payload =~= payload);
    }
}

/// What is put in front in two steps can be put in front in one.
proof fn lemma_after_after(p: ParsedPacket, b: Seq<u8>, j: nat, a: Seq<u8>, i: nat)
    ensures
        p.after(b, j).after(a, i) == p.after(a + b, i + j),
{
    if let ParsedPacket::Whole { payload, consumed, next } = p {
        assert(a + (b + payload) =~= (a + b) + payload);
    }
}

/// Reads the formats of the protocol from any source of bytes.
pub trait Read: ByteSource + Sized {
    /// Reads a length-encoded integer.
    fn read_lenenc_int(&mut self) -> (r: Result<u64, IoError>)
        ensures
            (match lenenc_int(old(self).pending()) {
                Parsed::Done(x, k) => {
                    &&& r matches Ok(v) && v == x
                    &&& advanced(&*old(self), &*final(self), k)
                },
                Parsed::Short(cut, missing) => ran_out(
                    &*old(self),
                    &*final(self),
                    cut,
                    missing,
                    r,
                ),
            }),
    {
        let ghost s = self.pending();
        let head_byte: u8 = match read_u8(self) {
            Ok(b) => b,
            Err(e) => return Err(e),
        };
        let length: usize = match head_byte {
            0xfc => 2,
            0xfd => 3,
            0xfe => 8,
            x => return Ok(x as u64),
        };
        proof {
            if has_field(s, 1, length as nat) {
                assert(field(s.skip(1), 0, length as nat) =~= field(s, 1, length as nat));
                assert(s.skip(1).skip(length as int) =~= s.skip(1 + length as int));
            }
        }
        read_uint(self, length)
    }

    /// Reads a length-encoded string.
    fn read_lenenc_bytes(&mut self) -> (r: Result<Vec<u8>, IoError>)
        ensures
            (match lenenc_text(old(self).pending()) {
                Parsed::Done(text, k) => {
                    &&& r matches Ok(v) && v@ == text
                    &&& advanced(&*old(self), &*final(self), k)
                },
                Parsed::Short(cut, missing) => ran_out(
                    &*old(self),
                    &*final(self),
                    cut,
                    missing,
                    r,
                ),
            }),
    {
        let ghost s = self.pending();
        let len: u64 = match self.read_lenenc_int() {
            Ok(len) => len,
            Err(e) => return Err(e),
        };
        let ghost at: nat = lenenc_int(s)->Done_1;
        let mut out: Vec<u8> = Vec::new();
        proof {
            if has_field(s, at, len as nat) {
                assert(Seq::<u8>::empty() + s.skip(at as int).take(len as int) =~= field(
                    s,
                    at,
                    len as nat,
                ));
                assert(s.skip(at as int).skip(len as int) =~= s.skip(at + len as int));
            }
        }
        let count: usize = if len > 0 {
            match self.read_up_to(len, &mut out) {
                Ok(count) => count,
                Err(e) => return Err(e),
            }
        } else {
            0
        };
        if count as u64 == len {
            Ok(out)
        } else {
            Err(IoError::StringEof)
        }
    }

    /// Reads up to a zero byte, which is left out, or to the end of the stream.
    fn read_to_null(&mut self) -> (r: Result<Vec<u8>, IoError>)
        ensures
            ({
                let s = old(self).pending();
                let n = text_end(s);
                if n < s.len() {
                    &&& r matches Ok(v) && v@ == s.take(n as int)
                    &&& advanced(&*old(self), &*final(self), n + 1)
                } else {
                    &&& final(self).pending() == Seq::<u8>::empty()
                    &&& final(self).open() == old(self).open()
                    &&& if old(self).open() {
                        r == Err::<Vec<u8>, IoError>(IoError::Missing(1))
                    } else {
                        r matches Ok(v) && v@ == s
                    }
                }
            }),
    {
        let ghost s = self.pending();
        let mut out: Vec<u8> = Vec::new();
        proof {
            assert(s.skip(0) =~= s);
            assert(s.take(0) =~= out@);
        }
        loop
            invariant
                out@.len() <= s.len(),
                out@ == s.take(out@.len() as int),
                self.pending() == s.skip(out@.len() as int),
                self.open() == old(self).open(),
                s == old(self).pending(),
                text_end(s) == out@.len() + text_end(self.pending()),
            decreases self.pending().len(),
        {
            let ghost before = out@;
            match self.read_byte() {
                Err(e) => {
                    return Err(e);
                },
                Ok(None) => {
                    assert(out@ =~= s);
                    return Ok(out);
                },
                Ok(Some(c)) => {
                    assert(s.skip(before.len() as int).skip(1) =~= s.skip(before.len() as int + 1));
                    if c == 0u8 {
                        return Ok(out);
                    }
                    out.push(c);
                    assert(out@ =~= s.take(before.len() as int + 1));
                },
            }
        }
    }

    /// Reads a value of the binary protocol.
    fn read_bin_value(&mut self, col_type: ColumnType, unsigned: bool) -> (r: Result<
        Value,
        IoError,
    >)
        ensures
            (match bin_value(col_type, unsigned, old(self).pending()) {
                Parsed::Done(x, k) => {
                    &&& r matches Ok(v) && v@ == x
                    &&& advanced(&*old(self), &*final(self), k)
                },
                Parsed::Short(cut, missing) => ran_out(
                    &*old(self),
                    &*final(self),
                    cut,
                    missing,
                    r,
                ),
            }),
    {
        let ghost s = self.pending();
        match col_type {
            ColumnType::MYSQL_TYPE_STRING
            | ColumnType::MYSQL_TYPE_VAR_STRING
            | ColumnType::MYSQL_TYPE_BLOB
            | ColumnType::MYSQL_TYPE_TINY_BLOB
            | ColumnType::MYSQL_TYPE_MEDIUM_BLOB
            | ColumnType::MYSQL_TYPE_LONG_BLOB
            | ColumnType::MYSQL_TYPE_SET
            | ColumnType::MYSQL_TYPE_ENUM
            | ColumnType::MYSQL_TYPE_DECIMAL
            | ColumnType::MYSQL_TYPE_VARCHAR
            | ColumnType::MYSQL_TYPE_BIT
            | ColumnType::MYSQL_TYPE_NEWDECIMAL
            | ColumnType::MYSQL_TYPE_GEOMETRY => match self.read_lenenc_bytes() {
                Ok(bytes) => Ok(Value::Bytes(bytes)),
                Err(e) => Err(e),
            },
            ColumnType::MYSQL_TYPE_TINY => match read_field(self, 1) {
                Ok(b) => {
                    proof {
                        reveal_with_fuel(le_nat, 2);
                    }
                    if unsigned {
                        Ok(Value::Int(b[0] as i64))
                    } else {
                        Ok(Value::Int(signed_byte(b[0]) as i64))
                    }
                },
                Err(e) => Err(e),
            },
            ColumnType::MYSQL_TYPE_SHORT | ColumnType::MYSQL_TYPE_YEAR => match read_field(
                self,
                2,
            ) {
                Ok(b) => if unsigned {
                    Ok(Value::Int(decode_u16(b.as_slice()) as i64))
                } else {
                    Ok(Value::Int(decode_i16(b.as_slice()) as i64))
                },
                Err(e) => Err(e),
            },
            ColumnType::MYSQL_TYPE_LONG | ColumnType::MYSQL_TYPE_INT24 => match read_field(
                self,
                4,
            ) {
                Ok(b) => if unsigned {
                    Ok(Value::Int(decode_u32(b.as_slice()) as i64))
                } else {
                    Ok(Value::Int(decode_i32(b.as_slice()) as i64))
                },
                Err(e) => Err(e),
            },
            ColumnType::MYSQL_TYPE_LONGLONG => match read_field(self, 8) {
                Ok(b) => if unsigned {
                    Ok(Value::UInt(decode_u64(b.as_slice())))
                } else {
                    Ok(Value::Int(decode_i64(b.as_slice())))
                },
                Err(e) => Err(e),
            },
            ColumnType::MYSQL_TYPE_FLOAT => match read_field(self, 4) {
                Ok(b) => Ok(Value::Float(FloatBits::Single(decode_u32(b.as_slice())))),
                Err(e) => Err(e),
            },
            ColumnType::MYSQL_TYPE_DOUBLE => match read_field(self, 8) {
                Ok(b) => Ok(Value::Float(FloatBits::Double(decode_u64(b.as_slice())))),
                Err(e) => Err(e),
            },
            ColumnType::MYSQL_TYPE_TIMESTAMP
            | ColumnType::MYSQL_TYPE_DATE
            | ColumnType::MYSQL_TYPE_DATETIME => read_date(self),
            ColumnType::MYSQL_TYPE_TIME => read_time(self),
            _ => {
                assert(s.skip(0) =~= s);
                Ok(Value::NULL)
            },
        }
    }

    /// Reads the payload of a packet whose first frame carries `seq_id`, and
    /// returns it with the sequence id that follows.
    fn read_packet(&mut self, seq_id: u8) -> (r: Result<(Vec<u8>, u8), MyError>)
        ensures
            (match packet(old(self).pending(), seq_id) {
                ParsedPacket::Whole { payload, consumed, next } => {
                    &&& r matches Ok((data, id)) && data@ == payload && id == next
                    &&& advanced(&*old(self), &*final(self), consumed)
                },
                ParsedPacket::OutOfSync { consumed } => {
                    &&& r == Err::<(Vec<u8>, u8), MyError>(
                        MyError::MyDriverError(DriverError::PacketOutOfSync),
                    )
                    &&& advanced(&*old(self), &*final(self), consumed)
                },
                ParsedPacket::Short(cut, missing) => {
                    &&& final(self).pending() == Seq::<u8>::empty()
                    &&& final(self).open() == old(self).open()
                    &&& r == Err::<(Vec<u8>, u8), MyError>(
                        MyError::MyIoError(cut.error(old(self).open(), missing)),
                    )
                },
            }),
    {
        let ghost whole = self.pending();
        let ghost mut at: nat = 0;
        let mut reader: PacketReader = PacketReader::new(seq_id);
        proof {
            assert(whole.skip(0) =~= whole);
            lemma_after_nothing(packet(whole, seq_id));
        }
        loop
            invariant
                at <= whole.len(),
                self.pending() == whole.skip(at as int),
                self.open() == old(self).open(),
                whole == old(self).pending(),
                packet(whole, seq_id) == packet(self.pending(), reader.next()).after(
                    reader.output(),
                    at,
                ),
            decreases self.pending().len(),
        {
            let ghost s = self.pending();
            let ghost done = reader.output();
            let ghost id = reader.next();
            assert(s.len() >= 4 ==> s.skip(4) =~= whole.skip(at as int + 4));
            let more: bool = match reader.read_frame(self) {
                Ok(more) => more,
                Err(e) => return Err(e),
            };
            proof {
                let payload = front_frame(s, id)->Whole_0;
                let k = 4 + payload.len();
                assert(s.skip(k as int) =~= whole.skip((at + k) as int));
                if more {
                    lemma_after_after(packet(self.pending(), reader.next()), payload, k, done, at);
                    at = at + k;
                }
            }
            if !more {
                return Ok(reader.finish());
            }
        }
    }
}

impl<T: ByteSource> Read for T {

}

} // verus!
