//! What goes over the wire, byte by byte: where each byte of a value stands, and
//! which value each byte makes.

use crate::consts::ColumnType;
use crate::format::{
    bin_value, chunk, field, frame, frame_count, front_frame, lenenc_int, lenenc_int_bytes,
    lenenc_text, lenenc_text_bytes, packet, packet_bytes, packet_frame, packet_frames, too_large,
    Cut, Parsed, ParsedFrame, ParsedPacket,
};
use crate::le::{
    law_le_encode_decode, law_le_signed, le_bytes, le_int, le_nat, lemma_le_bytes_digit,
    lemma_le_bytes_len,
};
use crate::value::ValueView;
use crate::write::{PacketWriter, SendStep};
use vstd::arithmetic::power2::{lemma2_to64, lemma2_to64_rest, pow2};
use vstd::prelude::*;

verus! {

/// The first byte of a number counts ones, the second 256s, and so on.
pub proof fn law_place_values(s: Seq<u8>)
    ensures
        s.len() == 1 ==> le_nat(s) == s[0],
        s.len() == 2 ==> le_nat(s) == s[0] + 0x100 * s[1],
        s.len() == 3 ==> le_nat(s) == s[0] + 0x100 * s[1] + 0x1_0000 * s[2],
        s.len() == 4 ==> le_nat(s) == s[0] + 0x100 * s[1] + 0x1_0000 * s[2] + 0x100_0000 * s[3],
        s.len() == 8 ==> le_nat(s) == s[0] + 0x100 * s[1] + 0x1_0000 * s[2] + 0x100_0000 * s[3]
            + 0x1_0000_0000 * s[4] + 0x100_0000_0000 * s[5] + 0x1_0000_0000_0000 * s[6]
            + 0x100_0000_0000_0000 * s[7],
{
    reveal_with_fuel(le_nat, 9);
    if s.len() == 8 {
        let t = s.skip(4);
        assert(t =~= s.skip(1).skip(1).skip(1).skip(1));
        assert(le_nat(t) == s[4] + 0x100 * s[5] + 0x1_0000 * s[6] + 0x100_0000 * s[7]);
    }
}

/// A number with a sign is negative if its last byte is 128 or more, and then is
/// less by the count of all numbers of that width.
pub proof fn law_sign(s: Seq<u8>)
    ensures
        s.len() > 0 && s.last() < 128 ==> le_int(s) == le_nat(s),
        s.len() == 1 && s[0] >= 128 ==> le_int(s) == le_nat(s) - 0x100,
        s.len() == 2 && s[1] >= 128 ==> le_int(s) == le_nat(s) - 0x1_0000,
        s.len() == 4 && s[3] >= 128 ==> le_int(s) == le_nat(s) - 0x1_0000_0000,
        s.len() == 8 && s[7] >= 128 ==> le_int(s) == le_nat(s) - 0x1_0000_0000_0000_0000,
{
    lemma2_to64();
    if s.len() > 0 {
        law_le_signed(s);
    }
}

/// Written in `n` bytes, the first byte of a number is what is left of its ones,
/// the second of its 256s, and so on, each without what the next one counts.
pub proof fn law_digits(x: nat, n: nat)
    requires
        n <= 8,
    ensures
        le_bytes(x, n).len() == n,
        0 < n ==> le_bytes(x, n)[0] == x % 0x100,
        1 < n ==> le_bytes(x, n)[1] == x / 0x100 % 0x100,
        2 < n ==> le_bytes(x, n)[2] == x / 0x1_0000 % 0x100,
        3 < n ==> le_bytes(x, n)[3] == x / 0x100_0000 % 0x100,
        4 < n ==> le_bytes(x, n)[4] == x / 0x1_0000_0000 % 0x100,
        5 < n ==> le_bytes(x, n)[5] == x / 0x100_0000_0000 % 0x100,
        6 < n ==> le_bytes(x, n)[6] == x / 0x1_0000_0000_0000 % 0x100,
        7 < n ==> le_bytes(x, n)[7] == x / 0x100_0000_0000_0000 % 0x100,
{
    lemma2_to64();
    lemma2_to64_rest();
    lemma_le_bytes_len(x, n);
    assert forall|i: nat| i < n implies #[trigger] le_bytes(x, n)[i as int] == (x / pow2(8 * i))
        % 256 by {
        lemma_le_bytes_digit(x, n, i);
    }
    assert(x / 1 == x);
}

/// The layouts of a number in the widths that the protocol has.
proof fn lemma_layouts(x: nat)
    ensures
        le_bytes(x, 1) == seq![(x % 0x100) as u8],
        le_bytes(x, 2) == seq![(x % 0x100) as u8, (x / 0x100 % 0x100) as u8],
        le_bytes(x, 3) == seq![
            (x % 0x100) as u8,
            (x / 0x100 % 0x100) as u8,
            (x / 0x1_0000 % 0x100) as u8,
        ],
        le_bytes(x, 4) == seq![
            (x % 0x100) as u8,
            (x / 0x100 % 0x100) as u8,
            (x / 0x1_0000 % 0x100) as u8,
            (x / 0x100_0000 % 0x100) as u8,
        ],
        le_bytes(x, 8) == seq![
            (x % 0x100) as u8,
            (x / 0x100 % 0x100) as u8,
            (x / 0x1_0000 % 0x100) as u8,
            (x / 0x100_0000 % 0x100) as u8,
            (x / 0x1_0000_0000 % 0x100) as u8,
            (x / 0x100_0000_0000 % 0x100) as u8,
            (x / 0x1_0000_0000_0000 % 0x100) as u8,
            (x / 0x100_0000_0000_0000 % 0x100) as u8,
        ],
{
    law_digits(x, 1);
    law_digits(x, 2);
    law_digits(x, 3);
    law_digits(x, 4);
    law_digits(x, 8);
}

/// A length-encoded integer is its first byte, or, behind 0xfc, 0xfd and 0xfe, the
/// two, three or eight bytes that follow, of which the first counts least.
pub proof fn law_lenenc_int_on_the_wire(s: Seq<u8>)
    ensures
        s.len() == 0 ==> lenenc_int(s) == Parsed::<nat>::Short(Cut::Field, 1),
        s.len() > 0 && (s[0] < 0xfc || s[0] == 0xff) ==> lenenc_int(s) == Parsed::Done(
            s[0] as nat,
            1,
        ),
        s.len() > 0 && s[0] == 0xfc ==> lenenc_int(s) == if s.len() < 3 {
            Parsed::Short(Cut::Field, (3 - s.len()) as nat)
        } else {
            Parsed::Done((s[1] + 0x100 * s[2]) as nat, 3)
        },
        s.len() > 0 && s[0] == 0xfd ==> lenenc_int(s) == if s.len() < 4 {
            Parsed::Short(Cut::Field, (4 - s.len()) as nat)
        } else {
            Parsed::Done((s[1] + 0x100 * s[2] + 0x1_0000 * s[3]) as nat, 4)
        },
        s.len() > 0 && s[0] == 0xfe ==> lenenc_int(s) == if s.len() < 9 {
            Parsed::Short(Cut::Field, (9 - s.len()) as nat)
        } else {
            Parsed::Done(
                (s[1] + 0x100 * s[2] + 0x1_0000 * s[3] + 0x100_0000 * s[4] + 0x1_0000_0000 * s[5]
                    + 0x100_0000_0000 * s[6] + 0x1_0000_0000_0000 * s[7] + 0x100_0000_0000_0000
                    * s[8]) as nat,
                9,
            )
        },
{
    if s.len() >= 3 {
        law_place_values(field(s, 1, 2));
    }
    if s.len() >= 4 {
        law_place_values(field(s, 1, 3));
    }
    if s.len() >= 9 {
        law_place_values(field(s, 1, 8));
    }
}

/// A number below 251 is written as one byte; a longer one behind 0xfc, 0xfd or
/// 0xfe, as two, three or eight bytes, of which the first counts least.
pub proof fn law_lenenc_int_layout(x: u64)
    ensures
        x < 251 ==> lenenc_int_bytes(x as nat) == seq![x as u8],
        251 <= x < 0x1_0000 ==> lenenc_int_bytes(x as nat) == seq![
            0xfcu8,
            (x % 0x100) as u8,
            (x / 0x100) as u8,
        ],
        0x1_0000 <= x < 0x100_0000 ==> lenenc_int_bytes(x as nat) == seq![
            0xfdu8,
            (x % 0x100) as u8,
            (x / 0x100 % 0x100) as u8,
            (x / 0x1_0000) as u8,
        ],
        0x100_0000 <= x ==> lenenc_int_bytes(x as nat) == seq![
            0xfeu8,
            (x % 0x100) as u8,
            (x / 0x100 % 0x100) as u8,
            (x / 0x1_0000 % 0x100) as u8,
            (x / 0x100_0000 % 0x100) as u8,
            (x / 0x1_0000_0000 % 0x100) as u8,
            (x / 0x100_0000_0000 % 0x100) as u8,
            (x / 0x1_0000_0000_0000 % 0x100) as u8,
            (x / 0x100_0000_0000_0000) as u8,
        ],
{
    lemma_layouts(x as nat);
}

/// The bytes of a length-encoded string are those behind its length, as many as
/// that says, and in the order they came.
pub proof fn law_lenenc_text_on_the_wire(s: Seq<u8>)
    ensures
        lenenc_text(s) matches Parsed::Done(text, k) ==> {
            &&& text.len() <= k <= s.len()
            &&& lenenc_int(s) == Parsed::Done(text.len(), (k - text.len()) as nat)
            &&& forall|i: int| 0 <= i < text.len() ==> #[trigger] text[i] == s[k - text.len() + i]
        },
        lenenc_int(s) matches Parsed::Done(len, at) ==> (lenenc_text(s) is Done <==> at + len
            <= s.len()),
        lenenc_int(s) matches Parsed::Done(len, at) ==> at + len > s.len() ==> lenenc_text(s)
            == Parsed::<Seq<u8>>::Short(Cut::Text, (at + len - s.len()) as nat),
        lenenc_int(s) matches Parsed::Short(cut, missing) ==> lenenc_text(s) == Parsed::<
            Seq<u8>,
        >::Short(cut, missing),
{
}

/// Byte `i` of a text is written `i` places behind its length.
pub proof fn law_lenenc_text_layout(text: Seq<u8>)
    ensures
        lenenc_text_bytes(text).len() == lenenc_int_bytes(text.len()).len() + text.len(),
        forall|i: int|
            0 <= i < lenenc_int_bytes(text.len()).len() ==> #[trigger] lenenc_text_bytes(text)[i]
                == lenenc_int_bytes(text.len())[i],
        forall|i: int|
            0 <= i < text.len() ==> lenenc_text_bytes(text)[lenenc_int_bytes(text.len()).len() + i]
                == #[trigger] text[i],
{
}

/// Strings, blobs, sets, enums, decimals, bits and geometries are sent as
/// length-encoded strings, and are what those hold.
pub proof fn law_text_columns(col_type: ColumnType, unsigned: bool, s: Seq<u8>)
    requires
        col_type == ColumnType::MYSQL_TYPE_STRING || col_type == ColumnType::MYSQL_TYPE_VAR_STRING
            || col_type == ColumnType::MYSQL_TYPE_BLOB || col_type
            == ColumnType::MYSQL_TYPE_TINY_BLOB || col_type == ColumnType::MYSQL_TYPE_MEDIUM_BLOB
            || col_type == ColumnType::MYSQL_TYPE_LONG_BLOB || col_type
            == ColumnType::MYSQL_TYPE_SET || col_type == ColumnType::MYSQL_TYPE_ENUM || col_type
            == ColumnType::MYSQL_TYPE_DECIMAL || col_type == ColumnType::MYSQL_TYPE_VARCHAR
            || col_type == ColumnType::MYSQL_TYPE_BIT || col_type
            == ColumnType::MYSQL_TYPE_NEWDECIMAL || col_type == ColumnType::MYSQL_TYPE_GEOMETRY,
    ensures
        lenenc_text(s) matches Parsed::Done(text, k) ==> bin_value(col_type, unsigned, s)
            == Parsed::Done(ValueView::Bytes(text), k),
        lenenc_text(s) matches Parsed::Short(cut, missing) ==> bin_value(col_type, unsigned, s)
            == Parsed::<ValueView>::Short(cut, missing),
{
}

/// Columns of the types that are never sent take no bytes and are NULL.
pub proof fn law_null_columns(col_type: ColumnType, unsigned: bool, s: Seq<u8>)
    requires
        col_type == ColumnType::MYSQL_TYPE_NULL || col_type == ColumnType::MYSQL_TYPE_NEWDATE
            || col_type == ColumnType::MYSQL_TYPE_TIMESTAMP2 || col_type
            == ColumnType::MYSQL_TYPE_DATETIME2 || col_type == ColumnType::MYSQL_TYPE_TIME2,
    ensures
        bin_value(col_type, unsigned, s) == Parsed::Done(ValueView::NULL, 0),
{
}

/// A tiny integer is one byte, which counts from -128 if it has a sign.
pub proof fn law_tiny_on_the_wire(unsigned: bool, s: Seq<u8>)
    ensures
        bin_value(ColumnType::MYSQL_TYPE_TINY, unsigned, s) == if s.len() < 1 {
            Parsed::Short(Cut::Field, 1)
        } else if unsigned || s[0] < 128 {
            Parsed::Done(ValueView::Int(s[0] as int), 1)
        } else {
            Parsed::Done(ValueView::Int(s[0] - 0x100), 1)
        },
{
    if s.len() >= 1 {
        law_place_values(field(s, 0, 1));
        law_sign(field(s, 0, 1));
    }
}

/// A short integer or a year is two bytes, of which the first counts least; with
/// a sign, it is negative if the last byte is 128 or more.
pub proof fn law_short_on_the_wire(col_type: ColumnType, unsigned: bool, s: Seq<u8>)
    requires
        col_type == ColumnType::MYSQL_TYPE_SHORT || col_type == ColumnType::MYSQL_TYPE_YEAR,
    ensures
        bin_value(col_type, unsigned, s) == if s.len() < 2 {
            Parsed::Short(Cut::Field, (2 - s.len()) as nat)
        } else if unsigned || s[1] < 128 {
            Parsed::Done(ValueView::Int(s[0] + 0x100 * s[1]), 2)
        } else {
            Parsed::Done(ValueView::Int(s[0] + 0x100 * s[1] - 0x1_0000), 2)
        },
{
    if s.len() >= 2 {
        law_place_values(field(s, 0, 2));
        law_sign(field(s, 0, 2));
    }
}

/// An integer, also one of 24 bits, is four bytes, of which the first counts
/// least; with a sign, it is negative if the last byte is 128 or more.
pub proof fn law_long_on_the_wire(col_type: ColumnType, unsigned: bool, s: Seq<u8>)
    requires
        col_type == ColumnType::MYSQL_TYPE_LONG || col_type == ColumnType::MYSQL_TYPE_INT24,
    ensures
        s.len() < 4 ==> bin_value(col_type, unsigned, s) == Parsed::<ValueView>::Short(
            Cut::Field,
            (4 - s.len()) as nat,
        ),
        s.len() >= 4 ==> {
            let n = s[0] + 0x100 * s[1] + 0x1_0000 * s[2] + 0x100_0000 * s[3];
            bin_value(col_type, unsigned, s) == if unsigned || s[3] < 128 {
                Parsed::Done(ValueView::Int(n), 4)
            } else {
                Parsed::Done(ValueView::Int(n - 0x1_0000_0000), 4)
            }
        },
{
    if s.len() >= 4 {
        law_place_values(field(s, 0, 4));
        law_sign(field(s, 0, 4));
    }
}

/// A long integer is eight bytes, of which the first counts least. Only without a
/// sign is it handed out as an unsigned number.
pub proof fn law_longlong_on_the_wire(unsigned: bool, s: Seq<u8>)
    ensures
        s.len() < 8 ==> bin_value(ColumnType::MYSQL_TYPE_LONGLONG, unsigned, s) == Parsed::<
            ValueView,
        >::Short(Cut::Field, (8 - s.len()) as nat),
        s.len() >= 8 ==> {
            let n = s[0] + 0x100 * s[1] + 0x1_0000 * s[2] + 0x100_0000 * s[3] + 0x1_0000_0000
                * s[4] + 0x100_0000_0000 * s[5] + 0x1_0000_0000_0000 * s[6] + 0x100_0000_0000_0000
                * s[7];
            bin_value(ColumnType::MYSQL_TYPE_LONGLONG, unsigned, s) == if unsigned {
                Parsed::Done(ValueView::UInt(n as nat), 8)
            } else if s[7] < 128 {
                Parsed::Done(ValueView::Int(n), 8)
            } else {
                Parsed::Done(ValueView::Int(n - 0x1_0000_0000_0000_0000), 8)
            }
        },
{
    if s.len() >= 8 {
        law_place_values(field(s, 0, 8));
        law_sign(field(s, 0, 8));
    }
}

/// A floating-point number is its four or eight bytes, none of them changed,
/// whatever is said of a sign.
pub proof fn law_floats_on_the_wire(unsigned: bool, s: Seq<u8>)
    ensures
        s.len() < 4 ==> bin_value(ColumnType::MYSQL_TYPE_FLOAT, unsigned, s) == Parsed::<
            ValueView,
        >::Short(Cut::Field, (4 - s.len()) as nat),
        s.len() >= 4 ==> bin_value(ColumnType::MYSQL_TYPE_FLOAT, unsigned, s) == Parsed::Done(
            ValueView::Single(
                (s[0] + 0x100 * s[1] + 0x1_0000 * s[2] + 0x100_0000 * s[3]) as nat,
            ),
            4,
        ),
        s.len() < 8 ==> bin_value(ColumnType::MYSQL_TYPE_DOUBLE, unsigned, s) == Parsed::<
            ValueView,
        >::Short(Cut::Field, (8 - s.len()) as nat),
        s.len() >= 8 ==> bin_value(ColumnType::MYSQL_TYPE_DOUBLE, unsigned, s) == Parsed::Done(
            ValueView::Double(
                (s[0] + 0x100 * s[1] + 0x1_0000 * s[2] + 0x100_0000 * s[3] + 0x1_0000_0000 * s[4]
                    + 0x100_0000_0000 * s[5] + 0x1_0000_0000_0000 * s[6] + 0x100_0000_0000_0000
                    * s[7]) as nat,
            ),
            8,
        ),
{
    if s.len() >= 4 {
        law_place_values(field(s, 0, 4));
    }
    if s.len() >= 8 {
        law_place_values(field(s, 0, 8));
    }
}

/// The bytes of a number at the front are where a reader looks for them.
proof fn lemma_front_number(x: nat, width: nat, rest: Seq<u8>)
    requires
        width == 1 && x < 0x100 || width == 2 && x < 0x1_0000 || width == 4 && x < 0x1_0000_0000
            || width == 8 && x < 0x1_0000_0000_0000_0000,
    ensures
        ({
            let b = field(le_bytes(x, width) + rest, 0, width);
            &&& (le_bytes(x, width) + rest).len() == width + rest.len()
            &&& le_nat(b) == x
            &&& width == 1 ==> le_int(b) == if x < 0x80 {
                x as int
            } else {
                x - 0x100
            }
            &&& width == 2 ==> le_int(b) == if x < 0x8000 {
                x as int
            } else {
                x - 0x1_0000
            }
            &&& width == 4 ==> le_int(b) == if x < 0x8000_0000 {
                x as int
            } else {
                x - 0x1_0000_0000
            }
            &&& width == 8 ==> le_int(b) == if x < 0x8000_0000_0000_0000 {
                x as int
            } else {
                x - 0x1_0000_0000_0000_0000
            }
        }),
{
    let b = le_bytes(x, width);
    lemma2_to64();
    lemma_le_bytes_len(x, width);
    law_le_encode_decode(x, width);
    law_digits(x, width);
    law_sign(b);
    assert(field(b + rest, 0, width) =~= b);
}

/// Every tiny integer is read back from its byte: `x` from its two's complement,
/// if it has a sign, and `y` without one.
pub proof fn law_tiny_round_trip(x: i8, y: u8, rest: Seq<u8>)
    ensures
        bin_value(
            ColumnType::MYSQL_TYPE_TINY,
            false,
            le_bytes(
                (if x < 0 {
                    x + 0x100
                } else {
                    x as int
                }) as nat,
                1,
            ) + rest,
        ) == Parsed::Done(ValueView::Int(x as int), 1),
        bin_value(ColumnType::MYSQL_TYPE_TINY, true, le_bytes(y as nat, 1) + rest) == Parsed::Done(
            ValueView::Int(y as int),
            1,
        ),
{
    lemma_front_number(
        (if x < 0 {
            x + 0x100
        } else {
            x as int
        }) as nat,
        1,
        rest,
    );
    lemma_front_number(y as nat, 1, rest);
}

/// Every short integer and every year is read back from its bytes: `x` from its
/// two's complement, if it has a sign, and `y` without one.
pub proof fn law_short_round_trip(col_type: ColumnType, x: i16, y: u16, rest: Seq<u8>)
    requires
        col_type == ColumnType::MYSQL_TYPE_SHORT || col_type == ColumnType::MYSQL_TYPE_YEAR,
    ensures
        bin_value(
            col_type,
            false,
            le_bytes(
                (if x < 0 {
                    x + 0x1_0000
                } else {
                    x as int
                }) as nat,
                2,
            ) + rest,
        ) == Parsed::Done(ValueView::Int(x as int), 2),
        bin_value(col_type, true, le_bytes(y as nat, 2) + rest) == Parsed::Done(
            ValueView::Int(y as int),
            2,
        ),
{
    lemma_front_number(
        (if x < 0 {
            x + 0x1_0000
        } else {
            x as int
        }) as nat,
        2,
        rest,
    );
    lemma_front_number(y as nat, 2, rest);
}

/// Every integer is read back from its bytes: `x` from its two's complement, if it
/// has a sign, and `y` without one.
pub proof fn law_long_round_trip(col_type: ColumnType, x: i32, y: u32, rest: Seq<u8>)
    requires
        col_type == ColumnType::MYSQL_TYPE_LONG || col_type == ColumnType::MYSQL_TYPE_INT24,
    ensures
        bin_value(
            col_type,
            false,
            le_bytes(
                (if x < 0 {
                    x + 0x1_0000_0000
                } else {
                    x as int
                }) as nat,
                4,
            ) + rest,
        ) == Parsed::Done(ValueView::Int(x as int), 4),
        bin_value(col_type, true, le_bytes(y as nat, 4) + rest) == Parsed::Done(
            ValueView::Int(y as int),
            4,
        ),
{
    lemma_front_number(
        (if x < 0 {
            x + 0x1_0000_0000
        } else {
            x as int
        }) as nat,
        4,
        rest,
    );
    lemma_front_number(y as nat, 4, rest);
}

/// Every long integer is read back from its bytes: `x` from its two's complement,
/// if it has a sign, and `y` without one.
pub proof fn law_longlong_round_trip(x: i64, y: u64, rest: Seq<u8>)
    ensures
        bin_value(
            ColumnType::MYSQL_TYPE_LONGLONG,
            false,
            le_bytes(
                (if x < 0 {
                    x + 0x1_0000_0000_0000_0000
                } else {
                    x as int
                }) as nat,
                8,
            ) + rest,
        ) == Parsed::Done(ValueView::Int(x as int), 8),
        bin_value(ColumnType::MYSQL_TYPE_LONGLONG, true, le_bytes(y as nat, 8) + rest) == Parsed::Done(
            ValueView::UInt(y as nat),
            8,
        ),
{
    lemma_front_number(
        (if x < 0 {
            x + 0x1_0000_0000_0000_0000
        } else {
            x as int
        }) as nat,
        8,
        rest,
    );
    lemma_front_number(y as nat, 8, rest);
}

/// The bits of every floating-point number are read back from their bytes.
pub proof fn law_float_round_trip(single: u32, double: u64, unsigned: bool, rest: Seq<u8>)
    ensures
        bin_value(
            ColumnType::MYSQL_TYPE_FLOAT,
            unsigned,
            le_bytes(single as nat, 4) + rest,
        ) == Parsed::Done(ValueView::Single(single as nat), 4),
        bin_value(
            ColumnType::MYSQL_TYPE_DOUBLE,
            unsigned,
            le_bytes(double as nat, 8) + rest,
        ) == Parsed::Done(ValueView::Double(double as nat), 8),
{
    lemma_front_number(single as nat, 4, rest);
    lemma_front_number(double as nat, 8, rest);
}

/// A date is a length byte and as many bytes as it tells of: below 4 none; below 7
/// the year in two bytes, month and day; then hours, minutes and seconds too; and
/// at just 11 the microseconds in four bytes too.
pub proof fn law_date_on_the_wire(col_type: ColumnType, unsigned: bool, s: Seq<u8>)
    requires
        col_type == ColumnType::MYSQL_TYPE_DATE || col_type == ColumnType::MYSQL_TYPE_DATETIME
            || col_type == ColumnType::MYSQL_TYPE_TIMESTAMP,
    ensures
        s.len() == 0 ==> bin_value(col_type, unsigned, s) == Parsed::<ValueView>::Short(
            Cut::Field,
            1,
        ),
        s.len() > 0 && s[0] < 4 ==> bin_value(col_type, unsigned, s) == Parsed::Done(
            ValueView::Date(0, 0, 0, 0, 0, 0, 0),
            1,
        ),
        s.len() > 0 && 4 <= s[0] < 7 ==> bin_value(col_type, unsigned, s) == if s.len() < 5 {
            Parsed::Short(Cut::Field, (5 - s.len()) as nat)
        } else {
            Parsed::Done(
                ValueView::Date((s[1] + 0x100 * s[2]) as nat, s[3], s[4], 0, 0, 0, 0),
                5,
            )
        },
        s.len() > 0 && 7 <= s[0] && s[0] != 11 ==> bin_value(col_type, unsigned, s) == if s.len()
            < 8 {
            Parsed::Short(Cut::Field, (8 - s.len()) as nat)
        } else {
            Parsed::Done(
                ValueView::Date((s[1] + 0x100 * s[2]) as nat, s[3], s[4], s[5], s[6], s[7], 0),
                8,
            )
        },
        s.len() > 0 && s[0] == 11 ==> bin_value(col_type, unsigned, s) == if s.len() < 12 {
            Parsed::Short(Cut::Field, (12 - s.len()) as nat)
        } else {
            Parsed::Done(
                ValueView::Date(
                    (s[1] + 0x100 * s[2]) as nat,
                    s[3],
                    s[4],
                    s[5],
                    s[6],
                    s[7],
                    (s[8] + 0x100 * s[9] + 0x1_0000 * s[10] + 0x100_0000 * s[11]) as nat,
                ),
                12,
            )
        },
{
    if s.len() >= 3 {
        law_place_values(field(s, 1, 2));
    }
    if s.len() >= 12 {
        law_place_values(field(s, 8, 4));
    }
}

/// A time is a length byte and as many bytes as it tells of: below 8 none; then a
/// byte that is 1 if the time is negative, the days in four bytes, hours, minutes
/// and seconds; and at just 12 the microseconds in four bytes too.
pub proof fn law_time_on_the_wire(unsigned: bool, s: Seq<u8>)
    ensures
        s.len() == 0 ==> bin_value(ColumnType::MYSQL_TYPE_TIME, unsigned, s) == Parsed::<
            ValueView,
        >::Short(Cut::Field, 1),
        s.len() > 0 && s[0] < 8 ==> bin_value(ColumnType::MYSQL_TYPE_TIME, unsigned, s)
            == Parsed::Done(ValueView::Time(false, 0, 0, 0, 0, 0), 1),
        s.len() > 0 && 8 <= s[0] && s[0] != 12 ==> bin_value(
            ColumnType::MYSQL_TYPE_TIME,
            unsigned,
            s,
        ) == if s.len() < 9 {
            Parsed::Short(Cut::Field, (9 - s.len()) as nat)
        } else {
            Parsed::Done(
                ValueView::Time(
                    s[1] == 1,
                    (s[2] + 0x100 * s[3] + 0x1_0000 * s[4] + 0x100_0000 * s[5]) as nat,
                    s[6],
                    s[7],
                    s[8],
                    0,
                ),
                9,
            )
        },
        s.len() > 0 && s[0] == 12 ==> bin_value(ColumnType::MYSQL_TYPE_TIME, unsigned, s) == if s.len()
            < 13 {
            Parsed::Short(Cut::Field, (13 - s.len()) as nat)
        } else {
            Parsed::Done(
                ValueView::Time(
                    s[1] == 1,
                    (s[2] + 0x100 * s[3] + 0x1_0000 * s[4] + 0x100_0000 * s[5]) as nat,
                    s[6],
                    s[7],
                    s[8],
                    (s[9] + 0x100 * s[10] + 0x1_0000 * s[11] + 0x100_0000 * s[12]) as nat,
                ),
                13,
            )
        },
{
    if s.len() >= 6 {
        law_place_values(field(s, 2, 4));
    }
    if s.len() >= 13 {
        law_place_values(field(s, 9, 4));
    }
}

/// Every date is read back from its layout, with or without its microseconds and
/// with or without its time of day.
pub proof fn law_date_round_trip(
    col_type: ColumnType,
    unsigned: bool,
    year: u16,
    month: u8,
    day: u8,
    hour: u8,
    minute: u8,
    second: u8,
    micro: u32,
    rest: Seq<u8>,
)
    requires
        col_type == ColumnType::MYSQL_TYPE_DATE || col_type == ColumnType::MYSQL_TYPE_DATETIME
            || col_type == ColumnType::MYSQL_TYPE_TIMESTAMP,
    ensures
        bin_value(
            col_type,
            unsigned,
            seq![11u8] + le_bytes(year as nat, 2) + seq![month, day, hour, minute, second]
                + le_bytes(micro as nat, 4) + rest,
        ) == Parsed::Done(
            ValueView::Date(year as nat, month, day, hour, minute, second, micro as nat),
            12,
        ),
        bin_value(
            col_type,
            unsigned,
            seq![7u8] + le_bytes(year as nat, 2) + seq![month, day, hour, minute, second] + rest,
        ) == Parsed::Done(ValueView::Date(year as nat, month, day, hour, minute, second, 0), 8),
        bin_value(
            col_type,
            unsigned,
            seq![4u8] + le_bytes(year as nat, 2) + seq![month, day] + rest,
        ) == Parsed::Done(ValueView::Date(year as nat, month, day, 0, 0, 0, 0), 5),
        bin_value(col_type, unsigned, seq![0u8] + rest) == Parsed::Done(
            ValueView::Date(0, 0, 0, 0, 0, 0, 0),
            1,
        ),
{
    lemma2_to64();
    let y = le_bytes(year as nat, 2);
    let m = le_bytes(micro as nat, 4);
    lemma_le_bytes_len(year as nat, 2);
    lemma_le_bytes_len(micro as nat, 4);
    law_le_encode_decode(year as nat, 2);
    law_le_encode_decode(micro as nat, 4);
    let clock = seq![month, day, hour, minute, second];
    let full = seq![11u8] + y + clock + m + rest;
    let plain = seq![7u8] + y + clock + rest;
    let days = seq![4u8] + y + seq![month, day] + rest;
    assert(field(full, 1, 2) =~= y);
    assert(field(full, 8, 4) =~= m);
    assert(field(plain, 1, 2) =~= y);
    assert(field(days, 1, 2) =~= y);
}

/// Every time is read back from its layout, whether it is negative or not, with
/// or without its microseconds.
pub proof fn law_time_round_trip(
    negative: bool,
    days: u32,
    hours: u8,
    minutes: u8,
    seconds: u8,
    micro: u32,
    unsigned: bool,
    rest: Seq<u8>,
)
    ensures
        ({
            let sign: u8 = if negative {
                1
            } else {
                0
            };
            &&& bin_value(
                ColumnType::MYSQL_TYPE_TIME,
                unsigned,
                seq![12u8, sign] + le_bytes(days as nat, 4) + seq![hours, minutes, seconds]
                    + le_bytes(micro as nat, 4) + rest,
            ) == Parsed::Done(
                ValueView::Time(negative, days as nat, hours, minutes, seconds, micro as nat),
                13,
            )
            &&& bin_value(
                ColumnType::MYSQL_TYPE_TIME,
                unsigned,
                seq![8u8, sign] + le_bytes(days as nat, 4) + seq![hours, minutes, seconds] + rest,
            ) == Parsed::Done(
                ValueView::Time(negative, days as nat, hours, minutes, seconds, 0),
                9,
            )
            &&& bin_value(ColumnType::MYSQL_TYPE_TIME, unsigned, seq![0u8] + rest) == Parsed::Done(
                ValueView::Time(false, 0, 0, 0, 0, 0),
                1,
            )
        }),
{
    lemma2_to64();
    let sign: u8 = if negative {
        1
    } else {
        0
    };
    let d = le_bytes(days as nat, 4);
    let m = le_bytes(micro as nat, 4);
    lemma_le_bytes_len(days as nat, 4);
    lemma_le_bytes_len(micro as nat, 4);
    law_le_encode_decode(days as nat, 4);
    law_le_encode_decode(micro as nat, 4);
    let full = seq![12u8, sign] + d + seq![hours, minutes, seconds] + m + rest;
    let plain = seq![8u8, sign] + d + seq![hours, minutes, seconds] + rest;
    assert(field(full, 2, 4) =~= d);
    assert(field(full, 9, 4) =~= m);
    assert(field(plain, 2, 4) =~= d);
}

/// A frame is the length of its payload in three bytes, of which the first counts
/// least, the sequence id, and the payload as it is.
pub proof fn law_frame_layout(payload: Seq<u8>, seq_id: u8)
    requires
        payload.len() <= 0xff_ffff,
    ensures
        frame(payload, seq_id).len() == 4 + payload.len(),
        frame(payload, seq_id)[0] == payload.len() % 0x100,
        frame(payload, seq_id)[1] == payload.len() / 0x100 % 0x100,
        frame(payload, seq_id)[2] == payload.len() / 0x1_0000,
        frame(payload, seq_id)[3] == seq_id,
        forall|i: int|
            0 <= i < payload.len() ==> frame(payload, seq_id)[4 + i] == #[trigger] payload[i],
{
    lemma_layouts(payload.len());
}

/// A frame is read from its first four bytes on: three for the length of what
/// follows, of which the first counts least, and one that has to be the expected
/// sequence id.
pub proof fn law_frame_on_the_wire(s: Seq<u8>, seq_id: u8)
    ensures
        s.len() < 4 ==> front_frame(s, seq_id) == ParsedFrame::Short(
            Cut::Field,
            (4 - s.len()) as nat,
        ),
        s.len() >= 4 && s[3] != seq_id ==> front_frame(s, seq_id) == ParsedFrame::OutOfSync,
        s.len() >= 4 && s[3] == seq_id ==> {
            let n = s[0] + 0x100 * s[1] + 0x1_0000 * s[2];
            front_frame(s, seq_id) == if s.len() < 4 + n {
                ParsedFrame::Short(Cut::Payload, (4 + n - s.len()) as nat)
            } else {
                ParsedFrame::Whole(s.subrange(4, 4 + n))
            }
        },
{
    if s.len() >= 4 {
        law_place_values(field(s, 0, 3));
    }
}

/// A packet is read frame by frame. One whose length is not 0xffffff ends it; after
/// one whose length is, the packet goes on with the next sequence id, which is 0
/// after 255, and what it holds is joined.
pub proof fn law_packet_on_the_wire(s: Seq<u8>, seq_id: u8)
    ensures
        s.len() < 4 ==> packet(s, seq_id) == ParsedPacket::Short(
            Cut::Field,
            (4 - s.len()) as nat,
        ),
        s.len() >= 4 && s[3] != seq_id ==> packet(s, seq_id) == (ParsedPacket::OutOfSync {
            consumed: 4,
        }),
        s.len() >= 4 && s[3] == seq_id ==> {
            let n = s[0] + 0x100 * s[1] + 0x1_0000 * s[2];
            let payload = s.subrange(4, 4 + n);
            let id = ((seq_id + 1) % 256) as u8;
            if s.len() < 4 + n {
                packet(s, seq_id) == ParsedPacket::Short(Cut::Payload, (4 + n - s.len()) as nat)
            } else if n < 0xff_ffff {
                packet(s, seq_id) == (ParsedPacket::Whole {
                    payload,
                    consumed: (4 + n) as nat,
                    next: id,
                })
            } else {
                packet(s, seq_id) == match packet(s.skip(4 + n), id) {
                    ParsedPacket::Whole { payload: more, consumed, next } => ParsedPacket::Whole {
                        payload: payload + more,
                        consumed: (4 + n + consumed) as nat,
                        next,
                    },
                    ParsedPacket::OutOfSync { consumed } => ParsedPacket::OutOfSync {
                        consumed: (4 + n + consumed) as nat,
                    },
                    ParsedPacket::Short(cut, missing) => ParsedPacket::Short(cut, missing),
                }
            }
        },
{
    law_frame_on_the_wire(s, seq_id);
}

/// A packet of less than 0xffffff bytes is one frame. A longer one begins with a
/// frame of that many bytes, and goes on as the packet of the rest with the next
/// sequence id, also where nothing is left.
pub proof fn law_packet_layout(data: Seq<u8>, seq_id: u8)
    ensures
        data.len() < 0xff_ffff ==> {
            let bytes = packet_bytes(data, seq_id);
            &&& bytes.len() == 4 + data.len()
            &&& bytes[0] == data.len() % 0x100
            &&& bytes[1] == data.len() / 0x100 % 0x100
            &&& bytes[2] == data.len() / 0x1_0000
            &&& bytes[3] == seq_id
            &&& forall|i: int| 0 <= i < data.len() ==> bytes[4 + i] == #[trigger] data[i]
        },
        data.len() >= 0xff_ffff ==> {
            let bytes = packet_bytes(data, seq_id);
            &&& bytes.len() >= 0x100_0003
            &&& bytes.take(4) == seq![0xffu8, 0xff, 0xff, seq_id]
            &&& forall|i: int| 0 <= i < 0xff_ffff ==> bytes[4 + i] == #[trigger] data[i]
            &&& bytes.skip(0x100_0003) == packet_bytes(
                data.skip(0xff_ffff),
                ((seq_id + 1) % 256) as u8,
            )
        },
{
    if data.len() < 0xff_ffff {
        law_frame_layout(data, seq_id);
    } else {
        let head = data.take(0xff_ffff);
        law_frame_layout(head, seq_id);
        let bytes = packet_bytes(data, seq_id);
        assert forall|i: int| 0 <= i < 0xff_ffff implies bytes[4 + i] == #[trigger] data[i] by {
            assert(data[i] == head[i]);
        }
        assert(bytes.skip(0x100_0003) =~= packet_bytes(
            data.skip(0xff_ffff),
            ((seq_id + 1) % 256) as u8,
        ));
    }
}

/// A payload is refused just if it is longer than the limit and the limit is less
/// than what one frame holds.
pub proof fn law_limit(len: nat, max_allowed_packet: usize)
    ensures
        too_large(len, max_allowed_packet) <==> len > max_allowed_packet && max_allowed_packet
            < 16_777_215,
{
}

/// A payload takes as many frames as it fills, and one that it does not fill.
pub proof fn law_frame_count(len: nat)
    ensures
        (frame_count(len) - 1) * 16_777_215 <= len < frame_count(len) * 16_777_215,
{
}

/// Frame `i` of a packet holds the bytes from `i` times 0xffffff on, as many as a
/// frame holds or as are left, and its sequence id is `i` more than the first one,
/// with 0 after 255.
pub proof fn law_packet_frame_layout(data: Seq<u8>, seq_id: u8, i: nat)
    requires
        i * 0xff_ffff <= data.len(),
    ensures
        ({
            let bytes = packet_frame(data, seq_id, i);
            let from = i * 0xff_ffff;
            let n = if data.len() - from < 0xff_ffff {
                data.len() - from
            } else {
                0xff_ffff
            };
            &&& i < packet_frames(data, seq_id).len()
            &&& packet_frames(data, seq_id)[i as int] == bytes
            &&& bytes.len() == 4 + n
            &&& bytes[0] == n % 0x100
            &&& bytes[1] == n / 0x100 % 0x100
            &&& bytes[2] == n / 0x1_0000
            &&& bytes[3] == (seq_id + i) % 256
            &&& forall|j: int| from <= j < from + n ==> bytes[4 + j - from] == #[trigger] data[j]
        }),
{
    let part = chunk(data, i);
    law_frame_layout(part, ((seq_id + i) % 256) as u8);
    let bytes = packet_frame(data, seq_id, i);
    assert forall|j: int| i * 0xff_ffff <= j < i * 0xff_ffff + part.len() implies bytes[4 + j - i
        * 0xff_ffff] == #[trigger] data[j] by {
        assert(data[j] == part[j - i * 0xff_ffff]);
    }
}

/// What comes after `i` frames of a packet were sent: the frame from `i` times
/// 0xffffff on, if the payload reaches there; otherwise the sequence id that
/// follows; and in any case the error, if there was one.
pub proof fn law_step<'a, E>(
    packet: PacketWriter<'a>,
    outcome: Result<(), E>,
    step: SendStep<'a, E>,
)
    requires
        packet.answers(outcome, step),
    ensures
        outcome matches Err(e) ==> step == SendStep::<'a, E>::Done(Err(e)),
        outcome is Ok && packet.sent() * 0xff_ffff > packet.data().len() ==> (
        step matches SendStep::Done(Ok(next)) && next == (packet.seq_id() + packet.data().len()
            / 0xff_ffff + 1) % 256),
        outcome is Ok && packet.sent() * 0xff_ffff <= packet.data().len() ==> {
            let data = packet.data();
            let from = packet.sent() * 0xff_ffff;
            let n = if data.len() - from < 0xff_ffff {
                data.len() - from
            } else {
                0xff_ffff
            };
            &&& step matches SendStep::Frame { bytes, more, rest }
            &&& bytes@.len() == 4 + n
            &&& bytes@[0] == n % 0x100
            &&& bytes@[1] == n / 0x100 % 0x100
            &&& bytes@[2] == n / 0x1_0000
            &&& bytes@[3] == (packet.seq_id() + packet.sent()) % 256
            &&& forall|j: int| from <= j < from + n ==> bytes@[4 + j - from] == #[trigger] data[j]
            &&& more <==> from + 0xff_ffff <= data.len()
            &&& rest.data() == data
            &&& rest.seq_id() == packet.seq_id()
            &&& rest.sent() == packet.sent() + 1
        },
{
    if packet.sent() * 0xff_ffff <= packet.data().len() {
        law_packet_frame_layout(packet.data(), packet.seq_id(), packet.sent());
    }
}

} // verus!
