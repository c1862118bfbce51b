use mysql_io::consts::ColumnType;
use mysql_io::error::{ErrorKind, IoError};
use mysql_io::read::Read;
use mysql_io::value::{FloatBits, Value};
use mysql_io::write::Write;

fn value(col_type: ColumnType, unsigned: bool, bytes: &[u8]) -> (Value, usize) {
    let mut rd: &[u8] = bytes;
    let v = rd.read_bin_value(col_type, unsigned).unwrap();
    (v, bytes.len() - rd.len())
}

fn lenenc(bytes: &[u8]) -> (u64, usize) {
    let mut rd: &[u8] = bytes;
    let x = rd.read_lenenc_int().unwrap();
    (x, bytes.len() - rd.len())
}

#[test]
fn lenenc_int_of_each_width() {
    assert_eq!(lenenc(&[0]), (0, 1));
    assert_eq!(lenenc(&[0xfa, 1]), (250, 1));
    assert_eq!(lenenc(&[0xfb, 1]), (251, 1));
    assert_eq!(lenenc(&[0xff, 1]), (255, 1));
    assert_eq!(lenenc(&[0xfc, 0xfb, 0, 9]), (251, 3));
    assert_eq!(lenenc(&[0xfd, 1, 2, 3, 9]), (0x030201, 4));
    assert_eq!(lenenc(&[0xfe, 1, 2, 3, 4, 5, 6, 7, 8, 9]), (0x0807060504030201, 9));
}

#[test]
fn lenenc_int_layouts() {
    for (x, bytes) in [
        (0u64, vec![0u8]),
        (250, vec![250]),
        (251, vec![0xfc, 251, 0]),
        (65_535, vec![0xfc, 0xff, 0xff]),
        (65_536, vec![0xfd, 0, 0, 1]),
        (16_777_215, vec![0xfd, 0xff, 0xff, 0xff]),
        (16_777_216, vec![0xfe, 0, 0, 0, 1, 0, 0, 0, 0]),
        (u64::MAX, vec![0xfe, 255, 255, 255, 255, 255, 255, 255, 255]),
    ] {
        let mut out: Vec<u8> = Vec::new();
        out.write_lenenc_int(x).unwrap();
        assert_eq!(out, bytes);
        assert_eq!(lenenc(&out), (x, bytes.len()));
    }
}

#[test]
fn lenenc_int_cut_short() {
    for bytes in [&[][..], &[0xfc], &[0xfc, 1], &[0xfd, 1, 2], &[0xfe, 1, 2, 3, 4, 5, 6, 7]] {
        let mut rd: &[u8] = bytes;
        assert!(matches!(rd.read_lenenc_int(), Err(IoError::UnexpectedEof)));
        assert!(rd.is_empty());
    }
}

#[test]
fn longer_layouts_are_read_too() {
    assert_eq!(lenenc(&[0xfe, 5, 0, 0, 0, 0, 0, 0, 0]), (5, 9));
}

#[test]
fn le_uint_of_each_width() {
    for n in 0..9usize {
        let mut out: Vec<u8> = vec![7];
        out.write_le_uint_n(0x0807060504030201, n).unwrap();
        assert_eq!(out[1..], [1, 2, 3, 4, 5, 6, 7, 8][..n]);
    }
}

#[test]
fn lenenc_text_round_trip() {
    for len in [0usize, 1, 250, 251, 70_000] {
        let text: Vec<u8> = (0..len).map(|i| (i % 251) as u8).collect();
        let mut out: Vec<u8> = Vec::new();
        out.write_lenenc_bytes(&text).unwrap();
        out.push(99);
        let mut rd: &[u8] = &out;
        assert!(rd.read_lenenc_bytes().unwrap() == text);
        assert_eq!(rd, [99]);
    }
}

#[test]
fn lenenc_text_cut_short() {
    let mut rd: &[u8] = &[3, 1, 2];
    assert!(matches!(rd.read_lenenc_bytes(), Err(IoError::StringEof)));
    assert!(rd.is_empty());
    let mut rd: &[u8] = &[0xfc, 1];
    assert!(matches!(rd.read_lenenc_bytes(), Err(IoError::UnexpectedEof)));
    let mut rd: &[u8] = &[0xfe, 255, 255, 255, 255, 255, 255, 255, 255, 1];
    assert!(matches!(rd.read_lenenc_bytes(), Err(IoError::StringEof)));
}

#[test]
fn messages_and_kinds_of_errors() {
    assert_eq!(
        IoError::StringEof.message(),
        Some("Unexpected EOF while reading length encoded string")
    );
    assert_eq!(IoError::PacketEof.message(), Some("Unexpected EOF while reading packet"));
    assert_eq!(IoError::UnexpectedEof.message(), None);
    assert_eq!(IoError::StringEof.kind(), ErrorKind::Other);
    assert_eq!(IoError::PacketEof.kind(), ErrorKind::Other);
    assert_eq!(IoError::UnexpectedEof.kind(), ErrorKind::UnexpectedEof);
    assert_eq!(IoError::Missing(1).kind(), ErrorKind::UnexpectedEof);
}

#[test]
fn text_up_to_null() {
    let mut rd: &[u8] = &[65, 66, 0, 67, 0];
    assert_eq!(rd.read_to_null().unwrap(), vec![65, 66]);
    assert_eq!(rd, [67, 0]);
    assert_eq!(rd.read_to_null().unwrap(), vec![67]);
    assert_eq!(rd.read_to_null().unwrap(), vec![]);
    let mut rd: &[u8] = &[65, 66];
    assert_eq!(rd.read_to_null().unwrap(), vec![65, 66]);
    assert!(rd.is_empty());
}

#[test]
fn integer_columns() {
    assert_eq!(value(ColumnType::MYSQL_TYPE_TINY, false, &[0x80, 1]), (Value::Int(-128), 1));
    assert_eq!(value(ColumnType::MYSQL_TYPE_TINY, true, &[0x80, 1]), (Value::Int(128), 1));
    assert_eq!(value(ColumnType::MYSQL_TYPE_SHORT, false, &[0xfe, 0xff, 1]), (Value::Int(-2), 2));
    assert_eq!(value(ColumnType::MYSQL_TYPE_SHORT, true, &[0xfe, 0xff, 1]), (Value::Int(65_534), 2));
    assert_eq!(value(ColumnType::MYSQL_TYPE_YEAR, true, &[0xe0, 0x07]), (Value::Int(2016), 2));
    assert_eq!(value(ColumnType::MYSQL_TYPE_LONG, false, &[0xfd, 255, 255, 255]), (Value::Int(-3), 4));
    assert_eq!(value(ColumnType::MYSQL_TYPE_LONG, true, &[0xfd, 255, 255, 255]), (Value::Int(4_294_967_293), 4));
    assert_eq!(value(ColumnType::MYSQL_TYPE_INT24, false, &[1, 2, 3, 4]), (Value::Int(0x04030201), 4));
    assert_eq!(
        value(ColumnType::MYSQL_TYPE_LONGLONG, false, &[0xfc, 255, 255, 255, 255, 255, 255, 255]),
        (Value::Int(-4), 8)
    );
    assert_eq!(
        value(ColumnType::MYSQL_TYPE_LONGLONG, true, &[0xfc, 255, 255, 255, 255, 255, 255, 255]),
        (Value::UInt(u64::MAX - 3), 8)
    );
}

#[test]
fn float_columns() {
    assert_eq!(
        value(ColumnType::MYSQL_TYPE_FLOAT, false, &1.5f32.to_le_bytes()),
        (Value::Float(FloatBits::Single(1.5f32.to_bits())), 4)
    );
    assert_eq!(
        value(ColumnType::MYSQL_TYPE_DOUBLE, false, &(-2.25f64).to_le_bytes()),
        (Value::Float(FloatBits::Double((-2.25f64).to_bits())), 8)
    );
}

#[test]
fn text_columns() {
    for t in [
        ColumnType::MYSQL_TYPE_STRING,
        ColumnType::MYSQL_TYPE_VAR_STRING,
        ColumnType::MYSQL_TYPE_BLOB,
        ColumnType::MYSQL_TYPE_TINY_BLOB,
        ColumnType::MYSQL_TYPE_MEDIUM_BLOB,
        ColumnType::MYSQL_TYPE_LONG_BLOB,
        ColumnType::MYSQL_TYPE_SET,
        ColumnType::MYSQL_TYPE_ENUM,
        ColumnType::MYSQL_TYPE_DECIMAL,
        ColumnType::MYSQL_TYPE_VARCHAR,
        ColumnType::MYSQL_TYPE_BIT,
        ColumnType::MYSQL_TYPE_NEWDECIMAL,
        ColumnType::MYSQL_TYPE_GEOMETRY,
    ] {
        assert_eq!(value(t, false, &[2, 8, 9, 7]), (Value::Bytes(vec![8, 9]), 3));
        let mut rd: &[u8] = &[2, 8];
        assert!(matches!(rd.read_bin_value(t, true), Err(IoError::StringEof)));
    }
}

#[test]
fn date_columns() {
    let full = [11, 0xe0, 7, 12, 31, 23, 59, 58, 1, 2, 3, 4, 5];
    for t in [ColumnType::MYSQL_TYPE_TIMESTAMP, ColumnType::MYSQL_TYPE_DATE, ColumnType::MYSQL_TYPE_DATETIME] {
        assert_eq!(value(t, false, &full), (Value::Date(2016, 12, 31, 23, 59, 58, 0x04030201), 12));
    }
    let mut sent = full;
    for (len, expected, used) in [
        (0, Value::Date(0, 0, 0, 0, 0, 0, 0), 1),
        (3, Value::Date(0, 0, 0, 0, 0, 0, 0), 1),
        (4, Value::Date(2016, 12, 31, 0, 0, 0, 0), 5),
        (6, Value::Date(2016, 12, 31, 0, 0, 0, 0), 5),
        (7, Value::Date(2016, 12, 31, 23, 59, 58, 0), 8),
        (10, Value::Date(2016, 12, 31, 23, 59, 58, 0), 8),
        (12, Value::Date(2016, 12, 31, 23, 59, 58, 0), 8),
    ] {
        sent[0] = len;
        assert_eq!(value(ColumnType::MYSQL_TYPE_DATE, true, &sent), (expected, used));
    }
    for n in 0..12 {
        let mut rd: &[u8] = &full[..n];
        assert!(matches!(rd.read_bin_value(ColumnType::MYSQL_TYPE_DATE, false), Err(IoError::UnexpectedEof)));
    }
}

#[test]
fn time_columns() {
    let mut sent = [12, 1, 4, 3, 2, 1, 23, 59, 58, 5, 6, 7, 8, 9];
    assert_eq!(
        value(ColumnType::MYSQL_TYPE_TIME, false, &sent),
        (Value::Time(true, 0x01020304, 23, 59, 58, 0x08070605), 13)
    );
    sent[1] = 2;
    sent[0] = 8;
    assert_eq!(
        value(ColumnType::MYSQL_TYPE_TIME, false, &sent),
        (Value::Time(false, 0x01020304, 23, 59, 58, 0), 9)
    );
    sent[0] = 13;
    assert_eq!(value(ColumnType::MYSQL_TYPE_TIME, false, &sent).1, 9);
    sent[0] = 7;
    assert_eq!(value(ColumnType::MYSQL_TYPE_TIME, false, &sent), (Value::Time(false, 0, 0, 0, 0, 0), 1));
    let mut rd: &[u8] = &[12, 1, 4, 3, 2, 1, 23, 59, 58, 5, 6, 7];
    assert!(matches!(rd.read_bin_value(ColumnType::MYSQL_TYPE_TIME, false), Err(IoError::UnexpectedEof)));
}

#[test]
fn other_columns_are_null() {
    for t in [
        ColumnType::MYSQL_TYPE_NULL,
        ColumnType::MYSQL_TYPE_NEWDATE,
        ColumnType::MYSQL_TYPE_TIMESTAMP2,
        ColumnType::MYSQL_TYPE_DATETIME2,
        ColumnType::MYSQL_TYPE_TIME2,
    ] {
        assert_eq!(value(t, false, &[1, 2, 3]), (Value::NULL, 0));
    }
}
