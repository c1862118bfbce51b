use mysql_io::consts::{ColumnType, MAX_PAYLOAD_LEN};
use mysql_io::error::{DriverError, IoError, MyError};
use mysql_io::read::{PacketReader, Read};
use mysql_io::source::Arrived;
use mysql_io::value::Value;
use mysql_io::write::{PacketWriter, SendStep, Write};

#[test]
fn small_packet_layout() {
    let mut out: Vec<u8> = Vec::new();
    assert_eq!(out.write_packet(b"abc", 7, 1024).unwrap(), 8);
    assert_eq!(out, vec![3, 0, 0, 7, b'a', b'b', b'c']);
    let mut rd: &[u8] = &out;
    let (data, next) = rd.read_packet(7).unwrap();
    assert_eq!((data.as_slice(), next), (&b"abc"[..], 8));
    assert!(rd.is_empty());
}

#[test]
fn empty_packet_is_one_empty_frame() {
    let mut out: Vec<u8> = Vec::new();
    assert_eq!(out.write_packet(&[], 3, 0).unwrap(), 4);
    assert_eq!(out, vec![0, 0, 0, 3]);
    let mut rd: &[u8] = &out;
    assert_eq!(rd.read_packet(3).unwrap(), (vec![], 4));
}

#[test]
fn full_frame_is_followed_by_an_empty_one() {
    let data = vec![0xabu8; MAX_PAYLOAD_LEN];
    let mut out: Vec<u8> = Vec::new();
    assert_eq!(out.write_packet(&data, 0, MAX_PAYLOAD_LEN).unwrap(), 2);
    assert_eq!(out.len(), MAX_PAYLOAD_LEN + 8);
    assert_eq!(out[..5], [0xff, 0xff, 0xff, 0, 0xab]);
    assert_eq!(out[MAX_PAYLOAD_LEN + 4..], [0, 0, 0, 1]);
    let mut rd: &[u8] = &out;
    let (back, next) = rd.read_packet(0).unwrap();
    assert!(back == data);
    assert_eq!(next, 2);
    assert!(rd.is_empty());
}

#[test]
fn long_packet_is_split() {
    let mut data = vec![1u8; MAX_PAYLOAD_LEN];
    data.extend_from_slice(&[2, 2]);
    let mut out: Vec<u8> = Vec::new();
    assert_eq!(out.write_packet(&data, 253, usize::MAX).unwrap(), 255);
    assert_eq!(out[MAX_PAYLOAD_LEN + 4..], [2, 0, 0, 254, 2, 2]);
    let mut rd: &[u8] = &out;
    let (back, next) = rd.read_packet(253).unwrap();
    assert!(back == data);
    assert_eq!(next, 255);
}

#[test]
fn sequence_ids_go_round_when_read() {
    let mut rd: &[u8] = &[1, 0, 0, 255, 9];
    assert_eq!(rd.read_packet(255).unwrap(), (vec![9], 0));
}

#[test]
fn too_large_packet_is_refused() {
    let mut out: Vec<u8> = vec![42];
    match out.write_packet(&[0; 11], 0, 10) {
        Err(MyError::MyDriverError(e)) => assert_eq!(e, DriverError::PacketTooLarge),
        other => panic!("{:?}", other),
    }
    assert_eq!(out, vec![42]);
    assert_eq!(out.write_packet(&[0; 10], 0, 10).unwrap(), 1);
}

#[test]
fn limit_of_a_full_frame_does_not_bind() {
    let data = vec![0u8; MAX_PAYLOAD_LEN + 1];
    let mut out: Vec<u8> = Vec::new();
    assert_eq!(out.write_packet(&data, 0, MAX_PAYLOAD_LEN).unwrap(), 2);
}

#[test]
fn wrong_sequence_id_is_out_of_sync() {
    let mut rd: &[u8] = &[1, 0, 0, 4, 9];
    match rd.read_packet(5) {
        Err(MyError::MyDriverError(e)) => assert_eq!(e, DriverError::PacketOutOfSync),
        other => panic!("{:?}", other),
    }
    assert_eq!(rd, [9]);
}

#[test]
fn wrong_sequence_id_of_second_frame_is_out_of_sync() {
    let mut bytes = vec![0xff, 0xff, 0xff, 0];
    bytes.resize(4 + MAX_PAYLOAD_LEN, 7);
    bytes.extend_from_slice(&[0, 0, 0, 5, 1]);
    let mut rd: &[u8] = &bytes;
    match rd.read_packet(0) {
        Err(MyError::MyDriverError(e)) => assert_eq!(e, DriverError::PacketOutOfSync),
        other => panic!("{:?}", other),
    }
    assert_eq!(rd, [1]);
}

#[test]
fn truncated_packets_are_noticed() {
    let mut out: Vec<u8> = Vec::new();
    out.write_packet(b"abc", 0, 1024).unwrap();
    for n in 0..out.len() {
        let mut rd: &[u8] = &out[..n];
        match rd.read_packet(0) {
            Err(MyError::MyIoError(IoError::UnexpectedEof)) => assert!(n < 4),
            Err(MyError::MyIoError(IoError::PacketEof)) => assert!(n >= 4),
            other => panic!("{} {:?}", n, other),
        }
        assert!(rd.is_empty());
    }
}

#[test]
fn packets_in_a_row() {
    let mut out: Vec<u8> = Vec::new();
    let next = out.write_packet(b"one", 0, 1024).unwrap();
    let last = out.write_packet(b"two", next, 1024).unwrap();
    let mut rd: &[u8] = &out;
    let (one, id) = rd.read_packet(0).unwrap();
    let (two, id) = rd.read_packet(id).unwrap();
    assert_eq!((one.as_slice(), two.as_slice(), id), (&b"one"[..], &b"two"[..], last));
}

/// Reads as a live connection does: whenever bytes are missing, just those are
/// taken from `stream`. Returns what `read` does, and how much was taken.
fn live<T>(
    stream: &[u8],
    read: impl Fn(&mut Arrived) -> Result<T, MyError>,
) -> (Result<T, MyError>, usize) {
    let mut taken = 0;
    let mut open = true;
    loop {
        match read(&mut Arrived::new(&stream[..taken], open)) {
            Err(MyError::MyIoError(IoError::Missing(n))) => {
                assert!(open && n > 0);
                if n as usize > stream.len() - taken {
                    open = false;
                    taken = stream.len();
                } else {
                    taken += n as usize;
                }
            }
            other => return (other, taken),
        }
    }
}

#[test]
fn live_reads_take_no_more_than_they_need() {
    let stream = [2u8, 0, 0, 0, 8, 9, 77, 77];
    assert_eq!(live(&stream, |s| s.read_packet(0)), (Ok((vec![8, 9], 1)), 6));
    assert_eq!(
        live(&stream, |s| s.read_packet(3)),
        (Err(MyError::MyDriverError(DriverError::PacketOutOfSync)), 4)
    );
    assert_eq!(
        live(&stream[..5], |s| s.read_packet(0)),
        (Err(MyError::MyIoError(IoError::PacketEof)), 5)
    );
    assert_eq!(
        live(&stream[..3], |s| s.read_packet(0)),
        (Err(MyError::MyIoError(IoError::UnexpectedEof)), 3)
    );
    let io = |r: Result<Vec<u8>, IoError>| r.map_err(MyError::MyIoError);
    assert_eq!(live(&[0xfc, 2, 0, 5, 6, 7], |s| io(s.read_lenenc_bytes())), (Ok(vec![5, 6]), 5));
    assert_eq!(live(&[65, 66, 0, 67], |s| io(s.read_to_null())), (Ok(vec![65, 66]), 3));
    assert_eq!(live(&[65, 66], |s| io(s.read_to_null())), (Ok(vec![65, 66]), 2));
    assert_eq!(
        live(&[3, 65], |s| io(s.read_lenenc_bytes())),
        (Err(MyError::MyIoError(IoError::StringEof)), 2)
    );
    let date = ColumnType::MYSQL_TYPE_DATE;
    assert_eq!(
        live(&[4, 0xe0, 7, 1, 2, 3], |s| s.read_bin_value(date, false).map_err(MyError::MyIoError)),
        (Ok(Value::Date(2016, 1, 2, 0, 0, 0, 0)), 5)
    );
}

#[test]
fn missing_bytes_are_counted() {
    assert_eq!(Arrived::new(&[], true).read_lenenc_int(), Err(IoError::Missing(1)));
    assert_eq!(Arrived::new(&[0xfe, 1], true).read_lenenc_int(), Err(IoError::Missing(7)));
    assert_eq!(Arrived::new(&[9, 1], true).read_lenenc_bytes(), Err(IoError::Missing(8)));
    assert_eq!(
        Arrived::new(&[1, 0], true).read_packet(0),
        Err(MyError::MyIoError(IoError::Missing(2)))
    );
    assert_eq!(
        Arrived::new(&[10, 0, 0, 0, 1], true).read_packet(0),
        Err(MyError::MyIoError(IoError::Missing(9)))
    );
    let time = ColumnType::MYSQL_TYPE_TIME;
    assert_eq!(Arrived::new(&[12, 1], true).read_bin_value(time, false), Err(IoError::Missing(11)));
}

#[test]
fn frames_one_at_a_time() {
    let mut full = vec![0xff, 0xff, 0xff, 9];
    full.resize(4 + MAX_PAYLOAD_LEN, 7);
    let mut reader = PacketReader::new(9);
    let mut cut: &[u8] = &full[..100];
    assert_eq!(reader.read_frame(&mut cut), Err(MyError::MyIoError(IoError::PacketEof)));
    let mut first: &[u8] = &full;
    assert_eq!(reader.read_frame(&mut first), Ok(true));
    let mut second: &[u8] = &[1, 0, 0, 10, 3, 99];
    assert_eq!(reader.read_frame(&mut second), Ok(false));
    assert_eq!(second, [99]);
    let (data, next) = reader.finish();
    assert_eq!((data.len(), data[MAX_PAYLOAD_LEN], next), (MAX_PAYLOAD_LEN + 1, 3, 11));
}

/// Sends as a live connection does, over calls of which the one with the number
/// `fails` fails. Returns what each call was given, and how the packet ended.
fn send(data: &[u8], seq_id: u8, fails: usize) -> (Vec<Vec<u8>>, Vec<bool>, Result<u8, &'static str>) {
    let mut packet = PacketWriter::new(data, seq_id, MAX_PAYLOAD_LEN).unwrap();
    let mut calls: Vec<Vec<u8>> = Vec::new();
    let mut follow: Vec<bool> = Vec::new();
    let mut outcome = Ok(());
    loop {
        match packet.step(outcome) {
            SendStep::Frame { bytes, more, rest } => {
                outcome = if calls.len() == fails { Err("broken pipe") } else { Ok(()) };
                calls.push(bytes);
                follow.push(more);
                packet = rest;
            }
            SendStep::Done(end) => return (calls, follow, end),
        }
    }
}

#[test]
fn packet_is_sent_frame_by_frame() {
    let mut data = vec![1u8; MAX_PAYLOAD_LEN];
    data.extend_from_slice(&vec![2u8; MAX_PAYLOAD_LEN]);
    let (calls, follow, end) = send(&data, 5, usize::MAX);
    assert_eq!(follow, vec![true, true, false]);
    assert_eq!(end, Ok(8));
    assert_eq!(calls[0][..5], [0xff, 0xff, 0xff, 5, 1]);
    assert_eq!(calls[0].len(), MAX_PAYLOAD_LEN + 4);
    assert_eq!(calls[1][..5], [0xff, 0xff, 0xff, 6, 2]);
    assert_eq!(calls[1].len(), MAX_PAYLOAD_LEN + 4);
    assert_eq!(calls[2], [0, 0, 0, 7]);
    let mut out: Vec<u8> = Vec::new();
    out.write_packet(&data, 5, MAX_PAYLOAD_LEN).unwrap();
    assert!(calls.concat() == out);
}

#[test]
fn failed_frame_ends_the_packet() {
    let data = vec![1u8; MAX_PAYLOAD_LEN + 2];
    let (whole, _, end) = send(&data, 0, 2);
    assert_eq!((whole.len(), end), (2, Ok(2)));
    for j in 0..2 {
        let (calls, _, end) = send(&data, 0, j);
        assert!(calls[..] == whole[..j + 1]);
        assert_eq!(end, Err("broken pipe"));
    }
}

#[test]
fn short_packets_are_sent_at_once() {
    assert_eq!(send(&[], 3, 9), (vec![vec![0, 0, 0, 3]], vec![false], Ok(4)));
    assert_eq!(send(&[8, 9], 254, 9), (vec![vec![2, 0, 0, 254, 8, 9]], vec![false], Ok(255)));
}

#[test]
fn sequence_ids_go_round_when_sent() {
    assert_eq!(send(&[8], 255, 9), (vec![vec![1, 0, 0, 255, 8]], vec![false], Ok(0)));
    let (calls, _, end) = send(&vec![1u8; MAX_PAYLOAD_LEN], 255, 9);
    assert_eq!((calls[0][3], calls[1].as_slice(), end), (255, &[0u8, 0, 0, 0][..], Ok(1)));
}

#[test]
fn too_large_packet_is_not_sent() {
    match PacketWriter::new(&[0; 11], 0, 10) {
        Err(MyError::MyDriverError(e)) => assert_eq!(e, DriverError::PacketTooLarge),
        _ => panic!("the limit does not bind"),
    }
}

#[test]
fn live_frames_take_no_more_than_they_need() {
    let stream = [2u8, 0, 0, 6, 8, 9, 77, 77];
    let frame = |s: &mut Arrived| PacketReader::new(6).read_frame(s);
    assert_eq!(live(&stream, frame), (Ok(false), 6));
    assert_eq!(live(&stream[..5], frame), (Err(MyError::MyIoError(IoError::PacketEof)), 5));
    let other = |s: &mut Arrived| PacketReader::new(5).read_frame(s);
    assert_eq!(
        live(&stream, other),
        (Err(MyError::MyDriverError(DriverError::PacketOutOfSync)), 4)
    );
    for n in 0..4 {
        assert_eq!(
            frame(&mut Arrived::new(&stream[..n], true)),
            Err(MyError::MyIoError(IoError::Missing(4 - n as u64)))
        );
    }
    for n in 4..6 {
        assert_eq!(
            frame(&mut Arrived::new(&stream[..n], true)),
            Err(MyError::MyIoError(IoError::Missing(6 - n as u64)))
        );
    }
}
