use mysql_io::stream::{Stream, TcpStream, TlsFile, Transport};

type Any = Stream<Vec<u8>, Vec<u8>, Vec<u8>, Vec<u8>>;

fn each(bytes: &[u8]) -> Vec<Any> {
    vec![
        Stream::UnixStream(bytes.to_vec()),
        Stream::PipeStream(bytes.to_vec()),
        Stream::TcpStream(Some(TcpStream::Secure(bytes.to_vec()))),
        Stream::TcpStream(Some(TcpStream::Insecure(bytes.to_vec()))),
    ]
}

fn inner(stream: Any) -> Vec<u8> {
    match stream {
        Stream::UnixStream(p) | Stream::PipeStream(p) => p,
        Stream::TcpStream(Some(TcpStream::Secure(p))) => p,
        Stream::TcpStream(Some(TcpStream::Insecure(p))) => p,
        Stream::TcpStream(None) => panic!("incomplete"),
    }
}

#[test]
fn transport_is_the_one_of_the_connection() {
    let mut names: Vec<&str> = Vec::new();
    for mut stream in each(&[1]) {
        let name = match stream.transport() {
            Some(Transport::UnixStream(p)) => {
                p.push(2);
                "unix"
            }
            Some(Transport::PipeStream(p)) => {
                p.push(2);
                "pipe"
            }
            Some(Transport::Secure(p)) => {
                p.push(2);
                "secure"
            }
            Some(Transport::Insecure(p)) => {
                p.push(2);
                "insecure"
            }
            None => panic!("incomplete"),
        };
        names.push(name);
        assert_eq!(inner(stream), vec![1, 2]);
    }
    assert_eq!(names, vec!["unix", "pipe", "secure", "insecure"]);
    let mut gone: Any = Stream::TcpStream(None);
    assert!(gone.transport().is_none());
}

#[test]
fn farewell_is_a_quit_packet() {
    for stream in each(&[]) {
        assert_eq!(stream.farewell(), Some(vec![1, 0, 0, 0, 1]));
    }
    let gone: Any = Stream::TcpStream(None);
    assert_eq!(gone.farewell(), None);
}

#[test]
fn only_bare_tcp_is_insecure() {
    let kinds: Vec<bool> = each(&[]).iter().map(|s| s.is_insecure()).collect();
    assert_eq!(kinds, vec![false, false, false, true]);
    let gone: Any = Stream::TcpStream(None);
    assert!(!gone.is_insecure());
}

#[test]
fn setup_names_the_files_in_order() {
    let stream: Any = Stream::TcpStream(Some(TcpStream::Insecure(vec![])));
    let opts = Some(("ca", Some(("cert", "key"))));
    let setup = stream.make_secure(true, &opts).unwrap();
    assert!(setup.verify_peer);
    assert!(matches!(
        setup.files.as_slice(),
        [TlsFile::Authority(&"ca"), TlsFile::Certificate(&"cert"), TlsFile::PrivateKey(&"key")]
    ));
    let opts = Some(("ca", None));
    let setup = stream.make_secure(false, &opts).unwrap();
    assert!(!setup.verify_peer);
    assert!(matches!(setup.files.as_slice(), [TlsFile::Authority(&"ca")]));
}

#[test]
fn other_streams_need_no_setup() {
    let opts = Some(("ca", None));
    for stream in each(&[]) {
        assert_eq!(stream.make_secure(true, &opts).is_some(), stream.is_insecure());
    }
}

#[test]
fn handshake_replaces_the_socket() {
    let mut stream: Any = Stream::TcpStream(Some(TcpStream::Insecure(vec![5])));
    let socket = stream.take_insecure().unwrap();
    assert_eq!(socket, vec![5]);
    assert!(matches!(stream, Stream::TcpStream(None)));
    let stream: Any = Stream::secured(Ok::<Vec<u8>, String>(socket)).unwrap();
    assert!(!stream.is_insecure());
    let opts = Some(("ca", None));
    assert!(stream.make_secure(true, &opts).is_none());
    assert_eq!(inner(stream), vec![5]);
}

#[test]
fn failed_handshake_is_passed_on() {
    let r: Result<Any, String> = Stream::secured(Err("no".to_string()));
    assert_eq!(r.err(), Some("no".to_string()));
}

#[test]
fn sockets_of_other_streams_stay() {
    for mut stream in each(&[6]) {
        if !stream.is_insecure() {
            assert!(stream.take_insecure().is_none());
            assert_eq!(inner(stream), vec![6]);
        }
    }
}

#[test]
fn labels_of_tcp_streams() {
    let a: TcpStream<u8, u8> = TcpStream::Secure(1);
    let b: TcpStream<u8, u8> = TcpStream::Insecure(1);
    assert_eq!(a.label(), "Secure stream");
    assert_eq!(b.label(), "Insecure stream");
}
