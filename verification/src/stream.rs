//! The connection to a server, over whichever transport it was made.

use crate::consts::{COM_QUIT, MAX_PAYLOAD_LEN};
use crate::format::packet_bytes;
use crate::wire::law_packet_layout;
use crate::write::Write;
use vstd::prelude::*;

verus! {

/// A TCP connection: a TLS session `S`, or the bare socket `I`.
pub enum TcpStream<S, I> {
    Secure(S),
    Insecure(I),
}

impl<S, I> TcpStream<S, I> {
    /// What kind of connection it is, in words.
    pub open spec fn spec_label(self) -> Seq<char> {
        match self {
            TcpStream::Secure(_) => "Secure stream"@,
            TcpStream::Insecure(_) => "Insecure stream"@,
        }
    }

    /// Says what kind of connection it is.
    pub fn label(&self) -> (r: &'static str)
        ensures
            r@ == self.spec_label(),
    {
        match self {
            TcpStream::Secure(_) => "Secure stream",
            TcpStream::Insecure(_) => "Insecure stream",
        }
    }
}

/// A connection over a Unix socket `U`, a named pipe `P`, or TCP. A TCP
/// connection whose socket has been taken away for a TLS handshake is incomplete
/// and can neither be read nor written.
pub enum Stream<U, P, S, I> {
    UnixStream(U),
    PipeStream(P),
    TcpStream(Option<TcpStream<S, I>>),
}

impl<U, P, S, I> Stream<U, P, S, I> {
    /// The connection is a TCP connection without its socket.
    pub open spec fn incomplete(self) -> bool {
        self matches Stream::TcpStream(None)
    }

    /// The connection is a bare TCP connection.
    pub open spec fn insecure(self) -> bool {
        self matches Stream::TcpStream(Some(TcpStream::Insecure(_)))
    }
}

/// What reads and writes of a connection go to.
pub enum Transport<'a, U, P, S, I> {
    UnixStream(&'a mut U),
    PipeStream(&'a mut P),
    Secure(&'a mut S),
    Insecure(&'a mut I),
}

/// A file that a TLS session is set up with, by its path `T`.
pub enum TlsFile<'a, T> {
    /// The certificate authority that the server is checked against.
    Authority(&'a T),
    /// The certificate that the client shows.
    Certificate(&'a T),
    /// The key of that certificate.
    PrivateKey(&'a T),
}

/// How a TLS session is set up.
pub struct TlsSetup<'a, T> {
    /// Whether the certificate of the server is verified.
    pub verify_peer: bool,
    /// The files to load, in this order.
    pub files: Vec<TlsFile<'a, T>>,
}

/// The files that the options name.
pub open spec fn tls_files<'a, T>(ssl_opts: &'a Option<(T, Option<(T, T)>)>) -> Seq<
    TlsFile<'a, T>,
> {
    match ssl_opts {
        None => Seq::empty(),
        Some((ca, None)) => seq![TlsFile::Authority(ca)],
        Some((ca, Some((cert, key)))) => seq![
            TlsFile::Authority(ca),
            TlsFile::Certificate(cert),
            TlsFile::PrivateKey(key),
        ],
    }
}

impl<U, P, S, I> Stream<U, P, S, I> {
    /// Tells whether the connection is a bare TCP connection.
    pub fn is_insecure(&self) -> (r: bool)
        ensures
            r == self.insecure(),
    {
        match self {
            Stream::TcpStream(Some(TcpStream::Insecure(_))) => true,
            _ => false,
        }
    }

    /// What reads and writes go to: the transport that the connection was made
    /// over, or nothing, if it is incomplete. What is done to the transport is
    /// done to the connection.
    pub fn transport(&mut self) -> (r: Option<Transport<'_, U, P, S, I>>)
        ensures
            (match *old(self) {
                Stream::UnixStream(u) => {
                    &&& r matches Some(Transport::UnixStream(t)) && *t == u && *final(self)
                        == Stream::<U, P, S, I>::UnixStream(*final(t))
                },
                Stream::PipeStream(p) => {
                    &&& r matches Some(Transport::PipeStream(t)) && *t == p && *final(self)
                        == Stream::<U, P, S, I>::PipeStream(*final(t))
                },
                Stream::TcpStream(Some(TcpStream::Secure(s))) => {
                    &&& r matches Some(Transport::Secure(t)) && *t == s && *final(self)
                        == Stream::<U, P, S, I>::TcpStream(Some(TcpStream::Secure(*final(t))))
                },
                Stream::TcpStream(Some(TcpStream::Insecure(i))) => {
                    &&& r matches Some(Transport::Insecure(t)) && *t == i && *final(self)
                        == Stream::<U, P, S, I>::TcpStream(Some(TcpStream::Insecure(*final(t))))
                },
                Stream::TcpStream(None) => r is None && *final(self) == *old(self),
            }),
    {
        match self {
            Stream::UnixStream(u) => Some(Transport::UnixStream(u)),
            Stream::PipeStream(p) => Some(Transport::PipeStream(p)),
            Stream::TcpStream(Some(TcpStream::Secure(s))) => Some(Transport::Secure(s)),
            Stream::TcpStream(Some(TcpStream::Insecure(i))) => Some(Transport::Insecure(i)),
            Stream::TcpStream(None) => None,
        }
    }

    /// How the connection is to be made secure: with which TLS session, if it is
    /// a bare TCP connection, and not at all otherwise.
    pub fn make_secure<'a, T>(
        &self,
        verify_peer: bool,
        ssl_opts: &'a Option<(T, Option<(T, T)>)>,
    ) -> (r: Option<TlsSetup<'a, T>>)
        requires
            self.insecure() ==> ssl_opts is Some,
        ensures
            r is Some <==> self.insecure(),
            r matches Some(setup) ==> setup.verify_peer == verify_peer && setup.files@ == tls_files(
                ssl_opts,
            ),
    {
        if !self.is_insecure() {
            return None;
        }
        let mut files: Vec<TlsFile<'a, T>> = Vec::new();
        if let Some((ca_cert, client)) = ssl_opts {
            files.push(TlsFile::Authority(ca_cert));
            if let Some((client_cert, client_key)) = client {
                files.push(TlsFile::Certificate(client_cert));
                files.push(TlsFile::PrivateKey(client_key));
            }
        }
        assert(files@ =~= tls_files(ssl_opts));
        Some(TlsSetup { verify_peer, files })
    }

    /// Takes the socket of a bare TCP connection away for a TLS handshake, which
    /// leaves the connection incomplete. Any other connection stays as it is.
    pub fn take_insecure(&mut self) -> (r: Option<I>)
        ensures
            r is Some <==> old(self).insecure(),
            r matches Some(socket) ==> {
                &&& *old(self) == Stream::<U, P, S, I>::TcpStream(
                    Some(TcpStream::Insecure(socket)),
                )
                &&& final(self).incomplete()
            },
            r is None ==> *final(self) == *old(self),
    {
        let mut taken: Self = Stream::TcpStream(None);
        std::mem::swap(self, &mut taken);
        match taken {
            Stream::TcpStream(Some(TcpStream::Insecure(socket))) => Some(socket),
            other => {
                *self = other;
                None
            },
        }
    }

    /// What the outcome of the handshake makes of the connection.
    pub fn secured<E>(outcome: Result<S, E>) -> (r: Result<Self, E>)
        ensures
            (match outcome {
                Ok(session) => r == Ok::<Self, E>(
                    Stream::TcpStream(Some(TcpStream::Secure(session))),
                ),
                Err(e) => r == Err::<Self, E>(e),
            }),
    {
        match outcome {
            Ok(session) => Ok(Stream::TcpStream(Some(TcpStream::Secure(session)))),
            Err(e) => Err(e),
        }
    }

    /// What is to be sent before the connection is given up: the command that
    /// ends the session, or nothing, if the connection is incomplete.
    pub fn farewell(&self) -> (r: Option<Vec<u8>>)
        ensures
            r is None <==> self.incomplete(),
            r matches Some(bytes) ==> bytes@ == packet_bytes(seq![COM_QUIT], 0),
            r matches Some(bytes) ==> bytes@ == seq![1u8, 0, 0, 0, 1],
    {
        if let Stream::TcpStream(None) = self {
            return None;
        }
        let command: [u8; 1] = [COM_QUIT];
        assert(command@ =~= seq![COM_QUIT]);
        let mut bytes: Vec<u8> = Vec::new();
        let _ = bytes.write_packet(command.as_slice(), 0, MAX_PAYLOAD_LEN);
        proof {
            law_packet_layout(command@, 0);
            assert(bytes@[4] == command@[0]);
            assert(bytes@ =~= seq![1u8, 0, 0, 0, 1]);
        }
        Some(bytes)
    }
}

} // verus!
