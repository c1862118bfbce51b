//! Where bytes are read from.

use crate::error::IoError;
use vstd::prelude::*;
use vstd::slice::{slice_subrange, slice_to_vec};

verus! {

/// Bytes that are read in order.
///
/// A source holds the bytes `pending()`. Behind them the stream has ended, or it
/// is `open()` and more may arrive. A read that runs out of bytes leaves nothing
/// pending.
pub trait ByteSource {
    /// The bytes that have not been read.
    spec fn pending(&self) -> Seq<u8>;

    /// More bytes may arrive behind them.
    spec fn open(&self) -> bool;

    /// Reads `n` bytes.
    fn read_exact(&mut self, n: usize) -> (r: Result<Vec<u8>, IoError>)
        ensures
            final(self).open() == old(self).open(),
            n <= old(self).pending().len() ==> {
                &&& r matches Ok(bytes) && bytes@ == old(self).pending().take(n as int)
                &&& final(self).pending() == old(self).pending().skip(n as int)
            },
            n > old(self).pending().len() ==> {
                &&& final(self).pending() == Seq::<u8>::empty()
                &&& r == Err::<Vec<u8>, IoError>(
                    if old(self).open() {
                        IoError::Missing((n - old(self).pending().len()) as u64)
                    } else {
                        IoError::UnexpectedEof
                    },
                )
            },
    ;

    /// Appends to `out` the next `limit` bytes, or all there are if the stream
    /// ends before, and returns how many.
    fn read_up_to(&mut self, limit: u64, out: &mut Vec<u8>) -> (r: Result<usize, IoError>)
        ensures
            final(self).open() == old(self).open(),
            limit <= old(self).pending().len() ==> {
                &&& r matches Ok(count) && count == limit
                &&& final(out)@ == old(out)@ + old(self).pending().take(limit as int)
                &&& final(self).pending() == old(self).pending().skip(limit as int)
            },
            limit > old(self).pending().len() ==> {
                &&& final(self).pending() == Seq::<u8>::empty()
                &&& if old(self).open() {
                    r == Err::<usize, IoError>(
                        IoError::Missing((limit - old(self).pending().len()) as u64),
                    )
                } else {
                    &&& r matches Ok(count) && count == old(self).pending().len()
                    &&& final(out)@ == old(out)@ + old(self).pending()
                }
            },
    ;

    /// Reads one byte, or nothing at the end of the stream.
    fn read_byte(&mut self) -> (r: Result<Option<u8>, IoError>)
        ensures
            final(self).open() == old(self).open(),
            old(self).pending().len() > 0 ==> {
                &&& r == Ok::<Option<u8>, IoError>(Some(old(self).pending()[0]))
                &&& final(self).pending() == old(self).pending().skip(1)
            },
            old(self).pending().len() == 0 ==> {
                &&& final(self).pending() == Seq::<u8>::empty()
                &&& r == if old(self).open() {
                    Err::<Option<u8>, IoError>(IoError::Missing(1))
                } else {
                    Ok::<Option<u8>, IoError>(None)
                }
            },
    ;
}

/// The beginning of a stream, as far as it has arrived.
pub struct Arrived<'a> {
    bytes: &'a [u8],
    open: bool,
}

impl<'a> Arrived<'a> {
    /// `bytes` have arrived, and more may, if the stream is `open`.
    pub fn new(bytes: &'a [u8], open: bool) -> (r: Self)
        ensures
            r.pending() == bytes@,
            r.open() == open,
    {
        Arrived { bytes, open }
    }
}

impl<'a> ByteSource for Arrived<'a> {
    closed spec fn pending(&self) -> Seq<u8> {
        self.bytes@
    }

    closed spec fn open(&self) -> bool {
        self.open
    }

    fn read_exact(&mut self, n: usize) -> (r: Result<Vec<u8>, IoError>) {
        let bytes: &'a [u8] = self.bytes;
        let len: usize = bytes.len();
        if n <= len {
            self.bytes = slice_subrange(bytes, n, len);
            Ok(slice_to_vec(slice_subrange(bytes, 0, n)))
        } else {
            self.bytes = slice_subrange(bytes, len, len);
            assert(self.bytes@ =~= Seq::<u8>::empty());
            if self.open {
                Err(IoError::Missing((n - len) as u64))
            } else {
                Err(IoError::UnexpectedEof)
            }
        }
    }

    fn read_up_to(&mut self, limit: u64, out: &mut Vec<u8>) -> (r: Result<usize, IoError>) {
        let bytes: &'a [u8] = self.bytes;
        let len: usize = bytes.len();
        if limit <= len as u64 {
            let count: usize = limit as usize;
            let mut chunk: Vec<u8> = slice_to_vec(slice_subrange(bytes, 0, count));
            out.append(&mut chunk);
            self.bytes = slice_subrange(bytes, count, len);
            Ok(count)
        } else {
            self.bytes = slice_subrange(bytes, len, len);
            assert(self.bytes@ =~= Seq::<u8>::empty());
            if self.open {
                Err(IoError::Missing(limit - len as u64))
            } else {
                let mut chunk: Vec<u8> = slice_to_vec(bytes);
                out.append(&mut chunk);
                Ok(len)
            }
        }
    }

    fn read_byte(&mut self) -> (r: Result<Option<u8>, IoError>) {
        let bytes: &'a [u8] = self.bytes;
        let len: usize = bytes.len();
        if len > 0 {
            self.bytes = slice_subrange(bytes, 1, len);
            Ok(Some(bytes[0]))
        } else {
            assert(self.bytes@ =~= Seq::<u8>::empty());
            if self.open {
                Err(IoError::Missing(1))
            } else {
                Ok(None)
            }
        }
    }
}

/// A slice is a stream that has ended. It shrinks to what has not been read.
impl<'a> ByteSource for &'a [u8] {
    open spec fn pending(&self) -> Seq<u8> {
        self@
    }

    open spec fn open(&self) -> bool {
        false
    }

    fn read_exact(&mut self, n: usize) -> (r: Result<Vec<u8>, IoError>) {
        let mut arrived: Arrived<'a> = Arrived::new(*self, false);
        let r = arrived.read_exact(n);
        *self = arrived.bytes;
        r
    }

    fn read_up_to(&mut self, limit: u64, out: &mut Vec<u8>) -> (r: Result<usize, IoError>) {
        let mut arrived: Arrived<'a> = Arrived::new(*self, false);
        let r = arrived.read_up_to(limit, out);
        *self = arrived.bytes;
        r
    }

    fn read_byte(&mut self) -> (r: Result<Option<u8>, IoError>) {
        let mut arrived: Arrived<'a> = Arrived::new(*self, false);
        let r = arrived.read_byte();
        *self = arrived.bytes;
        r
    }
}

} // verus!
