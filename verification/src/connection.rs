//! The frame-level side of a connection: the bytes read from the socket
//! wait in a buffer until they make up a whole frame.

use vstd::prelude::*;
use crate::frame::{Frame, FrameError, Decoded, decode, encode, parse_frame, write_frame};

verus! {

/// Why a connection could not yield a frame.
#[derive(Debug, PartialEq, Eq, Structural)]
pub enum ConnectionError {
    /// The bytes received break the protocol.
    InvalidFrame,
    /// The peer closed the connection in the middle of a frame.
    ResetByPeer,
}

/// The read buffer of a connection.
pub struct Connection {
    buffer: Vec<u8>,
}

impl View for Connection {
    type V = Seq<u8>;

    /// The bytes received and not yet read as frames.
    closed spec fn view(&self) -> Seq<u8> {
        self.buffer@
    }
}

impl Connection {
    /// A connection with an empty read buffer.
    pub fn new() -> (c: Connection)
        ensures
            c@ == Seq::<u8>::empty(),
    {
        Connection { buffer: Vec::new() }
    }

    /// Appends bytes received from the socket to the read buffer.
    pub fn receive(&mut self, data: &[u8])
        ensures
            final(self)@ == old(self)@ + data@,
    {
        let mut i: usize = 0;
        while i < data.len()
            invariant
                i <= data@.len(),
                self@ == old(self)@ + data@.subrange(0, i as int),
            decreases data@.len() - i,
        {
            self.buffer.push(data[i]);
            i = i + 1;
            assert(self@ =~= old(self)@ + data@.subrange(0, i as int));
        }
        assert(data@.subrange(0, i as int) =~= data@);
    }

    /// Reads a frame from the front of the buffer and removes its bytes.
    /// `Ok(None)` means that the buffer holds only the beginning of a frame,
    /// and the buffer is left as it is.
    pub fn parse_frame(&mut self) -> (r: Result<Option<Frame>, ConnectionError>)
        ensures
            match decode(old(self)@) {
                Decoded::Complete(f, n) => (r matches Ok(Some(fr)) && fr@ == f) && final(self)@
                    == old(self)@.subrange(n as int, old(self)@.len() as int),
                Decoded::Incomplete => (r matches Ok(None)) && final(self)@ == old(self)@,
                Decoded::Invalid => r == Err::<Option<Frame>, ConnectionError>(
                    ConnectionError::InvalidFrame,
                ) && final(self)@ == old(self)@,
            },
    {
        match parse_frame(self.buffer.as_slice()) {
            Ok((frame, n)) => {
                let rest = self.buffer.split_off(n);
                self.buffer = rest;
                Ok(Some(frame))
            },
            Err(FrameError::Incomplete) => Ok(None),
            Err(FrameError::Invalid) => Err(ConnectionError::InvalidFrame),
        }
    }

    /// What reading a frame yields when the peer has closed the socket:
    /// nothing when the buffer is empty, a reset otherwise.
    pub fn end_of_input(&self) -> (r: Result<Option<Frame>, ConnectionError>)
        ensures
            self@.len() == 0 ==> (r matches Ok(None)),
            self@.len() > 0 ==> r == Err::<Option<Frame>, ConnectionError>(ConnectionError::ResetByPeer),
    {
        if self.buffer.len() == 0 {
            Ok(None)
        } else {
            Err(ConnectionError::ResetByPeer)
        }
    }

    /// The bytes that write `frame` to the socket.
    pub fn frame_bytes(frame: &Frame) -> (r: Vec<u8>)
        ensures
            r@ == encode(frame@),
    {
        let mut out: Vec<u8> = Vec::new();
        write_frame(frame, &mut out);
        assert(out@ =~= encode(frame@));
        out
    }
}

} // verus!
