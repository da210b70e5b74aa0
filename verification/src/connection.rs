//! Per-connection buffering: one receive buffer of bytes not yet consumed
//! into a frame and one send buffer of bytes not yet flushed.
//!
//! The socket itself stays with the caller. Bytes pulled from it are handed
//! in through `feed`; a zero-byte read is reported through `on_peer_close`;
//! bytes queued for the peer are drained through `take_send` and flushed
//! after every response. No other component touches the socket.

use vstd::prelude::*;
use crate::frame::{Frame, FrameError, Parsed, spec_parse, encode_spec, push_bytes};

verus! {

/// Why a connection must be torn down.
#[derive(Debug, Clone, Copy, PartialEq, Eq, Structural)]
pub enum ConnError {
    /// The peer closed the stream in the middle of a frame.
    Reset,
    /// The received bytes can never form a valid frame.
    Protocol,
}

/// The buffers of one connection, owned by it alone and never shared with
/// or migrated to another connection.
pub struct Connection {
    /// Bytes received from the socket and not yet consumed into a frame.
    recv: Vec<u8>,
    /// Bytes encoded for the peer and not yet flushed to the socket.
    send: Vec<u8>,
}

impl Connection {
    /// The received bytes not yet consumed into a frame.
    pub closed spec fn recv_bytes(&self) -> Seq<u8> {
        self.recv@
    }

    /// The encoded bytes not yet flushed.
    pub closed spec fn send_bytes(&self) -> Seq<u8> {
        self.send@
    }

    /// A fresh connection has empty buffers.
    pub fn new() -> (c: Connection)
        ensures
            c.recv_bytes() == Seq::<u8>::empty(),
            c.send_bytes() == Seq::<u8>::empty(),
    {
        Connection { recv: Vec::new(), send: Vec::new() }
    }

    /// Appends bytes pulled from the socket to the receive buffer.
    pub fn feed(&mut self, data: &[u8])
        ensures
            final(self).recv_bytes() == old(self).recv_bytes() + data@,
            final(self).send_bytes() == old(self).send_bytes(),
    {
        push_bytes(&mut self.recv, data);
    }

    /// Tries to consume one frame from the front of the receive buffer.
    /// A whole frame is removed and returned; a buffer that merely ends too
    /// early is left untouched and yields nothing, so the identical attempt
    /// can be retried after more bytes are fed; malformed bytes are left
    /// untouched and the caller must tear the connection down.
    pub fn parse_frame(&mut self) -> (r: Result<Option<Frame>, ConnError>)
        ensures
            final(self).send_bytes() == old(self).send_bytes(),
            ({ let res = spec_parse(old(self).recv_bytes(), 0);
                match r {
                    Ok(Some(f)) => res matches Parsed::Found(m, end)
                        && m == f@
                        && final(self).recv_bytes() == old(self).recv_bytes().skip(end),
                    Ok(None) => res is Partial
                        && final(self).recv_bytes() == old(self).recv_bytes(),
                    Err(e) => e == ConnError::Protocol && res is Fail
                        && final(self).recv_bytes() == old(self).recv_bytes(),
                }
            }),
    {
        let mut pos: usize = 0;
        match Frame::parse(self.recv.as_slice(), &mut pos) {
            Ok(f) => {
                let tail = self.recv.split_off(pos);
                self.recv = tail;
                proof {
                    assert(old(self).recv_bytes().subrange(pos as int, old(self).recv_bytes().len() as int)
                        =~= old(self).recv_bytes().skip(pos as int));
                }
                Ok(Some(f))
            },
            Err(FrameError::Incomplete) => Ok(None),
            Err(FrameError::Protocol) => Err(ConnError::Protocol),
        }
    }

    /// The decision when the socket reports end of stream: an empty receive
    /// buffer is a clean end, leftover bytes mean the peer vanished in the
    /// middle of a frame.
    pub fn on_peer_close(&self) -> (r: Result<(), ConnError>)
        ensures
            self.recv_bytes().len() == 0 ==> r == Ok::<(), ConnError>(()),
            self.recv_bytes().len() > 0 ==> r == Err::<(), ConnError>(ConnError::Reset),
    {
        if self.recv.len() == 0 {
            Ok(())
        } else {
            Err(ConnError::Reset)
        }
    }

    /// Encodes a response frame into the send buffer, after everything
    /// already queued.
    pub fn write_frame(&mut self, f: &Frame)
        ensures
            final(self).send_bytes() == old(self).send_bytes() + encode_spec(f@),
            final(self).recv_bytes() == old(self).recv_bytes(),
    {
        f.encode_into(&mut self.send);
    }

    /// Hands every queued byte out for flushing and leaves the send buffer
    /// empty. The caller writes them to the socket at least once per
    /// response, so a client observes each reply promptly.
    pub fn take_send(&mut self) -> (r: Vec<u8>)
        ensures
            r@ == old(self).send_bytes(),
            final(self).send_bytes() == Seq::<u8>::empty(),
            final(self).recv_bytes() == old(self).recv_bytes(),
    {
        let r = self.send.split_off(0);
        proof {
            assert(old(self).send_bytes().subrange(0, old(self).send_bytes().len() as int)
                =~= old(self).send_bytes());
            assert(final(self).send_bytes() =~= Seq::<u8>::empty());
        }
        r
    }
}

} // verus!
