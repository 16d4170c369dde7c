//! The read buffer of a connection: frame-oriented access to a byte stream.
//!
//! A socket handler appends each chunk the stream yields and asks for the
//! next complete frame; bytes of a parsed frame are removed from the front,
//! bytes of the next frame stay buffered. When the peer closes the stream
//! while bytes remain buffered, the truncated frame can never be finished:
//! the handler reports a reset instead of waiting forever.

use vstd::prelude::*;
use crate::decode::{decode_frame, Decoded, FrameError};
use crate::frame::Frame;

verus! {

/// Buffered bytes read from the stream and not yet parsed.
pub struct FrameBuffer {
    data: Vec<u8>,
}

impl View for FrameBuffer {
    type V = Seq<u8>;

    closed spec fn view(&self) -> Seq<u8> {
        self.data@
    }
}

impl FrameBuffer {
    pub fn new() -> (r: FrameBuffer)
        ensures
            r@ == Seq::<u8>::empty(),
    {
        FrameBuffer { data: Vec::new() }
    }

    /// Appends one chunk read from the stream.
    pub fn extend(&mut self, chunk: &[u8])
        ensures
            final(self)@ == old(self)@ + chunk@,
    {
        self.data.extend_from_slice(chunk);
    }

    /// True when no bytes are buffered: a peer close here ends the session
    /// cleanly; with bytes buffered it truncates a frame.
    pub fn is_empty(&self) -> (r: bool)
        ensures
            r == (self@.len() == 0),
    {
        self.data.len() == 0
    }

    /// Takes the buffer's first frame if a complete one is present, removing
    /// exactly its bytes; `Ok(None)` asks for more bytes; `Err` reports
    /// structurally invalid bytes, which no further read can mend.
    pub fn parse_frame(&mut self) -> (r: Result<Option<Frame>, FrameError>)
        ensures
            match r {
                Ok(opt) => match opt {
                    Some(f) => decode_frame(old(self)@) matches Decoded::Complete(m, n) && m
                        == f@ && f.wf() && final(self)@ == old(self)@.skip(n as int),
                    None => decode_frame(old(self)@) is Partial && final(self)@ == old(self)@,
                },
                Err(e) => e == FrameError::Protocol && decode_frame(old(self)@) is Malformed
                    && final(self)@ == old(self)@,
            },
    {
        match Frame::parse(&self.data) {
            Ok((f, n)) => {
                let tail = self.data.split_off(n);
                self.data = tail;
                proof {
                    assert(self.data@ =~= old(self)@.skip(n as int));
                }
                Ok(Some(f))
            },
            Err(FrameError::Incomplete) => Ok(None),
            Err(FrameError::Protocol) => Err(FrameError::Protocol),
        }
    }
}

} // verus!
