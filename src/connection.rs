use vstd::prelude::*;

use crate::command::{interpret, RequestCommand, RequestCommandError};
use crate::frame::{parse_spec, Frame, FrameParseError};

verus! {

/// Why a connection ends other than by a clean end of input.
#[derive(Debug, Clone, Copy, PartialEq, Eq, Structural)]
pub enum ClientError {
    /// The bytes received are no frame.
    ParseCommandError(FrameParseError),
    /// The frame received is no request.
    CommandError(RequestCommandError),
    /// The peer stopped sending in the middle of a frame.
    ConnectionReset,
}

/// The protocol side of one client connection: the bytes received and not yet taken
/// by a complete frame.
pub struct ClientConnection {
    buffer: Vec<u8>,
}

impl ClientConnection {
    /// The bytes waiting to be parsed.
    pub closed spec fn view(&self) -> Seq<u8> {
        self.buffer@
    }

    /// A connection with nothing received yet.
    pub fn new() -> (r: Self)
        ensures
            r@ == Seq::<u8>::empty(),
    {
        ClientConnection { buffer: Vec::new() }
    }

    /// Appends bytes read from the peer.
    pub fn receive(&mut self, data: &[u8])
        ensures
            final(self)@ == old(self)@ + data@,
    {
        let mut i: usize = 0;
        while i < data.len()
            invariant
                i <= data@.len(),
                self@ == old(self)@ + data@.take(i as int),
            decreases data@.len() - i,
        {
            self.buffer.push(data[i]);
            i = i + 1;
            assert(self@ =~= old(self)@ + data@.take(i as int));
        }
        assert(data@.take(i as int) =~= data@);
    }

    /// Takes one frame from the front of the buffer if a whole one is there. `Ok(None)`
    /// asks for more input and leaves the buffer as it was; so does an error.
    pub fn parse_frame(&mut self) -> (r: Result<Option<Frame>, FrameParseError>)
        ensures
            match parse_spec(old(self)@) {
                Ok((v, k)) => r matches Ok(Some(f)) && f@ == v && final(self)@ == old(self)@.skip(
                    k as int,
                ),
                Err(FrameParseError::Incomplete) => r matches Ok(None) && final(self)@ == old(
                    self,
                )@,
                Err(e) => r == Err::<Option<Frame>, FrameParseError>(e) && final(self)@ == old(
                    self,
                )@,
            },
    {
        assert(self.buffer@.skip(0) =~= self.buffer@);
        match Frame::parse_from_buf(self.buffer.as_slice(), 0) {
            Ok((frame, end)) => {
                let rest = self.buffer.split_off(end);
                self.buffer = rest;
                Ok(Some(frame))
            },
            Err(FrameParseError::Incomplete) => Ok(None),
            Err(e) => Err(e),
        }
    }

    /// Takes one request from the front of the buffer if a whole frame is there.
    /// `Ok(None)` asks for more input.
    pub fn read_request(&mut self) -> (r: Result<Option<RequestCommand>, ClientError>)
        ensures
            match parse_spec(old(self)@) {
                Ok((v, k)) => final(self)@ == old(self)@.skip(k as int) && match interpret(v) {
                    Ok(c) => r matches Ok(Some(cmd)) && cmd@ == c,
                    Err(e) => r == Err::<Option<RequestCommand>, ClientError>(
                        ClientError::CommandError(e),
                    ),
                },
                Err(FrameParseError::Incomplete) => r matches Ok(None) && final(self)@ == old(
                    self,
                )@,
                Err(e) => r == Err::<Option<RequestCommand>, ClientError>(
                    ClientError::ParseCommandError(e),
                ) && final(self)@ == old(self)@,
            },
    {
        match self.parse_frame() {
            Ok(Some(frame)) => match RequestCommand::try_from(frame) {
                Ok(c) => Ok(Some(c)),
                Err(e) => Err(ClientError::CommandError(e)),
            },
            Ok(None) => Ok(None),
            Err(e) => Err(ClientError::ParseCommandError(e)),
        }
    }

    /// What a read of zero bytes means: a clean end when nothing is pending, a reset
    /// when part of a frame was left behind.
    pub fn end_of_input(&self) -> (r: Result<(), ClientError>)
        ensures
            self@.len() == 0 ==> r is Ok,
            self@.len() > 0 ==> r == Err::<(), ClientError>(ClientError::ConnectionReset),
    {
        if self.buffer.len() == 0 {
            Ok(())
        } else {
            Err(ClientError::ConnectionReset)
        }
    }
}

} // verus!
