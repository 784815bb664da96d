//! Taking whole frames off the front of a connection's receive buffer.

use vstd::prelude::*;

use crate::error::Error;
use crate::frame::{parse_matches, spec_parse, Frame, FrameModel, ParseErr};

verus! {

/// What to do with the front of the buffer for a parse result: a frame is
/// taken; a message of unknown kind is skipped; too little data means
/// waiting for more; another error ends the connection.
pub open spec fn frame_step(sr: (Result<FrameModel, ParseErr>, int)) -> (Result<Option<FrameModel>, ParseErr>, int) {
    match sr.0 {
        Ok(m) => (Ok(Some(m)), sr.1),
        Err(ParseErr::UnknownId(_)) => (Ok(None), sr.1),
        Err(ParseErr::Incomplete(_)) => (Ok(None), 0),
        Err(e) => (Err(e), 0),
    }
}

/// Looks for a whole frame at the start of the buffer. Returns the frame,
/// if there is one, with the number of bytes to drop from the buffer.
pub fn parse_frame(buffer: &[u8]) -> (r: (Result<Option<Frame>, Error>, usize))
    ensures
        ({
            let sr = frame_step(spec_parse(buffer@));
            &&& r.1 == sr.1
            &&& match (r.0, sr.0) {
                (Ok(Some(f)), Ok(Some(m))) => f.model() == m,
                (Ok(None), Ok(None)) => true,
                (Err(e), Err(pe)) => crate::frame::err_matches(e, pe),
                _ => false,
            }
        }),
{
    let (res, pos) = Frame::parse(buffer);
    proof {
        assert(parse_matches((res, pos), spec_parse(buffer@)));
    }
    match res {
        Ok(frame) => (Ok(Some(frame)), pos),
        Err(Error::UnknownId(id)) => (Ok(None), pos),
        Err(Error::Incomplete(what)) => (Ok(None), 0),
        Err(e) => (Err(e), 0),
    }
}

} // verus!
