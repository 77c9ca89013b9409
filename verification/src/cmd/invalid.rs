//! A frame that could not be read as a command. Not a real command: it only
//! exists to carry the protocol error back to the client.

use vstd::prelude::*;

use crate::frame::Frame;
use crate::frame::FrameView;
use crate::parse::ParseError;

verus! {

/// A malformed command frame, remembering why it was rejected.
pub struct Invalid {
    /// What went wrong while reading the frame.
    pub error: ParseError,
}

impl Invalid {
    /// Wrap a parse failure.
    pub fn new(error: ParseError) -> (c: Invalid)
        ensures
            c.error == error,
    {
        Invalid { error }
    }

    /// The reply: an error frame carrying the failure's message. The
    /// connection stays usable.
    pub fn apply(self) -> (reply: Frame)
        ensures
            reply@ == FrameView::Error(self.error.spec_message()),
    {
        Frame::Error(self.error.message())
    }
}

} // verus!
