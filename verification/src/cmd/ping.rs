//! The PING command: liveness check, with an optional echo payload.

use vstd::prelude::*;

use crate::bulk::bytes_from_vec;
use crate::bulk::bytes_view;
use crate::frame::Frame;
use crate::frame::FrameView;
use crate::parse::as_string_arg;
use crate::parse::Parse;
use crate::parse::ParseError;
use crate::str_bytes;
use crate::StringSliceAdditionalSpecFns;

verus! {

/// Ping the server; with no payload the reply is the simple string PONG,
/// otherwise the payload comes back as a bulk string.
pub struct Ping {
    /// The optional payload to echo.
    pub msg: Option<bytes::Bytes>,
}

/// The payload a ping value carries.
pub open spec fn ping_msg_view(msg: Option<bytes::Bytes>) -> Option<Seq<u8>> {
    match msg {
        Some(b) => Some(bytes_view(b)),
        None => None,
    }
}

impl Ping {
    /// The argument grammar: nothing, or one string.
    pub open spec fn spec_parse(args: Seq<FrameView>) -> Result<Option<Seq<u8>>, ParseError> {
        if args.len() == 0 {
            Ok(None)
        } else if as_string_arg(args[0]) is None {
            Err(ParseError::ExpectedString)
        } else if args.len() > 1 {
            Err(ParseError::ExpectedEnd)
        } else {
            Ok(Some(as_string_arg(args[0])->0))
        }
    }

    /// Read the arguments that follow the command name.
    pub fn parse_frames(parse: &mut Parse) -> (r: Result<Ping, ParseError>)
        ensures
            match r {
                Ok(c) => Self::spec_parse(old(parse)@) == Ok::<Option<Seq<u8>>, ParseError>(
                    ping_msg_view(c.msg),
                ),
                Err(e) => Self::spec_parse(old(parse)@) == Err::<Option<Seq<u8>>, ParseError>(e),
            },
    {
        if parse.remaining() == 0 {
            return Ok(Ping { msg: None });
        }
        let msg = match parse.next_bytes() {
            Ok(b) => b,
            Err(e) => {
                return Err(e);
            },
        };
        match parse.finish() {
            Ok(()) => Ok(Ping { msg: Some(msg) }),
            Err(e) => Err(e),
        }
    }

    /// The reply: PONG, or the echoed payload.
    pub fn apply(self) -> (reply: Frame)
        ensures
            reply@ == match ping_msg_view(self.msg) {
                Some(m) => FrameView::Bulk(m),
                None => FrameView::Simple(("PONG").spec_bytes()),
            },
    {
        match self.msg {
            Some(b) => Frame::Bulk(b),
            None => Frame::Simple(str_bytes("PONG")),
        }
    }

    /// The frame a client sends for this command.
    pub fn into_frame(self) -> (f: Frame)
        ensures
            f@ == FrameView::Array(
                match ping_msg_view(self.msg) {
                    Some(m) => seq![
                        FrameView::Bulk(("ping").spec_bytes()),
                        FrameView::Bulk(m),
                    ],
                    None => seq![FrameView::Bulk(("ping").spec_bytes())],
                },
            ),
    {
        let ghost m = ping_msg_view(self.msg);
        let mut f = Frame::array();
        f.push_bulk(bytes_from_vec(str_bytes("ping")));
        match self.msg {
            Some(b) => {
                f.push_bulk(b);
                proof {
                    assert(f@->Array_0 =~= seq![
                        FrameView::Bulk(("ping").spec_bytes()),
                        FrameView::Bulk(m->0),
                    ]);
                }
            },
            None => {
                proof {
                    assert(f@->Array_0 =~= seq![FrameView::Bulk(("ping").spec_bytes())]);
                }
            },
        }
        f
    }
}

} // verus!
