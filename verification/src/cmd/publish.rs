//! The PUBLISH command: fan a message out to a channel's subscribers.

use vstd::prelude::*;

use crate::bulk::bytes_from_vec;
use crate::bulk::bytes_view;
use crate::db::Db;
use crate::frame::Frame;
use crate::frame::FrameView;
use crate::parse::as_string_arg;
use crate::parse::Parse;
use crate::parse::ParseError;
use crate::str_bytes;
use crate::StringSliceAdditionalSpecFns;

verus! {

/// Post a message to a channel; the reply is the number of live
/// subscriptions the message was sent to.
pub struct Publish {
    /// The channel to post on.
    pub channel: Vec<u8>,
    /// The message payload.
    pub message: bytes::Bytes,
}

impl Publish {
    /// The argument grammar: exactly a channel and a message.
    pub open spec fn spec_parse(args: Seq<FrameView>) -> Result<
        (Seq<u8>, Seq<u8>),
        ParseError,
    > {
        if args.len() == 0 {
            Err(ParseError::EndOfStream)
        } else if as_string_arg(args[0]) is None {
            Err(ParseError::ExpectedString)
        } else if args.len() == 1 {
            Err(ParseError::EndOfStream)
        } else if as_string_arg(args[1]) is None {
            Err(ParseError::ExpectedString)
        } else if args.len() > 2 {
            Err(ParseError::ExpectedEnd)
        } else {
            Ok((as_string_arg(args[0])->0, as_string_arg(args[1])->0))
        }
    }

    /// Read the arguments that follow the command name.
    pub fn parse_frames(parse: &mut Parse) -> (r: Result<Publish, ParseError>)
        ensures
            match r {
                Ok(c) => Self::spec_parse(old(parse)@) == Ok::<(Seq<u8>, Seq<u8>), ParseError>(
                    (c.channel@, bytes_view(c.message)),
                ),
                Err(e) => Self::spec_parse(old(parse)@) == Err::<(Seq<u8>, Seq<u8>), ParseError>(
                    e,
                ),
            },
    {
        let channel = match parse.next_string() {
            Ok(s) => s,
            Err(e) => {
                return Err(e);
            },
        };
        let message = match parse.next_bytes() {
            Ok(b) => b,
            Err(e) => {
                return Err(e);
            },
        };
        match parse.finish() {
            Ok(()) => Ok(Publish { channel, message }),
            Err(e) => Err(e),
        }
    }

    /// Apply against the registry: the reply carries the count of live
    /// subscriptions. The caller performs the actual fan-out to them and
    /// hands each the returned channel name and payload.
    pub fn apply(self, db: &Db) -> (r: (Vec<u8>, bytes::Bytes, Frame))
        requires
            db.wf(),
        ensures
            r.0@ == self.channel@,
            bytes_view(r.1) == bytes_view(self.message),
            r.2@ == FrameView::Integer(
                if db.channels().dom().contains(self.channel@) {
                    db.channels()[self.channel@]
                } else {
                    0u64
                },
            ),
    {
        let count = db.publish(&self.channel);
        (self.channel, self.message, Frame::Integer(count))
    }

    /// The frame a client sends for this command.
    pub fn into_frame(self) -> (f: Frame)
        ensures
            f@ == FrameView::Array(
                seq![
                    FrameView::Bulk(("publish").spec_bytes()),
                    FrameView::Bulk(self.channel@),
                    FrameView::Bulk(bytes_view(self.message)),
                ],
            ),
    {
        let ghost c = self.channel@;
        let ghost m = bytes_view(self.message);
        let mut f = Frame::array();
        f.push_bulk(bytes_from_vec(str_bytes("publish")));
        f.push_bulk(bytes_from_vec(self.channel));
        f.push_bulk(self.message);
        proof {
            assert(f@->Array_0 =~= seq![
                FrameView::Bulk(("publish").spec_bytes()),
                FrameView::Bulk(c),
                FrameView::Bulk(m),
            ]);
        }
        f
    }
}

} // verus!
