//! The GET command: look a key up.

use vstd::prelude::*;

use crate::bulk::bytes_from_vec;
use crate::db::Db;
use crate::frame::Frame;
use crate::frame::FrameView;
use crate::parse::as_string_arg;
use crate::parse::Parse;
use crate::parse::ParseError;
use crate::str_bytes;
use crate::StringSliceAdditionalSpecFns;

verus! {

/// Get the value of a key; the reply is the stored bytes, or null when the
/// key is absent.
pub struct Get {
    /// The key to look up.
    pub key: Vec<u8>,
}

impl Get {
    /// A GET command for this key.
    pub fn new(key: Vec<u8>) -> (g: Get)
        ensures
            g.key@ == key@,
    {
        Get { key }
    }

    /// The argument grammar: exactly one string, the key.
    pub open spec fn spec_parse(args: Seq<FrameView>) -> Result<Seq<u8>, ParseError> {
        if args.len() == 0 {
            Err(ParseError::EndOfStream)
        } else if as_string_arg(args[0]) is None {
            Err(ParseError::ExpectedString)
        } else if args.len() > 1 {
            Err(ParseError::ExpectedEnd)
        } else {
            Ok(as_string_arg(args[0])->0)
        }
    }

    /// Read the arguments that follow the command name.
    pub fn parse_frames(parse: &mut Parse) -> (r: Result<Get, ParseError>)
        ensures
            match r {
                Ok(g) => Self::spec_parse(old(parse)@) == Ok::<Seq<u8>, ParseError>(g.key@),
                Err(e) => Self::spec_parse(old(parse)@) == Err::<Seq<u8>, ParseError>(e),
            },
    {
        let key = match parse.next_string() {
            Ok(s) => s,
            Err(e) => {
                return Err(e);
            },
        };
        match parse.finish() {
            Ok(()) => Ok(Get { key }),
            Err(e) => Err(e),
        }
    }

    /// Apply against the database; the TTL index is left alone.
    pub fn apply(self, db: &Db) -> (reply: Frame)
        requires
            db.wf(),
        ensures
            reply@ == if db@.dom().contains(self.key@) {
                FrameView::Bulk(db@[self.key@].data)
            } else {
                FrameView::Null
            },
    {
        match db.get(&self.key) {
            Some(value) => Frame::Bulk(value),
            None => Frame::Null,
        }
    }

    /// The frame a client sends for this command.
    pub fn into_frame(self) -> (f: Frame)
        ensures
            f@ == FrameView::Array(
                seq![
                    FrameView::Bulk(("get").spec_bytes()),
                    FrameView::Bulk(self.key@),
                ],
            ),
    {
        let ghost k = self.key@;
        let mut f = Frame::array();
        f.push_bulk(bytes_from_vec(str_bytes("get")));
        f.push_bulk(bytes_from_vec(self.key));
        proof {
            assert(f@->Array_0 =~= seq![
                FrameView::Bulk(("get").spec_bytes()),
                FrameView::Bulk(k),
            ]);
        }
        f
    }
}

} // verus!
