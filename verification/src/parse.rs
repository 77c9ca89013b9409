//! A cursor over the elements of an array frame, used to read a command's
//! arguments positionally.

use vstd::prelude::*;

use crate::bulk::bytes_as_slice;
use crate::bulk::bytes_from_vec;
use crate::bulk::bytes_view;
use crate::frame::acceptable_decimal;
use crate::frame::dec_val;
use crate::frame::frame_view;
use crate::frame::frame_views;
use crate::frame::lemma_frame_views_index;
use crate::frame::parse_strict_decimal;
use crate::frame::Frame;
use crate::frame::FrameView;
use crate::str_bytes;
use crate::StringSliceAdditionalSpecFns;

verus! {

/// Why a frame could not be read as a command.
#[derive(Clone, Copy, PartialEq, Eq, Structural, Debug)]
pub enum ParseError {
    /// The command needed another argument and the array was exhausted.
    EndOfStream,
    /// The command frame was not an array.
    ExpectedArray,
    /// An argument was neither a simple nor a bulk string.
    ExpectedString,
    /// An argument was not an integer-bearing frame.
    ExpectedInt,
    /// An argument should have held a decimal number and did not.
    InvalidNumber,
    /// Arguments were left over after the command was read.
    ExpectedEnd,
    /// The token after a SET value was neither EX nor PX.
    InvalidExpiration,
}

impl ParseError {
    /// The wire text of the error reply this failure produces.
    pub fn message(&self) -> (m: Vec<u8>)
        ensures
            m@ == self.spec_message(),
    {
        match self {
            ParseError::EndOfStream => str_bytes("protocol error; unexpected end of stream"),
            ParseError::ExpectedArray => str_bytes("protocol error; expected array"),
            ParseError::ExpectedString => str_bytes(
                "protocol error; expected simple frame or bulk frame",
            ),
            ParseError::ExpectedInt => str_bytes("protocol error; expected int frame"),
            ParseError::InvalidNumber => str_bytes("protocol error; invalid number"),
            ParseError::ExpectedEnd => str_bytes(
                "protocol error; expected end of frame, but there was more",
            ),
            ParseError::InvalidExpiration => str_bytes("protocol error; invalid expiration"),
        }
    }

    /// The message each failure carries.
    pub open spec fn spec_message(&self) -> Seq<u8> {
        match self {
            ParseError::EndOfStream => ("protocol error; unexpected end of stream").spec_bytes(),
            ParseError::ExpectedArray => ("protocol error; expected array").spec_bytes(),
            ParseError::ExpectedString => (
            "protocol error; expected simple frame or bulk frame").spec_bytes(),
            ParseError::ExpectedInt => ("protocol error; expected int frame").spec_bytes(),
            ParseError::InvalidNumber => ("protocol error; invalid number").spec_bytes(),
            ParseError::ExpectedEnd => (
            "protocol error; expected end of frame, but there was more").spec_bytes(),
            ParseError::InvalidExpiration => ("protocol error; invalid expiration").spec_bytes(),
        }
    }
}

/// The string payload of an argument frame, when it has one. Both simple and
/// bulk strings are accepted.
pub open spec fn as_string_arg(f: FrameView) -> Option<Seq<u8>> {
    match f {
        FrameView::Simple(s) => Some(s),
        FrameView::Bulk(b) => Some(b),
        _ => None,
    }
}

/// The integer an argument frame denotes: an integer frame directly, or a
/// string frame holding a strict decimal.
pub open spec fn as_int_arg(f: FrameView) -> Option<u64> {
    match f {
        FrameView::Integer(v) => Some(v),
        FrameView::Simple(s) => if acceptable_decimal(s) {
            Some(dec_val(s) as u64)
        } else {
            None
        },
        FrameView::Bulk(s) => if acceptable_decimal(s) {
            Some(dec_val(s) as u64)
        } else {
            None
        },
        _ => None,
    }
}

/// A cursor over the elements of an array frame.
pub struct Parse {
    parts: Vec<Frame>,
}

impl View for Parse {
    type V = Seq<FrameView>;

    closed spec fn view(&self) -> Seq<FrameView> {
        frame_views(self.parts@)
    }
}

impl Parse {
    /// Start reading a command from a frame, which must be an array.
    pub fn new(frame: Frame) -> (r: Result<Parse, ParseError>)
        ensures
            match r {
                Ok(p) => frame@ matches FrameView::Array(elems) && p@ == elems,
                Err(e) => !(frame@ is Array) && e == ParseError::ExpectedArray,
            },
    {
        match frame {
            Frame::Array(parts) => Ok(Parse { parts }),
            _ => Err(ParseError::ExpectedArray),
        }
    }

    /// How many arguments are left.
    pub fn remaining(&self) -> (n: usize)
        ensures
            n == self@.len(),
    {
        proof {
            lemma_frame_views_index(self.parts@);
        }
        self.parts.len()
    }

    /// Take the next argument frame.
    fn next(&mut self) -> (r: Result<Frame, ParseError>)
        ensures
            match r {
                Ok(f) => old(self)@.len() > 0 && frame_view(f) == old(self)@[0] && final(self)@ == old(self)@.drop_first(),
                Err(e) => old(self)@.len() == 0 && e == ParseError::EndOfStream && final(self)@ == old(self)@,
            },
    {
        proof {
            lemma_frame_views_index(self.parts@);
        }
        if self.parts.len() == 0 {
            Err(ParseError::EndOfStream)
        } else {
            let f = self.parts.remove(0);
            proof {
                lemma_frame_views_index(self.parts@);
                assert(frame_views(self.parts@) =~= frame_views(old(self).parts@)
                    .drop_first());
            }
            Ok(f)
        }
    }

    /// Take the next argument as a byte string.
    pub fn next_string(&mut self) -> (r: Result<Vec<u8>, ParseError>)
        ensures
            match r {
                Ok(s) => old(self)@.len() > 0 && as_string_arg(old(self)@[0]) == Some(s@)
                    && final(self)@ == old(self)@.drop_first(),
                Err(e) => match e {
                    ParseError::EndOfStream => old(self)@.len() == 0 && final(self)@ == old(self)@,
                    ParseError::ExpectedString => old(self)@.len() > 0 && as_string_arg(
                        old(self)@[0],
                    ) is None && final(self)@ == old(self)@.drop_first(),
                    _ => false,
                },
            },
    {
        match self.next() {
            Ok(Frame::Simple(s)) => Ok(s),
            Ok(Frame::Bulk(b)) => Ok(vstd::slice::slice_to_vec(bytes_as_slice(&b))),
            Ok(_) => Err(ParseError::ExpectedString),
            Err(e) => Err(e),
        }
    }

    /// Take the next argument as a bulk payload.
    pub fn next_bytes(&mut self) -> (r: Result<bytes::Bytes, ParseError>)
        ensures
            match r {
                Ok(b) => old(self)@.len() > 0 && as_string_arg(old(self)@[0]) == Some(
                    bytes_view(b),
                ) && final(self)@ == old(self)@.drop_first(),
                Err(e) => match e {
                    ParseError::EndOfStream => old(self)@.len() == 0 && final(self)@ == old(self)@,
                    ParseError::ExpectedString => old(self)@.len() > 0 && as_string_arg(
                        old(self)@[0],
                    ) is None && final(self)@ == old(self)@.drop_first(),
                    _ => false,
                },
            },
    {
        match self.next() {
            Ok(Frame::Simple(s)) => Ok(bytes_from_vec(s)),
            Ok(Frame::Bulk(b)) => Ok(b),
            Ok(_) => Err(ParseError::ExpectedString),
            Err(e) => Err(e),
        }
    }

    /// Take the next argument as an unsigned integer.
    pub fn next_int(&mut self) -> (r: Result<u64, ParseError>)
        ensures
            match r {
                Ok(v) => old(self)@.len() > 0 && as_int_arg(old(self)@[0]) == Some(v)
                    && final(self)@ == old(self)@.drop_first(),
                Err(e) => match e {
                    ParseError::EndOfStream => old(self)@.len() == 0 && final(self)@ == old(self)@,
                    ParseError::InvalidNumber => old(self)@.len() > 0 && as_string_arg(
                        old(self)@[0],
                    ) is Some && as_int_arg(old(self)@[0]) is None && final(self)@ == old(self)@.drop_first(),
                    ParseError::ExpectedInt => old(self)@.len() > 0 && as_int_arg(
                        old(self)@[0],
                    ) is None && as_string_arg(old(self)@[0]) is None && final(self)@ == old(self)@.drop_first(),
                    _ => false,
                },
            },
    {
        match self.next() {
            Ok(Frame::Integer(v)) => Ok(v),
            Ok(Frame::Simple(s)) => match parse_strict_decimal(s.as_slice()) {
                Some(v) => Ok(v),
                None => Err(ParseError::InvalidNumber),
            },
            Ok(Frame::Bulk(b)) => match parse_strict_decimal(bytes_as_slice(&b)) {
                Some(v) => Ok(v),
                None => Err(ParseError::InvalidNumber),
            },
            Ok(_) => Err(ParseError::ExpectedInt),
            Err(e) => Err(e),
        }
    }

    /// Demand that no arguments are left.
    pub fn finish(&mut self) -> (r: Result<(), ParseError>)
        ensures
            final(self)@ == old(self)@,
            r is Ok <==> old(self)@.len() == 0,
            r matches Err(e) ==> e == ParseError::ExpectedEnd,
    {
        proof {
            lemma_frame_views_index(self.parts@);
        }
        if self.parts.len() == 0 {
            Ok(())
        } else {
            Err(ParseError::ExpectedEnd)
        }
    }
}

} // verus!
