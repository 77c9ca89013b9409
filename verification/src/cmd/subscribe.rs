//! The SUBSCRIBE and UNSUBSCRIBE commands.

use vstd::prelude::*;

use crate::bulk::bytes_from_vec;
use crate::frame::Frame;
use crate::frame::FrameView;
use crate::parse::as_string_arg;
use crate::parse::Parse;
use crate::parse::ParseError;
use crate::str_bytes;
use crate::StringSliceAdditionalSpecFns;

verus! {

/// Every argument is a string: the channel names, in order.
pub open spec fn spec_channel_list(args: Seq<FrameView>) -> Option<Seq<Seq<u8>>> {
    if forall|i: int| 0 <= i < args.len() ==> as_string_arg(#[trigger] args[i]) is Some {
        Some(Seq::new(args.len(), |i: int| as_string_arg(args[i])->0))
    } else {
        None
    }
}

/// The channel names a command value carries.
pub open spec fn channels_view(channels: Seq<Vec<u8>>) -> Seq<Seq<u8>> {
    Seq::new(channels.len(), |i: int| channels[i]@)
}

/// Read channel names until the arguments run out.
#[verifier::loop_isolation(false)]
fn parse_channels(parse: &mut Parse) -> (r: Result<Vec<Vec<u8>>, ParseError>)
    ensures
        match r {
            Ok(chs) => spec_channel_list(old(parse)@) == Some(channels_view(chs@)),
            Err(e) => e == ParseError::ExpectedString && spec_channel_list(old(parse)@)
                is None,
        },
{
    let ghost args = parse@;
    let mut channels: Vec<Vec<u8>> = Vec::new();
    while parse.remaining() > 0
        invariant
            channels@.len() <= args.len(),
            parse@ =~= args.subrange(channels@.len() as int, args.len() as int),
            forall|i: int|
                0 <= i < channels@.len() ==> as_string_arg(#[trigger] args[i]) == Some(
                    channels@[i]@,
                ),
        decreases parse@.len(),
    {
        let ghost consumed = channels@.len() as int;
        match parse.next_string() {
            Ok(s) => {
                proof {
                    assert(parse@ =~= args.subrange(consumed + 1, args.len() as int));
                }
                channels.push(s);
            },
            Err(e) => {
                proof {
                    assert(as_string_arg(args[consumed]) is None);
                }
                return Err(ParseError::ExpectedString);
            },
        }
    }
    proof {
        assert(channels@.len() == args.len());
        assert(spec_channel_list(args) == Some(channels_view(channels@)));
    }
    Ok(channels)
}

/// Subscribe the connection to one or more channels. In subscribed mode only
/// further SUBSCRIBE, UNSUBSCRIBE, PING and QUIT commands are accepted.
pub struct Subscribe {
    /// The channels to subscribe to, in order.
    pub channels: Vec<Vec<u8>>,
}

/// Unsubscribe the connection from the listed channels, or from every
/// channel when none is listed.
pub struct Unsubscribe {
    /// The channels to drop; empty means all.
    pub channels: Vec<Vec<u8>>,
}

impl Subscribe {
    /// A SUBSCRIBE command for these channels.
    pub fn new(channels: Vec<Vec<u8>>) -> (c: Subscribe)
        ensures
            c.channels@ == channels@,
    {
        Subscribe { channels }
    }

    /// The argument grammar: one or more strings.
    pub open spec fn spec_parse(args: Seq<FrameView>) -> Result<Seq<Seq<u8>>, ParseError> {
        if args.len() == 0 {
            Err(ParseError::EndOfStream)
        } else {
            match spec_channel_list(args) {
                Some(chs) => Ok(chs),
                None => Err(ParseError::ExpectedString),
            }
        }
    }

    /// Read the arguments that follow the command name.
    pub fn parse_frames(parse: &mut Parse) -> (r: Result<Subscribe, ParseError>)
        ensures
            match r {
                Ok(c) => Self::spec_parse(old(parse)@) == Ok::<Seq<Seq<u8>>, ParseError>(
                    channels_view(c.channels@),
                ),
                Err(e) => Self::spec_parse(old(parse)@) == Err::<Seq<Seq<u8>>, ParseError>(e),
            },
    {
        if parse.remaining() == 0 {
            return Err(ParseError::EndOfStream);
        }
        match parse_channels(parse) {
            Ok(channels) => Ok(Subscribe { channels }),
            Err(e) => Err(e),
        }
    }

    /// The frame a client sends for this command.
    #[verifier::loop_isolation(false)]
    pub fn into_frame(self) -> (f: Frame)
        ensures
            f@ == FrameView::Array(
                seq![FrameView::Bulk(("subscribe").spec_bytes())] + Seq::new(
                    self.channels@.len(),
                    |i: int| FrameView::Bulk(self.channels@[i]@),
                ),
            ),
    {
        let ghost chs = self.channels@;
        let mut f = Frame::array();
        f.push_bulk(bytes_from_vec(str_bytes("subscribe")));
        let mut i: usize = 0;
        let mut channels = self.channels;
        let ghost target = seq![FrameView::Bulk(("subscribe").spec_bytes())] + Seq::new(
            chs.len(),
            |i: int| FrameView::Bulk(chs[i]@),
        );
        while i < channels.len()
            invariant
                0 <= i <= channels@.len(),
                channels@ == chs,
                f@ is Array,
                f@->Array_0 =~= target.subrange(0, i + 1),
            decreases channels@.len() - i,
        {
            let ch = crate::copy_bytes(&channels[i]);
            f.push_bulk(bytes_from_vec(ch));
            i = i + 1;
            proof {
                assert(f@->Array_0 =~= target.subrange(0, i as int + 1));
            }
        }
        proof {
            assert(f@->Array_0 =~= target);
        }
        f
    }
}

impl Unsubscribe {
    /// An UNSUBSCRIBE command for these channels.
    pub fn new(channels: Vec<Vec<u8>>) -> (c: Unsubscribe)
        ensures
            c.channels@ == channels@,
    {
        Unsubscribe { channels }
    }

    /// The argument grammar: zero or more strings.
    pub open spec fn spec_parse(args: Seq<FrameView>) -> Result<Seq<Seq<u8>>, ParseError> {
        match spec_channel_list(args) {
            Some(chs) => Ok(chs),
            None => Err(ParseError::ExpectedString),
        }
    }

    /// Read the arguments that follow the command name.
    pub fn parse_frames(parse: &mut Parse) -> (r: Result<Unsubscribe, ParseError>)
        ensures
            match r {
                Ok(c) => Self::spec_parse(old(parse)@) == Ok::<Seq<Seq<u8>>, ParseError>(
                    channels_view(c.channels@),
                ),
                Err(e) => Self::spec_parse(old(parse)@) == Err::<Seq<Seq<u8>>, ParseError>(e),
            },
    {
        match parse_channels(parse) {
            Ok(channels) => Ok(Unsubscribe { channels }),
            Err(e) => Err(e),
        }
    }

    /// The frame a client sends for this command.
    #[verifier::loop_isolation(false)]
    pub fn into_frame(self) -> (f: Frame)
        ensures
            f@ == FrameView::Array(
                seq![FrameView::Bulk(("unsubscribe").spec_bytes())] + Seq::new(
                    self.channels@.len(),
                    |i: int| FrameView::Bulk(self.channels@[i]@),
                ),
            ),
    {
        let ghost chs = self.channels@;
        let mut f = Frame::array();
        f.push_bulk(bytes_from_vec(str_bytes("unsubscribe")));
        let mut i: usize = 0;
        let mut channels = self.channels;
        let ghost target = seq![FrameView::Bulk(("unsubscribe").spec_bytes())] + Seq::new(
            chs.len(),
            |i: int| FrameView::Bulk(chs[i]@),
        );
        while i < channels.len()
            invariant
                0 <= i <= channels@.len(),
                channels@ == chs,
                f@ is Array,
                f@->Array_0 =~= target.subrange(0, i + 1),
            decreases channels@.len() - i,
        {
            let ch = crate::copy_bytes(&channels[i]);
            f.push_bulk(bytes_from_vec(ch));
            i = i + 1;
            proof {
                assert(f@->Array_0 =~= target.subrange(0, i as int + 1));
            }
        }
        proof {
            assert(f@->Array_0 =~= target);
        }
        f
    }
}

} // verus!
