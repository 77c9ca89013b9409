//! Commands: reading a frame as a typed command, and each command's
//! semantics.

pub mod get;
pub mod invalid;
pub mod ping;
pub mod publish;
pub mod set;
pub mod subscribe;
pub mod utils;

use vstd::prelude::*;

pub use get::Get;
pub use invalid::Invalid;
pub use ping::Ping;
pub use publish::Publish;
pub use set::SetCmd;
pub use subscribe::Subscribe;
pub use subscribe::Unsubscribe;

use crate::bulk::bytes_view;
use crate::bytes_equal;
use crate::frame::Frame;
use crate::frame::FrameView;
use crate::lower_byte;
use crate::parse::as_string_arg;
use crate::parse::Parse;
use crate::parse::ParseError;
use crate::str_bytes;
use crate::to_lowercase;
use crate::StringSliceAdditionalSpecFns;
use ping::ping_msg_view;
use subscribe::channels_view;

verus! {

/// A command whose name the server does not know. The reply names it.
pub struct Unknown {
    /// The lowercased command name.
    pub name: Vec<u8>,
}

/// The wire text of the reply to an unknown command.
pub open spec fn unknown_command_message(name: Seq<u8>) -> Seq<u8> {
    ("ERR unknown command '").spec_bytes() + name + seq![39u8]
}

impl Unknown {
    /// The reply: exactly `ERR unknown command '<name>'` as an error frame.
    pub fn apply(self) -> (reply: Frame)
        ensures
            reply@ == FrameView::Error(unknown_command_message(self.name@)),
    {
        let ghost n = self.name@;
        let mut m = str_bytes("ERR unknown command '");
        let mut name = self.name;
        m.append(&mut name);
        m.push(39);
        assert(m@ =~= unknown_command_message(n));
        Frame::Error(m)
    }
}

/// One parsed command.
pub enum Command {
    Get(Get),
    Publish(Publish),
    SetCmd(SetCmd),
    Subscribe(Subscribe),
    Unsubscribe(Unsubscribe),
    Ping(Ping),
    Unknown(Unknown),
}

/// The mathematical value of a command.
pub enum CommandView {
    Get { key: Seq<u8> },
    Publish { channel: Seq<u8>, message: Seq<u8> },
    SetCmd { key: Seq<u8>, value: Seq<u8>, expire: Option<u64> },
    Subscribe { channels: Seq<Seq<u8>> },
    Unsubscribe { channels: Seq<Seq<u8>> },
    Ping { msg: Option<Seq<u8>> },
    Unknown { name: Seq<u8> },
}

impl View for Command {
    type V = CommandView;

    open spec fn view(&self) -> CommandView {
        match self {
            Command::Get(c) => CommandView::Get { key: c.key@ },
            Command::Publish(c) => CommandView::Publish {
                channel: c.channel@,
                message: bytes_view(c.message),
            },
            Command::SetCmd(c) => CommandView::SetCmd {
                key: c.key@,
                value: bytes_view(c.value),
                expire: c.expire,
            },
            Command::Subscribe(c) => CommandView::Subscribe {
                channels: channels_view(c.channels@),
            },
            Command::Unsubscribe(c) => CommandView::Unsubscribe {
                channels: channels_view(c.channels@),
            },
            Command::Ping(c) => CommandView::Ping { msg: ping_msg_view(c.msg) },
            Command::Unknown(c) => CommandView::Unknown { name: c.name@ },
        }
    }
}

/// ASCII lowercase of a byte string.
pub open spec fn lower(s: Seq<u8>) -> Seq<u8> {
    s.map_values(|b: u8| lower_byte(b))
}

/// How a frame reads as a command: the frame must be an array; its first
/// element, as a string, is the lowercased command name; the remaining
/// elements are that command's arguments. An unknown name never fails — it
/// becomes an [`Unknown`] command, whatever its arguments.
pub open spec fn spec_from_frame(fv: FrameView) -> Result<CommandView, ParseError> {
    match fv {
        FrameView::Array(elems) => {
            if elems.len() == 0 {
                Err(ParseError::EndOfStream)
            } else {
                match as_string_arg(elems[0]) {
                    Option::Some(raw) => {
                        let name = lower(raw);
                        let args = elems.drop_first();
                        if name == ("get").spec_bytes() {
                            match Get::spec_parse(args) {
                                Ok(key) => Ok(CommandView::Get { key }),
                                Err(e) => Err(e),
                            }
                        } else if name == ("set").spec_bytes() {
                            match SetCmd::spec_parse(args) {
                                Ok(kve) => Ok(
                                    CommandView::SetCmd {
                                        key: kve.0,
                                        value: kve.1,
                                        expire: kve.2,
                                    },
                                ),
                                Err(e) => Err(e),
                            }
                        } else if name == ("publish").spec_bytes() {
                            match Publish::spec_parse(args) {
                                Ok(cm) => Ok(
                                    CommandView::Publish { channel: cm.0, message: cm.1 },
                                ),
                                Err(e) => Err(e),
                            }
                        } else if name == ("subscribe").spec_bytes() {
                            match Subscribe::spec_parse(args) {
                                Ok(channels) => Ok(CommandView::Subscribe { channels }),
                                Err(e) => Err(e),
                            }
                        } else if name == ("unsubscribe").spec_bytes() {
                            match Unsubscribe::spec_parse(args) {
                                Ok(channels) => Ok(CommandView::Unsubscribe { channels }),
                                Err(e) => Err(e),
                            }
                        } else if name == ("ping").spec_bytes() {
                            match Ping::spec_parse(args) {
                                Ok(msg) => Ok(CommandView::Ping { msg }),
                                Err(e) => Err(e),
                            }
                        } else {
                            Ok(CommandView::Unknown { name })
                        }
                    },
                    Option::None => Err(ParseError::ExpectedString),
                }
            }
        },
        _ => Err(ParseError::ExpectedArray),
    }
}

impl Command {
    /// Read a frame as a command.
    pub fn from_frame(frame: Frame) -> (r: Result<Command, ParseError>)
        ensures
            match r {
                Ok(c) => spec_from_frame(frame@) == Ok::<CommandView, ParseError>(c@),
                Err(e) => spec_from_frame(frame@) == Err::<CommandView, ParseError>(e),
            },
    {
        let ghost fv = frame@;
        let mut parse = match Parse::new(frame) {
            Ok(p) => p,
            Err(e) => {
                return Err(e);
            },
        };
        let ghost elems = parse@;
        let mut name = match parse.next_string() {
            Ok(s) => s,
            Err(e) => {
                return Err(e);
            },
        };
        to_lowercase(&mut name);
        let ghost args = parse@;
        if bytes_equal(&name, &str_bytes("get")) {
            match Get::parse_frames(&mut parse) {
                Ok(c) => Ok(Command::Get(c)),
                Err(e) => Err(e),
            }
        } else if bytes_equal(&name, &str_bytes("set")) {
            match SetCmd::parse_frames(&mut parse) {
                Ok(c) => Ok(Command::SetCmd(c)),
                Err(e) => Err(e),
            }
        } else if bytes_equal(&name, &str_bytes("publish")) {
            match Publish::parse_frames(&mut parse) {
                Ok(c) => Ok(Command::Publish(c)),
                Err(e) => Err(e),
            }
        } else if bytes_equal(&name, &str_bytes("subscribe")) {
            match Subscribe::parse_frames(&mut parse) {
                Ok(c) => Ok(Command::Subscribe(c)),
                Err(e) => Err(e),
            }
        } else if bytes_equal(&name, &str_bytes("unsubscribe")) {
            match Unsubscribe::parse_frames(&mut parse) {
                Ok(c) => Ok(Command::Unsubscribe(c)),
                Err(e) => Err(e),
            }
        } else if bytes_equal(&name, &str_bytes("ping")) {
            match Ping::parse_frames(&mut parse) {
                Ok(c) => Ok(Command::Ping(c)),
                Err(e) => Err(e),
            }
        } else {
            Ok(Command::Unknown(Unknown { name }))
        }
    }

    /// The command's lowercased wire name.
    pub open spec fn spec_name(&self) -> Seq<u8> {
        match self {
            Command::Get(_) => ("get").spec_bytes(),
            Command::Publish(_) => ("publish").spec_bytes(),
            Command::SetCmd(_) => ("set").spec_bytes(),
            Command::Subscribe(_) => ("subscribe").spec_bytes(),
            Command::Unsubscribe(_) => ("unsubscribe").spec_bytes(),
            Command::Ping(_) => ("ping").spec_bytes(),
            Command::Unknown(c) => c.name@,
        }
    }

    /// The command's lowercased wire name.
    pub fn get_name(&self) -> (n: Vec<u8>)
        ensures
            n@ == self.spec_name(),
    {
        match self {
            Command::Get(_) => str_bytes("get"),
            Command::Publish(_) => str_bytes("publish"),
            Command::SetCmd(_) => str_bytes("set"),
            Command::Subscribe(_) => str_bytes("subscribe"),
            Command::Unsubscribe(_) => str_bytes("unsubscribe"),
            Command::Ping(_) => str_bytes("ping"),
            Command::Unknown(c) => crate::copy_bytes(&c.name),
        }
    }
}

} // verus!
