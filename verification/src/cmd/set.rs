//! The SET command: store a value, with an optional time to live.

use vstd::prelude::*;

use crate::bulk::bytes_from_vec;
use crate::bulk::bytes_view;
use crate::bytes_equal;
use crate::db::sat_add;
use crate::db::set_effect_kv;
use crate::db::set_effect_ttl;
use crate::db::Db;
use crate::frame::Frame;
use crate::frame::FrameView;
use crate::parse::as_int_arg;
use crate::parse::as_string_arg;
use crate::parse::Parse;
use crate::parse::ParseError;
use crate::str_bytes;
use crate::StringSliceAdditionalSpecFns;

verus! {

/// Seconds as milliseconds, stopping at the top of the range.
pub open spec fn secs_to_ms(s: u64) -> u64 {
    if s > u64::MAX / 1000 {
        u64::MAX
    } else {
        (s * 1000) as u64
    }
}

/// Set a key to a value. `EX <seconds>` or `PX <milliseconds>` gives the
/// entry a time to live; the two tokens are uppercase and mutually exclusive.
pub struct SetCmd {
    /// The key to store under.
    pub key: Vec<u8>,
    /// The value to store.
    pub value: bytes::Bytes,
    /// The time to live in milliseconds, if one was given.
    pub expire: Option<u64>,
}

impl SetCmd {
    /// The argument grammar: key, value, then nothing or one expiration
    /// token with its integer.
    pub open spec fn spec_parse(args: Seq<FrameView>) -> Result<
        (Seq<u8>, Seq<u8>, Option<u64>),
        ParseError,
    > {
        if args.len() == 0 {
            Err(ParseError::EndOfStream)
        } else if as_string_arg(args[0]) is None {
            Err(ParseError::ExpectedString)
        } else if args.len() == 1 {
            Err(ParseError::EndOfStream)
        } else if as_string_arg(args[1]) is None {
            Err(ParseError::ExpectedString)
        } else {
            let key = as_string_arg(args[0])->0;
            let value = as_string_arg(args[1])->0;
            if args.len() == 2 {
                Ok((key, value, None))
            } else if as_string_arg(args[2]) is None {
                Err(ParseError::ExpectedString)
            } else if as_string_arg(args[2])->0 == ("EX").spec_bytes() {
                if args.len() == 3 {
                    Err(ParseError::EndOfStream)
                } else if as_int_arg(args[3]) is None {
                    if as_string_arg(args[3]) is Some {
                        Err(ParseError::InvalidNumber)
                    } else {
                        Err(ParseError::ExpectedInt)
                    }
                } else if args.len() > 4 {
                    Err(ParseError::ExpectedEnd)
                } else {
                    Ok((key, value, Some(secs_to_ms(as_int_arg(args[3])->0))))
                }
            } else if as_string_arg(args[2])->0 == ("PX").spec_bytes() {
                if args.len() == 3 {
                    Err(ParseError::EndOfStream)
                } else if as_int_arg(args[3]) is None {
                    if as_string_arg(args[3]) is Some {
                        Err(ParseError::InvalidNumber)
                    } else {
                        Err(ParseError::ExpectedInt)
                    }
                } else if args.len() > 4 {
                    Err(ParseError::ExpectedEnd)
                } else {
                    Ok((key, value, Some(as_int_arg(args[3])->0)))
                }
            } else {
                Err(ParseError::InvalidExpiration)
            }
        }
    }

    /// Read the arguments that follow the command name.
    pub fn parse_frames(parse: &mut Parse) -> (r: Result<SetCmd, ParseError>)
        ensures
            match r {
                Ok(c) => Self::spec_parse(old(parse)@) == Ok::<
                    (Seq<u8>, Seq<u8>, Option<u64>),
                    ParseError,
                >((c.key@, bytes_view(c.value), c.expire)),
                Err(e) => Self::spec_parse(old(parse)@) == Err::<
                    (Seq<u8>, Seq<u8>, Option<u64>),
                    ParseError,
                >(e),
            },
    {
        let key = match parse.next_string() {
            Ok(s) => s,
            Err(e) => {
                return Err(e);
            },
        };
        let value = match parse.next_bytes() {
            Ok(b) => b,
            Err(e) => {
                return Err(e);
            },
        };
        if parse.remaining() == 0 {
            return Ok(SetCmd { key, value, expire: None });
        }
        let token = match parse.next_string() {
            Ok(s) => s,
            Err(e) => {
                return Err(e);
            },
        };
        let expire: u64;
        if bytes_equal(&token, &str_bytes("EX")) {
            let secs = match parse.next_int() {
                Ok(v) => v,
                Err(e) => {
                    return Err(e);
                },
            };
            expire = if secs > u64::MAX / 1000 {
                u64::MAX
            } else {
                secs * 1000
            };
        } else if bytes_equal(&token, &str_bytes("PX")) {
            let ms = match parse.next_int() {
                Ok(v) => v,
                Err(e) => {
                    return Err(e);
                },
            };
            expire = ms;
        } else {
            return Err(ParseError::InvalidExpiration);
        }
        match parse.finish() {
            Ok(()) => Ok(SetCmd { key, value, expire: Some(expire) }),
            Err(e) => Err(e),
        }
    }

    /// Apply against the database: store the value, and say whether the
    /// expiry worker must be woken. The reply is always the simple string OK.
    pub fn apply(self, db: &mut Db, now: u64) -> (r: (Frame, bool))
        requires
            old(db).wf(),
            old(db).insertion_counter() < u64::MAX,
        ensures
            final(db).wf(),
            r.0@ == FrameView::Simple(("OK").spec_bytes()),
            final(db)@ == set_effect_kv(
                old(db)@,
                self.key@,
                old(db).insertion_counter(),
                bytes_view(self.value),
                match self.expire {
                    Some(d) => Some(sat_add(now, d)),
                    None => None,
                },
            ),
            final(db).ttl() == set_effect_ttl(
                old(db)@,
                old(db).ttl(),
                self.key@,
                old(db).insertion_counter(),
                match self.expire {
                    Some(d) => Some(sat_add(now, d)),
                    None => None,
                },
            ),
            r.1 == match self.expire {
                Some(d) => match old(db).spec_next_expiration() {
                    Some(first) => first > sat_add(now, d),
                    None => true,
                },
                None => false,
            },
            final(db).insertion_counter() == old(db).insertion_counter() + 1,
            final(db).channels() == old(db).channels(),
            final(db).shutdown_requested() == old(db).shutdown_requested(),
    {
        let notify = db.set(self.key, self.value, self.expire, now);
        (Frame::Simple(str_bytes("OK")), notify)
    }

    /// The frame a client sends for this command. A TTL rides along as
    /// `PX <milliseconds>`.
    pub fn into_frame(self) -> (f: Frame)
        ensures
            f@ == FrameView::Array(
                match self.expire {
                    Some(ms) => seq![
                        FrameView::Bulk(("set").spec_bytes()),
                        FrameView::Bulk(self.key@),
                        FrameView::Bulk(bytes_view(self.value)),
                        FrameView::Bulk(("PX").spec_bytes()),
                        FrameView::Integer(ms),
                    ],
                    None => seq![
                        FrameView::Bulk(("set").spec_bytes()),
                        FrameView::Bulk(self.key@),
                        FrameView::Bulk(bytes_view(self.value)),
                    ],
                },
            ),
    {
        let ghost k = self.key@;
        let ghost v = bytes_view(self.value);
        let mut f = Frame::array();
        f.push_bulk(bytes_from_vec(str_bytes("set")));
        f.push_bulk(bytes_from_vec(self.key));
        f.push_bulk(self.value);
        match self.expire {
            Some(ms) => {
                f.push_bulk(bytes_from_vec(str_bytes("PX")));
                f.push_int(ms);
                proof {
                    assert(f@->Array_0 =~= seq![
                        FrameView::Bulk(("set").spec_bytes()),
                        FrameView::Bulk(k),
                        FrameView::Bulk(v),
                        FrameView::Bulk(("PX").spec_bytes()),
                        FrameView::Integer(ms),
                    ]);
                }
            },
            None => {
                proof {
                    assert(f@->Array_0 =~= seq![
                        FrameView::Bulk(("set").spec_bytes()),
                        FrameView::Bulk(k),
                        FrameView::Bulk(v),
                    ]);
                }
            },
        }
        f
    }
}

} // verus!
