//! Per-connection serving logic: the subscription set a connection holds,
//! and what each command does in each of the two connection modes.
//!
//! A connection starts in normal mode and enters subscribed mode through
//! SUBSCRIBE; it is in subscribed mode exactly while its subscription set is
//! nonempty. The caller owns the socket and the task: it reads frames, hands
//! each command to the dispatch function for the current mode, performs the
//! returned action, and writes the returned frames.

use vstd::prelude::*;

use crate::bulk::bytes_from_vec;
use crate::bulk::bytes_view;
use crate::bytes_equal;
use crate::cmd::unknown_command_message;
use crate::cmd::Command;
use crate::cmd::CommandView;
use crate::db::sat_add;
use crate::db::set_effect_kv;
use crate::db::set_effect_ttl;
use crate::db::Db;
use crate::frame::Frame;
use crate::frame::FrameView;
use crate::str_bytes;
use crate::StringSliceAdditionalSpecFns;

verus! {

/// The channels one connection is subscribed to, in subscription order.
pub struct Session {
    subs: Vec<Vec<u8>>,
}

/// The confirmation frame for a subscription change: the verb, the channel,
/// and the number of channels the connection is subscribed to afterwards.
pub open spec fn confirmation(verb: Seq<u8>, channel: Seq<u8>, count: u64) -> FrameView {
    FrameView::Array(
        seq![FrameView::Bulk(verb), FrameView::Bulk(channel), FrameView::Integer(count)],
    )
}

/// The frame that delivers one pub/sub message to a subscriber.
pub open spec fn message_frame(channel: Seq<u8>, payload: Seq<u8>) -> FrameView {
    FrameView::Array(
        seq![
            FrameView::Bulk(("message").spec_bytes()),
            FrameView::Bulk(channel),
            FrameView::Bulk(payload),
        ],
    )
}

/// Build the frame that delivers one pub/sub message.
pub fn make_message_frame(channel: &Vec<u8>, payload: bytes::Bytes) -> (f: Frame)
    ensures
        f@ == message_frame(channel@, bytes_view(payload)),
{
    let ghost c = channel@;
    let ghost p = bytes_view(payload);
    let mut f = Frame::array();
    f.push_bulk(bytes_from_vec(str_bytes("message")));
    f.push_bulk(bytes_from_vec(crate::copy_bytes(channel)));
    f.push_bulk(payload);
    proof {
        assert(f@->Array_0 =~= seq![
            FrameView::Bulk(("message").spec_bytes()),
            FrameView::Bulk(c),
            FrameView::Bulk(p),
        ]);
    }
    f
}

impl View for Session {
    type V = Seq<Seq<u8>>;

    closed spec fn view(&self) -> Seq<Seq<u8>> {
        Seq::new(self.subs@.len(), |i: int| self.subs@[i]@)
    }
}

/// The set holds this channel.
pub open spec fn session_has(s: Seq<Seq<u8>>, c: Seq<u8>) -> bool {
    exists|i: int| 0 <= i < s.len() && s[i] == c
}

impl Session {
    /// No channel twice.
    pub open spec fn wf(&self) -> bool {
        forall|i: int, j: int| 0 <= i < j < self@.len() ==> self@[i] != self@[j]
    }

    /// A connection in normal mode: no subscriptions.
    pub fn new() -> (s: Session)
        ensures
            s.wf(),
            s@ == Seq::<Seq<u8>>::empty(),
    {
        Session { subs: Vec::new() }
    }

    /// How many channels the connection is subscribed to. The connection is
    /// in subscribed mode exactly while this is nonzero.
    pub fn count(&self) -> (n: usize)
        ensures
            n == self@.len(),
    {
        self.subs.len()
    }

    /// Where this channel sits in the set, if anywhere.
    fn find(&self, channel: &Vec<u8>) -> (r: Option<usize>)
        ensures
            match r {
                Some(i) => i < self@.len() && self@[i as int] == channel@,
                None => !session_has(self@, channel@),
            },
    {
        let mut i: usize = 0;
        while i < self.subs.len()
            invariant
                0 <= i <= self.subs@.len(),
                forall|j: int| 0 <= j < i ==> self@[j] != channel@,
            decreases self.subs@.len() - i,
        {
            if bytes_equal(&self.subs[i], channel) {
                return Some(i);
            }
            i = i + 1;
        }
        None
    }

    /// The subscribed channels, as a fresh list.
    pub fn channels(&self) -> (r: Vec<Vec<u8>>)
        ensures
            r@.len() == self@.len(),
            forall|i: int| 0 <= i < r@.len() ==> (#[trigger] r@[i])@ == self@[i],
    {
        let mut out: Vec<Vec<u8>> = Vec::new();
        let mut i: usize = 0;
        while i < self.subs.len()
            invariant
                0 <= i <= self.subs@.len(),
                out@.len() == i,
                forall|j: int| 0 <= j < i ==> (#[trigger] out@[j])@ == self@[j],
            decreases self.subs@.len() - i,
        {
            out.push(crate::copy_bytes(&self.subs[i]));
            i = i + 1;
        }
        out
    }

    /// Add one channel. A channel already held is left alone — the second
    /// subscription is idempotent — but a confirmation is produced either
    /// way, carrying the number of channels now held. The flag says whether
    /// the channel is new, so the caller knows to open a receiver for it.
    pub fn subscribe_channel(&mut self, channel: Vec<u8>) -> (r: (Frame, bool))
        requires
            old(self).wf(),
        ensures
            final(self).wf(),
            r.1 == !session_has(old(self)@, channel@),
            final(self)@ == if session_has(old(self)@, channel@) {
                old(self)@
            } else {
                old(self)@.push(channel@)
            },
            r.0@ == confirmation(
                ("subscribe").spec_bytes(),
                channel@,
                final(self)@.len() as u64,
            ),
    {
        let ghost c = channel@;
        let name_copy = crate::copy_bytes(&channel);
        let fresh: bool;
        match self.find(&channel) {
            Some(_) => {
                fresh = false;
            },
            None => {
                self.subs.push(channel);
                fresh = true;
                proof {
                    assert(self@ =~= old(self)@.push(c));
                    assert forall|i: int, j: int|
                        0 <= i < j < self@.len() implies self@[i] != self@[j] by {
                        if j == self@.len() - 1 {
                            assert(!session_has(old(self)@, c));
                            assert(old(self)@[i] != c);
                        }
                    }
                }
            },
        }
        let count = self.subs.len() as u64;
        let mut f = Frame::array();
        f.push_bulk(bytes_from_vec(str_bytes("subscribe")));
        f.push_bulk(bytes_from_vec(name_copy));
        f.push_int(count);
        proof {
            assert(f@->Array_0 =~= seq![
                FrameView::Bulk(("subscribe").spec_bytes()),
                FrameView::Bulk(c),
                FrameView::Integer(count),
            ]);
        }
        (f, fresh)
    }

    /// Drop one channel, present or not, and confirm, carrying the number of
    /// channels still held. The flag says whether the channel was held, so
    /// the caller knows to close its receiver.
    pub fn unsubscribe_channel(&mut self, channel: &Vec<u8>) -> (r: (Frame, bool))
        requires
            old(self).wf(),
        ensures
            final(self).wf(),
            r.1 == session_has(old(self)@, channel@),
            if session_has(old(self)@, channel@) {
                exists|i: int|
                    0 <= i < old(self)@.len() && old(self)@[i] == channel@ && final(self)@
                        == old(self)@.remove(i)
            } else {
                final(self)@ == old(self)@
            },
            r.0@ == confirmation(
                ("unsubscribe").spec_bytes(),
                channel@,
                final(self)@.len() as u64,
            ),
    {
        let ghost c = channel@;
        let held: bool;
        match self.find(channel) {
            Some(i) => {
                self.subs.remove(i);
                held = true;
                proof {
                    assert(self@ =~= old(self)@.remove(i as int));
                    assert forall|a: int, b: int|
                        0 <= a < b < self@.len() implies self@[a] != self@[b] by {
                        let a0 = if a < i { a } else { a + 1 };
                        let b0 = if b < i { b } else { b + 1 };
                        assert(self@[a] == old(self)@[a0] && self@[b] == old(self)@[b0]);
                    }
                }
            },
            None => {
                held = false;
                proof {
                    assert(self@ =~= old(self)@);
                }
            },
        }
        let count = self.subs.len() as u64;
        let mut f = Frame::array();
        f.push_bulk(bytes_from_vec(str_bytes("unsubscribe")));
        f.push_bulk(bytes_from_vec(crate::copy_bytes(channel)));
        f.push_int(count);
        proof {
            assert(f@->Array_0 =~= seq![
                FrameView::Bulk(("unsubscribe").spec_bytes()),
                FrameView::Bulk(c),
                FrameView::Integer(count),
            ]);
        }
        (f, held)
    }
}

// ---------------------------------------------------------------------------
// Command dispatch, by connection mode.
// ---------------------------------------------------------------------------

/// What a command asks of the caller in normal mode.
pub enum NormalAction {
    /// Write this frame; wake the expiry worker first when the flag is set.
    Reply { frame: Frame, wake_expiry: bool },
    /// Enter subscribed mode with these channels.
    StartSubscribe(Vec<Vec<u8>>),
    /// Fan the message out to the channel's subscribers, then write the
    /// reply, which already carries the subscription count.
    Fanout { channel: Vec<u8>, message: bytes::Bytes, reply: Frame },
}

/// Serve one command in normal mode. GET, SET, PUBLISH, PING and unknown
/// commands are answered in place; SUBSCRIBE switches the connection into
/// subscribed mode; UNSUBSCRIBE is an error here.
pub fn normal_dispatch(db: &mut Db, cmd: Command, now: u64) -> (a: NormalAction)
    requires
        old(db).wf(),
        cmd@ is SetCmd ==> old(db).insertion_counter() < u64::MAX,
    ensures
        final(db).wf(),
        !(cmd@ is SetCmd) ==> *final(db) == *old(db),
        match cmd@ {
            CommandView::Get { key } => a matches NormalAction::Reply { frame, wake_expiry }
                && !wake_expiry && frame@ == if old(db)@.dom().contains(key) {
                FrameView::Bulk(old(db)@[key].data)
            } else {
                FrameView::Null
            },
            CommandView::SetCmd { key, value, expire } => {
                let when = match expire {
                    Some(d) => Some(sat_add(now, d)),
                    None => None,
                };
                &&& a matches NormalAction::Reply { frame, wake_expiry } && frame@
                    == FrameView::Simple(("OK").spec_bytes()) && wake_expiry == match expire {
                    Some(d) => match old(db).spec_next_expiration() {
                        Some(first) => first > sat_add(now, d),
                        None => true,
                    },
                    None => false,
                }
                &&& final(db)@ == set_effect_kv(
                    old(db)@,
                    key,
                    old(db).insertion_counter(),
                    value,
                    when,
                )
                &&& final(db).ttl() == set_effect_ttl(
                    old(db)@,
                    old(db).ttl(),
                    key,
                    old(db).insertion_counter(),
                    when,
                )
                &&& final(db).insertion_counter() == old(db).insertion_counter() + 1
                &&& final(db).channels() == old(db).channels()
                &&& final(db).shutdown_requested() == old(db).shutdown_requested()
            },
            CommandView::Publish { channel, message } => a matches NormalAction::Fanout {
                channel: ch,
                message: m,
                reply,
            } && ch@ == channel && bytes_view(m) == message && reply@ == FrameView::Integer(
                if old(db).channels().dom().contains(channel) {
                    old(db).channels()[channel]
                } else {
                    0u64
                },
            ),
            CommandView::Subscribe { channels } => a matches NormalAction::StartSubscribe(chs)
                && crate::cmd::subscribe::channels_view(chs@) == channels,
            CommandView::Unsubscribe { channels } => a matches NormalAction::Reply {
                frame,
                wake_expiry,
            } && !wake_expiry && frame@ == FrameView::Error(
                ("ERR unsubscribe without subscribe").spec_bytes(),
            ),
            CommandView::Ping { msg } => a matches NormalAction::Reply { frame, wake_expiry }
                && !wake_expiry && frame@ == match msg {
                Some(m) => FrameView::Bulk(m),
                None => FrameView::Simple(("PONG").spec_bytes()),
            },
            CommandView::Unknown { name } => a matches NormalAction::Reply {
                frame,
                wake_expiry,
            } && !wake_expiry && frame@ == FrameView::Error(unknown_command_message(name)),
        },
{
    match cmd {
        Command::Get(c) => NormalAction::Reply { frame: c.apply(db), wake_expiry: false },
        Command::SetCmd(c) => {
            let (frame, wake) = c.apply(db, now);
            NormalAction::Reply { frame, wake_expiry: wake }
        },
        Command::Publish(c) => {
            let (channel, message, reply) = c.apply(db);
            NormalAction::Fanout { channel, message, reply }
        },
        Command::Subscribe(c) => NormalAction::StartSubscribe(c.channels),
        Command::Unsubscribe(_) => NormalAction::Reply {
            frame: Frame::Error(str_bytes("ERR unsubscribe without subscribe")),
            wake_expiry: false,
        },
        Command::Ping(c) => NormalAction::Reply { frame: c.apply(), wake_expiry: false },
        Command::Unknown(c) => NormalAction::Reply { frame: c.apply(), wake_expiry: false },
    }
}

/// What a command asks of the caller in subscribed mode.
pub enum SubscribedAction {
    /// Write this frame; the database and the subscription set are untouched.
    Reply(Frame),
    /// Subscribe to each of these channels in turn.
    AddChannels(Vec<Vec<u8>>),
    /// Unsubscribe from each of these channels in turn.
    RemoveChannels(Vec<Vec<u8>>),
    /// Unsubscribe from every channel currently held.
    RemoveAll,
    /// Close the connection.
    Close,
}

/// Serve one command in subscribed mode. Only SUBSCRIBE, UNSUBSCRIBE, PING
/// and QUIT are accepted there; any other command — GET and SET among them —
/// is answered exactly like an unknown command, and neither the database nor
/// the subscription set is touched.
pub fn subscribed_dispatch(cmd: Command) -> (a: SubscribedAction)
    ensures
        match cmd@ {
            CommandView::Subscribe { channels } => a matches SubscribedAction::AddChannels(chs)
                && crate::cmd::subscribe::channels_view(chs@) == channels,
            CommandView::Unsubscribe { channels } => if channels.len() == 0 {
                a is RemoveAll
            } else {
                a matches SubscribedAction::RemoveChannels(chs)
                    && crate::cmd::subscribe::channels_view(chs@) == channels
            },
            CommandView::Ping { msg } => a matches SubscribedAction::Reply(frame) && frame@
                == match msg {
                Some(m) => FrameView::Bulk(m),
                None => FrameView::Simple(("PONG").spec_bytes()),
            },
            CommandView::Unknown { name } => if name == ("quit").spec_bytes() {
                a is Close
            } else {
                a matches SubscribedAction::Reply(frame) && frame@ == FrameView::Error(
                    unknown_command_message(name),
                )
            },
            _ => a matches SubscribedAction::Reply(frame) && frame@ == FrameView::Error(
                unknown_command_message(cmd.spec_name()),
            ),
        },
{
    match cmd {
        Command::Subscribe(c) => SubscribedAction::AddChannels(c.channels),
        Command::Unsubscribe(c) => {
            if c.channels.len() == 0 {
                SubscribedAction::RemoveAll
            } else {
                SubscribedAction::RemoveChannels(c.channels)
            }
        },
        Command::Ping(c) => SubscribedAction::Reply(c.apply()),
        Command::Unknown(c) => {
            if bytes_equal(&c.name, &str_bytes("quit")) {
                SubscribedAction::Close
            } else {
                SubscribedAction::Reply(c.apply())
            }
        },
        other => {
            let name = other.get_name();
            let u = crate::cmd::Unknown { name };
            SubscribedAction::Reply(u.apply())
        },
    }
}

} // verus!
