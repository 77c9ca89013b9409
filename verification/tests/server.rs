//! End-to-end request handling at the byte level: decode one frame, read it
//! as a command, apply it, and encode the reply.

use mini_redis::cmd::Command;
use mini_redis::cmd::Invalid;
use mini_redis::db::Db;
use mini_redis::frame::extract_frame;
use mini_redis::frame::write_frame;
use mini_redis::frame::Extracted;
use mini_redis::frame::Frame;
use mini_redis::server::normal_dispatch;
use mini_redis::server::subscribed_dispatch;
use mini_redis::server::NormalAction;
use mini_redis::server::Session;
use mini_redis::server::SubscribedAction;

fn decode_all(input: &[u8]) -> Frame {
    match extract_frame(input) {
        Extracted::Complete(f, n) => {
            assert_eq!(n, input.len());
            f
        }
        Extracted::Incomplete => panic!("frame should be complete"),
        Extracted::Malformed => panic!("frame should be valid"),
    }
}

fn encode(f: &Frame) -> Vec<u8> {
    let mut out: Vec<u8> = Vec::new();
    write_frame(&mut out, f);
    out
}

/// Serve one normal-mode request and give back the encoded reply.
fn respond(db: &mut Db, now: u64, input: &[u8]) -> Vec<u8> {
    let frame = decode_all(input);
    match Command::from_frame(frame) {
        Ok(cmd) => match normal_dispatch(db, cmd, now) {
            NormalAction::Reply { frame, wake_expiry: _ } => encode(&frame),
            NormalAction::Fanout { reply, .. } => encode(&reply),
            NormalAction::StartSubscribe(_) => panic!("not a subscribe test"),
        },
        Err(e) => encode(&Invalid::new(e).apply()),
    }
}

/// Serve one subscribed-mode request against a session.
fn respond_subscribed(session: &mut Session, input: &[u8]) -> Vec<u8> {
    let frame = decode_all(input);
    match Command::from_frame(frame) {
        Ok(cmd) => match subscribed_dispatch(cmd) {
            SubscribedAction::Reply(frame) => encode(&frame),
            SubscribedAction::AddChannels(chs) => {
                let mut out = Vec::new();
                for ch in chs {
                    let (frame, _fresh) = session.subscribe_channel(ch);
                    out.extend_from_slice(&encode(&frame));
                }
                out
            }
            SubscribedAction::RemoveChannels(chs) => {
                let mut out = Vec::new();
                for ch in chs {
                    let (frame, _held) = session.unsubscribe_channel(&ch);
                    out.extend_from_slice(&encode(&frame));
                }
                out
            }
            SubscribedAction::RemoveAll => {
                let mut out = Vec::new();
                for ch in session.channels() {
                    let (frame, _held) = session.unsubscribe_channel(&ch);
                    out.extend_from_slice(&encode(&frame));
                }
                out
            }
            SubscribedAction::Close => Vec::new(),
        },
        Err(e) => encode(&Invalid::new(e).apply()),
    }
}

#[test]
fn missing_key_replies_null() {
    let mut db = Db::new();
    let reply = respond(&mut db, 0, b"*2\r\n$3\r\nGET\r\n$5\r\nhello\r\n");
    assert_eq!(reply, b"$-1\r\n");
}

#[test]
fn basic_set_get() {
    let mut db = Db::new();
    let reply = respond(&mut db, 0, b"*3\r\n$3\r\nSET\r\n$5\r\nhello\r\n$5\r\nworld\r\n");
    assert_eq!(reply, b"+OK\r\n");
    let reply = respond(&mut db, 0, b"*2\r\n$3\r\nGET\r\n$5\r\nhello\r\n");
    assert_eq!(reply, b"$5\r\nworld\r\n");
}

#[test]
fn ttl_expiry_sweep() {
    let mut db = Db::new();
    let reply = respond(
        &mut db,
        0,
        b"*5\r\n$3\r\nSET\r\n$5\r\nhello\r\n$5\r\nworld\r\n+EX\r\n:1\r\n",
    );
    assert_eq!(reply, b"+OK\r\n");

    // Immediately, the value is there.
    let reply = respond(&mut db, 0, b"*2\r\n$3\r\nGET\r\n$5\r\nhello\r\n");
    assert_eq!(reply, b"$5\r\nworld\r\n");

    // Short of one second nothing expires.
    let next = db.purge_expired(999);
    assert_eq!(next, Some(1000));
    let reply = respond(&mut db, 999, b"*2\r\n$3\r\nGET\r\n$5\r\nhello\r\n");
    assert_eq!(reply, b"$5\r\nworld\r\n");

    // After one second the sweep removes the entry.
    let next = db.purge_expired(1000);
    assert_eq!(next, None);
    let reply = respond(&mut db, 1000, b"*2\r\n$3\r\nGET\r\n$5\r\nhello\r\n");
    assert_eq!(reply, b"$-1\r\n");
}

#[test]
fn subscribe_unsubscribe_confirmations() {
    let mut session = Session::new();
    let reply = respond_subscribed(&mut session, b"*2\r\n$9\r\nsubscribe\r\n$5\r\nhello\r\n");
    assert_eq!(&reply[0..30], b"*3\r\n$9\r\nsubscribe\r\n$5\r\nhello\r\n");
    assert_eq!(reply, b"*3\r\n$9\r\nsubscribe\r\n$5\r\nhello\r\n:1\r\n");
    assert_eq!(session.count(), 1);

    let reply = respond_subscribed(&mut session, b"*2\r\n$11\r\nunsubscribe\r\n$5\r\nhello\r\n");
    assert_eq!(reply, b"*3\r\n$11\r\nunsubscribe\r\n$5\r\nhello\r\n:0\r\n");
    assert_eq!(session.count(), 0);
}

#[test]
fn duplicate_subscribe_is_idempotent() {
    let mut session = Session::new();
    respond_subscribed(&mut session, b"*2\r\n$9\r\nsubscribe\r\n$5\r\nhello\r\n");
    let reply = respond_subscribed(&mut session, b"*2\r\n$9\r\nsubscribe\r\n$5\r\nhello\r\n");
    // The set is unchanged and the confirmation carries the unchanged count.
    assert_eq!(reply, b"*3\r\n$9\r\nsubscribe\r\n$5\r\nhello\r\n:1\r\n");
    assert_eq!(session.count(), 1);
}

#[test]
fn unsubscribe_all_returns_to_normal_mode() {
    let mut session = Session::new();
    respond_subscribed(&mut session, b"*3\r\n$9\r\nsubscribe\r\n$1\r\na\r\n$1\r\nb\r\n");
    assert_eq!(session.count(), 2);
    let reply = respond_subscribed(&mut session, b"*1\r\n$11\r\nunsubscribe\r\n");
    assert_eq!(
        reply,
        b"*3\r\n$11\r\nunsubscribe\r\n$1\r\na\r\n:1\r\n*3\r\n$11\r\nunsubscribe\r\n$1\r\nb\r\n:0\r\n"
            .to_vec()
    );
    assert_eq!(session.count(), 0);
}

#[test]
fn unknown_command_error() {
    let mut db = Db::new();
    let reply = respond(&mut db, 0, b"*2\r\n$3\r\nFOO\r\n$5\r\nhello\r\n");
    assert_eq!(reply, b"-ERR unknown command 'foo'\r\n");
}

#[test]
fn get_set_rejected_after_subscribe() {
    let mut session = Session::new();
    respond_subscribed(&mut session, b"*2\r\n$9\r\nsubscribe\r\n$5\r\nhello\r\n");

    let reply = respond_subscribed(
        &mut session,
        b"*3\r\n$3\r\nSET\r\n$5\r\nhello\r\n$5\r\nworld\r\n",
    );
    assert_eq!(reply, b"-ERR unknown command 'set'\r\n");

    let reply = respond_subscribed(&mut session, b"*2\r\n$3\r\nGET\r\n$5\r\nhello\r\n");
    assert_eq!(reply, b"-ERR unknown command 'get'\r\n");

    // The subscription set is untouched.
    assert_eq!(session.count(), 1);
}

#[test]
fn quit_closes_in_subscribed_mode() {
    let mut session = Session::new();
    respond_subscribed(&mut session, b"*2\r\n$9\r\nsubscribe\r\n$5\r\nhello\r\n");
    let frame = decode_all(b"*1\r\n$4\r\nQUIT\r\n");
    let cmd = Command::from_frame(frame).unwrap();
    assert!(matches!(subscribed_dispatch(cmd), SubscribedAction::Close));
}

#[test]
fn ping_replies_pong() {
    let mut db = Db::new();
    let reply = respond(&mut db, 0, b"*1\r\n$4\r\nPING\r\n");
    assert_eq!(reply, b"+PONG\r\n");
    let reply = respond(&mut db, 0, b"*2\r\n$4\r\nping\r\n$3\r\nhey\r\n");
    assert_eq!(reply, b"$3\r\nhey\r\n");
}

#[test]
fn unsubscribe_in_normal_mode_is_an_error() {
    let mut db = Db::new();
    let reply = respond(&mut db, 0, b"*2\r\n$11\r\nunsubscribe\r\n$5\r\nhello\r\n");
    assert_eq!(reply, b"-ERR unsubscribe without subscribe\r\n");
}

#[test]
fn publish_reports_live_subscription_count() {
    let mut db = Db::new();
    // No subscribers yet.
    let reply = respond(&mut db, 0, b"*3\r\n$7\r\nPUBLISH\r\n$2\r\nch\r\n$2\r\nhi\r\n");
    assert_eq!(reply, b":0\r\n");

    // Two subscriptions, then one drops.
    assert_eq!(db.subscribe(b"ch".to_vec()), 1);
    assert_eq!(db.subscribe(b"ch".to_vec()), 2);
    let reply = respond(&mut db, 0, b"*3\r\n$7\r\nPUBLISH\r\n$2\r\nch\r\n$2\r\nhi\r\n");
    assert_eq!(reply, b":2\r\n");
    db.unsubscribe(&b"ch".to_vec());
    let reply = respond(&mut db, 0, b"*3\r\n$7\r\nPUBLISH\r\n$2\r\nch\r\n$2\r\nhi\r\n");
    assert_eq!(reply, b":1\r\n");
}

#[test]
fn message_frames_for_subscribers() {
    let frame = mini_redis::server::make_message_frame(
        &b"hello".to_vec(),
        bytes::Bytes::from(b"world".to_vec()),
    );
    assert_eq!(
        encode(&frame),
        b"*3\r\n$7\r\nmessage\r\n$5\r\nhello\r\n$5\r\nworld\r\n".to_vec()
    );
}

#[test]
fn set_twice_keeps_one_value_and_one_ttl() {
    let mut db = Db::new();
    respond(&mut db, 0, b"*5\r\n$3\r\nSET\r\n$1\r\nk\r\n$1\r\nv\r\n+PX\r\n:100\r\n");
    respond(&mut db, 10, b"*5\r\n$3\r\nSET\r\n$1\r\nk\r\n$1\r\nv\r\n+PX\r\n:100\r\n");
    // Only the second store's instant is scheduled.
    assert_eq!(db.next_expiration(), Some(110));
    let reply = respond(&mut db, 10, b"*2\r\n$3\r\nGET\r\n$1\r\nk\r\n");
    assert_eq!(reply, b"$1\r\nv\r\n");
    // Sweeping past the first instant alone removes nothing.
    assert_eq!(db.purge_expired(105), Some(110));
    let reply = respond(&mut db, 105, b"*2\r\n$3\r\nGET\r\n$1\r\nk\r\n");
    assert_eq!(reply, b"$1\r\nv\r\n");
    assert_eq!(db.purge_expired(110), None);
    let reply = respond(&mut db, 110, b"*2\r\n$3\r\nGET\r\n$1\r\nk\r\n");
    assert_eq!(reply, b"$-1\r\n");
}

#[test]
fn replacing_a_ttl_entry_drops_its_schedule() {
    let mut db = Db::new();
    respond(&mut db, 0, b"*5\r\n$3\r\nSET\r\n$1\r\nk\r\n$1\r\na\r\n+PX\r\n:50\r\n");
    assert_eq!(db.next_expiration(), Some(50));
    // Replacing without a TTL clears the schedule entirely.
    respond(&mut db, 10, b"*3\r\n$3\r\nSET\r\n$1\r\nk\r\n$1\r\nb\r\n");
    assert_eq!(db.next_expiration(), None);
    assert_eq!(db.purge_expired(1000), None);
    let reply = respond(&mut db, 1000, b"*2\r\n$3\r\nGET\r\n$1\r\nk\r\n");
    assert_eq!(reply, b"$1\r\nb\r\n");
}
