//! Reading frames as commands: grammar, error replies, and the frames
//! clients build.

use mini_redis::cmd::utils::duration_from_ms_str;
use mini_redis::cmd::Command;
use mini_redis::cmd::Get;
use mini_redis::cmd::Invalid;
use mini_redis::cmd::Ping;
use mini_redis::cmd::Publish;
use mini_redis::cmd::SetCmd;
use mini_redis::cmd::Subscribe;
use mini_redis::cmd::Unsubscribe;
use mini_redis::frame::extract_frame;
use mini_redis::frame::write_frame;
use mini_redis::frame::Extracted;
use mini_redis::frame::Frame;
use mini_redis::parse::ParseError;

fn command_of(input: &[u8]) -> Result<Command, ParseError> {
    match extract_frame(input) {
        Extracted::Complete(f, n) => {
            assert_eq!(n, input.len());
            Command::from_frame(f)
        }
        _ => panic!("expected one complete frame"),
    }
}

fn error_reply(input: &[u8]) -> Vec<u8> {
    let e = command_of(input).err().expect("expected a protocol error");
    let mut out: Vec<u8> = Vec::new();
    write_frame(&mut out, &Invalid::new(e).apply());
    out
}

#[test]
fn command_names_are_lowercased() {
    assert!(matches!(
        command_of(b"*2\r\n$3\r\nGeT\r\n$1\r\nk\r\n"),
        Ok(Command::Get(_))
    ));
    assert!(matches!(
        command_of(b"*3\r\n$3\r\nset\r\n$1\r\nk\r\n$1\r\nv\r\n"),
        Ok(Command::SetCmd(_))
    ));
}

#[test]
fn set_reads_ex_and_px() {
    match command_of(b"*5\r\n$3\r\nSET\r\n$1\r\nk\r\n$1\r\nv\r\n$2\r\nEX\r\n:2\r\n") {
        Ok(Command::SetCmd(c)) => assert_eq!(c.expire, Some(2000)),
        other => panic!("unexpected outcome: {:?}", other.is_ok()),
    }
    match command_of(b"*5\r\n$3\r\nSET\r\n$1\r\nk\r\n$1\r\nv\r\n$2\r\nPX\r\n:250\r\n") {
        Ok(Command::SetCmd(c)) => assert_eq!(c.expire, Some(250)),
        other => panic!("unexpected outcome: {:?}", other.is_ok()),
    }
    // The tokens are uppercase only.
    assert!(matches!(
        command_of(b"*5\r\n$3\r\nSET\r\n$1\r\nk\r\n$1\r\nv\r\n$2\r\nex\r\n:2\r\n"),
        Err(ParseError::InvalidExpiration)
    ));
}

#[test]
fn each_protocol_error_has_its_reply() {
    // A command frame must be an array.
    assert_eq!(error_reply(b"+GET\r\n"), b"-protocol error; expected array\r\n".to_vec());
    // A missing argument.
    assert_eq!(
        error_reply(b"*1\r\n$3\r\nGET\r\n"),
        b"-protocol error; unexpected end of stream\r\n".to_vec()
    );
    // A key must be a string frame.
    assert_eq!(
        error_reply(b"*2\r\n$3\r\nGET\r\n:5\r\n"),
        b"-protocol error; expected simple frame or bulk frame\r\n".to_vec()
    );
    // An expiration must be an integer-bearing frame.
    assert_eq!(
        error_reply(b"*5\r\n$3\r\nSET\r\n$1\r\nk\r\n$1\r\nv\r\n$2\r\nEX\r\n*0\r\n"),
        b"-protocol error; expected int frame\r\n".to_vec()
    );
    // A numeric string must be a strict decimal.
    assert_eq!(
        error_reply(b"*5\r\n$3\r\nSET\r\n$1\r\nk\r\n$1\r\nv\r\n$2\r\nEX\r\n$3\r\nabc\r\n"),
        b"-protocol error; invalid number\r\n".to_vec()
    );
    // Arguments past a command's arity.
    assert_eq!(
        error_reply(b"*3\r\n$3\r\nGET\r\n$1\r\nk\r\n$1\r\nx\r\n"),
        b"-protocol error; expected end of frame, but there was more\r\n".to_vec()
    );
    // A stray token after the value.
    assert_eq!(
        error_reply(b"*4\r\n$3\r\nSET\r\n$1\r\nk\r\n$1\r\nv\r\n$2\r\nXX\r\n"),
        b"-protocol error; invalid expiration\r\n".to_vec()
    );
}

#[test]
fn subscribe_needs_a_channel() {
    assert!(matches!(
        command_of(b"*1\r\n$9\r\nsubscribe\r\n"),
        Err(ParseError::EndOfStream)
    ));
    // Unsubscribe accepts an empty list.
    match command_of(b"*1\r\n$11\r\nunsubscribe\r\n") {
        Ok(Command::Unsubscribe(c)) => assert_eq!(c.channels.len(), 0),
        _ => panic!("expected an unsubscribe command"),
    }
}

#[test]
fn client_frames_read_back_as_commands() {
    let roundtrip = |f: Frame| -> Command {
        let mut out: Vec<u8> = Vec::new();
        write_frame(&mut out, &f);
        command_of(&out).expect("client frame should read back")
    };

    match roundtrip(Get::new(b"hello".to_vec()).into_frame()) {
        Command::Get(c) => assert_eq!(c.key, b"hello".to_vec()),
        _ => panic!("expected GET"),
    }
    let set = SetCmd {
        key: b"k".to_vec(),
        value: bytes::Bytes::from(b"v".to_vec()),
        expire: Some(1500),
    };
    match roundtrip(set.into_frame()) {
        Command::SetCmd(c) => {
            assert_eq!(c.key, b"k".to_vec());
            assert_eq!(&c.value[..], b"v");
            assert_eq!(c.expire, Some(1500));
        }
        _ => panic!("expected SET"),
    }
    let publish = Publish {
        channel: b"ch".to_vec(),
        message: bytes::Bytes::from(b"msg".to_vec()),
    };
    match roundtrip(publish.into_frame()) {
        Command::Publish(c) => {
            assert_eq!(c.channel, b"ch".to_vec());
            assert_eq!(&c.message[..], b"msg");
        }
        _ => panic!("expected PUBLISH"),
    }
    match roundtrip(Subscribe::new(vec![b"a".to_vec(), b"b".to_vec()]).into_frame()) {
        Command::Subscribe(c) => assert_eq!(c.channels, vec![b"a".to_vec(), b"b".to_vec()]),
        _ => panic!("expected SUBSCRIBE"),
    }
    match roundtrip(Unsubscribe::new(vec![b"a".to_vec()]).into_frame()) {
        Command::Unsubscribe(c) => assert_eq!(c.channels, vec![b"a".to_vec()]),
        _ => panic!("expected UNSUBSCRIBE"),
    }
    match roundtrip((Ping { msg: None }).into_frame()) {
        Command::Ping(c) => assert!(c.msg.is_none()),
        _ => panic!("expected PING"),
    }
}

#[test]
fn duration_from_ms_text() {
    assert_eq!(duration_from_ms_str("123"), Ok(123));
    assert_eq!(duration_from_ms_str("0"), Ok(0));
    assert!(duration_from_ms_str("").is_err());
    assert!(duration_from_ms_str("12a").is_err());
    assert!(duration_from_ms_str("007").is_err());
    assert!(duration_from_ms_str("18446744073709551616").is_err());
}
