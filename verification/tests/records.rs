use kvs::codec::{decode_at, decode_one, encode, Command, DecodeOutcome};
use kvs::moves::{decode_move, encode_move, Move};
use kvs::protocol::RedisMessage;
use kvs::segment::{parse_segment_name, segment_file_name};
use kvs::MyError;

fn s(x: &str) -> String {
    x.to_string()
}

#[test]
fn command_round_trip_consumes_the_whole_encoding() {
    let commands = vec![
        Command::Put { key: s("a"), value: s("1") },
        Command::Put { key: s(""), value: s("") },
        Command::Put { key: s("key"), value: s("a longer value with spaces") },
        Command::Remove { key: s("a") },
        Command::Remove { key: s("") },
        Command::Put { key: s("clé"), value: s("\u{1F600}") },
    ];
    for cmd in commands {
        let enc = encode(&cmd);
        assert_eq!(decode_one(&enc, 0), Ok((cmd.clone(), enc.len())));
        // the record is self-delimiting: trailing bytes change nothing
        let mut padded = enc.clone();
        padded.extend_from_slice(&[0xDE, 0xAD, 0xBE, 0xEF]);
        assert_eq!(decode_one(&padded, 0), Ok((cmd, enc.len())));
    }
}

#[test]
fn put_record_wire_format_is_exact() {
    let enc = encode(&Command::Put { key: s("a"), value: s("1") });
    assert_eq!(
        enc,
        vec![0u8, 1, 0, 0, 0, 0, 0, 0, 0, 0x61, 1, 0, 0, 0, 0, 0, 0, 0, 0x31]
    );
}

#[test]
fn remove_record_wire_format_is_exact() {
    let enc = encode(&Command::Remove { key: s("ab") });
    assert_eq!(enc, vec![1u8, 2, 0, 0, 0, 0, 0, 0, 0, 0x61, 0x62]);
}

#[test]
fn records_concatenate_without_framing() {
    let mut log = encode(&Command::Put { key: s("k"), value: s("v") });
    let first_len = log.len();
    let mut second = encode(&Command::Remove { key: s("k") });
    let second_len = second.len();
    log.append(&mut second);
    assert_eq!(
        decode_one(&log, 0),
        Ok((Command::Put { key: s("k"), value: s("v") }, first_len))
    );
    assert_eq!(
        decode_one(&log, first_len),
        Ok((Command::Remove { key: s("k") }, second_len))
    );
}

#[test]
fn decode_rejects_an_unknown_tag() {
    assert_eq!(decode_one(&vec![9u8, 0, 0], 0), Err(MyError::MalformedRecord));
}

#[test]
fn decode_rejects_a_truncated_record() {
    let mut enc = encode(&Command::Put { key: s("key"), value: s("value") });
    enc.truncate(enc.len() - 1);
    assert_eq!(decode_one(&enc, 0), Err(MyError::MalformedRecord));
    assert!(matches!(decode_at(&enc, 0), DecodeOutcome::Incomplete));
}

#[test]
fn decode_rejects_bytes_that_are_not_utf8() {
    // tag Put, key length 1, key byte 0xFF (not UTF-8), value length 0
    let bytes = vec![0u8, 1, 0, 0, 0, 0, 0, 0, 0, 0xFF, 0, 0, 0, 0, 0, 0, 0, 0];
    assert_eq!(decode_one(&bytes, 0), Err(MyError::MalformedRecord));
    assert!(matches!(decode_at(&bytes, 0), DecodeOutcome::Malformed));
}

#[test]
fn decode_at_the_end_finds_nothing() {
    let enc = encode(&Command::Remove { key: s("k") });
    assert!(matches!(decode_at(&enc, enc.len()), DecodeOutcome::Incomplete));
}

#[test]
fn segment_file_names_are_exact() {
    assert_eq!(segment_file_name(0), "kvs-0.log");
    assert_eq!(segment_file_name(7), "kvs-7.log");
    assert_eq!(segment_file_name(42), "kvs-42.log");
    assert_eq!(segment_file_name(1234567890), "kvs-1234567890.log");
    assert_eq!(segment_file_name(u64::MAX), "kvs-18446744073709551615.log");
}

#[test]
fn segment_file_names_parse_back() {
    for gen in [0u64, 1, 9, 10, 99, 100, 4096, u64::MAX] {
        assert_eq!(parse_segment_name(&segment_file_name(gen)), Some(gen));
    }
}

#[test]
fn parsing_accepts_leading_zeros() {
    assert_eq!(parse_segment_name("kvs-007.log"), Some(7));
    assert_eq!(parse_segment_name("kvs-000.log"), Some(0));
}

#[test]
fn parsing_rejects_what_is_not_a_segment_name() {
    assert_eq!(parse_segment_name(""), None);
    assert_eq!(parse_segment_name("kvs-.log"), None);
    assert_eq!(parse_segment_name("kvs-12a.log"), None);
    assert_eq!(parse_segment_name("kvs-12.txt"), None);
    assert_eq!(parse_segment_name("abc-12.log"), None);
    assert_eq!(parse_segment_name("kvs-12.log.bak"), None);
    assert_eq!(parse_segment_name("kvs--1.log"), None);
    // one past the largest generation
    assert_eq!(parse_segment_name("kvs-18446744073709551616.log"), None);
    assert_eq!(parse_segment_name("kvs-99999999999999999999999.log"), None);
}

#[test]
fn move_codec_round_trips() {
    let m = Move { distance: 10 };
    let enc = encode_move(&m);
    assert_eq!(enc, vec![10u8]);
    assert_eq!(decode_move(&enc, 0), Ok((Move { distance: 10 }, 1)));
}

#[test]
fn move_decode_needs_a_byte() {
    assert_eq!(decode_move(&Vec::new(), 0), Err(MyError::MalformedRecord));
    let enc = encode_move(&Move { distance: 255 });
    assert_eq!(decode_move(&enc, 1), Err(MyError::MalformedRecord));
}

#[test]
fn ping_pong_serialize() {
    assert_eq!(RedisMessage::Ping.serialize(), "*1\r\n$4\r\nPING\r\n");
    assert_eq!(RedisMessage::Pong.serialize(), "+PONG\r\n");
}

#[test]
fn ping_pong_deserialize() {
    assert_eq!(RedisMessage::deserialize("*1\r\n$4\r\nPING\r\n"), Ok(RedisMessage::Ping));
    assert_eq!(RedisMessage::deserialize("+PONG\r\n"), Ok(RedisMessage::Pong));
    assert_eq!(RedisMessage::deserialize("+PING\r\n"), Err(MyError::MalformedRecord));
    assert_eq!(RedisMessage::deserialize(""), Err(MyError::MalformedRecord));
}

#[test]
fn ping_pong_round_trip() {
    for msg in [RedisMessage::Ping, RedisMessage::Pong] {
        assert_eq!(RedisMessage::deserialize(msg.serialize()), Ok(msg));
    }
}
