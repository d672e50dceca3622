use convex_cluster::big_endian::{decode_u32, decode_u64, encode_u32, encode_u64};
use convex_cluster::checkpoint_proto::{CheckpointData, DocumentEntry, GlobalEntry};
use convex_cluster::json::JsonValue;
use prost::encoding::{bytes, encode_varint, int64, string, uint64};

fn sample() -> CheckpointData {
    CheckpointData {
        timestamp: 300,
        documents: vec![DocumentEntry {
            ts: 1,
            id_bytes: vec![7; 32],
            document_bytes: vec![0, 255],
            has_document: true,
            prev_ts: u64::MAX,
            has_prev_ts: true,
        }],
        globals: vec![GlobalEntry { key: "k\u{e9}".to_string(), value_json: "1".to_string() }],
    }
}

#[test]
fn messages_are_read_back() {
    let message = sample();
    let encoded = message.encode();
    let read = CheckpointData::decode(&encoded).unwrap();
    assert_eq!(read.timestamp, message.timestamp);
    assert_eq!(read.documents, message.documents);
    assert_eq!(read.globals, message.globals);
}

#[test]
fn messages_are_written_as_the_codec_writes_them() {
    let message = CheckpointData {
        timestamp: 300,
        documents: vec![],
        globals: vec![GlobalEntry { key: "key".to_string(), value_json: "17".to_string() }],
    };
    let mut global = Vec::new();
    string::encode(1, &"key".to_string(), &mut global);
    string::encode(2, &"17".to_string(), &mut global);
    let mut expected = Vec::new();
    uint64::encode(1, &300, &mut expected);
    bytes::encode(3, &global, &mut expected);
    assert_eq!(message.encode(), expected);

    let mut varint = Vec::new();
    encode_varint(300, &mut varint);
    assert_eq!(varint, [0xac, 0x02]);
    assert_eq!(&message.encode()[1..3], varint.as_slice());
}

#[test]
fn unknown_fields_are_passed_over() {
    let mut encoded = sample().encode();
    int64::encode(99, &-1, &mut encoded);
    string::encode(100, &"later".to_string(), &mut encoded);
    // A group of field 50 with a number in it.
    encode_varint(50 << 3 | 3, &mut encoded);
    uint64::encode(1, &5, &mut encoded);
    encode_varint(50 << 3 | 4, &mut encoded);
    let read = CheckpointData::decode(&encoded).unwrap();
    assert_eq!(read.documents, sample().documents);
}

#[test]
fn garbage_is_refused() {
    assert!(CheckpointData::decode(&[0x08]).is_none(), "a number is cut off");
    assert!(CheckpointData::decode(&[0x1a, 0x05, 0x00]).is_none(), "a length is too long");
    assert!(CheckpointData::decode(&[0x1a, 0x03, 0x0a, 0x01, 0xff]).is_none(), "no UTF-8");
    assert!(CheckpointData::decode(&[50 << 3 | 3, 1]).is_none(), "a group has no end");
    assert_eq!(CheckpointData::decode(&[]).unwrap().timestamp, 0);
}

#[test]
fn numbers_stand_in_network_order() {
    assert_eq!(encode_u64(0x0102_0304_0506_0708), [1, 2, 3, 4, 5, 6, 7, 8]);
    assert_eq!(decode_u64(&[1, 2, 3, 4, 5, 6, 7, 8]), Some(0x0102_0304_0506_0708));
    assert_eq!(decode_u64(&[1]), None);
    assert_eq!(encode_u32(0x0102_0304), [1, 2, 3, 4]);
    assert_eq!(decode_u32(&[1, 2, 3, 4]), Some(0x0102_0304));
    assert_eq!(decode_u32(&[1, 2, 3, 4, 5]), None);
}

#[test]
fn json_prints_without_blanks() {
    assert_eq!(JsonValue::parse(" { \"b\" : 1 } ").unwrap().as_str(), "{\"b\":1}");
    assert!(JsonValue::parse("{").is_none());
    assert_eq!(JsonValue::parse("12").unwrap().as_u64(), Some(12));
    assert_eq!(JsonValue::parse("-1").unwrap().as_u64(), None);
    assert_eq!(
        JsonValue::versioned_id(1, "ab").as_str(),
        "{\"format_version\":1,\"genesis_id\":\"ab\"}"
    );
}

#[test]
fn exact_json_prints_as_it_is() {
    for text in [
        "17",
        "\"tables\"",
        "{\"format_version\":1,\"genesis_id\":\"1e5\"}",
        "[-3,null,true,{\"a\":\"\u{e9} \\n\"}]",
    ] {
        let value = JsonValue::parse(text).unwrap();
        assert_eq!(value.as_str(), text);
        assert_eq!(JsonValue::parse(value.as_str()).unwrap(), value);
        assert_eq!(value.clone(), value);
    }
    assert_eq!(JsonValue::parse("1e2").unwrap().as_str(), "100.0");
    assert_eq!(JsonValue::parse("1E300").unwrap().as_str(), "1e+300");
    assert_eq!(JsonValue::from_u64(0).as_str(), "0");
}
