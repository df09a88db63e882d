use kvs::{EngineCommand, EngineError};

fn set(key: &str, value: &str) -> EngineCommand {
    EngineCommand::SetCommand { key: key.to_string(), value: value.to_string() }
}

#[test]
fn set_record_bytes() {
    let bytes = set("ab", "c").encode().unwrap();
    assert_eq!(
        bytes,
        vec![0, 0, 0, 0, 2, 0, 0, 0, 0, 0, 0, 0, b'a', b'b', 1, 0, 0, 0, 0, 0, 0, 0, b'c']
    );
}

#[test]
fn rm_record_bytes() {
    let bytes = EngineCommand::RmCommand { key: "k".to_string() }.encode().unwrap();
    assert_eq!(bytes, vec![1, 0, 0, 0, 1, 0, 0, 0, 0, 0, 0, 0, b'k']);
}

#[test]
fn utf8_field_counts_bytes() {
    let bytes = EngineCommand::RmCommand { key: "\u{e9}".to_string() }.encode().unwrap();
    assert_eq!(bytes, vec![1, 0, 0, 0, 2, 0, 0, 0, 0, 0, 0, 0, 0xc3, 0xa9]);
}

#[test]
fn frame_has_length_prefix() {
    let frame = EngineCommand::RmCommand { key: "k".to_string() }.frame().unwrap();
    assert_eq!(frame[..8].to_vec(), vec![13, 0, 0, 0, 0, 0, 0, 0]);
    assert_eq!(frame.len(), 21);
}

#[test]
fn decode_round_trip() {
    let bytes = set("key1", "value1").encode().unwrap();
    match EngineCommand::decode(&bytes).unwrap() {
        EngineCommand::SetCommand { key, value } => {
            assert_eq!(key, "key1");
            assert_eq!(value, "value1");
        }
        other => panic!("unexpected {:?}", other),
    }
    let bytes = EngineCommand::RmCommand { key: "gone".to_string() }.encode().unwrap();
    match EngineCommand::decode(&bytes).unwrap() {
        EngineCommand::RmCommand { key } => assert_eq!(key, "gone"),
        other => panic!("unexpected {:?}", other),
    }
}

#[test]
fn decode_empty_strings() {
    let bytes = set("", "").encode().unwrap();
    assert_eq!(bytes.len(), 20);
    assert!(matches!(
        EngineCommand::decode(&bytes).unwrap(),
        EngineCommand::SetCommand { .. }
    ));
}

#[test]
fn decode_rejects_bad_tag() {
    let mut bytes = set("a", "b").encode().unwrap();
    bytes[0] = 2;
    assert!(matches!(EngineCommand::decode(&bytes), Err(EngineError::BincodeError(_))));
}

#[test]
fn decode_rejects_trailing_bytes() {
    let mut bytes = set("a", "b").encode().unwrap();
    bytes.push(0);
    assert!(matches!(EngineCommand::decode(&bytes), Err(EngineError::BincodeError(_))));
}

#[test]
fn decode_rejects_short_input() {
    let bytes = set("abc", "def").encode().unwrap();
    assert!(matches!(
        EngineCommand::decode(&bytes[..bytes.len() - 1]),
        Err(EngineError::BincodeError(_))
    ));
    assert!(matches!(EngineCommand::decode(&[0, 0]), Err(EngineError::BincodeError(_))));
}

#[test]
fn decode_rejects_invalid_utf8() {
    let bytes = vec![1, 0, 0, 0, 1, 0, 0, 0, 0, 0, 0, 0, 0xff];
    assert!(matches!(EngineCommand::decode(&bytes), Err(EngineError::BincodeError(_))));
}
