use kvs::codec::{decode_command, encode_command};
use kvs::command::Command;
use kvs::KvsError;

#[test]
fn encode_set_is_canonical_json() {
    let cmd = Command::set("key1".to_owned(), "value1".to_owned());
    let text = encode_command(&cmd);
    assert_eq!(text, "{\"Set\":{\"key\":\"key1\",\"value\":\"value1\"}}");
}

#[test]
fn encode_remove_is_canonical_json() {
    let cmd = Command::remove("key1".to_owned());
    let text = encode_command(&cmd);
    assert_eq!(text, "{\"Remove\":{\"key\":\"key1\"}}");
}

#[test]
fn encode_escapes_special_characters() {
    // the quote, the backslash and a control character are written as
    // \u00XX escapes; this fails if the escaping step returns its input
    let cmd = Command::set("a\"b".to_owned(), "c\\d\ne".to_owned());
    let text = encode_command(&cmd);
    assert_eq!(
        text,
        "{\"Set\":{\"key\":\"a\\u0022b\",\"value\":\"c\\u005cd\\u000ae\"}}"
    );
}

#[test]
fn decode_round_trips_set() {
    let cmd = Command::set("some key".to_owned(), "some value".to_owned());
    let text = encode_command(&cmd);
    let (back, used) = decode_command(&text, 0).unwrap();
    assert_eq!(used, text.chars().count());
    match back {
        Command::Put { key, value } => {
            assert_eq!(key, "some key");
            assert_eq!(value, "some value");
        }
        _ => panic!("wrong variant"),
    }
}

#[test]
fn decode_round_trips_remove() {
    let cmd = Command::remove("k".to_owned());
    let text = encode_command(&cmd);
    let (back, used) = decode_command(&text, 0).unwrap();
    assert_eq!(used, text.chars().count());
    match back {
        Command::Remove { key } => assert_eq!(key, "k"),
        _ => panic!("wrong variant"),
    }
}

#[test]
fn decode_round_trips_escapes_and_unicode() {
    let cmd = Command::set("tab\tquote\"".to_owned(), "snow\u{2603}man".to_owned());
    let text = encode_command(&cmd);
    let (back, _) = decode_command(&text, 0).unwrap();
    match back {
        Command::Put { key, value } => {
            assert_eq!(key, "tab\tquote\"");
            assert_eq!(value, "snow\u{2603}man");
        }
        _ => panic!("wrong variant"),
    }
}

#[test]
fn decode_walks_concatenated_records() {
    let mut log = String::new();
    log.push_str(&encode_command(&Command::set("a".to_owned(), "1".to_owned())));
    log.push_str(&encode_command(&Command::remove("a".to_owned())));
    log.push_str(&encode_command(&Command::set("b".to_owned(), "2".to_owned())));
    let (first, used1) = decode_command(&log, 0).unwrap();
    let (second, used2) = decode_command(&log, used1).unwrap();
    let (third, used3) = decode_command(&log, used1 + used2).unwrap();
    assert_eq!(used1 + used2 + used3, log.chars().count());
    assert!(matches!(first, Command::Put { .. }));
    assert!(matches!(second, Command::Remove { .. }));
    assert!(matches!(third, Command::Put { .. }));
}

#[test]
fn decode_rejects_garbage() {
    assert!(matches!(decode_command("nonsense", 0), Err(KvsError::Serialization)));
    assert!(matches!(
        decode_command("{\"Set\":{\"key\":\"unterminated", 0),
        Err(KvsError::Serialization)
    ));
    assert!(matches!(decode_command("", 0), Err(KvsError::Serialization)));
}

#[test]
fn decode_rejects_noncanonical_escapes() {
    // a literal control character and a short escape are not canonical
    assert!(matches!(
        decode_command("{\"Remove\":{\"key\":\"a\tb\"}}", 0),
        Err(KvsError::Serialization)
    ));
    assert!(matches!(
        decode_command("{\"Remove\":{\"key\":\"a\\nb\"}}", 0),
        Err(KvsError::Serialization)
    ));
}
