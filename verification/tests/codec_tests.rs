use kvs::Command;
use kvs::codec::{encode_command, parse_command};

#[test]
fn encode_set_is_self_describing() {
    let cmd = Command::Put { key: "a".to_owned(), value: "b".to_owned() };
    assert_eq!(encode_command(&cmd), b"{\"Set\":{\"key\":\"a\",\"value\":\"b\"}}".to_vec());
}

#[test]
fn encode_rm_and_get() {
    let rm = Command::Rm { key: "k1".to_owned() };
    assert_eq!(encode_command(&rm), b"{\"Rm\":{\"key\":\"k1\"}}".to_vec());
    let get = Command::Get { key: "k1".to_owned() };
    assert_eq!(encode_command(&get), b"{\"Get\":{\"key\":\"k1\"}}".to_vec());
}

#[test]
fn encode_escapes_quote_backslash_and_delimiter() {
    let cmd = Command::Put { key: "a\"b".to_owned(), value: "c\\d\ne".to_owned() };
    let bytes = encode_command(&cmd);
    assert_eq!(bytes, b"{\"Set\":{\"key\":\"a\\\"b\",\"value\":\"c\\\\d\\ne\"}}".to_vec());
    assert!(!bytes.contains(&b'\n'));
}

#[test]
fn parse_inverts_encode() {
    let cmd = Command::Put { key: "some key".to_owned(), value: "h\u{e9}llo\n\"\\".to_owned() };
    let bytes = encode_command(&cmd);
    match parse_command(&bytes) {
        Some(Command::Put { key, value }) => {
            assert_eq!(key, "some key");
            assert_eq!(value, "h\u{e9}llo\n\"\\");
        }
        _ => panic!("a set record must decode to a set"),
    }
}

#[test]
fn parse_rejects_malformed_bytes() {
    assert!(parse_command(b"").is_none());
    assert!(parse_command(b"garbage").is_none());
    assert!(parse_command(b"{\"Set\":{\"key\":\"a\"}}").is_none());
    assert!(parse_command(b"{\"Set\":{\"key\":\"a\",\"value\":\"b\"}} ").is_none());
    assert!(parse_command(b"{\"Rm\":{\"key\":\"a\"}").is_none());
    assert!(parse_command(b"{\"Set\":{\"key\":\"a\",\"value\":\"\xff\"}}").is_none());
}

#[test]
fn parse_accepts_each_variant() {
    assert!(matches!(
        parse_command(b"{\"Rm\":{\"key\":\"a\"}}"),
        Some(Command::Rm { .. })
    ));
    assert!(matches!(
        parse_command(b"{\"Get\":{\"key\":\"a\"}}"),
        Some(Command::Get { .. })
    ));
}
