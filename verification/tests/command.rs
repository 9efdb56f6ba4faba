use kvs::order::comes_before;
use kvs::shape::is_whole_object;
use kvs::Command;

fn text(of: &str) -> String {
    String::from(of)
}

#[test]
fn encode_writes_the_members_in_order() {
    let write = Command::Write { key: text("foo"), value: text("bar") };
    assert_eq!(write.encode(), "{\"key\":\"foo\",\"value\":\"bar\",\"kind\":\"set\"}");
    let delete = Command::Delete { key: text("foo") };
    assert_eq!(delete.encode(), "{\"key\":\"foo\",\"value\":\"\",\"kind\":\"rm\"}");
}

#[test]
fn encode_escapes_what_json_asks_for() {
    let write = Command::Write { key: text("a\"b"), value: text("c\nd\\") };
    assert_eq!(
        write.encode(),
        "{\"key\":\"a\\\"b\",\"value\":\"c\\nd\\\\\",\"kind\":\"set\"}"
    );
}

#[test]
fn frame_puts_the_pieces_together() {
    assert_eq!(
        Command::frame("\"k\"", "\"v\"", "set"),
        "{\"key\":\"k\",\"value\":\"v\",\"kind\":\"set\"}"
    );
    assert_eq!(Command::frame("", "", ""), "{\"key\":,\"value\":,\"kind\":\"\"}");
}

#[test]
fn decode_reads_both_kinds() {
    assert_eq!(
        Command::decode(b"{\"key\":\"a\",\"value\":\"1\",\"kind\":\"set\"}"),
        Some(Command::Write { key: text("a"), value: text("1") })
    );
    assert_eq!(
        Command::decode(b"{\"key\":\"a\",\"value\":\"\",\"kind\":\"rm\"}"),
        Some(Command::Delete { key: text("a") })
    );
    assert_eq!(
        Command::decode(b"{\"kind\":\"set\",\"value\":\"x\\ty\",\"key\":\"\\u00e9\"}"),
        Some(Command::Write { key: text("\u{e9}"), value: text("x\ty") })
    );
}

#[test]
fn decode_refuses_what_is_no_command() {
    assert_eq!(Command::decode(b""), None);
    assert_eq!(Command::decode(b"garbage"), None);
    assert_eq!(Command::decode(b"{\"key\":\"a\",\"value\":\"1\"}"), None);
    assert_eq!(Command::decode(b"{\"key\":\"a\",\"value\":\"1\",\"kind\":\"SET\"}"), None);
    assert_eq!(Command::decode(b"{\"key\":\"a\",\"value\":\"1\",\"kind\":\"set\"}\xff"), None);
}

#[test]
fn from_members_tells_the_kinds_apart() {
    assert_eq!(
        Command::from_members(b"set", b"k", b"v"),
        Some(Command::Write { key: text("k"), value: text("v") })
    );
    assert_eq!(Command::from_members(b"rm", b"k", b"v"), Some(Command::Delete { key: text("k") }));
    assert_eq!(Command::from_members(b"rm", b"k", b"\xff"), Some(Command::Delete { key: text("k") }));
    assert_eq!(Command::from_members(b"", b"k", b"v"), None);
    assert_eq!(Command::from_members(b"se", b"k", b"v"), None);
    assert_eq!(Command::from_members(b"sets", b"k", b"v"), None);
    assert_eq!(Command::from_members(b"set", b"\xff", b"v"), None);
    assert_eq!(Command::from_members(b"set", b"k", b"\xc3"), None);
    assert_eq!(Command::from_members(b"rm", b"\xff", b"v"), None);
}

#[test]
fn to_record_gives_the_bytes_of_the_record() {
    let write = Command::Write { key: text("k"), value: text("\u{e9}") };
    assert_eq!(
        write.to_record(),
        Ok("{\"key\":\"k\",\"value\":\"\u{e9}\",\"kind\":\"set\"}".as_bytes().to_vec())
    );
}

#[test]
fn same_compares_commands() {
    let a = Command::Write { key: text("k"), value: text("v") };
    assert!(a.same(&Command::Write { key: text("k"), value: text("v") }));
    assert!(!a.same(&Command::Write { key: text("k"), value: text("w") }));
    assert!(!a.same(&Command::Write { key: text("j"), value: text("v") }));
    assert!(!a.same(&Command::Delete { key: text("k") }));
    assert!(Command::Delete { key: text("k") }.same(&Command::Delete { key: text("k") }));
    assert!(!Command::Delete { key: text("k") }.same(&Command::Delete { key: text("j") }));
    assert_eq!(a.key(), "k");
    assert_eq!(Command::Delete { key: text("d") }.key(), "d");
}

#[test]
fn clone_gives_the_same_command() {
    let write = Command::Write { key: text("k"), value: text("v") };
    assert_eq!(write.clone(), write);
    let delete = Command::Delete { key: text("k") };
    assert_eq!(delete.clone(), delete);
}

#[test]
fn keys_are_ordered_byte_by_byte() {
    assert!(comes_before(b"", b"a"));
    assert!(!comes_before(b"", b""));
    assert!(!comes_before(b"a", b""));
    assert!(comes_before(b"a", b"b"));
    assert!(!comes_before(b"b", b"a"));
    assert!(!comes_before(b"a", b"a"));
    assert!(comes_before(b"a", b"aa"));
    assert!(!comes_before(b"aa", b"a"));
    assert!(comes_before(b"ab", b"b"));
    assert!(comes_before(b"B", b"a"));
    assert!(comes_before(b"abc\x00", b"abc\x01"));
    assert!(comes_before(b"z", "\u{e9}".as_bytes()));
    assert!(comes_before("\u{e9}".as_bytes(), "\u{1F600}".as_bytes()));
    // the order of `str`
    for (a, b) in [("", "a"), ("a", "b"), ("abc", "abd"), ("ab", "abc"), ("Z", "a"), ("x", "x")] {
        assert_eq!(comes_before(a.as_bytes(), b.as_bytes()), a < b);
        assert_eq!(comes_before(b.as_bytes(), a.as_bytes()), b < a);
    }
}

#[test]
fn a_whole_object_is_closed_and_alone() {
    assert!(is_whole_object(b"{}"));
    assert!(is_whole_object(b" \t{\"a\":1}\r"));
    assert!(is_whole_object(b"{\"a\":{\"b\":[1,{\"c\":[]}]}}"));
    assert!(is_whole_object(b"{\"a\":\"}\"}"));
    assert!(is_whole_object(b"{\"a\":\"\\\"}\"}"));
    assert!(is_whole_object(b"{\"a\":\"\\\\\"}"));
    assert!(!is_whole_object(b""));
    assert!(!is_whole_object(b"   "));
    assert!(!is_whole_object(b"{"));
    assert!(!is_whole_object(b"[]"));
    assert!(!is_whole_object(b"\"{}\""));
    assert!(!is_whole_object(b"x{}"));
    assert!(!is_whole_object(b"{} x"));
    assert!(!is_whole_object(b"{}{}"));
    assert!(!is_whole_object(b"{]"));
    assert!(!is_whole_object(b"{\"a\":1"));
    assert!(!is_whole_object(b"{\"a\":\"}"));
    assert!(!is_whole_object(b"{\"a\":\"\\\"}"));
    assert!(!is_whole_object(b"{\"a\":[1,2}"));
    assert!(!is_whole_object(b"{\"a\":{\"b\":1}"));
}

#[test]
fn decode_passes_over_a_record_that_was_cut_short() {
    let whole = b"{\"key\":\"a}\",\"value\":\"{1}\",\"kind\":\"set\"}";
    assert_eq!(
        Command::decode(whole),
        Some(Command::Write { key: text("a}"), value: text("{1}") })
    );
    for cut in 0..whole.len() {
        assert_eq!(Command::decode(&whole[..cut]), None);
    }
    // the kind in front, and the line cut short behind it
    assert_eq!(Command::decode(b"{\"kind\":\"set\",\"key\":\"a\",\"val"), None);
    assert_eq!(Command::decode(b"{\"kind\":\"set\",\"key\":\"a\",\"value\":\"x}"), None);
    assert_eq!(Command::decode(b"{\"kind\":\"rm\",\"key\":\"a\""), None);
    assert_eq!(
        Command::decode(b"{\"kind\":\"rm\",\"key\":\"a\"}"),
        Some(Command::Delete { key: text("a") })
    );
}
