use kvs::{Command, CommandLog, CustomError, Index, Locator};

fn owned(text: &str) -> String {
    String::from(text)
}

#[test]
fn log_append_says_where_the_record_lies() {
    let mut log = CommandLog::new();
    assert_eq!(log.len(), 0);
    let first = log.append(&Command::Write { key: owned("a"), value: owned("1") }).unwrap();
    assert_eq!(first, Locator { offset: 0, len: 36 });
    assert_eq!(log.len(), 37);
    let second = log.append(&Command::Delete { key: owned("a") }).unwrap();
    assert_eq!(second, Locator { offset: 37, len: 34 });
    assert_eq!(log.len(), 72);
    assert_eq!(log.read_at(first), Ok(Command::Write { key: owned("a"), value: owned("1") }));
    assert_eq!(log.read_at(second), Ok(Command::Delete { key: owned("a") }));
}

#[test]
fn log_read_at_refuses_what_is_no_record() {
    let mut log = CommandLog::new();
    log.append(&Command::Write { key: owned("a"), value: owned("1") }).unwrap();
    assert_eq!(
        log.read_at(Locator { offset: 0, len: 38 }),
        Err(CustomError::SerializationError)
    );
    assert_eq!(
        log.read_at(Locator { offset: 38, len: 0 }),
        Err(CustomError::SerializationError)
    );
    assert_eq!(
        log.read_at(Locator { offset: usize::MAX, len: usize::MAX }),
        Err(CustomError::SerializationError)
    );
    assert_eq!(
        log.read_at(Locator { offset: 1, len: 35 }),
        Err(CustomError::SerializationError)
    );
    assert_eq!(
        log.read_at(Locator { offset: 37, len: 0 }),
        Err(CustomError::SerializationError)
    );
}

#[test]
fn log_from_bytes_takes_the_bytes_as_they_are() {
    assert_eq!(CommandLog::from_bytes(Vec::new()).as_bytes(), b"");
    assert_eq!(CommandLog::from_bytes(b"a\n".to_vec()).as_bytes(), b"a\n");
    assert_eq!(CommandLog::from_bytes(b"a\nb".to_vec()).as_bytes(), b"a\nb");
    assert_eq!(CommandLog::from_bytes(b"a\nb".to_vec()).len(), 3);
}

#[test]
fn log_append_supplies_a_missing_newline() {
    let mut log = CommandLog::from_bytes(b"cut sho".to_vec());
    let locator = log.append(&Command::Delete { key: owned("a") }).unwrap();
    assert_eq!(locator, Locator { offset: 8, len: 34 });
    assert_eq!(log.as_bytes(), b"cut sho\n{\"key\":\"a\",\"value\":\"\",\"kind\":\"rm\"}\n");
    assert_eq!(log.read_at(locator), Ok(Command::Delete { key: owned("a") }));
    let mut empty_line = CommandLog::from_bytes(b"\n".to_vec());
    assert_eq!(
        empty_line.append(&Command::Delete { key: owned("a") }),
        Ok(Locator { offset: 1, len: 34 })
    );
}

#[test]
fn log_replay_counts_lines_as_a_reader_of_lines_does() {
    let count = |bytes: &[u8]| CommandLog::from_bytes(bytes.to_vec()).replay().len();
    assert_eq!(count(b""), 0);
    assert_eq!(count(b"\n"), 1);
    assert_eq!(count(b"a"), 1);
    assert_eq!(count(b"a\n"), 1);
    assert_eq!(count(b"a\nb"), 2);
    assert_eq!(count(b"a\n\n"), 2);
    assert_eq!(count(b"\n\na"), 3);
}

#[test]
fn log_replay_gives_every_record_in_order() {
    let log = CommandLog::from_bytes(
        b"{\"key\":\"a\",\"value\":\"1\",\"kind\":\"set\"}\nnoise\n\n{\"key\":\"a\",\"value\":\"\",\"kind\":\"rm\"}"
            .to_vec(),
    );
    let entries = log.replay();
    assert_eq!(
        entries,
        vec![
            (Locator { offset: 0, len: 36 }, Some(Command::Write { key: owned("a"), value: owned("1") })),
            (Locator { offset: 37, len: 5 }, None),
            (Locator { offset: 43, len: 0 }, None),
            (Locator { offset: 44, len: 34 }, Some(Command::Delete { key: owned("a") })),
        ]
    );
    assert!(CommandLog::new().replay().is_empty());
}

#[test]
fn log_rewrite_keeps_the_named_records() {
    let mut log = CommandLog::from_bytes(b"one\ntwo\nthree\n".to_vec());
    let kept = vec![Locator { offset: 8, len: 5 }, Locator { offset: 0, len: 3 }];
    assert_eq!(log.rewrite(&kept), Ok(()));
    assert_eq!(log.as_bytes(), b"three\none\n");
    assert_eq!(log.rewrite(&Vec::new()), Ok(()));
    assert_eq!(log.as_bytes(), b"");
}

#[test]
fn log_rewrite_is_all_or_nothing() {
    let mut log = CommandLog::from_bytes(b"one\ntwo\n".to_vec());
    let kept = vec![Locator { offset: 0, len: 3 }, Locator { offset: 4, len: 5 }];
    assert_eq!(log.rewrite(&kept), Err(CustomError::SerializationError));
    assert_eq!(log.as_bytes(), b"one\ntwo\n");
}

#[test]
fn index_put_get_delete() {
    let mut index = Index::new();
    assert_eq!(index.get("a"), None);
    index.put(owned("a"), Locator { offset: 1, len: 2 });
    index.put(owned("b"), Locator { offset: 3, len: 4 });
    assert_eq!(index.get("a"), Some(Locator { offset: 1, len: 2 }));
    index.put(owned("a"), Locator { offset: 5, len: 6 });
    assert_eq!(index.get("a"), Some(Locator { offset: 5, len: 6 }));
    index.delete("a");
    assert_eq!(index.get("a"), None);
    index.delete("a");
    assert_eq!(index.get("b"), Some(Locator { offset: 3, len: 4 }));
}

#[test]
fn index_rebuild_from_replays_the_log() {
    let log = CommandLog::from_bytes(
        b"{\"key\":\"a\",\"value\":\"1\",\"kind\":\"set\"}\n{\"key\":\"b\",\"value\":\"2\",\"kind\":\"set\"}\n{\"key\":\"a\",\"value\":\"3\",\"kind\":\"set\"}\n{\"key\":\"b\",\"value\":\"\",\"kind\":\"rm\"}\n"
            .to_vec(),
    );
    let mut index = Index::new();
    index.put(owned("stale"), Locator { offset: 0, len: 0 });
    assert_eq!(index.rebuild_from(&log), 4);
    assert_eq!(index.get("a"), Some(Locator { offset: 74, len: 36 }));
    assert_eq!(index.get("b"), None);
    assert_eq!(index.get("stale"), None);
}

#[test]
fn compact_log_rewrites_log_and_index() {
    let mut log = CommandLog::from_bytes(
        b"{\"key\":\"b\",\"value\":\"1\",\"kind\":\"set\"}\n{\"key\":\"a\",\"value\":\"2\",\"kind\":\"set\"}\n{\"key\":\"b\",\"value\":\"3\",\"kind\":\"set\"}\n"
            .to_vec(),
    );
    let mut index = Index::new();
    assert_eq!(index.rebuild_from(&log), 3);
    assert_eq!(kvs::compactor::compact_log(&mut log, &mut index), 2);
    assert_eq!(
        log.as_bytes(),
        b"{\"key\":\"a\",\"value\":\"2\",\"kind\":\"set\"}\n{\"key\":\"b\",\"value\":\"3\",\"kind\":\"set\"}\n"
    );
    assert_eq!(index.get("a"), Some(Locator { offset: 0, len: 36 }));
    assert_eq!(index.get("b"), Some(Locator { offset: 37, len: 36 }));
    assert_eq!(
        log.read_at(index.get("b").unwrap()),
        Ok(Command::Write { key: owned("b"), value: owned("3") })
    );
}
