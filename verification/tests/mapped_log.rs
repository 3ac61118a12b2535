use replay::mapped_log::{ensure_capacity, mapped_line, MappedLog, MappedLogError};
use replay::observe::{Event, TimedEvent};
use replay::{LimitOrder, Price, Side};

#[test]
fn empty_mapping_is_refused() {
    let error = MappedLog::new(0).err().unwrap();
    assert_eq!(error, MappedLogError::EmptyMapping);
    assert_eq!(
        error.message(),
        "memory-mapped file observer requires a non-zero initial size"
    );
}

#[test]
fn mapping_grows_to_the_larger_of_double_and_required() {
    assert_eq!(ensure_capacity(16, 0), Ok(None));
    assert_eq!(ensure_capacity(16, 16), Ok(None));
    assert_eq!(ensure_capacity(16, 17), Ok(Some(32)));
    assert_eq!(ensure_capacity(16, 32), Ok(Some(32)));
    assert_eq!(ensure_capacity(16, 33), Ok(Some(33)));
    let most = usize::MAX / 2;
    assert_eq!(ensure_capacity(most, most + 1), Ok(Some(usize::MAX - 1)));
    assert_eq!(ensure_capacity(most, usize::MAX), Ok(Some(usize::MAX)));
    assert_eq!(
        ensure_capacity(most + 1, most + 2),
        Err(MappedLogError::BeyondCapacity)
    );
    assert_eq!(ensure_capacity(usize::MAX, usize::MAX), Ok(None));
}

#[test]
fn error_messages() {
    assert_eq!(
        MappedLogError::SizeOverflow.message(),
        "memory-mapped log size overflow"
    );
    assert_eq!(
        MappedLogError::BeyondCapacity.message(),
        "memory-mapped log grew beyond addressable capacity"
    );
}

#[test]
fn mapped_line_is_labelled_and_ended() {
    assert_eq!(
        mapped_line(&TimedEvent::at(Event::Cancel { order_id: 7 }, 12)),
        "[MMapObserver] 12 Cancel { order_id: 7 }\n"
    );
}

#[test]
fn mapped_log_grows_and_keeps_every_line() {
    let mut mapping = vec![0u8; 16];
    let mut log = MappedLog::new(16).unwrap();
    let mut expected = String::new();
    for id in 1..=20 {
        let order = LimitOrder {
            id,
            side: Side::Buy,
            price: Price::new(100).unwrap(),
            quantity: 1,
        };
        let line = mapped_line(&TimedEvent::at(Event::New(order), u128::from(id)));
        let required = log.required_size(&line).unwrap();
        assert_eq!(required, expected.len() + line.len());
        if let Some(size) = ensure_capacity(mapping.len(), required).unwrap() {
            assert!(size >= required && size >= 2 * mapping.len());
            mapping.resize(size, 0);
        }
        log.append(&mut mapping, &line);
        expected.push_str(&line);
        assert_eq!(log.total_size(), expected.len());
    }
    assert!(mapping.len() > 16);
    mapping.truncate(log.total_size());
    let contents = String::from_utf8(mapping).unwrap();
    assert!(contents.contains("New(LimitOrder"));
    assert_eq!(contents, expected);
}

#[test]
fn appending_writes_only_the_line() {
    let mut mapping = vec![b'-'; 8];
    let mut log = MappedLog::new(8).unwrap();
    log.append(&mut mapping, "ab");
    log.append(&mut mapping, "");
    log.append(&mut mapping, "c\u{e9}");
    assert_eq!(mapping, "abc\u{e9}---".as_bytes());
    assert_eq!(log.total_size(), 5);
}
