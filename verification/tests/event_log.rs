use fqcn_rename::event_log::{EventLog, Level, MAX_EVENTS};

#[test]
fn test_log_is_newest_first() {
    let mut log = EventLog::default();
    assert_eq!(0, log.list().len());
    log.info("one".to_owned());
    log.error("two".to_owned());
    log.push(Level::Info, "three".to_owned());
    let events = log.list();
    assert_eq!(3, events.len());
    assert_eq!((2, Level::Info, "three"), (events[0].num, events[0].level, events[0].value.as_str()));
    assert_eq!((1, Level::Error, "two"), (events[1].num, events[1].level, events[1].value.as_str()));
    assert_eq!((0, Level::Info, "one"), (events[2].num, events[2].level, events[2].value.as_str()));
}

#[test]
fn test_log_keeps_the_last_twenty() {
    let mut log = EventLog::default();
    for i in 0..25 {
        log.info(format!("event {}", i));
    }
    let events = log.list();
    assert_eq!(20, MAX_EVENTS);
    assert_eq!(MAX_EVENTS, events.len());
    assert_eq!(24, events[0].num);
    assert_eq!("event 24", events[0].value);
    assert_eq!(5, events[19].num);
    assert_eq!("event 5", events[19].value);
}
