use emark::priority::{High, Interrupt, Normal, Priority, Routine};

#[test]
fn test_from_u8() {
    assert_eq!(Priority::from(0), Priority::Interrupt);
    assert_eq!(Priority::from(1), Priority::High);
    assert_eq!(Priority::from(2), Priority::Normal);
    assert_eq!(Priority::from(3), Priority::Routine);
}

#[test]
fn test_from_priority() {
    assert_eq!(u8::from(Priority::Interrupt), 0u8);
    assert_eq!(u8::from(Priority::High), 1u8);
    assert_eq!(u8::from(Priority::Normal), 2u8);
    assert_eq!(u8::from(Priority::Routine), 3u8);
}

#[test]
fn test_priority_order() {
    assert!(Priority::Interrupt > Priority::High);
    assert!(Priority::High > Priority::Normal);
    assert!(Priority::Normal > Priority::Routine);
    assert!(Priority::Routine < Priority::Interrupt);
}

#[test]
fn test_priority_iterator() {
    let mut priority = Priority::Interrupt;
    assert_eq!(priority.next(), Some(Priority::High));
    let mut priority = priority.next().unwrap();
    assert_eq!(priority.next(), Some(Priority::Normal));
    let mut priority = priority.next().unwrap();
    assert_eq!(priority.next(), Some(Priority::Routine));
    let mut priority = priority.next().unwrap();
    assert_eq!(priority.next(), Some(Priority::Interrupt));
}

#[test]
fn test_priority_from_type_state() {
    assert_eq!(Priority::from(Interrupt), Priority::Interrupt);
    assert_eq!(Priority::from(High), Priority::High);
    assert_eq!(Priority::from(Normal), Priority::Normal);
    assert_eq!(Priority::from(Routine), Priority::Routine);
}

#[test]
fn test_priority_default() {
    assert_eq!(Priority::default(), Priority::Normal);
}

#[test]
fn test_priority_to_usize() {
    assert_eq!(usize::from(Priority::Interrupt), 0usize);
    assert_eq!(usize::from(Priority::Routine), 3usize);
}

#[test]
fn test_from_rank() {
    assert_eq!(Priority::from_rank(0), Priority::Interrupt);
    assert_eq!(Priority::from_rank(3), Priority::Routine);
}

#[test]
fn test_from_u8_total_beyond_ranks() {
    assert_eq!(Priority::from(200), Priority::Routine);
}
