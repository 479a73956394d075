use emark::event::Event;
use emark::event_manager::EventManager;
use emark::priority::{Interrupt, Priority};

#[derive(Debug, Clone, Copy, PartialEq, Eq)]
struct GenericEvent;
impl Event for GenericEvent {}

const GENERIC_KEY: u64 = 100;
const KEY_INTERRUPT: u64 = 101;
const KEY_HIGH: u64 = 102;
const KEY_NORMAL: u64 = 103;
const KEY_ROUTINE: u64 = 104;

#[test]
fn test_event() {
    #[allow(dead_code)]
    struct SomeEvent;
    impl Event for SomeEvent {}
}

#[test]
fn test_event_manager_new() {
    let mut event_manager = EventManager::<GenericEvent>::new();
    assert!(event_manager.next_execution().is_none());
}

#[test]
fn test_event_manager_emit() {
    let mut event_manager = EventManager::new();
    assert_eq!(event_manager.emit(GENERIC_KEY, GenericEvent), Some(GENERIC_KEY));
}

#[test]
fn test_event_manager_emit_priority() {
    let mut event_manager = EventManager::new();
    assert_eq!(
        event_manager.emit_priority(GENERIC_KEY, GenericEvent, Priority::Interrupt),
        Some(GENERIC_KEY)
    );

    let batch = event_manager.next_execution().unwrap();
    assert_eq!(batch.len(), 1);
    assert_eq!(batch[0].0.event_key, GENERIC_KEY);
    assert_eq!(batch[0].0.priority, Priority::Interrupt);
    assert_eq!(batch[0].1, vec![GenericEvent]);
}

#[test]
fn test_event_manager_emit_type_state() {
    let mut event_manager = EventManager::new();
    assert_eq!(
        event_manager.emit_type_state::<Interrupt>(GENERIC_KEY, GenericEvent),
        Some(GENERIC_KEY)
    );
}

#[test]
fn test_event_manager_upgrade_event() {
    let mut event_manager = EventManager::new();
    assert!(event_manager.next_execution().is_none());

    // fire the same event type at several priorities
    event_manager
        .emit_priority(GENERIC_KEY, GenericEvent, Priority::Interrupt)
        .unwrap();
    event_manager
        .emit_priority(GENERIC_KEY, GenericEvent, Priority::Normal)
        .unwrap();
    event_manager
        .emit_priority(GENERIC_KEY, GenericEvent, Priority::Routine)
        .unwrap();
    event_manager
        .emit_priority(GENERIC_KEY, GenericEvent, Priority::High)
        .unwrap();

    // the next execution comes at interrupt priority
    assert_eq!(
        event_manager.next_execution().unwrap().first().unwrap().0.priority,
        Priority::Interrupt
    );

    // and nothing is left: the same event type fired at several priorities
    // runs once, at the highest of them
    assert!(event_manager.next_execution().is_none());
}

#[test]
fn test_event_manager_next_execution() {
    let mut event_manager = EventManager::new();
    assert!(event_manager.next_execution().is_none());

    event_manager
        .emit_priority(KEY_INTERRUPT, GenericEvent, Priority::Interrupt)
        .unwrap();
    event_manager
        .emit_priority(KEY_HIGH, GenericEvent, Priority::High)
        .unwrap();
    event_manager
        .emit_priority(KEY_NORMAL, GenericEvent, Priority::Normal)
        .unwrap();
    event_manager
        .emit_priority(KEY_ROUTINE, GenericEvent, Priority::Routine)
        .unwrap();

    assert_eq!(
        event_manager.next_execution().unwrap().first().unwrap().0.priority,
        Priority::Interrupt
    );
    assert_eq!(
        event_manager.next_execution().unwrap().first().unwrap().0.priority,
        Priority::High
    );
    assert_eq!(
        event_manager.next_execution().unwrap().first().unwrap().0.priority,
        Priority::Normal
    );
    assert_eq!(
        event_manager.next_execution().unwrap().first().unwrap().0.priority,
        Priority::Routine
    );

    assert!(event_manager.next_execution().is_none());
}

#[test]
fn test_event_manager_next_box() {
    let mut event_manager = EventManager::new();

    event_manager
        .emit_priority(GENERIC_KEY, GenericEvent, Priority::Interrupt)
        .unwrap();

    let events = event_manager.next_execution().unwrap();
    let events = &events.first().unwrap().1;

    assert_eq!(*events, vec![GenericEvent]);
}

#[test]
fn batches_group_by_event_type() {
    let mut event_manager = EventManager::new();
    event_manager.emit(GENERIC_KEY, 1i32).unwrap();
    event_manager.emit(GENERIC_KEY, 2i32).unwrap();
    event_manager.emit(GENERIC_KEY, 3i32).unwrap();
    let batch = event_manager.next_execution().unwrap();
    assert_eq!(batch.len(), 1);
    assert_eq!(batch[0].1, vec![1, 2, 3]);
    assert!(event_manager.next_execution().is_none());
}
