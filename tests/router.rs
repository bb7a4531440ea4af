use ambient_wasm::event::{is_debug_event, send, subscribe, EventSharedState};
use ambient_wasm::fault::describe_failure;
use ambient_wasm::module::{init_all_components, EventData, MessageType};

fn data(ids: &[u64]) -> EventData {
    EventData { entities: ids.to_vec() }
}

#[test]
fn subscribe_adds_name_once() {
    let mut state: EventSharedState<EventData> = EventSharedState::new();
    subscribe(&mut state, "X");
    subscribe(&mut state, "X");
    subscribe(&mut state, "Y");
    assert_eq!(state.subscribed_events, vec!["X".to_string(), "Y".to_string()]);
    assert!(state.supports_event("X"));
    assert!(state.supports_event("Y"));
    assert!(!state.supports_event("Z"));
}

#[test]
fn send_drops_debug_namespace() {
    let mut state: EventSharedState<EventData> = EventSharedState::new();
    send(&mut state, "dims/anything", data(&[1]));
    send(&mut state, "dims/", data(&[2]));
    assert!(state.events.is_empty());
}

#[test]
fn send_queues_other_names_in_order() {
    let mut state: EventSharedState<EventData> = EventSharedState::new();
    send(&mut state, "a", data(&[1]));
    send(&mut state, "dims", data(&[2]));
    send(&mut state, "dim/x", data(&[3]));
    let names: Vec<&str> = state.events.iter().map(|(n, _)| n.as_str()).collect();
    assert_eq!(names, vec!["a", "dims", "dim/x"]);
    assert_eq!(state.events[0].1.entities, vec![1]);
    assert_eq!(state.events[2].1.entities, vec![3]);
}

#[test]
fn debug_prefix_edges() {
    assert!(is_debug_event("dims/"));
    assert!(is_debug_event("dims/x/y"));
    assert!(!is_debug_event("dims"));
    assert!(!is_debug_event(""));
    assert!(!is_debug_event("xdims/"));
    assert!(!is_debug_event("Dims/x"));
}

#[test]
fn failure_text_adds_distinct_root_cause() {
    assert_eq!(describe_failure("outer", "inner"), "outer\nRoot cause: inner");
    assert_eq!(describe_failure("same", "same"), "same");
    assert_eq!(describe_failure("", "x"), "\nRoot cause: x");
}

#[test]
fn components_are_listed() {
    assert_eq!(
        init_all_components(),
        vec![
            "wasm::shared::module".to_string(),
            "wasm::shared::module_state".to_string(),
            "wasm::shared::module_bytecode".to_string(),
            "wasm::shared::module_enabled".to_string(),
            "wasm::shared::module_errors".to_string(),
            "wasm::shared::remote_paired_id".to_string(),
        ]
    );
}

#[test]
fn message_types_are_distinct() {
    assert_ne!(MessageType::Info, MessageType::Error);
    assert!(MessageType::Info < MessageType::Stderr);
}
