use std::cell::RefCell;
use std::rc::Rc;

use ambient_wasm::host::{
    collider_loads_event_name, collision_event_name, frame_event_name, module_load_event_name,
    module_unload_event_name, Host,
};
use ambient_wasm::dispatch::Delivery;
use ambient_wasm::module::{EventData, Guest, GuestRequest, MessageType, RunContext, MAXIMUM_ERROR_COUNT};

type Log = Rc<RefCell<Vec<(String, Vec<u64>)>>>;
type Behaviour = Box<dyn FnMut(&str) -> Result<Vec<GuestRequest>, String>>;

struct Script {
    log: Log,
    behave: Behaviour,
}

impl Guest for Script {
    fn run(&mut self, context: &RunContext) -> Result<Vec<GuestRequest>, String> {
        self.log
            .borrow_mut()
            .push((context.event_name.clone(), context.event_data.entities.clone()));
        (self.behave)(&context.event_name)
    }
}

fn script(behave: Behaviour) -> (Script, Log) {
    let log: Log = Rc::new(RefCell::new(Vec::new()));
    (Script { log: log.clone(), behave }, log)
}

fn quiet() -> (Script, Log) {
    script(Box::new(|_| Ok(vec![])))
}

fn names(log: &Log) -> Vec<String> {
    log.borrow().iter().map(|(n, _)| n.clone()).collect()
}

fn index(host: &Host<Script>, id: u64) -> usize {
    host.find_module(id).unwrap()
}

fn running(host: &Host<Script>, id: u64) -> bool {
    host.modules[index(host, id)].state.is_some()
}

/// Spawns an enabled module with bytecode and installs `guest` as its compiled instance.
fn start(host: &mut Host<Script>, name: &str, guest: Script) -> u64 {
    let id = host.spawn_module(name.to_string(), String::new(), true);
    host.set_bytecode(id, vec![0, 97, 115, 109]);
    let request = host.reload(id).expect("an enabled module with bytecode starts loading");
    assert_eq!(request.module, id);
    assert!(host.finish_load(id, request.stamp, Ok(guest)));
    let i = index(host, id);
    host.modules[i].changed = false;
    id
}

fn tick(host: &mut Host<Script>, time: u64) {
    let report = host.tick(time, vec![], None, None);
    assert!(report.started.is_empty());
}

fn notices_of(host: &Host<Script>, kind: MessageType) -> Vec<String> {
    host.notices.iter().filter(|n| n.kind == kind).map(|n| n.text.clone()).collect()
}

#[test]
fn load_subscribes_and_sends_module_load() {
    let mut host: Host<Script> = Host::new();
    let (guest, log) = quiet();
    let id = start(&mut host, "m", guest);
    assert!(running(&host, id));
    assert_eq!(names(&log), vec![module_load_event_name()]);
    let state = host.modules[index(&host, id)].state.as_ref().unwrap();
    assert!(state.supports_event(&frame_event_name()));
    assert!(state.supports_event(&module_load_event_name()));
    assert_eq!(state.shared.subscribed_events.len(), 2);
    assert!(state.spawned_entities.is_empty());
}

#[test]
fn error_threshold_unloads_after_six_failures() {
    let mut host: Host<Script> = Host::new();
    let frame = frame_event_name();
    let (guest, _log) = script(Box::new(move |name: &str| {
        if name == frame { Err("boom".to_string()) } else { Ok(vec![]) }
    }));
    let id = start(&mut host, "m", guest);
    for t in 1..=MAXIMUM_ERROR_COUNT as u64 {
        tick(&mut host, t);
        assert!(running(&host, id));
        assert_eq!(host.modules[index(&host, id)].errors.len(), t as usize);
    }
    tick(&mut host, 6);
    assert!(!running(&host, id));
    assert!(host.modules[index(&host, id)].errors.is_empty());
    assert_eq!(notices_of(&host, MessageType::Error).len(), 6);
    assert_eq!(notices_of(&host, MessageType::Error)[0], "Runtime error: boom");
    assert_eq!(
        notices_of(&host, MessageType::Info),
        vec!["Unloaded (reason: too many errors)".to_string()]
    );
}

#[test]
fn reload_clears_error_history() {
    let mut host: Host<Script> = Host::new();
    let frame = frame_event_name();
    let (guest, _log) = script(Box::new(move |name: &str| {
        if name == frame { Err("bad frame".to_string()) } else { Ok(vec![]) }
    }));
    let id = start(&mut host, "m", guest);
    tick(&mut host, 1);
    tick(&mut host, 2);
    tick(&mut host, 3);
    assert_eq!(host.modules[index(&host, id)].errors.len(), 3);
    let request = host.reload(id);
    assert!(request.is_some());
    assert!(host.modules[index(&host, id)].errors.is_empty());
    assert!(!running(&host, id));
    assert_eq!(
        notices_of(&host, MessageType::Info),
        vec!["Unloaded (reason: reloading)".to_string()]
    );
}

#[test]
fn reload_clears_errors_of_a_module_that_does_not_run() {
    let mut host: Host<Script> = Host::new();
    let id = host.spawn_module("m".to_string(), String::new(), true);
    host.set_bytecode(id, vec![1]);
    let request = host.reload(id).unwrap();
    assert!(!host.finish_load(id, request.stamp, Err("bad bytecode".to_string())));
    assert_eq!(host.modules[index(&host, id)].errors, vec!["bad bytecode".to_string()]);
    assert!(host.reload(id).is_some());
    assert!(host.modules[index(&host, id)].errors.is_empty());
}

#[test]
fn debug_messages_never_reach_subscribers() {
    let mut host: Host<Script> = Host::new();
    let frame = frame_event_name();
    let (sender, _) = script(Box::new(move |name: &str| {
        if name == frame {
            Ok(vec![
                GuestRequest::Send("dims/anything".to_string(), EventData { entities: vec![7] }),
                GuestRequest::Send("X".to_string(), EventData { entities: vec![8] }),
            ])
        } else {
            Ok(vec![])
        }
    }));
    let (listener, log) = script(Box::new(|name: &str| {
        if name == module_load_event_name() {
            Ok(vec![
                GuestRequest::Subscribe("dims/anything".to_string()),
                GuestRequest::Subscribe("X".to_string()),
            ])
        } else {
            Ok(vec![])
        }
    }));
    start(&mut host, "sender", sender);
    start(&mut host, "listener", listener);
    host.queue_message("dims/host", EventData { entities: vec![9] });
    assert!(host.pending_messages.is_empty());
    tick(&mut host, 1);
    let received = names(&log);
    assert!(received.iter().all(|n| !n.starts_with("dims/")));
    assert_eq!(received.iter().filter(|n| n.as_str() == "X").count(), 1);
}

#[test]
fn subscribe_before_send_is_called_once() {
    let mut host: Host<Script> = Host::new();
    let (early, early_log) = script(Box::new(|name: &str| {
        if name == module_load_event_name() {
            Ok(vec![GuestRequest::Subscribe("X".to_string())])
        } else {
            Ok(vec![])
        }
    }));
    let early_id = start(&mut host, "early", early);
    host.queue_message("X", EventData { entities: vec![42] });
    let delivered = host.run_pending();
    assert_eq!(
        delivered,
        vec![Delivery { name: "X".to_string(), entities: vec![42], called: vec![early_id] }]
    );
    let got: Vec<(String, Vec<u64>)> =
        early_log.borrow().iter().filter(|(n, _)| n == "X").cloned().collect();
    assert_eq!(got, vec![("X".to_string(), vec![42])]);

    let (late, late_log) = script(Box::new(|name: &str| {
        if name == module_load_event_name() {
            Ok(vec![GuestRequest::Subscribe("X".to_string())])
        } else {
            Ok(vec![])
        }
    }));
    start(&mut host, "late", late);
    assert!(host.run_pending().is_empty());
    tick(&mut host, 1);
    assert!(late_log.borrow().iter().all(|(n, _)| n != "X"));
    assert_eq!(early_log.borrow().iter().filter(|(n, _)| n == "X").count(), 1);
}

#[test]
fn unload_despawns_spawned_entities_but_persistent() {
    let mut host: Host<Script> = Host::new();
    let (guest, log) = script(Box::new(|name: &str| {
        if name == module_load_event_name() {
            Ok(vec![
                GuestRequest::Spawn(false),
                GuestRequest::Spawn(false),
                GuestRequest::Spawn(true),
                GuestRequest::Spawn(false),
                GuestRequest::Subscribe(module_unload_event_name()),
            ])
        } else {
            Ok(vec![])
        }
    }));
    let id = start(&mut host, "spawner", guest);
    let spawned = host.modules[index(&host, id)].state.as_ref().unwrap().spawned_entities.clone();
    assert_eq!(spawned.len(), 4);
    assert_eq!(host.entities.len(), 5);
    host.unload(id, "test");
    assert!(!running(&host, id));
    assert_eq!(names(&log).last().unwrap(), &module_unload_event_name());
    let left: Vec<u64> = host.entities.iter().map(|e| e.id).collect();
    assert_eq!(left, vec![id, spawned[2]]);
    assert!(host.entities[1].persistent);
    assert_eq!(notices_of(&host, MessageType::Info), vec!["Unloaded (reason: test)".to_string()]);
}

#[test]
fn unload_of_a_stopped_module_changes_nothing() {
    let mut host: Host<Script> = Host::new();
    let id = host.spawn_module("m".to_string(), "d".to_string(), false);
    host.unload(id, "nothing");
    host.unload(id + 100, "missing");
    assert!(host.notices.is_empty());
    assert_eq!(host.entities.len(), 1);
}

#[test]
fn failing_module_does_not_block_others() {
    let mut host: Host<Script> = Host::new();
    let frame = frame_event_name();
    let (bad, _) = script(Box::new(move |name: &str| {
        if name == frame { Err("guest panicked".to_string()) } else { Ok(vec![]) }
    }));
    let (good, good_log) = quiet();
    let bad_id = start(&mut host, "bad", bad);
    let good_id = start(&mut host, "good", good);
    let context = RunContext::new(frame_event_name(), EventData { entities: vec![] }, 5);
    let called = host.run_all(&context);
    assert_eq!(called, vec![bad_id, good_id]);
    let errors: Vec<u64> =
        host.notices.iter().filter(|n| n.kind == MessageType::Error).map(|n| n.module).collect();
    assert_eq!(errors, vec![bad_id]);
    assert_eq!(names(&good_log), vec![module_load_event_name(), frame_event_name()]);
    assert!(running(&host, good_id));
    assert!(host.modules[index(&host, good_id)].errors.is_empty());
}

#[test]
fn run_module_reports_the_outcome() {
    let mut host: Host<Script> = Host::new();
    let (guest, _) = script(Box::new(|name: &str| {
        if name == "fail" { Err("nope".to_string()) } else { Ok(vec![]) }
    }));
    let id = start(&mut host, "m", guest);
    let i = index(&host, id);
    let ctx = |name: &str| RunContext::new(name.to_string(), EventData { entities: vec![] }, 0);
    assert_eq!(host.run_module(i, &ctx("unheard")), None);
    assert_eq!(host.run_module(i, &ctx(&frame_event_name())), Some(Ok(())));
    host.modules[i].state.as_mut().unwrap().listen_to_event("fail");
    assert_eq!(host.run_module(i, &ctx("fail")), Some(Err("nope".to_string())));
    assert_eq!(host.modules[i].errors, vec!["nope".to_string()]);
}

#[test]
fn toggling_enabled_gives_a_fresh_state() {
    let mut host: Host<Script> = Host::new();
    let (guest, _) = script(Box::new(|name: &str| {
        if name == module_load_event_name() {
            Ok(vec![GuestRequest::Spawn(false), GuestRequest::Subscribe("extra".to_string())])
        } else {
            Ok(vec![])
        }
    }));
    let id = start(&mut host, "m", guest);
    assert_eq!(host.modules[index(&host, id)].state.as_ref().unwrap().spawned_entities.len(), 1);

    host.set_enabled(id, false);
    let started = host.tick(1, vec![], None, None).started;
    assert!(started.is_empty());
    assert!(!running(&host, id));
    assert_eq!(notices_of(&host, MessageType::Info), vec!["Unloaded (reason: reloading)".to_string()]);

    host.set_enabled(id, true);
    let started = host.tick(2, vec![], None, None).started;
    assert_eq!(started.len(), 1);
    assert_eq!(started[0].bytecode, vec![0, 97, 115, 109]);
    let (fresh, fresh_log) = quiet();
    assert!(host.finish_load(id, started[0].stamp, Ok(fresh)));
    let state = host.modules[index(&host, id)].state.as_ref().unwrap();
    assert!(state.spawned_entities.is_empty());
    assert_eq!(state.shared.subscribed_events, vec![frame_event_name(), module_load_event_name()]);
    assert_eq!(names(&fresh_log), vec![module_load_event_name()]);
    assert_eq!(notices_of(&host, MessageType::Info).len(), 1);
}

#[test]
fn stale_compile_is_discarded() {
    let mut host: Host<Script> = Host::new();
    let id = host.spawn_module("m".to_string(), String::new(), true);
    host.set_bytecode(id, vec![1, 2]);
    let first = host.reload(id).unwrap();
    let second = host.reload(id).unwrap();
    assert_ne!(first.stamp, second.stamp);
    let (old_guest, old_log) = quiet();
    assert!(!host.finish_load(id, first.stamp, Ok(old_guest)));
    assert!(old_log.borrow().is_empty());
    assert!(!running(&host, id));
    let (new_guest, _) = quiet();
    assert!(host.finish_load(id, second.stamp, Ok(new_guest)));
    assert!(running(&host, id));
    let (again, _) = quiet();
    assert!(!host.finish_load(id, second.stamp, Ok(again)));
}

#[test]
fn compile_result_for_a_disabled_module_is_dropped() {
    let mut host: Host<Script> = Host::new();
    let id = host.spawn_module("m".to_string(), String::new(), true);
    host.set_bytecode(id, vec![1]);
    let request = host.reload(id).unwrap();
    host.set_enabled(id, false);
    let (guest, _) = quiet();
    assert!(!host.finish_load(id, request.stamp, Ok(guest)));
    assert!(!running(&host, id));
}

#[test]
fn empty_bytecode_or_disabled_starts_no_load() {
    let mut host: Host<Script> = Host::new();
    let id = host.spawn_module("m".to_string(), String::new(), true);
    assert!(host.reload(id).is_none());
    let off = host.spawn_module("off".to_string(), String::new(), false);
    host.set_bytecode(off, vec![1]);
    assert!(host.reload(off).is_none());
    assert!(host.reload(999).is_none());
}

#[test]
fn compile_failure_is_reported_as_an_error() {
    let mut host: Host<Script> = Host::new();
    let id = host.spawn_module("m".to_string(), String::new(), true);
    host.set_bytecode(id, vec![1]);
    let request = host.reload(id).unwrap();
    assert!(!host.finish_load(id, request.stamp, Err("invalid magic".to_string())));
    assert!(!running(&host, id));
    assert_eq!(host.modules[index(&host, id)].errors, vec!["invalid magic".to_string()]);
    assert_eq!(notices_of(&host, MessageType::Error), vec!["Runtime error: invalid magic".to_string()]);
    assert_eq!(host.notices[0].module, id);
}

#[test]
fn tick_dispatches_system_events_in_order() {
    let mut host: Host<Script> = Host::new();
    let (guest, log) = script(Box::new(|name: &str| {
        if name == module_load_event_name() {
            Ok(vec![
                GuestRequest::Subscribe(collision_event_name()),
                GuestRequest::Subscribe(collider_loads_event_name()),
                GuestRequest::Subscribe("app".to_string()),
                GuestRequest::Subscribe("msg".to_string()),
            ])
        } else {
            Ok(vec![])
        }
    }));
    start(&mut host, "m", guest);
    host.queue_message("msg", EventData { entities: vec![3] });
    log.borrow_mut().clear();
    let report = host.tick(
        10,
        vec![("app".to_string(), EventData { entities: vec![1] })],
        Some(vec![(Some(4), Some(5)), (None, Some(6))]),
        Some(vec![8, 9]),
    );
    assert!(report.started.is_empty());
    let dispatched: Vec<(String, Vec<u64>)> =
        report.dispatched.iter().map(|d| (d.name.clone(), d.entities.clone())).collect();
    assert_eq!(
        dispatched,
        vec![
            ("app".to_string(), vec![1]),
            (frame_event_name(), vec![]),
            (collision_event_name(), vec![4, 5]),
            (collision_event_name(), vec![6]),
            (collider_loads_event_name(), vec![8, 9]),
        ]
    );
    assert!(report.dispatched.iter().all(|d| d.called.len() == 1));
    assert_eq!(report.drained.len(), 1);
    assert_eq!(report.drained[0].name, "msg");
    assert_eq!(
        log.borrow().clone(),
        vec![
            ("app".to_string(), vec![1]),
            (frame_event_name(), vec![]),
            (collision_event_name(), vec![4, 5]),
            (collision_event_name(), vec![6]),
            (collider_loads_event_name(), vec![8, 9]),
            ("msg".to_string(), vec![3]),
        ]
    );
    assert!(host.pending_messages.is_empty());
    assert_eq!(host.time, 10);
}

#[test]
fn tick_skips_missing_physics_and_empty_collider_batch() {
    let mut host: Host<Script> = Host::new();
    let (guest, log) = script(Box::new(|name: &str| {
        if name == module_load_event_name() {
            Ok(vec![
                GuestRequest::Subscribe(collision_event_name()),
                GuestRequest::Subscribe(collider_loads_event_name()),
            ])
        } else {
            Ok(vec![])
        }
    }));
    start(&mut host, "m", guest);
    log.borrow_mut().clear();
    tick(&mut host, 1);
    let report = host.tick(2, vec![], Some(vec![]), Some(vec![]));
    assert_eq!(report.dispatched.len(), 1);
    assert_eq!(report.dispatched[0].name, frame_event_name());
    assert_eq!(names(&log), vec![frame_event_name(), frame_event_name()]);
}

#[test]
fn messages_sent_during_drain_wait_for_next_drain() {
    let mut host: Host<Script> = Host::new();
    let (guest, log) = script(Box::new(|name: &str| {
        if name == module_load_event_name() {
            Ok(vec![GuestRequest::Subscribe("ping".to_string())])
        } else if name == "ping" {
            Ok(vec![GuestRequest::Send("ping".to_string(), EventData { entities: vec![] })])
        } else {
            Ok(vec![])
        }
    }));
    start(&mut host, "m", guest);
    host.queue_message("ping", EventData { entities: vec![] });
    assert_eq!(host.run_pending().len(), 1);
    assert_eq!(host.pending_messages.len(), 1);
    assert_eq!(names(&log).iter().filter(|n| n.as_str() == "ping").count(), 1);
}

#[test]
fn module_names_are_kept() {
    let mut host: Host<Script> = Host::new();
    let a = host.spawn_module("alpha".to_string(), "first".to_string(), false);
    let b = host.spawn_module("beta".to_string(), String::new(), true);
    assert_ne!(a, b);
    assert_eq!(host.get_module_name(a), Some("alpha".to_string()));
    assert_eq!(host.get_module_name(b), Some("beta".to_string()));
    assert_eq!(host.get_module_name(b + 1), None);
    let m = &host.modules[index(&host, a)];
    assert_eq!(m.description, "first");
    assert!(!m.enabled && m.errors.is_empty() && m.bytecode.is_empty() && m.remote_paired_id.is_none());
}

#[test]
fn pairing_tolerates_a_missing_counterpart() {
    let mut host: Host<Script> = Host::new();
    let server = host.spawn_module("server".to_string(), String::new(), true);
    let client = host.spawn_module("client".to_string(), String::new(), true);
    assert_eq!(host.remote_pair(server), None);
    host.set_remote_paired_id(server, Some(client));
    assert_eq!(host.remote_pair(server), Some(index(&host, client)));
    assert_eq!(host.modules[index(&host, server)].remote_paired_id, Some(client));
    host.set_remote_paired_id(client, Some(500));
    assert_eq!(host.remote_pair(client), None);
    assert_eq!(host.remote_pair(900), None);
    host.set_remote_paired_id(server, None);
    assert_eq!(host.remote_pair(server), None);
}

#[test]
fn reload_all_restarts_enabled_modules() {
    let mut host: Host<Script> = Host::new();
    let (guest, _) = quiet();
    let a = start(&mut host, "a", guest);
    let off = host.spawn_module("off".to_string(), String::new(), false);
    host.set_bytecode(off, vec![5]);
    let empty = host.spawn_module("empty".to_string(), String::new(), true);
    let started = host.reload_all();
    let modules: Vec<u64> = started.iter().map(|r| r.module).collect();
    assert_eq!(modules, vec![a]);
    assert!(!running(&host, a));
    assert!(!running(&host, off) && !running(&host, empty));
    assert_eq!(notices_of(&host, MessageType::Info), vec!["Unloaded (reason: reloading)".to_string()]);
}

#[test]
fn subscribing_between_send_and_drain_is_not_called() {
    let mut host: Host<Script> = Host::new();
    let (guest, log) = quiet();
    let id = start(&mut host, "late", guest);
    host.queue_message("X", EventData { entities: vec![1] });
    let i = index(&host, id);
    host.modules[i].state.as_mut().unwrap().listen_to_event("X");
    let delivered = host.run_pending();
    assert_eq!(delivered.len(), 1);
    assert!(delivered[0].called.is_empty());
    assert!(log.borrow().iter().all(|(n, _)| n != "X"));
    host.queue_message("X", EventData { entities: vec![2] });
    assert_eq!(host.run_pending()[0].called, vec![id]);
}

#[test]
fn failing_unload_dispatch_is_reported() {
    let mut host: Host<Script> = Host::new();
    let (guest, _) = script(Box::new(|name: &str| {
        if name == module_load_event_name() {
            Ok(vec![GuestRequest::Subscribe(module_unload_event_name())])
        } else if name == module_unload_event_name() {
            Err("cleanup failed".to_string())
        } else {
            Ok(vec![])
        }
    }));
    let id = start(&mut host, "m", guest);
    let outcome = host.unload(id, "test");
    assert_eq!(outcome, Some(Err("cleanup failed".to_string())));
    assert!(!running(&host, id));
    assert!(host.modules[index(&host, id)].errors.is_empty());
    let texts: Vec<(MessageType, String)> =
        host.notices.iter().map(|n| (n.kind, n.text.clone())).collect();
    assert_eq!(
        texts,
        vec![
            (MessageType::Error, "Runtime error: cleanup failed".to_string()),
            (MessageType::Info, "Unloaded (reason: test)".to_string()),
        ]
    );
}

#[test]
fn messages_sent_while_unloading_are_queued() {
    let mut host: Host<Script> = Host::new();
    let (listener, listener_log) = script(Box::new(|name: &str| {
        if name == module_load_event_name() {
            Ok(vec![GuestRequest::Subscribe("bye".to_string())])
        } else {
            Ok(vec![])
        }
    }));
    let (leaver, _) = script(Box::new(|name: &str| {
        if name == module_load_event_name() {
            Ok(vec![GuestRequest::Subscribe(module_unload_event_name())])
        } else if name == module_unload_event_name() {
            Ok(vec![
                GuestRequest::Send("bye".to_string(), EventData { entities: vec![3] }),
                GuestRequest::Send("dims/bye".to_string(), EventData { entities: vec![4] }),
                GuestRequest::Spawn(false),
            ])
        } else {
            Ok(vec![])
        }
    }));
    let listener_id = start(&mut host, "listener", listener);
    let leaver_id = start(&mut host, "leaver", leaver);
    let entities_before = host.entities.len();
    assert_eq!(host.unload(leaver_id, "done"), Some(Ok(())));
    assert_eq!(host.entities.len(), entities_before);
    assert_eq!(host.pending_messages.len(), 1);
    assert_eq!(host.pending_messages[0].audience, vec![listener_id]);
    host.run_pending();
    assert_eq!(listener_log.borrow().last().unwrap(), &("bye".to_string(), vec![3]));
}

#[test]
fn guest_requests_are_carried_out_in_order() {
    let mut host: Host<Script> = Host::new();
    let (guest, _) = script(Box::new(|name: &str| {
        if name == module_load_event_name() {
            Ok(vec![
                GuestRequest::Spawn(true),
                GuestRequest::Send("a".to_string(), EventData { entities: vec![1] }),
                GuestRequest::Subscribe("a".to_string()),
                GuestRequest::Send("b".to_string(), EventData { entities: vec![2] }),
                GuestRequest::Spawn(false),
            ])
        } else {
            Ok(vec![])
        }
    }));
    let id = start(&mut host, "m", guest);
    let state = host.modules[index(&host, id)].state.as_ref().unwrap();
    assert_eq!(state.spawned_entities, vec![id + 1, id + 2]);
    assert!(state.supports_event("a"));
    assert!(state.shared.events.is_empty());
    let queued: Vec<(String, Vec<u64>)> = host
        .pending_messages
        .iter()
        .map(|m| (m.name.clone(), m.audience.clone()))
        .collect();
    assert_eq!(queued, vec![("a".to_string(), vec![id]), ("b".to_string(), vec![])]);
    assert!(host.entities[1].persistent && !host.entities[2].persistent);
    assert_eq!(host.next_id, id + 3);
}
