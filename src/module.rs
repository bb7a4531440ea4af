//! Module records, running instances, and what a guest can ask of the host.
use vstd::prelude::*;

use crate::event::EventSharedState;
use crate::event::is_debug_name;
use crate::event::subscribe;

verus! {

/// The components that describe a module on its host entity, by name.
pub open spec fn component_names() -> Seq<Seq<char>> {
    seq![
        "wasm::shared::module"@,
        "wasm::shared::module_state"@,
        "wasm::shared::module_bytecode"@,
        "wasm::shared::module_enabled"@,
        "wasm::shared::module_errors"@,
        "wasm::shared::remote_paired_id"@,
    ]
}

/// Lists the components that module records are made of, for registration
/// with the host's entity store.
pub fn init_all_components() -> (r: Vec<String>)
    ensures
        r@.len() == component_names().len(),
        forall|k: int| 0 <= k < r@.len() ==> #[trigger] r@[k]@ == component_names()[k],
{
    let mut r: Vec<String> = Vec::new();
    r.push(String::from_str("wasm::shared::module"));
    r.push(String::from_str("wasm::shared::module_state"));
    r.push(String::from_str("wasm::shared::module_bytecode"));
    r.push(String::from_str("wasm::shared::module_enabled"));
    r.push(String::from_str("wasm::shared::module_errors"));
    r.push(String::from_str("wasm::shared::remote_paired_id"));
    r
}

/// Number of accumulated errors a module tolerates; one more forces an
/// unload.
pub const MAXIMUM_ERROR_COUNT: usize = 5;

/// Classification of a notification sent to the host's messenger.
#[derive(Clone, Copy, Debug, PartialEq, Eq, PartialOrd, Ord, Structural)]
pub enum MessageType {
    Info,
    Warn,
    Error,
    Stdout,
    Stderr,
}

/// A structured event payload: the entities it refers to.
#[derive(Debug)]
pub struct EventData {
    pub entities: Vec<u64>,
}

/// Everything a single dispatch hands to a running instance.
pub struct RunContext {
    pub event_name: String,
    pub event_data: EventData,
    /// Simulation time of the dispatch, in microseconds since start.
    pub time: u64,
}

impl RunContext {
    pub fn new(event_name: String, event_data: EventData, time: u64) -> (r: Self)
        ensures
            r.event_name == event_name,
            r.event_data == event_data,
            r.time == time,
    {
        RunContext { event_name, event_data, time }
    }
}

/// What a guest asks of the host while it handles an event.
pub enum GuestRequest {
    /// Listen to an event name from now on.
    Subscribe(String),
    /// Send a message to the other modules and the host.
    Send(String, EventData),
    /// Create an entity; `true` marks it as surviving the module's unload.
    Spawn(bool),
}

/// The sandboxed program instance of a running module.
pub trait Guest {
    /// Handles one event; an `Err` carries the description of a normal
    /// failure or of an abnormal termination of the guest call.
    fn run(&mut self, context: &RunContext) -> Result<Vec<GuestRequest>, String>;
}

/// The live instance of a module and what it has accumulated.
pub struct ModuleState<G> {
    pub shared: EventSharedState<EventData>,
    pub spawned_entities: Vec<u64>,
    pub guest: G,
}

impl<G> ModuleState<G> {
    pub open spec fn wf(&self) -> bool {
        &&& self.shared.wf()
        &&& forall|k: int|
            0 <= k < self.shared.events@.len() ==> !is_debug_name(
                #[trigger] self.shared.events@[k].0@,
            )
    }

    /// A fresh state around `guest`: no subscriptions, nothing spawned.
    pub fn new(guest: G) -> (r: Self)
        ensures
            r.wf(),
            r.shared.subscriptions() == Set::<Seq<char>>::empty(),
            r.shared.events@.len() == 0,
            r.spawned_entities@.len() == 0,
            r.guest == guest,
    {
        ModuleState { shared: EventSharedState::new(), spawned_entities: Vec::new(), guest }
    }

    pub fn listen_to_event(&mut self, name: &str)
        requires
            old(self).wf(),
        ensures
            final(self).wf(),
            final(self).shared.subscriptions() == old(self).shared.subscriptions().insert(name@),
            final(self).shared.events@ == old(self).shared.events@,
            final(self).spawned_entities@ == old(self).spawned_entities@,
            final(self).guest == old(self).guest,
    {
        subscribe(&mut self.shared, name);
    }

    pub fn supports_event(&self, name: &str) -> (r: bool)
        ensures
            r == self.shared.subscriptions().contains(name@),
    {
        self.shared.supports_event(name)
    }

    /// Hands out the spawned entities, leaving none recorded.
    pub fn drain_spawned_entities(&mut self) -> (r: Vec<u64>)
        ensures
            r@ == old(self).spawned_entities@,
            final(self).spawned_entities@.len() == 0,
            final(self).shared == old(self).shared,
            final(self).guest == old(self).guest,
    {
        let mut out: Vec<u64> = Vec::new();
        std::mem::swap(&mut out, &mut self.spawned_entities);
        out
    }
}

/// A guest script bound to one host entity.
pub struct Module<G> {
    pub id: u64,
    pub name: String,
    pub description: String,
    pub bytecode: Vec<u8>,
    pub enabled: bool,
    pub errors: Vec<String>,
    pub remote_paired_id: Option<u64>,
    pub state: Option<ModuleState<G>>,
    /// Stamp of the most recently started compilation.
    pub load_stamp: u64,
    /// Set when `enabled` or the bytecode was written since the last tick
    /// looked at the module.
    pub changed: bool,
}

impl<G> Module<G> {
    pub open spec fn wf(&self) -> bool {
        &&& self.errors@.len() <= MAXIMUM_ERROR_COUNT
        &&& (self.state matches Some(s) ==> s.wf() && s.shared.events@.len() == 0)
    }

    pub open spec fn running(&self) -> bool {
        self.state is Some
    }
}

/// A notification for the host's messenger.
pub struct Notice {
    pub module: u64,
    pub kind: MessageType,
    pub text: String,
}

/// An entity of the world, as far as module cleanup is concerned.
#[derive(Clone, Copy, Debug, PartialEq, Eq, Structural)]
pub struct EntityRecord {
    pub id: u64,
    /// Survives the unload of the module that spawned it.
    pub persistent: bool,
}

} // verus!
