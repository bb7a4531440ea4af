//! The world that modules live in: records, entities, notices and queued
//! messages.
use vstd::prelude::*;

use crate::event::is_debug_name;
use crate::module::EntityRecord;
use crate::module::EventData;
use crate::module::Guest;
use crate::module::MessageType;
use crate::module::Module;
use crate::module::Notice;
use crate::module::MAXIMUM_ERROR_COUNT;

verus! {

/// Name of the per-tick event.
pub open spec fn frame_event() -> Seq<char> {
    "core/module_message/frame"@
}

/// Name of the event sent once to a freshly installed instance.
pub open spec fn module_load_event() -> Seq<char> {
    "core/module_message/module_load"@
}

/// Name of the event sent to an instance just before it is torn down.
pub open spec fn module_unload_event() -> Seq<char> {
    "core/module_message/module_unload"@
}

/// Name of the event sent for each colliding pair of actors.
pub open spec fn collision_event() -> Seq<char> {
    "core/module_message/collision"@
}

/// Name of the event that lists entities whose colliders finished loading.
pub open spec fn collider_loads_event() -> Seq<char> {
    "core/module_message/collider_loads"@
}

pub fn frame_event_name() -> (r: String)
    ensures
        r@ == frame_event(),
{
    String::from_str("core/module_message/frame")
}

pub fn module_load_event_name() -> (r: String)
    ensures
        r@ == module_load_event(),
{
    String::from_str("core/module_message/module_load")
}

pub fn module_unload_event_name() -> (r: String)
    ensures
        r@ == module_unload_event(),
{
    String::from_str("core/module_message/module_unload")
}

pub fn collision_event_name() -> (r: String)
    ensures
        r@ == collision_event(),
{
    String::from_str("core/module_message/collision")
}

pub fn collider_loads_event_name() -> (r: String)
    ensures
        r@ == collider_loads_event(),
{
    String::from_str("core/module_message/collider_loads")
}

/// A notice as plain values.
pub open spec fn notice_view(n: Notice) -> (u64, MessageType, Seq<char>) {
    (n.module, n.kind, n.text@)
}

/// Whether entity `e` outlives the unload of a module that spawned `spawned`.
pub open spec fn survives(e: EntityRecord, spawned: Seq<u64>) -> bool {
    !(spawned.contains(e.id) && !e.persistent)
}

/// The entities that an unload keeps.
pub open spec fn keeps(spawned: Seq<u64>) -> spec_fn(EntityRecord) -> bool {
    |e: EntityRecord| survives(e, spawned)
}

/// Whether `a` is an initial part of `b`.
pub open spec fn is_prefix<T>(a: Seq<T>, b: Seq<T>) -> bool {
    a.len() <= b.len() && b.subrange(0, a.len() as int) == a
}

/// Whether a push onto `errors` would exceed the error limit.
pub open spec fn would_overflow(errors: Seq<String>) -> bool {
    errors.len() + 1 > MAXIMUM_ERROR_COUNT
}

/// The fields of a module record that lifecycle transitions leave alone.
pub open spec fn same_record<G>(a: Module<G>, b: Module<G>) -> bool {
    &&& a.id == b.id
    &&& a.name == b.name
    &&& a.description == b.description
    &&& a.bytecode == b.bytecode
    &&& a.enabled == b.enabled
    &&& a.remote_paired_id == b.remote_paired_id
    &&& a.load_stamp == b.load_stamp
    &&& a.changed == b.changed
}

/// A message waiting for delivery, with the modules that listened to its
/// name when it was sent: only those receive it.
pub struct QueuedMessage {
    pub name: String,
    pub data: EventData,
    pub audience: Vec<u64>,
}

/// The simulation world as far as guest modules are concerned.
pub struct Host<G> {
    pub modules: Vec<Module<G>>,
    pub entities: Vec<EntityRecord>,
    pub notices: Vec<Notice>,
    pub pending_messages: Vec<QueuedMessage>,
    /// The next entity id to hand out.
    pub next_id: u64,
    /// Current simulation time, in microseconds since start.
    pub time: u64,
}

impl<G: Guest> Host<G> {
    pub open spec fn notice_log(&self) -> Seq<(u64, MessageType, Seq<char>)> {
        self.notices@.map_values(|n: Notice| notice_view(n))
    }

    pub open spec fn wf(&self) -> bool {
        &&& forall|i: int, j: int|
            0 <= i < j < self.modules@.len() ==> #[trigger] self.modules@[i].id
                != #[trigger] self.modules@[j].id
        &&& forall|i: int| 0 <= i < self.modules@.len() ==> #[trigger] self.modules@[i].wf()
        &&& forall|i: int|
            0 <= i < self.modules@.len() ==> #[trigger] self.modules@[i].id < self.next_id
        &&& forall|i: int|
            0 <= i < self.entities@.len() ==> #[trigger] self.entities@[i].id < self.next_id
        &&& forall|i: int|
            0 <= i < self.pending_messages@.len() ==> !is_debug_name(
                #[trigger] self.pending_messages@[i].name@,
            )
    }

    /// Index of the module with identity `id`.
    pub open spec fn index_of(&self, id: u64) -> int {
        choose|i: int| 0 <= i < self.modules@.len() && self.modules@[i].id == id
    }

    pub open spec fn has_module(&self, id: u64) -> bool {
        exists|i: int| 0 <= i < self.modules@.len() && self.modules@[i].id == id
    }

    /// A host with no modules, entities or messages.
    pub fn new() -> (r: Self)
        ensures
            r.wf(),
            r.modules@.len() == 0,
            r.entities@.len() == 0,
            r.notices@.len() == 0,
            r.pending_messages@.len() == 0,
            r.next_id == 0,
            r.time == 0,
    {
        Host {
            modules: Vec::new(),
            entities: Vec::new(),
            notices: Vec::new(),
            pending_messages: Vec::new(),
            next_id: 0,
            time: 0,
        }
    }

    /// Position of the module with identity `id`.
    pub fn find_module(&self, id: u64) -> (r: Option<usize>)
        requires
            self.wf(),
        ensures
            r is None <==> !self.has_module(id),
            r matches Some(i) ==> i < self.modules@.len() && self.modules@[i as int].id == id
                && i == self.index_of(id),
    {
        let mut i: usize = 0;
        while i < self.modules.len()
            invariant
                i <= self.modules@.len(),
                forall|k: int| 0 <= k < i ==> self.modules@[k].id != id,
                self.wf(),
            decreases self.modules@.len() - i,
        {
            if self.modules[i].id == id {
                let ghost j = self.index_of(id);
                assert(0 <= j < self.modules@.len() && self.modules@[j].id == id);
                assert(j == i as int) by {
                    if j < i as int {
                        assert(self.modules@[j].id != id);
                    } else if j > i as int {
                        assert(self.modules@[i as int].id != self.modules@[j].id);
                    }
                }
                return Some(i);
            }
            i = i + 1;
        }
        None
    }

    /// Records a notification for the messenger.
    pub fn notify(&mut self, module: u64, kind: MessageType, text: String)
        ensures
            final(self).notice_log() == old(self).notice_log().push((module, kind, text@)),
            final(self).modules == old(self).modules,
            final(self).entities == old(self).entities,
            final(self).pending_messages == old(self).pending_messages,
            final(self).next_id == old(self).next_id,
            final(self).time == old(self).time,
    {
        self.notices.push(Notice { module, kind, text });
        assert(self.notice_log() =~= old(self).notice_log().push((module, kind, text@)));
    }

    /// Creates a module record with no bytecode and no errors, and the entity
    /// that carries it; returns its identity.
    pub fn spawn_module(&mut self, name: String, description: String, enabled: bool) -> (r: u64)
        requires
            old(self).wf(),
            old(self).next_id < u64::MAX,
        ensures
            final(self).wf(),
            r == old(self).next_id,
            final(self).next_id == r + 1,
            !old(self).has_module(r),
            final(self).modules@.len() == old(self).modules@.len() + 1,
            final(self).modules@.drop_last() == old(self).modules@,
            final(self).index_of(r) == old(self).modules@.len(),
            ({
                let m = final(self).modules@.last();
                &&& m.id == r
                &&& m.name == name
                &&& m.description == description
                &&& m.bytecode@.len() == 0
                &&& m.enabled == enabled
                &&& m.errors@.len() == 0
                &&& m.remote_paired_id is None
                &&& !m.running()
                &&& m.load_stamp == 0
                &&& m.changed
            }),
            final(self).entities@ == old(self).entities@.push(EntityRecord { id: r, persistent: false }),
            final(self).notices == old(self).notices,
            final(self).pending_messages == old(self).pending_messages,
            final(self).time == old(self).time,
    {
        let id = self.next_id;
        self.modules.push(
            Module {
                id,
                name,
                description,
                bytecode: Vec::new(),
                enabled,
                errors: Vec::new(),
                remote_paired_id: None,
                state: None,
                load_stamp: 0,
                changed: true,
            },
        );
        self.entities.push(EntityRecord { id, persistent: false });
        self.next_id = id + 1;
        let ghost n = self.modules@.len() - 1;
        assert(self.modules@.drop_last() =~= old(self).modules@);
        assert(self.modules@[n].id == id);
        assert(self.index_of(id) == n) by {
            let j = self.index_of(id);
            if j != n {
                assert(old(self).modules@[j].id < id);
            }
        }
        proof {
            lemma_next_id_fresh(old(self), id);
        }
        id
    }

    /// The name of module `id`.
    pub fn get_module_name(&self, id: u64) -> (r: Option<String>)
        requires
            self.wf(),
        ensures
            r is None <==> !self.has_module(id),
            r matches Some(n) ==> n@ == self.modules@[self.index_of(id)].name@,
    {
        match self.find_module(id) {
            None => None,
            Some(i) => Some(self.modules[i].name.clone()),
        }
    }

    /// Sets the desired run state of module `id`; the next tick acts on it.
    pub fn set_enabled(&mut self, id: u64, enabled: bool)
        requires
            old(self).wf(),
        ensures
            final(self).wf(),
            final(self).modules@.len() == old(self).modules@.len(),
            !old(self).has_module(id) ==> *final(self) == *old(self),
            old(self).has_module(id) ==> {
                let i = old(self).index_of(id);
                &&& final(self).modules@[i] == (Module {
                    enabled,
                    changed: true,
                    ..old(self).modules@[i]
                })
                &&& forall|j: int|
                    0 <= j < old(self).modules@.len() && j != i ==> final(self).modules@[j]
                        == old(self).modules@[j]
            },
            final(self).entities == old(self).entities,
            final(self).notices == old(self).notices,
            final(self).pending_messages == old(self).pending_messages,
            final(self).next_id == old(self).next_id,
            final(self).time == old(self).time,
    {
        if let Some(i) = self.find_module(id) {
            let ghost before = self.modules@[i as int];
            assert(before.wf());
            self.modules[i].enabled = enabled;
            self.modules[i].changed = true;
            assert(self.modules@[i as int].state == before.state);
            assert(self.modules@[i as int].errors == before.errors);
        }
    }

    /// Replaces the bytecode of module `id`; takes effect on its next load.
    pub fn set_bytecode(&mut self, id: u64, bytecode: Vec<u8>)
        requires
            old(self).wf(),
        ensures
            final(self).wf(),
            final(self).modules@.len() == old(self).modules@.len(),
            !old(self).has_module(id) ==> *final(self) == *old(self),
            old(self).has_module(id) ==> {
                let i = old(self).index_of(id);
                &&& final(self).modules@[i] == (Module {
                    bytecode,
                    changed: true,
                    ..old(self).modules@[i]
                })
                &&& forall|j: int|
                    0 <= j < old(self).modules@.len() && j != i ==> final(self).modules@[j]
                        == old(self).modules@[j]
            },
            final(self).entities == old(self).entities,
            final(self).notices == old(self).notices,
            final(self).pending_messages == old(self).pending_messages,
            final(self).next_id == old(self).next_id,
            final(self).time == old(self).time,
    {
        if let Some(i) = self.find_module(id) {
            let ghost before = self.modules@[i as int];
            assert(before.wf());
            self.modules[i].bytecode = bytecode;
            self.modules[i].changed = true;
            assert(self.modules@[i as int].state == before.state);
            assert(self.modules@[i as int].errors == before.errors);
        }
    }

    /// Links module `id` to its counterpart on the other side, or unlinks it.
    pub fn set_remote_paired_id(&mut self, id: u64, paired: Option<u64>)
        requires
            old(self).wf(),
        ensures
            final(self).wf(),
            final(self).modules@.len() == old(self).modules@.len(),
            !old(self).has_module(id) ==> *final(self) == *old(self),
            old(self).has_module(id) ==> {
                let i = old(self).index_of(id);
                &&& final(self).modules@[i] == (Module {
                    remote_paired_id: paired,
                    ..old(self).modules@[i]
                })
                &&& forall|j: int|
                    0 <= j < old(self).modules@.len() && j != i ==> final(self).modules@[j]
                        == old(self).modules@[j]
            },
            final(self).entities == old(self).entities,
            final(self).notices == old(self).notices,
            final(self).pending_messages == old(self).pending_messages,
            final(self).next_id == old(self).next_id,
            final(self).time == old(self).time,
    {
        if let Some(i) = self.find_module(id) {
            let ghost before = self.modules@[i as int];
            assert(before.wf());
            self.modules[i].remote_paired_id = paired;
            assert(self.modules@[i as int].state == before.state);
            assert(self.modules@[i as int].errors == before.errors);
        }
    }

    /// Position of the counterpart of module `id`, when `id` names one and it
    /// still exists.
    pub fn remote_pair(&self, id: u64) -> (r: Option<usize>)
        requires
            self.wf(),
        ensures
            r is Some <==> self.has_module(id) && (self.modules@[self.index_of(id)].remote_paired_id
                matches Some(p) && self.has_module(p)),
            r matches Some(k) ==> k < self.modules@.len() && Some(self.modules@[k as int].id)
                == self.modules@[self.index_of(id)].remote_paired_id,
    {
        match self.find_module(id) {
            None => None,
            Some(i) => match self.modules[i].remote_paired_id {
                None => None,
                Some(p) => self.find_module(p),
            },
        }
    }

    /// `index_of` finds a module by its position.
    pub(crate) proof fn lemma_index_of(&self, i: int)
        requires
            self.wf(),
            0 <= i < self.modules@.len(),
        ensures
            self.has_module(self.modules@[i].id),
            self.index_of(self.modules@[i].id) == i,
    {
        let id = self.modules@[i].id;
        let j = self.index_of(id);
        if j != i {
            if j < i {
                assert(self.modules@[j].id != self.modules@[i].id);
            } else {
                assert(self.modules@[i].id != self.modules@[j].id);
            }
        }
    }

    /// Removes every entity listed in `spawned` that is not persistent.
    pub(crate) fn despawn_all(&mut self, spawned: &Vec<u64>)
        requires
            old(self).wf(),
        ensures
            final(self).wf(),
            final(self).entities@ == old(self).entities@.filter(keeps(spawned@)),
            final(self).modules == old(self).modules,
            final(self).notices == old(self).notices,
            final(self).pending_messages == old(self).pending_messages,
            final(self).next_id == old(self).next_id,
            final(self).time == old(self).time,
    {
        let mut kept: Vec<EntityRecord> = Vec::new();
        let mut i: usize = 0;
        let ghost ents = self.entities@;
        while i < self.entities.len()
            invariant
                ents == self.entities@,
                i <= ents.len(),
                kept@ == ents.subrange(0, i as int).filter(keeps(spawned@)),
                forall|k: int| 0 <= k < kept@.len() ==> #[trigger] kept@[k].id < self.next_id,
                self.wf(),
            decreases ents.len() - i,
        {
            let e = self.entities[i];
            let listed = contains_id(spawned, e.id);
            proof {
                let s1 = ents.subrange(0, i + 1);
                assert(s1.drop_last() =~= ents.subrange(0, i as int));
                assert(s1.last() == e);
                reveal(Seq::filter);
            }
            if !listed || e.persistent {
                kept.push(e);
            }
            i = i + 1;
        }
        assert(ents.subrange(0, ents.len() as int) =~= ents);
        self.entities = kept;
    }
}

/// No module of a well-formed host carries an id it has not handed out.
proof fn lemma_next_id_fresh<G: Guest>(h: &Host<G>, id: u64)
    requires
        h.wf(),
        id == h.next_id,
    ensures
        !h.has_module(id),
{
    if h.has_module(id) {
        let j = choose|j: int| 0 <= j < h.modules@.len() && h.modules@[j].id == id;
        assert(h.modules@[j].id < h.next_id);
    }
}

pub(crate) proof fn lemma_prefix_trans<T>(a: Seq<T>, b: Seq<T>, c: Seq<T>)
    requires
        is_prefix(a, b),
        is_prefix(b, c),
    ensures
        is_prefix(a, c),
{
    assert(c.subrange(0, a.len() as int) =~= b.subrange(0, a.len() as int));
}

/// Whether `id` is listed in `ids`.
pub fn contains_id(ids: &Vec<u64>, id: u64) -> (r: bool)
    ensures
        r == ids@.contains(id),
{
    let mut i: usize = 0;
    while i < ids.len()
        invariant
            i <= ids@.len(),
            forall|k: int| 0 <= k < i ==> ids@[k] != id,
        decreases ids@.len() - i,
    {
        if ids[i] == id {
            return true;
        }
        i = i + 1;
    }
    false
}

} // verus!
