//! Loading, unloading and reloading modules, and the error policy that
//! unloads a module once its log overflows.
use vstd::prelude::*;

use crate::host::frame_event;
use crate::host::frame_event_name;
use crate::host::is_prefix;
use crate::host::keeps;
use crate::host::lemma_prefix_trans;
use crate::host::module_load_event;
use crate::host::module_load_event_name;
use crate::host::module_unload_event;
use crate::host::module_unload_event_name;
use crate::host::same_record;
use crate::host::would_overflow;
use crate::host::Host;
use crate::dispatch::addressed;
use crate::dispatch::event_views;
use crate::dispatch::new_ids;
use crate::dispatch::new_records;
use crate::dispatch::queued_view;
use crate::dispatch::lemma_same_listeners;
use crate::dispatch::ran;
use crate::dispatch::same_listeners;
use crate::dispatch::sent_by;
use crate::dispatch::snap;
use crate::dispatch::spawn_room;
use crate::dispatch::spawns_by;
use crate::laws::log_after;
use crate::module::EntityRecord;
use crate::module::EventData;
use crate::module::GuestRequest;
use crate::module::Module;
use crate::module::Guest;
use crate::module::MessageType;
use crate::module::ModuleState;
use crate::module::RunContext;
use crate::module::MAXIMUM_ERROR_COUNT;

verus! {

/// Text of the notification that reports a module error.
pub open spec fn error_text(err: Seq<char>) -> Seq<char> {
    "Runtime error: "@ + err
}

/// Text of the notification that reports an unload.
pub open spec fn unload_text(reason: Seq<char>) -> Seq<char> {
    "Unloaded (reason: "@ + reason + ")"@
}

/// The reason given when the error log overflows.
pub open spec fn too_many_errors() -> Seq<char> {
    "too many errors"@
}

/// The reason given when a module is reloaded.
pub open spec fn reloading() -> Seq<char> {
    "reloading"@
}

/// The stamp that follows `s`.
pub open spec fn next_stamp(s: u64) -> u64 {
    if s == u64::MAX {
        0
    } else {
        (s + 1) as u64
    }
}

/// Whether `st` is a freshly installed instance around `guest`.
pub open spec fn is_fresh<G>(st: ModuleState<G>, guest: G) -> bool {
    &&& st.wf()
    &&& st.guest == guest
    &&& st.spawned_entities@.len() == 0
    &&& st.shared.events@.len() == 0
    &&& st.shared.subscriptions() == set![frame_event(), module_load_event()]
}

/// Host `h1` is what unloading module `i` (identity `id`, listening to
/// `subs`, having spawned `spawned`) makes of entities, next id, queued
/// messages and notice log `b`, where the unloading dispatch had outcome `u`
/// and, on success, requests `reqs`.
pub open spec fn unloaded<G: Guest>(
    id: u64,
    subs: Set<Seq<char>>,
    spawned: Seq<u64>,
    b: (Seq<EntityRecord>, u64, Seq<(Seq<char>, EventData, Seq<u64>)>, Seq<(u64, MessageType, Seq<char>)>),
    h1: Host<G>,
    i: int,
    reason: Seq<char>,
    u: Option<Result<(), String>>,
    reqs: Seq<GuestRequest>,
) -> bool {
    let n = spawn_room(b.1, spawns_by(reqs).len());
    let e = h1.modules@[i];
    &&& (u is Some <==> subs.contains(module_unload_event()))
    &&& (u matches Some(Ok(_)) || reqs.len() == 0)
    &&& e.state is None
    &&& e.errors@.len() == 0
    &&& h1.next_id == b.1 + n
    &&& h1.entities@ == (b.0 + new_records(b.1, spawns_by(reqs), n)).filter(
        keeps(spawned + new_ids(b.1, n)),
    )
    &&& queued_view(h1.pending_messages@) == b.2 + addressed(sent_by(reqs), h1.modules@)
    &&& h1.notice_log() == b.3 + (if u is Some && u->Some_0 is Err {
        seq![(id, MessageType::Error, error_text(u->Some_0->Err_0@))]
    } else {
        Seq::empty()
    }) + seq![(id, MessageType::Info, unload_text(reason))]
}

/// An unload only adds to the queue.
pub proof fn lemma_unloaded_keeps_queue<G: Guest>(
    id: u64,
    subs: Set<Seq<char>>,
    spawned: Seq<u64>,
    b: (Seq<EntityRecord>, u64, Seq<(Seq<char>, EventData, Seq<u64>)>, Seq<(u64, MessageType, Seq<char>)>),
    h1: Host<G>,
    i: int,
    reason: Seq<char>,
    u: Option<Result<(), String>>,
    reqs: Seq<GuestRequest>,
)
    requires
        unloaded(id, subs, spawned, b, h1, i, reason, u, reqs),
    ensures
        is_prefix(b.2, queued_view(h1.pending_messages@)),
{
    assert(queued_view(h1.pending_messages@).subrange(0, b.2.len() as int) =~= b.2);
}

/// The requests and their bytecode as plain values.
pub open spec fn load_view(r: Seq<LoadRequest>) -> Seq<(u64, Seq<u8>)> {
    r.map_values(|q: LoadRequest| (q.module, q.bytecode@))
}

/// Whether a reload of `m` starts a compilation.
pub open spec fn loads<G>(m: Module<G>) -> bool {
    m.enabled && m.bytecode@.len() > 0
}

/// Whether the tick reloads `m`: it was written and its desired run state
/// differs from whether it runs.
pub open spec fn triggered<G>(m: Module<G>) -> bool {
    m.changed && m.enabled != m.running()
}

/// The compilations that reloading every module of `ms` starts, in order.
pub open spec fn all_plan<G>(ms: Seq<Module<G>>) -> Seq<(u64, Seq<u8>)>
    decreases ms.len(),
{
    if ms.len() == 0 {
        Seq::empty()
    } else {
        let rest = all_plan(ms.drop_last());
        if loads(ms.last()) {
            rest.push((ms.last().id, ms.last().bytecode@))
        } else {
            rest
        }
    }
}

/// The compilations that reloading the triggered modules of `ms` starts.
pub open spec fn changed_plan<G>(ms: Seq<Module<G>>) -> Seq<(u64, Seq<u8>)>
    decreases ms.len(),
{
    if ms.len() == 0 {
        Seq::empty()
    } else {
        let rest = changed_plan(ms.drop_last());
        if triggered(ms.last()) && loads(ms.last()) {
            rest.push((ms.last().id, ms.last().bytecode@))
        } else {
            rest
        }
    }
}

/// A compilation that the host has asked for and that has not come back yet.
pub struct LoadRequest {
    pub module: u64,
    pub bytecode: Vec<u8>,
    pub stamp: u64,
}

impl<G: Guest> Host<G> {
    /// Tears down the running instance of module `id`, if there is one, and
    /// returns the outcome of its unloading dispatch.
    ///
    /// The instance first receives the unloading event when it listens to it:
    /// a failure is reported as an error, and the requests of a success are
    /// carried out. Then the error log is cleared, the instance removed,
    /// every entity it spawned that is not persistent despawned, an
    /// informational notice that gives `reason` recorded, and the messages it
    /// sent queued.
    pub fn unload(&mut self, id: u64, reason: &str) -> (r: Option<Result<(), String>>)
        requires
            old(self).wf(),
        ensures
            final(self).wf(),
            final(self).modules@.len() == old(self).modules@.len(),
            final(self).time == old(self).time,
            !(old(self).has_module(id) && old(self).modules@[old(self).index_of(id)].running())
                ==> *final(self) == *old(self) && r is None,
            old(self).has_module(id) && old(self).modules@[old(self).index_of(id)].running() ==> {
                let i = old(self).index_of(id);
                let m = old(self).modules@[i];
                &&& forall|j: int|
                    0 <= j < old(self).modules@.len() && j != i ==> final(self).modules@[j]
                        == old(self).modules@[j]
                &&& same_record(final(self).modules@[i], m)
                &&& exists|reqs: Seq<GuestRequest>|
                    unloaded(
                        id,
                        m.state.unwrap().shared.subscriptions(),
                        m.state.unwrap().spawned_entities@,
                        (
                            old(self).entities@,
                            old(self).next_id,
                            queued_view(old(self).pending_messages@),
                            old(self).notice_log(),
                        ),
                        *final(self),
                        i,
                        reason@,
                        r,
                        reqs,
                    )
            },
    {
        let i = match self.find_module(id) {
            None => return None,
            Some(i) => i,
        };
        if self.modules[i].state.is_none() {
            return None;
        }
        let ghost m = self.modules@[i as int];
        assert(m.wf());
        let mut state = self.modules[i].state.take().unwrap();
        let name = module_unload_event_name();
        let mut outgoing: Vec<(String, EventData)> = Vec::new();
        let mut outcome: Option<Result<(), String>> = None;
        let ghost mut reqs: Seq<GuestRequest> = Seq::empty();
        let ghost ents0 = self.entities@;
        let ghost next0 = self.next_id;
        proof {
            assert(ents0 =~= ents0 + new_records(next0, spawns_by(reqs), 0));
            assert(state.spawned_entities@ =~= state.spawned_entities@ + new_ids(next0, 0));
            assert(event_views(outgoing@) =~= sent_by(reqs));
        }
        if state.supports_event(name.as_str()) {
            let context = RunContext::new(name, EventData { entities: Vec::new() }, self.time);
            match state.guest.run(&context) {
                Ok(requests) => {
                    proof {
                        reqs = requests@;
                    }
                    self.apply_requests(&mut state, requests);
                    std::mem::swap(&mut outgoing, &mut state.shared.events);
                    assert(event_views(outgoing@) =~= sent_by(reqs)) by {
                        assert(event_views(m.state.unwrap().shared.events@) =~= Seq::empty());
                    }
                    outcome = Some(Ok(()));
                },
                Err(e) => {
                    let text = error_notice_text(e.as_str());
                    self.notify(id, MessageType::Error, text);
                    outcome = Some(Err(e));
                },
            }
        }
        let ghost spawned_all = state.spawned_entities@;
        let ghost ents1 = self.entities@;
        let ghost log_mid = self.notice_log();
        let ghost next1 = self.next_id;
        let ghost pend1 = self.pending_messages@;
        proof {
            let n = spawn_room(next0, spawns_by(reqs).len());
            assert(spawned_all == m.state.unwrap().spawned_entities@ + new_ids(next0, n));
            assert(ents1 == ents0 + new_records(next0, spawns_by(reqs), n));
            assert(next1 == next0 + n);
            assert(pend1 == old(self).pending_messages@);
            assert(outcome is Some <==> m.state.unwrap().shared.subscriptions().contains(
                module_unload_event(),
            ));
        }
        let spawned = state.drain_spawned_entities();
        let ghost before = self.modules@[i as int];
        self.modules[i].errors.clear();
        assert(self.modules@[i as int].state is None);
        self.despawn_all(&spawned);
        let text = unload_notice_text(reason);
        self.notify(id, MessageType::Info, text);
        self.enqueue_all(outgoing);
        proof {
            assert(same_record(self.modules@[i as int], m));
            if outcome is Some && outcome->Some_0 is Err {
                assert(self.notice_log() =~= old(self).notice_log() + seq![
                    (id, MessageType::Error, error_text(outcome->Some_0->Err_0@)),
                ] + seq![(id, MessageType::Info, unload_text(reason@))]);
            } else {
                assert(self.notice_log() =~= old(self).notice_log() + Seq::empty() + seq![
                    (id, MessageType::Info, unload_text(reason@)),
                ]);
            }
            assert(unloaded(
                id,
                m.state.unwrap().shared.subscriptions(),
                m.state.unwrap().spawned_entities@,
                (
                    old(self).entities@,
                    old(self).next_id,
                    queued_view(old(self).pending_messages@),
                    old(self).notice_log(),
                ),
                *self,
                i as int,
                reason@,
                outcome,
                reqs,
            ));
        }
        outcome
    }

    /// Reports a failure of module `id` and logs it.
    ///
    /// When the log would exceed the error limit the log is emptied instead,
    /// and a running module is unloaded with the reason "too many errors".
    pub fn update_errors(&mut self, id: u64, err: String)
        requires
            old(self).wf(),
        ensures
            final(self).wf(),
            final(self).modules@.len() == old(self).modules@.len(),
            final(self).time == old(self).time,
            !old(self).has_module(id) ==> {
                &&& final(self).modules == old(self).modules
                &&& final(self).entities == old(self).entities
                &&& final(self).next_id == old(self).next_id
                &&& final(self).pending_messages == old(self).pending_messages
                &&& final(self).notice_log() == old(self).notice_log().push(
                    (id, MessageType::Error, error_text(err@)),
                )
            },
            old(self).has_module(id) ==> {
                let i = old(self).index_of(id);
                let m = old(self).modules@[i];
                let log1 = old(self).notice_log().push((id, MessageType::Error, error_text(err@)));
                &&& forall|j: int|
                    0 <= j < old(self).modules@.len() && j != i ==> final(self).modules@[j]
                        == old(self).modules@[j]
                &&& same_record(final(self).modules@[i], m)
                &&& final(self).modules@[i].errors@ == log_after(m.errors@, err)
                &&& if would_overflow(m.errors@) && m.running() {
                    exists|u: Option<Result<(), String>>, reqs: Seq<GuestRequest>|
                        unloaded(
                            id,
                            m.state.unwrap().shared.subscriptions(),
                            m.state.unwrap().spawned_entities@,
                            (
                                old(self).entities@,
                                old(self).next_id,
                                queued_view(old(self).pending_messages@),
                                log1,
                            ),
                            *final(self),
                            i,
                            too_many_errors(),
                            u,
                            reqs,
                        )
                } else {
                    &&& final(self).modules@[i].state == m.state
                    &&& final(self).entities == old(self).entities
                    &&& final(self).next_id == old(self).next_id
                    &&& final(self).pending_messages == old(self).pending_messages
                    &&& final(self).notice_log() == log1
                }
            },
    {
        let text = error_notice_text(err.as_str());
        self.notify(id, MessageType::Error, text);
        match self.find_module(id) {
            None => {},
            Some(i) => {
                let ghost before = self.modules@[i as int];
                assert(before.wf());
                if self.modules[i].errors.len() >= MAXIMUM_ERROR_COUNT {
                    if self.modules[i].state.is_some() {
                        let ghost log1 = self.notice_log();
                        let ghost pre = *self;
                        let outcome = self.unload(id, "too many errors");
                        assert(self.modules@[i as int].errors@ =~= log_after(before.errors@, err));
                        proof {
                            let reqs = choose|reqs: Seq<GuestRequest>|
                                unloaded(
                                    id,
                                    before.state.unwrap().shared.subscriptions(),
                                    before.state.unwrap().spawned_entities@,
                                    (
                                        pre.entities@,
                                        pre.next_id,
                                        queued_view(pre.pending_messages@),
                                        log1,
                                    ),
                                    *self,
                                    i as int,
                                    too_many_errors(),
                                    outcome,
                                    reqs,
                                );
                            assert(unloaded(
                                id,
                                before.state.unwrap().shared.subscriptions(),
                                before.state.unwrap().spawned_entities@,
                                (
                                    old(self).entities@,
                                    old(self).next_id,
                                    queued_view(old(self).pending_messages@),
                                    log1,
                                ),
                                *self,
                                i as int,
                                too_many_errors(),
                                outcome,
                                reqs,
                            ));
                        }
                    } else {
                        self.modules[i].errors.clear();
                        assert(self.modules@[i as int].state == before.state);
                        assert(self.modules@[i as int].errors@ =~= log_after(before.errors@, err));
                    }
                } else {
                    self.modules[i].errors.push(err);
                    assert(self.modules@[i as int].state == before.state);
                    assert(self.modules@[i as int].errors@.len() <= MAXIMUM_ERROR_COUNT);
                }
                assert(self.modules@[i as int].wf());
                assert forall|j: int| 0 <= j < self.modules@.len() implies #[trigger] self.modules@[j].id
                    < self.next_id by {
                    if j != i {
                    }
                }
            },
        }
    }

    /// Starts a compilation of module `i`: a new load stamp and a copy of its
    /// bytecode.
    pub(crate) fn load(&mut self, i: usize) -> (r: LoadRequest)
        requires
            old(self).wf(),
            i < old(self).modules@.len(),
        ensures
            final(self).wf(),
            final(self).modules@.len() == old(self).modules@.len(),
            forall|j: int|
                0 <= j < old(self).modules@.len() && j != i ==> final(self).modules@[j]
                    == old(self).modules@[j],
            final(self).modules@[i as int].load_stamp == next_stamp(
                old(self).modules@[i as int].load_stamp,
            ),
            final(self).modules@[i as int].load_stamp == r.stamp,
            final(self).modules@[i as int].state == old(self).modules@[i as int].state,
            final(self).modules@[i as int].errors == old(self).modules@[i as int].errors,
            final(self).modules@[i as int].id == old(self).modules@[i as int].id,
            final(self).modules@[i as int].name == old(self).modules@[i as int].name,
            final(self).modules@[i as int].description == old(self).modules@[i as int].description,
            final(self).modules@[i as int].bytecode == old(self).modules@[i as int].bytecode,
            final(self).modules@[i as int].enabled == old(self).modules@[i as int].enabled,
            final(self).modules@[i as int].changed == old(self).modules@[i as int].changed,
            final(self).modules@[i as int].remote_paired_id == old(
                self,
            ).modules@[i as int].remote_paired_id,
            r.module == old(self).modules@[i as int].id,
            r.bytecode@ == old(self).modules@[i as int].bytecode@,
            final(self).entities == old(self).entities,
            final(self).notices == old(self).notices,
            final(self).pending_messages == old(self).pending_messages,
            final(self).next_id == old(self).next_id,
            final(self).time == old(self).time,
    {
        let stamp = if self.modules[i].load_stamp == u64::MAX {
            0
        } else {
            self.modules[i].load_stamp + 1
        };
        let ghost before = self.modules@[i as int];
        assert(before.wf());
        self.modules[i].load_stamp = stamp;
        assert(self.modules@[i as int].state == before.state);
        assert(self.modules@[i as int].errors == before.errors);
        let mut copy: Vec<u8> = Vec::new();
        let mut k: usize = 0;
        while k < self.modules[i].bytecode.len()
            invariant
                i < self.modules@.len(),
                k <= self.modules@[i as int].bytecode@.len(),
                copy@ == self.modules@[i as int].bytecode@.subrange(0, k as int),
            decreases self.modules@[i as int].bytecode@.len() - k,
        {
            copy.push(self.modules[i].bytecode[k]);
            k = k + 1;
            assert(copy@ =~= self.modules@[i as int].bytecode@.subrange(0, k as int));
        }
        assert(copy@ =~= self.modules@[i as int].bytecode@);
        LoadRequest { module: self.modules[i].id, bytecode: copy, stamp }
    }

    /// Unloads module `id` if it runs, clears its error log, and starts a new
    /// compilation when it is enabled and has bytecode.
    pub fn reload(&mut self, id: u64) -> (r: Option<LoadRequest>)
        requires
            old(self).wf(),
        ensures
            final(self).wf(),
            final(self).modules@.len() == old(self).modules@.len(),
            final(self).time == old(self).time,
            !old(self).has_module(id) ==> *final(self) == *old(self) && r is None,
            old(self).has_module(id) ==> {
                let i = old(self).index_of(id);
                let m = old(self).modules@[i];
                let n = final(self).modules@[i];
                &&& forall|j: int|
                    0 <= j < old(self).modules@.len() && j != i ==> final(self).modules@[j]
                        == old(self).modules@[j]
                &&& n.errors@.len() == 0
                &&& !n.running()
                &&& n.id == m.id
                &&& n.name == m.name
                &&& n.description == m.description
                &&& n.bytecode == m.bytecode
                &&& n.enabled == m.enabled
                &&& n.remote_paired_id == m.remote_paired_id
                &&& n.changed == m.changed
                &&& (r is Some <==> loads(m))
                &&& (r is None ==> n.load_stamp == m.load_stamp)
                &&& (r matches Some(q) ==> q.module == id && q.bytecode@ == m.bytecode@ && q.stamp
                    == n.load_stamp && n.load_stamp == next_stamp(m.load_stamp))
                &&& if m.running() {
                    exists|u: Option<Result<(), String>>, reqs: Seq<GuestRequest>|
                        unloaded(
                            id,
                            m.state.unwrap().shared.subscriptions(),
                            m.state.unwrap().spawned_entities@,
                            (
                                old(self).entities@,
                                old(self).next_id,
                                queued_view(old(self).pending_messages@),
                                old(self).notice_log(),
                            ),
                            *final(self),
                            i,
                            reloading(),
                            u,
                            reqs,
                        )
                } else {
                    &&& final(self).entities == old(self).entities
                    &&& final(self).notices == old(self).notices
                    &&& final(self).pending_messages == old(self).pending_messages
                    &&& final(self).next_id == old(self).next_id
                }
            },
    {
        let outcome = self.unload(id, "reloading");
        let ghost after_unload = *self;
        match self.find_module(id) {
            None => None,
            Some(i) => {
                let ghost before = self.modules@[i as int];
                assert(before.wf());
                self.modules[i].errors.clear();
                assert(self.modules@[i as int].state == before.state);
                let r = if self.modules[i].enabled && self.modules[i].bytecode.len() > 0 {
                    Some(self.load(i))
                } else {
                    None
                };
                proof {
                    let m = old(self).modules@[i as int];
                    if m.running() {
                        let b = (
                            old(self).entities@,
                            old(self).next_id,
                            queued_view(old(self).pending_messages@),
                            old(self).notice_log(),
                        );
                        let reqs = choose|reqs: Seq<GuestRequest>|
                            unloaded(
                                id,
                                m.state.unwrap().shared.subscriptions(),
                                m.state.unwrap().spawned_entities@,
                                b,
                                after_unload,
                                i as int,
                                reloading(),
                                outcome,
                                reqs,
                            );
                        assert(same_listeners(after_unload.modules@, self.modules@)) by {
                            assert forall|k: int| 0 <= k < self.modules@.len() implies #[trigger] after_unload.modules@[k].id
                                == self.modules@[k].id && after_unload.modules@[k].state == self.modules@[k].state by {
                                if k != i {
                                }
                            }
                        }
                        lemma_same_listeners(after_unload.modules@, self.modules@, sent_by(reqs));
                        assert(unloaded(
                            id,
                            m.state.unwrap().shared.subscriptions(),
                            m.state.unwrap().spawned_entities@,
                            b,
                            *self,
                            i as int,
                            reloading(),
                            outcome,
                            reqs,
                        ));
                    }
                }
                r
            },
        }
    }

    /// Whether a compilation of module `id` stamped `stamp` may still be
    /// installed: the module exists, no later load started, it is enabled and
    /// nothing runs yet.
    pub open spec fn accepts(&self, id: u64, stamp: u64) -> bool {
        &&& self.has_module(id)
        &&& self.modules@[self.index_of(id)].load_stamp == stamp
        &&& self.modules@[self.index_of(id)].enabled
        &&& !self.modules@[self.index_of(id)].running()
    }

    /// Installs a fresh instance around `guest` in module `i`, listening to
    /// the frame and module-load events.
    pub(crate) fn install(&mut self, i: usize, guest: G)
        requires
            old(self).wf(),
            i < old(self).modules@.len(),
        ensures
            final(self).wf(),
            final(self).modules@[i as int].state matches Some(st) && is_fresh(st, guest),
            final(self).modules@ == old(self).modules@.update(
                i as int,
                Module { state: final(self).modules@[i as int].state, ..old(self).modules@[i as int] },
            ),
            final(self).entities == old(self).entities,
            final(self).notices == old(self).notices,
            final(self).pending_messages == old(self).pending_messages,
            final(self).next_id == old(self).next_id,
            final(self).time == old(self).time,
    {
        let mut st = ModuleState::new(guest);
        let frame = frame_event_name();
        let loaded = module_load_event_name();
        st.listen_to_event(frame.as_str());
        st.listen_to_event(loaded.as_str());
        assert(st.shared.subscriptions() =~= set![frame_event(), module_load_event()]);
        let ghost before = self.modules@[i as int];
        assert(before.wf());
        self.modules[i].state = Some(st);
        assert(self.modules@[i as int].errors == before.errors);
        assert(self.modules@ =~= old(self).modules@.update(
            i as int,
            Module { state: self.modules@[i as int].state, ..old(self).modules@[i as int] },
        ));
    }

    /// Takes the outcome of a compilation started by `load`.
    ///
    /// A stale or unwanted outcome (see `accepts`) is dropped. A failure is
    /// recorded as an error of the module. A compiled instance is installed
    /// fresh and receives the module-load event at once; returns whether it
    /// was installed.
    pub fn finish_load(&mut self, module: u64, stamp: u64, result: Result<G, String>) -> (r: bool)
        requires
            old(self).wf(),
        ensures
            final(self).wf(),
            final(self).modules@.len() == old(self).modules@.len(),
            final(self).time == old(self).time,
            r == (old(self).accepts(module, stamp) && result is Ok),
            !old(self).accepts(module, stamp) ==> *final(self) == *old(self),
            old(self).accepts(module, stamp) && result is Err ==> {
                let i = old(self).index_of(module);
                let m = old(self).modules@[i];
                &&& forall|j: int|
                    0 <= j < old(self).modules@.len() && j != i ==> final(self).modules@[j]
                        == old(self).modules@[j]
                &&& same_record(final(self).modules@[i], m)
                &&& !final(self).modules@[i].running()
                &&& final(self).modules@[i].errors@ == log_after(m.errors@, result->Err_0)
                &&& final(self).entities == old(self).entities
                &&& final(self).pending_messages == old(self).pending_messages
                &&& final(self).notice_log() == old(self).notice_log().push(
                    (module, MessageType::Error, error_text(result->Err_0@)),
                )
            },
            old(self).accepts(module, stamp) && result is Ok ==> {
                let i = old(self).index_of(module);
                let m = old(self).modules@[i];
                exists|st: ModuleState<G>, o: Option<Result<(), String>>|
                    is_fresh(st, result->Ok_0) && o is Some && ran(
                        (
                            old(self).modules@.update(i, Module { state: Some(st), ..m }),
                            old(self).entities@,
                            old(self).next_id,
                            queued_view(old(self).pending_messages@),
                            old(self).notice_log(),
                        ),
                        *final(self),
                        i,
                        module_load_event(),
                        o,
                    )
            },
    {
        let i = match self.find_module(module) {
            None => return false,
            Some(i) => i,
        };
        if self.modules[i].load_stamp != stamp || !self.modules[i].enabled
            || self.modules[i].state.is_some() {
            return false;
        }
        match result {
            Err(e) => {
                self.update_errors(module, e);
                false
            },
            Ok(guest) => {
                let ghost g = guest;
                self.install(i, guest);
                let ghost st = self.modules@[i as int].state.unwrap();
                let ghost mid = *self;
                assert(snap(mid) == (
                    old(self).modules@.update(i as int, Module { state: Some(st), ..old(self).modules@[i as int] }),
                    old(self).entities@,
                    old(self).next_id,
                    queued_view(old(self).pending_messages@),
                    old(self).notice_log(),
                ));
                let name = module_load_event_name();
                let context = RunContext::new(name, EventData { entities: Vec::new() }, self.time);
                let o = self.run_module(i, &context);
                assert(is_fresh(st, g) && o is Some);
                assert(is_fresh(st, g) && o is Some && ran(
                    (
                        old(self).modules@.update(i as int, Module { state: Some(st), ..old(self).modules@[i as int] }),
                        old(self).entities@,
                        old(self).next_id,
                        queued_view(old(self).pending_messages@),
                        old(self).notice_log(),
                    ),
                    *self,
                    i as int,
                    module_load_event(),
                    o,
                ));
                true
            },
        }
    }

    /// Reloads every module whose `enabled` flag or bytecode was written and
    /// whose desired run state differs from whether it runs; returns the
    /// compilations started.
    pub fn reload_changed(&mut self) -> (r: Vec<LoadRequest>)
        requires
            old(self).wf(),
        ensures
            final(self).wf(),
            final(self).modules@.len() == old(self).modules@.len(),
            final(self).time == old(self).time,
            load_view(r@) == changed_plan(old(self).modules@),
            is_prefix(queued_view(old(self).pending_messages@), queued_view(final(self).pending_messages@)),
            forall|k: int|
                0 <= k < old(self).modules@.len() ==> {
                    let m = old(self).modules@[k];
                    let n = #[trigger] final(self).modules@[k];
                    if triggered(m) {
                        &&& n.errors@.len() == 0
                        &&& !n.running()
                        &&& !n.changed
                        &&& n.id == m.id
                        &&& n.bytecode == m.bytecode
                        &&& n.enabled == m.enabled
                    } else {
                        n == Module { changed: false, ..m }
                    }
                },
    {
        let mut started: Vec<LoadRequest> = Vec::new();
        let mut i: usize = 0;
        let ghost ms = self.modules@;
        assert(queued_view(self.pending_messages@).subrange(0, self.pending_messages@.len() as int) =~= queued_view(self.pending_messages@));
        while i < self.modules.len()
            invariant
                self.wf(),
                self.modules@.len() == ms.len(),
                ms == old(self).modules@,
                i <= ms.len(),
                forall|k: int| i <= k < ms.len() ==> self.modules@[k] == ms[k],
                forall|k: int|
                    0 <= k < i ==> {
                        let m = ms[k];
                        let n = #[trigger] self.modules@[k];
                        if triggered(m) {
                            &&& n.errors@.len() == 0
                            &&& !n.running()
                            &&& !n.changed
                            &&& n.id == m.id
                            &&& n.bytecode == m.bytecode
                            &&& n.enabled == m.enabled
                        } else {
                            n == Module { changed: false, ..m }
                        }
                    },
                load_view(started@) == changed_plan(ms.subrange(0, i as int)),
                is_prefix(queued_view(old(self).pending_messages@), queued_view(self.pending_messages@)),
                self.time == old(self).time,
            decreases ms.len() - i,
        {
            let ghost m = ms[i as int];
            let ghost s0 = started@;
            proof {
                let s1 = ms.subrange(0, i + 1);
                assert(s1.drop_last() =~= ms.subrange(0, i as int));
                assert(s1.last() == m);
            }
            let ghost before = self.modules@[i as int];
            assert(before.wf());
            let was_changed = self.modules[i].changed;
            self.modules[i].changed = false;
            assert(self.modules@[i as int].state == before.state);
            assert(self.modules@[i as int].errors == before.errors);
            let running = self.modules[i].state.is_some();
            if was_changed && self.modules[i].enabled != running {
                let id = self.modules[i].id;
                proof {
                    self.lemma_index_of(i as int);
                }
                let ghost mid = self.modules@;
                let ghost pre = *self;
                let reloaded = self.reload(id);
                proof {
                    let m = pre.modules@[i as int];
                    let q0 = queued_view(pre.pending_messages@);
                    if m.running() {
                        let (u, reqs) = choose|u: Option<Result<(), String>>, reqs: Seq<GuestRequest>|
                            unloaded(
                                id,
                                m.state.unwrap().shared.subscriptions(),
                                m.state.unwrap().spawned_entities@,
                                (pre.entities@, pre.next_id, q0, pre.notice_log()),
                                *self,
                                i as int,
                                reloading(),
                                u,
                                reqs,
                            );
                        lemma_unloaded_keeps_queue(
                            id,
                            m.state.unwrap().shared.subscriptions(),
                            m.state.unwrap().spawned_entities@,
                            (pre.entities@, pre.next_id, q0, pre.notice_log()),
                            *self,
                            i as int,
                            reloading(),
                            u,
                            reqs,
                        );
                    } else {
                        assert(q0.subrange(0, q0.len() as int) =~= q0);
                    }
                    lemma_prefix_trans(queued_view(old(self).pending_messages@), q0, queued_view(self.pending_messages@));
                }
                if let Some(q) = reloaded {
                    started.push(q);
                    assert(load_view(started@) =~= load_view(s0).push((m.id, m.bytecode@)));
                } else {
                    assert(load_view(started@) =~= load_view(s0));
                }
                assert forall|k: int| 0 <= k < ms.len() && k != i implies self.modules@[k]
                    == mid[k] by {}
            } else {
                assert(self.modules@[i as int] == Module { changed: false, ..m });
            }
            i = i + 1;
        }
        assert(ms.subrange(0, ms.len() as int) =~= ms);
        started
    }

    /// Reloads every module; returns the compilations started.
    pub fn reload_all(&mut self) -> (r: Vec<LoadRequest>)
        requires
            old(self).wf(),
        ensures
            final(self).wf(),
            final(self).modules@.len() == old(self).modules@.len(),
            final(self).time == old(self).time,
            load_view(r@) == all_plan(old(self).modules@),
            forall|k: int|
                0 <= k < final(self).modules@.len() ==> (#[trigger] final(self).modules@[k]).errors@.len()
                    == 0 && !final(self).modules@[k].running() && final(self).modules@[k].id
                    == old(self).modules@[k].id,
    {
        let mut started: Vec<LoadRequest> = Vec::new();
        let mut i: usize = 0;
        let ghost ms = self.modules@;
        while i < self.modules.len()
            invariant
                self.wf(),
                self.modules@.len() == ms.len(),
                ms == old(self).modules@,
                i <= ms.len(),
                forall|k: int| i <= k < ms.len() ==> self.modules@[k] == ms[k],
                forall|k: int|
                    0 <= k < i ==> (#[trigger] self.modules@[k]).errors@.len() == 0
                        && !self.modules@[k].running() && self.modules@[k].id == ms[k].id,
                load_view(started@) == all_plan(ms.subrange(0, i as int)),
                self.time == old(self).time,
            decreases ms.len() - i,
        {
            let ghost m = ms[i as int];
            let ghost s0 = started@;
            proof {
                let s1 = ms.subrange(0, i + 1);
                assert(s1.drop_last() =~= ms.subrange(0, i as int));
                assert(s1.last() == m);
            }
            let id = self.modules[i].id;
            proof {
                self.lemma_index_of(i as int);
            }
            let ghost mid = self.modules@;
            if let Some(q) = self.reload(id) {
                started.push(q);
                assert(load_view(started@) =~= load_view(s0).push((m.id, m.bytecode@)));
            } else {
                assert(load_view(started@) =~= load_view(s0));
            }
            assert forall|k: int| 0 <= k < ms.len() && k != i implies self.modules@[k]
                == mid[k] by {}
            i = i + 1;
        }
        assert(ms.subrange(0, ms.len() as int) =~= ms);
        started
    }
}

/// The text of an error notification.
fn error_notice_text(err: &str) -> (r: String)
    ensures
        r@ == error_text(err@),
{
    let mut t = String::from_str("Runtime error: ");
    t.append(err);
    t
}

/// The text of an unload notification.
fn unload_notice_text(reason: &str) -> (r: String)
    ensures
        r@ == unload_text(reason@),
{
    let mut t = String::from_str("Unloaded (reason: ");
    t.append(reason);
    t.append(")");
    t
}

} // verus!
