//! Routing events to running instances, and the per-tick event sequence.
use vstd::prelude::*;

use crate::event::is_debug_event;
use crate::event::is_debug_name;
use crate::event::send;
use crate::host::collider_loads_event_name;
use crate::host::collision_event_name;
use crate::host::frame_event_name;
use crate::host::is_prefix;
use crate::host::lemma_prefix_trans;
use crate::host::same_record;
use crate::host::Host;
use crate::host::QueuedMessage;
use crate::lifecycle::changed_plan;
use crate::lifecycle::load_view;
use crate::lifecycle::LoadRequest;
use crate::lifecycle::error_text;
use crate::lifecycle::unloaded;
use crate::lifecycle::too_many_errors;
use crate::host::would_overflow;
use crate::module::EntityRecord;
use crate::module::EventData;
use crate::module::Guest;
use crate::module::GuestRequest;
use crate::module::MessageType;
use crate::module::Module;
use crate::module::ModuleState;
use crate::module::RunContext;
use crate::laws::log_after;

verus! {

/// Whether module `m` runs and listens to `name`.
pub open spec fn listens<G>(m: Module<G>, name: Seq<char>) -> bool {
    m.state matches Some(st) && st.shared.subscriptions().contains(name)
}

/// The identities of the modules in `ms` that run and listen to `name`, in
/// order.
pub open spec fn targets<G>(ms: Seq<Module<G>>, name: Seq<char>) -> Seq<u64>
    decreases ms.len(),
{
    if ms.len() == 0 {
        Seq::empty()
    } else {
        let rest = targets(ms.drop_last(), name);
        if listens(ms.last(), name) {
            rest.push(ms.last().id)
        } else {
            rest
        }
    }
}

/// Like `targets`, restricted to the modules listed in `audience`.
pub open spec fn targets_among<G>(ms: Seq<Module<G>>, name: Seq<char>, audience: Seq<u64>) -> Seq<
    u64,
>
    decreases ms.len(),
{
    if ms.len() == 0 {
        Seq::empty()
    } else {
        let rest = targets_among(ms.drop_last(), name, audience);
        if listens(ms.last(), name) && audience.contains(ms.last().id) {
            rest.push(ms.last().id)
        } else {
            rest
        }
    }
}

/// Every module that a restricted dispatch reaches is in the audience.
pub proof fn lemma_among_in_audience<G>(ms: Seq<Module<G>>, name: Seq<char>, audience: Seq<u64>)
    ensures
        forall|j: int|
            0 <= j < targets_among(ms, name, audience).len() ==> audience.contains(
                #[trigger] targets_among(ms, name, audience)[j],
            ),
    decreases ms.len(),
{
    if ms.len() > 0 {
        lemma_among_in_audience(ms.drop_last(), name, audience);
        let rest = targets_among(ms.drop_last(), name, audience);
        let t = targets_among(ms, name, audience);
        assert forall|j: int| 0 <= j < t.len() implies audience.contains(#[trigger] t[j]) by {
            if j < rest.len() {
                assert(t[j] == rest[j]);
            }
        }
    }
}

/// The names that `Subscribe` requests add.
pub open spec fn subscribed_by(reqs: Seq<GuestRequest>) -> Set<Seq<char>>
    decreases reqs.len(),
{
    if reqs.len() == 0 {
        Set::empty()
    } else {
        let rest = subscribed_by(reqs.drop_last());
        match reqs.last() {
            GuestRequest::Subscribe(n) => rest.insert(n@),
            _ => rest,
        }
    }
}

/// The messages that `Send` requests queue, in order, without those in the
/// debug namespace.
pub open spec fn sent_by(reqs: Seq<GuestRequest>) -> Seq<(Seq<char>, EventData)>
    decreases reqs.len(),
{
    if reqs.len() == 0 {
        Seq::empty()
    } else {
        let rest = sent_by(reqs.drop_last());
        match reqs.last() {
            GuestRequest::Send(n, d) => if is_debug_name(n@) {
                rest
            } else {
                rest.push((n@, d))
            },
            _ => rest,
        }
    }
}

/// The persistence flags of the `Spawn` requests, in order.
pub open spec fn spawns_by(reqs: Seq<GuestRequest>) -> Seq<bool>
    decreases reqs.len(),
{
    if reqs.len() == 0 {
        Seq::empty()
    } else {
        let rest = spawns_by(reqs.drop_last());
        match reqs.last() {
            GuestRequest::Spawn(p) => rest.push(p),
            _ => rest,
        }
    }
}

/// How many of `k` spawns get an id when ids start at `base`.
pub open spec fn spawn_room(base: u64, k: nat) -> nat {
    if k <= u64::MAX - base {
        k
    } else {
        (u64::MAX - base) as nat
    }
}

/// The ids handed to `n` spawns from `base` on.
pub open spec fn new_ids(base: u64, n: nat) -> Seq<u64> {
    Seq::new(n, |j: int| (base + j) as u64)
}

/// The entities created by `n` spawns with flags `flags` from `base` on.
pub open spec fn new_records(base: u64, flags: Seq<bool>, n: nat) -> Seq<EntityRecord> {
    Seq::new(n, |j: int| EntityRecord { id: (base + j) as u64, persistent: flags[j] })
}

/// Outgoing messages as plain values.
pub open spec fn event_views(s: Seq<(String, EventData)>) -> Seq<(Seq<char>, EventData)> {
    s.map_values(|p: (String, EventData)| (p.0@, p.1))
}

/// Queued messages as plain values.
pub open spec fn queued_view(s: Seq<QueuedMessage>) -> Seq<(Seq<char>, EventData, Seq<u64>)> {
    s.map_values(|m: QueuedMessage| (m.name@, m.data, m.audience@))
}

/// `sent`, each with the modules of `ms` that listen to its name.
pub open spec fn addressed<G>(sent: Seq<(Seq<char>, EventData)>, ms: Seq<Module<G>>) -> Seq<
    (Seq<char>, EventData, Seq<u64>),
> {
    sent.map_values(|p: (Seq<char>, EventData)| (p.0, p.1, targets(ms, p.0)))
}

/// Instance `st1` with entities `ents1` and next id `next1` is what carrying
/// out `reqs` makes of `st0`, `ents0` and `next0`.
pub open spec fn applied<G>(
    st0: ModuleState<G>,
    ents0: Seq<EntityRecord>,
    next0: u64,
    st1: ModuleState<G>,
    ents1: Seq<EntityRecord>,
    next1: u64,
    reqs: Seq<GuestRequest>,
) -> bool {
    let n = spawn_room(next0, spawns_by(reqs).len());
    &&& st1.shared.subscriptions() == st0.shared.subscriptions().union(subscribed_by(reqs))
    &&& st1.spawned_entities@ == st0.spawned_entities@ + new_ids(next0, n)
    &&& ents1 == ents0 + new_records(next0, spawns_by(reqs), n)
    &&& next1 == next0 + n
}

/// What a dispatch starts from: the modules, entities, next id, queued
/// messages and notice log of a host.
pub type Before<G> = (
    Seq<Module<G>>,
    Seq<EntityRecord>,
    u64,
    Seq<(Seq<char>, EventData, Seq<u64>)>,
    Seq<(u64, MessageType, Seq<char>)>,
);

/// The starting point that host `h` gives.
pub open spec fn snap<G: Guest>(h: Host<G>) -> Before<G> {
    (h.modules@, h.entities@, h.next_id, queued_view(h.pending_messages@), h.notice_log())
}

/// Host `h1` is what a successful dispatch of module `i`, whose requests
/// were `reqs`, makes of `b`.
pub open spec fn ran_ok<G: Guest>(b: Before<G>, h1: Host<G>, i: int, reqs: Seq<GuestRequest>) -> bool {
    let m = b.0[i];
    let n = h1.modules@[i];
    &&& n.state is Some
    &&& n.errors == m.errors
    &&& applied(m.state.unwrap(), b.1, b.2, n.state.unwrap(), h1.entities@, h1.next_id, reqs)
    &&& h1.notice_log() == b.4
    &&& queued_view(h1.pending_messages@) == b.3 + addressed(sent_by(reqs), h1.modules@)
}

/// Host `h1` is what a failed dispatch of module `i` with error `e` makes of
/// `b`: the failure is reported and logged, and past the limit the module is
/// unloaded.
pub open spec fn ran_err<G: Guest>(b: Before<G>, h1: Host<G>, i: int, e: String) -> bool {
    let m = b.0[i];
    let n = h1.modules@[i];
    let log1 = b.4.push((m.id, MessageType::Error, error_text(e@)));
    &&& n.errors@ == log_after(m.errors@, e)
    &&& if would_overflow(m.errors@) {
        exists|u: Option<Result<(), String>>, reqs: Seq<GuestRequest>|
            unloaded(
                m.id,
                m.state.unwrap().shared.subscriptions(),
                m.state.unwrap().spawned_entities@,
                (b.1, b.2, b.3, log1),
                h1,
                i,
                too_many_errors(),
                u,
                reqs,
            )
    } else {
        &&& n.state is Some
        &&& n.state.unwrap().shared == m.state.unwrap().shared
        &&& n.state.unwrap().spawned_entities == m.state.unwrap().spawned_entities
        &&& h1.entities@ == b.1
        &&& h1.next_id == b.2
        &&& queued_view(h1.pending_messages@) == b.3
        &&& h1.notice_log() == log1
    }
}

/// Host `h1` is what dispatching `name` to module `i` makes of `b`, with
/// outcome `r`: `None` when the module does not run or listen.
pub open spec fn ran<G: Guest>(b: Before<G>, h1: Host<G>, i: int, name: Seq<char>, r: Option<Result<(), String>>) -> bool {
    &&& h1.modules@.len() == b.0.len()
    &&& forall|j: int| 0 <= j < b.0.len() && j != i ==> h1.modules@[j] == b.0[j]
    &&& same_record(h1.modules@[i], b.0[i])
    &&& (r is Some <==> listens(b.0[i], name))
    &&& (r is None ==> h1.modules@ == b.0 && h1.entities@ == b.1 && h1.next_id == b.2
        && queued_view(h1.pending_messages@) == b.3 && h1.notice_log() == b.4)
    &&& (r matches Some(Ok(())) ==> exists|reqs: Seq<GuestRequest>| ran_ok(b, h1, i, reqs))
    &&& (r matches Some(Err(e)) ==> ran_err(b, h1, i, e))
}

/// A dispatch only adds to the queue.
pub proof fn lemma_ran_keeps_queue<G: Guest>(
    b: Before<G>,
    h1: Host<G>,
    i: int,
    name: Seq<char>,
    r: Option<Result<(), String>>,
)
    requires
        ran(b, h1, i, name, r),
        0 <= i < b.0.len(),
    ensures
        is_prefix(b.3, queued_view(h1.pending_messages@)),
{
    let q = queued_view(h1.pending_messages@);
    if r is None {
        assert(q.subrange(0, b.3.len() as int) =~= b.3);
    } else if r->Some_0 is Ok {
        let reqs = choose|reqs: Seq<GuestRequest>| ran_ok(b, h1, i, reqs);
        assert(q.subrange(0, b.3.len() as int) =~= b.3);
    } else {
        let e = r->Some_0->Err_0;
        let m = b.0[i];
        if would_overflow(m.errors@) {
            let log1 = b.4.push((m.id, MessageType::Error, error_text(e@)));
            let (u, reqs) = choose|u: Option<Result<(), String>>, reqs: Seq<GuestRequest>|
                unloaded(
                    m.id,
                    m.state.unwrap().shared.subscriptions(),
                    m.state.unwrap().spawned_entities@,
                    (b.1, b.2, b.3, log1),
                    h1,
                    i,
                    too_many_errors(),
                    u,
                    reqs,
                );
            assert(q.subrange(0, b.3.len() as int) =~= b.3);
        } else {
            assert(q.subrange(0, b.3.len() as int) =~= b.3);
        }
    }
}

/// One dispatched event: its name, its entities, and the modules called.
#[derive(Debug, PartialEq, Eq)]
pub struct Delivery {
    pub name: String,
    pub entities: Vec<u64>,
    pub called: Vec<u64>,
}

/// A delivery as plain values: name and entities.
pub open spec fn delivery_view(d: Delivery) -> (Seq<char>, Seq<u64>) {
    (d.name@, d.entities@)
}

/// What one tick did.
pub struct TickReport<G> {
    /// Compilations started for modules whose desired state changed.
    pub started: Vec<LoadRequest>,
    /// The system events dispatched, in order.
    pub dispatched: Vec<Delivery>,
    /// The queued messages delivered at the end of the tick.
    pub drained: Vec<Delivery>,
    /// The modules as each system event found them.
    pub seen: Ghost<Seq<Seq<Module<G>>>>,
}

/// The entity ids of a colliding pair, where known.
pub open spec fn pair_ids(p: (Option<u64>, Option<u64>)) -> Seq<u64> {
    (if p.0 is Some { seq![p.0.unwrap()] } else { Seq::empty() }) + (if p.1 is Some {
        seq![p.1.unwrap()]
    } else {
        Seq::empty()
    })
}

/// Deliveries as plain values.
pub open spec fn deliveries_view(s: Seq<Delivery>) -> Seq<(Seq<char>, Seq<u64>)> {
    s.map_values(|d: Delivery| delivery_view(d))
}

/// One collision event per pair.
pub open spec fn collision_events(pairs: Seq<(Option<u64>, Option<u64>)>) -> Seq<(Seq<char>, Seq<u64>)> {
    pairs.map_values(|p: (Option<u64>, Option<u64>)| (crate::host::collision_event(), pair_ids(p)))
}

/// Whether `ms1` and `ms2` hold the same modules with the same instances.
pub open spec fn same_listeners<G>(ms1: Seq<Module<G>>, ms2: Seq<Module<G>>) -> bool {
    &&& ms1.len() == ms2.len()
    &&& forall|k: int| 0 <= k < ms1.len() ==> #[trigger] ms1[k].id == ms2[k].id && ms1[k].state == ms2[k].state
}

/// Modules with the same instances are reached alike.
pub proof fn lemma_same_listeners<G>(ms1: Seq<Module<G>>, ms2: Seq<Module<G>>, sent: Seq<(Seq<char>, EventData)>)
    requires
        same_listeners(ms1, ms2),
    ensures
        addressed(sent, ms1) == addressed(sent, ms2),
{
    assert forall|k: int| 0 <= k < sent.len() implies targets(ms1, #[trigger] sent[k].0) == targets(ms2, sent[k].0) by {
        lemma_targets_same(ms1, ms2, sent[k].0);
    }
    assert(addressed(sent, ms1) =~= addressed(sent, ms2));
}

proof fn lemma_targets_same<G>(ms1: Seq<Module<G>>, ms2: Seq<Module<G>>, name: Seq<char>)
    requires
        same_listeners(ms1, ms2),
    ensures
        targets(ms1, name) == targets(ms2, name),
    decreases ms1.len(),
{
    if ms1.len() > 0 {
        let k = ms1.len() - 1;
        assert(ms1[k].id == ms2[k].id && ms1[k].state == ms2[k].state);
        assert(same_listeners(ms1.drop_last(), ms2.drop_last())) by {
            assert forall|j: int| 0 <= j < ms1.drop_last().len() implies #[trigger] ms1.drop_last()[j].id
                == ms2.drop_last()[j].id && ms1.drop_last()[j].state == ms2.drop_last()[j].state by {
                assert(ms1[j].id == ms2[j].id && ms1[j].state == ms2[j].state);
            }
        }
        lemma_targets_same(ms1.drop_last(), ms2.drop_last(), name);
    }
}

/// The system events of one tick, as names with entities, in order: the
/// world events, the frame, one collision per pair, and a collider-loads
/// event when `loads` is not empty.
pub open spec fn system_events(
    world: Seq<(Seq<char>, Seq<u64>)>,
    pairs: Seq<(Option<u64>, Option<u64>)>,
    loads: Seq<u64>,
) -> Seq<(Seq<char>, Seq<u64>)> {
    world + seq![(crate::host::frame_event(), Seq::<u64>::empty())] + collision_events(pairs) + if loads.len() > 0 {
        seq![(crate::host::collider_loads_event(), loads)]
    } else {
        Seq::empty()
    }
}

/// World events as plain values.
pub open spec fn world_view(s: Seq<(String, EventData)>) -> Seq<(Seq<char>, Seq<u64>)> {
    s.map_values(|p: (String, EventData)| (p.0@, p.1.entities@))
}

/// A copy of a list of ids.
fn copy_ids(v: &Vec<u64>) -> (r: Vec<u64>)
    ensures
        r@ == v@,
{
    let mut r: Vec<u64> = Vec::new();
    let mut k: usize = 0;
    while k < v.len()
        invariant
            k <= v@.len(),
            r@ == v@.subrange(0, k as int),
        decreases v@.len() - k,
    {
        r.push(v[k]);
        k = k + 1;
        assert(r@ =~= v@.subrange(0, k as int));
    }
    assert(v@.subrange(0, v@.len() as int) =~= v@);
    r
}

impl<G: Guest> Host<G> {
    /// The modules that run and listen to `name`, in order.
    pub fn listeners(&self, name: &str) -> (r: Vec<u64>)
        ensures
            r@ == targets(self.modules@, name@),
    {
        let mut r: Vec<u64> = Vec::new();
        let mut i: usize = 0;
        while i < self.modules.len()
            invariant
                i <= self.modules@.len(),
                r@ == targets(self.modules@.subrange(0, i as int), name@),
            decreases self.modules@.len() - i,
        {
            proof {
                let s1 = self.modules@.subrange(0, i + 1);
                assert(s1.drop_last() =~= self.modules@.subrange(0, i as int));
            }
            let hit = match &self.modules[i].state {
                None => false,
                Some(st) => st.supports_event(name),
            };
            if hit {
                r.push(self.modules[i].id);
            }
            i = i + 1;
        }
        assert(self.modules@.subrange(0, self.modules@.len() as int) =~= self.modules@);
        r
    }

    /// Queues `outgoing`, each message addressed to the modules that listen
    /// to its name now.
    pub(crate) fn enqueue_all(&mut self, outgoing: Vec<(String, EventData)>)
        requires
            old(self).wf(),
            forall|k: int| 0 <= k < outgoing@.len() ==> !is_debug_name(#[trigger] outgoing@[k].0@),
        ensures
            final(self).wf(),
            queued_view(final(self).pending_messages@) == queued_view(old(self).pending_messages@)
                + addressed(event_views(outgoing@), old(self).modules@),
            final(self).modules == old(self).modules,
            final(self).entities == old(self).entities,
            final(self).notices == old(self).notices,
            final(self).next_id == old(self).next_id,
            final(self).time == old(self).time,
    {
        let mut outgoing = outgoing;
        let ghost all = outgoing@;
        while outgoing.len() > 0
            invariant
                self.wf(),
                all.len() >= outgoing@.len(),
                outgoing@ == all.subrange(all.len() - outgoing@.len(), all.len() as int),
                forall|k: int| 0 <= k < all.len() ==> !is_debug_name(#[trigger] all[k].0@),
                queued_view(self.pending_messages@) == queued_view(old(self).pending_messages@)
                    + addressed(
                    event_views(all.subrange(0, all.len() - outgoing@.len())),
                    old(self).modules@,
                ),
                self.modules == old(self).modules,
                self.entities == old(self).entities,
                self.notices == old(self).notices,
                self.next_id == old(self).next_id,
                self.time == old(self).time,
            decreases outgoing@.len(),
        {
            let ghost done = all.len() - outgoing@.len();
            let ghost before = self.pending_messages@;
            let (name, data) = outgoing.remove(0);
            assert(name@ == all[done].0@ && data == all[done].1);
            let audience = self.listeners(name.as_str());
            self.pending_messages.push(QueuedMessage { name, data, audience });
            proof {
                assert(outgoing@ =~= all.subrange(all.len() - outgoing@.len(), all.len() as int));
                assert(all.subrange(0, done + 1) =~= all.subrange(0, done).push(all[done]));
                assert(event_views(all.subrange(0, done + 1)) =~= event_views(
                    all.subrange(0, done),
                ).push((all[done].0@, all[done].1)));
                assert(queued_view(self.pending_messages@) =~= queued_view(before).push(
                    (all[done].0@, all[done].1, targets(old(self).modules@, all[done].0@)),
                ));
                assert forall|k: int| 0 <= k < self.pending_messages@.len() implies !is_debug_name(
                    #[trigger] self.pending_messages@[k].name@,
                ) by {
                    if k < before.len() {
                        assert(self.pending_messages@[k] == before[k]);
                    }
                }
            }
        }
        assert(all.subrange(0, all.len() as int) =~= all);
    }

    /// Carries out what a guest asked for while it handled an event: the
    /// subscriptions are added, the messages outside the debug namespace
    /// collected on `state`, and each spawn, while ids last, creates an
    /// entity that `state` records.
    pub fn apply_requests(&mut self, state: &mut ModuleState<G>, requests: Vec<GuestRequest>)
        requires
            old(self).wf(),
            old(state).wf(),
        ensures
            final(self).wf(),
            final(state).wf(),
            final(state).guest == old(state).guest,
            applied(
                *old(state),
                old(self).entities@,
                old(self).next_id,
                *final(state),
                final(self).entities@,
                final(self).next_id,
                requests@,
            ),
            event_views(final(state).shared.events@) == event_views(old(state).shared.events@)
                + sent_by(requests@),
            final(self).modules == old(self).modules,
            final(self).notices == old(self).notices,
            final(self).pending_messages == old(self).pending_messages,
            final(self).time == old(self).time,
    {
        let mut requests = requests;
        let ghost all = requests@;
        let ghost base = self.next_id;
        proof {
            assert(all.subrange(0, 0) =~= Seq::<GuestRequest>::empty());
            assert(state.shared.subscriptions() =~= state.shared.subscriptions().union(
                Set::empty(),
            ));
            assert(state.spawned_entities@ =~= state.spawned_entities@ + new_ids(base, 0));
            assert(self.entities@ =~= self.entities@ + new_records(base, Seq::empty(), 0));
            assert(event_views(state.shared.events@) =~= event_views(state.shared.events@)
                + Seq::empty());
        }
        while requests.len() > 0
            invariant
                self.wf(),
                state.wf(),
                base == old(self).next_id,
                all.len() >= requests@.len(),
                requests@ == all.subrange(all.len() - requests@.len(), all.len() as int),
                state.guest == old(state).guest,
                applied(
                    *old(state),
                    old(self).entities@,
                    base,
                    *state,
                    self.entities@,
                    self.next_id,
                    all.subrange(0, all.len() - requests@.len()),
                ),
                event_views(state.shared.events@) == event_views(old(state).shared.events@)
                    + sent_by(all.subrange(0, all.len() - requests@.len())),
                self.modules == old(self).modules,
                self.notices == old(self).notices,
                self.pending_messages == old(self).pending_messages,
                self.time == old(self).time,
            decreases requests@.len(),
        {
            let ghost done = all.len() - requests@.len();
            let ghost pre = all.subrange(0, done);
            let ghost post = all.subrange(0, done + 1);
            let ghost st0 = *state;
            let ghost ents0 = self.entities@;
            let ghost next0 = self.next_id;
            proof {
                assert(post.drop_last() =~= pre);
                assert(post.last() == all[done]);
            }
            let request = requests.remove(0);
            assert(request == all[done]);
            match request {
                GuestRequest::Subscribe(name) => {
                    state.listen_to_event(name.as_str());
                    assert(state.shared.subscriptions().union(Set::empty()) =~= state.shared.subscriptions());
                    assert(old(state).shared.subscriptions().union(subscribed_by(post))
                        =~= old(state).shared.subscriptions().union(subscribed_by(pre)).insert(name@));
                },
                GuestRequest::Send(name, data) => {
                    let ghost ev0 = state.shared.events@;
                    send(&mut state.shared, name.as_str(), data);
                    proof {
                        if !is_debug_name(name@) {
                            assert(state.shared.events@ =~= ev0.push(state.shared.events@.last()));
                            assert(event_views(state.shared.events@) =~= event_views(ev0).push(
                                (name@, data),
                            ));
                        }
                        assert forall|k: int| 0 <= k < state.shared.events@.len() implies !is_debug_name(
                            #[trigger] state.shared.events@[k].0@,
                        ) by {
                            if k < ev0.len() {
                                assert(state.shared.events@[k] == ev0[k]);
                            }
                        }
                    }
                },
                GuestRequest::Spawn(persistent) => {
                    let ghost k0 = spawns_by(pre).len();
                    if self.next_id < u64::MAX {
                        let id = self.next_id;
                        self.entities.push(EntityRecord { id, persistent });
                        self.next_id = id + 1;
                        state.spawned_entities.push(id);
                    }
                    proof {
                        let n0 = spawn_room(base, k0);
                        let n1 = spawn_room(base, k0 + 1);
                        assert(spawns_by(post) == spawns_by(pre).push(persistent));
                        if next0 < u64::MAX {
                            assert(n1 == n0 + 1);
                            assert(new_ids(base, n1) =~= new_ids(base, n0).push(next0));
                            assert(new_records(base, spawns_by(post), n1) =~= new_records(
                                base,
                                spawns_by(pre),
                                n0,
                            ).push(EntityRecord { id: next0, persistent }));
                        } else {
                            assert(n1 == n0);
                            assert(new_records(base, spawns_by(post), n1) =~= new_records(
                                base,
                                spawns_by(pre),
                                n0,
                            ));
                        }
                    }
                },
            }
            proof {
                assert(requests@ =~= all.subrange(all.len() - requests@.len(), all.len() as int));
            }
        }
        assert(all.subrange(0, all.len() as int) =~= all);
    }

    /// Calls the guest of module `i` with `context` when it runs and listens
    /// to the event. On success its requests are carried out and the
    /// messages it sent are returned; the instance is back in place either way.
    pub(crate) fn call_guest(&mut self, i: usize, context: &RunContext) -> (r: Option<
        Result<Vec<(String, EventData)>, String>,
    >)
        requires
            old(self).wf(),
            i < old(self).modules@.len(),
        ensures
            final(self).wf(),
            final(self).modules@.len() == old(self).modules@.len(),
            forall|j: int|
                0 <= j < old(self).modules@.len() && j != i ==> final(self).modules@[j]
                    == old(self).modules@[j],
            same_record(final(self).modules@[i as int], old(self).modules@[i as int]),
            final(self).modules@[i as int].errors == old(self).modules@[i as int].errors,
            final(self).notices == old(self).notices,
            final(self).pending_messages == old(self).pending_messages,
            final(self).time == old(self).time,
            r is Some <==> listens(old(self).modules@[i as int], context.event_name@),
            r is None ==> *final(self) == *old(self),
            r is Some ==> final(self).modules@[i as int].state is Some,
            r matches Some(Err(_)) ==> {
                &&& final(self).modules@[i as int].state.unwrap().shared == old(
                    self,
                ).modules@[i as int].state.unwrap().shared
                &&& final(self).modules@[i as int].state.unwrap().spawned_entities == old(
                    self,
                ).modules@[i as int].state.unwrap().spawned_entities
                &&& final(self).entities == old(self).entities
                &&& final(self).next_id == old(self).next_id
            },
            r matches Some(Ok(out)) ==> {
                &&& forall|k: int| 0 <= k < out@.len() ==> !is_debug_name(#[trigger] out@[k].0@)
                &&& exists|reqs: Seq<GuestRequest>|
                    applied(
                        old(self).modules@[i as int].state.unwrap(),
                        old(self).entities@,
                        old(self).next_id,
                        final(self).modules@[i as int].state.unwrap(),
                        final(self).entities@,
                        final(self).next_id,
                        reqs,
                    ) && event_views(out@) == sent_by(reqs)
            },
    {
        let listening = match &self.modules[i].state {
            None => false,
            Some(st) => st.supports_event(context.event_name.as_str()),
        };
        if !listening {
            return None;
        }
        let ghost before = self.modules@[i as int];
        assert(before.wf());
        let mut state = self.modules[i].state.take().unwrap();
        let result = state.guest.run(context);
        match result {
            Ok(requests) => {
                let ghost reqs = requests@;
                self.apply_requests(&mut state, requests);
                let mut outgoing: Vec<(String, EventData)> = Vec::new();
                std::mem::swap(&mut outgoing, &mut state.shared.events);
                assert(event_views(outgoing@) =~= sent_by(reqs)) by {
                    assert(event_views(before.state.unwrap().shared.events@) =~= Seq::empty());
                }
                assert(state.shared.subscriptions() == old(self).modules@[i as int].state.unwrap().shared.subscriptions().union(subscribed_by(reqs)));
                self.modules[i].state = Some(state);
                assert(self.modules@[i as int].errors == before.errors);
                assert(applied(
                    old(self).modules@[i as int].state.unwrap(),
                    old(self).entities@,
                    old(self).next_id,
                    self.modules@[i as int].state.unwrap(),
                    self.entities@,
                    self.next_id,
                    reqs,
                ) && event_views(outgoing@) == sent_by(reqs));
                Some(Ok(outgoing))
            },
            Err(e) => {
                self.modules[i].state = Some(state);
                assert(self.modules@[i as int].errors == before.errors);
                Some(Err(e))
            },
        }
    }

    /// Dispatches `context` to module `i` when it runs and listens to the
    /// event; returns `None` when it was not called, else the outcome of the
    /// call. The requests of a successful call are carried out and its
    /// messages queued; a failure goes through `update_errors`.
    pub fn run_module(&mut self, i: usize, context: &RunContext) -> (r: Option<Result<(), String>>)
        requires
            old(self).wf(),
            i < old(self).modules@.len(),
        ensures
            final(self).wf(),
            final(self).time == old(self).time,
            ran(snap(*old(self)), *final(self), i as int, context.event_name@, r),
            is_prefix(queued_view(old(self).pending_messages@), queued_view(final(self).pending_messages@)),
    {
        let id = self.modules[i].id;
        proof {
            self.lemma_index_of(i as int);
        }
        let outcome = self.call_guest(i, context);
        match outcome {
            None => {
                assert(queued_view(self.pending_messages@).subrange(0, self.pending_messages@.len() as int) =~= queued_view(self.pending_messages@));
                None
            },
            Some(Ok(out)) => {
                let ghost mid = *self;
                let ghost reqs = choose|reqs: Seq<GuestRequest>|
                    applied(
                        old(self).modules@[i as int].state.unwrap(),
                        old(self).entities@,
                        old(self).next_id,
                        mid.modules@[i as int].state.unwrap(),
                        mid.entities@,
                        mid.next_id,
                        reqs,
                    ) && event_views(out@) == sent_by(reqs);
                self.enqueue_all(out);
                assert(ran_ok(snap(*old(self)), *self, i as int, reqs));
                proof {
                    lemma_ran_keeps_queue(snap(*old(self)), *self, i as int, context.event_name@, Some(Ok(())));
                }
                Some(Ok(()))
            },
            Some(Err(e)) => {
                proof {
                    self.lemma_index_of(i as int);
                }
                let reported = e.clone();
                let ghost mid = *self;
                proof {
                    mid.lemma_index_of(i as int);
                }
                self.update_errors(id, e);
                proof {
                    let m = old(self).modules@[i as int];
                    let log1 = old(self).notice_log().push((id, MessageType::Error, error_text(reported@)));
                    if would_overflow(m.errors@) {
                        let mm = mid.modules@[i as int];
                        let (u, reqs) = choose|u: Option<Result<(), String>>, reqs: Seq<GuestRequest>|
                            unloaded(
                                id,
                                mm.state.unwrap().shared.subscriptions(),
                                mm.state.unwrap().spawned_entities@,
                                (mid.entities@, mid.next_id, queued_view(mid.pending_messages@), log1),
                                *self,
                                i as int,
                                too_many_errors(),
                                u,
                                reqs,
                            );
                        let b = snap(*old(self));
                        let bm = b.0[i as int];
                        let logb = b.4.push((bm.id, MessageType::Error, error_text(reported@)));
                        assert(logb == log1);
                        assert(unloaded(
                            bm.id,
                            bm.state.unwrap().shared.subscriptions(),
                            bm.state.unwrap().spawned_entities@,
                            (b.1, b.2, b.3, logb),
                            *self,
                            i as int,
                            too_many_errors(),
                            u,
                            reqs,
                        ));
                        assert(ran_err(snap(*old(self)), *self, i as int, reported));
                    } else {
                        assert(mid.index_of(id) == i as int);
                        assert(self.modules@[i as int].state == mid.modules@[i as int].state);
                        assert(self.entities == mid.entities);
                        assert(self.next_id == old(self).next_id);
                        assert(self.pending_messages == old(self).pending_messages);
                        assert(self.notice_log() == log1);
                        assert(ran_err(snap(*old(self)), *self, i as int, reported));
                    }
                }
                assert(ran(snap(*old(self)), *self, i as int, context.event_name@, Some(Err(reported))));
                proof {
                    lemma_ran_keeps_queue(snap(*old(self)), *self, i as int, context.event_name@, Some(Err(reported)));
                }
                Some(Err(reported))
            },
        }
    }

    /// Dispatches `context` to every running module that listens to its
    /// event, in module order; returns the identities of the modules called.
    /// A module that fails does not keep the later ones from being called.
    pub fn run_all(&mut self, context: &RunContext) -> (r: Vec<u64>)
        requires
            old(self).wf(),
        ensures
            final(self).wf(),
            final(self).modules@.len() == old(self).modules@.len(),
            forall|k: int|
                0 <= k < old(self).modules@.len() ==> same_record(
                    #[trigger] final(self).modules@[k],
                    old(self).modules@[k],
                ),
            r@ == targets(old(self).modules@, context.event_name@),
            final(self).time == old(self).time,
            is_prefix(queued_view(old(self).pending_messages@), queued_view(final(self).pending_messages@)),
    {
        let mut called: Vec<u64> = Vec::new();
        let mut i: usize = 0;
        let ghost ms = self.modules@;
        assert(queued_view(self.pending_messages@).subrange(0, self.pending_messages@.len() as int) =~= queued_view(self.pending_messages@));
        while i < self.modules.len()
            invariant
                self.wf(),
                self.modules@.len() == ms.len(),
                ms == old(self).modules@,
                i <= ms.len(),
                forall|k: int| i <= k < ms.len() ==> self.modules@[k] == ms[k],
                forall|k: int| 0 <= k < ms.len() ==> same_record(#[trigger] self.modules@[k], ms[k]),
                called@ == targets(ms.subrange(0, i as int), context.event_name@),
                self.time == old(self).time,
                is_prefix(queued_view(old(self).pending_messages@), queued_view(self.pending_messages@)),
            decreases ms.len() - i,
        {
            let ghost before = self.modules@;
            let ghost q0 = queued_view(self.pending_messages@);
            let id = self.modules[i].id;
            let outcome = self.run_module(i, context);
            proof {
                let s1 = ms.subrange(0, i + 1);
                assert(s1.drop_last() =~= ms.subrange(0, i as int));
                assert(s1.last() == ms[i as int]);
                assert forall|k: int| 0 <= k < ms.len() implies same_record(
                    #[trigger] self.modules@[k],
                    ms[k],
                ) by {
                    if k != i {
                        assert(self.modules@[k] == before[k]);
                    }
                }
            }
            if outcome.is_some() {
                called.push(id);
            }
            proof {
                lemma_prefix_trans(queued_view(old(self).pending_messages@), q0, queued_view(self.pending_messages@));
            }
            i = i + 1;
        }
        assert(ms.subrange(0, ms.len() as int) =~= ms);
        called
    }

    /// Dispatches `context` to the running modules listed in `audience` that
    /// listen to its event, in module order; returns those called.
    pub fn run_among(&mut self, context: &RunContext, audience: &Vec<u64>) -> (r: Vec<u64>)
        requires
            old(self).wf(),
        ensures
            final(self).wf(),
            final(self).modules@.len() == old(self).modules@.len(),
            r@ == targets_among(old(self).modules@, context.event_name@, audience@),
            final(self).time == old(self).time,
            is_prefix(queued_view(old(self).pending_messages@), queued_view(final(self).pending_messages@)),
    {
        let mut called: Vec<u64> = Vec::new();
        let mut i: usize = 0;
        let ghost ms = self.modules@;
        assert(queued_view(self.pending_messages@).subrange(0, self.pending_messages@.len() as int) =~= queued_view(self.pending_messages@));
        while i < self.modules.len()
            invariant
                self.wf(),
                self.modules@.len() == ms.len(),
                ms == old(self).modules@,
                i <= ms.len(),
                forall|k: int| i <= k < ms.len() ==> self.modules@[k] == ms[k],
                forall|k: int| 0 <= k < ms.len() ==> same_record(#[trigger] self.modules@[k], ms[k]),
                called@ == targets_among(ms.subrange(0, i as int), context.event_name@, audience@),
                self.time == old(self).time,
                is_prefix(queued_view(old(self).pending_messages@), queued_view(self.pending_messages@)),
            decreases ms.len() - i,
        {
            let ghost before = self.modules@;
            let ghost q0 = queued_view(self.pending_messages@);
            let id = self.modules[i].id;
            proof {
                let s1 = ms.subrange(0, i + 1);
                assert(s1.drop_last() =~= ms.subrange(0, i as int));
                assert(s1.last() == ms[i as int]);
            }
            if crate::host::contains_id(audience, id) {
                let outcome = self.run_module(i, context);
                if outcome.is_some() {
                    called.push(id);
                }
            } else {
                assert(q0.subrange(0, q0.len() as int) =~= q0);
            }
            proof {
                assert forall|k: int| 0 <= k < ms.len() implies same_record(
                    #[trigger] self.modules@[k],
                    ms[k],
                ) by {
                    if k != i {
                        assert(self.modules@[k] == before[k]);
                    }
                }
            }
            proof {
                lemma_prefix_trans(queued_view(old(self).pending_messages@), q0, queued_view(self.pending_messages@));
            }
            i = i + 1;
        }
        assert(ms.subrange(0, ms.len() as int) =~= ms);
        called
    }

    /// Queues a message from the host, addressed to the modules that listen
    /// to its name now; names in the debug namespace are dropped.
    pub fn queue_message(&mut self, name: &str, data: EventData)
        requires
            old(self).wf(),
        ensures
            final(self).wf(),
            final(self).modules == old(self).modules,
            final(self).entities == old(self).entities,
            final(self).notices == old(self).notices,
            is_debug_name(name@) ==> final(self).pending_messages == old(self).pending_messages,
            !is_debug_name(name@) ==> queued_view(final(self).pending_messages@) == queued_view(
                old(self).pending_messages@,
            ).push((name@, data, targets(old(self).modules@, name@))),
            final(self).next_id == old(self).next_id,
            final(self).time == old(self).time,
    {
        if is_debug_event(name) {
            return ;
        }
        let audience = self.listeners(name);
        let ghost before = self.pending_messages@;
        self.pending_messages.push(QueuedMessage { name: String::from_str(name), data, audience });
        assert(queued_view(self.pending_messages@) =~= queued_view(before).push(
            (name@, data, targets(old(self).modules@, name@)),
        ));
        assert forall|k: int| 0 <= k < self.pending_messages@.len() implies !is_debug_name(
            #[trigger] self.pending_messages@[k].name@,
        ) by {
            if k < before.len() {
                assert(self.pending_messages@[k] == before[k]);
            }
        }
    }

    /// Delivers every queued message once, oldest first, to the modules of
    /// its audience that still run and listen; messages queued while this
    /// runs wait for the next drain. Returns what was delivered.
    pub fn run_pending(&mut self) -> (r: Vec<Delivery>)
        requires
            old(self).wf(),
        ensures
            final(self).wf(),
            final(self).modules@.len() == old(self).modules@.len(),
            r@.len() == old(self).pending_messages@.len(),
            forall|k: int|
                0 <= k < r@.len() ==> (#[trigger] r@[k]).name@ == old(self).pending_messages@[k].name@
                    && r@[k].entities@ == old(self).pending_messages@[k].data.entities@,
            forall|k: int, j: int|
                0 <= k < r@.len() && 0 <= j < r@[k].called@.len() ==> old(
                    self,
                ).pending_messages@[k].audience@.contains(#[trigger] r@[k].called@[j]),
            final(self).time == old(self).time,
    {
        let mut messages: Vec<QueuedMessage> = Vec::new();
        std::mem::swap(&mut messages, &mut self.pending_messages);
        let mut delivered: Vec<Delivery> = Vec::new();
        let ghost all = messages@;
        while messages.len() > 0
            invariant
                self.wf(),
                self.modules@.len() == old(self).modules@.len(),
                all == old(self).pending_messages@,
                delivered@.len() <= all.len(),
                messages@ == all.subrange(delivered@.len() as int, all.len() as int),
                forall|k: int|
                    0 <= k < delivered@.len() ==> (#[trigger] delivered@[k]).name@ == all[k].name@
                        && delivered@[k].entities@ == all[k].data.entities@,
                forall|k: int, j: int|
                    0 <= k < delivered@.len() && 0 <= j < delivered@[k].called@.len()
                        ==> all[k].audience@.contains(#[trigger] delivered@[k].called@[j]),
                self.time == old(self).time,
            decreases messages@.len(),
        {
            let ghost done = delivered@.len();
            let message = messages.remove(0);
            assert(message == all[done as int]);
            let label = message.name.clone();
            let entities = copy_ids(&message.data.entities);
            let context = RunContext::new(message.name, message.data, self.time);
            let ghost ms = self.modules@;
            let called = self.run_among(&context, &message.audience);
            proof {
                lemma_among_in_audience(ms, context.event_name@, message.audience@);
            }
            let ghost d0 = delivered@;
            delivered.push(Delivery { name: label, entities, called });
            assert(messages@ =~= all.subrange(delivered@.len() as int, all.len() as int));
            assert forall|k: int, j: int|
                0 <= k < delivered@.len() && 0 <= j < delivered@[k].called@.len() implies all[k].audience@.contains(
                    #[trigger] delivered@[k].called@[j],
                ) by {
                if k < d0.len() {
                    assert(delivered@[k] == d0[k]);
                }
            }
        }
        delivered
    }

    /// Dispatches a system event to every module that listens, and records it.
    fn dispatch_system(&mut self, name: String, entities: Vec<u64>, dispatched: &mut Vec<Delivery>)
        requires
            old(self).wf(),
        ensures
            final(self).wf(),
            final(self).modules@.len() == old(self).modules@.len(),
            final(self).time == old(self).time,
            final(dispatched)@.len() == old(dispatched)@.len() + 1,
            final(dispatched)@.drop_last() == old(dispatched)@,
            delivery_view(final(dispatched)@.last()) == (name@, entities@),
            final(dispatched)@.last().called@ == targets(old(self).modules@, name@),
            is_prefix(queued_view(old(self).pending_messages@), queued_view(final(self).pending_messages@)),
    {
        let label = name.clone();
        let ids = copy_ids(&entities);
        let context = RunContext::new(name, EventData { entities }, self.time);
        let called = self.run_all(&context);
        dispatched.push(Delivery { name: label, entities: ids, called });
        assert(dispatched@.drop_last() =~= old(dispatched)@);
    }

    /// One simulation tick: reloads the modules whose desired state changed,
    /// then dispatches, in this order, the host's world events, the frame
    /// event, one collision event per colliding pair (when physics data is
    /// there), one collider-loads event (when the batch is not empty), and
    /// finally drains the queued messages.
    pub fn tick(
        &mut self,
        time: u64,
        world_events: Vec<(String, EventData)>,
        collisions: Option<Vec<(Option<u64>, Option<u64>)>>,
        collider_loads: Option<Vec<u64>>,
    ) -> (r: TickReport<G>)
        requires
            old(self).wf(),
        ensures
            final(self).wf(),
            final(self).modules@.len() == old(self).modules@.len(),
            final(self).time == time,
            load_view(r.started@) == changed_plan(old(self).modules@),
            deliveries_view(r.dispatched@) == system_events(
                world_view(world_events@),
                match collisions {
                    Some(v) => v@,
                    None => Seq::empty(),
                },
                match collider_loads {
                    Some(v) => v@,
                    None => Seq::empty(),
                },
            ),
            r.seen@.len() == r.dispatched@.len(),
            r.drained@.len() >= old(self).pending_messages@.len(),
            forall|k: int|
                0 <= k < old(self).pending_messages@.len() ==> (#[trigger] r.drained@[k]).name@
                    == old(self).pending_messages@[k].name@ && r.drained@[k].entities@
                    == old(self).pending_messages@[k].data.entities@,
            forall|k: int|
                0 <= k < r.dispatched@.len() ==> (#[trigger] r.dispatched@[k]).called@ == targets(
                    r.seen@[k],
                    r.dispatched@[k].name@,
                ),
    {
        self.time = time;
        let started = self.reload_changed();
        let mut dispatched: Vec<Delivery> = Vec::new();
        let ghost mut seen: Seq<Seq<Module<G>>> = Seq::empty();
        let mut world_events = world_events;
        let ghost all = world_events@;
        while world_events.len() > 0
            invariant
                self.wf(),
                self.modules@.len() == old(self).modules@.len(),
                self.time == time,
                is_prefix(queued_view(old(self).pending_messages@), queued_view(self.pending_messages@)),
                dispatched@.len() <= all.len(),
                world_events@ == all.subrange(dispatched@.len() as int, all.len() as int),
                deliveries_view(dispatched@) == world_view(
                    all.subrange(0, dispatched@.len() as int),
                ),
                seen.len() == dispatched@.len(),
                forall|k: int|
                    0 <= k < dispatched@.len() ==> (#[trigger] dispatched@[k]).called@ == targets(
                        seen[k],
                        dispatched@[k].name@,
                    ),
            decreases world_events@.len(),
        {
            let ghost done = dispatched@.len();
            let ghost d0 = dispatched@;
            let (name, data) = world_events.remove(0);
            assert(name@ == all[done as int].0@ && data == all[done as int].1);
            proof {
                seen = seen.push(self.modules@);
            }
            let ghost qa = queued_view(self.pending_messages@);
            self.dispatch_system(name, data.entities, &mut dispatched);
            proof {
                lemma_prefix_trans(queued_view(old(self).pending_messages@), qa, queued_view(self.pending_messages@));
            }
            proof {
                assert(world_events@ =~= all.subrange(dispatched@.len() as int, all.len() as int));
                assert(dispatched@ =~= d0.push(dispatched@.last()));
                assert(all.subrange(0, done as int + 1) =~= all.subrange(0, done as int).push(
                    all[done as int],
                ));
                assert(deliveries_view(dispatched@) =~= deliveries_view(d0).push(
                    delivery_view(dispatched@.last()),
                ));
                assert(world_view(all.subrange(0, done as int + 1)) =~= world_view(
                    all.subrange(0, done as int),
                ).push((all[done as int].0@, all[done as int].1.entities@)));
                assert forall|k: int| 0 <= k < dispatched@.len() implies (
                #[trigger] dispatched@[k]).called@ == targets(seen[k], dispatched@[k].name@) by {
                    if k < done {
                        assert(dispatched@[k] == d0[k]);
                    }
                }
            }
        }
        assert(all.subrange(0, all.len() as int) =~= all);
        let ghost wv = deliveries_view(dispatched@);
        let ghost d1 = dispatched@;
        proof {
            seen = seen.push(self.modules@);
        }
        let ghost qa = queued_view(self.pending_messages@);
        self.dispatch_system(frame_event_name(), Vec::new(), &mut dispatched);
        proof {
            lemma_prefix_trans(queued_view(old(self).pending_messages@), qa, queued_view(self.pending_messages@));
        }
        proof {
            assert(dispatched@ =~= d1.push(dispatched@.last()));
            assert(deliveries_view(dispatched@) =~= wv + seq![
                (crate::host::frame_event(), Seq::<u64>::empty()),
            ]);
            assert forall|k: int| 0 <= k < dispatched@.len() implies (
            #[trigger] dispatched@[k]).called@ == targets(seen[k], dispatched@[k].name@) by {
                if k < d1.len() {
                    assert(dispatched@[k] == d1[k]);
                }
            }
        }
        let ghost fv = deliveries_view(dispatched@);
        let ghost pairs_all: Seq<(Option<u64>, Option<u64>)> = if collisions is Some {
            collisions->Some_0@
        } else {
            Seq::empty()
        };
        let ghost d2 = dispatched@;
        if let Some(pairs) = collisions {
            let mut k: usize = 0;
            while k < pairs.len()
                invariant
                    self.wf(),
                    self.modules@.len() == old(self).modules@.len(),
                    self.time == time,
                    is_prefix(queued_view(old(self).pending_messages@), queued_view(self.pending_messages@)),
                    pairs_all == pairs@,
                    k <= pairs@.len(),
                    dispatched@.len() == d2.len() + k,
                    dispatched@.subrange(0, d2.len() as int) == d2,
                    deliveries_view(dispatched@) == fv
                        + collision_events(pairs@.subrange(0, k as int)),
                    seen.len() == dispatched@.len(),
                    forall|j: int|
                        0 <= j < dispatched@.len() ==> (#[trigger] dispatched@[j]).called@ == targets(
                            seen[j],
                            dispatched@[j].name@,
                        ),
                decreases pairs@.len() - k,
            {
                let (a, b) = pairs[k];
                let mut ids: Vec<u64> = Vec::new();
                if let Some(x) = a {
                    ids.push(x);
                }
                if let Some(y) = b {
                    ids.push(y);
                }
                assert(ids@ =~= pair_ids(pairs@[k as int]));
                let ghost d3 = dispatched@;
                proof {
                    seen = seen.push(self.modules@);
                }
                let ghost qa = queued_view(self.pending_messages@);
                self.dispatch_system(collision_event_name(), ids, &mut dispatched);
                proof {
                    lemma_prefix_trans(queued_view(old(self).pending_messages@), qa, queued_view(self.pending_messages@));
                }
                proof {
                    assert(dispatched@ =~= d3.push(dispatched@.last()));
                    assert(pairs@.subrange(0, k + 1) =~= pairs@.subrange(0, k as int).push(
                        pairs@[k as int],
                    ));
                    assert(deliveries_view(dispatched@) =~= deliveries_view(d3).push(
                        delivery_view(dispatched@.last()),
                    ));
                    assert(collision_events(pairs@.subrange(0, k + 1)) =~= collision_events(
                        pairs@.subrange(0, k as int),
                    ).push((crate::host::collision_event(), pair_ids(pairs@[k as int]))));
                    assert(deliveries_view(dispatched@) =~= fv
                        + collision_events(pairs@.subrange(0, k + 1)));
                    assert(dispatched@.subrange(0, d2.len() as int) =~= d3.subrange(
                        0,
                        d2.len() as int,
                    ));
                    assert forall|j: int| 0 <= j < dispatched@.len() implies (
                    #[trigger] dispatched@[j]).called@ == targets(seen[j], dispatched@[j].name@) by {
                        if j < d3.len() {
                            assert(dispatched@[j] == d3[j]);
                        }
                    }
                }
                k = k + 1;
            }
            assert(pairs@.subrange(0, pairs@.len() as int) =~= pairs@);
        } else {
            assert(deliveries_view(dispatched@) =~= fv
                + collision_events(pairs_all));
        }
        let ghost cv = deliveries_view(dispatched@);
        let ghost d4 = dispatched@;
        if let Some(loaded) = collider_loads {
            if loaded.len() > 0 {
                proof {
                    seen = seen.push(self.modules@);
                }
                let ghost qa = queued_view(self.pending_messages@);
                self.dispatch_system(collider_loads_event_name(), loaded, &mut dispatched);
                proof {
                    lemma_prefix_trans(queued_view(old(self).pending_messages@), qa, queued_view(self.pending_messages@));
                }
                proof {
                    assert(dispatched@ =~= d4.push(dispatched@.last()));
                    assert(deliveries_view(dispatched@) =~= cv
                        + seq![(crate::host::collider_loads_event(), loaded@)]);
                    assert forall|j: int| 0 <= j < dispatched@.len() implies (
                    #[trigger] dispatched@[j]).called@ == targets(seen[j], dispatched@[j].name@) by {
                        if j < d4.len() {
                            assert(dispatched@[j] == d4[j]);
                        }
                    }
                }
            } else {
                assert(cv =~= cv + Seq::<(Seq<char>, Seq<u64>)>::empty());
            }
        } else {
            assert(cv =~= cv + Seq::<(Seq<char>, Seq<u64>)>::empty());
        }
        let ghost pend = self.pending_messages@;
        let drained = self.run_pending();
        proof {
            assert forall|k: int| 0 <= k < old(self).pending_messages@.len() implies #[trigger] pend[k].name@
                == old(self).pending_messages@[k].name@ && pend[k].data.entities@
                == old(self).pending_messages@[k].data.entities@ by {
                assert(queued_view(pend)[k] == queued_view(old(self).pending_messages@)[k]);
            }
        }
        TickReport { started, dispatched, drained, seen: Ghost(seen) }
    }
}

} // verus!
