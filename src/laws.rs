//! Properties that hold across calls of the library.
use vstd::prelude::*;

use crate::dispatch::listens;
use crate::dispatch::ran;
use crate::dispatch::snap;
use crate::lifecycle::too_many_errors;
use crate::lifecycle::unloaded;
use crate::module::GuestRequest;
use crate::dispatch::targets;
use crate::dispatch::targets_among;
use crate::event::is_debug_name;
use crate::host::Host;
use crate::host::keeps;
use crate::host::would_overflow;
use crate::module::EntityRecord;
use crate::module::Guest;
use crate::module::MAXIMUM_ERROR_COUNT;
use crate::module::MessageType;
use crate::module::Module;

verus! {

/// The error log after one more failure, as `Host::update_errors` leaves it:
/// emptied when the push would exceed the limit, else extended.
pub open spec fn log_after(log: Seq<String>, err: String) -> Seq<String> {
    if would_overflow(log) {
        Seq::empty()
    } else {
        log.push(err)
    }
}

/// The error log after the failures `errs`, one after another.
pub open spec fn log_after_all(log: Seq<String>, errs: Seq<String>) -> Seq<String>
    decreases errs.len(),
{
    if errs.len() == 0 {
        log
    } else {
        log_after(log_after_all(log, errs.drop_last()), errs.last())
    }
}

/// Starting from an empty log, the first five failures of a running module
/// are logged without an unload, and the sixth finds a full log: it unloads
/// the module and leaves the log empty.
pub proof fn lemma_error_threshold(errs: Seq<String>)
    requires
        errs.len() == MAXIMUM_ERROR_COUNT + 1,
    ensures
        forall|k: int|
            0 <= k < MAXIMUM_ERROR_COUNT ==> #[trigger] log_after_all(
                Seq::empty(),
                errs.subrange(0, k),
            ).len() == k && !would_overflow(log_after_all(Seq::empty(), errs.subrange(0, k))),
        would_overflow(log_after_all(Seq::empty(), errs.subrange(0, MAXIMUM_ERROR_COUNT as int))),
        log_after_all(Seq::empty(), errs) == Seq::<String>::empty(),
{
    let e = Seq::<String>::empty();
    lemma_log_step(errs, 1);
    lemma_log_step(errs, 2);
    lemma_log_step(errs, 3);
    lemma_log_step(errs, 4);
    lemma_log_step(errs, 5);
    lemma_log_step(errs, 6);
    assert(errs.subrange(0, 0) =~= e);
    assert(log_after_all(e, errs.subrange(0, 0)) == e);
    assert(log_after_all(e, errs.subrange(0, 1)).len() == 1);
    assert(log_after_all(e, errs.subrange(0, 2)).len() == 2);
    assert(log_after_all(e, errs.subrange(0, 3)).len() == 3);
    assert(log_after_all(e, errs.subrange(0, 4)).len() == 4);
    assert(log_after_all(e, errs.subrange(0, 5)).len() == 5);
    assert(errs.subrange(0, 6) =~= errs);
    assert forall|k: int| 0 <= k < MAXIMUM_ERROR_COUNT implies #[trigger] log_after_all(
        e,
        errs.subrange(0, k),
    ).len() == k && !would_overflow(log_after_all(e, errs.subrange(0, k))) by {
        if k == 0 {
        } else if k == 1 {
        } else if k == 2 {
        } else if k == 3 {
        } else {
        }
    }
}

/// Six failing dispatches in a row to a module that runs with an empty log,
/// as `Host::run_module` states them: after each of the first five the
/// module still runs and its log holds one more error; after the sixth it no
/// longer runs and its log is empty.
pub proof fn lemma_six_failures<G: Guest>(
    hosts: Seq<Host<G>>,
    names: Seq<Seq<char>>,
    errs: Seq<String>,
    i: int,
)
    requires
        hosts.len() == MAXIMUM_ERROR_COUNT + 2,
        names.len() == MAXIMUM_ERROR_COUNT + 1,
        errs.len() == MAXIMUM_ERROR_COUNT + 1,
        0 <= i < hosts[0].modules@.len(),
        hosts[0].modules@[i].running(),
        hosts[0].modules@[i].errors@.len() == 0,
        forall|k: int|
            0 <= k <= MAXIMUM_ERROR_COUNT ==> ran(
                snap(#[trigger] hosts[k]),
                hosts[k + 1],
                i,
                names[k],
                Some(Err(errs[k])),
            ),
    ensures
        forall|k: int|
            1 <= k <= MAXIMUM_ERROR_COUNT ==> (#[trigger] hosts[k]).modules@[i].running()
                && hosts[k].modules@[i].errors@.len() == k,
        !hosts[MAXIMUM_ERROR_COUNT + 1].modules@[i].running(),
        hosts[MAXIMUM_ERROR_COUNT + 1].modules@[i].errors@.len() == 0,
{
    lemma_failure_step(hosts[0], hosts[1], i, names[0], errs[0]);
    lemma_failure_step(hosts[1], hosts[2], i, names[1], errs[1]);
    lemma_failure_step(hosts[2], hosts[3], i, names[2], errs[2]);
    lemma_failure_step(hosts[3], hosts[4], i, names[3], errs[3]);
    lemma_failure_step(hosts[4], hosts[5], i, names[4], errs[4]);
    lemma_failure_step(hosts[5], hosts[6], i, names[5], errs[5]);
    assert forall|k: int| 1 <= k <= MAXIMUM_ERROR_COUNT implies (#[trigger] hosts[k]).modules@[i].running()
        && hosts[k].modules@[i].errors@.len() == k by {
        if k == 1 {
        } else if k == 2 {
        } else if k == 3 {
        } else if k == 4 {
        } else {
        }
    }
}

/// One failing dispatch: below the limit the module keeps running with one
/// more error; at the limit it is unloaded with an empty log.
proof fn lemma_failure_step<G: Guest>(h0: Host<G>, h1: Host<G>, i: int, name: Seq<char>, e: String)
    requires
        0 <= i < h0.modules@.len(),
        ran(snap(h0), h1, i, name, Some(Err(e))),
    ensures
        h1.modules@.len() == h0.modules@.len(),
        h1.modules@[i].errors@ == log_after(h0.modules@[i].errors@, e),
        !would_overflow(h0.modules@[i].errors@) ==> h1.modules@[i].running(),
        would_overflow(h0.modules@[i].errors@) && h0.modules@[i].running() ==> !h1.modules@[i].running()
            && h1.modules@[i].errors@.len() == 0,
{
    let m = h0.modules@[i];
    if would_overflow(m.errors@) {
        let log1 = h0.notice_log().push((m.id, MessageType::Error, crate::lifecycle::error_text(e@)));
        let (u, reqs) = choose|u: Option<Result<(), String>>, reqs: Seq<GuestRequest>|
            unloaded(
                m.id,
                m.state.unwrap().shared.subscriptions(),
                m.state.unwrap().spawned_entities@,
                (snap(h0).1, snap(h0).2, snap(h0).3, log1),
                h1,
                i,
                too_many_errors(),
                u,
                reqs,
            );
    }
}

/// One more failure extends the history by one step.
proof fn lemma_log_step(errs: Seq<String>, k: int)
    requires
        1 <= k <= errs.len(),
    ensures
        log_after_all(Seq::empty(), errs.subrange(0, k)) == log_after(
            log_after_all(Seq::empty(), errs.subrange(0, k - 1)),
            errs[k - 1],
        ),
{
    let s = errs.subrange(0, k);
    assert(s.drop_last() =~= errs.subrange(0, k - 1));
    assert(s.last() == errs[k - 1]);
}

/// No message waiting for delivery lies in the debug namespace, so none of
/// them ever reaches a guest.
pub proof fn lemma_debug_names_never_pending<G: Guest>(h: &Host<G>, name: Seq<char>)
    requires
        h.wf(),
        is_debug_name(name),
    ensures
        forall|k: int|
            0 <= k < h.pending_messages@.len() ==> #[trigger] h.pending_messages@[k].name@ != name,
{
}

/// How often `x` occurs in `s`.
pub open spec fn occurrences(s: Seq<u64>, x: u64) -> nat
    decreases s.len(),
{
    if s.len() == 0 {
        0
    } else {
        occurrences(s.drop_last(), x) + if s.last() == x {
            1nat
        } else {
            0nat
        }
    }
}

/// Among modules with distinct identities, a dispatch of `name` calls each
/// module that runs and listens to `name` exactly once, and no other.
pub proof fn lemma_dispatch_once<G>(ms: Seq<Module<G>>, name: Seq<char>, i: int)
    requires
        0 <= i < ms.len(),
        forall|a: int, b: int| 0 <= a < b < ms.len() ==> #[trigger] ms[a].id != #[trigger] ms[b].id,
    ensures
        occurrences(targets(ms, name), ms[i].id) == if listens(ms[i], name) {
            1nat
        } else {
            0nat
        },
    decreases ms.len(),
{
    let id = ms[i].id;
    let rest = ms.drop_last();
    let t = targets(rest, name);
    if listens(ms.last(), name) {
        assert(targets(ms, name).drop_last() =~= t);
    }
    if i == ms.len() - 1 {
        lemma_absent(rest, name, id);
    } else {
        lemma_dispatch_once(rest, name, i);
        assert(ms.last().id != id);
    }
}

proof fn lemma_absent<G>(ms: Seq<Module<G>>, name: Seq<char>, id: u64)
    requires
        forall|a: int| 0 <= a < ms.len() ==> #[trigger] ms[a].id != id,
    ensures
        occurrences(targets(ms, name), id) == 0,
    decreases ms.len(),
{
    if ms.len() > 0 {
        lemma_absent(ms.drop_last(), name, id);
        assert(ms.last().id != id);
        if listens(ms.last(), name) {
            assert(targets(ms, name).drop_last() =~= targets(ms.drop_last(), name));
        }
    }
}

/// A queued message goes to the modules that listened to its name when it
/// was sent: among modules with distinct identities, module `i` receives it
/// exactly once when it listened then and still runs and listens at
/// delivery, and never otherwise; a module that subscribed only after the
/// send is not called for it.
pub proof fn lemma_subscribe_before_send<G>(
    at_send: Seq<Module<G>>,
    at_drain: Seq<Module<G>>,
    name: Seq<char>,
    i: int,
)
    requires
        0 <= i < at_send.len(),
        i < at_drain.len(),
        at_send[i].id == at_drain[i].id,
        forall|a: int, b: int|
            0 <= a < b < at_send.len() ==> #[trigger] at_send[a].id != #[trigger] at_send[b].id,
        forall|a: int, b: int|
            0 <= a < b < at_drain.len() ==> #[trigger] at_drain[a].id != #[trigger] at_drain[b].id,
    ensures
        occurrences(targets_among(at_drain, name, targets(at_send, name)), at_drain[i].id) == if listens(
            at_send[i],
            name,
        ) && listens(at_drain[i], name) {
            1nat
        } else {
            0nat
        },
{
    let audience = targets(at_send, name);
    lemma_dispatch_once(at_send, name, i);
    lemma_occurrences_contains(audience, at_send[i].id);
    lemma_among_once(at_drain, name, audience, i);
}

proof fn lemma_occurrences_contains(s: Seq<u64>, x: u64)
    ensures
        s.contains(x) <==> occurrences(s, x) > 0,
    decreases s.len(),
{
    if s.len() > 0 {
        lemma_occurrences_contains(s.drop_last(), x);
        if s.drop_last().contains(x) {
            let k = choose|k: int| 0 <= k < s.drop_last().len() && s.drop_last()[k] == x;
            assert(s[k] == x);
        }
        if s.contains(x) && s.last() != x {
            let k = choose|k: int| 0 <= k < s.len() && s[k] == x;
            assert(s.drop_last()[k] == x);
        }
    }
}

proof fn lemma_among_once<G>(ms: Seq<Module<G>>, name: Seq<char>, audience: Seq<u64>, i: int)
    requires
        0 <= i < ms.len(),
        forall|a: int, b: int| 0 <= a < b < ms.len() ==> #[trigger] ms[a].id != #[trigger] ms[b].id,
    ensures
        occurrences(targets_among(ms, name, audience), ms[i].id) == if listens(ms[i], name)
            && audience.contains(ms[i].id) {
            1nat
        } else {
            0nat
        },
    decreases ms.len(),
{
    let id = ms[i].id;
    let rest = ms.drop_last();
    if listens(ms.last(), name) && audience.contains(ms.last().id) {
        assert(targets_among(ms, name, audience).drop_last() =~= targets_among(rest, name, audience));
    }
    if i == ms.len() - 1 {
        lemma_among_absent(rest, name, audience, id);
    } else {
        lemma_among_once(rest, name, audience, i);
        assert(ms.last().id != id);
    }
}

proof fn lemma_among_absent<G>(ms: Seq<Module<G>>, name: Seq<char>, audience: Seq<u64>, id: u64)
    requires
        forall|a: int| 0 <= a < ms.len() ==> #[trigger] ms[a].id != id,
    ensures
        occurrences(targets_among(ms, name, audience), id) == 0,
    decreases ms.len(),
{
    if ms.len() > 0 {
        lemma_among_absent(ms.drop_last(), name, audience, id);
        assert(ms.last().id != id);
        if listens(ms.last(), name) && audience.contains(ms.last().id) {
            assert(targets_among(ms, name, audience).drop_last() =~= targets_among(
                ms.drop_last(),
                name,
                audience,
            ));
        }
    }
}

/// After an unload, no entity the instance spawned is left unless it is
/// marked persistent, and every persistent one is still there.
pub proof fn lemma_unload_cleanup(entities: Seq<EntityRecord>, spawned: Seq<u64>)
    ensures
        forall|e: EntityRecord|
            #[trigger] entities.filter(keeps(spawned)).contains(e) && spawned.contains(e.id)
                ==> e.persistent,
        forall|e: EntityRecord|
            entities.contains(e) && e.persistent ==> #[trigger] entities.filter(
                keeps(spawned),
            ).contains(e),
        forall|e: EntityRecord|
            entities.contains(e) && !spawned.contains(e.id) ==> #[trigger] entities.filter(
                keeps(spawned),
            ).contains(e),
{
    assert forall|e: EntityRecord|
        #[trigger] entities.filter(keeps(spawned)).contains(e) && spawned.contains(e.id)
            implies e.persistent by {
        entities.lemma_filter_contains_rev(keeps(spawned), e);
    }
    assert forall|e: EntityRecord|
        entities.contains(e) && (e.persistent || !spawned.contains(e.id)) implies #[trigger] entities.filter(
            keeps(spawned),
        ).contains(e) by {
        let k = choose|k: int| 0 <= k < entities.len() && entities[k] == e;
        entities.lemma_filter_contains(keeps(spawned), k);
    }
}

/// How many notices of a log are errors.
pub open spec fn error_notices(log: Seq<(u64, MessageType, Seq<char>)>) -> nat
    decreases log.len(),
{
    if log.len() == 0 {
        0
    } else {
        error_notices(log.drop_last()) + if log.last().1 == MessageType::Error {
            1nat
        } else {
            0nat
        }
    }
}

/// A failing dispatch adds exactly one error notice to the log, whether or
/// not it also unloads the module (when the unloading dispatch itself does
/// not fail).
pub proof fn lemma_one_error_notice(
    log: Seq<(u64, MessageType, Seq<char>)>,
    id: u64,
    text: Seq<char>,
    unload: Seq<char>,
)
    ensures
        error_notices(log.push((id, MessageType::Error, text))) == error_notices(log) + 1,
        error_notices(log.push((id, MessageType::Error, text)).push((id, MessageType::Info, unload)))
            == error_notices(log) + 1,
{
    let l1 = log.push((id, MessageType::Error, text));
    assert(l1.drop_last() =~= log);
    assert(l1.last().1 == MessageType::Error);
    assert(error_notices(l1) == error_notices(log) + 1);
    let l2 = l1.push((id, MessageType::Info, unload));
    assert(l2.drop_last() =~= l1);
    assert(l2.last().1 == MessageType::Info);
    assert(l2.last().1 != MessageType::Error);
}

} // verus!
