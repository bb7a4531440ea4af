//! Event subscriptions and outgoing messages of one running instance.
use vstd::prelude::*;

verus! {

/// The prefix of event names that are internal to the host and never reach
/// guest code.
pub open spec fn debug_prefix() -> Seq<char> {
    seq!['d', 'i', 'm', 's', '/']
}

/// True when `name` lies in the host-internal debug namespace.
pub open spec fn is_debug_name(name: Seq<char>) -> bool {
    name.len() >= debug_prefix().len() && name.subrange(0, debug_prefix().len() as int)
        == debug_prefix()
}

/// Per-instance event bookkeeping: the names the instance listens to and the
/// messages it has sent that still wait for delivery.
pub struct EventSharedState<P> {
    pub subscribed_events: Vec<String>,
    pub events: Vec<(String, P)>,
}

impl<P> EventSharedState<P> {
    /// The set of names the instance listens to.
    pub open spec fn subscriptions(&self) -> Set<Seq<char>> {
        Set::new(|n: Seq<char>| exists|i: int| 0 <= i < self.subscribed_events@.len()
            && #[trigger] self.subscribed_events@[i]@ == n)
    }

    /// No name is listed twice.
    pub open spec fn wf(&self) -> bool {
        forall|i: int, j: int|
            0 <= i < j < self.subscribed_events@.len() ==> #[trigger] self.subscribed_events@[i]@
                != #[trigger] self.subscribed_events@[j]@
    }

    /// State with no subscriptions and no queued messages.
    pub fn new() -> (r: Self)
        ensures
            r.wf(),
            r.subscriptions() == Set::<Seq<char>>::empty(),
            r.events@.len() == 0,
    {
        let r = EventSharedState { subscribed_events: Vec::new(), events: Vec::new() };
        assert(r.subscriptions() =~= Set::<Seq<char>>::empty());
        r
    }

    /// Whether the instance listens to `name`.
    pub fn supports_event(&self, name: &str) -> (r: bool)
        ensures
            r == self.subscriptions().contains(name@),
    {
        let mut i: usize = 0;
        while i < self.subscribed_events.len()
            invariant
                i <= self.subscribed_events@.len(),
                forall|k: int| 0 <= k < i ==> self.subscribed_events@[k]@ != name@,
            decreases self.subscribed_events@.len() - i,
        {
            if str_eq(self.subscribed_events[i].as_str(), name) {
                return true;
            }
            i = i + 1;
        }
        false
    }
}

/// Character-wise equality of two strings.
pub fn str_eq(a: &str, b: &str) -> (r: bool)
    ensures
        r == (a@ == b@),
{
    let n = a.unicode_len();
    if n != b.unicode_len() {
        return false;
    }
    let mut i: usize = 0;
    while i < n
        invariant
            n == a@.len(),
            n == b@.len(),
            i <= n,
            forall|k: int| 0 <= k < i ==> a@[k] == b@[k],
        decreases n - i,
    {
        if a.get_char(i) != b.get_char(i) {
            return false;
        }
        i = i + 1;
    }
    assert(a@ =~= b@);
    true
}

/// Whether `name` begins with the host-internal debug prefix.
pub fn is_debug_event(name: &str) -> (r: bool)
    ensures
        r == is_debug_name(name@),
{
    let prefix = "dims/";
    proof {
        reveal_strlit("dims/");
        assert(prefix@ =~= debug_prefix());
    }
    let n = name.unicode_len();
    if n < 5 {
        return false;
    }
    let mut i: usize = 0;
    while i < 5
        invariant
            n == name@.len(),
            n >= 5,
            i <= 5,
            prefix@ == debug_prefix(),
            forall|k: int| 0 <= k < i ==> name@[k] == debug_prefix()[k],
        decreases 5 - i,
    {
        if name.get_char(i) != prefix.get_char(i) {
            return false;
        }
        i = i + 1;
    }
    assert(name@.subrange(0, 5) =~= debug_prefix());
    true
}

/// Adds `name` to the subscriptions; adding a name already present changes
/// nothing.
pub fn subscribe<P>(shared_state: &mut EventSharedState<P>, name: &str)
    requires
        old(shared_state).wf(),
    ensures
        final(shared_state).wf(),
        final(shared_state).subscriptions() == old(shared_state).subscriptions().insert(name@),
        final(shared_state).events@ == old(shared_state).events@,
{
    if shared_state.supports_event(name) {
        assert(old(shared_state).subscriptions().insert(name@) =~= old(shared_state).subscriptions());
        return;
    }
    let s = String::from_str(name);
    shared_state.subscribed_events.push(s);
    let ghost olds = old(shared_state).subscribed_events@;
    let ghost news = shared_state.subscribed_events@;
    assert(forall|i: int| 0 <= i < olds.len() ==> news[i] == olds[i]);
    assert(shared_state.subscriptions() =~= old(shared_state).subscriptions().insert(name@)) by {
        assert(news[olds.len() as int]@ == name@);
    }
}

/// Queues a message for later delivery; names in the debug namespace are
/// dropped.
pub fn send<P>(shared_state: &mut EventSharedState<P>, name: &str, data: P)
    ensures
        final(shared_state).subscribed_events@ == old(shared_state).subscribed_events@,
        is_debug_name(name@) ==> final(shared_state).events@ == old(shared_state).events@,
        !is_debug_name(name@) ==> final(shared_state).events@.len() == old(shared_state).events@.len() + 1
            && final(shared_state).events@.drop_last() == old(shared_state).events@
            && final(shared_state).events@.last().0@ == name@
            && final(shared_state).events@.last().1 == data,
{
    if is_debug_event(name) {
        return;
    }
    shared_state.events.push((String::from_str(name), data));
    assert(shared_state.events@.drop_last() =~= old(shared_state).events@);
}

} // verus!
