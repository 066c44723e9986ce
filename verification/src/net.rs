//! The host-liveness prober's state: a per-session set of target addresses
//! with liveness marks, and the drain logic that correlates Echo Replies to
//! targets by source address and ends the session on the first silence gap.
//!
//! Opening the raw ICMP transport, sending the packets, and the background
//! listener that forwards reply source addresses into a channel are I/O and
//! live outside this library; they hand their observations in as plain
//! values ([`Address`], [`ProbeEvent`]) or through the reply channel.

use vstd::prelude::*;
use std::sync::mpsc::Receiver;

verus! {

/// A resolved host address, as plain bits: the four bytes of an IPv4
/// address or the sixteen of an IPv6 address, in big-endian order.
#[derive(Clone, Copy, PartialEq, Eq, Structural, Debug)]
pub enum Address {
    V4(u32),
    V6(u128),
}

/// One observation made while draining a probe session's reply channel:
/// either an Echo Reply's source address, or a receive window that elapsed
/// in silence.
#[derive(Clone, Copy, PartialEq, Eq, Structural, Debug)]
pub enum ProbeEvent {
    Reply(Address),
    TimedOut,
}

/// The position of address `a` in the target sequence, or its length when
/// `a` is not tracked.
pub open spec fn addr_index(s: Seq<(Address, bool)>, a: Address) -> int
    decreases s.len(),
{
    if s.len() == 0 {
        0
    } else if s[0].0 == a {
        0
    } else {
        1 + addr_index(s.drop_first(), a)
    }
}

/// Whether address `a` is tracked in the target sequence.
pub open spec fn has_addr(s: Seq<(Address, bool)>, a: Address) -> bool {
    addr_index(s, a) < s.len()
}

/// Whether address `a` is tracked and currently marked live.
pub open spec fn marked(s: Seq<(Address, bool)>, a: Address) -> bool {
    has_addr(s, a) && s[addr_index(s, a)].1
}

/// `addr_index` finds the first position holding `a`, if any.
pub proof fn lemma_addr_index(s: Seq<(Address, bool)>, a: Address)
    ensures
        0 <= addr_index(s, a) <= s.len(),
        addr_index(s, a) < s.len() ==> s[addr_index(s, a)].0 == a,
        forall|j: int| 0 <= j < addr_index(s, a) ==> (#[trigger] s[j]).0 != a,
        addr_index(s, a) == s.len() ==> forall|j: int|
            0 <= j < s.len() ==> (#[trigger] s[j]).0 != a,
    decreases s.len(),
{
    if s.len() > 0 && s[0].0 != a {
        lemma_addr_index(s.drop_first(), a);
        assert forall|j: int| 0 <= j < addr_index(s, a) implies (#[trigger] s[j]).0 != a by {
            if j > 0 {
                assert(s.drop_first()[j - 1] == s[j]);
            }
        }
        if addr_index(s, a) == s.len() {
            assert forall|j: int| 0 <= j < s.len() implies (#[trigger] s[j]).0 != a by {
                if j > 0 {
                    assert(s.drop_first()[j - 1] == s[j]);
                }
            }
        }
    }
}

/// `addr_index` looks only at the addresses, not at the marks: updating a
/// position's mark while keeping its address moves no index.
pub proof fn lemma_addr_index_mark_update(
    s: Seq<(Address, bool)>,
    a: Address,
    k: int,
    v: bool,
)
    requires
        0 <= k < s.len(),
    ensures
        addr_index(s.update(k, (s[k].0, v)), a) == addr_index(s, a),
    decreases s.len(),
{
    let t = s.update(k, (s[k].0, v));
    assert(t.len() == s.len());
    assert(t[0].0 == s[0].0);
    if s.len() > 0 && s[0].0 != a {
        if k == 0 {
            assert(t.drop_first() =~= s.drop_first());
        } else {
            assert(t.drop_first() =~= s.drop_first().update(k - 1, (s.drop_first()[k - 1].0, v)));
            lemma_addr_index_mark_update(s.drop_first(), a, k - 1, v);
        }
    }
}

/// The target sequence after one Echo Reply from `a`: its mark becomes
/// live when `a` is tracked; an untracked sender changes nothing.
pub open spec fn mark_reply(s: Seq<(Address, bool)>, a: Address) -> Seq<(Address, bool)> {
    if has_addr(s, a) {
        s.update(addr_index(s, a), (a, true))
    } else {
        s
    }
}

/// The position of the first timed-out receive among the drain events, or
/// their number when every window saw a reply.
pub open spec fn first_timeout(evs: Seq<ProbeEvent>) -> int
    decreases evs.len(),
{
    if evs.len() == 0 {
        0
    } else if evs[0] is TimedOut {
        0
    } else {
        1 + first_timeout(evs.drop_first())
    }
}

/// The target sequence after draining `evs` in order: replies mark their
/// senders until the first timed-out receive ends the session.
pub open spec fn drained(s: Seq<(Address, bool)>, evs: Seq<ProbeEvent>) -> Seq<(Address, bool)>
    decreases evs.len(),
{
    if evs.len() == 0 {
        s
    } else {
        match evs[0] {
            ProbeEvent::TimedOut => s,
            ProbeEvent::Reply(a) => drained(mark_reply(s, a), evs.drop_first()),
        }
    }
}

/// The prober's per-session target set: each tracked address with its
/// liveness mark, in the order the targets were added.
pub struct Pinger {
    addrs: Vec<(Address, bool)>,
}

impl View for Pinger {
    type V = Seq<(Address, bool)>;

    closed spec fn view(&self) -> Seq<(Address, bool)> {
        self.addrs@
    }
}

impl Pinger {
    /// Tracked addresses are pairwise distinct.
    pub open spec fn wf(&self) -> bool {
        forall|i: int, j: int|
            0 <= i < j < self@.len() ==> (#[trigger] self@[i]).0 != (#[trigger] self@[j]).0
    }

    /// A session with no targets.
    pub fn new() -> (p: Pinger)
        ensures
            p.wf(),
            p@ =~= Seq::<(Address, bool)>::empty(),
    {
        Pinger { addrs: Vec::new() }
    }

    /// Track `addr` for this session, initially not live; tracking an
    /// address again resets its mark.
    pub fn add_target(&mut self, addr: Address)
        requires
            old(self).wf(),
        ensures
            final(self).wf(),
            final(self)@ == if has_addr(old(self)@, addr) {
                old(self)@.update(addr_index(old(self)@, addr), (addr, false))
            } else {
                old(self)@.push((addr, false))
            },
            has_addr(final(self)@, addr),
            !marked(final(self)@, addr),
    {
        proof {
            lemma_addr_index(self@, addr);
        }
        let n = self.addrs.len();
        let mut i: usize = 0;
        while i < n
            invariant
                old(self).wf(),
                n == self@.len(),
                i <= n,
                self == old(self),
                forall|j: int| 0 <= j < i ==> (#[trigger] self@[j]).0 != addr,
            decreases n - i,
        {
            if self.addrs[i].0 == addr {
                proof {
                    lemma_addr_index(self@, addr);
                    assert(addr_index(self@, addr) == i);
                }
                let e = &mut self.addrs[i];
                *e = (addr, false);
                proof {
                    assert(self@ =~= old(self)@.update(i as int, (addr, false)));
                    lemma_addr_index_mark_update(old(self)@, addr, i as int, false);
                    lemma_addr_index(self@, addr);
                    assert forall|p: int, q: int| 0 <= p < q < self@.len() implies (
                    #[trigger] self@[p]).0 != (#[trigger] self@[q]).0 by {
                        assert(old(self)@[i as int].0 == addr);
                        assert(self@[p].0 == old(self)@[p].0);
                        assert(self@[q].0 == old(self)@[q].0);
                        assert(old(self)@[p].0 != old(self)@[q].0);
                    }
                }
                return ;
            }
            i = i + 1;
        }
        let ghost pre = self@;
        self.addrs.push((addr, false));
        proof {
            assert(self@ =~= pre.push((addr, false)));
            lemma_addr_index(self@, addr);
            let idx = addr_index(self@, addr);
            if idx < n {
                assert(self@[idx] == pre[idx]);
                assert(false);
            }
            if idx == n + 1 {
                assert(self@[n as int].0 == addr);
                assert(false);
            }
            assert(idx == n);
            assert forall|p: int, q: int| 0 <= p < q < self@.len() implies (
            #[trigger] self@[p]).0 != (#[trigger] self@[q]).0 by {
                if q < n {
                    assert(self@[p] == pre[p] && self@[q] == pre[q]);
                } else {
                    assert(self@[p] == pre[p]);
                    assert(self@[q].0 == addr);
                }
            }
        }
    }

    /// Record one Echo Reply whose source address is `addr`: mark it live
    /// when tracked, change nothing otherwise. Correlation is by source
    /// address alone; identifier and sequence play no part.
    pub fn on_reply(&mut self, addr: Address)
        requires
            old(self).wf(),
        ensures
            final(self).wf(),
            final(self)@ == mark_reply(old(self)@, addr),
            final(self)@.len() == old(self)@.len(),
            forall|i: int| 0 <= i < old(self)@.len() ==> (#[trigger] final(self)@[i]).0
                == old(self)@[i].0,
            forall|i: int|
                0 <= i < old(self)@.len() && old(self)@[i].1 ==> (#[trigger] final(self)@[i]).1,
    {
        proof {
            lemma_addr_index(self@, addr);
        }
        let n = self.addrs.len();
        let mut i: usize = 0;
        while i < n
            invariant
                old(self).wf(),
                n == self@.len(),
                i <= n,
                self == old(self),
                forall|j: int| 0 <= j < i ==> (#[trigger] self@[j]).0 != addr,
            decreases n - i,
        {
            if self.addrs[i].0 == addr {
                proof {
                    lemma_addr_index(self@, addr);
                    assert(addr_index(self@, addr) == i);
                }
                let e = &mut self.addrs[i];
                *e = (addr, true);
                proof {
                    assert(self@ =~= old(self)@.update(i as int, (addr, true)));
                    lemma_addr_index_mark_update(old(self)@, addr, i as int, true);
                    assert forall|p: int, q: int| 0 <= p < q < self@.len() implies (
                    #[trigger] self@[p]).0 != (#[trigger] self@[q]).0 by {
                        assert(old(self)@[i as int].0 == addr);
                        assert(self@[p].0 == old(self)@[p].0);
                        assert(self@[q].0 == old(self)@[q].0);
                        assert(old(self)@[p].0 != old(self)@[q].0);
                    }
                }
                return ;
            }
            i = i + 1;
        }
        proof {
            lemma_addr_index(self@, addr);
            assert(addr_index(self@, addr) == n);
        }
    }

    /// Open the sending phase: reset every mark and hand back the tracked
    /// addresses, in order, for the caller to send Echo Requests to.
    pub fn begin_probe(&mut self) -> (targets: Vec<Address>)
        requires
            old(self).wf(),
        ensures
            final(self).wf(),
            final(self)@.len() == old(self)@.len(),
            forall|i: int|
                0 <= i < old(self)@.len() ==> #[trigger] final(self)@[i] == (
                old(self)@[i].0,
                false,
            ),
            targets@.len() == old(self)@.len(),
            forall|i: int| 0 <= i < old(self)@.len() ==> #[trigger] targets@[i]
                == old(self)@[i].0,
    {
        let n = self.addrs.len();
        let mut targets: Vec<Address> = Vec::new();
        let mut i: usize = 0;
        while i < n
            invariant
                n == self@.len(),
                self@.len() == old(self)@.len(),
                i <= n,
                targets@.len() == i,
                forall|j: int|
                    0 <= j < i ==> #[trigger] self@[j] == (old(self)@[j].0, false),
                forall|j: int| i <= j < n ==> #[trigger] self@[j] == old(self)@[j],
                forall|j: int| 0 <= j < i ==> #[trigger] targets@[j] == old(self)@[j].0,
            decreases n - i,
        {
            let a = self.addrs[i].0;
            targets.push(a);
            let e = &mut self.addrs[i];
            *e = (a, false);
            i = i + 1;
        }
        proof {
            assert forall|i: int, j: int|
                0 <= i < j < self@.len() implies (#[trigger] self@[i]).0 != (
            #[trigger] self@[j]).0 by {
                assert(self@[i].0 == old(self)@[i].0);
                assert(self@[j].0 == old(self)@[j].0);
            }
        }
        targets
    }

    /// The session's result: each tracked address with its liveness mark.
    pub fn results(&self) -> (r: &Vec<(Address, bool)>)
        ensures
            r@ == self@,
    {
        &self.addrs
    }

    /// Whether `addr` is tracked and marked live.
    pub fn is_alive(&self, addr: Address) -> (b: bool)
        requires
            self.wf(),
        ensures
            b == marked(self@, addr),
    {
        proof {
            lemma_addr_index(self@, addr);
        }
        let n = self.addrs.len();
        let mut i: usize = 0;
        while i < n
            invariant
                n == self@.len(),
                i <= n,
                forall|j: int| 0 <= j < i ==> (#[trigger] self@[j]).0 != addr,
            decreases n - i,
        {
            if self.addrs[i].0 == addr {
                proof {
                    lemma_addr_index(self@, addr);
                    assert(addr_index(self@, addr) == i);
                }
                return self.addrs[i].1;
            }
            i = i + 1;
        }
        proof {
            lemma_addr_index(self@, addr);
        }
        false
    }

    /// Drain a sequence of observations, in order: each reply marks its
    /// sender, and the first timed-out receive ends the session; whatever
    /// follows it is never consumed. Hands back how many observations were
    /// consumed.
    pub fn drain_events(&mut self, events: &Vec<ProbeEvent>) -> (consumed: usize)
        requires
            old(self).wf(),
        ensures
            final(self).wf(),
            final(self)@ == drained(old(self)@, events@),
            consumed == if first_timeout(events@) < events@.len() {
                first_timeout(events@) + 1
            } else {
                events@.len() as int
            },
    {
        let n = events.len();
        proof {
            assert(events@.skip(0) =~= events@);
            assert(events@.take(0) =~= Seq::<ProbeEvent>::empty());
        }
        let mut i: usize = 0;
        while i < n
            invariant
                old(self).wf(),
                self.wf(),
                n == events@.len(),
                i <= n,
                first_timeout(events@.take(i as int)) == i,
                drained(old(self)@, events@) == drained(self@, events@.skip(i as int)),
            decreases n - i,
        {
            let ghost pre = self@;
            let ghost rest = events@.skip(i as int);
            proof {
                assert(rest[0] == events@[i as int]);
                assert(rest.drop_first() =~= events@.skip(i as int + 1));
            }
            match events[i] {
                ProbeEvent::TimedOut => {
                    proof {
                        assert(drained(pre, rest) == pre);
                        lemma_first_timeout_take(events@, i as int);
                        assert(first_timeout(events@) == i);
                    }
                    return i + 1;
                },
                ProbeEvent::Reply(a) => {
                    self.on_reply(a);
                    proof {
                        assert(drained(pre, rest) == drained(mark_reply(pre, a), rest.drop_first()));
                        lemma_first_timeout_take(events@, i as int);
                    }
                },
            }
            i = i + 1;
        }
        proof {
            assert(events@.skip(n as int) =~= Seq::<ProbeEvent>::empty());
            assert(events@.take(n as int) =~= events@);
        }
        n
    }
}

/// Extending a timeout-free prefix by one event: a reply keeps the first
/// timeout beyond the prefix, a timeout pins it at the prefix's end.
proof fn lemma_first_timeout_take(evs: Seq<ProbeEvent>, i: int)
    requires
        0 <= i < evs.len(),
        first_timeout(evs.take(i)) == i,
    ensures
        evs[i] is TimedOut ==> first_timeout(evs.take(i + 1)) == i && first_timeout(evs) == i,
        !(evs[i] is TimedOut) ==> first_timeout(evs.take(i + 1)) == i + 1,
    decreases i,
{
    let t1 = evs.take(i + 1);
    assert(t1.len() == i + 1);
    assert(t1[0] == evs[0]);
    if i == 0 {
        if evs[0] is TimedOut {
            assert(first_timeout(t1) == 0);
            assert(first_timeout(evs) == 0);
        } else {
            assert(t1.drop_first() =~= Seq::<ProbeEvent>::empty());
            assert(first_timeout(t1.drop_first()) == 0);
            assert(first_timeout(t1) == 1);
        }
    } else {
        let p = evs.take(i);
        assert(p.len() == i);
        assert(p[0] == evs[0]);
        assert(!(p[0] is TimedOut)) by {
            if p[0] is TimedOut {
                assert(first_timeout(p) == 0);
            }
        }
        let d = evs.drop_first();
        assert(p.drop_first() =~= d.take(i - 1));
        assert(first_timeout(p) == 1 + first_timeout(p.drop_first()));
        assert(first_timeout(d.take(i - 1)) == i - 1);
        assert(d[i - 1] == evs[i]);
        lemma_first_timeout_take(d, i - 1);
        assert(t1.drop_first() =~= d.take(i));
        assert(first_timeout(t1) == 1 + first_timeout(d.take(i)));
        assert(first_timeout(evs) == 1 + first_timeout(d));
        if evs[i] is TimedOut {
            assert(first_timeout(d.take(i)) == i - 1);
            assert(first_timeout(d) == i - 1);
        } else {
            assert(first_timeout(d.take(i)) == i);
        }
    }
}

/// The first timeout lies no further out than the end of the events.
pub proof fn lemma_first_timeout_bound(evs: Seq<ProbeEvent>)
    ensures
        0 <= first_timeout(evs) <= evs.len(),
    decreases evs.len(),
{
    if evs.len() > 0 && !(evs[0] is TimedOut) {
        lemma_first_timeout_bound(evs.drop_first());
    }
}

/// Law: the drain never looks past the first timed-out receive; the events
/// that follow it leave the session's result untouched.
pub proof fn lemma_drain_stops_at_first_timeout(
    s: Seq<(Address, bool)>,
    evs: Seq<ProbeEvent>,
)
    ensures
        drained(s, evs) == drained(s, evs.take(first_timeout(evs))),
    decreases evs.len(),
{
    lemma_first_timeout_bound(evs);
    if evs.len() > 0 {
        match evs[0] {
            ProbeEvent::TimedOut => {
                assert(evs.take(0) =~= Seq::<ProbeEvent>::empty());
            },
            ProbeEvent::Reply(a) => {
                lemma_drain_stops_at_first_timeout(mark_reply(s, a), evs.drop_first());
                lemma_first_timeout_bound(evs.drop_first());
                let ft = first_timeout(evs);
                assert(ft == 1 + first_timeout(evs.drop_first()));
                assert(evs.take(ft)[0] == evs[0]);
                assert(evs.take(ft).drop_first() =~= evs.drop_first().take(ft - 1));
                assert(drained(s, evs.take(ft)) == drained(
                    mark_reply(s, a),
                    evs.drop_first().take(ft - 1),
                ));
            },
        }
    }
}

/// Law: a session whose first observation is already a timed-out receive —
/// no address replied within one listen window — ends at once, with every
/// mark as it stood.
pub proof fn lemma_silent_session_ends_at_once(s: Seq<(Address, bool)>, evs: Seq<ProbeEvent>)
    requires
        evs.len() > 0,
        evs[0] is TimedOut,
    ensures
        drained(s, evs) == s,
        first_timeout(evs) == 0,
{
}

/// Law of reply correlation: when two distinct addresses are both tracked
/// and unmarked and only the first replies before the receive window
/// elapses, the session ends marking the first live and the second not.
pub proof fn lemma_single_reply_marks_only_its_sender(
    s: Seq<(Address, bool)>,
    a: Address,
    b: Address,
)
    requires
        has_addr(s, a),
        has_addr(s, b),
        a != b,
        forall|i: int| 0 <= i < s.len() ==> !(#[trigger] s[i]).1,
    ensures
        ({
            let post = drained(s, seq![ProbeEvent::Reply(a), ProbeEvent::TimedOut]);
            &&& marked(post, a)
            &&& !marked(post, b)
        }),
{
    let evs = seq![ProbeEvent::Reply(a), ProbeEvent::TimedOut];
    let m = mark_reply(s, a);
    assert(evs.len() == 2);
    assert(evs[0] == ProbeEvent::Reply(a));
    let t = evs.drop_first();
    assert(t.len() == 1);
    assert(t[0] == ProbeEvent::TimedOut);
    assert(drained(s, evs) == drained(m, t));
    assert(drained(m, t) == m);
    lemma_addr_index(s, a);
    let ia = addr_index(s, a);
    lemma_addr_index_mark_update(s, a, ia, true);
    assert(addr_index(m, a) == ia);
    assert(marked(m, a));
    lemma_addr_index(s, b);
    let ib = addr_index(s, b);
    assert(s[ia].0 == a);
    lemma_addr_index_mark_update(s, b, ia, true);
    assert(addr_index(m, b) == ib);
    assert(m[ib] == s[ib]);
    assert(!marked(m, b));
}

/// The receiving half of the reply channel, declared so that the drain can
/// take it; its values are read only through `recv_within`.
#[verifier::external_type_specification]
#[verifier::external_body]
#[verifier::reject_recursive_types(T)]
pub struct ExReceiver<T>(Receiver<T>);

/// Relies on std::sync::mpsc::Receiver::recv_timeout: hands back a message
/// when one arrives within the window, and nothing when the window elapses
/// in silence or the channel disconnects. Which of these happens depends on
/// timing and on the sending thread, so nothing is promised of the outcome.
#[verifier::external_body]
fn recv_within(rx: &Receiver<Address>, timeout_millis: u64) -> (r: Option<Address>) {
    match rx.recv_timeout(std::time::Duration::from_millis(timeout_millis)) {
        Ok(addr) => Some(addr),
        Err(_) => None,
    }
}

impl Pinger {
    /// Drain the session's reply channel: every message received within its
    /// window is an Echo Reply's source address and marks that target live;
    /// the first window that elapses in silence ends the session. The session
    /// never unmarks a target and never changes which addresses are tracked.
    /// `max_events` bounds the drain against an unbroken flood of replies, so
    /// that it always ends.
    pub fn collect_replies(
        &mut self,
        rx: &Receiver<Address>,
        timeout_millis: u64,
        max_events: usize,
    )
        requires
            old(self).wf(),
        ensures
            final(self).wf(),
            final(self)@.len() == old(self)@.len(),
            forall|i: int|
                0 <= i < old(self)@.len() ==> (#[trigger] final(self)@[i]).0 == old(self)@[i].0,
            forall|i: int|
                0 <= i < old(self)@.len() && old(self)@[i].1 ==> (#[trigger] final(self)@[i]).1,
    {
        let mut budget = max_events;
        while budget > 0
            invariant
                self.wf(),
                self@.len() == old(self)@.len(),
                forall|i: int|
                    0 <= i < old(self)@.len() ==> (#[trigger] self@[i]).0 == old(self)@[i].0,
                forall|i: int|
                    0 <= i < old(self)@.len() && old(self)@[i].1 ==> (#[trigger] self@[i]).1,
            decreases budget,
        {
            match recv_within(rx, timeout_millis) {
                Some(addr) => {
                    self.on_reply(addr);
                    budget = budget - 1;
                },
                None => {
                    return ;
                },
            }
        }
    }
}

/// Look up the liveness mark of address `a` in a session's results.
pub fn lookup_mark(results: &Vec<(Address, bool)>, a: Address) -> (r: Option<bool>)
    ensures
        r == if has_addr(results@, a) {
            Option::Some(results@[addr_index(results@, a)].1)
        } else {
            Option::<bool>::None
        },
{
    proof {
        lemma_addr_index(results@, a);
    }
    let n = results.len();
    let mut i: usize = 0;
    while i < n
        invariant
            n == results@.len(),
            i <= n,
            forall|j: int| 0 <= j < i ==> (#[trigger] results@[j]).0 != a,
        decreases n - i,
    {
        if results[i].0 == a {
            proof {
                lemma_addr_index(results@, a);
                assert(addr_index(results@, a) == i);
            }
            return Option::Some(results[i].1);
        }
        i = i + 1;
    }
    proof {
        lemma_addr_index(results@, a);
    }
    Option::None
}

} // verus!
