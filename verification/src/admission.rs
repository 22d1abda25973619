//! Admission control for incoming connections.
//!
//! As the listener loop accepts connections it consults an [`Admission`]
//! controller, which applies two caps in order: a per-address cap (no
//! address may hold more than a fixed number of channels open at once;
//! a connection over it is rejected outright and closed unserved) and a
//! global concurrency cap (only a fixed number of admitted channels are
//! actively served at any instant; the rest wait until a served channel
//! completes and frees a slot). The pool is unordered: no fairness is
//! promised across waiting channels beyond "some channel, eventually".
//!
//! The controller is pure state: the loop outside the library feeds it one
//! event at a time through [`Admission::step`] and performs the action it
//! returns.

use vstd::prelude::*;

verus! {

/// What the controller decides for a newly accepted connection.
#[derive(Clone, Copy, Debug, PartialEq, Eq, Structural)]
pub enum Decision {
    /// Over the per-address cap: close the connection without serving it.
    Rejected,
    /// A served slot is free: serve the channel now.
    Serve,
    /// Every served slot is busy: hold the channel until one frees up.
    Queued,
}

/// One event observed by the listener loop.
#[derive(Clone, Copy, Debug, PartialEq, Eq, Structural)]
pub enum ListenerEvent {
    /// A connection was accepted, originating from this address.
    Accepted(u128),
    /// The accept itself failed; a bad accept is never fatal to the loop.
    AcceptFailed,
    /// A served channel from this address completed and was drained.
    Completed(u128),
}

/// What the loop does next in reaction to an event.
#[derive(Clone, Copy, Debug, PartialEq, Eq, Structural)]
pub enum ListenerAction {
    /// Nothing to serve or close: keep accepting.
    KeepAccepting,
    /// Close the rejected connection without serving it; no error frame is
    /// owed to the peer.
    Reject,
    /// Serve the newly admitted channel now.
    ServeNow,
    /// Hold the newly admitted channel until a served slot frees up.
    Hold,
    /// A slot freed up: also begin serving this waiting channel.
    StartQueued(u128),
}

/// How many entries of `s` equal `a`.
pub open spec fn count_of(s: Seq<u128>, a: u128) -> nat
    decreases s.len(),
{
    if s.len() == 0 {
        0
    } else {
        count_of(s.drop_last(), a) + (if s.last() == a {
            1nat
        } else {
            0nat
        })
    }
}

/// The position of the first entry of `s` equal to `a`.
pub open spec fn first_index_of(s: Seq<u128>, a: u128) -> int
    decreases s.len(),
{
    if s.len() == 0 {
        -1
    } else if s[0] == a {
        0
    } else {
        1 + first_index_of(s.drop_first(), a)
    }
}

/// The controller's state as the model sees it: the addresses of the
/// channels being served, the addresses of those waiting, and the two
/// caps.
#[verifier::ext_equal]
pub struct AdmissionView {
    /// How many channels one address may hold open at once.
    pub per_addr_cap: nat,
    /// How many channels may be actively served at once.
    pub global_cap: nat,
    /// Originating address of each channel being served.
    pub served: Seq<u128>,
    /// Originating address of each admitted channel waiting for a slot.
    pub queued: Seq<u128>,
}

/// How many channels `a` holds open: served and waiting both count.
pub open spec fn open_count(v: AdmissionView, a: u128) -> nat {
    count_of(v.served, a) + count_of(v.queued, a)
}

/// The controller's invariant: the served set never exceeds the global
/// cap, channels wait only while every served slot is busy, and no
/// address holds more open channels than the per-address cap.
pub open spec fn wf(v: AdmissionView) -> bool {
    &&& v.served.len() <= v.global_cap
    &&& v.queued.len() > 0 ==> v.served.len() == v.global_cap
    &&& forall|a: u128| #[trigger] open_count(v, a) <= v.per_addr_cap
}

/// The state and decision after one connection from `addr` arrives.
pub open spec fn spec_connect(v: AdmissionView, addr: u128) -> (AdmissionView, Decision) {
    if open_count(v, addr) >= v.per_addr_cap {
        (v, Decision::Rejected)
    } else if v.served.len() < v.global_cap {
        (
            AdmissionView {
                per_addr_cap: v.per_addr_cap,
                global_cap: v.global_cap,
                served: v.served.push(addr),
                queued: v.queued,
            },
            Decision::Serve,
        )
    } else {
        (
            AdmissionView {
                per_addr_cap: v.per_addr_cap,
                global_cap: v.global_cap,
                served: v.served,
                queued: v.queued.push(addr),
            },
            Decision::Queued,
        )
    }
}

/// The state after a served channel from `addr` completes, and the waiting
/// channel (if any) that its freed slot now serves.
pub open spec fn spec_complete(v: AdmissionView, addr: u128) -> (AdmissionView, Option<u128>) {
    let shrunk = v.served.remove(first_index_of(v.served, addr));
    if v.queued.len() > 0 {
        (
            AdmissionView {
                per_addr_cap: v.per_addr_cap,
                global_cap: v.global_cap,
                served: shrunk.push(v.queued.last()),
                queued: v.queued.drop_last(),
            },
            Some(v.queued.last()),
        )
    } else {
        (
            AdmissionView {
                per_addr_cap: v.per_addr_cap,
                global_cap: v.global_cap,
                served: shrunk,
                queued: v.queued,
            },
            None,
        )
    }
}

/// Appending one entry raises its count by one and no other.
pub proof fn lemma_count_push(s: Seq<u128>, x: u128, a: u128)
    ensures
        count_of(s.push(x), a) == count_of(s, a) + (if x == a {
            1nat
        } else {
            0nat
        }),
{
    assert(s.push(x).drop_last() =~= s);
}

/// Removing one entry lowers its count by one and no other.
pub proof fn lemma_count_remove(s: Seq<u128>, i: int, a: u128)
    requires
        0 <= i < s.len(),
    ensures
        count_of(s, a) == count_of(s.remove(i), a) + (if s[i] == a {
            1nat
        } else {
            0nat
        }),
    decreases s.len(),
{
    if i == s.len() - 1 {
        assert(s.remove(i) =~= s.drop_last());
    } else {
        assert(s.remove(i).drop_last() =~= s.drop_last().remove(i));
        assert(s.remove(i).last() == s.last());
        lemma_count_remove(s.drop_last(), i, a);
    }
}

/// A value that appears nowhere has count zero.
pub proof fn lemma_count_absent_zero(s: Seq<u128>, a: u128)
    requires
        forall|j: int| 0 <= j < s.len() ==> s[j] != a,
    ensures
        count_of(s, a) == 0,
    decreases s.len(),
{
    if s.len() > 0 {
        lemma_count_absent_zero(s.drop_last(), a);
    }
}

/// The first entry equal to `a`, when nothing before position `i` matches
/// and position `i` does, is at `i`.
pub proof fn lemma_first_index_found(s: Seq<u128>, a: u128, i: int)
    requires
        0 <= i < s.len(),
        s[i] == a,
        forall|j: int| 0 <= j < i ==> s[j] != a,
    ensures
        first_index_of(s, a) == i,
    decreases i,
{
    if i > 0 {
        lemma_first_index_found(s.drop_first(), a, i - 1);
    }
}

/// A positive count puts the first matching position in range.
pub proof fn lemma_first_index_in_range(s: Seq<u128>, a: u128)
    requires
        count_of(s, a) > 0,
    ensures
        0 <= first_index_of(s, a) < s.len(),
        s[first_index_of(s, a)] == a,
    decreases s.len(),
{
    assert(exists|j: int| 0 <= j < s.len() && s[j] == a) by {
        if forall|j: int| 0 <= j < s.len() ==> s[j] != a {
            lemma_count_absent_zero(s, a);
        }
    }
    if s[0] != a {
        let j = choose|j: int| 0 <= j < s.len() && s[j] == a;
        assert(count_of(s.drop_first(), a) > 0) by {
            lemma_count_remove(s, 0, a);
            assert(s.remove(0) =~= s.drop_first());
        }
        lemma_first_index_in_range(s.drop_first(), a);
    }
}

/// Admitting a connection preserves the controller's invariant.
pub proof fn lemma_connect_preserves_wf(v: AdmissionView, addr: u128)
    requires
        wf(v),
    ensures
        wf(spec_connect(v, addr).0),
{
    let v1 = spec_connect(v, addr).0;
    if open_count(v, addr) < v.per_addr_cap {
        assert forall|a: u128| #[trigger] open_count(v1, a) <= v1.per_addr_cap by {
            lemma_count_push(v.served, addr, a);
            lemma_count_push(v.queued, addr, a);
            assert(open_count(v, a) <= v.per_addr_cap);
        }
    }
}

/// How a connection changes each address's open-channel count: an admitted
/// one adds a channel for its own address and touches no other; a rejected
/// one changes nothing.
pub proof fn lemma_connect_open_count(v: AdmissionView, addr: u128, a: u128)
    ensures
        spec_connect(v, addr).1 != Decision::Rejected ==> open_count(spec_connect(v, addr).0, a)
            == open_count(v, a) + (if a == addr {
            1nat
        } else {
            0nat
        }),
        spec_connect(v, addr).1 == Decision::Rejected ==> spec_connect(v, addr).0 == v,
{
    lemma_count_push(v.served, addr, a);
    lemma_count_push(v.queued, addr, a);
}

/// A completion preserves the controller's invariant.
pub proof fn lemma_complete_preserves_wf(v: AdmissionView, addr: u128)
    requires
        wf(v),
        count_of(v.served, addr) > 0,
    ensures
        wf(spec_complete(v, addr).0),
{
    lemma_first_index_in_range(v.served, addr);
    let i = first_index_of(v.served, addr);
    let shrunk = v.served.remove(i);
    let v1 = spec_complete(v, addr).0;
    if v.queued.len() > 0 {
        let w = v.queued.last();
        assert forall|a: u128| #[trigger] open_count(v1, a) <= v1.per_addr_cap by {
            lemma_count_remove(v.served, i, a);
            lemma_count_push(shrunk, w, a);
            assert(count_of(v.queued, a) == count_of(v.queued.drop_last(), a) + (if w == a {
                1nat
            } else {
                0nat
            }));
            assert(open_count(v, a) <= v.per_addr_cap);
        }
    } else {
        assert forall|a: u128| #[trigger] open_count(v1, a) <= v1.per_addr_cap by {
            lemma_count_remove(v.served, i, a);
            assert(open_count(v, a) <= v.per_addr_cap);
        }
    }
}

/// Law: admission per address. A connection from an address is rejected
/// exactly when that address already holds as many open channels as the
/// per-address cap, and a rejection changes nothing.
pub proof fn lemma_per_addr_cap(v: AdmissionView, addr: u128)
    requires
        wf(v),
    ensures
        spec_connect(v, addr).1 == Decision::Rejected <==> open_count(v, addr) >= v.per_addr_cap,
        spec_connect(v, addr).1 == Decision::Rejected ==> spec_connect(v, addr).0 == v,
{
}

/// Law: with a per-address cap of two and no channel yet open from `addr`,
/// a first and a second connection from `addr` are admitted (served or
/// held, never rejected), and a third, issued while both are still open,
/// is rejected and leaves the controller unchanged.
pub proof fn lemma_third_connection_rejected(v: AdmissionView, addr: u128)
    requires
        wf(v),
        v.per_addr_cap == 2,
        open_count(v, addr) == 0,
    ensures
        ({
            let (v1, d1) = spec_connect(v, addr);
            let (v2, d2) = spec_connect(v1, addr);
            let (v3, d3) = spec_connect(v2, addr);
            &&& d1 != Decision::Rejected
            &&& d2 != Decision::Rejected
            &&& d3 == Decision::Rejected
            &&& v3 == v2
        }),
{
    let (v1, d1) = spec_connect(v, addr);
    lemma_connect_open_count(v, addr, addr);
    lemma_connect_preserves_wf(v, addr);
    let (v2, d2) = spec_connect(v1, addr);
    lemma_connect_open_count(v1, addr, addr);
    lemma_connect_preserves_wf(v1, addr);
    assert(open_count(v2, addr) == 2);
}

/// Law: the global cap bounds service. In every well-formed state at most
/// `global_cap` channels are served at once; a connection that arrives
/// while every served slot is busy is never served at once — it is
/// queued (or rejected), and the served set is unchanged.
pub proof fn lemma_global_cap(v: AdmissionView, addr: u128)
    requires
        wf(v),
    ensures
        v.served.len() <= v.global_cap,
        v.served.len() == v.global_cap && open_count(v, addr) < v.per_addr_cap ==> spec_connect(
            v,
            addr,
        ).1 == Decision::Queued,
        spec_connect(v, addr).1 != Decision::Serve ==> spec_connect(v, addr).0.served == v.served,
{
}

/// Law: a completion frees a slot. When a served channel completes while
/// others wait, the channel it promotes was waiting, now counts as served,
/// and the served count stays full; only such a completion ever starts a
/// waiting channel. When none waits, the served count drops by one and
/// nothing is promoted.
pub proof fn lemma_complete_promotes(v: AdmissionView, addr: u128)
    requires
        wf(v),
        count_of(v.served, addr) > 0,
    ensures
        ({
            let (v1, p) = spec_complete(v, addr);
            &&& v.queued.len() > 0 ==> {
                &&& p == Some(v.queued.last())
                &&& count_of(v1.served, v.queued.last()) > 0
                &&& v1.queued == v.queued.drop_last()
                &&& v1.served.len() == v.served.len()
            }
            &&& v.queued.len() == 0 ==> {
                &&& p is None
                &&& v1.served.len() == v.served.len() - 1
                &&& v1.queued == v.queued
            }
        }),
{
    lemma_first_index_in_range(v.served, addr);
    let i = first_index_of(v.served, addr);
    if v.queued.len() > 0 {
        let w = v.queued.last();
        lemma_count_push(v.served.remove(i), w, w);
    }
}

/// Governs how many channels may exist per originating address and how
/// many are actively served process-wide. Initialized with no open
/// channels; the listener loop feeds it every accept and completion.
pub struct Admission {
    per_addr_cap: usize,
    global_cap: usize,
    served: Vec<u128>,
    queued: Vec<u128>,
}

impl View for Admission {
    type V = AdmissionView;

    closed spec fn view(&self) -> AdmissionView {
        AdmissionView {
            per_addr_cap: self.per_addr_cap as nat,
            global_cap: self.global_cap as nat,
            served: self.served@,
            queued: self.queued@,
        }
    }
}

/// How many channels one address may hold open at once, unless configured
/// otherwise.
pub const DEFAULT_PER_ADDR_CAP: usize = 2;

/// How many channels are actively served at once, unless configured
/// otherwise.
pub const DEFAULT_GLOBAL_CAP: usize = 10;

impl Admission {
    /// Creates a controller with the given caps and no open channels.
    pub fn new(per_addr_cap: usize, global_cap: usize) -> (r: Self)
        ensures
            wf(r@),
            r@.per_addr_cap == per_addr_cap,
            r@.global_cap == global_cap,
            r@.served == Seq::<u128>::empty(),
            r@.queued == Seq::<u128>::empty(),
    {
        let r = Admission { per_addr_cap, global_cap, served: Vec::new(), queued: Vec::new() };
        proof {
            assert(r@.served =~= Seq::<u128>::empty());
            assert(r@.queued =~= Seq::<u128>::empty());
        }
        r
    }

    /// Decides the fate of a connection just accepted from `addr` and
    /// records it: rejected over the per-address cap, served while a slot
    /// is free, queued otherwise.
    pub fn connect(&mut self, addr: u128) -> (d: Decision)
        requires
            wf(old(self)@),
        ensures
            wf(final(self)@),
            final(self)@ == spec_connect(old(self)@, addr).0,
            d == spec_connect(old(self)@, addr).1,
    {
        proof {
            lemma_connect_preserves_wf(old(self)@, addr);
            assert(open_count(old(self)@, addr) <= old(self)@.per_addr_cap);
        }
        let in_served: usize = count_addr(&self.served, addr);
        let in_queued: usize = count_addr(&self.queued, addr);
        let open_now: usize = in_served + in_queued;
        if open_now >= self.per_addr_cap {
            Decision::Rejected
        } else if self.served.len() < self.global_cap {
            self.served.push(addr);
            Decision::Serve
        } else {
            self.queued.push(addr);
            Decision::Queued
        }
    }

    /// Records that a served channel from `addr` completed — connection
    /// closed and drained — freeing its slot, and returns the waiting
    /// channel that now takes the slot, if any waits.
    pub fn complete(&mut self, addr: u128) -> (promoted: Option<u128>)
        requires
            wf(old(self)@),
            count_of(old(self)@.served, addr) > 0,
        ensures
            wf(final(self)@),
            final(self)@ == spec_complete(old(self)@, addr).0,
            promoted == spec_complete(old(self)@, addr).1,
    {
        proof {
            lemma_complete_preserves_wf(old(self)@, addr);
        }
        let i: usize = find_addr(&self.served, addr);
        self.served.remove(i);
        match self.queued.pop() {
            Some(w) => {
                self.served.push(w);
                proof {
                    assert(old(self)@.queued.subrange(0, old(self)@.queued.len() - 1)
                        =~= old(self)@.queued.drop_last());
                }
                Some(w)
            },
            None => None,
        }
    }

    /// How many channels are actively served right now.
    pub fn active(&self) -> (c: usize)
        ensures
            c == self@.served.len(),
    {
        self.served.len()
    }

    /// How many admitted channels are waiting for a served slot.
    pub fn waiting(&self) -> (c: usize)
        ensures
            c == self@.queued.len(),
    {
        self.queued.len()
    }

    /// How many served channels originate from `addr`; positive exactly
    /// when a completion from `addr` may be reported.
    pub fn served_count(&self, addr: u128) -> (c: usize)
        ensures
            c == count_of(self@.served, addr),
    {
        count_addr(&self.served, addr)
    }

    /// Advances the listener loop one step: reacts to one event with the
    /// action the loop must perform. A failed accept is ignored and the
    /// loop keeps accepting; an accepted connection goes through
    /// admission; a completion frees a slot and may start a waiting
    /// channel.
    pub fn step(&mut self, event: ListenerEvent) -> (act: ListenerAction)
        requires
            wf(old(self)@),
            event matches ListenerEvent::Completed(addr) ==> count_of(old(self)@.served, addr)
                > 0,
        ensures
            wf(final(self)@),
            match event {
                ListenerEvent::AcceptFailed => final(self)@ == old(self)@ && act
                    == ListenerAction::KeepAccepting,
                ListenerEvent::Accepted(addr) => final(self)@ == spec_connect(old(self)@, addr).0
                    && act == (match spec_connect(old(self)@, addr).1 {
                    Decision::Rejected => ListenerAction::Reject,
                    Decision::Serve => ListenerAction::ServeNow,
                    Decision::Queued => ListenerAction::Hold,
                }),
                ListenerEvent::Completed(addr) => final(self)@ == spec_complete(old(self)@, addr).0
                    && act == (match spec_complete(old(self)@, addr).1 {
                    Some(w) => ListenerAction::StartQueued(w),
                    None => ListenerAction::KeepAccepting,
                }),
            },
    {
        match event {
            ListenerEvent::AcceptFailed => ListenerAction::KeepAccepting,
            ListenerEvent::Accepted(addr) => {
                match self.connect(addr) {
                    Decision::Rejected => ListenerAction::Reject,
                    Decision::Serve => ListenerAction::ServeNow,
                    Decision::Queued => ListenerAction::Hold,
                }
            },
            ListenerEvent::Completed(addr) => {
                match self.complete(addr) {
                    Some(w) => ListenerAction::StartQueued(w),
                    None => ListenerAction::KeepAccepting,
                }
            },
        }
    }
}

/// How many entries of `v` equal `addr`.
fn count_addr(v: &Vec<u128>, addr: u128) -> (c: usize)
    ensures
        c == count_of(v@, addr),
{
    let n: usize = v.len();
    let mut c: usize = 0;
    let mut i: usize = 0;
    while i < n
        invariant
            n == v@.len(),
            i <= n,
            c <= i,
            c == count_of(v@.take(i as int), addr),
        decreases n - i,
    {
        if v[i] == addr {
            c = c + 1;
        }
        i = i + 1;
        proof {
            assert(v@.take(i as int).drop_last() =~= v@.take(i as int - 1));
            assert(v@.take(i as int).last() == v@[i as int - 1]);
        }
    }
    proof {
        assert(v@.take(n as int) =~= v@);
    }
    c
}

/// The position of the first entry of `v` equal to `addr`, which the
/// caller warrants is present.
fn find_addr(v: &Vec<u128>, addr: u128) -> (i: usize)
    requires
        count_of(v@, addr) > 0,
    ensures
        i < v@.len(),
        v@[i as int] == addr,
        i as int == first_index_of(v@, addr),
{
    let n: usize = v.len();
    let mut i: usize = 0;
    while i < n
        invariant
            n == v@.len(),
            i <= n,
            count_of(v@, addr) > 0,
            forall|j: int| 0 <= j < i ==> v@[j] != addr,
        decreases n - i,
    {
        if v[i] == addr {
            proof {
                lemma_first_index_found(v@, addr, i as int);
            }
            return i;
        }
        i = i + 1;
    }
    proof {
        lemma_count_absent_zero(v@, addr);
    }
    assert(false);
    0
}

} // verus!
