//! The scan engine: a state machine for a bounded concurrent sweep of a
//! port range. Workers take ports from it and report probe outcomes back;
//! it collects the open ports in ascending order.

use vstd::prelude::*;

verus! {

/// The lowest port number.
pub const MIN_PORT_NUMBER: u16 = 0;

/// The highest port number.
pub const MAX_PORT_NUMBER: u16 = 65535;

/// The default total per-probe timeout, in milliseconds.
pub const DEFAULT_TIMEOUT_MS: u64 = 1800;

/// The default bound on concurrently outstanding probes.
pub const DEFAULT_POOL_SIZE: usize = 512;

/// The range one run scans: the whole port space when no single port was
/// asked for (zero stands for the full range), else that port alone.
pub fn target_range(scan_port: u16) -> (r: (u16, u16))
    ensures
        scan_port == 0 ==> r == (MIN_PORT_NUMBER, MAX_PORT_NUMBER),
        scan_port != 0 ==> r == (scan_port, scan_port),
{
    if scan_port == 0 {
        (MIN_PORT_NUMBER, MAX_PORT_NUMBER)
    } else {
        (scan_port, scan_port)
    }
}

/// Port `p` has been probed and found open, according to the outcome map `m`.
pub open spec fn port_open(m: Map<u16, bool>, p: int) -> bool {
    &&& 0 <= p <= 65535
    &&& m.contains_key(p as u16)
    &&& m[p as u16]
}

/// The ascending sequence of ports in `[lo, hi]` that the outcome map `m`
/// records as open.
pub open spec fn opens_of(m: Map<u16, bool>, lo: int, hi: int) -> Seq<u16>
    decreases hi + 1 - lo,
{
    if lo > hi {
        Seq::empty()
    } else if port_open(m, lo) {
        seq![lo as u16] + opens_of(m, lo + 1, hi)
    } else {
        opens_of(m, lo + 1, hi)
    }
}

/// `s` is strictly ascending, hence free of duplicates.
pub open spec fn strictly_ascending(s: Seq<u16>) -> bool {
    forall|a: int, b: int| 0 <= a < b < s.len() ==> s[a] < s[b]
}

/// Every port the outcome sequence lists lies in `[lo, hi]`, is recorded
/// open, and the sequence is strictly ascending.
pub proof fn lemma_opens_of_sorted(m: Map<u16, bool>, lo: int, hi: int)
    ensures
        strictly_ascending(opens_of(m, lo, hi)),
        forall|q: int|
            0 <= q < opens_of(m, lo, hi).len() ==> lo <= #[trigger] opens_of(m, lo, hi)[q] <= hi
                && port_open(m, opens_of(m, lo, hi)[q] as int),
    decreases hi + 1 - lo,
{
    if lo > hi {
    } else {
        lemma_opens_of_sorted(m, lo + 1, hi);
        let rest = opens_of(m, lo + 1, hi);
        if port_open(m, lo) {
            let whole = seq![lo as u16] + rest;
            assert forall|q: int| 0 <= q < whole.len() implies lo <= #[trigger] whole[q] <= hi
                && port_open(m, whole[q] as int) by {
                if q > 0 {
                    assert(whole[q] == rest[q - 1]);
                }
            }
            assert forall|a: int, b: int| 0 <= a < b < whole.len() implies whole[a] < whole[b] by {
                if a > 0 {
                    assert(whole[a] == rest[a - 1] && whole[b] == rest[b - 1]);
                } else {
                    assert(whole[b] == rest[b - 1]);
                }
            }
        }
    }
}

/// Outcome maps that agree on every port of `[lo, hi]` list the same opens.
pub proof fn lemma_opens_of_agree(m1: Map<u16, bool>, m2: Map<u16, bool>, lo: int, hi: int)
    requires
        forall|p: int| lo <= p <= hi ==> port_open(m1, p) == port_open(m2, p),
    ensures
        opens_of(m1, lo, hi) == opens_of(m2, lo, hi),
    decreases hi + 1 - lo,
{
    if lo > hi {
    } else {
        lemma_opens_of_agree(m1, m2, lo + 1, hi);
    }
}

/// The opens of `[lo, hi]` are the opens of `[lo, mid - 1]` followed by
/// those of `[mid, hi]`.
pub proof fn lemma_opens_of_split(m: Map<u16, bool>, lo: int, mid: int, hi: int)
    requires
        lo <= mid <= hi + 1,
    ensures
        opens_of(m, lo, hi) == opens_of(m, lo, mid - 1) + opens_of(m, mid, hi),
    decreases mid - lo,
{
    if lo >= mid {
        assert(opens_of(m, lo, mid - 1) == Seq::<u16>::empty());
        assert(opens_of(m, lo, hi) =~= opens_of(m, lo, mid - 1) + opens_of(m, mid, hi));
    } else {
        lemma_opens_of_split(m, lo + 1, mid, hi);
        if port_open(m, lo) {
            assert(opens_of(m, lo, mid - 1) == seq![lo as u16] + opens_of(m, lo + 1, mid - 1));
            assert(opens_of(m, lo, hi) =~= opens_of(m, lo, mid - 1) + opens_of(m, mid, hi));
        } else {
            assert(opens_of(m, lo, mid - 1) == opens_of(m, lo + 1, mid - 1));
            assert(opens_of(m, lo, hi) =~= opens_of(m, lo, mid - 1) + opens_of(m, mid, hi));
        }
    }
}

/// Recording a new open port `p` inserts `p` between the opens below it and
/// the opens above it; recording a closed port changes nothing.
pub proof fn lemma_opens_of_record(m: Map<u16, bool>, lo: int, hi: int, p: u16, open: bool)
    requires
        lo <= p <= hi,
        !m.contains_key(p),
    ensures
        open ==> opens_of(m.insert(p, open), lo, hi) == opens_of(m, lo, p - 1) + seq![p]
            + opens_of(m, p + 1, hi),
        !open ==> opens_of(m.insert(p, open), lo, hi) == opens_of(m, lo, hi),
        opens_of(m, lo, hi) == opens_of(m, lo, p - 1) + opens_of(m, p + 1, hi),
{
    let m2 = m.insert(p, open);
    lemma_opens_of_split(m, lo, p as int, hi);
    lemma_opens_of_split(m, lo, p + 1, hi);
    lemma_opens_of_split(m2, lo, p as int, hi);
    lemma_opens_of_split(m2, lo, p + 1, hi);
    lemma_opens_of_agree(m, m2, lo, p - 1);
    lemma_opens_of_agree(m, m2, p + 1, hi);
    // the singleton interval [p, p]
    assert(opens_of(m, p + 1, p as int) == Seq::<u16>::empty());
    assert(opens_of(m2, p + 1, p as int) == Seq::<u16>::empty());
    assert(!port_open(m, p as int));
    assert(opens_of(m, p as int, p as int) == Seq::<u16>::empty());
    if open {
        assert(port_open(m2, p as int));
        assert(opens_of(m2, p as int, p as int) =~= seq![p]);
    } else {
        assert(!port_open(m2, p as int));
        assert(opens_of(m2, p as int, p as int) == Seq::<u16>::empty());
    }
    assert(opens_of(m, lo, hi) =~= opens_of(m, lo, p - 1) + opens_of(m, p + 1, hi));
    if open {
        assert(opens_of(m2, lo, hi) =~= opens_of(m2, lo, p - 1) + seq![p] + opens_of(
            m2,
            p + 1,
            hi,
        ));
    } else {
        assert(opens_of(m2, lo, hi) =~= opens_of(m, lo, hi));
    }
}

/// A map that records no port as open lists no opens at all.
pub proof fn lemma_opens_of_all_closed(m: Map<u16, bool>, lo: int, hi: int)
    requires
        forall|p: u16| m.contains_key(p) ==> !m[p],
    ensures
        opens_of(m, lo, hi) == Seq::<u16>::empty(),
    decreases hi + 1 - lo,
{
    if lo > hi {
    } else {
        assert(!port_open(m, lo));
        lemma_opens_of_all_closed(m, lo + 1, hi);
    }
}

/// A port of the range is listed among the opens exactly when its recorded
/// outcome is open: the listing holds no more and no fewer.
pub proof fn lemma_opens_of_membership(m: Map<u16, bool>, lo: int, hi: int, p: u16)
    requires
        lo <= p <= hi,
    ensures
        opens_of(m, lo, hi).contains(p) <==> port_open(m, p as int),
{
    lemma_opens_of_sorted(m, lo, hi);
    if port_open(m, p as int) {
        lemma_opens_of_split(m, lo, p as int, hi);
        let left = opens_of(m, lo, p - 1);
        assert(opens_of(m, p as int, hi)[0] == p);
        assert(opens_of(m, lo, hi)[left.len() as int] == p);
    }
}

/// A single-port range yields at most one open port.
pub proof fn lemma_opens_of_singleton(m: Map<u16, bool>, p: int)
    ensures
        opens_of(m, p, p).len() <= 1,
        port_open(m, p) ==> opens_of(m, p, p) == seq![p as u16],
        !port_open(m, p) ==> opens_of(m, p, p) == Seq::<u16>::empty(),
{
    assert(opens_of(m, p + 1, p) == Seq::<u16>::empty());
    if port_open(m, p) {
        assert(opens_of(m, p, p) =~= seq![p as u16]);
    }
}

/// A finite set of ports that all lie in `[lo, next)` has at most
/// `next - lo` elements.
proof fn lemma_ports_below_card(dom: Set<u16>, lo: int, next: int)
    requires
        dom.finite(),
        lo <= next <= 65536,
        0 <= lo,
        forall|p: u16| dom.contains(p) ==> lo <= p < next,
    ensures
        dom.len() <= next - lo,
    decreases next - lo,
{
    broadcast use vstd::set::group_set_axioms;

    if next <= lo {
        assert(dom =~= Set::empty());
    } else {
        let last = (next - 1) as u16;
        if dom.contains(last) {
            lemma_ports_below_card(dom.remove(last), lo, next - 1);
        } else {
            lemma_ports_below_card(dom, lo, next - 1);
        }
    }
}

/// A finite set of `next - lo` ports that all lie in `[lo, next)` holds
/// every port of `[lo, next)`.
proof fn lemma_ports_below_full(dom: Set<u16>, lo: int, next: int)
    requires
        dom.finite(),
        lo <= next <= 65536,
        0 <= lo,
        forall|p: u16| dom.contains(p) ==> lo <= p < next,
        dom.len() >= next - lo,
    ensures
        forall|p: u16| lo <= p < next ==> dom.contains(p),
{
    broadcast use vstd::set::group_set_axioms;

    assert forall|p: u16| lo <= p < next implies dom.contains(p) by {
        if !dom.contains(p) {
            lemma_ports_below_card(dom.insert(p), lo, next);
        }
    }
}

/// The scan engine: tracks one bounded concurrent sweep of the port range
/// `[lo, hi]`. Callers draw ports to probe from `next_probe` — never more
/// than the pool size in flight at once — and report each probe's outcome
/// back through `record_outcome`; the engine collects the ports found open,
/// in ascending order, in `open_ports`.
pub struct ScanEngine {
    lo: u16,
    hi: u16,
    pool: usize,
    /// One past the last port handed out; ports are dispatched in order.
    next: u32,
    /// Dispatched probes whose outcome has not come back yet.
    in_flight: usize,
    /// Per port of the range, whether its outcome has been recorded.
    reported: Vec<bool>,
    /// The ports found open so far, strictly ascending.
    found: Vec<u16>,
    /// The outcome of every recorded probe.
    outcomes: Ghost<Map<u16, bool>>,
}

impl ScanEngine {
    /// The first port of the range under scan.
    pub closed spec fn lo_spec(&self) -> u16 {
        self.lo
    }

    /// The last port of the range under scan.
    pub closed spec fn hi_spec(&self) -> u16 {
        self.hi
    }

    /// The bound on concurrently outstanding probes.
    pub closed spec fn pool_spec(&self) -> int {
        self.pool as int
    }

    /// Ports below this bound have been handed out to workers.
    pub closed spec fn dispatched_upto(&self) -> int {
        self.next as int
    }

    /// How many dispatched probes still lack an outcome.
    pub closed spec fn in_flight_count(&self) -> int {
        self.in_flight as int
    }

    /// The outcomes recorded so far, per port.
    pub closed spec fn outcomes(&self) -> Map<u16, bool> {
        self.outcomes@
    }

    /// The open ports collected so far.
    pub closed spec fn results_seq(&self) -> Seq<u16> {
        self.found@
    }

    /// Port `p` has been dispatched but its outcome is still owed.
    pub open spec fn pending(&self, p: u16) -> bool {
        &&& self.lo_spec() <= p <= self.hi_spec()
        &&& (p as int) < self.dispatched_upto()
        &&& !self.outcomes().contains_key(p)
    }

    /// A further probe may be dispatched: the range is not exhausted and
    /// the pool bound leaves room.
    pub open spec fn can_dispatch_spec(&self) -> bool {
        &&& self.dispatched_upto() <= self.hi_spec() as int
        &&& self.in_flight_count() < self.pool_spec()
    }

    /// Every port of the range has been dispatched and every outcome has
    /// come back.
    pub open spec fn complete(&self) -> bool {
        &&& self.dispatched_upto() == self.hi_spec() + 1
        &&& self.in_flight_count() == 0
    }

    /// The engine's internal invariant, established by `new` and kept by
    /// every method.
    pub closed spec fn wf(&self) -> bool {
        &&& self.lo <= self.hi
        &&& self.pool >= 1
        &&& self.lo <= self.next <= self.hi + 1
        &&& self.reported@.len() == self.hi - self.lo + 1
        &&& forall|p: u16|
            self.lo <= p <= self.hi ==> (self.reported@[p - self.lo]
                == self.outcomes@.contains_key(p))
        &&& forall|p: u16|
            self.outcomes@.contains_key(p) ==> self.lo <= p <= self.hi && (p as int) < self.next
        &&& self.outcomes@.dom().finite()
        &&& self.in_flight == self.next - self.lo - self.outcomes@.dom().len()
        &&& self.found@ == opens_of(self.outcomes@, self.lo as int, self.hi as int)
    }

    /// Start a sweep of `[lo, hi]` with at most `pool` probes in flight.
    pub fn new(lo: u16, hi: u16, pool: usize) -> (r: ScanEngine)
        requires
            lo <= hi,
            pool >= 1,
        ensures
            r.wf(),
            r.lo_spec() == lo,
            r.hi_spec() == hi,
            r.pool_spec() == pool,
            r.dispatched_upto() == lo,
            r.in_flight_count() == 0,
            r.outcomes() == Map::<u16, bool>::empty(),
            r.results_seq() == Seq::<u16>::empty(),
    {
        let len: usize = (hi - lo) as usize + 1;
        let mut reported: Vec<bool> = Vec::new();
        let mut k: usize = 0;
        while k < len
            invariant
                k <= len,
                reported@.len() == k,
                forall|q: int| 0 <= q < k ==> !reported@[q],
            decreases len - k,
        {
            reported.push(false);
            k += 1;
        }
        let engine = ScanEngine {
            lo,
            hi,
            pool,
            next: lo as u32,
            in_flight: 0,
            reported,
            found: Vec::new(),
            outcomes: Ghost(Map::empty()),
        };
        proof {
            broadcast use vstd::set::group_set_axioms;

            assert(engine.outcomes@.dom() =~= Set::<u16>::empty());
            lemma_opens_of_all_closed(engine.outcomes@, lo as int, hi as int);
        }
        engine
    }

    /// The next port to probe, if the range is not exhausted and the pool
    /// bound leaves room; the port handed out was never handed out before,
    /// so its outcome is owed and not yet recorded.
    pub fn next_probe(&mut self) -> (r: Option<u16>)
        requires
            old(self).wf(),
        ensures
            final(self).wf(),
            final(self).lo_spec() == old(self).lo_spec(),
            final(self).hi_spec() == old(self).hi_spec(),
            final(self).pool_spec() == old(self).pool_spec(),
            final(self).outcomes() == old(self).outcomes(),
            final(self).results_seq() == old(self).results_seq(),
            match r {
                Some(p) => {
                    &&& old(self).can_dispatch_spec()
                    &&& p as int == old(self).dispatched_upto()
                    &&& old(self).lo_spec() <= p <= old(self).hi_spec()
                    &&& final(self).dispatched_upto() == old(self).dispatched_upto() + 1
                    &&& final(self).in_flight_count() == old(self).in_flight_count() + 1
                    &&& final(self).pending(p)
                },
                None => {
                    &&& !old(self).can_dispatch_spec()
                    &&& final(self).dispatched_upto() == old(self).dispatched_upto()
                    &&& final(self).in_flight_count() == old(self).in_flight_count()
                },
            },
    {
        if self.next <= self.hi as u32 && self.in_flight < self.pool {
            let p = self.next as u16;
            self.next = self.next + 1;
            self.in_flight = self.in_flight + 1;
            Some(p)
        } else {
            None
        }
    }

    /// Record the outcome of the probe of `port`: `open` tells whether the
    /// connection attempt succeeded within the timeout. Accepted exactly
    /// when the port's outcome is owed — a port never dispatched, or
    /// reported twice, is refused, so no outcome is counted twice.
    pub fn record_outcome(&mut self, port: u16, open: bool) -> (r: bool)
        requires
            old(self).wf(),
        ensures
            final(self).wf(),
            final(self).lo_spec() == old(self).lo_spec(),
            final(self).hi_spec() == old(self).hi_spec(),
            final(self).pool_spec() == old(self).pool_spec(),
            final(self).dispatched_upto() == old(self).dispatched_upto(),
            r == old(self).pending(port),
            r ==> final(self).outcomes() == old(self).outcomes().insert(port, open)
                && final(self).in_flight_count() == old(self).in_flight_count() - 1,
            !r ==> final(self).outcomes() == old(self).outcomes() && final(self).in_flight_count()
                == old(self).in_flight_count() && final(self).results_seq() == old(
                self,
            ).results_seq(),
    {
        if port < self.lo || port > self.hi {
            return false;
        }
        if port as u32 >= self.next {
            return false;
        }
        let idx = (port - self.lo) as usize;
        if self.reported[idx] {
            return false;
        }
        let ghost m = self.outcomes@;
        let ghost m2 = m.insert(port, open);
        proof {
            broadcast use vstd::set::group_set_axioms;

            assert(m.dom().insert(port) =~= m2.dom());
            lemma_ports_below_card(
                m.dom().insert(port),
                self.lo as int,
                self.next as int,
            );
            lemma_opens_of_record(m, self.lo as int, self.hi as int, port, open);
        }
        self.reported.set(idx, true);
        self.outcomes = Ghost(m2);
        self.in_flight = self.in_flight - 1;
        if open {
            let ghost left = opens_of(m, self.lo as int, port - 1);
            let ghost right = opens_of(m, port + 1, self.hi as int);
            proof {
                lemma_opens_of_sorted(m, self.lo as int, port - 1);
                lemma_opens_of_sorted(m, port + 1, self.hi as int);
            }
            let mut k: usize = 0;
            while k < self.found.len() && self.found[k] < port
                invariant
                    k <= self.found@.len(),
                    forall|j: int| 0 <= j < k ==> self.found@[j] < port,
                decreases self.found@.len() - k,
            {
                k += 1;
            }
            proof {
                assert(self.found@ == left + right);
                if k < left.len() {
                    assert(self.found@[k as int] == left[k as int]);
                    assert(false);
                }
                if k > left.len() {
                    assert(self.found@[k - 1] == right[k - 1 - left.len()]);
                    assert(false);
                }
                assert(k == left.len());
            }
            self.found.insert(k, port);
            proof {
                assert(self.found@ =~= left + seq![port] + right);
            }
        }
        true
    }

    /// The sweep is complete: every port of the range was dispatched and
    /// every outcome has come back, so every port has a recorded outcome.
    pub fn is_done(&self) -> (r: bool)
        requires
            self.wf(),
        ensures
            r == self.complete(),
            r ==> forall|p: u16|
                self.lo_spec() <= p <= self.hi_spec() ==> self.outcomes().contains_key(p),
    {
        let r = self.next > self.hi as u32 && self.in_flight == 0;
        proof {
            if r {
                lemma_ports_below_full(
                    self.outcomes@.dom(),
                    self.lo as int,
                    self.next as int,
                );
            }
        }
        r
    }

    /// Whether a further probe may be dispatched right now.
    pub fn can_dispatch(&self) -> (r: bool)
        requires
            self.wf(),
        ensures
            r == self.can_dispatch_spec(),
    {
        self.next <= self.hi as u32 && self.in_flight < self.pool
    }

    /// The ports found open so far, in strictly ascending order.
    pub fn open_ports(&self) -> (r: &Vec<u16>)
        ensures
            r@ == self.results_seq(),
    {
        &self.found
    }

    /// The first port of the range under scan.
    pub fn lo(&self) -> (r: u16)
        ensures
            r == self.lo_spec(),
    {
        self.lo
    }

    /// The last port of the range under scan.
    pub fn hi(&self) -> (r: u16)
        ensures
            r == self.hi_spec(),
    {
        self.hi
    }
}

/// What the engine has collected is exactly what its outcomes dictate: the
/// ascending sequence of ports recorded open — no more, no fewer, and
/// independent of the order in which outcomes came back.
pub proof fn lemma_results_of_outcomes(e: &ScanEngine)
    requires
        e.wf(),
    ensures
        e.results_seq() == opens_of(e.outcomes(), e.lo_spec() as int, e.hi_spec() as int),
{
}

/// Two sweeps of the same range whose probes saw the same outcomes collect
/// the same results, whatever order their workers finished in.
pub proof fn lemma_results_deterministic(e1: &ScanEngine, e2: &ScanEngine)
    requires
        e1.wf(),
        e2.wf(),
        e1.lo_spec() == e2.lo_spec(),
        e1.hi_spec() == e2.hi_spec(),
        e1.outcomes() == e2.outcomes(),
    ensures
        e1.results_seq() == e2.results_seq(),
{
    lemma_results_of_outcomes(e1);
    lemma_results_of_outcomes(e2);
}

/// The collected results are strictly ascending — free of duplicates — and
/// every entry is a port of the range whose probe succeeded.
pub proof fn lemma_results_sorted(e: &ScanEngine)
    requires
        e.wf(),
    ensures
        strictly_ascending(e.results_seq()),
        forall|q: int|
            0 <= q < e.results_seq().len() ==> e.lo_spec() <= #[trigger] e.results_seq()[q]
                <= e.hi_spec() && port_open(e.outcomes(), e.results_seq()[q] as int),
{
    lemma_results_of_outcomes(e);
    lemma_opens_of_sorted(e.outcomes(), e.lo_spec() as int, e.hi_spec() as int);
}

/// A port of the range stands in the results exactly when its probe was
/// recorded open: once every outcome is in, the collection holds exactly
/// the set of ports that succeeded — no more, no fewer.
pub proof fn lemma_results_membership(e: &ScanEngine, p: u16)
    requires
        e.wf(),
        e.lo_spec() <= p <= e.hi_spec(),
    ensures
        e.results_seq().contains(p) <==> e.outcomes().contains_key(p) && e.outcomes()[p],
{
    lemma_results_of_outcomes(e);
    lemma_opens_of_membership(e.outcomes(), e.lo_spec() as int, e.hi_spec() as int, p);
}

/// A sweep in which no probe succeeded collects nothing.
pub proof fn lemma_results_all_closed(e: &ScanEngine)
    requires
        e.wf(),
        forall|p: u16| e.outcomes().contains_key(p) ==> !e.outcomes()[p],
    ensures
        e.results_seq() == Seq::<u16>::empty(),
{
    lemma_results_of_outcomes(e);
    lemma_opens_of_all_closed(e.outcomes(), e.lo_spec() as int, e.hi_spec() as int);
}

/// A single-port sweep collects at most that one port.
pub proof fn lemma_results_single_port(e: &ScanEngine)
    requires
        e.wf(),
        e.lo_spec() == e.hi_spec(),
    ensures
        e.results_seq().len() <= 1,
        e.results_seq().len() == 1 ==> e.results_seq()[0] == e.lo_spec(),
{
    lemma_results_of_outcomes(e);
    lemma_opens_of_singleton(e.outcomes(), e.lo_spec() as int);
}

} // verus!
