//! Per-backend health: identity, a bounded latency window with its moving
//! average, and the fairness bookkeeping read and written by selection.
use vstd::prelude::*;

verus! {

/// Sum of a sequence of latency samples.
pub open spec fn sum(s: Seq<u64>) -> int
    decreases s.len(),
{
    if s.len() == 0 {
        0
    } else {
        sum(s.drop_last()) + s.last()
    }
}

/// Arithmetic mean of the samples, rounded down; zero for an empty window.
pub open spec fn mean(s: Seq<u64>) -> int {
    if s.len() == 0 {
        0
    } else {
        sum(s) / (s.len() as int)
    }
}

/// The window after one sample is recorded. A window size of zero means
/// "no bound"; otherwise a full window first drops its oldest sample.
pub open spec fn window_after(h: Seq<u64>, window: usize, sample: u64) -> Seq<u64> {
    if window > 0 && h.len() >= window {
        h.drop_first().push(sample)
    } else {
        h.push(sample)
    }
}

/// The window after recording each of `samples` in turn, starting from `h`.
pub open spec fn window_after_all(h: Seq<u64>, window: usize, samples: Seq<u64>) -> Seq<u64>
    decreases samples.len(),
{
    if samples.len() == 0 {
        h
    } else {
        window_after(window_after_all(h, window, samples.drop_last()), window, samples.last())
    }
}

/// Opaque tag partitioning backends into pools; only compared for equality.
#[derive(Clone, Copy, Debug, PartialEq, Eq, Structural)]
pub struct RouteGroup {
    pub id: u64,
}

impl Default for RouteGroup {
    fn default() -> (r: Self)
        ensures
            r.id == 0,
    {
        RouteGroup { id: 0 }
    }
}

/// Latency tracking of one backend.
#[derive(Clone, Debug)]
pub struct Status {
    /// Fault flag reserved for the transport layer.
    pub is_erroring: bool,
    /// Time of the last fault, reserved for the transport layer.
    pub last_error: u64,
    /// Moving average of `latency_data`, rounded down: the ranking key.
    pub latency: u64,
    /// The most recent samples, oldest first.
    pub latency_data: Vec<u64>,
    /// Maximum number of samples kept; zero keeps them all.
    pub ma_length: usize,
}

impl Status {
    /// Two records hold the same values.
    pub open spec fn agrees_with(self, o: Status) -> bool {
        &&& self.is_erroring == o.is_erroring
        &&& self.last_error == o.last_error
        &&& self.latency == o.latency
        &&& self.latency_data@ == o.latency_data@
        &&& self.ma_length == o.ma_length
    }

    /// The latency is the mean of the window, and the window is within its bound.
    pub open spec fn wf(self) -> bool {
        &&& self.latency == mean(self.latency_data@)
        &&& (self.ma_length > 0 ==> self.latency_data@.len() <= self.ma_length)
    }

    /// A fresh record keeping at most `ma_length` samples.
    pub fn with_window(ma_length: usize) -> (r: Status)
        ensures
            r.wf(),
            !r.is_erroring,
            r.last_error == 0,
            r.latency == 0,
            r.latency_data@ == Seq::<u64>::empty(),
            r.ma_length == ma_length,
    {
        Status { is_erroring: false, last_error: 0, latency: 0, latency_data: Vec::new(), ma_length }
    }

    /// An independent copy of this record.
    pub fn snapshot(&self) -> (r: Status)
        ensures
            r.agrees_with(*self),
    {
        Status {
            is_erroring: self.is_erroring,
            last_error: self.last_error,
            latency: self.latency,
            latency_data: self.latency_data.clone(),
            ma_length: self.ma_length,
        }
    }
}

impl Default for Status {
    fn default() -> (r: Self)
        ensures
            r.wf(),
            !r.is_erroring,
            r.last_error == 0,
            r.latency == 0,
            r.latency_data@ == Seq::<u64>::empty(),
            r.ma_length == 0,
    {
        Status::with_window(0)
    }
}

/// Mean of the samples, rounded down; zero when there are none.
pub fn average(samples: &Vec<u64>) -> (r: u64)
    ensures
        r == mean(samples@),
{
    let n: usize = samples.len();
    if n == 0 {
        return 0;
    }
    let mut acc: u128 = 0;
    let mut i: usize = 0;
    while i < n
        invariant
            n == samples@.len(),
            i <= n,
            acc == sum(samples@.take(i as int)),
            acc <= i * (u64::MAX as int),
        decreases n - i,
    {
        let x: u64 = samples[i];
        assert(samples@.take(i as int + 1).drop_last() == samples@.take(i as int));
        assert((i as int) * (u64::MAX as int) + (u64::MAX as int) == (i as int + 1) * (u64::MAX as int))
            by (nonlinear_arith);
        assert((i as int + 1) * (u64::MAX as int) <= (usize::MAX as int) * (u64::MAX as int))
            by (nonlinear_arith)
            requires
                i < usize::MAX,
                usize::MAX <= u64::MAX,
        ;
        acc = acc + x as u128;
        i = i + 1;
    }
    assert(samples@.take(n as int) == samples@);
    let q: u128 = acc / (n as u128);
    assert(q <= u64::MAX) by (nonlinear_arith)
        requires
            q == (acc as int) / (n as int),
            acc <= n * (u64::MAX as int),
            n > 0,
    ;
    q as u64
}

/// One remote RPC endpoint known to the balancer.
#[derive(Clone, Debug)]
pub struct Rpc {
    /// Address requests are sent to.
    pub url: String,
    /// Address of the subscription channel, if any.
    pub ws_url: Option<String>,
    /// Pool this backend belongs to.
    pub group: RouteGroup,
    /// Latency statistics.
    pub status: Status,
    /// How many times in a row this backend may be chosen.
    pub max_consecutive: u32,
    /// How many times in a row it has been chosen.
    pub consecutive: u32,
    /// Microseconds since the epoch of the last selection; zero if never chosen.
    pub last_used: u128,
    /// Microseconds that must pass after `last_used` before it is preferred again.
    pub min_time_delta: u128,
}

impl Rpc {
    /// Two backends hold the same values.
    pub open spec fn agrees_with(self, o: Rpc) -> bool {
        &&& self.url == o.url
        &&& self.ws_url == o.ws_url
        &&& self.group == o.group
        &&& self.status.agrees_with(o.status)
        &&& self.max_consecutive == o.max_consecutive
        &&& self.consecutive == o.consecutive
        &&& self.last_used == o.last_used
        &&& self.min_time_delta == o.min_time_delta
    }

    /// The placeholder backend: no address, default group, no samples, never used.
    pub open spec fn is_blank(self) -> bool {
        &&& self.url@ == Seq::<char>::empty()
        &&& self.ws_url.is_none()
        &&& self.group.id == 0
        &&& self.status.wf()
        &&& self.status.latency == 0
        &&& self.status.latency_data@ == Seq::<u64>::empty()
        &&& self.status.ma_length == 0
        &&& !self.status.is_erroring
        &&& self.status.last_error == 0
        &&& self.max_consecutive == 0
        &&& self.consecutive == 0
        &&& self.last_used == 0
        &&& self.min_time_delta == 0
    }

    /// `self` is `o` after recording `sample`.
    pub open spec fn recorded(self, o: Rpc, sample: u64) -> bool {
        let h = window_after(o.status.latency_data@, o.status.ma_length, sample);
        &&& self.status.latency_data@ == h
        &&& self.status.latency == mean(h)
        &&& self.status.is_erroring == o.status.is_erroring
        &&& self.status.last_error == o.status.last_error
        &&& self.status.ma_length == o.status.ma_length
        &&& self.url == o.url
        &&& self.ws_url == o.ws_url
        &&& self.group == o.group
        &&& self.max_consecutive == o.max_consecutive
        &&& self.consecutive == o.consecutive
        &&& self.last_used == o.last_used
        &&& self.min_time_delta == o.min_time_delta
    }

    /// A backend in the default group that has never been used.
    pub fn new(
        url: String,
        ws_url: Option<String>,
        max_consecutive: u32,
        min_time_delta: u128,
        ma_length: usize,
    ) -> (r: Rpc)
        ensures
            r.url == url,
            r.ws_url == ws_url,
            r.group.id == 0,
            r.status.wf(),
            r.status.latency == 0,
            r.status.latency_data@ == Seq::<u64>::empty(),
            r.status.ma_length == ma_length,
            !r.status.is_erroring,
            r.status.last_error == 0,
            r.max_consecutive == max_consecutive,
            r.consecutive == 0,
            r.last_used == 0,
            r.min_time_delta == min_time_delta,
    {
        Rpc {
            url,
            ws_url,
            group: RouteGroup::default(),
            status: Status::with_window(ma_length),
            max_consecutive,
            consecutive: 0,
            last_used: 0,
            min_time_delta,
        }
    }

    /// An independent copy of this backend.
    pub fn snapshot(&self) -> (r: Rpc)
        ensures
            r.agrees_with(*self),
    {
        let ws_url = match &self.ws_url {
            Some(u) => Some(u.clone()),
            None => None,
        };
        Rpc {
            url: self.url.clone(),
            ws_url,
            group: self.group,
            status: self.status.snapshot(),
            max_consecutive: self.max_consecutive,
            consecutive: self.consecutive,
            last_used: self.last_used,
            min_time_delta: self.min_time_delta,
        }
    }

    /// Records one latency sample: a full window drops its oldest sample, and
    /// the latency becomes the mean of the window.
    pub fn update_latency(&mut self, latest: u64)
        ensures
            final(self).recorded(*old(self), latest),
            old(self).status.wf() ==> final(self).status.wf(),
    {
        let window: usize = self.status.ma_length;
        if window > 0 && self.status.latency_data.len() >= window {
            self.status.latency_data.remove(0);
        }
        self.status.latency_data.push(latest);
        self.status.latency = average(&self.status.latency_data);
        assert(self.status.latency_data@ =~= window_after(
            old(self).status.latency_data@,
            window,
            latest,
        ));
    }
}

impl Default for Rpc {
    fn default() -> (r: Self)
        ensures
            r.is_blank(),
    {
        Rpc::new(String::new(), None, 0, 0, 0)
    }
}

/// Records a latency sample on the backend at `idx` and on no other.
pub fn record_latency(list: &mut Vec<Rpc>, idx: usize, sample: u64)
    requires
        idx < old(list)@.len(),
    ensures
        final(list)@.len() == old(list)@.len(),
        final(list)@[idx as int].recorded(old(list)@[idx as int], sample),
        forall|j: int| 0 <= j < old(list)@.len() && j != idx ==> final(list)@[j] == old(list)@[j],
{
    list[idx].update_latency(sample);
}

/// Recording samples into a window that has room keeps all of them in order,
/// so the latency is the mean of exactly those samples.
pub proof fn lemma_window_fills(window: usize, samples: Seq<u64>)
    requires
        window == 0 || samples.len() <= window,
    ensures
        window_after_all(Seq::<u64>::empty(), window, samples) == samples,
        mean(window_after_all(Seq::<u64>::empty(), window, samples)) == mean(samples),
    decreases samples.len(),
{
    if samples.len() > 0 {
        lemma_window_fills(window, samples.drop_last());
        assert(samples.drop_last().push(samples.last()) == samples);
    }
}

/// Once the window is full of `samples`, one more sample evicts the oldest:
/// the latency becomes the mean of the others and the new one.
pub proof fn lemma_window_slides(window: usize, samples: Seq<u64>, next: u64)
    requires
        window > 0,
        samples.len() == window,
    ensures
        window_after_all(Seq::<u64>::empty(), window, samples.push(next)) == samples.drop_first().push(next),
        mean(window_after_all(Seq::<u64>::empty(), window, samples.push(next))) == mean(samples.drop_first().push(next)),
{
    lemma_window_fills(window, samples);
    assert(samples.push(next).drop_last() == samples);
}

} // verus!
