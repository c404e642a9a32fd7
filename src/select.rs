//! The selection engine: filters backends by route group, ranks them by
//! latency, and picks one under the fairness and throttle rules.
use vstd::prelude::*;

use crate::clock::clock_micros;
use crate::health::{Rpc, RouteGroup};

verus! {

/// An eligible backend: its position in the pool and its ranking key.
#[derive(Clone, Copy, Debug)]
pub struct RpcIndexed {
    pub idx: usize,
    pub latency: u64,
}

impl RpcIndexed {
    /// The entry for the backend `rpc` at position `idx` of the pool.
    pub fn new(idx: usize, rpc: &Rpc) -> (r: RpcIndexed)
        ensures
            r.idx == idx,
            r.latency == rpc.status.latency,
    {
        RpcIndexed { idx, latency: rpc.status.latency }
    }

    /// Position of the backend in the pool.
    pub fn idx(&self) -> (r: usize)
        ensures
            r == self.idx,
    {
        self.idx
    }
}

/// Entry `a` ranks before entry `b`: lower latency, or equal latency and earlier.
pub open spec fn ranks_before(data: Seq<RpcIndexed>, a: int, b: int) -> bool {
    ||| data[a].latency < data[b].latency
    ||| (data[a].latency == data[b].latency && a < b)
}

/// `r` lists every position of `data` once, in ascending latency, ties kept in order.
pub open spec fn is_ranking(data: Seq<RpcIndexed>, r: Seq<usize>) -> bool {
    &&& r.len() == data.len()
    &&& forall|k: int| 0 <= k < r.len() ==> r[k] < data.len()
    &&& forall|k: usize| k < data.len() ==> #[trigger] r.contains(k)
    &&& forall|a: int, b: int|
        0 <= a < b < r.len() ==> ranks_before(data, #[trigger] r[a] as int, #[trigger] r[b] as int)
}

/// Positions of `data` ordered by ascending latency; equal latencies keep
/// their relative order.
pub fn argsort(data: &[RpcIndexed]) -> (r: Vec<usize>)
    ensures
        is_ranking(data@, r@),
{
    let n: usize = data.len();
    let mut r: Vec<usize> = Vec::new();
    let mut i: usize = 0;
    while i < n
        invariant
            n == data@.len(),
            i <= n,
            r@.len() == i,
            forall|k: int| 0 <= k < r@.len() ==> r@[k] < i,
            forall|k: usize| k < i ==> #[trigger] r@.contains(k),
            forall|a: int, b: int|
                0 <= a < b < r@.len() ==> ranks_before(data@, #[trigger] r@[a] as int, #[trigger] r@[b] as int),
        decreases n - i,
    {
        let key: u64 = data[i].latency;
        let mut pos: usize = 0;
        while pos < r.len() && data[r[pos]].latency <= key
            invariant
                n == data@.len(),
                i < n,
                r@.len() == i,
                forall|k: int| 0 <= k < r@.len() ==> r@[k] < i,
                key == data@[i as int].latency,
                pos <= r@.len(),
                forall|k: int| 0 <= k < pos ==> data@[#[trigger] r@[k] as int].latency <= key,
            decreases r@.len() - pos,
        {
            pos = pos + 1;
        }
        let ghost old_r = r@;
        r.insert(pos, i);
        assert(r@ == old_r.insert(pos as int, i));
        assert forall|a: int, b: int| 0 <= a < b < r@.len() implies ranks_before(
            data@,
            #[trigger] r@[a] as int,
            #[trigger] r@[b] as int,
        ) by {
            if b < pos {
                assert(r@[a] == old_r[a] && r@[b] == old_r[b]);
            } else if b == pos {
                assert(r@[a] == old_r[a]);
                assert(data@[old_r[a] as int].latency <= key);
            } else if a < pos {
                assert(r@[a] == old_r[a] && r@[b] == old_r[b - 1]);
            } else if a == pos {
                assert(r@[b] == old_r[b - 1]);
                assert(pos < old_r.len());
                assert(data@[old_r[pos as int] as int].latency > key);
                if b - 1 > pos {
                    assert(ranks_before(data@, old_r[pos as int] as int, old_r[b - 1] as int));
                }
            } else {
                assert(r@[a] == old_r[a - 1] && r@[b] == old_r[b - 1]);
            }
        }
        assert forall|k: usize| k < i + 1 implies #[trigger] r@.contains(k) by {
            if k < i {
                assert(old_r.contains(k));
                let m = choose|m: int| 0 <= m < old_r.len() && old_r[m] == k;
                if m < pos {
                    assert(r@[m] == k);
                } else {
                    assert(r@[m + 1] == k);
                }
            } else {
                assert(r@[pos as int] == i);
            }
        }
        i = i + 1;
    }
    r
}

/// Backend `r` may be chosen at time `now`: it is under its consecutive-use
/// budget and more than `min_time_delta` microseconds have passed since its last use.
pub open spec fn ready(r: Rpc, now: u128) -> bool {
    &&& r.consecutive < r.max_consecutive
    &&& now > r.last_used + r.min_time_delta
}

/// The entries name backends of `list` in pool order, each with its current latency.
pub open spec fn entries_of(list: Seq<Rpc>, e: Seq<RpcIndexed>) -> bool {
    &&& forall|j: int|
        0 <= j < e.len() ==> #[trigger] e[j].idx < list.len() && list[e[j].idx as int].status.latency
            == e[j].latency
    &&& forall|a: int, b: int| 0 <= a < b < e.len() ==> #[trigger] e[a].idx < #[trigger] e[b].idx
}

/// Position `k` of the pool is named by one of the entries.
pub open spec fn listed(e: Seq<RpcIndexed>, k: int) -> bool {
    exists|j: int| 0 <= j < e.len() && e[j].idx == k
}

/// Some entry names a backend that is ready at `now`.
pub open spec fn any_ready(list: Seq<Rpc>, e: Seq<RpcIndexed>, now: u128) -> bool {
    exists|j: int| 0 <= j < e.len() && #[trigger] ready(list[e[j].idx as int], now)
}

/// Entry `c` is the one to choose at `now`: the best-ranked ready backend, or,
/// when none is ready, the best-ranked backend of all.
pub open spec fn is_choice(list: Seq<Rpc>, e: Seq<RpcIndexed>, now: u128, c: int) -> bool {
    &&& 0 <= c < e.len()
    &&& if any_ready(list, e, now) {
        &&& ready(list[e[c].idx as int], now)
        &&& forall|j: int|
            0 <= j < e.len() && j != c && #[trigger] ready(list[e[j].idx as int], now) ==> ranks_before(e, c, j)
    } else {
        forall|j: int| 0 <= j < e.len() && j != c ==> #[trigger] ranks_before(e, c, j)
    }
}

/// One more consecutive use, held at the counter's maximum.
pub open spec fn bump(n: u32) -> u32 {
    if n < u32::MAX {
        (n + 1) as u32
    } else {
        n
    }
}

/// `after` is the pool `before` once entry `c` was chosen at `now`: every other
/// entry's consecutive count is reset, the chosen one counts one more use and
/// records `now`, and backends not named by an entry are untouched.
pub open spec fn picked(before: Seq<Rpc>, after: Seq<Rpc>, e: Seq<RpcIndexed>, c: int, now: u128) -> bool {
    &&& after.len() == before.len()
    &&& forall|k: int| 0 <= k < before.len() && !listed(e, k) ==> #[trigger] after[k] == before[k]
    &&& forall|j: int|
        0 <= j < e.len() && j != c ==> #[trigger] after[e[j].idx as int] == (Rpc {
            consecutive: 0,
            ..before[e[j].idx as int]
        })
    &&& after[e[c].idx as int] == (Rpc {
        consecutive: bump(before[e[c].idx as int].consecutive),
        last_used: now,
        ..before[e[c].idx as int]
    })
}

proof fn lemma_ranked_distinct(list: Seq<Rpc>, e: Seq<RpcIndexed>, r: Seq<usize>)
    requires
        entries_of(list, e),
        is_ranking(e, r),
    ensures
        forall|p: int, q: int|
            0 <= p < r.len() && 0 <= q < r.len() && p != q ==> #[trigger] e[r[p] as int].idx != #[trigger] e[r[q] as int].idx,
{
    assert forall|p: int, q: int|
        0 <= p < r.len() && 0 <= q < r.len() && p != q implies #[trigger] e[r[p] as int].idx != #[trigger] e[
        r[q] as int].idx by {
        if p < q {
            assert(ranks_before(e, r[p] as int, r[q] as int));
        } else {
            assert(ranks_before(e, r[q] as int, r[p] as int));
        }
        assert(r[p] != r[q]);
        if r[p] < r[q] {
            assert(e[r[p] as int].idx < e[r[q] as int].idx);
        } else {
            assert(e[r[q] as int].idx < e[r[p] as int].idx);
        }
    }
}

/// The default policy: walk the ranking from worst to best, resetting every
/// consecutive count, and keep the best-ranked ready backend; fall back to the
/// fastest when none is ready. Returns the chosen entry.
fn weighted_round_robin(list: &mut Vec<Rpc>, entries: &Vec<RpcIndexed>, now: u128) -> (c: usize)
    requires
        entries@.len() >= 1,
        entries_of(old(list)@, entries@),
    ensures
        is_choice(old(list)@, entries@, now, c as int),
        picked(old(list)@, final(list)@, entries@, c as int, now),
{
    let ghost o = list@;
    let ghost e = entries@;
    let order = argsort(entries.as_slice());
    let ghost r = order@;
    proof {
        lemma_ranked_distinct(o, e, r);
    }
    let n: usize = order.len();
    let mut choice: usize = order[0];
    let mut choice_consecutive: u32 = list[entries[choice].idx].consecutive;
    let ghost mut found = false;
    let ghost mut cp: int = 0;
    let mut t: usize = n;
    while t > 0
        invariant
            e == entries@,
            r == order@,
            n == r.len(),
            n == e.len(),
            is_ranking(e, r),
            entries_of(o, e),
            forall|p: int, q: int|
                0 <= p < r.len() && 0 <= q < r.len() && p != q ==> #[trigger] e[r[p] as int].idx != #[trigger] e[r[q] as int].idx,
            list@.len() == o.len(),
            t <= n,
            choice < n,
            forall|k: int| 0 <= k < o.len() && !listed(e, k) ==> #[trigger] list@[k] == o[k],
            forall|p: int|
                t <= p < n ==> #[trigger] list@[e[r[p] as int].idx as int] == (Rpc {
                    consecutive: 0,
                    ..o[e[r[p] as int].idx as int]
                }),
            forall|p: int| 0 <= p < t ==> #[trigger] list@[e[r[p] as int].idx as int] == o[e[r[p] as int].idx as int],
            found ==> t <= cp < n && choice == r[cp],
            found ==> ready(o[e[choice as int].idx as int], now),
            found ==> forall|p: int| t <= p < cp ==> !#[trigger] ready(o[e[r[p] as int].idx as int], now),
            found ==> choice_consecutive == o[e[choice as int].idx as int].consecutive,
            !found ==> choice == r[0],
            !found ==> choice_consecutive == o[e[r[0] as int].idx as int].consecutive,
            !found ==> forall|p: int| t <= p < n ==> !#[trigger] ready(o[e[r[p] as int].idx as int], now),
        decreases t,
    {
        t = t - 1;
        let j: usize = order[t];
        let k: usize = entries[j].idx;
        if list[k].consecutive < list[k].max_consecutive && now > list[k].last_used && now - list[k].last_used
            > list[k].min_time_delta {
            choice = j;
            choice_consecutive = list[k].consecutive;
            proof {
                found = true;
                cp = t as int;
            }
        }
        let ghost before = list@;
        list[k].consecutive = 0;
        assert forall|kk: int| 0 <= kk < o.len() && !listed(e, kk) implies #[trigger] list@[kk] == o[kk] by {
            if kk == k {
                assert(listed(e, kk));
            }
            assert(list@[kk] == before[kk]);
        }
        assert forall|p: int| 0 <= p < t implies #[trigger] list@[e[r[p] as int].idx as int] == o[e[r[p] as int].idx as int] by {
            assert(e[r[p] as int].idx != e[r[t as int] as int].idx);
        }
        assert forall|p: int| t <= p < n implies #[trigger] list@[e[r[p] as int].idx as int] == (Rpc {
            consecutive: 0,
            ..o[e[r[p] as int].idx as int]
        }) by {
            if p != t {
                assert(e[r[p] as int].idx != e[r[t as int] as int].idx);
            }
        }
    }
    let k: usize = entries[choice].idx;
    let next: u32 = if choice_consecutive < u32::MAX {
        choice_consecutive + 1
    } else {
        choice_consecutive
    };
    let ghost mid = list@;
    list[k].consecutive = next;
    list[k].last_used = now;
    proof {
        let c = choice as int;
        let pc = if found { cp } else { 0 };
        assert(r[pc] == choice);
        assert forall|jj: int|
            0 <= jj < e.len() && jj != c implies #[trigger] list@[e[jj].idx as int] == (Rpc {
                consecutive: 0,
                ..o[e[jj].idx as int]
            }) by {
            assert(r.contains(jj as usize));
                let q = choose|q: int| 0 <= q < r.len() && r[q] == jj as usize;
            assert(q != pc);
            assert(e[r[q] as int].idx != e[r[pc] as int].idx);
            assert(mid[e[r[q] as int].idx as int] == list@[e[jj].idx as int]);
        }
        assert forall|kk: int| 0 <= kk < o.len() && !listed(e, kk) implies #[trigger] list@[kk] == o[kk] by {
            if kk == k {
                assert(listed(e, kk));
            }
            assert(list@[kk] == mid[kk]);
        }
        if found {
            assert forall|jj: int|
                0 <= jj < e.len() && jj != c && #[trigger] ready(o[e[jj].idx as int], now) implies ranks_before(
                e,
                c,
                jj,
            ) by {
                assert(r.contains(jj as usize));
                let q = choose|q: int| 0 <= q < r.len() && r[q] == jj as usize;
                assert(q != cp);
                assert(ready(o[e[r[q] as int].idx as int], now));
                assert(!(q < cp));
                assert(ranks_before(e, r[cp] as int, r[q] as int));
            }
            assert(any_ready(o, e, now));
        } else {
            assert(!any_ready(o, e, now)) by {
                if any_ready(o, e, now) {
                    let jj = choose|jj: int| 0 <= jj < e.len() && #[trigger] ready(o[e[jj].idx as int], now);
                    assert(r.contains(jj as usize));
                let q = choose|q: int| 0 <= q < r.len() && r[q] == jj as usize;
                    assert(!ready(o[e[r[q] as int].idx as int], now));
                }
            }
            assert forall|jj: int| 0 <= jj < e.len() && jj != c implies #[trigger] ranks_before(e, c, jj) by {
                assert(r.contains(jj as usize));
                let q = choose|q: int| 0 <= q < r.len() && r[q] == jj as usize;
                assert(q != 0);
                assert(ranks_before(e, r[0] as int, r[q] as int));
            }
        }
    }
    choice
}

/// Entries for the backends among the first `n` of `list` whose group is `g`, in pool order.
pub open spec fn eligible_upto(list: Seq<Rpc>, g: RouteGroup, n: int) -> Seq<RpcIndexed>
    decreases n,
{
    if n <= 0 {
        Seq::empty()
    } else {
        let before = eligible_upto(list, g, n - 1);
        if list[n - 1].group == g {
            before.push(RpcIndexed { idx: (n - 1) as usize, latency: list[n - 1].status.latency })
        } else {
            before
        }
    }
}

/// Entries for the backends of `list` whose group is `g`, in pool order.
pub open spec fn eligible(list: Seq<Rpc>, g: RouteGroup) -> Seq<RpcIndexed> {
    eligible_upto(list, g, list.len() as int)
}

proof fn lemma_eligible(list: Seq<Rpc>, g: RouteGroup, n: int)
    requires
        0 <= n <= list.len(),
        list.len() <= usize::MAX,
    ensures
        entries_of(list, eligible_upto(list, g, n)),
        forall|j: int|
            0 <= j < eligible_upto(list, g, n).len() ==> #[trigger] eligible_upto(list, g, n)[j].idx < n
                && list[eligible_upto(list, g, n)[j].idx as int].group == g,
    decreases n,
{
    if n > 0 {
        lemma_eligible(list, g, n - 1);
    }
}

/// Result and pool after a selection at `now` from `before` for group `g`.
/// No eligible backend: no index, a placeholder, the pool unchanged. One: that
/// backend and its position, the pool unchanged. More: the entry the policy
/// chooses, with the fairness state updated as `picked` says.
pub open spec fn outcome(before: Seq<Rpc>, after: Seq<Rpc>, g: RouteGroup, now: u128, r: (Rpc, Option<usize>)) -> bool {
    let e = eligible(before, g);
    if e.len() == 0 {
        &&& r.1.is_none()
        &&& after == before
        &&& r.0.is_blank()
    } else if e.len() == 1 {
        &&& r.1 == Some(e[0].idx)
        &&& after == before
        &&& r.0.agrees_with(before[e[0].idx as int])
    } else {
        exists|c: int|
            #[trigger] is_choice(before, e, now, c) && picked(before, after, e, c, now) && r.1 == Some(e[c].idx)
                && r.0.agrees_with(after[e[c].idx as int])
    }
}

fn eligible_entries(list: &Vec<Rpc>, route_group: &RouteGroup) -> (entries: Vec<RpcIndexed>)
    ensures
        entries@ == eligible(list@, *route_group),
{
    let mut entries: Vec<RpcIndexed> = Vec::new();
    let mut i: usize = 0;
    while i < list.len()
        invariant
            i <= list@.len(),
            entries@ == eligible_upto(list@, *route_group, i as int),
        decreases list@.len() - i,
    {
        if list[i].group == *route_group {
            entries.push(RpcIndexed::new(i, &list[i]));
        }
        i = i + 1;
    }
    entries
}

/// Picks the backend to serve a request of `route_group` at time `now`
/// (microseconds since the epoch), updates the fairness state, and returns a
/// copy of the chosen backend with its position in the pool.
pub fn pick_at(list: &mut Vec<Rpc>, route_group: &RouteGroup, now: u128) -> (r: (Rpc, Option<usize>))
    ensures
        outcome(old(list)@, final(list)@, *route_group, now, r),
        final(list)@.len() == old(list)@.len(),
        forall|k: int|
            0 <= k < old(list)@.len() && old(list)@[k].group != *route_group ==> #[trigger] final(list)@[k]
                == old(list)@[k],
{
    let entries = eligible_entries(list, route_group);
    let total: usize = list.len();
    proof {
        assert(total == list@.len());
        lemma_eligible(list@, *route_group, list@.len() as int);
    }
    if entries.len() == 0 {
        return (Rpc::default(), None);
    }
    if entries.len() == 1 {
        let k: usize = entries[0].idx;
        return (list[k].snapshot(), Some(k));
    }
    let ghost o = list@;
    let c: usize = weighted_round_robin(list, &entries, now);
    let k: usize = entries[c].idx;
    proof {
        assert forall|kk: int| 0 <= kk < o.len() && o[kk].group != *route_group implies #[trigger] list@[kk]
            == o[kk] by {
            assert(!listed(entries@, kk));
        }
        assert(is_choice(o, entries@, now, c as int));
    }
    (list[k].snapshot(), Some(k))
}

/// A choice among several backends stamps the chosen one with `now`; its
/// last use moves strictly forward whenever some backend was ready, and
/// whenever `now` is later than its previous use.
pub proof fn lemma_last_used_advances(
    before: Seq<Rpc>,
    after: Seq<Rpc>,
    g: RouteGroup,
    now: u128,
    r: (Rpc, Option<usize>),
)
    requires
        outcome(before, after, g, now, r),
        eligible(before, g).len() >= 2,
    ensures
        r.1 is Some,
        after[r.1.unwrap() as int].last_used == now,
        any_ready(before, eligible(before, g), now) ==> after[r.1.unwrap() as int].last_used > before[r.1.unwrap() as int].last_used,
        now > before[r.1.unwrap() as int].last_used ==> after[r.1.unwrap() as int].last_used > before[r.1.unwrap() as int].last_used,
{
    let e = eligible(before, g);
    let c = choose|c: int|
        #[trigger] is_choice(before, e, now, c) && picked(before, after, e, c, now) && r.1 == Some(e[c].idx)
            && r.0.agrees_with(after[e[c].idx as int]);
    assert(r.1.unwrap() == e[c].idx);
}

/// The selection policies; one is chosen when the balancer starts.
#[derive(Clone, Copy, Debug, PartialEq, Eq, Structural)]
pub enum Selection {
    /// Best-ranked backend under its budget and past its throttle gate.
    WeightedRoundRobin,
    /// Any eligible backend, each as likely as the others.
    Random,
    /// The fastest until it reaches its budget, then the second fastest.
    LegacyRoundRobin,
}

/// Entry `c` ranks before every other entry.
pub open spec fn is_fastest(e: Seq<RpcIndexed>, c: int) -> bool {
    &&& 0 <= c < e.len()
    &&& forall|j: int| 0 <= j < e.len() && j != c ==> #[trigger] ranks_before(e, c, j)
}

/// Entry `s` ranks before every entry but the fastest, `f`.
pub open spec fn is_second(e: Seq<RpcIndexed>, f: int, s: int) -> bool {
    &&& 0 <= s < e.len()
    &&& s != f
    &&& forall|j: int| 0 <= j < e.len() && j != f && j != s ==> #[trigger] ranks_before(e, s, j)
}

/// `after` is `before` once the legacy policy chose entry `c`, given the fastest
/// entry `f` and the second `s`: a fastest backend at its budget hands over to
/// the second (counts 0 and 1), otherwise the fastest counts one more use.
pub open spec fn legacy_picked(before: Seq<Rpc>, after: Seq<Rpc>, e: Seq<RpcIndexed>, f: int, s: int, c: int) -> bool {
    let fk = e[f].idx as int;
    let sk = e[s].idx as int;
    if before[fk].consecutive >= before[fk].max_consecutive {
        &&& c == s
        &&& after == before.update(sk, Rpc { consecutive: 1, ..before[sk] }).update(
            fk,
            Rpc { consecutive: 0, ..before[fk] },
        )
    } else {
        &&& c == f
        &&& after == before.update(fk, Rpc { consecutive: (before[fk].consecutive + 1) as u32, ..before[fk] })
    }
}

/// Result and pool after a selection under `selection` at `now`.
pub open spec fn outcome_with(
    before: Seq<Rpc>,
    after: Seq<Rpc>,
    g: RouteGroup,
    selection: Selection,
    now: u128,
    r: (Rpc, Option<usize>),
) -> bool {
    let e = eligible(before, g);
    if e.len() < 2 || selection == Selection::WeightedRoundRobin {
        outcome(before, after, g, now, r)
    } else if selection == Selection::Random {
        &&& after == before
        &&& exists|c: int| 0 <= c < e.len() && r.1 == Some(#[trigger] e[c].idx) && r.0.agrees_with(before[e[c].idx as int])
    } else {
        exists|f: int, s: int, c: int|
            is_fastest(e, f) && is_second(e, f, s) && #[trigger] legacy_picked(before, after, e, f, s, c) && r.1 == Some(
                e[c].idx,
            ) && r.0.agrees_with(after[e[c].idx as int])
    }
}

/// Relies on rand's thread_rng and Rng::gen_range: a number drawn from `0..n`.
#[verifier::external_body]
fn random_below(n: usize) -> (r: usize)
    requires
        n > 0,
    ensures
        r < n,
{
    rand::Rng::gen_range(&mut rand::thread_rng(), 0..n)
}

/// The legacy policy: the fastest backend until it reaches its budget, then
/// the second fastest. Returns the chosen entry.
fn legacy_round_robin(list: &mut Vec<Rpc>, entries: &Vec<RpcIndexed>) -> (c: usize)
    requires
        entries@.len() >= 2,
        entries_of(old(list)@, entries@),
    ensures
        exists|f: int, s: int|
            is_fastest(entries@, f) && is_second(entries@, f, s) && #[trigger] legacy_picked(
                old(list)@,
                final(list)@,
                entries@,
                f,
                s,
                c as int,
            ),
        c < entries@.len(),
{
    let ghost e = entries@;
    let order = argsort(entries.as_slice());
    let ghost r = order@;
    let m: usize = entries.len();
    proof {
        assert(m == e.len());
        lemma_ranked_distinct(list@, e, r);
        assert(ranks_before(e, r[0] as int, r[1] as int));
        assert forall|j: int| 0 <= j < e.len() && j != r[0] as int implies #[trigger] ranks_before(
            e,
            r[0] as int,
            j,
        ) by {
            assert(r.contains(j as usize));
            let q = choose|q: int| 0 <= q < r.len() && r[q] == j as usize;
            assert(q != 0);
            assert(ranks_before(e, r[0] as int, r[q] as int));
        }
        assert forall|j: int| 0 <= j < e.len() && j != r[0] as int && j != r[1] as int implies #[trigger] ranks_before(
            e,
            r[1] as int,
            j,
        ) by {
            assert(r.contains(j as usize));
            let q = choose|q: int| 0 <= q < r.len() && r[q] == j as usize;
            assert(q != 0 && q != 1);
            assert(ranks_before(e, r[1] as int, r[q] as int));
        }
        assert(is_fastest(e, r[0] as int));
        assert(is_second(e, r[0] as int, r[1] as int));
    }
    let f: usize = order[0];
    let s: usize = order[1];
    let fk: usize = entries[f].idx;
    let sk: usize = entries[s].idx;
    if list[fk].max_consecutive <= list[fk].consecutive {
        list[sk].consecutive = 1;
        list[fk].consecutive = 0;
        assert(legacy_picked(old(list)@, list@, e, f as int, s as int, s as int));
        return s;
    }
    list[fk].consecutive = list[fk].consecutive + 1;
    assert(legacy_picked(old(list)@, list@, e, f as int, s as int, f as int));
    f
}

/// Picks the backend to serve a request of `route_group` under `selection`
/// at time `now` (microseconds since the epoch); the weighted policy is `pick_at`.
pub fn pick_with(list: &mut Vec<Rpc>, route_group: &RouteGroup, selection: Selection, now: u128) -> (r: (
    Rpc,
    Option<usize>,
))
    ensures
        outcome_with(old(list)@, final(list)@, *route_group, selection, now, r),
        final(list)@.len() == old(list)@.len(),
{
    let entries = eligible_entries(list, route_group);
    let total: usize = list.len();
    proof {
        assert(total == list@.len());
        lemma_eligible(list@, *route_group, list@.len() as int);
    }
    if entries.len() < 2 {
        return pick_at(list, route_group, now);
    }
    match selection {
        Selection::WeightedRoundRobin => pick_at(list, route_group, now),
        Selection::Random => {
            let c: usize = random_below(entries.len());
            let k: usize = entries[c].idx;
            (list[k].snapshot(), Some(k))
        },
        Selection::LegacyRoundRobin => {
            let c: usize = legacy_round_robin(list, &entries);
            let k: usize = entries[c].idx;
            (list[k].snapshot(), Some(k))
        },
    }
}

/// Picks the backend to serve a request of `route_group`, reading the clock
/// for the throttle rule. When the clock cannot be read and a choice among
/// several backends needs it, nothing changes and no index is returned.
pub fn pick(list: &mut Vec<Rpc>, route_group: &RouteGroup) -> (r: (Rpc, Option<usize>))
    ensures
        eligible(old(list)@, *route_group).len() < 2 ==> outcome(old(list)@, final(list)@, *route_group, 0, r),
        (r.1.is_none() && final(list)@ == old(list)@ && r.0.is_blank()) || exists|now: u128|
            #[trigger] outcome(old(list)@, final(list)@, *route_group, now, r),
{
    let entries = eligible_entries(list, route_group);
    if entries.len() < 2 {
        return pick_at(list, route_group, 0);
    }
    match clock_micros() {
        Some(now) => pick_at(list, route_group, now),
        None => (Rpc::default(), None),
    }
}

} // verus!
