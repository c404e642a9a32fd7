use blutgang::health::{RouteGroup, Rpc};
use blutgang::select::{argsort, pick, pick_at, pick_with, RpcIndexed, Selection};
use std::time::SystemTime;

fn now_micros() -> u128 {
    SystemTime::now()
        .duration_since(SystemTime::UNIX_EPOCH)
        .expect("Failed to get current time")
        .as_micros()
}

fn backend(latency: u64, max_consecutive: u32, min_time_delta: u128) -> Rpc {
    let mut rpc = Rpc::default();
    rpc.status.latency = latency;
    rpc.max_consecutive = max_consecutive;
    rpc.min_time_delta = min_time_delta;
    rpc
}

fn in_group(mut rpc: Rpc, id: u64) -> Rpc {
    rpc.group = RouteGroup { id };
    rpc
}

#[test]
fn test_sort_algo() {
    let mut rpc1 = Rpc::default();
    let mut rpc2 = Rpc::default();
    let mut rpc3 = Rpc::default();

    rpc1.status.latency = 1;
    rpc2.status.latency = 2;
    rpc3.status.latency = 3;
    rpc2.url = "two".to_string();

    let v = vec![rpc2, rpc3, rpc1];
    let vx = v.clone();
    let vi = v
        .iter()
        .enumerate()
        .map(|(idx, rpc)| RpcIndexed::new(idx, rpc))
        .collect::<Vec<_>>();
    let i = argsort(&vi);
    assert_eq!(i, &[2, 0, 1]);
    assert_eq!(v[vi[0].idx()].url, vx[0].url);
}

// Picks the fastest backend, then follows it as the latencies change.
#[test]
fn test_pick() {
    let rpc1 = backend(3, 10, 100);
    let rpc2 = backend(7, 10, 100);
    let rpc3 = backend(5, 10, 100);

    let mut rpc_list = vec![rpc1, rpc2, rpc3];

    let (rpc, index) = pick(&mut rpc_list, &RouteGroup::default());
    println!("rpc: {:?}", rpc);
    assert_eq!(rpc.status.latency, 3);
    assert_eq!(index, Some(0));

    rpc_list[0].status.latency = 10000;

    let (rpc, index) = pick(&mut rpc_list, &RouteGroup::default());
    println!("rpc index: {:?}", index);
    assert_eq!(rpc.status.latency, 5);
    assert_eq!(index, Some(2));

    rpc_list[2].status.latency = 100000;

    let (rpc, index) = pick(&mut rpc_list, &RouteGroup::default());
    assert_eq!(rpc.status.latency, 7);
    assert_eq!(index, Some(1));
}

// Backends used too recently are passed over.
#[test]
fn test_pick_max_delay() {
    let mut rpc1 = backend(3, 10, 1701357164371770);
    rpc1.last_used = now_micros();
    let rpc2 = backend(7, 10, 1);
    let rpc3 = backend(5, 10, 10000000);

    let mut rpc_list = vec![rpc1, rpc2, rpc3];

    // rpc1 was used too recently, rpc3 is the fastest of the others
    let (rpc, index) = pick(&mut rpc_list, &RouteGroup::default());
    println!("rpc: {:?}", rpc);
    assert_eq!(rpc.status.latency, 5);
    assert_eq!(index, Some(2));

    // rpc3 was just used
    let (rpc, index) = pick(&mut rpc_list, &RouteGroup::default());
    println!("rpc index: {:?}", index);
    assert_eq!(rpc.status.latency, 7);
    assert_eq!(index, Some(1));
}

#[test]
fn argsort_keeps_order_of_equal_latencies() {
    let v = vec![backend(5, 0, 0), backend(2, 0, 0), backend(5, 0, 0), backend(2, 0, 0), backend(1, 0, 0)];
    let vi = v.iter().enumerate().map(|(idx, rpc)| RpcIndexed::new(idx, rpc)).collect::<Vec<_>>();
    assert_eq!(argsort(&vi), vec![4, 1, 3, 0, 2]);
}

#[test]
fn argsort_of_nothing_is_empty() {
    let vi: Vec<RpcIndexed> = Vec::new();
    assert!(argsort(&vi).is_empty());
}

#[test]
fn pick_single_eligible_returns_it_unchanged() {
    let mut list = vec![
        in_group(backend(1, 10, 0), 1),
        in_group(backend(9, 10, 0), 2),
        in_group(backend(4, 10, 0), 1),
    ];
    list[1].consecutive = 3;
    list[1].url = "b".to_string();
    let (rpc, index) = pick(&mut list, &RouteGroup { id: 2 });
    assert_eq!(index, Some(1));
    assert_eq!(rpc.url, "b");
    assert_eq!(rpc.status.latency, 9);
    assert_eq!(list[1].consecutive, 3);
    assert_eq!(list[1].last_used, 0);
}

#[test]
fn pick_without_eligible_backend_returns_no_index() {
    let mut list = vec![in_group(backend(1, 10, 0), 1), in_group(backend(2, 10, 0), 1)];
    let (rpc, index) = pick(&mut list, &RouteGroup { id: 7 });
    assert_eq!(index, None);
    assert_eq!(rpc.url, "");
    assert_eq!(list[0].consecutive, 0);
    let mut empty: Vec<Rpc> = Vec::new();
    let (_, index) = pick(&mut empty, &RouteGroup::default());
    assert_eq!(index, None);
}

#[test]
fn pick_resets_others_and_counts_the_chosen() {
    let mut list = vec![backend(3, 10, 0), backend(7, 10, 0), backend(5, 10, 0)];
    list[0].consecutive = 4;
    list[1].consecutive = 2;
    list[2].consecutive = 6;
    let (rpc, index) = pick_at(&mut list, &RouteGroup::default(), 1000);
    assert_eq!(index, Some(0));
    assert_eq!(rpc.consecutive, 5);
    assert_eq!(rpc.last_used, 1000);
    assert_eq!(list[0].consecutive, 5);
    assert_eq!(list[0].last_used, 1000);
    assert_eq!(list[1].consecutive, 0);
    assert_eq!(list[2].consecutive, 0);
    assert_eq!(list[1].last_used, 0);
}

#[test]
fn pick_skips_a_backend_over_its_budget() {
    let mut list = vec![backend(3, 2, 0), backend(7, 2, 0), backend(5, 2, 0)];
    list[0].consecutive = 2;
    let (_, index) = pick_at(&mut list, &RouteGroup::default(), 10);
    assert_eq!(index, Some(2));
    assert_eq!(list[0].consecutive, 0);
    assert_eq!(list[2].consecutive, 1);
    // The fastest is under budget again.
    let (_, index) = pick_at(&mut list, &RouteGroup::default(), 20);
    assert_eq!(index, Some(0));
}

#[test]
fn pick_falls_back_to_the_fastest() {
    let mut list = vec![backend(8, 0, 0), backend(2, 0, 0), backend(5, 0, 0)];
    list[1].consecutive = 7;
    let (rpc, index) = pick_at(&mut list, &RouteGroup::default(), 50);
    assert_eq!(index, Some(1));
    assert_eq!(rpc.consecutive, 8);
    assert_eq!(list[1].last_used, 50);
    assert_eq!(list[0].consecutive, 0);
}

#[test]
fn pick_prefers_earlier_backend_on_equal_latency() {
    let mut list = vec![backend(4, 10, 0), backend(4, 10, 0)];
    let (_, index) = pick_at(&mut list, &RouteGroup::default(), 5);
    assert_eq!(index, Some(0));
}

#[test]
fn pick_only_touches_its_group() {
    let mut list = vec![
        in_group(backend(3, 10, 0), 1),
        in_group(backend(1, 10, 0), 2),
        in_group(backend(6, 10, 0), 1),
    ];
    list[1].consecutive = 9;
    let (_, index) = pick_at(&mut list, &RouteGroup { id: 1 }, 100);
    assert_eq!(index, Some(0));
    assert_eq!(list[1].consecutive, 9);
    assert_eq!(list[1].last_used, 0);
}

#[test]
fn last_used_moves_forward() {
    let mut list = vec![backend(3, 10, 5), backend(7, 10, 5)];
    let (_, index) = pick_at(&mut list, &RouteGroup::default(), 100);
    assert_eq!(index, Some(0));
    let (_, index) = pick_at(&mut list, &RouteGroup::default(), 200);
    assert_eq!(index, Some(0));
    assert_eq!(list[0].last_used, 200);
    assert_eq!(list[0].consecutive, 2);
}

#[test]
fn legacy_policy_hands_over_at_budget() {
    let mut list = vec![backend(3, 2, 0), backend(7, 2, 0), backend(5, 2, 0)];
    let g = RouteGroup::default();
    let (_, index) = pick_with(&mut list, &g, Selection::LegacyRoundRobin, 0);
    assert_eq!(index, Some(0));
    assert_eq!(list[0].consecutive, 1);
    let (_, index) = pick_with(&mut list, &g, Selection::LegacyRoundRobin, 0);
    assert_eq!(index, Some(0));
    assert_eq!(list[0].consecutive, 2);
    let (rpc, index) = pick_with(&mut list, &g, Selection::LegacyRoundRobin, 0);
    assert_eq!(index, Some(2));
    assert_eq!(rpc.status.latency, 5);
    assert_eq!(list[0].consecutive, 0);
    assert_eq!(list[2].consecutive, 1);
    assert_eq!(list[1].consecutive, 0);
}

#[test]
fn random_policy_stays_in_group_and_changes_nothing() {
    let mut list = vec![
        in_group(backend(3, 2, 0), 1),
        in_group(backend(7, 2, 0), 2),
        in_group(backend(5, 2, 0), 1),
    ];
    for _ in 0..20 {
        let (rpc, index) = pick_with(&mut list, &RouteGroup { id: 1 }, Selection::Random, 0);
        assert!(index == Some(0) || index == Some(2));
        assert_eq!(rpc.group, RouteGroup { id: 1 });
    }
    assert!(list.iter().all(|r| r.consecutive == 0 && r.last_used == 0));
}

#[test]
fn weighted_policy_is_pick_at() {
    let mut a = vec![backend(3, 10, 0), backend(7, 10, 0)];
    let mut b = a.clone();
    let (_, ia) = pick_with(&mut a, &RouteGroup::default(), Selection::WeightedRoundRobin, 9);
    let (_, ib) = pick_at(&mut b, &RouteGroup::default(), 9);
    assert_eq!(ia, ib);
    assert_eq!(a[0].last_used, b[0].last_used);
}
