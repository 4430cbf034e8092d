use mining_pool::{
    AccessDatabase, DistributeMethod, HashPower, MemoryStore, MiningPool, Power, WorkSet, Workload,
};

fn unit(b: &[u8]) -> Vec<u8> {
    b.to_vec()
}

fn fresh_pool() -> MiningPool<MemoryStore> {
    MiningPool::new(String::from("ledger"))
}

fn workset(units: &[&[u8]]) -> WorkSet {
    WorkSet { units: units.iter().map(|u| u.to_vec()).collect() }
}

fn assigned_units(pool: &MiningPool<MemoryStore>, peer: u64) -> Option<Vec<Vec<u8>>> {
    pool.work_distribution().iter().find(|e| e.0 == peer).map(|e| e.1.units.clone())
}

#[test]
fn power_add_sub_measure() {
    let mut p = HashPower::new(10);
    p.add(HashPower::new(5));
    assert_eq!(p.measure(), 15);
    p.sub(HashPower::new(7));
    assert_eq!(p.measure(), 8);
    assert_eq!(HashPower::default().measure(), 0);
}

#[test]
fn workload_from_wraps_single_unit() {
    let w: WorkSet = Workload::from(vec![9u8, 9u8]);
    assert_eq!(w.units, vec![vec![9u8, 9u8]]);
    assert_eq!(w.len(), 1);
}

#[test]
fn workload_add_appends_units() {
    let mut w = workset(&[b"a", b"b"]);
    w.add(workset(&[b"b", b"c"]));
    assert_eq!(w.units, vec![unit(b"a"), unit(b"b"), unit(b"b"), unit(b"c")]);
}

#[test]
fn workload_sub_removes_every_matching_unit() {
    let mut w = workset(&[b"u1", b"u1", b"u2"]);
    w.sub(&workset(&[b"u1"]));
    assert_eq!(w.units, vec![unit(b"u2")]);
    let mut v = workset(&[b"x"]);
    v.sub(&workset(&[b"y"]));
    assert_eq!(v.units, vec![unit(b"x")]);
}

#[test]
fn memory_store_roundtrip() {
    let mut db = MemoryStore::new();
    assert_eq!(db.get_value(7).unwrap().units.len(), 0);
    db.put_value(7, &workset(&[b"u1"])).unwrap();
    assert_eq!(db.get_value(7).unwrap().units, vec![unit(b"u1")]);
    db.put_value(7, &workset(&[b"u2", b"u3"])).unwrap();
    assert_eq!(db.get_value(7).unwrap().units, vec![unit(b"u2"), unit(b"u3")]);
    let prior = db.delete_key(7).unwrap();
    assert_eq!(prior.units, vec![unit(b"u2"), unit(b"u3")]);
    assert_eq!(db.get_value(7).unwrap().units.len(), 0);
}

#[test]
fn memory_store_delete_absent_errs() {
    let mut db: MemoryStore = AccessDatabase::open(String::from("anywhere"));
    assert!(db.delete_key(1).is_err());
    db.put_value(1, &workset(&[b"u1"])).unwrap();
    assert!(db.delete_key(2).is_err());
    assert!(db.delete_key(1).is_ok());
}

#[test]
fn distribute_method_defaults_to_proportional() {
    assert!(matches!(DistributeMethod::default(), DistributeMethod::Default));
}

#[test]
fn aggregate_consistency_over_joins_and_leaves() {
    let mut pool = fresh_pool();
    pool.when_peer_join(1, HashPower::new(10));
    pool.when_peer_join(2, HashPower::new(5));
    pool.when_peer_join(1, HashPower::new(4));
    pool.when_peer_leave(3);
    pool.when_peer_join(3, HashPower::new(8));
    pool.when_peer_leave(2);
    let total: usize = pool.peers_total().iter().map(|e| e.1.measure()).sum();
    assert_eq!(pool.current_total_power(), total);
    assert_eq!(total, 12);
}

#[test]
fn distribution_consistency_over_assign_and_report() {
    let mut pool = fresh_pool();
    pool.when_peer_join(1, HashPower::new(10));
    pool.when_peer_join(2, HashPower::new(5));
    pool.when_sign_work_to(1, workset(&[b"a", b"b"]));
    pool.when_sign_work_to(2, workset(&[b"c"]));
    pool.when_sign_work_to(1, workset(&[b"d", b"e", b"f"]));
    pool.when_peer_finish_work(2, workset(&[b"c"])).unwrap();
    pool.when_peer_finish_work(1, workset(&[b"e"])).unwrap();
    let total: usize = pool.work_distribution().iter().map(|e| e.1.len()).sum();
    assert_eq!(pool.current_total_workload(), total);
    assert_eq!(total, 2);
}

#[test]
fn join_overwrites_prior_power() {
    let mut pool = fresh_pool();
    pool.when_peer_join(1, HashPower::new(10));
    pool.when_peer_join(1, HashPower::new(4));
    assert_eq!(pool.current_total_power(), 4);
    let peers = pool.peers_total();
    assert_eq!(peers.len(), 1);
    assert_eq!(peers[0].1.measure(), 4);
}

#[test]
fn sign_replaces_prior_assignment() {
    let mut pool = fresh_pool();
    pool.when_peer_join(1, HashPower::new(10));
    pool.when_sign_work_to(1, workset(&[b"a", b"b"]));
    pool.when_sign_work_to(1, workset(&[b"c"]));
    assert_eq!(pool.current_total_workload(), 1);
    assert_eq!(assigned_units(&pool, 1).unwrap(), vec![unit(b"c")]);
}

#[test]
fn report_for_unknown_peer_is_discarded() {
    let mut pool = fresh_pool();
    pool.when_peer_join(1, HashPower::new(10));
    assert!(pool.when_peer_finish_work(2, workset(&[b"a"])).is_ok());
    assert_eq!(pool.current_total_workload(), 0);
    assert_eq!(pool.finished_record(2).unwrap().units.len(), 0);
}

#[test]
fn idle_selection_prefers_highest_power() {
    let mut pool = fresh_pool();
    pool.when_peer_join(1, HashPower::new(10));
    pool.when_peer_join(2, HashPower::new(5));
    pool.when_peer_join(3, HashPower::new(7));
    pool.when_sign_work_to(1, workset(&[b"a"]));
    assert_eq!(pool.get_peer_high_free(), Some(3));
}

#[test]
fn idle_selection_never_returns_a_busy_peer() {
    let mut pool = fresh_pool();
    pool.when_peer_join(1, HashPower::new(10));
    pool.when_peer_join(2, HashPower::new(20));
    pool.when_peer_join(3, HashPower::new(1));
    pool.when_sign_work_to(2, workset(&[b"a"]));
    let picked = pool.get_peer_high_free().unwrap();
    assert!(pool.work_distribution().iter().all(|e| e.0 != picked));
    assert_eq!(picked, 1);
}

#[test]
fn idle_selection_returns_nothing_when_all_busy() {
    let mut pool = fresh_pool();
    pool.when_peer_join(1, HashPower::new(10));
    pool.when_sign_work_to(1, workset(&[b"a"]));
    assert_eq!(pool.get_peer_high_free(), None);
}

#[test]
fn busiest_selection_picks_highest_relative_load() {
    let mut pool = fresh_pool();
    pool.when_peer_join(1, HashPower::new(10));
    pool.when_peer_join(2, HashPower::new(2));
    pool.when_sign_work_to(1, workset(&[b"a", b"b"]));
    pool.when_sign_work_to(2, workset(&[b"c"]));
    assert_eq!(pool.get_peer_high_less(), Some(2));
}

#[test]
fn busiest_selection_returns_nothing_for_empty_registry() {
    let pool = fresh_pool();
    assert_eq!(pool.get_peer_high_less(), None);
}

#[test]
fn ledger_accumulates_completions() {
    let mut pool = fresh_pool();
    pool.when_peer_join(1, HashPower::new(10));
    pool.when_sign_work_to(1, workset(&[b"w1", b"w2"]));
    pool.when_peer_finish_work(1, workset(&[b"w1"])).unwrap();
    pool.when_peer_finish_work(1, workset(&[b"w2"])).unwrap();
    let record = pool.finished_record(1).unwrap();
    assert_eq!(record.units, vec![unit(b"w1"), unit(b"w2")]);
}

#[test]
fn leave_is_idempotent() {
    let mut pool = fresh_pool();
    pool.when_peer_join(1, HashPower::new(10));
    pool.when_peer_join(2, HashPower::new(5));
    pool.when_sign_work_to(1, workset(&[b"a"]));
    pool.when_peer_leave(1);
    let peers_once: Vec<(u64, usize)> =
        pool.peers_total().iter().map(|e| (e.0, e.1.measure())).collect();
    let dist_once: Vec<(u64, Vec<Vec<u8>>)> =
        pool.work_distribution().iter().map(|e| (e.0, e.1.units.clone())).collect();
    let power_once = pool.current_total_power();
    let work_once = pool.current_total_workload();
    pool.when_peer_leave(1);
    let peers_twice: Vec<(u64, usize)> =
        pool.peers_total().iter().map(|e| (e.0, e.1.measure())).collect();
    let dist_twice: Vec<(u64, Vec<Vec<u8>>)> =
        pool.work_distribution().iter().map(|e| (e.0, e.1.units.clone())).collect();
    assert_eq!(peers_once, peers_twice);
    assert_eq!(dist_once, dist_twice);
    assert_eq!(power_once, pool.current_total_power());
    assert_eq!(work_once, pool.current_total_workload());
}

#[test]
fn proportional_scenario() {
    let mut pool = fresh_pool();
    pool.when_peer_join(1, HashPower::new(10));
    pool.when_peer_join(2, HashPower::new(5));
    assert_eq!(pool.current_total_power(), 15);
    pool.when_sign_work_to(1, workset(&[b"u1", b"u2"]));
    assert_eq!(pool.current_total_workload(), 2);
    pool.when_peer_finish_work(1, workset(&[b"u1"])).unwrap();
    assert_eq!(assigned_units(&pool, 1).unwrap(), vec![unit(b"u2")]);
    assert_eq!(pool.current_total_workload(), 1);
    assert_eq!(pool.finished_record(1).unwrap().units, vec![unit(b"u1")]);
    assert_eq!(pool.get_peer_high_free(), Some(2));
    pool.when_peer_finish_work(1, workset(&[b"u2"])).unwrap();
    assert_eq!(assigned_units(&pool, 1).unwrap().len(), 0);
    assert_eq!(pool.finished_record(1).unwrap().units, vec![unit(b"u1"), unit(b"u2")]);
}

#[test]
fn leave_abandons_outstanding_work() {
    let mut pool = fresh_pool();
    pool.when_peer_join(1, HashPower::new(10));
    pool.when_sign_work_to(1, workset(&[b"u1"]));
    pool.when_peer_leave(1);
    assert!(pool.peers_total().is_empty());
    assert!(pool.work_distribution().is_empty());
    assert_eq!(pool.current_total_power(), 0);
    assert_eq!(pool.current_total_workload(), 0);
    assert_eq!(pool.finished_record(1).unwrap().units.len(), 0);
}
