use onebarrier::bench::{BenchResult, Durability};
use onebarrier::cluster::{
    classify_set, client_ops, cluster_verdict, expected_state, readback_tally, workload_op, CrashReport, SetOutcome,
};
use onebarrier::durable::{encode_record, parse_log};
use onebarrier::engine::{reference_apply, Engine};
use onebarrier::sim::{Mode, Rng};
use onebarrier::state::{KvStore, Op, Output};

fn s(k: &str, v: i64) -> (String, i64) {
    (k.to_string(), v)
}

#[test]
fn workload_round_robins_over_keys() {
    let ops = client_ops(7, 5, 3);
    assert_eq!(ops.len(), 5);
    assert_eq!(ops[0], Op::incr(7, 1, "k0", 1));
    assert_eq!(ops[3], Op::incr(7, 4, "k0", 1));
    assert_eq!(ops[4], Op::incr(7, 5, "k1", 1));
    assert_eq!(workload_op(2, 11, 4), Op::incr(2, 12, "k3", 1));
    assert!(client_ops(1, 0, 0).is_empty());
}

#[test]
fn expected_state_counts_each_key() {
    let e = expected_state(2, 150, 8);
    let want: Vec<(String, i64)> = (0..8).map(|k| (format!("k{k}"), if k < 6 { 38 } else { 36 })).collect();
    assert_eq!(e, want);
    let total: i64 = e.iter().map(|(_, v)| v).sum();
    assert_eq!(total, 300);
}

#[test]
fn expected_state_lists_keys_in_key_order() {
    let e = expected_state(1, 12, 11);
    assert_eq!(e[0], s("k0", 2));
    assert_eq!(e[1], s("k1", 1));
    assert_eq!(e[2], s("k10", 1), "k10 sorts before k2");
    assert_eq!(e[3], s("k2", 1));
    assert_eq!(e.len(), 11);
    assert!(expected_state(3, 10, 0).is_empty());
}

/// The merged total order of two clients' workloads, alternating.
fn merged(a: &[Op], b: &[Op]) -> Vec<Op> {
    let mut v = Vec::new();
    for i in 0..a.len().max(b.len()) {
        if i < a.len() {
            v.push(a[i].clone());
        }
        if i < b.len() {
            v.push(b[i].clone());
        }
    }
    v
}

#[test]
fn replicas_fed_one_total_order_converge_to_expected_state() {
    let order = merged(&client_ops(3, 150, 8), &client_ops(4, 150, 8));
    let mut states = Vec::new();
    for _ in 0..3 {
        let mut e = Engine::<KvStore>::create(64);
        for (i, op) in order.iter().enumerate() {
            let _ = e.deliver(i as u64 + 1, op);
        }
        // A re-delivered op changes nothing.
        assert_eq!(e.deliver(9999, &order[5]).output, Output::Suppressed);
        states.push(e.state().entries());
    }
    let expected = expected_state(2, 150, 8);
    assert_eq!(cluster_verdict(&states, &expected), (true, true));
}

#[test]
fn cluster_verdict_detects_divergence_and_wrong_state() {
    let a = vec![s("k0", 1)];
    let b = vec![s("k0", 2)];
    assert_eq!(cluster_verdict(&vec![a.clone(), b.clone()], &a), (false, false));
    assert_eq!(cluster_verdict(&vec![b.clone(), b.clone()], &a), (true, false));
    assert_eq!(cluster_verdict(&vec![], &a), (false, true));
    assert_eq!(cluster_verdict(&vec![a.clone()], &a), (true, true));
}

#[test]
fn crash_report_judges_a_recovered_victim() {
    let ops = merged(&client_ops(3, 150, 8), &client_ops(4, 150, 8));
    let mut survivor = Engine::<KvStore>::create(32);
    for (i, op) in ops.iter().enumerate() {
        let _ = survivor.deliver(i as u64 + 1, op);
    }

    // The victim applies 60 ops, keeping its durable image, then crashes.
    let mut snapshot: Option<Vec<u8>> = None;
    let mut log: Vec<u8> = Vec::new();
    {
        let mut victim = Engine::<KvStore>::create(32);
        for (i, op) in ops.iter().take(60).enumerate() {
            let ts = i as u64 + 1;
            let d = victim.deliver(ts, op);
            if let Some(b) = &d.append {
                log.extend_from_slice(&encode_record(ts, b));
            }
            if let Some(sn) = d.snapshot {
                snapshot = Some(sn);
                log.clear();
            }
        }
    }
    let mut victim = Engine::<KvStore>::recover(snapshot.as_deref(), &parse_log(&log), 32);
    let victim_prefix = victim.state().entries();
    victim.import_state(&survivor.export_state());

    let r = CrashReport::assess(
        expected_state(2, 150, 8),
        survivor.state().entries(),
        victim_prefix,
        victim.state().entries(),
    );
    assert!(r.survivor_correct, "survivor wrong after crash: {:?} vs {:?}", r.survivor_state, r.expected);
    assert!(r.victim_prefix_consistent, "victim prefix inconsistent: {:?}", r.victim_prefix);
    assert!(r.recovered_ok, "victim did not recover and catch up");
    let total: i64 = r.victim_prefix.iter().map(|(_, v)| v).sum();
    assert_eq!(total, 60);
}

#[test]
fn crash_report_flags_over_count_and_unknown_keys() {
    let expected = vec![s("k0", 3), s("k1", 3)];
    let r = CrashReport::assess(expected.clone(), expected.clone(), vec![s("k0", 4)], expected.clone());
    assert!(!r.victim_prefix_consistent);
    assert!(r.survivor_correct && r.recovered_ok);
    let r = CrashReport::assess(expected.clone(), expected.clone(), vec![s("k9", 0)], vec![s("k0", 3)]);
    assert!(!r.victim_prefix_consistent);
    assert!(!r.recovered_ok);
    let r = CrashReport::assess(expected.clone(), vec![s("k0", 3)], vec![], vec![s("k0", 3)]);
    assert!(r.victim_prefix_consistent);
    assert!(!r.survivor_correct && !r.recovered_ok);
}

#[test]
fn rng_sequence_is_xorshift64_star() {
    let mut r = Rng::new(0x9E3779B97F4A7C15);
    assert_eq!(r.next_u64(), 973819730272012410);
    assert_eq!(r.next_u64(), 6108091081255984487);
    assert_eq!(r.next_u64(), 12125365036566318712);
    let mut r = Rng::new(2);
    assert_eq!(r.next_u64(), 15541476885619185495, "an even seed is made odd");
    assert_ne!(Mode::FtOverlap, Mode::FtFsync);
}

#[test]
fn durability_tiers_and_empty_result() {
    assert_eq!(Durability::InFabricMem.label(), "InFabricMem");
    assert_eq!(Durability::Fsync.label(), "Fsync");
    assert!(Durability::Fsync.fsync() && !Durability::InFabricMem.fsync());
    let r = BenchResult::default();
    assert_eq!(r.n, 0);
    assert_eq!(r.durability, "");
    assert_eq!(r.commit_p99, 0);
}

#[test]
fn expected_state_is_the_reference_run_of_all_workloads() {
    for (clients, ops, keys) in [(3usize, 40u64, 7u64), (1, 5, 5), (4, 9, 2)] {
        let all: Vec<Op> = (0..clients as u32).flat_map(|c| client_ops(c + 10, ops, keys)).collect();
        let reference = reference_apply::<KvStore>(&all);
        let expected = expected_state(clients, ops, keys);
        assert_eq!(reference.entries(), expected);
        let total: i64 = expected.iter().map(|(_, n)| *n).sum();
        assert_eq!(total, clients as i64 * ops as i64);
    }
}

#[test]
fn readback_tally_counts_lost_and_torn() {
    let acked: Vec<(String, String)> =
        vec![("a".into(), "1".into()), ("b".into(), "2".into()), ("c".into(), "3".into()), ("d".into(), "4".into())];
    let got = vec![Some("1".to_string()), None, Some("x".to_string()), Some("4".to_string())];
    assert_eq!(readback_tally(&acked, &got), (1, 1));
    assert_eq!(readback_tally(&Vec::new(), &Vec::new()), (0, 0));
}

#[test]
fn set_round_trips_are_classified() {
    assert_eq!(classify_set(Some(b"+OK\r\n")), SetOutcome::Acked);
    assert_eq!(classify_set(Some(b"+OK")), SetOutcome::Acked);
    assert_eq!(classify_set(Some(b"+O")), SetOutcome::Refused);
    assert_eq!(classify_set(Some(b"-ERR busy\r\n")), SetOutcome::Refused);
    assert_eq!(classify_set(Some(b"")), SetOutcome::Refused);
    assert_eq!(classify_set(None), SetOutcome::Ambiguous);
}
