use onebarrier::durable::{encode_record, parse_log};
use onebarrier::engine::{reference_apply, Delivery, Engine};
use onebarrier::state::{KvStore, Op, Output};

/// An in-memory stand-in for the durable store: the installed snapshot and
/// the raw log bytes, updated exactly as the file-backed store is.
#[derive(Default)]
struct Disk {
    snapshot: Option<Vec<u8>>,
    log: Vec<u8>,
}

impl Disk {
    fn append(&mut self, ts: u64, op_bytes: &[u8]) {
        self.log.extend_from_slice(&encode_record(ts, op_bytes));
    }

    fn write_snapshot(&mut self, bytes: &[u8]) {
        self.snapshot = Some(bytes.to_vec());
        self.log.clear();
    }

    fn perform(&mut self, ts: u64, d: &Delivery) {
        if let Some(b) = &d.append {
            self.append(ts, b);
        }
        if let Some(s) = &d.snapshot {
            self.write_snapshot(s);
        }
    }

    fn recover(&self, snap_interval: u64) -> Engine<KvStore> {
        let log = parse_log(&self.log);
        Engine::<KvStore>::recover(self.snapshot.as_deref(), &log, snap_interval)
    }
}

fn deliver(e: &mut Engine<KvStore>, disk: &mut Disk, ts: u64, op: &Op) -> Output {
    let d = e.deliver(ts, op);
    disk.perform(ts, &d);
    d.output
}

#[test]
fn recovery_reconstructs_identical_state() {
    let ops = vec![
        Op::set(1, 1, "a", 10),
        Op::incr(1, 2, "a", 5),
        Op::set(2, 1, "b", 100),
        Op::incr(2, 2, "b", -1),
        Op::incr(1, 3, "a", 1),
    ];
    let mut disk = Disk::default();
    {
        let mut e = Engine::<KvStore>::create(2);
        for (i, op) in ops.iter().enumerate() {
            deliver(&mut e, &mut disk, (i as u64 + 1) * 10, op);
        }
        assert!(e.stats.snapshots >= 1, "expected at least one snapshot");
    }

    let e = disk.recover(2);
    let reference = reference_apply::<KvStore>(&ops);
    assert_eq!(e.state(), &reference, "post-recovery state must equal serial reference");
    assert_eq!(e.state().get_int("a"), Some(16));
    assert_eq!(e.state().get_int("b"), Some(99));
}

#[test]
fn incr_not_double_applied_after_crash() {
    let mut disk = Disk::default();
    {
        let mut e = Engine::<KvStore>::create(100);
        assert_eq!(deliver(&mut e, &mut disk, 10, &Op::incr(1, 1, "x", 5)), Output::Value(Some(5)));
    }

    let mut e = disk.recover(100);
    assert_eq!(e.state().get_int("x"), Some(5), "replay reconstructs x=5, not 10");
    assert_eq!(deliver(&mut e, &mut disk, 10, &Op::incr(1, 1, "x", 5)), Output::Suppressed);
    assert_eq!(e.state().get_int("x"), Some(5), "duplicate INCR suppressed — not double-counted");
    assert_eq!(e.stats.suppressed, 1);
}

#[test]
fn idempotent_set_duplicate_is_suppressed() {
    let mut disk = Disk::default();
    let mut e = Engine::<KvStore>::create(100);
    assert_eq!(deliver(&mut e, &mut disk, 10, &Op::set(7, 1, "k", 42)), Output::Done);
    assert_eq!(deliver(&mut e, &mut disk, 20, &Op::set(7, 1, "k", 42)), Output::Suppressed);
    assert_eq!(e.state().get_int("k"), Some(42));
}

#[test]
fn crash_recover_then_state_transfer_catches_up() {
    let ops: Vec<Op> = (0..20).map(|i| Op::incr(1, i + 1, &format!("k{}", i % 4), 1)).collect();

    let mut disk_a = Disk::default();
    let mut a = Engine::<KvStore>::create(8);
    for (i, op) in ops.iter().enumerate() {
        deliver(&mut a, &mut disk_a, (i as u64 + 1) * 10, op);
    }

    let mut disk_b = Disk::default();
    {
        let mut b = Engine::<KvStore>::create(8);
        for (i, op) in ops.iter().take(12).enumerate() {
            deliver(&mut b, &mut disk_b, (i as u64 + 1) * 10, op);
        }
    }

    let mut b = disk_b.recover(8);
    assert_eq!(
        b.state(),
        &reference_apply::<KvStore>(&ops[..12]),
        "B recovered to its consistent pre-crash prefix"
    );

    let exported = a.export_state();
    b.import_state(&exported);
    disk_b.write_snapshot(&exported);
    assert_eq!(b.state(), a.state(), "B caught up to A via state transfer");
    assert_eq!(b.state(), &reference_apply::<KvStore>(&ops));

    drop(b);
    let b2 = disk_b.recover(8);
    assert_eq!(b2.state(), a.state(), "transferred state durable across a 2nd crash");
}

#[test]
fn crash_between_snapshot_and_log_clear_is_idempotent() {
    let ops = vec![Op::incr(1, 1, "n", 1), Op::incr(1, 2, "n", 1), Op::incr(1, 3, "n", 1)];
    let mut disk = Disk::default();
    {
        let mut e = Engine::<KvStore>::create(100);
        for (i, op) in ops.iter().enumerate() {
            deliver(&mut e, &mut disk, (i as u64 + 1) * 10, op);
        }
        let snap = e.snapshot();
        disk.write_snapshot(&snap);
        for (i, op) in ops.iter().enumerate() {
            disk.append((i as u64 + 1) * 10, &op.encode());
        }
    }
    let e = disk.recover(100);
    assert_eq!(e.state().get_int("n"), Some(3), "idempotent recovery: n=3, not 6");
}

#[test]
fn snapshot_every_interval_clears_the_log() {
    let mut disk = Disk::default();
    let mut e = Engine::<KvStore>::create(3);
    for i in 0..7u64 {
        deliver(&mut e, &mut disk, i + 1, &Op::incr(4, i + 1, "c", 2));
    }
    assert_eq!(e.stats.snapshots, 2);
    assert_eq!(e.stats.applied, 7);
    assert_eq!(parse_log(&disk.log).len(), 1, "one record since the last snapshot");
    let r = disk.recover(3);
    assert_eq!(r.state().get_int("c"), Some(14));
    assert_eq!(r.stats.replayed, 1);
    assert_eq!(r.last_ts(), 7);
}

#[test]
fn interval_zero_behaves_as_one() {
    let mut disk = Disk::default();
    let mut e = Engine::<KvStore>::create(0);
    deliver(&mut e, &mut disk, 5, &Op::set(1, 1, "z", 3));
    assert_eq!(e.stats.snapshots, 1);
    assert!(disk.log.is_empty());
    assert!(disk.snapshot.is_some());
}

#[test]
fn try_recover_refuses_an_overflowing_log() {
    let mut disk = Disk::default();
    disk.append(1, &Op::set(1, 1, "m", i64::MAX).encode());
    disk.append(2, &Op::incr(1, 2, "m", 1).encode());
    let log = parse_log(&disk.log);
    assert!(Engine::<KvStore>::try_recover(None, &log, 10).is_none());
    let ok = Engine::<KvStore>::try_recover(None, &log[..1], 10).expect("first record replays");
    assert_eq!(ok.state().get_int("m"), Some(i64::MAX));
}

#[test]
fn reference_apply_skips_duplicates() {
    let ops = vec![Op::incr(1, 1, "a", 1), Op::incr(1, 1, "a", 1), Op::incr(2, 1, "a", 1), Op::incr(1, 2, "a", 1)];
    let s = reference_apply::<KvStore>(&ops);
    assert_eq!(s.get_int("a"), Some(3));
}

#[test]
fn high_water_tracks_each_client() {
    let mut disk = Disk::default();
    let mut e = Engine::<KvStore>::create(100);
    deliver(&mut e, &mut disk, 1, &Op::set(3, 4, "x", 1));
    deliver(&mut e, &mut disk, 2, &Op::set(9, 2, "y", 1));
    assert_eq!(e.high_water_of(3), 4);
    assert_eq!(e.high_water_of(9), 2);
    assert_eq!(e.high_water_of(5), 0);
    assert_eq!(deliver(&mut e, &mut disk, 3, &Op::set(3, 3, "x", 7)), Output::Suppressed);
    assert_eq!(e.state().get_int("x"), Some(1));
}

#[test]
fn reference_apply_ignores_a_replayed_stream_and_late_duplicates() {
    let ops = vec![Op::incr(1, 5, "a", 1), Op::incr(1, 3, "a", 10), Op::set(2, 1, "b", 4), Op::incr(2, 2, "b", 2)];
    let once = reference_apply::<KvStore>(&ops);
    assert_eq!(once.get_int("a"), Some(1));
    let twice: Vec<Op> = ops.iter().chain(ops.iter()).cloned().collect();
    assert_eq!(reference_apply::<KvStore>(&twice), once);
    let mut with_dup = ops.clone();
    with_dup.push(Op::incr(1, 4, "a", 100));
    with_dup.push(Op::incr(2, 0, "b", 100));
    assert_eq!(reference_apply::<KvStore>(&with_dup), once);
}

#[test]
fn fresh_engine_has_full_headroom_and_takes_a_delivery() {
    let mut disk = Disk::default();
    let mut e = Engine::<KvStore>::create(4);
    assert_eq!(e.headroom_left(), u64::MAX);
    assert_eq!(deliver(&mut e, &mut disk, 1, &Op::set(1, 1, "k", 1)), Output::Done);
    assert_eq!(e.headroom_left(), u64::MAX - 1);
}

#[test]
fn recovery_skips_covered_records_in_front_of_the_log() {
    let ops = vec![Op::incr(1, 1, "n", 1), Op::incr(1, 2, "n", 1), Op::incr(1, 3, "n", 1)];
    let mut disk = Disk::default();
    let mut e = Engine::<KvStore>::create(100);
    for (i, op) in ops.iter().enumerate() {
        deliver(&mut e, &mut disk, (i as u64 + 1) * 10, op);
    }
    let snap = e.snapshot();
    disk.write_snapshot(&snap);
    for (i, op) in ops.iter().enumerate() {
        disk.append((i as u64 + 1) * 10, &op.encode());
    }
    deliver(&mut e, &mut disk, 40, &Op::incr(1, 4, "n", 1));
    let r = disk.recover(100);
    assert_eq!(r.state().get_int("n"), Some(4));
    assert_eq!(r.state(), &reference_apply::<KvStore>(&[ops.clone(), vec![Op::incr(1, 4, "n", 1)]].concat()));
    assert_eq!(disk.recover(100).state(), r.state());
}
