use onebarrier::linearizability::{is_linearizable, Action, LinOp};
use onebarrier::linearizability::Action::{Read, Write};

fn op(p: u32, a: Action, inv: u64, res: u64) -> LinOp {
    LinOp { proc_id: p, action: a, inv, res }
}

#[test]
fn sequential_write_then_read_is_linearizable() {
    let h = vec![op(1, Write(1), 0, 2), op(2, Read(1), 3, 4)];
    assert!(is_linearizable(&h, 0));
}

#[test]
fn stale_read_after_write_returns_is_not_linearizable() {
    let h = vec![op(1, Write(1), 0, 1), op(2, Read(0), 2, 3)];
    assert!(!is_linearizable(&h, 0));
}

#[test]
fn concurrent_read_during_write_is_linearizable() {
    let h = vec![op(1, Write(1), 0, 3), op(2, Read(1), 1, 2)];
    assert!(is_linearizable(&h, 0));
    let h2 = vec![op(1, Write(1), 0, 3), op(2, Read(0), 1, 2)];
    assert!(is_linearizable(&h2, 0));
}

#[test]
fn lost_update_counter_history_is_not_linearizable() {
    let h = vec![
        op(1, Write(1), 0, 1),
        op(2, Write(2), 2, 3),
        op(3, Read(1), 4, 5),
    ];
    assert!(!is_linearizable(&h, 0));
}

#[test]
fn larger_concurrent_linearizable_history() {
    let h = vec![
        op(1, Write(1), 0, 5),
        op(2, Read(1), 2, 4),
        op(3, Write(2), 4, 9),
        op(2, Read(2), 6, 8),
        op(1, Read(2), 10, 11),
    ];
    assert!(is_linearizable(&h, 0));
}

#[test]
fn empty_history_is_linearizable() {
    assert!(is_linearizable(&[], 7));
}

#[test]
fn read_of_initial_value_and_touching_intervals() {
    // Intervals that touch (res == inv) are concurrent, so either order works.
    let h = vec![op(1, Write(5), 0, 3), op(2, Read(0), 3, 4)];
    assert!(is_linearizable(&h, 0));
    // An op that returns before it is invoked can never be placed.
    let bad = vec![op(1, Write(5), 4, 3)];
    assert!(!is_linearizable(&bad, 0));
}

#[test]
fn verdict_ignores_order_and_process_ids() {
    let good = vec![op(1, Write(1), 0, 2), op(2, Read(1), 3, 4), op(3, Write(2), 1, 5), op(1, Read(2), 6, 7)];
    let bad = vec![op(1, Write(1), 0, 1), op(2, Read(0), 2, 3), op(3, Write(5), 4, 6)];
    for h in [good, bad] {
        let verdict = is_linearizable(&h, 0);
        let mut rev: Vec<LinOp> = h.iter().rev().cloned().collect();
        for (i, o) in rev.iter_mut().enumerate() {
            o.proc_id = 100 + i as u32;
        }
        assert_eq!(is_linearizable(&rev, 0), verdict);
        let mut rot = h.clone();
        rot.rotate_left(1);
        assert_eq!(is_linearizable(&rot, 0), verdict);
    }
}
