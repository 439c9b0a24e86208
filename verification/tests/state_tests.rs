use onebarrier::state::{KvStore, Op, OpKind, Output, StateMachine};

#[test]
fn op_encode_decode_roundtrips() {
    for op in [
        Op::set(3, 9, "hello", -17),
        Op::incr(0, 1, "", i64::MIN),
        Op::get(u32::MAX, u64::MAX, "a key with spaces"),
    ] {
        assert_eq!(Op::decode(&op.encode()), Some(op));
    }
}

#[test]
fn op_encoding_layout_is_exact() {
    let op = Op::incr(2, 7, "ab", -1);
    let b = op.encode();
    let mut want = vec![1u8];
    want.extend_from_slice(&2u32.to_le_bytes());
    want.extend_from_slice(&7u64.to_le_bytes());
    want.extend_from_slice(&2u16.to_le_bytes());
    want.extend_from_slice(b"ab");
    want.extend_from_slice(&(-1i64).to_le_bytes());
    assert_eq!(b, want);
}

#[test]
fn txn_and_set_bytes_roundtrip() {
    let writes = vec![
        ("k1".to_string(), Some(b"v1".to_vec())),
        ("k2".to_string(), None),
        ("ключ".to_string(), Some(vec![0u8, 13, 10, 255])),
    ];
    for op in [
        Op::txn(5, 6, writes),
        Op::set_bytes(1, 2, "bin", &[0, 1, 2, 255]),
        Op::del(9, 10, "gone"),
    ] {
        assert_eq!(Op::decode(&op.encode()), Some(op));
    }
}

#[test]
fn decode_rejects_truncated_and_unknown() {
    let b = Op::set(1, 1, "key", 42).encode();
    for n in 0..b.len() {
        assert_eq!(Op::decode(&b[..n]), None, "prefix of {n} bytes");
    }
    let mut bad = b.clone();
    bad[0] = 9;
    assert_eq!(Op::decode(&bad), None);
    let mut bad_utf8 = Op::get(1, 1, "ab").encode();
    bad_utf8[15] = 0xff;
    assert_eq!(Op::decode(&bad_utf8), None);
}

#[test]
fn set_incr_get_del_semantics() {
    let mut kv = KvStore::default();
    assert_eq!(kv.apply(&Op::set(1, 1, "a", 10)), Output::Done);
    assert_eq!(kv.apply(&Op::incr(1, 2, "a", 5)), Output::Value(Some(15)));
    assert_eq!(kv.get_bytes("a"), Some(&b"15"[..]));
    assert_eq!(kv.apply(&Op::incr(1, 3, "fresh", -3)), Output::Value(Some(-3)));
    assert_eq!(kv.apply(&Op::get(1, 4, "a")), Output::Bytes(Some(b"15".to_vec())));
    assert_eq!(kv.apply(&Op::get(1, 5, "nope")), Output::Bytes(None));
    assert_eq!(kv.apply(&Op::del(1, 6, "a")), Output::Value(Some(1)));
    assert_eq!(kv.apply(&Op::del(1, 7, "a")), Output::Value(Some(0)));
    assert_eq!(kv.get_int("fresh"), Some(-3));
    assert_eq!(kv.len(), 1);
    assert!(!kv.is_empty());
}

#[test]
fn incr_on_non_integer_value_starts_from_zero() {
    let mut kv = KvStore::default();
    kv.apply(&Op::set_bytes(1, 1, "t", b"  41 \n"));
    assert_eq!(kv.get_int("t"), Some(41));
    assert_eq!(kv.apply(&Op::incr(1, 2, "t", 1)), Output::Value(Some(42)));
    kv.apply(&Op::set_bytes(1, 3, "w", b"word"));
    assert_eq!(kv.get_int("w"), None);
    assert_eq!(kv.apply(&Op::incr(1, 4, "w", 7)), Output::Value(Some(7)));
}

#[test]
fn txn_applies_all_writes_in_order() {
    let mut kv = KvStore::default();
    kv.apply(&Op::set(1, 1, "x", 1));
    let out = kv.apply(&Op::txn(
        1,
        2,
        vec![
            ("a".to_string(), Some(b"100".to_vec())),
            ("x".to_string(), None),
            ("a".to_string(), Some(b"200".to_vec())),
        ],
    ));
    assert_eq!(out, Output::Value(Some(3)));
    assert_eq!(kv.get_int("a"), Some(200));
    assert_eq!(kv.get_bytes("x"), None);
}

#[test]
fn snapshot_restore_roundtrip_and_entries_sorted() {
    let mut kv = KvStore::default();
    kv.apply(&Op::set(1, 1, "b", 2));
    kv.apply(&Op::set(1, 2, "a", 1));
    kv.apply(&Op::set_bytes(1, 3, "c", b"not a number"));
    kv.apply(&Op::set(1, 4, "é", 5));
    let snap = kv.snapshot();
    let back = KvStore::restore(&snap);
    assert_eq!(back, kv);
    assert_eq!(
        back.entries(),
        vec![("a".to_string(), 1), ("b".to_string(), 2), ("é".to_string(), 5)]
    );
    // snapshot layout: count then records in key order
    assert_eq!(&snap[..4], &4u32.to_le_bytes());
    assert_eq!(&snap[4..6], &1u16.to_le_bytes());
    assert_eq!(snap[6], b'a');
}

#[test]
fn restore_stops_at_truncated_record() {
    let mut kv = KvStore::default();
    kv.apply(&Op::set(1, 1, "a", 1));
    kv.apply(&Op::set(1, 2, "b", 2));
    let snap = kv.snapshot();
    let back = KvStore::restore(&snap[..snap.len() - 1]);
    assert_eq!(back.entries(), vec![("a".to_string(), 1)]);
    assert!(KvStore::restore(&[1, 2]).is_empty());
}

#[test]
fn kind_accessors_build_expected_variants() {
    let op = Op::set(4, 2, "k", 7);
    assert_eq!(op.kind, OpKind::Put("k".to_string(), b"7".to_vec()));
    assert_eq!(Op::incr(1, 1, "k", 3).kind, OpKind::Incr("k".to_string(), 3));
}

#[test]
fn decode_reads_one_op_and_ignores_what_follows() {
    let txn = Op::txn(5, 6, vec![("x".to_string(), Some(b"1".to_vec())), ("y".to_string(), None)]);
    for op in [Op::set(1, 2, "k", 42), Op::incr(3, 4, "n", -9), Op::del(7, 8, "gone"), txn] {
        let mut b = op.encode();
        b.extend_from_slice(b"\x00trailing bytes");
        assert_eq!(Op::decode(&b), Some(op.clone()));
        let full = op.encode();
        for n in 0..full.len() {
            assert_eq!(Op::decode(&full[..n]), None, "strict prefix of length {n}");
        }
    }
}

#[test]
fn decode_refuses_unknown_tags_and_non_utf8_keys() {
    let mut b = Op::get(1, 1, "k").encode();
    b[0] = 5;
    assert_eq!(Op::decode(&b), None);
    let mut b = Op::get(1, 1, "k").encode();
    b[15] = 0xff;
    assert_eq!(Op::decode(&b), None);
}

#[test]
fn snapshot_restores_the_same_store() {
    let mut s = KvStore::new();
    s.apply(&Op::set(1, 1, "b", 2));
    s.apply(&Op::set_bytes(1, 2, "a", b"\x00\xffbytes"));
    s.apply(&Op::incr(1, 3, "c", 7));
    let r = KvStore::restore(&s.snapshot());
    assert_eq!(r, s);
    assert_eq!(r.snapshot(), s.snapshot());
}

#[test]
fn get_int_reads_the_set_after_other_keys_change() {
    let mut s = KvStore::new();
    s.apply(&Op::set(1, 1, "k", i64::MIN));
    s.apply(&Op::incr(1, 2, "other", 5));
    s.apply(&Op::del(1, 3, "third"));
    s.apply(&Op::txn(1, 4, vec![("x".to_string(), Some(b"v".to_vec()))]));
    assert_eq!(s.get_int("k"), Some(i64::MIN));
    s.apply(&Op::set(1, 5, "k", i64::MAX));
    assert_eq!(s.get_int("k"), Some(i64::MAX));
    assert_eq!(s.get_int("x"), None);
    assert_eq!(s.get_int("absent"), None);
}
