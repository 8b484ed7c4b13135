use txindex::{
    abort_transaction, begin_transaction, close_index, commit_transaction, create, delete_record, drop,
    get, get_next, insert_record, open_index, Database, ErrCode, Key, KeyType,
};

fn s(v: &str) -> String {
    v.to_string()
}

fn setup(kind: KeyType, name: &str) -> Database {
    let mut db = Database::new();
    assert_eq!(create(&mut db, kind, name), Ok(()));
    db
}

fn scan(db: &mut Database, name: &str) -> Vec<(i64, String)> {
    let mut h = open_index(db, name).unwrap();
    let mut out = Vec::new();
    loop {
        match get_next(db, &mut h, None) {
            Ok((Key::Int(k), p)) => out.push((k, p)),
            Ok(_) => panic!("unexpected key type"),
            Err(e) => {
                assert_eq!(e, ErrCode::DbEnd);
                break;
            }
        }
    }
    assert_eq!(close_index(db, h), Ok(()));
    out
}

#[test]
fn accounts_scenario() {
    let mut db = setup(KeyType::Int, "accounts");
    let mut h = open_index(&mut db, "accounts").unwrap();
    assert_eq!(insert_record(&mut db, &mut h, None, Key::Int(5), s("alice")), Ok(()));
    assert_eq!(get(&mut db, &mut h, None, Key::Int(5)), Ok(s("alice")));
    assert_eq!(insert_record(&mut db, &mut h, None, Key::Int(5), s("bob")), Ok(()));
    assert_eq!(get(&mut db, &mut h, None, Key::Int(5)), Ok(s("alice")));
    let (k, p) = get_next(&mut db, &mut h, None).unwrap();
    assert!(matches!(k, Key::Int(5)));
    assert_eq!(p, s("bob"));
    assert_eq!(delete_record(&mut db, &mut h, None, Key::Int(5), Some(s(""))), Ok(()));
    assert_eq!(get(&mut db, &mut h, None, Key::Int(5)), Err(ErrCode::KeyNotFound));
}

#[test]
fn get_then_next_visits_each_duplicate_once() {
    let mut db = setup(KeyType::Int, "dups");
    let mut h = open_index(&mut db, "dups").unwrap();
    let names = ["d", "a", "c", "b", "e"];
    for n in names.iter() {
        assert_eq!(insert_record(&mut db, &mut h, None, Key::Int(7), s(n)), Ok(()));
    }
    assert_eq!(insert_record(&mut db, &mut h, None, Key::Int(3), s("x")), Ok(()));
    let mut seen = vec![get(&mut db, &mut h, None, Key::Int(7)).unwrap()];
    for _ in 1..names.len() {
        let (k, p) = get_next(&mut db, &mut h, None).unwrap();
        assert!(matches!(k, Key::Int(7)));
        seen.push(p);
    }
    assert_eq!(get_next(&mut db, &mut h, None).err(), Some(ErrCode::DbEnd));
    seen.sort();
    assert_eq!(seen, vec![s("a"), s("b"), s("c"), s("d"), s("e")]);
}

#[test]
fn fresh_handle_starts_at_smallest_record() {
    let mut db = setup(KeyType::Int, "t");
    let mut h = open_index(&mut db, "t").unwrap();
    for k in [40i64, -3, 17, 8] {
        assert_eq!(insert_record(&mut db, &mut h, None, Key::Int(k), s("v")), Ok(()));
    }
    let mut h2 = open_index(&mut db, "t").unwrap();
    let (k, p) = get_next(&mut db, &mut h2, None).unwrap();
    assert!(matches!(k, Key::Int(-3)));
    assert_eq!(p, s("v"));
}

#[test]
fn fresh_scans_agree() {
    let mut db = setup(KeyType::Int, "t");
    let mut h = open_index(&mut db, "t").unwrap();
    for (k, p) in [(2i64, "b"), (1, "z"), (2, "a"), (9, "q")] {
        assert_eq!(insert_record(&mut db, &mut h, None, Key::Int(k), s(p)), Ok(()));
    }
    let first = scan(&mut db, "t");
    let second = scan(&mut db, "t");
    assert_eq!(first, second);
    assert_eq!(first, vec![(1, s("z")), (2, s("a")), (2, s("b")), (9, s("q"))]);
}

#[test]
fn new_transaction_resets_cursor() {
    let mut db = setup(KeyType::Int, "t");
    let mut h = open_index(&mut db, "t").unwrap();
    for k in [1i64, 2, 3] {
        assert_eq!(insert_record(&mut db, &mut h, None, Key::Int(k), s("v")), Ok(()));
    }
    let t1 = begin_transaction(&mut db, 1).unwrap();
    assert!(matches!(get_next(&mut db, &mut h, Some(&t1)).unwrap().0, Key::Int(1)));
    assert!(matches!(get_next(&mut db, &mut h, Some(&t1)).unwrap().0, Key::Int(2)));
    assert_eq!(commit_transaction(&mut db, t1, 1), Ok(()));
    let t2 = begin_transaction(&mut db, 1).unwrap();
    assert!(matches!(get_next(&mut db, &mut h, Some(&t2)).unwrap().0, Key::Int(1)));
    assert_eq!(commit_transaction(&mut db, t2, 1), Ok(()));
}

#[test]
fn duplicate_insert_is_refused() {
    let mut db = setup(KeyType::Int, "t");
    let mut h = open_index(&mut db, "t").unwrap();
    assert_eq!(insert_record(&mut db, &mut h, None, Key::Int(1), s("p")), Ok(()));
    assert_eq!(insert_record(&mut db, &mut h, None, Key::Int(1), s("p")), Err(ErrCode::EntryExists));
    assert_eq!(scan(&mut db, "t"), vec![(1, s("p"))]);
}

#[test]
fn delete_missing_pair_keeps_others() {
    let mut db = setup(KeyType::Int, "t");
    let mut h = open_index(&mut db, "t").unwrap();
    assert_eq!(insert_record(&mut db, &mut h, None, Key::Int(1), s("a")), Ok(()));
    assert_eq!(insert_record(&mut db, &mut h, None, Key::Int(1), s("b")), Ok(()));
    assert_eq!(delete_record(&mut db, &mut h, None, Key::Int(1), Some(s("c"))), Err(ErrCode::EntryDne));
    assert_eq!(delete_record(&mut db, &mut h, None, Key::Int(1), Some(s("a"))), Ok(()));
    assert_eq!(scan(&mut db, "t"), vec![(1, s("b"))]);
    assert_eq!(delete_record(&mut db, &mut h, None, Key::Int(2), None), Err(ErrCode::KeyNotFound));
    assert_eq!(delete_record(&mut db, &mut h, None, Key::Int(1), None), Ok(()));
    assert_eq!(get(&mut db, &mut h, None, Key::Int(1)), Err(ErrCode::KeyNotFound));
}

#[test]
fn missing_get_positions_before_next_key() {
    let mut db = setup(KeyType::Int, "t");
    let mut h = open_index(&mut db, "t").unwrap();
    for k in [10i64, 20, 30] {
        assert_eq!(insert_record(&mut db, &mut h, None, Key::Int(k), s("v")), Ok(()));
    }
    assert_eq!(get(&mut db, &mut h, None, Key::Int(15)), Err(ErrCode::KeyNotFound));
    assert!(matches!(get_next(&mut db, &mut h, None).unwrap().0, Key::Int(20)));
    assert_eq!(get(&mut db, &mut h, None, Key::Int(30)), Ok(s("v")));
    assert_eq!(get_next(&mut db, &mut h, None).err(), Some(ErrCode::DbEnd));
}

#[test]
fn varchar_keys_order_by_bytes() {
    let mut db = setup(KeyType::Varchar, "names");
    let mut h = open_index(&mut db, "names").unwrap();
    for k in ["pear", "Zebra", "apple", "app", "\u{e9}clair"] {
        assert_eq!(insert_record(&mut db, &mut h, None, Key::Varchar(s(k)), s("x")), Ok(()));
    }
    let mut order = Vec::new();
    while let Ok((k, _)) = get_next(&mut db, &mut h, None) {
        match k {
            Key::Varchar(v) => order.push(v),
            _ => panic!("unexpected key type"),
        }
    }
    assert_eq!(order, vec![s("Zebra"), s("app"), s("apple"), s("pear"), s("\u{e9}clair")]);
}

#[test]
fn short_keys_order_numerically() {
    let mut db = setup(KeyType::Short, "s");
    let mut h = open_index(&mut db, "s").unwrap();
    for k in [5i32, -100, 0, i32::MAX, i32::MIN] {
        assert_eq!(insert_record(&mut db, &mut h, None, Key::Short(k), s("x")), Ok(()));
    }
    let mut order = Vec::new();
    while let Ok((Key::Short(k), _)) = get_next(&mut db, &mut h, None) {
        order.push(k);
    }
    assert_eq!(order, vec![i32::MIN, -100, 0, 5, i32::MAX]);
}

#[test]
fn wrong_key_type_is_a_failure() {
    let mut db = setup(KeyType::Int, "t");
    let mut h = open_index(&mut db, "t").unwrap();
    assert_eq!(insert_record(&mut db, &mut h, None, Key::Short(1), s("x")), Err(ErrCode::Failure));
}

#[test]
fn catalog_errors() {
    let mut db = setup(KeyType::Int, "a");
    assert_eq!(create(&mut db, KeyType::Short, "a"), Err(ErrCode::DbExists));
    assert!(matches!(open_index(&mut db, "b"), Err(ErrCode::DbDne)));
    assert_eq!(drop(&mut db, "b"), Err(ErrCode::DbDne));
    let h = open_index(&mut db, "a").unwrap();
    assert_eq!(drop(&mut db, "a"), Err(ErrCode::Failure));
    assert_eq!(close_index(&mut db, h), Ok(()));
    assert_eq!(drop(&mut db, "a"), Ok(()));
    assert_eq!(drop(&mut db, "a"), Err(ErrCode::DbDne));
    assert_eq!(create(&mut db, KeyType::Varchar, "a"), Ok(()));
}

#[test]
fn closed_handle_is_rejected() {
    let mut db = setup(KeyType::Int, "a");
    let h = open_index(&mut db, "a").unwrap();
    let mut other = open_index(&mut db, "a").unwrap();
    assert_eq!(close_index(&mut db, h), Ok(()));
    assert_eq!(insert_record(&mut db, &mut other, None, Key::Int(1), s("x")), Ok(()));
    assert_eq!(close_index(&mut db, other), Ok(()));
    // a handle that this catalog never opened
    let mut db2 = setup(KeyType::Int, "a");
    let _first = open_index(&mut db2, "a").unwrap();
    let _second = open_index(&mut db2, "a").unwrap();
    let mut stray = open_index(&mut db2, "a").unwrap();
    assert_eq!(get(&mut db, &mut stray, None, Key::Int(1)), Err(ErrCode::DbDne));
    assert_eq!(close_index(&mut db, stray), Err(ErrCode::DbDne));
}

#[test]
fn one_transaction_per_thread() {
    let mut db = Database::new();
    let t = begin_transaction(&mut db, 7).unwrap();
    assert!(matches!(begin_transaction(&mut db, 7), Err(ErrCode::TxnExists)));
    let u = begin_transaction(&mut db, 8).unwrap();
    assert_eq!(commit_transaction(&mut db, t, 7), Ok(()));
    assert_eq!(abort_transaction(&mut db, u, 8), Ok(()));
    assert!(begin_transaction(&mut db, 7).is_ok());
}

#[test]
fn finished_transaction_is_unknown() {
    let mut db = Database::new();
    let t = begin_transaction(&mut db, 1).unwrap();
    // a transaction that this catalog never began
    let mut other = Database::new();
    let _first = begin_transaction(&mut other, 1).unwrap();
    let stray = begin_transaction(&mut other, 2).unwrap();
    assert_eq!(commit_transaction(&mut db, stray, 1), Err(ErrCode::TxnDne));
    assert_eq!(abort_transaction(&mut db, t, 1), Ok(()));
}

#[test]
fn abort_undoes_changes() {
    let mut db = setup(KeyType::Int, "t");
    let mut h = open_index(&mut db, "t").unwrap();
    assert_eq!(insert_record(&mut db, &mut h, None, Key::Int(1), s("keep")), Ok(()));
    assert_eq!(insert_record(&mut db, &mut h, None, Key::Int(2), s("gone")), Ok(()));
    let t = begin_transaction(&mut db, 1).unwrap();
    assert_eq!(insert_record(&mut db, &mut h, Some(&t), Key::Int(3), s("new")), Ok(()));
    assert_eq!(delete_record(&mut db, &mut h, Some(&t), Key::Int(2), None), Ok(()));
    assert_eq!(delete_record(&mut db, &mut h, Some(&t), Key::Int(1), Some(s("keep"))), Ok(()));
    assert_eq!(abort_transaction(&mut db, t, 1), Ok(()));
    assert_eq!(scan(&mut db, "t"), vec![(1, s("keep")), (2, s("gone"))]);
}

#[test]
fn commit_keeps_changes() {
    let mut db = setup(KeyType::Int, "t");
    let mut h = open_index(&mut db, "t").unwrap();
    let t = begin_transaction(&mut db, 1).unwrap();
    assert_eq!(insert_record(&mut db, &mut h, Some(&t), Key::Int(3), s("new")), Ok(()));
    assert_eq!(commit_transaction(&mut db, t, 1), Ok(()));
    assert_eq!(scan(&mut db, "t"), vec![(3, s("new"))]);
}

#[test]
fn conflicting_access_waits_for_holder() {
    let mut db = setup(KeyType::Int, "t");
    let mut h = open_index(&mut db, "t").unwrap();
    let t = begin_transaction(&mut db, 1).unwrap();
    assert_eq!(insert_record(&mut db, &mut h, Some(&t), Key::Int(1), s("a")), Ok(()));
    assert_eq!(get(&mut db, &mut h, None, Key::Int(1)), Err(ErrCode::WouldBlock));
    let u = begin_transaction(&mut db, 2).unwrap();
    assert_eq!(insert_record(&mut db, &mut h, Some(&u), Key::Int(2), s("b")), Err(ErrCode::WouldBlock));
    assert_eq!(commit_transaction(&mut db, t, 1), Ok(()));
    assert_eq!(insert_record(&mut db, &mut h, Some(&u), Key::Int(2), s("b")), Ok(()));
    assert_eq!(commit_transaction(&mut db, u, 2), Ok(()));
    assert_eq!(get(&mut db, &mut h, None, Key::Int(1)), Ok(s("a")));
}

#[test]
fn shared_readers_do_not_block() {
    let mut db = setup(KeyType::Int, "t");
    let mut h = open_index(&mut db, "t").unwrap();
    assert_eq!(insert_record(&mut db, &mut h, None, Key::Int(1), s("a")), Ok(()));
    let t = begin_transaction(&mut db, 1).unwrap();
    let u = begin_transaction(&mut db, 2).unwrap();
    assert_eq!(get(&mut db, &mut h, Some(&t), Key::Int(1)), Ok(s("a")));
    assert_eq!(get(&mut db, &mut h, Some(&u), Key::Int(1)), Ok(s("a")));
    assert_eq!(get(&mut db, &mut h, None, Key::Int(1)), Ok(s("a")));
    assert_eq!(commit_transaction(&mut db, t, 1), Ok(()));
    assert_eq!(commit_transaction(&mut db, u, 2), Ok(()));
}

#[test]
fn cyclic_wait_aborts_exactly_one() {
    let mut db = Database::new();
    assert_eq!(create(&mut db, KeyType::Int, "a"), Ok(()));
    assert_eq!(create(&mut db, KeyType::Int, "b"), Ok(()));
    let mut ha = open_index(&mut db, "a").unwrap();
    let mut hb = open_index(&mut db, "b").unwrap();
    let t1 = begin_transaction(&mut db, 1).unwrap();
    let t2 = begin_transaction(&mut db, 2).unwrap();
    assert_eq!(insert_record(&mut db, &mut ha, Some(&t1), Key::Int(1), s("t1")), Ok(()));
    assert_eq!(insert_record(&mut db, &mut hb, Some(&t2), Key::Int(1), s("t2")), Ok(()));
    assert_eq!(insert_record(&mut db, &mut hb, Some(&t1), Key::Int(2), s("t1")), Err(ErrCode::WouldBlock));
    assert_eq!(insert_record(&mut db, &mut ha, Some(&t2), Key::Int(2), s("t2")), Err(ErrCode::Deadlock));
    assert_eq!(insert_record(&mut db, &mut hb, Some(&t1), Key::Int(2), s("t1")), Ok(()));
    assert_eq!(commit_transaction(&mut db, t1, 1), Ok(()));
    assert_eq!(commit_transaction(&mut db, t2, 2), Err(ErrCode::TxnDne));
    let mut b = Vec::new();
    while let Ok((Key::Int(k), p)) = get_next(&mut db, &mut hb, None) {
        b.push((k, p));
    }
    assert_eq!(b, vec![(2, s("t1"))]);
}

#[test]
fn each_scope_keeps_its_own_cursor() {
    let mut db = setup(KeyType::Int, "t");
    let mut h = open_index(&mut db, "t").unwrap();
    for k in [1i64, 2, 3] {
        assert_eq!(insert_record(&mut db, &mut h, None, Key::Int(k), s("v")), Ok(()));
    }
    assert!(matches!(get_next(&mut db, &mut h, None).unwrap().0, Key::Int(1)));
    let t = begin_transaction(&mut db, 1).unwrap();
    assert!(matches!(get_next(&mut db, &mut h, Some(&t)).unwrap().0, Key::Int(1)));
    assert!(matches!(get_next(&mut db, &mut h, None).unwrap().0, Key::Int(2)));
    assert!(matches!(get_next(&mut db, &mut h, Some(&t)).unwrap().0, Key::Int(2)));
    assert!(matches!(get_next(&mut db, &mut h, Some(&t)).unwrap().0, Key::Int(3)));
    assert_eq!(get_next(&mut db, &mut h, Some(&t)).err(), Some(ErrCode::DbEnd));
    assert_eq!(commit_transaction(&mut db, t, 1), Ok(()));
    assert!(matches!(get_next(&mut db, &mut h, None).unwrap().0, Key::Int(3)));
}

#[test]
fn reopened_handle_starts_over() {
    let mut db = setup(KeyType::Int, "t");
    let mut h = open_index(&mut db, "t").unwrap();
    for k in [4i64, 5] {
        assert_eq!(insert_record(&mut db, &mut h, None, Key::Int(k), s("v")), Ok(()));
    }
    assert!(matches!(get_next(&mut db, &mut h, None).unwrap().0, Key::Int(4)));
    assert!(matches!(get_next(&mut db, &mut h, None).unwrap().0, Key::Int(5)));
    assert_eq!(close_index(&mut db, h), Ok(()));
    let mut h = open_index(&mut db, "t").unwrap();
    assert!(matches!(get_next(&mut db, &mut h, None).unwrap().0, Key::Int(4)));
}

#[test]
fn empty_index_scan_ends_at_once() {
    let mut db = setup(KeyType::Int, "t");
    let mut h = open_index(&mut db, "t").unwrap();
    assert_eq!(get_next(&mut db, &mut h, None).err(), Some(ErrCode::DbEnd));
    assert_eq!(get(&mut db, &mut h, None, Key::Int(0)), Err(ErrCode::KeyNotFound));
    assert_eq!(get_next(&mut db, &mut h, None).err(), Some(ErrCode::DbEnd));
}

#[test]
fn empty_payload_is_a_record_of_its_own() {
    let mut db = setup(KeyType::Int, "t");
    let mut h = open_index(&mut db, "t").unwrap();
    assert_eq!(insert_record(&mut db, &mut h, None, Key::Int(1), s("")), Ok(()));
    assert_eq!(insert_record(&mut db, &mut h, None, Key::Int(1), s("a")), Ok(()));
    assert_eq!(get(&mut db, &mut h, None, Key::Int(1)), Ok(s("")));
    let (_, p) = get_next(&mut db, &mut h, None).unwrap();
    assert_eq!(p, s("a"));
    assert_eq!(get_next(&mut db, &mut h, None).err(), Some(ErrCode::DbEnd));
}

#[test]
fn longest_strings_are_kept_whole() {
    let mut db = setup(KeyType::Varchar, "v");
    let mut h = open_index(&mut db, "v").unwrap();
    let key = "k".repeat(128);
    let payload = "p".repeat(100);
    assert_eq!(insert_record(&mut db, &mut h, None, Key::Varchar(key.clone()), payload.clone()), Ok(()));
    assert_eq!(get(&mut db, &mut h, None, Key::Varchar(key)), Ok(payload));
}

#[test]
fn foreign_thread_cannot_end_a_transaction() {
    let mut db = Database::new();
    let t = begin_transaction(&mut db, 1).unwrap();
    let u = begin_transaction(&mut db, 2).unwrap();
    assert_eq!(commit_transaction(&mut db, t, 2), Err(ErrCode::TxnDne));
    assert_eq!(abort_transaction(&mut db, u, 1), Err(ErrCode::TxnDne));
}

#[test]
fn thread_is_free_after_commit() {
    let mut db = Database::new();
    let t = begin_transaction(&mut db, 3).unwrap();
    assert_eq!(commit_transaction(&mut db, t, 3), Ok(()));
    let u = begin_transaction(&mut db, 3).unwrap();
    assert_eq!(abort_transaction(&mut db, u, 3), Ok(()));
}
