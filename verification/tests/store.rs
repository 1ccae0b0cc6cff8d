use linekv::command::Command;
use linekv::db::{Db, DbResult};

#[test]
fn put_then_get_round_trips() {
    let mut db = Db::new();
    db.put(b"k".to_vec(), b"v".to_vec());
    assert_eq!(db.get(&b"k".to_vec()), DbResult::Found(b"v".to_vec()));
}

#[test]
fn overwrite_is_last_write_wins() {
    let mut db = Db::new();
    db.put(b"k".to_vec(), b"v1".to_vec());
    db.put(b"k".to_vec(), b"v2".to_vec());
    assert_eq!(db.get(&b"k".to_vec()), DbResult::Found(b"v2".to_vec()));
}

#[test]
fn get_missing_on_empty_store_is_not_found() {
    let db = Db::new();
    assert_eq!(db.get(&b"missing".to_vec()), DbResult::NotFound);
}

#[test]
fn get_leaves_other_keys_alone() {
    let mut db = Db::new();
    db.put(b"a".to_vec(), b"1".to_vec());
    db.put(b"b".to_vec(), b"2".to_vec());
    assert_eq!(db.get(&b"a".to_vec()), DbResult::Found(b"1".to_vec()));
    assert_eq!(db.get(&b"b".to_vec()), DbResult::Found(b"2".to_vec()));
    assert_eq!(db.get(&b"c".to_vec()), DbResult::NotFound);
}

#[test]
fn apply_replies_written_for_a_write() {
    let mut db = Db::new();
    let r = db.apply(Command::Put(b"k".to_vec(), b"v".to_vec()));
    assert_eq!(r, DbResult::Written);
    let r = db.apply(Command::Get(b"k".to_vec()));
    assert_eq!(r, DbResult::Found(b"v".to_vec()));
}

#[test]
fn interleaved_writes_on_disjoint_keys_lose_nothing() {
    // two writers' batches land in one interleaved dequeue order
    let mut db = Db::new();
    let first: Vec<(Vec<u8>, Vec<u8>)> = (0..8u8)
        .map(|i| (vec![b'a', i], vec![b'x', i]))
        .collect();
    let second: Vec<(Vec<u8>, Vec<u8>)> = (0..8u8)
        .map(|i| (vec![b'b', i], vec![b'y', i]))
        .collect();
    for i in 0..8usize {
        db.apply(Command::Put(first[i].0.clone(), first[i].1.clone()));
        db.apply(Command::Put(second[i].0.clone(), second[i].1.clone()));
    }
    for i in 0..8usize {
        assert_eq!(db.get(&first[i].0), DbResult::Found(first[i].1.clone()));
        assert_eq!(db.get(&second[i].0), DbResult::Found(second[i].1.clone()));
    }
}
