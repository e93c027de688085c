use fork_state::cache::{AccountRecord, BlockCache, ChainMeta, Key, Snapshot, Value};
use fork_state::types::{Address, Word};

fn meta(chain_id: u64, height: u64, hosts: &[&str]) -> ChainMeta {
    ChainMeta { chain_id, height, hosts: hosts.iter().map(|h| h.to_string()).collect() }
}

fn filled() -> BlockCache {
    let mut c = BlockCache::new(meta(1, 100, &["a", "b"]));
    c.insert(Key::Account(Address::new(0, 0, 1)), Value::Account(AccountRecord { balance: Word::from_u64(1), nonce: 0, exists: true }));
    c.insert(Key::Storage(Address::new(0, 0, 1), Word::from_u64(2)), Value::Storage(Word::from_u64(3)));
    c.insert(Key::Code(Address::new(0, 0, 1)), Value::Code(vec![1, 2, 3]));
    c
}

#[test]
fn first_value_is_kept() {
    let mut c = BlockCache::new(meta(1, 100, &[]));
    let k = Key::Storage(Address::new(0, 0, 1), Word::from_u64(2));
    assert!(!c.contains(&k));
    assert_eq!(c.get(&k), None);
    c.insert(k, Value::Storage(Word::from_u64(3)));
    c.insert(k, Value::Storage(Word::from_u64(4)));
    assert_eq!(c.get(&k), Some(Value::Storage(Word::from_u64(3))));
}

#[test]
fn snapshot_round_trip_same_meta() {
    let c = filled();
    let snap = c.save();
    // Host order does not change the identity.
    let back = BlockCache::load(meta(1, 100, &["b", "a"]), Some(snap));
    assert_eq!(back.get(&Key::Code(Address::new(0, 0, 1))), Some(Value::Code(vec![1, 2, 3])));
    assert_eq!(back.get(&Key::Storage(Address::new(0, 0, 1), Word::from_u64(2))), Some(Value::Storage(Word::from_u64(3))));
    assert!(back.contains(&Key::Account(Address::new(0, 0, 1))));
}

#[test]
fn snapshot_of_other_meta_is_a_miss() {
    for other in [meta(1, 101, &["a", "b"]), meta(5, 100, &["a", "b"]), meta(1, 100, &["a"])] {
        let back = BlockCache::load(other, Some(filled().save()));
        assert!(!back.contains(&Key::Account(Address::new(0, 0, 1))));
        assert!(!back.contains(&Key::Code(Address::new(0, 0, 1))));
    }
}

#[test]
fn missing_or_unsound_snapshot_gives_empty_cache() {
    let none = BlockCache::load(meta(1, 100, &[]), None);
    assert!(!none.contains(&Key::BlockHash(1)));
    let twice = Snapshot {
        meta: meta(1, 100, &[]),
        entries: vec![
            (Key::BlockHash(1), Value::BlockHash(Word::from_u64(1))),
            (Key::BlockHash(1), Value::BlockHash(Word::from_u64(2))),
        ],
    };
    let c = BlockCache::load(meta(1, 100, &[]), Some(twice));
    assert!(!c.contains(&Key::BlockHash(1)));
}
