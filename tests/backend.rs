use fork_state::backend::{Action, BackendHandler, FetchError};
use fork_state::cache::{AccountRecord, BlockCache, ChainMeta, Key, Value};
use fork_state::types::{Address, Word};

fn mainnet() -> ChainMeta {
    ChainMeta { chain_id: 1, height: 18_000_000, hosts: vec!["node.example".to_string()] }
}

fn account_x() -> AccountRecord {
    AccountRecord { balance: Word::from_u64(5_000), nonce: 3, exists: true }
}

#[test]
fn account_fetched_once_then_served_from_cache() {
    let x = Address::new(0, 0, 0x1234);
    let mut h = BackendHandler::in_memory(mainnet());
    let mut fetches = 0;
    let first = h.on_request(Key::Account(x), 1);
    if let Action::Fetch(k) = &first {
        assert_eq!(*k, Key::Account(x));
        fetches += 1;
    }
    assert_eq!(fetches, 1);
    let answered = h.on_fetched(Key::Account(x), Ok(Value::Account(account_x())));
    assert_eq!(answered, Action::Answer { replies: vec![1], value: Value::Account(account_x()) });
    assert!(h.cache().contains(&Key::Account(x)));
    let again = h.on_request(Key::Account(x), 2);
    assert_eq!(again, Action::Answer { replies: vec![2], value: Value::Account(account_x()) });
}

#[test]
fn repeated_slot_requests_fetch_once() {
    let key = Key::Storage(Address::new(0, 0, 7), Word::from_u64(1));
    let mut h = BackendHandler::in_memory(mainnet());
    let mut fetches = 0;
    for reply in 0..5u64 {
        match h.on_request(key, reply) {
            Action::Fetch(_) => {
                fetches += 1;
                h.on_fetched(key, Ok(Value::Storage(Word::from_u64(42))));
            }
            Action::Answer { value, .. } => assert_eq!(value, Value::Storage(Word::from_u64(42))),
            other => panic!("unexpected {:?}", other),
        }
    }
    assert_eq!(fetches, 1);
}

#[test]
fn concurrent_requests_are_coalesced() {
    let key = Key::Storage(Address::new(0, 0, 7), Word::from_u64(1));
    let mut h = BackendHandler::in_memory(mainnet());
    assert_eq!(h.on_request(key, 10), Action::Fetch(key));
    assert_eq!(h.on_request(key, 11), Action::Wait);
    assert_eq!(h.on_request(key, 12), Action::Wait);
    let done = h.on_fetched(key, Ok(Value::Storage(Word::from_u64(9))));
    assert_eq!(done, Action::Answer { replies: vec![10, 11, 12], value: Value::Storage(Word::from_u64(9)) });
}

#[test]
fn failure_goes_to_all_waiters_and_is_not_cached() {
    let key = Key::BlockHash(17);
    let mut h = BackendHandler::in_memory(mainnet());
    assert_eq!(h.on_request(key, 1), Action::Fetch(key));
    assert_eq!(h.on_request(key, 2), Action::Wait);
    assert_eq!(h.on_fetched(key, Err(FetchError::Remote)), Action::Fail { replies: vec![1, 2], error: FetchError::Remote });
    assert_eq!(h.on_request(key, 3), Action::Fetch(key));
}

#[test]
fn requests_after_shutdown_fail_at_once() {
    let key = Key::Code(Address::new(0, 0, 1));
    let mut h = BackendHandler::in_memory(mainnet());
    h.shutdown();
    assert!(h.is_stopped());
    assert_eq!(h.on_request(key, 4), Action::Fail { replies: vec![4], error: FetchError::Unavailable });
}

#[test]
fn fetch_under_way_still_answers_after_shutdown() {
    let key = Key::Code(Address::new(0, 0, 1));
    let mut h = BackendHandler::in_memory(mainnet());
    assert_eq!(h.on_request(key, 1), Action::Fetch(key));
    h.shutdown();
    assert_eq!(
        h.on_fetched(key, Ok(Value::Code(vec![0x60, 0x00]))),
        Action::Answer { replies: vec![1], value: Value::Code(vec![0x60, 0x00]) }
    );
}

#[test]
fn handler_over_loaded_cache_answers_without_fetch() {
    let mut c = BlockCache::new(mainnet());
    c.insert(Key::BlockHash(5), Value::BlockHash(Word::new(1, 2, 3, 4)));
    let snap = c.save();
    let mut h = BackendHandler::new(BlockCache::load(mainnet(), Some(snap)));
    assert_eq!(
        h.on_request(Key::BlockHash(5), 8),
        Action::Answer { replies: vec![8], value: Value::BlockHash(Word::new(1, 2, 3, 4)) }
    );
}
