use fork_state::access_list::{
    to_precompile_id, AccessList, AccessListItem, AccessListTracer, PrecompileSpecId, SpecId, BALANCE, CALL,
    DELEGATECALL, EXTCODESIZE, SLOAD, SSTORE,
};
use fork_state::types::{Address, Word};

fn addr(n: u64) -> Address {
    Address::new(0, 0, n)
}

fn w(n: u64) -> Word {
    Word::from_u64(n)
}

fn tracer_for(sender: Address, target: Address) -> AccessListTracer {
    AccessListTracer::new(AccessList(Vec::new()), sender, target, vec![addr(1), addr(2)])
}

#[test]
fn excluded_sender_and_target_give_empty_list() {
    let sender = addr(0xaaaa);
    let target = addr(0xbbbb);
    let mut t = tracer_for(sender, target);
    t.step(BALANCE, target, &vec![Word::from_address(sender)]);
    t.step(EXTCODESIZE, target, &vec![Word::from_address(target)]);
    t.step(CALL, target, &vec![w(0), w(0), Word::from_address(target), w(50000)]);
    assert_eq!(t.access_list(), AccessList(Vec::new()));
}

#[test]
fn sload_then_sstore_records_both_slots() {
    let a = addr(0xa);
    let mut t = tracer_for(addr(0xaaaa), addr(0xbbbb));
    t.step(SLOAD, a, &vec![w(1)]);
    t.step(SSTORE, a, &vec![w(7), w(2)]);
    let list = t.access_list();
    assert_eq!(list.0.len(), 1);
    assert_eq!(list.0[0].address, a);
    let mut keys = list.0[0].storage_keys.clone();
    keys.sort();
    assert_eq!(keys, vec![w(1), w(2)]);
}

#[test]
fn repeated_slot_is_listed_once() {
    let a = addr(0xa);
    let mut t = tracer_for(addr(0xaaaa), addr(0xbbbb));
    t.step(SLOAD, a, &vec![w(1)]);
    t.step(SLOAD, a, &vec![w(1)]);
    assert_eq!(t.access_list().0[0].storage_keys, vec![w(1)]);
}

#[test]
fn call_to_other_contract_records_it_without_slots() {
    let a = addr(0xa);
    let b = addr(0xb);
    let mut t = tracer_for(addr(0xaaaa), addr(0xbbbb));
    // CALL takes gas on top, then the target address.
    t.step(CALL, a, &vec![w(0), w(0), w(0), w(0), w(0), Word::from_address(b), w(30000)]);
    assert_eq!(t.access_list(), AccessList(vec![AccessListItem { address: b, storage_keys: vec![] }]));
}

#[test]
fn precompiles_are_excluded() {
    let mut t = tracer_for(addr(0xaaaa), addr(0xbbbb));
    t.step(DELEGATECALL, addr(0xa), &vec![w(0), Word::from_address(addr(1)), w(100)]);
    t.step(BALANCE, addr(0xa), &vec![Word::from_address(addr(2))]);
    assert_eq!(t.access_list(), AccessList(Vec::new()));
}

#[test]
fn stack_underflow_records_nothing() {
    let mut t = tracer_for(addr(0xaaaa), addr(0xbbbb));
    t.step(SLOAD, addr(0xa), &vec![]);
    t.step(CALL, addr(0xa), &vec![w(5)]);
    t.step(BALANCE, addr(0xa), &vec![]);
    assert_eq!(t.access_list(), AccessList(Vec::new()));
}

#[test]
fn other_opcodes_record_nothing() {
    let mut t = tracer_for(addr(0xaaaa), addr(0xbbbb));
    t.step(0x01, addr(0xa), &vec![w(3), w(4)]);
    t.step(0x00, addr(0xa), &vec![w(3)]);
    assert_eq!(t.access_list(), AccessList(Vec::new()));
}

#[test]
fn address_operand_uses_low_160_bits() {
    let mut t = tracer_for(addr(0xaaaa), addr(0xbbbb));
    t.step(BALANCE, addr(0xa), &vec![Word::new(0xffff, 0x1_0000_0007, 8, 9)]);
    assert_eq!(t.access_list().0[0].address, Address::new(7, 8, 9));
}

#[test]
fn output_is_address_sorted() {
    let mut t = tracer_for(addr(0xaaaa), addr(0xbbbb));
    t.step(SLOAD, addr(0x30), &vec![w(1)]);
    t.step(SLOAD, addr(0x10), &vec![w(1)]);
    t.step(BALANCE, addr(0x10), &vec![Word::from_address(Address::new(1, 0, 0))]);
    t.step(SLOAD, addr(0x20), &vec![w(1)]);
    let got: Vec<Address> = t.access_list().0.iter().map(|i| i.address).collect();
    assert_eq!(got, vec![addr(0x10), addr(0x20), addr(0x30), Address::new(1, 0, 0)]);
}

#[test]
fn seed_list_is_merged() {
    let seed = AccessList(vec![
        AccessListItem { address: addr(0x10), storage_keys: vec![w(1)] },
        AccessListItem { address: addr(0x10), storage_keys: vec![w(2), w(1)] },
        AccessListItem { address: addr(0x20), storage_keys: vec![] },
    ]);
    let mut t = AccessListTracer::new(seed, addr(0xaaaa), addr(0xbbbb), vec![]);
    t.step(SSTORE, addr(0x20), &vec![w(0), w(9)]);
    let list = t.access_list();
    assert_eq!(list.0.len(), 2);
    let mut k0 = list.0[0].storage_keys.clone();
    k0.sort();
    assert_eq!(k0, vec![w(1), w(2)]);
    assert_eq!(list.0[1].storage_keys, vec![w(9)]);
}

#[test]
fn sload_by_excluded_contract_is_still_recorded() {
    let target = addr(0xbbbb);
    let mut t = tracer_for(addr(0xaaaa), target);
    t.step(SLOAD, target, &vec![w(3)]);
    assert_eq!(t.access_list(), AccessList(vec![AccessListItem { address: target, storage_keys: vec![w(3)] }]));
}

#[test]
fn precompile_ids_follow_the_revision() {
    assert_eq!(to_precompile_id(SpecId::FRONTIER), PrecompileSpecId::HOMESTEAD);
    assert_eq!(to_precompile_id(SpecId::SPURIOUS_DRAGON), PrecompileSpecId::HOMESTEAD);
    assert_eq!(to_precompile_id(SpecId::PETERSBURG), PrecompileSpecId::BYZANTIUM);
    assert_eq!(to_precompile_id(SpecId::MUIR_GLACIER), PrecompileSpecId::ISTANBUL);
    assert_eq!(to_precompile_id(SpecId::LONDON), PrecompileSpecId::BERLIN);
    assert_eq!(to_precompile_id(SpecId::CANCUN), PrecompileSpecId::BERLIN);
    assert_eq!(to_precompile_id(SpecId::LATEST), PrecompileSpecId::BERLIN);
}
