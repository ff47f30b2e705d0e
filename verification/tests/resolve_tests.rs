use std::str::FromStr;

use rpc_account_store::addr::{direct_loader_address, indirect_loader_address, Address};
use rpc_account_store::errors::{MalformedReason, ProgramDataReason, RpcError};
use rpc_account_store::record::AccountRecord;
use rpc_account_store::store::RpcAccountStore;
use rpc_account_store::validate::ValidationError;

fn addr(b: u8) -> Address {
    Address::from_bytes(vec![b; 32]).unwrap()
}

fn elf(len: usize) -> Vec<u8> {
    let mut data = vec![0u8; len];
    data[0] = 0x7f;
    data[1] = 0x45;
    data[2] = 0x4c;
    data[3] = 0x46;
    data[4] = 2;
    data
}

fn executable(data: Vec<u8>, owner: Address) -> AccountRecord {
    AccountRecord::new(1, data, owner, true, 0)
}

#[test]
fn direct_program_registers_its_whole_data() {
    let data = elf(60);
    let mut store = RpcAccountStore::new();
    store.cache.put(addr(1), executable(data.clone(), direct_loader_address()));
    let pointers = store.collect_program_data_keys().unwrap();
    assert_eq!(pointers.len(), 0);
    let regs = store.resolve_programs().unwrap();
    assert_eq!(regs.len(), 1);
    assert_eq!(regs[0].program.as_bytes(), addr(1).as_bytes());
    assert_eq!(regs[0].bytecode, data);
    assert_eq!(regs[0].owner.as_bytes(), direct_loader_address().as_bytes());
}

#[test]
fn indirect_program_registers_data_past_the_header() {
    // Program account: pointer to addr(7) embedded at bytes 4..36.
    let mut program_data = vec![0u8; 36];
    for i in 4..36 {
        program_data[i] = 7;
    }
    // Pointed-to account: 50 bytes; bytecode is the last 5.
    let mut pointee_data = vec![0u8; 50];
    for (i, b) in [9, 8, 7, 6, 5].iter().enumerate() {
        pointee_data[45 + i] = *b;
    }
    let mut store = RpcAccountStore::new().skip_program_validation();
    store.cache.put(addr(1), executable(program_data, indirect_loader_address()));
    store.cache.put(addr(7), AccountRecord::new(0, pointee_data, addr(2), false, 0));
    let pointers = store.collect_program_data_keys().unwrap();
    assert_eq!(pointers.len(), 0, "pointer target is already cached");
    let regs = store.resolve_programs().unwrap();
    assert_eq!(regs.len(), 1);
    assert_eq!(regs[0].program.as_bytes(), addr(1).as_bytes());
    assert_eq!(regs[0].bytecode, vec![9, 8, 7, 6, 5]);
    assert_eq!(regs[0].owner.as_bytes(), indirect_loader_address().as_bytes());
}

#[test]
fn uncached_pointer_is_collected_for_fetching() {
    let mut program_data = vec![0u8; 40];
    for i in 4..36 {
        program_data[i] = 7;
    }
    let mut store = RpcAccountStore::new();
    store.cache.put(addr(1), executable(program_data, indirect_loader_address()));
    let pointers = store.collect_program_data_keys().unwrap();
    assert_eq!(pointers.len(), 1);
    assert_eq!(pointers[0].as_bytes(), addr(7).as_bytes());
}

#[test]
fn short_indirect_program_is_malformed() {
    let mut store = RpcAccountStore::new();
    store.cache.put(addr(1), executable(vec![0u8; 35], indirect_loader_address()));
    let err = store.collect_program_data_keys().unwrap_err();
    match err {
        RpcError::MalformedProgram { program, reason } => {
            assert_eq!(program.as_bytes(), addr(1).as_bytes());
            assert!(reason == MalformedReason::TooShortForPointer { len: 35 });
        }
        other => panic!("unexpected error: {:?}", other),
    }
    let err = store.resolve_programs().unwrap_err();
    assert!(matches!(err, RpcError::MalformedProgram { .. }));
}

#[test]
fn missing_pointer_target_is_named_not_skipped() {
    let mut program_data = vec![0u8; 36];
    for i in 4..36 {
        program_data[i] = 7;
    }
    let mut store = RpcAccountStore::new();
    store.cache.put(addr(1), executable(program_data, indirect_loader_address()));
    let err = store.resolve_programs().unwrap_err();
    match err {
        RpcError::InvalidProgramData { program, reason } => {
            assert_eq!(program.as_bytes(), addr(1).as_bytes());
            match reason {
                ProgramDataReason::MissingAccount { pointer } => {
                    assert_eq!(pointer.as_bytes(), addr(7).as_bytes());
                }
                other => panic!("unexpected reason: {:?}", other),
            }
        }
        other => panic!("unexpected error: {:?}", other),
    }
}

#[test]
fn pointer_target_must_cover_the_header() {
    let mut program_data = vec![0u8; 36];
    for i in 4..36 {
        program_data[i] = 7;
    }
    let mut store = RpcAccountStore::new();
    store.cache.put(addr(1), executable(program_data, indirect_loader_address()));
    store.cache.put(addr(7), AccountRecord::new(0, vec![0u8; 45], addr(2), false, 0));
    let err = store.resolve_programs().unwrap_err();
    match err {
        RpcError::InvalidProgramData { reason: ProgramDataReason::TooSmall { len }, .. } => {
            assert_eq!(len, 45);
        }
        other => panic!("unexpected error: {:?}", other),
    }
}

#[test]
fn validation_failure_stops_registration() {
    let mut data = elf(60);
    data[0] = 0; // break the magic
    let mut store = RpcAccountStore::new();
    store.cache.put(addr(1), executable(data, direct_loader_address()));
    let err = store.resolve_programs().unwrap_err();
    match err {
        RpcError::InvalidProgramData {
            reason: ProgramDataReason::Validation(ValidationError::BadMagic),
            ..
        } => {}
        other => panic!("unexpected error: {:?}", other),
    }
}

#[test]
fn unknown_owner_is_silently_skipped() {
    let mut store = RpcAccountStore::new();
    store.cache.put(addr(1), executable(vec![1, 2, 3], addr(99)));
    let regs = store.resolve_programs().unwrap();
    assert_eq!(regs.len(), 0);
}

#[test]
fn non_executable_accounts_are_ignored() {
    let mut store = RpcAccountStore::new();
    store.cache.put(addr(1), AccountRecord::new(5, vec![0u8; 10], indirect_loader_address(), false, 0));
    assert_eq!(store.collect_program_data_keys().unwrap().len(), 0);
    assert_eq!(store.resolve_programs().unwrap().len(), 0);
}

#[test]
fn loader_constants_match_the_wellknown_addresses() {
    let v2 = solana_pubkey::Pubkey::from_str("BPFLoader2111111111111111111111111111111111").unwrap();
    let v3 = solana_pubkey::Pubkey::from_str("BPFLoaderUpgradeab1e11111111111111111111111").unwrap();
    assert_eq!(direct_loader_address().as_bytes(), &v2.to_bytes().to_vec());
    assert_eq!(indirect_loader_address().as_bytes(), &v3.to_bytes().to_vec());
}
