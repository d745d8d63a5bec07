use execution_engine::keys::{Key, URef, ADD, READ, READ_ADD_WRITE, WRITE};
use execution_engine::runtime_context::{
    validate_entry_point_context, AddressGenerator, ExecError, Phase, RuntimeContext,
};
use execution_engine::stored_value::{Account, CLType, CLValue, EntryPointType, StoredValue};
use execution_engine::tracking_copy::{GlobalState, TrackingCopy};
use execution_engine::transform::Transform;

fn u64_value(x: u64) -> StoredValue {
    StoredValue::CLValue(CLValue { cl_type: CLType::U64, bytes: x.to_le_bytes().to_vec() })
}

fn context(named: Vec<(&str, Key)>, args: Vec<Key>, kind: EntryPointType, gas_limit: u64) -> RuntimeContext {
    RuntimeContext::new(
        named.into_iter().map(|(n, k)| (n.as_bytes().to_vec(), k)).collect(),
        &args,
        kind,
        Key::Account([1u8; 32]),
        [3u8; 32],
        Phase::Session,
        gas_limit,
        0,
    )
}

#[test]
fn forged_references_are_refused() {
    let held = URef::new([5u8; 32], READ_ADD_WRITE);
    let ctx = context(vec![("purse", Key::URef(held))], vec![], EntryPointType::Session, 100);
    assert_eq!(ctx.validate_uref(&held), Ok(()));
    let forged = URef::new([255u8; 32], READ_ADD_WRITE);
    assert_eq!(ctx.validate_uref(&forged), Err(ExecError::ForgedReference(forged)));
    assert_eq!(ctx.validate_key(&Key::URef(forged)), Err(ExecError::ForgedReference(forged)));
    assert_eq!(ctx.validate_key(&Key::Hash([255u8; 32])), Ok(()));
}

#[test]
fn references_claiming_more_rights_than_granted_are_refused() {
    let read_only = URef::new([6u8; 32], READ);
    let ctx = context(vec![], vec![Key::URef(read_only)], EntryPointType::Session, 100);
    assert_eq!(ctx.validate_uref(&read_only), Ok(()));
    let escalated = URef::new([6u8; 32], READ | WRITE);
    assert_eq!(ctx.validate_uref(&escalated), Err(ExecError::InvalidAccess { required: READ | WRITE }));
}

#[test]
fn storage_operations_check_rights() {
    let mut base = GlobalState::new();
    let writable = URef::new([7u8; 32], READ_ADD_WRITE);
    base.write(Key::URef(writable), u64_value(1));
    let mut ctx = context(vec![("counter", Key::URef(writable))], vec![], EntryPointType::Session, 100);
    let mut tc = TrackingCopy::new();
    assert_eq!(ctx.read_gs(&mut tc, &base, &Key::URef(writable)), Ok(Some(u64_value(1))));
    let read_claim = URef::new([7u8; 32], READ);
    assert_eq!(
        ctx.write_gs(&mut tc, Key::URef(read_claim), u64_value(2)),
        Err(ExecError::InvalidAccess { required: WRITE })
    );
    assert_eq!(
        ctx.add_gs(&mut tc, &base, Key::URef(read_claim), Transform::AddUInt64(1)),
        Err(ExecError::InvalidAccess { required: ADD })
    );
    assert_eq!(ctx.write_gs(&mut tc, Key::Hash([7u8; 32]), u64_value(2)), Err(ExecError::InvalidAccess { required: WRITE }));
    let forged = URef::new([8u8; 32], READ_ADD_WRITE);
    assert_eq!(ctx.read_gs(&mut tc, &base, &Key::URef(forged)), Err(ExecError::ForgedReference(forged)));
    assert_eq!(ctx.write_gs(&mut tc, Key::URef(writable), u64_value(2)), Ok(()));
    assert_eq!(ctx.read_gs(&mut tc, &base, &Key::URef(writable)), Ok(Some(u64_value(2))));
}

#[test]
fn contract_counter_increments_in_its_own_context() {
    let mut base = GlobalState::new();
    let counter = URef::new([9u8; 32], READ_ADD_WRITE);
    base.write(Key::URef(counter), u64_value(10));
    let mut ctx = context(vec![("counter", Key::URef(counter))], vec![], EntryPointType::Contract, 1000);
    let mut tc = TrackingCopy::new();
    let key = ctx.get_key(&b"counter".to_vec()).expect("should have counter");
    assert_eq!(ctx.add_gs(&mut tc, &base, key, Transform::AddUInt64(1)), Ok(()));
    assert_eq!(ctx.read_gs(&mut tc, &base, &key), Ok(Some(u64_value(11))));
    assert_eq!(ctx.add_gs(&mut tc, &base, key, Transform::AddUInt64(1)), Ok(()));
    assert_eq!(ctx.read_gs(&mut tc, &base, &key), Ok(Some(u64_value(12))));
}

#[test]
fn new_urefs_are_fresh_and_held_with_every_right() {
    let mut ctx = context(vec![], vec![], EntryPointType::Session, 100);
    let mut tc = TrackingCopy::new();
    let a = ctx.new_uref(&mut tc, u64_value(1));
    let b = ctx.new_uref(&mut tc, u64_value(2));
    assert_eq!(a.rights, READ_ADD_WRITE);
    assert_ne!(a.addr, b.addr);
    assert_eq!(ctx.validate_uref(&a), Ok(()));
    assert_eq!(ctx.validate_uref(&b), Ok(()));
    assert_eq!(tc.transforms.get(&Key::URef(a)), Some(&Transform::Write(u64_value(1))));
}

#[test]
fn address_generators_are_deterministic() {
    let mut g1 = AddressGenerator::new(&[1u8; 32], Phase::Payment);
    let mut g2 = AddressGenerator::new(&[1u8; 32], Phase::Payment);
    let mut g3 = AddressGenerator::new(&[1u8; 32], Phase::Session);
    let a1 = g1.create_address();
    assert_eq!(a1, g2.create_address());
    assert_ne!(a1, g3.create_address());
    assert_ne!(a1, g1.create_address());
    assert_eq!(&a1[24..], &[0u8; 8]);
}

#[test]
fn gas_counter_stops_at_the_limit() {
    let mut ctx = context(vec![], vec![], EntryPointType::Session, 100);
    assert_eq!(ctx.charge_gas(60), Ok(()));
    assert_eq!(ctx.gas_counter, 60);
    assert_eq!(ctx.charge_gas(40), Ok(()));
    assert_eq!(ctx.gas_counter, 100);
    assert_eq!(ctx.charge_gas(1), Err(ExecError::GasLimit));
    assert_eq!(ctx.gas_counter, 100);
    let mut ctx = context(vec![], vec![], EntryPointType::Session, 100);
    assert_eq!(ctx.charge_gas(u64::MAX), Err(ExecError::GasLimit));
    assert_eq!(ctx.gas_counter, 100);
}

#[test]
fn contract_code_may_not_call_session_code() {
    assert_eq!(
        validate_entry_point_context(EntryPointType::Contract, EntryPointType::Session),
        Err(ExecError::InvalidContext)
    );
    assert_eq!(validate_entry_point_context(EntryPointType::Session, EntryPointType::Session), Ok(()));
    assert_eq!(validate_entry_point_context(EntryPointType::Session, EntryPointType::Contract), Ok(()));
    assert_eq!(validate_entry_point_context(EntryPointType::Contract, EntryPointType::Contract), Ok(()));
}

#[test]
fn put_key_records_the_name_on_the_base_key() {
    let mut base = GlobalState::new();
    base.write(
        Key::Account([1u8; 32]),
        StoredValue::Account(Account {
            account_hash: [1u8; 32],
            main_purse: URef::new([2u8; 32], READ_ADD_WRITE),
            named_keys: vec![],
            associated_keys: vec![([1u8; 32], 1)],
            deployment_threshold: 1,
            key_management_threshold: 1,
        }),
    );
    let mut ctx = context(vec![], vec![], EntryPointType::Session, 100);
    let mut tc = TrackingCopy::new();
    let name = b"new_key".to_vec();
    assert_eq!(ctx.put_key(&mut tc, &base, name.clone(), Key::Hash([4u8; 32])), Ok(()));
    assert_eq!(ctx.get_key(&name), Some(Key::Hash([4u8; 32])));
    let account = tc.read(&base, &Key::Account([1u8; 32])).unwrap().unwrap();
    assert_eq!(account.as_account().unwrap().named_keys.len(), 1);
    let forged = URef::new([66u8; 32], READ);
    assert_eq!(
        ctx.put_key(&mut tc, &base, b"x".to_vec(), Key::URef(forged)),
        Err(ExecError::ForgedReference(forged))
    );
    assert_eq!(ctx.get_key(&b"x".to_vec()), None);
}
