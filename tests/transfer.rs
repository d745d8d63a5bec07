use execution_engine::api_error::ApiError;
use execution_engine::bytesrepr::{write_key, write_uref};
use execution_engine::u512::{write_u512, U512};
use execution_engine::engine_state::{
    check_authorization, effects_kept, finalize_amounts, session_gas_for, gas_from_motes, motes_from_gas,
    parse_transfer_args, payment_sufficient, DeployEffects, EngineState, PreconditionError,
    RuntimeArgs, TransferredTo,
};
use execution_engine::keys::{Addr, Key, URef, READ_ADD_WRITE};
use execution_engine::runtime_context::ExecError;
use execution_engine::stored_value::{Account, CLType, CLValue};

const DEFAULT_ACCOUNT_ADDR: Addr = [6u8; 32];
const ACCOUNT_1_ADDR: Addr = [1u8; 32];
const ACCOUNT_2_ADDR: Addr = [2u8; 32];
const INITIAL_BALANCE: u128 = 100_000_000_000_000_000;
const DEFAULT_PAYMENT: u128 = 100_000_000_000;

fn genesis() -> (EngineState, Account) {
    let mut engine = EngineState::new(&[9u8; 32]);
    engine.create_account(DEFAULT_ACCOUNT_ADDR, U512::from_u128(INITIAL_BALANCE)).expect("should mint");
    let account = engine.get_account(&DEFAULT_ACCOUNT_ADDR).expect("should get account");
    (engine, account)
}

fn balance_of_account(engine: &EngineState, addr: &Addr) -> u128 {
    let account = engine.get_account(addr).expect("should get account");
    low(engine.mint.balance(&account.main_purse).expect("should have purse"))
}

/// The value of a wide integer that fits in 128 bits.
fn low(x: U512) -> u128 {
    assert!(x.bytes[16..].iter().all(|b| *b == 0), "should fit in 128 bits");
    let mut b = [0u8; 16];
    b.copy_from_slice(&x.bytes[..16]);
    u128::from_le_bytes(b)
}

fn u512_value(x: u128) -> CLValue {
    let mut bytes = Vec::new();
    write_u512(&mut bytes, &U512::from_u128(x));
    CLValue { cl_type: CLType::U512, bytes }
}

fn account_hash_value(a: Addr) -> CLValue {
    CLValue { cl_type: CLType::ByteArray(32), bytes: a.to_vec() }
}

fn key_value(k: Key) -> CLValue {
    let mut bytes = Vec::new();
    write_key(&mut bytes, &k);
    CLValue { cl_type: CLType::Key, bytes }
}

fn uref_value(u: URef) -> CLValue {
    let mut bytes = Vec::new();
    write_uref(&mut bytes, &u);
    CLValue { cl_type: CLType::URef, bytes }
}

fn args(entries: Vec<(&str, CLValue)>) -> RuntimeArgs {
    let mut a = RuntimeArgs::new();
    for (name, value) in entries {
        a.insert(name.as_bytes().to_vec(), value);
    }
    a
}

/// Genesis, then two funded accounts.
fn init_wasmless_transform_builder() -> EngineState {
    let (mut engine, genesis_account) = genesis();
    engine.transfer_to_account(&genesis_account, ACCOUNT_1_ADDR, U512::from_u128(DEFAULT_PAYMENT)).expect("should create 1");
    engine.transfer_to_account(&genesis_account, ACCOUNT_2_ADDR, U512::from_u128(DEFAULT_PAYMENT)).expect("should create 2");
    engine
}

#[test]
fn transfer_to_new_then_existing_account() {
    let (mut engine, genesis_account) = genesis();
    let transfer_1_amount: u128 = 250_000_000 + 1000;
    let first = engine.transfer_to_account(&genesis_account, ACCOUNT_1_ADDR, U512::from_u128(transfer_1_amount));
    assert_eq!(first, Ok(TransferredTo::NewAccount));
    assert_eq!(balance_of_account(&engine, &ACCOUNT_1_ADDR), 250_001_000);
    assert_eq!(balance_of_account(&engine, &DEFAULT_ACCOUNT_ADDR), INITIAL_BALANCE - 250_001_000);
    let second = engine.transfer_to_account(&genesis_account, ACCOUNT_1_ADDR, U512::from_u128(750));
    assert_eq!(second, Ok(TransferredTo::ExistingAccount));
    assert_eq!(balance_of_account(&engine, &ACCOUNT_1_ADDR), 250_001_750);
    assert_eq!(balance_of_account(&engine, &DEFAULT_ACCOUNT_ADDR), INITIAL_BALANCE - 250_001_750);
    assert_eq!(engine.mint.supply, U512::from_u128(INITIAL_BALANCE));
}

#[test]
fn transfer_with_insufficient_funds_fails_and_changes_nothing() {
    let mut engine = init_wasmless_transform_builder();
    let account_1 = engine.get_account(&ACCOUNT_1_ADDR).unwrap();
    let before_1 = balance_of_account(&engine, &ACCOUNT_1_ADDR);
    let before_2 = balance_of_account(&engine, &ACCOUNT_2_ADDR);
    let r = engine.transfer_to_account(&account_1, ACCOUNT_2_ADDR, U512::from_u128(u64::MAX as u128));
    assert_eq!(r, Err(ExecError::Revert(ApiError::Transfer)));
    assert_eq!(balance_of_account(&engine, &ACCOUNT_1_ADDR), before_1);
    assert_eq!(balance_of_account(&engine, &ACCOUNT_2_ADDR), before_2);
}

#[test]
fn transfer_to_new_account_with_insufficient_funds_creates_nothing() {
    let mut engine = init_wasmless_transform_builder();
    let account_1 = engine.get_account(&ACCOUNT_1_ADDR).unwrap();
    let r = engine.transfer_to_account(&account_1, [3u8; 32], U512::from_u128(u64::MAX as u128));
    assert_eq!(r, Err(ExecError::Revert(ApiError::Transfer)));
    assert!(engine.get_account(&[3u8; 32]).is_none());
}

fn run_wasmless(engine: &mut EngineState, addr: Addr, a: RuntimeArgs) -> Result<TransferredTo, ExecError> {
    let account = engine.get_account(&addr).expect("should get account");
    engine.wasmless_transfer(&account, &a)
}

#[test]
fn should_transfer_wasmless_account_to_purse() {
    let mut engine = init_wasmless_transform_builder();
    let purse_2 = engine.get_account(&ACCOUNT_2_ADDR).unwrap().main_purse;
    let b1 = balance_of_account(&engine, &ACCOUNT_1_ADDR);
    let b2 = balance_of_account(&engine, &ACCOUNT_2_ADDR);
    let r = run_wasmless(&mut engine, ACCOUNT_1_ADDR, args(vec![("target", uref_value(purse_2)), ("amount", u512_value(1000))]));
    assert_eq!(r, Ok(TransferredTo::ExistingAccount));
    assert_eq!(balance_of_account(&engine, &ACCOUNT_1_ADDR), b1 - 1000);
    assert_eq!(balance_of_account(&engine, &ACCOUNT_2_ADDR), b2 + 1000);
}

#[test]
fn should_transfer_wasmless_account_to_account() {
    let mut engine = init_wasmless_transform_builder();
    let b2 = balance_of_account(&engine, &ACCOUNT_2_ADDR);
    let r = run_wasmless(&mut engine, ACCOUNT_1_ADDR, args(vec![("target", account_hash_value(ACCOUNT_2_ADDR)), ("amount", u512_value(1000))]));
    assert_eq!(r, Ok(TransferredTo::ExistingAccount));
    assert_eq!(balance_of_account(&engine, &ACCOUNT_2_ADDR), b2 + 1000);
}

#[test]
fn should_transfer_wasmless_account_to_account_by_key() {
    let mut engine = init_wasmless_transform_builder();
    let b2 = balance_of_account(&engine, &ACCOUNT_2_ADDR);
    let r = run_wasmless(&mut engine, ACCOUNT_1_ADDR, args(vec![("target", key_value(Key::Account(ACCOUNT_2_ADDR))), ("amount", u512_value(1000))]));
    assert_eq!(r, Ok(TransferredTo::ExistingAccount));
    assert_eq!(balance_of_account(&engine, &ACCOUNT_2_ADDR), b2 + 1000);
}

#[test]
fn should_transfer_wasmless_purse_to_purse() {
    let mut engine = init_wasmless_transform_builder();
    let purse_1 = engine.get_account(&ACCOUNT_1_ADDR).unwrap().main_purse;
    let purse_2 = engine.get_account(&ACCOUNT_2_ADDR).unwrap().main_purse;
    let b1 = balance_of_account(&engine, &ACCOUNT_1_ADDR);
    let r = run_wasmless(&mut engine, ACCOUNT_1_ADDR, args(vec![("source", uref_value(purse_1)), ("target", uref_value(purse_2)), ("amount", u512_value(1000))]));
    assert_eq!(r, Ok(TransferredTo::ExistingAccount));
    assert_eq!(balance_of_account(&engine, &ACCOUNT_1_ADDR), b1 - 1000);
}

#[test]
fn should_transfer_wasmless_amount_as_u64() {
    let mut engine = init_wasmless_transform_builder();
    let purse_1 = engine.get_account(&ACCOUNT_1_ADDR).unwrap().main_purse;
    let purse_2 = engine.get_account(&ACCOUNT_2_ADDR).unwrap().main_purse;
    let b2 = balance_of_account(&engine, &ACCOUNT_2_ADDR);
    let amount = CLValue { cl_type: CLType::U64, bytes: 1000u64.to_le_bytes().to_vec() };
    let r = run_wasmless(&mut engine, ACCOUNT_1_ADDR, args(vec![("source", uref_value(purse_1)), ("target", uref_value(purse_2)), ("amount", amount)]));
    assert_eq!(r, Ok(TransferredTo::ExistingAccount));
    assert_eq!(balance_of_account(&engine, &ACCOUNT_2_ADDR), b2 + 1000);
}

fn expect_failure(addr: Addr, a: RuntimeArgs, engine: &mut EngineState, expected: ExecError) {
    let purse_1 = engine.get_account(&ACCOUNT_1_ADDR).unwrap().main_purse;
    let purse_2 = engine.get_account(&ACCOUNT_2_ADDR).unwrap().main_purse;
    let b1 = engine.mint.balance(&purse_1).unwrap();
    let b2 = engine.mint.balance(&purse_2).unwrap();
    assert_eq!(run_wasmless(engine, addr, a), Err(expected));
    assert_eq!(engine.mint.balance(&purse_1).unwrap(), b1);
    assert_eq!(engine.mint.balance(&purse_2).unwrap(), b2);
}

#[test]
fn should_not_transfer_wasmless_to_self_by_addr() {
    let mut engine = init_wasmless_transform_builder();
    let a = args(vec![("target", account_hash_value(ACCOUNT_1_ADDR)), ("amount", u512_value(1000))]);
    expect_failure(ACCOUNT_1_ADDR, a, &mut engine, ExecError::Revert(ApiError::InvalidPurse));
}

#[test]
fn should_not_transfer_wasmless_to_self_by_key() {
    let mut engine = init_wasmless_transform_builder();
    let a = args(vec![("target", key_value(Key::Account(ACCOUNT_1_ADDR))), ("amount", u512_value(1000))]);
    expect_failure(ACCOUNT_1_ADDR, a, &mut engine, ExecError::Revert(ApiError::InvalidPurse));
}

#[test]
fn should_not_transfer_wasmless_to_self_by_uref() {
    let mut engine = init_wasmless_transform_builder();
    let purse_1 = engine.get_account(&ACCOUNT_1_ADDR).unwrap().main_purse;
    let a = args(vec![("target", uref_value(purse_1)), ("amount", u512_value(1000))]);
    expect_failure(ACCOUNT_1_ADDR, a, &mut engine, ExecError::Revert(ApiError::InvalidPurse));
}

#[test]
fn should_not_transfer_wasmless_other_account_by_addr() {
    let mut engine = init_wasmless_transform_builder();
    let a = args(vec![("source", account_hash_value(ACCOUNT_2_ADDR)), ("target", account_hash_value(ACCOUNT_1_ADDR)), ("amount", u512_value(1000))]);
    expect_failure(ACCOUNT_1_ADDR, a, &mut engine, ExecError::Revert(ApiError::InvalidArgument));
}

#[test]
fn should_not_transfer_wasmless_other_account_by_key() {
    let mut engine = init_wasmless_transform_builder();
    let a = args(vec![("source", key_value(Key::Account(ACCOUNT_2_ADDR))), ("target", account_hash_value(ACCOUNT_1_ADDR)), ("amount", u512_value(1000))]);
    expect_failure(ACCOUNT_1_ADDR, a, &mut engine, ExecError::Revert(ApiError::InvalidArgument));
}

#[test]
fn should_not_transfer_wasmless_other_account_by_uref() {
    let mut engine = init_wasmless_transform_builder();
    let purse_2 = engine.get_account(&ACCOUNT_2_ADDR).unwrap().main_purse;
    let a = args(vec![("source", uref_value(purse_2)), ("target", account_hash_value(ACCOUNT_1_ADDR)), ("amount", u512_value(1000))]);
    expect_failure(ACCOUNT_1_ADDR, a, &mut engine, ExecError::ForgedReference(purse_2));
}

#[test]
fn should_not_transfer_wasmless_missing_target() {
    let mut engine = init_wasmless_transform_builder();
    let a = args(vec![("amount", u512_value(1000))]);
    expect_failure(ACCOUNT_1_ADDR, a, &mut engine, ExecError::Revert(ApiError::MissingArgument));
}

#[test]
fn should_not_transfer_wasmless_missing_amount() {
    let mut engine = init_wasmless_transform_builder();
    let a = args(vec![("target", account_hash_value(ACCOUNT_2_ADDR))]);
    expect_failure(ACCOUNT_1_ADDR, a, &mut engine, ExecError::Revert(ApiError::MissingArgument));
}

#[test]
fn should_not_transfer_wasmless_source_uref_nonexistent() {
    let mut engine = init_wasmless_transform_builder();
    let nonexistent_purse = URef::new([255; 32], READ_ADD_WRITE);
    let a = args(vec![("source", uref_value(nonexistent_purse)), ("target", account_hash_value(ACCOUNT_1_ADDR)), ("amount", u512_value(1000))]);
    expect_failure(ACCOUNT_1_ADDR, a, &mut engine, ExecError::ForgedReference(nonexistent_purse));
}

#[test]
fn should_not_transfer_wasmless_target_uref_nonexistent() {
    let mut engine = init_wasmless_transform_builder();
    let nonexistent_purse = URef::new([255; 32], READ_ADD_WRITE);
    let a = args(vec![("target", uref_value(nonexistent_purse)), ("amount", u512_value(1000))]);
    expect_failure(ACCOUNT_1_ADDR, a, &mut engine, ExecError::Revert(ApiError::InvalidPurse));
}

#[test]
fn should_not_transfer_wasmless_other_purse_to_self_purse() {
    let mut engine = init_wasmless_transform_builder();
    let purse_1 = engine.get_account(&ACCOUNT_1_ADDR).unwrap().main_purse;
    let purse_2 = engine.get_account(&ACCOUNT_2_ADDR).unwrap().main_purse;
    let a = args(vec![("source", uref_value(purse_2)), ("target", uref_value(purse_1)), ("amount", u512_value(1000))]);
    expect_failure(ACCOUNT_1_ADDR, a, &mut engine, ExecError::ForgedReference(purse_2));
}

#[test]
fn source_that_is_not_a_purse_is_an_invalid_purse() {
    let mut engine = init_wasmless_transform_builder();
    let mut account_1 = engine.get_account(&ACCOUNT_1_ADDR).unwrap();
    let not_purse = URef::new([77u8; 32], READ_ADD_WRITE);
    account_1.named_keys.push((b"transfer_result".to_vec(), Key::URef(not_purse)));
    let a = args(vec![("source", uref_value(not_purse)), ("target", account_hash_value(ACCOUNT_2_ADDR)), ("amount", u512_value(1000))]);
    assert_eq!(engine.wasmless_transfer(&account_1, &a), Err(ExecError::Revert(ApiError::InvalidPurse)));
}

#[test]
fn malformed_amount_is_an_invalid_argument() {
    let a = args(vec![("target", account_hash_value(ACCOUNT_2_ADDR)), ("amount", CLValue { cl_type: CLType::String, bytes: vec![] })]);
    assert_eq!(parse_transfer_args(&a).err(), Some(ApiError::InvalidArgument));
    let a = args(vec![("target", account_hash_value(ACCOUNT_2_ADDR)), ("amount", CLValue { cl_type: CLType::U512, bytes: vec![2, 1] })]);
    assert_eq!(parse_transfer_args(&a).err(), Some(ApiError::InvalidArgument));
    let a = args(vec![("target", account_hash_value(ACCOUNT_2_ADDR)), ("amount", u512_value(513))]);
    let parsed = parse_transfer_args(&a).expect("should parse");
    assert_eq!(parsed.amount, U512::from_u128(513));
    assert!(parsed.source.is_none());
}

#[test]
fn gas_and_motes_convert_by_price() {
    assert_eq!(motes_from_gas(7, 3), 21);
    assert_eq!(motes_from_gas(u64::MAX, u64::MAX), (u64::MAX as u128) * (u64::MAX as u128));
    assert_eq!(gas_from_motes(22, 3), Some(7));
    assert_eq!(gas_from_motes(22, 0), None);
    assert_eq!(gas_from_motes(u128::MAX, 1), None);
}

#[test]
fn payment_and_finalize_amounts() {
    let u = U512::from_u128;
    assert!(payment_sufficient(&u(100), 10, 10));
    assert!(!payment_sufficient(&u(99), 10, 10));
    assert_eq!(finalize_amounts(&u(1000), 30, 10), (u(300), u(700)));
    assert_eq!(finalize_amounts(&u(100), 30, 10), (u(100), u(0)));
    assert_eq!(session_gas_for(&u(1000), 3), 333);
    assert_eq!(session_gas_for(&u(1000), 0), u64::MAX);
    assert_eq!(session_gas_for(&U512 { bytes: [255u8; 64] }, u64::MAX), u64::MAX);
    assert_eq!(effects_kept(true), DeployEffects::PaymentAndSession);
    assert_eq!(effects_kept(false), DeployEffects::PaymentOnly);
}

#[test]
fn authorization_needs_associated_keys_of_enough_weight() {
    let (_, mut account) = genesis();
    assert_eq!(check_authorization(&account, &vec![DEFAULT_ACCOUNT_ADDR]), Ok(()));
    assert_eq!(check_authorization(&account, &vec![ACCOUNT_1_ADDR]), Err(PreconditionError::AuthorizationFailure));
    account.deployment_threshold = 3;
    account.associated_keys.push((ACCOUNT_1_ADDR, 1));
    assert_eq!(
        check_authorization(&account, &vec![DEFAULT_ACCOUNT_ADDR, ACCOUNT_1_ADDR]),
        Err(PreconditionError::InsufficientTotalWeight)
    );
    account.associated_keys.push((ACCOUNT_2_ADDR, 1));
    assert_eq!(check_authorization(&account, &vec![DEFAULT_ACCOUNT_ADDR, ACCOUNT_1_ADDR, ACCOUNT_2_ADDR]), Ok(()));
}

#[test]
fn explicit_source_equal_to_target_purse_is_invalid() {
    let mut engine = init_wasmless_transform_builder();
    let purse_1 = engine.get_account(&ACCOUNT_1_ADDR).unwrap().main_purse;
    let supply = engine.mint.supply;
    let a = args(vec![("source", uref_value(purse_1)), ("target", uref_value(purse_1)), ("amount", u512_value(1000))]);
    expect_failure(ACCOUNT_1_ADDR, a, &mut engine, ExecError::Revert(ApiError::InvalidPurse));
    assert_eq!(engine.mint.supply, supply);
}

#[test]
fn transfer_of_the_largest_amount_fails_as_a_transfer() {
    let mut engine = init_wasmless_transform_builder();
    let account_1 = engine.get_account(&ACCOUNT_1_ADDR).unwrap();
    let before = balance_of_account(&engine, &ACCOUNT_1_ADDR);
    let max = U512 { bytes: [255u8; 64] };
    assert_eq!(engine.transfer_to_account(&account_1, [42u8; 32], max), Err(ExecError::Revert(ApiError::Transfer)));
    assert!(engine.get_account(&[42u8; 32]).is_none());
    let mut bytes = Vec::new();
    write_u512(&mut bytes, &max);
    assert_eq!(bytes.len(), 65);
    let a = args(vec![("target", account_hash_value(ACCOUNT_2_ADDR)), ("amount", CLValue { cl_type: CLType::U512, bytes })]);
    assert_eq!(run_wasmless(&mut engine, ACCOUNT_1_ADDR, a), Err(ExecError::Revert(ApiError::Transfer)));
    assert_eq!(balance_of_account(&engine, &ACCOUNT_1_ADDR), before);
}
