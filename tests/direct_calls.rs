use execution_engine::api_error::ApiError;
use execution_engine::executor::{direct_call_result, named_keys_after_call, CallOutcome, DirectSystemContractCall};
use execution_engine::keys::{Key, URef, READ_ADD_WRITE};
use execution_engine::runtime_context::{ExecError, Phase, RuntimeContext};
use execution_engine::stored_value::{cl_type_name, CLType, CLValue, EntryPointType};

#[test]
fn type_names_match_their_debug_text() {
    let types = vec![
        CLType::U512,
        CLType::Bool,
        CLType::Option(Box::new(CLType::U8)),
        CLType::List(Box::new(CLType::Key)),
        CLType::ByteArray(32),
        CLType::ByteArray(0),
        CLType::ByteArray(1234567),
        CLType::Result { ok: Box::new(CLType::U8), err: Box::new(CLType::Option(Box::new(CLType::Unit))) },
        CLType::Any,
    ];
    for t in &types {
        assert_eq!(cl_type_name(t), format!("{:?}", t));
    }
    assert_eq!(cl_type_name(&CLType::ByteArray(32)), "ByteArray(32)");
}

#[test]
fn direct_calls_give_back_the_host_buffer_or_unit() {
    let v = CLValue { cl_type: CLType::U8, bytes: vec![7] };
    let unit = CLValue { cl_type: CLType::Unit, bytes: vec![] };
    assert_eq!(direct_call_result(CallOutcome::Returned, None, &CLType::Unit), Ok(unit));
    assert_eq!(direct_call_result(CallOutcome::Returned, None, &CLType::U8), Err(ExecError::TypeMismatch));
    assert_eq!(direct_call_result(CallOutcome::Returned, Some(v.clone()), &CLType::U8), Ok(v.clone()));
    assert_eq!(direct_call_result(CallOutcome::ReturnedValue, Some(v.clone()), &CLType::U8), Ok(v.clone()));
    assert_eq!(
        direct_call_result(CallOutcome::ReturnedValue, Some(v), &CLType::Option(Box::new(CLType::U8))),
        Err(ExecError::TypeMismatch)
    );
    assert_eq!(direct_call_result(CallOutcome::ReturnedValue, None, &CLType::U8), Err(ExecError::ExpectedReturnValue));
    assert_eq!(
        direct_call_result(CallOutcome::Reverted(ApiError::User(3)), None, &CLType::U8),
        Err(ExecError::Revert(ApiError::User(3)))
    );
    assert_eq!(direct_call_result(CallOutcome::Trapped(ExecError::GasLimit), None, &CLType::U8), Err(ExecError::GasLimit));
}

#[test]
fn named_keys_are_kept_only_on_success() {
    let before = vec![(b"a".to_vec(), Key::Hash([1u8; 32]))];
    let after = vec![(b"a".to_vec(), Key::Hash([1u8; 32])), (b"b".to_vec(), Key::Hash([2u8; 32]))];
    let ok: Result<(), ExecError> = Ok(());
    let failed: Result<(), ExecError> = Err(ExecError::GasLimit);
    assert_eq!(named_keys_after_call(&ok, before.clone(), after.clone()).len(), 2);
    assert_eq!(named_keys_after_call(&failed, before, after).len(), 1);
}

#[test]
fn context_keeps_what_it_was_given() {
    let purse = URef::new([5u8; 32], READ_ADD_WRITE);
    let ctx = RuntimeContext::new(
        vec![(b"purse".to_vec(), Key::URef(purse))],
        &vec![],
        EntryPointType::Session,
        Key::Account([1u8; 32]),
        [3u8; 32],
        Phase::Payment,
        1000,
        77,
    );
    assert_eq!(ctx.blocktime, 77);
    assert_eq!(ctx.deploy_hash, [3u8; 32]);
    assert_eq!(ctx.phase, Phase::Payment);
    assert_eq!(ctx.gas_limit, 1000);
    assert_eq!(ctx.access_rights.grants, vec![([5u8; 32], READ_ADD_WRITE)]);
}

#[test]
fn direct_calls_go_to_their_own_system_contract() {
    let mint = [1u8; 32];
    let pos = [2u8; 32];
    assert!(DirectSystemContractCall::Transfer.targets(&Key::Hash(mint), &mint, &pos));
    assert!(!DirectSystemContractCall::Transfer.targets(&Key::Hash(pos), &mint, &pos));
    assert!(DirectSystemContractCall::FinalizePayment.targets(&Key::Hash(pos), &mint, &pos));
    assert!(!DirectSystemContractCall::FinalizePayment.targets(&Key::Hash(mint), &mint, &pos));
}
