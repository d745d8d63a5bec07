use execution_engine::executor::{
    charge_on_failure, on_fail_charge_test_helper, CallOutcome, CallRoute, DirectSystemContractCall,
    EngineConfig, ExecutionResult, Executor, Gas,
};
use execution_engine::keys::Key;
use execution_engine::runtime_context::ExecError;
use execution_engine::api_error::ApiError;
use execution_engine::tracking_copy::{ExecutionEffect, Op};
use execution_engine::transform::Transform;

#[test]
fn on_fail_charge_ok_test() {
    let val = Gas::new(123);
    match on_fail_charge_test_helper(|| Ok(()), val, Gas::new(456)) {
        ExecutionResult::Success { cost, .. } => assert_eq!(cost, val),
        ExecutionResult::Failure { .. } => panic!("Should be success"),
    }
}

#[test]
fn on_fail_charge_err_laziness_test() {
    let error_cost = Gas::new(456);
    match on_fail_charge_test_helper(
        || Err(ExecError::GasLimit) as Result<(), _>,
        Gas::new(123),
        error_cost,
    ) {
        ExecutionResult::Success { .. } => panic!("Should fail"),
        ExecutionResult::Failure { cost, .. } => assert_eq!(cost, error_cost),
    }
}

#[test]
fn on_fail_charge_with_action() {
    let f = || {
        let input: Result<(), ExecError> = Err(ExecError::GasLimit);
        let mut effect = ExecutionEffect::default();
        effect.ops.insert(Key::Hash([42u8; 32]), Op::Read);
        effect.transforms.insert(Key::Hash([42u8; 32]), Transform::Identity);
        if let Err(failure) = charge_on_failure(input, Gas::new(456), effect) {
            return failure;
        }
        ExecutionResult::Success {
            effect: Default::default(),
            cost: Gas::default(),
        }
    };
    match f() {
        ExecutionResult::Success { .. } => panic!("Should fail"),
        ExecutionResult::Failure { cost, effect, .. } => {
            assert_eq!(cost, Gas::new(456));
            // Check if the containers are non-empty
            assert_eq!(effect.ops.len(), 1);
            assert_eq!(effect.transforms.len(), 1);
        }
    }
}

#[test]
fn precondition_failure_charges_nothing() {
    match ExecutionResult::precondition_failure(ExecError::InvalidContext) {
        ExecutionResult::Failure { error, effect, cost } => {
            assert_eq!(error, ExecError::InvalidContext);
            assert_eq!(cost, Gas::new(0));
            assert_eq!(effect.ops.len(), 0);
        }
        ExecutionResult::Success { .. } => panic!("should fail"),
    }
}

#[test]
fn routes_system_contracts_host_side_when_disabled() {
    let mint = [1u8; 32];
    let pos = [2u8; 32];
    let host = Executor::new(EngineConfig { use_system_contracts: false });
    assert_eq!(host.route(&Key::Hash(mint), &mint, &pos), CallRoute::HostMint);
    assert_eq!(host.route(&Key::Hash(pos), &mint, &pos), CallRoute::HostProofOfStake);
    assert_eq!(host.route(&Key::Hash([3u8; 32]), &mint, &pos), CallRoute::Wasm);
    let wasm = Executor::new(EngineConfig { use_system_contracts: true });
    assert_eq!(wasm.route(&Key::Hash(mint), &mint, &pos), CallRoute::Wasm);
    assert!(wasm.config().use_system_contracts);
}

#[test]
fn finish_keeps_snapshot_on_revert() {
    let exec = Executor::new(EngineConfig { use_system_contracts: false });
    let mut effect = ExecutionEffect::default();
    effect.ops.insert(Key::Hash([1u8; 32]), Op::Write);
    let snapshot = ExecutionEffect::default();
    match exec.finish(CallOutcome::Reverted(ApiError::User(7)), effect, snapshot, Gas::new(99)) {
        ExecutionResult::Failure { error, effect, cost } => {
            assert_eq!(error, ExecError::Revert(ApiError::User(7)));
            assert_eq!(effect.ops.len(), 0);
            assert_eq!(cost, Gas::new(99));
        }
        ExecutionResult::Success { .. } => panic!("should fail"),
    }
    let mut effect = ExecutionEffect::default();
    effect.ops.insert(Key::Hash([1u8; 32]), Op::Write);
    let done = exec.finish(CallOutcome::Returned, effect, ExecutionEffect::default(), Gas::new(5));
    assert!(done.is_success());
    assert_eq!(done.cost(), Gas::new(5));
    match done {
        ExecutionResult::Success { effect, .. } => assert_eq!(effect.ops.len(), 1),
        ExecutionResult::Failure { .. } => panic!("should succeed"),
    }
    let trapped = exec.finish(
        CallOutcome::Trapped(ExecError::GasLimit),
        ExecutionEffect::default(),
        ExecutionEffect::default(),
        Gas::new(10),
    );
    match trapped {
        ExecutionResult::Failure { error, .. } => assert_eq!(error, ExecError::GasLimit),
        ExecutionResult::Success { .. } => panic!("should fail"),
    }
}

#[test]
fn direct_system_contract_calls_name_their_entry_points() {
    assert_eq!(DirectSystemContractCall::FinalizePayment.entry_point_name(), "finalize_payment");
    assert_eq!(DirectSystemContractCall::Transfer.entry_point_name(), "transfer");
}
