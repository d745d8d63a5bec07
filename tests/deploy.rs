use execution_engine::deploy::{DeployAction, DeployEvent, DeployFailure, DeployProgress, DeployStage};
use execution_engine::deploy_item::{DeployItemBuilder, ExecutableDeployItem};
use execution_engine::engine_state::{DeployEffects, RuntimeArgs};
use execution_engine::mint::get_entry_points;
use execution_engine::u512::U512;

fn u(x: u128) -> U512 {
    U512::from_u128(x)
}
use execution_engine::stored_value::{CLType, CLValue, EntryPointAccess, EntryPointType};

#[test]
fn deploy_runs_payment_session_and_finalize() {
    let p = DeployProgress::new(2, 100);
    let (p, a) = p.next(DeployEvent::PaymentFinished { succeeded: true, cost: 10, purse_balance: u(1000) });
    assert_eq!(a, DeployAction::RunSession { gas_limit: 500 });
    assert_eq!(p.stage, DeployStage::Session);
    let (p, a) = p.next(DeployEvent::SessionFinished { succeeded: false, cost: 30 });
    assert_eq!(a, DeployAction::RunFinalize { amount_spent: u(80), insufficient_payment: false });
    let (p, a) = p.next(DeployEvent::FinalizeFinished { succeeded: true });
    assert_eq!(a, DeployAction::Commit(DeployEffects::PaymentOnly));
    assert_eq!(p.stage, DeployStage::Finished);
}

#[test]
fn successful_session_keeps_its_effects() {
    let p = DeployProgress::new(1, 10);
    let (p, _) = p.next(DeployEvent::PaymentFinished { succeeded: true, cost: 1, purse_balance: u(50) });
    let (p, a) = p.next(DeployEvent::SessionFinished { succeeded: true, cost: 100 });
    assert_eq!(a, DeployAction::RunFinalize { amount_spent: u(50), insufficient_payment: false });
    let (_, a) = p.next(DeployEvent::FinalizeFinished { succeeded: true });
    assert_eq!(a, DeployAction::Commit(DeployEffects::PaymentAndSession));
}

#[test]
fn insufficient_payment_skips_the_session() {
    let p = DeployProgress::new(2, 100);
    let (p, a) = p.next(DeployEvent::PaymentFinished { succeeded: true, cost: 10, purse_balance: u(199) });
    assert_eq!(a, DeployAction::RunFinalize { amount_spent: u(199), insufficient_payment: true });
    assert_eq!(p.stage, DeployStage::Finalize);
    let (_, a) = p.next(DeployEvent::FinalizeFinished { succeeded: true });
    assert_eq!(a, DeployAction::Commit(DeployEffects::PaymentOnly));
}

#[test]
fn failed_payment_or_finalize_aborts() {
    let p = DeployProgress::new(2, 100);
    let (_, a) = p.next(DeployEvent::PaymentFinished { succeeded: false, cost: 10, purse_balance: u(0) });
    assert_eq!(a, DeployAction::Abort(DeployFailure::PaymentFailed));
    let (q, a) = p.next(DeployEvent::SessionFinished { succeeded: true, cost: 1 });
    assert_eq!(a, DeployAction::Abort(DeployFailure::UnexpectedEvent));
    assert_eq!(q, p);
    let (p, _) = p.next(DeployEvent::PaymentFinished { succeeded: true, cost: 0, purse_balance: u(1000) });
    let (p, _) = p.next(DeployEvent::SessionFinished { succeeded: true, cost: 1 });
    let (_, a) = p.next(DeployEvent::FinalizeFinished { succeeded: false });
    assert_eq!(a, DeployAction::Abort(DeployFailure::FinalizeFailed));
}

#[test]
fn builder_sets_codes_and_defaults() {
    let mut args = RuntimeArgs::new();
    args.insert(b"amount".to_vec(), CLValue { cl_type: CLType::U8, bytes: vec![7] });
    let item = DeployItemBuilder::new()
        .with_address([1u8; 32])
        .with_empty_payment_bytes(args)
        .with_transfer_args(RuntimeArgs::new())
        .with_authorization_keys(&[[1u8; 32]])
        .with_deploy_hash([3u8; 32])
        .build();
    assert_eq!(item.address, [1u8; 32]);
    assert_eq!(item.gas_price, 1);
    assert_eq!(item.authorization_keys, vec![[1u8; 32]]);
    assert_eq!(item.deploy_hash, [3u8; 32]);
    assert_eq!(
        item.payment,
        ExecutableDeployItem::ModuleBytes {
            module_bytes: vec![],
            args: vec![1, 0, 0, 0, 6, 0, 0, 0, 97, 109, 111, 117, 110, 116, 1, 0, 0, 0, 7, 3],
        }
    );
    assert_eq!(item.session, ExecutableDeployItem::Transfer { args: vec![0, 0, 0, 0] });
    let item = DeployItemBuilder::new()
        .with_stored_versioned_contract_by_name("package_hash_key", Some((1, 1)), "session_code_test", RuntimeArgs::new())
        .with_stored_payment_hash([9u8; 32], "pay", RuntimeArgs::new())
        .with_gas_price(5)
        .build();
    assert_eq!(item.address, [0u8; 32]);
    assert_eq!(item.gas_price, 5);
    match item.session {
        ExecutableDeployItem::StoredVersionedContractByName { name, version, entry_point, .. } => {
            assert_eq!(name, "package_hash_key");
            assert_eq!(version, Some((1, 1)));
            assert_eq!(entry_point, "session_code_test");
        }
        _ => panic!("should be a versioned contract by name"),
    }
}

#[test]
fn mint_entry_points_are_public_contract_calls() {
    let eps = get_entry_points();
    let names: Vec<Vec<u8>> = eps.iter().map(|e| e.name.clone()).collect();
    assert_eq!(names, vec![b"mint".to_vec(), b"create".to_vec(), b"balance".to_vec(), b"transfer".to_vec()]);
    for e in &eps {
        assert_eq!(e.access, EntryPointAccess::Public);
        assert_eq!(e.entry_point_type, EntryPointType::Contract);
    }
    assert_eq!(eps[3].args.len(), 3);
    assert_eq!(eps[2].ret, CLType::Option(Box::new(CLType::U512)));
}
