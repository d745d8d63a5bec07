use execution_engine::executor::{resolve_contract_version, validate_entry_point_access};
use execution_engine::api_error::ApiError;
use execution_engine::keys::{URef, ADD, READ, READ_ADD_WRITE, WRITE};
use execution_engine::mint::{MintContract, MintError};
use execution_engine::u512::U512;

fn u(x: u128) -> U512 {
    U512::from_u128(x)
}
use execution_engine::runtime_context::{AccessRights, ExecError};
use execution_engine::stored_value::{ContractPackage, EntryPointAccess};

#[test]
fn mint_creates_purses_and_tracks_supply() {
    let mut mint = MintContract::new(&[1u8; 32]);
    let a = mint.mint(u(500)).unwrap();
    let b = mint.create().unwrap();
    assert_ne!(a.addr, b.addr);
    assert_eq!(a.rights, READ_ADD_WRITE);
    assert_eq!(mint.balance(&a), Some(u(500)));
    assert_eq!(mint.balance(&b), Some(u(0)));
    assert_eq!(mint.balance(&URef::new([0u8; 32], READ)), None);
    assert_eq!(mint.supply, u(500));
    assert_eq!(mint.mint(U512 { bytes: [255u8; 64] }), Err(MintError::SupplyOverflow));
    assert_eq!(mint.supply, u(500));
}

#[test]
fn mint_transfer_moves_balance_and_keeps_supply() {
    let mut mint = MintContract::new(&[1u8; 32]);
    let a = mint.mint(u(500)).unwrap();
    let b = mint.mint(u(100)).unwrap();
    assert_eq!(mint.transfer(&a, &b, &u(200)), Ok(()));
    assert_eq!(mint.balance(&a), Some(u(300)));
    assert_eq!(mint.balance(&b), Some(u(300)));
    assert_eq!(mint.supply, u(600));
    assert_eq!(mint.transfer(&a, &b, &u(301)), Err(MintError::InsufficientFunds));
    assert_eq!(mint.transfer(&a.with_access_rights(READ | ADD), &b, &u(1)), Err(MintError::InvalidAccessRights));
    assert_eq!(mint.transfer(&a, &b.with_access_rights(READ), &u(1)), Err(MintError::InvalidAccessRights));
    let missing = URef::new([9u8; 32], READ_ADD_WRITE);
    assert_eq!(mint.transfer(&missing, &b, &u(1)), Err(MintError::SourceNotFound));
    assert_eq!(mint.transfer(&a, &missing.with_access_rights(ADD), &u(1)), Err(MintError::DestNotFound));
    assert_eq!(mint.transfer(&a.with_access_rights(WRITE), &a.with_access_rights(ADD), &u(5)), Ok(()));
    assert_eq!(mint.balance(&a), Some(u(300)));
}

fn package() -> ContractPackage {
    ContractPackage {
        access_key: URef::new([1u8; 32], READ_ADD_WRITE),
        versions: vec![((1, 1), [11u8; 32]), ((1, 2), [12u8; 32]), ((2, 1), [21u8; 32])],
        disabled_versions: vec![(2, 1)],
        groups: vec![(b"admins".to_vec(), vec![URef::new([5u8; 32], READ)])],
    }
}

#[test]
fn latest_enabled_version_runs_when_none_is_asked_for() {
    let p = package();
    assert_eq!(resolve_contract_version(&p, None), Ok([12u8; 32]));
    assert_eq!(resolve_contract_version(&p, Some((1, 1))), Ok([11u8; 32]));
    assert_eq!(
        resolve_contract_version(&p, Some((2, 1))),
        Err(ExecError::Revert(ApiError::InvalidContractVersion))
    );
    assert_eq!(
        resolve_contract_version(&p, Some((3, 1))),
        Err(ExecError::Revert(ApiError::InvalidContractVersion))
    );
    let mut all_disabled = package();
    all_disabled.disabled_versions = vec![(1, 1), (1, 2), (2, 1)];
    assert_eq!(
        resolve_contract_version(&all_disabled, None),
        Err(ExecError::Revert(ApiError::InvalidContractVersion))
    );
}

#[test]
fn group_entry_points_need_a_group_reference() {
    let p = package();
    let mut held = AccessRights::new();
    assert_eq!(validate_entry_point_access(&p, &EntryPointAccess::Public, &held), Ok(()));
    let groups = EntryPointAccess::Groups(vec![b"admins".to_vec()]);
    assert_eq!(validate_entry_point_access(&p, &groups, &held), Err(ExecError::InvalidContext));
    held.grant(URef::new([5u8; 32], READ));
    assert_eq!(validate_entry_point_access(&p, &groups, &held), Ok(()));
    let others = EntryPointAccess::Groups(vec![b"users".to_vec()]);
    assert_eq!(validate_entry_point_access(&p, &others, &held), Err(ExecError::InvalidContext));
}

#[test]
fn access_rights_only_grow() {
    let mut held = AccessRights::new();
    held.grant(URef::new([5u8; 32], READ));
    held.grant(URef::new([5u8; 32], WRITE));
    assert_eq!(held.get(&[5u8; 32]), Some(READ | WRITE));
    held.grant(URef::new([5u8; 32], READ));
    assert_eq!(held.get(&[5u8; 32]), Some(READ | WRITE));
    assert_eq!(held.get(&[6u8; 32]), None);
}
