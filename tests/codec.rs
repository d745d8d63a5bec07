use execution_engine::api_error::ApiError;
use execution_engine::bytesrepr::CodecError;
use execution_engine::u512::{u512_from_bytes, write_u512, U512};
use execution_engine::keys::{Key, URef, ADD, READ, READ_ADD_WRITE};
use execution_engine::stored_value::{
    Account, CLType, CLValue, Contract, ContractPackage, EntryPoint, EntryPointAccess,
    EntryPointType, Parameter, ProtocolVersion, StoredValue,
};

#[test]
fn key_encodings_start_with_their_tag() {
    let account = Key::Account([1u8; 32]).to_bytes();
    assert_eq!(account.len(), 33);
    assert_eq!(account[0], 0);
    assert_eq!(Key::Hash([2u8; 32]).to_bytes()[0], 1);
    let uref = Key::URef(URef::new([3u8; 32], READ | ADD)).to_bytes();
    assert_eq!(uref.len(), 34);
    assert_eq!(uref[0], 2);
    assert_eq!(uref[33], 5);
}

#[test]
fn keys_and_urefs_decode_from_their_encodings() {
    for k in [Key::Account([1u8; 32]), Key::Hash([2u8; 32]), Key::URef(URef::new([255u8; 32], READ_ADD_WRITE))] {
        let mut bytes = k.to_bytes();
        let n = bytes.len();
        bytes.extend_from_slice(&[9, 9, 9]);
        let (d, used) = Key::from_bytes(&bytes).expect("should decode");
        assert_eq!(used, n);
        assert_eq!(d.tag(), k.tag());
        assert_eq!(d.addr(), k.addr());
        assert_eq!(d.as_uref().map(|u| u.rights), k.as_uref().map(|u| u.rights));
    }
    let u = URef::new([4u8; 32], READ);
    let bytes = u.to_bytes();
    assert_eq!(bytes.len(), 33);
    assert_eq!(URef::from_bytes(&bytes), Ok((u, 33)));
}

#[test]
fn malformed_keys_are_refused() {
    assert_eq!(Key::from_bytes(&[]).err(), Some(CodecError::EarlyEndOfStream));
    assert_eq!(Key::from_bytes(&[3u8; 40]).err(), Some(CodecError::Formatting));
    assert_eq!(Key::from_bytes(&[0u8; 10]).err(), Some(CodecError::EarlyEndOfStream));
    let mut bad_rights = vec![7u8; 32];
    bad_rights.push(8);
    assert_eq!(URef::from_bytes(&bad_rights).err(), Some(CodecError::Formatting));
}

#[test]
fn key_equality_ignores_access_rights() {
    let a = Key::URef(URef::new([5u8; 32], READ));
    let b = Key::URef(URef::new([5u8; 32], READ_ADD_WRITE));
    assert_eq!(a, b);
    assert_ne!(Key::Account([5u8; 32]), Key::Hash([5u8; 32]));
    assert_ne!(URef::new([5u8; 32], READ), URef::new([5u8; 32], ADD));
}

#[test]
fn wide_integers_encode_without_trailing_zeros() {
    let enc = |x: u128| {
        let mut b = Vec::new();
        write_u512(&mut b, &U512::from_u128(x));
        b
    };
    assert_eq!(enc(0), vec![0]);
    assert_eq!(enc(1), vec![1, 1]);
    assert_eq!(enc(256), vec![2, 0, 1]);
    assert_eq!(enc(250_001_000), vec![4, 0x68, 0xb6, 0xe6, 0x0e]);
    assert_eq!(enc(u128::MAX).len(), 17);
    let bytes = enc(250_001_000);
    assert_eq!(u512_from_bytes(&bytes), Some(U512::from_u128(250_001_000)));
    assert_eq!(u512_from_bytes(&[17u8]), None);
    assert_eq!(u512_from_bytes(&[3u8, 1]), None);
    assert_eq!(u512_from_bytes(&[65u8; 66]), None);
    let max = U512 { bytes: [255u8; 64] };
    let mut b = Vec::new();
    write_u512(&mut b, &max);
    assert_eq!(b.len(), 65);
    assert_eq!(b[0], 64);
    assert_eq!(u512_from_bytes(&b), Some(max));
}

fn sample_values() -> Vec<StoredValue> {
    let purse = URef::new([8u8; 32], READ_ADD_WRITE);
    vec![
        StoredValue::CLValue(CLValue {
            cl_type: CLType::Result { ok: Box::new(CLType::URef), err: Box::new(CLType::U8) },
            bytes: vec![1, 2, 3],
        }),
        StoredValue::CLValue(CLValue { cl_type: CLType::Option(Box::new(CLType::ByteArray(32))), bytes: vec![] }),
        StoredValue::ContractWasm(vec![0, 97, 115, 109, 1, 0, 0, 0]),
        StoredValue::Account(Account {
            account_hash: [1u8; 32],
            main_purse: purse,
            named_keys: vec![(b"counter".to_vec(), Key::URef(purse)), (b"hash".to_vec(), Key::Hash([3u8; 32]))],
            associated_keys: vec![([1u8; 32], 1)],
            deployment_threshold: 1,
            key_management_threshold: 1,
        }),
        StoredValue::Contract(Contract {
            contract_package_hash: [4u8; 32],
            contract_wasm_hash: [5u8; 32],
            named_keys: vec![(b"counter".to_vec(), Key::URef(purse))],
            entry_points: vec![EntryPoint {
                name: b"increment".to_vec(),
                args: vec![Parameter { name: b"amount".to_vec(), cl_type: CLType::U512 }],
                ret: CLType::Unit,
                access: EntryPointAccess::Groups(vec![b"admins".to_vec()]),
                entry_point_type: EntryPointType::Contract,
            }],
            protocol_version: ProtocolVersion { major: 1, minor: 0, patch: 0 },
        }),
        StoredValue::ContractPackage(ContractPackage {
            access_key: purse,
            versions: vec![((1, 1), [6u8; 32]), ((1, 2), [7u8; 32])],
            disabled_versions: vec![(1, 1)],
            groups: vec![(b"admins".to_vec(), vec![purse])],
        }),
    ]
}

#[test]
fn stored_values_decode_from_their_encodings() {
    for v in sample_values() {
        let mut bytes = v.to_bytes();
        assert_eq!(v.serialized_length(), bytes.len());
        let n = bytes.len();
        bytes.push(42);
        let (d, used) = StoredValue::from_bytes(&bytes).expect("should decode");
        assert_eq!(used, n);
        assert_eq!(d, v);
    }
}

#[test]
fn stored_value_tags_follow_the_variant() {
    let tags: Vec<u8> = sample_values().iter().map(|v| v.to_bytes()[0]).collect();
    assert_eq!(tags, vec![0, 0, 2, 1, 3, 4]);
    assert_eq!(StoredValue::from_bytes(&[5u8, 0, 0]).err(), Some(CodecError::Formatting));
    assert_eq!(StoredValue::from_bytes(&[]).err(), Some(CodecError::EarlyEndOfStream));
}

#[test]
fn clvalue_encoding_is_bytes_then_type() {
    let v = CLValue { cl_type: CLType::U64, bytes: 11u64.to_le_bytes().to_vec() };
    let bytes = v.to_bytes();
    assert_eq!(bytes, vec![8, 0, 0, 0, 11, 0, 0, 0, 0, 0, 0, 0, 5]);
    assert_eq!(CLValue::from_bytes(&bytes), Ok((v, 13)));
}

#[test]
fn accessors_and_type_names() {
    let values = sample_values();
    assert!(values[0].as_cl_value().is_some());
    assert!(values[0].as_account().is_none());
    assert!(values[2].as_contract_wasm().is_some());
    assert!(values[3].as_account().is_some());
    assert!(values[4].as_contract().is_some());
    assert!(values[5].as_contract_package().is_some());
    assert_eq!(values[3].value_type_name(), "Account");
    assert_eq!(values[2].value_type_name(), "Contract");
    assert_eq!(values[5].value_type_name(), "ContractPackage");
    let u512 = StoredValue::CLValue(CLValue { cl_type: CLType::U512, bytes: vec![0] });
    assert_eq!(u512.value_type_name(), "U512");
    let err = values[3].clone().into_cl_value().unwrap_err();
    assert_eq!(err.expected, "CLValue");
    assert_eq!(err.found, "Account");
    assert!(values[3].clone().into_account().is_ok());
}

#[test]
fn api_error_codes() {
    assert_eq!(ApiError::NoneValue.to_u32(), 1);
    assert_eq!(ApiError::InvalidPurse.to_u32(), 13);
    assert_eq!(ApiError::Transfer.to_u32(), 15);
    assert_eq!(ApiError::GasLimit.to_u32(), 35);
    assert_eq!(ApiError::User(7).to_u32(), 65543);
    assert_eq!(ApiError::from_u32(13), Some(ApiError::InvalidPurse));
    assert_eq!(ApiError::from_u32(65536 + 65535), Some(ApiError::User(65535)));
    assert_eq!(ApiError::from_u32(0), None);
    assert_eq!(ApiError::from_u32(36), None);
    for code in 1..=35u32 {
        assert_eq!(ApiError::from_u32(code).map(|e| e.to_u32()), Some(code));
    }
}

#[test]
fn wide_integer_arithmetic() {
    let max = U512 { bytes: [255u8; 64] };
    let one = U512::from_u128(1);
    let (sum, wrapped) = max.overflowing_add(&one);
    assert!(wrapped);
    assert_eq!(sum, U512::zero());
    assert_eq!(max.checked_add(&one), None);
    let big = U512::from_u128(u128::MAX);
    let (s2, w2) = big.overflowing_add(&one);
    assert!(!w2);
    let mut expect = [0u8; 64];
    expect[16] = 1;
    assert_eq!(s2, U512 { bytes: expect });
    assert_eq!(s2.sub(&one), big);
    assert!(one.lt(&big));
    assert!(!big.lt(&one));
    assert_eq!(one.overflowing_sub(&big).1, true);
}
