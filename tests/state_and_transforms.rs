use execution_engine::u512::{write_u512, U512};
use execution_engine::keys::{Key, URef, READ_ADD_WRITE};
use execution_engine::stored_value::{Account, CLType, CLValue, StoredValue};
use execution_engine::tracking_copy::{
    commit, merge_transforms, GlobalState, Op, TrackingCopy, TrackingCopyError,
};
use execution_engine::key_map::KeyMap;
use execution_engine::transform::{apply_transform, Transform, TransformError};

fn u64_value(x: u64) -> StoredValue {
    StoredValue::CLValue(CLValue { cl_type: CLType::U64, bytes: x.to_le_bytes().to_vec() })
}

fn i32_value(x: i32) -> StoredValue {
    StoredValue::CLValue(CLValue { cl_type: CLType::I32, bytes: x.to_le_bytes().to_vec() })
}

fn u512_value(x: u128) -> StoredValue {
    let mut bytes = Vec::new();
    write_u512(&mut bytes, &U512::from_u128(x));
    StoredValue::CLValue(CLValue { cl_type: CLType::U512, bytes })
}

fn account(named: Vec<(&str, Key)>) -> StoredValue {
    StoredValue::Account(Account {
        account_hash: [1u8; 32],
        main_purse: URef::new([2u8; 32], READ_ADD_WRITE),
        named_keys: named.into_iter().map(|(n, k)| (n.as_bytes().to_vec(), k)).collect(),
        associated_keys: vec![],
        deployment_threshold: 1,
        key_management_threshold: 1,
    })
}

#[test]
fn read_after_write_sees_the_write_and_nothing_else() {
    let mut state = GlobalState::new();
    let k1 = Key::Hash([1u8; 32]);
    let k2 = Key::Hash([2u8; 32]);
    state.write(k1, u64_value(1));
    state.write(k2, u64_value(2));
    state.write(k1, u64_value(3));
    assert_eq!(state.read(&k1), Some(u64_value(3)));
    assert_eq!(state.read(&k2), Some(u64_value(2)));
    assert_eq!(state.read(&Key::Hash([3u8; 32])), None);
}

#[test]
fn writes_to_distinct_keys_commute() {
    let k1 = Key::Account([1u8; 32]);
    let k2 = Key::Hash([1u8; 32]);
    let mut a = GlobalState::new();
    a.write(k1, u64_value(10));
    a.write(k2, u64_value(20));
    let mut b = GlobalState::new();
    b.write(k2, u64_value(20));
    b.write(k1, u64_value(10));
    assert_eq!(a.read(&k1), b.read(&k1));
    assert_eq!(a.read(&k2), b.read(&k2));
    assert_eq!(a.values.len(), b.values.len());
}

#[test]
fn transforms_compose_as_the_algebra_says() {
    let w = Transform::Write(u64_value(5)).compose(Transform::Write(u64_value(6)));
    assert_eq!(w, Ok(Transform::Write(u64_value(6))));
    let w = Transform::Write(u64_value(5)).compose(Transform::AddUInt64(3));
    assert_eq!(w, Ok(Transform::Write(u64_value(8))));
    assert_eq!(Transform::AddUInt64(u64::MAX).compose(Transform::AddUInt64(2)), Ok(Transform::AddUInt64(1)));
    assert_eq!(Transform::AddInt32(i32::MAX).compose(Transform::AddInt32(1)), Ok(Transform::AddInt32(i32::MIN)));
    let mut two_to_128 = [0u8; 64];
    two_to_128[16] = 1;
    assert_eq!(
        Transform::AddUInt512(U512::from_u128(u128::MAX)).compose(Transform::AddUInt512(U512::from_u128(1))),
        Ok(Transform::AddUInt512(U512 { bytes: two_to_128 }))
    );
    assert_eq!(
        Transform::AddUInt512(U512 { bytes: [255u8; 64] }).compose(Transform::AddUInt512(U512::from_u128(1))),
        Ok(Transform::AddUInt512(U512::zero()))
    );
    assert_eq!(Transform::AddUInt64(1).compose(Transform::Write(u64_value(1))), Err(TransformError::Conflict));
    assert_eq!(Transform::AddUInt64(1).compose(Transform::AddInt32(1)), Err(TransformError::Conflict));
    assert_eq!(Transform::Identity.compose(Transform::AddInt32(4)), Ok(Transform::AddInt32(4)));
    assert_eq!(Transform::Write(u64_value(1)).compose(Transform::AddInt32(1)), Err(TransformError::Conflict));
}

#[test]
fn composition_is_associative_on_examples() {
    let a = || Transform::Write(i32_value(-5));
    let b = || Transform::AddInt32(7);
    let c = || Transform::AddInt32(-1);
    let left = a().compose(b()).unwrap().compose(c()).unwrap();
    let right = a().compose(b().compose(c()).unwrap()).unwrap();
    assert_eq!(left, right);
    assert_eq!(left, Transform::Write(i32_value(1)));
}

#[test]
fn conflicts_are_symmetric() {
    let ts = vec![
        Transform::Identity,
        Transform::Write(u64_value(1)),
        Transform::AddInt32(1),
        Transform::AddUInt64(1),
        Transform::AddUInt512(U512::from_u128(1)),
        Transform::AddKeys(vec![(b"a".to_vec(), Key::Hash([1u8; 32]))]),
        Transform::AddKeys(vec![(b"a".to_vec(), Key::Hash([2u8; 32]))]),
    ];
    for x in &ts {
        for y in &ts {
            assert_eq!(x.conflicts_with(y), y.conflicts_with(x));
        }
    }
    assert!(ts[5].conflicts_with(&ts[6]));
    assert!(!ts[5].conflicts_with(&ts[5]));
    assert!(ts[1].conflicts_with(&ts[3]));
    assert!(!ts[0].conflicts_with(&ts[1]));
}

#[test]
fn additions_apply_to_values_of_their_type() {
    assert_eq!(apply_transform(u512_value(255), &Transform::AddUInt512(U512::from_u128(1))), Ok(u512_value(256)));
    assert_eq!(apply_transform(i32_value(-3), &Transform::AddInt32(-4)), Ok(i32_value(-7)));
    assert_eq!(apply_transform(u64_value(1), &Transform::AddUInt512(U512::from_u128(1))), Err(TransformError::TypeMismatch));
    let added = apply_transform(
        account(vec![("a", Key::Hash([1u8; 32]))]),
        &Transform::AddKeys(vec![(b"b".to_vec(), Key::Hash([2u8; 32]))]),
    )
    .unwrap();
    let acc = added.as_account().unwrap();
    assert_eq!(acc.named_keys.len(), 2);
}

#[test]
fn tracking_copy_reads_through_its_transforms() {
    let mut base = GlobalState::new();
    let counter = Key::URef(URef::new([10u8; 32], READ_ADD_WRITE));
    base.write(counter, u64_value(10));
    let mut tc = TrackingCopy::new();
    assert_eq!(tc.add(&base, counter, Transform::AddUInt64(1)), Ok(()));
    assert_eq!(tc.read(&base, &counter), Ok(Some(u64_value(11))));
    assert_eq!(tc.add(&base, counter, Transform::AddUInt64(1)), Ok(()));
    assert_eq!(tc.read(&base, &counter), Ok(Some(u64_value(12))));
    assert_eq!(base.read(&counter), Some(u64_value(10)));
    assert_eq!(tc.ops.get(&counter), Some(&Op::Write));
    assert_eq!(tc.add(&base, counter, Transform::AddInt32(1)), Err(TrackingCopyError::TypeMismatch));
    assert_eq!(tc.add(&base, Key::Hash([0u8; 32]), Transform::AddUInt64(1)), Err(TrackingCopyError::KeyNotFound));
    let effect = tc.effect();
    assert_eq!(commit(&mut base, &effect.transforms), Ok(()));
    assert_eq!(base.read(&counter), Some(u64_value(12)));
}

#[test]
fn tracking_copy_write_then_read() {
    let base = GlobalState::new();
    let k = Key::Hash([4u8; 32]);
    let mut tc = TrackingCopy::new();
    assert_eq!(tc.read(&base, &k), Ok(None));
    tc.write(k, u64_value(4));
    assert_eq!(tc.read(&base, &k), Ok(Some(u64_value(4))));
    assert_eq!(tc.ops.get(&k), Some(&Op::Write));
    assert_eq!(tc.transforms.len(), 1);
}

#[test]
fn commit_refuses_additions_that_do_not_apply() {
    let mut base = GlobalState::new();
    let k = Key::Hash([5u8; 32]);
    base.write(k, u64_value(1));
    let mut transforms = KeyMap::new();
    transforms.insert(Key::Hash([6u8; 32]), Transform::Write(u64_value(9)));
    transforms.insert(k, Transform::AddInt32(1));
    assert_eq!(commit(&mut base, &transforms), Err(TrackingCopyError::TypeMismatch));
    assert_eq!(base.read(&Key::Hash([6u8; 32])), None);
}

#[test]
fn sibling_copies_merge_in_either_order() {
    let k = Key::Hash([1u8; 32]);
    let other = Key::Hash([2u8; 32]);
    let mut a = KeyMap::new();
    a.insert(k, Transform::AddUInt64(2));
    let mut b = KeyMap::new();
    b.insert(k, Transform::AddUInt64(3));
    b.insert(other, Transform::Write(u64_value(1)));
    let ab = merge_transforms(&a, &b).unwrap();
    let ba = merge_transforms(&b, &a).unwrap();
    assert_eq!(ab.get(&k), Some(&Transform::AddUInt64(5)));
    assert_eq!(ba.get(&k), Some(&Transform::AddUInt64(5)));
    assert_eq!(ab.get(&other), ba.get(&other));
    let mut c = KeyMap::new();
    c.insert(k, Transform::Write(u64_value(0)));
    assert_eq!(merge_transforms(&a, &c).err(), Some(TransformError::Conflict));
    assert_eq!(merge_transforms(&c, &a).err(), Some(TransformError::Conflict));
}
