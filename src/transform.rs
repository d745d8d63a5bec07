//! Transforms: the updates that a tracking copy records for each key, how two
//! of them compose, and when two of them conflict.
use vstd::prelude::*;
use crate::u512::{U512, m512, enc_u512, u512_bytes_valid, u512_of, u512_from_bytes, write_u512};
use crate::bytesrepr::{le_bytes, le_value, pow256, read_le, push_le,
    byte_len, lemma_pow256_values, lemma_le_round_trip, lemma_le_value_bound,
    lemma_le_bytes_of_value, lemma_byte_len};
use crate::keys::{Key, key_identical};
use crate::stored_value::{
    Account, AccountView, CLType, CLValue, CLValueView, Contract, ContractView, NamedKey,
    StoredValue, StoredValueView, named_key_map, copy_named_keys, append_named_keys,
    named_keys_agree,
};

verus! {

/// An update of the value under one key.
#[derive(Debug, PartialEq, Eq)]
pub enum Transform {
    Identity,
    Write(StoredValue),
    AddInt32(i32),
    AddUInt64(u64),
    AddUInt512(U512),
    AddKeys(Vec<NamedKey>),
}

pub enum TransformView {
    Identity,
    Write(StoredValueView),
    AddInt32(i32),
    AddUInt64(u64),
    AddUInt512(nat),
    AddKeys(Map<Seq<u8>, Key>),
}

impl View for Transform {
    type V = TransformView;

    open spec fn view(&self) -> TransformView {
        match self {
            Transform::Identity => TransformView::Identity,
            Transform::Write(v) => TransformView::Write(v@),
            Transform::AddInt32(n) => TransformView::AddInt32(*n),
            Transform::AddUInt64(n) => TransformView::AddUInt64(*n),
            Transform::AddUInt512(n) => TransformView::AddUInt512(n.value()),
            Transform::AddKeys(k) => TransformView::AddKeys(named_key_map(k@)),
        }
    }
}

/// Why a transform could not be applied or composed.
#[derive(Clone, Copy, Debug, PartialEq, Eq, Structural)]
pub enum TransformError {
    /// The value does not have the type that the addition needs.
    TypeMismatch,
    /// The two transforms cannot be combined.
    Conflict,
}

pub open spec fn m32() -> nat {
    0x1_0000_0000
}

pub open spec fn m64() -> nat {
    0x1_0000_0000_0000_0000
}


/// `x` reduced modulo `m`.
pub open spec fn wrap(x: int, m: nat) -> nat {
    (x % (m as int)) as nat
}

/// The sum of two 32-bit signed integers, wrapping around.
pub open spec fn add_i32(a: i32, b: i32) -> i32 {
    let s = a as int + b as int;
    if s > i32::MAX {
        (s - m32()) as i32
    } else if s < i32::MIN {
        (s + m32()) as i32
    } else {
        s as i32
    }
}

/// Two named-key maps agree on every name that both hold.
pub open spec fn keys_agree(a: Map<Seq<u8>, Key>, b: Map<Seq<u8>, Key>) -> bool {
    forall|n: Seq<u8>| a.contains_key(n) && b.contains_key(n) ==> a[n] == b[n]
}

/// The value that results from applying a transform to a value, or `None`
/// where the value does not have the type that the transform needs.
pub open spec fn apply_spec(v: StoredValueView, t: TransformView) -> Option<StoredValueView> {
    match t {
        TransformView::Identity => Some(v),
        TransformView::Write(w) => Some(w),
        TransformView::AddInt32(n) => match v {
            StoredValueView::CLValue(c) => if c.cl_type == CLType::I32 && c.bytes.len() == 4 {
                Some(
                    StoredValueView::CLValue(
                        CLValueView {
                            cl_type: CLType::I32,
                            bytes: le_bytes(wrap(le_value(c.bytes) + n, m32()), 4),
                        },
                    ),
                )
            } else {
                None
            },
            _ => None,
        },
        TransformView::AddUInt64(n) => match v {
            StoredValueView::CLValue(c) => if c.cl_type == CLType::U64 && c.bytes.len() == 8 {
                Some(
                    StoredValueView::CLValue(
                        CLValueView {
                            cl_type: CLType::U64,
                            bytes: le_bytes(wrap(le_value(c.bytes) + n, m64()), 8),
                        },
                    ),
                )
            } else {
                None
            },
            _ => None,
        },
        TransformView::AddUInt512(n) => match v {
            StoredValueView::CLValue(c) => if c.cl_type == CLType::U512 && u512_bytes_valid(
                c.bytes,
            ) {
                Some(
                    StoredValueView::CLValue(
                        CLValueView {
                            cl_type: CLType::U512,
                            bytes: enc_u512(wrap((u512_of(c.bytes) + n) as int, m512())),
                        },
                    ),
                )
            } else {
                None
            },
            _ => None,
        },
        TransformView::AddKeys(m) => match v {
            StoredValueView::Account(a) => Some(
                StoredValueView::Account(
                    AccountView { named_keys: a.named_keys.union_prefer_right(m), ..a },
                ),
            ),
            StoredValueView::Contract(c) => Some(
                StoredValueView::Contract(
                    ContractView { named_keys: c.named_keys.union_prefer_right(m), ..c },
                ),
            ),
            _ => None,
        },
    }
}

/// `a` followed by `b`, as one transform; `None` where the two conflict.
pub open spec fn compose_spec(a: TransformView, b: TransformView) -> Option<TransformView> {
    match (a, b) {
        (TransformView::Identity, _) => Some(b),
        (_, TransformView::Identity) => Some(a),
        (TransformView::Write(v), _) => match apply_spec(v, b) {
            Some(w) => Some(TransformView::Write(w)),
            None => None,
        },
        (TransformView::AddInt32(x), TransformView::AddInt32(y)) => Some(
            TransformView::AddInt32(add_i32(x, y)),
        ),
        (TransformView::AddUInt64(x), TransformView::AddUInt64(y)) => Some(
            TransformView::AddUInt64(wrap(x + y, m64()) as u64),
        ),
        (TransformView::AddUInt512(x), TransformView::AddUInt512(y)) => Some(
            TransformView::AddUInt512(wrap((x + y) as int, m512())),
        ),
        (TransformView::AddKeys(x), TransformView::AddKeys(y)) => if keys_agree(x, y) {
            Some(TransformView::AddKeys(x.union_prefer_right(y)))
        } else {
            None
        },
        _ => None,
    }
}

/// Whether transforms recorded by two sibling copies on the same key cannot
/// be merged: writes do not commute with anything but the identity, additions
/// commute only with additions of their own kind, and added named keys
/// conflict where one name is given two keys.
pub open spec fn conflicts(a: TransformView, b: TransformView) -> bool {
    match (a, b) {
        (TransformView::Identity, _) => false,
        (_, TransformView::Identity) => false,
        (TransformView::AddInt32(_), TransformView::AddInt32(_)) => false,
        (TransformView::AddUInt64(_), TransformView::AddUInt64(_)) => false,
        (TransformView::AddUInt512(_), TransformView::AddUInt512(_)) => false,
        (TransformView::AddKeys(x), TransformView::AddKeys(y)) => !keys_agree(x, y),
        _ => true,
    }
}


// ------------------------------------------------------------------ laws

proof fn lemma_wrap_bound(x: int, m: nat)
    requires
        m > 0,
    ensures
        wrap(x, m) < m,
        wrap(x, m) as int == x % (m as int),
{
    vstd::arithmetic::div_mod::lemma_mod_bound(x, m as int);
}

/// Adding `a` then `b`, wrapping, adds `a + b`.
proof fn lemma_wrap_add(x: int, a: int, b: int, m: nat)
    requires
        m > 0,
    ensures
        wrap(wrap(x + a, m) + b, m) == wrap(x + a + b, m),
        wrap(x + wrap(a + b, m), m) == wrap(x + a + b, m),
{
    lemma_wrap_bound(x + a, m);
    lemma_wrap_bound(a + b, m);
    vstd::arithmetic::div_mod::lemma_add_mod_noop_right(b, x + a, m as int);
    vstd::arithmetic::div_mod::lemma_add_mod_noop_right(x, a + b, m as int);
    assert(b + (x + a) == x + a + b);
    assert(x + (a + b) == x + a + b);
}

proof fn lemma_add_i32(x: int, a: i32, b: i32)
    ensures
        wrap(x + add_i32(a, b), m32()) == wrap(x + a + b, m32()),
{
    let s = a as int + b as int;
    let m = m32() as int;
    if s > i32::MAX {
        assert(add_i32(a, b) as int == s - m);
        vstd::arithmetic::div_mod::lemma_mod_sub_multiples_vanish(x + s, m);
        assert(-m + (x + s) == x + add_i32(a, b));
    } else if s < i32::MIN {
        assert(add_i32(a, b) as int == s + m);
        vstd::arithmetic::div_mod::lemma_mod_add_multiples_vanish(x + s, m);
        assert(m + (x + s) == x + add_i32(a, b));
    } else {
        assert(add_i32(a, b) as int == s);
    }
}

/// Applying two transforms in turn is applying their composition.
/// Adding `x` to a wide integer's bytes, then `y`, adds `x + y`, wrapping.
proof fn lemma_u512_add_twice(b: Seq<u8>, x: nat, y: nat)
    requires
        u512_bytes_valid(b),
    ensures
        u512_bytes_valid(enc_u512(wrap((u512_of(b) + x) as int, m512()))),
        wrap((u512_of(enc_u512(wrap((u512_of(b) + x) as int, m512()))) + y) as int, m512())
            == wrap((u512_of(b) + wrap((x + y) as int, m512())) as int, m512()),
{
    crate::u512::lemma_m512_pos();
    let n = u512_of(b);
    let w = wrap((n + x) as int, m512());
    lemma_wrap_bound((n + x) as int, m512());
    lemma_wrap_bound((x + y) as int, m512());
    crate::u512::lemma_u512_round_trip(w);
    lemma_wrap_add(n as int, x as int, y as int, m512());
}

pub proof fn lemma_apply_compose(v: StoredValueView, b: TransformView, c: TransformView)
    requires
        compose_spec(b, c) is Some,
        apply_spec(v, b) is Some,
    ensures
        apply_spec(apply_spec(v, b)->0, c) == apply_spec(v, compose_spec(b, c)->0),
{
    lemma_pow256_values();
    match (b, c) {
        (TransformView::AddInt32(x), TransformView::AddInt32(y)) => {
            if let StoredValueView::CLValue(cv) = v {
                let n = le_value(cv.bytes);
                lemma_le_value_bound(cv.bytes);
                let w = wrap(n + x, m32());
                lemma_wrap_bound(n + x, m32());
                lemma_le_round_trip(w, 4);
                lemma_wrap_add(n as int, x as int, y as int, m32());
                lemma_add_i32(n as int, x, y);
            }
        },
        (TransformView::AddUInt64(x), TransformView::AddUInt64(y)) => {
            if let StoredValueView::CLValue(cv) = v {
                let n = le_value(cv.bytes);
                lemma_le_value_bound(cv.bytes);
                let w = wrap(n + x, m64());
                lemma_wrap_bound(n + x, m64());
                lemma_wrap_bound(x + y, m64());
                lemma_le_round_trip(w, 8);
                lemma_wrap_add(n as int, x as int, y as int, m64());
            }
        },
        (TransformView::AddUInt512(x), TransformView::AddUInt512(y)) => {
            if let StoredValueView::CLValue(cv) = v {
                lemma_u512_add_twice(cv.bytes, x, y);
            }
        },
        (TransformView::AddKeys(x), TransformView::AddKeys(y)) => {
            match v {
                StoredValueView::Account(a) => {
                    assert(a.named_keys.union_prefer_right(x).union_prefer_right(y)
                        =~= a.named_keys.union_prefer_right(x.union_prefer_right(y)));
                },
                StoredValueView::Contract(k) => {
                    assert(k.named_keys.union_prefer_right(x).union_prefer_right(y)
                        =~= k.named_keys.union_prefer_right(x.union_prefer_right(y)));
                },
                _ => {},
            }
        },
        _ => {},
    }
}

/// Composition of transforms is associative wherever both inner compositions
/// are defined.
pub proof fn lemma_compose_associative(a: TransformView, b: TransformView, c: TransformView)
    requires
        compose_spec(a, b) is Some,
        compose_spec(b, c) is Some,
    ensures
        compose_spec(compose_spec(a, b)->0, c) == compose_spec(a, compose_spec(b, c)->0),
{
    match a {
        TransformView::Write(v) => {
            if !(b is Identity) {
                lemma_apply_compose(v, b, c);
            }
        },
        TransformView::AddKeys(x) => {
            if let TransformView::AddKeys(y) = b {
                if let TransformView::AddKeys(z) = c {
                    assert(x.union_prefer_right(y).union_prefer_right(z) =~= x.union_prefer_right(
                        y.union_prefer_right(z),
                    ));
                    assert(keys_agree(x.union_prefer_right(y), z) == keys_agree(
                        x,
                        y.union_prefer_right(z),
                    ));
                }
            }
        },
        TransformView::AddInt32(x) => {
            if let TransformView::AddInt32(y) = b {
                if let TransformView::AddInt32(z) = c {
                    assert(add_i32(add_i32(x, y), z) == add_i32(x, add_i32(y, z)));
                }
            }
        },
        TransformView::AddUInt64(x) => {
            if let TransformView::AddUInt64(y) = b {
                if let TransformView::AddUInt64(z) = c {
                    lemma_wrap_bound(x + y, m64());
                    lemma_wrap_bound(y + z, m64());
                    lemma_wrap_add(x as int, y as int, z as int, m64());
                    lemma_wrap_add(z as int, x as int, y as int, m64());
                    assert(wrap(x + y, m64()) + z == z + wrap(x + y, m64()));
                }
            }
        },
        TransformView::AddUInt512(x) => {
            if let TransformView::AddUInt512(y) = b {
                if let TransformView::AddUInt512(z) = c {
                    crate::u512::lemma_m512_pos();
                    lemma_wrap_bound((x + y) as int, m512());
                    lemma_wrap_bound((y + z) as int, m512());
                    lemma_wrap_add(x as int, y as int, z as int, m512());
                    lemma_wrap_add(z as int, x as int, y as int, m512());
                    assert(wrap((x + y) as int, m512()) + z == z + wrap((x + y) as int, m512()));
                }
            }
        },
        TransformView::Identity => {},
    }
}

/// Whether two transforms conflict does not depend on their order.
pub proof fn lemma_conflicts_symmetric(a: TransformView, b: TransformView)
    ensures
        conflicts(a, b) == conflicts(b, a),
{
}

/// Transforms that do not conflict compose, and compose to the same transform
/// in either order.
pub proof fn lemma_no_conflict_commutes(a: TransformView, b: TransformView)
    requires
        !conflicts(a, b),
    ensures
        compose_spec(a, b) is Some,
        compose_spec(a, b) == compose_spec(b, a),
{
    match (a, b) {
        (TransformView::AddKeys(x), TransformView::AddKeys(y)) => {
            assert(x.union_prefer_right(y) =~= y.union_prefer_right(x));
        },
        (TransformView::AddUInt64(x), TransformView::AddUInt64(y)) => {
            assert(x + y == y + x);
        },
        (TransformView::AddUInt512(x), TransformView::AddUInt512(y)) => {
            assert(x + y == y + x);
        },
        _ => {},
    }
}


// ------------------------------------------------------------ execution

fn wrapping_add_i32(x: i32, y: i32) -> (r: i32)
    ensures
        r == add_i32(x, y),
{
    let s: i64 = x as i64 + y as i64;
    if s > i32::MAX as i64 {
        (s - 4294967296) as i32
    } else if s < i32::MIN as i64 {
        (s + 4294967296) as i32
    } else {
        s as i32
    }
}

/// The value under a key after a transform, or `TypeMismatch` where an
/// addition meets a value of another type.
pub fn apply_transform(v: StoredValue, t: &Transform) -> (r: Result<StoredValue, TransformError>)
    ensures
        match r {
            Ok(w) => apply_spec(v@, t@) == Some(w@),
            Err(e) => apply_spec(v@, t@) is None && e == TransformError::TypeMismatch,
        },
{
    proof {
        lemma_pow256_values();
    }
    match t {
        Transform::Identity => Ok(v),
        Transform::Write(w) => Ok(w.clone()),
        Transform::AddInt32(n) => {
            if let StoredValue::CLValue(c) = &v {
                if let CLType::I32 = c.cl_type {
                    if c.bytes.len() == 4 {
                        let x = read_le(c.bytes.as_slice(), 0, 4);
                        assert(c.bytes@.subrange(0, 4) =~= c.bytes@);
                        proof {
                            lemma_le_value_bound(c.bytes@);
                        }
                        let nb: u128 = if *n < 0 {
                            (*n as i64 + 4294967296) as u128
                        } else {
                            *n as u128
                        };
                        let y = (x + nb) % 4294967296;
                        proof {
                            let m = m32() as int;
                            if *n < 0 {
                                vstd::arithmetic::div_mod::lemma_mod_add_multiples_vanish(x + *n, m);
                                assert(m + (x + *n) == x + nb);
                            }
                        }
                        let mut bytes: Vec<u8> = Vec::new();
                        push_le(&mut bytes, y, 4);
                        assert(bytes@ =~= Seq::<u8>::empty() + bytes@);
                        return Ok(StoredValue::CLValue(CLValue { cl_type: CLType::I32, bytes }));
                    }
                }
            }
            Err(TransformError::TypeMismatch)
        },
        Transform::AddUInt64(n) => {
            if let StoredValue::CLValue(c) = &v {
                if let CLType::U64 = c.cl_type {
                    if c.bytes.len() == 8 {
                        let x = read_le(c.bytes.as_slice(), 0, 8);
                        assert(c.bytes@.subrange(0, 8) =~= c.bytes@);
                        proof {
                            lemma_le_value_bound(c.bytes@);
                        }
                        let y = (x + *n as u128) % 0x1_0000_0000_0000_0000;
                        let mut bytes: Vec<u8> = Vec::new();
                        push_le(&mut bytes, y, 8);
                        assert(bytes@ =~= Seq::<u8>::empty() + bytes@);
                        return Ok(StoredValue::CLValue(CLValue { cl_type: CLType::U64, bytes }));
                    }
                }
            }
            Err(TransformError::TypeMismatch)
        },
        Transform::AddUInt512(n) => {
            if let StoredValue::CLValue(c) = &v {
                if let CLType::U512 = c.cl_type {
                    if let Some(x) = u512_from_bytes(c.bytes.as_slice()) {
                        let (y, _) = x.overflowing_add(n);
                        let mut bytes: Vec<u8> = Vec::new();
                        write_u512(&mut bytes, &y);
                        assert(bytes@ =~= enc_u512(y.value()));
                        return Ok(StoredValue::CLValue(CLValue { cl_type: CLType::U512, bytes }));
                    }
                }
            }
            Err(TransformError::TypeMismatch)
        },
        Transform::AddKeys(ks) => match v {
            StoredValue::Account(a) => {
                let mut a = a;
                append_named_keys(&mut a.named_keys, ks);
                let r = StoredValue::Account(a);
                assert(r@ == apply_spec(v@, t@)->0);
                Ok(r)
            },
            StoredValue::Contract(c) => {
                let mut c = c;
                append_named_keys(&mut c.named_keys, ks);
                let r = StoredValue::Contract(c);
                assert(r@ == apply_spec(v@, t@)->0);
                Ok(r)
            },
            _ => Err(TransformError::TypeMismatch),
        },
    }
}

impl Transform {
    /// This transform followed by `next`, as one transform; `Conflict` where
    /// they do not compose.
    pub fn compose(self, next: Transform) -> (r: Result<Transform, TransformError>)
        ensures
            match r {
                Ok(t) => compose_spec(self@, next@) == Some(t@),
                Err(e) => compose_spec(self@, next@) is None && e == TransformError::Conflict,
            },
    {
        match (self, next) {
            (Transform::Identity, b) => Ok(b),
            (a, Transform::Identity) => Ok(a),
            (Transform::Write(v), b) => match apply_transform(v, &b) {
                Ok(w) => Ok(Transform::Write(w)),
                Err(_) => Err(TransformError::Conflict),
            },
            (Transform::AddInt32(x), Transform::AddInt32(y)) => Ok(
                Transform::AddInt32(wrapping_add_i32(x, y)),
            ),
            (Transform::AddUInt64(x), Transform::AddUInt64(y)) => {
                let s = (x as u128 + y as u128) % 0x1_0000_0000_0000_0000;
                Ok(Transform::AddUInt64(s as u64))
            },
            (Transform::AddUInt512(x), Transform::AddUInt512(y)) => Ok(
                Transform::AddUInt512(x.overflowing_add(&y).0),
            ),
            (Transform::AddKeys(x), Transform::AddKeys(y)) => {
                if named_keys_agree(&x, &y) {
                    let mut x = x;
                    append_named_keys(&mut x, &y);
                    Ok(Transform::AddKeys(x))
                } else {
                    Err(TransformError::Conflict)
                }
            },
            _ => Err(TransformError::Conflict),
        }
    }

    /// Whether this transform and one that a sibling copy recorded on the
    /// same key cannot be merged.
    pub fn conflicts_with(&self, other: &Transform) -> (r: bool)
        ensures
            r == conflicts(self@, other@),
    {
        match (self, other) {
            (Transform::Identity, _) => false,
            (_, Transform::Identity) => false,
            (Transform::AddInt32(_), Transform::AddInt32(_)) => false,
            (Transform::AddUInt64(_), Transform::AddUInt64(_)) => false,
            (Transform::AddUInt512(_), Transform::AddUInt512(_)) => false,
            (Transform::AddKeys(x), Transform::AddKeys(y)) => !named_keys_agree(x, y),
            _ => true,
        }
    }
}

} // verus!
