//! The binary encoding of typed values, accounts, contracts, packages and
//! stored values.
use vstd::prelude::*;
use crate::bytesrepr::{
    CodecError, dec_key, dec_uref, read_key, read_uref, read_addr, key_valid, uref_valid, enc_u32, enc_u8, enc_uref, enc_key, is_prefix, write_u32, write_addr, write_uref,
    write_key, lemma_pow256_values, lemma_le_round_trip, lemma_le_injective, le_value, le_bytes,
    read_u32, read_u8,
};
use crate::keys::{Addr, Key, URef};
use crate::stored_value::{
    Account, CLType, CLValue, CLValueView, Contract, ContractPackage, ContractVersionKey, EntryPoint,
    EntryPointAccess, EntryPointType, Name, NamedKey, Parameter, StoredValue,
};

verus! {

broadcast use vstd::array::group_array_axioms;

/// The encodings of the items of a list, one after another.
pub open spec fn enc_items<T>(s: Seq<T>, f: spec_fn(T) -> Seq<u8>) -> Seq<u8>
    decreases s.len(),
{
    if s.len() == 0 {
        Seq::empty()
    } else {
        enc_items(s.drop_last(), f) + f(s.last())
    }
}

/// A list: its length as a `u32`, then its items.
pub open spec fn enc_list<T>(s: Seq<T>, f: spec_fn(T) -> Seq<u8>) -> Seq<u8> {
    enc_u32(s.len() as u32) + enc_items(s, f)
}

pub proof fn lemma_enc_items_step<T>(s: Seq<T>, i: int, f: spec_fn(T) -> Seq<u8>)
    requires
        0 <= i < s.len(),
    ensures
        enc_items(s.subrange(0, i + 1), f) == enc_items(s.subrange(0, i), f) + f(s[i]),
{
    assert(s.subrange(0, i + 1).drop_last() =~= s.subrange(0, i));
}

/// A byte string: its length as a `u32`, then its bytes.
pub open spec fn enc_bytes(b: Seq<u8>) -> Seq<u8> {
    enc_u32(b.len() as u32) + b
}

pub open spec fn enc_cltype(t: CLType) -> Seq<u8>
    decreases t,
{
    match t {
        CLType::Bool => seq![0u8],
        CLType::I32 => seq![1u8],
        CLType::I64 => seq![2u8],
        CLType::U8 => seq![3u8],
        CLType::U32 => seq![4u8],
        CLType::U64 => seq![5u8],
        CLType::U128 => seq![6u8],
        CLType::U256 => seq![7u8],
        CLType::U512 => seq![8u8],
        CLType::Unit => seq![9u8],
        CLType::String => seq![10u8],
        CLType::Key => seq![11u8],
        CLType::URef => seq![12u8],
        CLType::Option(inner) => seq![13u8] + enc_cltype(*inner),
        CLType::List(inner) => seq![14u8] + enc_cltype(*inner),
        CLType::ByteArray(n) => seq![15u8] + enc_u32(n),
        CLType::Result { ok, err } => seq![16u8] + enc_cltype(*ok) + enc_cltype(*err),
        CLType::Any => seq![21u8],
    }
}

/// A typed value: its bytes as a byte string, then its type.
pub open spec fn enc_clvalue(v: CLValueView) -> Seq<u8> {
    enc_bytes(v.bytes) + enc_cltype(v.cl_type)
}

pub open spec fn enc_named_key(e: NamedKey) -> Seq<u8> {
    enc_bytes(e.0@) + enc_key(e.1)
}

pub open spec fn enc_weight(e: (Addr, u8)) -> Seq<u8> {
    e.0@ + seq![e.1]
}

pub open spec fn enc_account(a: Account) -> Seq<u8> {
    a.account_hash@ + enc_list(a.named_keys@, |e: NamedKey| enc_named_key(e)) + enc_uref(a.main_purse)
        + enc_list(a.associated_keys@, |e: (Addr, u8)| enc_weight(e)) + seq![
        a.deployment_threshold,
        a.key_management_threshold,
    ]
}

pub open spec fn enc_parameter(p: Parameter) -> Seq<u8> {
    enc_bytes(p.name@) + enc_cltype(p.cl_type)
}

pub open spec fn enc_name(n: Name) -> Seq<u8> {
    enc_bytes(n@)
}

pub open spec fn enc_access(a: EntryPointAccess) -> Seq<u8> {
    match a {
        EntryPointAccess::Public => seq![0u8],
        EntryPointAccess::Groups(g) => seq![1u8] + enc_list(g@, |n: Name| enc_name(n)),
    }
}

pub open spec fn entry_point_type_tag(t: EntryPointType) -> u8 {
    match t {
        EntryPointType::Session => 0,
        EntryPointType::Contract => 1,
    }
}

pub open spec fn enc_entry_point(e: EntryPoint) -> Seq<u8> {
    enc_bytes(e.name@) + enc_list(e.args@, |p: Parameter| enc_parameter(p)) + enc_cltype(e.ret)
        + enc_access(e.access) + seq![entry_point_type_tag(e.entry_point_type)]
}

pub open spec fn enc_contract(c: Contract) -> Seq<u8> {
    c.contract_package_hash@ + c.contract_wasm_hash@ + enc_list(c.named_keys@, |e: NamedKey| enc_named_key(e))
        + enc_list(c.entry_points@, |e: EntryPoint| enc_entry_point(e)) + enc_u32(c.protocol_version.major)
        + enc_u32(c.protocol_version.minor) + enc_u32(c.protocol_version.patch)
}

pub open spec fn enc_version(v: ContractVersionKey) -> Seq<u8> {
    enc_u32(v.0) + enc_u32(v.1)
}

pub open spec fn enc_version_entry(e: (ContractVersionKey, Addr)) -> Seq<u8> {
    enc_version(e.0) + e.1@
}

pub open spec fn enc_group(g: (Name, Vec<URef>)) -> Seq<u8> {
    enc_bytes(g.0@) + enc_list(g.1@, |u: URef| enc_uref(u))
}

pub open spec fn enc_package(p: ContractPackage) -> Seq<u8> {
    enc_uref(p.access_key) + enc_list(p.versions@, |e: (ContractVersionKey, Addr)| enc_version_entry(e))
        + enc_list(p.disabled_versions@, |v: ContractVersionKey| enc_version(v))
        + enc_list(p.groups@, |g: (Name, Vec<URef>)| enc_group(g))
}

/// The encoding of a stored value: its tag, then the value.
pub open spec fn enc_stored_value(v: StoredValue) -> Seq<u8> {
    match v {
        StoredValue::CLValue(c) => seq![0u8] + enc_clvalue(c@),
        StoredValue::Account(a) => seq![1u8] + enc_account(a),
        StoredValue::ContractWasm(w) => seq![2u8] + enc_bytes(w@),
        StoredValue::Contract(c) => seq![3u8] + enc_contract(c),
        StoredValue::ContractPackage(p) => seq![4u8] + enc_package(p),
    }
}

// ------------------------------------------------------------- size limits

pub open spec fn fits(n: nat) -> bool {
    n <= u32::MAX
}

pub open spec fn names_fit(s: Seq<Name>) -> bool {
    fits(s.len()) && forall|i: int| 0 <= i < s.len() ==> fits(#[trigger] s[i]@.len())
}

pub open spec fn named_keys_fit(s: Seq<NamedKey>) -> bool {
    fits(s.len()) && forall|i: int| 0 <= i < s.len() ==> fits(#[trigger] s[i].0@.len())
}

pub open spec fn entry_point_fits(e: EntryPoint) -> bool {
    &&& fits(e.name@.len())
    &&& fits(e.args@.len())
    &&& forall|i: int| 0 <= i < e.args@.len() ==> fits(#[trigger] e.args@[i].name@.len())
    &&& match e.access {
        EntryPointAccess::Public => true,
        EntryPointAccess::Groups(g) => names_fit(g@),
    }
}

pub open spec fn groups_fit(g: Seq<(Name, Vec<URef>)>) -> bool {
    fits(g.len()) && forall|i: int| 0 <= i < g.len() ==> fits(#[trigger] g[i].0@.len()) && fits(g[i].1@.len())
}

/// Whether every length in a stored value fits in a `u32`, as the encoding
/// needs.
pub open spec fn stored_value_fits(v: StoredValue) -> bool {
    match v {
        StoredValue::CLValue(c) => fits(c.bytes@.len()),
        StoredValue::Account(a) => named_keys_fit(a.named_keys@) && fits(a.associated_keys@.len()),
        StoredValue::ContractWasm(w) => fits(w@.len()),
        StoredValue::Contract(c) => named_keys_fit(c.named_keys@) && fits(c.entry_points@.len())
            && forall|i: int| 0 <= i < c.entry_points@.len() ==> entry_point_fits(#[trigger] c.entry_points@[i]),
        StoredValue::ContractPackage(p) => fits(p.versions@.len()) && fits(p.disabled_versions@.len())
            && groups_fit(p.groups@),
    }
}

// ------------------------------------------------------------------ writers

pub fn write_bytes(buf: &mut Vec<u8>, b: &[u8])
    requires
        fits(b@.len()),
    ensures
        final(buf)@ == old(buf)@ + enc_bytes(b@),
{
    write_u32(buf, b.len() as u32);
    let ghost mid = buf@;
    let mut i: usize = 0;
    while i < b.len()
        invariant
            i <= b@.len(),
            buf@ == mid + b@.subrange(0, i as int),
        decreases b@.len() - i,
    {
        buf.push(b[i]);
        assert(b@.subrange(0, i + 1) =~= b@.subrange(0, i as int) + seq![b@[i as int]]);
        i = i + 1;
    }
    assert(b@.subrange(0, b@.len() as int) =~= b@);
    assert(final(buf)@ =~= old(buf)@ + enc_bytes(b@));
}

pub fn write_cltype(buf: &mut Vec<u8>, t: &CLType)
    ensures
        final(buf)@ == old(buf)@ + enc_cltype(*t),
    decreases t,
{
    let tag: u8 = match t {
        CLType::Bool => 0,
        CLType::I32 => 1,
        CLType::I64 => 2,
        CLType::U8 => 3,
        CLType::U32 => 4,
        CLType::U64 => 5,
        CLType::U128 => 6,
        CLType::U256 => 7,
        CLType::U512 => 8,
        CLType::Unit => 9,
        CLType::String => 10,
        CLType::Key => 11,
        CLType::URef => 12,
        CLType::Option(_) => 13,
        CLType::List(_) => 14,
        CLType::ByteArray(_) => 15,
        CLType::Result { .. } => 16,
        CLType::Any => 21,
    };
    buf.push(tag);
    match t {
        CLType::Option(inner) => write_cltype(buf, inner),
        CLType::List(inner) => write_cltype(buf, inner),
        CLType::ByteArray(n) => write_u32(buf, *n),
        CLType::Result { ok, err } => {
            write_cltype(buf, ok);
            write_cltype(buf, err);
        },
        _ => {},
    }
    assert(final(buf)@ =~= old(buf)@ + enc_cltype(*t));
}

pub fn write_clvalue(buf: &mut Vec<u8>, v: &CLValue)
    requires
        fits(v.bytes@.len()),
    ensures
        final(buf)@ == old(buf)@ + enc_clvalue(v@),
{
    write_bytes(buf, v.bytes.as_slice());
    write_cltype(buf, &v.cl_type);
    assert(final(buf)@ =~= old(buf)@ + enc_clvalue(v@));
}

fn write_named_keys(buf: &mut Vec<u8>, s: &Vec<NamedKey>)
    requires
        named_keys_fit(s@),
    ensures
        final(buf)@ == old(buf)@ + enc_list(s@, |e: NamedKey| enc_named_key(e)),
{
    let ghost f = |e: NamedKey| enc_named_key(e);
    write_u32(buf, s.len() as u32);
    let ghost mid = buf@;
    let mut i: usize = 0;
    while i < s.len()
        invariant
            i <= s@.len(),
            named_keys_fit(s@),
            f == (|e: NamedKey| enc_named_key(e)),
            buf@ == mid + enc_items(s@.subrange(0, i as int), f),
        decreases s@.len() - i,
    {
        proof {
            lemma_enc_items_step(s@, i as int, f);
        }
        let ghost before = buf@;
        write_bytes(buf, s[i].0.as_slice());
        write_key(buf, &s[i].1);
        assert(buf@ =~= before + f(s@[i as int]));
        i = i + 1;
    }
    assert(s@.subrange(0, s@.len() as int) =~= s@);
    assert(final(buf)@ =~= old(buf)@ + enc_list(s@, f));
}


fn write_weights(buf: &mut Vec<u8>, s: &Vec<(Addr, u8)>)
    requires
        fits(s@.len()),
    ensures
        final(buf)@ == old(buf)@ + enc_list(s@, |e: (Addr, u8)| enc_weight(e)),
{
    let ghost f = |e: (Addr, u8)| enc_weight(e);
    write_u32(buf, s.len() as u32);
    let ghost mid = buf@;
    let mut i: usize = 0;
    while i < s.len()
        invariant
            i <= s@.len(),
            fits(s@.len()),
            f == (|e: (Addr, u8)| enc_weight(e)),
            buf@ == mid + enc_items(s@.subrange(0, i as int), f),
        decreases s@.len() - i,
    {
        proof {
            lemma_enc_items_step(s@, i as int, f);
        }
        let ghost before = buf@;
        write_addr(buf, &s[i].0);
        buf.push(s[i].1);
        assert(buf@ =~= before + f(s@[i as int]));
        i = i + 1;
    }
    assert(s@.subrange(0, s@.len() as int) =~= s@);
    assert(final(buf)@ =~= old(buf)@ + enc_list(s@, f));
}

fn write_account(buf: &mut Vec<u8>, a: &Account)
    requires
        named_keys_fit(a.named_keys@),
        fits(a.associated_keys@.len()),
    ensures
        final(buf)@ == old(buf)@ + enc_account(*a),
{
    write_addr(buf, &a.account_hash);
    write_named_keys(buf, &a.named_keys);
    write_uref(buf, &a.main_purse);
    write_weights(buf, &a.associated_keys);
    buf.push(a.deployment_threshold);
    buf.push(a.key_management_threshold);
    assert(final(buf)@ =~= old(buf)@ + enc_account(*a));
}

fn write_parameters(buf: &mut Vec<u8>, s: &Vec<Parameter>)
    requires
        fits(s@.len()) && forall|j: int| 0 <= j < s@.len() ==> fits(#[trigger] s@[j].name@.len()),
    ensures
        final(buf)@ == old(buf)@ + enc_list(s@, |e: Parameter| enc_parameter(e)),
{
    let ghost f = |e: Parameter| enc_parameter(e);
    write_u32(buf, s.len() as u32);
    let ghost mid = buf@;
    let mut i: usize = 0;
    while i < s.len()
        invariant
            i <= s@.len(),
            fits(s@.len()) && forall|j: int| 0 <= j < s@.len() ==> fits(#[trigger] s@[j].name@.len()),
            f == (|e: Parameter| enc_parameter(e)),
            buf@ == mid + enc_items(s@.subrange(0, i as int), f),
        decreases s@.len() - i,
    {
        proof {
            lemma_enc_items_step(s@, i as int, f);
        }
        let ghost before = buf@;
        write_bytes(buf, s[i].name.as_slice());
        write_cltype(buf, &s[i].cl_type);
        assert(buf@ =~= before + f(s@[i as int]));
        i = i + 1;
    }
    assert(s@.subrange(0, s@.len() as int) =~= s@);
    assert(final(buf)@ =~= old(buf)@ + enc_list(s@, f));
}

fn write_names(buf: &mut Vec<u8>, s: &Vec<Name>)
    requires
        names_fit(s@),
    ensures
        final(buf)@ == old(buf)@ + enc_list(s@, |e: Name| enc_name(e)),
{
    let ghost f = |e: Name| enc_name(e);
    write_u32(buf, s.len() as u32);
    let ghost mid = buf@;
    let mut i: usize = 0;
    while i < s.len()
        invariant
            i <= s@.len(),
            names_fit(s@),
            f == (|e: Name| enc_name(e)),
            buf@ == mid + enc_items(s@.subrange(0, i as int), f),
        decreases s@.len() - i,
    {
        proof {
            lemma_enc_items_step(s@, i as int, f);
        }
        let ghost before = buf@;
        write_bytes(buf, s[i].as_slice());
        assert(buf@ =~= before + f(s@[i as int]));
        i = i + 1;
    }
    assert(s@.subrange(0, s@.len() as int) =~= s@);
    assert(final(buf)@ =~= old(buf)@ + enc_list(s@, f));
}

fn write_entry_point(buf: &mut Vec<u8>, e: &EntryPoint)
    requires
        entry_point_fits(*e),
    ensures
        final(buf)@ == old(buf)@ + enc_entry_point(*e),
{
    write_bytes(buf, e.name.as_slice());
    write_parameters(buf, &e.args);
    write_cltype(buf, &e.ret);
    match &e.access {
        EntryPointAccess::Public => {
            buf.push(0u8);
        },
        EntryPointAccess::Groups(g) => {
            buf.push(1u8);
            write_names(buf, g);
        },
    }
    let tag: u8 = match e.entry_point_type {
        EntryPointType::Session => 0,
        EntryPointType::Contract => 1,
    };
    buf.push(tag);
    assert(final(buf)@ =~= old(buf)@ + enc_entry_point(*e));
}

fn write_entry_points(buf: &mut Vec<u8>, s: &Vec<EntryPoint>)
    requires
        fits(s@.len()) && forall|j: int| 0 <= j < s@.len() ==> entry_point_fits(#[trigger] s@[j]),
    ensures
        final(buf)@ == old(buf)@ + enc_list(s@, |e: EntryPoint| enc_entry_point(e)),
{
    let ghost f = |e: EntryPoint| enc_entry_point(e);
    write_u32(buf, s.len() as u32);
    let ghost mid = buf@;
    let mut i: usize = 0;
    while i < s.len()
        invariant
            i <= s@.len(),
            fits(s@.len()) && forall|j: int| 0 <= j < s@.len() ==> entry_point_fits(#[trigger] s@[j]),
            f == (|e: EntryPoint| enc_entry_point(e)),
            buf@ == mid + enc_items(s@.subrange(0, i as int), f),
        decreases s@.len() - i,
    {
        proof {
            lemma_enc_items_step(s@, i as int, f);
        }
        let ghost before = buf@;
        write_entry_point(buf, &s[i]);
        assert(buf@ =~= before + f(s@[i as int]));
        i = i + 1;
    }
    assert(s@.subrange(0, s@.len() as int) =~= s@);
    assert(final(buf)@ =~= old(buf)@ + enc_list(s@, f));
}

fn write_contract(buf: &mut Vec<u8>, c: &Contract)
    requires
        named_keys_fit(c.named_keys@),
        fits(c.entry_points@.len()),
        forall|i: int| 0 <= i < c.entry_points@.len() ==> entry_point_fits(#[trigger] c.entry_points@[i]),
    ensures
        final(buf)@ == old(buf)@ + enc_contract(*c),
{
    write_addr(buf, &c.contract_package_hash);
    write_addr(buf, &c.contract_wasm_hash);
    write_named_keys(buf, &c.named_keys);
    write_entry_points(buf, &c.entry_points);
    write_u32(buf, c.protocol_version.major);
    write_u32(buf, c.protocol_version.minor);
    write_u32(buf, c.protocol_version.patch);
    assert(final(buf)@ =~= old(buf)@ + enc_contract(*c));
}

fn write_version_entries(buf: &mut Vec<u8>, s: &Vec<(ContractVersionKey, Addr)>)
    requires
        fits(s@.len()),
    ensures
        final(buf)@ == old(buf)@ + enc_list(s@, |e: (ContractVersionKey, Addr)| enc_version_entry(e)),
{
    let ghost f = |e: (ContractVersionKey, Addr)| enc_version_entry(e);
    write_u32(buf, s.len() as u32);
    let ghost mid = buf@;
    let mut i: usize = 0;
    while i < s.len()
        invariant
            i <= s@.len(),
            fits(s@.len()),
            f == (|e: (ContractVersionKey, Addr)| enc_version_entry(e)),
            buf@ == mid + enc_items(s@.subrange(0, i as int), f),
        decreases s@.len() - i,
    {
        proof {
            lemma_enc_items_step(s@, i as int, f);
        }
        let ghost before = buf@;
        write_u32(buf, s[i].0.0);
        write_u32(buf, s[i].0.1);
        write_addr(buf, &s[i].1);
        assert(buf@ =~= before + f(s@[i as int]));
        i = i + 1;
    }
    assert(s@.subrange(0, s@.len() as int) =~= s@);
    assert(final(buf)@ =~= old(buf)@ + enc_list(s@, f));
}

fn write_versions(buf: &mut Vec<u8>, s: &Vec<ContractVersionKey>)
    requires
        fits(s@.len()),
    ensures
        final(buf)@ == old(buf)@ + enc_list(s@, |e: ContractVersionKey| enc_version(e)),
{
    let ghost f = |e: ContractVersionKey| enc_version(e);
    write_u32(buf, s.len() as u32);
    let ghost mid = buf@;
    let mut i: usize = 0;
    while i < s.len()
        invariant
            i <= s@.len(),
            fits(s@.len()),
            f == (|e: ContractVersionKey| enc_version(e)),
            buf@ == mid + enc_items(s@.subrange(0, i as int), f),
        decreases s@.len() - i,
    {
        proof {
            lemma_enc_items_step(s@, i as int, f);
        }
        let ghost before = buf@;
        write_u32(buf, s[i].0);
        write_u32(buf, s[i].1);
        assert(buf@ =~= before + f(s@[i as int]));
        i = i + 1;
    }
    assert(s@.subrange(0, s@.len() as int) =~= s@);
    assert(final(buf)@ =~= old(buf)@ + enc_list(s@, f));
}

fn write_urefs(buf: &mut Vec<u8>, s: &Vec<URef>)
    requires
        fits(s@.len()),
    ensures
        final(buf)@ == old(buf)@ + enc_list(s@, |e: URef| enc_uref(e)),
{
    let ghost f = |e: URef| enc_uref(e);
    write_u32(buf, s.len() as u32);
    let ghost mid = buf@;
    let mut i: usize = 0;
    while i < s.len()
        invariant
            i <= s@.len(),
            fits(s@.len()),
            f == (|e: URef| enc_uref(e)),
            buf@ == mid + enc_items(s@.subrange(0, i as int), f),
        decreases s@.len() - i,
    {
        proof {
            lemma_enc_items_step(s@, i as int, f);
        }
        let ghost before = buf@;
        write_uref(buf, &s[i]);
        assert(buf@ =~= before + f(s@[i as int]));
        i = i + 1;
    }
    assert(s@.subrange(0, s@.len() as int) =~= s@);
    assert(final(buf)@ =~= old(buf)@ + enc_list(s@, f));
}

fn write_groups(buf: &mut Vec<u8>, s: &Vec<(Name, Vec<URef>)>)
    requires
        groups_fit(s@),
    ensures
        final(buf)@ == old(buf)@ + enc_list(s@, |e: (Name, Vec<URef>)| enc_group(e)),
{
    let ghost f = |e: (Name, Vec<URef>)| enc_group(e);
    write_u32(buf, s.len() as u32);
    let ghost mid = buf@;
    let mut i: usize = 0;
    while i < s.len()
        invariant
            i <= s@.len(),
            groups_fit(s@),
            f == (|e: (Name, Vec<URef>)| enc_group(e)),
            buf@ == mid + enc_items(s@.subrange(0, i as int), f),
        decreases s@.len() - i,
    {
        proof {
            lemma_enc_items_step(s@, i as int, f);
        }
        let ghost before = buf@;
        write_bytes(buf, s[i].0.as_slice());
        write_urefs(buf, &s[i].1);
        assert(buf@ =~= before + f(s@[i as int]));
        i = i + 1;
    }
    assert(s@.subrange(0, s@.len() as int) =~= s@);
    assert(final(buf)@ =~= old(buf)@ + enc_list(s@, f));
}

fn write_package(buf: &mut Vec<u8>, p: &ContractPackage)
    requires
        fits(p.versions@.len()),
        fits(p.disabled_versions@.len()),
        groups_fit(p.groups@),
    ensures
        final(buf)@ == old(buf)@ + enc_package(*p),
{
    write_uref(buf, &p.access_key);
    write_version_entries(buf, &p.versions);
    write_versions(buf, &p.disabled_versions);
    write_groups(buf, &p.groups);
    assert(final(buf)@ =~= old(buf)@ + enc_package(*p));
}

impl StoredValue {
    /// The value's encoding.
    pub fn to_bytes(&self) -> (r: Vec<u8>)
        requires
            stored_value_fits(*self),
        ensures
            r@ == enc_stored_value(*self),
    {
        let mut buf: Vec<u8> = Vec::new();
        match self {
            StoredValue::CLValue(c) => {
                buf.push(0u8);
                write_clvalue(&mut buf, c);
            },
            StoredValue::Account(a) => {
                buf.push(1u8);
                write_account(&mut buf, a);
            },
            StoredValue::ContractWasm(w) => {
                buf.push(2u8);
                write_bytes(&mut buf, w.as_slice());
            },
            StoredValue::Contract(c) => {
                buf.push(3u8);
                write_contract(&mut buf, c);
            },
            StoredValue::ContractPackage(p) => {
                buf.push(4u8);
                write_package(&mut buf, p);
            },
        }
        assert(buf@ =~= enc_stored_value(*self));
        buf
    }

    /// The length of the value's encoding.
    pub fn serialized_length(&self) -> (r: usize)
        requires
            stored_value_fits(*self),
        ensures
            r == enc_stored_value(*self).len(),
    {
        self.to_bytes().len()
    }
}


// ------------------------------------------------------------------ readers

/// A part of a prefix of `s` is a prefix of the rest of `s` from where the
/// part starts.
pub proof fn lemma_prefix_shift(p: Seq<u8>, s: Seq<u8>, k: int, q: Seq<u8>)
    requires
        is_prefix(p, s),
        0 <= k,
        k + q.len() <= p.len(),
        p.subrange(k, k + q.len()) == q,
    ensures
        is_prefix(q, s.subrange(k, s.len() as int)),
{
    assert(s.subrange(k, s.len() as int).subrange(0, q.len() as int) =~= p.subrange(k, k + q.len()));
}

/// Two types whose encodings both begin a byte sequence are the same type.
pub proof fn lemma_cltype_prefix_unique(a: CLType, b: CLType, s: Seq<u8>)
    requires
        is_prefix(enc_cltype(a), s),
        is_prefix(enc_cltype(b), s),
    ensures
        a == b,
    decreases a,
{
    assert(enc_cltype(a)[0] == s[0]);
    assert(enc_cltype(b)[0] == s[0]);
    let t = s.subrange(1, s.len() as int);
    match (a, b) {
        (CLType::Option(x), CLType::Option(y)) => {
            assert(enc_cltype(a).subrange(1, 1 + enc_cltype(*x).len() as int) =~= enc_cltype(*x));
            assert(enc_cltype(b).subrange(1, 1 + enc_cltype(*y).len() as int) =~= enc_cltype(*y));
            lemma_prefix_shift(enc_cltype(a), s, 1, enc_cltype(*x));
            lemma_prefix_shift(enc_cltype(b), s, 1, enc_cltype(*y));
            lemma_cltype_prefix_unique(*x, *y, t);
        },
        (CLType::List(x), CLType::List(y)) => {
            assert(enc_cltype(a).subrange(1, 1 + enc_cltype(*x).len() as int) =~= enc_cltype(*x));
            assert(enc_cltype(b).subrange(1, 1 + enc_cltype(*y).len() as int) =~= enc_cltype(*y));
            lemma_prefix_shift(enc_cltype(a), s, 1, enc_cltype(*x));
            lemma_prefix_shift(enc_cltype(b), s, 1, enc_cltype(*y));
            lemma_cltype_prefix_unique(*x, *y, t);
        },
        (CLType::ByteArray(x), CLType::ByteArray(y)) => {
            lemma_pow256_values();
            crate::bytesrepr::lemma_le_bytes_len(x as nat, 4);
            crate::bytesrepr::lemma_le_bytes_len(y as nat, 4);
            assert(enc_cltype(a).subrange(1, 5) =~= enc_u32(x));
            assert(enc_cltype(b).subrange(1, 5) =~= enc_u32(y));
            assert(enc_u32(x) =~= s.subrange(1, 5));
            assert(enc_u32(y) =~= s.subrange(1, 5));
            lemma_le_injective(x as nat, y as nat, 4);
        },
        (CLType::Result { ok: o1, err: e1 }, CLType::Result { ok: o2, err: e2 }) => {
            let l1 = enc_cltype(*o1).len() as int;
            let l2 = enc_cltype(*o2).len() as int;
            assert(enc_cltype(a).subrange(1, 1 + l1) =~= enc_cltype(*o1));
            assert(enc_cltype(b).subrange(1, 1 + l2) =~= enc_cltype(*o2));
            lemma_prefix_shift(enc_cltype(a), s, 1, enc_cltype(*o1));
            lemma_prefix_shift(enc_cltype(b), s, 1, enc_cltype(*o2));
            lemma_cltype_prefix_unique(*o1, *o2, t);
            assert(enc_cltype(a).subrange(1 + l1, 1 + l1 + enc_cltype(*e1).len() as int) =~= enc_cltype(*e1));
            assert(enc_cltype(b).subrange(1 + l1, 1 + l1 + enc_cltype(*e2).len() as int) =~= enc_cltype(*e2));
            lemma_prefix_shift(enc_cltype(a), s, 1 + l1, enc_cltype(*e1));
            lemma_prefix_shift(enc_cltype(b), s, 1 + l1, enc_cltype(*e2));
            lemma_cltype_prefix_unique(*e1, *e2, s.subrange(1 + l1, s.len() as int));
        },
        _ => {},
    }
}

/// Reads a type from `pos`.
pub fn read_cltype(bytes: &[u8], pos: usize) -> (r: Result<(CLType, usize), CodecError>)
    requires
        pos <= bytes@.len(),
    ensures
        match r {
            Ok((t, p)) => pos <= p <= bytes@.len() && bytes@.subrange(pos as int, p as int) == enc_cltype(t),
            Err(_) => forall|t: CLType| !is_prefix(enc_cltype(t), #[trigger] bytes@.subrange(pos as int, bytes@.len() as int)),
        },
    decreases bytes@.len() - pos,
{
    let ghost s = bytes@.subrange(pos as int, bytes@.len() as int);
    let (tag, p1) = match read_u8(bytes, pos) {
        Ok(x) => x,
        Err(e) => {
            assert forall|t: CLType| !is_prefix(enc_cltype(t), s) by {
                assert(enc_cltype(t).len() >= 1);
            }
            return Err(e);
        },
    };
    assert(tag == s[0]) by {
        assert(bytes@.subrange(pos as int, p1 as int)[0] == tag);
    }
    let ghost rest = bytes@.subrange(p1 as int, bytes@.len() as int);
    assert(rest =~= s.drop_first());
    let simple: Option<CLType> = match tag {
        0 => Some(CLType::Bool),
        1 => Some(CLType::I32),
        2 => Some(CLType::I64),
        3 => Some(CLType::U8),
        4 => Some(CLType::U32),
        5 => Some(CLType::U64),
        6 => Some(CLType::U128),
        7 => Some(CLType::U256),
        8 => Some(CLType::U512),
        9 => Some(CLType::Unit),
        10 => Some(CLType::String),
        11 => Some(CLType::Key),
        12 => Some(CLType::URef),
        21 => Some(CLType::Any),
        _ => None,
    };
    if let Some(t) = simple {
        assert(bytes@.subrange(pos as int, p1 as int) =~= enc_cltype(t));
        return Ok((t, p1));
    }
    if tag == 13 || tag == 14 {
        match read_cltype(bytes, p1) {
            Ok((inner, p2)) => {
                let t = if tag == 13 {
                    CLType::Option(Box::new(inner))
                } else {
                    CLType::List(Box::new(inner))
                };
                assert(bytes@.subrange(pos as int, p2 as int) =~= seq![tag] + bytes@.subrange(p1 as int, p2 as int));
                Ok((t, p2))
            },
            Err(e) => {
                assert forall|t: CLType| !is_prefix(enc_cltype(t), s) by {
                    if is_prefix(enc_cltype(t), s) {
                        assert(enc_cltype(t)[0] == s[0]);
                        match t {
                            CLType::Option(x) => {
                                assert(enc_cltype(t).subrange(1, 1 + enc_cltype(*x).len() as int) =~= enc_cltype(*x));
                                lemma_prefix_shift(enc_cltype(t), s, 1, enc_cltype(*x));
                                assert(s.subrange(1, s.len() as int) =~= rest);
                            },
                            CLType::List(x) => {
                                assert(enc_cltype(t).subrange(1, 1 + enc_cltype(*x).len() as int) =~= enc_cltype(*x));
                                lemma_prefix_shift(enc_cltype(t), s, 1, enc_cltype(*x));
                                assert(s.subrange(1, s.len() as int) =~= rest);
                            },
                            _ => {},
                        }
                    }
                }
                Err(e)
            },
        }
    } else if tag == 15 {
        match read_u32(bytes, p1) {
            Ok((n, p2)) => {
                assert(bytes@.subrange(pos as int, p2 as int) =~= seq![tag] + bytes@.subrange(p1 as int, p2 as int));
                Ok((CLType::ByteArray(n), p2))
            },
            Err(e) => {
                assert forall|t: CLType| !is_prefix(enc_cltype(t), s) by {
                    if is_prefix(enc_cltype(t), s) {
                        assert(enc_cltype(t)[0] == s[0]);
                        if let CLType::ByteArray(x) = t {
                            crate::bytesrepr::lemma_le_bytes_len(x as nat, 4);
                            assert(enc_cltype(t).len() == 5);
                        }
                    }
                }
                Err(e)
            },
        }
    } else if tag == 16 {
        let (ok, p2) = match read_cltype(bytes, p1) {
            Ok(x) => x,
            Err(e) => {
                assert forall|t: CLType| !is_prefix(enc_cltype(t), s) by {
                    if is_prefix(enc_cltype(t), s) {
                        assert(enc_cltype(t)[0] == s[0]);
                        if let CLType::Result { ok: o, err: _ } = t {
                            assert(enc_cltype(t).subrange(1, 1 + enc_cltype(*o).len() as int) =~= enc_cltype(*o));
                            lemma_prefix_shift(enc_cltype(t), s, 1, enc_cltype(*o));
                            assert(s.subrange(1, s.len() as int) =~= rest);
                        }
                    }
                }
                return Err(e);
            },
        };
        let (err, p3) = match read_cltype(bytes, p2) {
            Ok(x) => x,
            Err(e) => {
                assert forall|t: CLType| !is_prefix(enc_cltype(t), s) by {
                    if is_prefix(enc_cltype(t), s) {
                        assert(enc_cltype(t)[0] == s[0]);
                        if let CLType::Result { ok: o, err: x } = t {
                            let lo = enc_cltype(*o).len() as int;
                            assert(enc_cltype(t).subrange(1, 1 + lo) =~= enc_cltype(*o));
                            lemma_prefix_shift(enc_cltype(t), s, 1, enc_cltype(*o));
                            assert(s.subrange(1, s.len() as int) =~= rest);
                            assert(rest.subrange(0, enc_cltype(ok).len() as int) =~= bytes@.subrange(p1 as int, p2 as int));
                            lemma_cltype_prefix_unique(*o, ok, rest);
                            assert(enc_cltype(t).subrange(1 + lo, 1 + lo + enc_cltype(*x).len() as int) =~= enc_cltype(*x));
                            lemma_prefix_shift(enc_cltype(t), s, 1 + lo, enc_cltype(*x));
                            assert(s.subrange(1 + lo, s.len() as int) =~= bytes@.subrange(p2 as int, bytes@.len() as int));
                        }
                    }
                }
                return Err(e);
            },
        };
        let t = CLType::Result { ok: Box::new(ok), err: Box::new(err) };
        assert(bytes@.subrange(pos as int, p3 as int) =~= seq![tag] + bytes@.subrange(p1 as int, p2 as int) + bytes@.subrange(p2 as int, p3 as int));
        Ok((t, p3))
    } else {
        assert forall|t: CLType| !is_prefix(enc_cltype(t), s) by {
            if is_prefix(enc_cltype(t), s) {
                assert(enc_cltype(t)[0] == s[0]);
            }
        }
        Err(CodecError::Formatting)
    }
}


/// Reads a byte string from `pos`.
pub fn read_bytes(bytes: &[u8], pos: usize) -> (r: Result<(Vec<u8>, usize), CodecError>)
    requires
        pos <= bytes@.len(),
    ensures
        match r {
            Ok((b, p)) => pos <= p <= bytes@.len() && bytes@.subrange(pos as int, p as int) == enc_bytes(b@)
                && fits(b@.len()),
            Err(_) => forall|b: Seq<u8>| fits(b.len()) ==> !is_prefix(enc_bytes(b), #[trigger] bytes@.subrange(pos as int, bytes@.len() as int)),
        },
{
    let ghost s = bytes@.subrange(pos as int, bytes@.len() as int);
    proof {
        lemma_pow256_values();
    }
    let (n, p1) = match read_u32(bytes, pos) {
        Ok(x) => x,
        Err(e) => {
            assert forall|b: Seq<u8>| fits(b.len()) implies !is_prefix(enc_bytes(b), s) by {
                crate::bytesrepr::lemma_le_bytes_len(b.len(), 4);
            }
            return Err(e);
        },
    };
    let len = bytes.len();
    if len - p1 < n as usize {
        proof {
            assert forall|b: Seq<u8>| fits(b.len()) implies !is_prefix(enc_bytes(b), s) by {
                crate::bytesrepr::lemma_le_bytes_len(b.len(), 4);
                if is_prefix(enc_bytes(b), s) {
                    assert(enc_bytes(b).subrange(0, 4) =~= enc_u32(b.len() as u32));
                    assert(enc_u32(n) =~= s.subrange(0, 4));
                    assert(enc_u32(b.len() as u32) =~= s.subrange(0, 4));
                    lemma_le_injective(n as nat, b.len(), 4);
                }
            }
        }
        return Err(CodecError::EarlyEndOfStream);
    }
    let mut out: Vec<u8> = Vec::new();
    let mut i: usize = 0;
    while i < n as usize
        invariant
            p1 + n <= len,
            len == bytes@.len(),
            i <= n,
            out@ == bytes@.subrange(p1 as int, p1 + i),
        decreases n - i,
    {
        out.push(bytes[p1 + i]);
        assert(bytes@.subrange(p1 as int, p1 + i + 1) =~= bytes@.subrange(p1 as int, p1 + i) + seq![bytes@[p1 + i]]);
        i = i + 1;
    }
    let p = p1 + n as usize;
    assert(bytes@.subrange(pos as int, p as int) =~= enc_bytes(out@));
    Ok((out, p))
}

/// Two byte strings whose encodings both begin a sequence are equal.
pub proof fn lemma_bytes_prefix_unique(a: Seq<u8>, b: Seq<u8>, s: Seq<u8>)
    requires
        fits(a.len()),
        fits(b.len()),
        is_prefix(enc_bytes(a), s),
        is_prefix(enc_bytes(b), s),
    ensures
        a == b,
{
    lemma_pow256_values();
    crate::bytesrepr::lemma_le_bytes_len(a.len(), 4);
    crate::bytesrepr::lemma_le_bytes_len(b.len(), 4);
    assert(enc_bytes(a).subrange(0, 4) =~= s.subrange(0, 4));
    assert(enc_bytes(b).subrange(0, 4) =~= s.subrange(0, 4));
    assert(enc_bytes(a).subrange(0, 4) =~= enc_u32(a.len() as u32));
    assert(enc_bytes(b).subrange(0, 4) =~= enc_u32(b.len() as u32));
    lemma_le_injective(a.len(), b.len(), 4);
    assert(enc_bytes(a).subrange(4, 4 + a.len() as int) =~= a);
    assert(enc_bytes(b).subrange(4, 4 + b.len() as int) =~= b);
    assert(s.subrange(0, enc_bytes(a).len() as int).subrange(4, 4 + a.len() as int) =~= s.subrange(4, 4 + a.len() as int));
    assert(s.subrange(0, enc_bytes(b).len() as int).subrange(4, 4 + b.len() as int) =~= s.subrange(4, 4 + b.len() as int));
}

/// Reads a typed value from `pos`.
pub fn read_clvalue(bytes: &[u8], pos: usize) -> (r: Result<(CLValue, usize), CodecError>)
    requires
        pos <= bytes@.len(),
    ensures
        match r {
            Ok((v, p)) => pos <= p <= bytes@.len() && bytes@.subrange(pos as int, p as int) == enc_clvalue(v@)
                && fits(v.bytes@.len()),
            Err(_) => forall|v: CLValueView| fits(v.bytes.len()) ==> !is_prefix(enc_clvalue(v), #[trigger] bytes@.subrange(pos as int, bytes@.len() as int)),
        },
{
    let ghost s = bytes@.subrange(pos as int, bytes@.len() as int);
    let (b, p1) = match read_bytes(bytes, pos) {
        Ok(x) => x,
        Err(e) => {
            assert forall|v: CLValueView| fits(v.bytes.len()) implies !is_prefix(enc_clvalue(v), s) by {
                if is_prefix(enc_clvalue(v), s) {
                    assert(enc_clvalue(v).subrange(0, enc_bytes(v.bytes).len() as int) =~= enc_bytes(v.bytes));
                    lemma_prefix_shift(enc_clvalue(v), s, 0, enc_bytes(v.bytes));
                    assert(s.subrange(0, s.len() as int) =~= s);
                }
            }
            return Err(e);
        },
    };
    let (t, p2) = match read_cltype(bytes, p1) {
        Ok(x) => x,
        Err(e) => {
            assert forall|v: CLValueView| fits(v.bytes.len()) implies !is_prefix(enc_clvalue(v), s) by {
                if is_prefix(enc_clvalue(v), s) {
                    let lb = enc_bytes(v.bytes).len() as int;
                    assert(enc_clvalue(v).subrange(0, lb) =~= enc_bytes(v.bytes));
                    lemma_prefix_shift(enc_clvalue(v), s, 0, enc_bytes(v.bytes));
                    assert(s.subrange(0, s.len() as int) =~= s);
                    assert(s.subrange(0, (p1 - pos) as int) =~= enc_bytes(b@));
                    lemma_bytes_prefix_unique(v.bytes, b@, s);
                    assert(enc_clvalue(v).subrange(lb, lb + enc_cltype(v.cl_type).len() as int) =~= enc_cltype(v.cl_type));
                    lemma_prefix_shift(enc_clvalue(v), s, lb, enc_cltype(v.cl_type));
                    assert(s.subrange(lb, s.len() as int) =~= bytes@.subrange(p1 as int, bytes@.len() as int));
                }
            }
            return Err(e);
        },
    };
    let v = CLValue { cl_type: t, bytes: b };
    assert(bytes@.subrange(pos as int, p2 as int) =~= enc_clvalue(v@));
    Ok((v, p2))
}

/// A typed value decodes from its encoding, whatever follows it: the decoded
/// value equals the one encoded.
pub proof fn lemma_clvalue_prefix_unique(a: CLValueView, b: CLValueView, s: Seq<u8>)
    requires
        fits(a.bytes.len()),
        fits(b.bytes.len()),
        is_prefix(enc_clvalue(a), s),
        is_prefix(enc_clvalue(b), s),
    ensures
        a == b,
{
    assert(enc_clvalue(a).subrange(0, enc_bytes(a.bytes).len() as int) =~= enc_bytes(a.bytes));
    assert(enc_clvalue(b).subrange(0, enc_bytes(b.bytes).len() as int) =~= enc_bytes(b.bytes));
    lemma_prefix_shift(enc_clvalue(a), s, 0, enc_bytes(a.bytes));
    lemma_prefix_shift(enc_clvalue(b), s, 0, enc_bytes(b.bytes));
    assert(s.subrange(0, s.len() as int) =~= s);
    lemma_bytes_prefix_unique(a.bytes, b.bytes, s);
    let lb = enc_bytes(a.bytes).len() as int;
    assert(enc_clvalue(a).subrange(lb, lb + enc_cltype(a.cl_type).len() as int) =~= enc_cltype(a.cl_type));
    assert(enc_clvalue(b).subrange(lb, lb + enc_cltype(b.cl_type).len() as int) =~= enc_cltype(b.cl_type));
    lemma_prefix_shift(enc_clvalue(a), s, lb, enc_cltype(a.cl_type));
    lemma_prefix_shift(enc_clvalue(b), s, lb, enc_cltype(b.cl_type));
    lemma_cltype_prefix_unique(a.cl_type, b.cl_type, s.subrange(lb, s.len() as int));
}


proof fn lemma_read_uref_sound(s: Seq<u8>, u: URef, n: nat)
    requires
        dec_uref(s) == Some((u, n)),
    ensures
        n <= s.len(),
        s.subrange(0, n as int) == enc_uref(u),
        uref_valid(u),
{
}

/// The items of a prefix of a list encode to a prefix of the list's items.
pub proof fn lemma_enc_items_prefix<T>(s: Seq<T>, j: int, f: spec_fn(T) -> Seq<u8>)
    requires
        0 <= j <= s.len(),
    ensures
        is_prefix(enc_items(s.subrange(0, j), f), enc_items(s, f)),
    decreases s.len(),
{
    if j == s.len() {
        assert(s.subrange(0, j) =~= s);
        assert(enc_items(s, f).subrange(0, enc_items(s, f).len() as int) =~= enc_items(s, f));
    } else {
        lemma_enc_items_prefix(s.drop_last(), j, f);
        assert(s.drop_last().subrange(0, j) =~= s.subrange(0, j));
        let p = enc_items(s.subrange(0, j), f);
        assert(enc_items(s, f).subrange(0, p.len() as int) =~= enc_items(s.drop_last(), f).subrange(0, p.len() as int));
    }
}

/// Where a list's encoding begins a sequence, so does the encoding of its
/// `i`th item, after the length and the items before it.
pub proof fn lemma_list_item_prefix<T>(s: Seq<T>, f: spec_fn(T) -> Seq<u8>, rest: Seq<u8>, i: int)
    requires
        is_prefix(enc_list(s, f), rest),
        0 <= i < s.len(),
    ensures
        is_prefix(f(s[i]), rest.subrange(4 + enc_items(s.subrange(0, i), f).len() as int, rest.len() as int)),
{
    lemma_pow256_values();
    crate::bytesrepr::lemma_le_bytes_len(s.len() as u32 as nat, 4);
    lemma_enc_items_prefix(s, i + 1, f);
    lemma_enc_items_step(s, i, f);
    let li = enc_items(s.subrange(0, i), f).len() as int;
    let e = enc_list(s, f);
    let items = enc_items(s, f);
    let pre = enc_items(s.subrange(0, i + 1), f);
    assert(items.subrange(0, pre.len() as int) == pre);
    assert(pre == enc_items(s.subrange(0, i), f) + f(s[i]));
    assert(pre.subrange(li, pre.len() as int) =~= f(s[i]));
    assert(items.subrange(li, li + f(s[i]).len()) =~= pre.subrange(li, pre.len() as int));
    assert(e.subrange(4 + li, 4 + li + f(s[i]).len()) =~= items.subrange(li, li + f(s[i]).len()));
    lemma_prefix_shift(e, rest, 4 + li, f(s[i]));
}

/// Where a list's encoding begins a sequence, the first four bytes give its
/// length.
pub proof fn lemma_list_len<T>(s: Seq<T>, f: spec_fn(T) -> Seq<u8>, rest: Seq<u8>, n: u32)
    requires
        is_prefix(enc_list(s, f), rest),
        fits(s.len()),
        rest.len() >= 4,
        rest.subrange(0, 4) == enc_u32(n),
    ensures
        s.len() == n,
{
    lemma_pow256_values();
    crate::bytesrepr::lemma_le_bytes_len(s.len() as u32 as nat, 4);
    assert(enc_list(s, f).subrange(0, 4) =~= enc_u32(s.len() as u32));
    assert(rest.subrange(0, 4) =~= enc_list(s, f).subrange(0, 4));
    lemma_le_injective(n as nat, s.len() as u32 as nat, 4);
}

/// Named keys valid for encoding: lengths that fit, and keys that decode.
pub open spec fn named_keys_valid(s: Seq<NamedKey>) -> bool {
    named_keys_fit(s) && forall|j: int| 0 <= j < s.len() ==> key_valid(#[trigger] s[j].1)
}

/// Two lists of named keys with the same names and keys, entry by entry.
pub open spec fn named_keys_same(a: Seq<NamedKey>, b: Seq<NamedKey>) -> bool {
    a.len() == b.len() && forall|j: int| 0 <= j < a.len() ==> (#[trigger] a[j]).0@ == b[j].0@ && a[j].1 == b[j].1
}

pub proof fn lemma_named_keys_same_enc(a: Seq<NamedKey>, b: Seq<NamedKey>)
    requires
        named_keys_same(a, b),
    ensures
        enc_items(a, |e: NamedKey| enc_named_key(e)) == enc_items(b, |e: NamedKey| enc_named_key(e)),
    decreases a.len(),
{
    if a.len() > 0 {
        assert(named_keys_same(a.drop_last(), b.drop_last()));
        lemma_named_keys_same_enc(a.drop_last(), b.drop_last());
        assert(a.last().0@ == b.last().0@ && a.last().1 == b.last().1);
    }
}

pub proof fn lemma_params_same_enc(a: Seq<Parameter>, b: Seq<Parameter>)
    requires
        a.len() == b.len(),
        forall|j: int| 0 <= j < a.len() ==> (#[trigger] a[j]).name@ == b[j].name@ && a[j].cl_type == b[j].cl_type,
    ensures
        enc_items(a, |e: Parameter| enc_parameter(e)) == enc_items(b, |e: Parameter| enc_parameter(e)),
    decreases a.len(),
{
    if a.len() > 0 {
        lemma_params_same_enc(a.drop_last(), b.drop_last());
        assert(a.last().name@ == b.last().name@);
    }
}

pub proof fn lemma_names_same_enc(a: Seq<Name>, b: Seq<Name>)
    requires
        a.len() == b.len(),
        forall|j: int| 0 <= j < a.len() ==> (#[trigger] a[j])@ == b[j]@,
    ensures
        enc_items(a, |e: Name| enc_name(e)) == enc_items(b, |e: Name| enc_name(e)),
    decreases a.len(),
{
    if a.len() > 0 {
        lemma_names_same_enc(a.drop_last(), b.drop_last());
        assert(a.last()@ == b.last()@);
    }
}

/// Two named keys whose encodings both begin a sequence are the same.
pub proof fn lemma_named_key_prefix_unique(a: NamedKey, b: NamedKey, s: Seq<u8>)
    requires
        fits(a.0@.len()),
        fits(b.0@.len()),
        is_prefix(enc_named_key(a), s),
        is_prefix(enc_named_key(b), s),
    ensures
        a.0@ == b.0@,
        a.1 == b.1,
        enc_named_key(a) == enc_named_key(b),
{
    let la = enc_bytes(a.0@).len() as int;
    assert(enc_named_key(a).subrange(0, la) =~= enc_bytes(a.0@));
    assert(enc_named_key(b).subrange(0, enc_bytes(b.0@).len() as int) =~= enc_bytes(b.0@));
    lemma_prefix_shift(enc_named_key(a), s, 0, enc_bytes(a.0@));
    lemma_prefix_shift(enc_named_key(b), s, 0, enc_bytes(b.0@));
    assert(s.subrange(0, s.len() as int) =~= s);
    lemma_bytes_prefix_unique(a.0@, b.0@, s);
    assert(enc_named_key(a).subrange(la, la + enc_key(a.1).len()) =~= enc_key(a.1));
    assert(enc_named_key(b).subrange(la, la + enc_key(b.1).len()) =~= enc_key(b.1));
    lemma_prefix_shift(enc_named_key(a), s, la, enc_key(a.1));
    lemma_prefix_shift(enc_named_key(b), s, la, enc_key(b.1));
    crate::bytesrepr::lemma_key_prefix_unique(a.1, b.1, s.subrange(la, s.len() as int));
}

fn read_named_key(bytes: &[u8], pos: usize) -> (r: Result<(NamedKey, usize), CodecError>)
    requires
        pos <= bytes@.len(),
    ensures
        match r {
            Ok((e, p)) => pos <= p <= bytes@.len() && bytes@.subrange(pos as int, p as int) == enc_named_key(e)
                && fits(e.0@.len()),
            Err(_) => true,
        },
        forall|e: NamedKey| #![auto] fits(e.0@.len()) && key_valid(e.1) && is_prefix(enc_named_key(e), bytes@.subrange(pos as int, bytes@.len() as int))
            ==> r is Ok,
{
    let ghost rest = bytes@.subrange(pos as int, bytes@.len() as int);
    let (name, p1) = match read_bytes(bytes, pos) {
        Ok(x) => x,
        Err(e) => {
            assert forall|x: NamedKey| #![auto] fits(x.0@.len()) && key_valid(x.1) && is_prefix(enc_named_key(x), rest) implies false by {
                assert(enc_named_key(x).subrange(0, enc_bytes(x.0@).len() as int) =~= enc_bytes(x.0@));
                lemma_prefix_shift(enc_named_key(x), rest, 0, enc_bytes(x.0@));
                assert(rest.subrange(0, rest.len() as int) =~= rest);
            }
            return Err(e);
        },
    };
    let (k, p2) = match read_key(bytes, p1) {
        Ok(x) => x,
        Err(e) => {
            assert forall|x: NamedKey| #![auto] fits(x.0@.len()) && key_valid(x.1) && is_prefix(enc_named_key(x), rest) implies false by {
                let lx = enc_bytes(x.0@).len() as int;
                assert(enc_named_key(x).subrange(0, lx) =~= enc_bytes(x.0@));
                lemma_prefix_shift(enc_named_key(x), rest, 0, enc_bytes(x.0@));
                assert(rest.subrange(0, rest.len() as int) =~= rest);
                assert(rest.subrange(0, (p1 - pos) as int) =~= enc_bytes(name@));
                lemma_bytes_prefix_unique(x.0@, name@, rest);
                assert(enc_named_key(x).subrange(lx, lx + enc_key(x.1).len()) =~= enc_key(x.1));
                lemma_prefix_shift(enc_named_key(x), rest, lx, enc_key(x.1));
                assert(rest.subrange(lx, rest.len() as int) =~= bytes@.subrange(p1 as int, bytes@.len() as int));
            }
            return Err(e);
        },
    };
    proof {
        crate::bytesrepr::lemma_read_key_sound(bytes@.subrange(p1 as int, bytes@.len() as int), k, (p2 - p1) as nat);
        assert(bytes@.subrange(p1 as int, bytes@.len() as int).subrange(0, p2 - p1) =~= bytes@.subrange(p1 as int, p2 as int));
    }
    let e = (name, k);
    assert(bytes@.subrange(pos as int, p2 as int) =~= enc_named_key(e));
    Ok((e, p2))
}

fn read_uref_at(bytes: &[u8], pos: usize) -> (r: Result<(URef, usize), CodecError>)
    requires
        pos <= bytes@.len(),
    ensures
        match r {
            Ok((u, p)) => pos <= p <= bytes@.len() && bytes@.subrange(pos as int, p as int) == enc_uref(u),
            Err(_) => true,
        },
        forall|u: URef| #![auto] uref_valid(u) && is_prefix(enc_uref(u), bytes@.subrange(pos as int, bytes@.len() as int))
            ==> (r matches Ok((w, p)) && w == u),
{
    let ghost rest = bytes@.subrange(pos as int, bytes@.len() as int);
    let (u, p) = match read_uref(bytes, pos) {
        Ok(x) => x,
        Err(e) => return Err(e),
    };
    proof {
        lemma_read_uref_sound(bytes@.subrange(pos as int, bytes@.len() as int), u, (p - pos) as nat);
        assert(bytes@.subrange(pos as int, bytes@.len() as int).subrange(0, p - pos) =~= bytes@.subrange(pos as int, p as int));
        assert forall|x: URef| #![auto] uref_valid(x) && is_prefix(enc_uref(x), rest) implies x == u by {
            crate::bytesrepr::lemma_uref_prefix_unique(x, u, rest);
        }
    }
    Ok((u, p))
}

/// Two key weights whose encodings both begin a sequence are the same.
pub proof fn lemma_weight_prefix_unique(a: (Addr, u8), b: (Addr, u8), s: Seq<u8>)
    requires
        is_prefix(enc_weight(a), s),
        is_prefix(enc_weight(b), s),
    ensures
        a == b,
{
    assert(a.0@ =~= enc_weight(a).subrange(0, 32));
    assert(b.0@ =~= enc_weight(b).subrange(0, 32));
    assert(a.0@ =~= s.subrange(0, 32));
    assert(b.0@ =~= s.subrange(0, 32));
    crate::bytesrepr::lemma_addr_ext(a.0, b.0);
    assert(enc_weight(a)[32] == s[32]);
    assert(enc_weight(b)[32] == s[32]);
}

fn read_weight(bytes: &[u8], pos: usize) -> (r: Result<((Addr, u8), usize), CodecError>)
    requires
        pos <= bytes@.len(),
    ensures
        match r {
            Ok((e, p)) => pos <= p <= bytes@.len() && bytes@.subrange(pos as int, p as int) == enc_weight(e),
            Err(_) => true,
        },
        forall|e: (Addr, u8)| #![auto] is_prefix(enc_weight(e), bytes@.subrange(pos as int, bytes@.len() as int)) ==> r is Ok,
{
    let ghost rest = bytes@.subrange(pos as int, bytes@.len() as int);
    let (a, p1) = match read_addr(bytes, pos) {
        Ok(x) => x,
        Err(e) => {
            assert forall|x: (Addr, u8)| #![auto] is_prefix(enc_weight(x), rest) implies false by {
                assert(enc_weight(x).len() == 33);
            }
            return Err(e);
        },
    };
    let (w, p2) = match read_u8(bytes, p1) {
        Ok(x) => x,
        Err(e) => {
            assert forall|x: (Addr, u8)| #![auto] is_prefix(enc_weight(x), rest) implies false by {
                assert(enc_weight(x).len() == 33);
            }
            return Err(e);
        },
    };
    let e = (a, w);
    assert(bytes@.subrange(pos as int, p2 as int) =~= enc_weight(e));
    Ok((e, p2))
}

fn read_parameter(bytes: &[u8], pos: usize) -> (r: Result<(Parameter, usize), CodecError>)
    requires
        pos <= bytes@.len(),
    ensures
        match r {
            Ok((e, p)) => pos <= p <= bytes@.len() && bytes@.subrange(pos as int, p as int) == enc_parameter(e)
                && fits(e.name@.len()),
            Err(_) => true,
        },
        forall|x: Parameter| #![auto] fits(x.name@.len()) && is_prefix(enc_parameter(x), bytes@.subrange(pos as int, bytes@.len() as int))
            ==> (r matches Ok((w, p)) && w.name@ == x.name@ && w.cl_type == x.cl_type),
{
    let ghost rest = bytes@.subrange(pos as int, bytes@.len() as int);
    let (name, p1) = match read_bytes(bytes, pos) {
        Ok(x) => x,
        Err(e) => {
            assert forall|x: Parameter| #![auto] fits(x.name@.len()) && is_prefix(enc_parameter(x), rest) implies false by {
                assert(enc_parameter(x).subrange(0, enc_bytes(x.name@).len() as int) =~= enc_bytes(x.name@));
                lemma_prefix_shift(enc_parameter(x), rest, 0, enc_bytes(x.name@));
                assert(rest.subrange(0, rest.len() as int) =~= rest);
            }
            return Err(e);
        },
    };
    proof {
        assert forall|x: Parameter| #![auto] fits(x.name@.len()) && is_prefix(enc_parameter(x), rest)
            implies x.name@ == name@ && is_prefix(enc_cltype(x.cl_type), bytes@.subrange(p1 as int, bytes@.len() as int)) by {
            let lx = enc_bytes(x.name@).len() as int;
            assert(enc_parameter(x).subrange(0, lx) =~= enc_bytes(x.name@));
            lemma_prefix_shift(enc_parameter(x), rest, 0, enc_bytes(x.name@));
            assert(rest.subrange(0, rest.len() as int) =~= rest);
            assert(rest.subrange(0, (p1 - pos) as int) =~= enc_bytes(name@));
            lemma_bytes_prefix_unique(x.name@, name@, rest);
            assert(enc_parameter(x).subrange(lx, lx + enc_cltype(x.cl_type).len()) =~= enc_cltype(x.cl_type));
            lemma_prefix_shift(enc_parameter(x), rest, lx, enc_cltype(x.cl_type));
            assert(rest.subrange(lx, rest.len() as int) =~= bytes@.subrange(p1 as int, bytes@.len() as int));
        }
    }
    let (t, p2) = match read_cltype(bytes, p1) {
        Ok(x) => x,
        Err(e) => {
            assert forall|x: Parameter| #![auto] fits(x.name@.len()) && is_prefix(enc_parameter(x), rest) implies false by {
                assert(is_prefix(enc_cltype(x.cl_type), bytes@.subrange(p1 as int, bytes@.len() as int)));
            }
            return Err(e);
        },
    };
    let e = Parameter { name, cl_type: t };
    assert(bytes@.subrange(pos as int, p2 as int) =~= enc_parameter(e));
    proof {
        assert forall|x: Parameter| #![auto] fits(x.name@.len()) && is_prefix(enc_parameter(x), rest)
            implies e.name@ == x.name@ && e.cl_type == x.cl_type by {
            let rt = bytes@.subrange(p1 as int, bytes@.len() as int);
            assert(is_prefix(enc_cltype(x.cl_type), rt));
            assert(rt.subrange(0, (p2 - p1) as int) =~= bytes@.subrange(p1 as int, p2 as int));
            lemma_cltype_prefix_unique(x.cl_type, t, rt);
        }
    }
    Ok((e, p2))
}

fn read_name(bytes: &[u8], pos: usize) -> (r: Result<(Name, usize), CodecError>)
    requires
        pos <= bytes@.len(),
    ensures
        match r {
            Ok((e, p)) => pos <= p <= bytes@.len() && bytes@.subrange(pos as int, p as int) == enc_name(e)
                && fits(e@.len()),
            Err(_) => true,
        },
        forall|x: Name| #![auto] fits(x@.len()) && is_prefix(enc_name(x), bytes@.subrange(pos as int, bytes@.len() as int))
            ==> (r matches Ok((w, p)) && w@ == x@),
{
    let ghost rest = bytes@.subrange(pos as int, bytes@.len() as int);
    let r = read_bytes(bytes, pos);
    proof {
        if let Ok((ref w, p)) = r {
            assert forall|x: Name| #![auto] fits(x@.len()) && is_prefix(enc_name(x), rest) implies w@ == x@ by {
                assert(rest.subrange(0, (p - pos) as int) =~= enc_bytes(w@));
                lemma_bytes_prefix_unique(x@, w@, rest);
            }
        }
    }
    r
}

/// Two versions whose encodings both begin a sequence are the same.
pub proof fn lemma_version_prefix_unique(a: ContractVersionKey, b: ContractVersionKey, s: Seq<u8>)
    requires
        is_prefix(enc_version(a), s),
        is_prefix(enc_version(b), s),
    ensures
        a == b,
{
    lemma_pow256_values();
    crate::bytesrepr::lemma_le_bytes_len(a.0 as nat, 4);
    crate::bytesrepr::lemma_le_bytes_len(a.1 as nat, 4);
    crate::bytesrepr::lemma_le_bytes_len(b.0 as nat, 4);
    crate::bytesrepr::lemma_le_bytes_len(b.1 as nat, 4);
    assert(enc_u32(a.0) =~= s.subrange(0, 4));
    assert(enc_u32(b.0) =~= s.subrange(0, 4));
    assert(enc_version(a).subrange(4, 8) =~= enc_u32(a.1));
    assert(enc_version(b).subrange(4, 8) =~= enc_u32(b.1));
    assert(s.subrange(0, 8).subrange(4, 8) =~= s.subrange(4, 8));
    assert(enc_u32(a.1) =~= s.subrange(4, 8));
    assert(enc_u32(b.1) =~= s.subrange(4, 8));
    lemma_le_injective(a.0 as nat, b.0 as nat, 4);
    lemma_le_injective(a.1 as nat, b.1 as nat, 4);
}

fn read_version(bytes: &[u8], pos: usize) -> (r: Result<(ContractVersionKey, usize), CodecError>)
    requires
        pos <= bytes@.len(),
    ensures
        match r {
            Ok((e, p)) => pos <= p <= bytes@.len() && bytes@.subrange(pos as int, p as int) == enc_version(e),
            Err(_) => true,
        },
        forall|e: ContractVersionKey| #![auto] is_prefix(enc_version(e), bytes@.subrange(pos as int, bytes@.len() as int)) ==> r is Ok,
{
    proof {
        lemma_pow256_values();
    }
    let (a, p1) = match read_u32(bytes, pos) {
        Ok(x) => x,
        Err(e) => {
            assert forall|x: ContractVersionKey| #![auto] is_prefix(enc_version(x), bytes@.subrange(pos as int, bytes@.len() as int)) implies false by {
                crate::bytesrepr::lemma_le_bytes_len(x.0 as nat, 4);
                crate::bytesrepr::lemma_le_bytes_len(x.1 as nat, 4);
            }
            return Err(e);
        },
    };
    let (b, p2) = match read_u32(bytes, p1) {
        Ok(x) => x,
        Err(e) => {
            assert forall|x: ContractVersionKey| #![auto] is_prefix(enc_version(x), bytes@.subrange(pos as int, bytes@.len() as int)) implies false by {
                crate::bytesrepr::lemma_le_bytes_len(x.0 as nat, 4);
                crate::bytesrepr::lemma_le_bytes_len(x.1 as nat, 4);
            }
            return Err(e);
        },
    };
    assert(bytes@.subrange(pos as int, p2 as int) =~= enc_version((a, b)));
    Ok(((a, b), p2))
}

/// Two version entries whose encodings both begin a sequence are the same.
pub proof fn lemma_version_entry_prefix_unique(a: (ContractVersionKey, Addr), b: (ContractVersionKey, Addr), s: Seq<u8>)
    requires
        is_prefix(enc_version_entry(a), s),
        is_prefix(enc_version_entry(b), s),
    ensures
        a == b,
{
    lemma_pow256_values();
    crate::bytesrepr::lemma_le_bytes_len(a.0.0 as nat, 4);
    crate::bytesrepr::lemma_le_bytes_len(a.0.1 as nat, 4);
    crate::bytesrepr::lemma_le_bytes_len(b.0.0 as nat, 4);
    crate::bytesrepr::lemma_le_bytes_len(b.0.1 as nat, 4);
    assert(enc_version_entry(a).subrange(0, 8) =~= enc_version(a.0));
    assert(enc_version_entry(b).subrange(0, 8) =~= enc_version(b.0));
    lemma_prefix_shift(enc_version_entry(a), s, 0, enc_version(a.0));
    lemma_prefix_shift(enc_version_entry(b), s, 0, enc_version(b.0));
    assert(s.subrange(0, s.len() as int) =~= s);
    lemma_version_prefix_unique(a.0, b.0, s);
    assert(a.1@ =~= enc_version_entry(a).subrange(8, 40));
    assert(b.1@ =~= enc_version_entry(b).subrange(8, 40));
    assert(a.1@ =~= s.subrange(8, 40));
    assert(b.1@ =~= s.subrange(8, 40));
    crate::bytesrepr::lemma_addr_ext(a.1, b.1);
}

fn read_version_entry(bytes: &[u8], pos: usize) -> (r: Result<((ContractVersionKey, Addr), usize), CodecError>)
    requires
        pos <= bytes@.len(),
    ensures
        match r {
            Ok((e, p)) => pos <= p <= bytes@.len() && bytes@.subrange(pos as int, p as int) == enc_version_entry(e),
            Err(_) => true,
        },
        forall|e: (ContractVersionKey, Addr)| #![auto] is_prefix(enc_version_entry(e), bytes@.subrange(pos as int, bytes@.len() as int)) ==> r is Ok,
{
    let ghost rest = bytes@.subrange(pos as int, bytes@.len() as int);
    let (v, p1) = match read_version(bytes, pos) {
        Ok(x) => x,
        Err(e) => {
            assert forall|x: (ContractVersionKey, Addr)| #![auto] is_prefix(enc_version_entry(x), rest) implies false by {
                lemma_pow256_values();
                crate::bytesrepr::lemma_le_bytes_len(x.0.0 as nat, 4);
                crate::bytesrepr::lemma_le_bytes_len(x.0.1 as nat, 4);
                assert(enc_version_entry(x).subrange(0, 8) =~= enc_version(x.0));
                lemma_prefix_shift(enc_version_entry(x), rest, 0, enc_version(x.0));
                assert(rest.subrange(0, rest.len() as int) =~= rest);
            }
            return Err(e);
        },
    };
    let (h, p2) = match read_addr(bytes, p1) {
        Ok(x) => x,
        Err(e) => {
            assert forall|x: (ContractVersionKey, Addr)| #![auto] is_prefix(enc_version_entry(x), rest) implies false by {
                lemma_pow256_values();
                crate::bytesrepr::lemma_le_bytes_len(x.0.0 as nat, 4);
                crate::bytesrepr::lemma_le_bytes_len(x.0.1 as nat, 4);
                crate::bytesrepr::lemma_le_bytes_len(v.0 as nat, 4);
                crate::bytesrepr::lemma_le_bytes_len(v.1 as nat, 4);
                assert(x.1@.len() == 32);
                assert(enc_version_entry(x).len() == 40);
                assert(enc_version(v).len() == 8);
                assert(bytes@.subrange(pos as int, p1 as int).len() == p1 - pos);
                assert(p1 == pos + 8);
            }
            return Err(e);
        },
    };
    assert(bytes@.subrange(pos as int, p2 as int) =~= enc_version_entry((v, h)));
    Ok(((v, h), p2))
}

#[verifier::rlimit(60)]
fn read_named_keys(bytes: &[u8], pos: usize) -> (r: Result<(Vec<NamedKey>, usize), CodecError>)
    requires
        pos <= bytes@.len(),
    ensures
        match r {
            Ok((v, p)) => pos <= p <= bytes@.len() && bytes@.subrange(pos as int, p as int) == enc_list(v@, |e: NamedKey| enc_named_key(e))
                && named_keys_fit(v@),
            Err(_) => true,
        },
        forall|s: Seq<NamedKey>| #![auto] named_keys_valid(s) && is_prefix(enc_list(s, |e: NamedKey| enc_named_key(e)), bytes@.subrange(pos as int, bytes@.len() as int))
            ==> (r matches Ok((v, p)) && named_keys_same(v@, s)),
{
    let ghost f = |e: NamedKey| enc_named_key(e);
    let ghost rest = bytes@.subrange(pos as int, bytes@.len() as int);
    proof {
        lemma_pow256_values();
    }
    let (n, p1) = match read_u32(bytes, pos) {
        Ok(x) => x,
        Err(e) => {
            assert forall|s: Seq<NamedKey>| #![auto] named_keys_valid(s) && is_prefix(enc_list(s, f), rest) implies false by {
                crate::bytesrepr::lemma_le_bytes_len(s.len() as u32 as nat, 4);
            }
            return Err(e);
        },
    };
    assert(rest.subrange(0, 4) =~= bytes@.subrange(pos as int, p1 as int));
    let mut out: Vec<NamedKey> = Vec::new();
    let mut cur: usize = p1;
    let mut i: u32 = 0;
    assert(bytes@.subrange(p1 as int, p1 as int) =~= enc_items(out@, f));
    proof {
        assert forall|s: Seq<NamedKey>| #![auto] named_keys_valid(s) && is_prefix(enc_list(s, f), rest)
            implies s.len() == n && named_keys_same(out@, s.subrange(0, 0)) by {
            lemma_list_len(s, f, rest, n);
        }
    }
    while i < n
        invariant
            p1 <= cur <= bytes@.len(),
            pos + 4 == p1,
            bytes@.subrange(pos as int, p1 as int) == enc_u32(n),
            rest == bytes@.subrange(pos as int, bytes@.len() as int),
            out@.len() == i,
            i <= n,
            f == (|e: NamedKey| enc_named_key(e)),
            bytes@.subrange(p1 as int, cur as int) == enc_items(out@, f),
            forall|j: int| 0 <= j < out@.len() ==> fits(#[trigger] out@[j].0@.len()),
            forall|s: Seq<NamedKey>| #![auto] named_keys_valid(s) && is_prefix(enc_list(s, f), rest)
                ==> s.len() == n && named_keys_same(out@, s.subrange(0, i as int)),
        decreases n - i,
    {
        let ghost here = bytes@.subrange(cur as int, bytes@.len() as int);
        proof {
            assert forall|s: Seq<NamedKey>| #![auto] named_keys_valid(s) && is_prefix(enc_list(s, f), rest)
                implies is_prefix(f(s[i as int]), here) by {
                lemma_list_item_prefix(s, f, rest, i as int);
                lemma_named_keys_same_enc(out@, s.subrange(0, i as int));
                assert(rest.subrange(4 + enc_items(s.subrange(0, i as int), f).len() as int, rest.len() as int) =~= here);
            }
        }
        let (e, q) = match read_named_key(bytes, cur) {
            Ok(x) => x,
            Err(err) => {
                assert forall|s: Seq<NamedKey>| #![auto] named_keys_valid(s) && is_prefix(enc_list(s, f), rest) implies false by {
                    assert(is_prefix(f(s[i as int]), here));
                    assert(key_valid(s[i as int].1));
                    assert(fits(s[i as int].0@.len()));
                }
                return Err(err);
            },
        };
        let ghost before = out@;
        out.push(e);
        assert(out@.drop_last() =~= before);
        proof {
            assert forall|s: Seq<NamedKey>| #![auto] named_keys_valid(s) && is_prefix(enc_list(s, f), rest)
                implies s.len() == n && named_keys_same(out@, s.subrange(0, i + 1)) by {
                assert(is_prefix(f(s[i as int]), here));
                assert(here.subrange(0, (q - cur) as int) =~= bytes@.subrange(cur as int, q as int));
                lemma_named_key_prefix_unique(e, s[i as int], here);
                assert(named_keys_same(before, s.subrange(0, i as int)));
                assert forall|j: int| 0 <= j < out@.len() implies (#[trigger] out@[j]).0@ == s.subrange(0, i + 1)[j].0@
                    && out@[j].1 == s.subrange(0, i + 1)[j].1 by {
                    if j < i {
                        assert(out@[j] == before[j]);
                        assert(s.subrange(0, i + 1)[j] == s.subrange(0, i as int)[j]);
                    }
                }
            }
        }
        assert(bytes@.subrange(p1 as int, q as int) =~= bytes@.subrange(p1 as int, cur as int) + bytes@.subrange(cur as int, q as int));
        cur = q;
        i = i + 1;
    }
    assert(bytes@.subrange(pos as int, cur as int) =~= bytes@.subrange(pos as int, p1 as int) + bytes@.subrange(p1 as int, cur as int));
    proof {
        assert forall|s: Seq<NamedKey>| #![auto] named_keys_valid(s) && is_prefix(enc_list(s, f), rest)
            implies named_keys_same(out@, s) by {
            assert(s.subrange(0, n as int) =~= s);
        }
    }
    Ok((out, cur))
}

#[verifier::rlimit(60)]
fn read_weights(bytes: &[u8], pos: usize) -> (r: Result<(Vec<(Addr, u8)>, usize), CodecError>)
    requires
        pos <= bytes@.len(),
    ensures
        match r {
            Ok((v, p)) => pos <= p <= bytes@.len() && bytes@.subrange(pos as int, p as int) == enc_list(v@, |e: (Addr, u8)| enc_weight(e))
                && fits(v@.len()),
            Err(_) => true,
        },
        forall|s: Seq<(Addr, u8)>| #![auto] fits(s.len()) && is_prefix(enc_list(s, |e: (Addr, u8)| enc_weight(e)), bytes@.subrange(pos as int, bytes@.len() as int))
            ==> (r matches Ok((v, p)) && v@ == s),
{
    let ghost f = |e: (Addr, u8)| enc_weight(e);
    let ghost rest = bytes@.subrange(pos as int, bytes@.len() as int);
    proof {
        lemma_pow256_values();
    }
    let (n, p1) = match read_u32(bytes, pos) {
        Ok(x) => x,
        Err(e) => {
            assert forall|s: Seq<(Addr, u8)>| #![auto] fits(s.len()) && is_prefix(enc_list(s, f), rest) implies false by {
                crate::bytesrepr::lemma_le_bytes_len(s.len() as u32 as nat, 4);
            }
            return Err(e);
        },
    };
    assert(rest.subrange(0, 4) =~= bytes@.subrange(pos as int, p1 as int));
    let mut out: Vec<(Addr, u8)> = Vec::new();
    let mut cur: usize = p1;
    let mut i: u32 = 0;
    assert(bytes@.subrange(p1 as int, p1 as int) =~= enc_items(out@, f));
    proof {
        assert forall|s: Seq<(Addr, u8)>| #![auto] fits(s.len()) && is_prefix(enc_list(s, f), rest)
            implies s.len() == n && out@ == s.subrange(0, 0) by {
            lemma_list_len(s, f, rest, n);
            assert(out@ =~= s.subrange(0, 0));
        }
    }
    while i < n
        invariant
            p1 <= cur <= bytes@.len(),
            pos + 4 == p1,
            bytes@.subrange(pos as int, p1 as int) == enc_u32(n),
            rest == bytes@.subrange(pos as int, bytes@.len() as int),
            out@.len() == i,
            i <= n,
            f == (|e: (Addr, u8)| enc_weight(e)),
            bytes@.subrange(p1 as int, cur as int) == enc_items(out@, f),
            forall|s: Seq<(Addr, u8)>| #![auto] fits(s.len()) && is_prefix(enc_list(s, f), rest)
                ==> s.len() == n && out@ == s.subrange(0, i as int),
        decreases n - i,
    {
        let ghost here = bytes@.subrange(cur as int, bytes@.len() as int);
        proof {
            assert forall|s: Seq<(Addr, u8)>| #![auto] fits(s.len()) && is_prefix(enc_list(s, f), rest)
                implies is_prefix(f(s[i as int]), here) by {
                lemma_list_item_prefix(s, f, rest, i as int);
                assert(rest.subrange(4 + enc_items(s.subrange(0, i as int), f).len() as int, rest.len() as int) =~= here);
            }
        }
        let (e, q) = match read_weight(bytes, cur) {
            Ok(x) => x,
            Err(err) => {
                assert forall|s: Seq<(Addr, u8)>| #![auto] fits(s.len()) && is_prefix(enc_list(s, f), rest) implies false by {
                    assert(is_prefix(f(s[i as int]), here));
                }
                return Err(err);
            },
        };
        let ghost before = out@;
        out.push(e);
        assert(out@.drop_last() =~= before);
        proof {
            assert forall|s: Seq<(Addr, u8)>| #![auto] fits(s.len()) && is_prefix(enc_list(s, f), rest)
                implies s.len() == n && out@ == s.subrange(0, i + 1) by {
                assert(is_prefix(f(s[i as int]), here));
                assert(here.subrange(0, (q - cur) as int) =~= bytes@.subrange(cur as int, q as int));
                lemma_weight_prefix_unique(e, s[i as int], here);
                assert(out@ =~= s.subrange(0, i + 1));
            }
        }
        assert(bytes@.subrange(p1 as int, q as int) =~= bytes@.subrange(p1 as int, cur as int) + bytes@.subrange(cur as int, q as int));
        cur = q;
        i = i + 1;
    }
    assert(bytes@.subrange(pos as int, cur as int) =~= bytes@.subrange(pos as int, p1 as int) + bytes@.subrange(p1 as int, cur as int));
    proof {
        assert forall|s: Seq<(Addr, u8)>| #![auto] fits(s.len()) && is_prefix(enc_list(s, f), rest)
            implies out@ == s by {
            assert(s.subrange(0, n as int) =~= s);
        }
    }
    Ok((out, cur))
}

#[verifier::spinoff_prover]
#[verifier::rlimit(60)]
fn read_parameters(bytes: &[u8], pos: usize) -> (r: Result<(Vec<Parameter>, usize), CodecError>)
    requires
        pos <= bytes@.len(),
    ensures
        match r {
            Ok((v, p)) => pos <= p <= bytes@.len() && bytes@.subrange(pos as int, p as int) == enc_list(v@, |e: Parameter| enc_parameter(e))
                && fits(v@.len()) && forall|j: int| 0 <= j < v@.len() ==> fits(#[trigger] v@[j].name@.len()),
            Err(_) => true,
        },
        forall|s: Seq<Parameter>| #![auto] fits(s.len()) && (forall|j: int| 0 <= j < s.len() ==> fits(s[j].name@.len())) && is_prefix(enc_list(s, |e: Parameter| enc_parameter(e)), bytes@.subrange(pos as int, bytes@.len() as int))
            ==> (r matches Ok((v, p)) && v@.len() == s.len() && (forall|j: int| 0 <= j < v@.len() ==> v@[j].name@ == s[j].name@ && v@[j].cl_type == s[j].cl_type)),
{
    let ghost f = |e: Parameter| enc_parameter(e);
    let ghost rest = bytes@.subrange(pos as int, bytes@.len() as int);
    proof {
        lemma_pow256_values();
    }
    let (n, p1) = match read_u32(bytes, pos) {
        Ok(x) => x,
        Err(e) => {
            assert forall|s: Seq<Parameter>| #![auto] fits(s.len()) && (forall|j: int| 0 <= j < s.len() ==> fits(s[j].name@.len())) && is_prefix(enc_list(s, f), rest) implies false by {
                crate::bytesrepr::lemma_le_bytes_len(s.len() as u32 as nat, 4);
            }
            return Err(e);
        },
    };
    assert(rest.subrange(0, 4) =~= bytes@.subrange(pos as int, p1 as int));
    let mut out: Vec<Parameter> = Vec::new();
    let mut cur: usize = p1;
    let mut i: u32 = 0;
    assert(bytes@.subrange(p1 as int, p1 as int) =~= enc_items(out@, f));
    proof {
        assert forall|s: Seq<Parameter>| #![auto] fits(s.len()) && (forall|j: int| 0 <= j < s.len() ==> fits(s[j].name@.len())) && is_prefix(enc_list(s, f), rest)
            implies s.len() == n && out@.len() == s.subrange(0, 0).len() && (forall|j: int| 0 <= j < out@.len() ==> out@[j].name@ == s.subrange(0, 0)[j].name@ && out@[j].cl_type == s.subrange(0, 0)[j].cl_type) by {
            lemma_list_len(s, f, rest, n);
        }
    }
    while i < n
        invariant
            p1 <= cur <= bytes@.len(),
            pos + 4 == p1,
            bytes@.subrange(pos as int, p1 as int) == enc_u32(n),
            rest == bytes@.subrange(pos as int, bytes@.len() as int),
            out@.len() == i,
            i <= n,
            f == (|e: Parameter| enc_parameter(e)),
            bytes@.subrange(p1 as int, cur as int) == enc_items(out@, f),
            forall|j: int| 0 <= j < out@.len() ==> fits(#[trigger] out@[j].name@.len()),
            forall|s: Seq<Parameter>| #![auto] fits(s.len()) && (forall|j: int| 0 <= j < s.len() ==> fits(s[j].name@.len())) && is_prefix(enc_list(s, f), rest)
                ==> s.len() == n && out@.len() == s.subrange(0, i as int).len() && (forall|j: int| 0 <= j < out@.len() ==> out@[j].name@ == s.subrange(0, i as int)[j].name@ && out@[j].cl_type == s.subrange(0, i as int)[j].cl_type),
        decreases n - i,
    {
        let ghost here = bytes@.subrange(cur as int, bytes@.len() as int);
        proof {
            assert forall|s: Seq<Parameter>| #![auto] fits(s.len()) && (forall|j: int| 0 <= j < s.len() ==> fits(s[j].name@.len())) && is_prefix(enc_list(s, f), rest)
                implies is_prefix(f(s[i as int]), here) by {
                lemma_list_item_prefix(s, f, rest, i as int);
                lemma_params_same_enc(out@, s.subrange(0, i as int));
                assert(rest.subrange(4 + enc_items(s.subrange(0, i as int), f).len() as int, rest.len() as int) =~= here);
            }
        }
        let (e, q) = match read_parameter(bytes, cur) {
            Ok(x) => x,
            Err(err) => {
                assert forall|s: Seq<Parameter>| #![auto] fits(s.len()) && (forall|j: int| 0 <= j < s.len() ==> fits(s[j].name@.len())) && is_prefix(enc_list(s, f), rest) implies false by {
                    assert(is_prefix(f(s[i as int]), here));
                    assert(fits(s[i as int].name@.len()));
                }
                return Err(err);
            },
        };
        let ghost before = out@;
        out.push(e);
        assert(out@.drop_last() =~= before);
        proof {
            assert forall|s: Seq<Parameter>| #![auto] fits(s.len()) && (forall|j: int| 0 <= j < s.len() ==> fits(s[j].name@.len())) && is_prefix(enc_list(s, f), rest)
                implies s.len() == n && out@.len() == s.subrange(0, i + 1).len() && (forall|j: int| 0 <= j < out@.len() ==> out@[j].name@ == s.subrange(0, i + 1)[j].name@ && out@[j].cl_type == s.subrange(0, i + 1)[j].cl_type) by {
                assert(is_prefix(f(s[i as int]), here));
                assert(fits(s[i as int].name@.len()));
                assert(before.len() == s.subrange(0, i as int).len() && (forall|j: int| 0 <= j < before.len() ==> before[j].name@ == s.subrange(0, i as int)[j].name@ && before[j].cl_type == s.subrange(0, i as int)[j].cl_type));
                assert forall|j: int| 0 <= j < out@.len() implies out@[j].name@ == s.subrange(0, i + 1)[j].name@ && out@[j].cl_type == s.subrange(0, i + 1)[j].cl_type by {
                    if j < i {
                        assert(out@[j] == before[j]);
                        assert(s.subrange(0, i + 1)[j] == s.subrange(0, i as int)[j]);
                    }
                }
            }
        }
        assert(bytes@.subrange(p1 as int, q as int) =~= bytes@.subrange(p1 as int, cur as int) + bytes@.subrange(cur as int, q as int));
        cur = q;
        i = i + 1;
    }
    assert(bytes@.subrange(pos as int, cur as int) =~= bytes@.subrange(pos as int, p1 as int) + bytes@.subrange(p1 as int, cur as int));
    proof {
        assert forall|s: Seq<Parameter>| #![auto] fits(s.len()) && (forall|j: int| 0 <= j < s.len() ==> fits(s[j].name@.len())) && is_prefix(enc_list(s, f), rest)
            implies out@.len() == s.len() && (forall|j: int| 0 <= j < out@.len() ==> out@[j].name@ == s[j].name@ && out@[j].cl_type == s[j].cl_type) by {
            assert(s.subrange(0, n as int) =~= s);
        }
    }
    Ok((out, cur))
}

#[verifier::spinoff_prover]
#[verifier::rlimit(60)]
fn read_names(bytes: &[u8], pos: usize) -> (r: Result<(Vec<Name>, usize), CodecError>)
    requires
        pos <= bytes@.len(),
    ensures
        match r {
            Ok((v, p)) => pos <= p <= bytes@.len() && bytes@.subrange(pos as int, p as int) == enc_list(v@, |e: Name| enc_name(e))
                && fits(v@.len()) && forall|j: int| 0 <= j < v@.len() ==> fits(#[trigger] v@[j]@.len()),
            Err(_) => true,
        },
        forall|s: Seq<Name>| #![auto] fits(s.len()) && (forall|j: int| 0 <= j < s.len() ==> fits(s[j]@.len())) && is_prefix(enc_list(s, |e: Name| enc_name(e)), bytes@.subrange(pos as int, bytes@.len() as int))
            ==> (r matches Ok((v, p)) && v@.len() == s.len() && (forall|j: int| 0 <= j < v@.len() ==> v@[j]@ == s[j]@)),
{
    let ghost f = |e: Name| enc_name(e);
    let ghost rest = bytes@.subrange(pos as int, bytes@.len() as int);
    proof {
        lemma_pow256_values();
    }
    let (n, p1) = match read_u32(bytes, pos) {
        Ok(x) => x,
        Err(e) => {
            assert forall|s: Seq<Name>| #![auto] fits(s.len()) && (forall|j: int| 0 <= j < s.len() ==> fits(s[j]@.len())) && is_prefix(enc_list(s, f), rest) implies false by {
                crate::bytesrepr::lemma_le_bytes_len(s.len() as u32 as nat, 4);
            }
            return Err(e);
        },
    };
    assert(rest.subrange(0, 4) =~= bytes@.subrange(pos as int, p1 as int));
    let mut out: Vec<Name> = Vec::new();
    let mut cur: usize = p1;
    let mut i: u32 = 0;
    assert(bytes@.subrange(p1 as int, p1 as int) =~= enc_items(out@, f));
    proof {
        assert forall|s: Seq<Name>| #![auto] fits(s.len()) && (forall|j: int| 0 <= j < s.len() ==> fits(s[j]@.len())) && is_prefix(enc_list(s, f), rest)
            implies s.len() == n && out@.len() == s.subrange(0, 0).len() && (forall|j: int| 0 <= j < out@.len() ==> out@[j]@ == s.subrange(0, 0)[j]@) by {
            lemma_list_len(s, f, rest, n);
        }
    }
    while i < n
        invariant
            p1 <= cur <= bytes@.len(),
            pos + 4 == p1,
            bytes@.subrange(pos as int, p1 as int) == enc_u32(n),
            rest == bytes@.subrange(pos as int, bytes@.len() as int),
            out@.len() == i,
            i <= n,
            f == (|e: Name| enc_name(e)),
            bytes@.subrange(p1 as int, cur as int) == enc_items(out@, f),
            forall|j: int| 0 <= j < out@.len() ==> fits(#[trigger] out@[j]@.len()),
            forall|s: Seq<Name>| #![auto] fits(s.len()) && (forall|j: int| 0 <= j < s.len() ==> fits(s[j]@.len())) && is_prefix(enc_list(s, f), rest)
                ==> s.len() == n && out@.len() == s.subrange(0, i as int).len() && (forall|j: int| 0 <= j < out@.len() ==> out@[j]@ == s.subrange(0, i as int)[j]@),
        decreases n - i,
    {
        let ghost here = bytes@.subrange(cur as int, bytes@.len() as int);
        proof {
            assert forall|s: Seq<Name>| #![auto] fits(s.len()) && (forall|j: int| 0 <= j < s.len() ==> fits(s[j]@.len())) && is_prefix(enc_list(s, f), rest)
                implies is_prefix(f(s[i as int]), here) by {
                lemma_list_item_prefix(s, f, rest, i as int);
                lemma_names_same_enc(out@, s.subrange(0, i as int));
                assert(rest.subrange(4 + enc_items(s.subrange(0, i as int), f).len() as int, rest.len() as int) =~= here);
            }
        }
        let (e, q) = match read_name(bytes, cur) {
            Ok(x) => x,
            Err(err) => {
                assert forall|s: Seq<Name>| #![auto] fits(s.len()) && (forall|j: int| 0 <= j < s.len() ==> fits(s[j]@.len())) && is_prefix(enc_list(s, f), rest) implies false by {
                    assert(is_prefix(f(s[i as int]), here));
                    assert(fits(s[i as int]@.len()));
                }
                return Err(err);
            },
        };
        let ghost before = out@;
        out.push(e);
        assert(out@.drop_last() =~= before);
        proof {
            assert forall|s: Seq<Name>| #![auto] fits(s.len()) && (forall|j: int| 0 <= j < s.len() ==> fits(s[j]@.len())) && is_prefix(enc_list(s, f), rest)
                implies s.len() == n && out@.len() == s.subrange(0, i + 1).len() && (forall|j: int| 0 <= j < out@.len() ==> out@[j]@ == s.subrange(0, i + 1)[j]@) by {
                assert(is_prefix(f(s[i as int]), here));
                assert(fits(s[i as int]@.len()));
                assert(before.len() == s.subrange(0, i as int).len() && (forall|j: int| 0 <= j < before.len() ==> before[j]@ == s.subrange(0, i as int)[j]@));
                assert forall|j: int| 0 <= j < out@.len() implies out@[j]@ == s.subrange(0, i + 1)[j]@ by {
                    if j < i {
                        assert(out@[j] == before[j]);
                        assert(s.subrange(0, i + 1)[j] == s.subrange(0, i as int)[j]);
                    }
                }
            }
        }
        assert(bytes@.subrange(p1 as int, q as int) =~= bytes@.subrange(p1 as int, cur as int) + bytes@.subrange(cur as int, q as int));
        cur = q;
        i = i + 1;
    }
    assert(bytes@.subrange(pos as int, cur as int) =~= bytes@.subrange(pos as int, p1 as int) + bytes@.subrange(p1 as int, cur as int));
    proof {
        assert forall|s: Seq<Name>| #![auto] fits(s.len()) && (forall|j: int| 0 <= j < s.len() ==> fits(s[j]@.len())) && is_prefix(enc_list(s, f), rest)
            implies out@.len() == s.len() && (forall|j: int| 0 <= j < out@.len() ==> out@[j]@ == s[j]@) by {
            assert(s.subrange(0, n as int) =~= s);
        }
    }
    Ok((out, cur))
}

fn read_urefs(bytes: &[u8], pos: usize) -> (r: Result<(Vec<URef>, usize), CodecError>)
    requires
        pos <= bytes@.len(),
    ensures
        match r {
            Ok((v, p)) => pos <= p <= bytes@.len() && bytes@.subrange(pos as int, p as int) == enc_list(v@, |e: URef| enc_uref(e))
                && fits(v@.len()) ,
            Err(_) => true,
        },
        forall|s: Seq<URef>| #![auto] fits(s.len()) && (forall|j: int| 0 <= j < s.len() ==> uref_valid(s[j])) && is_prefix(enc_list(s, |e: URef| enc_uref(e)), bytes@.subrange(pos as int, bytes@.len() as int))
            ==> (r matches Ok((v, p)) && v@ == s),
{
    let ghost f = |e: URef| enc_uref(e);
    let ghost rest = bytes@.subrange(pos as int, bytes@.len() as int);
    proof {
        lemma_pow256_values();
    }
    let (n, p1) = match read_u32(bytes, pos) {
        Ok(x) => x,
        Err(e) => {
            assert forall|s: Seq<URef>| #![auto] fits(s.len()) && (forall|j: int| 0 <= j < s.len() ==> uref_valid(s[j])) && is_prefix(enc_list(s, f), rest) implies false by {
                crate::bytesrepr::lemma_le_bytes_len(s.len() as u32 as nat, 4);
            }
            return Err(e);
        },
    };
    assert(rest.subrange(0, 4) =~= bytes@.subrange(pos as int, p1 as int));
    let mut out: Vec<URef> = Vec::new();
    let mut cur: usize = p1;
    let mut i: u32 = 0;
    assert(bytes@.subrange(p1 as int, p1 as int) =~= enc_items(out@, f));
    proof {
        assert forall|s: Seq<URef>| #![auto] fits(s.len()) && (forall|j: int| 0 <= j < s.len() ==> uref_valid(s[j])) && is_prefix(enc_list(s, f), rest)
            implies s.len() == n && out@ == s.subrange(0, 0) by {
            lemma_list_len(s, f, rest, n);
            assert(out@ =~= s.subrange(0, 0));
        }
    }
    while i < n
        invariant
            p1 <= cur <= bytes@.len(),
            pos + 4 == p1,
            bytes@.subrange(pos as int, p1 as int) == enc_u32(n),
            rest == bytes@.subrange(pos as int, bytes@.len() as int),
            out@.len() == i,
            i <= n,
            f == (|e: URef| enc_uref(e)),
            bytes@.subrange(p1 as int, cur as int) == enc_items(out@, f),
            forall|s: Seq<URef>| #![auto] fits(s.len()) && (forall|j: int| 0 <= j < s.len() ==> uref_valid(s[j])) && is_prefix(enc_list(s, f), rest)
                ==> s.len() == n && out@ == s.subrange(0, i as int),
        decreases n - i,
    {
        let ghost here = bytes@.subrange(cur as int, bytes@.len() as int);
        proof {
            assert forall|s: Seq<URef>| #![auto] fits(s.len()) && (forall|j: int| 0 <= j < s.len() ==> uref_valid(s[j])) && is_prefix(enc_list(s, f), rest)
                implies is_prefix(f(s[i as int]), here) by {
                lemma_list_item_prefix(s, f, rest, i as int);
                
                assert(rest.subrange(4 + enc_items(s.subrange(0, i as int), f).len() as int, rest.len() as int) =~= here);
            }
        }
        let (e, q) = match read_uref_at(bytes, cur) {
            Ok(x) => x,
            Err(err) => {
                assert forall|s: Seq<URef>| #![auto] fits(s.len()) && (forall|j: int| 0 <= j < s.len() ==> uref_valid(s[j])) && is_prefix(enc_list(s, f), rest) implies false by {
                    assert(is_prefix(f(s[i as int]), here));
                    assert(uref_valid(s[i as int]));
                }
                return Err(err);
            },
        };
        let ghost before = out@;
        out.push(e);
        assert(out@.drop_last() =~= before);
        proof {
            assert forall|s: Seq<URef>| #![auto] fits(s.len()) && (forall|j: int| 0 <= j < s.len() ==> uref_valid(s[j])) && is_prefix(enc_list(s, f), rest)
                implies s.len() == n && out@ == s.subrange(0, i + 1) by {
                assert(is_prefix(f(s[i as int]), here));
                assert(uref_valid(s[i as int]));
                assert(here.subrange(0, (q - cur) as int) =~= bytes@.subrange(cur as int, q as int));
                
                assert(out@ =~= s.subrange(0, i + 1));
            }
        }
        assert(bytes@.subrange(p1 as int, q as int) =~= bytes@.subrange(p1 as int, cur as int) + bytes@.subrange(cur as int, q as int));
        cur = q;
        i = i + 1;
    }
    assert(bytes@.subrange(pos as int, cur as int) =~= bytes@.subrange(pos as int, p1 as int) + bytes@.subrange(p1 as int, cur as int));
    proof {
        assert forall|s: Seq<URef>| #![auto] fits(s.len()) && (forall|j: int| 0 <= j < s.len() ==> uref_valid(s[j])) && is_prefix(enc_list(s, f), rest)
            implies out@ == s by {
            assert(s.subrange(0, n as int) =~= s);
        }
    }
    Ok((out, cur))
}

fn read_versions(bytes: &[u8], pos: usize) -> (r: Result<(Vec<ContractVersionKey>, usize), CodecError>)
    requires
        pos <= bytes@.len(),
    ensures
        match r {
            Ok((v, p)) => pos <= p <= bytes@.len() && bytes@.subrange(pos as int, p as int) == enc_list(v@, |e: ContractVersionKey| enc_version(e))
                && fits(v@.len()) ,
            Err(_) => true,
        },
        forall|s: Seq<ContractVersionKey>| #![auto] fits(s.len()) && is_prefix(enc_list(s, |e: ContractVersionKey| enc_version(e)), bytes@.subrange(pos as int, bytes@.len() as int))
            ==> (r matches Ok((v, p)) && v@ == s),
{
    let ghost f = |e: ContractVersionKey| enc_version(e);
    let ghost rest = bytes@.subrange(pos as int, bytes@.len() as int);
    proof {
        lemma_pow256_values();
    }
    let (n, p1) = match read_u32(bytes, pos) {
        Ok(x) => x,
        Err(e) => {
            assert forall|s: Seq<ContractVersionKey>| #![auto] fits(s.len()) && is_prefix(enc_list(s, f), rest) implies false by {
                crate::bytesrepr::lemma_le_bytes_len(s.len() as u32 as nat, 4);
            }
            return Err(e);
        },
    };
    assert(rest.subrange(0, 4) =~= bytes@.subrange(pos as int, p1 as int));
    let mut out: Vec<ContractVersionKey> = Vec::new();
    let mut cur: usize = p1;
    let mut i: u32 = 0;
    assert(bytes@.subrange(p1 as int, p1 as int) =~= enc_items(out@, f));
    proof {
        assert forall|s: Seq<ContractVersionKey>| #![auto] fits(s.len()) && is_prefix(enc_list(s, f), rest)
            implies s.len() == n && out@ == s.subrange(0, 0) by {
            lemma_list_len(s, f, rest, n);
            assert(out@ =~= s.subrange(0, 0));
        }
    }
    while i < n
        invariant
            p1 <= cur <= bytes@.len(),
            pos + 4 == p1,
            bytes@.subrange(pos as int, p1 as int) == enc_u32(n),
            rest == bytes@.subrange(pos as int, bytes@.len() as int),
            out@.len() == i,
            i <= n,
            f == (|e: ContractVersionKey| enc_version(e)),
            bytes@.subrange(p1 as int, cur as int) == enc_items(out@, f),
            
            forall|s: Seq<ContractVersionKey>| #![auto] fits(s.len()) && is_prefix(enc_list(s, f), rest)
                ==> s.len() == n && out@ == s.subrange(0, i as int),
        decreases n - i,
    {
        let ghost here = bytes@.subrange(cur as int, bytes@.len() as int);
        proof {
            assert forall|s: Seq<ContractVersionKey>| #![auto] fits(s.len()) && is_prefix(enc_list(s, f), rest)
                implies is_prefix(f(s[i as int]), here) by {
                lemma_list_item_prefix(s, f, rest, i as int);
                
                assert(rest.subrange(4 + enc_items(s.subrange(0, i as int), f).len() as int, rest.len() as int) =~= here);
            }
        }
        let (e, q) = match read_version(bytes, cur) {
            Ok(x) => x,
            Err(err) => {
                assert forall|s: Seq<ContractVersionKey>| #![auto] fits(s.len()) && is_prefix(enc_list(s, f), rest) implies false by {
                    assert(is_prefix(f(s[i as int]), here));
                    
                }
                return Err(err);
            },
        };
        let ghost before = out@;
        out.push(e);
        assert(out@.drop_last() =~= before);
        proof {
            assert forall|s: Seq<ContractVersionKey>| #![auto] fits(s.len()) && is_prefix(enc_list(s, f), rest)
                implies s.len() == n && out@ == s.subrange(0, i + 1) by {
                assert(is_prefix(f(s[i as int]), here));
                
                assert(here.subrange(0, (q - cur) as int) =~= bytes@.subrange(cur as int, q as int));
                lemma_version_prefix_unique(e, s[i as int], here);
                assert(out@ =~= s.subrange(0, i + 1));
            }
        }
        assert(bytes@.subrange(p1 as int, q as int) =~= bytes@.subrange(p1 as int, cur as int) + bytes@.subrange(cur as int, q as int));
        cur = q;
        i = i + 1;
    }
    assert(bytes@.subrange(pos as int, cur as int) =~= bytes@.subrange(pos as int, p1 as int) + bytes@.subrange(p1 as int, cur as int));
    proof {
        assert forall|s: Seq<ContractVersionKey>| #![auto] fits(s.len()) && is_prefix(enc_list(s, f), rest)
            implies out@ == s by {
            assert(s.subrange(0, n as int) =~= s);
        }
    }
    Ok((out, cur))
}

fn read_version_entries(bytes: &[u8], pos: usize) -> (r: Result<(Vec<(ContractVersionKey, Addr)>, usize), CodecError>)
    requires
        pos <= bytes@.len(),
    ensures
        match r {
            Ok((v, p)) => pos <= p <= bytes@.len() && bytes@.subrange(pos as int, p as int) == enc_list(v@, |e: (ContractVersionKey, Addr)| enc_version_entry(e))
                && fits(v@.len()) ,
            Err(_) => true,
        },
        forall|s: Seq<(ContractVersionKey, Addr)>| #![auto] fits(s.len()) && is_prefix(enc_list(s, |e: (ContractVersionKey, Addr)| enc_version_entry(e)), bytes@.subrange(pos as int, bytes@.len() as int))
            ==> (r matches Ok((v, p)) && v@ == s),
{
    let ghost f = |e: (ContractVersionKey, Addr)| enc_version_entry(e);
    let ghost rest = bytes@.subrange(pos as int, bytes@.len() as int);
    proof {
        lemma_pow256_values();
    }
    let (n, p1) = match read_u32(bytes, pos) {
        Ok(x) => x,
        Err(e) => {
            assert forall|s: Seq<(ContractVersionKey, Addr)>| #![auto] fits(s.len()) && is_prefix(enc_list(s, f), rest) implies false by {
                crate::bytesrepr::lemma_le_bytes_len(s.len() as u32 as nat, 4);
            }
            return Err(e);
        },
    };
    assert(rest.subrange(0, 4) =~= bytes@.subrange(pos as int, p1 as int));
    let mut out: Vec<(ContractVersionKey, Addr)> = Vec::new();
    let mut cur: usize = p1;
    let mut i: u32 = 0;
    assert(bytes@.subrange(p1 as int, p1 as int) =~= enc_items(out@, f));
    proof {
        assert forall|s: Seq<(ContractVersionKey, Addr)>| #![auto] fits(s.len()) && is_prefix(enc_list(s, f), rest)
            implies s.len() == n && out@ == s.subrange(0, 0) by {
            lemma_list_len(s, f, rest, n);
            assert(out@ =~= s.subrange(0, 0));
        }
    }
    while i < n
        invariant
            p1 <= cur <= bytes@.len(),
            pos + 4 == p1,
            bytes@.subrange(pos as int, p1 as int) == enc_u32(n),
            rest == bytes@.subrange(pos as int, bytes@.len() as int),
            out@.len() == i,
            i <= n,
            f == (|e: (ContractVersionKey, Addr)| enc_version_entry(e)),
            bytes@.subrange(p1 as int, cur as int) == enc_items(out@, f),
            
            forall|s: Seq<(ContractVersionKey, Addr)>| #![auto] fits(s.len()) && is_prefix(enc_list(s, f), rest)
                ==> s.len() == n && out@ == s.subrange(0, i as int),
        decreases n - i,
    {
        let ghost here = bytes@.subrange(cur as int, bytes@.len() as int);
        proof {
            assert forall|s: Seq<(ContractVersionKey, Addr)>| #![auto] fits(s.len()) && is_prefix(enc_list(s, f), rest)
                implies is_prefix(f(s[i as int]), here) by {
                lemma_list_item_prefix(s, f, rest, i as int);
                
                assert(rest.subrange(4 + enc_items(s.subrange(0, i as int), f).len() as int, rest.len() as int) =~= here);
            }
        }
        let (e, q) = match read_version_entry(bytes, cur) {
            Ok(x) => x,
            Err(err) => {
                assert forall|s: Seq<(ContractVersionKey, Addr)>| #![auto] fits(s.len()) && is_prefix(enc_list(s, f), rest) implies false by {
                    assert(is_prefix(f(s[i as int]), here));
                    
                }
                return Err(err);
            },
        };
        let ghost before = out@;
        out.push(e);
        assert(out@.drop_last() =~= before);
        proof {
            assert forall|s: Seq<(ContractVersionKey, Addr)>| #![auto] fits(s.len()) && is_prefix(enc_list(s, f), rest)
                implies s.len() == n && out@ == s.subrange(0, i + 1) by {
                assert(is_prefix(f(s[i as int]), here));
                
                assert(here.subrange(0, (q - cur) as int) =~= bytes@.subrange(cur as int, q as int));
                lemma_version_entry_prefix_unique(e, s[i as int], here);
                assert(out@ =~= s.subrange(0, i + 1));
            }
        }
        assert(bytes@.subrange(p1 as int, q as int) =~= bytes@.subrange(p1 as int, cur as int) + bytes@.subrange(cur as int, q as int));
        cur = q;
        i = i + 1;
    }
    assert(bytes@.subrange(pos as int, cur as int) =~= bytes@.subrange(pos as int, p1 as int) + bytes@.subrange(p1 as int, cur as int));
    proof {
        assert forall|s: Seq<(ContractVersionKey, Addr)>| #![auto] fits(s.len()) && is_prefix(enc_list(s, f), rest)
            implies out@ == s by {
            assert(s.subrange(0, n as int) =~= s);
        }
    }
    Ok((out, cur))
}

/// A group whose name and references decode.
pub open spec fn group_decodable(g: (Name, Vec<URef>)) -> bool {
    fits(g.0@.len()) && fits(g.1@.len()) && forall|j: int| 0 <= j < g.1@.len() ==> uref_valid(#[trigger] g.1@[j])
}

fn read_group(bytes: &[u8], pos: usize) -> (r: Result<((Name, Vec<URef>), usize), CodecError>)
    requires
        pos <= bytes@.len(),
    ensures
        match r {
            Ok((e, p)) => pos <= p <= bytes@.len() && bytes@.subrange(pos as int, p as int) == enc_group(e)
                && fits(e.0@.len()) && fits(e.1@.len()),
            Err(_) => true,
        },
        forall|g: (Name, Vec<URef>)| #![auto] group_decodable(g) && is_prefix(enc_group(g), bytes@.subrange(pos as int, bytes@.len() as int))
            ==> (r matches Ok((w, p)) && w.0@ == g.0@ && w.1@ == g.1@),
{
    let ghost rest = bytes@.subrange(pos as int, bytes@.len() as int);
    let ghost fu = |u: URef| enc_uref(u);
    let (name, p1) = match read_bytes(bytes, pos) {
        Ok(x) => x,
        Err(e) => {
            assert forall|g: (Name, Vec<URef>)| #![auto] group_decodable(g) && is_prefix(enc_group(g), rest) implies false by {
                assert(enc_group(g).subrange(0, enc_bytes(g.0@).len() as int) =~= enc_bytes(g.0@));
                lemma_prefix_shift(enc_group(g), rest, 0, enc_bytes(g.0@));
                assert(rest.subrange(0, rest.len() as int) =~= rest);
            }
            return Err(e);
        },
    };
    proof {
        assert forall|g: (Name, Vec<URef>)| #![auto] group_decodable(g) && is_prefix(enc_group(g), rest)
            implies g.0@ == name@ && is_prefix(enc_list(g.1@, fu), bytes@.subrange(p1 as int, bytes@.len() as int)) by {
            let lg = enc_bytes(g.0@).len() as int;
            assert(enc_group(g).subrange(0, lg) =~= enc_bytes(g.0@));
            lemma_prefix_shift(enc_group(g), rest, 0, enc_bytes(g.0@));
            assert(rest.subrange(0, rest.len() as int) =~= rest);
            assert(rest.subrange(0, (p1 - pos) as int) =~= enc_bytes(name@));
            lemma_bytes_prefix_unique(g.0@, name@, rest);
            assert(enc_group(g).subrange(lg, lg + enc_list(g.1@, fu).len()) =~= enc_list(g.1@, fu));
            lemma_prefix_shift(enc_group(g), rest, lg, enc_list(g.1@, fu));
            assert(rest.subrange(lg, rest.len() as int) =~= bytes@.subrange(p1 as int, bytes@.len() as int));
        }
    }
    let (us, p2) = match read_urefs(bytes, p1) {
        Ok(x) => x,
        Err(e) => {
            assert forall|g: (Name, Vec<URef>)| #![auto] group_decodable(g) && is_prefix(enc_group(g), rest) implies false by {
                assert(is_prefix(enc_list(g.1@, fu), bytes@.subrange(p1 as int, bytes@.len() as int)));
            }
            return Err(e);
        },
    };
    let e = (name, us);
    assert(bytes@.subrange(pos as int, p2 as int) =~= enc_group(e));
    proof {
        assert forall|g: (Name, Vec<URef>)| #![auto] group_decodable(g) && is_prefix(enc_group(g), rest)
            implies e.0@ == g.0@ && e.1@ == g.1@ by {
            assert(is_prefix(enc_list(g.1@, fu), bytes@.subrange(p1 as int, bytes@.len() as int)));
        }
    }
    Ok((e, p2))
}

/// Where two lists' items encode alike one by one, the lists' items encode
/// alike.
pub proof fn lemma_items_same_enc<T>(a: Seq<T>, b: Seq<T>, f: spec_fn(T) -> Seq<u8>)
    requires
        a.len() == b.len(),
        forall|j: int| 0 <= j < a.len() ==> f(#[trigger] a[j]) == f(b[j]),
    ensures
        enc_items(a, f) == enc_items(b, f),
    decreases a.len(),
{
    if a.len() > 0 {
        lemma_items_same_enc(a.drop_last(), b.drop_last(), f);
        assert(f(a.last()) == f(b.last()));
    }
}

/// The first part of an entry point's encoding: its name, parameters and
/// return type.
pub open spec fn enc_entry_point_head(e: EntryPoint) -> Seq<u8> {
    enc_bytes(e.name@) + enc_list(e.args@, |p: Parameter| enc_parameter(p)) + enc_cltype(e.ret)
}

/// Two accesses with the same group names, one by one.
pub open spec fn access_same(a: EntryPointAccess, b: EntryPointAccess) -> bool {
    match (a, b) {
        (EntryPointAccess::Public, EntryPointAccess::Public) => true,
        (EntryPointAccess::Groups(x), EntryPointAccess::Groups(y)) => x@.len() == y@.len()
            && forall|j: int| 0 <= j < x@.len() ==> (#[trigger] x@[j])@ == y@[j]@,
        _ => false,
    }
}

pub open spec fn access_fits(a: EntryPointAccess) -> bool {
    match a {
        EntryPointAccess::Public => true,
        EntryPointAccess::Groups(g) => names_fit(g@),
    }
}

fn read_access(bytes: &[u8], pos: usize) -> (r: Result<(EntryPointAccess, usize), CodecError>)
    requires
        pos <= bytes@.len(),
    ensures
        match r {
            Ok((a, p)) => pos <= p <= bytes@.len() && bytes@.subrange(pos as int, p as int) == enc_access(a) && access_fits(a),
            Err(_) => true,
        },
        forall|x: EntryPointAccess| #![auto] access_fits(x) && is_prefix(enc_access(x), bytes@.subrange(pos as int, bytes@.len() as int))
            ==> (r matches Ok((w, p)) && access_same(w, x) && enc_access(w) == enc_access(x)),
{
    let ghost rest = bytes@.subrange(pos as int, bytes@.len() as int);
    let ghost fnm = |n: Name| enc_name(n);
    let (tag, p1) = match read_u8(bytes, pos) {
        Ok(x) => x,
        Err(e) => {
            assert forall|x: EntryPointAccess| #![auto] access_fits(x) && is_prefix(enc_access(x), rest) implies false by {
                assert(enc_access(x).len() >= 1);
            }
            return Err(e);
        },
    };
    assert(tag == rest[0]) by {
        assert(bytes@.subrange(pos as int, p1 as int)[0] == tag);
    }
    if tag == 0 {
        assert(bytes@.subrange(pos as int, p1 as int) =~= enc_access(EntryPointAccess::Public));
        proof {
            assert forall|x: EntryPointAccess| #![auto] access_fits(x) && is_prefix(enc_access(x), rest)
                implies x is Public by {
                assert(enc_access(x)[0] == rest[0]);
            }
        }
        Ok((EntryPointAccess::Public, p1))
    } else if tag == 1 {
        proof {
            assert forall|x: EntryPointAccess| #![auto] access_fits(x) && is_prefix(enc_access(x), rest)
                implies (x matches EntryPointAccess::Groups(g) && is_prefix(enc_list(g@, fnm), bytes@.subrange(p1 as int, bytes@.len() as int))) by {
                assert(enc_access(x)[0] == rest[0]);
                if let EntryPointAccess::Groups(g) = x {
                    let gl = enc_list(g@, fnm);
                    assert(enc_access(x).subrange(1, 1 + gl.len() as int) =~= gl);
                    lemma_prefix_shift(enc_access(x), rest, 1, gl);
                    assert(rest.subrange(1, rest.len() as int) =~= bytes@.subrange(p1 as int, bytes@.len() as int));
                }
            }
        }
        match read_names(bytes, p1) {
            Ok((g, q)) => {
                let a = EntryPointAccess::Groups(g);
                assert(bytes@.subrange(pos as int, q as int) =~= enc_access(a));
                proof {
                    assert forall|x: EntryPointAccess| #![auto] access_fits(x) && is_prefix(enc_access(x), rest)
                        implies access_same(a, x) && enc_access(a) == enc_access(x) by {
                        if let EntryPointAccess::Groups(gx) = x {
                            assert(is_prefix(enc_list(gx@, fnm), bytes@.subrange(p1 as int, bytes@.len() as int)));
                            lemma_names_same_enc(g@, gx@);
                        }
                    }
                }
                Ok((a, q))
            },
            Err(e) => {
                assert forall|x: EntryPointAccess| #![auto] access_fits(x) && is_prefix(enc_access(x), rest) implies false by {
                    if let EntryPointAccess::Groups(gx) = x {
                        assert(is_prefix(enc_list(gx@, fnm), bytes@.subrange(p1 as int, bytes@.len() as int)));
                    }
                }
                Err(e)
            },
        }
    } else {
        assert forall|x: EntryPointAccess| #![auto] access_fits(x) && is_prefix(enc_access(x), rest) implies false by {
            assert(enc_access(x)[0] == rest[0]);
        }
        Err(CodecError::Formatting)
    }
}

/// The parts of an entry point that an encoding's head gives.
pub open spec fn head_same(n: Name, args: Seq<Parameter>, ret: CLType, e: EntryPoint) -> bool {
    &&& n@ == e.name@
    &&& args.len() == e.args@.len()
    &&& forall|j: int| 0 <= j < args.len() ==> (#[trigger] args[j]).name@ == e.args@[j].name@ && args[j].cl_type == e.args@[j].cl_type
    &&& ret == e.ret
}

#[verifier::rlimit(80)]
fn read_entry_point_head(bytes: &[u8], pos: usize) -> (r: Result<(Name, Vec<Parameter>, CLType, usize), CodecError>)
    requires
        pos <= bytes@.len(),
    ensures
        match r {
            Ok((n, args, ret, p)) => pos <= p <= bytes@.len() && bytes@.subrange(pos as int, p as int)
                == enc_bytes(n@) + enc_list(args@, |q: Parameter| enc_parameter(q)) + enc_cltype(ret)
                && fits(n@.len()) && fits(args@.len()) && forall|i: int| 0 <= i < args@.len() ==> fits(#[trigger] args@[i].name@.len()),
            Err(_) => true,
        },
        forall|x: EntryPoint| #![auto] entry_point_fits(x) && is_prefix(enc_entry_point_head(x), bytes@.subrange(pos as int, bytes@.len() as int))
            ==> (r matches Ok((n, args, ret, p)) && head_same(n, args@, ret, x)),
{
    let ghost rest = bytes@.subrange(pos as int, bytes@.len() as int);
    let ghost fp = |q: Parameter| enc_parameter(q);
    proof {
        assert forall|x: EntryPoint| #![auto] entry_point_fits(x) && is_prefix(enc_entry_point_head(x), rest)
            implies is_prefix(enc_bytes(x.name@), rest) by {
            let h = enc_entry_point_head(x);
            assert(h.subrange(0, enc_bytes(x.name@).len() as int) =~= enc_bytes(x.name@));
            lemma_prefix_shift(h, rest, 0, enc_bytes(x.name@));
            assert(rest.subrange(0, rest.len() as int) =~= rest);
        }
    }
    let (name, p1) = match read_bytes(bytes, pos) {
        Ok(x) => x,
        Err(e) => {
            assert forall|x: EntryPoint| #![auto] entry_point_fits(x) && is_prefix(enc_entry_point_head(x), rest) implies false by {
                assert(is_prefix(enc_bytes(x.name@), rest));
            }
            return Err(e);
        },
    };
    let ghost r1 = bytes@.subrange(p1 as int, bytes@.len() as int);
    proof {
        assert forall|x: EntryPoint| #![auto] entry_point_fits(x) && is_prefix(enc_entry_point_head(x), rest)
            implies x.name@ == name@ && is_prefix(enc_list(x.args@, fp), r1) by {
            assert(is_prefix(enc_bytes(x.name@), rest));
            assert(rest.subrange(0, (p1 - pos) as int) =~= enc_bytes(name@));
            lemma_bytes_prefix_unique(x.name@, name@, rest);
            let h = enc_entry_point_head(x);
            let o1 = enc_bytes(x.name@).len() as int;
            let la = enc_list(x.args@, fp);
            assert(h.subrange(o1, o1 + la.len()) =~= la);
            lemma_prefix_shift(h, rest, o1, la);
            assert(rest.subrange(o1, rest.len() as int) =~= r1);
        }
    }
    let (args, p2) = match read_parameters(bytes, p1) {
        Ok(x) => x,
        Err(e) => {
            assert forall|x: EntryPoint| #![auto] entry_point_fits(x) && is_prefix(enc_entry_point_head(x), rest) implies false by {
                assert(is_prefix(enc_list(x.args@, fp), r1));
            }
            return Err(e);
        },
    };
    let ghost r2 = bytes@.subrange(p2 as int, bytes@.len() as int);
    proof {
        assert forall|x: EntryPoint| #![auto] entry_point_fits(x) && is_prefix(enc_entry_point_head(x), rest)
            implies is_prefix(enc_cltype(x.ret), r2) by {
            assert(is_prefix(enc_bytes(x.name@), rest));
            assert(rest.subrange(0, (p1 - pos) as int) =~= enc_bytes(name@));
            lemma_bytes_prefix_unique(x.name@, name@, rest);
            assert(is_prefix(enc_list(x.args@, fp), r1));
            lemma_params_same_enc(args@, x.args@);
            let h = enc_entry_point_head(x);
            let o2 = enc_bytes(x.name@).len() as int + enc_list(x.args@, fp).len() as int;
            assert(h.subrange(o2, o2 + enc_cltype(x.ret).len()) =~= enc_cltype(x.ret));
            lemma_prefix_shift(h, rest, o2, enc_cltype(x.ret));
            assert(rest.subrange(o2, rest.len() as int) =~= r2);
        }
    }
    let (ret, p3) = match read_cltype(bytes, p2) {
        Ok(x) => x,
        Err(e) => {
            assert forall|x: EntryPoint| #![auto] entry_point_fits(x) && is_prefix(enc_entry_point_head(x), rest) implies false by {
                assert(is_prefix(enc_cltype(x.ret), r2));
            }
            return Err(e);
        },
    };
    proof {
        assert forall|x: EntryPoint| #![auto] entry_point_fits(x) && is_prefix(enc_entry_point_head(x), rest)
            implies head_same(name, args@, ret, x) by {
            assert(is_prefix(enc_bytes(x.name@), rest));
            assert(rest.subrange(0, (p1 - pos) as int) =~= enc_bytes(name@));
            lemma_bytes_prefix_unique(x.name@, name@, rest);
            assert(is_prefix(enc_list(x.args@, fp), r1));
            assert(is_prefix(enc_cltype(x.ret), r2));
            assert(r2.subrange(0, (p3 - p2) as int) =~= bytes@.subrange(p2 as int, p3 as int));
            lemma_cltype_prefix_unique(x.ret, ret, r2);
        }
    }
    assert(bytes@.subrange(pos as int, p3 as int) =~= bytes@.subrange(pos as int, p1 as int)
        + bytes@.subrange(p1 as int, p2 as int) + bytes@.subrange(p2 as int, p3 as int));
    Ok((name, args, ret, p3))
}

#[verifier::rlimit(80)]
fn read_entry_point(bytes: &[u8], pos: usize) -> (r: Result<(EntryPoint, usize), CodecError>)
    requires
        pos <= bytes@.len(),
    ensures
        match r {
            Ok((e, p)) => pos <= p <= bytes@.len() && bytes@.subrange(pos as int, p as int) == enc_entry_point(e)
                && entry_point_fits(e),
            Err(_) => true,
        },
        forall|x: EntryPoint| #![auto] entry_point_fits(x) && is_prefix(enc_entry_point(x), bytes@.subrange(pos as int, bytes@.len() as int))
            ==> (r matches Ok((w, p)) && w@ == x@ && enc_entry_point(w) == enc_entry_point(x)),
{
    let ghost rest = bytes@.subrange(pos as int, bytes@.len() as int);
    let ghost fp = |q: Parameter| enc_parameter(q);
    proof {
        assert forall|x: EntryPoint| #![auto] entry_point_fits(x) && is_prefix(enc_entry_point(x), rest)
            implies is_prefix(enc_entry_point_head(x), rest) by {
            let e = enc_entry_point(x);
            assert(e.subrange(0, enc_entry_point_head(x).len() as int) =~= enc_entry_point_head(x));
            lemma_prefix_shift(e, rest, 0, enc_entry_point_head(x));
            assert(rest.subrange(0, rest.len() as int) =~= rest);
        }
    }
    let (name, args, ret, p1) = match read_entry_point_head(bytes, pos) {
        Ok(x) => x,
        Err(e) => {
            assert forall|x: EntryPoint| #![auto] entry_point_fits(x) && is_prefix(enc_entry_point(x), rest) implies false by {
                assert(is_prefix(enc_entry_point_head(x), rest));
            }
            return Err(e);
        },
    };
    let ghost r1 = bytes@.subrange(p1 as int, bytes@.len() as int);
    proof {
        assert forall|x: EntryPoint| #![auto] entry_point_fits(x) && is_prefix(enc_entry_point(x), rest)
            implies head_same(name, args@, ret, x) && p1 - pos == enc_entry_point_head(x).len()
                && is_prefix(enc_access(x.access), r1) && access_fits(x.access) by {
            assert(is_prefix(enc_entry_point_head(x), rest));
            lemma_params_same_enc(args@, x.args@);
            let e = enc_entry_point(x);
            let lh = enc_entry_point_head(x).len() as int;
            assert(bytes@.subrange(pos as int, p1 as int) == enc_entry_point_head(x));
            assert(e.subrange(lh, lh + enc_access(x.access).len()) =~= enc_access(x.access));
            lemma_prefix_shift(e, rest, lh, enc_access(x.access));
            assert(rest.subrange(lh, rest.len() as int) =~= r1);
        }
    }
    let (access, p2) = match read_access(bytes, p1) {
        Ok(x) => x,
        Err(e) => {
            assert forall|x: EntryPoint| #![auto] entry_point_fits(x) && is_prefix(enc_entry_point(x), rest) implies false by {
                assert(is_prefix(enc_access(x.access), r1) && access_fits(x.access));
            }
            return Err(e);
        },
    };
    let (type_tag, p3) = match read_u8(bytes, p2) {
        Ok(x) => x,
        Err(e) => {
            assert forall|x: EntryPoint| #![auto] entry_point_fits(x) && is_prefix(enc_entry_point(x), rest) implies false by {
                assert(is_prefix(enc_access(x.access), r1) && access_fits(x.access));
                assert(enc_entry_point(x).len() == enc_entry_point_head(x).len() + enc_access(x.access).len() + 1);
            }
            return Err(e);
        },
    };
    assert(type_tag == bytes@[p2 as int]) by {
        assert(bytes@.subrange(p2 as int, p3 as int)[0] == type_tag);
    }
    proof {
        assert forall|x: EntryPoint| #![auto] entry_point_fits(x) && is_prefix(enc_entry_point(x), rest)
            implies entry_point_type_tag(x.entry_point_type) == type_tag && access_same(access, x.access)
                && enc_access(access) == enc_access(x.access) by {
            assert(is_prefix(enc_access(x.access), r1) && access_fits(x.access));
            let e = enc_entry_point(x);
            let lt = enc_entry_point_head(x).len() + enc_access(x.access).len();
            assert(e[lt as int] == entry_point_type_tag(x.entry_point_type));
            assert(rest[lt as int] == e[lt as int]);
            assert(rest[lt as int] == bytes@[p2 as int]);
        }
    }
    let entry_point_type = if type_tag == 0 {
        EntryPointType::Session
    } else if type_tag == 1 {
        EntryPointType::Contract
    } else {
        assert forall|x: EntryPoint| #![auto] entry_point_fits(x) && is_prefix(enc_entry_point(x), rest) implies false by {
            assert(entry_point_type_tag(x.entry_point_type) == type_tag);
        }
        return Err(CodecError::Formatting);
    };
    let e = EntryPoint { name, args, ret, access, entry_point_type };
    assert(bytes@.subrange(pos as int, p3 as int) =~= enc_entry_point(e)) by {
        assert(bytes@.subrange(pos as int, p3 as int) =~= bytes@.subrange(pos as int, p1 as int)
            + bytes@.subrange(p1 as int, p2 as int) + bytes@.subrange(p2 as int, p3 as int));
    }
    proof {
        assert forall|x: EntryPoint| #![auto] entry_point_fits(x) && is_prefix(enc_entry_point(x), rest)
            implies e@ == x@ && enc_entry_point(e) == enc_entry_point(x) by {
            assert(head_same(name, args@, ret, x));
            assert(entry_point_type_tag(x.entry_point_type) == type_tag);
            assert(access_same(access, x.access) && enc_access(access) == enc_access(x.access));
            lemma_params_same_enc(args@, x.args@);
            assert(e@.args =~= x@.args);
            if let EntryPointAccess::Groups(gx) = x.access {
                if let EntryPointAccess::Groups(ga) = access {
                    assert(crate::stored_value::names_view(ga@) =~= crate::stored_value::names_view(gx@));
                }
            }
        }
    }
    Ok((e, p3))
}

pub proof fn lemma_entry_points_same_enc(a: Seq<EntryPoint>, b: Seq<EntryPoint>)
    requires
        a.len() == b.len(),
        forall|j: int| 0 <= j < a.len() ==> (#[trigger] a[j])@ == b[j]@ && enc_entry_point(a[j]) == enc_entry_point(b[j]),
    ensures
        enc_items(a, |e: EntryPoint| enc_entry_point(e)) == enc_items(b, |e: EntryPoint| enc_entry_point(e)),
{
    let f = |e: EntryPoint| enc_entry_point(e);
    assert forall|j: int| 0 <= j < a.len() implies f(#[trigger] a[j]) == f(b[j]) by {}
    lemma_items_same_enc(a, b, f);
}

#[verifier::rlimit(80)]
fn read_entry_points(bytes: &[u8], pos: usize) -> (r: Result<(Vec<EntryPoint>, usize), CodecError>)
    requires
        pos <= bytes@.len(),
    ensures
        match r {
            Ok((v, p)) => pos <= p <= bytes@.len() && bytes@.subrange(pos as int, p as int) == enc_list(v@, |e: EntryPoint| enc_entry_point(e))
                && fits(v@.len()) && forall|j: int| 0 <= j < v@.len() ==> entry_point_fits(#[trigger] v@[j]),
            Err(_) => true,
        },
        forall|s: Seq<EntryPoint>| #![auto] fits(s.len()) && (forall|j: int| 0 <= j < s.len() ==> entry_point_fits(s[j])) && is_prefix(enc_list(s, |e: EntryPoint| enc_entry_point(e)), bytes@.subrange(pos as int, bytes@.len() as int))
            ==> (r matches Ok((v, p)) && v@.len() == s.len() && (forall|j: int| 0 <= j < v@.len() ==> v@[j]@ == s[j]@ && enc_entry_point(v@[j]) == enc_entry_point(s[j]))),
{
    let ghost f = |e: EntryPoint| enc_entry_point(e);
    let ghost rest = bytes@.subrange(pos as int, bytes@.len() as int);
    proof {
        lemma_pow256_values();
    }
    let (n, p1) = match read_u32(bytes, pos) {
        Ok(x) => x,
        Err(e) => {
            assert forall|s: Seq<EntryPoint>| #![auto] fits(s.len()) && (forall|j: int| 0 <= j < s.len() ==> entry_point_fits(s[j])) && is_prefix(enc_list(s, f), rest) implies false by {
                crate::bytesrepr::lemma_le_bytes_len(s.len() as u32 as nat, 4);
            }
            return Err(e);
        },
    };
    assert(rest.subrange(0, 4) =~= bytes@.subrange(pos as int, p1 as int));
    let mut out: Vec<EntryPoint> = Vec::new();
    let mut cur: usize = p1;
    let mut i: u32 = 0;
    assert(bytes@.subrange(p1 as int, p1 as int) =~= enc_items(out@, f));
    proof {
        assert forall|s: Seq<EntryPoint>| #![auto] fits(s.len()) && (forall|j: int| 0 <= j < s.len() ==> entry_point_fits(s[j])) && is_prefix(enc_list(s, f), rest)
            implies s.len() == n && out@.len() == s.subrange(0, 0).len() && (forall|j: int| 0 <= j < out@.len() ==> out@[j]@ == s.subrange(0, 0)[j]@ && enc_entry_point(out@[j]) == enc_entry_point(s.subrange(0, 0)[j])) by {
            lemma_list_len(s, f, rest, n);
        }
    }
    while i < n
        invariant
            p1 <= cur <= bytes@.len(),
            pos + 4 == p1,
            bytes@.subrange(pos as int, p1 as int) == enc_u32(n),
            rest == bytes@.subrange(pos as int, bytes@.len() as int),
            out@.len() == i,
            i <= n,
            f == (|e: EntryPoint| enc_entry_point(e)),
            bytes@.subrange(p1 as int, cur as int) == enc_items(out@, f),
            forall|j: int| 0 <= j < out@.len() ==> entry_point_fits(#[trigger] out@[j]),
            forall|s: Seq<EntryPoint>| #![auto] fits(s.len()) && (forall|j: int| 0 <= j < s.len() ==> entry_point_fits(s[j])) && is_prefix(enc_list(s, f), rest)
                ==> s.len() == n && out@.len() == s.subrange(0, i as int).len() && (forall|j: int| 0 <= j < out@.len() ==> out@[j]@ == s.subrange(0, i as int)[j]@ && enc_entry_point(out@[j]) == enc_entry_point(s.subrange(0, i as int)[j])),
        decreases n - i,
    {
        let ghost here = bytes@.subrange(cur as int, bytes@.len() as int);
        proof {
            assert forall|s: Seq<EntryPoint>| #![auto] fits(s.len()) && (forall|j: int| 0 <= j < s.len() ==> entry_point_fits(s[j])) && is_prefix(enc_list(s, f), rest)
                implies is_prefix(f(s[i as int]), here) by {
                lemma_list_item_prefix(s, f, rest, i as int);
                lemma_entry_points_same_enc(out@, s.subrange(0, i as int));
                assert(rest.subrange(4 + enc_items(s.subrange(0, i as int), f).len() as int, rest.len() as int) =~= here);
            }
        }
        let (e, q) = match read_entry_point(bytes, cur) {
            Ok(x) => x,
            Err(err) => {
                assert forall|s: Seq<EntryPoint>| #![auto] fits(s.len()) && (forall|j: int| 0 <= j < s.len() ==> entry_point_fits(s[j])) && is_prefix(enc_list(s, f), rest) implies false by {
                    assert(is_prefix(f(s[i as int]), here));
                    assert(entry_point_fits(s[i as int]));
                }
                return Err(err);
            },
        };
        let ghost before = out@;
        out.push(e);
        assert(out@.drop_last() =~= before);
        proof {
            assert forall|s: Seq<EntryPoint>| #![auto] fits(s.len()) && (forall|j: int| 0 <= j < s.len() ==> entry_point_fits(s[j])) && is_prefix(enc_list(s, f), rest)
                implies s.len() == n && out@.len() == s.subrange(0, i + 1).len() && (forall|j: int| 0 <= j < out@.len() ==> out@[j]@ == s.subrange(0, i + 1)[j]@ && enc_entry_point(out@[j]) == enc_entry_point(s.subrange(0, i + 1)[j])) by {
                assert(is_prefix(f(s[i as int]), here));
                assert(entry_point_fits(s[i as int]));
                assert(before.len() == s.subrange(0, i as int).len() && (forall|j: int| 0 <= j < before.len() ==> before[j]@ == s.subrange(0, i as int)[j]@ && enc_entry_point(before[j]) == enc_entry_point(s.subrange(0, i as int)[j])));
                assert forall|j: int| 0 <= j < out@.len() implies out@[j]@ == s.subrange(0, i + 1)[j]@ && enc_entry_point(out@[j]) == enc_entry_point(s.subrange(0, i + 1)[j]) by {
                    if j < i {
                        assert(out@[j] == before[j]);
                        assert(s.subrange(0, i + 1)[j] == s.subrange(0, i as int)[j]);
                    }
                }
            }
        }
        assert(bytes@.subrange(p1 as int, q as int) =~= bytes@.subrange(p1 as int, cur as int) + bytes@.subrange(cur as int, q as int));
        cur = q;
        i = i + 1;
    }
    assert(bytes@.subrange(pos as int, cur as int) =~= bytes@.subrange(pos as int, p1 as int) + bytes@.subrange(p1 as int, cur as int));
    proof {
        assert forall|s: Seq<EntryPoint>| #![auto] fits(s.len()) && (forall|j: int| 0 <= j < s.len() ==> entry_point_fits(s[j])) && is_prefix(enc_list(s, f), rest)
            implies out@.len() == s.len() && (forall|j: int| 0 <= j < out@.len() ==> out@[j]@ == s[j]@ && enc_entry_point(out@[j]) == enc_entry_point(s[j])) by {
            assert(s.subrange(0, n as int) =~= s);
        }
    }
    Ok((out, cur))
}

/// Two lists of groups with the same names and references, entry by entry.
pub open spec fn groups_same(a: Seq<(Name, Vec<URef>)>, b: Seq<(Name, Vec<URef>)>) -> bool {
    a.len() == b.len() && forall|j: int| 0 <= j < a.len() ==> (#[trigger] a[j]).0@ == b[j].0@ && a[j].1@ == b[j].1@
}

/// Groups valid for encoding.
pub open spec fn groups_decodable(s: Seq<(Name, Vec<URef>)>) -> bool {
    fits(s.len()) && forall|j: int| 0 <= j < s.len() ==> group_decodable(#[trigger] s[j])
}

pub proof fn lemma_groups_same_enc(a: Seq<(Name, Vec<URef>)>, b: Seq<(Name, Vec<URef>)>)
    requires
        groups_same(a, b),
    ensures
        enc_items(a, |g: (Name, Vec<URef>)| enc_group(g)) == enc_items(b, |g: (Name, Vec<URef>)| enc_group(g)),
    decreases a.len(),
{
    if a.len() > 0 {
        assert(groups_same(a.drop_last(), b.drop_last()));
        lemma_groups_same_enc(a.drop_last(), b.drop_last());
        assert(a.last().0@ == b.last().0@ && a.last().1@ == b.last().1@);
    }
}

#[verifier::rlimit(60)]
fn read_groups(bytes: &[u8], pos: usize) -> (r: Result<(Vec<(Name, Vec<URef>)>, usize), CodecError>)
    requires
        pos <= bytes@.len(),
    ensures
        match r {
            Ok((v, p)) => pos <= p <= bytes@.len() && bytes@.subrange(pos as int, p as int) == enc_list(v@, |g: (Name, Vec<URef>)| enc_group(g))
                && groups_fit(v@),
            Err(_) => true,
        },
        forall|s: Seq<(Name, Vec<URef>)>| #![auto] groups_decodable(s) && is_prefix(enc_list(s, |g: (Name, Vec<URef>)| enc_group(g)), bytes@.subrange(pos as int, bytes@.len() as int))
            ==> (r matches Ok((v, p)) && groups_same(v@, s)),
{
    let ghost f = |g: (Name, Vec<URef>)| enc_group(g);
    let ghost rest = bytes@.subrange(pos as int, bytes@.len() as int);
    proof {
        lemma_pow256_values();
    }
    let (n, p1) = match read_u32(bytes, pos) {
        Ok(x) => x,
        Err(e) => {
            assert forall|s: Seq<(Name, Vec<URef>)>| #![auto] groups_decodable(s) && is_prefix(enc_list(s, f), rest) implies false by {
                crate::bytesrepr::lemma_le_bytes_len(s.len() as u32 as nat, 4);
            }
            return Err(e);
        },
    };
    assert(rest.subrange(0, 4) =~= bytes@.subrange(pos as int, p1 as int));
    let mut out: Vec<(Name, Vec<URef>)> = Vec::new();
    let mut cur: usize = p1;
    let mut i: u32 = 0;
    assert(bytes@.subrange(p1 as int, p1 as int) =~= enc_items(out@, f));
    proof {
        assert forall|s: Seq<(Name, Vec<URef>)>| #![auto] groups_decodable(s) && is_prefix(enc_list(s, f), rest)
            implies s.len() == n && groups_same(out@, s.subrange(0, 0)) by {
            lemma_list_len(s, f, rest, n);
        }
    }
    while i < n
        invariant
            p1 <= cur <= bytes@.len(),
            pos + 4 == p1,
            bytes@.subrange(pos as int, p1 as int) == enc_u32(n),
            rest == bytes@.subrange(pos as int, bytes@.len() as int),
            out@.len() == i,
            i <= n,
            f == (|g: (Name, Vec<URef>)| enc_group(g)),
            bytes@.subrange(p1 as int, cur as int) == enc_items(out@, f),
            forall|j: int| 0 <= j < out@.len() ==> fits(#[trigger] out@[j].0@.len()) && fits(out@[j].1@.len()),
            forall|s: Seq<(Name, Vec<URef>)>| #![auto] groups_decodable(s) && is_prefix(enc_list(s, f), rest)
                ==> s.len() == n && groups_same(out@, s.subrange(0, i as int)),
        decreases n - i,
    {
        let ghost here = bytes@.subrange(cur as int, bytes@.len() as int);
        proof {
            assert forall|s: Seq<(Name, Vec<URef>)>| #![auto] groups_decodable(s) && is_prefix(enc_list(s, f), rest)
                implies is_prefix(f(s[i as int]), here) by {
                lemma_list_item_prefix(s, f, rest, i as int);
                lemma_groups_same_enc(out@, s.subrange(0, i as int));
                assert(rest.subrange(4 + enc_items(s.subrange(0, i as int), f).len() as int, rest.len() as int) =~= here);
            }
        }
        let (e, q) = match read_group(bytes, cur) {
            Ok(x) => x,
            Err(err) => {
                assert forall|s: Seq<(Name, Vec<URef>)>| #![auto] groups_decodable(s) && is_prefix(enc_list(s, f), rest) implies false by {
                    assert(is_prefix(f(s[i as int]), here));
                    assert(group_decodable(s[i as int]));
                }
                return Err(err);
            },
        };
        let ghost before = out@;
        out.push(e);
        assert(out@.drop_last() =~= before);
        proof {
            assert forall|s: Seq<(Name, Vec<URef>)>| #![auto] groups_decodable(s) && is_prefix(enc_list(s, f), rest)
                implies s.len() == n && groups_same(out@, s.subrange(0, i + 1)) by {
                assert(is_prefix(f(s[i as int]), here));
                assert(group_decodable(s[i as int]));
                assert(groups_same(before, s.subrange(0, i as int)));
                assert forall|j: int| 0 <= j < out@.len() implies (#[trigger] out@[j]).0@ == s.subrange(0, i + 1)[j].0@
                    && out@[j].1@ == s.subrange(0, i + 1)[j].1@ by {
                    if j < i {
                        assert(out@[j] == before[j]);
                        assert(s.subrange(0, i + 1)[j] == s.subrange(0, i as int)[j]);
                    }
                }
            }
        }
        assert(bytes@.subrange(p1 as int, q as int) =~= bytes@.subrange(p1 as int, cur as int) + bytes@.subrange(cur as int, q as int));
        cur = q;
        i = i + 1;
    }
    assert(bytes@.subrange(pos as int, cur as int) =~= bytes@.subrange(pos as int, p1 as int) + bytes@.subrange(p1 as int, cur as int));
    proof {
        assert forall|s: Seq<(Name, Vec<URef>)>| #![auto] groups_decodable(s) && is_prefix(enc_list(s, f), rest)
            implies groups_same(out@, s) by {
            assert(s.subrange(0, n as int) =~= s);
        }
        assert(out@.len() as u32 == n);
        assert(groups_fit(out@));
        assert(bytes@.subrange(pos as int, cur as int) == enc_list(out@, f));
    }
    Ok((out, cur))
}

/// An account whose every key and reference decodes.
pub open spec fn account_decodable(a: Account) -> bool {
    named_keys_valid(a.named_keys@) && fits(a.associated_keys@.len()) && uref_valid(a.main_purse)
}

/// Where an account's encoding begins a sequence, so does each of its parts
/// at its place.
pub proof fn lemma_account_parts(a: Account, rest: Seq<u8>)
    requires
        is_prefix(enc_account(a), rest),
    ensures
        ({
            let nk = enc_list(a.named_keys@, |e: NamedKey| enc_named_key(e));
            let wk = enc_list(a.associated_keys@, |e: (Addr, u8)| enc_weight(e));
            let o2 = 32 + nk.len() as int;
            let o3 = o2 + 33;
            let o4 = o3 + wk.len() as int;
            &&& rest.len() >= o4 + 2
            &&& rest.subrange(0, 32) == a.account_hash@
            &&& is_prefix(nk, rest.subrange(32, rest.len() as int))
            &&& is_prefix(enc_uref(a.main_purse), rest.subrange(o2, rest.len() as int))
            &&& is_prefix(wk, rest.subrange(o3, rest.len() as int))
            &&& rest[o4] == a.deployment_threshold
            &&& rest[o4 + 1] == a.key_management_threshold
        }),
{
    let e = enc_account(a);
    let nk = enc_list(a.named_keys@, |e: NamedKey| enc_named_key(e));
    let wk = enc_list(a.associated_keys@, |e: (Addr, u8)| enc_weight(e));
    let o2 = 32 + nk.len() as int;
    let o3 = o2 + 33;
    let o4 = o3 + wk.len() as int;
    assert(a.account_hash@.len() == 32);
    assert(a.main_purse.addr@.len() == 32);
    assert(e.len() == o4 + 2);
    assert(e.subrange(0, 32) =~= a.account_hash@);
    assert(e.subrange(32, o2) =~= nk);
    assert(e.subrange(o2, o3) =~= enc_uref(a.main_purse));
    assert(e.subrange(o3, o4) =~= wk);
    assert(e[o4] == a.deployment_threshold);
    assert(e[o4 + 1] == a.key_management_threshold);
    lemma_prefix_shift(e, rest, 32, nk);
    lemma_prefix_shift(e, rest, o2, enc_uref(a.main_purse));
    lemma_prefix_shift(e, rest, o3, wk);
    assert(rest.subrange(0, 32) =~= e.subrange(0, 32));
    assert(rest[o4] == e[o4]);
    assert(rest[o4 + 1] == e[o4 + 1]);
}

#[verifier::spinoff_prover]
#[verifier::rlimit(100)]
fn read_account(bytes: &[u8], pos: usize) -> (r: Result<(Account, usize), CodecError>)
    requires
        pos <= bytes@.len(),
    ensures
        match r {
            Ok((a, p)) => pos <= p <= bytes@.len() && bytes@.subrange(pos as int, p as int) == enc_account(a)
                && named_keys_fit(a.named_keys@) && fits(a.associated_keys@.len()),
            Err(_) => true,
        },
        forall|a: Account| #![auto] account_decodable(a) && is_prefix(enc_account(a), bytes@.subrange(pos as int, bytes@.len() as int))
            ==> (r matches Ok((w, p)) && w@ == a@ && enc_account(w) == enc_account(a)),
{
    let ghost rest = bytes@.subrange(pos as int, bytes@.len() as int);
    let ghost fnk = |e: NamedKey| enc_named_key(e);
    let ghost fw = |e: (Addr, u8)| enc_weight(e);
    let (account_hash, p1) = match read_addr(bytes, pos) {
        Ok(x) => x,
        Err(e) => {
            assert forall|a: Account| #![auto] account_decodable(a) && is_prefix(enc_account(a), rest) implies false by {
                lemma_account_parts(a, rest);
            }
            return Err(e);
        },
    };
    let (named_keys, p2) = match read_named_keys(bytes, p1) {
        Ok(x) => x,
        Err(e) => {
            assert forall|a: Account| #![auto] account_decodable(a) && is_prefix(enc_account(a), rest) implies false by {
                lemma_account_parts(a, rest);
                assert(rest.subrange(32, rest.len() as int) =~= bytes@.subrange(p1 as int, bytes@.len() as int));
            }
            return Err(e);
        },
    };
    let (main_purse, p3) = match read_uref_at(bytes, p2) {
        Ok(x) => x,
        Err(e) => {
            assert forall|a: Account| #![auto] account_decodable(a) && is_prefix(enc_account(a), rest) implies false by {
                lemma_account_parts(a, rest);
                assert(rest.subrange(32, rest.len() as int) =~= bytes@.subrange(p1 as int, bytes@.len() as int));
                lemma_named_keys_same_enc(named_keys@, a.named_keys@);
                assert(rest.subrange(32 + enc_list(a.named_keys@, fnk).len() as int, rest.len() as int) =~= bytes@.subrange(p2 as int, bytes@.len() as int));
            }
            return Err(e);
        },
    };
    let (associated_keys, p4) = match read_weights(bytes, p3) {
        Ok(x) => x,
        Err(e) => {
            assert forall|a: Account| #![auto] account_decodable(a) && is_prefix(enc_account(a), rest) implies false by {
                lemma_account_parts(a, rest);
                assert(rest.subrange(32, rest.len() as int) =~= bytes@.subrange(p1 as int, bytes@.len() as int));
                lemma_named_keys_same_enc(named_keys@, a.named_keys@);
                let o2 = 32 + enc_list(a.named_keys@, fnk).len() as int;
                assert(rest.subrange(o2, rest.len() as int) =~= bytes@.subrange(p2 as int, bytes@.len() as int));
                assert(rest.subrange(o2 + 33, rest.len() as int) =~= bytes@.subrange(p3 as int, bytes@.len() as int));
            }
            return Err(e);
        },
    };
    let (deployment_threshold, p5) = match read_u8(bytes, p4) {
        Ok(x) => x,
        Err(e) => {
            assert forall|a: Account| #![auto] account_decodable(a) && is_prefix(enc_account(a), rest) implies false by {
                lemma_account_parts(a, rest);
                assert(rest.subrange(32, rest.len() as int) =~= bytes@.subrange(p1 as int, bytes@.len() as int));
                lemma_named_keys_same_enc(named_keys@, a.named_keys@);
                let o2 = 32 + enc_list(a.named_keys@, fnk).len() as int;
                assert(rest.subrange(o2, rest.len() as int) =~= bytes@.subrange(p2 as int, bytes@.len() as int));
                assert(rest.subrange(o2 + 33, rest.len() as int) =~= bytes@.subrange(p3 as int, bytes@.len() as int));
            }
            return Err(e);
        },
    };
    let (key_management_threshold, p6) = match read_u8(bytes, p5) {
        Ok(x) => x,
        Err(e) => {
            assert forall|a: Account| #![auto] account_decodable(a) && is_prefix(enc_account(a), rest) implies false by {
                lemma_account_parts(a, rest);
                assert(rest.subrange(32, rest.len() as int) =~= bytes@.subrange(p1 as int, bytes@.len() as int));
                lemma_named_keys_same_enc(named_keys@, a.named_keys@);
                let o2 = 32 + enc_list(a.named_keys@, fnk).len() as int;
                assert(rest.subrange(o2, rest.len() as int) =~= bytes@.subrange(p2 as int, bytes@.len() as int));
                assert(rest.subrange(o2 + 33, rest.len() as int) =~= bytes@.subrange(p3 as int, bytes@.len() as int));
            }
            return Err(e);
        },
    };
    let acc = Account { account_hash, main_purse, named_keys, associated_keys, deployment_threshold, key_management_threshold };
    assert(bytes@.subrange(pos as int, p6 as int) =~= bytes@.subrange(pos as int, p1 as int)
        + bytes@.subrange(p1 as int, p2 as int) + bytes@.subrange(p2 as int, p3 as int)
        + bytes@.subrange(p3 as int, p4 as int) + bytes@.subrange(p4 as int, p5 as int)
        + bytes@.subrange(p5 as int, p6 as int));
    assert(bytes@.subrange(pos as int, p6 as int) =~= enc_account(acc));
    proof {
        assert forall|a: Account| #![auto] account_decodable(a) && is_prefix(enc_account(a), rest)
            implies acc@ == a@ && enc_account(acc) == enc_account(a) by {
            lemma_account_parts(a, rest);
            assert(rest.subrange(32, rest.len() as int) =~= bytes@.subrange(p1 as int, bytes@.len() as int));
            lemma_named_keys_same_enc(named_keys@, a.named_keys@);
            let o2 = 32 + enc_list(a.named_keys@, fnk).len() as int;
            assert(rest.subrange(o2, rest.len() as int) =~= bytes@.subrange(p2 as int, bytes@.len() as int));
            let o3 = o2 + 33;
            assert(rest.subrange(o3, rest.len() as int) =~= bytes@.subrange(p3 as int, bytes@.len() as int));
            assert(account_hash@ =~= rest.subrange(0, 32));
            crate::bytesrepr::lemma_addr_ext(account_hash, a.account_hash);
            let o4 = o3 + enc_list(a.associated_keys@, fw).len() as int;
            assert(p4 - pos == o4);
            assert(deployment_threshold == rest[o4]) by {
                assert(bytes@.subrange(p4 as int, p5 as int)[0] == deployment_threshold);
            }
            assert(key_management_threshold == rest[o4 + 1]) by {
                assert(bytes@.subrange(p5 as int, p6 as int)[0] == key_management_threshold);
            }
            crate::stored_value::lemma_named_key_map_pointwise(named_keys@, a.named_keys@);
        }
    }
    Ok((acc, p6))
}

/// A contract whose keys and references decode.
pub open spec fn contract_decodable(c: Contract) -> bool {
    named_keys_valid(c.named_keys@) && fits(c.entry_points@.len())
        && forall|i: int| 0 <= i < c.entry_points@.len() ==> entry_point_fits(#[trigger] c.entry_points@[i])
}

/// Where a contract's encoding begins a sequence, so does each of its parts
/// at its place.
pub proof fn lemma_contract_parts(c: Contract, rest: Seq<u8>)
    requires
        is_prefix(enc_contract(c), rest),
    ensures
        ({
            let nk = enc_list(c.named_keys@, |e: NamedKey| enc_named_key(e));
            let ep = enc_list(c.entry_points@, |e: EntryPoint| enc_entry_point(e));
            let o3 = 64 + nk.len() as int;
            let o4 = o3 + ep.len() as int;
            &&& rest.len() >= o4 + 12
            &&& rest.subrange(0, 32) == c.contract_package_hash@
            &&& rest.subrange(32, 64) == c.contract_wasm_hash@
            &&& is_prefix(nk, rest.subrange(64, rest.len() as int))
            &&& is_prefix(ep, rest.subrange(o3, rest.len() as int))
            &&& rest.subrange(o4, o4 + 4) == enc_u32(c.protocol_version.major)
            &&& rest.subrange(o4 + 4, o4 + 8) == enc_u32(c.protocol_version.minor)
            &&& rest.subrange(o4 + 8, o4 + 12) == enc_u32(c.protocol_version.patch)
        }),
{
    let e = enc_contract(c);
    let nk = enc_list(c.named_keys@, |e: NamedKey| enc_named_key(e));
    let ep = enc_list(c.entry_points@, |e: EntryPoint| enc_entry_point(e));
    let o3 = 64 + nk.len() as int;
    let o4 = o3 + ep.len() as int;
    lemma_pow256_values();
    crate::bytesrepr::lemma_le_bytes_len(c.protocol_version.major as nat, 4);
    crate::bytesrepr::lemma_le_bytes_len(c.protocol_version.minor as nat, 4);
    crate::bytesrepr::lemma_le_bytes_len(c.protocol_version.patch as nat, 4);
    assert(c.contract_package_hash@.len() == 32);
    assert(c.contract_wasm_hash@.len() == 32);
    assert(e.len() == o4 + 12);
    assert(e.subrange(0, 32) =~= c.contract_package_hash@);
    assert(e.subrange(32, 64) =~= c.contract_wasm_hash@);
    assert(e.subrange(64, o3) =~= nk);
    assert(e.subrange(o3, o4) =~= ep);
    assert(e.subrange(o4, o4 + 4) =~= enc_u32(c.protocol_version.major));
    assert(e.subrange(o4 + 4, o4 + 8) =~= enc_u32(c.protocol_version.minor));
    assert(e.subrange(o4 + 8, o4 + 12) =~= enc_u32(c.protocol_version.patch));
    lemma_prefix_shift(e, rest, 64, nk);
    lemma_prefix_shift(e, rest, o3, ep);
    assert(rest.subrange(0, 32) =~= e.subrange(0, 32));
    assert(rest.subrange(32, 64) =~= e.subrange(32, 64));
    assert(rest.subrange(o4, o4 + 4) =~= e.subrange(o4, o4 + 4));
    assert(rest.subrange(o4 + 4, o4 + 8) =~= e.subrange(o4 + 4, o4 + 8));
    assert(rest.subrange(o4 + 8, o4 + 12) =~= e.subrange(o4 + 8, o4 + 12));
}

#[verifier::spinoff_prover]
#[verifier::rlimit(100)]
fn read_contract(bytes: &[u8], pos: usize) -> (r: Result<(Contract, usize), CodecError>)
    requires
        pos <= bytes@.len(),
    ensures
        match r {
            Ok((c, p)) => pos <= p <= bytes@.len() && bytes@.subrange(pos as int, p as int) == enc_contract(c)
                && named_keys_fit(c.named_keys@) && fits(c.entry_points@.len())
                && forall|i: int| 0 <= i < c.entry_points@.len() ==> entry_point_fits(#[trigger] c.entry_points@[i]),
            Err(_) => true,
        },
        forall|c: Contract| #![auto] contract_decodable(c) && is_prefix(enc_contract(c), bytes@.subrange(pos as int, bytes@.len() as int))
            ==> (r matches Ok((w, p)) && w@ == c@ && enc_contract(w) == enc_contract(c)),
{
    let ghost rest = bytes@.subrange(pos as int, bytes@.len() as int);
    let ghost fnk = |e: NamedKey| enc_named_key(e);
    let ghost fep = |e: EntryPoint| enc_entry_point(e);
    let (contract_package_hash, p1) = match read_addr(bytes, pos) {
        Ok(x) => x,
        Err(e) => {
            assert forall|c: Contract| #![auto] contract_decodable(c) && is_prefix(enc_contract(c), rest) implies false by {
                lemma_contract_parts(c, rest);
            }
            return Err(e);
        },
    };
    let (contract_wasm_hash, p2) = match read_addr(bytes, p1) {
        Ok(x) => x,
        Err(e) => {
            assert forall|c: Contract| #![auto] contract_decodable(c) && is_prefix(enc_contract(c), rest) implies false by {
                lemma_contract_parts(c, rest);
            }
            return Err(e);
        },
    };
    let ghost r2 = bytes@.subrange(p2 as int, bytes@.len() as int);
    proof {
        assert forall|c: Contract| #![auto] contract_decodable(c) && is_prefix(enc_contract(c), rest)
            implies is_prefix(enc_list(c.named_keys@, fnk), r2) by {
            lemma_contract_parts(c, rest);
            assert(rest.subrange(64, rest.len() as int) =~= r2);
        }
    }
    let (named_keys, p3) = match read_named_keys(bytes, p2) {
        Ok(x) => x,
        Err(e) => {
            assert forall|c: Contract| #![auto] contract_decodable(c) && is_prefix(enc_contract(c), rest) implies false by {
                assert(is_prefix(enc_list(c.named_keys@, fnk), r2));
            }
            return Err(e);
        },
    };
    let ghost r3 = bytes@.subrange(p3 as int, bytes@.len() as int);
    proof {
        assert forall|c: Contract| #![auto] contract_decodable(c) && is_prefix(enc_contract(c), rest)
            implies named_keys_same(named_keys@, c.named_keys@) && is_prefix(enc_list(c.entry_points@, fep), r3)
                && p3 - pos == 64 + enc_list(c.named_keys@, fnk).len() by {
            lemma_contract_parts(c, rest);
            assert(is_prefix(enc_list(c.named_keys@, fnk), r2));
            lemma_named_keys_same_enc(named_keys@, c.named_keys@);
            let o3 = 64 + enc_list(c.named_keys@, fnk).len() as int;
            assert(rest.subrange(o3, rest.len() as int) =~= r3);
        }
    }
    let (entry_points, p4) = match read_entry_points(bytes, p3) {
        Ok(x) => x,
        Err(e) => {
            assert forall|c: Contract| #![auto] contract_decodable(c) && is_prefix(enc_contract(c), rest) implies false by {
                assert(is_prefix(enc_list(c.entry_points@, fep), r3));
            }
            return Err(e);
        },
    };
    proof {
        assert forall|c: Contract| #![auto] contract_decodable(c) && is_prefix(enc_contract(c), rest)
            implies p4 - pos == 64 + enc_list(c.named_keys@, fnk).len() + enc_list(c.entry_points@, fep).len()
                && entry_points@.len() == c.entry_points@.len()
                && (forall|j: int| 0 <= j < entry_points@.len() ==> (#[trigger] entry_points@[j])@ == c.entry_points@[j]@
                    && enc_entry_point(entry_points@[j]) == enc_entry_point(c.entry_points@[j])) by {
            assert(is_prefix(enc_list(c.entry_points@, fep), r3));
            lemma_entry_points_same_enc(entry_points@, c.entry_points@);
        }
    }
    let (major, p5) = match read_u32(bytes, p4) {
        Ok(x) => x,
        Err(e) => {
            assert forall|c: Contract| #![auto] contract_decodable(c) && is_prefix(enc_contract(c), rest) implies false by {
                lemma_contract_parts(c, rest);
            }
            return Err(e);
        },
    };
    let (minor, p6) = match read_u32(bytes, p5) {
        Ok(x) => x,
        Err(e) => {
            assert forall|c: Contract| #![auto] contract_decodable(c) && is_prefix(enc_contract(c), rest) implies false by {
                lemma_contract_parts(c, rest);
            }
            return Err(e);
        },
    };
    let (patch, p7) = match read_u32(bytes, p6) {
        Ok(x) => x,
        Err(e) => {
            assert forall|c: Contract| #![auto] contract_decodable(c) && is_prefix(enc_contract(c), rest) implies false by {
                lemma_contract_parts(c, rest);
            }
            return Err(e);
        },
    };
    let c = Contract {
        contract_package_hash,
        contract_wasm_hash,
        named_keys,
        entry_points,
        protocol_version: crate::stored_value::ProtocolVersion { major, minor, patch },
    };
    assert(bytes@.subrange(pos as int, p7 as int) =~= bytes@.subrange(pos as int, p1 as int)
        + bytes@.subrange(p1 as int, p2 as int) + bytes@.subrange(p2 as int, p3 as int)
        + bytes@.subrange(p3 as int, p4 as int) + bytes@.subrange(p4 as int, p5 as int)
        + bytes@.subrange(p5 as int, p6 as int) + bytes@.subrange(p6 as int, p7 as int));
    assert(bytes@.subrange(pos as int, p7 as int) =~= enc_contract(c));
    proof {
        lemma_pow256_values();
        assert forall|x: Contract| #![auto] contract_decodable(x) && is_prefix(enc_contract(x), rest)
            implies c@ == x@ && enc_contract(c) == enc_contract(x) by {
            lemma_contract_parts(x, rest);
            assert(contract_package_hash@ =~= rest.subrange(0, 32));
            assert(contract_wasm_hash@ =~= rest.subrange(32, 64));
            crate::bytesrepr::lemma_addr_ext(contract_package_hash, x.contract_package_hash);
            crate::bytesrepr::lemma_addr_ext(contract_wasm_hash, x.contract_wasm_hash);
            let o4 = 64 + enc_list(x.named_keys@, fnk).len() as int + enc_list(x.entry_points@, fep).len() as int;
            assert(p4 - pos == o4);
            assert(rest.subrange(o4, o4 + 4) =~= bytes@.subrange(p4 as int, p5 as int));
            assert(rest.subrange(o4 + 4, o4 + 8) =~= bytes@.subrange(p5 as int, p6 as int));
            assert(rest.subrange(o4 + 8, o4 + 12) =~= bytes@.subrange(p6 as int, p7 as int));
            lemma_le_injective(major as nat, x.protocol_version.major as nat, 4);
            lemma_le_injective(minor as nat, x.protocol_version.minor as nat, 4);
            lemma_le_injective(patch as nat, x.protocol_version.patch as nat, 4);
            crate::stored_value::lemma_named_key_map_pointwise(named_keys@, x.named_keys@);
            assert(c@.entry_points =~= x@.entry_points);
            lemma_entry_points_same_enc(entry_points@, x.entry_points@);
        }
    }
    Ok((c, p7))
}

/// A package whose every reference decodes.
pub open spec fn package_decodable(c: ContractPackage) -> bool {
    uref_valid(c.access_key) && fits(c.versions@.len()) && fits(c.disabled_versions@.len()) && groups_decodable(c.groups@)
}

/// Where a package's encoding begins a sequence, so does each of its parts
/// at its place.
pub proof fn lemma_package_parts(c: ContractPackage, rest: Seq<u8>)
    requires
        is_prefix(enc_package(c), rest),
    ensures
        ({
            let lv = enc_list(c.versions@, |e: (ContractVersionKey, Addr)| enc_version_entry(e));
            let ld = enc_list(c.disabled_versions@, |v: ContractVersionKey| enc_version(v));
            let lg = enc_list(c.groups@, |g: (Name, Vec<URef>)| enc_group(g));
            &&& is_prefix(enc_uref(c.access_key), rest)
            &&& is_prefix(lv, rest.subrange(33, rest.len() as int))
            &&& is_prefix(ld, rest.subrange(33 + lv.len() as int, rest.len() as int))
            &&& is_prefix(lg, rest.subrange(33 + lv.len() + ld.len() as int, rest.len() as int))
        }),
{
    let e = enc_package(c);
    let lv = enc_list(c.versions@, |e: (ContractVersionKey, Addr)| enc_version_entry(e));
    let ld = enc_list(c.disabled_versions@, |v: ContractVersionKey| enc_version(v));
    let lg = enc_list(c.groups@, |g: (Name, Vec<URef>)| enc_group(g));
    assert(c.access_key.addr@.len() == 32);
    let o1 = 33int;
    let o2 = o1 + lv.len() as int;
    let o3 = o2 + ld.len() as int;
    assert(e.subrange(0, 33) =~= enc_uref(c.access_key));
    assert(e.subrange(o1, o2) =~= lv);
    assert(e.subrange(o2, o3) =~= ld);
    assert(e.subrange(o3, o3 + lg.len()) =~= lg);
    lemma_prefix_shift(e, rest, 0, enc_uref(c.access_key));
    assert(rest.subrange(0, rest.len() as int) =~= rest);
    lemma_prefix_shift(e, rest, o1, lv);
    lemma_prefix_shift(e, rest, o2, ld);
    lemma_prefix_shift(e, rest, o3, lg);
}

#[verifier::spinoff_prover]
#[verifier::rlimit(100)]
fn read_package(bytes: &[u8], pos: usize) -> (r: Result<(ContractPackage, usize), CodecError>)
    requires
        pos <= bytes@.len(),
    ensures
        match r {
            Ok((c, p)) => pos <= p <= bytes@.len() && bytes@.subrange(pos as int, p as int) == enc_package(c)
                && fits(c.versions@.len()) && fits(c.disabled_versions@.len()) && groups_fit(c.groups@),
            Err(_) => true,
        },
        forall|c: ContractPackage| #![auto] package_decodable(c) && is_prefix(enc_package(c), bytes@.subrange(pos as int, bytes@.len() as int))
            ==> (r matches Ok((w, p)) && w@ == c@ && enc_package(w) == enc_package(c)),
{
    let ghost rest = bytes@.subrange(pos as int, bytes@.len() as int);
    let ghost fv = |e: (ContractVersionKey, Addr)| enc_version_entry(e);
    let ghost fd = |v: ContractVersionKey| enc_version(v);
    let ghost fg = |g: (Name, Vec<URef>)| enc_group(g);
    let (access_key, p1) = match read_uref_at(bytes, pos) {
        Ok(x) => x,
        Err(e) => {
            assert forall|c: ContractPackage| #![auto] package_decodable(c) && is_prefix(enc_package(c), rest) implies false by {
                lemma_package_parts(c, rest);
            }
            return Err(e);
        },
    };
    let ghost o1 = (p1 - pos) as int;
    proof {
        assert forall|c: ContractPackage| #![auto] package_decodable(c) && is_prefix(enc_package(c), rest)
            implies c.access_key == access_key && o1 == 33 by {
            lemma_package_parts(c, rest);
        }
    }
    let (versions, p2) = match read_version_entries(bytes, p1) {
        Ok(x) => x,
        Err(e) => {
            assert forall|c: ContractPackage| #![auto] package_decodable(c) && is_prefix(enc_package(c), rest) implies false by {
                lemma_package_parts(c, rest);
                assert(rest.subrange(33, rest.len() as int) =~= bytes@.subrange(p1 as int, bytes@.len() as int));
            }
            return Err(e);
        },
    };
    proof {
        assert forall|c: ContractPackage| #![auto] package_decodable(c) && is_prefix(enc_package(c), rest)
            implies versions@ == c.versions@ && p2 - pos == 33 + enc_list(c.versions@, fv).len() by {
            lemma_package_parts(c, rest);
            assert(rest.subrange(33, rest.len() as int) =~= bytes@.subrange(p1 as int, bytes@.len() as int));
        }
    }
    let (disabled_versions, p3) = match read_versions(bytes, p2) {
        Ok(x) => x,
        Err(e) => {
            assert forall|c: ContractPackage| #![auto] package_decodable(c) && is_prefix(enc_package(c), rest) implies false by {
                lemma_package_parts(c, rest);
                let lv = enc_list(c.versions@, fv).len() as int;
                assert(rest.subrange(33 + lv, rest.len() as int) =~= bytes@.subrange(p2 as int, bytes@.len() as int));
            }
            return Err(e);
        },
    };
    proof {
        assert forall|c: ContractPackage| #![auto] package_decodable(c) && is_prefix(enc_package(c), rest)
            implies disabled_versions@ == c.disabled_versions@
                && p3 - pos == 33 + enc_list(c.versions@, fv).len() + enc_list(c.disabled_versions@, fd).len() by {
            lemma_package_parts(c, rest);
            let lv = enc_list(c.versions@, fv).len() as int;
            assert(rest.subrange(33 + lv, rest.len() as int) =~= bytes@.subrange(p2 as int, bytes@.len() as int));
        }
    }
    let (groups, p4) = match read_groups(bytes, p3) {
        Ok(x) => x,
        Err(e) => {
            assert forall|c: ContractPackage| #![auto] package_decodable(c) && is_prefix(enc_package(c), rest) implies false by {
                lemma_package_parts(c, rest);
                let lv = enc_list(c.versions@, fv).len() as int;
                let ld = enc_list(c.disabled_versions@, fd).len() as int;
                assert(rest.subrange(33 + lv + ld, rest.len() as int) =~= bytes@.subrange(p3 as int, bytes@.len() as int));
            }
            return Err(e);
        },
    };
    let c = ContractPackage { access_key, versions, disabled_versions, groups };
    assert(bytes@.subrange(pos as int, p4 as int) =~= bytes@.subrange(pos as int, p1 as int)
        + bytes@.subrange(p1 as int, p2 as int) + bytes@.subrange(p2 as int, p3 as int)
        + bytes@.subrange(p3 as int, p4 as int));
    assert(bytes@.subrange(pos as int, p4 as int) =~= enc_package(c));
    proof {
        assert forall|x: ContractPackage| #![auto] package_decodable(x) && is_prefix(enc_package(x), rest)
            implies c@ == x@ && enc_package(c) == enc_package(x) by {
            lemma_package_parts(x, rest);
            let lv = enc_list(x.versions@, fv).len() as int;
            let ld = enc_list(x.disabled_versions@, fd).len() as int;
            assert(rest.subrange(33 + lv + ld, rest.len() as int) =~= bytes@.subrange(p3 as int, bytes@.len() as int));
            assert(groups_same(c.groups@, x.groups@));
            lemma_groups_same_enc(c.groups@, x.groups@);
            assert(c@.groups =~= x@.groups);
        }
    }
    Ok((c, p4))
}

/// Whether a stored value is a typed value or raw module bytes.
pub open spec fn is_plain_value(v: StoredValue) -> bool {
    v is CLValue || v is ContractWasm
}

/// Whether decoding gives a stored value back: every key in it is valid
/// and every reference carries a rights mask of the three defined bits.
pub open spec fn round_trips(v: StoredValue) -> bool {
    match v {
        StoredValue::CLValue(_) => true,
        StoredValue::ContractWasm(_) => true,
        StoredValue::Account(a) => account_decodable(a),
        StoredValue::ContractPackage(c) => package_decodable(c),
        StoredValue::Contract(c) => contract_decodable(c),
    }
}

/// A typed value or module bytes whose encoding begins a byte sequence is
/// the only one that does, up to its view.
pub proof fn lemma_plain_value_prefix_unique(a: StoredValue, b: StoredValue, s: Seq<u8>)
    requires
        is_plain_value(a),
        stored_value_fits(a),
        stored_value_fits(b),
        is_prefix(enc_stored_value(a), s),
        is_prefix(enc_stored_value(b), s),
    ensures
        a@ == b@,
        enc_stored_value(a) == enc_stored_value(b),
{
    assert(enc_stored_value(a)[0] == s[0]);
    assert(enc_stored_value(b)[0] == s[0]);
    let t = s.subrange(1, s.len() as int);
    match (a, b) {
        (StoredValue::CLValue(x), StoredValue::CLValue(y)) => {
            assert(enc_stored_value(a).subrange(1, 1 + enc_clvalue(x@).len() as int) =~= enc_clvalue(x@));
            assert(enc_stored_value(b).subrange(1, 1 + enc_clvalue(y@).len() as int) =~= enc_clvalue(y@));
            lemma_prefix_shift(enc_stored_value(a), s, 1, enc_clvalue(x@));
            lemma_prefix_shift(enc_stored_value(b), s, 1, enc_clvalue(y@));
            lemma_clvalue_prefix_unique(x@, y@, t);
        },
        (StoredValue::ContractWasm(x), StoredValue::ContractWasm(y)) => {
            assert(enc_stored_value(a).subrange(1, 1 + enc_bytes(x@).len() as int) =~= enc_bytes(x@));
            assert(enc_stored_value(b).subrange(1, 1 + enc_bytes(y@).len() as int) =~= enc_bytes(y@));
            lemma_prefix_shift(enc_stored_value(a), s, 1, enc_bytes(x@));
            lemma_prefix_shift(enc_stored_value(b), s, 1, enc_bytes(y@));
            lemma_bytes_prefix_unique(x@, y@, t);
        },
        _ => {},
    }
}

impl StoredValue {
    /// Decodes a stored value from the start of `bytes`, and tells how many
    /// bytes it took. Every value whose keys and references decode is given
    /// back from its encoding, whatever follows it; empty input fails with
    /// `EarlyEndOfStream`, an unknown tag with `Formatting`.
    #[verifier::spinoff_prover]
    #[verifier::rlimit(100)]
    pub fn from_bytes(bytes: &[u8]) -> (r: Result<(StoredValue, usize), CodecError>)
        ensures
            match r {
                Ok((v, p)) => p <= bytes@.len() && bytes@.subrange(0, p as int) == enc_stored_value(v)
                    && stored_value_fits(v),
                Err(e) => (bytes@.len() == 0 ==> e == CodecError::EarlyEndOfStream)
                    && (bytes@.len() > 0 && bytes@[0] > 4 ==> e == CodecError::Formatting),
            },
            forall|v: StoredValue| #![auto] round_trips(v) && stored_value_fits(v) && is_prefix(enc_stored_value(v), bytes@)
                ==> (r matches Ok((w, p)) && w@ == v@ && p == enc_stored_value(v).len()),
    {
        let ghost s = bytes@;
        let (tag, p1) = match read_u8(bytes, 0) {
            Ok(x) => x,
            Err(e) => {
                assert forall|v: StoredValue| #![auto] round_trips(v) && stored_value_fits(v)
                    implies !is_prefix(enc_stored_value(v), s) by {}
                return Err(e);
            },
        };
        assert(tag == s[0]) by {
            assert(bytes@.subrange(0, p1 as int)[0] == tag);
        }
        let ghost rest = bytes@.subrange(1, bytes@.len() as int);
        let r: Result<(StoredValue, usize), CodecError> = if tag == 0 {
            match read_clvalue(bytes, 1) {
                Ok((c, p)) => {
                    let v = StoredValue::CLValue(c);
                    assert(bytes@.subrange(0, p as int) =~= seq![tag] + bytes@.subrange(1, p as int));
                    assert(bytes@.subrange(0, p as int) == enc_stored_value(v) && stored_value_fits(v));
                    Ok((v, p))
                },
                Err(e) => {
                    assert forall|v: StoredValue| #![auto] round_trips(v) && stored_value_fits(v)
                        implies !is_prefix(enc_stored_value(v), s) by {
                        if is_prefix(enc_stored_value(v), s) {
                            assert(enc_stored_value(v)[0] == s[0]);
                            if let StoredValue::CLValue(x) = v {
                                assert(enc_stored_value(v).subrange(1, 1 + enc_clvalue(x@).len() as int) =~= enc_clvalue(x@));
                                lemma_prefix_shift(enc_stored_value(v), s, 1, enc_clvalue(x@));
                            }
                        }
                    }
                    Err(e)
                },
            }
        } else if tag == 1 {
            match read_account(bytes, 1) {
                Ok((a, p)) => {
                    assert(bytes@.subrange(0, p as int) =~= seq![tag] + bytes@.subrange(1, p as int));
                    let v = StoredValue::Account(a);
                    assert(bytes@.subrange(0, p as int) == enc_stored_value(v) && stored_value_fits(v));
                    Ok((v, p))
                },
                Err(e) => {
                    assert forall|v: StoredValue| #![auto] round_trips(v) && stored_value_fits(v)
                        implies !is_prefix(enc_stored_value(v), s) by {
                        if is_prefix(enc_stored_value(v), s) {
                            assert(enc_stored_value(v)[0] == s[0]);
                            if let StoredValue::Account(x) = v {
                                assert(enc_stored_value(v).subrange(1, 1 + enc_account(x).len() as int) =~= enc_account(x));
                                lemma_prefix_shift(enc_stored_value(v), s, 1, enc_account(x));
                            }
                        }
                    }
                    Err(e)
                },
            }
        } else if tag == 2 {
            match read_bytes(bytes, 1) {
                Ok((w, p)) => {
                    assert(bytes@.subrange(0, p as int) =~= seq![tag] + bytes@.subrange(1, p as int));
                    let v = StoredValue::ContractWasm(w);
                    assert(bytes@.subrange(0, p as int) == enc_stored_value(v) && stored_value_fits(v));
                    Ok((v, p))
                },
                Err(e) => {
                    assert forall|v: StoredValue| #![auto] round_trips(v) && stored_value_fits(v)
                        implies !is_prefix(enc_stored_value(v), s) by {
                        if is_prefix(enc_stored_value(v), s) {
                            assert(enc_stored_value(v)[0] == s[0]);
                            if let StoredValue::ContractWasm(x) = v {
                                assert(enc_stored_value(v).subrange(1, 1 + enc_bytes(x@).len() as int) =~= enc_bytes(x@));
                                lemma_prefix_shift(enc_stored_value(v), s, 1, enc_bytes(x@));
                            }
                        }
                    }
                    Err(e)
                },
            }
        } else if tag == 3 {
            match read_contract(bytes, 1) {
                Ok((c, p)) => {
                    assert(bytes@.subrange(0, p as int) =~= seq![tag] + bytes@.subrange(1, p as int));
                    let v = StoredValue::Contract(c);
                    assert(bytes@.subrange(0, p as int) == enc_stored_value(v) && stored_value_fits(v));
                    Ok((v, p))
                },
                Err(e) => {
                    assert forall|v: StoredValue| #![auto] round_trips(v) && stored_value_fits(v)
                        implies !is_prefix(enc_stored_value(v), s) by {
                        if is_prefix(enc_stored_value(v), s) {
                            assert(enc_stored_value(v)[0] == s[0]);
                            if let StoredValue::Contract(x) = v {
                                assert(enc_stored_value(v).subrange(1, 1 + enc_contract(x).len() as int) =~= enc_contract(x));
                                lemma_prefix_shift(enc_stored_value(v), s, 1, enc_contract(x));
                            }
                        }
                    }
                    Err(e)
                },
            }
        } else if tag == 4 {
            match read_package(bytes, 1) {
                Ok((c, p)) => {
                    assert(bytes@.subrange(0, p as int) =~= seq![tag] + bytes@.subrange(1, p as int));
                    let v = StoredValue::ContractPackage(c);
                    assert(bytes@.subrange(0, p as int) == enc_stored_value(v));
                    assert(stored_value_fits(v));
                    Ok((v, p))
                },
                Err(e) => {
                    assert forall|v: StoredValue| #![auto] round_trips(v) && stored_value_fits(v)
                        implies !is_prefix(enc_stored_value(v), s) by {
                        if is_prefix(enc_stored_value(v), s) {
                            assert(enc_stored_value(v)[0] == s[0]);
                            if let StoredValue::ContractPackage(x) = v {
                                assert(enc_stored_value(v).subrange(1, 1 + enc_package(x).len() as int) =~= enc_package(x));
                                lemma_prefix_shift(enc_stored_value(v), s, 1, enc_package(x));
                            }
                        }
                    }
                    Err(e)
                },
            }
        } else {
            Err(CodecError::Formatting)
        };
        proof {
            assert forall|v: StoredValue| #![auto] round_trips(v) && stored_value_fits(v) && is_prefix(enc_stored_value(v), s)
                implies (r matches Ok((w, p)) && w@ == v@ && p == enc_stored_value(v).len()) by {
                assert(enc_stored_value(v)[0] == s[0]);
                if let StoredValue::Account(x) = v {
                    assert(enc_stored_value(v).subrange(1, 1 + enc_account(x).len() as int) =~= enc_account(x));
                    lemma_prefix_shift(enc_stored_value(v), s, 1, enc_account(x));
                    if let Ok((w, p)) = r {
                        assert(s.subrange(0, p as int) == enc_stored_value(w));
                    }
                } else if let StoredValue::Contract(x) = v {
                    assert(enc_stored_value(v).subrange(1, 1 + enc_contract(x).len() as int) =~= enc_contract(x));
                    lemma_prefix_shift(enc_stored_value(v), s, 1, enc_contract(x));
                    if let Ok((w, p)) = r {
                        assert(s.subrange(0, p as int) == enc_stored_value(w));
                    }
                } else if let StoredValue::ContractPackage(x) = v {
                    assert(enc_stored_value(v).subrange(1, 1 + enc_package(x).len() as int) =~= enc_package(x));
                    lemma_prefix_shift(enc_stored_value(v), s, 1, enc_package(x));
                    if let Ok((w, p)) = r {
                        assert(s.subrange(0, p as int) == enc_stored_value(w));
                    }
                } else if let Ok((w, p)) = r {
                    assert(s.subrange(0, p as int) == enc_stored_value(w));
                    lemma_plain_value_prefix_unique(v, w, s);
                }
            }
        }
        r
    }
}


impl Key {
    /// The key's encoding.
    pub fn to_bytes(&self) -> (r: Vec<u8>)
        ensures
            r@ == enc_key(*self),
    {
        let mut buf: Vec<u8> = Vec::new();
        write_key(&mut buf, self);
        assert(buf@ =~= enc_key(*self));
        buf
    }

    /// Decodes a key from the start of `bytes`, and tells how many bytes it
    /// took.
    pub fn from_bytes(bytes: &[u8]) -> (r: Result<(Key, usize), CodecError>)
        ensures
            match r {
                Ok((k, p)) => dec_key(bytes@) == Some((k, p as nat)),
                Err(_) => dec_key(bytes@) is None,
            },
    {
        assert(bytes@.subrange(0, bytes@.len() as int) =~= bytes@);
        read_key(bytes, 0)
    }
}

impl URef {
    /// The reference's encoding: its address, then its rights.
    pub fn to_bytes(&self) -> (r: Vec<u8>)
        ensures
            r@ == enc_uref(*self),
    {
        let mut buf: Vec<u8> = Vec::new();
        write_uref(&mut buf, self);
        assert(buf@ =~= enc_uref(*self));
        buf
    }

    /// Decodes a reference from the start of `bytes`, and tells how many
    /// bytes it took.
    pub fn from_bytes(bytes: &[u8]) -> (r: Result<(URef, usize), CodecError>)
        ensures
            match r {
                Ok((u, p)) => dec_uref(bytes@) == Some((u, p as nat)),
                Err(_) => dec_uref(bytes@) is None,
            },
    {
        assert(bytes@.subrange(0, bytes@.len() as int) =~= bytes@);
        read_uref(bytes, 0)
    }
}

impl CLValue {
    /// The value's encoding.
    pub fn to_bytes(&self) -> (r: Vec<u8>)
        requires
            fits(self.bytes@.len()),
        ensures
            r@ == enc_clvalue(self@),
    {
        let mut buf: Vec<u8> = Vec::new();
        write_clvalue(&mut buf, self);
        assert(buf@ =~= enc_clvalue(self@));
        buf
    }

    /// Decodes a typed value from the start of `bytes`, and tells how many
    /// bytes it took. A value is decoded back from its encoding, whatever
    /// follows it.
    pub fn from_bytes(bytes: &[u8]) -> (r: Result<(CLValue, usize), CodecError>)
        ensures
            match r {
                Ok((v, p)) => p <= bytes@.len() && bytes@.subrange(0, p as int) == enc_clvalue(v@) && fits(v.bytes@.len()),
                Err(_) => true,
            },
            forall|v: CLValueView| #![auto] fits(v.bytes.len()) && is_prefix(enc_clvalue(v), bytes@)
                ==> (r matches Ok((w, p)) && w@ == v && p == enc_clvalue(v).len()),
    {
        assert(bytes@.subrange(0, bytes@.len() as int) =~= bytes@);
        let r = read_clvalue(bytes, 0);
        proof {
            assert forall|v: CLValueView| #![auto] fits(v.bytes.len()) && is_prefix(enc_clvalue(v), bytes@)
                implies (r matches Ok((w, p)) && w@ == v && p == enc_clvalue(v).len()) by {
                if let Ok((w, p)) = r {
                    lemma_clvalue_prefix_unique(v, w@, bytes@);
                }
            }
        }
        r
    }
}

} // verus!
