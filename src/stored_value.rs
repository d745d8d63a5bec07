//! The values held in global state and their typed-value domain.
use vstd::prelude::*;
use vstd::string::StringExecFns;
use crate::keys::{Addr, Key, URef};

verus! {

/// A name in a named-key map: UTF-8 bytes.
pub type Name = Vec<u8>;

/// The type of a typed value.
#[derive(Debug, PartialEq, Eq)]
pub enum CLType {
    Bool,
    I32,
    I64,
    U8,
    U32,
    U64,
    U128,
    U256,
    U512,
    Unit,
    String,
    Key,
    URef,
    Option(Box<CLType>),
    List(Box<CLType>),
    ByteArray(u32),
    Result { ok: Box<CLType>, err: Box<CLType> },
    Any,
}

impl Clone for CLType {
    fn clone(&self) -> (r: CLType)
        ensures
            r == *self,
        decreases self,
    {
        match self {
            CLType::Bool => CLType::Bool,
            CLType::I32 => CLType::I32,
            CLType::I64 => CLType::I64,
            CLType::U8 => CLType::U8,
            CLType::U32 => CLType::U32,
            CLType::U64 => CLType::U64,
            CLType::U128 => CLType::U128,
            CLType::U256 => CLType::U256,
            CLType::U512 => CLType::U512,
            CLType::Unit => CLType::Unit,
            CLType::String => CLType::String,
            CLType::Key => CLType::Key,
            CLType::URef => CLType::URef,
            CLType::Option(t) => CLType::Option(Box::new((**t).clone())),
            CLType::List(t) => CLType::List(Box::new((**t).clone())),
            CLType::ByteArray(n) => CLType::ByteArray(*n),
            CLType::Result { ok, err } => CLType::Result {
                ok: Box::new((**ok).clone()),
                err: Box::new((**err).clone()),
            },
            CLType::Any => CLType::Any,
        }
    }
}

/// A typed value: its type, and its value's serialized bytes.
#[derive(Debug, PartialEq, Eq)]
pub struct CLValue {
    pub cl_type: CLType,
    pub bytes: Vec<u8>,
}

/// A named key: a name and the key that it stands for.
pub type NamedKey = (Name, Key);

/// The map that a list of named keys stands for; a later entry for a name
/// replaces an earlier one.
pub open spec fn named_key_map(s: Seq<NamedKey>) -> Map<Seq<u8>, Key>
    decreases s.len(),
{
    if s.len() == 0 {
        Map::empty()
    } else {
        named_key_map(s.drop_last()).insert(s.last().0@, s.last().1)
    }
}

/// A user account.
#[derive(Debug, PartialEq, Eq)]
pub struct Account {
    pub account_hash: Addr,
    pub main_purse: URef,
    pub named_keys: Vec<NamedKey>,
    pub associated_keys: Vec<(Addr, u8)>,
    pub deployment_threshold: u8,
    pub key_management_threshold: u8,
}

/// Whether an entry point runs in the caller's context or the contract's own.
#[derive(Clone, Copy, Debug, PartialEq, Eq, Structural)]
pub enum EntryPointType {
    Session,
    Contract,
}

/// Who may call an entry point.
#[derive(Debug, PartialEq, Eq)]
pub enum EntryPointAccess {
    Public,
    Groups(Vec<Name>),
}

/// A named, typed parameter of an entry point.
#[derive(Debug, PartialEq, Eq)]
pub struct Parameter {
    pub name: Name,
    pub cl_type: CLType,
}

/// A callable entry point of a stored contract.
#[derive(Debug, PartialEq, Eq)]
pub struct EntryPoint {
    pub name: Name,
    pub args: Vec<Parameter>,
    pub ret: CLType,
    pub access: EntryPointAccess,
    pub entry_point_type: EntryPointType,
}

/// A protocol version.
#[derive(Clone, Copy, Debug, PartialEq, Eq, Structural)]
pub struct ProtocolVersion {
    pub major: u32,
    pub minor: u32,
    pub patch: u32,
}

/// A callable stored contract.
#[derive(Debug, PartialEq, Eq)]
pub struct Contract {
    pub contract_package_hash: Addr,
    pub contract_wasm_hash: Addr,
    pub named_keys: Vec<NamedKey>,
    pub entry_points: Vec<EntryPoint>,
    pub protocol_version: ProtocolVersion,
}

/// A contract version: the protocol's major version and the contract's own
/// version number under it.
pub type ContractVersionKey = (u32, u32);

/// The registry of a contract's versions.
#[derive(Debug, PartialEq, Eq)]
pub struct ContractPackage {
    pub access_key: URef,
    pub versions: Vec<(ContractVersionKey, Addr)>,
    pub disabled_versions: Vec<ContractVersionKey>,
    pub groups: Vec<(Name, Vec<URef>)>,
}

/// A value held in global state.
#[derive(Debug, PartialEq, Eq)]
pub enum StoredValue {
    CLValue(CLValue),
    Account(Account),
    ContractWasm(Vec<u8>),
    Contract(Contract),
    ContractPackage(ContractPackage),
}


// ------------------------------------------------------------------ views

/// The bytes of each name in a list of names.
pub open spec fn names_view(s: Seq<Name>) -> Seq<Seq<u8>> {
    s.map_values(|n: Name| n@)
}

pub struct CLValueView {
    pub cl_type: CLType,
    pub bytes: Seq<u8>,
}

impl View for CLValue {
    type V = CLValueView;

    open spec fn view(&self) -> CLValueView {
        CLValueView { cl_type: self.cl_type, bytes: self.bytes@ }
    }
}

pub struct AccountView {
    pub account_hash: Addr,
    pub main_purse: URef,
    pub named_keys: Map<Seq<u8>, Key>,
    pub associated_keys: Seq<(Addr, u8)>,
    pub deployment_threshold: u8,
    pub key_management_threshold: u8,
}

impl View for Account {
    type V = AccountView;

    open spec fn view(&self) -> AccountView {
        AccountView {
            account_hash: self.account_hash,
            main_purse: self.main_purse,
            named_keys: named_key_map(self.named_keys@),
            associated_keys: self.associated_keys@,
            deployment_threshold: self.deployment_threshold,
            key_management_threshold: self.key_management_threshold,
        }
    }
}

pub struct EntryPointView {
    pub name: Seq<u8>,
    pub args: Seq<(Seq<u8>, CLType)>,
    pub ret: CLType,
    /// `None` for a public entry point, else the groups that may call it.
    pub groups: Option<Seq<Seq<u8>>>,
    pub entry_point_type: EntryPointType,
}

impl View for EntryPoint {
    type V = EntryPointView;

    open spec fn view(&self) -> EntryPointView {
        EntryPointView {
            name: self.name@,
            args: self.args@.map_values(|p: Parameter| (p.name@, p.cl_type)),
            ret: self.ret,
            groups: match self.access {
                EntryPointAccess::Public => None,
                EntryPointAccess::Groups(g) => Some(names_view(g@)),
            },
            entry_point_type: self.entry_point_type,
        }
    }
}

pub struct ContractView {
    pub contract_package_hash: Addr,
    pub contract_wasm_hash: Addr,
    pub named_keys: Map<Seq<u8>, Key>,
    pub entry_points: Seq<EntryPointView>,
    pub protocol_version: ProtocolVersion,
}

impl View for Contract {
    type V = ContractView;

    open spec fn view(&self) -> ContractView {
        ContractView {
            contract_package_hash: self.contract_package_hash,
            contract_wasm_hash: self.contract_wasm_hash,
            named_keys: named_key_map(self.named_keys@),
            entry_points: self.entry_points@.map_values(|e: EntryPoint| e@),
            protocol_version: self.protocol_version,
        }
    }
}

pub struct ContractPackageView {
    pub access_key: URef,
    pub versions: Seq<(ContractVersionKey, Addr)>,
    pub disabled_versions: Seq<ContractVersionKey>,
    pub groups: Seq<(Seq<u8>, Seq<URef>)>,
}

impl View for ContractPackage {
    type V = ContractPackageView;

    open spec fn view(&self) -> ContractPackageView {
        ContractPackageView {
            access_key: self.access_key,
            versions: self.versions@,
            disabled_versions: self.disabled_versions@,
            groups: self.groups@.map_values(|g: (Name, Vec<URef>)| (g.0@, g.1@)),
        }
    }
}

pub enum StoredValueView {
    CLValue(CLValueView),
    Account(AccountView),
    ContractWasm(Seq<u8>),
    Contract(ContractView),
    ContractPackage(ContractPackageView),
}

impl View for StoredValue {
    type V = StoredValueView;

    open spec fn view(&self) -> StoredValueView {
        match self {
            StoredValue::CLValue(v) => StoredValueView::CLValue(v@),
            StoredValue::Account(a) => StoredValueView::Account(a@),
            StoredValue::ContractWasm(w) => StoredValueView::ContractWasm(w@),
            StoredValue::Contract(c) => StoredValueView::Contract(c@),
            StoredValue::ContractPackage(p) => StoredValueView::ContractPackage(p@),
        }
    }
}

// ----------------------------------------------------------------- copies

/// Copies a list of values whose copies are equal to them.
fn copy_list<T: Copy>(v: &Vec<T>) -> (r: Vec<T>)
    ensures
        r@ == v@,
{
    let mut r: Vec<T> = Vec::new();
    let mut i: usize = 0;
    while i < v.len()
        invariant
            i <= v@.len(),
            r@ == v@.subrange(0, i as int),
        decreases v@.len() - i,
    {
        r.push(v[i]);
        assert(v@.subrange(0, i + 1) =~= v@.subrange(0, i as int) + seq![v@[i as int]]);
        i = i + 1;
    }
    assert(v@.subrange(0, v@.len() as int) =~= v@);
    r
}

fn copy_name(n: &Name) -> (r: Name)
    ensures
        r@ == n@,
{
    n.clone()
}

fn copy_names(v: &Vec<Name>) -> (r: Vec<Name>)
    ensures
        names_view(r@) == names_view(v@),
{
    let mut r: Vec<Name> = Vec::new();
    let mut i: usize = 0;
    while i < v.len()
        invariant
            i <= v@.len(),
            r@.len() == i,
            forall|j: int| 0 <= j < i ==> r@[j]@ == v@[j]@,
        decreases v@.len() - i,
    {
        r.push(copy_name(&v[i]));
        i = i + 1;
    }
    assert(names_view(r@) =~= names_view(v@));
    r
}

/// Two lists of named keys with the same names and keys, entry by entry,
/// stand for the same map.
pub proof fn lemma_named_key_map_pointwise(a: Seq<NamedKey>, b: Seq<NamedKey>)
    requires
        a.len() == b.len(),
        forall|i: int| 0 <= i < a.len() ==> a[i].0@ == b[i].0@ && a[i].1 == b[i].1,
    ensures
        named_key_map(a) == named_key_map(b),
    decreases a.len(),
{
    if a.len() > 0 {
        lemma_named_key_map_pointwise(a.drop_last(), b.drop_last());
    }
}

/// Copies a list of named keys.
pub fn copy_named_keys(v: &Vec<NamedKey>) -> (r: Vec<NamedKey>)
    ensures
        r@.len() == v@.len(),
        forall|i: int| 0 <= i < v@.len() ==> r@[i].0@ == v@[i].0@ && r@[i].1 == v@[i].1,
        named_key_map(r@) == named_key_map(v@),
{
    let mut r: Vec<NamedKey> = Vec::new();
    let mut i: usize = 0;
    while i < v.len()
        invariant
            i <= v@.len(),
            r@.len() == i,
            forall|j: int| 0 <= j < i ==> r@[j].0@ == v@[j].0@ && r@[j].1 == v@[j].1,
        decreases v@.len() - i,
    {
        let n = copy_name(&v[i].0);
        r.push((n, v[i].1));
        i = i + 1;
    }
    proof {
        lemma_named_key_map_pointwise(r@, v@);
    }
    r
}

impl Clone for CLValue {
    fn clone(&self) -> (r: CLValue)
        ensures
            r@ == self@,
    {
        CLValue { cl_type: self.cl_type.clone(), bytes: self.bytes.clone() }
    }
}

impl Clone for Account {
    fn clone(&self) -> (r: Account)
        ensures
            r@ == self@,
    {
        Account {
            account_hash: self.account_hash,
            main_purse: self.main_purse,
            named_keys: copy_named_keys(&self.named_keys),
            associated_keys: copy_list(&self.associated_keys),
            deployment_threshold: self.deployment_threshold,
            key_management_threshold: self.key_management_threshold,
        }
    }
}

impl Clone for EntryPointAccess {
    fn clone(&self) -> (r: EntryPointAccess)
        ensures
            match (r, *self) {
                (EntryPointAccess::Public, EntryPointAccess::Public) => true,
                (EntryPointAccess::Groups(a), EntryPointAccess::Groups(b)) => names_view(a@)
                    == names_view(b@),
                _ => false,
            },
    {
        match self {
            EntryPointAccess::Public => EntryPointAccess::Public,
            EntryPointAccess::Groups(g) => EntryPointAccess::Groups(copy_names(g)),
        }
    }
}

impl Clone for Parameter {
    fn clone(&self) -> (r: Parameter)
        ensures
            r.name@ == self.name@,
            r.cl_type == self.cl_type,
    {
        Parameter { name: copy_name(&self.name), cl_type: self.cl_type.clone() }
    }
}

impl Clone for EntryPoint {
    fn clone(&self) -> (r: EntryPoint)
        ensures
            r@ == self@,
    {
        let mut args: Vec<Parameter> = Vec::new();
        let mut i: usize = 0;
        while i < self.args.len()
            invariant
                i <= self.args@.len(),
                args@.len() == i,
                forall|j: int|
                    0 <= j < i ==> args@[j].name@ == self.args@[j].name@ && args@[j].cl_type
                        == self.args@[j].cl_type,
            decreases self.args@.len() - i,
        {
            args.push(self.args[i].clone());
            i = i + 1;
        }
        let r = EntryPoint {
            name: copy_name(&self.name),
            args,
            ret: self.ret.clone(),
            access: self.access.clone(),
            entry_point_type: self.entry_point_type,
        };
        assert(r@.args =~= self@.args);
        r
    }
}

impl Clone for Contract {
    fn clone(&self) -> (r: Contract)
        ensures
            r@ == self@,
    {
        let mut eps: Vec<EntryPoint> = Vec::new();
        let mut i: usize = 0;
        while i < self.entry_points.len()
            invariant
                i <= self.entry_points@.len(),
                eps@.len() == i,
                forall|j: int| 0 <= j < i ==> eps@[j]@ == self.entry_points@[j]@,
            decreases self.entry_points@.len() - i,
        {
            eps.push(self.entry_points[i].clone());
            i = i + 1;
        }
        let r = Contract {
            contract_package_hash: self.contract_package_hash,
            contract_wasm_hash: self.contract_wasm_hash,
            named_keys: copy_named_keys(&self.named_keys),
            entry_points: eps,
            protocol_version: self.protocol_version,
        };
        assert(r@.entry_points =~= self@.entry_points);
        r
    }
}

impl Clone for ContractPackage {
    fn clone(&self) -> (r: ContractPackage)
        ensures
            r@ == self@,
    {
        let mut groups: Vec<(Name, Vec<URef>)> = Vec::new();
        let mut i: usize = 0;
        while i < self.groups.len()
            invariant
                i <= self.groups@.len(),
                groups@.len() == i,
                forall|j: int|
                    0 <= j < i ==> groups@[j].0@ == self.groups@[j].0@ && groups@[j].1@
                        == self.groups@[j].1@,
            decreases self.groups@.len() - i,
        {
            let g = (copy_name(&self.groups[i].0), copy_list(&self.groups[i].1));
            groups.push(g);
            i = i + 1;
        }
        let r = ContractPackage {
            access_key: self.access_key,
            versions: copy_list(&self.versions),
            disabled_versions: copy_list(&self.disabled_versions),
            groups,
        };
        assert(r@.groups =~= self@.groups);
        r
    }
}

impl Clone for StoredValue {
    fn clone(&self) -> (r: StoredValue)
        ensures
            r@ == self@,
    {
        match self {
            StoredValue::CLValue(v) => StoredValue::CLValue(v.clone()),
            StoredValue::Account(a) => StoredValue::Account(a.clone()),
            StoredValue::ContractWasm(w) => StoredValue::ContractWasm(w.clone()),
            StoredValue::Contract(c) => StoredValue::Contract(c.clone()),
            StoredValue::ContractPackage(p) => StoredValue::ContractPackage(p.clone()),
        }
    }
}


// ------------------------------------------------------------- named keys

/// Appending a list of named keys overrides the names that it holds.
pub proof fn lemma_named_key_map_append(s: Seq<NamedKey>, t: Seq<NamedKey>)
    ensures
        named_key_map(s + t) == named_key_map(s).union_prefer_right(named_key_map(t)),
    decreases t.len(),
{
    if t.len() == 0 {
        assert(s + t =~= s);
        assert(named_key_map(s).union_prefer_right(Map::empty()) =~= named_key_map(s));
    } else {
        lemma_named_key_map_append(s, t.drop_last());
        assert((s + t).drop_last() =~= s + t.drop_last());
        assert(named_key_map(s + t) =~= named_key_map(s).union_prefer_right(named_key_map(t)));
    }
}

/// The key that a list of named keys gives to a name.
pub fn lookup_named_key(v: &Vec<NamedKey>, name: &Name) -> (r: Option<Key>)
    ensures
        match r {
            Some(k) => named_key_map(v@).contains_key(name@) && named_key_map(v@)[name@] == k,
            None => !named_key_map(v@).contains_key(name@),
        },
{
    let mut i: usize = v.len();
    assert(v@.subrange(0, i as int) =~= v@);
    while i > 0
        invariant
            i <= v@.len(),
            named_key_map(v@).contains_key(name@) == named_key_map(v@.subrange(0, i as int)).contains_key(name@),
            named_key_map(v@).contains_key(name@) ==> named_key_map(v@)[name@] == named_key_map(v@.subrange(0, i as int))[name@],
        decreases i,
    {
        let ghost pre = v@.subrange(0, i as int);
        assert(pre.drop_last() =~= v@.subrange(0, i - 1));
        assert(pre.last() == v@[i - 1]);
        let same = v[i - 1].0 == *name;
        if same {
            assert(v@[i - 1].0@ == name@);
            return Some(v[i - 1].1);
        }
        assert(v@[i - 1].0@ != name@);
        i = i - 1;
    }
    None
}

/// Adds named keys to a list; a name already present gets the new key.
pub fn append_named_keys(a: &mut Vec<NamedKey>, b: &Vec<NamedKey>)
    ensures
        named_key_map(final(a)@) == named_key_map(old(a)@).union_prefer_right(named_key_map(b@)),
{
    let mut extra = copy_named_keys(b);
    let ghost extra_seq = extra@;
    a.append(&mut extra);
    proof {
        lemma_named_key_map_append(old(a)@, extra_seq);
    }
}

/// Whether two lists of named keys give the same key to every name that both
/// hold.
pub fn named_keys_agree(a: &Vec<NamedKey>, b: &Vec<NamedKey>) -> (r: bool)
    ensures
        r == (forall|n: Seq<u8>|
            named_key_map(a@).contains_key(n) && named_key_map(b@).contains_key(n)
                ==> named_key_map(a@)[n] == named_key_map(b@)[n]),
{
    let mut i: usize = 0;
    while i < b.len()
        invariant
            i <= b@.len(),
            forall|j: int| 0 <= j < i ==> {
                let n = #[trigger] b@[j].0@;
                named_key_map(a@).contains_key(n) ==> named_key_map(a@)[n] == named_key_map(b@)[n]
            },
        decreases b@.len() - i,
    {
        let in_a = lookup_named_key(a, &b[i].0);
        let in_b = lookup_named_key(b, &b[i].0);
        match (in_a, in_b) {
            (Some(x), Some(y)) => {
                if !crate::keys::key_identical(&x, &y) {
                    return false;
                }
            },
            (Some(_), None) => {
                proof {
                    lemma_named_key_map_has(b@, i as int);
                }
                return false;
            },
            _ => {},
        }
        i = i + 1;
    }
    proof {
        assert forall|n: Seq<u8>|
            named_key_map(a@).contains_key(n) && named_key_map(b@).contains_key(n)
                implies named_key_map(a@)[n] == named_key_map(b@)[n] by {
            let j = lemma_named_key_map_index(b@, n);
            assert(b@[j].0@ == n);
        }
    }
    true
}

/// Every name of a list is in the map that it stands for.
pub proof fn lemma_named_key_map_has(s: Seq<NamedKey>, i: int)
    requires
        0 <= i < s.len(),
    ensures
        named_key_map(s).contains_key(s[i].0@),
    decreases s.len(),
{
    if i < s.len() - 1 {
        lemma_named_key_map_has(s.drop_last(), i);
    }
}

/// Every name of the map stands in the list.
pub proof fn lemma_named_key_map_index(s: Seq<NamedKey>, n: Seq<u8>) -> (j: int)
    requires
        named_key_map(s).contains_key(n),
    ensures
        0 <= j < s.len(),
        s[j].0@ == n,
    decreases s.len(),
{
    if s.last().0@ == n {
        (s.len() - 1) as int
    } else {
        lemma_named_key_map_index(s.drop_last(), n)
    }
}


// -------------------------------------------------------------- accessors

/// Whether two types are the same.
pub fn cl_type_eq(a: &CLType, b: &CLType) -> (r: bool)
    ensures
        r == (*a == *b),
    decreases a,
{
    match (a, b) {
        (CLType::Bool, CLType::Bool) => true,
        (CLType::I32, CLType::I32) => true,
        (CLType::I64, CLType::I64) => true,
        (CLType::U8, CLType::U8) => true,
        (CLType::U32, CLType::U32) => true,
        (CLType::U64, CLType::U64) => true,
        (CLType::U128, CLType::U128) => true,
        (CLType::U256, CLType::U256) => true,
        (CLType::U512, CLType::U512) => true,
        (CLType::Unit, CLType::Unit) => true,
        (CLType::String, CLType::String) => true,
        (CLType::Key, CLType::Key) => true,
        (CLType::URef, CLType::URef) => true,
        (CLType::Any, CLType::Any) => true,
        (CLType::Option(x), CLType::Option(y)) => cl_type_eq(x, y),
        (CLType::List(x), CLType::List(y)) => cl_type_eq(x, y),
        (CLType::ByteArray(x), CLType::ByteArray(y)) => *x == *y,
        (CLType::Result { ok: o1, err: e1 }, CLType::Result { ok: o2, err: e2 }) => cl_type_eq(o1, o2) && cl_type_eq(e1, e2),
        _ => false,
    }
}

/// The text of a decimal digit.
pub open spec fn digit_text(d: nat) -> Seq<char> {
    seq![(('0' as u32) + d) as char]
}

/// The decimal text of a number.
pub open spec fn decimal_text(n: nat) -> Seq<char>
    decreases n,
{
    if n < 10 {
        digit_text(n)
    } else {
        decimal_text(n / 10) + digit_text(n % 10)
    }
}

/// The text that names a type: its name, with the types that it is made
/// of in parentheses or braces.
pub open spec fn cl_type_text(t: CLType) -> Seq<char>
    decreases t,
{
    match t {
        CLType::Bool => "Bool"@,
        CLType::I32 => "I32"@,
        CLType::I64 => "I64"@,
        CLType::U8 => "U8"@,
        CLType::U32 => "U32"@,
        CLType::U64 => "U64"@,
        CLType::U128 => "U128"@,
        CLType::U256 => "U256"@,
        CLType::U512 => "U512"@,
        CLType::Unit => "Unit"@,
        CLType::String => "String"@,
        CLType::Key => "Key"@,
        CLType::URef => "URef"@,
        CLType::Any => "Any"@,
        CLType::Option(inner) => "Option("@ + cl_type_text(*inner) + ")"@,
        CLType::List(inner) => "List("@ + cl_type_text(*inner) + ")"@,
        CLType::ByteArray(n) => "ByteArray("@ + decimal_text(n as nat) + ")"@,
        CLType::Result { ok, err } => "Result { ok: "@ + cl_type_text(*ok) + ", err: "@ + cl_type_text(*err) + " }"@,
    }
}

fn push_digit(out: &mut String, d: u32)
    requires
        d < 10,
    ensures
        final(out)@ == old(out)@ + digit_text(d as nat),
{
    let c: &str = match d {
        0 => "0",
        1 => "1",
        2 => "2",
        3 => "3",
        4 => "4",
        5 => "5",
        6 => "6",
        7 => "7",
        8 => "8",
        _ => "9",
    };
    proof {
        reveal_strlit("0");
        reveal_strlit("1");
        reveal_strlit("2");
        reveal_strlit("3");
        reveal_strlit("4");
        reveal_strlit("5");
        reveal_strlit("6");
        reveal_strlit("7");
        reveal_strlit("8");
        reveal_strlit("9");
        assert(c@ =~= digit_text(d as nat));
    }
    out.append(c);
}

fn push_decimal(out: &mut String, n: u32)
    ensures
        final(out)@ == old(out)@ + decimal_text(n as nat),
    decreases n,
{
    if n >= 10 {
        push_decimal(out, n / 10);
    }
    push_digit(out, n % 10);
    assert(final(out)@ =~= old(out)@ + decimal_text(n as nat));
}

/// Appends the text that names `t`.
fn push_cl_type_text(out: &mut String, t: &CLType)
    ensures
        final(out)@ == old(out)@ + cl_type_text(*t),
    decreases t,
{
    match t {
        CLType::Bool => out.append("Bool"),
        CLType::I32 => out.append("I32"),
        CLType::I64 => out.append("I64"),
        CLType::U8 => out.append("U8"),
        CLType::U32 => out.append("U32"),
        CLType::U64 => out.append("U64"),
        CLType::U128 => out.append("U128"),
        CLType::U256 => out.append("U256"),
        CLType::U512 => out.append("U512"),
        CLType::Unit => out.append("Unit"),
        CLType::String => out.append("String"),
        CLType::Key => out.append("Key"),
        CLType::URef => out.append("URef"),
        CLType::Any => out.append("Any"),
        CLType::Option(inner) => {
            out.append("Option(");
            push_cl_type_text(out, inner);
            out.append(")");
        },
        CLType::List(inner) => {
            out.append("List(");
            push_cl_type_text(out, inner);
            out.append(")");
        },
        CLType::ByteArray(n) => {
            out.append("ByteArray(");
            push_decimal(out, *n);
            out.append(")");
        },
        CLType::Result { ok, err } => {
            out.append("Result { ok: ");
            push_cl_type_text(out, ok);
            out.append(", err: ");
            push_cl_type_text(out, err);
            out.append(" }");
        },
    }
    assert(final(out)@ =~= old(out)@ + cl_type_text(*t));
}

/// The text that names a type.
pub fn cl_type_name(t: &CLType) -> (r: String)
    ensures
        r@ == cl_type_text(*t),
{
    let mut out = String::from_str("");
    proof {
        reveal_strlit("");
    }
    push_cl_type_text(&mut out, t);
    assert(out@ =~= cl_type_text(*t));
    out
}

/// A value was not of the type that was asked for.
#[derive(Debug, Clone, PartialEq, Eq)]
pub struct TypeMismatch {
    pub expected: String,
    pub found: String,
}

impl StoredValue {
    pub fn as_cl_value(&self) -> (r: Option<&CLValue>)
        ensures
            match (*self, r) {
                (StoredValue::CLValue(c), Some(d)) => c == *d,
                (StoredValue::CLValue(_), None) => false,
                (_, x) => x is None,
            },
    {
        match self {
            StoredValue::CLValue(c) => Some(c),
            _ => None,
        }
    }

    pub fn as_account(&self) -> (r: Option<&Account>)
        ensures
            match (*self, r) {
                (StoredValue::Account(c), Some(d)) => c == *d,
                (StoredValue::Account(_), None) => false,
                (_, x) => x is None,
            },
    {
        match self {
            StoredValue::Account(a) => Some(a),
            _ => None,
        }
    }

    pub fn as_contract(&self) -> (r: Option<&Contract>)
        ensures
            match (*self, r) {
                (StoredValue::Contract(c), Some(d)) => c == *d,
                (StoredValue::Contract(_), None) => false,
                (_, x) => x is None,
            },
    {
        match self {
            StoredValue::Contract(c) => Some(c),
            _ => None,
        }
    }

    pub fn as_contract_wasm(&self) -> (r: Option<&Vec<u8>>)
        ensures
            match (*self, r) {
                (StoredValue::ContractWasm(c), Some(d)) => c == *d,
                (StoredValue::ContractWasm(_), None) => false,
                (_, x) => x is None,
            },
    {
        match self {
            StoredValue::ContractWasm(w) => Some(w),
            _ => None,
        }
    }

    pub fn as_contract_package(&self) -> (r: Option<&ContractPackage>)
        ensures
            match (*self, r) {
                (StoredValue::ContractPackage(c), Some(d)) => c == *d,
                (StoredValue::ContractPackage(_), None) => false,
                (_, x) => x is None,
            },
    {
        match self {
            StoredValue::ContractPackage(p) => Some(p),
            _ => None,
        }
    }

    /// The name of the value's type: a typed value's own type, else the kind
    /// of record. Module bytes are named as a contract.
    pub fn value_type_name(&self) -> (r: String)
        ensures
            r@ == (match *self {
                StoredValue::CLValue(c) => cl_type_text(c.cl_type),
                StoredValue::Account(_) => "Account"@,
                StoredValue::ContractWasm(_) => "Contract"@,
                StoredValue::Contract(_) => "Contract"@,
                StoredValue::ContractPackage(_) => "ContractPackage"@,
            }),
    {
        match self {
            StoredValue::CLValue(c) => cl_type_name(&c.cl_type),
            StoredValue::Account(_) => "Account".to_string(),
            StoredValue::ContractWasm(_) => "Contract".to_string(),
            StoredValue::Contract(_) => "Contract".to_string(),
            StoredValue::ContractPackage(_) => "ContractPackage".to_string(),
        }
    }
}

/// The name of a stored value's type.
pub open spec fn value_type_text(v: StoredValue) -> Seq<char> {
    match v {
        StoredValue::CLValue(c) => cl_type_text(c.cl_type),
        StoredValue::Account(_) => "Account"@,
        StoredValue::ContractWasm(_) => "Contract"@,
        StoredValue::Contract(_) => "Contract"@,
        StoredValue::ContractPackage(_) => "ContractPackage"@,
    }
}

impl StoredValue {
    /// The value, where it is a `CLValue`; else a mismatch that names both
    /// types.
    pub fn into_cl_value(self) -> (r: Result<CLValue, TypeMismatch>)
        ensures
            match (self, r) {
                (StoredValue::CLValue(c), Ok(d)) => c == d,
                (StoredValue::CLValue(_), Err(_)) => false,
                (_, Ok(_)) => false,
                (v, Err(e)) => e.expected@ == "CLValue"@ && e.found@ == value_type_text(v),
            },
    {
        match self {
            StoredValue::CLValue(c) => Ok(c),
            _ => {
                let found = self.value_type_name();
                Err(TypeMismatch { expected: "CLValue".to_string(), found })
            },
        }
    }

    /// The value, where it is a `Account`; else a mismatch that names both
    /// types.
    pub fn into_account(self) -> (r: Result<Account, TypeMismatch>)
        ensures
            match (self, r) {
                (StoredValue::Account(c), Ok(d)) => c == d,
                (StoredValue::Account(_), Err(_)) => false,
                (_, Ok(_)) => false,
                (v, Err(e)) => e.expected@ == "Account"@ && e.found@ == value_type_text(v),
            },
    {
        match self {
            StoredValue::Account(c) => Ok(c),
            _ => {
                let found = self.value_type_name();
                Err(TypeMismatch { expected: "Account".to_string(), found })
            },
        }
    }

    /// The value, where it is a `ContractWasm`; else a mismatch that names both
    /// types.
    pub fn into_contract_wasm(self) -> (r: Result<Vec<u8>, TypeMismatch>)
        ensures
            match (self, r) {
                (StoredValue::ContractWasm(c), Ok(d)) => c == d,
                (StoredValue::ContractWasm(_), Err(_)) => false,
                (_, Ok(_)) => false,
                (v, Err(e)) => e.expected@ == "ContractWasm"@ && e.found@ == value_type_text(v),
            },
    {
        match self {
            StoredValue::ContractWasm(c) => Ok(c),
            _ => {
                let found = self.value_type_name();
                Err(TypeMismatch { expected: "ContractWasm".to_string(), found })
            },
        }
    }

    /// The value, where it is a `Contract`; else a mismatch that names both
    /// types.
    pub fn into_contract(self) -> (r: Result<Contract, TypeMismatch>)
        ensures
            match (self, r) {
                (StoredValue::Contract(c), Ok(d)) => c == d,
                (StoredValue::Contract(_), Err(_)) => false,
                (_, Ok(_)) => false,
                (v, Err(e)) => e.expected@ == "Contract"@ && e.found@ == value_type_text(v),
            },
    {
        match self {
            StoredValue::Contract(c) => Ok(c),
            _ => {
                let found = self.value_type_name();
                Err(TypeMismatch { expected: "Contract".to_string(), found })
            },
        }
    }

    /// The value, where it is a `ContractPackage`; else a mismatch that names both
    /// types.
    pub fn into_contract_package(self) -> (r: Result<ContractPackage, TypeMismatch>)
        ensures
            match (self, r) {
                (StoredValue::ContractPackage(c), Ok(d)) => c == d,
                (StoredValue::ContractPackage(_), Err(_)) => false,
                (_, Ok(_)) => false,
                (v, Err(e)) => e.expected@ == "ContractPackage"@ && e.found@ == value_type_text(v),
            },
    {
        match self {
            StoredValue::ContractPackage(c) => Ok(c),
            _ => {
                let found = self.value_type_name();
                Err(TypeMismatch { expected: "ContractPackage".to_string(), found })
            },
        }
    }
}

} // verus!
