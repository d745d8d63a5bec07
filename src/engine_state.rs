//! Deploy-level logic: runtime arguments, authorization, gas and motes,
//! transfers to accounts and the wasmless transfer.
use vstd::prelude::*;
use crate::api_error::ApiError;
use crate::bytesrepr::{dec_key, dec_uref, le_value, read_key, read_le, read_uref};
use crate::u512::{U512, m512, u512_bytes_valid, u512_of, u512_from_bytes};
use crate::keys::{Addr, Key, URef, ADD, READ_ADD_WRITE, WRITE, addr_eq, key_id, rights_include};
use crate::mint::{MintContract, MintError, balance_of};
use crate::runtime_context::{AccessRights, ExecError, RuntimeContext, Phase, validate_uref_spec, rights_map, uref_in, uref_grants, named_key_keys, lemma_forgery_detected};
use crate::stored_value::{EntryPointType, NamedKey};
use crate::mint::total;
use crate::stored_value::{Account, CLType, CLValue, CLValueView, Name, StoredValue, StoredValueView};
use crate::tracking_copy::{GlobalState, map_get};

verus! {

broadcast use vstd::array::group_array_axioms;

/// Named arguments of a call.
pub struct RuntimeArgs {
    pub named: Vec<(Name, CLValue)>,
}

/// The value of the first argument named `name`.
pub open spec fn arg_of(s: Seq<(Name, CLValue)>, name: Seq<u8>) -> Option<CLValueView>
    decreases s.len(),
{
    if s.len() == 0 {
        None
    } else if s[0].0@ == name {
        Some(s[0].1@)
    } else {
        arg_of(s.drop_first(), name)
    }
}

impl RuntimeArgs {
    /// No arguments.
    pub fn new() -> (r: RuntimeArgs)
        ensures
            r.named@.len() == 0,
    {
        RuntimeArgs { named: Vec::new() }
    }

    /// Adds an argument.
    pub fn insert(&mut self, name: Name, value: CLValue)
        ensures
            final(self).named@ == old(self).named@.push((name, value)),
    {
        self.named.push((name, value));
    }

    /// The value of the first argument named `name`.
    pub fn get(&self, name: &Name) -> (r: Option<&CLValue>)
        ensures
            match r {
                Some(v) => arg_of(self.named@, name@) == Some(v@),
                None => arg_of(self.named@, name@) is None,
            },
    {
        let mut i: usize = 0;
        assert(self.named@.subrange(0, self.named@.len() as int) =~= self.named@);
        while i < self.named.len()
            invariant
                i <= self.named@.len(),
                arg_of(self.named@, name@) == arg_of(self.named@.subrange(i as int, self.named@.len() as int), name@),
            decreases self.named@.len() - i,
        {
            let ghost rest = self.named@.subrange(i as int, self.named@.len() as int);
            assert(rest.drop_first() =~= self.named@.subrange(i + 1, self.named@.len() as int));
            assert(rest[0] == self.named@[i as int]);
            if self.named[i].0 == *name {
                assert(rest[0].0@ == name@);
                return Some(&self.named[i].1);
            }
            i = i + 1;
        }
        None
    }
}

// ------------------------------------------------------------------ gas

/// The motes that `gas` costs at `gas_price`.
pub fn motes_from_gas(gas: u64, gas_price: u64) -> (r: u128)
    ensures
        r == gas * gas_price,
{
    assert(gas * gas_price <= u64::MAX * u64::MAX) by (nonlinear_arith)
        requires
            gas <= u64::MAX,
            gas_price <= u64::MAX,
    ;
    gas as u128 * gas_price as u128
}

/// The gas that `motes` buy at `gas_price`, rounded down; `None` where the
/// price is zero or the gas does not fit.
pub fn gas_from_motes(motes: u128, gas_price: u64) -> (r: Option<u64>)
    ensures
        match r {
            Some(g) => gas_price > 0 && g == (motes as nat) / (gas_price as nat),
            None => gas_price == 0 || (motes as nat) / (gas_price as nat) > u64::MAX,
        },
{
    if gas_price == 0 {
        return None;
    }
    let g = motes / gas_price as u128;
    if g > u64::MAX as u128 {
        None
    } else {
        Some(g as u64)
    }
}

// -------------------------------------------------------------- accounts

/// Why a deploy was refused before it ran.
#[derive(Clone, Copy, Debug, PartialEq, Eq, Structural)]
pub enum PreconditionError {
    /// The deploy's account does not exist, or a signing key is not one of its
    /// associated keys.
    AuthorizationFailure,
    /// The signing keys do not weigh enough to deploy.
    InsufficientTotalWeight,
}

/// The weight of the associated keys that are among the signing keys.
pub open spec fn signed_weight(assoc: Seq<(Addr, u8)>, signers: Seq<Addr>) -> int
    decreases assoc.len(),
{
    if assoc.len() == 0 {
        0
    } else {
        signed_weight(assoc.drop_last(), signers) + if exists|j: int| 0 <= j < signers.len() && signers[j]@ == assoc.last().0@ {
            assoc.last().1 as int
        } else {
            0
        }
    }
}

/// No key is associated twice.
pub open spec fn associated_keys_unique(assoc: Seq<(Addr, u8)>) -> bool {
    forall|i: int, j: int| 0 <= i < j < assoc.len() ==> (#[trigger] assoc[i]).0@ != (#[trigger] assoc[j]).0@
}

/// Whether `a` is an associated key.
pub open spec fn is_associated(assoc: Seq<(Addr, u8)>, a: Seq<u8>) -> bool {
    exists|i: int| 0 <= i < assoc.len() && assoc[i].0@ == a
}

fn contains_addr(s: &Vec<Addr>, a: &Addr) -> (r: bool)
    ensures
        r == exists|j: int| 0 <= j < s@.len() && s@[j]@ == a@,
{
    let mut i: usize = 0;
    while i < s.len()
        invariant
            i <= s@.len(),
            forall|j: int| 0 <= j < i ==> s@[j]@ != a@,
        decreases s@.len() - i,
    {
        if addr_eq(&s[i], a) {
            return true;
        }
        i = i + 1;
    }
    false
}

fn is_associated_key(assoc: &Vec<(Addr, u8)>, a: &Addr) -> (r: bool)
    ensures
        r == is_associated(assoc@, a@),
{
    let mut i: usize = 0;
    while i < assoc.len()
        invariant
            i <= assoc@.len(),
            forall|j: int| 0 <= j < i ==> assoc@[j].0@ != a@,
        decreases assoc@.len() - i,
    {
        if addr_eq(&assoc[i].0, a) {
            return true;
        }
        i = i + 1;
    }
    false
}

/// Checks that every signing key is associated with the account and that
/// together they weigh at least the deployment threshold.
pub fn check_authorization(account: &Account, signers: &Vec<Addr>) -> (r: Result<(), PreconditionError>)
    requires
        associated_keys_unique(account.associated_keys@),
    ensures
        r == (if !(forall|j: int| 0 <= j < signers@.len() ==> is_associated(account.associated_keys@, #[trigger] signers@[j]@)) {
            Err::<(), PreconditionError>(PreconditionError::AuthorizationFailure)
        } else if signed_weight(account.associated_keys@, signers@) < account.deployment_threshold {
            Err(PreconditionError::InsufficientTotalWeight)
        } else {
            Ok(())
        }),
{
    let mut i: usize = 0;
    while i < signers.len()
        invariant
            i <= signers@.len(),
            forall|j: int| 0 <= j < i ==> is_associated(account.associated_keys@, #[trigger] signers@[j]@),
        decreases signers@.len() - i,
    {
        if !is_associated_key(&account.associated_keys, &signers[i]) {
            return Err(PreconditionError::AuthorizationFailure);
        }
        i = i + 1;
    }
    let mut weight: u128 = 0;
    let mut k: usize = 0;
    let len = account.associated_keys.len();
    while k < len
        invariant
            len == account.associated_keys@.len(),
            k <= len,
            weight == signed_weight(account.associated_keys@.subrange(0, k as int), signers@),
            weight <= 255 * k,
        decreases len - k,
    {
        let ghost pre = account.associated_keys@.subrange(0, k + 1);
        assert(pre.drop_last() =~= account.associated_keys@.subrange(0, k as int));
        if contains_addr(signers, &account.associated_keys[k].0) {
            assert(weight + 255 <= 255 * (k + 1));
            assert(255 * (k + 1) <= u128::MAX) by (nonlinear_arith)
                requires
                    k < usize::MAX,
                    usize::MAX <= u64::MAX,
            ;
            weight = weight + account.associated_keys[k].1 as u128;
        }
        k = k + 1;
    }
    assert(account.associated_keys@.subrange(0, account.associated_keys@.len() as int) =~= account.associated_keys@);
    if weight < account.deployment_threshold as u128 {
        Err(PreconditionError::InsufficientTotalWeight)
    } else {
        Ok(())
    }
}


// ------------------------------------------------------------- transfers

/// Where a transfer sends its amount.
#[derive(Clone, Copy, Debug)]
pub enum TransferTarget {
    /// The main purse of an account, which is created if it does not exist.
    Account(Addr),
    /// A purse.
    Purse(URef),
}

/// The arguments of a transfer.
#[derive(Clone, Copy, Debug)]
pub struct TransferArgs {
    pub source: Option<URef>,
    pub target: TransferTarget,
    pub amount: U512,
}

/// Whether a transfer reached an account that existed or one that it created.
#[derive(Clone, Copy, Debug, PartialEq, Eq, Structural)]
pub enum TransferredTo {
    ExistingAccount,
    NewAccount,
}

pub open spec fn source_name() -> Seq<u8> {
    seq![115u8, 111, 117, 114, 99, 101]
}

pub open spec fn target_name() -> Seq<u8> {
    seq![116u8, 97, 114, 103, 101, 116]
}

pub open spec fn amount_name() -> Seq<u8> {
    seq![97u8, 109, 111, 117, 110, 116]
}

/// The amount that a typed value holds: a wide unsigned integer or a `u64`.
pub open spec fn amount_of(v: CLValueView) -> Option<nat> {
    match v.cl_type {
        CLType::U512 => if u512_bytes_valid(v.bytes) {
            Some(u512_of(v.bytes))
        } else {
            None
        },
        CLType::U64 => if v.bytes.len() == 8 {
            Some(le_value(v.bytes))
        } else {
            None
        },
        _ => None,
    }
}

/// Whether a typed value names the transfer target `t`: an account hash, an
/// account key, a URef key or a URef.
pub open spec fn names_target(v: CLValueView, t: TransferTarget) -> bool {
    match (v.cl_type, t) {
        (CLType::ByteArray(n), TransferTarget::Account(a)) => n == 32 && v.bytes == a@,
        (CLType::Key, TransferTarget::Account(a)) => dec_key(v.bytes) == Some((Key::Account(a), v.bytes.len())),
        (CLType::Key, TransferTarget::Purse(u)) => dec_key(v.bytes) == Some((Key::URef(u), v.bytes.len())),
        (CLType::URef, TransferTarget::Purse(u)) => dec_uref(v.bytes) == Some((u, v.bytes.len())),
        _ => false,
    }
}

/// Whether a typed value is the URef `u`.
pub open spec fn is_uref_value(v: CLValueView, u: URef) -> bool {
    v.cl_type == CLType::URef && dec_uref(v.bytes) == Some((u, v.bytes.len()))
}

fn arg_name_source() -> (r: Name)
    ensures
        r@ == source_name(),
{
    let r = vec![115u8, 111, 117, 114, 99, 101];
    assert(r@ =~= source_name());
    r
}

fn arg_name_target() -> (r: Name)
    ensures
        r@ == target_name(),
{
    let r = vec![116u8, 97, 114, 103, 101, 116];
    assert(r@ =~= target_name());
    r
}

fn arg_name_amount() -> (r: Name)
    ensures
        r@ == amount_name(),
{
    let r = vec![97u8, 109, 111, 117, 110, 116];
    assert(r@ =~= amount_name());
    r
}

fn decode_amount(v: &CLValue) -> (r: Option<U512>)
    ensures
        match r {
            Some(x) => amount_of(v@) == Some(x.value()),
            None => amount_of(v@) is None,
        },
{
    match v.cl_type {
        CLType::U512 => u512_from_bytes(v.bytes.as_slice()),
        CLType::U64 => {
            if v.bytes.len() == 8 {
                let x = read_le(v.bytes.as_slice(), 0, 8);
                assert(v.bytes@.subrange(0, 8) =~= v.bytes@);
                Some(U512::from_u128(x))
            } else {
                None
            }
        },
        _ => None,
    }
}

fn decode_uref_value(v: &CLValue) -> (r: Option<URef>)
    ensures
        match r {
            Some(u) => is_uref_value(v@, u),
            None => forall|u: URef| !is_uref_value(v@, u),
        },
{
    if let CLType::URef = v.cl_type {
        let bytes = v.bytes.as_slice();
        assert(bytes@.subrange(0, bytes@.len() as int) =~= bytes@);
        match read_uref(bytes, 0) {
            Ok((u, p)) => if p == bytes.len() {
                Some(u)
            } else {
                None
            },
            Err(_) => None,
        }
    } else {
        None
    }
}

fn decode_target(v: &CLValue) -> (r: Option<TransferTarget>)
    ensures
        match r {
            Some(t) => names_target(v@, t),
            None => forall|t: TransferTarget| !names_target(v@, t),
        },
{
    match v.cl_type {
        CLType::ByteArray(n) => {
            if n == 32 && v.bytes.len() == 32 {
                let bytes = v.bytes.as_slice();
                match crate::bytesrepr::read_addr(bytes, 0) {
                    Ok((a, _)) => {
                        assert(bytes@.subrange(0, 32) =~= bytes@);
                        assert(v@.bytes == a@);
                        assert(v@.cl_type == CLType::ByteArray(32));
                        assert(names_target(v@, TransferTarget::Account(a)));
                        Some(TransferTarget::Account(a))
                    },
                    Err(_) => None,
                }
            } else {
                proof {
                    assert forall|t: TransferTarget| !names_target(v@, t) by {
                        if let TransferTarget::Account(a) = t {
                            assert(a@.len() == 32);
                        }
                    }
                }
                None
            }
        },
        CLType::Key => {
            let bytes = v.bytes.as_slice();
            assert(bytes@.subrange(0, bytes@.len() as int) =~= bytes@);
            match read_key(bytes, 0) {
                Ok((k, p)) => {
                    if p != bytes.len() {
                        return None;
                    }
                    match k {
                        Key::Account(a) => Some(TransferTarget::Account(a)),
                        Key::URef(u) => Some(TransferTarget::Purse(u)),
                        Key::Hash(_) => None,
                    }
                },
                Err(_) => None,
            }
        },
        CLType::URef => match decode_uref_value(v) {
            Some(u) => Some(TransferTarget::Purse(u)),
            None => {
                assert forall|t: TransferTarget| !names_target(v@, t) by {
                    if let TransferTarget::Purse(u) = t {
                        assert(!is_uref_value(v@, u));
                    }
                }
                None
            },
        },
        _ => None,
    }
}

/// Reads the arguments of a transfer: `target` and `amount` are required,
/// `source` may be left out.
pub fn parse_transfer_args(args: &RuntimeArgs) -> (r: Result<TransferArgs, ApiError>)
    ensures
        ({
            let s = arg_of(args.named@, source_name());
            let t = arg_of(args.named@, target_name());
            let a = arg_of(args.named@, amount_name());
            match r {
                Ok(x) => t is Some && a is Some && names_target(t->0, x.target)
                    && amount_of(a->0) == Some(x.amount.value())
                    && match x.source {
                        Some(u) => s is Some && is_uref_value(s->0, u),
                        None => s is None,
                    },
                Err(e) => if t is None || a is None {
                    e == ApiError::MissingArgument
                } else {
                    e == ApiError::InvalidArgument && ((forall|x: TransferTarget| !names_target(t->0, x))
                        || amount_of(a->0) is None
                        || (s is Some && forall|u: URef| !is_uref_value(s->0, u)))
                },
            }
        }),
{
    let target_value = match args.get(&arg_name_target()) {
        Some(v) => v,
        None => return Err(ApiError::MissingArgument),
    };
    let amount_value = match args.get(&arg_name_amount()) {
        Some(v) => v,
        None => return Err(ApiError::MissingArgument),
    };
    let target = match decode_target(target_value) {
        Some(t) => t,
        None => return Err(ApiError::InvalidArgument),
    };
    let amount = match decode_amount(amount_value) {
        Some(a) => a,
        None => return Err(ApiError::InvalidArgument),
    };
    let source = match args.get(&arg_name_source()) {
        None => None,
        Some(v) => match decode_uref_value(v) {
            Some(u) => Some(u),
            None => return Err(ApiError::InvalidArgument),
        },
    };
    Ok(TransferArgs { source, target, amount })
}


/// The keys from which an account may take references: its named keys and
/// its main purse.
pub open spec fn account_sources(acc: Account) -> Seq<Key> {
    named_key_keys(acc.named_keys@) + seq![Key::URef(acc.main_purse)]
}

/// The account stored under `Key::Account(a)`, if any.
pub open spec fn account_at(s: Map<crate::key_map::KeyId, StoredValueView>, a: Addr) -> Option<crate::stored_value::AccountView> {
    match map_get(s, key_id(Key::Account(a))) {
        Some(StoredValueView::Account(acc)) => Some(acc),
        _ => None,
    }
}

/// The purse that a transfer takes from.
pub open spec fn source_addr(account: Account, args: TransferArgs) -> Seq<u8> {
    match args.source {
        Some(u) => u.addr@,
        None => account.main_purse.addr@,
    }
}

/// The capability table of an account: the rights of the references among
/// its named keys and of its main purse.
pub open spec fn account_table(account: Account) -> Map<Seq<u8>, u8> {
    rights_map(uref_grants(account_sources(account)))
}

/// The purse that a transfer takes from, once checked against the
/// account's capability table.
pub open spec fn transfer_source(account: Account, args: TransferArgs) -> Result<URef, ExecError> {
    match args.source {
        None => Ok(account.main_purse),
        Some(u) => match validate_uref_spec(account_table(account), u) {
            Err(e) => Err(e),
            Ok(()) => Ok(u),
        },
    }
}

/// What a transfer gives back. The source must pass the capability check
/// and be a purse; a purse target must be another purse; an account target
/// must be another account, whose main purse receives (with `ADD`), or be
/// created. The mint must then allow the transfer, or it reverts with
/// `Transfer`.
pub open spec fn transfer_result(old: EngineState, account: Account, args: TransferArgs) -> Result<TransferredTo, ExecError> {
    match transfer_source(account, args) {
        Err(e) => Err(e),
        Ok(src) => {
            let purses = old.mint.purses@;
            if balance_of(purses, src.addr@) is None {
                Err(ExecError::Revert(ApiError::InvalidPurse))
            } else {
                match args.target {
                    TransferTarget::Purse(p) => if p.addr@ == src.addr@ || balance_of(purses, p.addr@) is None {
                        Err(ExecError::Revert(ApiError::InvalidPurse))
                    } else if crate::mint::mint_transfer_allowed(purses, src, p, args.amount.value()) {
                        Ok(TransferredTo::ExistingAccount)
                    } else {
                        Err(ExecError::Revert(ApiError::Transfer))
                    },
                    TransferTarget::Account(t) => if t@ == account.account_hash@ {
                        Err(ExecError::Revert(ApiError::InvalidPurse))
                    } else {
                        match account_at(old.state@, t) {
                            Some(acc) => {
                                let purse = URef { addr: acc.main_purse.addr, rights: ADD };
                                if purse.addr@ == src.addr@ {
                                    Err(ExecError::Revert(ApiError::InvalidPurse))
                                } else if crate::mint::mint_transfer_allowed(purses, src, purse, args.amount.value()) {
                                    Ok(TransferredTo::ExistingAccount)
                                } else {
                                    Err(ExecError::Revert(ApiError::Transfer))
                                }
                            },
                            None => if balance_of(purses, src.addr@)->0 < args.amount.value()
                                || !rights_include(src.rights, WRITE) || old.mint.generator.count == u64::MAX {
                                Err(ExecError::Revert(ApiError::Transfer))
                            } else {
                                Ok(TransferredTo::NewAccount)
                            },
                        }
                    },
                }
            }
        },
    }
}

/// What holds after a transfer from `account` with `args` that gave `r`,
/// between the state before, `old`, and after, `new`.
pub open spec fn transfer_post(old: EngineState, account: Account, args: TransferArgs, r: Result<TransferredTo, ExecError>, new: EngineState) -> bool {
    &&& new.wf()
    &&& r == transfer_result(old, account, args)
    &&& total(new.mint.purses@) == total(old.mint.purses@)
    &&& (r is Err ==> new == old)
    &&& (r == Ok::<TransferredTo, ExecError>(TransferredTo::NewAccount) ==> match args.target {
        TransferTarget::Account(t) => account_at(old.state@, t) is None
            && account_at(new.state@, t) is Some
            && balance_of(new.mint.purses@, account_at(new.state@, t)->0.main_purse.addr@) == Some(args.amount.value())
            && balance_of(old.mint.purses@, source_addr(account, args)) is Some
            && balance_of(new.mint.purses@, source_addr(account, args))
                == Some((balance_of(old.mint.purses@, source_addr(account, args))->0 - args.amount.value()) as nat),
        TransferTarget::Purse(_) => false,
    })
    &&& (r == Ok::<TransferredTo, ExecError>(TransferredTo::ExistingAccount) ==> new.state@ == old.state@ && ({
        let src = source_addr(account, args);
        let dst = match args.target {
            TransferTarget::Purse(p) => p.addr@,
            TransferTarget::Account(t) => account_at(old.state@, t)->0.main_purse.addr@,
        };
        &&& src != dst
        &&& balance_of(old.mint.purses@, src) is Some
        &&& balance_of(old.mint.purses@, dst) is Some
        &&& balance_of(new.mint.purses@, src) == Some((balance_of(old.mint.purses@, src)->0 - args.amount.value()) as nat)
        &&& balance_of(new.mint.purses@, dst) == Some(balance_of(old.mint.purses@, dst)->0 + args.amount.value())
    }))
}

/// Whether `x` is what the named arguments of a transfer read as.
pub open spec fn parsed_as(named: Seq<(Name, CLValue)>, x: TransferArgs) -> bool {
    let s = arg_of(named, source_name());
    let t = arg_of(named, target_name());
    let a = arg_of(named, amount_name());
    &&& t is Some
    &&& a is Some
    &&& names_target(t->0, x.target)
    &&& amount_of(a->0) == Some(x.amount.value())
    &&& match x.source {
        Some(u) => s is Some && is_uref_value(s->0, u),
        None => s is None,
    }
}

/// Global state together with the mint's ledger.
pub struct EngineState {
    pub state: GlobalState,
    pub mint: MintContract,
}

impl EngineState {
    pub open spec fn wf(&self) -> bool {
        self.state.wf() && self.mint.wf()
    }

    /// An empty state whose mint is seeded by `seed`.
    pub fn new(seed: &Addr) -> (r: EngineState)
        ensures
            r.wf(),
            r.state@ == Map::<crate::key_map::KeyId, StoredValueView>::empty(),
            r.mint.purses@.len() == 0,
    {
        EngineState { state: GlobalState::new(), mint: MintContract::new(seed) }
    }

    /// The account stored under `addr`.
    pub fn get_account(&self, addr: &Addr) -> (r: Option<Account>)
        requires
            self.wf(),
        ensures
            match r {
                Some(acc) => account_at(self.state@, *addr) == Some(acc@),
                None => account_at(self.state@, *addr) is None,
            },
    {
        match self.state.read(&Key::Account(*addr)) {
            Some(StoredValue::Account(acc)) => Some(acc),
            _ => None,
        }
    }

    /// Creates an account whose main purse holds `amount`, newly minted.
    pub fn create_account(&mut self, addr: Addr, amount: U512) -> (r: Result<URef, MintError>)
        requires
            old(self).wf(),
            old(self).mint.generator.count < u64::MAX,
        ensures
            final(self).wf(),
            match r {
                Ok(purse) => purse.rights == READ_ADD_WRITE && balance_of(final(self).mint.purses@, purse.addr@) == Some(amount.value())
                    && total(final(self).mint.purses@) == total(old(self).mint.purses@) + amount.value()
                    && balance_of(old(self).mint.purses@, purse.addr@) is None
                    && final(self).mint.purses@ == old(self).mint.purses@.push((purse.addr, amount))
                    && account_at(final(self).state@, addr) is Some
                    && account_at(final(self).state@, addr)->0.main_purse == purse
                    && final(self).state@ == old(self).state@.insert(key_id(Key::Account(addr)),
                        final(self).state@[key_id(Key::Account(addr))]),
                Err(_) => *final(self) == *old(self) && old(self).mint.supply.value() + amount.value() >= m512(),
            },
    {
        let purse = match self.mint.mint(amount) {
            Ok(p) => p,
            Err(e) => return Err(e),
        };
        proof {
            let ps = self.mint.purses@;
            let last = ps.len() - 1;
            assert(ps[last].0@ == purse.addr@);
            let c = choose|c: int| 0 <= c < ps.len() && ps[c].0@ == purse.addr@;
            if c != last {
                self.mint.lemma_unique(c, last);
            }
        }
        let mut associated_keys: Vec<(Addr, u8)> = Vec::new();
        associated_keys.push((addr, 1u8));
        let acc = Account {
            account_hash: addr,
            main_purse: purse,
            named_keys: Vec::new(),
            associated_keys,
            deployment_threshold: 1,
            key_management_threshold: 1,
        };
        self.state.write(Key::Account(addr), StoredValue::Account(acc));
        Ok(purse)
    }

    /// Transfers from the main purse of `account`, or from a purse that the
    /// account holds, to a purse or to the main purse of an account, which is
    /// created where it does not exist.
    pub fn transfer(&mut self, account: &Account, args: &TransferArgs) -> (r: Result<TransferredTo, ExecError>)
        requires
            old(self).wf(),
        ensures
            transfer_post(*old(self), *account, *args, r, *final(self)),
            match args.source {
                Some(u) => !uref_in(account_sources(*account), u.addr@)
                    ==> r == Err::<TransferredTo, ExecError>(ExecError::ForgedReference(u)),
                None => true,
            },
    {
        let acc = account;
        let account_addr = &account.account_hash;
        let mut main_key: Vec<Key> = Vec::new();
        main_key.push(Key::URef(acc.main_purse));
        let ctx = RuntimeContext::new(
            crate::stored_value::copy_named_keys(&acc.named_keys),
            &main_key,
            EntryPointType::Session,
            Key::Account(*account_addr),
            *account_addr,
            Phase::Session,
            0,
            0,
        );
        assert(ctx.sources@ =~= account_sources(*account));
        let source = match args.source {
            None => acc.main_purse,
            Some(u) => {
                proof {
                    if !uref_in(ctx.sources@, u.addr@) {
                        lemma_forgery_detected(ctx, u);
                    }
                }
                match ctx.validate_uref(&u) {
                    Err(e) => return Err(e),
                    Ok(()) => u,
                }
            },
        };
        if self.mint.balance(&source).is_none() {
            return Err(ExecError::Revert(ApiError::InvalidPurse));
        }
        match args.target {
            TransferTarget::Purse(p) => {
                if addr_eq(&p.addr, &source.addr) {
                    return Err(ExecError::Revert(ApiError::InvalidPurse));
                }
                if self.mint.balance(&p).is_none() {
                    return Err(ExecError::Revert(ApiError::InvalidPurse));
                }
                match self.mint.transfer(&source, &p, &args.amount) {
                    Ok(()) => Ok(TransferredTo::ExistingAccount),
                    Err(_) => Err(ExecError::Revert(ApiError::Transfer)),
                }
            },
            TransferTarget::Account(t) => {
                if addr_eq(&t, account_addr) {
                    return Err(ExecError::Revert(ApiError::InvalidPurse));
                }
                match self.get_account(&t) {
                    Some(target) => {
                        let purse = target.main_purse.with_access_rights(ADD);
                        if addr_eq(&purse.addr, &source.addr) {
                            return Err(ExecError::Revert(ApiError::InvalidPurse));
                        }
                        match self.mint.transfer(&source, &purse, &args.amount) {
                            Ok(()) => Ok(TransferredTo::ExistingAccount),
                            Err(_) => Err(ExecError::Revert(ApiError::Transfer)),
                        }
                    },
                    None => {
                        let available = match self.mint.balance(&source) {
                            Some(b) => b,
                            None => return Err(ExecError::Revert(ApiError::InvalidPurse)),
                        };
                        if available.lt(&args.amount) || !crate::keys::has_rights(source.rights, WRITE)
                            || self.mint.generator.count == u64::MAX {
                            return Err(ExecError::Revert(ApiError::Transfer));
                        }
                        proof {
                            assert(balance_of(self.mint.purses@, source.addr@) is Some);
                        }
                        let ghost mint_before = self.mint;
                        proof {
                            crate::bytesrepr::lemma_le_value_bound(self.mint.supply.bytes@);
                        }
                        let zero = U512::zero();
                        let purse = match self.create_account(t, zero) {
                            Ok(p) => p,
                            Err(_) => {
                                assert(false);
                                return Err(ExecError::Revert(ApiError::Transfer));
                            },
                        };
                        proof {
                            crate::mint::lemma_balance_after_push(mint_before, self.mint, (purse.addr, zero), source.addr@);
                        }
                        proof {
                            assert(READ_ADD_WRITE & ADD == ADD) by (bit_vector);
                            assert(crate::mint::mint_transfer_allowed(self.mint.purses@, source, purse, args.amount.value()));
                        }
                        match self.mint.transfer(&source, &purse, &args.amount) {
                            Ok(()) => Ok(TransferredTo::NewAccount),
                            Err(_) => {
                                assert(false);
                                Err(ExecError::Revert(ApiError::Transfer))
                            },
                        }
                    },
                }
            },
        }
    }
}


impl EngineState {
    /// A transfer whose arguments come as named runtime arguments and that
    /// runs without Wasm: a bad argument reverts with `MissingArgument` or
    /// `InvalidArgument`.
    pub fn wasmless_transfer(&mut self, account: &Account, args: &RuntimeArgs) -> (r: Result<TransferredTo, ExecError>)
        requires
            old(self).wf(),
        ensures
            final(self).wf(),
            total(final(self).mint.purses@) == total(old(self).mint.purses@),
            arg_of(args.named@, target_name()) is None || arg_of(args.named@, amount_name()) is None
                ==> r == Err::<TransferredTo, ExecError>(ExecError::Revert(ApiError::MissingArgument))
                    && *final(self) == *old(self),
            ({
                let s = arg_of(args.named@, source_name());
                let t = arg_of(args.named@, target_name());
                let a = arg_of(args.named@, amount_name());
                t is Some && a is Some && ((forall|x: TransferTarget| !names_target(t->0, x))
                    || amount_of(a->0) is None
                    || (s is Some && forall|u: URef| !is_uref_value(s->0, u)))
                ==> r == Err::<TransferredTo, ExecError>(ExecError::Revert(ApiError::InvalidArgument))
                    && *final(self) == *old(self)
            }),
            r is Err ==> *final(self) == *old(self),
            (exists|x: TransferArgs| parsed_as(args.named@, x)) ==> exists|x: TransferArgs|
                parsed_as(args.named@, x) && #[trigger] transfer_post(*old(self), *account, x, r, *final(self)),
    {
        match parse_transfer_args(args) {
            Err(e) => {
                assert(forall|x: TransferArgs| !parsed_as(args.named@, x));
                Err(ExecError::Revert(e))
            },
            Ok(parsed) => {
                let r = self.transfer(account, &parsed);
                assert(parsed_as(args.named@, parsed));
                r
            },
        }
    }

    /// Transfers `amount` from the main purse of `account` to the main purse
    /// of the account at `target`, creating that account where it does not
    /// exist.
    pub fn transfer_to_account(&mut self, account: &Account, target: Addr, amount: U512) -> (r: Result<TransferredTo, ExecError>)
        requires
            old(self).wf(),
        ensures
            transfer_post(*old(self), *account, TransferArgs { source: None, target: TransferTarget::Account(target), amount }, r, *final(self)),
    {
        let args = TransferArgs { source: None, target: TransferTarget::Account(target), amount };
        self.transfer(account, &args)
    }
}


// ------------------------------------------------------- the deploy's phases

/// Whether the payment purse holds enough to buy the session's gas.
pub fn payment_sufficient(payment_purse_balance: &U512, max_session_gas: u64, gas_price: u64) -> (r: bool)
    ensures
        r == (payment_purse_balance.value() >= max_session_gas * gas_price),
{
    let cost = U512::from_u128(motes_from_gas(max_session_gas, gas_price));
    !payment_purse_balance.lt(&cost)
}

/// The gas limit of a session that `balance` pays for at `gas_price`: the
/// gas it buys, rounded down, and at most the largest `u64`.
pub open spec fn session_gas_limit(balance: nat, gas_price: u64) -> u64 {
    if gas_price == 0 || balance / (gas_price as nat) > u64::MAX {
        u64::MAX
    } else {
        (balance / (gas_price as nat)) as u64
    }
}

/// The gas limit of a session that `balance` pays for at `gas_price`.
pub fn session_gas_for(balance: &U512, gas_price: u64) -> (r: u64)
    ensures
        r == session_gas_limit(balance.value(), gas_price),
{
    if gas_price == 0 {
        return u64::MAX;
    }
    match balance.to_u128() {
        Some(b) => match gas_from_motes(b, gas_price) {
            Some(g) => g,
            None => u64::MAX,
        },
        None => {
            proof {
                crate::bytesrepr::lemma_pow256_values();
                let v = balance.value();
                let p = gas_price as nat;
                assert(v / p > u64::MAX) by (nonlinear_arith)
                    requires
                        v >= 0x1_0000_0000_0000_0000_0000_0000_0000_0000nat,
                        1 <= p <= u64::MAX,
                ;
            }
            u64::MAX
        },
    }
}

/// The motes that finalization pays for `gas` out of `balance`: what the gas
/// costs, up to the balance.
pub open spec fn spent(balance: nat, gas: u64, gas_price: u64) -> nat {
    if gas * gas_price <= balance {
        (gas * gas_price) as nat
    } else {
        balance
    }
}

/// How finalizing a deploy splits the payment purse: the motes that the gas
/// used costs go to the rewards purse, up to what the purse holds; the rest
/// is refunded.
pub fn finalize_amounts(payment_purse_balance: &U512, gas_used: u64, gas_price: u64) -> (r: (U512, U512))
    ensures
        r.0.value() + r.1.value() == payment_purse_balance.value(),
        r.0.value() == spent(payment_purse_balance.value(), gas_used, gas_price),
{
    let cost = U512::from_u128(motes_from_gas(gas_used, gas_price));
    let spent = if payment_purse_balance.lt(&cost) {
        *payment_purse_balance
    } else {
        cost
    };
    (spent, payment_purse_balance.sub(&spent))
}

/// What a deploy commits once its phases have run.
#[derive(Clone, Copy, Debug, PartialEq, Eq, Structural)]
pub enum DeployEffects {
    /// The effects of payment and session.
    PaymentAndSession,
    /// The effects of payment alone: the session's are rolled back.
    PaymentOnly,
}

/// The effects that a deploy keeps: the session's only where it succeeded,
/// the payment's in any case.
pub fn effects_kept(session_succeeded: bool) -> (r: DeployEffects)
    ensures
        r == (if session_succeeded {
            DeployEffects::PaymentAndSession
        } else {
            DeployEffects::PaymentOnly
        }),
{
    if session_succeeded {
        DeployEffects::PaymentAndSession
    } else {
        DeployEffects::PaymentOnly
    }
}

} // verus!
