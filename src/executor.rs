//! The executor's decisions: where a call is routed, whether a caller may
//! invoke an entry point, which contract version runs, and what an execution
//! returns once its code has run.
use vstd::prelude::*;
use crate::api_error::ApiError;
use crate::keys::{Addr, Key, URef, addr_eq, key_addr};
use crate::runtime_context::{AccessRights, ExecError};
use crate::stored_value::{ContractPackage, ContractVersionKey, EntryPointAccess, Name, names_view};
use crate::tracking_copy::{ExecutionEffect, Op};
use crate::key_map::KeyId;
use crate::transform::TransformView;
use crate::stored_value::{CLType, CLValue, CLValueView};

verus! {

broadcast use vstd::array::group_array_axioms;

/// An amount of gas.
#[derive(Clone, Copy, Debug, PartialEq, Eq, Structural)]
pub struct Gas {
    pub value: u64,
}

impl Gas {
    pub fn new(value: u64) -> (r: Gas)
        ensures
            r.value == value,
    {
        Gas { value }
    }

    pub fn value(&self) -> (r: u64)
        ensures
            r == self.value,
    {
        self.value
    }
}

impl Default for Gas {
    fn default() -> (r: Gas)
        ensures
            r.value == 0,
    {
        Gas { value: 0 }
    }
}

/// What an execution gives back: its effects and cost on success; on
/// failure, the error, the effects to keep and the cost charged.
pub enum ExecutionResult {
    Success { effect: ExecutionEffect, cost: Gas },
    Failure { error: ExecError, effect: ExecutionEffect, cost: Gas },
}

impl ExecutionResult {
    /// A failure before anything ran: no effects, no cost.
    pub fn precondition_failure(error: ExecError) -> (r: ExecutionResult)
        ensures
            match r {
                ExecutionResult::Failure { error: e, effect, cost } => e == error && cost.value == 0
                    && effect.wf() && effect.ops@.len() == 0 && effect.transforms@.len() == 0,
                _ => false,
            },
    {
        ExecutionResult::Failure { error, effect: ExecutionEffect::default(), cost: Gas::new(0) }
    }

    pub fn is_success(&self) -> (r: bool)
        ensures
            r == (self is Success),
    {
        match self {
            ExecutionResult::Success { .. } => true,
            ExecutionResult::Failure { .. } => false,
        }
    }

    pub fn cost(&self) -> (r: Gas)
        ensures
            r == (match self {
                ExecutionResult::Success { cost, .. } => *cost,
                ExecutionResult::Failure { cost, .. } => *cost,
            }),
    {
        match self {
            ExecutionResult::Success { cost, .. } => *cost,
            ExecutionResult::Failure { cost, .. } => *cost,
        }
    }
}

/// Ends an execution where `result` failed: the failure carries `cost` and
/// `effect`. Where it succeeded, its value is handed back.
pub fn charge_on_failure<T>(result: Result<T, ExecError>, cost: Gas, effect: ExecutionEffect) -> (r: Result<T, ExecutionResult>)
    ensures
        match (result, r) {
            (Ok(v), Ok(w)) => v == w,
            (Err(e), Err(ExecutionResult::Failure { error, effect: f, cost: c })) => error == e && c == cost && f == effect,
            _ => false,
        },
{
    match result {
        Ok(v) => Ok(v),
        Err(e) => Err(ExecutionResult::Failure { error: e, effect, cost }),
    }
}

/// Runs `f`; charges `error_cost` with no effects where it fails, and
/// `success_cost` where it succeeds.
pub fn on_fail_charge_test_helper<T, F: Fn() -> Result<T, ExecError>>(f: F, success_cost: Gas, error_cost: Gas) -> (r: ExecutionResult)
    requires
        f.requires(()),
    ensures
        exists|res: Result<T, ExecError>| f.ensures((), res) && match (res, r) {
            (Ok(_), ExecutionResult::Success { effect, cost }) => cost == success_cost && effect.wf()
                && effect.ops@ == Map::<KeyId, Op>::empty() && effect.transforms@ == Map::<KeyId, TransformView>::empty(),
            (Err(e), ExecutionResult::Failure { error, effect, cost }) => error == e && cost == error_cost && effect.wf()
                && effect.ops@ == Map::<KeyId, Op>::empty() && effect.transforms@ == Map::<KeyId, TransformView>::empty(),
            _ => false,
        },
{
    let res = f();
    match charge_on_failure(res, error_cost, ExecutionEffect::default()) {
        Ok(_) => ExecutionResult::Success { effect: ExecutionEffect::default(), cost: success_cost },
        Err(failure) => failure,
    }
}

/// How the executor runs system contracts.
#[derive(Clone, Copy, Debug, PartialEq, Eq, Structural)]
pub struct EngineConfig {
    /// Whether system contracts run as Wasm, or through their host-side
    /// implementations.
    pub use_system_contracts: bool,
}

/// Runs the entry points of deploys.
pub struct Executor {
    pub config: EngineConfig,
}

/// Where a call to a stored contract is routed.
#[derive(Clone, Copy, Debug, PartialEq, Eq, Structural)]
pub enum CallRoute {
    /// The host-side mint.
    HostMint,
    /// The host-side proof-of-stake contract.
    HostProofOfStake,
    /// The contract's Wasm.
    Wasm,
}

/// The route of a call under `base_key`.
pub open spec fn route_spec(use_system_contracts: bool, base_key: Key, mint: Seq<u8>, pos: Seq<u8>) -> CallRoute {
    if use_system_contracts {
        CallRoute::Wasm
    } else if key_addr(base_key) == mint {
        CallRoute::HostMint
    } else if key_addr(base_key) == pos {
        CallRoute::HostProofOfStake
    } else {
        CallRoute::Wasm
    }
}

/// How a contract's code ended.
#[derive(Clone, Copy, Debug)]
pub enum CallOutcome {
    /// Its exported function returned without calling `ret`.
    Returned,
    /// It called `ret`, which ends the call with the value in the host buffer.
    ReturnedValue,
    /// It reverted with a status.
    Reverted(ApiError),
    /// It trapped, or a host function failed.
    Trapped(ExecError),
}

impl Executor {
    pub fn new(config: EngineConfig) -> (r: Executor)
        ensures
            r.config == config,
    {
        Executor { config }
    }

    pub fn config(&self) -> (r: EngineConfig)
        ensures
            r == self.config,
    {
        self.config
    }

    /// Where a call to the contract under `base_key` runs: with system
    /// contracts off, calls to the mint and to proof of stake run host-side.
    pub fn route(&self, base_key: &Key, mint: &Addr, proof_of_stake: &Addr) -> (r: CallRoute)
        ensures
            r == route_spec(self.config.use_system_contracts, *base_key, mint@, proof_of_stake@),
    {
        if self.config.use_system_contracts {
            return CallRoute::Wasm;
        }
        let a = base_key.addr();
        if addr_eq(&a, mint) {
            CallRoute::HostMint
        } else if addr_eq(&a, proof_of_stake) {
            CallRoute::HostProofOfStake
        } else {
            CallRoute::Wasm
        }
    }

    /// The result of a call once its code has ended: on success the effects
    /// it recorded; on revert or trap the effects from before it ran. The
    /// gas used is charged either way.
    pub fn finish(&self, outcome: CallOutcome, effect: ExecutionEffect, snapshot: ExecutionEffect, cost: Gas) -> (r: ExecutionResult)
        ensures
            match (outcome, r) {
                (CallOutcome::Returned, ExecutionResult::Success { effect: e, cost: c }) => e == effect && c == cost,
                (CallOutcome::ReturnedValue, ExecutionResult::Success { effect: e, cost: c }) => e == effect && c == cost,
                (CallOutcome::Reverted(code), ExecutionResult::Failure { error, effect: e, cost: c }) => error
                    == ExecError::Revert(code) && e == snapshot && c == cost,
                (CallOutcome::Trapped(x), ExecutionResult::Failure { error, effect: e, cost: c }) => error == x && e
                    == snapshot && c == cost,
                _ => false,
            },
    {
        match outcome {
            CallOutcome::Returned => ExecutionResult::Success { effect, cost },
            CallOutcome::ReturnedValue => ExecutionResult::Success { effect, cost },
            CallOutcome::Reverted(code) => ExecutionResult::Failure { error: ExecError::Revert(code), effect: snapshot, cost },
            CallOutcome::Trapped(e) => ExecutionResult::Failure { error: e, effect: snapshot, cost },
        }
    }
}

/// The unit value, which a call gives back where it returns without `ret`.
pub open spec fn unit_value() -> CLValueView {
    CLValueView { cl_type: CLType::Unit, bytes: Seq::empty() }
}

/// What a call made directly, to install or upgrade system contracts, gives
/// back once its code has ended, read as a value of type `expected`: the unit
/// value where it returned without `ret`; the host buffer where it called
/// `ret`, or `ExpectedReturnValue` where the buffer is empty; `Revert` where
/// it reverted; the error where it trapped. A value of another type than
/// `expected` is a `TypeMismatch`.
pub fn direct_call_result(outcome: CallOutcome, host_buffer: Option<CLValue>, expected: &CLType) -> (r: Result<CLValue, ExecError>)
    ensures
        match outcome {
            CallOutcome::Returned => {
                let v = match host_buffer {
                    Some(b) => b@,
                    None => unit_value(),
                };
                if v.cl_type == *expected {
                    r matches Ok(w) && w@ == v
                } else {
                    r == Err::<CLValue, ExecError>(ExecError::TypeMismatch)
                }
            },
            CallOutcome::ReturnedValue => match host_buffer {
                Some(b) => if b.cl_type == *expected {
                    r matches Ok(w) && w@ == b@
                } else {
                    r == Err::<CLValue, ExecError>(ExecError::TypeMismatch)
                },
                None => r == Err::<CLValue, ExecError>(ExecError::ExpectedReturnValue),
            },
            CallOutcome::Reverted(code) => r == Err::<CLValue, ExecError>(ExecError::Revert(code)),
            CallOutcome::Trapped(e) => r == Err::<CLValue, ExecError>(e),
        },
{
    let value = match outcome {
        CallOutcome::Returned => match host_buffer {
            Some(v) => v,
            None => {
                let unit = CLValue { cl_type: CLType::Unit, bytes: Vec::new() };
                assert(unit@.bytes =~= Seq::<u8>::empty());
                unit
            },
        },
        CallOutcome::ReturnedValue => match host_buffer {
            Some(v) => v,
            None => return Err(ExecError::ExpectedReturnValue),
        },
        CallOutcome::Reverted(code) => return Err(ExecError::Revert(code)),
        CallOutcome::Trapped(e) => return Err(e),
    };
    if crate::stored_value::cl_type_eq(&value.cl_type, expected) {
        Ok(value)
    } else {
        Err(ExecError::TypeMismatch)
    }
}

/// The named keys that an account keeps after a direct call: those the call
/// left where it succeeded, its own where it failed.
pub fn named_keys_after_call<T>(result: &Result<T, ExecError>, before: Vec<crate::stored_value::NamedKey>, after: Vec<crate::stored_value::NamedKey>) -> (r: Vec<crate::stored_value::NamedKey>)
    ensures
        r == (if result is Ok { after } else { before }),
{
    match result {
        Ok(_) => after,
        Err(_) => before,
    }
}

/// A system-contract call that the engine makes itself.
#[derive(Clone, Copy, Debug, PartialEq, Eq, Structural)]
pub enum DirectSystemContractCall {
    FinalizePayment,
    Transfer,
}

impl DirectSystemContractCall {
    /// Whether the call is made on the contract that it belongs to:
    /// finalizing a payment on proof of stake, a transfer on the mint. The
    /// engine makes a direct call only where this holds.
    pub fn targets(&self, base_key: &Key, mint: &Addr, proof_of_stake: &Addr) -> (r: bool)
        ensures
            r == (match self {
                DirectSystemContractCall::FinalizePayment => key_addr(*base_key) == proof_of_stake@,
                DirectSystemContractCall::Transfer => key_addr(*base_key) == mint@,
            }),
    {
        let a = base_key.addr();
        match self {
            DirectSystemContractCall::FinalizePayment => addr_eq(&a, proof_of_stake),
            DirectSystemContractCall::Transfer => addr_eq(&a, mint),
        }
    }

    /// The entry point that the call runs.
    pub fn entry_point_name(&self) -> (r: &'static str)
        ensures
            r@ == (match self {
                DirectSystemContractCall::FinalizePayment => "finalize_payment"@,
                DirectSystemContractCall::Transfer => "transfer"@,
            }),
    {
        match self {
            DirectSystemContractCall::FinalizePayment => "finalize_payment",
            DirectSystemContractCall::Transfer => "transfer",
        }
    }
}

// ------------------------------------------------------------ access rules

/// The references of the group named `g` in a package.
pub open spec fn group_members(groups: Seq<(Name, Vec<URef>)>, g: Seq<u8>) -> Seq<URef>
    decreases groups.len(),
{
    if groups.len() == 0 {
        Seq::empty()
    } else if groups[0].0@ == g {
        groups[0].1@
    } else {
        group_members(groups.drop_first(), g)
    }
}

/// Whether the caller holds a reference of one of the groups `names`.
pub open spec fn holds_group_member(groups: Seq<(Name, Vec<URef>)>, names: Seq<Seq<u8>>, held: Map<Seq<u8>, u8>) -> bool {
    exists|i: int, j: int| 0 <= i < names.len() && 0 <= j < group_members(groups, names[i]).len()
        && held.contains_key(#[trigger] group_members(groups, names[i])[j].addr@)
}

fn group_of<'a>(groups: &'a Vec<(Name, Vec<URef>)>, g: &Name) -> (r: Option<&'a Vec<URef>>)
    ensures
        match r {
            Some(m) => m@ == group_members(groups@, g@),
            None => group_members(groups@, g@).len() == 0,
        },
{
    let mut i: usize = 0;
    assert(groups@.subrange(0, groups@.len() as int) =~= groups@);
    while i < groups.len()
        invariant
            i <= groups@.len(),
            group_members(groups@, g@) == group_members(groups@.subrange(i as int, groups@.len() as int), g@),
        decreases groups@.len() - i,
    {
        let ghost rest = groups@.subrange(i as int, groups@.len() as int);
        assert(rest.drop_first() =~= groups@.subrange(i + 1, groups@.len() as int));
        assert(rest[0] == groups@[i as int]);
        if groups[i].0 == *g {
            assert(rest[0].0@ == g@);
            return Some(&groups[i].1);
        }
        i = i + 1;
    }
    None
}

/// Checks that the caller, who holds the rights `held`, may call an entry
/// point with access `access` of `package`: a public one always, one
/// restricted to groups when the caller holds a reference of one of them.
pub fn validate_entry_point_access(package: &ContractPackage, access: &EntryPointAccess, held: &AccessRights) -> (r: Result<(), ExecError>)
    ensures
        match access {
            EntryPointAccess::Public => r is Ok,
            EntryPointAccess::Groups(names) => (r is Ok) == holds_group_member(package.groups@, names_view(names@), held@)
                && (r is Err ==> r == Err::<(), ExecError>(ExecError::InvalidContext)),
        },
{
    match access {
        EntryPointAccess::Public => Ok(()),
        EntryPointAccess::Groups(names) => {
            let ghost nv = names_view(names@);
            let mut i: usize = 0;
            while i < names.len()
                invariant
                    i <= names@.len(),
                    nv == names_view(names@),
                    *access == EntryPointAccess::Groups(*names),
                    forall|a: int, b: int| 0 <= a < i && 0 <= b < group_members(package.groups@, nv[a]).len()
                        ==> !held@.contains_key(#[trigger] group_members(package.groups@, nv[a])[b].addr@),
                decreases names@.len() - i,
            {
                assert(nv[i as int] == names@[i as int]@);
                match group_of(&package.groups, &names[i]) {
                    Some(members) => {
                        let mut j: usize = 0;
                        while j < members.len()
                            invariant
                                j <= members@.len(),
                                i < names@.len(),
                                nv == names_view(names@),
                                *access == EntryPointAccess::Groups(*names),
                                members@ == group_members(package.groups@, nv[i as int]),
                                forall|b: int| 0 <= b < j ==> !held@.contains_key(#[trigger] members@[b].addr@),
                            decreases members@.len() - j,
                        {
                            if held.get(&members[j].addr).is_some() {
                                assert(group_members(package.groups@, nv[i as int])[j as int] == members@[j as int]);
                                assert(held@.contains_key(group_members(package.groups@, nv[i as int])[j as int].addr@));
                                assert(holds_group_member(package.groups@, nv, held@));
                                return Ok(());
                            }
                            j = j + 1;
                        }
                    },
                    None => {},
                }
                i = i + 1;
            }
            Err(ExecError::InvalidContext)
        },
    }
}

/// Whether a version is among the disabled ones.
pub open spec fn is_disabled(disabled: Seq<ContractVersionKey>, v: ContractVersionKey) -> bool {
    exists|i: int| 0 <= i < disabled.len() && disabled[i] == v
}

fn disabled_contains(disabled: &Vec<ContractVersionKey>, v: ContractVersionKey) -> (r: bool)
    ensures
        r == is_disabled(disabled@, v),
{
    let mut i: usize = 0;
    while i < disabled.len()
        invariant
            i <= disabled@.len(),
            forall|j: int| 0 <= j < i ==> disabled@[j] != v,
        decreases disabled@.len() - i,
    {
        if disabled[i].0 == v.0 && disabled[i].1 == v.1 {
            return true;
        }
        i = i + 1;
    }
    false
}

/// Whether `a` comes after `b` in version order.
pub open spec fn version_after(a: ContractVersionKey, b: ContractVersionKey) -> bool {
    a.0 > b.0 || (a.0 == b.0 && a.1 > b.1)
}

/// The contract that a package runs for `version`: the version asked for,
/// or, where none is asked for, the latest enabled version. Fails with
/// `InvalidContractVersion` where that version is absent or disabled.
pub fn resolve_contract_version(package: &ContractPackage, version: Option<ContractVersionKey>) -> (r: Result<Addr, ExecError>)
    ensures
        match r {
            Ok(h) => exists|i: int| 0 <= i < package.versions@.len() && package.versions@[i].1 == h
                && !is_disabled(package.disabled_versions@, package.versions@[i].0)
                && match version {
                    Some(v) => package.versions@[i].0 == v,
                    None => forall|j: int| 0 <= j < package.versions@.len() && !is_disabled(package.disabled_versions@, #[trigger] package.versions@[j].0)
                        ==> !version_after(package.versions@[j].0, package.versions@[i].0),
                },
            Err(e) => e == ExecError::Revert(ApiError::InvalidContractVersion) && match version {
                Some(v) => forall|i: int| 0 <= i < package.versions@.len() && #[trigger] package.versions@[i].0 == v
                    ==> is_disabled(package.disabled_versions@, v),
                None => forall|i: int| 0 <= i < package.versions@.len() ==> is_disabled(package.disabled_versions@, #[trigger] package.versions@[i].0),
            },
        },
{
    let mut best: Option<usize> = None;
    let mut i: usize = 0;
    while i < package.versions.len()
        invariant
            i <= package.versions@.len(),
            match best {
                Some(b) => b < i && !is_disabled(package.disabled_versions@, package.versions@[b as int].0)
                    && match version {
                        Some(v) => package.versions@[b as int].0 == v,
                        None => forall|j: int| 0 <= j < i && !is_disabled(package.disabled_versions@, #[trigger] package.versions@[j].0)
                            ==> !version_after(package.versions@[j].0, package.versions@[b as int].0),
                    },
                None => match version {
                    Some(v) => forall|j: int| 0 <= j < i && #[trigger] package.versions@[j].0 == v
                        ==> is_disabled(package.disabled_versions@, v),
                    None => forall|j: int| 0 <= j < i ==> is_disabled(package.disabled_versions@, #[trigger] package.versions@[j].0),
                },
            },
        decreases package.versions@.len() - i,
    {
        let v = package.versions[i].0;
        let enabled = !disabled_contains(&package.disabled_versions, v);
        match version {
            Some(want) => {
                if best.is_none() && enabled && v.0 == want.0 && v.1 == want.1 {
                    best = Some(i);
                }
            },
            None => {
                if enabled {
                    match best {
                        None => {
                            best = Some(i);
                        },
                        Some(b) => {
                            let cur = package.versions[b].0;
                            if v.0 > cur.0 || (v.0 == cur.0 && v.1 > cur.1) {
                                best = Some(i);
                            }
                        },
                    }
                }
            },
        }
        i = i + 1;
    }
    match best {
        Some(b) => Ok(package.versions[b].1),
        None => Err(ExecError::Revert(ApiError::InvalidContractVersion)),
    }
}

} // verus!
