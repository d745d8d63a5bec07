//! The mint: purses and their balances, and the host-side logic of its entry
//! points (`mint`, `create`, `balance`, `transfer`).
use vstd::prelude::*;
use crate::stored_value::{CLType, EntryPoint, EntryPointAccess, EntryPointType, EntryPointView, Parameter};
use crate::u512::{U512, m512};
use crate::keys::{Addr, URef, READ_ADD_WRITE, WRITE, ADD, addr_eq, has_rights, rights_include};
use crate::runtime_context::{AddressGenerator, Phase, generated_addr, lemma_generated_addr_distinct};

verus! {

broadcast use vstd::array::group_array_axioms;

/// Why a mint call failed.
#[derive(Clone, Copy, Debug, PartialEq, Eq, Structural)]
pub enum MintError {
    InsufficientFunds,
    SourceNotFound,
    DestNotFound,
    InvalidAccessRights,
    /// The total supply would not fit.
    SupplyOverflow,
}

/// The sum of the balances of a list of purses.
pub open spec fn total(s: Seq<(Addr, U512)>) -> int
    decreases s.len(),
{
    if s.len() == 0 {
        0
    } else {
        total(s.drop_last()) + s.last().1.value()
    }
}

proof fn lemma_total_update(s: Seq<(Addr, U512)>, i: int, x: U512)
    requires
        0 <= i < s.len(),
    ensures
        total(s.update(i, (s[i].0, x))) == total(s) - s[i].1.value() + x.value(),
    decreases s.len(),
{
    let t = s.update(i, (s[i].0, x));
    if i == s.len() - 1 {
        assert(t.drop_last() =~= s.drop_last());
    } else {
        assert(t.drop_last() =~= s.drop_last().update(i, (s[i].0, x)));
        lemma_total_update(s.drop_last(), i, x);
    }
}

proof fn lemma_total_bound(s: Seq<(Addr, U512)>, i: int)
    requires
        0 <= i < s.len(),
    ensures
        total(s) >= s[i].1.value(),
        total(s) >= 0,
    decreases s.len(),
{
    lemma_total_nonneg(s.drop_last());
    if i < s.len() - 1 {
        lemma_total_bound(s.drop_last(), i);
    }
}

proof fn lemma_total_nonneg(s: Seq<(Addr, U512)>)
    ensures
        total(s) >= 0,
    decreases s.len(),
{
    if s.len() > 0 {
        lemma_total_nonneg(s.drop_last());
    }
}

proof fn lemma_total_pair(s: Seq<(Addr, U512)>, i: int, j: int)
    requires
        0 <= i < s.len(),
        0 <= j < s.len(),
        i != j,
    ensures
        total(s) >= s[i].1.value() + s[j].1.value(),
    decreases s.len(),
{
    lemma_total_nonneg(s.drop_last());
    if i == s.len() - 1 {
        lemma_total_bound(s.drop_last(), j);
    } else if j == s.len() - 1 {
        lemma_total_bound(s.drop_last(), i);
    } else {
        lemma_total_pair(s.drop_last(), i, j);
    }
}

/// The balance of the purse at `a`, in a list of purses.
pub open spec fn balance_of(s: Seq<(Addr, U512)>, a: Seq<u8>) -> Option<nat> {
    if exists|i: int| 0 <= i < s.len() && s[i].0@ == a {
        let i = choose|i: int| 0 <= i < s.len() && s[i].0@ == a;
        Some(s[i].1.value())
    } else {
        None
    }
}

/// Whether a mint transfer goes through: the source claims `WRITE`, the
/// target `ADD`, both are purses of the mint and the source holds `amount`.
pub open spec fn mint_transfer_allowed(s: Seq<(Addr, U512)>, source: URef, target: URef, amount: nat) -> bool {
    &&& rights_include(source.rights, WRITE)
    &&& rights_include(target.rights, ADD)
    &&& balance_of(s, source.addr@) is Some
    &&& balance_of(s, target.addr@) is Some
    &&& amount <= balance_of(s, source.addr@)->0
}

/// The mint's ledger of purses.
pub struct MintContract {
    pub purses: Vec<(Addr, U512)>,
    pub supply: U512,
    pub generator: AddressGenerator,
}

impl MintContract {
    /// Each purse was created by the mint's generator, in order, and the supply
    /// is the sum of the balances.
    pub open spec fn wf(&self) -> bool {
        &&& self.generator.count == self.purses@.len()
        &&& forall|i: int| 0 <= i < self.purses@.len() ==> (#[trigger] self.purses@[i]).0@
            == generated_addr(self.generator.seed@, i as u64)
        &&& self.supply.value() == total(self.purses@)
    }

    /// A mint with no purses, whose addresses are seeded by `seed`.
    pub fn new(seed: &Addr) -> (r: MintContract)
        ensures
            r.wf(),
            r.purses@.len() == 0,
            r.supply.value() == 0,
    {
        MintContract { purses: Vec::new(), supply: U512::zero(), generator: AddressGenerator::new(seed, Phase::System) }
    }

    pub proof fn lemma_unique(&self, i: int, j: int)
        requires
            self.wf(),
            0 <= i < self.purses@.len(),
            0 <= j < self.purses@.len(),
            i != j,
        ensures
            self.purses@[i].0@ != self.purses@[j].0@,
    {
        lemma_generated_addr_distinct(self.generator.seed@, i as u64, j as u64);
    }

    fn find(&self, a: &Addr) -> (r: Option<usize>)
        requires
            self.wf(),
        ensures
            match r {
                Some(i) => i < self.purses@.len() && self.purses@[i as int].0@ == a@
                    && balance_of(self.purses@, a@) == Some(self.purses@[i as int].1.value()),
                None => balance_of(self.purses@, a@) is None,
            },
    {
        let mut i: usize = 0;
        while i < self.purses.len()
            invariant
                i <= self.purses@.len(),
                self.wf(),
                forall|j: int| 0 <= j < i ==> self.purses@[j].0@ != a@,
            decreases self.purses@.len() - i,
        {
            if addr_eq(&self.purses[i].0, a) {
                proof {
                    let c = choose|c: int| 0 <= c < self.purses@.len() && self.purses@[c].0@ == a@;
                    if c != i {
                        self.lemma_unique(c, i as int);
                    }
                }
                return Some(i);
            }
            i = i + 1;
        }
        None
    }

    /// Creates a purse holding `amount`, newly minted.
    pub fn mint(&mut self, amount: U512) -> (r: Result<URef, MintError>)
        requires
            old(self).wf(),
            old(self).generator.count < u64::MAX,
        ensures
            final(self).wf(),
            match r {
                Ok(u) => old(self).supply.value() + amount.value() < m512()
                    && u.rights == READ_ADD_WRITE
                    && balance_of(old(self).purses@, u.addr@) is None
                    && final(self).purses@ == old(self).purses@.push((u.addr, amount))
                    && total(final(self).purses@) == total(old(self).purses@) + amount.value(),
                Err(e) => e == MintError::SupplyOverflow && old(self).supply.value() + amount.value() >= m512()
                    && *final(self) == *old(self),
            },
    {
        let new_supply = match self.supply.checked_add(&amount) {
            Some(x) => x,
            None => return Err(MintError::SupplyOverflow),
        };
        let ghost n = self.purses@.len();
        let addr = self.generator.create_address();
        proof {
            if balance_of(old(self).purses@, addr@) is Some {
                let c = choose|c: int| 0 <= c < old(self).purses@.len() && old(self).purses@[c].0@ == addr@;
                lemma_generated_addr_distinct(self.generator.seed@, c as u64, n as u64);
            }
        }
        let ghost before = self.purses@;
        self.purses.push((addr, amount));
        self.supply = new_supply;
        assert(self.purses@.drop_last() =~= before);
        Ok(URef { addr, rights: READ_ADD_WRITE })
    }

    /// Creates an empty purse.
    pub fn create(&mut self) -> (r: Result<URef, MintError>)
        requires
            old(self).wf(),
            old(self).generator.count < u64::MAX,
        ensures
            final(self).wf(),
            match r {
                Ok(u) => u.rights == READ_ADD_WRITE && balance_of(old(self).purses@, u.addr@) is None
                    && final(self).purses@ == old(self).purses@.push((u.addr, final(self).purses@.last().1))
                    && final(self).purses@.last().1.value() == 0,
                Err(_) => false,
            },
    {
        proof {
            crate::bytesrepr::lemma_le_value_bound(old(self).supply.bytes@);
        }
        self.mint(U512::zero())
    }

    /// The balance of a purse, if the mint holds it.
    pub fn balance(&self, purse: &URef) -> (r: Option<U512>)
        requires
            self.wf(),
        ensures
            match r {
                Some(b) => balance_of(self.purses@, purse.addr@) == Some(b.value()),
                None => balance_of(self.purses@, purse.addr@) is None,
            },
    {
        match self.find(&purse.addr) {
            Some(i) => Some(self.purses[i].1),
            None => None,
        }
    }

    /// Moves `amount` from `source` to `target`. The source must claim
    /// `WRITE`, the target `ADD`.
    pub fn transfer(&mut self, source: &URef, target: &URef, amount: &U512) -> (r: Result<(), MintError>)
        requires
            old(self).wf(),
        ensures
            final(self).wf(),
            total(final(self).purses@) == total(old(self).purses@),
            match r {
                Ok(()) => rights_include(source.rights, WRITE) && rights_include(target.rights, ADD)
                    && balance_of(old(self).purses@, source.addr@) is Some
                    && balance_of(old(self).purses@, target.addr@) is Some
                    && amount.value() <= balance_of(old(self).purses@, source.addr@)->0
                    && (source.addr@ != target.addr@ ==> (
                        balance_of(final(self).purses@, source.addr@) == Some((balance_of(old(self).purses@, source.addr@)->0 - amount.value()) as nat)
                        && balance_of(final(self).purses@, target.addr@) == Some(balance_of(old(self).purses@, target.addr@)->0 + amount.value())))
                    && (source.addr@ == target.addr@ ==> final(self).purses@ == old(self).purses@),
                Err(e) => *final(self) == *old(self) && !mint_transfer_allowed(old(self).purses@, *source, *target, amount.value()) && e == (if !rights_include(source.rights, WRITE) || !rights_include(target.rights, ADD) {
                    MintError::InvalidAccessRights
                } else if balance_of(old(self).purses@, source.addr@) is None {
                    MintError::SourceNotFound
                } else if balance_of(old(self).purses@, source.addr@)->0 < amount.value() {
                    MintError::InsufficientFunds
                } else {
                    MintError::DestNotFound
                }),
            },
    {
        if !has_rights(source.rights, WRITE) || !has_rights(target.rights, ADD) {
            return Err(MintError::InvalidAccessRights);
        }
        let i = match self.find(&source.addr) {
            Some(i) => i,
            None => return Err(MintError::SourceNotFound),
        };
        if self.purses[i].1.lt(amount) {
            return Err(MintError::InsufficientFunds);
        }
        let j = match self.find(&target.addr) {
            Some(j) => j,
            None => return Err(MintError::DestNotFound),
        };
        if i == j {
            return Ok(());
        }
        proof {
            self.lemma_unique(i as int, j as int);
            lemma_total_pair(self.purses@, i as int, j as int);
        }
        let ghost s0 = self.purses@;
        let a_i = self.purses[i].0;
        let b_i = self.purses[i].1.sub(amount);
        let a_j = self.purses[j].0;
        proof {
            crate::bytesrepr::lemma_le_value_bound(self.supply.bytes@);
        }
        let b_j = match self.purses[j].1.checked_add(amount) {
            Some(x) => x,
            None => {
                assert(false);
                return Err(MintError::DestNotFound);
            },
        };
        self.purses.set(i, (a_i, b_i));
        let ghost s1 = self.purses@;
        proof {
            lemma_total_update(s0, i as int, b_i);
            assert(s1 == s0.update(i as int, (s0[i as int].0, b_i)));
        }
        self.purses.set(j, (a_j, b_j));
        proof {
            lemma_total_update(s1, j as int, b_j);
            assert(self.purses@ == s1.update(j as int, (s1[j as int].0, b_j)));
            assert forall|k: int| 0 <= k < self.purses@.len() implies (#[trigger] self.purses@[k]).0@
                == generated_addr(self.generator.seed@, k as u64) by {
                assert(self.purses@[k].0 == s0[k].0);
            }
            let p = self.purses@;
            assert(p[i as int].0@ == source.addr@);
            assert(p[j as int].0@ == target.addr@);
            let ci = choose|c: int| 0 <= c < p.len() && p[c].0@ == source.addr@;
            if ci != i {
                self.lemma_unique(ci, i as int);
            }
            let cj = choose|c: int| 0 <= c < p.len() && p[c].0@ == target.addr@;
            if cj != j {
                self.lemma_unique(cj, j as int);
            }
        }
        Ok(())
    }
}


/// With distinct addresses, the balance at a purse's address is its own.
pub proof fn lemma_balance_at(m: MintContract, i: int)
    requires
        m.wf(),
        0 <= i < m.purses@.len(),
    ensures
        balance_of(m.purses@, m.purses@[i].0@) == Some(m.purses@[i].1.value()),
{
    assert(m.purses@[i].0@ == m.purses@[i].0@);
    let c = choose|c: int| 0 <= c < m.purses@.len() && m.purses@[c].0@ == m.purses@[i].0@;
    if c != i {
        m.lemma_unique(c, i);
    }
}

/// Adding a purse does not change the balance of another address.
pub proof fn lemma_balance_after_push(before: MintContract, after: MintContract, e: (Addr, U512), a: Seq<u8>)
    requires
        before.wf(),
        after.wf(),
        after.purses@ == before.purses@.push(e),
        e.0@ != a,
    ensures
        balance_of(after.purses@, a) == balance_of(before.purses@, a),
{
    let s = before.purses@;
    let t = after.purses@;
    if exists|k: int| 0 <= k < s.len() && s[k].0@ == a {
        let i = choose|k: int| 0 <= k < s.len() && s[k].0@ == a;
        assert(t[i] == s[i]);
        lemma_balance_at(before, i);
        lemma_balance_at(after, i);
    } else if exists|k: int| 0 <= k < t.len() && t[k].0@ == a {
        let j = choose|k: int| 0 <= k < t.len() && t[k].0@ == a;
        assert(t[t.len() - 1] == e);
        assert(t[j] == s[j]);
        assert(false);
    }
}


/// The entry points of the mint, in order: `mint(amount)`, `create()`,
/// `balance(purse)` and `transfer(source, target, amount)`; all public and
/// running in the contract's own context.
pub open spec fn mint_entry_point_views() -> Seq<EntryPointView> {
    seq![
        EntryPointView {
            name: seq![109u8, 105, 110, 116],
            args: seq![(seq![97u8, 109, 111, 117, 110, 116], CLType::U512)],
            ret: CLType::Result { ok: Box::new(CLType::URef), err: Box::new(CLType::U8) },
            groups: None,
            entry_point_type: EntryPointType::Contract,
        },
        EntryPointView {
            name: seq![99u8, 114, 101, 97, 116, 101],
            args: Seq::empty(),
            ret: CLType::URef,
            groups: None,
            entry_point_type: EntryPointType::Contract,
        },
        EntryPointView {
            name: seq![98u8, 97, 108, 97, 110, 99, 101],
            args: seq![(seq![112u8, 117, 114, 115, 101], CLType::URef)],
            ret: CLType::Option(Box::new(CLType::U512)),
            groups: None,
            entry_point_type: EntryPointType::Contract,
        },
        EntryPointView {
            name: seq![116u8, 114, 97, 110, 115, 102, 101, 114],
            args: seq![(seq![115u8, 111, 117, 114, 99, 101], CLType::URef), (seq![116u8, 97, 114, 103, 101, 116], CLType::URef), (seq![97u8, 109, 111, 117, 110, 116], CLType::U512)],
            ret: CLType::Result { ok: Box::new(CLType::Unit), err: Box::new(CLType::U8) },
            groups: None,
            entry_point_type: EntryPointType::Contract,
        }
    ]
}

/// The entry points that the mint is installed with.
pub fn get_entry_points() -> (r: Vec<EntryPoint>)
    ensures
        r@.map_values(|e: EntryPoint| e@) == mint_entry_point_views(),
{
    let mut entry_points: Vec<EntryPoint> = Vec::new();
    let mut args: Vec<Parameter> = Vec::new();
    args.push(Parameter { name: vec![97u8, 109, 111, 117, 110, 116], cl_type: CLType::U512 });
    let e = EntryPoint {
        name: vec![109u8, 105, 110, 116],
        args,
        ret: CLType::Result { ok: Box::new(CLType::URef), err: Box::new(CLType::U8) },
        access: EntryPointAccess::Public,
        entry_point_type: EntryPointType::Contract,
    };
    assert(e@.name =~= mint_entry_point_views()[0].name);
    assert(e@.args =~= mint_entry_point_views()[0].args);
    entry_points.push(e);
    let mut args: Vec<Parameter> = Vec::new();

    let e = EntryPoint {
        name: vec![99u8, 114, 101, 97, 116, 101],
        args,
        ret: CLType::URef,
        access: EntryPointAccess::Public,
        entry_point_type: EntryPointType::Contract,
    };
    assert(e@.name =~= mint_entry_point_views()[1].name);
    assert(e@.args =~= mint_entry_point_views()[1].args);
    entry_points.push(e);
    let mut args: Vec<Parameter> = Vec::new();
    args.push(Parameter { name: vec![112u8, 117, 114, 115, 101], cl_type: CLType::URef });
    let e = EntryPoint {
        name: vec![98u8, 97, 108, 97, 110, 99, 101],
        args,
        ret: CLType::Option(Box::new(CLType::U512)),
        access: EntryPointAccess::Public,
        entry_point_type: EntryPointType::Contract,
    };
    assert(e@.name =~= mint_entry_point_views()[2].name);
    assert(e@.args =~= mint_entry_point_views()[2].args);
    entry_points.push(e);
    let mut args: Vec<Parameter> = Vec::new();
    args.push(Parameter { name: vec![115u8, 111, 117, 114, 99, 101], cl_type: CLType::URef });
    args.push(Parameter { name: vec![116u8, 97, 114, 103, 101, 116], cl_type: CLType::URef });
    args.push(Parameter { name: vec![97u8, 109, 111, 117, 110, 116], cl_type: CLType::U512 });
    let e = EntryPoint {
        name: vec![116u8, 114, 97, 110, 115, 102, 101, 114],
        args,
        ret: CLType::Result { ok: Box::new(CLType::Unit), err: Box::new(CLType::U8) },
        access: EntryPointAccess::Public,
        entry_point_type: EntryPointType::Contract,
    };
    assert(e@.name =~= mint_entry_point_views()[3].name);
    assert(e@.args =~= mint_entry_point_views()[3].args);
    entry_points.push(e);
    assert(entry_points@.map_values(|e: EntryPoint| e@) =~= mint_entry_point_views());
    entry_points
}

} // verus!
