//! Per-call state: the capability table of access rights, gas accounting,
//! deterministic address generation, and the capability-checked storage
//! operations that host functions perform.
use vstd::prelude::*;
use crate::keys::{Addr, Key, URef, READ, WRITE, ADD, READ_ADD_WRITE, addr_eq, has_rights,
    rights_include, key_id};
use crate::stored_value::{EntryPointType, Name, NamedKey, StoredValue, named_key_map,
    append_named_keys, lookup_named_key};
use crate::tracking_copy::{GlobalState, TrackingCopy, TrackingCopyError, project, map_get};
use crate::transform::Transform;

verus! {

broadcast use vstd::array::group_array_axioms;

/// An execution error that ends a call.
#[derive(Clone, Copy, Debug, PartialEq, Eq)]
pub enum ExecError {
    /// A reference whose address the caller was never given.
    ForgedReference(URef),
    /// A reference that does not carry the rights that the operation needs.
    InvalidAccess { required: u8 },
    /// The gas limit was reached.
    GasLimit,
    /// An addition was made to a key that holds no value.
    KeyNotFound(Key),
    /// A value did not have the type that an operation needs.
    TypeMismatch,
    /// An entry point was called in a context that it may not run in.
    InvalidContext,
    /// The call reverted with a status code.
    Revert(crate::api_error::ApiError),
    /// The code called `ret` and left no value to return.
    ExpectedReturnValue,
}

// ------------------------------------------------------- capability table

/// The map that a capability list stands for: for each address, the union of
/// the rights given for it.
pub open spec fn rights_map(s: Seq<(Addr, u8)>) -> Map<Seq<u8>, u8>
    decreases s.len(),
{
    if s.len() == 0 {
        Map::empty()
    } else {
        let m = rights_map(s.drop_last());
        let a = s.last().0@;
        let r = s.last().1;
        m.insert(a, if m.contains_key(a) { m[a] | r } else { r })
    }
}

/// The table `new` holds every address of `old`, with at least its rights.
pub open spec fn rights_extend(old: Map<Seq<u8>, u8>, new: Map<Seq<u8>, u8>) -> bool {
    forall|a: Seq<u8>| #[trigger] old.contains_key(a) ==> new.contains_key(a) && rights_include(new[a], old[a])
}

/// For every address the caller may reference, the rights that it holds.
pub struct AccessRights {
    pub grants: Vec<(Addr, u8)>,
}

impl View for AccessRights {
    type V = Map<Seq<u8>, u8>;

    open spec fn view(&self) -> Map<Seq<u8>, u8> {
        rights_map(self.grants@)
    }
}

impl AccessRights {
    /// A table that grants nothing.
    pub fn new() -> (r: AccessRights)
        ensures
            r@ == Map::<Seq<u8>, u8>::empty(),
            r.grants@ == Seq::<(Addr, u8)>::empty(),
    {
        AccessRights { grants: Vec::new() }
    }

    /// The rights held for `addr`, if any.
    pub fn get(&self, addr: &Addr) -> (r: Option<u8>)
        ensures
            match r {
                Some(x) => self@.contains_key(addr@) && self@[addr@] == x,
                None => !self@.contains_key(addr@),
            },
    {
        let mut found: Option<u8> = None;
        let mut i: usize = 0;
        while i < self.grants.len()
            invariant
                i <= self.grants@.len(),
                match found {
                    Some(x) => rights_map(self.grants@.subrange(0, i as int)).contains_key(addr@)
                        && rights_map(self.grants@.subrange(0, i as int))[addr@] == x,
                    None => !rights_map(self.grants@.subrange(0, i as int)).contains_key(addr@),
                },
            decreases self.grants@.len() - i,
        {
            let ghost pre = self.grants@.subrange(0, i + 1);
            assert(pre.drop_last() =~= self.grants@.subrange(0, i as int));
            if addr_eq(&self.grants[i].0, addr) {
                found = match found {
                    Some(x) => Some(x | self.grants[i].1),
                    None => Some(self.grants[i].1),
                };
            }
            i = i + 1;
        }
        assert(self.grants@.subrange(0, self.grants@.len() as int) =~= self.grants@);
        found
    }

    /// Adds the rights of `u` for its address.
    pub fn grant(&mut self, u: URef)
        ensures
            final(self).grants@ == old(self).grants@.push((u.addr, u.rights)),
            final(self)@ == old(self)@.insert(
                u.addr@,
                if old(self)@.contains_key(u.addr@) {
                    old(self)@[u.addr@] | u.rights
                } else {
                    u.rights
                },
            ),
            rights_extend(old(self)@, final(self)@),
            final(self)@.contains_key(u.addr@),
            rights_include(final(self)@[u.addr@], u.rights),
    {
        let ghost before = self.grants@;
        self.grants.push((u.addr, u.rights));
        assert(self.grants@.drop_last() =~= before);
        proof {
            let m = old(self)@;
            let n = self@;
            assert forall|a: Seq<u8>| #[trigger] m.contains_key(a) implies n.contains_key(a) && rights_include(n[a], m[a]) by {
                let x = m[a];
                let r = u.rights;
                assert((x | r) & x == x) by (bit_vector);
                assert(x & x == x) by (bit_vector);
            }
            let r = u.rights;
            assert(r & r == r) by (bit_vector);
            if m.contains_key(u.addr@) {
                let x = m[u.addr@];
                assert((x | r) & r == r) by (bit_vector);
            }
        }
    }
}

/// Whether a reference may be used: its address is in the table and the table
/// grants it every right that the reference claims.
pub open spec fn uref_valid_in(table: Map<Seq<u8>, u8>, u: URef) -> bool {
    table.contains_key(u.addr@) && rights_include(table[u.addr@], u.rights)
}

/// The outcome of checking a reference against a capability table.
pub open spec fn validate_uref_spec(table: Map<Seq<u8>, u8>, u: URef) -> Result<(), ExecError> {
    if !table.contains_key(u.addr@) {
        Err(ExecError::ForgedReference(u))
    } else if !rights_include(table[u.addr@], u.rights) {
        Err(ExecError::InvalidAccess { required: u.rights })
    } else {
        Ok(())
    }
}

/// The outcome of checking a reference for an operation that needs the
/// rights `needed`: an address outside the table is forged, whatever the
/// reference claims; then the reference must claim `needed`, and the table
/// must grant what it claims.
pub open spec fn uref_access_spec(table: Map<Seq<u8>, u8>, u: URef, needed: u8) -> Result<(), ExecError> {
    if !table.contains_key(u.addr@) {
        Err(ExecError::ForgedReference(u))
    } else if !rights_include(u.rights, needed) {
        Err(ExecError::InvalidAccess { required: needed })
    } else {
        validate_uref_spec(table, u)
    }
}

// ---------------------------------------------------------------- addresses

/// The execution phase, which seeds address generation.
#[derive(Clone, Copy, Debug, PartialEq, Eq, Structural)]
pub enum Phase {
    System,
    Payment,
    Session,
    FinalizePayment,
}

pub open spec fn phase_tag(p: Phase) -> u8 {
    match p {
        Phase::System => 0,
        Phase::Payment => 1,
        Phase::Session => 2,
        Phase::FinalizePayment => 3,
    }
}

/// The address that a generator with `seed` gives as its `n`th: the first
/// 24 bytes of the seed, then `n` as eight little-endian bytes.
pub open spec fn generated_addr(seed: Seq<u8>, n: u64) -> Seq<u8> {
    seed.subrange(0, 24) + crate::bytesrepr::le_bytes(n as nat, 8)
}

/// A deterministic source of fresh addresses.
pub struct AddressGenerator {
    pub seed: Addr,
    pub count: u64,
}

impl AddressGenerator {
    /// A generator seeded by a deploy hash and a phase.
    pub fn new(deploy_hash: &Addr, phase: Phase) -> (r: AddressGenerator)
        ensures
            r.count == 0,
            r.seed@ == deploy_hash@.update(23, (deploy_hash@[23] ^ phase_tag(phase))),
    {
        let mut seed = *deploy_hash;
        let tag: u8 = match phase {
            Phase::System => 0,
            Phase::Payment => 1,
            Phase::Session => 2,
            Phase::FinalizePayment => 3,
        };
        seed[23] = seed[23] ^ tag;
        assert(seed@ =~= deploy_hash@.update(23, (deploy_hash@[23] ^ phase_tag(phase))));
        AddressGenerator { seed, count: 0 }
    }

    /// The next address.
    pub fn create_address(&mut self) -> (r: Addr)
        requires
            old(self).count < u64::MAX,
        ensures
            r@ == generated_addr(old(self).seed@, old(self).count),
            final(self).seed == old(self).seed,
            final(self).count == old(self).count + 1,
    {
        let mut a: Addr = self.seed;
        let mut v: u64 = self.count;
        let mut i: usize = 24;
        proof {
            crate::bytesrepr::lemma_pow256_values();
        }
        let ghost n = self.count;
        while i < 32
            invariant
                24 <= i <= 32,
                a@.len() == 32,
                forall|j: int| 0 <= j < 24 ==> a@[j] == self.seed@[j],
                a@.subrange(24, i as int) + crate::bytesrepr::le_bytes(v as nat, (32 - i) as nat)
                    == crate::bytesrepr::le_bytes(n as nat, 8),
            decreases 32 - i,
        {
            let ghost rest = crate::bytesrepr::le_bytes(v as nat, (32 - i) as nat);
            let b = (v % 256) as u8;
            assert(rest == seq![b] + crate::bytesrepr::le_bytes((v / 256) as nat, (32 - i - 1) as nat));
            let ghost prev = a@.subrange(24, i as int);
            a[i] = b;
            assert(a@.subrange(24, i + 1) =~= prev + seq![b]);
            v = v / 256;
            i = i + 1;
        }
        assert(a@ =~= generated_addr(self.seed@, n));
        self.count = self.count + 1;
        a
    }
}

/// Generated addresses differ for different counts.
pub proof fn lemma_generated_addr_distinct(seed: Seq<u8>, n: u64, m: u64)
    requires
        n != m,
        seed.len() == 32,
    ensures
        generated_addr(seed, n) != generated_addr(seed, m),
{
    crate::bytesrepr::lemma_pow256_values();
    crate::bytesrepr::lemma_le_bytes_len(n as nat, 8);
    crate::bytesrepr::lemma_le_bytes_len(m as nat, 8);
    if generated_addr(seed, n) == generated_addr(seed, m) {
        assert(generated_addr(seed, n).subrange(24, 32) =~= crate::bytesrepr::le_bytes(n as nat, 8));
        assert(generated_addr(seed, m).subrange(24, 32) =~= crate::bytesrepr::le_bytes(m as nat, 8));
        crate::bytesrepr::lemma_le_injective(n as nat, m as nat, 8);
    }
}


// ------------------------------------------------------------- the context

/// Whether `a` is the address of a reference among `keys`.
pub open spec fn uref_in(keys: Seq<Key>, a: Seq<u8>) -> bool {
    exists|j: int| 0 <= j < keys.len() && (#[trigger] keys[j]) is URef && keys[j]->URef_0.addr@ == a
}

/// The grants that a list of keys gives: the address and rights of each
/// reference among them, in order.
pub open spec fn uref_grants(keys: Seq<Key>) -> Seq<(Addr, u8)>
    decreases keys.len(),
{
    if keys.len() == 0 {
        Seq::empty()
    } else {
        let rest = uref_grants(keys.drop_last());
        match keys.last() {
            Key::URef(u) => rest.push((u.addr, u.rights)),
            _ => rest,
        }
    }
}

/// The keys of a list of named keys.
pub open spec fn named_key_keys(s: Seq<NamedKey>) -> Seq<Key> {
    s.map_values(|e: NamedKey| e.1)
}

proof fn lemma_rights_map_dom(s: Seq<(Addr, u8)>, a: Seq<u8>) -> (i: int)
    requires
        rights_map(s).contains_key(a),
    ensures
        0 <= i < s.len(),
        s[i].0@ == a,
    decreases s.len(),
{
    if s.last().0@ == a {
        (s.len() - 1) as int
    } else {
        lemma_rights_map_dom(s.drop_last(), a)
    }
}

/// The outcome of a gas charge on a counter.
pub open spec fn charged(counter: u64, limit: u64, amount: u64) -> Result<u64, u64> {
    if counter + amount > limit {
        Err(limit)
    } else {
        Ok((counter + amount) as u64)
    }
}

/// Whether an entry point of the given kind may be called from a context of
/// the given kind: code running as a contract may not call session code.
pub open spec fn context_allows(caller: EntryPointType, callee: EntryPointType) -> bool {
    !(caller == EntryPointType::Contract && callee == EntryPointType::Session)
}

/// Checks that an entry point of kind `callee` may be called from a context of
/// kind `caller`.
pub fn validate_entry_point_context(caller: EntryPointType, callee: EntryPointType) -> (r: Result<(), ExecError>)
    ensures
        r == (if context_allows(caller, callee) {
            Ok::<(), ExecError>(())
        } else {
            Err(ExecError::InvalidContext)
        }),
{
    match (caller, callee) {
        (EntryPointType::Contract, EntryPointType::Session) => Err(ExecError::InvalidContext),
        _ => Ok(()),
    }
}

fn map_tc_error(k: Key, e: TrackingCopyError) -> (r: ExecError)
    ensures
        r == (match e {
            TrackingCopyError::KeyNotFound => ExecError::KeyNotFound(k),
            TrackingCopyError::TypeMismatch => ExecError::TypeMismatch,
        }),
{
    match e {
        TrackingCopyError::KeyNotFound => ExecError::KeyNotFound(k),
        TrackingCopyError::TypeMismatch => ExecError::TypeMismatch,
    }
}

/// The state of one call.
pub struct RuntimeContext {
    pub access_rights: AccessRights,
    /// Every key that the call was given or created, from which references
    /// may be taken.
    pub sources: Ghost<Seq<Key>>,
    pub named_keys: Vec<NamedKey>,
    pub entry_point_type: EntryPointType,
    pub base_key: Key,
    pub gas_limit: u64,
    pub gas_counter: u64,
    pub phase: Phase,
    pub blocktime: u64,
    pub deploy_hash: Addr,
    pub hash_address_generator: AddressGenerator,
    pub uref_address_generator: AddressGenerator,
}

impl RuntimeContext {
    /// Every address in the capability table is that of a reference that the
    /// call was given or created, and the gas counter is within the limit.
    pub open spec fn wf(&self) -> bool {
        &&& forall|i: int| 0 <= i < self.access_rights.grants@.len()
            ==> uref_in(self.sources@, #[trigger] self.access_rights.grants@[i].0@)
        &&& self.gas_counter <= self.gas_limit
    }

    /// A context for a call given `named_keys` and the keys among its
    /// arguments: each of their references is granted with its rights.
    pub fn new(
        named_keys: Vec<NamedKey>,
        argument_keys: &Vec<Key>,
        entry_point_type: EntryPointType,
        base_key: Key,
        deploy_hash: Addr,
        phase: Phase,
        gas_limit: u64,
        blocktime: u64,
    ) -> (r: RuntimeContext)
        ensures
            r.wf(),
            r.gas_counter == 0,
            r.gas_limit == gas_limit,
            r.sources@ == named_key_keys(named_keys@) + argument_keys@,
            r.access_rights.grants@ == uref_grants(r.sources@),
            r.named_keys@ == named_keys@,
            r.entry_point_type == entry_point_type,
            r.base_key == base_key,
            r.deploy_hash == deploy_hash,
            r.phase == phase,
            r.blocktime == blocktime,
            forall|i: int| 0 <= i < r.sources@.len() ==> match #[trigger] r.sources@[i] {
                Key::URef(u) => uref_valid_in(r.access_rights@, u),
                _ => true,
            },
    {
        let ghost src = named_key_keys(named_keys@) + argument_keys@;
        let mut all: Vec<Key> = Vec::new();
        let mut n: usize = 0;
        while n < named_keys.len()
            invariant
                n <= named_keys@.len(),
                all@ == named_key_keys(named_keys@).subrange(0, n as int),
            decreases named_keys@.len() - n,
        {
            all.push(named_keys[n].1);
            assert(named_key_keys(named_keys@).subrange(0, n + 1) =~= named_key_keys(named_keys@).subrange(0, n as int).push(named_keys@[n as int].1));
            n = n + 1;
        }
        let mut m: usize = 0;
        while m < argument_keys.len()
            invariant
                m <= argument_keys@.len(),
                all@ == named_key_keys(named_keys@) + argument_keys@.subrange(0, m as int),
            decreases argument_keys@.len() - m,
        {
            all.push(argument_keys[m]);
            assert(argument_keys@.subrange(0, m + 1) =~= argument_keys@.subrange(0, m as int).push(argument_keys@[m as int]));
            m = m + 1;
        }
        assert(all@ =~= src);
        let mut access_rights = AccessRights::new();
        let mut i: usize = 0;
        while i < all.len()
            invariant
                src == all@,
                i <= src.len(),
                access_rights.grants@ == uref_grants(src.subrange(0, i as int)),
                forall|g: int| 0 <= g < access_rights.grants@.len() ==> uref_in(src, #[trigger] access_rights.grants@[g].0@),
                forall|j: int| 0 <= j < i ==> match #[trigger] src[j] {
                    Key::URef(u) => uref_valid_in(access_rights@, u),
                    _ => true,
                },
            decreases src.len() - i,
        {
            let k = all[i];
            assert(src.subrange(0, i + 1).drop_last() =~= src.subrange(0, i as int));
            assert(src.subrange(0, i + 1).last() == k);
            if let Key::URef(u) = k {
                let ghost before = access_rights@;
                let ghost gs = access_rights.grants@;
                access_rights.grant(u);
                proof {
                    assert forall|g: int| 0 <= g < access_rights.grants@.len() implies uref_in(src, #[trigger] access_rights.grants@[g].0@) by {
                        if g < gs.len() {
                            assert(access_rights.grants@[g] == gs[g]);
                        } else {
                            assert(src[i as int] is URef);
                        }
                    }
                    assert forall|j: int| 0 <= j < i implies match #[trigger] src[j] {
                        Key::URef(w) => uref_valid_in(access_rights@, w),
                        _ => true,
                    } by {
                        if let Key::URef(w) = src[j] {
                            let x = before[w.addr@];
                            let y = access_rights@[w.addr@];
                            let z = w.rights;
                            assert(y & x == x && x & z == z ==> y & z == z) by (bit_vector);
                        }
                    }
                }
            }
            i = i + 1;
        }
        assert(src.subrange(0, src.len() as int) =~= src);
        RuntimeContext {
            access_rights,
            sources: Ghost(src),
            named_keys,
            entry_point_type,
            base_key,
            gas_limit,
            gas_counter: 0,
            phase,
            blocktime,
            deploy_hash,
            hash_address_generator: AddressGenerator::new(&deploy_hash, phase),
            uref_address_generator: AddressGenerator::new(&deploy_hash, phase),
        }
    }

    /// Checks a reference against the capability table.
    pub fn validate_uref(&self, u: &URef) -> (r: Result<(), ExecError>)
        ensures
            r == validate_uref_spec(self.access_rights@, *u),
            self.wf() && !uref_in(self.sources@, u.addr@) ==> r == Err::<(), ExecError>(ExecError::ForgedReference(*u)),
    {
        proof {
            if self.wf() && self.access_rights@.contains_key(u.addr@) {
                let i = lemma_rights_map_dom(self.access_rights.grants@, u.addr@);
                assert(uref_in(self.sources@, self.access_rights.grants@[i].0@));
            }
        }
        match self.access_rights.get(&u.addr) {
            None => Err(ExecError::ForgedReference(*u)),
            Some(held) => if has_rights(held, u.rights) {
                Ok(())
            } else {
                Err(ExecError::InvalidAccess { required: u.rights })
            },
        }
    }

    /// Checks a key: a reference against the capability table; other keys
    /// pass.
    pub fn validate_key(&self, k: &Key) -> (r: Result<(), ExecError>)
        ensures
            r == (match *k {
                Key::URef(u) => validate_uref_spec(self.access_rights@, u),
                _ => Ok(()),
            }),
    {
        match k {
            Key::URef(u) => self.validate_uref(u),
            _ => Ok(()),
        }
    }

    /// Checks that `k` is a reference that claims `needed` and may be used.
    fn validate_uref_access(&self, k: &Key, needed: u8) -> (r: Result<(), ExecError>)
        ensures
            r == (match *k {
                Key::URef(u) => uref_access_spec(self.access_rights@, u, needed),
                _ => Err(ExecError::InvalidAccess { required: needed }),
            }),
    {
        match k {
            Key::URef(u) => match self.access_rights.get(&u.addr) {
                None => Err(ExecError::ForgedReference(*u)),
                Some(_) => if has_rights(u.rights, needed) {
                    self.validate_uref(u)
                } else {
                    Err(ExecError::InvalidAccess { required: needed })
                },
            },
            _ => Err(ExecError::InvalidAccess { required: needed }),
        }
    }

    /// Charges `amount` of gas. Past the limit the counter stops at the limit
    /// and the call fails with `GasLimit`.
    pub fn charge_gas(&mut self, amount: u64) -> (r: Result<(), ExecError>)
        requires
            old(self).wf(),
        ensures
            final(self).wf(),
            final(self).gas_counter >= old(self).gas_counter,
            final(self).gas_counter <= final(self).gas_limit,
            final(self).gas_limit == old(self).gas_limit,
            final(self).access_rights == old(self).access_rights,
            final(self).sources == old(self).sources,
            final(self).named_keys == old(self).named_keys,
            match charged(old(self).gas_counter, old(self).gas_limit, amount) {
                Ok(c) => r is Ok && final(self).gas_counter == c,
                Err(c) => r == Err::<(), ExecError>(ExecError::GasLimit) && final(self).gas_counter == c,
            },
    {
        if amount > self.gas_limit - self.gas_counter {
            self.gas_counter = self.gas_limit;
            Err(ExecError::GasLimit)
        } else {
            self.gas_counter = self.gas_counter + amount;
            Ok(())
        }
    }

    /// Stores `value` under a fresh reference, which the call then holds with
    /// every right.
    pub fn new_uref(&mut self, tc: &mut TrackingCopy, value: StoredValue) -> (r: URef)
        requires
            old(self).wf(),
            old(tc).wf(),
            old(self).uref_address_generator.count < u64::MAX,
        ensures
            final(self).wf(),
            final(tc).wf(),
            r.rights == READ_ADD_WRITE,
            r.addr@ == generated_addr(old(self).uref_address_generator.seed@, old(self).uref_address_generator.count),
            final(self).uref_address_generator.count == old(self).uref_address_generator.count + 1,
            final(tc).transforms@ == old(tc).transforms@.insert(key_id(Key::URef(r)), crate::transform::TransformView::Write(value@)),
            final(self).sources@ == old(self).sources@.push(Key::URef(r)),
            rights_extend(old(self).access_rights@, final(self).access_rights@),
            uref_valid_in(final(self).access_rights@, r),
            final(self).gas_counter == old(self).gas_counter,
            final(self).gas_limit == old(self).gas_limit,
            final(self).named_keys == old(self).named_keys,
    {
        let addr = self.uref_address_generator.create_address();
        let u = URef { addr, rights: READ_ADD_WRITE };
        tc.write(Key::URef(u), value);
        let ghost gs = self.access_rights.grants@;
        self.access_rights.grant(u);
        self.sources = Ghost(self.sources@.push(Key::URef(u)));
        proof {
            let src = self.sources@;
            assert forall|i: int| 0 <= i < self.access_rights.grants@.len() implies uref_in(src, #[trigger] self.access_rights.grants@[i].0@) by {
                if i < gs.len() {
                    assert(self.access_rights.grants@[i] == gs[i]);
                    let j = choose|j: int| 0 <= j < old(self).sources@.len() && (#[trigger] old(self).sources@[j]) is URef
                        && old(self).sources@[j]->URef_0.addr@ == gs[i].0@;
                    assert(src[j] == old(self).sources@[j]);
                } else {
                    assert(src[src.len() - 1] == Key::URef(u));
                }
            }
        }
        u
    }

    /// Reads through a reference that claims `READ`.
    pub fn read_gs(&mut self, tc: &mut TrackingCopy, base: &GlobalState, k: &Key) -> (r: Result<Option<StoredValue>, ExecError>)
        requires
            old(self).wf(),
            old(tc).wf(),
            base.wf(),
        ensures
            *final(self) == *old(self),
            final(tc).wf(),
            match *k {
                Key::URef(u) => {
                    match uref_access_spec(old(self).access_rights@, u, READ) {
                        Err(e) => r == Err::<Option<StoredValue>, ExecError>(e) && *final(tc) == *old(tc),
                        Ok(()) => final(tc).transforms == old(tc).transforms
                            && match (r, project(map_get(base@, key_id(*k)), map_get(old(tc).transforms@, key_id(*k)))) {
                                (Ok(Some(v)), Ok(Some(w))) => v@ == w,
                                (Ok(None), Ok(None)) => true,
                                (Err(ExecError::KeyNotFound(x)), Err(TrackingCopyError::KeyNotFound)) => x == *k,
                                (Err(ExecError::TypeMismatch), Err(TrackingCopyError::TypeMismatch)) => true,
                                _ => false,
                            },
                    }
                },
                _ => r == Err::<Option<StoredValue>, ExecError>(ExecError::InvalidAccess { required: READ }),
            },
    {
        match self.validate_uref_access(k, READ) {
            Err(e) => return Err(e),
            Ok(()) => {},
        }
        match tc.read(base, k) {
            Ok(v) => Ok(v),
            Err(e) => Err(map_tc_error(*k, e)),
        }
    }

    /// Writes through a reference that claims `WRITE`.
    pub fn write_gs(&mut self, tc: &mut TrackingCopy, k: Key, v: StoredValue) -> (r: Result<(), ExecError>)
        requires
            old(self).wf(),
            old(tc).wf(),
        ensures
            *final(self) == *old(self),
            final(tc).wf(),
            match k {
                Key::URef(u) => {
                    match uref_access_spec(old(self).access_rights@, u, WRITE) {
                        Err(e) => r == Err::<(), ExecError>(e) && *final(tc) == *old(tc),
                        Ok(()) => r is Ok && final(tc).transforms@ == old(tc).transforms@.insert(key_id(k), crate::transform::TransformView::Write(v@)),
                    }
                },
                _ => r == Err::<(), ExecError>(ExecError::InvalidAccess { required: WRITE }) && *final(tc) == *old(tc),
            },
    {
        match self.validate_uref_access(&k, WRITE) {
            Err(e) => return Err(e),
            Ok(()) => {},
        }
        tc.write(k, v);
        Ok(())
    }

    /// Adds through a reference that claims `ADD`.
    pub fn add_gs(&mut self, tc: &mut TrackingCopy, base: &GlobalState, k: Key, t: Transform) -> (r: Result<(), ExecError>)
        requires
            old(self).wf(),
            old(tc).wf(),
            base.wf(),
            crate::tracking_copy::is_addition(t@),
        ensures
            *final(self) == *old(self),
            final(tc).wf(),
            match k {
                Key::URef(u) => {
                    match uref_access_spec(old(self).access_rights@, u, ADD) {
                        Err(e) => r == Err::<(), ExecError>(e) && *final(tc) == *old(tc),
                        Ok(()) => {
                            let id = key_id(k);
                            let composed = crate::transform::compose_spec(crate::tracking_copy::current(old(tc).transforms@, id), t@);
                            match r {
                                Ok(()) => composed is Some && project(map_get(base@, id), Some(composed->0)) is Ok
                                    && final(tc).transforms@ == old(tc).transforms@.insert(id, composed->0),
                                Err(e) => *final(tc) == *old(tc) && if composed is None {
                                    e == ExecError::TypeMismatch
                                } else {
                                    match project(map_get(base@, id), Some(composed->0)) {
                                        Err(TrackingCopyError::KeyNotFound) => e == ExecError::KeyNotFound(k),
                                        Err(TrackingCopyError::TypeMismatch) => e == ExecError::TypeMismatch,
                                        Ok(_) => false,
                                    }
                                },
                            }
                        },
                    }
                },
                _ => r == Err::<(), ExecError>(ExecError::InvalidAccess { required: ADD }) && *final(tc) == *old(tc),
            },
    {
        match self.validate_uref_access(&k, ADD) {
            Err(e) => return Err(e),
            Ok(()) => {},
        }
        match tc.add(base, k, t) {
            Ok(()) => Ok(()),
            Err(e) => Err(map_tc_error(k, e)),
        }
    }

    /// The key that the context's named keys give to `name`.
    pub fn get_key(&self, name: &Name) -> (r: Option<Key>)
        ensures
            match r {
                Some(k) => named_key_map(self.named_keys@).contains_key(name@) && named_key_map(self.named_keys@)[name@] == k,
                None => !named_key_map(self.named_keys@).contains_key(name@),
            },
    {
        lookup_named_key(&self.named_keys, name)
    }

    /// Gives `name` the key `key` in the context's named keys, and records the
    /// addition on the base key. A reference must pass the capability check.
    pub fn put_key(&mut self, tc: &mut TrackingCopy, base: &GlobalState, name: Name, key: Key) -> (r: Result<(), ExecError>)
        requires
            old(self).wf(),
            old(tc).wf(),
            base.wf(),
        ensures
            final(self).wf(),
            final(tc).wf(),
            final(self).access_rights == old(self).access_rights,
            final(self).gas_counter == old(self).gas_counter,
            match key {
                Key::URef(u) => validate_uref_spec(old(self).access_rights@, u) is Err ==> r
                    == validate_uref_spec(old(self).access_rights@, u) && *final(self) == *old(self),
                _ => true,
            },
            r is Ok ==> named_key_map(final(self).named_keys@) == named_key_map(old(self).named_keys@).insert(name@, key),
            r is Err ==> *final(tc) == *old(tc) && final(self).named_keys == old(self).named_keys,
            (match key {
                Key::URef(u) => validate_uref_spec(old(self).access_rights@, u) is Ok,
                _ => true,
            }) ==> ({
                let id = key_id(old(self).base_key);
                let added = crate::transform::TransformView::AddKeys(Map::<Seq<u8>, Key>::empty().insert(name@, key));
                let composed = crate::transform::compose_spec(crate::tracking_copy::current(old(tc).transforms@, id), added);
                &&& (r is Ok <==> (composed is Some && project(map_get(base@, id), Some(composed->0)) is Ok))
                &&& (r is Ok ==> final(tc).transforms@ == old(tc).transforms@.insert(id, composed->0))
            }),
    {
        match self.validate_key(&key) {
            Err(e) => return Err(e),
            Ok(()) => {},
        }
        let ghost nm = name@;
        let mut added: Vec<NamedKey> = Vec::new();
        added.push((name, key));
        assert(added@.drop_last() =~= Seq::<NamedKey>::empty());
        assert(named_key_map(added@.drop_last()) == Map::<Seq<u8>, Key>::empty());
        assert(added@.last().0@ == nm && added@.last().1 == key);
        assert(named_key_map(added@) =~= Map::<Seq<u8>, Key>::empty().insert(nm, key));
        let base_key = self.base_key;
        let addition = Transform::AddKeys(crate::stored_value::copy_named_keys(&added));
        match tc.add(base, base_key, addition) {
            Err(e) => return Err(map_tc_error(base_key, e)),
            Ok(()) => {},
        }
        append_named_keys(&mut self.named_keys, &added);
        assert(named_key_map(old(self).named_keys@).union_prefer_right(named_key_map(added@))
            =~= named_key_map(old(self).named_keys@).insert(nm, key));
        Ok(())
    }
}


/// A reference whose address the call was neither given nor created is
/// refused as forged by every capability-checked operation.
pub proof fn lemma_forgery_detected(ctx: RuntimeContext, u: URef)
    requires
        ctx.wf(),
        !uref_in(ctx.sources@, u.addr@),
    ensures
        validate_uref_spec(ctx.access_rights@, u) == Err::<(), ExecError>(ExecError::ForgedReference(u)),
{
    if ctx.access_rights@.contains_key(u.addr@) {
        let i = lemma_rights_map_dom(ctx.access_rights.grants@, u.addr@);
        assert(uref_in(ctx.sources@, ctx.access_rights.grants@[i].0@));
    }
}

} // verus!
