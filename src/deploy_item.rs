//! Deploys as the engine receives them, and a builder for them.
use vstd::prelude::*;
use crate::bytesrepr::{enc_u32, write_u32};
use crate::engine_state::RuntimeArgs;
use crate::keys::Addr;
use crate::stored_value::{CLValue, ContractVersionKey, Name};
use crate::value_codec::{enc_bytes, enc_clvalue, enc_items, enc_list, fits, lemma_enc_items_step, write_bytes, write_clvalue};

verus! {

/// Code that a deploy runs, with its serialized arguments.
#[derive(Debug, PartialEq, Eq)]
pub enum ExecutableDeployItem {
    ModuleBytes { module_bytes: Vec<u8>, args: Vec<u8> },
    StoredContractByHash { hash: Addr, entry_point: String, args: Vec<u8> },
    StoredContractByName { name: String, entry_point: String, args: Vec<u8> },
    StoredVersionedContractByHash { hash: Addr, version: Option<ContractVersionKey>, entry_point: String, args: Vec<u8> },
    StoredVersionedContractByName { name: String, version: Option<ContractVersionKey>, entry_point: String, args: Vec<u8> },
    Transfer { args: Vec<u8> },
}

/// A deploy: the account it runs as, its payment and session code, the
/// price it pays for gas, the keys that signed it and its hash.
#[derive(Debug, PartialEq, Eq)]
pub struct DeployItem {
    pub address: Addr,
    pub session: ExecutableDeployItem,
    pub payment: ExecutableDeployItem,
    pub gas_price: u64,
    pub authorization_keys: Vec<Addr>,
    pub deploy_hash: Addr,
}

impl DeployItem {
    pub fn new(
        address: Addr,
        session: ExecutableDeployItem,
        payment: ExecutableDeployItem,
        gas_price: u64,
        authorization_keys: Vec<Addr>,
        deploy_hash: Addr,
    ) -> (r: DeployItem)
        ensures
            r.address == address,
            r.session == session,
            r.payment == payment,
            r.gas_price == gas_price,
            r.authorization_keys == authorization_keys,
            r.deploy_hash == deploy_hash,
    {
        DeployItem { address, session, payment, gas_price, authorization_keys, deploy_hash }
    }
}

/// The encoding of one named argument: its name, then its value.
pub open spec fn enc_named_arg(e: (Name, CLValue)) -> Seq<u8> {
    enc_bytes(e.0@) + enc_clvalue(e.1@)
}

/// Whether every length in a set of arguments fits in a `u32`.
pub open spec fn args_fit(s: Seq<(Name, CLValue)>) -> bool {
    fits(s.len()) && forall|i: int| 0 <= i < s.len() ==> fits(#[trigger] s[i].0@.len()) && fits(s[i].1.bytes@.len())
}

impl RuntimeArgs {
    /// The arguments' encoding: their count, then each name and value.
    pub fn to_bytes(&self) -> (r: Vec<u8>)
        requires
            args_fit(self.named@),
        ensures
            r@ == enc_list(self.named@, |e: (Name, CLValue)| enc_named_arg(e)),
    {
        let ghost f = |e: (Name, CLValue)| enc_named_arg(e);
        let mut buf: Vec<u8> = Vec::new();
        write_u32(&mut buf, self.named.len() as u32);
        let ghost mid = buf@;
        let mut i: usize = 0;
        while i < self.named.len()
            invariant
                i <= self.named@.len(),
                args_fit(self.named@),
                f == (|e: (Name, CLValue)| enc_named_arg(e)),
                buf@ == mid + enc_items(self.named@.subrange(0, i as int), f),
            decreases self.named@.len() - i,
        {
            proof {
                lemma_enc_items_step(self.named@, i as int, f);
            }
            let ghost before = buf@;
            write_bytes(&mut buf, self.named[i].0.as_slice());
            write_clvalue(&mut buf, &self.named[i].1);
            assert(buf@ =~= before + f(self.named@[i as int]));
            i = i + 1;
        }
        assert(self.named@.subrange(0, self.named@.len() as int) =~= self.named@);
        assert(buf@ =~= enc_list(self.named@, f));
        buf
    }
}

/// Builds deploys; a deploy needs payment and session code.
pub struct DeployItemBuilder {
    pub address: Option<Addr>,
    pub payment_code: Option<ExecutableDeployItem>,
    pub session_code: Option<ExecutableDeployItem>,
    pub gas_price: u64,
    pub authorization_keys: Vec<Addr>,
    pub deploy_hash: Addr,
}

impl Default for DeployItemBuilder {
    fn default() -> (r: DeployItemBuilder)
        ensures
            r.address is None,
            r.payment_code is None,
            r.session_code is None,
            r.gas_price == 1,
            r.authorization_keys@.len() == 0,
            r.deploy_hash@ == Seq::new(32, |i: int| 0u8),
    {
        let r = DeployItemBuilder {
            address: None,
            payment_code: None,
            session_code: None,
            gas_price: 1,
            authorization_keys: Vec::new(),
            deploy_hash: [0u8; 32],
        };
        assert(r.deploy_hash@ =~= Seq::new(32, |i: int| 0u8));
        r
    }
}

fn serialize_args(args: &RuntimeArgs) -> (r: Vec<u8>)
    requires
        args_fit(args.named@),
    ensures
        r@ == enc_list(args.named@, |e: (Name, CLValue)| enc_named_arg(e)),
{
    args.to_bytes()
}

impl DeployItemBuilder {
    pub fn new() -> (r: DeployItemBuilder)
        ensures
            r.address is None,
            r.payment_code is None,
            r.session_code is None,
            r.gas_price == 1,
            r.authorization_keys@.len() == 0,
    {
        DeployItemBuilder::default()
    }

    pub fn with_address(self, address: Addr) -> (r: DeployItemBuilder)
        ensures
            r == (DeployItemBuilder { address: Some(address), ..self }),
    {
        DeployItemBuilder { address: Some(address), ..self }
    }

    pub fn with_payment_bytes(self, module_bytes: Vec<u8>, args: RuntimeArgs) -> (r: DeployItemBuilder)
        requires
            args_fit(args.named@),
        ensures
            r.session_code == self.session_code,
            r.address == self.address,
            r.gas_price == self.gas_price,
            match r.payment_code {
                Some(ExecutableDeployItem::ModuleBytes { module_bytes: m, args: a }) => m == module_bytes
                    && a@ == enc_list(args.named@, |e: (Name, CLValue)| enc_named_arg(e)),
                _ => false,
            },
    {
        let args = serialize_args(&args);
        DeployItemBuilder { payment_code: Some(ExecutableDeployItem::ModuleBytes { module_bytes, args }), ..self }
    }

    pub fn with_empty_payment_bytes(self, args: RuntimeArgs) -> (r: DeployItemBuilder)
        requires
            args_fit(args.named@),
        ensures
            r.session_code == self.session_code,
            match r.payment_code {
                Some(ExecutableDeployItem::ModuleBytes { module_bytes: m, args: a }) => m@.len() == 0
                    && a@ == enc_list(args.named@, |e: (Name, CLValue)| enc_named_arg(e)),
                _ => false,
            },
    {
        self.with_payment_bytes(Vec::new(), args)
    }

    pub fn with_stored_payment_hash(self, hash: Addr, entry_point: &str, args: RuntimeArgs) -> (r: DeployItemBuilder)
        requires
            args_fit(args.named@),
        ensures
            r.session_code == self.session_code,
            match r.payment_code {
                Some(ExecutableDeployItem::StoredContractByHash { hash: h, entry_point: e, args: a }) => h == hash
                    && e@ == entry_point@ && a@ == enc_list(args.named@, |e: (Name, CLValue)| enc_named_arg(e)),
                _ => false,
            },
    {
        let args = serialize_args(&args);
        let entry_point = entry_point.to_string();
        DeployItemBuilder {
            payment_code: Some(ExecutableDeployItem::StoredContractByHash { hash, entry_point, args }),
            ..self
        }
    }

    pub fn with_stored_payment_named_key(self, uref_name: &str, entry_point_name: &str, args: RuntimeArgs) -> (r: DeployItemBuilder)
        requires
            args_fit(args.named@),
        ensures
            r.session_code == self.session_code,
            match r.payment_code {
                Some(ExecutableDeployItem::StoredContractByName { name: n, entry_point: e, args: a }) => n@ == uref_name@
                    && e@ == entry_point_name@ && a@ == enc_list(args.named@, |e: (Name, CLValue)| enc_named_arg(e)),
                _ => false,
            },
    {
        let args = serialize_args(&args);
        let name = uref_name.to_string();
        let entry_point = entry_point_name.to_string();
        DeployItemBuilder {
            payment_code: Some(ExecutableDeployItem::StoredContractByName { name, entry_point, args }),
            ..self
        }
    }

    pub fn with_session_bytes(self, module_bytes: Vec<u8>, args: RuntimeArgs) -> (r: DeployItemBuilder)
        requires
            args_fit(args.named@),
        ensures
            r.payment_code == self.payment_code,
            match r.session_code {
                Some(ExecutableDeployItem::ModuleBytes { module_bytes: m, args: a }) => m == module_bytes
                    && a@ == enc_list(args.named@, |e: (Name, CLValue)| enc_named_arg(e)),
                _ => false,
            },
    {
        let args = serialize_args(&args);
        DeployItemBuilder { session_code: Some(ExecutableDeployItem::ModuleBytes { module_bytes, args }), ..self }
    }

    pub fn with_transfer_args(self, args: RuntimeArgs) -> (r: DeployItemBuilder)
        requires
            args_fit(args.named@),
        ensures
            r.payment_code == self.payment_code,
            match r.session_code {
                Some(ExecutableDeployItem::Transfer { args: a }) => a@ == enc_list(args.named@, |e: (Name, CLValue)| enc_named_arg(e)),
                _ => false,
            },
    {
        let args = serialize_args(&args);
        DeployItemBuilder { session_code: Some(ExecutableDeployItem::Transfer { args }), ..self }
    }

    pub fn with_stored_session_hash(self, hash: Addr, entry_point: &str, args: RuntimeArgs) -> (r: DeployItemBuilder)
        requires
            args_fit(args.named@),
        ensures
            r.payment_code == self.payment_code,
            match r.session_code {
                Some(ExecutableDeployItem::StoredContractByHash { hash: h, entry_point: e, args: a }) => h == hash
                    && e@ == entry_point@ && a@ == enc_list(args.named@, |e: (Name, CLValue)| enc_named_arg(e)),
                _ => false,
            },
    {
        let args = serialize_args(&args);
        let entry_point = entry_point.to_string();
        DeployItemBuilder {
            session_code: Some(ExecutableDeployItem::StoredContractByHash { hash, entry_point, args }),
            ..self
        }
    }

    pub fn with_stored_session_named_key(self, name: &str, entry_point: &str, args: RuntimeArgs) -> (r: DeployItemBuilder)
        requires
            args_fit(args.named@),
        ensures
            r.payment_code == self.payment_code,
            match r.session_code {
                Some(ExecutableDeployItem::StoredContractByName { name: n, entry_point: e, args: a }) => n@ == name@
                    && e@ == entry_point@ && a@ == enc_list(args.named@, |e: (Name, CLValue)| enc_named_arg(e)),
                _ => false,
            },
    {
        let args = serialize_args(&args);
        let name = name.to_string();
        let entry_point = entry_point.to_string();
        DeployItemBuilder {
            session_code: Some(ExecutableDeployItem::StoredContractByName { name, entry_point, args }),
            ..self
        }
    }

    pub fn with_stored_versioned_contract_by_name(
        self,
        name: &str,
        version: Option<ContractVersionKey>,
        entry_point: &str,
        args: RuntimeArgs,
    ) -> (r: DeployItemBuilder)
        requires
            args_fit(args.named@),
        ensures
            r.payment_code == self.payment_code,
            match r.session_code {
                Some(ExecutableDeployItem::StoredVersionedContractByName { name: n, version: v, entry_point: e, args: a }) =>
                    n@ == name@ && v == version && e@ == entry_point@
                    && a@ == enc_list(args.named@, |e: (Name, CLValue)| enc_named_arg(e)),
                _ => false,
            },
    {
        let args = serialize_args(&args);
        let name = name.to_string();
        let entry_point = entry_point.to_string();
        DeployItemBuilder {
            session_code: Some(ExecutableDeployItem::StoredVersionedContractByName { name, version, entry_point, args }),
            ..self
        }
    }

    pub fn with_stored_versioned_contract_by_hash(
        self,
        hash: Addr,
        version: Option<ContractVersionKey>,
        entry_point: &str,
        args: RuntimeArgs,
    ) -> (r: DeployItemBuilder)
        requires
            args_fit(args.named@),
        ensures
            r.payment_code == self.payment_code,
            match r.session_code {
                Some(ExecutableDeployItem::StoredVersionedContractByHash { hash: h, version: v, entry_point: e, args: a }) =>
                    h == hash && v == version && e@ == entry_point@
                    && a@ == enc_list(args.named@, |e: (Name, CLValue)| enc_named_arg(e)),
                _ => false,
            },
    {
        let args = serialize_args(&args);
        let entry_point = entry_point.to_string();
        DeployItemBuilder {
            session_code: Some(ExecutableDeployItem::StoredVersionedContractByHash { hash, version, entry_point, args }),
            ..self
        }
    }

    pub fn with_stored_versioned_payment_contract_by_name(
        self,
        key_name: &str,
        version: Option<ContractVersionKey>,
        entry_point: &str,
        args: RuntimeArgs,
    ) -> (r: DeployItemBuilder)
        requires
            args_fit(args.named@),
        ensures
            r.session_code == self.session_code,
            match r.payment_code {
                Some(ExecutableDeployItem::StoredVersionedContractByName { name: n, version: v, entry_point: e, args: a }) =>
                    n@ == key_name@ && v == version && e@ == entry_point@
                    && a@ == enc_list(args.named@, |e: (Name, CLValue)| enc_named_arg(e)),
                _ => false,
            },
    {
        let args = serialize_args(&args);
        let name = key_name.to_string();
        let entry_point = entry_point.to_string();
        DeployItemBuilder {
            payment_code: Some(ExecutableDeployItem::StoredVersionedContractByName { name, version, entry_point, args }),
            ..self
        }
    }

    pub fn with_stored_versioned_payment_contract_by_hash(
        self,
        hash: Addr,
        version: Option<ContractVersionKey>,
        entry_point: &str,
        args: RuntimeArgs,
    ) -> (r: DeployItemBuilder)
        requires
            args_fit(args.named@),
        ensures
            r.session_code == self.session_code,
            match r.payment_code {
                Some(ExecutableDeployItem::StoredVersionedContractByHash { hash: h, version: v, entry_point: e, args: a }) =>
                    h == hash && v == version && e@ == entry_point@
                    && a@ == enc_list(args.named@, |e: (Name, CLValue)| enc_named_arg(e)),
                _ => false,
            },
    {
        let args = serialize_args(&args);
        let entry_point = entry_point.to_string();
        DeployItemBuilder {
            payment_code: Some(ExecutableDeployItem::StoredVersionedContractByHash { hash, version, entry_point, args }),
            ..self
        }
    }

    pub fn with_authorization_keys(self, authorization_keys: &[Addr]) -> (r: DeployItemBuilder)
        ensures
            r.authorization_keys@ == authorization_keys@,
            r.payment_code == self.payment_code,
            r.session_code == self.session_code,
    {
        let mut keys: Vec<Addr> = Vec::new();
        let mut i: usize = 0;
        while i < authorization_keys.len()
            invariant
                i <= authorization_keys@.len(),
                keys@ == authorization_keys@.subrange(0, i as int),
            decreases authorization_keys@.len() - i,
        {
            keys.push(authorization_keys[i]);
            assert(authorization_keys@.subrange(0, i + 1) =~= authorization_keys@.subrange(0, i as int).push(authorization_keys@[i as int]));
            i = i + 1;
        }
        assert(authorization_keys@.subrange(0, authorization_keys@.len() as int) =~= authorization_keys@);
        DeployItemBuilder { authorization_keys: keys, ..self }
    }

    pub fn with_gas_price(self, gas_price: u64) -> (r: DeployItemBuilder)
        ensures
            r == (DeployItemBuilder { gas_price, ..self }),
    {
        DeployItemBuilder { gas_price, ..self }
    }

    pub fn with_deploy_hash(self, hash: Addr) -> (r: DeployItemBuilder)
        ensures
            r == (DeployItemBuilder { deploy_hash: hash, ..self }),
    {
        DeployItemBuilder { deploy_hash: hash, ..self }
    }

    /// The deploy; the address defaults to the zero address.
    pub fn build(self) -> (r: DeployItem)
        requires
            self.session_code is Some,
            self.payment_code is Some,
        ensures
            r.session == self.session_code->0,
            r.payment == self.payment_code->0,
            r.gas_price == self.gas_price,
            r.authorization_keys == self.authorization_keys,
            r.deploy_hash == self.deploy_hash,
            match self.address {
                Some(a) => r.address == a,
                None => r.address@ == Seq::new(32, |i: int| 0u8),
            },
    {
        let address = match self.address {
            Some(a) => a,
            None => [0u8; 32],
        };
        assert(self.address is None ==> address@ =~= Seq::new(32, |i: int| 0u8));
        let session = match self.session_code {
            Some(s) => s,
            None => ExecutableDeployItem::Transfer { args: Vec::new() },
        };
        let payment = match self.payment_code {
            Some(p) => p,
            None => ExecutableDeployItem::Transfer { args: Vec::new() },
        };
        DeployItem {
            address,
            session,
            payment,
            gas_price: self.gas_price,
            authorization_keys: self.authorization_keys,
            deploy_hash: self.deploy_hash,
        }
    }
}

} // verus!
