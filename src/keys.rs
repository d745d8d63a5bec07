//! Addresses, access rights, unforgeable references and global-state keys.
use vstd::prelude::*;

verus! {

/// A 32-byte address.
pub type Addr = [u8; 32];

/// The access-right bit that allows reading.
pub const READ: u8 = 1;
/// The access-right bit that allows writing.
pub const WRITE: u8 = 2;
/// The access-right bit that allows adding.
pub const ADD: u8 = 4;
/// All three access-right bits.
pub const READ_ADD_WRITE: u8 = 7;

/// Whether the bits of `needed` are all present in `held`.
pub open spec fn rights_include(held: u8, needed: u8) -> bool {
    held & needed == needed
}

/// Tests whether `held` grants every bit of `needed`.
pub fn has_rights(held: u8, needed: u8) -> (r: bool)
    ensures
        r == rights_include(held, needed),
{
    held & needed == needed
}

/// Compares two addresses byte by byte.
pub fn addr_eq(a: &Addr, b: &Addr) -> (r: bool)
    ensures
        r == (a@ == b@),
{
    let mut i: usize = 0;
    while i < 32
        invariant
            0 <= i <= 32,
            a@.len() == 32,
            b@.len() == 32,
            forall|j: int| 0 <= j < i ==> a@[j] == b@[j],
        decreases 32 - i,
    {
        if a[i] != b[i] {
            return false;
        }
        i = i + 1;
    }
    assert(a@ =~= b@);
    true
}

/// An unforgeable reference: an address together with the access rights that
/// its holder claims.
#[derive(Clone, Copy, Debug)]
pub struct URef {
    pub addr: Addr,
    pub rights: u8,
}

impl URef {
    /// A reference to `addr` carrying `rights`.
    pub fn new(addr: Addr, rights: u8) -> (r: URef)
        requires
            rights <= 7,
        ensures
            r.addr == addr,
            r.rights == rights,
    {
        URef { addr, rights }
    }

    /// The address of the reference.
    pub fn addr(&self) -> (r: Addr)
        ensures
            r == self.addr,
    {
        self.addr
    }

    /// The access rights of the reference.
    pub fn access_rights(&self) -> (r: u8)
        ensures
            r == self.rights,
    {
        self.rights
    }

    /// The same address with every right removed but those of `mask`.
    pub fn with_access_rights(&self, mask: u8) -> (r: URef)
        requires
            mask <= 7,
        ensures
            r.addr == self.addr,
            r.rights == mask,
    {
        URef { addr: self.addr, rights: mask }
    }
}

impl PartialEq for URef {
    fn eq(&self, o: &URef) -> (r: bool) {
        addr_eq(&self.addr, &o.addr) && self.rights == o.rights
    }
}

impl vstd::std_specs::cmp::PartialEqSpecImpl for URef {
    open spec fn obeys_eq_spec() -> bool {
        true
    }

    open spec fn eq_spec(&self, o: &URef) -> bool {
        self.addr@ == o.addr@ && self.rights == o.rights
    }
}

impl Eq for URef {
}

/// A key into global state.
#[derive(Clone, Copy, Debug)]
pub enum Key {
    Account(Addr),
    Hash(Addr),
    URef(URef),
}

/// The tag that tells the kinds of key apart.
pub open spec fn key_tag(k: Key) -> u8 {
    match k {
        Key::Account(_) => 0,
        Key::Hash(_) => 1,
        Key::URef(_) => 2,
    }
}

/// The address of a key.
pub open spec fn key_addr(k: Key) -> Seq<u8> {
    match k {
        Key::Account(a) => a@,
        Key::Hash(a) => a@,
        Key::URef(u) => u.addr@,
    }
}

/// What identifies a key: its kind and its address, not the access rights of a
/// reference.
pub open spec fn key_id(k: Key) -> (u8, Seq<u8>) {
    (key_tag(k), key_addr(k))
}

impl Key {
    /// The kind tag of the key.
    pub fn tag(&self) -> (r: u8)
        ensures
            r == key_tag(*self),
    {
        match self {
            Key::Account(_) => 0,
            Key::Hash(_) => 1,
            Key::URef(_) => 2,
        }
    }

    /// The address of the key.
    pub fn addr(&self) -> (r: Addr)
        ensures
            r@ == key_addr(*self),
    {
        match self {
            Key::Account(a) => *a,
            Key::Hash(a) => *a,
            Key::URef(u) => u.addr,
        }
    }

    /// The reference that the key holds, if it is a URef key.
    pub fn as_uref(&self) -> (r: Option<URef>)
        ensures
            r == (match *self {
                Key::URef(u) => Some(u),
                _ => None,
            }),
    {
        match self {
            Key::URef(u) => Some(*u),
            _ => None,
        }
    }

    /// Whether two keys address the same entry of global state.
    pub fn same_entry(&self, o: &Key) -> (r: bool)
        ensures
            r == (key_id(*self) == key_id(*o)),
    {
        let a = self.addr();
        let b = o.addr();
        self.tag() == o.tag() && addr_eq(&a, &b)
    }
}

impl PartialEq for Key {
    fn eq(&self, o: &Key) -> (r: bool) {
        self.same_entry(o)
    }
}

impl vstd::std_specs::cmp::PartialEqSpecImpl for Key {
    open spec fn obeys_eq_spec() -> bool {
        true
    }

    open spec fn eq_spec(&self, o: &Key) -> bool {
        key_id(*self) == key_id(*o)
    }
}

impl Eq for Key {
}

} // verus!

verus! {

/// Whether two keys are the same in every field, access rights included.
pub fn key_identical(a: &Key, b: &Key) -> (r: bool)
    ensures
        r == (*a == *b),
{
    let same_rights = match (a, b) {
        (Key::URef(x), Key::URef(y)) => x.rights == y.rights,
        _ => true,
    };
    let r = a.same_entry(b) && same_rights;
    proof {
        if r {
            match (*a, *b) {
                (Key::Account(x), Key::Account(y)) => crate::bytesrepr::lemma_addr_ext(x, y),
                (Key::Hash(x), Key::Hash(y)) => crate::bytesrepr::lemma_addr_ext(x, y),
                (Key::URef(x), Key::URef(y)) => crate::bytesrepr::lemma_addr_ext(x.addr, y.addr),
                _ => {},
            }
        }
    }
    r
}

} // verus!
