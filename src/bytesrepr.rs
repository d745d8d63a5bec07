//! The binary encoding of values: little-endian integers, `u32`
//! length-prefixed byte strings, one-byte tags, and the keys and references of
//! global state.
use vstd::prelude::*;
use crate::keys::{Addr, Key, URef, key_tag};

verus! {

broadcast use vstd::array::group_array_axioms;

/// Why a sequence of bytes could not be decoded.
#[derive(Clone, Copy, Debug, PartialEq, Eq, Structural)]
pub enum CodecError {
    EarlyEndOfStream,
    Formatting,
    LeftOverBytes,
    OutOfMemory,
}

pub open spec fn pow256(n: nat) -> nat
    decreases n,
{
    if n == 0 {
        1
    } else {
        256 * pow256((n - 1) as nat)
    }
}

/// The `n` low bytes of `x`, least significant first.
pub open spec fn le_bytes(x: nat, n: nat) -> Seq<u8>
    decreases n,
{
    if n == 0 {
        Seq::empty()
    } else {
        seq![(x % 256) as u8] + le_bytes(x / 256, (n - 1) as nat)
    }
}

/// The number that little-endian bytes stand for.
pub open spec fn le_value(s: Seq<u8>) -> nat
    decreases s.len(),
{
    if s.len() == 0 {
        0
    } else {
        s[0] as nat + 256 * le_value(s.drop_first())
    }
}

/// Whether `p` is a prefix of `s`.
pub open spec fn is_prefix(p: Seq<u8>, s: Seq<u8>) -> bool {
    p.len() <= s.len() && s.subrange(0, p.len() as int) == p
}

pub proof fn lemma_pow256_pos(n: nat)
    ensures
        pow256(n) >= 1,
    decreases n,
{
    if n > 0 {
        lemma_pow256_pos((n - 1) as nat);
    }
}

pub proof fn lemma_pow256_mono(a: nat, b: nat)
    requires
        a <= b,
    ensures
        pow256(a) <= pow256(b),
    decreases b,
{
    if a < b {
        lemma_pow256_mono(a, (b - 1) as nat);
        lemma_pow256_pos((b - 1) as nat);
    }
}

pub proof fn lemma_pow256_values()
    ensures
        pow256(1) == 0x100,
        pow256(4) == 0x1_0000_0000,
        pow256(8) == 0x1_0000_0000_0000_0000,
        pow256(16) == 0x1_0000_0000_0000_0000_0000_0000_0000_0000,
{
    reveal_with_fuel(pow256, 17);
}

pub proof fn lemma_le_bytes_len(x: nat, n: nat)
    ensures
        le_bytes(x, n).len() == n,
    decreases n,
{
    if n > 0 {
        lemma_le_bytes_len(x / 256, (n - 1) as nat);
    }
}

/// Little-endian bytes give back the number they were made of.
pub proof fn lemma_le_round_trip(x: nat, n: nat)
    requires
        x < pow256(n),
    ensures
        le_value(le_bytes(x, n)) == x,
        le_bytes(x, n).len() == n,
    decreases n,
{
    lemma_le_bytes_len(x, n);
    if n > 0 {
        let p = pow256((n - 1) as nat);
        assert(x / 256 < p) by (nonlinear_arith)
            requires
                x < 256 * p,
        ;
        lemma_le_round_trip(x / 256, (n - 1) as nat);
        let s = le_bytes(x, n);
        assert(s.drop_first() =~= le_bytes(x / 256, (n - 1) as nat));
        assert(x % 256 + 256 * (x / 256) == x) by (nonlinear_arith);
    }
}

pub proof fn lemma_le_value_bound(s: Seq<u8>)
    ensures
        le_value(s) < pow256(s.len()),
    decreases s.len(),
{
    if s.len() > 0 {
        lemma_le_value_bound(s.drop_first());
        let v = le_value(s.drop_first());
        let p = pow256((s.len() - 1) as nat);
        let b = s[0] as nat;
        assert(b + 256 * v < 256 * p) by (nonlinear_arith)
            requires
                v < p,
                b < 256,
        ;
    }
}

/// Equal-length little-endian encodings of numbers that fit are equal only
/// for equal numbers.
pub proof fn lemma_le_injective(x: nat, y: nat, n: nat)
    requires
        x < pow256(n),
        y < pow256(n),
        le_bytes(x, n) == le_bytes(y, n),
    ensures
        x == y,
{
    lemma_le_round_trip(x, n);
    lemma_le_round_trip(y, n);
}

/// Appends the `n` low bytes of `x`, least significant first.
pub fn push_le(buf: &mut Vec<u8>, x: u128, n: usize)
    requires
        x < pow256(n as nat),
    ensures
        final(buf)@ == old(buf)@ + le_bytes(x as nat, n as nat),
{
    let ghost start = old(buf)@;
    let mut v: u128 = x;
    let mut i: usize = 0;
    while i < n
        invariant
            i <= n,
            buf@ + le_bytes(v as nat, (n - i) as nat) == start + le_bytes(x as nat, n as nat),
        decreases n - i,
    {
        let ghost prev = buf@;
        let ghost rest = le_bytes(v as nat, (n - i) as nat);
        let b: u8 = (v % 256) as u8;
        buf.push(b);
        assert(rest == seq![b] + le_bytes((v / 256) as nat, (n - i - 1) as nat));
        assert(buf@ + le_bytes((v / 256) as nat, (n - i - 1) as nat) =~= prev + rest);
        v = v / 256;
        i = i + 1;
    }
    assert(buf@ + le_bytes(v as nat, 0) =~= buf@);
}

/// Reads `n` little-endian bytes from `pos`.
pub fn read_le(bytes: &[u8], pos: usize, n: usize) -> (r: u128)
    requires
        pos + n <= bytes@.len(),
        n <= 16,
    ensures
        r == le_value(bytes@.subrange(pos as int, pos + n)),
{
    let len = bytes.len();
    let mut v: u128 = 0;
    let mut i: usize = n;
    proof {
        lemma_pow256_values();
    }
    while i > 0
        invariant
            i <= n <= 16,
            pos + n <= len,
            len == bytes@.len(),
            v == le_value(bytes@.subrange(pos + i, pos + n)),
            pow256(16) == 0x1_0000_0000_0000_0000_0000_0000_0000_0000,
        decreases i,
    {
        let ghost tail = bytes@.subrange(pos + i, pos + n);
        let ghost longer = bytes@.subrange(pos + i - 1, pos + n);
        proof {
            lemma_le_value_bound(tail);
            lemma_pow256_mono(tail.len(), 15);
            assert(longer.drop_first() =~= tail);
        }
        let b = bytes[pos + (i - 1)];
        proof {
            let p = pow256(15);
            assert(pow256(16) == 256 * p);
            assert(v * 256 + b < pow256(16)) by (nonlinear_arith)
                requires
                    v < p,
                    b < 256,
                    pow256(16) == 256 * p,
            ;
        }
        v = v * 256 + b as u128;
        i = i - 1;
    }
    v
}

// ---------------------------------------------------------------- integers

pub open spec fn enc_u8(x: u8) -> Seq<u8> {
    seq![x]
}

pub open spec fn enc_u32(x: u32) -> Seq<u8> {
    le_bytes(x as nat, 4)
}

/// The number of bytes that `x` needs, without trailing zero bytes.
pub open spec fn byte_len(x: nat) -> nat
    decreases x,
{
    if x == 0 {
        0
    } else {
        1 + byte_len(x / 256)
    }
}

pub proof fn lemma_byte_len(x: nat, k: nat)
    requires
        x < pow256(k),
    ensures
        x < pow256(byte_len(x)),
        byte_len(x) <= k,
    decreases x,
{
    if x > 0 {
        if k == 0 {
            assert(false);
        }
        let p = pow256((k - 1) as nat);
        assert(x / 256 < p) by (nonlinear_arith)
            requires
                x < 256 * p,
        ;
        lemma_byte_len(x / 256, (k - 1) as nat);
        let q = pow256(byte_len(x / 256));
        assert(x < 256 * q) by (nonlinear_arith)
            requires
                x / 256 < q,
        ;
    }
}

pub fn write_u8(buf: &mut Vec<u8>, x: u8)
    ensures
        final(buf)@ == old(buf)@ + enc_u8(x),
{
    buf.push(x);
    assert(final(buf)@ =~= old(buf)@ + enc_u8(x));
}

pub fn write_u32(buf: &mut Vec<u8>, x: u32)
    ensures
        final(buf)@ == old(buf)@ + enc_u32(x),
{
    proof {
        lemma_pow256_values();
    }
    push_le(buf, x as u128, 4);
}

pub fn read_u8(bytes: &[u8], pos: usize) -> (r: Result<(u8, usize), CodecError>)
    requires
        pos <= bytes@.len(),
    ensures
        match r {
            Ok((v, p)) => p == pos + 1 && p <= bytes@.len() && bytes@.subrange(pos as int, p as int)
                == enc_u8(v),
            Err(e) => e == CodecError::EarlyEndOfStream && pos == bytes@.len(),
        },
{
    if pos < bytes.len() {
        let v = bytes[pos];
        assert(bytes@.subrange(pos as int, pos + 1) =~= enc_u8(v));
        Ok((v, pos + 1))
    } else {
        Err(CodecError::EarlyEndOfStream)
    }
}

pub fn read_u32(bytes: &[u8], pos: usize) -> (r: Result<(u32, usize), CodecError>)
    requires
        pos <= bytes@.len(),
    ensures
        match r {
            Ok((v, p)) => p == pos + 4 && p <= bytes@.len() && bytes@.subrange(pos as int, p as int)
                == enc_u32(v),
            Err(e) => e == CodecError::EarlyEndOfStream && bytes@.len() < pos + 4,
        },
{
    if bytes.len() - pos < 4 {
        return Err(CodecError::EarlyEndOfStream);
    }
    let v = read_le(bytes, pos, 4);
    let ghost s = bytes@.subrange(pos as int, pos + 4);
    proof {
        lemma_pow256_values();
        lemma_le_value_bound(s);
    }
    let x = v as u32;
    proof {
        lemma_le_round_trip(le_value(s), 4);
        lemma_le_bytes_of_value(s);
    }
    Ok((x, pos + 4))
}

/// Bytes are the little-endian encoding of the number they stand for.
pub proof fn lemma_le_bytes_of_value(s: Seq<u8>)
    ensures
        le_bytes(le_value(s), s.len()) == s,
    decreases s.len(),
{
    if s.len() > 0 {
        lemma_le_bytes_of_value(s.drop_first());
        let v = le_value(s.drop_first());
        let x = le_value(s);
        let b = s[0] as nat;
        assert(x % 256 == b && x / 256 == v) by (nonlinear_arith)
            requires
                x == b + 256 * v,
                b < 256,
        ;
        assert(le_bytes(x, s.len()) =~= s);
    }
}

// ------------------------------------------------- addresses, URefs and keys

pub open spec fn enc_uref(u: URef) -> Seq<u8> {
    u.addr@ + seq![u.rights]
}

pub open spec fn enc_key(k: Key) -> Seq<u8> {
    match k {
        Key::Account(a) => seq![0u8] + a@,
        Key::Hash(a) => seq![1u8] + a@,
        Key::URef(u) => seq![2u8] + enc_uref(u),
    }
}

/// Whether the reference's rights mask is one that decodes.
pub open spec fn uref_valid(u: URef) -> bool {
    u.rights <= 7
}

pub open spec fn key_valid(k: Key) -> bool {
    match k {
        Key::URef(u) => uref_valid(u),
        _ => true,
    }
}

/// The reference that a sequence of bytes starts with, and how many bytes it
/// takes; `None` where it starts with none.
pub open spec fn dec_uref(s: Seq<u8>) -> Option<(URef, nat)> {
    if exists|u: URef| uref_valid(u) && is_prefix(enc_uref(u), s) {
        let u = choose|u: URef| uref_valid(u) && is_prefix(enc_uref(u), s);
        Some((u, enc_uref(u).len()))
    } else {
        None
    }
}

/// The key that a sequence of bytes starts with, and how many bytes it takes.
pub open spec fn dec_key(s: Seq<u8>) -> Option<(Key, nat)> {
    if exists|k: Key| key_valid(k) && is_prefix(enc_key(k), s) {
        let k = choose|k: Key| key_valid(k) && is_prefix(enc_key(k), s);
        Some((k, enc_key(k).len()))
    } else {
        None
    }
}

/// Addresses with the same bytes are the same address.
pub proof fn lemma_addr_ext(a: Addr, b: Addr)
    requires
        a@ == b@,
    ensures
        a == b,
{
    assert forall|i: int| 0 <= i < 32 implies a[i] == b[i] by {
        assert(a@[i] == b@[i]);
    }
    assert(a =~= b);
}

/// At most one reference is a prefix of any byte sequence.
pub proof fn lemma_uref_prefix_unique(a: URef, b: URef, s: Seq<u8>)
    requires
        is_prefix(enc_uref(a), s),
        is_prefix(enc_uref(b), s),
    ensures
        a == b,
{
    assert(a.addr@.len() == 32 && b.addr@.len() == 32);
    assert(enc_uref(a).subrange(0, 32) =~= a.addr@);
    assert(enc_uref(b).subrange(0, 32) =~= b.addr@);
    assert(a.addr@ =~= s.subrange(0, 32));
    assert(b.addr@ =~= s.subrange(0, 32));
    assert(a.rights == enc_uref(a)[32]);
    assert(b.rights == enc_uref(b)[32]);
    lemma_addr_ext(a.addr, b.addr);
}

/// At most one key is a prefix of any byte sequence.
pub proof fn lemma_key_prefix_unique(a: Key, b: Key, s: Seq<u8>)
    requires
        is_prefix(enc_key(a), s),
        is_prefix(enc_key(b), s),
    ensures
        a == b,
{
    assert(enc_key(a)[0] == s[0]);
    assert(enc_key(b)[0] == s[0]);
    let t = s.drop_first();
    match a {
        Key::Account(x) => {
            if let Key::Account(y) = b {
                assert(x@.len() == 32 && y@.len() == 32);
                assert(enc_key(a).subrange(1, 33) =~= x@);
                assert(enc_key(b).subrange(1, 33) =~= y@);
                assert(x@ =~= t.subrange(0, 32));
                assert(y@ =~= t.subrange(0, 32));
                lemma_addr_ext(x, y);
            }
        },
        Key::Hash(x) => {
            if let Key::Hash(y) = b {
                assert(x@.len() == 32 && y@.len() == 32);
                assert(enc_key(a).subrange(1, 33) =~= x@);
                assert(enc_key(b).subrange(1, 33) =~= y@);
                assert(x@ =~= t.subrange(0, 32));
                assert(y@ =~= t.subrange(0, 32));
                lemma_addr_ext(x, y);
            }
        },
        Key::URef(x) => {
            if let Key::URef(y) = b {
                assert(x.addr@.len() == 32 && y.addr@.len() == 32);
                assert(enc_key(a).subrange(1, 34) =~= enc_uref(x));
                assert(enc_key(b).subrange(1, 34) =~= enc_uref(y));
                assert(is_prefix(enc_uref(x), t)) by {
                    assert(t.subrange(0, 33) =~= enc_uref(x));
                }
                assert(is_prefix(enc_uref(y), t)) by {
                    assert(t.subrange(0, 33) =~= enc_uref(y));
                }
                lemma_uref_prefix_unique(x, y, t);
            }
        },
    }
}

/// A reference decodes from its encoding, whatever follows it.
pub proof fn lemma_uref_round_trip(u: URef, rest: Seq<u8>)
    requires
        uref_valid(u),
    ensures
        dec_uref(enc_uref(u) + rest) == Some((u, 33nat)),
{
    let s = enc_uref(u) + rest;
    assert(s.subrange(0, enc_uref(u).len() as int) =~= enc_uref(u));
    let c = choose|c: URef| uref_valid(c) && is_prefix(enc_uref(c), s);
    lemma_uref_prefix_unique(u, c, s);
}

/// A key decodes from its encoding, whatever follows it.
pub proof fn lemma_key_round_trip(k: Key, rest: Seq<u8>)
    requires
        key_valid(k),
    ensures
        dec_key(enc_key(k) + rest) == Some((k, enc_key(k).len())),
{
    let s = enc_key(k) + rest;
    assert(s.subrange(0, enc_key(k).len() as int) =~= enc_key(k));
    let c = choose|c: Key| key_valid(c) && is_prefix(enc_key(c), s);
    lemma_key_prefix_unique(k, c, s);
}

pub fn write_addr(buf: &mut Vec<u8>, a: &Addr)
    ensures
        final(buf)@ == old(buf)@ + a@,
{
    let ghost start = old(buf)@;
    let mut i: usize = 0;
    while i < 32
        invariant
            0 <= i <= 32,
            a@.len() == 32,
            buf@ == start + a@.subrange(0, i as int),
        decreases 32 - i,
    {
        buf.push(a[i]);
        assert(a@.subrange(0, i + 1) =~= a@.subrange(0, i as int) + seq![a@[i as int]]);
        i = i + 1;
    }
    assert(a@.subrange(0, 32) =~= a@);
}

pub fn write_uref(buf: &mut Vec<u8>, u: &URef)
    ensures
        final(buf)@ == old(buf)@ + enc_uref(*u),
{
    write_addr(buf, &u.addr);
    buf.push(u.rights);
    assert(final(buf)@ =~= old(buf)@ + enc_uref(*u));
}

pub fn write_key(buf: &mut Vec<u8>, k: &Key)
    ensures
        final(buf)@ == old(buf)@ + enc_key(*k),
{
    match k {
        Key::Account(a) => {
            buf.push(0u8);
            write_addr(buf, a);
        },
        Key::Hash(a) => {
            buf.push(1u8);
            write_addr(buf, a);
        },
        Key::URef(u) => {
            buf.push(2u8);
            write_uref(buf, u);
        },
    }
    assert(final(buf)@ =~= old(buf)@ + enc_key(*k));
}

pub fn read_addr(bytes: &[u8], pos: usize) -> (r: Result<(Addr, usize), CodecError>)
    requires
        pos <= bytes@.len(),
    ensures
        match r {
            Ok((a, p)) => p == pos + 32 && p <= bytes@.len() && bytes@.subrange(pos as int, p as int)
                == a@,
            Err(e) => e == CodecError::EarlyEndOfStream && bytes@.len() < pos + 32,
        },
{
    let len = bytes.len();
    if len - pos < 32 {
        return Err(CodecError::EarlyEndOfStream);
    }
    let mut a: Addr = [0u8; 32];
    let mut i: usize = 0;
    while i < 32
        invariant
            0 <= i <= 32,
            pos + 32 <= len,
            len == bytes@.len(),
            a@.len() == 32,
            forall|j: int| 0 <= j < i ==> a@[j] == bytes@[pos + j],
        decreases 32 - i,
    {
        a[i] = bytes[pos + i];
        i = i + 1;
    }
    assert(bytes@.subrange(pos as int, pos + 32) =~= a@);
    Ok((a, pos + 32))
}

/// Reads a reference from `pos`.
pub fn read_uref(bytes: &[u8], pos: usize) -> (r: Result<(URef, usize), CodecError>)
    requires
        pos <= bytes@.len(),
    ensures
        match r {
            Ok((u, p)) => pos <= p <= bytes@.len() && dec_uref(bytes@.subrange(pos as int, bytes@.len() as int))
                == Some((u, (p - pos) as nat)),
            Err(_) => dec_uref(bytes@.subrange(pos as int, bytes@.len() as int)) is None,
        },
{
    let ghost s = bytes@.subrange(pos as int, bytes@.len() as int);
    let (addr, p1) = match read_addr(bytes, pos) {
        Ok(x) => x,
        Err(e) => {
            assert forall|u: URef| !(uref_valid(u) && is_prefix(enc_uref(u), s)) by {}
            return Err(e);
        },
    };
    let (rights, p2) = match read_u8(bytes, p1) {
        Ok(x) => x,
        Err(e) => {
            assert forall|u: URef| !(uref_valid(u) && is_prefix(enc_uref(u), s)) by {}
            return Err(e);
        },
    };
    assert(rights == bytes@[p1 as int]) by {
        assert(bytes@.subrange(p1 as int, p2 as int)[0] == rights);
    }
    let u = URef { addr, rights };
    assert(s.subrange(0, 33) =~= enc_uref(u)) by {
        assert(s.subrange(0, 32) =~= bytes@.subrange(pos as int, p1 as int));
    }
    if rights > 7 {
        assert forall|c: URef| !(uref_valid(c) && is_prefix(enc_uref(c), s)) by {
            if uref_valid(c) && is_prefix(enc_uref(c), s) {
                assert(enc_uref(c)[32] == s[32]);
            }
        }
        return Err(CodecError::Formatting);
    }
    proof {
        lemma_uref_round_trip(u, s.subrange(33, s.len() as int));
        assert(enc_uref(u) + s.subrange(33, s.len() as int) =~= s);
    }
    Ok((u, p2))
}

/// Reads a key from `pos`.
pub fn read_key(bytes: &[u8], pos: usize) -> (r: Result<(Key, usize), CodecError>)
    requires
        pos <= bytes@.len(),
    ensures
        match r {
            Ok((k, p)) => pos <= p <= bytes@.len() && dec_key(bytes@.subrange(pos as int, bytes@.len() as int))
                == Some((k, (p - pos) as nat)),
            Err(_) => dec_key(bytes@.subrange(pos as int, bytes@.len() as int)) is None,
        },
{
    let ghost s = bytes@.subrange(pos as int, bytes@.len() as int);
    let (tag, p1) = match read_u8(bytes, pos) {
        Ok(x) => x,
        Err(e) => {
            assert forall|k: Key| !(key_valid(k) && is_prefix(enc_key(k), s)) by {}
            return Err(e);
        },
    };
    assert(tag == s[0]) by {
        assert(bytes@.subrange(pos as int, p1 as int)[0] == tag);
    }
    let ghost t = bytes@.subrange(p1 as int, bytes@.len() as int);
    assert(t =~= s.drop_first());
    let k = if tag == 0 || tag == 1 {
        let (a, p2) = match read_addr(bytes, p1) {
            Ok(x) => x,
            Err(e) => {
                assert forall|k: Key| !(key_valid(k) && is_prefix(enc_key(k), s)) by {
                    if key_valid(k) && is_prefix(enc_key(k), s) {
                        assert(enc_key(k)[0] == s[0]);
                    }
                }
                return Err(e);
            },
        };
        let k = if tag == 0 {
            Key::Account(a)
        } else {
            Key::Hash(a)
        };
        assert(s.subrange(0, 33) =~= enc_key(k)) by {
            assert(s.subrange(1, 33) =~= bytes@.subrange(p1 as int, p2 as int));
        }
        k
    } else if tag == 2 {
        let (u, p2) = match read_uref(bytes, p1) {
            Ok(x) => x,
            Err(e) => {
                assert forall|k: Key| !(key_valid(k) && is_prefix(enc_key(k), s)) by {
                    if key_valid(k) && is_prefix(enc_key(k), s) {
                        assert(enc_key(k)[0] == s[0]);
                        if let Key::URef(c) = k {
                            assert(c.addr@.len() == 32);
                            assert(enc_key(k).subrange(1, 34) =~= enc_uref(c));
                            assert(t.subrange(0, 33) =~= enc_uref(c));
                            assert(uref_valid(c) && is_prefix(enc_uref(c), t));
                        }
                    }
                }
                return Err(e);
            },
        };
        let ghost c = choose|c: URef| uref_valid(c) && is_prefix(enc_uref(c), t);
        assert(uref_valid(u) && is_prefix(enc_uref(u), t));
        let k = Key::URef(u);
        assert(s.subrange(0, 34) =~= enc_key(k)) by {
            assert(s.subrange(1, 34) =~= t.subrange(0, 33));
        }
        k
    } else {
        assert forall|k: Key| !(key_valid(k) && is_prefix(enc_key(k), s)) by {
            if key_valid(k) && is_prefix(enc_key(k), s) {
                assert(enc_key(k)[0] == s[0]);
            }
        }
        return Err(CodecError::Formatting);
    };
    proof {
        let n = enc_key(k).len() as int;
        lemma_key_round_trip(k, s.subrange(n, s.len() as int));
        assert(enc_key(k) + s.subrange(n, s.len() as int) =~= s);
    }
    Ok((k, pos + if tag == 2 { 34 } else { 33 }))
}


/// What a key decoder reports is the encoding of a valid key.
pub proof fn lemma_read_key_sound(s: Seq<u8>, k: Key, n: nat)
    requires
        dec_key(s) == Some((k, n)),
    ensures
        n <= s.len(),
        s.subrange(0, n as int) == enc_key(k),
        key_valid(k),
{
}

} // verus!
