//! Unsigned 512-bit integers, as 64 little-endian bytes.
use vstd::prelude::*;
use crate::bytesrepr::{byte_len, le_bytes, le_value, pow256, lemma_le_bytes_len, lemma_le_value_bound,
    lemma_le_bytes_of_value, lemma_pow256_pos};

verus! {

broadcast use vstd::array::group_array_axioms;

/// An unsigned 512-bit integer.
#[derive(Clone, Copy, Debug)]
pub struct U512 {
    /// The integer's bytes, least significant first.
    pub bytes: [u8; 64],
}

/// 2^512.
pub open spec fn m512() -> nat {
    pow256(64)
}

pub proof fn lemma_m512_pos()
    ensures
        m512() > 0,
{
    lemma_pow256_pos(64);
}

impl U512 {
    /// The integer's value.
    pub open spec fn value(&self) -> nat {
        le_value(self.bytes@)
    }
}

impl PartialEq for U512 {
    fn eq(&self, o: &U512) -> (r: bool) {
        let mut i: usize = 0;
        while i < 64
            invariant
                0 <= i <= 64,
                forall|j: int| 0 <= j < i ==> self.bytes@[j] == o.bytes@[j],
            decreases 64 - i,
        {
            if self.bytes[i] != o.bytes[i] {
                return false;
            }
            i = i + 1;
        }
        assert(self.bytes@ =~= o.bytes@);
        true
    }
}

impl vstd::std_specs::cmp::PartialEqSpecImpl for U512 {
    open spec fn obeys_eq_spec() -> bool {
        true
    }

    open spec fn eq_spec(&self, o: &U512) -> bool {
        self.bytes@ == o.bytes@
    }
}

impl Eq for U512 {
}

/// Little-endian bytes followed by more bytes stand for the first number
/// plus the second shifted past them.
pub proof fn lemma_le_value_concat(s: Seq<u8>, t: Seq<u8>)
    ensures
        le_value(s + t) == le_value(s) + pow256(s.len()) * le_value(t),
    decreases s.len(),
{
    if s.len() == 0 {
        assert(s + t =~= t);
        assert(le_value(s) == 0);
        assert(pow256(0) == 1);
    } else {
        lemma_le_value_concat(s.drop_first(), t);
        assert((s + t).drop_first() =~= s.drop_first() + t);
        let a = le_value(s.drop_first());
        let b = le_value(t);
        let p = pow256((s.len() - 1) as nat);
        assert((s + t)[0] == s[0]);
        assert(pow256(s.len()) == 256 * p);
        assert(le_value(s + t) == s[0] + 256 * le_value(s.drop_first() + t));
        assert(le_value(s) == s[0] + 256 * a);
        assert(le_value(s.drop_first() + t) == a + p * b);
        assert(256 * (a + p * b) == 256 * a + (256 * p) * b) by (nonlinear_arith);
        assert(le_value(s + t) == s[0] + 256 * a + (256 * p) * b);
        assert(pow256(s.len()) * b == (256 * p) * b);
    }
}

/// Zero bytes stand for zero.
pub proof fn lemma_le_value_zeros(n: nat)
    ensures
        le_value(Seq::new(n, |i: int| 0u8)) == 0,
    decreases n,
{
    if n > 0 {
        lemma_le_value_zeros((n - 1) as nat);
        assert(Seq::new(n, |i: int| 0u8).drop_first() =~= Seq::new((n - 1) as nat, |i: int| 0u8));
    }
}

proof fn lemma_le_value_push(s: Seq<u8>, b: u8)
    ensures
        le_value(s.push(b)) == le_value(s) + b * pow256(s.len()),
{
    lemma_le_value_concat(s, seq![b]);
    assert(s.push(b) =~= s + seq![b]);
    assert(seq![b].drop_first() =~= Seq::<u8>::empty());
    assert(le_value(Seq::<u8>::empty()) == 0);
    assert(le_value(seq![b]) == b);
    let p = pow256(s.len());
    assert(p * (b as nat) == (b as nat) * p) by (nonlinear_arith);
}

/// A number at least 256^(k-1) and below 256^k takes `k` bytes.
pub proof fn lemma_byte_len_exact(x: nat, k: nat)
    requires
        k >= 1,
        pow256((k - 1) as nat) <= x < pow256(k),
    ensures
        byte_len(x) == k,
    decreases k,
{
    if k == 1 {
        assert(x / 256 == 0);
        assert(byte_len(0) == 0);
        assert(x > 0);
    } else {
        let p = pow256((k - 2) as nat);
        assert(p <= x / 256 < 256 * p) by (nonlinear_arith)
            requires
                256 * p <= x,
                x < 256 * (256 * p),
        ;
        lemma_byte_len_exact(x / 256, (k - 1) as nat);
        lemma_pow256_pos((k - 2) as nat);
    }
}

/// Bytes whose last is not zero take all their length.
pub proof fn lemma_byte_len_of_bytes(s: Seq<u8>)
    requires
        s.len() >= 1,
        s.last() != 0,
    ensures
        byte_len(le_value(s)) == s.len(),
{
    let init = s.drop_last();
    assert(s =~= init.push(s.last()));
    lemma_le_value_push(init, s.last());
    lemma_le_value_bound(s);
    lemma_pow256_pos(init.len());
    let p = pow256(init.len());
    assert(s.last() * p >= p) by (nonlinear_arith)
        requires
            s.last() >= 1,
    ;
    lemma_byte_len_exact(le_value(s), s.len());
}

/// The number of bytes up to the last one that is not zero.
pub open spec fn significant(s: Seq<u8>) -> nat
    decreases s.len(),
{
    if s.len() == 0 {
        0
    } else if s.last() != 0 {
        s.len()
    } else {
        significant(s.drop_last())
    }
}

proof fn lemma_significant(s: Seq<u8>)
    ensures
        significant(s) <= s.len(),
        le_value(s) == le_value(s.subrange(0, significant(s) as int)),
        byte_len(le_value(s)) == significant(s),
        le_bytes(le_value(s), significant(s)) == s.subrange(0, significant(s) as int),
    decreases s.len(),
{
    if s.len() == 0 {
        assert(s.subrange(0, 0) =~= s);
    } else if s.last() != 0 {
        assert(s.subrange(0, s.len() as int) =~= s);
        lemma_byte_len_of_bytes(s);
        lemma_le_bytes_of_value(s);
    } else {
        let init = s.drop_last();
        lemma_significant(init);
        assert(s =~= init.push(0u8));
        lemma_le_value_push(init, 0u8);
        assert(init.subrange(0, significant(init) as int) =~= s.subrange(0, significant(s) as int));
    }
}

/// The encoding of a wide integer: its significant byte count, then those
/// bytes, least significant first.
pub open spec fn enc_u512(x: nat) -> Seq<u8> {
    seq![byte_len(x) as u8] + le_bytes(x, byte_len(x))
}

impl U512 {
    /// Zero.
    pub fn zero() -> (r: U512)
        ensures
            r.value() == 0,
    {
        let r = U512 { bytes: [0u8; 64] };
        proof {
            assert(r.bytes@ =~= Seq::new(64, |i: int| 0u8));
            lemma_le_value_zeros(64);
        }
        r
    }

    /// The integer `x`.
    pub fn from_u128(x: u128) -> (r: U512)
        ensures
            r.value() == x,
    {
        let mut bytes = [0u8; 64];
        let mut v: u128 = x;
        let mut i: usize = 0;
        assert(bytes@.subrange(0, 0) =~= Seq::<u8>::empty());
        assert(le_value(Seq::<u8>::empty()) == 0);
        assert(pow256(0) == 1);
        while i < 16
            invariant
                i <= 16,
                bytes@.len() == 64,
                forall|j: int| i <= j < 64 ==> bytes@[j] == 0,
                le_value(bytes@.subrange(0, i as int)) + pow256(i as nat) * v == x,
            decreases 16 - i,
        {
            let ghost pre = bytes@.subrange(0, i as int);
            let b = (v % 256) as u8;
            bytes[i] = b;
            proof {
                assert(bytes@.subrange(0, i + 1) =~= pre.push(b));
                lemma_le_value_push(pre, b);
                let p = pow256(i as nat);
                assert(p * v == b * p + (256 * p) * (v / 256)) by (nonlinear_arith)
                    requires
                        b == v % 256,
                ;
            }
            v = v / 256;
            i = i + 1;
        }
        proof {
            crate::bytesrepr::lemma_pow256_values();
            crate::bytesrepr::lemma_le_value_bound(bytes@.subrange(0, 16));
            assert(v == 0) by (nonlinear_arith)
                requires
                    le_value(bytes@.subrange(0, 16)) + pow256(16) * v == x,
                    x < pow256(16),
            ;
            assert(bytes@ =~= bytes@.subrange(0, 16) + Seq::new(48, |j: int| 0u8));
            lemma_le_value_concat(bytes@.subrange(0, 16), Seq::new(48, |j: int| 0u8));
            lemma_le_value_zeros(48);
        }
        U512 { bytes }
    }

    /// The sum, wrapping past 2^512, and whether it wrapped.
    pub fn overflowing_add(&self, o: &U512) -> (r: (U512, bool))
        ensures
            r.0.value() == (self.value() + o.value()) % m512(),
            r.1 == (self.value() + o.value() >= m512()),
    {
        let mut out = [0u8; 64];
        let mut carry: u16 = 0;
        let mut i: usize = 0;
        while i < 64
            invariant
                i <= 64,
                out@.len() == 64,
                carry <= 1,
                le_value(out@.subrange(0, i as int)) + carry * pow256(i as nat)
                    == le_value(self.bytes@.subrange(0, i as int)) + le_value(o.bytes@.subrange(0, i as int)),
            decreases 64 - i,
        {
            let ghost pr = out@.subrange(0, i as int);
            let ghost pa = self.bytes@.subrange(0, i as int);
            let ghost pb = o.bytes@.subrange(0, i as int);
            let sum: u16 = self.bytes[i] as u16 + o.bytes[i] as u16 + carry;
            let b = (sum % 256) as u8;
            let c = sum / 256;
            out[i] = b;
            proof {
                assert(out@.subrange(0, i + 1) =~= pr.push(b));
                assert(self.bytes@.subrange(0, i + 1) =~= pa.push(self.bytes@[i as int]));
                assert(o.bytes@.subrange(0, i + 1) =~= pb.push(o.bytes@[i as int]));
                lemma_le_value_push(pr, b);
                lemma_le_value_push(pa, self.bytes@[i as int]);
                lemma_le_value_push(pb, o.bytes@[i as int]);
                let p = pow256(i as nat);
                assert(b * p + c * (256 * p) == (self.bytes@[i as int] + o.bytes@[i as int] + carry) * p) by (nonlinear_arith)
                    requires
                        b + 256 * c == self.bytes@[i as int] + o.bytes@[i as int] + carry,
                ;
                assert((self.bytes@[i as int] + o.bytes@[i as int] + carry) * p
                    == self.bytes@[i as int] * p + o.bytes@[i as int] * p + carry * p) by (nonlinear_arith);
            }
            carry = c;
            i = i + 1;
        }
        let r = U512 { bytes: out };
        proof {
            assert(out@.subrange(0, 64) =~= out@);
            assert(self.bytes@.subrange(0, 64) =~= self.bytes@);
            assert(o.bytes@.subrange(0, 64) =~= o.bytes@);
            lemma_le_value_bound(out@);
            let m = m512();
            let v = le_value(out@);
            if carry == 0 {
                vstd::arithmetic::div_mod::lemma_small_mod(v, m);
            } else {
                vstd::arithmetic::div_mod::lemma_mod_add_multiples_vanish(v as int, m as int);
                vstd::arithmetic::div_mod::lemma_small_mod(v, m);
            }
        }
        (r, carry == 1)
    }

    /// The difference, wrapping below zero, and whether it wrapped.
    pub fn overflowing_sub(&self, o: &U512) -> (r: (U512, bool))
        ensures
            r.1 == (self.value() < o.value()),
            !r.1 ==> r.0.value() == self.value() - o.value(),
    {
        let mut out = [0u8; 64];
        let mut borrow: i16 = 0;
        let mut i: usize = 0;
        while i < 64
            invariant
                i <= 64,
                out@.len() == 64,
                0 <= borrow <= 1,
                le_value(out@.subrange(0, i as int)) + le_value(o.bytes@.subrange(0, i as int))
                    == le_value(self.bytes@.subrange(0, i as int)) + borrow * pow256(i as nat),
            decreases 64 - i,
        {
            let ghost pr = out@.subrange(0, i as int);
            let ghost pa = self.bytes@.subrange(0, i as int);
            let ghost pb = o.bytes@.subrange(0, i as int);
            let d: i16 = self.bytes[i] as i16 - o.bytes[i] as i16 - borrow;
            let (b, nb): (u8, i16) = if d < 0 {
                ((d + 256) as u8, 1)
            } else {
                (d as u8, 0)
            };
            out[i] = b;
            proof {
                assert(out@.subrange(0, i + 1) =~= pr.push(b));
                assert(self.bytes@.subrange(0, i + 1) =~= pa.push(self.bytes@[i as int]));
                assert(o.bytes@.subrange(0, i + 1) =~= pb.push(o.bytes@[i as int]));
                lemma_le_value_push(pr, b);
                lemma_le_value_push(pa, self.bytes@[i as int]);
                lemma_le_value_push(pb, o.bytes@[i as int]);
                let p = pow256(i as nat);
                assert(b * p + o.bytes@[i as int] * p + borrow * p == self.bytes@[i as int] * p + nb * (256 * p)) by (nonlinear_arith)
                    requires
                        b + o.bytes@[i as int] + borrow == self.bytes@[i as int] + 256 * nb,
                ;
            }
            borrow = nb;
            i = i + 1;
        }
        let r = U512 { bytes: out };
        proof {
            assert(out@.subrange(0, 64) =~= out@);
            assert(self.bytes@.subrange(0, 64) =~= self.bytes@);
            assert(o.bytes@.subrange(0, 64) =~= o.bytes@);
            lemma_le_value_bound(out@);
            lemma_le_value_bound(o.bytes@);
            lemma_le_value_bound(self.bytes@);
        }
        (r, borrow == 1)
    }

    /// Whether this integer is below `o`.
    pub fn lt(&self, o: &U512) -> (r: bool)
        ensures
            r == (self.value() < o.value()),
    {
        self.overflowing_sub(o).1
    }

    /// The sum, where it is below 2^512.
    pub fn checked_add(&self, o: &U512) -> (r: Option<U512>)
        ensures
            match r {
                Some(s) => s.value() == self.value() + o.value() && self.value() + o.value() < m512(),
                None => self.value() + o.value() >= m512(),
            },
    {
        let (s, over) = self.overflowing_add(o);
        if over {
            None
        } else {
            proof {
                vstd::arithmetic::div_mod::lemma_small_mod(self.value() + o.value(), m512());
            }
            Some(s)
        }
    }

    /// The difference; `o` must not exceed this integer.
    pub fn sub(&self, o: &U512) -> (r: U512)
        requires
            o.value() <= self.value(),
        ensures
            r.value() == self.value() - o.value(),
    {
        self.overflowing_sub(o).0
    }

    /// The number of significant bytes.
    pub fn significant_bytes(&self) -> (r: usize)
        ensures
            r == byte_len(self.value()),
            r <= 64,
    {
        let mut n: usize = 64;
        assert(self.bytes@.subrange(0, 64) =~= self.bytes@);
        while n > 0 && self.bytes[n - 1] == 0
            invariant
                n <= 64,
                significant(self.bytes@.subrange(0, n as int)) == significant(self.bytes@),
            decreases n,
        {
            assert(self.bytes@.subrange(0, n as int).drop_last() =~= self.bytes@.subrange(0, n - 1));
            n = n - 1;
        }
        proof {
            lemma_significant(self.bytes@);
            if n > 0 {
                assert(self.bytes@.subrange(0, n as int).last() != 0);
            }
        }
        n
    }
}

/// Bytes of which one is not zero stand for a number above zero.
proof fn lemma_le_value_nonzero(s: Seq<u8>, i: int)
    requires
        0 <= i < s.len(),
        s[i] != 0,
    ensures
        le_value(s) > 0,
    decreases s.len(),
{
    if i > 0 {
        lemma_le_value_nonzero(s.drop_first(), i - 1);
    }
}

impl U512 {
    /// The value, where it is below 2^128.
    pub fn to_u128(&self) -> (r: Option<u128>)
        ensures
            match r {
                Some(x) => x == self.value(),
                None => self.value() >= pow256(16),
            },
    {
        let ghost lo = self.bytes@.subrange(0, 16);
        let ghost hi = self.bytes@.subrange(16, 64);
        proof {
            assert(self.bytes@ =~= lo + hi);
            lemma_le_value_concat(lo, hi);
        }
        let mut k: usize = 16;
        while k < 64
            invariant
                16 <= k <= 64,
                hi == self.bytes@.subrange(16, 64),
                lo == self.bytes@.subrange(0, 16),
                self.value() == le_value(lo) + pow256(16) * le_value(hi),
                forall|j: int| 16 <= j < k ==> self.bytes@[j] == 0,
            decreases 64 - k,
        {
            if self.bytes[k] != 0 {
                proof {
                    lemma_le_value_nonzero(hi, k - 16);
                    lemma_pow256_pos(16);
                    let p = pow256(16);
                    assert(p * le_value(hi) >= p) by (nonlinear_arith)
                        requires
                            le_value(hi) >= 1,
                    ;
                }
                return None;
            }
            k = k + 1;
        }
        proof {
            assert(hi =~= Seq::new(48, |j: int| 0u8));
            lemma_le_value_zeros(48);
            assert(self.bytes@.subrange(0, 16) =~= lo);
        }
        let x = crate::bytesrepr::read_le(self.bytes.as_slice(), 0, 16);
        Some(x)
    }
}

/// Appends the encoding of a wide integer.
pub fn write_u512(buf: &mut Vec<u8>, x: &U512)
    ensures
        final(buf)@ == old(buf)@ + enc_u512(x.value()),
{
    let n = x.significant_bytes();
    buf.push(n as u8);
    let ghost mid = buf@;
    let mut i: usize = 0;
    while i < n
        invariant
            i <= n <= 64,
            buf@ == mid + x.bytes@.subrange(0, i as int),
        decreases n - i,
    {
        buf.push(x.bytes[i]);
        assert(x.bytes@.subrange(0, i + 1) =~= x.bytes@.subrange(0, i as int).push(x.bytes@[i as int]));
        i = i + 1;
    }
    proof {
        lemma_significant(x.bytes@);
    }
    assert(final(buf)@ =~= old(buf)@ + enc_u512(x.value()));
}

/// Whether bytes hold a wide integer as its byte count and that many
/// little-endian bytes.
pub open spec fn u512_bytes_valid(b: Seq<u8>) -> bool {
    b.len() >= 1 && b[0] <= 64 && b.len() == 1 + b[0]
}

/// The wide integer that valid bytes stand for.
pub open spec fn u512_of(b: Seq<u8>) -> nat {
    le_value(b.drop_first())
}

/// Reads a wide integer that takes all of `bytes`.
pub fn u512_from_bytes(bytes: &[u8]) -> (r: Option<U512>)
    ensures
        match r {
            Some(x) => u512_bytes_valid(bytes@) && x.value() == u512_of(bytes@),
            None => !u512_bytes_valid(bytes@),
        },
{
    let len = bytes.len();
    if len < 1 || bytes[0] > 64 || len != 1 + bytes[0] as usize {
        return None;
    }
    let n = bytes[0] as usize;
    let mut out = [0u8; 64];
    let mut i: usize = 0;
    while i < n
        invariant
            i <= n <= 64,
            len == bytes@.len(),
            len == 1 + n,
            out@.len() == 64,
            forall|j: int| 0 <= j < i ==> out@[j] == bytes@[1 + j],
            forall|j: int| n <= j < 64 ==> out@[j] == 0,
        decreases n - i,
    {
        out[i] = bytes[1 + i];
        i = i + 1;
    }
    proof {
        assert(out@ =~= bytes@.drop_first() + Seq::new((64 - n) as nat, |j: int| 0u8));
        lemma_le_value_concat(bytes@.drop_first(), Seq::new((64 - n) as nat, |j: int| 0u8));
        lemma_le_value_zeros((64 - n) as nat);
    }
    Some(U512 { bytes: out })
}

/// A wide integer's encoding is valid and stands for it.
pub proof fn lemma_u512_round_trip(x: nat)
    requires
        x < m512(),
    ensures
        u512_bytes_valid(enc_u512(x)),
        u512_of(enc_u512(x)) == x,
{
    crate::bytesrepr::lemma_byte_len(x, 64);
    crate::bytesrepr::lemma_le_round_trip(x, byte_len(x));
    assert(enc_u512(x).drop_first() =~= le_bytes(x, byte_len(x)));
}

} // verus!
