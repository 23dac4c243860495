//! 256-bit unsigned integers held as two 128-bit halves, and the big-endian
//! byte forms that the wire format and the account records use.
use vstd::prelude::*;
use vstd::arithmetic::div_mod::lemma_fundamental_div_mod_converse;

verus! {

/// 2^128.
pub open spec fn two_128() -> nat {
    u128::MAX as nat + 1
}

/// 2^256.
pub open spec fn two_256() -> nat {
    two_128() * two_128()
}

/// 256^n.
pub open spec fn pow256(n: nat) -> nat
    decreases n,
{
    if n == 0 {
        1
    } else {
        256 * pow256((n - 1) as nat)
    }
}

/// The number that the big-endian bytes `s` denote.
pub open spec fn be_value(s: Seq<u8>) -> nat
    decreases s.len(),
{
    if s.len() == 0 {
        0
    } else {
        be_value(s.drop_last()) * 256 + s.last() as nat
    }
}

/// The shortest big-endian form of `v`: no leading zero byte, and empty for zero.
pub open spec fn min_be(v: nat) -> Seq<u8>
    decreases v,
{
    if v == 0 {
        Seq::empty()
    } else {
        min_be(v / 256).push((v % 256) as u8)
    }
}

/// No leading zero byte.
pub open spec fn is_minimal(s: Seq<u8>) -> bool {
    s.len() == 0 || s[0] != 0
}

pub proof fn lemma_pow256_positive(n: nat)
    ensures
        pow256(n) > 0,
    decreases n,
{
    if n > 0 {
        lemma_pow256_positive((n - 1) as nat);
    }
}

pub proof fn lemma_pow256_monotonic(a: nat, b: nat)
    requires
        a <= b,
    ensures
        pow256(a) <= pow256(b),
    decreases b,
{
    if a < b {
        lemma_pow256_monotonic(a, (b - 1) as nat);
        lemma_pow256_positive((b - 1) as nat);
    }
}

pub proof fn lemma_pow256_values()
    ensures
        pow256(8) == 0x1_0000_0000_0000_0000,
        pow256(31) * 256 == two_256(),
        pow256(32) == two_256(),
{
    reveal_with_fuel(pow256, 9);
    lemma_pow256_add(8, 8);
    lemma_pow256_add(16, 16);
    assert(pow256(16) == two_128());
    assert(pow256(32) == pow256(31) * 256);
}

pub proof fn lemma_pow256_add(a: nat, b: nat)
    ensures
        pow256(a + b) == pow256(a) * pow256(b),
    decreases b,
{
    if b > 0 {
        lemma_pow256_add(a, (b - 1) as nat);
        assert(pow256(a + b) == 256 * pow256((a + b - 1) as nat));
        assert(pow256(b) == 256 * pow256((b - 1) as nat));
        assert(256 * (pow256(a) * pow256((b - 1) as nat)) == pow256(a) * (256 * pow256((b - 1) as nat)))
            by (nonlinear_arith);
    } else {
        assert(pow256(0) == 1);
        assert(a + b == a);
    }
}

pub proof fn lemma_be_value_bound(s: Seq<u8>)
    ensures
        be_value(s) < pow256(s.len()),
    decreases s.len(),
{
    if s.len() > 0 {
        lemma_be_value_bound(s.drop_last());
        let p = pow256((s.len() - 1) as nat);
        let v = be_value(s.drop_last());
        assert(v * 256 + (s.last() as nat) < p * 256) by (nonlinear_arith)
            requires
                v < p,
                s.last() < 256,
        ;
    }
}

pub proof fn lemma_min_be_value(v: nat)
    ensures
        be_value(min_be(v)) == v,
        is_minimal(min_be(v)),
    decreases v,
{
    if v > 0 {
        lemma_min_be_value(v / 256);
        let s = min_be(v);
        assert(s.drop_last() =~= min_be(v / 256));
        if v / 256 == 0 {
            assert(s.len() == 1);
            assert(s[0] == (v % 256) as u8);
        } else {
            assert(s[0] == min_be(v / 256)[0]);
        }
    }
}

pub proof fn lemma_be_value_positive(s: Seq<u8>)
    requires
        s.len() > 0,
        s[0] != 0,
    ensures
        be_value(s) > 0,
    decreases s.len(),
{
    if s.len() > 1 {
        lemma_be_value_positive(s.drop_last());
    }
}

/// A minimal big-endian form is the one `min_be` gives for its value.
pub proof fn lemma_minimal_canonical(s: Seq<u8>)
    requires
        is_minimal(s),
    ensures
        min_be(be_value(s)) == s,
    decreases s.len(),
{
    if s.len() > 0 {
        lemma_be_value_positive(s);
        let d = s.drop_last();
        let v = be_value(s);
        lemma_fundamental_div_mod_converse(v as int, 256, be_value(d) as int, s.last() as int);
        if d.len() > 0 {
            assert(d[0] == s[0]);
        }
        lemma_minimal_canonical(d);
        assert(min_be(v) =~= min_be(v / 256).push((v % 256) as u8));
        assert(s =~= d.push(s.last()));
    }
}

pub proof fn lemma_min_be_len(v: nat, n: nat)
    requires
        v < pow256(n),
    ensures
        min_be(v).len() <= n,
    decreases n,
{
    if v > 0 {
        assert(n > 0);
        let p = pow256((n - 1) as nat);
        assert(v / 256 < p) by (nonlinear_arith)
            requires
                v < 256 * p,
        ;
        lemma_min_be_len(v / 256, (n - 1) as nat);
    }
}

proof fn lemma_split_256(hi: nat, lo: nat)
    requires
        hi < two_128(),
        lo < two_128(),
    ensures
        (hi * two_128() + lo) / 256 == (hi / 256) * two_128() + (hi % 256) * 0x1_0000_0000_0000_0000_0000_0000_0000_00
            + lo / 256,
        (hi * two_128() + lo) % 256 == lo % 256,
{
    let q = (hi / 256) * two_128() + (hi % 256) * 0x1_0000_0000_0000_0000_0000_0000_0000_00 + lo / 256;
    assert(hi == 256 * (hi / 256) + hi % 256);
    assert(lo == 256 * (lo / 256) + lo % 256);
    assert(hi * two_128() + lo == q * 256 + lo % 256) by (nonlinear_arith)
        requires
            hi == 256 * (hi / 256) + hi % 256,
            lo == 256 * (lo / 256) + lo % 256,
            q == (hi / 256) * two_128() + (hi % 256) * 0x1_0000_0000_0000_0000_0000_0000_0000_00 + lo
                / 256,
            two_128() == 256 * 0x1_0000_0000_0000_0000_0000_0000_0000_00,
    ;
    lemma_fundamental_div_mod_converse((hi * two_128() + lo) as int, 256, q as int, (lo % 256) as int);
}

proof fn lemma_shift_in(hi: nat, lo: nat, b: nat)
    requires
        hi < 0x1_0000_0000_0000_0000_0000_0000_0000_00,
        lo < two_128(),
        b < 256,
    ensures
        (hi * two_128() + lo) * 256 + b == (hi * 256 + lo / 0x1_0000_0000_0000_0000_0000_0000_0000_00)
            * two_128() + ((lo % 0x1_0000_0000_0000_0000_0000_0000_0000_00) * 256 + b),
        hi * 256 + lo / 0x1_0000_0000_0000_0000_0000_0000_0000_00 < two_128(),
        (lo % 0x1_0000_0000_0000_0000_0000_0000_0000_00) * 256 + b < two_128(),
{
    let t: nat = 0x1_0000_0000_0000_0000_0000_0000_0000_00;
    assert(lo == t * (lo / t) + lo % t);
    assert(lo / t < 256);
    assert((hi * two_128() + lo) * 256 + b == (hi * 256 + lo / t) * two_128() + ((lo % t) * 256 + b))
        by (nonlinear_arith)
        requires
            lo == t * (lo / t) + lo % t,
            two_128() == 256 * t,
    ;
    assert(hi * 256 + lo / t < two_128()) by (nonlinear_arith)
        requires
            hi < t,
            lo / t < 256,
            two_128() == 256 * t,
    ;
    assert((lo % t) * 256 + b < two_128()) by (nonlinear_arith)
        requires
            lo % t < t,
            b < 256,
            two_128() == 256 * t,
    ;
}

/// An unsigned integer below 2^256.
#[derive(Clone, Copy, Debug, PartialEq, Eq, Structural)]
pub struct U256 {
    pub hi: u128,
    pub lo: u128,
}

impl View for U256 {
    type V = nat;

    open spec fn view(&self) -> nat {
        self.hi as nat * two_128() + self.lo as nat
    }
}

/// A number below 2^256 has a minimal form of at most 32 bytes.
pub proof fn lemma_min_be_len_u256(v: nat)
    requires
        v < two_256(),
    ensures
        min_be(v).len() <= 32,
{
    lemma_pow256_values();
    lemma_min_be_len(v, 32);
}

/// Two values of `U256` that denote one number are the same value.
pub proof fn lemma_u256_unique(a: U256, b: U256)
    requires
        a@ == b@,
    ensures
        a == b,
{
    lemma_fundamental_div_mod_converse(a@ as int, two_128() as int, a.hi as int, a.lo as int);
    lemma_fundamental_div_mod_converse(b@ as int, two_128() as int, b.hi as int, b.lo as int);
}

/// The `U256` that denotes `v`, for `v` below 2^256.
pub open spec fn u256_of(v: nat) -> U256 {
    U256 { hi: (v / two_128()) as u128, lo: (v % two_128()) as u128 }
}

pub proof fn lemma_u256_of(a: U256)
    ensures
        u256_of(a@) == a,
{
    lemma_fundamental_div_mod_converse(a@ as int, two_128() as int, a.hi as int, a.lo as int);
}

/// A number below 2^256 is what `u256_of` of it denotes.
pub proof fn lemma_u256_of_value(v: nat)
    requires
        v < two_256(),
    ensures
        u256_of(v)@ == v,
{
    let q = v / two_128();
    let r = v % two_128();
    vstd::arithmetic::div_mod::lemma_fundamental_div_mod(v as int, two_128() as int);
    assert(v == q * two_128() + r);
    assert(q < two_128()) by (nonlinear_arith)
        requires
            v == q * two_128() + r,
            v < two_128() * two_128(),
            r >= 0,
    ;
}

/// Every `U256` denotes a number below 2^256.
pub proof fn lemma_u256_bound(a: U256)
    ensures
        a@ < two_256(),
{
    let h = a.hi as nat;
    assert(h * two_128() + (a.lo as nat) < two_128() * two_128()) by (nonlinear_arith)
        requires
            h < two_128(),
            a.lo < two_128(),
    ;
}

impl U256 {
    pub fn zero() -> (r: U256)
        ensures
            r@ == 0,
    {
        U256 { hi: 0, lo: 0 }
    }

    pub fn from_u64(v: u64) -> (r: U256)
        ensures
            r@ == v as nat,
    {
        U256 { hi: 0, lo: v as u128 }
    }

    pub fn from_u128(v: u128) -> (r: U256)
        ensures
            r@ == v as nat,
    {
        U256 { hi: 0, lo: v }
    }

    pub fn is_zero(&self) -> (r: bool)
        ensures
            r == (self@ == 0),
    {
        proof {
            let h = self.hi as nat;
            assert(h > 0 ==> h * two_128() > 0) by (nonlinear_arith)
                requires
                    two_128() > 0,
            ;
            assert(h == 0 ==> h * two_128() == 0);
            assert(self@ == h * two_128() + self.lo as nat);
        }
        self.hi == 0 && self.lo == 0
    }

    /// `self >= other` as numbers.
    pub fn ge(&self, other: &U256) -> (r: bool)
        ensures
            r == (self@ >= other@),
    {
        let ghost hi_a = self.hi as nat;
        let ghost hi_b = other.hi as nat;
        proof {
            let t = two_128();
            assert(self.hi < other.hi ==> self@ < other@) by (nonlinear_arith)
                requires
                    self@ == hi_a * t + self.lo as nat,
                    other@ == hi_b * t + other.lo as nat,
                    self.lo < t,
            ;
            assert(self.hi > other.hi ==> self@ > other@) by (nonlinear_arith)
                requires
                    self@ == hi_a * t + self.lo as nat,
                    other@ == hi_b * t + other.lo as nat,
                    other.lo < t,
            ;
        }
        if self.hi != other.hi {
            self.hi > other.hi
        } else {
            self.lo >= other.lo
        }
    }

    /// The sum, or `None` where it does not fit in 256 bits.
    pub fn checked_add(&self, other: &U256) -> (r: Option<U256>)
        ensures
            r is Some <==> self@ + other@ < two_256(),
            r matches Some(s) ==> s@ == self@ + other@,
    {
        let (lo, carry) = if self.lo <= u128::MAX - other.lo {
            (self.lo + other.lo, 0u128)
        } else {
            (self.lo - (u128::MAX - other.lo) - 1, 1u128)
        };
        proof {
            assert(self.lo as nat + other.lo as nat == lo as nat + carry * two_128());
        }
        let ghost a = self.hi as nat;
        let ghost b = other.hi as nat;
        proof {
            assert(self@ + other@ == (a + b + carry) * two_128() + lo) by (nonlinear_arith)
                requires
                    self@ == a * two_128() + self.lo as nat,
                    other@ == b * two_128() + other.lo as nat,
                    self.lo as nat + other.lo as nat == lo as nat + carry * two_128(),
            ;
        }
        if self.hi <= u128::MAX - other.hi && self.hi + other.hi <= u128::MAX - carry {
            Some(U256 { hi: self.hi + other.hi + carry, lo })
        } else {
            proof {
                assert((a + b + carry) * two_128() + lo >= two_128() * two_128()) by (nonlinear_arith)
                    requires
                        a + b + carry >= two_128(),
                ;
            }
            None
        }
    }

    /// The difference, or `None` where `other` exceeds `self`.
    pub fn checked_sub(&self, other: &U256) -> (r: Option<U256>)
        ensures
            r is Some <==> self@ >= other@,
            r matches Some(d) ==> d@ == self@ - other@,
    {
        if !self.ge(other) {
            return None;
        }
        let (lo, borrow) = if self.lo >= other.lo {
            (self.lo - other.lo, 0u128)
        } else {
            (u128::MAX - (other.lo - self.lo) + 1, 1u128)
        };
        let ghost a = self.hi as nat;
        let ghost b = other.hi as nat;
        proof {
            assert(self.lo as nat + borrow * two_128() == lo as nat + other.lo as nat);
            assert(self@ - other@ == (a - b - borrow) * two_128() + lo) by (nonlinear_arith)
                requires
                    self@ == a * two_128() + self.lo as nat,
                    other@ == b * two_128() + other.lo as nat,
                    self.lo as nat + borrow * two_128() == lo as nat + other.lo as nat,
            ;
            assert(a >= b + borrow) by (nonlinear_arith)
                requires
                    self@ >= other@,
                    self@ == a * two_128() + self.lo as nat,
                    other@ == b * two_128() + other.lo as nat,
                    self.lo as nat + borrow * two_128() == lo as nat + other.lo as nat,
                    lo < two_128(),
            ;
        }
        Some(U256 { hi: self.hi - other.hi - borrow, lo })
    }

    /// The shortest big-endian bytes of the number.
    pub fn to_be_min(&self) -> (r: Vec<u8>)
        ensures
            r@ == min_be(self@),
    {
        let mut hi = self.hi;
        let mut lo = self.lo;
        let mut out: Vec<u8> = Vec::new();
        while hi != 0 || lo != 0
            invariant
                min_be(self@) == min_be(hi as nat * two_128() + lo as nat) + out@,
            decreases hi as nat * two_128() + lo as nat,
        {
            let ghost v = hi as nat * two_128() + lo as nat;
            proof {
                lemma_split_256(hi as nat, lo as nat);
            }
            let byte = (lo % 256) as u8;
            let nlo = (hi % 256) * 0x1_0000_0000_0000_0000_0000_0000_0000_00 + lo / 256;
            let nhi = hi / 256;
            proof {
                assert(v > 0);
                assert(min_be(v) == min_be(v / 256).push((v % 256) as u8));
            }
            let ghost prev = out@;
            out.insert(0, byte);
            proof {
                assert(out@ =~= seq![byte] + prev);
                assert(min_be(v) + prev =~= min_be(v / 256) + out@);
            }
            hi = nhi;
            lo = nlo;
        }
        proof {
            assert(min_be(0) + out@ =~= out@);
        }
        out
    }

    /// The number that `b[start..end]` denotes, read big-endian.
    pub fn from_be_slice(b: &[u8], start: usize, end: usize) -> (r: U256)
        requires
            start <= end <= b@.len(),
            end - start <= 32,
        ensures
            r@ == be_value(b@.subrange(start as int, end as int)),
    {
        let mut hi: u128 = 0;
        let mut lo: u128 = 0;
        let mut i = start;
        proof {
            assert(b@.subrange(start as int, start as int) =~= Seq::<u8>::empty());
        }
        while i < end
            invariant
                start <= i <= end <= b@.len(),
                end - start <= 32,
                hi as nat * two_128() + lo as nat == be_value(b@.subrange(start as int, i as int)),
            decreases end - i,
        {
            let ghost pre = b@.subrange(start as int, i as int);
            proof {
                lemma_be_value_bound(pre);
                lemma_pow256_monotonic(pre.len(), 31);
                lemma_pow256_values();
                let t: nat = 0x1_0000_0000_0000_0000_0000_0000_0000_00;
                assert(hi < t) by (nonlinear_arith)
                    requires
                        hi as nat * two_128() + (lo as nat) < pow256(31),
                        pow256(31) * 256 == two_128() * two_128(),
                        two_128() == 256 * t,
                ;
                lemma_shift_in(hi as nat, lo as nat, b@[i as int] as nat);
                assert(b@.subrange(start as int, i + 1) =~= pre.push(b@[i as int]));
                assert(b@.subrange(start as int, i + 1).drop_last() =~= pre);
            }
            let nhi = hi * 256 + lo / 0x1_0000_0000_0000_0000_0000_0000_0000_00;
            let nlo = (lo % 0x1_0000_0000_0000_0000_0000_0000_0000_00) * 256 + b[i] as u128;
            hi = nhi;
            lo = nlo;
            i = i + 1;
        }
        U256 { hi, lo }
    }
}

} // verus!
