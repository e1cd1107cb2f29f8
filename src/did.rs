use crate::error::Error;
use vstd::arithmetic::div_mod::{
    lemma_add_mod_noop, lemma_fundamental_div_mod_converse, lemma_mul_mod_noop_left,
    lemma_small_mod,
};
use vstd::prelude::*;
use vstd::std_specs::cmp::PartialOrdSpec;
use vstd::string::StringSliceAdditionalSpecFns;

verus! {

/// 2^64, the weight of the middle limb of an identifier.
#[verifier::inline]
pub open spec fn limb_weight() -> int {
    0x1_0000_0000_0000_0000
}

/// 2^128, the weight of the top limb of an identifier.
#[verifier::inline]
pub open spec fn top_weight() -> int {
    limb_weight() * limb_weight()
}

/// 2^160, the number of points on the identifier ring.
#[verifier::inline]
pub open spec fn ring_size() -> int {
    top_weight() * 0x1_0000_0000
}

/// Addition on the ring.
pub open spec fn ring_add(a: int, b: int) -> int {
    (a + b) % ring_size()
}

/// Additive inverse on the ring.
pub open spec fn ring_neg(a: int) -> int {
    (ring_size() - a) % ring_size()
}

/// Subtraction on the ring: adding the inverse.
pub open spec fn ring_sub(a: int, b: int) -> int {
    ring_add(a, ring_neg(b))
}

/// `base` to the power `e`.
pub open spec fn power(base: int, e: nat) -> int
    decreases e,
{
    if e == 0 {
        1
    } else {
        base * power(base, (e - 1) as nat)
    }
}

/// The unsigned integer that a sequence of bytes writes in big-endian order.
pub open spec fn be_value(bytes: Seq<u8>) -> int
    decreases bytes.len(),
{
    if bytes.len() == 0 {
        0
    } else {
        be_value(bytes.drop_last()) * 256 + bytes.last() as int
    }
}

/// An ASCII hexadecimal digit, in either case.
pub open spec fn is_hex_digit(c: u8) -> bool {
    (0x30 <= c <= 0x39) || (0x61 <= c <= 0x66) || (0x41 <= c <= 0x46)
}

/// The value of a hexadecimal digit.
pub open spec fn hex_digit_value(c: u8) -> int {
    if 0x30 <= c <= 0x39 {
        c - 0x30
    } else if 0x61 <= c <= 0x66 {
        c - 0x61 + 10
    } else {
        c - 0x41 + 10
    }
}

/// The number that a sequence of hexadecimal digits writes, most significant first.
pub open spec fn hex_value(digits: Seq<u8>) -> int
    decreases digits.len(),
{
    if digits.len() == 0 {
        0
    } else {
        hex_value(digits.drop_last()) * 16 + hex_digit_value(digits.last())
    }
}

/// The digits of an identifier's text: the text without its `0x` prefix, if it has one.
pub open spec fn address_digits(text: Seq<u8>) -> Seq<u8> {
    if text.len() >= 2 && text[0] == 0x30 && text[1] == 0x78 {
        text.subrange(2, text.len() as int)
    } else {
        text
    }
}

/// An identifier written as 40 hexadecimal digits, with or without a `0x` prefix.
pub open spec fn is_address_text(text: Seq<u8>) -> bool {
    let digits = address_digits(text);
    &&& digits.len() == 40
    &&& forall|i: int| 0 <= i < digits.len() ==> is_hex_digit(#[trigger] digits[i])
}

/// A lowercase ASCII hexadecimal digit.
pub open spec fn is_lower_hex_digit(c: u8) -> bool {
    (0x30 <= c <= 0x39) || (0x61 <= c <= 0x66)
}

/// The lowercase hexadecimal digit of `n`, for `n` below 16.
pub open spec fn lower_hex_digit(n: int) -> u8 {
    if n < 10 {
        (0x30 + n) as u8
    } else {
        (0x61 + n - 10) as u8
    }
}

/// Bytes written as lowercase hexadecimal digits, two for each byte.
pub open spec fn hex_text_of(bytes: Seq<u8>) -> Seq<u8>
    decreases bytes.len(),
{
    if bytes.len() == 0 {
        Seq::empty()
    } else {
        hex_text_of(bytes.drop_last()) + seq![
            lower_hex_digit(bytes.last() as int / 16),
            lower_hex_digit(bytes.last() as int % 16),
        ]
    }
}

proof fn lemma_hex_text_of(bytes: Seq<u8>)
    ensures
        hex_text_of(bytes).len() == 2 * bytes.len(),
        forall|i: int|
            0 <= i < hex_text_of(bytes).len() ==> is_lower_hex_digit(
                #[trigger] hex_text_of(bytes)[i],
            ),
        hex_value(hex_text_of(bytes)) == be_value(bytes),
    decreases bytes.len(),
{
    if bytes.len() > 0 {
        let init = bytes.drop_last();
        lemma_hex_text_of(init);
        let t = hex_text_of(init);
        let b = bytes.last();
        let h = lower_hex_digit(b as int / 16);
        let l = lower_hex_digit(b as int % 16);
        let all = t + seq![h, l];
        assert(hex_text_of(bytes) == all);
        assert(all.drop_last() =~= t + seq![h]);
        assert((t + seq![h]).drop_last() =~= t);
        assert(all.last() == l);
        assert((t + seq![h]).last() == h);
        assert(hex_digit_value(h) == b as int / 16);
        assert(hex_digit_value(l) == b as int % 16);
        assert(hex_value(t + seq![h]) == hex_value(t) * 16 + hex_digit_value(h));
        assert(hex_value(all) == hex_value(t + seq![h]) * 16 + hex_digit_value(l));
        assert(be_value(bytes) == be_value(init) * 256 + b as int);
        assert(b as int == (b as int / 16) * 16 + b as int % 16);
        assert forall|i: int| 0 <= i < all.len() implies is_lower_hex_digit(#[trigger] all[i]) by {
            if i < t.len() {
                assert(all[i] == t[i]);
            }
        }
    }
}

proof fn lemma_power_positive(base: int, e: nat)
    requires
        base >= 1,
    ensures
        power(base, e) >= 1,
    decreases e,
{
    if e > 0 {
        lemma_power_positive(base, (e - 1) as nat);
        assert(base * power(base, (e - 1) as nat) >= 1) by (nonlinear_arith)
            requires
                base >= 1,
                power(base, (e - 1) as nat) >= 1,
        ;
    }
}

proof fn lemma_power_monotone(base: int, e: nat, f: nat)
    requires
        base >= 1,
        e <= f,
    ensures
        power(base, e) <= power(base, f),
    decreases f,
{
    if e < f {
        lemma_power_monotone(base, e, (f - 1) as nat);
        lemma_power_positive(base, (f - 1) as nat);
        assert(power(base, (f - 1) as nat) <= base * power(base, (f - 1) as nat))
            by (nonlinear_arith)
            requires
                base >= 1,
                power(base, (f - 1) as nat) >= 1,
        ;
    }
}

proof fn lemma_power_16_40()
    ensures
        power(16, 40) == ring_size(),
{
    reveal_with_fuel(power, 41);
}

proof fn lemma_power_256_20()
    ensures
        power(256, 20) == ring_size(),
{
    reveal_with_fuel(power, 21);
}

proof fn lemma_hex_value_bound(digits: Seq<u8>)
    requires
        forall|i: int| 0 <= i < digits.len() ==> is_hex_digit(#[trigger] digits[i]),
    ensures
        0 <= hex_value(digits) < power(16, digits.len()),
    decreases digits.len(),
{
    if digits.len() > 0 {
        let init = digits.drop_last();
        assert forall|i: int| 0 <= i < init.len() implies is_hex_digit(#[trigger] init[i]) by {
            assert(init[i] == digits[i]);
        }
        lemma_hex_value_bound(init);
        assert(is_hex_digit(digits[digits.len() - 1]));
        let h = hex_value(init);
        let p = power(16, init.len());
        let d = hex_digit_value(digits.last());
        assert(0 <= h * 16 + d < 16 * p) by (nonlinear_arith)
            requires
                0 <= h < p,
                0 <= d < 16,
        ;
    }
}

proof fn lemma_be_value_bound(bytes: Seq<u8>)
    ensures
        0 <= be_value(bytes) < power(256, bytes.len()),
    decreases bytes.len(),
{
    if bytes.len() > 0 {
        let init = bytes.drop_last();
        lemma_be_value_bound(init);
        let h = be_value(init);
        let p = power(256, init.len());
        let d = bytes.last() as int;
        assert(0 <= h * 256 + d < 256 * p) by (nonlinear_arith)
            requires
                0 <= h < p,
                0 <= d < 256,
        ;
    }
}

/// Putting a byte in front of big-endian bytes adds it at the next power of 256.
proof fn lemma_be_value_prepend(b: u8, bytes: Seq<u8>)
    ensures
        be_value(seq![b] + bytes) == b as int * power(256, bytes.len()) + be_value(bytes),
    decreases bytes.len(),
{
    let all = seq![b] + bytes;
    if bytes.len() == 0 {
        assert(all.drop_last() =~= Seq::<u8>::empty());
        assert(all.last() == b);
        assert(be_value(all) == be_value(all.drop_last()) * 256 + b as int);
        assert(power(256, 0) == 1);
    } else {
        let init = bytes.drop_last();
        assert(all.drop_last() =~= seq![b] + init);
        assert(all.last() == bytes.last());
        assert(be_value(all) == be_value(all.drop_last()) * 256 + bytes.last() as int);
        assert(be_value(bytes) == be_value(init) * 256 + bytes.last() as int);
        lemma_be_value_prepend(b, init);
        let p = power(256, init.len());
        assert(power(256, bytes.len()) == 256 * p);
        let x = b as int;
        let e = be_value(init);
        assert((x * p + e) * 256 + bytes.last() as int == x * (256 * p) + (e * 256
            + bytes.last() as int)) by (nonlinear_arith);
    }
}

/// A value of `top_weight() * h + r` with `r` below the top weight, reduced
/// modulo the ring size, keeps `r` and the low 32 bits of `h`.
proof fn lemma_reduce_top(h: int, r: int)
    requires
        h >= 0,
        0 <= r < top_weight(),
    ensures
        (h * top_weight() + r) % ring_size() == (h % 0x1_0000_0000) * top_weight() + r,
{
    let q = h / 0x1_0000_0000;
    let t = h % 0x1_0000_0000;
    assert(h == q * 0x1_0000_0000 + t && 0 <= t < 0x1_0000_0000) by (nonlinear_arith)
        requires
            q == h / 0x1_0000_0000,
            t == h % 0x1_0000_0000,
    ;
    assert(h * top_weight() + r == q * ring_size() + (t * top_weight() + r)) by (nonlinear_arith)
        requires
            h == q * 0x1_0000_0000 + t,
    ;
    assert(0 <= t * top_weight() + r < ring_size()) by (nonlinear_arith)
        requires
            0 <= t < 0x1_0000_0000,
            0 <= r < top_weight(),
    ;
    lemma_fundamental_div_mod_converse(h * top_weight() + r, ring_size(), q, t * top_weight() + r);
}

/// The value of an ASCII hexadecimal digit, if `c` is one.
fn hex_digit(c: u8) -> (r: Option<u64>)
    ensures
        r is Some <==> is_hex_digit(c),
        r matches Some(v) ==> v == hex_digit_value(c) && v < 16,
{
    if 0x30 <= c && c <= 0x39 {
        Some((c - 0x30) as u64)
    } else if 0x61 <= c && c <= 0x66 {
        Some((c - 0x61 + 10) as u64)
    } else if 0x41 <= c && c <= 0x46 {
        Some((c - 0x41 + 10) as u64)
    } else {
        None
    }
}

/// An identifier: a point on the ring of integers modulo 2^160.
///
/// It is held as three limbs, most significant first; every combination of
/// limbs is a distinct point, so no invariant is needed.
#[derive(Clone, Copy, Debug, PartialEq, Eq, Structural, Hash)]
pub struct Did {
    hi: u32,
    mid: u64,
    lo: u64,
}

impl Did {
    /// The point of the ring that this identifier stands for.
    pub closed spec fn value(self) -> int {
        self.hi as int * top_weight() + self.mid as int * limb_weight() + self.lo as int
    }

    /// Every identifier lies on the ring.
    pub proof fn lemma_value_range(self)
        ensures
            0 <= self.value() < ring_size(),
    {
    }

    /// Two identifiers with the same value are the same identifier.
    pub proof fn lemma_value_injective(self, other: Did)
        requires
            self.value() == other.value(),
        ensures
            self == other,
    {
        let r1 = self.mid as int * limb_weight() + self.lo as int;
        let r2 = other.mid as int * limb_weight() + other.lo as int;
        lemma_fundamental_div_mod_converse(self.value(), top_weight(), self.hi as int, r1);
        lemma_fundamental_div_mod_converse(other.value(), top_weight(), other.hi as int, r2);
        lemma_fundamental_div_mod_converse(r1, limb_weight(), self.mid as int, self.lo as int);
        lemma_fundamental_div_mod_converse(r2, limb_weight(), other.mid as int, other.lo as int);
    }

    /// The identifier whose value is `v`, for `v` on the ring.
    pub closed spec fn from_value(v: int) -> Did {
        Did {
            hi: (v / top_weight()) as u32,
            mid: ((v % top_weight()) / limb_weight()) as u64,
            lo: (v % limb_weight()) as u64,
        }
    }

    /// `from_value` inverts `value` on the ring.
    pub proof fn lemma_from_value(v: int)
        requires
            0 <= v < ring_size(),
        ensures
            Did::from_value(v).value() == v,
    {
        let h = v / top_weight();
        let r = v % top_weight();
        assert(v == h * top_weight() + r && 0 <= r < top_weight()) by (nonlinear_arith)
            requires
                h == v / top_weight(),
                r == v % top_weight(),
        ;
        assert(0 <= h < 0x1_0000_0000) by (nonlinear_arith)
            requires
                v == h * top_weight() + r,
                0 <= r < top_weight(),
                0 <= v < ring_size(),
        ;
        let m = r / limb_weight();
        let l = r % limb_weight();
        assert(r == m * limb_weight() + l && 0 <= l < limb_weight()) by (nonlinear_arith)
            requires
                m == r / limb_weight(),
                l == r % limb_weight(),
        ;
        assert(0 <= m < limb_weight()) by (nonlinear_arith)
            requires
                r == m * limb_weight() + l,
                0 <= l < limb_weight(),
                0 <= r < top_weight(),
        ;
        assert(v % limb_weight() == l) by (nonlinear_arith)
            requires
                v == h * top_weight() + m * limb_weight() + l,
                0 <= l < limb_weight(),
        {
            lemma_fundamental_div_mod_converse(v, limb_weight(), h * limb_weight() + m, l);
        }
    }

    /// The identifier 0.
    pub fn zero() -> (r: Did)
        ensures
            r.value() == 0,
    {
        Did { hi: 0, mid: 0, lo: 0 }
    }

    /// `(self * k + d) mod 2^160`: the identifier with one more digit of base `k` appended.
    fn shift_in(self, k: u64, d: u64) -> (r: Did)
        requires
            1 <= k <= 256,
            d < k,
        ensures
            r.value() == (self.value() * k + d) % ring_size(),
    {
        assert(self.lo as u128 * k as u128 + d as u128 <= 0xffff_ffff_ffff_ffff * 256 + 255)
            by (nonlinear_arith)
            requires
                k <= 256,
                d < k,
        ;
        let t0: u128 = self.lo as u128 * k as u128 + d as u128;
        let lo = (t0 % 0x1_0000_0000_0000_0000) as u64;
        let c0: u128 = t0 / 0x1_0000_0000_0000_0000;
        assert(c0 < 256);
        assert(self.mid as u128 * k as u128 <= 0xffff_ffff_ffff_ffff * 256) by (nonlinear_arith)
            requires
                k <= 256,
        ;
        let t1: u128 = self.mid as u128 * k as u128 + c0;
        let mid = (t1 % 0x1_0000_0000_0000_0000) as u64;
        let c1: u128 = t1 / 0x1_0000_0000_0000_0000;
        assert(c1 < 257);
        assert(self.hi as u64 * k <= 0xffff_ffff * 256) by (nonlinear_arith)
            requires
                k <= 256,
        ;
        let t2: u64 = self.hi as u64 * k + c1 as u64;
        let hi = (t2 % 0x1_0000_0000) as u32;
        proof {
            let v = self.value();
            assert(v * k + d == (self.hi as int * k) * top_weight() + (self.mid as int * k)
                * limb_weight() + (self.lo as int * k + d)) by (nonlinear_arith)
                requires
                    v == self.hi as int * top_weight() + self.mid as int * limb_weight()
                        + self.lo as int,
            ;
            assert(v * k + d == t2 as int * top_weight() + mid as int * limb_weight()
                + lo as int);
            lemma_reduce_top(t2 as int, mid as int * limb_weight() + lo as int);
        }
        Did { hi, mid, lo }
    }

    /// `self / 256` and `self % 256`: the identifier without its last byte,
    /// and that byte.
    fn shift_out(self) -> (r: (Did, u8))
        ensures
            r.0.value() == self.value() / 256,
            r.1 as int == self.value() % 256,
    {
        let b = (self.lo % 256) as u8;
        let lo = self.lo / 256 + (self.mid % 256) * 0x0100_0000_0000_0000;
        let mid = self.mid / 256 + (self.hi as u64 % 256) * 0x0100_0000_0000_0000;
        let hi = self.hi / 256;
        let q = Did { hi, mid, lo };
        proof {
            assert(self.value() == q.value() * 256 + b as int);
            lemma_fundamental_div_mod_converse(self.value(), 256, q.value(), b as int);
        }
        (q, b)
    }

    /// The 20 big-endian bytes of the identifier.
    pub fn to_be_bytes(&self) -> (r: Vec<u8>)
        ensures
            r@.len() == 20,
            be_value(r@) == self.value(),
    {
        let mut out: Vec<u8> = Vec::new();
        let mut rest = *self;
        let mut i: usize = 0;
        while i < 20
            invariant
                i <= 20,
                out@.len() == i,
                self.value() == rest.value() * power(256, i as nat) + be_value(out@),
            decreases 20 - i,
        {
            let (q, b) = rest.shift_out();
            let ghost before = out@;
            out.insert(0, b);
            proof {
                assert(out@ =~= seq![b] + before);
                lemma_be_value_prepend(b, before);
                let p = power(256, i as nat);
                assert(power(256, (i + 1) as nat) == 256 * p);
                let v = rest.value();
                assert(v == q.value() * 256 + b as int);
                assert(v * p == q.value() * (256 * p) + b as int * p) by (nonlinear_arith)
                    requires
                        v == q.value() * 256 + b as int,
                ;
            }
            rest = q;
            i = i + 1;
        }
        proof {
            lemma_power_256_20();
            lemma_be_value_bound(out@);
            let r = rest.value();
            assert(r == 0) by (nonlinear_arith)
                requires
                    self.value() == r * ring_size() + be_value(out@),
                    0 <= be_value(out@),
                    self.value() < ring_size(),
                    r >= 0,
            ;
            assert(r * power(256, 20) == 0) by (nonlinear_arith)
                requires
                    r == 0,
            ;
        }
        out
    }

    /// The identifier written as `0x` and 40 lowercase hexadecimal digits.
    pub fn to_hex(&self) -> (r: Vec<u8>)
        ensures
            r@.len() == 42,
            r@[0] == 0x30 && r@[1] == 0x78,
            forall|i: int| 2 <= i < 42 ==> is_lower_hex_digit(#[trigger] r@[i]),
            is_address_text(r@),
            hex_value(address_digits(r@)) == self.value(),
    {
        let bytes = self.to_be_bytes();
        let mut out: Vec<u8> = Vec::new();
        out.push(0x30);
        out.push(0x78);
        let mut i: usize = 0;
        assert(bytes@.subrange(0, 0) =~= Seq::<u8>::empty());
        while i < bytes.len()
            invariant
                i <= bytes@.len(),
                out@ =~= seq![0x30u8, 0x78u8] + hex_text_of(bytes@.subrange(0, i as int)),
            decreases bytes.len() - i,
        {
            let b = bytes[i];
            let h = b / 16;
            let l = b % 16;
            let hd: u8 = if h < 10 { 0x30 + h } else { 0x61 + h - 10 };
            let ld: u8 = if l < 10 { 0x30 + l } else { 0x61 + l - 10 };
            out.push(hd);
            out.push(ld);
            proof {
                let next = bytes@.subrange(0, i + 1);
                assert(next.drop_last() =~= bytes@.subrange(0, i as int));
                assert(next.last() == b);
            }
            i = i + 1;
        }
        proof {
            assert(bytes@.subrange(0, 20) =~= bytes@);
            lemma_hex_text_of(bytes@);
            assert(out@.subrange(2, 42) =~= hex_text_of(bytes@));
            assert(address_digits(out@) =~= hex_text_of(bytes@));
            assert forall|i: int| 2 <= i < 42 implies is_lower_hex_digit(#[trigger] out@[i]) by {
                assert(out@[i] == hex_text_of(bytes@)[i - 2]);
            }
        }
        out
    }

    /// `(self + rhs) mod 2^160`.
    pub fn wrapping_add(self, rhs: Did) -> (r: Did)
        ensures
            r.value() == ring_add(self.value(), rhs.value()),
    {
        let t0: u128 = self.lo as u128 + rhs.lo as u128;
        let lo = (t0 % 0x1_0000_0000_0000_0000) as u64;
        let c0: u128 = t0 / 0x1_0000_0000_0000_0000;
        let t1: u128 = self.mid as u128 + rhs.mid as u128 + c0;
        let mid = (t1 % 0x1_0000_0000_0000_0000) as u64;
        let c1: u128 = t1 / 0x1_0000_0000_0000_0000;
        let t2: u64 = self.hi as u64 + rhs.hi as u64 + c1 as u64;
        let hi = (t2 % 0x1_0000_0000) as u32;
        proof {
            assert(self.value() + rhs.value() == t2 as int * top_weight() + mid as int
                * limb_weight() + lo as int);
            lemma_reduce_top(t2 as int, mid as int * limb_weight() + lo as int);
        }
        Did { hi, mid, lo }
    }

    /// `(2^160 - self) mod 2^160`: the additive inverse.
    pub fn wrapping_neg(self) -> (r: Did)
        ensures
            r.value() == ring_neg(self.value()),
    {
        let complement = Did {
            hi: 0xffff_ffff - self.hi,
            mid: 0xffff_ffff_ffff_ffff - self.mid,
            lo: 0xffff_ffff_ffff_ffff - self.lo,
        };
        let one = Did { hi: 0, mid: 0, lo: 1 };
        assert(complement.value() + one.value() == ring_size() - self.value());
        complement.wrapping_add(one)
    }

    /// `self + (-rhs)` on the ring.
    pub fn wrapping_sub(self, rhs: Did) -> (r: Did)
        ensures
            r.value() == ring_sub(self.value(), rhs.value()),
    {
        self.wrapping_add(rhs.wrapping_neg())
    }

    /// Whether `self` is below `other` as unsigned integers.
    pub fn is_less(&self, other: &Did) -> (r: bool)
        ensures
            r == (self.value() < other.value()),
    {
        self.hi < other.hi || (self.hi == other.hi && (self.mid < other.mid || (self.mid
            == other.mid && self.lo < other.lo)))
    }

    /// The identifier that big-endian `bytes` write, reduced modulo 2^160.
    pub fn from_reduced_integer(bytes: &[u8]) -> (r: Did)
        ensures
            r.value() == be_value(bytes@) % ring_size(),
    {
        let mut acc = Did::zero();
        let mut i: usize = 0;
        assert(bytes@.subrange(0, 0) =~= Seq::<u8>::empty());
        assert(be_value(bytes@.subrange(0, 0)) == 0);
        proof {
            lemma_small_mod(0, ring_size() as nat);
        }
        while i < bytes.len()
            invariant
                i <= bytes@.len(),
                acc.value() == be_value(bytes@.subrange(0, i as int)) % ring_size(),
            decreases bytes.len() - i,
        {
            let b = bytes[i];
            let ghost prev = be_value(bytes@.subrange(0, i as int));
            acc = acc.shift_in(256, b as u64);
            proof {
                let next = bytes@.subrange(0, i + 1);
                assert(next.drop_last() =~= bytes@.subrange(0, i as int));
                assert(be_value(next) == prev * 256 + b);
                lemma_mul_mod_noop_left(prev, 256, ring_size());
                lemma_add_mod_noop((prev % ring_size()) * 256, b as int, ring_size());
                lemma_add_mod_noop(prev * 256, b as int, ring_size());
            }
            i = i + 1;
        }
        assert(bytes@.subrange(0, i as int) =~= bytes@);
        acc
    }

    /// The identifier that 20 big-endian bytes write.
    pub fn from_bytes(bytes: &[u8; 20]) -> (r: Did)
        ensures
            r.value() == be_value(bytes@),
    {
        proof {
            lemma_be_value_bound(bytes@);
            lemma_power_256_20();
            lemma_small_mod(be_value(bytes@) as nat, ring_size() as nat);
        }
        Did::from_reduced_integer(bytes)
    }

    /// Reads an identifier written as 40 hexadecimal digits, with or without a
    /// `0x` prefix; either case is accepted.
    pub fn from_hex(text: &str) -> (r: Result<Did, Error>)
        ensures
            r is Ok <==> is_address_text(text.spec_bytes()),
            r matches Ok(d) ==> d.value() == hex_value(address_digits(text.spec_bytes())),
            r matches Err(e) ==> e == Error::BadHex,
    {
        let bytes = text.as_bytes();
        let start: usize = if bytes.len() >= 2 && bytes[0] == 0x30 && bytes[1] == 0x78 {
            2
        } else {
            0
        };
        let ghost digits = address_digits(bytes@);
        assert(digits =~= bytes@.subrange(start as int, bytes@.len() as int));
        if bytes.len() - start != 40 {
            return Err(Error::BadHex);
        }
        let mut acc = Did::zero();
        let mut i: usize = start;
        assert(digits.subrange(0, 0) =~= Seq::<u8>::empty());
        while i < bytes.len()
            invariant
                start <= i <= bytes@.len(),
                bytes@.len() == start + 40,
                bytes@ == text.spec_bytes(),
                digits == address_digits(bytes@),
                digits =~= bytes@.subrange(start as int, bytes@.len() as int),
                forall|j: int| 0 <= j < i - start ==> is_hex_digit(#[trigger] digits[j]),
                acc.value() == hex_value(digits.subrange(0, i - start)),
                hex_value(digits.subrange(0, i - start)) < power(16, (i - start) as nat),
            decreases bytes.len() - i,
        {
            let c = bytes[i];
            let digit = hex_digit(c);
            if digit.is_none() {
                assert(digits[i - start] == c);
                assert(!is_address_text(text.spec_bytes())) by {
                    let k = i - start;
                    if is_address_text(text.spec_bytes()) {
                        assert(is_hex_digit(address_digits(text.spec_bytes())[k]));
                    }
                }
                return Err(Error::BadHex);
            }
            let d = digit.unwrap();
            let ghost prefix = digits.subrange(0, i - start);
            let ghost next = digits.subrange(0, i - start + 1);
            proof {
                assert(digits[i - start] == c);
                assert(next.drop_last() =~= prefix);
                assert(hex_value(next) == hex_value(prefix) * 16 + d);
                assert forall|j: int| 0 <= j < next.len() implies is_hex_digit(#[trigger] next[j]) by {
                    assert(next[j] == digits[j]);
                }
                lemma_hex_value_bound(next);
                lemma_power_monotone(16, next.len(), 40);
                lemma_power_16_40();
                lemma_small_mod((acc.value() * 16 + d) as nat, ring_size() as nat);
            }
            acc = acc.shift_in(16, d);
            i = i + 1;
        }
        assert(digits.subrange(0, 40) =~= digits);
        Ok(acc)
    }
}

impl core::ops::Add for Did {
    type Output = Did;

    fn add(self, rhs: Did) -> (r: Did) {
        let r = self.wrapping_add(rhs);
        proof {
            Did::lemma_from_value(r.value());
            r.lemma_value_injective(Did::from_value(r.value()));
        }
        r
    }
}

impl vstd::std_specs::ops::AddSpecImpl for Did {
    open spec fn obeys_add_spec() -> bool {
        true
    }

    open spec fn add_req(self, rhs: Did) -> bool {
        true
    }

    open spec fn add_spec(self, rhs: Did) -> Did {
        Did::from_value(ring_add(self.value(), rhs.value()))
    }
}

impl core::ops::Neg for Did {
    type Output = Did;

    fn neg(self) -> (r: Did) {
        let r = self.wrapping_neg();
        proof {
            Did::lemma_from_value(r.value());
            r.lemma_value_injective(Did::from_value(r.value()));
        }
        r
    }
}

impl vstd::std_specs::ops::NegSpecImpl for Did {
    open spec fn obeys_neg_spec() -> bool {
        true
    }

    open spec fn neg_req(self) -> bool {
        true
    }

    open spec fn neg_spec(self) -> Did {
        Did::from_value(ring_neg(self.value()))
    }
}

impl core::ops::Sub for Did {
    type Output = Did;

    fn sub(self, rhs: Did) -> (r: Did) {
        let r = self.wrapping_sub(rhs);
        proof {
            Did::lemma_from_value(r.value());
            r.lemma_value_injective(Did::from_value(r.value()));
        }
        r
    }
}

impl vstd::std_specs::ops::SubSpecImpl for Did {
    open spec fn obeys_sub_spec() -> bool {
        true
    }

    open spec fn sub_req(self, rhs: Did) -> bool {
        true
    }

    open spec fn sub_spec(self, rhs: Did) -> Did {
        Did::from_value(ring_sub(self.value(), rhs.value()))
    }
}

impl PartialOrd for Did {
    fn partial_cmp(&self, other: &Did) -> (r: Option<core::cmp::Ordering>) {
        if self.is_less(other) {
            Some(core::cmp::Ordering::Less)
        } else if other.is_less(self) {
            Some(core::cmp::Ordering::Greater)
        } else {
            Some(core::cmp::Ordering::Equal)
        }
    }
}

impl vstd::std_specs::cmp::PartialOrdSpecImpl for Did {
    open spec fn obeys_partial_cmp_spec() -> bool {
        true
    }

    open spec fn partial_cmp_spec(&self, other: &Did) -> Option<core::cmp::Ordering> {
        if self.value() < other.value() {
            Some(core::cmp::Ordering::Less)
        } else if self.value() > other.value() {
            Some(core::cmp::Ordering::Greater)
        } else {
            Some(core::cmp::Ordering::Equal)
        }
    }
}

/// Adding an identifier to its inverse gives zero.
pub proof fn lemma_neg_add_cancels(a: Did)
    ensures
        ring_add(ring_neg(a.value()), a.value()) == 0,
{
    let v = a.value();
    if v == 0 {
        lemma_small_mod(0, ring_size() as nat);
    } else {
        lemma_small_mod((ring_size() - v) as nat, ring_size() as nat);
    }
}

/// Taking the inverse twice gives the identifier back.
pub proof fn lemma_neg_involutive(a: Did)
    ensures
        ring_neg(ring_neg(a.value())) == a.value(),
{
    let v = a.value();
    if v == 0 {
        lemma_small_mod(0, ring_size() as nat);
    } else {
        lemma_small_mod((ring_size() - v) as nat, ring_size() as nat);
        lemma_small_mod(v as nat, ring_size() as nat);
    }
}

/// Addition on the ring does not depend on the order of its operands.
pub proof fn lemma_add_commutative(a: Did, b: Did)
    ensures
        ring_add(a.value(), b.value()) == ring_add(b.value(), a.value()),
{
}

/// Comparison of identifiers is a strict total order, and it is the order of
/// their values as unsigned integers.
pub proof fn lemma_order_total(a: Did, b: Did, c: Did)
    ensures
        a.partial_cmp_spec(&b) == Some(core::cmp::Ordering::Less) <==> a.value() < b.value(),
        a.partial_cmp_spec(&b) == Some(core::cmp::Ordering::Greater) <==> a.value() > b.value(),
        a.partial_cmp_spec(&b) == Some(core::cmp::Ordering::Equal) <==> a == b,
        a.partial_cmp_spec(&a) != Some(core::cmp::Ordering::Less),
        a.partial_cmp_spec(&b) == Some(core::cmp::Ordering::Less) ==> b.partial_cmp_spec(&a)
            == Some(core::cmp::Ordering::Greater),
        a.partial_cmp_spec(&b) == Some(core::cmp::Ordering::Less) && b.partial_cmp_spec(&c)
            == Some(core::cmp::Ordering::Less) ==> a.partial_cmp_spec(&c) == Some(
            core::cmp::Ordering::Less,
        ),
{
    if a.value() == b.value() {
        a.lemma_value_injective(b);
    }
}

impl core::str::FromStr for Did {
    type Err = Error;

    fn from_str(s: &str) -> Result<Did, Error> {
        Did::from_hex(s)
    }
}

} // verus!
