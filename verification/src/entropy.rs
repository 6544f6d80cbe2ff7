//! The 256-bit entropy value and its consumption by division.
//!
//! The key-derivation step produces 32 bytes, read big-endian as one 256-bit
//! unsigned integer.  The password-derivation step then repeatedly divides
//! that integer by small word-sized divisors, using each remainder as an
//! index and keeping the quotient.  The value is held in four 64-bit limbs,
//! least significant first, and the division is ordinary long division over
//! the limbs.

use vstd::prelude::*;
use vstd::arithmetic::div_mod::lemma_fundamental_div_mod;
use vstd::arithmetic::div_mod::lemma_fundamental_div_mod_converse;

verus! {

/// 2^64, the weight of one limb.
pub open spec fn limb_base() -> nat {
    0x10000000000000000
}

/// A 256-bit unsigned integer, consumed as a depletable randomness source.
/// `w0` is the least significant limb.
pub struct Entropy {
    pub w0: u64,
    pub w1: u64,
    pub w2: u64,
    pub w3: u64,
}

impl Entropy {
    /// The number this value stands for.
    pub open spec fn as_nat(self) -> nat {
        self.w0 as nat + (self.w1 as nat) * limb_base() + (self.w2 as nat) * limb_base()
            * limb_base() + (self.w3 as nat) * limb_base() * limb_base() * limb_base()
    }
}

/// One step of long division: divide `rem * 2^64 + limb` by `d`.
fn div_step(rem: u64, limb: u64, d: u64) -> (qr: (u64, u64))
    requires
        0 < d,
        rem < d,
    ensures
        qr.0 as nat * d as nat + qr.1 as nat == rem as nat * limb_base() + limb as nat,
        qr.1 < d,
{
    proof {
        assert((rem as nat) * limb_base() <= 0xffffffffffffffff * 0x10000000000000000)
            by (nonlinear_arith)
            requires
                rem <= 0xffffffffffffffffu64,
        ;
    }
    let cur: u128 = (rem as u128) * 0x10000000000000000u128 + (limb as u128);
    let q: u128 = cur / (d as u128);
    let r: u128 = cur % (d as u128);
    proof {
        lemma_fundamental_div_mod(cur as int, d as int);
        assert(cur < (d as nat) * limb_base()) by (nonlinear_arith)
            requires
                cur as nat == rem as nat * limb_base() + limb as nat,
                rem < d,
                (limb as nat) < limb_base(),
        ;
        assert(q < limb_base()) by (nonlinear_arith)
            requires
                q == cur as int / d as int,
                cur as int == (q as int) * (d as int) + (r as int),
                0 <= (r as int) < (d as int),
                (cur as nat) < (d as nat) * limb_base(),
                0 < d,
        ;
    }
    (q as u64, r as u64)
}

/// The combination step of long division: four chained limb divisions give
/// the quotient limbs and the final remainder of the whole 256-bit value.
/// Multiplying a division identity through by a weight `m`.
proof fn lemma_scale(q: nat, r: nat, s: nat, w: nat, d: nat, x: nat, m: nat)
    requires
        q * d + r == s * x + w,
    ensures
        (q * m) * d + r * m == s * (x * m) + w * m,
{
    assert((q * m) * d + r * m == s * (x * m) + w * m) by (nonlinear_arith)
        requires
            q * d + r == s * x + w,
    ;
}

/// The combination step of long division: four chained limb divisions give
/// the quotient limbs and the final remainder of the whole 256-bit value.
proof fn lemma_div_combine(
    w0: nat,
    w1: nat,
    w2: nat,
    w3: nat,
    q0: nat,
    q1: nat,
    q2: nat,
    q3: nat,
    r0: nat,
    r1: nat,
    r2: nat,
    r3: nat,
    d: nat,
)
    requires
        q3 * d + r3 == w3,
        q2 * d + r2 == r3 * limb_base() + w2,
        q1 * d + r1 == r2 * limb_base() + w1,
        q0 * d + r0 == r1 * limb_base() + w0,
    ensures
        (q0 + q1 * limb_base() + q2 * limb_base() * limb_base() + q3 * limb_base() * limb_base()
            * limb_base()) * d + r0 == w0 + w1 * limb_base() + w2 * limb_base() * limb_base() + w3
            * limb_base() * limb_base() * limb_base(),
{
    let b = limb_base();
    // Scale each limb identity by the weight of its position.
    lemma_scale(q3, r3, 0, w3, d, b, b * (b * b));
    lemma_scale(q2, r2, r3, w2, d, b, b * b);
    lemma_scale(q1, r1, r2, w1, d, b, b);
    assert((q3 * (b * (b * b))) * d + r3 * (b * (b * b)) == w3 * (b * (b * b)));
    assert((q2 * (b * b)) * d + r2 * (b * b) == r3 * (b * (b * b)) + w2 * (b * b));
    assert((q1 * b) * d + r1 * b == r2 * (b * b) + w1 * b);
    // Summing the four cancels the intermediate remainders.
    assert(q0 * d + (q1 * b) * d + (q2 * (b * b)) * d + (q3 * (b * (b * b))) * d + r0 == w0 + w1
        * b + w2 * (b * b) + w3 * (b * (b * b)));
    // Fold the quotient sum back into a single product.
    assert((q0 + q1 * b + q2 * (b * b) + q3 * (b * (b * b))) * d == q0 * d + (q1 * b) * d + (q2 * (b
        * b)) * d + (q3 * (b * (b * b))) * d) by (nonlinear_arith);
    // Normalise the association of the weights.
    assert(q2 * (b * b) == q2 * b * b) by (nonlinear_arith);
    assert(q3 * (b * (b * b)) == q3 * b * b * b) by (nonlinear_arith);
    assert(w2 * (b * b) == w2 * b * b) by (nonlinear_arith);
    assert(w3 * (b * (b * b)) == w3 * b * b * b) by (nonlinear_arith);
    assert((q0 + q1 * b + q2 * (b * b) + q3 * (b * (b * b))) == (q0 + q1 * b + q2 * b * b + q3 * b
        * b * b));
}

impl Entropy {
    /// Divide by `d`: the quotient replaces the value, the remainder is the
    /// drawn index.
    pub fn div_rem(self, d: u64) -> (qr: (Entropy, u64))
        requires
            0 < d,
        ensures
            qr.0.as_nat() == self.as_nat() / d as nat,
            qr.1 as nat == self.as_nat() % d as nat,
            qr.1 < d,
    {
        let (q3, r3) = div_step(0, self.w3, d);
        let (q2, r2) = div_step(r3, self.w2, d);
        let (q1, r1) = div_step(r2, self.w1, d);
        let (q0, r0) = div_step(r1, self.w0, d);
        let q = Entropy { w0: q0, w1: q1, w2: q2, w3: q3 };
        proof {
            lemma_div_combine(
                self.w0 as nat,
                self.w1 as nat,
                self.w2 as nat,
                self.w3 as nat,
                q0 as nat,
                q1 as nat,
                q2 as nat,
                q3 as nat,
                r0 as nat,
                r1 as nat,
                r2 as nat,
                r3 as nat,
                d as nat,
            );
            lemma_fundamental_div_mod_converse(
                self.as_nat() as int,
                d as int,
                q.as_nat() as int,
                r0 as int,
            );
        }
        (q, r0)
    }
}

/// The number that a byte sequence stands for, read big-endian.
pub open spec fn be_nat(s: Seq<u8>) -> nat
    decreases s.len(),
{
    if s.len() == 0 {
        0
    } else {
        be_nat(s.drop_last()) * 256 + s.last() as nat
    }
}

/// 256^k, the weight of `k` trailing bytes.
pub open spec fn pow256(k: nat) -> nat
    decreases k,
{
    if k == 0 {
        1
    } else {
        256 * pow256((k - 1) as nat)
    }
}

/// Reading a concatenation big-endian weighs the left part by 256 to the
/// length of the right part.
pub proof fn lemma_be_nat_concat(a: Seq<u8>, b: Seq<u8>)
    ensures
        be_nat(a + b) == be_nat(a) * pow256(b.len()) + be_nat(b),
    decreases b.len(),
{
    if b.len() == 0 {
        assert(a + b =~= a);
        assert(pow256(0) == 1);
        assert(be_nat(b) == 0);
    } else {
        let b1 = b.drop_last();
        lemma_be_nat_concat(a, b1);
        assert(pow256(b.len()) == 256 * pow256(b1.len()));
        assert((a + b).drop_last() =~= a + b1);
        assert((a + b).last() == b.last());
        assert(be_nat(b) == be_nat(b1) * 256 + b.last() as nat);
        assert(be_nat(a + b) == be_nat(a + b1) * 256 + b.last() as nat);
        assert(be_nat(a) * pow256(b1.len()) * 256 == be_nat(a) * pow256(b.len()))
            by (nonlinear_arith)
            requires
                pow256(b.len()) == 256 * pow256(b1.len()),
        ;
        assert((be_nat(a) * pow256(b1.len()) + be_nat(b1)) * 256 == be_nat(a) * pow256(b1.len())
            * 256 + be_nat(b1) * 256) by (nonlinear_arith);
    }
}

/// The concrete weights of up to eight trailing bytes.
proof fn lemma_pow256_values()
    ensures
        pow256(0) == 1,
        pow256(1) == 256,
        pow256(2) == 0x10000,
        pow256(3) == 0x1000000,
        pow256(4) == 0x100000000,
        pow256(5) == 0x10000000000,
        pow256(6) == 0x1000000000000,
        pow256(7) == 0x100000000000000,
        pow256(8) == limb_base(),
{
    assert(pow256(0) == 1);
    assert(pow256(1) == 256);
    assert(pow256(2) == 0x10000);
    assert(pow256(3) == 0x1000000);
    assert(pow256(4) == 0x100000000);
    assert(pow256(5) == 0x10000000000);
    assert(pow256(6) == 0x1000000000000);
    assert(pow256(7) == 0x100000000000000);
    assert(pow256(8) == 0x10000000000000000);
}

/// Read eight bytes of `bytes`, starting at `start`, as one big-endian limb.
fn limb_from_be(bytes: &Vec<u8>, start: usize) -> (x: u64)
    requires
        start + 8 <= bytes@.len(),
    ensures
        x as nat == be_nat(bytes@.subrange(start as int, start as int + 8)),
{
    let n = bytes.len();
    let mut x: u64 = 0;
    let mut i: usize = 0;
    while i < 8
        invariant
            i <= 8,
            start + 8 <= n,
            n == bytes@.len(),
            x as nat == be_nat(bytes@.subrange(start as int, start as int + i)),
            (x as nat) < pow256(i as nat),
        decreases 8 - i,
    {
        proof {
            lemma_pow256_values();
            let pre = bytes@.subrange(start as int, start as int + i);
            let post = bytes@.subrange(start as int, start as int + i + 1);
            assert(post.drop_last() =~= pre);
            assert(post.last() == bytes@[start + i]);
            assert(pow256((i + 1) as nat) == 256 * pow256(i as nat));
            assert(pow256(i as nat) <= 0x100000000000000);
        }
        x = x * 256 + (bytes[start + i] as u64);
        i += 1;
    }
    x
}

/// Pack 32 bytes, big-endian, into a 256-bit value.
pub fn from_be_bytes(bytes: &Vec<u8>) -> (e: Entropy)
    requires
        bytes@.len() == 32,
    ensures
        e.as_nat() == be_nat(bytes@),
{
    let w3 = limb_from_be(bytes, 0);
    let w2 = limb_from_be(bytes, 8);
    let w1 = limb_from_be(bytes, 16);
    let w0 = limb_from_be(bytes, 24);
    let e = Entropy { w0, w1, w2, w3 };
    proof {
        lemma_pow256_values();
        let s = bytes@;
        let p3 = s.subrange(0, 8);
        let p2 = s.subrange(8, 16);
        let p1 = s.subrange(16, 24);
        let p0 = s.subrange(24, 32);
        assert(s =~= (p3 + p2) + (p1 + p0));
        lemma_be_nat_concat(p3, p2);
        lemma_be_nat_concat(p1, p0);
        lemma_be_nat_concat(p3 + p2, p1 + p0);
        lemma_pow256_pair();
        let b = limb_base();
        assert(be_nat(s) == (w3 * b + w2) * (b * b) + (w1 * b + w0));
        assert((w3 * b + w2) * (b * b) + (w1 * b + w0) == w0 + w1 * b + w2 * b * b + w3 * b * b
            * b) by (nonlinear_arith);
    }
    e
}

/// 256^16 is the square of the limb weight.
proof fn lemma_pow256_pair()
    ensures
        pow256(16) == limb_base() * limb_base(),
{
    assert(pow256(0) == 1);
    assert(pow256(1) == 256);
    assert(pow256(2) == 0x10000);
    assert(pow256(3) == 0x1000000);
    assert(pow256(4) == 0x100000000);
    assert(pow256(5) == 0x10000000000);
    assert(pow256(6) == 0x1000000000000);
    assert(pow256(7) == 0x100000000000000);
    assert(pow256(8) == 0x10000000000000000);
    assert(pow256(9) == 0x1000000000000000000);
    assert(pow256(10) == 0x100000000000000000000);
    assert(pow256(11) == 0x10000000000000000000000);
    assert(pow256(12) == 0x1000000000000000000000000);
    assert(pow256(13) == 0x100000000000000000000000000);
    assert(pow256(14) == 0x10000000000000000000000000000);
    assert(pow256(15) == 0x1000000000000000000000000000000);
    assert(pow256(16) == 0x100000000000000000000000000000000);
    assert(limb_base() * limb_base() == 0x100000000000000000000000000000000) by (nonlinear_arith);
}

} // verus!
