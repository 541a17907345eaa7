//! 256-bit unsigned integers as two 128-bit limbs, and their big-endian
//! 32-byte encoding.

use vstd::prelude::*;

verus! {

/// The weight of the high limb: 2^128.
pub open spec fn limb_base() -> nat {
    0x1_0000_0000_0000_0000_0000_0000_0000_0000nat
}

/// The number of 256-bit values: 2^256.
pub open spec fn word_space() -> nat {
    0x1_0000_0000_0000_0000_0000_0000_0000_0000_0000_0000_0000_0000_0000_0000_0000_0000nat
}

/// 256^n.
pub open spec fn pow256(n: nat) -> nat
    decreases n,
{
    if n == 0 {
        1
    } else {
        256 * pow256((n - 1) as nat)
    }
}

/// The number that a byte string denotes, most significant byte first.
pub open spec fn be_value(s: Seq<u8>) -> nat
    decreases s.len(),
{
    if s.len() == 0 {
        0
    } else {
        be_value(s.drop_last()) * 256 + s.last() as nat
    }
}

/// 256^16 is the weight of the high limb.
pub proof fn lemma_pow256_limb()
    ensures
        pow256(16) == limb_base(),
{
    reveal_with_fuel(pow256, 17);
}

/// The powers of 256 are positive and grow with the exponent.
pub proof fn lemma_pow256_le(i: nat, j: nat)
    requires
        i <= j,
    ensures
        1 <= pow256(i) <= pow256(j),
    decreases j,
{
    if j == 0 {
    } else if i == j {
        lemma_pow256_le(0, (j - 1) as nat);
    } else {
        lemma_pow256_le(i, (j - 1) as nat);
    }
}

/// A byte string of length n denotes a number below 256^n.
pub proof fn lemma_be_value_bound(s: Seq<u8>)
    ensures
        be_value(s) < pow256(s.len()),
    decreases s.len(),
{
    if s.len() > 0 {
        lemma_be_value_bound(s.drop_last());
    }
}

/// The value of a concatenation: the left part is shifted by the length of
/// the right part.
pub proof fn lemma_be_value_concat(a: Seq<u8>, b: Seq<u8>)
    ensures
        be_value(a + b) == be_value(a) * pow256(b.len()) + be_value(b),
    decreases b.len(),
{
    if b.len() == 0 {
        assert(a + b =~= a);
        assert(pow256(b.len()) == 1);
        assert(be_value(a) * 1 == be_value(a));
    } else {
        let init = b.drop_last();
        lemma_be_value_concat(a, init);
        assert((a + b).drop_last() =~= a + init);
        assert((a + b).last() == b.last());
        let x = be_value(a);
        let p = pow256(init.len());
        let y = be_value(init);
        assert((x * p + y) * 256 == x * (256 * p) + y * 256) by (nonlinear_arith);
        assert(be_value(a + b) == be_value(a + init) * 256 + b.last() as nat);
        assert(be_value(b) == y * 256 + b.last() as nat);
        assert(pow256(b.len()) == 256 * p);
        assert(be_value(a + b) == x * (256 * p) + be_value(b));
    }
}

/// Two byte strings of one length that denote the same number are equal.
pub proof fn lemma_be_value_injective(a: Seq<u8>, b: Seq<u8>)
    requires
        a.len() == b.len(),
        be_value(a) == be_value(b),
    ensures
        a == b,
    decreases a.len(),
{
    if a.len() > 0 {
        lemma_be_value_injective(a.drop_last(), b.drop_last());
        assert(a =~= a.drop_last().push(a.last()));
        assert(b =~= b.drop_last().push(b.last()));
    } else {
        assert(a =~= b);
    }
}

/// A 256-bit unsigned integer: `hi * 2^128 + lo`.
#[derive(Clone, Copy, Debug)]
pub struct U256 {
    pub hi: u128,
    pub lo: u128,
}

impl U256 {
    /// The number that the two limbs denote.
    pub open spec fn val(self) -> nat {
        self.hi as nat * 0x1_0000_0000_0000_0000_0000_0000_0000_0000nat + self.lo as nat
    }

    /// The number 0.
    pub fn zero() -> (r: U256)
        ensures
            r.val() == 0,
    {
        U256 { hi: 0, lo: 0 }
    }

    /// The number 1.
    pub fn one() -> (r: U256)
        ensures
            r.val() == 1,
    {
        U256 { hi: 0, lo: 1 }
    }

    /// Whether `self` is at least `o`.
    pub fn ge(&self, o: &U256) -> (r: bool)
        ensures
            r == (self.val() >= o.val()),
    {
        self.hi > o.hi || (self.hi == o.hi && self.lo >= o.lo)
    }

    /// Whether `self` is 0.
    pub fn is_zero(&self) -> (r: bool)
        ensures
            r == (self.val() == 0),
    {
        self.hi == 0 && self.lo == 0
    }

    /// Whether `self` and `o` are the same number.
    pub fn same(&self, o: &U256) -> (r: bool)
        ensures
            r == (self.val() == o.val()),
    {
        self.hi == o.hi && self.lo == o.lo
    }

    /// The difference, where it is not negative.
    pub fn minus(&self, o: &U256) -> (r: U256)
        requires
            self.val() >= o.val(),
        ensures
            r.val() == self.val() - o.val(),
    {
        if self.lo >= o.lo {
            U256 { hi: self.hi - o.hi, lo: self.lo - o.lo }
        } else {
            U256 { hi: self.hi - o.hi - 1, lo: (u128::MAX - o.lo) + self.lo + 1 }
        }
    }

    /// The sum, where it fits in 256 bits.
    pub fn plus(&self, o: &U256) -> (r: U256)
        requires
            self.val() + o.val() < word_space(),
        ensures
            r.val() == self.val() + o.val(),
    {
        let room: u128 = u128::MAX - self.lo;
        if o.lo <= room {
            U256 { hi: self.hi + o.hi, lo: self.lo + o.lo }
        } else {
            U256 { hi: self.hi + o.hi + 1, lo: o.lo - room - 1 }
        }
    }

    /// Shifts left by one bit and hands out the bit that leaves at the top.
    pub fn split_top(&self) -> (r: (bool, U256))
        ensures
            2 * self.val() == (if r.0 { word_space() } else { 0 }) + r.1.val(),
    {
        let half: u128 = 0x8000_0000_0000_0000_0000_0000_0000_0000;
        let top = self.hi >= half;
        let h: u128 = if top { self.hi - half } else { self.hi };
        let carry = self.lo >= half;
        let l: u128 = if carry { self.lo - half } else { self.lo };
        let c: u128 = if carry { 1 } else { 0 };
        (top, U256 { hi: h * 2 + c, lo: l * 2 })
    }
}

/// Reads the 16 bytes from `start` on as one limb, most significant byte first.
fn limb_from_bytes(bytes: &[u8; 32], start: usize) -> (r: u128)
    requires
        start == 0 || start == 16,
    ensures
        r as nat == be_value(bytes@.subrange(start as int, start + 16)),
{
    let mut acc: u128 = 0;
    let mut i: usize = 0;
    while i < 16
        invariant
            i <= 16,
            start == 0 || start == 16,
            acc as nat == be_value(bytes@.subrange(start as int, start + i)),
        decreases 16 - i,
    {
        proof {
            let s = bytes@.subrange(start as int, start + i);
            lemma_be_value_bound(s);
            lemma_pow256_le(i as nat, 15);
            lemma_pow256_limb();
            assert(pow256(16) == 256 * pow256(15));
            let t = bytes@.subrange(start as int, start + i + 1);
            assert(t.drop_last() =~= s);
            assert(t.last() == bytes@[start + i]);
        }
        acc = acc * 256 + bytes[start + i] as u128;
        i += 1;
    }
    acc
}

/// Writes one limb to the 16 bytes from `start` on, most significant byte first.
fn limb_to_bytes(x: u128, out: &mut [u8; 32], start: usize)
    requires
        start == 0 || start == 16,
    ensures
        be_value(final(out)@.subrange(start as int, start + 16)) == x as nat,
        forall|j: int|
            0 <= j < 32 && !(start <= j < start + 16) ==> final(out)@[j] == old(out)@[j],
{
    let mut rem: u128 = x;
    let mut k: usize = 0;
    proof {
        assert(pow256(0) == 1);
        assert(rem as nat * 1 == rem as nat);
        assert(out@.subrange(start + 16, start + 16).len() == 0);
    }
    while k < 16
        invariant
            k <= 16,
            start == 0 || start == 16,
            x as nat == rem as nat * pow256(k as nat) + be_value(
                out@.subrange(start + 16 - k, start + 16),
            ),
            forall|j: int| 0 <= j < 32 && !(start <= j < start + 16) ==> out@[j] == old(out)@[j],
        decreases 16 - k,
    {
        let ghost before = out@;
        let b: u8 = (rem % 256) as u8;
        out[start + 15 - k] = b;
        proof {
            let s = before.subrange(start + 16 - k, start + 16);
            let t = out@.subrange(start + 15 - k, start + 16);
            assert(t =~= seq![b] + s);
            assert(out@.subrange(start + 16 - k, start + 16) =~= s);
            lemma_be_value_concat(seq![b], s);
            assert(be_value(seq![b]) == b as nat) by {
                reveal_with_fuel(be_value, 2);
                assert(seq![b].drop_last().len() == 0);
            }
            let p = pow256(k as nat);
            assert(rem as nat * p == (rem as nat / 256) * (256 * p) + (b as nat) * p)
                by (nonlinear_arith)
                requires
                    rem as nat == (rem as nat / 256) * 256 + b as nat,
            ;
        }
        rem = rem / 256;
        k += 1;
    }
    proof {
        lemma_pow256_limb();
        assert(rem == 0) by (nonlinear_arith)
            requires
                rem as nat * limb_base() <= x as nat,
                (x as nat) < limb_base(),
        ;
    }
}

impl U256 {
    /// The number that 32 bytes denote, most significant byte first.
    pub fn from_be_bytes(bytes: &[u8; 32]) -> (r: U256)
        ensures
            r.val() == be_value(bytes@),
    {
        let hi = limb_from_bytes(bytes, 0);
        let lo = limb_from_bytes(bytes, 16);
        proof {
            let a = bytes@.subrange(0, 16);
            let b = bytes@.subrange(16, 32);
            assert(bytes@ =~= a + b);
            lemma_be_value_concat(a, b);
            lemma_pow256_limb();
        }
        U256 { hi, lo }
    }

    /// The 32 bytes that denote this number, most significant byte first.
    pub fn to_be_bytes(&self) -> (out: [u8; 32])
        ensures
            be_value(out@) == self.val(),
    {
        let mut out: [u8; 32] = [0u8; 32];
        limb_to_bytes(self.hi, &mut out, 0);
        let ghost mid = out@;
        limb_to_bytes(self.lo, &mut out, 16);
        proof {
            let a = out@.subrange(0, 16);
            let b = out@.subrange(16, 32);
            assert(a =~= mid.subrange(0, 16));
            assert(out@ =~= a + b);
            lemma_be_value_concat(a, b);
            lemma_pow256_limb();
        }
        out
    }
}

} // verus!
