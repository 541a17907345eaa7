//! Field elements of the 256-bit prime field, and the bounded records of a
//! multi-call transaction that hold them.

use crate::bignum::{
    be_value, lemma_be_value_concat, lemma_be_value_injective, limb_base, pow256, U256,
};
use crate::modular::{
    add_mod, div_rem, gcd, invert_mod, lemma_inverse_needs_coprime, mul_mod, reduce, sub_mod,
};
use vstd::arithmetic::div_mod::*;
use vstd::prelude::*;

verus! {

/// The prime modulus of the field: 2^251 + 17 * 2^192 + 1.
pub open spec fn field_prime() -> nat {
    0x0800_0000_0000_0011_0000_0000_0000_0000_0000_0000_0000_0000_0000_0000_0000_0001nat
}

/// `(a + b) mod P`.
pub open spec fn field_add(a: nat, b: nat) -> nat {
    (a + b) % field_prime()
}

/// `(a - b) mod P`, the least residue that is not negative.
pub open spec fn field_sub(a: nat, b: nat) -> nat {
    ((a as int - b as int) % (field_prime() as int)) as nat
}

/// `(a * b) mod P`.
pub open spec fn field_mul(a: nat, b: nat) -> nat {
    (a * b) % field_prime()
}

/// `a mod m`, for any modulus `m`, and 0 where `m` is zero.
pub open spec fn field_rem(a: nat, m: nat) -> nat {
    if m == 0 {
        0
    } else {
        a % m
    }
}

/// The integer quotient of `a` by `m`, and 0 where `m` is zero.
pub open spec fn integer_quotient(a: nat, m: nat) -> nat {
    if m == 0 {
        0
    } else {
        a / m
    }
}

/// Whether `r` is the inverse of `a` in the field: reduced, and with the
/// product 1.
pub open spec fn is_inverse(a: nat, r: nat) -> bool {
    r < field_prime() && field_mul(a, r) == 1
}

/// Whether `a` has an inverse in the field.
pub open spec fn has_inverse(a: nat) -> bool {
    exists|r: nat| is_inverse(a, r)
}

/// The inverse of `a` in the field, and 0 where `a` has none.
pub open spec fn field_inverse(a: nat) -> nat {
    if has_inverse(a) {
        choose|r: nat| is_inverse(a, r)
    } else {
        0
    }
}

/// The product of `a` and the inverse of `b`, modulo P.
pub open spec fn field_div(a: nat, b: nat) -> nat {
    field_mul(a, field_inverse(b))
}

/// The 32 bytes that denote `n`, most significant byte first.
pub open spec fn bytes_of(n: nat) -> [u8; 32] {
    choose|v: [u8; 32]| be_value(v@) == n
}

/// The field element whose bytes denote `n`.
pub open spec fn element_of(n: nat) -> FieldElement {
    FieldElement { value: bytes_of(n) }
}

/// 32 bytes are the bytes of the number that they denote.
pub proof fn lemma_bytes_of_value(v: [u8; 32])
    ensures
        bytes_of(be_value(v@)) == v,
{
    let w = bytes_of(be_value(v@));
    assert(be_value(w@) == be_value(v@));
    lemma_be_value_injective(w@, v@);
    assert(w =~= v);
}

/// A byte string of zeros denotes zero.
pub proof fn lemma_be_value_zero(s: Seq<u8>)
    requires
        forall|i: int| 0 <= i < s.len() ==> s[i] == 0,
    ensures
        be_value(s) == 0,
    decreases s.len(),
{
    if s.len() > 0 {
        lemma_be_value_zero(s.drop_last());
    }
}

/// An element of the field: 32 bytes, most significant byte first.
#[derive(Debug, Copy, Clone)]
pub struct FieldElement {
    pub value: [u8; 32],
}

impl View for FieldElement {
    type V = nat;

    /// The number that the 32 bytes denote.
    open spec fn view(&self) -> nat {
        be_value(self.value@)
    }
}

impl PartialEq for FieldElement {
    /// Two elements are equal where their 32 bytes are.
    fn eq(&self, other: &FieldElement) -> (r: bool) {
        let mut i: usize = 0;
        while i < 32
            invariant
                i <= 32,
                forall|j: int| 0 <= j < i ==> self.value@[j] == other.value@[j],
            decreases 32 - i,
        {
            if self.value[i] != other.value[i] {
                return false;
            }
            i += 1;
        }
        proof {
            assert(self.value@ =~= other.value@);
        }
        true
    }
}

impl vstd::std_specs::cmp::PartialEqSpecImpl for FieldElement {
    open spec fn obeys_eq_spec() -> bool {
        true
    }

    open spec fn eq_spec(&self, other: &FieldElement) -> bool {
        self.value@ == other.value@
    }
}

impl Eq for FieldElement {

}

/// The modulus as a 256-bit integer.
fn prime() -> (p: U256)
    ensures
        p.val() == field_prime(),
        p.val() > 2,
{
    U256 { hi: 0x0800_0000_0000_0011_0000_0000_0000_0000, lo: 1 }
}

impl FieldElement {
    /// The element 0: all bytes zero.
    pub fn zero() -> (r: FieldElement)
        ensures
            r == FieldElement::zeroed(),
            r@ == 0,
            forall|i: int| 0 <= i < 32 ==> r.value@[i] == 0,
    {
        FieldElement::new()
    }

    /// The element 1: only the last byte set, to 1.
    pub fn one() -> (r: FieldElement)
        ensures
            r == element_of(1),
            r@ == 1,
            r.value@[31] == 1,
            forall|i: int| 0 <= i < 31 ==> r.value@[i] == 0,
    {
        FieldElement::from_low_byte(1)
    }

    /// The element 2: only the last byte set, to 2.
    pub fn two() -> (r: FieldElement)
        ensures
            r == element_of(2),
            r@ == 2,
            r.value@[31] == 2,
            forall|i: int| 0 <= i < 31 ==> r.value@[i] == 0,
    {
        FieldElement::from_low_byte(2)
    }

    /// The tag of an invocation: the ASCII letters of "invoke" in the last
    /// six bytes, zeros before them.
    pub fn invoke() -> (r: FieldElement)
        ensures
            r.value@.subrange(26, 32) == seq![0x69u8, 0x6eu8, 0x76u8, 0x6fu8, 0x6bu8, 0x65u8],
            forall|i: int| 0 <= i < 26 ==> r.value@[i] == 0,
            r@ == 0x696e_766f_6b65,
            r == element_of(0x696e_766f_6b65),
    {
        let r = FieldElement {
            value: [
                0x00, 0x00, 0x00, 0x00, 0x00, 0x00, 0x00, 0x00, 0x00, 0x00, 0x00, 0x00, 0x00, 0x00,
                0x00, 0x00, 0x00, 0x00, 0x00, 0x00, 0x00, 0x00, 0x00, 0x00, 0x00, 0x00, 0x69, 0x6e,
                0x76, 0x6f, 0x6b, 0x65,
            ],
        };
        proof {
            let head = r.value@.subrange(0, 26);
            let tail = r.value@.subrange(26, 32);
            assert(tail =~= seq![0x69u8, 0x6eu8, 0x76u8, 0x6fu8, 0x6bu8, 0x65u8]);
            assert(r.value@ =~= head + tail);
            lemma_be_value_zero(head);
            lemma_be_value_concat(head, tail);
            assert(0 * pow256(tail.len()) == 0);
            let t5 = tail.drop_last();
            let t4 = t5.drop_last();
            let t3 = t4.drop_last();
            let t2 = t3.drop_last();
            let t1 = t2.drop_last();
            let t0 = t1.drop_last();
            assert(t0.len() == 0);
            assert(be_value(t0) == 0);
            assert(t1.last() == 0x69u8);
            assert(t2.last() == 0x6eu8);
            assert(t3.last() == 0x76u8);
            assert(t4.last() == 0x6fu8);
            assert(t5.last() == 0x6bu8);
            assert(tail.last() == 0x65u8);
            assert(be_value(t1) == 0x69);
            assert(be_value(t2) == 0x696e);
            assert(be_value(t3) == 0x696e_76);
            assert(be_value(t4) == 0x696e_766f);
            assert(be_value(t5) == 0x696e_766f_6b);
            assert(be_value(tail) == 0x696e_766f_6b65);
            lemma_bytes_of_value(r.value);
        }
        r
    }

    /// The element whose last byte is `data` and whose other bytes are zero.
    fn from_low_byte(data: u8) -> (r: FieldElement)
        ensures
            r == element_of(data as nat),
            r@ == data as nat,
            r.value@[31] == data,
            forall|i: int| 0 <= i < 31 ==> r.value@[i] == 0,
    {
        let mut v: [u8; 32] = [0u8; 32];
        v[31] = data;
        let r = FieldElement { value: v };
        proof {
            lemma_be_value_zero(v@.drop_last());
            lemma_bytes_of_value(v);
        }
        r
    }

    /// The element with the bytes `value`.
    pub open spec fn of_bytes(value: [u8; 32]) -> FieldElement {
        FieldElement { value }
    }

    /// The element with all bytes zero.
    pub open spec fn zeroed() -> FieldElement {
        element_of(0)
    }

    /// Whether the element is reduced: below the modulus.
    pub open spec fn is_reduced(&self) -> bool {
        self@ < field_prime()
    }

    /// The element zero.
    pub fn new() -> (r: FieldElement)
        ensures
            r == FieldElement::zeroed(),
            r@ == 0,
            forall|i: int| 0 <= i < 32 ==> r.value@[i] == 0,
    {
        let r = FieldElement { value: [0u8; 32] };
        proof {
            lemma_be_value_zero(r.value@);
            lemma_bytes_of_value(r.value);
        }
        r
    }

    /// Sets every byte to zero.
    pub fn clear(&mut self)
        ensures
            *final(self) == FieldElement::zeroed(),
            final(self)@ == 0,
            forall|i: int| 0 <= i < 32 ==> final(self).value@[i] == 0,
    {
        *self = FieldElement::new();
    }

    /// Takes over the bytes of `f`.
    pub fn copy_from(&mut self, f: &FieldElement)
        ensures
            *final(self) == *f,
    {
        self.value = f.value;
    }

    /// The element that a 256-bit integer denotes.
    pub fn from_u256(x: &U256) -> (r: FieldElement)
        ensures
            r@ == x.val(),
            r == element_of(x.val()),
    {
        let r = FieldElement { value: x.to_be_bytes() };
        proof {
            lemma_bytes_of_value(r.value);
        }
        r
    }

    /// The element as a 256-bit integer.
    pub fn to_u256(&self) -> (x: U256)
        ensures
            x.val() == self@,
    {
        U256::from_be_bytes(&self.value)
    }
}

impl<'a, 'b> core::ops::Add<&'b FieldElement> for &'a FieldElement {
    type Output = FieldElement;

    /// The sum in the field.
    fn add(self, other: &'b FieldElement) -> (r: FieldElement)
        ensures
            r@ == field_add(self@, other@),
    {
        self.sum(other)
    }
}

impl<'a, 'b> vstd::std_specs::ops::AddSpecImpl<&'b FieldElement> for &'a FieldElement {
    open spec fn obeys_add_spec() -> bool {
        true
    }

    open spec fn add_req(self, other: &'b FieldElement) -> bool {
        true
    }

    open spec fn add_spec(self, other: &'b FieldElement) -> FieldElement {
        element_of(field_add(self@, other@))
    }
}

impl<'a, 'b> core::ops::Sub<&'b FieldElement> for &'a FieldElement {
    type Output = FieldElement;

    /// The difference in the field.
    fn sub(self, other: &'b FieldElement) -> (r: FieldElement)
        ensures
            r@ == field_sub(self@, other@),
    {
        self.difference(other)
    }
}

impl<'a, 'b> vstd::std_specs::ops::SubSpecImpl<&'b FieldElement> for &'a FieldElement {
    open spec fn obeys_sub_spec() -> bool {
        true
    }

    open spec fn sub_req(self, other: &'b FieldElement) -> bool {
        true
    }

    open spec fn sub_spec(self, other: &'b FieldElement) -> FieldElement {
        element_of(field_sub(self@, other@))
    }
}

impl<'a, 'b> core::ops::Mul<&'b FieldElement> for &'a FieldElement {
    type Output = FieldElement;

    /// The product in the field.
    fn mul(self, other: &'b FieldElement) -> (r: FieldElement)
        ensures
            r@ == field_mul(self@, other@),
    {
        self.product(other)
    }
}

impl<'a, 'b> vstd::std_specs::ops::MulSpecImpl<&'b FieldElement> for &'a FieldElement {
    open spec fn obeys_mul_spec() -> bool {
        true
    }

    open spec fn mul_req(self, other: &'b FieldElement) -> bool {
        true
    }

    open spec fn mul_spec(self, other: &'b FieldElement) -> FieldElement {
        element_of(field_mul(self@, other@))
    }
}

impl<'a, 'b> core::ops::Rem<&'b FieldElement> for &'a FieldElement {
    type Output = FieldElement;

    /// The remainder of `self` by `other`, which need not be the field's
    /// modulus. Where `other` is zero, the remainder is 0.
    fn rem(self, other: &'b FieldElement) -> (r: FieldElement)
        ensures
            r@ == field_rem(self@, other@),
    {
        self.remainder(other)
    }
}

impl<'a, 'b> vstd::std_specs::ops::RemSpecImpl<&'b FieldElement> for &'a FieldElement {
    open spec fn obeys_rem_spec() -> bool {
        true
    }

    open spec fn rem_req(self, other: &'b FieldElement) -> bool {
        true
    }

    open spec fn rem_spec(self, other: &'b FieldElement) -> FieldElement {
        element_of(field_rem(self@, other@))
    }
}

impl<'a, 'b> core::ops::Div<&'b FieldElement> for &'a FieldElement {
    type Output = FieldElement;

    /// The quotient in the field: the product with the inverse of `other`.
    /// Where `other` is a multiple of the modulus, the quotient is 0.
    fn div(self, other: &'b FieldElement) -> (r: FieldElement)
        ensures
            r@ == field_div(self@, other@),
    {
        self.quotient(other)
    }
}

impl<'a, 'b> vstd::std_specs::ops::DivSpecImpl<&'b FieldElement> for &'a FieldElement {
    open spec fn obeys_div_spec() -> bool {
        true
    }

    open spec fn div_req(self, other: &'b FieldElement) -> bool {
        true
    }

    open spec fn div_spec(self, other: &'b FieldElement) -> FieldElement {
        element_of(field_div(self@, other@))
    }
}

impl FieldElement {
    /// The sum in the field.
    pub fn sum(&self, other: &FieldElement) -> (r: FieldElement)
        ensures
            r@ == field_add(self@, other@),
            r == element_of(field_add(self@, other@)),
            r.is_reduced(),
    {
        let p = prime();
        proof {
            lemma_mod_bound((self@ + other@) as int, p.val() as int);
        }
        let s = add_mod(&self.to_u256(), &other.to_u256(), &p);
        FieldElement::from_u256(&s)
    }

    /// The difference in the field.
    pub fn difference(&self, other: &FieldElement) -> (r: FieldElement)
        ensures
            r@ == field_sub(self@, other@),
            r == element_of(field_sub(self@, other@)),
            r.is_reduced(),
    {
        let p = prime();
        proof {
            lemma_mod_bound(self@ as int - other@ as int, p.val() as int);
        }
        let s = sub_mod(&self.to_u256(), &other.to_u256(), &p);
        FieldElement::from_u256(&s)
    }

    /// The product in the field.
    pub fn product(&self, other: &FieldElement) -> (r: FieldElement)
        ensures
            r@ == field_mul(self@, other@),
            r == element_of(field_mul(self@, other@)),
            r.is_reduced(),
    {
        let p = prime();
        let s = mul_mod(&self.to_u256(), &other.to_u256(), &p);
        FieldElement::from_u256(&s)
    }

    /// The remainder of `self` by `other`, which need not be the field's
    /// modulus. Where `other` is zero, the remainder is 0.
    pub fn remainder(&self, other: &FieldElement) -> (r: FieldElement)
        ensures
            r@ == field_rem(self@, other@),
            r == element_of(field_rem(self@, other@)),
            other@ != 0 ==> r@ < other@,
    {
        let m = other.to_u256();
        if m.is_zero() {
            return FieldElement::new();
        }
        proof {
            lemma_mod_bound(self@ as int, other@ as int);
        }
        let s = reduce(&self.to_u256(), &m);
        FieldElement::from_u256(&s)
    }

    /// The quotient in the field: the product with the inverse of `other`.
    /// Where `other` is a multiple of the modulus, the quotient is 0.
    pub fn quotient(&self, other: &FieldElement) -> (r: FieldElement)
        ensures
            r@ == field_div(self@, other@),
            r == element_of(field_div(self@, other@)),
            r.is_reduced(),
    {
        self.product(&other.inverse())
    }

    /// Quotient and remainder of the integer division of `self` by `other`.
    /// Where `other` is zero, both are 0.
    pub fn div_rem(&self, other: &FieldElement) -> (qr: (FieldElement, FieldElement))
        ensures
            qr.0@ == integer_quotient(self@, other@),
            qr.1@ == field_rem(self@, other@),
            qr.0 == element_of(integer_quotient(self@, other@)),
            qr.1 == element_of(field_rem(self@, other@)),
            other@ != 0 ==> self@ == qr.0@ * other@ + qr.1@ && qr.1@ < other@,
    {
        let m = other.to_u256();
        if m.is_zero() {
            return (FieldElement::new(), FieldElement::new());
        }
        proof {
            lemma_fundamental_div_mod(self@ as int, other@ as int);
            lemma_mod_bound(self@ as int, other@ as int);
            assert((self@ / other@) * other@ == other@ * (self@ / other@)) by (nonlinear_arith);
        }
        let (q, r) = div_rem(&self.to_u256(), &m);
        (FieldElement::from_u256(&q), FieldElement::from_u256(&r))
    }

    /// The remainder of `self` by `other`; `None` where `other` is zero.
    pub fn checked_rem(&self, other: &FieldElement) -> (r: Option<FieldElement>)
        ensures
            r.is_some() <==> other@ != 0,
            r.is_some() ==> r.unwrap() == element_of(field_rem(self@, other@)),
            r.is_some() ==> r.unwrap()@ == field_rem(self@, other@),
    {
        if other.to_u256().is_zero() {
            None
        } else {
            Some(self.remainder(other))
        }
    }

    /// The inverse in the field, and `None` where the element has none:
    /// where it has a divisor in common with the modulus.
    pub fn checked_inverse(&self) -> (r: Option<FieldElement>)
        ensures
            r.is_some() <==> has_inverse(self@),
            r.is_some() <==> gcd(field_prime(), self@ % field_prime()) == 1,
            r.is_some() ==> r.unwrap() == element_of(field_inverse(self@)),
            r.is_some() ==> r.unwrap()@ == field_inverse(self@),
            r.is_some() ==> is_inverse(self@, r.unwrap()@),
            self@ % field_prime() == 0 ==> r.is_none(),
    {
        match invert_mod(&self.to_u256(), &prime()) {
            Some(x) => {
                proof {
                    assert(is_inverse(self@, x.val()));
                    lemma_inverse_unique(self@, x.val(), field_inverse(self@));
                }
                Some(FieldElement::from_u256(&x))
            },
            None => {
                proof {
                    if has_inverse(self@) {
                        lemma_inverse_needs_coprime(
                            self@,
                            field_inverse(self@),
                            field_prime(),
                        );
                    }
                }
                None
            },
        }
    }

    /// The inverse in the field. An element that has a divisor in common
    /// with the modulus, as every multiple of the modulus has, is without
    /// inverse: for it the result is 0.
    pub fn inverse(&self) -> (r: FieldElement)
        ensures
            r@ == field_inverse(self@),
            r == element_of(field_inverse(self@)),
            r.is_reduced(),
            has_inverse(self@) ==> is_inverse(self@, r@),
            !has_inverse(self@) ==> r@ == 0,
            has_inverse(self@) <==> gcd(field_prime(), self@ % field_prime()) == 1,
            self@ % field_prime() == 0 ==> r@ == 0,
    {
        match self.checked_inverse() {
            Some(r) => r,
            None => FieldElement::new(),
        }
    }
}

/// An element has at most one inverse.
pub proof fn lemma_inverse_unique(a: nat, r: nat, s: nat)
    requires
        is_inverse(a, r),
        is_inverse(a, s),
    ensures
        r == s,
{
    let p = field_prime() as int;
    let (x, y, z) = (a as int, r as int, s as int);
    lemma_mul_mod_noop_right(y, x * z, p);
    lemma_mul_mod_noop_right(z, x * y, p);
    assert(y * (x * z) == z * (x * y)) by (nonlinear_arith);
    assert(y * 1 == y && z * 1 == z);
    lemma_small_mod(r, field_prime());
    lemma_small_mod(s, field_prime());
}

/// A multiple of the modulus has no inverse.
pub proof fn lemma_inverse_of_zero(a: nat)
    requires
        a % field_prime() == 0,
    ensures
        !has_inverse(a),
        field_inverse(a) == 0,
{
    if has_inverse(a) {
        let r = field_inverse(a);
        lemma_mul_mod_noop_left(a as int, r as int, field_prime() as int);
        assert(0 * r == 0);
        lemma_small_mod(0, field_prime());
    }
}

/// The number that the last 16 bytes of an element denote.
pub open spec fn low_limb(a: nat) -> nat {
    a % limb_base()
}

/// What is left of `a` in a machine word: the low bits that fit.
pub open spec fn truncated(a: nat) -> usize {
    (low_limb(a) % (usize::MAX as nat + 1)) as usize
}

impl FieldElement {
    /// The 32 bytes of the element.
    pub open spec fn bytes_in(&self) -> [u8; 32] {
        self.value
    }

    /// The element that 32 bytes denote; `None` for any other length.
    pub fn from_bytes(data: &[u8]) -> (r: Option<FieldElement>)
        ensures
            r.is_some() <==> data@.len() == 32,
            r.is_some() ==> r.unwrap().value@ == data@,
            r.is_some() ==> r.unwrap().to_bytes()@ == data@,
    {
        if data.len() != 32 {
            return None;
        }
        let mut value: [u8; 32] = [0u8; 32];
        let mut i: usize = 0;
        while i < 32
            invariant
                i <= 32,
                data@.len() == 32,
                forall|j: int| 0 <= j < i ==> value@[j] == data@[j],
            decreases 32 - i,
        {
            value[i] = data[i];
            i += 1;
        }
        proof {
            assert(value@ =~= data@);
        }
        Some(FieldElement { value })
    }

    /// The 32 bytes of the element, most significant byte first.
    #[verifier::when_used_as_spec(bytes_in)]
    pub fn to_bytes(&self) -> (out: [u8; 32])
        ensures
            out == self.value,
    {
        self.value
    }

    /// The last byte of the element: its value modulo 256.
    pub fn to_u8(&self) -> (r: u8)
        ensures
            r == self.value@[31],
            r as nat == self@ % 256,
    {
        proof {
            lemma_fundamental_div_mod_converse(
                self@ as int,
                256,
                be_value(self.value@.drop_last()) as int,
                self.value@[31] as int,
            );
        }
        self.value[31]
    }

    /// The element as a machine word: its low bits, as many as fit.
    pub fn to_usize(&self) -> (r: usize)
        ensures
            r == truncated(self@),
            self@ <= usize::MAX ==> r as nat == self@,
    {
        let x = self.to_u256();
        proof {
            lemma_fundamental_div_mod_converse(
                self@ as int,
                limb_base() as int,
                x.hi as int,
                x.lo as int,
            );
            if self@ <= usize::MAX {
                lemma_small_mod(self@, limb_base());
                lemma_small_mod(self@, usize::MAX as nat + 1);
            }
        }
        let width: u128 = usize::MAX as u128 + 1;
        (x.lo % width) as usize
    }
}

impl From<[u8; 32]> for FieldElement {
    /// The element that the 32 bytes denote.
    fn from(value: [u8; 32]) -> (r: FieldElement)
        ensures
            r == FieldElement::of_bytes(value),
            r.value == value,
    {
        FieldElement { value }
    }
}

impl vstd::std_specs::convert::FromSpecImpl<[u8; 32]> for FieldElement {
    open spec fn obeys_from_spec() -> bool {
        true
    }

    open spec fn from_spec(value: [u8; 32]) -> FieldElement {
        FieldElement::of_bytes(value)
    }
}

impl From<u8> for FieldElement {
    /// The element with the value of one byte.
    fn from(data: u8) -> (r: FieldElement)
        ensures
            r@ == data as nat,
    {
        FieldElement::from_low_byte(data)
    }
}

impl vstd::std_specs::convert::FromSpecImpl<u8> for FieldElement {
    open spec fn obeys_from_spec() -> bool {
        true
    }

    open spec fn from_spec(data: u8) -> FieldElement {
        element_of(data as nat)
    }
}

impl From<usize> for FieldElement {
    /// The element with the value of a machine word.
    fn from(num: usize) -> (r: FieldElement)
        ensures
            r@ == num as nat,
    {
        FieldElement::from_u256(&U256 { hi: 0, lo: num as u128 })
    }
}

impl vstd::std_specs::convert::FromSpecImpl<usize> for FieldElement {
    open spec fn obeys_from_spec() -> bool {
        true
    }

    open spec fn from_spec(num: usize) -> FieldElement {
        element_of(num as nat)
    }
}

impl From<FieldElement> for u8 {
    fn from(fe: FieldElement) -> (r: u8) {
        fe.to_u8()
    }
}

impl vstd::std_specs::convert::FromSpecImpl<FieldElement> for u8 {
    open spec fn obeys_from_spec() -> bool {
        true
    }

    open spec fn from_spec(fe: FieldElement) -> u8 {
        fe.value@[31]
    }
}

impl From<FieldElement> for usize {
    fn from(fe: FieldElement) -> (r: usize) {
        fe.to_usize()
    }
}

impl vstd::std_specs::convert::FromSpecImpl<FieldElement> for usize {
    open spec fn obeys_from_spec() -> bool {
        true
    }

    open spec fn from_spec(fe: FieldElement) -> usize {
        truncated(fe@)
    }
}

/// The number of calls that a transaction can hold.
pub const MAX_TX_CALLS: usize = 10;

/// The number of arguments that a call can hold.
pub const MAX_CALLDATA: usize = 16;

/// The number of arguments that an abstract call can hold.
pub const MAX_ABSTRACT_CALLDATA: usize = 8;

/// A write was refused because the record is full.
#[derive(Debug, Copy, Clone, PartialEq, Eq)]
pub struct CapacityExceeded;

/// The name of a method: at most 32 bytes, of which the first `len` count.
#[derive(Debug, Copy, Clone)]
pub struct MethodName {
    pub bytes: [u8; 32],
    pub len: usize,
}

impl MethodName {
    /// The length is within the capacity.
    pub open spec fn wf(&self) -> bool {
        self.len <= 32
    }

    /// The bytes of the name.
    pub open spec fn text(&self) -> Seq<u8> {
        self.bytes@.take(self.len as int)
    }

    /// The empty name, with every byte zero.
    pub open spec fn is_cleared(&self) -> bool {
        &&& self.len == 0
        &&& forall|i: int| 0 <= i < 32 ==> self.bytes@[i] == 0
    }

    /// The empty name.
    pub fn new() -> (r: MethodName)
        ensures
            r.is_cleared(),
            r.wf(),
    {
        MethodName { bytes: [0u8; 32], len: 0 }
    }

    /// Empties the name and zeroes its bytes.
    pub fn clear(&mut self)
        ensures
            final(self).is_cleared(),
            final(self).wf(),
    {
        self.bytes = [0u8; 32];
        self.len = 0;
    }

    /// Takes over the name `other`.
    pub fn copy_from(&mut self, other: &MethodName)
        ensures
            *final(self) == *other,
    {
        self.bytes = other.bytes;
        self.len = other.len;
    }

    /// The name made of `text`; `Err` where it is longer than 32 bytes.
    pub fn from_bytes(text: &[u8]) -> (r: Result<MethodName, CapacityExceeded>)
        ensures
            r.is_ok() <==> text@.len() <= 32,
            r.is_ok() ==> r.unwrap().wf() && r.unwrap().text() == text@ && forall|i: int|
                text@.len() <= i < 32 ==> r.unwrap().bytes@[i] == 0,
    {
        if text.len() > 32 {
            return Err(CapacityExceeded);
        }
        let mut bytes: [u8; 32] = [0u8; 32];
        let mut i: usize = 0;
        while i < text.len()
            invariant
                i <= text@.len() <= 32,
                forall|j: int| 0 <= j < i ==> bytes@[j] == text@[j],
                forall|j: int| i <= j < 32 ==> bytes@[j] == 0,
            decreases text@.len() - i,
        {
            bytes[i] = text[i];
            i += 1;
        }
        let r = MethodName { bytes, len: text.len() };
        proof {
            assert(r.text() =~= text@);
        }
        Ok(r)
    }
}

/// One invocation of a contract: the target, the method by name and by
/// selector, and up to 16 arguments.
#[derive(Debug, Copy, Clone)]
pub struct Call {
    pub to: FieldElement,
    pub method: MethodName,
    pub selector: FieldElement,
    pub calldata: [FieldElement; 16],
    pub calldata_len: usize,
}

impl Call {
    /// The count of arguments is within the capacity.
    pub open spec fn wf(&self) -> bool {
        &&& self.calldata_len <= MAX_CALLDATA
        &&& self.method.wf()
    }

    /// The arguments of the call, in order.
    pub open spec fn args(&self) -> Seq<FieldElement> {
        self.calldata@.take(self.calldata_len as int)
    }

    /// The arguments of the call, in order, each as a literal of an
    /// abstract call.
    pub open spec fn literal_args(&self) -> Seq<AbstractCallData> {
        Seq::new(self.calldata_len as nat, |i: int| AbstractCallData::Felt(self.calldata@[i]))
    }

    /// Every field is zero or empty.
    pub open spec fn is_cleared(&self) -> bool {
        &&& self.to == FieldElement::zeroed()
        &&& self.method.is_cleared()
        &&& self.selector == FieldElement::zeroed()
        &&& self.calldata_len == 0
        &&& forall|i: int| 0 <= i < 16 ==> self.calldata@[i] == FieldElement::zeroed()
    }

    /// The call with every field zero or empty.
    pub fn new() -> (r: Call)
        ensures
            r.is_cleared(),
            r.wf(),
    {
        Call {
            to: FieldElement::new(),
            method: MethodName::new(),
            selector: FieldElement::new(),
            calldata: [FieldElement::new(); 16],
            calldata_len: 0,
        }
    }

    /// Resets every field to zero or empty, in place.
    pub fn clear(&mut self)
        ensures
            final(self).is_cleared(),
            final(self).wf(),
    {
        self.to.clear();
        self.method.clear();
        self.selector.clear();
        self.calldata = [FieldElement::new(); 16];
        self.calldata_len = 0;
    }

    /// Appends one argument; `Err`, with nothing changed, where the call
    /// already holds 16.
    pub fn push_calldata(&mut self, fe: FieldElement) -> (r: Result<(), CapacityExceeded>)
        ensures
            r.is_ok() <==> old(self).calldata_len < MAX_CALLDATA,
            r.is_err() ==> *final(self) == *old(self),
            r.is_ok() ==> final(self).args() == old(self).args().push(fe),
            r.is_ok() ==> final(self).calldata@ == old(self).calldata@.update(
                old(self).calldata_len as int,
                fe,
            ),
            r.is_ok() ==> final(self).calldata_len == old(self).calldata_len + 1,
            final(self).to == old(self).to,
            final(self).method == old(self).method,
            final(self).selector == old(self).selector,
            old(self).wf() ==> final(self).wf(),
    {
        if self.calldata_len >= MAX_CALLDATA {
            return Err(CapacityExceeded);
        }
        let mut slots = self.calldata;
        slots[self.calldata_len] = fe;
        self.calldata = slots;
        self.calldata_len = self.calldata_len + 1;
        proof {
            assert(self.args() =~= old(self).args().push(fe));
        }
        Ok(())
    }
}

/// One argument of an abstract call: a value, or a reference to a value
/// that is known later.
#[derive(Debug, Copy, Clone)]
pub enum AbstractCallData {
    /// A literal value.
    Felt(FieldElement),
    /// A reference, by index, to a value resolved later.
    Ref(usize),
    /// A reference to a result of another call: the call's index, then the
    /// result's.
    CallRef(usize, usize),
}

/// A call under construction: like a call, with up to 8 arguments that may
/// be references.
#[derive(Debug, Copy, Clone)]
pub struct AbstractCall {
    pub to: FieldElement,
    pub method: MethodName,
    pub selector: FieldElement,
    pub calldata: [AbstractCallData; 8],
    pub calldata_len: usize,
}

impl AbstractCall {
    /// The count of arguments is within the capacity.
    pub open spec fn wf(&self) -> bool {
        &&& self.calldata_len <= MAX_ABSTRACT_CALLDATA
        &&& self.method.wf()
    }

    /// Every field is zero or empty, every argument the literal zero.
    pub open spec fn is_cleared(&self) -> bool {
        &&& self.to == FieldElement::zeroed()
        &&& self.method.is_cleared()
        &&& self.selector == FieldElement::zeroed()
        &&& self.calldata_len == 0
        &&& forall|i: int|
            0 <= i < 8 ==> self.calldata@[i] == AbstractCallData::Felt(FieldElement::zeroed())
    }

    /// The abstract call with every field zero or empty.
    pub fn new() -> (r: AbstractCall)
        ensures
            r.is_cleared(),
            r.wf(),
    {
        AbstractCall {
            to: FieldElement::new(),
            method: MethodName::new(),
            selector: FieldElement::new(),
            calldata: [AbstractCallData::Felt(FieldElement::new()); 8],
            calldata_len: 0,
        }
    }

    /// Resets every field to zero or empty, in place.
    pub fn clear(&mut self)
        ensures
            final(self).is_cleared(),
            final(self).wf(),
    {
        self.to.clear();
        self.method.clear();
        self.selector.clear();
        self.calldata = [AbstractCallData::Felt(FieldElement::new()); 8];
        self.calldata_len = 0;
    }

    /// The arguments of the abstract call, in order.
    pub open spec fn args(&self) -> Seq<AbstractCallData> {
        self.calldata@.take(self.calldata_len as int)
    }

    /// Appends one argument; `Err`, with nothing changed, where the
    /// abstract call already holds 8.
    pub fn push_calldata(&mut self, data: AbstractCallData) -> (r: Result<(), CapacityExceeded>)
        ensures
            r.is_ok() <==> old(self).calldata_len < MAX_ABSTRACT_CALLDATA,
            r.is_err() ==> *final(self) == *old(self),
            r.is_ok() ==> final(self).args() == old(self).args().push(data),
            r.is_ok() ==> final(self).calldata@ == old(self).calldata@.update(
                old(self).calldata_len as int,
                data,
            ),
            r.is_ok() ==> final(self).calldata_len == old(self).calldata_len + 1,
            final(self).to == old(self).to,
            final(self).method == old(self).method,
            final(self).selector == old(self).selector,
            old(self).wf() ==> final(self).wf(),
    {
        if self.calldata_len >= MAX_ABSTRACT_CALLDATA {
            return Err(CapacityExceeded);
        }
        let mut slots = self.calldata;
        slots[self.calldata_len] = data;
        self.calldata = slots;
        self.calldata_len = self.calldata_len + 1;
        proof {
            assert(self.args() =~= old(self).args().push(data));
        }
        Ok(())
    }

    /// Takes a snapshot of `call`: its target, method and selector, and its
    /// arguments, each as a literal, which are then all the arguments of
    /// the abstract call. The slots behind them stay as they were. `Err`,
    /// with nothing changed, where `call` holds more than 8 arguments.
    pub fn copy_from(&mut self, call: &Call) -> (r: Result<(), CapacityExceeded>)
        ensures
            r.is_ok() <==> call.calldata_len <= MAX_ABSTRACT_CALLDATA,
            r.is_err() ==> *final(self) == *old(self),
            r.is_ok() ==> {
                &&& final(self).to == call.to
                &&& final(self).method == call.method
                &&& final(self).selector == call.selector
                &&& final(self).calldata_len == call.calldata_len
                &&& final(self).args() == call.literal_args()
                &&& forall|i: int|
                    0 <= i < call.calldata_len ==> final(self).calldata@[i]
                        == AbstractCallData::Felt(call.calldata@[i])
                &&& forall|i: int|
                    call.calldata_len <= i < 8 ==> final(self).calldata@[i] == old(
                        self,
                    ).calldata@[i]
            },
            r.is_ok() && call.wf() ==> final(self).wf(),
            old(self).wf() && call.wf() ==> final(self).wf(),
    {
        if call.calldata_len > MAX_ABSTRACT_CALLDATA {
            return Err(CapacityExceeded);
        }
        self.to.copy_from(&call.to);
        self.method.copy_from(&call.method);
        self.selector.copy_from(&call.selector);
        let mut slots = self.calldata;
        let mut i: usize = 0;
        while i < call.calldata_len
            invariant
                i <= call.calldata_len <= 8,
                forall|j: int|
                    0 <= j < i ==> slots@[j] == AbstractCallData::Felt(call.calldata@[j]),
                forall|j: int| i <= j < 8 ==> slots@[j] == old(self).calldata@[j],
            decreases call.calldata_len - i,
        {
            let mut fe = FieldElement::new();
            fe.copy_from(&call.calldata[i]);
            slots[i] = AbstractCallData::Felt(fe);
            i += 1;
        }
        self.calldata = slots;
        self.calldata_len = call.calldata_len;
        proof {
            assert(self.args() =~= call.literal_args());
        }
        Ok(())
    }
}

/// What a transaction says of itself: who sends it, at what fee, and how
/// many calls it holds.
#[derive(Debug, Copy, Clone)]
pub struct TransactionInfo {
    pub sender_address: FieldElement,
    pub max_fee: FieldElement,
    pub nonce: FieldElement,
    pub version: FieldElement,
    pub chain_id: FieldElement,
    pub callarray_len: FieldElement,
}

impl TransactionInfo {
    /// Every field is zero.
    pub open spec fn is_cleared(&self) -> bool {
        &&& self.sender_address == FieldElement::zeroed()
        &&& self.max_fee == FieldElement::zeroed()
        &&& self.nonce == FieldElement::zeroed()
        &&& self.version == FieldElement::zeroed()
        &&& self.chain_id == FieldElement::zeroed()
        &&& self.callarray_len == FieldElement::zeroed()
    }

    /// The record with every field zero.
    pub fn new() -> (r: TransactionInfo)
        ensures
            r.is_cleared(),
            r.callarray_len@ == 0,
    {
        TransactionInfo {
            sender_address: FieldElement::new(),
            max_fee: FieldElement::new(),
            nonce: FieldElement::new(),
            version: FieldElement::new(),
            chain_id: FieldElement::new(),
            callarray_len: FieldElement::new(),
        }
    }

    /// Resets every field to zero, in place.
    pub fn clear(&mut self)
        ensures
            final(self).is_cleared(),
            final(self).callarray_len@ == 0,
    {
        self.sender_address.clear();
        self.max_fee.clear();
        self.nonce.clear();
        self.version.clear();
        self.chain_id.clear();
        self.callarray_len.clear();
    }
}

/// A multi-call transaction: its metadata and up to `MAX_TX_CALLS` calls.
#[derive(Debug, Copy, Clone)]
pub struct Transaction {
    pub tx_info: TransactionInfo,
    pub calldata: [Call; MAX_TX_CALLS],
}

impl Transaction {
    /// The number of calls that the metadata announces.
    pub open spec fn call_count(&self) -> nat {
        self.tx_info.callarray_len@
    }

    /// The calls of the transaction, in order.
    pub open spec fn calls(&self) -> Seq<Call> {
        self.calldata@.take(self.call_count() as int)
    }

    /// The announced number of calls is within the capacity and is the
    /// number of populated slots: every slot is a valid call, and every slot
    /// from that number on is cleared.
    pub open spec fn wf(&self) -> bool {
        &&& self.call_count() <= MAX_TX_CALLS
        &&& forall|i: int| 0 <= i < MAX_TX_CALLS ==> (#[trigger] self.calldata@[i]).wf()
        &&& forall|i: int|
            self.call_count() <= i < MAX_TX_CALLS ==> (#[trigger] self.calldata@[i]).is_cleared()
    }

    /// Metadata and every slot are cleared.
    pub open spec fn is_cleared(&self) -> bool {
        &&& self.tx_info.is_cleared()
        &&& forall|i: int| 0 <= i < MAX_TX_CALLS ==> (#[trigger] self.calldata@[i]).is_cleared()
    }

    /// The transaction without calls, with every field zero or empty.
    pub fn new() -> (r: Transaction)
        ensures
            r.is_cleared(),
            r.wf(),
            r.call_count() == 0,
    {
        Transaction { tx_info: TransactionInfo::new(), calldata: [Call::new(); MAX_TX_CALLS] }
    }

    /// Clears the metadata and every slot, whatever the number of calls was.
    pub fn clear(&mut self)
        ensures
            final(self).is_cleared(),
            final(self).wf(),
            final(self).call_count() == 0,
    {
        self.tx_info.clear();
        self.calldata = [Call::new(); MAX_TX_CALLS];
    }

    /// Appends one call and counts it; `Err`, with nothing changed, where
    /// the transaction already holds `MAX_TX_CALLS`.
    pub fn push_call(&mut self, call: Call) -> (r: Result<(), CapacityExceeded>)
        ensures
            r.is_ok() <==> old(self).call_count() < MAX_TX_CALLS,
            r.is_err() ==> *final(self) == *old(self),
            r.is_ok() ==> {
                &&& final(self).call_count() == old(self).call_count() + 1
                &&& final(self).calls() == old(self).calls().push(call)
                &&& final(self).calldata@ == old(self).calldata@.update(
                    old(self).call_count() as int,
                    call,
                )
                &&& final(self).tx_info.sender_address == old(self).tx_info.sender_address
                &&& final(self).tx_info.max_fee == old(self).tx_info.max_fee
                &&& final(self).tx_info.nonce == old(self).tx_info.nonce
                &&& final(self).tx_info.version == old(self).tx_info.version
                &&& final(self).tx_info.chain_id == old(self).tx_info.chain_id
            },
            old(self).wf() && call.wf() ==> final(self).wf(),
    {
        let announced = self.tx_info.callarray_len.to_u256();
        if announced.ge(&U256 { hi: 0, lo: MAX_TX_CALLS as u128 }) {
            return Err(CapacityExceeded);
        }
        let count = self.tx_info.callarray_len.to_usize();
        let mut slots = self.calldata;
        slots[count] = call;
        self.calldata = slots;
        self.tx_info.callarray_len = FieldElement::from(count + 1);
        proof {
            assert(self.calls() =~= old(self).calls().push(call));
        }
        Ok(())
    }
}

} // verus!
