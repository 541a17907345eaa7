//! What holds between the operations of the field and of the records.

use crate::bignum::be_value;
use crate::modular::{gcd, lemma_coprime_has_inverse, lemma_inverse_needs_coprime};
use crate::types::{
    element_of, field_add, field_div, field_inverse, field_mul, field_prime, field_rem, field_sub,
    has_inverse, is_inverse, lemma_inverse_unique, AbstractCall, Call, FieldElement, MethodName,
    Transaction, TransactionInfo, MAX_TX_CALLS,
};
use vstd::arithmetic::div_mod::*;
use vstd::prelude::*;

verus! {

/// Subtracting what was added gives the first operand back, as a residue:
/// `(a + b) - b` is `a mod P`, and `a` itself where `a` is reduced.
pub proof fn lemma_add_then_sub(a: FieldElement, b: FieldElement)
    ensures
        field_sub(field_add(a@, b@), b@) == a@ % field_prime(),
        a.is_reduced() ==> field_sub(field_add(a@, b@), b@) == a@,
{
    let p = field_prime() as int;
    let x = (a@ + b@) as int;
    let y = b@ as int;
    lemma_sub_mod_noop(x, y, p);
    lemma_sub_mod_noop_right(x % p, y, p);
    if a.is_reduced() {
        lemma_small_mod(a@, field_prime());
    }
}

/// A sum in the field is reduced: its remainder by the modulus is the sum
/// itself.
pub proof fn lemma_sum_is_reduced(a: FieldElement, b: FieldElement)
    ensures
        field_add(a@, b@) < field_prime(),
        field_rem(field_add(a@, b@), field_prime()) == field_add(a@, b@),
{
    lemma_mod_bound((a@ + b@) as int, field_prime() as int);
    lemma_mod_twice((a@ + b@) as int, field_prime() as int);
}

/// An element has at most one inverse: two elements that are inverses of
/// `a` are the same bytes.
pub proof fn lemma_one_inverse(a: FieldElement, r: FieldElement, s: FieldElement)
    requires
        is_inverse(a@, r@),
        is_inverse(a@, s@),
    ensures
        r == s,
{
    lemma_inverse_unique(a@, r@, s@);
    lemma_same_number_same_bytes(r, s);
}

/// An element has an inverse exactly where it has no divisor in common
/// with the modulus.
pub proof fn lemma_inverse_iff_coprime(a: nat)
    ensures
        has_inverse(a) <==> gcd(field_prime(), a % field_prime()) == 1,
{
    if has_inverse(a) {
        lemma_inverse_needs_coprime(a, field_inverse(a), field_prime());
    }
    if gcd(field_prime(), a % field_prime()) == 1 {
        let r = lemma_coprime_has_inverse(a, field_prime());
        assert(is_inverse(a, r));
    }
}

/// Dividing by an element that has an inverse and then multiplying by it
/// gives the dividend back, as a residue.
pub proof fn lemma_div_then_mul(a: FieldElement, b: FieldElement)
    requires
        has_inverse(b@),
    ensures
        field_mul(field_div(a@, b@), b@) == a@ % field_prime(),
        a.is_reduced() ==> field_mul(field_div(a@, b@), b@) == a@,
{
    let p = field_prime() as int;
    let (x, y, v) = (a@ as int, b@ as int, field_inverse(b@) as int);
    lemma_mul_mod_noop_left(x * v, y, p);
    assert((x * v) * y == x * (y * v)) by (nonlinear_arith);
    lemma_mul_mod_noop_right(x, y * v, p);
    assert(x * 1 == x);
    if a.is_reduced() {
        lemma_small_mod(a@, field_prime());
    }
}

/// Reading back the bytes of the element made from 32 bytes gives those
/// bytes, and the number that they denote determines them.
pub proof fn lemma_bytes_round_trip(bytes: [u8; 32])
    ensures
        FieldElement::of_bytes(bytes).to_bytes() == bytes,
        element_of(FieldElement::of_bytes(bytes)@) == FieldElement::of_bytes(bytes),
        element_of(be_value(bytes@))@ == be_value(bytes@),
{
    crate::types::lemma_bytes_of_value(bytes);
}

/// Two elements are the same number exactly where they are the same bytes.
pub proof fn lemma_same_number_same_bytes(a: FieldElement, b: FieldElement)
    ensures
        a@ == b@ <==> a == b,
        a@ == b@ <==> a.value@ == b.value@,
{
    if a@ == b@ {
        crate::bignum::lemma_be_value_injective(a.value@, b.value@);
        assert(a.value =~= b.value);
    }
}

/// Clearing a field element twice is clearing it once: the cleared element
/// is one value, the element zero.
pub proof fn lemma_clear_twice_element(once: FieldElement, twice: FieldElement)
    requires
        once == FieldElement::zeroed(),
        twice == FieldElement::zeroed(),
    ensures
        once == twice,
        once@ == 0,
{
    let z = vstd::array::spec_array_fill_for_copy_type::<u8, 32>(0u8);
    crate::types::lemma_be_value_zero(z@);
    crate::types::lemma_bytes_of_value(z);
}

/// Clearing a method name twice is clearing it once: two cleared names are
/// the same value.
pub proof fn lemma_clear_twice_method(once: MethodName, twice: MethodName)
    requires
        once.is_cleared(),
        twice.is_cleared(),
    ensures
        once == twice,
{
    assert(once.bytes =~= twice.bytes);
}

/// Clearing a call twice is clearing it once: two cleared calls are the
/// same value.
pub proof fn lemma_clear_twice_call(once: Call, twice: Call)
    requires
        once.is_cleared(),
        twice.is_cleared(),
    ensures
        once == twice,
{
    lemma_clear_twice_method(once.method, twice.method);
    assert(once.calldata =~= twice.calldata);
}

/// Clearing an abstract call twice is clearing it once: two cleared
/// abstract calls are the same value.
pub proof fn lemma_clear_twice_abstract_call(once: AbstractCall, twice: AbstractCall)
    requires
        once.is_cleared(),
        twice.is_cleared(),
    ensures
        once == twice,
{
    lemma_clear_twice_method(once.method, twice.method);
    assert(once.calldata =~= twice.calldata);
}

/// Clearing the metadata twice is clearing it once.
pub proof fn lemma_clear_twice_info(once: TransactionInfo, twice: TransactionInfo)
    requires
        once.is_cleared(),
        twice.is_cleared(),
    ensures
        once == twice,
{
}

/// Clearing a transaction twice is clearing it once: two cleared
/// transactions are the same value.
pub proof fn lemma_clear_twice_transaction(once: Transaction, twice: Transaction)
    requires
        once.is_cleared(),
        twice.is_cleared(),
    ensures
        once == twice,
{
    lemma_clear_twice_info(once.tx_info, twice.tx_info);
    assert forall|i: int| 0 <= i < MAX_TX_CALLS implies once.calldata@[i] == twice.calldata@[i] by {
        lemma_clear_twice_call(once.calldata@[i], twice.calldata@[i]);
    }
    assert(once.calldata =~= twice.calldata);
}

/// A valid transaction holds no more calls than its capacity, as many as
/// its metadata announce, and nothing behind them.
pub proof fn lemma_capacity(tx: Transaction)
    requires
        tx.wf(),
    ensures
        tx.call_count() <= MAX_TX_CALLS,
        tx.calls().len() == tx.call_count(),
        forall|i: int| tx.call_count() <= i < MAX_TX_CALLS ==> tx.calldata@[i].is_cleared(),
        forall|i: int| 0 <= i < tx.calls().len() ==> tx.calls()[i].wf(),
{
}

} // verus!
