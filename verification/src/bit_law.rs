//! A byte string as one number: what reading and writing bits does to it.

use vstd::arithmetic::power2::{lemma2_to64, lemma_pow2_adds, lemma_pow2_pos, pow2};
use vstd::prelude::*;

use crate::bitstream::{
    bit_at, bits_at, lemma_bits_at_split, lemma_byte_value, lemma_lsb_bits_value,
    lemma_lsb_value_bits, lemma_lsb_value_bound, lemma_lsb_value_concat, lemma_pack_bits, lsb_bits,
    lsb_value, msb_bits, pack_bits,
};
use crate::deflate::inflate_spec::field;

verus! {

/// The number whose digits in base 256 are the bytes, the first the least.
pub open spec fn as_number(data: Seq<u8>) -> int
    decreases data.len(),
{
    if data.len() == 0 {
        0
    } else {
        as_number(data.drop_last()) + data.last() * pow2((8 * (data.len() - 1)) as nat)
    }
}

proof fn lemma_number(data: Seq<u8>)
    ensures
        as_number(data) == lsb_value(bits_at(data, 0, 8 * data.len())),
    decreases data.len(),
{
    if data.len() > 0 {
        let front = data.drop_last();
        let n = front.len();
        lemma_number(front);
        lemma_bits_at_split(data, 0, 8 * n, 8);
        assert(bits_at(data, 0, 8 * n) =~= bits_at(front, 0, 8 * n)) by {
            assert forall|i: int| 0 <= i < 8 * n implies bit_at(data, i) == bit_at(front, i) by {}
        }
        lemma_byte_value(data, n as int);
        lemma_lsb_value_concat(bits_at(data, 0, 8 * n), bits_at(data, 8 * n as int, 8));
        let a = data.last() as int;
        let p = pow2(8 * n) as int;
        assert(a * p == p * a) by (nonlinear_arith);
        assert(8 * n + 8 == 8 * data.len());
    }
}

proof fn lemma_bit(data: Seq<u8>, p: nat)
    ensures
        bit_at(data, p as int) == ((as_number(data) as nat / pow2(p)) % 2 == 1),
        0 <= as_number(data) < pow2(8 * data.len()),
{
    let n = 8 * data.len();
    let s = bits_at(data, 0, n);
    let v = lsb_value(s);
    lemma_number(data);
    lemma_lsb_value_bits(s);
    lemma_lsb_value_bound(s);
    if p < n {
        assert(s[p as int] == lsb_bits(v, n)[p as int]);
    } else {
        lemma_pow2_pos(p);
        lemma_pow2_pos((p - n) as nat);
        lemma_pow2_adds(n, (p - n) as nat);
        let a = pow2(n) as int;
        let b = pow2((p - n) as nat) as int;
        assert(a <= a * b) by (nonlinear_arith)
            requires
                a >= 0,
                b >= 1,
        ;
        vstd::arithmetic::div_mod::lemma_basic_div(v as int, pow2(p) as int);
    }
}

/// Reading `n` bits at bit `pos` gives the digits of the number from there on:
/// what is left of it after dividing by `2^pos`, modulo `2^n`. Past the end
/// there are zeros.
pub proof fn law_field_of_number(data: Seq<u8>, pos: nat, n: nat)
    ensures
        field(data, pos, n) == (as_number(data) as nat / pow2(pos)) % pow2(n),
{
    let v = as_number(data) as nat;
    let w = v / pow2(pos);
    lemma_pow2_pos(pos);
    assert(bits_at(data, pos as int, n) =~= lsb_bits(w, n)) by {
        assert forall|i: int| 0 <= i < n implies bits_at(data, pos as int, n)[i] == lsb_bits(
            w,
            n,
        )[i] by {
            lemma_bit(data, (pos + i) as nat);
            lemma_pow2_adds(pos, i as nat);
            lemma_pow2_pos(i as nat);
            vstd::arithmetic::div_mod::lemma_div_denominator(
                v as int,
                pow2(pos) as int,
                pow2(i as nat) as int,
            );
        }
    }
    lemma_lsb_bits_value(w, n);
}

/// Packed bits are the digits of the number: the first bit counts one, the next
/// two, and so on; the last byte is filled up with zeros.
pub proof fn law_packed_number(bits: Seq<bool>, p: nat)
    ensures
        8 * pack_bits(bits).len() < bits.len() + 8,
        ((as_number(pack_bits(bits)) as nat / pow2(p)) % 2 == 1) == (p < bits.len()
            && bits[p as int]),
{
    lemma_bit(pack_bits(bits), p);
    lemma_pack_bits(bits, p as int);
}

/// A code is written with its highest bit first, a number with its lowest.
pub proof fn law_bit_orders(v: nat, n: nat, i: int)
    requires
        0 <= i < n,
    ensures
        lsb_bits(v, n).len() == n,
        msb_bits(v, n).len() == n,
        lsb_bits(v, n)[i] == msb_bits(v, n)[n - 1 - i],
        lsb_bits(v, n)[0] == (v % 2 == 1),
{
    lemma2_to64();
    assert(v / 1 == v);
}

} // verus!
