//! Bit sequences as mathematical objects: how a number is laid out as bits,
//! most significant bit first, and how bits are packed into bytes.

use vstd::arithmetic::div_mod::{lemma_breakdown, lemma_small_mod};
use vstd::arithmetic::power2::{lemma2_to64, lemma_pow2_pos, lemma_pow2_unfold, pow2};
use vstd::prelude::*;

verus! {

/// The low `n` binary digits of `value`, most significant first.
pub open spec fn bits_of(value: nat, n: nat) -> Seq<bool>
    decreases n,
{
    if n == 0 {
        Seq::empty()
    } else {
        bits_of(value / 2, (n - 1) as nat).push(value % 2 == 1)
    }
}

/// The number whose binary digits, most significant first, are `bits`.
pub open spec fn value_of(bits: Seq<bool>) -> nat
    decreases bits.len(),
{
    if bits.len() == 0 {
        0
    } else {
        2 * value_of(bits.drop_last()) + if bits.last() {
            1nat
        } else {
            0nat
        }
    }
}

/// `n` zero bits.
pub open spec fn zeros(n: nat) -> Seq<bool> {
    Seq::new(n, |i: int| false)
}

/// The bits held by a byte buffer: eight per byte, most significant first.
pub open spec fn unpack(bytes: Seq<u8>) -> Seq<bool> {
    Seq::new(8 * bytes.len(), |i: int| bits_of(bytes[i / 8] as nat, 8)[i % 8])
}

/// How many zero bits complete `len` bits to a whole number of bytes.
pub open spec fn padding(len: nat) -> nat {
    ((8 - len % 8) % 8) as nat
}

/// The bytes that hold `bits`, the last one completed with zero bits.
pub open spec fn pack(bits: Seq<bool>) -> Seq<u8> {
    let padded = bits + zeros(padding(bits.len()));
    Seq::new(padded.len() / 8, |j: int| value_of(padded.subrange(8 * j, 8 * j + 8)) as u8)
}

/// A value is written in `n` digits.
pub proof fn lemma_bits_of_len(value: nat, n: nat)
    ensures
        bits_of(value, n).len() == n,
    decreases n,
{
    if n > 0 {
        lemma_bits_of_len(value / 2, (n - 1) as nat);
    }
}

/// The number that `n` digits denote is below `2^n`.
pub proof fn lemma_value_of_bound(bits: Seq<bool>)
    ensures
        value_of(bits) < pow2(bits.len()),
    decreases bits.len(),
{
    if bits.len() == 0 {
        lemma2_to64();
    } else {
        lemma_value_of_bound(bits.drop_last());
        lemma_pow2_unfold(bits.len());
    }
}

/// Reading back the `n` digits written for `value` gives `value` modulo `2^n`.
pub proof fn lemma_value_of_bits_of(value: nat, n: nat)
    ensures
        value_of(bits_of(value, n)) == value % pow2(n),
    decreases n,
{
    if n == 0 {
        lemma2_to64();
    } else {
        let m = (n - 1) as nat;
        let s = bits_of(value, n);
        lemma_bits_of_len(value / 2, m);
        assert(s.drop_last() =~= bits_of(value / 2, m));
        assert(s.last() == (value % 2 == 1));
        lemma_value_of_bits_of(value / 2, m);
        lemma_pow2_pos(m);
        lemma_pow2_unfold(n);
        lemma_breakdown(value as int, 2, pow2(m) as int);
    }
}

/// Writing the digits of the number that `bits` denote gives `bits` back.
pub proof fn lemma_bits_of_value_of(bits: Seq<bool>)
    ensures
        bits_of(value_of(bits), bits.len()) == bits,
    decreases bits.len(),
{
    if bits.len() > 0 {
        let v = value_of(bits);
        let rest = bits.drop_last();
        lemma_bits_of_value_of(rest);
        assert(v / 2 == value_of(rest));
        assert((v % 2 == 1) == bits.last());
        assert(bits_of(v, bits.len()) =~= bits);
    }
}

/// A value below `2^n` is read back unchanged from its `n` digits.
pub proof fn lemma_value_of_bits_of_small(value: nat, n: nat)
    requires
        value < pow2(n),
    ensures
        value_of(bits_of(value, n)) == value,
{
    lemma_value_of_bits_of(value, n);
    lemma_small_mod(value, pow2(n));
}

/// The bits of the bytes that hold `bits` are `bits`, followed by the zero
/// bits that complete the last byte.
pub proof fn lemma_unpack_pack(bits: Seq<bool>)
    ensures
        unpack(pack(bits)) == bits + zeros(padding(bits.len())),
{
    let padded = bits + zeros(padding(bits.len()));
    let bytes = pack(bits);
    assert(padded.len() % 8 == 0);
    assert(8 * bytes.len() == padded.len());
    assert forall|i: int| 0 <= i < padded.len() implies unpack(bytes)[i] == padded[i] by {
        let j = i / 8;
        let chunk = padded.subrange(8 * j, 8 * j + 8);
        lemma_value_of_bound(chunk);
        lemma2_to64();
        assert(bytes[j] as nat == value_of(chunk));
        lemma_bits_of_value_of(chunk);
        assert(chunk[i % 8] == padded[i]);
    }
    assert(unpack(bytes) =~= padded);
}

} // verus!
