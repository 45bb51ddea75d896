//! The decoder inverts the encoder on every stream that the encoding can
//! hold without loss.

use crate::bit_io::{after_bits, lemma_take_field, take_bits};
use crate::bits::{
    bits_of, lemma_bits_of_len, lemma_bits_of_value_of, lemma_unpack_pack, lemma_value_of_bits_of,
    lemma_value_of_bound, padding, value_of, zeros,
};
use crate::compression::{
    decode_timestamp, decode_value, end_marker, gorilla_decode, gorilla_encode, lemma_xor_span,
    sample_bits, sign_extended, signed, stored_length, stream_bits, timestamp_bits, value_bits,
    DecoderState, FieldOutcome, History,
};
use vstd::arithmetic::power2::{lemma2_to64, lemma_pow2_pos, lemma_pow2_unfold, pow2};
use vstd::prelude::*;
use vstd::std_specs::bits::{
    axiom_u64_leading_zeros, axiom_u64_trailing_zeros, u64_leading_zeros, u64_trailing_zeros,
};

verus! {

/// Whether a sample that follows `history` is stored without loss: the first
/// delta of a stream fits its 14 bits, and a later delta of deltas fits the
/// 12-bit window and is not -64, whose stored form begins like the end
/// marker.
pub open spec fn lossless_sample(history: History, timestamp: u64, value: u64) -> bool {
    match history.last {
        None => true,
        Some((previous, previous_value)) => {
            let delta = timestamp.wrapping_sub(previous);
            match history.delta {
                None => -8191 <= signed(delta) <= 8191,
                Some(previous_delta) => {
                    let dod = signed(delta.wrapping_sub(previous_delta));
                    -2048 <= dod <= 2047 && dod != -64
                },
            }
        },
    }
}

/// Whether every sample of a sequence that follows `history` is stored
/// without loss.
pub open spec fn lossless(history: History, samples: Seq<(u64, u64)>) -> bool
    decreases samples.len(),
{
    samples.len() == 0 || (lossless_sample(history, samples[0].0, samples[0].1) && lossless(
        history.after(samples[0].0, samples[0].1),
        samples.drop_first(),
    ))
}

/// The leading digits of a field are the digits of the value shifted right.
proof fn lemma_bits_of_prefix(value: nat, high: nat, low: nat)
    ensures
        bits_of(value, high + low).take(high as int) == bits_of(value / pow2(low), high),
    decreases low,
{
    lemma_bits_of_len(value, high + low);
    if low == 0 {
        lemma2_to64();
        assert(bits_of(value, high + low).take(high as int) =~= bits_of(value, high));
    } else {
        let shorter = (low - 1) as nat;
        lemma_bits_of_prefix(value / 2, high, shorter);
        lemma_bits_of_len(value / 2, high + shorter);
        lemma_pow2_pos(shorter);
        lemma_pow2_unfold(low);
        vstd::arithmetic::div_mod::lemma_div_denominator(value as int, 2, pow2(shorter) as int);
        assert(bits_of(value, high + low).take(high as int) =~= bits_of(
            value / 2,
            high + shorter,
        ).take(high as int));
    }
}

proof fn lemma_small_fields()
    ensures
        bits_of(0, 1) == seq![false],
        bits_of(1, 1) == seq![true],
        bits_of(2, 2) == seq![true, false],
        bits_of(3, 2) == seq![true, true],
        bits_of(0xFF, 8) == seq![true, true, true, true, true, true, true, true],
        bits_of(63, 6) == seq![true, true, true, true, true, true],
{
    reveal_with_fuel(bits_of, 9);
    assert(bits_of(0, 1) =~= seq![false]);
    assert(bits_of(1, 1) =~= seq![true]);
    assert(bits_of(2, 2) =~= seq![true, false]);
    assert(bits_of(3, 2) =~= seq![true, true]);
    assert(bits_of(0xFF, 8) =~= seq![true, true, true, true, true, true, true, true]);
    assert(bits_of(63, 6) =~= seq![true, true, true, true, true, true]);
}

/// Eight bits that denote 255 are all ones.
proof fn lemma_marker_is_all_ones(bits: Seq<bool>)
    requires
        bits.len() == 8,
        value_of(bits) == 255,
    ensures
        forall|i: int| 0 <= i < 8 ==> bits[i],
{
    lemma_bits_of_value_of(bits);
    lemma_small_fields();
}

/// The control bits `10` and `11` are read as one bit and another.
proof fn lemma_take_control(second: bool, tail: Seq<bool>)
    ensures
        ({
            let bits = bits_of(
                if second {
                    3
                } else {
                    2
                },
                2,
            ) + tail;
            let rest = after_bits(bits, 1);
            &&& take_bits(bits, 1) == Some(1u64)
            &&& take_bits(rest, 1) == Some(
                if second {
                    1u64
                } else {
                    0u64
                },
            )
            &&& after_bits(rest, 1) == tail
            &&& take_bits(bits, 2) == Some(
                if second {
                    3u64
                } else {
                    2u64
                },
            )
            &&& after_bits(bits, 2) == tail
        }),
{
    lemma_small_fields();
    lemma2_to64();
    let low: nat = if second {
        1
    } else {
        0
    };
    let both: nat = if second {
        3
    } else {
        2
    };
    let bits = bits_of(both, 2) + tail;
    assert(bits =~= bits_of(1, 1) + (bits_of(low, 1) + tail));
    lemma_take_field(1, 1, bits_of(low, 1) + tail);
    lemma_take_field(low, 1, tail);
    lemma_take_field(both, 2, tail);
}

/// A field that holds the low bits of a small number in two's complement is
/// read back and extended to the number.
proof fn lemma_take_signed(word: u64, width: usize, modulus: int, quotient: int, tail: Seq<bool>)
    requires
        width == 7 || width == 12 || width == 14,
        modulus == pow2(width as nat),
        modulus * quotient == 0x1_0000_0000_0000_0000,
        if width == 7 {
            -63 <= signed(word) <= 64
        } else {
            -(modulus / 2) <= signed(word) < modulus / 2
        },
    ensures
        take_bits(bits_of(word as nat, width as nat) + tail, width).is_some(),
        sign_extended(take_bits(bits_of(word as nat, width as nat) + tail, width).unwrap(), width as nat)
            == word,
        after_bits(bits_of(word as nat, width as nat) + tail, width) == tail,
{
    lemma2_to64();
    lemma_take_field(word as nat, width, tail);
    lemma_low_bits(word, modulus, quotient);
}

/// The first timestamp delta of a stream, stored without loss, is decoded to
/// itself.
proof fn lemma_decode_first_delta(timestamp: u64, previous: u64, tail: Seq<bool>)
    requires
        -8191 <= signed(timestamp.wrapping_sub(previous)) <= 8191,
    ensures
        decode_timestamp(
            timestamp_bits(None, timestamp.wrapping_sub(previous)) + tail,
            None,
            previous,
        ) == (FieldOutcome {
            rest: tail,
            delta: Some(timestamp.wrapping_sub(previous)),
            word: Some(timestamp),
        }),
{
    let delta = timestamp.wrapping_sub(previous);
    let bits = timestamp_bits(None, delta) + tail;
    let rest = bits_of(delta as nat, 14) + tail;
    assert(bits == bits_of(2, 2) + rest) by {
        assert(bits =~= bits_of(2, 2) + rest);
    }
    lemma_take_control(false, rest);
    assert(pow2(14) == 16384) by {
        lemma2_to64();
    }
    lemma_take_signed(delta, 14, 16384, 0x4_0000_0000_0000, tail);
}

/// A later timestamp delta, stored without loss, is decoded to itself.
proof fn lemma_decode_later_delta(previous_delta: u64, timestamp: u64, previous: u64, tail: Seq<bool>)
    requires
        ({
            let dod = signed(timestamp.wrapping_sub(previous).wrapping_sub(previous_delta));
            -2048 <= dod <= 2047
        }),
    ensures
        decode_timestamp(
            timestamp_bits(Some(previous_delta), timestamp.wrapping_sub(previous)) + tail,
            Some(previous_delta),
            previous,
        ) == (FieldOutcome {
            rest: tail,
            delta: Some(timestamp.wrapping_sub(previous)),
            word: Some(timestamp),
        }),
{
    let delta = timestamp.wrapping_sub(previous);
    let dod = delta.wrapping_sub(previous_delta);
    let bits = timestamp_bits(Some(previous_delta), delta) + tail;
    if dod == 0 {
        assert(take_bits(bits, 1) == Some(0u64) && after_bits(bits, 1) == tail) by {
            lemma_small_fields();
            lemma2_to64();
            assert(bits =~= bits_of(0, 1) + tail);
            lemma_take_field(0, 1, tail);
        }
    } else if -63 <= signed(dod) <= 64 {
        let rest = bits_of(dod as nat, 7) + tail;
        assert(bits == bits_of(2, 2) + rest) by {
            assert(bits =~= bits_of(2, 2) + rest);
        }
        lemma_take_control(false, rest);
        assert(pow2(7) == 128) by {
            lemma2_to64();
        }
        lemma_take_signed(dod, 7, 128, 0x200_0000_0000_0000, tail);
    } else {
        let rest = bits_of(dod as nat, 12) + tail;
        assert(bits == bits_of(3, 2) + rest) by {
            assert(bits =~= bits_of(3, 2) + rest);
        }
        lemma_take_control(true, rest);
        assert(pow2(12) == 4096) by {
            lemma2_to64();
        }
        lemma_take_signed(dod, 12, 4096, 0x10_0000_0000_0000, tail);
    }
}

/// A timestamp stored without loss is decoded to itself, and leaves the
/// decoder with the delta that the encoder remembers.
pub proof fn lemma_decode_timestamp(
    previous_delta: Option<u64>,
    timestamp: u64,
    previous: u64,
    tail: Seq<bool>,
)
    requires
        ({
            let delta = timestamp.wrapping_sub(previous);
            match previous_delta {
                None => -8191 <= signed(delta) <= 8191,
                Some(p) => {
                    let dod = signed(delta.wrapping_sub(p));
                    -2048 <= dod <= 2047
                },
            }
        }),
    ensures
        decode_timestamp(
            timestamp_bits(previous_delta, timestamp.wrapping_sub(previous)) + tail,
            previous_delta,
            previous,
        ) == (FieldOutcome {
            rest: tail,
            delta: Some(timestamp.wrapping_sub(previous)),
            word: Some(timestamp),
        }),
{
    match previous_delta {
        None => lemma_decode_first_delta(timestamp, previous, tail),
        Some(p) => lemma_decode_later_delta(p, timestamp, previous, tail),
    }
}

/// The low bits of a word whose two's complement value is small: the value
/// itself, or the value raised by the modulus when it is negative.
proof fn lemma_low_bits(word: u64, modulus: int, quotient: int)
    requires
        modulus > 0,
        modulus * quotient == 0x1_0000_0000_0000_0000,
        -modulus <= signed(word) < modulus,
    ensures
        word as int % modulus == if signed(word) < 0 {
            signed(word) + modulus
        } else {
            signed(word)
        },
{
    if signed(word) < 0 {
        let r = signed(word) + modulus;
        assert(word as int == (quotient - 1) * modulus + r) by (nonlinear_arith)
            requires
                modulus * quotient == 0x1_0000_0000_0000_0000,
                word as int == signed(word) + 0x1_0000_0000_0000_0000,
                r == signed(word) + modulus,
        ;
        vstd::arithmetic::div_mod::lemma_fundamental_div_mod_converse(
            word as int,
            modulus,
            quotient - 1,
            r,
        );
    } else {
        vstd::arithmetic::div_mod::lemma_small_mod(word as nat, modulus as nat);
    }
}

proof fn lemma_xor_restores(previous: u64, value: u64)
    by (bit_vector)
    ensures
        previous ^ (value ^ previous) == value,
        (value ^ previous == 0) ==> value == previous,
{
}

proof fn lemma_shift_back(x: u64, trailing: u64, above: u64)
    by (bit_vector)
    requires
        trailing < 64,
        trailing + above == 64,
        x << above == 0,
    ensures
        (x >> trailing) << trailing == x,
{
}

proof fn lemma_shift_twice(x: u64, trailing: u64, meaningful: u64, total: u64)
    by (bit_vector)
    requires
        trailing < 64,
        meaningful < 64,
        total == trailing + meaningful,
        x >> total == 0,
    ensures
        (x >> trailing) >> meaningful == 0,
{
}

/// A value is decoded to itself.
#[verifier::rlimit(50)]
pub proof fn lemma_decode_value(previous: u64, value: u64, tail: Seq<bool>)
    ensures
        decode_value(value_bits(previous, value) + tail, previous) == (FieldOutcome {
            rest: tail,
            delta: None,
            word: Some(value),
        }),
{
    let x = value ^ previous;
    let bits = value_bits(previous, value) + tail;
    lemma_xor_restores(previous, value);
    if x == 0 {
        assert(take_bits(bits, 1) == Some(0u64) && after_bits(bits, 1) == tail) by {
            lemma_small_fields();
            lemma2_to64();
            assert(bits =~= bits_of(0, 1) + tail);
            lemma_take_field(0, 1, tail);
        }
    } else {
        lemma_xor_span(x);
        let leading = u64_leading_zeros(x) as u64;
        let trailing = u64_trailing_zeros(x) as u64;
        let meaningful = (64 - leading - trailing) as u64;
        let shifted = x >> trailing;
        let a = bits_of(leading as nat, 6);
        let b = bits_of(meaningful as nat, 6);
        let c = bits_of(shifted as nat, meaningful as nat);
        let rest1 = a + (b + (c + tail));
        let rest2 = b + (c + tail);
        let rest3 = c + tail;
        assert(take_bits(bits, 1) == Some(1u64) && after_bits(bits, 1) == rest1) by {
            lemma_small_fields();
            lemma2_to64();
            assert(bits =~= bits_of(1, 1) + rest1);
            lemma_take_field(1, 1, rest1);
        }
        assert(take_bits(rest1, 6) == Some(leading) && after_bits(rest1, 6) == rest2) by {
            lemma2_to64();
            lemma_take_field(leading as nat, 6, rest2);
        }
        let length: u64 = if meaningful == 64 {
            0
        } else {
            meaningful
        };
        assert(take_bits(rest2, 6) == Some(length) && after_bits(rest2, 6) == rest3) by {
            lemma2_to64();
            lemma_take_field(meaningful as nat, 6, rest3);
        }
        assert(stored_length(length) == meaningful);
        assert(take_bits(rest3, meaningful as usize) == Some(shifted) && after_bits(
            rest3,
            meaningful as usize,
        ) == tail) by {
            if meaningful < 64 {
                axiom_u64_leading_zeros(x);
                lemma_shift_twice(x, trailing, meaningful, (64 - leading) as u64);
                vstd::bits::lemma_u64_shr_is_div(shifted, meaningful);
                lemma_pow2_pos(meaningful as nat);
                if shifted >= pow2(meaningful as nat) {
                    vstd::arithmetic::div_mod::lemma_div_is_ordered(
                        pow2(meaningful as nat) as int,
                        shifted as int,
                        pow2(meaningful as nat) as int,
                    );
                    vstd::arithmetic::div_mod::lemma_div_basics(pow2(meaningful as nat) as int);
                }
            } else {
                lemma2_to64();
            }
            vstd::arithmetic::div_mod::lemma_small_mod(shifted as nat, pow2(meaningful as nat));
            lemma_take_field(shifted as nat, meaningful as usize, tail);
        }
        assert(shifted << trailing == x) by {
            axiom_u64_trailing_zeros(x);
            lemma_shift_back(x, trailing, (64 - trailing) as u64);
        }
    }
}

/// A sample stored without loss is what the next decoding step yields, and
/// the step leaves the decoder where the encoder is.
#[verifier::rlimit(50)]
pub proof fn lemma_decode_sample(history: History, timestamp: u64, value: u64, tail: Seq<bool>)
    requires
        lossless_sample(history, timestamp, value),
    ensures
        (DecoderState {
            rest: sample_bits(history, timestamp, value) + tail,
            history,
            finished: false,
        }).step() == (
            DecoderState { rest: tail, history: history.after(timestamp, value), finished: false },
            Some((timestamp, value)),
        ),
        sample_bits(history, timestamp, value).len() > 0,
{
    let bits = sample_bits(history, timestamp, value) + tail;
    reveal(DecoderState::step);
    match history.last {
        None => {
            let second = bits_of(value as nat, 64);
            assert(bits.len() >= 128) by {
                lemma_bits_of_len(timestamp as nat, 64);
                lemma_bits_of_len(value as nat, 64);
            }
            assert(take_bits(bits, 64) == Some(timestamp) && after_bits(bits, 64) == second
                + tail) by {
                lemma2_to64();
                assert(bits =~= bits_of(timestamp as nat, 64) + (second + tail));
                lemma_take_field(timestamp as nat, 64, second + tail);
                vstd::arithmetic::div_mod::lemma_small_mod(timestamp as nat, pow2(64));
            }
            assert(take_bits(second + tail, 64) == Some(value) && after_bits(second + tail, 64)
                == tail) by {
                lemma2_to64();
                lemma_take_field(value as nat, 64, tail);
                vstd::arithmetic::div_mod::lemma_small_mod(value as nat, pow2(64));
            }
        },
        Some((previous, previous_value)) => {
            let delta = timestamp.wrapping_sub(previous);
            let t_bits = timestamp_bits(history.delta, delta);
            let v_bits = value_bits(previous_value, value);
            let middle = v_bits + tail;
            assert(bits == t_bits + middle) by {
                assert(bits =~= t_bits + middle);
            }
            lemma_timestamp_bits_len(history.delta, delta);
            lemma_not_marker(history.delta, delta, middle);
            lemma_decode_timestamp(history.delta, timestamp, previous, middle);
            lemma_decode_value(previous_value, value, tail);
        },
    }
}

proof fn lemma_timestamp_bits_len(previous_delta: Option<u64>, delta: u64)
    ensures
        timestamp_bits(previous_delta, delta).len() > 0,
{
    lemma_small_fields();
}

/// The bits of a timestamp stored without loss do not begin like the end
/// marker.
proof fn lemma_not_marker(previous_delta: Option<u64>, delta: u64, tail: Seq<bool>)
    requires
        match previous_delta {
            None => true,
            Some(p) => {
                let dod = signed(delta.wrapping_sub(p));
                -2048 <= dod <= 2047 && dod != -64
            },
        },
    ensures
        take_bits(timestamp_bits(previous_delta, delta) + tail, 8) != Some(0xFFu64),
{
    let bits = timestamp_bits(previous_delta, delta) + tail;
    lemma_small_fields();
    lemma2_to64();
    if bits.len() >= 8 {
        let front = bits.take(8);
        lemma_value_of_bound(front);
        if value_of(front) == 255 {
            lemma_marker_is_all_ones(front);
            assert(front[0] && front[1]);
            match previous_delta {
                None => {
                    assert(!bits[1]);
                },
                Some(p) => {
                    let dod = delta.wrapping_sub(p);
                    if dod == 0 {
                        assert(!bits[0]);
                    } else if -63 <= signed(dod) <= 64 {
                        assert(!bits[1]);
                    } else {
                        let field = bits_of(dod as nat, 12);
                        lemma_bits_of_len(dod as nat, 12);
                        lemma_bits_of_prefix(dod as nat, 6, 6);
                        let high = field.take(6);
                        assert forall|i: int| 0 <= i < 6 implies high[i] by {
                            assert(high[i] == front[i + 2]);
                        }
                        assert(high =~= bits_of(63, 6));
                        lemma_value_of_bits_of(dod as nat / 64, 6);
                        lemma_value_of_bits_of(63, 6);
                        assert((dod as nat / 64) % 64 == 63);
                    }
                },
            }
        }
    }
}

/// The stream of a sequence is the first sample followed by the stream of the
/// others.
pub proof fn lemma_stream_front(history: History, samples: Seq<(u64, u64)>)
    requires
        samples.len() > 0,
    ensures
        stream_bits(history, samples) == sample_bits(history, samples[0].0, samples[0].1)
            + stream_bits(history.after(samples[0].0, samples[0].1), samples.drop_first()),
        history.after_all(samples) == history.after(samples[0].0, samples[0].1).after_all(
            samples.drop_first(),
        ),
    decreases samples.len(),
{
    let next = history.after(samples[0].0, samples[0].1);
    let front = samples.drop_last();
    let back = samples.drop_first();
    if samples.len() == 1 {
        assert(stream_bits(history, front) =~= Seq::<bool>::empty());
        assert(history.after_all(front) == history);
        assert(stream_bits(next, back) =~= Seq::<bool>::empty());
        assert(stream_bits(history, samples) =~= sample_bits(history, samples[0].0, samples[0].1)
            + stream_bits(next, back));
    } else {
        lemma_stream_front(history, front);
        assert(front.drop_first() =~= back.drop_last());
        assert(front[0] == samples[0]);
        assert(back.last() == samples.last());
        assert(stream_bits(history, samples) =~= sample_bits(history, samples[0].0, samples[0].1)
            + stream_bits(next, back));
    }
}

/// Decoding the stream of a lossless sequence, followed by the end marker and
/// the padding of the last byte, yields the sequence.
#[verifier::rlimit(50)]
pub proof fn lemma_decode_stream(history: History, samples: Seq<(u64, u64)>, pad: nat)
    requires
        lossless(history, samples),
        pad < 8,
    ensures
        (DecoderState {
            rest: stream_bits(history, samples) + end_marker() + zeros(pad),
            history,
            finished: false,
        }).run() == samples,
    decreases samples.len(),
{
    let state = DecoderState {
        rest: stream_bits(history, samples) + end_marker() + zeros(pad),
        history,
        finished: false,
    };
    if samples.len() == 0 {
        assert(state.step().1.is_none()) by {
            reveal(DecoderState::step);
            lemma_bits_of_len(0xFF, 8);
            assert(state.rest =~= end_marker() + zeros(pad));
            assert(state.rest.len() == 8 + pad);
            if history.last.is_some() {
                lemma2_to64();
                lemma_take_field(0xFF, 8, zeros(pad));
            }
        }
        assert(state.run() =~= samples);
    } else {
        let first = samples[0];
        let next = history.after(first.0, first.1);
        let others = samples.drop_first();
        let tail = stream_bits(next, others) + end_marker() + zeros(pad);
        let after = DecoderState { rest: tail, history: next, finished: false };
        assert(state.step() == (after, Some(first)) && tail.len() < state.rest.len()) by {
            lemma_stream_front(history, samples);
            assert(state.rest =~= sample_bits(history, first.0, first.1) + tail);
            lemma_decode_sample(history, first.0, first.1, tail);
        }
        lemma_decode_stream(next, others, pad);
        assert(samples =~= seq![first] + others);
    }
}

/// Round trip: a sequence of samples that is stored without loss is decoded
/// from its encoding exactly, bit for bit.
pub proof fn lemma_round_trip(samples: Seq<(u64, u64)>)
    requires
        lossless(History::start(), samples),
    ensures
        gorilla_decode(gorilla_encode(samples)) == samples,
{
    let bits = stream_bits(History::start(), samples) + end_marker();
    lemma_unpack_pack(bits);
    lemma_decode_stream(History::start(), samples, padding(bits.len()));
}

} // verus!
