//! The Gorilla codec: a stream of (timestamp, value) samples as delta-of-delta
//! timestamps and XOR-ed values, and its decoder.
//!
//! Values are carried as the 64 bits of their IEEE-754 representation, and
//! timestamp deltas as 64-bit words in two's complement.

use crate::bit_io::{after_bits, take_bits, GorillaBitReader, GorillaBitWriter};
use crate::bits::{bits_of, pack, unpack};
use vstd::prelude::*;
use vstd::slice::slice_to_vec;
use vstd::std_specs::bits::{
    axiom_u64_leading_zeros, axiom_u64_trailing_zeros, u64_leading_zeros, u64_trailing_zeros,
};

verus! {

/// The integer that a 64-bit word denotes in two's complement.
pub open spec fn signed(word: u64) -> int {
    if word < 0x8000_0000_0000_0000 {
        word as int
    } else {
        word - 0x1_0000_0000_0000_0000
    }
}

/// What encoder and decoder remember of the samples before the next one.
pub struct History {
    /// The previous sample: its timestamp and the bits of its value.
    pub last: Option<(u64, u64)>,
    /// The previous timestamp delta.
    pub delta: Option<u64>,
}

impl History {
    /// The history before the first sample.
    pub open spec fn start() -> History {
        History { last: None, delta: None }
    }

    /// The history after one more sample.
    pub open spec fn after(self, timestamp: u64, value: u64) -> History {
        History {
            last: Some((timestamp, value)),
            delta: match self.last {
                None => self.delta,
                Some((previous, _)) => Some(timestamp.wrapping_sub(previous)),
            },
        }
    }

    /// The history after a sequence of samples.
    pub open spec fn after_all(self, samples: Seq<(u64, u64)>) -> History
        decreases samples.len(),
    {
        if samples.len() == 0 {
            self
        } else {
            self.after_all(samples.drop_last()).after(samples.last().0, samples.last().1)
        }
    }
}

/// The first delta of a stream as it is stored: clamped to [-8191, 8191].
pub open spec fn clamped_delta(delta: u64) -> u64 {
    if signed(delta) > 8191 {
        8191
    } else if signed(delta) < -8191 {
        0xFFFF_FFFF_FFFF_E001
    } else {
        delta
    }
}

/// The bits that store a timestamp delta after `previous_delta`.
pub open spec fn timestamp_bits(previous_delta: Option<u64>, delta: u64) -> Seq<bool> {
    match previous_delta {
        None => bits_of(2, 2) + bits_of(clamped_delta(delta) as nat, 14),
        Some(previous) => {
            let dod = delta.wrapping_sub(previous);
            if dod == 0 {
                bits_of(0, 1)
            } else if -63 <= signed(dod) <= 64 {
                bits_of(2, 2) + bits_of(dod as nat, 7)
            } else {
                bits_of(3, 2) + bits_of(dod as nat, 12)
            }
        },
    }
}

/// The bits that store a value after the value `previous`.
pub open spec fn value_bits(previous: u64, value: u64) -> Seq<bool> {
    let x = value ^ previous;
    if x == 0 {
        bits_of(0, 1)
    } else {
        let leading = u64_leading_zeros(x);
        let trailing = u64_trailing_zeros(x) as int;
        let meaningful = 64 - leading - trailing;
        bits_of(1, 1) + bits_of(leading as nat, 6) + bits_of(meaningful as nat, 6) + bits_of(
            (x >> (trailing as u64)) as nat,
            meaningful as nat,
        )
    }
}

/// The bits that store one sample after `history`.
pub open spec fn sample_bits(history: History, timestamp: u64, value: u64) -> Seq<bool> {
    match history.last {
        None => bits_of(timestamp as nat, 64) + bits_of(value as nat, 64),
        Some((previous, previous_value)) => timestamp_bits(
            history.delta,
            timestamp.wrapping_sub(previous),
        ) + value_bits(previous_value, value),
    }
}

/// The bits that store a sequence of samples after `history`.
pub open spec fn stream_bits(history: History, samples: Seq<(u64, u64)>) -> Seq<bool>
    decreases samples.len(),
{
    if samples.len() == 0 {
        Seq::empty()
    } else {
        stream_bits(history, samples.drop_last()) + sample_bits(
            history.after_all(samples.drop_last()),
            samples.last().0,
            samples.last().1,
        )
    }
}

/// The eight one bits that end a stream.
pub open spec fn end_marker() -> Seq<bool> {
    bits_of(0xFF, 8)
}

/// The encoding of a sequence of samples.
pub open spec fn gorilla_encode(samples: Seq<(u64, u64)>) -> Seq<u8> {
    pack(stream_bits(History::start(), samples) + end_marker())
}

/// The state of an encoder: the bits written and what it remembers.
pub struct CompressorState {
    pub bits: Seq<bool>,
    pub history: History,
}

/// The encoder of a stream of samples.
#[derive(Debug)]
pub struct GorillaCompressor {
    writer: GorillaBitWriter,
    last: Option<(u64, u64)>,
    delta: Option<u64>,
}

impl View for GorillaCompressor {
    type V = CompressorState;

    closed spec fn view(&self) -> CompressorState {
        CompressorState {
            bits: self.writer@,
            history: History { last: self.last, delta: self.delta },
        }
    }
}

impl GorillaCompressor {
    /// The writer of the encoder is well formed.
    pub closed spec fn wf(&self) -> bool {
        self.writer.wf()
    }

    /// An encoder at the start of a stream.
    pub fn new() -> (compressor: Self)
        ensures
            compressor.wf(),
            compressor@ == (CompressorState { bits: Seq::empty(), history: History::start() }),
    {
        Self { writer: GorillaBitWriter::new(), last: None, delta: None }
    }

    /// Appends one sample to the stream.
    pub fn compress_datapoint(&mut self, timestamp: u64, value: u64)
        requires
            old(self).wf(),
        ensures
            final(self).wf(),
            final(self)@.bits == old(self)@.bits + sample_bits(old(self)@.history, timestamp, value),
            final(self)@.history == old(self)@.history.after(timestamp, value),
    {
        match self.last {
            None => {
                self.writer.write_bits(timestamp, 64);
                self.writer.write_bits(value, 64);
                assert(self.writer@ =~= old(self).writer@ + (bits_of(timestamp as nat, 64)
                    + bits_of(value as nat, 64)));
            },
            Some((previous, previous_value)) => {
                let delta: u64 = timestamp.wrapping_sub(previous);
                let ghost before = self.writer@;
                self.compress_timestamp(delta);
                self.compress_value(previous_value, value);
                assert(self.writer@ =~= before + (timestamp_bits(old(self).delta, delta)
                    + value_bits(previous_value, value)));
            },
        }
        self.last = Some((timestamp, value));
    }

    fn compress_timestamp(&mut self, delta: u64)
        requires
            old(self).wf(),
        ensures
            final(self).wf(),
            final(self).writer@ == old(self).writer@ + timestamp_bits(old(self).delta, delta),
            final(self).delta == Some(delta),
            final(self).last == old(self).last,
    {
        match self.delta {
            None => {
                self.writer.write_bits(0b10, 2);
                let clamped: u64 = if delta > 8191 && delta < 0x8000_0000_0000_0000 {
                    8191
                } else if delta >= 0x8000_0000_0000_0000 && delta < 0xFFFF_FFFF_FFFF_E001 {
                    0xFFFF_FFFF_FFFF_E001
                } else {
                    delta
                };
                assert(clamped == clamped_delta(delta));
                self.writer.write_bits(clamped, 14);
                assert(self.writer@ =~= old(self).writer@ + (bits_of(2, 2) + bits_of(
                    clamped as nat,
                    14,
                )));
            },
            Some(previous) => {
                let dod: u64 = delta.wrapping_sub(previous);
                if dod == 0 {
                    self.writer.write_bits(0b0, 1);
                } else if dod <= 64 || dod >= 0xFFFF_FFFF_FFFF_FFC1 {
                    self.writer.write_bits(0b10, 2);
                    self.writer.write_bits(dod, 7);
                    assert(self.writer@ =~= old(self).writer@ + (bits_of(2, 2) + bits_of(
                        dod as nat,
                        7,
                    )));
                } else {
                    self.writer.write_bits(0b11, 2);
                    self.writer.write_bits(dod, 12);
                    assert(self.writer@ =~= old(self).writer@ + (bits_of(3, 2) + bits_of(
                        dod as nat,
                        12,
                    )));
                }
            },
        }
        self.delta = Some(delta);
    }

    fn compress_value(&mut self, previous: u64, value: u64)
        requires
            old(self).wf(),
        ensures
            final(self).wf(),
            final(self).writer@ == old(self).writer@ + value_bits(previous, value),
            final(self).delta == old(self).delta,
            final(self).last == old(self).last,
    {
        let x: u64 = value ^ previous;
        if x == 0 {
            self.writer.write_bits(0b0, 1);
        } else {
            self.writer.write_bits(0b1, 1);
            let leading: u32 = x.leading_zeros();
            let trailing: u32 = x.trailing_zeros();
            proof {
                lemma_xor_span(x);
            }
            let meaningful: u32 = 64 - leading - trailing;
            self.writer.write_bits(leading as u64, 6);
            self.writer.write_bits(meaningful as u64, 6);
            self.writer.write_bits(x >> trailing, meaningful as usize);
            assert(self.writer@ =~= old(self).writer@ + (bits_of(1, 1) + bits_of(leading as nat, 6)
                + bits_of(meaningful as nat, 6) + bits_of(
                (x >> (trailing as u64)) as nat,
                meaningful as nat,
            )));
        }
    }

    /// Ends the stream and returns its bytes.
    pub fn finish(self) -> (bytes: Vec<u8>)
        requires
            self.wf(),
        ensures
            bytes@ == pack(self@.bits + end_marker()),
    {
        let mut writer = self.writer;
        writer.write_bits(0b11111111, 8);
        slice_to_vec(writer.get_bytes())
    }
}

/// A word that is not zero has a highest and a lowest one bit, so its leading
/// and trailing zeros leave at least one bit between them.
pub proof fn lemma_xor_span(x: u64)
    requires
        x != 0,
    ensures
        u64_leading_zeros(x) + u64_trailing_zeros(x) <= 63,
        0 <= u64_leading_zeros(x),
{
    axiom_u64_leading_zeros(x);
    axiom_u64_trailing_zeros(x);
    let leading = u64_leading_zeros(x);
    let trailing = u64_trailing_zeros(x);
    if leading + trailing > 63 {
        let j = trailing as u64;
        assert(64 - leading <= j < 64);
        assert((x >> j) & 1u64 == 0u64);
    }
}

impl Default for GorillaCompressor {
    fn default() -> (compressor: Self)
        ensures
            compressor.wf(),
            compressor@ == (CompressorState { bits: Seq::empty(), history: History::start() }),
    {
        Self::new()
    }
}

/// The state of a decoder: the bits not yet consumed, what it remembers, and
/// whether it has met the end marker.
pub struct DecoderState {
    pub rest: Seq<bool>,
    pub history: History,
    pub finished: bool,
}

/// What decoding one field leaves behind and yields: the unread bits, the
/// remembered delta, and the decoded word unless the stream ran out or was
/// malformed.
pub struct FieldOutcome {
    pub rest: Seq<bool>,
    pub delta: Option<u64>,
    pub word: Option<u64>,
}

/// A field of `width` bits read as the number that the encoder stored in it:
/// in two's complement, but for the 7-bit field, which holds -63 to 64.
pub open spec fn sign_extended(field: u64, width: nat) -> u64 {
    if width == 14 && field > 8191 {
        field.wrapping_sub(16384)
    } else if width == 7 && field > 64 {
        field.wrapping_sub(128)
    } else if width == 12 && field > 2047 {
        field.wrapping_sub(4096)
    } else {
        field
    }
}

/// Decoding a timestamp that follows `previous`, from the front of `rest`.
pub open spec fn decode_timestamp(rest: Seq<bool>, delta: Option<u64>, previous: u64) -> FieldOutcome {
    match delta {
        None => match take_bits(rest, 2) {
            None => FieldOutcome { rest, delta, word: None },
            Some(control) => {
                let rest1 = after_bits(rest, 2);
                if control == 2 {
                    match take_bits(rest1, 14) {
                        None => FieldOutcome { rest: rest1, delta, word: None },
                        Some(field) => {
                            let first = sign_extended(field, 14);
                            FieldOutcome {
                                rest: after_bits(rest1, 14),
                                delta: Some(first),
                                word: Some(previous.wrapping_add(first)),
                            }
                        },
                    }
                } else {
                    FieldOutcome { rest: rest1, delta, word: None }
                }
            },
        },
        Some(previous_delta) => match take_bits(rest, 1) {
            None => FieldOutcome { rest, delta, word: None },
            Some(control) => {
                let rest1 = after_bits(rest, 1);
                if control == 0 {
                    FieldOutcome {
                        rest: rest1,
                        delta,
                        word: Some(previous.wrapping_add(previous_delta)),
                    }
                } else {
                    match take_bits(rest1, 1) {
                        None => FieldOutcome { rest: rest1, delta, word: None },
                        Some(second) => {
                            let rest2 = after_bits(rest1, 1);
                            let width: usize = if second == 0 {
                                7
                            } else {
                                12
                            };
                            match take_bits(rest2, width) {
                                None => FieldOutcome { rest: rest2, delta, word: None },
                                Some(field) => {
                                    let next = previous_delta.wrapping_add(
                                        sign_extended(field, width as nat),
                                    );
                                    FieldOutcome {
                                        rest: after_bits(rest2, width),
                                        delta: Some(next),
                                        word: Some(previous.wrapping_add(next)),
                                    }
                                },
                            }
                        },
                    }
                }
            },
        },
    }
}

/// How far the meaningful bits of an XOR are shifted back to their place.
pub open spec fn restored_shift(leading: u64, meaningful: u64) -> u64 {
    if leading + meaningful >= 64 {
        0
    } else {
        (64 - leading - meaningful) as u64
    }
}

/// The number of meaningful bits that a 6-bit length field stands for: 1 to
/// 63 as they are, and 64 as 0.
pub open spec fn stored_length(field: u64) -> u64 {
    if field == 0 {
        64
    } else {
        field
    }
}

/// Decoding a value that follows `previous`, from the front of `rest`. The
/// delta of the outcome is not used.
pub open spec fn decode_value(rest: Seq<bool>, previous: u64) -> FieldOutcome {
    match take_bits(rest, 1) {
        None => FieldOutcome { rest, delta: None, word: None },
        Some(control) => {
            let rest1 = after_bits(rest, 1);
            if control == 0 {
                FieldOutcome { rest: rest1, delta: None, word: Some(previous) }
            } else {
                match take_bits(rest1, 6) {
                    None => FieldOutcome { rest: rest1, delta: None, word: None },
                    Some(leading) => {
                        let rest2 = after_bits(rest1, 6);
                        match take_bits(rest2, 6) {
                            None => FieldOutcome { rest: rest2, delta: None, word: None },
                            Some(length) => {
                                let rest3 = after_bits(rest2, 6);
                                let meaningful = stored_length(length);
                                if meaningful > 64 {
                                    FieldOutcome { rest: rest3, delta: None, word: Some(previous) }
                                } else {
                                    match take_bits(rest3, meaningful as usize) {
                                        None => FieldOutcome {
                                            rest: rest3,
                                            delta: None,
                                            word: None,
                                        },
                                        Some(field) => FieldOutcome {
                                            rest: after_bits(rest3, meaningful as usize),
                                            delta: None,
                                            word: Some(
                                                previous ^ (field << restored_shift(
                                                    leading,
                                                    meaningful,
                                                )),
                                            ),
                                        },
                                    }
                                }
                            },
                        }
                    },
                }
            }
        },
    }
}

impl DecoderState {
    /// A decoder at the start of `bytes`.
    pub open spec fn start(bytes: Seq<u8>) -> DecoderState {
        DecoderState { rest: unpack(bytes), history: History::start(), finished: false }
    }

    /// One decoding step: the state after it and the sample it yields, if any.
    #[verifier::opaque]
    pub open spec fn step(self) -> (DecoderState, Option<(u64, u64)>) {
        if self.finished || self.rest.len() == 0 {
            (self, None)
        } else {
            match self.history.last {
                None => match take_bits(self.rest, 64) {
                    None => (self, None),
                    Some(timestamp) => {
                        let rest1 = after_bits(self.rest, 64);
                        match take_bits(rest1, 64) {
                            None => (DecoderState { rest: rest1, ..self }, None),
                            Some(value) => (
                                DecoderState {
                                    rest: after_bits(rest1, 64),
                                    history: History {
                                        last: Some((timestamp, value)),
                                        delta: self.history.delta,
                                    },
                                    finished: false,
                                },
                                Some((timestamp, value)),
                            ),
                        }
                    },
                },
                Some((previous, previous_value)) => {
                    if take_bits(self.rest, 8) == Some(0xFFu64) {
                        (DecoderState { rest: after_bits(self.rest, 8), finished: true, ..self }, None)
                    } else {
                        let t = decode_timestamp(self.rest, self.history.delta, previous);
                        let kept = History { last: self.history.last, delta: t.delta };
                        match t.word {
                            None => (
                                DecoderState { rest: t.rest, history: kept, finished: false },
                                None,
                            ),
                            Some(timestamp) => {
                                let v = decode_value(t.rest, previous_value);
                                match v.word {
                                    None => (
                                        DecoderState { rest: v.rest, history: kept, finished: false },
                                        None,
                                    ),
                                    Some(value) => (
                                        DecoderState {
                                            rest: v.rest,
                                            history: History {
                                                last: Some((timestamp, value)),
                                                delta: t.delta,
                                            },
                                            finished: false,
                                        },
                                        Some((timestamp, value)),
                                    ),
                                }
                            },
                        }
                    }
                },
            }
        }
    }

    /// Every sample that the decoder yields before its first failure to yield
    /// one.
    pub open spec fn run(self) -> Seq<(u64, u64)>
        decreases self.rest.len(),
    {
        let (next, sample) = self.step();
        match sample {
            None => Seq::empty(),
            Some(s) => if next.rest.len() < self.rest.len() {
                seq![s] + next.run()
            } else {
                seq![s]
            },
        }
    }
}

/// The samples that a byte buffer decodes to.
pub open spec fn gorilla_decode(bytes: Seq<u8>) -> Seq<(u64, u64)> {
    DecoderState::start(bytes).run()
}

/// A step that yields a sample consumes at least one bit.
pub proof fn lemma_step_consumes(state: DecoderState)
    ensures
        state.step().1.is_some() ==> state.step().0.rest.len() < state.rest.len(),
        state.step().0.rest.len() <= state.rest.len(),
{
    reveal(DecoderState::step);
}

/// The decoder of a stream of samples.
#[derive(Debug)]
pub struct GorillaDecompressor {
    reader: GorillaBitReader,
    last: Option<(u64, u64)>,
    delta: Option<u64>,
    finished: bool,
}

impl View for GorillaDecompressor {
    type V = DecoderState;

    closed spec fn view(&self) -> DecoderState {
        DecoderState {
            rest: self.reader.remaining(),
            history: History { last: self.last, delta: self.delta },
            finished: self.finished,
        }
    }
}

impl GorillaDecompressor {
    /// The reader of the decoder is well formed.
    pub closed spec fn wf(&self) -> bool {
        self.reader.wf()
    }

    /// A decoder at the start of the stream `data`.
    pub fn new(data: Vec<u8>) -> (decompressor: Self)
        ensures
            decompressor.wf(),
            decompressor@ == DecoderState::start(data@),
    {
        let decompressor = Self {
            reader: GorillaBitReader::new(data),
            last: None,
            delta: None,
            finished: false,
        };
        assert(decompressor.reader.remaining() =~= unpack(data@));
        decompressor
    }

    /// Decodes the next sample. Returns `None` at the end marker, when the
    /// bits run out, and on a malformed field.
    pub fn decompress_next(&mut self) -> (sample: Option<(u64, u64)>)
        requires
            old(self).wf(),
        ensures
            final(self).wf(),
            (final(self)@, sample) == old(self)@.step(),
    {
        proof {
            reveal(DecoderState::step);
        }
        if self.finished || !self.reader.has_more_data() {
            return None;
        }
        match self.last {
            None => {
                let timestamp: u64 = match self.reader.read_bits(64) {
                    Some(word) => word,
                    None => {
                        return None;
                    },
                };
                let value: u64 = match self.reader.read_bits(64) {
                    Some(word) => word,
                    None => {
                        return None;
                    },
                };
                self.last = Some((timestamp, value));
                Some((timestamp, value))
            },
            Some((previous, previous_value)) => {
                match self.reader.peek_bits(8) {
                    Some(marker) => {
                        if marker == 0b11111111 {
                            let _ = self.reader.read_bits(8);
                            self.finished = true;
                            return None;
                        }
                    },
                    None => {},
                }
                let timestamp: u64 = match self.decompress_timestamp(previous) {
                    Some(word) => word,
                    None => {
                        return None;
                    },
                };
                let value: u64 = match self.decompress_value(previous_value) {
                    Some(word) => word,
                    None => {
                        return None;
                    },
                };
                self.last = Some((timestamp, value));
                Some((timestamp, value))
            },
        }
    }

    fn decompress_timestamp(&mut self, previous: u64) -> (timestamp: Option<u64>)
        requires
            old(self).wf(),
        ensures
            final(self).wf(),
            final(self).last == old(self).last,
            final(self).finished == old(self).finished,
            (FieldOutcome {
                rest: final(self).reader.remaining(),
                delta: final(self).delta,
                word: timestamp,
            }) == decode_timestamp(old(self).reader.remaining(), old(self).delta, previous),
    {
        match self.delta {
            None => {
                let control: u64 = match self.reader.read_bits(2) {
                    Some(word) => word,
                    None => {
                        return None;
                    },
                };
                if control == 0b10 {
                    let field: u64 = match self.reader.read_bits(14) {
                        Some(word) => word,
                        None => {
                            return None;
                        },
                    };
                    let first: u64 = if field > 8191 {
                        field.wrapping_sub(16384)
                    } else {
                        field
                    };
                    self.delta = Some(first);
                    Some(previous.wrapping_add(first))
                } else {
                    None
                }
            },
            Some(previous_delta) => {
                let control: u64 = match self.reader.read_bits(1) {
                    Some(word) => word,
                    None => {
                        return None;
                    },
                };
                if control == 0 {
                    Some(previous.wrapping_add(previous_delta))
                } else {
                    let second: u64 = match self.reader.read_bits(1) {
                        Some(word) => word,
                        None => {
                            return None;
                        },
                    };
                    let dod: u64 = if second == 0 {
                        let field: u64 = match self.reader.read_bits(7) {
                            Some(word) => word,
                            None => {
                                return None;
                            },
                        };
                        if field > 64 {
                            field.wrapping_sub(128)
                        } else {
                            field
                        }
                    } else {
                        let field: u64 = match self.reader.read_bits(12) {
                            Some(word) => word,
                            None => {
                                return None;
                            },
                        };
                        if field > 2047 {
                            field.wrapping_sub(4096)
                        } else {
                            field
                        }
                    };
                    let next: u64 = previous_delta.wrapping_add(dod);
                    self.delta = Some(next);
                    Some(previous.wrapping_add(next))
                }
            },
        }
    }

    fn decompress_value(&mut self, previous: u64) -> (value: Option<u64>)
        requires
            old(self).wf(),
        ensures
            final(self).wf(),
            final(self).last == old(self).last,
            final(self).delta == old(self).delta,
            final(self).finished == old(self).finished,
            final(self).reader.remaining() == decode_value(
                old(self).reader.remaining(),
                previous,
            ).rest,
            value == decode_value(old(self).reader.remaining(), previous).word,
    {
        let control: u64 = match self.reader.read_bits(1) {
            Some(word) => word,
            None => {
                return None;
            },
        };
        if control == 0 {
            return Some(previous);
        }
        let leading: u64 = match self.reader.read_bits(6) {
            Some(word) => word,
            None => {
                return None;
            },
        };
        let length: u64 = match self.reader.read_bits(6) {
            Some(word) => word,
            None => {
                return None;
            },
        };
        let meaningful: u64 = if length == 0 {
            64
        } else {
            length
        };
        if meaningful > 64 {
            return Some(previous);
        }
        let field: u64 = match self.reader.read_bits(meaningful as usize) {
            Some(word) => word,
            None => {
                return None;
            },
        };
        let shift: u64 = if leading >= 64 - meaningful {
            0
        } else {
            64 - leading - meaningful
        };
        Some(previous ^ (field << shift))
    }

    /// Decodes every sample up to the end of the stream.
    pub fn decompress_all(self) -> (samples: Vec<(u64, u64)>)
        requires
            self.wf(),
        ensures
            samples@ == self@.run(),
    {
        let mut decoder = self;
        let mut results: Vec<(u64, u64)> = Vec::new();
        loop
            invariant
                decoder.wf(),
                results@ + decoder@.run() == self@.run(),
            decreases decoder@.rest.len(),
        {
            let ghost before = decoder@;
            proof {
                lemma_step_consumes(before);
            }
            match decoder.decompress_next() {
                Some(sample) => {
                    results.push(sample);
                    assert(results@ + decoder@.run() =~= self@.run());
                },
                None => {
                    assert(results@ =~= self@.run());
                    return results;
                },
            }
        }
    }
}

/// Encodes a sequence of samples.
pub fn compress_samples(samples: &Vec<(u64, u64)>) -> (bytes: Vec<u8>)
    ensures
        bytes@ == gorilla_encode(samples@),
{
    let mut compressor = GorillaCompressor::new();
    let mut i: usize = 0;
    while i < samples.len()
        invariant
            i <= samples.len(),
            compressor.wf(),
            compressor@.bits == stream_bits(History::start(), samples@.take(i as int)),
            compressor@.history == History::start().after_all(samples@.take(i as int)),
        decreases samples.len() - i,
    {
        let (timestamp, value) = samples[i];
        compressor.compress_datapoint(timestamp, value);
        proof {
            assert(samples@.take(i + 1).drop_last() =~= samples@.take(i as int));
        }
        i = i + 1;
    }
    proof {
        assert(samples@.take(i as int) =~= samples@);
    }
    compressor.finish()
}

/// Decodes every sample of an encoded stream.
pub fn decompress_samples(bytes: Vec<u8>) -> (samples: Vec<(u64, u64)>)
    ensures
        samples@ == gorilla_decode(bytes@),
{
    GorillaDecompressor::new(bytes).decompress_all()
}

} // verus!
