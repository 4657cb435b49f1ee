//! The encoded stream and the two transforms as mathematical models: the
//! three-byte header, codes as little-endian byte pairs, and the encoder and
//! decoder as folds of a step function over their input.
//!
//! Every stream carries the header; there is no headerless form.

use crate::dictionary::Dictionary;
use vstd::prelude::*;

verus! {

/// Why a stream was refused.
#[derive(Clone, Copy, Debug, PartialEq, Eq)]
pub enum DecodeError {
    /// The header is incomplete, or a single byte trails the last complete code.
    MalformedFraming,
    /// A code denotes no sequence: the first code is not in the fresh
    /// dictionary, or a later code neither resolves nor is the index of the
    /// row that the decoder is about to insert.
    CorruptedInput,
}

/// Number of bytes in front of the codes.
pub const HEADER_LEN: usize = 3;

pub open spec fn low_byte(code: u16) -> u8 {
    (code % 256) as u8
}

pub open spec fn high_byte(code: u16) -> u8 {
    (code / 256) as u8
}

/// The code whose little-endian bytes are `low`, `high`.
pub open spec fn code_of(low: u8, high: u8) -> u16 {
    (low + 256 * high) as u16
}

/// Each code as two bytes, low byte first.
pub open spec fn codes_to_bytes(codes: Seq<u16>) -> Seq<u8> {
    Seq::new(
        2 * codes.len(),
        |j: int|
            if j % 2 == 0 {
                low_byte(codes[j / 2])
            } else {
                high_byte(codes[j / 2])
            },
    )
}

/// The codes held by the complete byte pairs of `bytes`.
pub open spec fn bytes_to_codes(bytes: Seq<u8>) -> Seq<u16> {
    Seq::new(bytes.len() / 2, |i: int| code_of(bytes[2 * i], bytes[2 * i + 1]))
}

/// The header: the policy flag (0 for clear-on-overfill, 1 for
/// reinitialize-on-overfill), then the last valid index, `max_size - 1`, as a
/// little-endian 16-bit value.
pub open spec fn header(clear_on_overfill: bool, max_size: nat) -> Seq<u8> {
    seq![
        if clear_on_overfill { 0u8 } else { 1u8 },
        low_byte((max_size - 1) as u16),
        high_byte((max_size - 1) as u16),
    ]
}

/// What the encoder holds between two input bytes.
pub struct EncoderState {
    pub dict: Dictionary,
    /// Index of the longest match so far; `None` before the first byte.
    pub current: Option<u16>,
    /// The codes emitted so far.
    pub codes: Seq<u16>,
}

pub open spec fn encoder_start(max_size: nat, clear_on_overfill: bool) -> EncoderState {
    EncoderState {
        dict: Dictionary::initial(max_size, clear_on_overfill),
        current: None,
        codes: Seq::empty(),
    }
}

/// One input byte: extend the match if the dictionary has the extension;
/// otherwise emit the match, learn the extension and restart from the byte.
pub open spec fn encoder_step(s: EncoderState, byte: u8) -> EncoderState {
    match s.dict.find((byte, s.current)) {
        Some(k) => EncoderState { current: Some(k as u16), ..s },
        None => EncoderState {
            dict: s.dict.insert((byte, s.current)),
            current: Some(byte as u16),
            codes: match s.current {
                Some(c) => s.codes.push(c),
                None => s.codes,
            },
        },
    }
}

pub open spec fn encoder_run(input: Seq<u8>, max_size: nat, clear_on_overfill: bool) -> EncoderState
    decreases input.len(),
{
    if input.len() == 0 {
        encoder_start(max_size, clear_on_overfill)
    } else {
        encoder_step(encoder_run(input.drop_last(), max_size, clear_on_overfill), input.last())
    }
}

/// The codes for `input`: those emitted along the way, then the pending match.
pub open spec fn encode_codes(input: Seq<u8>, max_size: nat, clear_on_overfill: bool) -> Seq<u16> {
    let s = encoder_run(input, max_size, clear_on_overfill);
    match s.current {
        Some(c) => s.codes.push(c),
        None => s.codes,
    }
}

/// The encoded stream for `input` under the given policy.
pub open spec fn encode_spec(input: Seq<u8>, clear_on_overfill: bool) -> Seq<u8> {
    header(clear_on_overfill, 65536) + codes_to_bytes(encode_codes(input, 65536, clear_on_overfill))
}

/// What the decoder holds between two codes.
pub struct DecoderState {
    pub dict: Dictionary,
    /// The code read last; `None` before the first code.
    pub previous: Option<u16>,
    /// The bytes written so far.
    pub output: Seq<u8>,
}

pub open spec fn decoder_start(max_size: nat, clear_on_overfill: bool) -> DecoderState {
    DecoderState {
        dict: Dictionary::initial(max_size, clear_on_overfill),
        previous: None,
        output: Seq::empty(),
    }
}

/// One code. A code that resolves is written out, and the row that the
/// encoder learned when it emitted the previous code is inserted. A code that
/// does not resolve is accepted only as the index of exactly that row, which
/// then denotes the previous sequence followed by its own first byte.
pub open spec fn decoder_step(s: DecoderState, code: u16) -> Result<DecoderState, DecodeError> {
    match s.dict.resolve(code as int) {
        Some(sequence) => Ok(
            DecoderState {
                dict: match s.previous {
                    Some(p) => s.dict.insert((sequence[0], Some(p))),
                    None => s.dict,
                },
                previous: Some(code),
                output: s.output + sequence,
            },
        ),
        None => match s.previous {
            None => Err(DecodeError::CorruptedInput),
            Some(p) => match s.dict.resolve(p as int) {
                None => Err(DecodeError::CorruptedInput),
                Some(previous_sequence) => if s.dict.insert_index() == Some(code as int) {
                    Ok(
                        DecoderState {
                            dict: s.dict.insert((previous_sequence[0], Some(p))),
                            previous: Some(code),
                            output: s.output + previous_sequence.push(previous_sequence[0]),
                        },
                    )
                } else {
                    Err(DecodeError::CorruptedInput)
                },
            },
        },
    }
}

pub open spec fn decoder_run(codes: Seq<u16>, max_size: nat, clear_on_overfill: bool) -> Result<
    DecoderState,
    DecodeError,
>
    decreases codes.len(),
{
    if codes.len() == 0 {
        Ok(decoder_start(max_size, clear_on_overfill))
    } else {
        match decoder_run(codes.drop_last(), max_size, clear_on_overfill) {
            Ok(s) => decoder_step(s, codes.last()),
            Err(e) => Err(e),
        }
    }
}

/// The bytes that `codes` decode to.
pub open spec fn decode_codes(codes: Seq<u16>, max_size: nat, clear_on_overfill: bool) -> Result<
    Seq<u8>,
    DecodeError,
> {
    match decoder_run(codes, max_size, clear_on_overfill) {
        Ok(s) => Ok(s.output),
        Err(e) => Err(e),
    }
}

/// The stream has a full header and a whole number of codes after it.
pub open spec fn well_framed(stream: Seq<u8>) -> bool {
    stream.len() >= 3 && (stream.len() - 3) % 2 == 0
}

/// The bytes that `stream` decodes to, or the reason it is refused.
pub open spec fn decode_spec(stream: Seq<u8>) -> Result<Seq<u8>, DecodeError> {
    if !well_framed(stream) {
        Err(DecodeError::MalformedFraming)
    } else {
        decode_codes(
            bytes_to_codes(stream.skip(3)),
            (code_of(stream[1], stream[2]) + 1) as nat,
            stream[0] == 0,
        )
    }
}

/// One more code adds its two bytes at the end.
pub proof fn lemma_codes_to_bytes_push(codes: Seq<u16>, code: u16)
    ensures
        codes_to_bytes(codes.push(code)) == codes_to_bytes(codes) + seq![
            low_byte(code),
            high_byte(code),
        ],
{
    assert(codes_to_bytes(codes.push(code)) =~= codes_to_bytes(codes) + seq![
        low_byte(code),
        high_byte(code),
    ]);
}

/// Reading back the bytes written for `codes` gives `codes`.
pub proof fn lemma_bytes_to_codes_inverts(codes: Seq<u16>)
    ensures
        bytes_to_codes(codes_to_bytes(codes)) == codes,
{
    let bytes = codes_to_bytes(codes);
    assert forall|i: int| 0 <= i < codes.len() implies code_of(bytes[2 * i], bytes[2 * i + 1])
        == codes[i] by {
        assert((2 * i) % 2 == 0 && (2 * i) / 2 == i);
        assert((2 * i + 1) % 2 == 1 && (2 * i + 1) / 2 == i);
    }
    assert(bytes_to_codes(bytes) =~= codes);
}

/// Once a prefix of the codes is refused, so is every longer sequence of
/// codes, for the same reason.
pub proof fn lemma_decoder_error_is_final(
    codes: Seq<u16>,
    n: int,
    max_size: nat,
    clear_on_overfill: bool,
)
    requires
        0 <= n <= codes.len(),
        decoder_run(codes.take(n), max_size, clear_on_overfill) is Err,
    ensures
        decoder_run(codes, max_size, clear_on_overfill) == decoder_run(
            codes.take(n),
            max_size,
            clear_on_overfill,
        ),
    decreases codes.len() - n,
{
    if n < codes.len() {
        assert(codes.take(n + 1).drop_last() =~= codes.take(n));
        lemma_decoder_error_is_final(codes, n + 1, max_size, clear_on_overfill);
    } else {
        assert(codes.take(n) =~= codes);
    }
}

} // verus!
