//! What holds of the coder as a whole.

use crate::dictionary::{
    lemma_first_index_of, lemma_roots_resolve, root_entries, Dictionary, Entry,
};
use crate::stream::{
    code_of, codes_to_bytes, decode_codes, decode_spec, decoder_run, encode_codes, encode_spec,
    encoder_run, encoder_step, lemma_bytes_to_codes_inverts, well_framed, DecodeError,
};
use crate::trie::{lemma_ordered_push, lemma_phrase_push, lemma_walk_is_phrase, ordered, phrase};
use vstd::prelude::*;

verus! {

/// The encoder has read `input` and the decoder has read the codes emitted
/// so far: the decoder is one row behind, has written everything but the
/// pending match, and its next insertion gives the encoder's table.
spec fn in_step(input: Seq<u8>, max_size: nat, clear: bool) -> bool {
    let e = encoder_run(input, max_size, clear);
    &&& e.dict.wf()
    &&& ordered(e.dict.entries)
    &&& e.dict.max_size == max_size
    &&& e.dict.clear_on_overfill == clear
    &&& e.current matches Some(c)
    &&& c < e.dict.entries.len()
    &&& !clear ==> e.dict.entries.len() == 256 + e.codes.len()
    &&& if e.codes.len() == 0 {
        &&& e.dict == Dictionary::initial(max_size, clear)
        &&& c < 256
        &&& input == seq![c as u8]
    } else {
        &&& decoder_run(e.codes, max_size, clear) matches Ok(d)
        &&& d.dict.wf()
        &&& ordered(d.dict.entries)
        &&& d.previous == Some(e.codes.last())
        &&& e.codes.last() < d.dict.entries.len()
        &&& !clear ==> d.dict.entries.len() < max_size
        &&& d.output + phrase(e.dict.entries, c as int) == input
        &&& e.dict == d.dict.insert((phrase(e.dict.entries, c as int)[0], Some(e.codes.last())))
    }
}

/// From a state in step, the decoder reads the pending match as its next
/// code, and then has written all of `input` and holds the encoder's table.
proof fn lemma_emit(input: Seq<u8>, max_size: nat, clear: bool)
    requires
        in_step(input, max_size, clear),
    ensures
        ({
            let e = encoder_run(input, max_size, clear);
            &&& e.current matches Some(c)
            &&& decoder_run(e.codes.push(c), max_size, clear) matches Ok(d)
            &&& d.output == input
            &&& d.previous == Some(c)
            &&& d.dict == e.dict
        }),
{
    let e = encoder_run(input, max_size, clear);
    let c = e.current.unwrap();
    let rows = e.dict.entries;
    assert(e.codes.push(c).drop_last() =~= e.codes);
    if e.codes.len() == 0 {
        lemma_roots_resolve(max_size, clear, c as int);
        assert(e.codes =~= Seq::empty());
        assert(Seq::<u8>::empty() + seq![c as u8] =~= seq![c as u8]);
    } else {
        let d = decoder_run(e.codes, max_size, clear).unwrap();
        let last = e.codes.last();
        let ph = phrase(rows, c as int);
        let old_rows = d.dict.entries;
        lemma_walk_is_phrase(rows, c as int, rows.len());
        lemma_walk_is_phrase(old_rows, last as int, old_rows.len());
        if old_rows.len() < max_size {
            let learned: Entry = (ph[0], Some(last));
            assert(rows == old_rows.push(learned));
            if c < old_rows.len() {
                lemma_walk_is_phrase(old_rows, c as int, old_rows.len());
                lemma_phrase_push(old_rows, learned, c as int);
            } else {
                let pl = phrase(old_rows, last as int);
                lemma_phrase_push(old_rows, learned, last as int);
                assert(rows[c as int] == learned);
                assert(ph == pl.push(ph[0]));
                assert(ph[0] == pl[0]);
            }
        } else {
            lemma_walk_is_phrase(old_rows, c as int, old_rows.len());
        }
    }
}

/// The encoder and the decoder stay in step for as long as the table does
/// not restart.
proof fn lemma_in_step(input: Seq<u8>, max_size: nat, clear: bool)
    requires
        input.len() >= 1,
        max_size <= 65536,
        clear || 256 + encoder_run(input, max_size, clear).codes.len() <= max_size,
    ensures
        in_step(input, max_size, clear),
    decreases input.len(),
{
    let front = input.drop_last();
    let byte = input.last();
    let e0 = encoder_run(front, max_size, clear);
    let e = encoder_run(input, max_size, clear);
    assert(e == encoder_step(e0, byte));
    lemma_first_index_of(e0.dict.entries, (byte, e0.current));
    if input.len() == 1 {
        assert(e0.dict.entries[byte as int] == (byte, None::<u16>));
        assert(input =~= seq![byte]);
    } else {
        lemma_in_step(front, max_size, clear);
        let c0 = e0.current.unwrap();
        let rows = e0.dict.entries;
        lemma_walk_is_phrase(rows, c0 as int, rows.len());
        match e0.dict.find((byte, e0.current)) {
            Some(k) => {
                assert(rows[k] == (byte, Some(c0)));
                assert(k >= 256) by {
                    if k < 256 {
                        assert(rows[k] == (k as u8, None::<u16>));
                    }
                }
                assert(phrase(rows, k) == phrase(rows, c0 as int).push(byte));
                let d = decoder_run(e.codes, max_size, clear).unwrap();
                assert(d.output + phrase(rows, k) =~= (d.output + phrase(rows, c0 as int)).push(
                    byte,
                ));
                assert(front.push(byte) =~= input);
            },
            None => {
                lemma_emit(front, max_size, clear);
                let learned: Entry = (byte, Some(c0));
                let d = decoder_run(e.codes, max_size, clear).unwrap();
                assert(e.codes == e0.codes.push(c0));
                assert(d.dict == e0.dict);
                assert(e.dict == e0.dict.insert(learned));
                if rows.len() < max_size {
                    lemma_ordered_push(rows, learned);
                    assert(e.dict.entries == rows.push(learned));
                }
                assert(e.dict.entries[byte as int] == (byte, None::<u16>));
                assert(phrase(e.dict.entries, byte as int) =~= seq![byte]);
                assert(d.output + seq![byte] =~= front.push(byte));
                assert(front.push(byte) =~= input);
            },
        }
    }
}

/// Decoding the codes of an input gives the input back and leaves the
/// decoder with the encoder's table, in which every row extends an earlier
/// one. This holds whatever the bound on the table, under clear-on-overfill
/// always and under reinitialize-on-overfill when the codes are few enough
/// for the table never to restart.
pub proof fn lemma_codes_round_trip(input: Seq<u8>, max_size: nat, clear_on_overfill: bool)
    requires
        max_size <= 65536,
        clear_on_overfill || 255 + encode_codes(input, max_size, clear_on_overfill).len()
            <= max_size,
    ensures
        decode_codes(encode_codes(input, max_size, clear_on_overfill), max_size, clear_on_overfill)
            == Ok::<Seq<u8>, DecodeError>(input),
        decoder_run(encode_codes(input, max_size, clear_on_overfill), max_size, clear_on_overfill)
            matches Ok(d) && d.dict == encoder_run(input, max_size, clear_on_overfill).dict,
        encoder_run(input, max_size, clear_on_overfill).dict.wf(),
        ordered(encoder_run(input, max_size, clear_on_overfill).dict.entries),
{
    if input.len() == 0 {
        assert(input =~= Seq::empty());
    } else {
        lemma_in_step(input, max_size, clear_on_overfill);
        lemma_emit(input, max_size, clear_on_overfill);
    }
}

/// Round trip: decoding an encoded stream gives the input back. This holds
/// for every input under clear-on-overfill, and under
/// reinitialize-on-overfill for every input whose encoding has at most 65281
/// codes, which are the inputs that never make the table restart.
pub proof fn lemma_decode_inverts_encode(input: Seq<u8>, clear_dict_on_overfill: bool)
    requires
        clear_dict_on_overfill || encode_codes(input, 65536, clear_dict_on_overfill).len()
            <= 65281,
    ensures
        decode_spec(encode_spec(input, clear_dict_on_overfill)) == Ok::<Seq<u8>, DecodeError>(
            input,
        ),
{
    let codes = encode_codes(input, 65536, clear_dict_on_overfill);
    let stream = encode_spec(input, clear_dict_on_overfill);
    lemma_codes_round_trip(input, 65536, clear_dict_on_overfill);
    lemma_bytes_to_codes_inverts(codes);
    assert(stream.skip(3) =~= codes_to_bytes(codes));
    assert(code_of(stream[1], stream[2]) == 65535);
}

/// Determinism: two outputs that `encode` may return for equal inputs under
/// the same policy are equal byte for byte.
pub proof fn lemma_encode_deterministic(
    first_input: Seq<u8>,
    second_input: Seq<u8>,
    clear_dict_on_overfill: bool,
    first_output: Seq<u8>,
    second_output: Seq<u8>,
)
    requires
        first_input == second_input,
        first_output == encode_spec(first_input, clear_dict_on_overfill),
        second_output == encode_spec(second_input, clear_dict_on_overfill),
    ensures
        first_output == second_output,
{
}

/// Growth or reset: an insertion below the bound makes the table one row
/// longer. At the bound, reinitialize-on-overfill cuts the table back to
/// exactly the 256 roots before the row is appended, and clear-on-overfill
/// leaves the table as it is.
pub proof fn lemma_insert_grows_or_resets(dict: Dictionary, entry: Entry)
    requires
        dict.wf(),
    ensures
        dict.insert(entry).wf(),
        dict.insert(entry).max_size == dict.max_size,
        dict.insert(entry).clear_on_overfill == dict.clear_on_overfill,
        dict.entries.len() < dict.max_size ==> {
            &&& dict.insert(entry).entries == dict.entries.push(entry)
            &&& dict.insert(entry).entries.len() == dict.entries.len() + 1
        },
        dict.entries.len() >= dict.max_size && !dict.clear_on_overfill ==> {
            &&& dict.insert(entry).entries.drop_last() == root_entries()
            &&& dict.insert(entry).entries.drop_last().len() == 256
            &&& dict.insert(entry).entries.last() == entry
        },
        dict.entries.len() >= dict.max_size && dict.clear_on_overfill ==> dict.insert(entry)
            == dict,
{
    assert(root_entries().push(entry).drop_last() =~= root_entries());
}

/// Corruption of the first code: a well-framed stream whose first code is
/// 256 or more is refused as corrupted.
pub proof fn lemma_first_code_out_of_range(stream: Seq<u8>)
    requires
        well_framed(stream),
        stream.len() >= 5,
        code_of(stream[3], stream[4]) >= 256,
    ensures
        decode_spec(stream) == Err::<Seq<u8>, DecodeError>(DecodeError::CorruptedInput),
{
    let codes = crate::stream::bytes_to_codes(stream.skip(3));
    let max_size = (code_of(stream[1], stream[2]) + 1) as nat;
    let clear = stream[0] == 0;
    assert(codes[0] == code_of(stream[3], stream[4]));
    assert(codes.take(1).drop_last() =~= Seq::<u16>::empty());
    lemma_roots_resolve(max_size, clear, codes[0] as int);
    assert(decoder_run(Seq::<u16>::empty(), max_size, clear) == Ok::<
        crate::stream::DecoderState,
        DecodeError,
    >(crate::stream::decoder_start(max_size, clear)));
    assert(codes.take(1).last() == codes[0]);
    assert(decoder_run(codes.take(1), max_size, clear) == Err::<
        crate::stream::DecoderState,
        DecodeError,
    >(DecodeError::CorruptedInput));
    crate::stream::lemma_decoder_error_is_final(codes, 1, max_size, clear);
}

/// Truncation: a stream cut so that a single byte trails its last complete
/// code, or so that the header is incomplete, is refused as malformed.
pub proof fn lemma_truncated_stream_is_malformed(stream: Seq<u8>)
    requires
        stream.len() < 3 || (stream.len() - 3) % 2 == 1,
    ensures
        decode_spec(stream) == Err::<Seq<u8>, DecodeError>(DecodeError::MalformedFraming),
{
}

} // verus!
