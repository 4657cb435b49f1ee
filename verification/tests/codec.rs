use lzw_coder::DecodeError;
use lzw_coder::LZWCoder;

fn stream(flag: u8, last_index: u16, codes: &[u16]) -> Vec<u8> {
    let mut bytes = vec![flag, (last_index % 256) as u8, (last_index / 256) as u8];
    for code in codes {
        bytes.push((code % 256) as u8);
        bytes.push((code / 256) as u8);
    }
    bytes
}

#[test]
fn empty_input_encodes_to_the_header_alone() {
    assert_eq!(LZWCoder::encode(&[], true), vec![0, 0xFF, 0xFF]);
    assert_eq!(LZWCoder::encode(&[], false), vec![1, 0xFF, 0xFF]);
}

#[test]
fn empty_input_round_trips() {
    assert_eq!(LZWCoder::decode(&LZWCoder::encode(&[], true)), Ok(vec![]));
    assert_eq!(LZWCoder::decode(&LZWCoder::encode(&[], false)), Ok(vec![]));
}

#[test]
fn single_byte_encodes_to_one_code() {
    assert_eq!(LZWCoder::encode(&[0x41], true), vec![0, 0xFF, 0xFF, 0x41, 0x00]);
    assert_eq!(LZWCoder::encode(&[0xFF], false), vec![1, 0xFF, 0xFF, 0xFF, 0x00]);
}

#[test]
fn single_byte_round_trips() {
    for byte in 0..=255u8 {
        assert_eq!(LZWCoder::decode(&LZWCoder::encode(&[byte], true)), Ok(vec![byte]));
        assert_eq!(LZWCoder::decode(&LZWCoder::encode(&[byte], false)), Ok(vec![byte]));
    }
}

#[test]
fn header_records_policy_and_last_index() {
    let frozen = LZWCoder::encode(b"abc", true);
    assert_eq!(&frozen[..3], &[0, 0xFF, 0xFF]);
    let restarting = LZWCoder::encode(b"abc", false);
    assert_eq!(&restarting[..3], &[1, 0xFF, 0xFF]);
    assert_eq!(&frozen[3..], &restarting[3..]);
}

#[test]
fn codes_are_little_endian() {
    // "ababab": a, b, then 256 = "ab" twice.
    assert_eq!(LZWCoder::encode(b"ababab", true), stream(0, 0xFFFF, &[97, 98, 256, 256]));
    assert_eq!(
        LZWCoder::encode(b"ababab", true),
        vec![0, 0xFF, 0xFF, 97, 0, 98, 0, 0x00, 0x01, 0x00, 0x01]
    );
}

#[test]
fn textbook_example_encodes_to_known_codes() {
    let input = b"TOBEORNOTTOBEORTOBEORNOT";
    let expected = [
        84, 79, 66, 69, 79, 82, 78, 79, 84, 256, 258, 260, 265, 259, 261, 263,
    ];
    assert_eq!(LZWCoder::encode(input, true), stream(0, 0xFFFF, &expected));
    assert_eq!(LZWCoder::decode(&stream(0, 0xFFFF, &expected)), Ok(input.to_vec()));
}

#[test]
fn encoding_twice_gives_identical_bytes() {
    let input: Vec<u8> = (0..5000u32).map(|i| ((i * i + 7 * i) % 251) as u8).collect();
    assert_eq!(LZWCoder::encode(&input, true), LZWCoder::encode(&input, true));
    assert_eq!(LZWCoder::encode(&input, false), LZWCoder::encode(&input, false));
}

#[test]
fn covering_sequence_round_trips() {
    let encoded = LZWCoder::encode(b"aaaa", true);
    // The second code is the row that the encoder has only just learned.
    assert_eq!(encoded, stream(0, 0xFFFF, &[97, 256, 97]));
    // A decoder that has read only the first code does not hold that row yet.
    assert_eq!(LZWCoder::new(65536, true).recover_seq_from_dict(256), None);
    assert_eq!(LZWCoder::decode(&encoded), Ok(b"aaaa".to_vec()));

    let encoded = LZWCoder::encode(b"aaaa", false);
    assert_eq!(encoded, stream(1, 0xFFFF, &[97, 256, 97]));
    assert_eq!(LZWCoder::decode(&encoded), Ok(b"aaaa".to_vec()));
}

#[test]
fn covering_sequence_updates_the_previous_code() {
    // "aaaaaaa": a, aa (covering), aaa (covering), a.
    let encoded = LZWCoder::encode(b"aaaaaaa", true);
    assert_eq!(encoded, stream(0, 0xFFFF, &[97, 256, 257, 97]));
    assert_eq!(LZWCoder::decode(&encoded), Ok(b"aaaaaaa".to_vec()));
}

#[test]
fn long_repetition_compresses_and_round_trips() {
    let input = vec![b'x'; 1000];
    for clear in [true, false] {
        let encoded = LZWCoder::encode(&input, clear);
        assert!(encoded.len() < input.len());
        // Matches of length 1, 2, ..., 44 cover 990 bytes; the last ten bytes are one more match.
        assert_eq!(encoded.len(), 3 + 2 * 45);
        assert_eq!(LZWCoder::decode(&encoded), Ok(input.clone()));
    }
}

#[test]
fn mixed_input_round_trips() {
    let mut input: Vec<u8> = Vec::new();
    let mut state: u32 = 12345;
    for _ in 0..20000 {
        state = state.wrapping_mul(1103515245).wrapping_add(12345);
        input.push(((state >> 16) % 7) as u8 + b'a');
    }
    for clear in [true, false] {
        let encoded = LZWCoder::encode(&input, clear);
        assert!(encoded.len() < input.len());
        assert_eq!(LZWCoder::decode(&encoded), Ok(input.clone()));
    }
}

#[test]
fn all_byte_values_round_trip() {
    let mut input: Vec<u8> = Vec::new();
    for round in 0..4u32 {
        for b in 0..=255u32 {
            input.push(((b * (2 * round + 1)) % 256) as u8);
        }
    }
    for clear in [true, false] {
        assert_eq!(LZWCoder::decode(&LZWCoder::encode(&input, clear)), Ok(input.clone()));
    }
}

#[test]
fn header_alone_decodes_to_nothing() {
    assert_eq!(LZWCoder::decode(&[0, 0xFF, 0xFF]), Ok(vec![]));
    assert_eq!(LZWCoder::decode(&[1, 0x00, 0x00]), Ok(vec![]));
}

#[test]
fn any_nonzero_flag_selects_reinitialize_on_overfill() {
    // Last index 256: the table holds one learned row. Under
    // reinitialize-on-overfill the fourth code is read after the table has
    // restarted with "bc" as row 256; under clear-on-overfill row 256 stays "ab".
    let codes = [97, 98, 99, 256];
    assert_eq!(LZWCoder::decode(&stream(1, 256, &codes)), Ok(b"abcbc".to_vec()));
    assert_eq!(LZWCoder::decode(&stream(7, 256, &codes)), Ok(b"abcbc".to_vec()));
    assert_eq!(LZWCoder::decode(&stream(0xFF, 256, &codes)), Ok(b"abcbc".to_vec()));
    assert_eq!(LZWCoder::decode(&stream(0, 256, &codes)), Ok(b"abcab".to_vec()));
}

#[test]
fn short_header_is_malformed() {
    assert_eq!(LZWCoder::decode(&[]), Err(DecodeError::MalformedFraming));
    assert_eq!(LZWCoder::decode(&[0]), Err(DecodeError::MalformedFraming));
    assert_eq!(LZWCoder::decode(&[0, 0xFF]), Err(DecodeError::MalformedFraming));
}

#[test]
fn trailing_byte_is_malformed() {
    let mut encoded = LZWCoder::encode(b"hello hello hello", true);
    encoded.pop();
    assert_eq!((encoded.len() - 3) % 2, 1);
    assert_eq!(LZWCoder::decode(&encoded), Err(DecodeError::MalformedFraming));
    assert_eq!(LZWCoder::decode(&[1, 0xFF, 0xFF, 0x41]), Err(DecodeError::MalformedFraming));
}

#[test]
fn trailing_byte_is_reported_before_corruption() {
    assert_eq!(
        LZWCoder::decode(&[0, 0xFF, 0xFF, 0xFF, 0xFF, 0x41]),
        Err(DecodeError::MalformedFraming)
    );
}

#[test]
fn first_code_out_of_range_is_corrupted() {
    let mut encoded = LZWCoder::encode(b"hello hello hello", true);
    encoded[4] = 0x01;
    assert_eq!(LZWCoder::decode(&encoded), Err(DecodeError::CorruptedInput));
    encoded[3] = 0xFF;
    encoded[4] = 0xFF;
    assert_eq!(LZWCoder::decode(&encoded), Err(DecodeError::CorruptedInput));
    assert_eq!(LZWCoder::decode(&stream(1, 0xFFFF, &[256])), Err(DecodeError::CorruptedInput));
}

#[test]
fn unknown_later_code_is_corrupted() {
    // After "a" the only code that may be unknown is 256.
    assert_eq!(LZWCoder::decode(&stream(0, 0xFFFF, &[97, 257])), Err(DecodeError::CorruptedInput));
    assert_eq!(
        LZWCoder::decode(&stream(0, 0xFFFF, &[97, 98, 258])),
        Err(DecodeError::CorruptedInput)
    );
    assert_eq!(
        LZWCoder::decode(&stream(1, 0xFFFF, &[97, 0xFFFF, 98])),
        Err(DecodeError::CorruptedInput)
    );
}

#[test]
fn unknown_code_is_corrupted_once_rows_are_dropped() {
    // Last index 256 under clear-on-overfill: row 256 = "ab" is learned, nothing after it.
    assert_eq!(LZWCoder::decode(&stream(0, 256, &[97, 98, 256])), Ok(b"abab".to_vec()));
    assert_eq!(
        LZWCoder::decode(&stream(0, 256, &[97, 98, 256, 257])),
        Err(DecodeError::CorruptedInput)
    );
    assert_eq!(
        LZWCoder::decode(&stream(0, 256, &[97, 98, 257])),
        Err(DecodeError::CorruptedInput)
    );
}

#[test]
fn decoder_honours_the_bound_in_the_header() {
    // Bound 258 under clear-on-overfill: rows 256 = "ab" and 257 = "ba" are learned.
    let codes = [97, 98, 97, 256, 257, 256];
    assert_eq!(LZWCoder::decode(&stream(0, 257, &codes)), Ok(b"abaabbaab".to_vec()));
    // With room for one more row, 258 = "aa" is learned as well.
    let codes = [97, 98, 97, 258, 257];
    assert_eq!(LZWCoder::decode(&stream(0, 258, &codes)), Ok(b"abaaaba".to_vec()));
    assert_eq!(LZWCoder::decode(&stream(0, 257, &codes)), Err(DecodeError::CorruptedInput));
}
