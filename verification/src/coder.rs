//! The executable coder: a dictionary held in a vector, with a hash map from
//! rows to their first index for lookup, and the two transforms built on it.

use crate::dictionary::{
    first_index_of, lemma_first_index_of, lemma_roots_resolve, lemma_walk_nonempty, root_entries,
    walk, Dictionary, Entry, MAX_DICT_SIZE, ROOT_COUNT,
};
use crate::laws::lemma_first_code_out_of_range;
use crate::stream::{
    bytes_to_codes, code_of, codes_to_bytes, decode_codes, decode_spec, decoder_run, encode_spec,
    encoder_run, header, high_byte, lemma_codes_to_bytes_push, lemma_decoder_error_is_final,
    low_byte, well_framed, DecodeError, DecoderState, HEADER_LEN,
};
use std::collections::HashMap;
use vstd::prelude::*;

verus! {

broadcast use vstd::std_specs::hash::group_hash_axioms;

/// An LZW dictionary together with its size bound and overflow policy.
pub struct LZWCoder {
    dict: Vec<(u8, Option<u16>)>,
    /// For every row in `dict`, the first index at which it stands.
    index: HashMap<u32, u16>,
    max_dict_size: usize,
    clear_dict_on_overfill: bool,
}

impl View for LZWCoder {
    type V = Dictionary;

    closed spec fn view(&self) -> Dictionary {
        Dictionary {
            entries: self.dict@,
            max_size: self.max_dict_size as nat,
            clear_on_overfill: self.clear_dict_on_overfill,
        }
    }
}

/// What `walk` gives for the row where the walk started, once it is known
/// for the row reached so far and the bytes passed on the way are at hand
/// (last byte of the sequence first).
spec fn with_suffix(reached: Option<Seq<u8>>, passed: Seq<u8>) -> Option<Seq<u8>> {
    match reached {
        Some(prefix) => Some(prefix + passed.reverse()),
        None => None,
    }
}

/// The number under which a row is filed in the index: the byte in the low
/// eight bits, above it 0 for a row without a parent and the parent's index
/// plus one otherwise.
spec fn key_of(entry: Entry) -> u32 {
    match entry.1 {
        None => entry.0 as u32,
        Some(parent) => ((parent + 1) * 256 + entry.0) as u32,
    }
}

/// The index knows exactly the rows of the table, each with its first index.
spec fn indexes(index: Map<u32, u16>, rows: Seq<Entry>) -> bool {
    forall|entry: Entry|
        match first_index_of(rows, entry) {
            Some(k) => index.contains_key(#[trigger] key_of(entry)) && index[key_of(entry)] == k,
            None => !index.contains_key(key_of(entry)),
        }
}

proof fn lemma_key_of_is_injective(a: Entry, b: Entry)
    ensures
        key_of(a) == key_of(b) ==> a == b,
{
}

fn entry_key(entry: (u8, Option<u16>)) -> (key: u32)
    ensures
        key == key_of(entry),
{
    match entry.1 {
        None => entry.0 as u32,
        Some(parent) => (parent as u32 + 1) * 256 + entry.0 as u32,
    }
}

/// Writes `code` as two bytes, low byte first.
fn push_code(output: &mut Vec<u8>, code: u16)
    ensures
        final(output)@ == old(output)@ + seq![low_byte(code), high_byte(code)],
{
    output.push((code % 256) as u8);
    output.push((code / 256) as u8);
    assert(output@ =~= old(output)@ + seq![low_byte(code), high_byte(code)]);
}

/// Reads the code whose low byte is `low` and whose high byte is `high`.
fn read_code(low: u8, high: u8) -> (code: u16)
    ensures
        code == code_of(low, high),
{
    low as u16 + 256 * (high as u16)
}

fn append_bytes(output: &mut Vec<u8>, bytes: &Vec<u8>)
    ensures
        final(output)@ == old(output)@ + bytes@,
{
    let n = bytes.len();
    let mut i: usize = 0;
    while i < n
        invariant
            n == bytes@.len(),
            i <= n,
            output@ == old(output)@ + bytes@.take(i as int),
        decreases n - i,
    {
        output.push(bytes[i]);
        assert(output@ =~= old(output)@ + bytes@.take(i + 1));
        i += 1;
    }
    assert(bytes@.take(n as int) =~= bytes@);
}

impl LZWCoder {
    /// The lookup index agrees with the table.
    pub closed spec fn indexed(&self) -> bool {
        indexes(self.index@, self.dict@)
    }

    /// The roots are in place, every index fits in 16 bits, and the lookup
    /// index agrees with the table.
    pub open spec fn wf(&self) -> bool {
        self@.wf() && self.indexed()
    }

    /// Appends a row and files it in the index unless an equal row is there.
    fn push_row(&mut self, entry: (u8, Option<u16>))
        requires
            old(self).indexed(),
            old(self).dict@.len() < 65536,
        ensures
            final(self).indexed(),
            final(self).dict@ == old(self).dict@.push(entry),
            final(self).max_dict_size == old(self).max_dict_size,
            final(self).clear_dict_on_overfill == old(self).clear_dict_on_overfill,
    {
        let key = entry_key(entry);
        if !self.index.contains_key(&key) {
            self.index.insert(key, self.dict.len() as u16);
        }
        self.dict.push(entry);
        proof {
            let rows = old(self).dict@;
            assert(self.dict@.drop_last() =~= rows);
            assert forall|other: Entry|
                match first_index_of(self.dict@, other) {
                    Some(k) => self.index@.contains_key(#[trigger] key_of(other))
                        && self.index@[key_of(other)] == k,
                    None => !self.index@.contains_key(key_of(other)),
                } by {
                lemma_key_of_is_injective(other, entry);
                lemma_first_index_of(rows, other);
                assert(key_of(entry) == key);
                assert(match first_index_of(rows, other) {
                    Some(k) => old(self).index@.contains_key(key_of(other)) && old(
                        self,
                    ).index@[key_of(other)] == k,
                    None => !old(self).index@.contains_key(key_of(other)),
                });
            }
        }
    }

    /// A coder with a freshly initialized dictionary.
    pub fn new(max_dict_size: usize, clear_dict_on_overfill: bool) -> (coder: LZWCoder)
        requires
            max_dict_size <= MAX_DICT_SIZE,
        ensures
            coder.wf(),
            coder@ == Dictionary::initial(max_dict_size as nat, clear_dict_on_overfill),
    {
        let mut coder = LZWCoder {
            dict: Vec::new(),
            index: HashMap::new(),
            max_dict_size,
            clear_dict_on_overfill,
        };
        coder.set_init_dict();
        coder
    }

    /// Clears the table and puts the 256 single-byte rows back, row `i`
    /// holding byte `i`.
    pub fn set_init_dict(&mut self)
        requires
            old(self)@.max_size <= MAX_DICT_SIZE,
        ensures
            final(self).wf(),
            final(self)@ == Dictionary::initial(old(self)@.max_size, old(self)@.clear_on_overfill),
            forall|i: int| 0 <= i < 256 ==> final(self)@.resolve(i) == Some(seq![i as u8]),
    {
        self.dict.clear();
        self.index.clear();
        let mut i: usize = 0;
        while i < ROOT_COUNT
            invariant
                i <= 256,
                self.dict@.len() == i,
                self.indexed(),
                self.max_dict_size == old(self).max_dict_size,
                self.clear_dict_on_overfill == old(self).clear_dict_on_overfill,
                forall|j: int| 0 <= j < i ==> #[trigger] self.dict@[j] == (j as u8, None::<u16>),
            decreases 256 - i,
        {
            self.push_row((i as u8, None));
            i += 1;
        }
        proof {
            assert(self.dict@ =~= root_entries());
            assert forall|i: int| 0 <= i < 256 implies self@.resolve(i) == Some(seq![i as u8]) by {
                lemma_roots_resolve(self@.max_size, self@.clear_on_overfill, i);
            }
        }
    }

    /// Index of the first row equal to `entry`, or `None` when no row is
    /// equal to it. The answer is that of a scan from row 0 upwards; it is
    /// read from the lookup index.
    pub fn find_seq_in_dict(&self, entry: (u8, Option<u16>)) -> (found: Option<u16>)
        requires
            self.wf(),
        ensures
            match found {
                Some(k) => {
                    &&& self@.find(entry) == Some(k as int)
                    &&& k < self@.entries.len()
                    &&& self@.entries[k as int] == entry
                    &&& forall|j: int| 0 <= j < k ==> self@.entries[j] != entry
                },
                None => {
                    &&& self@.find(entry) is None
                    &&& forall|j: int| 0 <= j < self@.entries.len() ==> self@.entries[j] != entry
                },
            },
    {
        let key = entry_key(entry);
        proof {
            lemma_first_index_of(self.dict@, entry);
        }
        match self.index.get(&key) {
            Some(k) => Some(*k),
            None => None,
        }
    }

    /// Appends `entry` at the next index. When the table has reached its
    /// bound, the row is dropped under clear-on-overfill, and under
    /// reinitialize-on-overfill the table is first cut back to its 256 roots.
    pub fn add_seq_to_dict(&mut self, entry: (u8, Option<u16>))
        requires
            old(self).wf(),
        ensures
            final(self).wf(),
            final(self)@ == old(self)@.insert(entry),
    {
        if self.dict.len() >= self.max_dict_size {
            if self.clear_dict_on_overfill {
                return ;
            } else {
                self.set_init_dict();
            }
        }
        self.push_row(entry);
    }

    /// The byte sequence that `idx` denotes: walks the parent links from row
    /// `idx` to a root and returns the bytes root first. `None` when `idx` is
    /// not in the table or its links do not lead to a root.
    pub fn recover_seq_from_dict(&self, idx: u16) -> (seq: Option<Vec<u8>>)
        requires
            self.wf(),
        ensures
            match seq {
                Some(bytes) => self@.resolve(idx as int) == Some(bytes@),
                None => self@.resolve(idx as int) is None,
            },
    {
        let n = self.dict.len();
        let mut passed: Vec<u8> = Vec::new();
        let mut at: usize = idx as usize;
        let mut links: usize = 0;
        loop
            invariant_except_break
                n == self.dict@.len(),
                links <= n,
                walk(self.dict@, idx as int, n as nat) == with_suffix(
                    walk(self.dict@, at as int, (n - links) as nat),
                    passed@,
                ),
            ensures
                walk(self.dict@, idx as int, self.dict@.len()) == Some(passed@.reverse()),
            decreases n - links,
        {
            if at >= n {
                return None;
            }
            let row = self.dict[at];
            let ghost before = passed@;
            passed.push(row.0);
            match row.1 {
                None => {
                    proof {
                        assert(seq![row.0] + before.reverse() =~= passed@.reverse());
                    }
                    break ;
                },
                Some(parent) => {
                    if links == n {
                        return None;
                    }
                    proof {
                        let rest = walk(self.dict@, parent as int, (n - links - 1) as nat);
                        if rest is Some {
                            assert(rest.unwrap().push(row.0) + before.reverse()
                                =~= rest.unwrap() + passed@.reverse());
                        }
                    }
                    links += 1;
                    at = parent as usize;
                },
            }
        }
        let mut bytes: Vec<u8> = Vec::new();
        let mut left: usize = passed.len();
        while left > 0
            invariant
                left <= passed@.len(),
                bytes@.len() == passed@.len() - left,
                forall|j: int| 0 <= j < bytes@.len() ==> bytes@[j] == passed@[passed@.len() - 1 - j],
            decreases left,
        {
            left -= 1;
            bytes.push(passed[left]);
        }
        proof {
            assert(bytes@ =~= passed@.reverse());
        }
        Some(bytes)
    }

    /// Whether the next inserted row would get index `code`.
    fn inserts_at(&self, code: u16) -> (yes: bool)
        requires
            self.wf(),
        ensures
            yes == (self@.insert_index() == Some(code as int)),
    {
        if self.dict.len() < self.max_dict_size {
            self.dict.len() == code as usize
        } else {
            !self.clear_dict_on_overfill && code as usize == ROOT_COUNT
        }
    }

    /// Index of the row inserted last.
    pub fn get_last_dict_index(&self) -> (last: u16)
        requires
            self.wf(),
        ensures
            last == self@.entries.len() - 1,
    {
        (self.dict.len() - 1) as u16
    }

    /// Compresses `input` with a dictionary of at most 65536 rows. With
    /// `clear_dict_on_overfill` the rows that no longer fit are dropped;
    /// without it the table restarts from its 256 roots when it is full.
    ///
    /// The stream starts with the policy flag and the last valid dictionary
    /// index; the codes follow, two bytes each, one for every match that
    /// could not be extended and one for the match pending at the end. The
    /// result depends on `input` and the policy alone.
    pub fn encode(input: &[u8], clear_dict_on_overfill: bool) -> (output: Vec<u8>)
        ensures
            output@ == encode_spec(input@, clear_dict_on_overfill),
    {
        let mut output: Vec<u8> = Vec::new();
        let mut coder = LZWCoder::new(MAX_DICT_SIZE, clear_dict_on_overfill);
        output.push(if clear_dict_on_overfill { 0 } else { 1 });
        push_code(&mut output, (coder.max_dict_size - 1) as u16);
        assert(output@ =~= header(clear_dict_on_overfill, 65536));

        let mut current: Option<u16> = None;
        let n = input.len();
        let mut i: usize = 0;
        while i < n
            invariant
                n == input@.len(),
                i <= n,
                coder.wf(),
                coder@ == encoder_run(input@.take(i as int), 65536, clear_dict_on_overfill).dict,
                current == encoder_run(input@.take(i as int), 65536, clear_dict_on_overfill).current,
                output@ == header(clear_dict_on_overfill, 65536) + codes_to_bytes(
                    encoder_run(input@.take(i as int), 65536, clear_dict_on_overfill).codes,
                ),
            decreases n - i,
        {
            let byte = input[i];
            let ghost before = encoder_run(input@.take(i as int), 65536, clear_dict_on_overfill);
            proof {
                assert(input@.take(i + 1).drop_last() =~= input@.take(i as int));
            }
            match coder.find_seq_in_dict((byte, current)) {
                Some(k) => {
                    current = Some(k);
                },
                None => {
                    if let Some(c) = current {
                        push_code(&mut output, c);
                        proof {
                            lemma_codes_to_bytes_push(before.codes, c);
                            assert(output@ =~= header(clear_dict_on_overfill, 65536)
                                + codes_to_bytes(before.codes.push(c)));
                        }
                    }
                    coder.add_seq_to_dict((byte, current));
                    current = Some(byte as u16);
                },
            }
            i += 1;
        }
        let ghost end = encoder_run(input@, 65536, clear_dict_on_overfill);
        proof {
            assert(input@.take(n as int) =~= input@);
        }
        if let Some(c) = current {
            push_code(&mut output, c);
            proof {
                lemma_codes_to_bytes_push(end.codes, c);
                assert(output@ =~= header(clear_dict_on_overfill, 65536) + codes_to_bytes(
                    end.codes.push(c),
                ));
            }
        }
        output
    }

    /// Expands a stream written by `encode`. The stream is refused as
    /// malformed when it is shorter than the header or a single byte trails
    /// the last code, and as corrupted when a code denotes no sequence: the
    /// first code when it is not below 256, a later code when it neither
    /// resolves nor is the index of the row about to be inserted.
    ///
    /// The dictionary is rebuilt with the bound and the policy that the header
    /// records. Under reinitialize-on-overfill a code is resolved before the
    /// insertion that may restart the table, so the code that follows a
    /// restart is read against the table from before it.
    pub fn decode(input: &[u8]) -> (result: Result<Vec<u8>, DecodeError>)
        ensures
            match result {
                Ok(bytes) => decode_spec(input@) == Ok::<Seq<u8>, DecodeError>(bytes@),
                Err(e) => decode_spec(input@) == Err::<Seq<u8>, DecodeError>(e),
            },
            result matches Err(DecodeError::MalformedFraming) <==> !well_framed(input@),
            well_framed(input@) && input@.len() >= 5 && code_of(input@[3], input@[4]) >= 256
                ==> result matches Err(DecodeError::CorruptedInput),
    {
        let n = input.len();
        if n < HEADER_LEN || (n - HEADER_LEN) % 2 != 0 {
            return Err(DecodeError::MalformedFraming);
        }
        proof {
            if n >= 5 && code_of(input@[3], input@[4]) >= 256 {
                lemma_first_code_out_of_range(input@);
            }
        }
        let clear_dict_on_overfill = input[0] == 0;
        let max_dict_size = read_code(input[1], input[2]) as usize + 1;
        let mut coder = LZWCoder::new(max_dict_size, clear_dict_on_overfill);
        let mut output: Vec<u8> = Vec::new();
        let mut previous: Option<u16> = None;

        let count = (n - HEADER_LEN) / 2;
        let ghost codes = bytes_to_codes(input@.skip(3));
        let mut i: usize = 0;
        while i < count
            invariant
                n == input@.len(),
                n == 3 + 2 * count,
                i <= count,
                codes == bytes_to_codes(input@.skip(3)),
                codes.len() == count,
                coder.wf(),
                decoder_run(codes.take(i as int), max_dict_size as nat, clear_dict_on_overfill)
                    == Ok::<DecoderState, DecodeError>(
                    DecoderState { dict: coder@, previous, output: output@ },
                ),
                decode_spec(input@) == decode_codes(
                    codes,
                    max_dict_size as nat,
                    clear_dict_on_overfill,
                ),
            decreases count - i,
        {
            let code = read_code(input[HEADER_LEN + 2 * i], input[HEADER_LEN + 2 * i + 1]);
            let ghost written = output@;
            proof {
                assert(code == codes[i as int]);
                assert(codes.take(i + 1).drop_last() =~= codes.take(i as int));
                assert(codes.take(i + 1).last() == code);
                lemma_walk_nonempty(coder@.entries, code as int, coder@.entries.len());
            }
            match coder.recover_seq_from_dict(code) {
                Some(sequence) => {
                    append_bytes(&mut output, &sequence);
                    if let Some(p) = previous {
                        coder.add_seq_to_dict((sequence[0], Some(p)));
                    }
                    previous = Some(code);
                },
                None => {
                    let p = match previous {
                        Some(p) => p,
                        None => {
                            proof {
                                lemma_decoder_error_is_final(
                                    codes,
                                    i + 1,
                                    max_dict_size as nat,
                                    clear_dict_on_overfill,
                                );
                            }
                            return Err(DecodeError::CorruptedInput);
                        },
                    };
                    proof {
                        lemma_walk_nonempty(coder@.entries, p as int, coder@.entries.len());
                    }
                    let previous_sequence = match coder.recover_seq_from_dict(p) {
                        Some(s) => s,
                        None => {
                            proof {
                                lemma_decoder_error_is_final(
                                    codes,
                                    i + 1,
                                    max_dict_size as nat,
                                    clear_dict_on_overfill,
                                );
                            }
                            return Err(DecodeError::CorruptedInput);
                        },
                    };
                    if !coder.inserts_at(code) {
                        proof {
                            lemma_decoder_error_is_final(
                                codes,
                                i + 1,
                                max_dict_size as nat,
                                clear_dict_on_overfill,
                            );
                        }
                        return Err(DecodeError::CorruptedInput);
                    }
                    let first = previous_sequence[0];
                    append_bytes(&mut output, &previous_sequence);
                    output.push(first);
                    assert(output@ =~= written + previous_sequence@.push(first));
                    coder.add_seq_to_dict((first, Some(p)));
                    previous = Some(coder.get_last_dict_index());
                },
            }
            i += 1;
        }
        proof {
            assert(codes.take(count as int) =~= codes);
        }
        Ok(output)
    }
}

} // verus!
