//! Canonical Huffman codes and the three alphabets of DEFLATE.

use std::collections::HashMap;
use vstd::prelude::*;
use vstd::arithmetic::power2::{pow2, lemma2_to64, lemma_pow2_strictly_increases};
use vstd::std_specs::convert::TryFromSpec;
use crate::bit_reader::{lemma_joined_fits, lemma_read_bits, BitInput, BitReader, BitSequence};
use crate::canonical::{
    code_of, code_overflows, first_code, length_count, lemma_code_fits, lemma_count_bound,
    lemma_count_run, lemma_count_step, lemma_first_code_bound, lemma_first_code_next,
    lemma_not_over_subscribed, lemma_prefix_free, lemma_well_formed, malformed_lengths,
};
use crate::error::{error, place, DecodeError, ErrorKind, Field};

verus! {

/// The index of a symbol in the vector of code lengths that its code was
/// built from.
pub struct HuffmanCodeWord(pub u16);

/// The failure of a conversion from an index that the alphabet does not have.
pub open spec fn no_symbol() -> DecodeError {
    error(ErrorKind::MalformedHuffmanTable, Field::Symbol)
}

/// A symbol of the alphabet in which code lengths are transmitted.
#[derive(Clone, Copy, Debug, PartialEq, Eq, Structural)]
pub enum TreeCodeToken {
    /// A code length, 0 to 15.
    Length(u8),
    /// Repeat the previous code length, 3 times plus what two more bits say.
    CopyPrev,
    /// Repeat the length zero, `base` times plus what `extra_bits` more bits say.
    RepeatZero { base: u16, extra_bits: u8 },
}

/// The symbol of the code-length alphabet with the given index.
pub open spec fn tree_code_token(code: u16) -> Result<TreeCodeToken, DecodeError> {
    if code <= 15 {
        Ok(TreeCodeToken::Length(code as u8))
    } else if code == 16 {
        Ok(TreeCodeToken::CopyPrev)
    } else if code == 17 {
        Ok(TreeCodeToken::RepeatZero { base: 3, extra_bits: 3 })
    } else if code == 18 {
        Ok(TreeCodeToken::RepeatZero { base: 11, extra_bits: 7 })
    } else {
        Err(no_symbol())
    }
}

impl TryFrom<HuffmanCodeWord> for TreeCodeToken {
    type Error = DecodeError;

    fn try_from(value: HuffmanCodeWord) -> (r: Result<Self, DecodeError>) {
        let code: u16 = value.0;
        if code <= 15 {
            Ok(TreeCodeToken::Length(code as u8))
        } else if code == 16 {
            Ok(TreeCodeToken::CopyPrev)
        } else if code == 17 {
            Ok(TreeCodeToken::RepeatZero { base: 3, extra_bits: 3 })
        } else if code == 18 {
            Ok(TreeCodeToken::RepeatZero { base: 11, extra_bits: 7 })
        } else {
            Err(DecodeError::new(ErrorKind::MalformedHuffmanTable, Field::Symbol))
        }
    }
}

impl vstd::std_specs::convert::TryFromSpecImpl<HuffmanCodeWord> for TreeCodeToken {
    open spec fn obeys_try_from_spec() -> bool {
        true
    }

    open spec fn try_from_spec(value: HuffmanCodeWord) -> Result<Self, DecodeError> {
        tree_code_token(value.0)
    }
}

/// A symbol of the literal/length alphabet.
#[derive(Clone, Copy, Debug, PartialEq, Eq, Structural)]
pub enum LitLenToken {
    /// A byte of output.
    Literal(u8),
    /// The end of the block.
    EndOfBlock,
    /// The length of a back-reference: `base` plus what `extra_bits` more bits say.
    Length { base: u16, extra_bits: u8 },
}

/// The base lengths of the length codes 257 to 285.
pub open spec fn length_bases() -> Seq<u16> {
    seq![
        3u16, 4, 5, 6, 7, 8, 9, 10, 11, 13, 15, 17, 19, 23, 27, 31, 35, 43, 51, 59, 67, 83, 99, 115,
        131, 163, 195, 227, 258,
    ]
}

/// The numbers of extra bits of the length codes 257 to 285.
pub open spec fn length_extra_bits() -> Seq<u8> {
    seq![
        0u8, 0, 0, 0, 0, 0, 0, 0, 1, 1, 1, 1, 2, 2, 2, 2, 3, 3, 3, 3, 4, 4, 4, 4, 5, 5, 5, 5, 0,
    ]
}

/// The symbol of the literal/length alphabet with the given index.
pub open spec fn lit_len_token(code: u16) -> Result<LitLenToken, DecodeError> {
    if code <= 255 {
        Ok(LitLenToken::Literal(code as u8))
    } else if code == 256 {
        Ok(LitLenToken::EndOfBlock)
    } else if code <= 285 {
        Ok(
            LitLenToken::Length {
                base: length_bases()[code - 257],
                extra_bits: length_extra_bits()[code - 257],
            },
        )
    } else {
        Err(no_symbol())
    }
}

impl TryFrom<HuffmanCodeWord> for LitLenToken {
    type Error = DecodeError;

    fn try_from(value: HuffmanCodeWord) -> (r: Result<Self, DecodeError>) {
        let code: u16 = value.0;
        if code <= 255 {
            Ok(LitLenToken::Literal(code as u8))
        } else if code == 256 {
            Ok(LitLenToken::EndOfBlock)
        } else if code <= 264 {
            Ok(LitLenToken::Length { base: code - 254, extra_bits: 0 })
        } else if code <= 268 {
            Ok(LitLenToken::Length { base: 11 + 2 * (code - 265), extra_bits: 1 })
        } else if code <= 272 {
            Ok(LitLenToken::Length { base: 19 + 4 * (code - 269), extra_bits: 2 })
        } else if code <= 276 {
            Ok(LitLenToken::Length { base: 35 + 8 * (code - 273), extra_bits: 3 })
        } else if code <= 280 {
            Ok(LitLenToken::Length { base: 67 + 16 * (code - 277), extra_bits: 4 })
        } else if code <= 284 {
            Ok(LitLenToken::Length { base: 131 + 32 * (code - 281), extra_bits: 5 })
        } else if code == 285 {
            Ok(LitLenToken::Length { base: 258, extra_bits: 0 })
        } else {
            Err(DecodeError::new(ErrorKind::MalformedHuffmanTable, Field::Symbol))
        }
    }
}

impl vstd::std_specs::convert::TryFromSpecImpl<HuffmanCodeWord> for LitLenToken {
    open spec fn obeys_try_from_spec() -> bool {
        true
    }

    open spec fn try_from_spec(value: HuffmanCodeWord) -> Result<Self, DecodeError> {
        lit_len_token(value.0)
    }
}

/// A symbol of the distance alphabet: the distance of a back-reference is
/// `base` plus what `extra_bits` more bits say.
#[derive(Clone, Copy, Debug, PartialEq, Eq, Structural)]
pub struct DistanceToken {
    pub base: u16,
    pub extra_bits: u8,
}

/// The base distances of the distance codes 0 to 29.
pub open spec fn distance_bases() -> Seq<u16> {
    seq![
        1u16, 2, 3, 4, 5, 7, 9, 13, 17, 25, 33, 49, 65, 97, 129, 193, 257, 385, 513, 769, 1025,
        1537, 2049, 3073, 4097, 6145, 8193, 12289, 16385, 24577,
    ]
}

/// The symbol of the distance alphabet with the given index: from code 2 on,
/// each pair of codes has one extra bit more than the pair before.
pub open spec fn distance_token(code: u16) -> Result<DistanceToken, DecodeError> {
    if code <= 29 {
        Ok(
            DistanceToken {
                base: distance_bases()[code as int],
                extra_bits: if code < 2 { 0u8 } else { (code / 2 - 1) as u8 },
            },
        )
    } else {
        Err(no_symbol())
    }
}

impl TryFrom<HuffmanCodeWord> for DistanceToken {
    type Error = DecodeError;

    fn try_from(value: HuffmanCodeWord) -> (r: Result<Self, DecodeError>) {
        let code: u16 = value.0;
        if code <= 3 {
            Ok(DistanceToken { base: code + 1, extra_bits: 0 })
        } else if code <= 5 {
            Ok(DistanceToken { base: 5 + 2 * (code - 4), extra_bits: 1 })
        } else if code <= 7 {
            Ok(DistanceToken { base: 9 + 4 * (code - 6), extra_bits: 2 })
        } else if code <= 9 {
            Ok(DistanceToken { base: 17 + 8 * (code - 8), extra_bits: 3 })
        } else if code <= 11 {
            Ok(DistanceToken { base: 33 + 16 * (code - 10), extra_bits: 4 })
        } else if code <= 13 {
            Ok(DistanceToken { base: 65 + 32 * (code - 12), extra_bits: 5 })
        } else if code <= 15 {
            Ok(DistanceToken { base: 129 + 64 * (code - 14), extra_bits: 6 })
        } else if code <= 17 {
            Ok(DistanceToken { base: 257 + 128 * (code - 16), extra_bits: 7 })
        } else if code <= 19 {
            Ok(DistanceToken { base: 513 + 256 * (code - 18), extra_bits: 8 })
        } else if code <= 21 {
            Ok(DistanceToken { base: 1025 + 512 * (code - 20), extra_bits: 9 })
        } else if code <= 23 {
            Ok(DistanceToken { base: 2049 + 1024 * (code - 22), extra_bits: 10 })
        } else if code <= 25 {
            Ok(DistanceToken { base: 4097 + 2048 * (code - 24), extra_bits: 11 })
        } else if code <= 27 {
            Ok(DistanceToken { base: 8193 + 4096 * (code - 26), extra_bits: 12 })
        } else if code <= 29 {
            Ok(DistanceToken { base: 16385 + 8192 * (code - 28), extra_bits: 13 })
        } else {
            Err(DecodeError::new(ErrorKind::MalformedHuffmanTable, Field::Symbol))
        }
    }
}

impl vstd::std_specs::convert::TryFromSpecImpl<HuffmanCodeWord> for DistanceToken {
    open spec fn obeys_try_from_spec() -> bool {
        true
    }

    open spec fn try_from_spec(value: HuffmanCodeWord) -> Result<Self, DecodeError> {
        distance_token(value.0)
    }
}

/// The longest code word, in bits.
pub const MAX_BITS: usize = 15;

/// The number under which a table keeps a bit sequence.
pub open spec fn key_of(seq: BitSequence) -> u32 {
    (seq.len as u32 * 65536 + seq.bits as u32) as u32
}

/// The mapping from bit sequences that a map from their keys stands for.
pub open spec fn keyed<T>(map: Map<u32, T>) -> Map<BitSequence, T> {
    Map::new(|seq: BitSequence| map.contains_key(key_of(seq)), |seq: BitSequence| map[key_of(seq)])
}

/// The mapping that a list of code words with their symbols stands for: a
/// later entry replaces an earlier one with the same code word.
pub open spec fn table_of<T>(entries: Seq<(BitSequence, T)>) -> Map<BitSequence, T>
    decreases entries.len(),
{
    if entries.len() == 0 {
        Map::empty()
    } else {
        table_of(entries.drop_last()).insert(entries.last().0, entries.last().1)
    }
}

/// Reads one bit after another, each appended on the low side of `prefix`,
/// until the bits read are a code word of `table`, for at most `tries` bits.
pub open spec fn read_symbol_from<T>(
    table: Map<BitSequence, T>,
    st: BitInput,
    prefix: BitSequence,
    tries: nat,
) -> (Result<T, DecodeError>, BitInput)
    decreases tries,
{
    if tries == 0 {
        (Err(error(ErrorKind::MalformedHuffmanTable, Field::Symbol)), st)
    } else {
        match st.read_bits(1) {
            (Err(e), next) => (Err(error(e.kind, Field::Symbol)), next),
            (Ok(bit), next) => {
                let longer = prefix.joined(bit);
                if table.contains_key(longer) {
                    (Ok(table[longer]), next)
                } else {
                    read_symbol_from(table, next, longer, (tries - 1) as nat)
                }
            },
        }
    }
}

/// Reads the next symbol: the first code word of `table` that the coming
/// bits spell, most significant bit first, within 15 bits.
pub open spec fn read_symbol<T>(table: Map<BitSequence, T>, st: BitInput) -> (
    Result<T, DecodeError>,
    BitInput,
) {
    read_symbol_from(table, st, BitSequence { bits: 0, len: 0 }, MAX_BITS as nat)
}

/// Reading a symbol keeps the reader well formed and never gives bits back;
/// a symbol that is read takes at least one bit.
pub proof fn lemma_read_symbol_from<T>(
    table: Map<BitSequence, T>,
    st: BitInput,
    prefix: BitSequence,
    tries: nat,
)
    requires
        st.wf(),
    ensures
        read_symbol_from(table, st, prefix, tries).1.wf(),
        read_symbol_from(table, st, prefix, tries).1.src.data == st.src.data,
        read_symbol_from(table, st, prefix, tries).1.src.pos >= st.src.pos,
        read_symbol_from(table, st, prefix, tries).1.remaining_bits() <= st.remaining_bits(),
        read_symbol_from(table, st, prefix, tries).0 is Ok ==> read_symbol_from(
            table,
            st,
            prefix,
            tries,
        ).1.remaining_bits() < st.remaining_bits(),
    decreases tries,
{
    if tries > 0 {
        lemma_read_bits(st, 1);
        let (r, next) = st.read_bits(1);
        if r is Ok {
            lemma_read_symbol_from(table, next, prefix.joined(r->Ok_0), (tries - 1) as nat);
        }
    }
}

/// A canonical Huffman code: a finite mapping from code words to symbols.
pub struct HuffmanCoding<T> {
    map: HashMap<u32, T>,
}

impl<T: Copy> HuffmanCoding<T> {
    /// The mapping from code words to symbols.
    pub closed spec fn view(&self) -> Map<BitSequence, T> {
        keyed(self.map@)
    }

    /// The code that holds the given code words with their symbols.
    pub fn new(entries: Vec<(BitSequence, T)>) -> (h: Self)
        ensures
            h@ == table_of(entries@),
    {
        broadcast use vstd::std_specs::hash::group_hash_axioms;

        let mut map: HashMap<u32, T> = HashMap::new();
        let mut i: usize = 0;
        assert(keyed(map@) =~= table_of(entries@.take(0)));
        while i < entries.len()
            invariant
                i <= entries.len(),
                keyed(map@) == table_of(entries@.take(i as int)),
            decreases entries.len() - i,
        {
            let (seq, value) = entries[i];
            let key: u32 = seq.len() as u32 * 65536 + seq.bits() as u32;
            let ghost before = map@;
            map.insert(key, value);
            proof {
                assert(entries@.take(i + 1).drop_last() =~= entries@.take(i as int));
                lemma_keyed_insert(before, seq, value);
            }
            i = i + 1;
        }
        assert(entries@.take(entries.len() as int) =~= entries@);
        Self { map }
    }

    /// The symbol of the code word `seq`, if it is one.
    pub fn decode_symbol(&self, seq: BitSequence) -> (r: Option<T>)
        ensures
            r == (if self@.contains_key(seq) {
                Some(self@[seq])
            } else {
                None
            }),
    {
        broadcast use vstd::std_specs::hash::group_hash_axioms;

        let key: u32 = seq.len() as u32 * 65536 + seq.bits() as u32;
        match self.map.get(&key) {
            Some(value) => Some(*value),
            None => None,
        }
    }

    /// Reads the next symbol from `bit_reader`.
    pub fn read_symbol(&self, bit_reader: &mut BitReader) -> (r: Result<T, DecodeError>)
        requires
            old(bit_reader).wf(),
        ensures
            final(bit_reader).wf(),
            (r, final(bit_reader)@) == read_symbol(self@, old(bit_reader)@),
    {
        let mut bit_sequence = BitSequence::new(0, 0);
        let mut i: usize = 0;
        proof {
            lemma2_to64();
        }
        while i < MAX_BITS
            invariant
                i <= MAX_BITS,
                bit_reader.wf(),
                bit_sequence.wf(),
                bit_sequence.len == i,
                read_symbol_from(self@, bit_reader@, bit_sequence, (MAX_BITS - i) as nat)
                    == read_symbol(self@, old(bit_reader)@),
            decreases MAX_BITS - i,
        {
            proof {
                lemma_read_bits(bit_reader@, 1);
            }
            let bit = match bit_reader.read_bits(1) {
                Ok(bit) => bit,
                Err(e) => {
                    return Err(e.at(Field::Symbol));
                },
            };
            proof {
                lemma_joined_fits(bit_sequence, bit);
            }
            bit_sequence = bit_sequence.concat(bit);
            match self.decode_symbol(bit_sequence) {
                Some(value) => {
                    return Ok(value);
                },
                None => {},
            }
            i = i + 1;
        }
        Err(DecodeError::new(ErrorKind::MalformedHuffmanTable, Field::Symbol))
    }
}

/// The code words of the first `upto` symbols with their symbols, in the
/// order of the symbols. A symbol of length zero has no code word, nor has
/// an index that the alphabet `T` has no symbol for.
pub open spec fn canonical_entries<T: TryFrom<HuffmanCodeWord, Error = DecodeError>>(
    lengths: Seq<u8>,
    upto: nat,
) -> Seq<(BitSequence, T)>
    decreases upto,
{
    if upto == 0 {
        Seq::empty()
    } else {
        let i = (upto - 1) as int;
        let before = canonical_entries::<T>(lengths, i as nat);
        if lengths[i] == 0 {
            before
        } else {
            match T::try_from_spec(HuffmanCodeWord(i as u16)) {
                Ok(symbol) => before.push(
                    (BitSequence { bits: code_of(lengths, i) as u16, len: lengths[i] }, symbol),
                ),
                Err(_) => before,
            }
        }
    }
}

/// The error of code lengths that no code is built from.
pub open spec fn bad_lengths() -> DecodeError {
    error(ErrorKind::MalformedHuffmanTable, Field::HuffmanTable)
}

/// The canonical code of the given code lengths.
pub open spec fn from_lengths<T: TryFrom<HuffmanCodeWord, Error = DecodeError>>(
    lengths: Seq<u8>,
) -> Result<Map<BitSequence, T>, DecodeError> {
    if malformed_lengths(lengths) {
        Err(bad_lengths())
    } else {
        Ok(table_of(canonical_entries::<T>(lengths, lengths.len())))
    }
}

/// Whether a code that was built, or the failure to build it, is what
/// `expected` says.
pub open spec fn coding_is<T: Copy>(
    r: Result<HuffmanCoding<T>, DecodeError>,
    expected: Result<Map<BitSequence, T>, DecodeError>,
) -> bool {
    match (r, expected) {
        (Ok(coding), Ok(table)) => coding@ == table,
        (Err(e), Err(f)) => e == f,
        _ => false,
    }
}

impl<T: Copy + TryFrom<HuffmanCodeWord, Error = DecodeError>> HuffmanCoding<T> {
    /// Builds the canonical code of the given code lengths, one for each
    /// symbol of the alphabet in order. It fails where a length is above 15,
    /// and where the table cannot hold the code: on more than 65536 lengths
    /// and on a code word of more than 16 bits. Code lengths that are over-
    /// or under-subscribed are built as they are given.
    pub fn from_lengths(code_lengths: &[u8]) -> (r: Result<Self, DecodeError>)
        ensures
            r is Err <==> malformed_lengths(code_lengths@),
            r is Err ==> r->Err_0 == bad_lengths(),
            T::obeys_try_from_spec() ==> coding_is(r, from_lengths::<T>(code_lengths@)),
    {
        let ghost lengths = code_lengths@;
        let n: usize = code_lengths.len();
        if n > 65536 {
            return Err(DecodeError::new(ErrorKind::MalformedHuffmanTable, Field::HuffmanTable));
        }
        let mut bl_count: Vec<u32> = vec![0u32, 0, 0, 0, 0, 0, 0, 0, 0, 0, 0, 0, 0, 0, 0, 0];
        let mut i: usize = 0;
        assert(lengths.take(0) =~= Seq::<u8>::empty());
        while i < n
            invariant
                i <= n,
                n == lengths.len(),
                lengths == code_lengths@,
                n <= 65536,
                bl_count@.len() == 16,
                forall|l: int|
                    0 <= l < 16 ==> #[trigger] bl_count@[l] as nat == length_count(
                        lengths.take(i as int),
                        l as nat,
                    ),
                forall|l: int| 0 <= l < 16 ==> #[trigger] bl_count@[l] <= i,
                forall|j: int| 0 <= j < i ==> #[trigger] lengths[j] <= 15,
            decreases n - i,
        {
            let len: u8 = code_lengths[i];
            if len > 15 {
                return Err(DecodeError::new(ErrorKind::MalformedHuffmanTable, Field::HuffmanTable));
            }
            let count: u32 = bl_count[len as usize];
            bl_count.set(len as usize, count + 1);
            proof {
                assert forall|l: int| 0 <= l < 16 implies #[trigger] bl_count@[l] as nat
                    == length_count(lengths.take(i + 1), l as nat) by {
                    lemma_count_step(lengths, i as int, l as nat);
                }
            }
            i = i + 1;
        }
        assert(lengths.take(n as int) =~= lengths);
        let mut next_code: Vec<u64> = vec![0u64, 0, 0, 0, 0, 0, 0, 0, 0, 0, 0, 0, 0, 0, 0, 0];
        let mut code: u64 = 0;
        let mut bits: usize = 1;
        proof {
            lemma_first_code_bound(lengths, 1);
        }
        while bits <= MAX_BITS
            invariant
                1 <= bits <= MAX_BITS + 1,
                lengths == code_lengths@,
                lengths.len() <= 65536,
                bl_count@.len() == 16,
                next_code@.len() == 16,
                forall|l: int|
                    0 <= l < 16 ==> #[trigger] bl_count@[l] as nat == length_count(lengths, l as nat),
                code as nat == first_code(lengths, bits as nat),
                code <= 0x1_0000_0000,
                forall|l: int|
                    1 <= l < bits ==> #[trigger] next_code@[l] as nat == first_code(lengths, l as nat),
                forall|l: int| 1 <= l < bits ==> #[trigger] next_code@[l] <= 0x1_0000_0000,
                forall|j: int| 0 <= j < lengths.len() ==> #[trigger] lengths[j] <= 15,
            decreases MAX_BITS + 1 - bits,
        {
            let count: u32 = bl_count[bits];
            proof {
                lemma2_to64();
                lemma_count_bound(lengths, bits as nat);
                lemma_first_code_next(lengths, bits as nat);
                lemma_first_code_bound(lengths, (bits + 1) as nat);
                if bits < 15 {
                    lemma_pow2_strictly_increases((bits + 1) as nat, 16);
                }
            }
            next_code.set(bits, code);
            code = 2 * (code + count as u64);
            bits = bits + 1;
        }
        let mut entries: Vec<(BitSequence, T)> = Vec::new();
        let mut i: usize = 0;
        assert(lengths.take(0) =~= Seq::<u8>::empty());
        while i < n
            invariant
                i <= n,
                n == lengths.len(),
                lengths == code_lengths@,
                n <= 65536,
                next_code@.len() == 16,
                forall|l: int|
                    1 <= l < 16 ==> #[trigger] next_code@[l] as nat == first_code(lengths, l as nat)
                        + length_count(lengths.take(i as int), l as nat),
                forall|l: int| 1 <= l < 16 ==> #[trigger] next_code@[l] <= 0x1_0000_0000 + i,
                forall|j: int| 0 <= j < lengths.len() ==> #[trigger] lengths[j] <= 15,
                forall|j: int|
                    0 <= j < i && lengths[j] != 0 ==> #[trigger] code_of(lengths, j) <= 0xffff,
                T::obeys_try_from_spec() ==> entries@ == canonical_entries::<T>(lengths, i as nat),
            decreases n - i,
        {
            let len: u8 = code_lengths[i];
            proof {
                assert forall|l: int| 1 <= l < 16 implies first_code(lengths, l as nat)
                    + length_count(lengths.take(i + 1), l as nat) == #[trigger] next_code@[l]
                    + if l == len {
                    1int
                } else {
                    0int
                } by {
                    lemma_count_step(lengths, i as int, l as nat);
                }
            }
            if len != 0 {
                let code: u64 = next_code[len as usize];
                assert(code as nat == code_of(lengths, i as int));
                if code > 0xffff {
                    assert(code_overflows(lengths));
                    return Err(
                        DecodeError::new(ErrorKind::MalformedHuffmanTable, Field::HuffmanTable),
                    );
                }
                match T::try_from(HuffmanCodeWord(i as u16)) {
                    Ok(symbol) => {
                        entries.push((BitSequence::new(code as u16, len), symbol));
                    },
                    Err(_) => {},
                }
                next_code.set(len as usize, code + 1);
            }
            i = i + 1;
        }
        assert(!code_overflows(lengths));
        assert(!malformed_lengths(lengths));
        let coding = Self::new(entries);
        Ok(coding)
    }
}

/// The places, in the vector of the code lengths of the code-length
/// alphabet, of the lengths in the order in which they are transmitted.
pub open spec fn special_order() -> Seq<usize> {
    seq![16usize, 17, 18, 0, 8, 7, 9, 6, 10, 5, 11, 4, 12, 3, 13, 2, 14, 1, 15]
}

/// `size` code lengths, all zero.
pub open spec fn no_lengths(size: nat) -> Seq<u8> {
    Seq::new(size, |i: int| 0u8)
}

/// `lengths` with the `n` entries from `pos` on set to `value`.
pub open spec fn filled(lengths: Seq<u8>, pos: nat, n: nat, value: u8) -> Seq<u8> {
    Seq::new(
        lengths.len(),
        |i: int|
            if pos <= i < pos + n {
                value
            } else {
                lengths[i]
            },
    )
}

/// Whether the bytes that were read, or the failure to read them, are what
/// `expected` says.
pub open spec fn bytes_are(r: Result<Vec<u8>, DecodeError>, expected: Result<Seq<u8>, DecodeError>)
    -> bool {
    match (r, expected) {
        (Ok(bytes), Ok(seq)) => bytes@ == seq,
        (Err(e), Err(f)) => e == f,
        _ => false,
    }
}

/// Whether the two codes that were built, or the failure to build them, are
/// what `expected` says.
pub open spec fn codings_are(
    r: Result<(HuffmanCoding<LitLenToken>, HuffmanCoding<DistanceToken>), DecodeError>,
    expected: Result<(Map<BitSequence, LitLenToken>, Map<BitSequence, DistanceToken>), DecodeError>,
) -> bool {
    match (r, expected) {
        (Ok(codings), Ok(tables)) => codings.0@ == tables.0 && codings.1@ == tables.1,
        (Err(e), Err(f)) => e == f,
        _ => false,
    }
}

/// Reads `extra_bits` bits and adds the number they spell to `base`. More
/// than 16 extra bits are no token of DEFLATE. A failure is attributed to
/// `field`.
pub open spec fn read_extra(st: BitInput, base: u16, extra_bits: u8, field: Field) -> (
    Result<nat, DecodeError>,
    BitInput,
) {
    if extra_bits > 16 {
        (Err(error(ErrorKind::MalformedHuffmanTable, field)), st)
    } else {
        match st.read_bits(extra_bits as nat) {
            (Err(e), next) => (Err(error(e.kind, field)), next),
            (Ok(extra), next) => (Ok(base as nat + extra.bits as nat), next),
        }
    }
}

/// Reads the code lengths of the code-length alphabet from the `from`-th on,
/// three bits each, into their places in `lengths`.
pub open spec fn read_code_length_lengths(st: BitInput, lengths: Seq<u8>, from: nat, count: nat)
    -> (Result<Seq<u8>, DecodeError>, BitInput)
    decreases count - from,
{
    if from >= count {
        (Ok(lengths), st)
    } else {
        match st.read_bits(3) {
            (Err(e), next) => (Err(error(e.kind, Field::HuffmanTable)), next),
            (Ok(len), next) => read_code_length_lengths(
                next,
                lengths.update(special_order()[from as int] as int, len.bits as u8),
                from + 1,
                count,
            ),
        }
    }
}

/// The code of the code-length alphabet, transmitted as `hclen + 4` lengths.
pub open spec fn code_length_code(st: BitInput, hclen: nat) -> (
    Result<Map<BitSequence, TreeCodeToken>, DecodeError>,
    BitInput,
) {
    match read_code_length_lengths(st, no_lengths(19), 0, hclen + 4) {
        (Err(e), next) => (Err(e), next),
        (Ok(lengths), next) => (from_lengths::<TreeCodeToken>(lengths), next),
    }
}

/// Reads code lengths into `lengths` from place `pos` on, until `count`
/// places are filled. A length symbol fills one place; a repeat fills as
/// many as it says, with the entry before it or with zero. A repeat of the
/// entry before the first, one of no entries, or one that runs past the end
/// of `lengths` is malformed.
pub open spec fn read_lengths(
    table: Map<BitSequence, TreeCodeToken>,
    st: BitInput,
    lengths: Seq<u8>,
    pos: nat,
    count: nat,
) -> (Result<Seq<u8>, DecodeError>, BitInput)
    decreases lengths.len() + count - pos,
    when count <= lengths.len()
{
    if pos >= count {
        (Ok(lengths), st)
    } else {
        match read_symbol(table, st) {
            (Err(e), next) => (Err(error(e.kind, Field::HuffmanTable)), next),
            (Ok(TreeCodeToken::Length(len)), next) => read_lengths(
                table,
                next,
                lengths.update(pos as int, len),
                pos + 1,
                count,
            ),
            (Ok(TreeCodeToken::CopyPrev), next) => match read_extra(next, 3, 2, Field::HuffmanTable) {
                (Err(e), after) => (Err(e), after),
                (Ok(n), after) => if pos == 0 || n == 0 || pos + n > lengths.len() {
                    (Err(bad_lengths()), after)
                } else {
                    read_lengths(
                        table,
                        after,
                        filled(lengths, pos, n, lengths[pos - 1]),
                        pos + n,
                        count,
                    )
                },
            },
            (Ok(TreeCodeToken::RepeatZero { base, extra_bits }), next) => match read_extra(
                next,
                base,
                extra_bits,
                Field::HuffmanTable,
            ) {
                (Err(e), after) => (Err(e), after),
                (Ok(n), after) => if n == 0 || pos + n > lengths.len() {
                    (Err(bad_lengths()), after)
                } else {
                    read_lengths(table, after, filled(lengths, pos, n, 0), pos + n, count)
                },
            },
        }
    }
}

/// The code that is transmitted as `count` code lengths of an alphabet of
/// `size` symbols; the lengths not transmitted are zero. More lengths than
/// symbols are malformed.
pub open spec fn transmitted_lengths(
    table: Map<BitSequence, TreeCodeToken>,
    st: BitInput,
    count: nat,
    size: nat,
) -> (Result<Seq<u8>, DecodeError>, BitInput) {
    if count > size {
        (Err(bad_lengths()), st)
    } else {
        read_lengths(table, st, no_lengths(size), 0, count)
    }
}

/// The literal/length code, transmitted as `hlit + 257` code lengths.
pub open spec fn lit_len_code(table: Map<BitSequence, TreeCodeToken>, st: BitInput, hlit: nat) -> (
    Result<Map<BitSequence, LitLenToken>, DecodeError>,
    BitInput,
) {
    match transmitted_lengths(table, st, hlit + 257, 286) {
        (Err(e), next) => (Err(e), next),
        (Ok(lengths), next) => (from_lengths::<LitLenToken>(lengths), next),
    }
}

/// Some distance code from 30 on, for which the distance alphabet has no
/// symbol, is given a code length.
pub open spec fn unassigned_distance(lengths: Seq<u8>) -> bool {
    exists|i: int| 30 <= i < lengths.len() && #[trigger] lengths[i] != 0
}

/// The distance code, transmitted as `hdist + 1` code lengths. A code length
/// for a distance code that the alphabet does not have is malformed.
pub open spec fn distance_code(table: Map<BitSequence, TreeCodeToken>, st: BitInput, hdist: nat)
    -> (Result<Map<BitSequence, DistanceToken>, DecodeError>, BitInput) {
    match transmitted_lengths(table, st, hdist + 1, 32) {
        (Err(e), next) => (Err(e), next),
        (Ok(lengths), next) => if unassigned_distance(lengths) {
            (Err(bad_lengths()), next)
        } else {
            (from_lengths::<DistanceToken>(lengths), next)
        },
    }
}

/// The two codes of a block with dynamic codes: the three counts, the code
/// of the code-length alphabet, then the code lengths of the two codes.
pub open spec fn dynamic_codes(st: BitInput) -> (
    Result<(Map<BitSequence, LitLenToken>, Map<BitSequence, DistanceToken>), DecodeError>,
    BitInput,
) {
    match read_extra(st, 0, 5, Field::HuffmanTable) {
        (Err(e), s1) => (Err(e), s1),
        (Ok(hlit), s1) => match read_extra(s1, 0, 5, Field::HuffmanTable) {
            (Err(e), s2) => (Err(e), s2),
            (Ok(hdist), s2) => match read_extra(s2, 0, 4, Field::HuffmanTable) {
                (Err(e), s3) => (Err(e), s3),
                (Ok(hclen), s3) => match code_length_code(s3, hclen) {
                    (Err(e), s4) => (Err(e), s4),
                    (Ok(table), s4) => match lit_len_code(table, s4, hlit) {
                        (Err(e), s5) => (Err(e), s5),
                        (Ok(lit_len), s5) => match distance_code(table, s5, hdist) {
                            (Err(e), s6) => (Err(e), s6),
                            (Ok(distance), s6) => (Ok((lit_len, distance)), s6),
                        },
                    },
                },
            },
        },
    }
}

/// The code lengths of the fixed literal/length code.
pub open spec fn fixed_lit_len_lengths() -> Seq<u8> {
    Seq::new(
        288,
        |i: int|
            if i < 144 {
                8u8
            } else if i < 256 {
                9u8
            } else if i < 280 {
                7u8
            } else {
                8u8
            },
    )
}

/// The code lengths of the fixed distance code.
pub open spec fn fixed_distance_lengths() -> Seq<u8> {
    Seq::new(32, |i: int| 5u8)
}

/// The two codes of a block with fixed codes.
pub open spec fn fixed_codes() -> Result<
    (Map<BitSequence, LitLenToken>, Map<BitSequence, DistanceToken>),
    DecodeError,
> {
    match from_lengths::<LitLenToken>(fixed_lit_len_lengths()) {
        Err(e) => Err(e),
        Ok(lit_len) => match from_lengths::<DistanceToken>(fixed_distance_lengths()) {
            Err(e) => Err(e),
            Ok(distance) => Ok((lit_len, distance)),
        },
    }
}

/// How many symbols of the fixed literal/length code have each length.
proof fn lemma_fixed_lit_len_counts(len: nat)
    ensures
        length_count(fixed_lit_len_lengths(), len) == if len == 7 {
            24nat
        } else if len == 8 {
            152nat
        } else if len == 9 {
            112nat
        } else {
            0nat
        },
{
    let lengths = fixed_lit_len_lengths();
    assert(lengths.take(0) =~= Seq::<u8>::empty());
    lemma_count_run(lengths, 0, 144, 8, len);
    lemma_count_run(lengths, 144, 256, 9, len);
    lemma_count_run(lengths, 256, 280, 7, len);
    lemma_count_run(lengths, 280, 288, 8, len);
    assert(lengths.take(288) =~= lengths);
}

/// How many symbols of the fixed distance code have each length.
proof fn lemma_fixed_distance_counts(len: nat)
    ensures
        length_count(fixed_distance_lengths(), len) == if len == 5 {
            32nat
        } else {
            0nat
        },
{
    let lengths = fixed_distance_lengths();
    assert(lengths.take(0) =~= Seq::<u8>::empty());
    lemma_count_run(lengths, 0, 32, 5, len);
    assert(lengths.take(32) =~= lengths);
}

/// The first code word of each length, for code lengths of which `counts`
/// tells how many symbols have each length.
spec fn first_codes(counts: spec_fn(nat) -> nat, len: nat) -> nat
    decreases len,
{
    if len <= 1 {
        0
    } else {
        2 * (first_codes(counts, (len - 1) as nat) + counts((len - 1) as nat))
    }
}

/// The first code words depend on the code lengths through their counts.
proof fn lemma_first_codes(lengths: Seq<u8>, counts: spec_fn(nat) -> nat, len: nat)
    requires
        forall|l: nat| #[trigger] counts(l) == length_count(lengths, l),
    ensures
        first_code(lengths, len) == first_codes(counts, len),
    decreases len,
{
    if len > 1 {
        lemma_first_codes(lengths, counts, (len - 1) as nat);
    }
}

/// The fixed codes exist: their code lengths are well formed.
pub proof fn lemma_fixed_codes()
    ensures
        !malformed_lengths(fixed_lit_len_lengths()),
        !malformed_lengths(fixed_distance_lengths()),
        fixed_codes() is Ok,
{
    lemma2_to64();
    let lit = |l: nat|
        if l == 7 {
            24nat
        } else if l == 8 {
            152nat
        } else if l == 9 {
            112nat
        } else {
            0nat
        };
    let dist = |l: nat|
        if l == 5 {
            32nat
        } else {
            0nat
        };
    assert forall|l: nat| #[trigger] lit(l) == length_count(fixed_lit_len_lengths(), l) by {
        lemma_fixed_lit_len_counts(l);
    }
    assert forall|l: nat| #[trigger] dist(l) == length_count(fixed_distance_lengths(), l) by {
        lemma_fixed_distance_counts(l);
    }
    reveal_with_fuel(first_codes, 16);
    assert forall|len: nat| 1 <= len <= 15 implies first_code(fixed_lit_len_lengths(), len)
        + #[trigger] length_count(fixed_lit_len_lengths(), len) <= pow2(len) by {
        lemma_first_codes(fixed_lit_len_lengths(), lit, len);
        lemma_fixed_lit_len_counts(len);
    }
    assert forall|len: nat| 1 <= len <= 15 implies first_code(fixed_distance_lengths(), len)
        + #[trigger] length_count(fixed_distance_lengths(), len) <= pow2(len) by {
        lemma_first_codes(fixed_distance_lengths(), dist, len);
        lemma_fixed_distance_counts(len);
    }
    lemma_not_over_subscribed(fixed_lit_len_lengths());
    lemma_not_over_subscribed(fixed_distance_lengths());
    lemma_well_formed(fixed_lit_len_lengths());
    lemma_well_formed(fixed_distance_lengths());
}

/// Reads `extra_bits` bits and adds the number they spell to `base`.
pub fn read_extra_bits(bit_reader: &mut BitReader, base: u16, extra_bits: u8, field: Field) -> (r:
    Result<u32, DecodeError>)
    requires
        old(bit_reader).wf(),
    ensures
        final(bit_reader).wf(),
        final(bit_reader)@ == read_extra(old(bit_reader)@, base, extra_bits, field).1,
        match read_extra(old(bit_reader)@, base, extra_bits, field).0 {
            Ok(n) => r == Ok::<u32, DecodeError>(n as u32) && n <= 2 * 65535,
            Err(e) => r == Err::<u32, DecodeError>(e),
        },
{
    if extra_bits > 16 {
        return Err(DecodeError::new(ErrorKind::MalformedHuffmanTable, field));
    }
    match bit_reader.read_bits(extra_bits) {
        Ok(extra) => Ok(base as u32 + extra.bits() as u32),
        Err(e) => Err(e.at(field)),
    }
}

/// A vector of `size` zeros.
fn zeros(size: usize) -> (v: Vec<u8>)
    ensures
        v@ == no_lengths(size as nat),
{
    let mut v: Vec<u8> = Vec::new();
    let mut i: usize = 0;
    while i < size
        invariant
            i <= size,
            v@ == no_lengths(i as nat),
        decreases size - i,
    {
        v.push(0);
        i = i + 1;
        assert(v@ =~= no_lengths(i as nat));
    }
    v
}

/// Reads `count` code lengths of an alphabet of `size` symbols.
fn decode_lengths(
    bit_reader: &mut BitReader,
    count: usize,
    size: usize,
    cl_huffman: &HuffmanCoding<TreeCodeToken>,
) -> (r: Result<Vec<u8>, DecodeError>)
    requires
        old(bit_reader).wf(),
        size <= 65536,
    ensures
        final(bit_reader).wf(),
        final(bit_reader)@ == transmitted_lengths(
            cl_huffman@,
            old(bit_reader)@,
            count as nat,
            size as nat,
        ).1,
        bytes_are(
            r,
            transmitted_lengths(cl_huffman@, old(bit_reader)@, count as nat, size as nat).0,
        ),
        r is Ok ==> r->Ok_0@.len() == size,
{
    if count > size {
        return Err(DecodeError::new(ErrorKind::MalformedHuffmanTable, Field::HuffmanTable));
    }
    let mut lengths: Vec<u8> = zeros(size);
    let mut pos: usize = 0;
    let ghost total = read_lengths(
        cl_huffman@,
        old(bit_reader)@,
        no_lengths(size as nat),
        0,
        count as nat,
    );
    while pos < count
        invariant
            bit_reader.wf(),
            count <= size <= 65536,
            pos <= size,
            lengths@.len() == size,
            read_lengths(cl_huffman@, bit_reader@, lengths@, pos as nat, count as nat) == total,
            total == read_lengths(
                cl_huffman@,
                old(bit_reader)@,
                no_lengths(size as nat),
                0,
                count as nat,
            ),
        decreases size - pos,
    {
        let token = match cl_huffman.read_symbol(bit_reader) {
            Ok(token) => token,
            Err(e) => {
                return Err(e.at(Field::HuffmanTable));
            },
        };
        match token {
            TreeCodeToken::Length(len) => {
                lengths.set(pos, len);
                pos = pos + 1;
            },
            TreeCodeToken::CopyPrev => {
                let n: usize = match read_extra_bits(bit_reader, 3, 2, Field::HuffmanTable) {
                    Ok(n) => n as usize,
                    Err(e) => {
                        return Err(e);
                    },
                };
                if pos == 0 || n == 0 || n > size - pos {
                    return Err(
                        DecodeError::new(ErrorKind::MalformedHuffmanTable, Field::HuffmanTable),
                    );
                }
                let previous: u8 = lengths[pos - 1];
                fill(&mut lengths, pos, n, previous);
                pos = pos + n;
            },
            TreeCodeToken::RepeatZero { base, extra_bits } => {
                let n: usize = match read_extra_bits(
                    bit_reader,
                    base,
                    extra_bits,
                    Field::HuffmanTable,
                ) {
                    Ok(n) => n as usize,
                    Err(e) => {
                        return Err(e);
                    },
                };
                if n == 0 || n > size - pos {
                    return Err(
                        DecodeError::new(ErrorKind::MalformedHuffmanTable, Field::HuffmanTable),
                    );
                }
                fill(&mut lengths, pos, n, 0);
                pos = pos + n;
            },
        }
    }
    Ok(lengths)
}

/// Sets the `n` entries of `lengths` from `pos` on to `value`.
fn fill(lengths: &mut Vec<u8>, pos: usize, n: usize, value: u8)
    requires
        pos + n <= old(lengths).len(),
    ensures
        final(lengths)@ == filled(old(lengths)@, pos as nat, n as nat, value),
{
    let mut k: usize = 0;
    assert(lengths@ =~= filled(old(lengths)@, pos as nat, 0, value));
    while k < n
        invariant
            k <= n,
            pos + n <= lengths.len(),
            lengths.len() == old(lengths).len(),
            lengths@ == filled(old(lengths)@, pos as nat, k as nat, value),
        decreases n - k,
    {
        lengths.set(pos + k, value);
        k = k + 1;
        assert(lengths@ =~= filled(old(lengths)@, pos as nat, k as nat, value));
    }
}

/// Builds the two codes of a block with fixed codes.
pub fn decode_fixed_trees() -> (r: Result<
    (HuffmanCoding<LitLenToken>, HuffmanCoding<DistanceToken>),
    DecodeError,
>)
    ensures
        r is Ok,
        codings_are(r, fixed_codes()),
{
    proof {
        lemma_fixed_codes();
    }
    let mut distancetoken: Vec<u8> = Vec::new();
    let mut letlentoken: Vec<u8> = Vec::new();
    let mut i: usize = 0;
    while i < 288
        invariant
            i <= 288,
            letlentoken@.len() == i,
            forall|j: int| 0 <= j < i ==> letlentoken@[j] == fixed_lit_len_lengths()[j],
        decreases 288 - i,
    {
        let len: u8 = if i < 144 {
            8
        } else if i < 256 {
            9
        } else if i < 280 {
            7
        } else {
            8
        };
        letlentoken.push(len);
        i = i + 1;
    }
    let mut i: usize = 0;
    while i < 32
        invariant
            i <= 32,
            distancetoken@.len() == i,
            forall|j: int| 0 <= j < i ==> distancetoken@[j] == 5,
        decreases 32 - i,
    {
        distancetoken.push(5);
        i = i + 1;
    }
    assert(letlentoken@ =~= fixed_lit_len_lengths());
    assert(distancetoken@ =~= fixed_distance_lengths());
    let lit_len = HuffmanCoding::<LitLenToken>::from_lengths(letlentoken.as_slice())?;
    let distance = HuffmanCoding::<DistanceToken>::from_lengths(distancetoken.as_slice())?;
    Ok((lit_len, distance))
}

/// Reads the code of the code-length alphabet.
pub fn decode_codelen_token(bit_reader: &mut BitReader, hclen: u16) -> (r: Result<
    HuffmanCoding<TreeCodeToken>,
    DecodeError,
>)
    requires
        old(bit_reader).wf(),
        hclen <= 15,
    ensures
        final(bit_reader).wf(),
        final(bit_reader)@ == code_length_code(old(bit_reader)@, hclen as nat).1,
        coding_is(r, code_length_code(old(bit_reader)@, hclen as nat).0),
{
    let order: [usize; 19] = [16, 17, 18, 0, 8, 7, 9, 6, 10, 5, 11, 4, 12, 3, 13, 2, 14, 1, 15];
    assert(order@ =~= special_order());
    let mut cl: Vec<u8> = zeros(19);
    let count: usize = hclen as usize + 4;
    let mut i: usize = 0;
    let ghost total = read_code_length_lengths(
        old(bit_reader)@,
        no_lengths(19),
        0,
        count as nat,
    );
    while i < count
        invariant
            i <= count <= 19,
            bit_reader.wf(),
            cl@.len() == 19,
            order@ == special_order(),
            read_code_length_lengths(bit_reader@, cl@, i as nat, count as nat) == total,
            total == read_code_length_lengths(old(bit_reader)@, no_lengths(19), 0, count as nat),
            count == hclen + 4,
        decreases count - i,
    {
        let ghost before = bit_reader@;
        let len = match bit_reader.read_bits(3) {
            Ok(len) => len,
            Err(e) => {
                return Err(e.at(Field::HuffmanTable));
            },
        };
        proof {
            lemma_read_bits(before, 3);
            lemma2_to64();
        }
        cl.set(order[i], len.bits() as u8);
        i = i + 1;
    }
    HuffmanCoding::<TreeCodeToken>::from_lengths(cl.as_slice())
}

/// Reads the literal/length code.
pub fn decode_letlen_token(
    bit_reader: &mut BitReader,
    hlit: u16,
    cl_huffman: &HuffmanCoding<TreeCodeToken>,
) -> (r: Result<HuffmanCoding<LitLenToken>, DecodeError>)
    requires
        old(bit_reader).wf(),
    ensures
        final(bit_reader).wf(),
        final(bit_reader)@ == lit_len_code(cl_huffman@, old(bit_reader)@, hlit as nat).1,
        coding_is(r, lit_len_code(cl_huffman@, old(bit_reader)@, hlit as nat).0),
{
    let letlentoken = decode_lengths(bit_reader, hlit as usize + 257, 286, cl_huffman)?;
    HuffmanCoding::<LitLenToken>::from_lengths(letlentoken.as_slice())
}

/// Reads the distance code.
pub fn decode_distance_token(
    bit_reader: &mut BitReader,
    hdist: u16,
    cl_huffman: &HuffmanCoding<TreeCodeToken>,
) -> (r: Result<HuffmanCoding<DistanceToken>, DecodeError>)
    requires
        old(bit_reader).wf(),
    ensures
        final(bit_reader).wf(),
        final(bit_reader)@ == distance_code(cl_huffman@, old(bit_reader)@, hdist as nat).1,
        coding_is(r, distance_code(cl_huffman@, old(bit_reader)@, hdist as nat).0),
{
    let distancetoken = decode_lengths(bit_reader, hdist as usize + 1, 32, cl_huffman)?;
    if distancetoken[30] != 0 || distancetoken[31] != 0 {
        assert(unassigned_distance(distancetoken@));
        return Err(DecodeError::new(ErrorKind::MalformedHuffmanTable, Field::HuffmanTable));
    }
    HuffmanCoding::<DistanceToken>::from_lengths(distancetoken.as_slice())
}

/// Reads the two codes of a block with dynamic codes.
pub fn decode_dynamic_tree(bit_reader: &mut BitReader) -> (r: Result<
    (HuffmanCoding<LitLenToken>, HuffmanCoding<DistanceToken>),
    DecodeError,
>)
    requires
        old(bit_reader).wf(),
    ensures
        final(bit_reader).wf(),
        final(bit_reader)@ == dynamic_codes(old(bit_reader)@).1,
        codings_are(r, dynamic_codes(old(bit_reader)@).0),
{
    let hlit: u32 = read_extra_bits(bit_reader, 0, 5, Field::HuffmanTable)?;
    proof {
        lemma_read_bits(old(bit_reader)@, 5);
        lemma2_to64();
    }
    let ghost s1 = bit_reader@;
    let hdist: u32 = read_extra_bits(bit_reader, 0, 5, Field::HuffmanTable)?;
    proof {
        lemma_read_bits(s1, 5);
    }
    let ghost s2 = bit_reader@;
    let hclen: u32 = read_extra_bits(bit_reader, 0, 4, Field::HuffmanTable)?;
    proof {
        lemma_read_bits(s2, 4);
    }
    let cl_huffman = decode_codelen_token(bit_reader, hclen as u16)?;
    let letlentoken = decode_letlen_token(bit_reader, hlit as u16, &cl_huffman)?;
    let distancetoken = decode_distance_token(bit_reader, hdist as u16, &cl_huffman)?;
    Ok((letlentoken, distancetoken))
}

/// Reading extra bits keeps the reader well formed and never gives bits back.
pub proof fn lemma_read_extra(st: BitInput, base: u16, extra_bits: u8, field: Field)
    requires
        st.wf(),
    ensures
        read_extra(st, base, extra_bits, field).1.wf(),
        read_extra(st, base, extra_bits, field).1.src.data == st.src.data,
        read_extra(st, base, extra_bits, field).1.src.pos >= st.src.pos,
        read_extra(st, base, extra_bits, field).1.remaining_bits() <= st.remaining_bits(),
        read_extra(st, base, extra_bits, field).0 is Ok ==> read_extra(
            st,
            base,
            extra_bits,
            field,
        ).0->Ok_0 <= 2 * 65535,
{
    if extra_bits <= 16 {
        lemma_read_bits(st, extra_bits as nat);
    }
}

/// Reading the lengths of the code-length alphabet keeps the reader well
/// formed and never gives bits back.
pub proof fn lemma_read_code_length_lengths(st: BitInput, lengths: Seq<u8>, from: nat, count: nat)
    requires
        st.wf(),
    ensures
        read_code_length_lengths(st, lengths, from, count).1.wf(),
        read_code_length_lengths(st, lengths, from, count).1.src.data == st.src.data,
        read_code_length_lengths(st, lengths, from, count).1.src.pos >= st.src.pos,
        read_code_length_lengths(st, lengths, from, count).1.remaining_bits()
            <= st.remaining_bits(),
    decreases count - from,
{
    if from < count {
        lemma_read_bits(st, 3);
        let (r, next) = st.read_bits(3);
        if r is Ok {
            lemma_read_code_length_lengths(
                next,
                lengths.update(special_order()[from as int] as int, r->Ok_0.bits as u8),
                from + 1,
                count,
            );
        }
    }
}

/// Reading code lengths keeps the reader well formed and never gives bits
/// back.
pub proof fn lemma_read_lengths(
    table: Map<BitSequence, TreeCodeToken>,
    st: BitInput,
    lengths: Seq<u8>,
    pos: nat,
    count: nat,
)
    requires
        st.wf(),
        count <= lengths.len(),
    ensures
        read_lengths(table, st, lengths, pos, count).1.wf(),
        read_lengths(table, st, lengths, pos, count).1.src.data == st.src.data,
        read_lengths(table, st, lengths, pos, count).1.src.pos >= st.src.pos,
        read_lengths(table, st, lengths, pos, count).1.remaining_bits() <= st.remaining_bits(),
    decreases lengths.len() + count - pos,
{
    if pos < count {
        lemma_read_symbol_from(table, st, BitSequence { bits: 0, len: 0 }, MAX_BITS as nat);
        match read_symbol(table, st) {
            (Err(e), next) => {},
            (Ok(TreeCodeToken::Length(len)), next) => {
                lemma_read_lengths(table, next, lengths.update(pos as int, len), pos + 1, count);
            },
            (Ok(TreeCodeToken::CopyPrev), next) => {
                lemma_read_extra(next, 3, 2, Field::HuffmanTable);
                match read_extra(next, 3, 2, Field::HuffmanTable) {
                    (Err(e), after) => {},
                    (Ok(n), after) => {
                        if !(pos == 0 || n == 0 || pos + n > lengths.len()) {
                            lemma_read_lengths(
                                table,
                                after,
                                filled(lengths, pos, n, lengths[pos - 1]),
                                pos + n,
                                count,
                            );
                        }
                    },
                }
            },
            (Ok(TreeCodeToken::RepeatZero { base, extra_bits }), next) => {
                lemma_read_extra(next, base, extra_bits, Field::HuffmanTable);
                match read_extra(next, base, extra_bits, Field::HuffmanTable) {
                    (Err(e), after) => {},
                    (Ok(n), after) => {
                        if !(n == 0 || pos + n > lengths.len()) {
                            lemma_read_lengths(
                                table,
                                after,
                                filled(lengths, pos, n, 0),
                                pos + n,
                                count,
                            );
                        }
                    },
                }
            },
        }
    }
}

/// Reading the codes of a block keeps the reader well formed and never
/// gives bits back.
pub proof fn lemma_dynamic_codes(st: BitInput)
    requires
        st.wf(),
    ensures
        dynamic_codes(st).1.wf(),
        dynamic_codes(st).1.src.data == st.src.data,
        dynamic_codes(st).1.src.pos >= st.src.pos,
        dynamic_codes(st).1.remaining_bits() <= st.remaining_bits(),
{
    lemma_read_extra(st, 0, 5, Field::HuffmanTable);
    let (hlit, s1) = read_extra(st, 0, 5, Field::HuffmanTable);
    if hlit is Ok {
        lemma_read_extra(s1, 0, 5, Field::HuffmanTable);
        let (hdist, s2) = read_extra(s1, 0, 5, Field::HuffmanTable);
        if hdist is Ok {
            lemma_read_extra(s2, 0, 4, Field::HuffmanTable);
            let (hclen, s3) = read_extra(s2, 0, 4, Field::HuffmanTable);
            if hclen is Ok {
                lemma_read_code_length_lengths(s3, no_lengths(19), 0, hclen->Ok_0 + 4);
                let (table, s4) = code_length_code(s3, hclen->Ok_0);
                if table is Ok {
                    if hlit->Ok_0 + 257 <= 286 {
                        lemma_read_lengths(
                            table->Ok_0,
                            s4,
                            no_lengths(286),
                            0,
                            hlit->Ok_0 + 257,
                        );
                    }
                    let (lit_len, s5) = lit_len_code(table->Ok_0, s4, hlit->Ok_0);
                    if lit_len is Ok {
                        if hdist->Ok_0 + 1 <= 32 {
                            lemma_read_lengths(table->Ok_0, s5, no_lengths(32), 0, hdist->Ok_0 + 1);
                        }
                    }
                }
            }
        }
    }
}

/// The code word of symbol `i`, as a bit sequence.
pub open spec fn code_word(lengths: Seq<u8>, i: int) -> BitSequence {
    BitSequence { bits: code_of(lengths, i) as u16, len: lengths[i] }
}

/// Whether symbol `i` of an alphabet `T` has a code word: its length is not
/// zero, and the alphabet has a symbol for the index.
pub open spec fn has_code_word<T: TryFrom<HuffmanCodeWord, Error = DecodeError>>(
    lengths: Seq<u8>,
    i: int,
) -> bool {
    &&& 0 <= i < lengths.len()
    &&& lengths[i] != 0
    &&& T::try_from_spec(HuffmanCodeWord(i as u16)) is Ok
}

/// In the canonical code of well-formed code lengths, the code word of each
/// symbol stands for that symbol and no other, and every code word of the
/// code is that of a symbol.
pub proof fn lemma_canonical_lookup<T: TryFrom<HuffmanCodeWord, Error = DecodeError>>(
    lengths: Seq<u8>,
    upto: nat,
)
    requires
        !malformed_lengths(lengths),
        upto <= lengths.len(),
    ensures
        forall|i: int|
            0 <= i < upto && has_code_word::<T>(lengths, i) ==> {
                &&& #[trigger] table_of(canonical_entries::<T>(lengths, upto)).contains_key(
                    code_word(lengths, i),
                )
                &&& table_of(canonical_entries::<T>(lengths, upto))[code_word(lengths, i)]
                    == T::try_from_spec(HuffmanCodeWord(i as u16))->Ok_0
            },
        forall|word: BitSequence| #[trigger]
            table_of(canonical_entries::<T>(lengths, upto)).contains_key(word) ==> exists|i: int|
                0 <= i < upto && has_code_word::<T>(lengths, i) && word == code_word(lengths, i),
    decreases upto,
{
    if upto > 0 {
        let last = (upto - 1) as int;
        let before = canonical_entries::<T>(lengths, last as nat);
        let now = canonical_entries::<T>(lengths, upto);
        lemma_canonical_lookup::<T>(lengths, last as nat);
        if has_code_word::<T>(lengths, last) {
            let symbol = T::try_from_spec(HuffmanCodeWord(last as u16))->Ok_0;
            let entry = (code_word(lengths, last), symbol);
            assert(now == before.push(entry));
            assert(now.drop_last() =~= before);
            assert(table_of(now) == table_of(before).insert(entry.0, entry.1));
            assert forall|i: int| 0 <= i < upto && has_code_word::<T>(lengths, i) implies {
                &&& #[trigger] table_of(now).contains_key(code_word(lengths, i))
                &&& table_of(now)[code_word(lengths, i)] == T::try_from_spec(
                    HuffmanCodeWord(i as u16),
                )->Ok_0
            } by {
                if i < last {
                    lemma_code_words_differ(lengths, i, last);
                    assert(table_of(before).contains_key(code_word(lengths, i)));
                }
            }
            assert forall|word: BitSequence| #[trigger]
                table_of(now).contains_key(word) implies exists|i: int|
                0 <= i < upto && has_code_word::<T>(lengths, i) && word == code_word(
                    lengths,
                    i,
                ) by {
                if word == code_word(lengths, last) {
                    assert(has_code_word::<T>(lengths, last));
                } else {
                    assert(table_of(before).contains_key(word));
                    let i = choose|i: int|
                        0 <= i < last && has_code_word::<T>(lengths, i) && word == code_word(
                            lengths,
                            i,
                        );
                    assert(0 <= i < upto && has_code_word::<T>(lengths, i) && word == code_word(
                        lengths,
                        i,
                    ));
                }
            }
        } else {
            assert(now == before);
            assert forall|i: int| 0 <= i < upto && has_code_word::<T>(lengths, i) implies {
                &&& #[trigger] table_of(now).contains_key(code_word(lengths, i))
                &&& table_of(now)[code_word(lengths, i)] == T::try_from_spec(
                    HuffmanCodeWord(i as u16),
                )->Ok_0
            } by {
                assert(i < last);
                assert(table_of(before).contains_key(code_word(lengths, i)));
            }
        }
    }
}

/// Two symbols with code words have different code words.
pub proof fn lemma_code_words_differ(lengths: Seq<u8>, i: int, j: int)
    requires
        !malformed_lengths(lengths),
        0 <= i < lengths.len(),
        0 <= j < lengths.len(),
        i != j,
        lengths[i] != 0,
        lengths[j] != 0,
    ensures
        code_word(lengths, i) != code_word(lengths, j),
{
    lemma_code_fits(lengths, i);
    lemma_code_fits(lengths, j);
    if lengths[i] == lengths[j] {
        lemma_prefix_free(lengths, i, j);
        lemma2_to64();
        let cut = (lengths[j] - lengths[i]) as nat;
        assert(cut == 0);
        assert(pow2(cut) == 1);
        assert(code_of(lengths, j) / 1 == code_of(lengths, j));
        assert(code_of(lengths, i) != code_of(lengths, j));
        assert(code_word(lengths, i).bits != code_word(lengths, j).bits);
    }
}

/// Reads `count` bits one after another, each appended on the low side of
/// `prefix`: the bits that come, most significant bit first.
pub open spec fn read_code_bits(st: BitInput, prefix: BitSequence, count: nat) -> (
    Result<BitSequence, DecodeError>,
    BitInput,
)
    decreases count,
{
    if count == 0 {
        (Ok(prefix), st)
    } else {
        match st.read_bits(1) {
            (Err(e), next) => (Err(e), next),
            (Ok(bit), next) => read_code_bits(next, prefix.joined(bit), (count - 1) as nat),
        }
    }
}

/// The bits read so far are the high bits of what is read in the end.
pub proof fn lemma_read_code_bits_top(st: BitInput, prefix: BitSequence, count: nat)
    requires
        st.wf(),
        prefix.wf(),
        prefix.len + count <= 15,
        read_code_bits(st, prefix, count).0 is Ok,
    ensures
        read_code_bits(st, prefix, count).0->Ok_0.len == prefix.len + count,
        read_code_bits(st, prefix, count).0->Ok_0.bits as nat / pow2(count) == prefix.bits,
    decreases count,
{
    lemma2_to64();
    if count > 0 {
        lemma_read_bits(st, 1);
        let (bit, next) = st.read_bits(1);
        let longer = prefix.joined(bit->Ok_0);
        lemma_joined_fits(prefix, bit->Ok_0);
        lemma_read_code_bits_top(next, longer, (count - 1) as nat);
        let end = read_code_bits(st, prefix, count).0->Ok_0.bits as nat;
        let p = pow2((count - 1) as nat);
        vstd::arithmetic::power2::lemma_pow2_unfold(count);
        vstd::arithmetic::power2::lemma_pow2_pos((count - 1) as nat);
        assert(end / p == prefix.bits * 2 + bit->Ok_0.bits);
        assert(end / (p * 2) == (end / p) / 2) by (nonlinear_arith)
            requires
                p > 0,
        ;
    } else {
        assert(prefix.bits as nat / 1 == prefix.bits);
    }
}

/// Where the coming bits spell the code word of a symbol, most significant
/// bit first, `read_symbol` reads just these bits and gives that symbol.
pub proof fn lemma_read_symbol_decodes<T: TryFrom<HuffmanCodeWord, Error = DecodeError>>(
    lengths: Seq<u8>,
    i: int,
    st: BitInput,
)
    requires
        !malformed_lengths(lengths),
        has_code_word::<T>(lengths, i),
        st.wf(),
        read_code_bits(st, BitSequence { bits: 0, len: 0 }, lengths[i] as nat).0 == Ok::<
            BitSequence,
            DecodeError,
        >(code_word(lengths, i)),
    ensures
        read_symbol(table_of(canonical_entries::<T>(lengths, lengths.len())), st) == (
            Ok::<T, DecodeError>(T::try_from_spec(HuffmanCodeWord(i as u16))->Ok_0),
            read_code_bits(st, BitSequence { bits: 0, len: 0 }, lengths[i] as nat).1,
        ),
{
    lemma2_to64();
    lemma_code_fits(lengths, i);
    lemma_read_symbol_decodes_from::<T>(lengths, i, st, BitSequence { bits: 0, len: 0 });
}

/// The same, after some bits of the code word have been read.
proof fn lemma_read_symbol_decodes_from<T: TryFrom<HuffmanCodeWord, Error = DecodeError>>(
    lengths: Seq<u8>,
    i: int,
    st: BitInput,
    prefix: BitSequence,
)
    requires
        !malformed_lengths(lengths),
        has_code_word::<T>(lengths, i),
        st.wf(),
        prefix.wf(),
        prefix.len < lengths[i] <= 15,
        read_code_bits(st, prefix, (lengths[i] - prefix.len) as nat).0 == Ok::<
            BitSequence,
            DecodeError,
        >(code_word(lengths, i)),
    ensures
        read_symbol_from(
            table_of(canonical_entries::<T>(lengths, lengths.len())),
            st,
            prefix,
            (MAX_BITS - prefix.len) as nat,
        ) == (
            Ok::<T, DecodeError>(T::try_from_spec(HuffmanCodeWord(i as u16))->Ok_0),
            read_code_bits(st, prefix, (lengths[i] - prefix.len) as nat).1,
        ),
    decreases lengths[i] - prefix.len,
{
    let table = table_of(canonical_entries::<T>(lengths, lengths.len()));
    let left = (lengths[i] - prefix.len) as nat;
    lemma_canonical_lookup::<T>(lengths, lengths.len());
    lemma_code_fits(lengths, i);
    lemma_read_bits(st, 1);
    let (bit, next) = st.read_bits(1);
    let longer = prefix.joined(bit->Ok_0);
    lemma_joined_fits(prefix, bit->Ok_0);
    if left == 1 {
        assert(read_code_bits(next, longer, 0).0 == Ok::<BitSequence, DecodeError>(longer));
        assert(table.contains_key(code_word(lengths, i)));
    } else {
        lemma_read_code_bits_top(next, longer, (left - 1) as nat);
        if table.contains_key(longer) {
            let j = choose|j: int|
                0 <= j < lengths.len() && has_code_word::<T>(lengths, j) && longer == code_word(
                    lengths,
                    j,
                );
            lemma_code_fits(lengths, j);
            lemma_prefix_free(lengths, j, i);
            assert(false);
        }
        lemma_read_symbol_decodes_from::<T>(lengths, i, next, longer);
    }
}

/// The key of a bit sequence tells the sequence: inserting under the key
/// inserts under the sequence.
pub proof fn lemma_keyed_insert<T>(map: Map<u32, T>, seq: BitSequence, value: T)
    ensures
        keyed(map.insert(key_of(seq), value)) == keyed(map).insert(seq, value),
{
    assert forall|a: BitSequence, b: BitSequence| key_of(a) == key_of(b) implies a == b by {
        let x = a.len as int * 65536 + a.bits as int;
        let y = b.len as int * 65536 + b.bits as int;
        assert(x == y);
        assert(a.len == b.len);
    }
    assert(keyed(map.insert(key_of(seq), value)) =~= keyed(map).insert(seq, value));
}

} // verus!
