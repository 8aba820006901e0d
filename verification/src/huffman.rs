//! Prefix codes.
use vstd::prelude::*;
use vstd::arithmetic::div_mod::*;
use vstd::arithmetic::power2::*;
use vstd::bits::*;
use crate::reader::{self, BitReader, ReadError};

verus! {

/// Why no symbol could be decoded.
#[derive(Debug, Clone, Copy, PartialEq, Eq, Structural)]
pub enum HuffmanError {
    /// The data ended inside a codeword.
    Read(ReadError),
    /// The bits do not begin with any codeword.
    UnknownCodeword,
}

/// One codeword: the `length` lowest bits of `code`.
#[derive(Debug, Clone, Copy, PartialEq, Eq, Structural)]
pub struct Codeword {
    /// Number of bits.
    pub length: u8,
    /// The bits as a number, the first bit being the most significant.
    pub code: u32,
}

/// Whether the bits from `pos` on begin with a codeword.
pub open spec fn begins_with(bits: Seq<bool>, pos: int, word: Codeword) -> bool {
    &&& pos + word.length <= bits.len()
    &&& reader::bits_value(bits, pos, word.length as int) == word.code
}

/// Whether one codeword is the beginning of another.
pub open spec fn is_prefix(short: Codeword, long: Codeword) -> bool {
    &&& short.length <= long.length
    &&& long.code as nat / pow2((long.length - short.length) as nat) == short.code
}

/// Whether a list of codewords is a usable prefix code: there is at least one
/// and at most 65536, each has 1 to 32 bits, and none begins another.
pub open spec fn is_prefix_code(words: Seq<Codeword>) -> bool {
    &&& 1 <= words.len() <= 65536
    &&& forall|i: int|
        0 <= i < words.len() ==> 1 <= (#[trigger] words[i]).length <= 32 && words[i].code < pow2(
            words[i].length as nat,
        )
    &&& forall|i: int, j: int|
        0 <= i < words.len() && 0 <= j < words.len() && i != j ==> !is_prefix(
            #[trigger] words[i],
            #[trigger] words[j],
        )
}

/// The symbol whose codeword stands at `pos`, if there is one.
pub open spec fn symbol_at(words: Seq<Codeword>, bits: Seq<bool>, pos: int) -> Option<int> {
    if exists|s: int| 0 <= s < words.len() && begins_with(bits, pos, #[trigger] words[s]) {
        Some(
            choose|s: int| 0 <= s < words.len() && begins_with(bits, pos, #[trigger] words[s]),
        )
    } else {
        None
    }
}

/// Length of the longest of the first `count` codewords.
pub open spec fn longest(words: Seq<Codeword>, count: int) -> int
    decreases count,
{
    if count <= 0 {
        0
    } else if words[count - 1].length > longest(words, count - 1) {
        words[count - 1].length as int
    } else {
        longest(words, count - 1)
    }
}

proof fn lemma_longest(words: Seq<Codeword>, count: int, index: int)
    requires
        0 <= index < count <= words.len(),
    ensures
        words[index].length <= longest(words, count),
    decreases count,
{
    if index < count - 1 {
        lemma_longest(words, count - 1, index);
    }
}

/// The number that a beginning of some bits stands for.
proof fn lemma_bits_value_prefix(bits: Seq<bool>, pos: int, part: int, count: int)
    requires
        0 <= part <= count,
    ensures
        reader::bits_value(bits, pos, count) / pow2((count - part) as nat) == reader::bits_value(
            bits,
            pos,
            part,
        ),
    decreases count - part,
{
    if part < count {
        lemma_bits_value_prefix(bits, pos, part, count - 1);
        let rest = (count - 1 - part) as nat;
        lemma_pow2_unfold((count - part) as nat);
        lemma_pow2_pos(rest);
        lemma_div_denominator(reader::bits_value(bits, pos, count) as int, 2, pow2(rest) as int);
    } else {
        lemma2_to64();
    }
}

/// At most one codeword of a prefix code stands at a position.
pub proof fn lemma_symbol_is_unique(
    words: Seq<Codeword>,
    bits: Seq<bool>,
    pos: int,
    first: int,
    second: int,
)
    requires
        is_prefix_code(words),
        0 <= first < words.len(),
        0 <= second < words.len(),
        begins_with(bits, pos, words[first]),
        begins_with(bits, pos, words[second]),
    ensures
        first == second,
        symbol_at(words, bits, pos) == Some(first),
{
    lemma_same_symbol(words, bits, pos, first, second);
    let chosen = choose|s: int|
        0 <= s < words.len() && begins_with(bits, pos, #[trigger] words[s]);
    lemma_same_symbol(words, bits, pos, first, chosen);
}

proof fn lemma_same_symbol(
    words: Seq<Codeword>,
    bits: Seq<bool>,
    pos: int,
    first: int,
    second: int,
)
    requires
        is_prefix_code(words),
        0 <= first < words.len(),
        0 <= second < words.len(),
        begins_with(bits, pos, words[first]),
        begins_with(bits, pos, words[second]),
    ensures
        first == second,
{
    let a = words[first].length as int;
    let b = words[second].length as int;
    if first != second {
        if a <= b {
            lemma_bits_value_prefix(bits, pos, a, b);
            assert(is_prefix(words[first], words[second]));
        } else {
            lemma_bits_value_prefix(bits, pos, b, a);
            assert(is_prefix(words[second], words[first]));
        }
    }
}

/// A prefix code; symbols are numbered from zero.
#[derive(Debug)]
pub struct HuffmanTable {
    words: Vec<Codeword>,
    longest: u8,
}

impl View for HuffmanTable {
    type V = Seq<Codeword>;

    closed spec fn view(&self) -> Seq<Codeword> {
        self.words@
    }
}

/// Whether one codeword is the beginning of another.
fn starts_with(long: &Codeword, short: &Codeword) -> (result: bool)
    requires
        long.length <= 32,
    ensures
        result == is_prefix(*short, *long),
{
    if short.length > long.length {
        return false;
    }
    let shift: u64 = (long.length - short.length) as u64;
    proof {
        lemma_u64_shr_is_div(long.code as u64, shift);
    }
    (long.code as u64) >> shift == short.code as u64
}

impl HuffmanTable {
    #[verifier::type_invariant]
    spec fn well_formed(self) -> bool {
        &&& is_prefix_code(self.words@)
        &&& self.longest == longest(self.words@, self.words@.len() as int)
        &&& self.longest <= 32
    }

    /// Builds a table from the codewords of its symbols, if they form a usable
    /// prefix code.
    pub fn new(words: Vec<Codeword>) -> (result: Option<HuffmanTable>)
        ensures
            match result {
                Some(table) => is_prefix_code(words@) && table@ == words@,
                None => !is_prefix_code(words@),
            },
    {
        if words.len() == 0 || words.len() > 65536 {
            return None;
        }
        let mut top: u8 = 0;
        let mut i: usize = 0;
        while i < words.len()
            invariant
                i <= words@.len() <= 65536,
                top == longest(words@, i as int),
                top <= 32,
                forall|k: int|
                    0 <= k < i ==> 1 <= (#[trigger] words@[k]).length <= 32 && words@[k].code
                        < pow2(words@[k].length as nat),
            decreases words@.len() - i,
        {
            let word: Codeword = words[i];
            if word.length == 0 || word.length > 32 {
                assert(!(1 <= words@[i as int].length <= 32));
                return None;
            }
            let shift: u64 = word.length as u64;
            proof {
                lemma_u64_shr_is_div(word.code as u64, shift);
                lemma_pow2_pos(word.length as nat);
                let p = pow2(word.length as nat);
                let c = word.code as nat;
                assert(c / p == 0 <==> c < p) by (nonlinear_arith)
                    requires
                        p > 0,
                ;
            }
            if (word.code as u64) >> shift != 0 {
                assert(!(words@[i as int].code < pow2(words@[i as int].length as nat)));
                return None;
            }
            if word.length > top {
                top = word.length;
            }
            i = i + 1;
        }
        i = 0;
        while i < words.len()
            invariant
                i <= words@.len() <= 65536,
                forall|k: int| 0 <= k < words@.len() ==> (#[trigger] words@[k]).length <= 32,
                forall|k: int, l: int|
                    0 <= k < i && 0 <= l < words@.len() && k != l ==> !is_prefix(
                        #[trigger] words@[k],
                        #[trigger] words@[l],
                    ),
            decreases words@.len() - i,
        {
            let mut j: usize = 0;
            while j < words.len()
                invariant
                    i < words@.len() <= 65536,
                    j <= words@.len(),
                    forall|k: int| 0 <= k < words@.len() ==> (#[trigger] words@[k]).length <= 32,
                    forall|l: int|
                        0 <= l < j && i != l ==> !is_prefix(
                            words@[i as int],
                            #[trigger] words@[l],
                        ),
                decreases words@.len() - j,
            {
                if i != j && starts_with(&words[j], &words[i]) {
                    assert(is_prefix(words@[i as int], words@[j as int]));
                    return None;
                }
                j = j + 1;
            }
            i = i + 1;
        }
        Some(HuffmanTable { words, longest: top })
    }

    /// Number of symbols.
    #[must_use]
    pub fn len(&self) -> (count: usize)
        ensures
            count == self@.len(),
            is_prefix_code(self@),
    {
        proof {
            use_type_invariant(self);
        }
        self.words.len()
    }

    /// The symbol whose codeword has the given length and value.
    fn find(&self, length: u8, value: u64) -> (symbol: Option<usize>)
        ensures
            match symbol {
                Some(s) => {
                    &&& s < self@.len()
                    &&& self@[s as int].length == length
                    &&& self@[s as int].code == value
                },
                None => forall|s: int|
                    0 <= s < self@.len() ==> (#[trigger] self@[s]).length != length || self@[s].code
                        != value,
            },
    {
        let mut s: usize = 0;
        while s < self.words.len()
            invariant
                s <= self.words@.len(),
                forall|k: int|
                    0 <= k < s ==> (#[trigger] self.words@[k]).length != length
                        || self.words@[k].code != value,
            decreases self.words@.len() - s,
        {
            if self.words[s].length == length && self.words[s].code as u64 == value {
                return Some(s);
            }
            s = s + 1;
        }
        None
    }

    /// Decodes the symbol at the position of the reader.
    ///
    /// When no codeword stands there, as many bits are read as the longest
    /// codeword has, or all that are left.
    pub fn decode(&self, reader: &mut BitReader<'_>) -> (result: Result<u16, HuffmanError>)
        ensures
            match result {
                Ok(symbol) => {
                    &&& symbol_at(self@, old(reader)@.bits, old(reader)@.pos) == Some(symbol as int)
                    &&& symbol < self@.len()
                    &&& final(reader)@ == old(reader)@.at(
                        old(reader)@.pos + self@[symbol as int].length,
                    )
                },
                Err(HuffmanError::Read(error)) => {
                    &&& symbol_at(self@, old(reader)@.bits, old(reader)@.pos) is None
                    &&& old(reader)@.left() < longest(self@, self@.len() as int)
                    &&& error == ReadError::EndOfData { needed: 1, available: 0 }
                    &&& final(reader)@ == old(reader)@.at(old(reader)@.bits.len() as int)
                },
                Err(HuffmanError::UnknownCodeword) => {
                    &&& symbol_at(self@, old(reader)@.bits, old(reader)@.pos) is None
                    &&& old(reader)@.left() >= longest(self@, self@.len() as int)
                    &&& final(reader)@ == old(reader)@.at(
                        old(reader)@.pos + longest(self@, self@.len() as int),
                    )
                },
            },
    {
        proof {
            use_type_invariant(self);
        }
        let position: u64 = reader.bit_position();
        let ghost start = reader@;
        let ghost words = self@;
        let mut value: u64 = 0;
        let mut length: u8 = 0;
        while length < self.longest
            invariant
                start == old(reader)@,
                position == start.pos,
                words == self@,
                is_prefix_code(words),
                self.longest == longest(words, words.len() as int),
                length <= self.longest <= 32,
                start.pos >= 0,
                start.pos + length <= start.bits.len(),
                reader@ == start.at(start.pos + length),
                value == reader::bits_value(start.bits, start.pos, length as int),
                value < 0x1_0000_0000,
                forall|s: int|
                    0 <= s < words.len() && (#[trigger] words[s]).length <= length ==> !begins_with(
                        start.bits,
                        start.pos,
                        words[s],
                    ),
            decreases self.longest - length,
        {
            let flag: bool = match reader.read_flag() {
                Ok(flag) => flag,
                Err(error) => {
                    return Err(HuffmanError::Read(error));
                },
            };
            value = value * 2 + (if flag {
                1
            } else {
                0
            });
            length = length + 1;
            proof {
                reader::lemma_bits_value_range(start.bits, start.pos, length as int);
                lemma2_to64();
                if length < 32 {
                    lemma_pow2_strictly_increases(length as nat, 32);
                }
            }
            if let Some(symbol) = self.find(length, value) {
                proof {
                    lemma_symbol_is_unique(
                        words,
                        start.bits,
                        start.pos,
                        symbol as int,
                        symbol as int,
                    );
                }
                return Ok(symbol as u16);
            }
        }
        proof {
            assert forall|s: int| 0 <= s < words.len() implies !begins_with(
                start.bits,
                start.pos,
                #[trigger] words[s],
            ) by {
                lemma_longest(words, words.len() as int, s);
            }
        }
        Err(HuffmanError::UnknownCodeword)
    }
}

/// A codeword that begins another one stands wherever the other one stands: a
/// code with two such codewords could not be told apart.
pub proof fn lemma_prefixes_are_ambiguous(
    short: Codeword,
    long: Codeword,
    bits: Seq<bool>,
    pos: int,
)
    requires
        is_prefix(short, long),
        begins_with(bits, pos, long),
    ensures
        begins_with(bits, pos, short),
{
    lemma_bits_value_prefix(bits, pos, short.length as int, long.length as int);
}

/// No codeword is longer than the longest one, and the longest one is a codeword.
pub proof fn lemma_the_longest_codeword(words: Seq<Codeword>, count: int)
    requires
        0 < count <= words.len(),
    ensures
        forall|i: int| 0 <= i < count ==> (#[trigger] words[i]).length <= longest(words, count),
        exists|i: int|
            0 <= i < count && (#[trigger] words[i]).length == longest(words, count),
    decreases count,
{
    assert forall|i: int| 0 <= i < count implies (#[trigger] words[i]).length <= longest(
        words,
        count,
    ) by {
        lemma_longest(words, count, i);
    }
    if count > 1 {
        lemma_the_longest_codeword(words, count - 1);
        if longest(words, count) == longest(words, count - 1) {
            let i = choose|i: int|
                0 <= i < count - 1 && (#[trigger] words[i]).length == longest(words, count - 1);
            assert(words[i].length == longest(words, count));
        } else {
            assert(words[count - 1].length == longest(words, count));
        }
    } else {
        reveal_with_fuel(longest, 2);
        assert(words[0].length == longest(words, count));
    }
}

/// A symbol is decoded exactly where one of the codewords stands.
pub proof fn lemma_codewords_are_decoded(words: Seq<Codeword>, bits: Seq<bool>, pos: int)
    ensures
        match symbol_at(words, bits, pos) {
            Some(symbol) => {
                let word = words[symbol];
                &&& 0 <= symbol < words.len()
                &&& pos + word.length <= bits.len()
                &&& reader::bits_value(bits, pos, word.length as int) == word.code
            },
            None => forall|s: int|
                0 <= s < words.len() && pos + (#[trigger] words[s]).length <= bits.len()
                    ==> reader::bits_value(bits, pos, words[s].length as int) != words[s].code,
        },
{
    if symbol_at(words, bits, pos) is None {
        assert forall|s: int|
            0 <= s < words.len() && pos + (#[trigger] words[s]).length <= bits.len() implies
            reader::bits_value(bits, pos, words[s].length as int) != words[s].code by {
            assert(!begins_with(bits, pos, words[s]));
        }
    }
}

/// The bits of a codeword.
pub open spec fn word_bits(word: Codeword) -> Seq<bool> {
    Seq::new(
        word.length as nat,
        |i: int| (word.code as nat / pow2((word.length - 1 - i) as nat)) % 2 == 1,
    )
}

proof fn lemma_word_bits_value(word: Codeword, count: int)
    requires
        0 <= count <= word.length,
        word.code < pow2(word.length as nat),
    ensures
        reader::bits_value(word_bits(word), 0, count) == word.code as nat / pow2(
            (word.length - count) as nat,
        ),
    decreases count,
{
    let code = word.code as int;
    let rest = (word.length - count) as nat;
    if count > 0 {
        lemma_word_bits_value(word, count - 1);
        lemma_pow2_unfold(rest + 1);
        lemma_pow2_pos(rest);
        lemma_div_denominator(code, pow2(rest) as int, 2);
        assert(pow2(rest) * 2 == pow2(rest + 1)) by (nonlinear_arith)
            requires
                pow2(rest + 1) == 2 * pow2(rest),
        ;
        let bits = word_bits(word);
        assert(bits[0 + count - 1] == ((word.code as nat / pow2(rest)) % 2 == 1));
    } else {
        vstd::arithmetic::div_mod::lemma_basic_div(code, pow2(word.length as nat) as int);
    }
}

/// A codeword stands at the start of its own bits, and of any bits that go on
/// from there.
pub proof fn lemma_codewords_begin_their_bits(word: Codeword)
    requires
        word.code < pow2(word.length as nat),
    ensures
        begins_with(word_bits(word), 0, word),
{
    lemma_word_bits_value(word, word.length as int);
    lemma2_to64();
}

/// Which codes are usable: between one and 65536 codewords of 1 to 32 bits each,
/// no larger than their bits, such that no bits begin with two of them.
pub proof fn lemma_usable_codes_are_unambiguous(words: Seq<Codeword>)
    ensures
        is_prefix_code(words) <==> {
            &&& 1 <= words.len() <= 65536
            &&& forall|i: int|
                0 <= i < words.len() ==> 1 <= (#[trigger] words[i]).length <= 32 && words[i].code
                    < pow2(words[i].length as nat)
            &&& forall|bits: Seq<bool>, pos: int, i: int, j: int|
                0 <= i < words.len() && 0 <= j < words.len() && #[trigger] begins_with(
                    bits,
                    pos,
                    words[i],
                ) && #[trigger] begins_with(bits, pos, words[j]) ==> i == j
        },
{
    if is_prefix_code(words) {
        assert forall|bits: Seq<bool>, pos: int, i: int, j: int|
            0 <= i < words.len() && 0 <= j < words.len() && #[trigger] begins_with(
                bits,
                pos,
                words[i],
            ) && #[trigger] begins_with(bits, pos, words[j]) implies i == j by {
            lemma_same_symbol(words, bits, pos, i, j);
        }
    }
    if {
        &&& 1 <= words.len() <= 65536
        &&& forall|i: int|
            0 <= i < words.len() ==> 1 <= (#[trigger] words[i]).length <= 32 && words[i].code
                < pow2(words[i].length as nat)
        &&& forall|bits: Seq<bool>, pos: int, i: int, j: int|
            0 <= i < words.len() && 0 <= j < words.len() && #[trigger] begins_with(
                bits,
                pos,
                words[i],
            ) && #[trigger] begins_with(bits, pos, words[j]) ==> i == j
    } {
        assert forall|i: int, j: int|
            0 <= i < words.len() && 0 <= j < words.len() && i != j implies !is_prefix(
            #[trigger] words[i],
            #[trigger] words[j],
        ) by {
            let bits = word_bits(words[j]);
            lemma_codewords_begin_their_bits(words[j]);
            if is_prefix(words[i], words[j]) {
                lemma_prefixes_are_ambiguous(words[i], words[j], bits, 0);
                assert(begins_with(bits, 0, words[i]));
            }
        }
    }
}

} // verus!
