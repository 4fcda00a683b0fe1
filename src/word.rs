use std::collections::HashSet;

use vstd::prelude::*;
use vstd::string::StringSliceAdditionalSpecFns;

verus! {

/// A lowercase ASCII letter.
pub open spec fn is_lower(b: u8) -> bool {
    97 <= b <= 122
}

/// Five lowercase ASCII letters.
pub open spec fn is_word(s: Seq<u8>) -> bool {
    &&& s.len() == 5
    &&& forall|i: int| 0 <= i < 5 ==> is_lower(#[trigger] s[i])
}

/// The letter's index in the alphabet, 0 for `a` up to 25 for `z`.
pub open spec fn letter_index(b: u8) -> int {
    b as int - 97
}

/// The integer code of a word: five 5-bit fields, first letter most significant.
pub open spec fn word_code(s: Seq<u8>) -> int {
    ((((letter_index(s[0]) * 32 + letter_index(s[1])) * 32 + letter_index(s[2])) * 32
        + letter_index(s[3])) * 32 + letter_index(s[4]))
}

/// The 5-bit field of `n` that starts at bit `shift`.
pub open spec fn field(n: u64, shift: u64) -> u64 {
    (n >> shift) & 31
}

/// Each of the five 5-bit fields in the low 25 bits of `n` names a letter;
/// the bits above them are ignored.
pub open spec fn is_code(n: u64) -> bool {
    &&& field(n, 20) < 26
    &&& field(n, 15) < 26
    &&& field(n, 10) < 26
    &&& field(n, 5) < 26
    &&& field(n, 0) < 26
}

/// The letters that the fields of `n` name.
pub open spec fn decoded(n: u64) -> Seq<u8> {
    seq![
        (field(n, 20) + 97) as u8,
        (field(n, 15) + 97) as u8,
        (field(n, 10) + 97) as u8,
        (field(n, 5) + 97) as u8,
        (field(n, 0) + 97) as u8,
    ]
}

proof fn lemma_pack(x0: u64, x1: u64, x2: u64, x3: u64, x4: u64)
    requires
        x0 < 32,
        x1 < 32,
        x2 < 32,
        x3 < 32,
        x4 < 32,
    ensures
        ((((x0 * 32 + x1) * 32 + x2) * 32 + x3) * 32 + x4) < 0x200_0000,
        field(((((x0 * 32 + x1) * 32 + x2) * 32 + x3) * 32 + x4) as u64, 20) == x0,
        field(((((x0 * 32 + x1) * 32 + x2) * 32 + x3) * 32 + x4) as u64, 15) == x1,
        field(((((x0 * 32 + x1) * 32 + x2) * 32 + x3) * 32 + x4) as u64, 10) == x2,
        field(((((x0 * 32 + x1) * 32 + x2) * 32 + x3) * 32 + x4) as u64, 5) == x3,
        field(((((x0 * 32 + x1) * 32 + x2) * 32 + x3) * 32 + x4) as u64, 0) == x4,
{
    assert(((((x0 * 32 + x1) * 32 + x2) * 32 + x3) * 32 + x4) < 0x200_0000) by (nonlinear_arith)
        requires
            x0 < 32,
            x1 < 32,
            x2 < 32,
            x3 < 32,
            x4 < 32,
    ;
    let n: u64 = ((((x0 * 32 + x1) * 32 + x2) * 32 + x3) * 32 + x4) as u64;
    assert(n == (x0 << 20) | (x1 << 15) | (x2 << 10) | (x3 << 5) | x4) by (bit_vector)
        requires
            x0 < 32,
            x1 < 32,
            x2 < 32,
            x3 < 32,
            x4 < 32,
            n == ((((x0 * 32 + x1) * 32 + x2) * 32 + x3) * 32 + x4),
    ;
    assert({
        &&& (n >> 20) & 31 == x0
        &&& (n >> 15) & 31 == x1
        &&& (n >> 10) & 31 == x2
        &&& (n >> 5) & 31 == x3
        &&& (n >> 0) & 31 == x4
    }) by (bit_vector)
        requires
            x0 < 32,
            x1 < 32,
            x2 < 32,
            x3 < 32,
            x4 < 32,
            n == (x0 << 20) | (x1 << 15) | (x2 << 10) | (x3 << 5) | x4,
    ;
}

proof fn lemma_unpack(n: u64)
    requires
        n < 0x200_0000,
    ensures
        n == ((((field(n, 20) * 32 + field(n, 15)) * 32 + field(n, 10)) * 32 + field(n, 5)) * 32
            + field(n, 0)),
        field(n, 20) < 32,
        field(n, 15) < 32,
        field(n, 10) < 32,
        field(n, 5) < 32,
        field(n, 0) < 32,
{
    assert(n == (((((n >> 20) & 31) * 32 + ((n >> 15) & 31)) * 32 + ((n >> 10) & 31)) * 32 + ((n
        >> 5) & 31)) * 32 + ((n >> 0) & 31)) by (bit_vector)
        requires
            n < 0x200_0000,
    ;
    assert({
        &&& (n >> 20) & 31 < 32
        &&& (n >> 15) & 31 < 32
        &&& (n >> 10) & 31 < 32
        &&& (n >> 5) & 31 < 32
        &&& (n >> 0) & 31 < 32
    }) by (bit_vector);
}

/// Decoding the code of a word gives the word back.
pub proof fn lemma_round_trip(w: Seq<u8>)
    requires
        is_word(w),
    ensures
        0 <= word_code(w) < 0x200_0000,
        is_code(word_code(w) as u64),
        decoded(word_code(w) as u64) == w,
{
    assert(is_lower(w[0]) && is_lower(w[1]) && is_lower(w[2]) && is_lower(w[3]) && is_lower(w[4]));
    lemma_pack(
        (w[0] - 97) as u64,
        (w[1] - 97) as u64,
        (w[2] - 97) as u64,
        (w[3] - 97) as u64,
        (w[4] - 97) as u64,
    );
    assert(decoded(word_code(w) as u64) =~= w);
}

/// Encoding the word that a code names gives back the code's low 25 bits.
pub proof fn lemma_code_round_trip(n: u64)
    requires
        is_code(n),
    ensures
        is_word(decoded(n)),
        word_code(decoded(n)) == n % 0x200_0000,
{
    let m: u64 = n & 0x1ff_ffff;
    assert({
        &&& m == n % 0x200_0000
        &&& m < 0x200_0000
        &&& (m >> 20) & 31 == (n >> 20) & 31
        &&& (m >> 15) & 31 == (n >> 15) & 31
        &&& (m >> 10) & 31 == (n >> 10) & 31
        &&& (m >> 5) & 31 == (n >> 5) & 31
        &&& (m >> 0) & 31 == (n >> 0) & 31
    }) by (bit_vector)
        requires
            m == n & 0x1ff_ffff,
    ;
    lemma_unpack(m);
    assert(decoded(n) =~= decoded(m));
}

/// Two words with the same code are the same word.
pub proof fn lemma_code_injective(a: Seq<u8>, b: Seq<u8>)
    requires
        is_word(a),
        is_word(b),
        word_code(a) == word_code(b),
    ensures
        a == b,
{
    lemma_round_trip(a);
    lemma_round_trip(b);
}

broadcast use vstd::std_specs::hash::group_hash_axioms;

/// A word: five lowercase ASCII letters.
#[derive(Clone, Copy, Debug, PartialEq, Eq, Hash)]
pub struct Word {
    letters: [u8; 5],
}

/// Why text is not a word.
#[derive(Clone, Copy, Debug, PartialEq, Eq, Structural)]
pub enum WordError {
    /// The text is not exactly five bytes long.
    InvalidLength,
    /// A byte of the text is not a lowercase ASCII letter.
    InvalidLetter,
}

impl View for Word {
    type V = Seq<u8>;

    closed spec fn view(&self) -> Seq<u8> {
        self.letters@
    }
}

impl Word {
    #[verifier::type_invariant]
    spec fn inv(&self) -> bool {
        is_word(self.letters@)
    }

    /// The five letters, as bytes.
    pub fn letters(&self) -> (r: [u8; 5])
        ensures
            r@ == self@,
            is_word(r@),
    {
        proof {
            use_type_invariant(self);
        }
        self.letters
    }

    /// The letter at position `i`.
    pub fn letter(&self, i: usize) -> (r: u8)
        requires
            i < 5,
        ensures
            r == self@[i as int],
            is_lower(r),
            is_word(self@),
    {
        proof {
            use_type_invariant(self);
        }
        self.letters[i]
    }

    /// Reads a word from text: five lowercase ASCII letters.
    pub fn parse(text: &str) -> (r: Result<Word, WordError>)
        ensures
            text.spec_bytes().len() != 5 ==> r == Err::<Word, WordError>(WordError::InvalidLength),
            text.spec_bytes().len() == 5 && !is_word(text.spec_bytes()) ==> r == Err::<
                Word,
                WordError,
            >(WordError::InvalidLetter),
            is_word(text.spec_bytes()) ==> r is Ok && r->Ok_0@ == text.spec_bytes(),
    {
        let bytes = text.as_bytes();
        if bytes.len() != 5 {
            return Err(WordError::InvalidLength);
        }
        let mut letters = [0u8; 5];
        for i in 0..5
            invariant
                bytes@ == text.spec_bytes(),
                bytes@.len() == 5,
                forall|j: int| 0 <= j < i ==> letters@[j] == bytes@[j] && is_lower(bytes@[j]),
        {
            let b = bytes[i];
            if b < 97 || b > 122 {
                return Err(WordError::InvalidLetter);
            }
            letters[i] = b;
        }
        assert(letters@ =~= bytes@);
        Ok(Word { letters })
    }

    /// The word's code: each letter in 5 bits, `a` as 0, first letter most significant.
    pub fn encode(&self) -> (r: u64)
        ensures
            r == word_code(self@),
            r < 0x200_0000,
            is_word(self@),
            is_code(r),
            decoded(r) == self@,
    {
        proof {
            use_type_invariant(self);
            lemma_round_trip(self@);
        }
        let l = &self.letters;
        assert(is_lower(l[0]) && is_lower(l[1]) && is_lower(l[2]) && is_lower(l[3]) && is_lower(
            l[4],
        ));
        let mut n: u64 = (l[0] - 97) as u64;
        n = n * 32 + (l[1] - 97) as u64;
        n = n * 32 + (l[2] - 97) as u64;
        n = n * 32 + (l[3] - 97) as u64;
        n = n * 32 + (l[4] - 97) as u64;
        n
    }

    /// The word that a code's five low fields name; higher bits are ignored.
    pub fn decode(n: u64) -> (r: Word)
        requires
            is_code(n),
        ensures
            r@ == decoded(n),
            r.encode_spec() == n % 0x200_0000,
    {
        proof {
            lemma_code_round_trip(n);
        }
        let mut letters = [0u8; 5];
        letters[0] = (((n >> 20) & 31) as u8) + 97;
        letters[1] = (((n >> 15) & 31) as u8) + 97;
        letters[2] = (((n >> 10) & 31) as u8) + 97;
        letters[3] = (((n >> 5) & 31) as u8) + 97;
        letters[4] = (((n >> 0) & 31) as u8) + 97;
        assert(letters@ =~= decoded(n));
        Word { letters }
    }

    /// The code of the word, in specifications.
    pub open spec fn encode_spec(&self) -> int {
        word_code(self@)
    }

    /// Whether two words have the same letters.
    pub fn same(&self, other: &Word) -> (r: bool)
        ensures
            r == (self@ == other@),
    {
        let a = &self.letters;
        let b = &other.letters;
        let r = a[0] == b[0] && a[1] == b[1] && a[2] == b[2] && a[3] == b[3] && a[4] == b[4];
        assert(r ==> a@ =~= b@);
        r
    }
}

/// The letters still possible at one position of the answer.
#[derive(Debug)]
pub struct Letter {
    is: HashSet<u8>,
}

impl View for Letter {
    type V = Set<u8>;

    closed spec fn view(&self) -> Set<u8> {
        self.is@
    }
}

impl Letter {
    /// Rules out `c`; returns whether it was still possible.
    pub fn remove_choice(&mut self, c: u8) -> (r: bool)
        ensures
            r == old(self)@.contains(c),
            final(self)@ == old(self)@.remove(c),
    {
        self.is.remove(&c)
    }

    /// Leaves `c` as the only possible letter.
    pub fn set_choice(&mut self, c: u8)
        ensures
            final(self)@ == set![c],
    {
        let mut is: HashSet<u8> = HashSet::new();
        is.insert(c);
        assert(is@ =~= set![c]);
        self.is = is;
    }

    /// The letters still possible.
    pub fn choices(&self) -> (r: &HashSet<u8>)
        ensures
            r@ == self@,
    {
        &self.is
    }
}

impl Default for Letter {
    /// Every lowercase letter is possible.
    fn default() -> (r: Letter)
        ensures
            r@ == Set::new(|b: u8| is_lower(b)),
    {
        let mut is: HashSet<u8> = HashSet::new();
        let mut b: u8 = 97;
        while b <= 122
            invariant
                97 <= b <= 123,
                is@ == Set::new(|x: u8| 97 <= x < b),
            decreases 123 - b,
        {
            is.insert(b);
            assert(is@ =~= Set::new(|x: u8| 97 <= x < b + 1));
            b = b + 1;
        }
        assert(is@ =~= Set::new(|x: u8| is_lower(x)));
        Letter { is }
    }
}

} // verus!
