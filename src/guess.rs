use vstd::prelude::*;

use crate::response::{
    feedback, feedback_at, free_count, lemma_digit, lemma_response_code_injective,
    lemma_response_code_range, response_code, unmatched_in_answer, unmatched_in_guess, Response,
    ResponseType,
};
use crate::word::{is_word, lemma_code_injective, lemma_round_trip, word_code, Word};

verus! {

/// A guessed word together with the feedback it received.
pub struct Guess {
    pub word: Word,
    pub mask: Response,
}

/// The cache key of a candidate, a guessed word and a feedback, all as codes:
/// the candidate in bits 0 to 24, the guessed word in bits 25 to 49, the
/// feedback from bit 50 on.
pub open spec fn cache_key(candidate: int, guessed: int, response: int) -> int {
    candidate + guessed * 0x200_0000 + response * 0x4_0000_0000_0000
}

/// The cache key of the triple (candidate, guessed word, feedback).
pub open spec fn key_of(candidate: Seq<u8>, guessed: Seq<u8>, response: Seq<ResponseType>) -> int {
    cache_key(word_code(candidate), word_code(guessed), response_code(response))
}

/// A guess and a candidate word packed into one integer.
#[derive(Clone, Copy, Debug, PartialEq, Eq, Hash)]
pub struct CachedGuess(pub u64);

/// Distinct triples of candidate, guessed word and feedback have distinct keys.
pub proof fn lemma_cache_key_injective(
    c1: Seq<u8>,
    g1: Seq<u8>,
    r1: Seq<ResponseType>,
    c2: Seq<u8>,
    g2: Seq<u8>,
    r2: Seq<ResponseType>,
)
    requires
        is_word(c1),
        is_word(g1),
        is_word(c2),
        is_word(g2),
        r1.len() == 5,
        r2.len() == 5,
        key_of(c1, g1, r1) == key_of(c2, g2, r2),
    ensures
        c1 == c2,
        g1 == g2,
        r1 == r2,
{
    lemma_key_range(c1, g1, r1);
    lemma_key_range(c2, g2, r2);
    let (wc1, wg1, rc1) = (word_code(c1), word_code(g1), response_code(r1));
    let (wc2, wg2, rc2) = (word_code(c2), word_code(g2), response_code(r2));
    assert(wg1 * 0x200_0000 + rc1 * 0x4_0000_0000_0000 == 0x200_0000 * (wg1 + 0x200_0000 * rc1))
        by (nonlinear_arith);
    assert(wg2 * 0x200_0000 + rc2 * 0x4_0000_0000_0000 == 0x200_0000 * (wg2 + 0x200_0000 * rc2))
        by (nonlinear_arith);
    assert(wg1 + 0x200_0000 * rc1 >= 0) by (nonlinear_arith)
        requires
            wg1 >= 0,
            rc1 >= 0,
    ;
    lemma_digit(0x200_0000, wg1 + 0x200_0000 * rc1, wc1, wg2 + 0x200_0000 * rc2, wc2);
    lemma_digit(0x200_0000, rc1, wg1, rc2, wg2);
    lemma_code_injective(c1, c2);
    lemma_code_injective(g1, g2);
    lemma_response_code_injective(r1, r2);
}

/// The parts of a key lie in their bit ranges, and the key fits in 64 bits.
pub proof fn lemma_key_range(c: Seq<u8>, g: Seq<u8>, r: Seq<ResponseType>)
    requires
        is_word(c),
        is_word(g),
    ensures
        0 <= word_code(c) < 0x200_0000,
        0 <= word_code(g) < 0x200_0000,
        0 <= response_code(r) < 243,
        0 <= key_of(c, g, r) < 0x400_0000_0000_0000,
{
    lemma_round_trip(c);
    lemma_round_trip(g);
    lemma_response_code_range(r);
    let (wc, wg, rc) = (word_code(c), word_code(g), response_code(r));
    assert(0 <= wg * 0x200_0000 <= 0x1ff_ffff * 0x200_0000) by (nonlinear_arith)
        requires
            0 <= wg < 0x200_0000,
    ;
    assert(0 <= rc * 0x4_0000_0000_0000 <= 242 * 0x4_0000_0000_0000) by (nonlinear_arith)
        requires
            0 <= rc < 243,
    ;
}

impl CachedGuess {
    /// The key of a guess and a candidate word.
    pub fn from(value: (&Guess, &Word)) -> (r: CachedGuess)
        ensures
            r.0 == key_of(value.1@, value.0.word@, value.0.mask@),
    {
        let (g, w) = value;
        let c = w.encode();
        let gw = g.word.encode();
        let m = g.mask.code();
        proof {
            lemma_key_range(w@, g.word@, g.mask@);
        }
        let hi = gw << 25;
        let top = m << 50;
        assert(hi == gw * 0x200_0000) by (bit_vector)
            requires
                gw < 0x200_0000,
                hi == gw << 25,
        ;
        assert(top == m * 0x4_0000_0000_0000) by (bit_vector)
            requires
                m < 243,
                top == m << 50,
        ;
        let cached: u64 = c + hi + top;
        CachedGuess(cached)
    }
}

proof fn lemma_free_count_initial(a: Seq<u8>, g: Seq<u8>, used: Seq<bool>, n: int)
    requires
        0 <= n <= 5,
        used.len() == 5,
        a.len() == 5,
        g.len() == 5,
        forall|j: int| 0 <= j < 5 ==> used[j] == (a[j] == g[j]),
    ensures
        forall|x: u8| #[trigger] free_count(a, used, x, n) == unmatched_in_answer(g, a, x, n),
    decreases n,
{
    if n > 0 {
        lemma_free_count_initial(a, g, used, n - 1);
        assert forall|x: u8| #[trigger] free_count(a, used, x, n) == unmatched_in_answer(g, a, x, n) by {
            assert(free_count(a, used, x, n - 1) == unmatched_in_answer(g, a, x, n - 1));
        }
    }
}

impl Guess {
    /// Whether this guess could have received its feedback when `word` is the
    /// answer: the same as comparing the feedback of the guess against `word`
    /// with the mask, without working that feedback out in full.
    pub fn matches(&self, word: &Word) -> (r: bool)
        ensures
            r == (self.mask@ == feedback(self.word@, word@)),
    {
        let a = word.letters();
        let g = self.word.letters();
        let ghost fb = feedback(g@, a@);
        let mut used = [false; 5];
        for i in 0..5
            invariant
                a@ == word@,
                g@ == self.word@,
                fb == feedback(g@, a@),
                forall|j: int|
                    0 <= j < i ==> ((a@[j] == g@[j]) == (self.mask@[j] == ResponseType::Green)),
                forall|j: int| 0 <= j < 5 ==> #[trigger] used@[j] == (j < i && a@[j] == g@[j]),
        {
            if a[i] == g[i] {
                if self.mask.get(i) != ResponseType::Green {
                    assert(fb[i as int] == ResponseType::Green);
                    return false;
                }
                used[i] = true;
            } else if self.mask.get(i) == ResponseType::Green {
                assert(fb[i as int] != ResponseType::Green);
                return false;
            }
        }
        proof {
            lemma_free_count_initial(a@, g@, used@, 5);
        }
        for i in 0..5
            invariant
                a@ == word@,
                g@ == self.word@,
                is_word(a@),
                is_word(g@),
                fb == feedback(g@, a@),
                forall|j: int|
                    0 <= j < 5 ==> ((a@[j] == g@[j]) == (self.mask@[j] == ResponseType::Green)),
                forall|j: int| 0 <= j < i ==> self.mask@[j] == #[trigger] fb[j],
                forall|x: u8|
                    #[trigger] free_count(a@, used@, x, 5) == if unmatched_in_guess(
                        g@,
                        a@,
                        x,
                        i as int,
                    ) < unmatched_in_answer(g@, a@, x, 5) {
                        unmatched_in_answer(g@, a@, x, 5) - unmatched_in_guess(g@, a@, x, i as int)
                    } else {
                        0
                    },
        {
            let ghost old_used = used@;
            let ghost c = g@[i as int];
            assert(forall|x: u8|
                #[trigger] unmatched_in_guess(g@, a@, x, i + 1) == unmatched_in_guess(g@, a@, x, i as int)
                    + if g@[i as int] == x && g@[i as int] != a@[i as int] {
                    1nat
                } else {
                    0nat
                });
            if self.mask.get(i) != ResponseType::Green {
                proof {
                    crate::response::lemma_free_count_positive(a@, used@, c, 5);
                }
                let found = ResponseType::is_misplaced(g[i], word, &mut used);
                if found != (self.mask.get(i) == ResponseType::Yellow) {
                    assert(self.mask@[i as int] != fb[i as int]);
                    return false;
                }
                proof {
                    if found {
                        let k = choose|k: int|
                            0 <= k < 5 && a@[k] == c && !old_used[k] && used@ == old_used.update(k, true);
                        crate::response::lemma_free_count_update(a@, old_used, k, 5);
                    }
                }
            }
            assert(self.mask@[i as int] == fb[i as int]);
        }
        assert(self.mask@ =~= fb);
        true
    }
}

} // verus!
