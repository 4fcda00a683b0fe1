use vstd::prelude::*;

use crate::word::{is_lower, is_word, Word};

verus! {

/// How one guessed letter relates to the answer.
#[derive(Clone, Copy, Debug, PartialEq, Eq, Hash, Structural)]
pub enum ResponseType {
    /// The letter does not occur in the answer, or all its occurrences are accounted for.
    Gray,
    /// The letter occurs elsewhere in the answer.
    Yellow,
    /// The letter is at this position in the answer.
    Green,
}

/// The feedback on a guess: one `ResponseType` per position.
#[derive(Clone, Copy, Debug, PartialEq, Eq, Hash)]
pub struct Response(pub [ResponseType; 5]);

impl View for Response {
    type V = Seq<ResponseType>;

    open spec fn view(&self) -> Seq<ResponseType> {
        self.0@
    }
}

/// Positions before `n` where the answer holds `c` and the guess does not match the answer.
pub open spec fn unmatched_in_answer(guess: Seq<u8>, answer: Seq<u8>, c: u8, n: int) -> nat
    decreases n,
{
    if n <= 0 {
        0
    } else {
        unmatched_in_answer(guess, answer, c, n - 1) + if answer[n - 1] == c && guess[n - 1]
            != answer[n - 1] {
            1nat
        } else {
            0nat
        }
    }
}

/// Positions before `n` where the guess holds `c` and does not match the answer.
pub open spec fn unmatched_in_guess(guess: Seq<u8>, answer: Seq<u8>, c: u8, n: int) -> nat
    decreases n,
{
    if n <= 0 {
        0
    } else {
        unmatched_in_guess(guess, answer, c, n - 1) + if guess[n - 1] == c && guess[n - 1]
            != answer[n - 1] {
            1nat
        } else {
            0nat
        }
    }
}

/// The feedback at position `i`: green where the letters agree; otherwise yellow
/// while the answer still has an occurrence of the letter that neither a green
/// position nor an earlier yellow one has taken.
pub open spec fn feedback_at(guess: Seq<u8>, answer: Seq<u8>, i: int) -> ResponseType {
    if guess[i] == answer[i] {
        ResponseType::Green
    } else if unmatched_in_guess(guess, answer, guess[i], i) < unmatched_in_answer(
        guess,
        answer,
        guess[i],
        5,
    ) {
        ResponseType::Yellow
    } else {
        ResponseType::Gray
    }
}

/// The feedback that `guess` receives when `answer` is the hidden word.
pub open spec fn feedback(guess: Seq<u8>, answer: Seq<u8>) -> Seq<ResponseType> {
    Seq::new(5, |i: int| feedback_at(guess, answer, i))
}

/// The digit of one response type in a response code.
pub open spec fn type_digit(t: ResponseType) -> int {
    match t {
        ResponseType::Gray => 0,
        ResponseType::Yellow => 1,
        ResponseType::Green => 2,
    }
}

/// A response as a base-3 number, first position most significant.
pub open spec fn response_code(r: Seq<ResponseType>) -> int {
    ((((type_digit(r[0]) * 3 + type_digit(r[1])) * 3 + type_digit(r[2])) * 3 + type_digit(r[3]))
        * 3 + type_digit(r[4]))
}

/// Free positions before `n` that hold `c`.
pub open spec fn free_count(answer: Seq<u8>, used: Seq<bool>, c: u8, n: int) -> nat
    decreases n,
{
    if n <= 0 {
        0
    } else {
        free_count(answer, used, c, n - 1) + if answer[n - 1] == c && !used[n - 1] {
            1nat
        } else {
            0nat
        }
    }
}

/// Number of positions before `n` that hold `c`.
pub open spec fn letter_count(s: Seq<u8>, c: u8, n: int) -> nat
    decreases n,
{
    if n <= 0 {
        0
    } else {
        letter_count(s, c, n - 1) + if s[n - 1] == c {
            1nat
        } else {
            0nat
        }
    }
}

/// Positions before `n` where the guess holds `c` and the feedback is not gray.
pub open spec fn credited_count(guess: Seq<u8>, answer: Seq<u8>, c: u8, n: int) -> nat
    decreases n,
{
    if n <= 0 {
        0
    } else {
        credited_count(guess, answer, c, n - 1) + if guess[n - 1] == c && feedback_at(
            guess,
            answer,
            n - 1,
        ) != ResponseType::Gray {
            1nat
        } else {
            0nat
        }
    }
}

/// Positions before `n` where guess and answer both hold `c`.
pub open spec fn matched_count(guess: Seq<u8>, answer: Seq<u8>, c: u8, n: int) -> nat
    decreases n,
{
    if n <= 0 {
        0
    } else {
        matched_count(guess, answer, c, n - 1) + if guess[n - 1] == c && guess[n - 1] == answer[n
            - 1] {
            1nat
        } else {
            0nat
        }
    }
}

/// The smaller of two naturals.
pub open spec fn min_nat(a: nat, b: nat) -> nat {
    if a <= b {
        a
    } else {
        b
    }
}

pub(crate) proof fn lemma_digit(b: int, q1: int, r1: int, q2: int, r2: int)
    requires
        b > 0,
        0 <= r1 < b,
        0 <= r2 < b,
        b * q1 + r1 == b * q2 + r2,
    ensures
        q1 == q2,
        r1 == r2,
    decreases 0int,
{
    if q1 < q2 {
        assert(b * q1 + b <= b * q2) by (nonlinear_arith)
            requires
                q1 < q2,
                b > 0,
        ;
    } else if q2 < q1 {
        assert(b * q2 + b <= b * q1) by (nonlinear_arith)
            requires
                q2 < q1,
                b > 0,
        ;
    }
}

/// Two responses with the same code are the same response.
pub proof fn lemma_response_code_injective(r: Seq<ResponseType>, s: Seq<ResponseType>)
    requires
        r.len() == 5,
        s.len() == 5,
        response_code(r) == response_code(s),
    ensures
        r == s,
{
    let d = |t: ResponseType| type_digit(t);
    lemma_digit(
        3,
        (((d(r[0]) * 3 + d(r[1])) * 3 + d(r[2])) * 3 + d(r[3])),
        d(r[4]),
        (((d(s[0]) * 3 + d(s[1])) * 3 + d(s[2])) * 3 + d(s[3])),
        d(s[4]),
    );
    lemma_digit(3, ((d(r[0]) * 3 + d(r[1])) * 3 + d(r[2])), d(r[3]), ((d(s[0]) * 3 + d(s[1])) * 3
        + d(s[2])), d(s[3]));
    lemma_digit(3, (d(r[0]) * 3 + d(r[1])), d(r[2]), (d(s[0]) * 3 + d(s[1])), d(s[2]));
    lemma_digit(3, d(r[0]), d(r[1]), d(s[0]), d(s[1]));
    assert(r =~= s);
}

/// Codes of responses lie below 3 to the fifth.
pub proof fn lemma_response_code_range(r: Seq<ResponseType>)
    ensures
        0 <= response_code(r) < 243,
{
}

/// A word guessed against itself is green everywhere.
pub proof fn lemma_feedback_self(w: Seq<u8>)
    ensures
        feedback(w, w) == seq![ResponseType::Green; 5],
{
    assert(feedback(w, w) =~= seq![ResponseType::Green; 5]);
}

proof fn lemma_unmatched_in_answer_bound(g: Seq<u8>, a: Seq<u8>, c: u8, n: int)
    requires
        0 <= n,
    ensures
        unmatched_in_answer(g, a, c, n) <= n,
    decreases n,
{
    if n > 0 {
        lemma_unmatched_in_answer_bound(g, a, c, n - 1);
    }
}

proof fn lemma_unmatched_in_answer_step(g: Seq<u8>, a: Seq<u8>, n: int)
    requires
        0 <= n,
    ensures
        forall|c: u8|
            #[trigger] unmatched_in_answer(g, a, c, n + 1) == unmatched_in_answer(g, a, c, n) + if a[n]
                == c && g[n] != a[n] {
                1nat
            } else {
                0nat
            },
{
}

proof fn lemma_unmatched_in_guess_step(g: Seq<u8>, a: Seq<u8>, n: int)
    requires
        0 <= n,
    ensures
        forall|c: u8|
            #[trigger] unmatched_in_guess(g, a, c, n + 1) == unmatched_in_guess(g, a, c, n) + if g[n]
                == c && g[n] != a[n] {
                1nat
            } else {
                0nat
            },
{
}

pub(crate) proof fn lemma_free_count_update(answer: Seq<u8>, used: Seq<bool>, k: int, n: int)
    requires
        0 <= k < used.len(),
        n <= used.len(),
        !used[k],
    ensures
        forall|c: u8|
            #[trigger] free_count(answer, used.update(k, true), c, n) == free_count(answer, used, c, n)
                - if k < n && answer[k] == c {
                1int
            } else {
                0int
            },
    decreases n,
{
    if n > 0 {
        lemma_free_count_update(answer, used, k, n - 1);
        assert forall|c: u8|
            #[trigger] free_count(answer, used.update(k, true), c, n) == free_count(answer, used, c, n)
                - if k < n && answer[k] == c {
                1int
            } else {
                0int
            } by {
            assert(free_count(answer, used.update(k, true), c, n - 1) == free_count(answer, used, c, n - 1)
                - if k < n - 1 && answer[k] == c {
                1int
            } else {
                0int
            });
        }
    }
}

pub(crate) proof fn lemma_free_count_positive(answer: Seq<u8>, used: Seq<bool>, c: u8, n: int)
    requires
        0 <= n <= used.len(),
        n <= answer.len(),
    ensures
        free_count(answer, used, c, n) > 0 <==> exists|k: int|
            0 <= k < n && answer[k] == c && !used[k],
    decreases n,
{
    if n > 0 {
        lemma_free_count_positive(answer, used, c, n - 1);
        if answer[n - 1] == c && !used[n - 1] {
            assert(exists|k: int| 0 <= k < n && answer[k] == c && !used[k]);
        } else if free_count(answer, used, c, n) == 0 {
            assert forall|k: int| 0 <= k < n && answer[k] == c implies used[k] by {
                if k < n - 1 {
                    assert(!(0 <= k < n - 1 && answer[k] == c && !used[k]));
                }
            }
        }
    }
}

proof fn lemma_credited_parts(g: Seq<u8>, a: Seq<u8>, c: u8, n: int)
    requires
        0 <= n <= 5,
        g.len() == 5,
        a.len() == 5,
    ensures
        credited_count(g, a, c, n) == matched_count(g, a, c, n) + min_nat(
            unmatched_in_guess(g, a, c, n),
            unmatched_in_answer(g, a, c, 5),
        ),
        letter_count(g, c, n) == matched_count(g, a, c, n) + unmatched_in_guess(g, a, c, n),
        letter_count(a, c, n) == matched_count(g, a, c, n) + unmatched_in_answer(g, a, c, n),
    decreases n,
{
    if n > 0 {
        lemma_credited_parts(g, a, c, n - 1);
    }
}

/// No letter earns more green and yellow marks than the answer holds of it:
/// for each letter, the positions of the guess that hold it and are not gray
/// number exactly the smaller of its counts in the guess and in the answer.
pub proof fn lemma_credit_bounded(guess: Seq<u8>, answer: Seq<u8>, c: u8)
    requires
        is_word(guess),
        is_word(answer),
    ensures
        credited_count(guess, answer, c, 5) == min_nat(
            letter_count(guess, c, 5),
            letter_count(answer, c, 5),
        ),
        credited_count(guess, answer, c, 5) <= letter_count(answer, c, 5),
{
    lemma_credited_parts(guess, answer, c, 5);
}

impl ResponseType {
    /// Takes the first position of `answer` that holds `letter` and is not yet used:
    /// marks it used and returns true. Returns false, with `used` unchanged, where
    /// there is none.
    pub fn is_misplaced(letter: u8, answer: &Word, used: &mut [bool; 5]) -> (r: bool)
        ensures
            r == exists|k: int| 0 <= k < 5 && answer@[k] == letter && !old(used)@[k],
            r ==> exists|k: int|
                0 <= k < 5 && answer@[k] == letter && !old(used)@[k] && (forall|j: int|
                    0 <= j < k ==> !(answer@[j] == letter && !old(used)@[j]))
                    && final(used)@ == old(used)@.update(k, true),
            !r ==> final(used)@ == old(used)@,
    {
        let letters = answer.letters();
        for i in 0..5
            invariant
                letters@ == answer@,
                letters@.len() == 5,
                *used == *old(used),
                forall|j: int| 0 <= j < i ==> !(answer@[j] == letter && !old(used)@[j]),
        {
            if letters[i] == letter && !used[i] {
                used[i] = true;
                assert(used@ =~= old(used)@.update(i as int, true));
                return true;
            }
        }
        false
    }

    /// The response type that a choice of 1 (gray), 2 (yellow) or 3 (green) names.
    pub fn from_choice(n: usize) -> (r: Option<ResponseType>)
        ensures
            n == 1 ==> r == Some(ResponseType::Gray),
            n == 2 ==> r == Some(ResponseType::Yellow),
            n == 3 ==> r == Some(ResponseType::Green),
            !(1 <= n <= 3) ==> r is None,
    {
        if n == 1 {
            Some(ResponseType::Gray)
        } else if n == 2 {
            Some(ResponseType::Yellow)
        } else if n == 3 {
            Some(ResponseType::Green)
        } else {
            None
        }
    }
}

impl Response {
    /// Whether every position is green.
    pub fn is_correct(&self) -> (r: bool)
        ensures
            r == (self@ == seq![ResponseType::Green; 5]),
    {
        let r = self.0[0] == ResponseType::Green && self.0[1] == ResponseType::Green && self.0[2]
            == ResponseType::Green && self.0[3] == ResponseType::Green && self.0[4]
            == ResponseType::Green;
        assert(r ==> self@ =~= seq![ResponseType::Green; 5]);
        assert(self@ == seq![ResponseType::Green; 5] ==> self@[4] == ResponseType::Green);
        r
    }

    /// The response type at position `i`.
    pub fn get(&self, i: usize) -> (r: ResponseType)
        requires
            i < 5,
        ensures
            r == self@[i as int],
    {
        self.0[i]
    }

    /// The feedback that `guess` receives when `answer` is the hidden word.
    ///
    /// A first pass marks the matching positions green and counts, per letter,
    /// the answer's letters that are not matched. A second pass marks each other
    /// position yellow while its letter still has such a count left, taking one.
    pub fn from_answer(guess: &Word, answer: &Word) -> (r: Response)
        ensures
            r@ == feedback(guess@, answer@),
    {
        let g = guess.letters();
        let a = answer.letters();
        let mut c = [ResponseType::Gray; 5];
        let mut misplaced = [0u8; 26];
        for i in 0..5
            invariant
                g@ == guess@,
                a@ == answer@,
                is_word(g@),
                is_word(a@),
                forall|k: int|
                    0 <= k < 26 ==> #[trigger] misplaced@[k] == unmatched_in_answer(
                        g@,
                        a@,
                        (k + 97) as u8,
                        i as int,
                    ),
                forall|j: int|
                    0 <= j < 5 ==> #[trigger] c@[j] == if j < i && g@[j] == a@[j] {
                        ResponseType::Green
                    } else {
                        ResponseType::Gray
                    },
        {
            proof {
                lemma_unmatched_in_answer_step(g@, a@, i as int);
            }
            if a[i] == g[i] {
                c[i] = ResponseType::Green;
            } else {
                let k = (a[i] - 97) as usize;
                assert(is_lower(a@[i as int]));
                proof {
                    lemma_unmatched_in_answer_bound(g@, a@, (k + 97) as u8, i as int);
                }
                misplaced[k] = misplaced[k] + 1;
            }
            assert(forall|k: int|
                0 <= k < 26 ==> (#[trigger] misplaced@[k] == unmatched_in_answer(
                    g@,
                    a@,
                    (k + 97) as u8,
                    i + 1,
                ))) by {
                assert forall|k: int| 0 <= k < 26 implies (#[trigger] misplaced@[k]
                    == unmatched_in_answer(g@, a@, (k + 97) as u8, i + 1)) by {
                    assert(unmatched_in_answer(g@, a@, (k + 97) as u8, i + 1) == unmatched_in_answer(
                        g@,
                        a@,
                        (k + 97) as u8,
                        i as int,
                    ) + if a@[i as int] == (k + 97) as u8 && g@[i as int] != a@[i as int] {
                        1nat
                    } else {
                        0nat
                    });
                }
            }
        }
        for i in 0..5
            invariant
                g@ == guess@,
                a@ == answer@,
                is_word(g@),
                is_word(a@),
                forall|k: int|
                    0 <= k < 26 ==> #[trigger] misplaced@[k] == if unmatched_in_guess(
                        g@,
                        a@,
                        (k + 97) as u8,
                        i as int,
                    ) < unmatched_in_answer(g@, a@, (k + 97) as u8, 5) {
                        unmatched_in_answer(g@, a@, (k + 97) as u8, 5) - unmatched_in_guess(
                            g@,
                            a@,
                            (k + 97) as u8,
                            i as int,
                        )
                    } else {
                        0
                    },
                forall|j: int|
                    0 <= j < 5 ==> #[trigger] c@[j] == if j < i {
                        feedback_at(g@, a@, j)
                    } else if g@[j] == a@[j] {
                        ResponseType::Green
                    } else {
                        ResponseType::Gray
                    },
        {
            proof {
                lemma_unmatched_in_guess_step(g@, a@, i as int);
            }
            let k = (g[i] - 97) as usize;
            assert(is_lower(g@[i as int]));
            assert((k + 97) as u8 == g@[i as int]);
            if c[i] == ResponseType::Gray && misplaced[k] > 0 {
                c[i] = ResponseType::Yellow;
                misplaced[k] = misplaced[k] - 1;
            }
            assert forall|kk: int| 0 <= kk < 26 implies (#[trigger] misplaced@[kk] == if unmatched_in_guess(
                g@,
                a@,
                (kk + 97) as u8,
                i + 1,
            ) < unmatched_in_answer(g@, a@, (kk + 97) as u8, 5) {
                unmatched_in_answer(g@, a@, (kk + 97) as u8, 5) - unmatched_in_guess(
                    g@,
                    a@,
                    (kk + 97) as u8,
                    i + 1,
                )
            } else {
                0
            }) by {
                assert(unmatched_in_guess(g@, a@, (kk + 97) as u8, i + 1) == unmatched_in_guess(
                    g@,
                    a@,
                    (kk + 97) as u8,
                    i as int,
                ) + if g@[i as int] == (kk + 97) as u8 && g@[i as int] != a@[i as int] {
                    1nat
                } else {
                    0nat
                });
                if kk != k {
                    assert((kk + 97) as u8 != g@[i as int]);
                }
            }
        }
        let r = Response(c);
        assert(r@ =~= feedback(guess@, answer@));
        r
    }

    /// The feedback from the answer where it is known; `None` where it has to be
    /// asked for.
    pub fn prompt_or_answer(guess: &Word, correct: Option<&Word>) -> (r: Option<Response>)
        ensures
            correct is Some ==> r is Some && r->Some_0@ == feedback(guess@, correct->Some_0@),
            correct is None ==> r is None,
    {
        match correct {
            Some(answer) => Some(Self::from_answer(guess, answer)),
            None => None,
        }
    }

    /// The response's code: a base-3 number of gray 0, yellow 1 and green 2,
    /// first position most significant.
    pub fn code(&self) -> (r: u64)
        ensures
            r == response_code(self@),
            r < 243,
    {
        let mut n: u64 = 0;
        for i in 0..5
            invariant
                n < 243,
                n == if i == 0 {
                    0
                } else if i == 1 {
                    type_digit(self@[0])
                } else if i == 2 {
                    type_digit(self@[0]) * 3 + type_digit(self@[1])
                } else if i == 3 {
                    (type_digit(self@[0]) * 3 + type_digit(self@[1])) * 3 + type_digit(self@[2])
                } else if i == 4 {
                    ((type_digit(self@[0]) * 3 + type_digit(self@[1])) * 3 + type_digit(self@[2]))
                        * 3 + type_digit(self@[3])
                } else {
                    response_code(self@)
                },
                n < if i == 0 {
                    1int
                } else if i == 1 {
                    3
                } else if i == 2 {
                    9
                } else if i == 3 {
                    27
                } else if i == 4 {
                    81
                } else {
                    243
                },
        {
            let d: u64 = match self.0[i] {
                ResponseType::Gray => 0,
                ResponseType::Yellow => 1,
                ResponseType::Green => 2,
            };
            n = n * 3 + d;
        }
        n
    }
}

} // verus!
