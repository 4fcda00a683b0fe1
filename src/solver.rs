use std::collections::HashSet;

use rayon::iter::{IntoParallelRefIterator, ParallelIterator};
use vstd::prelude::*;

use crate::cache::MatchCache;
use crate::guess::Guess;
use crate::response::{feedback, Response, ResponseType};
use crate::word::{is_word, lemma_code_injective, lemma_round_trip, word_code, Word};

verus! {

broadcast use vstd::std_specs::hash::group_hash_axioms;

/// The number of rounds played before the solver gives up.
pub const MAX_ROUNDS: usize = 9;

/// Why no guess can be chosen.
#[derive(Clone, Copy, Debug, PartialEq, Eq, Structural)]
pub enum SolveError {
    /// No answer is left: the feedback so far contradicts every word.
    NoCandidatesRemaining,
}

/// The letters of each word.
pub open spec fn words(v: Seq<Word>) -> Seq<Seq<u8>> {
    v.map_values(|w: Word| w@)
}

/// Answers among the first `n` on which `g` receives the feedback `f`.
pub open spec fn cell_count(g: Seq<u8>, answers: Seq<Seq<u8>>, f: Seq<ResponseType>, n: int) -> nat
    decreases n,
{
    if n <= 0 {
        0
    } else {
        cell_count(g, answers, f, n - 1) + if feedback(g, answers[n - 1]) == f {
            1nat
        } else {
            0nat
        }
    }
}

/// The sum, over the first `n` answers, of the size of the cell of answers
/// that receive the same feedback from `g`.
pub open spec fn ambiguity(g: Seq<u8>, answers: Seq<Seq<u8>>, n: int) -> nat
    decreases n,
{
    if n <= 0 {
        0
    } else {
        ambiguity(g, answers, n - 1) + cell_count(
            g,
            answers,
            feedback(g, answers[n - 1]),
            answers.len() as int,
        )
    }
}

/// The score of guessing `g` in round `run`: its ambiguity over the answers,
/// less the round number where `g` is itself an answer. Lower is better.
pub open spec fn score(g: Seq<u8>, answers: Seq<Seq<u8>>, run: nat) -> int {
    let total = ambiguity(g, answers, answers.len() as int);
    if answers.contains(g) {
        total - run
    } else {
        total as int
    }
}

/// The words of `pool` that could be the answer after `g` received `m`.
pub open spec fn consistent_pool(pool: Seq<Word>, g: Seq<u8>, m: Seq<ResponseType>) -> Seq<Word> {
    pool.filter(|w: Word| feedback(g, w@) == m)
}

/// No two words of `s` have the same letters.
pub open spec fn distinct_words(s: Seq<Word>) -> bool {
    forall|i: int, j: int| 0 <= i < j < s.len() ==> s[i]@ != s[j]@
}

/// Filtering keeps words distinct.
pub proof fn lemma_filter_distinct(pool: Seq<Word>, g: Seq<u8>, m: Seq<ResponseType>)
    requires
        distinct_words(pool),
    ensures
        distinct_words(consistent_pool(pool, g, m)),
    decreases pool.len(),
{
    let pred = |w: Word| feedback(g, w@) == m;
    reveal(Seq::filter);
    if pool.len() > 0 {
        let rest = pool.drop_last();
        assert(distinct_words(rest));
        lemma_filter_distinct(rest, g, m);
        let fr = rest.filter(pred);
        assert(consistent_pool(rest, g, m) == fr);
        if pred(pool.last()) {
            assert forall|k: int| 0 <= k < fr.len() implies fr[k]@ != pool.last()@ by {
                rest.lemma_filter_contains_rev(pred, fr[k]);
                let t = choose|t: int| 0 <= t < rest.len() && rest[t] == fr[k];
                assert(pool[t] == rest[t]);
            }
            assert(pool.filter(pred) == fr.push(pool.last()));
        }
    }
}

/// Filtering two pools by the same feedback keeps every word of the first
/// that the second holds in the second.
pub proof fn lemma_filter_keeps_inclusion(
    answers: Seq<Word>,
    pool: Seq<Word>,
    g: Seq<u8>,
    m: Seq<ResponseType>,
)
    requires
        forall|i: int| 0 <= i < answers.len() ==> words(pool).contains(#[trigger] answers[i]@),
    ensures
        forall|i: int|
            0 <= i < consistent_pool(answers, g, m).len() ==> words(
                consistent_pool(pool, g, m),
            ).contains(#[trigger] consistent_pool(answers, g, m)[i]@),
{
    let pred = |w: Word| feedback(g, w@) == m;
    let fa = consistent_pool(answers, g, m);
    let fp = consistent_pool(pool, g, m);
    assert forall|i: int| 0 <= i < fa.len() implies words(fp).contains(#[trigger] fa[i]@) by {
        let x = fa[i];
        answers.lemma_filter_pred(pred, i);
        answers.lemma_filter_contains_rev(pred, x);
        let t = choose|t: int| 0 <= t < answers.len() && answers[t] == x;
        assert(words(pool).contains(answers[t]@));
        let p = choose|p: int| 0 <= p < words(pool).len() && words(pool)[p] == x@;
        assert(pool[p]@ == x@);
        pool.lemma_filter_contains(pred, p);
        let q = choose|q: int| 0 <= q < fp.len() && fp[q] == pool[p];
        assert(words(fp)[q] == x@);
    }
}

/// Filtering by observed feedback never adds a word, and keeps the answer
/// that gave the feedback.
pub proof fn lemma_filter_shrinks(
    pool: Seq<Word>,
    g: Seq<u8>,
    m: Seq<ResponseType>,
    answer: Word,
)
    ensures
        forall|w: Word| consistent_pool(pool, g, m).contains(w) ==> pool.contains(w),
        consistent_pool(pool, g, m).len() <= pool.len(),
        pool.contains(answer) && m == feedback(g, answer@) ==> consistent_pool(
            pool,
            g,
            m,
        ).contains(answer),
{
    let pred = |w: Word| feedback(g, w@) == m;
    assert forall|w: Word| consistent_pool(pool, g, m).contains(w) implies pool.contains(w) by {
        pool.lemma_filter_contains_rev(pred, w);
    }
    pool.lemma_filter_len(pred);
    if pool.contains(answer) && m == feedback(g, answer@) {
        let i = choose|i: int| 0 <= i < pool.len() && pool[i] == answer;
        pool.lemma_filter_contains(pred, i);
    }
}

proof fn lemma_push_contains(s: Seq<Seq<u8>>, v: Seq<u8>, x: Seq<u8>)
    ensures
        s.push(v).contains(x) <==> (s.contains(x) || x == v),
{
    if s.contains(x) {
        let k = choose|k: int| 0 <= k < s.len() && #[trigger] s[k] == x;
        assert(s.push(v)[k] == x);
    }
    if x == v {
        assert(s.push(v)[s.len() as int] == x);
    }
    if s.push(v).contains(x) && x != v {
        let k = choose|k: int| 0 <= k < s.push(v).len() && #[trigger] s.push(v)[k] == x;
        assert(s[k] == x);
    }
}

/// Whether `guess` could have received `response` when `answer` is the answer.
fn test_answer(guess: &Word, answer: &Word, response: Response, cache: Option<&MatchCache>) -> (r:
    bool)
    requires
        cache matches Some(c) ==> c.wf(),
    ensures
        r == (response@ == feedback(guess@, answer@)),
{
    let guess = Guess { word: *guess, mask: response };
    guess.matches_cached(answer, cache)
}

/// Relies on rayon's `par_iter().map().collect()` on a `Vec`: an indexed parallel
/// iterator collects each result at the index of its input.
#[verifier::external_body]
fn par_scores(pool: &Vec<Word>, answers: &Vec<Word>, run: usize, cache: Option<&MatchCache>) -> (r:
    Vec<i64>)
    requires
        answers@.len() <= 0xffff,
        run <= i64::MAX,
        cache matches Some(c) ==> c.wf(),
    ensures
        r@.len() == pool@.len(),
        forall|i: int|
            0 <= i < r@.len() ==> r@[i] == #[trigger] score(pool@[i]@, words(answers@), run as nat),
{
    pool.par_iter().map(|w| w.score_new(answers, &run, cache)).collect()
}

impl Word {
    /// The score of guessing this word in round `run_number` (lower is better):
    /// for each answer, the number of answers that receive the same feedback
    /// from this word, summed; less the round number where this word is
    /// itself an answer.
    pub fn score_new(&self, answers: &Vec<Word>, run_number: &usize, cache: Option<&MatchCache>) -> (r:
        i64)
        requires
            answers@.len() <= 0xffff,
            *run_number <= i64::MAX,
            cache matches Some(c) ==> c.wf(),
        ensures
            r == score(self@, words(answers@), *run_number as nat),
            ambiguity(self@, words(answers@), answers@.len() as int) <= answers@.len()
                * answers@.len(),
    {
        let ghost aw = words(answers@);
        let n = answers.len();
        let mut total: usize = 0;
        for i in 0..n
            invariant
                n == answers@.len(),
                n <= 0xffff,
                aw == words(answers@),
                cache matches Some(c) ==> c.wf(),
                total == ambiguity(self@, aw, i as int),
                total <= i * n,
        {
            let response = Response::from_answer(self, &answers[i]);
            let mut count: usize = 0;
            for j in 0..n
                invariant
                    n == answers@.len(),
                    aw == words(answers@),
                    i < aw.len(),
                    cache matches Some(c) ==> c.wf(),
                    response@ == feedback(self@, aw[i as int]),
                    count == cell_count(self@, aw, response@, j as int),
                    count <= j,
            {
                if test_answer(self, &answers[j], response, cache) {
                    count = count + 1;
                }
            }
            assert(count <= n);
            assert(total + count <= (i + 1) * n && total + count <= 0xfffe_0001) by (nonlinear_arith)
                requires
                    total <= i * n,
                    count <= n,
                    i < n,
                    n <= 0xffff,
            ;
            total = total + count;
        }
        let mut found = false;
        for j in 0..n
            invariant
                n == answers@.len(),
                aw == words(answers@),
                found == exists|jj: int| 0 <= jj < j && #[trigger] answers@[jj]@ == self@,
        {
            if answers[j].same(self) {
                found = true;
            }
        }
        proof {
            if found {
                let jj = choose|jj: int| 0 <= jj < n && #[trigger] answers@[jj]@ == self@;
                assert(aw[jj] == self@);
            }
            if aw.contains(self@) {
                let jj = choose|jj: int| 0 <= jj < aw.len() && #[trigger] aw[jj] == self@;
                assert(answers@[jj]@ == self@);
            }
        }
        assert(total <= 0xfffe_0001) by (nonlinear_arith)
            requires
                total <= n * n,
                n <= 0xffff,
        ;
        if found {
            total as i64 - *run_number as i64
        } else {
            total as i64
        }
    }
}

/// The best next guess from `pool` against the remaining `answers` in round
/// `round`: the only answer where one is left, otherwise the first word of
/// `pool` with the lowest score.
pub fn best_guess(
    pool: &Vec<Word>,
    answers: &Vec<Word>,
    round: usize,
    cache: Option<&MatchCache>,
) -> (r: Result<Word, SolveError>)
    requires
        answers@.len() <= 0xffff,
        round <= i64::MAX,
        cache matches Some(c) ==> c.wf(),
    ensures
        answers@.len() == 0 ==> r == Err::<Word, SolveError>(SolveError::NoCandidatesRemaining),
        answers@.len() == 1 ==> r == Ok::<Word, SolveError>(answers@[0]),
        answers@.len() >= 2 && pool@.len() == 0 ==> r == Err::<Word, SolveError>(
            SolveError::NoCandidatesRemaining,
        ),
        answers@.len() >= 2 && pool@.len() > 0 ==> exists|i: int|
            0 <= i < pool@.len() && r == Ok::<Word, SolveError>(pool@[i]) && (forall|j: int|
                0 <= j < pool@.len() ==> score(pool@[i]@, words(answers@), round as nat) <= score(
                    #[trigger] pool@[j]@,
                    words(answers@),
                    round as nat,
                )) && (forall|j: int|
                0 <= j < i ==> score(pool@[i]@, words(answers@), round as nat) < score(
                    #[trigger] pool@[j]@,
                    words(answers@),
                    round as nat,
                )),
{
    if answers.len() == 0 {
        return Err(SolveError::NoCandidatesRemaining);
    }
    if answers.len() == 1 {
        return Ok(answers[0]);
    }
    if pool.len() == 0 {
        return Err(SolveError::NoCandidatesRemaining);
    }
    let scores = par_scores(pool, answers, round, cache);
    let ghost aw = words(answers@);
    let mut best: usize = 0;
    for i in 1..pool.len()
        invariant
            scores@.len() == pool@.len(),
            pool@.len() > 0,
            aw == words(answers@),
            forall|k: int|
                0 <= k < scores@.len() ==> scores@[k] == #[trigger] score(pool@[k]@, aw, round as nat),
            best < i,
            forall|j: int| 0 <= j < i ==> scores@[best as int] <= #[trigger] scores@[j],
            forall|j: int| 0 <= j < best ==> scores@[best as int] < #[trigger] scores@[j],
    {
        if scores[i] < scores[best] {
            best = i;
        }
    }
    Ok(pool[best])
}

/// The guess for round `round`: the opening word in the first round where
/// one is given, otherwise the best guess.
pub fn next_guess(
    pool: &Vec<Word>,
    answers: &Vec<Word>,
    round: usize,
    opening: Option<&Word>,
    cache: Option<&MatchCache>,
) -> (r: Result<Word, SolveError>)
    requires
        answers@.len() <= 0xffff,
        round <= i64::MAX,
        cache matches Some(c) ==> c.wf(),
    ensures
        round == 1 && opening is Some ==> r == Ok::<Word, SolveError>(*opening->Some_0),
        !(round == 1 && opening is Some) && answers@.len() == 0 ==> r == Err::<Word, SolveError>(
            SolveError::NoCandidatesRemaining,
        ),
        !(round == 1 && opening is Some) && answers@.len() == 1 ==> r == Ok::<Word, SolveError>(
            answers@[0],
        ),
        !(round == 1 && opening is Some) && answers@.len() >= 2 && pool@.len() == 0 ==> r == Err::<
            Word,
            SolveError,
        >(SolveError::NoCandidatesRemaining),
        !(round == 1 && opening is Some) && answers@.len() >= 2 && pool@.len() > 0 ==> exists|i: int|
            0 <= i < pool@.len() && r == Ok::<Word, SolveError>(pool@[i]) && (forall|j: int|
                0 <= j < pool@.len() ==> score(pool@[i]@, words(answers@), round as nat) <= score(
                    #[trigger] pool@[j]@,
                    words(answers@),
                    round as nat,
                )) && (forall|j: int|
                0 <= j < i ==> score(pool@[i]@, words(answers@), round as nat) < score(
                    #[trigger] pool@[j]@,
                    words(answers@),
                    round as nat,
                )),
{
    match opening {
        Some(w) if round == 1 => Ok(*w),
        _ => best_guess(pool, answers, round, cache),
    }
}

/// The words of `pool` that could still be the answer after `guess`.
pub fn filter_pool(pool: &Vec<Word>, guess: &Guess, cache: Option<&MatchCache>) -> (r: Vec<Word>)
    requires
        cache matches Some(c) ==> c.wf(),
    ensures
        r@ == consistent_pool(pool@, guess.word@, guess.mask@),
{
    let ghost pred = |w: Word| feedback(guess.word@, w@) == guess.mask@;
    let mut r: Vec<Word> = Vec::new();
    for i in 0..pool.len()
        invariant
            cache matches Some(c) ==> c.wf(),
            pred == (|w: Word| feedback(guess.word@, w@) == guess.mask@),
            r@ == pool@.take(i as int).filter(pred),
    {
        proof {
            assert(pool@.take(i + 1).drop_last() =~= pool@.take(i as int));
            reveal(Seq::filter);
        }
        if guess.matches_cached(&pool[i], cache) {
            r.push(pool[i]);
        }
    }
    assert(pool@.take(pool@.len() as int) =~= pool@);
    r
}

/// Each word of `r` has its code in `seen`, and each code in `seen` is that
/// of a word of `r`; no two words of `r` are equal.
pub open spec fn distinct_with_codes(r: Seq<Word>, seen: Set<u64>) -> bool {
    &&& forall|i: int| 0 <= i < r.len() ==> is_word(#[trigger] r[i]@)
    &&& forall|i: int, j: int| 0 <= i < j < r.len() ==> r[i]@ != r[j]@
    &&& forall|x: u64|
        #[trigger] seen.contains(x) <==> exists|i: int|
            0 <= i < r.len() && x == word_code(#[trigger] r[i]@)
}

/// Appends `w` to `r` unless a word with the same letters is already there.
fn push_new(w: Word, r: &mut Vec<Word>, seen: &mut HashSet<u64>)
    requires
        distinct_with_codes(old(r)@, old(seen)@),
    ensures
        distinct_with_codes(final(r)@, final(seen)@),
        forall|x: Seq<u8>|
            words(final(r)@).contains(x) <==> (words(old(r)@).contains(x) || x == w@),
{
    let code = w.encode();
    let ghost old_r = r@;
    proof {
        lemma_round_trip(w@);
    }
    if !seen.contains(&code) {
        seen.insert(code);
        r.push(w);
        proof {
            assert forall|i: int| 0 <= i < old_r.len() implies old_r[i]@ != w@ by {
                if old_r[i]@ == w@ {
                    assert(old(seen)@.contains(word_code(old_r[i]@) as u64));
                }
            }
            assert forall|x: u64| #[trigger] seen@.contains(x) <==> exists|i: int|
                0 <= i < r@.len() && x == word_code(#[trigger] r@[i]@) by {
                if x == code {
                    assert(x == word_code(r@[old_r.len() as int]@));
                } else if seen@.contains(x) {
                    let i = choose|i: int| 0 <= i < old_r.len() && x == word_code(#[trigger] old_r[i]@);
                    assert(r@[i] == old_r[i]);
                } else if exists|i: int| 0 <= i < r@.len() && x == word_code(#[trigger] r@[i]@) {
                    let i = choose|i: int| 0 <= i < r@.len() && x == word_code(#[trigger] r@[i]@);
                    assert(i < old_r.len());
                    assert(r@[i] == old_r[i]);
                }
            }
            assert(words(r@) =~= words(old_r).push(w@));
        }
    } else {
        proof {
            let i = choose|i: int| 0 <= i < r@.len() && code == word_code(#[trigger] r@[i]@);
            lemma_code_injective(r@[i]@, w@);
            assert(words(r@)[i] == w@);
        }
    }
    proof {
        assert forall|x: Seq<u8>|
            words(r@).contains(x) <==> (words(old_r).contains(x) || x == w@) by {
            lemma_push_contains(words(old_r), w@, x);
        }
    }
}

/// The words of `first` and of `second`, each once.
pub fn merge_pools(first: &Vec<Word>, second: &Vec<Word>) -> (r: Vec<Word>)
    ensures
        forall|i: int, j: int| 0 <= i < j < r@.len() ==> r@[i]@ != r@[j]@,
        forall|w: Seq<u8>|
            words(r@).contains(w) <==> (words(first@).contains(w) || words(second@).contains(w)),
{
    let mut seen: HashSet<u64> = HashSet::new();
    let mut r: Vec<Word> = Vec::new();
    assert(seen@ =~= Set::<u64>::empty());
    for t in 0..first.len()
        invariant
            distinct_with_codes(r@, seen@),
            forall|w: Seq<u8>| words(r@).contains(w) <==> words(first@.take(t as int)).contains(w),
    {
        push_new(first[t], &mut r, &mut seen);
        proof {
            assert(first@.take(t + 1) =~= first@.take(t as int).push(first@[t as int]));
            assert(words(first@.take(t + 1)) =~= words(first@.take(t as int)).push(first@[t as int]@));
            assert forall|w: Seq<u8>| words(r@).contains(w) <==> words(first@.take(t + 1)).contains(w) by {
                lemma_push_contains(words(first@.take(t as int)), first@[t as int]@, w);
            }
        }
    }
    assert(first@.take(first@.len() as int) =~= first@);
    for t in 0..second.len()
        invariant
            distinct_with_codes(r@, seen@),
            forall|w: Seq<u8>|
                words(r@).contains(w) <==> (words(first@).contains(w) || words(
                    second@.take(t as int),
                ).contains(w)),
    {
        push_new(second[t], &mut r, &mut seen);
        proof {
            assert(second@.take(t + 1) =~= second@.take(t as int).push(second@[t as int]));
            assert(words(second@.take(t + 1)) =~= words(second@.take(t as int)).push(
                second@[t as int]@,
            ));
            assert forall|w: Seq<u8>|
                words(r@).contains(w) <==> (words(first@).contains(w) || words(
                    second@.take(t + 1),
                ).contains(w)) by {
                lemma_push_contains(words(second@.take(t as int)), second@[t as int]@, w);
            }
        }
    }
    assert(second@.take(second@.len() as int) =~= second@);
    r
}

/// What follows the feedback of a round.
#[derive(Clone, Copy, Debug, PartialEq, Eq, Structural)]
pub enum Step {
    /// The guess was the answer.
    Solved,
    /// The pools were narrowed; play the next round.
    Continue,
    /// The pools were narrowed, but the last round has been played.
    OutOfRounds,
}

/// One puzzle in progress: the words that may be guessed, the words that may
/// still be the answer, and the round being played, counted from 1.
pub struct Solver {
    pub pool: Vec<Word>,
    pub answers: Vec<Word>,
    pub round: usize,
}

impl Solver {
    /// Both pools hold distinct words, and every answer is in the pool.
    pub open spec fn wf(&self) -> bool {
        &&& distinct_words(self.pool@)
        &&& distinct_words(self.answers@)
        &&& forall|i: int|
            0 <= i < self.answers@.len() ==> words(self.pool@).contains(
                #[trigger] self.answers@[i]@,
            )
    }

    /// A puzzle at its first round.
    pub fn new(pool: Vec<Word>, answers: Vec<Word>) -> (r: Solver)
        requires
            distinct_words(pool@),
            distinct_words(answers@),
            forall|i: int| 0 <= i < answers@.len() ==> words(pool@).contains(#[trigger] answers@[i]@),
        ensures
            r.wf(),
            r.pool@ == pool@,
            r.answers@ == answers@,
            r.round == 1,
    {
        Solver { pool, answers, round: 1 }
    }

    /// A puzzle at its first round over word lists that may repeat words:
    /// the answers are those of `answers`, and the pool holds the words of
    /// `ok` and of `answers`, each once.
    pub fn from_word_lists(ok: &Vec<Word>, answers: &Vec<Word>) -> (r: Solver)
        ensures
            r.wf(),
            r.round == 1,
            forall|w: Seq<u8>| words(r.answers@).contains(w) <==> words(answers@).contains(w),
            forall|w: Seq<u8>|
                words(r.pool@).contains(w) <==> (words(ok@).contains(w) || words(
                    answers@,
                ).contains(w)),
    {
        let a = merge_pools(answers, &Vec::new());
        let p = merge_pools(ok, &a);
        proof {
            assert forall|w: Seq<u8>| !words(Seq::<Word>::empty()).contains(w) by {}
            assert forall|i: int| 0 <= i < a@.len() implies words(p@).contains(#[trigger] a@[i]@) by {
                assert(words(a@)[i] == a@[i]@);
            }
        }
        Solver::new(p, a)
    }

    /// Takes in the feedback on `guess` for this round. Where the guess was
    /// the answer the puzzle is solved and nothing changes. Otherwise both
    /// pools keep only the words that would have given this feedback, and the
    /// round advances unless it was the last.
    pub fn observe(&mut self, guess: &Word, response: Response, cache: Option<&MatchCache>) -> (r:
        Step)
        requires
            old(self).wf(),
            cache matches Some(c) ==> c.wf(),
        ensures
            final(self).wf(),
            response@ == seq![ResponseType::Green; 5] ==> r == Step::Solved && final(self).pool@
                == old(self).pool@ && final(self).answers@ == old(self).answers@ && final(self).round
                == old(self).round,
            response@ != seq![ResponseType::Green; 5] ==> {
                &&& final(self).pool@ == consistent_pool(old(self).pool@, guess@, response@)
                &&& final(self).answers@ == consistent_pool(old(self).answers@, guess@, response@)
                &&& old(self).round >= MAX_ROUNDS ==> r == Step::OutOfRounds && final(self).round
                    == old(self).round
                &&& old(self).round < MAX_ROUNDS ==> r == Step::Continue && final(self).round
                    == old(self).round + 1
            },
    {
        if response.is_correct() {
            return Step::Solved;
        }
        let g = Guess { word: *guess, mask: response };
        proof {
            lemma_filter_distinct(self.answers@, guess@, response@);
            lemma_filter_distinct(self.pool@, guess@, response@);
            lemma_filter_keeps_inclusion(self.answers@, self.pool@, guess@, response@);
        }
        self.answers = filter_pool(&self.answers, &g, cache);
        self.pool = filter_pool(&self.pool, &g, cache);
        if self.round >= MAX_ROUNDS {
            Step::OutOfRounds
        } else {
            self.round = self.round + 1;
            Step::Continue
        }
    }
}

} // verus!
