use std::collections::HashSet;

use rayon::iter::{IntoParallelRefIterator, ParallelIterator};
use vstd::prelude::*;

use crate::guess::{key_of, lemma_cache_key_injective, lemma_key_range, CachedGuess, Guess};
use crate::response::{feedback, Response, ResponseType};
use crate::word::{
    decoded, is_code, is_word, lemma_code_injective, lemma_code_round_trip, lemma_round_trip, word_code,
    Word,
};

verus! {

broadcast use vstd::std_specs::hash::group_hash_axioms;

/// The key of the guessed word and candidate that two codes name, with the
/// feedback that the guess receives against the candidate.
pub open spec fn pair_key(guessed: u64, candidate: u64) -> u64 {
    key_of(decoded(candidate), decoded(guessed), feedback(decoded(guessed), decoded(candidate))) as u64
}

/// The keys that a guessed word gives against each word of a pool, in order.
pub open spec fn guess_keys(guessed: Seq<u8>, pool: Seq<Word>) -> Seq<u64> {
    Seq::new(pool.len(), |j: int| key_of(pool[j]@, guessed, feedback(guessed, pool[j]@)) as u64)
}

/// The keys that building over `answers` and `pool` gives: one for each
/// guessed word of `answers` and candidate of `pool`, with the feedback the
/// guess receives against the candidate.
pub open spec fn expected_keys(answers: Seq<Word>, pool: Seq<Word>) -> Set<u64> {
    Set::new(
        |k: u64|
            exists|i: int, j: int|
                0 <= i < answers.len() && 0 <= j < pool.len() && k == #[trigger] guess_keys(
                    answers[i]@,
                    pool,
                )[j],
    )
}

/// Keys of the consistent (guessed word, feedback, candidate) triples over a
/// domain of guessed words and candidates, with the domain itself.
pub struct MatchCache {
    keys: HashSet<u64>,
    key_list: Vec<u64>,
    guesses: HashSet<u64>,
    candidates: HashSet<u64>,
}

impl View for MatchCache {
    type V = Set<u64>;

    closed spec fn view(&self) -> Set<u64> {
        self.keys@
    }
}

/// Relies on rayon's `par_iter().map().collect()` on a `Vec`: an indexed parallel
/// iterator collects each result at the index of its input.
#[verifier::external_body]
fn par_guess_keys(answers: &Vec<Word>, pool: &Vec<Word>) -> (r: Vec<Vec<u64>>)
    ensures
        r@.len() == answers@.len(),
        forall|i: int| 0 <= i < r@.len() ==> #[trigger] r@[i]@ == guess_keys(answers@[i]@, pool@),
{
    answers.par_iter().map(|a| MatchCache::keys_for_guess(a, pool)).collect()
}

impl MatchCache {
    /// Both codes name words, and every triple over the domain has its key
    /// in the cache exactly when it is consistent.
    pub closed spec fn wf(&self) -> bool {
        &&& self.key_list@.to_set() == self.keys@
        &&& self.key_list@.no_duplicates()
        &&& forall|x: u64| #[trigger] self.guesses@.contains(x) ==> is_code(x)
        &&& forall|x: u64| #[trigger] self.candidates@.contains(x) ==> is_code(x)
        &&& forall|k: u64|
            #[trigger] self.keys@.contains(k) ==> exists|gc: u64, cc: u64|
                self.guesses@.contains(gc) && self.candidates@.contains(cc) && k == pair_key(gc, cc)
        &&& forall|gc: u64, cc: u64|
            self.guesses@.contains(gc) && self.candidates@.contains(cc) ==> self.keys@.contains(
                #[trigger] pair_key(gc, cc),
            )
    }

    /// The guessed word lies in the cache's domain.
    pub closed spec fn covers_guess(&self, g: Seq<u8>) -> bool {
        self.guesses@.contains(word_code(g) as u64)
    }

    /// The candidate lies in the cache's domain.
    pub closed spec fn covers_candidate(&self, c: Seq<u8>) -> bool {
        self.candidates@.contains(word_code(c) as u64)
    }

    /// The keys of `guess` against each word of `pool`, in order.
    pub fn keys_for_guess(guess: &Word, pool: &Vec<Word>) -> (r: Vec<u64>)
        ensures
            r@ == guess_keys(guess@, pool@),
    {
        let mut r: Vec<u64> = Vec::new();
        for j in 0..pool.len()
            invariant
                r@.len() == j,
                forall|jj: int| 0 <= jj < j ==> r@[jj] == #[trigger] guess_keys(guess@, pool@)[jj],
        {
            let fb = Response::from_answer(guess, &pool[j]);
            let g = Guess { word: *guess, mask: fb };
            let key = CachedGuess::from((&g, &pool[j]));
            r.push(key.0);
        }
        assert(r@ =~= guess_keys(guess@, pool@));
        r
    }

    /// Builds the cache over the guessed words `answers` and the candidates
    /// `pool`: for each pair, the key of the one feedback it is consistent with.
    pub fn build(answers: &Vec<Word>, pool: &Vec<Word>) -> (r: MatchCache)
        ensures
            r.wf(),
            r@ == expected_keys(answers@, pool@),
            r@.len() <= answers@.len() * pool@.len(),
            forall|i: int| 0 <= i < answers@.len() ==> r.covers_guess(#[trigger] answers@[i]@),
            forall|j: int| 0 <= j < pool@.len() ==> r.covers_candidate(#[trigger] pool@[j]@),
            forall|g: Seq<u8>|
                is_word(g) && r.covers_guess(g) ==> exists|i: int|
                    0 <= i < answers@.len() && #[trigger] answers@[i]@ == g,
            forall|c: Seq<u8>|
                is_word(c) && r.covers_candidate(c) ==> exists|j: int|
                    0 <= j < pool@.len() && #[trigger] pool@[j]@ == c,
    {
        let per_guess = par_guess_keys(answers, pool);
        let mut candidates: HashSet<u64> = HashSet::new();
        for j in 0..pool.len()
            invariant
                forall|jj: int| 0 <= jj < j ==> is_word(#[trigger] pool@[jj]@),
                forall|x: u64|
                    #[trigger] candidates@.contains(x) <==> exists|jj: int|
                        0 <= jj < j && x == word_code(#[trigger] pool@[jj]@),
        {
            let c = pool[j].encode();
            candidates.insert(c);
            assert forall|x: u64| #[trigger] candidates@.contains(x) <==> exists|jj: int|
                0 <= jj < j + 1 && x == word_code(#[trigger] pool@[jj]@) by {
                if x == c {
                    assert(x == word_code(pool@[j as int]@));
                }
            }
        }
        let mut keys: HashSet<u64> = HashSet::new();
        let mut key_list: Vec<u64> = Vec::new();
        let mut guesses: HashSet<u64> = HashSet::new();
        for i in 0..answers.len()
            invariant
                per_guess@.len() == answers@.len(),
                forall|ii: int|
                    0 <= ii < per_guess@.len() ==> #[trigger] per_guess@[ii]@ == guess_keys(
                        answers@[ii]@,
                        pool@,
                    ),
                forall|jj: int| 0 <= jj < pool@.len() ==> is_word(#[trigger] pool@[jj]@),
                forall|x: u64|
                    #[trigger] candidates@.contains(x) <==> exists|jj: int|
                        0 <= jj < pool@.len() && x == word_code(#[trigger] pool@[jj]@),
                forall|ii: int| 0 <= ii < i ==> is_word(#[trigger] answers@[ii]@),
                key_list@.to_set() == keys@,
                key_list@.no_duplicates(),
                key_list@.len() <= i * pool@.len(),
                forall|x: u64|
                    #[trigger] guesses@.contains(x) <==> exists|ii: int|
                        0 <= ii < i && x == word_code(#[trigger] answers@[ii]@),
                forall|k: u64|
                    #[trigger] keys@.contains(k) ==> exists|gc: u64, cc: u64|
                        guesses@.contains(gc) && candidates@.contains(cc) && k == pair_key(gc, cc),
                forall|gc: u64, cc: u64|
                    guesses@.contains(gc) && candidates@.contains(cc) ==> keys@.contains(
                        #[trigger] pair_key(gc, cc),
                    ),
        {
            let gc = answers[i].encode();
            let row = &per_guess[i];
            assert(row@ == guess_keys(answers@[i as int]@, pool@));
            for j in 0..row.len()
                invariant
                    i < answers@.len(),
                    row@ == guess_keys(answers@[i as int]@, pool@),
                    is_word(answers@[i as int]@),
                    gc == word_code(answers@[i as int]@),
                    key_list@.to_set() == keys@,
                    key_list@.no_duplicates(),
                    key_list@.len() <= i * pool@.len() + j,
                    row@.len() == pool@.len(),
                    forall|jj: int| 0 <= jj < pool@.len() ==> is_word(#[trigger] pool@[jj]@),
                    forall|x: u64|
                        #[trigger] candidates@.contains(x) <==> exists|jj: int|
                            0 <= jj < pool@.len() && x == word_code(#[trigger] pool@[jj]@),
                    forall|k: u64|
                        #[trigger] keys@.contains(k) ==> (exists|gc: u64, cc: u64|
                            guesses@.contains(gc) && candidates@.contains(cc) && k == pair_key(
                                gc,
                                cc,
                            )) || (exists|cc: u64|
                            candidates@.contains(cc) && k == pair_key(gc, cc)),
                    forall|gc: u64, cc: u64|
                        guesses@.contains(gc) && candidates@.contains(cc) ==> keys@.contains(
                            #[trigger] pair_key(gc, cc),
                        ),
                    forall|jj: int|
                        0 <= jj < j ==> keys@.contains(
                            #[trigger] pair_key(gc, word_code(pool@[jj]@) as u64),
                        ),
            {
                proof {
                    let c = pool@[j as int]@;
                    let g = answers@[i as int]@;
                    lemma_round_trip(c);
                    lemma_round_trip(g);
                    assert(candidates@.contains(word_code(c) as u64));
                    assert(row@[j as int] == pair_key(gc, word_code(c) as u64));
                }
                let ghost old_list = key_list@;
                if keys.insert(row[j]) {
                    key_list.push(row[j]);
                    proof {
                        lemma_push_to_set(old_list, row@[j as int]);
                        assert(!old_list.contains(row@[j as int])) by {
                            if old_list.contains(row@[j as int]) {
                                assert(old_list.to_set().contains(row@[j as int]));
                            }
                        }
                        lemma_push_no_duplicates(old_list, row@[j as int]);
                    }
                } else {
                    assert(keys@ =~= old_list.to_set());
                }
            }
            assert(key_list@.len() <= (i + 1) * pool@.len()) by (nonlinear_arith)
                requires
                    key_list@.len() <= i * pool@.len() + pool@.len(),
            ;
            guesses.insert(gc);
            proof {
                lemma_round_trip(answers@[i as int]@);
                assert forall|x: u64| #[trigger] guesses@.contains(x) <==> exists|ii: int|
                    0 <= ii < i + 1 && x == word_code(#[trigger] answers@[ii]@) by {
                    if x == gc {
                        assert(x == word_code(answers@[i as int]@));
                    }
                }
                assert forall|gc2: u64, cc: u64|
                    guesses@.contains(gc2) && candidates@.contains(cc) implies keys@.contains(
                    #[trigger] pair_key(gc2, cc),
                ) by {
                    if gc2 == gc {
                        let jj = choose|jj: int|
                            0 <= jj < pool@.len() && cc == word_code(#[trigger] pool@[jj]@);
                        assert(keys@.contains(pair_key(gc, word_code(pool@[jj]@) as u64)));
                    }
                }
            }
        }
        let r = MatchCache { keys, key_list, guesses, candidates };
        proof {
            assert forall|x: u64| #[trigger] r.guesses@.contains(x) implies is_code(x) by {
                let ii = choose|ii: int|
                    0 <= ii < answers@.len() && x == word_code(#[trigger] answers@[ii]@);
                lemma_round_trip(answers@[ii]@);
            }
            assert forall|x: u64| #[trigger] r.candidates@.contains(x) implies is_code(x) by {
                let jj = choose|jj: int|
                    0 <= jj < pool@.len() && x == word_code(#[trigger] pool@[jj]@);
                lemma_round_trip(pool@[jj]@);
            }
            assert forall|i: int| 0 <= i < answers@.len() implies r.covers_guess(
                #[trigger] answers@[i]@,
            ) by {
                assert(r.guesses@.contains(word_code(answers@[i]@) as u64)) by {
                    lemma_round_trip(answers@[i]@);
                }
            }
            assert forall|j: int| 0 <= j < pool@.len() implies r.covers_candidate(
                #[trigger] pool@[j]@,
            ) by {
                lemma_round_trip(pool@[j]@);
            }
            assert forall|g: Seq<u8>| is_word(g) && r.covers_guess(g) implies exists|i: int|
                0 <= i < answers@.len() && #[trigger] answers@[i]@ == g by {
                lemma_round_trip(g);
                let ii = choose|ii: int|
                    0 <= ii < answers@.len() && word_code(g) as u64 == word_code(
                        #[trigger] answers@[ii]@,
                    );
                lemma_round_trip(answers@[ii]@);
                lemma_code_injective(g, answers@[ii]@);
            }
            assert forall|c: Seq<u8>| is_word(c) && r.covers_candidate(c) implies exists|j: int|
                0 <= j < pool@.len() && #[trigger] pool@[j]@ == c by {
                lemma_round_trip(c);
                let jj = choose|jj: int|
                    0 <= jj < pool@.len() && word_code(c) as u64 == word_code(#[trigger] pool@[jj]@);
                lemma_round_trip(pool@[jj]@);
                lemma_code_injective(c, pool@[jj]@);
            }
            assert forall|k: u64| r@.contains(k) <==> expected_keys(answers@, pool@).contains(k) by {
                if r@.contains(k) {
                    let (gc, cc) = choose|gc: u64, cc: u64|
                        r.guesses@.contains(gc) && r.candidates@.contains(cc) && k == pair_key(gc, cc);
                    let i = choose|i: int|
                        0 <= i < answers@.len() && gc == word_code(#[trigger] answers@[i]@);
                    let j = choose|j: int| 0 <= j < pool@.len() && cc == word_code(#[trigger] pool@[j]@);
                    lemma_round_trip(answers@[i]@);
                    lemma_round_trip(pool@[j]@);
                    assert(k == guess_keys(answers@[i]@, pool@)[j]);
                }
                if expected_keys(answers@, pool@).contains(k) {
                    let (i, j) = choose|i: int, j: int|
                        0 <= i < answers@.len() && 0 <= j < pool@.len() && k == #[trigger] guess_keys(
                            answers@[i]@,
                            pool@,
                        )[j];
                    lemma_round_trip(answers@[i]@);
                    lemma_round_trip(pool@[j]@);
                    let gc = word_code(answers@[i]@) as u64;
                    let cc = word_code(pool@[j]@) as u64;
                    assert(r.guesses@.contains(gc));
                    assert(r.candidates@.contains(cc));
                    assert(k == pair_key(gc, cc));
                }
            }
            assert(r@ =~= expected_keys(answers@, pool@));
            r.key_list@.unique_seq_to_set();
        }
        r
    }

    /// Checks stored keys against the cache built over `answers` and `pool`,
    /// and returns that cache where they are exactly its keys.
    pub fn from_keys(keys: &Vec<u64>, answers: &Vec<Word>, pool: &Vec<Word>) -> (r: Option<
        MatchCache,
    >)
        ensures
            r is Some <==> keys@.to_set() == expected_keys(answers@, pool@),
            r matches Some(c) ==> {
                &&& c.wf()
                &&& c@ == keys@.to_set()
                &&& forall|i: int|
                    0 <= i < answers@.len() ==> c.covers_guess(#[trigger] answers@[i]@)
                &&& forall|j: int| 0 <= j < pool@.len() ==> c.covers_candidate(#[trigger] pool@[j]@)
            },
    {
        let built = MatchCache::build(answers, pool);
        let mut loaded: HashSet<u64> = HashSet::new();
        for t in 0..keys.len()
            invariant
                built@ == expected_keys(answers@, pool@),
                built.wf(),
                loaded@ == keys@.take(t as int).to_set(),
                forall|k: u64| loaded@.contains(k) ==> built@.contains(k),
        {
            let k = keys[t];
            if !built.keys.contains(&k) {
                assert(keys@.to_set().contains(k)) by {
                    assert(keys@[t as int] == k);
                }
                return None;
            }
            loaded.insert(k);
            proof {
                assert(keys@.take(t + 1) =~= keys@.take(t as int).push(k));
                lemma_push_to_set(keys@.take(t as int), k);
            }
        }
        assert(keys@.take(keys@.len() as int) =~= keys@);
        for t in 0..built.key_list.len()
            invariant
                built@ == expected_keys(answers@, pool@),
                built.wf(),
                loaded@ == keys@.to_set(),
                forall|k: u64| loaded@.contains(k) ==> built@.contains(k),
                forall|u: int| 0 <= u < t ==> loaded@.contains(#[trigger] built.key_list@[u]),
        {
            let k = built.key_list[t];
            if !loaded.contains(&k) {
                assert(built@.contains(k)) by {
                    assert(built.key_list@.to_set().contains(k));
                }
                return None;
            }
        }
        proof {
            assert forall|k: u64| built@.contains(k) implies loaded@.contains(k) by {
                assert(built.key_list@.to_set().contains(k));
                let u = choose|u: int| 0 <= u < built.key_list@.len() && built.key_list@[u] == k;
                assert(loaded@.contains(built.key_list@[u]));
            }
            assert(loaded@ =~= built@);
        }
        Some(built)
    }

    /// Whether the cache holds `key`.
    pub fn contains_key(&self, key: u64) -> (r: bool)
        ensures
            r == self@.contains(key),
    {
        self.keys.contains(&key)
    }

    /// All keys of the cache, each once, in no particular order.
    pub fn keys(&self) -> (r: Vec<u64>)
        requires
            self.wf(),
        ensures
            r@.to_set() == self@,
            r@.no_duplicates(),
            r@.len() == self@.len(),
    {
        let mut r: Vec<u64> = Vec::new();
        for t in 0..self.key_list.len()
            invariant
                r@ == self.key_list@.take(t as int),
        {
            r.push(self.key_list[t]);
            assert(r@ =~= self.key_list@.take(t + 1));
        }
        assert(r@ =~= self.key_list@);
        proof {
            self.key_list@.unique_seq_to_set();
        }
        r
    }
}

/// Within its domain the cache holds the key of a (guessed word, feedback,
/// candidate) triple exactly when the guess receives that feedback against
/// the candidate: no false positives and no false negatives.
pub proof fn lemma_cache_fidelity(
    cache: &MatchCache,
    g: Seq<u8>,
    c: Seq<u8>,
    m: Seq<ResponseType>,
)
    requires
        cache.wf(),
        is_word(g),
        is_word(c),
        m.len() == 5,
        cache.covers_guess(g),
        cache.covers_candidate(c),
    ensures
        cache@.contains(key_of(c, g, m) as u64) == (m == feedback(g, c)),
{
    lemma_round_trip(g);
    lemma_round_trip(c);
    let gc = word_code(g) as u64;
    let cc = word_code(c) as u64;
    assert(cache.guesses@.contains(gc) && cache.candidates@.contains(cc));
    if m == feedback(g, c) {
        assert(cache.keys@.contains(pair_key(gc, cc)));
    }
    if cache@.contains(key_of(c, g, m) as u64) {
        let k = key_of(c, g, m) as u64;
        assert(cache.keys@.contains(k));
        let (gc2, cc2) = choose|gc2: u64, cc2: u64|
            cache.guesses@.contains(gc2) && cache.candidates@.contains(cc2) && k == pair_key(
                gc2,
                cc2,
            );
        assert(is_code(gc2) && is_code(cc2));
        lemma_code_round_trip(gc2);
        lemma_code_round_trip(cc2);
        let g2 = decoded(gc2);
        let c2 = decoded(cc2);
        lemma_key_range(c, g, m);
        lemma_key_range(c2, g2, feedback(g2, c2));
        lemma_cache_key_injective(c, g, m, c2, g2, feedback(g2, c2));
    }
}

impl Guess {
    /// Whether this guess could have received its feedback when `word` is the
    /// answer, looked up in the cache where the cache covers the pair and
    /// worked out directly where it does not or where there is no cache.
    pub fn matches_cached(&self, word: &Word, cache: Option<&MatchCache>) -> (r: bool)
        requires
            cache matches Some(c) ==> c.wf(),
        ensures
            r == (self.mask@ == feedback(self.word@, word@)),
    {
        match cache {
            Some(cache) => {
                let gc = self.word.encode();
                let cc = word.encode();
                if cache.guesses.contains(&gc) && cache.candidates.contains(&cc) {
                    let key = CachedGuess::from((self, word));
                    proof {
                        lemma_cache_fidelity(cache, self.word@, word@, self.mask@);
                    }
                    cache.keys.contains(&key.0)
                } else {
                    self.matches(word)
                }
            },
            None => self.matches(word),
        }
    }
}

proof fn lemma_push_no_duplicates(s: Seq<u64>, v: u64)
    requires
        s.no_duplicates(),
        !s.contains(v),
    ensures
        s.push(v).no_duplicates(),
{
    assert forall|a: int, b: int| 0 <= a < b < s.push(v).len() implies s.push(v)[a] != s.push(
        v,
    )[b] by {
        if b == s.len() {
            assert(s[a] == s.push(v)[a]);
        }
    }
}

proof fn lemma_push_to_set(s: Seq<u64>, v: u64)
    ensures
        s.push(v).to_set() == s.to_set().insert(v),
{
    assert forall|x: u64| s.push(v).to_set().contains(x) <==> s.to_set().insert(v).contains(x) by {
        if s.contains(x) {
            let t = choose|t: int| 0 <= t < s.len() && s[t] == x;
            assert(s.push(v)[t] == x);
        }
        if x == v {
            assert(s.push(v)[s.len() as int] == x);
        }
        if s.push(v).contains(x) && x != v {
            let t = choose|t: int| 0 <= t < s.push(v).len() && s.push(v)[t] == x;
            assert(s[t] == x);
        }
    }
    assert(s.push(v).to_set() =~= s.to_set().insert(v));
}

} // verus!
