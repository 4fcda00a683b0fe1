use wordle_solver::cache::MatchCache;
use wordle_solver::guess::Guess;
use wordle_solver::response::Response;
use wordle_solver::solver::{
    best_guess, filter_pool, merge_pools, next_guess, SolveError, Solver, Step, MAX_ROUNDS,
};
use wordle_solver::word::Word;

fn word(s: &str) -> Word {
    Word::parse(s).unwrap()
}

fn words(list: &[&str]) -> Vec<Word> {
    list.iter().map(|s| word(s)).collect()
}

#[test]
fn score_sums_cell_sizes() {
    let answers = words(&["abcde", "fghij"]);
    assert_eq!(word("klmno").score_new(&answers, &1, None), 4);
    assert_eq!(word("abcde").score_new(&answers, &1, None), 1);
    assert_eq!(word("abcde").score_new(&answers, &0, None), 2);
    assert_eq!(word("abcde").score_new(&answers, &5, None), -3);
}

#[test]
fn round_bias_may_take_the_score_below_zero() {
    let answers = words(&["fghik", "abcde", "fghij", "kbxyz"]);
    let pool = words(&["abcde", "fghik"]);
    assert_eq!(word("abcde").score_new(&answers, &0, None), 6);
    assert_eq!(word("fghik").score_new(&answers, &0, None), 4);
    assert_eq!(word("abcde").score_new(&answers, &6, None), 0);
    assert_eq!(word("fghik").score_new(&answers, &6, None), -2);
    assert_eq!(best_guess(&pool, &answers, 6, None), Ok(word("fghik")));
}

#[test]
fn score_with_cache_matches_without() {
    let answers = words(&["abcde", "fghij", "abcdf", "hello"]);
    let pool = words(&["abcde", "fghij", "abcdf", "hello", "klmno", "world"]);
    let cache = MatchCache::build(&answers, &pool);
    for w in &pool {
        assert_eq!(
            w.score_new(&answers, &2, Some(&cache)),
            w.score_new(&answers, &2, None)
        );
    }
    // abcde: cells {abcde}, {fghij}, {abcdf}, {hello} -> 4, less round 2.
    assert_eq!(word("abcde").score_new(&answers, &2, None), 2);
}

#[test]
fn best_guess_prefers_lowest_score() {
    let answers = words(&["abcde", "fghij"]);
    let pool = words(&["klmno", "abcde", "fghij"]);
    assert_eq!(best_guess(&pool, &answers, 1, None), Ok(word("abcde")));
}

#[test]
fn best_guess_with_one_answer_returns_it() {
    let answers = words(&["sheep"]);
    let pool = words(&["klmno", "abcde", "fghij"]);
    assert_eq!(best_guess(&pool, &answers, 3, None), Ok(word("sheep")));
    assert_eq!(best_guess(&Vec::new(), &answers, 3, None), Ok(word("sheep")));
}

#[test]
fn best_guess_without_answers_fails() {
    let pool = words(&["klmno"]);
    assert_eq!(
        best_guess(&pool, &Vec::new(), 2, None),
        Err(SolveError::NoCandidatesRemaining)
    );
    let answers = words(&["abcde", "fghij"]);
    assert_eq!(
        best_guess(&Vec::new(), &answers, 2, None),
        Err(SolveError::NoCandidatesRemaining)
    );
}

#[test]
fn next_guess_opens_with_given_word() {
    let answers = words(&["abcde", "fghij"]);
    let pool = words(&["klmno", "abcde", "fghij"]);
    let opening = word("saine");
    assert_eq!(next_guess(&pool, &answers, 1, Some(&opening), None), Ok(opening));
    assert_eq!(next_guess(&pool, &answers, 2, Some(&opening), None), Ok(word("abcde")));
    assert_eq!(next_guess(&pool, &answers, 1, None, None), Ok(word("abcde")));
}

#[test]
fn filtering_keeps_the_answer_and_shrinks() {
    let pool = words(&["abcde", "fghij", "abcdf", "hello", "abcdz"]);
    let answer = word("abcdf");
    let g = word("abcde");
    let guess = Guess {
        word: g,
        mask: Response::from_answer(&g, &answer),
    };
    let kept = filter_pool(&pool, &guess, None);
    assert_eq!(kept, words(&["abcdf", "abcdz"]));
    for w in &kept {
        assert!(pool.contains(w));
    }
    let cache = MatchCache::build(&pool, &pool);
    assert_eq!(filter_pool(&pool, &guess, Some(&cache)), kept);
}

#[test]
fn solver_from_word_lists_deduplicates() {
    let ok = words(&["klmno", "abcde", "klmno"]);
    let answers = words(&["abcde", "fghij", "abcde"]);
    let solver = Solver::from_word_lists(&ok, &answers);
    assert_eq!(solver.round, 1);
    assert_eq!(solver.answers, words(&["abcde", "fghij"]));
    assert_eq!(solver.pool, words(&["klmno", "abcde", "fghij"]));
}

#[test]
fn merge_keeps_first_occurrences() {
    let first = words(&["abcde", "fghij", "abcde"]);
    let second = words(&["hello", "fghij", "world"]);
    assert_eq!(
        merge_pools(&first, &second),
        words(&["abcde", "fghij", "hello", "world"])
    );
    assert_eq!(merge_pools(&Vec::new(), &Vec::new()), Vec::new());
}

#[test]
fn solver_narrows_pools_until_solved() {
    let answers = words(&["abcde", "abcdf", "hello"]);
    let pool = words(&["abcde", "abcdf", "hello", "abcdz", "world"]);
    let mut solver = Solver::new(pool, answers);
    assert_eq!(solver.round, 1);

    let truth = word("abcdf");
    let g = word("abcde");
    let step = solver.observe(&g, Response::from_answer(&g, &truth), None);
    assert_eq!(step, Step::Continue);
    assert_eq!(solver.round, 2);
    assert_eq!(solver.answers, words(&["abcdf"]));
    assert_eq!(solver.pool, words(&["abcdf", "abcdz"]));

    let step = solver.observe(&truth, Response::from_answer(&truth, &truth), None);
    assert_eq!(step, Step::Solved);
    assert_eq!(solver.round, 2);
    assert_eq!(solver.answers, words(&["abcdf"]));

    solver.round = MAX_ROUNDS;
    let step = solver.observe(&g, Response::from_answer(&g, &truth), None);
    assert_eq!(step, Step::OutOfRounds);
    assert_eq!(solver.round, MAX_ROUNDS);
}
