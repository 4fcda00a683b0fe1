use wordle_solver::cache::MatchCache;
use wordle_solver::guess::{CachedGuess, Guess};
use wordle_solver::response::{Response, ResponseType};
use wordle_solver::word::Word;

use ResponseType::{Gray, Green, Yellow};

fn word(s: &str) -> Word {
    Word::parse(s).unwrap()
}

fn all_responses() -> Vec<Response> {
    let types = [Gray, Yellow, Green];
    let mut out = Vec::new();
    for a in types {
        for b in types {
            for c in types {
                for d in types {
                    for e in types {
                        out.push(Response([a, b, c, d, e]));
                    }
                }
            }
        }
    }
    out
}

const WORDS: [&str; 8] = [
    "aabbb", "ababa", "sheep", "abcde", "hello", "world", "saine", "agent",
];

#[test]
fn matches_agrees_with_feedback() {
    for g in WORDS {
        for a in WORDS {
            let observed = Response::from_answer(&word(g), &word(a));
            for c in WORDS {
                let guess = Guess {
                    word: word(g),
                    mask: observed,
                };
                let expected = Response::from_answer(&word(g), &word(c)) == observed;
                assert_eq!(guess.matches(&word(c)), expected, "{g} {a} {c}");
            }
        }
    }
}

#[test]
fn matches_rejects_every_other_mask() {
    let g = word("sheep");
    let c = word("abcde");
    let right = Response::from_answer(&g, &c);
    let mut hits = 0;
    for m in all_responses() {
        let guess = Guess { word: g, mask: m };
        if guess.matches(&c) {
            hits += 1;
            assert_eq!(m, right);
        }
    }
    assert_eq!(hits, 1);
}

#[test]
fn cached_guess_packs_three_fields() {
    let guess = Guess {
        word: word("abcde"),
        mask: Response([Gray; 5]),
    };
    assert_eq!(CachedGuess::from((&guess, &word("aaaab"))).0, 1171586547713);
    let guess = Guess {
        word: word("abcde"),
        mask: Response([Gray, Yellow, Gray, Green, Yellow]),
    };
    assert_eq!(CachedGuess::from((&guess, &word("aaaab"))).0, 38281768419196929);
}

#[test]
fn cache_agrees_with_direct_check() {
    let answers: Vec<Word> = ["abcde", "hello", "sheep"].iter().map(|s| word(s)).collect();
    let pool: Vec<Word> = WORDS.iter().map(|s| word(s)).collect();
    let cache = MatchCache::build(&answers, &pool);
    assert_eq!(cache.keys().len(), answers.len() * pool.len());
    for g in &answers {
        for c in &pool {
            for m in all_responses() {
                let guess = Guess { word: *g, mask: m };
                let direct = guess.matches(c);
                assert_eq!(guess.matches_cached(c, Some(&cache)), direct);
                assert_eq!(
                    cache.contains_key(CachedGuess::from((&guess, c)).0),
                    direct
                );
                assert_eq!(guess.matches_cached(c, None), direct);
            }
        }
    }
}

#[test]
fn cache_falls_back_outside_its_domain() {
    let answers = vec![word("abcde")];
    let pool = vec![word("abcde")];
    let cache = MatchCache::build(&answers, &pool);
    let g = word("hello");
    let c = word("world");
    let guess = Guess {
        word: g,
        mask: Response::from_answer(&g, &c),
    };
    assert!(guess.matches_cached(&c, Some(&cache)));
    assert!(!cache.contains_key(CachedGuess::from((&guess, &c)).0));
}

#[test]
fn stored_keys_are_checked_against_the_lists() {
    let answers: Vec<Word> = ["abcde", "hello"].iter().map(|s| word(s)).collect();
    let pool: Vec<Word> = WORDS.iter().map(|s| word(s)).collect();
    let built = MatchCache::build(&answers, &pool);
    let mut keys = built.keys();
    keys.reverse();

    let loaded = MatchCache::from_keys(&keys, &answers, &pool).unwrap();
    let mut a = loaded.keys();
    let mut b = built.keys();
    a.sort();
    b.sort();
    assert_eq!(a, b);

    let mut extra = keys.clone();
    extra.push(12345);
    assert!(MatchCache::from_keys(&extra, &answers, &pool).is_none());

    let mut missing = keys.clone();
    missing.pop();
    assert!(MatchCache::from_keys(&missing, &answers, &pool).is_none());

    let mut doubled = keys.clone();
    doubled.push(keys[0]);
    assert!(MatchCache::from_keys(&doubled, &answers, &pool).is_some());
}

#[test]
fn cache_keys_are_listed_once() {
    let answers: Vec<Word> = ["abcde", "hello", "abcde"].iter().map(|s| word(s)).collect();
    let pool: Vec<Word> = ["sheep", "world", "sheep", "agent"].iter().map(|s| word(s)).collect();
    let cache = MatchCache::build(&answers, &pool);
    let mut keys = cache.keys();
    assert_eq!(keys.len(), 2 * 3);
    keys.sort();
    keys.dedup();
    assert_eq!(keys.len(), 2 * 3);
}
