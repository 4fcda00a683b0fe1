use wordle_solver::word::{Letter, Word, WordError};

fn word(s: &str) -> Word {
    Word::parse(s).unwrap()
}

#[test]
fn works() {
    let w: Word = word("abcde");
    let n = w.encode();

    assert_eq!(
        n,
        4 + 3 * 32 + 2 * 32 * 32 + 1 * 32 * 32 * 32 + 0 * 32 * 32 * 32 * 32
    );

    let n: Word = Word::decode(n);

    assert_eq!(w, n);
}

#[test]
fn decode_of_encode_is_identity() {
    for s in ["aaaaa", "zzzzz", "hello", "world", "sheep", "abcde", "qwxyz"] {
        let w = word(s);
        assert_eq!(Word::decode(w.encode()), w);
        assert_eq!(&w.letters(), s.as_bytes());
    }
}

#[test]
fn encode_extremes() {
    assert_eq!(word("aaaaa").encode(), 0);
    assert_eq!(word("aaaab").encode(), 1);
    assert_eq!(word("zzzzz").encode(), 27060025);
    assert_eq!(Word::decode(27060025), word("zzzzz"));
}

#[test]
fn encode_of_synthetic_code() {
    let n: u64 = (7 << 20) | (4 << 15) | (11 << 10) | (11 << 5) | 14;
    let w = Word::decode(n);
    assert_eq!(&w.letters(), b"hello");
    assert_eq!(w.encode(), n);
}

#[test]
fn parse_rejects_wrong_length() {
    assert_eq!(Word::parse("abcd"), Err(WordError::InvalidLength));
    assert_eq!(Word::parse("abcdef"), Err(WordError::InvalidLength));
    assert_eq!(Word::parse(""), Err(WordError::InvalidLength));
}

#[test]
fn parse_rejects_non_letters() {
    assert_eq!(Word::parse("abcD1"), Err(WordError::InvalidLetter));
    assert_eq!(Word::parse("ab de"), Err(WordError::InvalidLetter));
}

#[test]
fn same_compares_letters() {
    assert!(word("abcde").same(&word("abcde")));
    assert!(!word("abcde").same(&word("abcdf")));
}

#[test]
fn letter_starts_with_alphabet() {
    let l = Letter::default();
    assert_eq!(l.choices().len(), 26);
    assert!(l.choices().contains(&b'a'));
    assert!(l.choices().contains(&b'z'));
    assert!(!l.choices().contains(&b'A'));
}

#[test]
fn letter_remove_and_set() {
    let mut l = Letter::default();
    assert!(l.remove_choice(b'q'));
    assert!(!l.remove_choice(b'q'));
    assert_eq!(l.choices().len(), 25);
    l.set_choice(b'e');
    assert_eq!(l.choices().len(), 1);
    assert!(l.choices().contains(&b'e'));
}

#[test]
fn letter_reads_one_position() {
    let w = word("hello");
    assert_eq!(w.letter(0), b'h');
    assert_eq!(w.letter(4), b'o');
}

#[test]
fn decode_ignores_bits_above_the_fields() {
    let w = word("hello");
    let n = w.encode();
    assert_eq!(Word::decode(n | (1 << 25)), w);
    assert_eq!(Word::decode(n | (0xffff << 40)), w);
}
