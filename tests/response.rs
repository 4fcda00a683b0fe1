use wordle_solver::response::{Response, ResponseType};
use wordle_solver::word::Word;

use ResponseType::{Gray, Green, Yellow};

fn word(s: &str) -> Word {
    Word::parse(s).unwrap()
}

fn fb(g: &str, a: &str) -> [ResponseType; 5] {
    Response::from_answer(&word(g), &word(a)).0
}

#[test]
fn self_feedback_is_all_green() {
    for s in ["hello", "sheep", "aaaaa", "abcde", "zyxwv"] {
        assert_eq!(fb(s, s), [Green; 5]);
        assert!(Response::from_answer(&word(s), &word(s)).is_correct());
    }
}

#[test]
fn repeated_letters_are_credited_once_each() {
    assert_eq!(fb("aabbb", "ababa"), [Green, Yellow, Yellow, Green, Gray]);
}

#[test]
fn second_e_of_sheep_is_not_credited() {
    assert_eq!(fb("sheep", "abcde"), [Gray, Gray, Yellow, Gray, Gray]);
}

#[test]
fn hello_against_world() {
    // world has one `l`, taken by the green at position 3.
    assert_eq!(fb("hello", "world"), [Gray, Gray, Gray, Green, Yellow]);
}

#[test]
fn saine_against_agent() {
    assert_eq!(fb("saine", "agent"), [Gray, Yellow, Gray, Green, Yellow]);
}

#[test]
fn is_correct_needs_every_position() {
    assert!(Response([Green; 5]).is_correct());
    assert!(!Response([Green, Green, Green, Green, Yellow]).is_correct());
    assert!(!Response([Gray; 5]).is_correct());
}

#[test]
fn response_codes() {
    assert_eq!(Response([Gray; 5]).code(), 0);
    assert_eq!(Response([Green; 5]).code(), 242);
    assert_eq!(Response([Gray, Yellow, Gray, Green, Yellow]).code(), 34);
    assert_eq!(Response([Yellow, Gray, Gray, Gray, Gray]).code(), 81);
}

#[test]
fn is_misplaced_takes_first_free_position() {
    let answer = word("abcba");
    let mut used = [true, false, false, false, false];
    assert!(ResponseType::is_misplaced(b'a', &answer, &mut used));
    assert_eq!(used, [true, false, false, false, true]);
    assert!(!ResponseType::is_misplaced(b'a', &answer, &mut used));
    assert_eq!(used, [true, false, false, false, true]);
    assert!(ResponseType::is_misplaced(b'b', &answer, &mut used));
    assert_eq!(used, [true, true, false, false, true]);
    assert!(!ResponseType::is_misplaced(b'z', &answer, &mut used));
}

#[test]
fn choices_name_response_types() {
    assert_eq!(ResponseType::from_choice(1), Some(Gray));
    assert_eq!(ResponseType::from_choice(2), Some(Yellow));
    assert_eq!(ResponseType::from_choice(3), Some(Green));
    assert_eq!(ResponseType::from_choice(0), None);
    assert_eq!(ResponseType::from_choice(4), None);
}

#[test]
fn prompt_or_answer_uses_known_answer() {
    let r = Response::prompt_or_answer(&word("saine"), Some(&word("agent")));
    assert_eq!(r.map(|r| r.0), Some([Gray, Yellow, Gray, Green, Yellow]));
    assert_eq!(Response::prompt_or_answer(&word("saine"), None), None);
}

#[test]
fn get_reads_one_position() {
    let r = Response::from_answer(&word("saine"), &word("agent"));
    assert_eq!(r.get(1), Yellow);
    assert_eq!(r.get(3), Green);
    assert_eq!(r.get(0), Gray);
}
