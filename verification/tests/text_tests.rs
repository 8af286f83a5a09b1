use chrono::Datelike;
use citordle::dates::GameDate;
use citordle::feedback::build_feedback;
use citordle::models::LetterState;
use citordle::schedule::{hash_seed, seeded_hash};
use citordle::text::{decimal_text, normalize_text, normalize_word};
use citordle::words::{allowed_words_from_text, DictionaryError};

fn states(secret: &str, guess: &str) -> Vec<LetterState> {
    build_feedback(secret, guess).iter().map(|f| f.status).collect()
}

#[test]
fn normalize_word_keeps_ascii_letters_upper_cased() {
    assert_eq!(normalize_word("  New-York 42! "), "NEWYORK");
    assert_eq!(normalize_word("São Paulo"), "SOPAULO");
    assert_eq!(normalize_word(""), "");
}

#[test]
fn normalize_text_trims_filters_and_lowercases() {
    assert_eq!(normalize_text("  Hello,  World!\t"), "hello  world");
    assert_eq!(normalize_text("\u{3000}Côte d'Ivoire "), "cte divoire");
    assert_eq!(normalize_text("   "), "");
    assert_eq!(normalize_text("JAPAN"), normalize_text(" japan "));
}

#[test]
fn decimal_text_writes_digits() {
    assert_eq!(decimal_text(0), "0");
    assert_eq!(decimal_text(5), "5");
    assert_eq!(decimal_text(1234567890), "1234567890");
    assert_eq!(decimal_text(u64::MAX), u64::MAX.to_string());
}

#[test]
fn feedback_marks_present_and_correct_letters() {
    assert_eq!(
        states("APPLE", "PAPER"),
        vec![LetterState::Present, LetterState::Present, LetterState::Correct, LetterState::Present, LetterState::Absent]
    );
    let fb = build_feedback("APPLE", "PAPER");
    let letters: Vec<String> = fb.iter().map(|f| f.letter.clone()).collect();
    assert_eq!(letters, vec!["P", "A", "P", "E", "R"]);
}

#[test]
fn feedback_does_not_mark_more_copies_than_the_secret_has() {
    // The secret has two E's: only the first two misplaced E's are present.
    assert_eq!(
        states("SPEED", "EERIE"),
        vec![LetterState::Present, LetterState::Present, LetterState::Absent, LetterState::Absent, LetterState::Absent]
    );
    // An exact hit uses up the only copy, so the earlier misplaced copy is absent.
    assert_eq!(
        states("ABCDE", "EXXXE"),
        vec![LetterState::Absent, LetterState::Absent, LetterState::Absent, LetterState::Absent, LetterState::Correct]
    );
}

#[test]
fn feedback_on_exact_guess_is_all_correct() {
    assert!(states("LISBON", "LISBON").iter().all(|s| *s == LetterState::Correct));
    assert!(build_feedback("LIMA", "").is_empty());
}

#[test]
fn seeded_hash_matches_fnv_values() {
    assert_eq!(seeded_hash(b"", 0), 14695981039346656037);
    assert_eq!(seeded_hash(b"a", 0), 12638187200555641996);
    assert_eq!(seeded_hash(b"paris", 7), 6480719417283497088);
    assert_eq!(hash_seed("2024-05-01-stage3") as u64, 5347005062486127917);
}

#[test]
fn day_numbers_agree_with_chrono() {
    for (y, m, d) in [(1, 1, 1), (0, 12, 31), (-4, 2, 29), (2024, 5, 1), (1900, 3, 1), (2000, 2, 29), (-262143, 1, 1), (262142, 12, 31), (1970, 1, 1)] {
        let ours = GameDate::new(y, m, d).expect("valid date");
        let theirs = chrono::NaiveDate::from_ymd_opt(y, m, d).expect("valid date");
        assert_eq!(ours.num_days_from_ce(), theirs.num_days_from_ce() as i64, "{y}-{m}-{d}");
        assert_eq!(ours.to_text(), theirs.to_string(), "{y}-{m}-{d}");
    }
}

#[test]
fn invalid_dates_are_refused() {
    assert!(GameDate::new(2023, 2, 29).is_none());
    assert!(GameDate::new(2024, 13, 1).is_none());
    assert!(GameDate::new(2024, 4, 31).is_none());
    assert!(GameDate::new(2024, 1, 0).is_none());
    assert!(GameDate::new(400000, 1, 1).is_none());
    assert!(GameDate::new(1900, 2, 29).is_none());
    assert!(GameDate::new(2000, 2, 29).is_some());
}

#[test]
fn date_text_pads_and_signs_years() {
    assert_eq!(GameDate::new(2024, 3, 7).unwrap().to_text(), "2024-03-07");
    assert_eq!(GameDate::new(7, 11, 30).unwrap().to_text(), "0007-11-30");
    assert_eq!(GameDate::new(-1, 1, 1).unwrap().to_text(), "-0001-01-01");
    assert_eq!(GameDate::new(12345, 6, 7).unwrap().to_text(), "+12345-06-07");
}

#[test]
fn dictionary_text_gives_normalized_words() {
    let list = allowed_words_from_text("# comment\nparis\r\n  tokyo  \nab\n\nNew York\nparis\n").unwrap();
    assert!(list.contains(&"PARIS".to_string()));
    assert!(list.contains(&"TOKYO".to_string()));
    assert!(list.contains(&"NEWYORK".to_string()));
    assert!(!list.contains(&"AB".to_string()));
    assert!(!list.contains(&"COMMENT".to_string()));
    assert!(!list.contains(&"paris".to_string()));
}

#[test]
fn dictionary_without_words_is_refused() {
    assert_eq!(allowed_words_from_text("# only\nab\n\n").err(), Some(DictionaryError::Empty));
    assert_eq!(allowed_words_from_text("").err(), Some(DictionaryError::Empty));
}

#[test]
fn feedback_on_a_shorter_guess_marks_no_more_copies_than_the_secret_has() {
    // The secret has two P's, both matched in place; the third P is absent.
    assert_eq!(states("PAPER", "PPP"), vec![LetterState::Correct, LetterState::Absent, LetterState::Correct]);
}
