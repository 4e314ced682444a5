use flashcard::deck::{Difficulty, FlashcardDeck};
use flashcard::quiz::{parse_rating, QuizOutcome, QuizSession, Rating};

#[test]
fn ratings_are_read_after_trimming_and_case_folding() {
    assert_eq!(parse_rating("c"), Some(Rating::Correct));
    assert_eq!(parse_rating(" C \n"), Some(Rating::Correct));
    assert_eq!(parse_rating("g\n"), Some(Rating::Good));
    assert_eq!(parse_rating("\tW"), Some(Rating::Wrong));
    assert_eq!(parse_rating("q"), Some(Rating::Quit));
    assert_eq!(parse_rating("Q\r\n"), Some(Rating::Quit));
    assert_eq!(parse_rating(""), None);
    assert_eq!(parse_rating("   "), None);
    assert_eq!(parse_rating("cc"), None);
    assert_eq!(parse_rating("x"), None);
    assert_eq!(parse_rating("c g"), None);
}

#[test]
fn quitting_before_rating_excludes_the_card_from_both_counts() {
    let mut deck = FlashcardDeck::new();
    deck.add_card(String::from("q1"), String::from("a1"));
    deck.add_card(String::from("q2"), String::from("a2"));
    let mut session = QuizSession::start_with_order(vec![1, 2]);

    assert_eq!(session.current_card_id(), Some(1));
    assert_eq!(session.rate(&mut deck, "w"), QuizOutcome::Advanced);
    assert_eq!(session.current_card_id(), Some(2));
    assert_eq!(session.rate(&mut deck, "q"), QuizOutcome::Aborted);
    assert_eq!(session.summary(), (1, 0));

    let first = deck.get_card(1).unwrap();
    assert!(matches!(first.metadata.difficulty, Difficulty::Hard));
    assert_eq!(first.metadata.times_reviewed, 1);
    assert_eq!(first.metadata.correct_count, 0);
    let second = deck.get_card(2).unwrap();
    assert_eq!(second.metadata.times_reviewed, 0);
    assert!(second.metadata.last_reviewed.is_none());
}

#[test]
fn a_full_run_counts_correct_ratings() {
    let mut deck = FlashcardDeck::new();
    deck.add_card(String::from("q1"), String::from("a1"));
    deck.add_card(String::from("q2"), String::from("a2"));
    let mut session = QuizSession::start_with_order(vec![2, 1]);

    assert_eq!(session.rate(&mut deck, "c"), QuizOutcome::Advanced);
    assert_eq!(session.rate(&mut deck, "g"), QuizOutcome::Finished);
    assert_eq!(session.summary(), (2, 2));

    let first = deck.get_card(1).unwrap();
    assert!(matches!(first.metadata.difficulty, Difficulty::Medium));
    assert_eq!(first.metadata.correct_count, 1);
    let second = deck.get_card(2).unwrap();
    assert!(matches!(second.metadata.difficulty, Difficulty::Easy));
    assert_eq!(second.metadata.correct_count, 1);
}

#[test]
fn an_unreadable_line_changes_nothing_and_asks_again() {
    let mut deck = FlashcardDeck::new();
    deck.add_card(String::from("q1"), String::from("a1"));
    let mut session = QuizSession::start_with_order(vec![1]);

    assert_eq!(session.rate(&mut deck, "zz"), QuizOutcome::Rejected);
    assert_eq!(session.current_card_id(), Some(1));
    assert_eq!(deck.get_card(1).unwrap().metadata.times_reviewed, 0);
    assert_eq!(session.summary(), (0, 0));

    assert_eq!(session.rate(&mut deck, "c"), QuizOutcome::Finished);
    assert_eq!(session.summary(), (1, 1));
}

#[test]
fn a_session_over_an_empty_deck_has_nothing_to_present() {
    let deck = FlashcardDeck::new();
    let session = QuizSession::start(&deck);
    assert_eq!(session.current_card_id(), None);
    assert_eq!(session.summary(), (0, 0));
}

#[test]
fn a_started_session_walks_the_whole_deck_once() {
    let mut deck = FlashcardDeck::new();
    for i in 0..5 {
        deck.add_card(format!("q{}", i), format!("a{}", i));
    }
    let mut session = QuizSession::start(&deck);
    let mut seen: Vec<u32> = Vec::new();
    while let Some(id) = session.current_card_id() {
        seen.push(id);
        assert_ne!(session.rate(&mut deck, "c"), QuizOutcome::Rejected);
    }
    seen.sort();
    assert_eq!(seen, vec![1, 2, 3, 4, 5]);
    assert_eq!(session.summary(), (5, 5));
}
