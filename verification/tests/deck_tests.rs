use flashcard::deck::{Difficulty, FlashcardDeck};

#[test]
fn add_first_card_gets_id_one() {
    let mut deck = FlashcardDeck::new();
    assert_eq!(deck.next_id, 1);
    let id = deck.add_card(String::from("2+2?"), String::from("4"));
    assert_eq!(id, 1);
    assert_eq!(deck.cards.len(), 1);
    let card = deck.get_card(1).unwrap();
    assert_eq!(card.question, "2+2?");
    assert_eq!(card.answer, "4");
    assert!(matches!(card.metadata.difficulty, Difficulty::Medium));
    assert_eq!(card.metadata.times_reviewed, 0);
    assert_eq!(card.metadata.correct_count, 0);
    assert!(card.metadata.last_reviewed.is_none());
}

#[test]
fn ids_increase_by_one_and_are_never_reused() {
    let mut deck = FlashcardDeck::new();
    let a = deck.add_card(String::from("qa"), String::from("aa"));
    let b = deck.add_card(String::from("qb"), String::from("ab"));
    assert_eq!(a, 1);
    assert_eq!(b, 2);
    assert!(deck.delete_card(1));
    let c = deck.add_card(String::from("qc"), String::from("ac"));
    assert_eq!(c, 3);
    assert!(deck.delete_card(3));
    assert!(deck.delete_card(2));
    let d = deck.add_card(String::from("qd"), String::from("ad"));
    assert_eq!(d, 4);
}

#[test]
fn update_on_absent_id_changes_nothing() {
    let mut deck = FlashcardDeck::new();
    deck.add_card(String::from("q"), String::from("a"));
    deck.update_card_difficulty(99, Difficulty::Hard, true);
    assert_eq!(deck.cards.len(), 1);
    assert_eq!(deck.next_id, 2);
    let card = deck.get_card(1).unwrap();
    assert!(matches!(card.metadata.difficulty, Difficulty::Medium));
    assert_eq!(card.metadata.times_reviewed, 0);
    assert_eq!(card.metadata.correct_count, 0);
    assert!(card.metadata.last_reviewed.is_none());
    assert!(deck.get_card(99).is_none());
}

#[test]
fn rating_correct_sets_easy_and_counts() {
    let mut deck = FlashcardDeck::new();
    deck.add_card(String::from("q"), String::from("a"));
    deck.update_card_difficulty(1, Difficulty::Easy, true);
    let today = chrono::Utc::now().format("%Y-%m-%d").to_string();
    let card = deck.get_card(1).unwrap();
    assert!(matches!(card.metadata.difficulty, Difficulty::Easy));
    assert_eq!(card.metadata.times_reviewed, 1);
    assert_eq!(card.metadata.correct_count, 1);
    assert_eq!(card.metadata.last_reviewed.as_deref(), Some(today.as_str()));
}

#[test]
fn counters_stay_consistent_over_many_ratings() {
    let mut deck = FlashcardDeck::new();
    deck.add_card(String::from("q"), String::from("a"));
    deck.update_card_difficulty(1, Difficulty::Easy, true);
    deck.update_card_difficulty(1, Difficulty::Medium, true);
    deck.update_card_difficulty(1, Difficulty::Hard, false);
    let card = deck.get_card(1).unwrap();
    assert_eq!(card.metadata.times_reviewed, 3);
    assert_eq!(card.metadata.correct_count, 2);
    assert!(card.metadata.correct_count <= card.metadata.times_reviewed);
    assert!(matches!(card.metadata.difficulty, Difficulty::Hard));
}

#[test]
fn delete_of_never_created_id_returns_false() {
    let mut deck = FlashcardDeck::new();
    deck.add_card(String::from("q"), String::from("a"));
    assert!(!deck.delete_card(7));
    assert_eq!(deck.cards.len(), 1);
    assert_eq!(deck.next_id, 2);
    assert!(deck.get_card(1).is_some());
}

#[test]
fn delete_removes_only_that_card() {
    let mut deck = FlashcardDeck::new();
    deck.add_card(String::from("q1"), String::from("a1"));
    deck.add_card(String::from("q2"), String::from("a2"));
    assert!(deck.delete_card(1));
    assert!(deck.get_card(1).is_none());
    assert!(deck.get_card(2).is_some());
    assert_eq!(deck.cards.len(), 1);
    assert_eq!(deck.next_id, 3);
}

#[test]
fn reset_zeroes_stats_and_keeps_content() {
    let mut deck = FlashcardDeck::new();
    deck.add_card(String::from("q1"), String::from("a1"));
    deck.add_card(String::from("q2"), String::from("a2"));
    deck.record_review(1, Difficulty::Easy, true, String::from("2024-01-01"));
    deck.record_review(2, Difficulty::Hard, false, String::from("2024-01-02"));
    deck.reset_all_stats();
    assert_eq!(deck.next_id, 3);
    assert_eq!(deck.cards.len(), 2);
    for (id, q, a) in [(1u32, "q1", "a1"), (2u32, "q2", "a2")] {
        let card = deck.get_card(id).unwrap();
        assert_eq!(card.id, id);
        assert_eq!(card.question, q);
        assert_eq!(card.answer, a);
        assert!(matches!(card.metadata.difficulty, Difficulty::Medium));
        assert_eq!(card.metadata.times_reviewed, 0);
        assert_eq!(card.metadata.correct_count, 0);
        assert!(card.metadata.last_reviewed.is_none());
    }
}

#[test]
fn random_order_is_a_permutation_of_the_ids() {
    let deck = FlashcardDeck::new();
    assert!(deck.get_random_cards_ids().is_empty());

    let mut deck = FlashcardDeck::new();
    deck.add_card(String::from("q"), String::from("a"));
    assert_eq!(deck.get_random_cards_ids(), vec![1]);

    let mut deck = FlashcardDeck::new();
    for i in 0..8 {
        deck.add_card(format!("q{}", i), format!("a{}", i));
    }
    deck.delete_card(3);
    let mut order = deck.get_random_cards_ids();
    assert_eq!(order.len(), 7);
    order.sort();
    assert_eq!(order, vec![1, 2, 4, 5, 6, 7, 8]);
}

#[test]
fn record_review_stamps_the_given_date() {
    let mut deck = FlashcardDeck::new();
    deck.add_card(String::from("q"), String::from("a"));
    deck.record_review(1, Difficulty::Medium, true, String::from("1999-12-31"));
    let card = deck.get_card(1).unwrap();
    assert_eq!(card.metadata.last_reviewed.as_deref(), Some("1999-12-31"));
    assert!(matches!(card.metadata.difficulty, Difficulty::Medium));
    assert_eq!(card.metadata.times_reviewed, 1);
    assert_eq!(card.metadata.correct_count, 1);
}
