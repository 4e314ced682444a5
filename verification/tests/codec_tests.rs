use flashcard::codec::{load_string, save_string};
use flashcard::deck::{Difficulty, FlashcardDeck};

#[test]
fn empty_deck_writes_the_canonical_document() {
    let deck = FlashcardDeck::new();
    assert_eq!(save_string(&deck), "{\"cards\":{},\"next_id\":1}");
}

#[test]
fn one_card_writes_the_canonical_document() {
    let mut deck = FlashcardDeck::new();
    deck.add_card(String::from("q"), String::from("a"));
    assert_eq!(
        save_string(&deck),
        "{\"cards\":{\"1\":{\"id\":1,\"question\":\"q\",\"answer\":\"a\",\"metadata\":{\"difficulty\":\"Medium\",\"times_reviewed\":0,\"correct_count\":0,\"last_reviewed\":null}}},\"next_id\":2}"
    );
}

#[test]
fn round_trip_of_an_empty_deck() {
    let deck = FlashcardDeck::new();
    let loaded = load_string(&save_string(&deck)).unwrap();
    assert_eq!(loaded.cards.len(), 0);
    assert_eq!(loaded.next_id, 1);
}

#[test]
fn round_trip_keeps_every_field() {
    let mut deck = FlashcardDeck::new();
    deck.add_card(String::from("capital of France?"), String::from("Paris"));
    deck.add_card(String::from("2+2?"), String::from("4"));
    deck.add_card(String::from("gone"), String::from("soon"));
    deck.delete_card(3);
    deck.record_review(1, Difficulty::Easy, true, String::from("2024-06-01"));
    deck.record_review(1, Difficulty::Hard, false, String::from("2024-06-02"));
    deck.record_review(2, Difficulty::Medium, true, String::from("2024-06-03"));

    let text = save_string(&deck);
    let loaded = load_string(&text).unwrap();
    assert_eq!(loaded.next_id, deck.next_id);
    assert_eq!(loaded.cards.len(), deck.cards.len());
    for want in &deck.cards {
        let got = loaded.get_card(want.id).unwrap();
        assert_eq!(got.id, want.id);
        assert_eq!(got.question, want.question);
        assert_eq!(got.answer, want.answer);
        assert_eq!(got.metadata.times_reviewed, want.metadata.times_reviewed);
        assert_eq!(got.metadata.correct_count, want.metadata.correct_count);
        assert_eq!(got.metadata.last_reviewed, want.metadata.last_reviewed);
        assert!(got.metadata.difficulty == want.metadata.difficulty);
    }
}

#[test]
fn round_trip_escapes_special_characters() {
    let mut deck = FlashcardDeck::new();
    deck.add_card(
        String::from("say \"hi\"\\now\non\ttwo lines\r"),
        String::from("an\\swer \"quoted\""),
    );
    let text = save_string(&deck);
    let loaded = load_string(&text).unwrap();
    let card = loaded.get_card(1).unwrap();
    assert_eq!(card.question, "say \"hi\"\\now\non\ttwo lines\r");
    assert_eq!(card.answer, "an\\swer \"quoted\"");
}

#[test]
fn load_rejects_text_that_is_no_deck() {
    assert!(load_string("").is_none());
    assert!(load_string("hello").is_none());
    assert!(load_string("{\"cards\":{}").is_none());
    assert!(load_string("{\"cards\":{},\"next_id\":0}").is_none());
    assert!(load_string("{\"cards\":{},\"next_id\":1} ").is_none());
    assert!(load_string("{\"cards\":{},\"next_id\":01}").is_none());
}

#[test]
fn load_rejects_inconsistent_documents() {
    // The key must repeat the card's id.
    let mismatched = "{\"cards\":{\"2\":{\"id\":1,\"question\":\"q\",\"answer\":\"a\",\"metadata\":{\"difficulty\":\"Medium\",\"times_reviewed\":0,\"correct_count\":0,\"last_reviewed\":null}}},\"next_id\":2}";
    assert!(load_string(mismatched).is_none());
    // More correct answers than reviews cannot be loaded.
    let inconsistent = "{\"cards\":{\"1\":{\"id\":1,\"question\":\"q\",\"answer\":\"a\",\"metadata\":{\"difficulty\":\"Medium\",\"times_reviewed\":0,\"correct_count\":3,\"last_reviewed\":null}}},\"next_id\":2}";
    assert!(load_string(inconsistent).is_none());
    // An id at or past the generator cannot be loaded.
    let stale = "{\"cards\":{\"5\":{\"id\":5,\"question\":\"q\",\"answer\":\"a\",\"metadata\":{\"difficulty\":\"Medium\",\"times_reviewed\":0,\"correct_count\":0,\"last_reviewed\":null}}},\"next_id\":2}";
    assert!(load_string(stale).is_none());
    // An unknown difficulty cannot be loaded.
    let odd = "{\"cards\":{\"1\":{\"id\":1,\"question\":\"q\",\"answer\":\"a\",\"metadata\":{\"difficulty\":\"Tough\",\"times_reviewed\":0,\"correct_count\":0,\"last_reviewed\":null}}},\"next_id\":2}";
    assert!(load_string(odd).is_none());
}

#[test]
fn round_trip_keeps_multi_digit_ids_and_counters() {
    let mut deck = FlashcardDeck::new();
    for i in 0..12 {
        deck.add_card(format!("q{}", i), format!("a{}", i));
    }
    for _ in 0..205 {
        deck.record_review(11, Difficulty::Easy, true, String::from("2024-12-31"));
    }
    let text = save_string(&deck);
    assert!(text.contains("\"11\":"));
    assert!(text.contains("\"times_reviewed\":205"));
    let loaded = load_string(&text).unwrap();
    assert_eq!(loaded.next_id, 13);
    assert_eq!(loaded.cards.len(), 12);
    let card = loaded.get_card(11).unwrap();
    assert_eq!(card.metadata.times_reviewed, 205);
    assert_eq!(card.metadata.correct_count, 205);
}

#[test]
fn load_reads_a_stored_date() {
    let text = "{\"cards\":{\"1\":{\"id\":1,\"question\":\"q\",\"answer\":\"a\",\"metadata\":{\"difficulty\":\"Hard\",\"times_reviewed\":4,\"correct_count\":2,\"last_reviewed\":\"2023-02-03\"}}},\"next_id\":9}";
    let loaded = load_string(text).unwrap();
    assert_eq!(loaded.next_id, 9);
    let card = loaded.get_card(1).unwrap();
    assert!(matches!(card.metadata.difficulty, Difficulty::Hard));
    assert_eq!(card.metadata.times_reviewed, 4);
    assert_eq!(card.metadata.correct_count, 2);
    assert_eq!(card.metadata.last_reviewed.as_deref(), Some("2023-02-03"));
}
