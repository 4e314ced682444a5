//! The quiz session decision logic: what a rating line means, how a
//! rating changes the deck, and how the session's counters advance.
//! Reading lines and printing belongs to the surrounding program; the
//! session here is a pure state machine over the deck.

use crate::deck::{Difficulty, FlashcardDeck};
use vstd::prelude::*;

verus! {

/// One user judgment of a quiz turn: correct and easy, got it at medium
/// difficulty, wrong, or quit the session.
#[derive(Clone, Copy, Debug, PartialEq, Eq, Structural)]
pub enum Rating {
    Correct,
    Good,
    Wrong,
    Quit,
}

/// What feeding one rating line to the session did.
#[derive(Clone, Copy, Debug, PartialEq, Eq, Structural)]
pub enum QuizOutcome {
    /// A rating was recorded; more cards remain.
    Advanced,
    /// A rating was recorded and it was the last card.
    Finished,
    /// The line asked to quit; nothing was recorded.
    Aborted,
    /// The line was not a rating; nothing changed, ask again.
    Rejected,
}

/// Whitespace trimmed around a rating line before it is read.
pub open spec fn is_quiz_space(c: char) -> bool {
    c == ' ' || c == '\t' || c == '\n' || c == '\r' || c == '\u{b}' || c == '\u{c}'
}

pub open spec fn trim_front(s: Seq<char>) -> Seq<char>
    decreases s.len(),
{
    if s.len() > 0 && is_quiz_space(s[0]) {
        trim_front(s.drop_first())
    } else {
        s
    }
}

pub open spec fn trim_back(s: Seq<char>) -> Seq<char>
    decreases s.len(),
{
    if s.len() > 0 && is_quiz_space(s.last()) {
        trim_back(s.drop_last())
    } else {
        s
    }
}

/// The line with surrounding whitespace removed.
pub open spec fn trimmed(s: Seq<char>) -> Seq<char> {
    trim_back(trim_front(s))
}

/// What a rating line means: after trimming it must be exactly one of
/// the letters c, g, w or q, in either case; anything else is no rating.
pub open spec fn rating_of(s: Seq<char>) -> Option<Rating> {
    let t = trimmed(s);
    if t.len() != 1 {
        None
    } else if t[0] == 'c' || t[0] == 'C' {
        Some(Rating::Correct)
    } else if t[0] == 'g' || t[0] == 'G' {
        Some(Rating::Good)
    } else if t[0] == 'w' || t[0] == 'W' {
        Some(Rating::Wrong)
    } else if t[0] == 'q' || t[0] == 'Q' {
        Some(Rating::Quit)
    } else {
        None
    }
}

/// The deck change a completed rating asks for: the difficulty that is
/// stored and whether the turn counts as correct.
pub open spec fn spec_rating_effect(r: Rating) -> (Difficulty, bool) {
    match r {
        Rating::Correct => (Difficulty::Easy, true),
        Rating::Good => (Difficulty::Medium, true),
        Rating::Wrong => (Difficulty::Hard, false),
        Rating::Quit => (Difficulty::Medium, false),
    }
}

fn is_space_char(c: char) -> (b: bool)
    ensures
        b == is_quiz_space(c),
{
    c == ' ' || c == '\t' || c == '\n' || c == '\r' || c == '\u{b}' || c == '\u{c}'
}

/// Reads a rating line: trims surrounding whitespace, then recognises
/// the single letters c, g, w, q in either case.
pub fn parse_rating(line: &str) -> (r: Option<Rating>)
    ensures
        r == rating_of(line@),
{
    let n = line.unicode_len();
    let mut lo: usize = 0;
    proof {
        assert(line@.skip(0) =~= line@);
    }
    while lo < n && is_space_char(line.get_char(lo))
        invariant
            n == line@.len(),
            lo <= n,
            trim_front(line@) == trim_front(line@.skip(lo as int)),
        decreases n - lo,
    {
        proof {
            assert(line@.skip(lo as int).drop_first() =~= line@.skip(lo as int + 1));
        }
        lo += 1;
    }
    proof {
        assert(trim_front(line@) == line@.skip(lo as int));
        assert(line@.skip(lo as int) =~= line@.subrange(lo as int, n as int));
    }
    let mut hi: usize = n;
    while hi > lo && is_space_char(line.get_char(hi - 1))
        invariant
            n == line@.len(),
            lo <= hi <= n,
            trimmed(line@) == trim_back(line@.subrange(lo as int, hi as int)),
        decreases hi,
    {
        proof {
            assert(line@.subrange(lo as int, hi as int).drop_last() =~= line@.subrange(
                lo as int,
                hi as int - 1,
            ));
        }
        hi -= 1;
    }
    proof {
        assert(trimmed(line@) == line@.subrange(lo as int, hi as int));
    }
    if hi - lo != 1 {
        return None;
    }
    let c = line.get_char(lo);
    proof {
        assert(c == trimmed(line@)[0]);
    }
    if c == 'c' || c == 'C' {
        Some(Rating::Correct)
    } else if c == 'g' || c == 'G' {
        Some(Rating::Good)
    } else if c == 'w' || c == 'W' {
        Some(Rating::Wrong)
    } else if c == 'q' || c == 'Q' {
        Some(Rating::Quit)
    } else {
        None
    }
}

/// The deck change a completed rating asks for.
pub fn rating_effect(r: Rating) -> (e: (Difficulty, bool))
    requires
        r != Rating::Quit,
    ensures
        e == spec_rating_effect(r),
{
    match r {
        Rating::Correct => (Difficulty::Easy, true),
        Rating::Good => (Difficulty::Medium, true),
        Rating::Wrong => (Difficulty::Hard, false),
        Rating::Quit => (Difficulty::Medium, false),
    }
}

/// One quiz run: the order of card ids captured at the start, how many
/// cards have been rated, and how many of those were correct.
pub struct QuizSession {
    pub order: Vec<u32>,
    pub pos: usize,
    pub correct: usize,
}

impl QuizSession {
    /// The session never rates past its order and never counts more
    /// correct turns than completed turns.
    pub open spec fn wf(self) -> bool {
        self.pos <= self.order@.len() && self.correct <= self.pos
    }

    /// All cards in the captured order have been rated.
    pub open spec fn finished(self) -> bool {
        self.pos == self.order@.len()
    }

    /// Begins a session over a freshly shuffled order of the deck's ids.
    pub fn start(deck: &FlashcardDeck) -> (s: QuizSession)
        requires
            deck@.wf(),
        ensures
            s.wf(),
            s.pos == 0,
            s.correct == 0,
            s.order@.map_values(|x: u32| x as nat).to_multiset() == deck@.ids().to_multiset(),
            s.order@.len() == deck@.cards.len(),
    {
        QuizSession { order: deck.get_random_cards_ids(), pos: 0, correct: 0 }
    }

    /// Begins a session over a caller-chosen order, so a fixed or seeded
    /// order can stand in for the shuffle.
    pub fn start_with_order(order: Vec<u32>) -> (s: QuizSession)
        ensures
            s.wf(),
            s.pos == 0,
            s.correct == 0,
            s.order == order,
    {
        QuizSession { order, pos: 0, correct: 0 }
    }

    /// The id of the card now being presented, or nothing once the
    /// session is finished.
    pub fn current_card_id(&self) -> (r: Option<u32>)
        ensures
            match r {
                Some(id) => self.pos < self.order@.len() && id == self.order@[self.pos as int],
                None => self.finished() || self.pos >= self.order@.len(),
            },
    {
        if self.pos < self.order.len() {
            Some(self.order[self.pos])
        } else {
            None
        }
    }

    /// Feeds one rating line for the current card. A rating of c, g or w
    /// records the review on the deck -- the session's one mutation path
    /// -- and advances; q aborts with nothing recorded for this card;
    /// anything else changes nothing and asks to re-prompt.
    pub fn rate(&mut self, deck: &mut FlashcardDeck, line: &str) -> (r: QuizOutcome)
        requires
            old(self).wf(),
            !old(self).finished(),
            old(deck)@.wf(),
            old(deck)@.contains_id(old(self).order@[old(self).pos as int] as nat) ==> old(
                deck,
            )@.cards[old(deck)@.idx_of(
                old(self).order@[old(self).pos as int] as nat,
            )].metadata.times_reviewed < u32::MAX,
        ensures
            final(self).wf(),
            final(deck)@.wf(),
            final(self).order == old(self).order,
            match rating_of(line@) {
                None => r == QuizOutcome::Rejected && *final(self) == *old(self) && final(deck)@
                    == old(deck)@,
                Some(Rating::Quit) => r == QuizOutcome::Aborted && *final(self) == *old(self)
                    && final(deck)@ == old(deck)@,
                Some(rt) => {
                    &&& final(self).pos == old(self).pos + 1
                    &&& final(self).correct == old(self).correct + (
                    if spec_rating_effect(rt).1 {
                        1int
                    } else {
                        0int
                    })
                    &&& exists|d: Seq<char>| final(deck)@ == old(deck)@.review(
                        old(self).order@[old(self).pos as int] as nat,
                        spec_rating_effect(rt).0,
                        spec_rating_effect(rt).1,
                        d,
                    )
                    &&& r == (if final(self).finished() {
                        QuizOutcome::Finished
                    } else {
                        QuizOutcome::Advanced
                    })
                },
            },
    {
        let id = self.order[self.pos];
        match parse_rating(line) {
            None => QuizOutcome::Rejected,
            Some(Rating::Quit) => QuizOutcome::Aborted,
            Some(rt) => {
                let n = self.order.len();
                let (difficulty, was_correct) = rating_effect(rt);
                deck.update_card_difficulty(id, difficulty, was_correct);
                self.pos = self.pos + 1;
                if was_correct {
                    self.correct = self.correct + 1;
                }
                if self.pos == n {
                    QuizOutcome::Finished
                } else {
                    QuizOutcome::Advanced
                }
            },
        }
    }

    /// The summary counts: how many cards were rated and how many of
    /// those were correct. A card quit on, and anything after it, is in
    /// neither count.
    pub fn summary(&self) -> (r: (usize, usize))
        ensures
            r.0 == self.pos,
            r.1 == self.correct,
    {
        (self.pos, self.correct)
    }
}

} // verus!
