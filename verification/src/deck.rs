//! The deck data model: cards, per-card review statistics, and the
//! operations that mutate them.

use rand::seq::SliceRandom;
use vstd::prelude::*;

verus! {

/// The most recent self-reported difficulty of a card.
#[derive(Clone, Copy, Debug, PartialEq, Eq, Structural)]
pub enum Difficulty {
    Easy,
    Medium,
    Hard,
}

/// Review statistics of one card.
#[derive(Clone, Debug)]
pub struct CardMetadata {
    pub difficulty: Difficulty,
    pub times_reviewed: u32,
    pub correct_count: u32,
    pub last_reviewed: Option<String>,
}

/// One question/answer pair with its statistics.
#[derive(Clone, Debug)]
pub struct Flashcard {
    pub id: u32,
    pub question: String,
    pub answer: String,
    pub metadata: CardMetadata,
}

/// The aggregate: all cards, kept sorted by id, and the id generator.
#[derive(Debug)]
pub struct FlashcardDeck {
    pub cards: Vec<Flashcard>,
    pub next_id: u32,
}

/// Mathematical model of `CardMetadata`.
pub struct MetaView {
    pub difficulty: Difficulty,
    pub times_reviewed: nat,
    pub correct_count: nat,
    pub last_reviewed: Option<Seq<char>>,
}

/// Mathematical model of `Flashcard`.
pub struct CardView {
    pub id: nat,
    pub question: Seq<char>,
    pub answer: Seq<char>,
    pub metadata: MetaView,
}

/// Mathematical model of `FlashcardDeck`: the cards in id order plus
/// the id generator.
pub struct DeckView {
    pub cards: Seq<CardView>,
    pub next_id: nat,
}

impl View for CardMetadata {
    type V = MetaView;

    open spec fn view(&self) -> MetaView {
        MetaView {
            difficulty: self.difficulty,
            times_reviewed: self.times_reviewed as nat,
            correct_count: self.correct_count as nat,
            last_reviewed: match self.last_reviewed {
                Some(d) => Some(d@),
                None => None,
            },
        }
    }
}

impl View for Flashcard {
    type V = CardView;

    open spec fn view(&self) -> CardView {
        CardView {
            id: self.id as nat,
            question: self.question@,
            answer: self.answer@,
            metadata: self.metadata@,
        }
    }
}

impl View for FlashcardDeck {
    type V = DeckView;

    open spec fn view(&self) -> DeckView {
        DeckView { cards: self.cards@.map_values(|c: Flashcard| c@), next_id: self.next_id as nat }
    }
}

/// The statistics every card starts with and is reset to.
pub open spec fn default_meta() -> MetaView {
    MetaView { difficulty: Difficulty::Medium, times_reviewed: 0, correct_count: 0, last_reviewed: None }
}

impl CardView {
    /// A card never records more correct answers than reviews.
    pub open spec fn wf(self) -> bool {
        self.metadata.correct_count <= self.metadata.times_reviewed
    }
}

impl Default for CardMetadata {
    /// The statistics of a freshly created card.
    fn default() -> (r: CardMetadata)
        ensures
            r@ == default_meta(),
    {
        CardMetadata {
            difficulty: Difficulty::Medium,
            times_reviewed: 0,
            correct_count: 0,
            last_reviewed: None,
        }
    }
}

impl DeckView {
    /// Well-formedness: ids are strictly increasing (hence unique), every
    /// id is below the generator, and every card's counters are consistent.
    pub open spec fn wf(self) -> bool {
        &&& 1 <= self.next_id
        &&& forall|i: int| 0 <= i < self.cards.len() ==> (#[trigger] self.cards[i]).wf()
        &&& forall|i: int| 0 <= i < self.cards.len() ==> (#[trigger] self.cards[i]).id < self.next_id
        &&& forall|i: int, j: int|
            #![trigger self.cards[i].id, self.cards[j].id]
            0 <= i < j < self.cards.len() ==> self.cards[i].id < self.cards[j].id
    }

    /// The deck a fresh `FlashcardDeck` models.
    pub open spec fn empty() -> DeckView {
        DeckView { cards: Seq::empty(), next_id: 1 }
    }

    pub open spec fn contains_id(self, id: nat) -> bool {
        exists|i: int| 0 <= i < self.cards.len() && (#[trigger] self.cards[i]).id == id
    }

    /// The position of the card with the given id (meaningful only when
    /// `contains_id` holds; unique under `wf`).
    pub open spec fn idx_of(self, id: nat) -> int {
        choose|i: int| 0 <= i < self.cards.len() && (#[trigger] self.cards[i]).id == id
    }

    pub open spec fn get(self, id: nat) -> Option<CardView> {
        if self.contains_id(id) {
            Some(self.cards[self.idx_of(id)])
        } else {
            None
        }
    }

    /// Adding a card: it takes `next_id`, default statistics, and the
    /// generator moves one up.
    pub open spec fn add(self, question: Seq<char>, answer: Seq<char>) -> DeckView {
        DeckView {
            cards: self.cards.push(
                CardView { id: self.next_id, question, answer, metadata: default_meta() },
            ),
            next_id: self.next_id + 1,
        }
    }

    /// Deleting a card: the card goes, the generator stays.
    pub open spec fn delete(self, id: nat) -> DeckView {
        if self.contains_id(id) {
            DeckView { cards: self.cards.remove(self.idx_of(id)), next_id: self.next_id }
        } else {
            self
        }
    }

    /// Recording a review outcome on one card: difficulty is replaced,
    /// the review counter moves one up, the correct counter moves up
    /// exactly when the outcome was correct, and the review date is
    /// stamped. An absent id changes nothing.
    pub open spec fn review(
        self,
        id: nat,
        difficulty: Difficulty,
        correct: bool,
        date: Seq<char>,
    ) -> DeckView {
        if self.contains_id(id) {
            let i = self.idx_of(id);
            let c = self.cards[i];
            DeckView {
                cards: self.cards.update(
                    i,
                    CardView {
                        metadata: MetaView {
                            difficulty,
                            times_reviewed: c.metadata.times_reviewed + 1,
                            correct_count: c.metadata.correct_count + (if correct { 1nat } else { 0nat }),
                            last_reviewed: Some(date),
                        },
                        ..c
                    },
                ),
                next_id: self.next_id,
            }
        } else {
            self
        }
    }

    /// Resetting statistics: every card keeps its id, question and answer
    /// and gets the default statistics back; the generator stays.
    pub open spec fn reset(self) -> DeckView {
        DeckView {
            cards: self.cards.map_values(|c: CardView| CardView { metadata: default_meta(), ..c }),
            next_id: self.next_id,
        }
    }

    /// The ids of all cards, in stored (ascending) order.
    pub open spec fn ids(self) -> Seq<nat> {
        self.cards.map_values(|c: CardView| c.id)
    }

    /// Every number in the deck fits the machine type that stores it;
    /// the model of any `FlashcardDeck` does.
    pub open spec fn fits_u32(self) -> bool {
        &&& self.next_id <= u32::MAX
        &&& forall|i: int| 0 <= i < self.cards.len() ==> {
            let c = #[trigger] self.cards[i];
            &&& c.id <= u32::MAX
            &&& c.metadata.times_reviewed <= u32::MAX
            &&& c.metadata.correct_count <= u32::MAX
        }
    }
}

/// The model of a stored deck always fits `u32`, field by field.
pub proof fn lemma_view_fits(deck: &FlashcardDeck)
    ensures
        deck@.fits_u32(),
{
    assert forall|i: int| 0 <= i < deck@.cards.len() implies {
        let c = #[trigger] deck@.cards[i];
        &&& c.id <= u32::MAX
        &&& c.metadata.times_reviewed <= u32::MAX
        &&& c.metadata.correct_count <= u32::MAX
    } by {
        assert(deck@.cards[i] == deck.cards@[i]@);
    }
}

impl FlashcardDeck {
    /// A new, empty deck; the first card will get id 1.
    pub fn new() -> (r: FlashcardDeck)
        ensures
            r@ == DeckView::empty(),
            r@.wf(),
    {
        let r = FlashcardDeck { cards: Vec::new(), next_id: 1 };
        proof {
            assert(r@.cards =~= Seq::<CardView>::empty());
            assert(r@ == DeckView::empty());
        }
        r
    }

    /// Creates a card with the next free id and default statistics,
    /// inserts it, and returns its id.
    pub fn add_card(&mut self, question: String, answer: String) -> (r: u32)
        requires
            old(self)@.wf(),
            old(self).next_id < u32::MAX,
        ensures
            final(self)@ == old(self)@.add(question@, answer@),
            r == old(self).next_id,
            final(self)@.wf(),
    {
        let ghost pre = self@;
        let id = self.next_id;
        let card = Flashcard { id, question, answer, metadata: CardMetadata::default() };
        self.cards.push(card);
        self.next_id = id + 1;
        proof {
            assert(self@.cards =~= pre.cards.push(
                CardView {
                    id: id as nat,
                    question: question@,
                    answer: answer@,
                    metadata: default_meta(),
                },
            ));
            assert(self@ == pre.add(question@, answer@));
        }
        id
    }

    /// Finds the index of the card with the given id, if present.
    fn find_index(&self, card_id: u32) -> (r: Option<usize>)
        requires
            self@.wf(),
        ensures
            match r {
                Some(i) => i < self.cards.len() && self@.contains_id(card_id as nat)
                    && self@.idx_of(card_id as nat) == i as int,
                None => !self@.contains_id(card_id as nat),
            },
    {
        let n = self.cards.len();
        let mut i: usize = 0;
        while i < n
            invariant
                self@.wf(),
                n == self.cards.len(),
                i <= n,
                forall|k: int| 0 <= k < i ==> (#[trigger] self@.cards[k]).id != card_id as nat,
            decreases n - i,
        {
            if self.cards[i].id == card_id {
                proof {
                    assert(self@.contains_id(card_id as nat));
                    let j = self@.idx_of(card_id as nat);
                    assert(0 <= j < self@.cards.len() && self@.cards[j].id == card_id as nat);
                    if j < i as int {
                        assert(self@.cards[j].id < self@.cards[i as int].id);
                    } else if j > i as int {
                        assert(self@.cards[i as int].id < self@.cards[j].id);
                    }
                }
                return Some(i);
            }
            i += 1;
        }
        proof {
            assert(!self@.contains_id(card_id as nat));
        }
        None
    }

    /// Returns the card with the given id, or nothing when no card has it.
    pub fn get_card(&self, card_id: u32) -> (r: Option<&Flashcard>)
        requires
            self@.wf(),
        ensures
            match r {
                Some(c) => self@.get(card_id as nat) == Some(c@),
                None => self@.get(card_id as nat) is None,
            },
    {
        match self.find_index(card_id) {
            Some(i) => Some(&self.cards[i]),
            None => None,
        }
    }

    /// Removes the card with the given id; reports whether one was there.
    /// The id generator does not move back: a deleted id is never reused.
    pub fn delete_card(&mut self, card_id: u32) -> (r: bool)
        requires
            old(self)@.wf(),
        ensures
            final(self)@ == old(self)@.delete(card_id as nat),
            r == old(self)@.contains_id(card_id as nat),
            final(self)@.wf(),
            final(self).next_id == old(self).next_id,
    {
        let ghost pre = self@;
        match self.find_index(card_id) {
            Some(i) => {
                self.cards.remove(i);
                proof {
                    assert(self@.cards =~= pre.cards.remove(i as int));
                    assert(self@ == pre.delete(card_id as nat));
                    assert forall|a: int, b: int|
                        0 <= a < b < self@.cards.len() implies self@.cards[a].id
                        < self@.cards[b].id by {
                        if b < i as int {
                            assert(pre.cards[a].id < pre.cards[b].id);
                        } else if a < i as int {
                            assert(pre.cards[a].id < pre.cards[b + 1].id);
                        } else {
                            assert(pre.cards[a + 1].id < pre.cards[b + 1].id);
                        }
                    }
                }
                true
            },
            None => {
                proof {
                    assert(self@ == pre.delete(card_id as nat));
                }
                false
            },
        }
    }

    /// Records one review outcome on the card with the given id, stamping
    /// the given date. An absent id changes nothing and is not an error.
    pub fn record_review(
        &mut self,
        card_id: u32,
        difficulty: Difficulty,
        correct: bool,
        date: String,
    )
        requires
            old(self)@.wf(),
            old(self)@.contains_id(card_id as nat) ==> old(self)@.cards[old(self)@.idx_of(
                card_id as nat,
            )].metadata.times_reviewed < u32::MAX,
        ensures
            final(self)@ == old(self)@.review(card_id as nat, difficulty, correct, date@),
            final(self)@.wf(),
    {
        let ghost pre = self@;
        match self.find_index(card_id) {
            Some(i) => {
                let mut card = self.cards.remove(i);
                card.metadata.difficulty = difficulty;
                card.metadata.times_reviewed = card.metadata.times_reviewed + 1;
                if correct {
                    card.metadata.correct_count = card.metadata.correct_count + 1;
                }
                card.metadata.last_reviewed = Some(date);
                self.cards.insert(i, card);
                proof {
                    assert(self@.cards =~= pre.review(
                        card_id as nat,
                        difficulty,
                        correct,
                        date@,
                    ).cards);
                    assert(self@ == pre.review(card_id as nat, difficulty, correct, date@));
                    assert forall|a: int, b: int|
                        0 <= a < b < self@.cards.len() implies self@.cards[a].id
                        < self@.cards[b].id by {
                        assert(pre.cards[a].id < pre.cards[b].id);
                    }
                }
            },
            None => {
                proof {
                    assert(self@ == pre.review(card_id as nat, difficulty, correct, date@));
                }
            },
        }
    }

    /// Records one review outcome dated today. The date comes from the
    /// system clock, so the contract says only that some date was stamped.
    pub fn update_card_difficulty(&mut self, card_id: u32, difficulty: Difficulty, correct: bool)
        requires
            old(self)@.wf(),
            old(self)@.contains_id(card_id as nat) ==> old(self)@.cards[old(self)@.idx_of(
                card_id as nat,
            )].metadata.times_reviewed < u32::MAX,
        ensures
            exists|d: Seq<char>| final(self)@ == old(self)@.review(
                card_id as nat,
                difficulty,
                correct,
                d,
            ),
            final(self)@.wf(),
    {
        let date = today_string();
        let ghost d = date@;
        self.record_review(card_id, difficulty, correct, date);
        proof {
            assert(self@ == old(self)@.review(card_id as nat, difficulty, correct, d));
        }
    }

    /// Puts every card's statistics back to the defaults; ids, questions,
    /// answers and the id generator are untouched.
    pub fn reset_all_stats(&mut self)
        requires
            old(self)@.wf(),
        ensures
            final(self)@ == old(self)@.reset(),
            final(self)@.wf(),
    {
        let ghost pre = self@;
        let n = self.cards.len();
        let mut i: usize = 0;
        while i < n
            invariant
                n == self.cards.len(),
                i <= n,
                self.next_id == old(self).next_id,
                forall|k: int| 0 <= k < i ==> self@.cards[k] == (CardView {
                    metadata: default_meta(),
                    ..pre.cards[k]
                }),
                forall|k: int| i <= k < n ==> self@.cards[k] == pre.cards[k],
            decreases n - i,
        {
            let ghost cur = self@;
            let mut card = self.cards.remove(i);
            card.metadata = CardMetadata::default();
            self.cards.insert(i, card);
            proof {
                assert(self@.cards =~= cur.cards.update(
                    i as int,
                    CardView { metadata: default_meta(), ..cur.cards[i as int] },
                ));
            }
            i += 1;
        }
        proof {
            assert(self@.cards =~= pre.reset().cards);
            assert(self@ == pre.reset());
            assert forall|a: int, b: int|
                0 <= a < b < self@.cards.len() implies self@.cards[a].id < self@.cards[b].id by {
                assert(pre.cards[a].id < pre.cards[b].id);
            }
        }
    }

    /// The ids of all cards in a shuffled order: a permutation of exactly
    /// the deck's ids. Which permutation comes out depends on the random
    /// generator, so only the multiset is pinned.
    pub fn get_random_cards_ids(&self) -> (r: Vec<u32>)
        requires
            self@.wf(),
        ensures
            r@.map_values(|x: u32| x as nat).to_multiset() == self@.ids().to_multiset(),
            r@.len() == self@.cards.len(),
    {
        let mut ids: Vec<u32> = Vec::new();
        let n = self.cards.len();
        let mut i: usize = 0;
        while i < n
            invariant
                n == self.cards.len(),
                i <= n,
                ids@.len() == i,
                ids@.map_values(|x: u32| x as nat) =~= self@.ids().take(i as int),
            decreases n - i,
        {
            ids.push(self.cards[i].id);
            proof {
                assert(ids@.map_values(|x: u32| x as nat) =~= self@.ids().take(i + 1));
            }
            i += 1;
        }
        proof {
            assert(self@.ids().take(n as int) =~= self@.ids());
        }
        let ghost before = ids@;
        let mut rng = new_rng();
        shuffle_ids(&mut ids, &mut rng);
        proof {
            lemma_map_values_multiset(before, ids@);
            broadcast use vstd::seq_lib::group_to_multiset_ensures;

            assert(ids@.to_multiset().len() == ids@.len());
            assert(before.to_multiset().len() == before.len());
        }
        ids
    }
}

/// Deleting a sequence of ids, one after the other, in the given order.
pub open spec fn delete_seq(d: DeckView, ids: Seq<nat>) -> DeckView
    decreases ids.len(),
{
    if ids.len() == 0 {
        d
    } else {
        delete_seq(d.delete(ids[0]), ids.drop_first())
    }
}

/// Adding a card keeps the deck well formed.
pub proof fn lemma_add_wf(d: DeckView, q: Seq<char>, a: Seq<char>)
    requires
        d.wf(),
    ensures
        d.add(q, a).wf(),
{
}

/// Deleting a card keeps the deck well formed and leaves the id
/// generator where it was.
pub proof fn lemma_delete_wf(d: DeckView, id: nat)
    requires
        d.wf(),
    ensures
        d.delete(id).wf(),
        d.delete(id).next_id == d.next_id,
{
    if d.contains_id(id) {
        let i = d.idx_of(id);
        let r = d.delete(id);
        assert forall|a1: int, b: int| 0 <= a1 < b < r.cards.len() implies r.cards[a1].id
            < r.cards[b].id by {
            if b < i {
                assert(d.cards[a1].id < d.cards[b].id);
            } else if a1 < i {
                assert(d.cards[a1].id < d.cards[b + 1].id);
            } else {
                assert(d.cards[a1 + 1].id < d.cards[b + 1].id);
            }
        }
    }
}

/// Any run of deletions keeps the deck well formed and never moves the
/// id generator.
pub proof fn lemma_delete_seq_wf(d: DeckView, ids: Seq<nat>)
    requires
        d.wf(),
    ensures
        delete_seq(d, ids).wf(),
        delete_seq(d, ids).next_id == d.next_id,
    decreases ids.len(),
{
    if ids.len() > 0 {
        lemma_delete_wf(d, ids[0]);
        lemma_delete_seq_wf(d.delete(ids[0]), ids.drop_first());
    }
}

/// In a well-formed deck the next id to hand out is fresh: no card has
/// it, and none ever had it.
pub proof fn lemma_next_id_fresh(d: DeckView)
    requires
        d.wf(),
    ensures
        !d.contains_id(d.next_id),
{
}

/// Law: ids handed out by `add_card` go up by exactly 1 and are never
/// reused, however many deletions happen in between. The first addition
/// hands out `d.next_id`, fresh in `d`; after any deletions the second
/// hands out `d.next_id + 1`, fresh in its deck.
pub proof fn lemma_add_ids_increase(
    d: DeckView,
    q1: Seq<char>,
    a1: Seq<char>,
    dels: Seq<nat>,
    q2: Seq<char>,
    a2: Seq<char>,
)
    requires
        d.wf(),
    ensures
        ({
            let id1 = d.next_id;
            let d2 = delete_seq(d.add(q1, a1), dels);
            let id2 = d2.next_id;
            &&& id2 == id1 + 1
            &&& !d.contains_id(id1)
            &&& !d2.contains_id(id2)
        }),
{
    lemma_add_wf(d, q1, a1);
    lemma_delete_seq_wf(d.add(q1, a1), dels);
    lemma_next_id_fresh(d);
    lemma_next_id_fresh(delete_seq(d.add(q1, a1), dels));
}

/// Law: recording a review against an id that is not in the deck
/// changes nothing, and is not an error.
pub proof fn lemma_review_absent(
    d: DeckView,
    id: nat,
    difficulty: Difficulty,
    correct: bool,
    date: Seq<char>,
)
    requires
        !d.contains_id(id),
    ensures
        d.review(id, difficulty, correct, date) == d,
{
}

/// Law: in a well-formed deck every card has recorded at most as many
/// correct answers as reviews.
pub proof fn lemma_counters_consistent(d: DeckView)
    requires
        d.wf(),
    ensures
        forall|i: int| 0 <= i < d.cards.len() ==> (#[trigger] d.cards[i]).metadata.correct_count
            <= d.cards[i].metadata.times_reviewed,
{
}

/// Law: resetting statistics puts every card's statistics back to the
/// defaults and touches nothing else: ids, questions, answers and the
/// id generator all stay.
pub proof fn lemma_reset_preserves_content(d: DeckView)
    ensures
        d.reset().next_id == d.next_id,
        d.reset().cards.len() == d.cards.len(),
        forall|i: int| 0 <= i < d.cards.len() ==> {
            let r = #[trigger] d.reset().cards[i];
            &&& r.id == d.cards[i].id
            &&& r.question == d.cards[i].question
            &&& r.answer == d.cards[i].answer
            &&& r.metadata == default_meta()
        },
{
}

/// Law: any sequence of ids with the same multiset as the deck's ids --
/// what `get_random_cards_ids` returns -- is a permutation of exactly
/// those ids: same length, same set, and no id twice.
pub proof fn lemma_shuffle_is_permutation(d: DeckView, r: Seq<nat>)
    requires
        d.wf(),
        r.to_multiset() == d.ids().to_multiset(),
    ensures
        r.len() == d.cards.len(),
        r.to_set() == d.ids().to_set(),
        r.no_duplicates(),
{
    broadcast use vstd::seq_lib::group_to_multiset_ensures;

    assert(r.to_multiset().len() == r.len());
    assert(d.ids().to_multiset().len() == d.ids().len());
    assert forall|x: nat| r.to_set().contains(x) <==> d.ids().to_set().contains(x) by {
        assert(r.contains(x) <==> r.to_multiset().count(x) > 0);
        assert(d.ids().contains(x) <==> d.ids().to_multiset().count(x) > 0);
    }
    assert(r.to_set() =~= d.ids().to_set());
    assert(d.ids().no_duplicates()) by {
        assert forall|i: int, j: int|
            0 <= i < d.ids().len() && 0 <= j < d.ids().len() && i != j implies d.ids()[i]
            != d.ids()[j] by {
            if i < j {
                assert(d.cards[i].id < d.cards[j].id);
            } else {
                assert(d.cards[j].id < d.cards[i].id);
            }
        }
    }
    d.ids().lemma_multiset_has_no_duplicates();
    r.lemma_multiset_has_no_duplicates_conv();
}

/// A shuffle keeps the multiset of mapped values: used to carry the
/// permutation fact from `u32` ids to their `nat` models.
proof fn lemma_map_values_multiset(a: Seq<u32>, b: Seq<u32>)
    requires
        a.to_multiset() == b.to_multiset(),
    ensures
        a.map_values(|x: u32| x as nat).to_multiset() == b.map_values(|x: u32| x as nat).to_multiset(),
    decreases a.len(),
{
    broadcast use vstd::seq_lib::group_to_multiset_ensures;

    if a.len() == 0 {
        assert(a.to_multiset().len() == 0);
        assert(b.to_multiset().len() == 0);
        assert(b.len() == 0);
        assert(a.map_values(|x: u32| x as nat) =~= Seq::<nat>::empty());
        assert(b.map_values(|x: u32| x as nat) =~= Seq::<nat>::empty());
        assert(a.map_values(|x: u32| x as nat).to_multiset() =~= b.map_values(
            |x: u32| x as nat,
        ).to_multiset());
    } else {
        let x = a[0];
        assert(a.to_multiset().count(x) > 0);
        assert(b.to_multiset().count(x) > 0);
        assert(b.contains(x));
        let j = choose|j: int| 0 <= j < b.len() && b[j] == x;
        let a1 = a.remove(0);
        let b1 = b.remove(j);
        assert(a1.to_multiset() =~= a.to_multiset().remove(x));
        assert(b1.to_multiset() =~= b.to_multiset().remove(x));
        lemma_map_values_multiset(a1, b1);
        lemma_map_values_remove(a, 0);
        lemma_map_values_remove(b, j);
        assert(a.map_values(|x: u32| x as nat).to_multiset() =~= a1.map_values(
            |x: u32| x as nat,
        ).to_multiset().insert(x as nat));
        assert(b.map_values(|x: u32| x as nat).to_multiset() =~= b1.map_values(
            |x: u32| x as nat,
        ).to_multiset().insert(x as nat));
    }
}

/// Mapping commutes with removing one element.
proof fn lemma_map_values_remove(s: Seq<u32>, i: int)
    requires
        0 <= i < s.len(),
    ensures
        s.remove(i).map_values(|x: u32| x as nat) =~= s.map_values(|x: u32| x as nat).remove(i),
        s.map_values(|x: u32| x as nat).to_multiset() =~= s.remove(i).map_values(
            |x: u32| x as nat,
        ).to_multiset().insert(s[i] as nat),
{
    broadcast use vstd::seq_lib::group_to_multiset_ensures;

    let m = s.map_values(|x: u32| x as nat);
    assert(s.remove(i).map_values(|x: u32| x as nat) =~= m.remove(i));
    assert(m.remove(i).to_multiset() =~= m.to_multiset().remove(m[i]));
    assert(m.to_multiset().count(m[i]) > 0);
    assert(m.to_multiset() =~= m.to_multiset().remove(m[i]).insert(m[i]));
}

/// Relies on chrono's `Utc::now`, rendered with the `%Y-%m-%d` format:
/// the current calendar date as "YYYY-MM-DD". The clock's value cannot
/// be promised, so the contract says nothing of the result.
#[verifier::external_body]
fn today_string() -> String {
    chrono::Utc::now().format("%Y-%m-%d").to_string()
}

/// The thread-local random generator of the rand crate, declared so a
/// handle to it can pass through verified code; its state is opaque.
#[verifier::external_type_specification]
#[verifier::external_body]
pub struct ExThreadRng(rand::rngs::ThreadRng);

/// Relies on rand's `rng`: a handle to the thread-local generator.
/// Nothing can be promised of a source of randomness.
#[verifier::external_body]
fn new_rng() -> rand::rngs::ThreadRng {
    rand::rng()
}

/// Relies on rand's `SliceRandom::shuffle`: it permutes the slice in
/// place, so exactly the multiset of elements is kept, whatever order
/// the generator picks.
#[verifier::external_body]
fn shuffle_ids(ids: &mut Vec<u32>, rng: &mut rand::rngs::ThreadRng)
    ensures
        final(ids)@.to_multiset() == old(ids)@.to_multiset(),
{
    ids.shuffle(rng);
}

} // verus!
