//! The persistence format: a canonical textual document holding the
//! whole deck, with a verified writer and reader and a proved
//! load/save round trip.
//!
//! The document is one object: `{"cards":{...},"next_id":N}`. Under
//! `"cards"` every card stands keyed by the decimal form of its id, in
//! ascending id order, as
//! `{"id":N,"question":S,"answer":S,"metadata":{...}}`; the metadata
//! object holds `difficulty` (`"Easy"`, `"Medium"` or `"Hard"`),
//! `times_reviewed`, `correct_count` and `last_reviewed` (a string or
//! `null`). A string is quoted, with `\"`, `\\`, `\n`, `\r` and `\t`
//! escapes; every other character stands as itself.

use crate::deck::{CardMetadata, CardView, DeckView, Difficulty, Flashcard, FlashcardDeck, MetaView};
use vstd::prelude::*;

verus! {

// ---------------------------------------------------------------------
// The encoding, as spec functions.
// ---------------------------------------------------------------------

pub open spec fn char_of_digit(d: nat) -> char {
    if d == 0 {
        '0'
    } else if d == 1 {
        '1'
    } else if d == 2 {
        '2'
    } else if d == 3 {
        '3'
    } else if d == 4 {
        '4'
    } else if d == 5 {
        '5'
    } else if d == 6 {
        '6'
    } else if d == 7 {
        '7'
    } else if d == 8 {
        '8'
    } else {
        '9'
    }
}

/// The decimal form of a number, most significant digit first, no
/// leading zeros.
pub open spec fn enc_u32(n: nat) -> Seq<char>
    decreases n,
{
    if n < 10 {
        seq![char_of_digit(n)]
    } else {
        enc_u32(n / 10).push(char_of_digit(n % 10))
    }
}

/// How one character stands inside a quoted string.
pub open spec fn esc_char(c: char) -> Seq<char> {
    if c == '"' {
        seq!['\\', '"']
    } else if c == '\\' {
        seq!['\\', '\\']
    } else if c == '\n' {
        seq!['\\', 'n']
    } else if c == '\r' {
        seq!['\\', 'r']
    } else if c == '\t' {
        seq!['\\', 't']
    } else {
        seq![c]
    }
}

pub open spec fn esc(s: Seq<char>) -> Seq<char>
    decreases s.len(),
{
    if s.len() == 0 {
        Seq::empty()
    } else {
        esc_char(s[0]) + esc(s.drop_first())
    }
}

/// A quoted, escaped string.
pub open spec fn enc_str(s: Seq<char>) -> Seq<char> {
    seq!['"'] + esc(s) + seq!['"']
}

pub open spec fn enc_diff(d: Difficulty) -> Seq<char> {
    match d {
        Difficulty::Easy => "\"Easy\""@,
        Difficulty::Medium => "\"Medium\""@,
        Difficulty::Hard => "\"Hard\""@,
    }
}

pub open spec fn enc_last_reviewed(o: Option<Seq<char>>) -> Seq<char> {
    match o {
        None => "null"@,
        Some(s) => enc_str(s),
    }
}

pub open spec fn enc_meta(m: MetaView) -> Seq<char> {
    "{\"difficulty\":"@ + enc_diff(m.difficulty) + ",\"times_reviewed\":"@ + enc_u32(
        m.times_reviewed,
    ) + ",\"correct_count\":"@ + enc_u32(m.correct_count) + ",\"last_reviewed\":"@
        + enc_last_reviewed(m.last_reviewed) + "}"@
}

pub open spec fn enc_card(c: CardView) -> Seq<char> {
    "{\"id\":"@ + enc_u32(c.id) + ",\"question\":"@ + enc_str(c.question) + ",\"answer\":"@
        + enc_str(c.answer) + ",\"metadata\":"@ + enc_meta(c.metadata) + "}"@
}

/// One entry of the card table: the id again as the key, then the card.
pub open spec fn enc_entry(c: CardView) -> Seq<char> {
    seq!['"'] + enc_u32(c.id) + "\":"@ + enc_card(c)
}

/// The card table's entries, comma separated.
pub open spec fn enc_entries(cs: Seq<CardView>) -> Seq<char>
    decreases cs.len(),
{
    if cs.len() == 0 {
        Seq::empty()
    } else if cs.len() == 1 {
        enc_entry(cs[0])
    } else {
        enc_entry(cs[0]) + seq![','] + enc_entries(cs.drop_first())
    }
}

/// The whole persisted document.
pub open spec fn enc_deck(d: DeckView) -> Seq<char> {
    "{\"cards\":{"@ + enc_entries(d.cards) + "},\"next_id\":"@ + enc_u32(d.next_id) + "}"@
}

// ---------------------------------------------------------------------
// The verified writer.
// ---------------------------------------------------------------------

/// Relies on std's `String::push`: it appends exactly the given
/// character at the end of the string.
#[verifier::external_body]
fn push_char(out: &mut String, c: char)
    ensures
        final(out)@ == old(out)@.push(c),
{
    out.push(c);
}

fn digit_char(d: u32) -> (c: char)
    requires
        d < 10,
    ensures
        c == char_of_digit(d as nat),
{
    match d {
        0 => '0',
        1 => '1',
        2 => '2',
        3 => '3',
        4 => '4',
        5 => '5',
        6 => '6',
        7 => '7',
        8 => '8',
        _ => '9',
    }
}

fn push_u32(out: &mut String, n: u32)
    ensures
        final(out)@ == old(out)@ + enc_u32(n as nat),
    decreases n,
{
    if n < 10 {
        push_char(out, digit_char(n));
        proof {
            assert(final(out)@ =~= old(out)@ + enc_u32(n as nat));
        }
    } else {
        push_u32(out, n / 10);
        push_char(out, digit_char(n % 10));
        proof {
            assert(final(out)@ =~= old(out)@ + enc_u32(n as nat));
        }
    }
}

fn push_escaped_char(out: &mut String, c: char)
    ensures
        final(out)@ == old(out)@ + esc_char(c),
{
    if c == '"' {
        push_char(out, '\\');
        push_char(out, '"');
    } else if c == '\\' {
        push_char(out, '\\');
        push_char(out, '\\');
    } else if c == '\n' {
        push_char(out, '\\');
        push_char(out, 'n');
    } else if c == '\r' {
        push_char(out, '\\');
        push_char(out, 'r');
    } else if c == '\t' {
        push_char(out, '\\');
        push_char(out, 't');
    } else {
        push_char(out, c);
    }
    proof {
        assert(final(out)@ =~= old(out)@ + esc_char(c));
    }
}

/// Escaping one character at a time builds the escaping of the whole.
proof fn lemma_esc_snoc(s: Seq<char>, c: char)
    ensures
        esc(s.push(c)) == esc(s) + esc_char(c),
    decreases s.len(),
{
    if s.len() == 0 {
        assert(s.push(c).drop_first() =~= Seq::<char>::empty());
        assert(s.push(c)[0] == c);
        assert(esc(s.push(c)) == esc_char(c) + esc(Seq::<char>::empty()));
        assert(esc(Seq::<char>::empty()) == Seq::<char>::empty());
        assert(esc(s) == Seq::<char>::empty());
        assert(esc_char(c) + Seq::<char>::empty() =~= esc_char(c));
        assert(Seq::<char>::empty() + esc_char(c) =~= esc_char(c));
    } else {
        assert(s.push(c).drop_first() =~= s.drop_first().push(c));
        lemma_esc_snoc(s.drop_first(), c);
        assert(esc(s.push(c)) =~= esc(s) + esc_char(c));
    }
}

fn push_quoted(out: &mut String, s: &str)
    ensures
        final(out)@ == old(out)@ + enc_str(s@),
{
    let ghost start = out@;
    push_char(out, '"');
    let n = s.unicode_len();
    let mut i: usize = 0;
    proof {
        assert(esc(s@.take(0)) =~= Seq::<char>::empty());
        assert(out@ =~= start.push('"') + esc(s@.take(0)));
    }
    while i < n
        invariant
            n == s@.len(),
            i <= n,
            out@ == start.push('"') + esc(s@.take(i as int)),
        decreases n - i,
    {
        push_escaped_char(out, s.get_char(i));
        proof {
            lemma_esc_snoc(s@.take(i as int), s@[i as int]);
            assert(s@.take(i as int + 1) =~= s@.take(i as int).push(s@[i as int]));
            assert(out@ =~= start.push('"') + esc(s@.take(i as int + 1)));
        }
        i += 1;
    }
    push_char(out, '"');
    proof {
        assert(s@.take(n as int) =~= s@);
        assert(out@ =~= start + enc_str(s@));
    }
}

fn push_difficulty(out: &mut String, d: &Difficulty)
    ensures
        final(out)@ == old(out)@ + enc_diff(*d),
{
    match d {
        Difficulty::Easy => out.append("\"Easy\""),
        Difficulty::Medium => out.append("\"Medium\""),
        Difficulty::Hard => out.append("\"Hard\""),
    }
}

fn push_meta(out: &mut String, m: &CardMetadata)
    ensures
        final(out)@ == old(out)@ + enc_meta(m@),
{
    let ghost start = out@;
    out.append("{\"difficulty\":");
    push_difficulty(out, &m.difficulty);
    out.append(",\"times_reviewed\":");
    push_u32(out, m.times_reviewed);
    out.append(",\"correct_count\":");
    push_u32(out, m.correct_count);
    out.append(",\"last_reviewed\":");
    match &m.last_reviewed {
        Some(d) => push_quoted(out, d.as_str()),
        None => out.append("null"),
    }
    out.append("}");
    proof {
        assert(out@ =~= start + enc_meta(m@));
    }
}

fn push_card(out: &mut String, c: &Flashcard)
    ensures
        final(out)@ == old(out)@ + enc_card(c@),
{
    let ghost start = out@;
    out.append("{\"id\":");
    push_u32(out, c.id);
    out.append(",\"question\":");
    push_quoted(out, c.question.as_str());
    out.append(",\"answer\":");
    push_quoted(out, c.answer.as_str());
    out.append(",\"metadata\":");
    push_meta(out, &c.metadata);
    out.append("}");
    proof {
        assert(out@ =~= start + enc_card(c@));
    }
}

/// Appending an entry to a non-empty table costs one comma; the first
/// entry stands alone.
proof fn lemma_enc_entries_snoc(cs: Seq<CardView>, c: CardView)
    ensures
        cs.len() == 0 ==> enc_entries(cs.push(c)) == enc_entry(c),
        cs.len() > 0 ==> enc_entries(cs.push(c)) == enc_entries(cs) + seq![','] + enc_entry(c),
    decreases cs.len(),
{
    if cs.len() == 0 {
        assert(cs.push(c)[0] == c);
        assert(enc_entries(cs.push(c)) == enc_entry(c));
    } else {
        assert(cs.push(c).drop_first() =~= cs.drop_first().push(c));
        lemma_enc_entries_snoc(cs.drop_first(), c);
        if cs.len() == 1 {
            assert(enc_entries(cs.push(c)) =~= enc_entries(cs) + seq![','] + enc_entry(c));
        } else {
            assert(enc_entries(cs.push(c)) =~= enc_entries(cs) + seq![','] + enc_entry(c));
        }
    }
}

/// Writes the whole deck in the canonical form `enc_deck`.
pub fn save_string(deck: &FlashcardDeck) -> (r: String)
    ensures
        r@ == enc_deck(deck@),
{
    let mut out = String::new();
    out.append("{\"cards\":{");
    let n = deck.cards.len();
    let mut i: usize = 0;
    proof {
        assert(enc_entries(deck@.cards.take(0)) =~= Seq::<char>::empty());
        assert(out@ =~= "{\"cards\":{"@ + enc_entries(deck@.cards.take(0)));
    }
    while i < n
        invariant
            n == deck.cards.len(),
            i <= n,
            out@ == "{\"cards\":{"@ + enc_entries(deck@.cards.take(i as int)),
        decreases n - i,
    {
        if i > 0 {
            push_char(&mut out, ',');
        }
        push_char(&mut out, '"');
        push_u32(&mut out, deck.cards[i].id);
        out.append("\":");
        push_card(&mut out, &deck.cards[i]);
        proof {
            lemma_enc_entries_snoc(deck@.cards.take(i as int), deck@.cards[i as int]);
            assert(deck@.cards.take(i as int + 1) =~= deck@.cards.take(i as int).push(
                deck@.cards[i as int],
            ));
            assert(out@ =~= "{\"cards\":{"@ + enc_entries(deck@.cards.take(i as int + 1)));
        }
        i += 1;
    }
    out.append("},\"next_id\":");
    push_u32(&mut out, deck.next_id);
    out.append("}");
    proof {
        assert(deck@.cards.take(n as int) =~= deck@.cards);
        assert(out@ =~= enc_deck(deck@));
    }
    out
}

// ---------------------------------------------------------------------
// The decoding, as spec functions. Each takes the text still to read
// and gives back the value and the text after it, or nothing when the
// text does not fit the format.
// ---------------------------------------------------------------------

pub open spec fn is_digit(c: char) -> bool {
    48 <= c as u32 <= 57
}

pub open spec fn digit_val(c: char) -> nat {
    (c as u32 - 48) as nat
}

/// Reading a fixed piece of text.
pub open spec fn dec_lit(s: Seq<char>, lit: Seq<char>) -> Option<Seq<char>> {
    if lit.is_prefix_of(s) {
        Some(s.skip(lit.len() as int))
    } else {
        None
    }
}

/// How many digits stand at the front.
pub open spec fn digit_prefix_len(s: Seq<char>) -> int
    decreases s.len(),
{
    if s.len() > 0 && is_digit(s[0]) {
        1 + digit_prefix_len(s.drop_first())
    } else {
        0
    }
}

/// The value of a digit string, most significant digit first.
pub open spec fn val_digits(ds: Seq<char>) -> nat
    decreases ds.len(),
{
    if ds.len() == 0 {
        0
    } else {
        val_digits(ds.drop_last()) * 10 + digit_val(ds.last())
    }
}

/// Reading a number: the maximal digit prefix, without leading zeros,
/// fitting a `u32`.
pub open spec fn dec_u32(s: Seq<char>) -> Option<(nat, Seq<char>)> {
    let k = digit_prefix_len(s);
    let ds = s.take(k);
    if k == 0 {
        None
    } else if k > 1 && ds[0] == '0' {
        None
    } else if k > 10 {
        None
    } else if val_digits(ds) > u32::MAX {
        None
    } else {
        Some((val_digits(ds), s.skip(k)))
    }
}

/// What the character after a backslash stands for.
pub open spec fn unesc_char(c: char) -> Option<char> {
    if c == '"' {
        Some('"')
    } else if c == '\\' {
        Some('\\')
    } else if c == 'n' {
        Some('\n')
    } else if c == 'r' {
        Some('\r')
    } else if c == 't' {
        Some('\t')
    } else {
        None
    }
}

/// Reading a quoted string's body after the opening quote.
pub open spec fn dec_str_body(s: Seq<char>, acc: Seq<char>) -> Option<(Seq<char>, Seq<char>)>
    decreases s.len(),
{
    if s.len() == 0 {
        None
    } else if s[0] == '"' {
        Some((acc, s.drop_first()))
    } else if s[0] == '\\' {
        if s.len() >= 2 {
            match unesc_char(s[1]) {
                Some(u) => dec_str_body(s.skip(2), acc.push(u)),
                None => None,
            }
        } else {
            None
        }
    } else {
        dec_str_body(s.drop_first(), acc.push(s[0]))
    }
}

pub open spec fn dec_str(s: Seq<char>) -> Option<(Seq<char>, Seq<char>)> {
    if s.len() > 0 && s[0] == '"' {
        dec_str_body(s.drop_first(), Seq::empty())
    } else {
        None
    }
}

pub open spec fn dec_diff(s: Seq<char>) -> Option<(Difficulty, Seq<char>)> {
    if "\"Easy\""@.is_prefix_of(s) {
        Some((Difficulty::Easy, s.skip("\"Easy\""@.len() as int)))
    } else if "\"Medium\""@.is_prefix_of(s) {
        Some((Difficulty::Medium, s.skip("\"Medium\""@.len() as int)))
    } else if "\"Hard\""@.is_prefix_of(s) {
        Some((Difficulty::Hard, s.skip("\"Hard\""@.len() as int)))
    } else {
        None
    }
}

pub open spec fn dec_last_reviewed(s: Seq<char>) -> Option<(Option<Seq<char>>, Seq<char>)> {
    if "null"@.is_prefix_of(s) {
        Some((None, s.skip("null"@.len() as int)))
    } else {
        match dec_str(s) {
            Some((v, r)) => Some((Some(v), r)),
            None => None,
        }
    }
}

pub open spec fn dec_meta(s: Seq<char>) -> Option<(MetaView, Seq<char>)> {
    match dec_lit(s, "{\"difficulty\":"@) {
        None => None,
        Some(s1) => match dec_diff(s1) {
            None => None,
            Some((d, s2)) => match dec_lit(s2, ",\"times_reviewed\":"@) {
                None => None,
                Some(s3) => match dec_u32(s3) {
                    None => None,
                    Some((tr, s4)) => match dec_lit(s4, ",\"correct_count\":"@) {
                        None => None,
                        Some(s5) => match dec_u32(s5) {
                            None => None,
                            Some((cc, s6)) => match dec_lit(s6, ",\"last_reviewed\":"@) {
                                None => None,
                                Some(s7) => match dec_last_reviewed(s7) {
                                    None => None,
                                    Some((lr, s8)) => match dec_lit(s8, "}"@) {
                                        None => None,
                                        Some(s9) => Some(
                                            (
                                                MetaView {
                                                    difficulty: d,
                                                    times_reviewed: tr,
                                                    correct_count: cc,
                                                    last_reviewed: lr,
                                                },
                                                s9,
                                            ),
                                        ),
                                    },
                                },
                            },
                        },
                    },
                },
            },
        },
    }
}

pub open spec fn dec_card(s: Seq<char>) -> Option<(CardView, Seq<char>)> {
    match dec_lit(s, "{\"id\":"@) {
        None => None,
        Some(s1) => match dec_u32(s1) {
            None => None,
            Some((id, s2)) => match dec_lit(s2, ",\"question\":"@) {
                None => None,
                Some(s3) => match dec_str(s3) {
                    None => None,
                    Some((q, s4)) => match dec_lit(s4, ",\"answer\":"@) {
                        None => None,
                        Some(s5) => match dec_str(s5) {
                            None => None,
                            Some((a, s6)) => match dec_lit(s6, ",\"metadata\":"@) {
                                None => None,
                                Some(s7) => match dec_meta(s7) {
                                    None => None,
                                    Some((m, s8)) => match dec_lit(s8, "}"@) {
                                        None => None,
                                        Some(s9) => Some(
                                            (
                                                CardView {
                                                    id,
                                                    question: q,
                                                    answer: a,
                                                    metadata: m,
                                                },
                                                s9,
                                            ),
                                        ),
                                    },
                                },
                            },
                        },
                    },
                },
            },
        },
    }
}

/// Reading one table entry: the key must repeat the card's id.
pub open spec fn dec_entry(s: Seq<char>) -> Option<(CardView, Seq<char>)> {
    match dec_lit(s, "\""@) {
        None => None,
        Some(s1) => match dec_u32(s1) {
            None => None,
            Some((key, s2)) => match dec_lit(s2, "\":"@) {
                None => None,
                Some(s3) => match dec_card(s3) {
                    None => None,
                    Some((c, s4)) => if c.id == key {
                        Some((c, s4))
                    } else {
                        None
                    },
                },
            },
        },
    }
}

/// Reading the entries until the closing brace, which stays unread.
pub open spec fn dec_entries(s: Seq<char>) -> Option<(Seq<CardView>, Seq<char>)>
    decreases s.len(),
{
    if s.len() > 0 && s[0] == '}' {
        Some((Seq::empty(), s))
    } else {
        match dec_entry(s) {
            None => None,
            Some((c, r)) => if r.len() > 0 && r[0] == ',' {
                let r2 = r.drop_first();
                if r2.len() < s.len() {
                    match dec_entries(r2) {
                        None => None,
                        Some((cs, r3)) => if cs.len() > 0 {
                            Some((seq![c] + cs, r3))
                        } else {
                            None
                        },
                    }
                } else {
                    None
                }
            } else {
                Some((seq![c], r))
            },
        }
    }
}

pub open spec fn dec_deck(s: Seq<char>) -> Option<(DeckView, Seq<char>)> {
    match dec_lit(s, "{\"cards\":{"@) {
        None => None,
        Some(s1) => match dec_entries(s1) {
            None => None,
            Some((cs, s2)) => match dec_lit(s2, "},\"next_id\":"@) {
                None => None,
                Some(s3) => match dec_u32(s3) {
                    None => None,
                    Some((nid, s4)) => match dec_lit(s4, "}"@) {
                        None => None,
                        Some(s5) => Some((DeckView { cards: cs, next_id: nid }, s5)),
                    },
                },
            },
        },
    }
}

/// What loading a document gives: the deck it encodes, when the whole
/// text is one well-formed deck in the canonical form, else nothing.
pub open spec fn spec_load(s: Seq<char>) -> Option<DeckView> {
    match dec_deck(s) {
        Some((d, r)) => if r.len() == 0 && d.wf() {
            Some(d)
        } else {
            None
        },
        None => None,
    }
}

// ---------------------------------------------------------------------
// The verified reader. Each function reads from position `i` of the
// character vector and answers exactly as the spec decoder does on the
// text from `i` on.
// ---------------------------------------------------------------------

/// The text's characters, one by one.
fn chars_of(s: &str) -> (v: Vec<char>)
    ensures
        v@ == s@,
{
    let n = s.unicode_len();
    let mut v: Vec<char> = Vec::new();
    let mut i: usize = 0;
    while i < n
        invariant
            n == s@.len(),
            i <= n,
            v@ =~= s@.take(i as int),
        decreases n - i,
    {
        v.push(s.get_char(i));
        proof {
            assert(v@ =~= s@.take(i as int + 1));
        }
        i += 1;
    }
    proof {
        assert(s@.take(n as int) =~= s@);
    }
    v
}

fn parse_lit(v: &Vec<char>, i: usize, lit: &str) -> (r: Option<usize>)
    requires
        i <= v@.len(),
    ensures
        match r {
            Some(j) => i <= j <= v@.len() && j - i == lit@.len() && dec_lit(
                v@.skip(i as int),
                lit@,
            ) == Some(v@.skip(j as int)),
            None => dec_lit(v@.skip(i as int), lit@) is None,
        },
{
    let m = lit.unicode_len();
    let n = v.len();
    if n - i < m {
        proof {
            assert(!lit@.is_prefix_of(v@.skip(i as int)));
        }
        return None;
    }
    let mut k: usize = 0;
    while k < m
        invariant
            n == v@.len(),
            m == lit@.len(),
            i + m <= n,
            k <= m,
            forall|t: int| 0 <= t < k ==> v@[i + t] == lit@[t],
        decreases m - k,
    {
        if v[i + k] != lit.get_char(k) {
            proof {
                assert(v@.skip(i as int)[k as int] == v@[i + k]);
                assert(!lit@.is_prefix_of(v@.skip(i as int)));
            }
            return None;
        }
        k += 1;
    }
    proof {
        assert(lit@ =~= v@.skip(i as int).subrange(0, m as int));
        assert(lit@.is_prefix_of(v@.skip(i as int)));
        assert(v@.skip(i as int).skip(m as int) =~= v@.skip(i as int + m as int));
    }
    Some(i + m)
}

fn is_digit_char(c: char) -> (b: bool)
    ensures
        b == is_digit(c),
{
    let u = c as u32;
    48 <= u && u <= 57
}

pub open spec fn pow10(k: nat) -> nat
    decreases k,
{
    if k == 0 {
        1
    } else {
        10 * pow10((k - 1) as nat)
    }
}

proof fn lemma_pow10_le(a: nat, b: nat)
    requires
        a <= b,
    ensures
        pow10(a) <= pow10(b),
    decreases b,
{
    if a < b {
        lemma_pow10_le(a, (b - 1) as nat);
    }
}

/// A digit string's value stays under one power of ten per digit.
proof fn lemma_val_digits_bound(ds: Seq<char>)
    requires
        forall|t: int| 0 <= t < ds.len() ==> is_digit(#[trigger] ds[t]),
    ensures
        val_digits(ds) < pow10(ds.len() as nat),
    decreases ds.len(),
{
    if ds.len() > 0 {
        lemma_val_digits_bound(ds.drop_last());
        assert(digit_val(ds.last()) <= 9);
    }
}

fn parse_u32(v: &Vec<char>, i: usize) -> (r: Option<(u32, usize)>)
    requires
        i <= v@.len(),
    ensures
        match r {
            Some((x, j)) => i <= j <= v@.len() && dec_u32(v@.skip(i as int)) == Some(
                (x as nat, v@.skip(j as int)),
            ),
            None => dec_u32(v@.skip(i as int)) is None,
        },
{
    let n = v.len();
    let mut k: usize = i;
    while k < n && is_digit_char(v[k])
        invariant
            i <= k <= n,
            n == v@.len(),
            forall|t: int| i <= t < k ==> is_digit(#[trigger] v@[t]),
            digit_prefix_len(v@.skip(i as int)) == k - i + digit_prefix_len(v@.skip(k as int)),
        decreases n - k,
    {
        proof {
            assert(v@.skip(k as int)[0] == v@[k as int]);
            assert(v@.skip(k as int).drop_first() =~= v@.skip(k as int + 1));
        }
        k += 1;
    }
    proof {
        if k < n {
            assert(v@.skip(k as int)[0] == v@[k as int]);
        }
        assert(digit_prefix_len(v@.skip(k as int)) == 0);
        assert(digit_prefix_len(v@.skip(i as int)) == k - i);
        assert(v@.skip(i as int).take(k - i) =~= v@.subrange(i as int, k as int));
    }
    let klen = k - i;
    if klen == 0 {
        return None;
    }
    if klen > 1 && v[i] == '0' {
        proof {
            assert(v@.subrange(i as int, k as int)[0] == v@[i as int]);
        }
        return None;
    }
    if klen > 10 {
        return None;
    }
    let ghost ds = v@.subrange(i as int, k as int);
    let mut acc: u64 = 0;
    let mut t: usize = i;
    proof {
        assert(v@.subrange(i as int, i as int) =~= Seq::<char>::empty());
        reveal_with_fuel(pow10, 11);
    }
    while t < k
        invariant
            i <= t <= k,
            k <= n,
            n == v@.len(),
            k - i <= 10,
            forall|q: int| i <= q < k ==> is_digit(#[trigger] v@[q]),
            acc == val_digits(v@.subrange(i as int, t as int)),
            acc < 10000000000,
        decreases k - t,
    {
        let c = v[t];
        proof {
            assert(is_digit(v@[t as int]));
            let prefix = v@.subrange(i as int, t as int);
            let part = v@.subrange(i as int, t as int + 1);
            assert(part.drop_last() =~= prefix);
            assert(part.last() == v@[t as int]);
            assert forall|q: int| 0 <= q < prefix.len() implies is_digit(
                #[trigger] prefix[q],
            ) by {
                assert(prefix[q] == v@[i + q]);
            }
            lemma_val_digits_bound(prefix);
            lemma_pow10_le(prefix.len() as nat, 9);
            reveal_with_fuel(pow10, 11);
            assert(pow10(9) == 1000000000);
            assert(acc < 1000000000);
            assert(val_digits(part) == val_digits(prefix) * 10 + digit_val(v@[t as int]));
        }
        acc = acc * 10 + ((c as u32) - 48) as u64;
        t += 1;
    }
    proof {
        assert(acc == val_digits(ds));
    }
    if acc > 0xFFFF_FFFFu64 {
        return None;
    }
    proof {
        assert(v@.skip(i as int).skip(klen as int) =~= v@.skip(k as int));
    }
    Some((acc as u32, k))
}

fn parse_str_body(v: &Vec<char>, i: usize, acc: String) -> (r: Option<(String, usize)>)
    requires
        i <= v@.len(),
    ensures
        match r {
            Some((x, j)) => i <= j <= v@.len() && dec_str_body(v@.skip(i as int), acc@) == Some(
                (x@, v@.skip(j as int)),
            ),
            None => dec_str_body(v@.skip(i as int), acc@) is None,
        },
    decreases v@.len() - i,
{
    if i >= v.len() {
        return None;
    }
    let c = v[i];
    proof {
        assert(v@.skip(i as int)[0] == v@[i as int]);
    }
    if c == '"' {
        proof {
            assert(v@.skip(i as int).drop_first() =~= v@.skip(i as int + 1));
        }
        return Some((acc, i + 1));
    }
    if c == '\\' {
        if i + 1 < v.len() {
            let e = v[i + 1];
            proof {
                assert(v@.skip(i as int)[1] == v@[i as int + 1]);
                assert(v@.skip(i as int).skip(2) =~= v@.skip(i as int + 2));
            }
            let u = match e {
                '"' => Some('"'),
                '\\' => Some('\\'),
                'n' => Some('\n'),
                'r' => Some('\r'),
                't' => Some('\t'),
                _ => None,
            };
            proof {
                assert(u == unesc_char(e));
            }
            match u {
                Some(uc) => {
                    let mut acc2 = acc;
                    push_char(&mut acc2, uc);
                    parse_str_body(v, i + 2, acc2)
                },
                None => None,
            }
        } else {
            None
        }
    } else {
        let mut acc2 = acc;
        push_char(&mut acc2, c);
        proof {
            assert(v@.skip(i as int).drop_first() =~= v@.skip(i as int + 1));
        }
        parse_str_body(v, i + 1, acc2)
    }
}

fn parse_quoted(v: &Vec<char>, i: usize) -> (r: Option<(String, usize)>)
    requires
        i <= v@.len(),
    ensures
        match r {
            Some((x, j)) => i <= j <= v@.len() && dec_str(v@.skip(i as int)) == Some(
                (x@, v@.skip(j as int)),
            ),
            None => dec_str(v@.skip(i as int)) is None,
        },
{
    if i < v.len() && v[i] == '"' {
        proof {
            assert(v@.skip(i as int)[0] == v@[i as int]);
            assert(v@.skip(i as int).drop_first() =~= v@.skip(i as int + 1));
        }
        parse_str_body(v, i + 1, String::new())
    } else {
        proof {
            if i < v.len() {
                assert(v@.skip(i as int)[0] == v@[i as int]);
            }
        }
        None
    }
}

fn parse_difficulty(v: &Vec<char>, i: usize) -> (r: Option<(Difficulty, usize)>)
    requires
        i <= v@.len(),
    ensures
        match r {
            Some((d, j)) => i <= j <= v@.len() && dec_diff(v@.skip(i as int)) == Some(
                (d, v@.skip(j as int)),
            ),
            None => dec_diff(v@.skip(i as int)) is None,
        },
{
    if let Some(j) = parse_lit(v, i, "\"Easy\"") {
        return Some((Difficulty::Easy, j));
    }
    if let Some(j) = parse_lit(v, i, "\"Medium\"") {
        return Some((Difficulty::Medium, j));
    }
    if let Some(j) = parse_lit(v, i, "\"Hard\"") {
        return Some((Difficulty::Hard, j));
    }
    None
}

fn parse_last_reviewed(v: &Vec<char>, i: usize) -> (r: Option<(Option<String>, usize)>)
    requires
        i <= v@.len(),
    ensures
        match r {
            Some((o, j)) => i <= j <= v@.len() && ({
                let oo = match o {
                    Some(x) => Some(x@),
                    None => None,
                };
                dec_last_reviewed(v@.skip(i as int)) == Some((oo, v@.skip(j as int)))
            }),
            None => dec_last_reviewed(v@.skip(i as int)) is None,
        },
{
    if let Some(j) = parse_lit(v, i, "null") {
        return Some((None, j));
    }
    match parse_quoted(v, i) {
        Some((x, j)) => Some((Some(x), j)),
        None => None,
    }
}

fn parse_meta(v: &Vec<char>, i: usize) -> (r: Option<(CardMetadata, usize)>)
    requires
        i <= v@.len(),
    ensures
        match r {
            Some((m, j)) => i <= j <= v@.len() && dec_meta(v@.skip(i as int)) == Some(
                (m@, v@.skip(j as int)),
            ),
            None => dec_meta(v@.skip(i as int)) is None,
        },
{
    let j1 = match parse_lit(v, i, "{\"difficulty\":") {
        Some(j) => j,
        None => return None,
    };
    let (difficulty, j2) = match parse_difficulty(v, j1) {
        Some(x) => x,
        None => return None,
    };
    let j3 = match parse_lit(v, j2, ",\"times_reviewed\":") {
        Some(j) => j,
        None => return None,
    };
    let (times_reviewed, j4) = match parse_u32(v, j3) {
        Some(x) => x,
        None => return None,
    };
    let j5 = match parse_lit(v, j4, ",\"correct_count\":") {
        Some(j) => j,
        None => return None,
    };
    let (correct_count, j6) = match parse_u32(v, j5) {
        Some(x) => x,
        None => return None,
    };
    let j7 = match parse_lit(v, j6, ",\"last_reviewed\":") {
        Some(j) => j,
        None => return None,
    };
    let (last_reviewed, j8) = match parse_last_reviewed(v, j7) {
        Some(x) => x,
        None => return None,
    };
    let j9 = match parse_lit(v, j8, "}") {
        Some(j) => j,
        None => return None,
    };
    Some((CardMetadata { difficulty, times_reviewed, correct_count, last_reviewed }, j9))
}

fn parse_card(v: &Vec<char>, i: usize) -> (r: Option<(Flashcard, usize)>)
    requires
        i <= v@.len(),
    ensures
        match r {
            Some((c, j)) => i <= j <= v@.len() && dec_card(v@.skip(i as int)) == Some(
                (c@, v@.skip(j as int)),
            ),
            None => dec_card(v@.skip(i as int)) is None,
        },
{
    let j1 = match parse_lit(v, i, "{\"id\":") {
        Some(j) => j,
        None => return None,
    };
    let (id, j2) = match parse_u32(v, j1) {
        Some(x) => x,
        None => return None,
    };
    let j3 = match parse_lit(v, j2, ",\"question\":") {
        Some(j) => j,
        None => return None,
    };
    let (question, j4) = match parse_quoted(v, j3) {
        Some(x) => x,
        None => return None,
    };
    let j5 = match parse_lit(v, j4, ",\"answer\":") {
        Some(j) => j,
        None => return None,
    };
    let (answer, j6) = match parse_quoted(v, j5) {
        Some(x) => x,
        None => return None,
    };
    let j7 = match parse_lit(v, j6, ",\"metadata\":") {
        Some(j) => j,
        None => return None,
    };
    let (metadata, j8) = match parse_meta(v, j7) {
        Some(x) => x,
        None => return None,
    };
    let j9 = match parse_lit(v, j8, "}") {
        Some(j) => j,
        None => return None,
    };
    Some((Flashcard { id, question, answer, metadata }, j9))
}

fn parse_entry(v: &Vec<char>, i: usize) -> (r: Option<(Flashcard, usize)>)
    requires
        i <= v@.len(),
    ensures
        match r {
            Some((c, j)) => i < j <= v@.len() && dec_entry(v@.skip(i as int)) == Some(
                (c@, v@.skip(j as int)),
            ),
            None => dec_entry(v@.skip(i as int)) is None,
        },
{
    let j1 = match parse_lit(v, i, "\"") {
        Some(j) => j,
        None => return None,
    };
    let (key, j2) = match parse_u32(v, j1) {
        Some(x) => x,
        None => return None,
    };
    let j3 = match parse_lit(v, j2, "\":") {
        Some(j) => j,
        None => return None,
    };
    let (card, j4) = match parse_card(v, j3) {
        Some(x) => x,
        None => return None,
    };
    if card.id == key {
        proof {
            assert("\""@.len() == 1) by {
                reveal_strlit("\"");
            }
        }
        Some((card, j4))
    } else {
        None
    }
}

fn parse_entries(v: &Vec<char>, i: usize) -> (r: Option<(Vec<Flashcard>, usize)>)
    requires
        i <= v@.len(),
    ensures
        match r {
            Some((cs, j)) => i <= j <= v@.len() && dec_entries(v@.skip(i as int)) == Some(
                (cs@.map_values(|c: Flashcard| c@), v@.skip(j as int)),
            ),
            None => dec_entries(v@.skip(i as int)) is None,
        },
    decreases v@.len() - i,
{
    if i < v.len() && v[i] == '}' {
        let empty: Vec<Flashcard> = Vec::new();
        proof {
            assert(v@.skip(i as int)[0] == v@[i as int]);
            assert(empty@.map_values(|c: Flashcard| c@) =~= Seq::<CardView>::empty());
        }
        return Some((empty, i));
    }
    proof {
        if i < v.len() {
            assert(v@.skip(i as int)[0] == v@[i as int]);
        }
    }
    match parse_entry(v, i) {
        None => None,
        Some((c, j)) => {
            if j < v.len() && v[j] == ',' {
                proof {
                    assert(v@.skip(j as int)[0] == v@[j as int]);
                    assert(v@.skip(j as int).drop_first() =~= v@.skip(j as int + 1));
                    assert(v@.skip(j as int + 1).len() < v@.skip(i as int).len());
                }
                match parse_entries(v, j + 1) {
                    None => None,
                    Some((mut cs2, j2)) => {
                        if cs2.len() == 0 {
                            return None;
                        }
                        let ghost tail = cs2@;
                        cs2.insert(0, c);
                        proof {
                            assert(cs2@.map_values(|cc: Flashcard| cc@) =~= seq![c@]
                                + tail.map_values(|cc: Flashcard| cc@));
                        }
                        Some((cs2, j2))
                    },
                }
            } else {
                proof {
                    if j < v.len() {
                        assert(v@.skip(j as int)[0] == v@[j as int]);
                    }
                }
                let mut cs: Vec<Flashcard> = Vec::new();
                cs.push(c);
                proof {
                    assert(cs@.map_values(|cc: Flashcard| cc@) =~= seq![c@]);
                }
                Some((cs, j))
            }
        },
    }
}

/// The conditions of well-formedness on the cards alone.
pub open spec fn cards_ok(cs: Seq<CardView>, next_id: nat) -> bool {
    &&& forall|k: int| 0 <= k < cs.len() ==> (#[trigger] cs[k]).wf()
    &&& forall|k: int| 0 <= k < cs.len() ==> (#[trigger] cs[k]).id < next_id
    &&& forall|a: int, b: int|
        #![trigger cs[a].id, cs[b].id]
        0 <= a < b < cs.len() ==> cs[a].id < cs[b].id
}

fn check_cards(deck: &FlashcardDeck) -> (b: bool)
    ensures
        b == cards_ok(deck@.cards, deck@.next_id),
{
    let ghost cs = deck@.cards;
    let n = deck.cards.len();
    let mut i: usize = 0;
    while i < n
        invariant
            n == deck.cards.len(),
            cs == deck@.cards,
            cs.len() == n,
            i <= n,
            forall|k: int| 0 <= k < i ==> (#[trigger] cs[k]).wf(),
            forall|k: int| 0 <= k < i ==> (#[trigger] cs[k]).id < deck@.next_id,
            forall|a: int, b: int|
                #![trigger cs[a].id, cs[b].id]
                0 <= a < b < i ==> cs[a].id < cs[b].id,
        decreases n - i,
    {
        let card = &deck.cards[i];
        proof {
            assert(card@ == cs[i as int]);
        }
        if card.metadata.correct_count > card.metadata.times_reviewed {
            proof {
                assert(!cs[i as int].wf());
            }
            return false;
        }
        if card.id >= deck.next_id {
            return false;
        }
        if i > 0 {
            let prev = &deck.cards[i - 1];
            proof {
                assert(prev@ == cs[i as int - 1]);
            }
            if prev.id >= card.id {
                return false;
            }
            proof {
                assert forall|a: int| 0 <= a < i implies cs[a].id < cs[i as int].id by {
                    if a < i as int - 1 {
                        assert(cs[a].id < cs[i as int - 1].id);
                    }
                }
            }
        }
        i += 1;
    }
    true
}

/// Whether a parsed deck is well formed: generator at least 1, ids
/// strictly ascending and below the generator, counters consistent.
fn check_wf(deck: &FlashcardDeck) -> (b: bool)
    ensures
        b == deck@.wf(),
{
    let ok_cards = check_cards(deck);
    let ok = deck.next_id >= 1 && ok_cards;
    ok
}

/// Reads a whole document: the deck it encodes, when the text is one
/// well-formed deck in the canonical form, else nothing.
pub fn load_string(s: &str) -> (r: Option<FlashcardDeck>)
    ensures
        match r {
            Some(d) => spec_load(s@) == Some(d@) && d@.wf(),
            None => spec_load(s@) is None,
        },
{
    let v = chars_of(s);
    proof {
        assert(v@.skip(0) =~= s@);
    }
    let j1 = match parse_lit(&v, 0, "{\"cards\":{") {
        Some(j) => j,
        None => return None,
    };
    let (cards, j2) = match parse_entries(&v, j1) {
        Some(x) => x,
        None => return None,
    };
    let j3 = match parse_lit(&v, j2, "},\"next_id\":") {
        Some(j) => j,
        None => return None,
    };
    let (next_id, j4) = match parse_u32(&v, j3) {
        Some(x) => x,
        None => return None,
    };
    let j5 = match parse_lit(&v, j4, "}") {
        Some(j) => j,
        None => return None,
    };
    if j5 != v.len() {
        proof {
            assert(v@.skip(j5 as int).len() > 0);
        }
        return None;
    }
    let deck = FlashcardDeck { cards, next_id };
    if check_wf(&deck) {
        proof {
            assert(v@.skip(j5 as int).len() == 0);
            assert(deck@.cards == cards@.map_values(|c: Flashcard| c@));
        }
        Some(deck)
    } else {
        None
    }
}

// ---------------------------------------------------------------------
// The round trip: reading what was written gives the same deck back.
// ---------------------------------------------------------------------

proof fn lemma_dec_lit_exact(lit: Seq<char>, rest: Seq<char>)
    ensures
        dec_lit(lit + rest, lit) == Some(rest),
{
    assert((lit + rest).subrange(0, lit.len() as int) =~= lit);
    assert(lit.is_prefix_of(lit + rest));
    assert((lit + rest).skip(lit.len() as int) =~= rest);
}

proof fn lemma_char_of_digit(d: nat)
    requires
        d < 10,
    ensures
        is_digit(char_of_digit(d)),
        digit_val(char_of_digit(d)) == d,
        d > 0 ==> char_of_digit(d) != '0',
{
}

proof fn lemma_enc_u32_props(n: nat)
    ensures
        enc_u32(n).len() >= 1,
        forall|t: int| 0 <= t < enc_u32(n).len() ==> is_digit(#[trigger] enc_u32(n)[t]),
        n >= 10 ==> enc_u32(n).len() >= 2 && enc_u32(n)[0] != '0',
        n < 10 ==> enc_u32(n).len() == 1,
        val_digits(enc_u32(n)) == n,
    decreases n,
{
    if n < 10 {
        lemma_char_of_digit(n);
        assert(enc_u32(n) == seq![char_of_digit(n)]);
        assert(enc_u32(n).len() == 1);
        assert(enc_u32(n).last() == char_of_digit(n));
        assert(enc_u32(n).drop_last() =~= Seq::<char>::empty());
        assert(val_digits(Seq::<char>::empty()) == 0);
        assert(val_digits(enc_u32(n)) == digit_val(char_of_digit(n)));
    } else {
        lemma_enc_u32_props(n / 10);
        lemma_char_of_digit(n % 10);
        let e = enc_u32(n);
        let p = enc_u32(n / 10);
        assert(e == p.push(char_of_digit(n % 10)));
        assert(e[0] == p[0]);
        if n / 10 < 10 {
            lemma_char_of_digit(n / 10);
            assert(p[0] == char_of_digit(n / 10));
            assert(n / 10 >= 1);
        }
        assert(e.drop_last() =~= p);
        assert(e.last() == char_of_digit(n % 10));
        assert(val_digits(e) == val_digits(p) * 10 + (n % 10));
        assert(n / 10 * 10 + n % 10 == n);
    }
}

proof fn lemma_enc_u32_len(n: nat, k: nat)
    requires
        n < pow10(k),
        k >= 1,
    ensures
        enc_u32(n).len() <= k,
    decreases k,
{
    if n < 10 {
        lemma_enc_u32_props(n);
    } else {
        assert(pow10(k) == 10 * pow10((k - 1) as nat));
        if k == 1 {
            assert(pow10(0) == 1);
            assert(pow10(1) == 10);
            assert(false);
        }
        assert(n / 10 < pow10((k - 1) as nat)) by (nonlinear_arith)
            requires
                n < 10 * pow10((k - 1) as nat),
        ;
        lemma_enc_u32_len(n / 10, (k - 1) as nat);
    }
}

proof fn lemma_digit_prefix_concat(ds: Seq<char>, rest: Seq<char>)
    requires
        forall|t: int| 0 <= t < ds.len() ==> is_digit(#[trigger] ds[t]),
        rest.len() == 0 || !is_digit(rest[0]),
    ensures
        digit_prefix_len(ds + rest) == ds.len(),
    decreases ds.len(),
{
    if ds.len() == 0 {
        assert(ds + rest =~= rest);
    } else {
        assert((ds + rest)[0] == ds[0]);
        assert((ds + rest).drop_first() =~= ds.drop_first() + rest);
        lemma_digit_prefix_concat(ds.drop_first(), rest);
    }
}

/// Reading the decimal form of a number, with anything non-digit
/// after it, gives the number back.
proof fn lemma_dec_enc_u32(n: nat, rest: Seq<char>)
    requires
        n <= u32::MAX,
        rest.len() == 0 || !is_digit(rest[0]),
    ensures
        dec_u32(enc_u32(n) + rest) == Some((n, rest)),
{
    let e = enc_u32(n);
    let s = e + rest;
    lemma_enc_u32_props(n);
    lemma_digit_prefix_concat(e, rest);
    let k = digit_prefix_len(s);
    assert(k == e.len());
    assert(s.take(k) =~= e);
    reveal_with_fuel(pow10, 11);
    assert(pow10(10) == 10000000000);
    lemma_enc_u32_len(n, 10);
    assert(s.skip(k) =~= rest);
    if k > 1 {
        assert(n >= 10);
        assert(e[0] != '0');
    }
}

/// Reading an escaped string body, up to its closing quote, gives the
/// string back.
proof fn lemma_dec_str_body(s: Seq<char>, acc: Seq<char>, rest: Seq<char>)
    ensures
        dec_str_body(esc(s) + seq!['"'] + rest, acc) == Some((acc + s, rest)),
    decreases s.len(),
{
    let input = esc(s) + seq!['"'] + rest;
    if s.len() == 0 {
        assert(esc(s) == Seq::<char>::empty());
        assert(input[0] == '"');
        assert(input.drop_first() =~= rest);
        assert(acc + s =~= acc);
    } else {
        let c = s[0];
        let s2 = s.drop_first();
        assert(esc(s) == esc_char(c) + esc(s2));
        lemma_dec_str_body(s2, acc.push(c), rest);
        assert(acc.push(c) + s2 =~= acc + s);
        if c == '"' || c == '\\' || c == '\n' || c == '\r' || c == '\t' {
            let e = esc_char(c)[1];
            assert(esc_char(c).len() == 2 && esc_char(c)[0] == '\\');
            assert(input[0] == '\\');
            assert(input[1] == e);
            assert(unesc_char(e) == Some(c));
            assert(input.skip(2) =~= esc(s2) + seq!['"'] + rest);
        } else {
            assert(esc_char(c) =~= seq![c]);
            assert(input[0] == c);
            assert(input.drop_first() =~= esc(s2) + seq!['"'] + rest);
        }
    }
}

/// Reading a quoted string gives the string back.
proof fn lemma_dec_enc_str(s: Seq<char>, rest: Seq<char>)
    ensures
        dec_str(enc_str(s) + rest) == Some((s, rest)),
{
    let input = enc_str(s) + rest;
    assert(input[0] == '"');
    assert(input.drop_first() =~= esc(s) + seq!['"'] + rest);
    lemma_dec_str_body(s, Seq::empty(), rest);
    assert(Seq::<char>::empty() + s =~= s);
}

proof fn lemma_dec_enc_diff(d: Difficulty, rest: Seq<char>)
    ensures
        dec_diff(enc_diff(d) + rest) == Some((d, rest)),
{
    reveal_strlit("\"Easy\"");
    reveal_strlit("\"Medium\"");
    reveal_strlit("\"Hard\"");
    let s = enc_diff(d) + rest;
    match d {
        Difficulty::Easy => {
            lemma_dec_lit_exact("\"Easy\""@, rest);
            assert("\"Easy\""@.is_prefix_of(s));
            assert(s.skip(6) =~= rest);
        },
        Difficulty::Medium => {
            if "\"Easy\""@.is_prefix_of(s) {
                assert(s.subrange(0, 6)[1] == s[1]);
                assert(false);
            }
            lemma_dec_lit_exact("\"Medium\""@, rest);
            assert("\"Medium\""@.is_prefix_of(s));
            assert(s.skip(8) =~= rest);
        },
        Difficulty::Hard => {
            if "\"Easy\""@.is_prefix_of(s) {
                assert(s.subrange(0, 6)[1] == s[1]);
                assert(false);
            }
            if "\"Medium\""@.is_prefix_of(s) {
                assert(s.subrange(0, 8)[1] == s[1]);
                assert(false);
            }
            lemma_dec_lit_exact("\"Hard\""@, rest);
            assert("\"Hard\""@.is_prefix_of(s));
            assert(s.skip(6) =~= rest);
        },
    }
}

proof fn lemma_dec_enc_last(o: Option<Seq<char>>, rest: Seq<char>)
    ensures
        dec_last_reviewed(enc_last_reviewed(o) + rest) == Some((o, rest)),
{
    reveal_strlit("null");
    let s = enc_last_reviewed(o) + rest;
    match o {
        None => {
            lemma_dec_lit_exact("null"@, rest);
            assert("null"@.is_prefix_of(s));
            assert(s.skip(4) =~= rest);
        },
        Some(v) => {
            assert(s[0] == '"');
            if "null"@.is_prefix_of(s) {
                assert(s.subrange(0, 4)[0] == s[0]);
                assert(false);
            }
            lemma_dec_enc_str(v, rest);
        },
    }
}

/// Reading an encoded metadata object gives the metadata back.
#[verifier::rlimit(100)]
proof fn lemma_dec_enc_meta(m: MetaView, rest: Seq<char>)
    requires
        m.times_reviewed <= u32::MAX,
        m.correct_count <= u32::MAX,
    ensures
        dec_meta(enc_meta(m) + rest) == Some((m, rest)),
{
    reveal_strlit("{\"difficulty\":");
    reveal_strlit(",\"times_reviewed\":");
    reveal_strlit(",\"correct_count\":");
    reveal_strlit(",\"last_reviewed\":");
    reveal_strlit("}");
    let x5 = "}"@ + rest;
    let x4 = enc_last_reviewed(m.last_reviewed) + x5;
    let x3 = ",\"last_reviewed\":"@ + x4;
    let x2b = enc_u32(m.correct_count) + x3;
    let x2 = ",\"correct_count\":"@ + x2b;
    let x1b = enc_u32(m.times_reviewed) + x2;
    let x1 = ",\"times_reviewed\":"@ + x1b;
    let x0b = enc_diff(m.difficulty) + x1;
    let s = enc_meta(m) + rest;
    assert(s =~= "{\"difficulty\":"@ + x0b);
    lemma_dec_lit_exact("{\"difficulty\":"@, x0b);
    lemma_dec_enc_diff(m.difficulty, x1);
    lemma_dec_lit_exact(",\"times_reviewed\":"@, x1b);
    assert(x1b[0] == enc_u32(m.times_reviewed)[0] || x1b.len() == 0) by {
        lemma_enc_u32_props(m.times_reviewed);
    }
    assert(!is_digit(x2[0]));
    lemma_dec_enc_u32(m.times_reviewed, x2);
    lemma_dec_lit_exact(",\"correct_count\":"@, x2b);
    assert(!is_digit(x3[0]));
    lemma_dec_enc_u32(m.correct_count, x3);
    lemma_dec_lit_exact(",\"last_reviewed\":"@, x4);
    lemma_dec_enc_last(m.last_reviewed, x5);
    lemma_dec_lit_exact("}"@, rest);
}

/// Reading an encoded card gives the card back.
proof fn lemma_dec_enc_card(c: CardView, rest: Seq<char>)
    requires
        c.id <= u32::MAX,
        c.metadata.times_reviewed <= u32::MAX,
        c.metadata.correct_count <= u32::MAX,
    ensures
        dec_card(enc_card(c) + rest) == Some((c, rest)),
{
    reveal_strlit("{\"id\":");
    reveal_strlit(",\"question\":");
    reveal_strlit(",\"answer\":");
    reveal_strlit(",\"metadata\":");
    reveal_strlit("}");
    let x5 = "}"@ + rest;
    let x4 = enc_meta(c.metadata) + x5;
    let x3b = ",\"metadata\":"@ + x4;
    let x3 = enc_str(c.answer) + x3b;
    let x2b = ",\"answer\":"@ + x3;
    let x2 = enc_str(c.question) + x2b;
    let x1b = ",\"question\":"@ + x2;
    let x1 = enc_u32(c.id) + x1b;
    let s = enc_card(c) + rest;
    assert(s =~= "{\"id\":"@ + x1);
    lemma_dec_lit_exact("{\"id\":"@, x1);
    assert(!is_digit(x1b[0]));
    lemma_dec_enc_u32(c.id, x1b);
    lemma_dec_lit_exact(",\"question\":"@, x2);
    lemma_dec_enc_str(c.question, x2b);
    lemma_dec_lit_exact(",\"answer\":"@, x3);
    lemma_dec_enc_str(c.answer, x3b);
    lemma_dec_lit_exact(",\"metadata\":"@, x4);
    lemma_dec_enc_meta(c.metadata, x5);
    lemma_dec_lit_exact("}"@, rest);
}

/// Reading an encoded table entry gives the card back.
proof fn lemma_dec_enc_entry(c: CardView, rest: Seq<char>)
    requires
        c.id <= u32::MAX,
        c.metadata.times_reviewed <= u32::MAX,
        c.metadata.correct_count <= u32::MAX,
    ensures
        dec_entry(enc_entry(c) + rest) == Some((c, rest)),
{
    reveal_strlit("\"");
    reveal_strlit("\":");
    let x2 = enc_card(c) + rest;
    let x1b = "\":"@ + x2;
    let x1 = enc_u32(c.id) + x1b;
    let s = enc_entry(c) + rest;
    assert("\""@ =~= seq!['"']);
    assert(s =~= "\""@ + x1);
    lemma_dec_lit_exact("\""@, x1);
    assert(!is_digit(x1b[0]));
    lemma_dec_enc_u32(c.id, x1b);
    lemma_dec_lit_exact("\":"@, x2);
    lemma_dec_enc_card(c, rest);
}

/// Reading an encoded table, up to the closing brace, gives the cards
/// back.
#[verifier::rlimit(100)]
proof fn lemma_dec_enc_entries(cs: Seq<CardView>, rest: Seq<char>)
    requires
        rest.len() > 0,
        rest[0] == '}',
        forall|i: int| 0 <= i < cs.len() ==> {
            let c = #[trigger] cs[i];
            &&& c.id <= u32::MAX
            &&& c.metadata.times_reviewed <= u32::MAX
            &&& c.metadata.correct_count <= u32::MAX
        },
    ensures
        dec_entries(enc_entries(cs) + rest) == Some((cs, rest)),
    decreases cs.len(),
{
    let s = enc_entries(cs) + rest;
    if cs.len() == 0 {
        assert(s =~= rest);
        assert(dec_entries(s) == Some((Seq::<CardView>::empty(), s)));
        assert(Seq::<CardView>::empty() =~= cs);
    } else if cs.len() == 1 {
        assert(s =~= enc_entry(cs[0]) + rest);
        assert(s[0] == '"') by {
            assert(enc_entry(cs[0])[0] == '"');
        }
        lemma_dec_enc_entry(cs[0], rest);
        assert(seq![cs[0]] =~= cs);
    } else {
        let cs2 = cs.drop_first();
        let r1 = seq![','] + enc_entries(cs2) + rest;
        assert(s =~= enc_entry(cs[0]) + r1);
        assert(s[0] == '"') by {
            assert(enc_entry(cs[0])[0] == '"');
        }
        lemma_dec_enc_entry(cs[0], r1);
        assert(r1[0] == ',');
        let r2 = r1.drop_first();
        assert(r2 =~= enc_entries(cs2) + rest);
        assert(r2.len() < s.len());
        assert forall|i: int| 0 <= i < cs2.len() implies {
            let c = #[trigger] cs2[i];
            &&& c.id <= u32::MAX
            &&& c.metadata.times_reviewed <= u32::MAX
            &&& c.metadata.correct_count <= u32::MAX
        } by {
            assert(cs2[i] == cs[i + 1]);
        }
        lemma_dec_enc_entries(cs2, rest);
        assert(cs2.len() > 0);
        assert(seq![cs[0]] + cs2 =~= cs);
    }
}

/// Law: loading what was saved gives every deck back unchanged, field
/// by field, cards and id generator alike.
pub proof fn lemma_round_trip(d: DeckView)
    requires
        d.wf(),
        d.fits_u32(),
    ensures
        spec_load(enc_deck(d)) == Some(d),
{
    reveal_strlit("{\"cards\":{");
    reveal_strlit("},\"next_id\":");
    reveal_strlit("}");
    let x3 = "}"@;
    let x2b = enc_u32(d.next_id) + x3;
    let x2 = "},\"next_id\":"@ + x2b;
    let x1 = enc_entries(d.cards) + x2;
    let s = enc_deck(d);
    assert(s =~= "{\"cards\":{"@ + x1);
    lemma_dec_lit_exact("{\"cards\":{"@, x1);
    assert(x2[0] == '}');
    lemma_dec_enc_entries(d.cards, x2);
    lemma_dec_lit_exact("},\"next_id\":"@, x2b);
    assert(!is_digit(x3[0]));
    lemma_dec_enc_u32(d.next_id, x3);
    assert(dec_lit(x3, "}"@) == Some(x3.skip(1)));
    assert(x3.skip(1) =~= Seq::<char>::empty());
    assert(dec_deck(s) == Some((DeckView { cards: d.cards, next_id: d.next_id }, x3.skip(1))));
    assert(DeckView { cards: d.cards, next_id: d.next_id } == d);
}

} // verus!
