//! Decks of flashcards, built with genanki.
//!
//! A deck is opaque here; what the contracts speak of is its title and the
//! fields of its notes, in the order they were added.

use vstd::prelude::*;
use crate::card::Card;
use crate::deck::{deck_name, deck_name_of};
use crate::text::{chars_of, push_all, string_of};

verus! {

#[verifier::external_type_specification]
#[verifier::external_body]
pub struct ExDeck(genanki_rs::Deck);

#[verifier::external_type_specification]
#[verifier::external_body]
pub struct ExNote(genanki_rs::Note);

#[verifier::external_type_specification]
#[verifier::external_body]
pub struct ExModel(genanki_rs::Model);

#[verifier::external_type_specification]
#[verifier::external_body]
pub struct ExAnkiError(genanki_rs::Error);

/// The fields of each note of a deck, in the order they were added.
pub uninterp spec fn deck_notes(d: genanki_rs::Deck) -> Seq<Seq<Seq<char>>>;

/// The name a deck was made with.
pub uninterp spec fn deck_title(d: genanki_rs::Deck) -> Seq<char>;

/// The fields a note holds, in order.
pub uninterp spec fn note_fields(n: genanki_rs::Note) -> Seq<Seq<char>>;

/// The names of a note model's fields, in order.
pub uninterp spec fn model_fields(m: genanki_rs::Model) -> Seq<Seq<char>>;

/// A non-empty name of ASCII letters, digits and underscores.
pub open spec fn is_word_name(s: Seq<char>) -> bool {
    s.len() > 0 && forall|i: int|
        0 <= i < s.len() ==> {
            let c = #[trigger] s[i];
            ('0' <= c && c <= '9') || ('a' <= c && c <= 'z') || ('A' <= c && c <= 'Z') || c == '_'
        }
}

/// The question format of a model's one template.
pub uninterp spec fn model_question_format(m: genanki_rs::Model) -> Seq<char>;

/// Whether genanki refuses every note of the model: its templates do not say
/// which fields a card needs.
pub uninterp spec fn model_rejects(m: genanki_rs::Model) -> bool;

/// The id a deck was made with.
pub uninterp spec fn deck_id(d: genanki_rs::Deck) -> i64;

/// The longest question format that notes are checked against.
pub const MAX_QUESTION_FORMAT: usize = 256;

/// A model that notes of two fields can be made of: at most two fields, each
/// named by a word, and a question format short enough for genanki's field
/// pattern search to stay within its bound.
pub open spec fn fits_two_fields(m: genanki_rs::Model) -> bool {
    &&& model_fields(m).len() <= 2
    &&& forall|i: int|
        0 <= i < model_fields(m).len() ==> is_word_name(#[trigger] model_fields(m)[i])
    &&& model_question_format(m).len() <= MAX_QUESTION_FORMAT
}

/// Relies on `genanki_rs::Model::new`: a front/back model with the two named
/// fields and one template of the given question and answer formats.
#[verifier::external_body]
fn new_model(
    id: i64,
    name: &str,
    question: &str,
    answer: &str,
    template: &str,
    qfmt: &str,
    afmt: &str,
) -> (r: genanki_rs::Model)
    ensures
        model_fields(r) == seq![question@, answer@],
        model_question_format(r) == qfmt@,
{
    genanki_rs::Model::new(
        id,
        name,
        vec![genanki_rs::Field::new(question), genanki_rs::Field::new(answer)],
        vec![genanki_rs::Template::new(template).qfmt(qfmt).afmt(afmt)],
    )
}

/// Relies on `genanki_rs::Model::css`: the same model with the style sheet set.
#[verifier::external_body]
fn with_css(m: genanki_rs::Model, css: &str) -> (r: genanki_rs::Model)
    ensures
        model_fields(r) == model_fields(m),
        model_question_format(r) == model_question_format(m),
        model_rejects(r) == model_rejects(m),
{
    m.css(css)
}

/// Relies on `genanki_rs::Deck::new`: a deck with the given id and name and
/// no notes.
#[verifier::external_body]
fn new_deck(id: i64, name: &str, description: &str) -> (r: genanki_rs::Deck)
    ensures
        deck_notes(r) == Seq::<Seq<Seq<char>>>::empty(),
        deck_title(r) == name@,
        deck_id(r) == id,
{
    genanki_rs::Deck::new(id, name, description)
}

/// Relies on `genanki_rs::Deck::add_note`: the note goes after the others.
#[verifier::external_body]
fn add_note(d: &mut genanki_rs::Deck, n: genanki_rs::Note)
    ensures
        deck_notes(*final(d)) == deck_notes(*old(d)).push(note_fields(n)),
        deck_title(*final(d)) == deck_title(*old(d)),
        deck_id(*final(d)) == deck_id(*old(d)),
{
    d.add_note(n)
}

/// Relies on `genanki_rs::Note::new`: a note of the model holding the two
/// fields in order. It fails exactly when the model's requirements cannot be
/// worked out from its templates, which depends on the model alone. It
/// indexes the note's fields by the model's and builds a pattern from each
/// field name, so the model has at most two fields, named by words.
#[verifier::external_body]
fn new_note(model: &genanki_rs::Model, front: &str, back: &str) -> (r: Result<
    genanki_rs::Note,
    genanki_rs::Error,
>)
    requires
        fits_two_fields(*model),
    ensures
        r matches Ok(n) ==> note_fields(n) == seq![front@, back@],
        (r is Err) == model_rejects(*model),
{
    genanki_rs::Note::new(model.clone(), vec![front, back])
}

/// Relies on `chrono::Local::now` formatted as `YYYY-MM-DD HH:MM:SS`.
#[verifier::external_body]
fn local_timestamp() -> (r: String) {
    chrono::Local::now().format("%Y-%m-%d %H:%M:%S").to_string()
}

/// Why a deck could not be built.
pub enum DeckError {
    /// The card at this index does not fit the note model.
    NoteRejected(usize),
}

/// The fields of the notes that the cards make: front, then back.
pub open spec fn note_contents(cards: Seq<Card>) -> Seq<Seq<Seq<char>>> {
    cards.map_values(|c: Card| seq![c.front@, c.back@])
}

/// The note model of the cards: fields `Question` and `Answer`, one card
/// template with the given formats, and the style sheet.
pub fn card_model(front_format: &str, back_format: &str, css: &str) -> (r: genanki_rs::Model)
    requires
        front_format@.len() <= MAX_QUESTION_FORMAT,
    ensures
        model_fields(r) == seq!["Question"@, "Answer"@],
        fits_two_fields(r),
{
    proof {
        reveal_strlit("Question");
        reveal_strlit("Answer");
        assert(is_word_name("Question"@));
        assert(is_word_name("Answer"@));
    }
    let m = new_model(
        0x1337420,
        "Ankiding Model",
        "Question",
        "Answer",
        "Card 1",
        front_format,
        back_format,
    );
    with_css(m, css)
}

/// A deck named after the note file, under the given id, holding one note
/// of the model per card, in order. It fails on the first card exactly when
/// the model refuses notes.
pub fn from_cards(
    filename: &str,
    separator: char,
    id: i64,
    model: &genanki_rs::Model,
    cards: &[Card],
) -> (r: Result<genanki_rs::Deck, DeckError>)
    requires
        fits_two_fields(*model),
    ensures
        match r {
            Ok(d) => {
                &&& deck_notes(d) == note_contents(cards@)
                &&& deck_title(d) == deck_name_of(filename@, separator)
                &&& deck_id(d) == id
            },
            Err(DeckError::NoteRejected(i)) => i == 0,
        },
        (r is Err) == (cards@.len() > 0 && model_rejects(*model)),
{
    let name = deck_name(filename, separator);
    let mut desc = chars_of("Generated by ankiding at ");
    let stamp = local_timestamp();
    push_all(&mut desc, chars_of(stamp.as_str()).as_slice());
    let description = string_of(desc.as_slice());
    let mut deck = new_deck(id, name.as_str(), description.as_str());
    let mut i: usize = 0;
    assert(note_contents(cards@).take(0) =~= Seq::<Seq<Seq<char>>>::empty());
    while i < cards.len()
        invariant
            fits_two_fields(*model),
            i <= cards@.len(),
            deck_notes(deck) == note_contents(cards@).take(i as int),
            deck_title(deck) == deck_name_of(filename@, separator),
            deck_id(deck) == id,
            i > 0 ==> !model_rejects(*model),
        decreases cards@.len() - i,
    {
        let card = &cards[i];
        match new_note(model, card.front.as_str(), card.back.as_str()) {
            Ok(note) => {
                add_note(&mut deck, note);
            },
            Err(_) => {
                assert(i == 0);
                return Err(DeckError::NoteRejected(i));
            },
        }
        i = i + 1;
        assert(note_contents(cards@).take(i as int) =~= note_contents(cards@).take(i - 1).push(
            seq![cards@[i - 1].front@, cards@[i - 1].back@],
        ));
    }
    assert(note_contents(cards@).take(i as int) =~= note_contents(cards@));
    Ok(deck)
}

} // verus!
