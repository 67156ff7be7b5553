//! The save document: resolves each distinct card once and builds the deck.

use vstd::prelude::*;
use crate::card::{CardError, CardResolver};
use crate::deck::{
    distinct, distinct_names, deck_model, generate_deck_data, lines_model, CustomDeckState,
    image_model, total_quantity, block_start, lemma_round_trip, DeckModel, DeckObject, ImageModel, MAX_DISTINCT,
};
use crate::line::DeckLine;

verus! {

/// Why no document could be built.
#[derive(Clone, Debug)]
pub enum DeckError {
    /// The resolver failed on the card with this name.
    Card { name: String, error: CardError },
    /// More distinct cards than card ids can number.
    TooManyCards,
}

/// The persisted unit: the objects on the table, here a single deck.
#[derive(Clone, Debug)]
pub struct SaveState {
    pub object_states: Vec<DeckObject>,
}

/// The image record that resolver `C` gives the card with identifier `id`.
pub open spec fn resolved<C: CardResolver>(id: Seq<char>) -> ImageModel {
    image_model(C::front_of(id), C::back_of(id), C::shape_of(id))
}

/// The document built from `lines` with resolver `C`, up to its generated identifiers.
pub open spec fn deck_for<C: CardResolver>(lines: Seq<DeckLine>) -> DeckModel {
    let ls = lines_model(lines);
    deck_model(ls, distinct(ls).map_values(|id: Seq<char>| resolved::<C>(id)))
}

/// Resolves one card: its front and back images and its shape.
pub fn resolve_card<C: CardResolver>(name: &String) -> (r: Result<CustomDeckState, DeckError>)
    ensures
        r matches Ok(c) ==> c@ == resolved::<C>(name@),
        C::resolves(name@) ==> r is Ok,
        r matches Err(e) ==> e is Card,
        r matches Err(DeckError::Card { name: n, .. }) ==> n@ == name@ && !C::resolves(name@),
{
    let card = match C::parse(name.as_str()) {
        Ok(card) => card,
        Err(error) => {
            return Err(DeckError::Card { name: name.clone(), error });
        },
    };
    let front = match card.get_front_image() {
        Ok(front) => front,
        Err(error) => {
            return Err(DeckError::Card { name: name.clone(), error });
        },
    };
    let back = match card.get_back_image() {
        Ok(back) => back,
        Err(error) => {
            return Err(DeckError::Card { name: name.clone(), error });
        },
    };
    let shape = match card.get_card_shape() {
        Ok(shape) => shape,
        Err(error) => {
            return Err(DeckError::Card { name: name.clone(), error });
        },
    };
    Ok(CustomDeckState::new(front, back, shape))
}

impl SaveState {
    /// Builds the document for the parsed lines, resolving each distinct card once,
    /// in order of first appearance. A resolver failure aborts the whole build. The
    /// identifiers are made from `random`, one value per card and one for the deck.
    pub fn new_for_deck<C: CardResolver>(lines: &Vec<DeckLine>, random: &Vec<u128>) -> (r: Result<
        SaveState,
        DeckError,
    >)
        requires
            random@.len() > total_quantity(lines_model(lines@)),
        ensures
            (r matches Err(DeckError::TooManyCards)) <==> distinct(lines_model(lines@)).len()
                > MAX_DISTINCT,
            distinct(lines_model(lines@)).len() <= MAX_DISTINCT && (forall|k: int|
                0 <= k < distinct(lines_model(lines@)).len() ==> C::resolves(
                    #[trigger] distinct(lines_model(lines@))[k],
                )) ==> r is Ok,
            r matches Err(DeckError::Card { name, .. }) ==> distinct(lines_model(lines@)).contains(
                name@,
            ) && !C::resolves(name@),
            r matches Ok(s) ==> s.object_states@.len() == 1 && s.object_states@[0].model()
                == deck_for::<C>(lines@) && s.object_states@[0].guids_from(random@),
    {
        let names = distinct_names(lines);
        proof {
            assert(names@.len() == distinct(lines_model(lines@)).len());
        }
        if names.len() as u64 > MAX_DISTINCT {
            return Err(DeckError::TooManyCards);
        }
        let mut images: Vec<CustomDeckState> = Vec::new();
        let mut i: usize = 0;
        while i < names.len()
            invariant
                i <= names@.len(),
                names@.map_values(|s: String| s@) == distinct(lines_model(lines@)),
                names@.len() <= MAX_DISTINCT,
                forall|k: int| 0 <= k < names@.len() ==> (#[trigger] names@[k])@ == distinct(
                    lines_model(lines@),
                )[k],
                images@.len() == i,
                forall|k: int| 0 <= k < i ==> (#[trigger] images@[k])@ == resolved::<C>(names@[k]@),
            decreases names.len() - i,
        {
            let image = resolve_card::<C>(&names[i]);
            match image {
                Ok(image) => images.push(image),
                Err(e) => {
                    proof {
                        assert(distinct(lines_model(lines@))[i as int] == names@[i as int]@);
                    }
                    return Err(e);
                },
            }
            i = i + 1;
        }
        let deck = generate_deck_data(lines, &images, random);
        proof {
            let ls = lines_model(lines@);
            assert(images@.map_values(|c: CustomDeckState| c@) =~= distinct(ls).map_values(
                |id: Seq<char>| resolved::<C>(id),
            ));
        }
        Ok(SaveState { object_states: vec![deck] })
    }
}


/// Building twice from the same lines with the same resolver gives documents that agree
/// in everything but their generated identifiers.
pub proof fn lemma_build_repeatable<C: CardResolver>(
    lines: Seq<DeckLine>,
    a: DeckObject,
    b: DeckObject,
)
    requires
        a.model() == deck_for::<C>(lines),
        b.model() == deck_for::<C>(lines),
    ensures
        a.model() == b.model(),
        a.deck_ids@ == b.deck_ids@,
{
    assert(a.model().deck_ids.len() == a.deck_ids@.len());
    assert(b.model().deck_ids.len() == b.deck_ids@.len());
    assert(a.deck_ids@ =~= b.deck_ids@) by {
        assert forall|k: int| 0 <= k < a.deck_ids@.len() implies a.deck_ids@[k] == b.deck_ids@[k] by {
            assert(a.model().deck_ids[k] == a.deck_ids@[k] as nat);
            assert(b.model().deck_ids[k] == b.deck_ids@[k] as nat);
        }
    }
}


/// A document built from lines with distinct names holds one image record per line, as
/// many cards as the quantities add up to, and the cards of line `i` at deck index `i`
/// with card id `100 * i`.
pub proof fn lemma_save_round_trip<C: CardResolver>(lines: Seq<DeckLine>, d: DeckObject)
    requires
        forall|i: int, j: int| 0 <= i < j < lines.len() ==> lines[i].name@ != lines[j].name@,
        d.model() == deck_for::<C>(lines),
    ensures
        d.custom_deck@.len() == lines.len(),
        d.contained_objects@.len() == total_quantity(lines_model(lines)),
        d.deck_ids@.len() == total_quantity(lines_model(lines)),
        forall|i: int, k: int|
            #![trigger block_start(lines_model(lines), i), d.contained_objects@[k]]
            0 <= i < lines.len() && block_start(lines_model(lines), i) <= k < block_start(
                lines_model(lines),
                i,
            ) + lines[i].quantity ==> d.contained_objects@[k].deck_index == i
                && d.contained_objects@[k].card_id == 100 * i,
{
    let ls = lines_model(lines);
    let images = distinct(ls).map_values(|id: Seq<char>| resolved::<C>(id));
    assert forall|i: int, j: int| 0 <= i < j < ls.len() implies ls[i].1 != ls[j].1 by {}
    lemma_round_trip(ls, images);
    assert(d.model().custom_deck.len() == d.custom_deck@.len());
    assert(d.model().cards.len() == d.contained_objects@.len());
    assert(d.model().deck_ids.len() == d.deck_ids@.len());
    assert forall|i: int, k: int|
        #![trigger block_start(lines_model(lines), i), d.contained_objects@[k]]
        0 <= i < lines.len() && block_start(lines_model(lines), i) <= k < block_start(
            lines_model(lines),
            i,
        ) + lines[i].quantity implies d.contained_objects@[k].deck_index == i
            && d.contained_objects@[k].card_id == 100 * i by {
        assert(block_start(ls, i) + ls[i].0 <= total_quantity(ls));
        assert(d.model().cards[k] == d.contained_objects@[k].model());
        assert(deck_model(ls, images).cards[k].deck_index == i);
        assert(deck_model(ls, images).cards[k].card_id == 100 * deck_model(ls, images).cards[k].deck_index);
    }
}

} // verus!
