use deckgen::card::{get_filegarden_link, CardResolver, FileGardenCard};
use deckgen::deck::{
    card_count, distinct_names, generate_deck_data, CardShape, CustomDeckState, DeckObject,
};
use deckgen::line::{parse_line, DeckLine};
use deckgen::save::SaveState;

fn lines(src: &[&str]) -> Vec<DeckLine> {
    src.iter().map(|s| parse_line(s).unwrap()).collect()
}

fn randoms(n: u64) -> Vec<u128> {
    (0..n as u128).map(|k| (k + 1) * 0x9e37_79b9_7f4a_7c15_f39c_c060_5ced_c835).collect()
}

fn build(src: &[&str]) -> DeckObject {
    let ls = lines(src);
    let n = card_count(&ls).unwrap();
    let s = SaveState::new_for_deck::<FileGardenCard>(&ls, &randoms(n + 1)).unwrap();
    assert_eq!(s.object_states.len(), 1);
    s.object_states.into_iter().next().unwrap()
}

fn ids(d: &DeckObject) -> Vec<u64> {
    d.contained_objects.iter().map(|c| c.card_id).collect()
}

const BASE: &str = "https://file.garden/ZJSEzoaUL3bz8vYK/bloodlesscards/";

#[test]
fn link_drops_spaces_and_umlauts() {
    assert_eq!(get_filegarden_link("Big Ogre"), format!("{BASE}BigOgre.png"));
    assert_eq!(get_filegarden_link("K\u{e4}se Mann"), format!("{BASE}KaseMann.png"));
    assert_eq!(get_filegarden_link(""), format!("{BASE}.png"));
}

#[test]
fn ogre_and_donkey() {
    let d = build(&["3x Ogre", "1x Donkey"]);
    assert_eq!(d.custom_deck.len(), 2);
    assert_eq!(d.custom_deck[0].face_url, format!("{BASE}Ogre.png"));
    assert_eq!(d.custom_deck[1].face_url, format!("{BASE}Donkey.png"));
    assert_eq!(d.contained_objects.len(), 4);
    assert_eq!(ids(&d), vec![0, 0, 0, 100]);
    assert_eq!(d.deck_ids, vec![0, 0, 0, 100]);
    let idx: Vec<u64> = d.contained_objects.iter().map(|c| c.deck_index).collect();
    assert_eq!(idx, vec![0, 0, 0, 1]);
    assert_eq!(d.contained_objects[3].image.face_url, format!("{BASE}Donkey.png"));
}

#[test]
fn metadata_record_fields() {
    let d = build(&["1x Ogre"]);
    let m = &d.custom_deck[0];
    assert_eq!(m.back_url, format!("{BASE}00%20back.png"));
    assert_eq!((m.num_width, m.num_height), (1, 1));
    assert!(m.back_is_hidden);
    assert!(!m.unique_back);
    assert_eq!(m.card_type, 0);
}

#[test]
fn zero_quantity_registers_metadata_only() {
    let d = build(&["0x Ogre"]);
    assert_eq!(d.custom_deck.len(), 1);
    assert_eq!(d.contained_objects.len(), 0);
    assert!(d.deck_ids.is_empty());
    let d = build(&["0x Ogre", "2x Donkey"]);
    assert_eq!(d.custom_deck.len(), 2);
    assert_eq!(ids(&d), vec![100, 100]);
}

#[test]
fn repeated_names_share_a_deck_index() {
    let d = build(&["2x Ogre", "1x Donkey", "1x Ogre"]);
    assert_eq!(d.custom_deck.len(), 2);
    assert_eq!(ids(&d), vec![0, 0, 100, 0]);
}

#[test]
fn round_trip_counts() {
    let d = build(&["2x A", "5x B", "1x C", "3x D"]);
    assert_eq!(d.custom_deck.len(), 4);
    assert_eq!(d.contained_objects.len(), 11);
    for c in &d.contained_objects {
        assert_eq!(c.card_id, 100 * c.deck_index);
    }
}

#[test]
fn building_twice_differs_only_in_guids() {
    let a = build(&["3x Ogre", "1x Donkey"]);
    let b = build(&["3x Ogre", "1x Donkey"]);
    assert_eq!(a.deck_ids, b.deck_ids);
    assert_eq!(ids(&a), ids(&b));
    for (x, y) in a.custom_deck.iter().zip(b.custom_deck.iter()) {
        assert_eq!(x.face_url, y.face_url);
        assert_eq!(x.back_url, y.back_url);
    }
}

#[test]
fn guids_are_unique_and_hyphenated() {
    let d = build(&["3x Ogre"]);
    assert_eq!(d.guid.len(), 36);
    let mut all: Vec<&String> = d.contained_objects.iter().map(|c| &c.guid).collect();
    all.push(&d.guid);
    for g in &all {
        assert_eq!(g.len(), 36);
        assert_eq!(g.matches('-').count(), 4);
    }
    all.sort();
    all.dedup();
    assert_eq!(all.len(), 4);
}

#[test]
fn distinct_names_first_seen_order() {
    let n = distinct_names(&lines(&["1x B", "1x A", "2x B", "1x C"]));
    assert_eq!(n, vec!["B".to_string(), "A".to_string(), "C".to_string()]);
}

#[test]
fn generate_with_given_images() {
    let ls = lines(&["2x A", "1x B"]);
    let images = vec![
        CustomDeckState::new("fa".to_string(), "ba".to_string(), CardShape::Rectangle),
        CustomDeckState::new("fb".to_string(), "bb".to_string(), CardShape::RoundedRectangle),
    ];
    let d = generate_deck_data(&ls, &images, &randoms(4));
    assert_eq!(d.custom_deck[0].card_type, 1);
    assert_eq!(d.custom_deck[1].card_type, 0);
    assert_eq!(d.contained_objects[2].image.face_url, "fb");
    assert_eq!(ids(&d), vec![0, 0, 100]);
}

#[test]
fn file_garden_card_capabilities() {
    let c = FileGardenCard::parse("Big Ogre").unwrap();
    assert_eq!(c.get_name(), "Big Ogre");
    assert_eq!(c.get_front_image().unwrap(), format!("{BASE}BigOgre.png"));
    assert_eq!(c.get_card_shape().unwrap(), CardShape::RoundedRectangle);
}

#[test]
fn guids_follow_the_random_values() {
    let ls = lines(&["2x A"]);
    let images = vec![CustomDeckState::new("f".to_string(), "b".to_string(), CardShape::Rectangle)];
    let random = vec![0, u128::MAX, 0x0123_4567_89ab_cdef_0123_4567_89ab_cdef];
    let d = generate_deck_data(&ls, &images, &random);
    assert_eq!(d.contained_objects[0].guid, "00000000-0000-4000-8000-000000000000");
    assert_eq!(d.contained_objects[1].guid, "ffffffff-ffff-4fff-bfff-ffffffffffff");
    assert_eq!(d.guid, "01234567-89ab-4def-8123-456789abcdef");
}

#[test]
fn empty_deck_builds() {
    let d = build(&[]);
    assert!(d.custom_deck.is_empty());
    assert!(d.contained_objects.is_empty());
    assert!(d.deck_ids.is_empty());
}

#[test]
fn counts_cards() {
    assert_eq!(card_count(&lines(&["3x Ogre", "1x Donkey", "0x Troll"])), Some(4));
    assert_eq!(card_count(&Vec::new()), Some(0));
    let big = lines(&["18446744073709551615x A", "1x B"]);
    assert_eq!(card_count(&big), None);
}

#[test]
fn file_garden_name_is_identifier() {
    let c = FileGardenCard::parse("  Odd Name").unwrap();
    assert_eq!(c.get_name(), "  Odd Name");
    assert_eq!(c.get_back_image().unwrap(), format!("{BASE}00%20back.png"));
}
