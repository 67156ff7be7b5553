use deckgen::line::{parse_line, trim_from, AtColumn, Error, Token};

fn ok(s: &str) -> (u64, String) {
    let l = parse_line(s).unwrap();
    (l.quantity, l.name)
}

fn err(s: &str) -> AtColumn {
    match parse_line(s) {
        Ok(l) => panic!("parsed {:?} from {:?}", l, s),
        Err(e) => e,
    }
}

#[test]
fn parses_simple_line() {
    assert_eq!(ok("3x Ogre"), (3, "Ogre".to_string()));
    assert_eq!(ok("1x Donkey"), (1, "Donkey".to_string()));
}

#[test]
fn blanks_around_separator_are_skipped() {
    assert_eq!(ok("12 \t x   Big Ogre  \n"), (12, "Big Ogre".to_string()));
    assert_eq!(ok("7\tx\tTroll"), (7, "Troll".to_string()));
}

#[test]
fn no_spaces_parses_like_spaced() {
    assert_eq!(ok("2xKnight"), ok("2x Knight"));
    assert_eq!(ok("2xKnight"), (2, "Knight".to_string()));
}

#[test]
fn later_separators_belong_to_name() {
    assert_eq!(ok("3xx-ray fox"), (3, "x-ray fox".to_string()));
}

#[test]
fn zero_quantity_is_accepted() {
    assert_eq!(ok("0x Ogre"), (0, "Ogre".to_string()));
}

#[test]
fn leading_zeros_and_large_values() {
    assert_eq!(ok("007x Spy"), (7, "Spy".to_string()));
    assert_eq!(ok("18446744073709551615x Many"), (u64::MAX, "Many".to_string()));
}

#[test]
fn unicode_white_space_is_trimmed() {
    assert_eq!(ok("1x\u{3000}Ogre\u{a0}\r\n"), (1, "Ogre".to_string()));
    assert_eq!(ok("1x   "), (1, String::new()));
}

#[test]
fn empty_quantity_is_an_error() {
    let e = err("x Goblin");
    assert!(matches!(e.error, Error::MissingQuantity));
    assert_eq!(e.column, 1);
    let e = err("  x Goblin");
    assert!(matches!(e.error, Error::MissingQuantity));
}

#[test]
fn quantity_overflow_is_an_error() {
    let e = err("18446744073709551616x Many");
    assert!(matches!(e.error, Error::QuantityTooLarge));
    assert_eq!(e.column, 1);
}

#[test]
fn bad_char_while_numbering() {
    let e = err("3a Ogre");
    assert_eq!(e.column, 2);
    match e.error {
        Error::UnexpectedChar { obtained, expected } => {
            assert_eq!(obtained, 'a');
            assert_eq!(expected, vec![Token::Separator, Token::Digit, Token::Space, Token::Tab]);
        }
        other => panic!("{:?}", other),
    }
}

#[test]
fn bad_char_after_blanks() {
    let e = err("3 Ogre");
    assert_eq!(e.column, 3);
    match e.error {
        Error::UnexpectedChar { obtained, expected } => {
            assert_eq!(obtained, 'O');
            assert_eq!(expected, vec![Token::Separator, Token::Space, Token::Tab]);
        }
        other => panic!("{:?}", other),
    }
    let e = err("3 4x Ogre");
    assert_eq!(e.column, 3);
}

#[test]
fn column_counts_characters_not_bytes() {
    let e = err("1 \u{e4}x");
    assert_eq!(e.column, 3);
    let e = err("\u{e4}");
    assert_eq!(e.column, 1);
}

#[test]
fn missing_separator_is_an_error() {
    let e = err("3");
    assert_eq!(e.column, 2);
    assert!(matches!(e.error, Error::UnexpectedEnd { .. }));
    let e = err("");
    assert_eq!(e.column, 1);
    match e.error {
        Error::UnexpectedEnd { expected } => {
            assert_eq!(expected, vec![Token::Separator, Token::Digit, Token::Space, Token::Tab]);
        }
        other => panic!("{:?}", other),
    }
    let e = err("3  ");
    assert_eq!(e.column, 4);
}

#[test]
fn newline_before_separator_is_rejected() {
    let e = err("3\n");
    assert_eq!(e.column, 2);
    assert!(matches!(e.error, Error::UnexpectedChar { obtained: '\n', .. }));
}

#[test]
fn trim_from_offset() {
    assert_eq!(trim_from("ab  cd  ", 2), "cd".to_string());
    assert_eq!(trim_from("ab", 2), String::new());
}

#[test]
fn deck_parses_all_lines_in_order() {
    let lines = vec!["3x Ogre\n".to_string(), "1x Donkey\n".to_string()];
    let v = deckgen::line::parse_deck(&lines).unwrap();
    assert_eq!(v.len(), 2);
    assert_eq!((v[0].quantity, v[0].name.as_str()), (3, "Ogre"));
    assert_eq!((v[1].quantity, v[1].name.as_str()), (1, "Donkey"));
}

#[test]
fn deck_reports_every_failing_line() {
    let lines = vec![
        "3x Ogre".to_string(),
        "x Goblin".to_string(),
        "2xKnight".to_string(),
        "4 Troll".to_string(),
    ];
    let es = deckgen::line::parse_deck(&lines).unwrap_err();
    assert_eq!(es.len(), 2);
    assert_eq!(es[0].row, 2);
    assert!(matches!(es[0].column.error, Error::MissingQuantity));
    assert_eq!(es[1].row, 4);
    assert_eq!(es[1].column.column, 3);
    assert!(matches!(es[1].column.error, Error::UnexpectedChar { obtained: 'T', .. }));
}

#[test]
fn empty_deck_parses_to_nothing() {
    let v = deckgen::line::parse_deck(&Vec::new()).unwrap();
    assert!(v.is_empty());
}
