use mahjong_parse::{parse_hand, parse_hand_with_aka, Honor, ParseError, Suit, Tile};

#[test]
fn parse_simple_hand() {
    let tiles = parse_hand("123m456p789s11z").unwrap();
    assert_eq!(tiles.len(), 11);
    assert_eq!(tiles[0], Tile::suited(Suit::Man, 1));
    assert_eq!(tiles[9], Tile::honor(Honor::East));
}

#[test]
fn parse_full_hand() {
    let tiles = parse_hand("123m456p789s11222z").unwrap();
    assert_eq!(tiles.len(), 14);
}

#[test]
fn parse_invalid_honor() {
    let result = parse_hand("89z");
    assert!(result.is_err());
}

#[test]
fn parse_trailing_numbers() {
    let result = parse_hand("123");
    assert!(result.is_err());
}

#[test]
fn parse_red_five_manzu() {
    let result = parse_hand_with_aka("0m").unwrap();
    assert_eq!(result.tiles.len(), 1);
    assert_eq!(result.tiles[0], Tile::suited(Suit::Man, 5));
    assert_eq!(result.aka_count, 1);
}

#[test]
fn parse_red_five_all_suits() {
    let result = parse_hand_with_aka("0m0p0s").unwrap();
    assert_eq!(result.tiles.len(), 3);
    assert_eq!(result.tiles[0], Tile::suited(Suit::Man, 5));
    assert_eq!(result.tiles[1], Tile::suited(Suit::Pin, 5));
    assert_eq!(result.tiles[2], Tile::suited(Suit::Sou, 5));
    assert_eq!(result.aka_count, 3);
}

#[test]
fn parse_mixed_red_and_regular_fives() {
    let result = parse_hand_with_aka("50m").unwrap();
    assert_eq!(result.tiles.len(), 2);
    assert_eq!(result.tiles[0], Tile::suited(Suit::Man, 5));
    assert_eq!(result.tiles[1], Tile::suited(Suit::Man, 5));
    assert_eq!(result.aka_count, 1);
}

#[test]
fn parse_hand_with_red_five() {
    let result = parse_hand_with_aka("123m406p789s11122z").unwrap();
    assert_eq!(result.tiles.len(), 14);
    assert_eq!(result.aka_count, 1);
    assert_eq!(result.tiles[4], Tile::suited(Suit::Pin, 5));
}

#[test]
fn parse_red_zero_with_honor_fails() {
    let result = parse_hand_with_aka("0z");
    assert!(result.is_err());
}

#[test]
fn parse_empty_input_is_empty_hand() {
    let result = parse_hand_with_aka("").unwrap();
    assert_eq!(result.tiles.len(), 0);
    assert_eq!(result.aka_count, 0);
}

#[test]
fn parse_whitespace_between_tokens() {
    let tiles = parse_hand("123m 456p\t789s\n11222z").unwrap();
    let plain = parse_hand("123m456p789s11222z").unwrap();
    assert_eq!(tiles, plain);
}

#[test]
fn parse_honor_names_in_order() {
    let tiles = parse_hand("1234567z").unwrap();
    assert_eq!(tiles.len(), 7);
    assert_eq!(tiles[0], Tile::honor(Honor::East));
    assert_eq!(tiles[1], Tile::honor(Honor::South));
    assert_eq!(tiles[2], Tile::honor(Honor::West));
    assert_eq!(tiles[3], Tile::honor(Honor::North));
    assert_eq!(tiles[4], Tile::honor(Honor::White));
    assert_eq!(tiles[5], Tile::honor(Honor::Green));
    assert_eq!(tiles[6], Tile::honor(Honor::Red));
}

#[test]
fn parse_invalid_honor_reports_first_digit() {
    let result = parse_hand("89z");
    assert_eq!(result, Err(ParseError::InvalidHonorNumber(8)));
}

#[test]
fn parse_invalid_honor_after_valid_digit() {
    let result = parse_hand("58z");
    assert_eq!(result, Err(ParseError::InvalidHonorNumber(8)));
}

#[test]
fn parse_invalid_honor_before_red_marker() {
    let result = parse_hand("90z");
    assert_eq!(result, Err(ParseError::InvalidHonorNumber(9)));
}

#[test]
fn parse_red_with_honor_exact_error() {
    let result = parse_hand_with_aka("0z");
    assert_eq!(result.unwrap_err(), ParseError::RedFiveWithHonor);
}

#[test]
fn parse_trailing_digits_exact_error() {
    let result = parse_hand("123");
    assert_eq!(result, Err(ParseError::TrailingDigitsWithoutSuit));
}

#[test]
fn parse_lone_red_marker_is_trailing() {
    let result = parse_hand("0");
    assert_eq!(result, Err(ParseError::TrailingDigitsWithoutSuit));
}

#[test]
fn parse_unexpected_character_exact_error() {
    let result = parse_hand("12x");
    assert_eq!(result, Err(ParseError::UnexpectedCharacter('x')));
}

#[test]
fn tile_count_matches_digit_tokens() {
    let tiles = parse_hand("12m304p56s77z").unwrap();
    assert_eq!(tiles.len(), 9);
    let tiles = parse_hand("123m456p789s11222z").unwrap();
    assert_eq!(tiles.len(), 14);
}

#[test]
fn tile_order_ignores_grouping() {
    let split = parse_hand("12m3m").unwrap();
    let joined = parse_hand("123m").unwrap();
    assert_eq!(split, joined);

    let mut first = parse_hand("123m").unwrap();
    let second = parse_hand("456p").unwrap();
    first.extend(second);
    let whole = parse_hand("123m456p").unwrap();
    assert_eq!(first, whole);
}

#[test]
fn tile_order_is_left_to_right() {
    let tiles = parse_hand("31m2p").unwrap();
    assert_eq!(tiles[0], Tile::suited(Suit::Man, 3));
    assert_eq!(tiles[1], Tile::suited(Suit::Man, 1));
    assert_eq!(tiles[2], Tile::suited(Suit::Pin, 2));
}
