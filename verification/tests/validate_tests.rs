use mahjong_parse::{parse_hand, to_counts, validate_hand, Honor, Suit, Tile, ValidationError};

#[test]
fn validate_correct_hand() {
    let tiles = parse_hand("123m456p789s11222z").unwrap();
    assert!(validate_hand(&tiles).is_ok());
}

#[test]
fn validate_wrong_count() {
    let tiles = parse_hand("123m456p789s11z").unwrap();
    assert!(validate_hand(&tiles).is_err());
}

#[test]
fn validate_too_many_copies() {
    let tiles = parse_hand("11111m456p789s11z").unwrap();
    assert!(validate_hand(&tiles).is_err());
}

#[test]
fn validate_wrong_count_reports_actual() {
    let tiles = parse_hand("123m456p789s11z").unwrap();
    assert_eq!(tiles.len(), 11);
    assert_eq!(validate_hand(&tiles), Err(ValidationError::WrongTileCount(11)));
}

#[test]
fn validate_excess_copies_reports_tile_and_count() {
    let tiles = parse_hand("11111m456p789s112z").unwrap();
    assert_eq!(tiles.len(), 14);
    assert_eq!(
        validate_hand(&tiles),
        Err(ValidationError::ExcessCopies(Tile::suited(Suit::Man, 1), 5))
    );
}

#[test]
fn validate_short_hand_with_excess_reports_size() {
    let tiles = parse_hand("11111m456p789s11z").unwrap();
    assert_eq!(tiles.len(), 13);
    assert_eq!(validate_hand(&tiles), Err(ValidationError::WrongTileCount(13)));
}

#[test]
fn validate_size_check_comes_first() {
    let tiles = parse_hand("11111m").unwrap();
    assert_eq!(validate_hand(&tiles), Err(ValidationError::WrongTileCount(5)));
}

#[test]
fn validate_red_five_counts_as_plain_five() {
    let tiles = parse_hand("05m55m456p789s11z").unwrap();
    assert_eq!(tiles.len(), 12);
    let counts = to_counts(&tiles);
    assert_eq!(counts.count(Tile::suited(Suit::Man, 5)), 4);

    let five_reds = parse_hand("00m000m456p789s112z").unwrap();
    assert_eq!(five_reds.len(), 14);
    assert_eq!(
        validate_hand(&five_reds),
        Err(ValidationError::ExcessCopies(Tile::suited(Suit::Man, 5), 5))
    );
}

#[test]
fn counts_accumulate_equal_tiles() {
    let tiles = parse_hand("11222z33m").unwrap();
    let counts = to_counts(&tiles);
    assert_eq!(counts.count(Tile::honor(Honor::East)), 2);
    assert_eq!(counts.count(Tile::honor(Honor::South)), 3);
    assert_eq!(counts.count(Tile::suited(Suit::Man, 3)), 2);
    assert_eq!(counts.count(Tile::suited(Suit::Man, 1)), 0);
    assert_eq!(counts.count(Tile::honor(Honor::Red)), 0);
}

#[test]
fn counts_ignore_order() {
    let forward = parse_hand("123m11z").unwrap();
    let shuffled = parse_hand("1z321m1z").unwrap();
    let fc = to_counts(&forward);
    let sc = to_counts(&shuffled);
    let probes = [
        Tile::suited(Suit::Man, 1),
        Tile::suited(Suit::Man, 2),
        Tile::suited(Suit::Man, 3),
        Tile::suited(Suit::Pin, 1),
        Tile::honor(Honor::East),
        Tile::honor(Honor::Red),
    ];
    for t in probes {
        assert_eq!(fc.count(t), sc.count(t));
    }
}
