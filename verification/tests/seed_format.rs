use game_of_life::seed::{parse_seed, SeedError};
use game_of_life::Universe;

#[test]
fn parse_round_trip_matches_direct_construction() {
    let text = b"3x4\n0100\n0000\n1001\n";
    let parsed = parse_seed(text).unwrap();
    let mut direct = Universe::new(4, 3).unwrap();
    direct.set_cells(&[(0, 1), (2, 0), (2, 3)]);
    assert_eq!(parsed.render(), direct.render());
}

#[test]
fn parse_accepts_missing_trailing_newline() {
    let parsed = parse_seed(b"2x2\n10\n01").unwrap();
    let mut direct = Universe::new(2, 2).unwrap();
    direct.set_cells(&[(0, 0), (1, 1)]);
    assert_eq!(parsed.render(), direct.render());
}

#[test]
fn parse_all_dead_seed() {
    let parsed = parse_seed(b"2x3\n000\n000\n").unwrap();
    let direct = Universe::new(3, 2).unwrap();
    assert_eq!(parsed.render(), direct.render());
}

#[test]
fn parsed_seed_ticks_like_a_blinker() {
    let parsed = parse_seed(b"5x5\n00000\n00000\n01110\n00000\n00000\n");
    let mut g = parsed.unwrap();
    g.tick();
    let mut vertical = Universe::new(5, 5).unwrap();
    vertical.set_cells(&[(1, 2), (2, 2), (3, 2)]);
    assert_eq!(g.render(), vertical.render());
}

#[test]
fn empty_input_is_a_malformed_header() {
    assert_eq!(parse_seed(b"").unwrap_err(), SeedError::MalformedHeader);
}

#[test]
fn header_without_x_is_malformed() {
    assert_eq!(parse_seed(b"34\n").unwrap_err(), SeedError::MalformedHeader);
}

#[test]
fn header_with_letters_is_malformed() {
    assert_eq!(parse_seed(b"axb\n").unwrap_err(), SeedError::MalformedHeader);
}

#[test]
fn header_with_two_x_is_malformed() {
    assert_eq!(parse_seed(b"2x2x2\n11\n11\n").unwrap_err(), SeedError::MalformedHeader);
}

#[test]
fn header_missing_side_is_malformed() {
    assert_eq!(parse_seed(b"x3\n").unwrap_err(), SeedError::MalformedHeader);
    assert_eq!(parse_seed(b"3x\n").unwrap_err(), SeedError::MalformedHeader);
}

#[test]
fn zero_dimension_is_rejected() {
    assert_eq!(parse_seed(b"0x3\n").unwrap_err(), SeedError::InvalidDimensions);
    assert_eq!(parse_seed(b"3x0\n000\n000\n000\n").unwrap_err(), SeedError::InvalidDimensions);
}

#[test]
fn oversized_dimension_is_rejected() {
    assert_eq!(parse_seed(b"4294967296x1\n").unwrap_err(), SeedError::InvalidDimensions);
    assert_eq!(parse_seed(b"65536x65536\n").unwrap_err(), SeedError::InvalidDimensions);
}

#[test]
fn wrong_line_count_is_rejected() {
    assert_eq!(parse_seed(b"2x2\n11\n").unwrap_err(), SeedError::WrongLineCount);
    assert_eq!(parse_seed(b"1x2\n11\n00\n").unwrap_err(), SeedError::WrongLineCount);
}

#[test]
fn non_binary_digit_is_rejected() {
    assert_eq!(parse_seed(b"2x2\n11\n21\n").unwrap_err(), SeedError::MalformedLine);
}

#[test]
fn wrong_line_length_is_rejected() {
    assert_eq!(parse_seed(b"2x2\n11\n0\n").unwrap_err(), SeedError::MalformedLine);
    assert_eq!(parse_seed(b"2x2\n11\n010\n").unwrap_err(), SeedError::MalformedLine);
}

#[test]
fn leading_zeros_in_header_are_accepted() {
    let parsed = parse_seed(b"02x02\n10\n01\n").unwrap();
    let mut direct = Universe::new(2, 2).unwrap();
    direct.set_cells(&[(0, 0), (1, 1)]);
    assert_eq!(parsed.render(), direct.render());
}
