use scratch_genetic::data::{name_to_chars, prediction_input, DataError, Game, Region, Round, NAME_LEN};

fn name(s: &str) -> [char; NAME_LEN] {
    name_to_chars(s)
}

fn game(year: [char; 2], winner_seed: u8, loser_seed: u8) -> Game {
    Game {
        year,
        round: Round::Sweet16,
        region: Some(Region::West),
        winner_seed,
        winner_name: name("Duke"),
        winner_score: 80,
        loser_seed,
        loser_name: name("Kansas"),
        loser_score: 75,
        overtime: 1,
    }
}

#[test]
fn round_codes() {
    let rounds = [
        Round::OpeningRound,
        Round::RoundOf64,
        Round::RoundOf32,
        Round::Sweet16,
        Round::Elite8,
        Round::Semifinals,
        Round::Championship,
    ];
    let codes: Vec<u8> = rounds.iter().map(|r| r.to_u8()).collect();
    assert_eq!(codes, vec![0, 1, 2, 3, 4, 5, 6]);
}

#[test]
fn region_codes() {
    let regions = [Region::East, Region::Midwest, Region::South, Region::Southeast, Region::Southwest, Region::West];
    let codes: Vec<u8> = regions.iter().map(|r| r.to_u8()).collect();
    assert_eq!(codes, vec![1, 2, 3, 4, 5, 6]);
}

#[test]
fn output_bits_put_the_higher_seed_number_first() {
    assert_eq!(game(['8', '5'], 12, 5).to_output_bits(), [80, 75, 1]);
    assert_eq!(game(['8', '5'], 1, 16).to_output_bits(), [75, 80, 1]);
    assert_eq!(game(['8', '5'], 4, 4).to_output_bits(), [80, 75, 1]);
}

#[test]
fn input_bits_layout() {
    let bits = game(['8', '5'], 12, 5).to_input_bits().unwrap();
    assert_eq!(bits.len(), 67);
    assert_eq!(bits[0], 85);
    assert_eq!(bits[1], 3 * 8 + 6);
    assert_eq!(bits[2], 0xC5);
    assert_eq!(&bits[3..7], b"Duke");
    assert_eq!(bits[7], 0);
    assert_eq!(&bits[35..41], b"Kansas");
    assert_eq!(bits[41], 0);
}

#[test]
fn input_bits_swap_teams_by_seed() {
    let bits = game(['0', '3'], 1, 16).to_input_bits().unwrap();
    assert_eq!(bits[0], 3);
    // Seed 16 keeps only its low four bits.
    assert_eq!(bits[2], 0x01);
    assert_eq!(&bits[3..9], b"Kansas");
    assert_eq!(&bits[35..39], b"Duke");
}

#[test]
fn input_bits_without_region() {
    let mut g = game(['1', '8'], 1, 1);
    g.round = Round::Championship;
    g.region = None;
    let bits = g.to_input_bits().unwrap();
    assert_eq!(bits[0], 18);
    assert_eq!(bits[1], 48);
    assert_eq!(bits[2], 0x11);
}

#[test]
fn year_reads_like_a_parsed_byte() {
    assert_eq!(game(['+', '7'], 1, 2).to_input_bits().unwrap()[0], 7);
    assert_eq!(game(['x', '5'], 1, 2).to_input_bits(), Err(DataError::InvalidYear));
    assert_eq!(game(['8', '+'], 1, 2).to_input_bits(), Err(DataError::InvalidYear));
    assert_eq!(game(['-', '5'], 1, 2).to_input_bits(), Err(DataError::InvalidYear));
}

#[test]
fn names_are_padded_or_cut() {
    let n = name_to_chars("Duke");
    assert_eq!(&n[..4], &['D', 'u', 'k', 'e']);
    assert!(n[4..].iter().all(|c| *c == '\0'));
    let long = "abcdefghijklmnopqrstuvwxyz0123456789";
    let n = name_to_chars(long);
    assert_eq!(n.iter().collect::<String>(), long[..32].to_string());
    assert!(name_to_chars("").iter().all(|c| *c == '\0'));
}

#[test]
fn prediction_input_matches_game_bits() {
    let bits = prediction_input("85", Round::Sweet16, Some(Region::West), 12, "Duke", 5, "Kansas").unwrap();
    let mut g = game(['8', '5'], 12, 5);
    g.winner_score = 0;
    g.loser_score = 0;
    g.overtime = 0;
    assert_eq!(bits, g.to_input_bits().unwrap());
}

#[test]
fn prediction_input_takes_the_first_two_year_characters() {
    let bits = prediction_input("0085", Round::Elite8, None, 3, "A", 2, "B").unwrap();
    assert_eq!(bits[0], 0);
    let bits = prediction_input("+12", Round::Elite8, None, 3, "A", 2, "B").unwrap();
    assert_eq!(bits[0], 1);
}

#[test]
fn prediction_input_errors() {
    assert_eq!(prediction_input("2018", Round::Elite8, None, 3, "A", 2, "B"), Err(DataError::InvalidYear));
    assert_eq!(prediction_input("", Round::Elite8, None, 3, "A", 2, "B"), Err(DataError::InvalidYear));
    assert_eq!(prediction_input("+", Round::Elite8, None, 3, "A", 2, "B"), Err(DataError::InvalidYear));
    assert_eq!(prediction_input("8x", Round::Elite8, None, 3, "A", 2, "B"), Err(DataError::InvalidYear));
    assert_eq!(prediction_input("5", Round::Elite8, None, 3, "A", 2, "B"), Err(DataError::YearTooShort));
    let long = "a".repeat(33);
    assert_eq!(prediction_input("85", Round::Elite8, None, 3, &long, 2, "B"), Err(DataError::NameTooLong));
    assert_eq!(prediction_input("85", Round::Elite8, None, 3, "A", 2, &long), Err(DataError::NameTooLong));
    assert!(prediction_input("85", Round::Elite8, None, 3, &"a".repeat(32), 2, "B").is_ok());
}
