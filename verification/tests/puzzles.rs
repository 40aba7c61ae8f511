use remap::cards::{Card, Cards};
use remap::engine::Engine;
use remap::games::{CubeSet, Game, Games};
use remap::parse::{runs_of, ByteClass};
use remap::trebuchet::Trebuchet;
use remap::Error;

#[test]
fn test_set_from_str() {
    let s = "1 red, 2 green, 6 blue";
    let set = CubeSet::try_from(s).unwrap();
    assert_eq!(set, CubeSet { red: 1, blue: 6, green: 2 });

    let s = "3 blue, 12 red";
    let set = CubeSet::try_from(s).unwrap();
    assert_eq!(set, CubeSet { red: 12, blue: 3, green: 0 });

    let s = "2 green";
    let set = CubeSet::try_from(s).unwrap();
    assert_eq!(set, CubeSet { red: 0, blue: 0, green: 2 });
}

#[test]
fn test_games_from_str() {
    let s = "Game 1: 3 blue, 4 red; 1 red, 2 green, 6 blue; 2 green
Game 2: 1 blue, 2 green; 3 green, 4 blue, 1 red; 1 green, 1 blue
Game 3: 8 green, 6 blue, 20 red; 5 blue, 4 red, 13 green; 5 green, 1 red";
    let games = Games::try_from(s).unwrap();
    assert_eq!(
        games,
        Games {
            games: vec![
                Game {
                    id: 1,
                    sets: vec![
                        CubeSet { blue: 3, red: 4, green: 0 },
                        CubeSet { blue: 6, red: 1, green: 2 },
                        CubeSet { blue: 0, red: 0, green: 2 },
                    ],
                },
                Game {
                    id: 2,
                    sets: vec![
                        CubeSet { blue: 1, red: 0, green: 2 },
                        CubeSet { blue: 4, red: 1, green: 3 },
                        CubeSet { blue: 1, red: 0, green: 1 },
                    ],
                },
                Game {
                    id: 3,
                    sets: vec![
                        CubeSet { blue: 6, red: 20, green: 8 },
                        CubeSet { blue: 5, red: 4, green: 13 },
                        CubeSet { blue: 0, red: 1, green: 5 },
                    ],
                },
            ],
        }
    );
}

#[test]
fn games_filtering_and_sums() {
    let s = "Game 1: 3 blue, 4 red; 1 red, 2 green, 6 blue; 2 green
Game 2: 1 blue, 2 green; 3 green, 4 blue, 1 red; 1 green, 1 blue
Game 3: 8 green, 6 blue, 20 red; 5 blue, 4 red, 13 green; 5 green, 1 red";
    let games = Games::try_from(s).unwrap();
    let bound = CubeSet { red: 12, green: 13, blue: 14 };
    assert_eq!(games.clone().filter_possible(&bound).id_sum(), 3);
    assert_eq!(games.power_sum_of_min_sets(), 48 + 12 + 1560);
}

fn test_engine() -> Engine {
    let s = "467..114..
...*......
..35..633.
......#...
617*......
.....+.58.
..592.....
......755.
...$.*....
.664.598..";
    Engine::new(s.to_string())
}

#[test]
fn part_numbers() {
    let e = test_engine();
    let numbers = vec![467, 35, 633, 617, 592, 755, 664, 598];
    assert_eq!(numbers, e.part_numbers().unwrap());
}

#[test]
fn part_numbers_sum() {
    let e = test_engine();
    assert_eq!(4361, e.part_numbers_sum().unwrap());
}

#[test]
fn test_regex() {
    let s = "..123.*..##.22*..
...&..@../...
.............";
    let matches = runs_of(s.as_bytes(), 0, s.len(), ByteClass::Symbol);
    assert_eq!(
        matches,
        vec![(6, 7), (9, 11), (14, 15), (21, 22), (24, 25), (27, 28)]
    );
}

#[test]
fn gear_ratio_sum() {
    let e = test_engine();
    assert_eq!(467835, e.gear_ratio_sum().unwrap());
}

fn test_str() -> &'static str {
    "Card 1: 41 48 83 86 17 | 83 86  6 31 17  9 48 53
Card 2: 13 32 20 16 61 | 61 30 68 82 17 32 24 19
Card 3:  1 21 53 59 44 | 69 82 63 72 16 21 14  1
Card 4: 41 92 73 84 69 | 59 84 76 51 58  5 54 83
Card 5: 87 83 26 28 32 | 88 30 70 12 93 22 82 36
Card 6: 31 18 13 56 72 | 74 77 10 23 35 67 36 11"
}

#[test]
fn cards_test_from_str() {
    let s = test_str();
    for line in s.lines() {
        let _ = Card::try_from(line).unwrap();
    }

    let s = "Card 1: 41 48 83 86 17 | 83 86  6 31 17  9 48 53";
    let card = Card::try_from(s).unwrap();
    assert_eq!(
        card,
        Card {
            id: 1,
            winning: vec![41, 48, 83, 86, 17],
            selected: vec![83, 86, 6, 31, 17, 9, 48, 53],
        }
    );
}

#[test]
fn points() {
    let s = test_str();
    let cards = Cards::try_from(s).unwrap();
    assert_eq!(13, cards.points());
}

#[test]
fn count_post_process() {
    let s = test_str();
    let mut cards = Cards::try_from(s).unwrap();
    cards.process();
    assert_eq!(30, cards.count());
}

#[test]
fn card_matching_counts_shared_numbers() {
    let card = Card::try_from("Card 1: 41 48 83 86 17 | 83 86  6 31 17  9 48 53").unwrap();
    assert_eq!(card.matching(), 4);
    assert_eq!(card.points(), 8);
    let none = Card::try_from("Card 9: 1 2 | 3 4").unwrap();
    assert_eq!(none.points(), 0);
}

#[test]
fn test_from_str() {
    let s = "1abc2
pqr3stu8vwx
a1b2c3d4e5f
treb7uchet
";
    let trebuchet = Trebuchet::from_str1(s).unwrap();
    assert_eq!(trebuchet, Trebuchet { values: vec![12, 38, 15, 77] });
}

#[test]
fn test_from_str2() {
    let s = "two1nine
eightwothree
abcone2threexyz
xtwone3four
4nineeightseven2
zoneight234
7pqrstsixteen";
    let trebuchet = Trebuchet::from_str2(s).unwrap();
    assert_eq!(trebuchet, Trebuchet { values: vec![29, 83, 13, 24, 42, 14, 76] });
}

#[test]
fn parser_rejections() {
    assert_eq!(
        Games::try_from("no game here").unwrap_err(),
        Error::MalformedInput
    );
    assert_eq!(
        CubeSet::try_from("99999999999999999999 red").unwrap_err(),
        Error::MalformedInput
    );
    assert_eq!(Cards::try_from("Card x").unwrap_err(), Error::MalformedInput);
    assert_eq!(
        Cards::try_from("Card 1: 1 | 99999999999999999999").unwrap_err(),
        Error::MalformedInput
    );
}

#[test]
fn trebuchet_sum_and_tokens() {
    let t = Trebuchet::new(vec![12, 38, 15, 77]);
    assert_eq!(t.sum(), 142);
    assert_eq!(Trebuchet::parse_str_digit("seven").unwrap(), 7);
    assert_eq!(Trebuchet::parse_str_digit("40").unwrap(), 40);
    assert_eq!(Trebuchet::parse_str_digit("+7").unwrap(), 7);
    assert_eq!(
        Trebuchet::parse_str_digit("sevenx").unwrap_err(),
        Error::MalformedInput
    );
    assert_eq!(
        Trebuchet::from_str1("abc\n").unwrap_err(),
        Error::MalformedInput
    );
}
