use aoc2023::day2::{
    color, game, games, grab, is_possible_game, is_possible_grab, number_color, parse_games,
    sum_of_possible_ids, Color, Game, Grab, ParseError,
};

const EXAMPLE: &str = "Game 1: 3 blue, 4 red; 1 red, 2 green, 6 blue; 2 green
Game 2: 1 blue, 2 green; 3 green, 4 blue, 1 red; 1 green, 1 blue
Game 3: 8 green, 6 blue, 20 red; 5 blue, 4 red, 13 green; 5 green, 1 red
Game 4: 1 green, 3 red, 6 blue; 3 green, 6 red; 3 green, 15 blue, 14 red
Game 5: 6 red, 1 blue, 3 green; 2 blue, 1 red, 2 green";

#[test]
fn should_parse_number_color() {
    assert_eq!(number_color("142 red;").unwrap(), (";", (142, Color::Red)));
    assert_eq!(
        number_color("142 green").unwrap(),
        ("", (142, Color::Green))
    );
    assert_eq!(number_color("1 blue").unwrap(), ("", (1, Color::Blue)));
}

#[test]
fn should_parse_grab() {
    assert_eq!(
        grab("1 green, 9 blue;").unwrap(),
        (
            ";",
            Grab {
                red: 0,
                green: 1,
                blue: 9
            }
        )
    );
}

#[test]
fn should_parse_game() {
    assert_eq!(
        game("Game 15: 6 blue; 4 blue; 1 red, 16 blue, 3 green").unwrap(),
        (
            "",
            Game {
                id: 15,
                grabs: vec![
                    Grab {
                        red: 0,
                        green: 0,
                        blue: 6
                    },
                    Grab {
                        red: 0,
                        green: 0,
                        blue: 4
                    },
                    Grab {
                        red: 1,
                        green: 3,
                        blue: 16
                    },
                ]
            }
        )
    );
}

#[test]
fn the_possible_games_of_the_example_are_1_2_and_5() {
    let games = parse_games(EXAMPLE);
    assert_eq!(games.len(), 5);
    let possible: Vec<i32> =
        games.iter().filter(|game| is_possible_game(game)).map(|game| game.id).collect();
    assert_eq!(possible, vec![1, 2, 5]);
    assert_eq!(sum_of_possible_ids(&games), Some(8));
}

#[test]
fn one_grab_over_the_limit_spoils_the_game() {
    assert!(is_possible_grab(&Grab { red: 12, green: 13, blue: 14 }));
    assert!(!is_possible_grab(&Grab { red: 13, green: 0, blue: 0 }));
    assert!(!is_possible_grab(&Grab { red: 0, green: 14, blue: 0 }));
    assert!(!is_possible_grab(&Grab { red: 0, green: 0, blue: 15 }));
    let fine = Grab { red: 1, green: 1, blue: 1 };
    let over = Grab { red: 1, green: 1, blue: 15 };
    assert!(is_possible_game(&Game { id: 1, grabs: vec![fine, fine, fine] }));
    assert!(!is_possible_game(&Game { id: 1, grabs: vec![fine, over, fine] }));
    assert!(!is_possible_game(&Game { id: 1, grabs: vec![over] }));
    assert!(is_possible_game(&Game { id: 1, grabs: vec![] }));
}

#[test]
fn the_sum_of_a_mixed_list_is_the_sum_of_its_possible_games() {
    let fine = Grab { red: 1, green: 1, blue: 1 };
    let over = Grab { red: 20, green: 1, blue: 1 };
    let mixed = vec![
        Game { id: 3, grabs: vec![fine] },
        Game { id: 50, grabs: vec![fine, over] },
        Game { id: 7, grabs: vec![fine, fine] },
        Game { id: 1000, grabs: vec![over] },
    ];
    let only_possible =
        vec![Game { id: 3, grabs: vec![fine] }, Game { id: 7, grabs: vec![fine, fine] }];
    assert_eq!(sum_of_possible_ids(&mixed), Some(10));
    assert_eq!(sum_of_possible_ids(&mixed), sum_of_possible_ids(&only_possible));
    assert_eq!(sum_of_possible_ids(&vec![]), Some(0));
}

#[test]
fn a_sum_that_leaves_32_bits_is_refused() {
    let fine = Grab { red: 1, green: 1, blue: 1 };
    let games = vec![
        Game { id: i32::MAX, grabs: vec![fine] },
        Game { id: 1, grabs: vec![fine] },
        Game { id: -5, grabs: vec![fine] },
    ];
    assert_eq!(sum_of_possible_ids(&games), None);
    let games =
        vec![Game { id: i32::MAX, grabs: vec![fine] }, Game { id: -5, grabs: vec![fine] }];
    assert_eq!(sum_of_possible_ids(&games), Some(i32::MAX - 5));
}

#[test]
fn a_colour_is_one_of_three_names() {
    assert_eq!(color("red"), Ok(("", Color::Red)));
    assert_eq!(color("green, 1 blue"), Ok((", 1 blue", Color::Green)));
    assert_eq!(color("blue;x"), Ok((";x", Color::Blue)));
    assert_eq!(color("reds"), Err(ParseError::NoMatch));
    assert_eq!(color("red1"), Err(ParseError::NoMatch));
    assert_eq!(color("Red"), Err(ParseError::NoMatch));
    assert_eq!(color(" red"), Err(ParseError::NoMatch));
    assert_eq!(color(""), Err(ParseError::NoMatch));
}

#[test]
fn a_count_needs_digits_blanks_and_a_colour() {
    assert_eq!(number_color("7 \t red rest"), Ok((" rest", (7, Color::Red))));
    assert_eq!(number_color("007 red"), Ok(("", (7, Color::Red))));
    assert_eq!(number_color("7red"), Err(ParseError::NoMatch));
    assert_eq!(number_color(" 7 red"), Err(ParseError::NoMatch));
    assert_eq!(number_color("+7 red"), Err(ParseError::NoMatch));
    assert_eq!(number_color("7 pink"), Err(ParseError::NoMatch));
    assert_eq!(number_color("2147483647 red"), Ok(("", (2147483647, Color::Red))));
    assert_eq!(number_color("2147483648 red"), Err(ParseError::Overflow));
    assert_eq!(number_color("2147483648 pink"), Err(ParseError::NoMatch));
}

#[test]
fn a_colour_that_comes_again_replaces_the_count() {
    assert_eq!(grab("3 red, 4 red"), Ok(("", Grab { red: 4, green: 0, blue: 0 })));
    assert_eq!(grab("3 red ,4 blue,5 green"), Ok(("", Grab { red: 3, green: 5, blue: 4 })));
}

#[test]
fn a_list_stops_before_what_it_cannot_read() {
    assert_eq!(grab("3 red, 4 pink"), Ok((", 4 pink", Grab { red: 3, green: 0, blue: 0 })));
    assert_eq!(grab("3 red,"), Ok((",", Grab { red: 3, green: 0, blue: 0 })));
    assert_eq!(grab("3 red ; 1 blue"), Ok((" ; 1 blue", Grab { red: 3, green: 0, blue: 0 })));
    assert_eq!(grab("3 red, 99999999999 red"), Err(ParseError::Overflow));
    let (rest, found) = game("Game 2: 1 red; 2 blue; x").unwrap();
    assert_eq!(rest, "; x");
    assert_eq!(found.grabs.len(), 2);
    let (rest, found) = games("Game 1: 1 red\nGame 2: 2 blue\nGame x: 1 red\n").unwrap();
    assert_eq!(rest, "\nGame x: 1 red\n");
    assert_eq!(found.len(), 2);
    assert_eq!(found[1], Game { id: 2, grabs: vec![Grab { red: 0, green: 0, blue: 2 }] });
}

#[test]
fn a_game_needs_its_header() {
    assert_eq!(game("  Game   7:  1 red").unwrap().1.id, 7);
    assert_eq!(game("Game 7:1 red"), Err(ParseError::NoMatch));
    assert_eq!(game("Game7: 1 red"), Err(ParseError::NoMatch));
    assert_eq!(game("game 7: 1 red"), Err(ParseError::NoMatch));
    assert_eq!(game("Game 7 : 1 red"), Err(ParseError::NoMatch));
    assert_eq!(game("Game 7: "), Err(ParseError::NoMatch));
    assert_eq!(game("Game : 1 red"), Err(ParseError::NoMatch));
    assert_eq!(game(""), Err(ParseError::NoMatch));
    assert_eq!(game("Game 99999999999: 1 red"), Err(ParseError::Overflow));
    assert_eq!(game("Game 99999999999: 1 pink"), Err(ParseError::NoMatch));
    assert!(games("\nGame 1: 1 red").is_err());
    assert!(games("").is_err());
}
