//! The grammar of the game records, written with `nom`'s combinators, and the parsers of
//! the library held against it.

use aoc2023::day2::{color, game, games, grab, number_color, Color, Game, Grab, ParseError};
use nom::bytes::complete::tag;
use nom::character::complete::{alphanumeric1, digit1, space0, space1};
use nom::combinator::fail;
use nom::multi::separated_list1;
use nom::IResult;

fn nom_games(input: &str) -> IResult<&str, Vec<Game>> {
    separated_list1(tag("\n"), nom_game)(input)
}

fn nom_game(input: &str) -> IResult<&str, Game> {
    let (input, _) = space0(input)?;
    let (input, _) = tag("Game")(input)?;
    let (input, _) = space1(input)?;
    let (input, id) = digit1(input)?;
    let (input, _) = tag(":")(input)?;
    let (input, _) = space1(input)?;
    let (input, grabs) = separated_list1(nom_semicolon, nom_grab)(input)?;
    Ok((input, Game { id: id.parse().unwrap(), grabs }))
}

fn nom_comma(input: &str) -> IResult<&str, &str> {
    let (input, _) = space0(input)?;
    let (input, _) = tag(",")(input)?;
    space0(input)
}

fn nom_semicolon(input: &str) -> IResult<&str, &str> {
    let (input, _) = space0(input)?;
    let (input, _) = tag(";")(input)?;
    space0(input)
}

fn nom_grab(input: &str) -> IResult<&str, Grab> {
    let (input, list) = separated_list1(nom_comma, nom_number_color)(input)?;
    let grab = list.into_iter().fold(Grab::default(), |mut grab, (number, color)| {
        match color {
            Color::Red => grab.red = number,
            Color::Green => grab.green = number,
            Color::Blue => grab.blue = number,
        }
        grab
    });
    Ok((input, grab))
}

fn nom_number_color(input: &str) -> IResult<&str, (i32, Color)> {
    let (input, number) = digit1(input)?;
    let (input, _) = space1(input)?;
    let (input, color) = nom_color(input)?;
    Ok((input, (number.parse().unwrap(), color)))
}

fn nom_color(input: &str) -> IResult<&str, Color> {
    let (input, color) = alphanumeric1(input)?;
    match color {
        "red" => Ok((input, Color::Red)),
        "green" => Ok((input, Color::Green)),
        "blue" => Ok((input, Color::Blue)),
        _ => fail(input),
    }
}

/// What the combinators give, with every error of theirs as `NoMatch`.
fn expected<'a, T>(result: IResult<&'a str, T>) -> Result<(&'a str, T), ParseError> {
    result.map_err(|_| ParseError::NoMatch)
}

const TEXTS: [&str; 34] = [
    "",
    "red",
    "green, 1 blue",
    "blues",
    "blue7",
    "bl\u{fc}e",
    "1 red",
    "12\t \tgreen;",
    "12green",
    "12 Green",
    " 1 red",
    "3 red, 4 red",
    "3 red ,4 blue,5 green",
    "3 red, 4 pink",
    "3 red,",
    "3 red , ; 1 blue",
    "3 red;4 blue",
    "Game 1: 3 blue, 4 red; 1 red, 2 green, 6 blue; 2 green",
    "Game 15: 6 blue; 4 blue; 1 red, 16 blue, 3 green",
    "  Game   7:  1 red",
    "\tGame\t7:\t1 red\t;\t2 blue\t",
    "Game 7:1 red",
    "Game7: 1 red",
    "Game 7 : 1 red",
    "Game 7: ",
    "Game : 1 red",
    "Game 007: 1 red; 2 blue; x",
    "Game 1: 1 red\nGame 2: 2 blue",
    "Game 1: 1 red\nGame 2: 2 blue\n",
    "Game 1: 1 red\n\nGame 2: 2 blue",
    "Game 1: 1 red\r\nGame 2: 2 blue",
    "Game 1: 1 red\n  Game 2: 2 blue, 3 red ; 4 green\nGame x",
    "\nGame 1: 1 red",
    "Game 2147483647: 2147483647 red",
];

#[test]
fn colours_are_read_as_the_combinators_read_them() {
    for text in TEXTS {
        assert_eq!(color(text), expected(nom_color(text)), "{:?}", text);
    }
}

#[test]
fn counts_are_read_as_the_combinators_read_them() {
    for text in TEXTS {
        assert_eq!(number_color(text), expected(nom_number_color(text)), "{:?}", text);
    }
}

#[test]
fn grabs_are_read_as_the_combinators_read_them() {
    for text in TEXTS {
        assert_eq!(grab(text), expected(nom_grab(text)), "{:?}", text);
    }
}

#[test]
fn games_are_read_as_the_combinators_read_them() {
    for text in TEXTS {
        assert_eq!(game(text), expected(nom_game(text)), "{:?}", text);
        assert_eq!(games(text), expected(nom_games(text)), "{:?}", text);
    }
}
