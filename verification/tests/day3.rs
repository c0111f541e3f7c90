use aoc2023::day3::{
    compute, is_adjusted_to_one_of_symbols, output_number, output_symbol, parse, try_compute,
    try_parse, Number, Output, Pos, StateMachine, Symbol,
};

const EXAMPLE: &str = "467..114..
...*......
..35..633.
......#...
617*......
.....+.58.
..592.....
......755.
...$.*....
.664.598..";

#[test]
fn should_compute() {
    let input = "
467..114..
...*......
..35..633.
......#...
617*......
.....+.58.
..592.....
......755.
...$.*....
.664.598..
"
    .trim();
    let sum = compute(input);
    assert_eq!(sum, 4361);
}

#[test]
fn numbers_that_touch_no_symbol_are_left_out() {
    let (numbers, symbols) = parse(EXAMPLE);
    let all: u32 = numbers.iter().map(|n| n.value).sum();
    assert_eq!(all, 4361 + 114 + 58);
    assert_eq!(numbers.len(), 10);
    assert_eq!(symbols.len(), 6);
    assert_eq!(numbers[1], Number { value: 114, pos: Pos { x: 5, y: 0 }, size: 3 });
    assert_eq!(symbols[0], Symbol { value: '*', pos: Pos { x: 3, y: 1 } });
    assert_eq!(try_compute(EXAMPLE), Some(4361));
}

#[test]
fn a_row_end_ends_a_number() {
    let (numbers, symbols) = parse("..12\n34..");
    assert_eq!(
        numbers,
        vec![
            Number { value: 12, pos: Pos { x: 2, y: 0 }, size: 2 },
            Number { value: 34, pos: Pos { x: 0, y: 1 }, size: 2 },
        ]
    );
    assert!(symbols.is_empty());
}

#[test]
fn a_number_too_large_is_refused() {
    assert!(try_parse("4294967295*").is_some());
    assert_eq!(try_compute("4294967295*"), Some(4294967295));
    assert!(try_parse("4294967296*").is_none());
    assert_eq!(try_compute("4294967296*"), None);
    assert_eq!(try_compute("4294967295*1"), None);
}

#[test]
fn a_number_takes_the_cells_of_its_digits() {
    let number = Number { value: 467, pos: Pos { x: 2, y: 5 }, size: 3 };
    assert_eq!(
        number.all_taken_positions(),
        vec![Pos { x: 2, y: 5 }, Pos { x: 3, y: 5 }, Pos { x: 4, y: 5 }]
    );
    let none = Number { value: 0, pos: Pos { x: 2, y: 5 }, size: 0 };
    assert!(none.all_taken_positions().is_empty());
}

#[test]
fn a_symbol_has_eight_cells_around_it_and_fewer_at_an_edge() {
    let inside = Symbol { value: '*', pos: Pos { x: 3, y: 1 } };
    assert_eq!(
        inside.all_nearby_positions(),
        vec![
            Pos { x: 2, y: 0 },
            Pos { x: 2, y: 1 },
            Pos { x: 2, y: 2 },
            Pos { x: 3, y: 0 },
            Pos { x: 3, y: 2 },
            Pos { x: 4, y: 0 },
            Pos { x: 4, y: 1 },
            Pos { x: 4, y: 2 },
        ]
    );
    let corner = Symbol { value: '#', pos: Pos { x: 0, y: 0 } };
    assert_eq!(
        corner.all_nearby_positions(),
        vec![Pos { x: 0, y: 1 }, Pos { x: 1, y: 0 }, Pos { x: 1, y: 1 }]
    );
    let left = Symbol { value: '#', pos: Pos { x: 0, y: 4 } };
    assert_eq!(left.all_nearby_positions().len(), 5);
    let top = Symbol { value: '#', pos: Pos { x: 4, y: 0 } };
    assert_eq!(top.all_nearby_positions().len(), 5);
}

#[test]
fn a_number_counts_when_a_cell_of_it_touches_a_symbol() {
    let number = Number { value: 35, pos: Pos { x: 2, y: 2 }, size: 2 };
    let at = |x: usize, y: usize| Symbol { value: '*', pos: Pos { x, y } };
    assert!(is_adjusted_to_one_of_symbols(&number, &[at(3, 1)]));
    assert!(is_adjusted_to_one_of_symbols(&number, &[at(1, 1)]));
    assert!(is_adjusted_to_one_of_symbols(&number, &[at(4, 3)]));
    assert!(is_adjusted_to_one_of_symbols(&number, &[at(1, 2)]));
    assert!(is_adjusted_to_one_of_symbols(&number, &[at(9, 9), at(4, 2)]));
    assert!(!is_adjusted_to_one_of_symbols(&number, &[at(0, 2)]));
    assert!(!is_adjusted_to_one_of_symbols(&number, &[at(5, 2)]));
    assert!(!is_adjusted_to_one_of_symbols(&number, &[at(3, 0)]));
    assert!(!is_adjusted_to_one_of_symbols(&number, &[at(3, 4), at(5, 1)]));
    assert!(!is_adjusted_to_one_of_symbols(&number, &[]));
    // a symbol in a cell of the number itself touches the cell beside it
    assert!(is_adjusted_to_one_of_symbols(&number, &[at(2, 2)]));
    let single = Number { value: 7, pos: Pos { x: 2, y: 2 }, size: 1 };
    assert!(!is_adjusted_to_one_of_symbols(&single, &[at(2, 2)]));
}

#[test]
fn the_tokenizer_puts_out_what_the_next_character_completes() {
    let mut state = StateMachine::default();
    assert_eq!(state.feed_char(0, 0, '4'), None);
    assert_eq!(state.feed_char(1, 0, '2'), None);
    assert!(state.is_ready());
    assert_eq!(
        state.feed_char(2, 0, '*'),
        Some(Output::Number(Number { value: 42, pos: Pos { x: 0, y: 0 }, size: 2 }))
    );
    assert_eq!(
        state.feed_char(3, 0, '#'),
        Some(Output::Symbol(Symbol { value: '*', pos: Pos { x: 2, y: 0 } }))
    );
    assert_eq!(
        state.feed_char(4, 0, '.'),
        Some(Output::Symbol(Symbol { value: '#', pos: Pos { x: 3, y: 0 } }))
    );
    assert_eq!(state.feed_char(5, 0, '.'), None);
    assert_eq!(state.flush(), None);
    assert_eq!(state.feed_char(6, 0, '+'), None);
    assert_eq!(
        state.feed_char(7, 0, '0'),
        Some(Output::Symbol(Symbol { value: '+', pos: Pos { x: 6, y: 0 } }))
    );
    assert_eq!(state.feed_char(8, 0, '7'), None);
    assert_eq!(
        state.flush(),
        Some(Output::Number(Number { value: 7, pos: Pos { x: 7, y: 0 }, size: 2 }))
    );
    assert_eq!(state.flush(), None);
}

#[test]
fn the_tokenizer_knows_when_a_number_is_too_large() {
    let mut state = StateMachine::default();
    for (x, c) in "4294967295".chars().enumerate() {
        assert_eq!(state.feed_char(x, 0, c), None);
    }
    assert!(state.is_ready());
    assert_eq!(state.feed_char(10, 0, '0'), None);
    assert!(!state.is_ready());
}

#[test]
fn tokens_are_made_from_their_parts() {
    assert_eq!(
        output_number(Pos { x: 1, y: 2 }, vec!['0', '9', '0']),
        Some(Output::Number(Number { value: 90, pos: Pos { x: 1, y: 2 }, size: 3 }))
    );
    assert_eq!(
        output_symbol(Pos { x: 1, y: 2 }, '\u{e9}'),
        Some(Output::Symbol(Symbol { value: '\u{e9}', pos: Pos { x: 1, y: 2 } }))
    );
}

#[test]
fn any_character_but_a_digit_and_a_dot_is_a_symbol() {
    let (numbers, symbols) = parse("1a.\u{e9}2 \r\n.\r3");
    assert_eq!(numbers.iter().map(|n| n.value).collect::<Vec<u32>>(), vec![1, 2, 3]);
    assert_eq!(
        symbols.iter().map(|s| (s.value, s.pos.x, s.pos.y)).collect::<Vec<(char, usize, usize)>>(),
        vec![('a', 1, 0), ('\u{e9}', 3, 0), (' ', 5, 0), ('\r', 1, 1)]
    );
    assert_eq!(try_compute("1a.\u{e9}2 \r\n.\r3"), Some(6));
    assert_eq!(try_compute(""), Some(0));
    assert_eq!(try_compute("12\n..\n.*"), Some(0));
    assert_eq!(try_compute("12\n.*"), Some(12));
}
