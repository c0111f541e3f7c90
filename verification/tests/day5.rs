use aoc2023::day5::{
    compute_lowest_location, compute_part1, compute_part2, least, parse, parse_map,
    parse_map_range, sorted_by_source, try_compute_part1, try_compute_part2, try_parse,
    MapPipeline, MapRange, StageMap,
};

const EXAMPLE: &str = "
seeds: 79 14 55 13

seed-to-soil map:
50 98 2
52 50 48

soil-to-fertilizer map:
0 15 37
37 52 2
39 0 15

fertilizer-to-water map:
49 53 8
0 11 42
42 0 7
57 7 4

water-to-light map:
88 18 7
18 25 70

light-to-temperature map:
45 77 23
81 45 19
68 64 13

temperature-to-humidity map:
0 69 1
1 0 69

humidity-to-location map:
60 56 37
56 93 4
";

fn chars(text: &str) -> Vec<char> {
    text.chars().collect()
}

fn stage(ranges: Vec<MapRange>) -> StageMap {
    StageMap {
        full_name: String::from("a-to-b map"),
        source_category: String::from("a"),
        destination_category: String::from("b"),
        ranges,
    }
}

#[test]
fn should_compute_part1() {
    let input = "
seeds: 79 14 55 13

seed-to-soil map:
50 98 2
52 50 48

soil-to-fertilizer map:
0 15 37
37 52 2
39 0 15

fertilizer-to-water map:
49 53 8
0 11 42
42 0 7
57 7 4

water-to-light map:
88 18 7
18 25 70

light-to-temperature map:
45 77 23
81 45 19
68 64 13

temperature-to-humidity map:
0 69 1
1 0 69

humidity-to-location map:
60 56 37
56 93 4
";
    assert_eq!(compute_part1(input), 35);
    assert_eq!(compute_part2(input), 46);
}

#[test]
fn the_almanac_is_read_with_its_names_and_sorted_ranges() {
    let data = parse(EXAMPLE);
    assert_eq!(data.seeds, vec![79, 14, 55, 13]);
    assert_eq!(data.maps.len(), 7);
    let first = &data.maps[0];
    assert_eq!(first.full_name, "seed-to-soil map");
    assert_eq!(first.source_category, "seed");
    assert_eq!(first.destination_category, "soil");
    assert_eq!(
        first.ranges,
        vec![
            MapRange { destination_start: 52, source_start: 50, length: 48 },
            MapRange { destination_start: 50, source_start: 98, length: 2 },
        ]
    );
    let third = &data.maps[2];
    let starts: Vec<u64> = third.ranges.iter().map(|range| range.source_start).collect();
    assert_eq!(starts, vec![0, 7, 11, 53]);
}

#[test]
fn a_seed_goes_through_every_map() {
    let data = parse(EXAMPLE);
    let soil: Vec<u64> = data.seeds.iter().map(|seed| data.maps[0].convert(*seed)).collect();
    assert_eq!(soil, vec![81, 14, 57, 13]);
    assert_eq!(data.maps[0].convert_many(&data.seeds), vec![81, 14, 57, 13]);
    let pipeline = MapPipeline { maps: data.maps };
    assert_eq!(pipeline.convert(79), 82);
    assert_eq!(pipeline.convert(14), 43);
    assert_eq!(pipeline.convert(55), 86);
    assert_eq!(pipeline.convert(13), 35);
    assert_eq!(pipeline.lowest_location(&data.seeds), Some(35));
    assert_eq!(pipeline.lowest_in_range(79, 14), Some(46));
    assert_eq!(pipeline.lowest_in_range(55, 13), Some(56));
    assert_eq!(pipeline.lowest_in_range(55, 0), Some(u64::MAX));
    assert_eq!(pipeline.lowest_location_of_ranges(&data.seeds), Some(46));
}

#[test]
fn a_range_takes_its_numbers_by_a_constant_offset() {
    let range = MapRange { destination_start: 50, source_start: 98, length: 2 };
    assert!(!range.contains(97));
    assert!(range.contains(98));
    assert!(range.contains(99));
    assert!(!range.contains(100));
    assert_eq!(range.convert(98), 50);
    assert_eq!(range.convert(99), 51);
    let wide = MapRange { destination_start: 0, source_start: u64::MAX - 1, length: 5 };
    assert!(wide.contains(u64::MAX));
    assert!(!wide.contains(u64::MAX - 2));
    let none = MapRange { destination_start: 7, source_start: 3, length: 0 };
    assert!(!none.contains(3));
}

#[test]
fn the_first_range_that_holds_a_number_wins() {
    let map = stage(vec![
        MapRange { destination_start: 100, source_start: 0, length: 10 },
        MapRange { destination_start: 200, source_start: 5, length: 10 },
    ]);
    assert_eq!(map.convert(4), 104);
    assert_eq!(map.convert(5), 105);
    assert_eq!(map.convert(12), 207);
    assert_eq!(map.convert(15), 15);
    assert_eq!(stage(vec![]).convert(9), 9);
}

#[test]
fn a_number_taken_out_of_64_bits_is_refused() {
    let map = stage(vec![MapRange { destination_start: u64::MAX - 1, source_start: 0, length: 5 }]);
    assert_eq!(map.try_convert(0), Some(u64::MAX - 1));
    assert_eq!(map.try_convert(1), Some(u64::MAX));
    assert_eq!(map.try_convert(2), None);
    assert_eq!(map.try_convert(5), Some(5));
    let pipeline = MapPipeline { maps: vec![map] };
    assert_eq!(pipeline.try_convert(2), None);
    assert_eq!(pipeline.lowest_location(&[9, 2]), None);
    assert_eq!(pipeline.lowest_in_range(1, 2), None);
    assert_eq!(pipeline.lowest_in_range(u64::MAX, 2), None);
    assert_eq!(pipeline.lowest_in_range(u64::MAX, 0), Some(u64::MAX));
}

#[test]
fn ranges_with_the_same_start_keep_their_order() {
    let a = MapRange { destination_start: 1, source_start: 5, length: 1 };
    let b = MapRange { destination_start: 2, source_start: 3, length: 1 };
    let c = MapRange { destination_start: 3, source_start: 5, length: 2 };
    let d = MapRange { destination_start: 4, source_start: 0, length: 1 };
    assert_eq!(sorted_by_source(&vec![a, b, c, d]), vec![d, b, a, c]);
    assert_eq!(sorted_by_source(&vec![d, b, a, c]), vec![d, b, a, c]);
    assert_eq!(sorted_by_source(&vec![]), vec![]);
}

#[test]
fn a_range_is_three_numbers_with_one_space_between() {
    assert_eq!(
        parse_map_range(&chars("50 98 2")),
        Some(MapRange { destination_start: 50, source_start: 98, length: 2 })
    );
    assert_eq!(
        parse_map_range(&chars("+1 18446744073709551615 0")),
        Some(MapRange { destination_start: 1, source_start: u64::MAX, length: 0 })
    );
    assert_eq!(parse_map_range(&chars("50 98")), None);
    assert_eq!(parse_map_range(&chars("50 98 2 7")), None);
    assert_eq!(parse_map_range(&chars("50  98 2")), None);
    assert_eq!(parse_map_range(&chars("50 98 2 ")), None);
    assert_eq!(parse_map_range(&chars("50 98 x")), None);
    assert_eq!(parse_map_range(&chars("50 98 18446744073709551616")), None);
    assert_eq!(parse_map_range(&chars("")), None);
}

#[test]
fn a_text_that_is_no_almanac_is_refused() {
    assert!(try_parse("seeds: 1 2\n\na-to-b map:\n1 2 3").is_some());
    assert!(try_parse("a-to-b map:\n1 2 3").is_none());
    assert!(try_parse("seeds: 1\n\nseeds: 2").is_none());
    assert!(try_parse("seeds: 1 x").is_none());
    assert!(try_parse("seeds 1").is_none());
    assert!(try_parse("seeds: 1\n\na-to-b map:\n1 2 3\n\n").is_none());
    assert!(try_parse("seeds: 1\n\na-to-b map:\n1 2 3\n").is_some());
    assert!(try_parse("seeds: 1\n\na-to-b table:\n1 2 3").is_none());
    assert!(try_parse("seeds: 1\n\nab map:\n1 2 3").is_none());
    assert!(try_parse("seeds: 1\n\na-to-b map:\n1 2 3\n\n4 5 6").is_none());
    assert!(try_parse("seeds: 1\n\na-to-b map:\n1 2 3\r\n4 5 6").is_none());
    assert!(try_parse("seeds: 1\n\na-to-b map: 1 2 3: 4").is_none());
    assert!(try_parse("").is_none());
    assert_eq!(try_compute_part1("seeds: 1 x"), None);
    assert_eq!(try_compute_part2("seeds: 1 x"), None);
}

#[test]
fn seeds_without_maps_are_their_own_locations() {
    assert_eq!(try_compute_part1("seeds: 8 3 5"), Some(3));
    assert_eq!(try_compute_part1("seeds:   8\t3\n5  "), Some(3));
    assert_eq!(try_compute_part1("seeds:"), Some(u64::MAX));
    assert_eq!(try_compute_part1("seeds: "), Some(u64::MAX));
    assert_eq!(try_compute_part1("seeds:\n\na-to-b map:\n1 2 3"), Some(u64::MAX));
    assert_eq!(try_compute_part2("seeds: 8 3 20 2"), Some(8));
    assert_eq!(try_compute_part2("seeds: 8 0 20 2"), Some(20));
    assert_eq!(try_compute_part2("seeds: 8 3 5"), None);
    assert_eq!(try_compute_part2("seeds:\n\na-to-b map:\n1 2 3"), None);
    assert_eq!(try_compute_part2("seeds: 18446744073709551615 1"), None);
    assert_eq!(try_compute_part2("seeds: 18446744073709551614 1"), Some(u64::MAX - 1));
}

#[test]
fn the_lowest_location_is_the_same_map_by_map() {
    let data = parse(EXAMPLE);
    assert_eq!(compute_lowest_location(data.seeds, data.maps), 35);
}

#[test]
fn a_map_written_and_read_again_converts_alike() {
    let data = parse(EXAMPLE);
    for map in &data.maps {
        let text = map.ranges_text();
        let again = parse_map(&chars(&map.full_name), &chars(&text)).unwrap();
        assert_eq!(again.ranges, map.ranges);
        assert_eq!(again.full_name, map.full_name);
        assert_eq!(again.source_category, map.source_category);
        assert_eq!(again.destination_category, map.destination_category);
        for source in 0..200u64 {
            assert_eq!(again.convert(source), map.convert(source));
        }
        assert_eq!(again.ranges_text(), text);
    }
}

#[test]
fn ranges_are_written_one_on_each_line() {
    let map = stage(vec![
        MapRange { destination_start: 0, source_start: 7, length: u64::MAX },
        MapRange { destination_start: 10, source_start: 100, length: 9 },
    ]);
    assert_eq!(map.ranges_text(), "0 7 18446744073709551615\n10 100 9");
    assert_eq!(stage(vec![]).ranges_text(), "");
    let single = stage(vec![MapRange { destination_start: 5, source_start: 0, length: 1 }]);
    assert_eq!(single.ranges_text(), "5 0 1");
}

#[test]
fn maps_with_ranges_out_of_order_are_sorted_when_read_again() {
    let map = stage(vec![
        MapRange { destination_start: 100, source_start: 5, length: 10 },
        MapRange { destination_start: 200, source_start: 0, length: 10 },
    ]);
    let again = parse_map(&chars("a-to-b map"), &chars(&map.ranges_text())).unwrap();
    assert_eq!(map.convert(7), 102);
    assert_eq!(again.convert(7), 207);
}

#[test]
fn the_lowest_of_the_ranges_is_the_least_of_their_lowest_locations() {
    let data = parse(EXAMPLE);
    let pipeline = MapPipeline { maps: data.maps };
    let lows: Vec<u64> = data
        .seeds
        .chunks(2)
        .map(|pair| pipeline.lowest_in_range(pair[0], pair[1]).unwrap())
        .collect();
    assert_eq!(lows, vec![46, 56]);
    assert_eq!(least(&lows), Some(46));
    assert_eq!(least(&lows), pipeline.lowest_location_of_ranges(&data.seeds));
    assert_eq!(least(&[]), None);
    assert_eq!(least(&[u64::MAX]), Some(u64::MAX));
    assert_eq!(least(&[9, 3, 3, 12]), Some(3));
}
