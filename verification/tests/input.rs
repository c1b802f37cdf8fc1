use bidir_search::grid::{initialize_empty_grid, Cell};
use bidir_search::input::{is_end_marker, parse_coordinates, place_obstacle};

// the same with the parsers of std, on text
fn by_std(input: &str, trim_pieces: bool) -> Option<(usize, usize)> {
    let coords: Vec<usize> = input
        .trim()
        .split(',')
        .filter_map(|s| if trim_pieces { s.trim().parse().ok() } else { s.parse().ok() })
        .collect();
    if coords.len() == 2 && coords[0] < 100 && coords[1] < 100 {
        Some((coords[0], coords[1]))
    } else {
        None
    }
}

#[test]
fn two_numbers_name_a_cell() {
    assert_eq!(parse_coordinates(b"3,4", false), Some((3, 4)));
    assert_eq!(parse_coordinates(b"0,0", false), Some((0, 0)));
    assert_eq!(parse_coordinates(b"99,99", true), Some((99, 99)));
    assert_eq!(parse_coordinates(b"17,42", true), Some((17, 42)));
}

#[test]
fn white_space_round_the_line_does_not_count() {
    assert_eq!(parse_coordinates(b"  3,4\n", false), Some((3, 4)));
    assert_eq!(parse_coordinates(b"\t3,4\r\n", false), Some((3, 4)));
    assert_eq!(parse_coordinates(b"\x0b3,4\x0c", true), Some((3, 4)));
}

#[test]
fn white_space_round_a_number_counts_unless_trimmed() {
    assert_eq!(parse_coordinates(b"3, 4", false), None);
    assert_eq!(parse_coordinates(b"3 ,4", false), None);
    assert_eq!(parse_coordinates(b"3, 4", true), Some((3, 4)));
    assert_eq!(parse_coordinates(b" 3 ,\t4 \n", true), Some((3, 4)));
    assert_eq!(parse_coordinates(b"3 4,5", true), None);
}

#[test]
fn pieces_that_are_no_numbers_are_left_out() {
    assert_eq!(parse_coordinates(b"1,abc,2", false), Some((1, 2)));
    assert_eq!(parse_coordinates(b",1,,2,", false), Some((1, 2)));
    assert_eq!(parse_coordinates(b"x,7,y,8,z", true), Some((7, 8)));
    assert_eq!(parse_coordinates(b"-1,2,3", false), Some((2, 3)));
    assert_eq!(parse_coordinates(b"1.5,2,3", false), Some((2, 3)));
}

#[test]
fn one_or_three_numbers_name_no_cell() {
    assert_eq!(parse_coordinates(b"", false), None);
    assert_eq!(parse_coordinates(b"   ", true), None);
    assert_eq!(parse_coordinates(b"5", false), None);
    assert_eq!(parse_coordinates(b"5,", false), None);
    assert_eq!(parse_coordinates(b"1,2,3", false), None);
    assert_eq!(parse_coordinates(b"-1,2", false), None);
    assert_eq!(parse_coordinates(b"a,b", true), None);
}

#[test]
fn numbers_take_a_plus_and_leading_zeros() {
    assert_eq!(parse_coordinates(b"+7,+8", false), Some((7, 8)));
    assert_eq!(parse_coordinates(b"007,08", false), Some((7, 8)));
    assert_eq!(parse_coordinates(b"+,1,2", false), Some((1, 2)));
    assert_eq!(parse_coordinates(b"++1,2", false), None);
    assert_eq!(parse_coordinates(b"1+,2", false), None);
}

#[test]
fn numbers_beyond_the_grid_name_no_cell() {
    assert_eq!(parse_coordinates(b"100,5", false), None);
    assert_eq!(parse_coordinates(b"5,100", false), None);
    assert_eq!(parse_coordinates(b"99,5", false), Some((99, 5)));
    assert_eq!(parse_coordinates(b"18446744073709551615,5", false), None);
}

#[test]
fn numbers_that_fit_no_usize_are_left_out() {
    assert_eq!(parse_coordinates(b"18446744073709551616,1,2", false), Some((1, 2)));
    assert_eq!(parse_coordinates(b"99999999999999999999999999999999999999999,1,2", true), Some((1, 2)));
    assert_eq!(parse_coordinates(b"1,2,18446744073709551616", false), Some((1, 2)));
    assert_eq!(parse_coordinates(b"1,2,18446744073709551615", false), None);
}

#[test]
fn agrees_with_the_parsers_of_std() {
    let lines = [
        "3,4", " 3,4 ", "3, 4", "3 ,4", "1,abc,2", ",1,,2,", "", ",", ",,", "5", "1,2,3", "+1,+2",
        "-1,2", "007,08", "100,5", "99,99", "1,2,", "a", "1 2,3", "18446744073709551616,1,2",
        "18446744073709551615,1", "+,3,4", "3,4\r\n", "\t3\t,\t4\t", "3,,4", "0x1,2,3", "1e1,2,3",
        "١,2,3", "1,2\u{0}", " , , ", "+0,-0", "++1,2", "12,34,", "99,100", "0,0",
    ];
    for line in lines {
        for trim_pieces in [false, true] {
            assert_eq!(
                parse_coordinates(line.as_bytes(), trim_pieces),
                by_std(line, trim_pieces),
                "{:?} {}",
                line,
                trim_pieces
            );
        }
    }
}

#[test]
fn the_end_marker_is_fin_in_any_case() {
    assert!(is_end_marker(b"fin"));
    assert!(is_end_marker(b"FIN"));
    assert!(is_end_marker(b"Fin"));
    assert!(is_end_marker(b"fIn\n"));
    assert!(is_end_marker(b"  fin \r\n"));
    assert!(!is_end_marker(b"fine"));
    assert!(!is_end_marker(b"fi"));
    assert!(!is_end_marker(b""));
    assert!(!is_end_marker(b"f in"));
    assert!(!is_end_marker(b"end"));
    assert!(!is_end_marker(b"1,2"));
}

#[test]
fn an_obstacle_is_placed_in_the_named_cell() {
    let mut grid = initialize_empty_grid();
    assert_eq!(place_obstacle(&mut grid, b" 17 , 42 \n"), Some((17, 42)));
    assert_eq!(grid[42][17], Cell::Obstacle);
    assert_eq!(grid[17][42], Cell::Empty);
    let mut count = 0;
    for row in grid.iter() {
        for &cell in row.iter() {
            if cell == Cell::Obstacle {
                count += 1;
            }
        }
    }
    assert_eq!(count, 1);
}

#[test]
fn a_line_that_names_no_cell_places_nothing() {
    let mut grid = initialize_empty_grid();
    for line in [&b"100,1"[..], b"1", b"", b"fin", b"1,2,3"] {
        assert_eq!(place_obstacle(&mut grid, line), None);
    }
    assert!(grid.iter().all(|row| row.iter().all(|&cell| cell == Cell::Empty)));
}
