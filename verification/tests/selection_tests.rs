use sub::selection::{is_affirmative, parse_selection, pick_number, selection_of_chars};

#[test]
fn selection_of_single_numbers() {
    assert_eq!(parse_selection("1,3,5", 5), vec![0, 2, 4]);
    assert_eq!(parse_selection("5,1,3", 5), vec![0, 2, 4]);
}

#[test]
fn selection_of_a_range() {
    assert_eq!(parse_selection("1-3", 10), vec![0, 1, 2]);
    assert_eq!(parse_selection("2-2", 10), vec![1]);
}

#[test]
fn selection_of_all() {
    assert_eq!(parse_selection("all", 4), vec![0, 1, 2, 3]);
    assert_eq!(parse_selection("  ALL \n", 3), vec![0, 1, 2]);
    assert_eq!(parse_selection("all", 0), Vec::<usize>::new());
}

#[test]
fn selection_is_sorted_and_deduplicated() {
    assert_eq!(parse_selection("3,1-3,2,2", 5), vec![0, 1, 2]);
}

#[test]
fn selection_drops_what_is_out_of_range() {
    assert_eq!(parse_selection("0,6,2", 5), vec![1]);
    assert_eq!(parse_selection("4-9", 5), vec![3, 4]);
    assert_eq!(parse_selection("0-2", 5), vec![0, 1]);
    assert_eq!(parse_selection("3-1", 5), Vec::<usize>::new());
}

#[test]
fn selection_ignores_malformed_parts() {
    assert_eq!(parse_selection("1 - 3", 5), Vec::<usize>::new());
    assert_eq!(parse_selection("1-2-3", 5), Vec::<usize>::new());
    assert_eq!(parse_selection("a,2,", 5), vec![1]);
    assert_eq!(parse_selection("", 5), Vec::<usize>::new());
    assert_eq!(parse_selection("-", 5), Vec::<usize>::new());
    assert_eq!(parse_selection("99999999999999999999999", 5), Vec::<usize>::new());
}

#[test]
fn selection_parts_are_trimmed_and_plus_signs_accepted() {
    assert_eq!(parse_selection(" 1 , 4 ", 5), vec![0, 3]);
    assert_eq!(parse_selection("+2", 5), vec![1]);
    assert_eq!(parse_selection("+1-+2", 5), vec![0, 1]);
}

#[test]
fn huge_range_is_clipped() {
    assert_eq!(parse_selection("1-18446744073709551615", 3), vec![0, 1, 2]);
}

#[test]
fn selection_of_chars_input() {
    let lowered: Vec<char> = "all".chars().collect();
    assert_eq!(selection_of_chars(&lowered, 2), vec![0, 1]);
    let mixed: Vec<char> = " aLL\t".chars().collect();
    assert_eq!(selection_of_chars(&mixed, 2), vec![0, 1]);
    let parts: Vec<char> = "2, 1".chars().collect();
    assert_eq!(selection_of_chars(&parts, 2), vec![0, 1]);
}

#[test]
fn all_only_as_the_whole_input() {
    assert_eq!(parse_selection("all,1", 3), vec![0]);
    assert_eq!(parse_selection("all,", 3), Vec::<usize>::new());
    assert_eq!(parse_selection("al l", 3), Vec::<usize>::new());
    assert_eq!(parse_selection("alll", 3), Vec::<usize>::new());
}

#[test]
fn pick_number_answers() {
    assert_eq!(pick_number("", 5, 1), Some(1));
    assert_eq!(pick_number("  \n", 5, 2), Some(2));
    assert_eq!(pick_number("s", 5, 1), None);
    assert_eq!(pick_number(" S \n", 5, 1), None);
    assert_eq!(pick_number("3\n", 5, 1), Some(3));
    assert_eq!(pick_number("0", 5, 1), None);
    assert_eq!(pick_number("6", 5, 1), None);
    assert_eq!(pick_number("x", 5, 1), None);
    assert_eq!(pick_number("+4", 5, 1), Some(4));
}

#[test]
fn affirmative_answers() {
    assert!(is_affirmative("y"));
    assert!(is_affirmative(" Y\n"));
    assert!(!is_affirmative("yes"));
    assert!(!is_affirmative(""));
    assert!(!is_affirmative("n"));
}

#[test]
fn joined_selection_is_sorted_union() {
    let cases = [
        ("1,3", "2-4"),
        ("5", "1"),
        ("x", "2"),
        ("4-2", "3"),
        ("  1 \n", " 3-4"),
        ("\t", "2"),
        ("ALLx", "5"),
    ];
    for (a, b) in cases {
        let joined = parse_selection(&format!("{},{}", a, b), 5);
        let mut union = parse_selection(a, 5);
        union.extend(parse_selection(b, 5));
        union.sort();
        union.dedup();
        assert_eq!(joined, union);
        assert_eq!(parse_selection(&format!("{},{}", b, a), 5), joined);
    }
}
