use tabview::numeric::{dec_le_exec, parse_decimal};
use tabview::state::{get_last_element_from_path, App};
use tabview::store::load_from_bytes;
use tabview::text::{contains_sub, find_sub, str_lex_le};
use tabview::window::{clip_window, match_span, visible_slice};

#[test]
fn decimal_parse_accepts_plain_forms() {
    assert_eq!(parse_decimal("10"), Some((false, 10, 0)));
    assert_eq!(parse_decimal("-2"), Some((true, 2, 0)));
    assert_eq!(parse_decimal("+7"), Some((false, 7, 0)));
    assert_eq!(parse_decimal("3.14"), Some((false, 314, 2)));
    assert_eq!(parse_decimal("-0.5"), Some((true, 5, 1)));
    assert_eq!(parse_decimal("5."), Some((false, 5, 0)));
    assert_eq!(parse_decimal(".5"), Some((false, 5, 1)));
    assert_eq!(parse_decimal("000123"), Some((false, 123, 0)));
}

#[test]
fn decimal_parse_rejects_non_numbers() {
    assert_eq!(parse_decimal(""), None);
    assert_eq!(parse_decimal("abc"), None);
    assert_eq!(parse_decimal("1.2.3"), None);
    assert_eq!(parse_decimal("1e3"), None);
    assert_eq!(parse_decimal("-"), None);
    assert_eq!(parse_decimal("."), None);
    assert_eq!(parse_decimal("12 "), None);
    // more than eighteen digits is beyond the numeric sort policy
    assert_eq!(parse_decimal("1234567890123456789"), None);
    assert_eq!(parse_decimal("123456789012345678"), Some((false, 123456789012345678, 0)));
}

#[test]
fn decimal_compare_is_by_value() {
    let two = parse_decimal("2").unwrap();
    let ten = parse_decimal("10").unwrap();
    assert!(dec_le_exec(two, ten));
    assert!(!dec_le_exec(ten, two));
    let half = parse_decimal("0.5").unwrap();
    let quarter = parse_decimal(".25").unwrap();
    assert!(dec_le_exec(quarter, half));
    assert!(!dec_le_exec(half, quarter));
    let neg = parse_decimal("-3").unwrap();
    assert!(dec_le_exec(neg, quarter));
    let one_a = parse_decimal("1.0").unwrap();
    let one_b = parse_decimal("1").unwrap();
    assert!(dec_le_exec(one_a, one_b) && dec_le_exec(one_b, one_a));
    let zero = parse_decimal("0").unwrap();
    let neg_zero = parse_decimal("-0.0").unwrap();
    assert!(dec_le_exec(zero, neg_zero) && dec_le_exec(neg_zero, zero));
}

#[test]
fn substring_search_finds_first_occurrence() {
    assert_eq!(find_sub("banana", "an"), Some(1));
    assert_eq!(find_sub("banana", "na"), Some(2));
    assert_eq!(find_sub("banana", "x"), None);
    assert_eq!(find_sub("abc", ""), Some(0));
    assert_eq!(find_sub("", ""), Some(0));
    assert_eq!(find_sub("", "a"), None);
    assert!(contains_sub("Paris", "ar"));
    assert!(!contains_sub("Paris", "AR"));
}

#[test]
fn lexicographic_compare_is_by_scalar_value() {
    assert!(str_lex_le("10", "2"));
    assert!(!str_lex_le("2", "10"));
    assert!(str_lex_le("abc", "abd"));
    assert!(str_lex_le("ab", "abc"));
    assert!(!str_lex_le("abc", "ab"));
    assert!(str_lex_le("", "a"));
    assert!(str_lex_le("a", "a"));
}

#[test]
fn window_clips_to_current_length() {
    assert_eq!(clip_window(100, 10, 20, 5), (5, 25));
    assert_eq!(clip_window(100, 2, 20, 5), (0, 25));
    assert_eq!(clip_window(22, 10, 20, 5), (5, 22));
    assert_eq!(clip_window(10, 0, 10, 0), (0, 10));
    // the row source shrank since the renderer asked: clip, do not trust
    assert_eq!(clip_window(3, 10, 20, 5), (3, 3));
    assert_eq!(clip_window(0, 0, 0, 7), (0, 0));
}

#[test]
fn window_size_meets_the_overscan_bound() {
    // symmetric room on both sides: the full widened window
    let (lo, hi) = clip_window(100, 10, 20, 5);
    assert!(hi - lo >= std::cmp::min(100, 20 - 10 + 2 * 5));
    // tiny source: the whole source
    let (lo, hi) = clip_window(4, 0, 4, 10);
    assert_eq!((lo, hi), (0, 4));
    assert!(hi - lo >= std::cmp::min(4, 4 + 20));
}

#[test]
fn visible_slice_materializes_the_window() {
    let (store, _) =
        load_from_bytes("id\n0\n1\n2\n3\n4\n5\n6\n7\n8\n9\n".as_bytes()).expect("csv");
    let indices: Vec<usize> = (0..10).collect();
    let rows = visible_slice(&store, &indices, 4, 6, 1);
    assert_eq!(rows.len(), 4);
    assert_eq!(rows[0], vec!["3"]);
    assert_eq!(rows[3], vec!["6"]);
    // a filtered, reordered source: the slice follows the indices
    let picked = vec![9usize, 0, 5];
    let rows = visible_slice(&store, &picked, 0, 3, 0);
    assert_eq!(rows, vec![vec!["9"], vec!["0"], vec!["5"]]);
    // a range past the end of a shrunken source yields nothing
    let rows = visible_slice(&store, &picked, 7, 9, 0);
    assert!(rows.is_empty());
}

#[test]
fn match_span_marks_the_highlight() {
    assert_eq!(match_span("Paris", "ar"), Some((1, 2)));
    assert_eq!(match_span("banana", "na"), Some((2, 2)));
    assert_eq!(match_span("Rome", "ar"), None);
}

#[test]
fn selection_pages_down_and_wraps() {
    let rows: Vec<Vec<String>> = (0..25).map(|i| vec![i.to_string()]).collect();
    let mut app = App::new(rows);
    assert_eq!(app.selected, None);
    app.next();
    assert_eq!(app.selected, Some(0));
    app.next();
    assert_eq!(app.selected, Some(10));
    app.next();
    assert_eq!(app.selected, Some(20));
    // a full page would run past the end: wrap to the top
    app.next();
    assert_eq!(app.selected, Some(0));
}

#[test]
fn selection_steps_up_and_wraps() {
    let rows: Vec<Vec<String>> = (0..5).map(|i| vec![i.to_string()]).collect();
    let mut app = App::new(rows);
    app.previous();
    assert_eq!(app.selected, Some(0));
    app.previous();
    assert_eq!(app.selected, Some(4));
    app.previous();
    assert_eq!(app.selected, Some(3));
}

#[test]
fn selection_never_panics_on_an_empty_table() {
    let mut app = App::new(Vec::new());
    app.next();
    assert_eq!(app.selected, Some(0));
    app.previous();
    assert_eq!(app.selected, Some(0));
}

#[test]
fn last_path_element_names_the_tab() {
    assert_eq!(get_last_element_from_path("/home/user/data.csv"), Some("data.csv"));
    assert_eq!(get_last_element_from_path("data.csv"), Some("data.csv"));
    assert_eq!(get_last_element_from_path("dir/"), Some(""));
    assert_eq!(get_last_element_from_path(""), Some(""));
}

#[test]
fn text_search_counts_characters_not_bytes() {
    assert!(contains_sub("na\u{ef}ve", "\u{ef}v"));
    assert_eq!(match_span("na\u{ef}ve", "\u{ef}v"), Some((2, 2)));
    assert_eq!(find_sub("\u{e9}t\u{e9}", "t\u{e9}"), Some(1));
    assert_eq!(
        get_last_element_from_path("dossiers/\u{e9}t\u{e9}.csv"),
        Some("\u{e9}t\u{e9}.csv")
    );
}

#[test]
fn header_only_input_loads_an_empty_store() {
    let (store, dropped) = load_from_bytes("a,b\n".as_bytes()).expect("csv");
    assert_eq!(store.header.len(), 2);
    assert!(store.rows.is_empty());
    assert_eq!(dropped, 0);
}
