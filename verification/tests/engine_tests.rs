use tabview::engine::compute;
use tabview::store::load_from_bytes;
use tabview::store::RecordStore;
use tabview::types::SortOrder;

fn store_from(csv: &str) -> RecordStore {
    let (store, dropped) = load_from_bytes(csv.as_bytes()).expect("csv should load");
    assert_eq!(dropped, 0);
    store
}

fn column_values(store: &RecordStore, indices: &[usize], col: usize) -> Vec<String> {
    indices.iter().map(|&i| store.rows[i][col].clone()).collect()
}

#[test]
fn empty_filter_no_sort_is_identity() {
    let store = store_from("id,name\n1,a\n2,b\n3,c\n");
    let r = compute(&store, "", None);
    assert_eq!(r, vec![0, 1, 2]);
}

#[test]
fn empty_filter_is_identity_on_every_call() {
    let store = store_from("id,name\n1,a\n2,b\n3,c\n4,d\n");
    let first = compute(&store, "", None);
    let second = compute(&store, "", None);
    let third = compute(&store, "", None);
    assert_eq!(first, vec![0, 1, 2, 3]);
    assert_eq!(second, first);
    assert_eq!(third, first);
}

#[test]
fn filter_keeps_exactly_matching_rows() {
    let store = store_from("id,name,city\n1,John,Boston\n2,Mark,Paris\n3,Ann,Rome\n4,Clara,Austin\n5,Bo,Tulsa\n");
    let r = compute(&store, "ar", None);
    assert_eq!(r, vec![1, 3]);
    for &i in &r {
        assert!(store.rows[i].iter().any(|f| f.contains("ar")));
    }
    for i in 0..store.rows.len() {
        if !r.contains(&i) {
            assert!(!store.rows[i].iter().any(|f| f.contains("ar")));
        }
    }
}

#[test]
fn filter_is_case_sensitive() {
    let store = store_from("name\nArthur\nmarble\nAR\n");
    let r = compute(&store, "ar", None);
    assert_eq!(r, vec![1]);
}

#[test]
fn filter_with_no_matches_is_empty() {
    let store = store_from("name\nalpha\nbeta\n");
    let r = compute(&store, "zzz", None);
    assert!(r.is_empty());
}

#[test]
fn numeric_sort_ascending() {
    let store = store_from("v\n10\n9\n2\n");
    let r = compute(&store, "", Some((0, SortOrder::Asc)));
    assert_eq!(column_values(&store, &r, 0), vec!["2", "9", "10"]);
}

#[test]
fn mixed_column_falls_back_to_lexicographic() {
    let store = store_from("v\n10\nabc\n2\n");
    let r = compute(&store, "", Some((0, SortOrder::Asc)));
    assert_eq!(column_values(&store, &r, 0), vec!["10", "2", "abc"]);
}

#[test]
fn numeric_sort_descending() {
    let store = store_from("v\n10\n9\n2\n");
    let r = compute(&store, "", Some((0, SortOrder::Dsc)));
    assert_eq!(column_values(&store, &r, 0), vec!["10", "9", "2"]);
}

#[test]
fn numeric_sort_handles_signs_and_fractions() {
    let store = store_from("v\n1.5\n-2\n0.25\n-0.5\n3\n");
    let r = compute(&store, "", Some((0, SortOrder::Asc)));
    assert_eq!(column_values(&store, &r, 0), vec!["-2", "-0.5", "0.25", "1.5", "3"]);
}

#[test]
fn sort_is_stable_on_equal_keys() {
    let store = store_from("k,tag\n2,a\n1,b\n2,c\n1,d\n2,e\n");
    let r = compute(&store, "", Some((0, SortOrder::Asc)));
    // equal keys keep original relative order
    assert_eq!(r, vec![1, 3, 0, 2, 4]);
}

#[test]
fn sort_is_stable_on_equal_numeric_values() {
    // 1, 1.0 and 1.00 denote the same number: original order is kept
    let store = store_from("k\n1.0\n0.5\n1\n1.00\n");
    let r = compute(&store, "", Some((0, SortOrder::Asc)));
    assert_eq!(r, vec![1, 0, 2, 3]);
}

#[test]
fn out_of_range_sort_column_means_no_sort() {
    let store = store_from("a,b\n3,x\n1,y\n");
    let r = compute(&store, "", Some((5, SortOrder::Asc)));
    assert_eq!(r, vec![0, 1]);
}

#[test]
fn filter_and_sort_combine() {
    let store = store_from("id,name\n1,par\n2,nope\n3,ar\n4,bar\n");
    let r = compute(&store, "ar", Some((1, SortOrder::Asc)));
    assert_eq!(column_values(&store, &r, 1), vec!["ar", "bar", "par"]);
}

#[test]
fn malformed_rows_are_dropped_and_counted() {
    let data = "a,b,c\n1,2,3\n4,5\n6,7,8,9\n10,11,12\n";
    let (store, dropped) = load_from_bytes(data.as_bytes()).expect("csv should load");
    assert_eq!(dropped, 2);
    assert_eq!(store.rows.len(), 2);
    assert_eq!(store.rows[0], vec!["1", "2", "3"]);
    assert_eq!(store.rows[1], vec!["10", "11", "12"]);
}

#[test]
fn invalid_bytes_are_an_error_not_a_crash() {
    let bytes = [b'a', b',', b'b', b'\n', 0xff, 0xfe, b',', b'x', b'\n'];
    let r = load_from_bytes(&bytes);
    assert!(r.is_err());
    let e = r.err().unwrap();
    assert!(!e.message_text().is_empty());
}

#[test]
fn header_columns_start_visible_and_unsorted() {
    let store = store_from("id,name,city\n1,a,b\n");
    assert_eq!(store.header.len(), 3);
    assert_eq!(store.header[0].name, "id");
    assert_eq!(store.header[1].name, "name");
    assert_eq!(store.header[2].name, "city");
    for h in &store.header {
        assert!(h.visible);
        assert!(h.sort.is_none());
    }
}

#[test]
fn round_trip_filter_and_clear() {
    let data = "id,name,city\n1,John,Boston\n2,Mark,Paris\n3,Ann,Rome\n4,Clara,Austin\n5,Bo,Tulsa\n";
    let store = store_from(data);
    assert_eq!(store.rows.len(), 5);
    let filtered = compute(&store, "ar", None);
    assert_eq!(filtered, vec![1, 3]);
    assert_eq!(store.rows[1], vec!["2", "Mark", "Paris"]);
    assert_eq!(store.rows[3], vec!["4", "Clara", "Austin"]);
    let cleared = compute(&store, "", None);
    assert_eq!(cleared, vec![0, 1, 2, 3, 4]);
}
