use tabview::registry::RowSource;
use tabview::session::Session;
use tabview::store::load_from_bytes;
use tabview::types::SortOrder;

const CSV: &str = "id,name,city\n1,John,Boston\n2,Mark,Paris\n3,Ann,Rome\n4,Clara,Austin\n5,Bo,Tulsa\n";

fn session_with_dataset() -> Session {
    let mut s = Session::new();
    let (store, _) = load_from_bytes(CSV.as_bytes()).expect("csv should load");
    s.install_dataset(String::from("people.csv"), store, Some(1));
    s
}

fn computed_indices(s: &Session, tab: usize) -> Vec<usize> {
    match s.rows_for_tab(tab) {
        RowSource::Computed(v) => v,
        RowSource::Master => panic!("expected a computed result, got the master rows"),
        RowSource::NoData => panic!("expected a computed result, got no data"),
    }
}

#[test]
fn fresh_tab_shows_master_rows() {
    let s = session_with_dataset();
    assert!(matches!(s.rows_for_tab(1), RowSource::Master));
}

#[test]
fn unknown_dataset_gives_no_data() {
    let s = Session::new();
    assert!(matches!(s.rows_for_tab(1), RowSource::NoData));
}

#[test]
fn recompute_round_trip_through_the_cache() {
    let mut s = session_with_dataset();
    assert!(s.set_filter(1, String::from("ar")));
    let req = s.make_request(1).expect("tab exists");
    let result = s.perform_recompute(&req).expect("dataset registered");
    assert!(s.apply(result));
    assert_eq!(computed_indices(&s, 1), vec![1, 3]);
}

#[test]
fn stale_result_is_discarded() {
    let mut s = session_with_dataset();
    // first request under the term "ar" ...
    assert!(s.set_filter(1, String::from("ar")));
    let req1 = s.make_request(1).expect("tab exists");
    let slow = s.perform_recompute(&req1).expect("dataset registered");
    // ... overtaken by a newer term before it lands
    assert!(s.set_filter(1, String::from("Tulsa")));
    let req2 = s.make_request(1).expect("tab exists");
    let fast = s.perform_recompute(&req2).expect("dataset registered");
    assert!(s.apply(fast));
    // the slow result arrives last and must be dropped
    assert!(!s.apply(slow));
    assert_eq!(computed_indices(&s, 1), vec![4]);
}

#[test]
fn empty_filter_result_is_still_a_result() {
    let mut s = session_with_dataset();
    assert!(s.set_filter(1, String::from("zzz")));
    let req = s.make_request(1).expect("tab exists");
    let result = s.perform_recompute(&req).expect("dataset registered");
    assert!(s.apply(result));
    assert_eq!(computed_indices(&s, 1), Vec::<usize>::new());
}

#[test]
fn clearing_the_filter_restores_all_rows() {
    let mut s = session_with_dataset();
    assert!(s.set_filter(1, String::from("ar")));
    let req = s.make_request(1).expect("tab exists");
    let result = s.perform_recompute(&req).expect("dataset registered");
    assert!(s.apply(result));
    assert!(s.clear_filter(1));
    // the cached filtered result was invalidated: back to the master rows
    assert!(matches!(s.rows_for_tab(1), RowSource::Master));
    let req = s.make_request(1).expect("tab exists");
    let result = s.perform_recompute(&req).expect("dataset registered");
    assert!(s.apply(result));
    assert_eq!(computed_indices(&s, 1), vec![0, 1, 2, 3, 4]);
}

#[test]
fn sort_request_sorts_through_the_session() {
    let mut s = session_with_dataset();
    // sort by name: first click is ascending
    assert!(s.set_sort(1, 1));
    let req = s.make_request(1).expect("tab exists");
    let result = s.perform_recompute(&req).expect("dataset registered");
    assert!(s.apply(result));
    // Ann, Bo, Clara, John, Mark
    assert_eq!(computed_indices(&s, 1), vec![2, 4, 3, 0, 1]);
    // a second click on the same column flips to descending
    assert!(s.set_sort(1, 1));
    let req = s.make_request(1).expect("tab exists");
    let result = s.perform_recompute(&req).expect("dataset registered");
    assert!(s.apply(result));
    assert_eq!(computed_indices(&s, 1), vec![1, 0, 3, 4, 2]);
}

#[test]
fn global_filter_overrides_but_does_not_overwrite() {
    let mut s = session_with_dataset();
    assert!(s.set_filter(1, String::from("ar")));
    s.set_global_filter(String::from("Bo"));
    let req = s.make_request(1).expect("tab exists");
    let result = s.perform_recompute(&req).expect("dataset registered");
    assert!(s.apply(result));
    // the global term decided the rows: Boston and Bo
    assert_eq!(computed_indices(&s, 1), vec![0, 4]);
    // the tab's own term survives and resumes once the global filter clears
    s.set_global_filter(String::new());
    let req = s.make_request(1).expect("tab exists");
    assert_eq!(req.snapshot.filter_term, "ar");
}

#[test]
fn a_result_under_a_cleared_global_filter_is_stale() {
    let mut s = session_with_dataset();
    s.set_global_filter(String::from("Bo"));
    let req = s.make_request(1).expect("tab exists");
    let result = s.perform_recompute(&req).expect("dataset registered");
    s.set_global_filter(String::new());
    // the snapshot carried the global term; the settings changed meanwhile
    assert!(!s.apply(result));
}

#[test]
fn new_tab_inherits_columns_and_numbers_up() {
    let mut s = session_with_dataset();
    let id = s.add_tab(String::from("people.csv"));
    assert_eq!(id, 2);
    let id2 = s.add_tab(String::new());
    assert_eq!(id2, 3);
    // the new tab starts on the master rows of its dataset
    assert!(matches!(s.rows_for_tab(2), RowSource::Master));
    // tabs filter independently
    assert!(s.set_filter(2, String::from("Rome")));
    let req = s.make_request(2).expect("tab exists");
    let result = s.perform_recompute(&req).expect("dataset registered");
    assert!(s.apply(result));
    assert_eq!(computed_indices(&s, 2), vec![2]);
    assert!(matches!(s.rows_for_tab(1), RowSource::Master));
}

#[test]
fn closed_tab_is_gone() {
    let mut s = session_with_dataset();
    let id = s.add_tab(String::new());
    assert!(s.close_tab(id));
    assert!(matches!(s.rows_for_tab(id), RowSource::NoData));
    assert!(!s.close_tab(id));
}

#[test]
fn toggle_column_flips_visibility() {
    let mut s = session_with_dataset();
    assert!(s.toggle_column(1, 2));
    let tab = &s.tabs[0];
    let cols = tab.columns.get(&String::from("people.csv")).expect("columns remembered");
    assert!(cols[0].visible);
    assert!(cols[1].visible);
    assert!(!cols[2].visible);
    // out of range: nothing changes
    assert!(!s.toggle_column(1, 9));
}

#[test]
fn reload_replaces_the_store_wholesale() {
    let mut s = session_with_dataset();
    let (store2, _) = load_from_bytes("id,name,city\n9,Zed,Oslo\n".as_bytes()).expect("csv");
    s.install_dataset(String::from("people.csv"), store2, Some(1));
    let req = s.make_request(1).expect("tab exists");
    let result = s.perform_recompute(&req).expect("dataset registered");
    assert!(s.apply(result));
    assert_eq!(computed_indices(&s, 1), vec![0]);
}

#[test]
fn result_for_a_closed_tab_is_dropped() {
    let mut s = session_with_dataset();
    let req = s.make_request(1).expect("tab exists");
    let result = s.perform_recompute(&req).expect("dataset registered");
    assert!(s.close_tab(1));
    assert!(!s.apply(result));
}
