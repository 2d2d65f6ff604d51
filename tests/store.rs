use seasonal::db::{clear_all, ensure_schema};
use seasonal::export::export_headers;

fn names(v: &[&str]) -> Vec<String> {
    v.iter().map(|s| s.to_string()).collect()
}

#[test]
fn export_puts_known_fields_first() {
    let keys = names(&["asset", "Close", "id", "Date", "normalized", "M-no"]);
    assert_eq!(export_headers(&keys), names(&["Date", "Close", "M-no", "normalized", "asset", "id"]));
}

#[test]
fn export_of_unknown_fields_keeps_their_order() {
    assert_eq!(export_headers(&names(&["b", "a", "b"])), names(&["b", "a"]));
    assert!(export_headers(&Vec::new()).is_empty());
}

#[test]
fn clearing_a_store_leaves_an_empty_table() {
    let path = "/tmp/seasonal_store_clear_test.db";
    assert!(ensure_schema(path).is_ok());
    assert!(clear_all(path).is_ok());
    assert!(clear_all(path).is_ok());
}

#[test]
fn store_at_an_unusable_path_fails() {
    assert!(clear_all("/nonexistent-dir/sub/store.db").is_err());
}
