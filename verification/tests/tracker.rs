//! Tests for the query-argument tracker and the string order.

use tql::order::{str_eq, str_lt};
use tql::state::{SqlArg, SqlArgs};

fn arg(low: u32, high: u32, name: &str) -> SqlArg {
    SqlArg { high, low, name: name.to_string() }
}

#[test]
fn reset_clears_prior_pushes() {
    let mut tracker = SqlArgs::new();
    tracker.reset("Old".to_string());
    tracker.push(Some(arg(0, 3, "stale")));
    tracker.push(None);
    tracker.reset("T".to_string());
    let (arguments, table_name) = tracker.snapshot();
    assert!(arguments.is_empty());
    assert_eq!(table_name, "T");
}

#[test]
fn new_tracker_is_empty() {
    let tracker = SqlArgs::new();
    let (arguments, table_name) = tracker.snapshot();
    assert!(arguments.is_empty());
    assert_eq!(table_name, "");
}

#[test]
fn pushes_are_snapshotted_in_call_order() {
    let mut tracker = SqlArgs::new();
    tracker.reset("T".to_string());
    tracker.push(Some(arg(1, 4, "a")));
    tracker.push(None);
    tracker.push(Some(arg(7, 9, "b")));
    let (arguments, table_name) = tracker.snapshot();
    assert_eq!(table_name, "T");
    assert_eq!(arguments.len(), 3);
    assert_eq!(arguments[0], Some(arg(1, 4, "a")));
    assert_eq!(arguments[1], None);
    assert_eq!(arguments[2], Some(arg(7, 9, "b")));
}

#[test]
fn string_order_is_lexicographic() {
    assert!(str_lt("a", "b"));
    assert!(!str_lt("b", "a"));
    assert!(str_lt("a", "ab"));
    assert!(!str_lt("ab", "a"));
    assert!(!str_lt("a", "a"));
    assert!(str_lt("", "a"));
    assert!(!str_lt("", ""));
    assert!(str_lt("Az", "aA"));
}

#[test]
fn string_equality_compares_contents() {
    assert!(str_eq("", ""));
    assert!(str_eq("abc", "abc"));
    assert!(!str_eq("abc", "abd"));
    assert!(!str_eq("abc", "ab"));
}
