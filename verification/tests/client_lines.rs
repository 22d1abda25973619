use dht::repl::{render_del, render_get, render_set};

#[test]
fn get_prints_value_or_nil() {
    assert_eq!(render_get(&Some("bar".to_string())), "bar");
    assert_eq!(render_get(&None), "nil");
    assert_eq!(render_get(&Some(String::new())), "");
}

#[test]
fn set_prints_ok() {
    assert_eq!(render_set(), "OK");
}

#[test]
fn del_prints_one_or_zero() {
    assert_eq!(render_del(&Some("old".to_string())), "1");
    assert_eq!(render_del(&None), "0");
}
