use dht::node::{Node, NodeServer};
use dht::repl::{render_del, render_get, render_set};
use dht::store::KvStore;

#[test]
fn server_answers_the_three_operations() {
    let mut server = NodeServer::new(KvStore::new());
    assert_eq!(server.get("foo".to_string()), None);
    assert_eq!(server.insert("foo".to_string(), "bar".to_string()), None);
    assert_eq!(server.get("foo".to_string()), Some("bar".to_string()));
    assert_eq!(server.insert("foo".to_string(), "baz".to_string()), Some("bar".to_string()));
    assert_eq!(server.remove("foo".to_string()), Some("baz".to_string()));
    assert_eq!(server.remove("foo".to_string()), None);
}

#[test]
fn end_to_end_session_prints_expected_lines() {
    let mut server = NodeServer::new(KvStore::new());

    let _ = server.insert("foo".to_string(), "bar".to_string());
    assert_eq!(render_set(), "OK");

    assert_eq!(render_get(&server.get("foo".to_string())), "bar");

    assert_eq!(render_del(&server.remove("foo".to_string())), "1");
    assert_eq!(render_del(&server.remove("foo".to_string())), "0");

    assert_eq!(render_get(&server.get("foo".to_string())), "nil");
}
