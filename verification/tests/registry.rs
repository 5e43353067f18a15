use proxy::config::{load_config, BackendDescriptor, Document, ListenAddress};
use proxy::order::{rank_bytes, Rank};
use proxy::registry::Registry;

fn backend(id: u16, name: String) -> BackendDescriptor {
    BackendDescriptor {
        id,
        name,
        host: String::from("host"),
        port: id,
        cookie_file: None,
        user: Some(String::from("u")),
        password: Some(String::from("p")),
    }
}

fn document(nodes: Vec<BackendDescriptor>) -> Document {
    Document {
        address: Some(ListenAddress::V4 { octets: [127, 0, 0, 1], port: 1 }),
        www_path: String::from("www"),
        nodes,
    }
}

#[test]
fn new_registry_is_empty() {
    let registry = Registry::new();
    assert_eq!(registry.len(), 0);
    assert!(registry.is_empty());
    assert!(registry.lookup("anything").is_none());
    assert!(registry.lookup("").is_none());
}

#[test]
fn many_backends_are_all_found() {
    let ids: Vec<u16> = vec![900, 3, 65535, 0, 41, 7, 12, 100, 10, 1, 2, 77, 500, 31, 8];
    let nodes: Vec<BackendDescriptor> =
        ids.iter().map(|id| backend(*id, format!("node-{}", id))).collect();
    let config = load_config(&document(nodes)).unwrap();
    assert_eq!(config.nodes.len(), 2 * ids.len());
    for id in ids.iter() {
        let by_id = config.nodes.lookup(&id.to_string()).unwrap();
        assert_eq!(by_id.id, *id);
        let by_name = config.nodes.lookup(&format!("node-{}", id)).unwrap();
        assert_eq!(by_name.id, *id);
        assert_eq!(by_name.endpoint, format!("host:{}", id));
    }
    for miss in ["4", "node-4", "node-", "node-9000", "9", "", "zzz", "00", "node-1 "] {
        assert!(config.nodes.lookup(miss).is_none());
    }
}

#[test]
fn keys_beyond_ascii_are_found() {
    let nodes = vec![
        backend(1, String::from("z\u{00fc}rich")),
        backend(2, String::from("\u{6771}\u{4eac}")),
        backend(3, String::from("zurich")),
    ];
    let config = load_config(&document(nodes)).unwrap();
    assert_eq!(config.nodes.len(), 6);
    assert_eq!(config.nodes.lookup("z\u{00fc}rich").unwrap().id, 1);
    assert_eq!(config.nodes.lookup("\u{6771}\u{4eac}").unwrap().id, 2);
    assert_eq!(config.nodes.lookup("zurich").unwrap().id, 3);
    assert!(config.nodes.lookup("z\u{00fc}ric").is_none());
}

#[test]
fn repeated_backend_keeps_two_entries() {
    let nodes = vec![backend(4, String::from("dup")), backend(4, String::from("dup"))];
    let config = load_config(&document(nodes)).unwrap();
    assert_eq!(config.nodes.len(), 2);
    assert_eq!(config.nodes.lookup("4"), config.nodes.lookup("dup"));
}

#[test]
fn cloned_registry_resolves_alike() {
    let nodes = vec![backend(4, String::from("four")), backend(5, String::from("five"))];
    let config = load_config(&document(nodes)).unwrap();
    let copy = config.clone();
    assert_eq!(copy.nodes.len(), 4);
    for key in ["4", "5", "four", "five", "six"] {
        assert_eq!(copy.nodes.lookup(key), config.nodes.lookup(key));
    }
    let twin = config.nodes.clone();
    assert_eq!(twin.lookup("five").unwrap().id, 5);
}

#[test]
fn byte_strings_are_ranked_byte_by_byte() {
    assert_eq!(rank_bytes(b"", b""), Rank::Same);
    assert_eq!(rank_bytes(b"abc", b"abc"), Rank::Same);
    assert_eq!(rank_bytes(b"", b"a"), Rank::Before);
    assert_eq!(rank_bytes(b"a", b""), Rank::After);
    assert_eq!(rank_bytes(b"ab", b"abc"), Rank::Before);
    assert_eq!(rank_bytes(b"abd", b"abc"), Rank::After);
    assert_eq!(rank_bytes(b"10", b"9"), Rank::Before);
    assert_eq!(rank_bytes(b"b", b"abc"), Rank::After);
}
