use proxy::config::{
    decode, decode_traced, load_config, load_config_traced, BackendDescriptor, DecodeFailure,
    Document, ListenAddress,
};
use proxy::error::ConfigError;
use proxy::node::AuthMode;

fn backend(id: u16, name: &str) -> BackendDescriptor {
    BackendDescriptor {
        id,
        name: String::from(name),
        host: String::from("127.0.0.1"),
        port: 8000 + id,
        cookie_file: None,
        user: Some(format!("user{}", id)),
        password: Some(format!("pass{}", id)),
    }
}

fn local(port: u16) -> Option<ListenAddress> {
    Some(ListenAddress::V4 { octets: [127, 0, 0, 1], port })
}

fn document(nodes: Vec<BackendDescriptor>) -> Document {
    Document { address: local(4000), www_path: String::from("www"), nodes }
}

#[test]
fn decoding_keeps_address_and_static_root() {
    let config = load_config(&document(vec![backend(1, "alice")])).unwrap();
    assert_eq!(config.listen_address, ListenAddress::V4 { octets: [127, 0, 0, 1], port: 4000 });
    assert_eq!(config.static_root, "www");
}

#[test]
fn decoded_userpass_backend() {
    let config = load_config(&document(vec![backend(1, "alice")])).unwrap();
    let node = config.nodes.lookup("alice").unwrap();
    assert_eq!(node.auth, AuthMode::UserPass(String::from("user1"), String::from("pass1")));
    assert_eq!(node.endpoint, "127.0.0.1:8001");
    assert_eq!(node.id, 1);
    assert_eq!(node.name, "alice");
}

#[test]
fn decoded_cookie_backend() {
    let mut b = backend(2, "bob");
    b.cookie_file = Some(String::from("/"));
    b.user = None;
    b.password = None;
    let doc = document(vec![b]);
    let config = load_config(&doc).unwrap();
    assert_eq!(config.nodes.lookup("2").unwrap().auth, AuthMode::CookieFile(String::from("/")));
    let pure = decode(&doc, &vec![true]).unwrap();
    assert_eq!(pure.nodes.lookup("bob").unwrap().auth, AuthMode::CookieFile(String::from("/")));
}

#[test]
fn decoding_without_auth_fails() {
    let mut b = backend(2, "bob");
    b.user = None;
    b.password = None;
    assert_eq!(load_config(&document(vec![b])).err(), Some(ConfigError::NoAuthMethod));
}

#[test]
fn decoding_with_half_of_the_credentials_fails() {
    let mut only_user = backend(2, "bob");
    only_user.password = None;
    assert_eq!(
        load_config(&document(vec![backend(1, "alice"), only_user])).err(),
        Some(ConfigError::NoAuthMethod)
    );
    let mut only_password = backend(3, "carol");
    only_password.user = None;
    assert_eq!(
        load_config(&document(vec![only_password])).err(),
        Some(ConfigError::NoAuthMethod)
    );
}

#[test]
fn decoding_with_missing_cookie_file_fails() {
    let mut b = backend(2, "bob");
    b.cookie_file = Some(String::from("/no/such/dir/.cookie"));
    let doc = document(vec![backend(1, "alice"), b]);
    assert_eq!(load_config(&doc).err(), Some(ConfigError::CookieFileMissing));
    assert_eq!(decode(&doc, &vec![false, false]).err(), Some(ConfigError::CookieFileMissing));
    assert_eq!(decode(&doc, &vec![]).err(), Some(ConfigError::CookieFileMissing));
    assert!(decode(&doc, &vec![false, true]).is_ok());
}

#[test]
fn decoding_without_backends_fails() {
    assert_eq!(load_config(&document(vec![])).err(), Some(ConfigError::NoNodes));
    assert_eq!(decode(&document(vec![]), &vec![]).err(), Some(ConfigError::NoNodes));
}

#[test]
fn no_backends_is_reported_before_the_address() {
    let mut doc = document(vec![]);
    doc.address = None;
    assert_eq!(load_config(&doc).err(), Some(ConfigError::NoNodes));
}

#[test]
fn decoding_with_a_long_name_fails() {
    let long = "x".repeat(33);
    let doc = document(vec![backend(1, "alice"), backend(2, &long)]);
    assert_eq!(load_config(&doc).err(), Some(ConfigError::NameTooLong));
    let edge = "x".repeat(32);
    assert!(load_config(&document(vec![backend(2, &edge)])).is_ok());
}

#[test]
fn the_first_failing_backend_decides_the_error() {
    let mut no_auth = backend(1, "alice");
    no_auth.user = None;
    let long = "x".repeat(33);
    let doc = document(vec![no_auth.clone(), backend(2, &long)]);
    assert_eq!(load_config(&doc).err(), Some(ConfigError::NoAuthMethod));
    let doc = document(vec![backend(2, &long), no_auth]);
    assert_eq!(load_config(&doc).err(), Some(ConfigError::NameTooLong));
}

#[test]
fn unparsable_address_fails_after_the_backends() {
    let mut doc = document(vec![backend(1, "alice")]);
    doc.address = None;
    assert_eq!(load_config(&doc).err(), Some(ConfigError::InvalidAddress));
    let mut bad = backend(2, "bob");
    bad.password = None;
    doc.nodes.push(bad);
    assert_eq!(load_config(&doc).err(), Some(ConfigError::NoAuthMethod));
}

#[test]
fn distinct_backends_give_two_entries_each() {
    let doc = document(vec![backend(1, "alice"), backend(2, "bob"), backend(3, "carol")]);
    let config = load_config(&doc).unwrap();
    assert_eq!(config.nodes.len(), 6);
    assert!(!config.nodes.is_empty());
    for (id, name) in [(1u16, "alice"), (2, "bob"), (3, "carol")] {
        let by_id = config.nodes.lookup(&id.to_string()).unwrap();
        let by_name = config.nodes.lookup(name).unwrap();
        assert_eq!(by_id, by_name);
        assert_eq!(by_id.id, id);
        assert_eq!(by_id.name, name);
        assert_eq!(by_id.endpoint, format!("127.0.0.1:{}", 8000 + id));
    }
    assert!(config.nodes.lookup("dave").is_none());
    assert!(config.nodes.lookup("4").is_none());
    assert!(config.nodes.lookup("01").is_none());
}

#[test]
fn shared_name_resolves_to_the_last_backend() {
    let doc = document(vec![backend(1, "alice"), backend(2, "bob"), backend(3, "alice")]);
    let config = load_config(&doc).unwrap();
    assert_eq!(config.nodes.len(), 5);
    assert_eq!(config.nodes.lookup("alice").unwrap().id, 3);
    assert_eq!(config.nodes.lookup("1").unwrap().id, 1);
    assert_eq!(config.nodes.lookup("1").unwrap().name, "alice");
    assert_eq!(config.nodes.lookup("3").unwrap().id, 3);
}

#[test]
fn shared_id_resolves_to_the_last_backend() {
    let doc = document(vec![backend(1, "alice"), backend(1, "bob")]);
    let config = load_config(&doc).unwrap();
    assert_eq!(config.nodes.len(), 3);
    assert_eq!(config.nodes.lookup("1").unwrap().name, "bob");
    assert_eq!(config.nodes.lookup("alice").unwrap().id, 1);
    assert_eq!(config.nodes.lookup("alice").unwrap().name, "alice");
    assert_eq!(config.nodes.lookup("bob").unwrap().name, "bob");
}

#[test]
fn a_name_that_reads_as_an_identifier_shares_its_key() {
    let doc = document(vec![backend(1, "alice"), backend(2, "1")]);
    let config = load_config(&doc).unwrap();
    assert_eq!(config.nodes.len(), 3);
    assert_eq!(config.nodes.lookup("1").unwrap().id, 2);
    let own = load_config(&document(vec![backend(5, "5")])).unwrap();
    assert_eq!(own.nodes.len(), 1);
    assert_eq!(own.nodes.lookup("5").unwrap().id, 5);
}

#[test]
fn decode_and_load_config_agree_without_cookie_files() {
    let doc = document(vec![backend(1, "alice"), backend(2, "bob")]);
    let loaded = load_config(&doc).unwrap();
    let decoded = decode(&doc, &vec![true, false]).unwrap();
    assert_eq!(loaded.nodes.len(), decoded.nodes.len());
    for key in ["1", "2", "alice", "bob"] {
        assert_eq!(loaded.nodes.lookup(key), decoded.nodes.lookup(key));
    }
}

#[test]
fn ipv6_listen_address_is_kept() {
    let mut doc = document(vec![backend(1, "alice")]);
    let address = ListenAddress::V6 {
        segments: [0, 0, 0, 0, 0, 0, 0, 1],
        port: 443,
        flowinfo: 0,
        scope_id: 0,
    };
    doc.address = Some(address);
    assert_eq!(load_config(&doc).unwrap().listen_address, address);
}

#[test]
fn failure_names_the_first_backend_that_fails() {
    let mut no_auth = backend(3, "carol");
    no_auth.password = None;
    let long = "x".repeat(33);
    let doc = document(vec![backend(1, "alice"), backend(2, "bob"), no_auth, backend(4, &long)]);
    assert_eq!(
        load_config_traced(&doc).err(),
        Some(DecodeFailure { error: ConfigError::NoAuthMethod, backend: Some(2) })
    );
    assert_eq!(
        decode_traced(&doc, &vec![]).err(),
        Some(DecodeFailure { error: ConfigError::NoAuthMethod, backend: Some(2) })
    );
    let doc = document(vec![backend(4, &long), backend(1, "alice")]);
    assert_eq!(
        load_config_traced(&doc).err(),
        Some(DecodeFailure { error: ConfigError::NameTooLong, backend: Some(0) })
    );
}

#[test]
fn missing_cookie_file_names_its_backend() {
    let mut first = backend(1, "alice");
    first.cookie_file = Some(String::from("/"));
    let mut second = backend(2, "bob");
    second.cookie_file = Some(String::from("/no/such/dir/.cookie"));
    let doc = document(vec![first, second]);
    assert_eq!(
        load_config_traced(&doc).err(),
        Some(DecodeFailure { error: ConfigError::CookieFileMissing, backend: Some(1) })
    );
    assert_eq!(
        decode_traced(&doc, &vec![false, true]).err(),
        Some(DecodeFailure { error: ConfigError::CookieFileMissing, backend: Some(0) })
    );
    assert!(decode_traced(&doc, &vec![true, true]).is_ok());
}

#[test]
fn failures_about_the_whole_document_name_no_backend() {
    assert_eq!(
        load_config_traced(&document(vec![])).err(),
        Some(DecodeFailure { error: ConfigError::NoNodes, backend: None })
    );
    let mut doc = document(vec![backend(1, "alice")]);
    doc.address = None;
    assert_eq!(
        load_config_traced(&doc).err(),
        Some(DecodeFailure { error: ConfigError::InvalidAddress, backend: None })
    );
    assert_eq!(
        decode_traced(&doc, &vec![true]).err(),
        Some(DecodeFailure { error: ConfigError::InvalidAddress, backend: None })
    );
}

#[test]
fn traced_and_plain_decoding_agree() {
    let doc = document(vec![backend(1, "alice"), backend(2, "bob")]);
    let traced = load_config_traced(&doc).unwrap();
    let plain = load_config(&doc).unwrap();
    assert_eq!(traced.nodes.len(), plain.nodes.len());
    assert_eq!(traced.nodes.lookup("bob"), plain.nodes.lookup("bob"));
    assert_eq!(traced.listen_address, plain.listen_address);
    assert_eq!(traced.static_root, plain.static_root);
}
