use proxy::config::{auth_from, name_fits, node_from, resolve_auth, resolve_node, BackendDescriptor};
use proxy::error::ConfigError;
use proxy::node::AuthMode;

fn descriptor(
    cookie_file: Option<&str>,
    user: Option<&str>,
    password: Option<&str>,
) -> BackendDescriptor {
    BackendDescriptor {
        id: 7,
        name: String::from("alice"),
        host: String::from("10.0.0.7"),
        port: 8332,
        cookie_file: cookie_file.map(String::from),
        user: user.map(String::from),
        password: password.map(String::from),
    }
}

#[test]
fn user_and_password_give_userpass() {
    let d = descriptor(None, Some("rpc"), Some("secret"));
    assert_eq!(
        resolve_auth(&d),
        Ok(AuthMode::UserPass(String::from("rpc"), String::from("secret")))
    );
    assert_eq!(
        auth_from(&d, false),
        Ok(AuthMode::UserPass(String::from("rpc"), String::from("secret")))
    );
    assert_eq!(
        auth_from(&d, true),
        Ok(AuthMode::UserPass(String::from("rpc"), String::from("secret")))
    );
}

#[test]
fn existing_cookie_file_gives_cookie_file() {
    let d = descriptor(Some("/"), None, None);
    assert_eq!(resolve_auth(&d), Ok(AuthMode::CookieFile(String::from("/"))));
    assert_eq!(auth_from(&d, true), Ok(AuthMode::CookieFile(String::from("/"))));
}

#[test]
fn cookie_file_comes_before_user_and_password() {
    let d = descriptor(Some("/"), Some("rpc"), Some("secret"));
    assert_eq!(resolve_auth(&d), Ok(AuthMode::CookieFile(String::from("/"))));
    let missing = descriptor(Some("/no/such/dir/.cookie"), Some("rpc"), Some("secret"));
    assert_eq!(resolve_auth(&missing), Err(ConfigError::CookieFileMissing));
}

#[test]
fn missing_cookie_file_is_reported() {
    let d = descriptor(Some("/no/such/dir/.cookie"), None, None);
    assert_eq!(resolve_auth(&d), Err(ConfigError::CookieFileMissing));
    assert_eq!(auth_from(&d, false), Err(ConfigError::CookieFileMissing));
}

#[test]
fn no_auth_material_is_no_method() {
    assert_eq!(resolve_auth(&descriptor(None, None, None)), Err(ConfigError::NoAuthMethod));
}

#[test]
fn user_alone_is_no_method() {
    assert_eq!(
        resolve_auth(&descriptor(None, Some("rpc"), None)),
        Err(ConfigError::NoAuthMethod)
    );
}

#[test]
fn password_alone_is_no_method() {
    assert_eq!(
        resolve_auth(&descriptor(None, None, Some("secret"))),
        Err(ConfigError::NoAuthMethod)
    );
}

#[test]
fn name_of_32_characters_fits_and_33_does_not() {
    let mut d = descriptor(None, Some("rpc"), Some("secret"));
    d.name = "n".repeat(32);
    assert!(name_fits(&d));
    assert!(resolve_node(&d).is_ok());
    d.name = "n".repeat(33);
    assert!(!name_fits(&d));
    assert_eq!(resolve_node(&d), Err(ConfigError::NameTooLong));
    assert_eq!(node_from(&d, true), Err(ConfigError::NameTooLong));
}

#[test]
fn name_length_counts_characters_not_bytes() {
    let mut d = descriptor(None, Some("rpc"), Some("secret"));
    d.name = "\u{00e9}".repeat(32);
    assert_eq!(d.name.len(), 64);
    assert!(name_fits(&d));
    d.name = "\u{00e9}".repeat(33);
    assert!(!name_fits(&d));
}

#[test]
fn name_is_checked_before_authentication() {
    let mut d = descriptor(None, None, None);
    d.name = "n".repeat(40);
    assert_eq!(resolve_node(&d), Err(ConfigError::NameTooLong));
    let mut c = descriptor(Some("/no/such/dir/.cookie"), None, None);
    c.name = "n".repeat(40);
    assert_eq!(resolve_node(&c), Err(ConfigError::NameTooLong));
}

#[test]
fn resolved_node_copies_the_descriptor() {
    let d = descriptor(None, Some("rpc"), Some("secret"));
    let node = resolve_node(&d).unwrap();
    assert_eq!(node.id, 7);
    assert_eq!(node.name, "alice");
    assert_eq!(node.endpoint, "10.0.0.7:8332");
    assert_eq!(node.auth, AuthMode::UserPass(String::from("rpc"), String::from("secret")));
    assert_eq!(node_from(&d, false).unwrap(), node);
}
