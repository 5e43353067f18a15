use proxy::error::{ConfigError, FetchError};

#[test]
fn config_error_messages() {
    assert_eq!(
        ConfigError::CookieFileMissing.message(),
        "the .cookie file path set via rpc_cookie_file does not exist"
    );
    assert_eq!(
        ConfigError::NoAuthMethod.message(),
        "please specify a Bitcoin Core RPC .cookie file (option: 'rpc_cookie_file') or a rpc_user and rpc_password"
    );
    assert_eq!(ConfigError::NoNodes.message(), "no networks defined in the configuration");
    assert_eq!(ConfigError::NameTooLong.message(), "a node name is longer than 32 characters");
    assert_eq!(ConfigError::InvalidAddress.message(), "the address could not be parsed");
}

#[test]
fn fetch_error_wraps_the_rpc_error() {
    let error = FetchError::from(bitcoincore_rpc::Error::InvalidCookieFile);
    assert!(matches!(error, FetchError::BitcoinCoreRPC(bitcoincore_rpc::Error::InvalidCookieFile)));
}
