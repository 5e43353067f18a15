//! The ways in which decoding a configuration or calling a backend fails.
use vstd::prelude::*;
use vstd::string::*;

verus! {

/// The error type of the backend's RPC client. The library carries such a
/// value from the failed call to the operator's log and never looks inside.
#[verifier::external_type_specification]
#[verifier::external_body]
pub struct ExRpcError(bitcoincore_rpc::Error);

/// A failed call to a backend.
#[derive(Debug)]
pub enum FetchError {
    /// The RPC client reported this error.
    BitcoinCoreRPC(bitcoincore_rpc::Error),
}

impl From<bitcoincore_rpc::Error> for FetchError {
    fn from(cause: bitcoincore_rpc::Error) -> (error: FetchError) {
        FetchError::BitcoinCoreRPC(cause)
    }
}

impl vstd::std_specs::convert::FromSpecImpl<bitcoincore_rpc::Error> for FetchError {
    open spec fn obeys_from_spec() -> bool {
        true
    }

    open spec fn from_spec(cause: bitcoincore_rpc::Error) -> FetchError {
        FetchError::BitcoinCoreRPC(cause)
    }
}

/// Why a decoded configuration document was turned down.
#[derive(Debug, Clone, Copy, PartialEq, Eq, Structural)]
pub enum ConfigError {
    /// A backend names a cookie file that does not exist.
    CookieFileMissing,
    /// A backend has neither a cookie file nor both a user and a password.
    NoAuthMethod,
    /// The document declares no backend.
    NoNodes,
    /// A backend's name is longer than the limit.
    NameTooLong,
    /// The listen address is no socket address.
    InvalidAddress,
}

impl ConfigError {
    /// The sentence that tells an operator what went wrong.
    pub open spec fn message_text(self) -> Seq<char> {
        match self {
            ConfigError::CookieFileMissing => "the .cookie file path set via rpc_cookie_file does not exist"@,
            ConfigError::NoAuthMethod => "please specify a Bitcoin Core RPC .cookie file (option: 'rpc_cookie_file') or a rpc_user and rpc_password"@,
            ConfigError::NoNodes => "no networks defined in the configuration"@,
            ConfigError::NameTooLong => "a node name is longer than 32 characters"@,
            ConfigError::InvalidAddress => "the address could not be parsed"@,
        }
    }

    /// Renders the error for an operator.
    pub fn message(&self) -> (text: String)
        ensures
            text@ == self.message_text(),
    {
        match self {
            ConfigError::CookieFileMissing => String::from_str(
                "the .cookie file path set via rpc_cookie_file does not exist",
            ),
            ConfigError::NoAuthMethod => String::from_str(
                "please specify a Bitcoin Core RPC .cookie file (option: 'rpc_cookie_file') or a rpc_user and rpc_password",
            ),
            ConfigError::NoNodes => String::from_str("no networks defined in the configuration"),
            ConfigError::NameTooLong => String::from_str("a node name is longer than 32 characters"),
            ConfigError::InvalidAddress => String::from_str("the address could not be parsed"),
        }
    }
}

} // verus!
