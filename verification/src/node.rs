//! A backend as the registry holds it, and the way to authenticate against it.
use vstd::prelude::*;

verus! {

/// How the gateway authenticates against a backend.
#[derive(Debug, PartialEq, Eq)]
pub enum AuthMode {
    /// The credentials are read from the cookie file at this path.
    CookieFile(String),
    /// A user name and a password.
    UserPass(String, String),
}

/// The mathematical value of an [`AuthMode`].
pub enum AuthModel {
    CookieFile(Seq<char>),
    UserPass(Seq<char>, Seq<char>),
}

impl View for AuthMode {
    type V = AuthModel;

    open spec fn view(&self) -> AuthModel {
        match self {
            AuthMode::CookieFile(path) => AuthModel::CookieFile(path@),
            AuthMode::UserPass(user, password) => AuthModel::UserPass(user@, password@),
        }
    }
}

impl Clone for AuthMode {
    fn clone(&self) -> (copy: Self)
        ensures
            copy@ == self@,
    {
        match self {
            AuthMode::CookieFile(path) => AuthMode::CookieFile(path.clone()),
            AuthMode::UserPass(user, password) => AuthMode::UserPass(
                user.clone(),
                password.clone(),
            ),
        }
    }
}

/// A resolved backend.
#[derive(Debug, PartialEq, Eq)]
pub struct Node {
    /// The backend's numeric identifier.
    pub id: u16,
    /// The backend's name, at most [`MAX_NAME_CHARS`] characters long.
    pub name: String,
    /// The connection string, `host:port`.
    pub endpoint: String,
    /// The authentication to use against the backend.
    pub auth: AuthMode,
}

/// The mathematical value of a [`Node`].
pub struct NodeModel {
    pub id: u16,
    pub name: Seq<char>,
    pub endpoint: Seq<char>,
    pub auth: AuthModel,
}

/// The longest name a backend may have, in characters.
pub const MAX_NAME_CHARS: usize = 32;

impl View for Node {
    type V = NodeModel;

    open spec fn view(&self) -> NodeModel {
        NodeModel {
            id: self.id,
            name: self.name@,
            endpoint: self.endpoint@,
            auth: self.auth@,
        }
    }
}

impl Clone for Node {
    fn clone(&self) -> (copy: Self)
        ensures
            copy@ == self@,
    {
        Node {
            id: self.id,
            name: self.name.clone(),
            endpoint: self.endpoint.clone(),
            auth: self.auth.clone(),
        }
    }
}

} // verus!
