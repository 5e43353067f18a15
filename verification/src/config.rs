//! The decoded configuration document and the decoder that turns it into a
//! [`Config`].
//!
//! Decoding walks the declared backends in document order. For each it checks
//! the name's length, decides the authentication, builds the endpoint and
//! enters the backend into the registry under both of its keys. The first
//! backend that fails ends the decoding with its error. Then an empty
//! registry and an unparsable listen address are turned down, in that order.
use vstd::prelude::*;
use vstd::string::*;
use crate::error::ConfigError;
pub use crate::node::{AuthMode, AuthModel, Node, NodeModel, MAX_NAME_CHARS};
use crate::registry::{registered, Registry};
use crate::text::{endpoint_string, endpoint_text};

verus! {

/// One declared backend, as the document gives it.
#[derive(Debug, Clone, PartialEq, Eq)]
pub struct BackendDescriptor {
    pub id: u16,
    pub name: String,
    pub host: String,
    pub port: u16,
    /// The path of a cookie file that holds the credentials.
    pub cookie_file: Option<String>,
    pub user: Option<String>,
    pub password: Option<String>,
}

/// The mathematical value of a [`BackendDescriptor`].
pub struct DescriptorModel {
    pub id: u16,
    pub name: Seq<char>,
    pub host: Seq<char>,
    pub port: u16,
    pub cookie_file: Option<Seq<char>>,
    pub user: Option<Seq<char>>,
    pub password: Option<Seq<char>>,
}

/// The text that an optional string holds.
pub open spec fn optional_text(field: Option<String>) -> Option<Seq<char>> {
    match field {
        Some(text) => Some(text@),
        None => None,
    }
}

impl View for BackendDescriptor {
    type V = DescriptorModel;

    open spec fn view(&self) -> DescriptorModel {
        DescriptorModel {
            id: self.id,
            name: self.name@,
            host: self.host@,
            port: self.port,
            cookie_file: optional_text(self.cookie_file),
            user: optional_text(self.user),
            password: optional_text(self.password),
        }
    }
}

/// A decoded configuration document.
#[derive(Debug, Clone, PartialEq, Eq)]
pub struct Document {
    /// The address to listen on, as parsed from its text `ip:port`; `None`
    /// where the text is no socket address.
    pub address: Option<ListenAddress>,
    /// The root directory of the static assets.
    pub www_path: String,
    /// The declared backends, in document order.
    pub nodes: Vec<BackendDescriptor>,
}

/// The mathematical value of a [`Document`].
pub struct DocumentModel {
    pub address: Option<ListenAddress>,
    pub www_path: Seq<char>,
    pub nodes: Seq<DescriptorModel>,
}

impl View for Document {
    type V = DocumentModel;

    open spec fn view(&self) -> DocumentModel {
        DocumentModel {
            address: self.address,
            www_path: self.www_path@,
            nodes: self.nodes@.map_values(|descriptor: BackendDescriptor| descriptor@),
        }
    }
}

/// A socket address to listen on, in plain values.
#[derive(Debug, Clone, Copy, PartialEq, Eq)]
pub enum ListenAddress {
    V4 { octets: [u8; 4], port: u16 },
    V6 { segments: [u16; 8], port: u16, flowinfo: u32, scope_id: u32 },
}

/// The validated configuration of the gateway. It holds at least one backend.
#[derive(Debug, Clone)]
pub struct Config {
    /// The address to bind the HTTP listener to.
    pub listen_address: ListenAddress,
    /// The root directory of the static assets.
    pub static_root: String,
    /// The backends, by identifier and by name.
    pub nodes: Registry,
}

/// The mathematical value of a [`Config`].
pub struct ConfigModel {
    pub listen_address: ListenAddress,
    pub static_root: Seq<char>,
    pub nodes: Map<Seq<char>, NodeModel>,
}

impl View for Config {
    type V = ConfigModel;

    open spec fn view(&self) -> ConfigModel {
        ConfigModel {
            listen_address: self.listen_address,
            static_root: self.static_root@,
            nodes: self.nodes@,
        }
    }
}

/// The authentication that a descriptor asks for. A cookie file, where one is
/// named, decides alone: it must be present. Without one, a user and a
/// password are needed, both of them.
pub open spec fn auth_decision(descriptor: DescriptorModel, cookie_present: bool) -> Result<
    AuthModel,
    ConfigError,
> {
    match descriptor.cookie_file {
        Some(path) => if cookie_present {
            Ok(AuthModel::CookieFile(path))
        } else {
            Err(ConfigError::CookieFileMissing)
        },
        None => match (descriptor.user, descriptor.password) {
            (Some(user), Some(password)) => Ok(AuthModel::UserPass(user, password)),
            _ => Err(ConfigError::NoAuthMethod),
        },
    }
}

/// The backend that a descriptor resolves to: its name must fit, and its
/// authentication must be decided.
pub open spec fn node_decision(descriptor: DescriptorModel, cookie_present: bool) -> Result<
    NodeModel,
    ConfigError,
> {
    if descriptor.name.len() > MAX_NAME_CHARS {
        Err(ConfigError::NameTooLong)
    } else {
        match auth_decision(descriptor, cookie_present) {
            Ok(auth) => Ok(
                NodeModel {
                    id: descriptor.id,
                    name: descriptor.name,
                    endpoint: endpoint_text(descriptor.host, descriptor.port),
                    auth,
                },
            ),
            Err(error) => Err(error),
        }
    }
}

/// Whether the cookie file of the backend at `index` counts as present:
/// `present` answers for the backends it covers, and for no other.
pub open spec fn present_at(present: Seq<bool>, index: int) -> bool {
    0 <= index < present.len() && present[index]
}

/// The registry after the backends `descriptors` were entered in order, or
/// the error of the first one that fails.
pub open spec fn nodes_decision(descriptors: Seq<DescriptorModel>, present: Seq<bool>) -> Result<
    Map<Seq<char>, NodeModel>,
    ConfigError,
>
    decreases descriptors.len(),
{
    if descriptors.len() == 0 {
        Ok(Map::empty())
    } else {
        match nodes_decision(descriptors.drop_last(), present) {
            Err(error) => Err(error),
            Ok(table) => match node_decision(
                descriptors.last(),
                present_at(present, descriptors.len() - 1),
            ) {
                Err(error) => Err(error),
                Ok(node) => Ok(registered(table, node)),
            },
        }
    }
}

/// What decoding `document` gives, where `present` says of each backend
/// whether its cookie file exists.
pub open spec fn config_decision(document: DocumentModel, present: Seq<bool>) -> Result<
    ConfigModel,
    ConfigError,
> {
    match nodes_decision(document.nodes, present) {
        Err(error) => Err(error),
        Ok(table) => if document.nodes.len() == 0 {
            Err(ConfigError::NoNodes)
        } else {
            match document.address {
                None => Err(ConfigError::InvalidAddress),
                Some(address) => Ok(
                    ConfigModel {
                        listen_address: address,
                        static_root: document.www_path,
                        nodes: table,
                    },
                ),
            }
        },
    }
}

/// The mathematical value of an authentication decision.
pub open spec fn auth_outcome(result: Result<AuthMode, ConfigError>) -> Result<
    AuthModel,
    ConfigError,
> {
    match result {
        Ok(auth) => Ok(auth@),
        Err(error) => Err(error),
    }
}

/// The mathematical value of a resolved backend or its error.
pub open spec fn node_outcome(result: Result<Node, ConfigError>) -> Result<NodeModel, ConfigError> {
    match result {
        Ok(node) => Ok(node@),
        Err(error) => Err(error),
    }
}

/// The mathematical value of a decoding's result.
pub open spec fn config_outcome(result: Result<Config, ConfigError>) -> Result<
    ConfigModel,
    ConfigError,
> {
    match result {
        Ok(config) => Ok(config@),
        Err(error) => Err(error),
    }
}

/// Asks the file system whether anything exists at `path`, with
/// `std::path::Path::exists`. The answer depends on what is on disk when the
/// call is made, so nothing is claimed of it.
#[verifier::external_body]
fn path_exists(path: &str) -> (present: bool) {
    std::path::Path::new(path).exists()
}

/// Decides the authentication of `descriptor`, given whether its cookie file
/// exists.
pub fn auth_from(descriptor: &BackendDescriptor, cookie_present: bool) -> (result: Result<
    AuthMode,
    ConfigError,
>)
    ensures
        auth_outcome(result) == auth_decision(descriptor@, cookie_present),
{
    match &descriptor.cookie_file {
        Some(path) => {
            if cookie_present {
                Ok(AuthMode::CookieFile(path.clone()))
            } else {
                Err(ConfigError::CookieFileMissing)
            }
        },
        None => match (&descriptor.user, &descriptor.password) {
            (Some(user), Some(password)) => Ok(AuthMode::UserPass(user.clone(), password.clone())),
            _ => Err(ConfigError::NoAuthMethod),
        },
    }
}

/// Decides the authentication of `descriptor`. Where it names a cookie file,
/// the file system is asked whether the file exists; nothing else is read.
pub fn resolve_auth(descriptor: &BackendDescriptor) -> (result: Result<AuthMode, ConfigError>)
    ensures
        auth_outcome(result) == auth_decision(descriptor@, true) || auth_outcome(result)
            == auth_decision(descriptor@, false),
        descriptor.cookie_file is None ==> auth_outcome(result) == auth_decision(
            descriptor@,
            false,
        ),
{
    match &descriptor.cookie_file {
        Some(path) => {
            let present = path_exists(path.as_str());
            auth_from(descriptor, present)
        },
        None => auth_from(descriptor, false),
    }
}

/// Whether the name of `descriptor` is within the limit.
pub fn name_fits(descriptor: &BackendDescriptor) -> (fits: bool)
    ensures
        fits == (descriptor@.name.len() <= MAX_NAME_CHARS),
{
    descriptor.name.as_str().unicode_len() <= MAX_NAME_CHARS
}

/// The backend that `descriptor` declares, with `auth` as its authentication.
pub fn node_with(descriptor: &BackendDescriptor, auth: AuthMode) -> (node: Node)
    ensures
        node@ == (NodeModel {
            id: descriptor.id,
            name: descriptor.name@,
            endpoint: endpoint_text(descriptor.host@, descriptor.port),
            auth: auth@,
        }),
{
    Node {
        id: descriptor.id,
        name: descriptor.name.clone(),
        endpoint: endpoint_string(&descriptor.host, descriptor.port),
        auth,
    }
}

/// Resolves `descriptor` to a backend, given whether its cookie file exists.
pub fn node_from(descriptor: &BackendDescriptor, cookie_present: bool) -> (result: Result<
    Node,
    ConfigError,
>)
    ensures
        node_outcome(result) == node_decision(descriptor@, cookie_present),
{
    if !name_fits(descriptor) {
        return Err(ConfigError::NameTooLong);
    }
    match auth_from(descriptor, cookie_present) {
        Ok(auth) => Ok(node_with(descriptor, auth)),
        Err(error) => Err(error),
    }
}

/// Resolves `descriptor` to a backend. The file system is asked for the
/// cookie file only where the name fits and a cookie file is named.
pub fn resolve_node(descriptor: &BackendDescriptor) -> (result: Result<Node, ConfigError>)
    ensures
        node_outcome(result) == node_decision(descriptor@, true) || node_outcome(result)
            == node_decision(descriptor@, false),
        descriptor.cookie_file is None ==> node_outcome(result) == node_decision(
            descriptor@,
            false,
        ),
{
    if !name_fits(descriptor) {
        return Err(ConfigError::NameTooLong);
    }
    match resolve_auth(descriptor) {
        Ok(auth) => Ok(node_with(descriptor, auth)),
        Err(error) => Err(error),
    }
}

/// The answers beyond the backends in `descriptors` do not matter.
pub proof fn lemma_nodes_decision_agrees(
    descriptors: Seq<DescriptorModel>,
    first: Seq<bool>,
    second: Seq<bool>,
)
    requires
        forall|i: int| 0 <= i < descriptors.len() ==> present_at(first, i) == present_at(second, i),
    ensures
        nodes_decision(descriptors, first) == nodes_decision(descriptors, second),
    decreases descriptors.len(),
{
    if descriptors.len() > 0 {
        lemma_nodes_decision_agrees(descriptors.drop_last(), first, second);
    }
}

/// Once a backend has failed, its error is the result, whatever follows it.
pub proof fn lemma_first_error_stands(
    descriptors: Seq<DescriptorModel>,
    present: Seq<bool>,
    upto: int,
)
    requires
        0 <= upto <= descriptors.len(),
        nodes_decision(descriptors.take(upto), present) is Err,
    ensures
        nodes_decision(descriptors, present) == nodes_decision(descriptors.take(upto), present),
    decreases descriptors.len() - upto,
{
    if upto < descriptors.len() {
        assert(descriptors.drop_last().take(upto) =~= descriptors.take(upto));
        lemma_first_error_stands(descriptors.drop_last(), present, upto);
    } else {
        assert(descriptors.take(upto) =~= descriptors);
    }
}

/// One more backend, entered after those before it.
pub proof fn lemma_nodes_decision_step(descriptors: Seq<DescriptorModel>, present: Seq<bool>, at: int)
    requires
        0 <= at < descriptors.len(),
    ensures
        nodes_decision(descriptors.take(at + 1), present) == (match nodes_decision(
            descriptors.take(at),
            present,
        ) {
            Err(error) => Err(error),
            Ok(table) => match node_decision(descriptors[at], present_at(present, at)) {
                Err(error) => Err(error),
                Ok(node) => Ok(registered(table, node)),
            },
        }),
{
    assert(descriptors.take(at + 1).drop_last() =~= descriptors.take(at));
    assert(descriptors.take(at + 1).last() == descriptors[at]);
}

impl Config {
    /// A configuration holds at least one backend.
    pub open spec fn populated(&self) -> bool {
        self.nodes@.dom().finite() && self.nodes@.len() > 0
    }
}

/// Whether no backend of `document` names a cookie file.
pub open spec fn no_cookie_files(document: DocumentModel) -> bool {
    forall|i: int| 0 <= i < document.nodes.len() ==> (#[trigger] document.nodes[i]).cookie_file is None
}

/// The last two checks of decoding: a configuration needs a backend and a
/// listen address.
fn conclude(registry: Registry, document: &Document) -> (result: Result<Config, ConfigError>)
    ensures
        config_outcome(result) == (if registry@ == Map::<Seq<char>, NodeModel>::empty() {
            Err(ConfigError::NoNodes)
        } else {
            match document.address {
                None => Err(ConfigError::InvalidAddress),
                Some(address) => Ok(
                    ConfigModel {
                        listen_address: address,
                        static_root: document@.www_path,
                        nodes: registry@,
                    },
                ),
            }
        }),
        result matches Ok(config) ==> config.populated(),
{
    if registry.is_empty() {
        return Err(ConfigError::NoNodes);
    }
    match document.address {
        None => Err(ConfigError::InvalidAddress),
        Some(address) => Ok(
            Config { listen_address: address, static_root: document.www_path.clone(), nodes: registry },
        ),
    }
}

/// A failed decoding: the error, and the position in the document of the
/// backend that it is about. An error that is about no backend, a document
/// without backends or an unparsable listen address, has no position.
#[derive(Debug, Clone, Copy, PartialEq, Eq)]
pub struct DecodeFailure {
    pub error: ConfigError,
    pub backend: Option<usize>,
}

/// Whether every backend resolves.
pub open spec fn all_resolve(descriptors: Seq<DescriptorModel>, present: Seq<bool>) -> bool {
    forall|i: int|
        0 <= i < descriptors.len() ==> (#[trigger] node_decision(
            descriptors[i],
            present_at(present, i),
        )) is Ok
}

/// Whether `failure` points at the right place: at the first backend that
/// does not resolve, with that backend's error, or at no backend where all
/// of them resolve.
pub open spec fn blames(
    descriptors: Seq<DescriptorModel>,
    present: Seq<bool>,
    failure: DecodeFailure,
) -> bool {
    match failure.backend {
        Some(at) => {
            &&& at < descriptors.len()
            &&& forall|j: int|
                0 <= j < at ==> (#[trigger] node_decision(descriptors[j], present_at(present, j)))
                    is Ok
            &&& node_decision(descriptors[at as int], present_at(present, at as int)) == Err::<
                NodeModel,
                ConfigError,
            >(failure.error)
        },
        None => all_resolve(descriptors, present),
    }
}

/// The mathematical value of a traced decoding's result.
pub open spec fn traced_outcome(result: Result<Config, DecodeFailure>) -> Result<
    ConfigModel,
    ConfigError,
> {
    match result {
        Ok(config) => Ok(config@),
        Err(failure) => Err(failure.error),
    }
}

/// Whether `result` is what decoding `document` gives where `present` says
/// which cookie files exist, a failure pointing at the backend that caused
/// it.
pub open spec fn decoded_as(
    result: Result<Config, DecodeFailure>,
    document: DocumentModel,
    present: Seq<bool>,
) -> bool {
    &&& traced_outcome(result) == config_decision(document, present)
    &&& result matches Err(failure) ==> blames(document.nodes, present, failure)
}

/// Without cookie files the answers about them do not matter.
pub proof fn lemma_without_cookie_files(
    descriptors: Seq<DescriptorModel>,
    first: Seq<bool>,
    second: Seq<bool>,
)
    requires
        forall|i: int| 0 <= i < descriptors.len() ==> (#[trigger] descriptors[i]).cookie_file is None,
    ensures
        nodes_decision(descriptors, first) == nodes_decision(descriptors, second),
        forall|i: int, one: bool, other: bool|
            0 <= i < descriptors.len() ==> #[trigger] node_decision(descriptors[i], one)
                == #[trigger] node_decision(descriptors[i], other),
    decreases descriptors.len(),
{
    assert forall|i: int, one: bool, other: bool| 0 <= i < descriptors.len() implies #[trigger] node_decision(
        descriptors[i],
        one,
    ) == #[trigger] node_decision(descriptors[i], other) by {
        assert(descriptors[i].cookie_file is None);
    }
    if descriptors.len() > 0 {
        let front = descriptors.drop_last();
        assert forall|i: int| 0 <= i < front.len() implies (#[trigger] front[i]).cookie_file is None by {
            assert(front[i] == descriptors[i]);
        }
        lemma_without_cookie_files(front, first, second);
        let last = descriptors.len() - 1;
        assert(node_decision(descriptors[last], present_at(first, last)) == node_decision(
            descriptors[last],
            present_at(second, last),
        ));
    }
}

/// Decodes `document`. The answers about the cookie files are taken from
/// `answers` where it is given, a backend that it does not cover counting as
/// having none; without it the file system is asked, for each backend whose
/// name fits and that names a cookie file, up to the first backend that
/// fails. The second result is the answers that the decoding went by.
fn decode_from(document: &Document, answers: Option<&Vec<bool>>) -> (out: (
    Result<Config, DecodeFailure>,
    Ghost<Seq<bool>>,
))
    ensures
        decoded_as(out.0, document@, out.1@),
        answers matches Some(given) ==> out.1@ == given@,
        out.0 matches Ok(config) ==> config.populated(),
{
    let mut registry = Registry::new();
    let mut at: usize = 0;
    let ghost mut present: Seq<bool> = match answers {
        Some(given) => given@,
        None => Seq::<bool>::empty(),
    };
    while at < document.nodes.len()
        invariant
            at <= document.nodes@.len(),
            answers matches Some(given) ==> present == given@,
            answers is None ==> present.len() == at,
            nodes_decision(document@.nodes.take(at as int), present) == Ok::<
                Map<Seq<char>, NodeModel>,
                ConfigError,
            >(registry@),
            forall|j: int|
                0 <= j < at ==> (#[trigger] node_decision(
                    document@.nodes[j],
                    present_at(present, j),
                )) is Ok,
            at > 0 ==> registry@ != Map::<Seq<char>, NodeModel>::empty(),
        decreases document.nodes@.len() - at,
    {
        let descriptor = &document.nodes[at];
        let resolved = match answers {
            Some(given) => node_from(descriptor, at < given.len() && given[at]),
            None => resolve_node(descriptor),
        };
        proof {
            let model = document@.nodes[at as int];
            let answer = node_outcome(resolved) == node_decision(model, true);
            let longer = if answers is Some {
                present
            } else {
                present.push(answer)
            };
            lemma_nodes_decision_agrees(document@.nodes.take(at as int), present, longer);
            lemma_nodes_decision_step(document@.nodes, longer, at as int);
            assert forall|j: int| 0 <= j < at implies (#[trigger] node_decision(
                document@.nodes[j],
                present_at(longer, j),
            )) is Ok by {
                assert(present_at(longer, j) == present_at(present, j));
                assert(node_decision(document@.nodes[j], present_at(present, j)) is Ok);
            }
            assert(node_outcome(resolved) == node_decision(model, present_at(longer, at as int)));
            present = longer;
        }
        match resolved {
            Ok(node) => {
                registry = registry.register(node);
                assert(registry@.contains_key(node@.name));
            },
            Err(error) => {
                proof {
                    lemma_first_error_stands(document@.nodes, present, at + 1);
                }
                return (Err(DecodeFailure { error, backend: Some(at) }), Ghost(present));
            },
        }
        at += 1;
    }
    proof {
        assert(document@.nodes.take(at as int) =~= document@.nodes);
    }
    match conclude(registry, document) {
        Ok(config) => (Ok(config), Ghost(present)),
        Err(error) => (Err(DecodeFailure { error, backend: None }), Ghost(present)),
    }
}

/// Decodes `document` without touching the file system: `cookie_present`
/// says of each backend, by its position, whether its cookie file exists. A
/// backend that it does not cover counts as having none. A failure names the
/// backend that caused it.
pub fn decode_traced(document: &Document, cookie_present: &Vec<bool>) -> (result: Result<
    Config,
    DecodeFailure,
>)
    ensures
        decoded_as(result, document@, cookie_present@),
        result matches Ok(config) ==> config.populated(),
{
    decode_from(document, Some(cookie_present)).0
}

/// Decodes `document` without touching the file system, as [`decode_traced`]
/// does, and gives the bare error where it fails.
pub fn decode(document: &Document, cookie_present: &Vec<bool>) -> (result: Result<
    Config,
    ConfigError,
>)
    ensures
        config_outcome(result) == config_decision(document@, cookie_present@),
        result matches Ok(config) ==> config.populated(),
{
    match decode_traced(document, cookie_present) {
        Ok(config) => Ok(config),
        Err(failure) => Err(failure.error),
    }
}

/// Decodes `document`, asking the file system for each cookie file that a
/// backend names, in document order and up to the first backend that fails.
/// A failure names the backend that caused it.
///
/// The result is what [`decode_traced`] gives for some answer of the file
/// system about the cookie files; where no backend names one, nothing is
/// asked and the result is fixed.
pub fn load_config_traced(document: &Document) -> (result: Result<Config, DecodeFailure>)
    ensures
        exists|present: Seq<bool>| #[trigger] decoded_as(result, document@, present),
        no_cookie_files(document@) ==> decoded_as(result, document@, Seq::<bool>::empty()),
        result matches Ok(config) ==> config.populated(),
{
    let (result, Ghost(present)) = decode_from(document, None);
    proof {
        assert(decoded_as(result, document@, present));
        if no_cookie_files(document@) {
            lemma_without_cookie_files(document@.nodes, present, Seq::<bool>::empty());
            if let Err(failure) = result {
                assert(blames(document@.nodes, Seq::<bool>::empty(), failure)) by {
                    assert forall|j: int| 0 <= j < document@.nodes.len() implies node_decision(
                        document@.nodes[j],
                        present_at(Seq::<bool>::empty(), j),
                    ) == node_decision(document@.nodes[j], present_at(present, j)) by {}
                }
            }
        }
    }
    result
}

/// Decodes `document` as [`load_config_traced`] does, and gives the bare
/// error where it fails.
///
/// The result is what [`decode`] gives for some answer of the file system
/// about the cookie files; where no backend names one, nothing is asked and
/// the result is fixed.
pub fn load_config(document: &Document) -> (result: Result<Config, ConfigError>)
    ensures
        exists|present: Seq<bool>|
            config_outcome(result) == #[trigger] config_decision(document@, present),
        no_cookie_files(document@) ==> config_outcome(result) == config_decision(
            document@,
            Seq::<bool>::empty(),
        ),
        result matches Ok(config) ==> config.populated(),
{
    let traced = load_config_traced(document);
    proof {
        let present = choose|present: Seq<bool>| #[trigger] decoded_as(traced, document@, present);
        assert(traced_outcome(traced) == config_decision(document@, present));
    }
    match traced {
        Ok(config) => Ok(config),
        Err(failure) => Err(failure.error),
    }
}

} // verus!
